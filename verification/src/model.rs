//! The items and entries (backpacks, containers, player inventories) that the
//! library builds and searches.
use vstd::prelude::*;
use crate::text::{
    chars_of, copy_str, dec_digits, has_substr, int_to_string, lowercase, push_char, push_str,
    str_contains, string_from, to_lower,
};

verus! {

/// One item stack, possibly holding further items (shulker boxes, bundles, ...).
#[derive(Debug)]
pub struct Item {
    pub id: String,
    pub count: i64,
    pub slot: i32,
    pub custom_name: Option<String>,
    pub lore: Vec<String>,
    pub enchants: Vec<(String, i32)>,
    pub damage: Option<i32>,
    pub max_damage: Option<i32>,
    pub potion: Option<String>,
    pub contents: Vec<Item>,
    pub storage_uuid: Option<String>,
    pub head_skin: Option<String>,
    pub head_ref: Option<String>,
}

/// The kind of an entry.
#[derive(Clone, Copy, Debug, PartialEq, Eq, Structural)]
pub enum EntryKind {
    Backpack,
    Container,
    Player,
}

/// A labelled value that the user can copy from an entry.
#[derive(Debug)]
pub struct CopyAction {
    pub label: String,
    pub value: String,
}

/// One searchable entry: a backpack, a container in the world, or one
/// section of a player's inventory.
#[derive(Debug)]
pub struct Entry {
    pub kind: EntryKind,
    pub title: String,
    pub header_icon: String,
    pub meta: Vec<(String, String)>,
    pub copies: Vec<CopyAction>,
    pub items: Vec<Item>,
    pub upgrades: Vec<Item>,
    pub cols: usize,
    pub rows: usize,
    pub is_dungeon: bool,
    pub dimension: String,
    pub owner: String,
    pub uuid: String,
    pub coords: Option<(i64, i64, i64)>,
    pub search_blob: String,
    pub nbt_blob: String,
    pub max_stack: i64,
    pub all_enchants: Vec<(String, i32)>,
}


/// Containers whose contents an item component may hold.
pub const NESTED_KEYS: [&'static str; 7] = [
    "minecraft:container",
    "minecraft:bundle_contents",
    "minecraft:charged_projectiles",
    "create:package_contents",
    "cmpackagecouriers:plane_package",
    "supplementaries:quiver_content",
    "supplementaries:lunch_basket_content",
];

pub open spec fn opt_string_view(o: Option<String>) -> Option<Seq<char>> {
    match o {
        Some(s) => Some(s@),
        None => None,
    }
}

pub fn copy_opt(o: &Option<String>) -> (r: Option<String>)
    ensures
        r == *o,
{
    match o {
        Some(s) => Some(s.clone()),
        None => None,
    }
}

pub fn copy_strings(v: &Vec<String>) -> (r: Vec<String>)
    ensures
        r@ == v@,
{
    let mut out: Vec<String> = Vec::new();
    let mut i: usize = 0;
    while i < v.len()
        invariant
            i <= v@.len(),
            out@ == v@.take(i as int),
        decreases v.len() - i,
    {
        out.push(v[i].clone());
        i += 1;
        assert(out@ =~= v@.take(i as int));
    }
    assert(v@.take(v@.len() as int) =~= v@);
    out
}

pub fn copy_pairs(v: &Vec<(String, i32)>) -> (r: Vec<(String, i32)>)
    ensures
        r@ == v@,
{
    let mut out: Vec<(String, i32)> = Vec::new();
    let mut i: usize = 0;
    while i < v.len()
        invariant
            i <= v@.len(),
            out@ == v@.take(i as int),
        decreases v.len() - i,
    {
        out.push((v[i].0.clone(), v[i].1));
        i += 1;
        assert(out@ =~= v@.take(i as int));
    }
    assert(v@.take(v@.len() as int) =~= v@);
    out
}

pub fn copy_text_pairs(v: &Vec<(String, String)>) -> (r: Vec<(String, String)>)
    ensures
        r@ == v@,
{
    let mut out: Vec<(String, String)> = Vec::new();
    let mut i: usize = 0;
    while i < v.len()
        invariant
            i <= v@.len(),
            out@ == v@.take(i as int),
        decreases v.len() - i,
    {
        out.push((v[i].0.clone(), v[i].1.clone()));
        i += 1;
        assert(out@ =~= v@.take(i as int));
    }
    assert(v@.take(v@.len() as int) =~= v@);
    out
}

/// The mathematical form of an item.
pub struct ItemView {
    pub id: Seq<char>,
    pub count: i64,
    pub slot: i32,
    pub custom_name: Option<Seq<char>>,
    pub lore: Seq<Seq<char>>,
    pub enchants: Seq<(Seq<char>, i32)>,
    pub damage: Option<i32>,
    pub max_damage: Option<i32>,
    pub potion: Option<Seq<char>>,
    pub contents: Seq<ItemView>,
    pub storage_uuid: Option<Seq<char>>,
    pub head_skin: Option<Seq<char>>,
    pub head_ref: Option<Seq<char>>,
}

pub open spec fn strs_view(s: Seq<String>) -> Seq<Seq<char>> {
    s.map_values(|x: String| x@)
}

pub open spec fn pairs_view(s: Seq<(String, i32)>) -> Seq<(Seq<char>, i32)> {
    s.map_values(|p: (String, i32)| (p.0@, p.1))
}

pub open spec fn item_view(it: Item) -> ItemView
    decreases it,
{
    ItemView {
        id: it.id@,
        count: it.count,
        slot: it.slot,
        custom_name: opt_string_view(it.custom_name),
        lore: strs_view(it.lore@),
        enchants: pairs_view(it.enchants@),
        damage: it.damage,
        max_damage: it.max_damage,
        potion: opt_string_view(it.potion),
        contents: items_view(it.contents@),
        storage_uuid: opt_string_view(it.storage_uuid),
        head_skin: opt_string_view(it.head_skin),
        head_ref: opt_string_view(it.head_ref),
    }
}

pub open spec fn items_view(s: Seq<Item>) -> Seq<ItemView>
    decreases s,
{
    if s.len() == 0 {
        seq![]
    } else {
        items_view(s.drop_last()).push(item_view(s.last()))
    }
}

impl View for Item {
    type V = ItemView;

    open spec fn view(&self) -> ItemView {
        item_view(*self)
    }
}

pub proof fn lemma_items_view_len(s: Seq<Item>)
    ensures
        items_view(s).len() == s.len(),
    decreases s.len(),
{
    if s.len() > 0 {
        lemma_items_view_len(s.drop_last());
    }
}

pub proof fn lemma_items_view_index(s: Seq<Item>, i: int)
    requires
        0 <= i < s.len(),
    ensures
        items_view(s)[i] == item_view(s[i]),
        items_view(s).len() == s.len(),
    decreases s.len(),
{
    lemma_items_view_len(s);
    if i < s.len() - 1 {
        lemma_items_view_index(s.drop_last(), i);
    }
}

/// `items_view` of a prefix one longer.
pub proof fn lemma_items_view_take(s: Seq<Item>, i: int)
    requires
        0 <= i < s.len(),
    ensures
        items_view(s.take(i + 1)) == items_view(s.take(i)).push(item_view(s[i])),
{
    assert(s.take(i + 1).drop_last() =~= s.take(i));
}

pub proof fn lemma_items_view_push(s: Seq<Item>, it: Item)
    ensures
        items_view(s.push(it)) == items_view(s).push(item_view(it)),
{
    assert(s.push(it).drop_last() =~= s);
}

pub fn copy_items(v: &Vec<Item>) -> (r: Vec<Item>)
    ensures
        items_view(r@) == items_view(v@),
        r@.len() == v@.len(),
    decreases v@,
{
    let mut out: Vec<Item> = Vec::new();
    let mut i: usize = 0;
    while i < v.len()
        invariant
            i <= v@.len(),
            out@.len() == i,
            items_view(out@) == items_view(v@.take(i as int)),
        decreases v.len() - i,
    {
        assert(decreases_to!(v@ => v@[i as int]));
        let d = v[i].duplicate();
        proof {
            lemma_items_view_take(v@, i as int);
            lemma_items_view_push(out@, d);
        }
        out.push(d);
        i += 1;
    }
    assert(v@.take(v@.len() as int) =~= v@);
    out
}

/// The largest count among an item and everything nested in it.
pub open spec fn item_max(it: ItemView) -> i64
    decreases it,
{
    items_max(it.contents, it.count)
}

/// The largest of `m` and the `item_max` of each item.
pub open spec fn items_max(s: Seq<ItemView>, m: i64) -> i64
    decreases s,
{
    if s.len() == 0 {
        m
    } else {
        let a = items_max(s.drop_last(), m);
        let b = item_max(s.last());
        if a >= b {
            a
        } else {
            b
        }
    }
}

/// An item's enchantments followed by those of everything nested in it.
pub open spec fn item_enchants(it: ItemView) -> Seq<(Seq<char>, i32)>
    decreases it,
{
    it.enchants + items_enchants(it.contents)
}

pub open spec fn items_enchants(s: Seq<ItemView>) -> Seq<(Seq<char>, i32)>
    decreases s,
{
    if s.len() == 0 {
        seq![]
    } else {
        items_enchants(s.drop_last()) + item_enchants(s.last())
    }
}

proof fn lemma_items_enchants_has(s: Seq<ItemView>, k: int, p: (Seq<char>, i32))
    requires
        0 <= k < s.len(),
        item_enchants(s[k]).contains(p),
    ensures
        items_enchants(s).contains(p),
    decreases s.len(),
{
    let a = items_enchants(s.drop_last());
    let b = item_enchants(s.last());
    if k == s.len() - 1 {
        let j = choose|j: int| 0 <= j < b.len() && b[j] == p;
        assert((a + b)[a.len() + j] == p);
    } else {
        assert(s.drop_last()[k] == s[k]);
        lemma_items_enchants_has(s.drop_last(), k, p);
        let j = choose|j: int| 0 <= j < a.len() && a[j] == p;
        assert((a + b)[j] == p);
    }
}

/// The enchantments collected from an item stack hold its own enchantments
/// and every enchantment collected from each stack in its contents, so an
/// enchantment of a stack nested at any depth is collected.
pub proof fn law_item_enchants_reach_contents(it: ItemView, p: (Seq<char>, i32))
    ensures
        it.enchants.contains(p) ==> item_enchants(it).contains(p),
        forall|k: int|
            0 <= k < it.contents.len() && #[trigger] item_enchants(it.contents[k]).contains(p)
                ==> item_enchants(it).contains(p),
        forall|k: int|
            0 <= k < it.contents.len() && (#[trigger] it.contents[k]).enchants.contains(p)
                ==> item_enchants(it).contains(p),
{
    let a = it.enchants;
    let b = items_enchants(it.contents);
    if a.contains(p) {
        let j = choose|j: int| 0 <= j < a.len() && a[j] == p;
        assert((a + b)[j] == p);
    }
    assert forall|k: int|
        0 <= k < it.contents.len() && #[trigger] item_enchants(it.contents[k]).contains(p)
            implies item_enchants(it).contains(p) by {
        lemma_items_enchants_has(it.contents, k, p);
        let j = choose|j: int| 0 <= j < b.len() && b[j] == p;
        assert((a + b)[a.len() + j] == p);
    }
    assert forall|k: int|
        0 <= k < it.contents.len() && (#[trigger] it.contents[k]).enchants.contains(p)
            implies item_enchants(it).contains(p) by {
        let c = it.contents[k];
        let j = choose|j: int| 0 <= j < c.enchants.len() && c.enchants[j] == p;
        assert(item_enchants(c) == c.enchants + items_enchants(c.contents));
        assert(item_enchants(c)[j] == p);
        lemma_items_enchants_has(it.contents, k, p);
        let j2 = choose|j: int| 0 <= j < b.len() && b[j] == p;
        assert((a + b)[a.len() + j2] == p);
    }
}

/// An entry's enchantments, as `finalize` collects them, hold every
/// enchantment of its item stacks and of the stacks nested in them.
pub proof fn law_entry_enchants_reach_contents(e: Entry, extra: Seq<char>, i: int, p: (Seq<char>, i32))
    requires
        finalized(e, extra),
        0 <= i < e.items@.len(),
        item_enchants(items_view(e.items@)[i]).contains(p),
    ensures
        pairs_view(e.all_enchants@).contains(p),
{
    let s = items_view(e.items@);
    lemma_items_view_len(e.items@);
    lemma_items_enchants_has(s, i, p);
    let a = items_enchants(s);
    let b = items_enchants(items_view(e.upgrades@));
    let j = choose|j: int| 0 <= j < a.len() && a[j] == p;
    assert((a + b)[j] == p);
}

pub open spec fn line(s: Seq<char>) -> Seq<char> {
    lowercase(s).push('\n')
}

pub open spec fn lines(s: Seq<Seq<char>>) -> Seq<char>
    decreases s.len(),
{
    if s.len() == 0 {
        seq![]
    } else {
        lines(s.drop_last()) + line(s.last())
    }
}

pub open spec fn ench_lines(s: Seq<(Seq<char>, i32)>) -> Seq<char>
    decreases s.len(),
{
    if s.len() == 0 {
        seq![]
    } else {
        ench_lines(s.drop_last()) + line(s.last().0)
    }
}

pub open spec fn opt_line(o: Option<Seq<char>>) -> Seq<char> {
    match o {
        Some(n) => line(n),
        None => seq![],
    }
}

/// The lowercased lines that make an item searchable: id, name, lore,
/// enchantments, head owner, then the same for every nested item.
pub open spec fn item_search(it: ItemView) -> Seq<char>
    decreases it,
{
    line(it.id) + opt_line(it.custom_name) + lines(it.lore) + ench_lines(it.enchants) + opt_line(
        it.head_ref,
    ) + items_search(it.contents)
}

pub open spec fn items_search(s: Seq<ItemView>) -> Seq<char>
    decreases s,
{
    if s.len() == 0 {
        seq![]
    } else {
        items_search(s.drop_last()) + item_search(s.last())
    }
}

fn push_line(out: &mut String, s: &str)
    ensures
        final(out)@ == old(out)@ + line(s@),
{
    let l = to_lower(s);
    push_str(out, l.as_str());
    push_char(out, '\n');
}

/// An item stack with nothing but an id, a count and a slot.
pub open spec fn plain_item(id: Seq<char>, count: i64, slot: i32) -> ItemView {
    ItemView {
        id,
        count,
        slot,
        custom_name: None,
        lore: seq![],
        enchants: seq![],
        damage: None,
        max_damage: None,
        potion: None,
        contents: seq![],
        storage_uuid: None,
        head_skin: None,
        head_ref: None,
    }
}

/// `id` names a player head.
pub open spec fn player_head_id(id: Seq<char>) -> bool {
    has_substr(id, "player_head"@) || has_substr(id, "player_wall_head"@)
}

impl Item {
    /// An item stack of `count` items with the given id, in `slot`, with no
    /// other data.
    pub fn plain(id: String, count: i64, slot: i32) -> (r: Item)
        ensures
            r@ == plain_item(id@, count, slot),
            r.id == id,
            r@.contents.len() == 0,
            r.count == count,
            r.slot == slot,
            r.custom_name is None,
            r.lore@.len() == 0,
            r.enchants@.len() == 0,
            r.damage is None,
            r.max_damage is None,
            r.potion is None,
            r.contents@.len() == 0,
            r.storage_uuid is None,
            r.head_skin is None,
            r.head_ref is None,
    {
        let r = Item {
            id,
            count,
            slot,
            custom_name: None,
            lore: Vec::new(),
            enchants: Vec::new(),
            damage: None,
            max_damage: None,
            potion: None,
            contents: Vec::new(),
            storage_uuid: None,
            head_skin: None,
            head_ref: None,
        };
        assert(strs_view(r.lore@) =~= seq![]);
        assert(pairs_view(r.enchants@) =~= seq![]);
        assert(r@ =~= plain_item(r.id@, count, slot));
        r
    }

    /// An exact copy of the item and its contents.
    pub fn duplicate(&self) -> (r: Item)
        ensures
            r@ == self@,
        decreases self,
    {
        assert(decreases_to!(self => self.contents));
        Item {
            id: self.id.clone(),
            count: self.count,
            slot: self.slot,
            custom_name: copy_opt(&self.custom_name),
            lore: copy_strings(&self.lore),
            enchants: copy_pairs(&self.enchants),
            damage: self.damage,
            max_damage: self.max_damage,
            potion: copy_opt(&self.potion),
            contents: copy_items(&self.contents),
            storage_uuid: copy_opt(&self.storage_uuid),
            head_skin: copy_opt(&self.head_skin),
            head_ref: copy_opt(&self.head_ref),
        }
    }

    /// The custom name when it is set and non-empty, else the prettified id.
    pub fn display_name(&self) -> (r: String)
        ensures
            r@ == match self.custom_name {
                Some(n) => if n@.len() > 0 {
                    n@
                } else {
                    prettify(self.id@)
                },
                None => prettify(self.id@),
            },
    {
        if let Some(n) = &self.custom_name {
            if !n.as_str().is_empty() {
                return n.clone();
            }
        }
        prettify_id(self.id.as_str())
    }

    pub fn is_player_head(&self) -> (r: bool)
        ensures
            r == player_head_id(self.id@),
    {
        str_contains(self.id.as_str(), "player_head") || str_contains(
            self.id.as_str(),
            "player_wall_head",
        )
    }

    /// What identifies a player head's skin: the inline skin URL, else the
    /// owner reference; nothing for other items.
    pub fn head_key(&self) -> (r: Option<&str>)
        ensures
            match r {
                Some(k) => player_head_id(self.id@) && (match self.head_skin {
                    Some(s) => k@ == s@,
                    None => self.head_ref is Some && k@ == self.head_ref.unwrap()@,
                }),
                None => !player_head_id(self.id@) || (self.head_skin is None
                    && self.head_ref is None),
            },
    {
        if !self.is_player_head() {
            return None;
        }
        match &self.head_skin {
            Some(s) => Some(s.as_str()),
            None => match &self.head_ref {
                Some(h) => Some(h.as_str()),
                None => None,
            },
        }
    }

    /// The largest stack count in the item or anything nested in it.
    pub fn max_count(&self) -> (r: i64)
        ensures
            r == item_max(self@),
        decreases self,
    {
        let mut m = self.count;
        let mut i: usize = 0;
        while i < self.contents.len()
            invariant
                i <= self.contents@.len(),
                m == items_max(items_view(self.contents@.take(i as int)), self.count),
            decreases self.contents.len() - i,
        {
            assert(decreases_to!(self => self.contents));
            assert(decreases_to!(self.contents@ => self.contents@[i as int]));
            let c = self.contents[i].max_count();
            proof {
                lemma_items_view_take(self.contents@, i as int);
                let t = items_view(self.contents@.take(i + 1));
                assert(t.drop_last() == items_view(self.contents@.take(i as int)));
            }
            if c > m {
                m = c;
            }
            i += 1;
        }
        assert(self.contents@.take(self.contents@.len() as int) =~= self.contents@);
        m
    }

    /// Appends the enchantments of the item and of everything nested in it.
    pub fn collect_enchants(&self, out: &mut Vec<(String, i32)>)
        ensures
            pairs_view(final(out)@) == pairs_view(old(out)@) + item_enchants(self@),
        decreases self,
    {
        let mut i: usize = 0;
        while i < self.enchants.len()
            invariant
                i <= self.enchants@.len(),
                out@ == old(out)@ + self.enchants@.take(i as int),
            decreases self.enchants.len() - i,
        {
            out.push((self.enchants[i].0.clone(), self.enchants[i].1));
            i += 1;
            assert(out@ =~= old(out)@ + self.enchants@.take(i as int));
        }
        assert(self.enchants@.take(self.enchants@.len() as int) =~= self.enchants@);
        assert(pairs_view(out@) =~= pairs_view(old(out)@) + pairs_view(self.enchants@));
        let mut j: usize = 0;
        while j < self.contents.len()
            invariant
                j <= self.contents@.len(),
                pairs_view(out@) == pairs_view(old(out)@) + pairs_view(self.enchants@)
                    + items_enchants(items_view(self.contents@.take(j as int))),
            decreases self.contents.len() - j,
        {
            assert(decreases_to!(self => self.contents));
            assert(decreases_to!(self.contents@ => self.contents@[j as int]));
            proof {
                lemma_items_view_take(self.contents@, j as int);
                let t = items_view(self.contents@.take(j + 1));
                assert(t.drop_last() == items_view(self.contents@.take(j as int)));
            }
            self.contents[j].collect_enchants(out);
            j += 1;
        }
        assert(self.contents@.take(self.contents@.len() as int) =~= self.contents@);
        assert(pairs_view(out@) =~= pairs_view(old(out)@) + item_enchants(self@));
    }

    /// Appends the item's search lines and those of everything nested in it.
    pub fn append_search(&self, out: &mut String)
        ensures
            final(out)@ == old(out)@ + item_search(self@),
        decreases self,
    {
        let ghost start = out@;
        push_line(out, self.id.as_str());
        if let Some(n) = &self.custom_name {
            push_line(out, n.as_str());
        }
        let ghost a = out@;
        let mut i: usize = 0;
        while i < self.lore.len()
            invariant
                i <= self.lore@.len(),
                out@ == a + lines(strs_view(self.lore@.take(i as int))),
            decreases self.lore.len() - i,
        {
            assert(strs_view(self.lore@.take(i + 1)).drop_last() =~= strs_view(
                self.lore@.take(i as int),
            ));
            push_line(out, self.lore[i].as_str());
            i += 1;
            assert(out@ =~= a + lines(strs_view(self.lore@.take(i as int))));
        }
        assert(self.lore@.take(self.lore@.len() as int) =~= self.lore@);
        let ghost b = out@;
        let mut k: usize = 0;
        while k < self.enchants.len()
            invariant
                k <= self.enchants@.len(),
                out@ == b + ench_lines(pairs_view(self.enchants@.take(k as int))),
            decreases self.enchants.len() - k,
        {
            assert(pairs_view(self.enchants@.take(k + 1)).drop_last() =~= pairs_view(
                self.enchants@.take(k as int),
            ));
            push_line(out, self.enchants[k].0.as_str());
            k += 1;
            assert(out@ =~= b + ench_lines(pairs_view(self.enchants@.take(k as int))));
        }
        assert(self.enchants@.take(self.enchants@.len() as int) =~= self.enchants@);
        if let Some(r) = &self.head_ref {
            push_line(out, r.as_str());
        }
        let ghost c = out@;
        let mut j: usize = 0;
        while j < self.contents.len()
            invariant
                j <= self.contents@.len(),
                out@ == c + items_search(items_view(self.contents@.take(j as int))),
            decreases self.contents.len() - j,
        {
            assert(decreases_to!(self => self.contents));
            assert(decreases_to!(self.contents@ => self.contents@[j as int]));
            proof {
                lemma_items_view_take(self.contents@, j as int);
                let t = items_view(self.contents@.take(j + 1));
                assert(t.drop_last() == items_view(self.contents@.take(j as int)));
            }
            self.contents[j].append_search(out);
            j += 1;
            assert(out@ =~= c + items_search(items_view(self.contents@.take(j as int))));
        }
        assert(self.contents@.take(self.contents@.len() as int) =~= self.contents@);
        assert(out@ =~= start + item_search(self@));
    }
}

/// The characters of `char::to_uppercase` on a character beyond ASCII.
pub uninterp spec fn char_upper(c: char) -> Seq<char>;

/// `char::to_uppercase`: an ASCII character gives one character, `a`..`z`
/// raised and every other kept; others are named.
pub open spec fn upper(c: char) -> Seq<char> {
    if (c as u32) < 128 {
        if 'a' <= c && c <= 'z' {
            seq![((c as u8) - 32) as char]
        } else {
            seq![c]
        }
    } else {
        char_upper(c)
    }
}

/// `char::to_uppercase`, collected: the Unicode uppercase mapping of one
/// character, which may be several characters; for ASCII that mapping raises
/// `a`..`z` and keeps every other character. Beyond ASCII its result is
/// named.
#[verifier::external_body]
fn upper_of(c: char) -> (r: Vec<char>)
    ensures
        (c as u32) < 128 ==> r@ == upper(c),
        (c as u32) >= 128 ==> r@ == char_upper(c),
{
    c.to_uppercase().collect()
}

/// The part of `s` after its last `c` (all of `s` when there is none).
pub open spec fn after_last(s: Seq<char>, c: char) -> Seq<char>
    decreases s.len(),
{
    if s.len() == 0 {
        s
    } else if s.last() == c {
        seq![]
    } else {
        after_last(s.drop_last(), c).push(s.last())
    }
}

/// Underscores become spaces and the first character of each word is
/// uppercased; `start` tells whether `s` begins a word.
pub open spec fn title_case(s: Seq<char>, start: bool) -> Seq<char>
    decreases s.len(),
{
    if s.len() == 0 {
        seq![]
    } else if s[0] == '_' {
        seq![' '] + title_case(s.drop_first(), true)
    } else if start {
        upper(s[0]) + title_case(s.drop_first(), false)
    } else {
        seq![s[0]] + title_case(s.drop_first(), false)
    }
}

/// A readable name for a namespaced id: `minecraft:diamond_sword` reads
/// `Diamond Sword`.
pub open spec fn prettify(id: Seq<char>) -> Seq<char> {
    title_case(after_last(id, ':'), true)
}

proof fn lemma_after_last_index(s: Seq<char>, c: char, k: int)
    requires
        0 <= k <= s.len(),
        forall|j: int| k <= j < s.len() ==> s[j] != c,
        k == 0 || s[k - 1] == c,
    ensures
        after_last(s, c) == s.skip(k),
    decreases s.len(),
{
    if s.len() == 0 {
    } else if k == s.len() {
        assert(s.skip(k) =~= Seq::<char>::empty());
    } else {
        lemma_after_last_index(s.drop_last(), c, k);
        assert(s.drop_last().skip(k).push(s.last()) =~= s.skip(k));
    }
}

proof fn lemma_title_case_step(s: Seq<char>, i: int, start: bool)
    requires
        0 <= i < s.len(),
    ensures
        title_case(s.skip(i), start) == (if s[i] == '_' {
            seq![' '] + title_case(s.skip(i + 1), true)
        } else if start {
            upper(s[i]) + title_case(s.skip(i + 1), false)
        } else {
            seq![s[i]] + title_case(s.skip(i + 1), false)
        }),
{
    assert(s.skip(i).drop_first() =~= s.skip(i + 1));
}

/// `prettify` of an id.
pub fn prettify_id(id: &str) -> (r: String)
    ensures
        r@ == prettify(id@),
{
    let cs = chars_of(id);
    let n = cs.len();
    let mut k: usize = n;
    while k > 0 && cs[k - 1] != ':'
        invariant
            k <= n == cs@.len(),
            forall|j: int| k <= j < n ==> cs@[j] != ':',
        decreases k,
    {
        k -= 1;
    }
    proof {
        lemma_after_last_index(cs@, ':', k as int);
    }
    let ghost raw = cs@.skip(k as int);
    let mut out: Vec<char> = Vec::new();
    let mut start = true;
    let mut i: usize = k;
    while i < n
        invariant
            k <= i <= n == cs@.len(),
            raw == cs@.skip(k as int),
            title_case(raw, true) == out@ + title_case(cs@.skip(i as int), start),
        decreases n - i,
    {
        proof {
            lemma_title_case_step(cs@, i as int, start);
        }
        let c = cs[i];
        if c == '_' {
            out.push(' ');
            start = true;
        } else if start {
            let u = upper_of(c);
            let mut j: usize = 0;
            let ghost o = out@;
            while j < u.len()
                invariant
                    j <= u@.len(),
                    out@ == o + u@.take(j as int),
                decreases u.len() - j,
            {
                out.push(u[j]);
                j += 1;
                assert(out@ =~= o + u@.take(j as int));
            }
            assert(u@.take(u@.len() as int) =~= u@);
            start = false;
        } else {
            out.push(c);
        }
        i += 1;
        assert(title_case(raw, true) =~= out@ + title_case(cs@.skip(i as int), start));
    }
    assert(cs@.skip(n as int) =~= Seq::<char>::empty());
    assert(out@ =~= title_case(raw, true));
    string_from(out.as_slice())
}


/// The largest slot among the items, or -1 when there are none.
pub open spec fn slots_max(s: Seq<ItemView>) -> i32
    decreases s.len(),
{
    if s.len() == 0 {
        -1i32
    } else if s.len() == 1 {
        s[0].slot
    } else {
        let a = slots_max(s.drop_last());
        if a >= s.last().slot {
            a
        } else {
            s.last().slot
        }
    }
}

pub open spec fn abs(a: int) -> int {
    if a < 0 {
        -a
    } else {
        a
    }
}

/// Integer division rounding toward zero (Rust's `/` on signed integers);
/// a zero divisor gives zero.
pub open spec fn trunc_div(a: int, b: int) -> int {
    if b == 0 {
        0
    } else {
        let q = abs(a) / abs(b);
        if (a < 0) != (b < 0) {
            -q
        } else {
            q
        }
    }
}

fn trunc_div_i64(a: i64, b: i64) -> (r: i64)
    requires
        -2147483648 <= a <= 2147483647,
    ensures
        r == trunc_div(a as int, b as int),
        -2147483648 <= r <= 2147483648,
{
    if b == 0 {
        return 0;
    }
    let aa: u64 = if a < 0 {
        (-a) as u64
    } else {
        a as u64
    };
    let bb: u64 = if b < 0 {
        if b == i64::MIN {
            9223372036854775808u64
        } else {
            (-b) as u64
        }
    } else {
        b as u64
    };
    let q: u64 = aa / bb;
    assert(q <= aa) by (nonlinear_arith)
        requires
            q == aa / bb,
            bb >= 1,
    ;
    if (a < 0) != (b < 0) {
        -(q as i64)
    } else {
        q as i64
    }
}

/// The text of each (key, value) pair.
pub open spec fn text_pairs_view(s: Seq<(String, String)>) -> Seq<(Seq<char>, Seq<char>)> {
    s.map_values(|p: (String, String)| (p.0@, p.1@))
}

/// The (label, value) text of each copy action.
pub open spec fn copies_view(s: Seq<CopyAction>) -> Seq<(Seq<char>, Seq<char>)> {
    s.map_values(|c: CopyAction| (c.label@, c.value@))
}

/// The fields that `Entry::finalize` derives, as it derives them from the
/// items, the upgrades, the column count and the extra search text.
pub open spec fn finalized(e: Entry, extra: Seq<char>) -> bool {
    &&& e.rows == rows_for(slots_max(items_view(e.items@)), e.cols)
    &&& e.search_blob@ == line(extra) + items_search(items_view(e.items@)) + items_search(
        items_view(e.upgrades@),
    )
    &&& pairs_view(e.all_enchants@) == items_enchants(items_view(e.items@)) + items_enchants(
        items_view(e.upgrades@),
    )
    &&& e.max_stack == items_max(items_view(e.upgrades@), items_max(items_view(e.items@), 0))
}

/// The mathematical form of an entry.
pub struct EntryView {
    pub kind: EntryKind,
    pub title: Seq<char>,
    pub header_icon: Seq<char>,
    pub meta: Seq<(Seq<char>, Seq<char>)>,
    pub copies: Seq<(Seq<char>, Seq<char>)>,
    pub items: Seq<ItemView>,
    pub upgrades: Seq<ItemView>,
    pub cols: usize,
    pub rows: usize,
    pub is_dungeon: bool,
    pub dimension: Seq<char>,
    pub owner: Seq<char>,
    pub uuid: Seq<char>,
    pub coords: Option<(i64, i64, i64)>,
    pub search_blob: Seq<char>,
    pub nbt_blob: Seq<char>,
    pub max_stack: i64,
    pub all_enchants: Seq<(Seq<char>, i32)>,
}

impl View for Entry {
    type V = EntryView;

    open spec fn view(&self) -> EntryView {
        EntryView {
            kind: self.kind,
            title: self.title@,
            header_icon: self.header_icon@,
            meta: text_pairs_view(self.meta@),
            copies: copies_view(self.copies@),
            items: items_view(self.items@),
            upgrades: items_view(self.upgrades@),
            cols: self.cols,
            rows: self.rows,
            is_dungeon: self.is_dungeon,
            dimension: self.dimension@,
            owner: self.owner@,
            uuid: self.uuid@,
            coords: self.coords,
            search_blob: self.search_blob@,
            nbt_blob: self.nbt_blob@,
            max_stack: self.max_stack,
            all_enchants: pairs_view(self.all_enchants@),
        }
    }
}

fn copy_actions(v: &Vec<CopyAction>) -> (r: Vec<CopyAction>)
    ensures
        copies_view(r@) == copies_view(v@),
{
    let mut out: Vec<CopyAction> = Vec::new();
    let mut i: usize = 0;
    while i < v.len()
        invariant
            i <= v@.len(),
            out@.len() == i,
            forall|j: int|
                0 <= j < i ==> (#[trigger] out@[j]).label@ == v@[j].label@ && out@[j].value@
                    == v@[j].value@,
        decreases v.len() - i,
    {
        out.push(CopyAction { label: v[i].label.clone(), value: v[i].value.clone() });
        i += 1;
    }
    assert(copies_view(out@) =~= copies_view(v@));
    out
}

/// The rows that a grid of `cols` columns needs to show slot `max_slot`
/// (at least one).
pub open spec fn rows_for(max_slot: i32, cols: usize) -> usize {
    let q = trunc_div(max_slot as int, (cols as i64) as int);
    if q + 1 >= 1 {
        (q + 1) as usize
    } else {
        1
    }
}

impl Entry {
    /// An entry of the given kind with every other field empty.
    pub fn blank(kind: EntryKind) -> (r: Entry)
        ensures
            r.kind == kind,
            r.title@.len() == 0,
            r.header_icon@.len() == 0,
            r.meta@.len() == 0,
            r.copies@.len() == 0,
            r.items@.len() == 0,
            r.upgrades@.len() == 0,
            r.cols == 0,
            r.rows == 0,
            !r.is_dungeon,
            r.dimension@.len() == 0,
            r.owner@.len() == 0,
            r.uuid@.len() == 0,
            r.coords is None,
            r.search_blob@.len() == 0,
            r.nbt_blob@.len() == 0,
            r.max_stack == 0,
            r.all_enchants@.len() == 0,
    {
        Entry {
            kind,
            title: String::new(),
            header_icon: String::new(),
            meta: Vec::new(),
            copies: Vec::new(),
            items: Vec::new(),
            upgrades: Vec::new(),
            cols: 0,
            rows: 0,
            is_dungeon: false,
            dimension: String::new(),
            owner: String::new(),
            uuid: String::new(),
            coords: None,
            search_blob: String::new(),
            nbt_blob: String::new(),
            max_stack: 0,
            all_enchants: Vec::new(),
        }
    }

    /// An exact copy of the entry.
    pub fn duplicate(&self) -> (r: Entry)
        ensures
            r@ == self@,
    {
        let meta = copy_text_pairs(&self.meta);
        Entry {
            kind: self.kind,
            title: self.title.clone(),
            header_icon: self.header_icon.clone(),
            meta,
            copies: copy_actions(&self.copies),
            items: copy_items(&self.items),
            upgrades: copy_items(&self.upgrades),
            cols: self.cols,
            rows: self.rows,
            is_dungeon: self.is_dungeon,
            dimension: self.dimension.clone(),
            owner: self.owner.clone(),
            uuid: self.uuid.clone(),
            coords: self.coords,
            search_blob: self.search_blob.clone(),
            nbt_blob: self.nbt_blob.clone(),
            max_stack: self.max_stack,
            all_enchants: copy_pairs(&self.all_enchants),
        }
    }

    /// Computes the grid size, the search text, the enchantment list and the
    /// largest stack from the items and upgrades.
    pub fn finalize(&mut self, extra_search: &str)
        ensures
            final(self).kind == old(self).kind,
            final(self).title == old(self).title,
            final(self).header_icon == old(self).header_icon,
            final(self).meta == old(self).meta,
            final(self).copies == old(self).copies,
            final(self).items == old(self).items,
            final(self).upgrades == old(self).upgrades,
            final(self).is_dungeon == old(self).is_dungeon,
            final(self).dimension == old(self).dimension,
            final(self).owner == old(self).owner,
            final(self).uuid == old(self).uuid,
            final(self).coords == old(self).coords,
            final(self).nbt_blob == old(self).nbt_blob,
            final(self).cols == (if old(self).cols == 0 {
                9
            } else {
                old(self).cols
            }),
            final(self).rows == rows_for(slots_max(items_view(old(self).items@)), final(self).cols),
            final(self).search_blob@ == line(extra_search@) + items_search(
                items_view(old(self).items@),
            ) + items_search(items_view(old(self).upgrades@)),
            pairs_view(final(self).all_enchants@) == items_enchants(items_view(old(self).items@))
                + items_enchants(items_view(old(self).upgrades@)),
            final(self).max_stack == items_max(
                items_view(old(self).upgrades@),
                items_max(items_view(old(self).items@), 0),
            ),
            finalized(*final(self), extra_search@),
    {
        let n = self.items.len();
        let mut max_slot: i32 = -1;
        let mut i: usize = 0;
        while i < n
            invariant
                i <= n == self.items@.len(),
                self.items == old(self).items,
                max_slot == slots_max(items_view(self.items@.take(i as int))),
            decreases n - i,
        {
            proof {
                lemma_items_view_take(self.items@, i as int);
                let t = items_view(self.items@.take(i + 1));
                assert(t.drop_last() == items_view(self.items@.take(i as int)));
                lemma_items_view_len(self.items@.take(i as int));
                if i > 0 {
                    lemma_items_view_index(self.items@.take(1), 0);
                }
            }
            let s = self.items[i].slot;
            if i == 0 || s > max_slot {
                max_slot = s;
            }
            i += 1;
        }
        assert(self.items@.take(n as int) =~= self.items@);
        if self.cols == 0 {
            self.cols = 9;
        }
        let q = trunc_div_i64(max_slot as i64, self.cols as i64);
        self.rows = if q + 1 >= 1 {
            (q + 1) as usize
        } else {
            1
        };
        let mut blob = String::new();
        push_line(&mut blob, extra_search);
        assert(blob@ =~= line(extra_search@));
        let mut j: usize = 0;
        let ghost b0 = blob@;
        while j < self.items.len()
            invariant
                j <= self.items@.len(),
                self.items == old(self).items,
                blob@ == b0 + items_search(items_view(self.items@.take(j as int))),
            decreases self.items.len() - j,
        {
            proof {
                lemma_items_view_take(self.items@, j as int);
                let t = items_view(self.items@.take(j + 1));
                assert(t.drop_last() == items_view(self.items@.take(j as int)));
            }
            self.items[j].append_search(&mut blob);
            j += 1;
            assert(blob@ =~= b0 + items_search(items_view(self.items@.take(j as int))));
        }
        assert(self.items@.take(self.items@.len() as int) =~= self.items@);
        let ghost b1 = blob@;
        let mut k: usize = 0;
        while k < self.upgrades.len()
            invariant
                k <= self.upgrades@.len(),
                self.upgrades == old(self).upgrades,
                blob@ == b1 + items_search(items_view(self.upgrades@.take(k as int))),
            decreases self.upgrades.len() - k,
        {
            proof {
                lemma_items_view_take(self.upgrades@, k as int);
                let t = items_view(self.upgrades@.take(k + 1));
                assert(t.drop_last() == items_view(self.upgrades@.take(k as int)));
            }
            self.upgrades[k].append_search(&mut blob);
            k += 1;
            assert(blob@ =~= b1 + items_search(items_view(self.upgrades@.take(k as int))));
        }
        assert(self.upgrades@.take(self.upgrades@.len() as int) =~= self.upgrades@);
        self.search_blob = blob;
        let mut ench: Vec<(String, i32)> = Vec::new();
        let mut max_stack: i64 = 0;
        let mut a: usize = 0;
        while a < self.items.len()
            invariant
                a <= self.items@.len(),
                self.items == old(self).items,
                pairs_view(ench@) == items_enchants(items_view(self.items@.take(a as int))),
                max_stack == items_max(items_view(self.items@.take(a as int)), 0),
            decreases self.items.len() - a,
        {
            proof {
                lemma_items_view_take(self.items@, a as int);
                let t = items_view(self.items@.take(a + 1));
                assert(t.drop_last() == items_view(self.items@.take(a as int)));
            }
            self.items[a].collect_enchants(&mut ench);
            let m = self.items[a].max_count();
            if m > max_stack {
                max_stack = m;
            }
            a += 1;
        }
        let ghost ev = pairs_view(ench@);
        let ghost ms = max_stack;
        let mut c: usize = 0;
        while c < self.upgrades.len()
            invariant
                c <= self.upgrades@.len(),
                self.upgrades == old(self).upgrades,
                pairs_view(ench@) == ev + items_enchants(items_view(self.upgrades@.take(c as int))),
                max_stack == items_max(items_view(self.upgrades@.take(c as int)), ms),
            decreases self.upgrades.len() - c,
        {
            proof {
                lemma_items_view_take(self.upgrades@, c as int);
                let t = items_view(self.upgrades@.take(c + 1));
                assert(t.drop_last() == items_view(self.upgrades@.take(c as int)));
            }
            self.upgrades[c].collect_enchants(&mut ench);
            let m = self.upgrades[c].max_count();
            if m > max_stack {
                max_stack = m;
            }
            c += 1;
            assert(pairs_view(ench@) =~= ev + items_enchants(
                items_view(self.upgrades@.take(c as int)),
            ));
        }
        self.all_enchants = ench;
        self.max_stack = max_stack;
    }
}

/// A non-negative number written with at least two digits (`{:02}`).
pub open spec fn pad2(n: nat) -> Seq<char> {
    if n < 10 {
        seq!['0'] + dec_digits(n)
    } else {
        dec_digits(n)
    }
}

/// The civil date (year, month, day) of a day count since 1970-01-01, by the
/// era/day-of-era method for the proleptic Gregorian calendar.
pub open spec fn civil_from_days(days: int) -> (int, int, int) {
    let z = days + 719468;
    let era = (if z >= 0 {
        z
    } else {
        z - 146096
    }) / 146097;
    let doe = z - era * 146097;
    let yoe = (doe - doe / 1460 + doe / 36524 - doe / 146096) / 365;
    let y = yoe + era * 400;
    let doy = doe - (365 * yoe + yoe / 4 - yoe / 100);
    let mp = (5 * doy + 2) / 153;
    let d = doy - (153 * mp + 2) / 5 + 1;
    let mon = if mp < 10 {
        mp + 3
    } else {
        mp - 9
    };
    let year = if mon <= 2 {
        y + 1
    } else {
        y
    };
    (year, mon, d)
}

/// `YY-MM-DD hh:mm` (UTC) for a positive millisecond timestamp, `Never` for
/// the others.
pub open spec fn short_date(ms: int) -> Seq<char> {
    if ms <= 0 {
        "Never"@
    } else {
        let secs = ms / 1000;
        let days = secs / 86400;
        let rem = secs % 86400;
        let (y, mon, d) = civil_from_days(days);
        pad2((y % 100) as nat) + seq!['-'] + pad2(mon as nat) + seq!['-'] + pad2(d as nat) + seq![
            ' ',
        ] + pad2((rem / 3600) as nat) + seq![':'] + pad2(((rem % 3600) / 60) as nat)
    }
}

fn push_pad2(out: &mut Vec<char>, n: i64)
    requires
        n >= 0,
    ensures
        final(out)@ == old(out)@ + pad2(n as nat),
{
    if n < 10 {
        out.push('0');
    }
    let s = int_to_string(n);
    let c = chars_of(s.as_str());
    let mut i: usize = 0;
    let ghost o = out@;
    while i < c.len()
        invariant
            i <= c@.len(),
            out@ == o + c@.take(i as int),
        decreases c.len() - i,
    {
        out.push(c[i]);
        i += 1;
        assert(out@ =~= o + c@.take(i as int));
    }
    assert(c@.take(c@.len() as int) =~= c@);
    assert(out@ =~= old(out)@ + pad2(n as nat));
}

/// `short_date` of a millisecond timestamp.
#[verifier::rlimit(40)]
pub fn format_short_date(ms: i64) -> (r: String)
    ensures
        r@ == short_date(ms as int),
{
    if ms <= 0 {
        return copy_str("Never");
    }
    let secs = ms / 1000;
    let days = secs / 86400;
    let rem = secs % 86400;
    let h = rem / 3600;
    let m = (rem % 3600) / 60;
    let z = days + 719468;
    let era = z / 146097;
    assert(era * 146097 <= z) by (nonlinear_arith)
        requires
            era == z / 146097,
            z >= 0,
    ;
    let doe = z - era * 146097;
    assert(doe < 146097) by (nonlinear_arith)
        requires
            era == z / 146097,
            doe == z - era * 146097,
            z >= 0,
    ;
    let yoe = (doe - doe / 1460 + doe / 36524 - doe / 146096) / 365;
    let y = yoe + era * 400;
    let doy = doe - (365 * yoe + yoe / 4 - yoe / 100);
    let mp = (5 * doy + 2) / 153;
    let d = doy - (153 * mp + 2) / 5 + 1;
    let mon = if mp < 10 {
        mp + 3
    } else {
        mp - 9
    };
    let year = if mon <= 2 {
        y + 1
    } else {
        y
    };
    assert(civil_from_days(days as int) == (year as int, mon as int, d as int));
    let mut out: Vec<char> = Vec::new();
    push_pad2(&mut out, year % 100);
    out.push('-');
    push_pad2(&mut out, mon);
    out.push('-');
    push_pad2(&mut out, d);
    out.push(' ');
    push_pad2(&mut out, h);
    out.push(':');
    push_pad2(&mut out, m);
    assert(out@ =~= short_date(ms as int));
    string_from(out.as_slice())
}

} // verus!
