//! The loaded entries: a compact summary of each for fast filtering, and the
//! source from which the full entry is rebuilt on demand.
use vstd::prelude::*;
use crate::model::{
    items_view, strs_view, Entry, EntryKind, EntryView, Item, ItemView,
};
use crate::parse::containers::{
    detect, detect_kind, json_built, raw_element, raw_of, JsonKind, RawElement, RawV,
};
use crate::json_value::{json_bytes_value, parse_json_bytes, JsonV};
use crate::parse::snbt::{lemma_ws_end, ws_end};
use crate::text::is_ascii_whitespace;
use vstd::string::StringSliceAdditionalSpecFns;
use crate::parse::dump_nbt::{
    build_one, built, containers_name, fail_message, framed, players_name, split_dump, split_spec,
    lemma_players_count, DumpKind,
};
use crate::nbt_value::{distinct_deep, nbt_read, tree, NbtV};
use crate::parse::nbt::{backpacks_of, decompress, decompressed, load_backpacks_bytes, payload_of};
use crate::search::{law_summary_filters_as_entry, Compiled};
use crate::text::{
    ascii_lower_byte, ascii_lower_u8, chars_contain, chars_occur_at, chars_of, copy_str,
    has_substr, lowercase, occurs_at, push_char, push_str, str_eq, string_from, to_lower,
};

verus! {

/// How a file is to be read.
pub enum Load {
    Backpacks,
    Json(Option<JsonKind>),
    Nbt(Option<DumpKind>),
}

pub open spec fn ends_with(s: Seq<char>, suffix: Seq<char>) -> bool {
    s.len() >= suffix.len() && s.subrange(s.len() - suffix.len(), s.len() as int) == suffix
}

/// JSON for a path ending in `.json` (any case), binary NBT otherwise.
pub open spec fn auto_load(path: Seq<char>) -> Load {
    if ends_with(lowercase(path), ".json"@) {
        Load::Json(None)
    } else {
        Load::Nbt(None)
    }
}

impl Load {
    /// Picks the reader by the file's extension.
    pub fn auto(path: &str) -> (r: Load)
        ensures
            r == auto_load(path@),
    {
        let low = to_lower(path);
        let p = chars_of(low.as_str());
        let suf = chars_of(".json");
        if p.len() < suf.len() {
            return Load::Nbt(None);
        }
        let off = p.len() - suf.len();
        let mut i: usize = 0;
        while i < suf.len()
            invariant
                i <= suf@.len(),
                p@ == lowercase(path@),
                suf@ == ".json"@,
                off as int + suf@.len() == p@.len(),
                p@.len() == p.len(),
                forall|j: int| 0 <= j < i ==> p@[off + j] == suf@[j],
            decreases suf.len() - i,
        {
            assert(off + i < p@.len());
            if p[off + i] != suf[i] {
                assert(p@.subrange(off as int, p@.len() as int)[i as int] != suf@[i as int]);
                return Load::Nbt(None);
            }
            i += 1;
        }
        assert(p@.subrange(off as int, p@.len() as int) =~= suf@);
        Load::Json(None)
    }
}

/// A table of distinct strings, each named by its position.
pub struct Interner {
    vals: Vec<String>,
}

impl Interner {
    /// The strings, in the order in which they were first interned.
    pub closed spec fn strings(&self) -> Seq<Seq<char>> {
        strs_view(self.vals@)
    }

    /// No string occurs twice.
    pub closed spec fn wf(&self) -> bool {
        forall|i: int, j: int|
            0 <= i < j < self.strings().len() ==> self.strings()[i] != self.strings()[j]
    }

    pub fn new() -> (r: Interner)
        ensures
            r.wf(),
            r.strings() == Seq::<Seq<char>>::empty(),
    {
        let r = Interner { vals: Vec::new() };
        assert(r.strings() =~= Seq::<Seq<char>>::empty());
        r
    }

    /// How many strings the table holds.
    pub fn len(&self) -> (r: usize)
        ensures
            r == self.strings().len(),
    {
        self.vals.len()
    }

    /// The position of `s`, added at the end if it is new.
    pub fn intern(&mut self, s: &str) -> (r: u32)
        requires
            old(self).wf(),
            old(self).strings().len() < u32::MAX,
        ensures
            final(self).wf(),
            (r as int) < final(self).strings().len(),
            final(self).strings()[r as int] == s@,
            old(self).strings().contains(s@) ==> final(self).strings() == old(self).strings(),
            !old(self).strings().contains(s@) ==> final(self).strings() == old(self).strings().push(
                s@,
            ),
    {
        let n = self.vals.len();
        let mut i: usize = 0;
        while i < n
            invariant
                self == old(self),
                self.wf(),
                n == self.vals@.len() == self.strings().len(),
                i <= n,
                self.strings().len() < u32::MAX,
                forall|j: int| 0 <= j < i ==> self.strings()[j] != s@,
            decreases n - i,
        {
            if str_eq(self.vals[i].as_str(), s) {
                assert(self.strings()[i as int] == self.vals@[i as int]@);
                return i as u32;
            }
            assert(self.strings()[i as int] == self.vals@[i as int]@);
            i += 1;
        }
        let ghost before = self.strings();
        assert(!before.contains(s@));
        self.vals.push(copy_str(s));
        assert(self.strings() =~= before.push(s@));
        n as u32
    }

    /// The string at position `i`.
    pub fn get(&self, i: u32) -> (r: &str)
        requires
            (i as int) < self.strings().len(),
        ensures
            r@ == self.strings()[i as int],
    {
        self.vals[i as usize].as_str()
    }
}

/// The summary of an entry that filtering reads: its kind, interned icon and
/// dimension, owner, coordinates, flags, sizes and enchantments.
pub struct EntryMeta {
    pub kind: EntryKind,
    pub icon: u32,
    pub dim: u32,
    pub owner: String,
    pub uuid: String,
    pub coords: Option<[i32; 3]>,
    pub flags: u8,
    pub rows: u16,
    pub meta_len: u8,
    pub max_stack: i32,
    pub enchants: Vec<(u32, i16)>,
}

pub open spec fn flag(flags: u8, bit: u8) -> bool {
    flags & bit != 0
}

impl EntryMeta {
    pub fn is_dungeon(&self) -> (r: bool)
        ensures
            r == flag(self.flags, 1),
    {
        self.flags & 1 != 0
    }

    pub fn has_items(&self) -> (r: bool)
        ensures
            r == flag(self.flags, 2),
    {
        self.flags & 2 != 0
    }

    pub fn has_upgrades(&self) -> (r: bool)
        ensures
            r == flag(self.flags, 4),
    {
        self.flags & 4 != 0
    }

    /// The coordinates widened back to 64 bits.
    pub fn coords64(&self) -> (r: Option<(i64, i64, i64)>)
        ensures
            r == match self.coords {
                Some(a) => Some((a[0] as i64, a[1] as i64, a[2] as i64)),
                None => None,
            },
    {
        match self.coords {
            Some(a) => Some((a[0] as i64, a[1] as i64, a[2] as i64)),
            None => None,
        }
    }
}

pub open spec fn clamp_i32(v: i64) -> i32 {
    if v < i32::MIN {
        i32::MIN
    } else if v > i32::MAX {
        i32::MAX
    } else {
        v as i32
    }
}

pub open spec fn clamp_i16(v: i32) -> i16 {
    if v < i16::MIN {
        i16::MIN
    } else if v > i16::MAX {
        i16::MAX
    } else {
        v as i16
    }
}

/// Bit 0: dungeon; bit 1: has items; bit 2: has upgrades.
pub open spec fn entry_flags(e: EntryView) -> u8 {
    ((if e.is_dungeon {
        1u8
    } else {
        0u8
    }) + (if e.items.len() > 0 {
        2u8
    } else {
        0u8
    }) + (if e.upgrades.len() > 0 {
        4u8
    } else {
        0u8
    })) as u8
}

/// `m` is the summary of `e`, its strings interned in `strs`.
pub open spec fn summarizes(m: EntryMeta, e: EntryView, strs: Seq<Seq<char>>) -> bool {
    &&& m.kind == e.kind
    &&& (m.icon as int) < strs.len() && strs[m.icon as int] == e.header_icon
    &&& (m.dim as int) < strs.len() && strs[m.dim as int] == e.dimension
    &&& m.owner@ == e.owner
    &&& m.uuid@ == e.uuid
    &&& match (m.coords, e.coords) {
        (Some(a), Some((x, y, z))) => a[0] == #[verifier::truncate] (x as i32) && a[1]
            == #[verifier::truncate] (y as i32) && a[2] == #[verifier::truncate] (z as i32),
        (None, None) => true,
        _ => false,
    }
    &&& m.flags == entry_flags(e)
    &&& m.rows == (if e.rows > 65535 {
        65535
    } else {
        e.rows
    }) as u16
    &&& m.meta_len == (if e.meta.len() > 255 {
        255
    } else {
        e.meta.len()
    }) as u8
    &&& m.max_stack == clamp_i32(e.max_stack)
    &&& m.enchants@.len() == e.all_enchants.len()
    &&& forall|i: int|
        0 <= i < m.enchants@.len() ==> ((#[trigger] m.enchants@[i]).0 as int) < strs.len()
            && strs[m.enchants@[i].0 as int] == e.all_enchants[i].0 && m.enchants@[i].1
            == clamp_i16(e.all_enchants[i].1)
}

/// Every string that a summary names lies in the table.
pub open spec fn names_within(m: EntryMeta, n: int) -> bool {
    &&& (m.icon as int) < n
    &&& (m.dim as int) < n
    &&& forall|i: int| 0 <= i < m.enchants@.len() ==> ((#[trigger] m.enchants@[i]).0 as int) < n
}

/// A summary stays one when more strings are added to the table.
pub proof fn lemma_summary_grows(m: EntryMeta, e: EntryView, a: Seq<Seq<char>>, b: Seq<Seq<char>>)
    requires
        summarizes(m, e, a),
        a.len() <= b.len(),
        forall|i: int| 0 <= i < a.len() ==> a[i] == b[i],
    ensures
        summarizes(m, e, b),
{
    assert forall|i: int| 0 <= i < m.enchants@.len() implies ((#[trigger] m.enchants@[i]).0
        as int) < b.len() && b[m.enchants@[i].0 as int] == e.all_enchants[i].0 by {
        assert(a[m.enchants@[i].0 as int] == b[m.enchants@[i].0 as int]);
    }
}

/// `t` with `s` added at the end unless it holds it already.
pub open spec fn add_str(t: Seq<Seq<char>>, s: Seq<char>) -> Seq<Seq<char>> {
    if t.contains(s) {
        t
    } else {
        t.push(s)
    }
}

/// `t` with each of `ns` added in turn.
pub open spec fn add_names(t: Seq<Seq<char>>, ns: Seq<Seq<char>>) -> Seq<Seq<char>>
    decreases ns.len(),
{
    if ns.len() == 0 {
        t
    } else {
        add_str(add_names(t, ns.drop_last()), ns.last())
    }
}

/// The enchantment names of an entry, in order.
pub open spec fn ench_names(e: EntryView) -> Seq<Seq<char>> {
    e.all_enchants.map_values(|p: (Seq<char>, i32)| p.0)
}

/// The string table after summarizing `e`: its icon, its dimension, then
/// its enchantment names added.
pub open spec fn with_names(t: Seq<Seq<char>>, e: EntryView) -> Seq<Seq<char>> {
    add_names(add_str(add_str(t, e.header_icon), e.dimension), ench_names(e))
}

/// The table has room for every string that summarizing `e` may add, each
/// named by a 32-bit position.
pub open spec fn has_room(t: Seq<Seq<char>>, e: EntryView) -> bool {
    t.len() + 2 + e.all_enchants.len() < u32::MAX
}

/// The string table after summarizing the first `n` of `es` into an empty
/// one.
pub open spec fn table_after(es: Seq<EntryView>, n: int) -> Seq<Seq<char>>
    decreases n,
{
    if n <= 0 {
        seq![]
    } else {
        with_names(table_after(es, n - 1), es[n - 1])
    }
}

/// The table had room for each of the first `n` of `es` in turn.
pub open spec fn all_room(es: Seq<EntryView>, n: int) -> bool
    decreases n,
{
    if n <= 0 {
        true
    } else {
        all_room(es, n - 1) && has_room(table_after(es, n - 1), es[n - 1])
    }
}

/// Once the table had no room for one entry, it had none for the longer
/// list either.
pub proof fn lemma_no_room_stays(es: Seq<EntryView>, i: int, n: int)
    requires
        0 <= i < n,
        !has_room(table_after(es, i), es[i]),
    ensures
        !all_room(es, n),
    decreases n - i,
{
    if n > i + 1 {
        lemma_no_room_stays(es, i, n - 1);
    }
}

fn clamp16(v: i32) -> (r: i16)
    ensures
        r == clamp_i16(v),
{
    if v < -32768 {
        -32768
    } else if v > 32767 {
        32767
    } else {
        v as i16
    }
}

impl EntryMeta {
    /// The summary of `e`, interning its icon, dimension and enchantment
    /// names. Fails when the table could not take them all.
    pub fn from_entry(e: &Entry, it: &mut Interner) -> (r: Option<EntryMeta>)
        requires
            old(it).wf(),
        ensures
            final(it).wf(),
            old(it).strings().len() <= final(it).strings().len(),
            forall|i: int|
                0 <= i < old(it).strings().len() ==> final(it).strings()[i] == old(
                    it,
                ).strings()[i],
            r is Some <==> has_room(old(it).strings(), e@),
            match r {
                Some(m) => summarizes(m, e@, final(it).strings()) && final(it).strings()
                    == with_names(old(it).strings(), e@),
                None => final(it).strings() == old(it).strings(),
            },
    {
        let n = e.all_enchants.len();
        if it.len() >= 4294967293 || n >= 4294967293 - it.len() {
            return None;
        }
        let ghost s0 = it.strings();
        let icon = it.intern(e.header_icon.as_str());
        let ghost s1 = it.strings();
        let dim = it.intern(e.dimension.as_str());
        let ghost s2 = it.strings();
        let mut enchants: Vec<(u32, i16)> = Vec::new();
        let mut i: usize = 0;
        while i < n
            invariant
                n == e.all_enchants@.len(),
                i <= n,
                it.wf(),
                s2.len() <= it.strings().len() <= s2.len() + i,
                s2.len() <= s0.len() + 2,
                s0.len() + 2 + n < u32::MAX,
                forall|k: int| 0 <= k < s2.len() ==> it.strings()[k] == s2[k],
                forall|k: int| 0 <= k < s0.len() ==> s2[k] == s0[k],
                (icon as int) < s2.len() && s2[icon as int] == e.header_icon@,
                (dim as int) < s2.len() && s2[dim as int] == e.dimension@,
                enchants@.len() == i,
                s2 == add_str(add_str(s0, e.header_icon@), e.dimension@),
                it.strings() == add_names(s2, ench_names(e@).take(i as int)),
                forall|k: int|
                    0 <= k < i ==> ((#[trigger] enchants@[k]).0 as int) < it.strings().len()
                        && it.strings()[enchants@[k].0 as int] == e.all_enchants@[k].0@
                        && enchants@[k].1 == clamp_i16(e.all_enchants@[k].1),
            decreases n - i,
        {
            let ghost before = it.strings();
            let id = it.intern(e.all_enchants[i].0.as_str());
            proof {
                let ns = ench_names(e@);
                assert(ns.take(i + 1).drop_last() =~= ns.take(i as int));
                assert(ns.take(i + 1).last() == e.all_enchants@[i as int].0@);
                if before.contains(e.all_enchants@[i as int].0@) {
                } else {
                    assert(it.strings() == before.push(e.all_enchants@[i as int].0@));
                }
            }
            enchants.push((id, clamp16(e.all_enchants[i].1)));
            i += 1;
        }
        let flags: u8 = (if e.is_dungeon {
            1u8
        } else {
            0u8
        }) + (if e.items.len() > 0 {
            2u8
        } else {
            0u8
        }) + (if e.upgrades.len() > 0 {
            4u8
        } else {
            0u8
        });
        proof {
            crate::model::lemma_items_view_len(e.items@);
            crate::model::lemma_items_view_len(e.upgrades@);
        }
        let coords = match e.coords {
            Some((x, y, z)) => Some(
                [
                    #[verifier::truncate] (x as i32),
                    #[verifier::truncate] (y as i32),
                    #[verifier::truncate] (z as i32),
                ],
            ),
            None => None,
        };
        let rows: u16 = if e.rows > 65535 {
            65535
        } else {
            e.rows as u16
        };
        let meta_len: u8 = if e.meta.len() > 255 {
            255
        } else {
            e.meta.len() as u8
        };
        let max_stack: i32 = if e.max_stack < -2147483648 {
            -2147483648
        } else if e.max_stack > 2147483647 {
            2147483647
        } else {
            e.max_stack as i32
        };
        let m = EntryMeta {
            kind: e.kind,
            icon,
            dim,
            owner: e.owner.clone(),
            uuid: e.uuid.clone(),
            coords,
            flags,
            rows,
            meta_len,
            max_stack,
            enchants,
        };
        assert(e@.meta.len() == e.meta@.len());
        assert(ench_names(e@).take(n as int) =~= ench_names(e@));
        Some(m)
    }
}


/// Where the text of an entry comes from: the raw bytes of its element in the
/// file, or the search texts and upgrades of an entry held in memory.
pub enum TextSource<'a> {
    Slice(&'a [u8]),
    Blob { search: &'a str, nbt: &'a str, upgrades: &'a [Item] },
}

/// The mathematical form of a text source.
pub enum TextView {
    Raw(Seq<u8>),
    Blob { search: Seq<char>, nbt: Seq<char>, upgrades: Seq<Item> },
}

pub open spec fn text_view(t: &TextSource) -> TextView {
    match t {
        TextSource::Slice(b) => TextView::Raw(b@),
        TextSource::Blob { search, nbt, upgrades } => TextView::Blob {
            search: search@,
            nbt: nbt@,
            upgrades: upgrades@,
        },
    }
}

/// `n` occurs in `hay` at `i`, ASCII letters of `hay` taken in lower case.
pub open spec fn ci_at(hay: Seq<u8>, n: Seq<u8>, i: int) -> bool {
    &&& 0 <= i
    &&& i + n.len() <= hay.len()
    &&& forall|j: int| 0 <= j < n.len() ==> ascii_lower_byte(#[trigger] hay[i + j]) == n[j]
}

pub open spec fn ci_has(hay: Seq<u8>, n: Seq<u8>) -> bool {
    exists|i: int| ci_at(hay, n, i)
}

/// Whether the bytes of `needle` occur in `hay`, ASCII case ignored in
/// `hay` (the needle is expected in lower case).
pub fn ci_contains(hay: &[u8], needle: &str) -> (r: bool)
    ensures
        r == ci_has(hay@, needle.spec_bytes()),
{
    let n = needle.as_bytes();
    if n.len() == 0 {
        assert(ci_at(hay@, n@, 0));
        return true;
    }
    if hay.len() < n.len() {
        return false;
    }
    let last = hay.len() - n.len();
    let mut i: usize = 0;
    while i <= last
        invariant
            n@ == needle.spec_bytes(),
            n@.len() > 0,
            n@.len() == n.len(),
            hay@.len() == hay.len(),
            last + n@.len() == hay@.len(),
            forall|k: int| 0 <= k < i ==> !ci_at(hay@, n@, k),
        decreases last + 1 - i,
    {
        let mut j: usize = 0;
        let mut ok = true;
        while j < n.len() && ok
            invariant
                n@.len() == n.len(),
                hay@.len() == hay.len(),
                last + n@.len() == hay@.len(),
                i <= last,
                j <= n@.len(),
                ok ==> forall|t: int| 0 <= t < j ==> ascii_lower_byte(#[trigger] hay@[i + t]) == n@[t],
                !ok ==> !ci_at(hay@, n@, i as int),
            decreases n.len() - j + if ok {
                1int
            } else {
                0int
            },
        {
            if ascii_lower_u8(hay[i + j]) != n[j] {
                ok = false;
            } else {
                j += 1;
            }
        }
        if ok {
            assert(ci_at(hay@, n@, i as int));
            return true;
        }
        i += 1;
    }
    assert forall|k: int| !ci_at(hay@, n@, k) by {
        if 0 <= k < i {
        }
    }
    false
}


/// The first position at or after `i` where `pat` occurs in `s`.
pub open spec fn first_match(s: Seq<char>, pat: Seq<char>, i: int) -> Option<int>
    decreases s.len() - i,
{
    if i < 0 || i + pat.len() > s.len() {
        None
    } else if occurs_at(s, pat, i) {
        Some(i)
    } else {
        first_match(s, pat, i + 1)
    }
}

proof fn lemma_first_match_at(s: Seq<char>, pat: Seq<char>, start: int, i: int)
    requires
        0 <= start <= i,
        occurs_at(s, pat, i),
        forall|j: int| start <= j < i ==> !occurs_at(s, pat, j),
    ensures
        first_match(s, pat, start) == Some(i),
    decreases i - start,
{
    if start < i {
        lemma_first_match_at(s, pat, start + 1, i);
    }
}

proof fn lemma_first_match_none(s: Seq<char>, pat: Seq<char>, start: int)
    requires
        0 <= start,
        forall|j: int| start <= j ==> !occurs_at(s, pat, j),
    ensures
        first_match(s, pat, start) is None,
    decreases s.len() - start,
{
    if start + pat.len() <= s.len() {
        lemma_first_match_none(s, pat, start + 1);
    }
}

/// `s` with the first occurrence of `pat` replaced by `rep`
/// (`str::replacen(pat, rep, 1)`).
pub open spec fn replace_first(s: Seq<char>, pat: Seq<char>, rep: Seq<char>) -> Seq<char> {
    match first_match(s, pat, 0) {
        Some(i) => s.subrange(0, i) + rep + s.subrange(i + pat.len(), s.len() as int),
        None => s,
    }
}

fn replace_first_str(s: &str, pat: &str, rep: &str) -> (r: String)
    requires
        pat@.len() > 0,
    ensures
        r@ == replace_first(s@, pat@, rep@),
{
    let h = chars_of(s);
    let p = chars_of(pat);
    let mut i: usize = 0;
    while p.len() <= h.len() && i <= h.len() - p.len()
        invariant
            h@ == s@,
            p@ == pat@,
            p@.len() > 0,
            i <= h@.len(),
            first_match(s@, pat@, 0) == first_match(s@, pat@, i as int),
        decreases h.len() - i,
    {
        if chars_occur_at(h.as_slice(), p.as_slice(), i) {
            let mut out: Vec<char> = Vec::new();
            let mut k: usize = 0;
            while k < i
                invariant
                    k <= i,
                    i + p@.len() <= h@.len(),
                    out@ == h@.subrange(0, k as int),
                decreases i - k,
            {
                out.push(h[k]);
                k += 1;
                assert(out@ =~= h@.subrange(0, k as int));
            }
            let mut r = string_from(out.as_slice());
            push_str(&mut r, rep);
            let tail_start = i + p.len();
            let mut tail: Vec<char> = Vec::new();
            let mut k: usize = tail_start;
            while k < h.len()
                invariant
                    tail_start <= k <= h@.len(),
                    tail@ == h@.subrange(tail_start as int, k as int),
                decreases h.len() - k,
            {
                tail.push(h[k]);
                k += 1;
                assert(tail@ =~= h@.subrange(tail_start as int, k as int));
            }
            let t = string_from(tail.as_slice());
            push_str(&mut r, t.as_str());
            return r;
        }
        i += 1;
    }
    copy_str(s)
}

/// The meta rows of an entry with an `Owner` or `Player` of `Unknown` given
/// the name `name`.
pub open spec fn named_rows(rows: Seq<(Seq<char>, Seq<char>)>, name: Seq<char>) -> Seq<(Seq<char>, Seq<char>)> {
    rows.map_values(
        |p: (Seq<char>, Seq<char>)|
            if (p.0 == "Owner"@ || p.0 == "Player"@) && p.1 == "Unknown"@ {
                (p.0, name)
            } else {
                p
            },
    )
}

/// An entry whose owner was unknown, given the owner's name: in its title,
/// its meta rows, its owner, and its search text.
pub open spec fn named(e: EntryView, name: Seq<char>) -> EntryView {
    let owner = lowercase(name);
    EntryView {
        title: replace_first(e.title, "Unknown"@, name),
        meta: named_rows(e.meta, name),
        owner: owner,
        search_blob: if has_substr(e.search_blob, owner) {
            e.search_blob
        } else {
            e.search_blob.push('\n') + owner
        },
        ..e
    }
}

/// Naming an entry puts the name in place of the first `Unknown` of its
/// title, keeping what stands before and after it; a title with no
/// `Unknown` stays as it was.
pub proof fn law_naming_replaces_first_unknown(e: EntryView, name: Seq<char>)
    ensures
        forall|i: int|
            #![trigger occurs_at(e.title, "Unknown"@, i)]
            occurs_at(e.title, "Unknown"@, i) && (forall|j: int|
                0 <= j < i ==> !occurs_at(e.title, "Unknown"@, j)) ==> named(e, name).title
                == e.title.take(i) + name + e.title.skip(i + 7),
        (forall|j: int| !occurs_at(e.title, "Unknown"@, j)) ==> named(e, name).title == e.title,
{
    reveal_strlit("Unknown");
    let u = "Unknown"@;
    assert forall|i: int|
        #![trigger occurs_at(e.title, u, i)]
        occurs_at(e.title, u, i) && (forall|j: int| 0 <= j < i ==> !occurs_at(e.title, u, j))
            implies named(e, name).title == e.title.take(i) + name + e.title.skip(i + 7) by {
        lemma_first_match_at(e.title, u, 0, i);
        assert(e.title.subrange(0, i) =~= e.title.take(i));
        assert(e.title.subrange(i + u.len(), e.title.len() as int) =~= e.title.skip(i + 7));
    }
    if forall|j: int| !occurs_at(e.title, u, j) {
        lemma_first_match_none(e.title, u, 0);
    }
}

fn apply_name(e: &mut Entry, name: &str)
    ensures
        final(e)@ == named(old(e)@, name@),
{
    proof {
        reveal_strlit("Unknown");
    }
    e.title = replace_first_str(e.title.as_str(), "Unknown", name);
    let mut rows: Vec<(String, String)> = Vec::new();
    let mut i: usize = 0;
    while i < e.meta.len()
        invariant
            i <= e.meta@.len(),
            rows@.len() == i,
            forall|j: int|
                0 <= j < i ==> ((#[trigger] rows@[j]).0@, rows@[j].1@) == named_rows(
                    crate::model::text_pairs_view(e.meta@),
                    name@,
                )[j],
        decreases e.meta.len() - i,
    {
        let label = &e.meta[i].0;
        let value = &e.meta[i].1;
        let hit = (str_eq(label.as_str(), "Owner") || str_eq(label.as_str(), "Player")) && str_eq(
            value.as_str(),
            "Unknown",
        );
        if hit {
            rows.push((label.clone(), copy_str(name)));
        } else {
            rows.push((label.clone(), value.clone()));
        }
        i += 1;
    }
    assert(crate::model::text_pairs_view(rows@) =~= named_rows(
        crate::model::text_pairs_view(e.meta@),
        name@,
    ));
    e.meta = rows;
    e.owner = to_lower(name);
    let sb = chars_of(e.search_blob.as_str());
    let ob = chars_of(e.owner.as_str());
    if !chars_contain(sb.as_slice(), ob.as_slice()) {
        push_char(&mut e.search_blob, '\n');
        let o = copy_str(e.owner.as_str());
        push_str(&mut e.search_blob, o.as_str());
    }
    assert(e@.search_blob =~= named(old(e)@, name@).search_blob);
}


enum Backend {
    Json { bytes: Vec<u8>, spans: Vec<(u32, u32)>, locs: Vec<(u32, u8)>, json_kind: JsonKind },
    Nbt { bytes: Vec<u8>, spans: Vec<(u32, u32)>, locs: Vec<(u32, u8)>, kind: DumpKind },
    Mem { entries: Vec<Entry> },
}

pub open spec fn entries_view(s: Seq<Entry>) -> Seq<EntryView> {
    s.map_values(|e: Entry| e@)
}

/// The name given to the owner with uuid `u`, if any.
pub open spec fn rename_for(ov: Seq<(Seq<char>, Seq<char>)>, u: Seq<char>) -> Option<Seq<char>>
    decreases ov.len(),
{
    if ov.len() == 0 {
        None
    } else if ov.last().0 == u {
        Some(ov.last().1)
    } else {
        rename_for(ov.drop_last(), u)
    }
}

/// An entry as the store hands it out: with the owner's name filled in
/// where one was given for its uuid.
pub open spec fn renamed(e: EntryView, ov: Seq<(Seq<char>, Seq<char>)>) -> EntryView {
    if ov.len() > 0 && e.uuid.len() > 0 {
        match rename_for(ov, e.uuid) {
            Some(n) => named(e, n),
            None => e,
        }
    } else {
        e
    }
}

pub open spec fn span_ok(sp: (u32, u32), n: int) -> bool {
    sp.0 <= sp.1 && sp.1 <= n
}

/// The loaded entries of one file.
pub struct Store {
    metas: Vec<EntryMeta>,
    interner: Interner,
    backend: Backend,
    overrides: Vec<(String, String)>,
}

impl Store {
    /// The summaries, one per entry.
    pub closed spec fn summaries(&self) -> Seq<EntryMeta> {
        self.metas@
    }

    /// The interned strings that the summaries name.
    pub closed spec fn names(&self) -> Seq<Seq<char>> {
        self.interner.strings()
    }

    /// The entries, where the store holds them in memory.
    pub closed spec fn held(&self) -> Option<Seq<EntryView>> {
        match self.backend {
            Backend::Mem { entries } => Some(entries_view(entries@)),
            _ => None,
        }
    }

    /// The entries themselves, where the store holds them in memory (none
    /// for a store over a file).
    pub closed spec fn kept(&self) -> Seq<Entry> {
        match self.backend {
            Backend::Mem { entries } => entries@,
            _ => seq![],
        }
    }

    /// Each summary of a store held in memory summarizes its entry.
    pub proof fn lemma_held_summarized(&self, i: int)
        requires
            self.wf(),
            self.held() is Some,
            0 <= i < self.summaries().len(),
        ensures
            self.kept().len() == self.summaries().len(),
            summarizes(self.summaries()[i], self.kept()[i]@, self.names()),
    {
    }

    /// The owner names given by uuid, in the order given.
    pub closed spec fn renames(&self) -> Seq<(Seq<char>, Seq<char>)> {
        crate::model::text_pairs_view(self.overrides@)
    }

    /// The text that filters read for entry `i`: the bytes of its element in
    /// the file, or the texts of the entry in memory.
    pub closed spec fn source(&self, i: int) -> TextView {
        match self.backend {
            Backend::Json { bytes, spans, locs, .. } => {
                let sp = spans@[locs@[i].0 as int];
                TextView::Raw(bytes@.subrange(sp.0 as int, sp.1 as int))
            },
            Backend::Nbt { bytes, spans, locs, .. } => {
                let sp = spans@[locs@[i].0 as int];
                TextView::Raw(bytes@.subrange(sp.0 as int, sp.1 as int))
            },
            Backend::Mem { entries } => TextView::Blob {
                search: entries@[i].search_blob@,
                nbt: entries@[i].nbt_blob@,
                upgrades: entries@[i].upgrades@,
            },
        }
    }

    /// The store's own invariant: distinct interned strings that every
    /// summary's names lie within, a source for each summary, and no more
    /// entries than 32-bit positions can name.
    pub closed spec fn wf(&self) -> bool {
        &&& self.interner.wf()
        &&& self.metas@.len() <= u32::MAX
        &&& forall|i: int|
            0 <= i < self.metas@.len() ==> names_within(
                #[trigger] self.metas@[i],
                self.interner.strings().len() as int,
            )
        &&& match self.backend {
            Backend::Json { bytes, spans, locs, .. } => locs@.len() == self.metas@.len() && forall|
                i: int,
            |
                0 <= i < locs@.len() ==> (#[trigger] locs@[i]).0 < spans@.len() && span_ok(
                    spans@[locs@[i].0 as int],
                    bytes@.len() as int,
                ),
            Backend::Nbt { bytes, spans, locs, .. } => locs@.len() == self.metas@.len() && forall|
                i: int,
            |
                0 <= i < locs@.len() ==> (#[trigger] locs@[i]).0 < spans@.len() && span_ok(
                    spans@[locs@[i].0 as int],
                    bytes@.len() as int,
                ),
            Backend::Mem { entries } => entries@.len() == self.metas@.len() && forall|i: int|
                0 <= i < entries@.len() ==> summarizes(
                    #[trigger] self.metas@[i],
                    entries@[i]@,
                    self.interner.strings(),
                ),
        }
    }

    /// A store that holds `entries` in memory, each summarized. Fails only
    /// when there are more entries or distinct strings than 32-bit positions
    /// can name.
    pub fn from_entries(entries: Vec<Entry>) -> (r: Result<Store, String>)
        ensures
            match r {
                Ok(s) => s.wf() && s.held() == Some(entries_view(entries@)) && s.kept() == entries@
                    && s.summaries().len()
                    == entries@.len() && s.renames().len() == 0 && forall|i: int|
                    0 <= i < entries@.len() ==> summarizes(
                        #[trigger] s.summaries()[i],
                        entries@[i]@,
                        s.names(),
                    ),
                Err(m) => if entries@.len() > u32::MAX {
                    m@ == "too many entries"@
                } else {
                    m@ == "too many distinct strings"@
                },
            },
            r is Ok <==> entries@.len() <= u32::MAX && all_room(
                entries_view(entries@),
                entries@.len() as int,
            ),
            r matches Ok(s) ==> s.names() == table_after(
                entries_view(entries@),
                entries@.len() as int,
            ),
    {
        proof {
            reveal_strlit("too many entries");
            reveal_strlit("too many distinct strings");
        }
        let ghost ev = entries_view(entries@);
        if entries.len() > 4294967295 {
            return Err(copy_str("too many entries"));
        }
        let mut interner = Interner::new();
        let mut metas: Vec<EntryMeta> = Vec::new();
        let mut i: usize = 0;
        while i < entries.len()
            invariant
                i <= entries@.len() <= u32::MAX,
                ev == entries_view(entries@),
                interner.wf(),
                interner.strings() == table_after(ev, i as int),
                all_room(ev, i as int),
                metas@.len() == i,
                forall|j: int|
                    0 <= j < i ==> summarizes(
                        #[trigger] metas@[j],
                        entries@[j]@,
                        interner.strings(),
                    ),
            decreases entries.len() - i,
        {
            let ghost before = interner.strings();
            assert(ev[i as int] == entries@[i as int]@);
            match EntryMeta::from_entry(&entries[i], &mut interner) {
                Some(m) => {
                    proof {
                        assert forall|j: int| 0 <= j < i implies summarizes(
                            #[trigger] metas@[j],
                            entries@[j]@,
                            interner.strings(),
                        ) by {
                            lemma_summary_grows(metas@[j], entries@[j]@, before, interner.strings());
                        }
                    }
                    metas.push(m);
                },
                None => {
                    proof {
                        lemma_no_room_stays(ev, i as int, entries@.len() as int);
                    }
                    return Err(copy_str("too many distinct strings"));
                },
            }
            i += 1;
        }
        let s = Store {
            metas,
            interner,
            backend: Backend::Mem { entries },
            overrides: Vec::new(),
        };
        assert(s.renames() =~= Seq::<(Seq<char>, Seq<char>)>::empty());
        Ok(s)
    }
}


/// `e` is entry `sub` of what the element at `span` of `bytes` builds, for
/// some order of the decoded compounds' entries.
pub open spec fn element_entry(
    bytes: Seq<u8>,
    span: (u32, u32),
    kind: DumpKind,
    sub: int,
    e: EntryView,
) -> bool {
    match framed(bytes, span) {
        Some(f) => match nbt_read(f) {
            Ok(t) => exists|v: NbtV, es: Seq<Entry>|
                #![trigger built(es, v, kind)]
                tree(v) == t && distinct_deep(v) && built(es, v, kind) && 0 <= sub < es.len()
                    && es[sub]@ == e,
            Err(_) => false,
        },
        None => false,
    }
}

/// `es` is what the element at `span` of `bytes` builds, for some order of
/// the decoded compounds' entries; nothing where the element does not
/// decode.
pub open spec fn element_builds(bytes: Seq<u8>, span: (u32, u32), kind: DumpKind, es: Seq<Entry>) -> bool {
    match framed(bytes, span) {
        None => es.len() == 0,
        Some(f) => match nbt_read(f) {
            Err(_) => es.len() == 0,
            Ok(t) => exists|v: NbtV|
                #![trigger built(es, v, kind)]
                tree(v) == t && distinct_deep(v) && built(es, v, kind),
        },
    }
}

/// `ess[j]` is what span `j` builds, for each of the first `ess.len()`
/// spans.
pub open spec fn spans_build(
    bytes: Seq<u8>,
    spans: Seq<(u32, u32)>,
    kind: DumpKind,
    ess: Seq<Seq<Entry>>,
) -> bool {
    &&& ess.len() <= spans.len()
    &&& forall|j: int| 0 <= j < ess.len() ==> element_builds(bytes, spans[j], kind, #[trigger] ess[j])
}

/// The entries of `ess`, one list after another.
pub open spec fn flat(ess: Seq<Seq<Entry>>) -> Seq<Entry>
    decreases ess.len(),
{
    if ess.len() == 0 {
        seq![]
    } else {
        flat(ess.drop_last()) + ess.last()
    }
}

/// Where each entry of `flat(ess)` comes from: its list and its place in
/// that list.
pub open spec fn flat_locs(ess: Seq<Seq<Entry>>) -> Seq<(int, int)>
    decreases ess.len(),
{
    if ess.len() == 0 {
        seq![]
    } else {
        flat_locs(ess.drop_last()) + Seq::new(
            ess.last().len(),
            |k: int| ((ess.len() - 1) as int, k),
        )
    }
}

/// Opening a dump whose first spans build `ess` runs out of room: more spans
/// or entries than 32-bit positions name, an element of more than 255
/// entries, or a string table too full for the entries' names.
pub open spec fn dump_overflows(ess: Seq<Seq<Entry>>, n_spans: int) -> bool {
    ||| n_spans > u32::MAX
    ||| (exists|j: int| 0 <= j < ess.len() && (#[trigger] ess[j]).len() > 255)
    ||| flat(ess).len() > u32::MAX
    ||| !all_room(entries_view(flat(ess)), flat(ess).len() as int)
}

/// Opening a dump of `spans` in `bytes` ran out of room, as `m` says, on
/// the entries that its first spans build.
pub open spec fn dump_failed(bytes: Seq<u8>, spans: Seq<(u32, u32)>, kind: DumpKind, m: Seq<char>) -> bool {
    exists|ess: Seq<Seq<Entry>>|
        #![trigger spans_build(bytes, spans, kind, ess)]
        spans_build(bytes, spans, kind, ess) && overflow_message(ess, spans.len() as int, m)
}

/// `m` is the message for how opening a dump whose first spans build `ess`
/// ran out of room.
pub open spec fn overflow_message(ess: Seq<Seq<Entry>>, n_spans: int, m: Seq<char>) -> bool {
    ||| m == "too many entries"@ && (n_spans > u32::MAX || (exists|j: int|
        0 <= j < ess.len() && (#[trigger] ess[j]).len() > 255) || flat(ess).len() > u32::MAX)
    ||| m == "too many distinct strings"@ && !all_room(
        entries_view(flat(ess)),
        flat(ess).len() as int,
    )
}

/// The entries of `flat(ess)` are those of the lists, each once, in order.
pub proof fn lemma_flat(ess: Seq<Seq<Entry>>)
    ensures
        flat_locs(ess).len() == flat(ess).len(),
        forall|i: int|
            0 <= i < flat(ess).len() ==> {
                let l = #[trigger] flat_locs(ess)[i];
                &&& 0 <= l.0 < ess.len()
                &&& 0 <= l.1 < ess[l.0].len()
                &&& flat(ess)[i] == ess[l.0][l.1]
            },
    decreases ess.len(),
{
    if ess.len() > 0 {
        let p = ess.drop_last();
        lemma_flat(p);
        assert forall|i: int| 0 <= i < flat(ess).len() implies {
            let l = #[trigger] flat_locs(ess)[i];
            &&& 0 <= l.0 < ess.len()
            &&& 0 <= l.1 < ess[l.0].len()
            &&& flat(ess)[i] == ess[l.0][l.1]
        } by {
            if i < flat(p).len() {
                assert(flat_locs(ess)[i] == flat_locs(p)[i]);
                assert(flat(ess)[i] == flat(p)[i]);
                let l = flat_locs(p)[i];
                assert(ess[l.0] == p[l.0]);
            } else {
                assert(flat(ess)[i] == ess.last()[i - flat(p).len()]);
            }
        }
    }
}

/// Summarizing depends only on the entries summarized so far.
pub proof fn lemma_table_prefix(x: Seq<EntryView>, y: Seq<EntryView>, n: int)
    requires
        0 <= n <= x.len(),
        n <= y.len(),
        forall|i: int| 0 <= i < n ==> x[i] == y[i],
    ensures
        table_after(x, n) == table_after(y, n),
        all_room(x, n) == all_room(y, n),
    decreases n,
{
    if n > 0 {
        lemma_table_prefix(x, y, n - 1);
    }
}

/// Room for the longer list means room for its start.
pub proof fn lemma_room_prefix(es: Seq<EntryView>, m: int, n: int)
    requires
        0 <= m <= n,
        all_room(es, n),
    ensures
        all_room(es, m),
    decreases n - m,
{
    if m < n {
        lemma_room_prefix(es, m, n - 1);
    }
}

proof fn lemma_flat_push(acc: Seq<Seq<Entry>>, es: Seq<Entry>)
    ensures
        flat(acc.push(es)) == flat(acc) + es,
        flat_locs(acc.push(es)) == flat_locs(acc) + Seq::new(
            es.len(),
            |k: int| (acc.len() as int, k),
        ),
{
    assert(acc.push(es).drop_last() =~= acc);
}

proof fn lemma_room_push(done: Seq<Entry>, e: Entry)
    requires
        all_room(entries_view(done), done.len() as int),
        has_room(table_after(entries_view(done), done.len() as int), e@),
    ensures
        table_after(entries_view(done.push(e)), done.len() + 1int) == with_names(
            table_after(entries_view(done), done.len() as int),
            e@,
        ),
        all_room(entries_view(done.push(e)), done.len() + 1int),
{
    let a = entries_view(done);
    let b = entries_view(done.push(e));
    assert forall|i: int| 0 <= i < done.len() implies a[i] == b[i] by {
        assert(done.push(e)[i] == done[i]);
    }
    lemma_table_prefix(a, b, done.len() as int);
    assert(b[done.len() as int] == e@);
}

proof fn lemma_no_room_witness(done: Seq<Entry>, all: Seq<Entry>)
    requires
        done.len() < all.len(),
        forall|i: int| 0 <= i < done.len() ==> all[i] == done[i],
        !has_room(table_after(entries_view(done), done.len() as int), all[done.len() as int]@),
    ensures
        !all_room(entries_view(all), all.len() as int),
{
    let a = entries_view(done);
    let b = entries_view(all);
    assert forall|i: int| 0 <= i < done.len() implies a[i] == b[i] by {}
    lemma_table_prefix(a, b, done.len() as int);
    lemma_no_room_stays(b, done.len() as int, all.len() as int);
}

/// `m` summarizes, in `strs`, entry `sub` of the element at `span`.
pub open spec fn stands_for(
    m: EntryMeta,
    bytes: Seq<u8>,
    span: (u32, u32),
    kind: DumpKind,
    sub: int,
    strs: Seq<Seq<char>>,
) -> bool {
    exists|e: EntryView| element_entry(bytes, span, kind, sub, e) && summarizes(m, e, strs)
}

impl Store {
    /// For a store over a binary NBT dump: the dump's bytes, the span of
    /// entry `i`'s element, the kind of the dump, and which of the element's
    /// entries it is.
    pub closed spec fn origin(&self, i: int) -> Option<(Seq<u8>, (u32, u32), DumpKind, int)> {
        match self.backend {
            Backend::Nbt { bytes, spans, locs, kind } => Some(
                (bytes@, spans@[locs@[i].0 as int], kind, locs@[i].1 as int),
            ),
            _ => None,
        }
    }

    /// The store holds one summary for each entry that each span of the dump
    /// builds, span by span and in order, with room to spare.
    pub open spec fn dump_opened(&self, bytes: Seq<u8>, spans: Seq<(u32, u32)>, kind: DumpKind) -> bool {
        exists|ess: Seq<Seq<Entry>>|
            #![trigger spans_build(bytes, spans, kind, ess)]
            spans_build(bytes, spans, kind, ess) && ess.len() == spans.len() && !dump_overflows(
                ess,
                spans.len() as int,
            ) && self.summaries().len() == flat(ess).len() && flat_locs(ess).len() == flat(
                ess,
            ).len() && forall|i: int|
                0 <= i < flat(ess).len() ==> 0 <= (#[trigger] flat_locs(ess)[i]).0 < spans.len()
                    && self.origin(i) == Some(
                    (bytes, spans[flat_locs(ess)[i].0], kind, flat_locs(ess)[i].1),
                ) && summarizes(self.summaries()[i], flat(ess)[i]@, self.names())
    }

    /// Opens a binary NBT file from its bytes (gzip or zlib packed, or not):
    /// a dump of containers or players, split into elements that are decoded
    /// again when an entry is asked for; or, when it is no such dump and no
    /// kind was forced, a backpack file held in memory.
    #[verifier::rlimit(50)]
    pub fn open_nbt_bytes(raw: &[u8], forced: Option<DumpKind>) -> (r: Result<Store, String>)
        ensures
            match split_spec(decompressed(raw@)) {
                Err(f) => match forced {
                    Some(_) => r matches Err(m) && m@ == fail_message(f),
                    None => match nbt_read(decompressed(raw@)) {
                        Err(m) => r matches Err(x) && x@ == "nbt parse: "@ + m,
                        Ok(t) => exists|v: NbtV|
                            #![trigger tree(v)]
                            tree(v) == t && match payload_of(v, 0) {
                                None => r matches Err(x) && x@
                                    == "could not locate 'backpackContents' in NBT"@,
                                Some(p) => exists|es: Seq<Entry>|
                                    #![trigger backpacks_of(es, p)]
                                    backpacks_of(es, p) && match r {
                                        Ok(s) => es.len() <= u32::MAX && all_room(
                                            entries_view(es),
                                            es.len() as int,
                                        ) && s.wf() && s.renames().len() == 0 && s.kept() == es
                                            && s.held() == Some(entries_view(es))
                                            && s.summaries().len() == es.len() && forall|i: int|
                                            0 <= i < es.len() ==> summarizes(
                                                #[trigger] s.summaries()[i],
                                                es[i]@,
                                                s.names(),
                                            ),
                                        Err(m) => if es.len() > u32::MAX {
                                            m@ == "too many entries"@
                                        } else {
                                            m@ == "too many distinct strings"@ && !all_room(
                                                entries_view(es),
                                                es.len() as int,
                                            )
                                        },
                                    },
                            },
                    },
                },
                Ok((detected, spans)) => match r {
                    Err(m) => {
                        let kind = match forced {
                            Some(k) => k,
                            None => detected,
                        };
                        dump_failed(decompressed(raw@), spans, kind, m@)
                    },
                    Ok(s) => {
                        let kind = match forced {
                            Some(k) => k,
                            None => detected,
                        };
                        &&& s.wf()
                        &&& s.held() is None
                        &&& s.renames().len() == 0
                        &&& s.dump_opened(decompressed(raw@), spans, kind)
                        &&& forall|i: int|
                            0 <= i < s.summaries().len() ==> ((#[trigger] s.origin(i)) matches Some(
                                (b, sp, k, sub),
                            ) && b == decompressed(raw@) && k == kind && spans.contains(sp)
                                && stands_for(s.summaries()[i], b, sp, k, sub, s.names()))
                    },
                },
            },
    {
        let bytes = decompress(raw);
        let (detected, spans) = match split_dump(bytes.as_slice()) {
            Ok(v) => v,
            Err(e) => {
                if forced.is_none() {
                    let entries = match load_backpacks_bytes(bytes.as_slice()) {
                        Ok(es) => es,
                        Err(m) => {
                            return Err(m);
                        },
                    };
                    let r = Store::from_entries(entries);
                    proof {
                        reveal_strlit("too many entries");
                        reveal_strlit("too many distinct strings");
                        if let Ok(t) = nbt_read(bytes@) {
                            let v = choose|v: NbtV|
                                tree(v) == t && match payload_of(v, 0) {
                                    None => false,
                                    Some(p) => backpacks_of(entries@, p),
                                };
                            assert(tree(v) == t);
                            if let Some(p) = payload_of(v, 0) {
                                assert(backpacks_of(entries@, p));
                            }
                        }
                    }
                    return r;
                }
                return Err(e);
            },
        };
        assert(split_spec(bytes@) matches Ok((k2, sp)) && k2 == detected && sp == spans@);
        let kind = match forced {
            Some(k) => k,
            None => detected,
        };
        if spans.len() > 4294967295 {
            let m = copy_str("too many entries");
            proof {
                assert(spans_build(bytes@, spans@, kind, Seq::<Seq<Entry>>::empty()));
                assert(overflow_message(Seq::<Seq<Entry>>::empty(), spans@.len() as int, m@));
                assert(dump_failed(bytes@, spans@, kind, m@));
            }
            return Err(m);
        }
        let mut interner = Interner::new();
        let mut metas: Vec<EntryMeta> = Vec::new();
        let mut locs: Vec<(u32, u8)> = Vec::new();
        let mut spi: usize = 0;
        let ghost mut acc: Seq<Seq<Entry>> = seq![];
        let ghost mut done: Seq<Entry> = seq![];
        let ghost mut dl: Seq<(int, int)> = seq![];
        proof {
            assert(interner.strings() =~= table_after(entries_view(done), 0));
        }
        while spi < spans.len()
            invariant
                acc.len() == spi,
                spans_build(bytes@, spans@, kind, acc),
                forall|j: int| 0 <= j < acc.len() ==> (#[trigger] acc[j]).len() <= 255,
                done == flat(acc),
                dl == flat_locs(acc),
                metas@.len() == done.len(),
                dl.len() == done.len(),
                forall|i: int|
                    0 <= i < locs@.len() ==> (#[trigger] locs@[i]).0 as int == dl[i].0
                        && locs@[i].1 as int == dl[i].1,
                forall|i: int|
                    0 <= i < metas@.len() ==> summarizes(
                        #[trigger] metas@[i],
                        done[i]@,
                        interner.strings(),
                    ),
                interner.strings() == table_after(entries_view(done), done.len() as int),
                all_room(entries_view(done), done.len() as int),
                bytes@ == decompressed(raw@),
                split_spec(bytes@) matches Ok((k2, sp)) && sp == spans@ && kind == match forced {
                    Some(k) => k,
                    None => k2,
                },
                spans@.len() <= u32::MAX,
                spi <= spans@.len(),
                interner.wf(),
                metas@.len() == locs@.len(),
                metas@.len() <= u32::MAX,
                forall|i: int|
                    0 <= i < metas@.len() ==> names_within(
                        #[trigger] metas@[i],
                        interner.strings().len() as int,
                    ),
                forall|i: int|
                    0 <= i < locs@.len() ==> (#[trigger] locs@[i]).0 < spi && span_ok(
                        spans@[locs@[i].0 as int],
                        bytes@.len() as int,
                    ) && stands_for(
                            metas@[i],
                            bytes@,
                            spans@[locs@[i].0 as int],
                            kind,
                            locs@[i].1 as int,
                            interner.strings(),
                        ),
            decreases spans.len() - spi,
        {
            let es = build_one(bytes.as_slice(), spans[spi], kind);
            let ghost sp = spans@[spi as int];
            proof {
                assert(element_builds(bytes@, sp, kind, es@));
                lemma_flat_push(acc, es@);
                assert(spans_build(bytes@, spans@, kind, acc.push(es@)));
            }
            if es.len() > 255 {
                let m = copy_str("too many entries");
                proof {
                    let ess = acc.push(es@);
                    assert(ess[spi as int] == es@);
                    assert(ess[spi as int].len() > 255);
                    assert(overflow_message(ess, spans@.len() as int, m@));
                    assert(dump_failed(bytes@, spans@, kind, m@));
                }
                return Err(m);
            }
            let mut sub: usize = 0;
            proof {
                assert(done =~= flat(acc) + es@.take(0));
                assert(dl =~= flat_locs(acc) + Seq::new(0, |k: int| (spi as int, k)));
            }
            while sub < es.len()
                invariant
                    acc.len() == spi,
                    spans_build(bytes@, spans@, kind, acc.push(es@)),
                    flat(acc.push(es@)) == flat(acc) + es@,
                    forall|j: int| 0 <= j < acc.len() ==> (#[trigger] acc[j]).len() <= 255,
                    done == flat(acc) + es@.take(sub as int),
                    dl == flat_locs(acc) + Seq::new(sub as nat, |k: int| (spi as int, k)),
                    flat_locs(acc).len() == flat(acc).len(),
                    metas@.len() == done.len(),
                    dl.len() == done.len(),
                    forall|i: int|
                        0 <= i < locs@.len() ==> (#[trigger] locs@[i]).0 as int == dl[i].0
                            && locs@[i].1 as int == dl[i].1,
                    forall|i: int|
                        0 <= i < metas@.len() ==> summarizes(
                            #[trigger] metas@[i],
                            done[i]@,
                            interner.strings(),
                        ),
                    interner.strings() == table_after(entries_view(done), done.len() as int),
                    all_room(entries_view(done), done.len() as int),
                    bytes@ == decompressed(raw@),
                    split_spec(bytes@) matches Ok((k2, sp)) && sp == spans@ && kind == match forced {
                        Some(k) => k,
                        None => k2,
                    },
                    spans@.len() <= u32::MAX,
                    spi < spans@.len(),
                    sp == spans@[spi as int],
                    es@.len() <= 255,
                    sub <= es@.len(),
                    es@.len() > 0 ==> span_ok(sp, bytes@.len() as int),
                    es@.len() > 0 ==> (framed(bytes@, sp) matches Some(f) && nbt_read(f) matches Ok(
                        t,
                    ) && exists|v: NbtV| tree(v) == t && distinct_deep(v) && built(es@, v, kind)),
                    interner.wf(),
                    metas@.len() == locs@.len(),
                    metas@.len() <= u32::MAX,
                    forall|i: int|
                        0 <= i < metas@.len() ==> names_within(
                            #[trigger] metas@[i],
                            interner.strings().len() as int,
                        ),
                    forall|i: int|
                        0 <= i < locs@.len() ==> (#[trigger] locs@[i]).0 <= spi && span_ok(
                            spans@[locs@[i].0 as int],
                            bytes@.len() as int,
                        ) && stands_for(
                            metas@[i],
                            bytes@,
                            spans@[locs@[i].0 as int],
                            kind,
                            locs@[i].1 as int,
                            interner.strings(),
                        ),
                decreases es.len() - sub,
            {
                if metas.len() >= 4294967295 {
                    let m = copy_str("too many entries");
                    proof {
                        let ess = acc.push(es@);
                        assert(flat(ess).len() > u32::MAX);
                        assert(overflow_message(ess, spans@.len() as int, m@));
                        assert(dump_failed(bytes@, spans@, kind, m@));
                    }
                    return Err(m);
                }
                let ghost before = interner.strings();
                let m = match EntryMeta::from_entry(&es[sub], &mut interner) {
                    Some(m) => m,
                    None => {
                        proof {
                            let all = flat(acc) + es@;
                            assert forall|i: int| 0 <= i < done.len() implies all[i] == done[i] by {
                                if i >= flat(acc).len() {
                                    assert(done[i] == es@[i - flat(acc).len()]);
                                }
                            }
                            assert(all[done.len() as int] == es@[sub as int]);
                            lemma_no_room_witness(done, all);
                        }
                        let m = copy_str("too many distinct strings");
                        proof {
                            let ess = acc.push(es@);
                            assert(overflow_message(ess, spans@.len() as int, m@));
                            assert(dump_failed(bytes@, spans@, kind, m@));
                        }
                        return Err(m);
                    },
                };
                let ghost old_done = done;
                let ghost old_dl = dl;
                proof {
                    lemma_room_push(done, es@[sub as int]);
                    done = done.push(es@[sub as int]);
                    dl = dl.push((spi as int, sub as int));
                    assert(done =~= flat(acc) + es@.take(sub + 1));
                    assert(dl =~= flat_locs(acc) + Seq::new((sub + 1) as nat, |k: int| (spi as int, k)));
                }
                let ghost ol = locs@;
                let ghost om = metas@;
                let ghost witness = es@[sub as int]@;
                proof {
                    assert forall|i: int| 0 <= i < ol.len() implies (#[trigger] ol[i]).0 <= spi
                        && span_ok(spans@[ol[i].0 as int], bytes@.len() as int) && stands_for(
                        om[i],
                        bytes@,
                        spans@[ol[i].0 as int],
                        kind,
                        ol[i].1 as int,
                        interner.strings(),
                    ) by {
                        let e = choose|e: EntryView|
                            element_entry(bytes@, spans@[ol[i].0 as int], kind, ol[i].1 as int, e)
                                && summarizes(om[i], e, before);
                        lemma_summary_grows(om[i], e, before, interner.strings());
                    }
                    let f = framed(bytes@, sp).unwrap();
                    let t = nbt_read(f)->Ok_0;
                    let v = choose|v: NbtV| tree(v) == t && distinct_deep(v) && built(es@, v, kind);
                    assert(tree(v) == t && distinct_deep(v) && built(es@, v, kind) && 0 <= sub < es@.len()
                        && es@[sub as int]@ == witness);
                    assert(element_entry(bytes@, sp, kind, sub as int, witness));
                }
                metas.push(m);
                locs.push((spi as u32, sub as u8));
                proof {
                    let last = ol.len() as int;
                    assert forall|i: int| 0 <= i < locs@.len() implies (#[trigger] locs@[i]).0
                        <= spi && span_ok(spans@[locs@[i].0 as int], bytes@.len() as int)
                        && stands_for(
                            metas@[i],
                            bytes@,
                            spans@[locs@[i].0 as int],
                            kind,
                            locs@[i].1 as int,
                            interner.strings(),
                        ) by {
                        if i < last {
                            assert(locs@[i] == ol[i]);
                            assert(metas@[i] == om[i]);
                            assert(ol[i].0 <= spi);
                        } else {
                            assert(locs@[i].0 as int == spi);
                            assert(locs@[i].1 as int == sub);
                            assert(element_entry(
                                bytes@,
                                spans@[locs@[i].0 as int],
                                kind,
                                locs@[i].1 as int,
                                witness,
                            ) && summarizes(metas@[i], witness, interner.strings()));
                        }
                    }
                    assert forall|i: int| 0 <= i < metas@.len() implies summarizes(
                        #[trigger] metas@[i],
                        done[i]@,
                        interner.strings(),
                    ) by {
                        if i < last {
                            assert(metas@[i] == om[i]);
                            assert(done[i] == old_done[i]);
                            lemma_summary_grows(om[i], old_done[i]@, before, interner.strings());
                        } else {
                            assert(done[i] == es@[sub as int]);
                        }
                    }
                    assert forall|i: int| 0 <= i < locs@.len() implies (#[trigger] locs@[i]).0 as int
                        == dl[i].0 && locs@[i].1 as int == dl[i].1 by {
                        if i < last {
                            assert(locs@[i] == ol[i]);
                            assert(dl[i] == old_dl[i]);
                        }
                    }
                }
                sub += 1;
            }
            proof {
                assert(es@.take(es@.len() as int) =~= es@);
                acc = acc.push(es@);
                assert(done == flat(acc));
                assert(dl == flat_locs(acc));
                assert forall|j: int| 0 <= j < acc.len() implies (#[trigger] acc[j]).len() <= 255 by {
                    if j < acc.len() - 1 {
                        assert(acc[j] == acc.drop_last()[j]);
                    }
                }
            }
            spi += 1;
        }
        proof {
            assert forall|i: int| 0 <= i < locs@.len() implies spans@.contains(
                spans@[(#[trigger] locs@[i]).0 as int],
            ) by {
                assert(0 <= locs@[i].0 < spans@.len());
            }
        }
        let ghost bv = bytes@;
        let ghost sv = spans@;
        let ghost lv = locs@;
        let ghost mv = metas@;
        let s = Store {
            metas,
            interner,
            backend: Backend::Nbt { bytes, spans, locs, kind },
            overrides: Vec::new(),
        };
        assert(s.renames() =~= Seq::<(Seq<char>, Seq<char>)>::empty());
        assert(s.wf());
        proof {
            assert forall|i: int| 0 <= i < s.summaries().len() implies ((#[trigger] s.origin(
                i,
            )) matches Some((b, sp, k, sub)) && b == decompressed(raw@) && k == kind
                && sv.contains(sp) && stands_for(s.summaries()[i], b, sp, k, sub, s.names())) by {
                assert(s.origin(i) == Some((bv, sv[lv[i].0 as int], kind, lv[i].1 as int)));
                assert(mv[i] == s.summaries()[i]);
                assert(0 <= lv[i].0 < sv.len());
                assert(sv.contains(sv[lv[i].0 as int]));
                let e = choose|e: EntryView|
                    element_entry(bv, sv[lv[i].0 as int], kind, lv[i].1 as int, e) && summarizes(
                        mv[i],
                        e,
                        s.names(),
                    );
                assert(element_entry(bv, sv[lv[i].0 as int], kind, lv[i].1 as int, e)
                    && summarizes(s.summaries()[i], e, s.names()));
                assert(bv == decompressed(raw@));
            }
            lemma_flat(acc);
            assert(!dump_overflows(acc, sv.len() as int));
            assert forall|i: int| 0 <= i < flat(acc).len() implies 0 <= (
            #[trigger] flat_locs(acc)[i]).0 < sv.len() && s.origin(i) == Some(
                (bv, sv[flat_locs(acc)[i].0], kind, flat_locs(acc)[i].1),
            ) && summarizes(s.summaries()[i], flat(acc)[i]@, s.names()) by {
                assert(s.origin(i) == Some((bv, sv[lv[i].0 as int], kind, lv[i].1 as int)));
                assert(mv[i] == s.summaries()[i]);
            }
            assert(spans_build(bv, sv, kind, acc));
            assert(s.dump_opened(bv, sv, kind));
        }
        Ok(s)
    }
}


/// An owner that a name may be given to: empty or `unknown`.
pub open spec fn unclaimed(owner: Seq<char>) -> bool {
    owner.len() == 0 || owner == "unknown"@
}

/// The summary `m` with the owner `owner`.
pub open spec fn owned_by(m: EntryMeta, owner: Seq<char>, n: EntryMeta) -> bool {
    &&& n.kind == m.kind
    &&& n.icon == m.icon
    &&& n.dim == m.dim
    &&& n.owner@ == owner
    &&& n.uuid@ == m.uuid@
    &&& n.coords == m.coords
    &&& n.flags == m.flags
    &&& n.rows == m.rows
    &&& n.meta_len == m.meta_len
    &&& n.max_stack == m.max_stack
    &&& n.enchants@ == m.enchants@
}

fn with_owner(m: &EntryMeta, owner: String) -> (r: EntryMeta)
    ensures
        owned_by(*m, owner@, r),
{
    let mut enchants: Vec<(u32, i16)> = Vec::new();
    let mut i: usize = 0;
    while i < m.enchants.len()
        invariant
            i <= m.enchants@.len(),
            enchants@ == m.enchants@.take(i as int),
        decreases m.enchants.len() - i,
    {
        enchants.push(m.enchants[i]);
        i += 1;
        assert(enchants@ =~= m.enchants@.take(i as int));
    }
    assert(m.enchants@.take(m.enchants@.len() as int) =~= m.enchants@);
    EntryMeta {
        kind: m.kind,
        icon: m.icon,
        dim: m.dim,
        owner,
        uuid: m.uuid.clone(),
        coords: m.coords,
        flags: m.flags,
        rows: m.rows,
        meta_len: m.meta_len,
        max_stack: m.max_stack,
        enchants,
    }
}

fn is_unclaimed(owner: &str) -> (r: bool)
    ensures
        r == unclaimed(owner@),
{
    owner.is_empty() || str_eq(owner, "unknown")
}

impl Store {
    /// The indices of the entries, in order, whose summaries (and text
    /// sources) pass the filters, among the first `n`.
    pub closed spec fn passing(&self, c: &Compiled, n: int) -> Seq<u32>
        decreases n,
    {
        if n <= 0 {
            seq![]
        } else if c.accepts_meta(self.metas@[n - 1], self.source(n - 1), self.names()) {
            self.passing(c, n - 1).push((n - 1) as u32)
        } else {
            self.passing(c, n - 1)
        }
    }

    /// How many entries the store holds.
    pub fn len(&self) -> (r: usize)
        ensures
            r == self.summaries().len(),
    {
        self.metas.len()
    }

    pub fn metas(&self) -> (r: &[EntryMeta])
        ensures
            r@ == self.summaries(),
    {
        self.metas.as_slice()
    }

    /// The interned strings that the summaries name.
    pub fn interner(&self) -> (r: &Interner)
        ensures
            r.strings() == self.names(),
    {
        &self.interner
    }

    /// The kind of the first entry.
    pub fn first_kind(&self) -> (r: Option<EntryKind>)
        ensures
            r == if self.summaries().len() > 0 {
                Some(self.summaries()[0].kind)
            } else {
                None
            },
    {
        if self.metas.len() > 0 {
            Some(self.metas[0].kind)
        } else {
            None
        }
    }

    /// The entries held in memory; none for a store over a file.
    pub fn mem_entries(&self) -> (r: &[Entry])
        ensures
            match self.held() {
                Some(es) => entries_view(r@) == es,
                None => r@.len() == 0,
            },
            r@ == self.kept(),
    {
        match &self.backend {
            Backend::Mem { entries } => entries.as_slice(),
            _ => &[],
        }
    }

    /// Where the text of entry `i` comes from, for filtering.
    pub fn text_source(&self, i: usize) -> (r: TextSource<'_>)
        requires
            self.wf(),
            i < self.summaries().len(),
        ensures
            text_view(&r) == self.source(i as int),
            self.held() is Some ==> text_view(&r) == (TextView::Blob {
                search: self.kept()[i as int].search_blob@,
                nbt: self.kept()[i as int].nbt_blob@,
                upgrades: self.kept()[i as int].upgrades@,
            }),
    {
        match &self.backend {
            Backend::Json { bytes, spans, locs, .. } => {
                let (spi, _) = locs[i];
                let (s, e) = spans[spi as usize];
                TextSource::Slice(vstd::slice::slice_subrange(bytes.as_slice(), s as usize, e as usize))
            },
            Backend::Nbt { bytes, spans, locs, .. } => {
                let (spi, _) = locs[i];
                let (s, e) = spans[spi as usize];
                TextSource::Slice(vstd::slice::slice_subrange(bytes.as_slice(), s as usize, e as usize))
            },
            Backend::Mem { entries } => {
                let e = &entries[i];
                TextSource::Blob {
                    search: e.search_blob.as_str(),
                    nbt: e.nbt_blob.as_str(),
                    upgrades: e.upgrades.as_slice(),
                }
            },
        }
    }

    /// The indices of the entries that pass the filters, in order.
    pub fn filter(&self, c: &Compiled) -> (r: Vec<u32>)
        requires
            self.wf(),
        ensures
            r@ == self.passing(c, self.summaries().len() as int),
            r@.len() <= self.summaries().len(),
            forall|a: int, b: int| 0 <= a < b < r@.len() ==> r@[a] < r@[b],
            forall|k: int| 0 <= k < r@.len() ==> (r@[k] as int) < self.summaries().len(),
            forall|i: int|
                0 <= i < self.summaries().len() ==> (r@.contains(i as u32) <==> c.accepts_meta(
                    self.summaries()[i],
                    self.source(i),
                    self.names(),
                )),
    {
        let n = self.metas.len();
        let mut out: Vec<u32> = Vec::new();
        let mut i: usize = 0;
        while i < n
            invariant
                self.wf(),
                n == self.summaries().len(),
                i <= n,
                out@ == self.passing(c, i as int),
            decreases n - i,
        {
            let t = self.text_source(i);
            if c.matches_meta(&self.metas[i], &t, &self.interner) {
                out.push(i as u32);
            }
            i += 1;
        }
        proof {
            self.lemma_passing(c, n as int);
        }
        out
    }

    proof fn lemma_passing(&self, c: &Compiled, n: int)
        requires
            0 <= n <= u32::MAX + 1,
        ensures
            self.passing(c, n).len() <= n,
            forall|a: int, b: int|
                0 <= a < b < self.passing(c, n).len() ==> self.passing(c, n)[a] < self.passing(
                    c,
                    n,
                )[b],
            forall|k: int| 0 <= k < self.passing(c, n).len() ==> (self.passing(c, n)[k] as int) < n,
            forall|i: int|
                0 <= i < n ==> (self.passing(c, n).contains(i as u32) <==> c.accepts_meta(
                    self.metas@[i],
                    self.source(i),
                    self.names(),
                )),
        decreases n,
    {
        if n > 0 {
            self.lemma_passing(c, n - 1);
            let p = self.passing(c, n - 1);
            let q = self.passing(c, n);
            assert forall|i: int| 0 <= i < n implies (q.contains(i as u32) <==> c.accepts_meta(
                self.metas@[i],
                self.source(i),
                self.names(),
            )) by {
                if i < n - 1 {
                    if q.contains(i as u32) {
                        let k = choose|k: int| 0 <= k < q.len() && q[k] == i as u32;
                        if k == p.len() {
                            assert(q[k] == (n - 1) as u32);
                        } else {
                            assert(q[k] == p[k]);
                        }
                    }
                    if p.contains(i as u32) {
                        let k = choose|k: int| 0 <= k < p.len() && p[k] == i as u32;
                        assert(q[k] == p[k]);
                    }
                } else {
                    if q.contains(i as u32) {
                        let k = choose|k: int| 0 <= k < q.len() && q[k] == i as u32;
                        if k < p.len() {
                            assert(q[k] == p[k]);
                        }
                    }
                    if c.accepts_meta(self.metas@[i], self.source(i), self.names()) {
                        assert(q[p.len() as int] == i as u32);
                    }
                }
            }
        }
    }
}


/// For a store that holds its entries in memory, a summary passes the
/// filters exactly when the entry it summarizes does (within the widths that
/// summaries keep: coordinates and largest stack in 32 bits, enchantment
/// levels in 16).
pub proof fn law_memory_filter_matches_entries(s: Store, c: Compiled, i: int)
    requires
        s.wf(),
        s.held() is Some,
        0 <= i < s.summaries().len(),
        s.kept()[i].coords matches Some((x, y, z)) ==> i32::MIN <= x <= i32::MAX && i32::MIN <= y
            <= i32::MAX && i32::MIN <= z <= i32::MAX,
        i32::MIN <= s.kept()[i].max_stack <= i32::MAX,
        forall|j: int|
            0 <= j < s.kept()[i].all_enchants@.len() ==> i16::MIN <= (
            #[trigger] s.kept()[i].all_enchants@[j]).1 <= i16::MAX,
    ensures
        c.accepts_meta(s.summaries()[i], s.source(i), s.names()) == c.accepts(&s.kept()[i]),
{
    s.lemma_held_summarized(i);
    let e = s.kept()[i];
    law_summary_filters_as_entry(c, e, s.summaries()[i], s.names());
}

fn element_at(bytes: &Vec<u8>, spans: &Vec<(u32, u32)>, loc: (u32, u8), kind: DumpKind) -> (r: Option<
    Entry,
>)
    requires
        (loc.0 as int) < spans@.len(),
    ensures
        r matches Some(e) ==> element_entry(
            bytes@,
            spans@[loc.0 as int],
            kind,
            loc.1 as int,
            e@,
        ),
        (exists|x: EntryView|
            element_entry(bytes@, spans@[loc.0 as int], kind, loc.1 as int, x)) ==> r is Some,
{
    let (spi, sub) = loc;
    let mut es = build_one(bytes.as_slice(), spans[spi as usize], kind);
    if (sub as usize) >= es.len() {
        proof {
            if exists|x: EntryView|
                element_entry(bytes@, spans@[spi as int], kind, sub as int, x) {
                let x = choose|x: EntryView|
                    element_entry(bytes@, spans@[spi as int], kind, sub as int, x);
                let f = framed(bytes@, spans@[spi as int]).unwrap();
                let t = nbt_read(f)->Ok_0;
                let (v0, es0) = choose|v: NbtV, e0: Seq<Entry>|
                    tree(v) == t && distinct_deep(v) && built(e0, v, kind) && 0 <= sub < e0.len()
                        && e0[sub as int]@ == x;
                assert(built(es0, v0, kind));
                let v1 = choose|v: NbtV| tree(v) == t && distinct_deep(v) && built(es@, v, kind);
                assert(built(es@, v1, kind));
                if kind == DumpKind::Players {
                    lemma_players_count(es0, v0, es@, v1);
                }
            }
        }
        return None;
    }
    let ghost all = es@;
    let e = es.remove(sub as usize);
    proof {
        let sp = spans@[spi as int];
        let f = framed(bytes@, sp).unwrap();
        let t = nbt_read(f)->Ok_0;
        let v = choose|v: NbtV| tree(v) == t && distinct_deep(v) && built(all, v, kind);
        assert(tree(v) == t && distinct_deep(v) && built(all, v, kind) && 0 <= sub < all.len() && all[sub as int]@
            == e@);
    }
    Some(e)
}

/// The fields of the JSON element at `sp` in `b`.
pub open spec fn element_of(b: Seq<u8>, sp: (u32, u32)) -> Option<RawV> {
    if span_ok(sp, b.len() as int) {
        match json_bytes_value(b.subrange(sp.0 as int, sp.1 as int)) {
            Some(v) => raw_of(v),
            None => None,
        }
    } else {
        None
    }
}

/// `e` is entry `sub` of what the JSON element at `sp` of `b` builds.
pub open spec fn json_element_entry(
    b: Seq<u8>,
    sp: (u32, u32),
    kind: JsonKind,
    sub: int,
    e: EntryView,
) -> bool {
    match element_of(b, sp) {
        Some(r) => exists|es: Seq<Entry>|
            #![trigger json_built(es, r, kind)]
            json_built(es, r, kind) && 0 <= sub < es.len() && es[sub]@ == e,
        None => false,
    }
}

/// `es` is what the JSON element at `sp` builds; nothing where it cannot be
/// read.
pub open spec fn json_element_builds(b: Seq<u8>, sp: (u32, u32), kind: JsonKind, es: Seq<Entry>) -> bool {
    match element_of(b, sp) {
        Some(r) => json_built(es, r, kind),
        None => es.len() == 0,
    }
}

/// `ess[j]` is what JSON span `j` builds, for each of the first `ess.len()`
/// spans.
pub open spec fn json_spans_build(
    b: Seq<u8>,
    spans: Seq<(u32, u32)>,
    kind: JsonKind,
    ess: Seq<Seq<Entry>>,
) -> bool {
    &&& ess.len() <= spans.len()
    &&& forall|j: int|
        0 <= j < ess.len() ==> json_element_builds(b, spans[j], kind, #[trigger] ess[j])
}

/// Opening a JSON dump of `spans` in `b` ran out of room, as `m` says, on
/// the entries that its first spans build.
pub open spec fn json_dump_failed(b: Seq<u8>, spans: Seq<(u32, u32)>, kind: JsonKind, m: Seq<char>) -> bool {
    exists|ess: Seq<Seq<Entry>>|
        #![trigger json_spans_build(b, spans, kind, ess)]
        json_spans_build(b, spans, kind, ess) && overflow_message(ess, spans.len() as int, m)
}

/// Reads the fields of the JSON element at `sp`; none where the span lies
/// outside the bytes or serde_json rejects them.
pub fn read_element(b: &[u8], sp: (u32, u32)) -> (r: Option<RawElement>)
    ensures
        match r {
            Some(e) => element_of(b@, sp) == Some(e@),
            None => element_of(b@, sp) is None,
        },
{
    let s = sp.0 as usize;
    let e = sp.1 as usize;
    if s > e || e > b.len() {
        return None;
    }
    let v = match parse_json_bytes(vstd::slice::slice_subrange(b, s, e)) {
        Ok(v) => v,
        Err(_) => {
            return None;
        },
    };
    raw_element(&v)
}

fn json_element_at(
    bytes: &Vec<u8>,
    spans: &Vec<(u32, u32)>,
    loc: (u32, u8),
    kind: JsonKind,
) -> (r: Option<Entry>)
    requires
        (loc.0 as int) < spans@.len(),
    ensures
        r matches Some(e) ==> json_element_entry(
            bytes@,
            spans@[loc.0 as int],
            kind,
            loc.1 as int,
            e@,
        ),
        (exists|x: EntryView| json_element_entry(bytes@, spans@[loc.0 as int], kind, loc.1 as int, x))
            ==> r is Some,
{
    let (spi, sub) = loc;
    let el = read_element(bytes.as_slice(), spans[spi as usize])?;
    let mut es = crate::parse::containers::build_one(&el, kind);
    if (sub as usize) >= es.len() {
        proof {
            if exists|x: EntryView|
                json_element_entry(bytes@, spans@[spi as int], kind, sub as int, x) {
                let x = choose|x: EntryView|
                    json_element_entry(bytes@, spans@[spi as int], kind, sub as int, x);
                let es0 = choose|e0: Seq<Entry>|
                    json_built(e0, el@, kind) && 0 <= sub < e0.len() && e0[sub as int]@ == x;
                assert(json_built(es0, el@, kind));
                assert(json_built(es@, el@, kind));
                assert(es0.len() == es@.len());
            }
        }
        return None;
    }
    let ghost all = es@;
    let e = es.remove(sub as usize);
    assert(json_built(all, el@, kind) && 0 <= sub < all.len() && all[sub as int]@ == e@);
    Some(e)
}

impl Store {
    /// `x` is what the element of entry `i` in the file builds for it.
    pub closed spec fn built_at(&self, i: int, x: EntryView) -> bool {
        match self.backend {
            Backend::Nbt { bytes, spans, locs, kind } => element_entry(
                bytes@,
                spans@[locs@[i].0 as int],
                kind,
                locs@[i].1 as int,
                x,
            ),
            Backend::Json { bytes, spans, locs, json_kind } => json_element_entry(
                bytes@,
                spans@[locs@[i].0 as int],
                json_kind,
                locs@[i].1 as int,
                x,
            ),
            _ => false,
        }
    }

    fn rename_of(&self, u: &str) -> (r: Option<&String>)
        ensures
            match r {
                Some(n) => rename_for(self.renames(), u@) == Some(n@),
                None => rename_for(self.renames(), u@) is None,
            },
    {
        let ghost ov = self.renames();
        assert(ov.take(ov.len() as int) =~= ov);
        let mut k: usize = self.overrides.len();
        while k > 0
            invariant
                k <= self.overrides@.len(),
                ov == crate::model::text_pairs_view(self.overrides@),
                rename_for(ov, u@) == rename_for(ov.take(k as int), u@),
            decreases k,
        {
            let ghost pre = ov.take(k as int);
            assert(pre.drop_last() =~= ov.take(k - 1));
            assert(pre.last() == (self.overrides@[k - 1].0@, self.overrides@[k - 1].1@));
            if str_eq(self.overrides[k - 1].0.as_str(), u) {
                return Some(&self.overrides[k - 1].1);
            }
            k -= 1;
        }
        None
    }

    /// Entry `i`, built again from its element in the file or copied from
    /// memory, with the owner's name filled in where one was given for its
    /// uuid.
    pub fn entry(&self, i: usize) -> (r: Option<Entry>)
        requires
            self.wf(),
        ensures
            i >= self.summaries().len() ==> r is None,
            i < self.summaries().len() && self.held() is None && self.summary_sourced(i as int)
                ==> r is Some,
            match self.held() {
                Some(es) => i < es.len() ==> (r matches Some(e) && e@ == renamed(
                    es[i as int],
                    self.renames(),
                )),
                None => r matches Some(e) ==> exists|x: EntryView|
                    #![trigger self.built_at(i as int, x)]
                    self.built_at(i as int, x) && e@ == renamed(x, self.renames()),
            },
    {
        if i >= self.metas.len() {
            return None;
        }
        let mut e = match &self.backend {
            Backend::Json { bytes, spans, locs, json_kind } => {
                match json_element_at(bytes, spans, locs[i], *json_kind) {
                    Some(e) => {
                        assert(self.built_at(i as int, e@));
                        e
                    },
                    None => {
                        return None;
                    },
                }
            },
            Backend::Nbt { bytes, spans, locs, kind } => {
                match element_at(bytes, spans, locs[i], *kind) {
                    Some(e) => {
                        assert(self.built_at(i as int, e@));
                        e
                    },
                    None => {
                        return None;
                    },
                }
            },
            Backend::Mem { entries } => {
                assert(entries_view(entries@)[i as int] == entries@[i as int]@);
                entries[i].duplicate()
            },
        };
        let ghost before = e@;
        if self.overrides.len() > 0 && !e.uuid.as_str().is_empty() {
            if let Some(name) = self.rename_of(e.uuid.as_str()) {
                apply_name(&mut e, name.as_str());
            }
        }
        assert(e@ == renamed(before, self.renames()));
        proof {
            if self.held() is None {
                assert(self.built_at(i as int, before));
            }
        }
        Some(e)
    }
}


/// An entry held in memory after its owner was given the name `name`.
pub open spec fn claimed_by(e: EntryView, uuid: Seq<char>, name: Seq<char>) -> EntryView {
    if e.uuid == uuid && unclaimed(e.owner) {
        named(e, name)
    } else {
        e
    }
}

fn name_entries(entries: &mut Vec<Entry>, uuid: &str, name: &str)
    ensures
        entries_view(final(entries)@) == entries_view(old(entries)@).map_values(
            |e: EntryView| claimed_by(e, uuid@, name@),
        ),
{
    let ghost start = entries_view(entries@);
    let mut j: usize = 0;
    while j < entries.len()
        invariant
            j <= entries@.len(),
            start.len() == entries@.len(),
            forall|k: int|
                0 <= k < entries@.len() ==> #[trigger] entries@[k]@ == if k < j {
                    claimed_by(start[k], uuid@, name@)
                } else {
                    start[k]
                },
        decreases entries.len() - j,
    {
        if str_eq(entries[j].uuid.as_str(), uuid) && is_unclaimed(entries[j].owner.as_str()) {
            let mut e = entries[j].duplicate();
            apply_name(&mut e, name);
            entries.set(j, e);
        }
        j += 1;
    }
    assert(entries_view(entries@) =~= start.map_values(|e: EntryView| claimed_by(e, uuid@, name@)));
}

/// What giving the name `name` to the unnamed owners of `uuid` makes of a
/// store `a`: the store `b` (see `Store::apply_username`).
pub open spec fn username_applied(a: Store, b: Store, uuid: Seq<char>, name: Seq<char>) -> bool {
    let r = exists|i: int|
        0 <= i < a.summaries().len() && (#[trigger] a.summaries()[i]).uuid@ == uuid && unclaimed(
            a.summaries()[i].owner@,
        );
    &&& b.wf()
    &&& b.names() == a.names()
    &&& b.summaries().len() == a.summaries().len()
    &&& forall|i: int|
        0 <= i < a.summaries().len() ==> if (#[trigger] a.summaries()[i]).uuid@ == uuid && unclaimed(
            a.summaries()[i].owner@,
        ) {
            owned_by(a.summaries()[i], lowercase(name), b.summaries()[i])
        } else {
            b.summaries()[i] == a.summaries()[i]
        }
    &&& match a.held() {
        Some(es) => b.held() == Some(es.map_values(|e: EntryView| claimed_by(e, uuid, name))),
        None => b.held() is None,
    }
    &&& forall|i: int| #[trigger] b.origin(i) == a.origin(i)
    &&& forall|i: int, x: EntryView| #[trigger] b.built_at(i, x) == a.built_at(i, x)
    &&& b.renames() == if r {
        a.renames().push((uuid, name))
    } else {
        a.renames()
    }
}

impl Store {
    /// Gives the name `name` to the owner of the entries of `uuid` whose
    /// owner is empty or `unknown`, and says whether any summary changed;
    /// entries built later carry the name as well.
    pub fn apply_username(&mut self, uuid: &str, name: &str) -> (r: bool)
        requires
            old(self).wf(),
        ensures
            final(self).wf(),
            final(self).names() == old(self).names(),
            final(self).summaries().len() == old(self).summaries().len(),
            r == exists|i: int|
                0 <= i < old(self).summaries().len() && (#[trigger] old(self).summaries()[i]).uuid@
                    == uuid@ && unclaimed(old(self).summaries()[i].owner@),
            forall|i: int|
                0 <= i < old(self).summaries().len() ==> if (#[trigger] old(
                    self,
                ).summaries()[i]).uuid@ == uuid@ && unclaimed(old(self).summaries()[i].owner@) {
                    owned_by(old(self).summaries()[i], lowercase(name@), final(self).summaries()[i])
                } else {
                    final(self).summaries()[i] == old(self).summaries()[i]
                },
            match old(self).held() {
                Some(es) => final(self).held() == Some(
                    es.map_values(|e: EntryView| claimed_by(e, uuid@, name@)),
                ),
                None => final(self).held() is None,
            },
            forall|i: int| #[trigger] final(self).origin(i) == old(self).origin(i),
            forall|i: int, x: EntryView| #[trigger] final(self).built_at(i, x) == old(self).built_at(i, x),
            final(self).renames() == if r {
                old(self).renames().push((uuid@, name@))
            } else {
                old(self).renames()
            },
    {
        let n = self.metas.len();
        let lname = to_lower(name);
        let mut changed = false;
        let mut i: usize = 0;
        while i < n
            invariant
                n == self.metas@.len() == old(self).metas@.len(),
                i <= n,
                self.interner == old(self).interner,
                self.backend == old(self).backend,
                self.overrides == old(self).overrides,
                lname@ == lowercase(name@),
                changed == exists|k: int|
                    0 <= k < i && (#[trigger] old(self).metas@[k]).uuid@ == uuid@ && unclaimed(
                        old(self).metas@[k].owner@,
                    ),
                forall|k: int|
                    0 <= k < n ==> if k < i && (#[trigger] old(self).metas@[k]).uuid@ == uuid@
                        && unclaimed(old(self).metas@[k].owner@) {
                        owned_by(old(self).metas@[k], lowercase(name@), self.metas@[k])
                    } else {
                        self.metas@[k] == old(self).metas@[k]
                    },
            decreases n - i,
        {
            assert(self.metas@[i as int] == old(self).metas@[i as int]);
            let hit = str_eq(self.metas[i].uuid.as_str(), uuid) && is_unclaimed(
                self.metas[i].owner.as_str(),
            );
            if hit {
                let m2 = with_owner(&self.metas[i], copy_str(lname.as_str()));
                self.metas.set(i, m2);
                changed = true;
            }
            proof {
                if hit {
                    assert(old(self).metas@[i as int].uuid@ == uuid@ && unclaimed(
                        old(self).metas@[i as int].owner@,
                    ));
                } else {
                    assert forall|k: int|
                        0 <= k < i + 1 && (#[trigger] old(self).metas@[k]).uuid@ == uuid@
                            && unclaimed(old(self).metas@[k].owner@) implies k < i by {}
                }
            }
            i += 1;
        }
        let mut b = Backend::Mem { entries: Vec::new() };
        std::mem::swap(&mut b, &mut self.backend);
        let ghost ob = b;
        if let Backend::Mem { entries } = &mut b {
            name_entries(entries, uuid, name);
        }
        proof {
            match ob {
                Backend::Mem { entries } => {
                    assert(b matches Backend::Mem { entries: e2 } && entries_view(e2@).len()
                        == entries_view(entries@).len());
                    let e2 = b->Mem_entries;
                    assert forall|k: int| 0 <= k < e2@.len() implies summarizes(
                        #[trigger] self.metas@[k],
                        e2@[k]@,
                        self.interner.strings(),
                    ) by {
                        let om = old(self).metas@[k];
                        let oe = entries@[k]@;
                        assert(summarizes(om, oe, self.interner.strings()));
                        assert(entries_view(e2@)[k] == e2@[k]@);
                        assert(entries_view(entries@)[k] == oe);
                        assert(e2@[k]@ == claimed_by(oe, uuid@, name@));
                        if om.uuid@ == uuid@ && unclaimed(om.owner@) {
                            assert(named_rows(oe.meta, name@).len() == oe.meta.len());
                        }
                    }
                },
                _ => {
                    assert(b == ob);
                },
            }
        }
        std::mem::swap(&mut b, &mut self.backend);
        if changed {
            self.overrides.push((copy_str(uuid), copy_str(name)));
        }
        proof {
            assert forall|k: int| 0 <= k < self.metas@.len() implies names_within(
                #[trigger] self.metas@[k],
                self.interner.strings().len() as int,
            ) by {
                assert(names_within(old(self).metas@[k], self.interner.strings().len() as int));
            }
        }
        changed
    }
}

/// The clauses of `Store::apply_username`, gathered as `username_applied`.
pub proof fn lemma_username_applied(a: Store, b: Store, uuid: Seq<char>, name: Seq<char>, r: bool)
    requires
        b.wf(),
        b.names() == a.names(),
        b.summaries().len() == a.summaries().len(),
        r == exists|i: int|
            0 <= i < a.summaries().len() && (#[trigger] a.summaries()[i]).uuid@ == uuid && unclaimed(
                a.summaries()[i].owner@,
            ),
        forall|i: int|
            0 <= i < a.summaries().len() ==> if (#[trigger] a.summaries()[i]).uuid@ == uuid
                && unclaimed(a.summaries()[i].owner@) {
                owned_by(a.summaries()[i], lowercase(name), b.summaries()[i])
            } else {
                b.summaries()[i] == a.summaries()[i]
            },
        match a.held() {
            Some(es) => b.held() == Some(es.map_values(|e: EntryView| claimed_by(e, uuid, name))),
            None => b.held() is None,
        },
        forall|i: int| #[trigger] b.origin(i) == a.origin(i),
        forall|i: int, x: EntryView| #[trigger] b.built_at(i, x) == a.built_at(i, x),
        b.renames() == if r {
            a.renames().push((uuid, name))
        } else {
            a.renames()
        },
    ensures
        username_applied(a, b, uuid, name),
{
}


/// Where trailing whitespace before `end` begins.
pub open spec fn trim_end_at(b: Seq<u8>, end: int) -> int
    decreases end,
{
    if 0 < end <= b.len() && crate::text::is_ascii_white(b[end - 1]) {
        trim_end_at(b, end - 1)
    } else {
        end
    }
}

/// The position after a JSON string whose body starts at `j` (`esc`: the
/// byte before was an escaping backslash), or the end.
pub open spec fn str_end(b: Seq<u8>, j: int, esc: bool) -> int
    decreases b.len() - j,
{
    if j < 0 || j >= b.len() {
        b.len() as int
    } else if esc {
        str_end(b, j + 1, false)
    } else if b[j] == 0x5c {
        str_end(b, j + 1, true)
    } else if b[j] == 0x22 {
        j + 1
    } else {
        str_end(b, j + 1, false)
    }
}

pub proof fn lemma_str_end(b: Seq<u8>, j: int, esc: bool)
    requires
        0 <= j <= b.len(),
    ensures
        j < str_end(b, j, esc) <= b.len() || (j == b.len() && str_end(b, j, esc) == b.len()),
    decreases b.len() - j,
{
    if j < b.len() {
        if esc || b[j] == 0x5c || b[j] != 0x22 {
            lemma_str_end(b, j + 1, if esc {
                false
            } else if b[j] == 0x5c {
                true
            } else {
                false
            });
        }
    }
}

/// The end of the bracketed value scanned from `j` at nesting `depth`.
pub open spec fn nest_end(b: Seq<u8>, j: int, depth: int) -> int
    decreases b.len() - j,
{
    if j < 0 || j >= b.len() {
        b.len() as int
    } else if b[j] == 0x22 {
        let k = str_end(b, j + 1, false);
        if j < k <= b.len() {
            nest_end(b, k, depth)
        } else {
            b.len() as int
        }
    } else if b[j] == 0x7b || b[j] == 0x5b {
        nest_end(b, j + 1, depth + 1)
    } else if b[j] == 0x7d || b[j] == 0x5d {
        if depth - 1 == 0 {
            j + 1
        } else {
            nest_end(b, j + 1, depth - 1)
        }
    } else {
        nest_end(b, j + 1, depth)
    }
}

/// The end of a scalar: the next `,`, `}` or `]`, or the end.
pub open spec fn scalar_end(b: Seq<u8>, j: int) -> int
    decreases b.len() - j,
{
    if j < 0 || j >= b.len() || b[j] == 0x2c || b[j] == 0x7d || b[j] == 0x5d {
        j
    } else {
        scalar_end(b, j + 1)
    }
}

/// The end of the JSON value that starts at `i`.
pub open spec fn value_end(b: Seq<u8>, i: int) -> int {
    if 0 <= i < b.len() && b[i] == 0x22 {
        str_end(b, i + 1, false)
    } else if 0 <= i < b.len() && (b[i] == 0x7b || b[i] == 0x5b) {
        nest_end(b, i, 0)
    } else {
        scalar_end(b, i)
    }
}

fn trim_end(b: &[u8], end: usize) -> (r: usize)
    requires
        end <= b@.len(),
    ensures
        r == trim_end_at(b@, end as int),
        r <= end,
{
    let mut e = end;
    while e > 0 && is_ascii_whitespace(b[e - 1])
        invariant
            e <= end <= b@.len(),
            trim_end_at(b@, end as int) == trim_end_at(b@, e as int),
        decreases e,
    {
        e -= 1;
    }
    e
}

fn skip_ws(b: &[u8], i: usize) -> (r: usize)
    requires
        i <= b@.len(),
    ensures
        r == ws_end(b@, i as int),
        i <= r <= b@.len(),
{
    let mut j = i;
    while j < b.len() && is_ascii_whitespace(b[j])
        invariant
            i <= j <= b@.len(),
            ws_end(b@, i as int) == ws_end(b@, j as int),
        decreases b.len() - j,
    {
        j += 1;
    }
    j
}

/// The position after the JSON string that opens at `i`.
fn skip_string(b: &[u8], i: usize) -> (r: usize)
    requires
        i < b.len(),
    ensures
        r == str_end(b@, i + 1, false),
        i < r <= b@.len(),
{
    proof {
        lemma_str_end(b@, i + 1, false);
    }
    let mut j = i + 1;
    let mut esc = false;
    while j < b.len()
        invariant
            i < j <= b@.len(),
            str_end(b@, i + 1, false) == str_end(b@, j as int, esc),
        decreases b.len() - j,
    {
        let c = b[j];
        if esc {
            esc = false;
        } else if c == 0x5c {
            esc = true;
        } else if c == 0x22 {
            return j + 1;
        }
        j += 1;
    }
    j
}

fn skip_value(b: &[u8], i: usize) -> (r: usize)
    requires
        i <= b@.len(),
    ensures
        r == value_end(b@, i as int),
        r <= b@.len(),
{
    if i < b.len() && b[i] == 0x22 {
        return skip_string(b, i);
    }
    if i < b.len() && (b[i] == 0x7b || b[i] == 0x5b) {
        let mut depth: usize = 0;
        let mut j = i;
        while j < b.len()
            invariant
                i <= j <= b@.len(),
                i < b@.len(),
                b@[i as int] == 0x7b || b@[i as int] == 0x5b,
                depth <= j - i,
                (j == i) == (depth == 0),
                nest_end(b@, i as int, 0) == nest_end(b@, j as int, depth as int),
            decreases b.len() - j,
        {
            let c = b[j];
            if c == 0x22 {
                j = skip_string(b, j);
            } else {
                if c == 0x7b || c == 0x5b {
                    depth += 1;
                } else if c == 0x7d || c == 0x5d {
                    if depth == 1 {
                        return j + 1;
                    }
                    depth -= 1;
                }
                j += 1;
            }
        }
        return j;
    }
    let mut j = i;
    while j < b.len() && !(b[j] == 0x2c || b[j] == 0x7d || b[j] == 0x5d)
        invariant
            i <= j <= b@.len(),
            scalar_end(b@, i as int) == scalar_end(b@, j as int),
        decreases b.len() - j,
    {
        j += 1;
    }
    j
}


pub proof fn lemma_value_end(b: Seq<u8>, i: int)
    requires
        0 <= i <= b.len(),
    ensures
        i <= value_end(b, i) <= b.len(),
{
    if 0 <= i < b.len() && b[i] == 0x22 {
        lemma_str_end(b, i + 1, false);
    } else if 0 <= i < b.len() && (b[i] == 0x7b || b[i] == 0x5b) {
        lemma_nest_end(b, i, 0);
    } else {
        lemma_scalar_end(b, i);
    }
}

pub proof fn lemma_nest_end(b: Seq<u8>, j: int, depth: int)
    requires
        0 <= j <= b.len(),
    ensures
        j <= nest_end(b, j, depth) <= b.len(),
    decreases b.len() - j,
{
    if j < b.len() {
        if b[j] == 0x22 {
            lemma_str_end(b, j + 1, false);
            let k = str_end(b, j + 1, false);
            if j < k <= b.len() {
                lemma_nest_end(b, k, depth);
            }
        } else if b[j] == 0x7b || b[j] == 0x5b {
            lemma_nest_end(b, j + 1, depth + 1);
        } else if b[j] == 0x7d || b[j] == 0x5d {
            if depth - 1 != 0 {
                lemma_nest_end(b, j + 1, depth - 1);
            }
        } else {
            lemma_nest_end(b, j + 1, depth);
        }
    }
}

pub proof fn lemma_scalar_end(b: Seq<u8>, j: int)
    requires
        0 <= j <= b.len(),
    ensures
        j <= scalar_end(b, j) <= b.len(),
    decreases b.len() - j,
{
    if j < b.len() && !(b[j] == 0x2c || b[j] == 0x7d || b[j] == 0x5d) {
        lemma_scalar_end(b, j + 1);
    }
}

/// Scanning the members of an object from `i`: the position of the `[`
/// that opens the value of a `containers` or `players` member. None at the
/// object's end, or where the text is no member list.
pub open spec fn member_scan(b: Seq<u8>, i: int) -> Option<int>
    decreases b.len() - i,
{
    if i < 0 || i >= b.len() || b[i] == 0x7d || b[i] != 0x22 {
        None
    } else {
        proof {
            lemma_str_end(b, i + 1, false);
        }
        let key_end = str_end(b, i + 1, false) - 1;
        if key_end < i + 1 {
            None
        } else {
            let key = b.subrange(i + 1, key_end);
            let j = ws_end(b, key_end + 1);
            if j >= b.len() || b[j] != 0x3a {
                None
            } else {
                let k = ws_end(b, j + 1);
                if (key == containers_name() || key == players_name()) && 0 <= k < b.len() && b[k]
                    == 0x5b {
                    Some(k)
                } else {
                    let w = ws_end(b, value_end(b, k));
                    let n = if 0 <= w < b.len() && b[w] == 0x2c {
                        ws_end(b, w + 1)
                    } else {
                        w
                    };
                    if i < n <= b.len() {
                        member_scan(b, n)
                    } else {
                        None
                    }
                }
            }
        }
    }
}

pub proof fn lemma_member_scan(b: Seq<u8>, i: int)
    ensures
        member_scan(b, i) matches Some(k) ==> 0 <= k < b.len(),
    decreases b.len() - i,
{
    if !(i < 0 || i >= b.len() || b[i] == 0x7d || b[i] != 0x22) {
        lemma_str_end(b, i + 1, false);
        let key_end = str_end(b, i + 1, false) - 1;
        if key_end >= i + 1 {
            let j = ws_end(b, key_end + 1);
            if !(j >= b.len() || b[j] != 0x3a) {
                let k = ws_end(b, j + 1);
                let w = ws_end(b, value_end(b, k));
                let n = if 0 <= w < b.len() && b[w] == 0x2c {
                    ws_end(b, w + 1)
                } else {
                    w
                };
                if i < n <= b.len() {
                    lemma_member_scan(b, n);
                }
            }
        }
    }
}

fn bytes_are(b: &[u8], s: usize, e: usize, name: &[u8]) -> (r: bool)
    requires
        s <= e <= b@.len(),
    ensures
        r == (b@.subrange(s as int, e as int) == name@),
{
    if e - s != name.len() {
        return false;
    }
    let mut k: usize = 0;
    while k < name.len()
        invariant
            e - s == name@.len(),
            s <= e <= b@.len(),
            k <= name@.len(),
            forall|t: int| 0 <= t < k ==> b@[s + t] == name@[t],
        decreases name.len() - k,
    {
        if b[s + k] != name[k] {
            assert(b@.subrange(s as int, e as int)[k as int] != name@[k as int]);
            return false;
        }
        k += 1;
    }
    assert(b@.subrange(s as int, e as int) =~= name@);
    true
}

fn find_member_array(b: &[u8], obj_open: usize) -> (r: Option<usize>)
    requires
        obj_open < b.len(),
    ensures
        match r {
            Some(k) => member_scan(b@, ws_end(b@, obj_open + 1)) == Some(k as int),
            None => member_scan(b@, ws_end(b@, obj_open + 1)) is None,
        },
{
    let containers: [u8; 10] = [0x63, 0x6f, 0x6e, 0x74, 0x61, 0x69, 0x6e, 0x65, 0x72, 0x73];
    let players: [u8; 7] = [0x70, 0x6c, 0x61, 0x79, 0x65, 0x72, 0x73];
    assert(containers@ =~= containers_name());
    assert(players@ =~= players_name());
    let mut i = skip_ws(b, obj_open + 1);
    loop
        invariant
            i <= b@.len(),
            containers@ == containers_name(),
            players@ == players_name(),
            member_scan(b@, ws_end(b@, obj_open + 1)) == member_scan(b@, i as int),
        decreases b@.len() - i,
    {
        if i >= b.len() || b[i] == 0x7d || b[i] != 0x22 {
            return None;
        }
        let se = skip_string(b, i);
        if se - 1 < i + 1 {
            return None;
        }
        let key_end = se - 1;
        let is_list_key = bytes_are(b, i + 1, key_end, &containers) || bytes_are(
            b,
            i + 1,
            key_end,
            &players,
        );
        let j = skip_ws(b, key_end + 1);
        if j >= b.len() || b[j] != 0x3a {
            return None;
        }
        let k = skip_ws(b, j + 1);
        if is_list_key && k < b.len() && b[k] == 0x5b {
            return Some(k);
        }
        let v = skip_value(b, k);
        proof {
            lemma_value_end(b@, k as int);
        }
        let w = skip_ws(b, v);
        let n = if w < b.len() && b[w] == 0x2c {
            skip_ws(b, w + 1)
        } else {
            w
        };
        if n <= i {
            return None;
        }
        i = n;
    }
}

/// Scanning the elements of an array from `i` at nesting `depth`, the
/// element that started at `start` (if any): the spans found so far `acc`
/// extended by the rest, each from its first byte to its last non-blank one.
pub open spec fn split_from(
    b: Seq<u8>,
    i: int,
    depth: int,
    start: Option<int>,
    acc: Seq<(u32, u32)>,
) -> Seq<(u32, u32)>
    decreases b.len() - i,
{
    if i < 0 || i >= b.len() {
        acc
    } else {
        let c = b[i];
        let st = match start {
            Some(s) => Some(s),
            None => Some(i),
        };
        if c == 0x22 {
            let j = str_end(b, i + 1, false);
            if i < j <= b.len() {
                split_from(b, j, depth, st, acc)
            } else {
                acc
            }
        } else if c == 0x7b || c == 0x5b {
            split_from(b, i + 1, depth + 1, st, acc)
        } else if c == 0x7d || c == 0x5d {
            if depth == 0 {
                match start {
                    Some(s) => acc.push(
                        (
                            #[verifier::truncate] (s as u32),
                            #[verifier::truncate] (trim_end_at(b, i) as u32),
                        ),
                    ),
                    None => acc,
                }
            } else {
                split_from(b, i + 1, depth - 1, start, acc)
            }
        } else if c == 0x2c && depth == 0 {
            let acc2 = match start {
                Some(s) => acc.push(
                    (
                        #[verifier::truncate] (s as u32),
                        #[verifier::truncate] (trim_end_at(b, i) as u32),
                    ),
                ),
                None => acc,
            };
            split_from(b, i + 1, depth, None, acc2)
        } else if !crate::text::is_ascii_white(c) {
            split_from(b, i + 1, depth, st, acc)
        } else {
            split_from(b, i + 1, depth, start, acc)
        }
    }
}

fn split_array(b: &[u8], open_idx: usize) -> (r: Vec<(u32, u32)>)
    requires
        open_idx < b.len(),
    ensures
        r@ == split_from(b@, open_idx + 1, 0, None, seq![]),
{
    let mut spans: Vec<(u32, u32)> = Vec::new();
    let mut i = open_idx + 1;
    let mut depth: usize = 0;
    let mut start: Option<usize> = None;
    while i < b.len()
        invariant
            i <= b@.len(),
            depth <= i,
            start matches Some(s) ==> s < i,
            split_from(b@, open_idx + 1, 0, None, seq![]) == split_from(
                b@,
                i as int,
                depth as int,
                match start {
                    Some(s) => Some(s as int),
                    None => None,
                },
                spans@,
            ),
        decreases b.len() - i,
    {
        let c = b[i];
        if c == 0x22 {
            if start.is_none() {
                start = Some(i);
            }
            i = skip_string(b, i);
        } else if c == 0x7b || c == 0x5b {
            if start.is_none() {
                start = Some(i);
            }
            depth += 1;
            i += 1;
        } else if c == 0x7d || c == 0x5d {
            if depth == 0 {
                if let Some(s) = start {
                    let e = trim_end(b, i);
                    spans.push((#[verifier::truncate] (s as u32), #[verifier::truncate] (e as u32)));
                }
                return spans;
            }
            depth -= 1;
            i += 1;
        } else if c == 0x2c && depth == 0 {
            if let Some(s) = start {
                let e = trim_end(b, i);
                spans.push((#[verifier::truncate] (s as u32), #[verifier::truncate] (e as u32)));
            }
            start = None;
            i += 1;
        } else if !is_ascii_whitespace(c) {
            if start.is_none() {
                start = Some(i);
            }
            i += 1;
        } else {
            i += 1;
        }
    }
    spans
}


/// The element spans of a JSON dump: the elements of a top-level array, of
/// the `containers` or `players` array of a top-level object, or the whole
/// object as one element.
pub open spec fn json_spans(b: Seq<u8>) -> Result<Seq<(u32, u32)>, Seq<char>> {
    let start = ws_end(b, 0);
    if start >= b.len() {
        Err("empty json"@)
    } else if b[start] == 0x5b {
        Ok(split_from(b, start + 1, 0, None, seq![]))
    } else if b[start] == 0x7b {
        match member_scan(b, ws_end(b, start + 1)) {
            Some(a) => Ok(split_from(b, a + 1, 0, None, seq![])),
            None => Ok(
                seq![
                    (
                        #[verifier::truncate] (start as u32),
                        #[verifier::truncate] (trim_end_at(b, b.len() as int) as u32),
                    ),
                ],
            ),
        }
    } else {
        Err("unexpected json shape"@)
    }
}

/// The kind of a dump as its first element shows it (containers where it
/// cannot be read).
pub open spec fn detect_first(b: Seq<u8>, spans: Seq<(u32, u32)>) -> JsonKind {
    if spans.len() > 0 {
        match element_of(b, spans[0]) {
            Some(r) => detect(r),
            None => JsonKind::Containers,
        }
    } else {
        JsonKind::Containers
    }
}

pub open spec fn index_spec(b: Seq<u8>, forced: Option<JsonKind>) -> Result<
    (JsonKind, Seq<(u32, u32)>),
    Seq<char>,
> {
    match json_spans(b) {
        Err(m) => Err(m),
        Ok(sp) => Ok(
            (
                match forced {
                    Some(k) => k,
                    None => detect_first(b, sp),
                },
                sp,
            ),
        ),
    }
}

fn index_json(b: &[u8], forced: Option<JsonKind>) -> (r: Result<(JsonKind, Vec<(u32, u32)>), String>)
    ensures
        match (r, index_spec(b@, forced)) {
            (Ok((k, v)), Ok((k2, sp))) => k == k2 && v@ == sp,
            (Err(m), Err(m2)) => m@ == m2,
            _ => false,
        },
{
    let start = skip_ws(b, 0);
    if start >= b.len() {
        return Err(copy_str("empty json"));
    }
    let spans = if b[start] == 0x5b {
        split_array(b, start)
    } else if b[start] == 0x7b {
        match find_member_array(b, start) {
            Some(a) => {
                proof {
                    lemma_ws_end(b@, start + 1);
                    lemma_member_scan(b@, ws_end(b@, start + 1));
                }
                split_array(b, a)
            },
            None => {
                let e = trim_end(b, b.len());
                let mut v: Vec<(u32, u32)> = Vec::new();
                v.push((#[verifier::truncate] (start as u32), #[verifier::truncate] (e as u32)));
                v
            },
        }
    } else {
        return Err(copy_str("unexpected json shape"));
    };
    let kind = match forced {
        Some(k) => k,
        None => {
            if spans.len() > 0 {
                match read_element(b, spans[0]) {
                    Some(el) => detect_kind(&el),
                    None => JsonKind::Containers,
                }
            } else {
                JsonKind::Containers
            }
        },
    };
    Ok((kind, spans))
}

impl Store {
    /// Summary `i` summarizes what its entry's element in the file builds.
    pub open spec fn summary_sourced(&self, i: int) -> bool {
        exists|e: EntryView|
            #![trigger self.built_at(i, e)]
            self.built_at(i, e) && summarizes(self.summaries()[i], e, self.names())
    }

    /// For a store over a JSON dump: the dump's bytes, the span of entry
    /// `i`'s element, the kind of the dump, and which of the element's
    /// entries it is.
    pub closed spec fn json_origin(&self, i: int) -> Option<(Seq<u8>, (u32, u32), JsonKind, int)> {
        match self.backend {
            Backend::Json { bytes, spans, locs, json_kind } => Some(
                (bytes@, spans@[locs@[i].0 as int], json_kind, locs@[i].1 as int),
            ),
            _ => None,
        }
    }

    /// The store holds one summary for each entry that each element of the
    /// JSON dump builds, element by element and in order, with room to
    /// spare.
    pub open spec fn json_dump_opened(&self, b: Seq<u8>, spans: Seq<(u32, u32)>, kind: JsonKind) -> bool {
        exists|ess: Seq<Seq<Entry>>|
            #![trigger json_spans_build(b, spans, kind, ess)]
            json_spans_build(b, spans, kind, ess) && ess.len() == spans.len() && !dump_overflows(
                ess,
                spans.len() as int,
            ) && self.summaries().len() == flat(ess).len() && flat_locs(ess).len() == flat(
                ess,
            ).len() && forall|i: int|
                0 <= i < flat(ess).len() ==> 0 <= (#[trigger] flat_locs(ess)[i]).0 < spans.len()
                    && self.json_origin(i) == Some(
                    (b, spans[flat_locs(ess)[i].0], kind, flat_locs(ess)[i].1),
                ) && summarizes(self.summaries()[i], flat(ess)[i]@, self.names())
    }

    /// Every summary summarizes what its entry's element in the file builds.
    pub open spec fn summaries_faithful(&self) -> bool {
        forall|i: int| 0 <= i < self.summaries().len() ==> #[trigger] self.summary_sourced(i)
    }

    /// Opens a JSON dump from its bytes: its elements are located without
    /// reading them whole, each is read to summarize its entries, and read
    /// again when an entry is asked for.
    pub fn open_json_bytes(bytes: Vec<u8>, forced: Option<JsonKind>) -> (r: Result<Store, String>)
        ensures
            match index_spec(bytes@, forced) {
                Err(m) => r matches Err(x) && x@ == m,
                Ok((kind, spans)) => match r {
                    Err(m) => json_dump_failed(bytes@, spans, kind, m@),
                    Ok(s) => {
                        &&& s.wf()
                        &&& s.held() is None
                        &&& s.renames().len() == 0
                        &&& s.summaries_faithful()
                        &&& s.json_dump_opened(bytes@, spans, kind)
                    },
                },
            },
    {
        let (kind, spans) = match index_json(bytes.as_slice(), forced) {
            Ok(v) => v,
            Err(m) => {
                return Err(m);
            },
        };
        if spans.len() > 4294967295 {
            let m = copy_str("too many entries");
            proof {
                assert(json_spans_build(bytes@, spans@, kind, Seq::<Seq<Entry>>::empty()));
                assert(overflow_message(Seq::<Seq<Entry>>::empty(), spans@.len() as int, m@));
                assert(json_dump_failed(bytes@, spans@, kind, m@));
            }
            return Err(m);
        }
        let mut interner = Interner::new();
        let mut metas: Vec<EntryMeta> = Vec::new();
        let mut locs: Vec<(u32, u8)> = Vec::new();
        let mut spi: usize = 0;
        let ghost mut acc: Seq<Seq<Entry>> = seq![];
        let ghost mut done: Seq<Entry> = seq![];
        let ghost mut dl: Seq<(int, int)> = seq![];
        proof {
            assert(interner.strings() =~= table_after(entries_view(done), 0));
        }
        while spi < spans.len()
            invariant
                acc.len() == spi,
                json_spans_build(bytes@, spans@, kind, acc),
                forall|j: int| 0 <= j < acc.len() ==> (#[trigger] acc[j]).len() <= 255,
                done == flat(acc),
                dl == flat_locs(acc),
                metas@.len() == done.len(),
                dl.len() == done.len(),
                forall|i: int|
                    0 <= i < locs@.len() ==> (#[trigger] locs@[i]).0 as int == dl[i].0
                        && locs@[i].1 as int == dl[i].1,
                forall|i: int|
                    0 <= i < metas@.len() ==> summarizes(
                        #[trigger] metas@[i],
                        done[i]@,
                        interner.strings(),
                    ),
                interner.strings() == table_after(entries_view(done), done.len() as int),
                all_room(entries_view(done), done.len() as int),
                index_spec(bytes@, forced) == Ok::<(JsonKind, Seq<(u32, u32)>), Seq<char>>((kind, spans@)),
                spans@.len() <= u32::MAX,
                spi <= spans@.len(),
                interner.wf(),
                metas@.len() == locs@.len(),
                metas@.len() <= u32::MAX,
                forall|i: int|
                    0 <= i < metas@.len() ==> names_within(
                        #[trigger] metas@[i],
                        interner.strings().len() as int,
                    ),
                forall|i: int|
                    0 <= i < locs@.len() ==> (#[trigger] locs@[i]).0 < spi && span_ok(
                        spans@[locs@[i].0 as int],
                        bytes@.len() as int,
                    ) && exists|e: EntryView|
                        #![trigger json_element_entry(bytes@, spans@[locs@[i].0 as int], kind, locs@[i].1 as int, e)]
                        json_element_entry(
                            bytes@,
                            spans@[locs@[i].0 as int],
                            kind,
                            locs@[i].1 as int,
                            e,
                        ) && summarizes(metas@[i], e, interner.strings()),
            decreases spans.len() - spi,
        {
            let el = match read_element(bytes.as_slice(), spans[spi]) {
                Some(el) => el,
                None => {
                    proof {
                        let e0 = Seq::<Entry>::empty();
                        assert(json_element_builds(bytes@, spans@[spi as int], kind, e0));
                        lemma_flat_push(acc, e0);
                        assert(json_spans_build(bytes@, spans@, kind, acc.push(e0)));
                        assert(flat(acc) + e0 =~= flat(acc));
                        assert(flat_locs(acc) + Seq::new(0, |k: int| (spi as int, k)) =~= flat_locs(
                            acc,
                        ));
                        acc = acc.push(e0);
                        assert forall|j: int| 0 <= j < acc.len() implies (#[trigger] acc[j]).len()
                            <= 255 by {
                            if j < acc.len() - 1 {
                                assert(acc[j] == acc.drop_last()[j]);
                            }
                        }
                    }
                    spi += 1;
                    continue;
                },
            };
            let ghost sp = spans@[spi as int];
            let es = crate::parse::containers::build_one(&el, kind);
            proof {
                assert(json_element_builds(bytes@, sp, kind, es@));
                lemma_flat_push(acc, es@);
                assert(json_spans_build(bytes@, spans@, kind, acc.push(es@)));
            }
            if es.len() > 255 {
                let m = copy_str("too many entries");
                proof {
                    let ess = acc.push(es@);
                    assert(ess[spi as int] == es@);
                    assert(ess[spi as int].len() > 255);
                    assert(overflow_message(ess, spans@.len() as int, m@));
                    assert(json_dump_failed(bytes@, spans@, kind, m@));
                }
                return Err(m);
            }
            let mut sub: usize = 0;
            proof {
                assert(done =~= flat(acc) + es@.take(0));
                assert(dl =~= flat_locs(acc) + Seq::new(0, |k: int| (spi as int, k)));
            }
            while sub < es.len()
                invariant
                    acc.len() == spi,
                    json_spans_build(bytes@, spans@, kind, acc.push(es@)),
                    flat(acc.push(es@)) == flat(acc) + es@,
                    forall|j: int| 0 <= j < acc.len() ==> (#[trigger] acc[j]).len() <= 255,
                    done == flat(acc) + es@.take(sub as int),
                    dl == flat_locs(acc) + Seq::new(sub as nat, |k: int| (spi as int, k)),
                    flat_locs(acc).len() == flat(acc).len(),
                    metas@.len() == done.len(),
                    dl.len() == done.len(),
                    forall|i: int|
                        0 <= i < locs@.len() ==> (#[trigger] locs@[i]).0 as int == dl[i].0
                            && locs@[i].1 as int == dl[i].1,
                    forall|i: int|
                        0 <= i < metas@.len() ==> summarizes(
                            #[trigger] metas@[i],
                            done[i]@,
                            interner.strings(),
                        ),
                    interner.strings() == table_after(entries_view(done), done.len() as int),
                    all_room(entries_view(done), done.len() as int),
                    index_spec(bytes@, forced) == Ok::<(JsonKind, Seq<(u32, u32)>), Seq<char>>((kind, spans@)),
                    spans@.len() <= u32::MAX,
                    spi < spans@.len(),
                    sp == spans@[spi as int],
                    element_of(bytes@, sp) == Some(el@),
                    json_built(es@, el@, kind),
                    es@.len() <= 255,
                    sub <= es@.len(),
                    interner.wf(),
                    metas@.len() == locs@.len(),
                    metas@.len() <= u32::MAX,
                    forall|i: int|
                        0 <= i < metas@.len() ==> names_within(
                            #[trigger] metas@[i],
                            interner.strings().len() as int,
                        ),
                    forall|i: int|
                        0 <= i < locs@.len() ==> (#[trigger] locs@[i]).0 <= spi && span_ok(
                            spans@[locs@[i].0 as int],
                            bytes@.len() as int,
                        ) && exists|e: EntryView|
                            #![trigger json_element_entry(bytes@, spans@[locs@[i].0 as int], kind, locs@[i].1 as int, e)]
                            json_element_entry(
                                bytes@,
                                spans@[locs@[i].0 as int],
                                kind,
                                locs@[i].1 as int,
                                e,
                            ) && summarizes(metas@[i], e, interner.strings()),
                decreases es.len() - sub,
            {
                if metas.len() >= 4294967295 {
                    let m = copy_str("too many entries");
                    proof {
                        let ess = acc.push(es@);
                        assert(flat(ess).len() > u32::MAX);
                        assert(overflow_message(ess, spans@.len() as int, m@));
                        assert(json_dump_failed(bytes@, spans@, kind, m@));
                    }
                    return Err(m);
                }
                let ghost before = interner.strings();
                let m = match EntryMeta::from_entry(&es[sub], &mut interner) {
                    Some(m) => m,
                    None => {
                        proof {
                            let all = flat(acc) + es@;
                            assert forall|i: int| 0 <= i < done.len() implies all[i] == done[i] by {
                                if i >= flat(acc).len() {
                                    assert(done[i] == es@[i - flat(acc).len()]);
                                }
                            }
                            assert(all[done.len() as int] == es@[sub as int]);
                            lemma_no_room_witness(done, all);
                        }
                        let m = copy_str("too many distinct strings");
                        proof {
                            let ess = acc.push(es@);
                            assert(overflow_message(ess, spans@.len() as int, m@));
                            assert(json_dump_failed(bytes@, spans@, kind, m@));
                        }
                        return Err(m);
                    },
                };
                let ghost old_done = done;
                let ghost old_dl = dl;
                proof {
                    lemma_room_push(done, es@[sub as int]);
                    done = done.push(es@[sub as int]);
                    dl = dl.push((spi as int, sub as int));
                    assert(done =~= flat(acc) + es@.take(sub + 1));
                    assert(dl =~= flat_locs(acc) + Seq::new((sub + 1) as nat, |k: int| (spi as int, k)));
                }
                let ghost ol = locs@;
                let ghost om = metas@;
                let ghost witness = es@[sub as int]@;
                proof {
                    assert forall|i: int| 0 <= i < ol.len() implies (#[trigger] ol[i]).0 <= spi
                        && span_ok(spans@[ol[i].0 as int], bytes@.len() as int) && exists|
                        e: EntryView,
                    |
                        #![trigger json_element_entry(bytes@, spans@[ol[i].0 as int], kind, ol[i].1 as int, e)]
                        json_element_entry(bytes@, spans@[ol[i].0 as int], kind, ol[i].1 as int, e)
                            && summarizes(om[i], e, interner.strings()) by {
                        let e = choose|e: EntryView|
                            #![trigger json_element_entry(bytes@, spans@[ol[i].0 as int], kind, ol[i].1 as int, e)]
                            json_element_entry(bytes@, spans@[ol[i].0 as int], kind, ol[i].1 as int, e)
                                && summarizes(om[i], e, before);
                        lemma_summary_grows(om[i], e, before, interner.strings());
                    }
                    assert(json_built(es@, el@, kind) && 0 <= sub < es@.len() && es@[sub as int]@
                        == witness);
                    assert(json_element_entry(bytes@, sp, kind, sub as int, witness));
                }
                metas.push(m);
                locs.push((spi as u32, sub as u8));
                proof {
                    let last = ol.len() as int;
                    assert forall|i: int| 0 <= i < locs@.len() implies (#[trigger] locs@[i]).0
                        <= spi && span_ok(spans@[locs@[i].0 as int], bytes@.len() as int)
                        && exists|e: EntryView|
                        #![trigger json_element_entry(bytes@, spans@[locs@[i].0 as int], kind, locs@[i].1 as int, e)]
                        json_element_entry(
                            bytes@,
                            spans@[locs@[i].0 as int],
                            kind,
                            locs@[i].1 as int,
                            e,
                        ) && summarizes(metas@[i], e, interner.strings()) by {
                        if i < last {
                            assert(locs@[i] == ol[i]);
                            assert(metas@[i] == om[i]);
                        } else {
                            assert(locs@[i].0 as int == spi);
                            assert(locs@[i].1 as int == sub);
                            assert(json_element_entry(
                                bytes@,
                                spans@[locs@[i].0 as int],
                                kind,
                                locs@[i].1 as int,
                                witness,
                            ) && summarizes(metas@[i], witness, interner.strings()));
                        }
                    }
                    assert forall|i: int| 0 <= i < metas@.len() implies summarizes(
                        #[trigger] metas@[i],
                        done[i]@,
                        interner.strings(),
                    ) by {
                        if i < last {
                            assert(metas@[i] == om[i]);
                            assert(done[i] == old_done[i]);
                            lemma_summary_grows(om[i], old_done[i]@, before, interner.strings());
                        } else {
                            assert(done[i] == es@[sub as int]);
                        }
                    }
                    assert forall|i: int| 0 <= i < locs@.len() implies (#[trigger] locs@[i]).0 as int
                        == dl[i].0 && locs@[i].1 as int == dl[i].1 by {
                        if i < last {
                            assert(locs@[i] == ol[i]);
                            assert(dl[i] == old_dl[i]);
                        }
                    }
                }
                sub += 1;
            }
            proof {
                assert(es@.take(es@.len() as int) =~= es@);
                acc = acc.push(es@);
                assert(done == flat(acc));
                assert(dl == flat_locs(acc));
                assert forall|j: int| 0 <= j < acc.len() implies (#[trigger] acc[j]).len() <= 255 by {
                    if j < acc.len() - 1 {
                        assert(acc[j] == acc.drop_last()[j]);
                    }
                }
            }
            spi += 1;
        }
        let ghost bv = bytes@;
        let ghost sv = spans@;
        let ghost lv = locs@;
        let ghost mv = metas@;
        let s = Store {
            metas,
            interner,
            backend: Backend::Json { bytes, spans, locs, json_kind: kind },
            overrides: Vec::new(),
        };
        assert(s.renames() =~= Seq::<(Seq<char>, Seq<char>)>::empty());
        assert(s.wf());
        assert forall|i: int| 0 <= i < s.summaries().len() implies #[trigger] s.summary_sourced(i) by {
            let e = choose|e: EntryView|
                #![trigger json_element_entry(bv, sv[lv[i].0 as int], kind, lv[i].1 as int, e)]
                json_element_entry(bv, sv[lv[i].0 as int], kind, lv[i].1 as int, e) && summarizes(
                    mv[i],
                    e,
                    s.names(),
                );
            assert(s.built_at(i, e) && summarizes(s.summaries()[i], e, s.names()));
        }
        assert(s.summaries_faithful());
        proof {
            lemma_flat(acc);
            assert(!dump_overflows(acc, sv.len() as int));
            assert forall|i: int| 0 <= i < flat(acc).len() implies 0 <= (
            #[trigger] flat_locs(acc)[i]).0 < sv.len() && s.json_origin(i) == Some(
                (bv, sv[flat_locs(acc)[i].0], kind, flat_locs(acc)[i].1),
            ) && summarizes(s.summaries()[i], flat(acc)[i]@, s.names()) by {
                assert(s.json_origin(i) == Some((bv, sv[lv[i].0 as int], kind, lv[i].1 as int)));
                assert(mv[i] == s.summaries()[i]);
            }
            assert(json_spans_build(bv, sv, kind, acc));
            assert(s.json_dump_opened(bv, sv, kind));
        }
        Ok(s)
    }
}

} // verus!
