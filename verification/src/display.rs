//! Small helpers of the user interface: enchantment levels in roman
//! numerals, the load mode menu, file names, picture names, and the items
//! that a slot opens to.
use vstd::prelude::*;
use crate::model::{items_view, Entry, Item, ItemView};
use crate::text::{chars_of, copy_str, int_text, int_to_string, str_eq, string_from};

verus! {

/// The roman numerals of one to ten.
pub open spec fn roman_text(n: i32) -> Seq<char> {
    if n == 1 {
        "I"@
    } else if n == 2 {
        "II"@
    } else if n == 3 {
        "III"@
    } else if n == 4 {
        "IV"@
    } else if n == 5 {
        "V"@
    } else if n == 6 {
        "VI"@
    } else if n == 7 {
        "VII"@
    } else if n == 8 {
        "VIII"@
    } else if n == 9 {
        "IX"@
    } else if n == 10 {
        "X"@
    } else {
        int_text(n as int)
    }
}

/// An enchantment level as a roman numeral from one to ten, else in digits.
pub fn roman(n: i32) -> (r: String)
    ensures
        r@ == roman_text(n),
{
    if n < 1 || n > 10 {
        return int_to_string(n as i64);
    }
    let s = if n == 1 {
        "I"
    } else if n == 2 {
        "II"
    } else if n == 3 {
        "III"
    } else if n == 4 {
        "IV"
    } else if n == 5 {
        "V"
    } else if n == 6 {
        "VI"
    } else if n == 7 {
        "VII"
    } else if n == 8 {
        "VIII"
    } else if n == 9 {
        "IX"
    } else {
        "X"
    };
    copy_str(s)
}

/// How a file is to be read, as the menu offers it.
#[derive(Clone, Copy, Debug, PartialEq, Eq, Structural)]
pub enum Mode {
    Auto,
    Backpacks,
    Containers,
    Players,
}

impl Mode {
    pub open spec fn label_text(self) -> Seq<char> {
        match self {
            Mode::Auto => "Auto"@,
            Mode::Backpacks => "Backpacks"@,
            Mode::Containers => "Containers"@,
            Mode::Players => "Players"@,
        }
    }

    pub fn label(self) -> (r: &'static str)
        ensures
            r@ == self.label_text(),
    {
        match self {
            Mode::Auto => "Auto",
            Mode::Backpacks => "Backpacks",
            Mode::Containers => "Containers",
            Mode::Players => "Players",
        }
    }

    /// The mode a label names; `Auto` for any other text.
    pub open spec fn named(s: Seq<char>) -> Mode {
        if s == "Backpacks"@ {
            Mode::Backpacks
        } else if s == "Containers"@ {
            Mode::Containers
        } else if s == "Players"@ {
            Mode::Players
        } else {
            Mode::Auto
        }
    }

    /// The mode a label names; `Auto` for any other text.
    pub fn from_label(s: &str) -> (r: Mode)
        ensures
            r == Mode::named(s@),
    {
        if str_eq(s, "Backpacks") {
            Mode::Backpacks
        } else if str_eq(s, "Containers") {
            Mode::Containers
        } else if str_eq(s, "Players") {
            Mode::Players
        } else {
            Mode::Auto
        }
    }
}

/// Every mode is read back from its own label.
pub proof fn law_mode_label_round_trip(m: Mode)
    ensures
        Mode::named(m.label_text()) == m,
{
    reveal_strlit("Auto");
    reveal_strlit("Backpacks");
    reveal_strlit("Containers");
    reveal_strlit("Players");
    // The four labels already differ in their first letter.
    assert("Auto"@[0] == 'A');
    assert("Backpacks"@[0] == 'B');
    assert("Containers"@[0] == 'C');
    assert("Players"@[0] == 'P');
}

/// The last component of a path, `/` and `\` both separating.
pub open spec fn last_component(s: Seq<char>) -> Seq<char>
    decreases s.len(),
{
    if s.len() == 0 {
        s
    } else if s.last() == '/' || s.last() == '\\' {
        seq![]
    } else {
        last_component(s.drop_last()).push(s.last())
    }
}

pub fn filename(path: &str) -> (r: String)
    ensures
        r@ == last_component(path@),
{
    let c = chars_of(path);
    let mut start: usize = c.len();
    assert(c@.take(c@.len() as int) =~= c@);
    assert(c@ + c@.skip(c@.len() as int) =~= c@);
    while start > 0 && c[start - 1] != '/' && c[start - 1] != '\\'
        invariant
            start <= c@.len(),
            c@ == path@,
            last_component(path@) == last_component(c@.take(start as int)) + c@.skip(
                start as int,
            ),
        decreases start,
    {
        let ghost t = c@.take(start as int);
        assert(t.drop_last() =~= c@.take(start - 1));
        assert(c@.skip(start - 1) =~= seq![t.last()] + c@.skip(start as int));
        start -= 1;
    }
    proof {
        assert(c@.take(c@.len() as int) =~= c@);
        assert(c@.skip(c@.len() as int).len() == 0);
        if start > 0 {
            assert(last_component(c@.take(start as int)).len() == 0);
        } else {
            assert(c@.take(0).len() == 0);
        }
    }
    let mut out: Vec<char> = Vec::new();
    let mut i = start;
    while i < c.len()
        invariant
            start <= i <= c@.len(),
            out@ == c@.subrange(start as int, i as int),
        decreases c.len() - i,
    {
        out.push(c[i]);
        i += 1;
        assert(out@ =~= c@.subrange(start as int, i as int));
    }
    assert(c@.skip(start as int) =~= c@.subrange(start as int, c@.len() as int));
    assert(last_component(path@) =~= out@);
    string_from(out.as_slice())
}

/// A character that a picture's file name does not keep.
pub open spec fn unsafe_char(c: char) -> bool {
    c == ':' || c == '/' || c == ' ' || c == ',' || c == '@'
}

/// Each pair of underscores made one, left to right (`replace("__", "_")`).
pub open spec fn collapse(s: Seq<char>) -> Seq<char>
    decreases s.len(),
{
    if s.len() >= 2 && s[0] == '_' && s[1] == '_' {
        seq!['_'] + collapse(s.skip(2))
    } else if s.len() > 0 {
        seq![s[0]] + collapse(s.drop_first())
    } else {
        seq![]
    }
}

/// The file name a picture of an entry is offered under: its title with
/// `:`, `/`, spaces, `,` and `@` made underscores, pairs of underscores
/// halved, and `.png` after it.
pub open spec fn png_name(title: Seq<char>) -> Seq<char> {
    collapse(title.map_values(|c: char| if unsafe_char(c) { '_' } else { c })) + ".png"@
}

pub fn default_png_name(e: &Entry) -> (r: String)
    ensures
        r@ == png_name(e.title@),
{
    let t = chars_of(e.title.as_str());
    let mut u: Vec<char> = Vec::new();
    let mut i: usize = 0;
    while i < t.len()
        invariant
            i <= t@.len(),
            u@ == t@.take(i as int).map_values(|c: char| if unsafe_char(c) { '_' } else { c }),
        decreases t.len() - i,
    {
        let c = t[i];
        let d = if c == ':' || c == '/' || c == ' ' || c == ',' || c == '@' {
            '_'
        } else {
            c
        };
        u.push(d);
        i += 1;
        assert(u@ =~= t@.take(i as int).map_values(
            |c: char|
                if unsafe_char(c) {
                    '_'
                } else {
                    c
                },
        ));
    }
    assert(t@.take(t@.len() as int) =~= t@);
    let ghost m = u@;
    let mut out: Vec<char> = Vec::new();
    let mut j: usize = 0;
    assert(m.skip(0) =~= m);
    assert(out@ + collapse(m.skip(0)) =~= collapse(m));
    while j < u.len()
        invariant
            j <= u@.len(),
            u@ == m,
            collapse(m) == out@ + collapse(m.skip(j as int)),
        decreases u.len() - j,
    {
        let ghost rest = m.skip(j as int);
        if j + 1 < u.len() && u[j] == '_' && u[j + 1] == '_' {
            out.push('_');
            assert(rest.skip(2) =~= m.skip(j + 2));
            j += 2;
        } else {
            out.push(u[j]);
            assert(rest.drop_first() =~= m.skip(j + 1));
            j += 1;
        }
        assert(collapse(m) == out@ + collapse(m.skip(j as int)));
    }
    assert(m.skip(j as int).len() == 0);
    assert(m.skip(0) =~= m);
    let mut r = string_from(out.as_slice());
    crate::text::push_str(&mut r, ".png");
    assert(r@ =~= png_name(e.title@));
    r
}

/// The items held in memory by uuid (backpacks opened from a slot).
pub open spec fn stored_items(bp: Seq<(String, Vec<Item>)>, u: Seq<char>) -> Seq<ItemView>
    decreases bp.len(),
{
    if bp.len() == 0 {
        seq![]
    } else if bp[0].0@ == u {
        items_view(bp[0].1@)
    } else {
        stored_items(bp.drop_first(), u)
    }
}

/// What a slot opens to: the item's own contents, else the backpack its
/// storage uuid names.
pub open spec fn nested_of(item: ItemView, bp: Seq<(String, Vec<Item>)>) -> Seq<ItemView> {
    if item.contents.len() > 0 {
        item.contents
    } else {
        match item.storage_uuid {
            Some(u) => stored_items(bp, u),
            None => seq![],
        }
    }
}

pub fn resolve_nested<'a>(item: &'a Item, bp: &'a Vec<(String, Vec<Item>)>) -> (r: &'a [Item])
    ensures
        items_view(r@) == nested_of(item@, bp@),
{
    proof {
        crate::model::lemma_items_view_len(item.contents@);
    }
    if item.contents.len() > 0 {
        return item.contents.as_slice();
    }
    match &item.storage_uuid {
        Some(u) => {
            let mut i: usize = 0;
            assert(bp@.skip(0) =~= bp@);
            assert(nested_of(item@, bp@) == stored_items(bp@, u@));
            while i < bp.len()
                invariant
                    nested_of(item@, bp@) == stored_items(bp@, u@),
                    i <= bp@.len(),
                    stored_items(bp@, u@) == stored_items(bp@.skip(i as int), u@),
                decreases bp.len() - i,
            {
                assert(bp@.skip(i as int).drop_first() =~= bp@.skip(i + 1));
                assert(bp@.skip(i as int)[0] == bp@[i as int]);
                if str_eq(bp[i].0.as_str(), u.as_str()) {
                    assert(stored_items(bp@.skip(i as int), u@) == items_view(bp@[i as int].1@));
                    return bp[i].1.as_slice();
                }
                i += 1;
            }
            assert(bp@.skip(i as int).len() == 0);
            assert(items_view(Seq::<Item>::empty()) =~= Seq::<ItemView>::empty());
            &[]
        },
        None => {
            assert(items_view(Seq::<Item>::empty()) =~= Seq::<ItemView>::empty());
            &[]
        },
    }
}

/// Whether a slot opens to anything.
pub fn has_openable(item: &Item, bp: &Vec<(String, Vec<Item>)>) -> (r: bool)
    ensures
        r == (nested_of(item@, bp@).len() > 0),
{
    let n = resolve_nested(item, bp);
    proof {
        crate::model::lemma_items_view_len(n@);
    }
    n.len() > 0
}

} // verus!
