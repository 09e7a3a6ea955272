//! Dumps in binary NBT: a root compound holding a `containers` or `players`
//! list of compounds. The list is split into element byte ranges without
//! decoding the rest of the file; each element is decoded on its own.
use vstd::prelude::*;
use crate::model::{
    copies_view, finalized, items_view, prettify, prettify_id, text_pairs_view, CopyAction, Entry,
    EntryKind, Item, ItemView,
};
use crate::nbt_value::{
    as_i64, as_list, as_str, decode_nbt, get, get_spec, height, lemma_entries_view,
    lemma_entry_heights, lemma_list_lower, lemma_nbts_view, entries_view, nbt_read, nbts_view,
    opt_int, opt_list, opt_str, opt_view, tree, distinct_deep, lemma_get_alike, lemma_list_alike,
    lemma_str_alike, Nbt, NbtV,
};
use crate::parse::nbt::{item_from_nbt, nbt_item, push_item, push_some};
use crate::text::{copy_str, int_text, int_to_string, lowercase, push_char, push_str, to_lower};

verus! {

/// Which list a dump holds.
#[derive(Clone, Copy, Debug, PartialEq, Eq, Structural)]
pub enum DumpKind {
    Containers,
    Players,
}

/// Big-endian unsigned 16-bit value at `i`.
pub open spec fn rd_u16(b: Seq<u8>, i: int) -> Option<int> {
    if 0 <= i && i + 1 < b.len() {
        Some(b[i] * 256 + b[i + 1])
    } else {
        None
    }
}

/// Big-endian signed 32-bit value at `i`.
pub open spec fn rd_i32(b: Seq<u8>, i: int) -> Option<int> {
    if 0 <= i && i + 3 < b.len() {
        let u = b[i] * 16777216 + b[i + 1] * 65536 + b[i + 2] * 256 + b[i + 3];
        Some(
            if u >= 2147483648 {
                u - 4294967296
            } else {
                u
            },
        )
    } else {
        None
    }
}

pub(crate) fn read_u16(b: &[u8], i: usize) -> (r: Option<usize>)
    ensures
        match r {
            Some(v) => rd_u16(b@, i as int) == Some(v as int),
            None => rd_u16(b@, i as int) is None,
        },
{
    if i < b.len() && b.len() - i >= 2 {
        Some((b[i] as usize) * 256 + (b[i + 1] as usize))
    } else {
        None
    }
}

pub(crate) fn read_i32(b: &[u8], i: usize) -> (r: Option<i64>)
    ensures
        match r {
            Some(v) => rd_i32(b@, i as int) == Some(v as int),
            None => rd_i32(b@, i as int) is None,
        },
{
    if i < b.len() && b.len() - i >= 4 {
        let u: u64 = (b[i] as u64) * 16777216 + (b[i + 1] as u64) * 65536 + (b[i + 2] as u64)
            * 256 + (b[i + 3] as u64);
        if u >= 2147483648 {
            Some((u as i64) - 4294967296)
        } else {
            Some(u as i64)
        }
    } else {
        None
    }
}

/// Positions at or past the end count as the end.
pub open spec fn left(b: Seq<u8>, i: int) -> int {
    if i < b.len() {
        b.len() - i
    } else {
        0
    }
}

/// `i + k`, if it fits in a `usize`.
pub open spec fn add_fit(i: int, k: int) -> Option<int> {
    if i + k <= usize::MAX {
        Some(i + k)
    } else {
        None
    }
}

/// Bytes per element of the array tag types.
pub open spec fn elem_width(t: u8) -> int {
    if t == 7 {
        1
    } else if t == 11 {
        4
    } else {
        8
    }
}

/// Where the payload of tag type `t` that starts at `i` ends. Lengths are
/// not checked against the buffer for fixed-size values and arrays; a
/// negative length, an unknown tag or an index past `usize` is a failure.
pub open spec fn payload_end(b: Seq<u8>, i: int, t: u8) -> Option<int>
    decreases left(b, i), 1int, 0int,
{
    if t == 1 {
        add_fit(i, 1)
    } else if t == 2 {
        add_fit(i, 2)
    } else if t == 3 || t == 5 {
        add_fit(i, 4)
    } else if t == 4 || t == 6 {
        add_fit(i, 8)
    } else if t == 7 || t == 11 || t == 12 {
        match rd_i32(b, i) {
            Some(n) => if n < 0 {
                None
            } else {
                add_fit(i, 4 + n * elem_width(t))
            },
            None => None,
        }
    } else if t == 8 {
        match rd_u16(b, i) {
            Some(n) => add_fit(i, 2 + n),
            None => None,
        }
    } else if t == 9 {
        if 0 <= i < b.len() {
            match rd_i32(b, i + 1) {
                Some(n) => if n < 0 {
                    None
                } else {
                    list_end(b, i + 5, b[i], n as nat)
                },
                None => None,
            }
        } else {
            None
        }
    } else if t == 10 {
        compound_end(b, i)
    } else {
        None
    }
}

/// Where `n` payloads of type `t` starting at `i` end.
pub open spec fn list_end(b: Seq<u8>, i: int, t: u8, n: nat) -> Option<int>
    decreases left(b, i), 2int, n,
{
    if n == 0 {
        Some(i)
    } else {
        match payload_end(b, i, t) {
            Some(e) => if e >= i {
                list_end(b, e, t, (n - 1) as nat)
            } else {
                None
            },
            None => None,
        }
    }
}

/// Where the compound body (named entries up to an end tag) at `i` ends.
pub open spec fn compound_end(b: Seq<u8>, i: int) -> Option<int>
    decreases left(b, i), 0int, 0int,
{
    if 0 <= i < b.len() {
        let ct = b[i];
        if ct == 0 {
            Some(i + 1)
        } else {
            match rd_u16(b, i + 1) {
                Some(nl) => match payload_end(b, i + 3 + nl, ct) {
                    Some(e) => if i < e {
                        compound_end(b, e)
                    } else {
                        None
                    },
                    None => None,
                },
                None => None,
            }
        }
    } else {
        None
    }
}

pub(crate) fn skip_payload(b: &[u8], i: usize, t: u8) -> (r: Option<usize>)
    ensures
        match r {
            Some(e) => payload_end(b@, i as int, t) == Some(e as int) && e >= i,
            None => payload_end(b@, i as int, t) is None,
        },
    decreases left(b@, i as int), 1int, 0int,
{
    if t == 1 {
        i.checked_add(1)
    } else if t == 2 {
        i.checked_add(2)
    } else if t == 3 || t == 5 {
        i.checked_add(4)
    } else if t == 4 || t == 6 {
        i.checked_add(8)
    } else if t == 7 || t == 11 || t == 12 {
        match read_i32(b, i) {
            Some(n) => {
                if n < 0 {
                    return None;
                }
                let w: u64 = if t == 7 {
                    1
                } else if t == 11 {
                    4
                } else {
                    8
                };
                let k: u64 = (n as u64) * w + 4;
                if k > (usize::MAX - i) as u64 {
                    None
                } else {
                    Some(i + k as usize)
                }
            },
            None => None,
        }
    } else if t == 8 {
        match read_u16(b, i) {
            Some(n) => {
                if n + 2 > usize::MAX - i {
                    None
                } else {
                    Some(i + 2 + n)
                }
            },
            None => None,
        }
    } else if t == 9 {
        if i < b.len() {
            let et = b[i];
            match read_i32(b, i + 1) {
                Some(n) => {
                    if n < 0 {
                        None
                    } else {
                        skip_list(b, i + 5, et, n as u64)
                    }
                },
                None => None,
            }
        } else {
            None
        }
    } else if t == 10 {
        skip_compound(b, i)
    } else {
        None
    }
}

fn skip_list(b: &[u8], i: usize, t: u8, n: u64) -> (r: Option<usize>)
    ensures
        match r {
            Some(e) => list_end(b@, i as int, t, n as nat) == Some(e as int) && e >= i,
            None => list_end(b@, i as int, t, n as nat) is None,
        },
    decreases left(b@, i as int), 2int, n,
{
    if n == 0 {
        return Some(i);
    }
    match skip_payload(b, i, t) {
        Some(e) => {
            match skip_list(b, e, t, n - 1) {
                Some(f) => Some(f),
                None => None,
            }
        },
        None => None,
    }
}

fn skip_compound(b: &[u8], i: usize) -> (r: Option<usize>)
    ensures
        match r {
            Some(e) => compound_end(b@, i as int) == Some(e as int) && e > i,
            None => compound_end(b@, i as int) is None,
        },
    decreases left(b@, i as int), 0int, 0int,
{
    if i >= b.len() {
        return None;
    }
    let ct = b[i];
    if ct == 0 {
        return Some(i + 1);
    }
    match read_u16(b, i + 1) {
        Some(nl) => {
            if nl > usize::MAX - (i + 3) {
                assert(payload_end(b@, i + 3 + nl, ct) is None);
                return None;
            }
            let p = i + 3 + nl;
            match skip_payload(b, p, ct) {
                Some(e) => skip_compound(b, e),
                None => None,
            }
        },
        None => None,
    }
}


/// Why a dump could not be split.
#[derive(Clone, Copy, Debug, PartialEq, Eq, Structural)]
pub enum SplitFail {
    Empty,
    NotCompound,
    BadRootName,
    Truncated,
    TruncatedName,
    TruncatedList,
    TruncatedListLen,
    TruncatedElement,
    TruncatedSkip,
    NoList,
}

/// The message `split_dump` gives for each failure.
pub open spec fn fail_message(f: SplitFail) -> Seq<char> {
    match f {
        SplitFail::Empty => "empty nbt"@,
        SplitFail::NotCompound => "nbt root is not a compound"@,
        SplitFail::BadRootName => "bad nbt root name"@,
        SplitFail::Truncated => "truncated nbt"@,
        SplitFail::TruncatedName => "truncated nbt name"@,
        SplitFail::TruncatedList => "truncated list"@,
        SplitFail::TruncatedListLen => "truncated list len"@,
        SplitFail::TruncatedElement => "truncated list element"@,
        SplitFail::TruncatedSkip => "truncated nbt skip"@,
        SplitFail::NoList => "nbt has no 'containers' or 'players' list"@,
    }
}

fn fail_text(f: SplitFail) -> (r: String)
    ensures
        r@ == fail_message(f),
{
    match f {
        SplitFail::Empty => copy_str("empty nbt"),
        SplitFail::NotCompound => copy_str("nbt root is not a compound"),
        SplitFail::BadRootName => copy_str("bad nbt root name"),
        SplitFail::Truncated => copy_str("truncated nbt"),
        SplitFail::TruncatedName => copy_str("truncated nbt name"),
        SplitFail::TruncatedList => copy_str("truncated list"),
        SplitFail::TruncatedListLen => copy_str("truncated list len"),
        SplitFail::TruncatedElement => copy_str("truncated list element"),
        SplitFail::TruncatedSkip => copy_str("truncated nbt skip"),
        SplitFail::NoList => copy_str("nbt has no 'containers' or 'players' list"),
    }
}

/// The bytes of the names `containers` and `players`.
pub open spec fn containers_name() -> Seq<u8> {
    seq![0x63u8, 0x6f, 0x6e, 0x74, 0x61, 0x69, 0x6e, 0x65, 0x72, 0x73]
}

pub open spec fn players_name() -> Seq<u8> {
    seq![0x70u8, 0x6c, 0x61, 0x79, 0x65, 0x72, 0x73]
}

/// The byte ranges of `n` compound payloads starting at `i`.
pub open spec fn element_spans(b: Seq<u8>, i: int, n: nat) -> Option<Seq<(u32, u32)>>
    decreases n,
{
    if n == 0 {
        Some(seq![])
    } else {
        match payload_end(b, i, 10) {
            Some(e) => match element_spans(b, e, (n - 1) as nat) {
                Some(rest) => Some(seq![(i as u32, e as u32)] + rest),
                None => None,
            },
            None => None,
        }
    }
}

/// The spans of the elements of the list whose payload starts at `p`.
pub open spec fn list_spans(b: Seq<u8>, p: int, kind: DumpKind) -> Result<
    (DumpKind, Seq<(u32, u32)>),
    SplitFail,
> {
    if !(0 <= p < b.len()) {
        Err(SplitFail::TruncatedList)
    } else {
        match rd_i32(b, p + 1) {
            None => Err(SplitFail::TruncatedListLen),
            Some(n) => if b[p] != 10 {
                Ok((kind, seq![]))
            } else if n < 0 {
                Err(SplitFail::TruncatedElement)
            } else {
                match element_spans(b, p + 5, n as nat) {
                    Some(s) => Ok((kind, s)),
                    None => Err(SplitFail::TruncatedElement),
                }
            },
        }
    }
}

/// Scans the root compound's entries from `i` for the wanted list.
pub open spec fn scan_entries(b: Seq<u8>, i: int) -> Result<(DumpKind, Seq<(u32, u32)>), SplitFail>
    decreases left(b, i),
{
    if !(0 <= i < b.len()) {
        Err(SplitFail::Truncated)
    } else {
        let ct = b[i];
        if ct == 0 {
            Err(SplitFail::NoList)
        } else {
            match rd_u16(b, i + 1) {
                None => Err(SplitFail::TruncatedName),
                Some(nl) => {
                    let s = i + 3;
                    if s + nl > b.len() {
                        Err(SplitFail::Truncated)
                    } else {
                        let name = b.subrange(s, s + nl);
                        let p = s + nl;
                        if ct == 9 && name == containers_name() {
                            list_spans(b, p, DumpKind::Containers)
                        } else if ct == 9 && name == players_name() {
                            list_spans(b, p, DumpKind::Players)
                        } else {
                            match payload_end(b, p, ct) {
                                None => Err(SplitFail::TruncatedSkip),
                                Some(e) => if i < e < b.len() {
                                    scan_entries(b, e)
                                } else {
                                    Err(SplitFail::Truncated)
                                },
                            }
                        }
                    }
                },
            }
        }
    }
}

/// What `split_dump` finds in a dump.
pub open spec fn split_spec(b: Seq<u8>) -> Result<(DumpKind, Seq<(u32, u32)>), SplitFail> {
    if b.len() == 0 {
        Err(SplitFail::Empty)
    } else if b[0] != 10 {
        Err(SplitFail::NotCompound)
    } else {
        match rd_u16(b, 1) {
            None => Err(SplitFail::BadRootName),
            Some(rn) => scan_entries(b, 3 + rn),
        }
    }
}

fn bytes_equal(b: &[u8], s: usize, name: &[u8]) -> (r: bool)
    requires
        s + name@.len() <= b@.len(),
    ensures
        r == (b@.subrange(s as int, s + name@.len()) == name@),
{
    let mut k: usize = 0;
    let bl = b.len();
    while k < name.len()
        invariant
            k <= name@.len(),
            bl == b@.len(),
            s + name@.len() <= b@.len(),
            forall|m: int| 0 <= m < k ==> b@[s + m] == name@[m],
        decreases name.len() - k,
    {
        if b[s + k] != name[k] {
            assert(b@.subrange(s as int, s + name@.len())[k as int] != name@[k as int]);
            return false;
        }
        k += 1;
    }
    assert(b@.subrange(s as int, s + name@.len()) =~= name@);
    true
}

fn spans_from(b: &[u8], p: usize, kind: DumpKind) -> (r: Result<(DumpKind, Vec<(u32, u32)>), String>)
    ensures
        split_result_ok_at(r, list_spans(b@, p as int, kind)),
{
    if p >= b.len() {
        return Err(fail_text(SplitFail::TruncatedList));
    }
    let et = b[p];
    let n = match read_i32(b, p + 1) {
        Some(n) => n,
        None => {
            return Err(fail_text(SplitFail::TruncatedListLen));
        },
    };
    let mut spans: Vec<(u32, u32)> = Vec::new();
    if et != 10 {
        return Ok((kind, spans));
    }
    if n < 0 {
        return Err(fail_text(SplitFail::TruncatedElement));
    }
    let mut j: usize = p + 5;
    let mut left_n: u64 = n as u64;
    let ghost total = n as nat;
    while left_n > 0
        invariant
            left_n <= total,
            total == n,
            p < b@.len(),
            b@[p as int] == 10,
            rd_i32(b@, p + 1) == Some(n as int),
            element_spans(b@, (p + 5) as int, total) == match element_spans(
                b@,
                j as int,
                left_n as nat,
            ) {
                Some(rest) => Some(spans@ + rest),
                None => None::<Seq<(u32, u32)>>,
            },
        decreases left_n,
    {
        let start = j;
        match skip_payload(b, j, 10) {
            Some(e) => {
                j = e;
            },
            None => {
                assert(element_spans(b@, j as int, left_n as nat) is None);
                return Err(fail_text(SplitFail::TruncatedElement));
            },
        }
        spans.push((#[verifier::truncate] (start as u32), #[verifier::truncate] (j as u32)));
        left_n = left_n - 1;
        proof {
            match element_spans(b@, j as int, left_n as nat) {
                Some(rest) => {
                    assert(seq![(start as u32, j as u32)] + rest =~= seq![(start as u32, j as u32)]
                        + rest);
                    assert(spans@ + rest =~= spans@.drop_last() + (seq![
                        (start as u32, j as u32),
                    ] + rest));
                },
                None => {},
            }
        }
    }
    assert(spans@ + Seq::<(u32, u32)>::empty() =~= spans@);
    Ok((kind, spans))
}

pub open spec fn split_result_ok_at(
    r: Result<(DumpKind, Vec<(u32, u32)>), String>,
    s: Result<(DumpKind, Seq<(u32, u32)>), SplitFail>,
) -> bool {
    match (r, s) {
        (Ok((k, v)), Ok((k2, sp))) => k == k2 && v@ == sp,
        (Err(m), Err(f)) => m@ == fail_message(f),
        _ => false,
    }
}

/// Finds the `containers` or `players` list in a dump and the byte range of
/// each of its compound elements.
pub fn split_dump(b: &[u8]) -> (r: Result<(DumpKind, Vec<(u32, u32)>), String>)
    ensures
        split_result_ok_at(r, split_spec(b@)),
{
    if b.len() == 0 {
        return Err(fail_text(SplitFail::Empty));
    }
    if b[0] != 10 {
        return Err(fail_text(SplitFail::NotCompound));
    }
    let root_name = match read_u16(b, 1) {
        Some(v) => v,
        None => {
            return Err(fail_text(SplitFail::BadRootName));
        },
    };
    let mut i: usize = 3 + root_name;
    let containers: [u8; 10] = [0x63, 0x6f, 0x6e, 0x74, 0x61, 0x69, 0x6e, 0x65, 0x72, 0x73];
    let players: [u8; 7] = [0x70, 0x6c, 0x61, 0x79, 0x65, 0x72, 0x73];
    assert(containers@ =~= containers_name());
    assert(players@ =~= players_name());
    loop
        invariant
            scan_entries(b@, i as int) == split_spec(b@),
            containers@ == containers_name(),
            players@ == players_name(),
        decreases left(b@, i as int),
    {
        if i >= b.len() {
            return Err(fail_text(SplitFail::Truncated));
        }
        let ct = b[i];
        if ct == 0 {
            return Err(fail_text(SplitFail::NoList));
        }
        let nl = match read_u16(b, i + 1) {
            Some(v) => v,
            None => {
                return Err(fail_text(SplitFail::TruncatedName));
            },
        };
        let s = i + 3;
        if nl > b.len() - s {
            return Err(fail_text(SplitFail::Truncated));
        }
        let p = s + nl;
        if ct == 9 && nl == 10 && bytes_equal(b, s, &containers) {
            return spans_from(b, p, DumpKind::Containers);
        }
        if ct == 9 && nl == 7 && bytes_equal(b, s, &players) {
            proof {
                if b@.subrange(s as int, s + nl) == containers_name() {
                    assert(b@.subrange(s as int, s + nl).len() == 10);
                }
            }
            return spans_from(b, p, DumpKind::Players);
        }
        proof {
            let name = b@.subrange(s as int, s + nl);
            if name == containers_name() {
                assert(name.len() == 10);
            }
            if name == players_name() {
                assert(name.len() == 7);
            }
        }
        match skip_payload(b, p, ct) {
            Some(e) => {
                if e >= b.len() {
                    return Err(fail_text(SplitFail::Truncated));
                }
                i = e;
            },
            None => {
                return Err(fail_text(SplitFail::TruncatedSkip));
            },
        }
    }
}


/// Inventory slot numbers of a player dump moved to the grid that shows
/// them: helmet to boots in the first four cells, the off hand in the fifth,
/// the hotbar after the main inventory.
pub open spec fn remap_slot(slot: i32) -> i32 {
    if slot == 103 {
        0
    } else if slot == 102 {
        1
    } else if slot == 101 {
        2
    } else if slot == 100 {
        3
    } else if slot == -106 {
        4
    } else if 0 <= slot <= 8 {
        (36 + slot) as i32
    } else {
        slot
    }
}

/// A slot number that a player's inventory list uses: the hotbar and main
/// inventory (0 to 35), the armour (100 to 103) and the offhand (-106).
pub open spec fn player_slot(s: i32) -> bool {
    (0 <= s <= 35) || (100 <= s <= 103) || s == -106
}

/// A player's inventory is laid out as the grid shows it: the hotbar moves
/// after the main inventory (slot `s` to `36 + s`), the main inventory stays,
/// armour goes to the first four cells from the helmet down and the offhand
/// to the fifth.
pub proof fn law_inventory_layout(s: i32)
    ensures
        0 <= s <= 8 ==> remap_slot(s) == 36 + s,
        9 <= s <= 35 ==> remap_slot(s) == s,
        100 <= s <= 103 ==> remap_slot(s) == 103 - s,
        s == -106 ==> remap_slot(s) == 4,
        player_slot(s) ==> 0 <= remap_slot(s) <= 44,
{
}

/// No two slots of a player's inventory land in the same cell.
pub proof fn law_inventory_remap_injective(a: i32, b: i32)
    requires
        player_slot(a),
        player_slot(b),
        remap_slot(a) == remap_slot(b),
    ensures
        a == b,
{
}

/// See `remap_slot`.
pub fn remap_inventory_slot(slot: i32) -> (r: i32)
    ensures
        r == remap_slot(slot),
{
    match slot {
        103 => 0,
        102 => 1,
        101 => 2,
        100 => 3,
        -106 => 4,
        0..=8 => 36 + slot,
        _ => slot,
    }
}

/// The bytes of element `span` framed as a document of its own: a compound
/// tag with an empty name, then the element's payload. None when the span
/// does not lie within the dump.
pub open spec fn framed(b: Seq<u8>, span: (u32, u32)) -> Option<Seq<u8>> {
    if span.0 <= span.1 && span.1 <= b.len() {
        Some(seq![10u8, 0u8, 0u8] + b.subrange(span.0 as int, span.1 as int))
    } else {
        None
    }
}

fn parse_element(b: &[u8], span: (u32, u32)) -> (r: Option<Nbt>)
    ensures
        match framed(b@, span) {
            Some(f) => match nbt_read(f) {
                Ok(t) => r matches Some(x) && tree(x@) == t && distinct_deep(x@),
                Err(_) => r is None,
            },
            None => r is None,
        },
{
    let s = span.0 as usize;
    let e = span.1 as usize;
    if s > e || e > b.len() {
        return None;
    }
    let mut buf: Vec<u8> = Vec::new();
    buf.push(10u8);
    buf.push(0u8);
    buf.push(0u8);
    let mut i: usize = s;
    while i < e
        invariant
            s <= i <= e <= b@.len(),
            buf@ == seq![10u8, 0u8, 0u8] + b@.subrange(s as int, i as int),
        decreases e - i,
    {
        buf.push(b[i]);
        i += 1;
        assert(buf@ =~= seq![10u8, 0u8, 0u8] + b@.subrange(s as int, i as int));
    }
    match decode_nbt(buf.as_slice()) {
        Ok(v) => Some(v),
        Err(_) => None,
    }
}

/// The text that makes the raw NBT of an entry searchable: every compound
/// key and every string, one per line, depth first.
pub open spec fn search_text(v: NbtV) -> Seq<char>
    decreases height(v), 1int, 0int,
{
    match v {
        NbtV::Compound(c) => entries_text(c, 0),
        NbtV::List(l) => list_text(l, 0),
        NbtV::String(s) => s.push('\n'),
        _ => seq![],
    }
}

pub open spec fn entries_text(c: Seq<(Seq<char>, NbtV)>, i: int) -> Seq<char>
    decreases height(NbtV::Compound(c)), 0int, c.len() - i,
{
    if 0 <= i < c.len() {
        proof {
            lemma_entry_heights(c, i);
        }
        c[i].0.push('\n') + search_text(c[i].1) + entries_text(c, i + 1)
    } else {
        seq![]
    }
}

pub open spec fn list_text(l: Seq<NbtV>, i: int) -> Seq<char>
    decreases height(NbtV::List(l)), 0int, l.len() - i,
{
    if 0 <= i < l.len() {
        proof {
            lemma_list_lower(l, i);
        }
        search_text(l[i]) + list_text(l, i + 1)
    } else {
        seq![]
    }
}

pub open spec fn opt_search_text(o: Option<NbtV>) -> Seq<char> {
    match o {
        Some(v) => search_text(v),
        None => seq![],
    }
}

fn collect_search(v: &Nbt, out: &mut String)
    ensures
        final(out)@ == old(out)@ + search_text(v@),
    decreases height(v@), 1int, 0int,
{
    match v {
        Nbt::Compound(m) => {
            proof {
                lemma_entries_view(m@);
            }
            let ghost c = entries_view(m@);
            let ghost start = out@;
            assert(v@ == NbtV::Compound(c));
            let mut i: usize = 0;
            while i < m.len()
                invariant
                    v@ == NbtV::Compound(c),
                    c == entries_view(m@),
                    c.len() == m@.len(),
                    i <= m@.len(),
                    forall|j: int|
                        0 <= j < m@.len() ==> #[trigger] c[j] == (m@[j].0@, m@[j].1@),
                    start + entries_text(c, 0) == out@ + entries_text(c, i as int),
                decreases m.len() - i,
            {
                proof {
                    lemma_entry_heights(c, i as int);
                }
                let ghost before = out@;
                push_str(out, m[i].0.as_str());
                push_char(out, '\n');
                collect_search(&m[i].1, out);
                assert(entries_text(c, i as int) == c[i as int].0.push('\n') + search_text(
                    c[i as int].1,
                ) + entries_text(c, i + 1));
                assert(out@ + entries_text(c, i + 1) =~= before + entries_text(c, i as int));
                i += 1;
            }
            assert(out@ =~= start + search_text(v@));
        },
        Nbt::List(l) => {
            proof {
                lemma_nbts_view(l@);
            }
            let ghost lv = nbts_view(l@);
            let ghost start = out@;
            assert(v@ == NbtV::List(lv));
            let mut i: usize = 0;
            while i < l.len()
                invariant
                    v@ == NbtV::List(lv),
                    lv == nbts_view(l@),
                    lv.len() == l@.len(),
                    i <= l@.len(),
                    forall|j: int| 0 <= j < l@.len() ==> #[trigger] lv[j] == l@[j]@,
                    start + list_text(lv, 0) == out@ + list_text(lv, i as int),
                decreases l.len() - i,
            {
                proof {
                    lemma_list_lower(lv, i as int);
                }
                let ghost before = out@;
                collect_search(&l[i], out);
                assert(out@ + list_text(lv, i + 1) =~= before + list_text(lv, i as int));
                i += 1;
            }
            assert(out@ =~= start + search_text(v@));
        },
        Nbt::String(s) => {
            push_str(out, s.as_str());
            push_char(out, '\n');
            assert(final(out)@ =~= old(out)@ + search_text(v@));
        },
        _ => {
            assert(out@ =~= old(out)@ + search_text(v@));
        },
    }
}

/// What a coordinate tag shows: the integer, or `?`.
pub open spec fn coord_text(o: Option<NbtV>) -> Seq<char> {
    match opt_int(o) {
        Some(n) => int_text(n as int),
        None => "?"@,
    }
}

fn coord_str(v: Option<&Nbt>) -> (r: String)
    ensures
        r@ == coord_text(opt_view(v)),
{
    match v {
        Some(x) => match as_i64(x) {
            Some(n) => int_to_string(n),
            None => copy_str("?"),
        },
        None => copy_str("?"),
    }
}

/// A string field of a compound, or `d` where there is none.
pub open spec fn str_or(o: Option<Seq<char>>, d: Seq<char>) -> Seq<char> {
    match o {
        Some(s) => s,
        None => d,
    }
}

pub(crate) fn str_field_or(v: &Nbt, key: &str, d: &str) -> (r: String)
    ensures
        r@ == str_or(opt_str(get_spec(v@, key@)), d@),
{
    match get(v, key) {
        Some(x) => match as_str(x) {
            Some(s) => copy_str(s.as_str()),
            None => copy_str(d),
        },
        None => copy_str(d),
    }
}

pub(crate) fn int_field(v: &Nbt, key: &str) -> (r: Option<i64>)
    ensures
        r == opt_int(get_spec(v@, key@)),
{
    match get(v, key) {
        Some(x) => as_i64(x),
        None => None,
    }
}

/// The item stacks of a list, each read with its position as default slot.
pub open spec fn indexed_items(l: Seq<NbtV>, n: int) -> Seq<ItemView>
    decreases n,
{
    if n <= 0 {
        seq![]
    } else {
        push_some(
            indexed_items(l, n - 1),
            nbt_item(l[n - 1], #[verifier::truncate] ((n - 1) as i32)),
        )
    }
}

pub open spec fn list_items(o: Option<NbtV>) -> Seq<ItemView> {
    match opt_list(o) {
        Some(l) => indexed_items(l, l.len() as int),
        None => seq![],
    }
}

pub(crate) fn items_from_list(v: Option<&Nbt>) -> (r: Vec<Item>)
    ensures
        items_view(r@) == list_items(opt_view(v)),
{
    let mut out: Vec<Item> = Vec::new();
    if let Some(x) = v {
        if let Some(list) = as_list(x) {
            proof {
                lemma_nbts_view(list@);
            }
            let ghost lv = nbts_view(list@);
            let mut i: usize = 0;
            while i < list.len()
                invariant
                    i <= list@.len(),
                    lv == nbts_view(list@),
                    lv.len() == list@.len(),
                    forall|j: int| 0 <= j < list@.len() ==> #[trigger] lv[j] == list@[j]@,
                    items_view(out@) == indexed_items(lv, i as int),
                decreases list.len() - i,
            {
                let it = item_from_nbt(&list[i], #[verifier::truncate] (i as i32));
                push_item(&mut out, it);
                i += 1;
            }
        }
    }
    out
}

/// A player's inventory: the item stacks of the list with their slots
/// moved by `remap_slot`.
pub open spec fn inventory_items(l: Seq<NbtV>, n: int) -> Seq<ItemView>
    decreases n,
{
    if n <= 0 {
        seq![]
    } else {
        let o = match nbt_item(l[n - 1], 0) {
            Some(it) => Some(ItemView { slot: remap_slot(it.slot), ..it }),
            None => None,
        };
        push_some(inventory_items(l, n - 1), o)
    }
}

pub open spec fn inventory_of(o: Option<NbtV>) -> Seq<ItemView> {
    match opt_list(o) {
        Some(l) => inventory_items(l, l.len() as int),
        None => seq![],
    }
}

fn inventory_from_list(v: Option<&Nbt>) -> (r: Vec<Item>)
    ensures
        items_view(r@) == inventory_of(opt_view(v)),
{
    let mut out: Vec<Item> = Vec::new();
    if let Some(x) = v {
        if let Some(list) = as_list(x) {
            proof {
                lemma_nbts_view(list@);
            }
            let ghost lv = nbts_view(list@);
            let mut i: usize = 0;
            while i < list.len()
                invariant
                    i <= list@.len(),
                    lv == nbts_view(list@),
                    lv.len() == list@.len(),
                    forall|j: int| 0 <= j < list@.len() ==> #[trigger] lv[j] == list@[j]@,
                    items_view(out@) == inventory_items(lv, i as int),
                decreases list.len() - i,
            {
                let o = match item_from_nbt(&list[i], 0) {
                    Some(it) => {
                        let mut it = it;
                        it.slot = remap_inventory_slot(it.slot);
                        Some(it)
                    },
                    None => None,
                };
                push_item(&mut out, o);
                i += 1;
            }
        }
    }
    out
}


pub(crate) fn cat(a: &str, b: &str) -> (r: String)
    ensures
        r@ == a@ + b@,
{
    let mut out = copy_str(a);
    push_str(&mut out, b);
    out
}

/// `a`, `b` and `c` with `sep` between them.
pub(crate) fn join3(a: &str, sep: &str, b: &str, c: &str) -> (r: String)
    ensures
        r@ == a@ + sep@ + b@ + sep@ + c@,
{
    let mut out = copy_str(a);
    push_str(&mut out, sep);
    push_str(&mut out, b);
    push_str(&mut out, sep);
    push_str(&mut out, c);
    out
}

pub(crate) fn text_pair(k: &str, v: &str) -> (r: (String, String))
    ensures
        r.0@ == k@,
        r.1@ == v@,
{
    (copy_str(k), copy_str(v))
}

pub(crate) fn copy_action(label: &str, value: &str) -> (r: CopyAction)
    ensures
        r.label@ == label@,
        r.value@ == value@,
{
    CopyAction { label: copy_str(label), value: copy_str(value) }
}

/// A container entry: block id `id`, coordinate texts `x`, `y`, `z`,
/// dimension `dim`, whether it is a dungeon chest, its items, its numeric
/// coordinates (where all three are integers), and the raw text that makes
/// its data searchable.
pub open spec fn container_entry(
    e: Entry,
    id: Seq<char>,
    x: Seq<char>,
    y: Seq<char>,
    z: Seq<char>,
    dim: Seq<char>,
    dungeon: bool,
    items: Seq<ItemView>,
    coords: Option<(i64, i64, i64)>,
    raw: Seq<char>,
) -> bool {
    let pos = x + ", "@ + y + ", "@ + z;
    let xyz = x + " "@ + y + " "@ + z;
    &&& e.kind == EntryKind::Container
    &&& e.title@ == prettify(id) + " @ "@ + pos
    &&& e.header_icon@ == id
    &&& text_pairs_view(e.meta@) == seq![
        ("Type"@, id),
        ("Position"@, pos),
        ("Dimension"@, dim),
        ("Dungeon"@, if dungeon { "Yes"@ } else { "No"@ }),
    ]
    &&& copies_view(e.copies@) == seq![
        ("Copy TP"@, "/execute in "@ + dim + " run tp @s "@ + xyz),
        ("Copy Coords"@, xyz),
        ("Copy Dimension"@, dim),
    ]
    &&& items_view(e.items@) == items
    &&& e.upgrades@.len() == 0
    &&& e.cols == 9
    &&& e.is_dungeon == dungeon
    &&& e.dimension@ == dim
    &&& e.owner@.len() == 0
    &&& e.uuid@.len() == 0
    &&& e.coords == coords
    &&& e.nbt_blob@ == lowercase(raw)
    &&& finalized(e, id + " "@ + xyz)
}

/// Builds a container entry (see `container_entry`).
pub(crate) fn container_entry_of(
    id: String,
    x: String,
    y: String,
    z: String,
    dimension: String,
    is_dungeon: bool,
    items: Vec<Item>,
    coords: Option<(i64, i64, i64)>,
    raw: String,
) -> (r: Entry)
    ensures
        container_entry(
            r,
            id@,
            x@,
            y@,
            z@,
            dimension@,
            is_dungeon,
            items_view(items@),
            coords,
            raw@,
        ),
{
    let pos = join3(x.as_str(), ", ", y.as_str(), z.as_str());
    let xyz = join3(x.as_str(), " ", y.as_str(), z.as_str());
    let mut meta: Vec<(String, String)> = Vec::new();
    meta.push(text_pair("Type", id.as_str()));
    meta.push(text_pair("Position", pos.as_str()));
    meta.push(text_pair("Dimension", dimension.as_str()));
    meta.push(text_pair("Dungeon", if is_dungeon { "Yes" } else { "No" }));
    let tp = cat(cat(cat("/execute in ", dimension.as_str()).as_str(), " run tp @s ").as_str(), xyz.as_str());
    let mut copies: Vec<CopyAction> = Vec::new();
    copies.push(copy_action("Copy TP", tp.as_str()));
    copies.push(copy_action("Copy Coords", xyz.as_str()));
    copies.push(copy_action("Copy Dimension", dimension.as_str()));
    let title = cat(cat(prettify_id(id.as_str()).as_str(), " @ ").as_str(), pos.as_str());
    let extra = cat(cat(id.as_str(), " ").as_str(), xyz.as_str());
    let ghost iv = items_view(items@);
    let mut e = Entry::blank(EntryKind::Container);
    e.title = title;
    e.header_icon = copy_str(id.as_str());
    e.meta = meta;
    e.copies = copies;
    e.items = items;
    e.is_dungeon = is_dungeon;
    e.dimension = dimension;
    e.coords = coords;
    e.nbt_blob = to_lower(raw.as_str());
    e.finalize(extra.as_str());
    assert(text_pairs_view(e.meta@) =~= seq![
        ("Type"@, id@),
        ("Position"@, pos@),
        ("Dimension"@, e.dimension@),
        ("Dungeon"@, if is_dungeon { "Yes"@ } else { "No"@ }),
    ]);
    assert(copies_view(e.copies@) =~= seq![
        ("Copy TP"@, "/execute in "@ + e.dimension@ + " run tp @s "@ + xyz@),
        ("Copy Coords"@, xyz@),
        ("Copy Dimension"@, e.dimension@),
    ]);
    assert(extra@ =~= id@ + " "@ + xyz@);
    e
}

/// The entry that a container element of a dump makes: its block id
/// (default `minecraft:chest`), its position (`?` for a missing coordinate),
/// its dimension (default `minecraft:overworld`), whether it is a dungeon
/// chest, its items, and the strings of its raw item NBT for search.
pub open spec fn container_built(e: Entry, v: NbtV) -> bool {
    container_entry(
        e,
        str_or(opt_str(get_spec(v, "id"@)), "minecraft:chest"@),
        coord_text(get_spec(v, "x"@)),
        coord_text(get_spec(v, "y"@)),
        coord_text(get_spec(v, "z"@)),
        str_or(opt_str(get_spec(v, "dimension"@)), "minecraft:overworld"@),
        match opt_int(get_spec(v, "is_dungeon"@)) {
            Some(n) => n != 0,
            None => false,
        },
        list_items(get_spec(v, "items"@)),
        match (
            opt_int(get_spec(v, "x"@)),
            opt_int(get_spec(v, "y"@)),
            opt_int(get_spec(v, "z"@)),
        ) {
            (Some(a), Some(b), Some(c)) => Some((a, b, c)),
            _ => None,
        },
        opt_search_text(get_spec(v, "items"@)),
    )
}

fn build_container(v: &Nbt) -> (r: Entry)
    ensures
        container_built(r, v@),
{
    let id = str_field_or(v, "id", "minecraft:chest");
    let x = coord_str(get(v, "x"));
    let y = coord_str(get(v, "y"));
    let z = coord_str(get(v, "z"));
    let dimension = str_field_or(v, "dimension", "minecraft:overworld");
    let is_dungeon = match int_field(v, "is_dungeon") {
        Some(n) => n != 0,
        None => false,
    };
    let items = items_from_list(get(v, "items"));
    let coords = match (int_field(v, "x"), int_field(v, "y"), int_field(v, "z")) {
        (Some(a), Some(b), Some(c)) => Some((a, b, c)),
        _ => None,
    };
    let mut raw = String::new();
    if let Some(t) = get(v, "items") {
        collect_search(t, &mut raw);
    }
    assert(raw@ =~= opt_search_text(get_spec(v@, "items"@)));
    container_entry_of(id, x, y, z, dimension, is_dungeon, items, coords, raw)
}

/// One section (inventory or ender chest) of a player as an entry; `raw`
/// is the text that makes the section's data searchable.
pub open spec fn player_entry(
    e: Entry,
    name: Seq<char>,
    uuid: Seq<char>,
    section: Seq<char>,
    items: Seq<ItemView>,
    icon: Seq<char>,
    raw: Seq<char>,
) -> bool {
    &&& e.kind == EntryKind::Player
    &&& e.title@ == name + " - "@ + section
    &&& e.header_icon@ == icon
    &&& text_pairs_view(e.meta@) == seq![("Player"@, name), ("UUID"@, uuid), ("Section"@, section)]
    &&& copies_view(e.copies@) == seq![("Copy Name"@, name), ("Copy UUID"@, uuid)]
    &&& items_view(e.items@) == items
    &&& e.upgrades@.len() == 0
    &&& e.cols == 9
    &&& !e.is_dungeon
    &&& e.dimension@.len() == 0
    &&& e.owner@ == lowercase(name)
    &&& e.uuid@ == lowercase(uuid)
    &&& e.coords is None
    &&& e.nbt_blob@ == lowercase(raw)
    &&& finalized(e, name + " "@ + uuid + " "@ + section)
}

/// Builds one section of a player (see `player_entry`).
pub(crate) fn player_section(
    name: &str,
    uuid: &str,
    section: &str,
    items: Vec<Item>,
    icon: &str,
    raw: &str,
) -> (r: Entry)
    ensures
        player_entry(r, name@, uuid@, section@, items_view(items@), icon@, raw@),
{
    let mut copies: Vec<CopyAction> = Vec::new();
    copies.push(copy_action("Copy Name", name));
    copies.push(copy_action("Copy UUID", uuid));
    let mut meta: Vec<(String, String)> = Vec::new();
    meta.push(text_pair("Player", name));
    meta.push(text_pair("UUID", uuid));
    meta.push(text_pair("Section", section));
    let extra = join3(name, " ", uuid, section);
    let mut e = Entry::blank(EntryKind::Player);
    e.title = cat(cat(name, " - ").as_str(), section);
    e.header_icon = copy_str(icon);
    e.meta = meta;
    e.copies = copies;
    e.items = items;
    e.owner = to_lower(name);
    e.uuid = to_lower(uuid);
    e.nbt_blob = to_lower(raw);
    e.finalize(extra.as_str());
    assert(text_pairs_view(e.meta@) =~= seq![
        ("Player"@, name@),
        ("UUID"@, uuid@),
        ("Section"@, section@),
    ]);
    assert(copies_view(e.copies@) =~= seq![("Copy Name"@, name@), ("Copy UUID"@, uuid@)]);
    e
}

fn make_player_entry(
    name: &str,
    uuid: &str,
    section: &str,
    items: Vec<Item>,
    icon: &str,
    raw: Option<&Nbt>,
) -> (r: Entry)
    ensures
        player_entry(
            r,
            name@,
            uuid@,
            section@,
            items_view(items@),
            icon@,
            opt_search_text(opt_view(raw)),
        ),
{
    let mut blob = String::new();
    if let Some(t) = raw {
        collect_search(t, &mut blob);
    }
    assert(blob@ =~= opt_search_text(opt_view(raw)));
    player_section(name, uuid, section, items, icon, blob.as_str())
}

/// The entries of a player element: one for the inventory and one for the
/// ender chest, each only where it holds an item.
pub open spec fn players_built(es: Seq<Entry>, v: NbtV) -> bool {
    let name = str_or(opt_str(get_spec(v, "name"@)), "Unknown"@);
    let uuid = str_or(opt_str(get_spec(v, "uuid"@)), seq![]);
    let inv = inventory_of(get_spec(v, "inventory"@));
    let ec = list_items(get_spec(v, "ender_chest"@));
    let first: int = if inv.len() > 0 {
        1
    } else {
        0
    };
    &&& es.len() == first + if ec.len() > 0 {
        1int
    } else {
        0int
    }
    &&& inv.len() > 0 ==> player_entry(
        es[0],
        name,
        uuid,
        "Inventory"@,
        inv,
        "minecraft:player_head"@,
        opt_search_text(get_spec(v, "inventory"@)),
    )
    &&& ec.len() > 0 ==> player_entry(
        es[first],
        name,
        uuid,
        "Ender Chest"@,
        ec,
        "minecraft:ender_chest"@,
        opt_search_text(get_spec(v, "ender_chest"@)),
    )
}

fn build_players(v: &Nbt) -> (r: Vec<Entry>)
    ensures
        players_built(r@, v@),
{
    let name = str_field_or(v, "name", "Unknown");
    let uuid = str_field_or(v, "uuid", "");
    proof {
        reveal_strlit("");
    }
    assert(uuid@ =~= str_or(opt_str(get_spec(v@, "uuid"@)), seq![]));
    let mut out: Vec<Entry> = Vec::new();
    let inv = inventory_from_list(get(v, "inventory"));
    if inv.len() > 0 {
        proof {
            crate::model::lemma_items_view_len(inv@);
        }
        let e = make_player_entry(
            name.as_str(),
            uuid.as_str(),
            "Inventory",
            inv,
            "minecraft:player_head",
            get(v, "inventory"),
        );
        out.push(e);
    } else {
        proof {
            crate::model::lemma_items_view_len(inv@);
        }
    }
    let ghost first = out@.len();
    let ec = items_from_list(get(v, "ender_chest"));
    proof {
        crate::model::lemma_items_view_len(ec@);
    }
    if ec.len() > 0 {
        let e = make_player_entry(
            name.as_str(),
            uuid.as_str(),
            "Ender Chest",
            ec,
            "minecraft:ender_chest",
            get(v, "ender_chest"),
        );
        out.push(e);
    }
    out
}

/// The entries of one decoded dump element: one container, or up to two
/// player sections.
pub open spec fn built(es: Seq<Entry>, v: NbtV, kind: DumpKind) -> bool {
    match kind {
        DumpKind::Containers => es.len() == 1 && container_built(es[0], v),
        DumpKind::Players => players_built(es, v),
    }
}

/// Values alike up to the order of compound entries are both item stacks
/// or neither.
proof fn lemma_item_alike(a: NbtV, b: NbtV, s: i32, t: i32)
    requires
        tree(a) == tree(b),
        distinct_deep(a),
        distinct_deep(b),
    ensures
        (nbt_item(a, s) is Some) == (nbt_item(b, t) is Some),
{
    lemma_get_alike(a, b, "id"@);
    if let Some(x) = get_spec(a, "id"@) {
        lemma_str_alike(x, get_spec(b, "id"@)->Some_0);
    }
}

/// Lists of alike elements give as many item stacks.
proof fn lemma_alike_counts(l1: Seq<NbtV>, l2: Seq<NbtV>, n: int)
    requires
        l1.len() == l2.len(),
        0 <= n <= l1.len(),
        forall|i: int|
            0 <= i < l1.len() ==> tree(#[trigger] l1[i]) == tree(l2[i]) && distinct_deep(l1[i])
                && distinct_deep(l2[i]),
    ensures
        indexed_items(l1, n).len() == indexed_items(l2, n).len(),
        inventory_items(l1, n).len() == inventory_items(l2, n).len(),
    decreases n,
{
    if n > 0 {
        lemma_alike_counts(l1, l2, n - 1);
        assert(tree(l1[n - 1]) == tree(l2[n - 1]));
        let s = #[verifier::truncate] ((n - 1) as i32);
        lemma_item_alike(l1[n - 1], l2[n - 1], s, s);
        lemma_item_alike(l1[n - 1], l2[n - 1], 0, 0);
    }
}

/// The sections under `key` of alike players hold as many item stacks.
proof fn lemma_section_alike(v1: NbtV, v2: NbtV, key: Seq<char>)
    requires
        tree(v1) == tree(v2),
        distinct_deep(v1),
        distinct_deep(v2),
    ensures
        list_items(get_spec(v1, key)).len() == list_items(get_spec(v2, key)).len(),
        inventory_of(get_spec(v1, key)).len() == inventory_of(get_spec(v2, key)).len(),
{
    lemma_get_alike(v1, v2, key);
    if let Some(x1) = get_spec(v1, key) {
        let x2 = get_spec(v2, key)->Some_0;
        lemma_list_alike(x1, x2);
        if let Some(l1) = opt_list(Some(x1)) {
            let l2 = opt_list(Some(x2))->Some_0;
            lemma_alike_counts(l1, l2, l1.len() as int);
        }
    }
}

/// A player element gives as many entries whatever order its compounds'
/// entries were decoded in.
pub proof fn lemma_players_count(es1: Seq<Entry>, v1: NbtV, es2: Seq<Entry>, v2: NbtV)
    requires
        tree(v1) == tree(v2),
        distinct_deep(v1),
        distinct_deep(v2),
        players_built(es1, v1),
        players_built(es2, v2),
    ensures
        es1.len() == es2.len(),
{
    lemma_section_alike(v1, v2, "inventory"@);
    lemma_section_alike(v1, v2, "ender_chest"@);
}

/// Builds the entries of one decoded dump element.
pub fn build_entries(v: &Nbt, kind: DumpKind) -> (r: Vec<Entry>)
    ensures
        built(r@, v@, kind),
{
    match kind {
        DumpKind::Containers => {
            let mut out: Vec<Entry> = Vec::new();
            out.push(build_container(v));
            out
        },
        DumpKind::Players => build_players(v),
    }
}

/// Decodes the element of a dump at `span` (one that `split_dump` found) and
/// builds its entries; nothing where the span lies outside the dump or
/// fastnbt rejects the element.
pub fn build_one(b: &[u8], span: (u32, u32), kind: DumpKind) -> (r: Vec<Entry>)
    ensures
        match framed(b@, span) {
            None => r@.len() == 0,
            Some(f) => match nbt_read(f) {
                Err(_) => r@.len() == 0,
                Ok(t) => exists|v: NbtV| tree(v) == t && distinct_deep(v) && built(r@, v, kind),
            },
        },
{
    match parse_element(b, span) {
        Some(v) => {
            let r = build_entries(&v, kind);
            assert(tree(v@) == tree(v@) && distinct_deep(v@) && built(r@, v@, kind));
            r
        },
        None => Vec::new(),
    }
}

} // verus!
