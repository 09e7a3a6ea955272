//! The world scanner's rules: which block entities are containers worth
//! keeping, what record each becomes, how a vault's identical stacks are
//! added up, and how a region file and a chunk's NBT bytes are walked.
//! Reading region files and writing the gzipped result is the application's
//! part.
use vstd::prelude::*;
use crate::nbt_value::{
    Nbt, NbtV, nbt_view, nbts_view, entries_view, lemma_nbts_view, lemma_entries_view, height,
    lemma_heights, lemma_entry_heights, get, get_spec, as_i64, as_str, as_list, int_of, opt_int,
    opt_str, opt_list, opt_view, copy_nbt,
};
use crate::text::{int_to_string, int_text, push_str, push_char, copy_str, str_eq};
use crate::parse::snbt::{key_lt, key_less};
use crate::parse::nbt::{inflate_zlib, zlib_decoded};
use crate::nbt_value::{decode_nbt, nbt_read, tree, NbtTree};
use crate::text::{chars_of, parse_i32, parse_i32_spec, string_from};
use crate::parse::dump_nbt::{left, payload_end, rd_i32, rd_u16, read_i32, read_u16, skip_payload};
use std::io::Read;

verus! {

/// The slot value that means "no slot".
pub const NO_SLOT: i64 = i64::MIN;

/// `s` is one of the listed ids.
pub open spec fn listed(ids: Seq<String>, s: Seq<char>) -> bool {
    exists|i: int| 0 <= i < ids.len() && (#[trigger] ids[i])@ == s
}

/// Whether `s` is one of the listed ids.
pub fn is_listed(ids: &[String], s: &str) -> (r: bool)
    ensures
        r == listed(ids@, s@),
{
    let mut i: usize = 0;
    while i < ids.len()
        invariant
            i <= ids@.len(),
            forall|j: int| 0 <= j < i ==> (#[trigger] ids@[j])@ != s@,
        decreases ids.len() - i,
    {
        if str_eq(ids[i].as_str(), s) {
            return true;
        }
        i += 1;
    }
    false
}

/// An item's slot, reading a byte slot as unsigned; -1 when there is none.
pub open spec fn slot_of(item: NbtV) -> i64 {
    match get_spec(item, "Slot"@) {
        Some(NbtV::Byte(b)) => (b as u8) as i64,
        Some(NbtV::Int(i)) => i as i64,
        Some(NbtV::Short(s)) => s as i64,
        _ => -1i64,
    }
}

pub fn slot_unsigned(item: &Nbt) -> (r: i64)
    ensures
        r == slot_of(item@),
{
    match get(item, "Slot") {
        Some(Nbt::Byte(b)) => {
            let x: i8 = *b;
            assert(((x as i64) & 0xFF) == (x as u8) as i64) by (bit_vector);
            (x as i64) & 0xFF
        },
        Some(Nbt::Int(i)) => *i as i64,
        Some(Nbt::Short(s)) => *s as i64,
        _ => -1,
    }
}

/// An item's count under `count`, else under `Count`, else `d`.
pub open spec fn count_of(item: NbtV, d: i64) -> i64 {
    match opt_int(get_spec(item, "count"@)) {
        Some(v) => v,
        None => match opt_int(get_spec(item, "Count"@)) {
            Some(v) => v,
            None => d,
        },
    }
}

pub fn item_count(item: &Nbt, d: i64) -> (r: i64)
    ensures
        r == count_of(item@, d),
{
    let a = match get(item, "count") {
        Some(x) => as_i64(x),
        None => None,
    };
    if let Some(v) = a {
        return v;
    }
    let b = match get(item, "Count") {
        Some(x) => as_i64(x),
        None => None,
    };
    match b {
        Some(v) => v,
        None => d,
    }
}

/// An item's components, or its older `tag` compound.
pub open spec fn comps_of(item: NbtV) -> Option<NbtV> {
    match get_spec(item, "components"@) {
        Some(c) => Some(c),
        None => get_spec(item, "tag"@),
    }
}

pub fn item_components(item: &Nbt) -> (r: Option<&Nbt>)
    ensures
        opt_view(r) == comps_of(item@),
{
    match get(item, "components") {
        Some(c) => Some(c),
        None => get(item, "tag"),
    }
}

/// The record kept of one stack: its id, its slot unless `slot` is
/// `NO_SLOT`, its count (1 when it has none) and its components.
pub open spec fn item_record(item: NbtV, slot: i64) -> NbtV {
    let id = match opt_str(get_spec(item, "id"@)) {
        Some(s) => s,
        None => Seq::empty(),
    };
    let head = seq![("id"@, NbtV::String(id))];
    let with_slot = if slot != NO_SLOT {
        head.push(("Slot"@, NbtV::Int(#[verifier::truncate] (slot as i32))))
    } else {
        head
    };
    let with_count = with_slot.push(
        ("count"@, NbtV::Int(#[verifier::truncate] (count_of(item, 1) as i32))),
    );
    match comps_of(item) {
        Some(c) => NbtV::Compound(with_count.push(("components"@, c))),
        None => NbtV::Compound(with_count),
    }
}

pub fn item_to_nbt(item: &Nbt, slot: i64) -> (r: Nbt)
    ensures
        r@ == item_record(item@, slot),
{
    let mut out: Vec<(String, Nbt)> = Vec::new();
    let id = match get(item, "id") {
        Some(x) => match as_str(x) {
            Some(s) => copy_str(s.as_str()),
            None => String::new(),
        },
        None => String::new(),
    };
    out.push((String::from_str("id"), Nbt::String(id)));
    if slot != NO_SLOT {
        out.push((String::from_str("Slot"), Nbt::Int(#[verifier::truncate] (slot as i32))));
    }
    let c = item_count(item, 1);
    out.push((String::from_str("count"), Nbt::Int(#[verifier::truncate] (c as i32))));
    if let Some(comps) = item_components(item) {
        out.push((String::from_str("components"), copy_nbt(comps)));
    }
    proof {
        reveal_strlit("id");
        reveal_strlit("Slot");
        reveal_strlit("count");
        reveal_strlit("components");
        lemma_entries_view(out@);
        assert(entries_view(out@) =~= item_record(item@, slot)->Compound_0);
    }
    Nbt::Compound(out)
}

// ---------------------------------------------------------------------------
// Canonical text of a value, used to tell identical components apart.

/// Where entry `j` goes among the entries `ord` already in key order; an
/// entry with the same key is replaced, as a sorted map does.
pub open spec fn idx_insert(m: Seq<(Seq<char>, NbtV)>, ord: Seq<int>, j: int) -> Seq<int>
    decreases ord.len(),
{
    if ord.len() == 0 {
        seq![j]
    } else if m[ord[0]].0 == m[j].0 {
        seq![j] + ord.drop_first()
    } else if key_lt(m[j].0, m[ord[0]].0) {
        seq![j] + ord
    } else {
        seq![ord[0]] + idx_insert(m, ord.drop_first(), j)
    }
}

/// The first `n` entries of a compound, by key, the last of equal keys kept.
pub open spec fn key_order(m: Seq<(Seq<char>, NbtV)>, n: int) -> Seq<int>
    decreases n,
{
    if n <= 0 {
        seq![]
    } else {
        idx_insert(m, key_order(m, n - 1), n - 1)
    }
}

/// The text of a list of integers as Rust's `Debug` writes it: `[1, -2]`.
pub open spec fn ints_text(a: Seq<int>) -> Seq<char> {
    seq!['['] + ints_joined(a, 0) + seq![']']
}

pub open spec fn ints_joined(a: Seq<int>, i: int) -> Seq<char>
    decreases a.len() - i,
{
    if 0 <= i < a.len() {
        (if i > 0 {
            seq![',', ' ']
        } else {
            Seq::empty()
        }) + int_text(a[i]) + ints_joined(a, i + 1)
    } else {
        Seq::empty()
    }
}

/// A value as text: compound entries sorted by key, every entry and element
/// followed by a comma, strings in plain double quotes.
pub open spec fn canon(v: NbtV) -> Seq<char>
    decreases height(v), 1int, 0int,
{
    match v {
        NbtV::Compound(m) => seq!['{'] + canon_fields(m, key_order(m, m.len() as int), 0)
            + seq!['}'],
        NbtV::List(l) => seq!['['] + canon_elems(l, 0) + seq![']'],
        NbtV::String(s) => seq!['"'] + s + seq!['"'],
        NbtV::Byte(x) => int_text(x as int),
        NbtV::Short(x) => int_text(x as int),
        NbtV::Int(x) => int_text(x as int),
        NbtV::Long(x) => int_text(x as int),
        NbtV::Float(_, t) => t,
        NbtV::Double(_, t) => t,
        NbtV::ByteArray(a) => ints_text(a.map_values(|x: i8| x as int)),
        NbtV::IntArray(a) => ints_text(a.map_values(|x: i32| x as int)),
        NbtV::LongArray(a) => ints_text(a.map_values(|x: i64| x as int)),
    }
}

pub open spec fn canon_fields(m: Seq<(Seq<char>, NbtV)>, ord: Seq<int>, i: int) -> Seq<char>
    decreases height(NbtV::Compound(m)), 0int, ord.len() - i,
{
    if 0 <= i < ord.len() {
        let j = ord[i];
        if 0 <= j < m.len() {
            proof {
                lemma_entry_heights(m, j);
            }
            m[j].0 + seq![':'] + canon(m[j].1) + seq![','] + canon_fields(m, ord, i + 1)
        } else {
            canon_fields(m, ord, i + 1)
        }
    } else {
        Seq::empty()
    }
}

pub open spec fn canon_elems(l: Seq<NbtV>, i: int) -> Seq<char>
    decreases height(NbtV::List(l)), 0int, l.len() - i,
{
    if 0 <= i < l.len() {
        proof {
            lemma_heights(l, i);
        }
        canon(l[i]) + seq![','] + canon_elems(l, i + 1)
    } else {
        Seq::empty()
    }
}

proof fn lemma_idx_insert_prefix(m: Seq<(Seq<char>, NbtV)>, ord: Seq<int>, j: int, i: int)
    requires
        0 <= i <= ord.len(),
        forall|k: int|
            0 <= k < i ==> m[#[trigger] ord[k]].0 != m[j].0 && !key_lt(m[j].0, m[ord[k]].0),
    ensures
        idx_insert(m, ord, j) == ord.take(i) + idx_insert(m, ord.skip(i), j),
    decreases i,
{
    if i > 0 {
        assert forall|k: int| 0 <= k < i - 1 implies m[#[trigger] ord.drop_first()[k]].0 != m[j].0
            && !key_lt(m[j].0, m[ord.drop_first()[k]].0) by {
            assert(ord.drop_first()[k] == ord[k + 1]);
        }
        lemma_idx_insert_prefix(m, ord.drop_first(), j, i - 1);
        assert(ord.drop_first().take(i - 1) =~= ord.take(i).drop_first());
        assert(ord.drop_first().skip(i - 1) =~= ord.skip(i));
        assert(ord.take(i) =~= seq![ord[0]] + ord.take(i).drop_first());
    } else {
        assert(ord.skip(0) =~= ord);
    }
}

/// Puts entry `j` of `m` into the key order `ord`.
fn insert_idx(m: &Vec<(String, Nbt)>, ord: &mut Vec<usize>, j: usize)
    requires
        j < m@.len(),
        forall|k: int| 0 <= k < old(ord)@.len() ==> #[trigger] old(ord)@[k] < m@.len(),
    ensures
        final(ord)@.map_values(|x: usize| x as int) == idx_insert(
            entries_view(m@),
            old(ord)@.map_values(|x: usize| x as int),
            j as int,
        ),
        forall|k: int| 0 <= k < final(ord)@.len() ==> #[trigger] final(ord)@[k] < m@.len(),
{
    proof {
        lemma_entries_view(m@);
    }
    let ghost ev = entries_view(m@);
    let ghost o = old(ord)@.map_values(|x: usize| x as int);
    let mut i: usize = 0;
    while i < ord.len()
        invariant
            ord@ == old(ord)@,
            o == old(ord)@.map_values(|x: usize| x as int),
            ev == entries_view(m@),
            ev.len() == m@.len(),
            forall|k: int| 0 <= k < m@.len() ==> #[trigger] ev[k] == (m@[k].0@, nbt_view(m@[k].1)),
            j < m@.len(),
            forall|k: int| 0 <= k < ord@.len() ==> #[trigger] ord@[k] < m@.len(),
            i <= ord@.len(),
            forall|k: int| 0 <= k < i ==> ev[#[trigger] o[k]].0 != ev[j as int].0 && !key_lt(
                ev[j as int].0,
                ev[o[k]].0,
            ),
        decreases ord.len() - i,
    {
        let oi = ord[i];
        assert(o[i as int] == oi as int);
        if str_eq(m[oi].0.as_str(), m[j].0.as_str()) {
            proof {
                lemma_idx_insert_prefix(ev, o, j as int, i as int);
                assert(o.skip(i as int)[0] == oi as int);
                assert(o.skip(i as int).drop_first() =~= o.skip(i + 1));
            }
            ord.set(i, j);
            proof {
                assert(ord@.map_values(|x: usize| x as int) =~= o.take(i as int) + (seq![j as int]
                    + o.skip(i + 1)));
            }
            return;
        }
        if key_less(m[j].0.as_str(), m[oi].0.as_str()) {
            proof {
                lemma_idx_insert_prefix(ev, o, j as int, i as int);
                assert(o.skip(i as int)[0] == oi as int);
            }
            ord.insert(i, j);
            proof {
                assert(ord@.map_values(|x: usize| x as int) =~= o.take(i as int) + (seq![j as int]
                    + o.skip(i as int)));
            }
            return;
        }
        i += 1;
    }
    proof {
        lemma_idx_insert_prefix(ev, o, j as int, i as int);
        assert(o.skip(i as int).len() == 0);
    }
    ord.push(j);
    proof {
        assert(ord@.map_values(|x: usize| x as int) =~= o.take(i as int) + seq![j as int]);
    }
}

/// The entries of a compound in key order.
fn key_order_of(m: &Vec<(String, Nbt)>) -> (r: Vec<usize>)
    ensures
        r@.map_values(|x: usize| x as int) == key_order(entries_view(m@), m@.len() as int),
        forall|k: int| 0 <= k < r@.len() ==> #[trigger] r@[k] < m@.len(),
{
    let mut ord: Vec<usize> = Vec::new();
    let mut j: usize = 0;
    assert(ord@.map_values(|x: usize| x as int) =~= key_order(entries_view(m@), 0));
    while j < m.len()
        invariant
            j <= m@.len(),
            ord@.map_values(|x: usize| x as int) == key_order(entries_view(m@), j as int),
            forall|k: int| 0 <= k < ord@.len() ==> #[trigger] ord@[k] < m@.len(),
        decreases m.len() - j,
    {
        insert_idx(m, &mut ord, j);
        j += 1;
    }
    ord
}

/// Appends the text of a list of integers, `[1, -2]`.
fn push_ints(out: &mut String, a: &Vec<i64>)
    ensures
        final(out)@ == old(out)@ + ints_text(a@.map_values(|x: i64| x as int)),
{
    let ghost s = a@.map_values(|x: i64| x as int);
    push_char(out, '[');
    let mut i: usize = 0;
    while i < a.len()
        invariant
            s == a@.map_values(|x: i64| x as int),
            i <= a@.len(),
            old(out)@ + ints_text(s) == out@ + ints_joined(s, i as int) + seq![']'],
        decreases a.len() - i,
    {
        if i > 0 {
            push_str(out, ", ");
            proof {
                reveal_strlit(", ");
            }
        }
        let t = int_to_string(a[i]);
        push_str(out, t.as_str());
        proof {
            assert(s[i as int] == a@[i as int] as int);
            assert(ints_joined(s, i as int) == (if i > 0 {
                seq![',', ' ']
            } else {
                Seq::<char>::empty()
            }) + int_text(s[i as int]) + ints_joined(s, i + 1));
        }
        i += 1;
    }
    push_char(out, ']');
    assert(ints_joined(s, i as int) =~= Seq::<char>::empty());
}

/// Appends the canonical text of `v`.
pub fn canonical_into(v: &Nbt, out: &mut String)
    ensures
        final(out)@ == old(out)@ + canon(v@),
    decreases height(v@),
{
    match v {
        Nbt::Compound(m) => {
            proof {
                lemma_entries_view(m@);
            }
            let ghost ev = entries_view(m@);
            let ord = key_order_of(m);
            let ghost o = ord@.map_values(|x: usize| x as int);
            assert(v@ == NbtV::Compound(ev));
            push_char(out, '{');
            let mut i: usize = 0;
            while i < ord.len()
                invariant
                    v@ == NbtV::Compound(ev),
                    ev == entries_view(m@),
                    ev.len() == m@.len(),
                    forall|k: int|
                        0 <= k < m@.len() ==> #[trigger] ev[k] == (m@[k].0@, nbt_view(m@[k].1)),
                    o == ord@.map_values(|x: usize| x as int),
                    o == key_order(ev, m@.len() as int),
                    forall|k: int| 0 <= k < ord@.len() ==> #[trigger] ord@[k] < m@.len(),
                    i <= ord@.len(),
                    old(out)@ + canon(v@) == out@ + canon_fields(ev, o, i as int) + seq!['}'],
                decreases ord.len() - i,
            {
                let j = ord[i];
                assert(o[i as int] == j as int);
                proof {
                    lemma_entry_heights(ev, j as int);
                }
                push_str(out, m[j].0.as_str());
                push_char(out, ':');
                canonical_into(&m[j].1, out);
                push_char(out, ',');
                i += 1;
            }
            push_char(out, '}');
            assert(canon_fields(ev, o, i as int) =~= Seq::<char>::empty());
        },
        Nbt::List(l) => {
            proof {
                lemma_nbts_view(l@);
            }
            let ghost lv = nbts_view(l@);
            assert(v@ == NbtV::List(lv));
            push_char(out, '[');
            let mut i: usize = 0;
            while i < l.len()
                invariant
                    v@ == NbtV::List(lv),
                    lv == nbts_view(l@),
                    lv.len() == l@.len(),
                    forall|k: int| 0 <= k < l@.len() ==> #[trigger] lv[k] == l@[k]@,
                    i <= l@.len(),
                    old(out)@ + canon(v@) == out@ + canon_elems(lv, i as int) + seq![']'],
                decreases l.len() - i,
            {
                proof {
                    lemma_heights(lv, i as int);
                }
                canonical_into(&l[i], out);
                push_char(out, ',');
                i += 1;
            }
            push_char(out, ']');
            assert(canon_elems(lv, i as int) =~= Seq::<char>::empty());
        },
        Nbt::String(s) => {
            push_char(out, '"');
            push_str(out, s.as_str());
            push_char(out, '"');
        },
        Nbt::Byte(x) => {
            let t = int_to_string(*x as i64);
            push_str(out, t.as_str());
        },
        Nbt::Short(x) => {
            let t = int_to_string(*x as i64);
            push_str(out, t.as_str());
        },
        Nbt::Int(x) => {
            let t = int_to_string(*x as i64);
            push_str(out, t.as_str());
        },
        Nbt::Long(x) => {
            let t = int_to_string(*x);
            push_str(out, t.as_str());
        },
        Nbt::Float(_, t) => push_str(out, t.as_str()),
        Nbt::Double(_, t) => push_str(out, t.as_str()),
        Nbt::ByteArray(a) => {
            let mut w: Vec<i64> = Vec::new();
            let mut i: usize = 0;
            while i < a.len()
                invariant
                    i <= a@.len(),
                    w@.len() == i,
                    forall|k: int| 0 <= k < i ==> #[trigger] w@[k] == a@[k] as i64,
                decreases a.len() - i,
            {
                w.push(a[i] as i64);
                i += 1;
            }
            push_ints(out, &w);
            assert(w@.map_values(|x: i64| x as int) =~= a@.map_values(|x: i8| x as int));
        },
        Nbt::IntArray(a) => {
            let mut w: Vec<i64> = Vec::new();
            let mut i: usize = 0;
            while i < a.len()
                invariant
                    i <= a@.len(),
                    w@.len() == i,
                    forall|k: int| 0 <= k < i ==> #[trigger] w@[k] == a@[k] as i64,
                decreases a.len() - i,
            {
                w.push(a[i] as i64);
                i += 1;
            }
            push_ints(out, &w);
            assert(w@.map_values(|x: i64| x as int) =~= a@.map_values(|x: i32| x as int));
        },
        Nbt::LongArray(a) => {
            push_ints(out, a);
        },
    }
}

// ---------------------------------------------------------------------------
// The canonical text does not depend on the order of a compound's entries.

proof fn lemma_key_lt_irrefl(a: Seq<char>)
    ensures
        !key_lt(a, a),
    decreases a.len(),
{
    if a.len() > 0 {
        lemma_key_lt_irrefl(a.drop_first());
    }
}

proof fn lemma_key_lt_trans(a: Seq<char>, b: Seq<char>, c: Seq<char>)
    requires
        key_lt(a, b),
        key_lt(b, c),
    ensures
        key_lt(a, c),
    decreases a.len(),
{
    if a.len() > 0 && b.len() > 0 && c.len() > 0 && a[0] == b[0] && b[0] == c[0] {
        lemma_key_lt_trans(a.drop_first(), b.drop_first(), c.drop_first());
    }
}

proof fn lemma_key_lt_total(a: Seq<char>, b: Seq<char>)
    requires
        a != b,
    ensures
        key_lt(a, b) || key_lt(b, a),
    decreases a.len(),
{
    if a.len() == 0 {
        if b.len() == 0 {
            assert(a =~= b);
        }
        assert(key_lt(a, b));
    } else if b.len() == 0 {
        assert(key_lt(b, a));
    } else if a[0] == b[0] {
        if a.drop_first() == b.drop_first() {
            assert(a =~= seq![a[0]] + a.drop_first());
            assert(b =~= seq![b[0]] + b.drop_first());
            assert(false);
        }
        lemma_key_lt_total(a.drop_first(), b.drop_first());
        assert(key_lt(a, b) == key_lt(a.drop_first(), b.drop_first()));
        assert(key_lt(b, a) == key_lt(b.drop_first(), a.drop_first()));
    } else {
        vstd::utf8::char_u32_cast(a[0], #[verifier::truncate] (a[0] as u32));
        vstd::utf8::char_u32_cast(b[0], #[verifier::truncate] (b[0] as u32));
        assert((a[0] as u32) != (b[0] as u32));
        assert(key_lt(a, b) == ((a[0] as u32) < (b[0] as u32)));
        assert(key_lt(b, a) == ((b[0] as u32) < (a[0] as u32)));
    }
}

proof fn lemma_key_lt_asym(a: Seq<char>, b: Seq<char>)
    requires
        key_lt(a, b),
    ensures
        !key_lt(b, a),
{
    if key_lt(b, a) {
        lemma_key_lt_trans(a, b, a);
        lemma_key_lt_irrefl(a);
    }
}

/// No two entries of a compound share a key.
pub open spec fn distinct_keys(m: Seq<(Seq<char>, NbtV)>) -> bool {
    forall|i: int, j: int| 0 <= i < j < m.len() ==> (#[trigger] m[i]).0 != (#[trigger] m[j]).0
}

/// Entry positions whose keys strictly increase.
pub open spec fn idx_sorted(m: Seq<(Seq<char>, NbtV)>, ord: Seq<int>) -> bool {
    &&& forall|i: int| 0 <= i < ord.len() ==> 0 <= #[trigger] ord[i] < m.len()
    &&& forall|i: int, j: int|
        0 <= i < j < ord.len() ==> key_lt(m[#[trigger] ord[i]].0, m[#[trigger] ord[j]].0)
}

proof fn lemma_idx_insert_sorted(m: Seq<(Seq<char>, NbtV)>, ord: Seq<int>, j: int)
    requires
        distinct_keys(m),
        idx_sorted(m, ord),
        0 <= j < m.len(),
        !ord.contains(j),
    ensures
        idx_sorted(m, idx_insert(m, ord, j)),
        forall|x: int| idx_insert(m, ord, j).contains(x) <==> (ord.contains(x) || x == j),
    decreases ord.len(),
{
    let r = idx_insert(m, ord, j);
    if ord.len() == 0 {
        assert(r =~= seq![j]);
        assert forall|x: int| r.contains(x) <==> (ord.contains(x) || x == j) by {
            if x == j {
                assert(r[0] == j);
            }
        }
    } else {
        let o0 = ord[0];
        assert(ord.contains(o0));
        assert(o0 != j);
        if o0 < j {
            assert(m[o0].0 != m[j].0);
        } else {
            assert(m[j].0 != m[o0].0);
        }
        if key_lt(m[j].0, m[o0].0) {
            assert(r =~= seq![j] + ord);
            assert forall|a: int, b: int| 0 <= a < b < r.len() implies key_lt(
                m[#[trigger] r[a]].0,
                m[#[trigger] r[b]].0,
            ) by {
                if a == 0 {
                    if b > 1 {
                        assert(r[b] == ord[b - 1]);
                        lemma_key_lt_trans(m[j].0, m[o0].0, m[ord[b - 1]].0);
                    }
                } else {
                    assert(r[a] == ord[a - 1] && r[b] == ord[b - 1]);
                }
            }
            assert forall|x: int| r.contains(x) <==> (ord.contains(x) || x == j) by {
                if r.contains(x) {
                    let k = choose|k: int| 0 <= k < r.len() && r[k] == x;
                    if k > 0 {
                        assert(ord[k - 1] == x);
                    }
                }
                if ord.contains(x) {
                    let k = choose|k: int| 0 <= k < ord.len() && ord[k] == x;
                    assert(r[k + 1] == x);
                }
                if x == j {
                    assert(r[0] == x);
                }
            }
        } else {
            lemma_key_lt_total(m[j].0, m[o0].0);
            let rest = ord.drop_first();
            assert forall|i: int| 0 <= i < rest.len() implies 0 <= #[trigger] rest[i] < m.len() by {
                assert(rest[i] == ord[i + 1]);
            }
            assert forall|a: int, b: int| 0 <= a < b < rest.len() implies key_lt(
                m[#[trigger] rest[a]].0,
                m[#[trigger] rest[b]].0,
            ) by {
                assert(rest[a] == ord[a + 1] && rest[b] == ord[b + 1]);
            }
            assert(!rest.contains(j)) by {
                if rest.contains(j) {
                    let k = choose|k: int| 0 <= k < rest.len() && rest[k] == j;
                    assert(ord[k + 1] == j);
                }
            }
            lemma_idx_insert_sorted(m, rest, j);
            let r2 = idx_insert(m, rest, j);
            assert(r =~= seq![o0] + r2);
            assert forall|a: int, b: int| 0 <= a < b < r.len() implies key_lt(
                m[#[trigger] r[a]].0,
                m[#[trigger] r[b]].0,
            ) by {
                if a == 0 {
                    assert(r[b] == r2[b - 1]);
                    assert(r2.contains(r2[b - 1]));
                    if r2[b - 1] == j {
                    } else {
                        assert(rest.contains(r2[b - 1]));
                        let k = choose|k: int| 0 <= k < rest.len() && rest[k] == r2[b - 1];
                        assert(ord[k + 1] == r2[b - 1]);
                    }
                } else {
                    assert(r[a] == r2[a - 1] && r[b] == r2[b - 1]);
                }
            }
            assert forall|i: int| 0 <= i < r.len() implies 0 <= #[trigger] r[i] < m.len() by {
                if i > 0 {
                    assert(r[i] == r2[i - 1]);
                    assert(r2.contains(r2[i - 1]));
                    if r2[i - 1] != j {
                        assert(rest.contains(r2[i - 1]));
                        let k = choose|k: int| 0 <= k < rest.len() && rest[k] == r2[i - 1];
                        assert(ord[k + 1] == r2[i - 1]);
                    }
                }
            }
            assert forall|x: int| r.contains(x) <==> (ord.contains(x) || x == j) by {
                if r.contains(x) {
                    let k = choose|k: int| 0 <= k < r.len() && r[k] == x;
                    if k > 0 {
                        assert(r2[k - 1] == x);
                        assert(r2.contains(x));
                        if x != j {
                            assert(rest.contains(x));
                            let q = choose|q: int| 0 <= q < rest.len() && rest[q] == x;
                            assert(ord[q + 1] == x);
                        }
                    }
                }
                if ord.contains(x) {
                    let k = choose|k: int| 0 <= k < ord.len() && ord[k] == x;
                    if k > 0 {
                        assert(rest[k - 1] == x);
                        assert(rest.contains(x));
                        assert(r2.contains(x));
                        let q = choose|q: int| 0 <= q < r2.len() && r2[q] == x;
                        assert(r[q + 1] == x);
                    } else {
                        assert(r[0] == x);
                    }
                }
                if x == j {
                    assert(r2.contains(j));
                    let q = choose|q: int| 0 <= q < r2.len() && r2[q] == j;
                    assert(r[q + 1] == j);
                }
            }
        }
    }
}

proof fn lemma_key_order_sorted(m: Seq<(Seq<char>, NbtV)>, n: int)
    requires
        distinct_keys(m),
        0 <= n <= m.len(),
    ensures
        idx_sorted(m, key_order(m, n)),
        forall|x: int| key_order(m, n).contains(x) <==> 0 <= x < n,
    decreases n,
{
    if n > 0 {
        lemma_key_order_sorted(m, n - 1);
        let o = key_order(m, n - 1);
        assert(!o.contains(n - 1));
        lemma_idx_insert_sorted(m, o, n - 1);
        assert(key_order(m, n) == idx_insert(m, o, n - 1));
        assert forall|x: int| key_order(m, n).contains(x) <==> 0 <= x < n by {
            assert(idx_insert(m, o, n - 1).contains(x) <==> (o.contains(x) || x == n - 1));
            assert(o.contains(x) <==> 0 <= x < n - 1);
        }
    }
}

/// The entries of a compound in key order.
pub open spec fn sorted_entries(m: Seq<(Seq<char>, NbtV)>) -> Seq<(Seq<char>, NbtV)> {
    key_order(m, m.len() as int).map_values(|i: int| m[i])
}

/// Entries whose keys strictly increase.
pub open spec fn entries_sorted(s: Seq<(Seq<char>, NbtV)>) -> bool {
    forall|i: int, j: int| 0 <= i < j < s.len() ==> key_lt((#[trigger] s[i]).0, (#[trigger] s[j]).0)
}

proof fn lemma_sorted_entries(m: Seq<(Seq<char>, NbtV)>)
    requires
        distinct_keys(m),
    ensures
        entries_sorted(sorted_entries(m)),
        forall|x: (Seq<char>, NbtV)| sorted_entries(m).contains(x) <==> m.contains(x),
{
    let ord = key_order(m, m.len() as int);
    lemma_key_order_sorted(m, m.len() as int);
    let s = sorted_entries(m);
    assert forall|i: int, j: int| 0 <= i < j < s.len() implies key_lt(
        (#[trigger] s[i]).0,
        (#[trigger] s[j]).0,
    ) by {
        assert(s[i] == m[ord[i]] && s[j] == m[ord[j]]);
    }
    assert forall|x: (Seq<char>, NbtV)| s.contains(x) <==> m.contains(x) by {
        if s.contains(x) {
            let k = choose|k: int| 0 <= k < s.len() && s[k] == x;
            assert(s[k] == m[ord[k]]);
        }
        if m.contains(x) {
            let k = choose|k: int| 0 <= k < m.len() && m[k] == x;
            assert(ord.contains(k));
            let q = choose|q: int| 0 <= q < ord.len() && ord[q] == k;
            assert(s[q] == x);
        }
    }
}

proof fn lemma_sorted_unique(a: Seq<(Seq<char>, NbtV)>, b: Seq<(Seq<char>, NbtV)>)
    requires
        entries_sorted(a),
        entries_sorted(b),
        forall|x: (Seq<char>, NbtV)| a.contains(x) <==> b.contains(x),
    ensures
        a == b,
    decreases a.len(),
{
    if a.len() == 0 {
        if b.len() > 0 {
            assert(b.contains(b[0]));
        }
        assert(a =~= b);
    } else {
        assert(a.contains(a[0]));
        let k = choose|k: int| 0 <= k < b.len() && b[k] == a[0];
        assert(b.contains(b[0]));
        let l = choose|l: int| 0 <= l < a.len() && a[l] == b[0];
        if k > 0 {
            // b[0] comes before a[0] in b, and a[0] before (or at) b[0] in a.
            assert(key_lt(b[0].0, a[0].0));
            if l > 0 {
                assert(key_lt(a[0].0, b[0].0));
                lemma_key_lt_asym(a[0].0, b[0].0);
            } else {
                lemma_key_lt_irrefl(a[0].0);
            }
        }
        assert(b[0] == a[0]);
        let a2 = a.drop_first();
        let b2 = b.drop_first();
        assert forall|i: int, j: int| 0 <= i < j < a2.len() implies key_lt(
            (#[trigger] a2[i]).0,
            (#[trigger] a2[j]).0,
        ) by {
            assert(a2[i] == a[i + 1] && a2[j] == a[j + 1]);
        }
        assert forall|i: int, j: int| 0 <= i < j < b2.len() implies key_lt(
            (#[trigger] b2[i]).0,
            (#[trigger] b2[j]).0,
        ) by {
            assert(b2[i] == b[i + 1] && b2[j] == b[j + 1]);
        }
        assert forall|x: (Seq<char>, NbtV)| a2.contains(x) <==> b2.contains(x) by {
            if a2.contains(x) {
                let i = choose|i: int| 0 <= i < a2.len() && a2[i] == x;
                assert(a[i + 1] == x);
                assert(key_lt(a[0].0, x.0));
                lemma_key_lt_irrefl(x.0);
                assert(a.contains(x));
                let q = choose|q: int| 0 <= q < b.len() && b[q] == x;
                assert(q != 0);
                assert(b2[q - 1] == x);
            }
            if b2.contains(x) {
                let i = choose|i: int| 0 <= i < b2.len() && b2[i] == x;
                assert(b[i + 1] == x);
                assert(key_lt(b[0].0, x.0));
                lemma_key_lt_irrefl(x.0);
                assert(b.contains(x));
                let q = choose|q: int| 0 <= q < a.len() && a[q] == x;
                assert(q != 0);
                assert(a2[q - 1] == x);
            }
        }
        lemma_sorted_unique(a2, b2);
        assert(a =~= seq![a[0]] + a2);
        assert(b =~= seq![b[0]] + b2);
    }
}

proof fn lemma_canon_fields_same(
    m1: Seq<(Seq<char>, NbtV)>,
    o1: Seq<int>,
    m2: Seq<(Seq<char>, NbtV)>,
    o2: Seq<int>,
    i: int,
)
    requires
        o1.len() == o2.len(),
        0 <= i <= o1.len(),
        forall|k: int| 0 <= k < o1.len() ==> 0 <= #[trigger] o1[k] < m1.len(),
        forall|k: int| 0 <= k < o2.len() ==> 0 <= #[trigger] o2[k] < m2.len(),
        forall|k: int| 0 <= k < o1.len() ==> m1[o1[k]] == #[trigger] m2[o2[k]],
    ensures
        canon_fields(m1, o1, i) == canon_fields(m2, o2, i),
    decreases o1.len() - i,
{
    if i < o1.len() {
        lemma_canon_fields_same(m1, o1, m2, o2, i + 1);
        assert(m1[o1[i]] == m2[o2[i]]);
    }
}

/// The canonical text of a compound does not depend on the order of its
/// entries: two compounds with the same entries under distinct keys read
/// the same.
pub proof fn law_canonical_text_ignores_entry_order(
    m1: Seq<(Seq<char>, NbtV)>,
    m2: Seq<(Seq<char>, NbtV)>,
)
    requires
        distinct_keys(m1),
        distinct_keys(m2),
        forall|x: (Seq<char>, NbtV)| m1.contains(x) <==> m2.contains(x),
    ensures
        canon(NbtV::Compound(m1)) == canon(NbtV::Compound(m2)),
{
    lemma_sorted_entries(m1);
    lemma_sorted_entries(m2);
    let s1 = sorted_entries(m1);
    let s2 = sorted_entries(m2);
    assert forall|x: (Seq<char>, NbtV)| s1.contains(x) <==> s2.contains(x) by {
        assert(sorted_entries(m1).contains(x) == m1.contains(x));
        assert(sorted_entries(m2).contains(x) == m2.contains(x));
        assert(m1.contains(x) == m2.contains(x));
    }
    lemma_sorted_unique(s1, s2);
    let o1 = key_order(m1, m1.len() as int);
    let o2 = key_order(m2, m2.len() as int);
    lemma_key_order_sorted(m1, m1.len() as int);
    lemma_key_order_sorted(m2, m2.len() as int);
    assert(s1.len() == o1.len() && s2.len() == o2.len());
    assert forall|k: int| 0 <= k < o1.len() implies m1[o1[k]] == #[trigger] m2[o2[k]] by {
        assert(s1[k] == m1[o1[k]]);
        assert(s2[k] == m2[o2[k]]);
    }
    lemma_canon_fields_same(m1, o1, m2, o2, 0);
}

/// The canonical text of a value.
pub fn canonical(v: &Nbt) -> (r: String)
    ensures
        r@ == canon(v@),
{
    let mut s = String::new();
    canonical_into(v, &mut s);
    assert(s@ =~= canon(v@));
    s
}

// ---------------------------------------------------------------------------
// Containers.

/// The item list of a block entity: under `Inventory` (a compound holding
/// `Items` or `items`), else the first of `Items`, `inventory`, `Inventory`,
/// `real_items` that is a list.
pub open spec fn resolved(be: NbtV) -> Option<Seq<NbtV>> {
    let inv = get_spec(be, "Inventory"@);
    let nested = match inv {
        Some(NbtV::Compound(_)) => match opt_list(get_spec(inv.unwrap(), "Items"@)) {
            Some(l) => Some(l),
            None => opt_list(get_spec(inv.unwrap(), "items"@)),
        },
        _ => None,
    };
    if nested is Some {
        nested
    } else if opt_list(get_spec(be, "Items"@)) is Some {
        opt_list(get_spec(be, "Items"@))
    } else if opt_list(get_spec(be, "inventory"@)) is Some {
        opt_list(get_spec(be, "inventory"@))
    } else if opt_list(get_spec(be, "Inventory"@)) is Some {
        opt_list(get_spec(be, "Inventory"@))
    } else {
        opt_list(get_spec(be, "real_items"@))
    }
}

fn list_under<'a>(v: &'a Nbt, key: &str) -> (r: Option<&'a Vec<Nbt>>)
    ensures
        match r {
            Some(l) => opt_list(get_spec(v@, key@)) == Some(nbts_view(l@)),
            None => opt_list(get_spec(v@, key@)) is None,
        },
{
    match get(v, key) {
        Some(x) => as_list(x),
        None => None,
    }
}

pub fn resolve_items(be: &Nbt) -> (r: Option<&Vec<Nbt>>)
    ensures
        match r {
            Some(l) => resolved(be@) == Some(nbts_view(l@)),
            None => resolved(be@) is None,
        },
{
    if let Some(inv) = get(be, "Inventory") {
        if let Nbt::Compound(_) = inv {
            if let Some(l) = list_under(inv, "Items") {
                return Some(l);
            }
            if let Some(l) = list_under(inv, "items") {
                return Some(l);
            }
        }
    }
    if let Some(l) = list_under(be, "Items") {
        return Some(l);
    }
    if let Some(l) = list_under(be, "inventory") {
        return Some(l);
    }
    if let Some(l) = list_under(be, "Inventory") {
        return Some(l);
    }
    list_under(be, "real_items")
}

/// A whole-number field cut to 32 bits, 0 when missing.
pub open spec fn int_field_of(be: NbtV, key: Seq<char>) -> i32 {
    match opt_int(get_spec(be, key)) {
        Some(v) => #[verifier::truncate] (v as i32),
        None => 0,
    }
}

pub fn int_field(be: &Nbt, key: &str) -> (r: i32)
    ensures
        r == int_field_of(be@, key@),
{
    let v = match get(be, key) {
        Some(x) => as_i64(x),
        None => None,
    };
    match v {
        Some(x) => #[verifier::truncate] (x as i32),
        None => 0,
    }
}

/// What a vault's stacks are added up by: the id and the canonical text of
/// the components.
pub open spec fn vault_key(id: Seq<char>, comps: Option<NbtV>) -> Seq<char> {
    id + seq!['|'] + match comps {
        Some(c) => canon(c),
        None => Seq::empty(),
    }
}

/// A vault's running totals: key, id, components and count.
pub type StackV = (Seq<char>, Seq<char>, Option<NbtV>, i64);

/// The first total with the given key.
pub open spec fn key_pos(acc: Seq<StackV>, key: Seq<char>) -> Option<int>
    decreases acc.len(),
{
    if acc.len() == 0 {
        None
    } else if acc.last().0 == key && key_pos(acc.drop_last(), key) is None {
        Some(acc.len() - 1)
    } else {
        key_pos(acc.drop_last(), key)
    }
}

/// The totals after the first `n` stacks of a vault, in first-seen order;
/// counts add up as 64-bit integers that wrap.
pub open spec fn aggregate(l: Seq<NbtV>, n: int) -> Seq<StackV>
    decreases n,
{
    if n <= 0 {
        seq![]
    } else {
        let acc = aggregate(l, n - 1);
        let e = l[n - 1];
        match opt_str(get_spec(e, "id"@)) {
            Some(id) => {
                let comps = comps_of(e);
                let c = count_of(e, 0);
                let key = vault_key(id, comps);
                match key_pos(acc, key) {
                    Some(j) => acc.update(
                        j,
                        (acc[j].0, acc[j].1, acc[j].2, vstd::wrapping::i64_specs::wrapping_add(
                            acc[j].3,
                            c,
                        )),
                    ),
                    None => acc.push((key, id, comps, c)),
                }
            },
            None => acc,
        }
    }
}

/// The record of a vault total: id, components, count cut to 32 bits.
pub open spec fn stack_record(t: StackV) -> NbtV {
    let head = seq![("id"@, NbtV::String(t.1))];
    let with_comps = match t.2 {
        Some(c) => head.push(("components"@, c)),
        None => head,
    };
    NbtV::Compound(with_comps.push(("count"@, NbtV::Int(#[verifier::truncate] (t.3 as i32)))))
}

/// The records of a chest-like container's stacks: those with a string id
/// and a slot, in order.
pub open spec fn slot_items(l: Seq<NbtV>, n: int) -> Seq<NbtV>
    decreases n,
{
    if n <= 0 {
        seq![]
    } else {
        let acc = slot_items(l, n - 1);
        let e = l[n - 1];
        if opt_str(get_spec(e, "id"@)) is Some && slot_of(e) != -1 {
            acc.push(item_record(e, slot_of(e)))
        } else {
            acc
        }
    }
}

/// The fields of a container record before its items.
pub open spec fn container_head(be: NbtV, dim: Seq<char>, id: Seq<char>, is_vault: bool) -> Seq<
    (Seq<char>, NbtV),
> {
    let dungeon: i8 = if opt_str(get_spec(be, "LootTable"@)) is Some {
        1
    } else {
        0
    };
    let head = seq![
        ("dimension"@, NbtV::String(dim)),
        ("id"@, NbtV::String(id)),
        ("x"@, NbtV::Int(int_field_of(be, "x"@))),
        ("y"@, NbtV::Int(int_field_of(be, "y"@))),
        ("z"@, NbtV::Int(int_field_of(be, "z"@))),
        ("is_dungeon"@, NbtV::Byte(dungeon)),
    ];
    if is_vault {
        head.push(("is_vault"@, NbtV::Byte(1)))
    } else {
        head
    }
}

/// The record a block entity becomes, if it is a container that the scan
/// looks for: one whose id is a target or a vault, a vault only when it
/// holds a non-empty item list. A vault's stacks are added up by id and
/// components; another container keeps each stack that has a slot.
pub open spec fn container_of(
    be: NbtV,
    dim: Seq<char>,
    targets: Seq<String>,
    vaults: Seq<String>,
) -> Option<NbtV> {
    match opt_str(get_spec(be, "id"@)) {
        None => None,
        Some(id) => {
            let is_vault = listed(vaults, id);
            let items = resolved(be);
            if !listed(targets, id) && !is_vault {
                None
            } else if is_vault && (items is None || items.unwrap().len() == 0) {
                None
            } else {
                let out = match items {
                    None => Seq::empty(),
                    Some(l) => if is_vault {
                        aggregate(l, l.len() as int).map_values(|t: StackV| stack_record(t))
                    } else {
                        slot_items(l, l.len() as int)
                    },
                };
                Some(
                    NbtV::Compound(
                        container_head(be, dim, id, is_vault).push(("items"@, NbtV::List(out))),
                    ),
                )
            }
        },
    }
}

pub open spec fn opt_nbt(o: Option<Nbt>) -> Option<NbtV> {
    match o {
        Some(v) => Some(v@),
        None => None,
    }
}

pub open spec fn stacks_view(s: Seq<(String, String, Option<Nbt>, i64)>) -> Seq<StackV> {
    s.map_values(|t: (String, String, Option<Nbt>, i64)| (t.0@, t.1@, opt_nbt(t.2), t.3))
}

proof fn lemma_key_pos(acc: Seq<StackV>, key: Seq<char>)
    ensures
        match key_pos(acc, key) {
            Some(j) => 0 <= j < acc.len() && acc[j].0 == key && forall|k: int|
                0 <= k < j ==> (#[trigger] acc[k]).0 != key,
            None => forall|k: int| 0 <= k < acc.len() ==> (#[trigger] acc[k]).0 != key,
        },
    decreases acc.len(),
{
    if acc.len() > 0 {
        lemma_key_pos(acc.drop_last(), key);
        assert forall|k: int| 0 <= k < acc.len() - 1 implies acc.drop_last()[k] == acc[k] by {}
    }
}

/// Adds one vault stack to the running totals.
fn add_stack(acc: &mut Vec<(String, String, Option<Nbt>, i64)>, e: &Nbt)
    ensures
        stacks_view(final(acc)@) == match opt_str(get_spec(e@, "id"@)) {
            Some(id) => {
                let a = stacks_view(old(acc)@);
                let comps = comps_of(e@);
                let c = count_of(e@, 0);
                let key = vault_key(id, comps);
                match key_pos(a, key) {
                    Some(j) => a.update(
                        j,
                        (a[j].0, a[j].1, a[j].2, vstd::wrapping::i64_specs::wrapping_add(a[j].3, c)),
                    ),
                    None => a.push((key, id, comps, c)),
                }
            },
            None => stacks_view(old(acc)@),
        },
{
    let id = match get(e, "id") {
        Some(x) => match as_str(x) {
            Some(s) => s,
            None => {
                return;
            },
        },
        None => {
            return;
        },
    };
    let comps = item_components(e);
    let c = item_count(e, 0);
    let mut key = copy_str(id.as_str());
    push_char(&mut key, '|');
    if let Some(cv) = comps {
        canonical_into(cv, &mut key);
    }
    proof {
        assert(key@ =~= vault_key(id@, comps_of(e@)));
    }
    let ghost a = stacks_view(acc@);
    proof {
        lemma_key_pos(a, key@);
    }
    let mut i: usize = 0;
    while i < acc.len()
        invariant
            acc@ == old(acc)@,
            a == stacks_view(acc@),
            a.len() == acc@.len(),
            key@ == vault_key(id@, comps_of(e@)),
            c == count_of(e@, 0),
            opt_view(comps) == comps_of(e@),
            opt_str(get_spec(e@, "id"@)) == Some(id@),
            i <= acc@.len(),
            forall|k: int| 0 <= k < i ==> (#[trigger] a[k]).0 != key@,
        decreases acc.len() - i,
    {
        assert(a[i as int].0 == acc@[i as int].0@);
        if str_eq(acc[i].0.as_str(), key.as_str()) {
            proof {
                lemma_key_pos(a, key@);
                assert(a[i as int].0 == key@);
                if key_pos(a, key@) is None {
                    assert(false);
                }
                let j = key_pos(a, key@).unwrap();
                if j < i {
                    assert(a[j].0 != key@);
                }
                if j > i {
                    assert(a[i as int].0 != key@);
                }
                assert(key_pos(a, key@) == Some(i as int));
            }
            let t = acc[i].3;
            let total = t.wrapping_add(c);
            let old_entry = acc.remove(i);
            let (k0, k1, k2, _) = old_entry;
            acc.insert(i, (k0, k1, k2, total));
            proof {
                assert(stacks_view(acc@) =~= a.update(
                    i as int,
                    (a[i as int].0, a[i as int].1, a[i as int].2, vstd::wrapping::i64_specs::wrapping_add(
                        a[i as int].3,
                        c,
                    )),
                ));
            }
            return;
        }
        i += 1;
    }
    let cc = match comps {
        Some(cv) => Some(copy_nbt(cv)),
        None => None,
    };
    acc.push((key, copy_str(id.as_str()), cc, c));
    proof {
        lemma_key_pos(a, key@);
        assert(stacks_view(acc@) =~= a.push((key@, id@, comps_of(e@), c)));
    }
}

/// The record of one vault total.
fn stack_to_nbt(t: &(String, String, Option<Nbt>, i64)) -> (r: Nbt)
    ensures
        r@ == stack_record((t.0@, t.1@, opt_nbt(t.2), t.3)),
{
    let mut o: Vec<(String, Nbt)> = Vec::new();
    o.push((String::from_str("id"), Nbt::String(copy_str(t.1.as_str()))));
    if let Some(c) = &t.2 {
        o.push((String::from_str("components"), copy_nbt(c)));
    }
    o.push((String::from_str("count"), Nbt::Int(#[verifier::truncate] (t.3 as i32))));
    proof {
        reveal_strlit("id");
        reveal_strlit("components");
        reveal_strlit("count");
        lemma_entries_view(o@);
        assert(entries_view(o@) =~= stack_record((t.0@, t.1@, opt_nbt(t.2), t.3))->Compound_0);
    }
    Nbt::Compound(o)
}

/// The record a block entity becomes in the scan's output, if it is a
/// container the scan looks for (see `container_of`).
pub fn extract_container(be: &Nbt, dimension: &str, targets: &[String], vaults: &[String]) -> (r:
    Option<Nbt>)
    ensures
        opt_nbt(r) == container_of(be@, dimension@, targets@, vaults@),
{
    let id = match get(be, "id") {
        Some(x) => match as_str(x) {
            Some(s) => s,
            None => {
                return None;
            },
        },
        None => {
            return None;
        },
    };
    let is_vault = is_listed(vaults, id.as_str());
    if !is_listed(targets, id.as_str()) && !is_vault {
        return None;
    }
    let items_list = resolve_items(be);
    if is_vault {
        match items_list {
            None => {
                return None;
            },
            Some(l) => {
                if l.len() == 0 {
                    proof {
                        lemma_nbts_view(l@);
                    }
                    return None;
                }
            },
        }
    }
    let dungeon: i8 = match get(be, "LootTable") {
        Some(Nbt::String(_)) => 1,
        _ => 0,
    };
    let mut entry: Vec<(String, Nbt)> = Vec::new();
    entry.push((String::from_str("dimension"), Nbt::String(copy_str(dimension))));
    entry.push((String::from_str("id"), Nbt::String(copy_str(id.as_str()))));
    entry.push((String::from_str("x"), Nbt::Int(int_field(be, "x"))));
    entry.push((String::from_str("y"), Nbt::Int(int_field(be, "y"))));
    entry.push((String::from_str("z"), Nbt::Int(int_field(be, "z"))));
    entry.push((String::from_str("is_dungeon"), Nbt::Byte(dungeon)));
    if is_vault {
        entry.push((String::from_str("is_vault"), Nbt::Byte(1)));
    }
    let mut out_items: Vec<Nbt> = Vec::new();
    if let Some(list) = items_list {
        proof {
            lemma_nbts_view(list@);
        }
        let ghost lv = nbts_view(list@);
        if is_vault {
            let mut acc: Vec<(String, String, Option<Nbt>, i64)> = Vec::new();
            let mut i: usize = 0;
            assert(stacks_view(acc@) =~= aggregate(lv, 0));
            while i < list.len()
                invariant
                    lv == nbts_view(list@),
                    lv.len() == list@.len(),
                    forall|k: int| 0 <= k < list@.len() ==> #[trigger] lv[k] == list@[k]@,
                    i <= list@.len(),
                    stacks_view(acc@) == aggregate(lv, i as int),
                decreases list.len() - i,
            {
                add_stack(&mut acc, &list[i]);
                i += 1;
            }
            let ghost ag = aggregate(lv, lv.len() as int);
            let mut j: usize = 0;
            while j < acc.len()
                invariant
                    stacks_view(acc@) == ag,
                    ag.len() == acc@.len(),
                    j <= acc@.len(),
                    out_items@.len() == j,
                    forall|k: int| 0 <= k < j ==> (#[trigger] out_items@[k])@ == stack_record(ag[k]),
                decreases acc.len() - j,
            {
                let r = stack_to_nbt(&acc[j]);
                out_items.push(r);
                j += 1;
            }
            proof {
                lemma_nbts_view(out_items@);
                assert(nbts_view(out_items@) =~= ag.map_values(|t: StackV| stack_record(t)));
            }
        } else {
            let mut i: usize = 0;
            proof {
                lemma_nbts_view(out_items@);
            }
            assert(nbts_view(out_items@) =~= slot_items(lv, 0));
            while i < list.len()
                invariant
                    lv == nbts_view(list@),
                    lv.len() == list@.len(),
                    forall|k: int| 0 <= k < list@.len() ==> #[trigger] lv[k] == list@[k]@,
                    i <= list@.len(),
                    nbts_view(out_items@) == slot_items(lv, i as int),
                decreases list.len() - i,
            {
                let it = &list[i];
                let has_id = match get(it, "id") {
                    Some(Nbt::String(_)) => true,
                    _ => false,
                };
                if has_id {
                    let slot = slot_unsigned(it);
                    if slot != -1 {
                        let rec = item_to_nbt(it, slot);
                        proof {
                            lemma_nbts_view(out_items@);
                        }
                        out_items.push(rec);
                        proof {
                            lemma_nbts_view(out_items@);
                            assert(nbts_view(out_items@) =~= slot_items(lv, i as int).push(
                                item_record(lv[i as int], slot_of(lv[i as int])),
                            ));
                        }
                    }
                }
                i += 1;
            }
        }
    }
    entry.push((String::from_str("items"), Nbt::List(out_items)));
    proof {
        reveal_strlit("dimension");
        reveal_strlit("id");
        reveal_strlit("x");
        reveal_strlit("y");
        reveal_strlit("z");
        reveal_strlit("is_dungeon");
        reveal_strlit("is_vault");
        reveal_strlit("items");
        lemma_entries_view(entry@);
        let want = container_of(be@, dimension@, targets@, vaults@);
        assert(entries_view(entry@) =~= want.unwrap()->Compound_0);
    }
    Some(Nbt::Compound(entry))
}

// ---------------------------------------------------------------------------
// Region files.

/// A file stem cut at each dot, as `str::split('.')` cuts it.
pub open spec fn split_dots(s: Seq<char>) -> Seq<Seq<char>>
    decreases s.len(),
{
    if s.len() == 0 {
        seq![Seq::empty()]
    } else {
        let p = split_dots(s.drop_last());
        if s.last() == '.' {
            p.push(Seq::empty())
        } else {
            p.update(p.len() - 1, p.last().push(s.last()))
        }
    }
}

proof fn lemma_split_dots_len(s: Seq<char>)
    ensures
        split_dots(s).len() >= 1,
    decreases s.len(),
{
    if s.len() > 0 {
        lemma_split_dots_len(s.drop_last());
    }
}

/// The region coordinates in a file stem `r.<x>.<z>`; a part that is not a
/// number counts as 0, and any other stem gives (0, 0).
pub open spec fn region_xz(stem: Seq<char>) -> (i32, i32) {
    let p = split_dots(stem);
    if p.len() == 3 && p[0] == seq!['r'] {
        (
            match parse_i32_spec(p[1]) {
                Some(x) => x,
                None => 0,
            },
            match parse_i32_spec(p[2]) {
                Some(z) => z,
                None => 0,
            },
        )
    } else {
        (0, 0)
    }
}

pub fn region_coords(stem: &str) -> (r: (i32, i32))
    ensures
        r == region_xz(stem@),
{
    let c = chars_of(stem);
    let mut done: Vec<Vec<char>> = Vec::new();
    let mut cur: Vec<char> = Vec::new();
    let mut i: usize = 0;
    assert(c@.take(0) =~= Seq::<char>::empty());
    while i < c.len()
        invariant
            c@ == stem@,
            i <= c@.len(),
            split_dots(c@.take(i as int)) == done@.map_values(|v: Vec<char>| v@).push(cur@),
        decreases c.len() - i,
    {
        let ch = c[i];
        assert(c@.take(i + 1).drop_last() =~= c@.take(i as int));
        assert(c@.take(i + 1).last() == ch);
        if ch == '.' {
            let prev = cur;
            done.push(prev);
            cur = Vec::new();
            assert(done@.map_values(|v: Vec<char>| v@).push(cur@) =~= split_dots(c@.take(i as int)).push(
                Seq::empty(),
            ));
        } else {
            cur.push(ch);
            assert(done@.map_values(|v: Vec<char>| v@).push(cur@) =~= split_dots(
                c@.take(i as int),
            ).update(done@.len() as int, split_dots(c@.take(i as int)).last().push(ch)));
        }
        i += 1;
    }
    assert(c@.take(i as int) =~= stem@);
    let ghost p = split_dots(stem@);
    if done.len() == 2 {
        assert(p.len() == 3);
        assert(p[0] == done@[0]@);
        assert(p[1] == done@[1]@);
        assert(p[2] == cur@);
        let first = string_from(done[0].as_slice());
        proof {
            reveal_strlit("r");
            assert("r"@ =~= seq!['r']);
        }
        if str_eq(first.as_str(), "r") {
            let xs = string_from(done[1].as_slice());
            let zs = string_from(cur.as_slice());
            let x = match parse_i32(xs.as_str()) {
                Some(v) => v,
                None => 0,
            };
            let z = match parse_i32(zs.as_str()) {
                Some(v) => v,
                None => 0,
            };
            return (x, z);
        }
        (0, 0)
    } else {
        assert(p.len() != 3);
        (0, 0)
    }
}

/// Where a chunk's data is: inline in the region file between `start` and
/// `end`, or in the file `c.<cx>.<cz>.mcc` beside it. `ctype` is the
/// compression (1 gzip, 2 zlib, 3 none).
#[derive(Debug, Clone, Copy, PartialEq, Eq, Structural)]
pub enum ChunkSource {
    Inline { ctype: u8, start: usize, end: usize },
    External { ctype: u8, cx: i32, cz: i32 },
}

pub open spec fn be24(b: Seq<u8>, h: int) -> int {
    b[h] * 65536 + b[h + 1] * 256 + b[h + 2]
}

pub open spec fn be32(b: Seq<u8>, s: int) -> int {
    b[s] * 16777216 + b[s + 1] * 65536 + b[s + 2] * 256 + b[s + 3]
}

/// The chunk that entry `idx` of a region file's location table points to,
/// if any: the table gives its sector (0 means absent) and sector count;
/// at the sector a 4-byte length (0 means absent) and a compression byte,
/// whose top bit sends the data to an external file. Inline data must lie
/// inside the file.
pub open spec fn chunk_at(file: Seq<u8>, rx: i32, rz: i32, idx: int) -> Option<ChunkSource> {
    let h = idx * 4;
    let offset = be24(file, h);
    let sectors = file[h + 3];
    if offset == 0 || sectors == 0 {
        None
    } else {
        let start = offset * 4096;
        if start + 5 > file.len() {
            None
        } else {
            let length = be32(file, start);
            if length == 0 {
                None
            } else {
                let raw = file[start + 4];
                let ct = (raw % 128) as u8;
                if raw >= 128 {
                    Some(
                        ChunkSource::External {
                            ctype: ct,
                            cx: #[verifier::truncate] ((rx * 32 + idx % 32) as i32),
                            cz: #[verifier::truncate] ((rz * 32 + idx / 32) as i32),
                        },
                    )
                } else if start + 4 + length > file.len() {
                    None
                } else {
                    Some(
                        ChunkSource::Inline {
                            ctype: ct,
                            start: (start + 5) as usize,
                            end: (start + 4 + length) as usize,
                        },
                    )
                }
            }
        }
    }
}

/// The chunks of the first `n` table entries of a region file, in table
/// order; none when the file is shorter than its two header tables.
pub open spec fn region_chunks_upto(file: Seq<u8>, rx: i32, rz: i32, n: int) -> Seq<ChunkSource>
    decreases n,
{
    if n <= 0 || file.len() < 8192 {
        seq![]
    } else {
        let p = region_chunks_upto(file, rx, rz, n - 1);
        match chunk_at(file, rx, rz, n - 1) {
            Some(c) => p.push(c),
            None => p,
        }
    }
}

/// Where the 1024 chunks of a region file are.
pub fn region_chunks(file: &[u8], rx: i32, rz: i32) -> (r: Vec<ChunkSource>)
    ensures
        r@ == region_chunks_upto(file@, rx, rz, 1024),
{
    let mut out: Vec<ChunkSource> = Vec::new();
    if file.len() < 8192 {
        return out;
    }
    let len: u64 = file.len() as u64;
    let mut idx: usize = 0;
    while idx < 1024
        invariant
            file@.len() >= 8192,
            len == file@.len(),
            idx <= 1024,
            out@ == region_chunks_upto(file@, rx, rz, idx as int),
        decreases 1024 - idx,
    {
        let h = idx * 4;
        let offset: u64 = (file[h] as u64) * 65536 + (file[h + 1] as u64) * 256 + (file[h + 2] as u64);
        let sectors = file[h + 3];
        let ghost want = chunk_at(file@, rx, rz, idx as int);
        if offset != 0 && sectors != 0 {
            let start: u64 = offset * 4096;
            if start + 5 <= len {
                let s = start as usize;
                let length: u64 = (file[s] as u64) * 16777216 + (file[s + 1] as u64) * 65536
                    + (file[s + 2] as u64) * 256 + (file[s + 3] as u64);
                if length != 0 {
                    let raw = file[s + 4];
                    let ct: u8 = raw % 128;
                    if raw >= 128 {
                        let lx: i64 = (idx % 32) as i64;
                        let lz: i64 = (idx / 32) as i64;
                        let cx: i32 = #[verifier::truncate] (((rx as i64) * 32 + lx) as i32);
                        let cz: i32 = #[verifier::truncate] (((rz as i64) * 32 + lz) as i32);
                        out.push(ChunkSource::External { ctype: ct, cx, cz });
                    } else if start + 4 + length <= len {
                        out.push(
                            ChunkSource::Inline {
                                ctype: ct,
                                start: s + 5,
                                end: (start + 4 + length) as usize,
                            },
                        );
                    }
                }
            }
        }
        idx += 1;
    }
    out
}

/// The name of the file that holds an oversized chunk: `c.<cx>.<cz>.mcc`.
pub open spec fn external_name(cx: i32, cz: i32) -> Seq<char> {
    seq!['c', '.'] + int_text(cx as int) + seq!['.'] + int_text(cz as int) + seq!['.', 'm', 'c', 'c']
}

pub fn external_chunk_name(cx: i32, cz: i32) -> (r: String)
    ensures
        r@ == external_name(cx, cz),
{
    let mut s = String::new();
    push_str(&mut s, "c.");
    let x = int_to_string(cx as i64);
    push_str(&mut s, x.as_str());
    push_char(&mut s, '.');
    let z = int_to_string(cz as i64);
    push_str(&mut s, z.as_str());
    push_str(&mut s, ".mcc");
    proof {
        reveal_strlit("c.");
        reveal_strlit(".mcc");
        assert(s@ =~= external_name(cx, cz));
    }
    s
}

/// A vault's records never repeat an (id, components) pair: stacks that
/// agree on both are added into one record.
pub proof fn law_vault_keys_are_distinct(l: Seq<NbtV>, n: int)
    ensures
        forall|i: int, j: int|
            0 <= i < j < aggregate(l, n).len() ==> (#[trigger] aggregate(l, n)[i]).0 != (
            #[trigger] aggregate(l, n)[j]).0,
    decreases n,
{
    if n > 0 {
        law_vault_keys_are_distinct(l, n - 1);
        let acc = aggregate(l, n - 1);
        let e = l[n - 1];
        if let Some(id) = opt_str(get_spec(e, "id"@)) {
            let key = vault_key(id, comps_of(e));
            lemma_key_pos(acc, key);
        }
    }
}

/// Every chunk that a region file holds inline lies within the file.
pub proof fn law_inline_chunks_lie_in_the_file(file: Seq<u8>, rx: i32, rz: i32, n: int)
    requires
        file.len() <= usize::MAX,
    ensures
        forall|k: int|
            0 <= k < region_chunks_upto(file, rx, rz, n).len() ==> match #[trigger] region_chunks_upto(
                file,
                rx,
                rz,
                n,
            )[k] {
                ChunkSource::Inline { start, end, .. } => start <= end <= file.len(),
                ChunkSource::External { .. } => true,
            },
    decreases n,
{
    if n > 0 && file.len() >= 8192 {
        law_inline_chunks_lie_in_the_file(file, rx, rz, n - 1);
    }
}

/// What flate2's `GzDecoder` reads to the end of `raw` (one gzip member),
/// or none when it reports an error.
pub uninterp spec fn gzip_member_decoded(raw: Seq<u8>) -> Option<Seq<u8>>;

/// `flate2::read::GzDecoder` read to the end. Its output is named, not
/// stated.
#[verifier::external_body]
fn gunzip_member(raw: &[u8]) -> (r: Option<Vec<u8>>)
    ensures
        match r {
            Some(v) => gzip_member_decoded(raw@) == Some(v@),
            None => gzip_member_decoded(raw@) is None,
        },
{
    let mut out = Vec::new();
    match flate2::read::GzDecoder::new(raw).read_to_end(&mut out) {
        Ok(_) => Some(out),
        Err(_) => None,
    }
}

/// A chunk's NBT bytes from its stored form: gzip (1), zlib (2) or stored
/// as is (3); any other compression is not read.
pub open spec fn chunk_data(ctype: u8, raw: Seq<u8>) -> Option<Seq<u8>> {
    if ctype == 1 {
        gzip_member_decoded(raw)
    } else if ctype == 2 {
        zlib_decoded(raw)
    } else if ctype == 3 {
        Some(raw)
    } else {
        None
    }
}

pub fn decode_chunk(ctype: u8, raw: &[u8]) -> (r: Option<Vec<u8>>)
    ensures
        match r {
            Some(v) => chunk_data(ctype, raw@) == Some(v@),
            None => chunk_data(ctype, raw@) is None,
        },
{
    if ctype == 1 {
        gunzip_member(raw)
    } else if ctype == 2 {
        inflate_zlib(raw)
    } else if ctype == 3 {
        let mut v: Vec<u8> = Vec::new();
        let mut i: usize = 0;
        while i < raw.len()
            invariant
                i <= raw@.len(),
                v@ == raw@.take(i as int),
            decreases raw.len() - i,
        {
            v.push(raw[i]);
            i += 1;
            assert(v@ =~= raw@.take(i as int));
        }
        assert(raw@.take(i as int) =~= raw@);
        Some(v)
    } else {
        None
    }
}

/// The container records of the first `n` block entities.
pub open spec fn containers_in(
    l: Seq<NbtV>,
    n: int,
    dim: Seq<char>,
    targets: Seq<String>,
    vaults: Seq<String>,
) -> Seq<NbtV>
    decreases n,
{
    if n <= 0 {
        seq![]
    } else {
        let p = containers_in(l, n - 1, dim, targets, vaults);
        match container_of(l[n - 1], dim, targets, vaults) {
            Some(c) => p.push(c),
            None => p,
        }
    }
}

/// The container records of a decoded chunk: from its `block_entities` list.
pub open spec fn chunk_containers_of(
    v: NbtV,
    dim: Seq<char>,
    targets: Seq<String>,
    vaults: Seq<String>,
) -> Seq<NbtV> {
    match opt_list(get_spec(v, "block_entities"@)) {
        Some(l) => containers_in(l, l.len() as int, dim, targets, vaults),
        None => seq![],
    }
}

/// The container records found in a chunk's NBT bytes, none when fastnbt
/// cannot decode them.
pub fn chunk_containers(chunk: &[u8], dim: &str, targets: &[String], vaults: &[String]) -> (r: Vec<
    Nbt,
>)
    ensures
        match nbt_read(chunk@) {
            Ok(t) => exists|v: NbtV|
                tree(v) == t && nbts_view(r@) == chunk_containers_of(v, dim@, targets@, vaults@),
            Err(_) => r@.len() == 0,
        },
{
    let mut out: Vec<Nbt> = Vec::new();
    let root = match decode_nbt(chunk) {
        Ok(v) => v,
        Err(_) => {
            return out;
        },
    };
    let list = match get(&root, "block_entities") {
        Some(x) => as_list(x),
        None => None,
    };
    proof {
        lemma_nbts_view(out@);
    }
    if let Some(l) = list {
        proof {
            lemma_nbts_view(l@);
        }
        let ghost lv = nbts_view(l@);
        let mut i: usize = 0;
        while i < l.len()
            invariant
                lv == nbts_view(l@),
                lv.len() == l@.len(),
                forall|k: int| 0 <= k < l@.len() ==> #[trigger] lv[k] == l@[k]@,
                i <= l@.len(),
                nbts_view(out@) == containers_in(lv, i as int, dim@, targets@, vaults@),
            decreases l.len() - i,
        {
            if let Some(c) = extract_container(&l[i], dim, targets, vaults) {
                proof {
                    lemma_nbts_view(out@);
                }
                out.push(c);
                proof {
                    lemma_nbts_view(out@);
                    assert(nbts_view(out@) =~= containers_in(lv, i as int, dim@, targets@, vaults@).push(
                        c@,
                    ));
                }
            }
            i += 1;
        }
    }
    assert(tree(root@) == tree(root@));
    out
}

// ---------------------------------------------------------------------------
// Scanning a chunk's NBT bytes without decoding all of it.

/// The name `block_entities`, as bytes.
pub open spec fn block_entities_name() -> Seq<u8> {
    seq![0x62u8, 0x6c, 0x6f, 0x63, 0x6b, 0x5f, 0x65, 0x6e, 0x74, 0x69, 0x74, 0x69, 0x65, 0x73]
}

/// The name `id`, as bytes.
pub open spec fn id_name() -> Seq<u8> {
    seq![0x69u8, 0x64]
}

/// Walking the root compound's entries from `i`: where the payload of the
/// list tag named `block_entities` starts.
pub open spec fn be_list_from(b: Seq<u8>, i: int) -> Option<int>
    decreases left(b, i),
{
    if !(0 <= i < b.len()) {
        None
    } else {
        let t = b[i];
        if t == 0 {
            None
        } else {
            match rd_u16(b, i + 1) {
                None => None,
                Some(nl) => {
                    let s = i + 3;
                    if s + nl > b.len() {
                        None
                    } else {
                        let p = s + nl;
                        if t == 9 && b.subrange(s, p) == block_entities_name() {
                            Some(p)
                        } else {
                            match payload_end(b, p, t) {
                                Some(e) => if i < e {
                                    be_list_from(b, e)
                                } else {
                                    None
                                },
                                None => None,
                            }
                        }
                    }
                },
            }
        }
    }
}

/// Walking a compound body from `i`: where it ends, and the byte range of the
/// text of its last string entry named `id`.
pub open spec fn entity_walk(b: Seq<u8>, i: int, span: Option<(int, int)>) -> Option<
    (int, Option<(int, int)>),
>
    decreases left(b, i),
{
    if !(0 <= i < b.len()) {
        None
    } else {
        let t = b[i];
        if t == 0 {
            Some((i + 1, span))
        } else {
            match rd_u16(b, i + 1) {
                None => None,
                Some(nl) => {
                    let s = i + 3;
                    if s + nl > b.len() {
                        None
                    } else {
                        let p = s + nl;
                        if t == 8 && b.subrange(s, p) == id_name() {
                            match rd_u16(b, p) {
                                None => None,
                                Some(sl) => if p + 2 + sl > b.len() {
                                    None
                                } else {
                                    entity_walk(b, p + 2 + sl, Some((p + 2, p + 2 + sl)))
                                },
                            }
                        } else {
                            match payload_end(b, p, t) {
                                Some(e) => if i < e {
                                    entity_walk(b, e, span)
                                } else {
                                    None
                                },
                                None => None,
                            }
                        }
                    }
                },
            }
        }
    }
}

/// What `std::str::from_utf8` makes of some bytes: their text, or none when
/// they are not UTF-8.
pub open spec fn utf8_text(bytes: Seq<u8>) -> Option<Seq<char>> {
    if vstd::utf8::valid_utf8(bytes) {
        Some(vstd::utf8::decode_utf8(bytes))
    } else {
        None
    }
}

/// `std::str::from_utf8` on `b[s..e]`: the text the bytes encode, or none
/// when they are not valid UTF-8.
#[verifier::external_body]
fn utf8_at(b: &[u8], s: usize, e: usize) -> (r: Option<String>)
    requires
        s <= e <= b@.len(),
    ensures
        match r {
            Some(t) => utf8_text(b@.subrange(s as int, e as int)) == Some(t@),
            None => utf8_text(b@.subrange(s as int, e as int)) is None,
        },
{
    match std::str::from_utf8(&b[s..e]) {
        Ok(t) => Some(t.to_string()),
        Err(_) => None,
    }
}

/// The id range names a target or a vault.
pub open spec fn entity_hit(
    b: Seq<u8>,
    span: Option<(int, int)>,
    targets: Seq<String>,
    vaults: Seq<String>,
) -> bool {
    match span {
        Some((s, e)) => match utf8_text(b.subrange(s, e)) {
            Some(id) => listed(targets, id) || listed(vaults, id),
            None => false,
        },
        None => false,
    }
}

/// A compound body as a document of its own: a root compound tag with an
/// empty name before it.
pub open spec fn span_doc(b: Seq<u8>, s: int, e: int) -> Seq<u8> {
    seq![10u8, 0, 0] + b.subrange(s, e)
}

/// `out` is what the scan finds among block entities `k` to `n` of the list
/// whose next element starts at `i`: each is walked; one whose id is wanted
/// is decoded on its own and kept if it is a container (see `container_of`,
/// for some order of its entries); the scan stops at the first element that
/// cannot be walked.
pub open spec fn entities_found(
    b: Seq<u8>,
    i: int,
    k: int,
    n: int,
    dim: Seq<char>,
    targets: Seq<String>,
    vaults: Seq<String>,
    out: Seq<NbtV>,
) -> bool
    decreases n - k,
{
    if k >= n {
        out.len() == 0
    } else {
        match entity_walk(b, i, None) {
            None => out.len() == 0,
            Some((end, span)) => if entity_hit(b, span, targets, vaults) {
                match nbt_read(span_doc(b, i, end)) {
                    Ok(t) => exists|v: NbtV|
                        #![trigger tree(v)]
                        tree(v) == t && match container_of(v, dim, targets, vaults) {
                            Some(c) => out.len() > 0 && out[0] == c && entities_found(
                                b,
                                end,
                                k + 1,
                                n,
                                dim,
                                targets,
                                vaults,
                                out.drop_first(),
                            ),
                            None => entities_found(b, end, k + 1, n, dim, targets, vaults, out),
                        },
                    Err(_) => entities_found(b, end, k + 1, n, dim, targets, vaults, out),
                }
            } else {
                entities_found(b, end, k + 1, n, dim, targets, vaults, out)
            },
        }
    }
}

/// `out` is what scanning a chunk's NBT bytes finds: the elements of its
/// root's `block_entities` list of compounds (see `entities_found`).
pub open spec fn chunk_scan_ok(
    b: Seq<u8>,
    dim: Seq<char>,
    targets: Seq<String>,
    vaults: Seq<String>,
    out: Seq<NbtV>,
) -> bool {
    if b.len() == 0 || b[0] != 10 {
        out.len() == 0
    } else {
        match rd_u16(b, 1) {
            None => out.len() == 0,
            Some(rn) => match be_list_from(b, 3 + rn) {
                None => out.len() == 0,
                Some(p) => if p < b.len() && b[p] == 10 {
                    match rd_i32(b, p + 1) {
                        Some(n) => entities_found(b, p + 5, 0, n, dim, targets, vaults, out),
                        None => out.len() == 0,
                    }
                } else {
                    out.len() == 0
                },
            },
        }
    }
}

fn names_equal(b: &[u8], s: usize, name: &[u8]) -> (r: bool)
    requires
        s + name@.len() <= b@.len(),
    ensures
        r == (b@.subrange(s as int, s + name@.len()) == name@),
{
    let mut k: usize = 0;
    let bl = b.len();
    while k < name.len()
        invariant
            k <= name@.len(),
            bl == b@.len(),
            s + name@.len() <= b@.len(),
            forall|m: int| 0 <= m < k ==> b@[s + m] == name@[m],
        decreases name.len() - k,
    {
        if b[s + k] != name[k] {
            assert(b@.subrange(s as int, s + name@.len())[k as int] != name@[k as int]);
            return false;
        }
        k += 1;
    }
    assert(b@.subrange(s as int, s + name@.len()) =~= name@);
    true
}

/// Walks a block entity's compound body from `i` (see `entity_walk`).
fn walk_block_entity(b: &[u8], i: usize) -> (r: Option<(usize, Option<(usize, usize)>)>)
    ensures
        match r {
            Some((end, span)) => entity_walk(b@, i as int, None) == Some(
                (
                    end as int,
                    match span {
                        Some((s, e)) => Some((s as int, e as int)),
                        None => None,
                    },
                ),
            ) && i < end <= b@.len() && match span {
                Some((s, e)) => s <= e <= b@.len(),
                None => true,
            },
            None => entity_walk(b@, i as int, None) is None,
        },
{
    let idn: [u8; 2] = [0x69, 0x64];
    assert(idn@ =~= id_name());
    let mut j: usize = i;
    let mut span: Option<(usize, usize)> = None;
    loop
        invariant
            idn@ == id_name(),
            i <= j,
            match span {
                Some((s, e)) => s <= e <= b@.len(),
                None => true,
            },
            entity_walk(b@, i as int, None) == entity_walk(
                b@,
                j as int,
                match span {
                    Some((s, e)) => Some((s as int, e as int)),
                    None => None,
                },
            ),
        decreases left(b@, j as int),
    {
        if j >= b.len() {
            return None;
        }
        let t = b[j];
        if t == 0 {
            return Some((j + 1, span));
        }
        let nl = match read_u16(b, j + 1) {
            Some(v) => v,
            None => {
                return None;
            },
        };
        let s = j + 3;
        if nl > b.len() - s {
            return None;
        }
        let p = s + nl;
        if t == 8 && nl == 2 && names_equal(b, s, &idn) {
            let sl = match read_u16(b, p) {
                Some(v) => v,
                None => {
                    return None;
                },
            };
            if sl > b.len() - (p + 2) {
                return None;
            }
            span = Some((p + 2, p + 2 + sl));
            j = p + 2 + sl;
        } else {
            proof {
                if b@.subrange(s as int, s + nl) == id_name() {
                    assert(b@.subrange(s as int, s + nl).len() == 2);
                }
            }
            match skip_payload(b, p, t) {
                Some(e) => {
                    j = e;
                },
                None => {
                    return None;
                },
            }
        }
    }
}

/// Decodes a compound body on its own (see `span_doc`).
fn parse_span(b: &[u8], s: usize, e: usize) -> (r: Option<Nbt>)
    requires
        s <= e <= b@.len(),
    ensures
        match r {
            Some(v) => nbt_read(span_doc(b@, s as int, e as int)) == Ok::<NbtTree, Seq<char>>(
                tree(v@),
            ),
            None => nbt_read(span_doc(b@, s as int, e as int)) is Err,
        },
{
    let mut buf: Vec<u8> = Vec::new();
    buf.push(10);
    buf.push(0);
    buf.push(0);
    let mut k: usize = s;
    while k < e
        invariant
            s <= k <= e <= b@.len(),
            buf@ == seq![10u8, 0, 0] + b@.subrange(s as int, k as int),
        decreases e - k,
    {
        buf.push(b[k]);
        k += 1;
        assert(buf@ =~= seq![10u8, 0, 0] + b@.subrange(s as int, k as int));
    }
    match decode_nbt(&buf) {
        Ok(v) => Some(v),
        Err(_) => None,
    }
}

/// What one element of the list gives: the element walked to `end` and,
/// when its id is wanted and it decodes, the container it is (for some order
/// of its entries).
pub open spec fn one_found(
    b: Seq<u8>,
    j: int,
    end: int,
    dim: Seq<char>,
    targets: Seq<String>,
    vaults: Seq<String>,
    c: Option<NbtV>,
) -> bool {
    match entity_walk(b, j, None) {
        Some((e2, sp)) => e2 == end && if entity_hit(b, sp, targets, vaults) && nbt_read(
            span_doc(b, j, end),
        ) is Ok {
            exists|v: NbtV|
                #![trigger tree(v)]
                Ok::<NbtTree, Seq<char>>(tree(v)) == nbt_read(span_doc(b, j, end)) && c
                    == container_of(v, dim, targets, vaults)
        } else {
            c is None
        },
        None => false,
    }
}

proof fn lemma_found_step(
    b: Seq<u8>,
    j: int,
    k: int,
    n: int,
    dim: Seq<char>,
    targets: Seq<String>,
    vaults: Seq<String>,
    end: int,
    c: Option<NbtV>,
    s2: Seq<NbtV>,
)
    requires
        k < n,
        one_found(b, j, end, dim, targets, vaults, c),
        entities_found(b, end, k + 1, n, dim, targets, vaults, s2),
    ensures
        entities_found(
            b,
            j,
            k,
            n,
            dim,
            targets,
            vaults,
            match c {
                Some(x) => seq![x] + s2,
                None => s2,
            },
        ),
{
    let whole = match c {
        Some(x) => seq![x] + s2,
        None => s2,
    };
    let sp = entity_walk(b, j, None).unwrap().1;
    if entity_hit(b, sp, targets, vaults) && nbt_read(span_doc(b, j, end)) is Ok {
        let v = choose|v: NbtV|
            Ok::<NbtTree, Seq<char>>(tree(v)) == nbt_read(span_doc(b, j, end)) && c == container_of(
                v,
                dim,
                targets,
                vaults,
            );
        if let Some(x) = c {
            assert(whole.drop_first() =~= s2);
        }
        assert(tree(v) == nbt_read(span_doc(b, j, end))->Ok_0);
    }
}

/// Walks one element of the block entity list and decodes it when its id is
/// wanted (see `one_found`).
fn scan_one(b: &[u8], j: usize, dim: &str, targets: &[String], vaults: &[String]) -> (r: Option<
    (usize, Option<Nbt>),
>)
    ensures
        match r {
            Some((end, found)) => one_found(
                b@,
                j as int,
                end as int,
                dim@,
                targets@,
                vaults@,
                opt_nbt(found),
            ),
            None => entity_walk(b@, j as int, None) is None,
        },
{
    let (end, id_span) = match walk_block_entity(b, j) {
        Some(x) => x,
        None => {
            return None;
        },
    };
    let ghost sp = match id_span {
        Some((s, e)) => Some((s as int, e as int)),
        None => None,
    };
    let mut hit = false;
    if let Some((s, e)) = id_span {
        if let Some(id) = utf8_at(b, s, e) {
            if is_listed(targets, id.as_str()) || is_listed(vaults, id.as_str()) {
                hit = true;
            }
        }
    }
    assert(hit == entity_hit(b@, sp, targets@, vaults@));
    assert(entity_walk(b@, j as int, None) == Some((end as int, sp)));
    if !hit {
        assert(one_found(b@, j as int, end as int, dim@, targets@, vaults@, None));
        return Some((end, None));
    }
    match parse_span(b, j, end) {
        Some(v) => {
            let found = extract_container(&v, dim, targets, vaults);
            assert(tree(v@) == tree(v@));
            assert(Ok::<NbtTree, Seq<char>>(tree(v@)) == nbt_read(span_doc(b@, j as int, end as int)));
            assert(one_found(b@, j as int, end as int, dim@, targets@, vaults@, opt_nbt(found)));
            Some((end, found))
        },
        None => {
            assert(one_found(b@, j as int, end as int, dim@, targets@, vaults@, None));
            Some((end, None))
        },
    }
}

/// The container records found by scanning a chunk's NBT bytes for its
/// block entities (see `chunk_scan_ok`).
pub fn scan_chunk(b: &[u8], dim: &str, targets: &[String], vaults: &[String]) -> (r: Vec<Nbt>)
    ensures
        chunk_scan_ok(b@, dim@, targets@, vaults@, nbts_view(r@)),
{
    let mut out: Vec<Nbt> = Vec::new();
    proof {
        lemma_nbts_view(out@);
    }
    if b.len() == 0 || b[0] != 10 {
        return out;
    }
    let root_name = match read_u16(b, 1) {
        Some(v) => v,
        None => {
            return out;
        },
    };
    let names: [u8; 14] = [
        0x62,
        0x6c,
        0x6f,
        0x63,
        0x6b,
        0x5f,
        0x65,
        0x6e,
        0x74,
        0x69,
        0x74,
        0x69,
        0x65,
        0x73,
    ];
    assert(names@ =~= block_entities_name());
    let mut i: usize = 3 + root_name;
    loop
        invariant_except_break
            names@ == block_entities_name(),
            be_list_from(b@, i as int) == be_list_from(b@, 3 + root_name),
            out@.len() == 0,
            nbts_view(out@).len() == 0,
            b@.len() > 0,
            b@[0] == 10,
            rd_u16(b@, 1) == Some(root_name as int),
        ensures
            be_list_from(b@, 3 + root_name) == Some(i as int),
        decreases left(b@, i as int),
    {
        if i >= b.len() {
            return out;
        }
        let t = b[i];
        if t == 0 {
            return out;
        }
        let nl = match read_u16(b, i + 1) {
            Some(v) => v,
            None => {
                return out;
            },
        };
        let s = i + 3;
        if nl > b.len() - s {
            return out;
        }
        let q = s + nl;
        if t == 9 && nl == 14 && names_equal(b, s, &names) {
            i = q;
            break;
        }
        proof {
            if b@.subrange(s as int, s + nl) == block_entities_name() {
                assert(b@.subrange(s as int, s + nl).len() == 14);
            }
        }
        match skip_payload(b, q, t) {
            Some(e) => {
                i = e;
            },
            None => {
                return out;
            },
        }
    }
    let p = i;
    if p >= b.len() || b[p] != 10 {
        return out;
    }
    let n = match read_i32(b, p + 1) {
        Some(v) => v,
        None => {
            return out;
        },
    };
    if p > b.len() - 5 {
        proof {
            assert(rd_i32(b@, p + 1) is None);
        }
        return out;
    }
    let mut j: usize = p + 5;
    let mut k: i64 = 0;
    let ghost i0 = (p + 5) as int;
    assert forall|s2: Seq<NbtV>|
        #![trigger entities_found(b@, i0, 0, n as int, dim@, targets@, vaults@, s2)]
        entities_found(b@, i0, 0, n as int, dim@, targets@, vaults@, s2) implies entities_found(
            b@,
            i0,
            0,
            n as int,
            dim@,
            targets@,
            vaults@,
            nbts_view(out@) + s2,
        ) by {
        assert(nbts_view(out@) + s2 =~= s2);
    }
    while k < n
        invariant
            0 <= k,
            k <= n || k == 0,
            i0 == p + 5,
            b@.len() > 0,
            b@[0] == 10,
            rd_u16(b@, 1) == Some(root_name as int),
            be_list_from(b@, 3 + root_name) == Some(p as int),
            p < b@.len(),
            b@[p as int] == 10,
            rd_i32(b@, p + 1) == Some(n as int),
            forall|s2: Seq<NbtV>|
                #![trigger entities_found(b@, j as int, k as int, n as int, dim@, targets@, vaults@, s2)]
                entities_found(b@, j as int, k as int, n as int, dim@, targets@, vaults@, s2)
                    ==> entities_found(
                    b@,
                    i0,
                    0,
                    n as int,
                    dim@,
                    targets@,
                    vaults@,
                    nbts_view(out@) + s2,
                ),
        decreases n - k,
    {
        let step = scan_one(b, j, dim, targets, vaults);
        match step {
            None => {
                proof {
                    assert(entities_found(b@, j as int, k as int, n as int, dim@, targets@, vaults@, seq![]));
                    assert(nbts_view(out@) + seq![] =~= nbts_view(out@));
                }
                return out;
            },
            Some((end, found)) => {
                let ghost before = nbts_view(out@);
                let ghost fv = opt_nbt(found);
                proof {
                    assert forall|s2: Seq<NbtV>|
                        #![trigger entities_found(b@, end as int, k + 1, n as int, dim@, targets@, vaults@, s2)]
                        entities_found(b@, end as int, k + 1, n as int, dim@, targets@, vaults@, s2)
                            implies entities_found(
                            b@,
                            i0,
                            0,
                            n as int,
                            dim@,
                            targets@,
                            vaults@,
                            before + match fv {
                                Some(c) => seq![c] + s2,
                                None => s2,
                            },
                        ) by {
                        lemma_found_step(b@, j as int, k as int, n as int, dim@, targets@, vaults@, end as int, fv, s2);
                    }
                    lemma_nbts_view(out@);
                }
                if let Some(c) = found {
                    out.push(c);
                    proof {
                        lemma_nbts_view(out@);
                        assert(nbts_view(out@) =~= before.push(c@));
                        assert forall|s2: Seq<NbtV>| before + (seq![c@] + s2) == nbts_view(out@) + s2 by {
                            assert(before + (seq![c@] + s2) =~= nbts_view(out@) + s2);
                        }
                    }
                }
                j = end;
                k = k + 1;
            },
        }
    }
    proof {
        assert(entities_found(b@, j as int, k as int, n as int, dim@, targets@, vaults@, seq![]));
        assert(nbts_view(out@) + seq![] =~= nbts_view(out@));
    }
    out
}

} // verus!
