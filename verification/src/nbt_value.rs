//! NBT values as the library reads them: a tree of numbers, strings, arrays,
//! lists and compounds. Decoding the binary format is fastnbt's work.
use vstd::prelude::*;
use crate::text::copy_str;

verus! {

/// An NBT value. A floating-point payload is kept as its IEEE-754 bits
/// together with the text that Rust's `Display` gives it; a compound keeps
/// its entries in the order in which they were read.
#[derive(Debug)]
pub enum Nbt {
    Byte(i8),
    Short(i16),
    Int(i32),
    Long(i64),
    Float(u32, String),
    Double(u64, String),
    String(String),
    ByteArray(Vec<i8>),
    IntArray(Vec<i32>),
    LongArray(Vec<i64>),
    List(Vec<Nbt>),
    Compound(Vec<(String, Nbt)>),
}

/// The mathematical form of an NBT value, entries in order.
pub enum NbtV {
    Byte(i8),
    Short(i16),
    Int(i32),
    Long(i64),
    Float(u32, Seq<char>),
    Double(u64, Seq<char>),
    String(Seq<char>),
    ByteArray(Seq<i8>),
    IntArray(Seq<i32>),
    LongArray(Seq<i64>),
    List(Seq<NbtV>),
    Compound(Seq<(Seq<char>, NbtV)>),
}

/// An NBT value up to the order of compound entries.
pub enum NbtTree {
    Byte(i8),
    Short(i16),
    Int(i32),
    Long(i64),
    Float(u32, Seq<char>),
    Double(u64, Seq<char>),
    String(Seq<char>),
    ByteArray(Seq<i8>),
    IntArray(Seq<i32>),
    LongArray(Seq<i64>),
    List(Seq<NbtTree>),
    Compound(Map<Seq<char>, NbtTree>),
}

pub open spec fn nbt_view(v: Nbt) -> NbtV
    decreases v,
{
    match v {
        Nbt::Byte(x) => NbtV::Byte(x),
        Nbt::Short(x) => NbtV::Short(x),
        Nbt::Int(x) => NbtV::Int(x),
        Nbt::Long(x) => NbtV::Long(x),
        Nbt::Float(x, t) => NbtV::Float(x, t@),
        Nbt::Double(x, t) => NbtV::Double(x, t@),
        Nbt::String(s) => NbtV::String(s@),
        Nbt::ByteArray(a) => NbtV::ByteArray(a@),
        Nbt::IntArray(a) => NbtV::IntArray(a@),
        Nbt::LongArray(a) => NbtV::LongArray(a@),
        Nbt::List(l) => NbtV::List(nbts_view(l@)),
        Nbt::Compound(c) => NbtV::Compound(entries_view(c@)),
    }
}

pub open spec fn nbts_view(s: Seq<Nbt>) -> Seq<NbtV>
    decreases s,
{
    if s.len() == 0 {
        seq![]
    } else {
        nbts_view(s.drop_last()).push(nbt_view(s.last()))
    }
}

pub open spec fn entries_view(s: Seq<(String, Nbt)>) -> Seq<(Seq<char>, NbtV)>
    decreases s,
{
    if s.len() == 0 {
        seq![]
    } else {
        entries_view(s.drop_last()).push((s.last().0@, nbt_view(s.last().1)))
    }
}

impl View for Nbt {
    type V = NbtV;

    open spec fn view(&self) -> NbtV {
        nbt_view(*self)
    }
}

pub proof fn lemma_nbts_view(s: Seq<Nbt>)
    ensures
        nbts_view(s).len() == s.len(),
        forall|i: int| 0 <= i < s.len() ==> #[trigger] nbts_view(s)[i] == nbt_view(s[i]),
    decreases s.len(),
{
    if s.len() > 0 {
        lemma_nbts_view(s.drop_last());
    }
}

pub proof fn lemma_entries_view(s: Seq<(String, Nbt)>)
    ensures
        entries_view(s).len() == s.len(),
        forall|i: int|
            0 <= i < s.len() ==> #[trigger] entries_view(s)[i] == (s[i].0@, nbt_view(s[i].1)),
    decreases s.len(),
{
    if s.len() > 0 {
        lemma_entries_view(s.drop_last());
    }
}

/// No compound inside the value repeats a key.
pub open spec fn distinct_deep(v: NbtV) -> bool
    decreases v,
{
    match v {
        NbtV::List(l) => forall|i: int| 0 <= i < l.len() ==> distinct_deep(#[trigger] l[i]),
        NbtV::Compound(c) => (forall|i: int, j: int|
            0 <= i < j < c.len() ==> (#[trigger] c[i]).0 != (#[trigger] c[j]).0) && (forall|i: int|
            0 <= i < c.len() ==> distinct_deep((#[trigger] c[i]).1)),
        _ => true,
    }
}

/// Forgets the order of compound entries.
pub open spec fn tree(v: NbtV) -> NbtTree
    decreases v,
{
    match v {
        NbtV::Byte(x) => NbtTree::Byte(x),
        NbtV::Short(x) => NbtTree::Short(x),
        NbtV::Int(x) => NbtTree::Int(x),
        NbtV::Long(x) => NbtTree::Long(x),
        NbtV::Float(x, t) => NbtTree::Float(x, t),
        NbtV::Double(x, t) => NbtTree::Double(x, t),
        NbtV::String(s) => NbtTree::String(s),
        NbtV::ByteArray(a) => NbtTree::ByteArray(a),
        NbtV::IntArray(a) => NbtTree::IntArray(a),
        NbtV::LongArray(a) => NbtTree::LongArray(a),
        NbtV::List(l) => NbtTree::List(trees(l)),
        NbtV::Compound(c) => NbtTree::Compound(entries_map(c)),
    }
}

pub open spec fn trees(s: Seq<NbtV>) -> Seq<NbtTree>
    decreases s,
{
    if s.len() == 0 {
        seq![]
    } else {
        trees(s.drop_last()).push(tree(s.last()))
    }
}

pub open spec fn entries_map(s: Seq<(Seq<char>, NbtV)>) -> Map<Seq<char>, NbtTree>
    decreases s,
{
    if s.len() == 0 {
        Map::empty()
    } else {
        entries_map(s.drop_last()).insert(s.last().0, tree(s.last().1))
    }
}

/// The value under `k` in a compound's entries (the first such entry).
pub open spec fn lookup(s: Seq<(Seq<char>, NbtV)>, k: Seq<char>) -> Option<NbtV>
    decreases s.len(),
{
    if s.len() == 0 {
        None
    } else if s[0].0 == k {
        Some(s[0].1)
    } else {
        lookup(s.drop_first(), k)
    }
}

/// The nesting depth of a value (1 for a leaf).
pub open spec fn height(v: NbtV) -> nat
    decreases v,
{
    match v {
        NbtV::List(l) => 1 + heights(l),
        NbtV::Compound(c) => 1 + entry_heights(c),
        _ => 1,
    }
}

pub open spec fn heights(s: Seq<NbtV>) -> nat
    decreases s,
{
    if s.len() == 0 {
        0
    } else {
        let a = heights(s.drop_last());
        let b = height(s.last());
        if a >= b {
            a
        } else {
            b
        }
    }
}

pub open spec fn entry_heights(s: Seq<(Seq<char>, NbtV)>) -> nat
    decreases s,
{
    if s.len() == 0 {
        0
    } else {
        let a = entry_heights(s.drop_last());
        let b = height(s.last().1);
        if a >= b {
            a
        } else {
            b
        }
    }
}

pub proof fn lemma_heights(s: Seq<NbtV>, i: int)
    requires
        0 <= i < s.len(),
    ensures
        height(s[i]) <= heights(s),
    decreases s.len(),
{
    if i < s.len() - 1 {
        lemma_heights(s.drop_last(), i);
    }
}

pub proof fn lemma_entry_heights(s: Seq<(Seq<char>, NbtV)>, i: int)
    requires
        0 <= i < s.len(),
    ensures
        height(s[i].1) <= entry_heights(s),
    decreases s.len(),
{
    if i < s.len() - 1 {
        lemma_entry_heights(s.drop_last(), i);
    }
}

/// The elements of a list are lower than the list.
pub proof fn lemma_list_lower(l: Seq<NbtV>, i: int)
    requires
        0 <= i < l.len(),
    ensures
        height(l[i]) < height(NbtV::List(l)),
{
    lemma_heights(l, i);
}

/// `lookup` finds one of the entries.
pub proof fn lemma_lookup_index(s: Seq<(Seq<char>, NbtV)>, k: Seq<char>)
    ensures
        lookup(s, k) matches Some(x) ==> exists|i: int| 0 <= i < s.len() && s[i].1 == x,
    decreases s.len(),
{
    if s.len() > 0 && s[0].0 != k {
        lemma_lookup_index(s.drop_first(), k);
        if let Some(x) = lookup(s, k) {
            let i = choose|i: int| 0 <= i < s.drop_first().len() && s.drop_first()[i].1 == x;
            assert(s[i + 1].1 == x);
        }
    }
}

/// What `get_spec` finds is lower than the compound.
pub proof fn lemma_get_lower(v: NbtV, k: Seq<char>)
    ensures
        get_spec(v, k) matches Some(x) ==> height(x) < height(v),
{
    if let NbtV::Compound(s) = v {
        lemma_lookup_index(s, k);
        if let Some(x) = lookup(s, k) {
            let i = choose|i: int| 0 <= i < s.len() && s[i].1 == x;
            lemma_entry_heights(s, i);
        }
    }
}

pub proof fn lemma_trees(s: Seq<NbtV>)
    ensures
        trees(s).len() == s.len(),
        forall|i: int| 0 <= i < s.len() ==> #[trigger] trees(s)[i] == tree(s[i]),
    decreases s.len(),
{
    if s.len() > 0 {
        lemma_trees(s.drop_last());
    }
}

pub open spec fn keys_distinct(s: Seq<(Seq<char>, NbtV)>) -> bool {
    forall|i: int, j: int| 0 <= i < j < s.len() ==> (#[trigger] s[i]).0 != (#[trigger] s[j]).0
}

proof fn lemma_lookup_at(s: Seq<(Seq<char>, NbtV)>, k: Seq<char>, i: int)
    requires
        keys_distinct(s),
        0 <= i < s.len(),
        s[i].0 == k,
    ensures
        lookup(s, k) == Some(s[i].1),
    decreases i,
{
    if i > 0 {
        assert(s[0].0 != s[i].0);
        let t = s.drop_first();
        assert forall|a: int, b: int| 0 <= a < b < t.len() implies (#[trigger] t[a]).0 != (
        #[trigger] t[b]).0 by {
            assert(t[a] == s[a + 1] && t[b] == s[b + 1]);
        }
        assert(t[i - 1] == s[i]);
        lemma_lookup_at(t, k, i - 1);
    }
}

proof fn lemma_lookup_none(s: Seq<(Seq<char>, NbtV)>, k: Seq<char>)
    requires
        forall|i: int| 0 <= i < s.len() ==> (#[trigger] s[i]).0 != k,
    ensures
        lookup(s, k) is None,
    decreases s.len(),
{
    if s.len() > 0 {
        let t = s.drop_first();
        assert forall|i: int| 0 <= i < t.len() implies (#[trigger] t[i]).0 != k by {
            assert(t[i] == s[i + 1]);
        }
        lemma_lookup_none(t, k);
    }
}

proof fn lemma_map_at(s: Seq<(Seq<char>, NbtV)>, k: Seq<char>, i: int)
    requires
        keys_distinct(s),
        0 <= i < s.len(),
        s[i].0 == k,
    ensures
        entries_map(s).dom().contains(k),
        entries_map(s)[k] == tree(s[i].1),
    decreases s.len(),
{
    if i < s.len() - 1 {
        let t = s.drop_last();
        assert(s.last().0 != s[i].0);
        assert forall|a: int, b: int| 0 <= a < b < t.len() implies (#[trigger] t[a]).0 != (
        #[trigger] t[b]).0 by {
            assert(t[a] == s[a] && t[b] == s[b]);
        }
        lemma_map_at(t, k, i);
    }
}

proof fn lemma_map_none(s: Seq<(Seq<char>, NbtV)>, k: Seq<char>)
    requires
        forall|i: int| 0 <= i < s.len() ==> (#[trigger] s[i]).0 != k,
    ensures
        !entries_map(s).dom().contains(k),
    decreases s.len(),
{
    if s.len() > 0 {
        let t = s.drop_last();
        assert forall|i: int| 0 <= i < t.len() implies (#[trigger] t[i]).0 != k by {
            assert(t[i] == s[i]);
        }
        lemma_map_none(t, k);
    }
}

/// Two values alike up to the order of compound entries, with no repeated
/// keys, hold alike values under each key.
pub proof fn lemma_get_alike(v1: NbtV, v2: NbtV, k: Seq<char>)
    requires
        tree(v1) == tree(v2),
        distinct_deep(v1),
        distinct_deep(v2),
    ensures
        (get_spec(v1, k) is Some) == (get_spec(v2, k) is Some),
        get_spec(v1, k) matches Some(x1) ==> (get_spec(v2, k) matches Some(x2) && tree(x1) == tree(
            x2,
        ) && distinct_deep(x1) && distinct_deep(x2)),
{
    match v1 {
        NbtV::Compound(c1) => {
            let c2 = v2->Compound_0;
            assert(v2 is Compound);
            assert(entries_map(c1) == entries_map(c2));
            assert(keys_distinct(c1));
            assert(keys_distinct(c2));
            if exists|i: int| 0 <= i < c1.len() && c1[i].0 == k {
                let i = choose|i: int| 0 <= i < c1.len() && c1[i].0 == k;
                lemma_lookup_at(c1, k, i);
                lemma_map_at(c1, k, i);
                if forall|j: int| 0 <= j < c2.len() ==> (#[trigger] c2[j]).0 != k {
                    lemma_map_none(c2, k);
                }
                let j = choose|j: int| 0 <= j < c2.len() && c2[j].0 == k;
                lemma_lookup_at(c2, k, j);
                lemma_map_at(c2, k, j);
                assert(distinct_deep(c1[i].1));
                assert(distinct_deep(c2[j].1));
            } else {
                lemma_lookup_none(c1, k);
                lemma_map_none(c1, k);
                if exists|j: int| 0 <= j < c2.len() && c2[j].0 == k {
                    let j = choose|j: int| 0 <= j < c2.len() && c2[j].0 == k;
                    lemma_map_at(c2, k, j);
                }
                lemma_lookup_none(c2, k);
            }
        },
        _ => {
            assert(!(v2 is Compound));
        },
    }
}

/// A list alike up to the order of compound entries is a list of as many
/// alike elements.
pub proof fn lemma_list_alike(v1: NbtV, v2: NbtV)
    requires
        tree(v1) == tree(v2),
        distinct_deep(v1),
        distinct_deep(v2),
    ensures
        (list_of(v1) is Some) == (list_of(v2) is Some),
        list_of(v1) matches Some(l1) ==> (list_of(v2) matches Some(l2) && l1.len() == l2.len()
            && forall|i: int|
            0 <= i < l1.len() ==> tree(#[trigger] l1[i]) == tree(l2[i]) && distinct_deep(l1[i])
                && distinct_deep(l2[i])),
{
    if let NbtV::List(l1) = v1 {
        assert(v2 is List);
        let l2 = v2->List_0;
        lemma_trees(l1);
        lemma_trees(l2);
        assert forall|i: int| 0 <= i < l1.len() implies tree(#[trigger] l1[i]) == tree(l2[i])
            && distinct_deep(l1[i]) && distinct_deep(l2[i]) by {
            assert(trees(l1)[i] == trees(l2)[i]);
        }
    } else {
        assert(!(v2 is List));
    }
}

/// Alike values hold the same text under each key.
pub proof fn lemma_str_alike(v1: NbtV, v2: NbtV)
    requires
        tree(v1) == tree(v2),
    ensures
        str_of(v1) == str_of(v2),
{
}

/// The value under `k` when `v` is a compound.
pub open spec fn get_spec(v: NbtV, k: Seq<char>) -> Option<NbtV> {
    match v {
        NbtV::Compound(s) => lookup(s, k),
        _ => None,
    }
}

pub open spec fn opt_view(o: Option<&Nbt>) -> Option<NbtV> {
    match o {
        Some(v) => Some(v@),
        None => None,
    }
}

/// An integer tag's value.
pub open spec fn int_of(v: NbtV) -> Option<i64> {
    match v {
        NbtV::Byte(x) => Some(x as i64),
        NbtV::Short(x) => Some(x as i64),
        NbtV::Int(x) => Some(x as i64),
        NbtV::Long(x) => Some(x),
        _ => None,
    }
}

pub open spec fn opt_int(o: Option<NbtV>) -> Option<i64> {
    match o {
        Some(v) => int_of(v),
        None => None,
    }
}

pub open spec fn str_of(v: NbtV) -> Option<Seq<char>> {
    match v {
        NbtV::String(s) => Some(s),
        _ => None,
    }
}

pub open spec fn opt_str(o: Option<NbtV>) -> Option<Seq<char>> {
    match o {
        Some(v) => str_of(v),
        None => None,
    }
}

pub open spec fn list_of(v: NbtV) -> Option<Seq<NbtV>> {
    match v {
        NbtV::List(l) => Some(l),
        _ => None,
    }
}

pub open spec fn opt_list(o: Option<NbtV>) -> Option<Seq<NbtV>> {
    match o {
        Some(v) => list_of(v),
        None => None,
    }
}

/// The entries of a compound.
pub fn comp(v: &Nbt) -> (r: Option<&Vec<(String, Nbt)>>)
    ensures
        match r {
            Some(c) => v@ == NbtV::Compound(entries_view(c@)),
            None => !(v@ is Compound),
        },
{
    match v {
        Nbt::Compound(m) => Some(m),
        _ => None,
    }
}

/// The value under `key` in a compound.
pub fn get<'a>(v: &'a Nbt, key: &str) -> (r: Option<&'a Nbt>)
    ensures
        opt_view(r) == get_spec(v@, key@),
{
    match v {
        Nbt::Compound(m) => {
            let k = copy_str(key);
            let mut i: usize = 0;
            proof {
                lemma_entries_view(m@);
            }
            let ghost s = entries_view(m@);
            assert(s.skip(0) =~= s);
            assert(v@ == NbtV::Compound(s));
            while i < m.len()
                invariant
                    v@ == NbtV::Compound(s),
                    i <= m@.len(),
                    s == entries_view(m@),
                    s.len() == m@.len(),
                    k@ == key@,
                    forall|j: int|
                        0 <= j < m@.len() ==> #[trigger] s[j] == (m@[j].0@, nbt_view(m@[j].1)),
                    lookup(s, key@) == lookup(s.skip(i as int), key@),
                decreases m.len() - i,
            {
                assert(s.skip(i as int)[0] == s[i as int]);
                assert(s.skip(i as int).drop_first() =~= s.skip(i + 1));
                if m[i].0 == k {
                    assert(s[i as int] == (m@[i as int].0@, nbt_view(m@[i as int].1)));
                    assert(lookup(s.skip(i as int), key@) == Some(nbt_view(m@[i as int].1)));
                    assert(v@ == NbtV::Compound(s));
                    return Some(&m[i].1);
                }
                i += 1;
            }
            assert(s.skip(i as int).len() == 0);
            None
        },
        _ => None,
    }
}

/// The value of an integer tag (byte, short, int or long).
pub fn as_i64(v: &Nbt) -> (r: Option<i64>)
    ensures
        r == int_of(v@),
{
    match v {
        Nbt::Byte(x) => Some(*x as i64),
        Nbt::Short(x) => Some(*x as i64),
        Nbt::Int(x) => Some(*x as i64),
        Nbt::Long(x) => Some(*x),
        _ => None,
    }
}

/// The text of a string tag.
pub fn as_str(v: &Nbt) -> (r: Option<&String>)
    ensures
        match r {
            Some(s) => str_of(v@) == Some(s@),
            None => str_of(v@) is None,
        },
{
    match v {
        Nbt::String(s) => Some(s),
        _ => None,
    }
}

/// The elements of a list tag.
pub fn as_list(v: &Nbt) -> (r: Option<&Vec<Nbt>>)
    ensures
        match r {
            Some(l) => list_of(v@) == Some(nbts_view(l@)),
            None => list_of(v@) is None,
        },
{
    match v {
        Nbt::List(l) => Some(l),
        _ => None,
    }
}

/// An int array, or a list of integer tags each cut to 32 bits.
pub open spec fn int_array_of(v: NbtV) -> Option<Seq<i32>> {
    match v {
        NbtV::IntArray(a) => Some(a),
        NbtV::List(l) => if forall|i: int| 0 <= i < l.len() ==> (#[trigger] int_of(l[i])) is Some {
            Some(Seq::new(l.len(), |i: int| #[verifier::truncate] (int_of(l[i]).unwrap() as i32)))
        } else {
            None
        },
        _ => None,
    }
}

pub fn int_array(v: &Nbt) -> (r: Option<Vec<i32>>)
    ensures
        match r {
            Some(a) => int_array_of(v@) == Some(a@),
            None => int_array_of(v@) is None,
        },
{
    match v {
        Nbt::IntArray(a) => {
            let mut out: Vec<i32> = Vec::new();
            let mut i: usize = 0;
            while i < a.len()
                invariant
                    i <= a@.len(),
                    out@ == a@.take(i as int),
                decreases a.len() - i,
            {
                out.push(a[i]);
                i += 1;
                assert(out@ =~= a@.take(i as int));
            }
            assert(a@.take(a@.len() as int) =~= a@);
            Some(out)
        },
        Nbt::List(l) => {
            proof {
                lemma_nbts_view(l@);
            }
            let ghost lv = nbts_view(l@);
            let mut out: Vec<i32> = Vec::new();
            let mut i: usize = 0;
            assert(v@ == NbtV::List(lv));
            while i < l.len()
                invariant
                    v@ == NbtV::List(lv),
                    i <= l@.len(),
                    lv == nbts_view(l@),
                    lv.len() == l@.len(),
                    forall|j: int| 0 <= j < l@.len() ==> #[trigger] lv[j] == nbt_view(l@[j]),
                    out@.len() == i,
                    forall|j: int| 0 <= j < i ==> (#[trigger] int_of(lv[j])) is Some && out@[j]
                        == #[verifier::truncate] (int_of(lv[j]).unwrap() as i32),
                decreases l.len() - i,
            {
                match as_i64(&l[i]) {
                    Some(x) => {
                        out.push(#[verifier::truncate] (x as i32));
                    },
                    None => {
                        assert(int_of(lv[i as int]) is None);
                        assert(v@ == NbtV::List(lv));
                        return None;
                    },
                }
                i += 1;
            }
            assert(out@ =~= Seq::new(
                lv.len(),
                |j: int| #[verifier::truncate] (int_of(lv[j]).unwrap() as i32),
            ));
            Some(out)
        },
        _ => None,
    }
}


/// An exact copy of a value.
pub fn copy_nbt(v: &Nbt) -> (r: Nbt)
    ensures
        r@ == v@,
    decreases height(v@),
{
    match v {
        Nbt::Byte(x) => Nbt::Byte(*x),
        Nbt::Short(x) => Nbt::Short(*x),
        Nbt::Int(x) => Nbt::Int(*x),
        Nbt::Long(x) => Nbt::Long(*x),
        Nbt::Float(x, t) => Nbt::Float(*x, copy_str(t)),
        Nbt::Double(x, t) => Nbt::Double(*x, copy_str(t)),
        Nbt::String(t) => Nbt::String(copy_str(t)),
        Nbt::ByteArray(a) => {
            let b = a.clone();
            assert(b@ =~= a@);
            Nbt::ByteArray(b)
        },
        Nbt::IntArray(a) => {
            let b = a.clone();
            assert(b@ =~= a@);
            Nbt::IntArray(b)
        },
        Nbt::LongArray(a) => {
            let b = a.clone();
            assert(b@ =~= a@);
            Nbt::LongArray(b)
        },
        Nbt::List(l) => {
            let mut out: Vec<Nbt> = Vec::new();
            let mut i: usize = 0;
            proof {
                lemma_nbts_view(l@);
            }
            assert(v@ == NbtV::List(nbts_view(l@)));
            while i < l.len()
                invariant
                    v@ == NbtV::List(nbts_view(l@)),
                    nbts_view(l@).len() == l@.len(),
                    forall|j: int| 0 <= j < l@.len() ==> #[trigger] nbts_view(l@)[j] == l@[j]@,
                    i <= l@.len(),
                    out@.len() == i,
                    forall|j: int| 0 <= j < i ==> (#[trigger] out@[j])@ == l@[j]@,
                decreases l.len() - i,
            {
                proof {
                    lemma_list_lower(nbts_view(l@), i as int);
                }
                out.push(copy_nbt(&l[i]));
                i += 1;
            }
            proof {
                lemma_nbts_view(out@);
            }
            assert(nbts_view(out@) =~= nbts_view(l@));
            Nbt::List(out)
        },
        Nbt::Compound(m) => {
            let mut out: Vec<(String, Nbt)> = Vec::new();
            let mut i: usize = 0;
            proof {
                lemma_entries_view(m@);
            }
            assert(v@ == NbtV::Compound(entries_view(m@)));
            while i < m.len()
                invariant
                    v@ == NbtV::Compound(entries_view(m@)),
                    entries_view(m@).len() == m@.len(),
                    forall|j: int|
                        0 <= j < m@.len() ==> #[trigger] entries_view(m@)[j] == (
                            m@[j].0@,
                            nbt_view(m@[j].1),
                        ),
                    i <= m@.len(),
                    out@.len() == i,
                    forall|j: int|
                        0 <= j < i ==> (#[trigger] out@[j]).0@ == m@[j].0@ && out@[j].1@
                            == m@[j].1@,
                decreases m.len() - i,
            {
                proof {
                    lemma_entry_heights(entries_view(m@), i as int);
                }
                out.push((copy_str(&m[i].0), copy_nbt(&m[i].1)));
                i += 1;
            }
            proof {
                lemma_entries_view(out@);
            }
            assert(entries_view(out@) =~= entries_view(m@));
            Nbt::Compound(out)
        },
    }
}

#[verifier::external_type_specification]
#[verifier::external_body]
pub struct ExNbtValue(fastnbt::Value);

/// What fastnbt makes of a binary NBT document: the tree of its root
/// compound (each float with the text that Rust's `Display` gives it), or
/// the text of the error it reports.
pub uninterp spec fn nbt_read(bytes: Seq<u8>) -> Result<NbtTree, Seq<char>>;

/// Rebuilds a fastnbt value in the library's form, variant by variant; the
/// numeric variants are rebuilt by `number_of`.
#[verifier::external_body]
fn nbt_of(v: &fastnbt::Value) -> Nbt {
    match v {
        fastnbt::Value::String(s) => Nbt::String(s.clone()),
        fastnbt::Value::ByteArray(a) => Nbt::ByteArray(a.to_vec()),
        fastnbt::Value::IntArray(a) => Nbt::IntArray(a.to_vec()),
        fastnbt::Value::LongArray(a) => Nbt::LongArray(a.to_vec()),
        fastnbt::Value::List(l) => Nbt::List(l.iter().map(nbt_of).collect()),
        fastnbt::Value::Compound(m) => Nbt::Compound(m.iter().map(|(k, x)| (k.clone(), nbt_of(x))).collect()),
        number => number_of(number),
    }
}

/// Rebuilds a numeric fastnbt value; floats keep their bits and their
/// display text. Any other variant goes back to `nbt_of`.
#[verifier::external_body]
fn number_of(v: &fastnbt::Value) -> Nbt {
    match v {
        fastnbt::Value::Byte(x) => Nbt::Byte(*x),
        fastnbt::Value::Short(x) => Nbt::Short(*x),
        fastnbt::Value::Int(x) => Nbt::Int(*x),
        fastnbt::Value::Long(x) => Nbt::Long(*x),
        fastnbt::Value::Float(x) => Nbt::Float(x.to_bits(), x.to_string()),
        fastnbt::Value::Double(x) => Nbt::Double(x.to_bits(), x.to_string()),
        other => nbt_of(other),
    }
}

/// `fastnbt::from_bytes::<fastnbt::Value>`: decodes a binary NBT document,
/// or gives the text of fastnbt's error. What it accepts and yields is
/// named, not stated; the order in which a compound's entries come out is
/// left open, but no key comes out twice (fastnbt keeps a compound's
/// entries in a `HashMap`).
#[verifier::external_body]
pub(crate) fn decode_nbt(bytes: &[u8]) -> (r: Result<Nbt, String>)
    ensures
        match r {
            Ok(t) => nbt_read(bytes@) == Ok::<NbtTree, Seq<char>>(tree(t@)) && distinct_deep(t@),
            Err(m) => nbt_read(bytes@) == Err::<NbtTree, Seq<char>>(m@),
        },
{
    match fastnbt::from_bytes::<fastnbt::Value>(bytes) {
        Ok(v) => Ok(nbt_of(&v)),
        Err(e) => Err(format!("{}", e)),
    }
}

} // verus!
