//! JSON values as the library reads them. Objects keep their members in
//! key order, as serde_json's map does.
use vstd::prelude::*;
use crate::text::copy_str;

verus! {

/// A JSON number: a non-negative integer, a negative integer, or a float
/// (serde_json's three kinds). A float keeps its IEEE-754 bits and the
/// integer that `as i64` makes of it (saturating, toward zero).
#[derive(Clone, Copy, Debug, PartialEq, Eq, Structural)]
pub enum JsonNum {
    PosInt(u64),
    NegInt(i64),
    Float(u64, i64),
}

#[derive(Debug)]
pub enum Json {
    Null,
    Bool(bool),
    Number(JsonNum, String),
    String(String),
    Array(Vec<Json>),
    Object(Vec<(String, Json)>),
}

pub enum JsonV {
    Null,
    Bool(bool),
    Number(JsonNum, Seq<char>),
    String(Seq<char>),
    Array(Seq<JsonV>),
    Object(Seq<(Seq<char>, JsonV)>),
}

pub open spec fn json_view(v: Json) -> JsonV
    decreases v,
{
    match v {
        Json::Null => JsonV::Null,
        Json::Bool(b) => JsonV::Bool(b),
        Json::Number(n, t) => JsonV::Number(n, t@),
        Json::String(s) => JsonV::String(s@),
        Json::Array(a) => JsonV::Array(jsons_view(a@)),
        Json::Object(o) => JsonV::Object(members_view(o@)),
    }
}

pub open spec fn jsons_view(s: Seq<Json>) -> Seq<JsonV>
    decreases s,
{
    if s.len() == 0 {
        seq![]
    } else {
        jsons_view(s.drop_last()).push(json_view(s.last()))
    }
}

pub open spec fn members_view(s: Seq<(String, Json)>) -> Seq<(Seq<char>, JsonV)>
    decreases s,
{
    if s.len() == 0 {
        seq![]
    } else {
        members_view(s.drop_last()).push((s.last().0@, json_view(s.last().1)))
    }
}

impl View for Json {
    type V = JsonV;

    open spec fn view(&self) -> JsonV {
        json_view(*self)
    }
}

pub proof fn lemma_jsons_view(s: Seq<Json>)
    ensures
        jsons_view(s).len() == s.len(),
        forall|i: int| 0 <= i < s.len() ==> #[trigger] jsons_view(s)[i] == json_view(s[i]),
    decreases s.len(),
{
    if s.len() > 0 {
        lemma_jsons_view(s.drop_last());
    }
}

pub proof fn lemma_members_view(s: Seq<(String, Json)>)
    ensures
        members_view(s).len() == s.len(),
        forall|i: int|
            0 <= i < s.len() ==> #[trigger] members_view(s)[i] == (s[i].0@, json_view(s[i].1)),
    decreases s.len(),
{
    if s.len() > 0 {
        lemma_members_view(s.drop_last());
    }
}

pub open spec fn opt_jview(o: Option<&Json>) -> Option<JsonV> {
    match o {
        Some(v) => Some(v@),
        None => None,
    }
}

/// The member named `k` (the first such member).
pub open spec fn member(s: Seq<(Seq<char>, JsonV)>, k: Seq<char>) -> Option<JsonV>
    decreases s.len(),
{
    if s.len() == 0 {
        None
    } else if s[0].0 == k {
        Some(s[0].1)
    } else {
        member(s.drop_first(), k)
    }
}

/// `Value::get` with a string key: the member of an object.
pub open spec fn jget(v: JsonV, k: Seq<char>) -> Option<JsonV> {
    match v {
        JsonV::Object(s) => member(s, k),
        _ => None,
    }
}

pub open spec fn opt_jget(o: Option<JsonV>, k: Seq<char>) -> Option<JsonV> {
    match o {
        Some(v) => jget(v, k),
        None => None,
    }
}

/// The nesting depth of a value (1 for a leaf).
pub open spec fn jheight(v: JsonV) -> nat
    decreases v,
{
    match v {
        JsonV::Array(l) => 1 + jheights(l),
        JsonV::Object(c) => 1 + member_heights(c),
        _ => 1,
    }
}

pub open spec fn jheights(s: Seq<JsonV>) -> nat
    decreases s,
{
    if s.len() == 0 {
        0
    } else {
        let a = jheights(s.drop_last());
        let b = jheight(s.last());
        if a >= b {
            a
        } else {
            b
        }
    }
}

pub open spec fn member_heights(s: Seq<(Seq<char>, JsonV)>) -> nat
    decreases s,
{
    if s.len() == 0 {
        0
    } else {
        let a = member_heights(s.drop_last());
        let b = jheight(s.last().1);
        if a >= b {
            a
        } else {
            b
        }
    }
}

pub proof fn lemma_jheights(s: Seq<JsonV>, i: int)
    requires
        0 <= i < s.len(),
    ensures
        jheight(s[i]) <= jheights(s),
    decreases s.len(),
{
    if i < s.len() - 1 {
        lemma_jheights(s.drop_last(), i);
    }
}

pub proof fn lemma_member_heights(s: Seq<(Seq<char>, JsonV)>, i: int)
    requires
        0 <= i < s.len(),
    ensures
        jheight(s[i].1) <= member_heights(s),
    decreases s.len(),
{
    if i < s.len() - 1 {
        lemma_member_heights(s.drop_last(), i);
    }
}

pub proof fn lemma_member_index(s: Seq<(Seq<char>, JsonV)>, k: Seq<char>)
    ensures
        member(s, k) matches Some(x) ==> exists|i: int| 0 <= i < s.len() && s[i].1 == x,
    decreases s.len(),
{
    if s.len() > 0 && s[0].0 != k {
        lemma_member_index(s.drop_first(), k);
        if let Some(x) = member(s, k) {
            let i = choose|i: int| 0 <= i < s.drop_first().len() && s.drop_first()[i].1 == x;
            assert(s[i + 1].1 == x);
        }
    }
}

/// What `jget` finds is lower than the object.
pub proof fn lemma_jget_lower(v: JsonV, k: Seq<char>)
    ensures
        jget(v, k) matches Some(x) ==> jheight(x) < jheight(v),
{
    if let JsonV::Object(s) = v {
        lemma_member_index(s, k);
        if let Some(x) = member(s, k) {
            let i = choose|i: int| 0 <= i < s.len() && s[i].1 == x;
            lemma_member_heights(s, i);
        }
    }
}

pub fn jget_ref<'a>(v: &'a Json, key: &str) -> (r: Option<&'a Json>)
    ensures
        opt_jview(r) == jget(v@, key@),
{
    match v {
        Json::Object(m) => {
            let k = copy_str(key);
            let mut i: usize = 0;
            proof {
                lemma_members_view(m@);
            }
            let ghost s = members_view(m@);
            assert(s.skip(0) =~= s);
            assert(v@ == JsonV::Object(s));
            while i < m.len()
                invariant
                    v@ == JsonV::Object(s),
                    i <= m@.len(),
                    s == members_view(m@),
                    s.len() == m@.len(),
                    k@ == key@,
                    forall|j: int|
                        0 <= j < m@.len() ==> #[trigger] s[j] == (m@[j].0@, json_view(m@[j].1)),
                    member(s, key@) == member(s.skip(i as int), key@),
                decreases m.len() - i,
            {
                assert(s.skip(i as int)[0] == s[i as int]);
                assert(s.skip(i as int).drop_first() =~= s.skip(i + 1));
                if m[i].0 == k {
                    assert(s[i as int] == (m@[i as int].0@, json_view(m@[i as int].1)));
                    return Some(&m[i].1);
                }
                i += 1;
            }
            assert(s.skip(i as int).len() == 0);
            None
        },
        _ => None,
    }
}

/// `Value::as_str`.
pub open spec fn jstr(v: JsonV) -> Option<Seq<char>> {
    match v {
        JsonV::String(s) => Some(s),
        _ => None,
    }
}

pub open spec fn opt_jstr(o: Option<JsonV>) -> Option<Seq<char>> {
    match o {
        Some(v) => jstr(v),
        None => None,
    }
}

pub fn jstr_ref(v: &Json) -> (r: Option<&String>)
    ensures
        match r {
            Some(s) => jstr(v@) == Some(s@),
            None => jstr(v@) is None,
        },
{
    match v {
        Json::String(s) => Some(s),
        _ => None,
    }
}

/// `Value::as_bool`.
pub open spec fn jbool(v: JsonV) -> Option<bool> {
    match v {
        JsonV::Bool(b) => Some(b),
        _ => None,
    }
}

pub fn jbool_of(v: &Json) -> (r: Option<bool>)
    ensures
        r == jbool(v@),
{
    match v {
        Json::Bool(b) => Some(*b),
        _ => None,
    }
}

/// `Value::as_array`.
pub open spec fn jarray(v: JsonV) -> Option<Seq<JsonV>> {
    match v {
        JsonV::Array(a) => Some(a),
        _ => None,
    }
}

pub fn jarray_ref(v: &Json) -> (r: Option<&Vec<Json>>)
    ensures
        match r {
            Some(a) => jarray(v@) == Some(jsons_view(a@)),
            None => jarray(v@) is None,
        },
{
    match v {
        Json::Array(a) => Some(a),
        _ => None,
    }
}

/// `Value::as_object`.
pub open spec fn jobject(v: JsonV) -> Option<Seq<(Seq<char>, JsonV)>> {
    match v {
        JsonV::Object(o) => Some(o),
        _ => None,
    }
}

pub fn jobject_ref(v: &Json) -> (r: Option<&Vec<(String, Json)>>)
    ensures
        match r {
            Some(o) => jobject(v@) == Some(members_view(o@)),
            None => jobject(v@) is None,
        },
{
    match v {
        Json::Object(o) => Some(o),
        _ => None,
    }
}

/// `Value::as_i64`.
pub open spec fn ji64(v: JsonV) -> Option<i64> {
    match v {
        JsonV::Number(JsonNum::PosInt(n), _) => if n <= i64::MAX as u64 {
            Some(n as i64)
        } else {
            None
        },
        JsonV::Number(JsonNum::NegInt(n), _) => Some(n),
        _ => None,
    }
}

pub fn ji64_of(v: &Json) -> (r: Option<i64>)
    ensures
        r == ji64(v@),
{
    match v {
        Json::Number(JsonNum::PosInt(n), _) => {
            if *n <= 9223372036854775807u64 {
                Some(*n as i64)
            } else {
                None
            }
        },
        Json::Number(JsonNum::NegInt(n), _) => Some(*n),
        _ => None,
    }
}

/// `as_i64`, else `as_f64` truncated to an integer: a number's integer
/// value. Integers above `i64::MAX` saturate to it.
pub open spec fn jnum(v: JsonV) -> Option<i64> {
    match v {
        JsonV::Number(JsonNum::PosInt(n), _) => if n <= i64::MAX as u64 {
            Some(n as i64)
        } else {
            Some(i64::MAX)
        },
        JsonV::Number(JsonNum::NegInt(n), _) => Some(n),
        JsonV::Number(JsonNum::Float(_, t), _) => Some(t),
        _ => None,
    }
}

pub open spec fn opt_jnum(o: Option<JsonV>) -> Option<i64> {
    match o {
        Some(v) => jnum(v),
        None => None,
    }
}

pub fn jnum_of(v: &Json) -> (r: Option<i64>)
    ensures
        r == jnum(v@),
{
    match v {
        Json::Number(JsonNum::PosInt(n), _) => {
            if *n <= 9223372036854775807u64 {
                Some(*n as i64)
            } else {
                Some(i64::MAX)
            }
        },
        Json::Number(JsonNum::NegInt(n), _) => Some(*n),
        Json::Number(JsonNum::Float(_, t), _) => Some(*t),
        _ => None,
    }
}

/// An exact copy of a value.
pub fn copy_json(v: &Json) -> (r: Json)
    ensures
        r@ == v@,
    decreases jheight(v@),
{
    match v {
        Json::Null => Json::Null,
        Json::Bool(b) => Json::Bool(*b),
        Json::Number(n, t) => Json::Number(*n, t.clone()),
        Json::String(s) => Json::String(s.clone()),
        Json::Array(a) => {
            let mut out: Vec<Json> = Vec::new();
            let mut i: usize = 0;
            proof {
                lemma_jsons_view(a@);
            }
            assert(v@ == JsonV::Array(jsons_view(a@)));
            while i < a.len()
                invariant
                    v@ == JsonV::Array(jsons_view(a@)),
                    jsons_view(a@).len() == a@.len(),
                    forall|j: int| 0 <= j < a@.len() ==> #[trigger] jsons_view(a@)[j] == a@[j]@,
                    i <= a@.len(),
                    out@.len() == i,
                    forall|j: int| 0 <= j < i ==> (#[trigger] out@[j])@ == a@[j]@,
                decreases a.len() - i,
            {
                proof {
                    lemma_jheights(jsons_view(a@), i as int);
                }
                out.push(copy_json(&a[i]));
                i += 1;
            }
            proof {
                lemma_jsons_view(out@);
            }
            assert(jsons_view(out@) =~= jsons_view(a@));
            Json::Array(out)
        },
        Json::Object(m) => {
            let mut out: Vec<(String, Json)> = Vec::new();
            let mut i: usize = 0;
            proof {
                lemma_members_view(m@);
            }
            assert(v@ == JsonV::Object(members_view(m@)));
            while i < m.len()
                invariant
                    v@ == JsonV::Object(members_view(m@)),
                    members_view(m@).len() == m@.len(),
                    forall|j: int|
                        0 <= j < m@.len() ==> #[trigger] members_view(m@)[j] == (
                            m@[j].0@,
                            json_view(m@[j].1),
                        ),
                    i <= m@.len(),
                    out@.len() == i,
                    forall|j: int|
                        0 <= j < i ==> (#[trigger] out@[j]).0@ == m@[j].0@ && out@[j].1@
                            == m@[j].1@,
                decreases m.len() - i,
            {
                proof {
                    lemma_member_heights(members_view(m@), i as int);
                }
                out.push((m[i].0.clone(), copy_json(&m[i].1)));
                i += 1;
            }
            proof {
                lemma_members_view(out@);
            }
            assert(members_view(out@) =~= members_view(m@));
            Json::Object(out)
        },
    }
}

#[verifier::external_type_specification]
#[verifier::external_body]
pub struct ExJsonValue(serde_json::Value);

#[verifier::external_type_specification]
#[verifier::external_body]
pub struct ExJsonNumber(serde_json::Number);

/// A serde_json number in the library's form: its kind and value (a
/// float's bits and `as i64` truncation).
#[verifier::external_body]
pub(crate) fn num_of(n: &serde_json::Number) -> JsonNum {
    match (n.as_u64(), n.as_i64()) {
        (Some(u), _) => JsonNum::PosInt(u),
        (None, Some(i)) => JsonNum::NegInt(i),
        (None, None) => JsonNum::Float(
            n.as_f64().map(|f| f.to_bits()).unwrap_or(0),
            n.as_f64().map(|f| f as i64).unwrap_or(0),
        ),
    }
}

/// A serde_json value in the library's form, variant by variant.
#[verifier::external_body]
fn json_of(v: &serde_json::Value) -> Json {
    match v {
        serde_json::Value::Null => Json::Null,
        serde_json::Value::Bool(b) => Json::Bool(*b),
        serde_json::Value::Number(n) => Json::Number(num_of(n), n.to_string()),
        serde_json::Value::String(s) => Json::String(s.clone()),
        serde_json::Value::Array(a) => Json::Array(a.iter().map(json_of).collect()),
        serde_json::Value::Object(o) => Json::Object(o.iter().map(|(k, x)| (k.clone(), json_of(x))).collect()),
    }
}

/// The value that serde_json reads from a text, or none when it rejects it.
pub uninterp spec fn json_text_value(s: Seq<char>) -> Option<JsonV>;

/// `serde_json::from_str::<serde_json::Value>`: what it accepts and yields
/// is named, not stated; when it rejects the text, the text of its error
/// is not stated either.
#[verifier::external_body]
pub(crate) fn parse_json_text(s: &str) -> (r: Result<Json, String>)
    ensures
        r is Ok <==> json_text_value(s@) is Some,
        r matches Ok(j) ==> json_text_value(s@) == Some(j@),
{
    match serde_json::from_str::<serde_json::Value>(s) {
        Ok(v) => Ok(json_of(&v)),
        Err(e) => Err(format!("{}", e)),
    }
}

/// The value that serde_json reads from bytes, or none when it rejects them.
pub uninterp spec fn json_bytes_value(b: Seq<u8>) -> Option<JsonV>;

/// `serde_json::from_slice::<serde_json::Value>`: what it accepts and yields
/// is named, not stated; when it rejects the bytes, the text of its error
/// is not stated either.
#[verifier::external_body]
pub(crate) fn parse_json_bytes(b: &[u8]) -> (r: Result<Json, String>)
    ensures
        r is Ok <==> json_bytes_value(b@) is Some,
        r matches Ok(j) ==> json_bytes_value(b@) == Some(j@),
{
    match serde_json::from_slice::<serde_json::Value>(b) {
        Ok(v) => Ok(json_of(&v)),
        Err(e) => Err(format!("{}", e)),
    }
}

} // verus!
