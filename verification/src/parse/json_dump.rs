//! Whole JSON dumps: an array of elements, an object holding such an array
//! under `containers` or `players`, or a single element. Every element is
//! turned into its entries.
use vstd::prelude::*;
use crate::json_value::{
    json_bytes_value, jsons_view, lemma_jsons_view, lemma_members_view, members_view, parse_json_bytes,
    Json, JsonV,
};
use crate::model::Entry;
use crate::parse::containers::{build_one, detect, detect_kind, json_built, raw_element, raw_of, JsonKind};
use crate::text::{copy_str, push_str};

verus! {

/// The value under the first key of an object that names an element list.
pub open spec fn list_member(m: Seq<(Seq<char>, JsonV)>) -> Option<JsonV>
    decreases m.len(),
{
    if m.len() == 0 {
        None
    } else if m[0].0 == "containers"@ || m[0].0 == "players"@ {
        Some(m[0].1)
    } else {
        list_member(m.drop_first())
    }
}

/// How a dump's root holds its elements.
pub enum RootShape {
    /// A list of elements.
    List(Seq<JsonV>),
    /// One element.
    Single(JsonV),
    /// No dump: a scalar root, or a list key whose value is no array.
    Bad,
}

pub open spec fn root_shape(v: JsonV) -> RootShape {
    match v {
        JsonV::Array(a) => RootShape::List(a),
        JsonV::Object(m) => match list_member(m) {
            Some(JsonV::Array(a)) => RootShape::List(a),
            Some(_) => RootShape::Bad,
            None => RootShape::Single(v),
        },
        _ => RootShape::Bad,
    }
}

/// Every element reads as a dump element.
pub open spec fn all_elements(a: Seq<JsonV>) -> bool {
    forall|i: int| 0 <= i < a.len() ==> (#[trigger] raw_of(a[i])) is Some
}

/// The kind of a list's elements: the forced one, else what the first
/// element looks like, else containers.
pub open spec fn list_kind(a: Seq<JsonV>, forced: Option<JsonKind>) -> JsonKind {
    match forced {
        Some(k) => k,
        None => if a.len() > 0 && raw_of(a[0]) is Some {
            detect(raw_of(a[0]).unwrap())
        } else {
            JsonKind::Containers
        },
    }
}

/// `es` is the entries of elements `i` on, one element after another.
pub open spec fn all_built(es: Seq<Entry>, a: Seq<JsonV>, i: int, kind: JsonKind) -> bool
    decreases a.len() - i,
{
    if i >= a.len() || i < 0 {
        es.len() == 0
    } else {
        exists|k: int|
            0 <= k <= es.len() && #[trigger] json_built(es.take(k), raw_of(a[i]).unwrap(), kind)
                && all_built(es.skip(k), a, i + 1, kind)
    }
}

/// What loading a dump's root gives.
pub open spec fn json_loaded(v: JsonV, forced: Option<JsonKind>, r: Result<Vec<Entry>, String>) -> bool {
    match root_shape(v) {
        RootShape::List(a) => if all_elements(a) {
            r matches Ok(es) && all_built(es@, a, 0, list_kind(a, forced))
        } else {
            r is Err
        },
        RootShape::Single(el) => match raw_of(el) {
            Some(re) => r matches Ok(es) && json_built(
                es@,
                re,
                match forced {
                    Some(k) => k,
                    None => detect(re),
                },
            ),
            None => r is Err,
        },
        RootShape::Bad => r is Err,
    }
}

fn is_list_key(k: &str) -> (r: bool)
    ensures
        r == (k@ == "containers"@ || k@ == "players"@),
{
    crate::text::str_eq(k, "containers") || crate::text::str_eq(k, "players")
}

fn find_list_member(m: &Vec<(String, Json)>) -> (r: Option<&Json>)
    ensures
        match r {
            Some(x) => list_member(members_view(m@)) == Some(x@),
            None => list_member(members_view(m@)) is None,
        },
{
    proof {
        lemma_members_view(m@);
    }
    let ghost mv = members_view(m@);
    let mut i: usize = 0;
    assert(mv.skip(0) =~= mv);
    while i < m.len()
        invariant
            mv == members_view(m@),
            mv.len() == m@.len(),
            forall|j: int| 0 <= j < m@.len() ==> #[trigger] mv[j] == (m@[j].0@, m@[j].1@),
            i <= m@.len(),
            list_member(mv) == list_member(mv.skip(i as int)),
        decreases m.len() - i,
    {
        assert(mv.skip(i as int)[0] == mv[i as int]);
        assert(mv.skip(i as int).drop_first() =~= mv.skip(i + 1));
        if is_list_key(m[i].0.as_str()) {
            return Some(&m[i].1);
        }
        i += 1;
    }
    assert(mv.skip(i as int).len() == 0);
    None
}

fn bad_element() -> (r: String)
    ensures
        r@ == "json parse: an element is neither a container nor a player"@,
{
    String::from_str("json parse: an element is neither a container nor a player")
}

/// The entries of a list of elements (see `all_built`); an error when one of
/// them is no dump element.
#[verifier::rlimit(30)]
fn load_list(a: &Vec<Json>, forced: Option<JsonKind>) -> (r: Result<Vec<Entry>, String>)
    ensures
        ({
            let av = jsons_view(a@);
            if all_elements(av) {
                r matches Ok(es) && all_built(es@, av, 0, list_kind(av, forced))
            } else {
                r is Err
            }
        }),
{
    proof {
        lemma_jsons_view(a@);
    }
    let ghost av = jsons_view(a@);
    let mut kind = forced;
    let mut out: Vec<Entry> = Vec::new();
    let mut i: usize = 0;
    assert forall|rest: Seq<Entry>| #[trigger] all_built(rest, av, 0, list_kind(av, forced)) implies all_built(
        out@ + rest,
        av,
        0,
        list_kind(av, forced),
    ) by {
        assert(out@ + rest =~= rest);
    }
    while i < a.len()
        invariant
            av == jsons_view(a@),
            av.len() == a@.len(),
            forall|j: int| 0 <= j < a@.len() ==> #[trigger] av[j] == a@[j]@,
            i <= a@.len(),
            forall|j: int| 0 <= j < i ==> (#[trigger] raw_of(av[j])) is Some,
            i == 0 ==> kind == forced,
            i > 0 ==> kind == Some(list_kind(av, forced)),
            forall|rest: Seq<Entry>|
                #[trigger] all_built(rest, av, i as int, list_kind(av, forced)) ==> all_built(
                    out@ + rest,
                    av,
                    0,
                    list_kind(av, forced),
                ),
        decreases a.len() - i,
    {
        let el = match raw_element(&a[i]) {
            Some(el) => el,
            None => {
                return Err(bad_element());
            },
        };
        let k = match kind {
            Some(k) => k,
            None => detect_kind(&el),
        };
        kind = Some(k);
        let ghost lk = list_kind(av, forced);
        assert(k == lk);
        let mut seg = build_one(&el, k);
        let ghost sv = seg@;
        let ghost before = out@;
        proof {
            assert forall|rest: Seq<Entry>| #[trigger] all_built(rest, av, i + 1, lk) implies all_built(
                before + (sv + rest),
                av,
                0,
                lk,
            ) by {
                let whole = sv + rest;
                assert(whole.take(sv.len() as int) =~= sv);
                assert(whole.skip(sv.len() as int) =~= rest);
                assert(json_built(whole.take(sv.len() as int), raw_of(av[i as int]).unwrap(), lk));
                assert(all_built(whole, av, i as int, lk));
            }
        }
        out.append(&mut seg);
        proof {
            assert forall|rest: Seq<Entry>| #[trigger] all_built(rest, av, i + 1, lk) implies all_built(
                out@ + rest,
                av,
                0,
                lk,
            ) by {
                assert(before + (sv + rest) =~= out@ + rest);
            }
        }
        i += 1;
    }
    proof {
        assert(all_built(Seq::<Entry>::empty(), av, i as int, list_kind(av, forced)));
        assert(out@ + Seq::<Entry>::empty() =~= out@);
    }
    Ok(out)
}

/// The entries of a dump's root value (see `json_loaded`).
pub fn load_json_value(v: &Json, forced: Option<JsonKind>) -> (r: Result<Vec<Entry>, String>)
    ensures
        json_loaded(v@, forced, r),
{
    match v {
        Json::Array(a) => {
            proof {
                lemma_jsons_view(a@);
            }
            load_list(a, forced)
        },
        Json::Object(m) => {
            proof {
                lemma_members_view(m@);
            }
            match find_list_member(m) {
                Some(Json::Array(a)) => load_list(a, forced),
                Some(_) => Err(String::from_str("json parse: the element list is not an array")),
                None => match raw_element(v) {
                    Some(el) => {
                        let k = match forced {
                            Some(k) => k,
                            None => detect_kind(&el),
                        };
                        Ok(build_one(&el, k))
                    },
                    None => Err(bad_element()),
                },
            }
        },
        _ => Err(String::from_str("json parse: expected a containers/players array, wrapper object, or single element")),
    }
}

/// The entries of a JSON dump read from its bytes; a text that serde_json
/// rejects is an error starting with `json parse: `.
pub fn load_json_bytes(bytes: &[u8], forced: Option<JsonKind>) -> (r: Result<Vec<Entry>, String>)
    ensures
        match json_bytes_value(bytes@) {
            Some(v) => json_loaded(v, forced, r),
            None => r matches Err(m) && m@.take(12) == "json parse: "@,
        },
{
    match parse_json_bytes(bytes) {
        Ok(v) => load_json_value(&v, forced),
        Err(e) => {
            let mut m = String::from_str("json parse: ");
            push_str(&mut m, e.as_str());
            proof {
                reveal_strlit("json parse: ");
                assert(m@.take(12) =~= "json parse: "@);
            }
            Err(m)
        },
    }
}

} // verus!
