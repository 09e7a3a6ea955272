//! Dumps in JSON: a `containers` or `players` array (or an object holding
//! one, or a single element), each element read into a fixed set of fields.
//! Item stacks come in the modern form (components, possibly as SNBT text)
//! or the legacy one (a `tag`).
use vstd::prelude::*;
use crate::json_value::{
    jarray, jarray_ref, jbool, jbool_of, jget, jget_ref, jheight, jheights, ji64, ji64_of, jnum, jnum_of, jobject,
    jobject_ref, jstr, jstr_ref, lemma_jget_lower, lemma_jheights, lemma_jsons_view,
    lemma_member_heights, lemma_members_view, jsons_view, member_heights, members_view, opt_jget,
    opt_jnum, opt_jstr, opt_jview, Json, JsonNum, JsonV,
};
use crate::model::{
    items_view, lemma_items_view_len, lemma_items_view_push, pairs_view, plain_item,
    player_head_id, strs_view, Item, ItemView,
};
use crate::parse::nbt::{
    extract_text, extract_text_spec, opt_item_view, push_item, push_some,
    skin_url_from_textures_value,
    skin_url_spec, uuid_from_ints, uuid_spec,
};
use crate::parse::dump_nbt::{container_entry, container_entry_of, str_or};
use crate::model::Entry;
use crate::parse::snbt::{parse, snbt_of};
use crate::text::{
    chars_of, copy_str, has_substr, lowercase, parse_i32, parse_i32_spec, parse_i64,
    parse_i64_spec, push_char, push_str, str_contains, str_eq, to_lower,
};

verus! {

/// Which kind of elements a JSON dump holds.
#[derive(Clone, Copy, Debug, PartialEq, Eq, Structural)]
pub enum JsonKind {
    Containers,
    Players,
}

/// A string or a number as text (`j_str`).
pub open spec fn jtext(o: Option<JsonV>) -> Option<Seq<char>> {
    match o {
        Some(JsonV::String(s)) => Some(s),
        Some(JsonV::Number(_, t)) => Some(t),
        _ => None,
    }
}

fn j_str(v: &Option<Json>) -> (r: Option<String>)
    ensures
        crate::model::opt_string_view(r) == jtext(match v {
            Some(j) => Some(j@),
            None => None,
        }),
{
    match v {
        Some(Json::String(s)) => Some(s.clone()),
        Some(Json::Number(_, t)) => Some(t.clone()),
        _ => None,
    }
}

/// A coordinate: a number (a float cut toward zero), or a text that parses
/// as an integer.
pub open spec fn jcoord(v: JsonV) -> Option<i64> {
    match jnum(v) {
        Some(n) => Some(n),
        None => match jstr(v) {
            Some(s) => parse_i64_spec(s),
            None => None,
        },
    }
}

fn coord(v: &Json) -> (r: Option<i64>)
    ensures
        r == jcoord(v@),
{
    match jnum_of(v) {
        Some(n) => Some(n),
        None => match jstr_ref(v) {
            Some(s) => parse_i64(s.as_str()),
            None => None,
        },
    }
}

/// The integers of an array, each cut to 32 bits; other elements skipped.
pub open spec fn jints(a: Seq<JsonV>, n: int) -> Seq<i32>
    decreases n,
{
    if n <= 0 || n > a.len() {
        seq![]
    } else {
        match ji64(a[n - 1]) {
            Some(x) => jints(a, n - 1).push(#[verifier::truncate] (x as i32)),
            None => jints(a, n - 1),
        }
    }
}

/// The uuid that an array of four integers spells.
pub open spec fn juuid(v: JsonV) -> Option<Seq<char>> {
    match jarray(v) {
        Some(a) => uuid_spec(jints(a, a.len() as int)),
        None => None,
    }
}

fn uuid_from_json(v: &Json) -> (r: Option<String>)
    ensures
        crate::model::opt_string_view(r) == juuid(v@),
{
    let arr = jarray_ref(v)?;
    proof {
        lemma_jsons_view(arr@);
    }
    let ghost av = jsons_view(arr@);
    let mut ints: Vec<i32> = Vec::new();
    let mut i: usize = 0;
    while i < arr.len()
        invariant
            i <= arr@.len(),
            av == jsons_view(arr@),
            av.len() == arr@.len(),
            forall|j: int| 0 <= j < arr@.len() ==> #[trigger] av[j] == arr@[j]@,
            ints@ == jints(av, i as int),
        decreases arr.len() - i,
    {
        if let Some(x) = ji64_of(&arr[i]) {
            ints.push(#[verifier::truncate] (x as i32));
        }
        i += 1;
    }
    uuid_from_ints(ints.as_slice())
}

/// The non-empty display texts of the string elements, from `i`.
pub open spec fn jlore_lines(l: Seq<JsonV>, i: int) -> Seq<Seq<char>>
    decreases l.len() - i,
{
    if 0 <= i < l.len() {
        match jstr(l[i]) {
            Some(s) => if extract_text_spec(s).len() > 0 {
                seq![extract_text_spec(s)] + jlore_lines(l, i + 1)
            } else {
                jlore_lines(l, i + 1)
            },
            None => jlore_lines(l, i + 1),
        }
    } else {
        seq![]
    }
}

fn jlore_of(l: &Vec<Json>) -> (r: Vec<String>)
    ensures
        strs_view(r@) == jlore_lines(jsons_view(l@), 0),
{
    proof {
        lemma_jsons_view(l@);
    }
    let ghost lv = jsons_view(l@);
    let mut out: Vec<String> = Vec::new();
    let mut i: usize = 0;
    while i < l.len()
        invariant
            i <= l@.len(),
            lv == jsons_view(l@),
            lv.len() == l@.len(),
            forall|j: int| 0 <= j < l@.len() ==> #[trigger] lv[j] == l@[j]@,
            jlore_lines(lv, 0) == strs_view(out@) + jlore_lines(lv, i as int),
        decreases l.len() - i,
    {
        if let Some(s) = jstr_ref(&l[i]) {
            let t = extract_text(s.as_str());
            if t.as_str().unicode_len() > 0 {
                let ghost before = strs_view(out@);
                out.push(t);
                assert(strs_view(out@) =~= before.push(t@));
                assert(before + (seq![t@] + jlore_lines(lv, i + 1)) =~= before.push(t@)
                    + jlore_lines(lv, i + 1));
            }
        }
        i += 1;
    }
    assert(strs_view(out@) + jlore_lines(lv, l@.len() as int) =~= strs_view(out@));
    out
}

/// `(name, level)` for each member with an integer value, from `i`.
pub open spec fn jlevels(m: Seq<(Seq<char>, JsonV)>, i: int) -> Seq<(Seq<char>, i32)>
    decreases m.len() - i,
{
    if 0 <= i < m.len() {
        match ji64(m[i].1) {
            Some(l) => seq![(m[i].0, #[verifier::truncate] (l as i32))] + jlevels(m, i + 1),
            None => jlevels(m, i + 1),
        }
    } else {
        seq![]
    }
}

/// Modern enchantments: the `levels` object of a component, or the
/// component itself, as an object of levels.
pub open spec fn jench(v: Option<JsonV>) -> Seq<(Seq<char>, i32)> {
    match v {
        None => seq![],
        Some(x) => {
            let levels = match jget(x, "levels"@) {
                Some(l) => l,
                None => x,
            };
            match jobject(levels) {
                Some(m) => jlevels(m, 0),
                None => seq![],
            }
        },
    }
}

fn read_json_enchants(v: Option<&Json>, out: &mut Vec<(String, i32)>)
    ensures
        pairs_view(final(out)@) == pairs_view(old(out)@) + jench(opt_jview(v)),
{
    let x = match v {
        Some(x) => x,
        None => {
            assert(pairs_view(out@) =~= pairs_view(out@) + seq![]);
            return;
        },
    };
    let levels = match jget_ref(x, "levels") {
        Some(l) => l,
        None => x,
    };
    match jobject_ref(levels) {
        Some(m) => {
            proof {
                lemma_members_view(m@);
            }
            let ghost mv = members_view(m@);
            let ghost start = pairs_view(out@);
            let mut i: usize = 0;
            while i < m.len()
                invariant
                    i <= m@.len(),
                    mv == members_view(m@),
                    mv.len() == m@.len(),
                    forall|j: int|
                        0 <= j < m@.len() ==> #[trigger] mv[j] == (m@[j].0@, m@[j].1@),
                    start + jlevels(mv, 0) == pairs_view(out@) + jlevels(mv, i as int),
                decreases m.len() - i,
            {
                if let Some(l) = ji64_of(&m[i].1) {
                    let ghost before = pairs_view(out@);
                    out.push((m[i].0.clone(), #[verifier::truncate] (l as i32)));
                    assert(pairs_view(out@) =~= before + seq![
                        (m@[i as int].0@, #[verifier::truncate] (l as i32)),
                    ]);
                }
                i += 1;
            }
            assert(pairs_view(out@) + jlevels(mv, m@.len() as int) =~= pairs_view(out@));
        },
        None => {
            assert(pairs_view(out@) =~= pairs_view(out@) + seq![]);
        },
    }
}

/// Legacy enchantments: a list of `{id, lvl}` with a non-empty id, level 1
/// where it is missing.
pub open spec fn jlegacy_entries(a: Seq<JsonV>, i: int) -> Seq<(Seq<char>, i32)>
    decreases a.len() - i,
{
    if 0 <= i < a.len() {
        let id = match opt_jstr(jget(a[i], "id"@)) {
            Some(s) => s,
            None => seq![],
        };
        let lvl = match opt_jnum(jget(a[i], "lvl"@)) {
            Some(n) => #[verifier::truncate] (n as i32),
            None => 1,
        };
        if id.len() > 0 {
            seq![(id, lvl)] + jlegacy_entries(a, i + 1)
        } else {
            jlegacy_entries(a, i + 1)
        }
    } else {
        seq![]
    }
}

pub open spec fn jlegacy_ench(v: Option<JsonV>) -> Seq<(Seq<char>, i32)> {
    match v {
        Some(x) => match jarray(x) {
            Some(a) => jlegacy_entries(a, 0),
            None => seq![],
        },
        None => seq![],
    }
}

fn read_legacy_ench(v: Option<&Json>, out: &mut Vec<(String, i32)>)
    ensures
        pairs_view(final(out)@) == pairs_view(old(out)@) + jlegacy_ench(opt_jview(v)),
{
    let arr = match v {
        Some(x) => match jarray_ref(x) {
            Some(a) => a,
            None => {
                assert(pairs_view(out@) =~= pairs_view(out@) + seq![]);
                return;
            },
        },
        None => {
            assert(pairs_view(out@) =~= pairs_view(out@) + seq![]);
            return;
        },
    };
    proof {
        lemma_jsons_view(arr@);
    }
    let ghost av = jsons_view(arr@);
    let ghost start = pairs_view(out@);
    let mut i: usize = 0;
    while i < arr.len()
        invariant
            i <= arr@.len(),
            av == jsons_view(arr@),
            av.len() == arr@.len(),
            forall|j: int| 0 <= j < arr@.len() ==> #[trigger] av[j] == arr@[j]@,
            start + jlegacy_entries(av, 0) == pairs_view(out@) + jlegacy_entries(av, i as int),
        decreases arr.len() - i,
    {
        let e = &arr[i];
        let id = match jget_ref(e, "id") {
            Some(x) => match jstr_ref(x) {
                Some(s) => s.clone(),
                None => String::new(),
            },
            None => String::new(),
        };
        let lvl: i32 = match jget_ref(e, "lvl") {
            Some(x) => match jnum_of(x) {
                Some(n) => #[verifier::truncate] (n as i32),
                None => 1,
            },
            None => 1,
        };
        if !id.as_str().is_empty() {
            let ghost before = pairs_view(out@);
            let ghost idv = id@;
            out.push((id, lvl));
            assert(pairs_view(out@) =~= before + seq![(idv, lvl)]);
        }
        i += 1;
    }
    assert(pairs_view(out@) + jlegacy_entries(av, arr@.len() as int) =~= pairs_view(out@));
}


/// Whether the string under `key` is exactly `want`.
fn jstr_field_is(p: &Json, key: &str, want: &str) -> (r: bool)
    ensures
        r == (opt_jstr(jget(p@, key@)) == Some(want@)),
{
    match jget_ref(p, key) {
        Some(n) => match jstr_ref(n) {
            Some(t) => str_eq(t.as_str(), want),
            None => false,
        },
        None => false,
    }
}

/// The first `textures` property, from `i`, whose value holds a skin.
pub open spec fn jskin_in(props: Seq<JsonV>, i: int) -> Option<Seq<char>>
    decreases props.len() - i,
{
    if 0 <= i < props.len() {
        let p = props[i];
        if opt_jstr(jget(p, "name"@)) == Some("textures"@) && opt_jstr(jget(p, "value"@)) is Some
            && skin_url_spec(opt_jstr(jget(p, "value"@))->0) is Some {
            skin_url_spec(opt_jstr(jget(p, "value"@))->0)
        } else {
            jskin_in(props, i + 1)
        }
    } else {
        None
    }
}

pub open spec fn opt_juuid(o: Option<JsonV>) -> Option<Seq<char>> {
    match o {
        Some(v) => juuid(v),
        None => None,
    }
}

/// A player head's profile in the modern form: a name, an inline skin, a
/// uuid or a name.
pub open spec fn jskull_modern(prof: JsonV, it: ItemView) -> ItemView {
    match prof {
        JsonV::String(s) => ItemView { head_ref: Some(s), ..it },
        _ => {
            let skin = match opt_jget(Some(prof), "properties"@) {
                Some(pv) => match jarray(pv) {
                    Some(props) => jskin_in(props, 0),
                    None => None,
                },
                None => None,
            };
            match skin {
                Some(url) => ItemView { head_skin: Some(url), ..it },
                None => match opt_juuid(jget(prof, "id"@)) {
                    Some(u) => ItemView { head_ref: Some(lowercase(u)), ..it },
                    None => match opt_jstr(jget(prof, "name"@)) {
                        Some(n) => ItemView { head_ref: Some(n), ..it },
                        None => it,
                    },
                },
            }
        },
    }
}

fn extract_skull_modern(item: &mut Item, prof: &Json)
    ensures
        final(item)@ == jskull_modern(prof@, old(item)@),
{
    if let Json::String(s) = prof {
        item.head_ref = Some(s.clone());
        return;
    }
    if let Some(pv) = jget_ref(prof, "properties") {
        if let Some(props) = jarray_ref(pv) {
            proof {
                lemma_jsons_view(props@);
            }
            let ghost ps = jsons_view(props@);
            let mut i: usize = 0;
            while i < props.len()
                invariant
                    i <= props@.len(),
                    ps == jsons_view(props@),
                    ps.len() == props@.len(),
                    forall|j: int| 0 <= j < props@.len() ==> #[trigger] ps[j] == props@[j]@,
                    jskin_in(ps, 0) == jskin_in(ps, i as int),
                    *item == *old(item),
                    jget(prof@, "properties"@) == Some(pv@),
                    jarray(pv@) == Some(ps),
                    !(prof@ is String),
                decreases props.len() - i,
            {
                let p = &props[i];
                if jstr_field_is(p, "name", "textures") {
                    if let Some(vv) = jget_ref(p, "value") {
                        if let Some(v) = jstr_ref(vv) {
                            if let Some(url) = skin_url_from_textures_value(v.as_str()) {
                                assert(jskin_in(ps, i as int) == Some(url@));
                                item.head_skin = Some(url);
                                return;
                            }
                        }
                    }
                }
                i += 1;
            }
        }
    }
    let id = match jget_ref(prof, "id") {
        Some(x) => uuid_from_json(x),
        None => None,
    };
    match id {
        Some(u) => {
            item.head_ref = Some(to_lower(u.as_str()));
        },
        None => {
            if let Some(nv) = jget_ref(prof, "name") {
                if let Some(n) = jstr_ref(nv) {
                    item.head_ref = Some(n.clone());
                }
            }
        },
    }
}

/// The first element of the `textures` array of `Properties`, as the text
/// of its `Value`.
pub open spec fn legacy_texture(owner: JsonV) -> Option<Seq<char>> {
    match opt_jget(opt_jget(Some(owner), "Properties"@), "textures"@) {
        Some(t) => match jarray(t) {
            Some(a) => if a.len() > 0 {
                opt_jstr(jget(a[0], "Value"@))
            } else {
                None
            },
            None => None,
        },
        None => None,
    }
}

/// A player head's owner in the legacy form: a name, an inline skin, a uuid,
/// an id text or a name.
pub open spec fn jskull_legacy(owner: JsonV, it: ItemView) -> ItemView {
    match owner {
        JsonV::String(s) => ItemView { head_ref: Some(s), ..it },
        _ => {
            let skin = match legacy_texture(owner) {
                Some(v) => skin_url_spec(v),
                None => None,
            };
            match skin {
                Some(url) => ItemView { head_skin: Some(url), ..it },
                None => match opt_juuid(jget(owner, "Id"@)) {
                    Some(u) => ItemView { head_ref: Some(lowercase(u)), ..it },
                    None => match opt_jstr(jget(owner, "Id"@)) {
                        Some(id) => ItemView { head_ref: Some(lowercase(id)), ..it },
                        None => match opt_jstr(jget(owner, "Name"@)) {
                            Some(n) => ItemView { head_ref: Some(n), ..it },
                            None => it,
                        },
                    },
                },
            }
        },
    }
}

fn extract_skull_legacy(item: &mut Item, owner: &Json)
    ensures
        final(item)@ == jskull_legacy(owner@, old(item)@),
{
    if let Json::String(s) = owner {
        item.head_ref = Some(s.clone());
        return;
    }
    let tex = match jget_ref(owner, "Properties") {
        Some(p) => match jget_ref(p, "textures") {
            Some(t) => match jarray_ref(t) {
                Some(a) => {
                    proof {
                        lemma_jsons_view(a@);
                    }
                    if a.len() > 0 {
                        match jget_ref(&a[0], "Value") {
                            Some(v) => jstr_ref(v),
                            None => None,
                        }
                    } else {
                        None
                    }
                },
                None => None,
            },
            None => None,
        },
        None => None,
    };
    if let Some(v) = tex {
        if let Some(url) = skin_url_from_textures_value(v.as_str()) {
            item.head_skin = Some(url);
            return;
        }
    }
    let id = match jget_ref(owner, "Id") {
        Some(x) => uuid_from_json(x),
        None => None,
    };
    if let Some(u) = id {
        item.head_ref = Some(to_lower(u.as_str()));
        return;
    }
    if let Some(x) = jget_ref(owner, "Id") {
        if let Some(t) = jstr_ref(x) {
            item.head_ref = Some(to_lower(t.as_str()));
            return;
        }
    }
    if let Some(x) = jget_ref(owner, "Name") {
        if let Some(n) = jstr_ref(x) {
            item.head_ref = Some(n.clone());
        }
    }
}

/// The value under `key` in `v` or, failing that, the first found depth
/// first among its members (in key order) and elements.
pub open spec fn jfind(v: JsonV, key: Seq<char>) -> Option<JsonV>
    decreases jheight(v), 1int, 0int,
{
    match v {
        JsonV::Object(m) => match jget(v, key) {
            Some(x) => Some(x),
            None => jfind_members(m, 0, key),
        },
        JsonV::Array(a) => jfind_elems(a, 0, key),
        _ => None,
    }
}

pub open spec fn jfind_members(m: Seq<(Seq<char>, JsonV)>, i: int, key: Seq<char>) -> Option<JsonV>
    decreases jheight(JsonV::Object(m)), 0int, m.len() - i,
{
    if 0 <= i < m.len() {
        proof {
            lemma_member_heights(m, i);
        }
        match jfind(m[i].1, key) {
            Some(x) => Some(x),
            None => jfind_members(m, i + 1, key),
        }
    } else {
        None
    }
}

pub open spec fn jfind_elems(a: Seq<JsonV>, i: int, key: Seq<char>) -> Option<JsonV>
    decreases jheight(JsonV::Array(a)), 0int, a.len() - i,
{
    if 0 <= i < a.len() {
        proof {
            lemma_jheights(a, i);
        }
        match jfind(a[i], key) {
            Some(x) => Some(x),
            None => jfind_elems(a, i + 1, key),
        }
    } else {
        None
    }
}

/// What `jfind` finds is lower than where it looked.
pub proof fn lemma_jfind_lower(v: JsonV, key: Seq<char>)
    ensures
        jfind(v, key) matches Some(x) ==> jheight(x) < jheight(v),
    decreases jheight(v), 1int, 0int,
{
    match v {
        JsonV::Object(m) => {
            lemma_jget_lower(v, key);
            if jget(v, key) is None {
                lemma_jfind_members_lower(m, 0, key);
            }
        },
        JsonV::Array(a) => {
            lemma_jfind_elems_lower(a, 0, key);
        },
        _ => {},
    }
}

pub proof fn lemma_jfind_members_lower(m: Seq<(Seq<char>, JsonV)>, i: int, key: Seq<char>)
    ensures
        jfind_members(m, i, key) matches Some(x) ==> jheight(x) < jheight(JsonV::Object(m)),
    decreases jheight(JsonV::Object(m)), 0int, m.len() - i,
{
    if 0 <= i < m.len() {
        lemma_member_heights(m, i);
        lemma_jfind_lower(m[i].1, key);
        lemma_jfind_members_lower(m, i + 1, key);
    }
}

pub proof fn lemma_jfind_elems_lower(a: Seq<JsonV>, i: int, key: Seq<char>)
    ensures
        jfind_elems(a, i, key) matches Some(x) ==> jheight(x) < jheight(JsonV::Array(a)),
    decreases jheight(JsonV::Array(a)), 0int, a.len() - i,
{
    if 0 <= i < a.len() {
        lemma_jheights(a, i);
        lemma_jfind_lower(a[i], key);
        lemma_jfind_elems_lower(a, i + 1, key);
    }
}

fn find_json<'a>(v: &'a Json, key: &str) -> (r: Option<&'a Json>)
    ensures
        opt_jview(r) == jfind(v@, key@),
    decreases jheight(v@), 1int, 0int,
{
    match v {
        Json::Object(m) => {
            if let Some(x) = jget_ref(v, key) {
                return Some(x);
            }
            proof {
                lemma_members_view(m@);
            }
            let ghost mv = members_view(m@);
            assert(v@ == JsonV::Object(mv));
            let mut i: usize = 0;
            while i < m.len()
                invariant
                    v@ == JsonV::Object(mv),
                    mv == members_view(m@),
                    mv.len() == m@.len(),
                    forall|j: int|
                        0 <= j < m@.len() ==> #[trigger] mv[j] == (m@[j].0@, m@[j].1@),
                    i <= m@.len(),
                    jfind(v@, key@) == jfind_members(mv, i as int, key@),
                decreases m.len() - i,
            {
                proof {
                    lemma_member_heights(mv, i as int);
                }
                if let Some(x) = find_json(&m[i].1, key) {
                    return Some(x);
                }
                i += 1;
            }
            None
        },
        Json::Array(a) => {
            proof {
                lemma_jsons_view(a@);
            }
            let ghost av = jsons_view(a@);
            assert(v@ == JsonV::Array(av));
            let mut i: usize = 0;
            while i < a.len()
                invariant
                    v@ == JsonV::Array(av),
                    av == jsons_view(a@),
                    av.len() == a@.len(),
                    forall|j: int| 0 <= j < a@.len() ==> #[trigger] av[j] == a@[j]@,
                    i <= a@.len(),
                    jfind(v@, key@) == jfind_elems(av, i as int, key@),
                decreases a.len() - i,
            {
                proof {
                    lemma_jheights(av, i as int);
                }
                if let Some(x) = find_json(&a[i], key) {
                    return Some(x);
                }
                i += 1;
            }
            None
        },
        _ => None,
    }
}

/// The text that makes the raw data of JSON items searchable: every string
/// under a `nbt`, `tag` or `components` key, one per line, depth first.
pub open spec fn jnbt_text(v: JsonV) -> Seq<char>
    decreases jheight(v), 1int, 0int,
{
    match v {
        JsonV::Object(m) => jnbt_members(m, 0),
        JsonV::Array(a) => jnbt_elems(a, 0),
        _ => seq![],
    }
}

pub open spec fn raw_key(k: Seq<char>) -> bool {
    k == "nbt"@ || k == "tag"@ || k == "components"@
}

pub open spec fn jnbt_members(m: Seq<(Seq<char>, JsonV)>, i: int) -> Seq<char>
    decreases jheight(JsonV::Object(m)), 0int, m.len() - i,
{
    if 0 <= i < m.len() {
        proof {
            lemma_member_heights(m, i);
        }
        (if raw_key(m[i].0) && m[i].1 is String {
            (m[i].1->String_0).push('\n')
        } else {
            jnbt_text(m[i].1)
        }) + jnbt_members(m, i + 1)
    } else {
        seq![]
    }
}

pub open spec fn jnbt_elems(a: Seq<JsonV>, i: int) -> Seq<char>
    decreases jheight(JsonV::Array(a)), 0int, a.len() - i,
{
    if 0 <= i < a.len() {
        proof {
            lemma_jheights(a, i);
        }
        jnbt_text(a[i]) + jnbt_elems(a, i + 1)
    } else {
        seq![]
    }
}

fn is_raw_key(k: &str) -> (r: bool)
    ensures
        r == raw_key(k@),
{
    str_eq(k, "nbt") || str_eq(k, "tag") || str_eq(k, "components")
}

pub(crate) fn collect_nbt(v: &Json, out: &mut String)
    ensures
        final(out)@ == old(out)@ + jnbt_text(v@),
    decreases jheight(v@), 1int, 0int,
{
    match v {
        Json::Object(m) => {
            proof {
                lemma_members_view(m@);
            }
            let ghost mv = members_view(m@);
            let ghost start = out@;
            assert(v@ == JsonV::Object(mv));
            let mut i: usize = 0;
            while i < m.len()
                invariant
                    v@ == JsonV::Object(mv),
                    mv == members_view(m@),
                    mv.len() == m@.len(),
                    forall|j: int|
                        0 <= j < m@.len() ==> #[trigger] mv[j] == (m@[j].0@, m@[j].1@),
                    i <= m@.len(),
                    start + jnbt_members(mv, 0) == out@ + jnbt_members(mv, i as int),
                decreases m.len() - i,
            {
                proof {
                    lemma_member_heights(mv, i as int);
                }
                let ghost before = out@;
                let val = &m[i].1;
                let mut done = false;
                if is_raw_key(m[i].0.as_str()) {
                    if let Json::String(s) = val {
                        push_str(out, s.as_str());
                        push_char(out, '\n');
                        done = true;
                    }
                }
                if !done {
                    collect_nbt(val, out);
                }
                assert(out@ + jnbt_members(mv, i + 1) =~= before + jnbt_members(mv, i as int));
                i += 1;
            }
            assert(out@ =~= start + jnbt_text(v@));
        },
        Json::Array(a) => {
            proof {
                lemma_jsons_view(a@);
            }
            let ghost av = jsons_view(a@);
            let ghost start = out@;
            assert(v@ == JsonV::Array(av));
            let mut i: usize = 0;
            while i < a.len()
                invariant
                    v@ == JsonV::Array(av),
                    av == jsons_view(a@),
                    av.len() == a@.len(),
                    forall|j: int| 0 <= j < a@.len() ==> #[trigger] av[j] == a@[j]@,
                    i <= a@.len(),
                    start + jnbt_elems(av, 0) == out@ + jnbt_elems(av, i as int),
                decreases a.len() - i,
            {
                proof {
                    lemma_jheights(av, i as int);
                }
                let ghost before = out@;
                collect_nbt(&a[i], out);
                assert(out@ + jnbt_elems(av, i + 1) =~= before + jnbt_elems(av, i as int));
                i += 1;
            }
            assert(out@ =~= start + jnbt_text(v@));
        },
        _ => {
            assert(out@ =~= old(out)@ + jnbt_text(v@));
        },
    }
}


/// How many SNBT texts may be read one inside another while reading one
/// item stack.
pub open spec fn snbt_depth() -> nat {
    4294967295
}

/// An integer cut to 32 bits.
pub open spec fn cut32(x: int) -> i32 {
    #[verifier::truncate] (x as i32)
}

/// An item stack read from JSON: a non-air `id` (lowercased), `count` or
/// `Count` (default 1), `Slot` or `slot` (default `ds`); then its
/// components, its legacy `tag` (or `nbt`), and, for a toolbox, the items
/// that its data holds. Component and tag values may be objects or SNBT
/// texts of objects; `f` bounds how deep such texts are read.
pub open spec fn jitem(v: JsonV, ds: i32, f: nat) -> Option<ItemView>
    decreases f, jheight(v), 6int, 0int,
{
    match opt_jstr(jget(v, "id"@)) {
        None => None,
        Some(raw) => {
            let id = lowercase(raw);
            if id.len() == 0 || has_substr(id, "air"@) {
                None
            } else {
                let count = match opt_jnum(jget(v, "count"@)) {
                    Some(c) => c,
                    None => match opt_jnum(jget(v, "Count"@)) {
                        Some(c) => c,
                        None => 1,
                    },
                };
                let slot = match opt_jnum(jget(v, "Slot"@)) {
                    Some(x) => cut32(x as int),
                    None => match opt_jnum(jget(v, "slot"@)) {
                        Some(x) => cut32(x as int),
                        None => ds,
                    },
                };
                let base = plain_item(id, count, slot);
                proof {
                    lemma_jget_lower(v, "components"@);
                    lemma_jget_lower(v, "tag"@);
                    lemma_jget_lower(v, "nbt"@);
                }
                let a = match jget(v, "components"@) {
                    Some(c) => on_object(base, c, f, 0),
                    None => base,
                };
                let t = match jget(v, "tag"@) {
                    Some(t) => Some(t),
                    None => jget(v, "nbt"@),
                };
                let b = match t {
                    Some(t) => on_object(a, t, f, 1),
                    None => a,
                };
                if has_substr(id, "toolbox"@) {
                    let r1 = match jget(v, "components"@) {
                        Some(r) => on_object(b, r, f, 2),
                        None => b,
                    };
                    let r2 = match jget(v, "tag"@) {
                        Some(r) => on_object(r1, r, f, 2),
                        None => r1,
                    };
                    let r3 = match jget(v, "nbt"@) {
                        Some(r) => on_object(r2, r, f, 2),
                        None => r2,
                    };
                    Some(r3)
                } else {
                    Some(b)
                }
            }
        },
    }
}

/// A step applied to the object that `c` stands for: `c` itself, or the
/// object in its SNBT text.
pub open spec fn on_object(it: ItemView, c: JsonV, f: nat, mode: int) -> ItemView
    decreases f, jheight(c), 5int, 0int,
{
    match c {
        JsonV::Object(_) => obj_step(it, c, f, mode),
        JsonV::String(s) => if f > 0 {
            match snbt_of(s) {
                Some(p) => if p is Object {
                    obj_step(it, p, (f - 1) as nat, mode)
                } else {
                    it
                },
                None => it,
            }
        } else {
            it
        },
        _ => it,
    }
}

/// Mode 0: components; mode 1: components then the legacy tag; mode 2: a
/// toolbox's items, where the stack holds none yet.
pub open spec fn obj_step(it: ItemView, o: JsonV, f: nat, mode: int) -> ItemView
    decreases f, jheight(o), 4int, 0int,
{
    if mode == 0 {
        jcomps(it, o, f)
    } else if mode == 1 {
        jlegacy(jcomps(it, o, f), o, f)
    } else if it.contents.len() == 0 {
        ItemView { contents: jtoolbox(o, it.contents, f), ..it }
    } else {
        it
    }
}

pub open spec fn text_field(o: Option<JsonV>) -> Option<Seq<char>> {
    match opt_jstr(o) {
        Some(s) => Some(extract_text_spec(s)),
        None => None,
    }
}

/// What the components of an item stack add to it.
pub open spec fn jcomps(it: ItemView, c: JsonV, f: nat) -> ItemView
    decreases f, jheight(c), 3int, 0int,
{
    let cn0 = match text_field(jget(c, "minecraft:custom_name"@)) {
        Some(n) => Some(n),
        None => it.custom_name,
    };
    let cn = if cn0 is None {
        text_field(jget(c, "minecraft:item_name"@))
    } else {
        cn0
    };
    let lore = match opt_jget(Some(c), "minecraft:lore"@) {
        Some(lv) => match jarray(lv) {
            Some(l) => jlore_lines(l, 0),
            None => it.lore,
        },
        None => it.lore,
    };
    let ench = it.enchants + jench(jget(c, "minecraft:enchantments"@)) + jench(
        jget(c, "minecraft:stored_enchantments"@),
    );
    let dmg = match opt_jnum(jget(c, "minecraft:damage"@)) {
        Some(d) => Some(cut32(d as int)),
        None => it.damage,
    };
    let mx = match opt_jnum(jget(c, "minecraft:max_damage"@)) {
        Some(d) => Some(cut32(d as int)),
        None => it.max_damage,
    };
    let p = ItemView { custom_name: cn, lore, enchants: ench, damage: dmg, max_damage: mx, ..it };
    let n = ItemView { contents: jnested_keys(c, 0, p.contents, f), ..p };
    let u = match opt_juuid(jget(c, "sophisticatedcore:storage_uuid"@)) {
        Some(x) => ItemView { storage_uuid: Some(lowercase(x)), ..n },
        None => n,
    };
    if player_head_id(u.id) {
        match jget(c, "minecraft:profile"@) {
            Some(pr) => jskull_modern(pr, u),
            None => u,
        }
    } else {
        u
    }
}

/// The items nested under each nested-item key of components `c`, from key
/// `k`.
pub open spec fn jnested_keys(c: JsonV, k: int, out: Seq<ItemView>, f: nat) -> Seq<ItemView>
    decreases f, jheight(c), 2int, 7 - k,
{
    if 0 <= k < 7 {
        let out2 = match jget(c, crate::parse::nbt::nested_key(k)) {
            Some(cv) => {
                proof {
                    lemma_jget_lower(c, crate::parse::nbt::nested_key(k));
                }
                jnested(cv, out, f)
            },
            None => out,
        };
        jnested_keys(c, k + 1, out2, f)
    } else {
        out
    }
}

/// Items held by a container component: a list of slot entries or of item
/// stacks, or an object with such an `items` list.
pub open spec fn jnested(v: JsonV, out: Seq<ItemView>, f: nat) -> Seq<ItemView>
    decreases f, jheight(v), 2int, 0int,
{
    match v {
        JsonV::Array(l) => jnested_elems(l, 0, out, f),
        JsonV::Object(_) => match jget(v, "items"@) {
            Some(items) => {
                proof {
                    lemma_jget_lower(v, "items"@);
                }
                jnested(items, out, f)
            },
            None => out,
        },
        _ => out,
    }
}

pub open spec fn jnested_elems(l: Seq<JsonV>, i: int, out: Seq<ItemView>, f: nat) -> Seq<ItemView>
    decreases f, jheight(JsonV::Array(l)), 1int, l.len() - i,
{
    if 0 <= i < l.len() {
        let e = l[i];
        proof {
            lemma_jheights(l, i);
            lemma_jget_lower(e, "item"@);
        }
        let out2 = match jget(e, "item"@) {
            Some(inner) => {
                let slot = match opt_jnum(jget(e, "slot"@)) {
                    Some(x) => cut32(x as int),
                    None => cut32(out.len() as int),
                };
                push_some(out, jitem(inner, slot, f))
            },
            None => if jget(e, "id"@) is Some {
                push_some(out, jitem(e, cut32(out.len() as int), f))
            } else {
                out
            },
        };
        jnested_elems(l, i + 1, out2, f)
    } else {
        out
    }
}

/// What a legacy `tag` adds to an item stack: display name and lore,
/// enchantments, damage, block entity items, and a head's owner.
pub open spec fn jlegacy(it: ItemView, tag: JsonV, f: nat) -> ItemView
    decreases f, jheight(tag), 3int, 0int,
{
    let disp = jget(tag, "display"@);
    let cn = match text_field(opt_jget(disp, "Name"@)) {
        Some(n) => Some(n),
        None => it.custom_name,
    };
    let lore = match opt_jget(disp, "Lore"@) {
        Some(lv) => match jarray(lv) {
            Some(l) => jlore_lines(l, 0),
            None => it.lore,
        },
        None => it.lore,
    };
    let ench = it.enchants + jlegacy_ench(jget(tag, "Enchantments"@)) + jlegacy_ench(
        jget(tag, "StoredEnchantments"@),
    );
    let dmg = match opt_jnum(jget(tag, "Damage"@)) {
        Some(d) => Some(cut32(d as int)),
        None => it.damage,
    };
    let a = ItemView { custom_name: cn, lore, enchants: ench, damage: dmg, ..it };
    proof {
        lemma_jget_lower(tag, "BlockEntityTag"@);
        if let Some(be) = jget(tag, "BlockEntityTag"@) {
            lemma_jget_lower(be, "Items"@);
        }
    }
    let b = match opt_jget(jget(tag, "BlockEntityTag"@), "Items"@) {
        Some(lv) => match lv {
            JsonV::Array(list) => ItemView { contents: jblock_items(list, 0, a.contents, f), ..a },
            _ => a,
        },
        None => a,
    };
    if player_head_id(b.id) && b.head_skin is None && b.head_ref is None {
        match jget(tag, "SkullOwner"@) {
            Some(o) => jskull_legacy(o, b),
            None => b,
        }
    } else {
        b
    }
}

/// Each element of a block entity's item list, at its position as default
/// slot.
pub open spec fn jblock_items(l: Seq<JsonV>, i: int, out: Seq<ItemView>, f: nat) -> Seq<ItemView>
    decreases f, jheight(JsonV::Array(l)), 2int, l.len() - i,
{
    if 0 <= i < l.len() {
        proof {
            lemma_jheights(l, i);
        }
        jblock_items(l, i + 1, push_some(out, jitem(l[i], cut32(i), f)), f)
    } else {
        out
    }
}

/// The item list of a toolbox's inventory: `items.items`, else `items`.
pub open spec fn toolbox_list(inv: JsonV) -> Option<JsonV> {
    match jget(inv, "items"@) {
        Some(i) => match jget(i, "items"@) {
            Some(x) => Some(x),
            None => Some(i),
        },
        None => None,
    }
}

pub proof fn lemma_toolbox_list_lower(inv: JsonV)
    ensures
        toolbox_list(inv) matches Some(x) ==> jheight(x) < jheight(inv),
{
    lemma_jget_lower(inv, "items"@);
    if let Some(i) = jget(inv, "items"@) {
        lemma_jget_lower(i, "items"@);
    }
}

/// Items of the `create:toolbox_inventory` found in `o`: by slot key (its
/// number, else the count so far) or by position.
pub open spec fn jtoolbox(o: JsonV, out: Seq<ItemView>, f: nat) -> Seq<ItemView>
    decreases f, jheight(o), 3int, 0int,
{
    match jfind(o, "create:toolbox_inventory"@) {
        None => out,
        Some(inv) => {
            proof {
                lemma_jfind_lower(o, "create:toolbox_inventory"@);
                lemma_toolbox_list_lower(inv);
            }
            match toolbox_list(inv) {
                Some(JsonV::Object(m)) => jtool_members(m, 0, out, f),
                Some(JsonV::Array(a)) => jtool_elems(a, 0, out, f),
                _ => out,
            }
        },
    }
}

pub open spec fn jtool_members(m: Seq<(Seq<char>, JsonV)>, i: int, out: Seq<ItemView>, f: nat) -> Seq<
    ItemView,
>
    decreases f, jheight(JsonV::Object(m)), 2int, m.len() - i,
{
    if 0 <= i < m.len() {
        proof {
            lemma_member_heights(m, i);
        }
        let out2 = if jget(m[i].1, "id"@) is Some {
            let s = match parse_i32_spec(m[i].0) {
                Some(x) => x,
                None => cut32(out.len() as int),
            };
            push_some(out, jitem(m[i].1, s, f))
        } else {
            out
        };
        jtool_members(m, i + 1, out2, f)
    } else {
        out
    }
}

pub open spec fn jtool_elems(a: Seq<JsonV>, i: int, out: Seq<ItemView>, f: nat) -> Seq<ItemView>
    decreases f, jheight(JsonV::Array(a)), 2int, a.len() - i,
{
    if 0 <= i < a.len() {
        proof {
            lemma_jheights(a, i);
        }
        jtool_elems(a, i + 1, push_some(out, jitem(a[i], cut32(out.len() as int), f)), f)
    } else {
        out
    }
}


fn len_i32(out: &Vec<Item>) -> (r: i32)
    ensures
        r == cut32(items_view(out@).len() as int),
{
    proof {
        lemma_items_view_len(out@);
    }
    #[verifier::truncate] (out.len() as i32)
}

fn num_field(v: &Json, key: &str) -> (r: Option<i64>)
    ensures
        r == opt_jnum(jget(v@, key@)),
{
    match jget_ref(v, key) {
        Some(x) => jnum_of(x),
        None => None,
    }
}

fn text_field_of(v: &Json, key: &str) -> (r: Option<String>)
    ensures
        crate::model::opt_string_view(r) == text_field(jget(v@, key@)),
{
    match jget_ref(v, key) {
        Some(x) => match jstr_ref(x) {
            Some(s) => Some(extract_text(s.as_str())),
            None => None,
        },
        None => None,
    }
}

/// Reads one item stack (see `jitem`), reading SNBT texts at most `f` deep.
fn item_json(v: &Json, ds: i32, f: u32) -> (r: Option<Item>)
    ensures
        opt_item_view(r) == jitem(v@, ds, f as nat),
    decreases f, jheight(v@), 6int, 0int,
{
    let idv = jget_ref(v, "id")?;
    let raw = jstr_ref(idv)?;
    let id = to_lower(raw.as_str());
    if id.as_str().unicode_len() == 0 || str_contains(id.as_str(), "air") {
        return None;
    }
    let count = match num_field(v, "count") {
        Some(c) => c,
        None => match num_field(v, "Count") {
            Some(c) => c,
            None => 1,
        },
    };
    let slot = match num_field(v, "Slot") {
        Some(x) => #[verifier::truncate] (x as i32),
        None => match num_field(v, "slot") {
            Some(x) => #[verifier::truncate] (x as i32),
            None => ds,
        },
    };
    let is_toolbox = str_contains(id.as_str(), "toolbox");
    let ghost idv2 = id@;
    let mut item = Item::plain(id, count, slot);
    proof {
        lemma_jget_lower(v@, "components"@);
        lemma_jget_lower(v@, "tag"@);
        lemma_jget_lower(v@, "nbt"@);
    }
    if let Some(c) = jget_ref(v, "components") {
        apply_on_object(&mut item, c, f, 0);
    }
    let t = match jget_ref(v, "tag") {
        Some(t) => Some(t),
        None => jget_ref(v, "nbt"),
    };
    if let Some(t) = t {
        apply_on_object(&mut item, t, f, 1);
    }
    if is_toolbox {
        if let Some(r) = jget_ref(v, "components") {
            apply_on_object(&mut item, r, f, 2);
        }
        if let Some(r) = jget_ref(v, "tag") {
            apply_on_object(&mut item, r, f, 2);
        }
        if let Some(r) = jget_ref(v, "nbt") {
            apply_on_object(&mut item, r, f, 2);
        }
    }
    Some(item)
}

fn apply_on_object(item: &mut Item, c: &Json, f: u32, mode: u8)
    requires
        mode <= 2,
    ensures
        final(item)@ == on_object(old(item)@, c@, f as nat, mode as int),
    decreases f, jheight(c@), 5int, 0int,
{
    match c {
        Json::Object(_) => {
            apply_obj_step(item, c, f, mode);
        },
        Json::String(s) => {
            if f > 0 {
                if let Some(p) = parse(s.as_str()) {
                    if let Json::Object(_) = p {
                        apply_obj_step(item, &p, f - 1, mode);
                    }
                }
            }
        },
        _ => {},
    }
}

fn apply_obj_step(item: &mut Item, o: &Json, f: u32, mode: u8)
    requires
        mode <= 2,
    ensures
        final(item)@ == obj_step(old(item)@, o@, f as nat, mode as int),
    decreases f, jheight(o@), 4int, 0int,
{
    if mode == 0 {
        apply_components(item, o, f);
    } else if mode == 1 {
        apply_components(item, o, f);
        apply_legacy_tag(item, o, f);
    } else {
        proof {
            lemma_items_view_len(item.contents@);
        }
        if item.contents.len() == 0 {
            extract_toolbox_json(o, &mut item.contents, f);
        }
    }
}

fn apply_components(item: &mut Item, comps: &Json, f: u32)
    ensures
        final(item)@ == jcomps(old(item)@, comps@, f as nat),
    decreases f, jheight(comps@), 3int, 0int,
{
    let ghost c = comps@;
    if let Some(n) = text_field_of(comps, "minecraft:custom_name") {
        item.custom_name = Some(n);
    }
    if item.custom_name.is_none() {
        item.custom_name = text_field_of(comps, "minecraft:item_name");
    }
    if let Some(lv) = jget_ref(comps, "minecraft:lore") {
        if let Some(l) = jarray_ref(lv) {
            item.lore = jlore_of(l);
        }
    }
    read_json_enchants(jget_ref(comps, "minecraft:enchantments"), &mut item.enchants);
    read_json_enchants(jget_ref(comps, "minecraft:stored_enchantments"), &mut item.enchants);
    if let Some(d) = num_field(comps, "minecraft:damage") {
        item.damage = Some(#[verifier::truncate] (d as i32));
    }
    if let Some(d) = num_field(comps, "minecraft:max_damage") {
        item.max_damage = Some(#[verifier::truncate] (d as i32));
    }
    let ghost p = item@;
    let mut k: usize = 0;
    while k < 7
        invariant
            k <= 7,
            c == comps@,
            item@ == (ItemView { contents: item@.contents, ..p }),
            jnested_keys(c, 0, p.contents, f as nat) == jnested_keys(
                c,
                k as int,
                item@.contents,
                f as nat,
            ),
        decreases 7 - k,
    {
        let key = crate::parse::nbt::nested_key_str(k);
        if let Some(cv) = jget_ref(comps, key) {
            proof {
                lemma_jget_lower(c, crate::parse::nbt::nested_key(k as int));
            }
            extract_nested(cv, &mut item.contents, f);
        }
        k += 1;
    }
    if let Some(x) = jget_ref(comps, "sophisticatedcore:storage_uuid") {
        if let Some(u) = uuid_from_json(x) {
            item.storage_uuid = Some(to_lower(u.as_str()));
        }
    }
    if item.is_player_head() {
        if let Some(pr) = jget_ref(comps, "minecraft:profile") {
            extract_skull_modern(item, pr);
        }
    }
}

fn extract_nested(v: &Json, out: &mut Vec<Item>, f: u32)
    ensures
        items_view(final(out)@) == jnested(v@, items_view(old(out)@), f as nat),
    decreases f, jheight(v@), 2int, 0int,
{
    match v {
        Json::Array(l) => {
            proof {
                lemma_jsons_view(l@);
            }
            let ghost lv = jsons_view(l@);
            assert(v@ == JsonV::Array(lv));
            let ghost start = items_view(out@);
            let mut i: usize = 0;
            while i < l.len()
                invariant
                    v@ == JsonV::Array(lv),
                    i <= l@.len(),
                    lv == jsons_view(l@),
                    lv.len() == l@.len(),
                    forall|j: int| 0 <= j < l@.len() ==> #[trigger] lv[j] == l@[j]@,
                    jnested_elems(lv, 0, start, f as nat) == jnested_elems(
                        lv,
                        i as int,
                        items_view(out@),
                        f as nat,
                    ),
                decreases l.len() - i,
            {
                let e = &l[i];
                proof {
                    lemma_jheights(lv, i as int);
                    lemma_jget_lower(e@, "item"@);
                }
                if let Some(inner) = jget_ref(e, "item") {
                    let slot = match num_field(e, "slot") {
                        Some(x) => #[verifier::truncate] (x as i32),
                        None => len_i32(out),
                    };
                    let it = item_json(inner, slot, f);
                    push_item(out, it);
                } else if jget_ref(e, "id").is_some() {
                    let d = len_i32(out);
                    let it = item_json(e, d, f);
                    push_item(out, it);
                }
                i += 1;
            }
        },
        Json::Object(_) => {
            if let Some(items) = jget_ref(v, "items") {
                proof {
                    lemma_jget_lower(v@, "items"@);
                }
                extract_nested(items, out, f);
            }
        },
        _ => {},
    }
}

fn apply_legacy_tag(item: &mut Item, tag: &Json, f: u32)
    ensures
        final(item)@ == jlegacy(old(item)@, tag@, f as nat),
    decreases f, jheight(tag@), 3int, 0int,
{
    if let Some(display) = jget_ref(tag, "display") {
        if let Some(n) = text_field_of(display, "Name") {
            item.custom_name = Some(n);
        }
        if let Some(lv) = jget_ref(display, "Lore") {
            if let Some(l) = jarray_ref(lv) {
                item.lore = jlore_of(l);
            }
        }
    }
    read_legacy_ench(jget_ref(tag, "Enchantments"), &mut item.enchants);
    read_legacy_ench(jget_ref(tag, "StoredEnchantments"), &mut item.enchants);
    if let Some(d) = num_field(tag, "Damage") {
        item.damage = Some(#[verifier::truncate] (d as i32));
    }
    proof {
        lemma_jget_lower(tag@, "BlockEntityTag"@);
    }
    if let Some(be) = jget_ref(tag, "BlockEntityTag") {
        proof {
            lemma_jget_lower(be@, "Items"@);
        }
        if let Some(lv) = jget_ref(be, "Items") {
            if let Json::Array(list) = lv {
                proof {
                    lemma_jsons_view(list@);
                }
                let ghost l = jsons_view(list@);
                assert(lv@ == JsonV::Array(l));
                let ghost start = items_view(item.contents@);
                let ghost rest = item@;
                let mut i: usize = 0;
                while i < list.len()
                    invariant
                        lv@ == JsonV::Array(l),
                        jheight(lv@) < jheight(tag@),
                        i <= list@.len(),
                        l == jsons_view(list@),
                        l.len() == list@.len(),
                        forall|j: int| 0 <= j < list@.len() ==> #[trigger] l[j] == list@[j]@,
                        item@ == (ItemView { contents: item@.contents, ..rest }),
                        jblock_items(l, 0, start, f as nat) == jblock_items(
                            l,
                            i as int,
                            items_view(item.contents@),
                            f as nat,
                        ),
                    decreases list.len() - i,
                {
                    proof {
                        lemma_jheights(l, i as int);
                    }
                    let it = item_json(&list[i], #[verifier::truncate] (i as i32), f);
                    push_item(&mut item.contents, it);
                    i += 1;
                }
            }
        }
    }
    if item.is_player_head() && item.head_skin.is_none() && item.head_ref.is_none() {
        if let Some(o) = jget_ref(tag, "SkullOwner") {
            extract_skull_legacy(item, o);
        }
    }
}

fn extract_toolbox_json(o: &Json, out: &mut Vec<Item>, f: u32)
    ensures
        items_view(final(out)@) == jtoolbox(o@, items_view(old(out)@), f as nat),
    decreases f, jheight(o@), 3int, 0int,
{
    let inv = match find_json(o, "create:toolbox_inventory") {
        Some(x) => x,
        None => {
            return;
        },
    };
    proof {
        lemma_jfind_lower(o@, "create:toolbox_inventory"@);
        lemma_toolbox_list_lower(inv@);
    }
    let inner = match jget_ref(inv, "items") {
        Some(i) => match jget_ref(i, "items") {
            Some(x) => x,
            None => i,
        },
        None => {
            return;
        },
    };
    let ghost start = items_view(out@);
    assert(toolbox_list(inv@) == Some(inner@));
    assert(jheight(inner@) < jheight(o@));
    match inner {
        Json::Object(m) => {
            proof {
                lemma_members_view(m@);
            }
            let ghost mv = members_view(m@);
            assert(inner@ == JsonV::Object(mv));
            let mut i: usize = 0;
            while i < m.len()
                invariant
                    inner@ == JsonV::Object(mv),
                    jheight(inner@) < jheight(o@),
                    i <= m@.len(),
                    mv == members_view(m@),
                    mv.len() == m@.len(),
                    forall|j: int|
                        0 <= j < m@.len() ==> #[trigger] mv[j] == (m@[j].0@, m@[j].1@),
                    jtool_members(mv, 0, start, f as nat) == jtool_members(
                        mv,
                        i as int,
                        items_view(out@),
                        f as nat,
                    ),
                decreases m.len() - i,
            {
                proof {
                    lemma_member_heights(mv, i as int);
                }
                let it_v = &m[i].1;
                if jget_ref(it_v, "id").is_some() {
                    let s = match parse_i32(m[i].0.as_str()) {
                        Some(x) => x,
                        None => len_i32(out),
                    };
                    let it = item_json(it_v, s, f);
                    push_item(out, it);
                }
                i += 1;
            }
        },
        Json::Array(a) => {
            proof {
                lemma_jsons_view(a@);
            }
            let ghost av = jsons_view(a@);
            assert(inner@ == JsonV::Array(av));
            let mut i: usize = 0;
            while i < a.len()
                invariant
                    inner@ == JsonV::Array(av),
                    jheight(inner@) < jheight(o@),
                    i <= a@.len(),
                    av == jsons_view(a@),
                    av.len() == a@.len(),
                    forall|j: int| 0 <= j < a@.len() ==> #[trigger] av[j] == a@[j]@,
                    jtool_elems(av, 0, start, f as nat) == jtool_elems(
                        av,
                        i as int,
                        items_view(out@),
                        f as nat,
                    ),
                decreases a.len() - i,
            {
                proof {
                    lemma_jheights(av, i as int);
                }
                let d = len_i32(out);
                let it = item_json(&a[i], d, f);
                push_item(out, it);
                i += 1;
            }
        },
        _ => {},
    }
}


/// An item stack read from JSON (see `jitem`).
pub fn item_from_json(v: &Json, default_slot: i32) -> (r: Option<Item>)
    ensures
        opt_item_view(r) == jitem(v@, default_slot, snbt_depth()),
{
    item_json(v, default_slot, 4294967295)
}

/// The fields of a dump element that the entries are built from.
pub struct RawElement {
    pub id: Option<Json>,
    pub x: Option<Json>,
    pub y: Option<Json>,
    pub z: Option<Json>,
    pub dimension: Option<Json>,
    pub is_dungeon: Option<Json>,
    pub items: Option<Json>,
    pub name: Option<Json>,
    pub uuid: Option<Json>,
    pub inventory: Option<Json>,
    pub ender_chest: Option<Json>,
}

/// The mathematical form of a dump element.
pub struct RawV {
    pub id: Option<JsonV>,
    pub x: Option<JsonV>,
    pub y: Option<JsonV>,
    pub z: Option<JsonV>,
    pub dimension: Option<JsonV>,
    pub is_dungeon: Option<JsonV>,
    pub items: Option<JsonV>,
    pub name: Option<JsonV>,
    pub uuid: Option<JsonV>,
    pub inventory: Option<JsonV>,
    pub ender_chest: Option<JsonV>,
}

pub open spec fn ojv(o: Option<Json>) -> Option<JsonV> {
    match o {
        Some(j) => Some(j@),
        None => None,
    }
}

impl View for RawElement {
    type V = RawV;

    open spec fn view(&self) -> RawV {
        RawV {
            id: ojv(self.id),
            x: ojv(self.x),
            y: ojv(self.y),
            z: ojv(self.z),
            dimension: ojv(self.dimension),
            is_dungeon: ojv(self.is_dungeon),
            items: ojv(self.items),
            name: ojv(self.name),
            uuid: ojv(self.uuid),
            inventory: ojv(self.inventory),
            ender_chest: ojv(self.ender_chest),
        }
    }
}

/// A field read as `Option<Value>`: absent or `null` is none.
pub open spec fn field_of(o: Option<JsonV>) -> Option<JsonV> {
    match o {
        Some(JsonV::Null) => None,
        x => x,
    }
}

/// The element that a JSON object (by field name) or an array of exactly
/// eleven values (by position) holds; none for any other value.
pub open spec fn raw_of(v: JsonV) -> Option<RawV> {
    match v {
        JsonV::Object(m) => Some(
            RawV {
                id: field_of(member_of(m, "id"@)),
                x: field_of(member_of(m, "x"@)),
                y: field_of(member_of(m, "y"@)),
                z: field_of(member_of(m, "z"@)),
                dimension: field_of(member_of(m, "dimension"@)),
                is_dungeon: field_of(member_of(m, "is_dungeon"@)),
                items: field_of(member_of(m, "items"@)),
                name: field_of(member_of(m, "name"@)),
                uuid: field_of(member_of(m, "uuid"@)),
                inventory: field_of(member_of(m, "inventory"@)),
                ender_chest: field_of(member_of(m, "ender_chest"@)),
            },
        ),
        JsonV::Array(a) => if a.len() == 11 {
            Some(
                RawV {
                    id: field_of(Some(a[0])),
                    x: field_of(Some(a[1])),
                    y: field_of(Some(a[2])),
                    z: field_of(Some(a[3])),
                    dimension: field_of(Some(a[4])),
                    is_dungeon: field_of(Some(a[5])),
                    items: field_of(Some(a[6])),
                    name: field_of(Some(a[7])),
                    uuid: field_of(Some(a[8])),
                    inventory: field_of(Some(a[9])),
                    ender_chest: field_of(Some(a[10])),
                },
            )
        } else {
            None
        },
        _ => None,
    }
}

pub open spec fn member_of(m: Seq<(Seq<char>, JsonV)>, k: Seq<char>) -> Option<JsonV> {
    crate::json_value::member(m, k)
}

fn field(o: Option<&Json>) -> (r: Option<Json>)
    ensures
        ojv(r) == field_of(opt_jview(o)),
{
    match o {
        Some(Json::Null) => None,
        Some(x) => Some(crate::json_value::copy_json(x)),
        None => None,
    }
}

/// Reads a dump element's fields from a JSON value (see `raw_of`).
pub fn raw_element(v: &Json) -> (r: Option<RawElement>)
    ensures
        match r {
            Some(e) => raw_of(v@) == Some(e@),
            None => raw_of(v@) is None,
        },
{
    match v {
        Json::Object(m) => {
            proof {
                lemma_members_view(m@);
            }
            Some(
                RawElement {
                    id: field(jget_ref(v, "id")),
                    x: field(jget_ref(v, "x")),
                    y: field(jget_ref(v, "y")),
                    z: field(jget_ref(v, "z")),
                    dimension: field(jget_ref(v, "dimension")),
                    is_dungeon: field(jget_ref(v, "is_dungeon")),
                    items: field(jget_ref(v, "items")),
                    name: field(jget_ref(v, "name")),
                    uuid: field(jget_ref(v, "uuid")),
                    inventory: field(jget_ref(v, "inventory")),
                    ender_chest: field(jget_ref(v, "ender_chest")),
                },
            )
        },
        Json::Array(a) => {
            proof {
                lemma_jsons_view(a@);
            }
            if a.len() != 11 {
                return None;
            }
            Some(
                RawElement {
                    id: field(Some(&a[0])),
                    x: field(Some(&a[1])),
                    y: field(Some(&a[2])),
                    z: field(Some(&a[3])),
                    dimension: field(Some(&a[4])),
                    is_dungeon: field(Some(&a[5])),
                    items: field(Some(&a[6])),
                    name: field(Some(&a[7])),
                    uuid: field(Some(&a[8])),
                    inventory: field(Some(&a[9])),
                    ender_chest: field(Some(&a[10])),
                },
            )
        },
        _ => None,
    }
}


/// The kind of a dump whose first element is `el`: players where it has an
/// ender chest, or a uuid and an inventory; containers otherwise.
pub open spec fn detect(el: RawV) -> JsonKind {
    if el.ender_chest is Some || (el.uuid is Some && el.inventory is Some) {
        JsonKind::Players
    } else {
        JsonKind::Containers
    }
}

pub fn detect_kind(el: &RawElement) -> (r: JsonKind)
    ensures
        r == detect(el@),
{
    if el.ender_chest.is_some() || (el.uuid.is_some() && el.inventory.is_some()) {
        JsonKind::Players
    } else {
        JsonKind::Containers
    }
}

/// The first `n` item stacks of an array, each at its position as default
/// slot.
pub open spec fn jlisted(a: Seq<JsonV>, n: int) -> Seq<ItemView>
    decreases n,
{
    if n <= 0 || n > a.len() {
        seq![]
    } else {
        push_some(jlisted(a, n - 1), jitem(a[n - 1], cut32(n - 1), snbt_depth()))
    }
}

/// The first `n` item stacks of an object, each at the slot its key names
/// (-1 where the key is no number).
pub open spec fn jkeyed(m: Seq<(Seq<char>, JsonV)>, n: int) -> Seq<ItemView>
    decreases n,
{
    if n <= 0 || n > m.len() {
        seq![]
    } else {
        let slot: i32 = match parse_i32_spec(m[n - 1].0) {
            Some(x) => x,
            None => -1i32,
        };
        push_some(jkeyed(m, n - 1), jitem(m[n - 1].1, slot, snbt_depth()))
    }
}

/// The item stacks of a container's `items`.
pub open spec fn json_items(o: Option<JsonV>) -> Seq<ItemView> {
    match o {
        Some(JsonV::Array(a)) => jlisted(a, a.len() as int),
        Some(JsonV::Object(m)) => jkeyed(m, m.len() as int),
        _ => seq![],
    }
}

fn parse_items(v: Option<&Json>) -> (r: Vec<Item>)
    ensures
        items_view(r@) == json_items(opt_jview(v)),
{
    let mut out: Vec<Item> = Vec::new();
    match v {
        Some(Json::Array(a)) => {
            proof {
                lemma_jsons_view(a@);
            }
            let ghost av = jsons_view(a@);
            let mut i: usize = 0;
            while i < a.len()
                invariant
                    i <= a@.len(),
                    av == jsons_view(a@),
                    av.len() == a@.len(),
                    forall|j: int| 0 <= j < a@.len() ==> #[trigger] av[j] == a@[j]@,
                    items_view(out@) == jlisted(av, i as int),
                decreases a.len() - i,
            {
                let it = item_from_json(&a[i], #[verifier::truncate] (i as i32));
                push_item(&mut out, it);
                i += 1;
            }
        },
        Some(Json::Object(m)) => {
            proof {
                lemma_members_view(m@);
            }
            let ghost mv = members_view(m@);
            let mut i: usize = 0;
            while i < m.len()
                invariant
                    i <= m@.len(),
                    mv == members_view(m@),
                    mv.len() == m@.len(),
                    forall|j: int|
                        0 <= j < m@.len() ==> #[trigger] mv[j] == (m@[j].0@, m@[j].1@),
                    items_view(out@) == jkeyed(mv, i as int),
                decreases m.len() - i,
            {
                let slot = match parse_i32(m[i].0.as_str()) {
                    Some(x) => x,
                    None => -1,
                };
                let it = item_from_json(&m[i].1, slot);
                push_item(&mut out, it);
                i += 1;
            }
        },
        _ => {},
    }
    out
}

pub open spec fn opt_jcoord(o: Option<JsonV>) -> Option<i64> {
    match o {
        Some(v) => jcoord(v),
        None => None,
    }
}

/// The container entry of a JSON element (the same shape as a binary
/// dump's, see `container_entry`): `id`, `x`, `y`, `z` and `dimension` as
/// text, `is_dungeon` as a boolean, the items, and the raw data strings of
/// the items.
pub open spec fn json_container(e: Entry, el: RawV) -> bool {
    container_entry(
        e,
        str_or(jtext(el.id), "minecraft:chest"@),
        str_or(jtext(el.x), "?"@),
        str_or(jtext(el.y), "?"@),
        str_or(jtext(el.z), "?"@),
        str_or(jtext(el.dimension), "minecraft:overworld"@),
        match el.is_dungeon {
            Some(v) => match jbool(v) {
                Some(b) => b,
                None => false,
            },
            None => false,
        },
        json_items(el.items),
        match (opt_jcoord(el.x), opt_jcoord(el.y), opt_jcoord(el.z)) {
            (Some(a), Some(b), Some(c)) => Some((a, b, c)),
            _ => None,
        },
        match el.items {
            Some(v) => jnbt_text(v),
            None => seq![],
        },
    )
}

fn text_or(v: &Option<Json>, d: &str) -> (r: String)
    ensures
        r@ == str_or(jtext(ojv(*v)), d@),
{
    match j_str(v) {
        Some(s) => s,
        None => copy_str(d),
    }
}

fn opt_coord(v: &Option<Json>) -> (r: Option<i64>)
    ensures
        r == opt_jcoord(ojv(*v)),
{
    match v {
        Some(x) => coord(x),
        None => None,
    }
}

/// The entry of a container element.
pub fn build_container(el: &RawElement) -> (r: Entry)
    ensures
        json_container(r, el@),
{
    let id = text_or(&el.id, "minecraft:chest");
    let x = text_or(&el.x, "?");
    let y = text_or(&el.y, "?");
    let z = text_or(&el.z, "?");
    let dimension = text_or(&el.dimension, "minecraft:overworld");
    let is_dungeon = match &el.is_dungeon {
        Some(v) => match jbool_of(v) {
            Some(b) => b,
            None => false,
        },
        None => false,
    };
    let items = parse_items(match &el.items {
        Some(v) => Some(v),
        None => None,
    });
    let coords = match (opt_coord(&el.x), opt_coord(&el.y), opt_coord(&el.z)) {
        (Some(a), Some(b), Some(c)) => Some((a, b, c)),
        _ => None,
    };
    let mut raw = String::new();
    if let Some(v) = &el.items {
        collect_nbt(v, &mut raw);
    }
    assert(raw@ =~= match el@.items {
        Some(v) => jnbt_text(v),
        None => seq![],
    });
    container_entry_of(id, x, y, z, dimension, is_dungeon, items, coords, raw)
}

/// The entries of one element of a JSON dump of the given kind.
pub open spec fn json_built(es: Seq<Entry>, el: RawV, kind: JsonKind) -> bool {
    match kind {
        JsonKind::Containers => es.len() == 1 && json_container(es[0], el),
        JsonKind::Players => crate::parse::players::json_players(es, el),
    }
}

pub fn build_one(el: &RawElement, kind: JsonKind) -> (r: Vec<Entry>)
    ensures
        json_built(r@, el@, kind),
{
    match kind {
        JsonKind::Containers => {
            let mut out: Vec<Entry> = Vec::new();
            out.push(build_container(el));
            out
        },
        JsonKind::Players => crate::parse::players::build_player(el),
    }
}

} // verus!
