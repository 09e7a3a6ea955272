//! Items and backpacks read from NBT: components, nested containers, player
//! heads, toolboxes, and the backpack file of Sophisticated Backpacks.
use base64::Engine;
use std::io::Read;
use vstd::prelude::*;
use crate::json_value::{
    jarray_ref, jget, jget_ref, jheight, jheights, jobject_ref, jstr, jstr_ref, lemma_jget_lower,
    lemma_jheights, lemma_jsons_view, opt_jget, opt_jstr, parse_json_bytes, parse_json_text,
    json_bytes_value, json_text_value, Json, JsonV,
};
use crate::model::{
    copies_view, finalized, format_short_date, items_view, lemma_items_view_push,
    lemma_items_view_len, pairs_view, plain_item, player_head_id, prettify, prettify_id,
    short_date, strs_view, text_pairs_view, CopyAction, Entry, EntryKind, Item, ItemView,
};
use crate::nbt_value::{
    as_i64, as_list, as_str, comp, get, get_spec, height, int_array, int_array_of, int_of,
    lemma_get_lower, lemma_list_lower, lemma_nbts_view, lemma_entries_view, list_of, lookup,
    nbts_view, entries_view, opt_int, opt_list, opt_str, opt_view, str_of, Nbt, NbtV,
};
use crate::nbt_value::{decode_nbt, entry_heights, lemma_entry_heights, nbt_read, tree};
use crate::parse::dump_nbt::{
    cat, copy_action, int_field, items_from_list, join3, list_items, str_field_or, str_or,
    text_pair,
};
use crate::text::{str_eq, 
    chars_of, chars_start_with, copy_str, has_substr, lowercase, push_char, push_str,
    str_contains, string_from, to_lower, trim, trim_chars,
};

verus! {

/// `s` without leading and trailing `"` (`str::trim_matches('"')`).
pub open spec fn strip_quotes(s: Seq<char>) -> Seq<char>
    decreases s.len(),
{
    if s.len() > 0 && s[0] == '"' {
        strip_quotes(s.drop_first())
    } else if s.len() > 0 && s.last() == '"' {
        strip_quotes(s.drop_last())
    } else {
        s
    }
}

fn strip_quotes_chars(s: &[char]) -> (r: Vec<char>)
    ensures
        r@ == strip_quotes(s@),
{
    let n = s.len();
    let mut i: usize = 0;
    let mut j: usize = n;
    assert(s@.subrange(0, n as int) =~= s@);
    while i < j && (s[i] == '"' || s[j - 1] == '"')
        invariant
            i <= j <= n == s@.len(),
            strip_quotes(s@) == strip_quotes(s@.subrange(i as int, j as int)),
        decreases j - i,
    {
        let ghost t = s@.subrange(i as int, j as int);
        if s[i] == '"' {
            assert(t.drop_first() =~= s@.subrange(i + 1, j as int));
            i += 1;
        } else {
            assert(t.drop_last() =~= s@.subrange(i as int, j - 1));
            j -= 1;
        }
    }
    let mut out: Vec<char> = Vec::new();
    let mut k: usize = i;
    while k < j
        invariant
            i <= k <= j <= n == s@.len(),
            out@ == s@.subrange(i as int, k as int),
        decreases j - k,
    {
        out.push(s[k]);
        k += 1;
        assert(out@ =~= s@.subrange(i as int, k as int));
    }
    proof {
        let t = s@.subrange(i as int, j as int);
        if t.len() > 0 {
            assert(t[0] == s@[i as int]);
            assert(t.last() == s@[j - 1]);
        }
    }
    out
}

/// The plain text of a JSON text component: strings, each object's `text`,
/// then its `extra`, in order.
pub open spec fn text_of(v: JsonV) -> Seq<char>
    decreases jheight(v), 1int, 0int,
{
    match v {
        JsonV::String(s) => s,
        JsonV::Array(a) => texts_of(a, 0),
        JsonV::Object(_) => {
            let t = match jget(v, "text"@) {
                Some(JsonV::String(s)) => s,
                _ => seq![],
            };
            proof {
                lemma_jget_lower(v, "extra"@);
            }
            t + match jget(v, "extra"@) {
                Some(e) => text_of(e),
                None => seq![],
            }
        },
        _ => seq![],
    }
}

pub open spec fn texts_of(a: Seq<JsonV>, i: int) -> Seq<char>
    decreases jheight(JsonV::Array(a)), 0int, a.len() - i,
{
    if 0 <= i < a.len() {
        proof {
            lemma_jheights(a, i);
        }
        text_of(a[i]) + texts_of(a, i + 1)
    } else {
        seq![]
    }
}

fn gather_text(v: &Json, out: &mut String)
    ensures
        final(out)@ == old(out)@ + text_of(v@),
    decreases jheight(v@), 1int, 0int,
{
    match v {
        Json::String(s) => {
            push_str(out, s.as_str());
        },
        Json::Array(a) => {
            proof {
                lemma_jsons_view(a@);
            }
            let ghost av = crate::json_value::jsons_view(a@);
            assert(v@ == JsonV::Array(av));
            let mut i: usize = 0;
            let ghost o = out@;
            while i < a.len()
                invariant
                    v@ == JsonV::Array(av),
                    av == crate::json_value::jsons_view(a@),
                    av.len() == a@.len(),
                    forall|j: int| 0 <= j < a@.len() ==> #[trigger] av[j] == a@[j]@,
                    i <= a@.len(),
                    o + texts_of(av, 0) == out@ + texts_of(av, i as int),
                decreases a.len() - i,
            {
                proof {
                    lemma_jheights(av, i as int);
                }
                gather_text(&a[i], out);
                i += 1;
            }
        },
        Json::Object(_) => {
            if let Some(t) = jget_ref(v, "text") {
                if let Json::String(s) = t {
                    push_str(out, s.as_str());
                }
            }
            if let Some(e) = jget_ref(v, "extra") {
                proof {
                    lemma_jget_lower(v@, "extra"@);
                }
                gather_text(e, out);
            }
        },
        _ => {},
    }
}

/// The display text of a name or lore line: the text of a JSON text
/// component when the line is one and has any, else the line trimmed and
/// unquoted.
pub open spec fn extract_text_spec(s: Seq<char>) -> Seq<char> {
    let t = trim(s);
    let looks_json = t.len() > 0 && (t[0] == '{' || t[0] == '[' || t[0] == '"');
    if looks_json && json_text_value(t) is Some && text_of(json_text_value(t)->0).len() > 0 {
        text_of(json_text_value(t)->0)
    } else {
        strip_quotes(t)
    }
}

pub fn extract_text(s: &str) -> (r: String)
    ensures
        r@ == extract_text_spec(s@),
{
    let c = chars_of(s);
    let t = trim_chars(c.as_slice());
    if t.len() > 0 && (t[0] == '{' || t[0] == '[' || t[0] == '"') {
        let ts = string_from(t.as_slice());
        if let Ok(json) = parse_json_text(ts.as_str()) {
            let mut out = String::new();
            gather_text(&json, &mut out);
            assert(out@ =~= text_of(json@));
            if out.as_str().unicode_len() > 0 {
                return out;
            }
        }
    }
    let q = strip_quotes_chars(t.as_slice());
    string_from(q.as_slice())
}

/// The bytes that standard Base64 (with padding) decodes from a text, or
/// none when it is not valid Base64.
pub uninterp spec fn base64_decoded(s: Seq<char>) -> Option<Seq<u8>>;

/// `base64::engine::general_purpose::STANDARD.decode`: what it accepts and
/// yields is named, not stated.
#[verifier::external_body]
fn decode_base64(s: &str) -> (r: Option<Vec<u8>>)
    ensures
        match r {
            Some(b) => base64_decoded(s@) == Some(b@),
            None => base64_decoded(s@) is None,
        },
{
    base64::engine::general_purpose::STANDARD.decode(s).ok()
}

/// The skin URL in a Base64 `textures` property: `textures.SKIN.url`, with
/// `http://` made `https://`.
pub open spec fn skin_url_spec(b64: Seq<char>) -> Option<Seq<char>> {
    match base64_decoded(trim(b64)) {
        None => None,
        Some(bytes) => match crate::json_value::json_bytes_value(bytes) {
            None => None,
            Some(j) => match opt_jstr(opt_jget(opt_jget(jget(j, "textures"@), "SKIN"@), "url"@)) {
                None => None,
                Some(url) => {
                    let p = "http://"@;
                    if url.len() >= p.len() && url.subrange(0, p.len() as int) == p {
                        Some("https://"@ + url.subrange(p.len() as int, url.len() as int))
                    } else {
                        Some(url)
                    }
                },
            },
        },
    }
}

pub fn skin_url_from_textures_value(b64: &str) -> (r: Option<String>)
    ensures
        crate::model::opt_string_view(r) == skin_url_spec(b64@),
{
    let c = chars_of(b64);
    let t = trim_chars(c.as_slice());
    let ts = string_from(t.as_slice());
    let bytes = decode_base64(ts.as_str())?;
    let json = match parse_json_bytes(bytes.as_slice()) {
        Ok(v) => v,
        Err(_) => {
            return None;
        },
    };
    let a = jget_ref(&json, "textures")?;
    let b = jget_ref(a, "SKIN")?;
    let u = jget_ref(b, "url")?;
    let url = jstr_ref(u)?;
    let uc = chars_of(url.as_str());
    let pc = chars_of("http://");
    if chars_start_with(uc.as_slice(), pc.as_slice()) {
        let mut out = copy_str("https://");
        let mut k: usize = pc.len();
        let ghost o = out@;
        while k < uc.len()
            invariant
                pc@.len() <= k <= uc@.len(),
                out@ == o + uc@.subrange(pc@.len() as int, k as int),
            decreases uc.len() - k,
        {
            push_char(&mut out, uc[k]);
            k += 1;
            assert(out@ =~= o + uc@.subrange(pc@.len() as int, k as int));
        }
        Some(out)
    } else {
        Some(url.clone())
    }
}


pub open spec fn hex_char(d: nat) -> char {
    if d < 10 {
        ((d + 48) as u8) as char
    } else {
        ((d + 87) as u8) as char
    }
}

/// The last `n` lowercase hex digits of `v`, most significant first.
pub open spec fn hex_digits(v: nat, n: nat) -> Seq<char>
    decreases n,
{
    if n == 0 {
        seq![]
    } else {
        hex_digits(v / 16, (n - 1) as nat).push(hex_char(v % 16))
    }
}

proof fn lemma_hex_len(v: nat, n: nat)
    ensures
        hex_digits(v, n).len() == n,
    decreases n,
{
    if n > 0 {
        lemma_hex_len(v / 16, (n - 1) as nat);
    }
}

/// The UUID text of four 32-bit words: 32 hex digits grouped 8-4-4-4-12.
pub open spec fn uuid_text(a: Seq<i32>) -> Seq<char> {
    let h = hex_digits(#[verifier::truncate] (a[0] as u32) as nat, 8) + hex_digits(
        #[verifier::truncate] (a[1] as u32) as nat,
        8,
    ) + hex_digits(#[verifier::truncate] (a[2] as u32) as nat, 8) + hex_digits(
        #[verifier::truncate] (a[3] as u32) as nat,
        8,
    );
    h.subrange(0, 8) + seq!['-'] + h.subrange(8, 12) + seq!['-'] + h.subrange(12, 16) + seq!['-']
        + h.subrange(16, 20) + seq!['-'] + h.subrange(20, 32)
}

pub open spec fn uuid_spec(a: Seq<i32>) -> Option<Seq<char>> {
    if a.len() == 4 {
        Some(uuid_text(a))
    } else {
        None
    }
}

fn push_hex(out: &mut Vec<char>, v: u32, n: u32)
    ensures
        final(out)@ == old(out)@ + hex_digits(v as nat, n as nat),
    decreases n,
{
    if n > 0 {
        push_hex(out, v / 16, n - 1);
        let d = (v % 16) as u8;
        let c: char = if d < 10 {
            (d + 48) as char
        } else {
            (d + 87) as char
        };
        out.push(c);
        assert(final(out)@ =~= old(out)@ + hex_digits(v as nat, n as nat));
    } else {
        assert(final(out)@ =~= old(out)@ + hex_digits(v as nat, n as nat));
    }
}

/// The UUID text of exactly four 32-bit words.
pub fn uuid_from_ints(ints: &[i32]) -> (r: Option<String>)
    ensures
        crate::model::opt_string_view(r) == uuid_spec(ints@),
{
    if ints.len() != 4 {
        return None;
    }
    let mut h: Vec<char> = Vec::new();
    push_hex(&mut h, #[verifier::truncate] (ints[0] as u32), 8);
    push_hex(&mut h, #[verifier::truncate] (ints[1] as u32), 8);
    push_hex(&mut h, #[verifier::truncate] (ints[2] as u32), 8);
    push_hex(&mut h, #[verifier::truncate] (ints[3] as u32), 8);
    let ghost hv = h@;
    proof {
        lemma_hex_len((#[verifier::truncate] (ints@[0] as u32)) as nat, 8);
        lemma_hex_len((#[verifier::truncate] (ints@[1] as u32)) as nat, 8);
        lemma_hex_len((#[verifier::truncate] (ints@[2] as u32)) as nat, 8);
        lemma_hex_len((#[verifier::truncate] (ints@[3] as u32)) as nat, 8);
    }
    assert(hv.len() == 32);
    let mut out: Vec<char> = Vec::new();
    let mut i: usize = 0;
    while i < 32
        invariant
            h@ == hv,
            hv.len() == 32,
            i <= 32,
            out@ == (if i <= 8 {
                hv.subrange(0, i as int)
            } else if i <= 12 {
                hv.subrange(0, 8) + seq!['-'] + hv.subrange(8, i as int)
            } else if i <= 16 {
                hv.subrange(0, 8) + seq!['-'] + hv.subrange(8, 12) + seq!['-'] + hv.subrange(
                    12,
                    i as int,
                )
            } else if i <= 20 {
                hv.subrange(0, 8) + seq!['-'] + hv.subrange(8, 12) + seq!['-'] + hv.subrange(12, 16)
                    + seq!['-'] + hv.subrange(16, i as int)
            } else {
                hv.subrange(0, 8) + seq!['-'] + hv.subrange(8, 12) + seq!['-'] + hv.subrange(12, 16)
                    + seq!['-'] + hv.subrange(16, 20) + seq!['-'] + hv.subrange(20, i as int)
            }),
        decreases 32 - i,
    {
        if i == 8 || i == 12 || i == 16 || i == 20 {
            out.push('-');
        }
        out.push(h[i]);
        i += 1;
        assert(out@ =~= (if i <= 8 {
            hv.subrange(0, i as int)
        } else if i <= 12 {
            hv.subrange(0, 8) + seq!['-'] + hv.subrange(8, i as int)
        } else if i <= 16 {
            hv.subrange(0, 8) + seq!['-'] + hv.subrange(8, 12) + seq!['-'] + hv.subrange(
                12,
                i as int,
            )
        } else if i <= 20 {
            hv.subrange(0, 8) + seq!['-'] + hv.subrange(8, 12) + seq!['-'] + hv.subrange(12, 16)
                + seq!['-'] + hv.subrange(16, i as int)
        } else {
            hv.subrange(0, 8) + seq!['-'] + hv.subrange(8, 12) + seq!['-'] + hv.subrange(12, 16)
                + seq!['-'] + hv.subrange(16, 20) + seq!['-'] + hv.subrange(20, i as int)
        }));
    }
    Some(string_from(out.as_slice()))
}

/// `(name, level)` for each integer entry of a compound, in order.
pub open spec fn ench_entries(m: Seq<(Seq<char>, NbtV)>, i: int) -> Seq<(Seq<char>, i32)>
    decreases m.len() - i,
{
    if 0 <= i < m.len() {
        match int_of(m[i].1) {
            Some(l) => seq![(m[i].0, #[verifier::truncate] (l as i32))] + ench_entries(m, i + 1),
            None => ench_entries(m, i + 1),
        }
    } else {
        seq![]
    }
}

/// The enchantments stored under a component: its `levels` compound, or
/// the component itself.
pub open spec fn read_ench(v: Option<NbtV>) -> Seq<(Seq<char>, i32)> {
    match v {
        None => seq![],
        Some(x) => {
            let levels = match get_spec(x, "levels"@) {
                Some(l) => l,
                None => x,
            };
            match levels {
                NbtV::Compound(m) => ench_entries(m, 0),
                _ => seq![],
            }
        },
    }
}

fn read_enchants(v: Option<&Nbt>, out: &mut Vec<(String, i32)>)
    ensures
        crate::model::pairs_view(final(out)@) == crate::model::pairs_view(old(out)@) + read_ench(
            opt_view(v),
        ),
{
    let x = match v {
        Some(x) => x,
        None => {
            assert(crate::model::pairs_view(out@) =~= crate::model::pairs_view(out@) + seq![]);
            return;
        },
    };
    let levels = match get(x, "levels") {
        Some(l) => l,
        None => x,
    };
    match comp(levels) {
        Some(m) => {
            proof {
                lemma_entries_view(m@);
            }
            let ghost mv = entries_view(m@);
            let ghost o = crate::model::pairs_view(out@);
            let mut i: usize = 0;
            while i < m.len()
                invariant
                    i <= m@.len(),
                    mv == entries_view(m@),
                    mv.len() == m@.len(),
                    forall|j: int|
                        0 <= j < m@.len() ==> #[trigger] mv[j] == (m@[j].0@, m@[j].1@),
                    o + ench_entries(mv, 0) == crate::model::pairs_view(out@) + ench_entries(
                        mv,
                        i as int,
                    ),
                decreases m.len() - i,
            {
                if let Some(l) = as_i64(&m[i].1) {
                    let ghost before = crate::model::pairs_view(out@);
                    out.push((m[i].0.clone(), #[verifier::truncate] (l as i32)));
                    assert(crate::model::pairs_view(out@) =~= before + seq![
                        (m@[i as int].0@, #[verifier::truncate] (l as i32)),
                    ]);
                }
                i += 1;
            }
            assert(crate::model::pairs_view(out@) + ench_entries(mv, m@.len() as int)
                =~= crate::model::pairs_view(out@));
        },
        None => {
            assert(crate::model::pairs_view(out@) =~= crate::model::pairs_view(out@) + seq![]);
        },
    }
}


/// The first `textures` property, from index `i`, whose value holds a skin.
pub open spec fn skin_in(props: Seq<NbtV>, i: int) -> Option<Seq<char>>
    decreases props.len() - i,
{
    if 0 <= i < props.len() {
        let p = props[i];
        if opt_str(get_spec(p, "name"@)) == Some("textures"@) && opt_str(get_spec(p, "value"@)) is Some
            && skin_url_spec(opt_str(get_spec(p, "value"@))->0) is Some {
            skin_url_spec(opt_str(get_spec(p, "value"@))->0)
        } else {
            skin_in(props, i + 1)
        }
    } else {
        None
    }
}

/// A player head's profile: a name, an inline skin, a UUID or a name.
pub open spec fn skull(prof: NbtV, it: ItemView) -> ItemView {
    match prof {
        NbtV::String(s) => ItemView { head_ref: Some(s), ..it },
        _ => {
            let skin = match opt_list(get_spec(prof, "properties"@)) {
                Some(props) => skin_in(props, 0),
                None => None,
            };
            match skin {
                Some(url) => ItemView { head_skin: Some(url), ..it },
                None => {
                    let id = match get_spec(prof, "id"@) {
                        Some(x) => match int_array_of(x) {
                            Some(a) => uuid_spec(a),
                            None => None,
                        },
                        None => None,
                    };
                    match id {
                        Some(u) => ItemView { head_ref: Some(lowercase(u)), ..it },
                        None => match opt_str(get_spec(prof, "name"@)) {
                            Some(n) => ItemView { head_ref: Some(n), ..it },
                            None => it,
                        },
                    }
                },
            }
        },
    }
}

/// Whether the string under `key` is exactly `want`.
pub fn str_field_is(p: &Nbt, key: &str, want: &str) -> (r: bool)
    ensures
        r == (opt_str(get_spec(p@, key@)) == Some(want@)),
{
    match get(p, key) {
        Some(n) => match as_str(n) {
            Some(t) => {
                let tc = chars_of(t.as_str());
                let lc = chars_of(want);
                let r = tc.len() == lc.len() && chars_start_with(tc.as_slice(), lc.as_slice());
                proof {
                    if r {
                        assert(tc@ =~= lc@);
                    }
                    if t@ == want@ {
                        assert(tc@.subrange(0, lc@.len() as int) =~= tc@);
                    }
                }
                r
            },
            None => false,
        },
        None => false,
    }
}

fn extract_skull(prof: &Nbt, item: &mut Item)
    ensures
        final(item)@ == skull(prof@, old(item)@),
{
    if let Nbt::String(s) = prof {
        item.head_ref = Some(s.clone());
        return;
    }
    if let Some(pv) = get(prof, "properties") {
        if let Some(props) = as_list(pv) {
            proof {
                lemma_nbts_view(props@);
            }
            let ghost ps = nbts_view(props@);
            assert(opt_list(get_spec(prof@, "properties"@)) == Some(ps));
            let mut i: usize = 0;
            while i < props.len()
                invariant
                    i <= props@.len(),
                    ps == nbts_view(props@),
                    ps.len() == props@.len(),
                    forall|j: int| 0 <= j < props@.len() ==> #[trigger] ps[j] == props@[j]@,
                    skin_in(ps, 0) == skin_in(ps, i as int),
                    *item == *old(item),
                    opt_list(get_spec(prof@, "properties"@)) == Some(ps),
                    !(prof@ is String),
                decreases props.len() - i,
            {
                let p = &props[i];
                assert(p@ == ps[i as int]);
                let is_textures = str_field_is(p, "name", "textures");
                if is_textures {
                    if let Some(vv) = get(p, "value") {
                        if let Some(v) = as_str(vv) {
                            if let Some(url) = skin_url_from_textures_value(v.as_str()) {
                                assert(opt_str(get_spec(ps[i as int], "value"@)) == Some(v@));
                                assert(opt_str(get_spec(ps[i as int], "name"@)) == Some("textures"@));
                                assert(skin_in(ps, i as int) == Some(url@));
                                assert(opt_list(get_spec(prof@, "properties"@)) == Some(ps));
                                item.head_skin = Some(url);
                                return;
                            }
                        }
                    }
                }
                i += 1;
            }
        }
    }
    let id = match get(prof, "id") {
        Some(x) => match int_array(x) {
            Some(a) => uuid_from_ints(a.as_slice()),
            None => None,
        },
        None => None,
    };
    match id {
        Some(u) => {
            item.head_ref = Some(to_lower(u.as_str()));
        },
        None => {
            if let Some(nv) = get(prof, "name") {
                if let Some(n) = as_str(nv) {
                    item.head_ref = Some(n.clone());
                }
            }
        },
    }
}


/// The value under `a`, else the value under `b`.
pub open spec fn first_of(v: NbtV, a: Seq<char>, b: Seq<char>) -> Option<NbtV> {
    match get_spec(v, a) {
        Some(x) => Some(x),
        None => get_spec(v, b),
    }
}

pub open spec fn opt_item_view(o: Option<Item>) -> Option<ItemView> {
    match o {
        Some(i) => Some(i@),
        None => None,
    }
}

/// The component keys whose values may hold nested items, in order.
pub open spec fn nested_key(k: int) -> Seq<char> {
    if k == 0 {
        "minecraft:container"@
    } else if k == 1 {
        "minecraft:bundle_contents"@
    } else if k == 2 {
        "minecraft:charged_projectiles"@
    } else if k == 3 {
        "create:package_contents"@
    } else if k == 4 {
        "cmpackagecouriers:plane_package"@
    } else if k == 5 {
        "supplementaries:quiver_content"@
    } else {
        "supplementaries:lunch_basket_content"@
    }
}

pub(crate) fn nested_key_str(k: usize) -> (r: &'static str)
    requires
        k < 7,
    ensures
        r@ == nested_key(k as int),
{
    if k == 0 {
        "minecraft:container"
    } else if k == 1 {
        "minecraft:bundle_contents"
    } else if k == 2 {
        "minecraft:charged_projectiles"
    } else if k == 3 {
        "create:package_contents"
    } else if k == 4 {
        "cmpackagecouriers:plane_package"
    } else if k == 5 {
        "supplementaries:quiver_content"
    } else {
        "supplementaries:lunch_basket_content"
    }
}

pub open spec fn text_opt(x: Option<NbtV>) -> Option<Seq<char>> {
    match x {
        Some(v) => match str_of(v) {
            Some(s) => Some(extract_text_spec(s)),
            None => None,
        },
        None => None,
    }
}

/// Custom name, else item name, each as display text.
pub open spec fn names_step(it: ItemView, c: NbtV) -> ItemView {
    let cn0 = match get_spec(c, "minecraft:custom_name"@) {
        Some(x) => text_opt(Some(x)),
        None => it.custom_name,
    };
    let cn = if cn0 is None {
        text_opt(get_spec(c, "minecraft:item_name"@))
    } else {
        cn0
    };
    ItemView { custom_name: cn, ..it }
}

/// The non-empty display texts of the string lines, from index `i`.
pub open spec fn lore_lines(l: Seq<NbtV>, i: int) -> Seq<Seq<char>>
    decreases l.len() - i,
{
    if 0 <= i < l.len() {
        match str_of(l[i]) {
            Some(s) => if extract_text_spec(s).len() > 0 {
                seq![extract_text_spec(s)] + lore_lines(l, i + 1)
            } else {
                lore_lines(l, i + 1)
            },
            None => lore_lines(l, i + 1),
        }
    } else {
        seq![]
    }
}

pub open spec fn lore_step(it: ItemView, c: NbtV) -> ItemView {
    match opt_list(get_spec(c, "minecraft:lore"@)) {
        Some(l) => ItemView { lore: lore_lines(l, 0), ..it },
        None => it,
    }
}

pub open spec fn ench_step(it: ItemView, c: NbtV) -> ItemView {
    ItemView {
        enchants: it.enchants + read_ench(get_spec(c, "minecraft:enchantments"@)) + read_ench(
            get_spec(c, "minecraft:stored_enchantments"@),
        ),
        ..it
    }
}

pub open spec fn damage_step(it: ItemView, c: NbtV) -> ItemView {
    let d = match opt_int(get_spec(c, "minecraft:damage"@)) {
        Some(v) => Some(#[verifier::truncate] (v as i32)),
        None => it.damage,
    };
    let m = match opt_int(get_spec(c, "minecraft:max_damage"@)) {
        Some(v) => Some(#[verifier::truncate] (v as i32)),
        None => it.max_damage,
    };
    ItemView { damage: d, max_damage: m, ..it }
}

pub open spec fn potion_step(it: ItemView, c: NbtV) -> ItemView {
    match get_spec(c, "minecraft:potion_contents"@) {
        Some(pc) => ItemView {
            potion: match pc {
                NbtV::String(s) => Some(prettify(s)),
                _ => match opt_str(get_spec(pc, "potion"@)) {
                    Some(p) => Some(prettify(p)),
                    None => None,
                },
            },
            ..it
        },
        None => it,
    }
}

pub open spec fn storage_step(it: ItemView, c: NbtV) -> ItemView {
    match get_spec(c, "sophisticatedcore:storage_uuid"@) {
        Some(x) => match int_array_of(x) {
            Some(a) => match uuid_spec(a) {
                Some(u) => ItemView { storage_uuid: Some(lowercase(u)), ..it },
                None => it,
            },
            None => it,
        },
        None => it,
    }
}

/// An item stack read from NBT: a non-air `id` (lowercased), `count` or
/// `Count` (default 1), `Slot` or `slot` (default `ds`), then its
/// components.
pub open spec fn nbt_item(v: NbtV, ds: i32) -> Option<ItemView>
    decreases height(v), 5int, 0int,
{
    match opt_str(get_spec(v, "id"@)) {
        None => None,
        Some(raw) => {
            let id = lowercase(raw);
            if id.len() == 0 || has_substr(id, "air"@) {
                None
            } else {
                let count = match opt_int(first_of(v, "count"@, "Count"@)) {
                    Some(c) => c,
                    None => 1,
                };
                let slot = match opt_int(first_of(v, "Slot"@, "slot"@)) {
                    Some(x) => #[verifier::truncate] (x as i32),
                    None => ds,
                };
                let base = plain_item(id, count, slot);
                match get_spec(v, "components"@) {
                    Some(c) => {
                        proof {
                            lemma_get_lower(v, "components"@);
                        }
                        Some(apply_comps(base, c))
                    },
                    None => Some(base),
                }
            }
        },
    }
}

/// What the components of an item stack add to it.
pub open spec fn apply_comps(it: ItemView, c: NbtV) -> ItemView
    decreases height(c), 4int, 0int,
{
    match c {
        NbtV::Compound(_) => {
            let e = damage_step(ench_step(lore_step(names_step(it, c), c), c), c);
            let p = potion_step(e, c);
            let n = ItemView { contents: nested_keys(c, 0, p.contents), ..p };
            let u = storage_step(n, c);
            let h = if player_head_id(u.id) {
                match get_spec(c, "minecraft:profile"@) {
                    Some(pr) => skull(pr, u),
                    None => u,
                }
            } else {
                u
            };
            if has_substr(h.id, "toolbox"@) && h.contents.len() == 0 {
                match get_spec(c, "minecraft:custom_data"@) {
                    Some(cd) => {
                        proof {
                            lemma_get_lower(c, "minecraft:custom_data"@);
                        }
                        ItemView { contents: toolbox(cd, h.contents), ..h }
                    },
                    None => h,
                }
            } else {
                h
            }
        },
        _ => it,
    }
}

/// The items nested under each of the nested-item keys, from key `k`.
pub open spec fn nested_keys(c: NbtV, k: int, out: Seq<ItemView>) -> Seq<ItemView>
    decreases height(c), 3int, 7 - k,
{
    if 0 <= k < 7 {
        let out2 = match get_spec(c, nested_key(k)) {
            Some(cv) => {
                proof {
                    lemma_get_lower(c, nested_key(k));
                }
                nested(cv, out)
            },
            None => out,
        };
        nested_keys(c, k + 1, out2)
    } else {
        out
    }
}

/// Items held by a container component: a list of slot entries or of item
/// stacks, or a compound with such an `items` list.
pub open spec fn nested(v: NbtV, out: Seq<ItemView>) -> Seq<ItemView>
    decreases height(v), 3int, 0int,
{
    match v {
        NbtV::List(l) => nested_elems(l, 0, out),
        NbtV::Compound(_) => match get_spec(v, "items"@) {
            Some(items) => {
                proof {
                    lemma_get_lower(v, "items"@);
                }
                nested(items, out)
            },
            None => out,
        },
        _ => out,
    }
}

pub open spec fn push_some(out: Seq<ItemView>, o: Option<ItemView>) -> Seq<ItemView> {
    match o {
        Some(it) => out.push(it),
        None => out,
    }
}

pub open spec fn nested_elems(l: Seq<NbtV>, i: int, out: Seq<ItemView>) -> Seq<ItemView>
    decreases height(NbtV::List(l)), 2int, l.len() - i,
{
    if 0 <= i < l.len() {
        let e = l[i];
        proof {
            lemma_list_lower(l, i);
            lemma_get_lower(e, "item"@);
        }
        let out2 = match get_spec(e, "item"@) {
            Some(inner) => {
                let slot = match opt_int(get_spec(e, "slot"@)) {
                    Some(x) => #[verifier::truncate] (x as i32),
                    None => #[verifier::truncate] (out.len() as i32),
                };
                push_some(out, nbt_item(inner, slot))
            },
            None => if get_spec(e, "id"@) is Some {
                push_some(out, nbt_item(e, #[verifier::truncate] (out.len() as i32)))
            } else {
                out
            },
        };
        nested_elems(l, i + 1, out2)
    } else {
        out
    }
}

/// The compartment list of a toolbox's custom data.
pub open spec fn compartments(cd: NbtV) -> Option<NbtV> {
    match get_spec(cd, "Compartments"@) {
        Some(x) => Some(x),
        None => match get_spec(cd, "Inventory"@) {
            Some(inv) => get_spec(inv, "Compartments"@),
            None => None,
        },
    }
}

pub proof fn lemma_compartments_lower(cd: NbtV)
    ensures
        compartments(cd) matches Some(x) ==> height(x) < height(cd),
{
    lemma_get_lower(cd, "Compartments"@);
    lemma_get_lower(cd, "Inventory"@);
    if let Some(inv) = get_spec(cd, "Inventory"@) {
        lemma_get_lower(inv, "Compartments"@);
    }
}

/// Items gathered from a toolbox's compartments.
pub open spec fn toolbox(cd: NbtV, out: Seq<ItemView>) -> Seq<ItemView>
    decreases height(cd), 3int, 0int,
{
    match cd {
        NbtV::Compound(_) => match compartments(cd) {
            Some(NbtV::List(list)) => {
                proof {
                    lemma_compartments_lower(cd);
                }
                toolbox_comps(list, 0, out)
            },
            _ => out,
        },
        _ => out,
    }
}

pub open spec fn toolbox_comps(list: Seq<NbtV>, i: int, out: Seq<ItemView>) -> Seq<ItemView>
    decreases height(NbtV::List(list)), 2int, list.len() - i,
{
    if 0 <= i < list.len() {
        let cv = list[i];
        proof {
            lemma_list_lower(list, i);
            lemma_get_lower(cv, "Items"@);
        }
        let out2 = match cv {
            NbtV::List(items) => toolbox_items(items, 0, out),
            NbtV::Compound(_) => match get_spec(cv, "Items"@) {
                Some(NbtV::List(items)) => toolbox_items(items, 0, out),
                _ => out,
            },
            _ => out,
        };
        toolbox_comps(list, i + 1, out2)
    } else {
        out
    }
}

pub open spec fn toolbox_items(items: Seq<NbtV>, j: int, out: Seq<ItemView>) -> Seq<ItemView>
    decreases height(NbtV::List(items)), 1int, items.len() - j,
{
    if 0 <= j < items.len() {
        proof {
            lemma_list_lower(items, j);
        }
        let out2 = push_some(out, nbt_item(items[j], #[verifier::truncate] (out.len() as i32)));
        toolbox_items(items, j + 1, out2)
    } else {
        out
    }
}


fn lore_of(l: &Vec<Nbt>) -> (r: Vec<String>)
    ensures
        strs_view(r@) == lore_lines(nbts_view(l@), 0),
{
    proof {
        lemma_nbts_view(l@);
    }
    let ghost lv = nbts_view(l@);
    let mut out: Vec<String> = Vec::new();
    let mut i: usize = 0;
    while i < l.len()
        invariant
            i <= l@.len(),
            lv == nbts_view(l@),
            lv.len() == l@.len(),
            forall|j: int| 0 <= j < l@.len() ==> #[trigger] lv[j] == l@[j]@,
            lore_lines(lv, 0) == strs_view(out@) + lore_lines(lv, i as int),
        decreases l.len() - i,
    {
        if let Some(s) = as_str(&l[i]) {
            let t = extract_text(s.as_str());
            if t.as_str().unicode_len() > 0 {
                let ghost before = strs_view(out@);
                out.push(t);
                assert(strs_view(out@) =~= before.push(t@));
                assert(before + (seq![t@] + lore_lines(lv, i + 1)) =~= before.push(t@)
                    + lore_lines(lv, i + 1));
            }
        }
        i += 1;
    }
    assert(strs_view(out@) + lore_lines(lv, l@.len() as int) =~= strs_view(out@));
    out
}

pub(crate) fn push_item(out: &mut Vec<Item>, o: Option<Item>)
    ensures
        items_view(final(out)@) == push_some(items_view(old(out)@), opt_item_view(o)),
{
    if let Some(it) = o {
        proof {
            lemma_items_view_push(out@, it);
        }
        out.push(it);
    }
}

fn len_i32(out: &Vec<Item>) -> (r: i32)
    ensures
        r == #[verifier::truncate] (items_view(out@).len() as i32),
{
    proof {
        lemma_items_view_len(out@);
    }
    #[verifier::truncate] (out.len() as i32)
}

/// Reads one item stack (see `nbt_item`).
pub fn item_from_nbt(v: &Nbt, default_slot: i32) -> (r: Option<Item>)
    ensures
        opt_item_view(r) == nbt_item(v@, default_slot),
    decreases height(v@), 5int, 0int,
{
    let idv = get(v, "id")?;
    let raw = as_str(idv)?;
    let id = to_lower(raw.as_str());
    if id.as_str().unicode_len() == 0 || str_contains(id.as_str(), "air") {
        return None;
    }
    let cv = match get(v, "count") {
        Some(x) => Some(x),
        None => get(v, "Count"),
    };
    let count = match cv {
        Some(x) => match as_i64(x) {
            Some(c) => c,
            None => 1,
        },
        None => 1,
    };
    let sv = match get(v, "Slot") {
        Some(x) => Some(x),
        None => get(v, "slot"),
    };
    let slot = match sv {
        Some(x) => match as_i64(x) {
            Some(s) => #[verifier::truncate] (s as i32),
            None => default_slot,
        },
        None => default_slot,
    };
    let mut item = Item::plain(id, count, slot);
    if let Some(c) = get(v, "components") {
        proof {
            lemma_get_lower(v@, "components"@);
        }
        apply_components(&mut item, c);
    }
    Some(item)
}

fn apply_components(item: &mut Item, comps: &Nbt)
    ensures
        final(item)@ == apply_comps(old(item)@, comps@),
    decreases height(comps@), 4int, 0int,
{
    if comp(comps).is_none() {
        return;
    }
    let ghost c = comps@;
    if let Some(x) = get(comps, "minecraft:custom_name") {
        item.custom_name = match as_str(x) {
            Some(s) => Some(extract_text(s.as_str())),
            None => None,
        };
    }
    if item.custom_name.is_none() {
        if let Some(x) = get(comps, "minecraft:item_name") {
            item.custom_name = match as_str(x) {
                Some(s) => Some(extract_text(s.as_str())),
                None => None,
            };
        }
    }
    assert(item@ == names_step(old(item)@, c));
    if let Some(lv) = get(comps, "minecraft:lore") {
        if let Some(l) = as_list(lv) {
            item.lore = lore_of(l);
        }
    }
    let ghost s2 = item@;
    assert(s2 == lore_step(names_step(old(item)@, c), c));
    read_enchants(get(comps, "minecraft:enchantments"), &mut item.enchants);
    read_enchants(get(comps, "minecraft:stored_enchantments"), &mut item.enchants);
    assert(item@ == ench_step(s2, c));
    if let Some(x) = get(comps, "minecraft:damage") {
        if let Some(d) = as_i64(x) {
            item.damage = Some(#[verifier::truncate] (d as i32));
        }
    }
    if let Some(x) = get(comps, "minecraft:max_damage") {
        if let Some(d) = as_i64(x) {
            item.max_damage = Some(#[verifier::truncate] (d as i32));
        }
    }
    if let Some(pc) = get(comps, "minecraft:potion_contents") {
        item.potion = match pc {
            Nbt::String(s) => Some(prettify_id(s.as_str())),
            _ => match get(pc, "potion") {
                Some(pv) => match as_str(pv) {
                    Some(p) => Some(prettify_id(p.as_str())),
                    None => None,
                },
                None => None,
            },
        };
    }
    let ghost p = item@;
    assert(p == potion_step(damage_step(ench_step(s2, c), c), c));
    let mut k: usize = 0;
    while k < 7
        invariant
            k <= 7,
            c == comps@,
            item@.id == p.id,
            item@ == (ItemView { contents: item@.contents, ..p }),
            nested_keys(c, 0, p.contents) == nested_keys(c, k as int, item@.contents),
        decreases 7 - k,
    {
        let key = nested_key_str(k);
        if let Some(cv) = get(comps, key) {
            proof {
                lemma_get_lower(c, nested_key(k as int));
            }
            extract_nested(cv, &mut item.contents);
        }
        k += 1;
    }
    let ghost n = item@;
    assert(n == (ItemView { contents: nested_keys(c, 0, p.contents), ..p }));
    if let Some(x) = get(comps, "sophisticatedcore:storage_uuid") {
        if let Some(a) = int_array(x) {
            if let Some(u) = uuid_from_ints(a.as_slice()) {
                item.storage_uuid = Some(to_lower(u.as_str()));
            }
        }
    }
    let ghost u = item@;
    assert(u == storage_step(n, c));
    if item.is_player_head() {
        if let Some(pr) = get(comps, "minecraft:profile") {
            extract_skull(pr, item);
        }
    }
    let ghost h = item@;
    if str_contains(item.id.as_str(), "toolbox") && item.contents.len() == 0 {
        proof {
            lemma_items_view_len(item.contents@);
        }
        if let Some(cd) = get(comps, "minecraft:custom_data") {
            proof {
                lemma_get_lower(c, "minecraft:custom_data"@);
            }
            extract_toolbox(cd, &mut item.contents);
        }
    } else {
        proof {
            lemma_items_view_len(item.contents@);
        }
    }
}

fn extract_nested(v: &Nbt, out: &mut Vec<Item>)
    ensures
        items_view(final(out)@) == nested(v@, items_view(old(out)@)),
    decreases height(v@), 3int, 0int,
{
    match v {
        Nbt::List(l) => {
            proof {
                lemma_nbts_view(l@);
            }
            let ghost lv = nbts_view(l@);
            assert(v@ == NbtV::List(lv));
            let ghost start = items_view(out@);
            let mut i: usize = 0;
            while i < l.len()
                invariant
                    v@ == NbtV::List(lv),
                    i <= l@.len(),
                    lv == nbts_view(l@),
                    lv.len() == l@.len(),
                    forall|j: int| 0 <= j < l@.len() ==> #[trigger] lv[j] == l@[j]@,
                    nested_elems(lv, 0, start) == nested_elems(lv, i as int, items_view(out@)),
                decreases l.len() - i,
            {
                let e = &l[i];
                proof {
                    lemma_list_lower(lv, i as int);
                    lemma_get_lower(e@, "item"@);
                }
                if let Some(inner) = get(e, "item") {
                    let slot = match get(e, "slot") {
                        Some(x) => match as_i64(x) {
                            Some(s) => #[verifier::truncate] (s as i32),
                            None => len_i32(out),
                        },
                        None => len_i32(out),
                    };
                    let it = item_from_nbt(inner, slot);
                    push_item(out, it);
                } else if get(e, "id").is_some() {
                    let d = len_i32(out);
                    let it = item_from_nbt(e, d);
                    push_item(out, it);
                }
                i += 1;
            }
        },
        Nbt::Compound(_) => {
            if let Some(items) = get(v, "items") {
                proof {
                    lemma_get_lower(v@, "items"@);
                }
                extract_nested(items, out);
            }
        },
        _ => {},
    }
}

fn toolbox_list(items: &Vec<Nbt>, out: &mut Vec<Item>)
    ensures
        items_view(final(out)@) == toolbox_items(nbts_view(items@), 0, items_view(old(out)@)),
    decreases height(NbtV::List(nbts_view(items@))), 1int, items@.len() + 1,
{
    proof {
        lemma_nbts_view(items@);
    }
    let ghost lv = nbts_view(items@);
    let ghost start = items_view(out@);
    let mut j: usize = 0;
    while j < items.len()
        invariant
            j <= items@.len(),
            lv == nbts_view(items@),
            lv.len() == items@.len(),
            forall|m: int| 0 <= m < items@.len() ==> #[trigger] lv[m] == items@[m]@,
            toolbox_items(lv, 0, start) == toolbox_items(lv, j as int, items_view(out@)),
        decreases items.len() - j,
    {
        proof {
            lemma_list_lower(lv, j as int);
        }
        let d = len_i32(out);
        let it = item_from_nbt(&items[j], d);
        push_item(out, it);
        j += 1;
    }
}

fn extract_toolbox(cd: &Nbt, out: &mut Vec<Item>)
    ensures
        items_view(final(out)@) == toolbox(cd@, items_view(old(out)@)),
    decreases height(cd@), 3int, 0int,
{
    if comp(cd).is_none() {
        return;
    }
    let found = match get(cd, "Compartments") {
        Some(x) => Some(x),
        None => match get(cd, "Inventory") {
            Some(inv) => get(inv, "Compartments"),
            None => None,
        },
    };
    proof {
        lemma_compartments_lower(cd@);
    }
    if let Some(Nbt::List(list)) = found {
        proof {
            lemma_nbts_view(list@);
        }
        let ghost lv = nbts_view(list@);
        let ghost start = items_view(out@);
        let mut i: usize = 0;
        while i < list.len()
            invariant
                i <= list@.len(),
                lv == nbts_view(list@),
                lv.len() == list@.len(),
                height(NbtV::List(lv)) < height(cd@),
                forall|m: int| 0 <= m < list@.len() ==> #[trigger] lv[m] == list@[m]@,
                toolbox_comps(lv, 0, start) == toolbox_comps(lv, i as int, items_view(out@)),
            decreases list.len() - i,
        {
            proof {
                lemma_list_lower(lv, i as int);
                lemma_get_lower(lv[i as int], "Items"@);
            }
            match &list[i] {
                Nbt::List(items) => {
                    toolbox_list(items, out);
                },
                Nbt::Compound(_) => {
                    if let Some(Nbt::List(items)) = get(&list[i], "Items") {
                        toolbox_list(items, out);
                    }
                },
                _ => {},
            }
            i += 1;
        }
    }
}


/// The compound that holds `backpackContents`: `v` itself or the first one
/// found depth first among its entries, at most five levels down.
pub open spec fn payload_of(v: NbtV, depth: nat) -> Option<NbtV>
    decreases height(v), 1int, 0int,
{
    if depth > 5 {
        None
    } else {
        match v {
            NbtV::Compound(c) => if lookup(c, "backpackContents"@) is Some {
                Some(v)
            } else {
                payload_among(c, 0, depth)
            },
            _ => None,
        }
    }
}

pub open spec fn payload_among(c: Seq<(Seq<char>, NbtV)>, i: int, depth: nat) -> Option<NbtV>
    decreases height(NbtV::Compound(c)), 0int, c.len() - i,
{
    if 0 <= i < c.len() {
        proof {
            lemma_entry_heights(c, i);
        }
        match payload_of(c[i].1, depth + 1) {
            Some(p) => Some(p),
            None => payload_among(c, i + 1, depth),
        }
    } else {
        None
    }
}

fn find_payload(v: &Nbt, depth: usize) -> (r: Option<&Nbt>)
    requires
        depth <= 6,
    ensures
        opt_view(r) == payload_of(v@, depth as nat),
    decreases height(v@), 1int, 0int,
{
    if depth > 5 {
        return None;
    }
    match v {
        Nbt::Compound(m) => {
            if get(v, "backpackContents").is_some() {
                return Some(v);
            }
            proof {
                lemma_entries_view(m@);
            }
            let ghost c = entries_view(m@);
            assert(v@ == NbtV::Compound(c));
            assert(payload_of(v@, depth as nat) == payload_among(c, 0, depth as nat));
            let mut i: usize = 0;
            while i < m.len()
                invariant
                    depth <= 5,
                    v@ == NbtV::Compound(c),
                    c == entries_view(m@),
                    c.len() == m@.len(),
                    i <= m@.len(),
                    forall|j: int|
                        0 <= j < m@.len() ==> #[trigger] c[j] == (m@[j].0@, m@[j].1@),
                    payload_of(v@, depth as nat) == payload_among(c, i as int, depth as nat),
                decreases m.len() - i,
            {
                proof {
                    lemma_entry_heights(c, i as int);
                }
                let f = find_payload(&m[i].1, depth + 1);
                assert(payload_among(c, i as int, depth as nat) == match payload_of(
                    c[i as int].1,
                    (depth + 1) as nat,
                ) {
                    Some(p) => Some(p),
                    None => payload_among(c, i + 1, depth as nat),
                });
                if let Some(found) = f {
                    return Some(found);
                }
                i += 1;
            }
            None
        },
        _ => None,
    }
}

/// The uuid that the int array under `a` (or, missing that key, `b`)
/// spells.
pub open spec fn uuid_field(v: NbtV, a: Seq<char>, b: Seq<char>) -> Option<Seq<char>> {
    match first_of(v, a, b) {
        Some(x) => match int_array_of(x) {
            Some(ints) => uuid_spec(ints),
            None => None,
        },
        None => None,
    }
}

fn uuid_of(v: &Nbt, a: &str, b: &str) -> (r: Option<String>)
    ensures
        crate::model::opt_string_view(r) == uuid_field(v@, a@, b@),
{
    let x = match get(v, a) {
        Some(x) => x,
        None => match get(v, b) {
            Some(x) => x,
            None => {
                return None;
            },
        },
    };
    match int_array(x) {
        Some(ints) => uuid_from_ints(ints.as_slice()),
        None => None,
    }
}

/// The last access record, among the first `n`, of the backpack `u`.
pub open spec fn owner_record(log: Seq<NbtV>, n: int, u: Seq<char>) -> Option<NbtV>
    decreases n,
{
    if n <= 0 || n > log.len() {
        None
    } else if uuid_field(log[n - 1], "backpackUuid"@, "uuid"@) == Some(u) {
        Some(log[n - 1])
    } else {
        owner_record(log, n - 1, u)
    }
}

/// A string field of an access record, empty where there is none.
pub open spec fn record_text(rec: Option<NbtV>, k: Seq<char>) -> Seq<char> {
    match rec {
        Some(r) => str_or(opt_str(get_spec(r, k)), seq![]),
        None => seq![],
    }
}

pub open spec fn record_time(rec: Option<NbtV>) -> i64 {
    match rec {
        Some(r) => match opt_int(get_spec(r, "accessTime"@)) {
            Some(t) => t,
            None => 0,
        },
        None => 0,
    }
}

/// The items of the inventory under `key` of a backpack's contents.
pub open spec fn inventory_under(contents: Option<NbtV>, key: Seq<char>) -> Seq<ItemView> {
    match contents {
        Some(c) => match get_spec(c, key) {
            Some(inv) => list_items(get_spec(inv, "Items"@)),
            None => seq![],
        },
        None => seq![],
    }
}

/// The entry of backpack `bc`, whose uuid is `u`, with owner data from the
/// last access record of `u` in `log`.
pub open spec fn backpack_built(e: Entry, bc: NbtV, u: Seq<char>, log: Seq<NbtV>) -> bool {
    let rec = owner_record(log, log.len() as int, u);
    let registry = record_text(rec, "backpackItemRegistryName"@);
    let raw_player = record_text(rec, "playerName"@);
    let name = record_text(rec, "backpackName"@);
    let icon = if registry.len() == 0 {
        "sophisticatedbackpacks:backpack"@
    } else {
        registry
    };
    let player = if raw_player.len() == 0 {
        "Unknown"@
    } else {
        raw_player
    };
    let date = short_date(record_time(rec) as int);
    let contents = get_spec(bc, "contents"@);
    &&& e.kind == EntryKind::Backpack
    &&& e.title@ == player + " - "@ + prettify(icon)
    &&& e.header_icon@ == icon
    &&& text_pairs_view(e.meta@) == if name.len() == 0 {
        seq![("Owner"@, player), ("Last access"@, date), ("UUID"@, u)]
    } else {
        seq![("Owner"@, player), ("Backpack"@, name), ("Last access"@, date), ("UUID"@, u)]
    }
    &&& copies_view(e.copies@) == seq![
        ("Copy Player"@, player),
        ("Copy UUID"@, u),
        ("Copy Registry"@, icon),
    ]
    &&& items_view(e.items@) == inventory_under(contents, "inventory"@)
    &&& items_view(e.upgrades@) == inventory_under(contents, "upgradeInventory"@)
    &&& e.cols == 9
    &&& !e.is_dungeon
    &&& e.dimension@.len() == 0
    &&& e.owner@ == lowercase(player)
    &&& e.uuid@ == lowercase(u)
    &&& e.coords is None
    &&& e.nbt_blob@.len() == 0
    &&& finalized(e, player + " "@ + u + " "@ + name)
}

fn record_field(rec: Option<&Nbt>, key: &str) -> (r: String)
    ensures
        r@ == record_text(opt_view(rec), key@),
{
    proof {
        reveal_strlit("");
    }
    match rec {
        Some(x) => str_field_or(x, key, ""),
        None => String::new(),
    }
}

fn inventory_items(contents: Option<&Nbt>, key: &str) -> (r: Vec<Item>)
    ensures
        items_view(r@) == inventory_under(opt_view(contents), key@),
{
    match contents {
        Some(c) => match get(c, key) {
            Some(inv) => items_from_list(get(inv, "Items")),
            None => Vec::new(),
        },
        None => Vec::new(),
    }
}

fn parse_backpack(bc: &Nbt, log: &Vec<Nbt>, uuids: &Vec<Option<String>>) -> (r: Option<Entry>)
    requires
        uuids@.len() == log@.len(),
        forall|j: int|
            0 <= j < log@.len() ==> crate::model::opt_string_view(#[trigger] uuids@[j])
                == uuid_field(log@[j]@, "backpackUuid"@, "uuid"@),
    ensures
        match uuid_field(bc@, "uuid"@, "backpackUuid"@) {
            Some(u) => r matches Some(e) && backpack_built(e, bc@, u, nbts_view(log@)),
            None => r is None,
        },
{
    let uuid = uuid_of(bc, "uuid", "backpackUuid")?;
    proof {
        lemma_nbts_view(log@);
    }
    let ghost lv = nbts_view(log@);
    let mut k: usize = log.len();
    let mut rec: Option<&Nbt> = None;
    while k > 0
        invariant_except_break
            k <= log@.len(),
            rec is None,
            owner_record(lv, lv.len() as int, uuid@) == owner_record(lv, k as int, uuid@),
        invariant
            uuids@.len() == log@.len(),
            lv == nbts_view(log@),
            lv.len() == log@.len(),
            forall|j: int| 0 <= j < log@.len() ==> #[trigger] lv[j] == log@[j]@,
            forall|j: int|
                0 <= j < log@.len() ==> crate::model::opt_string_view(#[trigger] uuids@[j])
                    == uuid_field(log@[j]@, "backpackUuid"@, "uuid"@),
        ensures
            opt_view(rec) == owner_record(lv, lv.len() as int, uuid@),
        decreases k,
    {
        let hit = match &uuids[k - 1] {
            Some(u) => str_eq(u.as_str(), uuid.as_str()),
            None => false,
        };
        if hit {
            rec = Some(&log[k - 1]);
            break;
        }
        k -= 1;
    }
    let registry = record_field(rec, "backpackItemRegistryName");
    let raw_player = record_field(rec, "playerName");
    let name = record_field(rec, "backpackName");
    let access: i64 = match rec {
        Some(x) => match int_field(x, "accessTime") {
            Some(t) => t,
            None => 0,
        },
        None => 0,
    };
    let icon = if registry.as_str().is_empty() {
        copy_str("sophisticatedbackpacks:backpack")
    } else {
        registry
    };
    let player = if raw_player.as_str().is_empty() {
        copy_str("Unknown")
    } else {
        raw_player
    };
    let date = format_short_date(access);
    let mut meta: Vec<(String, String)> = Vec::new();
    meta.push(text_pair("Owner", player.as_str()));
    if !name.as_str().is_empty() {
        meta.push(text_pair("Backpack", name.as_str()));
    }
    meta.push(text_pair("Last access", date.as_str()));
    meta.push(text_pair("UUID", uuid.as_str()));
    let mut copies: Vec<CopyAction> = Vec::new();
    copies.push(copy_action("Copy Player", player.as_str()));
    copies.push(copy_action("Copy UUID", uuid.as_str()));
    copies.push(copy_action("Copy Registry", icon.as_str()));
    let contents = get(bc, "contents");
    let items = inventory_items(contents, "inventory");
    let upgrades = inventory_items(contents, "upgradeInventory");
    let title = cat(cat(player.as_str(), " - ").as_str(), prettify_id(icon.as_str()).as_str());
    let extra = join3(player.as_str(), " ", uuid.as_str(), name.as_str());
    let mut e = Entry::blank(EntryKind::Backpack);
    e.title = title;
    e.header_icon = icon;
    e.meta = meta;
    e.copies = copies;
    e.items = items;
    e.upgrades = upgrades;
    e.cols = 9;
    e.owner = to_lower(player.as_str());
    e.uuid = to_lower(uuid.as_str());
    e.finalize(extra.as_str());
    proof {
        let rv = owner_record(lv, lv.len() as int, uuid@);
        if name@.len() == 0 {
            assert(text_pairs_view(e.meta@) =~= seq![
                ("Owner"@, player@),
                ("Last access"@, date@),
                ("UUID"@, uuid@),
            ]);
        } else {
            assert(text_pairs_view(e.meta@) =~= seq![
                ("Owner"@, player@),
                ("Backpack"@, name@),
                ("Last access"@, date@),
                ("UUID"@, uuid@),
            ]);
        }
        assert(copies_view(e.copies@) =~= seq![
            ("Copy Player"@, player@),
            ("Copy UUID"@, uuid@),
            ("Copy Registry"@, e.header_icon@),
        ]);
    }
    Some(e)
}


/// The elements of the list under `k`, none where there is no such list.
pub open spec fn list_under(p: NbtV, k: Seq<char>) -> Seq<NbtV> {
    match opt_list(get_spec(p, k)) {
        Some(l) => l,
        None => seq![],
    }
}

/// The first `n` backpacks of `list` that carry a uuid, with that uuid.
pub open spec fn with_uuid(list: Seq<NbtV>, n: int) -> Seq<(NbtV, Seq<char>)>
    decreases n,
{
    if n <= 0 || n > list.len() {
        seq![]
    } else {
        match uuid_field(list[n - 1], "uuid"@, "backpackUuid"@) {
            Some(u) => with_uuid(list, n - 1).push((list[n - 1], u)),
            None => with_uuid(list, n - 1),
        }
    }
}

/// The entries of the backpacks in a payload compound: one for each backpack
/// with a uuid, in order.
pub open spec fn backpacks_of(es: Seq<Entry>, p: NbtV) -> bool {
    let list = list_under(p, "backpackContents"@);
    let log = list_under(p, "accessLogRecords"@);
    let sel = with_uuid(list, list.len() as int);
    &&& es.len() == sel.len()
    &&& forall|i: int|
        0 <= i < es.len() ==> backpack_built(#[trigger] es[i], sel[i].0, sel[i].1, log)
}

fn list_field<'a>(v: &'a Nbt, key: &str) -> (r: Option<&'a Vec<Nbt>>)
    ensures
        match r {
            Some(l) => list_under(v@, key@) == nbts_view(l@),
            None => list_under(v@, key@) == Seq::<NbtV>::empty(),
        },
{
    match get(v, key) {
        Some(x) => as_list(x),
        None => None,
    }
}

/// The backpacks of a decoded backpack file (see `backpacks_of`), or the
/// error when it holds no `backpackContents`.
pub fn backpacks_from_root(root: &Nbt) -> (r: Result<Vec<Entry>, String>)
    ensures
        match payload_of(root@, 0) {
            None => r matches Err(m) && m@ == "could not locate 'backpackContents' in NBT"@,
            Some(p) => r matches Ok(es) && backpacks_of(es@, p),
        },
{
    let payload = match find_payload(root, 0) {
        Some(p) => p,
        None => {
            return Err(copy_str("could not locate 'backpackContents' in NBT"));
        },
    };
    let empty: Vec<Nbt> = Vec::new();
    let log = match list_field(payload, "accessLogRecords") {
        Some(l) => l,
        None => &empty,
    };
    proof {
        lemma_nbts_view(log@);
    }
    let ghost lv = nbts_view(log@);
    assert(lv =~= list_under(payload@, "accessLogRecords"@));
    let mut uuids: Vec<Option<String>> = Vec::new();
    let mut j: usize = 0;
    while j < log.len()
        invariant
            j <= log@.len(),
            uuids@.len() == j,
            forall|t: int|
                0 <= t < j ==> crate::model::opt_string_view(#[trigger] uuids@[t]) == uuid_field(
                    log@[t]@,
                    "backpackUuid"@,
                    "uuid"@,
                ),
        decreases log.len() - j,
    {
        uuids.push(uuid_of(&log[j], "backpackUuid", "uuid"));
        j += 1;
    }
    let list = match list_field(payload, "backpackContents") {
        Some(l) => l,
        None => &empty,
    };
    proof {
        lemma_nbts_view(list@);
    }
    let ghost cv = nbts_view(list@);
    assert(cv =~= list_under(payload@, "backpackContents"@));
    let mut out: Vec<Entry> = Vec::new();
    let mut i: usize = 0;
    while i < list.len()
        invariant
            i <= list@.len(),
            cv == nbts_view(list@),
            cv.len() == list@.len(),
            forall|t: int| 0 <= t < list@.len() ==> #[trigger] cv[t] == list@[t]@,
            lv == nbts_view(log@),
            uuids@.len() == log@.len(),
            forall|t: int|
                0 <= t < log@.len() ==> crate::model::opt_string_view(#[trigger] uuids@[t])
                    == uuid_field(log@[t]@, "backpackUuid"@, "uuid"@),
            out@.len() == with_uuid(cv, i as int).len(),
            forall|t: int|
                0 <= t < out@.len() ==> backpack_built(
                    #[trigger] out@[t],
                    with_uuid(cv, i as int)[t].0,
                    with_uuid(cv, i as int)[t].1,
                    lv,
                ),
        decreases list.len() - i,
    {
        let ghost before = out@;
        let ghost sel = with_uuid(cv, i as int);
        if let Some(e) = parse_backpack(&list[i], log, &uuids) {
            out.push(e);
        }
        i += 1;
        proof {
            let sel2 = with_uuid(cv, i as int);
            assert forall|t: int| 0 <= t < out@.len() implies backpack_built(
                #[trigger] out@[t],
                sel2[t].0,
                sel2[t].1,
                lv,
            ) by {
                if t < before.len() {
                    assert(out@[t] == before[t]);
                    assert(sel2[t] == sel[t]);
                }
            }
        }
    }
    Ok(out)
}

/// Reads a backpack file (after decompression): the entries of its
/// backpacks, or the error of fastnbt or of `backpacks_from_root`.
pub fn load_backpacks_bytes(bytes: &[u8]) -> (r: Result<Vec<Entry>, String>)
    ensures
        match nbt_read(bytes@) {
            Err(m) => r matches Err(x) && x@ == "nbt parse: "@ + m,
            Ok(t) => exists|v: NbtV|
                tree(v) == t && match payload_of(v, 0) {
                    None => r matches Err(x) && x@ == "could not locate 'backpackContents' in NBT"@,
                    Some(p) => r matches Ok(es) && backpacks_of(es@, p),
                },
        },
{
    match decode_nbt(bytes) {
        Ok(root) => {
            let r = backpacks_from_root(&root);
            assert(tree(root@) == tree(root@));
            r
        },
        Err(m) => Err(cat("nbt parse: ", m.as_str())),
    }
}


/// What flate2's `MultiGzDecoder` reads to the end of `raw`: the data of
/// all its gzip members, or none when it reports an error.
pub uninterp spec fn gzip_decoded(raw: Seq<u8>) -> Option<Seq<u8>>;

/// What flate2's `ZlibDecoder` reads to the end of `raw`, or none when it
/// reports an error.
pub uninterp spec fn zlib_decoded(raw: Seq<u8>) -> Option<Seq<u8>>;

/// `flate2::read::MultiGzDecoder` read to the end. Its output is named, not
/// stated.
#[verifier::external_body]
fn gunzip(raw: &[u8]) -> (r: Option<Vec<u8>>)
    ensures
        match r {
            Some(v) => gzip_decoded(raw@) == Some(v@),
            None => gzip_decoded(raw@) is None,
        },
{
    let mut out = Vec::new();
    match flate2::read::MultiGzDecoder::new(raw).read_to_end(&mut out) {
        Ok(_) => Some(out),
        Err(_) => None,
    }
}

/// `flate2::read::ZlibDecoder` read to the end. Its output is named, not
/// stated.
#[verifier::external_body]
pub(crate) fn inflate_zlib(raw: &[u8]) -> (r: Option<Vec<u8>>)
    ensures
        match r {
            Some(v) => zlib_decoded(raw@) == Some(v@),
            None => zlib_decoded(raw@) is None,
        },
{
    let mut out = Vec::new();
    match flate2::read::ZlibDecoder::new(raw).read_to_end(&mut out) {
        Ok(_) => Some(out),
        Err(_) => None,
    }
}

/// A file's bytes unpacked: gzip when it starts with 0x1f, zlib when it
/// starts with 0x78, each only when the decoder succeeds; else as they are.
pub open spec fn decompressed(raw: Seq<u8>) -> Seq<u8> {
    if raw.len() > 0 && raw[0] == 0x1f && gzip_decoded(raw) is Some {
        gzip_decoded(raw).unwrap()
    } else if raw.len() > 0 && raw[0] == 0x78 && zlib_decoded(raw) is Some {
        zlib_decoded(raw).unwrap()
    } else {
        raw
    }
}

/// Unpacks a gzip or zlib file, see `decompressed`.
pub fn decompress(raw: &[u8]) -> (r: Vec<u8>)
    ensures
        r@ == decompressed(raw@),
{
    if raw.len() > 0 && raw[0] == 0x1f {
        if let Some(v) = gunzip(raw) {
            return v;
        }
    }
    if raw.len() > 0 && raw[0] == 0x78 {
        if let Some(v) = inflate_zlib(raw) {
            return v;
        }
    }
    let mut out: Vec<u8> = Vec::new();
    let mut i: usize = 0;
    while i < raw.len()
        invariant
            i <= raw@.len(),
            out@ == raw@.take(i as int),
        decreases raw.len() - i,
    {
        out.push(raw[i]);
        i += 1;
        assert(out@ =~= raw@.take(i as int));
    }
    assert(raw@.take(raw@.len() as int) =~= raw@);
    out
}

} // verus!
