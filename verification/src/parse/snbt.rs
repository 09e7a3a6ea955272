//! A lenient reader of SNBT (Minecraft's text form of NBT) into JSON values:
//! compounds become objects (keys in order, a repeated key keeps its last
//! value), lists and typed arrays become arrays, quoted and bare strings
//! become strings, and numbers with a type suffix become numbers.
use vstd::prelude::*;
use crate::json_value::{
    jsons_view, lemma_jsons_view, lemma_members_view, members_view, num_of, Json, JsonNum, JsonV,
};
use crate::text::{
    chars_of, copy_str, int_text, int_to_string, is_ascii_white, is_ascii_whitespace,
    parse_i64_chars, parse_i64_spec, push_char, str_eq, string_from,
};
use vstd::string::StringSliceAdditionalSpecFns;

verus! {

/// The position of the first non-whitespace byte at or after `i`.
pub open spec fn ws_end(b: Seq<u8>, i: int) -> int
    decreases b.len() - i,
{
    if 0 <= i < b.len() && is_ascii_white(b[i]) {
        ws_end(b, i + 1)
    } else {
        i
    }
}

pub proof fn lemma_ws_end(b: Seq<u8>, i: int)
    ensures
        i <= ws_end(b, i),
        0 <= i <= b.len() ==> ws_end(b, i) <= b.len(),
    decreases b.len() - i,
{
    if 0 <= i < b.len() && is_ascii_white(b[i]) {
        lemma_ws_end(b, i + 1);
    }
}

/// A byte that ends a bare token.
pub open spec fn is_delim(c: u8) -> bool {
    c == 0x2c || c == 0x7d || c == 0x5d || c == 0x3a || c == 0x7b || c == 0x5b || is_ascii_white(c)
}

/// The end of the bare token that starts at `i`.
pub open spec fn tok_end(b: Seq<u8>, i: int) -> int
    decreases b.len() - i,
{
    if 0 <= i < b.len() && !is_delim(b[i]) {
        tok_end(b, i + 1)
    } else {
        i
    }
}

pub proof fn lemma_tok_end(b: Seq<u8>, i: int)
    ensures
        i <= tok_end(b, i),
        0 <= i <= b.len() ==> tok_end(b, i) <= b.len(),
        forall|k: int| i <= k < tok_end(b, i) ==> !is_delim(#[trigger] b[k]),
    decreases b.len() - i,
{
    if 0 <= i < b.len() && !is_delim(b[i]) {
        lemma_tok_end(b, i + 1);
    }
}

/// The body of a string quoted by `q`, from `j`, and the position after its
/// closing quote (or the end). A backslash takes the next byte: `n` and `t`
/// stand for newline and tab, any other byte for itself. Each byte becomes
/// the character of the same number.
pub open spec fn quoted_body(b: Seq<u8>, j: int, q: u8) -> (Seq<char>, int)
    decreases b.len() - j,
{
    if j < 0 || j >= b.len() {
        (seq![], j)
    } else if b[j] == 0x5c {
        if j + 1 < b.len() {
            let nx = b[j + 1];
            let ch = if nx == 0x6e {
                '\n'
            } else if nx == 0x74 {
                '\t'
            } else {
                nx as char
            };
            let (r, e) = quoted_body(b, j + 2, q);
            (seq![ch] + r, e)
        } else {
            (seq![], j + 1)
        }
    } else if b[j] == q {
        (seq![], j + 1)
    } else {
        let (r, e) = quoted_body(b, j + 1, q);
        (seq![b[j] as char] + r, e)
    }
}

pub proof fn lemma_quoted_body(b: Seq<u8>, j: int, q: u8)
    requires
        0 <= j,
    ensures
        j <= quoted_body(b, j, q).1,
        j <= b.len() ==> quoted_body(b, j, q).1 <= b.len(),
    decreases b.len() - j,
{
    if j < b.len() {
        if b[j] == 0x5c {
            if j + 1 < b.len() {
                lemma_quoted_body(b, j + 2, q);
            }
        } else if b[j] != q {
            lemma_quoted_body(b, j + 1, q);
        }
    }
}

/// What `String::from_utf8_lossy` makes of bytes: their UTF-8 text with each
/// invalid sequence replaced by U+FFFD.
pub uninterp spec fn utf8_lossy(b: Seq<u8>) -> Seq<char>;

pub open spec fn is_ascii_bytes(b: Seq<u8>) -> bool {
    forall|k: int| 0 <= k < b.len() ==> (#[trigger] b[k]) < 0x80
}

/// `String::from_utf8_lossy(..).into_owned()`; its result is named, and
/// stated where the document of `from_utf8_lossy` gives it: valid UTF-8 is
/// decoded unchanged, and ASCII bytes are each their own character.
#[verifier::external_body]
fn lossy_text(b: &[u8]) -> (r: String)
    ensures
        r@ == utf8_lossy(b@),
        vstd::utf8::valid_utf8(b@) ==> r@ == vstd::utf8::decode_utf8(b@),
        is_ascii_bytes(b@) ==> r@ == b@.map_values(|c: u8| c as char),
{
    String::from_utf8_lossy(b).into_owned()
}

/// The text of the bare token at `i`.
pub open spec fn bare_text(b: Seq<u8>, i: int) -> Seq<char> {
    utf8_lossy(b.subrange(i, tok_end(b, i)))
}

/// A type suffix of an SNBT number.
pub open spec fn is_suffix(c: char) -> bool {
    c == 'b' || c == 's' || c == 'l' || c == 'f' || c == 'd' || c == 'B' || c == 'S' || c == 'L'
        || c == 'F' || c == 'D'
}

/// The number that serde_json makes of a text that `str::parse` reads as a
/// finite double-precision float, with its display text; none otherwise.
pub uninterp spec fn float_number(s: Seq<char>) -> Option<(JsonNum, Seq<char>)>;

/// `str::parse` into a double-precision float, then
/// `serde_json::Number::from_f64`; the result is named, not stated.
#[verifier::external_body]
fn parse_float_number(s: &str) -> (r: Option<(JsonNum, String)>)
    ensures
        match r {
            Some((n, t)) => float_number(s@) == Some((n, t@)),
            None => float_number(s@) is None,
        },
{
    match s.parse().ok().and_then(serde_json::Number::from_f64) {
        Some(n) => Some((num_of(&n), n.to_string())),
        None => None,
    }
}

/// The JSON number of an integer.
pub open spec fn int_number(n: i64) -> JsonV {
    if n >= 0 {
        JsonV::Number(JsonNum::PosInt(n as u64), int_text(n as int))
    } else {
        JsonV::Number(JsonNum::NegInt(n), int_text(n as int))
    }
}

/// What a bare token means: `true`, `false`, the empty string, an integer
/// or a float (a trailing type letter dropped), else the token as text.
pub open spec fn interpret(tok: Seq<char>) -> JsonV {
    if tok == "true"@ {
        JsonV::Bool(true)
    } else if tok == "false"@ {
        JsonV::Bool(false)
    } else if tok.len() == 0 {
        JsonV::String(seq![])
    } else {
        let core = if tok.len() > 1 && is_suffix(tok.last()) {
            tok.drop_last()
        } else {
            tok
        };
        match parse_i64_spec(core) {
            Some(n) => int_number(n),
            None => match float_number(core) {
                Some((n, t)) => JsonV::Number(n, t),
                None => JsonV::String(tok),
            },
        }
    }
}

/// `a` sorts before `b` (code point by code point, a prefix first), as
/// `String`'s order does.
pub open spec fn key_lt(a: Seq<char>, b: Seq<char>) -> bool
    decreases a.len(),
{
    if b.len() == 0 {
        false
    } else if a.len() == 0 {
        true
    } else if a[0] != b[0] {
        (a[0] as u32) < (b[0] as u32)
    } else {
        key_lt(a.drop_first(), b.drop_first())
    }
}

/// A map in key order with `k` set to `v` (`BTreeMap::insert`).
pub open spec fn insert_member(m: Seq<(Seq<char>, JsonV)>, k: Seq<char>, v: JsonV) -> Seq<
    (Seq<char>, JsonV),
>
    decreases m.len(),
{
    if m.len() == 0 {
        seq![(k, v)]
    } else if m[0].0 == k {
        seq![(k, v)] + m.drop_first()
    } else if key_lt(k, m[0].0) {
        seq![(k, v)] + m
    } else {
        seq![m[0]] + insert_member(m.drop_first(), k, v)
    }
}

/// Where the elements of an array opened before `k` start: after a typed
/// array's `B;`, `I;` or `L;` (any case), else at `k`.
pub open spec fn array_start(b: Seq<u8>, k: int) -> int {
    let j = ws_end(b, k);
    if 0 <= j && j + 1 < b.len() && b[j + 1] == 0x3b && (b[j] == 0x42 || b[j] == 0x49 || b[j]
        == 0x4c || b[j] == 0x62 || b[j] == 0x69 || b[j] == 0x6c) {
        j + 2
    } else {
        k
    }
}

/// The value that starts at or after `i` (after whitespace), and where it
/// ends. An array element that reads nothing fails the array.
pub open spec fn p_value(b: Seq<u8>, i: int) -> Option<(JsonV, int)>
    decreases b.len() - i, 0int,
{
    proof {
        lemma_ws_end(b, i);
    }
    let j = ws_end(b, i);
    if i < 0 || j >= b.len() {
        None
    } else if b[j] == 0x7b {
        p_object(b, j + 1, seq![])
    } else if b[j] == 0x5b {
        proof {
            lemma_ws_end(b, j + 1);
        }
        p_array(b, array_start(b, j + 1), seq![])
    } else if b[j] == 0x22 || b[j] == 0x27 {
        let (s, e) = quoted_body(b, j + 1, b[j]);
        Some((JsonV::String(s), e))
    } else {
        Some((interpret(bare_text(b, j)), tok_end(b, j)))
    }
}

pub open spec fn p_array(b: Seq<u8>, k: int, acc: Seq<JsonV>) -> Option<(JsonV, int)>
    decreases b.len() - k, 1int,
{
    proof {
        lemma_ws_end(b, k);
    }
    let j = ws_end(b, k);
    if k < 0 || j >= b.len() {
        None
    } else if b[j] == 0x5d {
        Some((JsonV::Array(acc), j + 1))
    } else if b[j] == 0x2c {
        p_array(b, j + 1, acc)
    } else {
        match p_value(b, j) {
            None => None,
            Some((v, e)) => if j < e <= b.len() {
                p_array(b, e, acc.push(v))
            } else {
                None
            },
        }
    }
}

pub open spec fn p_object(b: Seq<u8>, k: int, acc: Seq<(Seq<char>, JsonV)>) -> Option<(JsonV, int)>
    decreases b.len() - k, 1int,
{
    proof {
        lemma_ws_end(b, k);
    }
    let j = ws_end(b, k);
    if k < 0 || j >= b.len() {
        None
    } else if b[j] == 0x7d {
        Some((JsonV::Object(acc), j + 1))
    } else if b[j] == 0x2c {
        p_object(b, j + 1, acc)
    } else {
        let (key, e) = if b[j] == 0x22 || b[j] == 0x27 {
            quoted_body(b, j + 1, b[j])
        } else {
            (bare_text(b, j), tok_end(b, j))
        };
        let c = ws_end(b, e);
        if 0 <= c < b.len() && b[c] == 0x3a && c >= j {
            match p_value(b, c + 1) {
                None => None,
                Some((v, e2)) => if k < e2 <= b.len() {
                    p_object(b, e2, insert_member(acc, key, v))
                } else {
                    None
                },
            }
        } else {
            None
        }
    }
}

/// The value that an SNBT text holds (trailing text ignored).
pub open spec fn snbt_of(s: Seq<char>) -> Option<JsonV> {
    match p_value(vstd::utf8::encode_utf8(s), 0) {
        Some((v, _)) => Some(v),
        None => None,
    }
}


fn skip_ws(b: &[u8], i: usize) -> (r: usize)
    requires
        i <= b@.len(),
    ensures
        r == ws_end(b@, i as int),
        r <= b@.len(),
{
    let mut j = i;
    while j < b.len() && is_ascii_whitespace(b[j])
        invariant
            i <= j <= b@.len(),
            ws_end(b@, i as int) == ws_end(b@, j as int),
        decreases b.len() - j,
    {
        j += 1;
    }
    j
}

fn bare_token(b: &[u8], i: usize) -> (r: (String, usize))
    requires
        i <= b@.len(),
    ensures
        r.0@ == bare_text(b@, i as int),
        r.1 == tok_end(b@, i as int),
        i <= r.1 <= b@.len(),
{
    let mut j = i;
    while j < b.len() && !(b[j] == 0x2c || b[j] == 0x7d || b[j] == 0x5d || b[j] == 0x3a || b[j]
        == 0x7b || b[j] == 0x5b || is_ascii_whitespace(b[j]))
        invariant
            i <= j <= b@.len(),
            tok_end(b@, i as int) == tok_end(b@, j as int),
        decreases b.len() - j,
    {
        j += 1;
    }
    let t = lossy_text(vstd::slice::slice_subrange(b, i, j));
    (t, j)
}

fn quoted(b: &[u8], j: usize, q: u8) -> (r: (String, usize))
    requires
        j <= b@.len(),
    ensures
        (r.0@, r.1 as int) == quoted_body(b@, j as int, q),
        j <= r.1 <= b@.len(),
{
    proof {
        lemma_quoted_body(b@, j as int, q);
    }
    let ghost whole = quoted_body(b@, j as int, q);
    let mut out = String::new();
    let mut k = j;
    loop
        invariant
            j <= k <= b@.len(),
            whole == quoted_body(b@, j as int, q),
            out@ + quoted_body(b@, k as int, q).0 == whole.0,
            quoted_body(b@, k as int, q).1 == whole.1,
        decreases b.len() - k,
    {
        if k >= b.len() {
            assert(out@ =~= whole.0);
            return (out, k);
        }
        let c = b[k];
        if c == 0x5c {
            if k + 1 < b.len() {
                let nx = b[k + 1];
                let ch = if nx == 0x6e {
                    '\n'
                } else if nx == 0x74 {
                    '\t'
                } else {
                    nx as char
                };
                let ghost rest = quoted_body(b@, k + 2, q);
                push_char(&mut out, ch);
                assert(out@ + rest.0 =~= whole.0);
                k = k + 2;
            } else {
                assert(out@ =~= whole.0);
                return (out, k + 1);
            }
        } else if c == q {
            assert(out@ =~= whole.0);
            return (out, k + 1);
        } else {
            let ghost rest = quoted_body(b@, k + 1, q);
            push_char(&mut out, c as char);
            assert(out@ + rest.0 =~= whole.0);
            k = k + 1;
        }
    }
}

fn is_suffix_char(c: char) -> (r: bool)
    ensures
        r == is_suffix(c),
{
    c == 'b' || c == 's' || c == 'l' || c == 'f' || c == 'd' || c == 'B' || c == 'S' || c == 'L'
        || c == 'F' || c == 'D'
}

fn interpret_token(tok: String) -> (r: Json)
    ensures
        r@ == interpret(tok@),
{
    if str_eq(tok.as_str(), "true") {
        return Json::Bool(true);
    }
    if str_eq(tok.as_str(), "false") {
        return Json::Bool(false);
    }
    if tok.as_str().is_empty() {
        assert(tok@ =~= Seq::<char>::empty());
        return Json::String(tok);
    }
    let t = chars_of(tok.as_str());
    let core: Vec<char> = if t.len() > 1 && is_suffix_char(t[t.len() - 1]) {
        let mut c: Vec<char> = Vec::new();
        let mut i: usize = 0;
        while i < t.len() - 1
            invariant
                t@ == tok@,
                t@.len() > 1,
                i <= t@.len() - 1,
                c@ == t@.take(i as int),
            decreases t.len() - 1 - i,
        {
            c.push(t[i]);
            i += 1;
            assert(c@ =~= t@.take(i as int));
        }
        assert(c@ =~= tok@.drop_last());
        c
    } else {
        t
    };
    match parse_i64_chars(core.as_slice()) {
        Some(n) => {
            let text = int_to_string(n);
            if n >= 0 {
                Json::Number(JsonNum::PosInt(n as u64), text)
            } else {
                Json::Number(JsonNum::NegInt(n), text)
            }
        },
        None => {
            let cs = string_from(core.as_slice());
            match parse_float_number(cs.as_str()) {
                Some((n, text)) => Json::Number(n, text),
                None => Json::String(tok),
            }
        },
    }
}

/// `a` sorts before `b`.
pub(crate) fn key_less(a: &str, b: &str) -> (r: bool)
    ensures
        r == key_lt(a@, b@),
{
    let x = chars_of(a);
    let y = chars_of(b);
    let mut i: usize = 0;
    assert(x@.skip(0) =~= x@);
    assert(y@.skip(0) =~= y@);
    while i < x.len() && i < y.len() && x[i] == y[i]
        invariant
            x@ == a@,
            y@ == b@,
            i <= x@.len(),
            i <= y@.len(),
            key_lt(a@, b@) == key_lt(x@.skip(i as int), y@.skip(i as int)),
        decreases x.len() - i,
    {
        assert(x@.skip(i as int).drop_first() =~= x@.skip(i + 1));
        assert(y@.skip(i as int).drop_first() =~= y@.skip(i + 1));
        i += 1;
    }
    if i >= y.len() {
        assert(y@.skip(i as int).len() == 0);
        false
    } else if i >= x.len() {
        assert(x@.skip(i as int).len() == 0);
        true
    } else {
        assert(x@.skip(i as int)[0] == x@[i as int]);
        assert(y@.skip(i as int)[0] == y@[i as int]);
        (x[i] as u32) < (y[i] as u32)
    }
}

proof fn lemma_insert_member_prefix(m: Seq<(Seq<char>, JsonV)>, k: Seq<char>, v: JsonV, i: int)
    requires
        0 <= i <= m.len(),
        forall|j: int| 0 <= j < i ==> (#[trigger] m[j]).0 != k && !key_lt(k, m[j].0),
    ensures
        insert_member(m, k, v) == m.take(i) + insert_member(m.skip(i), k, v),
    decreases i,
{
    if i > 0 {
        lemma_insert_member_prefix(m.drop_first(), k, v, i - 1);
        assert(m.drop_first().take(i - 1) =~= m.take(i).drop_first());
        assert(m.drop_first().skip(i - 1) =~= m.skip(i));
        assert(m.take(i) =~= seq![m[0]] + m.take(i).drop_first());
    } else {
        assert(m.skip(0) =~= m);
    }
}

fn insert_into(m: &mut Vec<(String, Json)>, k: String, v: Json)
    ensures
        members_view(final(m)@) == insert_member(members_view(old(m)@), k@, v@),
{
    proof {
        lemma_members_view(m@);
    }
    let ghost mv = members_view(m@);
    let mut i: usize = 0;
    while i < m.len()
        invariant
            m@ == old(m)@,
            mv == members_view(m@),
            mv.len() == m@.len(),
            forall|j: int| 0 <= j < m@.len() ==> #[trigger] mv[j] == (m@[j].0@, m@[j].1@),
            i <= m@.len(),
            forall|j: int| 0 <= j < i ==> (#[trigger] mv[j]).0 != k@ && !key_lt(k@, mv[j].0),
        decreases m.len() - i,
    {
        let same = str_eq(m[i].0.as_str(), k.as_str());
        let less = key_less(k.as_str(), m[i].0.as_str());
        if same || less {
            proof {
                lemma_insert_member_prefix(mv, k@, v@, i as int);
                assert(mv.skip(i as int)[0] == mv[i as int]);
                assert(mv.skip(i as int).drop_first() =~= mv.skip(i + 1));
            }
            let ghost kv = k@;
            let ghost vv = v@;
            if same {
                m.set(i, (k, v));
                proof {
                    lemma_members_view(m@);
                    assert(members_view(m@) =~= mv.take(i as int) + (seq![(kv, vv)] + mv.skip(
                        i + 1,
                    )));
                }
            } else {
                m.insert(i, (k, v));
                proof {
                    lemma_members_view(m@);
                    assert(members_view(m@) =~= mv.take(i as int) + (seq![(kv, vv)] + mv.skip(
                        i as int,
                    )));
                }
            }
            return;
        }
        i += 1;
    }
    proof {
        lemma_insert_member_prefix(mv, k@, v@, i as int);
        assert(mv.skip(i as int).len() == 0);
    }
    let ghost kv = k@;
    let ghost vv = v@;
    m.push((k, v));
    proof {
        lemma_members_view(m@);
        assert(members_view(m@) =~= mv.take(i as int) + seq![(kv, vv)]);
    }
}


fn array_begin(b: &[u8], k: usize) -> (r: usize)
    requires
        k <= b@.len(),
    ensures
        r == array_start(b@, k as int),
        k <= r <= b@.len(),
{
    let j = skip_ws(b, k);
    proof {
        lemma_ws_end(b@, k as int);
    }
    if j < b.len() && j + 1 < b.len() && b[j + 1] == 0x3b && (b[j] == 0x42 || b[j] == 0x49 || b[j]
        == 0x4c || b[j] == 0x62 || b[j] == 0x69 || b[j] == 0x6c) {
        j + 2
    } else {
        k
    }
}

fn value(b: &[u8], i: usize) -> (r: Option<(Json, usize)>)
    requires
        i <= b@.len(),
    ensures
        match r {
            Some((v, e)) => p_value(b@, i as int) == Some((v@, e as int)) && e <= b@.len(),
            None => p_value(b@, i as int) is None,
        },
    decreases b@.len() - i, 0int,
{
    let j = skip_ws(b, i);
    proof {
        lemma_ws_end(b@, i as int);
    }
    if j >= b.len() {
        return None;
    }
    let c = b[j];
    if c == 0x7b {
        object(b, j + 1)
    } else if c == 0x5b {
        proof {
            lemma_ws_end(b@, j + 1);
        }
        let st = array_begin(b, j + 1);
        array(b, st)
    } else if c == 0x22 || c == 0x27 {
        let (s, e) = quoted(b, j + 1, c);
        Some((Json::String(s), e))
    } else {
        let (t, e) = bare_token(b, j);
        Some((interpret_token(t), e))
    }
}

fn array(b: &[u8], k0: usize) -> (r: Option<(Json, usize)>)
    requires
        k0 <= b@.len(),
    ensures
        match r {
            Some((v, e)) => p_array(b@, k0 as int, seq![]) == Some((v@, e as int)) && e <= b@.len(),
            None => p_array(b@, k0 as int, seq![]) is None,
        },
    decreases b@.len() - k0, 1int,
{
    let mut acc: Vec<Json> = Vec::new();
    let mut k = k0;
    assert(jsons_view(acc@) =~= Seq::<JsonV>::empty());
    loop
        invariant
            k0 <= k <= b@.len(),
            p_array(b@, k0 as int, seq![]) == p_array(b@, k as int, jsons_view(acc@)),
        decreases b@.len() - k,
    {
        let j = skip_ws(b, k);
        proof {
            lemma_ws_end(b@, k as int);
        }
        if j >= b.len() {
            return None;
        }
        if b[j] == 0x5d {
            return Some((Json::Array(acc), j + 1));
        }
        if b[j] == 0x2c {
            k = j + 1;
        } else {
            match value(b, j) {
                None => {
                    return None;
                },
                Some((v, e)) => {
                    if e > j {
                        let ghost before = jsons_view(acc@);
                        let ghost old_acc = acc@;
                        let ghost vv = v@;
                        acc.push(v);
                        assert(acc@.drop_last() =~= old_acc);
                        assert(jsons_view(acc@) == before.push(vv));
                        k = e;
                    } else {
                        return None;
                    }
                },
            }
        }
    }
}

fn object(b: &[u8], k0: usize) -> (r: Option<(Json, usize)>)
    requires
        k0 <= b@.len(),
    ensures
        match r {
            Some((v, e)) => p_object(b@, k0 as int, seq![]) == Some((v@, e as int)) && e
                <= b@.len(),
            None => p_object(b@, k0 as int, seq![]) is None,
        },
    decreases b@.len() - k0, 1int,
{
    let mut acc: Vec<(String, Json)> = Vec::new();
    let mut k = k0;
    assert(members_view(acc@) =~= Seq::<(Seq<char>, JsonV)>::empty());
    loop
        invariant
            k0 <= k <= b@.len(),
            p_object(b@, k0 as int, seq![]) == p_object(b@, k as int, members_view(acc@)),
        decreases b@.len() - k,
    {
        let j = skip_ws(b, k);
        proof {
            lemma_ws_end(b@, k as int);
        }
        if j >= b.len() {
            return None;
        }
        if b[j] == 0x7d {
            return Some((Json::Object(acc), j + 1));
        }
        if b[j] == 0x2c {
            k = j + 1;
        } else {
            let (key, e) = if b[j] == 0x22 || b[j] == 0x27 {
                quoted(b, j + 1, b[j])
            } else {
                bare_token(b, j)
            };
            let c = skip_ws(b, e);
            proof {
                lemma_ws_end(b@, e as int);
            }
            if c < b.len() && b[c] == 0x3a {
                match value(b, c + 1) {
                    None => {
                        return None;
                    },
                    Some((v, e2)) => {
                        if e2 > k {
                            insert_into(&mut acc, key, v);
                            k = e2;
                        } else {
                            return None;
                        }
                    },
                }
            } else {
                return None;
            }
        }
    }
}

/// Reads an SNBT text (see `snbt_value`).
pub fn parse(input: &str) -> (r: Option<Json>)
    ensures
        match r {
            Some(v) => snbt_of(input@) == Some(v@),
            None => snbt_of(input@) is None,
        },
{
    let b = input.as_bytes();
    match value(b, 0) {
        Some((v, _)) => Some(v),
        None => None,
    }
}

} // verus!
