//! Character-level string helpers with their mathematical meaning.
use vstd::prelude::*;

verus! {

/// The characters of `s`, in order.
pub fn chars_of(s: &str) -> (r: Vec<char>)
    ensures
        r@ == s@,
{
    let mut out: Vec<char> = Vec::new();
    for c in it: s.chars()
        invariant
            out@ == it.seq().take(it.index() as int),
            it.seq() == s@,
    {
        out.push(c);
    }
    out
}

/// Appends one character (`String::push`).
#[verifier::external_body]
pub(crate) fn push_char(s: &mut String, c: char)
    ensures
        final(s)@ == old(s)@.push(c),
{
    s.push(c);
}

/// Appends a string slice.
pub(crate) fn push_str(s: &mut String, t: &str)
    ensures
        final(s)@ == old(s)@ + t@,
{
    s.append(t);
}

/// The string made of the characters of `v`.
pub fn string_from(v: &[char]) -> (r: String)
    ensures
        r@ == v@,
{
    let mut s = String::new();
    let mut i: usize = 0;
    while i < v.len()
        invariant
            i <= v.len(),
            s@ == v@.take(i as int),
        decreases v.len() - i,
    {
        push_char(&mut s, v[i]);
        i += 1;
        assert(s@ =~= v@.take(i as int));
    }
    assert(v@.take(v.len() as int) =~= v@);
    s
}

/// A copy of `s`.
pub fn copy_str(s: &str) -> (r: String)
    ensures
        r@ == s@,
{
    let mut out = String::new();
    push_str(&mut out, s);
    assert(out@ =~= s@);
    out
}

/// Two texts are equal, character by character.
pub fn str_eq(a: &str, b: &str) -> (r: bool)
    ensures
        r == (a@ == b@),
{
    let x = chars_of(a);
    let y = chars_of(b);
    if x.len() != y.len() {
        return false;
    }
    let mut i: usize = 0;
    while i < x.len()
        invariant
            x@ == a@,
            y@ == b@,
            x@.len() == y@.len(),
            i <= x@.len(),
            forall|j: int| 0 <= j < i ==> x@[j] == y@[j],
        decreases x.len() - i,
    {
        if x[i] != y[i] {
            return false;
        }
        i += 1;
    }
    assert(x@ =~= y@);
    true
}

/// The text that Unicode lowercasing (`str::to_lowercase`) makes of a text
/// that holds a character beyond ASCII.
pub uninterp spec fn unicode_lowercase(s: Seq<char>) -> Seq<char>;

/// Every character is ASCII.
pub open spec fn ascii_text(s: Seq<char>) -> bool {
    forall|i: int| 0 <= i < s.len() ==> (#[trigger] s[i] as u32) < 128
}

/// `str::to_lowercase`: ASCII text has its capital letters lowered and
/// nothing else changed; other text is named.
pub open spec fn lowercase(s: Seq<char>) -> Seq<char> {
    if ascii_text(s) {
        ascii_lower(s)
    } else {
        unicode_lowercase(s)
    }
}

/// `str::to_lowercase`: the Unicode lowercase mapping of each character, as
/// the standard library documents it; on ASCII text that mapping lowers
/// `A`..`Z` and keeps every other character. Beyond ASCII its result is
/// named, not stated.
#[verifier::external_body]
fn to_lowercase_nonempty(s: &str) -> (r: String)
    requires
        s@.len() > 0,
    ensures
        ascii_text(s@) ==> r@ == ascii_lower(s@),
        !ascii_text(s@) ==> r@ == unicode_lowercase(s@),
{
    s.to_lowercase()
}

/// `str::to_lowercase`.
pub fn to_lower(s: &str) -> (r: String)
    ensures
        r@ == lowercase(s@),
{
    if s.is_empty() {
        String::new()
    } else {
        to_lowercase_nonempty(s)
    }
}

/// Characters with the Unicode `White_Space` property (`char::is_whitespace`).
pub open spec fn is_white(c: char) -> bool {
    ||| ('\u{9}' <= c && c <= '\u{d}')
    ||| c == ' '
    ||| c == '\u{85}'
    ||| c == '\u{a0}'
    ||| c == '\u{1680}'
    ||| ('\u{2000}' <= c && c <= '\u{200a}')
    ||| c == '\u{2028}'
    ||| c == '\u{2029}'
    ||| c == '\u{202f}'
    ||| c == '\u{205f}'
    ||| c == '\u{3000}'
}

pub fn is_whitespace(c: char) -> (r: bool)
    ensures
        r == is_white(c),
{
    ('\u{9}' <= c && c <= '\u{d}') || c == ' ' || c == '\u{85}' || c == '\u{a0}' || c
        == '\u{1680}' || ('\u{2000}' <= c && c <= '\u{200a}') || c == '\u{2028}' || c
        == '\u{2029}' || c == '\u{202f}' || c == '\u{205f}' || c == '\u{3000}'
}

/// ASCII whitespace as `u8::is_ascii_whitespace` defines it.
pub open spec fn is_ascii_white(b: u8) -> bool {
    b == 0x20 || b == 0x09 || b == 0x0a || b == 0x0c || b == 0x0d
}

pub fn is_ascii_whitespace(b: u8) -> (r: bool)
    ensures
        r == is_ascii_white(b),
{
    b == 0x20 || b == 0x09 || b == 0x0a || b == 0x0c || b == 0x0d
}

/// ASCII lowercase of one character (`char::to_ascii_lowercase`).
pub open spec fn ascii_lower_char(c: char) -> char {
    if 'A' <= c && c <= 'Z' {
        ((c as u8) + 32) as char
    } else {
        c
    }
}

pub open spec fn ascii_lower(s: Seq<char>) -> Seq<char> {
    s.map_values(|c: char| ascii_lower_char(c))
}

pub fn ascii_lower_of(c: char) -> (r: char)
    ensures
        r == ascii_lower_char(c),
{
    if 'A' <= c && c <= 'Z' {
        let v: u8 = (c as u8) + 32;
        v as char
    } else {
        c
    }
}

/// ASCII lowercase of a byte (`u8::to_ascii_lowercase`).
pub open spec fn ascii_lower_byte(b: u8) -> u8 {
    if 0x41 <= b && b <= 0x5a {
        (b + 32) as u8
    } else {
        b
    }
}

pub fn ascii_lower_u8(b: u8) -> (r: u8)
    ensures
        r == ascii_lower_byte(b),
{
    if 0x41 <= b && b <= 0x5a {
        b + 32
    } else {
        b
    }
}

/// `s` with leading `White_Space` removed.
pub open spec fn trim_start(s: Seq<char>) -> Seq<char>
    decreases s.len(),
{
    if s.len() > 0 && is_white(s[0]) {
        trim_start(s.drop_first())
    } else {
        s
    }
}

/// `s` with trailing `White_Space` removed.
pub open spec fn trim_end(s: Seq<char>) -> Seq<char>
    decreases s.len(),
{
    if s.len() > 0 && is_white(s.last()) {
        trim_end(s.drop_last())
    } else {
        s
    }
}

/// `str::trim`.
pub open spec fn trim(s: Seq<char>) -> Seq<char> {
    trim_end(trim_start(s))
}

proof fn lemma_trim_start_step(s: Seq<char>, i: int)
    requires
        0 <= i < s.len(),
        is_white(s[i]),
    ensures
        trim_start(s.subrange(i, s.len() as int)) == trim_start(s.subrange(i + 1, s.len() as int)),
{
    let a = s.subrange(i, s.len() as int);
    assert(a.drop_first() =~= s.subrange(i + 1, s.len() as int));
}

proof fn lemma_trim_start_shape(s: Seq<char>)
    ensures
        trim_start(s).len() > 0 ==> !is_white(trim_start(s)[0]),
        ascii_text(s) ==> ascii_text(trim_start(s)),
    decreases s.len(),
{
    if s.len() > 0 && is_white(s[0]) {
        lemma_trim_start_shape(s.drop_first());
        if ascii_text(s) {
            assert forall|i: int| 0 <= i < s.drop_first().len() implies (#[trigger] s.drop_first()[i]
                as u32) < 128 by {
                assert(s.drop_first()[i] == s[i + 1]);
            }
        }
    }
}

proof fn lemma_trim_end_shape(s: Seq<char>)
    ensures
        trim_end(s).len() <= s.len(),
        trim_end(s) == s.take(trim_end(s).len() as int),
        trim_end(s).len() > 0 ==> !is_white(trim_end(s).last()),
    decreases s.len(),
{
    if s.len() > 0 && is_white(s.last()) {
        lemma_trim_end_shape(s.drop_last());
        let t = trim_end(s.drop_last());
        assert(s.drop_last().take(t.len() as int) =~= s.take(t.len() as int));
    } else {
        assert(s.take(s.len() as int) =~= s);
    }
}

/// A trimmed text starts and ends with no white space, and is ASCII when
/// the text was.
pub proof fn lemma_trim_shape(s: Seq<char>)
    ensures
        trim(s).len() > 0 ==> !is_white(trim(s)[0]) && !is_white(trim(s).last()),
        ascii_text(s) ==> ascii_text(trim(s)),
{
    let u = trim_start(s);
    lemma_trim_start_shape(s);
    lemma_trim_end_shape(u);
    let v = trim_end(u);
    if v.len() > 0 {
        assert(v[0] == u[0]);
    }
    if ascii_text(s) {
        assert forall|i: int| 0 <= i < v.len() implies (#[trigger] v[i] as u32) < 128 by {
            assert(v[i] == u.take(v.len() as int)[i]);
        }
    }
}

/// A text that starts and ends with no white space is its own trim.
pub proof fn lemma_trim_fixed(t: Seq<char>)
    requires
        t.len() > 0 ==> !is_white(t[0]) && !is_white(t.last()),
    ensures
        trim(t) == t,
{
}

/// Trimming twice trims once.
pub proof fn lemma_trim_twice(s: Seq<char>)
    ensures
        trim(trim(s)) == trim(s),
{
    lemma_trim_shape(s);
    lemma_trim_fixed(trim(s));
}

/// Lowering ASCII text keeps it ASCII, keeps where white space stands, and
/// lowering it again changes nothing.
pub proof fn lemma_ascii_lower_shape(t: Seq<char>)
    requires
        ascii_text(t),
    ensures
        ascii_lower(t).len() == t.len(),
        ascii_text(ascii_lower(t)),
        forall|i: int| 0 <= i < t.len() ==> is_white(#[trigger] ascii_lower(t)[i]) == is_white(t[i]),
        ascii_lower(ascii_lower(t)) == ascii_lower(t),
{
    let l = ascii_lower(t);
    assert forall|i: int| 0 <= i < t.len() implies (#[trigger] l[i] as u32) < 128 && is_white(l[i])
        == is_white(t[i]) && ascii_lower_char(l[i]) == l[i] by {
        let c = t[i];
        assert((c as u32) < 128);
        if 'A' <= c && c <= 'Z' {
            assert(('a' as u32) <= (l[i] as u32) <= ('z' as u32));
        }
    }
    assert(ascii_lower(l) =~= l);
}

/// The characters of `str::trim(s)`.
pub fn trim_chars(s: &[char]) -> (r: Vec<char>)
    ensures
        r@ == trim(s@),
{
    let n = s.len();
    let mut i: usize = 0;
    assert(s@.subrange(0, n as int) =~= s@);
    while i < n && is_whitespace(s[i])
        invariant
            i <= n == s@.len(),
            trim_start(s@) == trim_start(s@.subrange(i as int, n as int)),
        decreases n - i,
    {
        proof {
            lemma_trim_start_step(s@, i as int);
        }
        i += 1;
    }
    assert(s@.subrange(0, n as int) =~= s@);
    let ghost ts = s@.subrange(i as int, n as int);
    assert(trim_start(s@) == ts);
    let mut j: usize = n;
    while j > i && is_whitespace(s[j - 1])
        invariant
            i <= j <= n == s@.len(),
            ts == s@.subrange(i as int, n as int),
            trim_end(ts) == trim_end(s@.subrange(i as int, j as int)),
        decreases j,
    {
        proof {
            let t = s@.subrange(i as int, j as int);
            assert(t.drop_last() =~= s@.subrange(i as int, j - 1));
        }
        j -= 1;
    }
    let mut out: Vec<char> = Vec::new();
    let mut k: usize = i;
    while k < j
        invariant
            i <= k <= j <= n == s@.len(),
            out@ == s@.subrange(i as int, k as int),
        decreases j - k,
    {
        out.push(s[k]);
        k += 1;
        assert(out@ =~= s@.subrange(i as int, k as int));
    }
    proof {
        let t = s@.subrange(i as int, j as int);
        if t.len() > 0 {
            assert(t.last() == s@[j - 1]);
        }
    }
    out
}

/// `str::trim`, as an owned string.
pub fn trim_str(s: &str) -> (r: String)
    ensures
        r@ == trim(s@),
{
    let c = chars_of(s);
    let t = trim_chars(c.as_slice());
    string_from(t.as_slice())
}

/// `n` occurs in `h` as a contiguous run.
pub open spec fn has_substr(h: Seq<char>, n: Seq<char>) -> bool {
    exists|i: int| 0 <= i && i + n.len() <= h.len() && #[trigger] h.subrange(i, i + n.len()) == n
}

/// `n` occurs in `h` at position `i`.
pub open spec fn occurs_at<T>(h: Seq<T>, n: Seq<T>, i: int) -> bool {
    0 <= i && i + n.len() <= h.len() && forall|k: int| 0 <= k < n.len() ==> h[i + k] == n[k]
}

pub fn chars_occur_at(h: &[char], n: &[char], i: usize) -> (r: bool)
    requires
        i + n@.len() <= h@.len(),
    ensures
        r == occurs_at(h@, n@, i as int),
{
    let mut k: usize = 0;
    let hl = h.len();
    while k < n.len()
        invariant
            k <= n@.len(),
            hl == h@.len(),
            i + n@.len() <= h@.len(),
            forall|m: int| 0 <= m < k ==> h@[i + m] == n@[m],
        decreases n.len() - k,
    {
        if h[i + k] != n[k] {
            return false;
        }
        k += 1;
    }
    true
}

proof fn lemma_occurs_iff_subrange(h: Seq<char>, n: Seq<char>, i: int)
    requires
        0 <= i && i + n.len() <= h.len(),
    ensures
        occurs_at(h, n, i) <==> h.subrange(i, i + n.len()) == n,
{
    if occurs_at(h, n, i) {
        assert(h.subrange(i, i + n.len()) =~= n);
    }
    if h.subrange(i, i + n.len()) == n {
        assert forall|k: int| 0 <= k < n.len() implies h[i + k] == n[k] by {
            assert(h.subrange(i, i + n.len())[k] == h[i + k]);
        }
    }
}

/// `str::contains` on the characters of both texts.
pub fn chars_contain(h: &[char], n: &[char]) -> (r: bool)
    ensures
        r == has_substr(h@, n@),
{
    if n.len() > h.len() {
        return false;
    }
    if n.len() == 0 {
        assert(h@.subrange(0int, 0int + n@.len()) =~= n@);
        return true;
    }
    let last = h.len() - n.len();
    let hl = h.len();
    let mut i: usize = 0;
    while i <= last
        invariant
            hl == h@.len(),
            last + n@.len() == h@.len(),
            n@.len() >= 1,
            forall|j: int| 0 <= j < i ==> #[trigger] h@.subrange(j, j + n@.len()) != n@,
        decreases last + 1 - i,
    {
        if chars_occur_at(h, n, i) {
            proof {
                lemma_occurs_iff_subrange(h@, n@, i as int);
            }
            return true;
        }
        proof {
            lemma_occurs_iff_subrange(h@, n@, i as int);
        }
        i += 1;
    }
    false
}

/// `str::contains` with a `&str` pattern.
pub fn str_contains(h: &str, n: &str) -> (r: bool)
    ensures
        r == has_substr(h@, n@),
{
    let hc = chars_of(h);
    let nc = chars_of(n);
    chars_contain(hc.as_slice(), nc.as_slice())
}

/// `n` is a prefix of `h`.
pub fn chars_start_with(h: &[char], n: &[char]) -> (r: bool)
    ensures
        r == (n@.len() <= h@.len() && h@.subrange(0, n@.len() as int) == n@),
{
    if n.len() > h.len() {
        return false;
    }
    let r = chars_occur_at(h, n, 0);
    proof {
        lemma_occurs_iff_subrange(h@, n@, 0);
    }
    r
}

/// The decimal digits of a natural number, most significant first.
pub open spec fn dec_digits(n: nat) -> Seq<char>
    decreases n,
{
    if n < 10 {
        seq![digit_char((n % 10) as nat)]
    } else {
        dec_digits(n / 10).push(digit_char((n % 10) as nat))
    }
}

pub open spec fn digit_char(d: nat) -> char {
    ((d + 48) as u8) as char
}

/// What `Display` writes for an integer.
pub open spec fn int_text(i: int) -> Seq<char> {
    if i < 0 {
        seq!['-'] + dec_digits((-i) as nat)
    } else {
        dec_digits(i as nat)
    }
}

fn digit_of(d: u64) -> (c: char)
    requires
        d < 10,
    ensures
        c == digit_char(d as nat),
{
    let v: u8 = (d as u8) + 48;
    v as char
}

fn push_digits(n: u64, out: &mut Vec<char>)
    ensures
        final(out)@ == old(out)@ + dec_digits(n as nat),
    decreases n,
{
    if n >= 10 {
        push_digits(n / 10, out);
    }
    out.push(digit_of(n % 10));
    proof {
        if n < 10 {
            assert(final(out)@ =~= old(out)@ + dec_digits(n as nat));
        } else {
            assert(final(out)@ =~= old(out)@ + dec_digits(n as nat));
        }
    }
}

/// `i64::to_string`.
pub fn int_to_string(i: i64) -> (r: String)
    ensures
        r@ == int_text(i as int),
{
    let mut v: Vec<char> = Vec::new();
    if i < 0 {
        v.push('-');
        let m: u64 = if i == i64::MIN {
            9223372036854775808u64
        } else {
            (-i) as u64
        };
        push_digits(m, &mut v);
        assert(v@ =~= int_text(i as int));
    } else {
        push_digits(i as u64, &mut v);
        assert(v@ =~= int_text(i as int));
    }
    string_from(v.as_slice())
}

/// The value of a run of decimal digits.
pub open spec fn digits_value(s: Seq<char>) -> nat
    decreases s.len(),
{
    if s.len() == 0 {
        0
    } else {
        digits_value(s.drop_last()) * 10 + ((s.last() as u32) - 48) as nat
    }
}

pub open spec fn is_digit(c: char) -> bool {
    '0' <= c && c <= '9'
}

pub open spec fn all_digits(s: Seq<char>) -> bool {
    forall|k: int| 0 <= k < s.len() ==> is_digit(#[trigger] s[k])
}

/// The integer that `str::parse::<i64>` reads from `s`, before the range check:
/// an optional sign then at least one decimal digit.
pub open spec fn int_value(s: Seq<char>) -> Option<int> {
    if s.len() > 0 && (s[0] == '+' || s[0] == '-') {
        let d = s.drop_first();
        if d.len() > 0 && all_digits(d) {
            if s[0] == '-' {
                Some(-(digits_value(d) as int))
            } else {
                Some(digits_value(d) as int)
            }
        } else {
            None
        }
    } else if s.len() > 0 && all_digits(s) {
        Some(digits_value(s) as int)
    } else {
        None
    }
}

/// `str::parse::<i64>`: `Some` exactly when the text is a signed decimal in range.
pub open spec fn parse_i64_spec(s: Seq<char>) -> Option<i64> {
    match int_value(s) {
        Some(v) => if i64::MIN <= v && v <= i64::MAX {
            Some(v as i64)
        } else {
            None
        },
        None => None,
    }
}

proof fn lemma_digits_value_grows(s: Seq<char>, c: char)
    requires
        is_digit(c),
    ensures
        digits_value(s.push(c)) == digits_value(s) * 10 + ((c as u32) - 48) as nat,
        digits_value(s.push(c)) >= digits_value(s),
{
    assert(s.push(c).drop_last() =~= s);
}

/// The value of `s[from..]` as decimal digits, if all are digits and it is
/// at most 2^63.
fn digits_upto(s: &[char], from: usize) -> (r: Option<u64>)
    requires
        from <= s@.len(),
    ensures
        ({
            let d = s@.subrange(from as int, s@.len() as int);
            match r {
                Some(v) => all_digits(d) && v == digits_value(d) && v <= 9223372036854775808u64,
                None => !all_digits(d) || digits_value(d) > 9223372036854775808u64,
            }
        }),
{
    let n = s.len();
    let mut acc: u64 = 0;
    let mut big = false;
    let mut k: usize = from;
    while k < n
        invariant
            from <= k <= n == s@.len(),
            all_digits(s@.subrange(from as int, k as int)),
            !big ==> acc == digits_value(s@.subrange(from as int, k as int)) && acc
                <= 9223372036854775808u64,
            big ==> digits_value(s@.subrange(from as int, k as int)) > 9223372036854775808u64,
        decreases n - k,
    {
        let c = s[k];
        if !('0' <= c && c <= '9') {
            proof {
                let d = s@.subrange(from as int, n as int);
                assert(d[k - from] == c);
            }
            return None;
        }
        let ghost pre = s@.subrange(from as int, k as int);
        proof {
            assert(s@.subrange(from as int, k + 1) =~= pre.push(c));
            lemma_digits_value_grows(pre, c);
        }
        if !big {
            let d: u64 = (c as u32 - 48) as u64;
            if acc > 922337203685477580u64 || (acc == 922337203685477580u64 && d > 8) {
                big = true;
            } else {
                acc = acc * 10 + d;
            }
        }
        k += 1;
    }
    assert(s@.subrange(from as int, n as int) == s@.subrange(from as int, k as int));
    if big {
        None
    } else {
        Some(acc)
    }
}

/// `str::parse::<i64>` on the characters of `s`.
pub fn parse_i64_chars(s: &[char]) -> (r: Option<i64>)
    ensures
        r == parse_i64_spec(s@),
{
    let n = s.len();
    if n == 0 {
        return None;
    }
    if s[0] == '+' || s[0] == '-' {
        if n == 1 {
            return None;
        }
        let neg = s[0] == '-';
        let v = digits_upto(s, 1);
        proof {
            assert(s@.drop_first() =~= s@.subrange(1, n as int));
        }
        match v {
            None => None,
            Some(m) => {
                if neg {
                    if m == 9223372036854775808u64 {
                        Some(i64::MIN)
                    } else {
                        Some(-(m as i64))
                    }
                } else if m == 9223372036854775808u64 {
                    None
                } else {
                    Some(m as i64)
                }
            },
        }
    } else {
        let v = digits_upto(s, 0);
        proof {
            assert(s@.subrange(0, n as int) =~= s@);
        }
        match v {
            None => None,
            Some(m) => {
                if m == 9223372036854775808u64 {
                    None
                } else {
                    Some(m as i64)
                }
            },
        }
    }
}

/// `str::trim` then `str::parse::<i64>`.
pub fn parse_trimmed_i64(s: &str) -> (r: Option<i64>)
    ensures
        r == parse_i64_spec(trim(s@)),
{
    let c = chars_of(s);
    let t = trim_chars(c.as_slice());
    parse_i64_chars(t.as_slice())
}


/// `str::parse::<i32>`.
pub open spec fn parse_i32_spec(s: Seq<char>) -> Option<i32> {
    match int_value(s) {
        Some(v) => if i32::MIN <= v && v <= i32::MAX {
            Some(v as i32)
        } else {
            None
        },
        None => None,
    }
}

/// `str::parse::<i32>`.
pub fn parse_i32(s: &str) -> (r: Option<i32>)
    ensures
        r == parse_i32_spec(s@),
{
    let c = chars_of(s);
    match parse_i64_chars(c.as_slice()) {
        Some(v) => {
            if -2147483648 <= v && v <= 2147483647 {
                Some(v as i32)
            } else {
                None
            }
        },
        None => None,
    }
}

/// `str::parse::<i64>`.
pub fn parse_i64(s: &str) -> (r: Option<i64>)
    ensures
        r == parse_i64_spec(s@),
{
    let c = chars_of(s);
    parse_i64_chars(c.as_slice())
}

} // verus!
