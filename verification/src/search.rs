//! Boolean text query: terms combined with AND / OR / NOT and parentheses.
//! Adjacent terms imply AND. Quotes group a phrase. Matching is substring,
//! case-insensitive (terms are lowercased at parse time).
use vstd::prelude::*;
use crate::text::{
    ascii_lower, ascii_lower_of, ascii_text, chars_contain, chars_of, copy_str, has_substr,
    is_white, is_whitespace, lemma_ascii_lower_shape, lemma_trim_fixed, lemma_trim_shape,
    lemma_trim_twice, lowercase, parse_i64_spec, parse_trimmed_i64, string_from, to_lower, trim,
    trim_str,
};
use crate::model::{Entry, EntryKind, Item};
use crate::store::{
    ci_contains, ci_has, entry_flags, flag, names_within, summarizes, text_view, EntryMeta, Interner,
    TextSource, TextView,
};
use vstd::string::StringSliceAdditionalSpecFns;


verus! {

/// A parsed query.
#[derive(Debug)]
pub enum Expr {
    Term(String),
    Not(Box<Expr>),
    And(Box<Expr>, Box<Expr>),
    Or(Box<Expr>, Box<Expr>),
}

/// The mathematical form of a query.
pub enum ExprV {
    Term(Seq<char>),
    Not(Box<ExprV>),
    And(Box<ExprV>, Box<ExprV>),
    Or(Box<ExprV>, Box<ExprV>),
}

pub open spec fn expr_view(e: &Expr) -> ExprV
    decreases e,
{
    match e {
        Expr::Term(t) => ExprV::Term(t@),
        Expr::Not(a) => ExprV::Not(Box::new(expr_view(a))),
        Expr::And(a, b) => ExprV::And(Box::new(expr_view(a)), Box::new(expr_view(b))),
        Expr::Or(a, b) => ExprV::Or(Box::new(expr_view(a)), Box::new(expr_view(b))),
    }
}

impl View for Expr {
    type V = ExprV;

    open spec fn view(&self) -> ExprV {
        expr_view(self)
    }
}

/// Whether a query holds when `has` tells which terms are present.
pub open spec fn holds(e: ExprV, has: spec_fn(Seq<char>) -> bool) -> bool
    decreases e,
{
    match e {
        ExprV::Term(t) => has(t),
        ExprV::Not(a) => !holds(*a, has),
        ExprV::And(a, b) => holds(*a, has) && holds(*b, has),
        ExprV::Or(a, b) => holds(*a, has) || holds(*b, has),
    }
}

/// `has` answers exactly as `p` for every term.
pub open spec fn answers_as<F: Fn(&str) -> bool>(has: &F, p: spec_fn(Seq<char>) -> bool) -> bool {
    forall|t: &str, b: bool| has.ensures((t,), b) ==> b == p(t@)
}

impl Expr {
    /// Evaluates the query, asking `has` whether each term is present.
    pub fn eval<F: Fn(&str) -> bool>(&self, has: &F) -> (r: bool)
        requires
            forall|t: &str| has.requires((t,)),
        ensures
            forall|p: spec_fn(Seq<char>) -> bool| answers_as(has, p) ==> r == holds(self@, p),
        decreases self,
    {
        match self {
            Expr::Term(t) => {
                let b = has(t.as_str());
                b
            },
            Expr::Not(e) => !e.eval(has),
            Expr::And(a, b) => {
                let x = a.eval(has);
                if x {
                    b.eval(has)
                } else {
                    false
                }
            },
            Expr::Or(a, b) => {
                let x = a.eval(has);
                if x {
                    true
                } else {
                    b.eval(has)
                }
            },
        }
    }
}

/// A lexical token of the query language.
#[derive(Debug)]
pub enum Tok {
    And,
    Or,
    Not,
    LParen,
    RParen,
    Term(String),
}

pub enum TokV {
    And,
    Or,
    Not,
    LParen,
    RParen,
    Term(Seq<char>),
}

impl View for Tok {
    type V = TokV;

    open spec fn view(&self) -> TokV {
        match self {
            Tok::And => TokV::And,
            Tok::Or => TokV::Or,
            Tok::Not => TokV::Not,
            Tok::LParen => TokV::LParen,
            Tok::RParen => TokV::RParen,
            Tok::Term(s) => TokV::Term(s@),
        }
    }
}

impl Tok {
    fn duplicate(&self) -> (r: Tok)
        ensures
            r@ == self@,
    {
        match self {
            Tok::And => Tok::And,
            Tok::Or => Tok::Or,
            Tok::Not => Tok::Not,
            Tok::LParen => Tok::LParen,
            Tok::RParen => Tok::RParen,
            Tok::Term(s) => Tok::Term(copy_str(s.as_str())),
        }
    }
}

pub open spec fn toks_view(v: Seq<Tok>) -> Seq<TokV> {
    v.map_values(|t: Tok| t@)
}

/// Characters that end a bare word.
pub open spec fn is_stop(c: char) -> bool {
    is_white(c) || c == '(' || c == ')' || c == '"' || c == '\'' || c == '&' || c == '|'
}

/// Length of the bare word at the start of `s`.
pub open spec fn word_len(s: Seq<char>) -> nat
    decreases s.len(),
{
    if s.len() == 0 || is_stop(s[0]) {
        0
    } else {
        1 + word_len(s.drop_first())
    }
}

/// Number of characters before the first `q` in `s` (all of them if none).
pub open spec fn quote_len(s: Seq<char>, q: char) -> nat
    decreases s.len(),
{
    if s.len() == 0 || s[0] == q {
        0
    } else {
        1 + quote_len(s.drop_first(), q)
    }
}

/// The token for a bare word: the keywords `and`, `or`, `not` in any ASCII
/// case, else a lowercased term.
pub open spec fn word_token(w: Seq<char>) -> TokV {
    let a = ascii_lower(w);
    if a == seq!['a', 'n', 'd'] {
        TokV::And
    } else if a == seq!['o', 'r'] {
        TokV::Or
    } else if a == seq!['n', 'o', 't'] {
        TokV::Not
    } else {
        TokV::Term(lowercase(w))
    }
}

/// The tokens of a query text.
pub open spec fn tokens(s: Seq<char>) -> Seq<TokV>
    decreases s.len(),
{
    if s.len() == 0 {
        seq![]
    } else {
        let c = s[0];
        let r = s.drop_first();
        if is_white(c) {
            tokens(r)
        } else if c == '(' {
            seq![TokV::LParen] + tokens(r)
        } else if c == ')' {
            seq![TokV::RParen] + tokens(r)
        } else if c == '"' || c == '\'' {
            let k = quote_len(r, c);
            proof {
                lemma_quote_len_le(r, c);
            }
            let body = r.take(k as int);
            let rest = if k < r.len() {
                r.skip(k + 1int)
            } else {
                r.skip(k as int)
            };
            if body.len() > 0 {
                seq![TokV::Term(lowercase(body))] + tokens(rest)
            } else {
                tokens(rest)
            }
        } else if c == '&' {
            if r.len() > 0 && r[0] == '&' {
                seq![TokV::And] + tokens(r.drop_first())
            } else {
                seq![TokV::And] + tokens(r)
            }
        } else if c == '|' {
            if r.len() > 0 && r[0] == '|' {
                seq![TokV::Or] + tokens(r.drop_first())
            } else {
                seq![TokV::Or] + tokens(r)
            }
        } else {
            let k = word_len(s);
            proof {
                lemma_word_len_le(s);
            }
            seq![word_token(s.take(k as int))] + tokens(s.skip(k as int))
        }
    }
}

pub proof fn lemma_word_len_le(s: Seq<char>)
    ensures
        word_len(s) <= s.len(),
    decreases s.len(),
{
    if s.len() > 0 && !is_stop(s[0]) {
        lemma_word_len_le(s.drop_first());
    }
}

pub proof fn lemma_quote_len_le(s: Seq<char>, q: char)
    ensures
        quote_len(s, q) <= s.len(),
    decreases s.len(),
{
    if s.len() > 0 && s[0] != q {
        lemma_quote_len_le(s.drop_first(), q);
    }
}

proof fn lemma_word_len_step(s: Seq<char>, j: int)
    requires
        0 <= j < s.len(),
        !is_stop(s[j]),
    ensures
        word_len(s.skip(j)) == 1 + word_len(s.skip(j + 1)),
{
    assert(s.skip(j).drop_first() =~= s.skip(j + 1));
}

proof fn lemma_quote_len_step(s: Seq<char>, q: char, j: int)
    requires
        0 <= j < s.len(),
        s[j] != q,
    ensures
        quote_len(s.skip(j), q) == 1 + quote_len(s.skip(j + 1), q),
{
    assert(s.skip(j).drop_first() =~= s.skip(j + 1));
}

fn is_stop_char(c: char) -> (r: bool)
    ensures
        r == is_stop(c),
{
    is_whitespace(c) || c == '(' || c == ')' || c == '"' || c == '\'' || c == '&' || c == '|'
}

fn word_tok(w: &[char]) -> (r: Tok)
    ensures
        r@ == word_token(w@),
{
    let mut a: Vec<char> = Vec::new();
    let mut i: usize = 0;
    while i < w.len()
        invariant
            i <= w@.len(),
            a@ == ascii_lower(w@.take(i as int)),
        decreases w.len() - i,
    {
        a.push(ascii_lower_of(w[i]));
        i += 1;
        assert(a@ =~= ascii_lower(w@.take(i as int)));
    }
    assert(w@.take(w@.len() as int) =~= w@);
    let ghost av = ascii_lower(w@);
    if a.len() == 3 && a[0] == 'a' && a[1] == 'n' && a[2] == 'd' {
        assert(av =~= seq!['a', 'n', 'd']);
        Tok::And
    } else if a.len() == 2 && a[0] == 'o' && a[1] == 'r' {
        assert(av =~= seq!['o', 'r']);
        assert(av != seq!['a', 'n', 'd']);
        Tok::Or
    } else if a.len() == 3 && a[0] == 'n' && a[1] == 'o' && a[2] == 't' {
        assert(av =~= seq!['n', 'o', 't']);
        assert(av != seq!['a', 'n', 'd']);
        Tok::Not
    } else {
        proof {
            if av == seq!['a', 'n', 'd'] {
                assert(av[0] == 'a' && av[1] == 'n' && av[2] == 'd');
            }
            if av == seq!['o', 'r'] {
                assert(av[0] == 'o' && av[1] == 'r');
            }
            if av == seq!['n', 'o', 't'] {
                assert(av[0] == 'n' && av[1] == 'o' && av[2] == 't');
            }
        }
        let s = string_from(w);
        Tok::Term(to_lower(s.as_str()))
    }
}

/// Splits a query into tokens.
pub fn tokenize(s: &str) -> (r: Vec<Tok>)
    ensures
        toks_view(r@) == tokens(s@),
{
    let cs = chars_of(s);
    let n = cs.len();
    let mut out: Vec<Tok> = Vec::new();
    let mut i: usize = 0;
    assert(cs@.skip(0) =~= cs@);
    while i < n
        invariant
            i <= n == cs@.len(),
            tokens(cs@) == toks_view(out@) + tokens(cs@.skip(i as int)),
        decreases n - i,
    {
        let ghost rest = cs@.skip(i as int);
        let ghost before = toks_view(out@);
        let c = cs[i];
        assert(rest[0] == c);
        assert(rest.drop_first() =~= cs@.skip(i + 1));
        if is_whitespace(c) {
            i += 1;
        } else if c == '(' {
            out.push(Tok::LParen);
            i += 1;
            assert(toks_view(out@) =~= before + seq![TokV::LParen]);
        } else if c == ')' {
            out.push(Tok::RParen);
            i += 1;
            assert(toks_view(out@) =~= before + seq![TokV::RParen]);
        } else if c == '"' || c == '\'' {
            let ghost r = rest.drop_first();
            let mut j: usize = i + 1;
            let mut buf: Vec<char> = Vec::new();
            while j < n && cs[j] != c
                invariant
                    i + 1 <= j <= n == cs@.len(),
                    quote_len(r, c) == (j - (i + 1)) + quote_len(cs@.skip(j as int), c),
                    buf@ == cs@.subrange(i + 1, j as int),
                decreases n - j,
            {
                proof {
                    lemma_quote_len_step(cs@, c, j as int);
                }
                buf.push(cs[j]);
                j += 1;
                assert(buf@ =~= cs@.subrange(i + 1, j as int));
            }
            let ghost k = quote_len(r, c);
            proof {
                if j < n {
                    assert(cs@.skip(j as int)[0] == c);
                }
                assert(k == j - (i + 1));
                assert(r.take(k as int) =~= buf@);
            }
            if j < n {
                i = j + 1;
                assert(r.skip(k + 1int) =~= cs@.skip(i as int));
            } else {
                i = j;
                assert(r.skip(k as int) =~= cs@.skip(i as int));
            }
            if buf.len() > 0 {
                let bs = string_from(buf.as_slice());
                let t = to_lower(bs.as_str());
                out.push(Tok::Term(t));
                assert(toks_view(out@) =~= before + seq![TokV::Term(lowercase(buf@))]);
            }
        } else if c == '&' {
            if i + 1 < n && cs[i + 1] == '&' {
                i += 2;
                assert(rest.drop_first().drop_first() =~= cs@.skip(i as int));
            } else {
                i += 1;
            }
            out.push(Tok::And);
            assert(toks_view(out@) =~= before + seq![TokV::And]);
        } else if c == '|' {
            if i + 1 < n && cs[i + 1] == '|' {
                i += 2;
                assert(rest.drop_first().drop_first() =~= cs@.skip(i as int));
            } else {
                i += 1;
            }
            out.push(Tok::Or);
            assert(toks_view(out@) =~= before + seq![TokV::Or]);
        } else {
            let mut j: usize = i;
            let mut buf: Vec<char> = Vec::new();
            while j < n && !is_stop_char(cs[j])
                invariant
                    i <= j <= n == cs@.len(),
                    word_len(rest) == (j - i) + word_len(cs@.skip(j as int)),
                    buf@ == cs@.subrange(i as int, j as int),
                decreases n - j,
            {
                proof {
                    lemma_word_len_step(cs@, j as int);
                }
                buf.push(cs[j]);
                j += 1;
                assert(buf@ =~= cs@.subrange(i as int, j as int));
            }
            proof {
                if j < n {
                    assert(cs@.skip(j as int)[0] == cs@[j as int]);
                }
                assert(word_len(rest) == j - i);
                assert(rest.take(j - i) =~= buf@);
                assert(rest.skip(j - i) =~= cs@.skip(j as int));
            }
            let t = word_tok(buf.as_slice());
            out.push(t);
            i = j;
            assert(toks_view(out@) =~= before + seq![word_token(buf@)]);
        }
    }
    assert(cs@.skip(n as int) =~= Seq::<char>::empty());
    assert(toks_view(out@) + tokens(cs@.skip(n as int)) =~= toks_view(out@));
    out
}


/// The token at `pos`, if any.
pub open spec fn peek_at(t: Seq<TokV>, pos: int) -> Option<TokV> {
    if 0 <= pos < t.len() {
        Some(t[pos])
    } else {
        None
    }
}

/// `or := and ( OR and )*`; the parse and the position after it.
pub open spec fn p_or(t: Seq<TokV>, pos: int) -> (Option<ExprV>, int)
    decreases t.len() - pos, 3int,
{
    let (l, p1) = p_and(t, pos);
    match l {
        None => (None, p1),
        Some(left) => if pos <= p1 <= t.len() {
            or_tail(t, p1, left)
        } else {
            (Some(left), p1)
        },
    }
}

pub open spec fn or_tail(t: Seq<TokV>, pos: int, left: ExprV) -> (Option<ExprV>, int)
    decreases t.len() - pos, 2int,
{
    match peek_at(t, pos) {
        Some(TokV::Or) => {
            let (r, p2) = p_and(t, pos + 1);
            match r {
                Some(right) => {
                    let e = ExprV::Or(Box::new(left), Box::new(right));
                    if pos < p2 <= t.len() {
                        or_tail(t, p2, e)
                    } else {
                        (Some(e), p2)
                    }
                },
                None => (Some(left), p2),
            }
        },
        _ => (Some(left), pos),
    }
}

/// `and := unary ( AND? unary )*`: adjacency implies AND.
pub open spec fn p_and(t: Seq<TokV>, pos: int) -> (Option<ExprV>, int)
    decreases t.len() - pos, 2int,
{
    let (l, p1) = p_unary(t, pos);
    match l {
        None => (None, p1),
        Some(left) => if pos <= p1 <= t.len() {
            and_tail(t, p1, left)
        } else {
            (Some(left), p1)
        },
    }
}

pub open spec fn and_tail(t: Seq<TokV>, pos: int, left: ExprV) -> (Option<ExprV>, int)
    decreases t.len() - pos, 1int,
{
    match peek_at(t, pos) {
        Some(TokV::And) => {
            let (r, p2) = p_unary(t, pos + 1);
            match r {
                Some(right) => {
                    let e = ExprV::And(Box::new(left), Box::new(right));
                    if pos < p2 <= t.len() {
                        and_tail(t, p2, e)
                    } else {
                        (Some(e), p2)
                    }
                },
                None => (Some(left), p2),
            }
        },
        Some(TokV::Term(_)) | Some(TokV::Not) | Some(TokV::LParen) => {
            let (r, p2) = p_unary(t, pos);
            match r {
                Some(right) => {
                    let e = ExprV::And(Box::new(left), Box::new(right));
                    if pos < p2 <= t.len() {
                        and_tail(t, p2, e)
                    } else {
                        (Some(e), p2)
                    }
                },
                None => (Some(left), p2),
            }
        },
        _ => (Some(left), pos),
    }
}

/// `unary := NOT unary | ( or )? | term`; a missing `)` is tolerated.
pub open spec fn p_unary(t: Seq<TokV>, pos: int) -> (Option<ExprV>, int)
    decreases t.len() - pos, 0int,
{
    match peek_at(t, pos) {
        Some(TokV::Not) => {
            let (e, p) = p_unary(t, pos + 1);
            match e {
                Some(x) => (Some(ExprV::Not(Box::new(x))), p),
                None => (None, p),
            }
        },
        Some(TokV::LParen) => {
            let (e, p) = p_or(t, pos + 1);
            if peek_at(t, p) == Some(TokV::RParen) {
                (e, p + 1)
            } else {
                (e, p)
            }
        },
        Some(TokV::Term(s)) => (Some(ExprV::Term(s)), pos + 1),
        _ => (None, pos),
    }
}

/// The query that a text denotes: none for a text without tokens.
pub open spec fn query_of(s: Seq<char>) -> Option<ExprV> {
    let t = tokens(s);
    if t.len() == 0 {
        None
    } else {
        p_or(t, 0).0
    }
}

pub open spec fn opt_expr_view(e: Option<Expr>) -> Option<ExprV> {
    match e {
        Some(x) => Some(x@),
        None => None,
    }
}

struct Parser {
    toks: Vec<Tok>,
    pos: usize,
}

impl Parser {
    spec fn tv(&self) -> Seq<TokV> {
        toks_view(self.toks@)
    }

    fn peek(&self) -> (r: Option<&Tok>)
        ensures
            match r {
                Some(t) => self.pos < self.toks@.len() && t@ == self.tv()[self.pos as int],
                None => self.pos >= self.toks@.len(),
            },
            peek_at(self.tv(), self.pos as int) == match r {
                Some(t) => Some(t@),
                None => None::<TokV>,
            },
    {
        if self.pos < self.toks.len() {
            Some(&self.toks[self.pos])
        } else {
            None
        }
    }

    fn eat(&mut self) -> (r: Option<Tok>)
        requires
            old(self).pos <= old(self).toks@.len(),
        ensures
            final(self).toks@ == old(self).toks@,
            final(self).pos <= final(self).toks@.len(),
            match r {
                Some(t) => old(self).pos < old(self).toks@.len() && t@ == old(self).tv()[old(
                    self,
                ).pos as int] && final(self).pos == old(self).pos + 1,
                None => old(self).pos == old(self).toks@.len() && final(self).pos == old(
                    self,
                ).pos,
            },
    {
        if self.pos < self.toks.len() {
            let t = self.toks[self.pos].duplicate();
            self.pos += 1;
            Some(t)
        } else {
            None
        }
    }

    fn parse_or(&mut self) -> (r: Option<Expr>)
        requires
            old(self).pos <= old(self).toks@.len(),
        ensures
            final(self).toks@ == old(self).toks@,
            old(self).pos <= final(self).pos <= final(self).toks@.len(),
            r is Some ==> old(self).pos < final(self).pos,
            (opt_expr_view(r), final(self).pos as int) == p_or(old(self).tv(), old(self).pos as int),
        decreases old(self).toks@.len() - old(self).pos, 3int,
    {
        let ghost t = self.tv();
        let ghost p0 = self.pos as int;
        let first = self.parse_and();
        let mut left = match first {
            Some(e) => e,
            None => {
                return None;
            },
        };
        let ghost mut gl = left@;
        assert(or_tail(t, self.pos as int, gl) == p_or(t, p0));
        loop
            invariant_except_break
                or_tail(t, self.pos as int, gl) == p_or(t, p0),
            invariant
                self.tv() == t,
                self.toks@ == old(self).toks@,
                self.toks@.len() == t.len(),
                p0 == old(self).pos,
                p0 < self.pos <= t.len(),
                gl == left@,
            ensures
                (Some(gl), self.pos as int) == p_or(t, p0),
            decreases t.len() - self.pos,
        {
            let ghost q = self.pos as int;
            let is_or = match self.peek() {
                Some(Tok::Or) => true,
                _ => false,
            };
            if !is_or {
                assert(or_tail(t, q, gl) == (Some(gl), q));
                assert((Some(gl), self.pos as int) == p_or(t, p0));
                break;
            }
            self.eat();
            match self.parse_and() {
                Some(right) => {
                    proof {
                        gl = ExprV::Or(Box::new(gl), Box::new(right@));
                    }
                    left = Expr::Or(Box::new(left), Box::new(right));
                },
                None => {
                    assert(or_tail(t, q, gl) == (Some(gl), self.pos as int));
                    assert((Some(gl), self.pos as int) == p_or(t, p0));
                    break;
                },
            }
        }
        Some(left)
    }

    fn parse_and(&mut self) -> (r: Option<Expr>)
        requires
            old(self).pos <= old(self).toks@.len(),
        ensures
            final(self).toks@ == old(self).toks@,
            old(self).pos <= final(self).pos <= final(self).toks@.len(),
            r is Some ==> old(self).pos < final(self).pos,
            (opt_expr_view(r), final(self).pos as int) == p_and(old(self).tv(), old(self).pos as int),
        decreases old(self).toks@.len() - old(self).pos, 2int,
    {
        let ghost t = self.tv();
        let ghost p0 = self.pos as int;
        let first = self.parse_unary();
        let mut left = match first {
            Some(e) => e,
            None => {
                return None;
            },
        };
        let ghost mut gl = left@;
        assert(and_tail(t, self.pos as int, gl) == p_and(t, p0));
        loop
            invariant_except_break
                and_tail(t, self.pos as int, gl) == p_and(t, p0),
            invariant
                self.tv() == t,
                self.toks@ == old(self).toks@,
                self.toks@.len() == t.len(),
                p0 == old(self).pos,
                p0 < self.pos <= t.len(),
                gl == left@,
            ensures
                (Some(gl), self.pos as int) == p_and(t, p0),
            decreases t.len() - self.pos,
        {
            let ghost q = self.pos as int;
            let step = match self.peek() {
                Some(Tok::And) => 1u8,
                Some(Tok::Term(_)) => 2u8,
                Some(Tok::Not) => 2u8,
                Some(Tok::LParen) => 2u8,
                _ => 0u8,
            };
            if step == 0 {
                assert(and_tail(t, q, gl) == (Some(gl), q));
                assert((Some(gl), self.pos as int) == p_and(t, p0));
                break;
            }
            if step == 1 {
                self.eat();
            }
            match self.parse_unary() {
                Some(right) => {
                    proof {
                        gl = ExprV::And(Box::new(gl), Box::new(right@));
                    }
                    left = Expr::And(Box::new(left), Box::new(right));
                },
                None => {
                    assert(and_tail(t, q, gl) == (Some(gl), self.pos as int));
                    assert((Some(gl), self.pos as int) == p_and(t, p0));
                    break;
                },
            }
        }
        Some(left)
    }

    fn parse_unary(&mut self) -> (r: Option<Expr>)
        requires
            old(self).pos <= old(self).toks@.len(),
        ensures
            final(self).toks@ == old(self).toks@,
            old(self).pos <= final(self).pos <= final(self).toks@.len(),
            r is Some ==> old(self).pos < final(self).pos,
            (opt_expr_view(r), final(self).pos as int) == p_unary(old(self).tv(), old(self).pos as int),
        decreases old(self).toks@.len() - old(self).pos, 0int,
    {
        let ghost t = self.tv();
        let ghost p0 = self.pos as int;
        let kind = match self.peek() {
            Some(Tok::Not) => 1u8,
            Some(Tok::LParen) => 2u8,
            Some(Tok::Term(_)) => 3u8,
            _ => 0u8,
        };
        if kind == 1 {
            self.eat();
            let inner = self.parse_unary();
            match inner {
                Some(e) => Some(Expr::Not(Box::new(e))),
                None => None,
            }
        } else if kind == 2 {
            self.eat();
            let e = self.parse_or();
            let close = match self.peek() {
                Some(Tok::RParen) => true,
                _ => false,
            };
            if close {
                self.eat();
            }
            e
        } else if kind == 3 {
            match self.eat() {
                Some(Tok::Term(s)) => Some(Expr::Term(s)),
                _ => None,
            }
        } else {
            None
        }
    }
}

/// Parses a query text; `None` when the text holds no tokens (such a query
/// matches everything).
pub fn parse_query(s: &str) -> (r: Option<Expr>)
    ensures
        opt_expr_view(r) == query_of(s@),
{
    let toks = tokenize(s);
    if toks.len() == 0 {
        return None;
    }
    let mut p = Parser { toks, pos: 0 };
    p.parse_or()
}


/// How an enchantment level is compared with the wanted level.
#[derive(Clone, Copy, Debug, PartialEq, Eq, Structural)]
pub enum EnchOp {
    Any,
    Gte,
    Eq,
    Gt,
}

impl EnchOp {
    pub fn label(self) -> (r: &'static str)
        ensures
            r@ == match self {
                EnchOp::Any => "any level"@,
                EnchOp::Gte => "level ≥"@,
                EnchOp::Eq => "level ="@,
                EnchOp::Gt => "level >"@,
            },
    {
        match self {
            EnchOp::Any => "any level",
            EnchOp::Gte => "level ≥",
            EnchOp::Eq => "level =",
            EnchOp::Gt => "level >",
        }
    }

    pub open spec fn passes(self, level: i32, target: i32) -> bool {
        match self {
            EnchOp::Any => true,
            EnchOp::Gte => level >= target,
            EnchOp::Eq => level == target,
            EnchOp::Gt => level > target,
        }
    }

    fn test(self, level: i32, target: i32) -> (r: bool)
        ensures
            r == self.passes(level, target),
    {
        match self {
            EnchOp::Any => true,
            EnchOp::Gte => level >= target,
            EnchOp::Eq => level == target,
            EnchOp::Gt => level > target,
        }
    }
}

/// Which text of an entry the quick search looks at.
#[derive(Clone, Copy, Debug, PartialEq, Eq, Structural)]
pub enum TextCat {
    Any,
    Owner,
    Item,
    Type,
    Upgrade,
}

impl TextCat {
    pub fn label(self) -> (r: &'static str)
        ensures
            r@ == match self {
                TextCat::Any => "Anything"@,
                TextCat::Owner => "Owner / UUID"@,
                TextCat::Item => "Item"@,
                TextCat::Type => "Container type"@,
                TextCat::Upgrade => "Upgrade"@,
            },
    {
        match self {
            TextCat::Any => "Anything",
            TextCat::Owner => "Owner / UUID",
            TextCat::Item => "Item",
            TextCat::Type => "Container type",
            TextCat::Upgrade => "Upgrade",
        }
    }
}

/// Whether loot-table (dungeon) containers are shown.
#[derive(Clone, Copy, Debug, PartialEq, Eq, Structural)]
pub enum DungeonFilter {
    Any,
    Only,
    Hide,
}

impl DungeonFilter {
    pub fn label(self) -> (r: &'static str)
        ensures
            r@ == match self {
                DungeonFilter::Any => "Any"@,
                DungeonFilter::Only => "Only dungeon"@,
                DungeonFilter::Hide => "Hide dungeon"@,
            },
    {
        match self {
            DungeonFilter::Any => "Any",
            DungeonFilter::Only => "Only dungeon",
            DungeonFilter::Hide => "Hide dungeon",
        }
    }
}

/// The search form as the user filled it in.
#[derive(Debug)]
pub struct Filters {
    pub text: String,
    pub cat: TextCat,
    pub show_backpacks: bool,
    pub show_containers: bool,
    pub show_players: bool,
    pub player: String,
    pub item: String,
    pub ctype: String,
    pub dimension: String,
    pub nbt: String,
    pub dungeon: DungeonFilter,
    pub hide_empty: bool,
    pub min_count: String,
    pub x_min: String,
    pub x_max: String,
    pub y_min: String,
    pub y_max: String,
    pub z_min: String,
    pub z_max: String,
    pub ench_name: String,
    pub ench_op: EnchOp,
    pub ench_level: i32,
}

/// A text field that holds more than whitespace.
pub open spec fn filled(s: Seq<char>) -> bool {
    trim(s).len() > 0
}

impl Filters {
    /// Everything but the quick search text and its category is at its default.
    pub open spec fn advanced_at_default(&self) -> bool {
        &&& self.show_backpacks && self.show_containers && self.show_players
        &&& self.player@.len() == 0 && self.item@.len() == 0 && self.ctype@.len() == 0
        &&& self.dimension@.len() == 0 && self.nbt@.len() == 0
        &&& self.dungeon == DungeonFilter::Any
        &&& !self.hide_empty
        &&& self.min_count@.len() == 0
        &&& self.x_min@.len() == 0 && self.x_max@.len() == 0 && self.y_min@.len() == 0
        &&& self.y_max@.len() == 0 && self.z_min@.len() == 0 && self.z_max@.len() == 0
        &&& self.ench_name@.len() == 0
        &&& self.ench_op == EnchOp::Any
        &&& self.ench_level == 255
    }

    /// Some filter beyond the quick search narrows the results.
    pub open spec fn advanced_spec(&self) -> bool {
        ||| !self.show_backpacks
        ||| !self.show_containers
        ||| !self.show_players
        ||| filled(self.player@)
        ||| filled(self.item@)
        ||| filled(self.ctype@)
        ||| filled(self.dimension@)
        ||| filled(self.nbt@)
        ||| self.dungeon != DungeonFilter::Any
        ||| self.hide_empty
        ||| filled(self.min_count@)
        ||| filled(self.x_min@)
        ||| filled(self.x_max@)
        ||| filled(self.y_min@)
        ||| filled(self.y_max@)
        ||| filled(self.z_min@)
        ||| filled(self.z_max@)
        ||| filled(self.ench_name@)
        ||| self.ench_op != EnchOp::Any
    }

    pub fn default() -> (r: Filters)
        ensures
            r.text@.len() == 0,
            r.cat == TextCat::Any,
            r.advanced_at_default(),
    {
        Filters {
            text: String::new(),
            cat: TextCat::Any,
            show_backpacks: true,
            show_containers: true,
            show_players: true,
            player: String::new(),
            item: String::new(),
            ctype: String::new(),
            dimension: String::new(),
            nbt: String::new(),
            dungeon: DungeonFilter::Any,
            hide_empty: false,
            min_count: String::new(),
            x_min: String::new(),
            x_max: String::new(),
            y_min: String::new(),
            y_max: String::new(),
            z_min: String::new(),
            z_max: String::new(),
            ench_name: String::new(),
            ench_op: EnchOp::Any,
            ench_level: 255,
        }
    }

    pub fn advanced_active(&self) -> (r: bool)
        ensures
            r == self.advanced_spec(),
    {
        !self.show_backpacks || !self.show_containers || !self.show_players || is_filled(
            &self.player,
        ) || is_filled(&self.item) || is_filled(&self.ctype) || is_filled(&self.dimension)
            || is_filled(&self.nbt) || self.dungeon != DungeonFilter::Any || self.hide_empty
            || is_filled(&self.min_count) || is_filled(&self.x_min) || is_filled(&self.x_max)
            || is_filled(&self.y_min) || is_filled(&self.y_max) || is_filled(&self.z_min)
            || is_filled(&self.z_max) || is_filled(&self.ench_name) || self.ench_op
            != EnchOp::Any
    }

    /// Resets every filter but the quick search text and its category.
    pub fn clear_advanced(&mut self)
        ensures
            final(self).text@ == old(self).text@,
            final(self).cat == old(self).cat,
            final(self).advanced_at_default(),
    {
        let mut d = Filters::default();
        std::mem::swap(&mut d.text, &mut self.text);
        d.cat = self.cat;
        *self = d;
    }

    /// Prepares the filters for matching: trims and lowercases the text
    /// fields, reads the numbers and parses the query.
    pub fn compile(&self) -> (r: Compiled)
        ensures
            r.compiled_from(self),
    {
        Compiled {
            text: parse_query(self.text.as_str()),
            cat: self.cat,
            show_backpacks: self.show_backpacks,
            show_containers: self.show_containers,
            show_players: self.show_players,
            player: low(&self.player),
            item: low(&self.item),
            ctype: low(&self.ctype),
            dimension: low(&self.dimension),
            nbt: low(&self.nbt),
            dungeon: self.dungeon,
            hide_empty: self.hide_empty,
            min_count: parse_trimmed_i64(self.min_count.as_str()),
            x: (parse_trimmed_i64(self.x_min.as_str()), parse_trimmed_i64(self.x_max.as_str())),
            y: (parse_trimmed_i64(self.y_min.as_str()), parse_trimmed_i64(self.y_max.as_str())),
            z: (parse_trimmed_i64(self.z_min.as_str()), parse_trimmed_i64(self.z_max.as_str())),
            ench_name: low(&self.ench_name),
            ench_op: self.ench_op,
            ench_level: self.ench_level,
        }
    }
}

fn is_filled(s: &String) -> (r: bool)
    ensures
        r == filled(s@),
{
    let t = trim_str(s.as_str());
    t.as_str().unicode_len() > 0
}

/// A text filter: the lowercased trimmed text, or none when it is blank.
pub open spec fn low_spec(s: Seq<char>) -> Option<Seq<char>> {
    let t = lowercase(trim(s));
    if t.len() == 0 {
        None
    } else {
        Some(t)
    }
}

pub open spec fn opt_str_view(o: Option<String>) -> Option<Seq<char>> {
    match o {
        Some(s) => Some(s@),
        None => None,
    }
}

fn low(s: &String) -> (r: Option<String>)
    ensures
        opt_str_view(r) == low_spec(s@),
{
    let t = trim_str(s.as_str());
    let l = to_lower(t.as_str());
    if l.as_str().unicode_len() == 0 {
        None
    } else {
        Some(l)
    }
}

/// Filters ready to match entries.
#[derive(Debug)]
pub struct Compiled {
    text: Option<Expr>,
    cat: TextCat,
    show_backpacks: bool,
    show_containers: bool,
    show_players: bool,
    player: Option<String>,
    item: Option<String>,
    ctype: Option<String>,
    dimension: Option<String>,
    nbt: Option<String>,
    dungeon: DungeonFilter,
    hide_empty: bool,
    min_count: Option<i64>,
    x: (Option<i64>, Option<i64>),
    y: (Option<i64>, Option<i64>),
    z: (Option<i64>, Option<i64>),
    ench_name: Option<String>,
    ench_op: EnchOp,
    ench_level: i32,
}

/// Compiled filters as plain values: what each filter asks of an entry.
pub struct CompiledV {
    pub text: Option<ExprV>,
    pub cat: TextCat,
    pub show_backpacks: bool,
    pub show_containers: bool,
    pub show_players: bool,
    pub player: Option<Seq<char>>,
    pub item: Option<Seq<char>>,
    pub ctype: Option<Seq<char>>,
    pub dimension: Option<Seq<char>>,
    pub nbt: Option<Seq<char>>,
    pub dungeon: DungeonFilter,
    pub hide_empty: bool,
    pub min_count: Option<i64>,
    pub x: (Option<i64>, Option<i64>),
    pub y: (Option<i64>, Option<i64>),
    pub z: (Option<i64>, Option<i64>),
    pub ench_name: Option<Seq<char>>,
    pub ench_op: EnchOp,
    pub ench_level: i32,
}

impl View for Compiled {
    type V = CompiledV;

    closed spec fn view(&self) -> CompiledV {
        CompiledV {
            text: opt_expr_view(self.text),
            cat: self.cat,
            show_backpacks: self.show_backpacks,
            show_containers: self.show_containers,
            show_players: self.show_players,
            player: opt_str_view(self.player),
            item: opt_str_view(self.item),
            ctype: opt_str_view(self.ctype),
            dimension: opt_str_view(self.dimension),
            nbt: opt_str_view(self.nbt),
            dungeon: self.dungeon,
            hide_empty: self.hide_empty,
            min_count: self.min_count,
            x: self.x,
            y: self.y,
            z: self.z,
            ench_name: opt_str_view(self.ench_name),
            ench_op: self.ench_op,
            ench_level: self.ench_level,
        }
    }
}

/// What `compile` makes of the filters: the query parsed; each text field
/// trimmed and lowercased, none when it is blank; each number read from the
/// trimmed field, none when it is no integer; the switches copied.
pub open spec fn compile_spec(f: &Filters) -> CompiledV {
    CompiledV {
        text: query_of(f.text@),
        cat: f.cat,
        show_backpacks: f.show_backpacks,
        show_containers: f.show_containers,
        show_players: f.show_players,
        player: low_spec(f.player@),
        item: low_spec(f.item@),
        ctype: low_spec(f.ctype@),
        dimension: low_spec(f.dimension@),
        nbt: low_spec(f.nbt@),
        dungeon: f.dungeon,
        hide_empty: f.hide_empty,
        min_count: parse_i64_spec(trim(f.min_count@)),
        x: (parse_i64_spec(trim(f.x_min@)), parse_i64_spec(trim(f.x_max@))),
        y: (parse_i64_spec(trim(f.y_min@)), parse_i64_spec(trim(f.y_max@))),
        z: (parse_i64_spec(trim(f.z_min@)), parse_i64_spec(trim(f.z_max@))),
        ench_name: low_spec(f.ench_name@),
        ench_op: f.ench_op,
        ench_level: f.ench_level,
    }
}

/// `v` lies within the bounds that are set.
pub open spec fn in_range_spec(v: i64, b: (Option<i64>, Option<i64>)) -> bool {
    (match b.0 {
        Some(lo) => v >= lo,
        None => true,
    }) && (match b.1 {
        Some(hi) => v <= hi,
        None => true,
    })
}

fn in_range(v: i64, bounds: (Option<i64>, Option<i64>)) -> (r: bool)
    ensures
        r == in_range_spec(v, bounds),
{
    let lo_ok = match bounds.0 {
        Some(lo) => v >= lo,
        None => true,
    };
    let hi_ok = match bounds.1 {
        Some(hi) => v <= hi,
        None => true,
    };
    lo_ok && hi_ok
}

pub open spec fn bound_set(b: (Option<i64>, Option<i64>)) -> bool {
    b.0 is Some || b.1 is Some
}

/// Some entry of `ups` has an id whose lowercase contains `q`.
pub open spec fn upgrade_has(ups: Seq<Item>, q: Seq<char>) -> bool {
    exists|i: int| 0 <= i < ups.len() && has_substr(lowercase(#[trigger] ups[i].id@), q)
}

fn any_upgrade_has(ups: &[Item], q: &str) -> (r: bool)
    ensures
        r == upgrade_has(ups@, q@),
{
    let qc = chars_of(q);
    let mut i: usize = 0;
    while i < ups.len()
        invariant
            i <= ups@.len(),
            qc@ == q@,
            forall|j: int| 0 <= j < i ==> !has_substr(lowercase(#[trigger] ups@[j].id@), q@),
        decreases ups.len() - i,
    {
        let l = to_lower(ups[i].id.as_str());
        let lc = chars_of(l.as_str());
        if chars_contain(lc.as_slice(), qc.as_slice()) {
            return true;
        }
        i += 1;
    }
    false
}

impl Compiled {
    /// How `compile` builds its result from the filters.
    pub open spec fn compiled_from(&self, f: &Filters) -> bool {
        self@ == compile_spec(f)
    }

    pub open spec fn coords_active(&self) -> bool {
        bound_set(self@.x) || bound_set(self@.y) || bound_set(self@.z)
    }

    pub fn coord_filter_active(&self) -> (r: bool)
        ensures
            r == self.coords_active(),
    {
        self.x.0.is_some() || self.x.1.is_some() || self.y.0.is_some() || self.y.1.is_some()
            || self.z.0.is_some() || self.z.1.is_some()
    }

    pub open spec fn kind_shown(&self, k: EntryKind) -> bool {
        match k {
            EntryKind::Backpack => self@.show_backpacks,
            EntryKind::Container => self@.show_containers,
            EntryKind::Player => self@.show_players,
        }
    }

    pub open spec fn dungeon_ok(&self, is_dungeon: bool) -> bool {
        match self@.dungeon {
            DungeonFilter::Only => is_dungeon,
            DungeonFilter::Hide => !is_dungeon,
            DungeonFilter::Any => true,
        }
    }

    pub open spec fn coords_ok(&self, c: Option<(i64, i64, i64)>) -> bool {
        self.coords_active() ==> match c {
            Some((x, y, z)) => in_range_spec(x, self@.x) && in_range_spec(y, self@.y)
                && in_range_spec(z, self@.z),
            None => false,
        }
    }

    pub open spec fn ench_matches(&self, id: Seq<char>, lvl: i32) -> bool {
        (match self@.ench_name {
            Some(n) => has_substr(lowercase(id), n),
            None => true,
        }) && self@.ench_op.passes(lvl, self@.ench_level)
    }

    pub open spec fn ench_filter_active(&self) -> bool {
        self@.ench_name is Some || self@.ench_op != EnchOp::Any
    }

    /// What the quick search asks of an entry, by category.
    pub open spec fn text_ok(&self, e: &Entry) -> bool {
        match self@.text {
            None => true,
            Some(x) => match self@.cat {
                TextCat::Any => holds(
                    x,
                    |q: Seq<char>| has_substr(e.search_blob@, q) || has_substr(e.nbt_blob@, q),
                ),
                TextCat::Owner => (e.kind == EntryKind::Backpack || e.kind == EntryKind::Player)
                    && holds(x, |q: Seq<char>| has_substr(e.owner@, q) || has_substr(e.uuid@, q)),
                TextCat::Item => holds(x, |q: Seq<char>| has_substr(e.search_blob@, q)),
                TextCat::Type => holds(x, |q: Seq<char>| has_substr(lowercase(e.header_icon@), q)),
                TextCat::Upgrade => holds(x, |q: Seq<char>| upgrade_has(e.upgrades@, q)),
            },
        }
    }

    /// An entry passes every filter.
    pub open spec fn accepts(&self, e: &Entry) -> bool {
        &&& self.kind_shown(e.kind)
        &&& !(self@.hide_empty && e.items@.len() == 0)
        &&& self.dungeon_ok(e.is_dungeon)
        &&& self.coords_ok(e.coords)
        &&& (match self@.player {
            Some(p) => has_substr(e.owner@, p) || has_substr(e.uuid@, p),
            None => true,
        })
        &&& (match self@.ctype {
            Some(t) => has_substr(lowercase(e.header_icon@), t),
            None => true,
        })
        &&& (match self@.dimension {
            Some(d) => has_substr(lowercase(e.dimension@), d),
            None => true,
        })
        &&& (match self@.item {
            Some(i) => has_substr(e.search_blob@, i),
            None => true,
        })
        &&& (match self@.nbt {
            Some(n) => has_substr(e.nbt_blob@, n) || has_substr(e.search_blob@, n),
            None => true,
        })
        &&& (match self@.min_count {
            Some(mc) => e.max_stack >= mc,
            None => true,
        })
        &&& (self.ench_filter_active() ==> exists|i: int|
            0 <= i < e.all_enchants@.len() && self.ench_matches(
                (#[trigger] e.all_enchants@[i]).0@,
                e.all_enchants@[i].1,
            ))
        &&& self.text_ok(e)
    }

    fn ench_hit(&self, ench: &Vec<(String, i32)>) -> (r: bool)
        ensures
            r == exists|i: int|
                0 <= i < ench@.len() && self.ench_matches((#[trigger] ench@[i]).0@, ench@[i].1),
    {
        let mut i: usize = 0;
        while i < ench.len()
            invariant
                i <= ench@.len(),
                forall|j: int|
                    0 <= j < i ==> !self.ench_matches((#[trigger] ench@[j]).0@, ench@[j].1),
            decreases ench.len() - i,
        {
            let name_ok = match &self.ench_name {
                Some(n) => {
                    let l = to_lower(ench[i].0.as_str());
                    str_has(&l, n)
                },
                None => true,
            };
            if name_ok && self.ench_op.test(ench[i].1, self.ench_level) {
                return true;
            }
            i += 1;
        }
        false
    }

    fn text_matches(&self, e: &Entry) -> (r: bool)
        ensures
            r == self.text_ok(e),
    {
        match &self.text {
            None => true,
            Some(expr) => {
                match self.cat {
                    TextCat::Any => {
                        let sb = chars_of(e.search_blob.as_str());
                        let nb = chars_of(e.nbt_blob.as_str());
                        let f = |q: &str| -> (b: bool)
                            ensures
                                b == (has_substr(e.search_blob@, q@) || has_substr(
                                    e.nbt_blob@,
                                    q@,
                                )),
                            {
                                let qc = chars_of(q);
                                chars_contain(sb.as_slice(), qc.as_slice()) || chars_contain(
                                    nb.as_slice(),
                                    qc.as_slice(),
                                )
                            };
                        let ghost p = |q: Seq<char>|
                            has_substr(e.search_blob@, q) || has_substr(e.nbt_blob@, q);
                        assert(answers_as(&f, p));
                        expr.eval(&f)
                    },
                    TextCat::Owner => {
                        if !(e.kind == EntryKind::Backpack || e.kind == EntryKind::Player) {
                            return false;
                        }
                        let ob = chars_of(e.owner.as_str());
                        let ub = chars_of(e.uuid.as_str());
                        let f = |q: &str| -> (b: bool)
                            ensures
                                b == (has_substr(e.owner@, q@) || has_substr(e.uuid@, q@)),
                            {
                                let qc = chars_of(q);
                                chars_contain(ob.as_slice(), qc.as_slice()) || chars_contain(
                                    ub.as_slice(),
                                    qc.as_slice(),
                                )
                            };
                        let ghost p = |q: Seq<char>|
                            has_substr(e.owner@, q) || has_substr(e.uuid@, q);
                        assert(answers_as(&f, p));
                        expr.eval(&f)
                    },
                    TextCat::Item => {
                        let sb = chars_of(e.search_blob.as_str());
                        let f = |q: &str| -> (b: bool)
                            ensures
                                b == has_substr(e.search_blob@, q@),
                            {
                                let qc = chars_of(q);
                                chars_contain(sb.as_slice(), qc.as_slice())
                            };
                        let ghost p = |q: Seq<char>| has_substr(e.search_blob@, q);
                        assert(answers_as(&f, p));
                        expr.eval(&f)
                    },
                    TextCat::Type => {
                        let icon = to_lower(e.header_icon.as_str());
                        let ib = chars_of(icon.as_str());
                        let f = |q: &str| -> (b: bool)
                            ensures
                                b == has_substr(lowercase(e.header_icon@), q@),
                            {
                                let qc = chars_of(q);
                                chars_contain(ib.as_slice(), qc.as_slice())
                            };
                        let ghost p = |q: Seq<char>| has_substr(lowercase(e.header_icon@), q);
                        assert(answers_as(&f, p));
                        expr.eval(&f)
                    },
                    TextCat::Upgrade => {
                        let f = |q: &str| -> (b: bool)
                            ensures
                                b == upgrade_has(e.upgrades@, q@),
                            { any_upgrade_has(e.upgrades.as_slice(), q) };
                        let ghost p = |q: Seq<char>| upgrade_has(e.upgrades@, q);
                        assert(answers_as(&f, p));
                        expr.eval(&f)
                    },
                }
            },
        }
    }

    /// Whether an entry passes every filter.
    pub fn matches(&self, e: &Entry) -> (r: bool)
        ensures
            r == self.accepts(e),
    {
        let kind_ok = match e.kind {
            EntryKind::Backpack => self.show_backpacks,
            EntryKind::Container => self.show_containers,
            EntryKind::Player => self.show_players,
        };
        if !kind_ok {
            return false;
        }
        if self.hide_empty && e.items.len() == 0 {
            return false;
        }
        match self.dungeon {
            DungeonFilter::Only => {
                if !e.is_dungeon {
                    return false;
                }
            },
            DungeonFilter::Hide => {
                if e.is_dungeon {
                    return false;
                }
            },
            DungeonFilter::Any => {},
        }
        if self.coord_filter_active() {
            match e.coords {
                Some((x, y, z)) => {
                    if !in_range(x, self.x) || !in_range(y, self.y) || !in_range(z, self.z) {
                        return false;
                    }
                },
                None => {
                    return false;
                },
            }
        }
        if let Some(p) = &self.player {
            if !str_has(&e.owner, p) && !str_has(&e.uuid, p) {
                return false;
            }
        }
        if let Some(t) = &self.ctype {
            let icon = to_lower(e.header_icon.as_str());
            if !str_has(&icon, t) {
                return false;
            }
        }
        if let Some(d) = &self.dimension {
            let dim = to_lower(e.dimension.as_str());
            if !str_has(&dim, d) {
                return false;
            }
        }
        if let Some(i) = &self.item {
            if !str_has(&e.search_blob, i) {
                return false;
            }
        }
        if let Some(n) = &self.nbt {
            if !str_has(&e.nbt_blob, n) && !str_has(&e.search_blob, n) {
                return false;
            }
        }
        if let Some(mc) = self.min_count {
            if e.max_stack < mc {
                return false;
            }
        }
        if self.ench_name.is_some() || self.ench_op != EnchOp::Any {
            if !self.ench_hit(&e.all_enchants) {
                return false;
            }
        }
        self.text_matches(e)
    }
}

/// The quick search's item text holds `q`.
pub open spec fn item_hit(t: TextView, q: Seq<char>) -> bool {
    match t {
        TextView::Raw(b) => ci_has(b, vstd::utf8::encode_utf8(q)),
        TextView::Blob { search, .. } => has_substr(search, q),
    }
}

/// The raw NBT text (or, failing it, the item text) holds `q`.
pub open spec fn nbt_hit(t: TextView, q: Seq<char>) -> bool {
    match t {
        TextView::Raw(b) => ci_has(b, vstd::utf8::encode_utf8(q)),
        TextView::Blob { search, nbt, .. } => has_substr(nbt, q) || has_substr(search, q),
    }
}

/// Any text of the entry holds `q`.
pub open spec fn any_hit(t: TextView, q: Seq<char>) -> bool {
    match t {
        TextView::Raw(b) => ci_has(b, vstd::utf8::encode_utf8(q)),
        TextView::Blob { search, nbt, .. } => has_substr(search, q) || has_substr(nbt, q),
    }
}

/// An upgrade's id holds `q`; raw text has no upgrades.
pub open spec fn upgrade_hit(t: TextView, q: Seq<char>) -> bool {
    match t {
        TextView::Raw(_) => false,
        TextView::Blob { upgrades, .. } => upgrade_has(upgrades, q),
    }
}

fn text_item(text: &TextSource, q: &str) -> (r: bool)
    ensures
        r == item_hit(text_view(text), q@),
{
    match text {
        TextSource::Slice(b) => ci_contains(b, q),
        TextSource::Blob { search, .. } => {
            let h = chars_of(search);
            let n = chars_of(q);
            chars_contain(h.as_slice(), n.as_slice())
        },
    }
}

fn text_nbt(text: &TextSource, q: &str) -> (r: bool)
    ensures
        r == nbt_hit(text_view(text), q@),
{
    match text {
        TextSource::Slice(b) => ci_contains(b, q),
        TextSource::Blob { search, nbt, .. } => {
            let n = chars_of(q);
            let h1 = chars_of(nbt);
            let h2 = chars_of(search);
            chars_contain(h1.as_slice(), n.as_slice()) || chars_contain(h2.as_slice(), n.as_slice())
        },
    }
}

fn text_any(text: &TextSource, q: &str) -> (r: bool)
    ensures
        r == any_hit(text_view(text), q@),
{
    match text {
        TextSource::Slice(b) => ci_contains(b, q),
        TextSource::Blob { search, nbt, .. } => {
            let n = chars_of(q);
            let h1 = chars_of(search);
            let h2 = chars_of(nbt);
            chars_contain(h1.as_slice(), n.as_slice()) || chars_contain(h2.as_slice(), n.as_slice())
        },
    }
}

fn text_upgrade(text: &TextSource, q: &str) -> (r: bool)
    ensures
        r == upgrade_hit(text_view(text), q@),
{
    match text {
        TextSource::Slice(_) => false,
        TextSource::Blob { upgrades, .. } => any_upgrade_has(upgrades, q),
    }
}

/// The coordinates of a summary, widened.
pub open spec fn meta_coords(m: EntryMeta) -> Option<(i64, i64, i64)> {
    match m.coords {
        Some(a) => Some((a[0] as i64, a[1] as i64, a[2] as i64)),
        None => None,
    }
}

impl Compiled {
    /// What the quick search asks of a summarized entry, by category.
    pub open spec fn text_ok_meta(&self, m: EntryMeta, t: TextView, strs: Seq<Seq<char>>) -> bool {
        match self@.text {
            None => true,
            Some(x) => match self@.cat {
                TextCat::Any => holds(x, |q: Seq<char>| any_hit(t, q)),
                TextCat::Owner => (m.kind == EntryKind::Backpack || m.kind == EntryKind::Player)
                    && holds(x, |q: Seq<char>| has_substr(m.owner@, q) || has_substr(m.uuid@, q)),
                TextCat::Item => holds(x, |q: Seq<char>| item_hit(t, q)),
                TextCat::Type => holds(
                    x,
                    |q: Seq<char>| has_substr(lowercase(strs[m.icon as int]), q),
                ),
                TextCat::Upgrade => holds(x, |q: Seq<char>| upgrade_hit(t, q)),
            },
        }
    }

    /// A summarized entry, with text source `t` and interned strings `strs`,
    /// passes every filter.
    pub open spec fn accepts_meta(&self, m: EntryMeta, t: TextView, strs: Seq<Seq<char>>) -> bool {
        &&& self.kind_shown(m.kind)
        &&& !(self@.hide_empty && !flag(m.flags, 2))
        &&& self.dungeon_ok(flag(m.flags, 1))
        &&& self.coords_ok(meta_coords(m))
        &&& (match self@.player {
            Some(p) => has_substr(m.owner@, p) || has_substr(m.uuid@, p),
            None => true,
        })
        &&& (match self@.ctype {
            Some(c) => has_substr(lowercase(strs[m.icon as int]), c),
            None => true,
        })
        &&& (match self@.dimension {
            Some(d) => has_substr(lowercase(strs[m.dim as int]), d),
            None => true,
        })
        &&& (match self@.item {
            Some(i) => item_hit(t, i),
            None => true,
        })
        &&& (match self@.nbt {
            Some(n) => nbt_hit(t, n),
            None => true,
        })
        &&& (match self@.min_count {
            Some(mc) => m.max_stack as i64 >= mc,
            None => true,
        })
        &&& (self.ench_filter_active() ==> exists|i: int|
            0 <= i < m.enchants@.len() && self.ench_matches(
                strs[(#[trigger] m.enchants@[i]).0 as int],
                m.enchants@[i].1 as i32,
            ))
        &&& self.text_ok_meta(m, t, strs)
    }

    fn ench_hit_meta(&self, m: &EntryMeta, it: &Interner) -> (r: bool)
        requires
            names_within(*m, it.strings().len() as int),
        ensures
            r == exists|i: int|
                0 <= i < m.enchants@.len() && self.ench_matches(
                    it.strings()[(#[trigger] m.enchants@[i]).0 as int],
                    m.enchants@[i].1 as i32,
                ),
    {
        let mut i: usize = 0;
        while i < m.enchants.len()
            invariant
                i <= m.enchants@.len(),
                names_within(*m, it.strings().len() as int),
                forall|j: int|
                    0 <= j < i ==> !self.ench_matches(
                        it.strings()[(#[trigger] m.enchants@[j]).0 as int],
                        m.enchants@[j].1 as i32,
                    ),
            decreases m.enchants.len() - i,
        {
            let (id, lvl) = m.enchants[i];
            let name_ok = match &self.ench_name {
                Some(n) => {
                    let l = to_lower(it.get(id));
                    str_has(&l, n)
                },
                None => true,
            };
            if name_ok && self.ench_op.test(lvl as i32, self.ench_level) {
                return true;
            }
            i += 1;
        }
        false
    }

    fn text_matches_meta(&self, m: &EntryMeta, text: &TextSource, it: &Interner) -> (r: bool)
        requires
            names_within(*m, it.strings().len() as int),
        ensures
            r == self.text_ok_meta(*m, text_view(text), it.strings()),
    {
        match &self.text {
            None => true,
            Some(expr) => {
                match self.cat {
                    TextCat::Any => {
                        let f = |q: &str| -> (b: bool)
                            ensures
                                b == any_hit(text_view(text), q@),
                            { text_any(text, q) };
                        let ghost p = |q: Seq<char>| any_hit(text_view(text), q);
                        assert(answers_as(&f, p));
                        expr.eval(&f)
                    },
                    TextCat::Owner => {
                        if !(m.kind == EntryKind::Backpack || m.kind == EntryKind::Player) {
                            return false;
                        }
                        let ob = chars_of(m.owner.as_str());
                        let ub = chars_of(m.uuid.as_str());
                        let f = |q: &str| -> (b: bool)
                            ensures
                                b == (has_substr(m.owner@, q@) || has_substr(m.uuid@, q@)),
                            {
                                let qc = chars_of(q);
                                chars_contain(ob.as_slice(), qc.as_slice()) || chars_contain(
                                    ub.as_slice(),
                                    qc.as_slice(),
                                )
                            };
                        let ghost p = |q: Seq<char>|
                            has_substr(m.owner@, q) || has_substr(m.uuid@, q);
                        assert(answers_as(&f, p));
                        expr.eval(&f)
                    },
                    TextCat::Item => {
                        let f = |q: &str| -> (b: bool)
                            ensures
                                b == item_hit(text_view(text), q@),
                            { text_item(text, q) };
                        let ghost p = |q: Seq<char>| item_hit(text_view(text), q);
                        assert(answers_as(&f, p));
                        expr.eval(&f)
                    },
                    TextCat::Type => {
                        let icon = to_lower(it.get(m.icon));
                        let ib = chars_of(icon.as_str());
                        let f = |q: &str| -> (b: bool)
                            ensures
                                b == has_substr(lowercase(it.strings()[m.icon as int]), q@),
                            {
                                let qc = chars_of(q);
                                chars_contain(ib.as_slice(), qc.as_slice())
                            };
                        let ghost p = |q: Seq<char>|
                            has_substr(lowercase(it.strings()[m.icon as int]), q);
                        assert(answers_as(&f, p));
                        expr.eval(&f)
                    },
                    TextCat::Upgrade => {
                        let f = |q: &str| -> (b: bool)
                            ensures
                                b == upgrade_hit(text_view(text), q@),
                            { text_upgrade(text, q) };
                        let ghost p = |q: Seq<char>| upgrade_hit(text_view(text), q);
                        assert(answers_as(&f, p));
                        expr.eval(&f)
                    },
                }
            },
        }
    }

    /// Whether a summarized entry passes every filter; text filters read
    /// `text`, and icon, dimension and enchantment names come from `it`.
    pub fn matches_meta(&self, m: &EntryMeta, text: &TextSource, it: &Interner) -> (r: bool)
        requires
            names_within(*m, it.strings().len() as int),
        ensures
            r == self.accepts_meta(*m, text_view(text), it.strings()),
    {
        let kind_ok = match m.kind {
            EntryKind::Backpack => self.show_backpacks,
            EntryKind::Container => self.show_containers,
            EntryKind::Player => self.show_players,
        };
        if !kind_ok {
            return false;
        }
        if self.hide_empty && !m.has_items() {
            return false;
        }
        match self.dungeon {
            DungeonFilter::Only => {
                if !m.is_dungeon() {
                    return false;
                }
            },
            DungeonFilter::Hide => {
                if m.is_dungeon() {
                    return false;
                }
            },
            DungeonFilter::Any => {},
        }
        if self.coord_filter_active() {
            match m.coords64() {
                Some((x, y, z)) => {
                    if !in_range(x, self.x) || !in_range(y, self.y) || !in_range(z, self.z) {
                        return false;
                    }
                },
                None => {
                    return false;
                },
            }
        }
        if let Some(p) = &self.player {
            if !str_has(&m.owner, p) && !str_has(&m.uuid, p) {
                return false;
            }
        }
        if let Some(t) = &self.ctype {
            let icon = to_lower(it.get(m.icon));
            if !str_has(&icon, t) {
                return false;
            }
        }
        if let Some(d) = &self.dimension {
            let dim = to_lower(it.get(m.dim));
            if !str_has(&dim, d) {
                return false;
            }
        }
        if let Some(i) = &self.item {
            if !text_item(text, i.as_str()) {
                return false;
            }
        }
        if let Some(n) = &self.nbt {
            if !text_nbt(text, n.as_str()) {
                return false;
            }
        }
        if let Some(mc) = self.min_count {
            if (m.max_stack as i64) < mc {
                return false;
            }
        }
        if self.ench_name.is_some() || self.ench_op != EnchOp::Any {
            if !self.ench_hit_meta(m, it) {
                return false;
            }
        }
        self.text_matches_meta(m, text, it)
    }
}

/// `hay` contains `needle`.
pub fn str_has(hay: &String, needle: &String) -> (r: bool)
    ensures
        r == has_substr(hay@, needle@),
{
    let h = chars_of(hay.as_str());
    let n = chars_of(needle.as_str());
    chars_contain(h.as_slice(), n.as_slice())
}


/// A text made only of whitespace has no tokens, so its query is absent
/// and it matches everything.
pub proof fn law_blank_query_is_absent(s: Seq<char>)
    requires
        forall|i: int| 0 <= i < s.len() ==> is_white(#[trigger] s[i]),
    ensures
        tokens(s).len() == 0,
        query_of(s) is None,
    decreases s.len(),
{
    if s.len() > 0 {
        let r = s.drop_first();
        assert forall|i: int| 0 <= i < r.len() implies is_white(#[trigger] r[i]) by {
            assert(r[i] == s[i + 1]);
        }
        law_blank_query_is_absent(r);
        assert(is_white(s[0]));
    }
}

/// Two adjacent terms parse as their conjunction, exactly as with `and`
/// between them.
pub proof fn law_adjacent_terms_are_anded(a: Seq<char>, b: Seq<char>)
    ensures
        p_or(seq![TokV::Term(a), TokV::Term(b)], 0).0 == p_or(
            seq![TokV::Term(a), TokV::And, TokV::Term(b)],
            0,
        ).0,
        p_or(seq![TokV::Term(a), TokV::Term(b)], 0).0 == Some(
            ExprV::And(Box::new(ExprV::Term(a)), Box::new(ExprV::Term(b))),
        ),
{
    let t1 = seq![TokV::Term(a), TokV::Term(b)];
    let t2 = seq![TokV::Term(a), TokV::And, TokV::Term(b)];
    let e = ExprV::And(Box::new(ExprV::Term(a)), Box::new(ExprV::Term(b)));
    assert(p_unary(t1, 0) == (Some(ExprV::Term(a)), 1int));
    assert(p_unary(t1, 1) == (Some(ExprV::Term(b)), 2int));
    assert(and_tail(t1, 2, e) == (Some(e), 2int));
    assert(and_tail(t1, 1, ExprV::Term(a)) == (Some(e), 2int));
    assert(p_and(t1, 0) == (Some(e), 2int));
    assert(or_tail(t1, 2, e) == (Some(e), 2int));
    assert(p_unary(t2, 0) == (Some(ExprV::Term(a)), 1int));
    assert(p_unary(t2, 2) == (Some(ExprV::Term(b)), 3int));
    assert(and_tail(t2, 3, e) == (Some(e), 3int));
    assert(and_tail(t2, 1, ExprV::Term(a)) == (Some(e), 3int));
    assert(p_and(t2, 0) == (Some(e), 3int));
    assert(or_tail(t2, 3, e) == (Some(e), 3int));
}

/// Every term that the tokenizer yields is lowercased.
pub proof fn law_terms_are_lowercased(s: Seq<char>, i: int)
    requires
        0 <= i < tokens(s).len(),
        tokens(s)[i] is Term,
    ensures
        exists|w: Seq<char>| w.len() > 0 && tokens(s)[i] == TokV::Term(#[trigger] lowercase(w)),
    decreases s.len(),
{
    let c = s[0];
    let r = s.drop_first();
    if is_white(c) {
        law_terms_are_lowercased(r, i);
    } else if c == '(' || c == ')' {
        law_terms_are_lowercased(r, i - 1);
    } else if c == '"' || c == '\'' {
        let k = quote_len(r, c);
        lemma_quote_len_le(r, c);
        let body = r.take(k as int);
        let rest = if k < r.len() {
            r.skip(k + 1int)
        } else {
            r.skip(k as int)
        };
        if body.len() > 0 {
            if i == 0 {
                assert(tokens(s)[i] == TokV::Term(lowercase(body)));
            } else {
                assert(tokens(s)[i] == tokens(rest)[i - 1]);
                law_terms_are_lowercased(rest, i - 1);
            }
        } else {
            law_terms_are_lowercased(rest, i);
        }
    } else if c == '&' || c == '|' {
        if r.len() > 0 && r[0] == c {
            assert(tokens(s)[i] == tokens(r.drop_first())[i - 1]);
            law_terms_are_lowercased(r.drop_first(), i - 1);
        } else {
            assert(tokens(s)[i] == tokens(r)[i - 1]);
            law_terms_are_lowercased(r, i - 1);
        }
    } else {
        let k = word_len(s);
        lemma_word_len_le(s);
        if i == 0 {
            let w = s.take(k as int);
            assert(w.len() > 0);
            assert(tokens(s)[0] == word_token(w));
        } else {
            assert(tokens(s)[i] == tokens(s.skip(k as int))[i - 1]);
            law_terms_are_lowercased(s.skip(k as int), i - 1);
        }
    }
}

/// After `clear_advanced` no advanced filter is active.
pub proof fn law_cleared_filters_are_not_advanced(f: Filters)
    requires
        f.advanced_at_default(),
    ensures
        !f.advanced_spec(),
{
    let e = Seq::<char>::empty();
    assert(trim(e) == e);
}

/// Filters at their defaults, with a blank quick search, accept every entry.
pub proof fn law_default_filters_accept_all(f: Filters, c: Compiled, e: Entry)
    requires
        f.advanced_at_default(),
        forall|i: int| 0 <= i < f.text@.len() ==> is_white(#[trigger] f.text@[i]),
        c.compiled_from(&f),
    ensures
        c.accepts(&e),
{
    law_blank_query_is_absent(f.text@);
    let em = Seq::<char>::empty();
    assert(trim(em) == em);
    assert(lowercase(em) == em);
    assert(low_spec(em) is None);
    assert(parse_i64_spec(trim(em)) is None);
}


proof fn lemma_flag_bits(a: u8, b: u8, c: u8)
    by (bit_vector)
    requires
        a == 0 || a == 1,
        b == 0 || b == 2,
        c == 0 || c == 4,
    ensures
        (((a + b + c) as u8) & 1 != 0) == (a == 1),
        (((a + b + c) as u8) & 2 != 0) == (b == 2),
{
}

/// A summary that stands for an entry held in memory, with its text read
/// from that entry, passes the filters exactly when the entry does, wherever
/// the summary keeps the entry's numbers: coordinates and largest stack
/// within 32 bits, enchantment levels within 16 bits.
pub proof fn law_summary_filters_as_entry(c: Compiled, e: Entry, m: EntryMeta, strs: Seq<Seq<char>>)
    requires
        summarizes(m, e@, strs),
        e.coords matches Some((x, y, z)) ==> i32::MIN <= x <= i32::MAX && i32::MIN <= y
            <= i32::MAX && i32::MIN <= z <= i32::MAX,
        i32::MIN <= e.max_stack <= i32::MAX,
        forall|i: int|
            0 <= i < e.all_enchants@.len() ==> i16::MIN <= (#[trigger] e.all_enchants@[i]).1
                <= i16::MAX,
    ensures
        c.accepts_meta(
            m,
            TextView::Blob {
                search: e.search_blob@,
                nbt: e.nbt_blob@,
                upgrades: e.upgrades@,
            },
            strs,
        ) == c.accepts(&e),
{
    let t = TextView::Blob { search: e.search_blob@, nbt: e.nbt_blob@, upgrades: e.upgrades@ };
    crate::model::lemma_items_view_len(e.items@);
    crate::model::lemma_items_view_len(e.upgrades@);
    let a: u8 = if e.is_dungeon {
        1
    } else {
        0
    };
    let b: u8 = if e.items@.len() > 0 {
        2
    } else {
        0
    };
    let d: u8 = if e.upgrades@.len() > 0 {
        4
    } else {
        0
    };
    lemma_flag_bits(a, b, d);
    assert(m.flags == ((a + b + d) as u8));
    assert(flag(m.flags, 1) == e.is_dungeon);
    assert(flag(m.flags, 2) == (e.items@.len() > 0));
    assert(meta_coords(m) == e.coords);
    assert(m.max_stack as i64 == e.max_stack);
    assert(m.enchants@.len() == e.all_enchants@.len());
    assert forall|i: int| 0 <= i < m.enchants@.len() implies strs[(#[trigger] m.enchants@[i]).0
        as int] == e.all_enchants@[i].0@ && m.enchants@[i].1 as i32 == e.all_enchants@[i].1 by {
        assert(crate::model::pairs_view(e.all_enchants@)[i] == (
            e.all_enchants@[i].0@,
            e.all_enchants@[i].1,
        ));
    }
    if c.ench_filter_active() {
        if exists|i: int|
            0 <= i < m.enchants@.len() && c.ench_matches(
                strs[(#[trigger] m.enchants@[i]).0 as int],
                m.enchants@[i].1 as i32,
            ) {
            let i = choose|i: int|
                0 <= i < m.enchants@.len() && c.ench_matches(
                    strs[(#[trigger] m.enchants@[i]).0 as int],
                    m.enchants@[i].1 as i32,
                );
            assert(c.ench_matches((e.all_enchants@[i]).0@, e.all_enchants@[i].1));
        }
        if exists|i: int|
            0 <= i < e.all_enchants@.len() && c.ench_matches(
                (#[trigger] e.all_enchants@[i]).0@,
                e.all_enchants@[i].1,
            ) {
            let i = choose|i: int|
                0 <= i < e.all_enchants@.len() && c.ench_matches(
                    (#[trigger] e.all_enchants@[i]).0@,
                    e.all_enchants@[i].1,
                );
            assert(c.ench_matches(strs[m.enchants@[i].0 as int], m.enchants@[i].1 as i32));
        }
    }
    if let Some(x) = c.text {
        let pa = |q: Seq<char>| any_hit(t, q);
        let pb = |q: Seq<char>| has_substr(e.search_blob@, q) || has_substr(e.nbt_blob@, q);
        assert(pa =~= pb);
        let ia = |q: Seq<char>| item_hit(t, q);
        let ib = |q: Seq<char>| has_substr(e.search_blob@, q);
        assert(ia =~= ib);
        let ua = |q: Seq<char>| upgrade_hit(t, q);
        let ub = |q: Seq<char>| upgrade_has(e.upgrades@, q);
        assert(ua =~= ub);
        let ta = |q: Seq<char>| has_substr(lowercase(strs[m.icon as int]), q);
        let tb = |q: Seq<char>| has_substr(lowercase(e.header_icon@), q);
        assert(ta =~= tb);
    }
    assert(c.text_ok_meta(m, t, strs) == c.text_ok(&e));
}

/// The groups of the search form, each one criterion of the search.
#[derive(Clone, Copy, Debug, PartialEq, Eq, Structural)]
pub enum Criterion {
    Kinds,
    HideEmpty,
    Dungeon,
    Coords,
    Player,
    Item,
    Ctype,
    Dimension,
    Nbt,
    MinCount,
    Ench,
    Text,
}

impl Filters {
    /// The fields of group `g` hold their defaults: every kind shown, empty
    /// containers kept, any dungeon, blank texts and numbers, any
    /// enchantment.
    pub open spec fn group_at_default(&self, g: Criterion) -> bool {
        match g {
            Criterion::Kinds => self.show_backpacks && self.show_containers && self.show_players,
            Criterion::HideEmpty => !self.hide_empty,
            Criterion::Dungeon => self.dungeon == DungeonFilter::Any,
            Criterion::Coords => self.x_min@.len() == 0 && self.x_max@.len() == 0
                && self.y_min@.len() == 0 && self.y_max@.len() == 0 && self.z_min@.len() == 0
                && self.z_max@.len() == 0,
            Criterion::Player => self.player@.len() == 0,
            Criterion::Item => self.item@.len() == 0,
            Criterion::Ctype => self.ctype@.len() == 0,
            Criterion::Dimension => self.dimension@.len() == 0,
            Criterion::Nbt => self.nbt@.len() == 0,
            Criterion::MinCount => self.min_count@.len() == 0,
            Criterion::Ench => self.ench_name@.len() == 0 && self.ench_op == EnchOp::Any,
            Criterion::Text => self.text@.len() == 0,
        }
    }

    /// The fields of group `g` are those of `f`.
    pub open spec fn group_as(&self, f: &Filters, g: Criterion) -> bool {
        match g {
            Criterion::Kinds => self.show_backpacks == f.show_backpacks && self.show_containers
                == f.show_containers && self.show_players == f.show_players,
            Criterion::HideEmpty => self.hide_empty == f.hide_empty,
            Criterion::Dungeon => self.dungeon == f.dungeon,
            Criterion::Coords => self.x_min@ == f.x_min@ && self.x_max@ == f.x_max@ && self.y_min@
                == f.y_min@ && self.y_max@ == f.y_max@ && self.z_min@ == f.z_min@ && self.z_max@
                == f.z_max@,
            Criterion::Player => self.player@ == f.player@,
            Criterion::Item => self.item@ == f.item@,
            Criterion::Ctype => self.ctype@ == f.ctype@,
            Criterion::Dimension => self.dimension@ == f.dimension@,
            Criterion::Nbt => self.nbt@ == f.nbt@,
            Criterion::MinCount => self.min_count@ == f.min_count@,
            Criterion::Ench => self.ench_name@ == f.ench_name@ && self.ench_op == f.ench_op
                && self.ench_level == f.ench_level,
            Criterion::Text => self.text@ == f.text@ && self.cat == f.cat,
        }
    }

    /// These filters ask only what `f` asks in group `g`: that group as in
    /// `f`, every other group at its default.
    pub open spec fn only_group(&self, f: &Filters, g: Criterion) -> bool {
        &&& self.group_as(f, g)
        &&& forall|h: Criterion| h != g ==> #[trigger] self.group_at_default(h)
    }
}

impl Compiled {
    /// What criterion `g` asks of an entry.
    pub open spec fn criterion_ok(&self, g: Criterion, e: &Entry) -> bool {
        match g {
            Criterion::Kinds => self.kind_shown(e.kind),
            Criterion::HideEmpty => !(self@.hide_empty && e.items@.len() == 0),
            Criterion::Dungeon => self.dungeon_ok(e.is_dungeon),
            Criterion::Coords => self.coords_ok(e.coords),
            Criterion::Player => match self@.player {
                Some(p) => has_substr(e.owner@, p) || has_substr(e.uuid@, p),
                None => true,
            },
            Criterion::Item => match self@.item {
                Some(i) => has_substr(e.search_blob@, i),
                None => true,
            },
            Criterion::Ctype => match self@.ctype {
                Some(t) => has_substr(lowercase(e.header_icon@), t),
                None => true,
            },
            Criterion::Dimension => match self@.dimension {
                Some(d) => has_substr(lowercase(e.dimension@), d),
                None => true,
            },
            Criterion::Nbt => match self@.nbt {
                Some(n) => has_substr(e.nbt_blob@, n) || has_substr(e.search_blob@, n),
                None => true,
            },
            Criterion::MinCount => match self@.min_count {
                Some(mc) => e.max_stack >= mc,
                None => true,
            },
            Criterion::Ench => self.ench_filter_active() ==> exists|i: int|
                0 <= i < e.all_enchants@.len() && self.ench_matches(
                    (#[trigger] e.all_enchants@[i]).0@,
                    e.all_enchants@[i].1,
                ),
            Criterion::Text => self.text_ok(e),
        }
    }
}

proof fn lemma_accepts_by_criteria(c: Compiled, e: Entry)
    ensures
        c.accepts(&e) == forall|g: Criterion| #[trigger] c.criterion_ok(g, &e),
{
    if c.accepts(&e) {
        assert forall|g: Criterion| #[trigger] c.criterion_ok(g, &e) by {
            match g {
                _ => {},
            }
        }
    } else {
        assert(!c.criterion_ok(Criterion::Kinds, &e) || !c.criterion_ok(Criterion::HideEmpty, &e)
            || !c.criterion_ok(Criterion::Dungeon, &e) || !c.criterion_ok(Criterion::Coords, &e)
            || !c.criterion_ok(Criterion::Player, &e) || !c.criterion_ok(Criterion::Item, &e)
            || !c.criterion_ok(Criterion::Ctype, &e) || !c.criterion_ok(Criterion::Dimension, &e)
            || !c.criterion_ok(Criterion::Nbt, &e) || !c.criterion_ok(Criterion::MinCount, &e)
            || !c.criterion_ok(Criterion::Ench, &e) || !c.criterion_ok(Criterion::Text, &e));
    }
}

/// A group at its defaults asks nothing of an entry.
proof fn lemma_default_group(h: Filters, d: Compiled, g: Criterion, e: Entry)
    requires
        h.group_at_default(g),
        d.compiled_from(&h),
    ensures
        d.criterion_ok(g, &e),
{
    law_blank_query_is_absent(Seq::<char>::empty());
    let em = Seq::<char>::empty();
    assert(trim(em) == em);
    assert(lowercase(em) == em);
    assert(low_spec(em) is None);
    assert(parse_i64_spec(trim(em)) is None);
    if g == Criterion::Text {
        assert(h.text@ == em);
    }
}

/// A group that two filters share asks the same of every entry.
proof fn lemma_same_group(f: Filters, c: Compiled, h: Filters, d: Compiled, g: Criterion, e: Entry)
    requires
        h.group_as(&f, g),
        c.compiled_from(&f),
        d.compiled_from(&h),
    ensures
        d.criterion_ok(g, &e) == c.criterion_ok(g, &e),
{
}

/// The criteria of the search form combine by AND: an entry passes the
/// filters exactly when it passes each group of them asked alone, so adding
/// a criterion can only remove matches.
pub proof fn law_criteria_combine_by_and(
    f: Filters,
    c: Compiled,
    fs: spec_fn(Criterion) -> Filters,
    cs: spec_fn(Criterion) -> Compiled,
    e: Entry,
)
    requires
        c.compiled_from(&f),
        forall|g: Criterion| #[trigger] fs(g).only_group(&f, g),
        forall|g: Criterion| #[trigger] cs(g).compiled_from(&fs(g)),
    ensures
        c.accepts(&e) == forall|g: Criterion| #[trigger] cs(g).accepts(&e),
{
    lemma_accepts_by_criteria(c, e);
    assert forall|g: Criterion| #[trigger] cs(g).accepts(&e) == c.criterion_ok(g, &e) by {
        let h = fs(g);
        let d = cs(g);
        assert(h.only_group(&f, g));
        assert(d.compiled_from(&h));
        lemma_accepts_by_criteria(d, e);
        lemma_same_group(f, c, h, d, g, e);
        assert forall|k: Criterion| k != g implies #[trigger] d.criterion_ok(k, &e) by {
            assert(h.group_at_default(k));
            lemma_default_group(h, d, k, e);
        }
        if d.criterion_ok(g, &e) {
            assert forall|k: Criterion| #[trigger] d.criterion_ok(k, &e) by {
                if k != g {
                    assert(h.group_at_default(k));
                    lemma_default_group(h, d, k, e);
                }
            }
        }
    }
    if c.accepts(&e) {
        assert forall|g: Criterion| #[trigger] cs(g).accepts(&e) by {
            assert(c.criterion_ok(g, &e));
        }
    } else {
        let g = choose|g: Criterion| !#[trigger] c.criterion_ok(g, &e);
        assert(!cs(g).accepts(&e));
    }
}

/// `compile` reads each text field only as trimmed and lowercased (blank
/// meaning no filter), each number only as read from the trimmed field
/// (blank or no integer meaning no bound), and the quick search only as the
/// query it parses to: filters alike in those readings match the same
/// entries.
pub proof fn law_compile_reads_normalized_fields(
    f: Filters,
    g: Filters,
    c: Compiled,
    d: Compiled,
    e: Entry,
)
    requires
        query_of(f.text@) == query_of(g.text@),
        f.cat == g.cat,
        f.show_backpacks == g.show_backpacks,
        f.show_containers == g.show_containers,
        f.show_players == g.show_players,
        low_spec(f.player@) == low_spec(g.player@),
        low_spec(f.item@) == low_spec(g.item@),
        low_spec(f.ctype@) == low_spec(g.ctype@),
        low_spec(f.dimension@) == low_spec(g.dimension@),
        low_spec(f.nbt@) == low_spec(g.nbt@),
        f.dungeon == g.dungeon,
        f.hide_empty == g.hide_empty,
        parse_i64_spec(trim(f.min_count@)) == parse_i64_spec(trim(g.min_count@)),
        parse_i64_spec(trim(f.x_min@)) == parse_i64_spec(trim(g.x_min@)),
        parse_i64_spec(trim(f.x_max@)) == parse_i64_spec(trim(g.x_max@)),
        parse_i64_spec(trim(f.y_min@)) == parse_i64_spec(trim(g.y_min@)),
        parse_i64_spec(trim(f.y_max@)) == parse_i64_spec(trim(g.y_max@)),
        parse_i64_spec(trim(f.z_min@)) == parse_i64_spec(trim(g.z_min@)),
        parse_i64_spec(trim(f.z_max@)) == parse_i64_spec(trim(g.z_max@)),
        low_spec(f.ench_name@) == low_spec(g.ench_name@),
        f.ench_op == g.ench_op,
        f.ench_level == g.ench_level,
        c.compiled_from(&f),
        d.compiled_from(&g),
    ensures
        c@ == d@,
        c.accepts(&e) == d.accepts(&e),
{
}

/// A coordinate bound that is blank or no integer sets no bound: the
/// coordinate filter is active exactly when one of the six fields reads as
/// an integer once trimmed.
pub proof fn law_coord_filter_reads_bounds(f: Filters, c: Compiled)
    requires
        c.compiled_from(&f),
    ensures
        c.coords_active() == (parse_i64_spec(trim(f.x_min@)) is Some || parse_i64_spec(
            trim(f.x_max@),
        ) is Some || parse_i64_spec(trim(f.y_min@)) is Some || parse_i64_spec(trim(f.y_max@)) is Some
            || parse_i64_spec(trim(f.z_min@)) is Some || parse_i64_spec(trim(f.z_max@)) is Some),
{
}

/// A number field as `compile` reads it: its trimmed text when that reads
/// as an integer, blank text otherwise.
pub open spec fn number_as_read(a: Seq<char>) -> Seq<char> {
    if parse_i64_spec(trim(a)) is Some {
        trim(a)
    } else {
        Seq::<char>::empty()
    }
}

proof fn lemma_text_normal(s: Seq<char>)
    requires
        ascii_text(s),
    ensures
        low_spec(lowercase(trim(s))) == low_spec(s),
{
    let t = trim(s);
    lemma_trim_shape(s);
    lemma_ascii_lower_shape(t);
    let l = ascii_lower(t);
    assert(lowercase(t) == l);
    if l.len() > 0 {
        assert(l[0] == ascii_lower(t)[0]);
        assert(l.last() == l[l.len() - 1]);
    }
    lemma_trim_fixed(l);
    assert(lowercase(l) == ascii_lower(l));
}

proof fn lemma_number_normal(a: Seq<char>)
    ensures
        parse_i64_spec(trim(number_as_read(a))) == parse_i64_spec(trim(a)),
{
    lemma_trim_twice(a);
    let em = Seq::<char>::empty();
    assert(trim(em) == em);
    assert(parse_i64_spec(em) is None) by {
        assert(parse_i64_spec(trim(em)) == parse_i64_spec(em));
    }
}

/// `compile` trims and lowercases each text filter and reads each number
/// from its trimmed field, blank or no integer meaning none: filters whose
/// ASCII text filters are replaced by their trimmed lowercase and whose
/// numbers by what `number_as_read` keeps of them match the same entries.
pub proof fn law_compile_normalizes(f: Filters, g: Filters, c: Compiled, d: Compiled, e: Entry)
    requires
        ascii_text(f.player@),
        ascii_text(f.item@),
        ascii_text(f.ctype@),
        ascii_text(f.dimension@),
        ascii_text(f.nbt@),
        ascii_text(f.ench_name@),
        g.player@ == lowercase(trim(f.player@)),
        g.item@ == lowercase(trim(f.item@)),
        g.ctype@ == lowercase(trim(f.ctype@)),
        g.dimension@ == lowercase(trim(f.dimension@)),
        g.nbt@ == lowercase(trim(f.nbt@)),
        g.ench_name@ == lowercase(trim(f.ench_name@)),
        g.min_count@ == number_as_read(f.min_count@),
        g.x_min@ == number_as_read(f.x_min@),
        g.x_max@ == number_as_read(f.x_max@),
        g.y_min@ == number_as_read(f.y_min@),
        g.y_max@ == number_as_read(f.y_max@),
        g.z_min@ == number_as_read(f.z_min@),
        g.z_max@ == number_as_read(f.z_max@),
        g.text@ == f.text@,
        g.cat == f.cat,
        g.show_backpacks == f.show_backpacks,
        g.show_containers == f.show_containers,
        g.show_players == f.show_players,
        g.dungeon == f.dungeon,
        g.hide_empty == f.hide_empty,
        g.ench_op == f.ench_op,
        g.ench_level == f.ench_level,
        c.compiled_from(&f),
        d.compiled_from(&g),
    ensures
        c.accepts(&e) == d.accepts(&e),
{
    lemma_text_normal(f.player@);
    lemma_text_normal(f.item@);
    lemma_text_normal(f.ctype@);
    lemma_text_normal(f.dimension@);
    lemma_text_normal(f.nbt@);
    lemma_text_normal(f.ench_name@);
    lemma_number_normal(f.min_count@);
    lemma_number_normal(f.x_min@);
    lemma_number_normal(f.x_max@);
    lemma_number_normal(f.y_min@);
    lemma_number_normal(f.y_max@);
    lemma_number_normal(f.z_min@);
    lemma_number_normal(f.z_max@);
    law_compile_reads_normalized_fields(f, g, c, d, e);
}

/// The enchantment level comparisons of the search form: `level >` is
/// strict, `level >=` is not, `level =` is exact, and any level passes
/// `Any`; `>` and `>=` differ exactly at the wanted level.
pub proof fn law_enchantment_level_comparisons(level: i32, target: i32)
    ensures
        EnchOp::Gt.passes(level, target) <==> level > target,
        EnchOp::Gte.passes(level, target) <==> level >= target,
        EnchOp::Eq.passes(level, target) <==> level == target,
        EnchOp::Any.passes(level, target),
        !EnchOp::Gt.passes(target, target),
        EnchOp::Gte.passes(target, target),
{
}

/// With `level >`, an entry whose only enchantment is at exactly the wanted
/// level does not pass the filters.
pub proof fn law_strict_level_rejects_equal(c: Compiled, e: Entry)
    requires
        c@.ench_op == EnchOp::Gt,
        e.all_enchants@.len() == 1,
        e.all_enchants@[0].1 == c@.ench_level,
    ensures
        !c.accepts(&e),
{
    assert(c.ench_filter_active());
    assert forall|i: int| 0 <= i < e.all_enchants@.len() implies !c.ench_matches(
        (#[trigger] e.all_enchants@[i]).0@,
        e.all_enchants@[i].1,
    ) by {
        assert(i == 0);
    }
}

} // verus!
