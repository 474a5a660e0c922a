//! Tokens and the recursive-descent parser.
//!
//! The tokenizer (see `lexer`) pre-groups nested braces and brackets into
//! single `Block` / `Object` / `Array` tokens, so the parser needs only a
//! single flat scan for operator tokens instead of precedence climbing;
//! nesting is handled by recursing into token payloads.

use crate::runner::{
    canon_frac, canon_whole, decl_m, expr_loc, expr_m, frac_of, num_text_ok, parse_number_text,
    whole_of, Block, BlockM, Declaration, DeclM, ExprM, Expression, PrimM, Primitive, Program,
    ScopeM,
};
use crate::types::{loc_text, push_char, str_eq, LocM, Location};
use vstd::prelude::*;
use vstd::string::StringExecFns;

verus! {

/// An infix operator token: `=` or `==`.
#[derive(Clone, Copy, Debug)]
pub enum Special {
    Assign,
    Equality,
}

/// Mathematical value of a [`Token`]. Nested token lines are sequences of
/// token values; object entries keep their insertion order.
pub enum TokM {
    Symbol(LocM, Seq<char>),
    StrLit(LocM, Seq<char>),
    Number(LocM, Seq<char>),
    Block(LocM, Seq<Seq<TokM>>),
    Object(LocM, Seq<(Seq<char>, Seq<TokM>)>),
    Array(LocM, Seq<Seq<TokM>>),
    Special(LocM, Special),
    Pipe(LocM, Seq<TokM>),
    Dot(LocM),
    Eol(LocM),
}

/// One token of the source language. `Block`, `Object` and `Array` carry
/// the token lines of their delimited contents; `Pipe` carries the token
/// line captured after a `:`.
#[derive(Debug)]
pub enum Token {
    Symbol(Location, String),
    String(Location, String),
    Number(Location, String),
    Block(Location, Vec<Tokens>),
    Object(Location, Vec<(String, Tokens)>),
    Array(Location, Vec<Tokens>),
    Special(Location, Special),
    Pipe(Location, Tokens),
    Dot(Location),
    Eol(Location),
}

/// An ordered sequence of tokens, consumed from the front.
#[derive(Debug)]
pub struct Tokens(pub Vec<Token>);

/// The mathematical value of a token.
pub open spec fn tok_m(t: Token) -> TokM
    decreases t, 0int,
{
    match t {
        Token::Symbol(l, s) => TokM::Symbol(l@, s@),
        Token::String(l, s) => TokM::StrLit(l@, s@),
        Token::Number(l, s) => TokM::Number(l@, s@),
        Token::Block(l, lines) => TokM::Block(l@, lines_m_from(lines, 0)),
        Token::Object(l, entries) => TokM::Object(l@, entries_m_from(entries, 0)),
        Token::Array(l, lines) => TokM::Array(l@, lines_m_from(lines, 0)),
        Token::Special(l, s) => TokM::Special(l@, s),
        Token::Pipe(l, ts) => TokM::Pipe(l@, tokens_m(ts)),
        Token::Dot(l) => TokM::Dot(l@),
        Token::Eol(l) => TokM::Eol(l@),
    }
}

/// The mathematical values of the token lines `lines[i..]`.
pub open spec fn lines_m_from(lines: Vec<Tokens>, i: int) -> Seq<Seq<TokM>>
    decreases lines, lines@.len() - i,
{
    if 0 <= i < lines@.len() {
        proof {
            assert(decreases_to!(lines => lines@));
            assert(decreases_to!(lines@ => lines@[i]));
        }
        seq![tokens_m(lines@[i])] + lines_m_from(lines, i + 1)
    } else {
        Seq::empty()
    }
}

/// The mathematical values of the object entries `entries[i..]`.
pub open spec fn entries_m_from(entries: Vec<(String, Tokens)>, i: int) -> Seq<
    (Seq<char>, Seq<TokM>),
>
    decreases entries, entries@.len() - i,
{
    if 0 <= i < entries@.len() {
        proof {
            assert(decreases_to!(entries => entries@));
            assert(decreases_to!(entries@ => entries@[i]));
            assert(decreases_to!(entries@[i] => entries@[i].1));
        }
        seq![(entries@[i].0@, tokens_m(entries@[i].1))] + entries_m_from(entries, i + 1)
    } else {
        Seq::empty()
    }
}

/// The mathematical values of the tokens `v[i..]`.
pub open spec fn toks_m_from(v: Vec<Token>, i: int) -> Seq<TokM>
    decreases v, v@.len() - i,
{
    if 0 <= i < v@.len() {
        proof {
            assert(decreases_to!(v => v@));
            assert(decreases_to!(v@ => v@[i]));
        }
        seq![tok_m(v@[i])] + toks_m_from(v, i + 1)
    } else {
        Seq::empty()
    }
}

/// The mathematical value of a token sequence.
pub open spec fn tokens_m(ts: Tokens) -> Seq<TokM>
    decreases ts, 0int,
{
    toks_m_from(ts.0, 0)
}

impl View for Tokens {
    type V = Seq<TokM>;

    open spec fn view(&self) -> Seq<TokM> {
        tokens_m(*self)
    }
}

/// The values of `v[i..]` are the values of the elements, in order.
pub proof fn lemma_toks_m_from(v: Vec<Token>, i: int)
    requires
        0 <= i <= v@.len(),
    ensures
        toks_m_from(v, i).len() == v@.len() - i,
        forall|k: int| 0 <= k < v@.len() - i ==> toks_m_from(v, i)[k] == tok_m(v@[k + i]),
    decreases v@.len() - i,
{
    if i < v@.len() {
        lemma_toks_m_from(v, i + 1);
    }
}

/// The values of the lines `lines[i..]` are the values of the elements.
pub proof fn lemma_lines_m_from(lines: Vec<Tokens>, i: int)
    requires
        0 <= i <= lines@.len(),
    ensures
        lines_m_from(lines, i).len() == lines@.len() - i,
        forall|k: int|
            0 <= k < lines@.len() - i ==> lines_m_from(lines, i)[k] == tokens_m(lines@[k + i]),
    decreases lines@.len() - i,
{
    if i < lines@.len() {
        lemma_lines_m_from(lines, i + 1);
    }
}

/// The values of the entries `entries[i..]` are the values of the elements.
pub proof fn lemma_entries_m_from(entries: Vec<(String, Tokens)>, i: int)
    requires
        0 <= i <= entries@.len(),
    ensures
        entries_m_from(entries, i).len() == entries@.len() - i,
        forall|k: int|
            0 <= k < entries@.len() - i ==> entries_m_from(entries, i)[k] == (
            entries@[k + i].0@,
            tokens_m(entries@[k + i].1),
            ),
    decreases entries@.len() - i,
{
    if i < entries@.len() {
        lemma_entries_m_from(entries, i + 1);
    }
}

/// The location carried by a token value.
pub open spec fn tok_loc(t: TokM) -> LocM {
    match t {
        TokM::Symbol(l, _) => l,
        TokM::StrLit(l, _) => l,
        TokM::Number(l, _) => l,
        TokM::Block(l, _) => l,
        TokM::Object(l, _) => l,
        TokM::Array(l, _) => l,
        TokM::Special(l, _) => l,
        TokM::Pipe(l, _) => l,
        TokM::Dot(l) => l,
        TokM::Eol(l) => l,
    }
}

impl Token {
    /// The location the token was read at.
    pub fn loc(&self) -> (r: Location)
        ensures
            r@ == tok_loc(tok_m(*self)),
    {
        match self {
            Token::Symbol(l, ..) => l.clone(),
            Token::String(l, ..) => l.clone(),
            Token::Number(l, ..) => l.clone(),
            Token::Block(l, ..) => l.clone(),
            Token::Object(l, ..) => l.clone(),
            Token::Array(l, ..) => l.clone(),
            Token::Special(l, ..) => l.clone(),
            Token::Pipe(l, ..) => l.clone(),
            Token::Dot(l) => l.clone(),
            Token::Eol(l) => l.clone(),
        }
    }
}

/// Copies a token; the copy has the same mathematical value.
pub fn clone_token(t: &Token) -> (r: Token)
    ensures
        tok_m(r) == tok_m(*t),
    decreases *t,
{
    match t {
        Token::Symbol(l, s) => Token::Symbol(l.clone(), s.clone()),
        Token::String(l, s) => Token::String(l.clone(), s.clone()),
        Token::Number(l, s) => Token::Number(l.clone(), s.clone()),
        Token::Block(l, lines) => Token::Block(l.clone(), clone_lines(lines)),
        Token::Object(l, entries) => Token::Object(l.clone(), clone_entries(entries)),
        Token::Array(l, lines) => Token::Array(l.clone(), clone_lines(lines)),
        Token::Special(l, s) => Token::Special(l.clone(), *s),
        Token::Pipe(l, ts) => Token::Pipe(l.clone(), clone_tokens(ts)),
        Token::Dot(l) => Token::Dot(l.clone()),
        Token::Eol(l) => Token::Eol(l.clone()),
    }
}

/// Copies a list of token lines; the copy has the same mathematical value.
pub fn clone_lines(lines: &Vec<Tokens>) -> (r: Vec<Tokens>)
    ensures
        lines_m_from(r, 0) == lines_m_from(*lines, 0),
    decreases *lines,
{
    let mut v: Vec<Tokens> = Vec::new();
    let mut i: usize = 0;
    while i < lines.len()
        invariant
            i <= lines@.len(),
            v@.len() == i,
            forall|k: int| 0 <= k < i ==> tokens_m(v@[k]) == tokens_m(lines@[k]),
        decreases lines@.len() - i,
    {
        proof {
            assert(decreases_to!(*lines => lines@));
            assert(decreases_to!(lines@ => lines@[i as int]));
            assert(decreases_to!(*lines => lines@[i as int]));
        }
        let t = clone_tokens(&lines[i]);
        v.push(t);
        i += 1;
    }
    proof {
        lemma_lines_m_from(v, 0);
        lemma_lines_m_from(*lines, 0);
        assert(lines_m_from(v, 0) =~= lines_m_from(*lines, 0));
    }
    v
}

/// Copies a list of object entries; the copy has the same mathematical value.
pub fn clone_entries(entries: &Vec<(String, Tokens)>) -> (r: Vec<(String, Tokens)>)
    ensures
        entries_m_from(r, 0) == entries_m_from(*entries, 0),
    decreases *entries,
{
    let mut v: Vec<(String, Tokens)> = Vec::new();
    let mut i: usize = 0;
    while i < entries.len()
        invariant
            i <= entries@.len(),
            v@.len() == i,
            forall|k: int|
                0 <= k < i ==> v@[k].0@ == entries@[k].0@ && tokens_m(v@[k].1) == tokens_m(
                    entries@[k].1,
                ),
        decreases entries@.len() - i,
    {
        proof {
            assert(decreases_to!(*entries => entries@));
            assert(decreases_to!(entries@ => entries@[i as int]));
            assert(decreases_to!(entries@[i as int] => entries@[i as int].1));
            assert(decreases_to!(*entries => entries@[i as int].1));
        }
        let key = entries[i].0.clone();
        let val = clone_tokens(&entries[i].1);
        v.push((key, val));
        i += 1;
    }
    proof {
        lemma_entries_m_from(v, 0);
        lemma_entries_m_from(*entries, 0);
        assert(entries_m_from(v, 0) =~= entries_m_from(*entries, 0));
    }
    v
}

/// Copies a token sequence; the copy has the same mathematical value.
pub fn clone_tokens(ts: &Tokens) -> (r: Tokens)
    ensures
        r@ == ts@,
    decreases *ts,
{
    let mut v: Vec<Token> = Vec::new();
    let mut i: usize = 0;
    while i < ts.0.len()
        invariant
            i <= ts.0@.len(),
            v@.len() == i,
            forall|k: int| 0 <= k < i ==> tok_m(v@[k]) == tok_m(ts.0@[k]),
        decreases ts.0@.len() - i,
    {
        proof {
            assert(decreases_to!(*ts => ts.0));
            assert(decreases_to!(ts.0 => ts.0@));
            assert(decreases_to!(ts.0@ => ts.0@[i as int]));
            assert(decreases_to!(*ts => ts.0@[i as int]));
        }
        let t = clone_token(&ts.0[i]);
        v.push(t);
        i += 1;
    }
    let r = Tokens(v);
    proof {
        lemma_toks_m_from(r.0, 0);
        lemma_toks_m_from(ts.0, 0);
        assert(r@ =~= ts@);
    }
    r
}

impl Clone for Tokens {
    /// Copies the token sequence; the copy has the same mathematical value.
    fn clone(&self) -> (r: Self)
        ensures
            r@ == self@,
    {
        clone_tokens(self)
    }
}

/// The size of a token value: one for the token itself plus the sizes of
/// the token lines it carries. The measure that parsing recursion
/// decreases on.
pub open spec fn tokm_size(t: TokM) -> nat
    decreases t, 0int,
{
    match t {
        TokM::Block(_, lines) => 1 + lines_size(lines, 0),
        TokM::Object(_, entries) => 1 + ents_size(entries, 0),
        TokM::Array(_, lines) => 1 + lines_size(lines, 0),
        TokM::Pipe(_, ts) => 1 + toks_size(ts, 0),
        _ => 1,
    }
}

/// The total size of the tokens `s[i..]`.
pub open spec fn toks_size(s: Seq<TokM>, i: int) -> nat
    decreases s, s.len() - i,
{
    if 0 <= i < s.len() {
        tokm_size(s[i]) + toks_size(s, i + 1)
    } else {
        0
    }
}

/// The total size of the token lines `ls[i..]`, one extra for each line.
pub open spec fn lines_size(ls: Seq<Seq<TokM>>, i: int) -> nat
    decreases ls, ls.len() - i,
{
    if 0 <= i < ls.len() {
        1 + toks_size(ls[i], 0) + lines_size(ls, i + 1)
    } else {
        0
    }
}

/// The total size of the object entries `es[i..]`, one extra per entry.
pub open spec fn ents_size(es: Seq<(Seq<char>, Seq<TokM>)>, i: int) -> nat
    decreases es, es.len() - i,
{
    if 0 <= i < es.len() {
        proof {
            assert(decreases_to!(es => es[i]));
            assert(decreases_to!(es[i] => es[i].1));
        }
        1 + toks_size(es[i].1, 0) + ents_size(es, i + 1)
    } else {
        0
    }
}

/// Equal token runs have equal sizes.
pub proof fn lemma_toks_size_eq(s1: Seq<TokM>, i1: int, s2: Seq<TokM>, i2: int)
    requires
        0 <= i1 <= s1.len(),
        0 <= i2 <= s2.len(),
        s1.len() - i1 == s2.len() - i2,
        forall|k: int| 0 <= k < s1.len() - i1 ==> s1[#[trigger] (i1 + k)] == s2[i2 + k],
    ensures
        toks_size(s1, i1) == toks_size(s2, i2),
    decreases s1.len() - i1,
{
    if i1 < s1.len() {
        assert(s1[i1] == s2[i2]) by {
            assert(s1[i1 + 0] == s2[i2 + 0]);
        }
        assert forall|k: int|
            0 <= k < s1.len() - i1 - 1 implies s1[#[trigger] (i1 + 1 + k)] == s2[i2 + 1 + k] by {
            assert(s1[i1 + (k + 1)] == s2[i2 + (k + 1)]);
        }
        lemma_toks_size_eq(s1, i1 + 1, s2, i2 + 1);
    }
}

/// The size of a tail decomposes through any middle point.
pub proof fn lemma_toks_size_decompose(s: Seq<TokM>, a: int, b: int)
    requires
        0 <= a <= b <= s.len(),
    ensures
        toks_size(s, a) == toks_size(s.subrange(a, b), 0) + toks_size(s, b),
    decreases b - a,
{
    if a == b {
        assert(s.subrange(a, b).len() == 0);
    } else {
        lemma_toks_size_decompose(s, a + 1, b);
        let sub = s.subrange(a, b);
        let sub1 = s.subrange(a + 1, b);
        assert(sub[0] == s[a]);
        assert(forall|k: int| 0 <= k < sub.len() - 1 ==> sub[#[trigger] (1 + k)] == sub1[0 + k]);
        lemma_toks_size_eq(sub, 1, sub1, 0);
    }
}

/// Every token has size at least one, so a run is at least as big as its
/// length.
pub proof fn lemma_toks_size_len(s: Seq<TokM>, i: int)
    requires
        0 <= i <= s.len(),
    ensures
        toks_size(s, i) >= s.len() - i,
    decreases s.len() - i,
{
    if i < s.len() {
        assert(tokm_size(s[i]) >= 1);
        lemma_toks_size_len(s, i + 1);
    }
}

/// Each line counts fully (plus one) toward the size of a line list.
pub proof fn lemma_lines_size_elem(ls: Seq<Seq<TokM>>, i: int, k: int)
    requires
        0 <= i <= k < ls.len(),
    ensures
        lines_size(ls, i) >= 1 + toks_size(ls[k], 0),
    decreases k - i,
{
    if i < k {
        lemma_lines_size_elem(ls, i + 1, k);
    }
}

/// Each entry's value counts fully (plus one) toward the size of an
/// entry list.
pub proof fn lemma_ents_size_elem(es: Seq<(Seq<char>, Seq<TokM>)>, i: int, k: int)
    requires
        0 <= i <= k < es.len(),
    ensures
        ents_size(es, i) >= 1 + toks_size(es[k].1, 0),
    decreases k - i,
{
    if i < k {
        lemma_ents_size_elem(es, i + 1, k);
    }
}

/// Whether a token value is an infix operator token.
pub open spec fn is_special_tok(t: TokM) -> bool {
    t is Special
}

/// The index of the first operator token in a token line, if any.
pub open spec fn first_special(s: Seq<TokM>) -> Option<int>
    decreases s.len(),
{
    if s.len() == 0 {
        None
    } else if is_special_tok(s[0]) {
        Some(0int)
    } else {
        match first_special(s.drop_first()) {
            Some(i) => Some(i + 1),
            None => None,
        }
    }
}

/// `first_special` finds exactly the first operator token.
pub proof fn lemma_first_special_at(s: Seq<TokM>, i: int)
    requires
        0 <= i < s.len(),
        is_special_tok(s[i]),
        forall|k: int| 0 <= k < i ==> !is_special_tok(s[k]),
    ensures
        first_special(s) == Some(i),
    decreases i,
{
    if i > 0 {
        assert(forall|k: int| 0 <= k < i - 1 ==> s.drop_first()[k] == s[k + 1]);
        lemma_first_special_at(s.drop_first(), i - 1);
    }
}

/// If no token of the line is an operator token, `first_special` finds none.
pub proof fn lemma_first_special_none(s: Seq<TokM>)
    requires
        forall|k: int| 0 <= k < s.len() ==> !is_special_tok(s[k]),
    ensures
        first_special(s) is None,
    decreases s.len(),
{
    if s.len() > 0 {
        assert(forall|k: int| 0 <= k < s.len() - 1 ==> s.drop_first()[k] == s[k + 1]);
        lemma_first_special_none(s.drop_first());
    }
}

/// Whether a token value is the `=` operator.
pub open spec fn is_assign_tok(t: TokM) -> bool {
    t matches TokM::Special(_, Special::Assign)
}

/// Whether a token value is the `==` operator.
pub open spec fn is_equality_tok(t: TokM) -> bool {
    t matches TokM::Special(_, Special::Equality)
}

/// The index of the first `=` token in a token line, if any.
pub open spec fn first_assign(s: Seq<TokM>) -> Option<int>
    decreases s.len(),
{
    if s.len() == 0 {
        None
    } else if is_assign_tok(s[0]) {
        Some(0int)
    } else {
        match first_assign(s.drop_first()) {
            Some(i) => Some(i + 1),
            None => None,
        }
    }
}

/// The index of the first `==` token in a token line, if any.
pub open spec fn first_equality(s: Seq<TokM>) -> Option<int>
    decreases s.len(),
{
    if s.len() == 0 {
        None
    } else if is_equality_tok(s[0]) {
        Some(0int)
    } else {
        match first_equality(s.drop_first()) {
            Some(i) => Some(i + 1),
            None => None,
        }
    }
}

/// A found `=` index is in bounds and names an `=` token.
pub proof fn lemma_first_assign_range(s: Seq<TokM>)
    ensures
        first_assign(s) matches Some(i) ==> 0 <= i < s.len() && is_assign_tok(s[i]),
    decreases s.len(),
{
    if s.len() > 0 && !is_assign_tok(s[0]) {
        lemma_first_assign_range(s.drop_first());
    }
}

/// A found `==` index is in bounds and names an `==` token.
pub proof fn lemma_first_equality_range(s: Seq<TokM>)
    ensures
        first_equality(s) matches Some(i) ==> 0 <= i < s.len() && is_equality_tok(s[i]),
    decreases s.len(),
{
    if s.len() > 0 && !is_equality_tok(s[0]) {
        lemma_first_equality_range(s.drop_first());
    }
}

/// `first_assign` finds exactly the first `=` token.
pub proof fn lemma_first_assign_at(s: Seq<TokM>, i: int)
    requires
        0 <= i < s.len(),
        is_assign_tok(s[i]),
        forall|k: int| 0 <= k < i ==> !is_assign_tok(s[k]),
    ensures
        first_assign(s) == Some(i),
    decreases i,
{
    if i > 0 {
        assert(forall|k: int| 0 <= k < i - 1 ==> s.drop_first()[k] == s[k + 1]);
        lemma_first_assign_at(s.drop_first(), i - 1);
    }
}

/// If a token line has no `=` token, `first_assign` finds none.
pub proof fn lemma_first_assign_none(s: Seq<TokM>)
    requires
        forall|k: int| 0 <= k < s.len() ==> !is_assign_tok(s[k]),
    ensures
        first_assign(s) is None,
    decreases s.len(),
{
    if s.len() > 0 {
        assert(forall|k: int| 0 <= k < s.len() - 1 ==> s.drop_first()[k] == s[k + 1]);
        lemma_first_assign_none(s.drop_first());
    }
}

/// `first_equality` finds exactly the first `==` token.
pub proof fn lemma_first_equality_at(s: Seq<TokM>, i: int)
    requires
        0 <= i < s.len(),
        is_equality_tok(s[i]),
        forall|k: int| 0 <= k < i ==> !is_equality_tok(s[k]),
    ensures
        first_equality(s) == Some(i),
    decreases i,
{
    if i > 0 {
        assert(forall|k: int| 0 <= k < i - 1 ==> s.drop_first()[k] == s[k + 1]);
        lemma_first_equality_at(s.drop_first(), i - 1);
    }
}

/// If a token line has no `==` token, `first_equality` finds none.
pub proof fn lemma_first_equality_none(s: Seq<TokM>)
    requires
        forall|k: int| 0 <= k < s.len() ==> !is_equality_tok(s[k]),
    ensures
        first_equality(s) is None,
    decreases s.len(),
{
    if s.len() > 0 {
        assert(forall|k: int| 0 <= k < s.len() - 1 ==> s.drop_first()[k] == s[k + 1]);
        lemma_first_equality_none(s.drop_first());
    }
}

/// Dropping the first token drops its size from the total.
pub proof fn lemma_toks_size_drop_first(s: Seq<TokM>)
    requires
        s.len() > 0,
    ensures
        toks_size(s.drop_first(), 0) == toks_size(s, 1),
        toks_size(s.drop_first(), 0) < toks_size(s, 0),
{
    assert(forall|k: int| 0 <= k < s.len() - 1 ==> s.drop_first()[#[trigger] (0 + k)] == s[1 + k]);
    lemma_toks_size_eq(s.drop_first(), 0, s, 1);
    assert(tokm_size(s[0]) >= 1);
}

/// The location that parse errors cite when no token is left to blame.
pub open spec fn no_loc() -> LocM {
    LocM { file: Seq::empty(), row: 0, col: 0 }
}

/// The result of parsing one expression: the expression's value, or an
/// error location and message.
pub enum ExprRes {
    Done(ExprM),
    Fault(LocM, Seq<char>),
}

/// The result of parsing an object literal's entries.
pub enum ObjRes {
    Done(Seq<(Seq<char>, ExprM)>),
    Fault(LocM, Seq<char>),
}

/// The result of parsing an array literal's elements.
pub enum ArrRes {
    Done(Seq<ExprM>),
    Fault(LocM, Seq<char>),
}

/// The result of parsing a block's expression lines.
pub enum BlockRes {
    Done(Seq<ExprM>),
    Fault(LocM, Seq<char>),
}

/// The result of parsing one declaration: its value and the tokens left.
pub enum DeclRes {
    Done(DeclM, Seq<TokM>),
    Fault(LocM, Seq<char>),
}

/// The result of parsing a whole token stream.
pub enum PrgRes {
    Done(Seq<DeclM>),
    Fault(LocM, Seq<char>),
}

/// The dotted-path name read by `parse_ref`: the concatenation of the
/// leading run of symbol, number and dot tokens, and the tokens left.
pub open spec fn spec_parse_ref(toks: Seq<TokM>) -> (Seq<char>, Seq<TokM>)
    decreases toks.len(),
{
    if toks.len() == 0 {
        (Seq::empty(), toks)
    } else {
        match toks[0] {
            TokM::Dot(_) => {
                let (n, r) = spec_parse_ref(toks.drop_first());
                (seq!['.'] + n, r)
            },
            TokM::Symbol(_, v) => {
                let (n, r) = spec_parse_ref(toks.drop_first());
                (v + n, r)
            },
            TokM::Number(_, v) => {
                let (n, r) = spec_parse_ref(toks.drop_first());
                (v + n, r)
            },
            _ => (Seq::empty(), toks),
        }
    }
}

/// What parsing one expression line yields: the first `=` splits the line
/// into an assignment, else the first `==` into an equality check; a line
/// without operators is a prefix form (`assert:`/`get:`), a literal, or a
/// dotted-path reference.
pub open spec fn spec_parse_expression(toks: Seq<TokM>) -> ExprRes
    decreases toks_size(toks, 0), 0int, 0int,
{
    if first_assign(toks) is Some {
        let i = first_assign(toks)->Some_0;
        proof {
            lemma_first_assign_range(toks);
            lemma_split_sizes(toks, i);
        }
        let left = toks.subrange(0, i);
        let right = toks.subrange(i + 1, toks.len() as int);
        match spec_parse_expression(left) {
            ExprRes::Fault(l, m) => ExprRes::Fault(l, m),
            ExprRes::Done(le) => match spec_parse_expression(right) {
                ExprRes::Fault(l, m) => ExprRes::Fault(l, m),
                ExprRes::Done(re) => ExprRes::Done(
                    ExprM::Assignment(expr_loc(le), Box::new(le), Box::new(re)),
                ),
            },
        }
    } else if first_equality(toks) is Some {
        let i = first_equality(toks)->Some_0;
        proof {
            lemma_first_equality_range(toks);
            lemma_split_sizes(toks, i);
        }
        let left = toks.subrange(0, i);
        let right = toks.subrange(i + 1, toks.len() as int);
        match spec_parse_expression(left) {
            ExprRes::Fault(l, m) => ExprRes::Fault(l, m),
            ExprRes::Done(le) => match spec_parse_expression(right) {
                ExprRes::Fault(l, m) => ExprRes::Fault(l, m),
                ExprRes::Done(re) => ExprRes::Done(
                    ExprM::Equality(expr_loc(le), Box::new(le), Box::new(re)),
                ),
            },
        }
    } else if toks.len() == 0 {
        ExprRes::Fault(no_loc(), "Unknown expression type"@)
    } else {
        match toks[0] {
            TokM::Symbol(loc, name) => {
                if toks.len() > 1 && (toks[1] is Dot) {
                    ExprRes::Done(ExprM::Ref(loc, spec_parse_ref(toks).0))
                } else if name == "true"@ {
                    ExprRes::Done(ExprM::Primitive(loc, PrimM::Boolean(true)))
                } else if name == "false"@ {
                    ExprRes::Done(ExprM::Primitive(loc, PrimM::Boolean(false)))
                } else if name == "assert"@ {
                    proof {
                        lemma_toks_size_drop_first(toks);
                    }
                    match spec_parse_pipe_arg(loc, toks.drop_first()) {
                        ExprRes::Fault(l, m) => ExprRes::Fault(l, m),
                        ExprRes::Done(inner) => ExprRes::Done(ExprM::Assert(loc, Box::new(inner))),
                    }
                } else if name == "get"@ {
                    proof {
                        lemma_toks_size_drop_first(toks);
                    }
                    match spec_parse_pipe_arg(loc, toks.drop_first()) {
                        ExprRes::Fault(l, m) => ExprRes::Fault(l, m),
                        ExprRes::Done(inner) => ExprRes::Done(ExprM::Get(loc, Box::new(inner))),
                    }
                } else {
                    ExprRes::Done(ExprM::Ref(loc, spec_parse_ref(toks).0))
                }
            },
            TokM::Number(loc, text) => {
                if num_text_ok(text) {
                    ExprRes::Done(
                        ExprM::Primitive(
                            loc,
                            PrimM::Number(canon_whole(whole_of(text)), canon_frac(frac_of(text))),
                        ),
                    )
                } else {
                    ExprRes::Fault(loc, "Unable to parse "@ + text + " as a number"@)
                }
            },
            TokM::StrLit(loc, s) => ExprRes::Done(ExprM::Primitive(loc, PrimM::StrLit(s))),
            TokM::Object(loc, entries) => {
                proof {
                    assert(toks_size(toks, 0) == tokm_size(toks[0]) + toks_size(toks, 1));
                    assert(tokm_size(toks[0]) == 1 + ents_size(entries, 0));
                }
                match spec_parse_object(entries, 0) {
                    ObjRes::Fault(l, m) => ExprRes::Fault(l, m),
                    ObjRes::Done(es) => ExprRes::Done(ExprM::Primitive(loc, PrimM::Object(es))),
                }
            },
            TokM::Array(loc, lines) => {
                proof {
                    assert(toks_size(toks, 0) == tokm_size(toks[0]) + toks_size(toks, 1));
                    assert(tokm_size(toks[0]) == 1 + lines_size(lines, 0));
                }
                match spec_parse_array(lines, 0) {
                    ArrRes::Fault(l, m) => ExprRes::Fault(l, m),
                    ArrRes::Done(es) => ExprRes::Done(ExprM::Primitive(loc, PrimM::Array(es))),
                }
            },
            _ => ExprRes::Fault(tok_loc(toks[0]), "Unknown expression type"@),
        }
    }
}

/// What a prefix keyword's argument parses to: the keyword must be
/// followed by a pipe token, whose captured line is parsed as the
/// argument expression.
pub open spec fn spec_parse_pipe_arg(kloc: LocM, rest: Seq<TokM>) -> ExprRes
    decreases toks_size(rest, 0), 1int, 0int,
{
    if rest.len() == 0 {
        ExprRes::Fault(kloc, "expected pipe"@)
    } else {
        match rest[0] {
            TokM::Pipe(_, payload) => {
                proof {
                    assert(toks_size(rest, 0) == tokm_size(rest[0]) + toks_size(rest, 1));
                    assert(tokm_size(rest[0]) == 1 + toks_size(payload, 0));
                }
                spec_parse_expression(payload)
            },
            _ => ExprRes::Fault(kloc, "expected pipe"@),
        }
    }
}

/// What the entries of an object literal parse to, in order: each entry's
/// captured token line parses to the entry's (unevaluated) expression.
pub open spec fn spec_parse_object(entries: Seq<(Seq<char>, Seq<TokM>)>, k: int) -> ObjRes
    decreases ents_size(entries, 0), entries.len() - k, 0int,
{
    if 0 <= k < entries.len() {
        proof {
            lemma_ents_size_elem(entries, 0, k);
        }
        match spec_parse_expression(entries[k].1) {
            ExprRes::Fault(l, m) => ObjRes::Fault(l, m),
            ExprRes::Done(e) => match spec_parse_object(entries, k + 1) {
                ObjRes::Fault(l, m) => ObjRes::Fault(l, m),
                ObjRes::Done(es) => ObjRes::Done(seq![(entries[k].0, e)] + es),
            },
        }
    } else {
        ObjRes::Done(Seq::empty())
    }
}

/// What the elements of an array literal parse to, in order.
pub open spec fn spec_parse_array(lines: Seq<Seq<TokM>>, k: int) -> ArrRes
    decreases lines_size(lines, 0), lines.len() - k, 0int,
{
    if 0 <= k < lines.len() {
        proof {
            lemma_lines_size_elem(lines, 0, k);
        }
        match spec_parse_expression(lines[k]) {
            ExprRes::Fault(l, m) => ArrRes::Fault(l, m),
            ExprRes::Done(e) => match spec_parse_array(lines, k + 1) {
                ArrRes::Fault(l, m) => ArrRes::Fault(l, m),
                ArrRes::Done(es) => ArrRes::Done(seq![e] + es),
            },
        }
    } else {
        ArrRes::Done(Seq::empty())
    }
}

/// What a block's token lines parse to: one expression per non-empty
/// line, empty lines skipped; the first failing line aborts the block.
pub open spec fn spec_parse_block(lines: Seq<Seq<TokM>>, k: int) -> BlockRes
    decreases lines.len() - k,
{
    if 0 <= k < lines.len() {
        if lines[k].len() == 0 {
            spec_parse_block(lines, k + 1)
        } else {
            match spec_parse_expression(lines[k]) {
                ExprRes::Fault(l, m) => BlockRes::Fault(l, m),
                ExprRes::Done(e) => match spec_parse_block(lines, k + 1) {
                    BlockRes::Fault(l, m) => BlockRes::Fault(l, m),
                    BlockRes::Done(es) => BlockRes::Done(seq![e] + es),
                },
            }
        }
    } else {
        BlockRes::Done(Seq::empty())
    }
}

/// What one declaration parses to: only a `test` symbol may start a
/// declaration; it is followed by the test's name and its block.
pub open spec fn spec_parse_declaration(toks: Seq<TokM>) -> DeclRes {
    if toks.len() == 0 {
        DeclRes::Fault(no_loc(), "Unexpected token"@)
    } else {
        match toks[0] {
            TokM::Symbol(loc, name) => {
                if name == "test"@ {
                    spec_parse_test(loc, toks.drop_first())
                } else {
                    DeclRes::Fault(loc, "Unexpected token"@)
                }
            },
            _ => DeclRes::Fault(tok_loc(toks[0]), "Unexpected token"@),
        }
    }
}

/// What a `test` declaration's tail parses to: a string name, then a
/// block token whose lines form the test's expressions.
pub open spec fn spec_parse_test(tloc: LocM, toks: Seq<TokM>) -> DeclRes {
    if toks.len() == 0 {
        DeclRes::Fault(tloc, "Expected test name"@)
    } else {
        match toks[0] {
            TokM::StrLit(_, name) => {
                if toks.len() < 2 {
                    DeclRes::Fault(tloc, "Expected block"@)
                } else {
                    match toks[1] {
                        TokM::Block(bloc, lines) => {
                            match spec_parse_block(lines, 0) {
                                BlockRes::Fault(l, m) => DeclRes::Fault(l, m),
                                BlockRes::Done(es) => DeclRes::Done(
                                    DeclM::Test(
                                        tloc,
                                        name,
                                        BlockM {
                                            loc: bloc,
                                            exprs: es,
                                            scope: ScopeM {
                                                vars: Seq::empty(),
                                                asserts: Seq::empty(),
                                            },
                                        },
                                    ),
                                    toks.subrange(2, toks.len() as int),
                                ),
                            }
                        },
                        _ => DeclRes::Fault(tloc, "Expected block"@),
                    }
                }
            },
            _ => DeclRes::Fault(tloc, "Expected test name"@),
        }
    }
}

/// Both halves of an operator split weigh less than the whole line,
/// together as well as alone.
pub proof fn lemma_split_sizes(toks: Seq<TokM>, i: int)
    requires
        0 <= i < toks.len(),
    ensures
        toks_size(toks.subrange(0, i), 0) < toks_size(toks, 0),
        toks_size(toks.subrange(i + 1, toks.len() as int), 0) < toks_size(toks, 0),
        toks_size(toks.subrange(0, i), 0) + toks_size(
            toks.subrange(i + 1, toks.len() as int),
            0,
        ) < toks_size(toks, 0),
{
    lemma_toks_size_decompose(toks, 0, i);
    lemma_toks_size_decompose(toks, i, i + 1);
    lemma_toks_size_decompose(toks, i + 1, toks.len() as int);
    assert(tokm_size(toks[i]) >= 1);
    let mid = toks.subrange(i, i + 1);
    assert(mid[0] == toks[i]);
    assert(toks_size(mid, 0) == tokm_size(toks[i]) + toks_size(mid, 1));
    assert(toks.subrange(toks.len() as int, toks.len() as int).len() == 0);
}

/// What a whole token stream parses to: declarations in order, line-end
/// tokens between declarations skipped; the first failing declaration
/// aborts the parse.
pub open spec fn spec_parse(toks: Seq<TokM>) -> PrgRes
    decreases toks_size(toks, 0),
{
    if toks.len() == 0 {
        PrgRes::Done(Seq::empty())
    } else if toks[0] is Eol {
        proof {
            lemma_toks_size_drop_first(toks);
        }
        spec_parse(toks.drop_first())
    } else {
        match spec_parse_declaration(toks) {
            DeclRes::Fault(l, m) => PrgRes::Fault(l, m),
            DeclRes::Done(d, rest) => {
                if toks_size(rest, 0) < toks_size(toks, 0) {
                    match spec_parse(rest) {
                        PrgRes::Fault(l, m) => PrgRes::Fault(l, m),
                        PrgRes::Done(ds) => PrgRes::Done(seq![d] + ds),
                    }
                } else {
                    PrgRes::Fault(no_loc(), "Unexpected token"@)
                }
            },
        }
    }
}

/// A declaration leaves strictly fewer tokens than it was given.
pub proof fn lemma_decl_rest_smaller(toks: Seq<TokM>)
    ensures
        spec_parse_declaration(toks) matches DeclRes::Done(_, rest) ==> toks_size(rest, 0)
            < toks_size(toks, 0),
{
    match spec_parse_declaration(toks) {
        DeclRes::Done(_, rest) => {
            let tail = toks.drop_first();
            lemma_toks_size_drop_first(toks);
            assert(rest == tail.subrange(2, tail.len() as int));
            lemma_toks_size_decompose(tail, 0, 2);
            lemma_toks_size_eq(tail.subrange(2, tail.len() as int), 0, tail, 2);
        },
        _ => {},
    }
}

impl Tokens {
    /// An empty token sequence.
    pub fn new() -> (r: Tokens)
        ensures
            r@ == Seq::<TokM>::empty(),
    {
        let r = Tokens(Vec::new());
        proof {
            lemma_toks_m_from(r.0, 0);
            assert(r@ =~= Seq::<TokM>::empty());
        }
        r
    }

    /// How many tokens are left.
    pub fn len(&self) -> (r: usize)
        ensures
            r == self@.len(),
    {
        proof {
            lemma_toks_m_from(self.0, 0);
        }
        self.0.len()
    }

    /// The first remaining token, if any, without consuming it.
    pub fn peek(&self) -> (r: Option<Token>)
        ensures
            match r {
                Some(t) => self@.len() > 0 && tok_m(t) == self@[0],
                None => self@.len() == 0,
            },
    {
        proof {
            lemma_toks_m_from(self.0, 0);
        }
        if self.0.len() > 0 {
            Some(clone_token(&self.0[0]))
        } else {
            None
        }
    }

    /// The remaining token at `index`, if any, without consuming it.
    pub fn peek_at(&self, index: usize) -> (r: Option<Token>)
        ensures
            match r {
                Some(t) => index < self@.len() && tok_m(t) == self@[index as int],
                None => index >= self@.len(),
            },
    {
        proof {
            lemma_toks_m_from(self.0, 0);
        }
        if index < self.0.len() {
            Some(clone_token(&self.0[index]))
        } else {
            None
        }
    }

    /// The last remaining token, if any.
    pub fn last(&self) -> (r: Option<Token>)
        ensures
            match r {
                Some(t) => self@.len() > 0 && tok_m(t) == self@[self@.len() - 1],
                None => self@.len() == 0,
            },
    {
        proof {
            lemma_toks_m_from(self.0, 0);
        }
        if self.0.len() > 0 {
            Some(clone_token(&self.0[self.0.len() - 1]))
        } else {
            None
        }
    }

    /// Consumes and returns the first token, if any.
    pub fn take(&mut self) -> (r: Option<Token>)
        ensures
            match r {
                Some(t) => old(self)@.len() > 0 && tok_m(t) == old(self)@[0] && final(self)@
                    == old(self)@.drop_first(),
                None => old(self)@.len() == 0 && final(self)@ == old(self)@,
            },
    {
        proof {
            lemma_toks_m_from(self.0, 0);
        }
        if self.0.len() > 0 {
            let t = self.0.remove(0);
            proof {
                lemma_toks_m_from(self.0, 0);
                assert(self@ =~= old(self)@.drop_first());
            }
            Some(t)
        } else {
            None
        }
    }

    /// Appends a token at the end.
    pub fn add(&mut self, token: Token)
        ensures
            final(self)@ == old(self)@.push(tok_m(token)),
    {
        proof {
            lemma_toks_m_from(self.0, 0);
        }
        let ghost tm = tok_m(token);
        self.0.push(token);
        proof {
            lemma_toks_m_from(self.0, 0);
            assert(self@ =~= old(self)@.push(tm));
        }
    }

    /// Splits the token line around the first operator token: the operator,
    /// the tokens to its left, and the tokens to its right. Returns `None`
    /// when the line holds no operator token. The line itself is unchanged.
    pub fn split_on_first_special(&mut self) -> (r: Option<(Special, Tokens, Tokens)>)
        ensures
            final(self)@ == old(self)@,
            match r {
                Some((sp, left, right)) => {
                    &&& first_special(old(self)@) matches Some(i)
                    &&& old(self)@[first_special(old(self)@)->Some_0] == TokM::Special(
                        tok_loc(old(self)@[first_special(old(self)@)->Some_0]),
                        sp,
                    )
                    &&& left@ == old(self)@.subrange(0, first_special(old(self)@)->Some_0)
                    &&& right@ == old(self)@.subrange(
                        first_special(old(self)@)->Some_0 + 1,
                        old(self)@.len() as int,
                    )
                },
                None => first_special(old(self)@) is None,
            },
    {
        proof {
            lemma_toks_m_from(self.0, 0);
        }
        let n = self.0.len();
        let mut i: usize = 0;
        while i < n
            invariant
                n == self.0@.len(),
                i <= n,
                *self == *old(self),
                forall|k: int| 0 <= k < i ==> !is_special_tok(self@[k]),
            decreases n - i,
        {
            proof {
                lemma_toks_m_from(self.0, 0);
            }
            let found: Option<Special> = match &self.0[i] {
                Token::Special(_, sp) => Some(*sp),
                _ => None,
            };
            if let Some(sp) = found {
                let mut left = Tokens::new();
                let mut right = Tokens::new();
                let mut x: usize = 0;
                while x < i
                    invariant
                        n == self.0@.len(),
                        i < n,
                        x <= i,
                        *self == *old(self),
                        left@.len() == x,
                        forall|k: int| 0 <= k < x ==> left@[k] == self@[k],
                    decreases i - x,
                {
                    proof {
                        lemma_toks_m_from(self.0, 0);
                    }
                    let t = clone_token(&self.0[x]);
                    left.add(t);
                    x += 1;
                }
                let mut x: usize = i + 1;
                while x < n
                    invariant
                        n == self.0@.len(),
                        i < n,
                        i + 1 <= x <= n,
                        *self == *old(self),
                        right@.len() == x - i - 1,
                        forall|k: int| i + 1 <= k < x ==> right@[k - i - 1] == self@[k],
                    decreases n - x,
                {
                    proof {
                        lemma_toks_m_from(self.0, 0);
                    }
                    let t = clone_token(&self.0[x]);
                    right.add(t);
                    x += 1;
                }
                proof {
                    lemma_toks_m_from(self.0, 0);
                    lemma_first_special_at(self@, i as int);
                    assert(left@ =~= self@.subrange(0, i as int));
                    assert(right@ =~= self@.subrange(i as int + 1, self@.len() as int));
                }
                return Some((sp, left, right));
            }
            i += 1;
        }
        proof {
            lemma_first_special_none(self@);
        }
        None
    }
}

/// A token's value has a given variant exactly when the token does.
pub proof fn lemma_tok_m_variant(t: Token)
    ensures
        (tok_m(t) is Symbol) <==> (t is Symbol),
        (tok_m(t) is StrLit) <==> (t is String),
        (tok_m(t) is Number) <==> (t is Number),
        (tok_m(t) is Block) <==> (t is Block),
        (tok_m(t) is Object) <==> (t is Object),
        (tok_m(t) is Array) <==> (t is Array),
        (tok_m(t) is Special) <==> (t is Special),
        (tok_m(t) is Pipe) <==> (t is Pipe),
        (tok_m(t) is Dot) <==> (t is Dot),
        (tok_m(t) is Eol) <==> (t is Eol),
{
}

/// The result of a parsing step: the parsed value, or the error's
/// location and message.
pub enum ParseResult<T> {
    Done(T),
    Fault(Location, String),
}

impl<T> ParseResult<T> {
    /// The error rendered for the user, or the empty string on success.
    pub fn message(&self) -> (r: String)
        ensures
            match self {
                ParseResult::Fault(loc, err) => r@ == "ParseError: "@ + loc_text(loc@) + ": "@
                    + err@,
                _ => r@ == Seq::<char>::empty(),
            },
    {
        match self {
            ParseResult::Fault(loc, err) => {
                let mut s = "ParseError: ".to_owned();
                let lt = loc.to_string();
                s.append(lt.as_str());
                s.append(": ");
                s.append(err.as_str());
                proof {
                    assert(s@ =~= "ParseError: "@ + loc_text(loc@) + ": "@ + err@);
                }
                s
            },
            _ => String::new(),
        }
    }
}

/// The index of the first `=` token, scanned from the front.
fn find_first_assign(tokens: &Tokens) -> (r: Option<usize>)
    ensures
        match r {
            Some(i) => i < tokens@.len() && first_assign(tokens@) == Some(i as int),
            None => first_assign(tokens@) is None,
        },
{
    proof {
        lemma_toks_m_from(tokens.0, 0);
    }
    let n = tokens.0.len();
    let mut i: usize = 0;
    while i < n
        invariant
            n == tokens.0@.len(),
            i <= n,
            forall|k: int| 0 <= k < i ==> !is_assign_tok(tokens@[k]),
        decreases n - i,
    {
        proof {
            lemma_toks_m_from(tokens.0, 0);
        }
        let hit = match &tokens.0[i] {
            Token::Special(_, Special::Assign) => true,
            _ => false,
        };
        if hit {
            proof {
                lemma_first_assign_at(tokens@, i as int);
            }
            return Some(i);
        }
        proof {
            match tokens.0[i as int] {
                Token::Special(_, sp) => {
                    assert(!is_assign_tok(tokens@[i as int]));
                },
                _ => {
                    lemma_tok_m_variant(tokens.0[i as int]);
                    assert(!is_assign_tok(tokens@[i as int]));
                },
            }
        }
        i += 1;
    }
    proof {
        lemma_first_assign_none(tokens@);
    }
    None
}

/// The index of the first `==` token, scanned from the front.
fn find_first_equality(tokens: &Tokens) -> (r: Option<usize>)
    ensures
        match r {
            Some(i) => i < tokens@.len() && first_equality(tokens@) == Some(i as int),
            None => first_equality(tokens@) is None,
        },
{
    proof {
        lemma_toks_m_from(tokens.0, 0);
    }
    let n = tokens.0.len();
    let mut i: usize = 0;
    while i < n
        invariant
            n == tokens.0@.len(),
            i <= n,
            forall|k: int| 0 <= k < i ==> !is_equality_tok(tokens@[k]),
        decreases n - i,
    {
        proof {
            lemma_toks_m_from(tokens.0, 0);
        }
        let hit = match &tokens.0[i] {
            Token::Special(_, Special::Equality) => true,
            _ => false,
        };
        if hit {
            proof {
                lemma_first_equality_at(tokens@, i as int);
            }
            return Some(i);
        }
        proof {
            match tokens.0[i as int] {
                Token::Special(_, sp) => {
                    assert(!is_equality_tok(tokens@[i as int]));
                },
                _ => {
                    lemma_tok_m_variant(tokens.0[i as int]);
                    assert(!is_equality_tok(tokens@[i as int]));
                },
            }
        }
        i += 1;
    }
    proof {
        lemma_first_equality_none(tokens@);
    }
    None
}

/// A copy of the tokens `tokens[a..b]`.
fn subrange_tokens(tokens: &Tokens, a: usize, b: usize) -> (r: Tokens)
    requires
        a <= b <= tokens@.len(),
    ensures
        r@ == tokens@.subrange(a as int, b as int),
{
    proof {
        lemma_toks_m_from(tokens.0, 0);
    }
    let mut r = Tokens::new();
    let mut i: usize = a;
    while i < b
        invariant
            a <= i <= b <= tokens.0@.len(),
            tokens@.len() == tokens.0@.len(),
            r@.len() == i - a,
            forall|k: int| a <= k < i ==> r@[k - a] == tokens@[k],
        decreases b - i,
    {
        proof {
            lemma_toks_m_from(tokens.0, 0);
        }
        let t = clone_token(&tokens.0[i]);
        r.add(t);
        i += 1;
    }
    proof {
        assert(r@ =~= tokens@.subrange(a as int, b as int));
    }
    r
}

/// Reads a dotted-path reference: the leading run of symbol, number and
/// dot tokens joined into one name. Exactly that run is consumed; the
/// first non-matching token and everything after it remain.
pub fn parse_ref(tokens: &mut Tokens) -> (r: ParseResult<Expression>)
    requires
        old(tokens)@.len() > 0,
    ensures
        r matches ParseResult::Done(e) && expr_m(e) == ExprM::Ref(
            tok_loc(old(tokens)@[0]),
            spec_parse_ref(old(tokens)@).0,
        ),
        final(tokens)@ == spec_parse_ref(old(tokens)@).1,
{
    let ghost t0 = tokens@;
    let loc = match tokens.peek() {
        Some(t) => t.loc(),
        None => Location(String::new(), 0, 0),
    };
    let mut name = String::new();
    loop
        invariant
            t0 == old(tokens)@,
            t0.len() > 0,
            loc@ == tok_loc(t0[0]),
            spec_parse_ref(t0).0 == name@ + spec_parse_ref(tokens@).0,
            spec_parse_ref(t0).1 == spec_parse_ref(tokens@).1,
        decreases tokens@.len(),
    {
        let step: Option<Token> = tokens.peek();
        match step {
            Some(Token::Dot(..)) => {
                let ghost pre = tokens@;
                tokens.take();
                push_char(&mut name, '.');
                proof {
                    assert(spec_parse_ref(pre).0 =~= seq!['.'] + spec_parse_ref(tokens@).0);
                    assert(name@ + spec_parse_ref(tokens@).0 =~= spec_parse_ref(t0).0);
                    assert(spec_parse_ref(pre).1 == spec_parse_ref(tokens@).1);
                }
            },
            Some(Token::Symbol(_, v)) => {
                let ghost pre = tokens@;
                tokens.take();
                name.append(v.as_str());
                proof {
                    assert(spec_parse_ref(pre).0 =~= v@ + spec_parse_ref(tokens@).0);
                    assert(name@ + spec_parse_ref(tokens@).0 =~= spec_parse_ref(t0).0);
                    assert(spec_parse_ref(pre).1 == spec_parse_ref(tokens@).1);
                }
            },
            Some(Token::Number(_, v)) => {
                let ghost pre = tokens@;
                tokens.take();
                name.append(v.as_str());
                proof {
                    assert(spec_parse_ref(pre).0 =~= v@ + spec_parse_ref(tokens@).0);
                    assert(name@ + spec_parse_ref(tokens@).0 =~= spec_parse_ref(t0).0);
                    assert(spec_parse_ref(pre).1 == spec_parse_ref(tokens@).1);
                }
            },
            _ => {
                proof {
                    match step {
                        Some(t) => {
                            lemma_tok_m_variant(t);
                            assert(spec_parse_ref(tokens@).0 =~= Seq::<char>::empty());
                        },
                        None => {
                            assert(spec_parse_ref(tokens@).0 =~= Seq::<char>::empty());
                        },
                    }
                    assert(name@ =~= spec_parse_ref(t0).0);
                    assert(spec_parse_ref(tokens@).1 == tokens@);
                }
                return ParseResult::Done(Expression::Ref(loc, name));
            },
        }
    }
}

/// Parses the entries of an object literal into an (unevaluated) object
/// value.
pub fn parse_object(loc: Location, entries: &Vec<(String, Tokens)>) -> (r: ParseResult<Expression>)
    ensures
        match r {
            ParseResult::Done(e) => spec_parse_object(entries_m_from(*entries, 0), 0)
                matches ObjRes::Done(es) && expr_m(e) == ExprM::Primitive(
                loc@,
                PrimM::Object(es),
            ),
            ParseResult::Fault(l, m) => spec_parse_object(entries_m_from(*entries, 0), 0)
                == ObjRes::Fault(l@, m@),
        },
    decreases ents_size(entries_m_from(*entries, 0), 0), 0int, 1int,
{
    let ghost em = entries_m_from(*entries, 0);
    proof {
        lemma_entries_m_from(*entries, 0);
    }
    let mut out: Vec<(String, Expression)> = Vec::new();
    let mut k: usize = 0;
    while k < entries.len()
        invariant
            em == entries_m_from(*entries, 0),
            em.len() == entries@.len(),
            forall|j: int| 0 <= j < em.len() ==> em[j] == (entries@[j].0@, tokens_m(entries@[j].1)),
            k <= entries@.len(),
            spec_parse_object(em, 0) == match spec_parse_object(em, k as int) {
                ObjRes::Done(es) => ObjRes::Done(crate::runner::obj_m_from(out, 0) + es),
                ObjRes::Fault(l, m) => ObjRes::Fault(l, m),
            },
        decreases entries@.len() - k,
    {
        proof {
            lemma_ents_size_elem(em, 0, k as int);
        }
        let mut ts = clone_tokens(&entries[k].1);
        let res = parse_expression(&mut ts);
        match res {
            ParseResult::Fault(l, m) => {
                proof {
                    assert(spec_parse_object(em, 0) == ObjRes::Fault(l@, m@));
                }
                return ParseResult::Fault(l, m);
            },
            ParseResult::Done(e) => {
                let ghost pre = crate::runner::obj_m_from(out, 0);
                let ghost em_e = expr_m(e);
                let key = entries[k].0.clone();
                proof {
                    crate::runner::lemma_obj_m_from(out, 0);
                }
                out.push((key, e));
                proof {
                    crate::runner::lemma_obj_m_from(out, 0);
                    assert(crate::runner::obj_m_from(out, 0) =~= pre.push((em[k as int].0, em_e)));
                    match spec_parse_object(em, k + 1) {
                        ObjRes::Done(es) => {
                            assert(spec_parse_object(em, k as int) == ObjRes::Done(
                                seq![(em[k as int].0, em_e)] + es,
                            ));
                            assert(pre + (seq![(em[k as int].0, em_e)] + es) =~= pre.push(
                                (em[k as int].0, em_e),
                            ) + es);
                        },
                        ObjRes::Fault(l, m) => {},
                    }
                }
            },
        }
        k += 1;
    }
    proof {
        assert(spec_parse_object(em, em.len() as int) == ObjRes::Done(
            Seq::<(Seq<char>, ExprM)>::empty(),
        ));
        assert(crate::runner::obj_m_from(out, 0) + Seq::<(Seq<char>, ExprM)>::empty()
            =~= crate::runner::obj_m_from(out, 0));
        assert(crate::runner::prim_m(Primitive::Object(out)) == PrimM::Object(
            crate::runner::obj_m_from(out, 0),
        ));
    }
    ParseResult::Done(Expression::Primitive(loc, Primitive::Object(out)))
}

/// Parses the elements of an array literal into an (unevaluated) array
/// value.
pub fn parse_array(loc: Location, lines: &Vec<Tokens>) -> (r: ParseResult<Expression>)
    ensures
        match r {
            ParseResult::Done(e) => spec_parse_array(lines_m_from(*lines, 0), 0)
                matches ArrRes::Done(es) && expr_m(e) == ExprM::Primitive(loc@, PrimM::Array(es)),
            ParseResult::Fault(l, m) => spec_parse_array(lines_m_from(*lines, 0), 0)
                == ArrRes::Fault(l@, m@),
        },
    decreases lines_size(lines_m_from(*lines, 0), 0), 0int, 1int,
{
    let ghost lm = lines_m_from(*lines, 0);
    proof {
        lemma_lines_m_from(*lines, 0);
    }
    let mut out: Vec<Expression> = Vec::new();
    let mut k: usize = 0;
    while k < lines.len()
        invariant
            lm == lines_m_from(*lines, 0),
            lm.len() == lines@.len(),
            forall|j: int| 0 <= j < lm.len() ==> lm[j] == tokens_m(lines@[j]),
            k <= lines@.len(),
            spec_parse_array(lm, 0) == match spec_parse_array(lm, k as int) {
                ArrRes::Done(es) => ArrRes::Done(crate::runner::exprs_m_from(out, 0) + es),
                ArrRes::Fault(l, m) => ArrRes::Fault(l, m),
            },
        decreases lines@.len() - k,
    {
        proof {
            lemma_lines_size_elem(lm, 0, k as int);
        }
        let mut ts = clone_tokens(&lines[k]);
        let res = parse_expression(&mut ts);
        match res {
            ParseResult::Fault(l, m) => {
                proof {
                    assert(spec_parse_array(lm, 0) == ArrRes::Fault(l@, m@));
                }
                return ParseResult::Fault(l, m);
            },
            ParseResult::Done(e) => {
                let ghost pre = crate::runner::exprs_m_from(out, 0);
                let ghost em_e = expr_m(e);
                proof {
                    crate::runner::lemma_exprs_m_from(out, 0);
                }
                out.push(e);
                proof {
                    crate::runner::lemma_exprs_m_from(out, 0);
                    assert(crate::runner::exprs_m_from(out, 0) =~= pre.push(em_e));
                    match spec_parse_array(lm, k + 1) {
                        ArrRes::Done(es) => {
                            assert(spec_parse_array(lm, k as int) == ArrRes::Done(
                                seq![em_e] + es,
                            ));
                            assert(pre + (seq![em_e] + es) =~= pre.push(em_e) + es);
                        },
                        ArrRes::Fault(l, m) => {},
                    }
                }
            },
        }
        k += 1;
    }
    proof {
        assert(spec_parse_array(lm, lm.len() as int) == ArrRes::Done(Seq::<ExprM>::empty()));
        assert(crate::runner::exprs_m_from(out, 0) + Seq::<ExprM>::empty()
            =~= crate::runner::exprs_m_from(out, 0));
        assert(crate::runner::prim_m(Primitive::Array(out)) == PrimM::Array(
            crate::runner::exprs_m_from(out, 0),
        ));
    }
    ParseResult::Done(Expression::Primitive(loc, Primitive::Array(out)))
}

/// Parses the captured argument of an `assert:` prefix form.
pub fn parse_assert(location: Location, tokens: &mut Tokens) -> (r: ParseResult<Expression>)
    ensures
        match r {
            ParseResult::Done(e) => spec_parse_pipe_arg(location@, old(tokens)@)
                matches ExprRes::Done(inner) && expr_m(e) == ExprM::Assert(
                location@,
                Box::new(inner),
            ),
            ParseResult::Fault(l, m) => spec_parse_pipe_arg(location@, old(tokens)@)
                == ExprRes::Fault(l@, m@),
        },
    decreases toks_size(old(tokens)@, 0), 0int, 1int,
{
    match tokens.take() {
        Some(Token::Pipe(_, mut payload)) => {
            proof {
                assert(toks_size(old(tokens)@, 0) == tokm_size(old(tokens)@[0]) + toks_size(
                    old(tokens)@,
                    1,
                ));
            }
            match parse_expression(&mut payload) {
                ParseResult::Done(e) => ParseResult::Done(
                    Expression::Assert(location, Box::new(e)),
                ),
                ParseResult::Fault(l, m) => ParseResult::Fault(l, m),
            }
        },
        Some(other) => {
            proof {
                lemma_tok_m_variant(other);
            }
            ParseResult::Fault(location, "expected pipe".to_owned())
        },
        None => ParseResult::Fault(location, "expected pipe".to_owned()),
    }
}

/// Parses the captured argument of a `get:` prefix form.
pub fn parse_get(location: Location, tokens: &mut Tokens) -> (r: ParseResult<Expression>)
    ensures
        match r {
            ParseResult::Done(e) => spec_parse_pipe_arg(location@, old(tokens)@)
                matches ExprRes::Done(inner) && expr_m(e) == ExprM::Get(location@, Box::new(inner)),
            ParseResult::Fault(l, m) => spec_parse_pipe_arg(location@, old(tokens)@)
                == ExprRes::Fault(l@, m@),
        },
    decreases toks_size(old(tokens)@, 0), 0int, 1int,
{
    match tokens.take() {
        Some(Token::Pipe(_, mut payload)) => {
            proof {
                assert(toks_size(old(tokens)@, 0) == tokm_size(old(tokens)@[0]) + toks_size(
                    old(tokens)@,
                    1,
                ));
            }
            match parse_expression(&mut payload) {
                ParseResult::Done(e) => ParseResult::Done(Expression::Get(location, Box::new(e))),
                ParseResult::Fault(l, m) => ParseResult::Fault(l, m),
            }
        },
        Some(other) => {
            proof {
                lemma_tok_m_variant(other);
            }
            ParseResult::Fault(location, "expected pipe".to_owned())
        },
        None => ParseResult::Fault(location, "expected pipe".to_owned()),
    }
}

/// Builds an assignment from the token lines left and right of a `=`.
pub fn parse_assign(left: &mut Tokens, right: &mut Tokens) -> (r: ParseResult<Expression>)
    ensures
        match r {
            ParseResult::Done(e) => spec_parse_expression(old(left)@) matches ExprRes::Done(le)
                && spec_parse_expression(old(right)@) matches ExprRes::Done(re) && expr_m(e)
                == ExprM::Assignment(expr_loc(le), Box::new(le), Box::new(re)),
            ParseResult::Fault(l, m) => spec_parse_expression(old(left)@) == ExprRes::Fault(l@, m@)
                || (spec_parse_expression(old(left)@) is Done && spec_parse_expression(
                old(right)@,
            ) == ExprRes::Fault(l@, m@)),
        },
    decreases toks_size(old(left)@, 0) + toks_size(old(right)@, 0), 0int, 1int,
{
    match parse_expression(left) {
        ParseResult::Fault(l, m) => ParseResult::Fault(l, m),
        ParseResult::Done(le) => match parse_expression(right) {
            ParseResult::Fault(l, m) => ParseResult::Fault(l, m),
            ParseResult::Done(re) => {
                let lloc = le.loc();
                ParseResult::Done(Expression::Assignment(lloc, Box::new(le), Box::new(re)))
            },
        },
    }
}

/// Builds an equality check from the token lines left and right of a
/// `==`.
pub fn parse_equality(left: &mut Tokens, right: &mut Tokens) -> (r: ParseResult<Expression>)
    ensures
        match r {
            ParseResult::Done(e) => spec_parse_expression(old(left)@) matches ExprRes::Done(le)
                && spec_parse_expression(old(right)@) matches ExprRes::Done(re) && expr_m(e)
                == ExprM::Equality(expr_loc(le), Box::new(le), Box::new(re)),
            ParseResult::Fault(l, m) => spec_parse_expression(old(left)@) == ExprRes::Fault(l@, m@)
                || (spec_parse_expression(old(left)@) is Done && spec_parse_expression(
                old(right)@,
            ) == ExprRes::Fault(l@, m@)),
        },
    decreases toks_size(old(left)@, 0) + toks_size(old(right)@, 0), 0int, 1int,
{
    match parse_expression(left) {
        ParseResult::Fault(l, m) => ParseResult::Fault(l, m),
        ParseResult::Done(le) => match parse_expression(right) {
            ParseResult::Fault(l, m) => ParseResult::Fault(l, m),
            ParseResult::Done(re) => {
                let lloc = le.loc();
                ParseResult::Done(Expression::Equality(lloc, Box::new(le), Box::new(re)))
            },
        },
    }
}

/// Parses one expression line: the first `=` splits it into an
/// assignment, else the first `==` into an equality check; a line without
/// operators is a prefix form, a literal, or a dotted-path reference.
pub fn parse_expression(tokens: &mut Tokens) -> (r: ParseResult<Expression>)
    ensures
        match r {
            ParseResult::Done(e) => spec_parse_expression(old(tokens)@) == ExprRes::Done(
                expr_m(e),
            ),
            ParseResult::Fault(l, m) => spec_parse_expression(old(tokens)@) == ExprRes::Fault(
                l@,
                m@,
            ),
        },
    decreases toks_size(old(tokens)@, 0), 0int, 0int,
{
    let ghost t0 = tokens@;
    let n = tokens.len();
    if let Some(i) = find_first_assign(tokens) {
        proof {
            lemma_split_sizes(t0, i as int);
        }
        let mut left = subrange_tokens(tokens, 0, i);
        let mut right = subrange_tokens(tokens, i + 1, n);
        parse_assign(&mut left, &mut right)
    } else if let Some(i) = find_first_equality(tokens) {
        proof {
            lemma_split_sizes(t0, i as int);
        }
        let mut left = subrange_tokens(tokens, 0, i);
        let mut right = subrange_tokens(tokens, i + 1, n);
        parse_equality(&mut left, &mut right)
    } else {
        match tokens.peek() {
            Some(Token::Symbol(loc, symbol)) => {
                let second_dot = match tokens.peek_at(1) {
                    Some(t) => {
                        proof {
                            lemma_tok_m_variant(t);
                        }
                        match t {
                            Token::Dot(..) => true,
                            _ => false,
                        }
                    },
                    None => false,
                };
                if second_dot {
                    parse_ref(tokens)
                } else if str_eq(symbol.as_str(), "true") {
                    tokens.take();
                    proof {
                        assert(crate::runner::prim_m(Primitive::Boolean(true))
                            == PrimM::Boolean(true));
                    }
                    ParseResult::Done(Expression::Primitive(loc, Primitive::Boolean(true)))
                } else if str_eq(symbol.as_str(), "false") {
                    tokens.take();
                    proof {
                        assert(crate::runner::prim_m(Primitive::Boolean(false))
                            == PrimM::Boolean(false));
                    }
                    ParseResult::Done(Expression::Primitive(loc, Primitive::Boolean(false)))
                } else if str_eq(symbol.as_str(), "assert") {
                    proof {
                        lemma_toks_size_drop_first(t0);
                    }
                    tokens.take();
                    parse_assert(loc, tokens)
                } else if str_eq(symbol.as_str(), "get") {
                    proof {
                        lemma_toks_size_drop_first(t0);
                    }
                    tokens.take();
                    parse_get(loc, tokens)
                } else {
                    parse_ref(tokens)
                }
            },
            Some(Token::Number(loc, number)) => {
                tokens.take();
                match parse_number_text(&number) {
                    Some(nv) => {
                        proof {
                            assert(crate::runner::prim_m(Primitive::Number(nv)) == PrimM::Number(
                                nv.whole@,
                                nv.frac@,
                            ));
                        }
                        ParseResult::Done(Expression::Primitive(loc, Primitive::Number(nv)))
                    },
                    None => {
                        let mut msg = "Unable to parse ".to_owned();
                        msg.append(number.as_str());
                        msg.append(" as a number");
                        proof {
                            assert(msg@ =~= "Unable to parse "@ + number@ + " as a number"@);
                        }
                        ParseResult::Fault(loc, msg)
                    },
                }
            },
            Some(Token::String(loc, s)) => {
                tokens.take();
                proof {
                    assert(crate::runner::prim_m(Primitive::String(s)) == PrimM::StrLit(s@));
                }
                ParseResult::Done(Expression::Primitive(loc, Primitive::String(s)))
            },
            Some(Token::Object(loc, entries)) => {
                proof {
                    assert(toks_size(t0, 0) == tokm_size(t0[0]) + toks_size(t0, 1));
                }
                tokens.take();
                parse_object(loc, &entries)
            },
            Some(Token::Array(loc, lines)) => {
                proof {
                    assert(toks_size(t0, 0) == tokm_size(t0[0]) + toks_size(t0, 1));
                }
                tokens.take();
                parse_array(loc, &lines)
            },
            Some(other) => {
                proof {
                    lemma_tok_m_variant(other);
                }
                let oloc = other.loc();
                ParseResult::Fault(oloc, "Unknown expression type".to_owned())
            },
            None => {
                ParseResult::Fault(
                    Location(String::new(), 0, 0),
                    "Unknown expression type".to_owned(),
                )
            },
        }
    }
}

/// Parses each non-empty token line of a block into one expression.
pub fn parse_block(location: Location, lines: &mut Vec<Tokens>) -> (r: ParseResult<Block>)
    ensures
        match r {
            ParseResult::Done(b) => spec_parse_block(lines_m_from(*old(lines), 0), 0)
                matches BlockRes::Done(es) && b@.loc == location@ && b@.exprs == es
                && b@.scope.vars == Seq::<(Seq<char>, crate::runner::PrimM)>::empty()
                && b@.scope.asserts == Seq::<(LocM, bool)>::empty(),
            ParseResult::Fault(l, m) => spec_parse_block(lines_m_from(*old(lines), 0), 0)
                == BlockRes::Fault(l@, m@),
        },
{
    let ghost lm = lines_m_from(*lines, 0);
    let ghost locm = location@;
    proof {
        lemma_lines_m_from(*lines, 0);
    }
    let mut block = Block::new(location);
    let mut k: usize = 0;
    while k < lines.len()
        invariant
            *lines == *old(lines),
            lm == lines_m_from(*lines, 0),
            lm.len() == lines@.len(),
            forall|j: int| 0 <= j < lm.len() ==> lm[j] == tokens_m(lines@[j]),
            k <= lines@.len(),
            block@.loc == locm,
            locm == location@,
            block@.scope.vars == Seq::<(Seq<char>, crate::runner::PrimM)>::empty(),
            block@.scope.asserts == Seq::<(LocM, bool)>::empty(),
            spec_parse_block(lm, 0) == match spec_parse_block(lm, k as int) {
                BlockRes::Done(es) => BlockRes::Done(block@.exprs + es),
                BlockRes::Fault(l, m) => BlockRes::Fault(l, m),
            },
        decreases lines@.len() - k,
    {
        let len_k = lines[k].len();
        if len_k > 0 {
            let mut ts = clone_tokens(&lines[k]);
            let res = parse_expression(&mut ts);
            match res {
                ParseResult::Fault(l, m) => {
                    proof {
                        assert(spec_parse_block(lm, 0) == BlockRes::Fault(l@, m@));
                    }
                    return ParseResult::Fault(l, m);
                },
                ParseResult::Done(e) => {
                    let ghost pre = block@.exprs;
                    let ghost em_e = expr_m(e);
                    block.add_expression(e);
                    proof {
                        match spec_parse_block(lm, k + 1) {
                            BlockRes::Done(es) => {
                                assert(spec_parse_block(lm, k as int) == BlockRes::Done(
                                    seq![em_e] + es,
                                ));
                                assert(pre + (seq![em_e] + es) =~= pre.push(em_e) + es);
                            },
                            BlockRes::Fault(l, m) => {},
                        }
                    }
                },
            }
        }
        k += 1;
    }
    proof {
        assert(spec_parse_block(lm, lm.len() as int) == BlockRes::Done(Seq::<ExprM>::empty()));
        assert(block@.exprs + Seq::<ExprM>::empty() =~= block@.exprs);
    }
    ParseResult::Done(block)
}

/// Parses a `test` declaration's tail: the test's name, then its block.
pub fn parse_test(location: Location, tokens: &mut Tokens) -> (r: ParseResult<Declaration>)
    ensures
        match r {
            ParseResult::Done(d) => spec_parse_test(location@, old(tokens)@)
                matches DeclRes::Done(dm, rest) && decl_m(d) == dm && final(tokens)@ == rest,
            ParseResult::Fault(l, m) => spec_parse_test(location@, old(tokens)@) == DeclRes::Fault(
                l@,
                m@,
            ),
        },
{
    let ghost t0 = tokens@;
    match tokens.take() {
        Some(Token::String(_, name)) => {
            match tokens.take() {
                Some(Token::Block(bloc, mut lines)) => {
                    match parse_block(bloc, &mut lines) {
                        ParseResult::Fault(l, m) => ParseResult::Fault(l, m),
                        ParseResult::Done(block) => {
                            proof {
                                assert(tokens@ =~= t0.subrange(2, t0.len() as int));
                            }
                            ParseResult::Done(Declaration::Test(location, name, block))
                        },
                    }
                },
                Some(other) => {
                    proof {
                        lemma_tok_m_variant(other);
                    }
                    ParseResult::Fault(location, "Expected block".to_owned())
                },
                None => ParseResult::Fault(location, "Expected block".to_owned()),
            }
        },
        Some(other) => {
            proof {
                lemma_tok_m_variant(other);
            }
            ParseResult::Fault(location, "Expected test name".to_owned())
        },
        None => ParseResult::Fault(location, "Expected test name".to_owned()),
    }
}

/// Parses one declaration: only a `test` symbol may start one.
pub fn parse_declaration(tokens: &mut Tokens) -> (r: ParseResult<Declaration>)
    ensures
        match r {
            ParseResult::Done(d) => spec_parse_declaration(old(tokens)@)
                matches DeclRes::Done(dm, rest) && decl_m(d) == dm && final(tokens)@ == rest,
            ParseResult::Fault(l, m) => spec_parse_declaration(old(tokens)@) == DeclRes::Fault(
                l@,
                m@,
            ),
        },
{
    match tokens.take() {
        Some(Token::Symbol(loc, symbol)) => {
            if str_eq(symbol.as_str(), "test") {
                parse_test(loc, tokens)
            } else {
                ParseResult::Fault(loc, "Unexpected token".to_owned())
            }
        },
        Some(other) => {
            proof {
                lemma_tok_m_variant(other);
            }
            let oloc = other.loc();
            ParseResult::Fault(oloc, "Unexpected token".to_owned())
        },
        None => ParseResult::Fault(Location(String::new(), 0, 0), "Unexpected token".to_owned()),
    }
}

/// Parses a whole token stream into a program: declarations in order,
/// line-end tokens between declarations skipped, aborting at the first
/// failing declaration.
pub fn parse(tokens: &mut Tokens) -> (r: ParseResult<Program>)
    ensures
        match r {
            ParseResult::Done(p) => spec_parse(old(tokens)@) matches PrgRes::Done(ds) && p@ == ds,
            ParseResult::Fault(l, m) => spec_parse(old(tokens)@) == PrgRes::Fault(l@, m@),
        },
{
    let ghost t0 = tokens@;
    let mut program = Program::new();
    proof {
        assert(Seq::<DeclM>::empty() + Seq::<DeclM>::empty() =~= Seq::<DeclM>::empty());
    }
    while tokens.len() > 0
        invariant
            t0 == old(tokens)@,
            spec_parse(t0) == match spec_parse(tokens@) {
                PrgRes::Done(ds) => PrgRes::Done(program@ + ds),
                PrgRes::Fault(l, m) => PrgRes::Fault(l, m),
            },
        decreases toks_size(tokens@, 0),
    {
        let ghost pre = tokens@;
        let ghost built = program@;
        proof {
            lemma_decl_rest_smaller(pre);
            lemma_toks_size_len(pre, 0);
        }
        let leading_eol = match tokens.peek() {
            Some(t) => {
                proof {
                    lemma_tok_m_variant(t);
                }
                match t {
                    Token::Eol(..) => true,
                    _ => false,
                }
            },
            None => false,
        };
        if leading_eol {
            proof {
                lemma_toks_size_drop_first(pre);
            }
            tokens.take();
            continue ;
        }
        match parse_declaration(tokens) {
            ParseResult::Fault(l, m) => {
                proof {
                    assert(spec_parse(pre) == PrgRes::Fault(l@, m@));
                }
                return ParseResult::Fault(l, m);
            },
            ParseResult::Done(d) => {
                let ghost dm = decl_m(d);
                program.add_declaration(d);
                proof {
                    match spec_parse(tokens@) {
                        PrgRes::Done(ds) => {
                            assert(spec_parse(pre) == PrgRes::Done(seq![dm] + ds));
                            assert(built + (seq![dm] + ds) =~= built.push(dm) + ds);
                        },
                        PrgRes::Fault(l, m) => {
                            assert(spec_parse(pre) == PrgRes::Fault(l, m));
                        },
                    }
                }
            },
        }
    }
    proof {
        assert(spec_parse(tokens@) == PrgRes::Done(Seq::<DeclM>::empty()));
        assert(program@ + Seq::<DeclM>::empty() =~= program@);
    }
    ParseResult::Done(program)
}

} // verus!
