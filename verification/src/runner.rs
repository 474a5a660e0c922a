//! The program representation and the tree-walking evaluator.
//!
//! A `Program` owns `Declaration`s; the only declaration kind is a named
//! test with a block of expressions. Executing a test walks its
//! expressions against a fresh `Scope` and records assertion outcomes,
//! which are compiled into a `Feedback` report.

use crate::types::{loc_text, push_char, str_eq, LocM, Location};
use vstd::prelude::*;
use vstd::string::StringExecFns;

verus! {

/// Mathematical value of a [`Primitive`]. A number is held as its
/// canonical decimal form: whole digits and fraction digits.
pub enum PrimM {
    Void,
    Boolean(bool),
    Number(Seq<char>, Seq<char>),
    StrLit(Seq<char>),
    Object(Seq<(Seq<char>, ExprM)>),
    Array(Seq<ExprM>),
}

/// Mathematical value of an [`Expression`].
pub enum ExprM {
    Primitive(LocM, PrimM),
    Assert(LocM, Box<ExprM>),
    Assignment(LocM, Box<ExprM>, Box<ExprM>),
    Equality(LocM, Box<ExprM>, Box<ExprM>),
    Ref(LocM, Seq<char>),
    Get(LocM, Box<ExprM>),
}

/// A number value in canonical decimal form: `whole` holds the digits
/// before the decimal point with no leading zero (except `"0"` itself),
/// `frac` holds the digits after it with no trailing zero. Two number
/// values denote the same number exactly when both parts are equal.
#[derive(Debug)]
pub struct NumberValue {
    pub whole: String,
    pub frac: String,
}

/// An evaluated value of the language. `Object` and `Array` store
/// unevaluated expressions: literal construction does not evaluate, and
/// contents are only forced by dotted-path access.
#[derive(Debug)]
pub enum Primitive {
    Void,
    Boolean(bool),
    Number(NumberValue),
    String(String),
    Object(Vec<(String, Expression)>),
    Array(Vec<Expression>),
}

/// One expression of a test block.
#[derive(Debug)]
pub enum Expression {
    Primitive(Location, Primitive),
    Assert(Location, Box<Expression>),
    Assignment(Location, Box<Expression>, Box<Expression>),
    Equality(Location, Box<Expression>, Box<Expression>),
    Ref(Location, String),
    Get(Location, Box<Expression>),
}

/// The mathematical value of a primitive.
pub open spec fn prim_m(p: Primitive) -> PrimM
    decreases p, 1int,
{
    match p {
        Primitive::Void => PrimM::Void,
        Primitive::Boolean(b) => PrimM::Boolean(b),
        Primitive::Number(n) => PrimM::Number(n.whole@, n.frac@),
        Primitive::String(s) => PrimM::StrLit(s@),
        Primitive::Object(entries) => PrimM::Object(obj_m_from(entries, 0)),
        Primitive::Array(items) => PrimM::Array(exprs_m_from(items, 0)),
    }
}

/// The mathematical values of the object entries `entries[i..]`.
pub open spec fn obj_m_from(entries: Vec<(String, Expression)>, i: int) -> Seq<(Seq<char>, ExprM)>
    decreases entries, entries@.len() - i, 0int,
{
    if 0 <= i < entries@.len() {
        proof {
            assert(decreases_to!(entries => entries@));
            assert(decreases_to!(entries@ => entries@[i]));
            assert(decreases_to!(entries@[i] => entries@[i].1));
        }
        seq![(entries@[i].0@, expr_m(entries@[i].1))] + obj_m_from(entries, i + 1)
    } else {
        Seq::empty()
    }
}

/// The mathematical values of the expressions `v[i..]`.
pub open spec fn exprs_m_from(v: Vec<Expression>, i: int) -> Seq<ExprM>
    decreases v, v@.len() - i, 0int,
{
    if 0 <= i < v@.len() {
        proof {
            assert(decreases_to!(v => v@));
            assert(decreases_to!(v@ => v@[i]));
        }
        seq![expr_m(v@[i])] + exprs_m_from(v, i + 1)
    } else {
        Seq::empty()
    }
}

/// The mathematical value of an expression.
pub open spec fn expr_m(e: Expression) -> ExprM
    decreases e, 0int, 0int,
{
    match e {
        Expression::Primitive(l, p) => ExprM::Primitive(l@, prim_m(p)),
        Expression::Assert(l, inner) => ExprM::Assert(l@, Box::new(expr_m(*inner))),
        Expression::Assignment(l, left, right) => ExprM::Assignment(
            l@,
            Box::new(expr_m(*left)),
            Box::new(expr_m(*right)),
        ),
        Expression::Equality(l, left, right) => ExprM::Equality(
            l@,
            Box::new(expr_m(*left)),
            Box::new(expr_m(*right)),
        ),
        Expression::Ref(l, name) => ExprM::Ref(l@, name@),
        Expression::Get(l, inner) => ExprM::Get(l@, Box::new(expr_m(*inner))),
    }
}

/// The values of the expressions `v[i..]` are the values of the elements.
pub proof fn lemma_exprs_m_from(v: Vec<Expression>, i: int)
    requires
        0 <= i <= v@.len(),
    ensures
        exprs_m_from(v, i).len() == v@.len() - i,
        forall|k: int| 0 <= k < v@.len() - i ==> exprs_m_from(v, i)[k] == expr_m(v@[k + i]),
    decreases v@.len() - i,
{
    if i < v@.len() {
        lemma_exprs_m_from(v, i + 1);
    }
}

/// The values of the entries `entries[i..]` are the values of the elements.
pub proof fn lemma_obj_m_from(entries: Vec<(String, Expression)>, i: int)
    requires
        0 <= i <= entries@.len(),
    ensures
        obj_m_from(entries, i).len() == entries@.len() - i,
        forall|k: int|
            0 <= k < entries@.len() - i ==> obj_m_from(entries, i)[k] == (
            entries@[k + i].0@,
            expr_m(entries@[k + i].1),
            ),
    decreases entries@.len() - i,
{
    if i < entries@.len() {
        lemma_obj_m_from(entries, i + 1);
    }
}

/// The location carried by an expression value.
pub open spec fn expr_loc(e: ExprM) -> LocM {
    match e {
        ExprM::Primitive(l, _) => l,
        ExprM::Assert(l, _) => l,
        ExprM::Assignment(l, _, _) => l,
        ExprM::Equality(l, _, _) => l,
        ExprM::Ref(l, _) => l,
        ExprM::Get(l, _) => l,
    }
}

impl Expression {
    /// The location the expression was parsed at.
    pub fn loc(&self) -> (r: Location)
        ensures
            r@ == expr_loc(expr_m(*self)),
    {
        match self {
            Expression::Assert(l, ..) => l.clone(),
            Expression::Assignment(l, ..) => l.clone(),
            Expression::Equality(l, ..) => l.clone(),
            Expression::Primitive(l, ..) => l.clone(),
            Expression::Ref(l, ..) => l.clone(),
            Expression::Get(l, ..) => l.clone(),
        }
    }
}

/// Copies a number value; the copy has the same mathematical value.
pub fn clone_number(n: &NumberValue) -> (r: NumberValue)
    ensures
        r.whole@ == n.whole@ && r.frac@ == n.frac@,
{
    NumberValue { whole: n.whole.clone(), frac: n.frac.clone() }
}

/// Copies a primitive; the copy has the same mathematical value.
pub fn clone_primitive(p: &Primitive) -> (r: Primitive)
    ensures
        prim_m(r) == prim_m(*p),
    decreases *p, 1int,
{
    match p {
        Primitive::Void => Primitive::Void,
        Primitive::Boolean(b) => Primitive::Boolean(*b),
        Primitive::Number(n) => Primitive::Number(clone_number(n)),
        Primitive::String(s) => Primitive::String(s.clone()),
        Primitive::Object(entries) => Primitive::Object(clone_obj_entries(entries)),
        Primitive::Array(items) => Primitive::Array(clone_expressions(items)),
    }
}

/// Copies a list of object entries; the copy has the same mathematical value.
pub fn clone_obj_entries(entries: &Vec<(String, Expression)>) -> (r: Vec<(String, Expression)>)
    ensures
        obj_m_from(r, 0) == obj_m_from(*entries, 0),
    decreases *entries, 0int,
{
    let mut v: Vec<(String, Expression)> = Vec::new();
    let mut i: usize = 0;
    while i < entries.len()
        invariant
            i <= entries@.len(),
            v@.len() == i,
            forall|k: int|
                0 <= k < i ==> v@[k].0@ == entries@[k].0@ && expr_m(v@[k].1) == expr_m(
                    entries@[k].1,
                ),
        decreases entries@.len() - i,
    {
        proof {
            assert(decreases_to!(*entries => entries@));
            assert(decreases_to!(entries@ => entries@[i as int]));
            assert(decreases_to!(entries@[i as int] => entries@[i as int].1));
            assert(decreases_to!(*entries => entries@[i as int].1));
        }
        let key = entries[i].0.clone();
        let val = clone_expression(&entries[i].1);
        v.push((key, val));
        i += 1;
    }
    proof {
        lemma_obj_m_from(v, 0);
        lemma_obj_m_from(*entries, 0);
        assert(obj_m_from(v, 0) =~= obj_m_from(*entries, 0));
    }
    v
}

/// Copies a list of expressions; the copy has the same mathematical value.
pub fn clone_expressions(v: &Vec<Expression>) -> (r: Vec<Expression>)
    ensures
        exprs_m_from(r, 0) == exprs_m_from(*v, 0),
    decreases *v, 0int,
{
    let mut out: Vec<Expression> = Vec::new();
    let mut i: usize = 0;
    while i < v.len()
        invariant
            i <= v@.len(),
            out@.len() == i,
            forall|k: int| 0 <= k < i ==> expr_m(out@[k]) == expr_m(v@[k]),
        decreases v@.len() - i,
    {
        proof {
            assert(decreases_to!(*v => v@));
            assert(decreases_to!(v@ => v@[i as int]));
            assert(decreases_to!(*v => v@[i as int]));
        }
        let e = clone_expression(&v[i]);
        out.push(e);
        i += 1;
    }
    proof {
        lemma_exprs_m_from(out, 0);
        lemma_exprs_m_from(*v, 0);
        assert(exprs_m_from(out, 0) =~= exprs_m_from(*v, 0));
    }
    out
}

/// Whether a character is a decimal digit.
pub open spec fn is_digit_ch(c: char) -> bool {
    '0' as int <= c as int && c as int <= '9' as int
}

/// The numeric value of a digit character.
pub open spec fn digit_val(c: char) -> int {
    c as int - '0' as int
}

/// The index of the first `.` in a character sequence, if any.
pub open spec fn first_dot(s: Seq<char>) -> Option<int>
    decreases s.len(),
{
    if s.len() == 0 {
        None
    } else if s[0] == '.' {
        Some(0int)
    } else {
        match first_dot(s.drop_first()) {
            Some(i) => Some(i + 1),
            None => None,
        }
    }
}

/// `first_dot` finds exactly the first `.`.
pub proof fn lemma_first_dot_at(s: Seq<char>, i: int)
    requires
        0 <= i < s.len(),
        s[i] == '.',
        forall|k: int| 0 <= k < i ==> s[k] != '.',
    ensures
        first_dot(s) == Some(i),
    decreases i,
{
    if i > 0 {
        assert(forall|k: int| 0 <= k < i - 1 ==> s.drop_first()[k] == s[k + 1]);
        lemma_first_dot_at(s.drop_first(), i - 1);
    }
}

/// If a character sequence has no `.`, `first_dot` finds none.
pub proof fn lemma_first_dot_none(s: Seq<char>)
    requires
        forall|k: int| 0 <= k < s.len() ==> s[k] != '.',
    ensures
        first_dot(s) is None,
    decreases s.len(),
{
    if s.len() > 0 {
        assert(forall|k: int| 0 <= k < s.len() - 1 ==> s.drop_first()[k] == s[k + 1]);
        lemma_first_dot_none(s.drop_first());
    }
}

/// Whether a character sequence is a valid number text: only digits and
/// at most one decimal point, with at least one digit.
pub open spec fn num_text_ok(s: Seq<char>) -> bool {
    &&& forall|i: int| 0 <= i < s.len() ==> is_digit_ch(s[i]) || s[i] == '.'
    &&& forall|i: int, j: int|
        0 <= i < s.len() && 0 <= j < s.len() && s[i] == '.' && s[j] == '.' ==> i == j
    &&& exists|i: int| 0 <= i < s.len() && is_digit_ch(s[i])
}

/// The digits before the first decimal point.
pub open spec fn whole_of(s: Seq<char>) -> Seq<char> {
    match first_dot(s) {
        Some(i) => s.subrange(0, i),
        None => s,
    }
}

/// The digits after the first decimal point, or empty without one.
pub open spec fn frac_of(s: Seq<char>) -> Seq<char> {
    match first_dot(s) {
        Some(i) => s.subrange(i + 1, s.len() as int),
        None => Seq::empty(),
    }
}

/// `s` with its leading `'0'` characters removed.
pub open spec fn strip_leading_zeros(s: Seq<char>) -> Seq<char>
    decreases s.len(),
{
    if s.len() > 0 && s[0] == '0' {
        strip_leading_zeros(s.drop_first())
    } else {
        s
    }
}

/// `s` with its trailing `'0'` characters removed.
pub open spec fn strip_trailing_zeros(s: Seq<char>) -> Seq<char>
    decreases s.len(),
{
    if s.len() > 0 && s[s.len() - 1] == '0' {
        strip_trailing_zeros(s.drop_last())
    } else {
        s
    }
}

/// The canonical whole part: leading zeros stripped, `"0"` when nothing
/// is left.
pub open spec fn canon_whole(s: Seq<char>) -> Seq<char> {
    if strip_leading_zeros(s).len() == 0 {
        seq!['0']
    } else {
        strip_leading_zeros(s)
    }
}

/// The canonical fraction part: trailing zeros stripped.
pub open spec fn canon_frac(s: Seq<char>) -> Seq<char> {
    strip_trailing_zeros(s)
}

/// Stripping leading zeros keeps the suffix from the first non-zero on.
pub proof fn lemma_strip_leading(s: Seq<char>, k: int)
    requires
        0 <= k <= s.len(),
        forall|i: int| 0 <= i < k ==> s[i] == '0',
        k < s.len() ==> s[k] != '0',
    ensures
        strip_leading_zeros(s) =~= s.subrange(k, s.len() as int),
    decreases k,
{
    if k == 0 {
        if s.len() > 0 && s[0] == '0' {
            assert(false);
        }
        assert(strip_leading_zeros(s) =~= s.subrange(0, s.len() as int));
    } else {
        assert(s[0] == '0');
        assert(forall|i: int| 0 <= i < k - 1 ==> s.drop_first()[i] == s[i + 1]);
        lemma_strip_leading(s.drop_first(), k - 1);
        assert(s.drop_first().subrange(k - 1, s.drop_first().len() as int) =~= s.subrange(
            k,
            s.len() as int,
        ));
    }
}

/// Stripping trailing zeros keeps the prefix up to the last non-zero.
pub proof fn lemma_strip_trailing(s: Seq<char>, k: int)
    requires
        0 <= k <= s.len(),
        forall|i: int| k <= i < s.len() ==> s[i] == '0',
        k > 0 ==> s[k - 1] != '0',
    ensures
        strip_trailing_zeros(s) =~= s.subrange(0, k),
    decreases s.len() - k,
{
    if k == s.len() {
        if s.len() > 0 && s[s.len() - 1] == '0' {
            assert(false);
        }
        assert(strip_trailing_zeros(s) =~= s.subrange(0, k));
    } else {
        assert(s[s.len() - 1] == '0');
        lemma_strip_trailing(s.drop_last(), k);
    }
}

/// Decides whether a character is a decimal digit.
pub fn is_digit_exec(c: char) -> (r: bool)
    ensures
        r == is_digit_ch(c),
{
    c >= '0' && c <= '9'
}

/// Parses a number text into its canonical decimal form. Returns `None`
/// exactly when the text is not a valid number.
pub fn parse_number_text(s: &String) -> (r: Option<NumberValue>)
    ensures
        r is Some <==> num_text_ok(s@),
        r matches Some(n) ==> n.whole@ == canon_whole(whole_of(s@)) && n.frac@ == canon_frac(
            frac_of(s@),
        ),
{
    let cs = crate::types::chars_of(s.as_str());
    let n = cs.len();
    let mut dot: Option<usize> = None;
    let mut seen_digit = false;
    let mut i: usize = 0;
    while i < n
        invariant
            n == cs@.len(),
            cs@ == s@,
            i <= n,
            forall|k: int| 0 <= k < i ==> is_digit_ch(cs@[k]) || cs@[k] == '.',
            match dot {
                Some(d) => d < i && cs@[d as int] == '.' && forall|k: int|
                    0 <= k < i && k != d ==> cs@[k] != '.',
                None => forall|k: int| 0 <= k < i ==> cs@[k] != '.',
            },
            seen_digit <==> exists|k: int| 0 <= k < i && is_digit_ch(cs@[k]),
        decreases n - i,
    {
        let c = cs[i];
        if c == '.' {
            if dot.is_some() {
                proof {
                    assert(!num_text_ok(s@));
                }
                return None;
            }
            dot = Some(i);
        } else if is_digit_exec(c) {
            seen_digit = true;
        } else {
            proof {
                assert(!(is_digit_ch(cs@[i as int]) || cs@[i as int] == '.'));
                assert(!num_text_ok(s@));
            }
            return None;
        }
        i += 1;
    }
    if !seen_digit {
        proof {
            assert(!num_text_ok(s@));
        }
        return None;
    }
    proof {
        assert(num_text_ok(s@));
        match dot {
            Some(d) => lemma_first_dot_at(s@, d as int),
            None => lemma_first_dot_none(s@),
        }
    }
    let wend: usize = match dot {
        Some(d) => d,
        None => n,
    };
    let fstart: usize = match dot {
        Some(d) => d + 1,
        None => n,
    };
    // Strip leading zeros of the whole part.
    let mut ws: usize = 0;
    while ws < wend && cs[ws] == '0'
        invariant
            n == cs@.len(),
            cs@ == s@,
            wend <= n,
            ws <= wend,
            forall|k: int| 0 <= k < ws ==> cs@[k] == '0',
        decreases wend - ws,
    {
        ws += 1;
    }
    // Strip trailing zeros of the fraction part.
    let mut fend: usize = n;
    while fend > fstart && cs[fend - 1] == '0'
        invariant
            n == cs@.len(),
            cs@ == s@,
            fstart <= fend <= n,
            forall|k: int| fend <= k < n ==> cs@[k] == '0',
        decreases fend,
    {
        fend -= 1;
    }
    let mut whole = String::new();
    if ws == wend {
        push_char(&mut whole, '0');
    } else {
        let mut k: usize = ws;
        while k < wend
            invariant
                n == cs@.len(),
                cs@ == s@,
                ws <= k <= wend <= n,
                whole@ == s@.subrange(ws as int, k as int),
            decreases wend - k,
        {
            push_char(&mut whole, cs[k]);
            proof {
                assert(whole@ =~= s@.subrange(ws as int, k + 1));
            }
            k += 1;
        }
    }
    let mut frac = String::new();
    let mut k: usize = fstart;
    while k < fend
        invariant
            n == cs@.len(),
            cs@ == s@,
            fstart <= k <= fend <= n,
            frac@ == s@.subrange(fstart as int, k as int),
        decreases fend - k,
    {
        push_char(&mut frac, cs[k]);
        proof {
            assert(frac@ =~= s@.subrange(fstart as int, k + 1));
        }
        k += 1;
    }
    proof {
        lemma_strip_leading(whole_of(s@), ws as int);
        if ws == wend {
            assert(whole@ =~= canon_whole(whole_of(s@)));
        } else {
            assert(whole_of(s@).subrange(ws as int, whole_of(s@).len() as int) =~= s@.subrange(
                ws as int,
                wend as int,
            ));
            assert(whole@ =~= canon_whole(whole_of(s@)));
        }
        lemma_strip_trailing(frac_of(s@), fend - fstart);
        assert(frac_of(s@).subrange(0, fend - fstart) =~= s@.subrange(
            fstart as int,
            fend as int,
        ));
        assert(frac@ =~= canon_frac(frac_of(s@)));
    }
    Some(NumberValue { whole, frac })
}

/// Copies an expression; the copy has the same mathematical value.
pub fn clone_expression(e: &Expression) -> (r: Expression)
    ensures
        expr_m(r) == expr_m(*e),
    decreases *e, 2int,
{
    match e {
        Expression::Primitive(l, p) => Expression::Primitive(l.clone(), clone_primitive(p)),
        Expression::Assert(l, inner) => Expression::Assert(
            l.clone(),
            Box::new(clone_expression(inner)),
        ),
        Expression::Assignment(l, left, right) => Expression::Assignment(
            l.clone(),
            Box::new(clone_expression(left)),
            Box::new(clone_expression(right)),
        ),
        Expression::Equality(l, left, right) => Expression::Equality(
            l.clone(),
            Box::new(clone_expression(left)),
            Box::new(clone_expression(right)),
        ),
        Expression::Ref(l, name) => Expression::Ref(l.clone(), name.clone()),
        Expression::Get(l, inner) => Expression::Get(l.clone(), Box::new(clone_expression(inner))),
    }
}

/// Whether two evaluated values are equal. Values of different kinds are
/// unequal (never a type error); `Void` equals `Void`; booleans, numbers
/// and strings compare by value. A comparison involving an object or an
/// array yields false: deep equality of compound literals is not part of
/// the language.
pub open spec fn prim_eq(a: PrimM, b: PrimM) -> bool {
    match (a, b) {
        (PrimM::Void, PrimM::Void) => true,
        (PrimM::Boolean(x), PrimM::Boolean(y)) => x == y,
        (PrimM::Number(w1, f1), PrimM::Number(w2, f2)) => w1 == w2 && f1 == f2,
        (PrimM::StrLit(x), PrimM::StrLit(y)) => x == y,
        _ => false,
    }
}

/// One recorded assertion outcome: where it was written, and whether it
/// held.
#[derive(Debug)]
pub struct Assert(pub Location, pub bool);

impl Assert {
    /// The location of the recorded assertion.
    pub fn loc(&self) -> (r: Location)
        ensures
            r@ == self.0@,
    {
        self.0.clone()
    }

    /// Whether the recorded assertion held.
    pub fn passed(&self) -> (r: bool)
        ensures
            r == self.1,
    {
        self.1
    }
}

/// Mathematical value of a [`Scope`]: the bindings as an ordered list of
/// (name, value) pairs, latest binding last, and the recorded assertion
/// outcomes in order.
pub struct ScopeM {
    pub vars: Seq<(Seq<char>, PrimM)>,
    pub asserts: Seq<(LocM, bool)>,
}

/// The value bound to `name`: the latest binding wins.
pub open spec fn scope_lookup(vars: Seq<(Seq<char>, PrimM)>, name: Seq<char>) -> Option<PrimM>
    decreases vars.len(),
{
    if vars.len() == 0 {
        None
    } else if vars.last().0 == name {
        Some(vars.last().1)
    } else {
        scope_lookup(vars.drop_last(), name)
    }
}

/// A test block's variable store and assertion log. One scope lives per
/// block run; there is no scope nesting.
#[derive(Debug)]
pub struct Scope {
    pub vars: Vec<(String, Primitive)>,
    pub asserts: Vec<Assert>,
}

impl View for Scope {
    type V = ScopeM;

    open spec fn view(&self) -> ScopeM {
        ScopeM {
            vars: Seq::new(self.vars@.len(), |i: int| (self.vars@[i].0@, prim_m(self.vars@[i].1))),
            asserts: Seq::new(
                self.asserts@.len(),
                |i: int| (self.asserts@[i].0@, self.asserts@[i].1),
            ),
        }
    }
}

impl Scope {
    /// An empty scope: no bindings, no recorded assertions.
    pub fn new() -> (r: Scope)
        ensures
            r@.vars == Seq::<(Seq<char>, PrimM)>::empty(),
            r@.asserts == Seq::<(LocM, bool)>::empty(),
    {
        let r = Scope { vars: Vec::new(), asserts: Vec::new() };
        proof {
            assert(r@.vars =~= Seq::<(Seq<char>, PrimM)>::empty());
            assert(r@.asserts =~= Seq::<(LocM, bool)>::empty());
        }
        r
    }

    /// Binds `name` to `value`; a later binding shadows an earlier one.
    pub fn set_var(&mut self, name: &String, value: &Primitive)
        ensures
            final(self)@.vars == old(self)@.vars.push((name@, prim_m(*value))),
            final(self)@.asserts == old(self)@.asserts,
    {
        let p = clone_primitive(value);
        self.vars.push((name.clone(), p));
        proof {
            assert(self@.vars =~= old(self)@.vars.push((name@, prim_m(*value))));
            assert(self@.asserts =~= old(self)@.asserts);
        }
    }

    /// The value bound to `name`, if any (a flat lookup: dotted paths are
    /// resolved by the evaluator, not here).
    pub fn get(&self, name: &String) -> (r: Option<Primitive>)
        ensures
            match r {
                Some(p) => scope_lookup(self@.vars, name@) == Some(prim_m(p)),
                None => scope_lookup(self@.vars, name@) is None,
            },
    {
        let mut i: usize = self.vars.len();
        proof {
            assert(self@.vars.take(i as int) =~= self@.vars);
        }
        while i > 0
            invariant
                i <= self.vars@.len(),
                scope_lookup(self@.vars, name@) == scope_lookup(
                    self@.vars.take(i as int),
                    name@,
                ),
            decreases i,
        {
            i -= 1;
            proof {
                assert(self@.vars[i as int] == (
                    self.vars@[i as int].0@,
                    prim_m(self.vars@[i as int].1),
                ));
                assert(self@.vars.take(i + 1).len() == i + 1);
                assert(self@.vars.take(i + 1).last() == self@.vars[i as int]);
            }
            if self.vars[i].0 == *name {
                return Some(clone_primitive(&self.vars[i].1));
            }
            proof {
                assert(self@.vars.take(i + 1).last().0 != name@);
                assert(self@.vars.take(i + 1).drop_last() =~= self@.vars.take(i as int));
            }
        }
        proof {
            assert(self@.vars.take(0) =~= Seq::<(Seq<char>, PrimM)>::empty());
        }
        None
    }

    /// Records an assertion outcome at `location`.
    pub fn record_assert(&mut self, location: Location, passed: bool)
        ensures
            final(self)@.vars == old(self)@.vars,
            final(self)@.asserts == old(self)@.asserts.push((location@, passed)),
    {
        let ghost lm = location@;
        self.asserts.push(Assert(location, passed));
        proof {
            assert(self@.vars =~= old(self)@.vars);
            assert(self@.asserts =~= old(self)@.asserts.push((lm, passed)));
        }
    }
}

/// Copies a scope; the copy has the same mathematical value.
pub fn clone_scope(s: &Scope) -> (r: Scope)
    ensures
        r@ == s@,
{
    let mut vars: Vec<(String, Primitive)> = Vec::new();
    let mut i: usize = 0;
    while i < s.vars.len()
        invariant
            i <= s.vars@.len(),
            vars@.len() == i,
            forall|k: int|
                0 <= k < i ==> vars@[k].0@ == s.vars@[k].0@ && prim_m(vars@[k].1) == prim_m(
                    s.vars@[k].1,
                ),
        decreases s.vars@.len() - i,
    {
        let key = s.vars[i].0.clone();
        let val = clone_primitive(&s.vars[i].1);
        vars.push((key, val));
        i += 1;
    }
    let mut asserts: Vec<Assert> = Vec::new();
    let mut i: usize = 0;
    while i < s.asserts.len()
        invariant
            i <= s.asserts@.len(),
            asserts@.len() == i,
            forall|k: int|
                0 <= k < i ==> asserts@[k].0@ == s.asserts@[k].0@ && asserts@[k].1
                    == s.asserts@[k].1,
        decreases s.asserts@.len() - i,
    {
        let a = Assert(s.asserts[i].0.clone(), s.asserts[i].1);
        asserts.push(a);
        i += 1;
    }
    let r = Scope { vars, asserts };
    proof {
        assert(r@.vars =~= s@.vars);
        assert(r@.asserts =~= s@.asserts);
    }
    r
}

/// Mathematical value of a [`Block`].
pub struct BlockM {
    pub loc: LocM,
    pub exprs: Seq<ExprM>,
    pub scope: ScopeM,
}

/// A braced sequence of expressions together with its private scope. The
/// scope starts empty at parse time; execution runs against a fresh scope
/// each time, so a block can be run repeatedly.
#[derive(Debug)]
pub struct Block(pub Location, pub Vec<Expression>, pub Scope);

impl View for Block {
    type V = BlockM;

    open spec fn view(&self) -> BlockM {
        BlockM {
            loc: self.0@,
            exprs: Seq::new(self.1@.len(), |i: int| expr_m(self.1@[i])),
            scope: self.2@,
        }
    }
}

impl Block {
    /// An empty block at `location`, with an empty scope.
    pub fn new(location: Location) -> (r: Block)
        ensures
            r@.loc == location@,
            r@.exprs == Seq::<ExprM>::empty(),
            r@.scope.vars == Seq::<(Seq<char>, PrimM)>::empty(),
            r@.scope.asserts == Seq::<(LocM, bool)>::empty(),
    {
        let r = Block(location, Vec::new(), Scope::new());
        proof {
            assert(r@.exprs =~= Seq::<ExprM>::empty());
        }
        r
    }

    /// Appends an expression to the block.
    pub fn add_expression(&mut self, expression: Expression)
        ensures
            final(self)@.loc == old(self)@.loc,
            final(self)@.exprs == old(self)@.exprs.push(expr_m(expression)),
            final(self)@.scope == old(self)@.scope,
    {
        let ghost em = expr_m(expression);
        self.1.push(expression);
        proof {
            assert(self@.exprs =~= old(self)@.exprs.push(em));
        }
    }

    /// The location of the block's opening brace.
    pub fn loc(&self) -> (r: Location)
        ensures
            r@ == self@.loc,
    {
        self.0.clone()
    }

    /// A copy of the block's expressions, in order.
    pub fn expressions(&self) -> (r: Vec<Expression>)
        ensures
            r@.len() == self@.exprs.len(),
            forall|k: int| 0 <= k < r@.len() ==> expr_m(r@[k]) == self@.exprs[k],
    {
        let r = clone_expressions(&self.1);
        proof {
            lemma_exprs_m_from(r, 0);
            lemma_exprs_m_from(self.1, 0);
            assert forall|k: int| 0 <= k < r@.len() implies expr_m(r@[k]) == self@.exprs[k] by {
                assert(exprs_m_from(r, 0)[k] == expr_m(r@[k]));
                assert(exprs_m_from(self.1, 0)[k] == expr_m(self.1@[k]));
            }
        }
        r
    }

    /// A copy of the block's scope.
    pub fn scope(&self) -> (r: Scope)
        ensures
            r@ == self@.scope,
    {
        clone_scope(&self.2)
    }
}

/// Mathematical value of a [`Declaration`].
pub enum DeclM {
    Test(LocM, Seq<char>, BlockM),
}

/// A top-level named unit. The only kind today is a named test.
#[derive(Debug)]
pub enum Declaration {
    Test(Location, String, Block),
}

/// The mathematical value of a declaration.
pub open spec fn decl_m(d: Declaration) -> DeclM {
    match d {
        Declaration::Test(l, name, block) => DeclM::Test(l@, name@, block@),
    }
}

/// The ordered declarations of a program.
#[derive(Debug)]
pub struct Declarations(pub Vec<Declaration>);

impl View for Declarations {
    type V = Seq<DeclM>;

    open spec fn view(&self) -> Seq<DeclM> {
        Seq::new(self.0@.len(), |i: int| decl_m(self.0@[i]))
    }
}

impl Declarations {
    /// An empty list of declarations.
    pub fn new() -> (r: Declarations)
        ensures
            r@ == Seq::<DeclM>::empty(),
    {
        let r = Declarations(Vec::new());
        proof {
            assert(r@ =~= Seq::<DeclM>::empty());
        }
        r
    }
}

/// A parsed program: an ordered list of declarations.
#[derive(Debug)]
pub struct Program {
    pub declarations: Declarations,
}

impl View for Program {
    type V = Seq<DeclM>;

    open spec fn view(&self) -> Seq<DeclM> {
        self.declarations@
    }
}

impl Program {
    /// An empty program.
    pub fn new() -> (r: Program)
        ensures
            r@ == Seq::<DeclM>::empty(),
    {
        Program { declarations: Declarations::new() }
    }

    /// Appends a declaration at the end of the program.
    pub fn add_declaration(&mut self, declaration: Declaration)
        ensures
            final(self)@ == old(self)@.push(decl_m(declaration)),
    {
        let ghost dm = decl_m(declaration);
        self.declarations.0.push(declaration);
        proof {
            assert(self@ =~= old(self)@.push(dm));
        }
    }
}

/// The line reporting a passed test.
pub open spec fn pass_line(name: Seq<char>) -> Seq<char> {
    "\t✓\t"@ + name
}

/// The rendered list of failed assertion locations, joined by the
/// per-assertion prefix.
pub open spec fn join_locs(locs: Seq<LocM>) -> Seq<char>
    decreases locs.len(),
{
    if locs.len() == 0 {
        Seq::empty()
    } else if locs.len() == 1 {
        loc_text(locs[0])
    } else {
        loc_text(locs[0]) + "\n\t\t- assert "@ + join_locs(locs.drop_first())
    }
}

/// The line (with sub-lines) reporting a failed test: the test name, then
/// one sub-line per failed assertion location.
pub open spec fn fail_line(name: Seq<char>, locs: Seq<LocM>) -> Seq<char> {
    "\t❌\t"@ + name + "\n\t\t- assert "@ + join_locs(locs)
}

/// The report text: the lines joined by newlines.
pub open spec fn joined_lines(lines: Seq<Seq<char>>) -> Seq<char>
    decreases lines.len(),
{
    if lines.len() == 0 {
        Seq::empty()
    } else if lines.len() == 1 {
        lines[0]
    } else {
        lines[0] + seq!['\n'] + joined_lines(lines.drop_first())
    }
}

/// The human-readable pass/fail report, one entry per test, built in test
/// order.
#[derive(Debug)]
pub struct Feedback(pub Vec<String>);

impl View for Feedback {
    type V = Seq<Seq<char>>;

    open spec fn view(&self) -> Seq<Seq<char>> {
        Seq::new(self.0@.len(), |i: int| self.0@[i]@)
    }
}

impl Feedback {
    /// An empty report.
    pub fn new() -> (r: Feedback)
        ensures
            r@ == Seq::<Seq<char>>::empty(),
    {
        let r = Feedback(Vec::new());
        proof {
            assert(r@ =~= Seq::<Seq<char>>::empty());
        }
        r
    }

    /// Appends the pass line for test `name`.
    pub fn add_test_pass(&mut self, name: String)
        ensures
            final(self)@ == old(self)@.push(pass_line(name@)),
    {
        let mut line = String::new();
        line.append("\t✓\t");
        line.append(name.as_str());
        let ghost lm = line@;
        proof {
            assert(lm == pass_line(name@));
        }
        self.0.push(line);
        proof {
            assert(self@ =~= old(self)@.push(lm));
        }
    }

    /// Appends the fail line for test `name`, naming each failed
    /// assertion's location on a sub-line of its own.
    pub fn add_test_fail(&mut self, name: String, failed: Vec<Location>)
        ensures
            final(self)@ == old(self)@.push(
                fail_line(name@, Seq::new(failed@.len(), |i: int| failed@[i]@)),
            ),
    {
        let ghost locs = Seq::new(failed@.len(), |i: int| failed@[i]@);
        let mut line = String::new();
        line.append("\t❌\t");
        line.append(name.as_str());
        line.append("\n\t\t- assert ");
        let mut i: usize = 0;
        while i < failed.len()
            invariant
                i <= failed@.len(),
                locs == Seq::new(failed@.len(), |k: int| failed@[k]@),
                line@ == "\t❌\t"@ + name@ + "\n\t\t- assert "@ + join_locs(
                    locs.take(i as int),
                ) + if i > 0 && i < failed@.len() {
                    "\n\t\t- assert "@
                } else {
                    Seq::<char>::empty()
                },
        decreases failed@.len() - i,
        {
            let t = failed[i].to_string();
            line.append(t.as_str());
            if i + 1 < failed.len() {
                line.append("\n\t\t- assert ");
            }
            proof {
                lemma_join_locs_snoc(locs, i as int);
            }
            i += 1;
        }
        let ghost lm = line@;
        proof {
            assert(locs.take(locs.len() as int) =~= locs);
            assert(lm == fail_line(name@, locs));
        }
        self.0.push(line);
        proof {
            assert(self@ =~= old(self)@.push(lm));
        }
    }

    /// The report text: the lines joined by newlines.
    pub fn to_string(&self) -> (r: String)
        ensures
            r@ == joined_lines(self@),
    {
        let mut s = String::new();
        let mut i: usize = 0;
        while i < self.0.len()
            invariant
                i <= self.0@.len(),
                s@ == joined_lines(self@.take(i as int)) + if i > 0 && i < self.0@.len() {
                    seq!['\n']
                } else {
                    Seq::<char>::empty()
                },
            decreases self.0@.len() - i,
        {
            s.append(self.0[i].as_str());
            if i + 1 < self.0.len() {
                push_char(&mut s, '\n');
            }
            proof {
                lemma_joined_lines_snoc(self@, i as int);
            }
            i += 1;
        }
        proof {
            assert(self@.take(self@.len() as int) =~= self@);
        }
        s
    }
}

/// Extending the joined location list by one entry.
proof fn lemma_join_locs_snoc(locs: Seq<LocM>, i: int)
    requires
        0 <= i < locs.len(),
    ensures
        i == 0 ==> join_locs(locs.take(1)) == loc_text(locs[0]),
        i > 0 ==> join_locs(locs.take(i + 1)) == join_locs(locs.take(i)) + "\n\t\t- assert "@
            + loc_text(locs[i]),
    decreases i,
{
    assert(locs.take(1).len() == 1);
    assert(locs.take(1)[0] == locs[0]);
    if i > 0 {
        lemma_join_locs_take_unfold(locs.take(i + 1), locs.take(i), locs[i]);
    }
}

/// Joining `s.push(x)` appends a separator and the new entry.
proof fn lemma_join_locs_take_unfold(whole: Seq<LocM>, prefix: Seq<LocM>, x: LocM)
    requires
        prefix.len() >= 1,
        whole =~= prefix.push(x),
    ensures
        join_locs(whole) == join_locs(prefix) + "\n\t\t- assert "@ + loc_text(x),
    decreases prefix.len(),
{
    if prefix.len() == 1 {
        assert(whole.len() == 2);
        assert(whole[0] == prefix[0]);
        assert(whole.drop_first().len() == 1);
        assert(whole.drop_first()[0] == x);
        assert(join_locs(whole.drop_first()) == loc_text(x));
    } else {
        assert(whole.drop_first() =~= prefix.drop_first().push(x));
        lemma_join_locs_take_unfold(whole.drop_first(), prefix.drop_first(), x);
        assert(whole[0] == prefix[0]);
    }
}

/// Extending the joined report by one line.
proof fn lemma_joined_lines_snoc(lines: Seq<Seq<char>>, i: int)
    requires
        0 <= i < lines.len(),
    ensures
        i == 0 ==> joined_lines(lines.take(1)) == lines[0],
        i > 0 ==> joined_lines(lines.take(i + 1)) == joined_lines(lines.take(i)) + seq!['\n']
            + lines[i],
    decreases i,
{
    assert(lines.take(1).len() == 1);
    assert(lines.take(1)[0] == lines[0]);
    if i > 0 {
        lemma_joined_lines_unfold(lines.take(i + 1), lines.take(i), lines[i]);
    }
}

/// Joining `s.push(x)` appends a newline and the new line.
proof fn lemma_joined_lines_unfold(whole: Seq<Seq<char>>, prefix: Seq<Seq<char>>, x: Seq<char>)
    requires
        prefix.len() >= 1,
        whole =~= prefix.push(x),
    ensures
        joined_lines(whole) == joined_lines(prefix) + seq!['\n'] + x,
    decreases prefix.len(),
{
    if prefix.len() == 1 {
        assert(whole.len() == 2);
        assert(whole[0] == prefix[0]);
        assert(whole.drop_first().len() == 1);
        assert(whole.drop_first()[0] == x);
        assert(joined_lines(whole.drop_first()) == x);
    } else {
        assert(whole.drop_first() =~= prefix.drop_first().push(x));
        lemma_joined_lines_unfold(whole.drop_first(), prefix.drop_first(), x);
        assert(whole[0] == prefix[0]);
    }
}

/// The size of an expression: what the evaluator's structural recursion
/// decreases on. Compound literals count one, since their contents are
/// not evaluated structurally but lazily, under the evaluation budget.
pub open spec fn expr_size(e: ExprM) -> nat
    decreases e,
{
    match e {
        ExprM::Primitive(_, _) => 1,
        ExprM::Assert(_, inner) => 1 + expr_size(*inner),
        ExprM::Assignment(_, left, right) => 1 + expr_size(*left) + expr_size(*right),
        ExprM::Equality(_, left, right) => 1 + expr_size(*left) + expr_size(*right),
        ExprM::Ref(_, _) => 1,
        ExprM::Get(_, inner) => 1 + expr_size(*inner),
    }
}

/// The segments of a dotted-path name, split on `.`.
pub open spec fn split_dots(s: Seq<char>) -> Seq<Seq<char>>
    decreases s.len(),
{
    match first_dot(s) {
        None => seq![s],
        Some(i) => {
            proof {
                lemma_first_dot_in_range(s);
            }
            seq![s.subrange(0, i)] + split_dots(s.subrange(i + 1, s.len() as int))
        },
    }
}

/// A found `.` index is in bounds.
pub proof fn lemma_first_dot_in_range(s: Seq<char>)
    ensures
        first_dot(s) matches Some(i) ==> 0 <= i < s.len(),
    decreases s.len(),
{
    if s.len() > 0 && s[0] != '.' {
        lemma_first_dot_in_range(s.drop_first());
    }
}

/// A dotted-path name has at least one segment.
pub proof fn lemma_split_dots_len(s: Seq<char>)
    ensures
        split_dots(s).len() >= 1,
{
    lemma_first_dot_in_range(s);
}

/// Splits a dotted-path name on `.` into its segments.
pub fn split_name(name: &String) -> (r: Vec<String>)
    ensures
        r@.len() == split_dots(name@).len(),
        forall|k: int| 0 <= k < r@.len() ==> r@[k]@ == split_dots(name@)[k],
{
    let cs = crate::types::chars_of(name.as_str());
    let n = cs.len();
    let mut out: Vec<String> = Vec::new();
    let mut start: usize = 0;
    let mut i: usize = 0;
    proof {
        assert(name@.subrange(0, n as int) =~= name@);
        assert(Seq::new(0, |k: int| out@[k]@) + split_dots(name@.subrange(0, n as int))
            =~= split_dots(name@));
    }
    while i < n
        invariant
            n == cs@.len(),
            cs@ == name@,
            start <= i <= n,
            forall|k: int| start <= k < i ==> cs@[k] != '.',
            split_dots(name@) == Seq::new(out@.len(), |k: int| out@[k]@) + split_dots(
                name@.subrange(start as int, n as int),
            ),
        decreases n - i,
    {
        if cs[i] == '.' {
            let mut seg = String::new();
            let mut k: usize = start;
            while k < i
                invariant
                    start <= k <= i <= n,
                    n == cs@.len(),
                    cs@ == name@,
                    seg@ == name@.subrange(start as int, k as int),
                decreases i - k,
            {
                push_char(&mut seg, cs[k]);
                proof {
                    assert(seg@ =~= name@.subrange(start as int, k + 1));
                }
                k += 1;
            }
            let ghost pre = Seq::new(out@.len(), |k: int| out@[k]@);
            out.push(seg);
            proof {
                let tail = name@.subrange(start as int, n as int);
                assert(forall|k: int| 0 <= k < i - start ==> tail[k] != '.');
                assert(tail[i - start] == '.');
                lemma_first_dot_at(tail, i - start);
                assert(tail.subrange(0, i - start) =~= name@.subrange(start as int, i as int));
                assert(tail.subrange(i - start + 1, tail.len() as int) =~= name@.subrange(
                    i + 1,
                    n as int,
                ));
                assert(Seq::new(out@.len(), |k: int| out@[k]@) =~= pre.push(
                    name@.subrange(start as int, i as int),
                ));
                assert(pre + (seq![name@.subrange(start as int, i as int)] + split_dots(
                    name@.subrange(i + 1, n as int),
                )) =~= pre.push(name@.subrange(start as int, i as int)) + split_dots(
                    name@.subrange(i + 1, n as int),
                ));
            }
            start = i + 1;
        }
        i += 1;
    }
    let mut seg = String::new();
    let mut k: usize = start;
    while k < n
        invariant
            start <= k <= n,
            n == cs@.len(),
            cs@ == name@,
            seg@ == name@.subrange(start as int, k as int),
        decreases n - k,
    {
        push_char(&mut seg, cs[k]);
        proof {
            assert(seg@ =~= name@.subrange(start as int, k + 1));
        }
        k += 1;
    }
    let ghost pre = Seq::new(out@.len(), |k: int| out@[k]@);
    out.push(seg);
    proof {
        let tail = name@.subrange(start as int, n as int);
        assert(forall|k: int| 0 <= k < tail.len() ==> tail[k] != '.');
        lemma_first_dot_none(tail);
        assert(split_dots(tail) == seq![tail]);
        assert(Seq::new(out@.len(), |k: int| out@[k]@) =~= pre.push(tail));
        assert(pre + seq![tail] =~= pre.push(tail));
        assert forall|k: int| 0 <= k < out@.len() implies out@[k]@ == split_dots(name@)[k] by {
            assert(split_dots(name@)[k] == Seq::new(out@.len(), |j: int| out@[j]@)[k]);
        }
    }
    out
}

/// Whether every character of a sequence is a decimal digit.
pub open spec fn all_digits(s: Seq<char>) -> bool {
    forall|i: int| 0 <= i < s.len() ==> is_digit_ch(s[i])
}

/// The numeric value of a digit sequence, most significant digit first.
pub open spec fn dec_value(s: Seq<char>) -> int
    decreases s.len(),
{
    if s.len() == 0 {
        0
    } else {
        dec_value(s.drop_last()) * 10 + digit_val(s.last())
    }
}

/// A digit sequence's value is nonnegative and at least any prefix's.
pub proof fn lemma_dec_value_prefix(s: Seq<char>, i: int)
    requires
        all_digits(s),
        0 <= i <= s.len(),
    ensures
        dec_value(s) >= 0,
        dec_value(s) >= dec_value(s.take(i)),
    decreases s.len(),
{
    if s.len() == 0 {
    } else {
        assert(all_digits(s.drop_last()));
        if i == s.len() {
            lemma_dec_value_prefix(s.drop_last(), s.len() - 1);
            assert(digit_val(s.last()) >= 0);
            assert(s.take(i) =~= s);
        } else {
            lemma_dec_value_prefix(s.drop_last(), i);
            assert(s.take(i) =~= s.drop_last().take(i));
            assert(digit_val(s.last()) >= 0);
        }
    }
}

/// Parses an unsigned array index from a path segment. Returns `None`
/// exactly when the segment is not all digits, is empty, or denotes a
/// value that does not fit the machine's word.
pub fn parse_index(seg: &String) -> (r: Option<usize>)
    ensures
        match r {
            Some(v) => seg@.len() > 0 && all_digits(seg@) && dec_value(seg@) == v as int,
            None => !(seg@.len() > 0 && all_digits(seg@) && dec_value(seg@)
                <= usize::MAX as int),
        },
{
    let cs = crate::types::chars_of(seg.as_str());
    let n = cs.len();
    if n == 0 {
        return None;
    }
    let mut v: usize = 0;
    let mut i: usize = 0;
    while i < n
        invariant
            n == cs@.len(),
            cs@ == seg@,
            i <= n,
            forall|k: int| 0 <= k < i ==> is_digit_ch(seg@[k]),
            v as int == dec_value(seg@.take(i as int)),
        decreases n - i,
    {
        let c = cs[i];
        if !(c >= '0' && c <= '9') {
            proof {
                assert(!is_digit_ch(seg@[i as int]));
            }
            return None;
        }
        let d: usize = (c as u32 - 48) as usize;
        proof {
            assert(d as int == digit_val(seg@[i as int]));
            assert(seg@.take(i + 1).drop_last() =~= seg@.take(i as int));
            assert(seg@.take(i + 1).last() == seg@[i as int]);
        }
        if v > (usize::MAX - d) / 10 {
            proof {
                assert(v as int * 10 + d as int > usize::MAX as int) by (nonlinear_arith)
                    requires
                        v as int > (usize::MAX as int - d as int) / 10,
                        0 <= d as int <= 9,
                        v as int >= 0,
                ;
                assert(dec_value(seg@.take(i + 1)) > usize::MAX as int);
                if all_digits(seg@) {
                    lemma_dec_value_prefix(seg@, i + 1);
                }
            }
            return None;
        }
        proof {
            assert(v as int * 10 + d as int <= usize::MAX as int) by (nonlinear_arith)
                requires
                    v as int <= (usize::MAX as int - d as int) / 10,
                    0 <= d as int <= 9,
                    v as int >= 0,
            ;
        }
        v = v * 10 + d;
        i += 1;
    }
    proof {
        assert(seg@.take(n as int) =~= seg@);
    }
    Some(v)
}

/// The expression stored under `key` in an object's entries: the first
/// entry with that name.
pub open spec fn obj_find(entries: Seq<(Seq<char>, ExprM)>, key: Seq<char>) -> Option<ExprM>
    decreases entries.len(),
{
    if entries.len() == 0 {
        None
    } else if entries[0].0 == key {
        Some(entries[0].1)
    } else {
        obj_find(entries.drop_first(), key)
    }
}

/// Finds the expression stored under `key` in an object literal.
pub fn find_entry(entries: &Vec<(String, Expression)>, key: &String) -> (r: Option<Expression>)
    ensures
        match r {
            Some(e) => obj_find(obj_m_from(*entries, 0), key@) == Some(expr_m(e)),
            None => obj_find(obj_m_from(*entries, 0), key@) is None,
        },
{
    let ghost em = obj_m_from(*entries, 0);
    proof {
        lemma_obj_m_from(*entries, 0);
    }
    let mut i: usize = 0;
    proof {
        assert(em.skip(0) =~= em);
    }
    while i < entries.len()
        invariant
            em == obj_m_from(*entries, 0),
            em.len() == entries@.len(),
            forall|j: int| 0 <= j < em.len() ==> em[j] == (entries@[j].0@, expr_m(entries@[j].1)),
            i <= entries@.len(),
            obj_find(em, key@) == obj_find(em.skip(i as int), key@),
        decreases entries@.len() - i,
    {
        proof {
            assert(em.skip(i as int).len() == em.len() - i);
            assert(em.skip(i as int)[0] == em[i as int]);
        }
        if entries[i].0 == *key {
            return Some(clone_expression(&entries[i].1));
        }
        proof {
            assert(em.skip(i as int).drop_first() =~= em.skip(i + 1));
        }
        i += 1;
    }
    proof {
        assert(em.skip(em.len() as int).len() == 0);
    }
    None
}

/// Whether two evaluated values are equal, decided executably.
pub fn prim_eq_exec(a: &Primitive, b: &Primitive) -> (r: bool)
    ensures
        r == prim_eq(prim_m(*a), prim_m(*b)),
{
    match (a, b) {
        (Primitive::Void, Primitive::Void) => true,
        (Primitive::Boolean(x), Primitive::Boolean(y)) => x == y,
        (Primitive::Number(x), Primitive::Number(y)) => {
            let w = str_eq(x.whole.as_str(), y.whole.as_str());
            let f = str_eq(x.frac.as_str(), y.frac.as_str());
            w && f
        },
        (Primitive::String(x), Primitive::String(y)) => str_eq(x.as_str(), y.as_str()),
        _ => {
            proof {
                lemma_prim_m_variant(*a);
                lemma_prim_m_variant(*b);
            }
            false
        },
    }
}

/// A primitive's value has a given variant exactly when the primitive
/// does.
pub proof fn lemma_prim_m_variant(p: Primitive)
    ensures
        (prim_m(p) is Void) <==> (p is Void),
        (prim_m(p) is Boolean) <==> (p is Boolean),
        (prim_m(p) is Number) <==> (p is Number),
        (prim_m(p) is StrLit) <==> (p is String),
        (prim_m(p) is Object) <==> (p is Object),
        (prim_m(p) is Array) <==> (p is Array),
{
}

/// The outcome of one run step: a finished value, a fatal error with its
/// location and message, or a request to fetch `url` before the run can
/// go further.
#[derive(Debug)]
pub enum RunResult<T> {
    Done(T),
    Fault(Location, String),
    Fetch(Location, String),
}

/// What one delegated fetch came back with: the response body on
/// success, or the transport error's text on failure.
#[derive(Debug)]
pub enum FetchOutcome {
    Success(String),
    Failure(String),
}

/// Mathematical value of a [`FetchOutcome`].
pub enum FetchM {
    Success(Seq<char>),
    Failure(Seq<char>),
}

impl View for FetchOutcome {
    type V = FetchM;

    open spec fn view(&self) -> FetchM {
        match self {
            FetchOutcome::Success(s) => FetchM::Success(s@),
            FetchOutcome::Failure(s) => FetchM::Failure(s@),
        }
    }
}

/// The values of a list of fetch outcomes, in order.
pub open spec fn resp_m(v: Vec<FetchOutcome>) -> Seq<FetchM> {
    Seq::new(v@.len(), |i: int| v@[i]@)
}

/// One evaluation result: a value, a fatal error, or a fetch request.
pub enum EvalRes {
    Done(PrimM),
    Fault(LocM, Seq<char>),
    Fetch(LocM, Seq<char>),
}

/// The full outcome of an evaluation: its result, the scope after it,
/// and how many fetch outcomes have been consumed so far.
pub struct EvalOut {
    pub res: EvalRes,
    pub scope: ScopeM,
    pub used: int,
}

/// How many lazy evaluation steps (dotted-path entries and the
/// expressions they force) one run may take before it is reported as an
/// unresolvable path. Self-referential literals would otherwise loop
/// forever.
pub const EVAL_FUEL: u64 = 4096;

/// What evaluating an expression yields, and how it changes the scope
/// and the count of consumed fetch outcomes.
///
/// - A primitive literal evaluates to itself, objects and arrays
///   unevaluated.
/// - `Assert` demands a boolean and records it; a false assertion is
///   recorded, not fatal.
/// - `Assignment` demands a reference on its left and binds the right's
///   value under that name.
/// - `Equality` evaluates both sides and compares them, yielding a
///   boolean and never a type error.
/// - `Ref` resolves a dotted path in the scope lazily.
/// - `Get` demands a string and consumes the next fetch outcome; with
///   none left, it asks the caller to fetch the url.
pub open spec fn spec_eval(e: ExprM, scope: ScopeM, resp: Seq<FetchM>, used: int, fuel: nat) -> EvalOut
    decreases fuel, expr_size(e), 0int,
{
    match e {
        ExprM::Primitive(_, p) => EvalOut { res: EvalRes::Done(p), scope, used },
        ExprM::Assert(l, inner) => {
            let out = spec_eval(*inner, scope, resp, used, fuel);
            match out.res {
                EvalRes::Done(p) => match p {
                    PrimM::Boolean(v) => EvalOut {
                        res: EvalRes::Done(PrimM::Boolean(v)),
                        scope: ScopeM {
                            vars: out.scope.vars,
                            asserts: out.scope.asserts.push((l, v)),
                        },
                        used: out.used,
                    },
                    _ => EvalOut {
                        res: EvalRes::Fault(
                            l,
                            "Expected bool value as expression result for assert"@,
                        ),
                        scope: out.scope,
                        used: out.used,
                    },
                },
                _ => out,
            }
        },
        ExprM::Assignment(_, left, right) => {
            match *left {
                ExprM::Ref(_, name) => {
                    let out = spec_eval(*right, scope, resp, used, fuel);
                    match out.res {
                        EvalRes::Done(p) => EvalOut {
                            res: EvalRes::Done(p),
                            scope: ScopeM {
                                vars: out.scope.vars.push((name, p)),
                                asserts: out.scope.asserts,
                            },
                            used: out.used,
                        },
                        _ => out,
                    }
                },
                _ => EvalOut {
                    res: EvalRes::Fault(expr_loc(*left), "Invalid assignment"@),
                    scope,
                    used,
                },
            }
        },
        ExprM::Equality(_, left, right) => {
            let lo = spec_eval(*left, scope, resp, used, fuel);
            match lo.res {
                EvalRes::Done(pa) => {
                    let ro = spec_eval(*right, lo.scope, resp, lo.used, fuel);
                    match ro.res {
                        EvalRes::Done(pb) => EvalOut {
                            res: EvalRes::Done(PrimM::Boolean(prim_eq(pa, pb))),
                            scope: ro.scope,
                            used: ro.used,
                        },
                        _ => ro,
                    }
                },
                _ => lo,
            }
        },
        ExprM::Ref(l, name) => {
            if fuel == 0 {
                EvalOut { res: EvalRes::Fault(l, "Unresolved path: "@ + name), scope, used }
            } else {
                spec_run_ref(l, name, scope, resp, used, (fuel - 1) as nat)
            }
        },
        ExprM::Get(l, inner) => {
            let out = spec_eval(*inner, scope, resp, used, fuel);
            match out.res {
                EvalRes::Done(p) => match p {
                    PrimM::StrLit(url) => {
                        if 0 <= out.used < resp.len() {
                            match resp[out.used] {
                                FetchM::Success(body) => EvalOut {
                                    res: EvalRes::Done(PrimM::StrLit(body)),
                                    scope: out.scope,
                                    used: out.used + 1,
                                },
                                FetchM::Failure(msg) => EvalOut {
                                    res: EvalRes::Fault(l, msg),
                                    scope: out.scope,
                                    used: out.used + 1,
                                },
                            }
                        } else {
                            EvalOut { res: EvalRes::Fetch(l, url), scope: out.scope, used: out.used }
                        }
                    },
                    _ => EvalOut {
                        res: EvalRes::Fault(
                            l,
                            "Expected string value as expression result for get"@,
                        ),
                        scope: out.scope,
                        used: out.used,
                    },
                },
                _ => out,
            }
        },
    }
}

/// What resolving a dotted-path reference yields: the first segment is
/// looked up among the scope's bindings; the remaining segments are
/// resolved into the found value.
pub open spec fn spec_run_ref(
    l: LocM,
    name: Seq<char>,
    scope: ScopeM,
    resp: Seq<FetchM>,
    used: int,
    fuel: nat,
) -> EvalOut
    decreases fuel, split_dots(name).len() + 1, 0int,
{
    let segs = split_dots(name);
    match scope_lookup(scope.vars, segs[0]) {
        None => EvalOut { res: EvalRes::Fault(l, "Unresolved path: "@ + name), scope, used },
        Some(p0) => {
            if segs.len() == 1 {
                EvalOut { res: EvalRes::Done(p0), scope, used }
            } else {
                spec_resolve(l, name, segs, 1, p0, scope, resp, used, fuel)
            }
        },
    }
}

/// What resolving the remaining path segments into `current` yields: an
/// object is entered by key, an array by unsigned index, and the
/// expression found there is evaluated at access time. A missing key, a
/// bad or out-of-range index, a non-container value in the middle of the
/// path, or an exhausted evaluation budget is an unresolved path.
pub open spec fn spec_resolve(
    l: LocM,
    name: Seq<char>,
    segs: Seq<Seq<char>>,
    idx: int,
    current: PrimM,
    scope: ScopeM,
    resp: Seq<FetchM>,
    used: int,
    fuel: nat,
) -> EvalOut
    decreases fuel, segs.len() - idx, 1int,
{
    if idx >= segs.len() {
        EvalOut { res: EvalRes::Done(current), scope, used }
    } else {
        let found: Option<ExprM> = match current {
            PrimM::Object(entries) => obj_find(entries, segs[idx]),
            PrimM::Array(items) => {
                if segs[idx].len() > 0 && all_digits(segs[idx]) && 0 <= dec_value(segs[idx])
                    < items.len() {
                    Some(items[dec_value(segs[idx])])
                } else {
                    None
                }
            },
            _ => None,
        };
        match found {
            None => EvalOut { res: EvalRes::Fault(l, "Unresolved path: "@ + name), scope, used },
            Some(e) => {
                if fuel == 0 {
                    EvalOut {
                        res: EvalRes::Fault(l, "Unresolved path: "@ + name),
                        scope,
                        used,
                    }
                } else {
                    let out = spec_eval(e, scope, resp, used, (fuel - 1) as nat);
                    match out.res {
                        EvalRes::Done(p) => spec_resolve(
                            l,
                            name,
                            segs,
                            idx + 1,
                            p,
                            out.scope,
                            resp,
                            out.used,
                            fuel,
                        ),
                        _ => out,
                    }
                }
            },
        }
    }
}

/// What running a block's expressions in order yields: the first fatal
/// error or fetch request stops the block; otherwise the scope holds the
/// recorded assertion outcomes.
pub open spec fn spec_run_exprs(
    exprs: Seq<ExprM>,
    k: int,
    scope: ScopeM,
    resp: Seq<FetchM>,
    used: int,
    fuel: nat,
) -> EvalOut
    decreases exprs.len() - k,
{
    if 0 <= k < exprs.len() {
        let out = spec_eval(exprs[k], scope, resp, used, fuel);
        match out.res {
            EvalRes::Done(_) => spec_run_exprs(exprs, k + 1, out.scope, resp, out.used, fuel),
            _ => out,
        }
    } else {
        EvalOut { res: EvalRes::Done(PrimM::Void), scope, used }
    }
}

/// The locations of the failed assertions among `asserts[k..]`, in
/// order.
pub open spec fn failed_of(asserts: Seq<(LocM, bool)>, k: int) -> Seq<LocM>
    decreases asserts.len() - k,
{
    if 0 <= k < asserts.len() {
        if !asserts[k].1 {
            seq![asserts[k].0] + failed_of(asserts, k + 1)
        } else {
            failed_of(asserts, k + 1)
        }
    } else {
        Seq::empty()
    }
}

/// The outcome of one test: its report line, or the fatal error or fetch
/// request that stopped it; and how many fetch outcomes are consumed.
pub enum TestRes {
    Line(Seq<char>),
    Fault(LocM, Seq<char>),
    Fetch(LocM, Seq<char>),
}

/// The outcome of one test together with the fetch outcomes consumed.
pub struct TestOut {
    pub res: TestRes,
    pub used: int,
}

/// What running one test yields: its expressions run against a fresh,
/// empty scope; with no failed assertion the test's pass line, else its
/// fail line naming every failed assertion's location.
pub open spec fn spec_run_test(
    name: Seq<char>,
    exprs: Seq<ExprM>,
    resp: Seq<FetchM>,
    used: int,
    fuel: nat,
) -> TestOut {
    let out = spec_run_exprs(
        exprs,
        0,
        ScopeM { vars: Seq::empty(), asserts: Seq::empty() },
        resp,
        used,
        fuel,
    );
    match out.res {
        EvalRes::Done(_) => {
            let failed = failed_of(out.scope.asserts, 0);
            if failed.len() > 0 {
                TestOut { res: TestRes::Line(fail_line(name, failed)), used: out.used }
            } else {
                TestOut { res: TestRes::Line(pass_line(name)), used: out.used }
            }
        },
        EvalRes::Fault(l, m) => TestOut { res: TestRes::Fault(l, m), used: out.used },
        EvalRes::Fetch(l, u) => TestOut { res: TestRes::Fetch(l, u), used: out.used },
    }
}

/// The outcome of a whole run: the report, or the first fatal error or
/// fetch request.
pub enum ProgRes {
    Done(Seq<Seq<char>>),
    Fault(LocM, Seq<char>),
    Fetch(LocM, Seq<char>),
}

/// Evaluates one expression against the scope, consuming fetch outcomes
/// for the `get` primitives it reaches.
pub fn run_expression(
    expression: &Expression,
    scope: &mut Scope,
    responses: &Vec<FetchOutcome>,
    used: &mut usize,
    fuel: u64,
) -> (r: RunResult<Primitive>)
    requires
        *old(used) <= responses@.len(),
    ensures
        ({
            let out = spec_eval(
                expr_m(*expression),
                old(scope)@,
                resp_m(*responses),
                *old(used) as int,
                fuel as nat,
            );
            &&& final(scope)@ == out.scope
            &&& *final(used) as int == out.used
            &&& *final(used) <= responses@.len()
            &&& match r {
                RunResult::Done(p) => out.res == EvalRes::Done(prim_m(p)),
                RunResult::Fault(l, m) => out.res == EvalRes::Fault(l@, m@),
                RunResult::Fetch(l, u) => out.res == EvalRes::Fetch(l@, u@),
            }
        }),
    decreases fuel, expr_size(expr_m(*expression)), 0int,
{
    match expression {
        Expression::Primitive(_, p) => RunResult::Done(clone_primitive(p)),
        Expression::Assert(l, inner) => run_assert(l.clone(), inner, scope, responses, used, fuel),
        Expression::Assignment(l, left, right) => run_assignment(
            l.clone(),
            left,
            right,
            scope,
            responses,
            used,
            fuel,
        ),
        Expression::Equality(l, left, right) => run_equality(
            l.clone(),
            left,
            right,
            scope,
            responses,
            used,
            fuel,
        ),
        Expression::Ref(l, name) => {
            if fuel == 0 {
                let mut msg = "Unresolved path: ".to_owned();
                msg.append(name.as_str());
                proof {
                    assert(msg@ =~= "Unresolved path: "@ + name@);
                }
                RunResult::Fault(l.clone(), msg)
            } else {
                run_ref(l.clone(), name.clone(), scope, responses, used, fuel - 1)
            }
        },
        Expression::Get(l, inner) => run_get(l.clone(), inner, scope, responses, used, fuel),
    }
}

/// Resolves a dotted-path reference against the scope: the first segment
/// names a binding; each further segment enters an object by key or an
/// array by index, evaluating the expression found there at access time.
#[verifier::rlimit(50)]
pub fn run_ref(
    location: Location,
    name: String,
    scope: &mut Scope,
    responses: &Vec<FetchOutcome>,
    used: &mut usize,
    fuel: u64,
) -> (r: RunResult<Primitive>)
    requires
        *old(used) <= responses@.len(),
    ensures
        ({
            let out = spec_run_ref(
                location@,
                name@,
                old(scope)@,
                resp_m(*responses),
                *old(used) as int,
                fuel as nat,
            );
            &&& final(scope)@ == out.scope
            &&& *final(used) as int == out.used
            &&& *final(used) <= responses@.len()
            &&& match r {
                RunResult::Done(p) => out.res == EvalRes::Done(prim_m(p)),
                RunResult::Fault(l, m) => out.res == EvalRes::Fault(l@, m@),
                RunResult::Fetch(l, u) => out.res == EvalRes::Fetch(l@, u@),
            }
        }),
    decreases fuel, split_dots(name@).len() + 1, 0int,
{
    let ghost segs_m = split_dots(name@);
    let segs = split_name(&name);
    proof {
        lemma_split_dots_len(name@);
    }
    let first = match scope.get(&segs[0]) {
        Some(p) => p,
        None => {
            let mut msg = "Unresolved path: ".to_owned();
            msg.append(name.as_str());
            proof {
                assert(msg@ =~= "Unresolved path: "@ + name@);
            }
            return RunResult::Fault(location, msg);
        },
    };
    if segs.len() == 1 {
        return RunResult::Done(first);
    }
    let ghost l0 = location@;
    let ghost scope0 = scope@;
    let ghost used0 = *used as int;
    let ghost p0 = prim_m(first);
    let mut current = first;
    let mut idx: usize = 1;
    loop
        invariant
            segs_m == split_dots(name@),
            segs@.len() == segs_m.len(),
            forall|k: int| 0 <= k < segs@.len() ==> segs@[k]@ == segs_m[k],
            1 <= idx <= segs_m.len(),
            l0 == location@,
            *used <= responses@.len(),
            spec_resolve(
                l0,
                name@,
                segs_m,
                1,
                p0,
                scope0,
                resp_m(*responses),
                used0,
                fuel as nat,
            ) == spec_resolve(
                l0,
                name@,
                segs_m,
                idx as int,
                prim_m(current),
                scope@,
                resp_m(*responses),
                *used as int,
                fuel as nat,
            ),
            spec_run_ref(
                location@,
                name@,
                old(scope)@,
                resp_m(*responses),
                *old(used) as int,
                fuel as nat,
            ) == spec_resolve(
                l0,
                name@,
                segs_m,
                1,
                p0,
                scope0,
                resp_m(*responses),
                used0,
                fuel as nat,
            ),
        decreases segs_m.len() - idx,
    {
        if idx >= segs.len() {
            return RunResult::Done(current);
        }
        let found: Option<Expression> = match &current {
            Primitive::Object(entries) => find_entry(entries, &segs[idx]),
            Primitive::Array(items) => {
                let n_items = items.len();
                proof {
                    lemma_exprs_m_from(*items, 0);
                }
                match parse_index(&segs[idx]) {
                    Some(ix) => {
                        if ix < n_items {
                            Some(clone_expression(&items[ix]))
                        } else {
                            None
                        }
                    },
                    None => None,
                }
            },
            _ => {
                proof {
                    lemma_prim_m_variant(current);
                }
                None
            },
        };
        match found {
            None => {
                let mut msg = "Unresolved path: ".to_owned();
                msg.append(name.as_str());
                proof {
                    assert(msg@ =~= "Unresolved path: "@ + name@);
                }
                return RunResult::Fault(location, msg);
            },
            Some(e) => {
                if fuel == 0 {
                    let mut msg = "Unresolved path: ".to_owned();
                    msg.append(name.as_str());
                    proof {
                        assert(msg@ =~= "Unresolved path: "@ + name@);
                    }
                    return RunResult::Fault(location, msg);
                }
                match run_expression(&e, scope, responses, used, fuel - 1) {
                    RunResult::Done(p) => {
                        current = p;
                        idx += 1;
                    },
                    RunResult::Fault(l, m) => {
                        return RunResult::Fault(l, m);
                    },
                    RunResult::Fetch(l, u) => {
                        return RunResult::Fetch(l, u);
                    },
                }
            },
        }
    }
}

/// Checks that the left side is a reference and binds the right side's
/// value under its name.
pub fn run_assignment(
    location: Location,
    left: &Expression,
    right: &Expression,
    scope: &mut Scope,
    responses: &Vec<FetchOutcome>,
    used: &mut usize,
    fuel: u64,
) -> (r: RunResult<Primitive>)
    requires
        *old(used) <= responses@.len(),
    ensures
        ({
            let out = spec_eval(
                ExprM::Assignment(location@, Box::new(expr_m(*left)), Box::new(expr_m(*right))),
                old(scope)@,
                resp_m(*responses),
                *old(used) as int,
                fuel as nat,
            );
            &&& final(scope)@ == out.scope
            &&& *final(used) as int == out.used
            &&& *final(used) <= responses@.len()
            &&& match r {
                RunResult::Done(p) => out.res == EvalRes::Done(prim_m(p)),
                RunResult::Fault(l, m) => out.res == EvalRes::Fault(l@, m@),
                RunResult::Fetch(l, u) => out.res == EvalRes::Fetch(l@, u@),
            }
        }),
    decreases fuel, expr_size(expr_m(*left)) + expr_size(expr_m(*right)), 1int,
{
    match left {
        Expression::Ref(_, name) => {
            match run_expression(right, scope, responses, used, fuel) {
                RunResult::Done(p) => {
                    scope.set_var(name, &p);
                    RunResult::Done(p)
                },
                RunResult::Fault(l, m) => RunResult::Fault(l, m),
                RunResult::Fetch(l, u) => RunResult::Fetch(l, u),
            }
        },
        _ => {
            proof {
                lemma_expr_m_variant(*left);
            }
            let lloc = left.loc();
            RunResult::Fault(lloc, "Invalid assignment".to_owned())
        },
    }
}

/// An expression's value has a given variant exactly when the expression
/// does.
pub proof fn lemma_expr_m_variant(e: Expression)
    ensures
        (expr_m(e) is Primitive) <==> (e is Primitive),
        (expr_m(e) is Assert) <==> (e is Assert),
        (expr_m(e) is Assignment) <==> (e is Assignment),
        (expr_m(e) is Equality) <==> (e is Equality),
        (expr_m(e) is Ref) <==> (e is Ref),
        (expr_m(e) is Get) <==> (e is Get),
{
}

/// Evaluates both sides and compares their values: values of different
/// kinds are unequal, never a type error.
pub fn run_equality(
    location: Location,
    left: &Expression,
    right: &Expression,
    scope: &mut Scope,
    responses: &Vec<FetchOutcome>,
    used: &mut usize,
    fuel: u64,
) -> (r: RunResult<Primitive>)
    requires
        *old(used) <= responses@.len(),
    ensures
        ({
            let out = spec_eval(
                ExprM::Equality(location@, Box::new(expr_m(*left)), Box::new(expr_m(*right))),
                old(scope)@,
                resp_m(*responses),
                *old(used) as int,
                fuel as nat,
            );
            &&& final(scope)@ == out.scope
            &&& *final(used) as int == out.used
            &&& *final(used) <= responses@.len()
            &&& match r {
                RunResult::Done(p) => out.res == EvalRes::Done(prim_m(p)),
                RunResult::Fault(l, m) => out.res == EvalRes::Fault(l@, m@),
                RunResult::Fetch(l, u) => out.res == EvalRes::Fetch(l@, u@),
            }
        }),
    decreases fuel, expr_size(expr_m(*left)) + expr_size(expr_m(*right)), 1int,
{
    match run_expression(left, scope, responses, used, fuel) {
        RunResult::Fault(l, m) => RunResult::Fault(l, m),
        RunResult::Fetch(l, u) => RunResult::Fetch(l, u),
        RunResult::Done(a) => {
            match run_expression(right, scope, responses, used, fuel) {
                RunResult::Fault(l, m) => RunResult::Fault(l, m),
                RunResult::Fetch(l, u) => RunResult::Fetch(l, u),
                RunResult::Done(b) => {
                    let eq = prim_eq_exec(&a, &b);
                    RunResult::Done(Primitive::Boolean(eq))
                },
            }
        },
    }
}

/// Evaluates the asserted expression, demands a boolean, and records the
/// outcome; a false assertion is recorded, not fatal.
pub fn run_assert(
    location: Location,
    expression: &Expression,
    scope: &mut Scope,
    responses: &Vec<FetchOutcome>,
    used: &mut usize,
    fuel: u64,
) -> (r: RunResult<Primitive>)
    requires
        *old(used) <= responses@.len(),
    ensures
        ({
            let out = spec_eval(
                ExprM::Assert(location@, Box::new(expr_m(*expression))),
                old(scope)@,
                resp_m(*responses),
                *old(used) as int,
                fuel as nat,
            );
            &&& final(scope)@ == out.scope
            &&& *final(used) as int == out.used
            &&& *final(used) <= responses@.len()
            &&& match r {
                RunResult::Done(p) => out.res == EvalRes::Done(prim_m(p)),
                RunResult::Fault(l, m) => out.res == EvalRes::Fault(l@, m@),
                RunResult::Fetch(l, u) => out.res == EvalRes::Fetch(l@, u@),
            }
        }),
    decreases fuel, expr_size(expr_m(*expression)), 1int,
{
    match run_expression(expression, scope, responses, used, fuel) {
        RunResult::Done(p) => {
            match p {
                Primitive::Boolean(value) => {
                    scope.record_assert(location, value);
                    RunResult::Done(Primitive::Boolean(value))
                },
                _ => {
                    proof {
                        lemma_prim_m_variant(p);
                    }
                    RunResult::Fault(
                        location,
                        "Expected bool value as expression result for assert".to_owned(),
                    )
                },
            }
        },
        RunResult::Fault(l, m) => RunResult::Fault(l, m),
        RunResult::Fetch(l, u) => RunResult::Fetch(l, u),
    }
}

/// Evaluates the url expression, demands a string, and consumes the next
/// fetch outcome; with none left, asks the caller to fetch the url.
pub fn run_get(
    location: Location,
    expression: &Expression,
    scope: &mut Scope,
    responses: &Vec<FetchOutcome>,
    used: &mut usize,
    fuel: u64,
) -> (r: RunResult<Primitive>)
    requires
        *old(used) <= responses@.len(),
    ensures
        ({
            let out = spec_eval(
                ExprM::Get(location@, Box::new(expr_m(*expression))),
                old(scope)@,
                resp_m(*responses),
                *old(used) as int,
                fuel as nat,
            );
            &&& final(scope)@ == out.scope
            &&& *final(used) as int == out.used
            &&& *final(used) <= responses@.len()
            &&& match r {
                RunResult::Done(p) => out.res == EvalRes::Done(prim_m(p)),
                RunResult::Fault(l, m) => out.res == EvalRes::Fault(l@, m@),
                RunResult::Fetch(l, u) => out.res == EvalRes::Fetch(l@, u@),
            }
        }),
    decreases fuel, expr_size(expr_m(*expression)), 1int,
{
    match run_expression(expression, scope, responses, used, fuel) {
        RunResult::Done(p) => {
            match p {
                Primitive::String(url) => {
                    if *used < responses.len() {
                        match &responses[*used] {
                            FetchOutcome::Success(body) => {
                                *used += 1;
                                RunResult::Done(Primitive::String(body.clone()))
                            },
                            FetchOutcome::Failure(msg) => {
                                *used += 1;
                                RunResult::Fault(location, msg.clone())
                            },
                        }
                    } else {
                        RunResult::Fetch(location, url)
                    }
                },
                _ => {
                    proof {
                        lemma_prim_m_variant(p);
                    }
                    RunResult::Fault(
                        location,
                        "Expected string value as expression result for get".to_owned(),
                    )
                },
            }
        },
        RunResult::Fault(l, m) => RunResult::Fault(l, m),
        RunResult::Fetch(l, u) => RunResult::Fetch(l, u),
    }
}

/// What running a program yields: each test in source order against a
/// fresh scope; the run halts at the first fatal error, and assertion
/// failures are recorded, never fatal.
pub open spec fn spec_run(
    decls: Seq<DeclM>,
    k: int,
    feedback: Seq<Seq<char>>,
    resp: Seq<FetchM>,
    used: int,
    fuel: nat,
) -> ProgRes
    decreases decls.len() - k,
{
    if 0 <= k < decls.len() {
        match decls[k] {
            DeclM::Test(_, name, block) => {
                let out = spec_run_test(name, block.exprs, resp, used, fuel);
                match out.res {
                    TestRes::Line(line) => spec_run(
                        decls,
                        k + 1,
                        feedback.push(line),
                        resp,
                        out.used,
                        fuel,
                    ),
                    TestRes::Fault(l, m) => ProgRes::Fault(l, m),
                    TestRes::Fetch(l, u) => ProgRes::Fetch(l, u),
                }
            },
        }
    } else {
        ProgRes::Done(feedback)
    }
}

/// Comparing evaluated values never raises a type error: an equality
/// check of two literal values always yields a boolean — the two values'
/// equality — and changes neither the scope nor the fetch count.
pub proof fn lemma_equality_total(
    l: LocM,
    la: LocM,
    lb: LocM,
    a: PrimM,
    b: PrimM,
    scope: ScopeM,
    resp: Seq<FetchM>,
    used: int,
    fuel: nat,
)
    ensures
        spec_eval(
            ExprM::Equality(l, Box::new(ExprM::Primitive(la, a)), Box::new(ExprM::Primitive(lb, b))),
            scope,
            resp,
            used,
            fuel,
        ) == (EvalOut { res: EvalRes::Done(PrimM::Boolean(prim_eq(a, b))), scope, used }),
{
    assert(spec_eval(ExprM::Primitive(la, a), scope, resp, used, fuel) == (EvalOut {
        res: EvalRes::Done(a),
        scope,
        used,
    }));
    assert(spec_eval(ExprM::Primitive(lb, b), scope, resp, used, fuel) == (EvalOut {
        res: EvalRes::Done(b),
        scope,
        used,
    }));
}

/// Values of different kinds are unequal — a cross-kind comparison, a
/// boolean against a number among them, yields false rather than an
/// error. A comparison involving an object or an array also yields
/// false.
pub proof fn lemma_cross_kind_unequal(a: PrimM, b: PrimM)
    requires
        !(a is Void && b is Void),
        !(a is Boolean && b is Boolean),
        !(a is Number && b is Number),
        !(a is StrLit && b is StrLit),
    ensures
        !prim_eq(a, b),
{
}

/// A failing assertion is recorded, never fatal: when the asserted
/// expression evaluates to a boolean and leaves the scope as it was, the
/// assertion evaluates to that same boolean, leaves the bindings
/// unchanged, and appends exactly one outcome — its location and the
/// boolean — to the assertion log. (An inner expression that itself
/// assigns or asserts changes the scope on its own account; the outcome
/// is then appended to the scope the inner evaluation produced, as
/// `spec_eval` states.)
pub proof fn lemma_assert_records_outcome(
    l: LocM,
    inner: ExprM,
    v: bool,
    scope: ScopeM,
    resp: Seq<FetchM>,
    used: int,
    fuel: nat,
)
    requires
        ({
            let out = spec_eval(inner, scope, resp, used, fuel);
            out.res == EvalRes::Done(PrimM::Boolean(v)) && out.scope == scope
        }),
    ensures
        spec_eval(ExprM::Assert(l, Box::new(inner)), scope, resp, used, fuel) == (EvalOut {
            res: EvalRes::Done(PrimM::Boolean(v)),
            scope: ScopeM { vars: scope.vars, asserts: scope.asserts.push((l, v)) },
            used: spec_eval(inner, scope, resp, used, fuel).used,
        }),
{
}

/// Equality of scalar values is reflexive: a number always equals
/// itself, as do booleans, strings and the void value.
pub proof fn lemma_prim_eq_reflexive(a: PrimM)
    requires
        a is Void || a is Boolean || a is Number || a is StrLit,
    ensures
        prim_eq(a, a),
{
}

/// Re-running the same program against the same fetch outcomes yields
/// the identical report: a run is a function of the program and the
/// outcomes alone, and every test runs against a fresh, empty scope, so
/// no hidden state survives into a second run.
pub proof fn lemma_rerun_identical(
    decls: Seq<DeclM>,
    resp: Seq<FetchM>,
    f1: Seq<Seq<char>>,
    f2: Seq<Seq<char>>,
)
    requires
        spec_run(decls, 0, Seq::empty(), resp, 0, EVAL_FUEL as nat) == ProgRes::Done(f1),
        spec_run(decls, 0, Seq::empty(), resp, 0, EVAL_FUEL as nat) == ProgRes::Done(f2),
    ensures
        f1 == f2,
{
}

/// A finished run reports exactly one line per test, in test order: the
/// lines already accumulated are kept, and each remaining declaration
/// adds exactly one.
pub proof fn lemma_one_line_per_test(
    decls: Seq<DeclM>,
    k: int,
    feedback: Seq<Seq<char>>,
    resp: Seq<FetchM>,
    used: int,
    fuel: nat,
)
    requires
        0 <= k <= decls.len(),
    ensures
        spec_run(decls, k, feedback, resp, used, fuel) matches ProgRes::Done(out) ==> out.len()
            == feedback.len() + (decls.len() - k) && out.take(feedback.len() as int) == feedback,
    decreases decls.len() - k,
{
    if k < decls.len() {
        match decls[k] {
            DeclM::Test(_, name, block) => {
                let out = spec_run_test(name, block.exprs, resp, used, fuel);
                match out.res {
                    TestRes::Line(line) => {
                        lemma_one_line_per_test(
                            decls,
                            k + 1,
                            feedback.push(line),
                            resp,
                            out.used,
                            fuel,
                        );
                        match spec_run(decls, k + 1, feedback.push(line), resp, out.used, fuel) {
                            ProgRes::Done(o) => {
                                assert(o.take(feedback.push(line).len() as int).take(
                                    feedback.len() as int,
                                ) =~= o.take(feedback.len() as int));
                                assert(feedback.push(line).take(feedback.len() as int)
                                    =~= feedback);
                            },
                            _ => {},
                        }
                    },
                    _ => {},
                }
            },
        }
    } else {
        assert(feedback.take(feedback.len() as int) =~= feedback);
    }
}

/// Runs one test: its expressions against a fresh scope, in order, then
/// appends the test's pass or fail line to the report. A fatal error or
/// a fetch request leaves the report unchanged.
pub fn run_test(
    feedback: &mut Feedback,
    location: Location,
    name: String,
    block: &Block,
    responses: &Vec<FetchOutcome>,
    used: &mut usize,
    fuel: u64,
) -> (r: RunResult<()>)
    requires
        *old(used) <= responses@.len(),
    ensures
        ({
            let out = spec_run_test(
                name@,
                block@.exprs,
                resp_m(*responses),
                *old(used) as int,
                fuel as nat,
            );
            &&& *final(used) as int == out.used
            &&& *final(used) <= responses@.len()
            &&& match r {
                RunResult::Done(_) => out.res matches TestRes::Line(line) && final(feedback)@
                    == old(feedback)@.push(line),
                RunResult::Fault(l, m) => out.res == TestRes::Fault(l@, m@) && final(feedback)@
                    == old(feedback)@,
                RunResult::Fetch(l, u) => out.res == TestRes::Fetch(l@, u@) && final(feedback)@
                    == old(feedback)@,
            }
        }),
{
    let ghost exprs_m = block@.exprs;
    let ghost resp = resp_m(*responses);
    let ghost used0 = *used as int;
    let ghost scope0 = ScopeM { vars: Seq::empty(), asserts: Seq::empty() };
    let mut scope = Scope::new();
    let mut k: usize = 0;
    while k < block.1.len()
        invariant
            exprs_m == block@.exprs,
            exprs_m.len() == block.1@.len(),
            resp == resp_m(*responses),
            used0 == *old(used) as int,
            scope0 == (ScopeM { vars: Seq::<(Seq<char>, PrimM)>::empty(), asserts: Seq::<(
                LocM,
                bool,
            )>::empty() }),
            k <= block.1@.len(),
            *used <= responses@.len(),
            spec_run_exprs(exprs_m, 0, scope0, resp, used0, fuel as nat) == spec_run_exprs(
                exprs_m,
                k as int,
                scope@,
                resp,
                *used as int,
                fuel as nat,
            ),
        decreases block.1@.len() - k,
    {
        proof {
            assert(block@.exprs[k as int] == expr_m(block.1@[k as int]));
        }
        match run_expression(&block.1[k], &mut scope, responses, used, fuel) {
            RunResult::Done(_) => {},
            RunResult::Fault(l, m) => {
                return RunResult::Fault(l, m);
            },
            RunResult::Fetch(l, u) => {
                return RunResult::Fetch(l, u);
            },
        }
        k += 1;
    }
    let ghost am = scope@.asserts;
    let mut failed: Vec<Location> = Vec::new();
    let mut i: usize = 0;
    while i < scope.asserts.len()
        invariant
            am == scope@.asserts,
            am.len() == scope.asserts@.len(),
            i <= scope.asserts@.len(),
            failed_of(am, 0) == Seq::new(failed@.len(), |j: int| failed@[j]@) + failed_of(
                am,
                i as int,
            ),
        decreases scope.asserts@.len() - i,
    {
        let ghost pre = Seq::new(failed@.len(), |j: int| failed@[j]@);
        if !scope.asserts[i].passed() {
            let l = scope.asserts[i].loc();
            failed.push(l);
            proof {
                assert(Seq::new(failed@.len(), |j: int| failed@[j]@) =~= pre.push(
                    am[i as int].0,
                ));
                assert(pre + (seq![am[i as int].0] + failed_of(am, i + 1)) =~= pre.push(
                    am[i as int].0,
                ) + failed_of(am, i + 1));
            }
        }
        i += 1;
    }
    proof {
        assert(failed_of(am, am.len() as int) == Seq::<LocM>::empty());
        assert(Seq::new(failed@.len(), |j: int| failed@[j]@) + Seq::<LocM>::empty() =~= Seq::new(
            failed@.len(),
            |j: int| failed@[j]@,
        ));
    }
    if failed.len() > 0 {
        feedback.add_test_fail(name, failed);
    } else {
        feedback.add_test_pass(name);
    }
    RunResult::Done(())
}

/// Runs a program: each test in source order against a fresh scope,
/// producing the pass/fail report. The run halts at the first fatal
/// error; a `get` with no outcome left in `responses` halts it with a
/// fetch request, and the caller is expected to fetch the named url,
/// append the outcome to `responses`, and run again.
pub fn run(program: &Program, responses: &Vec<FetchOutcome>) -> (r: RunResult<Feedback>)
    ensures
        match r {
            RunResult::Done(f) => spec_run(
                program@,
                0,
                Seq::empty(),
                resp_m(*responses),
                0,
                EVAL_FUEL as nat,
            ) == ProgRes::Done(f@),
            RunResult::Fault(l, m) => spec_run(
                program@,
                0,
                Seq::empty(),
                resp_m(*responses),
                0,
                EVAL_FUEL as nat,
            ) == ProgRes::Fault(l@, m@),
            RunResult::Fetch(l, u) => spec_run(
                program@,
                0,
                Seq::empty(),
                resp_m(*responses),
                0,
                EVAL_FUEL as nat,
            ) == ProgRes::Fetch(l@, u@),
        },
{
    let ghost dm = program@;
    let ghost resp = resp_m(*responses);
    let mut feedback = Feedback::new();
    let mut used: usize = 0;
    let mut k: usize = 0;
    while k < program.declarations.0.len()
        invariant
            dm == program@,
            dm.len() == program.declarations.0@.len(),
            resp == resp_m(*responses),
            k <= program.declarations.0@.len(),
            used <= responses@.len(),
            spec_run(dm, 0, Seq::empty(), resp, 0, EVAL_FUEL as nat) == spec_run(
                dm,
                k as int,
                feedback@,
                resp,
                used as int,
                EVAL_FUEL as nat,
            ),
        decreases program.declarations.0@.len() - k,
    {
        let decl = &program.declarations.0[k];
        match decl {
            Declaration::Test(loc, name, block) => {
                proof {
                    assert(dm[k as int] == decl_m(program.declarations.0@[k as int]));
                }
                match run_test(
                    &mut feedback,
                    loc.clone(),
                    name.clone(),
                    block,
                    responses,
                    &mut used,
                    EVAL_FUEL,
                ) {
                    RunResult::Done(_) => {},
                    RunResult::Fault(l, m) => {
                        return RunResult::Fault(l, m);
                    },
                    RunResult::Fetch(l, u) => {
                        return RunResult::Fetch(l, u);
                    },
                }
            },
        }
        k += 1;
    }
    RunResult::Done(feedback)
}

} // verus!
