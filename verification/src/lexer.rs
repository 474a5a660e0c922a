//! The tokenizer: a single forward pass over the source characters with
//! row and column tracking, producing the token stream the parser
//! consumes. Nested braces and brackets are grouped here into single
//! `Block`, `Object` and `Array` tokens, and a `:` captures the rest of
//! its line as a `Pipe` token's payload.

use crate::parser::{
    entries_m_from, lemma_entries_m_from, lemma_lines_m_from, lines_m_from, tok_m, tokens_m,
    Special, TokM, Token, Tokens,
};
use crate::types::{chars_of, push_char, LocM, Location};
use vstd::prelude::*;

verus! {

/// Whether a character counts as a letter, as `char::is_alphabetic` has
/// it.
pub uninterp spec fn is_letter(c: char) -> bool;

/// Whether a character counts as a numeric character, as
/// `char::is_numeric` has it.
pub uninterp spec fn is_numeric_ch(c: char) -> bool;

/// Relies on `char::is_alphabetic`: whether the character has the
/// Unicode `Alphabetic` property; a property of the character alone.
#[verifier::external_body]
pub fn char_is_alphabetic(c: char) -> (r: bool)
    ensures
        r == is_letter(c),
{
    c.is_alphabetic()
}

/// Relies on `char::is_numeric`: whether the character has a Unicode
/// numeric property; a property of the character alone.
#[verifier::external_body]
pub fn char_is_numeric(c: char) -> (r: bool)
    ensures
        r == is_numeric_ch(c),
{
    c.is_numeric()
}

/// Relies on `char::is_alphanumeric`, which the documentation defines as
/// `is_alphabetic() || is_numeric()`.
#[verifier::external_body]
pub fn char_is_alphanumeric(c: char) -> (r: bool)
    ensures
        r == (is_letter(c) || is_numeric_ch(c)),
{
    c.is_alphanumeric()
}

/// Mathematical value of a [`Reader`]: the source id, the cursor's row
/// and column state, and the characters with the next position.
pub struct RdM {
    pub file: Seq<char>,
    pub row: int,
    pub col: int,
    pub wn: bool,
    pub cs: Seq<char>,
    pub pos: int,
}

/// A forward cursor over the source characters, tracking the row and
/// column of the position it is at.
#[derive(Debug)]
pub struct Reader {
    pub file: String,
    pub row: usize,
    pub col: usize,
    pub was_newline: bool,
    pub contents: Vec<char>,
    pub pos: usize,
}

impl View for Reader {
    type V = RdM;

    open spec fn view(&self) -> RdM {
        RdM {
            file: self.file@,
            row: self.row as int,
            col: self.col as int,
            wn: self.was_newline,
            cs: self.contents@,
            pos: self.pos as int,
        }
    }
}

/// A reader is well formed when its position is inside the characters
/// and its row and column counters cannot outgrow the machine's word
/// over the rest of the input.
pub open spec fn rd_wf(rd: RdM) -> bool {
    &&& 0 <= rd.pos <= rd.cs.len()
    &&& 0 <= rd.row
    &&& 0 <= rd.col
    &&& rd.row + 1 + (rd.cs.len() - rd.pos) <= usize::MAX
    &&& rd.col + 1 + (rd.cs.len() - rd.pos) <= usize::MAX
}

/// How many characters the reader has left.
pub open spec fn rd_rem(rd: RdM) -> int {
    rd.cs.len() - rd.pos
}

/// The reader state after consuming one character: entering a line bumps
/// the row and resets the column; a consumed newline marks the next
/// character as the start of a new line.
pub open spec fn sp_take(rd: RdM) -> RdM {
    let row1 = if rd.wn {
        rd.row + 1
    } else {
        rd.row
    };
    let col0 = if rd.wn {
        0
    } else {
        rd.col
    };
    let wn1 = rd.pos < rd.cs.len() && rd.cs[rd.pos] == '\n';
    RdM { file: rd.file, row: row1, col: col0 + 1, wn: wn1, cs: rd.cs, pos: rd.pos + 1 }
}

/// The location of the character the reader stands at: the next column
/// of the current row, or the first column of the next row right after a
/// newline.
pub open spec fn sp_loc(rd: RdM) -> LocM {
    if rd.wn {
        LocM { file: rd.file, row: (rd.row + 1) as nat, col: 1 }
    } else {
        LocM { file: rd.file, row: rd.row as nat, col: (rd.col + 1) as nat }
    }
}

impl Reader {
    /// A reader at the start of `contents`, row 1, before column 1.
    pub fn new(file: String, contents: String) -> (r: Reader)
        requires
            contents@.len() + 2 <= usize::MAX,
        ensures
            r@.file == file@,
            r@.row == 1,
            r@.col == 0,
            r@.wn == false,
            r@.cs == contents@,
            r@.pos == 0,
            rd_wf(r@),
    {
        let cs = chars_of(contents.as_str());
        Reader { file, row: 1, col: 0, was_newline: false, contents: cs, pos: 0 }
    }

    /// The next character, if any, without consuming it.
    pub fn peek(&self) -> (r: Option<char>)
        ensures
            match r {
                Some(c) => self@.pos < self@.cs.len() && c == self@.cs[self@.pos],
                None => self@.pos >= self@.cs.len(),
            },
    {
        if self.pos < self.contents.len() {
            Some(self.contents[self.pos])
        } else {
            None
        }
    }

    /// Consumes and returns the next character, tracking rows and
    /// columns.
    pub fn take(&mut self) -> (r: Option<char>)
        requires
            rd_wf(old(self)@),
        ensures
            rd_wf(final(self)@),
            match r {
                Some(c) => old(self)@.pos < old(self)@.cs.len() && c == old(self)@.cs[old(
                    self,
                )@.pos] && final(self)@ == sp_take(old(self)@),
                None => old(self)@.pos >= old(self)@.cs.len() && final(self)@ == old(self)@,
            },
    {
        if self.pos >= self.contents.len() {
            return None;
        }
        let c = self.contents[self.pos];
        if self.was_newline {
            self.row = self.row + 1;
            self.col = 0;
            self.was_newline = false;
        }
        if c == '\n' {
            self.was_newline = true;
        }
        self.col = self.col + 1;
        self.pos = self.pos + 1;
        Some(c)
    }

    /// The location of the character the reader stands at.
    pub fn loc(&self) -> (r: Location)
        requires
            rd_wf(self@),
        ensures
            r@ == sp_loc(self@),
    {
        if self.was_newline {
            Location(self.file.clone(), self.row + 1, 1)
        } else {
            Location(self.file.clone(), self.row, self.col + 1)
        }
    }
}

/// The result of reading one string, symbol or number token.
pub struct LeafOut {
    pub tok: TokM,
    pub rd: RdM,
}

/// The result of reading one delimited token (pipe, block, object,
/// array): with `err` set, tokenizing failed on an unterminated
/// structure opened at the given location, and `tok` says nothing.
pub struct CollOut {
    pub tok: TokM,
    pub rd: RdM,
    pub err: Option<LocM>,
}

/// The result of one tokenizing run: the tokens read, the reader state
/// left, the stop character hit (if one of the stop set), and the open
/// location of an unterminated structure when tokenizing failed.
pub struct UntilOut {
    pub toks: Seq<TokM>,
    pub rd: RdM,
    pub stop: Option<char>,
    pub err: Option<LocM>,
}

/// What reading a string literal yields: the characters after the
/// opening quote up to the closing quote or the end of input, a `\`
/// passing the character after it through literally.
pub open spec fn sp_lex_string(rd: RdM) -> LeafOut {
    sp_string_body(sp_take(rd), sp_loc(rd), Seq::empty())
}

/// One step of reading a string literal's remaining characters.
pub open spec fn sp_string_body(rd: RdM, loc: LocM, acc: Seq<char>) -> LeafOut
    decreases rd_rem(rd),
{
    if rd.pos >= rd.cs.len() {
        LeafOut { tok: TokM::StrLit(loc, acc), rd }
    } else {
        let c = rd.cs[rd.pos];
        if c == '\\' {
            let rd1 = sp_take(rd);
            if rd1.pos >= rd1.cs.len() {
                LeafOut { tok: TokM::StrLit(loc, acc), rd: rd1 }
            } else {
                let c2 = rd1.cs[rd1.pos];
                sp_string_body(sp_take(rd1), loc, acc.push(c2))
            }
        } else if c == '"' {
            LeafOut { tok: TokM::StrLit(loc, acc), rd: sp_take(rd) }
        } else {
            sp_string_body(sp_take(rd), loc, acc.push(c))
        }
    }
}

/// What reading a symbol yields: the greedy run of alphanumeric
/// characters at the reader's position.
pub open spec fn sp_lex_symbol(rd: RdM) -> LeafOut {
    sp_symbol_body(rd, sp_loc(rd), Seq::empty())
}

/// One step of reading a symbol's remaining characters.
pub open spec fn sp_symbol_body(rd: RdM, loc: LocM, acc: Seq<char>) -> LeafOut
    decreases rd_rem(rd),
{
    if rd.pos < rd.cs.len() && (is_letter(rd.cs[rd.pos]) || is_numeric_ch(rd.cs[rd.pos])) {
        sp_symbol_body(sp_take(rd), loc, acc.push(rd.cs[rd.pos]))
    } else {
        LeafOut { tok: TokM::Symbol(loc, acc), rd }
    }
}

/// What reading a number yields: the greedy run of numeric characters,
/// `.` kept and `_` silently dropped.
pub open spec fn sp_lex_number(rd: RdM) -> LeafOut {
    sp_number_body(rd, sp_loc(rd), Seq::empty())
}

/// One step of reading a number's remaining characters.
pub open spec fn sp_number_body(rd: RdM, loc: LocM, acc: Seq<char>) -> LeafOut
    decreases rd_rem(rd),
{
    if rd.pos < rd.cs.len() && is_numeric_ch(rd.cs[rd.pos]) {
        sp_number_body(sp_take(rd), loc, acc.push(rd.cs[rd.pos]))
    } else if rd.pos < rd.cs.len() && rd.cs[rd.pos] == '_' {
        sp_number_body(sp_take(rd), loc, acc)
    } else if rd.pos < rd.cs.len() && rd.cs[rd.pos] == '.' {
        sp_number_body(sp_take(rd), loc, acc.push(rd.cs[rd.pos]))
    } else {
        LeafOut { tok: TokM::Number(loc, acc), rd }
    }
}

/// The stop set a pipe capture runs to: the end of the logical line.
pub open spec fn pipe_stops() -> Seq<char> {
    seq![';', '\n']
}

/// The stop set of one block line.
pub open spec fn block_stops() -> Seq<char> {
    seq!['\n', ';', '}']
}

/// The stop set of one object entry's value.
pub open spec fn object_stops() -> Seq<char> {
    seq!['}', ',']
}

/// The stop set of one array element.
pub open spec fn array_stops() -> Seq<char> {
    seq![',', ']']
}

/// Whether a preceding token makes a following `{` an object literal
/// rather than a block: after an operator or a pipe capture, a brace
/// opens an object.
pub open spec fn is_obj_ctx(t: TokM) -> bool {
    t is Special || t is Pipe
}

/// `entries` with `key` bound to `val`: an existing entry for the key is
/// replaced in place, a new key is appended.
pub open spec fn upsert(
    entries: Seq<(Seq<char>, Seq<TokM>)>,
    key: Seq<char>,
    val: Seq<TokM>,
) -> Seq<(Seq<char>, Seq<TokM>)>
    decreases entries.len(),
{
    if entries.len() == 0 {
        seq![(key, val)]
    } else if entries[0].0 == key {
        seq![(key, val)] + entries.drop_first()
    } else {
        seq![entries[0]] + upsert(entries.drop_first(), key, val)
    }
}

/// What capturing a pipe payload yields: the rest of the logical line,
/// tokenized; the line's end is not consumed.
pub open spec fn sp_lex_pipe(rd: RdM) -> CollOut
    decreases rd_rem(rd), 4int,
{
    let loc = sp_loc(rd);
    let u = sp_lex_until(rd, Some(pipe_stops()), Seq::empty());
    if u.err is Some {
        CollOut { tok: TokM::Eol(loc), rd: u.rd, err: u.err }
    } else {
        CollOut { tok: TokM::Pipe(loc, u.toks), rd: u.rd, err: None }
    }
}

/// What reading a block yields: one token line per non-empty logical
/// line up to the matching `}`; reaching the end of input inside the
/// block is an unterminated structure at the block's opening location.
pub open spec fn sp_lex_block(rd: RdM) -> CollOut
    decreases rd_rem(rd), 1int,
{
    let loc = sp_loc(rd);
    if rd.pos < rd.cs.len() {
        sp_block_body(sp_take(rd), loc, Seq::empty())
    } else {
        CollOut { tok: TokM::Eol(loc), rd, err: Some(loc) }
    }
}

/// One step of reading a block's lines.
pub open spec fn sp_block_body(rd: RdM, loc: LocM, acc: Seq<Seq<TokM>>) -> CollOut
    decreases rd_rem(rd), 3int,
{
    let u = sp_lex_until(rd, Some(block_stops()), Seq::empty());
    if u.err is Some {
        CollOut { tok: TokM::Eol(loc), rd: u.rd, err: u.err }
    } else {
        match u.stop {
            None => CollOut { tok: TokM::Eol(loc), rd: u.rd, err: Some(loc) },
            Some(ending) => {
                let rd2 = sp_take(u.rd);
                let acc2 = if u.toks.len() > 0 {
                    acc.push(u.toks)
                } else {
                    acc
                };
                if ending == '}' {
                    CollOut { tok: TokM::Block(loc, acc2), rd: rd2, err: None }
                } else if u.rd.cs == rd.cs && rd.pos <= u.rd.pos < rd.cs.len() {
                    sp_block_body(rd2, loc, acc2)
                } else {
                    CollOut { tok: TokM::Eol(loc), rd: rd2, err: Some(loc) }
                }
            },
        }
    }
}

/// What reading an object literal yields: keys given as strings or
/// symbols, each `:` capturing the entry's value up to `,` or the
/// closing `}`; a later entry for the same key replaces the earlier one.
/// Reaching the end of input inside the object is an unterminated
/// structure at its opening location.
pub open spec fn sp_lex_object(rd: RdM) -> CollOut
    decreases rd_rem(rd), 1int,
{
    let loc = sp_loc(rd);
    if rd.pos < rd.cs.len() {
        sp_object_body(sp_take(rd), loc, None, Seq::empty())
    } else {
        CollOut { tok: TokM::Eol(loc), rd, err: Some(loc) }
    }
}

/// One step of reading an object's entries. `prop` is the key read most
/// recently; a value without a pending key is read and dropped. A `}`
/// seen here closes the object with the entries read so far, so an empty
/// object literal is well formed.
pub open spec fn sp_object_body(
    rd: RdM,
    loc: LocM,
    prop: Option<Seq<char>>,
    entries: Seq<(Seq<char>, Seq<TokM>)>,
) -> CollOut
    decreases rd_rem(rd), 3int,
{
    if rd.pos >= rd.cs.len() {
        CollOut { tok: TokM::Eol(loc), rd, err: Some(loc) }
    } else {
        let c = rd.cs[rd.pos];
        if c == '}' {
            CollOut { tok: TokM::Object(loc, entries), rd: sp_take(rd), err: None }
        } else if c == '"' {
            let s = sp_lex_string(rd);
            if s.rd.cs == rd.cs && rd.pos < s.rd.pos <= rd.cs.len() {
                let key = match s.tok {
                    TokM::StrLit(_, t) => t,
                    _ => Seq::empty(),
                };
                sp_object_body(s.rd, loc, Some(key), entries)
            } else {
                CollOut { tok: TokM::Eol(loc), rd: s.rd, err: Some(loc) }
            }
        } else if is_letter(c) || is_numeric_ch(c) {
            let s = sp_lex_symbol(rd);
            if s.rd.cs == rd.cs && rd.pos < s.rd.pos <= rd.cs.len() {
                let key = match s.tok {
                    TokM::Symbol(_, t) => t,
                    _ => Seq::empty(),
                };
                sp_object_body(s.rd, loc, Some(key), entries)
            } else {
                CollOut { tok: TokM::Eol(loc), rd: s.rd, err: Some(loc) }
            }
        } else if c == ':' {
            let rd1 = sp_take(rd);
            let u = sp_lex_until(rd1, Some(object_stops()), Seq::empty());
            if u.err is Some {
                CollOut { tok: TokM::Eol(loc), rd: u.rd, err: u.err }
            } else {
                match u.stop {
                    None => CollOut { tok: TokM::Eol(loc), rd: u.rd, err: Some(loc) },
                    Some(ending) => {
                        let entries2 = match prop {
                            Some(key) => upsert(entries, key, u.toks),
                            None => entries,
                        };
                        let rd2 = sp_take(u.rd);
                        if ending == '}' {
                            CollOut { tok: TokM::Object(loc, entries2), rd: rd2, err: None }
                        } else if u.rd.cs == rd.cs && rd1.pos <= u.rd.pos < rd.cs.len() {
                            sp_object_body(rd2, loc, prop, entries2)
                        } else {
                            CollOut { tok: TokM::Eol(loc), rd: rd2, err: Some(loc) }
                        }
                    },
                }
            }
        } else {
            sp_object_body(sp_take(rd), loc, prop, entries)
        }
    }
}

/// What reading an array literal yields: one token line per element,
/// elements separated by `,`, up to the closing `]`. Reaching the end of
/// input inside the array is an unterminated structure at its opening
/// location.
pub open spec fn sp_lex_array(rd: RdM) -> CollOut
    decreases rd_rem(rd), 1int,
{
    let loc = sp_loc(rd);
    if rd.pos < rd.cs.len() {
        sp_array_body(sp_take(rd), loc, Seq::empty())
    } else {
        CollOut { tok: TokM::Eol(loc), rd, err: Some(loc) }
    }
}

/// One step of reading an array's elements.
pub open spec fn sp_array_body(rd: RdM, loc: LocM, acc: Seq<Seq<TokM>>) -> CollOut
    decreases rd_rem(rd), 3int,
{
    let u = sp_lex_until(rd, Some(array_stops()), Seq::empty());
    if u.err is Some {
        CollOut { tok: TokM::Eol(loc), rd: u.rd, err: u.err }
    } else {
        let acc2 = acc.push(u.toks);
        match u.stop {
            None => CollOut { tok: TokM::Eol(loc), rd: u.rd, err: Some(loc) },
            Some(ending) => {
                let rd2 = sp_take(u.rd);
                if ending == ']' {
                    CollOut { tok: TokM::Array(loc, acc2), rd: rd2, err: None }
                } else if u.rd.cs == rd.cs && rd.pos <= u.rd.pos < rd.cs.len() {
                    sp_array_body(rd2, loc, acc2)
                } else {
                    CollOut { tok: TokM::Eol(loc), rd: rd2, err: Some(loc) }
                }
            },
        }
    }
}

/// What one tokenizing run yields, dispatching on the character class at
/// the cursor: stop characters end the run unconsumed; newlines and
/// semicolons make `Eol`; `:` captures a pipe; `=`/`==` make operators;
/// `"` a string; `{` a block, or an object right after an operator or
/// pipe; `[` an array; letters a symbol; numeric characters a number;
/// anything else is an inert delimiter.
pub open spec fn sp_lex_until(rd: RdM, until: Option<Seq<char>>, acc: Seq<TokM>) -> UntilOut
    decreases rd_rem(rd), 2int,
{
    if rd.pos >= rd.cs.len() {
        UntilOut { toks: acc, rd, stop: None, err: None }
    } else {
        let c = rd.cs[rd.pos];
        if until matches Some(u) && u.contains(c) {
            UntilOut { toks: acc, rd, stop: Some(c), err: None }
        } else if c == '\n' || c == ';' {
            sp_lex_until(sp_take(rd), until, acc.push(TokM::Eol(sp_loc(rd))))
        } else if c == ':' {
            let p = sp_lex_pipe(sp_take(rd));
            if p.err is Some {
                UntilOut { toks: acc, rd: p.rd, stop: None, err: p.err }
            } else if p.rd.cs == rd.cs && rd.pos < p.rd.pos <= rd.cs.len() {
                sp_lex_until(p.rd, until, acc.push(p.tok))
            } else {
                UntilOut { toks: acc, rd: p.rd, stop: None, err: Some(sp_loc(rd)) }
            }
        } else if c == '=' {
            let loc = sp_loc(rd);
            let rd1 = sp_take(rd);
            if rd1.pos < rd1.cs.len() && rd1.cs[rd1.pos] == '=' {
                sp_lex_until(sp_take(rd1), until, acc.push(TokM::Special(loc, Special::Equality)))
            } else {
                sp_lex_until(rd1, until, acc.push(TokM::Special(loc, Special::Assign)))
            }
        } else if c == '.' {
            let rd1 = sp_take(rd);
            sp_lex_until(rd1, until, acc.push(TokM::Dot(sp_loc(rd1))))
        } else if c == '"' {
            let s = sp_lex_string(rd);
            if s.rd.cs == rd.cs && rd.pos < s.rd.pos <= rd.cs.len() {
                sp_lex_until(s.rd, until, acc.push(s.tok))
            } else {
                UntilOut { toks: acc, rd: s.rd, stop: None, err: Some(sp_loc(rd)) }
            }
        } else if c == '{' {
            if acc.len() > 0 && is_obj_ctx(acc.last()) {
                let o = sp_lex_object(rd);
                if o.err is Some {
                    UntilOut { toks: acc, rd: o.rd, stop: None, err: o.err }
                } else if o.rd.cs == rd.cs && rd.pos < o.rd.pos <= rd.cs.len() {
                    sp_lex_until(o.rd, until, acc.push(o.tok))
                } else {
                    UntilOut { toks: acc, rd: o.rd, stop: None, err: Some(sp_loc(rd)) }
                }
            } else {
                let b = sp_lex_block(rd);
                if b.err is Some {
                    UntilOut { toks: acc, rd: b.rd, stop: None, err: b.err }
                } else if b.rd.cs == rd.cs && rd.pos < b.rd.pos <= rd.cs.len() {
                    sp_lex_until(b.rd, until, acc.push(b.tok))
                } else {
                    UntilOut { toks: acc, rd: b.rd, stop: None, err: Some(sp_loc(rd)) }
                }
            }
        } else if c == '[' {
            let a = sp_lex_array(rd);
            if a.err is Some {
                UntilOut { toks: acc, rd: a.rd, stop: None, err: a.err }
            } else if a.rd.cs == rd.cs && rd.pos < a.rd.pos <= rd.cs.len() {
                sp_lex_until(a.rd, until, acc.push(a.tok))
            } else {
                UntilOut { toks: acc, rd: a.rd, stop: None, err: Some(sp_loc(rd)) }
            }
        } else if is_letter(c) {
            let s = sp_lex_symbol(rd);
            if s.rd.cs == rd.cs && rd.pos < s.rd.pos <= rd.cs.len() {
                sp_lex_until(s.rd, until, acc.push(s.tok))
            } else {
                UntilOut { toks: acc, rd: s.rd, stop: None, err: Some(sp_loc(rd)) }
            }
        } else if is_numeric_ch(c) {
            let n = sp_lex_number(rd);
            if n.rd.cs == rd.cs && rd.pos < n.rd.pos <= rd.cs.len() {
                sp_lex_until(n.rd, until, acc.push(n.tok))
            } else {
                UntilOut { toks: acc, rd: n.rd, stop: None, err: Some(sp_loc(rd)) }
            }
        } else {
            sp_lex_until(sp_take(rd), until, acc)
        }
    }
}

/// A token value with its locations forgotten: what a token says about
/// the source text, independent of where in a file it was read.
pub enum TokS {
    Symbol(Seq<char>),
    StrLit(Seq<char>),
    Number(Seq<char>),
    Block(Seq<Seq<TokS>>),
    Object(Seq<(Seq<char>, Seq<TokS>)>),
    Array(Seq<Seq<TokS>>),
    Special(Special),
    Pipe(Seq<TokS>),
    Dot,
    Eol,
}

/// A token value with its locations forgotten.
pub open spec fn strip_tok(t: TokM) -> TokS
    decreases t, 0int,
{
    match t {
        TokM::Symbol(_, s) => TokS::Symbol(s),
        TokM::StrLit(_, s) => TokS::StrLit(s),
        TokM::Number(_, s) => TokS::Number(s),
        TokM::Block(_, lines) => TokS::Block(strip_lines(lines, 0)),
        TokM::Object(_, entries) => TokS::Object(strip_ents(entries, 0)),
        TokM::Array(_, lines) => TokS::Array(strip_lines(lines, 0)),
        TokM::Special(_, s) => TokS::Special(s),
        TokM::Pipe(_, ts) => TokS::Pipe(strip_toks(ts, 0)),
        TokM::Dot(_) => TokS::Dot,
        TokM::Eol(_) => TokS::Eol,
    }
}

/// The tokens `s[i..]` with their locations forgotten.
pub open spec fn strip_toks(s: Seq<TokM>, i: int) -> Seq<TokS>
    decreases s, s.len() - i,
{
    if 0 <= i < s.len() {
        seq![strip_tok(s[i])] + strip_toks(s, i + 1)
    } else {
        Seq::empty()
    }
}

/// The token lines `ls[i..]` with their locations forgotten.
pub open spec fn strip_lines(ls: Seq<Seq<TokM>>, i: int) -> Seq<Seq<TokS>>
    decreases ls, ls.len() - i,
{
    if 0 <= i < ls.len() {
        seq![strip_toks(ls[i], 0)] + strip_lines(ls, i + 1)
    } else {
        Seq::empty()
    }
}

/// The object entries `es[i..]` with their locations forgotten.
pub open spec fn strip_ents(es: Seq<(Seq<char>, Seq<TokM>)>, i: int) -> Seq<(Seq<char>, Seq<TokS>)>
    decreases es, es.len() - i,
{
    if 0 <= i < es.len() {
        proof {
            assert(decreases_to!(es => es[i]));
            assert(decreases_to!(es[i] => es[i].1));
        }
        seq![(es[i].0, strip_toks(es[i].1, 0))] + strip_ents(es, i + 1)
    } else {
        Seq::empty()
    }
}

/// The stripped tokens are the stripped elements, in order.
pub proof fn lemma_strip_toks_elems(s: Seq<TokM>, i: int)
    requires
        0 <= i <= s.len(),
    ensures
        strip_toks(s, i).len() == s.len() - i,
        forall|k: int| 0 <= k < s.len() - i ==> strip_toks(s, i)[k] == strip_tok(s[k + i]),
    decreases s.len() - i,
{
    if i < s.len() {
        lemma_strip_toks_elems(s, i + 1);
    }
}

/// Stripping commutes with appending one token.
pub proof fn lemma_strip_toks_push(s: Seq<TokM>, t: TokM)
    ensures
        strip_toks(s.push(t), 0) == strip_toks(s, 0).push(strip_tok(t)),
{
    lemma_strip_toks_elems(s, 0);
    lemma_strip_toks_elems(s.push(t), 0);
    assert(strip_toks(s.push(t), 0) =~= strip_toks(s, 0).push(strip_tok(t)));
}

/// The stripped lines are the stripped elements, in order.
pub proof fn lemma_strip_lines_elems(ls: Seq<Seq<TokM>>, i: int)
    requires
        0 <= i <= ls.len(),
    ensures
        strip_lines(ls, i).len() == ls.len() - i,
        forall|k: int| 0 <= k < ls.len() - i ==> strip_lines(ls, i)[k] == strip_toks(ls[k + i], 0),
    decreases ls.len() - i,
{
    if i < ls.len() {
        lemma_strip_lines_elems(ls, i + 1);
    }
}

/// Stripping commutes with appending one line.
pub proof fn lemma_strip_lines_push(ls: Seq<Seq<TokM>>, l: Seq<TokM>)
    ensures
        strip_lines(ls.push(l), 0) == strip_lines(ls, 0).push(strip_toks(l, 0)),
{
    lemma_strip_lines_elems(ls, 0);
    lemma_strip_lines_elems(ls.push(l), 0);
    assert(strip_lines(ls.push(l), 0) =~= strip_lines(ls, 0).push(strip_toks(l, 0)));
}

/// The stripped entries are the stripped elements, in order.
pub proof fn lemma_strip_ents_elems(es: Seq<(Seq<char>, Seq<TokM>)>, i: int)
    requires
        0 <= i <= es.len(),
    ensures
        strip_ents(es, i).len() == es.len() - i,
        forall|k: int|
            0 <= k < es.len() - i ==> strip_ents(es, i)[k] == (
            es[k + i].0,
            strip_toks(es[k + i].1, 0),
            ),
    decreases es.len() - i,
{
    if i < es.len() {
        lemma_strip_ents_elems(es, i + 1);
    }
}

/// The characters a reader has still to read.
pub open spec fn rd_suffix(rd: RdM) -> Seq<char> {
    rd.cs.skip(rd.pos)
}

/// Consuming one character drops the first of the suffix.
pub proof fn lemma_suffix_take(rd: RdM)
    requires
        0 <= rd.pos < rd.cs.len(),
    ensures
        rd_suffix(sp_take(rd)) == rd_suffix(rd).drop_first(),
        rd_suffix(rd).len() == rd.cs.len() - rd.pos,
        rd_suffix(rd)[0] == rd.cs[rd.pos],
{
    assert(rd_suffix(sp_take(rd)) =~= rd_suffix(rd).drop_first());
}

/// Reading a string depends only on the characters left, not on where in
/// a file the reader stands: two readers with the same characters left
/// consume the same count and read the same text.
pub proof fn sh_string_body(rd1: RdM, rd2: RdM, l1: LocM, l2: LocM, acc1: Seq<char>, acc2: Seq<char>)
    requires
        0 <= rd1.pos <= rd1.cs.len(),
        0 <= rd2.pos <= rd2.cs.len(),
        rd_suffix(rd1) == rd_suffix(rd2),
    ensures
        ({
            let o1 = sp_string_body(rd1, l1, acc1);
            let o2 = sp_string_body(rd2, l2, acc2);
            &&& o1.rd.cs == rd1.cs && o1.rd.file == rd1.file && rd1.pos <= o1.rd.pos
                <= rd1.cs.len()
            &&& o2.rd.cs == rd2.cs && o2.rd.file == rd2.file && rd2.pos <= o2.rd.pos
                <= rd2.cs.len()
            &&& o1.rd.pos - rd1.pos == o2.rd.pos - rd2.pos
            &&& rd_suffix(o1.rd) == rd_suffix(o2.rd)
            &&& o1.tok is StrLit && o2.tok is StrLit
            &&& o1.tok->StrLit_1.len() - acc1.len() == o2.tok->StrLit_1.len() - acc2.len() >= 0
            &&& o1.tok->StrLit_1.take(acc1.len() as int) == acc1
            &&& o2.tok->StrLit_1.take(acc2.len() as int) == acc2
            &&& o1.tok->StrLit_1.skip(acc1.len() as int) == o2.tok->StrLit_1.skip(
                acc2.len() as int,
            )
        }),
    decreases rd_rem(rd1),
{
    assert(rd_suffix(rd1).len() == rd1.cs.len() - rd1.pos);
    assert(rd_suffix(rd2).len() == rd2.cs.len() - rd2.pos);
    if rd1.pos >= rd1.cs.len() {
        assert(acc1.take(acc1.len() as int) =~= acc1);
        assert(acc2.take(acc2.len() as int) =~= acc2);
        assert(acc1.skip(acc1.len() as int) =~= acc2.skip(acc2.len() as int));
    } else {
        assert(rd_suffix(rd1)[0] == rd1.cs[rd1.pos]);
        assert(rd_suffix(rd2)[0] == rd2.cs[rd2.pos]);
        let c = rd1.cs[rd1.pos];
        lemma_suffix_take(rd1);
        lemma_suffix_take(rd2);
        if c == '\\' {
            let rd1a = sp_take(rd1);
            let rd2a = sp_take(rd2);
            if rd1a.pos >= rd1a.cs.len() {
                assert(acc1.take(acc1.len() as int) =~= acc1);
                assert(acc2.take(acc2.len() as int) =~= acc2);
                assert(acc1.skip(acc1.len() as int) =~= acc2.skip(acc2.len() as int));
            } else {
                assert(rd_suffix(rd1a)[0] == rd1a.cs[rd1a.pos]);
                assert(rd_suffix(rd2a)[0] == rd2a.cs[rd2a.pos]);
                let c2 = rd1a.cs[rd1a.pos];
                lemma_suffix_take(rd1a);
                lemma_suffix_take(rd2a);
                sh_string_body(sp_take(rd1a), sp_take(rd2a), l1, l2, acc1.push(c2), acc2.push(c2));
                lemma_strip_acc_push(
                    sp_string_body(rd1, l1, acc1).tok->StrLit_1,
                    sp_string_body(rd2, l2, acc2).tok->StrLit_1,
                    acc1,
                    acc2,
                    c2,
                );
            }
        } else if c == '"' {
            assert(acc1.take(acc1.len() as int) =~= acc1);
            assert(acc2.take(acc2.len() as int) =~= acc2);
            assert(acc1.skip(acc1.len() as int) =~= acc2.skip(acc2.len() as int));
        } else {
            sh_string_body(sp_take(rd1), sp_take(rd2), l1, l2, acc1.push(c), acc2.push(c));
            lemma_strip_acc_push(
                sp_string_body(rd1, l1, acc1).tok->StrLit_1,
                sp_string_body(rd2, l2, acc2).tok->StrLit_1,
                acc1,
                acc2,
                c,
            );
        }
    }
}

/// Text accumulated so far only grows at the end: facts about the run
/// with one more accumulated character carry back one step.
proof fn lemma_strip_acc_push(s1: Seq<char>, s2: Seq<char>, acc1: Seq<char>, acc2: Seq<char>, c: char)
    requires
        s1.len() - acc1.len() - 1 == s2.len() - acc2.len() - 1 >= 0,
        s1.take(acc1.len() as int + 1) == acc1.push(c),
        s2.take(acc2.len() as int + 1) == acc2.push(c),
        s1.skip(acc1.len() as int + 1) == s2.skip(acc2.len() as int + 1),
    ensures
        s1.len() - acc1.len() == s2.len() - acc2.len() >= 0,
        s1.take(acc1.len() as int) == acc1,
        s2.take(acc2.len() as int) == acc2,
        s1.skip(acc1.len() as int) == s2.skip(acc2.len() as int),
{
    assert(s1.take(acc1.len() as int) =~= s1.take(acc1.len() as int + 1).take(acc1.len() as int));
    assert(s1.take(acc1.len() as int + 1).take(acc1.len() as int) =~= acc1);
    assert(s2.take(acc2.len() as int) =~= s2.take(acc2.len() as int + 1).take(acc2.len() as int));
    assert(s2.take(acc2.len() as int + 1).take(acc2.len() as int) =~= acc2);
    assert(s1.skip(acc1.len() as int) =~= s2.skip(acc2.len() as int)) by {
        assert forall|k: int| 0 <= k < s1.len() - acc1.len() implies s1.skip(acc1.len() as int)[k]
            == s2.skip(acc2.len() as int)[k] by {
            assert(s1.skip(acc1.len() as int)[k] == s1[acc1.len() as int + k]);
            assert(s2.skip(acc2.len() as int)[k] == s2[acc2.len() as int + k]);
            if k == 0 {
                assert(s1[acc1.len() as int] == s1.take(acc1.len() as int + 1)[acc1.len() as int]);
                assert(s1.take(acc1.len() as int + 1)[acc1.len() as int] == acc1.push(
                    c,
                )[acc1.len() as int]);
                assert(acc1.push(c)[acc1.len() as int] == c);
                assert(s2[acc2.len() as int] == s2.take(acc2.len() as int + 1)[acc2.len() as int]);
                assert(s2.take(acc2.len() as int + 1)[acc2.len() as int] == acc2.push(
                    c,
                )[acc2.len() as int]);
                assert(acc2.push(c)[acc2.len() as int] == c);
            } else {
                assert(s1.skip(acc1.len() as int + 1)[k - 1] == s1[acc1.len() as int + 1 + (k
                    - 1)]);
                assert(s2.skip(acc2.len() as int + 1)[k - 1] == s2[acc2.len() as int + 1 + (k
                    - 1)]);
                assert(s1.skip(acc1.len() as int + 1)[k - 1] == s2.skip(acc2.len() as int + 1)[k
                    - 1]);
            }
        }
    }
}

/// Reading a symbol depends only on the characters left.
pub proof fn sh_symbol_body(rd1: RdM, rd2: RdM, l1: LocM, l2: LocM, acc1: Seq<char>, acc2: Seq<char>)
    requires
        0 <= rd1.pos <= rd1.cs.len(),
        0 <= rd2.pos <= rd2.cs.len(),
        rd_suffix(rd1) == rd_suffix(rd2),
    ensures
        ({
            let o1 = sp_symbol_body(rd1, l1, acc1);
            let o2 = sp_symbol_body(rd2, l2, acc2);
            &&& o1.rd.cs == rd1.cs && o1.rd.file == rd1.file && rd1.pos <= o1.rd.pos
                <= rd1.cs.len()
            &&& o2.rd.cs == rd2.cs && o2.rd.file == rd2.file && rd2.pos <= o2.rd.pos
                <= rd2.cs.len()
            &&& o1.rd.pos - rd1.pos == o2.rd.pos - rd2.pos
            &&& rd_suffix(o1.rd) == rd_suffix(o2.rd)
            &&& o1.tok is Symbol && o2.tok is Symbol
            &&& o1.tok->Symbol_1.len() - acc1.len() == o2.tok->Symbol_1.len() - acc2.len() >= 0
            &&& o1.tok->Symbol_1.take(acc1.len() as int) == acc1
            &&& o2.tok->Symbol_1.take(acc2.len() as int) == acc2
            &&& o1.tok->Symbol_1.skip(acc1.len() as int) == o2.tok->Symbol_1.skip(
                acc2.len() as int,
            )
        }),
    decreases rd_rem(rd1),
{
    assert(rd_suffix(rd1).len() == rd1.cs.len() - rd1.pos);
    assert(rd_suffix(rd2).len() == rd2.cs.len() - rd2.pos);
    if rd1.pos < rd1.cs.len() {
        assert(rd_suffix(rd1)[0] == rd1.cs[rd1.pos]);
        assert(rd_suffix(rd2)[0] == rd2.cs[rd2.pos]);
    }
    if rd1.pos < rd1.cs.len() && (is_letter(rd1.cs[rd1.pos]) || is_numeric_ch(rd1.cs[rd1.pos])) {
        let c = rd1.cs[rd1.pos];
        lemma_suffix_take(rd1);
        lemma_suffix_take(rd2);
        sh_symbol_body(sp_take(rd1), sp_take(rd2), l1, l2, acc1.push(c), acc2.push(c));
        lemma_strip_acc_push(
            sp_symbol_body(rd1, l1, acc1).tok->Symbol_1,
            sp_symbol_body(rd2, l2, acc2).tok->Symbol_1,
            acc1,
            acc2,
            c,
        );
    } else {
        assert(acc1.take(acc1.len() as int) =~= acc1);
        assert(acc2.take(acc2.len() as int) =~= acc2);
        assert(acc1.skip(acc1.len() as int) =~= acc2.skip(acc2.len() as int));
    }
}

/// Reading a number depends only on the characters left.
pub proof fn sh_number_body(rd1: RdM, rd2: RdM, l1: LocM, l2: LocM, acc1: Seq<char>, acc2: Seq<char>)
    requires
        0 <= rd1.pos <= rd1.cs.len(),
        0 <= rd2.pos <= rd2.cs.len(),
        rd_suffix(rd1) == rd_suffix(rd2),
    ensures
        ({
            let o1 = sp_number_body(rd1, l1, acc1);
            let o2 = sp_number_body(rd2, l2, acc2);
            &&& o1.rd.cs == rd1.cs && o1.rd.file == rd1.file && rd1.pos <= o1.rd.pos
                <= rd1.cs.len()
            &&& o2.rd.cs == rd2.cs && o2.rd.file == rd2.file && rd2.pos <= o2.rd.pos
                <= rd2.cs.len()
            &&& o1.rd.pos - rd1.pos == o2.rd.pos - rd2.pos
            &&& rd_suffix(o1.rd) == rd_suffix(o2.rd)
            &&& o1.tok is Number && o2.tok is Number
            &&& o1.tok->Number_1.len() - acc1.len() == o2.tok->Number_1.len() - acc2.len() >= 0
            &&& o1.tok->Number_1.take(acc1.len() as int) == acc1
            &&& o2.tok->Number_1.take(acc2.len() as int) == acc2
            &&& o1.tok->Number_1.skip(acc1.len() as int) == o2.tok->Number_1.skip(
                acc2.len() as int,
            )
        }),
    decreases rd_rem(rd1),
{
    assert(rd_suffix(rd1).len() == rd1.cs.len() - rd1.pos);
    assert(rd_suffix(rd2).len() == rd2.cs.len() - rd2.pos);
    if rd1.pos < rd1.cs.len() {
        assert(rd_suffix(rd1)[0] == rd1.cs[rd1.pos]);
        assert(rd_suffix(rd2)[0] == rd2.cs[rd2.pos]);
    }
    if rd1.pos < rd1.cs.len() && is_numeric_ch(rd1.cs[rd1.pos]) {
        let c = rd1.cs[rd1.pos];
        lemma_suffix_take(rd1);
        lemma_suffix_take(rd2);
        sh_number_body(sp_take(rd1), sp_take(rd2), l1, l2, acc1.push(c), acc2.push(c));
        lemma_strip_acc_push(
            sp_number_body(rd1, l1, acc1).tok->Number_1,
            sp_number_body(rd2, l2, acc2).tok->Number_1,
            acc1,
            acc2,
            c,
        );
    } else if rd1.pos < rd1.cs.len() && rd1.cs[rd1.pos] == '_' {
        lemma_suffix_take(rd1);
        lemma_suffix_take(rd2);
        sh_number_body(sp_take(rd1), sp_take(rd2), l1, l2, acc1, acc2);
    } else if rd1.pos < rd1.cs.len() && rd1.cs[rd1.pos] == '.' {
        let c = rd1.cs[rd1.pos];
        lemma_suffix_take(rd1);
        lemma_suffix_take(rd2);
        sh_number_body(sp_take(rd1), sp_take(rd2), l1, l2, acc1.push(c), acc2.push(c));
        lemma_strip_acc_push(
            sp_number_body(rd1, l1, acc1).tok->Number_1,
            sp_number_body(rd2, l2, acc2).tok->Number_1,
            acc1,
            acc2,
            c,
        );
    } else {
        assert(acc1.take(acc1.len() as int) =~= acc1);
        assert(acc2.take(acc2.len() as int) =~= acc2);
        assert(acc1.skip(acc1.len() as int) =~= acc2.skip(acc2.len() as int));
    }
}

/// How the reader states of two corresponding runs relate: each stays in
/// its own text, both consume the same count, and the same characters
/// are left.
pub open spec fn sh_rd_ok(rd1: RdM, o1: RdM, rd2: RdM, o2: RdM) -> bool {
    &&& o1.cs == rd1.cs && o1.file == rd1.file && rd1.pos <= o1.pos <= rd1.cs.len()
    &&& o2.cs == rd2.cs && o2.file == rd2.file && rd2.pos <= o2.pos <= rd2.cs.len()
    &&& o1.pos - rd1.pos == o2.pos - rd2.pos
    &&& rd_suffix(o1) == rd_suffix(o2)
}

/// Tokens stripped of their locations keep their variants.
proof fn lemma_strip_variant(t1: TokM, t2: TokM)
    requires
        strip_tok(t1) == strip_tok(t2),
    ensures
        (t1 is Special) <==> (t2 is Special),
        (t1 is Pipe) <==> (t2 is Pipe),
{
}

/// Token runs accumulated so far only grow at the end: facts about the
/// runs with one more accumulated token carry back one step.
proof fn lemma_toks_acc_push(
    s1: Seq<TokM>,
    s2: Seq<TokM>,
    acc1: Seq<TokM>,
    acc2: Seq<TokM>,
    t1: TokM,
    t2: TokM,
)
    requires
        strip_tok(t1) == strip_tok(t2),
        s1.len() - acc1.len() - 1 == s2.len() - acc2.len() - 1 >= 0,
        s1.take(acc1.len() as int + 1) == acc1.push(t1),
        s2.take(acc2.len() as int + 1) == acc2.push(t2),
        strip_toks(s1, acc1.len() as int + 1) == strip_toks(s2, acc2.len() as int + 1),
    ensures
        s1.len() - acc1.len() == s2.len() - acc2.len() >= 0,
        s1.take(acc1.len() as int) == acc1,
        s2.take(acc2.len() as int) == acc2,
        strip_toks(s1, acc1.len() as int) == strip_toks(s2, acc2.len() as int),
{
    assert(s1.take(acc1.len() as int) =~= s1.take(acc1.len() as int + 1).take(acc1.len() as int));
    assert(s1.take(acc1.len() as int + 1).take(acc1.len() as int) =~= acc1);
    assert(s2.take(acc2.len() as int) =~= s2.take(acc2.len() as int + 1).take(acc2.len() as int));
    assert(s2.take(acc2.len() as int + 1).take(acc2.len() as int) =~= acc2);
    assert(s1[acc1.len() as int] == s1.take(acc1.len() as int + 1)[acc1.len() as int]);
    assert(s1.take(acc1.len() as int + 1)[acc1.len() as int] == acc1.push(t1)[acc1.len() as int]);
    assert(acc1.push(t1)[acc1.len() as int] == t1);
    assert(s2[acc2.len() as int] == s2.take(acc2.len() as int + 1)[acc2.len() as int]);
    assert(s2.take(acc2.len() as int + 1)[acc2.len() as int] == acc2.push(t2)[acc2.len() as int]);
    assert(acc2.push(t2)[acc2.len() as int] == t2);
    assert(strip_toks(s1, acc1.len() as int) == seq![strip_tok(t1)] + strip_toks(
        s1,
        acc1.len() as int + 1,
    ));
    assert(strip_toks(s2, acc2.len() as int) == seq![strip_tok(t2)] + strip_toks(
        s2,
        acc2.len() as int + 1,
    ));
}

/// Replacing the same key with location-stripped-equal values keeps the
/// entry lists location-stripped equal.
proof fn lemma_upsert_strip(
    e1: Seq<(Seq<char>, Seq<TokM>)>,
    e2: Seq<(Seq<char>, Seq<TokM>)>,
    key: Seq<char>,
    v1: Seq<TokM>,
    v2: Seq<TokM>,
)
    requires
        e1.len() == e2.len(),
        strip_ents(e1, 0) == strip_ents(e2, 0),
        strip_toks(v1, 0) == strip_toks(v2, 0),
    ensures
        upsert(e1, key, v1).len() == upsert(e2, key, v2).len(),
        strip_ents(upsert(e1, key, v1), 0) == strip_ents(upsert(e2, key, v2), 0),
    decreases e1.len(),
{
    lemma_strip_ents_elems(e1, 0);
    lemma_strip_ents_elems(e2, 0);
    if e1.len() == 0 {
        lemma_strip_ents_elems(upsert(e1, key, v1), 0);
        lemma_strip_ents_elems(upsert(e2, key, v2), 0);
        assert(strip_ents(upsert(e1, key, v1), 0) =~= strip_ents(upsert(e2, key, v2), 0));
    } else {
        assert(strip_ents(e1, 0)[0] == (e1[0].0, strip_toks(e1[0].1, 0)));
        assert(strip_ents(e2, 0)[0] == (e2[0].0, strip_toks(e2[0].1, 0)));
        assert(e1[0].0 == e2[0].0);
        if e1[0].0 == key {
            assert(upsert(e1, key, v1) == seq![(key, v1)] + e1.drop_first());
            assert(upsert(e2, key, v2) == seq![(key, v2)] + e2.drop_first());
            lemma_strip_ents_elems(upsert(e1, key, v1), 0);
            lemma_strip_ents_elems(upsert(e2, key, v2), 0);
            assert forall|k: int|
                0 <= k < e1.len() implies strip_ents(upsert(e1, key, v1), 0)[k] == strip_ents(
                upsert(e2, key, v2),
                0,
            )[k] by {
                if k > 0 {
                    assert(upsert(e1, key, v1)[k] == e1[k]);
                    assert(upsert(e2, key, v2)[k] == e2[k]);
                    assert(strip_ents(e1, 0)[k] == strip_ents(e2, 0)[k]);
                }
            }
            assert(strip_ents(upsert(e1, key, v1), 0) =~= strip_ents(upsert(e2, key, v2), 0));
        } else {
            assert(forall|k: int|
                0 <= k < e1.len() - 1 ==> #[trigger] e1.drop_first()[k] == e1[k + 1]);
            assert(forall|k: int|
                0 <= k < e2.len() - 1 ==> #[trigger] e2.drop_first()[k] == e2[k + 1]);
            lemma_strip_ents_elems(e1.drop_first(), 0);
            lemma_strip_ents_elems(e2.drop_first(), 0);
            assert forall|k: int|
                0 <= k < e1.len() - 1 implies strip_ents(e1.drop_first(), 0)[k] == strip_ents(
                e2.drop_first(),
                0,
            )[k] by {
                assert(e1.drop_first()[k] == e1[k + 1]);
                assert(e2.drop_first()[k] == e2[k + 1]);
                assert(strip_ents(e1, 0)[k + 1] == strip_ents(e2, 0)[k + 1]);
            }
            assert(strip_ents(e1.drop_first(), 0) =~= strip_ents(e2.drop_first(), 0));
            lemma_upsert_strip(e1.drop_first(), e2.drop_first(), key, v1, v2);
            assert(upsert(e1, key, v1) == seq![e1[0]] + upsert(e1.drop_first(), key, v1));
            assert(upsert(e2, key, v2) == seq![e2[0]] + upsert(e2.drop_first(), key, v2));
            lemma_strip_ents_elems(upsert(e1.drop_first(), key, v1), 0);
            lemma_strip_ents_elems(upsert(e2.drop_first(), key, v2), 0);
            lemma_strip_ents_elems(upsert(e1, key, v1), 0);
            lemma_strip_ents_elems(upsert(e2, key, v2), 0);
            assert forall|k: int|
                0 <= k < upsert(e1, key, v1).len() implies strip_ents(upsert(e1, key, v1), 0)[k]
                == strip_ents(upsert(e2, key, v2), 0)[k] by {
                if k == 0 {
                    assert(upsert(e1, key, v1)[0] == e1[0]);
                    assert(upsert(e2, key, v2)[0] == e2[0]);
                    assert(strip_toks(e1[0].1, 0) == strip_toks(e2[0].1, 0));
                } else {
                    assert(upsert(e1, key, v1)[k] == upsert(e1.drop_first(), key, v1)[k - 1]);
                    assert(upsert(e2, key, v2)[k] == upsert(e2.drop_first(), key, v2)[k - 1]);
                    assert(strip_ents(upsert(e1.drop_first(), key, v1), 0)[k - 1] == strip_ents(
                        upsert(e2.drop_first(), key, v2),
                        0,
                    )[k - 1]);
                }
            }
            assert(strip_ents(upsert(e1, key, v1), 0) =~= strip_ents(upsert(e2, key, v2), 0));
        }
    }
}

/// One tokenizing run depends only on the characters left and the stop
/// set, never on where in which file the reader stands: two runs over the
/// same remaining characters read the same tokens up to locations, stop
/// the same way, and consume the same count. This is what makes a pipe
/// capture sound: capturing from the middle of a source reads exactly
/// what a fresh run over the remaining text reads.
#[verifier::rlimit(100)]
pub proof fn sh_until(rd1: RdM, rd2: RdM, until: Option<Seq<char>>, acc1: Seq<TokM>, acc2: Seq<TokM>)
    requires
        0 <= rd1.pos <= rd1.cs.len(),
        0 <= rd2.pos <= rd2.cs.len(),
        rd_suffix(rd1) == rd_suffix(rd2),
        acc1.len() == acc2.len(),
        strip_toks(acc1, 0) == strip_toks(acc2, 0),
    ensures
        ({
            let o1 = sp_lex_until(rd1, until, acc1);
            let o2 = sp_lex_until(rd2, until, acc2);
            &&& sh_rd_ok(rd1, o1.rd, rd2, o2.rd)
            &&& o1.stop == o2.stop
            &&& (o1.stop matches Some(ch) ==> o1.rd.pos < rd1.cs.len() && rd1.cs[o1.rd.pos] == ch
                && o2.rd.pos < rd2.cs.len() && rd2.cs[o2.rd.pos] == ch)
            &&& (o1.err is Some) <==> (o2.err is Some)
            &&& (o1.err is None ==> {
                &&& o1.toks.len() - acc1.len() == o2.toks.len() - acc2.len() >= 0
                &&& o1.toks.take(acc1.len() as int) == acc1
                &&& o2.toks.take(acc2.len() as int) == acc2
                &&& strip_toks(o1.toks, acc1.len() as int) == strip_toks(o2.toks, acc2.len() as int)
            })
        }),
    decreases rd_rem(rd1), 2int,
{
    assert(rd_suffix(rd1).len() == rd1.cs.len() - rd1.pos);
    assert(rd_suffix(rd2).len() == rd2.cs.len() - rd2.pos);
    lemma_strip_toks_elems(acc1, 0);
    lemma_strip_toks_elems(acc2, 0);
    if rd1.pos >= rd1.cs.len() {
        assert(acc1.take(acc1.len() as int) =~= acc1);
        assert(acc2.take(acc2.len() as int) =~= acc2);
    } else {
        assert(rd_suffix(rd1)[0] == rd1.cs[rd1.pos]);
        assert(rd_suffix(rd2)[0] == rd2.cs[rd2.pos]);
        let c = rd1.cs[rd1.pos];
        if until matches Some(u) && u.contains(c) {
            assert(acc1.take(acc1.len() as int) =~= acc1);
            assert(acc2.take(acc2.len() as int) =~= acc2);
        } else {
            lemma_suffix_take(rd1);
            lemma_suffix_take(rd2);
            let rd1a = sp_take(rd1);
            let rd2a = sp_take(rd2);
            if c == '\n' || c == ';' {
                let t1 = TokM::Eol(sp_loc(rd1));
                let t2 = TokM::Eol(sp_loc(rd2));
                lemma_strip_toks_push(acc1, t1);
                lemma_strip_toks_push(acc2, t2);
                sh_until(rd1a, rd2a, until, acc1.push(t1), acc2.push(t2));
                lemma_until_acc_step(rd1a, rd2a, until, acc1, acc2, t1, t2);
            } else if c == ':' {
                sh_pipe(rd1a, rd2a);
                let p1 = sp_lex_pipe(rd1a);
                let p2 = sp_lex_pipe(rd2a);
                if p1.err is None {
                    lemma_strip_toks_push(acc1, p1.tok);
                    lemma_strip_toks_push(acc2, p2.tok);
                    sh_until(p1.rd, p2.rd, until, acc1.push(p1.tok), acc2.push(p2.tok));
                    lemma_until_acc_step(p1.rd, p2.rd, until, acc1, acc2, p1.tok, p2.tok);
                }
            } else if c == '=' {
                let t1: TokM;
                let t2: TokM;
                let rd1b: RdM;
                let rd2b: RdM;
                if rd1a.pos < rd1a.cs.len() && rd1a.cs[rd1a.pos] == '=' {
                    assert(rd_suffix(rd1a)[0] == rd1a.cs[rd1a.pos]);
                    assert(rd_suffix(rd2a)[0] == rd2a.cs[rd2a.pos]);
                    lemma_suffix_take(rd1a);
                    lemma_suffix_take(rd2a);
                    t1 = TokM::Special(sp_loc(rd1), Special::Equality);
                    t2 = TokM::Special(sp_loc(rd2), Special::Equality);
                    rd1b = sp_take(rd1a);
                    rd2b = sp_take(rd2a);
                } else {
                    if rd2a.pos < rd2a.cs.len() && rd2a.cs[rd2a.pos] == '=' {
                        assert(rd_suffix(rd1a)[0] == rd1a.cs[rd1a.pos]);
                        assert(rd_suffix(rd2a)[0] == rd2a.cs[rd2a.pos]);
                        assert(false);
                    }
                    t1 = TokM::Special(sp_loc(rd1), Special::Assign);
                    t2 = TokM::Special(sp_loc(rd2), Special::Assign);
                    rd1b = rd1a;
                    rd2b = rd2a;
                }
                lemma_strip_toks_push(acc1, t1);
                lemma_strip_toks_push(acc2, t2);
                sh_until(rd1b, rd2b, until, acc1.push(t1), acc2.push(t2));
                lemma_until_acc_step(rd1b, rd2b, until, acc1, acc2, t1, t2);
            } else if c == '.' {
                let t1 = TokM::Dot(sp_loc(rd1a));
                let t2 = TokM::Dot(sp_loc(rd2a));
                lemma_strip_toks_push(acc1, t1);
                lemma_strip_toks_push(acc2, t2);
                sh_until(rd1a, rd2a, until, acc1.push(t1), acc2.push(t2));
                lemma_until_acc_step(rd1a, rd2a, until, acc1, acc2, t1, t2);
            } else if c == '"' {
                sh_string_body(rd1a, rd2a, sp_loc(rd1), sp_loc(rd2), Seq::empty(), Seq::empty());
                let s1 = sp_lex_string(rd1);
                let s2 = sp_lex_string(rd2);
                assert(s1.tok->StrLit_1 =~= s1.tok->StrLit_1.skip(0));
                assert(s2.tok->StrLit_1 =~= s2.tok->StrLit_1.skip(0));
                assert(strip_tok(s1.tok) == strip_tok(s2.tok));
                lemma_strip_toks_push(acc1, s1.tok);
                lemma_strip_toks_push(acc2, s2.tok);
                sh_until(s1.rd, s2.rd, until, acc1.push(s1.tok), acc2.push(s2.tok));
                lemma_until_acc_step(s1.rd, s2.rd, until, acc1, acc2, s1.tok, s2.tok);
            } else if c == '{' {
                if acc1.len() > 0 {
                    assert(strip_tok(acc1.last()) == strip_toks(acc1, 0)[acc1.len() - 1]);
                    assert(strip_tok(acc2.last()) == strip_toks(acc2, 0)[acc2.len() - 1]);
                    lemma_strip_variant(acc1.last(), acc2.last());
                }
                if acc1.len() > 0 && is_obj_ctx(acc1.last()) {
                    sh_object(rd1, rd2);
                    let o1 = sp_lex_object(rd1);
                    let o2 = sp_lex_object(rd2);
                    if o1.err is None {
                        lemma_strip_toks_push(acc1, o1.tok);
                        lemma_strip_toks_push(acc2, o2.tok);
                        if o1.rd.cs == rd1.cs && rd1.pos < o1.rd.pos <= rd1.cs.len() {
                            sh_until(o1.rd, o2.rd, until, acc1.push(o1.tok), acc2.push(o2.tok));
                            lemma_until_acc_step(o1.rd, o2.rd, until, acc1, acc2, o1.tok, o2.tok);
                        }
                    }
                } else {
                    sh_block(rd1, rd2);
                    let b1 = sp_lex_block(rd1);
                    let b2 = sp_lex_block(rd2);
                    if b1.err is None {
                        lemma_strip_toks_push(acc1, b1.tok);
                        lemma_strip_toks_push(acc2, b2.tok);
                        if b1.rd.cs == rd1.cs && rd1.pos < b1.rd.pos <= rd1.cs.len() {
                            sh_until(b1.rd, b2.rd, until, acc1.push(b1.tok), acc2.push(b2.tok));
                            lemma_until_acc_step(b1.rd, b2.rd, until, acc1, acc2, b1.tok, b2.tok);
                        }
                    }
                }
            } else if c == '[' {
                sh_array(rd1, rd2);
                let a1 = sp_lex_array(rd1);
                let a2 = sp_lex_array(rd2);
                if a1.err is None {
                    lemma_strip_toks_push(acc1, a1.tok);
                    lemma_strip_toks_push(acc2, a2.tok);
                    if a1.rd.cs == rd1.cs && rd1.pos < a1.rd.pos <= rd1.cs.len() {
                        sh_until(a1.rd, a2.rd, until, acc1.push(a1.tok), acc2.push(a2.tok));
                        lemma_until_acc_step(a1.rd, a2.rd, until, acc1, acc2, a1.tok, a2.tok);
                    }
                }
            } else if is_letter(c) {
                sh_symbol_body(rd1, rd2, sp_loc(rd1), sp_loc(rd2), Seq::empty(), Seq::empty());
                let s1 = sp_lex_symbol(rd1);
                let s2 = sp_lex_symbol(rd2);
                assert(s1.tok->Symbol_1 =~= s1.tok->Symbol_1.skip(0));
                assert(s2.tok->Symbol_1 =~= s2.tok->Symbol_1.skip(0));
                assert(strip_tok(s1.tok) == strip_tok(s2.tok));
                lemma_strip_toks_push(acc1, s1.tok);
                lemma_strip_toks_push(acc2, s2.tok);
                if s1.rd.cs == rd1.cs && rd1.pos < s1.rd.pos <= rd1.cs.len() {
                    sh_until(s1.rd, s2.rd, until, acc1.push(s1.tok), acc2.push(s2.tok));
                    lemma_until_acc_step(s1.rd, s2.rd, until, acc1, acc2, s1.tok, s2.tok);
                }
            } else if is_numeric_ch(c) {
                sh_number_body(rd1, rd2, sp_loc(rd1), sp_loc(rd2), Seq::empty(), Seq::empty());
                let n1 = sp_lex_number(rd1);
                let n2 = sp_lex_number(rd2);
                assert(n1.tok->Number_1 =~= n1.tok->Number_1.skip(0));
                assert(n2.tok->Number_1 =~= n2.tok->Number_1.skip(0));
                assert(strip_tok(n1.tok) == strip_tok(n2.tok));
                lemma_strip_toks_push(acc1, n1.tok);
                lemma_strip_toks_push(acc2, n2.tok);
                if n1.rd.cs == rd1.cs && rd1.pos < n1.rd.pos <= rd1.cs.len() {
                    sh_until(n1.rd, n2.rd, until, acc1.push(n1.tok), acc2.push(n2.tok));
                    lemma_until_acc_step(n1.rd, n2.rd, until, acc1, acc2, n1.tok, n2.tok);
                }
            } else {
                sh_until(rd1a, rd2a, until, acc1, acc2);
            }
        }
    }
}

/// Carries the accumulator facts of one recursive tokenizing step back to
/// the step before it.
proof fn lemma_until_acc_step(
    rd1: RdM,
    rd2: RdM,
    until: Option<Seq<char>>,
    acc1: Seq<TokM>,
    acc2: Seq<TokM>,
    t1: TokM,
    t2: TokM,
)
    requires
        strip_tok(t1) == strip_tok(t2),
        ({
            let o1 = sp_lex_until(rd1, until, acc1.push(t1));
            let o2 = sp_lex_until(rd2, until, acc2.push(t2));
            &&& acc1.len() == acc2.len()
            &&& (o1.err is None ==> {
                &&& o1.toks.len() - acc1.len() - 1 == o2.toks.len() - acc2.len() - 1 >= 0
                &&& o1.toks.take(acc1.len() as int + 1) == acc1.push(t1)
                &&& o2.toks.take(acc2.len() as int + 1) == acc2.push(t2)
                &&& strip_toks(o1.toks, acc1.len() as int + 1) == strip_toks(
                    o2.toks,
                    acc2.len() as int + 1,
                )
            })
        }),
    ensures
        ({
            let o1 = sp_lex_until(rd1, until, acc1.push(t1));
            let o2 = sp_lex_until(rd2, until, acc2.push(t2));
            o1.err is None ==> {
                &&& o1.toks.len() - acc1.len() == o2.toks.len() - acc2.len() >= 0
                &&& o1.toks.take(acc1.len() as int) == acc1
                &&& o2.toks.take(acc2.len() as int) == acc2
                &&& strip_toks(o1.toks, acc1.len() as int) == strip_toks(o2.toks, acc2.len() as int)
            }
        }),
{
    let o1 = sp_lex_until(rd1, until, acc1.push(t1));
    let o2 = sp_lex_until(rd2, until, acc2.push(t2));
    if o1.err is None {
        lemma_toks_acc_push(o1.toks, o2.toks, acc1, acc2, t1, t2);
    }
}

/// A pipe capture depends only on the characters left.
pub proof fn sh_pipe(rd1: RdM, rd2: RdM)
    requires
        0 <= rd1.pos <= rd1.cs.len(),
        0 <= rd2.pos <= rd2.cs.len(),
        rd_suffix(rd1) == rd_suffix(rd2),
    ensures
        ({
            let o1 = sp_lex_pipe(rd1);
            let o2 = sp_lex_pipe(rd2);
            &&& sh_rd_ok(rd1, o1.rd, rd2, o2.rd)
            &&& (o1.err is Some) <==> (o2.err is Some)
            &&& (o1.err is None ==> o1.tok is Pipe && o2.tok is Pipe && strip_tok(o1.tok)
                == strip_tok(o2.tok))
        }),
    decreases rd_rem(rd1), 4int,
{
    sh_until(rd1, rd2, Some(pipe_stops()), Seq::empty(), Seq::empty());
    let u1 = sp_lex_until(rd1, Some(pipe_stops()), Seq::empty());
    let u2 = sp_lex_until(rd2, Some(pipe_stops()), Seq::empty());
    if u1.err is None {
        assert(strip_toks(u1.toks, 0) == strip_toks(u2.toks, 0));
    }
}

/// Reading a block depends only on the characters left.
pub proof fn sh_block(rd1: RdM, rd2: RdM)
    requires
        0 <= rd1.pos <= rd1.cs.len(),
        0 <= rd2.pos <= rd2.cs.len(),
        rd_suffix(rd1) == rd_suffix(rd2),
    ensures
        ({
            let o1 = sp_lex_block(rd1);
            let o2 = sp_lex_block(rd2);
            &&& sh_rd_ok(rd1, o1.rd, rd2, o2.rd)
            &&& (o1.err is Some) <==> (o2.err is Some)
            &&& (o1.err is None ==> o1.tok is Block && o2.tok is Block && strip_tok(o1.tok)
                == strip_tok(o2.tok))
        }),
    decreases rd_rem(rd1), 1int,
{
    assert(rd_suffix(rd1).len() == rd1.cs.len() - rd1.pos);
    assert(rd_suffix(rd2).len() == rd2.cs.len() - rd2.pos);
    if rd1.pos < rd1.cs.len() {
        lemma_suffix_take(rd1);
        lemma_suffix_take(rd2);
        lemma_strip_lines_elems(Seq::<Seq<TokM>>::empty(), 0);
        assert(strip_lines(Seq::<Seq<TokM>>::empty(), 0) =~= Seq::<Seq<TokS>>::empty());
        sh_block_body(
            sp_take(rd1),
            sp_take(rd2),
            sp_loc(rd1),
            sp_loc(rd2),
            Seq::empty(),
            Seq::empty(),
        );
    }
}

/// Reading a block's lines depends only on the characters left and the
/// lines read so far (up to locations).
pub proof fn sh_block_body(
    rd1: RdM,
    rd2: RdM,
    l1: LocM,
    l2: LocM,
    a1: Seq<Seq<TokM>>,
    a2: Seq<Seq<TokM>>,
)
    requires
        0 <= rd1.pos <= rd1.cs.len(),
        0 <= rd2.pos <= rd2.cs.len(),
        rd_suffix(rd1) == rd_suffix(rd2),
        a1.len() == a2.len(),
        strip_lines(a1, 0) == strip_lines(a2, 0),
    ensures
        ({
            let o1 = sp_block_body(rd1, l1, a1);
            let o2 = sp_block_body(rd2, l2, a2);
            &&& sh_rd_ok(rd1, o1.rd, rd2, o2.rd)
            &&& (o1.err is Some) <==> (o2.err is Some)
            &&& (o1.err is None ==> o1.tok is Block && o2.tok is Block && strip_tok(o1.tok)
                == strip_tok(o2.tok))
        }),
    decreases rd_rem(rd1), 3int,
{
    sh_until(rd1, rd2, Some(block_stops()), Seq::empty(), Seq::empty());
    let u1 = sp_lex_until(rd1, Some(block_stops()), Seq::empty());
    let u2 = sp_lex_until(rd2, Some(block_stops()), Seq::empty());
    if u1.err is None {
        match u1.stop {
            None => {},
            Some(ending) => {
                lemma_suffix_take(u1.rd);
                lemma_suffix_take(u2.rd);
                assert(strip_toks(u1.toks, 0) == strip_toks(u2.toks, 0));
                let a1b = if u1.toks.len() > 0 {
                    a1.push(u1.toks)
                } else {
                    a1
                };
                let a2b = if u2.toks.len() > 0 {
                    a2.push(u2.toks)
                } else {
                    a2
                };
                if u1.toks.len() > 0 {
                    lemma_strip_lines_push(a1, u1.toks);
                    lemma_strip_lines_push(a2, u2.toks);
                }
                if ending != '}' {
                    sh_block_body(sp_take(u1.rd), sp_take(u2.rd), l1, l2, a1b, a2b);
                }
            },
        }
    }
}

/// Reading an object's entries depends only on the characters left, the
/// pending key, and the entries read so far (up to locations).
pub proof fn sh_object_body(
    rd1: RdM,
    rd2: RdM,
    l1: LocM,
    l2: LocM,
    prop: Option<Seq<char>>,
    e1: Seq<(Seq<char>, Seq<TokM>)>,
    e2: Seq<(Seq<char>, Seq<TokM>)>,
)
    requires
        0 <= rd1.pos <= rd1.cs.len(),
        0 <= rd2.pos <= rd2.cs.len(),
        rd_suffix(rd1) == rd_suffix(rd2),
        e1.len() == e2.len(),
        strip_ents(e1, 0) == strip_ents(e2, 0),
    ensures
        ({
            let o1 = sp_object_body(rd1, l1, prop, e1);
            let o2 = sp_object_body(rd2, l2, prop, e2);
            &&& sh_rd_ok(rd1, o1.rd, rd2, o2.rd)
            &&& (o1.err is Some) <==> (o2.err is Some)
            &&& (o1.err is None ==> o1.tok is Object && o2.tok is Object && strip_tok(o1.tok)
                == strip_tok(o2.tok))
        }),
    decreases rd_rem(rd1), 3int,
{
    assert(rd_suffix(rd1).len() == rd1.cs.len() - rd1.pos);
    assert(rd_suffix(rd2).len() == rd2.cs.len() - rd2.pos);
    if rd1.pos < rd1.cs.len() {
        assert(rd_suffix(rd1)[0] == rd1.cs[rd1.pos]);
        assert(rd_suffix(rd2)[0] == rd2.cs[rd2.pos]);
        let c = rd1.cs[rd1.pos];
        if c == '}' {
            lemma_suffix_take(rd1);
            lemma_suffix_take(rd2);
        } else if c == '"' {
            lemma_suffix_take(rd1);
            lemma_suffix_take(rd2);
            sh_string_body(
                sp_take(rd1),
                sp_take(rd2),
                sp_loc(rd1),
                sp_loc(rd2),
                Seq::empty(),
                Seq::empty(),
            );
            let s1 = sp_lex_string(rd1);
            let s2 = sp_lex_string(rd2);
            assert(s1.tok->StrLit_1 =~= s1.tok->StrLit_1.skip(0));
            assert(s2.tok->StrLit_1 =~= s2.tok->StrLit_1.skip(0));
            sh_object_body(s1.rd, s2.rd, l1, l2, Some(s1.tok->StrLit_1), e1, e2);
        } else if is_letter(c) || is_numeric_ch(c) {
            sh_symbol_body(rd1, rd2, sp_loc(rd1), sp_loc(rd2), Seq::empty(), Seq::empty());
            let s1 = sp_lex_symbol(rd1);
            let s2 = sp_lex_symbol(rd2);
            assert(s1.tok->Symbol_1 =~= s1.tok->Symbol_1.skip(0));
            assert(s2.tok->Symbol_1 =~= s2.tok->Symbol_1.skip(0));
            lemma_symbol_progress(rd1, sp_loc(rd1));
            lemma_symbol_progress(rd2, sp_loc(rd2));
            sh_object_body(s1.rd, s2.rd, l1, l2, Some(s1.tok->Symbol_1), e1, e2);
        } else if c == ':' {
            lemma_suffix_take(rd1);
            lemma_suffix_take(rd2);
            let rd1a = sp_take(rd1);
            let rd2a = sp_take(rd2);
            sh_until(rd1a, rd2a, Some(object_stops()), Seq::empty(), Seq::empty());
            let u1 = sp_lex_until(rd1a, Some(object_stops()), Seq::empty());
            let u2 = sp_lex_until(rd2a, Some(object_stops()), Seq::empty());
            if u1.err is None {
                match u1.stop {
                    None => {},
                    Some(ending) => {
                        assert(strip_toks(u1.toks, 0) == strip_toks(u2.toks, 0));
                        let e1b = match prop {
                            Some(key) => upsert(e1, key, u1.toks),
                            None => e1,
                        };
                        let e2b = match prop {
                            Some(key) => upsert(e2, key, u2.toks),
                            None => e2,
                        };
                        match prop {
                            Some(key) => {
                                lemma_upsert_strip(e1, e2, key, u1.toks, u2.toks);
                            },
                            None => {},
                        }
                        lemma_suffix_take(u1.rd);
                        lemma_suffix_take(u2.rd);
                        if ending != '}' {
                            sh_object_body(sp_take(u1.rd), sp_take(u2.rd), l1, l2, prop, e1b, e2b);
                        }
                    },
                }
            }
        } else {
            lemma_suffix_take(rd1);
            lemma_suffix_take(rd2);
            sh_object_body(sp_take(rd1), sp_take(rd2), l1, l2, prop, e1, e2);
        }
    }
}

/// A symbol read where an alphanumeric character stands consumes at
/// least that character.
proof fn lemma_symbol_progress(rd: RdM, l: LocM)
    requires
        0 <= rd.pos < rd.cs.len(),
        is_letter(rd.cs[rd.pos]) || is_numeric_ch(rd.cs[rd.pos]),
    ensures
        sp_symbol_body(rd, l, Seq::empty()).rd.pos > rd.pos,
{
    sh_symbol_body(sp_take(rd), sp_take(rd), l, l, seq![rd.cs[rd.pos]], seq![rd.cs[rd.pos]]);
}

/// Reading an object depends only on the characters left.
pub proof fn sh_object(rd1: RdM, rd2: RdM)
    requires
        0 <= rd1.pos <= rd1.cs.len(),
        0 <= rd2.pos <= rd2.cs.len(),
        rd_suffix(rd1) == rd_suffix(rd2),
    ensures
        ({
            let o1 = sp_lex_object(rd1);
            let o2 = sp_lex_object(rd2);
            &&& sh_rd_ok(rd1, o1.rd, rd2, o2.rd)
            &&& (o1.err is Some) <==> (o2.err is Some)
            &&& (o1.err is None ==> o1.tok is Object && o2.tok is Object && strip_tok(o1.tok)
                == strip_tok(o2.tok))
        }),
    decreases rd_rem(rd1), 1int,
{
    assert(rd_suffix(rd1).len() == rd1.cs.len() - rd1.pos);
    assert(rd_suffix(rd2).len() == rd2.cs.len() - rd2.pos);
    if rd1.pos < rd1.cs.len() {
        lemma_suffix_take(rd1);
        lemma_suffix_take(rd2);
        lemma_strip_ents_elems(Seq::<(Seq<char>, Seq<TokM>)>::empty(), 0);
        assert(strip_ents(Seq::<(Seq<char>, Seq<TokM>)>::empty(), 0) =~= Seq::<
            (Seq<char>, Seq<TokS>),
        >::empty());
        sh_object_body(
            sp_take(rd1),
            sp_take(rd2),
            sp_loc(rd1),
            sp_loc(rd2),
            None,
            Seq::empty(),
            Seq::empty(),
        );
    }
}

/// Reading an array depends only on the characters left.
pub proof fn sh_array(rd1: RdM, rd2: RdM)
    requires
        0 <= rd1.pos <= rd1.cs.len(),
        0 <= rd2.pos <= rd2.cs.len(),
        rd_suffix(rd1) == rd_suffix(rd2),
    ensures
        ({
            let o1 = sp_lex_array(rd1);
            let o2 = sp_lex_array(rd2);
            &&& sh_rd_ok(rd1, o1.rd, rd2, o2.rd)
            &&& (o1.err is Some) <==> (o2.err is Some)
            &&& (o1.err is None ==> o1.tok is Array && o2.tok is Array && strip_tok(o1.tok)
                == strip_tok(o2.tok))
        }),
    decreases rd_rem(rd1), 1int,
{
    assert(rd_suffix(rd1).len() == rd1.cs.len() - rd1.pos);
    assert(rd_suffix(rd2).len() == rd2.cs.len() - rd2.pos);
    if rd1.pos < rd1.cs.len() {
        lemma_suffix_take(rd1);
        lemma_suffix_take(rd2);
        lemma_strip_lines_elems(Seq::<Seq<TokM>>::empty(), 0);
        assert(strip_lines(Seq::<Seq<TokM>>::empty(), 0) =~= Seq::<Seq<TokS>>::empty());
        sh_array_body(
            sp_take(rd1),
            sp_take(rd2),
            sp_loc(rd1),
            sp_loc(rd2),
            Seq::empty(),
            Seq::empty(),
        );
    }
}

/// Reading an array's elements depends only on the characters left and
/// the elements read so far (up to locations).
pub proof fn sh_array_body(
    rd1: RdM,
    rd2: RdM,
    l1: LocM,
    l2: LocM,
    a1: Seq<Seq<TokM>>,
    a2: Seq<Seq<TokM>>,
)
    requires
        0 <= rd1.pos <= rd1.cs.len(),
        0 <= rd2.pos <= rd2.cs.len(),
        rd_suffix(rd1) == rd_suffix(rd2),
        a1.len() == a2.len(),
        strip_lines(a1, 0) == strip_lines(a2, 0),
    ensures
        ({
            let o1 = sp_array_body(rd1, l1, a1);
            let o2 = sp_array_body(rd2, l2, a2);
            &&& sh_rd_ok(rd1, o1.rd, rd2, o2.rd)
            &&& (o1.err is Some) <==> (o2.err is Some)
            &&& (o1.err is None ==> o1.tok is Array && o2.tok is Array && strip_tok(o1.tok)
                == strip_tok(o2.tok))
        }),
    decreases rd_rem(rd1), 3int,
{
    sh_until(rd1, rd2, Some(array_stops()), Seq::empty(), Seq::empty());
    let u1 = sp_lex_until(rd1, Some(array_stops()), Seq::empty());
    let u2 = sp_lex_until(rd2, Some(array_stops()), Seq::empty());
    if u1.err is None {
        assert(strip_toks(u1.toks, 0) == strip_toks(u2.toks, 0));
        lemma_strip_lines_push(a1, u1.toks);
        lemma_strip_lines_push(a2, u2.toks);
        match u1.stop {
            None => {},
            Some(ending) => {
                lemma_suffix_take(u1.rd);
                lemma_suffix_take(u2.rd);
                if ending != ']' {
                    sh_array_body(
                        sp_take(u1.rd),
                        sp_take(u2.rd),
                        l1,
                        l2,
                        a1.push(u1.toks),
                        a2.push(u2.toks),
                    );
                }
            },
        }
    }
}

/// Capturing a pipe payload from the middle of a source yields, up to
/// locations, exactly the tokens of tokenizing the remaining text afresh:
/// the capture loses no characters and reads none twice.
pub proof fn lemma_pipe_capture_round_trip(rd: RdM, file: Seq<char>)
    requires
        0 <= rd.pos <= rd.cs.len(),
    ensures
        ({
            let p = sp_lex_pipe(rd);
            let direct = sp_lex_until(init_rd(file, rd_suffix(rd)), Some(pipe_stops()), Seq::empty());
            &&& (p.err is Some) <==> (direct.err is Some)
            &&& (p.err is None ==> strip_toks(p.tok->Pipe_1, 0) == strip_toks(direct.toks, 0))
        }),
{
    let fresh = init_rd(file, rd_suffix(rd));
    assert(rd_suffix(fresh) =~= rd_suffix(rd));
    sh_pipe(rd, fresh);
    let p1 = sp_lex_pipe(rd);
    let p2 = sp_lex_pipe(fresh);
    sh_until(fresh, fresh, Some(pipe_stops()), Seq::empty(), Seq::empty());
    if p1.err is None {
        assert(strip_tok(p1.tok) == strip_tok(p2.tok));
        assert(p2.tok->Pipe_1 == sp_lex_until(fresh, Some(pipe_stops()), Seq::empty()).toks);
    }
}

/// The reader state at the start of a source text.
pub open spec fn init_rd(file: Seq<char>, text: Seq<char>) -> RdM {
    RdM { file, row: 1, col: 0, wn: false, cs: text, pos: 0 }
}

/// What tokenizing a whole source text yields.
pub open spec fn sp_lex_file(file: Seq<char>, text: Seq<char>) -> UntilOut {
    sp_lex_until(init_rd(file, text), None, Seq::empty())
}

/// A fatal tokenizing error: a block, object or array was still open
/// when the input ended; the location is where it was opened.
#[derive(Debug)]
pub enum LexError {
    UnterminatedStructure(Location),
}

/// Reads a string literal: consumes the opening quote, then characters
/// up to the closing quote or the end of input, a `\` passing the
/// character after it through literally.
pub fn lex_string(reader: &mut Reader) -> (r: Token)
    requires
        rd_wf(old(reader)@),
        old(reader)@.pos < old(reader)@.cs.len(),
    ensures
        rd_wf(final(reader)@),
        final(reader)@.cs == old(reader)@.cs,
        final(reader)@.file == old(reader)@.file,
        old(reader)@.pos < final(reader)@.pos <= old(reader)@.cs.len(),
        final(reader)@ == sp_lex_string(old(reader)@).rd,
        tok_m(r) == sp_lex_string(old(reader)@).tok,
        r is String,
{
    let loc = reader.loc();
    let ghost loc_m = loc@;
    reader.take();
    let mut result = String::new();
    loop
        invariant
            rd_wf(reader@),
            reader@.cs == old(reader)@.cs,
            reader@.file == old(reader)@.file,
            old(reader)@.pos < reader@.pos <= reader@.cs.len(),
            loc_m == loc@,
            sp_lex_string(old(reader)@) == sp_string_body(reader@, loc_m, result@),
        decreases rd_rem(reader@),
    {
        match reader.peek() {
            Some(c) => {
                if c == '\\' {
                    reader.take();
                    match reader.peek() {
                        Some(c2) => {
                            reader.take();
                            push_char(&mut result, c2);
                        },
                        None => {
                            return Token::String(loc, result);
                        },
                    }
                } else if c == '"' {
                    reader.take();
                    return Token::String(loc, result);
                } else {
                    reader.take();
                    push_char(&mut result, c);
                }
            },
            None => {
                return Token::String(loc, result);
            },
        }
    }
}

/// Reads a symbol: the greedy run of alphanumeric characters.
pub fn lex_symbol(reader: &mut Reader) -> (r: Token)
    requires
        rd_wf(old(reader)@),
        old(reader)@.pos < old(reader)@.cs.len(),
        is_letter(old(reader)@.cs[old(reader)@.pos]) || is_numeric_ch(
            old(reader)@.cs[old(reader)@.pos],
        ),
    ensures
        rd_wf(final(reader)@),
        final(reader)@.cs == old(reader)@.cs,
        final(reader)@.file == old(reader)@.file,
        old(reader)@.pos < final(reader)@.pos <= old(reader)@.cs.len(),
        final(reader)@ == sp_lex_symbol(old(reader)@).rd,
        tok_m(r) == sp_lex_symbol(old(reader)@).tok,
        r is Symbol,
{
    let loc = reader.loc();
    let ghost loc_m = loc@;
    let mut symbol = String::new();
    let c0 = match reader.peek() {
        Some(c) => c,
        None => ' ',
    };
    reader.take();
    push_char(&mut symbol, c0);
    loop
        invariant
            rd_wf(reader@),
            reader@.cs == old(reader)@.cs,
            reader@.file == old(reader)@.file,
            old(reader)@.pos < reader@.pos <= reader@.cs.len(),
            loc_m == loc@,
            sp_lex_symbol(old(reader)@) == sp_symbol_body(reader@, loc_m, symbol@),
        decreases rd_rem(reader@),
    {
        match reader.peek() {
            Some(c) => {
                if char_is_alphanumeric(c) {
                    reader.take();
                    push_char(&mut symbol, c);
                } else {
                    return Token::Symbol(loc, symbol);
                }
            },
            None => {
                return Token::Symbol(loc, symbol);
            },
        }
    }
}

/// Reads a number: the greedy run of numeric characters, `.` kept and
/// `_` silently dropped.
pub fn lex_number(reader: &mut Reader) -> (r: Token)
    requires
        rd_wf(old(reader)@),
        old(reader)@.pos < old(reader)@.cs.len(),
        is_numeric_ch(old(reader)@.cs[old(reader)@.pos]),
    ensures
        rd_wf(final(reader)@),
        final(reader)@.cs == old(reader)@.cs,
        final(reader)@.file == old(reader)@.file,
        old(reader)@.pos < final(reader)@.pos <= old(reader)@.cs.len(),
        final(reader)@ == sp_lex_number(old(reader)@).rd,
        tok_m(r) == sp_lex_number(old(reader)@).tok,
        r is Number,
{
    let loc = reader.loc();
    let ghost loc_m = loc@;
    let mut number = String::new();
    let c0 = match reader.peek() {
        Some(c) => c,
        None => ' ',
    };
    reader.take();
    push_char(&mut number, c0);
    loop
        invariant
            rd_wf(reader@),
            reader@.cs == old(reader)@.cs,
            reader@.file == old(reader)@.file,
            old(reader)@.pos < reader@.pos <= reader@.cs.len(),
            loc_m == loc@,
            sp_lex_number(old(reader)@) == sp_number_body(reader@, loc_m, number@),
        decreases rd_rem(reader@),
    {
        match reader.peek() {
            Some(c) => {
                if char_is_numeric(c) {
                    reader.take();
                    push_char(&mut number, c);
                } else if c == '_' {
                    reader.take();
                } else if c == '.' {
                    reader.take();
                    push_char(&mut number, c);
                } else {
                    return Token::Number(loc, number);
                }
            },
            None => {
                return Token::Number(loc, number);
            },
        }
    }
}

/// Whether the vector holds the character.
pub fn char_in(v: &Vec<char>, c: char) -> (r: bool)
    ensures
        r == v@.contains(c),
{
    let mut i: usize = 0;
    while i < v.len()
        invariant
            i <= v@.len(),
            forall|k: int| 0 <= k < i ==> v@[k] != c,
        decreases v@.len() - i,
    {
        if v[i] == c {
            return true;
        }
        i += 1;
    }
    false
}

/// The stop set as a mathematical value.
pub open spec fn until_m(u: Option<&Vec<char>>) -> Option<Seq<char>> {
    match u {
        Some(v) => Some(v@),
        None => None,
    }
}

/// `upsert` replaces in place at the first occurrence of the key.
proof fn lemma_upsert_at(s: Seq<(Seq<char>, Seq<TokM>)>, key: Seq<char>, val: Seq<TokM>, j: int)
    requires
        0 <= j < s.len(),
        s[j].0 == key,
        forall|i: int| 0 <= i < j ==> s[i].0 != key,
    ensures
        upsert(s, key, val) =~= s.update(j, (key, val)),
    decreases j,
{
    if j == 0 {
        assert(upsert(s, key, val) == seq![(key, val)] + s.drop_first());
    } else {
        assert(forall|i: int| 0 <= i < j - 1 ==> s.drop_first()[i] == s[i + 1]);
        lemma_upsert_at(s.drop_first(), key, val, j - 1);
        assert(upsert(s, key, val) == seq![s[0]] + upsert(s.drop_first(), key, val));
    }
}

/// `upsert` appends when the key is absent.
proof fn lemma_upsert_none(s: Seq<(Seq<char>, Seq<TokM>)>, key: Seq<char>, val: Seq<TokM>)
    requires
        forall|i: int| 0 <= i < s.len() ==> s[i].0 != key,
    ensures
        upsert(s, key, val) =~= s.push((key, val)),
    decreases s.len(),
{
    if s.len() > 0 {
        assert(forall|i: int| 0 <= i < s.len() - 1 ==> s.drop_first()[i] == s[i + 1]);
        lemma_upsert_none(s.drop_first(), key, val);
        assert(upsert(s, key, val) == seq![s[0]] + upsert(s.drop_first(), key, val));
    }
}

/// Binds `key` to `val` among the object entries read so far: an
/// existing entry for the key is replaced in place, a new key appended.
fn upsert_entry(entries: &mut Vec<(String, Tokens)>, key: String, val: Tokens)
    ensures
        entries_m_from(*final(entries), 0) == upsert(
            entries_m_from(*old(entries), 0),
            key@,
            val@,
        ),
{
    let ghost em0 = entries_m_from(*old(entries), 0);
    proof {
        lemma_entries_m_from(*entries, 0);
    }
    let mut i: usize = 0;
    while i < entries.len()
        invariant
            *entries == *old(entries),
            em0 == entries_m_from(*entries, 0),
            em0.len() == entries@.len(),
            forall|j: int|
                0 <= j < em0.len() ==> em0[j] == (entries@[j].0@, tokens_m(entries@[j].1)),
            i <= entries@.len(),
            forall|j: int| 0 <= j < i ==> em0[j].0 != key@,
        decreases entries@.len() - i,
    {
        if crate::types::str_eq(entries[i].0.as_str(), key.as_str()) {
            entries.remove(i);
            entries.insert(i, (key, val));
            proof {
                lemma_entries_m_from(*entries, 0);
                lemma_upsert_at(em0, em0[i as int].0, tokens_m(val), i as int);
                assert(entries_m_from(*entries, 0) =~= em0.update(
                    i as int,
                    (em0[i as int].0, tokens_m(val)),
                ));
            }
            return ;
        }
        i += 1;
    }
    proof {
        lemma_upsert_none(em0, key@, tokens_m(val));
    }
    entries.push((key, val));
    proof {
        lemma_entries_m_from(*entries, 0);
        assert(entries_m_from(*entries, 0) =~= em0.push((key@, tokens_m(val))));
    }
}

/// Captures a pipe payload: the rest of the logical line, tokenized; the
/// line's end is not consumed.
pub fn lex_pipe(reader: &mut Reader) -> (r: Result<Token, LexError>)
    requires
        rd_wf(old(reader)@),
    ensures
        rd_wf(final(reader)@),
        final(reader)@.cs == old(reader)@.cs,
        final(reader)@.file == old(reader)@.file,
        old(reader)@.pos <= final(reader)@.pos <= old(reader)@.cs.len(),
        final(reader)@ == sp_lex_pipe(old(reader)@).rd,
        match r {
            Ok(t) => sp_lex_pipe(old(reader)@).err is None && tok_m(t) == sp_lex_pipe(
                old(reader)@,
            ).tok,
            Err(LexError::UnterminatedStructure(l)) => sp_lex_pipe(old(reader)@).err == Some(l@),
        },
    decreases rd_rem(reader@), 4int,
{
    let loc = reader.loc();
    let stops = vec![';', '\n'];
    proof {
        assert(stops@ =~= pipe_stops());
    }
    match lex_until(reader, Some(&stops)) {
        Ok((tokens, _stop)) => Ok(Token::Pipe(loc, tokens)),
        Err(e) => Err(e),
    }
}

/// Reads a block: consumes the opening `{`, then one token line per
/// non-empty logical line up to the matching `}`. Reaching the end of
/// input inside the block fails with the block's opening location.
pub fn lex_block(reader: &mut Reader) -> (r: Result<Token, LexError>)
    requires
        rd_wf(old(reader)@),
    ensures
        rd_wf(final(reader)@),
        final(reader)@.cs == old(reader)@.cs,
        final(reader)@.file == old(reader)@.file,
        old(reader)@.pos <= final(reader)@.pos <= old(reader)@.cs.len(),
        r is Ok ==> old(reader)@.pos < final(reader)@.pos,
        final(reader)@ == sp_lex_block(old(reader)@).rd,
        match r {
            Ok(t) => sp_lex_block(old(reader)@).err is None && tok_m(t) == sp_lex_block(
                old(reader)@,
            ).tok,
            Err(LexError::UnterminatedStructure(l)) => sp_lex_block(old(reader)@).err == Some(l@),
        },
    decreases rd_rem(reader@), 1int,
{
    let loc = reader.loc();
    let ghost loc_m = loc@;
    match reader.take() {
        None => {
            return Err(LexError::UnterminatedStructure(loc));
        },
        Some(_) => {},
    }
    let mut block: Vec<Tokens> = Vec::new();
    proof {
        lemma_lines_m_from(block, 0);
        assert(lines_m_from(block, 0) =~= Seq::<Seq<TokM>>::empty());
    }
    loop
        invariant
            rd_wf(reader@),
            reader@.cs == old(reader)@.cs,
            reader@.file == old(reader)@.file,
            old(reader)@.pos < reader@.pos <= reader@.cs.len(),
            loc_m == loc@,
            sp_lex_block(old(reader)@) == sp_block_body(reader@, loc_m, lines_m_from(block, 0)),
        decreases rd_rem(reader@),
    {
        let ghost pre = reader@;
        let ghost acc_pre = lines_m_from(block, 0);
        let stops = vec!['\n', ';', '}'];
        proof {
            assert(stops@ =~= block_stops());
        }
        match lex_until(reader, Some(&stops)) {
            Err(e) => {
                return Err(e);
            },
            Ok((tokens, ending)) => {
                match ending {
                    None => {
                        return Err(LexError::UnterminatedStructure(loc));
                    },
                    Some(ch) => {
                        reader.take();
                        let ghost tm = tokens@;
                        if tokens.len() > 0 {
                            proof {
                                lemma_lines_m_from(block, 0);
                            }
                            block.push(tokens);
                            proof {
                                lemma_lines_m_from(block, 0);
                                assert(lines_m_from(block, 0) =~= acc_pre.push(tm));
                            }
                        }
                        if ch == '}' {
                            return Ok(Token::Block(loc, block));
                        }
                    },
                }
            },
        }
    }
}

/// Reads an object literal: consumes the opening `{`, then keys given as
/// strings or symbols, each `:` capturing the entry's value up to `,` or
/// the closing `}`. Reaching the end of input inside the object fails
/// with the object's opening location.
pub fn lex_object(reader: &mut Reader) -> (r: Result<Token, LexError>)
    requires
        rd_wf(old(reader)@),
    ensures
        rd_wf(final(reader)@),
        final(reader)@.cs == old(reader)@.cs,
        final(reader)@.file == old(reader)@.file,
        old(reader)@.pos <= final(reader)@.pos <= old(reader)@.cs.len(),
        r is Ok ==> old(reader)@.pos < final(reader)@.pos,
        final(reader)@ == sp_lex_object(old(reader)@).rd,
        match r {
            Ok(t) => sp_lex_object(old(reader)@).err is None && tok_m(t) == sp_lex_object(
                old(reader)@,
            ).tok,
            Err(LexError::UnterminatedStructure(l)) => sp_lex_object(old(reader)@).err == Some(
                l@,
            ),
        },
    decreases rd_rem(reader@), 1int,
{
    let loc = reader.loc();
    let ghost loc_m = loc@;
    match reader.take() {
        None => {
            return Err(LexError::UnterminatedStructure(loc));
        },
        Some(_) => {},
    }
    let mut entries: Vec<(String, Tokens)> = Vec::new();
    let mut prop: Option<String> = None;
    proof {
        lemma_entries_m_from(entries, 0);
        assert(entries_m_from(entries, 0) =~= Seq::<(Seq<char>, Seq<TokM>)>::empty());
    }
    loop
        invariant
            rd_wf(reader@),
            reader@.cs == old(reader)@.cs,
            reader@.file == old(reader)@.file,
            old(reader)@.pos < reader@.pos <= reader@.cs.len(),
            loc_m == loc@,
            sp_lex_object(old(reader)@) == sp_object_body(
                reader@,
                loc_m,
                match prop {
                    Some(k) => Some(k@),
                    None => None,
                },
                entries_m_from(entries, 0),
            ),
        decreases rd_rem(reader@),
    {
        let ghost pre = reader@;
        let ghost ents_pre = entries_m_from(entries, 0);
        match reader.peek() {
            None => {
                return Err(LexError::UnterminatedStructure(loc));
            },
            Some(c) => {
                if c == '}' {
                    reader.take();
                    return Ok(Token::Object(loc, entries));
                } else if c == '"' {
                    let t = lex_string(reader);
                    match t {
                        Token::String(_, name) => {
                            prop = Some(name);
                        },
                        _ => {
                            proof {
                                crate::parser::lemma_tok_m_variant(t);
                                assert(false);
                            }
                        },
                    }
                } else if char_is_alphanumeric(c) {
                    let t = lex_symbol(reader);
                    match t {
                        Token::Symbol(_, name) => {
                            prop = Some(name);
                        },
                        _ => {
                            proof {
                                crate::parser::lemma_tok_m_variant(t);
                                assert(false);
                            }
                        },
                    }
                } else if c == ':' {
                    reader.take();
                    let stops = vec!['}', ','];
                    proof {
                        assert(stops@ =~= object_stops());
                    }
                    match lex_until(reader, Some(&stops)) {
                        Err(e) => {
                            return Err(e);
                        },
                        Ok((tokens, ending)) => {
                            match ending {
                                None => {
                                    return Err(LexError::UnterminatedStructure(loc));
                                },
                                Some(ch) => {
                                    let ghost tm = tokens@;
                                    match &prop {
                                        Some(key) => {
                                            upsert_entry(&mut entries, key.clone(), tokens);
                                        },
                                        None => {},
                                    }
                                    reader.take();
                                    if ch == '}' {
                                        return Ok(Token::Object(loc, entries));
                                    }
                                },
                            }
                        },
                    }
                } else {
                    reader.take();
                }
            },
        }
    }
}

/// Reads an array literal: consumes the opening `[`, then one token line
/// per element, elements separated by `,`, up to the closing `]`.
/// Reaching the end of input inside the array fails with the array's
/// opening location.
pub fn lex_array(reader: &mut Reader) -> (r: Result<Token, LexError>)
    requires
        rd_wf(old(reader)@),
    ensures
        rd_wf(final(reader)@),
        final(reader)@.cs == old(reader)@.cs,
        final(reader)@.file == old(reader)@.file,
        old(reader)@.pos <= final(reader)@.pos <= old(reader)@.cs.len(),
        r is Ok ==> old(reader)@.pos < final(reader)@.pos,
        final(reader)@ == sp_lex_array(old(reader)@).rd,
        match r {
            Ok(t) => sp_lex_array(old(reader)@).err is None && tok_m(t) == sp_lex_array(
                old(reader)@,
            ).tok,
            Err(LexError::UnterminatedStructure(l)) => sp_lex_array(old(reader)@).err == Some(l@),
        },
    decreases rd_rem(reader@), 1int,
{
    let loc = reader.loc();
    let ghost loc_m = loc@;
    match reader.take() {
        None => {
            return Err(LexError::UnterminatedStructure(loc));
        },
        Some(_) => {},
    }
    let mut array: Vec<Tokens> = Vec::new();
    proof {
        lemma_lines_m_from(array, 0);
        assert(lines_m_from(array, 0) =~= Seq::<Seq<TokM>>::empty());
    }
    loop
        invariant
            rd_wf(reader@),
            reader@.cs == old(reader)@.cs,
            reader@.file == old(reader)@.file,
            old(reader)@.pos < reader@.pos <= reader@.cs.len(),
            loc_m == loc@,
            sp_lex_array(old(reader)@) == sp_array_body(reader@, loc_m, lines_m_from(array, 0)),
        decreases rd_rem(reader@),
    {
        let ghost pre = reader@;
        let ghost acc_pre = lines_m_from(array, 0);
        let stops = vec![',', ']'];
        proof {
            assert(stops@ =~= array_stops());
        }
        match lex_until(reader, Some(&stops)) {
            Err(e) => {
                return Err(e);
            },
            Ok((tokens, ending)) => {
                let ghost tm = tokens@;
                proof {
                    lemma_lines_m_from(array, 0);
                }
                array.push(tokens);
                proof {
                    lemma_lines_m_from(array, 0);
                    assert(lines_m_from(array, 0) =~= acc_pre.push(tm));
                }
                match ending {
                    None => {
                        return Err(LexError::UnterminatedStructure(loc));
                    },
                    Some(ch) => {
                        reader.take();
                        if ch == ']' {
                            return Ok(Token::Array(loc, array));
                        }
                    },
                }
            },
        }
    }
}

/// One tokenizing run: reads tokens until the end of input or a stop
/// character (left unconsumed), dispatching on the character class at
/// the cursor.
pub fn lex_until(reader: &mut Reader, until: Option<&Vec<char>>) -> (r: Result<
    (Tokens, Option<char>),
    LexError,
>)
    requires
        rd_wf(old(reader)@),
    ensures
        rd_wf(final(reader)@),
        final(reader)@.cs == old(reader)@.cs,
        final(reader)@.file == old(reader)@.file,
        old(reader)@.pos <= final(reader)@.pos <= old(reader)@.cs.len(),
        final(reader)@ == sp_lex_until(old(reader)@, until_m(until), Seq::empty()).rd,
        match r {
            Ok((toks, stop)) => {
                let out = sp_lex_until(old(reader)@, until_m(until), Seq::empty());
                &&& out.err is None
                &&& toks@ == out.toks
                &&& stop == out.stop
                &&& stop is Some ==> final(reader)@.pos < old(reader)@.cs.len()
            },
            Err(LexError::UnterminatedStructure(l)) => sp_lex_until(
                old(reader)@,
                until_m(until),
                Seq::empty(),
            ).err == Some(l@),
        },
    decreases rd_rem(reader@), 2int,
{
    let ghost u_m = until_m(until);
    let mut tokens = Tokens::new();
    loop
        invariant
            rd_wf(reader@),
            reader@.cs == old(reader)@.cs,
            reader@.file == old(reader)@.file,
            old(reader)@.pos <= reader@.pos <= reader@.cs.len(),
            u_m == until_m(until),
            sp_lex_until(old(reader)@, u_m, Seq::empty()) == sp_lex_until(reader@, u_m, tokens@),
        decreases rd_rem(reader@),
    {
        let ghost pre = reader@;
        let ghost toks_pre = tokens@;
        match reader.peek() {
            None => {
                return Ok((tokens, None));
            },
            Some(c) => {
                let is_stop = match until {
                    Some(v) => char_in(v, c),
                    None => false,
                };
                if is_stop {
                    return Ok((tokens, Some(c)));
                }
                if c == '\n' || c == ';' {
                    let loc = reader.loc();
                    reader.take();
                    tokens.add(Token::Eol(loc));
                } else if c == ':' {
                    reader.take();
                    match lex_pipe(reader) {
                        Ok(t) => {
                            tokens.add(t);
                        },
                        Err(e) => {
                            return Err(e);
                        },
                    }
                } else if c == '=' {
                    let loc = reader.loc();
                    reader.take();
                    let second = match reader.peek() {
                        Some(c2) => c2 == '=',
                        None => false,
                    };
                    if second {
                        reader.take();
                        tokens.add(Token::Special(loc, Special::Equality));
                    } else {
                        tokens.add(Token::Special(loc, Special::Assign));
                    }
                } else if c == '.' {
                    reader.take();
                    let loc = reader.loc();
                    tokens.add(Token::Dot(loc));
                } else if c == '"' {
                    let t = lex_string(reader);
                    tokens.add(t);
                } else if c == '{' {
                    let obj_ctx = match tokens.last() {
                        Some(t) => {
                            proof {
                                crate::parser::lemma_tok_m_variant(t);
                            }
                            match t {
                                Token::Special(..) => true,
                                Token::Pipe(..) => true,
                                _ => false,
                            }
                        },
                        None => false,
                    };
                    if obj_ctx {
                        match lex_object(reader) {
                            Ok(t) => {
                                tokens.add(t);
                            },
                            Err(e) => {
                                return Err(e);
                            },
                        }
                    } else {
                        match lex_block(reader) {
                            Ok(t) => {
                                tokens.add(t);
                            },
                            Err(e) => {
                                return Err(e);
                            },
                        }
                    }
                } else if c == '[' {
                    match lex_array(reader) {
                        Ok(t) => {
                            tokens.add(t);
                        },
                        Err(e) => {
                            return Err(e);
                        },
                    }
                } else if char_is_alphabetic(c) {
                    let t = lex_symbol(reader);
                    tokens.add(t);
                } else if char_is_numeric(c) {
                    let t = lex_number(reader);
                    tokens.add(t);
                } else {
                    reader.take();
                }
            },
        }
    }
}

/// Tokenizes a whole source text: the ordered token stream, or the
/// opening location of a block, object or array that was never closed.
pub fn lex_file(file: String, contents: String) -> (r: Result<Tokens, LexError>)
    requires
        contents@.len() + 2 <= usize::MAX,
    ensures
        match r {
            Ok(toks) => sp_lex_file(file@, contents@).err is None && toks@ == sp_lex_file(
                file@,
                contents@,
            ).toks,
            Err(LexError::UnterminatedStructure(l)) => sp_lex_file(file@, contents@).err == Some(
                l@,
            ),
        },
{
    let mut reader = Reader::new(file, contents);
    match lex_until(&mut reader, None) {
        Ok((tokens, _stop)) => Ok(tokens),
        Err(e) => Err(e),
    }
}

} // verus!
