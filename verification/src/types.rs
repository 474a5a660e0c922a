//! Source locations: a (source id, row, column) triple attached to every
//! token and syntax node.

use vstd::prelude::*;
use vstd::string::{StrSliceExecFns, StringExecFns};

verus! {

/// Mathematical value of a [`Location`]: the source id as a character
/// sequence together with the row and column numbers.
pub struct LocM {
    pub file: Seq<char>,
    pub row: nat,
    pub col: nat,
}

/// A position in a source text: source id, row (starting at 1) and
/// column (starting at 1).
#[derive(Debug)]
pub struct Location(pub String, pub usize, pub usize);

impl Clone for Location {
    /// Copies the location; the copy has the same value.
    fn clone(&self) -> (r: Self)
        ensures
            r == *self,
    {
        Location(self.0.clone(), self.1, self.2)
    }
}

impl View for Location {
    type V = LocM;

    open spec fn view(&self) -> LocM {
        LocM { file: self.0@, row: self.1 as nat, col: self.2 as nat }
    }
}

/// The character `'0'` .. `'9'` for a digit value 0 .. 9.
pub open spec fn digit_char(d: nat) -> char {
    if d == 0 {
        '0'
    } else if d == 1 {
        '1'
    } else if d == 2 {
        '2'
    } else if d == 3 {
        '3'
    } else if d == 4 {
        '4'
    } else if d == 5 {
        '5'
    } else if d == 6 {
        '6'
    } else if d == 7 {
        '7'
    } else if d == 8 {
        '8'
    } else {
        '9'
    }
}

/// The usual decimal rendering of `n`, most significant digit first,
/// with no leading zeros (except for `n == 0` itself).
pub open spec fn dec_digits(n: nat) -> Seq<char>
    decreases n,
{
    if n < 10 {
        seq![digit_char(n)]
    } else {
        dec_digits(n / 10).push(digit_char(n % 10))
    }
}

/// Relies on `String::push`: appends the given character to the end of
/// the string.
#[verifier::external_body]
pub fn push_char(s: &mut String, c: char)
    ensures
        final(s)@ == old(s)@.push(c),
{
    s.push(c);
}

/// Appends the decimal rendering of `n` to `s`.
pub fn push_dec(s: &mut String, n: usize)
    ensures
        final(s)@ == old(s)@ + dec_digits(n as nat),
    decreases n,
{
    if n >= 10 {
        push_dec(s, n / 10);
    }
    let d: usize = n % 10;
    let c: char = if d == 0 {
        '0'
    } else if d == 1 {
        '1'
    } else if d == 2 {
        '2'
    } else if d == 3 {
        '3'
    } else if d == 4 {
        '4'
    } else if d == 5 {
        '5'
    } else if d == 6 {
        '6'
    } else if d == 7 {
        '7'
    } else if d == 8 {
        '8'
    } else {
        '9'
    };
    push_char(s, c);
    proof {
        if n < 10 {
            assert(s@ =~= old(s)@ + dec_digits(n as nat));
        } else {
            assert(s@ =~= old(s)@ + dec_digits(n as nat));
        }
    }
}

/// The characters of a string slice, in order, as a vector.
pub fn chars_of(s: &str) -> (v: Vec<char>)
    ensures
        v@ == s@,
{
    let n = s.unicode_len();
    let mut v: Vec<char> = Vec::new();
    let mut i: usize = 0;
    while i < n
        invariant
            n == s@.len(),
            i <= n,
            v@ == s@.subrange(0, i as int),
        decreases n - i,
    {
        let c = s.get_char(i);
        v.push(c);
        proof {
            assert(v@ =~= s@.subrange(0, i + 1));
        }
        i += 1;
    }
    proof {
        assert(v@ =~= s@);
    }
    v
}

/// Whether two string slices hold the same characters.
pub fn str_eq(s: &str, t: &str) -> (r: bool)
    ensures
        r == (s@ == t@),
{
    let n = s.unicode_len();
    let m = t.unicode_len();
    if n != m {
        proof {
            assert(s@ != t@);
        }
        return false;
    }
    let mut i: usize = 0;
    while i < n
        invariant
            n == s@.len(),
            n == t@.len(),
            i <= n,
            forall|k: int| 0 <= k < i ==> s@[k] == t@[k],
        decreases n - i,
    {
        if s.get_char(i) != t.get_char(i) {
            proof {
                assert(s@[i as int] != t@[i as int]);
            }
            return false;
        }
        i += 1;
    }
    proof {
        assert(s@ =~= t@);
    }
    true
}

/// The text form of a location: `file:row:col`.
pub open spec fn loc_text(l: LocM) -> Seq<char> {
    l.file + seq![':'] + dec_digits(l.row) + seq![':'] + dec_digits(l.col)
}

impl Location {
    /// Renders the location as `file:row:col`.
    pub fn to_string(&self) -> (r: String)
        ensures
            r@ == loc_text(self@),
    {
        let mut s = String::new();
        s.append(self.0.as_str());
        push_char(&mut s, ':');
        push_dec(&mut s, self.1);
        push_char(&mut s, ':');
        push_dec(&mut s, self.2);
        proof {
            assert(s@ =~= loc_text(self@));
        }
        s
    }
}

} // verus!
