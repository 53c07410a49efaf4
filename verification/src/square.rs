use std::collections::HashSet;
use vstd::prelude::*;
use vstd::string::*;
use crate::error::SudokuError;
use crate::text::{char_digit, decimal_text, digit_char, digit_to_char, push_char, push_decimal, push_str, to_decimal_digit};

verus! {

broadcast use vstd::std_specs::hash::group_hash_axioms;

/// A digit as the board holds it.
pub type Digit = u8;

/// What a square holds, as the contracts see it.
pub enum SquareView {
    Value(u8),
    Candidate(Set<u8>),
}

/// A square of the board: either a placed digit or the digits still possible there.
#[derive(Debug)]
pub enum Square {
    Value(Digit),
    Candidate(HashSet<Digit>),
}

impl View for Square {
    type V = SquareView;

    open spec fn view(&self) -> SquareView {
        match self {
            Square::Value(d) => SquareView::Value(*d),
            Square::Candidate(c) => SquareView::Candidate(c@),
        }
    }
}

/// The digits one to nine.
pub open spec fn all_digits() -> Set<u8> {
    Set::new(|d: u8| 1 <= d <= 9)
}

/// Whether the square still allows `d`; a placed digit allows nothing.
pub open spec fn allows(s: SquareView, d: u8) -> bool {
    match s {
        SquareView::Candidate(c) => c.contains(d),
        SquareView::Value(_) => false,
    }
}

/// The square after `d` is ruled out of it.
pub open spec fn without_candidate(s: SquareView, d: u8) -> SquareView {
    match s {
        SquareView::Candidate(c) => SquareView::Candidate(c.remove(d)),
        SquareView::Value(v) => SquareView::Value(v),
    }
}

/// What reading the digit `d` gives: a blank square for zero, a placed digit otherwise.
pub open spec fn square_for_digit(d: u8) -> SquareView {
    if d == 0 {
        SquareView::Candidate(all_digits())
    } else {
        SquareView::Value(d)
    }
}

/// The message of the error for a digit above nine.
pub open spec fn value_error_text(d: u8) -> Seq<char> {
    "Value "@ + decimal_text(d as nat) + " is not 1-9"@
}

/// The message of the error for a character that is not a digit.
pub open spec fn not_a_digit_text() -> Seq<char> {
    "Not a digit"@
}

/// How a square shows the digit `i` of its candidates: the digit, or a blank.
pub open spec fn candidate_mark(c: Set<u8>, i: int) -> char {
    if c.contains(i as u8) {
        digit_char(i)
    } else {
        ' '
    }
}

/// Line `k` (0, 1 or 2) of the three-line picture of a square: a placed digit
/// is framed by shade characters; candidates show as a three-by-three keypad.
pub open spec fn square_line(s: SquareView, k: int) -> Seq<char> {
    match s {
        SquareView::Value(d) => if k == 1 {
            seq!['▒'] + decimal_text(d as nat) + seq!['▒']
        } else {
            seq!['▒', '▒', '▒']
        },
        SquareView::Candidate(c) => seq![
            candidate_mark(c, 3 * k + 1),
            candidate_mark(c, 3 * k + 2),
            candidate_mark(c, 3 * k + 3),
        ],
    }
}

/// The picture of a square: its three lines, each ended by a newline.
pub open spec fn square_text(s: SquareView) -> Seq<char> {
    square_line(s, 0) + seq!['\n'] + square_line(s, 1) + seq!['\n'] + square_line(s, 2) + seq!['\n']
}

/// Whether two sets of digits hold the same members.
fn same_members(a: &HashSet<u8>, b: &HashSet<u8>) -> (r: bool)
    ensures
        r == (a@ == b@),
{
    let mut x: u16 = 0;
    while x < 256
        invariant
            x <= 256,
            forall|y: u8| (y as int) < (x as int) ==> (a@.contains(y) == b@.contains(y)),
        decreases 256 - x,
    {
        let y: u8 = x as u8;
        if a.contains(&y) != b.contains(&y) {
            assert(!(a@ =~= b@)) by {
                assert(a@.contains(y) != b@.contains(y));
            }
            return false;
        }
        x = x + 1;
    }
    assert(a@ =~= b@);
    true
}

impl PartialEq for Square {
    fn eq(&self, other: &Self) -> (r: bool) {
        match (self, other) {
            (Square::Value(a), Square::Value(b)) => *a == *b,
            (Square::Candidate(a), Square::Candidate(b)) => same_members(a, b),
            _ => false,
        }
    }
}

impl vstd::std_specs::cmp::PartialEqSpecImpl for Square {
    open spec fn obeys_eq_spec() -> bool {
        true
    }

    open spec fn eq_spec(&self, other: &Self) -> bool {
        self@ == other@
    }
}

/// A set holding the same digits.
fn copy_digits(a: &HashSet<Digit>) -> (r: HashSet<Digit>)
    ensures
        r@ == a@,
{
    let mut r: HashSet<Digit> = HashSet::new();
    let mut x: u16 = 0;
    while x < 256
        invariant
            x <= 256,
            forall|y: u8| r@.contains(y) <==> ((y as int) < (x as int) && a@.contains(y)),
        decreases 256 - x,
    {
        let y: u8 = x as u8;
        if a.contains(&y) {
            r.insert(y);
        }
        x = x + 1;
    }
    assert(r@ =~= a@);
    r
}

impl Clone for Square {
    fn clone(&self) -> (r: Self)
        ensures
            r@ == self@,
    {
        match self {
            Square::Value(d) => Square::Value(*d),
            Square::Candidate(c) => Square::Candidate(copy_digits(c)),
        }
    }
}

impl Default for Square {
    fn default() -> (s: Self)
        ensures
            s@ == SquareView::Candidate(all_digits()),
    {
        let mut c: HashSet<Digit> = HashSet::new();
        let mut d: u8 = 1;
        while d < 10
            invariant
                1 <= d <= 10,
                c@ == Set::new(|e: u8| 1 <= e < d),
            decreases 10 - d,
        {
            c.insert(d);
            assert(c@ =~= Set::new(|e: u8| 1 <= e < d + 1));
            d = d + 1;
        }
        assert(c@ =~= all_digits());
        Square::Candidate(c)
    }
}

impl TryFrom<char> for Square {
    type Error = SudokuError;

    fn try_from(value: char) -> (r: Result<Self, Self::Error>)
        ensures
            match char_digit(value) {
                Some(d) => r matches Ok(s) && s@ == square_for_digit(d),
                None => r matches Err(SudokuError::ParseError(m)) && m@ == not_a_digit_text(),
            },
    {
        match to_decimal_digit(value) {
            Some(parsed) => Self::new_with_value(parsed),
            None => Err(SudokuError::ParseError(String::from_str("Not a digit"))),
        }
    }
}

impl vstd::std_specs::convert::TryFromSpecImpl<char> for Square {
    /// The outcome is stated by `try_from` itself, over the view of the square.
    open spec fn obeys_try_from_spec() -> bool {
        false
    }

    open spec fn try_from_spec(v: char) -> Result<Self, SudokuError> {
        Err(SudokuError::InvalidState)
    }
}

impl Square {
    /// The square for a digit read from a board: blank for zero, placed otherwise.
    pub fn new_with_value(d: Digit) -> (r: Result<Self, SudokuError>)
        ensures
            d <= 9 ==> (r matches Ok(s) && s@ == square_for_digit(d)),
            d > 9 ==> (r matches Err(SudokuError::ParseError(m)) && m@ == value_error_text(d)),
    {
        if d > 9 {
            let mut m = String::from_str("Value ");
            push_decimal(&mut m, d as usize);
            push_str(&mut m, " is not 1-9");
            Err(SudokuError::ParseError(m))
        } else if d == 0 {
            Ok(Self::default())
        } else {
            Ok(Self::Value(d))
        }
    }

    /// Rules `value` out of a blank square.
    pub fn remove_candidate(&mut self, value: Digit)
        ensures
            final(self)@ == without_candidate(old(self)@, value),
    {
        if let Self::Candidate(digits) = self {
            digits.remove(&value);
        }
    }

    /// Whether the square still allows `value`.
    pub fn has_candidate(&self, value: Digit) -> (r: bool)
        ensures
            r == allows(self@, value),
    {
        if let Square::Candidate(candidates) = self {
            candidates.contains(&value)
        } else {
            false
        }
    }

    /// Appends line `k` of the picture of the square.
    pub fn push_line(&self, out: &mut String, k: u8)
        requires
            k < 3,
        ensures
            final(out)@ == old(out)@ + square_line(self@, k as int),
    {
        match self {
            Square::Value(digit) => {
                if k == 1 {
                    push_char(out, '▒');
                    push_decimal(out, *digit as usize);
                    push_char(out, '▒');
                } else {
                    push_char(out, '▒');
                    push_char(out, '▒');
                    push_char(out, '▒');
                }
            },
            Square::Candidate(candidates) => {
                let mut j: u8 = 1;
                while j <= 3
                    invariant
                        1 <= j <= 4,
                        k < 3,
                        self@ == SquareView::Candidate(candidates@),
                        out@ == old(out)@ + square_line(self@, k as int).take(j - 1),
                    decreases 4 - j,
                {
                    let i: u8 = 3 * k + j;
                    if candidates.contains(&i) {
                        push_char(out, digit_to_char(i));
                    } else {
                        push_char(out, ' ');
                    }
                    proof {
                        let line = square_line(self@, k as int);
                        if j == 1 {
                            assert(line[0] == candidate_mark(candidates@, 3 * k + 1));
                        } else if j == 2 {
                            assert(line[1] == candidate_mark(candidates@, 3 * k + 2));
                        } else {
                            assert(line[2] == candidate_mark(candidates@, 3 * k + 3));
                        }
                        assert(line.take(j as int) =~= line.take(j - 1).push(line[j - 1]));
                        assert(out@ =~= old(out)@ + line.take(j as int));
                    }
                    j = j + 1;
                }
            },
        }
        assert(out@ =~= old(out)@ + square_line(self@, k as int));
    }

    /// The picture of the square, as `Display` shows it.
    pub fn render(&self) -> (s: String)
        ensures
            s@ == square_text(self@),
    {
        let mut s = String::new();
        self.push_line(&mut s, 0);
        push_char(&mut s, '\n');
        self.push_line(&mut s, 1);
        push_char(&mut s, '\n');
        self.push_line(&mut s, 2);
        push_char(&mut s, '\n');
        s
    }
}

} // verus!
