use vstd::prelude::*;
use vstd::string::*;
use crate::coords::{coords_of, sees, Coords};
use crate::error::SudokuError;
use crate::square::{square_for_digit, all_digits, without_candidate, Square, SquareView};
use crate::text::{char_digit, decimal_text, push_decimal, push_str};

verus! {

/// The nine-by-nine board, its squares stored row by row.
#[derive(Debug, Clone)]
pub struct Board(pub Vec<Square>);

impl View for Board {
    type V = Seq<SquareView>;

    open spec fn view(&self) -> Seq<SquareView> {
        self.0@.map_values(|s: Square| s@)
    }
}

/// The square of `b` at position `c`.
pub open spec fn square_at(b: Seq<SquareView>, c: Coords) -> SquareView {
    b[c.flat_index()]
}

/// Whether every character of `s` is a decimal digit.
pub open spec fn all_digit_chars(s: Seq<char>) -> bool {
    forall|k: int| 0 <= k < s.len() ==> char_digit(s[k]) is Some
}

/// The message of the error for a text that does not hold 81 digits.
pub open spec fn length_error_text(n: nat) -> Seq<char> {
    "Digits have length "@ + decimal_text(n) + ", expected 81"@
}

/// The digits placed in the squares that see the square at `c`, among the first `n` squares.
pub open spec fn seen_values_before(b: Seq<SquareView>, c: Coords, n: int) -> Set<u8> {
    Set::new(
        |v: u8|
            exists|i: int|
                0 <= i < n && #[trigger] sees(coords_of(i), c) && b[i] == SquareView::Value(v),
    )
}

/// The digits placed in the squares that see the square at `c`.
pub open spec fn seen_values(b: Seq<SquareView>, c: Coords) -> Set<u8> {
    seen_values_before(b, c, 81)
}

/// The square `j` of `b` once the digits placed in the first `n` squares are
/// ruled out of the squares they see.
pub open spec fn pruned_square(b: Seq<SquareView>, n: int, j: int) -> SquareView {
    match b[j] {
        SquareView::Value(v) => SquareView::Value(v),
        SquareView::Candidate(c) => SquareView::Candidate(
            c.difference(seen_values_before(b, coords_of(j), n)),
        ),
    }
}

/// The board once every placed digit is ruled out of the squares it sees.
pub open spec fn pruned(b: Seq<SquareView>) -> Seq<SquareView> {
    Seq::new(b.len(), |j: int| pruned_square(b, 81, j))
}

/// Ruling out the digits of the first `n + 1` squares is ruling out those of the first `n`,
/// then the digit of square `n`, if it holds one, from the squares it sees.
proof fn lemma_pruned_step(b: Seq<SquareView>, n: int, j: int)
    requires
        0 <= n < 81,
        0 <= j < b.len(),
        b.len() == 81,
    ensures
        pruned_square(b, n + 1, j) == (match b[n] {
            SquareView::Value(v) => if sees(coords_of(n), coords_of(j)) {
                without_candidate(pruned_square(b, n, j), v)
            } else {
                pruned_square(b, n, j)
            },
            SquareView::Candidate(_) => pruned_square(b, n, j),
        }),
{
    let c = coords_of(j);
    match b[j] {
        SquareView::Value(_) => {},
        SquareView::Candidate(s) => {
            match b[n] {
                SquareView::Value(v) => {
                    if sees(coords_of(n), c) {
                        assert(seen_values_before(b, c, n + 1) =~= seen_values_before(b, c, n).insert(v)) by {
                            assert(sees(coords_of(n), c) && b[n] == SquareView::Value(v));
                        }
                        assert(s.difference(seen_values_before(b, c, n + 1)) =~= s.difference(
                            seen_values_before(b, c, n),
                        ).remove(v));
                    } else {
                        assert(seen_values_before(b, c, n + 1) =~= seen_values_before(b, c, n));
                    }
                },
                SquareView::Candidate(_) => {
                    assert(seen_values_before(b, c, n + 1) =~= seen_values_before(b, c, n));
                },
            }
        },
    }
}

impl Default for Board {
    fn default() -> (b: Self)
        ensures
            b.wf(),
            forall|k: int| 0 <= k < 81 ==> b@[k] == SquareView::Candidate(all_digits()),
    {
        let mut squares: Vec<Square> = Vec::new();
        let mut i: usize = 0;
        while i < 81
            invariant
                i <= 81,
                squares.len() == i,
                forall|k: int| 0 <= k < i ==> squares@[k]@ == SquareView::Candidate(all_digits()),
            decreases 81 - i,
        {
            squares.push(Square::default());
            i = i + 1;
        }
        Board(squares)
    }
}

impl std::str::FromStr for Board {
    type Err = SudokuError;

    /// Reads a board from 81 digits, row by row, `0` for a blank square.
    /// The first character that is not a digit is an error, and so is any other count of digits.
    fn from_str(s: &str) -> (r: Result<Self, Self::Err>)
        ensures
            r is Ok <==> (all_digit_chars(s@) && s@.len() == 81),
            r matches Ok(b) ==> b.wf() && forall|k: int|
                0 <= k < 81 ==> #[trigger] b@[k] == square_for_digit(char_digit(s@[k])->0),
            !all_digit_chars(s@) ==> (r matches Err(SudokuError::ParseError(m)) && m@
                == crate::square::not_a_digit_text()),
            all_digit_chars(s@) && s@.len() != 81 ==> (r matches Err(SudokuError::ParseError(m))
                && m@ == length_error_text(s@.len())),
    {
        let n = s.unicode_len();
        let mut digits: Vec<Square> = Vec::new();
        let mut i: usize = 0;
        while i < n
            invariant
                i <= n,
                n == s@.len(),
                digits.len() == i,
                forall|k: int| 0 <= k < i ==> char_digit(s@[k]) is Some,
                forall|k: int|
                    0 <= k < i ==> #[trigger] digits@[k]@ == square_for_digit(char_digit(s@[k])->0),
            decreases n - i,
        {
            let c = s.get_char(i);
            match Square::try_from(c) {
                Ok(square) => digits.push(square),
                Err(e) => return Err(e),
            }
            i = i + 1;
        }
        if digits.len() != 81 {
            let mut m = String::new();
            push_str(&mut m, "Digits have length ");
            push_decimal(&mut m, digits.len());
            push_str(&mut m, ", expected 81");
            Err(SudokuError::ParseError(m))
        } else {
            Ok(Board(digits))
        }
    }
}

impl Board {
    /// A board has exactly 81 squares.
    pub open spec fn wf(&self) -> bool {
        self.0.len() == 81
    }

    /// The square at `coords`.
    pub fn get_square_by_coords(&self, coords: &Coords) -> (r: &Square)
        requires
            coords.flat_index() < self.0.len(),
            coords.flat_index() <= u8::MAX,
        ensures
            r@ == square_at(self@, *coords),
    {
        &self.0[coords.flat() as usize]
    }

    /// The square at `coords`, to change in place.
    pub fn get_mut_square_by_coords(&mut self, coords: &Coords) -> (r: &mut Square)
        requires
            coords.flat_index() < old(self).0.len(),
            coords.flat_index() <= u8::MAX,
        ensures
            *r == old(self).0@[coords.flat_index()],
            final(self).0@ == old(self).0@.update(coords.flat_index(), *final(r)),
    {
        &mut self.0[coords.flat() as usize]
    }

    /// Puts `new_value` at `coords`; says whether the square changed.
    pub fn set_square(&mut self, coords: &Coords, new_value: Square) -> (changed: bool)
        requires
            coords.flat_index() < old(self).0.len(),
            coords.flat_index() <= u8::MAX,
        ensures
            changed == (square_at(old(self)@, *coords) != new_value@),
            final(self)@ == old(self)@.update(coords.flat_index(), new_value@),
            final(self).0.len() == old(self).0.len(),
    {
        let i = coords.flat() as usize;
        if new_value == self.0[i] {
            assert(self@ =~= old(self)@.update(coords.flat_index(), new_value@));
            return false;
        }
        self.0.set(i, new_value);
        assert(self@ =~= old(self)@.update(coords.flat_index(), new_value@));
        true
    }

    /// Rules every placed digit out of the squares it sees.
    pub fn remove_visible_candidates(&mut self)
        requires
            old(self).wf(),
        ensures
            final(self).wf(),
            final(self)@ == pruned(old(self)@),
    {
        let ghost b = self@;
        assert forall|j: int| 0 <= j < 81 implies #[trigger] self@[j] == pruned_square(b, 0, j) by {
            if let SquareView::Candidate(s) = b[j] {
                assert(s.difference(seen_values_before(b, coords_of(j), 0)) =~= s);
            }
        }
        let mut i: usize = 0;
        while i < 81
            invariant
                i <= 81,
                b.len() == 81,
                self.wf(),
                forall|j: int| 0 <= j < 81 ==> #[trigger] self@[j] == pruned_square(b, i as int, j),
            decreases 81 - i,
        {
            if let Square::Value(value) = &self.0[i] {
                let value: u8 = *value;
                assert(self@[i as int] == SquareView::Value(value));
                assert(self@[i as int] == pruned_square(b, i as int, i as int));
                assert(b[i as int] == SquareView::Value(value));
                let coords = Coords::from_flat(i as u8);
                let neighbours = Self::get_neighbours(coords);
                let mut k: usize = 0;
                while k < neighbours.len()
                    invariant
                        i < 81,
                        k <= neighbours.len(),
                        b.len() == 81,
                        b[i as int] == SquareView::Value(value),
                        coords == coords_of(i as int),
                        self.wf(),
                        forall|m: int| 0 <= m < neighbours.len() ==> sees(coords, #[trigger] neighbours@[m]),
                        forall|c: Coords| sees(coords, c) ==> neighbours@.contains(c),
                        neighbours@.no_duplicates(),
                        forall|j: int|
                            0 <= j < 81 ==> #[trigger] self@[j] == if neighbours@.take(k as int).contains(coords_of(j)) {
                                without_candidate(pruned_square(b, i as int, j), value)
                            } else {
                                pruned_square(b, i as int, j)
                            },
                    decreases neighbours.len() - k,
                {
                    let neighbour = neighbours[k];
                    assert(sees(coords, neighbour));
                    let ghost j0 = neighbour.flat_index();
                    assert(0 <= j0 < 81);
                    assert(coords_of(j0) == neighbour);
                    let ghost before = self@;
                    self.get_mut_square_by_coords(&neighbour).remove_candidate(value);
                    proof {
                        assert(self@ =~= before.update(j0, without_candidate(before[j0], value)));
                        assert forall|j: int| 0 <= j < 81 implies #[trigger] self@[j] == if neighbours@.take(k + 1).contains(coords_of(j)) {
                            without_candidate(pruned_square(b, i as int, j), value)
                        } else {
                            pruned_square(b, i as int, j)
                        } by {
                            assert(neighbours@.take(k + 1) =~= neighbours@.take(k as int).push(neighbour));
                            if j == j0 {
                                assert(!neighbours@.take(k as int).contains(neighbour)) by {
                                    if neighbours@.take(k as int).contains(neighbour) {
                                        let m = choose|m: int| 0 <= m < k && neighbours@.take(k as int)[m] == neighbour;
                                        assert(neighbours@[m] == neighbours@[k as int]);
                                    }
                                }
                                assert(self@[j] == without_candidate(before[j], value));
                                assert(before[j] == pruned_square(b, i as int, j));
                                assert(neighbours@.take(k + 1)[k as int] == neighbour);
                                assert(neighbours@.take(k + 1).contains(coords_of(j)));
                            } else {
                                assert(coords_of(j) != neighbour) by {
                                    assert(coords_of(j).flat_index() == j);
                                }
                                assert(self@[j] == before[j]);
                                assert(neighbours@.take(k + 1).contains(coords_of(j)) == neighbours@.take(k as int).contains(coords_of(j))) by {
                                    if neighbours@.take(k as int).contains(coords_of(j)) {
                                        let m = choose|m: int| 0 <= m < k && neighbours@.take(k as int)[m] == coords_of(j);
                                        assert(neighbours@.take(k + 1)[m] == coords_of(j));
                                    }
                                }
                            }
                        }
                    }
                    k = k + 1;
                }
                proof {
                    assert forall|j: int| 0 <= j < 81 implies #[trigger] self@[j] == pruned_square(b, i + 1, j) by {
                        lemma_pruned_step(b, i as int, j);
                        assert(neighbours@.take(neighbours.len() as int) =~= neighbours@);
                        if sees(coords, coords_of(j)) {
                            assert(neighbours@.contains(coords_of(j)));
                        } else {
                            if neighbours@.contains(coords_of(j)) {
                                let m = choose|m: int| 0 <= m < neighbours.len() && neighbours@[m] == coords_of(j);
                                assert(sees(coords, neighbours@[m]));
                            }
                        }
                    }
                }
            } else {
                proof {
                    assert forall|j: int| 0 <= j < 81 implies #[trigger] self@[j] == pruned_square(b, i + 1, j) by {
                        lemma_pruned_step(b, i as int, j);
                    }
                }
            }
            i = i + 1;
        }
        assert(self@ =~= pruned(b));
    }
}

} // verus!
