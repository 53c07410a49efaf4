use std::collections::HashSet;
use vstd::prelude::*;
use crate::board::{square_at, Board};
use crate::coords::{coords_of, Coords};
use crate::error::SudokuError;
use crate::square::{allows, Digit, Square, SquareView};
use crate::units::unit;

verus! {

broadcast use vstd::std_specs::hash::group_hash_axioms;

/// Whether every position of `cs` names one of the 81 squares.
pub open spec fn within_board(cs: Seq<Coords>) -> bool {
    forall|k: int| 0 <= k < cs.len() ==> #[trigger] cs[k].flat_index() < 81
}

/// The digits placed in the squares `cs`, in their order.
pub open spec fn placed_digits(b: Seq<SquareView>, cs: Seq<Coords>) -> Seq<u8>
    decreases cs.len(),
{
    if cs.len() == 0 {
        Seq::empty()
    } else {
        let rest = placed_digits(b, cs.drop_last());
        match square_at(b, cs.last()) {
            SquareView::Value(v) => rest.push(v),
            SquareView::Candidate(_) => rest,
        }
    }
}

/// A group is consistent when the digits placed in it are digits one to nine, none twice.
pub open spec fn group_consistent(b: Seq<SquareView>, cs: Seq<Coords>) -> bool {
    let ds = placed_digits(b, cs);
    &&& forall|k: int| 0 <= k < ds.len() ==> 1 <= #[trigger] ds[k] <= 9
    &&& ds.no_duplicates()
}

/// A board is consistent when its 27 groups are.
pub open spec fn board_consistent(b: Seq<SquareView>) -> bool {
    forall|u: int| 0 <= u < 27 ==> #[trigger] group_consistent(b, unit(u))
}

/// Every square of the board holds a placed digit.
pub open spec fn board_filled(b: Seq<SquareView>) -> bool {
    forall|j: int| 0 <= j < 81 ==> #[trigger] b[j] is Value
}

/// A board is solved when it is consistent and filled.
pub open spec fn board_solved(b: Seq<SquareView>) -> bool {
    board_consistent(b) && board_filled(b)
}

/// Whether the digit `d` is placed in one of the squares `cs`.
pub open spec fn digit_placed_in(b: Seq<SquareView>, cs: Seq<Coords>, d: u8) -> bool {
    exists|k: int| 0 <= k < cs.len() && square_at(b, #[trigger] cs[k]) == SquareView::Value(d)
}

/// For each square of `cs`, whether it still allows `d`.
pub open spec fn candidate_one_hot(b: Seq<SquareView>, cs: Seq<Coords>, d: u8) -> Seq<bool> {
    Seq::new(cs.len(), |k: int| allows(square_at(b, cs[k]), d))
}

/// The 27 groups are nine squares each, all on the board.
pub proof fn lemma_unit_within_board(u: int)
    requires
        0 <= u < 27,
    ensures
        unit(u).len() == 9,
        within_board(unit(u)),
        forall|k: int| 0 <= k < 9 ==> (#[trigger] unit(u)[k]).on_board(),
{
}

impl Board {
    /// Whether the placed digits of the group are digits one to nine, none twice.
    pub fn verify_single_neighbourhood(&self, coords_vec: &Vec<Coords>) -> (r: bool)
        requires
            self.wf(),
            within_board(coords_vec@),
        ensures
            r == group_consistent(self@, coords_vec@),
    {
        let mut values: Vec<Digit> = Vec::new();
        let mut i: usize = 0;
        while i < coords_vec.len()
            invariant
                i <= coords_vec.len(),
                self.wf(),
                within_board(coords_vec@),
                values@ == placed_digits(self@, coords_vec@.take(i as int)),
            decreases coords_vec.len() - i,
        {
            let coords = &coords_vec[i];
            assert(coords_vec@.take(i + 1).drop_last() =~= coords_vec@.take(i as int));
            if let Square::Value(value) = self.get_square_by_coords(coords) {
                values.push(*value);
            }
            i = i + 1;
        }
        assert(coords_vec@.take(coords_vec.len() as int) =~= coords_vec@);
        let values_length = values.len();
        let mut values_set: HashSet<Digit> = HashSet::new();
        let mut in_range = true;
        let mut k: usize = 0;
        while k < values.len()
            invariant
                k <= values.len(),
                values_set@ == values@.take(k as int).to_set(),
                in_range == forall|m: int| 0 <= m < k ==> 1 <= #[trigger] values@[m] <= 9,
            decreases values.len() - k,
        {
            let v = values[k];
            values_set.insert(v);
            assert(values@.take(k + 1) =~= values@.take(k as int).push(v));
            proof {
                values@.take(k as int).lemma_push_to_set_commute(v);
            }
            if !(1 <= v && v <= 9) {
                in_range = false;
            }
            k = k + 1;
        }
        assert(values@.take(values.len() as int) =~= values@);
        proof {
            if values@.no_duplicates() {
                values@.unique_seq_to_set();
            } else if values@.to_set().len() == values@.len() {
                values@.lemma_no_dup_set_cardinality();
            }
        }
        if !in_range || values_length != values_set.len() {
            return false;
        }
        true
    }

    /// Whether every group of the board is consistent.
    pub fn verify(&self) -> (r: bool)
        requires
            self.wf(),
        ensures
            r == board_consistent(self@),
    {
        let mut neighbourhoods = self.clone().into_iter_full();
        loop
            invariant
                self.wf(),
                neighbourhoods.wf(),
                0 <= neighbourhoods.position() <= 27,
                forall|u: int| 0 <= u < neighbourhoods.position() ==> #[trigger] group_consistent(self@, unit(u)),
            ensures
                forall|u: int| 0 <= u < 27 ==> #[trigger] group_consistent(self@, unit(u)),
            decreases 27 - neighbourhoods.position(),
        {
            let ghost u = neighbourhoods.position();
            match neighbourhoods.next() {
                Some(neighbourhood) => {
                    proof {
                        lemma_unit_within_board(u);
                    }
                    if !self.verify_single_neighbourhood(&neighbourhood) {
                        assert(!group_consistent(self@, unit(u)));
                        return false;
                    }
                },
                None => {
                    break;
                },
            }
        }
        true
    }

    /// Whether the board is solved; an inconsistent board is an error.
    pub fn is_complete(&self) -> (r: Result<bool, SudokuError>)
        requires
            self.wf(),
        ensures
            !board_consistent(self@) ==> r matches Err(SudokuError::InvalidState),
            board_consistent(self@) ==> r == Ok::<bool, SudokuError>(board_filled(self@)),
    {
        if !self.verify() {
            return Err(SudokuError::InvalidState);
        }
        let mut i: u8 = 0;
        while i < 81
            invariant
                i <= 81,
                self.wf(),
                board_consistent(self@),
                forall|j: int| 0 <= j < i ==> #[trigger] self@[j] is Value,
            decreases 81 - i,
        {
            if let Square::Candidate(_) = self.get_square_by_coords(&Coords::from_flat(i)) {
                assert(coords_of(i as int).flat_index() == i);
                return Ok(false);
            }
            assert(coords_of(i as int).flat_index() == i);
            i = i + 1;
        }
        Ok(true)
    }

    /// Whether `digit` is placed in one of the squares of `coords_list`.
    pub fn is_digit_set_by_coords(&self, digit: Digit, coords_list: &Vec<Coords>) -> (r: bool)
        requires
            self.wf(),
            within_board(coords_list@),
        ensures
            r == digit_placed_in(self@, coords_list@, digit),
    {
        let mut i: usize = 0;
        while i < coords_list.len()
            invariant
                i <= coords_list.len(),
                self.wf(),
                within_board(coords_list@),
                forall|k: int| 0 <= k < i ==> square_at(self@, #[trigger] coords_list@[k]) != SquareView::Value(digit),
            decreases coords_list.len() - i,
        {
            let square = self.get_square_by_coords(&coords_list[i]);
            if let Square::Value(set_digit) = square {
                if *set_digit == digit {
                    return true;
                }
            }
            i = i + 1;
        }
        false
    }

    /// Whether the square at `coords` still allows `digit`.
    pub fn is_candidate_set_at_coords(&self, digit: Digit, coords: &Coords) -> (r: bool)
        requires
            self.wf(),
            coords.flat_index() < 81,
        ensures
            r == allows(square_at(self@, *coords), digit),
    {
        let square = self.get_square_by_coords(coords);
        square.has_candidate(digit)
    }

    /// For each square of `coords_list`, whether it still allows `digit`.
    pub fn get_candidate_one_hot(&self, digit: Digit, coords_list: &Vec<Coords>) -> (r: Vec<bool>)
        requires
            self.wf(),
            within_board(coords_list@),
        ensures
            r@ == candidate_one_hot(self@, coords_list@, digit),
    {
        let mut one_hot: Vec<bool> = Vec::with_capacity(coords_list.len());
        let mut i: usize = 0;
        while i < coords_list.len()
            invariant
                i <= coords_list.len(),
                self.wf(),
                within_board(coords_list@),
                one_hot@ == candidate_one_hot(self@, coords_list@, digit).take(i as int),
            decreases coords_list.len() - i,
        {
            one_hot.push(self.is_candidate_set_at_coords(digit, &coords_list[i]));
            assert(candidate_one_hot(self@, coords_list@, digit).take(i + 1) =~= candidate_one_hot(
                self@,
                coords_list@,
                digit,
            ).take(i as int).push(allows(square_at(self@, coords_list@[i as int]), digit)));
            i = i + 1;
        }
        assert(candidate_one_hot(self@, coords_list@, digit).take(coords_list.len() as int) =~= candidate_one_hot(self@, coords_list@, digit));
        one_hot
    }
}

} // verus!
