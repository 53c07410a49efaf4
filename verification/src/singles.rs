use std::collections::HashSet;
use vstd::prelude::*;
use vstd::std_specs::iter::IteratorSpec;
use crate::board::{pruned, square_at, Board};
use crate::check::{board_consistent, within_board};
use crate::coords::{coords_of, Coords};
use crate::error::SudokuError;
use crate::square::{allows, Digit, Square, SquareView};
use crate::units::unit;

verus! {

broadcast use vstd::std_specs::hash::group_hash_axioms;

/// Digits to place, each with its position.
pub type ValuesVec = Vec<(Coords, Square)>;

/// What a list of placements says, as the contracts see it.
pub open spec fn placements(v: Seq<(Coords, Square)>) -> Seq<(Coords, SquareView)> {
    v.map_values(|p: (Coords, Square)| (p.0, p.1@))
}

/// How many of the first `n` squares of `cs` still allow `d`.
pub open spec fn allow_count(b: Seq<SquareView>, cs: Seq<Coords>, d: u8, n: int) -> nat
    decreases n,
{
    if n <= 0 {
        0
    } else {
        allow_count(b, cs, d, n - 1) + if allows(square_at(b, cs[n - 1]), d) {
            1nat
        } else {
            0nat
        }
    }
}

/// A square of `cs` that still allows `d` (the only one, where just one does).
pub open spec fn only_place(b: Seq<SquareView>, cs: Seq<Coords>, d: u8) -> Coords {
    cs[choose|k: int| 0 <= k < cs.len() && allows(square_at(b, cs[k]), d)]
}

/// The hidden singles of the group `cs` among the digits one to `d`, in increasing order:
/// each digit that only one square of the group still allows, placed in that square.
pub open spec fn hidden_singles_upto(b: Seq<SquareView>, cs: Seq<Coords>, d: int) -> Seq<
    (Coords, SquareView),
>
    decreases d,
{
    if d <= 0 {
        Seq::empty()
    } else {
        let rest = hidden_singles_upto(b, cs, d - 1);
        if allow_count(b, cs, d as u8, cs.len() as int) == 1 {
            rest.push((only_place(b, cs, d as u8), SquareView::Value(d as u8)))
        } else {
            rest
        }
    }
}

/// The hidden singles of the group `cs`, for the digits one to nine.
pub open spec fn hidden_singles(b: Seq<SquareView>, cs: Seq<Coords>) -> Seq<(Coords, SquareView)> {
    hidden_singles_upto(b, cs, 9)
}

proof fn lemma_allow_count_monotone(b: Seq<SquareView>, cs: Seq<Coords>, d: u8, i: int, j: int)
    requires
        0 <= i <= j,
    ensures
        allow_count(b, cs, d, i) <= allow_count(b, cs, d, j),
    decreases j - i,
{
    if i < j {
        lemma_allow_count_monotone(b, cs, d, i, j - 1);
    }
}

/// Where exactly one of the first `n` squares allows `d`, no other square there allows it.
proof fn lemma_allow_count_one(b: Seq<SquareView>, cs: Seq<Coords>, d: u8, n: int, k0: int, k1: int)
    requires
        0 <= k0 < n,
        0 <= k1 < n,
        k0 != k1,
        allows(square_at(b, cs[k0]), d),
        allows(square_at(b, cs[k1]), d),
    ensures
        allow_count(b, cs, d, n) >= 2,
{
    let lo = if k0 < k1 { k0 } else { k1 };
    let hi = if k0 < k1 { k1 } else { k0 };
    lemma_allow_count_monotone(b, cs, d, 0, lo);
    lemma_allow_count_monotone(b, cs, d, lo + 1, hi);
    lemma_allow_count_monotone(b, cs, d, hi + 1, n);
}

/// The hidden singles of the first `n` groups, group after group.
pub open spec fn hidden_singles_in_units(b: Seq<SquareView>, n: int) -> Seq<(Coords, SquareView)>
    decreases n,
{
    if n <= 0 {
        Seq::empty()
    } else {
        hidden_singles_in_units(b, n - 1) + hidden_singles(b, unit(n - 1))
    }
}

/// The hidden singles of all 27 groups: boxes, then rows, then columns.
pub open spec fn all_hidden_singles(b: Seq<SquareView>) -> Seq<(Coords, SquareView)> {
    hidden_singles_in_units(b, 27)
}

/// The naked singles among the first `n` squares: each blank square that allows
/// just one digit, with that digit, in the order of the squares.
pub open spec fn naked_singles_upto(b: Seq<SquareView>, n: int) -> Seq<(Coords, SquareView)>
    decreases n,
{
    if n <= 0 {
        Seq::empty()
    } else {
        let rest = naked_singles_upto(b, n - 1);
        match b[n - 1] {
            SquareView::Candidate(c) => if c.len() == 1 {
                rest.push((coords_of(n - 1), SquareView::Value(c.choose())))
            } else {
                rest
            },
            SquareView::Value(_) => rest,
        }
    }
}

/// The naked singles of the board.
pub open spec fn naked_singles(b: Seq<SquareView>) -> Seq<(Coords, SquareView)> {
    naked_singles_upto(b, 81)
}

/// The board after the placements `vs`, one after the other.
pub open spec fn applied(b: Seq<SquareView>, vs: Seq<(Coords, SquareView)>) -> Seq<SquareView>
    decreases vs.len(),
{
    if vs.len() == 0 {
        b
    } else {
        applied(b, vs.drop_last()).update(vs.last().0.flat_index(), vs.last().1)
    }
}

/// Whether one of the placements `vs`, made one after the other, changes its square.
pub open spec fn any_change(b: Seq<SquareView>, vs: Seq<(Coords, SquareView)>) -> bool
    decreases vs.len(),
{
    if vs.len() == 0 {
        false
    } else {
        any_change(b, vs.drop_last()) || square_at(applied(b, vs.drop_last()), vs.last().0)
            != vs.last().1
    }
}

/// What placing `vs` gives: the board after the placements, with the placed
/// digits ruled out of the squares they see when anything changed.
pub open spec fn filled(b: Seq<SquareView>, vs: Seq<(Coords, SquareView)>) -> Seq<SquareView> {
    if any_change(b, vs) {
        pruned(applied(b, vs))
    } else {
        applied(b, vs)
    }
}

/// What placing `vs` answers: whether anything changed, or an error when
/// the board that results is inconsistent.
pub open spec fn fill_outcome(b: Seq<SquareView>, vs: Seq<(Coords, SquareView)>) -> Result<bool, SudokuError> {
    if !any_change(b, vs) {
        Ok(false)
    } else if board_consistent(pruned(applied(b, vs))) {
        Ok(true)
    } else {
        Err(SudokuError::InvalidState)
    }
}

/// The one digit of a set that holds just one.
fn only_candidate(candidates: &HashSet<Digit>) -> (d: Digit)
    requires
        candidates@.len() == 1,
    ensures
        candidates@ == set![d],
{
    let mut d: Digit = 0;
    let ghost mut found = false;
    for x in it: candidates.iter()
        invariant
            it.seq().unref().to_set() == candidates@,
            it.seq().len() == 1,
            found == (it.index() > 0),
            found ==> candidates@ == set![d],
    {
        d = *x;
        proof {
            found = true;
            assert(it.seq().unref() =~= seq![d]);
            assert(seq![d].to_set() =~= set![d]);
        }
    }
    d
}

impl Board {
    /// The hidden singles of the group `coords_vec`.
    pub fn find_hidden_singles_in_coords_list(&self, coords_vec: &Vec<Coords>) -> (singles: ValuesVec)
        requires
            self.wf(),
            within_board(coords_vec@),
        ensures
            placements(singles@) == hidden_singles(self@, coords_vec@),
            forall|k: int| 0 <= k < singles.len() ==> (#[trigger] singles@[k]).0.flat_index() < 81,
    {
        let mut squares: Vec<&Square> = Vec::new();
        let mut singles: ValuesVec = Vec::new();
        let mut i: usize = 0;
        while i < coords_vec.len()
            invariant
                i <= coords_vec.len(),
                self.wf(),
                within_board(coords_vec@),
                squares.len() == i,
                forall|k: int| 0 <= k < i ==> (#[trigger] squares@[k])@ == square_at(self@, coords_vec@[k]),
            decreases coords_vec.len() - i,
        {
            squares.push(self.get_square_by_coords(&coords_vec[i]));
            i = i + 1;
        }
        let ghost b = self@;
        let ghost cs = coords_vec@;
        let n = squares.len();
        let mut d: u8 = 1;
        while d < 10
            invariant
                1 <= d <= 10,
                n == squares.len() == cs.len(),
                cs == coords_vec@,
                within_board(cs),
                forall|k: int| 0 <= k < n ==> (#[trigger] squares@[k])@ == square_at(b, cs[k]),
                placements(singles@) == hidden_singles_upto(b, cs, d - 1),
                forall|k: int| 0 <= k < singles.len() ==> (#[trigger] singles@[k]).0.flat_index() < 81,
            decreases 10 - d,
        {
            let mut occurances: usize = 0;
            let mut coords_buffer: Vec<Coords> = Vec::new();
            let mut i: usize = 0;
            while i < n
                invariant_except_break
                    i <= n,
                    occurances == allow_count(b, cs, d, i as int),
                    occurances <= 1,
                invariant
                    1 <= d < 10,
                    n == squares.len() == cs.len(),
                    cs == coords_vec@,
                    within_board(cs),
                    forall|k: int| 0 <= k < n ==> (#[trigger] squares@[k])@ == square_at(b, cs[k]),
                    coords_buffer.len() == occurances,
                    occurances >= 1 ==> exists|k0: int|
                        0 <= k0 < n && allows(square_at(b, cs[k0]), d) && coords_buffer@[0] == cs[k0]
                            && forall|k: int| 0 <= k < k0 ==> !allows(square_at(b, #[trigger] cs[k]), d),
                ensures
                    occurances == 1 ==> allow_count(b, cs, d, n as int) == 1,
                    occurances != 1 ==> allow_count(b, cs, d, n as int) != 1,
                decreases n - i,
            {
                if squares[i].has_candidate(d) {
                    occurances = occurances + 1;
                    coords_buffer.push(coords_vec[i]);
                    proof {
                        if occurances == 1 {
                            assert(coords_buffer@[0] == cs[i as int]);
                            assert forall|k: int| 0 <= k < i implies !allows(square_at(b, #[trigger] cs[k]), d) by {
                                if allows(square_at(b, cs[k]), d) {
                                    lemma_allow_count_monotone(b, cs, d, k + 1, i as int);
                                }
                            }
                        }
                    }
                }
                if occurances > 1 {
                    proof {
                        lemma_allow_count_monotone(b, cs, d, i + 1, n as int);
                    }
                    break;
                }
                i = i + 1;
            }
            if occurances == 1 {
                proof {
                    let k0 = choose|k0: int|
                        0 <= k0 < n && allows(square_at(b, cs[k0]), d) && coords_buffer@[0] == cs[k0]
                            && forall|k: int| 0 <= k < k0 ==> !allows(square_at(b, #[trigger] cs[k]), d);
                    let kc = choose|k: int| 0 <= k < cs.len() && allows(square_at(b, cs[k]), d);
                    if kc != k0 {
                        lemma_allow_count_one(b, cs, d, n as int, k0, kc);
                    }
                    assert(only_place(b, cs, d) == coords_buffer@[0]);
                }
                singles.push((coords_buffer[0], Square::Value(d)));
            }
            assert(placements(singles@) =~= hidden_singles_upto(b, cs, d as int));
            d = d + 1;
        }
        singles
    }
}

impl Board {
    /// The naked singles of the board.
    pub fn find_naked_singles(&self) -> (singles: ValuesVec)
        requires
            self.wf(),
        ensures
            placements(singles@) == naked_singles(self@),
            forall|k: int| 0 <= k < singles.len() ==> (#[trigger] singles@[k]).0.flat_index() < 81,
    {
        let mut singles: ValuesVec = ValuesVec::new();
        let mut i: usize = 0;
        while i < 81
            invariant
                i <= 81,
                self.wf(),
                placements(singles@) == naked_singles_upto(self@, i as int),
                forall|k: int| 0 <= k < singles.len() ==> (#[trigger] singles@[k]).0.flat_index() < 81,
            decreases 81 - i,
        {
            match &self.0[i] {
                Square::Value(_) => (),
                Square::Candidate(candidates) => {
                    if candidates.len() == 1 {
                        let digit = only_candidate(candidates);
                        proof {
                            let c = candidates@;
                            assert(c.contains(c.choose()));
                        }
                        singles.push((Coords::from_flat(i as u8), Square::Value(digit)));
                    }
                },
            }
            assert(placements(singles@) =~= naked_singles_upto(self@, i + 1));
            i = i + 1;
        }
        singles
    }

    /// Places the given digits; when that changes the board, rules out the seen
    /// candidates and reports an inconsistent result as an error.
    pub fn fill_values_and_update_candidates(&mut self, values: ValuesVec) -> (r: Result<bool, SudokuError>)
        requires
            old(self).wf(),
            forall|k: int| 0 <= k < values.len() ==> (#[trigger] values@[k]).0.flat_index() < 81,
        ensures
            final(self).wf(),
            final(self)@ == filled(old(self)@, placements(values@)),
            r == fill_outcome(old(self)@, placements(values@)),
    {
        let ghost b = self@;
        let ghost vs = placements(values@);
        let ghost all = values@;
        let mut was_changed = false;
        for pair in it: values.into_iter()
            invariant
                self.wf(),
                it.seq() == all,
                vs == placements(all),
                forall|k: int| 0 <= k < all.len() ==> (#[trigger] all[k]).0.flat_index() < 81,
                self@ == applied(b, vs.take(it.index() as int)),
                was_changed == any_change(b, vs.take(it.index() as int)),
        {
            let ghost k = it.index() as int;
            let (coords, value) = pair;
            assert(vs.take(k + 1).drop_last() =~= vs.take(k));
            let changed = self.set_square(&coords, value);
            was_changed = was_changed || changed;
        }
        assert(vs.take(all.len() as int) =~= vs);
        if was_changed {
            self.remove_visible_candidates();
            if !self.verify() {
                return Err(SudokuError::InvalidState);
            }
        }
        Ok(was_changed)
    }

    /// Places the hidden singles of all 27 groups, found on the board as it stands.
    pub fn fill_hidden_singles(&mut self) -> (r: Result<bool, SudokuError>)
        requires
            old(self).wf(),
        ensures
            final(self).wf(),
            final(self)@ == filled(old(self)@, all_hidden_singles(old(self)@)),
            r == fill_outcome(old(self)@, all_hidden_singles(old(self)@)),
    {
        let ghost b = self@;
        let mut singles: ValuesVec = Vec::new();
        let mut neighbourhoods = self.clone().into_iter_full();
        loop
            invariant
                self.wf(),
                self@ == b,
                neighbourhoods.wf(),
                0 <= neighbourhoods.position() <= 27,
                placements(singles@) == hidden_singles_in_units(b, neighbourhoods.position()),
                forall|k: int| 0 <= k < singles.len() ==> (#[trigger] singles@[k]).0.flat_index() < 81,
            ensures
                placements(singles@) == all_hidden_singles(b),
                forall|k: int| 0 <= k < singles.len() ==> (#[trigger] singles@[k]).0.flat_index() < 81,
            decreases 27 - neighbourhoods.position(),
        {
            let ghost u = neighbourhoods.position();
            match neighbourhoods.next() {
                Some(neighbourhood) => {
                    proof {
                        crate::check::lemma_unit_within_board(u);
                    }
                    let mut found = self.find_hidden_singles_in_coords_list(&neighbourhood);
                    let ghost before = singles@;
                    singles.append(&mut found);
                    assert(placements(singles@) =~= placements(before) + hidden_singles(b, unit(u)));
                },
                None => {
                    break;
                },
            }
        }
        self.fill_values_and_update_candidates(singles)
    }

    /// Places the naked singles of the board.
    pub fn fill_naked_singles(&mut self) -> (r: Result<bool, SudokuError>)
        requires
            old(self).wf(),
        ensures
            final(self).wf(),
            final(self)@ == filled(old(self)@, naked_singles(old(self)@)),
            r == fill_outcome(old(self)@, naked_singles(old(self)@)),
    {
        let singles = self.find_naked_singles();
        self.fill_values_and_update_candidates(singles)
    }
}

} // verus!
