use vstd::prelude::*;
use crate::board::{pruned, pruned_square, seen_values, seen_values_before, square_at};
use crate::coords::{coords_of, sees, Coords};
use crate::square::{allows, SquareView};
use crate::units::unit;
use crate::render::{board_text, board_text_upto, row_line};
use crate::square::square_line;
use crate::text::decimal_text;
use crate::pairs::{both, is_hidden_pair, true_count};
use crate::check::{candidate_one_hot, group_consistent, placed_digits};
use crate::check::lemma_unit_within_board;
use crate::singles::{all_hidden_singles, allow_count, any_change, applied, fill_outcome, filled, hidden_singles, hidden_singles_in_units, hidden_singles_upto, naked_singles, naked_singles_upto, only_place};

verus! {

/// Ruling out the seen digits a second time changes nothing.
pub proof fn lemma_pruned_idempotent(b: Seq<SquareView>)
    requires
        b.len() == 81,
    ensures
        pruned(pruned(b)) == pruned(b),
{
    let p = pruned(b);
    assert forall|j: int| 0 <= j < 81 implies #[trigger] pruned(p)[j] == p[j] by {
        assert(pruned(p)[j] == pruned_square(p, 81, j));
        let c = coords_of(j);
        assert(seen_values_before(p, c, 81) =~= seen_values_before(b, c, 81)) by {
            assert forall|v: u8| seen_values_before(b, c, 81).contains(v) implies seen_values_before(p, c, 81).contains(v) by {
                let i = choose|i: int| 0 <= i < 81 && #[trigger] sees(coords_of(i), c) && b[i] == SquareView::Value(v);
                assert(p[i] == pruned_square(b, 81, i));
            }
            assert forall|v: u8| seen_values_before(p, c, 81).contains(v) implies seen_values_before(b, c, 81).contains(v) by {
                let i = choose|i: int| 0 <= i < 81 && #[trigger] sees(coords_of(i), c) && p[i] == SquareView::Value(v);
                assert(p[i] == pruned_square(b, 81, i));
            }
        }
        if let SquareView::Candidate(s) = b[j] {
            let t = seen_values_before(b, c, 81);
            assert(s.difference(t).difference(t) =~= s.difference(t));
        }
    }
    assert(pruned(p) =~= p);
}

/// Ruling out the seen digits keeps every placed digit and never adds a candidate.
pub proof fn lemma_pruned_keeps_values(b: Seq<SquareView>, j: int)
    requires
        b.len() == 81,
        0 <= j < 81,
    ensures
        b[j] is Value ==> pruned(b)[j] == b[j],
        b[j] is Candidate ==> pruned(b)[j] is Candidate && pruned(b)[j]->Candidate_0.subset_of(
            b[j]->Candidate_0,
        ),
{
}

/// Once the seen digits are ruled out, no square allows a digit that is placed in a
/// square that sees it.
pub proof fn lemma_pruned_excludes_seen(b: Seq<SquareView>, i: int, j: int, v: u8)
    requires
        b.len() == 81,
        0 <= i < 81,
        0 <= j < 81,
        sees(coords_of(i), coords_of(j)),
        pruned(b)[i] == SquareView::Value(v),
    ensures
        !allows(pruned(b)[j], v),
{
    assert(pruned(b)[i] == pruned_square(b, 81, i));
    assert(b[i] == SquareView::Value(v));
    assert(seen_values(b, coords_of(j)).contains(v));
    assert(pruned(b)[j] == pruned_square(b, 81, j));
}

/// The group that holds a position: its row, its column and its box.
pub open spec fn row_unit(c: Coords) -> int {
    9 + c.y
}

pub open spec fn column_unit(c: Coords) -> int {
    18 + c.x
}

pub open spec fn box_unit(c: Coords) -> int {
    c.x / 3 + 3 * (c.y / 3)
}

/// Every square of the board lies in its row, its column and its box.
pub proof fn lemma_square_in_its_units(c: Coords)
    requires
        c.on_board(),
    ensures
        unit(row_unit(c)).contains(c),
        unit(column_unit(c)).contains(c),
        unit(box_unit(c)).contains(c),
{
    assert(unit(row_unit(c))[c.x as int] == c);
    assert(unit(column_unit(c))[c.y as int] == c);
    let k = (c.x % 3) * 3 + c.y % 3;
    assert(unit(box_unit(c))[k] == c);
}

/// Each of the 27 groups is nine distinct squares of the board.
pub proof fn lemma_unit_cells_distinct(u: int)
    requires
        0 <= u < 27,
    ensures
        unit(u).len() == 9,
        unit(u).no_duplicates(),
        forall|k: int| 0 <= k < 9 ==> (#[trigger] unit(u)[k]).on_board(),
{
    assert forall|k1: int, k2: int| 0 <= k1 < 9 && 0 <= k2 < 9 && k1 != k2 implies unit(u)[k1] != unit(u)[k2] by {
        if u < 9 {
            assert(unit(u)[k1].x == u % 3 * 3 + k1 / 3 && unit(u)[k1].y == u / 3 * 3 + k1 % 3);
            assert(unit(u)[k2].x == u % 3 * 3 + k2 / 3 && unit(u)[k2].y == u / 3 * 3 + k2 % 3);
        }
    }
}

/// Each square of the board lies in exactly three of the 27 groups: its box, its row
/// and its column.
pub proof fn lemma_square_in_exactly_three_units(c: Coords)
    requires
        c.on_board(),
    ensures
        Set::new(|u: int| 0 <= u < 27 && unit(u).contains(c)) == set![box_unit(c), row_unit(c), column_unit(c)],
        set![box_unit(c), row_unit(c), column_unit(c)].len() == 3,
{
    lemma_square_in_its_units(c);
    let holders = Set::new(|u: int| 0 <= u < 27 && unit(u).contains(c));
    let three = set![box_unit(c), row_unit(c), column_unit(c)];
    assert forall|u: int| holders.contains(u) implies three.contains(u) by {
        let k = choose|k: int| 0 <= k < unit(u).len() && unit(u)[k] == c;
        if u < 9 {
            assert(c.x == u % 3 * 3 + k / 3 && c.y == u / 3 * 3 + k % 3);
            assert(u == box_unit(c));
        } else if u < 18 {
            assert(u == row_unit(c));
        } else {
            assert(u == column_unit(c));
        }
    }
    assert(holders =~= three);
    assert(set![box_unit(c)].len() == 1);
    assert(set![box_unit(c), row_unit(c)].len() == 2);
}

/// Two squares of the board see each other exactly when they are different and
/// share one of the 27 groups.
#[verifier::spinoff_prover]
#[verifier::rlimit(40)]
pub proof fn lemma_sees_iff_shared_unit(a: Coords, b: Coords)
    requires
        a.on_board(),
        b.on_board(),
    ensures
        sees(a, b) <==> (a != b && exists|u: int| 0 <= u < 27 && #[trigger] unit(u).contains(a) && unit(u).contains(b)),
{
    lemma_square_in_its_units(a);
    lemma_square_in_its_units(b);
    if sees(a, b) {
        if a.x == b.x {
            assert(unit(column_unit(a)).contains(b));
        } else if a.y == b.y {
            assert(unit(row_unit(a)).contains(b));
        } else {
            assert(box_unit(a) == box_unit(b));
        }
    }
    if a != b && exists|u: int| 0 <= u < 27 && #[trigger] unit(u).contains(a) && unit(u).contains(b) {
        let u = choose|u: int| 0 <= u < 27 && #[trigger] unit(u).contains(a) && unit(u).contains(b);
        let ka = choose|k: int| 0 <= k < unit(u).len() && unit(u)[k] == a;
        let kb = choose|k: int| 0 <= k < unit(u).len() && unit(u)[k] == b;
        if u < 9 {
            assert(a.x / 3 == b.x / 3 && a.y / 3 == b.y / 3);
        }
    }
}

/// Where some of the first `n` squares of `cs` allow `d`, one of them does.
proof fn lemma_allow_count_witness(b: Seq<SquareView>, cs: Seq<Coords>, d: u8, n: int)
    requires
        0 <= n <= cs.len(),
        allow_count(b, cs, d, n) > 0,
    ensures
        exists|k: int| 0 <= k < n && allows(square_at(b, cs[k]), d),
    decreases n,
{
    if !allows(square_at(b, cs[n - 1]), d) {
        lemma_allow_count_witness(b, cs, d, n - 1);
    }
}

/// Each hidden single of a group places, in a square of the group, a digit from one
/// to nine that this square allows and no other square of the group does.
pub proof fn lemma_hidden_singles_sound(b: Seq<SquareView>, cs: Seq<Coords>, k: int)
    requires
        0 <= k < hidden_singles(b, cs).len(),
    ensures
        ({
            let (c, s) = hidden_singles(b, cs)[k];
            exists|d: u8| {
                &&& 1 <= d <= 9
                &&& s == SquareView::Value(d)
                &&& allow_count(b, cs, d, cs.len() as int) == 1
                &&& cs.contains(c)
                &&& #[trigger] allows(square_at(b, c), d)
            }
        }),
{
    lemma_hidden_singles_upto_sound(b, cs, 9, k);
}

proof fn lemma_hidden_singles_upto_sound(b: Seq<SquareView>, cs: Seq<Coords>, n: int, k: int)
    requires
        0 <= n <= 9,
        0 <= k < hidden_singles_upto(b, cs, n).len(),
    ensures
        ({
            let (c, s) = hidden_singles_upto(b, cs, n)[k];
            exists|d: u8| {
                &&& 1 <= d <= 9
                &&& s == SquareView::Value(d)
                &&& allow_count(b, cs, d, cs.len() as int) == 1
                &&& cs.contains(c)
                &&& #[trigger] allows(square_at(b, c), d)
            }
        }),
    decreases n,
{
    let rest = hidden_singles_upto(b, cs, n - 1);
    if k < rest.len() {
        lemma_hidden_singles_upto_sound(b, cs, n - 1, k);
        assert(hidden_singles_upto(b, cs, n)[k] == rest[k]);
    } else {
        let d = n as u8;
        lemma_allow_count_witness(b, cs, d, cs.len() as int);
        let i = choose|i: int| 0 <= i < cs.len() && allows(square_at(b, cs[i]), d);
        assert(allows(square_at(b, only_place(b, cs, d)), d));
        assert(cs.contains(only_place(b, cs, d)));
    }
}

/// Each naked single places, in a blank square of the board, the one digit it allows.
pub proof fn lemma_naked_singles_sound(b: Seq<SquareView>, k: int)
    requires
        b.len() == 81,
        0 <= k < naked_singles(b).len(),
    ensures
        ({
            let (c, s) = naked_singles(b)[k];
            &&& c.on_board()
            &&& square_at(b, c) is Candidate
            &&& square_at(b, c)->Candidate_0.len() == 1
            &&& s == SquareView::Value(square_at(b, c)->Candidate_0.choose())
        }),
{
    lemma_naked_singles_upto_sound(b, 81, k);
}

proof fn lemma_naked_singles_upto_sound(b: Seq<SquareView>, n: int, k: int)
    requires
        b.len() == 81,
        0 <= n <= 81,
        0 <= k < naked_singles_upto(b, n).len(),
    ensures
        ({
            let (c, s) = naked_singles_upto(b, n)[k];
            &&& c.on_board()
            &&& square_at(b, c) is Candidate
            &&& square_at(b, c)->Candidate_0.len() == 1
            &&& s == SquareView::Value(square_at(b, c)->Candidate_0.choose())
        }),
    decreases n,
{
    let rest = naked_singles_upto(b, n - 1);
    if k < rest.len() {
        lemma_naked_singles_upto_sound(b, n - 1, k);
        assert(naked_singles_upto(b, n)[k] == rest[k]);
    } else {
        assert(coords_of(n - 1).flat_index() == n - 1);
    }
}

/// How many of the first `n` squares hold a placed digit.
pub open spec fn placed_count(b: Seq<SquareView>, n: int) -> nat
    decreases n,
{
    if n <= 0 {
        0
    } else {
        placed_count(b, n - 1) + if b[n - 1] is Value {
            1nat
        } else {
            0nat
        }
    }
}

/// Placements that each put a digit into a blank square of the board.
spec fn fills_blanks(b: Seq<SquareView>, vs: Seq<(Coords, SquareView)>) -> bool {
    forall|k: int|
        0 <= k < vs.len() ==> {
            let (c, s) = #[trigger] vs[k];
            &&& c.flat_index() < 81
            &&& s is Value
            &&& b[c.flat_index()] is Candidate
        }
}

proof fn lemma_applied_fills(b: Seq<SquareView>, vs: Seq<(Coords, SquareView)>, j: int)
    requires
        b.len() == 81,
        0 <= j < 81,
        fills_blanks(b, vs),
    ensures
        applied(b, vs).len() == 81,
        b[j] is Value ==> applied(b, vs)[j] == b[j],
        vs.len() > 0 && vs.last().0.flat_index() == j ==> applied(b, vs)[j] is Value,
        applied(b, vs)[j] is Value ==> b[j] is Value || exists|k: int| 0 <= k < vs.len() && (#[trigger] vs[k]).0.flat_index() == j,
    decreases vs.len(),
{
    if vs.len() > 0 {
        let rest = vs.drop_last();
        assert forall|k: int| 0 <= k < rest.len() implies {
            let (c, s) = #[trigger] rest[k];
            &&& c.flat_index() < 81
            &&& s is Value
            &&& b[c.flat_index()] is Candidate
        } by {
            assert(rest[k] == vs[k]);
        }
        lemma_applied_fills(b, rest, j);
        assert(vs[vs.len() - 1] == vs.last());
        if applied(b, vs)[j] is Value && !(b[j] is Value) && vs.last().0.flat_index() != j {
            let k = choose|k: int| 0 <= k < rest.len() && (#[trigger] rest[k]).0.flat_index() == j;
            assert(vs[k] == rest[k]);
        }
    }
}

proof fn lemma_placed_count_grows(b: Seq<SquareView>, b2: Seq<SquareView>, n: int, j0: int)
    requires
        b.len() == 81,
        b2.len() == 81,
        0 <= n <= 81,
        forall|j: int| 0 <= j < 81 && b[j] is Value ==> #[trigger] b2[j] is Value,
    ensures
        placed_count(b2, n) >= placed_count(b, n),
        0 <= j0 < n && b[j0] is Candidate && b2[j0] is Value ==> placed_count(b2, n) > placed_count(b, n),
    decreases n,
{
    if n > 0 {
        lemma_placed_count_grows(b, b2, n - 1, j0);
    }
}

proof fn lemma_pruned_same_values(b: Seq<SquareView>, j: int)
    requires
        b.len() == 81,
        0 <= j < 81,
    ensures
        pruned(b)[j] is Value <==> b[j] is Value,
{
}

/// Placing singles that each fill a blank square, when it changes the board, places
/// at least one more digit.
proof fn lemma_fill_progress(b: Seq<SquareView>, vs: Seq<(Coords, SquareView)>)
    requires
        b.len() == 81,
        fills_blanks(b, vs),
        any_change(b, vs),
    ensures
        placed_count(filled(b, vs), 81) > placed_count(b, 81),
{
    assert(vs.len() > 0);
    let a = applied(b, vs);
    let j0 = vs.last().0.flat_index();
    assert(vs[vs.len() - 1] == vs.last());
    lemma_applied_fills(b, vs, j0);
    assert forall|j: int| 0 <= j < 81 && b[j] is Value implies #[trigger] pruned(a)[j] is Value by {
        lemma_applied_fills(b, vs, j);
        lemma_pruned_same_values(a, j);
    }
    lemma_pruned_same_values(a, j0);
    lemma_placed_count_grows(b, pruned(a), 81, j0);
}

proof fn lemma_hidden_singles_fill_blanks(b: Seq<SquareView>, n: int)
    requires
        b.len() == 81,
        0 <= n <= 27,
    ensures
        fills_blanks(b, hidden_singles_in_units(b, n)),
    decreases n,
{
    if n > 0 {
        lemma_hidden_singles_fill_blanks(b, n - 1);
        let rest = hidden_singles_in_units(b, n - 1);
        let hs = hidden_singles(b, unit(n - 1));
        lemma_unit_within_board(n - 1);
        assert forall|k: int| 0 <= k < rest.len() + hs.len() implies {
            let (c, s) = #[trigger] (rest + hs)[k];
            &&& c.flat_index() < 81
            &&& s is Value
            &&& b[c.flat_index()] is Candidate
        } by {
            if k < rest.len() {
                assert((rest + hs)[k] == rest[k]);
            } else {
                assert((rest + hs)[k] == hs[k - rest.len()]);
                lemma_hidden_singles_sound(b, unit(n - 1), k - rest.len());
                let c = hs[k - rest.len()].0;
                let cs = unit(n - 1);
                let i = choose|i: int| 0 <= i < cs.len() && cs[i] == c;
                assert(cs[i].flat_index() < 81);
            }
        }
    }
}

/// A round of hidden singles that changes the board places at least one more digit,
/// so a solving run makes at most 81 rounds.
pub proof fn lemma_hidden_singles_progress(b: Seq<SquareView>)
    requires
        b.len() == 81,
        fill_outcome(b, all_hidden_singles(b)) is Ok,
        fill_outcome(b, all_hidden_singles(b))->Ok_0,
    ensures
        placed_count(filled(b, all_hidden_singles(b)), 81) > placed_count(b, 81),
{
    lemma_hidden_singles_fill_blanks(b, 27);
    lemma_fill_progress(b, all_hidden_singles(b));
}

/// A round of naked singles that changes the board places at least one more digit.
pub proof fn lemma_naked_singles_progress(b: Seq<SquareView>)
    requires
        b.len() == 81,
        fill_outcome(b, naked_singles(b)) is Ok,
        fill_outcome(b, naked_singles(b))->Ok_0,
    ensures
        placed_count(filled(b, naked_singles(b)), 81) > placed_count(b, 81),
{
    assert forall|k: int| 0 <= k < naked_singles(b).len() implies {
        let (c, s) = #[trigger] naked_singles(b)[k];
        &&& c.flat_index() < 81
        &&& s is Value
        &&& b[c.flat_index()] is Candidate
    } by {
        lemma_naked_singles_sound(b, k);
    }
    lemma_fill_progress(b, naked_singles(b));
}

/// Placing the hidden singles or the naked singles of a board, and ruling out the seen
/// digits, never changes a digit already placed.
pub proof fn lemma_singles_keep_placed_digits(b: Seq<SquareView>, j: int)
    requires
        b.len() == 81,
        0 <= j < 81,
        b[j] is Value,
    ensures
        pruned(b)[j] == b[j],
        filled(b, all_hidden_singles(b))[j] == b[j],
        filled(b, naked_singles(b))[j] == b[j],
{
    lemma_hidden_singles_fill_blanks(b, 27);
    lemma_applied_fills(b, all_hidden_singles(b), j);
    lemma_pruned_keeps_values(applied(b, all_hidden_singles(b)), j);
    assert forall|k: int| 0 <= k < naked_singles(b).len() implies {
        let (c, s) = #[trigger] naked_singles(b)[k];
        &&& c.flat_index() < 81
        &&& s is Value
        &&& b[c.flat_index()] is Candidate
    } by {
        lemma_naked_singles_sound(b, k);
    }
    lemma_applied_fills(b, naked_singles(b), j);
    lemma_pruned_keeps_values(applied(b, naked_singles(b)), j);
}

/// A sequence of flags counts no `true` exactly when none is set.
proof fn lemma_true_count_none(s: Seq<bool>)
    ensures
        true_count(s) == 0 <==> (forall|k: int| 0 <= k < s.len() ==> !s[k]),
    decreases s.len(),
{
    if s.len() > 0 {
        let init = s.drop_last();
        lemma_true_count_none(init);
        assert forall|k: int| 0 <= k < init.len() implies init[k] == s[k] by {}
        if true_count(s) == 0 {
            assert forall|k: int| 0 <= k < s.len() implies !s[k] by {
                if k < init.len() {
                    assert(init[k] == s[k]);
                }
            }
        }
        if forall|k: int| 0 <= k < s.len() ==> !s[k] {
            assert(!s[s.len() - 1]);
            assert forall|k: int| 0 <= k < init.len() implies !init[k] by {
                assert(init[k] == s[k]);
            }
        }
    }
}

/// One set flag, and no other, counts one `true`.
proof fn lemma_true_count_one_intro(s: Seq<bool>, i: int)
    requires
        0 <= i < s.len(),
        s[i],
        forall|k: int| 0 <= k < s.len() && s[k] ==> k == i,
    ensures
        true_count(s) == 1,
    decreases s.len(),
{
    let init = s.drop_last();
    let n = s.len() - 1;
    if i == n {
        lemma_true_count_none(init);
        assert forall|k: int| 0 <= k < init.len() implies !init[k] by {
            assert(init[k] == s[k]);
        }
    } else {
        assert(!s[n]);
        assert forall|k: int| 0 <= k < init.len() && init[k] implies k == i by {
            assert(init[k] == s[k]);
        }
        lemma_true_count_one_intro(init, i);
    }
}

/// A count of one `true` comes from one set flag and no other.
proof fn lemma_true_count_one_elim(s: Seq<bool>) -> (i: int)
    requires
        true_count(s) == 1,
    ensures
        0 <= i < s.len(),
        s[i],
        forall|k: int| 0 <= k < s.len() && s[k] ==> k == i,
    decreases s.len(),
{
    let init = s.drop_last();
    let n = s.len() - 1;
    if s[n] {
        lemma_true_count_none(init);
        assert forall|k: int| 0 <= k < s.len() && s[k] implies k == n by {
            if k < n {
                assert(init[k] == s[k]);
            }
        }
        n
    } else {
        let i = lemma_true_count_one_elim(init);
        assert(init[i] == s[i]);
        assert forall|k: int| 0 <= k < s.len() && s[k] implies k == i by {
            if k < n {
                assert(init[k] == s[k]);
            }
        }
        i
    }
}

/// Two set flags, and no other, count two `true`.
proof fn lemma_true_count_two_intro(s: Seq<bool>, i: int, j: int)
    requires
        0 <= i < j < s.len(),
        s[i],
        s[j],
        forall|k: int| 0 <= k < s.len() && s[k] ==> k == i || k == j,
    ensures
        true_count(s) == 2,
    decreases s.len(),
{
    let init = s.drop_last();
    let n = s.len() - 1;
    if j == n {
        assert forall|k: int| 0 <= k < init.len() && init[k] implies k == i by {
            assert(init[k] == s[k]);
        }
        assert(init[i] == s[i]);
        lemma_true_count_one_intro(init, i);
    } else {
        assert(!s[n]);
        assert forall|k: int| 0 <= k < init.len() && init[k] implies k == i || k == j by {
            assert(init[k] == s[k]);
        }
        assert(init[i] == s[i] && init[j] == s[j]);
        lemma_true_count_two_intro(init, i, j);
    }
}

/// A count of two `true` comes from two set flags and no other.
proof fn lemma_true_count_two_elim(s: Seq<bool>) -> (ij: (int, int))
    requires
        true_count(s) == 2,
    ensures
        0 <= ij.0 < ij.1 < s.len(),
        s[ij.0],
        s[ij.1],
        forall|k: int| 0 <= k < s.len() && s[k] ==> k == ij.0 || k == ij.1,
    decreases s.len(),
{
    let init = s.drop_last();
    let n = s.len() - 1;
    if s[n] {
        let i = lemma_true_count_one_elim(init);
        assert(init[i] == s[i]);
        assert forall|k: int| 0 <= k < s.len() && s[k] implies k == i || k == n by {
            if k < n {
                assert(init[k] == s[k]);
            }
        }
        (i, n)
    } else {
        let (i, j) = lemma_true_count_two_elim(init);
        assert(init[i] == s[i] && init[j] == s[j]);
        assert forall|k: int| 0 <= k < s.len() && s[k] implies k == i || k == j by {
            if k < n {
                assert(init[k] == s[k]);
            }
        }
        (i, j)
    }
}

/// Setting fewer flags never counts more `true`; leaving one out counts fewer.
proof fn lemma_true_count_pointwise(s: Seq<bool>, t: Seq<bool>)
    requires
        s.len() == t.len(),
        forall|k: int| 0 <= k < s.len() && s[k] ==> t[k],
    ensures
        true_count(s) <= true_count(t),
        (exists|k: int| 0 <= k < s.len() && t[k] && !s[k]) ==> true_count(s) < true_count(t),
    decreases s.len(),
{
    if s.len() > 0 {
        let si = s.drop_last();
        let ti = t.drop_last();
        assert forall|k: int| 0 <= k < si.len() && si[k] implies ti[k] by {
            assert(s[k]);
        }
        lemma_true_count_pointwise(si, ti);
        if exists|k: int| 0 <= k < s.len() && t[k] && !s[k] {
            let k = choose|k: int| 0 <= k < s.len() && t[k] && !s[k];
            if k < s.len() - 1 {
                assert(ti[k] && !si[k]);
            }
        }
    }
}

/// Two digits form a hidden pair of a group exactly when they are different digits
/// from one to nine, the squares of the group that allow one are the squares that
/// allow the other, and there are exactly two such squares.
pub proof fn lemma_hidden_pair_meaning(b: Seq<SquareView>, cs: Seq<Coords>, d1: u8, d2: u8)
    ensures
        is_hidden_pair(b, cs, d1, d2) <==> {
            &&& 1 <= d1 <= 9
            &&& 1 <= d2 <= 9
            &&& d1 != d2
            &&& forall|k: int| 0 <= k < cs.len() ==>
                (allows(square_at(b, #[trigger] cs[k]), d1) <==> allows(square_at(b, cs[k]), d2))
            &&& exists|i: int, j: int| {
                &&& 0 <= i < j < cs.len()
                &&& allows(square_at(b, cs[i]), d1)
                &&& allows(square_at(b, cs[j]), d1)
                &&& forall|k: int| 0 <= k < cs.len() && allows(square_at(b, #[trigger] cs[k]), d1) ==> k == i || k == j
            }
        },
{
    let a = candidate_one_hot(b, cs, d1);
    let c = candidate_one_hot(b, cs, d2);
    let ab = both(a, c);
    assert(ab.len() == a.len());
    assert forall|k: int| 0 <= k < ab.len() && ab[k] implies a[k] by {}
    assert forall|k: int| 0 <= k < ab.len() && ab[k] implies c[k] by {}
    lemma_true_count_pointwise(ab, a);
    lemma_true_count_pointwise(ab, c);
    if is_hidden_pair(b, cs, d1, d2) {
        assert forall|k: int| 0 <= k < cs.len() implies
            (allows(square_at(b, #[trigger] cs[k]), d1) <==> allows(square_at(b, cs[k]), d2)) by {
            assert(a[k] == allows(square_at(b, cs[k]), d1));
            assert(c[k] == allows(square_at(b, cs[k]), d2));
            if a[k] && !c[k] {
                assert(a[k] && !ab[k]);
            }
            if c[k] && !a[k] {
                assert(c[k] && !ab[k]);
            }
        }
        let (i, j) = lemma_true_count_two_elim(a);
        assert forall|k: int| 0 <= k < cs.len() && allows(square_at(b, #[trigger] cs[k]), d1) implies k == i || k == j by {
            assert(a[k]);
        }
        assert(allows(square_at(b, cs[i]), d1) && allows(square_at(b, cs[j]), d1)) by {
            assert(a[i] && a[j]);
        }
    }
    if 1 <= d1 <= 9 && 1 <= d2 <= 9 && d1 != d2
        && (forall|k: int| 0 <= k < cs.len() ==>
            (allows(square_at(b, #[trigger] cs[k]), d1) <==> allows(square_at(b, cs[k]), d2)))
        && exists|i: int, j: int| {
            &&& 0 <= i < j < cs.len()
            &&& allows(square_at(b, cs[i]), d1)
            &&& allows(square_at(b, cs[j]), d1)
            &&& forall|k: int| 0 <= k < cs.len() && allows(square_at(b, #[trigger] cs[k]), d1) ==> k == i || k == j
        } {
        let (i, j) = choose|i: int, j: int| {
            &&& 0 <= i < j < cs.len()
            &&& allows(square_at(b, cs[i]), d1)
            &&& allows(square_at(b, cs[j]), d1)
            &&& forall|k: int| 0 <= k < cs.len() && allows(square_at(b, #[trigger] cs[k]), d1) ==> k == i || k == j
        };
        assert forall|k: int| 0 <= k < a.len() && a[k] implies k == i || k == j by {
            assert(allows(square_at(b, cs[k]), d1));
        }
        assert(a[i] && a[j]);
        assert forall|k: int| 0 <= k < c.len() && c[k] implies k == i || k == j by {
            assert(allows(square_at(b, cs[k]), d2));
        }
        assert(c[i] && c[j]) by {
            assert(allows(square_at(b, cs[i]), d2));
            assert(allows(square_at(b, cs[j]), d2));
        }
        assert forall|k: int| 0 <= k < ab.len() && ab[k] implies k == i || k == j by {}
        assert(ab[i] && ab[j]);
        lemma_true_count_two_intro(a, i, j);
        lemma_true_count_two_intro(c, i, j);
        lemma_true_count_two_intro(ab, i, j);
    }
}

/// How many of the first `n` squares of a group allow `d` is how many of the first `n`
/// flags of its one-hot row are set.
proof fn lemma_allow_count_one_hot(b: Seq<SquareView>, cs: Seq<Coords>, d: u8, n: int)
    requires
        0 <= n <= cs.len(),
    ensures
        allow_count(b, cs, d, n) == true_count(candidate_one_hot(b, cs, d).take(n)),
    decreases n,
{
    if n > 0 {
        lemma_allow_count_one_hot(b, cs, d, n - 1);
        let oh = candidate_one_hot(b, cs, d);
        assert(oh.take(n).drop_last() =~= oh.take(n - 1));
    }
}

/// Exactly one square of a group allows `d` exactly when the count of squares allowing it is one.
proof fn lemma_allow_count_is_one(b: Seq<SquareView>, cs: Seq<Coords>, d: u8, k: int)
    requires
        0 <= k < cs.len(),
        allows(square_at(b, cs[k]), d),
        forall|k2: int| 0 <= k2 < cs.len() && allows(square_at(b, #[trigger] cs[k2]), d) ==> k2 == k,
    ensures
        allow_count(b, cs, d, cs.len() as int) == 1,
{
    let oh = candidate_one_hot(b, cs, d);
    lemma_allow_count_one_hot(b, cs, d, cs.len() as int);
    assert(oh.take(cs.len() as int) =~= oh);
    assert forall|k2: int| 0 <= k2 < oh.len() && oh[k2] implies k2 == k by {
        assert(allows(square_at(b, cs[k2]), d));
    }
    lemma_true_count_one_intro(oh, k);
}

/// A count of one square allowing `d` means one square, and no other, allows it.
proof fn lemma_allow_count_one_means(b: Seq<SquareView>, cs: Seq<Coords>, d: u8) -> (k: int)
    requires
        allow_count(b, cs, d, cs.len() as int) == 1,
    ensures
        0 <= k < cs.len(),
        allows(square_at(b, cs[k]), d),
        forall|k2: int| 0 <= k2 < cs.len() && allows(square_at(b, #[trigger] cs[k2]), d) ==> k2 == k,
        only_place(b, cs, d) == cs[k],
{
    let oh = candidate_one_hot(b, cs, d);
    lemma_allow_count_one_hot(b, cs, d, cs.len() as int);
    assert(oh.take(cs.len() as int) =~= oh);
    let k = lemma_true_count_one_elim(oh);
    assert forall|k2: int| 0 <= k2 < cs.len() && allows(square_at(b, #[trigger] cs[k2]), d) implies k2 == k by {
        assert(oh[k2]);
    }
    assert(allows(square_at(b, cs[k]), d));
    k
}

proof fn lemma_hidden_single_found_upto(b: Seq<SquareView>, cs: Seq<Coords>, d: u8, k: int, n: int)
    requires
        1 <= d <= n <= 9,
        0 <= k < cs.len(),
        allows(square_at(b, cs[k]), d),
        forall|k2: int| 0 <= k2 < cs.len() && allows(square_at(b, #[trigger] cs[k2]), d) ==> k2 == k,
    ensures
        hidden_singles_upto(b, cs, n).contains((cs[k], SquareView::Value(d))),
    decreases n,
{
    let entry = (cs[k], SquareView::Value(d));
    if n == d {
        lemma_allow_count_is_one(b, cs, d, k);
        let k1 = lemma_allow_count_one_means(b, cs, d);
        assert(k1 == k);
        let hs = hidden_singles_upto(b, cs, n);
        assert(hs[hs.len() - 1] == entry);
    } else {
        lemma_hidden_single_found_upto(b, cs, d, k, n - 1);
        let rest = hidden_singles_upto(b, cs, n - 1);
        let i = choose|i: int| 0 <= i < rest.len() && rest[i] == entry;
        assert(hidden_singles_upto(b, cs, n)[i] == entry);
    }
}

/// Every hidden single of a group is found: when exactly one square of the group allows a
/// digit from one to nine, the hidden singles place that digit in that square.
pub proof fn lemma_hidden_single_found(b: Seq<SquareView>, cs: Seq<Coords>, d: u8, k: int)
    requires
        1 <= d <= 9,
        0 <= k < cs.len(),
        allows(square_at(b, cs[k]), d),
        forall|k2: int| 0 <= k2 < cs.len() && allows(square_at(b, #[trigger] cs[k2]), d) ==> k2 == k,
    ensures
        hidden_singles(b, cs).contains((cs[k], SquareView::Value(d))),
{
    lemma_hidden_single_found_upto(b, cs, d, k, 9);
}

proof fn lemma_hidden_singles_upto_exact(b: Seq<SquareView>, cs: Seq<Coords>, n: int, m: int)
    requires
        0 <= n <= 9,
        0 <= m < hidden_singles_upto(b, cs, n).len(),
    ensures
        exists|d: u8, k: int| {
            &&& 1 <= d <= n
            &&& 0 <= k < cs.len()
            &&& #[trigger] hidden_singles_upto(b, cs, n)[m] == (cs[k], SquareView::Value(d))
            &&& allows(square_at(b, cs[k]), d)
            &&& forall|k2: int| 0 <= k2 < cs.len() && allows(square_at(b, #[trigger] cs[k2]), d) ==> k2 == k
        },
    decreases n,
{
    let rest = hidden_singles_upto(b, cs, n - 1);
    if m < rest.len() {
        lemma_hidden_singles_upto_exact(b, cs, n - 1, m);
        assert(hidden_singles_upto(b, cs, n)[m] == rest[m]);
    } else {
        let d = n as u8;
        let k = lemma_allow_count_one_means(b, cs, d);
        assert(hidden_singles_upto(b, cs, n)[m] == (cs[k], SquareView::Value(d)));
    }
}

/// Every hidden single of a group is a true one: it places a digit from one to nine in
/// the one square of the group that allows it.
pub proof fn lemma_hidden_single_exact(b: Seq<SquareView>, cs: Seq<Coords>, m: int)
    requires
        0 <= m < hidden_singles(b, cs).len(),
    ensures
        exists|d: u8, k: int| {
            &&& 1 <= d <= 9
            &&& 0 <= k < cs.len()
            &&& #[trigger] hidden_singles(b, cs)[m] == (cs[k], SquareView::Value(d))
            &&& allows(square_at(b, cs[k]), d)
            &&& forall|k2: int| 0 <= k2 < cs.len() && allows(square_at(b, #[trigger] cs[k2]), d) ==> k2 == k
        },
{
    lemma_hidden_singles_upto_exact(b, cs, 9, m);
}

proof fn lemma_hidden_singles_upto_increasing(b: Seq<SquareView>, cs: Seq<Coords>, n: int, m1: int, m2: int)
    requires
        0 <= n <= 9,
        0 <= m1 < m2 < hidden_singles_upto(b, cs, n).len(),
    ensures
        hidden_singles_upto(b, cs, n)[m1].1 is Value,
        hidden_singles_upto(b, cs, n)[m2].1 is Value,
        hidden_singles_upto(b, cs, n)[m1].1->Value_0 < hidden_singles_upto(b, cs, n)[m2].1->Value_0,
    decreases n,
{
    let rest = hidden_singles_upto(b, cs, n - 1);
    let hs = hidden_singles_upto(b, cs, n);
    if m2 < rest.len() {
        lemma_hidden_singles_upto_increasing(b, cs, n - 1, m1, m2);
        assert(hs[m1] == rest[m1] && hs[m2] == rest[m2]);
    } else {
        lemma_hidden_singles_upto_exact(b, cs, n - 1, m1);
        assert(hs[m1] == rest[m1]);
        assert(hs[m2].1 == SquareView::Value(n as u8));
    }
}

/// The hidden singles of a group come in increasing order of their digits, each digit once.
pub proof fn lemma_hidden_singles_increasing(b: Seq<SquareView>, cs: Seq<Coords>, m1: int, m2: int)
    requires
        0 <= m1 < m2 < hidden_singles(b, cs).len(),
    ensures
        hidden_singles(b, cs)[m1].1 is Value,
        hidden_singles(b, cs)[m2].1 is Value,
        hidden_singles(b, cs)[m1].1->Value_0 < hidden_singles(b, cs)[m2].1->Value_0,
{
    lemma_hidden_singles_upto_increasing(b, cs, 9, m1, m2);
}

/// A set of digits with one member is that member alone.
proof fn lemma_one_digit_set(c: Set<u8>)
    requires
        c.len() == 1,
    ensures
        c == set![c.choose()],
{
    broadcast use vstd::set_lib::full_set_properties;
    assert(Set::<u8>::full().finite());
    assert(c.subset_of(Set::<u8>::full()));
    vstd::set_lib::lemma_set_subset_finite(Set::<u8>::full(), c);
    Set::lemma_is_singleton(c);
    assert(c.contains(c.choose()));
    assert(c =~= set![c.choose()]);
}

proof fn lemma_naked_single_found_upto(b: Seq<SquareView>, j: int, d: u8, n: int)
    requires
        b.len() == 81,
        0 <= j < n <= 81,
        b[j] == SquareView::Candidate(set![d]),
    ensures
        naked_singles_upto(b, n).contains((coords_of(j), SquareView::Value(d))),
    decreases n,
{
    let entry = (coords_of(j), SquareView::Value(d));
    let ns = naked_singles_upto(b, n);
    if j == n - 1 {
        assert(set![d].len() == 1);
        assert(set![d].contains(set![d].choose()));
        assert(ns[ns.len() - 1] == entry);
    } else {
        lemma_naked_single_found_upto(b, j, d, n - 1);
        let rest = naked_singles_upto(b, n - 1);
        let i = choose|i: int| 0 <= i < rest.len() && rest[i] == entry;
        assert(ns[i] == entry);
    }
}

/// Every naked single is found: each blank square whose only candidate is `d` is
/// given the digit `d`.
pub proof fn lemma_naked_single_found(b: Seq<SquareView>, j: int, d: u8)
    requires
        b.len() == 81,
        0 <= j < 81,
        b[j] == SquareView::Candidate(set![d]),
    ensures
        naked_singles(b).contains((coords_of(j), SquareView::Value(d))),
{
    lemma_naked_single_found_upto(b, j, d, 81);
}

proof fn lemma_naked_singles_upto_exact(b: Seq<SquareView>, n: int, m: int)
    requires
        b.len() == 81,
        0 <= n <= 81,
        0 <= m < naked_singles_upto(b, n).len(),
    ensures
        exists|j: int, d: u8| {
            &&& 0 <= j < n
            &&& #[trigger] naked_singles_upto(b, n)[m] == (coords_of(j), SquareView::Value(d))
            &&& b[j] == SquareView::Candidate(set![d])
        },
        naked_singles_upto(b, n)[m].0.flat_index() < n,
    decreases n,
{
    let rest = naked_singles_upto(b, n - 1);
    if m < rest.len() {
        lemma_naked_singles_upto_exact(b, n - 1, m);
        assert(naked_singles_upto(b, n)[m] == rest[m]);
    } else {
        let c = b[n - 1]->Candidate_0;
        lemma_one_digit_set(c);
        assert(naked_singles_upto(b, n)[m] == (coords_of(n - 1), SquareView::Value(c.choose())));
        assert(coords_of(n - 1).flat_index() == n - 1);
    }
}

/// Every naked single is a true one: it gives a blank square the one digit it allows.
pub proof fn lemma_naked_single_exact(b: Seq<SquareView>, m: int)
    requires
        b.len() == 81,
        0 <= m < naked_singles(b).len(),
    ensures
        exists|j: int, d: u8| {
            &&& 0 <= j < 81
            &&& #[trigger] naked_singles(b)[m] == (coords_of(j), SquareView::Value(d))
            &&& b[j] == SquareView::Candidate(set![d])
        },
{
    lemma_naked_singles_upto_exact(b, 81, m);
}

proof fn lemma_naked_singles_upto_increasing(b: Seq<SquareView>, n: int, m1: int, m2: int)
    requires
        b.len() == 81,
        0 <= n <= 81,
        0 <= m1 < m2 < naked_singles_upto(b, n).len(),
    ensures
        naked_singles_upto(b, n)[m1].0.flat_index() < naked_singles_upto(b, n)[m2].0.flat_index(),
    decreases n,
{
    let rest = naked_singles_upto(b, n - 1);
    let ns = naked_singles_upto(b, n);
    if m2 < rest.len() {
        lemma_naked_singles_upto_increasing(b, n - 1, m1, m2);
        assert(ns[m1] == rest[m1] && ns[m2] == rest[m2]);
    } else {
        lemma_naked_singles_upto_exact(b, n - 1, m1);
        assert(ns[m1] == rest[m1]);
        assert(ns[m2].0 == coords_of(n - 1));
        assert(coords_of(n - 1).flat_index() == n - 1);
    }
}

/// The naked singles come in the order of their squares, each square once.
pub proof fn lemma_naked_singles_increasing(b: Seq<SquareView>, m1: int, m2: int)
    requires
        b.len() == 81,
        0 <= m1 < m2 < naked_singles(b).len(),
    ensures
        naked_singles(b)[m1].0.flat_index() < naked_singles(b)[m2].0.flat_index(),
{
    lemma_naked_singles_upto_increasing(b, 81, m1, m2);
}

/// Whether every placed digit of the board is a single decimal digit, so that every
/// square is drawn three characters wide.
pub open spec fn narrow_digits(b: Seq<SquareView>) -> bool {
    forall|j: int| 0 <= j < b.len() && (#[trigger] b[j]) is Value ==> b[j]->Value_0 < 10
}

proof fn lemma_square_line_width(s: SquareView, k: int)
    requires
        s is Value ==> s->Value_0 < 10,
    ensures
        square_line(s, k).len() == 3,
{
    if let SquareView::Value(d) = s {
        assert(decimal_text(d as nat).len() == 1);
    }
}

proof fn lemma_row_line_len(b: Seq<SquareView>, row: int, k: int, n: int)
    requires
        b.len() == 81,
        narrow_digits(b),
        0 <= row < 9,
        0 <= n <= 9,
    ensures
        row_line(b, row, k, n).len() == 4 * n,
    decreases n,
{
    if n > 0 {
        lemma_row_line_len(b, row, k, n - 1);
        lemma_square_line_width(b[row * 9 + n - 1], k);
    }
}

proof fn lemma_row_line_at(b: Seq<SquareView>, row: int, k: int, n: int, col: int, m: int)
    requires
        b.len() == 81,
        narrow_digits(b),
        0 <= row < 9,
        0 <= col < n <= 9,
        0 <= m <= 3,
    ensures
        row_line(b, row, k, n)[4 * col + m] == if m < 3 {
            square_line(b[9 * row + col], k)[m]
        } else {
            ' '
        },
    decreases n,
{
    lemma_row_line_len(b, row, k, n - 1);
    let prev = row_line(b, row, k, n - 1);
    let sl = square_line(b[row * 9 + n - 1], k);
    lemma_square_line_width(b[row * 9 + n - 1], k);
    if col < n - 1 {
        lemma_row_line_at(b, row, k, n - 1, col, m);
        assert(row_line(b, row, k, n)[4 * col + m] == prev[4 * col + m]);
    } else {
        assert(row_line(b, row, k, n) == prev + sl + seq![' ']);
        if m < 3 {
            assert((prev + sl + seq![' '])[4 * col + m] == sl[m]);
        } else {
            assert((prev + sl + seq![' '])[4 * col + 3] == ' ');
        }
    }
}

proof fn lemma_board_text_upto_len(b: Seq<SquareView>, r: int)
    requires
        b.len() == 81,
        narrow_digits(b),
        0 <= r <= 9,
    ensures
        board_text_upto(b, r).len() == 112 * r,
    decreases r,
{
    if r > 0 {
        lemma_board_text_upto_len(b, r - 1);
        lemma_row_line_len(b, r - 1, 0, 9);
        lemma_row_line_len(b, r - 1, 1, 9);
        lemma_row_line_len(b, r - 1, 2, 9);
    }
}

proof fn lemma_board_text_upto_prefix(b: Seq<SquareView>, r1: int, r2: int, i: int)
    requires
        b.len() == 81,
        narrow_digits(b),
        0 <= r1 <= r2 <= 9,
        0 <= i < 112 * r1,
    ensures
        board_text_upto(b, r2)[i] == board_text_upto(b, r1)[i],
    decreases r2,
{
    if r2 > r1 {
        lemma_board_text_upto_prefix(b, r1, r2 - 1, i);
        lemma_board_text_upto_len(b, r2 - 1);
        lemma_board_text_upto_len(b, r1);
        let prev = board_text_upto(b, r2 - 1);
        let rest = row_line(b, r2 - 1, 0, 9) + seq!['\n'] + row_line(b, r2 - 1, 1, 9) + seq!['\n']
            + row_line(b, r2 - 1, 2, 9) + seq!['\n'] + seq!['\n'];
        assert(board_text_upto(b, r2) =~= prev + rest);
        assert((prev + rest)[i] == prev[i]);
    }
}

/// The picture of a board whose placed digits are single digits is 36 lines of text:
/// for each row, three lines, then an empty one. Line `k` of row `row` shows, from left
/// to right, line `k` of the squares of that row in column order, each followed by a
/// blank, so the square in column `col` fills characters `4 * col` to `4 * col + 2`.
pub proof fn lemma_board_text_layout(b: Seq<SquareView>, row: int, k: int, col: int, m: int)
    requires
        b.len() == 81,
        narrow_digits(b),
        0 <= row < 9,
        0 <= k < 3,
        0 <= col < 9,
        0 <= m < 3,
    ensures
        board_text(b).len() == 1008,
        board_text(b)[112 * row + 37 * k + 4 * col + m] == square_line(b[9 * row + col], k)[m],
        board_text(b)[112 * row + 37 * k + 4 * col + 3] == ' ',
        board_text(b)[112 * row + 37 * k + 36] == '\n',
        board_text(b)[112 * row + 111] == '\n',
{
    lemma_board_text_upto_len(b, 9);
    lemma_board_text_upto_len(b, row);
    let prev = board_text_upto(b, row);
    let l0 = row_line(b, row, 0, 9);
    let l1 = row_line(b, row, 1, 9);
    let l2 = row_line(b, row, 2, 9);
    lemma_row_line_len(b, row, 0, 9);
    lemma_row_line_len(b, row, 1, 9);
    lemma_row_line_len(b, row, 2, 9);
    let block = l0 + seq!['\n'] + l1 + seq!['\n'] + l2 + seq!['\n'] + seq!['\n'];
    assert(board_text_upto(b, row + 1) =~= prev + block);
    let lk = row_line(b, row, k, 9);
    lemma_row_line_at(b, row, k, 9, col, m);
    lemma_row_line_at(b, row, k, 9, col, 3);
    let p1 = 37 * k + 4 * col + m;
    let p2 = 37 * k + 4 * col + 3;
    let p3 = 37 * k + 36;
    if k == 0 {
        assert(block[p1] == l0[4 * col + m]);
        assert(block[p2] == l0[4 * col + 3]);
    } else if k == 1 {
        assert(block[p1] == l1[4 * col + m]);
        assert(block[p2] == l1[4 * col + 3]);
    } else {
        assert(block[p1] == l2[4 * col + m]);
        assert(block[p2] == l2[4 * col + 3]);
    }
    assert(block[p3] == '\n');
    assert(block[111] == '\n');
    let whole = board_text_upto(b, row + 1);
    assert(whole[112 * row + p1] == block[p1]);
    assert(whole[112 * row + p2] == block[p2]);
    assert(whole[112 * row + p3] == block[p3]);
    assert(whole[112 * row + 111] == block[111]);
    lemma_board_text_upto_prefix(b, row + 1, 9, 112 * row + p1);
    lemma_board_text_upto_prefix(b, row + 1, 9, 112 * row + p2);
    lemma_board_text_upto_prefix(b, row + 1, 9, 112 * row + p3);
    lemma_board_text_upto_prefix(b, row + 1, 9, 112 * row + 111);
}

/// Ruling out the seen digits removes a candidate only when a square that sees the
/// square holds that digit.
pub proof fn lemma_pruned_removes_only_seen(b: Seq<SquareView>, j: int, d: u8)
    requires
        b.len() == 81,
        0 <= j < 81,
        allows(b[j], d),
        !allows(pruned(b)[j], d),
    ensures
        exists|i: int| 0 <= i < 81 && sees(coords_of(i), coords_of(j)) && b[i] == SquareView::Value(d),
{
    assert(pruned(b)[j] == pruned_square(b, 81, j));
    assert(seen_values_before(b, coords_of(j), 81).contains(d));
}

/// No two squares of `cs` hold the same placed digit.
spec fn no_repeated_digit(b: Seq<SquareView>, cs: Seq<Coords>) -> bool {
    forall|k1: int, k2: int|
        0 <= k1 < k2 < cs.len() && (#[trigger] square_at(b, cs[k1])) is Value ==> square_at(b, cs[k1])
            != #[trigger] square_at(b, cs[k2])
}

proof fn lemma_placed_digits_facts(b: Seq<SquareView>, cs: Seq<Coords>)
    ensures
        forall|v: u8| #[trigger] placed_digits(b, cs).contains(v) <==> exists|k: int|
            0 <= k < cs.len() && square_at(b, cs[k]) == SquareView::Value(v),
        placed_digits(b, cs).no_duplicates() <==> no_repeated_digit(b, cs),
    decreases cs.len(),
{
    if cs.len() > 0 {
        let init = cs.drop_last();
        let n = cs.len() - 1;
        lemma_placed_digits_facts(b, init);
        let di = placed_digits(b, init);
        let ds = placed_digits(b, cs);
        assert forall|k: int| 0 <= k < init.len() implies init[k] == cs[k] by {}
        assert forall|v: u8| #[trigger] ds.contains(v) <==> exists|k: int|
            0 <= k < cs.len() && square_at(b, cs[k]) == SquareView::Value(v) by {
            if ds.contains(v) {
                let i = choose|i: int| 0 <= i < ds.len() && ds[i] == v;
                if i < di.len() {
                    assert(di[i] == v);
                    assert(di.contains(v));
                    let k = choose|k: int| 0 <= k < init.len() && square_at(b, init[k]) == SquareView::Value(v);
                    assert(init[k] == cs[k]);
                }
            }
            if exists|k: int| 0 <= k < cs.len() && square_at(b, cs[k]) == SquareView::Value(v) {
                let k = choose|k: int| 0 <= k < cs.len() && square_at(b, cs[k]) == SquareView::Value(v);
                if k < n {
                    assert(init[k] == cs[k]);
                    assert(di.contains(v));
                    let i = choose|i: int| 0 <= i < di.len() && di[i] == v;
                    assert(ds[i] == v);
                } else {
                    assert(ds[ds.len() - 1] == v);
                }
            }
        }
        match square_at(b, cs[n]) {
            SquareView::Value(v) => {
                assert(ds == di.push(v));
                if ds.no_duplicates() {
                    assert(di.no_duplicates()) by {
                        assert forall|i1: int, i2: int| 0 <= i1 < di.len() && 0 <= i2 < di.len() && i1 != i2 implies di[i1] != di[i2] by {
                            assert(ds[i1] == di[i1] && ds[i2] == di[i2]);
                        }
                    }
                    assert forall|k1: int, k2: int|
                        0 <= k1 < k2 < cs.len() && (#[trigger] square_at(b, cs[k1])) is Value implies square_at(b, cs[k1])
                            != #[trigger] square_at(b, cs[k2]) by {
                        if k2 < n {
                            assert(init[k1] == cs[k1] && init[k2] == cs[k2]);
                            assert(square_at(b, init[k1]) != square_at(b, init[k2]));
                        } else if square_at(b, cs[k1]) == square_at(b, cs[k2]) {
                            assert(init[k1] == cs[k1]);
                            assert(di.contains(v));
                            let i = choose|i: int| 0 <= i < di.len() && di[i] == v;
                            assert(ds[i] == ds[ds.len() - 1]);
                        }
                    }
                }
                if no_repeated_digit(b, cs) {
                    assert(no_repeated_digit(b, init)) by {
                        assert forall|k1: int, k2: int|
                            0 <= k1 < k2 < init.len() && (#[trigger] square_at(b, init[k1])) is Value implies square_at(b, init[k1])
                                != #[trigger] square_at(b, init[k2]) by {
                            assert(init[k1] == cs[k1] && init[k2] == cs[k2]);
                            assert(square_at(b, cs[k1]) != square_at(b, cs[k2]));
                        }
                    }
                    assert(!di.contains(v)) by {
                        if di.contains(v) {
                            let k = choose|k: int| 0 <= k < init.len() && square_at(b, init[k]) == SquareView::Value(v);
                            assert(init[k] == cs[k]);
                            assert(square_at(b, cs[k]) != square_at(b, cs[n]));
                        }
                    }
                    assert forall|i1: int, i2: int| 0 <= i1 < ds.len() && 0 <= i2 < ds.len() && i1 != i2 implies ds[i1] != ds[i2] by {
                        if i1 < di.len() && i2 < di.len() {
                            assert(ds[i1] == di[i1] && ds[i2] == di[i2]);
                        } else if i1 < di.len() {
                            assert(ds[i1] == di[i1]);
                        } else {
                            assert(ds[i2] == di[i2]);
                        }
                    }
                }
            },
            SquareView::Candidate(_) => {
                assert(ds == di);
                if no_repeated_digit(b, cs) {
                    assert forall|k1: int, k2: int|
                        0 <= k1 < k2 < init.len() && (#[trigger] square_at(b, init[k1])) is Value implies square_at(b, init[k1])
                            != #[trigger] square_at(b, init[k2]) by {
                        assert(init[k1] == cs[k1] && init[k2] == cs[k2]);
                        assert(square_at(b, cs[k1]) != square_at(b, cs[k2]));
                    }
                }
                if no_repeated_digit(b, init) {
                    assert forall|k1: int, k2: int|
                        0 <= k1 < k2 < cs.len() && (#[trigger] square_at(b, cs[k1])) is Value implies square_at(b, cs[k1])
                            != #[trigger] square_at(b, cs[k2]) by {
                        if k2 < n {
                            assert(init[k1] == cs[k1] && init[k2] == cs[k2]);
                            assert(square_at(b, init[k1]) != square_at(b, init[k2]));
                        }
                    }
                }
            },
        }
    }
}

/// A group is consistent exactly when every digit placed in it is a digit from one to
/// nine and no two of its squares hold the same placed digit.
pub proof fn lemma_group_consistent_meaning(b: Seq<SquareView>, cs: Seq<Coords>)
    ensures
        group_consistent(b, cs) <==> {
            &&& forall|k: int| 0 <= k < cs.len() && (#[trigger] square_at(b, cs[k])) is Value
                ==> 1 <= square_at(b, cs[k])->Value_0 <= 9
            &&& forall|k1: int, k2: int|
                0 <= k1 < k2 < cs.len() && (#[trigger] square_at(b, cs[k1])) is Value ==> square_at(b, cs[k1])
                    != #[trigger] square_at(b, cs[k2])
        },
{
    lemma_placed_digits_facts(b, cs);
    let ds = placed_digits(b, cs);
    if group_consistent(b, cs) {
        assert forall|k: int| 0 <= k < cs.len() && (#[trigger] square_at(b, cs[k])) is Value
            implies 1 <= square_at(b, cs[k])->Value_0 <= 9 by {
            let v = square_at(b, cs[k])->Value_0;
            assert(ds.contains(v));
            let i = choose|i: int| 0 <= i < ds.len() && ds[i] == v;
            assert(1 <= ds[i] <= 9);
        }
    }
    if forall|k: int| 0 <= k < cs.len() && (#[trigger] square_at(b, cs[k])) is Value
        ==> 1 <= square_at(b, cs[k])->Value_0 <= 9 {
        assert forall|i: int| 0 <= i < ds.len() implies 1 <= #[trigger] ds[i] <= 9 by {
            assert(ds.contains(ds[i]));
            let k = choose|k: int| 0 <= k < cs.len() && square_at(b, cs[k]) == SquareView::Value(ds[i]);
            assert(square_at(b, cs[k]) is Value);
        }
    }
}

/// Placements that all name squares of the board.
pub open spec fn targets_on_board(b: Seq<SquareView>, vs: Seq<(Coords, SquareView)>) -> bool {
    forall|k: int| 0 <= k < vs.len() ==> 0 <= (#[trigger] vs[k]).0.flat_index() < b.len()
}

/// A square that no placement names keeps what it held.
pub proof fn lemma_applied_untouched(b: Seq<SquareView>, vs: Seq<(Coords, SquareView)>, j: int)
    requires
        targets_on_board(b, vs),
        0 <= j < b.len(),
        forall|k: int| 0 <= k < vs.len() ==> (#[trigger] vs[k]).0.flat_index() != j,
    ensures
        applied(b, vs).len() == b.len(),
        applied(b, vs)[j] == b[j],
    decreases vs.len(),
{
    if vs.len() > 0 {
        let init = vs.drop_last();
        assert forall|k: int| 0 <= k < init.len() implies 0 <= (#[trigger] init[k]).0.flat_index() < b.len() by {
            assert(init[k] == vs[k]);
        }
        assert forall|k: int| 0 <= k < init.len() implies (#[trigger] init[k]).0.flat_index() != j by {
            assert(init[k] == vs[k]);
        }
        assert(vs[vs.len() - 1] == vs.last());
        lemma_applied_untouched(b, init, j);
    }
}

/// A square named by placements ends with what the last of them puts there.
pub proof fn lemma_applied_last_wins(b: Seq<SquareView>, vs: Seq<(Coords, SquareView)>, j: int, k: int)
    requires
        targets_on_board(b, vs),
        0 <= k < vs.len(),
        vs[k].0.flat_index() == j,
        forall|k2: int| k < k2 < vs.len() ==> (#[trigger] vs[k2]).0.flat_index() != j,
    ensures
        applied(b, vs)[j] == vs[k].1,
    decreases vs.len(),
{
    let init = vs.drop_last();
    assert(vs[vs.len() - 1] == vs.last());
    assert forall|k2: int| 0 <= k2 < init.len() implies 0 <= (#[trigger] init[k2]).0.flat_index() < b.len() by {
        assert(init[k2] == vs[k2]);
    }
    if k < vs.len() - 1 {
        assert(init[k] == vs[k]);
        assert forall|k2: int| k < k2 < init.len() implies (#[trigger] init[k2]).0.flat_index() != j by {
            assert(init[k2] == vs[k2]);
        }
        lemma_applied_last_wins(b, init, j, k);
        lemma_applied_len(b, init);
    } else {
        lemma_applied_len(b, init);
    }
}

proof fn lemma_applied_len(b: Seq<SquareView>, vs: Seq<(Coords, SquareView)>)
    requires
        targets_on_board(b, vs),
    ensures
        applied(b, vs).len() == b.len(),
    decreases vs.len(),
{
    if vs.len() > 0 {
        let init = vs.drop_last();
        assert forall|k: int| 0 <= k < init.len() implies 0 <= (#[trigger] init[k]).0.flat_index() < b.len() by {
            assert(init[k] == vs[k]);
        }
        lemma_applied_len(b, init);
    }
}

/// When no placement changes its square, the board stays as it was.
pub proof fn lemma_no_change_keeps_board(b: Seq<SquareView>, vs: Seq<(Coords, SquareView)>)
    requires
        targets_on_board(b, vs),
        !any_change(b, vs),
    ensures
        applied(b, vs) == b,
    decreases vs.len(),
{
    if vs.len() > 0 {
        let init = vs.drop_last();
        assert forall|k: int| 0 <= k < init.len() implies 0 <= (#[trigger] init[k]).0.flat_index() < b.len() by {
            assert(init[k] == vs[k]);
        }
        lemma_no_change_keeps_board(b, init);
        assert(vs[vs.len() - 1] == vs.last());
        assert(applied(b, vs) =~= b);
    }
}

} // verus!
