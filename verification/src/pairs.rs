use std::collections::HashMap;
use itertools::Itertools;
use vstd::prelude::*;
use crate::board::Board;
use crate::check::{candidate_one_hot, within_board};
use crate::coords::Coords;
use crate::square::{Digit, SquareView};

verus! {

broadcast use vstd::std_specs::hash::group_hash_axioms;

/// Every two elements of `s`, each pair in the order of its positions, the pairs
/// ordered by their first position and then by their second.
pub open spec fn ordered_pairs(s: Seq<u8>) -> Seq<Seq<u8>>
    decreases s.len(),
{
    if s.len() < 2 {
        Seq::empty()
    } else {
        Seq::new((s.len() - 1) as nat, |j: int| seq![s[0], s[j + 1]]) + ordered_pairs(s.drop_first())
    }
}

/// `Itertools::combinations(2)` over the items: all two-element combinations,
/// in the lexicographic order of their positions, as the crate documents.
#[verifier::external_body]
fn combinations_of_two(items: &Vec<Digit>) -> (r: Vec<Vec<Digit>>)
    ensures
        r@.map_values(|v: Vec<Digit>| v@) == ordered_pairs(items@),
{
    items.iter().copied().combinations(2).collect()
}

/// How many entries of `s` are `true`.
pub open spec fn true_count(s: Seq<bool>) -> nat
    decreases s.len(),
{
    if s.len() == 0 {
        0
    } else {
        true_count(s.drop_last()) + if s.last() {
            1nat
        } else {
            0nat
        }
    }
}

/// The entries of `a` and `b` taken pairwise with `&&`, as long as the shorter one.
pub open spec fn both(a: Seq<bool>, b: Seq<bool>) -> Seq<bool> {
    Seq::new(if a.len() <= b.len() { a.len() } else { b.len() }, |k: int| a[k] && b[k])
}

/// Two digits form a hidden pair of the group `cs` when each is allowed by exactly
/// two of its squares, and those are the same two squares.
pub open spec fn is_hidden_pair(b: Seq<SquareView>, cs: Seq<Coords>, d1: u8, d2: u8) -> bool {
    &&& 1 <= d1 <= 9
    &&& 1 <= d2 <= 9
    &&& d1 != d2
    &&& true_count(candidate_one_hot(b, cs, d1)) == 2
    &&& true_count(candidate_one_hot(b, cs, d2)) == 2
    &&& true_count(both(candidate_one_hot(b, cs, d1), candidate_one_hot(b, cs, d2))) == 2
}

/// Whether the group `cs` has a hidden pair.
pub open spec fn has_hidden_pair(b: Seq<SquareView>, cs: Seq<Coords>) -> bool {
    exists|d1: u8, d2: u8| is_hidden_pair(b, cs, d1, d2)
}

/// Each pair of `ordered_pairs(s)` is two elements of `s` at increasing positions.
proof fn lemma_ordered_pairs_sound(s: Seq<u8>, k: int)
    requires
        0 <= k < ordered_pairs(s).len(),
    ensures
        exists|i: int, j: int|
            0 <= i < j < s.len() && ordered_pairs(s)[k] == seq![s[i], s[j]],
    decreases s.len(),
{
    let first = Seq::new((s.len() - 1) as nat, |j: int| seq![s[0], s[j + 1]]);
    if k < s.len() - 1 {
        assert(ordered_pairs(s)[k] == first[k]);
        assert(ordered_pairs(s)[k] == seq![s[0], s[k + 1]]);
    } else {
        let t = s.drop_first();
        lemma_ordered_pairs_sound(t, k - (s.len() - 1));
        let (i, j) = choose|i: int, j: int|
            0 <= i < j < t.len() && ordered_pairs(t)[k - (s.len() - 1)] == seq![t[i], t[j]];
        assert(ordered_pairs(s)[k] == seq![s[i + 1], s[j + 1]]);
    }
}

/// Every two elements of `s` at increasing positions are a pair of `ordered_pairs(s)`.
proof fn lemma_ordered_pairs_complete(s: Seq<u8>, i: int, j: int)
    requires
        0 <= i < j < s.len(),
    ensures
        exists|k: int| 0 <= k < ordered_pairs(s).len() && ordered_pairs(s)[k] == seq![s[i], s[j]],
    decreases s.len(),
{
    let first = Seq::new((s.len() - 1) as nat, |j: int| seq![s[0], s[j + 1]]);
    if i == 0 {
        assert(ordered_pairs(s)[j - 1] == first[j - 1]);
    } else {
        let t = s.drop_first();
        lemma_ordered_pairs_complete(t, i - 1, j - 1);
        let k = choose|k: int| 0 <= k < ordered_pairs(t).len() && ordered_pairs(t)[k] == seq![t[i - 1], t[j - 1]];
        assert(ordered_pairs(s)[k + (s.len() - 1)] == ordered_pairs(t)[k]);
    }
}

proof fn lemma_both_symmetric(a: Seq<bool>, b: Seq<bool>)
    ensures
        both(a, b) == both(b, a),
{
    assert(both(a, b) =~= both(b, a));
}

/// The digits of the first `n` entries of a walk over a map.
spec fn keys_of(entries: Seq<(&Digit, &Vec<bool>)>, n: int) -> Seq<Digit> {
    entries.take(n).map_values(|p: (&Digit, &Vec<bool>)| *p.0)
}

/// Counts the `true` entries.
fn count_true(v: &Vec<bool>) -> (n: usize)
    ensures
        n == true_count(v@),
{
    let mut n: usize = 0;
    let mut i: usize = 0;
    while i < v.len()
        invariant
            i <= v.len(),
            n == true_count(v@.take(i as int)),
            n <= i,
        decreases v.len() - i,
    {
        assert(v@.take(i + 1).drop_last() =~= v@.take(i as int));
        if v[i] {
            n = n + 1;
        }
        i = i + 1;
    }
    assert(v@.take(v.len() as int) =~= v@);
    n
}

/// The entries of two vectors taken pairwise with `&&`.
fn and_both(a: &Vec<bool>, b: &Vec<bool>) -> (r: Vec<bool>)
    ensures
        r@ == both(a@, b@),
{
    let n = if a.len() <= b.len() { a.len() } else { b.len() };
    let mut r: Vec<bool> = Vec::new();
    let mut i: usize = 0;
    while i < n
        invariant
            i <= n,
            n == if a.len() <= b.len() { a.len() } else { b.len() },
            r@ == both(a@, b@).take(i as int),
        decreases n - i,
    {
        r.push(a[i] && b[i]);
        assert(both(a@, b@).take(i + 1) =~= both(a@, b@).take(i as int).push(a@[i as int] && b@[i as int]));
        i = i + 1;
    }
    assert(both(a@, b@).take(n as int) =~= both(a@, b@));
    r
}

impl Board {
    /// Looks for a hidden pair in the group `neighbourhood`. Where there are several, the one
    /// reported depends on the order in which the digits come out of a hash map.
    pub fn find_hidden_pairs(&self, neighbourhood: &Vec<Coords>) -> (r: Vec<Digit>)
        requires
            self.wf(),
            within_board(neighbourhood@),
        ensures
            r@.len() == 0 <==> !has_hidden_pair(self@, neighbourhood@),
            r@.len() != 0 ==> r@.len() == 2 && is_hidden_pair(self@, neighbourhood@, r@[0], r@[1]),
    {
        let ghost b = self@;
        let ghost cs = neighbourhood@;
        let mut one_hots: HashMap<Digit, Vec<bool>> = HashMap::new();
        let mut hidden_digits: Vec<Digit> = Vec::new();

        let mut digit: u8 = 1;
        while digit <= 9
            invariant
                1 <= digit <= 10,
                self.wf(),
                b == self@,
                cs == neighbourhood@,
                within_board(cs),
                forall|k: u8| #[trigger] one_hots@.contains_key(k) <==> 1 <= k < digit,
                forall|k: u8| one_hots@.contains_key(k) ==> (#[trigger] one_hots@[k])@ == candidate_one_hot(b, cs, k),
            decreases 10 - digit,
        {
            one_hots.insert(digit, self.get_candidate_one_hot(digit, neighbourhood));
            digit = digit + 1;
        }

        let mut paired_digits: Vec<Digit> = Vec::new();
        assert(one_hots@.contains_key(1u8));
        for entry in it: one_hots.iter()
            invariant
                forall|k: u8| #[trigger] one_hots@.contains_key(k) <==> 1 <= k <= 9,
                forall|k: u8| one_hots@.contains_key(k) ==> (#[trigger] one_hots@[k])@ == candidate_one_hot(b, cs, k),
                it.seq().len() == one_hots@.dom().len(),
                it.seq().no_duplicates(),
                forall|i: int| 0 <= i < it.seq().len() ==> one_hots@.contains_key(*(#[trigger] it.seq()[i]).0)
                    && one_hots@[*it.seq()[i].0] == *it.seq()[i].1,
                forall|k: u8| #[trigger] one_hots@.contains_key(k) ==> it.seq().contains((&k, &one_hots@[k])),
                forall|m: int| 0 <= m < paired_digits.len() ==> {
                    let d = #[trigger] paired_digits@[m];
                    1 <= d <= 9 && true_count(candidate_one_hot(b, cs, d)) == 2
                },
                forall|m: int| 0 <= m < paired_digits.len() ==>
                    keys_of(it.seq(), it.index() as int).contains(#[trigger] paired_digits@[m]),
                paired_digits@.no_duplicates(),
                forall|i: int| 0 <= i < it.index() && true_count(candidate_one_hot(b, cs, *(#[trigger] it.seq()[i]).0)) == 2
                    ==> paired_digits@.contains(*it.seq()[i].0),
                it.index() == it.seq().len() ==> forall|k: u8|
                    1 <= k <= 9 && true_count(candidate_one_hot(b, cs, k)) == 2 ==> #[trigger] paired_digits@.contains(k),
        {
            let ghost idx = it.index() as int;
            assert(entry == it.seq()[idx]);
            let (digit, one_hot) = entry;
            let count = count_true(one_hot);
            if count == 2 {
                let ghost before = paired_digits@;
                proof {
                    if before.contains(*digit) {
                        let m = choose|m: int| 0 <= m < before.len() && before[m] == *digit;
                        assert(keys_of(it.seq(), idx).contains(before[m]));
                        let i = choose|i: int| 0 <= i < idx && keys_of(it.seq(), idx)[i] == before[m];
                        assert(it.seq()[i] == it.seq()[idx]);
                    }
                }
                paired_digits.push(*digit);
                proof {
                    assert forall|c: u8| before.contains(c) implies paired_digits@.contains(c) by {
                        let m = choose|m: int| 0 <= m < before.len() && before[m] == c;
                        assert(paired_digits@[m] == c);
                    }
                    assert(paired_digits@[before.len() as int] == *digit);
                    assert(*it.seq()[idx].0 == *digit);
                }
            }
            assert forall|k: u8| idx + 1 == it.seq().len() && 1 <= k <= 9 && true_count(candidate_one_hot(b, cs, k)) == 2
                implies #[trigger] paired_digits@.contains(k) by {
                assert(one_hots@.contains_key(k));
                assert(it.seq().contains((&k, &one_hots@[k])));
                let i = choose|i: int| 0 <= i < it.seq().len() && it.seq()[i] == (&k, &one_hots@[k]);
                assert(*it.seq()[i].0 == k);
            }
            assert forall|m: int| 0 <= m < paired_digits.len() implies
                keys_of(it.seq(), idx + 1).contains(#[trigger] paired_digits@[m]) by {
                if m == paired_digits.len() - 1 && count == 2 {
                    assert(keys_of(it.seq(), idx + 1)[idx] == paired_digits@[m]);
                } else {
                    let i = choose|i: int| 0 <= i < idx && keys_of(it.seq(), idx)[i] == paired_digits@[m];
                    assert(keys_of(it.seq(), idx + 1)[i] == paired_digits@[m]);
                }
            }
        }

        if paired_digits.len() >= 2 {
            let combinations = combinations_of_two(&paired_digits);
            let ghost pairs = ordered_pairs(paired_digits@);
            let mut ci: usize = 0;
            while ci < combinations.len()
                invariant
                    ci <= combinations.len(),
                    combinations@.map_values(|v: Vec<Digit>| v@) == pairs,
                    pairs == ordered_pairs(paired_digits@),
                    forall|k: u8| #[trigger] one_hots@.contains_key(k) <==> 1 <= k <= 9,
                    forall|k: u8| one_hots@.contains_key(k) ==> (#[trigger] one_hots@[k])@ == candidate_one_hot(b, cs, k),
                    forall|m: int| 0 <= m < paired_digits.len() ==> {
                        let d = #[trigger] paired_digits@[m];
                        1 <= d <= 9 && true_count(candidate_one_hot(b, cs, d)) == 2
                    },
                    paired_digits@.no_duplicates(),
                    forall|k: u8| 1 <= k <= 9 && true_count(candidate_one_hot(b, cs, k)) == 2
                        ==> #[trigger] paired_digits@.contains(k),
                    hidden_digits@.len() == 0 ==> forall|k: int| 0 <= k < ci ==>
                        !is_hidden_pair(b, cs, (#[trigger] pairs[k])[0], pairs[k][1]),
                    hidden_digits@.len() != 0 ==> hidden_digits@.len() == 2
                        && is_hidden_pair(b, cs, hidden_digits@[0], hidden_digits@[1]),
                decreases combinations.len() - ci,
            {
                let combination = &combinations[ci];
                proof {
                    assert(pairs[ci as int] == combination@);
                    lemma_ordered_pairs_sound(paired_digits@, ci as int);
                }
                let d1 = combination[0];
                let d2 = combination[1];
                let oh1 = one_hots.get(&d1).unwrap();
                let oh2 = one_hots.get(&d2).unwrap();
                let reduced_one_hots = and_both(oh1, oh2);
                if count_true(&reduced_one_hots) == 2 {
                    hidden_digits = Vec::new();
                    hidden_digits.push(d1);
                    hidden_digits.push(d2);
                }
                ci = ci + 1;
            }
            proof {
                if hidden_digits@.len() == 0 && has_hidden_pair(b, cs) {
                    let (d1, d2) = choose|d1: u8, d2: u8| is_hidden_pair(b, cs, d1, d2);
                    assert(paired_digits@.contains(d1));
                    assert(paired_digits@.contains(d2));
                    let i1 = choose|i: int| 0 <= i < paired_digits.len() && paired_digits@[i] == d1;
                    let i2 = choose|i: int| 0 <= i < paired_digits.len() && paired_digits@[i] == d2;
                    lemma_both_symmetric(candidate_one_hot(b, cs, d1), candidate_one_hot(b, cs, d2));
                    if i1 < i2 {
                        lemma_ordered_pairs_complete(paired_digits@, i1, i2);
                        let k = choose|k: int| 0 <= k < pairs.len() && pairs[k] == seq![d1, d2];
                        assert(!is_hidden_pair(b, cs, pairs[k][0], pairs[k][1]));
                    } else {
                        lemma_ordered_pairs_complete(paired_digits@, i2, i1);
                        let k = choose|k: int| 0 <= k < pairs.len() && pairs[k] == seq![d2, d1];
                        assert(!is_hidden_pair(b, cs, pairs[k][0], pairs[k][1]));
                    }
                }
            }
        } else {
            proof {
                if has_hidden_pair(b, cs) {
                    let (d1, d2) = choose|d1: u8, d2: u8| is_hidden_pair(b, cs, d1, d2);
                    assert(paired_digits@.contains(d1));
                    assert(paired_digits@.contains(d2));
                    let i1 = choose|i: int| 0 <= i < paired_digits.len() && paired_digits@[i] == d1;
                    let i2 = choose|i: int| 0 <= i < paired_digits.len() && paired_digits@[i] == d2;
                    assert(i1 != i2);
                }
            }
        }
        hidden_digits
    }
}

} // verus!
