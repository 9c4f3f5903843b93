//! The search driver: keeping the best candidate weight vector by its grouped
//! correct count, ranking candidates by their threshold correct count, and the
//! coarse grid of the ranked search.

use vstd::prelude::*;
use crate::evaluate::{evaluate_correctness_with_total, tally, PlayerOutcome};
use crate::generator::{views, WeightGenerator};
use crate::bulk::{is_enumeration, lemma_generator_enumerates};
use crate::lattice::{first_point, power, walk};

verus! {

/// The best candidate seen so far in a search: its index, correct count and
/// total, or `None` before the first candidate.
pub struct SearchBest {
    pub best: Option<(usize, u64, u64)>,
}

impl SearchBest {
    /// No candidate seen yet.
    pub fn new() -> (s: Self)
        ensures
            s.best is None,
    {
        SearchBest { best: None }
    }

    /// Takes in candidate `index` with its (correct, total) pair. It becomes the
    /// best when it has at least as many correct as the best so far, so a later
    /// candidate wins a tie.
    pub fn consider(&mut self, index: usize, correct: u64, total: u64)
        ensures
            final(self).best == match old(self).best {
                None => Some((index, correct, total)),
                Some((b, c, t)) => if correct >= c {
                    Some((index, correct, total))
                } else {
                    Some((b, c, t))
                },
            },
    {
        let replace = match self.best {
            None => true,
            Some((_, c, _)) => correct >= c,
        };
        if replace {
            self.best = Some((index, correct, total));
        }
    }
}

/// The best candidate, given each candidate's score keys for `players`: the
/// index of the last one with the highest correct count, with its (correct,
/// total) pair; `None` when there is no candidate. A later candidate that ties
/// the best so far replaces it.
pub fn test_weights(players: &Vec<PlayerOutcome>, candidates: &Vec<Vec<i64>>) -> (r: Option<
    (usize, u64, u64),
>)
    requires
        players@.len() <= u64::MAX / 3,
        forall|j: int| 0 <= j < candidates@.len() ==> (#[trigger] candidates@[j])@.len() == players@.len(),
    ensures
        candidates@.len() == 0 <==> r is None,
        r matches Some((b, c, t)) ==> {
            &&& b < candidates@.len()
            &&& c == tally(players@, candidates@[b as int]@).0
            &&& t == tally(players@, candidates@[b as int]@).1
            &&& forall|j: int| 0 <= j < candidates@.len() ==> tally(players@, (#[trigger] candidates@[j])@).0 <= c
            &&& forall|j: int| b < j < candidates@.len() ==> tally(players@, (#[trigger] candidates@[j])@).0 < c
        },
{
    let mut search = SearchBest::new();
    let mut i: usize = 0;
    while i < candidates.len()
        invariant
            i <= candidates@.len(),
            players@.len() <= u64::MAX / 3,
            forall|j: int| 0 <= j < candidates@.len() ==> (#[trigger] candidates@[j])@.len() == players@.len(),
            i == 0 <==> search.best is None,
            search.best matches Some((b, c, t)) ==> {
                &&& b < i
                &&& c == tally(players@, candidates@[b as int]@).0
                &&& t == tally(players@, candidates@[b as int]@).1
                &&& forall|j: int| 0 <= j < i ==> tally(players@, (#[trigger] candidates@[j])@).0 <= c
                &&& forall|j: int| b < j < i ==> tally(players@, (#[trigger] candidates@[j])@).0 < c
            },
        decreases candidates@.len() - i,
    {
        let (correct, total) = evaluate_correctness_with_total(players, &candidates[i]);
        search.consider(i, correct, total);
        i = i + 1;
    }
    search.best
}

/// How many predictions agree with the outcomes: the threshold count.
pub fn count_agreements(predicted: &Vec<bool>, actual: &Vec<bool>) -> (r: usize)
    requires
        predicted@.len() == actual@.len(),
    ensures
        r == agreements(predicted@, actual@),
{
    let mut count: usize = 0;
    let mut i: usize = 0;
    while i < predicted.len()
        invariant
            i <= predicted@.len() == actual@.len(),
            count == agreements(predicted@.subrange(0, i as int), actual@.subrange(0, i as int)),
            count <= i,
        decreases predicted@.len() - i,
    {
        proof {
            assert(predicted@.subrange(0, i + 1).drop_last() =~= predicted@.subrange(0, i as int));
            assert(actual@.subrange(0, i + 1).drop_last() =~= actual@.subrange(0, i as int));
        }
        if predicted[i] == actual[i] {
            count = count + 1;
        }
        i = i + 1;
    }
    proof {
        assert(predicted@.subrange(0, i as int) =~= predicted@);
        assert(actual@.subrange(0, i as int) =~= actual@);
    }
    count
}

/// The number of positions at which `p` and `a` agree.
pub open spec fn agreements(p: Seq<bool>, a: Seq<bool>) -> int
    decreases p.len(),
{
    if p.len() == 0 || a.len() == 0 {
        0
    } else {
        agreements(p.drop_last(), a.drop_last()) + if p.last() == a.last() {
            1int
        } else {
            0int
        }
    }
}

/// Candidate `i` ranks before candidate `j`: more correct, or as many and earlier.
pub open spec fn ranks_before(c: Seq<u64>, i: int, j: int) -> bool {
    c[i] > c[j] || (c[i] == c[j] && i < j)
}

/// The indices of the `top_n` best candidates by correct count, best first;
/// candidates with equal counts keep their order.
pub fn rank_top_n(correct: &Vec<u64>, top_n: usize) -> (r: Vec<usize>)
    ensures
        r@.len() == if top_n < correct@.len() {
            top_n as int
        } else {
            correct@.len() as int
        },
        forall|a: int| 0 <= a < r@.len() ==> #[trigger] r@[a] < correct@.len(),
        forall|a: int, b: int|
            0 <= a < b < r@.len() ==> ranks_before(correct@, #[trigger] r@[a] as int, #[trigger] r@[b] as int),
        forall|a: int, j: int|
            0 <= a < r@.len() && 0 <= j < correct@.len() && !r@.contains(j as usize) ==> #[trigger] ranks_before(
                correct@,
                r@[a] as int,
                j,
            ),
{
    let m = correct.len();
    let want = if top_n < m {
        top_n
    } else {
        m
    };
    let mut taken: Vec<bool> = Vec::new();
    while taken.len() < m
        invariant
            taken@.len() <= m,
            forall|j: int| 0 <= j < taken@.len() ==> !(#[trigger] taken@[j]),
        decreases m - taken@.len(),
    {
        taken.push(false);
    }
    let mut r: Vec<usize> = Vec::new();
    while r.len() < want
        invariant
            m == correct@.len(),
            want <= m,
            r@.len() <= want,
            taken@.len() == m,
            forall|j: int| 0 <= j < m ==> (#[trigger] taken@[j] <==> r@.contains(j as usize)),
            forall|a: int| 0 <= a < r@.len() ==> #[trigger] r@[a] < m,
            forall|a: int, b: int|
                0 <= a < b < r@.len() ==> ranks_before(correct@, #[trigger] r@[a] as int, #[trigger] r@[b] as int),
            forall|a: int, j: int|
                0 <= a < r@.len() && 0 <= j < m && !r@.contains(j as usize) ==> #[trigger] ranks_before(
                    correct@,
                    r@[a] as int,
                    j,
                ),
        decreases want - r@.len(),
    {
        let mut best: Option<usize> = None;
        let mut j: usize = 0;
        while j < m
            invariant
                m == correct@.len(),
                taken@.len() == m,
                j <= m,
                best matches Some(b) ==> b < j && !taken@[b as int] && forall|k: int|
                    0 <= k < j && !taken@[k] && k != b ==> ranks_before(correct@, b as int, k),
                best is None ==> forall|k: int| 0 <= k < j ==> #[trigger] taken@[k],
            decreases m - j,
        {
            if !taken[j] {
                best = match best {
                    None => Some(j),
                    Some(b) => if correct[j] > correct[b] {
                        Some(j)
                    } else {
                        Some(b)
                    },
                };
            }
            j = j + 1;
        }
        proof {
            if best is None {
                let ri = r@.map_values(|x: usize| x as int);
                assert forall|k: int| vstd::set_lib::set_int_range(0, m as int).contains(k) implies #[trigger] ri.to_set().contains(k) by {
                    assert(taken@[k]);
                    let a = choose|a: int| 0 <= a < r@.len() && r@[a] == k as usize;
                    assert(ri[a] == k);
                }
                ri.lemma_cardinality_of_set();
                vstd::set_lib::lemma_int_range(0, m as int);
                vstd::set_lib::lemma_len_subset(vstd::set_lib::set_int_range(0, m as int), ri.to_set());
            }
        }
        let b = best.unwrap();
        let ghost old_r = r@;
        taken.set(b, true);
        r.push(b);
        proof {
            assert forall|j: int| 0 <= j < m implies (#[trigger] taken@[j] <==> r@.contains(j as usize)) by {
                if j == b {
                    assert(r@[r@.len() - 1] == b);
                } else {
                    if r@.contains(j as usize) {
                        let a = choose|a: int| 0 <= a < r@.len() && r@[a] == j as usize;
                        assert(old_r[a] == j as usize);
                    }
                    if old_r.contains(j as usize) {
                        let a = choose|a: int| 0 <= a < old_r.len() && old_r[a] == j as usize;
                        assert(r@[a] == j as usize);
                    }
                }
            }
            assert forall|a: int, j: int|
                0 <= a < r@.len() && 0 <= j < m && !r@.contains(j as usize) implies #[trigger] ranks_before(
                    correct@,
                    r@[a] as int,
                    j,
                ) by {
                assert(r@[r@.len() - 1] == b);
                assert(j != b);
                if old_r.contains(j as usize) {
                    let k = choose|k: int| 0 <= k < old_r.len() && old_r[k] == j as usize;
                    assert(r@[k] == j as usize);
                }
                assert(!taken@[j]);
                if a < old_r.len() {
                    assert(r@[a] == old_r[a]);
                }
            }
        }
    }
    r
}

/// The coarse grid of the ranked search: tenths on seven components, every
/// combination whose tenths add up to ten (the sums within 0.05 of 1.0), in the
/// order of seven nested loops over the tenths.
pub fn generate_weight_combinations() -> (r: Vec<Vec<u64>>)
    ensures
        views(r@) == walk(first_point(10), false, usize::MAX as nat),
        is_enumeration(10, views(r@)),
{
    let mut g = WeightGenerator::new(10);
    let r = g.next_chunk(usize::MAX);
    proof {
        assert(power(11, 6) == 1771561) by {
            reveal_with_fuel(power, 7);
        }
        lemma_generator_enumerates(10, usize::MAX as nat);
    }
    r
}

} // verus!
