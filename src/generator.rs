//! The resumable cursor over the lattice: an odometer of seven counters that
//! hands out the points in lexicographic order, a bounded batch at a time.

use vstd::prelude::*;
use crate::lattice::{
    advance, first_point, lemma_walk_sorted, is_point, lemma_pivot, lemma_succ_is_next, lemma_sum7, pivot, succ,
    sum_from, walk, walk_state,
};

verus! {

/// The points held by a batch of vectors.
pub open spec fn views(r: Seq<Vec<u64>>) -> Seq<Seq<u64>> {
    Seq::new(r.len(), |i: int| r[i]@)
}

/// A cursor over the points of budget `n`. It holds the next point to hand out
/// (the seventh counter is the remainder) and whether the lattice is exhausted.
pub struct WeightGenerator {
    n: u64,
    cur: Vec<u64>,
    done: bool,
}

/// Positions whose suffix is empty are passed over by the pivot.
proof fn lemma_pivot_skip(p: Seq<u64>, j: int)
    requires
        p.len() == 7,
        0 <= j <= 5,
        forall|k: int| j < k <= 5 ==> #[trigger] sum_from(p, k + 1) == 0,
    ensures
        pivot(p, 5) == pivot(p, j),
    decreases 5 - j,
{
    if j < 5 {
        lemma_pivot_skip(p, j + 1);
        assert(sum_from(p, j + 2) == 0);
    }
}

impl WeightGenerator {
    /// The budget: every point's counts add up to it.
    pub closed spec fn budget(self) -> u64 {
        self.n
    }

    /// The next point to hand out.
    pub closed spec fn position(self) -> Seq<u64> {
        self.cur@
    }

    /// Whether every point has been handed out.
    pub closed spec fn exhausted(self) -> bool {
        self.done
    }

    /// The position is a point of the budget.
    pub closed spec fn wf(self) -> bool {
        is_point(self.n as int, self.cur@)
    }

    /// A cursor at the first point of budget `n` (step `1 / n`).
    pub fn new(n: u64) -> (g: Self)
        ensures
            g.wf(),
            g.budget() == n,
            g.position() == first_point(n),
            !g.exhausted(),
    {
        let g = WeightGenerator { n, cur: vec![0u64, 0u64, 0u64, 0u64, 0u64, 0u64, n], done: false };
        proof {
            assert(g.cur@ =~= first_point(n));
            lemma_sum7(g.cur@);
        }
        g
    }

    /// Moves the odometer one place: the innermost counter that can grow grows,
    /// the ones inside it restart at zero and the last takes the remainder.
    fn step(&mut self)
        requires
            old(self).wf(),
            !old(self).exhausted(),
        ensures
            final(self).wf(),
            final(self).budget() == old(self).budget(),
            (final(self).position(), final(self).exhausted()) == advance(old(self).position()),
    {
        let ghost p = self.cur@;
        proof {
            lemma_sum7(p);
            lemma_pivot(p);
        }
        let mut j: usize = 5;
        let mut t: u64 = self.cur[6];
        loop
            invariant
                self.cur@ == p,
                p == old(self).cur@,
                self.n == old(self).n,
                !self.done,
                is_point(self.n as int, p),
                0 <= j <= 5,
                t == sum_from(p, j + 1),
                forall|k: int| j < k <= 5 ==> #[trigger] sum_from(p, k + 1) == 0,
            decreases j,
        {
            if t > 0 {
                proof {
                    lemma_pivot_skip(p, j as int);
                    lemma_succ_is_next(self.n as int, p);
                }
                let c = self.cur[j];
                self.cur.set(j, c + 1);
                let mut k: usize = j + 1;
                while k < 6
                    invariant
                        j < k <= 6,
                        self.n == old(self).n,
                        !self.done,
                        p.len() == 7,
                        self.cur@.len() == 7,
                        forall|m: int| 0 <= m < j ==> self.cur@[m] == p[m],
                        self.cur@[j as int] == p[j as int] + 1,
                        forall|m: int| j < m < k ==> self.cur@[m] == 0,
                    decreases 6 - k,
                {
                    self.cur.set(k, 0);
                    k = k + 1;
                }
                self.cur.set(6, t - 1);
                proof {
                    assert(self.cur@ =~= succ(p));
                    assert(advance(p) == (succ(p), false));
                }
                return;
            }
            if j == 0 {
                proof {
                    lemma_pivot_skip(p, 0);
                    assert(pivot(p, 0) == -1) by {
                        reveal_with_fuel(pivot, 2);
                    }
                    assert(advance(p) == (p, true));
                }
                self.done = true;
                return;
            }
            t = t + self.cur[j];
            j = j - 1;
        }
    }

    /// Hands out up to `max_count` further points, in lexicographic order,
    /// stopping early only when the lattice is exhausted.
    pub fn next_chunk(&mut self, max_count: usize) -> (r: Vec<Vec<u64>>)
        requires
            old(self).wf(),
        ensures
            final(self).wf(),
            final(self).budget() == old(self).budget(),
            views(r@) == walk(old(self).position(), old(self).exhausted(), max_count as nat),
            (final(self).position(), final(self).exhausted()) == walk_state(
                old(self).position(),
                old(self).exhausted(),
                max_count as nat,
            ),
            forall|i: int|
                0 <= i < r@.len() ==> is_point(old(self).budget() as int, #[trigger] views(r@)[i]),
    {
        proof {
            lemma_walk_sorted(self.n as int, self.cur@, max_count as nat);
        }
        let ghost p0 = self.cur@;
        let ghost d0 = self.done;
        let mut out: Vec<Vec<u64>> = Vec::new();
        let mut i: usize = 0;
        while i < max_count && !self.done
            invariant
                self.wf(),
                self.n == old(self).n,
                0 <= i <= max_count,
                walk(p0, d0, max_count as nat) == views(out@) + walk(
                    self.cur@,
                    self.done,
                    (max_count - i) as nat,
                ),
                walk_state(p0, d0, max_count as nat) == walk_state(
                    self.cur@,
                    self.done,
                    (max_count - i) as nat,
                ),
            decreases max_count - i,
        {
            let ghost before = views(out@);
            let v = self.cur.clone();
            proof {
                assert(v@ =~= self.cur@);
            }
            out.push(v);
            proof {
                assert(views(out@) =~= before + seq![self.cur@]);
                assert(walk(self.cur@, false, (max_count - i) as nat) == seq![self.cur@] + walk(
                    advance(self.cur@).0,
                    advance(self.cur@).1,
                    (max_count - i - 1) as nat,
                ));
            }
            self.step();
            i = i + 1;
            proof {
                assert(walk(p0, d0, max_count as nat) =~= views(out@) + walk(
                    self.cur@,
                    self.done,
                    (max_count - i) as nat,
                ));
            }
        }
        proof {
            assert(walk(self.cur@, self.done, (max_count - i) as nat) =~= seq![]);
        }
        out
    }
}

} // verus!
