//! The bulk producer: every point of the lattice at once, one slice per value of
//! the first count, the slices built in parallel and gathered through a channel.

use vstd::prelude::*;
use rayon::prelude::{IntoParallelIterator, ParallelIterator};
use crate::generator::views;
use crate::lattice::{
    first_point, lemma_first_point_is_least, lemma_lex_irrefl, lemma_walk_complete,
    lemma_walk_sorted, walk, walk_state, has_prefix, lemma_first_point_value, lemma_walk_exhausts,
    power, is_point, lemma_sum7, lemma_sum_push, lemma_sum_split, lex_at, lex_lt,
    strictly_sorted, sum_from,
};

verus! {

/// `s` holds, in strictly increasing order, exactly the points of budget `n`
/// whose first count is `w0`.
pub open spec fn is_slice(n: int, w0: u64, s: Seq<Seq<u64>>) -> bool {
    &&& strictly_sorted(s)
    &&& forall|i: int| 0 <= i < s.len() ==> is_point(n, #[trigger] s[i]) && s[i][0] == w0
    &&& forall|q: Seq<u64>| is_point(n, q) && q[0] == w0 ==> #[trigger] s.contains(q)
}

/// `s` is the slice of some first count of budget `n`.
pub open spec fn is_some_slice(n: int, s: Seq<Seq<u64>>) -> bool {
    exists|w0: u64| w0 <= n && is_slice(n, w0, s)
}

/// One of the batches in `r` is the slice of first count `w0`.
pub open spec fn slice_present(n: int, r: Seq<Vec<Vec<u64>>>, w0: u64) -> bool {
    exists|i: int| 0 <= i < r.len() && is_slice(n, w0, views(r[i]@))
}

/// `s` holds every point of budget `n` exactly once, in some order.
pub open spec fn is_enumeration(n: int, s: Seq<Seq<u64>>) -> bool {
    &&& s.no_duplicates()
    &&& forall|i: int| 0 <= i < s.len() ==> is_point(n, #[trigger] s[i])
    &&& forall|q: Seq<u64>| is_point(n, q) ==> #[trigger] s.contains(q)
}

/// The new entries of `out` since it had `from` entries.
pub open spec fn added(out: Seq<Vec<u64>>, from: int) -> Seq<Seq<u64>> {
    views(out).subrange(from, out.len() as int)
}

/// Appends to `out`, in increasing order, every point of budget `n` that starts
/// with `prefix`, trying each value of the next count in turn.
fn fill(n: u64, prefix: &mut Vec<u64>, m: usize, psum: u64, out: &mut Vec<Vec<u64>>)
    requires
        m == old(prefix)@.len(),
        1 <= old(prefix)@.len() <= 6,
        sum_from(old(prefix)@, 0) == psum,
        psum <= n,
    ensures
        final(prefix)@ == old(prefix)@,
        final(out)@.len() >= old(out)@.len(),
        views(final(out)@).subrange(0, old(out)@.len() as int) == views(old(out)@),
        strictly_sorted(added(final(out)@, old(out)@.len() as int)),
        forall|i: int|
            0 <= i < added(final(out)@, old(out)@.len() as int).len() ==> {
                let q = #[trigger] added(final(out)@, old(out)@.len() as int)[i];
                is_point(n as int, q) && has_prefix(q, old(prefix)@)
            },
        forall|q: Seq<u64>|
            is_point(n as int, q) && has_prefix(q, old(prefix)@) ==> #[trigger] added(
                final(out)@,
                old(out)@.len() as int,
            ).contains(q),
    decreases 6 - m,
{
    let ghost pre = prefix@;
    let ghost base = views(out@);
    let ghost b = out@.len() as int;
    if m == 6 {
        let mut v = prefix.clone();
        proof {
            assert(v@ =~= pre);
        }
        v.push(n - psum);
        proof {
            lemma_sum_push(pre, (n - psum) as u64);
            assert forall|q: Seq<u64>| is_point(n as int, q) && has_prefix(q, pre) implies q
                == v@ by {
                lemma_sum_split(q, 6, 0);
                assert(q.subrange(0, 6) =~= pre);
                lemma_sum7(q);
                assert(q =~= v@);
            }
        }
        out.push(v);
        proof {
            assert(views(out@) =~= base.push(v@));
            assert(added(out@, b) =~= seq![v@]);
            assert(added(out@, b)[0] == v@);
        }
        return;
    }
    let lim = n - psum;
    let mut x: u64 = 0;
    loop
        invariant
            prefix@ == pre,
            pre == old(prefix)@,
            b == old(out)@.len(),
            base == views(old(out)@),
            m == pre.len(),
            1 <= m < 6,
            sum_from(pre, 0) == psum,
            psum <= n,
            lim == n - psum,
            x <= lim,
            0 <= b <= out@.len(),
            views(out@).subrange(0, b) == base,
            strictly_sorted(added(out@, b)),
            forall|i: int|
                0 <= i < added(out@, b).len() ==> {
                    let q = #[trigger] added(out@, b)[i];
                    is_point(n as int, q) && has_prefix(q, pre) && q[m as int] < x
                },
            forall|q: Seq<u64>|
                is_point(n as int, q) && has_prefix(q, pre) && q[m as int] < x
                    ==> #[trigger] added(out@, b).contains(q),
        decreases lim - x,
    {
        let ghost before = added(out@, b);
        assert(forall|q: Seq<u64>|
            is_point(n as int, q) && has_prefix(q, pre) && q[m as int] < x ==> #[trigger] before.contains(q));
        let ghost mid = out@.len() as int;
        let ghost prior = views(out@);
        prefix.push(x);
        proof {
            lemma_sum_push(pre, x);
            assert(prefix@.len() == m + 1);
            assert(6 - prefix@.len() < 6 - pre.len());
        }
        fill(n, prefix, m + 1, psum + x, out);
        prefix.pop();
        proof {
            assert(prefix@ =~= pre);
            let ext = pre.push(x);
            let now = added(out@, b);
            let blk = added(out@, mid);
            let vs = views(out@);
            assert(vs.subrange(0, mid) == prior);
            assert(vs.len() >= mid);
            assert forall|i: int| 0 <= i < mid implies prior[i] == vs[i] by {
                assert(vs.subrange(0, mid)[i] == vs[i]);
            }
            assert(vs.subrange(0, b) =~= prior.subrange(0, b));
            assert(before =~= prior.subrange(b, mid));
            assert(now =~= before + blk);
            assert forall|i: int| 0 <= i < blk.len() implies has_prefix(#[trigger] blk[i], pre)
                && blk[i][m as int] == x by {
                assert(has_prefix(blk[i], ext));
                assert(ext[m as int] == x);
            }
            assert forall|i: int, j: int| 0 <= i < j < now.len() implies lex_lt(
                #[trigger] now[i],
                #[trigger] now[j],
            ) by {
                if j >= before.len() && i < before.len() {
                    assert(now[i] == before[i]);
                    assert(now[j] == blk[j - before.len()]);
                    assert(lex_at(now[i], now[j], m as int));
                } else if i >= before.len() {
                    assert(now[i] == blk[i - before.len()]);
                    assert(now[j] == blk[j - before.len()]);
                } else {
                    assert(now[i] == before[i]);
                    assert(now[j] == before[j]);
                }
            }
            assert forall|i: int| 0 <= i < now.len() implies {
                let q = #[trigger] now[i];
                is_point(n as int, q) && has_prefix(q, pre) && q[m as int] < x + 1
            } by {
                if i < before.len() {
                    assert(now[i] == before[i]);
                } else {
                    assert(now[i] == blk[i - before.len()]);
                }
            }
            assert forall|q: Seq<u64>|
                is_point(n as int, q) && has_prefix(q, pre) && q[m as int] < x + 1 implies #[trigger] now.contains(
                q,
            ) by {
                if q[m as int] < x {
                    assert(before.contains(q));
                    let i = choose|i: int| 0 <= i < before.len() && before[i] == q;
                    assert(now[i] == q);
                } else {
                    assert(has_prefix(q, ext));
                    assert(blk.contains(q));
                    let i = choose|i: int| 0 <= i < blk.len() && blk[i] == q;
                    assert(now[i + before.len()] == q);
                }
            }
        }
        if x == lim {
            proof {
                assert forall|q: Seq<u64>| is_point(n as int, q) && has_prefix(q, pre) implies q[m
                    as int] < x + 1 by {
                    lemma_sum_split(q, m as int, 0);
                    assert(q.subrange(0, m as int) =~= pre);
                    lemma_sum7(q);
                    assert(sum_from(q, m as int) >= q[m as int]) by {
                        lemma_sum_split(q, m as int + 1, m as int);
                        reveal_with_fuel(sum_from, 2);
                        assert(q.subrange(0, m as int + 1).subrange(m as int, m as int + 1) =~= seq![q[m as int]]);
                    }
                }
            }
            return;
        }
        x = x + 1;
    }
}

/// Every point of budget `n` whose first count is `w0`, in increasing order.
pub fn lattice_slice(n: u64, w0: u64) -> (r: Vec<Vec<u64>>)
    requires
        w0 <= n,
    ensures
        is_slice(n as int, w0, views(r@)),
{
    let mut prefix: Vec<u64> = vec![w0];
    let mut out: Vec<Vec<u64>> = Vec::new();
    proof {
        assert(sum_from(prefix@, 0) == w0) by {
            reveal_with_fuel(sum_from, 2);
        }
    }
    fill(n, &mut prefix, 1, w0, &mut out);
    proof {
        let s = views(out@);
        assert(added(out@, 0) =~= s);
        assert forall|q: Seq<u64>| is_point(n as int, q) && q[0] == w0 implies #[trigger] s.contains(
            q,
        ) by {
            assert(has_prefix(q, seq![w0]));
        }
        assert forall|i: int| 0 <= i < s.len() implies is_point(n as int, #[trigger] s[i]) && s[i][0]
            == w0 by {
            assert(has_prefix(s[i], seq![w0]));
        }
    }
    out
}

/// Builds the slice of every first count from 0 to `n` on rayon's thread pool
/// (`into_par_iter` over `0..=n`, `for_each_with`, which runs the closure once for
/// each value) and gathers them through a crossbeam unbounded channel, in the
/// order in which they arrive.
#[verifier::external_body]
fn par_slices(n: u64) -> (r: Vec<Vec<Vec<u64>>>)
    requires
        n < u64::MAX,
    ensures
        r@.len() == n + 1,
        forall|i: int|
            0 <= i < r@.len() ==> is_some_slice(n as int, #[trigger] views(r@[i]@)),
        forall|w0: u64|
            w0 <= n ==> #[trigger] slice_present(n as int, r@, w0),
        forall|i: int, j: int, w0: u64|
            #![trigger is_slice(n as int, w0, views(r@[i]@)), views(r@[j]@)]
            0 <= i < r@.len() && 0 <= j < r@.len() && i != j && is_slice(n as int, w0, views(r@[i]@))
                ==> !is_slice(n as int, w0, views(r@[j]@)),
{
    let (sender, receiver) = crossbeam::channel::unbounded();
    (0..=n).into_par_iter().for_each_with(sender, |s, w0| s.send(lattice_slice(n, w0)).unwrap());
    receiver.iter().collect()
}

/// Every point of budget `n` exactly once, gathered from slices built in
/// parallel; the order is whatever the slices arrived in.
pub fn generate_weight_permutations(n: u64) -> (r: Vec<Vec<u64>>)
    requires
        n < u64::MAX,
    ensures
        is_enumeration(n as int, views(r@)),
{
    let mut slices = par_slices(n);
    let ghost all = slices@;
    let mut out: Vec<Vec<u64>> = Vec::new();
    while slices.len() > 0
        invariant
            all.len() == n + 1,
            slices@.len() <= all.len(),
            slices@ == all.subrange(0, slices@.len() as int),
            forall|i: int|
                0 <= i < all.len() ==> is_some_slice(n as int, #[trigger] views(all[i]@)),
            forall|w0: u64|
                w0 <= n ==> #[trigger] slice_present(n as int, all, w0),
            forall|i: int, j: int, w0: u64|
                #![trigger is_slice(n as int, w0, views(all[i]@)), views(all[j]@)]
                0 <= i < all.len() && 0 <= j < all.len() && i != j && is_slice(n as int, w0, views(all[i]@))
                    ==> !is_slice(n as int, w0, views(all[j]@)),
            views(out@).no_duplicates(),
            forall|a: int|
                0 <= a < out@.len() ==> is_point(n as int, #[trigger] views(out@)[a]) && exists|j: int|
                    slices@.len() <= j < all.len() && is_slice(n as int, views(out@)[a][0], views(all[j]@)),
            forall|q: Seq<u64>, j: int|
                is_point(n as int, q) && slices@.len() <= j < all.len() && is_slice(n as int, q[0], #[trigger] views(all[j]@))
                    ==> #[trigger] views(out@).contains(q),
        decreases slices@.len(),
    {
        let k = slices.len() - 1;
        let ghost old_out = views(out@);
        assert(slices@[k as int] == all[k as int]);
        let mut s = slices.pop().unwrap();
        let ghost blk = views(s@);
        assert(is_some_slice(n as int, views(all[k as int]@)));
        let ghost w = choose|w0: u64| w0 <= n && is_slice(n as int, w0, views(all[k as int]@));
        assert(s@ == all[k as int]@);
        out.append(&mut s);
        proof {
            let now = views(out@);
            assert(now =~= old_out + blk);
            assert forall|a: int, c: int| 0 <= a < old_out.len() && 0 <= c < blk.len() implies old_out[a] != blk[c] by {
                let j = choose|j: int|
                    k < j < all.len() && is_slice(n as int, old_out[a][0], views(all[j]@));
                if old_out[a] == blk[c] {
                    assert(blk[c][0] == w);
                }
            }
            assert(blk.no_duplicates()) by {
                assert forall|a: int, c: int| 0 <= a < blk.len() && 0 <= c < blk.len() && a != c implies blk[a] != blk[c] by {
                    if a < c {
                        crate::lattice::lemma_lex_irrefl(blk[a], blk[c]);
                    } else {
                        crate::lattice::lemma_lex_irrefl(blk[c], blk[a]);
                    }
                }
            }
            vstd::seq_lib::lemma_no_dup_in_concat(old_out, blk);
            assert forall|a: int| 0 <= a < now.len() implies is_point(n as int, #[trigger] now[a]) && exists|j: int|
                k <= j < all.len() && is_slice(n as int, now[a][0], views(all[j]@)) by {
                if a < old_out.len() {
                    assert(now[a] == old_out[a]);
                } else {
                    assert(now[a] == blk[a - old_out.len()]);
                    assert(is_slice(n as int, now[a][0], views(all[k as int]@)));
                }
            }
            assert forall|q: Seq<u64>, j: int|
                is_point(n as int, q) && k <= j < all.len() && is_slice(n as int, q[0], #[trigger] views(all[j]@))
                    implies #[trigger] now.contains(q) by {
                if j > k {
                    assert(old_out.contains(q));
                    let a = choose|a: int| 0 <= a < old_out.len() && old_out[a] == q;
                    assert(now[a] == q);
                } else {
                    assert(blk.contains(q));
                    let c = choose|c: int| 0 <= c < blk.len() && blk[c] == q;
                    assert(now[c + old_out.len()] == q);
                }
            }
        }
    }
    proof {
        let now = views(out@);
        assert forall|q: Seq<u64>| is_point(n as int, q) implies #[trigger] now.contains(q) by {
            crate::lattice::lemma_sum7(q);
            assert(slice_present(n as int, all, q[0]));
            let j = choose|j: int| 0 <= j < all.len() && is_slice(n as int, q[0], views(all[j]@));
        }
    }
    out
}

/// Two enumerations of the same budget hold the same points the same number of times.
pub proof fn lemma_enumerations_agree(n: int, a: Seq<Seq<u64>>, b: Seq<Seq<u64>>)
    requires
        is_enumeration(n, a),
        is_enumeration(n, b),
    ensures
        a.to_multiset() =~= b.to_multiset(),
{
    broadcast use vstd::seq_lib::group_to_multiset_ensures;

    a.lemma_multiset_has_no_duplicates();
    b.lemma_multiset_has_no_duplicates();
    assert forall|x: Seq<u64>| a.to_multiset().count(x) == b.to_multiset().count(x) by {
        if a.contains(x) {
            let i = choose|i: int| 0 <= i < a.len() && a[i] == x;
            assert(is_point(n, a[i]));
            assert(b.contains(x));
        } else if b.contains(x) {
            let i = choose|i: int| 0 <= i < b.len() && b[i] == x;
            assert(is_point(n, b[i]));
            assert(a.contains(x));
        }
    }
}

/// A resumable cursor for budget `n`, asked from its first point for at least
/// `(n + 1)^6` points, is exhausted and has handed out every point exactly once:
/// the same points, as a multiset, as the bulk producer.
pub proof fn lemma_bulk_matches_generator(n: u64, bulk: Seq<Seq<u64>>, k: nat)
    requires
        is_enumeration(n as int, bulk),
        k >= power(n + 1, 6),
    ensures
        walk_state(first_point(n), false, k).1,
        is_enumeration(n as int, walk(first_point(n), false, k)),
        bulk.to_multiset() =~= walk(first_point(n), false, k).to_multiset(),
{
    lemma_generator_enumerates(n, k);
    lemma_enumerations_agree(n as int, bulk, walk(first_point(n), false, k));
}

/// A cursor asked from its first point for at least `(n + 1)^6` points hands
/// out every point of budget `n` exactly once and is then exhausted.
pub proof fn lemma_generator_enumerates(n: u64, k: nat)
    requires
        k >= power(n + 1, 6),
    ensures
        walk_state(first_point(n), false, k).1,
        is_enumeration(n as int, walk(first_point(n), false, k)),
{
    let p = first_point(n);
    let w = walk(p, false, k);
    lemma_sum7(p);
    lemma_first_point_value(n);
    lemma_walk_exhausts(n, p, k);
    lemma_walk_sorted(n as int, p, k);
    assert forall|i: int, j: int| 0 <= i < w.len() && 0 <= j < w.len() && i != j implies w[i] != w[j] by {
        if i < j {
            lemma_lex_irrefl(w[i], w[j]);
        } else {
            lemma_lex_irrefl(w[j], w[i]);
        }
    }
    assert forall|q: Seq<u64>| is_point(n as int, q) implies #[trigger] w.contains(q) by {
        lemma_first_point_is_least(n, q);
        lemma_walk_complete(n as int, p, k, q);
    }
}

} // verus!
