//! The simplex lattice: seven non-negative step counts adding up to a budget `n`.
//! A weight vector is such a point scaled by the step `1 / n`.

use vstd::prelude::*;

verus! {

/// Sum of the components of `p` from index `i` to the end.
pub open spec fn sum_from(p: Seq<u64>, i: int) -> int
    decreases p.len() - i,
{
    if 0 <= i < p.len() {
        p[i] as int + sum_from(p, i + 1)
    } else {
        0
    }
}

/// `p` is a lattice point for budget `n`: seven counts that add up to `n`.
pub open spec fn is_point(n: int, p: Seq<u64>) -> bool {
    p.len() == 7 && sum_from(p, 0) == n
}

/// `a` and `b` agree before index `i` and `a` is smaller at `i`.
pub open spec fn lex_at(a: Seq<u64>, b: Seq<u64>, i: int) -> bool {
    a.len() == b.len() && 0 <= i < a.len() && a[i] < b[i] && forall|k: int|
        0 <= k < i ==> a[k] == b[k]
}

/// Lexicographic order on sequences of equal length.
pub open spec fn lex_lt(a: Seq<u64>, b: Seq<u64>) -> bool {
    exists|i: int| lex_at(a, b, i)
}

/// The position that the odometer advances: the rightmost index at most `j`
/// with something left after it, or -1 when there is none.
pub open spec fn pivot(p: Seq<u64>, j: int) -> int
    decreases j + 1,
{
    if j < 0 {
        -1
    } else if sum_from(p, j + 1) > 0 {
        j
    } else {
        pivot(p, j - 1)
    }
}

/// The point after `p` in lexicographic order (meaningful when `pivot(p, 5) >= 0`):
/// the count at the pivot grows by one, the counts after it up to the sixth drop
/// to zero, and the seventh takes the remainder.
pub open spec fn succ(p: Seq<u64>) -> Seq<u64> {
    let j = pivot(p, 5);
    Seq::new(
        7,
        |k: int|
            if k < j {
                p[k]
            } else if k == j {
                (p[j] + 1) as u64
            } else if k < 6 {
                0u64
            } else {
                (sum_from(p, j + 1) - 1) as u64
            },
    )
}

/// The first point for budget `n`: all of it on the last component.
pub open spec fn first_point(n: u64) -> Seq<u64> {
    seq![0u64, 0u64, 0u64, 0u64, 0u64, 0u64, n]
}

/// One step of the cursor: the next point, or the same point and exhausted.
pub open spec fn advance(p: Seq<u64>) -> (Seq<u64>, bool) {
    if pivot(p, 5) < 0 {
        (p, true)
    } else {
        (succ(p), false)
    }
}

/// The points that a cursor at `p` (exhausted when `done`) emits when asked for `k`.
pub open spec fn walk(p: Seq<u64>, done: bool, k: nat) -> Seq<Seq<u64>>
    decreases k,
{
    if done || k == 0 {
        seq![]
    } else {
        seq![p] + walk(advance(p).0, advance(p).1, (k - 1) as nat)
    }
}

/// Where a cursor at `p` (exhausted when `done`) stands after being asked for `k`.
pub open spec fn walk_state(p: Seq<u64>, done: bool, k: nat) -> (Seq<u64>, bool)
    decreases k,
{
    if done || k == 0 {
        (p, done)
    } else {
        walk_state(advance(p).0, advance(p).1, (k - 1) as nat)
    }
}

/// Every two entries of `s` are in strictly increasing lexicographic order.
pub open spec fn strictly_sorted(s: Seq<Seq<u64>>) -> bool {
    forall|i: int, j: int| 0 <= i < j < s.len() ==> lex_lt(#[trigger] s[i], #[trigger] s[j])
}

/// The sums of a seven-count sequence, written out.
pub proof fn lemma_sum7(p: Seq<u64>)
    requires
        p.len() == 7,
    ensures
        sum_from(p, 7) == 0,
        sum_from(p, 6) == p[6] as int,
        sum_from(p, 5) == p[5] + p[6],
        sum_from(p, 4) == p[4] + p[5] + p[6],
        sum_from(p, 3) == p[3] + p[4] + p[5] + p[6],
        sum_from(p, 2) == p[2] + p[3] + p[4] + p[5] + p[6],
        sum_from(p, 1) == p[1] + p[2] + p[3] + p[4] + p[5] + p[6],
        sum_from(p, 0) == p[0] + p[1] + p[2] + p[3] + p[4] + p[5] + p[6],
{
    reveal_with_fuel(sum_from, 8);
}

/// The pivot is a position of the first six whose suffix is not empty, and
/// every later suffix is.
pub proof fn lemma_pivot(p: Seq<u64>)
    requires
        p.len() == 7,
    ensures
        -1 <= pivot(p, 5) <= 5,
        pivot(p, 5) >= 0 ==> sum_from(p, pivot(p, 5) + 1) > 0,
        forall|k: int| pivot(p, 5) < k <= 5 ==> #[trigger] sum_from(p, k + 1) == 0,
{
    reveal_with_fuel(pivot, 7);
    lemma_sum7(p);
}

/// The next point is again a point, and comes strictly after.
pub proof fn lemma_succ_is_next(n: int, p: Seq<u64>)
    requires
        n <= u64::MAX,
        is_point(n, p),
        pivot(p, 5) >= 0,
    ensures
        is_point(n, succ(p)),
        lex_at(p, succ(p), pivot(p, 5)),
        lex_lt(p, succ(p)),
{
    lemma_pivot(p);
    let j = pivot(p, 5);
    let q = succ(p);
    lemma_sum7(p);
    lemma_sum7(q);
    assert(q[0] == if 0 < j { p[0] } else if 0 == j { (p[0] + 1) as u64 } else { 0u64 });
    assert(q[1] == if 1 < j { p[1] } else if 1 == j { (p[1] + 1) as u64 } else { 0u64 });
    assert(q[2] == if 2 < j { p[2] } else if 2 == j { (p[2] + 1) as u64 } else { 0u64 });
    assert(q[3] == if 3 < j { p[3] } else if 3 == j { (p[3] + 1) as u64 } else { 0u64 });
    assert(q[4] == if 4 < j { p[4] } else if 4 == j { (p[4] + 1) as u64 } else { 0u64 });
    assert(q[5] == if 5 == j { (p[5] + 1) as u64 } else { 0u64 });
    assert(q[6] == (sum_from(p, j + 1) - 1) as u64);
    assert forall|k: int| 0 <= k < j implies q[k] == p[k] by {}
    assert(lex_at(p, q, j));
}

/// Two points of one budget that agree before `i` have equal sums from `i` on.
proof fn lemma_prefix_sum(n: int, p: Seq<u64>, q: Seq<u64>, i: int)
    requires
        is_point(n, p),
        is_point(n, q),
        0 <= i < 7,
        forall|k: int| 0 <= k < i ==> p[k] == q[k],
    ensures
        sum_from(p, i) == sum_from(q, i),
{
    lemma_sum7(p);
    lemma_sum7(q);
    if i > 0 {
        assert(p[0] == q[0]);
    }
    if i > 1 {
        assert(p[1] == q[1]);
    }
    if i > 2 {
        assert(p[2] == q[2]);
    }
    if i > 3 {
        assert(p[3] == q[3]);
    }
    if i > 4 {
        assert(p[4] == q[4]);
    }
    if i > 5 {
        assert(p[5] == q[5]);
    }
}

/// No point lies strictly between a point and the one after it: a point above
/// `p` is at or above `succ(p)`, and `p` has a successor.
pub proof fn lemma_succ_is_least_above(n: int, p: Seq<u64>, q: Seq<u64>)
    requires
        n <= u64::MAX,
        is_point(n, p),
        is_point(n, q),
        lex_lt(p, q),
    ensures
        pivot(p, 5) >= 0,
        succ(p) == q || lex_lt(succ(p), q),
{
    let i = choose|i: int| lex_at(p, q, i);
    lemma_sum7(p);
    lemma_sum7(q);
    lemma_pivot(p);
    if i == 6 {
        lemma_prefix_sum(n, p, q, 6);
        assert(false);
    }
    lemma_prefix_sum(n, p, q, i);
    assert(sum_from(p, i + 1) > 0);
    let j = pivot(p, 5);
    if j < i {
        assert(sum_from(p, i + 1) == 0);
    }
    lemma_succ_is_next(n, p);
    let r = succ(p);
    assert forall|k: int| 0 <= k < j implies r[k] == p[k] by {}
    if j > i {
        assert forall|k: int| 0 <= k < i implies r[k] == q[k] by {}
        assert(lex_at(r, q, i));
    } else {
        assert forall|k: int| 0 <= k < i implies r[k] == q[k] by {}
        if r[i] < q[i] {
            assert(lex_at(r, q, i));
        } else {
            assert(forall|k: int| i < k < 6 ==> r[k] == 0);
            assert(r[6] == sum_from(p, i + 1) - 1);
            assert(sum_from(q, i + 1) == sum_from(p, i + 1) - 1);
            lemma_sum7(r);
            if i < 5 && q[i + 1] > 0 {
                assert(lex_at(r, q, i + 1));
            } else if i < 4 && q[i + 2] > 0 {
                assert(lex_at(r, q, i + 2));
            } else if i < 3 && q[i + 3] > 0 {
                assert(lex_at(r, q, i + 3));
            } else if i < 2 && q[i + 4] > 0 {
                assert(lex_at(r, q, i + 4));
            } else if i < 1 && q[i + 5] > 0 {
                assert(lex_at(r, q, i + 5));
            } else {
                assert(r =~= q);
            }
        }
    }
}

/// Lexicographic order is transitive.
proof fn lemma_lex_trans(a: Seq<u64>, b: Seq<u64>, c: Seq<u64>)
    requires
        lex_lt(a, b),
        lex_lt(b, c),
    ensures
        lex_lt(a, c),
{
    let i = choose|i: int| lex_at(a, b, i);
    let j = choose|j: int| lex_at(b, c, j);
    if i <= j {
        assert(lex_at(a, c, i));
    } else {
        assert(lex_at(a, c, j));
    }
}

/// Lexicographic order is strict and asymmetric.
pub proof fn lemma_lex_irrefl(a: Seq<u64>, b: Seq<u64>)
    requires
        lex_lt(a, b),
    ensures
        a != b,
        !lex_lt(b, a),
{
    let i = choose|i: int| lex_at(a, b, i);
    if lex_lt(b, a) {
        let j = choose|j: int| lex_at(b, a, j);
        if i < j {
        } else if j < i {
        }
    }
}

/// The first point comes before every other point of the same budget.
pub proof fn lemma_first_point_is_least(n: u64, q: Seq<u64>)
    requires
        is_point(n as int, q),
    ensures
        is_point(n as int, first_point(n)),
        q == first_point(n) || lex_lt(first_point(n), q),
{
    let f = first_point(n);
    lemma_sum7(f);
    lemma_sum7(q);
    if q[0] > 0 {
        assert(lex_at(f, q, 0));
    } else if q[1] > 0 {
        assert(lex_at(f, q, 1));
    } else if q[2] > 0 {
        assert(lex_at(f, q, 2));
    } else if q[3] > 0 {
        assert(lex_at(f, q, 3));
    } else if q[4] > 0 {
        assert(lex_at(f, q, 4));
    } else if q[5] > 0 {
        assert(lex_at(f, q, 5));
    } else {
        assert(q =~= f);
    }
}

/// A walk from a point emits points at or above it, in strictly increasing order.
pub proof fn lemma_walk_sorted(n: int, p: Seq<u64>, k: nat)
    requires
        n <= u64::MAX,
        is_point(n, p),
    ensures
        strictly_sorted(walk(p, false, k)),
        forall|i: int|
            0 <= i < walk(p, false, k).len() ==> is_point(n, #[trigger] walk(p, false, k)[i])
                && (walk(p, false, k)[i] == p || lex_lt(p, walk(p, false, k)[i])),
    decreases k,
{
    if k > 0 {
        let w = walk(p, false, k);
        let (p2, d2) = advance(p);
        let rest = walk(p2, d2, (k - 1) as nat);
        assert(w == seq![p] + rest);
        if !d2 {
            lemma_succ_is_next(n, p);
            lemma_walk_sorted(n, p2, (k - 1) as nat);
            assert forall|i: int| 0 <= i < rest.len() implies lex_lt(p, #[trigger] rest[i]) by {
                if rest[i] != p2 {
                    lemma_lex_trans(p, p2, rest[i]);
                }
            }
        }
        assert forall|i: int, j: int| 0 <= i < j < w.len() implies lex_lt(
            #[trigger] w[i],
            #[trigger] w[j],
        ) by {
            if i == 0 {
                assert(w[j] == rest[j - 1]);
            } else {
                assert(w[i] == rest[i - 1]);
                assert(w[j] == rest[j - 1]);
            }
        }
    }
}

/// A walk that ends exhausted has emitted every point at or above where it began.
pub proof fn lemma_walk_complete(n: int, p: Seq<u64>, k: nat, q: Seq<u64>)
    requires
        n <= u64::MAX,
        is_point(n, p),
        is_point(n, q),
        q == p || lex_lt(p, q),
        walk_state(p, false, k).1,
    ensures
        walk(p, false, k).contains(q),
    decreases k,
{
    let w = walk(p, false, k);
    if k == 0 {
    } else if q == p {
        assert(w[0] == p);
    } else {
        lemma_succ_is_least_above(n, p, q);
        lemma_succ_is_next(n, p);
        let rest = walk(succ(p), false, (k - 1) as nat);
        assert(w == seq![p] + rest);
        lemma_walk_complete(n, succ(p), (k - 1) as nat, q);
        let i = choose|i: int| 0 <= i < rest.len() && rest[i] == q;
        assert(w[i + 1] == q);
    }
}

/// Asking a cursor for `a` and then for `b` emits what asking once for `a + b`
/// emits, and leaves the cursor in the same place.
pub proof fn lemma_walk_resumes(p: Seq<u64>, done: bool, a: nat, b: nat)
    ensures
        walk(p, done, a + b) == walk(p, done, a) + walk(
            walk_state(p, done, a).0,
            walk_state(p, done, a).1,
            b,
        ),
        walk_state(p, done, a + b) == walk_state(
            walk_state(p, done, a).0,
            walk_state(p, done, a).1,
            b,
        ),
    decreases a,
{
    if done {
        assert(walk(p, done, a + b) =~= walk(p, done, a) + walk(p, done, b));
    } else if a == 0 {
        assert(walk(p, done, a + b) =~= walk(p, done, a) + walk(p, done, b));
    } else {
        let (p2, d2) = advance(p);
        lemma_walk_resumes(p2, d2, (a - 1) as nat, b);
        assert((a + b - 1) as nat == (a - 1) as nat + b);
        assert(walk(p, done, a + b) =~= walk(p, done, a) + walk(
            walk_state(p, done, a).0,
            walk_state(p, done, a).1,
            b,
        ));
    }
}

/// `q` starts with `pre`.
pub open spec fn has_prefix(q: Seq<u64>, pre: Seq<u64>) -> bool {
    pre.len() <= q.len() && forall|k: int| 0 <= k < pre.len() ==> q[k] == pre[k]
}

/// The sum of a sequence splits at any index into its head and its tail.
pub proof fn lemma_sum_split(q: Seq<u64>, m: int, i: int)
    requires
        0 <= i <= m <= q.len(),
    ensures
        sum_from(q, i) == sum_from(q.subrange(0, m), i) + sum_from(q, m),
    decreases m - i,
{
    if i < m {
        lemma_sum_split(q, m, i + 1);
    }
}

/// Appending a count adds it to the sum.
pub proof fn lemma_sum_push(s: Seq<u64>, x: u64)
    ensures
        sum_from(s.push(x), 0) == sum_from(s, 0) + x,
{
    let t = s.push(x);
    lemma_sum_split(t, s.len() as int, 0);
    assert(t.subrange(0, s.len() as int) =~= s);
    assert(sum_from(t, s.len() as int) == x) by {
        reveal_with_fuel(sum_from, 2);
    }
}

/// `b` raised to the power `e`.
pub open spec fn power(b: int, e: nat) -> int
    decreases e,
{
    if e == 0 {
        1
    } else {
        b * power(b, (e - 1) as nat)
    }
}

/// The first `j` counts of `p` read as the digits of a number in base `b`,
/// the first count most significant.
pub open spec fn digits_value(p: Seq<u64>, b: int, j: int) -> int
    decreases j,
{
    if j <= 0 {
        0
    } else {
        digits_value(p, b, j - 1) * b + p[j - 1]
    }
}

proof fn lemma_digits_prefix(a: Seq<u64>, c: Seq<u64>, b: int, j: int)
    requires
        0 <= j <= a.len(),
        j <= c.len(),
        forall|k: int| 0 <= k < j ==> a[k] == c[k],
    ensures
        digits_value(a, b, j) == digits_value(c, b, j),
    decreases j,
{
    if j > 0 {
        lemma_digits_prefix(a, c, b, j - 1);
    }
}

/// Counts below the base are digits: a lexicographically smaller sequence has
/// a smaller value from the first difference on.
proof fn lemma_digits_monotone(a: Seq<u64>, c: Seq<u64>, b: int, i: int, m: int)
    requires
        lex_at(a, c, i),
        i < m <= a.len(),
        b > 0,
        forall|k: int| 0 <= k < a.len() ==> #[trigger] a[k] < b,
    ensures
        digits_value(a, b, m) < digits_value(c, b, m),
    decreases m,
{
    if m == i + 1 {
        lemma_digits_prefix(a, c, b, i);
        let x = digits_value(a, b, i);
        assert(x * b + a[i] < x * b + c[i]);
    } else {
        lemma_digits_monotone(a, c, b, i, m - 1);
        let x = digits_value(a, b, m - 1);
        let y = digits_value(c, b, m - 1);
        assert(a[m - 1] < b);
        assert(x * b + a[m - 1] < y * b + c[m - 1]) by (nonlinear_arith)
            requires
                x < y,
                b > 0,
                0 <= a[m - 1] < b,
                c[m - 1] >= 0,
        ;
    }
}

/// Digits below the base make a value below the base's power.
proof fn lemma_digits_bound(p: Seq<u64>, b: int, j: int)
    requires
        0 <= j <= p.len(),
        b > 0,
        forall|k: int| 0 <= k < p.len() ==> #[trigger] p[k] < b,
    ensures
        0 <= digits_value(p, b, j) < power(b, j as nat),
    decreases j,
{
    if j > 0 {
        lemma_digits_bound(p, b, j - 1);
        let x = digits_value(p, b, j - 1);
        let q = power(b, (j - 1) as nat);
        assert(p[j - 1] < b);
        assert(0 <= x * b + p[j - 1] < b * q) by (nonlinear_arith)
            requires
                0 <= x < q,
                b > 0,
                0 <= p[j - 1] < b,
        ;
    }
}

/// A count of a point is at most the budget.
proof fn lemma_counts_within_budget(n: int, p: Seq<u64>)
    requires
        is_point(n, p),
    ensures
        forall|k: int| 0 <= k < 7 ==> #[trigger] p[k] < n + 1,
{
    lemma_sum7(p);
}

/// A cursor at point `p` asked for at least as many points as remain below the
/// bound `(n + 1)^6` on the value of its first six counts ends exhausted.
pub proof fn lemma_walk_exhausts(n: u64, p: Seq<u64>, k: nat)
    requires
        is_point(n as int, p),
        k + digits_value(p, n + 1, 6) >= power(n + 1, 6),
    ensures
        walk_state(p, false, k).1,
    decreases k,
{
    lemma_counts_within_budget(n as int, p);
    lemma_digits_bound(p, n + 1, 6);
    if pivot(p, 5) >= 0 {
        let q = succ(p);
        lemma_succ_is_next(n as int, p);
        lemma_pivot(p);
        lemma_counts_within_budget(n as int, q);
        lemma_digits_monotone(p, q, n + 1, pivot(p, 5), 6);
        lemma_walk_exhausts(n, q, (k - 1) as nat);
    } else {
        assert(walk_state(p, true, (k - 1) as nat) == (p, true));
    }
}

/// The first point's counts read as digits are zero.
pub proof fn lemma_first_point_value(n: u64)
    ensures
        digits_value(first_point(n), n + 1, 6) == 0,
{
    reveal_with_fuel(digits_value, 7);
}

} // verus!
