//! The grouped evaluator: players come sorted by date; in each run of one date
//! the best-scored player of each of the three pick categories is selected, and
//! a selection is correct when that player scored.

use vstd::prelude::*;

verus! {

/// What the evaluator reads of a player: the pick category (1 to 3; anything
/// else, or none, is not a pick), whether the player scored, and the date that
/// groups players, as a number.
#[derive(Clone, Copy, Debug, PartialEq, Eq, Structural)]
pub struct PlayerOutcome {
    pub tims: Option<i32>,
    pub scored: bool,
    pub date: Option<u64>,
}

/// The slot (0 to 2) of a player's category, or -1 when it is not a pick.
pub open spec fn slot_of(p: PlayerOutcome) -> int {
    match p.tims {
        Some(t) => if 1 <= t <= 3 {
            t - 1
        } else {
            -1
        },
        None => -1,
    }
}

/// The player of slot `c` with the highest score among `lo..hi`, the first one
/// on equal scores; -1 when the slot has no player there.
pub open spec fn best_in(ps: Seq<PlayerOutcome>, keys: Seq<i64>, lo: int, hi: int, c: int) -> int
    decreases hi - lo,
{
    if hi <= lo {
        -1
    } else {
        let b = best_in(ps, keys, lo, hi - 1, c);
        if slot_of(ps[hi - 1]) == c && (b < 0 || keys[hi - 1] > keys[b]) {
            hi - 1
        } else {
            b
        }
    }
}

/// 1 when slot `c` of `lo..hi` has a selection and that player scored, else 0.
pub open spec fn slot_hit(ps: Seq<PlayerOutcome>, keys: Seq<i64>, lo: int, hi: int, c: int) -> int {
    let b = best_in(ps, keys, lo, hi, c);
    if b >= 0 && ps[b].scored {
        1
    } else {
        0
    }
}

/// The correct selections of the run `lo..hi`.
pub open spec fn run_hits(ps: Seq<PlayerOutcome>, keys: Seq<i64>, lo: int, hi: int) -> int {
    slot_hit(ps, keys, lo, hi, 0) + slot_hit(ps, keys, lo, hi, 1) + slot_hit(ps, keys, lo, hi, 2)
}

/// Where the run that holds index `i` ends: the first later index whose date
/// differs from the one before it, or the end.
pub open spec fn run_end(ps: Seq<PlayerOutcome>, i: int) -> int
    decreases ps.len() - i,
{
    if i + 1 >= ps.len() {
        i + 1
    } else if ps[i + 1].date != ps[i].date {
        i + 1
    } else {
        run_end(ps, i + 1)
    }
}

/// A run ends after its first index and no later than the batch.
pub proof fn lemma_run_end_bounds(ps: Seq<PlayerOutcome>, i: int)
    requires
        0 <= i < ps.len(),
    ensures
        i < run_end(ps, i) <= ps.len(),
    decreases ps.len() - i,
{
    if i + 1 < ps.len() && ps[i + 1].date == ps[i].date {
        lemma_run_end_bounds(ps, i + 1);
    }
}

/// Correct selections and predictions made over the runs from index `s` on:
/// three predictions for each run.
pub open spec fn tally_from(ps: Seq<PlayerOutcome>, keys: Seq<i64>, s: int) -> (int, int)
    decreases ps.len() - s
    via tally_from_decreases

{
    if s < 0 || s >= ps.len() {
        (0, 0)
    } else {
        let e = run_end(ps, s);
        let r = tally_from(ps, keys, e);
        (run_hits(ps, keys, s, e) + r.0, 3 + r.1)
    }
}

#[via_fn]
/// Each run is non-empty, so the tally moves forward.
proof fn tally_from_decreases(ps: Seq<PlayerOutcome>, keys: Seq<i64>, s: int) {
    if 0 <= s < ps.len() {
        lemma_run_end_bounds(ps, s);
    }
}

/// The whole batch's (correct, total) pair.
pub open spec fn tally(ps: Seq<PlayerOutcome>, keys: Seq<i64>) -> (int, int) {
    tally_from(ps, keys, 0)
}

/// Each run adds at most three correct selections and exactly three predictions.
pub proof fn lemma_tally_bounds(ps: Seq<PlayerOutcome>, keys: Seq<i64>, s: int)
    requires
        0 <= s <= ps.len(),
    ensures
        0 <= tally_from(ps, keys, s).0 <= tally_from(ps, keys, s).1 <= 3 * (ps.len() - s),
    decreases ps.len() - s,
{
    if s < ps.len() {
        lemma_run_end_bounds(ps, s);
        lemma_tally_bounds(ps, keys, run_end(ps, s));
    }
}

/// Inside a run of equal dates, every index shares the run's end.
proof fn lemma_run_end_step(ps: Seq<PlayerOutcome>, s: int, e: int)
    requires
        0 <= s < e <= ps.len(),
        forall|k: int| s < k < e ==> #[trigger] ps[k].date == ps[k - 1].date,
    ensures
        run_end(ps, s) == run_end(ps, e - 1),
    decreases e - s,
{
    if s < e - 1 {
        assert(ps[s + 1].date == ps[s].date);
        lemma_run_end_step(ps, s + 1, e);
    }
}

/// The slot of a player's category, or 3 when it is not a pick.
fn slot(p: &PlayerOutcome) -> (r: usize)
    ensures
        r <= 3,
        r < 3 ==> r == slot_of(*p),
        r == 3 ==> slot_of(*p) == -1,
{
    match p.tims {
        Some(t) => {
            if 1 <= t && t <= 3 {
                (t - 1) as usize
            } else {
                3
            }
        },
        None => 3,
    }
}

/// A best index held as an option, read as a spec index (-1 for none).
pub open spec fn index_of(b: Option<usize>) -> int {
    match b {
        Some(i) => i as int,
        None => -1,
    }
}

/// The number of correct selections in the run `start..end`: for each of the
/// three slots, the first of the highest-scored players of that slot, counted
/// when that player scored.
pub fn process_date_predictions(
    players: &Vec<PlayerOutcome>,
    keys: &Vec<i64>,
    start: usize,
    end: usize,
) -> (r: u64)
    requires
        start <= end <= players@.len(),
        keys@.len() == players@.len(),
    ensures
        r == run_hits(players@, keys@, start as int, end as int),
{
    let ghost ps = players@;
    let ghost ks = keys@;
    let mut b0: Option<usize> = None;
    let mut b1: Option<usize> = None;
    let mut b2: Option<usize> = None;
    let mut i = start;
    while i < end
        invariant
            start <= i <= end <= ps.len(),
            ks.len() == ps.len(),
            ps == players@,
            ks == keys@,
            index_of(b0) == best_in(ps, ks, start as int, i as int, 0),
            index_of(b1) == best_in(ps, ks, start as int, i as int, 1),
            index_of(b2) == best_in(ps, ks, start as int, i as int, 2),
            start <= index_of(b0) < i || index_of(b0) == -1,
            start <= index_of(b1) < i || index_of(b1) == -1,
            start <= index_of(b2) < i || index_of(b2) == -1,
        decreases end - i,
    {
        let c = slot(&players[i]);
        let k = keys[i];
        if c == 0 {
            b0 = match b0 {
                None => Some(i),
                Some(j) => if k > keys[j] {
                    Some(i)
                } else {
                    Some(j)
                },
            };
        } else if c == 1 {
            b1 = match b1 {
                None => Some(i),
                Some(j) => if k > keys[j] {
                    Some(i)
                } else {
                    Some(j)
                },
            };
        } else if c == 2 {
            b2 = match b2 {
                None => Some(i),
                Some(j) => if k > keys[j] {
                    Some(i)
                } else {
                    Some(j)
                },
            };
        }
        i = i + 1;
    }
    let mut correct: u64 = 0;
    if let Some(j) = b0 {
        if players[j].scored {
            correct = correct + 1;
        }
    }
    if let Some(j) = b1 {
        if players[j].scored {
            correct = correct + 1;
        }
    }
    if let Some(j) = b2 {
        if players[j].scored {
            correct = correct + 1;
        }
    }
    correct
}

/// The (correct, total) pair of a batch sorted by date: each run of equal dates
/// counts three predictions, and adds its correct selections. An empty batch
/// gives (0, 0).
pub fn evaluate_correctness_with_total(players: &Vec<PlayerOutcome>, keys: &Vec<i64>) -> (r: (
    u64,
    u64,
))
    requires
        keys@.len() == players@.len(),
        players@.len() <= u64::MAX / 3,
    ensures
        r.0 == tally(players@, keys@).0,
        r.1 == tally(players@, keys@).1,
{
    let ghost ps = players@;
    let ghost ks = keys@;
    let n = players.len();
    let mut correct: u64 = 0;
    let mut total: u64 = 0;
    let mut s: usize = 0;
    proof {
        lemma_tally_bounds(ps, ks, 0);
    }
    while s < n
        invariant
            ps == players@,
            ks == keys@,
            n == ps.len(),
            ks.len() == n,
            n <= u64::MAX / 3,
            s <= n,
            tally(ps, ks).0 == correct + tally_from(ps, ks, s as int).0,
            tally(ps, ks).1 == total + tally_from(ps, ks, s as int).1,
            total + 3 * (n - s) <= 3 * n,
            correct <= total,
        decreases n - s,
    {
        let mut e = s + 1;
        while e < n && players[e].date == players[e - 1].date
            invariant
                ps == players@,
                n == ps.len(),
                s < e <= n,
                forall|k: int| s < k < e ==> #[trigger] ps[k].date == ps[k - 1].date,
            decreases n - e,
        {
            e = e + 1;
        }
        proof {
            lemma_run_end_step(ps, s as int, e as int);
            lemma_run_end_bounds(ps, s as int);
            lemma_tally_bounds(ps, ks, e as int);
        }
        let h = process_date_predictions(players, keys, s, e);
        correct = correct + h;
        total = total + 3;
        s = e;
    }
    (correct, total)
}

/// A slot with no player in a run yields no selection.
pub proof fn lemma_empty_slot_has_no_best(ps: Seq<PlayerOutcome>, keys: Seq<i64>, lo: int, hi: int, c: int)
    requires
        forall|k: int| lo <= k < hi ==> slot_of(#[trigger] ps[k]) != c,
    ensures
        best_in(ps, keys, lo, hi, c) == -1,
    decreases hi - lo,
{
    if hi > lo {
        lemma_empty_slot_has_no_best(ps, keys, lo, hi - 1, c);
    }
}

/// A run in which one category has no eligible player still counts three
/// predictions, but adds at most two correct ones.
pub proof fn lemma_run_missing_category(ps: Seq<PlayerOutcome>, keys: Seq<i64>, s: int, c: int)
    requires
        0 <= s < ps.len(),
        0 <= c < 3,
        forall|k: int| s <= k < run_end(ps, s) ==> slot_of(#[trigger] ps[k]) != c,
    ensures
        tally_from(ps, keys, s).1 == 3 + tally_from(ps, keys, run_end(ps, s)).1,
        tally_from(ps, keys, s).0 <= 2 + tally_from(ps, keys, run_end(ps, s)).0,
{
    lemma_empty_slot_has_no_best(ps, keys, s, run_end(ps, s), c);
}

} // verus!
