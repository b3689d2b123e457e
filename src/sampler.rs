use vstd::prelude::*;
use vstd::seq_lib::to_multiset_contains;

use crate::ranking::{
    all_candidates, distinct_maps, final_scores, lemma_sort_desc, score_sum, sort_desc, sort_scores,
    sorted_desc, Ranking, Scored,
};
use crate::scoring::{EngineError, MapScoring};

verus! {

/// Relies on `rand::random`: a value drawn from the thread-local generator.
/// Nothing is promised about which value comes out.
pub assume_specification<T>[ rand::random::<T> ]() -> (r: T)
    where
        rand::distributions::Standard: rand::distributions::Distribution<T>,
;

/// The point that `draw` selects in `[0, total)`, where `total` is the sum of
/// the remaining scores; 0 when that sum is 0.
pub open spec fn draw_point(rem: Seq<Scored>, draw: u128) -> int {
    let t = score_sum(rem);
    if t == 0 {
        0
    } else {
        draw as int % t
    }
}

/// The entry of `rem` selected by point `u`, searching from `i`: walking the
/// entries in order and subtracting each score from `u`, the first entry at
/// which the remainder is no longer positive (the last entry at the latest).
pub open spec fn pick_at(rem: Seq<Scored>, u: int, i: int) -> int
    decreases rem.len() - i,
{
    if i + 1 >= rem.len() || u <= score_sum(rem.take(i + 1)) {
        i
    } else {
        pick_at(rem, u, i + 1)
    }
}

/// The first `k` draws without replacement from `rem`, in the order drawn.
/// Each selected entry keeps the score it had in the pool and leaves it.
pub open spec fn sample(rem: Seq<Scored>, draws: Seq<u128>, k: int) -> Seq<Scored>
    decreases k,
{
    if k <= 0 || rem.len() == 0 {
        seq![]
    } else {
        let i = pick_at(rem, draw_point(rem, draws[0]), 0);
        seq![rem[i]] + sample(rem.remove(i), draws.drop_first(), k - 1)
    }
}

proof fn lemma_pick_at(rem: Seq<Scored>, u: int, i: int)
    requires
        0 <= i < rem.len(),
    ensures
        i <= pick_at(rem, u, i) < rem.len(),
    decreases rem.len() - i,
{
    if !(i + 1 >= rem.len() || u <= score_sum(rem.take(i + 1))) {
        lemma_pick_at(rem, u, i + 1);
    }
}

/// Every entry drawn from `rem` is one of its entries, and when the entries
/// name distinct maps so do the draws.
pub proof fn lemma_sample(rem: Seq<Scored>, draws: Seq<u128>, k: int)
    requires
        0 <= k <= rem.len(),
    ensures
        sample(rem, draws, k).len() == k,
        forall|j: int| 0 <= j < k ==> rem.contains(#[trigger] sample(rem, draws, k)[j]),
        distinct_maps(rem) ==> distinct_maps(sample(rem, draws, k)),
    decreases k,
{
    if k > 0 {
        let i = pick_at(rem, draw_point(rem, draws[0]), 0);
        lemma_pick_at(rem, draw_point(rem, draws[0]), 0);
        let rest = rem.remove(i);
        lemma_sample(rest, draws.drop_first(), k - 1);
        let tail = sample(rest, draws.drop_first(), k - 1);
        let out = sample(rem, draws, k);
        assert(out == seq![rem[i]] + tail);
        assert forall|j: int| 0 <= j < k implies rem.contains(#[trigger] out[j]) by {
            if j == 0 {
                assert(rem[i] == out[0]);
            } else {
                assert(out[j] == tail[j - 1]);
                assert(rest.contains(tail[j - 1]));
                let q = choose|q: int| 0 <= q < rest.len() && rest[q] == tail[j - 1];
                if q < i {
                    assert(rem[q] == rest[q]);
                } else {
                    assert(rem[q + 1] == rest[q]);
                }
            }
        }
        if distinct_maps(rem) {
            assert(distinct_maps(rest)) by {
                assert forall|a: int, b: int| 0 <= a < b < rest.len() implies #[trigger] rest[a].1
                    != #[trigger] rest[b].1 by {
                    let a2 = if a < i {
                        a
                    } else {
                        a + 1
                    };
                    let b2 = if b < i {
                        b
                    } else {
                        b + 1
                    };
                    assert(rest[a] == rem[a2] && rest[b] == rem[b2]);
                }
            }
            assert forall|a: int, b: int| 0 <= a < b < out.len() implies #[trigger] out[a].1
                != #[trigger] out[b].1 by {
                if a == 0 {
                    assert(out[b] == tail[b - 1]);
                    assert(rest.contains(tail[b - 1]));
                    let q = choose|q: int| 0 <= q < rest.len() && rest[q] == tail[b - 1];
                    if q < i {
                        assert(rem[q] == rest[q]);
                    } else {
                        assert(rem[q + 1] == rest[q]);
                    }
                } else {
                    assert(out[a] == tail[a - 1] && out[b] == tail[b - 1]);
                }
            }
        }
    }
}

/// The position in `rem` that point `u` selects.
fn select(rem: &Vec<Scored>, u: u128) -> (r: usize)
    requires
        rem@.len() > 0,
        forall|j: int|
            0 <= j <= rem@.len() ==> #[trigger] score_sum(rem@.take(j)) <= u128::MAX,
    ensures
        r == pick_at(rem@, u as int, 0),
        r < rem@.len(),
{
    let n = rem.len();
    let mut i: usize = 0;
    let mut acc: u128 = rem[0].0 as u128;
    proof {
        assert(rem@.take(1).drop_last() =~= rem@.take(0));
        assert(rem@.take(0) =~= Seq::<Scored>::empty());
        assert(rem@.take(1).last() == rem@[0]);
        assert(score_sum(rem@.take(0)) == 0);
    }
    while i + 1 < n && u > acc
        invariant
            n == rem@.len(),
            i < rem@.len(),
            acc == score_sum(rem@.take(i + 1)),
            pick_at(rem@, u as int, 0) == pick_at(rem@, u as int, i as int),
            forall|j: int|
                0 <= j <= rem@.len() ==> #[trigger] score_sum(rem@.take(j)) <= u128::MAX,
        decreases rem@.len() - i,
    {
        proof {
            assert(rem@.take(i + 2).drop_last() =~= rem@.take(i + 1));
            assert(score_sum(rem@.take(i + 2)) <= u128::MAX);
        }
        i = i + 1;
        acc = acc + rem[i].0 as u128;
    }
    proof {
        lemma_pick_at(rem@, u as int, i as int);
    }
    i
}

/// The sum of the scores of `rem`.
fn remaining_total(rem: &Vec<Scored>) -> (r: u128)
    requires
        forall|j: int|
            0 <= j <= rem@.len() ==> #[trigger] score_sum(rem@.take(j)) <= u128::MAX,
    ensures
        r == score_sum(rem@),
{
    let mut total: u128 = 0;
    let mut i: usize = 0;
    proof {
        assert(rem@.take(0) =~= Seq::<Scored>::empty());
    }
    while i < rem.len()
        invariant
            i <= rem@.len(),
            total == score_sum(rem@.take(i as int)),
            forall|j: int|
                0 <= j <= rem@.len() ==> #[trigger] score_sum(rem@.take(j)) <= u128::MAX,
        decreases rem@.len() - i,
    {
        proof {
            assert(rem@.take(i + 1).drop_last() =~= rem@.take(i as int));
            assert(score_sum(rem@.take(i + 1)) <= u128::MAX);
        }
        total = total + rem[i].0 as u128;
        i = i + 1;
    }
    assert(rem@.take(rem@.len() as int) =~= rem@);
    total
}

/// Every prefix of a sequence of scores sums to at most its length times the
/// largest `u64`.
proof fn lemma_prefix_sums(s: Seq<Scored>)
    ensures
        forall|j: int| 0 <= j <= s.len() ==> #[trigger] score_sum(s.take(j)) <= j * u64::MAX,
{
    assert forall|j: int| 0 <= j <= s.len() implies #[trigger] score_sum(s.take(j)) <= j * u64::MAX by {
        lemma_take_sum(s, j);
    }
}

proof fn lemma_take_sum(s: Seq<Scored>, j: int)
    requires
        0 <= j <= s.len(),
    ensures
        0 <= score_sum(s.take(j)) <= j * u64::MAX,
    decreases j,
{
    if j > 0 {
        lemma_take_sum(s, j - 1);
        assert(s.take(j).drop_last() =~= s.take(j - 1));
        assert(j * u64::MAX == (j - 1) * u64::MAX + u64::MAX) by (nonlinear_arith);
    }
}

/// Every prefix sum of a sequence that a `Vec` can hold fits in a `u128`.
proof fn lemma_prefix_sums_fit(s: Seq<Scored>)
    requires
        s.len() <= usize::MAX,
    ensures
        forall|j: int| 0 <= j <= s.len() ==> #[trigger] score_sum(s.take(j)) <= u128::MAX,
{
    lemma_prefix_sums(s);
    assert forall|j: int| 0 <= j <= s.len() implies #[trigger] score_sum(s.take(j)) <= u128::MAX by {
        assert(j * u64::MAX <= usize::MAX as int * u64::MAX) by (nonlinear_arith)
            requires
                0 <= j <= usize::MAX,
        ;
    }
}

/// Draws `k` distinct entries from `ranked` by weighted sampling without
/// replacement, using `draws[d]` for the `d`-th draw, and returns them ordered
/// by descending score. Each keeps the score it had in `ranked`.
pub fn pick_with_draws(ranked: &Vec<Scored>, k: usize, draws: &Vec<u128>) -> (r: Vec<Scored>)
    requires
        k <= ranked@.len(),
        k <= draws@.len(),
    ensures
        r@ == sort_desc(sample(ranked@, draws@, k as int)),
        r@.len() == k,
        sorted_desc(r@),
        forall|j: int| 0 <= j < k ==> ranked@.contains(#[trigger] r@[j]),
        distinct_maps(ranked@) ==> distinct_maps(r@),
{
    let mut rem: Vec<Scored> = Vec::new();
    let mut i: usize = 0;
    while i < ranked.len()
        invariant
            i <= ranked@.len(),
            rem@ == ranked@.take(i as int),
        decreases ranked@.len() - i,
    {
        rem.push(ranked[i]);
        proof {
            assert(rem@ =~= ranked@.take(i + 1));
        }
        i = i + 1;
    }
    assert(rem@ =~= ranked@);
    let ghost goal = sample(ranked@, draws@, k as int);
    let mut picked: Vec<Scored> = Vec::new();
    proof {
        assert(draws@.skip(0) =~= draws@);
        assert(picked@ + sample(rem@, draws@.skip(0), k as int) =~= goal);
    }
    let mut d: usize = 0;
    while d < k
        invariant
            d <= k,
            k <= ranked@.len(),
            k <= draws@.len(),
            rem@.len() == ranked@.len() - d,
            ranked@.len() <= usize::MAX,
            goal == sample(ranked@, draws@, k as int),
            picked@ + sample(rem@, draws@.skip(d as int), k - d) == goal,
        decreases k - d,
    {
        proof {
            lemma_prefix_sums_fit(rem@);
        }
        let total = remaining_total(&rem);
        let u: u128 = if total == 0 {
            0
        } else {
            draws[d] % total
        };
        let idx = select(&rem, u);
        let ghost rem0 = rem@;
        let ghost picked0 = picked@;
        proof {
            assert(draws@.skip(d as int)[0] == draws@[d as int]);
            assert(draws@.skip(d as int).drop_first() =~= draws@.skip(d + 1));
            assert(u as int == draw_point(rem0, draws@.skip(d as int)[0]));
        }
        let x = rem.remove(idx);
        picked.push(x);
        proof {
            assert(sample(rem0, draws@.skip(d as int), k - d) == seq![x] + sample(
                rem@,
                draws@.skip(d + 1),
                k - d - 1,
            ));
            assert(picked@ + sample(rem@, draws@.skip(d + 1), k - (d + 1)) =~= picked0 + (seq![x] + sample(rem@, draws@.skip(d + 1), k - (d + 1))));
        }
        d = d + 1;
    }
    proof {
        assert(sample(rem@, draws@.skip(k as int), 0) =~= Seq::<Scored>::empty());
        assert(picked@ =~= goal);
        lemma_sample(ranked@, draws@, k as int);
        lemma_sort_desc(goal);
    }
    let r = sort_scores(&picked);
    proof {
        assert forall|j: int| 0 <= j < k implies ranked@.contains(#[trigger] r@[j]) by {
            to_multiset_contains(r@, r@[j]);
            to_multiset_contains(goal, r@[j]);
            assert(r@.contains(r@[j]));
            let q = choose|q: int| 0 <= q < goal.len() && goal[q] == r@[j];
            assert(ranked@.contains(goal[q]));
        }
    }
    r
}

/// Draws `k` distinct entries from `ranked` by weighted sampling without
/// replacement, with random draws, ordered by descending score; an error when
/// `ranked` holds fewer than `k` entries.
pub fn pick_random_maps(ranked: &Vec<Scored>, k: usize) -> (r: Result<Vec<Scored>, EngineError>)
    ensures
        k > ranked@.len() ==> r == Err::<Vec<Scored>, EngineError>(
            EngineError::InsufficientCandidates { requested: k, available: ranked@.len() as usize },
        ),
        k <= ranked@.len() ==> (r matches Ok(v) && exists|draws: Seq<u128>|
            v@ == sort_desc(#[trigger] sample(ranked@, draws, k as int))),
        r matches Ok(v) ==> {
            &&& v@.len() == k
            &&& sorted_desc(v@)
            &&& forall|j: int| 0 <= j < k ==> ranked@.contains(#[trigger] v@[j])
            &&& distinct_maps(ranked@) ==> distinct_maps(v@)
        },
{
    if k > ranked.len() {
        return Err(EngineError::InsufficientCandidates { requested: k, available: ranked.len() });
    }
    let mut draws: Vec<u128> = Vec::new();
    let mut d: usize = 0;
    while d < k
        invariant
            d <= k,
            draws@.len() == d,
        decreases k - d,
    {
        draws.push(rand::random::<u128>());
        d = d + 1;
    }
    let v = pick_with_draws(ranked, k, &draws);
    Ok(v)
}

/// Ranks all candidates by their shaped scores and draws `k` distinct ones
/// from that distribution; an error when there are fewer than `k` candidates.
/// Each drawn entry keeps its score in the ranking, whose total normalizes it.
pub fn recommend(states: &Vec<MapScoring>, shaped: &Vec<u64>, k: usize) -> (r: Result<
    (Ranking, Vec<Scored>),
    EngineError,
>)
    requires
        states@.len() == shaped@.len(),
    ensures
        k > states@.len() ==> (r matches Err(e) && e == (EngineError::InsufficientCandidates {
            requested: k,
            available: states@.len() as usize,
        })),
        k <= states@.len() ==> r is Ok,
        r matches Ok((ranking, picks)) ==> {
            &&& ranking.entries@ == sort_desc(final_scores(states@, shaped@))
            &&& ranking.wf()
            &&& picks@.len() == k
            &&& sorted_desc(picks@)
            &&& forall|j: int| 0 <= j < k ==> ranking.entries@.contains(#[trigger] picks@[j])
            &&& exists|draws: Seq<u128>|
                picks@ == sort_desc(#[trigger] sample(ranking.entries@, draws, k as int))
            &&& (forall|i: int, j: int|
                0 <= i < j < states@.len() ==> #[trigger] states@[i].map != #[trigger] states@[j].map)
                ==> distinct_maps(picks@)
        },
{
    let ranking = all_candidates(states, shaped);
    proof {
        lemma_sort_desc(final_scores(states@, shaped@));
    }
    match pick_random_maps(&ranking.entries, k) {
        Ok(picks) => Ok((ranking, picks)),
        Err(e) => Err(e),
    }
}

} // verus!
