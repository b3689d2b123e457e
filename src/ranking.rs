use vstd::prelude::*;
use vstd::seq_lib::{to_multiset_build, to_multiset_contains, to_multiset_insert};

use crate::scoring::MapScoring;

verus! {

/// 1.0 in the unit of scores: scores are counted in millionths.
pub const SCORE_UNIT: u64 = 1000000;

/// The smallest score a candidate can get (0.001).
pub const MIN_SCORE: u64 = 1000;

/// The largest score a candidate can get (100000.0).
pub const MAX_SCORE: u64 = 100000000000;

/// A scored candidate: its score and its position in the catalog's list of maps.
pub type Scored = (u64, usize);

pub open spec fn clamp_score(raw: u64) -> u64 {
    if raw < MIN_SCORE {
        MIN_SCORE
    } else if raw > MAX_SCORE {
        MAX_SCORE
    } else {
        raw
    }
}

/// The sum of the scores.
pub open spec fn score_sum(s: Seq<Scored>) -> int
    decreases s.len(),
{
    if s.len() == 0 {
        0
    } else {
        score_sum(s.drop_last()) + s.last().0
    }
}

/// Where an entry with score `key` goes into `t`, searching from `i`: before
/// the first entry with a smaller score, so that equal scores keep their order.
pub open spec fn insert_pos(t: Seq<Scored>, key: u64, i: int) -> int
    decreases t.len() - i,
{
    if i >= t.len() || t[i].0 < key {
        i
    } else {
        insert_pos(t, key, i + 1)
    }
}

/// The entries ordered by descending score; entries with equal scores keep
/// their relative order.
pub open spec fn sort_desc(s: Seq<Scored>) -> Seq<Scored>
    decreases s.len(),
{
    if s.len() == 0 {
        s
    } else {
        let t = sort_desc(s.drop_last());
        t.insert(insert_pos(t, s.last().0, 0), s.last())
    }
}

pub open spec fn sorted_desc(s: Seq<Scored>) -> bool {
    forall|i: int, j: int| 0 <= i < j < s.len() ==> #[trigger] s[i].0 >= #[trigger] s[j].0
}

/// No two entries name the same map.
pub open spec fn distinct_maps(s: Seq<Scored>) -> bool {
    forall|i: int, j: int| 0 <= i < j < s.len() ==> #[trigger] s[i].1 != #[trigger] s[j].1
}

/// Each candidate paired with its clamped score, in the order given.
pub open spec fn final_scores(states: Seq<MapScoring>, shaped: Seq<u64>) -> Seq<Scored> {
    Seq::new(states.len(), |i: int| (clamp_score(shaped[i]), states[i].map))
}

/// The ranked candidates: ordered by descending score, with the total of
/// all scores. The normalized weight of an entry is its score over `total`.
#[derive(Debug)]
pub struct Ranking {
    pub entries: Vec<Scored>,
    pub total: u128,
}

impl Ranking {
    pub open spec fn wf(&self) -> bool {
        &&& self.total == score_sum(self.entries@)
        &&& sorted_desc(self.entries@)
        &&& forall|i: int|
            0 <= i < self.entries@.len() ==> MIN_SCORE <= (#[trigger] self.entries@[i]).0 <= MAX_SCORE
    }
}

proof fn lemma_insert_pos(t: Seq<Scored>, key: u64, i: int)
    requires
        0 <= i <= t.len(),
    ensures
        i <= insert_pos(t, key, i) <= t.len(),
        forall|j: int| i <= j < insert_pos(t, key, i) ==> t[j].0 >= key,
        insert_pos(t, key, i) < t.len() ==> t[insert_pos(t, key, i)].0 < key,
    decreases t.len() - i,
{
    if i < t.len() && t[i].0 >= key {
        lemma_insert_pos(t, key, i + 1);
    }
}

proof fn lemma_sum_insert(t: Seq<Scored>, i: int, x: Scored)
    requires
        0 <= i <= t.len(),
    ensures
        score_sum(t.insert(i, x)) == score_sum(t) + x.0,
    decreases t.len(),
{
    if i == t.len() {
        assert(t.insert(i, x).drop_last() =~= t);
    } else {
        lemma_sum_insert(t.drop_last(), i, x);
        assert(t.insert(i, x).drop_last() =~= t.drop_last().insert(i, x));
    }
}

/// The sum of a sequence's scores is at most its length times the largest score.
proof fn lemma_sum_bound(s: Seq<Scored>, m: u64)
    requires
        forall|i: int| 0 <= i < s.len() ==> (#[trigger] s[i]).0 <= m,
    ensures
        0 <= score_sum(s) <= s.len() * m,
    decreases s.len(),
{
    if s.len() > 0 {
        lemma_sum_bound(s.drop_last(), m);
        assert(s.len() * m == (s.len() - 1) * m + m) by (nonlinear_arith);
    }
}

/// Sorting keeps the entries, their sum and their distinctness, and orders them.
pub proof fn lemma_sort_desc(s: Seq<Scored>)
    ensures
        sort_desc(s).len() == s.len(),
        sort_desc(s).to_multiset() == s.to_multiset(),
        score_sum(sort_desc(s)) == score_sum(s),
        sorted_desc(sort_desc(s)),
        distinct_maps(s) ==> distinct_maps(sort_desc(s)),
    decreases s.len(),
{
    if s.len() > 0 {
        let s0 = s.drop_last();
        let x = s.last();
        let t = sort_desc(s0);
        lemma_sort_desc(s0);
        let p = insert_pos(t, x.0, 0);
        lemma_insert_pos(t, x.0, 0);
        let r = t.insert(p, x);
        assert(r == sort_desc(s));
        lemma_sum_insert(t, p, x);
        to_multiset_insert(t, p, x);
        assert(s =~= s0.push(x));
        to_multiset_build(s0, x);
        assert forall|a: int, b: int| 0 <= a < b < r.len() implies #[trigger] r[a].0 >= #[trigger] r[b].0 by {
            if b < p {
            } else if b == p {
            } else if a < p {
                assert(r[b] == t[b - 1]);
            } else if a == p {
                assert(r[b] == t[b - 1]);
                if p < b - 1 {
                    assert(t[p].0 >= t[b - 1].0);
                }
            } else {
                assert(r[a] == t[a - 1] && r[b] == t[b - 1]);
            }
        }
        if distinct_maps(s) {
            assert(distinct_maps(s0));
            assert forall|a: int| 0 <= a < t.len() implies #[trigger] t[a].1 != x.1 by {
                to_multiset_contains(t, t[a]);
                to_multiset_contains(s0, t[a]);
                assert(t.contains(t[a]));
                let k = choose|k: int| 0 <= k < s0.len() && s0[k] == t[a];
                assert(s[k] == s0[k]);
                assert(s[s.len() - 1] == x);
            }
            assert forall|a: int, b: int| 0 <= a < b < r.len() implies #[trigger] r[a].1 != #[trigger] r[b].1 by {
                if b < p {
                } else if b == p {
                } else if a < p {
                    assert(r[b] == t[b - 1]);
                } else if a == p {
                    assert(r[b] == t[b - 1]);
                } else {
                    assert(r[a] == t[a - 1] && r[b] == t[b - 1]);
                }
            }
        }
    }
}

/// The position at which an entry with score `key` is inserted into `t`.
fn find_insert_pos(t: &Vec<Scored>, key: u64) -> (r: usize)
    ensures
        r == insert_pos(t@, key, 0),
{
    let mut j: usize = 0;
    while j < t.len() && t[j].0 >= key
        invariant
            j <= t.len(),
            insert_pos(t@, key, 0) == insert_pos(t@, key, j as int),
        decreases t.len() - j,
    {
        j = j + 1;
    }
    j
}

/// The entries ordered by descending score, equal scores in their given order.
pub fn sort_scores(v: &Vec<Scored>) -> (r: Vec<Scored>)
    ensures
        r@ == sort_desc(v@),
{
    let mut out: Vec<Scored> = Vec::new();
    let mut i: usize = 0;
    while i < v.len()
        invariant
            i <= v.len(),
            out@ == sort_desc(v@.take(i as int)),
        decreases v.len() - i,
    {
        let x = v[i];
        let pos = find_insert_pos(&out, x.0);
        proof {
            lemma_sort_desc(v@.take(i as int));
            lemma_insert_pos(out@, x.0, 0);
            assert(v@.take(i + 1).drop_last() =~= v@.take(i as int));
        }
        out.insert(pos, x);
        i = i + 1;
    }
    assert(v@.take(v@.len() as int) =~= v@);
    out
}

/// The total of all scores, the denominator of the normalized weights.
pub fn normalize_scores(scores: &Vec<Scored>) -> (r: u128)
    ensures
        r == score_sum(scores@),
{
    let n = scores.len();
    proof {
        lemma_sum_bound(scores@, u64::MAX);
        assert(scores@.len() * u64::MAX <= usize::MAX as int * u64::MAX) by (nonlinear_arith)
            requires
                scores@.len() == n,
                n <= usize::MAX,
        ;
    }
    let mut total: u128 = 0;
    let mut i: usize = 0;
    while i < scores.len()
        invariant
            i <= scores.len(),
            total == score_sum(scores@.take(i as int)),
            score_sum(scores@) <= usize::MAX as int * u64::MAX,
        decreases scores.len() - i,
    {
        proof {
            assert(scores@.take(i + 1).drop_last() =~= scores@.take(i as int));
            lemma_sum_bound(scores@.take(i + 1), u64::MAX);
            assert((i + 1) * u64::MAX <= usize::MAX as int * u64::MAX) by (nonlinear_arith)
                requires
                    i < usize::MAX,
            ;
        }
        total = total + scores[i].0 as u128;
        i = i + 1;
    }
    assert(scores@.take(scores@.len() as int) =~= scores@);
    total
}

impl MapScoring {
    /// This candidate's final score from its shaped score `shaped` (in
    /// millionths), clamped to the range of scores, with its catalog position.
    pub fn final_score(self, shaped: u64) -> (r: Scored)
        ensures
            r == (clamp_score(shaped), self.map),
            MIN_SCORE <= r.0 <= MAX_SCORE,
    {
        let s = if shaped < MIN_SCORE {
            MIN_SCORE
        } else if shaped > MAX_SCORE {
            MAX_SCORE
        } else {
            shaped
        };
        (s, self.map)
    }
}

/// Ranks all candidates: each state paired with its clamped shaped score,
/// ordered by descending score (equal scores keep candidate order), with the
/// total of all scores.
pub fn all_candidates(states: &Vec<MapScoring>, shaped: &Vec<u64>) -> (r: Ranking)
    requires
        states@.len() == shaped@.len(),
    ensures
        r.entries@ == sort_desc(final_scores(states@, shaped@)),
        r.wf(),
        (forall|i: int, j: int| 0 <= i < j < states@.len() ==> #[trigger] states@[i].map != #[trigger] states@[j].map)
            ==> distinct_maps(r.entries@),
{
    let mut scores: Vec<Scored> = Vec::new();
    let mut i: usize = 0;
    while i < states.len()
        invariant
            i <= states.len(),
            states@.len() == shaped@.len(),
            scores@ == final_scores(states@, shaped@).take(i as int),
        decreases states.len() - i,
    {
        let s = states[i].final_score(shaped[i]);
        scores.push(s);
        proof {
            assert(scores@ =~= final_scores(states@, shaped@).take(i + 1));
        }
        i = i + 1;
    }
    assert(scores@ =~= final_scores(states@, shaped@));
    let entries = sort_scores(&scores);
    let total = normalize_scores(&entries);
    proof {
        lemma_sort_desc(scores@);
        assert forall|k: int| 0 <= k < entries@.len() implies MIN_SCORE <= (#[trigger] entries@[k]).0
            <= MAX_SCORE by {
            to_multiset_contains(entries@, entries@[k]);
            to_multiset_contains(scores@, entries@[k]);
            assert(entries@.contains(entries@[k]));
        }
        if forall|i: int, j: int| 0 <= i < j < states@.len() ==> #[trigger] states@[i].map != #[trigger] states@[j].map {
            assert forall|a: int, b: int| 0 <= a < b < scores@.len() implies #[trigger] scores@[a].1
                != #[trigger] scores@[b].1 by {
                assert(scores@[a].1 == states@[a].map && scores@[b].1 == states@[b].map);
            }
        }
    }
    Ranking { entries, total }
}

proof fn lemma_sum_lower_bound(s: Seq<Scored>)
    requires
        forall|i: int| 0 <= i < s.len() ==> (#[trigger] s[i]).0 >= MIN_SCORE,
    ensures
        score_sum(s) >= s.len() * MIN_SCORE,
    decreases s.len(),
{
    if s.len() > 0 {
        lemma_sum_lower_bound(s.drop_last());
    }
}

/// The normalized weights of all candidates add up to exactly one: the
/// scores of the ranked entries add up to the same total as the candidates'
/// scores, and that total is positive (at least `MIN_SCORE` per candidate),
/// so each weight is a score divided by their common sum.
pub proof fn lemma_weights_sum_to_one(states: Seq<MapScoring>, shaped: Seq<u64>)
    requires
        states.len() == shaped.len(),
        states.len() > 0,
    ensures
        score_sum(sort_desc(final_scores(states, shaped))) == score_sum(final_scores(states, shaped)),
        score_sum(final_scores(states, shaped)) >= states.len() * MIN_SCORE,
        score_sum(final_scores(states, shaped)) > 0,
{
    let f = final_scores(states, shaped);
    lemma_sort_desc(f);
    assert forall|i: int| 0 <= i < f.len() implies (#[trigger] f[i]).0 >= MIN_SCORE by {}
    lemma_sum_lower_bound(f);
    assert(states.len() * MIN_SCORE > 0) by (nonlinear_arith)
        requires
            states.len() > 0,
            MIN_SCORE > 0,
    ;
}

/// Ranking is deterministic: two rankings of the same candidate states and
/// shaped scores, each as `all_candidates` describes its result, hold the same
/// entries in the same order and the same total.
pub proof fn lemma_ranking_deterministic(
    states: Seq<MapScoring>,
    shaped: Seq<u64>,
    first: Ranking,
    second: Ranking,
)
    requires
        first.entries@ == sort_desc(final_scores(states, shaped)),
        first.wf(),
        second.entries@ == sort_desc(final_scores(states, shaped)),
        second.wf(),
    ensures
        first.entries@ == second.entries@,
        first.total == second.total,
{
}

} // verus!
