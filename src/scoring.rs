use vstd::arithmetic::div_mod::lemma_div_is_ordered;
use vstd::prelude::*;

use crate::catalog::GameMap;
use crate::mode::{discount_of, next_mode, Mode};

verus! {

/// The age of a map that has not been played recently; ages never exceed it.
pub const MAX_AGE: u16 = 200;

/// 1.0 in the 32.32 fixed-point format of the penalty accumulators.
pub const FIXED_ONE: u64 = 4294967296;

/// 1000.0 in 32.32 fixed point: what one play of a same-mode group member adds
/// to the penalty.
pub const ROUND_PENALTY: u64 = 4294967296000;

/// 2^(-1/64) in 32.32 fixed point: the penalty halves every 64 rounds.
pub const ROUND_DISCOUNT: u64 = 4248701965;

/// 2^(-1/12) in 32.32 fixed point: the cross-mode penalty halves every 12 rounds.
pub const CROSS_TYPE_ROUND_DISCOUNT: u64 = 4053909305;

/// No accumulator ever grows past this bound (2^49, about 131072.0).
pub const PENALTY_BOUND: u64 = 562949953421312;

/// The scoring state of one candidate map while the history is replayed.
///
/// `map` is the candidate's position in the catalog's list of maps; `id`,
/// `gid` and `mode` are copied from that map. The two penalties are 32.32
/// fixed-point numbers.
#[derive(Debug, PartialEq, Eq, Structural, Clone, Copy)]
pub struct MapScoring {
    pub map: usize,
    pub id: u16,
    pub gid: u16,
    pub mode: Mode,
    pub age: u16,
    pub cross_type_sibling_penalty: u64,
    pub penalty: u64,
}

impl MapScoring {
    /// Both penalties are positive and bounded, and the age lies in `1..=MAX_AGE`.
    pub open spec fn wf(self) -> bool {
        &&& 1 <= self.penalty <= PENALTY_BOUND
        &&& 1 <= self.cross_type_sibling_penalty <= PENALTY_BOUND
        &&& 1 <= self.age <= MAX_AGE
    }
}

/// `p` multiplied by the fixed-point factor `d`, rounded down, but never
/// below one unit: a positive penalty stays positive.
pub open spec fn decay(p: u64, d: u64) -> u64 {
    let q = ((p as int * d as int) / FIXED_ONE as int) as u64;
    if q == 0 {
        1
    } else {
        q
    }
}

/// The fresh state of the map at position `idx`: not played for the longest
/// age, and both penalties at 1.0.
pub open spec fn initial_state(idx: int, m: GameMap) -> MapScoring {
    MapScoring {
        map: idx as usize,
        id: m.id,
        gid: m.gid,
        mode: m.mode,
        age: MAX_AGE,
        cross_type_sibling_penalty: FIXED_ONE,
        penalty: FIXED_ONE,
    }
}

/// One round of history: both penalties decay, the age grows (up to the cap)
/// or drops to 1 when `o` is this very map, and a play in this map's group
/// adds the round penalty, to `penalty` for the same mode, and scaled by the
/// mode discount to the cross-mode penalty otherwise.
pub open spec fn played(s: MapScoring, o: GameMap) -> MapScoring {
    let p = decay(s.penalty, ROUND_DISCOUNT);
    let c = decay(s.cross_type_sibling_penalty, CROSS_TYPE_ROUND_DISCOUNT);
    let age = if s.id == o.id {
        1
    } else if s.age >= MAX_AGE {
        MAX_AGE
    } else {
        (s.age + 1) as u16
    };
    let (p, c) = if s.gid == o.gid {
        if s.mode == o.mode {
            ((p + ROUND_PENALTY) as u64, c)
        } else {
            (p, (c + discount_of(s.mode, o.mode) as int * FIXED_ONE) as u64)
        }
    } else {
        (p, c)
    };
    MapScoring { age, penalty: p, cross_type_sibling_penalty: c, ..s }
}

/// The state after the first `n` entries of the history, oldest first.
pub open spec fn replay(s: MapScoring, log: Seq<GameMap>, n: int) -> MapScoring
    decreases n,
{
    if n <= 0 {
        s
    } else {
        played(replay(s, log, n - 1), log[n - 1])
    }
}

/// The fresh states of the maps among the first `n` of `maps` that have mode
/// `mode` and room for at least `players` players, in catalog order.
pub open spec fn candidates(mode: Mode, players: u16, maps: Seq<GameMap>, n: int) -> Seq<MapScoring>
    decreases n,
{
    if n <= 0 {
        seq![]
    } else {
        let prev = candidates(mode, players, maps, n - 1);
        let m = maps[n - 1];
        if m.mode == mode && m.players >= players {
            prev.push(initial_state(n - 1, m))
        } else {
            prev
        }
    }
}

/// The state of every candidate after the whole history.
pub open spec fn scored_candidates(log: Seq<GameMap>, mode: Mode, players: u16, maps: Seq<GameMap>) -> Seq<
    MapScoring,
> {
    candidates(mode, players, maps, maps.len() as int).map_values(
        |s: MapScoring| replay(s, log, log.len() as int),
    )
}

/// Why the engine cannot serve a request.
#[derive(Debug, PartialEq, Eq, Structural, Clone, Copy)]
pub enum EngineError {
    /// No map has the requested mode and room for the requested players.
    EmptyCandidateSet,
    /// Fewer eligible maps than the number requested.
    InsufficientCandidates { requested: usize, available: usize },
}

proof fn lemma_decay_bounds(p: u64, d: u64)
    requires
        1 <= p <= PENALTY_BOUND,
        d <= ROUND_DISCOUNT,
    ensures
        1 <= decay(p, d) <= p,
        decay(p, d) + ROUND_PENALTY <= PENALTY_BOUND,
{
    let x = p as int * d as int;
    assert(x <= p as int * FIXED_ONE as int) by (nonlinear_arith)
        requires
            x == p as int * d as int,
            0 <= p,
            d <= ROUND_DISCOUNT,
            ROUND_DISCOUNT < FIXED_ONE,
    ;
    assert(x <= PENALTY_BOUND as int * ROUND_DISCOUNT as int) by (nonlinear_arith)
        requires
            x == p as int * d as int,
            0 <= d,
            p <= PENALTY_BOUND,
            d <= ROUND_DISCOUNT,
    ;
    assert(0 <= x) by (nonlinear_arith)
        requires
            x == p as int * d as int,
            0 <= p,
            0 <= d,
    ;
    lemma_div_is_ordered(x, p as int * FIXED_ONE as int, FIXED_ONE as int);
    lemma_div_is_ordered(x, PENALTY_BOUND as int * ROUND_DISCOUNT as int, FIXED_ONE as int);
    assert((p as int * FIXED_ONE as int) / FIXED_ONE as int == p) by (nonlinear_arith)
        requires
            FIXED_ONE > 0,
    ;
    assert(PENALTY_BOUND as int * ROUND_DISCOUNT as int == FIXED_ONE as int * 556885863956480int);
    assert((FIXED_ONE as int * 556885863956480int) / FIXED_ONE as int == 556885863956480int)
        by (nonlinear_arith);
    lemma_div_is_ordered(0, x, FIXED_ONE as int);
}

/// `p` multiplied by the fixed-point factor `d`, rounded down, but never
/// below one unit.
fn decayed(p: u64, d: u64) -> (r: u64)
    requires
        1 <= p <= PENALTY_BOUND,
        d <= ROUND_DISCOUNT,
    ensures
        r == decay(p, d),
        1 <= r <= p,
        r + ROUND_PENALTY <= PENALTY_BOUND,
{
    proof {
        lemma_decay_bounds(p, d);
        assert(p as int * d as int <= u128::MAX) by (nonlinear_arith)
            requires
                p <= PENALTY_BOUND,
                d <= ROUND_DISCOUNT,
        ;
    }
    let q = ((p as u128 * d as u128) / FIXED_ONE as u128) as u64;
    if q == 0 {
        1
    } else {
        q
    }
}

impl MapScoring {
    /// Accounts for one more entry `other_map` of the history.
    pub fn map_played(&mut self, other_map: &GameMap)
        requires
            old(self).wf(),
        ensures
            *final(self) == played(*old(self), *other_map),
            final(self).wf(),
    {
        let p = decayed(self.penalty, ROUND_DISCOUNT);
        let c = decayed(self.cross_type_sibling_penalty, CROSS_TYPE_ROUND_DISCOUNT);
        self.penalty = p;
        self.cross_type_sibling_penalty = c;
        self.age = if self.age >= MAX_AGE {
            MAX_AGE
        } else {
            self.age + 1
        };
        if other_map.id == self.id {
            self.age = 1;
        }
        if self.gid == other_map.gid {
            if self.mode == other_map.mode {
                self.penalty = self.penalty + ROUND_PENALTY;
            } else {
                let d = self.mode.mode_discount(other_map.mode);
                self.cross_type_sibling_penalty = self.cross_type_sibling_penalty + d as u64
                    * FIXED_ONE;
            }
        }
    }
}

/// The fresh states of the maps of mode `mode` with room for at least
/// `players` players, in catalog order.
pub fn get_appropriate_maps(mode: Mode, players: u16, all_maps: &Vec<GameMap>) -> (r: Vec<
    MapScoring,
>)
    ensures
        r@ == candidates(mode, players, all_maps@, all_maps@.len() as int),
        forall|i: int| 0 <= i < r@.len() ==> (#[trigger] r@[i]).wf(),
{
    let mut r: Vec<MapScoring> = Vec::new();
    let mut i: usize = 0;
    while i < all_maps.len()
        invariant
            i <= all_maps.len(),
            r@ == candidates(mode, players, all_maps@, i as int),
            forall|k: int| 0 <= k < r@.len() ==> (#[trigger] r@[k]).wf(),
        decreases all_maps.len() - i,
    {
        let m = &all_maps[i];
        if m.mode == mode && m.players >= players {
            r.push(
                MapScoring {
                    map: i,
                    id: m.id,
                    gid: m.gid,
                    mode: m.mode,
                    age: MAX_AGE,
                    cross_type_sibling_penalty: FIXED_ONE,
                    penalty: FIXED_ONE,
                },
            );
        }
        i = i + 1;
    }
    r
}

/// Replays the whole history, oldest first, on one candidate.
pub fn replay_log(start: MapScoring, log: &Vec<GameMap>) -> (r: MapScoring)
    requires
        start.wf(),
    ensures
        r == replay(start, log@, log@.len() as int),
        r.wf(),
{
    let mut s = start;
    let mut j: usize = 0;
    while j < log.len()
        invariant
            j <= log.len(),
            s == replay(start, log@, j as int),
            s.wf(),
        decreases log.len() - j,
    {
        s.map_played(&log[j]);
        j = j + 1;
    }
    s
}

/// The mode to offer first: the successor of the newest history entry's
/// mode, or TD when the history is empty.
pub fn default_mode(history: &Vec<GameMap>) -> (r: Mode)
    ensures
        r == if history@.len() == 0 {
            Mode::TD
        } else {
            next_mode(history@.last().mode)
        },
{
    if history.len() == 0 {
        Mode::TD
    } else {
        history[history.len() - 1].mode.next()
    }
}

/// The state of every map of mode `mode` with room for at least `players`
/// players after the whole history `log`, in catalog order; an error when no
/// map qualifies.
pub fn build_scores(log: &Vec<GameMap>, mode: Mode, players: u16, all_maps: &Vec<GameMap>) -> (r:
    Result<Vec<MapScoring>, EngineError>)
    ensures
        candidates(mode, players, all_maps@, all_maps@.len() as int).len() == 0 ==> r
            == Err::<Vec<MapScoring>, EngineError>(EngineError::EmptyCandidateSet),
        candidates(mode, players, all_maps@, all_maps@.len() as int).len() > 0 ==> (r matches Ok(v)
            && v@ == scored_candidates(log@, mode, players, all_maps@)),
        r matches Ok(v) ==> forall|i: int| 0 <= i < v@.len() ==> (#[trigger] v@[i]).wf(),
        r matches Ok(v) ==> forall|i: int| 0 <= i < v@.len() ==> (#[trigger] v@[i]).map < all_maps@.len(),
        r matches Ok(v) ==> forall|i: int, j: int|
            0 <= i < j < v@.len() ==> (#[trigger] v@[i]).map < (#[trigger] v@[j]).map,
{
    let n_maps = all_maps.len();
    let fresh = get_appropriate_maps(mode, players, all_maps);
    if fresh.len() == 0 {
        return Err(EngineError::EmptyCandidateSet);
    }
    let ghost target = scored_candidates(log@, mode, players, all_maps@);
    let mut out: Vec<MapScoring> = Vec::new();
    let mut i: usize = 0;
    while i < fresh.len()
        invariant
            i <= fresh.len(),
            fresh@ == candidates(mode, players, all_maps@, all_maps@.len() as int),
            forall|k: int| 0 <= k < fresh@.len() ==> (#[trigger] fresh@[k]).wf(),
            target == scored_candidates(log@, mode, players, all_maps@),
            out@.len() == i,
            forall|k: int| 0 <= k < i ==> out@[k] == target[k],
            forall|k: int| 0 <= k < i ==> (#[trigger] out@[k]).wf(),
        decreases fresh.len() - i,
    {
        let s = replay_log(fresh[i], log);
        out.push(s);
        i = i + 1;
    }
    assert(out@ =~= target);
    proof {
        let cands = candidates(mode, players, all_maps@, all_maps@.len() as int);
        assert(all_maps@.len() == n_maps);
        lemma_candidates_positions(mode, players, all_maps@, all_maps@.len() as int);
        assert forall|k: int| 0 <= k < out@.len() implies #[trigger] out@[k].map == cands[k].map by {
            lemma_replay_keeps_identity(cands[k], log@, log@.len() as int);
        }
        assert forall|a: int, b: int| 0 <= a < b < out@.len() implies (#[trigger] out@[a]).map < (
        #[trigger] out@[b]).map by {
            assert(out@[a].map == cands[a].map && out@[b].map == cands[b].map);
        }
    }
    Ok(out)
}

/// The penalty at which one more same-mode play no longer raises it: below
/// this, decaying and adding the round penalty always gives a larger value.
pub const PENALTY_CEILING: u64 = 398716353584616;

/// Replaying the history leaves the candidate's identity untouched.
pub proof fn lemma_replay_keeps_identity(s: MapScoring, log: Seq<GameMap>, n: int)
    ensures
        replay(s, log, n).map == s.map,
        replay(s, log, n).id == s.id,
        replay(s, log, n).gid == s.gid,
        replay(s, log, n).mode == s.mode,
    decreases n,
{
    if n > 0 {
        lemma_replay_keeps_identity(s, log, n - 1);
    }
}

/// The candidates come in increasing catalog position, each below `n`.
pub proof fn lemma_candidates_positions(mode: Mode, players: u16, maps: Seq<GameMap>, n: int)
    requires
        0 <= n <= maps.len(),
        maps.len() <= usize::MAX,
    ensures
        forall|i: int|
            0 <= i < candidates(mode, players, maps, n).len() ==> #[trigger] candidates(
                mode,
                players,
                maps,
                n,
            )[i].map < n,
        forall|i: int, j: int|
            0 <= i < j < candidates(mode, players, maps, n).len() ==> #[trigger] candidates(
                mode,
                players,
                maps,
                n,
            )[i].map < #[trigger] candidates(mode, players, maps, n)[j].map,
        forall|i: int|
            0 <= i < candidates(mode, players, maps, n).len() ==> {
                let c = #[trigger] candidates(mode, players, maps, n)[i];
                &&& c == initial_state(c.map as int, maps[c.map as int])
                &&& maps[c.map as int].mode == mode
                &&& maps[c.map as int].players >= players
            },
    decreases n,
{
    if n > 0 {
        lemma_candidates_positions(mode, players, maps, n - 1);
        let prev = candidates(mode, players, maps, n - 1);
        let cur = candidates(mode, players, maps, n);
        if maps[n - 1].mode == mode && maps[n - 1].players >= players {
            assert(cur == prev.push(initial_state(n - 1, maps[n - 1])));
            assert(cur[prev.len() as int].map == n - 1);
            assert forall|i: int| 0 <= i < prev.len() implies cur[i] == prev[i] by {}
        }
    }
}

/// Recency suppression. When a candidate's own map is the newest entry of
/// the history, the candidate's age is 1 (never more than without that entry)
/// and its penalty is the decayed penalty plus the round penalty, which is
/// strictly larger than its penalty without that entry, unless that penalty
/// had already reached `PENALTY_CEILING`.
pub proof fn lemma_recent_play_suppresses(s: MapScoring, log: Seq<GameMap>, x: GameMap)
    requires
        s.wf(),
        x.id == s.id,
        x.gid == s.gid,
        x.mode == s.mode,
    ensures
        ({
            let before = replay(s, log, log.len() as int);
            let after = replay(s, log.push(x), log.len() as int + 1);
            &&& after.age == 1
            &&& after.age <= before.age
            &&& after.penalty == decay(before.penalty, ROUND_DISCOUNT) + ROUND_PENALTY
            &&& (before.penalty < PENALTY_CEILING <==> after.penalty > before.penalty)
        }),
{
    let n = log.len() as int;
    lemma_replay_push(s, log, x);
    lemma_replay_wf(s, log, n);
    lemma_replay_keeps_identity(s, log, n);
    let before = replay(s, log, n);
    lemma_decay_bounds(before.penalty, ROUND_DISCOUNT);
    lemma_ceiling(before.penalty);
}

/// Group cross-penalty. For a candidate whose group holds another map `a` of
/// a different mode and another map `c` of the candidate's own mode, a play
/// of `a` as the newest history entry leaves its combined penalty strictly
/// below what a play of `c` would, with the same age.
pub proof fn lemma_cross_mode_play_weighs_less(s: MapScoring, log: Seq<GameMap>, a: GameMap, c: GameMap)
    requires
        s.wf(),
        a.gid == s.gid,
        a.mode != s.mode,
        a.id != s.id,
        c.gid == s.gid,
        c.mode == s.mode,
        c.id != s.id,
    ensures
        ({
            let after_a = replay(s, log.push(a), log.len() as int + 1);
            let after_c = replay(s, log.push(c), log.len() as int + 1);
            &&& after_a.age == after_c.age
            &&& after_a.penalty + after_a.cross_type_sibling_penalty < after_c.penalty
                + after_c.cross_type_sibling_penalty
        }),
{
    let n = log.len() as int;
    lemma_replay_push(s, log, a);
    lemma_replay_push(s, log, c);
    lemma_replay_wf(s, log, n);
    lemma_replay_keeps_identity(s, log, n);
    let before = replay(s, log, n);
    lemma_decay_bounds(before.penalty, ROUND_DISCOUNT);
    lemma_decay_bounds(before.cross_type_sibling_penalty, CROSS_TYPE_ROUND_DISCOUNT);
    assert(discount_of(s.mode, a.mode) <= 900);
}

/// Replaying a history with one more entry is one more round.
proof fn lemma_replay_push(s: MapScoring, log: Seq<GameMap>, x: GameMap)
    ensures
        replay(s, log.push(x), log.len() as int + 1) == played(replay(s, log, log.len() as int), x),
{
    lemma_replay_prefix(s, log, x, log.len() as int);
}

proof fn lemma_replay_prefix(s: MapScoring, log: Seq<GameMap>, x: GameMap, n: int)
    requires
        n <= log.len(),
    ensures
        replay(s, log.push(x), n) == replay(s, log, n),
    decreases n,
{
    if n > 0 {
        lemma_replay_prefix(s, log, x, n - 1);
    }
}

proof fn lemma_replay_wf(s: MapScoring, log: Seq<GameMap>, n: int)
    requires
        s.wf(),
    ensures
        replay(s, log, n).wf(),
    decreases n,
{
    if n > 0 {
        lemma_replay_wf(s, log, n - 1);
        let r = replay(s, log, n - 1);
        lemma_decay_bounds(r.penalty, ROUND_DISCOUNT);
        lemma_decay_bounds(r.cross_type_sibling_penalty, CROSS_TYPE_ROUND_DISCOUNT);
    }
}

/// Below the ceiling the round penalty outweighs one round of decay; from the
/// ceiling up it does not.
proof fn lemma_ceiling(p: u64)
    requires
        p <= PENALTY_BOUND,
    ensures
        p < PENALTY_CEILING <==> decay(p, ROUND_DISCOUNT) + ROUND_PENALTY > p,
{
    let x = p as int * ROUND_DISCOUNT as int;
    let q = x / FIXED_ONE as int;
    let one = FIXED_ONE as int;
    vstd::arithmetic::div_mod::lemma_fundamental_div_mod(x, one);
    vstd::arithmetic::div_mod::lemma_mod_bound(x, one);
    let r = x % one;
    assert(x == one * q + r);
    if p < PENALTY_CEILING {
        assert(q + ROUND_PENALTY > p) by (nonlinear_arith)
            requires
                x == p as int * ROUND_DISCOUNT as int,
                x == one * q + r,
                0 <= r < one,
                one == 4294967296,
                ROUND_DISCOUNT == 4248701965,
                ROUND_PENALTY == 4294967296000,
                p < 398716353584616,
        ;
    } else {
        assert(q + ROUND_PENALTY <= p) by (nonlinear_arith)
            requires
                x == p as int * ROUND_DISCOUNT as int,
                x == one * q + r,
                0 <= r,
                one == 4294967296,
                ROUND_DISCOUNT == 4248701965,
                ROUND_PENALTY == 4294967296000,
                p >= 398716353584616,
        ;
    }
}

} // verus!
