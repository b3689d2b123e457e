use map_picker::catalog::{load_map_data, Catalog, Field, GameMap, RawGroup, RawVariant};
use map_picker::mode::Mode;
use map_picker::ranking::{all_candidates, sort_scores, MAX_SCORE, MIN_SCORE, SCORE_UNIT};
use map_picker::sampler::{pick_random_maps, pick_with_draws, recommend};
use map_picker::scoring::{
    build_scores, default_mode, get_appropriate_maps, EngineError, MapScoring, CROSS_TYPE_ROUND_DISCOUNT,
    FIXED_ONE, MAX_AGE, ROUND_DISCOUNT, ROUND_PENALTY,
};

fn variant(id: u16, mode: &str, players: u16) -> RawVariant {
    RawVariant {
        id: Field::Number(Some(id)),
        players: Field::Number(Some(players)),
        mode: Field::Text(mode.to_string()),
        gag: Field::Null,
        nickname: Field::Null,
        disabled: Field::Null,
    }
}

fn group(gid: u16, name: &str, variants: Vec<RawVariant>) -> RawGroup {
    RawGroup {
        gid: Field::Number(Some(gid)),
        name: Field::Text(name.to_string()),
        variants: Some(variants),
    }
}

fn catalog(groups: Vec<RawGroup>) -> Catalog {
    load_map_data(&Some(groups)).expect("valid catalog")
}

/// The shaping that the application applies to a replayed state, in millionths.
fn shaped(s: &MapScoring) -> u64 {
    let combined = (s.penalty + s.cross_type_sibling_penalty) as f64 / FIXED_ONE as f64;
    let inverted = 1000.0 / combined.powf(1.4);
    let weighted = inverted * (s.age as f64).powf(0.6);
    (weighted * SCORE_UNIT as f64) as u64
}

fn shaped_all(states: &Vec<MapScoring>) -> Vec<u64> {
    states.iter().map(shaped).collect()
}

fn history(c: &Catalog, ids: &[u16]) -> Vec<GameMap> {
    ids.iter()
        .map(|id| c.maps.iter().find(|m| m.id == *id).unwrap().clone())
        .collect()
}

#[test]
fn single_candidate_gets_all_the_mass() {
    let c = catalog(vec![group(1, "Arena", vec![variant(10, "TD", 16), variant(11, "DM", 16)])]);
    let states = build_scores(&vec![], Mode::TD, 16, &c.maps).unwrap();
    assert_eq!(states.len(), 1);
    let ranking = all_candidates(&states, &shaped_all(&states));
    let picked = pick_random_maps(&ranking.entries, 1).unwrap();
    assert_eq!(picked.len(), 1);
    assert_eq!(c.maps[picked[0].1].id, 10);
    assert_eq!(picked[0].0 as u128, ranking.total);
    assert_eq!(picked[0].0 as f64 / ranking.total as f64, 1.0);
}

#[test]
fn uniform_prior_with_four_candidates() {
    let c = catalog(vec![
        group(1, "A", vec![variant(1, "TD", 16)]),
        group(2, "B", vec![variant(2, "TD", 16)]),
        group(3, "C", vec![variant(3, "TD", 16)]),
        group(4, "D", vec![variant(4, "TD", 16)]),
    ]);
    let states = build_scores(&vec![], Mode::TD, 16, &c.maps).unwrap();
    let ranking = all_candidates(&states, &shaped_all(&states));
    assert_eq!(ranking.entries.len(), 4);
    for e in &ranking.entries {
        assert_eq!(e.0 as u128 * 4, ranking.total);
        assert_eq!(e.0 as f64 / ranking.total as f64, 0.25);
    }
    let picked = pick_random_maps(&ranking.entries, 3).unwrap();
    assert_eq!(picked.len(), 3);
    let mut positions: Vec<usize> = picked.iter().map(|p| p.1).collect();
    positions.sort();
    positions.dedup();
    assert_eq!(positions.len(), 3);
}

#[test]
fn one_play_sets_age_and_penalty() {
    let c = catalog(vec![
        group(1, "A", vec![variant(1, "TD", 16)]),
        group(2, "B", vec![variant(2, "TD", 16)]),
    ]);
    let log = history(&c, &[1]);
    let states = build_scores(&log, Mode::TD, 16, &c.maps).unwrap();
    let a = states.iter().find(|s| s.id == 1).unwrap();
    let b = states.iter().find(|s| s.id == 2).unwrap();
    assert_eq!(a.age, 1);
    assert_eq!(a.penalty, ROUND_DISCOUNT + ROUND_PENALTY);
    assert_eq!(a.cross_type_sibling_penalty, CROSS_TYPE_ROUND_DISCOUNT);
    assert_eq!(b.age, MAX_AGE);
    assert_eq!(b.penalty, ROUND_DISCOUNT);
    assert!(shaped(a) < shaped(b));
    let ranking = all_candidates(&states, &shaped_all(&states));
    assert_eq!(c.maps[ranking.entries[0].1].id, 2);
    assert_eq!(c.maps[ranking.entries[1].1].id, 1);
    assert!(ranking.entries[1].0 < ranking.entries[0].0);
}

#[test]
fn weights_sum_to_total() {
    let c = catalog(vec![
        group(1, "A", vec![variant(1, "TD", 16), variant(2, "DM", 12), variant(3, "TD", 8)]),
        group(2, "B", vec![variant(4, "TD", 16), variant(5, "BR", 16)]),
    ]);
    let log = history(&c, &[1, 5, 2, 4, 1, 3]);
    let states = build_scores(&log, Mode::TD, 0, &c.maps).unwrap();
    let ranking = all_candidates(&states, &shaped_all(&states));
    let sum: u128 = ranking.entries.iter().map(|e| e.0 as u128).sum();
    assert_eq!(sum, ranking.total);
    let weights: f64 = ranking.entries.iter().map(|e| e.0 as f64 / ranking.total as f64).sum();
    assert!((weights - 1.0).abs() < 1e-9);
}

#[test]
fn scores_are_clamped_into_range() {
    let c = catalog(vec![group(1, "A", vec![variant(1, "TD", 16), variant(2, "TD", 16), variant(3, "TD", 16)])]);
    let states = get_appropriate_maps(Mode::TD, 16, &c.maps);
    let ranking = all_candidates(&states, &vec![0, u64::MAX, 5_000_000]);
    assert_eq!(ranking.entries, vec![(MAX_SCORE, 1), (5_000_000, 2), (MIN_SCORE, 0)]);
    assert_eq!(states[0].final_score(0), (1000, 0));
    assert_eq!(states[0].final_score(100_000_000_001), (100_000_000_000, 0));
    assert_eq!(states[0].final_score(1234), (1234, 0));
}

#[test]
fn ranking_twice_gives_the_same_result() {
    let c = catalog(vec![
        group(1, "A", vec![variant(1, "TD", 16), variant(2, "DM", 16)]),
        group(2, "B", vec![variant(3, "TD", 16), variant(4, "TD", 10)]),
    ]);
    let log = history(&c, &[2, 3, 1]);
    let first_states = build_scores(&log, Mode::TD, 10, &c.maps).unwrap();
    let second_states = build_scores(&log, Mode::TD, 10, &c.maps).unwrap();
    assert_eq!(first_states, second_states);
    let first = all_candidates(&first_states, &shaped_all(&first_states));
    let second = all_candidates(&second_states, &shaped_all(&second_states));
    assert_eq!(first.entries, second.entries);
    assert_eq!(first.total, second.total);
}

#[test]
fn sampling_never_repeats_a_map() {
    let ranked: Vec<(u64, usize)> = vec![(500, 4), (400, 1), (300, 0), (200, 3), (100, 2)];
    for seed in 0..50u128 {
        let draws = vec![seed * 7919, seed * 104729 + 13, seed * 31 + 5, seed];
        let picked = pick_with_draws(&ranked, 4, &draws);
        assert_eq!(picked.len(), 4);
        let mut positions: Vec<usize> = picked.iter().map(|p| p.1).collect();
        positions.sort();
        positions.dedup();
        assert_eq!(positions.len(), 4);
    }
    let picked = pick_random_maps(&ranked, 5).unwrap();
    assert_eq!(picked, ranked);
}

#[test]
fn draws_select_by_running_remainder() {
    let ranked: Vec<(u64, usize)> = vec![(50, 0), (30, 1), (20, 2)];
    // 0 selects the first; 50 is still the first (remainder reaches 0);
    // 51 is the second; 99 is the last.
    assert_eq!(pick_with_draws(&ranked, 1, &vec![0]), vec![(50, 0)]);
    assert_eq!(pick_with_draws(&ranked, 1, &vec![50]), vec![(50, 0)]);
    assert_eq!(pick_with_draws(&ranked, 1, &vec![51]), vec![(30, 1)]);
    assert_eq!(pick_with_draws(&ranked, 1, &vec![99]), vec![(20, 2)]);
    assert_eq!(pick_with_draws(&ranked, 1, &vec![100]), vec![(50, 0)]);
    // After the first draw removes (50, 0), 31 of the remaining 50 selects (20, 2);
    // the result is ordered by descending score.
    assert_eq!(pick_with_draws(&ranked, 2, &vec![0, 31]), vec![(50, 0), (20, 2)]);
}

#[test]
fn too_few_candidates_is_an_error() {
    let ranked: Vec<(u64, usize)> = vec![(5, 0), (3, 1)];
    assert_eq!(
        pick_random_maps(&ranked, 3),
        Err(EngineError::InsufficientCandidates { requested: 3, available: 2 })
    );
}

#[test]
fn no_candidates_is_an_error() {
    let c = catalog(vec![group(1, "A", vec![variant(1, "TD", 12)])]);
    assert_eq!(build_scores(&vec![], Mode::TD, 16, &c.maps), Err(EngineError::EmptyCandidateSet));
    assert_eq!(build_scores(&vec![], Mode::DM, 8, &c.maps), Err(EngineError::EmptyCandidateSet));
}

#[test]
fn replaying_a_map_raises_its_penalty() {
    let c = catalog(vec![
        group(1, "A", vec![variant(1, "TD", 16), variant(2, "TD", 16)]),
        group(2, "B", vec![variant(3, "TD", 16)]),
    ]);
    let before = build_scores(&history(&c, &[1, 3, 2]), Mode::TD, 16, &c.maps).unwrap();
    let after = build_scores(&history(&c, &[1, 3, 2, 1]), Mode::TD, 16, &c.maps).unwrap();
    let x_before = before.iter().find(|s| s.id == 1).unwrap();
    let x_after = after.iter().find(|s| s.id == 1).unwrap();
    assert_eq!(x_after.age, 1);
    assert!(x_after.age <= x_before.age);
    assert!(x_after.penalty > x_before.penalty);
    assert!(shaped(x_after) < shaped(x_before));
}

#[test]
fn cross_mode_play_penalizes_less() {
    let c = catalog(vec![group(
        1,
        "A",
        vec![variant(1, "TD", 16), variant(2, "DM", 16), variant(3, "TD", 16)],
    )]);
    let after_cross = build_scores(&history(&c, &[2]), Mode::TD, 16, &c.maps).unwrap();
    let after_same = build_scores(&history(&c, &[3]), Mode::TD, 16, &c.maps).unwrap();
    let b_cross = after_cross.iter().find(|s| s.id == 1).unwrap();
    let b_same = after_same.iter().find(|s| s.id == 1).unwrap();
    assert_eq!(b_cross.age, b_same.age);
    assert_eq!(b_cross.cross_type_sibling_penalty, CROSS_TYPE_ROUND_DISCOUNT + 600 * FIXED_ONE);
    assert_eq!(b_same.penalty, ROUND_DISCOUNT + ROUND_PENALTY);
    assert!(
        b_cross.penalty + b_cross.cross_type_sibling_penalty
            < b_same.penalty + b_same.cross_type_sibling_penalty
    );
    assert!(shaped(b_cross) > shaped(b_same));
}

#[test]
fn age_is_capped_and_counts_rounds() {
    let c = catalog(vec![
        group(1, "A", vec![variant(1, "TD", 16)]),
        group(2, "B", vec![variant(2, "TD", 16)]),
    ]);
    let states = build_scores(&history(&c, &[1, 2, 2, 2]), Mode::TD, 16, &c.maps).unwrap();
    let a = states.iter().find(|s| s.id == 1).unwrap();
    assert_eq!(a.age, 4);
    let mut long = vec![1u16];
    long.extend(std::iter::repeat(2u16).take(250));
    let states = build_scores(&history(&c, &long), Mode::TD, 16, &c.maps).unwrap();
    let a = states.iter().find(|s| s.id == 1).unwrap();
    assert_eq!(a.age, MAX_AGE);
}

#[test]
fn eligibility_filters_mode_and_capacity() {
    let c = catalog(vec![group(
        1,
        "A",
        vec![variant(1, "TD", 16), variant(2, "TD", 10), variant(3, "DM", 16), variant(4, "TD", 12)],
    )]);
    let states = get_appropriate_maps(Mode::TD, 12, &c.maps);
    let ids: Vec<u16> = states.iter().map(|s| s.id).collect();
    assert_eq!(ids, vec![1, 4]);
    assert_eq!(states[1].map, 3);
    assert_eq!(states[0].age, MAX_AGE);
    assert_eq!(states[0].penalty, FIXED_ONE);
}

#[test]
fn sort_keeps_ties_in_order() {
    let v: Vec<(u64, usize)> = vec![(5, 0), (7, 1), (5, 2), (9, 3), (7, 4)];
    assert_eq!(sort_scores(&v), vec![(9, 3), (7, 1), (7, 4), (5, 0), (5, 2)]);
}

#[test]
fn map_played_applies_one_round() {
    let c = catalog(vec![group(1, "A", vec![variant(1, "Siege", 16), variant(2, "TD", 16)])]);
    let mut s = get_appropriate_maps(Mode::Siege, 16, &c.maps)[0];
    s.map_played(&c.maps[1]);
    assert_eq!(s.age, MAX_AGE);
    assert_eq!(s.penalty, ROUND_DISCOUNT);
    assert_eq!(s.cross_type_sibling_penalty, CROSS_TYPE_ROUND_DISCOUNT + 100 * FIXED_ONE);
}

#[test]
fn recommend_single_candidate() {
    let c = catalog(vec![group(1, "Arena", vec![variant(10, "TD", 16), variant(11, "DM", 16)])]);
    let states = build_scores(&vec![], Mode::TD, 16, &c.maps).unwrap();
    let (ranking, picks) = recommend(&states, &shaped_all(&states), 1).unwrap();
    assert_eq!(picks.len(), 1);
    assert_eq!(c.maps[picks[0].1].id, 10);
    assert_eq!(picks[0].0 as f64 / ranking.total as f64, 1.0);
    assert_eq!(
        recommend(&states, &shaped_all(&states), 2).unwrap_err(),
        EngineError::InsufficientCandidates { requested: 2, available: 1 }
    );
}

#[test]
fn recommend_three_of_four() {
    let c = catalog(vec![group(
        1,
        "A",
        vec![variant(1, "TD", 16), variant(2, "TD", 16), variant(3, "TD", 16), variant(4, "TD", 16)],
    )]);
    let states = get_appropriate_maps(Mode::TD, 16, &c.maps);
    let (ranking, picks) = recommend(&states, &vec![7_000_000; 4], 3).unwrap();
    assert_eq!(ranking.total, 28_000_000);
    assert_eq!(picks.len(), 3);
    for p in &picks {
        assert_eq!(p.0, 7_000_000);
    }
    assert!(picks[0].1 != picks[1].1 && picks[1].1 != picks[2].1 && picks[0].1 != picks[2].1);
}

#[test]
fn smallest_penalties_stay_positive() {
    let c = catalog(vec![
        group(1, "A", vec![variant(1, "TD", 16)]),
        group(2, "B", vec![variant(2, "TD", 16)]),
    ]);
    let mut s = get_appropriate_maps(Mode::TD, 16, &c.maps)[0];
    s.penalty = 1;
    s.cross_type_sibling_penalty = 1;
    s.map_played(&c.maps[1]);
    assert_eq!(s.penalty, 1);
    assert_eq!(s.cross_type_sibling_penalty, 1);
    let mut long = vec![1u16];
    long.extend(std::iter::repeat(2u16).take(10_000));
    let states = build_scores(&history(&c, &long), Mode::TD, 16, &c.maps).unwrap();
    for st in &states {
        assert!(st.penalty >= 1 && st.cross_type_sibling_penalty >= 1);
    }
    assert!(shaped(&states[0]) > 0);
}

#[test]
fn default_mode_follows_the_newest_entry() {
    let c = catalog(vec![group(1, "A", vec![variant(1, "Captain", 16), variant(2, "Siege", 16)])]);
    assert_eq!(default_mode(&vec![]), Mode::TD);
    assert_eq!(default_mode(&history(&c, &[2, 1])), Mode::Siege);
    assert_eq!(default_mode(&history(&c, &[1, 2])), Mode::TD);
}
