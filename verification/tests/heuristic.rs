use maze_bot::algorithm::{calculate_position_heuristic, decline_guard_pass};
use maze_bot::helper::{calculate_distance, distance_from_line, isqrt};
use maze_bot::{AlgorithmConfig, Position};

fn pos(x: u32, y: u32) -> Position {
    Position { x, y }
}

#[test]
fn integer_square_roots() {
    assert_eq!(isqrt(0), 0);
    assert_eq!(isqrt(1), 1);
    assert_eq!(isqrt(3), 1);
    assert_eq!(isqrt(4), 2);
    assert_eq!(isqrt(99), 9);
    assert_eq!(isqrt(100_000_000), 10_000);
    assert_eq!(isqrt(u64::MAX as u128), 4294967295);
}

#[test]
fn fixed_point_distances() {
    // A 3-4-5 triangle: the distance is exactly 5, scaled by 10000.
    assert_eq!(calculate_distance(&pos(0, 0), &pos(3, 4)), 50_000);
    assert_eq!(calculate_distance(&pos(7, 7), &pos(7, 7)), 0);
    // sqrt(2) in fixed point.
    assert_eq!(calculate_distance(&pos(0, 0), &pos(1, 1)), 14_142);
    // The largest coordinates still compute exactly.
    assert_eq!(
        calculate_distance(&pos(0, 0), &pos(u32::MAX, 0)),
        (u32::MAX as u64) * 10_000
    );
}

#[test]
fn fixed_point_line_distances() {
    // Point (0, 5) against the horizontal line through (0, 0) and (10, 0).
    assert_eq!(distance_from_line(&pos(0, 5), &pos(0, 0), &pos(10, 0)), 50_000);
    // A point on the line.
    assert_eq!(distance_from_line(&pos(4, 4), &pos(0, 0), &pos(10, 10)), 0);
    // A degenerate line (two equal points) has distance zero by definition.
    assert_eq!(distance_from_line(&pos(3, 1), &pos(2, 2), &pos(2, 2)), 0);
}

#[test]
fn symmetric_candidates_score_identically() {
    // Empty 10x10 playground, goal in the far corner, player at the origin:
    // stepping right and stepping down are mirror images and must score the
    // same, and both must beat staying near the origin with a longer
    // residual way.
    let size = pos(9, 9);
    let goal = pos(9, 9);
    let right = calculate_position_heuristic(&pos(1, 0), &goal, &size, Some(17), 99);
    let down = calculate_position_heuristic(&pos(0, 1), &goal, &size, Some(17), 99);
    assert_eq!(right, down);
    let stay = calculate_position_heuristic(&pos(0, 0), &goal, &size, Some(19), 99);
    assert!(right < stay);
}

#[test]
fn heuristic_exact_value() {
    // diagonal = isqrt(162e8) scaled; goal term 120415/12, path term
    // isqrt(17e8/144), offset 5*10^4/7/12, frontier isqrt(99e8).
    let size = pos(9, 9);
    let goal = pos(9, 9);
    let sc = calculate_position_heuristic(&pos(1, 0), &goal, &size, Some(17), 99);
    assert_eq!(sc, 5249);
}

#[test]
fn unreachable_goal_draws_the_full_path_penalty() {
    let size = pos(9, 9);
    let goal = pos(9, 9);
    let reachable = calculate_position_heuristic(&pos(1, 0), &goal, &size, Some(17), 99);
    let unreachable = calculate_position_heuristic(&pos(1, 0), &goal, &size, None, 99);
    assert!(unreachable > reachable);
}

#[test]
fn degenerate_playground_scores_worst() {
    let sc = calculate_position_heuristic(&pos(0, 0), &pos(1, 1), &pos(0, 0), Some(1), 1);
    assert_eq!(sc, u64::MAX);
}

#[test]
fn decline_guard_scenario() {
    // Recent scores 0.2 and 0.3, a lookback of two and a ratio of 1.5:
    // a candidate at 0.5 is rejected (0.5 > 1.5 * 0.2), one at 0.29 passes.
    let cfg = AlgorithmConfig {
        heuristic_cut: u64::MAX,
        heuristic_decline_length: 2,
        heuristic_decline_cut: 15_000,
    };
    let stack = vec![2_000u64, 3_000u64];
    assert!(!decline_guard_pass(&stack, &cfg, 5_000));
    assert!(decline_guard_pass(&stack, &cfg, 2_900));
    assert!(decline_guard_pass(&stack, &cfg, 3_000));
}

#[test]
fn decline_guard_looks_back_only_so_far() {
    let cfg = AlgorithmConfig {
        heuristic_cut: u64::MAX,
        heuristic_decline_length: 2,
        heuristic_decline_cut: 15_000,
    };
    // The old best of 0.1 lies outside the lookback of two.
    let stack = vec![1_000u64, 4_000, 4_000];
    assert!(decline_guard_pass(&stack, &cfg, 5_000));
}

#[test]
fn empty_history_passes_everything() {
    let cfg = AlgorithmConfig {
        heuristic_cut: u64::MAX,
        heuristic_decline_length: 2,
        heuristic_decline_cut: 15_000,
    };
    assert!(decline_guard_pass(&Vec::new(), &cfg, u64::MAX));
    // A lookback of zero ignores the history altogether.
    let zero = AlgorithmConfig {
        heuristic_cut: u64::MAX,
        heuristic_decline_length: 0,
        heuristic_decline_cut: 15_000,
    };
    assert!(decline_guard_pass(&vec![1u64], &zero, u64::MAX));
}
