use maze_bot::algorithm::{decide_action, State};
use maze_bot::client::{Answer, Command};
use maze_bot::{AlgorithmConfig, MoveDirection, Position, Walls};

fn pos(x: u32, y: u32) -> Position {
    Position { x, y }
}

fn walls(top: bool, right: bool, bottom: bool, left: bool) -> Walls {
    Walls { top, right, bottom, left }
}

fn lenient() -> AlgorithmConfig {
    AlgorithmConfig {
        heuristic_cut: u64::MAX,
        heuristic_decline_length: 0,
        heuristic_decline_cut: 10_000,
    }
}

fn moved(r: Option<Command<'static>>) -> Option<MoveDirection> {
    match r {
        Some(Command::Move(d)) => Some(d),
        _ => None,
    }
}

#[test]
fn idle_without_a_position() {
    let mut s = State::new();
    assert!(decide_action(&mut s, &lenient()).is_none());
    s.update_from_answer(&Answer::Goal(pos(3, 3)));
    assert!(decide_action(&mut s, &lenient()).is_none());
}

#[test]
fn exhausted_single_cell_run_yields_no_command() {
    // A 1x1 playground whose only cell has all four walls set: the very
    // first decision tick must produce nothing and must not crash.
    let mut s = State::new();
    s.update_from_answer(&Answer::Goal(pos(0, 0)));
    s.update_from_answer(&Answer::Pos(pos(0, 0), walls(true, true, true, true)));
    assert!(decide_action(&mut s, &lenient()).is_none());
    assert_eq!(s.heuristics_stack.len(), 0);
}

#[test]
fn never_proposes_a_walled_direction() {
    // From the start cell only Left is open; the decision must be Left.
    let mut s = State::new();
    s.update_from_answer(&Answer::Goal(pos(0, 0)));
    s.update_from_answer(&Answer::Pos(pos(1, 1), walls(true, true, true, false)));
    let r = decide_action(&mut s, &lenient());
    assert_eq!(moved(r), Some(MoveDirection::Left));
    assert_eq!(s.heuristics_stack.len(), 1);
}

#[test]
fn backtracks_toward_the_recorded_parent() {
    // Walk from (1, 1) to (1, 0); there every direction is walled, so the
    // engine must step back toward the parent, which lies Down.
    let mut s = State::new();
    s.update_from_answer(&Answer::Goal(pos(9, 9)));
    s.update_from_answer(&Answer::Pos(pos(1, 1), walls(false, false, false, false)));
    s.update_from_answer(&Answer::Pos(pos(1, 0), walls(true, true, true, true)));
    s.heuristics_stack.push(7777);
    let r = decide_action(&mut s, &lenient());
    assert_eq!(moved(r), Some(MoveDirection::Down));
    // Backtracking pops the history.
    assert_eq!(s.heuristics_stack.len(), 0);
}

#[test]
fn visited_cells_are_not_proposed_again() {
    // From (1, 0) the cell (1, 1) is open but already visited; the walls
    // block everything else, so the engine backtracks rather than revisit.
    let mut s = State::new();
    s.update_from_answer(&Answer::Goal(pos(9, 9)));
    s.update_from_answer(&Answer::Pos(pos(1, 1), walls(false, false, false, false)));
    s.update_from_answer(&Answer::Pos(pos(1, 0), walls(true, true, false, true)));
    let r = decide_action(&mut s, &lenient());
    assert_eq!(moved(r), Some(MoveDirection::Down));
}

#[test]
fn a_harsh_cut_rejects_every_candidate() {
    let harsh = AlgorithmConfig {
        heuristic_cut: 0,
        heuristic_decline_length: 0,
        heuristic_decline_cut: 10_000,
    };
    let mut s = State::new();
    s.update_from_answer(&Answer::Goal(pos(0, 0)));
    s.update_from_answer(&Answer::Pos(pos(1, 1), walls(false, false, false, false)));
    // No candidate scores at most zero, and the start cell has no parent.
    assert!(decide_action(&mut s, &harsh).is_none());
}

#[test]
fn ties_break_in_enumeration_order() {
    // Goal in the far corner, two mirror-image candidates (Right and Down)
    // with equal scores: the enumeration order Up, Right, Down, Left puts
    // Right first.
    let mut s = State::new();
    s.update_from_answer(&Answer::Goal(pos(9, 9)));
    s.update_from_answer(&Answer::Pos(pos(0, 9), walls(true, false, false, true)));
    // start is (0, 9), so the inferred playground bound is (9, 9).
    let r = decide_action(&mut s, &lenient());
    assert_eq!(moved(r), Some(MoveDirection::Right));
}

#[test]
fn forward_move_records_its_score() {
    let mut s = State::new();
    s.update_from_answer(&Answer::Goal(pos(9, 9)));
    s.update_from_answer(&Answer::Pos(pos(0, 9), walls(false, false, false, false)));
    let r = decide_action(&mut s, &lenient());
    assert!(moved(r).is_some());
    assert_eq!(s.heuristics_stack.len(), 1);
    let first = s.heuristics_stack[0];
    assert!(first > 0);
}
