use maze_bot::algorithm::State;
use maze_bot::client::Answer;
use maze_bot::{Position, Walls};

fn pos(x: u32, y: u32) -> Position {
    Position { x, y }
}

fn open_walls() -> Walls {
    Walls { top: false, right: false, bottom: false, left: false }
}

#[test]
fn first_position_becomes_start_and_root() {
    let mut s = State::new();
    s.update_from_answer(&Answer::Goal(pos(5, 5)));
    s.update_from_answer(&Answer::Pos(pos(2, 2), open_walls()));
    assert_eq!(s.start_pos, Some(pos(2, 2)));
    assert_eq!(s.current_pos, Some(pos(2, 2)));
    assert_eq!(s.last_pos, None);
    assert_eq!(s.visited_positions.len(), 1);
    assert_eq!(s.visited_positions.get(&pos(2, 2)), Some(None));
}

#[test]
fn transitions_record_parents() {
    let mut s = State::new();
    s.update_from_answer(&Answer::Goal(pos(5, 5)));
    s.update_from_answer(&Answer::Pos(pos(2, 2), open_walls()));
    s.update_from_answer(&Answer::Pos(pos(2, 1), open_walls()));
    s.update_from_answer(&Answer::Pos(pos(2, 0), open_walls()));
    assert_eq!(s.visited_positions.get(&pos(2, 2)), Some(None));
    assert_eq!(s.visited_positions.get(&pos(2, 1)), Some(Some(pos(2, 2))));
    assert_eq!(s.visited_positions.get(&pos(2, 0)), Some(Some(pos(2, 1))));
    assert_eq!(s.current_pos, Some(pos(2, 0)));
    assert_eq!(s.last_pos, Some(pos(2, 1)));
}

#[test]
fn parents_are_never_reassigned() {
    let mut s = State::new();
    s.update_from_answer(&Answer::Goal(pos(5, 5)));
    s.update_from_answer(&Answer::Pos(pos(2, 2), open_walls()));
    s.update_from_answer(&Answer::Pos(pos(2, 1), open_walls()));
    // Walk back to the start cell and away again: the records must not move.
    s.update_from_answer(&Answer::Pos(pos(2, 2), open_walls()));
    s.update_from_answer(&Answer::Pos(pos(3, 2), open_walls()));
    s.update_from_answer(&Answer::Pos(pos(2, 2), open_walls()));
    s.update_from_answer(&Answer::Pos(pos(2, 1), open_walls()));
    assert_eq!(s.visited_positions.get(&pos(2, 2)), Some(None));
    assert_eq!(s.visited_positions.get(&pos(2, 1)), Some(Some(pos(2, 2))));
    assert_eq!(s.visited_positions.get(&pos(3, 2)), Some(Some(pos(2, 2))));
    assert_eq!(s.visited_positions.len(), 3);
}

#[test]
fn duplicate_echo_changes_nothing() {
    let mut s = State::new();
    s.update_from_answer(&Answer::Goal(pos(5, 5)));
    s.update_from_answer(&Answer::Pos(pos(2, 2), open_walls()));
    s.update_from_answer(&Answer::Pos(pos(2, 1), open_walls()));
    let before_len = s.visited_positions.len();
    let with_wall = Walls { top: true, right: false, bottom: false, left: false };
    // Re-reporting the current cell is a no-op, even with other walls.
    s.update_from_answer(&Answer::Pos(pos(2, 1), with_wall));
    assert_eq!(s.current_pos, Some(pos(2, 1)));
    assert_eq!(s.last_pos, Some(pos(2, 2)));
    assert_eq!(s.visited_positions.len(), before_len);
    let w = s.current_walls.clone().unwrap();
    assert!(!w.top);
}

#[test]
fn goal_resets_everything_but_the_goal() {
    let mut s = State::new();
    s.update_from_answer(&Answer::Goal(pos(5, 5)));
    s.update_from_answer(&Answer::Pos(pos(2, 2), open_walls()));
    s.update_from_answer(&Answer::Pos(pos(2, 1), open_walls()));
    s.heuristics_stack.push(1234);
    s.update_from_answer(&Answer::Goal(pos(7, 7)));
    assert_eq!(s.current_pos, None);
    assert_eq!(s.last_pos, None);
    assert_eq!(s.start_pos, None);
    assert!(s.current_walls.is_none());
    assert_eq!(s.current_goal, Some(pos(7, 7)));
    assert_eq!(s.visited_positions.len(), 0);
    assert_eq!(s.heuristics_stack.len(), 0);
}

#[test]
fn double_goal_equals_single_goal() {
    let mut a = State::new();
    a.update_from_answer(&Answer::Goal(pos(1, 2)));
    a.update_from_answer(&Answer::Pos(pos(2, 2), open_walls()));
    a.update_from_answer(&Answer::Goal(pos(7, 7)));
    a.update_from_answer(&Answer::Goal(pos(7, 7)));

    let mut b = State::new();
    b.update_from_answer(&Answer::Goal(pos(1, 2)));
    b.update_from_answer(&Answer::Pos(pos(2, 2), open_walls()));
    b.update_from_answer(&Answer::Goal(pos(7, 7)));

    assert_eq!(a.current_pos, b.current_pos);
    assert_eq!(a.last_pos, b.last_pos);
    assert_eq!(a.start_pos, b.start_pos);
    assert_eq!(a.current_goal, b.current_goal);
    assert!(a.current_walls.is_none() && b.current_walls.is_none());
    assert_eq!(a.visited_positions.len(), 0);
    assert_eq!(b.visited_positions.len(), 0);
    assert_eq!(a.heuristics_stack, b.heuristics_stack);
}

#[test]
fn informational_answers_are_ignored() {
    let mut s = State::new();
    s.update_from_answer(&Answer::Goal(pos(5, 5)));
    s.update_from_answer(&Answer::Pos(pos(2, 2), open_walls()));
    s.update_from_answer(&Answer::Motd(String::from("hello")));
    s.update_from_answer(&Answer::Error(String::from("oops")));
    s.update_from_answer(&Answer::Win(1, 2));
    s.update_from_answer(&Answer::Lose(3, 4));
    s.update_from_answer(&Answer::Game(pos(1, 1), pos(2, 2)));
    assert_eq!(s.current_pos, Some(pos(2, 2)));
    assert_eq!(s.current_goal, Some(pos(5, 5)));
    assert_eq!(s.visited_positions.len(), 1);
}
