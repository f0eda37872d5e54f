use maze_bot::client::{move_command_line, parse_answer, Answer};
use maze_bot::MoveDirection;

#[test]
fn parses_position_reports() {
    match parse_answer("pos|3|4|1|0|0|1") {
        Some(Answer::Pos(p, w)) => {
            assert_eq!((p.x, p.y), (3, 4));
            assert!(w.top && !w.right && !w.bottom && w.left);
        },
        _ => panic!("expected a position report"),
    }
}

#[test]
fn parses_goal_and_game_lines() {
    match parse_answer("goal|9|9") {
        Some(Answer::Goal(p)) => assert_eq!((p.x, p.y), (9, 9)),
        _ => panic!("expected a goal"),
    }
    match parse_answer("game|1|2|3|4") {
        Some(Answer::Game(a, b)) => {
            assert_eq!((a.x, a.y), (1, 2));
            assert_eq!((b.x, b.y), (3, 4));
        },
        _ => panic!("expected a game line"),
    }
}

#[test]
fn parses_texts_and_scores() {
    match parse_answer("motd|hello world") {
        Some(Answer::Motd(m)) => assert_eq!(m, "hello world"),
        _ => panic!("expected a motd"),
    }
    match parse_answer("error|bad move") {
        Some(Answer::Error(m)) => assert_eq!(m, "bad move"),
        _ => panic!("expected an error"),
    }
    match parse_answer("win|1|2") {
        Some(Answer::Win(a, b)) => assert_eq!((a, b), (1, 2)),
        _ => panic!("expected a win"),
    }
    match parse_answer("lose|3|4") {
        Some(Answer::Lose(a, b)) => assert_eq!((a, b), (3, 4)),
        _ => panic!("expected a lose"),
    }
}

#[test]
fn missing_fields_take_defaults() {
    match parse_answer("pos") {
        Some(Answer::Pos(p, w)) => {
            assert_eq!((p.x, p.y), (0, 0));
            assert!(!w.top && !w.right && !w.bottom && !w.left);
        },
        _ => panic!("expected a position report"),
    }
    match parse_answer("motd") {
        Some(Answer::Motd(m)) => assert_eq!(m, ""),
        _ => panic!("expected a motd"),
    }
    match parse_answer("goal|7") {
        Some(Answer::Goal(p)) => assert_eq!((p.x, p.y), (7, 0)),
        _ => panic!("expected a goal"),
    }
}

#[test]
fn malformed_numbers_default_to_zero() {
    match parse_answer("goal|abc|12x") {
        Some(Answer::Goal(p)) => assert_eq!((p.x, p.y), (0, 0)),
        _ => panic!("expected a goal"),
    }
    // Overflowing values do not parse.
    match parse_answer("goal|4294967296|4294967295") {
        Some(Answer::Goal(p)) => assert_eq!((p.x, p.y), (0, 4294967295)),
        _ => panic!("expected a goal"),
    }
    // A leading plus sign is accepted, as the standard parser accepts it.
    match parse_answer("goal|+7|") {
        Some(Answer::Goal(p)) => assert_eq!((p.x, p.y), (7, 0)),
        _ => panic!("expected a goal"),
    }
}

#[test]
fn wall_flags_require_exactly_one() {
    match parse_answer("pos|0|0|1|01|2|") {
        Some(Answer::Pos(_, w)) => {
            assert!(w.top && !w.right && !w.bottom && !w.left);
        },
        _ => panic!("expected a position report"),
    }
}

#[test]
fn unknown_and_empty_lines_parse_to_nothing() {
    assert!(parse_answer("").is_none());
    assert!(parse_answer("bogus|1|2").is_none());
    assert!(parse_answer("POS|1|2").is_none());
    assert!(parse_answer("|pos").is_none());
}

#[test]
fn move_lines_are_rendered_verbatim() {
    assert_eq!(move_command_line(&MoveDirection::Up), "move|up\n");
    assert_eq!(move_command_line(&MoveDirection::Right), "move|right\n");
    assert_eq!(move_command_line(&MoveDirection::Down), "move|down\n");
    assert_eq!(move_command_line(&MoveDirection::Left), "move|left\n");
}
