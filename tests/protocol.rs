use maze_bot::geometry::{Direction, Position};
use maze_bot::proto::{GpnError, Proto};
use std::str::FromStr;

#[test]
fn parses_position_report() {
    match Proto::parse_line("pos|3|4|1|0|1|0") {
        Ok(Proto::Pos { pos, space }) => {
            assert_eq!(pos, Position::new(3, 4));
            assert_eq!(space, vec![Direction::Right, Direction::Left]);
        }
        other => panic!("unexpected {:?}", other),
    }
}

#[test]
fn parses_game_goal_and_scores() {
    match Proto::from_str("game|10|-2|+7|0") {
        Ok(Proto::Game { width, height, goal }) => {
            assert_eq!((width, height), (10, -2));
            assert_eq!(goal, Position::new(7, 0));
        }
        other => panic!("unexpected {:?}", other),
    }
    assert!(matches!(Proto::parse_line("goal|1|2"), Ok(Proto::Goal { pos }) if pos == Position::new(1, 2)));
    assert!(matches!(Proto::parse_line("win|5|2"), Ok(Proto::Win { wins: 5, loses: 2 })));
    assert!(matches!(Proto::parse_line("lose|0|9"), Ok(Proto::Lose { wins: 0, loses: 9 })));
}

#[test]
fn parses_text_messages() {
    assert!(matches!(Proto::parse_line("chat|hello there"), Ok(Proto::Chat { message }) if message == "hello there"));
    assert!(matches!(Proto::parse_line("motd|be nice"), Ok(Proto::Motd { message }) if message == "be nice"));
    assert!(matches!(Proto::parse_line("chat|"), Ok(Proto::Chat { message }) if message.is_empty()));
}

#[test]
fn rejects_bad_numbers() {
    assert!(matches!(Proto::parse_line("pos|x|4|1|0|1|0"), Err(GpnError::ParseError(_))));
    assert!(matches!(Proto::parse_line("win|5|"), Err(GpnError::ParseError(_))));
    assert!(matches!(Proto::parse_line("game|1|1|1|99999999999"), Err(GpnError::ParseError(_))));
    assert!(matches!(Proto::parse_line("goal| 1|2"), Err(GpnError::ParseError(_))));
}

#[test]
fn classifies_errors_and_unknown_lines() {
    assert!(matches!(Proto::parse_line("error|you are kicked"), Err(GpnError::Soft(m)) if m == "Received Error : error|you are kicked"));
    assert!(matches!(Proto::parse_line("hello|x"), Err(GpnError::Unknown(m)) if m == "Unknown Proto message : hello|x"));
    assert!(matches!(Proto::parse_line("error"), Err(GpnError::Soft(_))));
    assert!(matches!(Proto::parse_line("chat|a|b"), Err(GpnError::Unknown(_))));
    assert!(matches!(Proto::parse_line("pos|1|2"), Err(GpnError::Unknown(_))));
    assert!(matches!(Proto::parse_line(""), Err(GpnError::Unknown(_))));
    assert!(matches!(Proto::parse_line("hello"), Err(GpnError::Unknown(_))));
}

#[test]
fn position_from_fields() {
    assert_eq!(Position::parse(&["12", "-3"]).unwrap(), Position::new(12, -3));
    assert_eq!(Position::parse(&["2147483647", "-2147483648", "x"]).unwrap(), Position::new(i32::MAX, i32::MIN));
    assert!(Position::parse(&["2147483648", "0"]).is_err());
    assert!(Position::parse(&["1", "+"]).is_err());
}
