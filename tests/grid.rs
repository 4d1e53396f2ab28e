use maze_bot::geometry::{Direction, Position};
use maze_bot::grid::{Cell, State};

#[test]
fn reset_sizes_and_marks_goal() {
    let mut st = State::new();
    st.reset(3, 1, Position::new(3, 0));
    assert_eq!(st.map.len(), 4);
    assert!(st.map.iter().all(|row| row.len() == 2));
    assert_eq!(st.map[3][0], Cell::Goal);
    assert_eq!(st.map[0][1], Cell::Unexplored);
    assert_eq!(st.size, (3, 1));
    assert_eq!(st.start, Position::new(0, 0));
    assert_eq!(st.goal, Position::new(3, 0));
}

#[test]
fn bounds() {
    let mut st = State::new();
    st.reset(2, 0, Position::new(2, 0));
    assert!(st.in_bounds(&Position::new(0, 0)));
    assert!(st.in_bounds(&Position::new(2, 0)));
    assert!(!st.in_bounds(&Position::new(3, 0)));
    assert!(!st.in_bounds(&Position::new(0, 1)));
    assert!(!st.in_bounds(&Position::new(-1, 0)));
}

#[test]
fn passages_and_start() {
    let mut st = State::new();
    st.reset(2, 2, Position::new(2, 2));
    st.mark_passage(&Position::new(0, 0), 6, true);
    st.mark_passage(&Position::new(1, 0), 10, false);
    st.mark_passage(&Position::new(2, 2), 9, false);
    st.mark_passage(&Position::new(5, 5), 9, false);
    assert_eq!(st.map[0][0], Cell::Start);
    assert_eq!(st.map[1][0], Cell::Passage(10));
    assert_eq!(st.map[2][2], Cell::Goal);
    assert_eq!(st.map[1][0].code(), 10);
    assert_eq!(Direction::into_char(st.map[2][2].code()), 'G');
}

#[test]
fn flooding_spares_start_and_goal() {
    let mut st = State::new();
    st.reset(2, 2, Position::new(2, 2));
    st.mark_passage(&Position::new(0, 0), 6, true);
    st.mark_passage(&Position::new(1, 0), 10, false);
    st.mark_flooded(&vec![Position::new(0, 0), Position::new(1, 0), Position::new(2, 2), Position::new(0, 2), Position::new(7, 7)]);
    assert_eq!(st.map[0][0], Cell::Start);
    assert_eq!(st.map[1][0], Cell::Flooded);
    assert_eq!(st.map[2][2], Cell::Goal);
    assert_eq!(st.map[0][2], Cell::Flooded);
    assert_eq!(st.map[1][1], Cell::Unexplored);
    assert_eq!(st.map[0][2].code(), Direction::FLOODED);
}

#[test]
fn best_ratio_is_kept() {
    let mut st = State::new();
    st.update_score(2, 1);
    assert_eq!((st.wins, st.loses), (2, 1));
    st.update_score(5, 2);
    assert_eq!((st.wins, st.loses), (5, 2));
    st.update_score(3, 3);
    assert_eq!((st.wins, st.loses), (5, 2));
}

#[test]
fn ratio_edge_cases() {
    let mut st = State::new();
    st.update_score(0, 0);
    assert_eq!((st.wins, st.loses), (0, 0));
    st.update_score(0, 4);
    assert_eq!((st.wins, st.loses), (0, 4));
    st.update_score(1, 0);
    assert_eq!((st.wins, st.loses), (1, 0));
    st.update_score(100, 1);
    assert_eq!((st.wins, st.loses), (1, 0));
    st.update_score(2, 0);
    assert_eq!((st.wins, st.loses), (1, 0));
    st.update_score(u32::MAX, 1);
    assert_eq!((st.wins, st.loses), (1, 0));
}
