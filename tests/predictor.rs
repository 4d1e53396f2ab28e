use maze_bot::geometry::Position;
use maze_bot::grid::{Cell, State};
use maze_bot::predictor::{flood, predict_dead_end};

/// A 3x3 grid, goal in the far corner, with (1,0), (1,1) and (0,2) explored:
/// the cells (0,0) and (0,1) form a pocket walled off from the goal.
fn walled_pocket() -> State {
    let mut st = State::new();
    st.reset(2, 2, Position::new(2, 2));
    st.mark_passage(&Position::new(1, 0), 5, false);
    st.mark_passage(&Position::new(1, 1), 5, false);
    st.mark_passage(&Position::new(0, 2), 6, false);
    st
}

#[test]
fn enclosed_pocket_is_flooded_exactly() {
    let mut st = walled_pocket();
    let before = st.map.clone();
    assert!(predict_dead_end(&mut st, &Position::new(0, 0)));
    for x in 0..3usize {
        for y in 0..3usize {
            if (x, y) == (0, 0) || (x, y) == (0, 1) {
                assert_eq!(st.map[x][y], Cell::Flooded);
            } else {
                assert_eq!(st.map[x][y], before[x][y]);
            }
        }
    }
}

#[test]
fn flood_lists_the_whole_pocket() {
    let st = walled_pocket();
    let mut r = flood(&st, &Position::new(0, 1));
    r.sort_by_key(|p| (p.x, p.y));
    assert_eq!(r, vec![Position::new(0, 0), Position::new(0, 1)]);
}

#[test]
fn reachable_goal_floods_nothing() {
    let mut st = State::new();
    st.reset(2, 2, Position::new(2, 2));
    st.mark_passage(&Position::new(1, 0), 5, false);
    let before = st.map.clone();
    assert!(!predict_dead_end(&mut st, &Position::new(0, 0)));
    assert_eq!(st.map, before);
}

#[test]
fn flood_stops_at_the_goal() {
    let mut st = State::new();
    st.reset(4, 0, Position::new(1, 0));
    let r = flood(&st, &Position::new(0, 0));
    assert_eq!(r.last(), Some(&Position::new(1, 0)));
    assert!(!r.contains(&Position::new(2, 0)));
    assert!(!r.contains(&Position::new(4, 0)));
    assert_eq!(r.len(), 2);
}

#[test]
fn flood_from_explored_or_outside_cell_is_empty() {
    let mut st = walled_pocket();
    assert!(flood(&st, &Position::new(1, 0)).is_empty());
    assert!(flood(&st, &Position::new(-1, 0)).is_empty());
    assert!(flood(&st, &Position::new(3, 3)).is_empty());
    let before = st.map.clone();
    assert!(!predict_dead_end(&mut st, &Position::new(1, 1)));
    assert_eq!(st.map, before);
}

#[test]
fn flooded_cells_block_later_floods() {
    let mut st = walled_pocket();
    assert!(predict_dead_end(&mut st, &Position::new(0, 1)));
    assert!(flood(&st, &Position::new(0, 0)).is_empty());
    assert!(!predict_dead_end(&mut st, &Position::new(0, 0)));
}

#[test]
fn flood_from_the_goal_is_the_goal_alone() {
    let mut st = State::new();
    st.reset(2, 2, Position::new(1, 1));
    assert_eq!(flood(&st, &Position::new(1, 1)), vec![Position::new(1, 1)]);
}

#[test]
fn flood_in_a_corridor_starts_at_the_cell() {
    let mut st = State::new();
    st.reset(2, 0, Position::new(2, 0));
    st.mark_passage(&Position::new(0, 0), 2, true);
    let before = st.map.clone();
    assert_eq!(flood(&st, &Position::new(1, 0)), vec![Position::new(1, 0), Position::new(2, 0)]);
    assert_eq!(flood(&st, &Position::new(2, 0)), vec![Position::new(2, 0)]);
    assert_eq!(st.map, before);
}
