use maze_bot::frontier::STree;
use maze_bot::geometry::{Direction, Position};

#[test]
fn first_visit_drops_the_way_back() {
    let mut t = STree::new();
    let p = Position::new(1, 1);
    t.ensure_visited(&p, vec![Direction::Left, Direction::Up, Direction::Right], Some(Direction::Right));
    assert_eq!(t.get(&p).unwrap(), &vec![Direction::Up, Direction::Right]);
    assert!(t.contains_key(&p));
    assert!(!t.contains_key(&Position::new(0, 0)));
    assert!(t.get(&Position::new(0, 0)).is_none());
}

#[test]
fn very_first_cell_keeps_all_candidates() {
    let mut t = STree::new();
    let p = Position::new(0, 0);
    t.ensure_visited(&p, vec![Direction::Down, Direction::Right], None);
    assert_eq!(t.get(&p).unwrap(), &vec![Direction::Down, Direction::Right]);
}

#[test]
fn second_visit_keeps_candidates() {
    let mut t = STree::new();
    let p = Position::new(2, 3);
    let cands = vec![Direction::Down, Direction::Up];
    t.ensure_visited(&p, cands.clone(), Some(Direction::Left));
    assert_eq!(t.next_candidate(&p), Some(Direction::Up));
    t.ensure_visited(&p, cands.clone(), Some(Direction::Left));
    assert_eq!(t.get(&p).unwrap(), &vec![Direction::Down]);
    assert_eq!(t.len(), 1);
    t.ensure_visited(&p, cands, Some(Direction::Left));
    assert_eq!(t.len(), 1);
}

#[test]
fn candidates_come_off_the_back() {
    let mut t = STree::new();
    let p = Position::new(0, 0);
    t.ensure_visited(&p, vec![Direction::Left, Direction::Down], None);
    assert_eq!(t.peek_last(&p), Some(Direction::Down));
    assert_eq!(t.peek_last(&p), Some(Direction::Down));
    assert_eq!(t.next_candidate(&p), Some(Direction::Down));
    assert_eq!(t.next_candidate(&p), Some(Direction::Left));
    assert_eq!(t.next_candidate(&p), None);
    assert_eq!(t.peek_last(&p), None);
    assert_eq!(t.next_candidate(&Position::new(9, 9)), None);
}

#[test]
fn keys_in_visit_order() {
    let mut t = STree::new();
    assert!(t.is_empty());
    t.ensure_visited(&Position::new(0, 0), vec![], None);
    t.ensure_visited(&Position::new(1, 0), vec![], Some(Direction::Right));
    t.ensure_visited(&Position::new(0, 0), vec![Direction::Up], None);
    assert_eq!(t.get_keys(), vec![Position::new(0, 0), Position::new(1, 0)]);
    assert!(!t.is_empty());
}

#[test]
fn change_candidates_in_place() {
    let mut t = STree::new();
    let p = Position::new(4, 4);
    t.ensure_visited(&p, vec![Direction::Up], None);
    t.get_mut(&p).unwrap().push(Direction::Left);
    assert_eq!(t.get(&p).unwrap(), &vec![Direction::Up, Direction::Left]);
    assert!(t.get_mut(&Position::new(0, 4)).is_none());
}
