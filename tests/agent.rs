use maze_bot::agent::{Bot, BotConfig, Reply};
use maze_bot::geometry::{Direction, Position};
use maze_bot::grid::{Cell, State};
use maze_bot::priority::{order_by_distance, order_deterministic, PrioMode};
use maze_bot::proto::Proto;

fn pos_event(x: i32, y: i32, line_flags: [&str; 4]) -> Proto {
    Proto::Pos { pos: Position::new(x, y), space: Direction::parse(line_flags) }
}

fn bot(prio: PrioMode) -> Bot {
    Bot::new(BotConfig::new("walker", "pw", 0, prio))
}

fn flooded_count(st: &State) -> usize {
    st.map.iter().map(|row| row.iter().filter(|c| **c == Cell::Flooded).count()).sum()
}

#[test]
fn config_holds_its_fields() {
    let c = BotConfig::new("alice", "secret", 3, PrioMode::Random);
    assert_eq!(c.username, "alice");
    assert_eq!(c.password, "secret");
    assert_eq!(c.index, 3);
    assert!(matches!(c.prio, PrioMode::Random));
}

#[test]
fn straight_corridor_to_goal() {
    let mut st = State::new();
    let mut b = bot(PrioMode::Distance);
    let game = Proto::Game { width: 2, height: 0, goal: Position::new(2, 0) };
    assert_eq!(b.handle(&mut st, &game), Reply::Nothing);
    let r1 = b.handle(&mut st, &pos_event(0, 0, ["1", "0", "1", "1"]));
    let r2 = b.handle(&mut st, &pos_event(1, 0, ["1", "0", "1", "0"]));
    assert_eq!(r1, Reply::Move(Direction::Right));
    assert_eq!(r2, Reply::Move(Direction::Right));
    assert_eq!(b.path, vec![Direction::Right, Direction::Right]);
    let r3 = b.handle(&mut st, &pos_event(2, 0, ["1", "1", "1", "0"]));
    assert_eq!(r3, Reply::Nothing);
    assert_eq!(b.path, vec![Direction::Right, Direction::Right]);
    assert_eq!(flooded_count(&st), 0);
    assert_eq!(st.map[0][0], Cell::Start);
    assert_eq!(st.start, Position::new(0, 0));
    assert_eq!(st.map[2][0], Cell::Goal);
}

#[test]
fn dead_end_branch_is_flooded_and_never_entered() {
    let mut st = State::new();
    let mut b = bot(PrioMode::Deterministic([Direction::Left, Direction::Right, Direction::Up, Direction::Down]));
    b.handle(&mut st, &Proto::Game { width: 3, height: 0, goal: Position::new(3, 0) });
    let r1 = b.handle(&mut st, &pos_event(1, 0, ["1", "0", "1", "0"]));
    assert_eq!(r1, Reply::Move(Direction::Right));
    assert_eq!(st.map[0][0], Cell::Flooded);
    assert_eq!(flooded_count(&st), 1);
    assert_eq!(b.stree.get(&Position::new(1, 0)).unwrap(), &Vec::<Direction>::new());
    let r2 = b.handle(&mut st, &pos_event(2, 0, ["1", "0", "1", "0"]));
    assert_eq!(r2, Reply::Move(Direction::Right));
    assert_eq!(b.path, vec![Direction::Right, Direction::Right]);
    assert_eq!(st.map[0][0], Cell::Flooded);
}

#[test]
fn backtracks_when_candidates_run_out() {
    let mut st = State::new();
    let mut b = bot(PrioMode::Deterministic([Direction::Down, Direction::Right, Direction::Up, Direction::Left]));
    b.handle(&mut st, &Proto::Game { width: 1, height: 2, goal: Position::new(1, 2) });
    // Down first from (0,0); (0,1) opens only back up, so the bot returns.
    let r1 = b.handle(&mut st, &pos_event(0, 0, ["1", "0", "0", "1"]));
    assert_eq!(r1, Reply::Move(Direction::Down));
    let r2 = b.handle(&mut st, &pos_event(0, 1, ["0", "1", "1", "1"]));
    assert_eq!(r2, Reply::Move(Direction::Up));
    assert!(b.path.is_empty());
}

#[test]
fn stuck_without_moves_or_path() {
    let mut b = bot(PrioMode::Distance);
    let mut st = State::new();
    b.handle(&mut st, &Proto::Game { width: 2, height: 2, goal: Position::new(2, 2) });
    b.stree.ensure_visited(&Position::new(0, 0), vec![], None);
    let r2 = b.handle(&mut st, &pos_event(0, 0, ["1", "0", "1", "1"]));
    assert_eq!(r2, Reply::Stuck);
    assert!(b.path.is_empty());
}

#[test]
fn ignored_events() {
    let mut st = State::new();
    let mut b = bot(PrioMode::Distance);
    b.handle(&mut st, &Proto::Game { width: 2, height: 2, goal: Position::new(2, 2) });
    assert_eq!(b.handle(&mut st, &pos_event(0, 0, ["1", "1", "1", "1"])), Reply::Nothing);
    assert_eq!(b.handle(&mut st, &pos_event(7, 0, ["0", "0", "0", "0"])), Reply::Nothing);
    assert_eq!(b.handle(&mut st, &Proto::Chat { message: String::from("hi") }), Reply::Nothing);
    assert_eq!(b.handle(&mut st, &Proto::Game { width: -1, height: 2, goal: Position::new(0, 0) }), Reply::Nothing);
    assert_eq!(st.size, (2, 2));
    assert!(b.stree.is_empty());
}

#[test]
fn score_reports() {
    let mut st = State::new();
    let mut b = bot(PrioMode::Distance);
    b.handle(&mut st, &Proto::Win { wins: 2, loses: 1 });
    b.handle(&mut st, &Proto::Lose { wins: 5, loses: 2 });
    b.handle(&mut st, &Proto::Win { wins: 3, loses: 3 });
    assert_eq!((st.wins, st.loses), (5, 2));
    b.handle(&mut st, &Proto::Win { wins: -1, loses: -5 });
    assert_eq!((st.wins, st.loses), (5, 2));
}

#[test]
fn new_game_resets_the_record() {
    let mut st = State::new();
    let mut b = bot(PrioMode::Distance);
    b.handle(&mut st, &Proto::Game { width: 2, height: 0, goal: Position::new(2, 0) });
    b.handle(&mut st, &pos_event(0, 0, ["1", "0", "1", "1"]));
    assert!(!b.stree.is_empty());
    b.handle(&mut st, &Proto::Game { width: 1, height: 1, goal: Position::new(0, 1) });
    assert!(b.stree.is_empty());
    assert!(b.path.is_empty());
    assert_eq!(st.map[0][0], Cell::Unexplored);
    assert_eq!(st.map[0][1], Cell::Goal);
}

#[test]
fn deterministic_order_puts_first_choice_last() {
    let space = vec![Direction::Up, Direction::Right, Direction::Left];
    let r = order_deterministic(&space, [Direction::Right, Direction::Up, Direction::Left, Direction::Down]);
    assert_eq!(r, vec![Direction::Left, Direction::Up, Direction::Right]);
}

#[test]
fn distance_order_puts_nearest_last() {
    let space = vec![Direction::Up, Direction::Right, Direction::Down, Direction::Left];
    let r = order_by_distance(&space, &Position::new(2, 2), &Position::new(5, 2));
    assert_eq!(r.len(), 4);
    assert_eq!(r[3], Direction::Right);
    assert_eq!(r[0], Direction::Left);
}

#[test]
fn random_order_is_a_reordering() {
    let space = vec![Direction::Up, Direction::Right, Direction::Down];
    let mut r = PrioMode::Random.order(&space, &Position::new(1, 1), &Position::new(0, 0));
    r.sort_by_key(|d| d.as_str());
    assert_eq!(r, vec![Direction::Down, Direction::Right, Direction::Up]);
}

#[test]
fn flooded_next_cell_forces_a_step_back() {
    let mut st = State::new();
    let mut b = bot(PrioMode::Distance);
    b.handle(&mut st, &Proto::Game { width: 3, height: 0, goal: Position::new(3, 0) });
    st.mark_flooded(&vec![Position::new(2, 0)]);
    b.path.push(Direction::Right);
    let pos = Position::new(1, 0);
    let space = vec![Direction::Right, Direction::Left];
    b.record(&mut st, &pos, &space, space.clone());
    assert_eq!(st.map[1][0], Cell::Start);
    assert_eq!(b.stree.get(&pos).unwrap(), &vec![Direction::Right]);
    let r = b.choose_move(&mut st, &pos);
    assert_eq!(r, Reply::Move(Direction::Left));
    assert!(b.path.is_empty());
    assert_eq!(b.stree.get(&pos).unwrap(), &vec![Direction::Right]);
}

#[test]
fn dead_pocket_with_a_path_marks_and_steps_back() {
    let mut st = State::new();
    let mut b = bot(PrioMode::Distance);
    b.handle(&mut st, &Proto::Game { width: 3, height: 0, goal: Position::new(3, 0) });
    b.stree.ensure_visited(&Position::new(2, 0), vec![], None);
    st.mark_passage(&Position::new(2, 0), 10, false);
    b.path.push(Direction::Left);
    let pos = Position::new(1, 0);
    let space = vec![Direction::Right, Direction::Left];
    b.record(&mut st, &pos, &space, vec![Direction::Right, Direction::Left]);
    assert_eq!(st.map[1][0], Cell::Passage(10));
    assert_eq!(b.stree.get(&pos).unwrap(), &vec![Direction::Left]);
    let r = b.choose_move(&mut st, &pos);
    assert_eq!(r, Reply::Move(Direction::Right));
    assert_eq!(st.map[0][0], Cell::Flooded);
    assert!(b.path.is_empty());
}
