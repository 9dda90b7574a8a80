use game_of_life::board::Board;
use game_of_life::engine::Engine;
use game_of_life::models::{Coordinate, Error};
use game_of_life::rules::step;

fn at(x: i64, y: i64) -> Coordinate {
    Coordinate::new(x, y)
}

fn sorted(mut cells: Vec<Coordinate>) -> Vec<Coordinate> {
    cells.sort();
    cells
}

fn glider() -> Vec<Coordinate> {
    vec![at(1, 0), at(2, 1), at(0, 2), at(1, 2), at(2, 2)]
}

#[test]
fn a_new_engine_is_empty_and_paused() {
    let engine = Engine::new();
    assert_eq!(engine.generation(), 0);
    assert_eq!(engine.count(), 0);
    assert!(!engine.is_running());
    assert!(engine.live_cells().is_empty());
    let other = Engine::default();
    assert_eq!(other.generation(), 0);
    assert_eq!(other.count(), 0);
    assert!(!other.is_running());
}

#[test]
fn load_pattern_then_export_gives_the_pattern() {
    let mut engine = Engine::new();
    engine.load_pattern(&glider());
    assert_eq!(sorted(engine.live_cells()), sorted(glider()));
    assert_eq!(engine.count(), 5);
}

#[test]
fn load_pattern_does_not_depend_on_the_order() {
    let mut forward = Engine::new();
    let mut backward = Engine::new();
    let mut cells = glider();
    forward.load_pattern(&cells);
    cells.reverse();
    cells.push(at(1, 0));
    backward.load_pattern(&cells);
    assert!(forward.board() == backward.board());
    assert_eq!(sorted(forward.live_cells()), sorted(backward.live_cells()));
}

#[test]
fn load_pattern_replaces_the_board_and_resets_the_counter() {
    let mut engine = Engine::new();
    engine.load_pattern(&[at(0, 0), at(1, 0), at(2, 0)]);
    engine.advance(3);
    assert_eq!(engine.generation(), 3);
    engine.run();
    engine.load_pattern(&[at(9, 9)]);
    assert_eq!(engine.generation(), 0);
    assert_eq!(engine.live_cells(), vec![at(9, 9)]);
    assert!(engine.is_running());
    engine.load_pattern(&[]);
    assert_eq!(engine.count(), 0);
}

#[test]
fn step_takes_one_generation() {
    let mut engine = Engine::new();
    engine.load_pattern(&[at(0, 0), at(1, 0), at(2, 0)]);
    engine.step();
    assert_eq!(engine.generation(), 1);
    assert_eq!(sorted(engine.live_cells()), vec![at(1, -1), at(1, 0), at(1, 1)]);
}

#[test]
fn advance_is_step_taken_n_times() {
    for n in [0u64, 1, 2, 5, 9] {
        let mut engine = Engine::new();
        engine.load_pattern(&glider());
        engine.advance(2);
        let mut board = engine.board().clone();
        engine.advance(n);
        for _ in 0..n {
            board = step(&board);
        }
        assert!(*engine.board() == board);
        assert_eq!(engine.generation(), 2 + n);
    }
}

#[test]
fn advance_by_parts_is_advance_by_the_sum() {
    let mut whole = Engine::new();
    let mut parts = Engine::new();
    whole.load_pattern(&glider());
    parts.load_pattern(&glider());
    whole.advance(7);
    parts.advance(3);
    parts.advance(4);
    assert!(whole.board() == parts.board());
    assert_eq!(whole.generation(), 7);
    assert_eq!(parts.generation(), 7);
}

#[test]
fn advance_by_nothing_changes_nothing() {
    let mut engine = Engine::new();
    engine.load_pattern(&glider());
    engine.advance(0);
    assert_eq!(engine.generation(), 0);
    assert_eq!(sorted(engine.live_cells()), sorted(glider()));
}

#[test]
fn a_glider_is_moved_after_four_generations() {
    let mut engine = Engine::new();
    engine.load_pattern(&glider());
    engine.advance(8);
    let moved: Vec<Coordinate> = glider().iter().map(|c| at(c.x + 2, c.y + 2)).collect();
    assert_eq!(sorted(engine.live_cells()), sorted(moved));
    assert_eq!(engine.generation(), 8);
}

#[test]
fn advance_while_stops_when_told() {
    let mut engine = Engine::new();
    engine.load_pattern(&glider());
    let done = engine.advance_while(10, |taken| taken < 3);
    assert_eq!(done, 3);
    assert_eq!(engine.generation(), 3);
    let mut other = Engine::new();
    other.load_pattern(&glider());
    other.advance(3);
    assert!(engine.board() == other.board());
}

#[test]
fn advance_while_takes_all_steps_when_never_stopped() {
    let mut engine = Engine::new();
    engine.load_pattern(&glider());
    assert_eq!(engine.advance_while(4, |_| true), 4);
    assert_eq!(engine.generation(), 4);
    assert_eq!(engine.advance_while(0, |_| false), 0);
    assert_eq!(engine.generation(), 4);
    assert_eq!(engine.advance_while(5, |_| false), 1);
    assert_eq!(engine.generation(), 5);
}

#[test]
fn edits_leave_the_counter_alone() {
    let mut engine = Engine::new();
    engine.load_pattern(&[at(0, 0), at(1, 0), at(2, 0)]);
    engine.advance(2);
    engine.toggle(at(5, 5));
    assert!(engine.is_alive(at(5, 5)));
    engine.toggle(at(5, 5));
    assert!(!engine.is_alive(at(5, 5)));
    engine.set_alive(at(-1, -1));
    engine.set_dead(at(0, 0));
    assert_eq!(sorted(engine.live_cells()), vec![at(-1, -1), at(1, 0), at(2, 0)]);
    assert_eq!(engine.generation(), 2);
    engine.clear();
    assert_eq!(engine.count(), 0);
    assert_eq!(engine.generation(), 2);
}

#[test]
fn run_and_pause_set_the_flag_only() {
    let mut engine = Engine::new();
    engine.load_pattern(&glider());
    engine.run();
    assert!(engine.is_running());
    assert_eq!(engine.generation(), 0);
    assert_eq!(engine.count(), 5);
    engine.pause();
    assert!(!engine.is_running());
    assert_eq!(sorted(engine.live_cells()), sorted(glider()));
}

#[test]
fn a_pattern_is_loaded_from_text() {
    let mut engine = Engine::new();
    engine.load_pattern(&[at(7, 7)]);
    engine.advance(1);
    assert_eq!(engine.load_pattern_text(b"0,0\n1,0\n\n-2,5\n1,0\n"), Ok(()));
    assert_eq!(engine.generation(), 0);
    assert_eq!(sorted(engine.live_cells()), vec![at(-2, 5), at(0, 0), at(1, 0)]);
}

#[test]
fn malformed_text_leaves_the_engine_as_it_was() {
    let mut engine = Engine::new();
    engine.load_pattern(&[at(0, 0), at(1, 0), at(2, 0)]);
    engine.advance(1);
    engine.run();
    let loaded = engine.load_pattern_text(b"4,4\n5,5\n6;6\n7,7\n");
    assert_eq!(loaded, Err(Error::MalformedPattern { line: 3, token: b"6;6".to_vec() }));
    assert_eq!(engine.generation(), 1);
    assert!(engine.is_running());
    assert_eq!(sorted(engine.live_cells()), vec![at(1, -1), at(1, 0), at(1, 1)]);
}

#[test]
fn an_exported_pattern_loads_as_the_same_board() {
    let mut engine = Engine::new();
    engine.load_pattern(&[at(i64::MIN, 0), at(-1, i64::MAX), at(0, 0), at(12, -34)]);
    let text = engine.export_pattern();
    let mut other = Engine::new();
    assert_eq!(other.load_pattern_text(&text), Ok(()));
    assert!(engine.board() == other.board());
    assert_eq!(Engine::new().export_pattern(), Vec::<u8>::new());
    let mut single = Engine::new();
    single.load_pattern(&[at(-3, 40)]);
    assert_eq!(single.export_pattern(), b"-3,40\n".to_vec());
}

#[test]
fn the_board_of_an_engine_can_be_read() {
    let mut engine = Engine::new();
    engine.load_pattern(&[at(1, 1)]);
    assert!(*engine.board() == Board::from_cells(&[at(1, 1)]));
}
