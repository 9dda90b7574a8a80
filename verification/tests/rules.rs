use game_of_life::board::Board;
use game_of_life::models::Coordinate;
use game_of_life::rules::{candidates, count_live_neighbours, is_stable, lives_on, step};

fn at(x: i64, y: i64) -> Coordinate {
    Coordinate::new(x, y)
}

fn board_of(cells: &[(i64, i64)]) -> Board {
    let cells: Vec<Coordinate> = cells.iter().map(|&(x, y)| at(x, y)).collect();
    Board::from_cells(&cells)
}

fn cells_of(board: &Board) -> Vec<(i64, i64)> {
    let mut cells: Vec<(i64, i64)> = board.live_cells().iter().map(|c| (c.x, c.y)).collect();
    cells.sort();
    cells
}

#[test]
fn step_of_the_empty_board_is_empty() {
    let next = step(&Board::new());
    assert_eq!(next.count(), 0);
    assert!(next == Board::new());
}

#[test]
fn a_single_cell_dies() {
    let next = step(&board_of(&[(0, 0)]));
    assert!(next == Board::new());
    assert_eq!(cells_of(&next), vec![]);
}

#[test]
fn two_cells_die() {
    assert!(step(&board_of(&[(0, 0), (1, 0)])) == Board::new());
    assert!(step(&board_of(&[(0, 0), (1, 1)])) == Board::new());
}

#[test]
fn a_block_is_stable() {
    let block = board_of(&[(0, 0), (1, 0), (0, 1), (1, 1)]);
    let next = step(&block);
    assert!(next == block);
    assert_eq!(cells_of(&next), vec![(0, 0), (0, 1), (1, 0), (1, 1)]);
    assert!(is_stable(&block, &next));
}

#[test]
fn a_blinker_oscillates() {
    let line = board_of(&[(0, 0), (1, 0), (2, 0)]);
    let once = step(&line);
    assert_eq!(cells_of(&once), vec![(1, -1), (1, 0), (1, 1)]);
    assert!(!is_stable(&line, &once));
    let twice = step(&once);
    assert!(twice == line);
    assert_eq!(cells_of(&twice), vec![(0, 0), (1, 0), (2, 0)]);
}

#[test]
fn a_glider_moves_diagonally() {
    let glider = [(1, 0), (2, 1), (0, 2), (1, 2), (2, 2)];
    let mut board = board_of(&glider);
    let first = step(&board);
    assert_eq!(cells_of(&first), vec![(0, 1), (1, 2), (1, 3), (2, 1), (2, 2)]);
    for _ in 0..4 {
        board = step(&board);
    }
    let mut moved: Vec<(i64, i64)> = glider.iter().map(|&(x, y)| (x + 1, y + 1)).collect();
    moved.sort();
    assert_eq!(cells_of(&board), moved);
}

#[test]
fn an_overcrowded_cell_dies() {
    let plus = board_of(&[(0, 0), (1, 0), (-1, 0), (0, 1), (0, -1)]);
    let next = step(&plus);
    assert!(!next.is_alive(at(0, 0)));
    assert_eq!(
        cells_of(&next),
        vec![(-1, -1), (-1, 0), (-1, 1), (0, -1), (0, 1), (1, -1), (1, 0), (1, 1)]
    );
}

#[test]
fn a_dead_cell_with_three_neighbours_is_born() {
    let corner = board_of(&[(0, 0), (1, 0), (0, 1)]);
    let next = step(&corner);
    assert!(next.is_alive(at(1, 1)));
    assert_eq!(cells_of(&next), vec![(0, 0), (0, 1), (1, 0), (1, 1)]);
}

#[test]
fn step_leaves_its_argument_alone() {
    let line = board_of(&[(0, 0), (1, 0), (2, 0)]);
    let _ = step(&line);
    assert_eq!(cells_of(&line), vec![(0, 0), (1, 0), (2, 0)]);
}

#[test]
fn step_works_left_of_and_below_the_origin() {
    let line = board_of(&[(-10, -7), (-9, -7), (-8, -7)]);
    assert_eq!(cells_of(&step(&line)), vec![(-9, -8), (-9, -7), (-9, -6)]);
    let across = board_of(&[(-1, 0), (0, 0), (1, 0)]);
    assert_eq!(cells_of(&step(&across)), vec![(0, -1), (0, 0), (0, 1)]);
}

#[test]
fn step_is_the_same_far_from_the_origin() {
    let x = 4_000_000_000_000_000_000;
    let y = -4_000_000_000_000_000_000;
    let line = board_of(&[(x, y), (x + 1, y), (x + 2, y)]);
    assert_eq!(cells_of(&step(&line)), vec![(x + 1, y - 1), (x + 1, y), (x + 1, y + 1)]);
}

#[test]
fn cells_beyond_the_last_column_are_left_out() {
    let m = i64::MAX;
    let upright = board_of(&[(m, -1), (m, 0), (m, 1)]);
    let next = step(&upright);
    assert_eq!(cells_of(&next), vec![(m - 1, 0), (m, 0)]);
    let low = i64::MIN;
    let flat = board_of(&[(-1, low), (0, low), (1, low)]);
    assert_eq!(cells_of(&step(&flat)), vec![(0, low), (0, low + 1)]);
}

#[test]
fn neighbours_are_counted_around_a_cell() {
    let board = board_of(&[(0, 0), (1, 0), (2, 0), (1, 1), (5, 5)]);
    assert_eq!(count_live_neighbours(&board, at(1, 0)), 3);
    assert_eq!(count_live_neighbours(&board, at(0, 0)), 2);
    assert_eq!(count_live_neighbours(&board, at(1, 1)), 3);
    assert_eq!(count_live_neighbours(&board, at(1, -1)), 3);
    assert_eq!(count_live_neighbours(&board, at(5, 5)), 0);
    assert_eq!(count_live_neighbours(&board, at(4, 4)), 1);
    assert_eq!(count_live_neighbours(&board, at(3, 3)), 0);
}

#[test]
fn a_cell_is_not_its_own_neighbour() {
    let board = board_of(&[(0, 0)]);
    assert_eq!(count_live_neighbours(&board, at(0, 0)), 0);
    let full = board_of(&[
        (-1, -1), (0, -1), (1, -1), (-1, 0), (0, 0), (1, 0), (-1, 1), (0, 1), (1, 1),
    ]);
    assert_eq!(count_live_neighbours(&full, at(0, 0)), 8);
}

#[test]
fn neighbours_are_counted_at_the_rim() {
    let m = i64::MAX;
    let board = board_of(&[(m, m), (m - 1, m), (m, m - 1)]);
    assert_eq!(count_live_neighbours(&board, at(m, m)), 2);
    assert_eq!(count_live_neighbours(&board, at(m - 1, m - 1)), 3);
    let low = i64::MIN;
    let other = board_of(&[(low, low)]);
    assert_eq!(count_live_neighbours(&other, at(low + 1, low)), 1);
    assert_eq!(count_live_neighbours(&other, at(low, low)), 0);
}

#[test]
fn the_rule_by_state_and_neighbours() {
    let alive: Vec<bool> = (0..=8).map(|n| lives_on(true, n)).collect();
    let dead: Vec<bool> = (0..=8).map(|n| lives_on(false, n)).collect();
    assert_eq!(alive, vec![false, false, true, true, false, false, false, false, false]);
    assert_eq!(dead, vec![false, false, false, true, false, false, false, false, false]);
}

#[test]
fn candidates_are_the_live_cells_and_their_neighbours() {
    assert_eq!(candidates(&Board::new()).count(), 0);
    let one = candidates(&board_of(&[(0, 0)]));
    assert_eq!(
        cells_of(&one),
        vec![(-1, -1), (-1, 0), (-1, 1), (0, -1), (0, 0), (0, 1), (1, -1), (1, 0), (1, 1)]
    );
    let two = candidates(&board_of(&[(0, 0), (1, 0)]));
    assert_eq!(two.count(), 12);
    let corner = candidates(&board_of(&[(i64::MAX, i64::MAX)]));
    assert_eq!(corner.count(), 4);
}

#[test]
fn is_stable_compares_the_live_cells() {
    let a = board_of(&[(0, 0), (1, 1)]);
    let b = board_of(&[(1, 1), (0, 0)]);
    let c = board_of(&[(0, 0)]);
    assert!(is_stable(&a, &b));
    assert!(!is_stable(&a, &c));
    assert!(is_stable(&Board::new(), &step(&c)));
}
