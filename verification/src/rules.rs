//! The transition rule: from one generation to the next.
//!
//! The rule is stated on the unbounded plane of integer pairs. A board holds
//! the cells whose components fit the machine integer, so the executable
//! `step` returns the next generation as far as it lies in that part of the
//! plane; `lemma_step_unbounded` says when nothing is left out.

use crate::board::{cell_set, in_plane, lemma_cell_set_take, Board};
use crate::models::Coordinate;
use vstd::prelude::*;

verus! {

/// 1 if the cell at `(x, y)` is live in `cells`, else 0.
pub open spec fn live(cells: Set<(int, int)>, x: int, y: int) -> nat {
    if cells.contains((x, y)) {
        1
    } else {
        0
    }
}

/// The number of live cells among the eight cells around `c`.
pub open spec fn neighbour_count(cells: Set<(int, int)>, c: (int, int)) -> nat {
    live(cells, c.0 - 1, c.1 - 1) + live(cells, c.0, c.1 - 1) + live(cells, c.0 + 1, c.1 - 1)
        + live(cells, c.0 - 1, c.1) + live(cells, c.0 + 1, c.1) + live(cells, c.0 - 1, c.1 + 1)
        + live(cells, c.0, c.1 + 1) + live(cells, c.0 + 1, c.1 + 1)
}

/// Whether `c` is live in the generation after `cells`: a live cell stays
/// live with two or three live neighbours, a dead cell becomes live with
/// exactly three.
pub open spec fn alive_next(cells: Set<(int, int)>, c: (int, int)) -> bool {
    let n = neighbour_count(cells, c);
    (cells.contains(c) && (n == 2 || n == 3)) || (!cells.contains(c) && n == 3)
}

/// The generation after `cells` on the unbounded plane.
pub open spec fn next_generation(cells: Set<(int, int)>) -> Set<(int, int)> {
    Set::new(|c: (int, int)| alive_next(cells, c))
}

/// The generation after `cells`, as far as a board can hold it.
pub open spec fn step_of(cells: Set<(int, int)>) -> Set<(int, int)> {
    Set::new(|c: (int, int)| in_plane(c) && alive_next(cells, c))
}

/// The cells that have to be looked at to find the next generation: the
/// live cells and the cells with a live neighbour.
pub open spec fn candidates_of(cells: Set<(int, int)>) -> Set<(int, int)> {
    Set::new(|c: (int, int)| in_plane(c) && (cells.contains(c) || neighbour_count(cells, c) > 0))
}

/// The generation that `n` steps lead to.
pub open spec fn generations(cells: Set<(int, int)>, n: nat) -> Set<(int, int)>
    decreases n,
{
    if n == 0 {
        cells
    } else {
        step_of(generations(cells, (n - 1) as nat))
    }
}

/// The cell at `c` and the eight cells around it.
pub open spec fn block(c: (int, int)) -> Set<(int, int)> {
    Set::new(
        |d: (int, int)| in_plane(d) && c.0 - 1 <= d.0 <= c.0 + 1 && c.1 - 1 <= d.1 <= c.1 + 1,
    )
}

/// A cell that is no candidate is dead in the next generation.
pub proof fn lemma_next_are_candidates(cells: Set<(int, int)>)
    ensures
        step_of(cells).subset_of(candidates_of(cells)),
{
}

/// Where no live cell lies on the rim of the part of the plane that a board
/// can hold, a step is a step on the unbounded plane.
pub proof fn lemma_step_unbounded(cells: Set<(int, int)>)
    requires
        forall|c: (int, int)|
            cells.contains(c) ==> i64::MIN < c.0 < i64::MAX && i64::MIN < c.1 < i64::MAX,
    ensures
        step_of(cells) == next_generation(cells),
{
    assert forall|c: (int, int)| alive_next(cells, c) implies in_plane(c) by {
        assert(neighbour_count(cells, c) > 0);
    }
    assert(step_of(cells) =~= next_generation(cells));
}

/// The board without a live cell stays as it is.
pub proof fn lemma_empty_is_fixed()
    ensures
        step_of(Set::empty()) == Set::<(int, int)>::empty(),
{
    assert(step_of(Set::empty()) =~= Set::<(int, int)>::empty());
}

/// Steps add up: `a + b` steps are `a` steps followed by `b` steps.
pub proof fn lemma_generations_add(cells: Set<(int, int)>, a: nat, b: nat)
    ensures
        generations(cells, a + b) == generations(generations(cells, a), b),
    decreases b,
{
    if b > 0 {
        lemma_generations_add(cells, a, (b - 1) as nat);
        assert((a + b - 1) as nat == a + (b - 1) as nat);
    }
}

/// The cell that lies `dx` to the right of `c` and `dy` above it, if a
/// coordinate can hold it.
fn shifted(c: Coordinate, dx: i8, dy: i8) -> (cell: Option<Coordinate>)
    requires
        -1 <= dx <= 1,
        -1 <= dy <= 1,
    ensures
        cell is Some <==> in_plane((c.x + dx, c.y + dy)),
        cell is Some ==> cell->0@ == (c.x + dx, c.y + dy),
{
    if (dx < 0 && c.x == i64::MIN) || (dx > 0 && c.x == i64::MAX) || (dy < 0 && c.y == i64::MIN)
        || (dy > 0 && c.y == i64::MAX) {
        None
    } else {
        Some(Coordinate::new(c.x + dx as i64, c.y + dy as i64))
    }
}

/// 1 if the cell that lies `dx`, `dy` from `c` is live, else 0.
fn live_at(board: &Board, c: Coordinate, dx: i8, dy: i8) -> (n: u8)
    requires
        -1 <= dx <= 1,
        -1 <= dy <= 1,
    ensures
        n == live(board@, c.x + dx, c.y + dy),
{
    proof {
        board.lemma_finite();
    }
    match shifted(c, dx, dy) {
        Some(d) => if board.is_alive(d) {
            1
        } else {
            0
        },
        None => 0,
    }
}

/// The number of live cells among the eight cells around `coordinate`.
pub fn count_live_neighbours(board: &Board, coordinate: Coordinate) -> (n: u8)
    ensures
        n == neighbour_count(board@, coordinate@),
        n <= 8,
{
    let c = coordinate;
    live_at(board, c, -1, -1) + live_at(board, c, 0, -1) + live_at(board, c, 1, -1) + live_at(
        board,
        c,
        -1,
        0,
    ) + live_at(board, c, 1, 0) + live_at(board, c, -1, 1) + live_at(board, c, 0, 1) + live_at(
        board,
        c,
        1,
        1,
    )
}

/// Whether a cell is live in the next generation, given its state and the
/// number of its live neighbours.
pub fn lives_on(alive: bool, neighbours: u8) -> (next: bool)
    ensures
        next == ((alive && (neighbours == 2 || neighbours == 3)) || (!alive && neighbours == 3)),
{
    neighbours == 3 || (alive && neighbours == 2)
}

/// Makes the cell that lies `dx`, `dy` from `c` live, if a coordinate can
/// hold it.
fn mark(board: &mut Board, c: Coordinate, dx: i8, dy: i8)
    requires
        -1 <= dx <= 1,
        -1 <= dy <= 1,
    ensures
        final(board)@ == if in_plane((c.x + dx, c.y + dy)) {
            old(board)@.insert((c.x + dx, c.y + dy))
        } else {
            old(board)@
        },
{
    match shifted(c, dx, dy) {
        Some(d) => board.set_alive(d),
        None => {},
    }
}

/// Makes the cell at `c` and the cells around it live.
fn mark_block(board: &mut Board, c: Coordinate)
    ensures
        final(board)@ == old(board)@.union(block(c@)),
{
    mark(board, c, -1, -1);
    mark(board, c, 0, -1);
    mark(board, c, 1, -1);
    mark(board, c, -1, 0);
    mark(board, c, 0, 0);
    mark(board, c, 1, 0);
    mark(board, c, -1, 1);
    mark(board, c, 0, 1);
    mark(board, c, 1, 1);
    assert(final(board)@ =~= old(board)@.union(block(c@)));
}

proof fn lemma_candidates_insert(cells: Set<(int, int)>, c: (int, int))
    ensures
        candidates_of(cells.insert(c)) == candidates_of(cells).union(block(c)),
{
    assert(candidates_of(cells.insert(c)) =~= candidates_of(cells).union(block(c)));
}

/// The board of the cells that decide the next generation: each live cell
/// and the eight cells around it, each once.
pub fn candidates(board: &Board) -> (found: Board)
    ensures
        found@ == candidates_of(board@),
{
    let live_cells = board.live_cells();
    let mut found = Board::new();
    let mut i: usize = 0;
    proof {
        assert(cell_set(live_cells@.take(0)) =~= Set::<(int, int)>::empty());
        assert(candidates_of(Set::empty()) =~= Set::<(int, int)>::empty());
    }
    while i < live_cells.len()
        invariant
            i <= live_cells.len(),
            found@ == candidates_of(cell_set(live_cells@.take(i as int))),
        decreases live_cells.len() - i,
    {
        mark_block(&mut found, live_cells[i]);
        proof {
            lemma_cell_set_take(live_cells@, i as int);
            lemma_candidates_insert(cell_set(live_cells@.take(i as int)), live_cells@[i as int]@);
        }
        i += 1;
    }
    proof {
        assert(live_cells@.take(live_cells@.len() as int) =~= live_cells@);
    }
    found
}

/// The next generation. The board that is passed stays as it is; every
/// neighbour is counted on it and not on the board that is being built.
pub fn step(board: &Board) -> (next: Board)
    ensures
        next@ == step_of(board@),
{
    let cells = candidates(board).live_cells();
    let mut next = Board::new();
    let mut i: usize = 0;
    proof {
        assert(cell_set(cells@.take(0)) =~= Set::<(int, int)>::empty());
    }
    while i < cells.len()
        invariant
            i <= cells.len(),
            next@ == cell_set(cells@.take(i as int)).intersect(step_of(board@)),
        decreases cells.len() - i,
    {
        let c = cells[i];
        let n = count_live_neighbours(board, c);
        proof {
            lemma_cell_set_take(cells@, i as int);
        }
        if lives_on(board.is_alive(c), n) {
            next.set_alive(c);
        }
        i += 1;
    }
    proof {
        assert(cells@.take(cells@.len() as int) =~= cells@);
        lemma_next_are_candidates(board@);
        assert(next@ =~= step_of(board@));
    }
    next
}

/// Whether a step has changed nothing: whether `next` has the same live
/// cells as `previous`.
pub fn is_stable(previous: &Board, next: &Board) -> (stable: bool)
    ensures
        stable == (previous@ == next@),
{
    previous.same_cells(next)
}

} // verus!
