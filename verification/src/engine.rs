//! The simulation engine: a board, the number of the generation that it
//! shows, and the flag by which a driver remembers whether it is running.

use crate::board::{cell_set, lemma_cell_set_pairs, pairs, toggled, Board};
use crate::models::{Coordinate, Error};
use crate::pattern::{
    cells_of_lines, format_pattern, lemma_round_trip, lines_of, parse_pattern, pattern_text,
    reports, well_formed,
};
use crate::rules::{generations, step, step_of};
use vstd::prelude::*;

verus! {

/// What an engine is, as plain mathematics.
pub struct EngineView {
    /// The live cells.
    pub cells: Set<(int, int)>,
    /// The number of steps taken since the board was last loaded.
    pub generation: nat,
    /// Whether the driver has set the engine running.
    pub running: bool,
}

impl EngineView {
    /// The engine after `n` steps.
    pub open spec fn after(self, n: nat) -> EngineView {
        EngineView {
            cells: generations(self.cells, n),
            generation: self.generation + n,
            running: self.running,
        }
    }

    /// The engine after an edit that leaves `cells` live.
    pub open spec fn with_cells(self, cells: Set<(int, int)>) -> EngineView {
        EngineView { cells, generation: self.generation, running: self.running }
    }

    /// The engine after `cells` has been loaded.
    pub open spec fn loaded(self, cells: Set<(int, int)>) -> EngineView {
        EngineView { cells, generation: 0, running: self.running }
    }
}

/// Taking `a` steps and then `b` steps is taking `a + b` steps: the board
/// and the generation counter come out the same.
pub proof fn lemma_advance_adds(engine: EngineView, a: nat, b: nat)
    ensures
        engine.after(a).after(b) == engine.after(a + b),
{
    crate::rules::lemma_generations_add(engine.cells, a, b);
}

/// Advancing by `n + 1` is advancing by `n` and taking one step more; in
/// particular, advancing by `n` is taking one step `n` times.
pub proof fn lemma_advance_is_repeated_step(engine: EngineView, n: nat)
    ensures
        engine.after(0) == engine,
        engine.after(1).cells == step_of(engine.cells),
        engine.after(n + 1) == engine.after(n).after(1),
{
    assert(generations(engine.cells, 1) == step_of(generations(engine.cells, 0)));
    lemma_advance_adds(engine, n, 1);
}

/// Toggling a cell twice leaves the board as it was.
pub proof fn lemma_toggle_twice(cells: Set<(int, int)>, c: (int, int))
    ensures
        toggled(toggled(cells, c), c) == cells,
{
    assert(toggled(toggled(cells, c), c) =~= cells);
}

/// Which cells a loaded pattern makes live does not depend on the order in
/// which it lists them, nor on how often it lists one.
pub proof fn lemma_pattern_order(first: Seq<Coordinate>, second: Seq<Coordinate>)
    requires
        forall|i: int| 0 <= i < first.len() ==> second.contains(#[trigger] first[i]),
        forall|i: int| 0 <= i < second.len() ==> first.contains(#[trigger] second[i]),
    ensures
        cell_set(first) == cell_set(second),
{
    assert forall|c: (int, int)| cell_set(first).contains(c) implies cell_set(second).contains(
        c,
    ) by {
        let i = choose|i: int| 0 <= i < first.len() && #[trigger] first[i]@ == c;
        assert(second.contains(first[i]));
        let j = choose|j: int| 0 <= j < second.len() && second[j] == first[i];
        assert(second[j]@ == c);
    }
    assert forall|c: (int, int)| cell_set(second).contains(c) implies cell_set(first).contains(
        c,
    ) by {
        let i = choose|i: int| 0 <= i < second.len() && #[trigger] second[i]@ == c;
        assert(first.contains(second[i]));
        let j = choose|j: int| 0 <= j < first.len() && first[j] == second[i];
        assert(first[j]@ == c);
    }
    assert(cell_set(first) =~= cell_set(second));
}

/// The live cells that an engine gives back after a pattern has been loaded
/// are the cells of the pattern: none is missing and none is added.
pub proof fn lemma_load_then_export(
    engine: EngineView,
    coordinates: Seq<Coordinate>,
    exported: Seq<Coordinate>,
)
    requires
        cell_set(exported) == engine.loaded(cell_set(coordinates)).cells,
    ensures
        forall|c: Coordinate| exported.contains(c) <==> coordinates.contains(c),
{
    assert forall|c: Coordinate| exported.contains(c) implies coordinates.contains(c) by {
        let i = choose|i: int| 0 <= i < exported.len() && exported[i] == c;
        assert(exported[i]@ == c@);
        assert(cell_set(exported).contains(c@));
        let j = choose|j: int| 0 <= j < coordinates.len() && #[trigger] coordinates[j]@ == c@;
        assert(coordinates[j] == c);
    }
    assert forall|c: Coordinate| coordinates.contains(c) implies exported.contains(c) by {
        let i = choose|i: int| 0 <= i < coordinates.len() && coordinates[i] == c;
        assert(coordinates[i]@ == c@);
        assert(cell_set(coordinates).contains(c@));
        let j = choose|j: int| 0 <= j < exported.len() && #[trigger] exported[j]@ == c@;
        assert(exported[j] == c);
    }
}

/// A board together with its generation counter.
pub struct Engine {
    board: Board,
    generation: u64,
    running: bool,
}

impl View for Engine {
    type V = EngineView;

    closed spec fn view(&self) -> EngineView {
        EngineView {
            cells: self.board@,
            generation: self.generation as nat,
            running: self.running,
        }
    }
}

impl Engine {
    /// An engine with an empty board, at generation 0, not running.
    pub fn new() -> (engine: Engine)
        ensures
            engine@ == (EngineView { cells: Set::empty(), generation: 0, running: false }),
    {
        Engine { board: Board::new(), generation: 0, running: false }
    }

    /// The current board.
    pub fn board(&self) -> (board: &Board)
        ensures
            board@ == self@.cells,
    {
        &self.board
    }

    /// The number of steps taken since the board was last loaded.
    pub fn generation(&self) -> (generation: u64)
        ensures
            generation == self@.generation,
    {
        self.generation
    }

    /// Whether the driver has set the engine running.
    pub fn is_running(&self) -> (running: bool)
        ensures
            running == self@.running,
    {
        self.running
    }

    /// Records that the driver runs the simulation. The board and the
    /// generation counter stay as they are.
    pub fn run(&mut self)
        ensures
            final(self)@ == (EngineView { running: true, ..old(self)@ }),
    {
        self.running = true;
    }

    /// Records that the driver has paused the simulation. The board and the
    /// generation counter stay as they are.
    pub fn pause(&mut self)
        ensures
            final(self)@ == (EngineView { running: false, ..old(self)@ }),
    {
        self.running = false;
    }

    /// Whether the cell at `coordinate` is live.
    pub fn is_alive(&self, coordinate: Coordinate) -> (alive: bool)
        ensures
            alive == self@.cells.contains(coordinate@),
    {
        self.board.is_alive(coordinate)
    }

    /// The number of live cells.
    pub fn count(&self) -> (n: usize)
        ensures
            n == self@.cells.len(),
    {
        self.board.count()
    }

    /// The live cells, each once, in no particular order.
    pub fn live_cells(&self) -> (cells: Vec<Coordinate>)
        ensures
            cell_set(cells@) == self@.cells,
            cells@.no_duplicates(),
            cells@.len() == self@.cells.len(),
    {
        self.board.live_cells()
    }

    /// Makes the cell at `coordinate` live.
    pub fn set_alive(&mut self, coordinate: Coordinate)
        ensures
            final(self)@ == old(self)@.with_cells(old(self)@.cells.insert(coordinate@)),
    {
        self.board.set_alive(coordinate);
    }

    /// Makes the cell at `coordinate` dead.
    pub fn set_dead(&mut self, coordinate: Coordinate)
        ensures
            final(self)@ == old(self)@.with_cells(old(self)@.cells.remove(coordinate@)),
    {
        self.board.set_dead(coordinate);
    }

    /// Changes the state of the cell at `coordinate`.
    pub fn toggle(&mut self, coordinate: Coordinate)
        ensures
            final(self)@ == old(self)@.with_cells(toggled(old(self)@.cells, coordinate@)),
    {
        self.board.toggle(coordinate);
    }

    /// Makes every cell dead. The generation counter stays as it is.
    pub fn clear(&mut self)
        ensures
            final(self)@ == old(self)@.with_cells(Set::empty()),
    {
        self.board.clear();
    }

    /// Replaces the board by the one on which exactly the given cells are
    /// live, and sets the generation counter back to 0.
    pub fn load_pattern(&mut self, coordinates: &[Coordinate])
        ensures
            final(self)@ == old(self)@.loaded(cell_set(coordinates@)),
    {
        self.board = Board::from_cells(coordinates);
        self.generation = 0;
    }

    /// Reads a pattern from text and loads it. A text with a malformed line
    /// is refused as a whole: the engine then stays as it was.
    pub fn load_pattern_text(&mut self, text: &[u8]) -> (loaded: Result<(), Error>)
        ensures
            loaded is Ok <==> well_formed(text@),
            loaded is Ok ==> final(self)@ == old(self)@.loaded(
                cells_of_lines(lines_of(text@)).to_set(),
            ),
            loaded matches Err(error) ==> reports(error, text@) && *final(self) == *old(self),
    {
        match parse_pattern(text) {
            Ok(cells) => {
                proof {
                    lemma_cell_set_pairs(cells@);
                }
                self.load_pattern(cells.as_slice());
                Ok(())
            },
            Err(error) => Err(error),
        }
    }

    /// The live cells as text, each once, in no particular order. Loading
    /// the text gives the same board.
    pub fn export_pattern(&self) -> (text: Vec<u8>)
        ensures
            well_formed(text@),
            cells_of_lines(lines_of(text@)).to_set() == self@.cells,
            cells_of_lines(lines_of(text@)).no_duplicates(),
            text@ == pattern_text(cells_of_lines(lines_of(text@))),
    {
        let cells = self.board.live_cells();
        proof {
            lemma_cell_set_pairs(cells@);
            lemma_round_trip(pairs(cells@));
        }
        format_pattern(cells.as_slice())
    }

    /// Takes one step: the board becomes the next generation and the
    /// generation counter grows by one.
    pub fn step(&mut self)
        requires
            old(self)@.generation < u64::MAX,
        ensures
            final(self)@ == old(self)@.after(1),
    {
        proof {
            lemma_advance_is_repeated_step(self@, 0);
        }
        self.board = step(&self.board);
        self.generation = self.generation + 1;
    }

    /// Takes `n` steps: the generation counter grows by `n`.
    pub fn advance(&mut self, n: u64)
        requires
            old(self)@.generation + n <= u64::MAX,
        ensures
            final(self)@ == old(self)@.after(n as nat),
    {
        let mut done: u64 = 0;
        while done < n
            invariant
                done <= n,
                old(self)@.generation + n <= u64::MAX,
                self@ == old(self)@.after(done as nat),
            decreases n - done,
        {
            proof {
                lemma_advance_is_repeated_step(old(self)@, done as nat);
                lemma_advance_adds(old(self)@, done as nat, 1);
            }
            self.step();
            done += 1;
        }
    }

    /// Takes up to `n` steps, and asks `proceed` between two steps whether
    /// to go on, handing it the number of steps taken so far. It stops at
    /// the first answer `false`; with `n` above 0 at least one step is
    /// taken. The result is the number of steps taken.
    pub fn advance_while<F: Fn(u64) -> bool>(&mut self, n: u64, proceed: F) -> (done: u64)
        requires
            old(self)@.generation + n <= u64::MAX,
            forall|k: u64| call_requires(proceed, (k,)),
        ensures
            final(self)@ == old(self)@.after(done as nat),
            done <= n,
            n > 0 ==> done > 0,
            forall|k: u64| 0 < k < done ==> call_ensures(proceed, (k,), true),
            done < n ==> call_ensures(proceed, (done,), false),
    {
        let mut done: u64 = 0;
        while done < n
            invariant_except_break
                forall|k: u64| 0 < k <= done && k < n ==> call_ensures(proceed, (k,), true),
            invariant
                done <= n,
                old(self)@.generation + n <= u64::MAX,
                forall|k: u64| call_requires(proceed, (k,)),
                self@ == old(self)@.after(done as nat),
            ensures
                n > 0 ==> done > 0,
                forall|k: u64| 0 < k < done ==> call_ensures(proceed, (k,), true),
                done < n ==> call_ensures(proceed, (done,), false),
            decreases n - done,
        {
            proof {
                lemma_advance_is_repeated_step(old(self)@, done as nat);
                lemma_advance_adds(old(self)@, done as nat, 1);
            }
            self.step();
            done += 1;
            if done < n && !proceed(done) {
                break;
            }
        }
        done
    }
}

impl Default for Engine {
    /// An engine with an empty board, at generation 0, not running.
    fn default() -> (engine: Engine)
        ensures
            engine@ == (EngineView { cells: Set::empty(), generation: 0, running: false }),
    {
        Engine::new()
    }
}

} // verus!
