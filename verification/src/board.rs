//! The board: the set of live cells on the plane.
//!
//! A board is modelled as a mathematical set of integer pairs. Every
//! coordinate whose components fit the machine integer is a valid cell; the
//! board itself has no bounds of its own.

use crate::models::Coordinate;
use std::collections::HashSet;
use vstd::prelude::*;
use vstd::std_specs::iter::IteratorSpec;

verus! {

broadcast use vstd::std_specs::hash::group_hash_axioms;

/// Whether both components of `c` can be held by a `Coordinate`.
pub open spec fn in_plane(c: (int, int)) -> bool {
    &&& i64::MIN <= c.0 <= i64::MAX
    &&& i64::MIN <= c.1 <= i64::MAX
}

/// The board that differs from `cells` only in the state of `c`.
pub open spec fn toggled(cells: Set<(int, int)>, c: (int, int)) -> Set<(int, int)> {
    if cells.contains(c) {
        cells.remove(c)
    } else {
        cells.insert(c)
    }
}

/// The set of the cells that `cells` lists, whatever their order and however
/// often each occurs.
pub open spec fn cell_set(cells: Seq<Coordinate>) -> Set<(int, int)> {
    Set::new(|c: (int, int)| exists|i: int| 0 <= i < cells.len() && #[trigger] cells[i]@ == c)
}

/// The cells as plain pairs, in their order.
pub open spec fn pairs(cells: Seq<Coordinate>) -> Seq<(int, int)> {
    cells.map_values(|c: Coordinate| c@)
}

/// The set of the listed cells is the set of their pairs, and cells that
/// differ have pairs that differ.
pub proof fn lemma_cell_set_pairs(cells: Seq<Coordinate>)
    ensures
        cell_set(cells) == pairs(cells).to_set(),
        cells.no_duplicates() ==> pairs(cells).no_duplicates(),
        forall|i: int| 0 <= i < cells.len() ==> in_plane(#[trigger] pairs(cells)[i]),
{
    let p = pairs(cells);
    assert forall|c: (int, int)| cell_set(cells).contains(c) implies p.to_set().contains(c) by {
        let i = choose|i: int| 0 <= i < cells.len() && #[trigger] cells[i]@ == c;
        assert(p[i] == c);
    }
    assert forall|c: (int, int)| p.to_set().contains(c) implies cell_set(cells).contains(c) by {
        let i = choose|i: int| 0 <= i < p.len() && p[i] == c;
        assert(cells[i]@ == c);
    }
    assert(cell_set(cells) =~= p.to_set());
    if cells.no_duplicates() {
        assert forall|i: int, j: int| 0 <= i < p.len() && 0 <= j < p.len() && i != j implies p[i]
            != p[j] by {
            assert(cells[i] != cells[j]);
        }
    }
}

/// Listing one cell more adds that cell to the set.
pub proof fn lemma_cell_set_take(cells: Seq<Coordinate>, i: int)
    requires
        0 <= i < cells.len(),
    ensures
        cell_set(cells.take(i + 1)) == cell_set(cells.take(i)).insert(cells[i]@),
{
    let before = cells.take(i);
    let after = cells.take(i + 1);
    assert(after[i] == cells[i]);
    assert forall|c: (int, int)| cell_set(before).insert(cells[i]@).contains(c) implies cell_set(
        after,
    ).contains(c) by {
        if c == cells[i]@ {
            assert(after[i]@ == c);
        } else {
            let j = choose|j: int| 0 <= j < before.len() && #[trigger] before[j]@ == c;
            assert(after[j]@ == c);
        }
    }
    assert forall|c: (int, int)| cell_set(after).contains(c) implies cell_set(before).insert(
        cells[i]@,
    ).contains(c) by {
        let j = choose|j: int| 0 <= j < after.len() && #[trigger] after[j]@ == c;
        if j < i {
            assert(before[j]@ == c);
        }
    }
    assert(cell_set(after) =~= cell_set(before).insert(cells[i]@));
}

/// The number under which a cell is stored: the two components, each shifted
/// to be non-negative, written side by side.
spec fn key_of(c: (int, int)) -> int {
    (c.0 + 0x8000_0000_0000_0000) * 0x1_0000_0000_0000_0000 + (c.1 + 0x8000_0000_0000_0000)
}

/// The cell that is stored under `k`.
spec fn cell_of(k: int) -> (int, int) {
    (k / 0x1_0000_0000_0000_0000 - 0x8000_0000_0000_0000, k % 0x1_0000_0000_0000_0000
        - 0x8000_0000_0000_0000)
}

proof fn lemma_key_of_cell(c: (int, int))
    requires
        in_plane(c),
    ensures
        0 <= key_of(c) <= u128::MAX,
        cell_of(key_of(c)) == c,
{
}

proof fn lemma_cell_of_key(k: int)
    requires
        0 <= k <= u128::MAX,
    ensures
        in_plane(cell_of(k)),
        key_of(cell_of(k)) == k,
{
}

/// The cells that a set of keys stands for.
spec fn cells_of_keys(keys: Set<u128>) -> Set<(int, int)> {
    Set::new(|c: (int, int)| in_plane(c) && keys.contains(key_of(c) as u128))
}

proof fn lemma_cells_of_keys_len(keys: Set<u128>)
    requires
        keys.finite(),
    ensures
        cells_of_keys(keys).finite(),
        cells_of_keys(keys).len() == keys.len(),
{
    let f = |k: u128| cell_of(k as int);
    assert forall|k1: u128, k2: u128| #[trigger] f(k1) == #[trigger] f(k2) implies k1 == k2 by {
        lemma_cell_of_key(k1 as int);
        lemma_cell_of_key(k2 as int);
    }
    assert(keys.map(f) =~= cells_of_keys(keys)) by {
        assert forall|c: (int, int)| keys.map(f).contains(c) implies cells_of_keys(keys).contains(
            c,
        ) by {
            let k = choose|k: u128| keys.contains(k) && c == f(k);
            lemma_cell_of_key(k as int);
        }
        assert forall|c: (int, int)| cells_of_keys(keys).contains(c) implies keys.map(f).contains(
            c,
        ) by {
            lemma_key_of_cell(c);
            let k = key_of(c) as u128;
            assert(keys.contains(k) && c == f(k));
        }
    }
    vstd::set_lib::lemma_map_size(keys, cells_of_keys(keys), f);
}

proof fn lemma_keys_finite(keys: &HashSet<u128>)
    ensures
        keys@.finite(),
{
    let rest = keys.iter().remaining().unref();
    assert(rest.to_set() == keys@);
    vstd::seq_lib::seq_to_set_is_finite(rest);
}

fn key(c: Coordinate) -> (k: u128)
    ensures
        k == key_of(c@),
{
    proof {
        lemma_key_of_cell(c@);
    }
    let x: u128 = (c.x as i128 + 0x8000_0000_0000_0000) as u128;
    let y: u128 = (c.y as i128 + 0x8000_0000_0000_0000) as u128;
    x * 0x1_0000_0000_0000_0000 + y
}

fn cell(k: u128) -> (c: Coordinate)
    ensures
        c@ == cell_of(k as int),
{
    proof {
        lemma_cell_of_key(k as int);
    }
    let x: u128 = k / 0x1_0000_0000_0000_0000;
    let y: u128 = k % 0x1_0000_0000_0000_0000;
    Coordinate {
        x: (x as i128 - 0x8000_0000_0000_0000) as i64,
        y: (y as i128 - 0x8000_0000_0000_0000) as i64,
    }
}

fn keys_subset(a: &HashSet<u128>, b: &HashSet<u128>) -> (subset: bool)
    ensures
        subset == a@.subset_of(b@),
{
    for k in it: a.iter()
        invariant
            it.seq() == a.iter().remaining(),
            forall|j: int| 0 <= j < it.index() ==> b@.contains(#[trigger] it.seq().unref()[j]),
    {
        if !b.contains(k) {
            proof {
                let keys = it.seq().unref();
                assert(keys.to_set().contains(keys[it.index() as int]));
            }
            return false;
        }
    }
    proof {
        let keys = a.iter().remaining().unref();
        assert forall|k: u128| a@.contains(k) implies b@.contains(k) by {
            assert(keys.to_set().contains(k));
            let j = choose|j: int| 0 <= j < keys.len() && keys[j] == k;
            assert(b@.contains(keys[j]));
        }
    }
    true
}

/// The live cells of one generation. A cell is live exactly when it is a
/// member; every other cell of the plane is dead.
pub struct Board {
    cells: HashSet<u128>,
}

impl View for Board {
    type V = Set<(int, int)>;

    /// The live cells, as a set of integer pairs.
    closed spec fn view(&self) -> Set<(int, int)> {
        cells_of_keys(self.cells@)
    }
}

impl Board {
    /// The board without a live cell.
    pub fn new() -> (board: Board)
        ensures
            board@ == Set::<(int, int)>::empty(),
    {
        let board = Board { cells: HashSet::new() };
        assert(board@ =~= Set::<(int, int)>::empty());
        board
    }

    /// The board on which exactly the listed cells are live. A cell that is
    /// listed more than once is live once; the order does not matter.
    pub fn from_cells(cells: &[Coordinate]) -> (board: Board)
        ensures
            board@ == cell_set(cells@),
            board@.finite(),
    {
        let mut board = Board::new();
        let mut i: usize = 0;
        while i < cells.len()
            invariant
                i <= cells.len(),
                board@ == cell_set(cells@.take(i as int)),
            decreases cells.len() - i,
        {
            board.set_alive(cells[i]);
            proof {
                lemma_cell_set_take(cells@, i as int);
            }
            i += 1;
        }
        proof {
            assert(cells@.take(cells@.len() as int) =~= cells@);
            board.lemma_finite();
        }
        board
    }

    /// The live cells form a finite set of cells of the plane.
    pub proof fn lemma_finite(&self)
        ensures
            self@.finite(),
            forall|c: (int, int)| self@.contains(c) ==> in_plane(c),
    {
        lemma_keys_finite(&self.cells);
        lemma_cells_of_keys_len(self.cells@);
    }

    /// Whether the cell at `coordinate` is live.
    pub fn is_alive(&self, coordinate: Coordinate) -> (alive: bool)
        ensures
            alive == self@.contains(coordinate@),
    {
        let k = key(coordinate);
        self.cells.contains(&k)
    }

    /// Makes the cell at `coordinate` live. Every other cell keeps its state.
    pub fn set_alive(&mut self, coordinate: Coordinate)
        ensures
            final(self)@ == old(self)@.insert(coordinate@),
    {
        let k = key(coordinate);
        self.cells.insert(k);
        proof {
            assert forall|c: (int, int)| in_plane(c) && c != coordinate@ implies key_of(c)
                != key_of(coordinate@) by {
                lemma_key_of_cell(c);
                lemma_key_of_cell(coordinate@);
            }
            assert(final(self)@ =~= old(self)@.insert(coordinate@));
        }
    }

    /// Makes the cell at `coordinate` dead. Every other cell keeps its state.
    pub fn set_dead(&mut self, coordinate: Coordinate)
        ensures
            final(self)@ == old(self)@.remove(coordinate@),
    {
        let k = key(coordinate);
        self.cells.remove(&k);
        proof {
            assert forall|c: (int, int)| in_plane(c) && c != coordinate@ implies key_of(c)
                != key_of(coordinate@) by {
                lemma_key_of_cell(c);
                lemma_key_of_cell(coordinate@);
            }
            assert(final(self)@ =~= old(self)@.remove(coordinate@));
        }
    }

    /// Makes the cell at `coordinate` dead if it is live and live if it is
    /// dead. Every other cell keeps its state.
    pub fn toggle(&mut self, coordinate: Coordinate)
        ensures
            final(self)@ == toggled(old(self)@, coordinate@),
            final(self)@.contains(coordinate@) == !old(self)@.contains(coordinate@),
    {
        if self.is_alive(coordinate) {
            self.set_dead(coordinate);
        } else {
            self.set_alive(coordinate);
        }
    }

    /// Makes every cell dead.
    pub fn clear(&mut self)
        ensures
            final(self)@ == Set::<(int, int)>::empty(),
    {
        self.cells.clear();
        assert(final(self)@ =~= Set::<(int, int)>::empty());
    }

    /// The live cells, each once. The order is that in which the board
    /// happens to hold them: sort the result where the order matters.
    pub fn live_cells(&self) -> (cells: Vec<Coordinate>)
        ensures
            cell_set(cells@) == self@,
            cells@.no_duplicates(),
            cells@.len() == self@.len(),
    {
        let mut cells: Vec<Coordinate> = Vec::new();
        for k in it: self.cells.iter()
            invariant
                it.seq() == self.cells.iter().remaining(),
                cells@.len() == it.index(),
                forall|j: int|
                    0 <= j < cells@.len() ==> (#[trigger] cells@[j])@ == cell_of(
                        it.seq().unref()[j] as int,
                    ),
        {
            let c = cell(*k);
            cells.push(c);
        }
        proof {
            let keys = self.cells.iter().remaining().unref();
            assert(keys.to_set() == self.cells@);
            assert(keys.len() == cells@.len());
            lemma_keys_finite(&self.cells);
            lemma_cells_of_keys_len(self.cells@);
            assert forall|i: int, j: int|
                0 <= i < cells@.len() && 0 <= j < cells@.len() && i != j implies cells@[i]
                != cells@[j] by {
                lemma_cell_of_key(keys[i] as int);
                lemma_cell_of_key(keys[j] as int);
                assert(cells@[i]@ == cell_of(keys[i] as int));
                assert(cells@[j]@ == cell_of(keys[j] as int));
            }
            assert forall|c: (int, int)| cell_set(cells@).contains(c) implies self@.contains(c) by {
                let j = choose|j: int| 0 <= j < cells@.len() && #[trigger] cells@[j]@ == c;
                lemma_cell_of_key(keys[j] as int);
                assert(keys.to_set().contains(keys[j]));
            }
            assert forall|c: (int, int)| self@.contains(c) implies cell_set(cells@).contains(c) by {
                lemma_key_of_cell(c);
                let k = key_of(c) as u128;
                assert(keys.to_set().contains(k));
                let j = choose|j: int| 0 <= j < keys.len() && keys[j] == k;
                assert(cells@[j]@ == c);
            }
            assert(cell_set(cells@) =~= self@);
        }
        cells
    }

    /// Whether the two boards have the same live cells.
    pub fn same_cells(&self, other: &Board) -> (same: bool)
        ensures
            same == (self@ == other@),
    {
        proof {
            lemma_keys_finite(&self.cells);
            lemma_keys_finite(&other.cells);
            lemma_cells_of_keys_len(self.cells@);
            lemma_cells_of_keys_len(other.cells@);
        }
        if self.cells.len() != other.cells.len() {
            return false;
        }
        let subset = keys_subset(&self.cells, &other.cells);
        proof {
            if subset {
                vstd::set_lib::lemma_subset_equality(self.cells@, other.cells@);
            } else {
                let k = choose|k: u128| self.cells@.contains(k) && !other.cells@.contains(k);
                lemma_cell_of_key(k as int);
                assert(self@.contains(cell_of(k as int)));
                assert(!other@.contains(cell_of(k as int)));
            }
        }
        subset
    }

    /// The number of live cells.
    pub fn count(&self) -> (n: usize)
        ensures
            n == self@.len(),
            self@.finite(),
    {
        proof {
            self.lemma_finite();
            lemma_keys_finite(&self.cells);
            lemma_cells_of_keys_len(self.cells@);
        }
        self.cells.len()
    }
}

impl Clone for Board {
    /// A board of its own with the same live cells.
    fn clone(&self) -> (board: Board)
        ensures
            board@ == self@,
    {
        let mut cells: HashSet<u128> = HashSet::new();
        for k in it: self.cells.iter()
            invariant
                it.seq() == self.cells.iter().remaining(),
                cells@ == it.seq().unref().take(it.index() as int).to_set(),
        {
            proof {
                let keys = it.seq().unref();
                let i = it.index() as int;
                assert(keys.take(i + 1) =~= keys.take(i).push(keys[i]));
                vstd::seq_lib::seq_to_set_is_finite(keys.take(i));
                keys.take(i).lemma_push_to_set_commute(keys[i]);
            }
            cells.insert(*k);
        }
        proof {
            let keys = self.cells.iter().remaining().unref();
            assert(keys.take(keys.len() as int) =~= keys);
        }
        Board { cells }
    }
}

impl PartialEq for Board {
    /// Two boards are equal when they have the same live cells.
    fn eq(&self, other: &Board) -> (same: bool) {
        self.same_cells(other)
    }
}

impl Eq for Board {

}

impl vstd::std_specs::cmp::PartialEqSpecImpl for Board {
    open spec fn obeys_eq_spec() -> bool {
        true
    }

    open spec fn eq_spec(&self, other: &Board) -> bool {
        self@ == other@
    }
}

impl Default for Board {
    /// The board without a live cell.
    fn default() -> (board: Board)
        ensures
            board@ == Set::<(int, int)>::empty(),
    {
        Board::new()
    }
}

} // verus!
