//! The unbounded grid, stored as square chunks of `CHUNK_SIZE` cells a side.
//!
//! Each chunk keeps, around its interior, a one-cell border that mirrors the
//! edge cells of the eight chunks around it, so that every interior cell can
//! read all of its neighbors from its own chunk. A chunk with its border is
//! a square of `EXTENDED_CHUNK_SIZE` cells a side, stored row by row; all
//! chunks are stored one after another in one buffer.
use vstd::prelude::*;

use std::collections::HashMap;

use crate::cell::{
    default_cells, is_default_state, same_state, CellNeighborhood, CellState, MooreNeighborhood,
    VonNeumannNeighborhood,
};

verus! {

broadcast use vstd::std_specs::hash::group_hash_axioms;

/// The side of a chunk, in cells.
pub const CHUNK_SIZE: usize = 64;

/// The side of a chunk with its border.
pub const EXTENDED_CHUNK_SIZE: usize = CHUNK_SIZE + 2;

/// The number of cells of a chunk with its border: `EXTENDED_CHUNK_SIZE`
/// squared.
pub const EXTENDED_CHUNK_CELLS: usize = 4356;

/// The number of generations between two automatic deallocations of empty
/// chunks.
pub const CHUNK_DEALLOCATION_INTERVAL: u64 = 64;

/// The cells of one chunk with its border, row by row.
pub type Chunk<State> = [State];

/// The position, within a chunk with its border, of the cell at column `lx`
/// and row `ly` of the chunk, where -1 and `CHUNK_SIZE` are the border.
pub open spec fn spec_ext_index(lx: int, ly: int) -> int {
    (ly + 1) * EXTENDED_CHUNK_SIZE + (lx + 1)
}

/// Column and row within the chunk, both from -1 to `CHUNK_SIZE`.
pub open spec fn in_window(lx: int, ly: int) -> bool {
    -1 <= lx <= CHUNK_SIZE && -1 <= ly <= CHUNK_SIZE
}

/// Column and row inside the chunk's interior.
pub open spec fn in_interior(lx: int, ly: int) -> bool {
    0 <= lx < CHUNK_SIZE && 0 <= ly < CHUNK_SIZE
}

/// The chunk coordinate of a cell coordinate.
pub open spec fn spec_chunk_coord(v: int) -> int {
    v / (CHUNK_SIZE as int)
}

/// The coordinate of a cell within its chunk.
pub open spec fn spec_cell_coord(v: int) -> int {
    v % (CHUNK_SIZE as int)
}

/// The position of the first interior cell of a chunk.
pub fn interior_start_index() -> (r: usize)
    ensures
        r == spec_ext_index(0, 0),
{
    // Skip the top border and the left border of the first row
    EXTENDED_CHUNK_SIZE + 1
}

/// The position of interior cell (`x`, `y`) of a chunk.
pub fn interior_cell_index(x: usize, y: usize) -> (r: usize)
    requires
        spec_ext_index(x as int, y as int) <= usize::MAX,
    ensures
        r == spec_ext_index(x as int, y as int),
{
    assert(spec_ext_index(x as int, y as int) == EXTENDED_CHUNK_SIZE + 1 + y * EXTENDED_CHUNK_SIZE + x) by (nonlinear_arith)
        requires
            EXTENDED_CHUNK_SIZE == 66,
    ;
    interior_start_index() + y * EXTENDED_CHUNK_SIZE + x
}

/// The state of interior cell (`x`, `y`) of a chunk.
pub fn get_interior_state<State: CellState>(chunk: &Chunk<State>, x: usize, y: usize) -> (s: State)
    requires
        chunk@.len() == EXTENDED_CHUNK_CELLS,
        spec_ext_index(x as int, y as int) < EXTENDED_CHUNK_CELLS,
    ensures
        s == chunk@[spec_ext_index(x as int, y as int)],
{
    chunk[interior_cell_index(x, y)]
}

/// Sets interior cell (`x`, `y`) of a chunk.
pub fn set_interior_state<State: CellState>(
    chunk: &mut Chunk<State>,
    x: usize,
    y: usize,
    new_state: State,
)
    requires
        old(chunk)@.len() == EXTENDED_CHUNK_CELLS,
        spec_ext_index(x as int, y as int) < EXTENDED_CHUNK_CELLS,
    ensures
        final(chunk)@ == old(chunk)@.update(spec_ext_index(x as int, y as int), new_state),
{
    chunk[interior_cell_index(x, y)] = new_state;
}

/// The cell at column `lx` and row `ly` (from -1 to `CHUNK_SIZE`) of chunk
/// `j` of a buffer of chunks.
pub open spec fn cell_of<State>(cells: Seq<State>, j: int, lx: int, ly: int) -> State {
    cells[j * EXTENDED_CHUNK_CELLS + spec_ext_index(lx, ly)]
}

/// Column `lx` and row `ly` of the chunk at `c` show the cell (`x`, `y`) of
/// the grid.
pub open spec fn shows(c: (isize, isize), lx: int, ly: int, x: int, y: int) -> bool {
    c.0 * CHUNK_SIZE + lx == x && c.1 * CHUNK_SIZE + ly == y
}

/// The chunk at `c`, its border included, shows the cell (`x`, `y`).
pub open spec fn window_holds(c: (isize, isize), x: int, y: int) -> bool {
    in_window(x - c.0 * CHUNK_SIZE, y - c.1 * CHUNK_SIZE)
}

/// The chunks whose windows, their borders included, show the cell (`x`,
/// `y`).
pub open spec fn window_chunks(x: int, y: int) -> Set<(isize, isize)> {
    Set::new(|c: (isize, isize)| window_holds(c, x, y))
}

/// The chunk that holds the cell (`x`, `y`).
pub open spec fn cell_chunk(x: int, y: int) -> (isize, isize) {
    (spec_chunk_coord(x) as isize, spec_chunk_coord(y) as isize)
}

/// The key under which the index of the chunk at `c` is kept.
pub open spec fn spec_chunk_key(c: (isize, isize)) -> i128 {
    ((c.0 as int) * 0x1_0000_0000_0000_0000 + (c.1 as int)) as i128
}

/// Keys of chunks are distinct.
pub proof fn lemma_chunk_key_injective(a: (isize, isize), b: (isize, isize))
    requires
        a.0 > isize::MIN,
        b.0 > isize::MIN,
    ensures
        (spec_chunk_key(a) == spec_chunk_key(b)) == (a == b),
{
}

pub(crate) fn chunk_key(c: (isize, isize)) -> (k: i128)
    requires
        c.0 > isize::MIN,
    ensures
        k == spec_chunk_key(c),
{
    (c.0 as i128) * 0x1_0000_0000_0000_0000i128 + (c.1 as i128)
}

/// The index map sends the key of the chunk at `coords[i]` to `i`, and
/// knows no other key.
pub open spec fn index_map_matches(m: Map<i128, usize>, coords: Seq<(isize, isize)>) -> bool {
    &&& forall|i: int|
        0 <= i < coords.len() ==> #[trigger] m.contains_key(spec_chunk_key(coords[i])) && m[spec_chunk_key(coords[i])] == i
    &&& forall|k: i128|
        #[trigger] m.contains_key(k) ==> m[k] < coords.len() && spec_chunk_key(coords[m[k] as int]) == k
}

/// No chunk coordinate occurs twice.
pub open spec fn coords_distinct(coords: Seq<(isize, isize)>) -> bool {
    forall|i: int, j: int|
        0 <= i < coords.len() && 0 <= j < coords.len() && i != j ==> #[trigger] coords[i] != #[trigger] coords[j]
}

/// A chunk coordinate no further out than one chunk beyond the chunk of
/// the least or the greatest `isize` cell coordinate.
pub open spec fn chunk_coord_in_range(v: int) -> bool {
    isize::MIN / 64 - 1 <= v <= isize::MAX / 64 + 1
}

/// All chunk coordinates are in range.
pub open spec fn coords_in_range(coords: Seq<(isize, isize)>) -> bool {
    forall|i: int|
        0 <= i < coords.len() ==> chunk_coord_in_range(#[trigger] coords[i].0 as int) && chunk_coord_in_range(
            coords[i].1 as int,
        )
}

/// The chunks of the unbounded grid that hold a state other than the default.
pub struct ChunkStorage<State: CellState> {
    chunks_index: HashMap<i128, usize>,
    chunk_coords: Vec<(isize, isize)>,
    cells: Vec<State>,
    next_chunk_coords: Vec<(isize, isize)>,
    next_cells: Vec<State>,
    cycles_since_chunk_deallocation: u64,
}

impl<State: CellState> ChunkStorage<State> {
    /// The coordinates of the chunks, in storage order.
    pub closed spec fn spec_coords(&self) -> Seq<(isize, isize)> {
        self.chunk_coords@
    }

    /// The cells of all chunks, chunk after chunk.
    pub closed spec fn spec_cells(&self) -> Seq<State> {
        self.cells@
    }

    /// The coordinates of the chunks of the buffer being computed.
    pub closed spec fn spec_next_coords(&self) -> Seq<(isize, isize)> {
        self.next_chunk_coords@
    }

    /// The cells of the buffer being computed.
    pub closed spec fn spec_next_cells(&self) -> Seq<State> {
        self.next_cells@
    }

    /// The generations since the last deallocation of empty chunks.
    pub closed spec fn spec_cycles(&self) -> u64 {
        self.cycles_since_chunk_deallocation
    }

    /// The index of the chunks by their keys.
    pub closed spec fn spec_index_map(&self) -> Map<i128, usize> {
        self.chunks_index@
    }

    /// The number of chunks.
    pub open spec fn num_chunks(&self) -> nat {
        self.spec_coords().len()
    }

    /// The coordinates of the allocated chunks.
    pub open spec fn allocated_chunks(&self) -> Set<(isize, isize)> {
        self.spec_coords().to_set()
    }

    /// No chunk is stored twice: there are as many chunks as allocated
    /// coordinates.
    pub proof fn lemma_allocated_len(&self)
        requires
            self.wf(),
        ensures
            self.allocated_chunks().finite(),
            self.allocated_chunks().len() == self.num_chunks(),
    {
        lemma_index_map_distinct(self.chunks_index@, self.chunk_coords@);
        assert(self.spec_coords().no_duplicates());
        self.spec_coords().unique_seq_to_set();
        vstd::seq_lib::seq_to_set_is_finite(self.spec_coords());
    }

    /// The index finds exactly the allocated chunks.
    pub proof fn lemma_allocated_index(&self, cx: int, cy: int)
        requires
            self.wf(),
            isize::MIN < cx <= isize::MAX,
            isize::MIN <= cy <= isize::MAX,
        ensures
            (self.chunk_index_of(cx, cy) is Some) == self.allocated_chunks().contains((cx as isize, cy as isize)),
    {
        let c = (cx as isize, cy as isize);
        self.lemma_chunk_index_of(cx, cy);
        if self.chunk_index_of(cx, cy) is Some {
            let i = self.chunk_index_of(cx, cy)->0;
            assert(self.spec_coords()[i] == c);
            assert(self.spec_coords().contains(c));
        }
        if self.allocated_chunks().contains(c) {
            let i = choose|i: int| 0 <= i < self.num_chunks() && self.spec_coords()[i] == c;
            self.lemma_index_of_chunk(i);
        }
    }

    /// The storage is well formed: the buffers hold whole chunks and the
    /// index finds each chunk by its coordinates.
    pub closed spec fn wf(&self) -> bool {
        &&& self.cells@.len() == self.chunk_coords@.len() * EXTENDED_CHUNK_CELLS
        &&& self.next_cells@.len() == self.next_chunk_coords@.len() * EXTENDED_CHUNK_CELLS
        &&& index_map_matches(self.chunks_index@, self.chunk_coords@)
        &&& coords_in_range(self.chunk_coords@)
        &&& coords_in_range(self.next_chunk_coords@)
        &&& self.cycles_since_chunk_deallocation < CHUNK_DEALLOCATION_INTERVAL
        &&& coords_distinct(self.next_chunk_coords@)
    }

    /// The index of the chunk at (`cx`, `cy`), if it is allocated.
    pub closed spec fn chunk_index_of(&self, cx: int, cy: int) -> Option<int> {
        if isize::MIN < cx <= isize::MAX && isize::MIN <= cy <= isize::MAX
            && self.chunks_index@.contains_key(spec_chunk_key((cx as isize, cy as isize))) {
            Some(self.chunks_index@[spec_chunk_key((cx as isize, cy as isize))] as int)
        } else {
            None
        }
    }

    /// The cell at column `lx` and row `ly` (from -1 to `CHUNK_SIZE`) of
    /// chunk `i`, its border included.
    pub open spec fn chunk_cell(&self, i: int, lx: int, ly: int) -> State {
        cell_of(self.spec_cells(), i, lx, ly)
    }

    /// The state of the cell at (`x`, `y`) of the unbounded grid: the
    /// interior cell of its chunk, or the default state where that chunk is
    /// not allocated.
    pub open spec fn state_at(&self, x: int, y: int) -> State {
        match self.chunk_index_of(spec_chunk_coord(x), spec_chunk_coord(y)) {
            Some(i) => self.chunk_cell(i, spec_cell_coord(x), spec_cell_coord(y)),
            None => State::spec_default(),
        }
    }

    /// Every border cell of every chunk mirrors the state of the cell of the
    /// grid that it stands for.
    pub open spec fn halos_consistent(&self) -> bool {
        forall|i: int, lx: int, ly: int|
            0 <= i < self.num_chunks() && in_window(lx, ly) ==> #[trigger] self.chunk_cell(i, lx, ly)
                == self.state_at(
                self.spec_coords()[i].0 * CHUNK_SIZE + lx,
                self.spec_coords()[i].1 * CHUNK_SIZE + ly,
            )
    }

    /// Around every cell in a state other than the default, the chunks of
    /// all eight neighbors are allocated.
    pub open spec fn neighbors_allocated(&self) -> bool {
        forall|x: int, y: int, dx: int, dy: int|
            #![trigger self.state_at(x, y), self.chunk_index_of(spec_chunk_coord(x + dx), spec_chunk_coord(y + dy))]
            self.state_at(x, y) != State::spec_default() && -1 <= dx <= 1 && -1 <= dy <= 1
                ==> self.chunk_index_of(spec_chunk_coord(x + dx), spec_chunk_coord(y + dy)) is Some
    }

    /// An empty storage.
    pub fn new() -> (s: Self)
        ensures
            s.wf(),
            s.num_chunks() == 0,
            s.spec_next_coords().len() == 0,
            s.spec_cycles() == 0,
            forall|x: int, y: int| #[trigger] s.state_at(x, y) == State::spec_default(),
            s.halos_consistent(),
            s.neighbors_allocated(),
    {
        let s = ChunkStorage {
            chunks_index: HashMap::new(),
            chunk_coords: Vec::new(),
            cells: Vec::new(),
            next_chunk_coords: Vec::new(),
            next_cells: Vec::new(),
            cycles_since_chunk_deallocation: 0,
        };
        assert(s.chunk_coords@.len() == 0);
        s
    }
}


/// Positions of window cells within the buffer are in bounds.
pub proof fn lemma_flat_index(i: int, len: int, lx: int, ly: int)
    requires
        0 <= i < len,
        in_window(lx, ly),
    ensures
        0 <= spec_ext_index(lx, ly) < EXTENDED_CHUNK_CELLS,
        0 <= i * EXTENDED_CHUNK_CELLS + spec_ext_index(lx, ly) < len * EXTENDED_CHUNK_CELLS,
{
    assert(0 <= i * 4356 + (ly + 1) * 66 + (lx + 1) < len * 4356) by (nonlinear_arith)
        requires
            0 <= i < len,
            -1 <= lx <= 64,
            -1 <= ly <= 64,
    ;
}

/// Distinct window cells have distinct positions in the buffer.
pub proof fn lemma_flat_index_injective(i1: int, lx1: int, ly1: int, i2: int, lx2: int, ly2: int)
    requires
        0 <= i1,
        0 <= i2,
        in_window(lx1, ly1),
        in_window(lx2, ly2),
    ensures
        (i1 * EXTENDED_CHUNK_CELLS + spec_ext_index(lx1, ly1) == i2 * EXTENDED_CHUNK_CELLS
            + spec_ext_index(lx2, ly2)) == (i1 == i2 && lx1 == lx2 && ly1 == ly2),
{
    if i1 * 4356 + (ly1 + 1) * 66 + (lx1 + 1) == i2 * 4356 + (ly2 + 1) * 66 + (lx2 + 1) {
        assert(i1 == i2) by (nonlinear_arith)
            requires
                0 <= i1,
                0 <= i2,
                -1 <= lx1 <= 64,
                -1 <= ly1 <= 64,
                -1 <= lx2 <= 64,
                -1 <= ly2 <= 64,
                i1 * 4356 + (ly1 + 1) * 66 + (lx1 + 1) == i2 * 4356 + (ly2 + 1) * 66 + (lx2 + 1),
        ;
        assert(ly1 == ly2) by (nonlinear_arith)
            requires
                -1 <= lx1 <= 64,
                -1 <= ly1 <= 64,
                -1 <= lx2 <= 64,
                -1 <= ly2 <= 64,
                (ly1 + 1) * 66 + (lx1 + 1) == (ly2 + 1) * 66 + (lx2 + 1),
        ;
    }
}

/// A cell coordinate splits into its chunk coordinate and its coordinate
/// within the chunk.
pub proof fn lemma_split_coord(v: int, c: int, l: int)
    requires
        v == c * CHUNK_SIZE + l,
        0 <= l < CHUNK_SIZE,
    ensures
        spec_chunk_coord(v) == c,
        spec_cell_coord(v) == l,
{
    vstd::arithmetic::div_mod::lemma_fundamental_div_mod_converse(v, 64, c, l);
}

/// Every cell coordinate is its chunk coordinate times the chunk size plus
/// its coordinate within the chunk.
pub proof fn lemma_coord_parts(v: int)
    ensures
        v == spec_chunk_coord(v) * CHUNK_SIZE + spec_cell_coord(v),
        0 <= spec_cell_coord(v) < CHUNK_SIZE,
{
    vstd::arithmetic::div_mod::lemma_fundamental_div_mod(v, 64);
    vstd::arithmetic::div_mod::lemma_mod_bound(v, 64);
}

/// The position in the buffer of the cell at column `lx` and row `ly`
/// (from -1 to `CHUNK_SIZE`) of chunk `index`.
fn flat_index(index: usize, num: usize, lx: usize, ly: usize) -> (p: usize)
    requires
        index < num,
        num * EXTENDED_CHUNK_CELLS <= usize::MAX,
        lx <= CHUNK_SIZE + 1,
        ly <= CHUNK_SIZE + 1,
    ensures
        p == index * EXTENDED_CHUNK_CELLS + spec_ext_index(lx - 1, ly - 1),
        p < num * EXTENDED_CHUNK_CELLS,
{
    proof {
        lemma_flat_index(index as int, num as int, lx - 1, ly - 1);
    }
    index * EXTENDED_CHUNK_CELLS + ly * EXTENDED_CHUNK_SIZE + lx
}

/// The chunk and the coordinate within it of a cell coordinate.
fn split_cell_coord(coord: isize) -> (r: (isize, usize))
    ensures
        r.0 == spec_chunk_coord(coord as int),
        r.1 == spec_cell_coord(coord as int),
        r.1 < CHUNK_SIZE,
        isize::MIN / 64 <= r.0 <= isize::MAX / 64,
{
    proof {
        lemma_coord_parts(coord as int);
    }
    let chunk_coord = match coord.checked_div_euclid(64) {
        Some(c) => c,
        None => 0,
    };
    let cell_coord = match coord.checked_rem_euclid(64) {
        Some(c) => c as usize,
        None => 0,
    };
    assert(isize::MIN / 64 <= coord / 64 <= isize::MAX / 64) by {
        vstd::arithmetic::div_mod::lemma_div_is_ordered(isize::MIN as int, coord as int, 64);
        vstd::arithmetic::div_mod::lemma_div_is_ordered(coord as int, isize::MAX as int, 64);
    }
    (chunk_coord, cell_coord)
}

impl<State: CellState> ChunkStorage<State> {
    /// The index of the chunk at `coords`, if it is allocated.
    pub fn find_chunk(&self, coords: (isize, isize)) -> (r: Option<usize>)
        requires
            self.wf(),
        ensures
            match r {
                Some(i) => self.chunk_index_of(coords.0 as int, coords.1 as int) == Some(i as int),
                None => self.chunk_index_of(coords.0 as int, coords.1 as int) is None,
            },
    {
        if coords.0 == isize::MIN {
            return None;
        }
        match self.chunks_index.get(&chunk_key(coords)) {
            Some(index) => Some(*index),
            None => None,
        }
    }

    /// The chunk at coordinates found in the index is stored at that index.
    pub proof fn lemma_chunk_index_of(&self, cx: int, cy: int)
        requires
            self.wf(),
        ensures
            self.chunk_index_of(cx, cy) matches Some(i) ==> 0 <= i < self.num_chunks()
                && self.spec_coords()[i] == (cx as isize, cy as isize) && cx == self.spec_coords()[i].0
                && cy == self.spec_coords()[i].1,
    {
        if let Some(i) = self.chunk_index_of(cx, cy) {
            let k = spec_chunk_key((cx as isize, cy as isize));
            assert(self.chunks_index@.contains_key(k));
            let c = self.chunk_coords@[i];
            assert(spec_chunk_key(c) == k);
            lemma_chunk_key_injective(c, (cx as isize, cy as isize));
        }
    }

    /// The buffers of a well-formed storage fit in memory.
    proof fn lemma_wf_len(&self)
        requires
            self.wf(),
        ensures
            self.chunk_coords@.len() * EXTENDED_CHUNK_CELLS <= usize::MAX,
            self.next_chunk_coords@.len() * EXTENDED_CHUNK_CELLS <= usize::MAX,
    {
        assert(self.cells.len() == self.cells@.len());
        assert(self.next_cells.len() == self.next_cells@.len());
    }

    /// Two storages with the same chunks describe the same grid.
    proof fn lemma_same_grid(&self, other: &Self)
        requires
            self.cells@ == other.cells@,
            self.chunk_coords@ == other.chunk_coords@,
            self.chunks_index@ == other.chunks_index@,
        ensures
            forall|p: int, q: int| #[trigger] self.state_at(p, q) == other.state_at(p, q),
            self.halos_consistent() == other.halos_consistent(),
            self.neighbors_allocated() == other.neighbors_allocated(),
    {
        assert forall|cx: int, cy: int|
            #![trigger self.chunk_index_of(cx, cy)]
            #![trigger other.chunk_index_of(cx, cy)]
            self.chunk_index_of(cx, cy) == other.chunk_index_of(cx, cy) by {}
        assert forall|p: int, q: int|
            #![trigger self.state_at(p, q)]
            #![trigger other.state_at(p, q)]
            self.state_at(p, q) == other.state_at(p, q) by {
            assert(self.chunk_index_of(spec_chunk_coord(p), spec_chunk_coord(q)) == other.chunk_index_of(
                spec_chunk_coord(p),
                spec_chunk_coord(q),
            ));
        }
        assert forall|i: int, lx: int, ly: int|
            #![trigger self.chunk_cell(i, lx, ly)]
            #![trigger other.chunk_cell(i, lx, ly)]
            self.chunk_cell(i, lx, ly) == other.chunk_cell(i, lx, ly) by {}
    }

    /// Each stored chunk is found at its own index.
    pub proof fn lemma_index_of_chunk(&self, i: int)
        requires
            self.wf(),
            0 <= i < self.num_chunks(),
        ensures
            self.chunk_index_of(self.spec_coords()[i].0 as int, self.spec_coords()[i].1 as int) == Some(i),
    {
        let c = self.chunk_coords@[i];
        assert(self.chunks_index@.contains_key(spec_chunk_key(c)));
    }

    /// The state of cell (`x`, `y`).
    pub fn get_state(&self, x: isize, y: isize) -> (s: State)
        requires
            self.wf(),
        ensures
            s == self.state_at(x as int, y as int),
    {
        let (chunk_x, cell_x) = split_cell_coord(x);
        let (chunk_y, cell_y) = split_cell_coord(y);
        match self.find_chunk((chunk_x, chunk_y)) {
            Some(index) => {
                proof {
                    self.lemma_wf_len();
                    self.lemma_chunk_index_of(chunk_x as int, chunk_y as int);
                    lemma_flat_index(index as int, self.num_chunks() as int, cell_x as int, cell_y as int);
                }
                self.cells[flat_index(index, self.chunk_coords.len(), cell_x + 1, cell_y + 1)]
            },
            None => State::default_state(),
        }
    }
}


/// Writing one cell of the buffer changes that cell of that chunk only.
proof fn lemma_cell_of_update<State>(cells: Seq<State>, n: int, k: int, kx: int, ky: int, s: State)
    requires
        cells.len() == n * EXTENDED_CHUNK_CELLS,
        0 <= k < n,
        in_window(kx, ky),
    ensures
        forall|j: int, lx: int, ly: int|
            0 <= j < n && in_window(lx, ly) ==> #[trigger] cell_of(
                cells.update(k * EXTENDED_CHUNK_CELLS + spec_ext_index(kx, ky), s),
                j,
                lx,
                ly,
            ) == if j == k && lx == kx && ly == ky {
                s
            } else {
                cell_of(cells, j, lx, ly)
            },
{
    assert forall|j: int, lx: int, ly: int| 0 <= j < n && in_window(lx, ly) implies #[trigger] cell_of(
        cells.update(k * EXTENDED_CHUNK_CELLS + spec_ext_index(kx, ky), s),
        j,
        lx,
        ly,
    ) == if j == k && lx == kx && ly == ky {
        s
    } else {
        cell_of(cells, j, lx, ly)
    } by {
        lemma_flat_index(j, n, lx, ly);
        lemma_flat_index(k, n, kx, ky);
        lemma_flat_index_injective(j, lx, ly, k, kx, ky);
    }
}

/// Appending a chunk of default states keeps the chunks before it.
proof fn lemma_cell_of_append<State: CellState>(cells: Seq<State>, n: int)
    requires
        cells.len() == n * EXTENDED_CHUNK_CELLS,
        0 <= n,
    ensures
        forall|j: int, lx: int, ly: int|
            0 <= j <= n && in_window(lx, ly) ==> #[trigger] cell_of(
                cells + default_cells::<State>(EXTENDED_CHUNK_CELLS as nat),
                j,
                lx,
                ly,
            ) == if j < n {
                cell_of(cells, j, lx, ly)
            } else {
                State::spec_default()
            },
{
    assert forall|j: int, lx: int, ly: int| 0 <= j <= n && in_window(lx, ly) implies #[trigger] cell_of(
        cells + default_cells::<State>(EXTENDED_CHUNK_CELLS as nat),
        j,
        lx,
        ly,
    ) == if j < n {
        cell_of(cells, j, lx, ly)
    } else {
        State::spec_default()
    } by {
        lemma_flat_index(j, n + 1, lx, ly);
        if j < n {
            lemma_flat_index(j, n, lx, ly);
        }
    }
}

/// The chunks whose windows show a cell are its own chunk and, for a cell
/// on an edge or a corner, the chunks across that edge or corner.
proof fn lemma_window_holds(c: (isize, isize), x: int, y: int)
    requires
        window_holds(c, x, y),
    ensures
        c.0 == spec_chunk_coord(x) || (c.0 == spec_chunk_coord(x) - 1 && spec_cell_coord(x) == 0)
            || (c.0 == spec_chunk_coord(x) + 1 && spec_cell_coord(x) == CHUNK_SIZE - 1),
        c.1 == spec_chunk_coord(y) || (c.1 == spec_chunk_coord(y) - 1 && spec_cell_coord(y) == 0)
            || (c.1 == spec_chunk_coord(y) + 1 && spec_cell_coord(y) == CHUNK_SIZE - 1),
{
    lemma_coord_parts(x);
    lemma_coord_parts(y);
    let kx = spec_chunk_coord(x) - c.0;
    let ky = spec_chunk_coord(y) - c.1;
    assert(-1 <= kx * 64 + spec_cell_coord(x) <= 64);
    assert(-1 <= ky * 64 + spec_cell_coord(y) <= 64);
    assert(-1 <= kx <= 1) by (nonlinear_arith)
        requires
            -1 <= kx * 64 + spec_cell_coord(x) <= 64,
            0 <= spec_cell_coord(x) < 64,
    ;
    assert(-1 <= ky <= 1) by (nonlinear_arith)
        requires
            -1 <= ky * 64 + spec_cell_coord(y) <= 64,
            0 <= spec_cell_coord(y) < 64,
    ;
}

/// How many chunks show a cell at column (or row) `l` of its chunk: two on
/// an edge, where the chunk across mirrors the cell in its border, and one
/// elsewhere.
pub open spec fn window_span(l: int) -> nat {
    if l == 0 || l == CHUNK_SIZE - 1 {
        2
    } else {
        1
    }
}

/// The chunks that show a cell are its own chunk and those across the
/// edges and the corner that it lies on: one, two or four of them.
pub proof fn lemma_window_chunks_len(x: int, y: int)
    requires
        isize::MIN / 64 <= spec_chunk_coord(x) <= isize::MAX / 64,
        isize::MIN / 64 <= spec_chunk_coord(y) <= isize::MAX / 64,
    ensures
        window_chunks(x, y).finite(),
        window_chunks(x, y).len() == window_span(spec_cell_coord(x)) * window_span(spec_cell_coord(y)),
{
    lemma_coord_parts(x);
    lemma_coord_parts(y);
    let lx = spec_cell_coord(x);
    let ly = spec_cell_coord(y);
    let cx = spec_chunk_coord(x);
    let cy = spec_chunk_coord(y);
    let ox: int = if lx == 0 {
        -1
    } else if lx == CHUNK_SIZE - 1 {
        1
    } else {
        0
    };
    let oy: int = if ly == 0 {
        -1
    } else if ly == CHUNK_SIZE - 1 {
        1
    } else {
        0
    };
    let own = (cx as isize, cy as isize);
    let across_x = ((cx + ox) as isize, cy as isize);
    let across_y = (cx as isize, (cy + oy) as isize);
    let corner = ((cx + ox) as isize, (cy + oy) as isize);
    assert(window_holds(own, x, y));
    assert((cx + ox) * 64 == cx * 64 + ox * 64);
    assert((cy + oy) * 64 == cy * 64 + oy * 64);
    let s1 = set![own];
    let s2 = if ox != 0 {
        s1.insert(across_x)
    } else {
        s1
    };
    let s3 = if oy != 0 {
        s2.insert(across_y)
    } else {
        s2
    };
    let s4 = if ox != 0 && oy != 0 {
        s3.insert(corner)
    } else {
        s3
    };
    assert forall|c: (isize, isize)| #[trigger] window_chunks(x, y).contains(c) == s4.contains(c) by {
        if window_holds(c, x, y) {
            lemma_window_holds(c, x, y);
        }
        if c == across_x && ox != 0 {
            assert(window_holds(c, x, y));
        }
        if c == across_y && oy != 0 {
            assert(window_holds(c, x, y));
        }
        if c == corner && ox != 0 && oy != 0 {
            assert(window_holds(c, x, y));
        }
    }
    assert(window_chunks(x, y) =~= s4);
    assert(s1.len() == 1);
    assert(ox != 0 ==> !s1.contains(across_x));
    assert(oy != 0 ==> !s2.contains(across_y));
    assert(ox != 0 && oy != 0 ==> !s3.contains(corner));
}

/// The chunk of every neighbor of a cell shows the cell in its window.
proof fn lemma_neighbor_chunk_holds(x: int, y: int, dx: int, dy: int)
    requires
        -1 <= dx <= 1,
        -1 <= dy <= 1,
    ensures
        window_holds(
            (spec_chunk_coord(x + dx) as isize, spec_chunk_coord(y + dy) as isize),
            x,
            y,
        ) || !(isize::MIN <= spec_chunk_coord(x + dx) <= isize::MAX && isize::MIN <= spec_chunk_coord(y + dy) <= isize::MAX),
{
    lemma_coord_parts(x + dx);
    lemma_coord_parts(y + dy);
}

impl<State: CellState> ChunkStorage<State> {
    /// The index of every chunk allocated in `base` is kept in `self`, whose
    /// coordinates extend those of `base`.
    proof fn lemma_index_extends(&self, base: &Self)
        requires
            base.wf(),
            self.wf(),
            base.num_chunks() <= self.num_chunks(),
            forall|i: int| 0 <= i < base.num_chunks() ==> #[trigger] self.spec_coords()[i] == base.spec_coords()[i],
        ensures
            forall|cx: int, cy: int|
                #[trigger] base.chunk_index_of(cx, cy) is Some ==> self.chunk_index_of(cx, cy) == base.chunk_index_of(cx, cy),
            forall|cx: int, cy: int|
                #[trigger] self.chunk_index_of(cx, cy) is Some && self.chunk_index_of(cx, cy)->0 < base.num_chunks()
                    ==> base.chunk_index_of(cx, cy) == self.chunk_index_of(cx, cy),
    {
        assert forall|cx: int, cy: int| #[trigger] base.chunk_index_of(cx, cy) is Some implies self.chunk_index_of(cx, cy)
            == base.chunk_index_of(cx, cy) by {
            base.lemma_chunk_index_of(cx, cy);
            let i = base.chunk_index_of(cx, cy)->0;
            self.lemma_index_of_chunk(i);
        }
        assert forall|cx: int, cy: int| #[trigger] self.chunk_index_of(cx, cy) is Some && self.chunk_index_of(cx, cy)->0 < base.num_chunks()
            implies base.chunk_index_of(cx, cy) == self.chunk_index_of(cx, cy) by {
            self.lemma_chunk_index_of(cx, cy);
            let j = self.chunk_index_of(cx, cy)->0;
            base.lemma_index_of_chunk(j);
        }
    }

    /// Allocates the chunk at `c` with default states, if it is not
    /// allocated, and gives its index.
    fn ensure_chunk(&mut self, c: (isize, isize)) -> (index: usize)
        requires
            old(self).wf(),
            chunk_coord_in_range(c.0 as int),
            chunk_coord_in_range(c.1 as int),
        ensures
            final(self).wf(),
            index < final(self).num_chunks(),
            final(self).spec_coords()[index as int] == c,
            final(self).chunk_index_of(c.0 as int, c.1 as int) == Some(index as int),
            old(self).chunk_index_of(c.0 as int, c.1 as int) is Some ==> *final(self) == *old(self),
            old(self).chunk_index_of(c.0 as int, c.1 as int) is None ==> {
                &&& index == old(self).num_chunks()
                &&& final(self).spec_coords() == old(self).spec_coords().push(c)
                &&& final(self).spec_cells() == old(self).spec_cells() + default_cells::<State>(
                    EXTENDED_CHUNK_CELLS as nat,
                )
                &&& final(self).spec_next_coords() == old(self).spec_next_coords()
                &&& final(self).spec_next_cells() == old(self).spec_next_cells()
                &&& final(self).spec_cycles() == old(self).spec_cycles()
            },
    {
        match self.find_chunk(c) {
            Some(i) => {
                proof {
                    self.lemma_chunk_index_of(c.0 as int, c.1 as int);
                }
                i
            },
            None => {
                let ghost old_self = *self;
                let index = self.chunk_coords.len();
                self.chunk_coords.push(c);
                let d = State::default_state();
                let mut k: usize = 0;
                while k < EXTENDED_CHUNK_CELLS
                    invariant
                        k <= EXTENDED_CHUNK_CELLS,
                        self.cells@ == old_self.cells@ + Seq::new(k as nat, |i: int| d),
                        d == State::spec_default(),
                        self.chunk_coords@ == old_self.chunk_coords@.push(c),
                        self.chunks_index@ == old_self.chunks_index@,
                        self.next_chunk_coords@ == old_self.next_chunk_coords@,
                        self.next_cells@ == old_self.next_cells@,
                        self.cycles_since_chunk_deallocation == old_self.cycles_since_chunk_deallocation,
                    decreases EXTENDED_CHUNK_CELLS - k,
                {
                    self.cells.push(d);
                    k = k + 1;
                    assert(self.cells@ =~= old_self.cells@ + Seq::new(k as nat, |i: int| d));
                }
                let key = chunk_key(c);
                self.chunks_index.insert(key, index);
                proof {
                    let m = old_self.chunks_index@;
                    let coords = old_self.chunk_coords@;
                    assert(!m.contains_key(spec_chunk_key(c)));
                    assert forall|i: int| 0 <= i < coords.len() implies spec_chunk_key(coords[i]) != spec_chunk_key(c) by {
                        assert(m.contains_key(spec_chunk_key(coords[i])));
                    }
                    assert(self.cells@ =~= old_self.cells@ + default_cells::<State>(EXTENDED_CHUNK_CELLS as nat));
                    assert(index_map_matches(self.chunks_index@, self.chunk_coords@));
                    assert(self.cells@.len() == self.chunk_coords@.len() * EXTENDED_CHUNK_CELLS);
                }
                index
            },
        }
    }

    /// Sets the cell at position `p` of the buffer.
    fn write_cell(&mut self, index: usize, wx: usize, wy: usize, s: State)
        requires
            old(self).wf(),
            index < old(self).num_chunks(),
            wx <= CHUNK_SIZE + 1,
            wy <= CHUNK_SIZE + 1,
        ensures
            final(self).wf(),
            final(self).spec_cells() == old(self).spec_cells().update(
                index * EXTENDED_CHUNK_CELLS + spec_ext_index(wx - 1, wy - 1),
                s,
            ),
            final(self).spec_coords() == old(self).spec_coords(),
            final(self).spec_index_map() == old(self).spec_index_map(),
            final(self).spec_next_coords() == old(self).spec_next_coords(),
            final(self).spec_next_cells() == old(self).spec_next_cells(),
            final(self).spec_cycles() == old(self).spec_cycles(),
    {
        proof {
            self.lemma_wf_len();
        }
        let p = flat_index(index, self.chunk_coords.len(), wx, wy);
        self.cells.set(p, s);
    }
}

impl<State: CellState> ChunkStorage<State> {
    /// `self` is `base` with state `s` written at every position of the
    /// chunks in `w` that shows the cell (`x`, `y`), and with default chunks
    /// added whose windows show that cell.
    spec fn written_from(&self, base: &Self, x: int, y: int, s: State, w: Set<(isize, isize)>) -> bool {
        &&& base.wf()
        &&& self.wf()
        &&& base.num_chunks() <= self.num_chunks()
        &&& forall|i: int| 0 <= i < base.num_chunks() ==> #[trigger] self.spec_coords()[i] == base.spec_coords()[i]
        &&& forall|j: int|
            base.num_chunks() <= j < self.num_chunks() ==> window_holds(#[trigger] self.spec_coords()[j], x, y)
        &&& forall|c: (isize, isize)| #[trigger] w.contains(c) ==> self.chunk_index_of(c.0 as int, c.1 as int) is Some
        &&& forall|j: int, lx: int, ly: int|
            0 <= j < self.num_chunks() && in_window(lx, ly) ==> #[trigger] self.chunk_cell(j, lx, ly) == if shows(
                self.spec_coords()[j],
                lx,
                ly,
                x,
                y,
            ) && w.contains(self.spec_coords()[j]) {
                s
            } else if j < base.num_chunks() {
                base.chunk_cell(j, lx, ly)
            } else {
                State::spec_default()
            }
        &&& self.spec_next_coords() == base.spec_next_coords()
        &&& self.spec_next_cells() == base.spec_next_cells()
        &&& self.spec_cycles() == base.spec_cycles()
    }

    /// Allocates the chunk at `c` if needed and writes `s` at its position
    /// (`wx` - 1, `wy` - 1), which shows the cell (`x`, `y`).
    #[verifier::rlimit(30)]
    fn mirror_state(
        &mut self,
        c: (isize, isize),
        wx: usize,
        wy: usize,
        s: State,
        Ghost(base): Ghost<Self>,
        Ghost(x): Ghost<int>,
        Ghost(y): Ghost<int>,
        Ghost(w): Ghost<Set<(isize, isize)>>,
    )
        requires
            old(self).written_from(&base, x, y, s, w),
            chunk_coord_in_range(c.0 as int),
            chunk_coord_in_range(c.1 as int),
            wx <= CHUNK_SIZE + 1,
            wy <= CHUNK_SIZE + 1,
            shows(c, wx - 1, wy - 1, x, y),
        ensures
            final(self).written_from(&base, x, y, s, w.insert(c)),
    {
        let ghost before = *self;
        let index = self.ensure_chunk(c);
        let ghost mid = *self;
        proof {
            if before.chunk_index_of(c.0 as int, c.1 as int) is None {
                lemma_cell_of_append(before.cells@, before.num_chunks() as int);
                assert(!w.contains(c));
                mid.lemma_index_extends(&before);
                assert forall|c2: (isize, isize)| #[trigger] w.contains(c2) implies mid.chunk_index_of(
                    c2.0 as int,
                    c2.1 as int,
                ) is Some by {
                    assert(before.chunk_index_of(c2.0 as int, c2.1 as int) is Some);
                }
                assert(in_window(wx - 1, wy - 1));
                assert(mid.spec_coords()[before.num_chunks() as int] == c);
                assert(forall|i: int| 0 <= i < base.num_chunks() ==> #[trigger] mid.spec_coords()[i] == base.spec_coords()[i]);
                assert(forall|j: int|
                    base.num_chunks() <= j < mid.num_chunks() ==> window_holds(#[trigger] mid.spec_coords()[j], x, y));
                assert forall|j: int, lx: int, ly: int|
                    0 <= j < mid.num_chunks() && in_window(lx, ly) implies #[trigger] mid.chunk_cell(j, lx, ly) == if shows(
                        mid.spec_coords()[j],
                        lx,
                        ly,
                        x,
                        y,
                    ) && w.contains(mid.spec_coords()[j]) {
                        s
                    } else if j < base.num_chunks() {
                        base.chunk_cell(j, lx, ly)
                    } else {
                        State::spec_default()
                    } by {
                    if j < before.num_chunks() {
                        assert(before.chunk_cell(j, lx, ly) == if shows(before.spec_coords()[j], lx, ly, x, y) && w.contains(before.spec_coords()[j]) {
                            s
                        } else if j < base.num_chunks() {
                            base.chunk_cell(j, lx, ly)
                        } else {
                            State::spec_default()
                        });
                    }
                }
                assert(mid.written_from(&base, x, y, s, w));
            }
        }
        self.write_cell(index, wx, wy, s);
        proof {
            lemma_cell_of_update(mid.cells@, mid.num_chunks() as int, index as int, wx - 1, wy - 1, s);
            let w2 = w.insert(c);
            assert forall|c2: (isize, isize)| #[trigger] w2.contains(c2) implies self.chunk_index_of(
                c2.0 as int,
                c2.1 as int,
            ) is Some by {
                assert(mid.chunk_index_of(c2.0 as int, c2.1 as int) is Some);
            }
            assert forall|j: int, lx: int, ly: int| 0 <= j < self.num_chunks() && in_window(lx, ly) implies #[trigger] self.chunk_cell(
                j,
                lx,
                ly,
            ) == if shows(self.spec_coords()[j], lx, ly, x, y) && w2.contains(self.spec_coords()[j]) {
                s
            } else if j < base.num_chunks() {
                base.chunk_cell(j, lx, ly)
            } else {
                State::spec_default()
            } by {
                assert(mid.chunk_cell(j, lx, ly) == if shows(mid.spec_coords()[j], lx, ly, x, y) && w.contains(
                    mid.spec_coords()[j],
                ) {
                    s
                } else if j < base.num_chunks() {
                    base.chunk_cell(j, lx, ly)
                } else {
                    State::spec_default()
                });
                if self.spec_coords()[j] == c {
                    mid.lemma_index_of_chunk(j);
                }
            }
        }
    }

    /// Once every chunk whose window shows (`x`, `y`) holds `s` there, the
    /// grid is the old grid with `s` at (`x`, `y`); the borders mirror the
    /// grid and the chunks around non-default cells are allocated if they
    /// were before.
    #[verifier::rlimit(30)]
    proof fn lemma_written_world(&self, base: &Self, x: int, y: int, s: State, w: Set<(isize, isize)>)
        requires
            self.written_from(base, x, y, s, w),
            forall|c: (isize, isize)| #[trigger] window_holds(c, x, y) ==> w.contains(c),
            isize::MIN / 64 <= spec_chunk_coord(x) <= isize::MAX / 64,
            isize::MIN / 64 <= spec_chunk_coord(y) <= isize::MAX / 64,
        ensures
            forall|p: int, q: int| #[trigger]
                self.state_at(p, q) == if p == x && q == y {
                    s
                } else {
                    base.state_at(p, q)
                },
            base.halos_consistent() && base.neighbors_allocated() ==> self.halos_consistent()
                && self.neighbors_allocated(),
    {
        self.lemma_index_extends(base);
        lemma_coord_parts(x);
        lemma_coord_parts(y);
        let own = (spec_chunk_coord(x) as isize, spec_chunk_coord(y) as isize);
        assert(window_holds(own, x, y));
        assert(self.chunk_index_of(own.0 as int, own.1 as int) is Some);
        assert forall|p: int, q: int| #[trigger]
            self.state_at(p, q) == if p == x && q == y {
                s
            } else {
                base.state_at(p, q)
            } by {
            lemma_coord_parts(p);
            lemma_coord_parts(q);
            let ccx = spec_chunk_coord(p);
            let ccy = spec_chunk_coord(q);
            if let Some(i) = base.chunk_index_of(ccx, ccy) {
                base.lemma_chunk_index_of(ccx, ccy);
                assert(self.chunk_index_of(ccx, ccy) == Some(i));
                let c = self.spec_coords()[i];
                lemma_flat_index(i, self.num_chunks() as int, spec_cell_coord(p), spec_cell_coord(q));
                assert(window_holds(c, p, q));
                assert(self.chunk_cell(i, spec_cell_coord(p), spec_cell_coord(q)) == if shows(
                    c,
                    spec_cell_coord(p),
                    spec_cell_coord(q),
                    x,
                    y,
                ) && w.contains(c) {
                    s
                } else {
                    base.chunk_cell(i, spec_cell_coord(p), spec_cell_coord(q))
                });
            } else {
                if let Some(j) = self.chunk_index_of(ccx, ccy) {
                    self.lemma_chunk_index_of(ccx, ccy);
                    let c = self.spec_coords()[j];
                    assert(window_holds(c, p, q));
                    assert(self.chunk_cell(j, spec_cell_coord(p), spec_cell_coord(q)) == if shows(
                        c,
                        spec_cell_coord(p),
                        spec_cell_coord(q),
                        x,
                        y,
                    ) && w.contains(c) {
                        s
                    } else if j < base.num_chunks() {
                        base.chunk_cell(j, spec_cell_coord(p), spec_cell_coord(q))
                    } else {
                        State::spec_default()
                    });
                }
            }
        }
        if base.halos_consistent() && base.neighbors_allocated() {
            assert forall|x2: int, y2: int, dx: int, dy: int|
                #![trigger self.state_at(x2, y2), self.chunk_index_of(spec_chunk_coord(x2 + dx), spec_chunk_coord(y2 + dy))]
                self.state_at(x2, y2) != State::spec_default() && -1 <= dx <= 1 && -1 <= dy <= 1 implies self.chunk_index_of(
                spec_chunk_coord(x2 + dx),
                spec_chunk_coord(y2 + dy),
            ) is Some by {
                if x2 == x && y2 == y {
                    lemma_neighbor_chunk_holds(x, y, dx, dy);
                    lemma_coord_parts(x + dx);
                    lemma_coord_parts(y + dy);
                    let c = (spec_chunk_coord(x + dx) as isize, spec_chunk_coord(y + dy) as isize);
                    assert(w.contains(c));
                } else {
                    assert(base.state_at(x2, y2) != State::spec_default());
                    assert(base.chunk_index_of(spec_chunk_coord(x2 + dx), spec_chunk_coord(y2 + dy)) is Some);
                }
            }
            assert forall|j: int, lx: int, ly: int|
                0 <= j < self.num_chunks() && in_window(lx, ly) implies #[trigger] self.chunk_cell(j, lx, ly)
                == self.state_at(
                self.spec_coords()[j].0 * CHUNK_SIZE + lx,
                self.spec_coords()[j].1 * CHUNK_SIZE + ly,
            ) by {
                let c = self.spec_coords()[j];
                let qx = c.0 * CHUNK_SIZE + lx;
                let qy = c.1 * CHUNK_SIZE + ly;
                assert(self.state_at(qx, qy) == if qx == x && qy == y {
                    s
                } else {
                    base.state_at(qx, qy)
                });
                if qx == x && qy == y {
                    assert(window_holds(c, x, y));
                } else if j < base.num_chunks() {
                    assert(base.chunk_cell(j, lx, ly) == base.state_at(
                        base.spec_coords()[j].0 * CHUNK_SIZE + lx,
                        base.spec_coords()[j].1 * CHUNK_SIZE + ly,
                    ));
                } else {
                    self.lemma_index_of_chunk(j);
                    if base.chunk_index_of(c.0 as int, c.1 as int) is Some {
                        base.lemma_chunk_index_of(c.0 as int, c.1 as int);
                    }
                    assert(base.chunk_index_of(c.0 as int, c.1 as int) is None);
                    let dx: int = if lx == -1 { 1 } else if lx == CHUNK_SIZE { -1 } else { 0 };
                    let dy: int = if ly == -1 { 1 } else if ly == CHUNK_SIZE { -1 } else { 0 };
                    lemma_split_coord(qx + dx, c.0 as int, lx + dx);
                    lemma_split_coord(qy + dy, c.1 as int, ly + dy);
                    if base.state_at(qx, qy) != State::spec_default() {
                        assert(base.chunk_index_of(spec_chunk_coord(qx + dx), spec_chunk_coord(qy + dy)) is Some);
                    }
                }
            }
        }
    }
}

impl<State: CellState> ChunkStorage<State> {
    /// Sets interior cell (`cell_x`, `cell_y`) of the chunk at (`chunk_x`,
    /// `chunk_y`) to `new_state`, together with its copies in the borders
    /// of the chunks around.
    #[verifier::rlimit(30)]
    fn set_state_core(&mut self, chunk_x: isize, chunk_y: isize, cell_x: usize, cell_y: usize, new_state: State)
        requires
            old(self).wf(),
            isize::MIN / 64 <= chunk_x <= isize::MAX / 64,
            isize::MIN / 64 <= chunk_y <= isize::MAX / 64,
            cell_x < CHUNK_SIZE,
            cell_y < CHUNK_SIZE,
        ensures
            final(self).wf(),
            forall|p: int, q: int| #[trigger]
                final(self).state_at(p, q) == if p == chunk_x * CHUNK_SIZE + cell_x && q == chunk_y * CHUNK_SIZE
                    + cell_y {
                    new_state
                } else {
                    old(self).state_at(p, q)
                },
            old(self).num_chunks() <= final(self).num_chunks(),
            forall|i: int|
                0 <= i < old(self).num_chunks() ==> #[trigger] final(self).spec_coords()[i] == old(
                    self,
                ).spec_coords()[i],
            forall|j: int|
                old(self).num_chunks() <= j < final(self).num_chunks() ==> window_holds(
                    #[trigger] final(self).spec_coords()[j],
                    chunk_x * CHUNK_SIZE + cell_x,
                    chunk_y * CHUNK_SIZE + cell_y,
                ),
            old(self).halos_consistent() && old(self).neighbors_allocated() ==> final(self).halos_consistent()
                && final(self).neighbors_allocated(),
            final(self).spec_next_coords() == old(self).spec_next_coords(),
            final(self).spec_next_cells() == old(self).spec_next_cells(),
            final(self).spec_cycles() == old(self).spec_cycles(),
            old(self).chunk_index_of(chunk_x as int, chunk_y as int) is None && new_state == State::spec_default()
                ==> *final(self) == *old(self),
            !(old(self).chunk_index_of(chunk_x as int, chunk_y as int) is None && new_state == State::spec_default())
                ==> final(self).allocated_chunks() == old(self).allocated_chunks().union(
                window_chunks(chunk_x * CHUNK_SIZE + cell_x, chunk_y * CHUNK_SIZE + cell_y),
            ),
    {
        let ghost x: int = chunk_x * CHUNK_SIZE + cell_x;
        let ghost y: int = chunk_y * CHUNK_SIZE + cell_y;
        proof {
            lemma_split_coord(x, chunk_x as int, cell_x as int);
            lemma_split_coord(y, chunk_y as int, cell_y as int);
        }
        let coords = (chunk_x, chunk_y);
        if self.find_chunk(coords).is_none() && is_default_state(new_state) {
            return;
        }
        let ghost base = *self;
        let ghost mut w = Set::<(isize, isize)>::empty();
        assert(self.written_from(&base, x, y, new_state, w));
        self.mirror_state(coords, cell_x + 1, cell_y + 1, new_state, Ghost(base), Ghost(x), Ghost(y), Ghost(w));
        proof {
            w = w.insert(coords);
        }
        if cell_y == 0 {
            self.mirror_state(
                (chunk_x, chunk_y - 1),
                cell_x + 1,
                CHUNK_SIZE + 1,
                new_state,
                Ghost(base),
                Ghost(x),
                Ghost(y),
                Ghost(w),
            );
            proof {
                w = w.insert((chunk_x, (chunk_y - 1) as isize));
            }
            if cell_x == 0 {
                self.mirror_state(
                    (chunk_x - 1, chunk_y - 1),
                    CHUNK_SIZE + 1,
                    CHUNK_SIZE + 1,
                    new_state,
                    Ghost(base),
                    Ghost(x),
                    Ghost(y),
                    Ghost(w),
                );
                proof {
                    w = w.insert(((chunk_x - 1) as isize, (chunk_y - 1) as isize));
                }
            } else if cell_x == CHUNK_SIZE - 1 {
                self.mirror_state(
                    (chunk_x + 1, chunk_y - 1),
                    0,
                    CHUNK_SIZE + 1,
                    new_state,
                    Ghost(base),
                    Ghost(x),
                    Ghost(y),
                    Ghost(w),
                );
                proof {
                    w = w.insert(((chunk_x + 1) as isize, (chunk_y - 1) as isize));
                }
            }
        } else if cell_y == CHUNK_SIZE - 1 {
            self.mirror_state((chunk_x, chunk_y + 1), cell_x + 1, 0, new_state, Ghost(base), Ghost(x), Ghost(y), Ghost(w));
            proof {
                w = w.insert((chunk_x, (chunk_y + 1) as isize));
            }
            if cell_x == 0 {
                self.mirror_state(
                    (chunk_x - 1, chunk_y + 1),
                    CHUNK_SIZE + 1,
                    0,
                    new_state,
                    Ghost(base),
                    Ghost(x),
                    Ghost(y),
                    Ghost(w),
                );
                proof {
                    w = w.insert(((chunk_x - 1) as isize, (chunk_y + 1) as isize));
                }
            } else if cell_x == CHUNK_SIZE - 1 {
                self.mirror_state((chunk_x + 1, chunk_y + 1), 0, 0, new_state, Ghost(base), Ghost(x), Ghost(y), Ghost(w));
                proof {
                    w = w.insert(((chunk_x + 1) as isize, (chunk_y + 1) as isize));
                }
            }
        }
        if cell_x == 0 {
            self.mirror_state(
                (chunk_x - 1, chunk_y),
                CHUNK_SIZE + 1,
                cell_y + 1,
                new_state,
                Ghost(base),
                Ghost(x),
                Ghost(y),
                Ghost(w),
            );
            proof {
                w = w.insert(((chunk_x - 1) as isize, chunk_y));
            }
        } else if cell_x == CHUNK_SIZE - 1 {
            self.mirror_state((chunk_x + 1, chunk_y), 0, cell_y + 1, new_state, Ghost(base), Ghost(x), Ghost(y), Ghost(w));
            proof {
                w = w.insert(((chunk_x + 1) as isize, chunk_y));
            }
        }
        proof {
            assert forall|c: (isize, isize)| #[trigger] window_holds(c, x, y) implies w.contains(c) by {
                lemma_window_holds(c, x, y);
            }
            self.lemma_written_world(&base, x, y, new_state, w);
            self.lemma_allocated_grows(&base, x, y, w);
        }
    }

    /// After a write at (`x`, `y`) that allocated every chunk whose window
    /// shows the cell, the allocated chunks are those of before and those.
    proof fn lemma_allocated_grows(&self, base: &Self, x: int, y: int, w: Set<(isize, isize)>)
        requires
            base.wf(),
            self.wf(),
            base.num_chunks() <= self.num_chunks(),
            forall|i: int| 0 <= i < base.num_chunks() ==> #[trigger] self.spec_coords()[i] == base.spec_coords()[i],
            forall|j: int|
                base.num_chunks() <= j < self.num_chunks() ==> window_holds(#[trigger] self.spec_coords()[j], x, y),
            forall|c: (isize, isize)| #[trigger] w.contains(c) ==> self.chunk_index_of(c.0 as int, c.1 as int) is Some,
            forall|c: (isize, isize)| #[trigger] window_holds(c, x, y) ==> w.contains(c),
        ensures
            self.allocated_chunks() == base.allocated_chunks().union(window_chunks(x, y)),
    {
        let after = self.allocated_chunks();
        let expected = base.allocated_chunks().union(window_chunks(x, y));
        assert forall|c: (isize, isize)| after.contains(c) implies expected.contains(c) by {
            let i = choose|i: int| 0 <= i < self.num_chunks() && self.spec_coords()[i] == c;
            if i < base.num_chunks() {
                assert(base.spec_coords()[i] == c);
                assert(base.allocated_chunks().contains(c));
            } else {
                assert(window_holds(self.spec_coords()[i], x, y));
                assert(window_chunks(x, y).contains(c));
            }
        }
        assert forall|c: (isize, isize)| expected.contains(c) implies after.contains(c) by {
            if base.allocated_chunks().contains(c) {
                let i = choose|i: int| 0 <= i < base.num_chunks() && base.spec_coords()[i] == c;
                assert(self.spec_coords()[i] == c);
                assert(self.spec_coords().contains(c));
            } else {
                assert(window_holds(c, x, y));
                assert(w.contains(c));
                self.lemma_chunk_index_of(c.0 as int, c.1 as int);
                let i = self.chunk_index_of(c.0 as int, c.1 as int)->0;
                assert(self.spec_coords()[i] == c);
                assert(self.spec_coords().contains(c));
            }
        }
        assert(after =~= expected);
    }

    /// Sets the cell at (`x`, `y`) to `new_state`.
    ///
    /// Chunks are allocated as needed: the cell's own chunk, unless it is
    /// not allocated and the new state is the default, and, for a cell on
    /// an edge or a corner of its chunk, the chunks across, whose borders
    /// mirror the cell.
    pub fn set_state(&mut self, x: isize, y: isize, new_state: State)
        requires
            old(self).wf(),
        ensures
            final(self).wf(),
            forall|p: int, q: int| #[trigger]
                final(self).state_at(p, q) == if p == x && q == y {
                    new_state
                } else {
                    old(self).state_at(p, q)
                },
            old(self).num_chunks() <= final(self).num_chunks(),
            forall|i: int|
                0 <= i < old(self).num_chunks() ==> #[trigger] final(self).spec_coords()[i] == old(
                    self,
                ).spec_coords()[i],
            forall|j: int|
                old(self).num_chunks() <= j < final(self).num_chunks() ==> window_holds(
                    #[trigger] final(self).spec_coords()[j],
                    x as int,
                    y as int,
                ),
            old(self).halos_consistent() && old(self).neighbors_allocated() ==> final(self).halos_consistent()
                && final(self).neighbors_allocated(),
            final(self).spec_next_coords() == old(self).spec_next_coords(),
            final(self).spec_next_cells() == old(self).spec_next_cells(),
            final(self).spec_cycles() == old(self).spec_cycles(),
            old(self).chunk_index_of(spec_chunk_coord(x as int), spec_chunk_coord(y as int)) is None && new_state
                == State::spec_default() ==> *final(self) == *old(self),
            !(old(self).chunk_index_of(spec_chunk_coord(x as int), spec_chunk_coord(y as int)) is None && new_state
                == State::spec_default()) ==> final(self).allocated_chunks() == old(self).allocated_chunks().union(
                window_chunks(x as int, y as int),
            ),
    {
        let (chunk_x, cell_x) = split_cell_coord(x);
        let (chunk_y, cell_y) = split_cell_coord(y);
        proof {
            lemma_coord_parts(x as int);
            lemma_coord_parts(y as int);
        }
        self.set_state_core(chunk_x, chunk_y, cell_x, cell_y, new_state);
    }
}

/// Cell `k` of chunk `t` of a buffer of chunks.
pub open spec fn chunk_at<State>(cells: Seq<State>, t: int, k: int) -> State {
    cells[t * EXTENDED_CHUNK_CELLS + k]
}

/// A buffer of chunks cut or padded with default states to `n` cells.
pub open spec fn resized<State: CellState>(cells: Seq<State>, n: nat) -> Seq<State> {
    if cells.len() >= n {
        cells.subrange(0, n as int)
    } else {
        cells + default_cells::<State>((n - cells.len()) as nat)
    }
}

/// Chunk `j` of a buffer holds only the default state in its interior.
pub open spec fn interior_is_default<State: CellState>(cells: Seq<State>, j: int) -> bool {
    forall|lx: int, ly: int| in_interior(lx, ly) ==> #[trigger] cell_of(cells, j, lx, ly) == State::spec_default()
}

/// The indices below `k` of the chunks of a buffer that hold a state other
/// than the default in their interior, in increasing order.
pub open spec fn kept_chunks<State: CellState>(cells: Seq<State>, k: nat) -> Seq<int>
    decreases k,
{
    if k == 0 {
        seq![]
    } else {
        let prev = kept_chunks(cells, (k - 1) as nat);
        if interior_is_default(cells, k - 1) {
            prev
        } else {
            prev.push(k - 1)
        }
    }
}

/// The kept indices are increasing and below `k`.
proof fn lemma_kept_chunks<State: CellState>(cells: Seq<State>, k: nat)
    ensures
        kept_chunks(cells, k).len() <= k,
        forall|t: int| 0 <= t < kept_chunks(cells, k).len() ==> 0 <= #[trigger] kept_chunks(cells, k)[t] < k,
        forall|t: int, u: int|
            0 <= t < u < kept_chunks(cells, k).len() ==> #[trigger] kept_chunks(cells, k)[t] < #[trigger] kept_chunks(
                cells,
                k,
            )[u],
        forall|j: int|
            0 <= j < k && !interior_is_default(cells, j) ==> exists|t: int|
                0 <= t < kept_chunks(cells, k).len() && #[trigger] kept_chunks(cells, k)[t] == j,
        forall|t: int|
            0 <= t < kept_chunks(cells, k).len() ==> !interior_is_default(cells, #[trigger] kept_chunks(cells, k)[t]),
    decreases k,
{
    if k > 0 {
        lemma_kept_chunks(cells, (k - 1) as nat);
        let prev = kept_chunks(cells, (k - 1) as nat);
        let cur = kept_chunks(cells, k);
        assert forall|j: int| 0 <= j < k && !interior_is_default(cells, j) implies exists|t: int|
            0 <= t < cur.len() && #[trigger] cur[t] == j by {
            if j == k - 1 {
                assert(cur[prev.len() as int] == j);
            } else {
                let t = choose|t: int| 0 <= t < prev.len() && #[trigger] prev[t] == j;
                assert(cur[t] == j);
            }
        }
    }
}

/// An index map that matches a sequence of coordinates leaves no
/// coordinate twice in it.
proof fn lemma_index_map_distinct(m: Map<i128, usize>, coords: Seq<(isize, isize)>)
    requires
        index_map_matches(m, coords),
    ensures
        coords_distinct(coords),
{
    assert forall|i: int, j: int| 0 <= i < coords.len() && 0 <= j < coords.len() && i != j implies #[trigger] coords[i]
        != #[trigger] coords[j] by {
        assert(m.contains_key(spec_chunk_key(coords[i])));
        assert(m.contains_key(spec_chunk_key(coords[j])));
    }
}

/// The index map of a sequence of distinct coordinates.
fn build_index(coords: &Vec<(isize, isize)>) -> (m: HashMap<i128, usize>)
    requires
        coords_distinct(coords@),
        coords_in_range(coords@),
    ensures
        index_map_matches(m@, coords@),
{
    let mut m: HashMap<i128, usize> = HashMap::new();
    let mut i: usize = 0;
    while i < coords.len()
        invariant
            i <= coords.len(),
            coords_distinct(coords@),
            coords_in_range(coords@),
            index_map_matches(m@, coords@.subrange(0, i as int)),
        decreases coords.len() - i,
    {
        let c = coords[i];
        proof {
            assert forall|j: int| 0 <= j < i implies spec_chunk_key(coords@[j]) != spec_chunk_key(c) by {
                lemma_chunk_key_injective(coords@[j], c);
                assert(coords@[j] != coords@[i as int]);
            }
        }
        let ghost m_old = m@;
        m.insert(chunk_key(c), i);
        i = i + 1;
        proof {
            let sub = coords@.subrange(0, i as int);
            let prev = coords@.subrange(0, i - 1);
            assert forall|j: int| 0 <= j < sub.len() implies #[trigger] m@.contains_key(spec_chunk_key(sub[j]))
                && m@[spec_chunk_key(sub[j])] == j by {
                if j < i - 1 {
                    assert(sub[j] == prev[j]);
                    assert(m_old.contains_key(spec_chunk_key(prev[j])));
                    assert(spec_chunk_key(coords@[j]) != spec_chunk_key(c));
                } else {
                    assert(sub[j] == c);
                }
            }
            assert forall|key: i128| #[trigger] m@.contains_key(key) implies m@[key] < sub.len() && spec_chunk_key(
                sub[m@[key] as int],
            ) == key by {
                if key != spec_chunk_key(c) {
                    let prev = coords@.subrange(0, i - 1);
                    assert(sub[m@[key] as int] == prev[m@[key] as int]);
                }
            }
        }
    }
    assert(coords@.subrange(0, coords@.len() as int) =~= coords@);
    m
}

/// Whether the interior of chunk `j` of a buffer holds a state other than
/// the default.
fn has_non_default_interior<State: CellState>(cells: &[State], j: usize) -> (r: bool)
    requires
        (j + 1) * EXTENDED_CHUNK_CELLS <= cells@.len(),
    ensures
        r == !interior_is_default(cells@, j as int),
{
    let len = cells.len();
    assert(len == cells@.len());
    assert(j + 1 <= len) by (nonlinear_arith)
        requires
            (j + 1) * EXTENDED_CHUNK_CELLS <= len,
    ;
    let mut ly: usize = 0;
    while ly < CHUNK_SIZE
        invariant
            ly <= CHUNK_SIZE,
            (j + 1) * EXTENDED_CHUNK_CELLS <= cells@.len(),
            len == cells@.len(),
            j + 1 <= len,
            forall|lx: int, ly2: int|
                0 <= lx < CHUNK_SIZE && 0 <= ly2 < ly ==> #[trigger] cell_of(cells@, j as int, lx, ly2)
                    == State::spec_default(),
        decreases CHUNK_SIZE - ly,
    {
        let mut lx: usize = 0;
        while lx < CHUNK_SIZE
            invariant
                lx <= CHUNK_SIZE,
                ly < CHUNK_SIZE,
                (j + 1) * EXTENDED_CHUNK_CELLS <= cells@.len(),
                len == cells@.len(),
                j + 1 <= len,
                forall|lx2: int, ly2: int|
                    0 <= lx2 < CHUNK_SIZE && 0 <= ly2 < ly ==> #[trigger] cell_of(cells@, j as int, lx2, ly2)
                        == State::spec_default(),
                forall|lx2: int| 0 <= lx2 < lx ==> #[trigger] cell_of(cells@, j as int, lx2, ly as int) == State::spec_default(),
            decreases CHUNK_SIZE - lx,
        {
            let p = flat_index(j, j + 1, lx + 1, ly + 1);
            if !is_default_state(cells[p]) {
                assert(cell_of(cells@, j as int, lx as int, ly as int) != State::spec_default());
                return true;
            }
            lx = lx + 1;
        }
        ly = ly + 1;
    }
    false
}

impl<State: CellState> ChunkStorage<State> {
    /// The chunks, each with its border, in storage order.
    pub fn chunks(&self) -> (r: Vec<&[State]>)
        requires
            self.wf(),
        ensures
            r.len() == self.num_chunks(),
            forall|t: int, k: int|
                0 <= t < r.len() && 0 <= k < EXTENDED_CHUNK_CELLS ==> #[trigger] r[t]@[k] == chunk_at(
                    self.spec_cells(),
                    t,
                    k,
                ),
            forall|t: int| 0 <= t < r.len() ==> #[trigger] r[t]@.len() == EXTENDED_CHUNK_CELLS,
    {
        proof {
            self.lemma_wf_len();
        }
        let n = self.chunk_coords.len();
        let mut r: Vec<&[State]> = Vec::new();
        let mut t: usize = 0;
        while t < n
            invariant
                n == self.num_chunks(),
                t <= n,
                self.wf(),
                n * EXTENDED_CHUNK_CELLS <= usize::MAX,
                r.len() == t,
                forall|u: int, k: int|
                    0 <= u < r.len() && 0 <= k < EXTENDED_CHUNK_CELLS ==> #[trigger] r[u]@[k] == chunk_at(
                        self.spec_cells(),
                        u,
                        k,
                    ),
                forall|u: int| 0 <= u < r.len() ==> #[trigger] r[u]@.len() == EXTENDED_CHUNK_CELLS,
            decreases n - t,
        {
            proof {
                assert(t * EXTENDED_CHUNK_CELLS + EXTENDED_CHUNK_CELLS <= n * EXTENDED_CHUNK_CELLS) by (nonlinear_arith)
                    requires
                        t < n,
                ;
                assert(self.cells@.len() == n * EXTENDED_CHUNK_CELLS);
            }
            let start = t * EXTENDED_CHUNK_CELLS;
            let chunk = &self.cells.as_slice()[start..start + EXTENDED_CHUNK_CELLS];
            r.push(chunk);
            t = t + 1;
        }
        r
    }

    /// The coordinates of the chunks, in storage order.
    pub fn chunk_coords(&self) -> (r: &[(isize, isize)])
        ensures
            r@ == self.spec_coords(),
    {
        self.chunk_coords.as_slice()
    }

    /// The cells of all chunks, chunk after chunk, without gaps.
    pub fn active_cells_flat(&self) -> (r: &[State])
        ensures
            r@ == self.spec_cells(),
    {
        self.cells.as_slice()
    }

    /// The cells of the buffer being computed, chunk after chunk, for
    /// writing.
    pub fn next_cells_flat_mut(&mut self) -> (r: &mut [State])
        requires
            old(self).wf(),
        ensures
            r@ == old(self).spec_next_cells(),
            final(self).spec_next_cells() == final(r)@,
            final(r)@.len() == r@.len() ==> final(self).wf(),
            final(self).spec_cells() == old(self).spec_cells(),
            final(self).spec_coords() == old(self).spec_coords(),
            final(self).spec_next_coords() == old(self).spec_next_coords(),
            final(self).spec_index_map() == old(self).spec_index_map(),
            final(self).spec_cycles() == old(self).spec_cycles(),
    {
        self.next_cells.as_mut_slice()
    }

    /// Makes the buffer being computed as large as the current one, with
    /// the same chunk coordinates.
    pub fn prepare_next_chunks(&mut self)
        requires
            old(self).wf(),
        ensures
            final(self).wf(),
            final(self).spec_next_coords() == old(self).spec_coords(),
            final(self).spec_next_cells() == resized(old(self).spec_next_cells(), old(self).spec_cells().len()),
            final(self).spec_coords() == old(self).spec_coords(),
            final(self).spec_cells() == old(self).spec_cells(),
            final(self).spec_index_map() == old(self).spec_index_map(),
            final(self).spec_cycles() == old(self).spec_cycles(),
    {
        let n = self.cells.len();
        let ghost before = *self;
        let ghost old_next = self.next_cells@;
        if self.next_cells.len() > n {
            self.next_cells.truncate(n);
        }
        let d = State::default_state();
        let ghost start = self.next_cells@;
        while self.next_cells.len() < n
            invariant
                n == self.cells@.len(),
                start.len() <= self.next_cells@.len() <= n,
                self.next_cells@ == start + Seq::new((self.next_cells@.len() - start.len()) as nat, |i: int| d),
                d == State::spec_default(),
                self.cells == before.cells,
                self.chunk_coords == before.chunk_coords,
                self.chunks_index == before.chunks_index,
                self.next_chunk_coords == before.next_chunk_coords,
                self.cycles_since_chunk_deallocation == before.cycles_since_chunk_deallocation,
            decreases n - self.next_cells@.len(),
        {
            self.next_cells.push(d);
            assert(self.next_cells@ =~= start + Seq::new((self.next_cells@.len() - start.len()) as nat, |i: int| d));
        }
        assert(self.next_cells@ =~= resized(old_next, n as nat));
        self.next_chunk_coords.clear();
        let mut i: usize = 0;
        while i < self.chunk_coords.len()
            invariant
                i <= self.chunk_coords@.len(),
                self.next_chunk_coords@ == self.chunk_coords@.subrange(0, i as int),
                self.cells == before.cells,
                self.chunk_coords == before.chunk_coords,
                self.chunks_index == before.chunks_index,
                self.next_cells@ == resized(old_next, n as nat),
                self.cycles_since_chunk_deallocation == before.cycles_since_chunk_deallocation,
            decreases self.chunk_coords@.len() - i,
        {
            let c = self.chunk_coords[i];
            self.next_chunk_coords.push(c);
            i = i + 1;
            assert(self.next_chunk_coords@ =~= self.chunk_coords@.subrange(0, i as int));
        }
        assert(self.next_chunk_coords@ =~= self.chunk_coords@);
        proof {
            lemma_index_map_distinct(self.chunks_index@, self.chunk_coords@);
        }
    }

    /// The current buffer, to read, and the buffer being computed, to
    /// write.
    pub fn chunk_buffers(&mut self) -> (r: (&[State], &mut [State]))
        requires
            old(self).wf(),
        ensures
            r.0@ == old(self).spec_cells(),
            r.1@ == old(self).spec_next_cells(),
            final(self).spec_next_cells() == final(r.1)@,
            final(r.1)@.len() == r.1@.len() ==> final(self).wf(),
            final(self).spec_cells() == old(self).spec_cells(),
            final(self).spec_coords() == old(self).spec_coords(),
            final(self).spec_next_coords() == old(self).spec_next_coords(),
            final(self).spec_index_map() == old(self).spec_index_map(),
            final(self).spec_cycles() == old(self).spec_cycles(),
    {
        (self.cells.as_slice(), self.next_cells.as_mut_slice())
    }

    /// Makes the buffer that was computed the current one.
    pub fn commit_next_chunks(&mut self)
        requires
            old(self).wf(),
            old(self).spec_next_cells().len() == old(self).spec_next_coords().len() * EXTENDED_CHUNK_CELLS,
        ensures
            final(self).wf(),
            final(self).spec_coords() == old(self).spec_next_coords(),
            final(self).spec_cells() == old(self).spec_next_cells(),
            final(self).spec_next_coords() == old(self).spec_coords(),
            final(self).spec_next_cells() == old(self).spec_cells(),
            final(self).spec_cycles() == old(self).spec_cycles(),
    {
        std::mem::swap(&mut self.cells, &mut self.next_cells);
        std::mem::swap(&mut self.chunk_coords, &mut self.next_chunk_coords);
        proof {
            lemma_index_map_distinct(self.chunks_index@, self.next_chunk_coords@);
        }
        self.rebuild_chunks_index();
    }

    /// Rebuilds the index of the chunks from their coordinates.
    fn rebuild_chunks_index(&mut self)
        requires
            coords_distinct(old(self).chunk_coords@),
            coords_in_range(old(self).chunk_coords@),
        ensures
            index_map_matches(final(self).chunks_index@, final(self).chunk_coords@),
            final(self).chunk_coords == old(self).chunk_coords,
            final(self).cells == old(self).cells,
            final(self).next_chunk_coords == old(self).next_chunk_coords,
            final(self).next_cells == old(self).next_cells,
            final(self).cycles_since_chunk_deallocation == old(self).cycles_since_chunk_deallocation,
    {
        self.chunks_index = build_index(&self.chunk_coords);
    }
}

/// When every chunk is kept, the kept indices are all the indices.
proof fn lemma_kept_all<State: CellState>(cells: Seq<State>, k: nat)
    requires
        kept_chunks(cells, k).len() == k,
    ensures
        forall|t: int| 0 <= t < k ==> #[trigger] kept_chunks(cells, k)[t] == t,
    decreases k,
{
    if k > 0 {
        lemma_kept_chunks(cells, (k - 1) as nat);
        lemma_kept_all(cells, (k - 1) as nat);
    }
}

/// Where no chunk below `m` has a default interior, all of them are kept.
proof fn lemma_none_default<State: CellState>(cells: Seq<State>, m: nat)
    requires
        forall|t: int| 0 <= t < m ==> !#[trigger] interior_is_default(cells, t),
    ensures
        kept_chunks(cells, m).len() == m,
    decreases m,
{
    if m > 0 {
        lemma_none_default(cells, (m - 1) as nat);
    }
}

/// Freeing the chunks with a default interior a second time frees nothing:
/// every chunk that the first pass keeps holds a state other than the
/// default in its interior.
pub proof fn lemma_kept_chunks_stay<State: CellState>(cells: Seq<State>, n: nat, kept_cells: Seq<State>)
    requires
        forall|t: int, k: int|
            0 <= t < kept_chunks(cells, n).len() && 0 <= k < EXTENDED_CHUNK_CELLS ==> #[trigger] chunk_at(
                kept_cells,
                t,
                k,
            ) == chunk_at(cells, kept_chunks(cells, n)[t], k),
    ensures
        kept_chunks(kept_cells, kept_chunks(cells, n).len()).len() == kept_chunks(cells, n).len(),
{
    let kept = kept_chunks(cells, n);
    lemma_kept_chunks(cells, n);
    assert forall|t: int| 0 <= t < kept.len() implies !#[trigger] interior_is_default(kept_cells, t) by {
        assert(!interior_is_default(cells, kept[t]));
        let (lx, ly) = choose|lx: int, ly: int|
            in_interior(lx, ly) && #[trigger] cell_of(cells, kept[t], lx, ly) != State::spec_default();
        lemma_flat_index(0, 1, lx, ly);
        assert(chunk_at(kept_cells, t, spec_ext_index(lx, ly)) == chunk_at(cells, kept[t], spec_ext_index(lx, ly)));
        assert(cell_of(kept_cells, t, lx, ly) != State::spec_default());
    }
    lemma_none_default(kept_cells, kept.len());
}

/// Positions of earlier chunks come before the start of a later chunk.
proof fn lemma_chunk_pos(t: int, k: int, n: int)
    requires
        0 <= t < n,
        0 <= k < EXTENDED_CHUNK_CELLS,
    ensures
        0 <= t * EXTENDED_CHUNK_CELLS + k < n * EXTENDED_CHUNK_CELLS,
        t * EXTENDED_CHUNK_CELLS + k < (t + 1) * EXTENDED_CHUNK_CELLS,
{
    assert(0 <= t * 4356 + k < n * 4356) by (nonlinear_arith)
        requires
            0 <= t < n,
            0 <= k < 4356,
    ;
}

impl<State: CellState> ChunkStorage<State> {
    /// Frees the chunks that hold only the default state in their interior,
    /// keeping the others in their order, and gives the number freed.
    #[verifier::rlimit(30)]
    #[verifier::spinoff_prover]
    pub fn deallocate_default_chunks(&mut self) -> (removed: usize)
        requires
            old(self).wf(),
        ensures
            final(self).wf(),
            final(self).num_chunks() == kept_chunks(old(self).spec_cells(), old(self).num_chunks()).len(),
            removed == old(self).num_chunks() - final(self).num_chunks(),
            forall|t: int|
                0 <= t < final(self).num_chunks() ==> #[trigger] final(self).spec_coords()[t] == old(
                    self,
                ).spec_coords()[kept_chunks(old(self).spec_cells(), old(self).num_chunks())[t]],
            forall|t: int, k: int|
                0 <= t < final(self).num_chunks() && 0 <= k < EXTENDED_CHUNK_CELLS ==> #[trigger] chunk_at(
                    final(self).spec_cells(),
                    t,
                    k,
                ) == chunk_at(
                    old(self).spec_cells(),
                    kept_chunks(old(self).spec_cells(), old(self).num_chunks())[t],
                    k,
                ),
            forall|p: int, q: int| #[trigger] final(self).state_at(p, q) == old(self).state_at(p, q),
            old(self).halos_consistent() ==> final(self).halos_consistent(),
            removed == 0 ==> final(self).spec_coords() == old(self).spec_coords() && final(self).spec_cells()
                == old(self).spec_cells() && final(self).spec_index_map() == old(self).spec_index_map(),
            final(self).spec_next_coords() == old(self).spec_next_coords(),
            final(self).spec_next_cells() == old(self).spec_next_cells(),
            final(self).spec_cycles() == old(self).spec_cycles(),
    {
        let ghost before = *self;
        proof {
            self.lemma_wf_len();
            lemma_index_map_distinct(self.chunks_index@, self.chunk_coords@);
        }
        let n = self.chunk_coords.len();
        let ghost cells = self.cells@;
        let mut new_coords: Vec<(isize, isize)> = Vec::new();
        let mut new_cells: Vec<State> = Vec::new();
        let mut j: usize = 0;
        while j < n
            invariant
                j <= n,
                n == before.num_chunks(),
                *self == before,
                cells == self.cells@,
                self.wf(),
                n * EXTENDED_CHUNK_CELLS <= usize::MAX,
                new_coords@.len() == kept_chunks(cells, j as nat).len(),
                new_cells@.len() == new_coords@.len() * EXTENDED_CHUNK_CELLS,
                forall|t: int|
                    0 <= t < new_coords@.len() ==> #[trigger] new_coords@[t] == self.chunk_coords@[kept_chunks(
                        cells,
                        j as nat,
                    )[t]],
                forall|t: int, k: int|
                    0 <= t < new_coords@.len() && 0 <= k < EXTENDED_CHUNK_CELLS ==> #[trigger] chunk_at(
                        new_cells@,
                        t,
                        k,
                    ) == chunk_at(cells, kept_chunks(cells, j as nat)[t], k),
            decreases n - j,
        {
            proof {
                lemma_kept_chunks(cells, j as nat);
                assert((j + 1) * EXTENDED_CHUNK_CELLS <= n * EXTENDED_CHUNK_CELLS) by (nonlinear_arith)
                    requires
                        j < n,
                ;
                assert(j * EXTENDED_CHUNK_CELLS + EXTENDED_CHUNK_CELLS <= n * EXTENDED_CHUNK_CELLS) by (nonlinear_arith)
                    requires
                        j < n,
                ;
            }
            if has_non_default_interior(self.cells.as_slice(), j) {
                let ghost prev = new_cells@;
                let ghost big_t = new_coords@.len() as int;
                new_coords.push(self.chunk_coords[j]);
                let start = j * EXTENDED_CHUNK_CELLS;
                let mut k: usize = 0;
                while k < EXTENDED_CHUNK_CELLS
                    invariant
                        k <= EXTENDED_CHUNK_CELLS,
                        start == j * EXTENDED_CHUNK_CELLS,
                        (j + 1) * EXTENDED_CHUNK_CELLS <= n * EXTENDED_CHUNK_CELLS,
                        j * EXTENDED_CHUNK_CELLS + EXTENDED_CHUNK_CELLS <= n * EXTENDED_CHUNK_CELLS,
                        n * EXTENDED_CHUNK_CELLS <= usize::MAX,
                        j < n,
                        n == before.num_chunks(),
                        *self == before,
                        cells == self.cells@,
                        self.wf(),
                        prev.len() == big_t * EXTENDED_CHUNK_CELLS,
                        new_cells@.len() == prev.len() + k,
                        forall|u: int| 0 <= u < prev.len() ==> #[trigger] new_cells@[u] == prev[u],
                        forall|kk: int| 0 <= kk < k ==> #[trigger] new_cells@[prev.len() + kk] == cells[start + kk],
                    decreases EXTENDED_CHUNK_CELLS - k,
                {
                    proof {
                        lemma_chunk_pos(j as int, k as int, n as int);
                    }
                    new_cells.push(self.cells[start + k]);
                    k = k + 1;
                }
                proof {
                    let kj = kept_chunks(cells, (j + 1) as nat);
                    let kprev = kept_chunks(cells, j as nat);
                    assert(kj == kprev.push(j as int));
                    assert(new_cells@.len() == new_coords@.len() * EXTENDED_CHUNK_CELLS) by (nonlinear_arith)
                        requires
                            new_cells@.len() == big_t * EXTENDED_CHUNK_CELLS + EXTENDED_CHUNK_CELLS,
                            new_coords@.len() == big_t + 1,
                    ;
                    assert forall|t: int, k2: int|
                        0 <= t < new_coords@.len() && 0 <= k2 < EXTENDED_CHUNK_CELLS implies #[trigger] chunk_at(
                        new_cells@,
                        t,
                        k2,
                    ) == chunk_at(cells, kj[t], k2) by {
                        if t < big_t {
                            lemma_chunk_pos(t, k2, big_t);
                            assert(new_cells@[t * EXTENDED_CHUNK_CELLS + k2] == prev[t * EXTENDED_CHUNK_CELLS + k2]);
                            assert(chunk_at(prev, t, k2) == chunk_at(cells, kprev[t], k2));
                        } else {
                            assert(new_cells@[prev.len() + k2] == cells[start + k2]);
                        }
                    }
                    assert forall|t: int| 0 <= t < new_coords@.len() implies #[trigger] new_coords@[t] == self.chunk_coords@[kj[t]] by {
                        if t < big_t {
                            assert(kj[t] == kprev[t]);
                        }
                    }
                }
            }
            j = j + 1;
        }
        proof {
            lemma_kept_chunks(cells, n as nat);
        }
        let removed = n - new_coords.len();
        if removed > 0 {
            let ghost kept = kept_chunks(cells, n as nat);
            proof {
                assert(coords_in_range(new_coords@)) by {
                    assert forall|t: int| 0 <= t < new_coords@.len() implies chunk_coord_in_range(
                        #[trigger] new_coords@[t].0 as int,
                    ) && chunk_coord_in_range(new_coords@[t].1 as int) by {
                        let i = kept[t];
                        assert(new_coords@[t] == before.chunk_coords@[i]);
                        assert(chunk_coord_in_range(before.chunk_coords@[i].0 as int));
                    }
                }
                assert forall|t: int, u: int|
                    0 <= t < new_coords@.len() && 0 <= u < new_coords@.len() && t != u implies #[trigger] new_coords@[t]
                    != #[trigger] new_coords@[u] by {
                    if t < u {
                        assert(kept[t] < kept[u]);
                    } else {
                        assert(kept[u] < kept[t]);
                    }
                }
            }
            self.chunk_coords = new_coords;
            self.cells = new_cells;
            self.rebuild_chunks_index();
            proof {
                let after = *self;
                assert forall|p: int, q: int| #[trigger] after.state_at(p, q) == before.state_at(p, q) by {
                    lemma_coord_parts(p);
                    lemma_coord_parts(q);
                    let cx = spec_chunk_coord(p);
                    let cy = spec_chunk_coord(q);
                    let lx = spec_cell_coord(p);
                    let ly = spec_cell_coord(q);
                    if let Some(t) = after.chunk_index_of(cx, cy) {
                        after.lemma_chunk_index_of(cx, cy);
                        before.lemma_index_of_chunk(kept[t]);
                        assert(after.chunk_cell(t, lx, ly) == chunk_at(after.cells@, t, spec_ext_index(lx, ly)));
                    } else if let Some(i) = before.chunk_index_of(cx, cy) {
                        before.lemma_chunk_index_of(cx, cy);
                        if !interior_is_default(cells, i) {
                            let t = choose|t: int| 0 <= t < kept.len() && #[trigger] kept[t] == i;
                            after.lemma_index_of_chunk(t);
                        }
                        assert(before.chunk_cell(i, lx, ly) == State::spec_default());
                    }
                }
                if before.halos_consistent() {
                    assert forall|t: int, lx: int, ly: int|
                        0 <= t < after.num_chunks() && in_window(lx, ly) implies #[trigger] after.chunk_cell(t, lx, ly)
                        == after.state_at(
                        after.spec_coords()[t].0 * CHUNK_SIZE + lx,
                        after.spec_coords()[t].1 * CHUNK_SIZE + ly,
                    ) by {
                        lemma_flat_index(0, 1, lx, ly);
                        assert(after.chunk_cell(t, lx, ly) == chunk_at(after.cells@, t, spec_ext_index(lx, ly)));
                        assert(before.chunk_cell(kept[t], lx, ly) == before.state_at(
                            before.spec_coords()[kept[t]].0 * CHUNK_SIZE + lx,
                            before.spec_coords()[kept[t]].1 * CHUNK_SIZE + ly,
                        ));
                    }
                }
            }
        } else {
            proof {
                lemma_kept_all(cells, n as nat);
            }
        }
        removed
    }

    /// Counts one more generation; every `CHUNK_DEALLOCATION_INTERVAL`
    /// generations frees the chunks with a default interior and starts
    /// counting again. Tells whether any chunk was freed.
    pub fn on_evaluate_next(&mut self) -> (deallocated: bool)
        requires
            old(self).wf(),
        ensures
            final(self).wf(),
            forall|p: int, q: int| #[trigger] final(self).state_at(p, q) == old(self).state_at(p, q),
            old(self).halos_consistent() ==> final(self).halos_consistent(),
            old(self).neighbors_allocated() && !deallocated ==> final(self).neighbors_allocated(),
            final(self).spec_next_coords() == old(self).spec_next_coords(),
            final(self).spec_next_cells() == old(self).spec_next_cells(),
            old(self).spec_cycles() + 1 < CHUNK_DEALLOCATION_INTERVAL ==> {
                &&& !deallocated
                &&& final(self).spec_cycles() == old(self).spec_cycles() + 1
                &&& final(self).spec_coords() == old(self).spec_coords()
                &&& final(self).spec_cells() == old(self).spec_cells()
                &&& final(self).spec_index_map() == old(self).spec_index_map()
            },
            old(self).spec_cycles() + 1 >= CHUNK_DEALLOCATION_INTERVAL ==> {
                &&& final(self).spec_cycles() == 0
                &&& final(self).num_chunks() == kept_chunks(old(self).spec_cells(), old(self).num_chunks()).len()
                &&& deallocated == (final(self).num_chunks() < old(self).num_chunks())
            },
            old(self).spec_cycles() + 1 >= CHUNK_DEALLOCATION_INTERVAL ==> forall|t: int|
                0 <= t < final(self).num_chunks() ==> #[trigger] final(self).spec_coords()[t] == old(
                    self,
                ).spec_coords()[kept_chunks(old(self).spec_cells(), old(self).num_chunks())[t]],
            old(self).spec_cycles() + 1 >= CHUNK_DEALLOCATION_INTERVAL ==> forall|t: int, k: int|
                0 <= t < final(self).num_chunks() && 0 <= k < EXTENDED_CHUNK_CELLS ==> #[trigger] chunk_at(
                    final(self).spec_cells(),
                    t,
                    k,
                ) == chunk_at(
                    old(self).spec_cells(),
                    kept_chunks(old(self).spec_cells(), old(self).num_chunks())[t],
                    k,
                ),
    {
        let ghost before = *self;
        self.cycles_since_chunk_deallocation = self.cycles_since_chunk_deallocation + 1;
        if self.cycles_since_chunk_deallocation >= CHUNK_DEALLOCATION_INTERVAL {
            self.cycles_since_chunk_deallocation = 0;
            proof {
                self.lemma_same_grid(&before);
            }
            let ghost mid = *self;
            let deallocated = self.deallocate_default_chunks() > 0;
            proof {
                if !deallocated {
                    self.lemma_same_grid(&mid);
                }
            }
            return deallocated;
        }
        proof {
            self.lemma_same_grid(&before);
        }
        false
    }

    /// Whether the next generation frees the chunks with a default
    /// interior.
    pub fn should_deallocate_next(&self) -> (r: bool)
        requires
            self.wf(),
        ensures
            r == (self.spec_cycles() + 1 >= CHUNK_DEALLOCATION_INTERVAL),
    {
        self.cycles_since_chunk_deallocation + 1 >= CHUNK_DEALLOCATION_INTERVAL
    }
}

/// Counted from an empty storage, the generations go round in periods of
/// `CHUNK_DEALLOCATION_INTERVAL`: where `states` holds a storage whose
/// counter is zero and then the storage after each further generation, the
/// counter after `k` generations stands at `k` modulo the interval, and the
/// generation after them frees chunks exactly when `k` is one less than a
/// multiple of the interval.
pub proof fn lemma_deallocation_period<State: CellState>(states: Seq<ChunkStorage<State>>)
    requires
        states.len() > 0,
        states[0].spec_cycles() == 0,
        forall|k: int|
            0 < k < states.len() ==> #[trigger] states[k].spec_cycles() == if states[k - 1].spec_cycles() + 1
                >= CHUNK_DEALLOCATION_INTERVAL {
                0
            } else {
                states[k - 1].spec_cycles() + 1
            },
    ensures
        forall|k: int| 0 <= k < states.len() ==> #[trigger] states[k].spec_cycles() == k % (
        CHUNK_DEALLOCATION_INTERVAL as int),
        forall|k: int|
            0 <= k < states.len() ==> (#[trigger] states[k].spec_cycles() + 1 >= CHUNK_DEALLOCATION_INTERVAL) == (k % (
            CHUNK_DEALLOCATION_INTERVAL as int) == CHUNK_DEALLOCATION_INTERVAL - 1),
    decreases states.len(),
{
    let n = states.len() - 1;
    if n > 0 {
        let prev = states.subrange(0, n);
        assert forall|k: int| 0 < k < prev.len() implies #[trigger] prev[k].spec_cycles() == if prev[k - 1].spec_cycles() + 1
            >= CHUNK_DEALLOCATION_INTERVAL {
            0
        } else {
            prev[k - 1].spec_cycles() + 1
        } by {
            assert(prev[k] == states[k]);
            assert(prev[k - 1] == states[k - 1]);
        }
        lemma_deallocation_period(prev);
        assert(prev[n - 1] == states[n - 1]);
        assert(states[n].spec_cycles() == if states[n - 1].spec_cycles() + 1 >= CHUNK_DEALLOCATION_INTERVAL {
            0
        } else {
            states[n - 1].spec_cycles() + 1
        });
        lemma_period_step(n, states[n - 1].spec_cycles() as int, states[n].spec_cycles() as int);
        assert forall|k: int| 0 <= k < states.len() implies #[trigger] states[k].spec_cycles() == k % (
        CHUNK_DEALLOCATION_INTERVAL as int) by {
            if k < n {
                assert(prev[k] == states[k]);
            }
        }
    }
}

/// One more generation moves the counter from `n - 1` to `n` modulo the
/// interval.
proof fn lemma_period_step(n: int, prev: int, cur: int)
    requires
        n > 0,
        prev == (n - 1) % (CHUNK_DEALLOCATION_INTERVAL as int),
        cur == if prev + 1 >= CHUNK_DEALLOCATION_INTERVAL {
            0
        } else {
            prev + 1
        },
    ensures
        cur == n % (CHUNK_DEALLOCATION_INTERVAL as int),
{
    let q = (n - 1) / 64;
    vstd::arithmetic::div_mod::lemma_fundamental_div_mod(n - 1, 64);
    vstd::arithmetic::div_mod::lemma_mod_bound(n - 1, 64);
    if prev + 1 < 64 {
        vstd::arithmetic::div_mod::lemma_fundamental_div_mod_converse(n, 64, q, prev + 1);
    } else {
        assert(n == 64 * (q + 1));
        vstd::arithmetic::div_mod::lemma_fundamental_div_mod_converse(n, 64, q + 1, 0);
    }
}

/// The states around position `index` of a chunk with its border, in the
/// order of the neighborhood `N`.
pub open spec fn window_neighbors<State: CellState, N: CellNeighborhood<State>>(chunk: Seq<State>, index: int) -> Seq<
    State,
> {
    Seq::new(
        N::spec_num_cells(),
        |k: int| chunk[index + N::spec_offset(k).1 * EXTENDED_CHUNK_SIZE + N::spec_offset(k).0],
    )
}

/// A neighborhood that can be read from a chunk with its border.
pub trait FillNeighborhood<State: CellState>: CellNeighborhood<State> {
    /// Reads into `state` the cell at position `index` of `chunk` and into
    /// `neighborhood` the cells around it.
    fn fill_neighborhood(chunk: &[State], index: usize, state: &mut State, neighborhood: &mut Self)
        requires
            chunk@.len() == EXTENDED_CHUNK_CELLS,
            EXTENDED_CHUNK_SIZE + 1 <= index < EXTENDED_CHUNK_CELLS - EXTENDED_CHUNK_SIZE - 1,
        ensures
            *final(state) == chunk@[index as int],
            final(neighborhood).spec_cells() == window_neighbors::<State, Self>(chunk@, index as int),
    ;
}

impl<State: CellState> FillNeighborhood<State> for MooreNeighborhood<State> {
    fn fill_neighborhood(chunk: &[State], index: usize, state: &mut State, neighborhood: &mut Self) {
        // 0 1 2
        // 3 X 4
        // 5 6 7
        let start = index - interior_start_index();
        neighborhood.neighbors[0] = chunk[start];
        neighborhood.neighbors[1] = chunk[start + 1];
        neighborhood.neighbors[2] = chunk[start + 2];
        neighborhood.neighbors[3] = chunk[index - 1];
        neighborhood.neighbors[4] = chunk[index + 1];
        let start = start + EXTENDED_CHUNK_SIZE * 2;
        neighborhood.neighbors[5] = chunk[start];
        neighborhood.neighbors[6] = chunk[start + 1];
        neighborhood.neighbors[7] = chunk[start + 2];
        *state = chunk[index];
        assert(neighborhood.neighbors@ =~= window_neighbors::<State, Self>(chunk@, index as int));
    }
}

impl<State: CellState> FillNeighborhood<State> for VonNeumannNeighborhood<State> {
    fn fill_neighborhood(chunk: &[State], index: usize, state: &mut State, neighborhood: &mut Self) {
        //   0
        // 1 X 2
        //   3
        neighborhood.neighbors[0] = chunk[index - EXTENDED_CHUNK_SIZE];
        neighborhood.neighbors[1] = chunk[index - 1];
        neighborhood.neighbors[2] = chunk[index + 1];
        neighborhood.neighbors[3] = chunk[index + EXTENDED_CHUNK_SIZE];
        *state = chunk[index];
        assert(neighborhood.neighbors@ =~= window_neighbors::<State, Self>(chunk@, index as int));
    }
}

/// Sets cell `x` of the top border of a chunk.
pub(crate) fn set_top_border<State: CellState>(chunk: &mut [State], x: usize, new_state: State)
    requires
        old(chunk)@.len() == EXTENDED_CHUNK_CELLS,
        x < CHUNK_SIZE,
    ensures
        final(chunk)@ == old(chunk)@.update(spec_ext_index(x as int, -1), new_state),
{
    chunk[x + 1] = new_state;
}

/// Sets cell `x` of the bottom border of a chunk.
pub(crate) fn set_bottom_border<State: CellState>(chunk: &mut [State], x: usize, new_state: State)
    requires
        old(chunk)@.len() == EXTENDED_CHUNK_CELLS,
        x < CHUNK_SIZE,
    ensures
        final(chunk)@ == old(chunk)@.update(spec_ext_index(x as int, CHUNK_SIZE as int), new_state),
{
    chunk[EXTENDED_CHUNK_SIZE * (EXTENDED_CHUNK_SIZE - 1) + x + 1] = new_state;
}

/// Sets cell `y` of the left border of a chunk.
pub(crate) fn set_left_border<State: CellState>(chunk: &mut [State], y: usize, new_state: State)
    requires
        old(chunk)@.len() == EXTENDED_CHUNK_CELLS,
        y < CHUNK_SIZE,
    ensures
        final(chunk)@ == old(chunk)@.update(spec_ext_index(-1, y as int), new_state),
{
    chunk[EXTENDED_CHUNK_SIZE * (y + 1)] = new_state;
}

/// Sets cell `y` of the right border of a chunk.
pub(crate) fn set_right_border<State: CellState>(chunk: &mut [State], y: usize, new_state: State)
    requires
        old(chunk)@.len() == EXTENDED_CHUNK_CELLS,
        y < CHUNK_SIZE,
    ensures
        final(chunk)@ == old(chunk)@.update(spec_ext_index(CHUNK_SIZE as int, y as int), new_state),
{
    chunk[EXTENDED_CHUNK_SIZE * (y + 1) + EXTENDED_CHUNK_SIZE - 1] = new_state;
}

/// Sets the top left corner of the border of a chunk.
pub(crate) fn set_top_left_corner<State: CellState>(chunk: &mut [State], new_state: State)
    requires
        old(chunk)@.len() == EXTENDED_CHUNK_CELLS,
    ensures
        final(chunk)@ == old(chunk)@.update(spec_ext_index(-1, -1), new_state),
{
    chunk[0] = new_state;
}

/// Sets the top right corner of the border of a chunk.
pub(crate) fn set_top_right_corner<State: CellState>(chunk: &mut [State], new_state: State)
    requires
        old(chunk)@.len() == EXTENDED_CHUNK_CELLS,
    ensures
        final(chunk)@ == old(chunk)@.update(spec_ext_index(CHUNK_SIZE as int, -1), new_state),
{
    chunk[EXTENDED_CHUNK_SIZE - 1] = new_state;
}

/// Sets the bottom left corner of the border of a chunk.
pub(crate) fn set_bottom_left_corner<State: CellState>(chunk: &mut [State], new_state: State)
    requires
        old(chunk)@.len() == EXTENDED_CHUNK_CELLS,
    ensures
        final(chunk)@ == old(chunk)@.update(spec_ext_index(-1, CHUNK_SIZE as int), new_state),
{
    chunk[EXTENDED_CHUNK_SIZE * (EXTENDED_CHUNK_SIZE - 1)] = new_state;
}

/// Sets the bottom right corner of the border of a chunk.
pub(crate) fn set_bottom_right_corner<State: CellState>(chunk: &mut [State], new_state: State)
    requires
        old(chunk)@.len() == EXTENDED_CHUNK_CELLS,
    ensures
        final(chunk)@ == old(chunk)@.update(spec_ext_index(CHUNK_SIZE as int, CHUNK_SIZE as int), new_state),
{
    chunk[EXTENDED_CHUNK_CELLS - 1] = new_state;
}

/// Window position (`lx`, `ly`) is on the border.
pub open spec fn on_border(lx: int, ly: int) -> bool {
    in_window(lx, ly) && !in_interior(lx, ly)
}

/// Distinct window positions of a chunk are distinct positions.
proof fn lemma_ext_injective(lx1: int, ly1: int, lx2: int, ly2: int)
    requires
        in_window(lx1, ly1),
        in_window(lx2, ly2),
    ensures
        (spec_ext_index(lx1, ly1) == spec_ext_index(lx2, ly2)) == (lx1 == lx2 && ly1 == ly2),
        0 <= spec_ext_index(lx1, ly1) < EXTENDED_CHUNK_CELLS,
{
    lemma_flat_index_injective(0, lx1, ly1, 0, lx2, ly2);
    lemma_flat_index(0, 1, lx1, ly1);
}

/// Sets every border cell of a chunk to the default state.
#[verifier::rlimit(30)]
pub(crate) fn clear_halo<State: CellState>(chunk: &mut [State])
    requires
        old(chunk)@.len() == EXTENDED_CHUNK_CELLS,
    ensures
        final(chunk)@.len() == EXTENDED_CHUNK_CELLS,
        forall|lx: int, ly: int|
            in_window(lx, ly) ==> #[trigger] final(chunk)@[spec_ext_index(lx, ly)] == if in_interior(lx, ly) {
                old(chunk)@[spec_ext_index(lx, ly)]
            } else {
                State::spec_default()
            },
{
    let ghost before = chunk@;
    let d = State::default_state();
    let mut x: usize = 0;
    while x < CHUNK_SIZE
        invariant
            x <= CHUNK_SIZE,
            d == State::spec_default(),
            chunk@.len() == EXTENDED_CHUNK_CELLS,
            forall|lx: int, ly: int|
                in_window(lx, ly) ==> #[trigger] chunk@[spec_ext_index(lx, ly)] == if (ly == -1 || ly == CHUNK_SIZE)
                    && 0 <= lx < x {
                    d
                } else {
                    before[spec_ext_index(lx, ly)]
                },
        decreases CHUNK_SIZE - x,
    {
        proof {
            assert forall|lx: int, ly: int| in_window(lx, ly) implies spec_ext_index(lx, ly) != spec_ext_index(x as int, -1)
                || (lx == x && ly == -1) by {
                lemma_ext_injective(lx, ly, x as int, -1);
            }
            assert forall|lx: int, ly: int| in_window(lx, ly) implies spec_ext_index(lx, ly) != spec_ext_index(
                x as int,
                CHUNK_SIZE as int,
            ) || (lx == x && ly == CHUNK_SIZE) by {
                lemma_ext_injective(lx, ly, x as int, CHUNK_SIZE as int);
            }
        }
        set_top_border(chunk, x, d);
        set_bottom_border(chunk, x, d);
        x = x + 1;
    }
    let mut y: usize = 0;
    while y < CHUNK_SIZE
        invariant
            y <= CHUNK_SIZE,
            d == State::spec_default(),
            chunk@.len() == EXTENDED_CHUNK_CELLS,
            forall|lx: int, ly: int|
                in_window(lx, ly) ==> #[trigger] chunk@[spec_ext_index(lx, ly)] == if ((ly == -1 || ly == CHUNK_SIZE)
                    && 0 <= lx < CHUNK_SIZE) || ((lx == -1 || lx == CHUNK_SIZE) && 0 <= ly < y) {
                    d
                } else {
                    before[spec_ext_index(lx, ly)]
                },
        decreases CHUNK_SIZE - y,
    {
        proof {
            assert forall|lx: int, ly: int| in_window(lx, ly) implies spec_ext_index(lx, ly) != spec_ext_index(-1, y as int)
                || (lx == -1 && ly == y) by {
                lemma_ext_injective(lx, ly, -1, y as int);
            }
            assert forall|lx: int, ly: int| in_window(lx, ly) implies spec_ext_index(lx, ly) != spec_ext_index(
                CHUNK_SIZE as int,
                y as int,
            ) || (lx == CHUNK_SIZE && ly == y) by {
                lemma_ext_injective(lx, ly, CHUNK_SIZE as int, y as int);
            }
        }
        set_left_border(chunk, y, d);
        set_right_border(chunk, y, d);
        y = y + 1;
    }
    proof {
        assert forall|lx: int, ly: int| in_window(lx, ly) implies {
            &&& spec_ext_index(lx, ly) != spec_ext_index(-1, -1) || (lx == -1 && ly == -1)
            &&& spec_ext_index(lx, ly) != spec_ext_index(CHUNK_SIZE as int, -1) || (lx == CHUNK_SIZE && ly == -1)
            &&& spec_ext_index(lx, ly) != spec_ext_index(-1, CHUNK_SIZE as int) || (lx == -1 && ly == CHUNK_SIZE)
            &&& spec_ext_index(lx, ly) != spec_ext_index(CHUNK_SIZE as int, CHUNK_SIZE as int) || (lx == CHUNK_SIZE
                && ly == CHUNK_SIZE)
        } by {
            lemma_ext_injective(lx, ly, -1, -1);
            lemma_ext_injective(lx, ly, CHUNK_SIZE as int, -1);
            lemma_ext_injective(lx, ly, -1, CHUNK_SIZE as int);
            lemma_ext_injective(lx, ly, CHUNK_SIZE as int, CHUNK_SIZE as int);
        }
    }
    set_top_left_corner(chunk, d);
    set_top_right_corner(chunk, d);
    set_bottom_left_corner(chunk, d);
    set_bottom_right_corner(chunk, d);
}

impl<State: CellState> ChunkStorage<State> {
    /// Sets every border cell of chunk `j` to the default state.
    fn clear_halo_of(&mut self, j: usize)
        requires
            old(self).wf(),
            j < old(self).num_chunks(),
        ensures
            final(self).wf(),
            final(self).spec_coords() == old(self).spec_coords(),
            final(self).spec_index_map() == old(self).spec_index_map(),
            final(self).spec_next_coords() == old(self).spec_next_coords(),
            final(self).spec_next_cells() == old(self).spec_next_cells(),
            final(self).spec_cycles() == old(self).spec_cycles(),
            forall|t: int, lx: int, ly: int|
                0 <= t < old(self).num_chunks() && in_window(lx, ly) ==> #[trigger] final(self).chunk_cell(t, lx, ly)
                    == if t == j && !in_interior(lx, ly) {
                    State::spec_default()
                } else {
                    old(self).chunk_cell(t, lx, ly)
                },
    {
        proof {
            self.lemma_wf_len();
            lemma_chunk_pos(j as int, 0, self.num_chunks() as int);
            assert(j * EXTENDED_CHUNK_CELLS + EXTENDED_CHUNK_CELLS <= self.num_chunks() * EXTENDED_CHUNK_CELLS) by (nonlinear_arith)
                requires
                    j < self.num_chunks(),
            ;
        }
        let ghost before = *self;
        let start = j * EXTENDED_CHUNK_CELLS;
        let cells = self.cells.as_mut_slice();
        let (head, rest) = cells.split_at_mut(start);
        let (chunk, tail) = rest.split_at_mut(EXTENDED_CHUNK_CELLS);
        let ghost chunk_before = chunk@;
        clear_halo(chunk);
        let ghost chunk_after = chunk@;
        proof {
            let n = before.num_chunks() as int;
            let len = before.cells@.len() as int;
            assert(self.cells@ =~= before.cells@.subrange(0, start as int) + chunk_after + before.cells@.subrange(
                start + EXTENDED_CHUNK_CELLS,
                len,
            ));
            assert forall|t: int, lx: int, ly: int| 0 <= t < n && in_window(lx, ly) implies #[trigger] self.chunk_cell(
                t,
                lx,
                ly,
            ) == if t == j && !in_interior(lx, ly) {
                State::spec_default()
            } else {
                before.chunk_cell(t, lx, ly)
            } by {
                lemma_flat_index(t, n, lx, ly);
                let p = t * EXTENDED_CHUNK_CELLS + spec_ext_index(lx, ly);
                if t < j {
                    lemma_chunk_pos(t, spec_ext_index(lx, ly), j as int);
                } else if t > j {
                    assert(p >= start + EXTENDED_CHUNK_CELLS) by (nonlinear_arith)
                        requires
                            t > j,
                            p == t * EXTENDED_CHUNK_CELLS + spec_ext_index(lx, ly),
                            spec_ext_index(lx, ly) >= 0,
                            start == j * EXTENDED_CHUNK_CELLS,
                    ;
                } else {
                    assert(chunk_before[spec_ext_index(lx, ly)] == before.cells@[p]);
                }
            }
        }
    }

    /// Sets every border cell of every chunk to the default state.
    fn clear_all_halos(&mut self)
        requires
            old(self).wf(),
        ensures
            final(self).wf(),
            final(self).spec_coords() == old(self).spec_coords(),
            final(self).spec_index_map() == old(self).spec_index_map(),
            final(self).spec_next_coords() == old(self).spec_next_coords(),
            final(self).spec_next_cells() == old(self).spec_next_cells(),
            final(self).spec_cycles() == old(self).spec_cycles(),
            forall|t: int, lx: int, ly: int|
                0 <= t < old(self).num_chunks() && in_window(lx, ly) ==> #[trigger] final(self).chunk_cell(t, lx, ly)
                    == if in_interior(lx, ly) {
                    old(self).chunk_cell(t, lx, ly)
                } else {
                    State::spec_default()
                },
    {
        let ghost before = *self;
        let n = self.chunk_coords.len();
        let mut j: usize = 0;
        while j < n
            invariant
                j <= n,
                n == before.num_chunks(),
                self.wf(),
                self.spec_coords() == before.spec_coords(),
                self.spec_index_map() == before.spec_index_map(),
                self.spec_next_coords() == before.spec_next_coords(),
                self.spec_next_cells() == before.spec_next_cells(),
                self.spec_cycles() == before.spec_cycles(),
                forall|t: int, lx: int, ly: int|
                    0 <= t < n && in_window(lx, ly) ==> #[trigger] self.chunk_cell(t, lx, ly) == if t < j && !in_interior(
                        lx,
                        ly,
                    ) {
                        State::spec_default()
                    } else {
                        before.chunk_cell(t, lx, ly)
                    },
            decreases n - j,
        {
            self.clear_halo_of(j);
            j = j + 1;
        }
    }
}

/// A border cell to set in the chunk at `coords`: the copy of an edge cell
/// of the chunk next to it.
pub enum BorderUpdate<State: CellState> {
    Top { coords: (isize, isize), index: usize, state: State },
    Bottom { coords: (isize, isize), index: usize, state: State },
    Left { coords: (isize, isize), index: usize, state: State },
    Right { coords: (isize, isize), index: usize, state: State },
    TopLeft { coords: (isize, isize), state: State },
    TopRight { coords: (isize, isize), state: State },
    BottomLeft { coords: (isize, isize), state: State },
    BottomRight { coords: (isize, isize), state: State },
}

impl<State: CellState> BorderUpdate<State> {
    /// The coordinates of the chunk to update.
    pub open spec fn spec_coords(&self) -> (isize, isize) {
        match *self {
            BorderUpdate::Top { coords, .. } => coords,
            BorderUpdate::Bottom { coords, .. } => coords,
            BorderUpdate::Left { coords, .. } => coords,
            BorderUpdate::Right { coords, .. } => coords,
            BorderUpdate::TopLeft { coords, .. } => coords,
            BorderUpdate::TopRight { coords, .. } => coords,
            BorderUpdate::BottomLeft { coords, .. } => coords,
            BorderUpdate::BottomRight { coords, .. } => coords,
        }
    }

    /// The column and the row, from -1 to `CHUNK_SIZE`, of the border cell.
    pub open spec fn spec_local(&self) -> (int, int) {
        match *self {
            BorderUpdate::Top { index, .. } => (index as int, -1),
            BorderUpdate::Bottom { index, .. } => (index as int, CHUNK_SIZE as int),
            BorderUpdate::Left { index, .. } => (-1, index as int),
            BorderUpdate::Right { index, .. } => (CHUNK_SIZE as int, index as int),
            BorderUpdate::TopLeft { .. } => (-1, -1),
            BorderUpdate::TopRight { .. } => (CHUNK_SIZE as int, -1),
            BorderUpdate::BottomLeft { .. } => (-1, CHUNK_SIZE as int),
            BorderUpdate::BottomRight { .. } => (CHUNK_SIZE as int, CHUNK_SIZE as int),
        }
    }

    /// The state to write.
    pub open spec fn spec_state(&self) -> State {
        match *self {
            BorderUpdate::Top { state, .. } => state,
            BorderUpdate::Bottom { state, .. } => state,
            BorderUpdate::Left { state, .. } => state,
            BorderUpdate::Right { state, .. } => state,
            BorderUpdate::TopLeft { state, .. } => state,
            BorderUpdate::TopRight { state, .. } => state,
            BorderUpdate::BottomLeft { state, .. } => state,
            BorderUpdate::BottomRight { state, .. } => state,
        }
    }

    /// The index along an edge is within the edge.
    pub open spec fn valid(&self) -> bool {
        match *self {
            BorderUpdate::Top { index, .. } => index < CHUNK_SIZE,
            BorderUpdate::Bottom { index, .. } => index < CHUNK_SIZE,
            BorderUpdate::Left { index, .. } => index < CHUNK_SIZE,
            BorderUpdate::Right { index, .. } => index < CHUNK_SIZE,
            _ => true,
        }
    }

    /// The coordinates of the chunk to update.
    fn coords(&self) -> (c: (isize, isize))
        ensures
            c == self.spec_coords(),
    {
        match *self {
            BorderUpdate::Top { coords, .. }
            | BorderUpdate::Bottom { coords, .. }
            | BorderUpdate::Left { coords, .. }
            | BorderUpdate::Right { coords, .. }
            | BorderUpdate::TopLeft { coords, .. }
            | BorderUpdate::TopRight { coords, .. }
            | BorderUpdate::BottomLeft { coords, .. }
            | BorderUpdate::BottomRight { coords, .. } => coords,
        }
    }

    /// Sets the border cell in `chunk`.
    fn apply(&self, chunk: &mut [State])
        requires
            old(chunk)@.len() == EXTENDED_CHUNK_CELLS,
            self.valid(),
        ensures
            final(chunk)@ == old(chunk)@.update(
                spec_ext_index(self.spec_local().0, self.spec_local().1),
                self.spec_state(),
            ),
    {
        match *self {
            BorderUpdate::Top { index, state, .. } => set_top_border(chunk, index, state),
            BorderUpdate::Bottom { index, state, .. } => set_bottom_border(chunk, index, state),
            BorderUpdate::Left { index, state, .. } => set_left_border(chunk, index, state),
            BorderUpdate::Right { index, state, .. } => set_right_border(chunk, index, state),
            BorderUpdate::TopLeft { state, .. } => set_top_left_corner(chunk, state),
            BorderUpdate::TopRight { state, .. } => set_top_right_corner(chunk, state),
            BorderUpdate::BottomLeft { state, .. } => set_bottom_left_corner(chunk, state),
            BorderUpdate::BottomRight { state, .. } => set_bottom_right_corner(chunk, state),
        }
    }
}

/// Some update among `updates` sets, in the chunk at `c`, the border cell
/// that shows the cell (`x`, `y`).
pub open spec fn targeted<State: CellState>(updates: Seq<BorderUpdate<State>>, c: (isize, isize), x: int, y: int) -> bool {
    exists|m: int|
        0 <= m < updates.len() && #[trigger] updates[m].spec_coords() == c && shows(
            c,
            updates[m].spec_local().0,
            updates[m].spec_local().1,
            x,
            y,
        )
}

/// What an update targets stays targeted when more updates follow.
proof fn lemma_targeted_extend<State: CellState>(u1: Seq<BorderUpdate<State>>, u2: Seq<BorderUpdate<State>>)
    requires
        u1.len() <= u2.len(),
        forall|m: int| 0 <= m < u1.len() ==> u2[m] == u1[m],
    ensures
        forall|c: (isize, isize), x: int, y: int| #[trigger] targeted(u2, c, x, y) || !targeted(u1, c, x, y),
{
    assert forall|c: (isize, isize), x: int, y: int| #[trigger] targeted(u2, c, x, y) || !targeted(u1, c, x, y) by {
        if targeted(u1, c, x, y) {
            let m = choose|m: int|
                0 <= m < u1.len() && #[trigger] u1[m].spec_coords() == c && shows(
                    c,
                    u1[m].spec_local().0,
                    u1[m].spec_local().1,
                    x,
                    y,
                );
            assert(u2[m] == u1[m]);
        }
    }
}

/// A cell coordinate that fits in `isize` lies in a chunk whose neighbors
/// are in range.
proof fn lemma_addressable_chunk(v: int)
    requires
        isize::MIN <= v <= isize::MAX,
    ensures
        isize::MIN / 64 <= spec_chunk_coord(v) <= isize::MAX / 64,
{
    vstd::arithmetic::div_mod::lemma_div_is_ordered(isize::MIN as int, v, 64);
    vstd::arithmetic::div_mod::lemma_div_is_ordered(v, isize::MAX as int, 64);
}

impl<State: CellState> ChunkStorage<State> {
    /// Some border cell of the chunk at `c` stands for a cell of the grid in
    /// a state other than the default.
    pub open spec fn border_shows_non_default(&self, c: (isize, isize)) -> bool {
        exists|lx: int, ly: int|
            #![trigger on_border(lx, ly)]
            on_border(lx, ly) && self.state_at(c.0 * CHUNK_SIZE + lx, c.1 * CHUNK_SIZE + ly) != State::spec_default()
    }

    /// Every cell in a state other than the default has coordinates that
    /// fit in `isize`.
    pub open spec fn cells_addressable(&self) -> bool {
        forall|x: int, y: int|
            #[trigger] self.state_at(x, y) != State::spec_default() ==> isize::MIN <= x <= isize::MAX && isize::MIN <= y
                <= isize::MAX
    }

    /// The update writes, in a chunk next to the one it copies from, the
    /// state of a cell of the grid that is not the default.
    pub open spec fn update_sound(&self, u: BorderUpdate<State>) -> bool {
        &&& u.valid()
        &&& u.spec_state() != State::spec_default()
        &&& on_border(u.spec_local().0, u.spec_local().1)
        &&& chunk_coord_in_range(u.spec_coords().0 as int)
        &&& chunk_coord_in_range(u.spec_coords().1 as int)
        &&& u.spec_state() == self.state_at(
            u.spec_coords().0 * CHUNK_SIZE + u.spec_local().0,
            u.spec_coords().1 * CHUNK_SIZE + u.spec_local().1,
        )
    }

    /// The state of interior cell (`lx`, `ly`) of chunk `i`.
    fn interior_state(&self, i: usize, lx: usize, ly: usize) -> (s: State)
        requires
            self.wf(),
            i < self.num_chunks(),
            lx < CHUNK_SIZE,
            ly < CHUNK_SIZE,
        ensures
            s == self.chunk_cell(i as int, lx as int, ly as int),
            s == self.state_at(
                self.spec_coords()[i as int].0 * CHUNK_SIZE + lx,
                self.spec_coords()[i as int].1 * CHUNK_SIZE + ly,
            ),
    {
        proof {
            self.lemma_wf_len();
            let c = self.spec_coords()[i as int];
            lemma_split_coord(c.0 * CHUNK_SIZE + lx, c.0 as int, lx as int);
            lemma_split_coord(c.1 * CHUNK_SIZE + ly, c.1 as int, ly as int);
            self.lemma_index_of_chunk(i as int);
        }
        self.cells[flat_index(i, self.chunk_coords.len(), lx + 1, ly + 1)]
    }
}

/// Appends an update to a list of updates.
fn push_update<State: CellState>(updates: &mut Vec<BorderUpdate<State>>, u: BorderUpdate<State>)
    ensures
        final(updates)@ == old(updates)@.push(u),
        forall|c: (isize, isize), x: int, y: int| #[trigger]
            targeted(final(updates)@, c, x, y) || !targeted(old(updates)@, c, x, y),
        targeted(
            final(updates)@,
            u.spec_coords(),
            u.spec_coords().0 * CHUNK_SIZE + u.spec_local().0,
            u.spec_coords().1 * CHUNK_SIZE + u.spec_local().1,
        ),
{
    let ghost before = updates@;
    updates.push(u);
    proof {
        lemma_targeted_extend(before, updates@);
        assert(updates@[before.len() as int] == u);
    }
}

impl<State: CellState> ChunkStorage<State> {
    /// Appends to `updates` the border cells that the edge cells of chunk
    /// `i` in a state other than the default give to the chunks around.
    #[verifier::rlimit(30)]
    fn push_chunk_updates(&self, i: usize, updates: &mut Vec<BorderUpdate<State>>)
        requires
            self.wf(),
            self.cells_addressable(),
            i < self.num_chunks(),
        ensures
            old(updates)@.len() <= final(updates)@.len(),
            forall|m: int| 0 <= m < old(updates)@.len() ==> #[trigger] final(updates)@[m] == old(updates)@[m],
            forall|m: int|
                old(updates)@.len() <= m < final(updates)@.len() ==> self.update_sound(#[trigger] final(updates)@[m]),
            forall|x: int, y: int, c: (isize, isize)|
                spec_chunk_coord(x) == self.spec_coords()[i as int].0 && spec_chunk_coord(y) == self.spec_coords()[i as int].1
                    && self.state_at(x, y) != State::spec_default() && c != self.spec_coords()[i as int] && window_holds(
                    c,
                    x,
                    y,
                ) ==> #[trigger] targeted(final(updates)@, c, x, y),
    {
        let ghost start = updates@;
        let (chunk_x, chunk_y) = self.chunk_coords[i];
        let ghost cx = chunk_x as int;
        let ghost cy = chunk_y as int;
        let ghost ci = (chunk_x, chunk_y);
        let mut x: usize = 0;
        while x < CHUNK_SIZE
            invariant
                self.wf(),
                self.cells_addressable(),
                i < self.num_chunks(),
                ci == self.spec_coords()[i as int],
                ci == (chunk_x, chunk_y),
                cx == chunk_x,
                cy == chunk_y,
                x <= CHUNK_SIZE,
                start.len() <= updates@.len(),
                forall|m: int| 0 <= m < start.len() ==> #[trigger] updates@[m] == start[m],
                forall|m: int| start.len() <= m < updates@.len() ==> self.update_sound(#[trigger] updates@[m]),
                forall|x2: int|
                    0 <= x2 < x && #[trigger] self.chunk_cell(i as int, x2, 0) != State::spec_default() ==> targeted(
                        updates@,
                        (chunk_x, (chunk_y - 1) as isize),
                        cx * CHUNK_SIZE + x2,
                        cy * CHUNK_SIZE,
                    ),
                forall|x2: int|
                    0 <= x2 < x && #[trigger] self.chunk_cell(i as int, x2, 63) != State::spec_default() ==> targeted(
                        updates@,
                        (chunk_x, (chunk_y + 1) as isize),
                        cx * CHUNK_SIZE + x2,
                        cy * CHUNK_SIZE + 63,
                    ),
            decreases CHUNK_SIZE - x,
        {
            let top = self.interior_state(i, x, 0);
            if !is_default_state(top) {
                proof {
                    assert(self.state_at(cx * CHUNK_SIZE + x, cy * CHUNK_SIZE + 0) != State::spec_default());
                    lemma_addressable_chunk(cx * CHUNK_SIZE + x);
                    lemma_addressable_chunk(cy * CHUNK_SIZE);
                    lemma_split_coord(cx * CHUNK_SIZE + x, cx, x as int);
                    lemma_split_coord(cy * CHUNK_SIZE, cy, 0);
                }
                let u = BorderUpdate::Bottom { coords: (chunk_x, chunk_y - 1), index: x, state: top };
                assert(self.update_sound(u));
                push_update(updates, u);
            }
            let bottom = self.interior_state(i, x, CHUNK_SIZE - 1);
            if !is_default_state(bottom) {
                proof {
                    lemma_addressable_chunk(cx * CHUNK_SIZE + x);
                    lemma_addressable_chunk(cy * CHUNK_SIZE + 63);
                    lemma_split_coord(cx * CHUNK_SIZE + x, cx, x as int);
                    lemma_split_coord(cy * CHUNK_SIZE + 63, cy, 63);
                }
                let u = BorderUpdate::Top { coords: (chunk_x, chunk_y + 1), index: x, state: bottom };
                assert(self.update_sound(u));
                push_update(updates, u);
            }
            x = x + 1;
        }
        let mut y: usize = 0;
        while y < CHUNK_SIZE
            invariant
                self.wf(),
                self.cells_addressable(),
                i < self.num_chunks(),
                ci == self.spec_coords()[i as int],
                ci == (chunk_x, chunk_y),
                cx == chunk_x,
                cy == chunk_y,
                y <= CHUNK_SIZE,
                start.len() <= updates@.len(),
                forall|m: int| 0 <= m < start.len() ==> #[trigger] updates@[m] == start[m],
                forall|m: int| start.len() <= m < updates@.len() ==> self.update_sound(#[trigger] updates@[m]),
                forall|x2: int|
                    0 <= x2 < CHUNK_SIZE && #[trigger] self.chunk_cell(i as int, x2, 0) != State::spec_default()
                        ==> targeted(updates@, (chunk_x, (chunk_y - 1) as isize), cx * CHUNK_SIZE + x2, cy * CHUNK_SIZE),
                forall|x2: int|
                    0 <= x2 < CHUNK_SIZE && #[trigger] self.chunk_cell(i as int, x2, 63) != State::spec_default()
                        ==> targeted(
                        updates@,
                        (chunk_x, (chunk_y + 1) as isize),
                        cx * CHUNK_SIZE + x2,
                        cy * CHUNK_SIZE + 63,
                    ),
                forall|y2: int|
                    0 <= y2 < y && #[trigger] self.chunk_cell(i as int, 0, y2) != State::spec_default() ==> targeted(
                        updates@,
                        ((chunk_x - 1) as isize, chunk_y),
                        cx * CHUNK_SIZE,
                        cy * CHUNK_SIZE + y2,
                    ),
                forall|y2: int|
                    0 <= y2 < y && #[trigger] self.chunk_cell(i as int, 63, y2) != State::spec_default() ==> targeted(
                        updates@,
                        ((chunk_x + 1) as isize, chunk_y),
                        cx * CHUNK_SIZE + 63,
                        cy * CHUNK_SIZE + y2,
                    ),
            decreases CHUNK_SIZE - y,
        {
            let left = self.interior_state(i, 0, y);
            if !is_default_state(left) {
                proof {
                    assert(self.state_at(cx * CHUNK_SIZE + 0, cy * CHUNK_SIZE + y) != State::spec_default());
                    lemma_addressable_chunk(cx * CHUNK_SIZE);
                    lemma_addressable_chunk(cy * CHUNK_SIZE + y);
                    lemma_split_coord(cx * CHUNK_SIZE, cx, 0);
                    lemma_split_coord(cy * CHUNK_SIZE + y, cy, y as int);
                }
                let u = BorderUpdate::Right { coords: (chunk_x - 1, chunk_y), index: y, state: left };
                assert(self.update_sound(u));
                push_update(updates, u);
            }
            let right = self.interior_state(i, CHUNK_SIZE - 1, y);
            if !is_default_state(right) {
                proof {
                    lemma_addressable_chunk(cx * CHUNK_SIZE + 63);
                    lemma_addressable_chunk(cy * CHUNK_SIZE + y);
                    lemma_split_coord(cx * CHUNK_SIZE + 63, cx, 63);
                    lemma_split_coord(cy * CHUNK_SIZE + y, cy, y as int);
                }
                let u = BorderUpdate::Left { coords: (chunk_x + 1, chunk_y), index: y, state: right };
                assert(self.update_sound(u));
                push_update(updates, u);
            }
            y = y + 1;
        }
        let ghost before_corners = updates@;
        let top_left = self.interior_state(i, 0, 0);
        if !is_default_state(top_left) {
            proof {
                assert(self.state_at(cx * CHUNK_SIZE + 0, cy * CHUNK_SIZE + 0) != State::spec_default());
                lemma_addressable_chunk(cx * CHUNK_SIZE);
                lemma_addressable_chunk(cy * CHUNK_SIZE);
                lemma_split_coord(cx * CHUNK_SIZE, cx, 0);
                lemma_split_coord(cy * CHUNK_SIZE, cy, 0);
            }
            let u = BorderUpdate::BottomRight { coords: (chunk_x - 1, chunk_y - 1), state: top_left };
            assert(self.update_sound(u));
            push_update(updates, u);
        }
        let top_right = self.interior_state(i, CHUNK_SIZE - 1, 0);
        if !is_default_state(top_right) {
            proof {
                assert(self.state_at(cx * CHUNK_SIZE + 63, cy * CHUNK_SIZE + 0) != State::spec_default());
                lemma_addressable_chunk(cx * CHUNK_SIZE + 63);
                lemma_addressable_chunk(cy * CHUNK_SIZE);
                lemma_split_coord(cx * CHUNK_SIZE + 63, cx, 63);
                lemma_split_coord(cy * CHUNK_SIZE, cy, 0);
            }
            let u = BorderUpdate::BottomLeft { coords: (chunk_x + 1, chunk_y - 1), state: top_right };
            assert(self.update_sound(u));
            push_update(updates, u);
        }
        let bottom_left = self.interior_state(i, 0, CHUNK_SIZE - 1);
        if !is_default_state(bottom_left) {
            proof {
                assert(self.state_at(cx * CHUNK_SIZE + 0, cy * CHUNK_SIZE + 63) != State::spec_default());
                lemma_addressable_chunk(cx * CHUNK_SIZE);
                lemma_addressable_chunk(cy * CHUNK_SIZE + 63);
                lemma_split_coord(cx * CHUNK_SIZE, cx, 0);
                lemma_split_coord(cy * CHUNK_SIZE + 63, cy, 63);
            }
            let u = BorderUpdate::TopRight { coords: (chunk_x - 1, chunk_y + 1), state: bottom_left };
            assert(self.update_sound(u));
            push_update(updates, u);
        }
        let bottom_right = self.interior_state(i, CHUNK_SIZE - 1, CHUNK_SIZE - 1);
        if !is_default_state(bottom_right) {
            proof {
                lemma_addressable_chunk(cx * CHUNK_SIZE + 63);
                lemma_addressable_chunk(cy * CHUNK_SIZE + 63);
                lemma_split_coord(cx * CHUNK_SIZE + 63, cx, 63);
                lemma_split_coord(cy * CHUNK_SIZE + 63, cy, 63);
            }
            let u = BorderUpdate::TopLeft { coords: (chunk_x + 1, chunk_y + 1), state: bottom_right };
            assert(self.update_sound(u));
            push_update(updates, u);
        }
        proof {
            lemma_targeted_extend(before_corners, updates@);
            self.lemma_index_of_chunk(i as int);
            assert forall|x: int, y: int, c: (isize, isize)|
                spec_chunk_coord(x) == cx && spec_chunk_coord(y) == cy && self.state_at(x, y)
                    != State::spec_default() && c != ci && window_holds(c, x, y) implies #[trigger] targeted(
                updates@,
                c,
                x,
                y,
            ) by {
                lemma_coord_parts(x);
                lemma_coord_parts(y);
                lemma_window_holds(c, x, y);
                let lx = spec_cell_coord(x);
                let ly = spec_cell_coord(y);
                assert(self.state_at(x, y) == self.chunk_cell(i as int, lx, ly));
                if c.0 == cx && c.1 == cy - 1 {
                    assert(self.chunk_cell(i as int, lx, 0) != State::spec_default());
                } else if c.0 == cx && c.1 == cy + 1 {
                    assert(self.chunk_cell(i as int, lx, 63) != State::spec_default());
                } else if c.0 == cx - 1 && c.1 == cy {
                    assert(self.chunk_cell(i as int, 0, ly) != State::spec_default());
                } else if c.0 == cx + 1 && c.1 == cy {
                    assert(self.chunk_cell(i as int, 63, ly) != State::spec_default());
                }
            }
        }
    }
}

impl<State: CellState> ChunkStorage<State> {
    /// The border cells that the edge cells of all chunks give to the
    /// chunks around, chunk by chunk.
    fn border_updates(&self) -> (updates: Vec<BorderUpdate<State>>)
        requires
            self.wf(),
            self.cells_addressable(),
        ensures
            forall|m: int| 0 <= m < updates@.len() ==> self.update_sound(#[trigger] updates@[m]),
            forall|x: int, y: int, c: (isize, isize)|
                self.state_at(x, y) != State::spec_default() && c != (
                    spec_chunk_coord(x) as isize,
                    spec_chunk_coord(y) as isize,
                ) && window_holds(c, x, y) ==> #[trigger] targeted(updates@, c, x, y),
    {
        let mut updates: Vec<BorderUpdate<State>> = Vec::new();
        let n = self.chunk_coords.len();
        let mut i: usize = 0;
        while i < n
            invariant
                self.wf(),
                self.cells_addressable(),
                n == self.num_chunks(),
                i <= n,
                forall|m: int| 0 <= m < updates@.len() ==> self.update_sound(#[trigger] updates@[m]),
                forall|x: int, y: int, c: (isize, isize)|
                    self.chunk_index_of(spec_chunk_coord(x), spec_chunk_coord(y)) is Some && self.chunk_index_of(
                        spec_chunk_coord(x),
                        spec_chunk_coord(y),
                    )->0 < i && self.state_at(x, y) != State::spec_default() && c != (
                        spec_chunk_coord(x) as isize,
                        spec_chunk_coord(y) as isize,
                    ) && window_holds(c, x, y) ==> #[trigger] targeted(updates@, c, x, y),
            decreases n - i,
        {
            let ghost before = updates@;
            self.push_chunk_updates(i, &mut updates);
            proof {
                lemma_targeted_extend(before, updates@);
                assert forall|x: int, y: int, c: (isize, isize)|
                    self.chunk_index_of(spec_chunk_coord(x), spec_chunk_coord(y)) is Some && self.chunk_index_of(
                        spec_chunk_coord(x),
                        spec_chunk_coord(y),
                    )->0 < i + 1 && self.state_at(x, y) != State::spec_default() && c != (
                        spec_chunk_coord(x) as isize,
                        spec_chunk_coord(y) as isize,
                    ) && window_holds(c, x, y) implies #[trigger] targeted(updates@, c, x, y) by {
                    self.lemma_chunk_index_of(spec_chunk_coord(x), spec_chunk_coord(y));
                    if self.chunk_index_of(spec_chunk_coord(x), spec_chunk_coord(y))->0 < i {
                        assert(targeted(before, c, x, y));
                    }
                }
            }
            i = i + 1;
        }
        updates
    }

    /// The chunk at the coordinates of `u` is allocated and holds the state
    /// of `u` at the position of `u`.
    pub open spec fn holds_update(&self, u: BorderUpdate<State>) -> bool {
        &&& self.chunk_index_of(u.spec_coords().0 as int, u.spec_coords().1 as int) is Some
        &&& self.chunk_cell(
            self.chunk_index_of(u.spec_coords().0 as int, u.spec_coords().1 as int)->0,
            u.spec_local().0,
            u.spec_local().1,
        ) == u.spec_state()
    }

    /// Writes the border cell of `u` into chunk `j`.
    fn apply_update(&mut self, j: usize, u: &BorderUpdate<State>)
        requires
            old(self).wf(),
            j < old(self).num_chunks(),
            u.valid(),
        ensures
            final(self).wf(),
            final(self).spec_coords() == old(self).spec_coords(),
            final(self).spec_index_map() == old(self).spec_index_map(),
            final(self).spec_next_coords() == old(self).spec_next_coords(),
            final(self).spec_next_cells() == old(self).spec_next_cells(),
            final(self).spec_cycles() == old(self).spec_cycles(),
            final(self).spec_cells() == old(self).spec_cells().update(
                j * EXTENDED_CHUNK_CELLS + spec_ext_index(u.spec_local().0, u.spec_local().1),
                u.spec_state(),
            ),
    {
        proof {
            self.lemma_wf_len();
            lemma_chunk_pos(j as int, 0, self.num_chunks() as int);
            assert(j * EXTENDED_CHUNK_CELLS + EXTENDED_CHUNK_CELLS <= self.num_chunks() * EXTENDED_CHUNK_CELLS) by (nonlinear_arith)
                requires
                    j < self.num_chunks(),
            ;
        }
        let ghost before = *self;
        let start = j * EXTENDED_CHUNK_CELLS;
        let cells = self.cells.as_mut_slice();
        let (head, rest) = cells.split_at_mut(start);
        let (chunk, tail) = rest.split_at_mut(EXTENDED_CHUNK_CELLS);
        let ghost chunk_before = chunk@;
        u.apply(chunk);
        proof {
            let len = before.cells@.len() as int;
            let p = start + spec_ext_index(u.spec_local().0, u.spec_local().1);
            lemma_flat_index(j as int, before.num_chunks() as int, u.spec_local().0, u.spec_local().1);
            assert(self.cells@ =~= before.cells@.update(p, u.spec_state()));
        }
    }

    /// After the borders were cleared and the updates applied: the grid is
    /// the same, the borders mirror it and the chunks around every
    /// non-default cell are allocated.
    #[verifier::rlimit(30)]
    proof fn lemma_rebuilt(&self, base: &Self, cleared: &Self, updates: Seq<BorderUpdate<State>>)
        requires
            base.wf(),
            cleared.wf(),
            self.wf(),
            base.cells_addressable(),
            cleared.spec_coords() == base.spec_coords(),
            cleared.spec_index_map() == base.spec_index_map(),
            forall|t: int, lx: int, ly: int|
                0 <= t < base.num_chunks() && in_window(lx, ly) ==> #[trigger] cleared.chunk_cell(t, lx, ly) == if in_interior(
                    lx,
                    ly,
                ) {
                    base.chunk_cell(t, lx, ly)
                } else {
                    State::spec_default()
                },
            forall|p: int, q: int| #[trigger] cleared.state_at(p, q) == base.state_at(p, q),
            forall|m: int| 0 <= m < updates.len() ==> cleared.update_sound(#[trigger] updates[m]),
            forall|x: int, y: int, c: (isize, isize)|
                cleared.state_at(x, y) != State::spec_default() && c != (
                    spec_chunk_coord(x) as isize,
                    spec_chunk_coord(y) as isize,
                ) && window_holds(c, x, y) ==> #[trigger] targeted(updates, c, x, y),
            cleared.num_chunks() <= self.num_chunks(),
            forall|i: int| 0 <= i < cleared.num_chunks() ==> #[trigger] self.spec_coords()[i] == cleared.spec_coords()[i],
            forall|j: int, lx: int, ly: int|
                0 <= j < self.num_chunks() && in_interior(lx, ly) ==> #[trigger] self.chunk_cell(j, lx, ly) == if j
                    < cleared.num_chunks() {
                    cleared.chunk_cell(j, lx, ly)
                } else {
                    State::spec_default()
                },
            forall|j: int, lx: int, ly: int|
                0 <= j < self.num_chunks() && on_border(lx, ly) ==> #[trigger] self.chunk_cell(j, lx, ly)
                    == State::spec_default() || self.chunk_cell(j, lx, ly) == cleared.state_at(
                    self.spec_coords()[j].0 * CHUNK_SIZE + lx,
                    self.spec_coords()[j].1 * CHUNK_SIZE + ly,
                ),
            forall|m: int| 0 <= m < updates.len() ==> self.holds_update(#[trigger] updates[m]),
        ensures
            forall|p: int, q: int| #[trigger] self.state_at(p, q) == base.state_at(p, q),
            self.halos_consistent(),
            self.neighbors_allocated(),
    {
        self.lemma_index_extends(cleared);
        assert forall|p: int, q: int| #[trigger] self.state_at(p, q) == base.state_at(p, q) by {
            lemma_coord_parts(p);
            lemma_coord_parts(q);
            let cx = spec_chunk_coord(p);
            let cy = spec_chunk_coord(q);
            let lx = spec_cell_coord(p);
            let ly = spec_cell_coord(q);
            assert(cleared.state_at(p, q) == base.state_at(p, q));
            if let Some(j) = self.chunk_index_of(cx, cy) {
                if j < cleared.num_chunks() {
                    assert(cleared.chunk_index_of(cx, cy) == Some(j));
                    assert(self.chunk_cell(j, lx, ly) == cleared.chunk_cell(j, lx, ly));
                } else {
                    if let Some(i) = cleared.chunk_index_of(cx, cy) {
                        assert(self.chunk_index_of(cx, cy) == Some(i));
                    }
                    assert(self.chunk_cell(j, lx, ly) == State::spec_default());
                }
            } else {
                if cleared.chunk_index_of(cx, cy) is Some {
                    assert(self.chunk_index_of(cx, cy) == cleared.chunk_index_of(cx, cy));
                }
            }
        }
        assert forall|j: int, lx: int, ly: int|
            0 <= j < self.num_chunks() && in_window(lx, ly) implies #[trigger] self.chunk_cell(j, lx, ly) == self.state_at(
            self.spec_coords()[j].0 * CHUNK_SIZE + lx,
            self.spec_coords()[j].1 * CHUNK_SIZE + ly,
        ) by {
            let c = self.spec_coords()[j];
            let qx = c.0 * CHUNK_SIZE + lx;
            let qy = c.1 * CHUNK_SIZE + ly;
            self.lemma_index_of_chunk(j);
            if in_interior(lx, ly) {
                lemma_split_coord(qx, c.0 as int, lx);
                lemma_split_coord(qy, c.1 as int, ly);
            } else {
                assert(self.state_at(qx, qy) == base.state_at(qx, qy));
                assert(cleared.state_at(qx, qy) == base.state_at(qx, qy));
                if base.state_at(qx, qy) != State::spec_default() {
                    lemma_coord_parts(qx);
                    lemma_coord_parts(qy);
                    if spec_chunk_coord(qx) == c.0 && spec_chunk_coord(qy) == c.1 {
                        lemma_split_coord(qx, c.0 as int, spec_cell_coord(qx));
                        lemma_split_coord(qy, c.1 as int, spec_cell_coord(qy));
                    }
                    assert(c != (spec_chunk_coord(qx) as isize, spec_chunk_coord(qy) as isize));
                    assert(window_holds(c, qx, qy));
                    assert(targeted(updates, c, qx, qy));
                    let m = choose|m: int|
                        0 <= m < updates.len() && #[trigger] updates[m].spec_coords() == c && shows(
                            c,
                            updates[m].spec_local().0,
                            updates[m].spec_local().1,
                            qx,
                            qy,
                        );
                    assert(self.holds_update(updates[m]));
                    assert(cleared.update_sound(updates[m]));
                }
            }
        }
        assert forall|x: int, y: int, dx: int, dy: int|
            #![trigger self.state_at(x, y), self.chunk_index_of(spec_chunk_coord(x + dx), spec_chunk_coord(y + dy))]
            self.state_at(x, y) != State::spec_default() && -1 <= dx <= 1 && -1 <= dy <= 1 implies self.chunk_index_of(
            spec_chunk_coord(x + dx),
            spec_chunk_coord(y + dy),
        ) is Some by {
            assert(base.state_at(x, y) != State::spec_default());
            assert(cleared.state_at(x, y) != State::spec_default());
            lemma_coord_parts(x + dx);
            lemma_coord_parts(y + dy);
            lemma_coord_parts(x);
            lemma_coord_parts(y);
            lemma_addressable_chunk(x);
            lemma_addressable_chunk(y);
            let cx = spec_chunk_coord(x + dx);
            let cy = spec_chunk_coord(y + dy);
            if cx == spec_chunk_coord(x) && cy == spec_chunk_coord(y) {
                assert(self.state_at(x, y) != State::spec_default());
            } else {
                vstd::arithmetic::div_mod::lemma_div_is_ordered(isize::MIN as int - 1, x + dx, 64);
                vstd::arithmetic::div_mod::lemma_div_is_ordered(x + dx, isize::MAX as int + 1, 64);
                vstd::arithmetic::div_mod::lemma_div_is_ordered(isize::MIN as int - 1, y + dy, 64);
                vstd::arithmetic::div_mod::lemma_div_is_ordered(y + dy, isize::MAX as int + 1, 64);
                lemma_neighbor_chunk_holds(x, y, dx, dy);
                let c = (cx as isize, cy as isize);
                assert(window_holds(c, x, y));
                assert(targeted(updates, c, x, y));
                let m = choose|m: int|
                    0 <= m < updates.len() && #[trigger] updates[m].spec_coords() == c && shows(
                        c,
                        updates[m].spec_local().0,
                        updates[m].spec_local().1,
                        x,
                        y,
                    );
                assert(self.holds_update(updates[m]));
            }
        }
    }
}

impl<State: CellState> ChunkStorage<State> {
    /// Recomputes every border cell from the interiors of the chunks,
    /// allocating the chunks that the border copies of non-default edge
    /// cells go to.
    #[verifier::rlimit(30)]
    pub fn rebuild_all_halos(&mut self)
        requires
            old(self).wf(),
            old(self).cells_addressable(),
        ensures
            final(self).wf(),
            forall|p: int, q: int| #[trigger] final(self).state_at(p, q) == old(self).state_at(p, q),
            final(self).halos_consistent(),
            final(self).neighbors_allocated(),
            old(self).num_chunks() <= final(self).num_chunks(),
            forall|i: int|
                0 <= i < old(self).num_chunks() ==> #[trigger] final(self).spec_coords()[i] == old(
                    self,
                ).spec_coords()[i],
            forall|j: int|
                old(self).num_chunks() <= j < final(self).num_chunks() ==> old(self).border_shows_non_default(
                    #[trigger] final(self).spec_coords()[j],
                ),
            final(self).allocated_chunks() == old(self).allocated_chunks().union(
                Set::new(|c: (isize, isize)| old(self).border_shows_non_default(c)),
            ),
            final(self).spec_next_coords() == old(self).spec_next_coords(),
            final(self).spec_next_cells() == old(self).spec_next_cells(),
            final(self).spec_cycles() == old(self).spec_cycles(),
    {
        let ghost base = *self;
        self.clear_all_halos();
        let ghost cleared = *self;
        proof {
            assert forall|p: int, q: int| #[trigger] cleared.state_at(p, q) == base.state_at(p, q) by {
                lemma_coord_parts(p);
                lemma_coord_parts(q);
                assert(cleared.chunk_index_of(spec_chunk_coord(p), spec_chunk_coord(q)) == base.chunk_index_of(
                    spec_chunk_coord(p),
                    spec_chunk_coord(q),
                ));
                if let Some(i) = base.chunk_index_of(spec_chunk_coord(p), spec_chunk_coord(q)) {
                    base.lemma_chunk_index_of(spec_chunk_coord(p), spec_chunk_coord(q));
                    assert(cleared.chunk_cell(i, spec_cell_coord(p), spec_cell_coord(q)) == base.chunk_cell(
                        i,
                        spec_cell_coord(p),
                        spec_cell_coord(q),
                    ));
                }
            }
            assert forall|x: int, y: int|
                #[trigger] cleared.state_at(x, y) != State::spec_default() implies isize::MIN <= x <= isize::MAX
                && isize::MIN <= y <= isize::MAX by {
                assert(base.state_at(x, y) != State::spec_default());
            }
        }
        let updates = self.border_updates();
        let mut k: usize = 0;
        while k < updates.len()
            invariant
                k <= updates@.len(),
                cleared.wf(),
                self.wf(),
                forall|m: int| 0 <= m < updates@.len() ==> cleared.update_sound(#[trigger] updates@[m]),
                cleared.num_chunks() <= self.num_chunks(),
                forall|i: int|
                    0 <= i < cleared.num_chunks() ==> #[trigger] self.spec_coords()[i] == cleared.spec_coords()[i],
                forall|j: int, lx: int, ly: int|
                    0 <= j < self.num_chunks() && in_interior(lx, ly) ==> #[trigger] self.chunk_cell(j, lx, ly) == if j
                        < cleared.num_chunks() {
                        cleared.chunk_cell(j, lx, ly)
                    } else {
                        State::spec_default()
                    },
                forall|j: int, lx: int, ly: int|
                    0 <= j < self.num_chunks() && on_border(lx, ly) ==> #[trigger] self.chunk_cell(j, lx, ly)
                        == State::spec_default() || self.chunk_cell(j, lx, ly) == cleared.state_at(
                        self.spec_coords()[j].0 * CHUNK_SIZE + lx,
                        self.spec_coords()[j].1 * CHUNK_SIZE + ly,
                    ),
                forall|m: int| 0 <= m < k ==> self.holds_update(#[trigger] updates@[m]),
                forall|p: int, q: int| #[trigger] cleared.state_at(p, q) == base.state_at(p, q),
                forall|j: int|
                    cleared.num_chunks() <= j < self.num_chunks() ==> base.border_shows_non_default(
                        #[trigger] self.spec_coords()[j],
                    ),
                self.spec_next_coords() == cleared.spec_next_coords(),
                self.spec_next_cells() == cleared.spec_next_cells(),
                self.spec_cycles() == cleared.spec_cycles(),
            decreases updates@.len() - k,
        {
            let u = &updates[k];
            assert(cleared.update_sound(updates@[k as int]));
            let ghost before = *self;
            let index = self.ensure_chunk(u.coords());
            let ghost mid = *self;
            proof {
                mid.lemma_index_extends(&before);
                if before.chunk_index_of(u.spec_coords().0 as int, u.spec_coords().1 as int) is None {
                    lemma_cell_of_append(before.cells@, before.num_chunks() as int);
                }
                assert forall|j: int, lx: int, ly: int|
                    0 <= j < mid.num_chunks() && in_window(lx, ly) implies #[trigger] mid.chunk_cell(j, lx, ly) == if j
                        < before.num_chunks() {
                        before.chunk_cell(j, lx, ly)
                    } else {
                        State::spec_default()
                    } by {}
            }
            self.apply_update(index, u);
            proof {
                let lu = u.spec_local();
                lemma_cell_of_update(mid.cells@, mid.num_chunks() as int, index as int, lu.0, lu.1, u.spec_state());
                self.lemma_index_extends(&mid);
                let n = self.num_chunks();
                assert forall|j: int, lx: int, ly: int|
                    0 <= j < n && in_interior(lx, ly) implies #[trigger] self.chunk_cell(j, lx, ly) == if j
                        < cleared.num_chunks() {
                        cleared.chunk_cell(j, lx, ly)
                    } else {
                        State::spec_default()
                    } by {
                    assert(mid.chunk_cell(j, lx, ly) == if j < before.num_chunks() {
                        before.chunk_cell(j, lx, ly)
                    } else {
                        State::spec_default()
                    });
                }
                assert forall|j: int, lx: int, ly: int|
                    0 <= j < n && on_border(lx, ly) implies #[trigger] self.chunk_cell(j, lx, ly)
                        == State::spec_default() || self.chunk_cell(j, lx, ly) == cleared.state_at(
                        self.spec_coords()[j].0 * CHUNK_SIZE + lx,
                        self.spec_coords()[j].1 * CHUNK_SIZE + ly,
                    ) by {
                    assert(mid.chunk_cell(j, lx, ly) == if j < before.num_chunks() {
                        before.chunk_cell(j, lx, ly)
                    } else {
                        State::spec_default()
                    });
                }
                if before.chunk_index_of(u.spec_coords().0 as int, u.spec_coords().1 as int) is None {
                    let lu = u.spec_local();
                    assert(on_border(lu.0, lu.1));
                    assert(base.state_at(
                        u.spec_coords().0 * CHUNK_SIZE + lu.0,
                        u.spec_coords().1 * CHUNK_SIZE + lu.1,
                    ) != State::spec_default());
                    assert(base.border_shows_non_default(u.spec_coords()));
                }
                assert forall|j: int|
                    cleared.num_chunks() <= j < self.num_chunks() implies base.border_shows_non_default(
                    #[trigger] self.spec_coords()[j],
                ) by {
                    if j < before.num_chunks() {
                        assert(self.spec_coords()[j] == before.spec_coords()[j]);
                    }
                }
                assert forall|m: int| 0 <= m < k + 1 implies self.holds_update(#[trigger] updates@[m]) by {
                    let um = updates@[m];
                    assert(cleared.update_sound(um));
                    if m < k {
                        assert(before.holds_update(um));
                        let jm = before.chunk_index_of(um.spec_coords().0 as int, um.spec_coords().1 as int)->0;
                        before.lemma_chunk_index_of(um.spec_coords().0 as int, um.spec_coords().1 as int);
                        assert(mid.chunk_cell(jm, um.spec_local().0, um.spec_local().1) == before.chunk_cell(
                            jm,
                            um.spec_local().0,
                            um.spec_local().1,
                        ));
                        if jm == index && um.spec_local() == lu {
                            assert(um.spec_coords() == u.spec_coords());
                        }
                    }
                }
            }
            k = k + 1;
        }
        proof {
            self.lemma_rebuilt(&base, &cleared, updates@);
            self.lemma_halo_chunks(&base);
        }
    }

    /// Once the chunks of `base` are kept in order, the chunks added show a
    /// non-default cell in their borders and the chunks around every
    /// non-default cell are allocated, the allocated chunks are those of
    /// `base` and those whose borders show a non-default cell.
    proof fn lemma_halo_chunks(&self, base: &Self)
        requires
            base.wf(),
            self.wf(),
            self.neighbors_allocated(),
            forall|p: int, q: int| #[trigger] self.state_at(p, q) == base.state_at(p, q),
            base.num_chunks() <= self.num_chunks(),
            forall|i: int| 0 <= i < base.num_chunks() ==> #[trigger] self.spec_coords()[i] == base.spec_coords()[i],
            forall|j: int|
                base.num_chunks() <= j < self.num_chunks() ==> base.border_shows_non_default(
                    #[trigger] self.spec_coords()[j],
                ),
        ensures
            self.allocated_chunks() == base.allocated_chunks().union(
                Set::new(|c: (isize, isize)| base.border_shows_non_default(c)),
            ),
    {
        let shown = Set::new(|c: (isize, isize)| base.border_shows_non_default(c));
        let expected = base.allocated_chunks().union(shown);
        let after = self.allocated_chunks();
        assert forall|c: (isize, isize)| after.contains(c) implies expected.contains(c) by {
            let i = choose|i: int| 0 <= i < self.num_chunks() && self.spec_coords()[i] == c;
            if i < base.num_chunks() {
                assert(base.spec_coords()[i] == c);
                assert(base.allocated_chunks().contains(c));
            } else {
                assert(base.border_shows_non_default(self.spec_coords()[i]));
                assert(shown.contains(c));
            }
        }
        assert forall|c: (isize, isize)| expected.contains(c) implies after.contains(c) by {
            if base.allocated_chunks().contains(c) {
                let i = choose|i: int| 0 <= i < base.num_chunks() && base.spec_coords()[i] == c;
                assert(self.spec_coords()[i] == c);
                assert(self.spec_coords().contains(c));
            } else {
                assert(base.border_shows_non_default(c));
                let (lx, ly) = choose|lx: int, ly: int|
                    #![trigger on_border(lx, ly)]
                    on_border(lx, ly) && base.state_at(c.0 * CHUNK_SIZE + lx, c.1 * CHUNK_SIZE + ly)
                        != State::spec_default();
                let x = c.0 * CHUNK_SIZE + lx;
                let y = c.1 * CHUNK_SIZE + ly;
                let dx: int = if lx == -1 {
                    1
                } else if lx == CHUNK_SIZE {
                    -1
                } else {
                    0
                };
                let dy: int = if ly == -1 {
                    1
                } else if ly == CHUNK_SIZE {
                    -1
                } else {
                    0
                };
                lemma_split_coord(x + dx, c.0 as int, lx + dx);
                lemma_split_coord(y + dy, c.1 as int, ly + dy);
                assert(self.state_at(x, y) != State::spec_default());
                assert(self.chunk_index_of(spec_chunk_coord(x + dx), spec_chunk_coord(y + dy)) is Some);
                self.lemma_chunk_index_of(c.0 as int, c.1 as int);
                let i = self.chunk_index_of(c.0 as int, c.1 as int)->0;
                assert(self.spec_coords()[i] == c);
                assert(self.spec_coords().contains(c));
            }
        }
        assert(after =~= expected);
    }
}

/// Some entry of `cells` is at (`x`, `y`).
pub open spec fn listed<State>(cells: Seq<(isize, isize, State)>, x: int, y: int) -> bool {
    exists|k: int| 0 <= k < cells.len() && #[trigger] cells[k].0 == x && cells[k].1 == y
}

/// No two entries of `cells` are at the same coordinates.
pub open spec fn positions_distinct<State>(cells: Seq<(isize, isize, State)>) -> bool {
    forall|k1: int, k2: int|
        0 <= k1 < cells.len() && 0 <= k2 < cells.len() && k1 != k2 ==> (#[trigger] cells[k1].0, cells[k1].1) != (
            #[trigger] cells[k2].0,
            cells[k2].1,
        )
}

/// `a` comes before `b` in the order of chunk index, then row, then column.
pub open spec fn visit_key_before(a: (int, int, int), b: (int, int, int)) -> bool {
    a.0 < b.0 || (a.0 == b.0 && (a.1 < b.1 || (a.1 == b.1 && a.2 < b.2)))
}

impl<State: CellState> ChunkStorage<State> {
    /// Where the cell at (`x`, `y`) comes when cells are visited: the index
    /// of its chunk, then its row and its column within the chunk.
    pub open spec fn visit_key(&self, x: int, y: int) -> (int, int, int) {
        (
            self.chunk_index_of(spec_chunk_coord(x), spec_chunk_coord(y))->0,
            spec_cell_coord(y),
            spec_cell_coord(x),
        )
    }

    /// The entries of `cells` come chunk by chunk in the order of the
    /// chunks, and row by row, column by column within a chunk.
    pub open spec fn in_visit_order(&self, cells: Seq<(isize, isize, State)>) -> bool {
        forall|a: int, b: int|
            #![trigger cells[a], cells[b]]
            0 <= a < b < cells.len() ==> visit_key_before(
                self.visit_key(cells[a].0 as int, cells[a].1 as int),
                self.visit_key(cells[b].0 as int, cells[b].1 as int),
            )
    }

    /// A cell of chunk `i` appended after the cells of earlier chunks and
    /// the earlier cells of chunk `i` keeps the visiting order.
    proof fn lemma_visit_push_order(
        &self,
        start: Seq<(isize, isize, State)>,
        before: Seq<(isize, isize, State)>,
        i: int,
        chunk_x: int,
        chunk_y: int,
        cell_x: int,
        cell_y: int,
        new: (isize, isize, State),
    )
        requires
            self.chunk_index_of(chunk_x, chunk_y) == Some(i),
            0 <= cell_x < CHUNK_SIZE,
            0 <= cell_y < CHUNK_SIZE,
            new.0 == chunk_x * CHUNK_SIZE + cell_x,
            new.1 == chunk_y * CHUNK_SIZE + cell_y,
            self.in_visit_order(before),
            start.len() <= before.len(),
            forall|k: int| 0 <= k < start.len() ==> #[trigger] before[k] == start[k],
            forall|k: int|
                0 <= k < start.len() ==> self.chunk_index_of(
                    spec_chunk_coord(#[trigger] start[k].0 as int),
                    spec_chunk_coord(start[k].1 as int),
                ) is Some && self.chunk_index_of(
                    spec_chunk_coord(start[k].0 as int),
                    spec_chunk_coord(start[k].1 as int),
                )->0 < i,
            forall|k: int|
                start.len() <= k < before.len() ==> chunk_x * CHUNK_SIZE <= #[trigger] before[k].0 < chunk_x * CHUNK_SIZE
                    + CHUNK_SIZE && chunk_y * CHUNK_SIZE <= before[k].1 <= chunk_y * CHUNK_SIZE + cell_y && (before[k].1
                    == chunk_y * CHUNK_SIZE + cell_y ==> before[k].0 < chunk_x * CHUNK_SIZE + cell_x),
        ensures
            self.in_visit_order(before.push(new)),
    {
        lemma_split_coord(new.0 as int, chunk_x, cell_x);
        lemma_split_coord(new.1 as int, chunk_y, cell_y);
        let after = before.push(new);
        assert forall|a: int, b: int| 0 <= a < b < after.len() implies visit_key_before(
            self.visit_key(after[a].0 as int, after[a].1 as int),
            self.visit_key(after[b].0 as int, after[b].1 as int),
        ) by {
            if b < before.len() {
                assert(after[a] == before[a] && after[b] == before[b]);
            } else {
                assert(after[a] == before[a]);
                if a < start.len() {
                    assert(before[a] == start[a]);
                } else {
                    let e = before[a];
                    lemma_split_coord(e.0 as int, chunk_x, e.0 - chunk_x * CHUNK_SIZE);
                    lemma_split_coord(e.1 as int, chunk_y, e.1 - chunk_y * CHUNK_SIZE);
                }
            }
        }
    }
}

/// Appends a visited cell.
fn push_visited<State>(cells: &mut Vec<(isize, isize, State)>, x: isize, y: isize, s: State)
    ensures
        final(cells)@ == old(cells)@.push((x, y, s)),
        forall|x2: int, y2: int| #[trigger] listed(final(cells)@, x2, y2) || !listed(old(cells)@, x2, y2),
        listed(final(cells)@, x as int, y as int),
{
    let ghost before = cells@;
    cells.push((x, y, s));
    proof {
        assert forall|x2: int, y2: int| #[trigger] listed(cells@, x2, y2) || !listed(before, x2, y2) by {
            if listed(before, x2, y2) {
                let k = choose|k: int| 0 <= k < before.len() && #[trigger] before[k].0 == x2 && before[k].1 == y2;
                assert(cells@[k] == before[k]);
            }
        }
        assert(cells@[before.len() as int] == (x, y, s));
        assert(cells@[before.len() as int].0 == x && cells@[before.len() as int].1 == y);
    }
}

/// What is listed stays listed when more entries follow.
proof fn lemma_listed_extend<State>(c1: Seq<(isize, isize, State)>, c2: Seq<(isize, isize, State)>)
    requires
        c1.len() <= c2.len(),
        forall|k: int| 0 <= k < c1.len() ==> c2[k] == c1[k],
    ensures
        forall|x: int, y: int| #[trigger] listed(c2, x, y) || !listed(c1, x, y),
{
    assert forall|x: int, y: int| #[trigger] listed(c2, x, y) || !listed(c1, x, y) by {
        if listed(c1, x, y) {
            let k = choose|k: int| 0 <= k < c1.len() && #[trigger] c1[k].0 == x && c1[k].1 == y;
            assert(c2[k] == c1[k]);
        }
    }
}

/// `v` clamped to the interior coordinates of a chunk.
fn clamp_local(v: i128) -> (r: usize)
    ensures
        r < CHUNK_SIZE,
        r == if v < 0 {
            0
        } else if v > 63 {
            63
        } else {
            v
        },
{
    if v < 0 {
        0
    } else if v > 63 {
        63
    } else {
        v as usize
    }
}

impl<State: CellState> ChunkStorage<State> {
    /// The cells in a state other than the default whose coordinates lie
    /// between `min` and `max`, both included, chunk by chunk.
    #[verifier::rlimit(30)]
    pub fn visit_non_default_cells(&self, min: (isize, isize), max: (isize, isize)) -> (cells: Vec<(isize, isize, State)>)
        requires
            self.wf(),
        ensures
            forall|k: int|
                0 <= k < cells@.len() ==> min.0 <= #[trigger] cells@[k].0 <= max.0 && min.1 <= cells@[k].1 <= max.1
                    && cells@[k].2 == self.state_at(cells@[k].0 as int, cells@[k].1 as int) && cells@[k].2
                    != State::spec_default(),
            forall|x: int, y: int|
                min.0 <= x <= max.0 && min.1 <= y <= max.1 && #[trigger] self.state_at(x, y) != State::spec_default()
                    ==> listed(cells@, x, y),
            positions_distinct(cells@),
            self.in_visit_order(cells@),
    {
        let mut cells: Vec<(isize, isize, State)> = Vec::new();
        if min.0 > max.0 || min.1 > max.1 {
            return cells;
        }
        let (min_chunk_x, _) = split_cell_coord(min.0);
        let (max_chunk_x, _) = split_cell_coord(max.0);
        let (min_chunk_y, _) = split_cell_coord(min.1);
        let (max_chunk_y, _) = split_cell_coord(max.1);
        proof {
            lemma_coord_parts(min.0 as int);
            lemma_coord_parts(max.0 as int);
            lemma_coord_parts(min.1 as int);
            lemma_coord_parts(max.1 as int);
        }
        let n = self.chunk_coords.len();
        let mut i: usize = 0;
        while i < n
            invariant
                self.wf(),
                n == self.num_chunks(),
                i <= n,
                min.0 <= max.0,
                min.1 <= max.1,
                min_chunk_x == spec_chunk_coord(min.0 as int),
                max_chunk_x == spec_chunk_coord(max.0 as int),
                min_chunk_y == spec_chunk_coord(min.1 as int),
                max_chunk_y == spec_chunk_coord(max.1 as int),
                min_chunk_x * CHUNK_SIZE <= min.0 < min_chunk_x * CHUNK_SIZE + CHUNK_SIZE,
                max_chunk_x * CHUNK_SIZE <= max.0 < max_chunk_x * CHUNK_SIZE + CHUNK_SIZE,
                min_chunk_y * CHUNK_SIZE <= min.1 < min_chunk_y * CHUNK_SIZE + CHUNK_SIZE,
                max_chunk_y * CHUNK_SIZE <= max.1 < max_chunk_y * CHUNK_SIZE + CHUNK_SIZE,
                forall|k: int|
                    0 <= k < cells@.len() ==> min.0 <= #[trigger] cells@[k].0 <= max.0 && min.1 <= cells@[k].1 <= max.1
                        && cells@[k].2 == self.state_at(cells@[k].0 as int, cells@[k].1 as int) && cells@[k].2
                        != State::spec_default() && self.chunk_index_of(
                        spec_chunk_coord(cells@[k].0 as int),
                        spec_chunk_coord(cells@[k].1 as int),
                    ) is Some && self.chunk_index_of(
                        spec_chunk_coord(cells@[k].0 as int),
                        spec_chunk_coord(cells@[k].1 as int),
                    )->0 < i,
                forall|x: int, y: int|
                    min.0 <= x <= max.0 && min.1 <= y <= max.1 && #[trigger] self.state_at(x, y)
                        != State::spec_default() && self.chunk_index_of(spec_chunk_coord(x), spec_chunk_coord(y))->0 < i
                        ==> listed(cells@, x, y),
                positions_distinct(cells@),
                self.in_visit_order(cells@),
            decreases n - i,
        {
            let (chunk_x, chunk_y) = self.chunk_coords[i];
            proof {
                self.lemma_index_of_chunk(i as int);
            }
            if min_chunk_x <= chunk_x && chunk_x <= max_chunk_x && min_chunk_y <= chunk_y && chunk_y <= max_chunk_y {
                let world_min_x = chunk_x * 64;
                let world_min_y = chunk_y * 64;
                let local_min_x = clamp_local(min.0 as i128 - world_min_x as i128);
                let local_max_x = clamp_local(max.0 as i128 - world_min_x as i128);
                let local_min_y = clamp_local(min.1 as i128 - world_min_y as i128);
                let local_max_y = clamp_local(max.1 as i128 - world_min_y as i128);
                proof {
                    assert(min_chunk_x * 64 <= world_min_x <= max_chunk_x * 64) by (nonlinear_arith)
                        requires
                            min_chunk_x <= chunk_x <= max_chunk_x,
                            world_min_x == chunk_x * 64,
                    ;
                    assert(min_chunk_y * 64 <= world_min_y <= max_chunk_y * 64) by (nonlinear_arith)
                        requires
                            min_chunk_y <= chunk_y <= max_chunk_y,
                            world_min_y == chunk_y * 64,
                    ;
                    assert(local_min_x <= local_max_x);
                    assert(local_min_y <= local_max_y);
                    assert(min.0 <= world_min_x + local_min_x || local_min_x == 0);
                    lemma_listed_extend(cells@, cells@);
                }
                let ghost start = cells@;
                let mut cell_y = local_min_y;
                while cell_y <= local_max_y
                    invariant
                        self.wf(),
                        n == self.num_chunks(),
                        i < n,
                        (chunk_x, chunk_y) == self.spec_coords()[i as int],
                        self.chunk_index_of(chunk_x as int, chunk_y as int) == Some(i as int),
                        world_min_x == chunk_x * CHUNK_SIZE,
                        world_min_y == chunk_y * CHUNK_SIZE,
                        local_min_y <= cell_y <= local_max_y + 1,
                        local_max_y < CHUNK_SIZE,
                        local_max_x < CHUNK_SIZE,
                        local_min_x <= local_max_x,
                        min.0 <= world_min_x + local_min_x,
                        world_min_x + local_max_x <= max.0,
                        min.1 <= world_min_y + local_min_y,
                        world_min_y + local_max_y <= max.1,
                        local_min_x == 0 || local_min_x == min.0 - world_min_x,
                        local_max_x == CHUNK_SIZE - 1 || local_max_x == max.0 - world_min_x,
                        local_min_y == 0 || local_min_y == min.1 - world_min_y,
                        local_max_y == CHUNK_SIZE - 1 || local_max_y == max.1 - world_min_y,
                        start.len() <= cells@.len(),
                        forall|k: int| 0 <= k < start.len() ==> #[trigger] cells@[k] == start[k],
                        forall|k: int|
                            start.len() <= k < cells@.len() ==> min.0 <= #[trigger] cells@[k].0 <= max.0 && min.1
                                <= cells@[k].1 <= max.1 && cells@[k].2 == self.state_at(
                                cells@[k].0 as int,
                                cells@[k].1 as int,
                            ) && cells@[k].2 != State::spec_default() && world_min_x <= cells@[k].0 < world_min_x
                                + CHUNK_SIZE && world_min_y <= cells@[k].1 < world_min_y + cell_y,
                        forall|lx: int, ly: int|
                            local_min_x <= lx <= local_max_x && local_min_y <= ly < cell_y && #[trigger] self.chunk_cell(
                                i as int,
                                lx,
                                ly,
                            ) != State::spec_default() ==> listed(
                                cells@,
                                world_min_x + lx,
                                world_min_y + ly,
                            ),
                        forall|k: int|
                            0 <= k < start.len() ==> min.0 <= #[trigger] start[k].0 <= max.0 && min.1 <= start[k].1
                                <= max.1 && start[k].2 == self.state_at(start[k].0 as int, start[k].1 as int)
                                && start[k].2 != State::spec_default() && self.chunk_index_of(
                                spec_chunk_coord(start[k].0 as int),
                                spec_chunk_coord(start[k].1 as int),
                            ) is Some && self.chunk_index_of(
                                spec_chunk_coord(start[k].0 as int),
                                spec_chunk_coord(start[k].1 as int),
                            )->0 < i,
                        positions_distinct(cells@),
                        self.in_visit_order(cells@),
                        min.0 <= max.0,
                        min.1 <= max.1,
                        forall|k: int|
                            0 <= k < cells@.len() && #[trigger] cells@[k].0 >= world_min_x && cells@[k].0 < world_min_x
                                + CHUNK_SIZE && cells@[k].1 >= world_min_y && cells@[k].1 < world_min_y + CHUNK_SIZE
                                ==> k >= start.len(),
                    decreases local_max_y + 1 - cell_y,
                {
                    let mut cell_x = local_min_x;
                    while cell_x <= local_max_x
                        invariant
                            self.wf(),
                            n == self.num_chunks(),
                            i < n,
                            (chunk_x, chunk_y) == self.spec_coords()[i as int],
                            self.chunk_index_of(chunk_x as int, chunk_y as int) == Some(i as int),
                            world_min_x == chunk_x * CHUNK_SIZE,
                            world_min_y == chunk_y * CHUNK_SIZE,
                            local_min_y <= cell_y <= local_max_y,
                            local_min_x <= cell_x <= local_max_x + 1,
                            local_max_y < CHUNK_SIZE,
                            local_max_x < CHUNK_SIZE,
                            min.0 <= world_min_x + local_min_x,
                            world_min_x + local_max_x <= max.0,
                            min.1 <= world_min_y + local_min_y,
                            world_min_y + local_max_y <= max.1,
                            start.len() <= cells@.len(),
                            forall|k: int| 0 <= k < start.len() ==> #[trigger] cells@[k] == start[k],
                            forall|k: int|
                                start.len() <= k < cells@.len() ==> min.0 <= #[trigger] cells@[k].0 <= max.0 && min.1
                                    <= cells@[k].1 <= max.1 && cells@[k].2 == self.state_at(
                                    cells@[k].0 as int,
                                    cells@[k].1 as int,
                                ) && cells@[k].2 != State::spec_default() && world_min_x <= cells@[k].0 < world_min_x
                                    + CHUNK_SIZE && world_min_y <= cells@[k].1 <= world_min_y + cell_y && (
                                cells@[k].1 == world_min_y + cell_y ==> cells@[k].0 < world_min_x + cell_x),
                            forall|lx: int, ly: int|
                                local_min_x <= lx <= local_max_x && local_min_y <= ly < cell_y
                                    && #[trigger] self.chunk_cell(i as int, lx, ly) != State::spec_default() ==> listed(
                                    cells@,
                                    world_min_x + lx,
                                    world_min_y + ly,
                                ),
                            forall|lx: int|
                                local_min_x <= lx < cell_x && #[trigger] self.chunk_cell(i as int, lx, cell_y as int)
                                    != State::spec_default() ==> listed(
                                    cells@,
                                    world_min_x + lx,
                                    world_min_y + cell_y,
                                ),
                            positions_distinct(cells@),
                            self.in_visit_order(cells@),
                            forall|k: int|
                                0 <= k < start.len() ==> self.chunk_index_of(
                                    spec_chunk_coord(#[trigger] start[k].0 as int),
                                    spec_chunk_coord(start[k].1 as int),
                                ) is Some && self.chunk_index_of(
                                    spec_chunk_coord(start[k].0 as int),
                                    spec_chunk_coord(start[k].1 as int),
                                )->0 < i,
                            forall|k: int|
                                0 <= k < cells@.len() && #[trigger] cells@[k].0 >= world_min_x && cells@[k].0
                                    < world_min_x + CHUNK_SIZE && cells@[k].1 >= world_min_y && cells@[k].1
                                    < world_min_y + CHUNK_SIZE ==> k >= start.len(),
                            min.0 <= max.0,
                            min.1 <= max.1,
                        decreases local_max_x + 1 - cell_x,
                    {
                        let state = self.interior_state(i, cell_x, cell_y);
                        if !is_default_state(state) {
                            let ghost before = cells@;
                            let x = world_min_x + cell_x as isize;
                            let y = world_min_y + cell_y as isize;
                            push_visited(&mut cells, x, y, state);
                            proof {
                                self.lemma_visit_push_order(
                                    start,
                                    before,
                                    i as int,
                                    chunk_x as int,
                                    chunk_y as int,
                                    cell_x as int,
                                    cell_y as int,
                                    (x, y, state),
                                );
                                let nb = before.len() as int;
                                assert(cells@[nb] == (x, y, state));
                                assert forall|k: int| 0 <= k < nb implies (#[trigger] before[k].0, before[k].1) != (x, y) by {
                                    if k < start.len() {
                                        assert(before[k] == start[k]);
                                        if before[k].0 >= world_min_x && before[k].0 < world_min_x + CHUNK_SIZE
                                            && before[k].1 >= world_min_y && before[k].1 < world_min_y + CHUNK_SIZE {
                                            assert(k >= start.len());
                                        }
                                    }
                                }
                                assert forall|k1: int, k2: int|
                                    0 <= k1 < cells@.len() && 0 <= k2 < cells@.len() && k1 != k2 implies (
                                    #[trigger] cells@[k1].0,
                                    cells@[k1].1,
                                ) != (#[trigger] cells@[k2].0, cells@[k2].1) by {
                                    if k1 < nb {
                                        assert(before[k1] == cells@[k1]);
                                    }
                                    if k2 < nb {
                                        assert(before[k2] == cells@[k2]);
                                    }
                                    if k1 < nb && k2 < nb {
                                        assert((before[k1].0, before[k1].1) != (before[k2].0, before[k2].1));
                                    }
                                }
                                assert forall|k: int|
                                    0 <= k < cells@.len() && #[trigger] cells@[k].0 >= world_min_x && cells@[k].0
                                        < world_min_x + CHUNK_SIZE && cells@[k].1 >= world_min_y && cells@[k].1
                                        < world_min_y + CHUNK_SIZE implies k >= start.len() by {
                                    if k < nb {
                                        assert(before[k] == cells@[k]);
                                    }
                                }
                            }
                        }
                        cell_x = cell_x + 1;
                    }
                    cell_y = cell_y + 1;
                }
                proof {
                    lemma_listed_extend(start, cells@);
                    assert forall|x: int, y: int|
                        min.0 <= x <= max.0 && min.1 <= y <= max.1 && #[trigger] self.state_at(x, y)
                            != State::spec_default() && self.chunk_index_of(spec_chunk_coord(x), spec_chunk_coord(y))->0
                            < i + 1 implies listed(cells@, x, y) by {
                        lemma_coord_parts(x);
                        lemma_coord_parts(y);
                        self.lemma_chunk_index_of(spec_chunk_coord(x), spec_chunk_coord(y));
                        if self.chunk_index_of(spec_chunk_coord(x), spec_chunk_coord(y))->0 < i {
                            assert(listed(start, x, y));
                        } else {
                            let lx = spec_cell_coord(x);
                            let ly = spec_cell_coord(y);
                            assert(self.state_at(x, y) == self.chunk_cell(i as int, lx, ly));
                            assert(self.chunk_cell(i as int, lx, ly) != State::spec_default());
                            assert(local_min_x <= lx <= local_max_x);
                            assert(local_min_y <= ly <= local_max_y);
                        }
                    }
                    assert forall|k: int| 0 <= k < cells@.len() implies min.0 <= #[trigger] cells@[k].0 <= max.0 && min.1
                        <= cells@[k].1 <= max.1 && cells@[k].2 == self.state_at(cells@[k].0 as int, cells@[k].1 as int)
                        && cells@[k].2 != State::spec_default() && self.chunk_index_of(
                        spec_chunk_coord(cells@[k].0 as int),
                        spec_chunk_coord(cells@[k].1 as int),
                    ) is Some && self.chunk_index_of(
                        spec_chunk_coord(cells@[k].0 as int),
                        spec_chunk_coord(cells@[k].1 as int),
                    )->0 < i + 1 by {
                        if k < start.len() {
                            assert(cells@[k] == start[k]);
                        } else {
                            lemma_split_coord(cells@[k].0 as int, chunk_x as int, cells@[k].0 - world_min_x);
                            lemma_split_coord(cells@[k].1 as int, chunk_y as int, cells@[k].1 - world_min_y);
                        }
                    }
                }
            } else {
                proof {
                    assert forall|x: int, y: int|
                        min.0 <= x <= max.0 && min.1 <= y <= max.1 && #[trigger] self.state_at(x, y)
                            != State::spec_default() && self.chunk_index_of(spec_chunk_coord(x), spec_chunk_coord(y))->0
                            < i + 1 implies listed(cells@, x, y) by {
                        self.lemma_chunk_index_of(spec_chunk_coord(x), spec_chunk_coord(y));
                        if self.chunk_index_of(spec_chunk_coord(x), spec_chunk_coord(y))->0 == i {
                            vstd::arithmetic::div_mod::lemma_div_is_ordered(min.0 as int, x, 64);
                            vstd::arithmetic::div_mod::lemma_div_is_ordered(x, max.0 as int, 64);
                            vstd::arithmetic::div_mod::lemma_div_is_ordered(min.1 as int, y, 64);
                            vstd::arithmetic::div_mod::lemma_div_is_ordered(y, max.1 as int, 64);
                        }
                    }
                }
            }
            i = i + 1;
        }
        cells
    }
}

impl<State: CellState> ChunkStorage<State> {
    /// Two well-formed storages with the same chunk coordinates find the
    /// same chunk at the same coordinates.
    pub proof fn lemma_same_coords_same_index(&self, other: &Self)
        requires
            self.wf(),
            other.wf(),
            self.spec_coords() == other.spec_coords(),
        ensures
            forall|cx: int, cy: int| #[trigger] self.chunk_index_of(cx, cy) == other.chunk_index_of(cx, cy),
    {
        assert(self.chunks_index@ =~= other.chunks_index@) by {
            assert forall|k: i128| self.chunks_index@.contains_key(k) == other.chunks_index@.contains_key(k) by {
                if self.chunks_index@.contains_key(k) {
                    let i = self.chunks_index@[k] as int;
                    assert(other.chunks_index@.contains_key(spec_chunk_key(other.chunk_coords@[i])));
                }
                if other.chunks_index@.contains_key(k) {
                    let i = other.chunks_index@[k] as int;
                    assert(self.chunks_index@.contains_key(spec_chunk_key(self.chunk_coords@[i])));
                }
            }
            assert forall|k: i128| self.chunks_index@.contains_key(k) implies self.chunks_index@[k]
                == other.chunks_index@[k] by {
                let i = self.chunks_index@[k] as int;
                assert(other.chunks_index@.contains_key(spec_chunk_key(other.chunk_coords@[i])));
            }
        }
    }
}

impl<State: CellState> ChunkStorage<State> {
    /// The buffer of a well-formed storage holds whole chunks.
    pub proof fn lemma_wf_cells_len(&self)
        requires
            self.wf(),
        ensures
            self.spec_cells().len() == self.num_chunks() * EXTENDED_CHUNK_CELLS,
            self.spec_next_cells().len() == self.spec_next_coords().len() * EXTENDED_CHUNK_CELLS,
    {
    }
}

} // verus!
