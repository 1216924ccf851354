//! A cellular automaton on the unbounded grid: its cells, its rule and the
//! step from one generation to the next.
use vstd::prelude::*;

use std::time::{Duration, Instant};

use crate::cell::{default_cells, painted, Cell, CellNeighborhood, CellRuleEvaluator, CellState, CellularAutomataConfig};
use crate::evaluator::{chunk_of, evaluated, next_cell, BasicEvaluator, CellGridEvaluator};
use crate::rule_lut::{spec_from_index, spec_table_size, RuleLUT};
use crate::storage::{
    cell_chunk, window_chunks, cell_of, in_interior, in_window, lemma_coord_parts, lemma_split_coord, listed, positions_distinct,
    spec_cell_coord, spec_chunk_coord, spec_ext_index, visit_key_before, window_neighbors, ChunkStorage, CHUNK_SIZE,
    EXTENDED_CHUNK_CELLS, EXTENDED_CHUNK_SIZE,
};

verus! {

/// `std::time::Instant`, a moment of the monotonic clock.
#[verifier::external_type_specification]
#[verifier::external_body]
pub struct ExInstant(Instant);

/// `Instant::now`: the current moment. Nothing is stated of it.
#[verifier::external_body]
fn now() -> Instant {
    Instant::now()
}

/// `Instant - Instant` (`Sub::sub`): the time from `start` to `end`, zero
/// where `end` is not later. Nothing is stated of it.
#[verifier::external_body]
fn time_between(start: &Instant, end: &Instant) -> Duration {
    *end - *start
}

/// `Duration::as_nanos`: the whole nanoseconds of a duration. Nothing is
/// stated of it, as the durations measured are not known.
#[verifier::external_body]
fn duration_nanos(d: &Duration) -> u128 {
    d.as_nanos()
}

/// The time spent so far in each phase of computing generations, in
/// nanoseconds.
pub struct CellularAutomatonOperationTimes {
    pub total_grid_evaluate: u128,
    pub total_storage_apply: u128,
    pub total_storage_optimize: u128,
}

/// No total of `later` is below that of `earlier`.
pub open spec fn times_not_below(later: CellularAutomatonOperationTimes, earlier: CellularAutomatonOperationTimes) -> bool {
    &&& later.total_grid_evaluate >= earlier.total_grid_evaluate
    &&& later.total_storage_apply >= earlier.total_storage_apply
    &&& later.total_storage_optimize >= earlier.total_storage_optimize
}

/// The table of the rule of `Config`: at each index that stands for a
/// state and its neighbors, the state that the rule gives for them; at
/// every other index, the default state.
pub open spec fn tabulated_rule<Config: CellularAutomataConfig>() -> Seq<Config::State> {
    Seq::new(
        spec_table_size::<Config::State>(Config::Neighborhood::spec_num_cells()),
        |j: int|
            match spec_from_index::<Config::State>(j as nat, Config::Neighborhood::spec_num_cells()) {
                Some((s, n)) => Config::spec_rule(s, n),
                None => Config::State::spec_default(),
            },
    )
}

/// An automaton of configuration `Config` on the unbounded grid.
pub struct CellularAutomaton<Config: CellularAutomataConfig> {
    storage: ChunkStorage<Config::State>,
    rule_evaluator: RuleLUT<Config::State, Config::Neighborhood>,
    operation_times: CellularAutomatonOperationTimes,
}

impl<Config: CellularAutomataConfig> CellularAutomaton<Config> {
    /// The state of the cell at (`x`, `y`).
    pub closed spec fn state_at(&self, x: int, y: int) -> Config::State {
        self.storage.state_at(x, y)
    }

    /// The states of the neighbors of the cell at (`x`, `y`), in the order
    /// of the neighborhood.
    pub open spec fn neighbors_at(&self, x: int, y: int) -> Seq<Config::State> {
        Seq::new(
            Config::Neighborhood::spec_num_cells(),
            |k: int|
                self.state_at(
                    x + Config::Neighborhood::spec_offset(k).0,
                    y + Config::Neighborhood::spec_offset(k).1,
                ),
        )
    }

    /// Where the cell at (`x`, `y`) comes when cells are visited: the index
    /// of its chunk among the allocated chunks, then its row and its column
    /// within the chunk.
    pub closed spec fn visit_key(&self, x: int, y: int) -> (int, int, int) {
        self.storage.visit_key(x, y)
    }

    /// The number of allocated chunks.
    pub closed spec fn spec_chunk_count(&self) -> nat {
        self.storage.num_chunks()
    }

    /// The coordinates of the allocated chunks.
    pub closed spec fn allocated_chunks(&self) -> Set<(isize, isize)> {
        self.storage.allocated_chunks()
    }

    /// There are as many chunks as allocated chunk coordinates.
    pub proof fn lemma_chunk_count(&self)
        requires
            self.wf(),
        ensures
            self.allocated_chunks().finite(),
            self.spec_chunk_count() == self.allocated_chunks().len(),
    {
        self.storage.lemma_allocated_len();
    }

    /// Around every cell in a state other than the default, the chunks of
    /// the cell and of its eight neighbors are allocated.
    pub proof fn lemma_neighbor_chunks_allocated(&self, x: int, y: int, dx: int, dy: int)
        requires
            self.wf(),
            self.state_at(x, y) != Config::State::spec_default(),
            -1 <= dx <= 1,
            -1 <= dy <= 1,
        ensures
            self.allocated_chunks().contains(cell_chunk(x + dx, y + dy)),
    {
        let cx = spec_chunk_coord(x + dx);
        let cy = spec_chunk_coord(y + dy);
        assert(self.storage.state_at(x, y) != Config::State::spec_default());
        assert(self.storage.chunk_index_of(cx, cy) is Some);
        self.storage.lemma_chunk_index_of(cx, cy);
        let i = self.storage.chunk_index_of(cx, cy)->0;
        assert(self.storage.spec_coords()[i] == cell_chunk(x + dx, y + dy));
        assert(self.storage.spec_coords().contains(cell_chunk(x + dx, y + dy)));
    }

    /// The times spent so far.
    pub closed spec fn spec_operation_times(&self) -> &CellularAutomatonOperationTimes {
        &self.operation_times
    }

    /// Every cell in a state other than the default lies strictly inside
    /// the range of `isize` coordinates, so that its neighbors have
    /// coordinates too.
    pub open spec fn cells_inside(&self) -> bool {
        forall|x: int, y: int|
            #[trigger] self.state_at(x, y) != Config::State::spec_default() ==> isize::MIN < x < isize::MAX
                && isize::MIN < y < isize::MAX
    }

    /// The storage is well formed, its chunk borders mirror the grid, the
    /// chunks around every non-default cell are allocated, and the table
    /// holds the rule of the configuration.
    pub closed spec fn wf(&self) -> bool {
        &&& self.storage.wf()
        &&& self.storage.halos_consistent()
        &&& self.storage.neighbors_allocated()
        &&& forall|s: Config::State, n: Seq<Config::State>|
            n.len() == Config::Neighborhood::spec_num_cells() ==> #[trigger] self.rule_evaluator.spec_evaluate(s, n)
                == Config::spec_rule(s, n)
    }

    /// An automaton whose cells are all in the default state.
    pub fn new() -> (r: Self)
        requires
            spec_table_size::<Config::State>(Config::Neighborhood::spec_num_cells()) < 64 * 1024 * 1024,
        ensures
            r.wf(),
            forall|x: int, y: int| #[trigger] r.state_at(x, y) == Config::State::spec_default(),
            r.spec_chunk_count() == 0,
            r.allocated_chunks() == Set::<(isize, isize)>::empty(),
            r.spec_operation_times().total_grid_evaluate == 0,
            r.spec_operation_times().total_storage_apply == 0,
            r.spec_operation_times().total_storage_optimize == 0,
    {
        let rule_evaluator = RuleLUT::compute(&Config::new_evaluator());
        let r = CellularAutomaton {
            storage: ChunkStorage::new(),
            rule_evaluator,
            operation_times: CellularAutomatonOperationTimes {
                total_grid_evaluate: 0,
                total_storage_apply: 0,
                total_storage_optimize: 0,
            },
        };
        assert(r.allocated_chunks() =~= Set::<(isize, isize)>::empty());
        r
    }

    /// The state of the cell at (`x`, `y`).
    pub fn get_state(&self, x: isize, y: isize) -> (s: Config::State)
        requires
            self.wf(),
        ensures
            s == self.state_at(x as int, y as int),
    {
        self.storage.get_state(x, y)
    }

    /// The cells in a state other than the default whose coordinates lie
    /// between `min` and `max`, both included.
    pub fn visit_non_default_cells(&self, min: (isize, isize), max: (isize, isize)) -> (cells: Vec<
        (isize, isize, Config::State),
    >)
        requires
            self.wf(),
        ensures
            forall|k: int|
                0 <= k < cells@.len() ==> min.0 <= #[trigger] cells@[k].0 <= max.0 && min.1 <= cells@[k].1 <= max.1
                    && cells@[k].2 == self.state_at(cells@[k].0 as int, cells@[k].1 as int) && cells@[k].2
                    != Config::State::spec_default(),
            forall|x: int, y: int|
                min.0 <= x <= max.0 && min.1 <= y <= max.1 && #[trigger] self.state_at(x, y)
                    != Config::State::spec_default() ==> listed(cells@, x, y),
            positions_distinct(cells@),
            forall|a: int, b: int|
                #![trigger cells@[a], cells@[b]]
                0 <= a < b < cells@.len() ==> visit_key_before(
                    self.visit_key(cells@[a].0 as int, cells@[a].1 as int),
                    self.visit_key(cells@[b].0 as int, cells@[b].1 as int),
                ),
    {
        self.storage.visit_non_default_cells(min, max)
    }

    /// The times spent so far.
    pub fn operation_times(&self) -> (r: &CellularAutomatonOperationTimes)
        ensures
            r == self.spec_operation_times(),
    {
        &self.operation_times
    }

    /// Reports statistics of the grid evaluator. The evaluator on the
    /// calling thread keeps none, so there is nothing to report.
    pub fn print_evaluator_stats(&self) {
    }

    /// The number of allocated chunks.
    pub fn chunk_count(&self) -> (n: usize)
        requires
            self.wf(),
        ensures
            n == self.spec_chunk_count(),
            n == self.allocated_chunks().len(),
    {
        proof {
            self.storage.lemma_allocated_len();
        }
        self.storage.chunks().len()
    }

    /// Sets the cell at (`x`, `y`) to `new_state`.
    ///
    /// Writing the default state into a chunk that is not allocated
    /// allocates nothing; any other write allocates every chunk whose
    /// window, its border included, shows the cell.
    pub fn set_state(&mut self, x: isize, y: isize, new_state: Config::State)
        requires
            old(self).wf(),
        ensures
            final(self).wf(),
            forall|p: int, q: int| #[trigger]
                final(self).state_at(p, q) == if p == x && q == y {
                    new_state
                } else {
                    old(self).state_at(p, q)
                },
            !old(self).allocated_chunks().contains(cell_chunk(x as int, y as int)) && new_state
                == Config::State::spec_default() ==> final(self).allocated_chunks() == old(self).allocated_chunks(),
            !(!old(self).allocated_chunks().contains(cell_chunk(x as int, y as int)) && new_state
                == Config::State::spec_default()) ==> final(self).allocated_chunks() == old(
                self,
            ).allocated_chunks().union(window_chunks(x as int, y as int)),
            final(self).rule_table() == old(self).rule_table(),
            final(self).spec_operation_times() == old(self).spec_operation_times(),
    {
        proof {
            lemma_coord_parts(x as int);
            lemma_coord_parts(y as int);
            self.storage.lemma_allocated_index(spec_chunk_coord(x as int), spec_chunk_coord(y as int));
        }
        self.storage.set_state(x, y, new_state);
    }

    /// Writes `cells` in order; where two of them share a position the
    /// later one stays.
    pub(crate) fn set_cells(&mut self, cells: &[Cell<Config::State>])
        requires
            old(self).wf(),
        ensures
            final(self).wf(),
            forall|x: int, y: int| #[trigger]
                final(self).state_at(x, y) == painted(cells@, cells@.len() as int, x, y, old(self).state_at(x, y)),
    {
        let ghost start = *self;
        let mut i: usize = 0;
        while i < cells.len()
            invariant
                i <= cells@.len(),
                self.wf(),
                forall|x: int, y: int| #[trigger]
                    self.state_at(x, y) == painted(cells@, i as int, x, y, start.state_at(x, y)),
            decreases cells@.len() - i,
        {
            let cell = cells[i];
            self.set_state(cell.x, cell.y, cell.state);
            i = i + 1;
        }
    }

    /// Every allocated chunk lies strictly inside the chunks that `isize`
    /// coordinates reach.
    pub closed spec fn spec_chunks_inside(&self) -> bool {
        forall|k: int|
            0 <= k < self.storage.spec_coords().len() ==> isize::MIN / 64 < (#[trigger] self.storage.spec_coords()[k]).0
                < isize::MAX / 64 && isize::MIN / 64 < self.storage.spec_coords()[k].1 < isize::MAX / 64
    }

    /// Whether every allocated chunk lies strictly inside the chunks that
    /// `isize` coordinates reach; then every cell in a state other than the
    /// default has neighbors with `isize` coordinates, as `evaluate_next`
    /// needs. An automaton without chunks passes.
    pub fn chunks_inside(&self) -> (r: bool)
        requires
            self.wf(),
        ensures
            r == self.spec_chunks_inside(),
            r ==> self.cells_inside(),
            self.spec_chunk_count() == 0 ==> r,
    {
        let coords = self.storage.chunk_coords();
        let lo: isize = isize::MIN / 64;
        let hi: isize = isize::MAX / 64;
        let mut i: usize = 0;
        while i < coords.len()
            invariant
                i <= coords@.len(),
                coords@ == self.storage.spec_coords(),
                lo == isize::MIN / 64,
                hi == isize::MAX / 64,
                forall|k: int| 0 <= k < i ==> lo < (#[trigger] coords@[k]).0 < hi && lo < coords@[k].1 < hi,
            decreases coords@.len() - i,
        {
            let c = coords[i];
            if !(lo < c.0 && c.0 < hi && lo < c.1 && c.1 < hi) {
                return false;
            }
            i = i + 1;
        }
        proof {
            assert forall|x: int, y: int| #[trigger]
                self.state_at(x, y) != Config::State::spec_default() implies isize::MIN < x < isize::MAX && isize::MIN
                < y < isize::MAX by {
                let cx = spec_chunk_coord(x);
                let cy = spec_chunk_coord(y);
                self.storage.lemma_chunk_index_of(cx, cy);
                let k = self.storage.chunk_index_of(cx, cy)->0;
                assert(coords@[k] == (cx as isize, cy as isize));
            }
        }
        true
    }

    /// The entries of the automaton's table of the rule, in index order.
    pub closed spec fn rule_table(&self) -> Seq<Config::State> {
        self.rule_evaluator.spec_table()
    }

    /// Builds the table of the rule again: afterwards it holds the rule of
    /// the configuration at every index that stands for a state and its
    /// neighbors, and the default state at every other index. The cells and
    /// the times spent are left as they are.
    pub fn switch_to_lut(&mut self)
        requires
            old(self).wf(),
            spec_table_size::<Config::State>(Config::Neighborhood::spec_num_cells()) < 64 * 1024 * 1024,
        ensures
            final(self).wf(),
            forall|p: int, q: int| #[trigger] final(self).state_at(p, q) == old(self).state_at(p, q),
            final(self).rule_table() == tabulated_rule::<Config>(),
            final(self).spec_chunk_count() == old(self).spec_chunk_count(),
            final(self).spec_operation_times() == old(self).spec_operation_times(),
    {
        let evaluator = Config::new_evaluator();
        self.rule_evaluator = RuleLUT::compute(&evaluator);
        assert(self.rule_table() =~= tabulated_rule::<Config>());
    }
}

/// The offsets of neighbors move window positions by rows and columns.
proof fn lemma_ext_shift(lx: int, ly: int, dx: int, dy: int)
    ensures
        spec_ext_index(lx + dx, ly + dy) == spec_ext_index(lx, ly) + dy * EXTENDED_CHUNK_SIZE + dx,
{
    assert((ly + dy + 1) * 66 + (lx + dx + 1) == (ly + 1) * 66 + (lx + 1) + dy * 66 + dx) by (nonlinear_arith);
}

/// A buffer position of chunk `t` read through the chunk alone.
proof fn lemma_chunk_of_index<State>(cells: Seq<State>, t: int, n: int, k: int)
    requires
        0 <= t < n,
        cells.len() == n * EXTENDED_CHUNK_CELLS,
        0 <= k < EXTENDED_CHUNK_CELLS,
    ensures
        chunk_of(cells, t).len() == EXTENDED_CHUNK_CELLS,
        chunk_of(cells, t)[k] == cells[t * EXTENDED_CHUNK_CELLS + k],
{
    assert(0 <= t * 4356 && t * 4356 + 4356 <= n * 4356) by (nonlinear_arith)
        requires
            0 <= t < n,
    ;
}

impl<Config: CellularAutomataConfig> CellularAutomaton<Config> {
    /// After the chunks were computed from the chunks of `before`, every
    /// cell of the grid holds what the rule gives for its old state and its
    /// old neighbors.
    #[verifier::rlimit(30)]
    proof fn lemma_step(
        before: &ChunkStorage<Config::State>,
        after: &ChunkStorage<Config::State>,
        lut: &RuleLUT<Config::State, Config::Neighborhood>,
        output_before: Seq<Config::State>,
    )
        requires
            before.wf(),
            before.halos_consistent(),
            before.neighbors_allocated(),
            after.wf(),
            after.spec_coords() == before.spec_coords(),
            evaluated::<Config::State, Config::Neighborhood, RuleLUT<Config::State, Config::Neighborhood>>(
                lut,
                before.spec_cells(),
                output_before,
                after.spec_cells(),
            ),
            before.spec_cells().len() == before.num_chunks() * EXTENDED_CHUNK_CELLS,
            forall|s: Config::State, n: Seq<Config::State>|
                n.len() == Config::Neighborhood::spec_num_cells() ==> #[trigger] lut.spec_evaluate(s, n)
                    == Config::spec_rule(s, n),
        ensures
            forall|x: int, y: int| #[trigger]
                after.state_at(x, y) == Config::spec_rule(
                    before.state_at(x, y),
                    Seq::new(
                        Config::Neighborhood::spec_num_cells(),
                        |k: int|
                            before.state_at(
                                x + Config::Neighborhood::spec_offset(k).0,
                                y + Config::Neighborhood::spec_offset(k).1,
                            ),
                    ),
                ),
    {
        after.lemma_same_coords_same_index(before);
        Config::lemma_default_is_quiescent();
        Config::Neighborhood::lemma_offsets();
        let n = before.num_chunks() as int;
        vstd::arithmetic::div_mod::lemma_div_by_multiple(n, EXTENDED_CHUNK_CELLS as int);
        assert forall|x: int, y: int| #[trigger]
            after.state_at(x, y) == Config::spec_rule(
                before.state_at(x, y),
                Seq::new(
                    Config::Neighborhood::spec_num_cells(),
                    |k: int|
                        before.state_at(
                            x + Config::Neighborhood::spec_offset(k).0,
                            y + Config::Neighborhood::spec_offset(k).1,
                        ),
                ),
            ) by {
            let nbrs = Seq::new(
                Config::Neighborhood::spec_num_cells(),
                |k: int|
                    before.state_at(
                        x + Config::Neighborhood::spec_offset(k).0,
                        y + Config::Neighborhood::spec_offset(k).1,
                    ),
            );
            lemma_coord_parts(x);
            lemma_coord_parts(y);
            let cx = spec_chunk_coord(x);
            let cy = spec_chunk_coord(y);
            let lx = spec_cell_coord(x);
            let ly = spec_cell_coord(y);
            assert(after.chunk_index_of(cx, cy) == before.chunk_index_of(cx, cy));
            if let Some(t) = before.chunk_index_of(cx, cy) {
                before.lemma_chunk_index_of(cx, cy);
                let chunk = chunk_of(before.spec_cells(), t);
                let e = spec_ext_index(lx, ly);
                crate::storage::lemma_flat_index(t, n, lx, ly);
                lemma_chunk_of_index(before.spec_cells(), t, n, e);
                assert(after.chunk_cell(t, lx, ly) == cell_of(after.spec_cells(), t, lx, ly));
                assert(cell_of(after.spec_cells(), t, lx, ly) == next_cell::<
                    Config::State,
                    Config::Neighborhood,
                    RuleLUT<Config::State, Config::Neighborhood>,
                >(lut, chunk, e));
                assert(chunk[e] == before.state_at(x, y));
                let wn = window_neighbors::<Config::State, Config::Neighborhood>(chunk, e);
                assert forall|k: int| 0 <= k < Config::Neighborhood::spec_num_cells() implies wn[k] == nbrs[k] by {
                    let off = Config::Neighborhood::spec_offset(k);
                    assert(-1 <= off.0 <= 1 && -1 <= off.1 <= 1);
                    lemma_ext_shift(lx, ly, off.0, off.1);
                    crate::storage::lemma_flat_index(t, n, lx + off.0, ly + off.1);
                    lemma_chunk_of_index(before.spec_cells(), t, n, spec_ext_index(lx + off.0, ly + off.1));
                    assert(before.chunk_cell(t, lx + off.0, ly + off.1) == before.state_at(
                        before.spec_coords()[t].0 * CHUNK_SIZE + lx + off.0,
                        before.spec_coords()[t].1 * CHUNK_SIZE + ly + off.1,
                    ));
                }
                assert(wn =~= nbrs);
                if before.state_at(x, y) == Config::State::spec_default() && nbrs == default_cells::<
                    Config::State,
                >(Config::Neighborhood::spec_num_cells()) {
                } else {
                    assert(lut.spec_evaluate(before.state_at(x, y), nbrs) == Config::spec_rule(
                        before.state_at(x, y),
                        nbrs,
                    ));
                }
            } else {
                assert forall|k: int| 0 <= k < Config::Neighborhood::spec_num_cells() implies nbrs[k]
                    == Config::State::spec_default() by {
                    let off = Config::Neighborhood::spec_offset(k);
                    assert(-1 <= off.0 <= 1 && -1 <= off.1 <= 1);
                    let wx = x + off.0;
                    let wy = y + off.1;
                    if before.state_at(wx, wy) != Config::State::spec_default() {
                        assert(wx + (-off.0) == x);
                        assert(before.chunk_index_of(spec_chunk_coord(wx + (-off.0)), spec_chunk_coord(wy + (-off.1)))
                            is Some);
                    }
                }
                assert(nbrs =~= default_cells::<Config::State>(Config::Neighborhood::spec_num_cells()));
            }
        }
    }
}

/// A copy of a slice of chunk coordinates.
fn copy_coords(coords: &[(isize, isize)]) -> (r: Vec<(isize, isize)>)
    ensures
        r@ == coords@,
{
    let mut r: Vec<(isize, isize)> = Vec::new();
    let mut i: usize = 0;
    while i < coords.len()
        invariant
            i <= coords@.len(),
            r@ == coords@.subrange(0, i as int),
        decreases coords@.len() - i,
    {
        r.push(coords[i]);
        i = i + 1;
        assert(r@ =~= coords@.subrange(0, i as int));
    }
    assert(r@ =~= coords@);
    r
}

impl<Config: CellularAutomataConfig> CellularAutomaton<Config> {
    /// Computes the next generation: every cell takes the state that the
    /// rule gives for its state and the states of its neighbors, all cells
    /// at once.
    pub fn evaluate_next(&mut self)
        requires
            old(self).wf(),
            old(self).cells_inside(),
        ensures
            final(self).wf(),
            forall|x: int, y: int| #[trigger]
                final(self).state_at(x, y) == Config::spec_rule(old(self).state_at(x, y), old(self).neighbors_at(x, y)),
            times_not_below(*final(self).spec_operation_times(), *old(self).spec_operation_times()),
    {
        let mut grid_evaluator = BasicEvaluator;
        self.evaluate_next_with(&mut grid_evaluator);
    }

    /// Computes the next generation as `evaluate_next` does, with the chunks
    /// computed and their borders rebuilt by `grid_evaluator`.
    #[verifier::rlimit(30)]
    pub fn evaluate_next_with<G: CellGridEvaluator<
        Config::State,
        Config::Neighborhood,
        RuleLUT<Config::State, Config::Neighborhood>,
    >>(&mut self, grid_evaluator: &mut G)
        requires
            old(self).wf(),
            old(self).cells_inside(),
        ensures
            final(self).wf(),
            forall|x: int, y: int| #[trigger]
                final(self).state_at(x, y) == Config::spec_rule(old(self).state_at(x, y), old(self).neighbors_at(x, y)),
            times_not_below(*final(self).spec_operation_times(), *old(self).spec_operation_times()),
    {
        let t0 = now();
        let ghost before = self.storage;
        self.storage.prepare_next_chunks();
        let chunk_coords = copy_coords(self.storage.chunk_coords());
        proof {
            self.storage.lemma_wf_cells_len();
        }
        let (input, output) = self.storage.chunk_buffers();
        let ghost out_before = output@;
        grid_evaluator.evaluate_all(chunk_coords.as_slice(), input, output, &self.rule_evaluator);
        let t1 = now();
        self.storage.commit_next_chunks();
        proof {
            before.lemma_wf_cells_len();
            Self::lemma_step(&before, &self.storage, &self.rule_evaluator, out_before);
            Config::lemma_default_is_quiescent();
            Config::Neighborhood::lemma_offsets();
            let after = self.storage;
            assert forall|x: int, y: int| #[trigger] after.state_at(x, y) != Config::State::spec_default() implies isize::MIN
                <= x <= isize::MAX && isize::MIN <= y <= isize::MAX by {
                let nbrs = Seq::new(
                    Config::Neighborhood::spec_num_cells(),
                    |k: int|
                        before.state_at(
                            x + Config::Neighborhood::spec_offset(k).0,
                            y + Config::Neighborhood::spec_offset(k).1,
                        ),
                );
                if before.state_at(x, y) == Config::State::spec_default() {
                    if nbrs =~= default_cells::<Config::State>(Config::Neighborhood::spec_num_cells()) {
                    } else {
                        let k = choose|k: int|
                            0 <= k < Config::Neighborhood::spec_num_cells() && nbrs[k] != default_cells::<
                                Config::State,
                            >(Config::Neighborhood::spec_num_cells())[k];
                        let off = Config::Neighborhood::spec_offset(k);
                        assert(-1 <= off.0 <= 1 && -1 <= off.1 <= 1);
                        assert(before.state_at(x + off.0, y + off.1) != Config::State::spec_default());
                        assert(old(self).state_at(x + off.0, y + off.1) != Config::State::spec_default());
                    }
                } else {
                    assert(old(self).state_at(x, y) != Config::State::spec_default());
                }
            }
        }
        grid_evaluator.rebuild_all_halos(&mut self.storage);
        let t2 = now();
        if self.storage.on_evaluate_next() {
            grid_evaluator.rebuild_all_halos(&mut self.storage);
        }
        let t3 = now();
        let grid_time = duration_nanos(&time_between(&t0, &t1));
        let apply_time = duration_nanos(&time_between(&t1, &t2));
        let optimize_time = duration_nanos(&time_between(&t2, &t3));
        self.operation_times.total_grid_evaluate = self.operation_times.total_grid_evaluate.saturating_add(grid_time);
        self.operation_times.total_storage_apply = self.operation_times.total_storage_apply.saturating_add(apply_time);
        self.operation_times.total_storage_optimize = self.operation_times.total_storage_optimize.saturating_add(
            optimize_time,
        );
        proof {
            assert forall|x: int, y: int| #[trigger]
                self.state_at(x, y) == Config::spec_rule(old(self).state_at(x, y), old(self).neighbors_at(x, y)) by {
                assert(old(self).neighbors_at(x, y) =~= Seq::new(
                    Config::Neighborhood::spec_num_cells(),
                    |k: int|
                        before.state_at(
                            x + Config::Neighborhood::spec_offset(k).0,
                            y + Config::Neighborhood::spec_offset(k).1,
                        ),
                ));
            }
        }
    }
}

} // verus!
