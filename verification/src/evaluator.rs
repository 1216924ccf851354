//! Computing the next generation of every chunk, and restoring the chunk
//! borders afterwards.
use vstd::prelude::*;

use crate::cell::{
    default_cells, is_default_state, CellNeighborhood, CellRuleEvaluator, CellState,
};
use crate::storage::{
    cell_of, chunk_at, in_interior, in_window, interior_start_index, spec_ext_index, window_neighbors,
    ChunkStorage, FillNeighborhood, CHUNK_SIZE, EXTENDED_CHUNK_CELLS, EXTENDED_CHUNK_SIZE,
};

verus! {

/// The next state of the cell at position `index` of a chunk with its
/// border: what the evaluator gives for it and its neighbors, except that a
/// default cell among default neighbors stays default without asking.
pub open spec fn next_cell<State: CellState, N: CellNeighborhood<State>, E: CellRuleEvaluator<State, N>>(
    evaluator: &E,
    chunk: Seq<State>,
    index: int,
) -> State {
    let s = chunk[index];
    let n = window_neighbors::<State, N>(chunk, index);
    if s == State::spec_default() && n == default_cells::<State>(N::spec_num_cells()) {
        State::spec_default()
    } else {
        evaluator.spec_evaluate(s, n)
    }
}

/// Position `k` of a chunk with its border lies in the interior.
pub open spec fn interior_pos(k: int) -> bool {
    1 <= k % (EXTENDED_CHUNK_SIZE as int) <= CHUNK_SIZE && 1 <= k / (EXTENDED_CHUNK_SIZE as int) <= CHUNK_SIZE
}

/// Chunk `t` of a buffer of chunks.
pub open spec fn chunk_of<State>(cells: Seq<State>, t: int) -> Seq<State> {
    cells.subrange(t * EXTENDED_CHUNK_CELLS, (t + 1) * EXTENDED_CHUNK_CELLS)
}

/// The column and the row of a window position.
proof fn lemma_ext_parts(lx: int, ly: int)
    requires
        in_window(lx, ly),
    ensures
        spec_ext_index(lx, ly) % (EXTENDED_CHUNK_SIZE as int) == lx + 1,
        spec_ext_index(lx, ly) / (EXTENDED_CHUNK_SIZE as int) == ly + 1,
        interior_pos(spec_ext_index(lx, ly)) == in_interior(lx, ly),
        0 <= spec_ext_index(lx, ly) < EXTENDED_CHUNK_CELLS,
        in_interior(lx, ly) ==> EXTENDED_CHUNK_SIZE + 1 <= spec_ext_index(lx, ly) < EXTENDED_CHUNK_CELLS
            - EXTENDED_CHUNK_SIZE - 1,
{
    vstd::arithmetic::div_mod::lemma_fundamental_div_mod_converse(spec_ext_index(lx, ly), 66, ly + 1, lx + 1);
    assert(0 <= (ly + 1) * 66 + (lx + 1) < 4356) by (nonlinear_arith)
        requires
            -1 <= lx <= 64,
            -1 <= ly <= 64,
    ;
    if in_interior(lx, ly) {
        assert(67 <= (ly + 1) * 66 + (lx + 1) < 4289) by (nonlinear_arith)
            requires
                0 <= lx < 64,
                0 <= ly < 64,
        ;
    }
}

/// Whether all states of a slice are the default.
fn all_default<State: CellState>(s: &[State]) -> (r: bool)
    ensures
        r == (s@ == default_cells::<State>(s@.len())),
{
    let mut i: usize = 0;
    while i < s.len()
        invariant
            i <= s@.len(),
            forall|k: int| 0 <= k < i ==> #[trigger] s@[k] == State::spec_default(),
        decreases s@.len() - i,
    {
        if !is_default_state(s[i]) {
            assert(s@[i as int] != default_cells::<State>(s@.len())[i as int]);
            return false;
        }
        i = i + 1;
    }
    assert(s@ =~= default_cells::<State>(s@.len()));
    true
}

/// Computes the next state of every interior cell of `chunk` into chunk `j`
/// of `output`, leaving the rest of `output` as it is.
#[verifier::rlimit(30)]
pub fn evaluate_chunk<State: CellState, N: FillNeighborhood<State>, E: CellRuleEvaluator<State, N>>(
    chunk: &[State],
    output: &mut [State],
    j: usize,
    evaluator: &E,
)
    requires
        chunk@.len() == EXTENDED_CHUNK_CELLS,
        (j + 1) * EXTENDED_CHUNK_CELLS <= old(output)@.len(),
    ensures
        final(output)@.len() == old(output)@.len(),
        forall|p: int|
            0 <= p < old(output)@.len() ==> #[trigger] final(output)@[p] == if j * EXTENDED_CHUNK_CELLS <= p < (j + 1)
                * EXTENDED_CHUNK_CELLS && interior_pos(p - j * EXTENDED_CHUNK_CELLS) {
                next_cell::<State, N, E>(evaluator, chunk@, p - j * EXTENDED_CHUNK_CELLS)
            } else {
                old(output)@[p]
            },
{
    let ghost before = output@;
    let len = output.len();
    assert(len == output@.len());
    let base = j * EXTENDED_CHUNK_CELLS;
    let mut state = State::default_state();
    let mut neighborhood = N::new_default();
    let mut index = interior_start_index();
    let mut y: usize = 0;
    proof {
        assert forall|p: int| base <= p < base + index implies !#[trigger] interior_pos(p - base) by {
            let k = p - base;
            vstd::arithmetic::div_mod::lemma_fundamental_div_mod(k, 66);
            vstd::arithmetic::div_mod::lemma_mod_bound(k, 66);
        }
    }
    while y < CHUNK_SIZE
        invariant
            y <= CHUNK_SIZE,
            chunk@.len() == EXTENDED_CHUNK_CELLS,
            base == j * EXTENDED_CHUNK_CELLS,
            base + EXTENDED_CHUNK_CELLS <= len,
            len == output@.len(),
            output@.len() == before.len(),
            index == spec_ext_index(0, y as int),
            forall|p: int|
                0 <= p < before.len() ==> #[trigger] output@[p] == if base <= p < base + index && interior_pos(
                    p - base,
                ) {
                    next_cell::<State, N, E>(evaluator, chunk@, p - base)
                } else {
                    before[p]
                },
        decreases CHUNK_SIZE - y,
    {
        let mut x: usize = 0;
        while x < CHUNK_SIZE
            invariant
                x <= CHUNK_SIZE,
                y < CHUNK_SIZE,
                chunk@.len() == EXTENDED_CHUNK_CELLS,
                base == j * EXTENDED_CHUNK_CELLS,
                base + EXTENDED_CHUNK_CELLS <= len,
                len == output@.len(),
                output@.len() == before.len(),
                index == spec_ext_index(x as int, y as int),
                forall|p: int|
                    0 <= p < before.len() ==> #[trigger] output@[p] == if base <= p < base + index && interior_pos(
                        p - base,
                    ) {
                        next_cell::<State, N, E>(evaluator, chunk@, p - base)
                    } else {
                        before[p]
                    },
            decreases CHUNK_SIZE - x,
        {
            proof {
                lemma_ext_parts(x as int, y as int);
            }
            N::fill_neighborhood(chunk, index, &mut state, &mut neighborhood);
            proof {
                N::lemma_len(&neighborhood);
            }
            let new_state = if is_default_state(state) && all_default(neighborhood.neighbors()) {
                // Default states can never be changed by default neighbors
                State::default_state()
            } else {
                evaluator.evaluate(state, &neighborhood)
            };
            assert(new_state == next_cell::<State, N, E>(evaluator, chunk@, index as int));
            output[base + index] = new_state;
            index = index + 1;
            x = x + 1;
        }
        proof {
            lemma_ext_parts(CHUNK_SIZE as int, y as int);
            lemma_ext_parts(-1, y + 1);
        }
        // Skip the right border of this row and the left border of the next
        index = index + 2;
        y = y + 1;
    }
    proof {
        lemma_ext_parts(0, CHUNK_SIZE as int);
        assert forall|p: int|
            0 <= p < before.len() && base <= p < base + EXTENDED_CHUNK_CELLS && #[trigger] interior_pos(p - base) implies p
            < base + index by {
            let k = p - base;
            vstd::arithmetic::div_mod::lemma_fundamental_div_mod(k, 66);
        }
    }
}

/// Each interior cell of every chunk of `output` holds the next state of
/// that cell of `input`; the border cells of `output` are those of
/// `before`.
pub open spec fn evaluated<State: CellState, N: CellNeighborhood<State>, E: CellRuleEvaluator<State, N>>(
    evaluator: &E,
    input: Seq<State>,
    before: Seq<State>,
    output: Seq<State>,
) -> bool {
    &&& output.len() == input.len()
    &&& forall|t: int, lx: int, ly: int|
        0 <= t < (input.len() as int) / (EXTENDED_CHUNK_CELLS as int) && in_window(lx, ly) ==> #[trigger] cell_of(output, t, lx, ly)
            == if in_interior(lx, ly) {
            next_cell::<State, N, E>(evaluator, chunk_of(input, t), spec_ext_index(lx, ly))
        } else {
            cell_of(before, t, lx, ly)
        }
}

/// Computes the next generation of the chunks, one by one.
pub trait CellGridEvaluator<State: CellState, N: FillNeighborhood<State>, E: CellRuleEvaluator<State, N>> {
    /// Computes into `output` the next state of every interior cell of the
    /// chunks of `input`, which lie at `chunk_coords`.
    fn evaluate_all(&mut self, chunk_coords: &[(isize, isize)], input: &[State], output: &mut [State], evaluator: &E)
        requires
            input@.len() == chunk_coords@.len() * EXTENDED_CHUNK_CELLS,
            old(output)@.len() == input@.len(),
        ensures
            evaluated::<State, N, E>(evaluator, input@, old(output)@, final(output)@),
    ;

    /// Recomputes every chunk border of `storage` from the interiors.
    fn rebuild_all_halos(&mut self, storage: &mut ChunkStorage<State>)
        requires
            old(storage).wf(),
            old(storage).cells_addressable(),
        ensures
            final(storage).wf(),
            forall|p: int, q: int| #[trigger] final(storage).state_at(p, q) == old(storage).state_at(p, q),
            final(storage).halos_consistent(),
            final(storage).neighbors_allocated(),
            final(storage).spec_next_coords() == old(storage).spec_next_coords(),
            final(storage).spec_next_cells() == old(storage).spec_next_cells(),
            final(storage).spec_cycles() == old(storage).spec_cycles(),
            final(storage).allocated_chunks() == old(storage).allocated_chunks().union(
                Set::new(|c: (isize, isize)| old(storage).border_shows_non_default(c)),
            ),
    ;
}

/// Evaluates the chunks one after another on the calling thread.
pub struct BasicEvaluator;

impl<State: CellState, N: FillNeighborhood<State>, E: CellRuleEvaluator<State, N>> CellGridEvaluator<
    State,
    N,
    E,
> for BasicEvaluator {
    #[verifier::rlimit(30)]
    fn evaluate_all(&mut self, chunk_coords: &[(isize, isize)], input: &[State], output: &mut [State], evaluator: &E) {
        let ghost before = output@;
        let n = chunk_coords.len();
        let len = input.len();
        assert(len == input@.len());
        proof {
            vstd::arithmetic::div_mod::lemma_div_by_multiple(n as int, EXTENDED_CHUNK_CELLS as int);
        }
        let mut t: usize = 0;
        while t < n
            invariant
                t <= n,
                len == input@.len(),
                input@.len() == n * EXTENDED_CHUNK_CELLS,
                (input@.len() as int) / (EXTENDED_CHUNK_CELLS as int) == n,
                output@.len() == len,
                before.len() == len,
                forall|u: int, lx: int, ly: int|
                    0 <= u < n && in_window(lx, ly) ==> #[trigger] cell_of(output@, u, lx, ly) == if u < t && in_interior(
                        lx,
                        ly,
                    ) {
                        next_cell::<State, N, E>(evaluator, chunk_of(input@, u), spec_ext_index(lx, ly))
                    } else {
                        cell_of(before, u, lx, ly)
                    },
            decreases n - t,
        {
            proof {
                assert(t * EXTENDED_CHUNK_CELLS + EXTENDED_CHUNK_CELLS <= n * EXTENDED_CHUNK_CELLS) by (nonlinear_arith)
                    requires
                        t < n,
                ;
            }
            let start = t * EXTENDED_CHUNK_CELLS;
            let chunk = &input[start..start + EXTENDED_CHUNK_CELLS];
            let ghost mid = output@;
            evaluate_chunk::<State, N, E>(chunk, output, t, evaluator);
            proof {
                assert(chunk@ == chunk_of(input@, t as int));
                assert forall|u: int, lx: int, ly: int|
                    0 <= u < n && in_window(lx, ly) implies #[trigger] cell_of(output@, u, lx, ly) == if u < t + 1
                        && in_interior(lx, ly) {
                        next_cell::<State, N, E>(evaluator, chunk_of(input@, u), spec_ext_index(lx, ly))
                    } else {
                        cell_of(before, u, lx, ly)
                    } by {
                    lemma_ext_parts(lx, ly);
                    let p = u * EXTENDED_CHUNK_CELLS + spec_ext_index(lx, ly);
                    assert(0 <= p < len) by (nonlinear_arith)
                        requires
                            0 <= u < n,
                            0 <= spec_ext_index(lx, ly) < EXTENDED_CHUNK_CELLS,
                            p == u * EXTENDED_CHUNK_CELLS + spec_ext_index(lx, ly),
                            len == n * EXTENDED_CHUNK_CELLS,
                    ;
                    if u < t {
                        assert(p < t * EXTENDED_CHUNK_CELLS) by (nonlinear_arith)
                            requires
                                u < t,
                                0 <= spec_ext_index(lx, ly) < EXTENDED_CHUNK_CELLS,
                                p == u * EXTENDED_CHUNK_CELLS + spec_ext_index(lx, ly),
                        ;
                    } else if u > t {
                        assert(p >= (t + 1) * EXTENDED_CHUNK_CELLS) by (nonlinear_arith)
                            requires
                                u > t,
                                0 <= spec_ext_index(lx, ly),
                                p == u * EXTENDED_CHUNK_CELLS + spec_ext_index(lx, ly),
                        ;
                    }
                    assert(cell_of(mid, u, lx, ly) == mid[p]);
                }
            }
            t = t + 1;
        }
    }

    fn rebuild_all_halos(&mut self, storage: &mut ChunkStorage<State>) {
        rebuild_all_halos_for_storage(storage);
    }
}

/// Recomputes every chunk border of `storage` from the interiors of the
/// chunks.
pub(crate) fn rebuild_all_halos_for_storage<State: CellState>(storage: &mut ChunkStorage<State>)
    requires
        old(storage).wf(),
        old(storage).cells_addressable(),
    ensures
        final(storage).wf(),
        forall|p: int, q: int| #[trigger] final(storage).state_at(p, q) == old(storage).state_at(p, q),
        final(storage).halos_consistent(),
        final(storage).neighbors_allocated(),
        final(storage).spec_next_coords() == old(storage).spec_next_coords(),
        final(storage).spec_next_cells() == old(storage).spec_next_cells(),
        final(storage).spec_cycles() == old(storage).spec_cycles(),
        final(storage).allocated_chunks() == old(storage).allocated_chunks().union(
            Set::new(|c: (isize, isize)| old(storage).border_shows_non_default(c)),
        ),
{
    storage.rebuild_all_halos();
}

} // verus!
