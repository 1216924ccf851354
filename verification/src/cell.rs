//! The vocabulary shared by every automaton: cell states, neighborhoods,
//! rules and the configuration that ties them together.
use vstd::prelude::*;

use crate::storage::FillNeighborhood;

verus! {

/// The states of a cellular automaton.
///
/// States are numbered densely by `code`, from 0 up to `count() - 1`; code 0
/// is the default (empty) state that fills the unbounded grid.
pub trait CellState: Sized + Copy {
    spec fn spec_count() -> nat;

    spec fn spec_code(self) -> u8;

    spec fn spec_from_code(code: u8) -> Option<Self>;

    spec fn spec_default() -> Self;

    /// The numbering is a bijection between the states and `0..count()`.
    proof fn lemma_code_round_trip(s: Self)
        ensures
            s.spec_code() < Self::spec_count(),
            Self::spec_from_code(s.spec_code()) == Some(s),
    ;

    proof fn lemma_from_code(code: u8)
        ensures
            Self::spec_from_code(code) is Some <==> (code as nat) < Self::spec_count(),
            Self::spec_from_code(code) matches Some(s) ==> s.spec_code() == code,
    ;

    proof fn lemma_count_and_default()
        ensures
            1 <= Self::spec_count() <= 256,
            Self::spec_default().spec_code() == 0,
    ;

    /// The number of states.
    fn count() -> (n: usize)
        ensures
            n == Self::spec_count(),
    ;

    /// The number of this state.
    fn code(self) -> (c: u8)
        ensures
            c == self.spec_code(),
    ;

    /// The state numbered `code`, if there is one.
    fn from_code(code: u8) -> (r: Option<Self>)
        ensures
            r == Self::spec_from_code(code),
    ;

    /// The default (empty) state.
    fn default_state() -> (s: Self)
        ensures
            s == Self::spec_default(),
    ;
}

/// Two states are the same exactly when their codes are.
pub proof fn lemma_code_injective<S: CellState>(a: S, b: S)
    ensures
        (a.spec_code() == b.spec_code()) == (a == b),
{
    S::lemma_code_round_trip(a);
    S::lemma_code_round_trip(b);
}

/// Whether two states are the same.
pub fn same_state<S: CellState>(a: S, b: S) -> (r: bool)
    ensures
        r == (a == b),
{
    proof {
        lemma_code_injective(a, b);
    }
    a.code() == b.code()
}

/// Whether a state is the default state.
pub fn is_default_state<S: CellState>(s: S) -> (r: bool)
    ensures
        r == (s == S::spec_default()),
{
    same_state(s, S::default_state())
}

/// The glyph of a live cell: a dark disc filling its square.
pub const LIVE_GLYPH_SVG: &'static str = "<svg xmlns=\"http://www.w3.org/2000/svg\" viewBox=\"0 0 16 16\"><circle cx=\"8\" cy=\"8\" r=\"7\" fill=\"#202124\"/></svg>";

/// How a state is drawn: as an SVG glyph when cells are large, as a single
/// pixel when they are small; `None` for states left blank.
pub trait CellStateVisuals: Sized {
    spec fn spec_glyph_svg(self) -> Option<&'static str>;

    spec fn spec_pixel_color(self) -> Option<[u8; 3]>;

    fn glyph_svg(self) -> (r: Option<&'static str>)
        ensures
            r == self.spec_glyph_svg(),
    ;

    fn pixel_color(self) -> (r: Option<[u8; 3]>)
        ensures
            r == self.spec_pixel_color(),
    ;
}

/// A cell of the unbounded grid together with its state.
#[derive(Debug, Clone, Copy, PartialEq, Eq)]
pub struct Cell<State: CellState> {
    pub x: isize,
    pub y: isize,
    pub state: State,
}

/// The state at (`x`, `y`) once `cells[0..n]` are written in order over a
/// grid whose state there was `base`: that of the last of them at
/// (`x`, `y`), or `base` where none is.
pub open spec fn painted<State: CellState>(cells: Seq<Cell<State>>, n: int, x: int, y: int, base: State) -> State
    decreases n,
{
    if n <= 0 {
        base
    } else if cells[n - 1].x == x && cells[n - 1].y == y {
        cells[n - 1].state
    } else {
        painted(cells, n - 1, x, y, base)
    }
}

/// The states around a cell, in a fixed order.
pub trait CellNeighborhood<State: CellState>: Sized {
    spec fn spec_num_cells() -> nat;

    spec fn spec_cells(&self) -> Seq<State>;

    /// Where neighbor `k` lies, as a column and a row offset from the cell.
    spec fn spec_offset(k: int) -> (int, int);

    proof fn lemma_len(n: &Self)
        ensures
            n.spec_cells().len() == Self::spec_num_cells(),
    ;

    /// Neighbors are adjacent to the cell, diagonals included.
    proof fn lemma_offsets()
        ensures
            forall|k: int|
                0 <= k < Self::spec_num_cells() ==> -1 <= #[trigger] Self::spec_offset(k).0 <= 1 && -1
                    <= Self::spec_offset(k).1 <= 1,
    ;

    /// The number of neighbors.
    fn num_cells() -> (k: u8)
        ensures
            k == Self::spec_num_cells(),
    ;

    /// A neighborhood of default states only.
    fn new_default() -> (n: Self)
        ensures
            n.spec_cells() == Seq::new(Self::spec_num_cells(), |i: int| State::spec_default()),
    ;

    fn neighbors(&self) -> (r: &[State])
        ensures
            r@ == self.spec_cells(),
    ;

    fn neighbors_mut(&mut self) -> (r: &mut [State])
        ensures
            r@ == old(self).spec_cells(),
            final(self).spec_cells() == final(r)@,
    ;
}

/// The sequence of `k` default states.
pub open spec fn default_cells<State: CellState>(k: nat) -> Seq<State> {
    Seq::new(k, |i: int| State::spec_default())
}

/// The four orthogonal neighbors, in the order up, left, right, down.
#[derive(Debug, Clone, Copy)]
pub struct VonNeumannNeighborhood<State: CellState> {
    pub neighbors: [State; 4],
}

impl<State: CellState> VonNeumannNeighborhood<State> {
    pub fn up(&self) -> (s: State)
        ensures
            s == self.neighbors@[0],
    {
        self.neighbors[0]
    }

    pub fn down(&self) -> (s: State)
        ensures
            s == self.neighbors@[3],
    {
        self.neighbors[3]
    }

    pub fn left(&self) -> (s: State)
        ensures
            s == self.neighbors@[1],
    {
        self.neighbors[1]
    }

    pub fn right(&self) -> (s: State)
        ensures
            s == self.neighbors@[2],
    {
        self.neighbors[2]
    }
}

impl<State: CellState> CellNeighborhood<State> for VonNeumannNeighborhood<State> {
    open spec fn spec_num_cells() -> nat {
        4
    }

    open spec fn spec_cells(&self) -> Seq<State> {
        self.neighbors@
    }

    open spec fn spec_offset(k: int) -> (int, int) {
        if k == 0 {
            (0, -1)
        } else if k == 1 {
            (-1, 0)
        } else if k == 2 {
            (1, 0)
        } else {
            (0, 1)
        }
    }

    proof fn lemma_len(n: &Self) {
    }

    proof fn lemma_offsets() {
    }

    fn num_cells() -> (k: u8) {
        4
    }

    fn new_default() -> (n: Self) {
        let d = State::default_state();
        let n = VonNeumannNeighborhood { neighbors: [d, d, d, d] };
        assert(n.spec_cells() =~= Seq::new(4, |i: int| State::spec_default()));
        n
    }

    fn neighbors(&self) -> (r: &[State]) {
        self.neighbors.as_slice()
    }

    fn neighbors_mut(&mut self) -> (r: &mut [State]) {
        &mut self.neighbors
    }
}

/// The eight surrounding neighbors, row by row: the three above, left,
/// right, and the three below.
#[derive(Debug, Clone, Copy)]
pub struct MooreNeighborhood<State: CellState> {
    pub neighbors: [State; 8],
}

impl<State: CellState> CellNeighborhood<State> for MooreNeighborhood<State> {
    open spec fn spec_num_cells() -> nat {
        8
    }

    open spec fn spec_cells(&self) -> Seq<State> {
        self.neighbors@
    }

    open spec fn spec_offset(k: int) -> (int, int) {
        if k < 3 {
            (k - 1, -1)
        } else if k == 3 {
            (-1, 0)
        } else if k == 4 {
            (1, 0)
        } else {
            (k - 6, 1)
        }
    }

    proof fn lemma_len(n: &Self) {
    }

    proof fn lemma_offsets() {
    }

    fn num_cells() -> (k: u8) {
        8
    }

    fn new_default() -> (n: Self) {
        let d = State::default_state();
        let n = MooreNeighborhood { neighbors: [d, d, d, d, d, d, d, d] };
        assert(n.spec_cells() =~= Seq::new(8, |i: int| State::spec_default()));
        n
    }

    fn neighbors(&self) -> (r: &[State]) {
        self.neighbors.as_slice()
    }

    fn neighbors_mut(&mut self) -> (r: &mut [State]) {
        &mut self.neighbors
    }
}

/// The transition rule of an automaton: the next state of a cell from its
/// state and the states of its neighbors.
pub trait CellRuleEvaluator<State: CellState, Neighborhood: CellNeighborhood<State>> {
    spec fn spec_evaluate(&self, state: State, neighbors: Seq<State>) -> State;

    fn evaluate(&self, state: State, neighbors: &Neighborhood) -> (r: State)
        ensures
            r == self.spec_evaluate(state, neighbors.spec_cells()),
    ;
}

/// An automaton: its states, its neighborhood and its rule.
pub trait CellularAutomataConfig {
    type State: CellState;

    type Neighborhood: FillNeighborhood<Self::State>;

    type Evaluator: CellRuleEvaluator<Self::State, Self::Neighborhood>;

    /// The rule, as a function of a state and its neighbors.
    spec fn spec_rule(state: Self::State, neighbors: Seq<Self::State>) -> Self::State;

    /// A cell in the default state among default neighbors stays default.
    proof fn lemma_default_is_quiescent()
        ensures
            Self::spec_rule(
                Self::State::spec_default(),
                default_cells::<Self::State>(Self::Neighborhood::spec_num_cells()),
            ) == Self::State::spec_default(),
    ;

    /// The automaton's name.
    spec fn spec_name() -> Seq<char>;

    /// The automaton's name.
    fn name() -> (r: &'static str)
        ensures
            r@ == Self::spec_name(),
    ;

    /// An evaluator of the rule.
    fn new_evaluator() -> (e: Self::Evaluator)
        ensures
            forall|s: Self::State, n: Seq<Self::State>| #[trigger]
                e.spec_evaluate(s, n) == Self::spec_rule(s, n),
    ;
}

} // verus!
