//! Conway's Game of Life.
use vstd::prelude::*;

use crate::automaton::CellularAutomaton;
use crate::rule_lut::{power, radix_from, spec_radix, spec_table_size};

use crate::cell::{
    default_cells, CellNeighborhood, CellRuleEvaluator, CellState, CellStateVisuals,
    CellularAutomataConfig, MooreNeighborhood, LIVE_GLYPH_SVG,
};

verus! {

/// The two states of the Game of Life.
#[derive(Debug, Default, Clone, Copy, PartialEq, Eq, Structural)]
pub enum GameOfLifeState {
    #[default]
    Dead,
    Live,
}

impl GameOfLifeState {
    pub open spec fn spec_display_str(self) -> &'static str {
        match self {
            GameOfLifeState::Dead => "_",
            GameOfLifeState::Live => "O",
        }
    }

    /// The one-character text that shows the state.
    pub fn display_str(self) -> (r: &'static str)
        ensures
            r == self.spec_display_str(),
    {
        match self {
            GameOfLifeState::Dead => "_",
            GameOfLifeState::Live => "O",
        }
    }
}

impl CellState for GameOfLifeState {
    open spec fn spec_count() -> nat {
        2
    }

    open spec fn spec_code(self) -> u8 {
        match self {
            GameOfLifeState::Dead => 0,
            GameOfLifeState::Live => 1,
        }
    }

    open spec fn spec_from_code(code: u8) -> Option<Self> {
        match code {
            0 => Some(GameOfLifeState::Dead),
            1 => Some(GameOfLifeState::Live),
            _ => None,
        }
    }

    open spec fn spec_default() -> Self {
        GameOfLifeState::Dead
    }

    proof fn lemma_code_round_trip(s: Self) {
    }

    proof fn lemma_from_code(code: u8) {
    }

    proof fn lemma_count_and_default() {
    }

    fn count() -> (n: usize) {
        2
    }

    fn code(self) -> (c: u8) {
        match self {
            GameOfLifeState::Dead => 0,
            GameOfLifeState::Live => 1,
        }
    }

    fn from_code(code: u8) -> (r: Option<Self>) {
        match code {
            0 => Some(GameOfLifeState::Dead),
            1 => Some(GameOfLifeState::Live),
            _ => None,
        }
    }

    fn default_state() -> (s: Self) {
        GameOfLifeState::Dead
    }
}

impl CellStateVisuals for GameOfLifeState {
    open spec fn spec_glyph_svg(self) -> Option<&'static str> {
        if self == GameOfLifeState::Dead {
            None
        } else {
            Some(LIVE_GLYPH_SVG)
        }
    }

    fn glyph_svg(self) -> (r: Option<&'static str>) {
        match self {
            GameOfLifeState::Dead => None,
            _ => Some(LIVE_GLYPH_SVG),
        }
    }

    open spec fn spec_pixel_color(self) -> Option<[u8; 3]> {
        match self {
            GameOfLifeState::Dead => None,
            GameOfLifeState::Live => Some([32, 33, 36]),
        }
    }

    fn pixel_color(self) -> (r: Option<[u8; 3]>) {
        match self {
            GameOfLifeState::Dead => None,
            GameOfLifeState::Live => Some([32, 33, 36]),
        }
    }
}

/// The number of live states in a sequence.
pub open spec fn spec_live_count(cells: Seq<GameOfLifeState>) -> nat
    decreases cells.len(),
{
    if cells.len() == 0 {
        0
    } else {
        spec_live_count(cells.drop_last()) + if cells.last() == GameOfLifeState::Live {
            1nat
        } else {
            0nat
        }
    }
}

/// A live cell survives with two or three live neighbors; a dead cell comes
/// alive with exactly three; every other cell is dead next.
pub open spec fn spec_life_rule(state: GameOfLifeState, neighbors: Seq<GameOfLifeState>) -> GameOfLifeState {
    let live = spec_live_count(neighbors);
    if state == GameOfLifeState::Live {
        if live == 2 || live == 3 {
            GameOfLifeState::Live
        } else {
            GameOfLifeState::Dead
        }
    } else if live == 3 {
        GameOfLifeState::Live
    } else {
        GameOfLifeState::Dead
    }
}

/// A sequence of dead cells has no live cell.
pub proof fn lemma_no_live_in_dead_cells(k: nat)
    ensures
        spec_live_count(default_cells::<GameOfLifeState>(k)) == 0,
    decreases k,
{
    if k > 0 {
        assert(default_cells::<GameOfLifeState>(k).drop_last() =~= default_cells::<
            GameOfLifeState,
        >((k - 1) as nat));
        lemma_no_live_in_dead_cells((k - 1) as nat);
    }
}

/// The live cells among `cells`.
pub open spec fn live_cells(cells: Seq<GameOfLifeState>) -> Seq<GameOfLifeState> {
    cells.filter(|s: GameOfLifeState| s == GameOfLifeState::Live)
}

/// Counting the live states one by one gives the number of live cells.
proof fn lemma_live_count_is_live_cells(cells: Seq<GameOfLifeState>)
    ensures
        spec_live_count(cells) == live_cells(cells).len(),
    decreases cells.len(),
{
    if cells.len() > 0 {
        lemma_live_count_is_live_cells(cells.drop_last());
        reveal(Seq::filter);
        let pred = |s: GameOfLifeState| s == GameOfLifeState::Live;
        assert(cells.filter(pred) == if pred(cells.last()) {
            cells.drop_last().filter(pred).push(cells.last())
        } else {
            cells.drop_last().filter(pred)
        });
    }
}

/// Conway's rule B3/S23: a cell is live in the next generation exactly when
/// three of its neighbors are live, or when it is live and two of its
/// neighbors are.
pub proof fn lemma_conway_rule(state: GameOfLifeState, neighbors: Seq<GameOfLifeState>)
    ensures
        (GameOfLifeConfig::spec_rule(state, neighbors) == GameOfLifeState::Live) == (live_cells(neighbors).len() == 3
            || (state == GameOfLifeState::Live && live_cells(neighbors).len() == 2)),
{
    lemma_live_count_is_live_cells(neighbors);
}

/// The eight neighbors of a cell are the eight cells around it, each taken
/// once: no neighbor is the cell itself, each lies at most one column and one
/// row away, and no two lie at the same place.
pub proof fn lemma_moore_neighbors_surround()
    ensures
        forall|k: int|
            0 <= k < 8 ==> #[trigger] MooreNeighborhood::<GameOfLifeState>::spec_offset(k) != (0int, 0int) && -1
                <= MooreNeighborhood::<GameOfLifeState>::spec_offset(k).0 <= 1 && -1
                <= MooreNeighborhood::<GameOfLifeState>::spec_offset(k).1 <= 1,
        forall|j: int, k: int|
            0 <= j < k < 8 ==> #[trigger] MooreNeighborhood::<GameOfLifeState>::spec_offset(j)
                != #[trigger] MooreNeighborhood::<GameOfLifeState>::spec_offset(k),
{
}

/// The rule of the Game of Life.
#[derive(Debug, Default, Clone, Copy)]
pub struct GameOfLifeEvaluator;

impl CellRuleEvaluator<GameOfLifeState, MooreNeighborhood<GameOfLifeState>> for GameOfLifeEvaluator {
    open spec fn spec_evaluate(&self, state: GameOfLifeState, neighbors: Seq<GameOfLifeState>) -> GameOfLifeState {
        spec_life_rule(state, neighbors)
    }

    fn evaluate(
        &self,
        state: GameOfLifeState,
        neighbors: &MooreNeighborhood<GameOfLifeState>,
    ) -> (r: GameOfLifeState) {
        let cells = neighbors.neighbors();
        let mut num_live_neighbors: usize = 0;
        let mut i: usize = 0;
        while i < cells.len()
            invariant
                i <= cells@.len(),
                cells@ == neighbors.spec_cells(),
                num_live_neighbors == spec_live_count(cells@.take(i as int)),
                num_live_neighbors <= i,
            decreases cells@.len() - i,
        {
            assert(cells@.take(i + 1).drop_last() =~= cells@.take(i as int));
            if cells[i] == GameOfLifeState::Live {
                num_live_neighbors = num_live_neighbors + 1;
            }
            i = i + 1;
        }
        assert(cells@.take(i as int) =~= cells@);
        if state == GameOfLifeState::Live {
            if num_live_neighbors == 2 || num_live_neighbors == 3 {
                GameOfLifeState::Live
            } else {
                GameOfLifeState::Dead
            }
        } else if num_live_neighbors == 3 {
            GameOfLifeState::Live
        } else {
            GameOfLifeState::Dead
        }
    }
}

/// The Game of Life: two states, the eight surrounding neighbors, and
/// Conway's rule.
pub struct GameOfLifeConfig;

impl CellularAutomataConfig for GameOfLifeConfig {
    type State = GameOfLifeState;

    type Neighborhood = MooreNeighborhood<GameOfLifeState>;

    type Evaluator = GameOfLifeEvaluator;

    open spec fn spec_rule(state: GameOfLifeState, neighbors: Seq<GameOfLifeState>) -> GameOfLifeState {
        spec_life_rule(state, neighbors)
    }

    proof fn lemma_default_is_quiescent() {
        lemma_no_live_in_dead_cells(8);
    }

    open spec fn spec_name() -> Seq<char> {
        "Game of Life"@
    }

    fn name() -> (r: &'static str) {
        proof {
            reveal_strlit("Game of Life");
        }
        "Game of Life"
    }

    fn new_evaluator() -> (e: GameOfLifeEvaluator) {
        GameOfLifeEvaluator
    }
}

/// The table of the rule fits the limit of the table builder.
pub proof fn lemma_game_of_life_table_size()
    ensures
        spec_table_size::<GameOfLifeState>(MooreNeighborhood::<GameOfLifeState>::spec_num_cells()) == 512,
{
    reveal_with_fuel(radix_from, 3);
    reveal_with_fuel(power, 10);
    assert(spec_radix::<GameOfLifeState>() == 2);
}

/// Conway's Game of Life on the unbounded grid.
pub type GameOfLife = CellularAutomaton<GameOfLifeConfig>;

} // verus!
