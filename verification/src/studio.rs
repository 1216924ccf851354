//! The studio's model of the pattern being edited and run: the automaton of
//! its ruleset, the pattern it was loaded from, the speed of the simulation
//! and the breakpoints that pause it.
use vstd::prelude::*;

use std::collections::BTreeSet;

use crate::cell::{default_cells, painted, Cell, CellState, CellularAutomataConfig, MooreNeighborhood, VonNeumannNeighborhood};
use crate::evaluator::CellGridEvaluator;
use crate::rule_lut::RuleLUT;
use crate::game_of_life::{lemma_game_of_life_table_size, GameOfLife, GameOfLifeConfig, GameOfLifeState};
use crate::golly::GollyJvN29Pattern;
use crate::text::{string_from_str, text_equals};
use crate::vns::{
    lemma_listed_cells_repaint, listed_in_visit_order, lists_grid, ordered_points, point_set, points_increasing, Coordinate, LoadedVnsPattern, PatternCells, Stage,
    game_of_life_cells_from_automaton, jvn29_cells_from_automaton, apply_game_of_life_cells, apply_jvn29_cells,
};
use crate::von_neumann::{lemma_von_neumann_table_size, VonNeumann, VonNeumannConfig, VonNeumannState};

verus! {

/// The automaton of the pattern, for its ruleset.
pub enum ActiveAutomaton {
    JvN29(VonNeumann),
    GameOfLife(GameOfLife),
}

/// A pattern loaded for the studio: its automaton, the cells it was loaded
/// with (to go back to), its breakpoints and its stages.
pub struct LoadedPatternForApp {
    pub automaton: ActiveAutomaton,
    pub baseline_cells: PatternCells,
    pub breakpoints: BTreeSet<(isize, isize)>,
    pub stages: Vec<Stage>,
}

/// A breakpoint whose cell changed its state in a step: where, the texts
/// of the state before and after, and the generation reached.
#[derive(Clone, Debug, PartialEq, Eq)]
pub struct BreakpointHit {
    pub x: isize,
    pub y: isize,
    pub old_state: String,
    pub new_state: String,
    pub generation: u64,
}

/// The automaton holds the cells `cells` written in order over an empty
/// grid.
pub open spec fn holds_cells<Config: CellularAutomataConfig>(
    a: crate::automaton::CellularAutomaton<Config>,
    cells: Seq<Cell<Config::State>>,
) -> bool {
    &&& a.wf()
    &&& forall|x: int, y: int| #[trigger]
        a.state_at(x, y) == painted(cells, cells.len() as int, x, y, Config::State::spec_default())
}

/// The automaton of the ruleset of `cells`, holding them.
pub open spec fn automaton_of(r: ActiveAutomaton, cells: PatternCells) -> bool {
    match (r, cells) {
        (ActiveAutomaton::JvN29(a), PatternCells::JvN29(c)) => holds_cells(a, c@),
        (ActiveAutomaton::GameOfLife(a), PatternCells::GameOfLife(c)) => holds_cells(a, c@),
        _ => false,
    }
}

impl ActiveAutomaton {
    /// The automaton is well formed.
    pub open spec fn wf(&self) -> bool {
        match self {
            ActiveAutomaton::JvN29(a) => a.wf(),
            ActiveAutomaton::GameOfLife(a) => a.wf(),
        }
    }

    /// Every cell in a state other than the default lies strictly inside
    /// the range of `isize` coordinates.
    pub open spec fn cells_inside(&self) -> bool {
        match self {
            ActiveAutomaton::JvN29(a) => a.cells_inside(),
            ActiveAutomaton::GameOfLife(a) => a.cells_inside(),
        }
    }

    /// The text that shows the state of the cell at (`x`, `y`).
    pub open spec fn display_at(&self, x: int, y: int) -> Seq<char> {
        match self {
            ActiveAutomaton::JvN29(a) => a.state_at(x, y).spec_display_str()@,
            ActiveAutomaton::GameOfLife(a) => a.state_at(x, y).spec_display_str()@,
        }
    }

    /// A JvN29 automaton with all cells in the ground state.
    pub fn new_jvn29() -> (r: Self)
        ensures
            r matches ActiveAutomaton::JvN29(a) && holds_cells(a, Seq::empty()),
    {
        proof {
            lemma_von_neumann_table_size();
        }
        ActiveAutomaton::JvN29(VonNeumann::new())
    }

    /// The automaton of the ruleset of `cells`, holding them.
    pub fn from_pattern_cells(cells: PatternCells) -> (r: Self)
        ensures
            automaton_of(r, cells),
    {
        proof {
            lemma_von_neumann_table_size();
            lemma_game_of_life_table_size();
        }
        match cells {
            PatternCells::JvN29(c) => {
                let mut automaton = VonNeumann::new();
                apply_jvn29_cells(c.as_slice(), &mut automaton);
                ActiveAutomaton::JvN29(automaton)
            },
            PatternCells::GameOfLife(c) => {
                let mut automaton = GameOfLife::new();
                apply_game_of_life_cells(c.as_slice(), &mut automaton);
                ActiveAutomaton::GameOfLife(automaton)
            },
        }
    }

    /// The automaton of the cells of a loaded document.
    pub fn from_loaded_vns(pattern: LoadedVnsPattern) -> (r: Self)
        ensures
            automaton_of(r, pattern.cells),
    {
        Self::from_pattern_cells(pattern.cells)
    }

    /// The name of the ruleset.
    pub fn name(&self) -> (r: &'static str)
        ensures
            r@ == match self {
                ActiveAutomaton::JvN29(_) => seq!['J', 'v', 'N', '2', '9'],
                ActiveAutomaton::GameOfLife(_) => seq!['G', 'a', 'm', 'e', ' ', 'o', 'f', ' ', 'L', 'i', 'f', 'e'],
            },
    {
        match self {
            ActiveAutomaton::JvN29(_) => {
                proof {
                    reveal_strlit("JvN29");
                }
                "JvN29"
            },
            ActiveAutomaton::GameOfLife(_) => {
                proof {
                    reveal_strlit("Game of Life");
                }
                "Game of Life"
            },
        }
    }

    /// The number of allocated chunks.
    pub fn chunk_count(&self) -> (n: usize)
        requires
            self.wf(),
        ensures
            n == match self {
                ActiveAutomaton::JvN29(a) => a.spec_chunk_count(),
                ActiveAutomaton::GameOfLife(a) => a.spec_chunk_count(),
            },
    {
        match self {
            ActiveAutomaton::JvN29(a) => a.chunk_count(),
            ActiveAutomaton::GameOfLife(a) => a.chunk_count(),
        }
    }

    /// Whether every allocated chunk lies strictly inside the chunks that
    /// `isize` coordinates reach, so that the next generation can be
    /// computed.
    pub fn chunks_inside(&self) -> (r: bool)
        requires
            self.wf(),
        ensures
            r == match self {
                ActiveAutomaton::JvN29(a) => a.spec_chunks_inside(),
                ActiveAutomaton::GameOfLife(a) => a.spec_chunks_inside(),
            },
            r ==> self.cells_inside(),
    {
        match self {
            ActiveAutomaton::JvN29(a) => a.chunks_inside(),
            ActiveAutomaton::GameOfLife(a) => a.chunks_inside(),
        }
    }

    /// Computes the next generation: every cell takes the state that the
    /// rule of the ruleset gives for its state and its neighbors.
    pub fn evaluate_next(&mut self)
        requires
            old(self).wf(),
            old(self).cells_inside(),
        ensures
            final(self).wf(),
            match (*old(self), *final(self)) {
                (ActiveAutomaton::JvN29(a), ActiveAutomaton::JvN29(b)) => forall|x: int, y: int| #[trigger]
                    b.state_at(x, y) == VonNeumannConfig::spec_rule(a.state_at(x, y), a.neighbors_at(x, y)),
                (ActiveAutomaton::GameOfLife(a), ActiveAutomaton::GameOfLife(b)) => forall|x: int, y: int| #[trigger]
                    b.state_at(x, y) == GameOfLifeConfig::spec_rule(a.state_at(x, y), a.neighbors_at(x, y)),
                _ => false,
            },
    {
        match self {
            ActiveAutomaton::JvN29(a) => a.evaluate_next(),
            ActiveAutomaton::GameOfLife(a) => a.evaluate_next(),
        }
    }

    /// Computes the next generation as `evaluate_next` does, with the chunks
    /// computed and their borders rebuilt by `grid_evaluator`.
    pub fn evaluate_next_with<G>(&mut self, grid_evaluator: &mut G)
        where
            G: CellGridEvaluator<
                VonNeumannState,
                VonNeumannNeighborhood<VonNeumannState>,
                RuleLUT<VonNeumannState, VonNeumannNeighborhood<VonNeumannState>>,
            > + CellGridEvaluator<
                GameOfLifeState,
                MooreNeighborhood<GameOfLifeState>,
                RuleLUT<GameOfLifeState, MooreNeighborhood<GameOfLifeState>>,
            >,
        requires
            old(self).wf(),
            old(self).cells_inside(),
        ensures
            final(self).wf(),
            match (*old(self), *final(self)) {
                (ActiveAutomaton::JvN29(a), ActiveAutomaton::JvN29(b)) => forall|x: int, y: int| #[trigger]
                    b.state_at(x, y) == VonNeumannConfig::spec_rule(a.state_at(x, y), a.neighbors_at(x, y)),
                (ActiveAutomaton::GameOfLife(a), ActiveAutomaton::GameOfLife(b)) => forall|x: int, y: int| #[trigger]
                    b.state_at(x, y) == GameOfLifeConfig::spec_rule(a.state_at(x, y), a.neighbors_at(x, y)),
                _ => false,
            },
    {
        match self {
            ActiveAutomaton::JvN29(a) => a.evaluate_next_with(grid_evaluator),
            ActiveAutomaton::GameOfLife(a) => a.evaluate_next_with(grid_evaluator),
        }
    }

    /// The text that shows the state of the cell at (`x`, `y`).
    pub fn get_state_display(&self, x: isize, y: isize) -> (r: String)
        requires
            self.wf(),
        ensures
            r@ == self.display_at(x as int, y as int),
    {
        match self {
            ActiveAutomaton::JvN29(a) => string_from_str(a.get_state(x, y).display_str()),
            ActiveAutomaton::GameOfLife(a) => string_from_str(a.get_state(x, y).display_str()),
        }
    }

    /// The cells of the automaton in a state other than the default, in the
    /// order in which it visits them. The automaton is left as it is.
    pub fn to_pattern_cells(&mut self) -> (r: PatternCells)
        requires
            old(self).wf(),
        ensures
            *final(self) == *old(self),
            match (*old(self), r) {
                (ActiveAutomaton::JvN29(a), PatternCells::JvN29(c)) => lists_grid(c@, |x: int, y: int| a.state_at(x, y))
                    && listed_in_visit_order(c@, a),
                (ActiveAutomaton::GameOfLife(a), PatternCells::GameOfLife(c)) => lists_grid(
                    c@,
                    |x: int, y: int| a.state_at(x, y),
                ) && listed_in_visit_order(c@, a),
                _ => false,
            },
    {
        match self {
            ActiveAutomaton::JvN29(a) => PatternCells::JvN29(jvn29_cells_from_automaton(a)),
            ActiveAutomaton::GameOfLife(a) => PatternCells::GameOfLife(game_of_life_cells_from_automaton(a)),
        }
    }

    /// The breakpoints in increasing order, each with the text of the state
    /// of its cell.
    pub fn breakpoint_states(&self, breakpoints: &BTreeSet<(isize, isize)>) -> (r: Vec<((isize, isize), String)>)
        requires
            self.wf(),
        ensures
            point_set(Seq::new(r@.len(), |k: int| Coordinate { x: r@[k].0.0, y: r@[k].0.1 })) == breakpoints@,
            points_increasing(Seq::new(r@.len(), |k: int| Coordinate { x: r@[k].0.0, y: r@[k].0.1 })),
            forall|k: int|
                0 <= k < r@.len() ==> (#[trigger] r@[k]).1@ == self.display_at(r@[k].0.0 as int, r@[k].0.1 as int),
    {
        let points = ordered_points(breakpoints);
        let mut r: Vec<((isize, isize), String)> = Vec::new();
        let mut i: usize = 0;
        while i < points.len()
            invariant
                self.wf(),
                i <= points@.len(),
                r@.len() == i,
                forall|k: int|
                    0 <= k < i ==> (#[trigger] r@[k]).0 == (points@[k].x, points@[k].y) && r@[k].1@ == self.display_at(
                        points@[k].x as int,
                        points@[k].y as int,
                    ),
            decreases points@.len() - i,
        {
            let p = points[i];
            let shown = self.get_state_display(p.x, p.y);
            r.push(((p.x, p.y), shown));
            i = i + 1;
        }
        assert(Seq::new(r@.len(), |k: int| Coordinate { x: r@[k].0.0, y: r@[k].0.1 }) =~= points@);
        r
    }

    /// The first breakpoint of `states_before` whose cell no longer shows
    /// the state it showed, with the generation reached.
    pub fn first_changed_breakpoint(&self, states_before: &[((isize, isize), String)], generation: u64) -> (r: Option<
        BreakpointHit,
    >)
        requires
            self.wf(),
        ensures
            match r {
                None => forall|k: int|
                    0 <= k < states_before@.len() ==> (#[trigger] states_before@[k]).1@ == self.display_at(
                        states_before@[k].0.0 as int,
                        states_before@[k].0.1 as int,
                    ),
                Some(hit) => exists|k: int|
                    0 <= k < states_before@.len() && (#[trigger] states_before@[k]).0 == (hit.x, hit.y)
                        && hit.old_state@ == states_before@[k].1@ && hit.new_state@ == self.display_at(
                        hit.x as int,
                        hit.y as int,
                    ) && hit.old_state@ != hit.new_state@ && hit.generation == generation && forall|j: int|
                        0 <= j < k ==> (#[trigger] states_before@[j]).1@ == self.display_at(
                            states_before@[j].0.0 as int,
                            states_before@[j].0.1 as int,
                        ),
            },
    {
        let mut i: usize = 0;
        while i < states_before.len()
            invariant
                self.wf(),
                i <= states_before@.len(),
                forall|j: int|
                    0 <= j < i ==> (#[trigger] states_before@[j]).1@ == self.display_at(
                        states_before@[j].0.0 as int,
                        states_before@[j].0.1 as int,
                    ),
            decreases states_before@.len() - i,
        {
            let (position, old_state) = &states_before[i];
            let new_state = self.get_state_display(position.0, position.1);
            if !text_equals(old_state.as_str(), new_state.as_str()) {
                let old_text = string_from_str(old_state.as_str());
                return Some(
                    BreakpointHit { x: position.0, y: position.1, old_state: old_text, new_state, generation },
                );
            }
            i = i + 1;
        }
        None
    }
}

/// The cells that `to_pattern_cells` takes from an automaton, made into an
/// automaton again by `from_pattern_cells` (as resetting to a saved pattern
/// does), give an automaton of the same ruleset whose every cell with
/// `isize` coordinates is in the state it had.
pub proof fn lemma_taken_cells_rebuild_automaton(a: ActiveAutomaton, cells: PatternCells, b: ActiveAutomaton)
    requires
        a.wf(),
        match (a, cells) {
            (ActiveAutomaton::JvN29(x), PatternCells::JvN29(c)) => lists_grid(c@, |p: int, q: int| x.state_at(p, q)),
            (ActiveAutomaton::GameOfLife(x), PatternCells::GameOfLife(c)) => lists_grid(
                c@,
                |p: int, q: int| x.state_at(p, q),
            ),
            _ => false,
        },
        automaton_of(b, cells),
    ensures
        b.wf(),
        match (a, b) {
            (ActiveAutomaton::JvN29(x), ActiveAutomaton::JvN29(y)) => forall|p: int, q: int|
                isize::MIN <= p <= isize::MAX && isize::MIN <= q <= isize::MAX ==> #[trigger] y.state_at(p, q)
                    == x.state_at(p, q),
            (ActiveAutomaton::GameOfLife(x), ActiveAutomaton::GameOfLife(y)) => forall|p: int, q: int|
                isize::MIN <= p <= isize::MAX && isize::MIN <= q <= isize::MAX ==> #[trigger] y.state_at(p, q)
                    == x.state_at(p, q),
            _ => false,
        },
        forall|p: int, q: int|
            isize::MIN <= p <= isize::MAX && isize::MIN <= q <= isize::MAX ==> #[trigger] b.display_at(p, q)
                == a.display_at(p, q),
{
    match (a, cells, b) {
        (ActiveAutomaton::JvN29(x), PatternCells::JvN29(c), ActiveAutomaton::JvN29(y)) => {
            lemma_listed_cells_repaint(c@, |p: int, q: int| x.state_at(p, q));
            assert forall|p: int, q: int|
                isize::MIN <= p <= isize::MAX && isize::MIN <= q <= isize::MAX implies #[trigger] y.state_at(p, q)
                == x.state_at(p, q) by {
                assert(y.state_at(p, q) == painted(c@, c@.len() as int, p, q, VonNeumannState::spec_default()));
            }
        },
        (ActiveAutomaton::GameOfLife(x), PatternCells::GameOfLife(c), ActiveAutomaton::GameOfLife(y)) => {
            lemma_listed_cells_repaint(c@, |p: int, q: int| x.state_at(p, q));
            assert forall|p: int, q: int|
                isize::MIN <= p <= isize::MAX && isize::MIN <= q <= isize::MAX implies #[trigger] y.state_at(p, q)
                == x.state_at(p, q) by {
                assert(y.state_at(p, q) == painted(c@, c@.len() as int, p, q, GameOfLifeState::spec_default()));
            }
        },
        _ => {},
    }
}

/// Whether a breakpoint's cell changed its state.
pub fn breakpoint_state_changed<S: CellState>(old_state: S, new_state: S) -> (r: bool)
    ensures
        r == (old_state != new_state),
{
    !crate::cell::same_state(old_state, new_state)
}

/// The speed of the simulation: a fixed number of generations a second, or
/// as many as a frame has time for.
#[derive(Clone, Copy, Debug, PartialEq, Eq, Structural)]
pub enum SimulationSpeed {
    Fixed(u32),
    Realtime,
}

impl SimulationSpeed {
    /// The name of the speed on its button.
    pub fn label(self) -> (r: &'static str)
        ensures
            r@ == match self {
                SimulationSpeed::Fixed(4) => "4x"@,
                SimulationSpeed::Fixed(16) => "16x"@,
                SimulationSpeed::Fixed(64) => "64x"@,
                SimulationSpeed::Fixed(_) => "Custom"@,
                SimulationSpeed::Realtime => "Realtime"@,
            },
    {
        match self {
            SimulationSpeed::Fixed(4) => "4x",
            SimulationSpeed::Fixed(16) => "16x",
            SimulationSpeed::Fixed(64) => "64x",
            SimulationSpeed::Fixed(_) => "Custom",
            SimulationSpeed::Realtime => "Realtime",
        }
    }

    /// Twice the fixed speed, at most the greatest `u32`; real time stays.
    pub open spec fn doubled(self) -> Self {
        match self {
            SimulationSpeed::Fixed(m) => SimulationSpeed::Fixed(
                if 2 * m > u32::MAX {
                    u32::MAX
                } else {
                    (2 * m) as u32
                },
            ),
            SimulationSpeed::Realtime => SimulationSpeed::Realtime,
        }
    }

    /// Half the fixed speed, rounded down but at least 1; real time stays.
    pub open spec fn halved(self) -> Self {
        match self {
            SimulationSpeed::Fixed(m) => SimulationSpeed::Fixed(
                if m / 2 < 1 {
                    1
                } else {
                    m / 2
                },
            ),
            SimulationSpeed::Realtime => SimulationSpeed::Realtime,
        }
    }

    /// Twice the fixed speed, at most the greatest `u32`; real time stays.
    pub fn double(self) -> (r: Self)
        ensures
            r == self.doubled(),
    {
        match self {
            SimulationSpeed::Fixed(multiplier) => SimulationSpeed::Fixed(
                match multiplier.checked_mul(2) {
                    Some(doubled) => doubled,
                    None => u32::MAX,
                },
            ),
            SimulationSpeed::Realtime => SimulationSpeed::Realtime,
        }
    }

    /// Half the fixed speed, rounded down but at least 1; real time stays.
    pub fn halve(self) -> (r: Self)
        ensures
            r == self.halved(),
    {
        match self {
            SimulationSpeed::Fixed(multiplier) => {
                let half = multiplier / 2;
                SimulationSpeed::Fixed(
                    if half < 1 {
                        1
                    } else {
                        half
                    },
                )
            },
            SimulationSpeed::Realtime => SimulationSpeed::Realtime,
        }
    }
}

/// Halving a doubled speed gives the speed back, for every fixed speed
/// whose double fits in a `u32`, and for real time; doubling a halved even
/// speed gives it back too.
pub proof fn lemma_halving_undoes_doubling(speed: SimulationSpeed)
    ensures
        (speed matches SimulationSpeed::Fixed(m) && 1 <= m <= u32::MAX / 2) || speed is Realtime ==> speed.doubled().halved()
            == speed,
        (speed matches SimulationSpeed::Fixed(m) && 2 <= m && m % 2 == 0) || speed is Realtime ==> speed.halved().doubled()
            == speed,
{
}

/// Whether a file's extension names the studio's own format (`vns`, in any
/// case).
pub fn is_vns_extension(extension: &str) -> (r: bool)
    ensures
        r == (crate::text::ascii_lowercase(extension@) == seq!['v', 'n', 's']),
{
    let chars = crate::text::chars_of(extension);
    let word: &[char] = &['v', 'n', 's'];
    assert(word@ == seq!['v', 'n', 's']);
    let r = crate::text::lower_range_equals(chars.as_slice(), 0, chars.len(), word);
    assert(chars@.subrange(0, chars@.len() as int) =~= chars@);
    r
}

/// The pattern of a loaded document, for the studio: the automaton of its
/// cells, the cells themselves to go back to, its breakpoints and stages.
pub fn pattern_for_app_from_vns(loaded: LoadedVnsPattern) -> (r: LoadedPatternForApp)
    ensures
        automaton_of(r.automaton, loaded.cells),
        r.baseline_cells@ == loaded.cells@,
        r.breakpoints@ == loaded.breakpoints@,
        r.stages == loaded.stages,
{
    let baseline_cells = loaded.cells.clone();
    let LoadedVnsPattern { cells, breakpoints, stages, overlays: _ } = loaded;
    let automaton = ActiveAutomaton::from_pattern_cells(cells);
    LoadedPatternForApp { automaton, baseline_cells, breakpoints, stages }
}

/// The pattern of a Golly file, for the studio: a JvN29 automaton holding
/// its cells, the cells themselves to go back to, and no breakpoints or
/// stages.
pub fn pattern_for_app_from_golly(pattern: GollyJvN29Pattern) -> (r: LoadedPatternForApp)
    ensures
        r.automaton matches ActiveAutomaton::JvN29(a) && holds_cells(a, pattern.cells@),
        r.baseline_cells@ == crate::vns::CellsView::JvN29(pattern.cells@),
        r.breakpoints@.len() == 0,
        r.stages@.len() == 0,
{
    proof {
        lemma_von_neumann_table_size();
    }
    let baseline_cells = PatternCells::JvN29(crate::vns::copy_cells(&pattern.cells));
    let mut automaton = VonNeumann::new();
    pattern.apply_to(&mut automaton);
    LoadedPatternForApp {
        automaton: ActiveAutomaton::JvN29(automaton),
        baseline_cells,
        breakpoints: BTreeSet::new(),
        stages: Vec::new(),
    }
}

} // verus!
