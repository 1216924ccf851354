//! The decisions of a running simulation: one step with its breakpoints
//! checked, a run of steps toward a stage, the stages in the order the
//! studio lists them and a new stage named, the breakpoints toggled on the
//! grid, and the title of the window.
use vstd::prelude::*;

use std::collections::BTreeSet;

use crate::automaton::CellularAutomaton;
use crate::cell::{CellNeighborhood, CellularAutomataConfig, MooreNeighborhood, VonNeumannNeighborhood};
use crate::evaluator::CellGridEvaluator;
use crate::game_of_life::{GameOfLifeConfig, GameOfLifeState};
use crate::rule_lut::RuleLUT;
use crate::studio::{ActiveAutomaton, BreakpointHit};
use crate::text::{
    ascii_lowercase, chars_of, decimal, push_decimal, push_str, string_from_range, to_ascii_lower, trim_range, trimmed,
};
use crate::vns::{point_set, points_increasing, Coordinate, Stage};
use crate::von_neumann::{VonNeumannConfig, VonNeumannState};

verus! {

/// `p` comes before `q` in the order of an ordered set of pairs: by `x`,
/// then by `y`.
pub open spec fn point_precedes(p: (isize, isize), q: (isize, isize)) -> bool {
    p.0 < q.0 || (p.0 == q.0 && p.1 < q.1)
}

/// `b` is the generation after `a`: every cell takes the state that the
/// rule of the ruleset gives for its state and its neighbors.
pub open spec fn steps_to(a: ActiveAutomaton, b: ActiveAutomaton) -> bool {
    match (a, b) {
        (ActiveAutomaton::JvN29(x), ActiveAutomaton::JvN29(y)) => forall|p: int, q: int| #[trigger]
            y.state_at(p, q) == VonNeumannConfig::spec_rule(x.state_at(p, q), x.neighbors_at(p, q)),
        (ActiveAutomaton::GameOfLife(x), ActiveAutomaton::GameOfLife(y)) => forall|p: int, q: int| #[trigger]
            y.state_at(p, q) == GameOfLifeConfig::spec_rule(x.state_at(p, q), x.neighbors_at(p, q)),
        _ => false,
    }
}

/// The automaton's chunks all lie strictly inside the chunks that `isize`
/// coordinates reach, so that a step can be computed.
pub open spec fn can_step(a: ActiveAutomaton) -> bool {
    match a {
        ActiveAutomaton::JvN29(x) => x.spec_chunks_inside(),
        ActiveAutomaton::GameOfLife(x) => x.spec_chunks_inside(),
    }
}

/// `hit` is what a step from `a` to `b`, reaching `generation`, reports of
/// `breakpoints`: the first breakpoint, in increasing order, whose cell
/// shows another state in `b` than in `a`, with both texts; none where no
/// breakpoint's cell changed.
pub open spec fn reports_change(
    hit: Option<BreakpointHit>,
    breakpoints: Set<(isize, isize)>,
    a: ActiveAutomaton,
    b: ActiveAutomaton,
    generation: u64,
) -> bool {
    match hit {
        None => forall|p: (isize, isize)| #[trigger]
            breakpoints.contains(p) ==> b.display_at(p.0 as int, p.1 as int) == a.display_at(p.0 as int, p.1 as int),
        Some(h) => {
            &&& breakpoints.contains((h.x, h.y))
            &&& h.old_state@ == a.display_at(h.x as int, h.y as int)
            &&& h.new_state@ == b.display_at(h.x as int, h.y as int)
            &&& h.old_state@ != h.new_state@
            &&& h.generation == generation
            &&& forall|p: (isize, isize)| #[trigger]
                breakpoints.contains(p) && point_precedes(p, (h.x, h.y)) ==> b.display_at(p.0 as int, p.1 as int)
                    == a.display_at(p.0 as int, p.1 as int)
        },
    }
}

/// The generation after `generation`, counting on from zero after the
/// greatest `u64`.
pub open spec fn next_generation(generation: u64) -> u64 {
    if generation == u64::MAX {
        0
    } else {
        (generation + 1) as u64
    }
}

/// What one step of the simulation did.
#[derive(Debug, PartialEq, Eq)]
pub enum StepOutcome {
    /// The pattern reached the edge of the coordinates; nothing was
    /// computed.
    AtEdge,
    /// The next generation was computed and numbered `generation`; `hit`
    /// is the breakpoint whose cell changed, where breakpoints were
    /// checked and one did.
    Stepped { generation: u64, hit: Option<BreakpointHit> },
}

/// Computes the generation after `generation` with `grid_evaluator`, and,
/// where `check_breakpoints` holds, reports the first breakpoint whose cell
/// changed its state. Where the pattern has reached the edge of the
/// coordinates, nothing is computed.
pub fn step_simulation<G>(
    automaton: &mut ActiveAutomaton,
    grid_evaluator: &mut G,
    breakpoints: &BTreeSet<(isize, isize)>,
    generation: u64,
    check_breakpoints: bool,
) -> (r: StepOutcome)
    where
        G: CellGridEvaluator<
            VonNeumannState,
            VonNeumannNeighborhood<VonNeumannState>,
            RuleLUT<VonNeumannState, VonNeumannNeighborhood<VonNeumannState>>,
        > + CellGridEvaluator<
            GameOfLifeState,
            MooreNeighborhood<GameOfLifeState>,
            RuleLUT<GameOfLifeState, MooreNeighborhood<GameOfLifeState>>,
        >,
    requires
        old(automaton).wf(),
    ensures
        final(automaton).wf(),
        (r is AtEdge) == !can_step(*old(automaton)),
        r is AtEdge ==> *final(automaton) == *old(automaton),
        r matches StepOutcome::Stepped { generation: g, hit } ==> {
            &&& g == next_generation(generation)
            &&& steps_to(*old(automaton), *final(automaton))
            &&& check_breakpoints ==> reports_change(hit, breakpoints@, *old(automaton), *final(automaton), g)
            &&& !check_breakpoints ==> hit is None
        },
{
    if !automaton.chunks_inside() {
        return StepOutcome::AtEdge;
    }
    let ghost before = *automaton;
    let states_before = if check_breakpoints {
        Some(automaton.breakpoint_states(breakpoints))
    } else {
        None
    };
    automaton.evaluate_next_with(grid_evaluator);
    let next = generation.wrapping_add(1);
    match states_before {
        None => StepOutcome::Stepped { generation: next, hit: None },
        Some(states) => {
            let hit = automaton.first_changed_breakpoint(states.as_slice(), next);
            proof {
                lemma_first_change_reported(states@, breakpoints@, before, *automaton, next, hit);
            }
            StepOutcome::Stepped { generation: next, hit }
        },
    }
}

/// What `breakpoint_states` and `first_changed_breakpoint` give, read over
/// the set of breakpoints.
proof fn lemma_first_change_reported(
    states: Seq<((isize, isize), String)>,
    breakpoints: Set<(isize, isize)>,
    a: ActiveAutomaton,
    b: ActiveAutomaton,
    generation: u64,
    hit: Option<BreakpointHit>,
)
    requires
        point_set(Seq::new(states.len(), |k: int| Coordinate { x: states[k].0.0, y: states[k].0.1 })) == breakpoints,
        points_increasing(Seq::new(states.len(), |k: int| Coordinate { x: states[k].0.0, y: states[k].0.1 })),
        forall|k: int| 0 <= k < states.len() ==> (#[trigger] states[k]).1@ == a.display_at(states[k].0.0 as int, states[k].0.1 as int),
        match hit {
            None => forall|k: int|
                0 <= k < states.len() ==> (#[trigger] states[k]).1@ == b.display_at(
                    states[k].0.0 as int,
                    states[k].0.1 as int,
                ),
            Some(h) => exists|k: int|
                0 <= k < states.len() && (#[trigger] states[k]).0 == (h.x, h.y) && h.old_state@ == states[k].1@
                    && h.new_state@ == b.display_at(h.x as int, h.y as int) && h.old_state@ != h.new_state@
                    && h.generation == generation && forall|j: int|
                    0 <= j < k ==> (#[trigger] states[j]).1@ == b.display_at(
                        states[j].0.0 as int,
                        states[j].0.1 as int,
                    ),
        },
    ensures
        reports_change(hit, breakpoints, a, b, generation),
{
    let coords = Seq::new(states.len(), |k: int| Coordinate { x: states[k].0.0, y: states[k].0.1 });
    match hit {
        None => {
            assert forall|p: (isize, isize)| #[trigger] breakpoints.contains(p) implies b.display_at(p.0 as int, p.1 as int)
                == a.display_at(p.0 as int, p.1 as int) by {
                assert(point_set(coords).contains(p));
                let i = choose|i: int| 0 <= i < coords.len() && coords[i].x == p.0 && coords[i].y == p.1;
                assert(states[i].0 == p);
            }
        },
        Some(h) => {
            let k = choose|k: int|
                0 <= k < states.len() && (#[trigger] states[k]).0 == (h.x, h.y) && h.old_state@ == states[k].1@
                    && h.new_state@ == b.display_at(h.x as int, h.y as int) && h.old_state@ != h.new_state@
                    && h.generation == generation && forall|j: int|
                    0 <= j < k ==> (#[trigger] states[j]).1@ == b.display_at(
                        states[j].0.0 as int,
                        states[j].0.1 as int,
                    );
            assert(coords[k].x == h.x && coords[k].y == h.y);
            assert(point_set(coords).contains((h.x, h.y)));
            assert forall|p: (isize, isize)| #[trigger]
                breakpoints.contains(p) && point_precedes(p, (h.x, h.y)) implies b.display_at(p.0 as int, p.1 as int)
                == a.display_at(p.0 as int, p.1 as int) by {
                assert(point_set(coords).contains(p));
                let i = choose|i: int| 0 <= i < coords.len() && coords[i].x == p.0 && coords[i].y == p.1;
                assert(states[i].0 == p);
                if i >= k {
                    if i > k {
                        assert(coords[k].x < coords[i].x || (coords[k].x == coords[i].x && coords[k].y < coords[i].y));
                    }
                    assert(false);
                }
            }
        },
    }
}

/// The grid of an automaton: the state of each cell.
pub open spec fn grid_of<Config: CellularAutomataConfig>(a: CellularAutomaton<Config>) -> spec_fn(int, int) -> Config::State {
    |x: int, y: int| a.state_at(x, y)
}

/// The grid one generation after `g`: every cell takes the state that the
/// rule gives for its state and the states of its neighbors.
pub open spec fn next_grid<Config: CellularAutomataConfig>(g: spec_fn(int, int) -> Config::State) -> spec_fn(
    int,
    int,
) -> Config::State {
    |x: int, y: int|
        Config::spec_rule(
            g(x, y),
            Seq::new(
                Config::Neighborhood::spec_num_cells(),
                |i: int| g(x + Config::Neighborhood::spec_offset(i).0, y + Config::Neighborhood::spec_offset(i).1),
            ),
        )
}

/// The grid `k` generations after `g`.
pub open spec fn generations<Config: CellularAutomataConfig>(g: spec_fn(int, int) -> Config::State, k: nat) -> spec_fn(
    int,
    int,
) -> Config::State
    decreases k,
{
    if k == 0 {
        g
    } else {
        next_grid::<Config>(generations::<Config>(g, (k - 1) as nat))
    }
}

/// `b` holds the grid `k` generations after the grid of `a`.
pub open spec fn after_generations(a: ActiveAutomaton, b: ActiveAutomaton, k: nat) -> bool {
    match (a, b) {
        (ActiveAutomaton::JvN29(x), ActiveAutomaton::JvN29(y)) => forall|p: int, q: int| #[trigger]
            y.state_at(p, q) == generations::<VonNeumannConfig>(grid_of(x), k)(p, q),
        (ActiveAutomaton::GameOfLife(x), ActiveAutomaton::GameOfLife(y)) => forall|p: int, q: int| #[trigger]
            y.state_at(p, q) == generations::<GameOfLifeConfig>(grid_of(x), k)(p, q),
        _ => false,
    }
}

/// The text that the cell at (`x`, `y`) shows `k` generations after `a`.
pub open spec fn shown_after(a: ActiveAutomaton, k: nat, x: int, y: int) -> Seq<char> {
    match a {
        ActiveAutomaton::JvN29(z) => generations::<VonNeumannConfig>(grid_of(z), k)(x, y).spec_display_str()@,
        ActiveAutomaton::GameOfLife(z) => generations::<GameOfLifeConfig>(grid_of(z), k)(x, y).spec_display_str()@,
    }
}

/// The cell at `p` shows the same text `k` and `k + 1` generations after
/// `a`.
pub open spec fn unchanged_at(a: ActiveAutomaton, k: nat, p: (isize, isize)) -> bool {
    shown_after(a, k + 1, p.0 as int, p.1 as int) == shown_after(a, k, p.0 as int, p.1 as int)
}

/// No breakpoint's cell changes what it shows from one generation to the
/// next during the first `k` generations after `a`.
pub open spec fn breakpoints_quiet(a: ActiveAutomaton, breakpoints: Set<(isize, isize)>, k: nat) -> bool {
    forall|j: nat, p: (isize, isize)| j < k && breakpoints.contains(p) ==> #[trigger] unchanged_at(a, j, p)
}

/// `h` reports the step from generation `j` after `a` to the next, reaching
/// `generation`: the first breakpoint, in increasing order, whose cell
/// changed what it shows, with both texts.
pub open spec fn reports_step(
    h: BreakpointHit,
    breakpoints: Set<(isize, isize)>,
    a: ActiveAutomaton,
    j: nat,
    generation: u64,
) -> bool {
    &&& breakpoints.contains((h.x, h.y))
    &&& h.old_state@ == shown_after(a, j, h.x as int, h.y as int)
    &&& h.new_state@ == shown_after(a, j + 1, h.x as int, h.y as int)
    &&& h.old_state@ != h.new_state@
    &&& h.generation == generation
    &&& forall|p: (isize, isize)|
        breakpoints.contains(p) && point_precedes(p, (h.x, h.y)) ==> #[trigger] unchanged_at(a, j, p)
}

/// `generation` counted on `n` times.
pub open spec fn advance(generation: u64, n: nat) -> u64
    decreases n,
{
    if n == 0 {
        generation
    } else {
        next_generation(advance(generation, (n - 1) as nat))
    }
}

/// Where a run of steps stopped.
#[derive(Debug, PartialEq, Eq)]
pub enum RunStop {
    /// All the steps allowed were taken before the target was reached.
    Running,
    /// The target generation is reached.
    Reached,
    /// The cell of a breakpoint changed in the last step.
    Breakpoint(BreakpointHit),
    /// The pattern reached the edge of the coordinates.
    AtEdge,
}

/// How far a run of steps went: the generation reached, the steps taken
/// and why it stopped.
#[derive(Debug, PartialEq, Eq)]
pub struct RunProgress {
    pub generation: u64,
    pub steps: u32,
    pub stop: RunStop,
}

/// One generation more of the cells of `b`, which holds `k` generations
/// after `a`.
proof fn lemma_one_more_generation<Config: CellularAutomataConfig>(
    a: CellularAutomaton<Config>,
    b: CellularAutomaton<Config>,
    c: CellularAutomaton<Config>,
    k: nat,
)
    requires
        forall|p: int, q: int| #[trigger] b.state_at(p, q) == generations::<Config>(grid_of(a), k)(p, q),
        forall|p: int, q: int| #[trigger] c.state_at(p, q) == Config::spec_rule(b.state_at(p, q), b.neighbors_at(p, q)),
    ensures
        forall|p: int, q: int| #[trigger] c.state_at(p, q) == generations::<Config>(grid_of(a), k + 1)(p, q),
{
    let prev = generations::<Config>(grid_of(a), k);
    assert(generations::<Config>(grid_of(a), k + 1) == next_grid::<Config>(prev));
    assert forall|p: int, q: int| #[trigger] c.state_at(p, q) == generations::<Config>(grid_of(a), k + 1)(p, q) by {
        assert(b.neighbors_at(p, q) =~= Seq::new(
            Config::Neighborhood::spec_num_cells(),
            |i: int| prev(p + Config::Neighborhood::spec_offset(i).0, q + Config::Neighborhood::spec_offset(i).1),
        ));
    }
}

/// A step after `k` generations gives `k + 1` generations; what the cells
/// show is what the grids give.
proof fn lemma_step_counts(a: ActiveAutomaton, b: ActiveAutomaton, c: ActiveAutomaton, k: nat)
    requires
        after_generations(a, b, k),
        steps_to(b, c),
    ensures
        after_generations(a, c, k + 1),
        forall|x: int, y: int| #[trigger] b.display_at(x, y) == shown_after(a, k, x, y),
        forall|x: int, y: int| #[trigger] c.display_at(x, y) == shown_after(a, k + 1, x, y),
{
    match (a, b, c) {
        (ActiveAutomaton::JvN29(x), ActiveAutomaton::JvN29(y), ActiveAutomaton::JvN29(z)) => {
            lemma_one_more_generation(x, y, z, k);
        },
        (ActiveAutomaton::GameOfLife(x), ActiveAutomaton::GameOfLife(y), ActiveAutomaton::GameOfLife(z)) => {
            lemma_one_more_generation(x, y, z, k);
        },
        _ => {},
    }
}

/// Takes steps, as `step_simulation` does, until the generation `target`
/// is reached (with no target, until the steps allowed are taken), at most
/// `max_steps` of them; stops early where a checked breakpoint's cell
/// changes or the pattern reaches the edge of the coordinates.
#[verifier::rlimit(30)]
pub fn run_steps<G>(
    automaton: &mut ActiveAutomaton,
    grid_evaluator: &mut G,
    breakpoints: &BTreeSet<(isize, isize)>,
    generation: u64,
    target: Option<u64>,
    max_steps: u32,
    check_breakpoints: bool,
) -> (r: RunProgress)
    where
        G: CellGridEvaluator<
            VonNeumannState,
            VonNeumannNeighborhood<VonNeumannState>,
            RuleLUT<VonNeumannState, VonNeumannNeighborhood<VonNeumannState>>,
        > + CellGridEvaluator<
            GameOfLifeState,
            MooreNeighborhood<GameOfLifeState>,
            RuleLUT<GameOfLifeState, MooreNeighborhood<GameOfLifeState>>,
        >,
    requires
        old(automaton).wf(),
    ensures
        final(automaton).wf(),
        r.steps <= max_steps,
        after_generations(*old(automaton), *final(automaton), r.steps as nat),
        r.generation == advance(generation, r.steps as nat),
        check_breakpoints ==> breakpoints_quiet(
            *old(automaton),
            breakpoints@,
            (if r.stop is Breakpoint {
                r.steps - 1
            } else {
                r.steps as int
            }) as nat,
        ),
        match r.stop {
            RunStop::Running => r.steps == max_steps && (target matches Some(t) ==> r.generation < t),
            RunStop::Reached => target matches Some(t) && r.generation == (if generation < t {
                t
            } else {
                generation
            }),
            RunStop::Breakpoint(h) => check_breakpoints && r.steps >= 1 && reports_step(
                h,
                breakpoints@,
                *old(automaton),
                (r.steps - 1) as nat,
                r.generation,
            ),
            RunStop::AtEdge => r.steps < max_steps && !can_step(*final(automaton)) && (target matches Some(t)
                ==> r.generation < t),
        },
{
    let ghost start = *automaton;
    let mut current = generation;
    let mut steps: u32 = 0;
    proof {
        match start {
            ActiveAutomaton::JvN29(x) => {
                assert(generations::<VonNeumannConfig>(grid_of(x), 0) == grid_of(x));
            },
            ActiveAutomaton::GameOfLife(x) => {
                assert(generations::<GameOfLifeConfig>(grid_of(x), 0) == grid_of(x));
            },
        }
    }
    loop
        invariant
            start == *old(automaton),
            automaton.wf(),
            steps <= max_steps,
            after_generations(start, *automaton, steps as nat),
            current == advance(generation, steps as nat),
            check_breakpoints ==> breakpoints_quiet(start, breakpoints@, steps as nat),
            target matches Some(t) ==> (generation < t ==> current <= t) && (generation >= t ==> steps == 0),
        decreases max_steps - steps,
    {
        let target_open = match target {
            Some(t) => current < t,
            None => true,
        };
        if !target_open {
            return RunProgress { generation: current, steps, stop: RunStop::Reached };
        }
        if steps >= max_steps {
            return RunProgress { generation: current, steps, stop: RunStop::Running };
        }
        let ghost before = *automaton;
        let outcome = step_simulation(automaton, grid_evaluator, breakpoints, current, check_breakpoints);
        match outcome {
            StepOutcome::AtEdge => {
                return RunProgress { generation: current, steps, stop: RunStop::AtEdge };
            },
            StepOutcome::Stepped { generation: next, hit } => {
                proof {
                    lemma_step_counts(start, before, *automaton, steps as nat);
                }
                let taken = steps + 1;
                match hit {
                    Some(h) => {
                        return RunProgress { generation: next, steps: taken, stop: RunStop::Breakpoint(h) };
                    },
                    None => {
                        proof {
                            if check_breakpoints {
                                assert forall|j: nat, p: (isize, isize)|
                                    j < taken && breakpoints@.contains(p) implies #[trigger] unchanged_at(start, j, p) by {
                                    if j == steps {
                                        assert(automaton.display_at(p.0 as int, p.1 as int) == before.display_at(
                                            p.0 as int,
                                            p.1 as int,
                                        ));
                                    }
                                }
                            }
                        }
                        steps = taken;
                        current = next;
                    },
                }
            },
        }
    }
}

/// `a` comes before `b` in the order of their characters, which is the
/// order of their UTF-8 bytes, as `String`s are ordered: at the first place
/// where they differ, or as a proper prefix.
pub open spec fn text_before(a: Seq<char>, b: Seq<char>) -> bool
    decreases a.len(),
{
    if a.len() == 0 {
        b.len() > 0
    } else if b.len() == 0 {
        false
    } else if a[0] != b[0] {
        a[0] < b[0]
    } else {
        text_before(a.drop_first(), b.drop_first())
    }
}

/// No text comes before itself, and of two texts at most one comes first.
proof fn lemma_text_before_strict(a: Seq<char>, b: Seq<char>)
    ensures
        !text_before(a, a),
        text_before(a, b) ==> !text_before(b, a),
    decreases a.len(),
{
    if a.len() > 0 {
        lemma_text_before_strict(a.drop_first(), a.drop_first());
        if b.len() > 0 {
            lemma_text_before_strict(a.drop_first(), b.drop_first());
        }
    }
}

/// The order of texts is transitive.
proof fn lemma_text_before_transitive(a: Seq<char>, b: Seq<char>, c: Seq<char>)
    requires
        text_before(a, b),
        text_before(b, c),
    ensures
        text_before(a, c),
    decreases a.len(),
{
    if a.len() > 0 && a[0] == b[0] && b[0] == c[0] {
        lemma_text_before_transitive(a.drop_first(), b.drop_first(), c.drop_first());
    }
}

/// Of two different texts, one comes first.
proof fn lemma_text_before_total(a: Seq<char>, b: Seq<char>)
    requires
        a != b,
    ensures
        text_before(a, b) || text_before(b, a),
    decreases a.len(),
{
    if a.len() > 0 && b.len() > 0 && a[0] == b[0] {
        if a.drop_first() == b.drop_first() {
            assert(a =~= seq![a[0]] + a.drop_first());
            assert(b =~= seq![b[0]] + b.drop_first());
        }
        lemma_text_before_total(a.drop_first(), b.drop_first());
    } else if a.len() == 0 && b.len() == 0 {
        assert(a =~= b);
    }
}

/// Whether `a` comes before `b` in the order of their characters.
fn text_less(a: &[char], b: &[char]) -> (r: bool)
    ensures
        r == text_before(a@, b@),
{
    let mut i: usize = 0;
    assert(a@.skip(0) =~= a@ && b@.skip(0) =~= b@);
    while i < a.len() && i < b.len() && a[i] == b[i]
        invariant
            i <= a@.len(),
            i <= b@.len(),
            text_before(a@, b@) == text_before(a@.skip(i as int), b@.skip(i as int)),
        decreases a@.len() - i,
    {
        assert(a@.skip(i as int).drop_first() =~= a@.skip(i + 1));
        assert(b@.skip(i as int).drop_first() =~= b@.skip(i + 1));
        i = i + 1;
    }
    if i == a.len() {
        i < b.len()
    } else if i == b.len() {
        false
    } else {
        a[i] < b[i]
    }
}

/// The characters of `s` with its ASCII letters in lower case.
fn lowercase_chars(s: &str) -> (r: Vec<char>)
    ensures
        r@ == ascii_lowercase(s@),
{
    let chars = chars_of(s);
    let mut r: Vec<char> = Vec::new();
    let mut i: usize = 0;
    while i < chars.len()
        invariant
            i <= chars@.len(),
            chars@ == s@,
            r@ == ascii_lowercase(chars@.subrange(0, i as int)),
        decreases chars@.len() - i,
    {
        r.push(to_ascii_lower(chars[i]));
        i = i + 1;
        assert(r@ =~= ascii_lowercase(chars@.subrange(0, i as int)));
    }
    assert(chars@.subrange(0, chars@.len() as int) =~= chars@);
    r
}

/// Stage `m` has a smaller sort key than stage `n`: an earlier iteration,
/// or the same iteration and a name that comes first in ASCII lower case.
pub open spec fn stage_key_less(stages: Seq<Stage>, m: int, n: int) -> bool {
    stages[m].iteration < stages[n].iteration || (stages[m].iteration == stages[n].iteration && text_before(
        ascii_lowercase(stages[m].name@),
        ascii_lowercase(stages[n].name@),
    ))
}

/// Stages `m` and `n` have the same sort key.
pub open spec fn stage_key_equal(stages: Seq<Stage>, m: int, n: int) -> bool {
    stages[m].iteration == stages[n].iteration && ascii_lowercase(stages[m].name@) == ascii_lowercase(
        stages[n].name@,
    )
}

/// Stage `m` is listed before stage `n`: by iteration, then by name in
/// ASCII lower case, and stages with the same key in the order given.
pub open spec fn stage_listed_before(stages: Seq<Stage>, m: int, n: int) -> bool {
    stage_key_less(stages, m, n) || (stage_key_equal(stages, m, n) && m < n)
}

/// The sort keys of stages are ordered totally.
proof fn lemma_stage_keys(stages: Seq<Stage>, m: int, n: int, o: int)
    ensures
        !stage_key_less(stages, m, m),
        stage_key_less(stages, m, n) ==> !stage_key_less(stages, n, m) && !stage_key_equal(stages, m, n),
        stage_key_less(stages, m, n) || stage_key_less(stages, n, m) || stage_key_equal(stages, m, n),
        stage_key_less(stages, m, n) && stage_key_less(stages, n, o) ==> stage_key_less(stages, m, o),
        stage_key_less(stages, m, n) && stage_key_equal(stages, n, o) ==> stage_key_less(stages, m, o),
        stage_key_equal(stages, m, n) && stage_key_less(stages, n, o) ==> stage_key_less(stages, m, o),
{
    let a = ascii_lowercase(stages[m].name@);
    let b = ascii_lowercase(stages[n].name@);
    let c = ascii_lowercase(stages[o].name@);
    lemma_text_before_strict(a, b);
    if a != b {
        lemma_text_before_total(a, b);
    }
    if text_before(a, b) && text_before(b, c) {
        lemma_text_before_transitive(a, b, c);
    }
}

/// The positions of `stages` in the order the studio lists them: by
/// iteration, then by name in ASCII lower case, stages with the same
/// iteration and name in the order given.
#[verifier::rlimit(30)]
pub fn stage_order(stages: &[Stage]) -> (r: Vec<usize>)
    ensures
        r@.len() == stages@.len(),
        forall|k: int| 0 <= k < r@.len() ==> #[trigger] r@[k] < stages@.len(),
        forall|k1: int, k2: int|
            0 <= k1 < k2 < r@.len() ==> #[trigger] stage_listed_before(stages@, r@[k1] as int, r@[k2] as int),
        forall|k1: int, k2: int| 0 <= k1 < k2 < r@.len() ==> #[trigger] r@[k1] != #[trigger] r@[k2],
{
    let n = stages.len();
    let mut lower: Vec<Vec<char>> = Vec::new();
    let mut i: usize = 0;
    while i < n
        invariant
            n == stages@.len(),
            i <= n,
            lower@.len() == i,
            forall|k: int| 0 <= k < i ==> (#[trigger] lower@[k])@ == ascii_lowercase(stages@[k].name@),
        decreases n - i,
    {
        lower.push(lowercase_chars(stages[i].name.as_str()));
        i = i + 1;
    }
    let mut r: Vec<usize> = Vec::new();
    let mut i: usize = 0;
    while i < n
        invariant
            n == stages@.len(),
            i <= n,
            lower@.len() == n,
            forall|k: int| 0 <= k < n ==> (#[trigger] lower@[k])@ == ascii_lowercase(stages@[k].name@),
            r@.len() == i,
            forall|k: int| 0 <= k < r@.len() ==> #[trigger] r@[k] < i,
            forall|k1: int, k2: int|
                0 <= k1 < k2 < r@.len() ==> #[trigger] stage_listed_before(stages@, r@[k1] as int, r@[k2] as int),
        decreases n - i,
    {
        let mut p: usize = 0;
        while p < r.len() && !(stages[i].iteration < stages[r[p]].iteration || (stages[i].iteration
            == stages[r[p]].iteration && text_less(lower[i].as_slice(), lower[r[p]].as_slice())))
            invariant
                n == stages@.len(),
                i < n,
                lower@.len() == n,
                forall|k: int| 0 <= k < n ==> (#[trigger] lower@[k])@ == ascii_lowercase(stages@[k].name@),
                p <= r@.len(),
                forall|k: int| 0 <= k < r@.len() ==> #[trigger] r@[k] < i,
                forall|k: int| 0 <= k < p ==> !stage_key_less(stages@, i as int, #[trigger] r@[k] as int),
            decreases r@.len() - p,
        {
            p = p + 1;
        }
        let ghost old_r = r@;
        proof {
            if p < old_r.len() {
                assert(stage_key_less(stages@, i as int, old_r[p as int] as int));
            }
        }
        r.insert(p, i);
        proof {
            assert forall|k1: int, k2: int| 0 <= k1 < k2 < r@.len() implies #[trigger] stage_listed_before(
                stages@,
                r@[k1] as int,
                r@[k2] as int,
            ) by {
                let a = r@[k1] as int;
                let b = r@[k2] as int;
                if k2 < p {
                    assert(r@[k1] == old_r[k1] && r@[k2] == old_r[k2]);
                } else if k2 == p {
                    assert(r@[k1] == old_r[k1]);
                    lemma_stage_keys(stages@, a, b, a);
                } else if k1 == p {
                    assert(r@[k2] == old_r[k2 - 1]);
                    let q = old_r[p as int] as int;
                    if k2 - 1 > p {
                        assert(stage_listed_before(stages@, q, b));
                    }
                    lemma_stage_keys(stages@, a, q, b);
                } else if k1 < p {
                    assert(r@[k1] == old_r[k1] && r@[k2] == old_r[k2 - 1]);
                } else {
                    assert(r@[k1] == old_r[k1 - 1] && r@[k2] == old_r[k2 - 1]);
                }
            }
        }
        i = i + 1;
    }
    proof {
        assert forall|k1: int, k2: int| 0 <= k1 < k2 < r@.len() implies #[trigger] r@[k1] != #[trigger] r@[k2] by {
            assert(stage_listed_before(stages@, r@[k1] as int, r@[k2] as int));
            lemma_stage_keys(stages@, r@[k1] as int, r@[k2] as int, r@[k1] as int);
        }
    }
    r
}

/// A stage named `name` without its leading and trailing whitespace, at
/// `iteration`; none where nothing but whitespace is left.
pub fn new_stage(name: &str, iteration: u64) -> (r: Option<Stage>)
    ensures
        ({
            let t = trimmed(name@, 0, name@.len() as int);
            match r {
                None => t.0 == t.1,
                Some(stage) => t.0 < t.1 && stage.name@ == name@.subrange(t.0, t.1) && stage.iteration == iteration,
            }
        }),
{
    let chars = chars_of(name);
    let (a, b) = trim_range(chars.as_slice(), 0, chars.len());
    if a == b {
        None
    } else {
        Some(Stage { name: string_from_range(chars.as_slice(), a, b), iteration })
    }
}

/// The breakpoints with the one on `cell` cleared, or set where there was
/// none.
pub open spec fn toggled(breakpoints: Set<(isize, isize)>, cell: (isize, isize)) -> Set<(isize, isize)> {
    if breakpoints.contains(cell) {
        breakpoints.remove(cell)
    } else {
        breakpoints.insert(cell)
    }
}

/// Toggling the breakpoint on a cell twice leaves the breakpoints as they
/// were.
pub proof fn lemma_toggle_twice(breakpoints: Set<(isize, isize)>, cell: (isize, isize))
    ensures
        toggled(toggled(breakpoints, cell), cell) == breakpoints,
{
    assert(toggled(toggled(breakpoints, cell), cell) =~= breakpoints);
}

/// The breakpoint hit `hit` is at `cell`.
pub open spec fn hit_at(hit: Option<BreakpointHit>, cell: (isize, isize)) -> bool {
    match hit {
        Some(h) => h.x == cell.0 && h.y == cell.1,
        None => false,
    }
}

/// Sets a breakpoint on `cell`, or clears the one there; the last
/// breakpoint hit is forgotten where it was the one cleared.
pub fn toggle_breakpoint(
    breakpoints: &mut BTreeSet<(isize, isize)>,
    last_hit: &mut Option<BreakpointHit>,
    cell: (isize, isize),
)
    ensures
        final(breakpoints)@ == toggled(old(breakpoints)@, cell),
        *final(last_hit) == (if old(breakpoints)@.contains(cell) && hit_at(*old(last_hit), cell) {
            None
        } else {
            *old(last_hit)
        }),
{
    broadcast use vstd::std_specs::btree::group_btree_axioms;

    proof {
        crate::vns::lemma_pairs_ordered();
    }
    if !breakpoints.insert(cell) {
        breakpoints.remove(&cell);
        let hit_here = match last_hit {
            Some(h) => h.x == cell.0 && h.y == cell.1,
            None => false,
        };
        if hit_here {
            *last_hit = None;
        }
    }
}

/// The title of the studio's window: updates per second where they are
/// measured ("N/A" where not), the iteration reached and the number of
/// chunks.
pub open spec fn spec_window_title(ups: Option<u32>, iterations: u64, chunks: usize) -> Seq<char> {
    "VNStudio - UPS: "@ + match ups {
        Some(u) => decimal(u as nat),
        None => "N/A"@,
    } + " - Iteration: "@ + decimal(iterations as nat) + " - Chunks: "@ + decimal(chunks as nat)
}

/// The title of the studio's window.
pub fn window_title(ups: Option<u32>, iterations: u64, chunks: usize) -> (r: String)
    ensures
        r@ == spec_window_title(ups, iterations, chunks),
{
    let mut r = String::new();
    push_str(&mut r, "VNStudio - UPS: ");
    match ups {
        Some(u) => push_decimal(&mut r, u as u128),
        None => push_str(&mut r, "N/A"),
    }
    push_str(&mut r, " - Iteration: ");
    push_decimal(&mut r, iterations as u128);
    push_str(&mut r, " - Chunks: ");
    push_decimal(&mut r, chunks as u128);
    r
}

} // verus!
