//! The studio's own pattern file (`.vns`): a JSON document that holds the
//! ruleset, the cells as run-length encoded text, and the studio's extra
//! state (breakpoints, stages and overlays). This module checks and reads a
//! document once it is decoded, and builds the document of a pattern; the
//! JSON text itself is read and written by the caller.
use vstd::prelude::*;

use std::collections::{BTreeSet, HashMap};

use crate::automaton::CellularAutomaton;
use crate::cell::{painted, Cell, CellState};
use crate::game_of_life::{GameOfLife, GameOfLifeState};
use crate::golly::{
    checked_add_coord, debug_char, debug_char_text, debug_str, debug_str_text, first_utf8_byte, fits_isize,
    io_error_text, utf8_first_byte,
};
use crate::storage::{listed, positions_distinct, visit_key_before};
use crate::text::{
    chars_of_string, decimal, digit_value, is_ascii_white_space, is_ascii_whitespace_char, is_digit, push_chars,
    push_decimal, push_signed_decimal, push_str, signed_decimal, string_from_str, text_equals,
};
use crate::golly::{golly_code, parse_jvn29_rle, spec_golly_code, spec_parse_jvn29_rle, texts};
use crate::von_neumann::{VonNeumann, VonNeumannState};

verus! {

broadcast use vstd::std_specs::hash::group_hash_axioms;

/// `serde_json::Error`, an error of reading or writing JSON text.
#[verifier::external_type_specification]
#[verifier::external_body]
pub struct ExJsonError(serde_json::Error);

/// The version of the format that this module reads and writes.
pub const FORMAT_VERSION: u32 = 1;

/// The greatest length of a line of run-length encoded text.
pub const RLE_LINE_LENGTH: usize = 80;

/// The automaton that a pattern is for.
#[derive(Debug, Clone, Copy, PartialEq, Eq, Structural)]
pub enum Ruleset {
    JvN29,
    GameOfLife,
}

impl Ruleset {
    /// The name of the ruleset in a document.
    pub open spec fn spec_name(self) -> Seq<char> {
        match self {
            Ruleset::JvN29 => seq!['j', 'v', 'n', '2', '9'],
            Ruleset::GameOfLife => seq!['g', 'a', 'm', 'e', '_', 'o', 'f', '_', 'l', 'i', 'f', 'e'],
        }
    }

    /// The name of the ruleset in a document.
    pub fn as_str(self) -> (r: &'static str)
        ensures
            r@ == self.spec_name(),
    {
        match self {
            Ruleset::JvN29 => {
                proof {
                    reveal_strlit("jvn29");
                }
                "jvn29"
            },
            Ruleset::GameOfLife => {
                proof {
                    reveal_strlit("game_of_life");
                }
                "game_of_life"
            },
        }
    }
}

/// The cells of a pattern, for one of the rulesets.
#[derive(Debug, PartialEq, Eq)]
pub enum PatternCells {
    JvN29(Vec<Cell<VonNeumannState>>),
    GameOfLife(Vec<Cell<GameOfLifeState>>),
}

impl PatternCells {
    /// The ruleset that the cells are for.
    pub fn ruleset(&self) -> (r: Ruleset)
        ensures
            r == (match self {
                PatternCells::JvN29(_) => Ruleset::JvN29,
                PatternCells::GameOfLife(_) => Ruleset::GameOfLife,
            }),
    {
        match self {
            PatternCells::JvN29(_) => Ruleset::JvN29,
            PatternCells::GameOfLife(_) => Ruleset::GameOfLife,
        }
    }
}

impl Clone for PatternCells {
    fn clone(&self) -> (r: Self)
        ensures
            r@ == self@,
    {
        match self {
            PatternCells::JvN29(cells) => PatternCells::JvN29(copy_cells(cells)),
            PatternCells::GameOfLife(cells) => PatternCells::GameOfLife(copy_cells(cells)),
        }
    }
}

/// A copy of a sequence of cells.
pub(crate) fn copy_cells<S: CellState>(cells: &Vec<Cell<S>>) -> (r: Vec<Cell<S>>)
    ensures
        r@ == cells@,
{
    let mut r: Vec<Cell<S>> = Vec::new();
    let mut i: usize = 0;
    while i < cells.len()
        invariant
            i <= cells@.len(),
            r@ == cells@.subrange(0, i as int),
        decreases cells@.len() - i,
    {
        r.push(cells[i]);
        i = i + 1;
        assert(r@ =~= cells@.subrange(0, i as int));
    }
    assert(cells@.subrange(0, cells@.len() as int) =~= cells@);
    r
}

/// A point of the grid.
#[derive(Debug, Clone, Copy, PartialEq, Eq, Structural)]
pub struct Coordinate {
    pub x: isize,
    pub y: isize,
}

/// A named moment of a simulation: the iteration it was reached at.
#[derive(Debug, Clone, PartialEq, Eq)]
pub struct Stage {
    pub name: String,
    pub iteration: u64,
}

/// A drawing laid over the grid.
#[derive(Debug, Clone, PartialEq, Eq)]
pub enum Overlay {
    DirectedLines(DirectedLineOverlay),
}

/// A named group of directed lines, shown or hidden together.
#[derive(Debug, Clone, PartialEq, Eq)]
pub struct DirectedLineOverlay {
    pub name: String,
    pub visible: bool,
    pub lines: Vec<DirectedLine>,
}

/// A path through grid points, each segment horizontal or vertical.
#[derive(Debug, Clone, PartialEq, Eq)]
pub struct DirectedLine {
    pub name: String,
    pub visible: bool,
    pub points: Vec<Coordinate>,
}

/// A pattern read from a document, with the studio's extra state.
#[derive(Debug, PartialEq, Eq)]
pub struct LoadedVnsPattern {
    pub cells: PatternCells,
    pub breakpoints: BTreeSet<(isize, isize)>,
    pub stages: Vec<Stage>,
    pub overlays: Vec<Overlay>,
}

/// The error of reading or writing a document: of the file, of its JSON
/// text, or of its content, with a message.
#[derive(Debug)]
pub enum VnsError {
    Io(std::io::Error),
    Json(serde_json::Error),
    Parse(String),
}

/// `format!("{}", error)`: the text that `Display` writes for a JSON
/// error. Nothing is stated of it.
#[verifier::external_body]
fn json_error_text(error: &serde_json::Error) -> String {
    format!("{error}")
}

impl VnsError {
    /// The text of the error; for an error of the content, its message.
    pub fn to_string(&self) -> (r: String)
        ensures
            self matches VnsError::Parse(m) ==> r@ == m@,
    {
        match self {
            VnsError::Io(error) => io_error_text(error),
            VnsError::Json(error) => json_error_text(error),
            VnsError::Parse(m) => {
                let mut r = String::new();
                push_chars(&mut r, chars_of_string(m).as_slice());
                r
            },
        }
    }
}

/// An error of the content, with message `m`.
fn parse_failure(m: String) -> (e: VnsError)
    ensures
        e matches VnsError::Parse(m2) && m2@ == m@,
{
    VnsError::Parse(m)
}

/// The result is an error of the content with the message `m`.
pub open spec fn fails_with<T>(r: Result<T, VnsError>, m: Seq<char>) -> bool {
    r matches Err(VnsError::Parse(text)) && text@ == m
}

/// The document of a pattern, as its JSON text holds it.
pub struct VnsDocument {
    pub format: String,
    pub version: u32,
    pub ruleset: String,
    pub pattern: RlePattern,
    pub extra: ExtraState,
}

/// The cells of a pattern as run-length encoded text: the position of the
/// top left cell of the bounding box, its size, and the text in lines.
pub struct RlePattern {
    pub encoding: String,
    pub origin: Coordinate,
    pub size: PatternSize,
    pub lines: Vec<String>,
}

/// The width and height of a pattern's bounding box.
#[derive(Debug, Clone, Copy, PartialEq, Eq, Structural)]
pub struct PatternSize {
    pub width: usize,
    pub height: usize,
}

/// The studio's state beside the cells; each part may be left out of a
/// document and is then empty.
pub struct ExtraState {
    pub breakpoints: Vec<Coordinate>,
    pub stages: Vec<Stage>,
    pub overlays: Vec<Overlay>,
}

impl Default for ExtraState {
    fn default() -> (r: Self)
        ensures
            r.breakpoints@.len() == 0,
            r.stages@.len() == 0,
            r.overlays@.len() == 0,
    {
        ExtraState { breakpoints: Vec::new(), stages: Vec::new(), overlays: Vec::new() }
    }
}

/// The segment from `start` to `end` is horizontal or vertical.
pub open spec fn spec_axis_aligned(start: Coordinate, end: Coordinate) -> bool {
    start.x == end.x || start.y == end.y
}

/// Whether the segment from `start` to `end` is horizontal or vertical.
pub fn coordinates_are_axis_aligned(start: Coordinate, end: Coordinate) -> (r: bool)
    ensures
        r == spec_axis_aligned(start, end),
{
    start.x == end.x || start.y == end.y
}

/// The message of the first bad segment of the line named `name` with
/// points `points`, from segment `i` on: one that is not horizontal or
/// vertical, or one of length zero.
pub open spec fn segment_error(points: Seq<Coordinate>, i: int, name: Seq<char>) -> Option<Seq<char>>
    decreases points.len() - i,
{
    if i < 0 || i + 1 >= points.len() {
        None
    } else if !spec_axis_aligned(points[i], points[i + 1]) {
        Some("directed line "@ + debug_str_text(name) + " contains a non-orthogonal segment"@)
    } else if points[i] == points[i + 1] {
        Some("directed line "@ + debug_str_text(name) + " contains a zero-length segment"@)
    } else {
        segment_error(points, i + 1, name)
    }
}

/// What is wrong with a directed line, if anything: it has fewer than two
/// points, or a bad segment.
pub open spec fn directed_line_error(line: DirectedLine) -> Option<Seq<char>> {
    if line.points@.len() < 2 {
        Some("directed line "@ + debug_str_text(line.name@) + " must have at least two points"@)
    } else {
        segment_error(line.points@, 0, line.name@)
    }
}

/// The error of the first bad line of `lines` from index `i` on.
pub open spec fn lines_error(lines: Seq<DirectedLine>, i: int) -> Option<Seq<char>>
    decreases lines.len() - i,
{
    if i < 0 || i >= lines.len() {
        None
    } else {
        match directed_line_error(lines[i]) {
            Some(m) => Some(m),
            None => lines_error(lines, i + 1),
        }
    }
}

/// The error of the first bad line of the overlays from index `i` on.
pub open spec fn overlays_error(overlays: Seq<Overlay>, i: int) -> Option<Seq<char>>
    decreases overlays.len() - i,
{
    if i < 0 || i >= overlays.len() {
        None
    } else {
        match overlays[i] {
            Overlay::DirectedLines(o) => match lines_error(o.lines@, 0) {
                Some(m) => Some(m),
                None => overlays_error(overlays, i + 1),
            },
        }
    }
}

/// The message `directed line <name> <what>`, the name quoted.
fn line_message(name: &String, what: &str) -> (r: String)
    ensures
        r@ == "directed line "@ + debug_str_text(name@) + what@,
{
    let mut m = string_from_str("directed line ");
    let shown = debug_str(name.as_str());
    push_chars(&mut m, chars_of_string(&shown).as_slice());
    push_str(&mut m, what);
    m
}

/// Checks a directed line: at least two points, each segment horizontal
/// or vertical and of nonzero length.
fn validate_directed_line(line: &DirectedLine) -> (r: Result<(), VnsError>)
    ensures
        match directed_line_error(*line) {
            None => r is Ok,
            Some(m) => fails_with(r, m),
        },
{
    if line.points.len() < 2 {
        return Err(parse_failure(line_message(&line.name, " must have at least two points")));
    }
    let mut i: usize = 0;
    while i < line.points.len() - 1
        invariant
            i + 1 <= line.points@.len(),
            line.points@.len() >= 2,
            segment_error(line.points@, 0, line.name@) == segment_error(line.points@, i as int, line.name@),
        decreases line.points@.len() - i,
    {
        let start = line.points[i];
        let end = line.points[i + 1];
        if !coordinates_are_axis_aligned(start, end) {
            return Err(parse_failure(line_message(&line.name, " contains a non-orthogonal segment")));
        }
        if start == end {
            return Err(parse_failure(line_message(&line.name, " contains a zero-length segment")));
        }
        i = i + 1;
    }
    Ok(())
}

/// Checks every directed line of every overlay, in order.
fn validate_overlays(overlays: &[Overlay]) -> (r: Result<(), VnsError>)
    ensures
        match overlays_error(overlays@, 0) {
            None => r is Ok,
            Some(m) => fails_with(r, m),
        },
{
    let mut i: usize = 0;
    while i < overlays.len()
        invariant
            i <= overlays@.len(),
            overlays_error(overlays@, 0) == overlays_error(overlays@, i as int),
        decreases overlays@.len() - i,
    {
        match &overlays[i] {
            Overlay::DirectedLines(overlay) => {
                let mut j: usize = 0;
                while j < overlay.lines.len()
                    invariant
                        i < overlays@.len(),
                        overlays@[i as int] == Overlay::DirectedLines(*overlay),
                        j <= overlay.lines@.len(),
                        lines_error(overlay.lines@, 0) == lines_error(overlay.lines@, j as int),
                        overlays_error(overlays@, 0) == overlays_error(overlays@, i as int),
                    decreases overlay.lines@.len() - j,
                {
                    match validate_directed_line(&overlay.lines[j]) {
                        Err(e) => {
                            return Err(e);
                        },
                        Ok(()) => {},
                    }
                    j = j + 1;
                }
            },
        }
        i = i + 1;
    }
    Ok(())
}

/// Writes `cells` into `automaton` in order; where two of them share a
/// position the later one stays.
pub fn apply_jvn29_cells(cells: &[Cell<VonNeumannState>], automaton: &mut VonNeumann)
    requires
        old(automaton).wf(),
    ensures
        final(automaton).wf(),
        forall|x: int, y: int| #[trigger]
            final(automaton).state_at(x, y) == painted(cells@, cells@.len() as int, x, y, old(automaton).state_at(x, y)),
{
    automaton.set_cells(cells);
}

/// Writes `cells` into `automaton` in order; where two of them share a
/// position the later one stays.
pub fn apply_game_of_life_cells(cells: &[Cell<GameOfLifeState>], automaton: &mut GameOfLife)
    requires
        old(automaton).wf(),
    ensures
        final(automaton).wf(),
        forall|x: int, y: int| #[trigger]
            final(automaton).state_at(x, y) == painted(cells@, cells@.len() as int, x, y, old(automaton).state_at(x, y)),
{
    automaton.set_cells(cells);
}

/// The cells of `cells` are those of the grid `state_at` in a state other
/// than the default, at `isize` coordinates, each listed once and in its
/// state.
pub open spec fn lists_grid<S: CellState>(cells: Seq<Cell<S>>, state_at: spec_fn(int, int) -> S) -> bool {
    &&& forall|k: int|
        0 <= k < cells.len() ==> #[trigger] state_at(cells[k].x as int, cells[k].y as int) == cells[k].state
            && cells[k].state != S::spec_default()
    &&& forall|x: int, y: int|
        #![trigger state_at(x, y)]
        isize::MIN <= x <= isize::MAX && isize::MIN <= y <= isize::MAX && state_at(x, y) != S::spec_default()
            ==> exists|k: int|
            0 <= k < cells.len() && cells[k].x == x && cells[k].y == y
    &&& forall|i: int, j: int|
        0 <= i < cells.len() && 0 <= j < cells.len() && i != j ==> (#[trigger] cells[i].x != #[trigger] cells[j].x
            || cells[i].y != cells[j].y)
}

/// Writing `cells[0..n]` in order leaves the state of the last of them at
/// a position, where only `cells[k]` is there.
pub(crate) proof fn lemma_painted_unique<S: CellState>(cells: Seq<Cell<S>>, n: int, k: int, base: S)
    requires
        0 <= k < n <= cells.len(),
        forall|j: int| 0 <= j < n && j != k ==> !(#[trigger] cells[j].x == cells[k].x && cells[j].y == cells[k].y),
    ensures
        painted(cells, n, cells[k].x as int, cells[k].y as int, base) == cells[k].state,
    decreases n,
{
    if n - 1 > k {
        lemma_painted_unique(cells, n - 1, k, base);
    }
}

/// Writing cells none of which is at a position leaves its state.
pub(crate) proof fn lemma_painted_none<S: CellState>(cells: Seq<Cell<S>>, n: int, x: int, y: int, base: S)
    requires
        0 <= n <= cells.len(),
        forall|j: int| 0 <= j < n ==> !(#[trigger] cells[j].x == x && cells[j].y == y),
    ensures
        painted(cells, n, x, y, base) == base,
    decreases n,
{
    if n > 0 {
        lemma_painted_none(cells, n - 1, x, y, base);
    }
}

/// Writing the cells that list a grid into an empty grid gives back the
/// grid, at every position with `isize` coordinates: an automaton made
/// from the cells taken from another holds the same cells.
pub proof fn lemma_listed_cells_repaint<S: CellState>(cells: Seq<Cell<S>>, state_at: spec_fn(int, int) -> S)
    requires
        lists_grid(cells, state_at),
    ensures
        forall|x: int, y: int|
            isize::MIN <= x <= isize::MAX && isize::MIN <= y <= isize::MAX ==> #[trigger] painted(
                cells,
                cells.len() as int,
                x,
                y,
                S::spec_default(),
            ) == state_at(x, y),
{
    assert forall|x: int, y: int|
        isize::MIN <= x <= isize::MAX && isize::MIN <= y <= isize::MAX implies #[trigger] painted(
        cells,
        cells.len() as int,
        x,
        y,
        S::spec_default(),
    ) == state_at(x, y) by {
        if exists|k: int| 0 <= k < cells.len() && cells[k].x == x && cells[k].y == y {
            let k = choose|k: int| 0 <= k < cells.len() && cells[k].x == x && cells[k].y == y;
            assert forall|j: int| 0 <= j < cells.len() && j != k implies !(#[trigger] cells[j].x == cells[k].x
                && cells[j].y == cells[k].y) by {
            }
            lemma_painted_unique(cells, cells.len() as int, k, S::spec_default());
            assert(state_at(cells[k].x as int, cells[k].y as int) == cells[k].state);
        } else {
            lemma_painted_none(cells, cells.len() as int, x, y, S::spec_default());
            assert(state_at(x, y) == S::spec_default());
        }
    }
}

/// The cells come in the order in which `automaton` visits them: chunk by
/// chunk, and row by row, column by column within a chunk.
pub open spec fn listed_in_visit_order<Config: crate::cell::CellularAutomataConfig>(
    cells: Seq<Cell<Config::State>>,
    automaton: CellularAutomaton<Config>,
) -> bool {
    forall|a: int, b: int|
        #![trigger cells[a], cells[b]]
        0 <= a < b < cells.len() ==> visit_key_before(
            automaton.visit_key(cells[a].x as int, cells[a].y as int),
            automaton.visit_key(cells[b].x as int, cells[b].y as int),
        )
}

/// The cells of an automaton in a state other than the default, in the
/// order in which it visits them.
fn cells_of<Config: crate::cell::CellularAutomataConfig>(automaton: &CellularAutomaton<Config>) -> (r: Vec<
    Cell<Config::State>,
>)
    requires
        automaton.wf(),
    ensures
        lists_grid(r@, |x: int, y: int| automaton.state_at(x, y)),
        listed_in_visit_order(r@, *automaton),
{
    let visited = automaton.visit_non_default_cells((isize::MIN, isize::MIN), (isize::MAX, isize::MAX));
    let mut r: Vec<Cell<Config::State>> = Vec::new();
    let mut i: usize = 0;
    while i < visited.len()
        invariant
            i <= visited@.len(),
            r@.len() == i,
            forall|k: int|
                0 <= k < i ==> #[trigger] r@[k] == (Cell { x: visited@[k].0, y: visited@[k].1, state: visited@[k].2 }),
        decreases visited@.len() - i,
    {
        let (x, y, state) = visited[i];
        r.push(Cell { x, y, state });
        i = i + 1;
    }
    assert forall|x: int, y: int|
        #![trigger automaton.state_at(x, y)]
        isize::MIN <= x <= isize::MAX && isize::MIN <= y <= isize::MAX && automaton.state_at(x, y)
            != Config::State::spec_default() implies exists|k: int|
            0 <= k < r@.len() && r@[k].x == x && r@[k].y == y by {
        assert(listed(visited@, x, y));
        let k = choose|k: int| 0 <= k < visited@.len() && visited@[k].0 == x && visited@[k].1 == y;
        assert(r@[k].x == x && r@[k].y == y);
    }
    assert forall|i: int, j: int|
        0 <= i < r@.len() && 0 <= j < r@.len() && i != j implies (#[trigger] r@[i].x != #[trigger] r@[j].x
            || r@[i].y != r@[j].y) by {
        assert(positions_distinct(visited@));
    }
    assert forall|a: int, b: int| 0 <= a < b < r@.len() implies visit_key_before(
        automaton.visit_key(r@[a].x as int, r@[a].y as int),
        automaton.visit_key(r@[b].x as int, r@[b].y as int),
    ) by {
        assert(r@[a] == (Cell { x: visited@[a].0, y: visited@[a].1, state: visited@[a].2 }));
        assert(r@[b] == (Cell { x: visited@[b].0, y: visited@[b].1, state: visited@[b].2 }));
    }
    r
}

/// The cells of `automaton` in a state other than the default, in the
/// order in which it visits them. The automaton is left as it is.
pub fn jvn29_cells_from_automaton(automaton: &mut VonNeumann) -> (r: Vec<Cell<VonNeumannState>>)
    requires
        old(automaton).wf(),
    ensures
        *final(automaton) == *old(automaton),
        lists_grid(r@, |x: int, y: int| old(automaton).state_at(x, y)),
        listed_in_visit_order(r@, *old(automaton)),
{
    cells_of(automaton)
}

/// The cells of `automaton` in a state other than the default, in the
/// order in which it visits them. The automaton is left as it is.
pub fn game_of_life_cells_from_automaton(automaton: &mut GameOfLife) -> (r: Vec<Cell<GameOfLifeState>>)
    requires
        old(automaton).wf(),
    ensures
        *final(automaton) == *old(automaton),
        lists_grid(r@, |x: int, y: int| old(automaton).state_at(x, y)),
        listed_in_visit_order(r@, *old(automaton)),
{
    cells_of(automaton)
}

/// What reading run-length encoded Game of Life data has gathered so
/// far: the position of the next cell, a run count being read, whether the
/// `!` terminator was read, and the live cells read.
pub struct LifeRead {
    pub x: int,
    pub y: int,
    pub count: nat,
    pub ended: bool,
    pub cells: Seq<Cell<GameOfLifeState>>,
}

/// Nothing read yet.
pub open spec fn life_start() -> LifeRead {
    LifeRead { x: 0, y: 0, count: 0, ended: false, cells: seq![] }
}

/// The live cells of a run of `state` from column `x`, offsets `0..n`, at
/// columns shifted by `ox` and row `wy`, or the message of the first
/// coordinate that does not fit. Every cell of the run has its
/// coordinates checked; only live cells are kept.
pub open spec fn life_run_cells(ox: int, wy: int, x: int, state: GameOfLifeState, n: nat) -> Result<
    Seq<Cell<GameOfLifeState>>,
    Seq<char>,
>
    decreases n,
{
    if n == 0 {
        Ok(seq![])
    } else {
        match life_run_cells(ox, wy, x, state, (n - 1) as nat) {
            Err(e) => Err(e),
            Ok(cells) => {
                let offset = n - 1;
                if !fits_isize(offset) || !fits_isize(x + offset) {
                    Err("coordinate overflow"@)
                } else if !fits_isize(ox + x + offset) {
                    Err("x coordinate overflow"@)
                } else if state == GameOfLifeState::Dead {
                    Ok(cells)
                } else {
                    Ok(cells.push(Cell { x: (ox + x + offset) as isize, y: wy as isize, state }))
                }
            },
        }
    }
}

/// Adds a run of `run` cells of `state` at the position of `r`, moving
/// right past it.
pub open spec fn life_add_run(r: LifeRead, run: nat, state: GameOfLifeState, origin: Coordinate) -> Result<
    LifeRead,
    Seq<char>,
> {
    let wy = origin.y + r.y;
    if !fits_isize(wy) {
        Err("y coordinate overflow"@)
    } else {
        match life_run_cells(origin.x as int, wy, r.x, state, run) {
            Err(e) => Err(e),
            Ok(cells) => if !fits_isize(run as int) || !fits_isize(r.x + run) {
                Err("coordinate overflow"@)
            } else {
                Ok(LifeRead { x: r.x + run, cells: r.cells + cells, ..r })
            },
        }
    }
}

/// Reads one more character of run-length encoded Game of Life data.
pub open spec fn life_step(r: LifeRead, c: char, origin: Coordinate) -> Result<LifeRead, Seq<char>> {
    if r.ended {
        if is_ascii_white_space(c) {
            Ok(r)
        } else {
            Err("unexpected data after ! terminator"@)
        }
    } else if is_ascii_white_space(c) {
        if r.count != 0 {
            Err("whitespace is not allowed after a run count"@)
        } else {
            Ok(r)
        }
    } else if is_digit(c) {
        if c == '0' && r.count == 0 {
            Err("run counts cannot have a leading zero"@)
        } else if r.count * 10 + digit_value(c) > usize::MAX {
            Err("run count overflow"@)
        } else {
            Ok(LifeRead { count: r.count * 10 + digit_value(c), ..r })
        }
    } else {
        let run: nat = if r.count == 0 {
            1
        } else {
            r.count
        };
        let r0 = LifeRead { count: 0, ..r };
        if c == '$' {
            if !fits_isize(run as int) || !fits_isize(r.y + run) {
                Err("coordinate overflow"@)
            } else {
                Ok(LifeRead { x: 0, y: r.y + run, ..r0 })
            }
        } else if c == '!' {
            if run != 1 {
                Err("the ! terminator cannot have a run count"@)
            } else {
                Ok(LifeRead { ended: true, ..r0 })
            }
        } else if c == 'b' || c == '.' {
            life_add_run(r0, run, GameOfLifeState::Dead, origin)
        } else if c == 'o' {
            life_add_run(r0, run, GameOfLifeState::Live, origin)
        } else {
            Err("invalid RLE token "@ + debug_char_text(utf8_first_byte(c) as char))
        }
    }
}

/// The read `r` with no run count pending.
pub open spec fn without_count(r: LifeRead) -> LifeRead {
    LifeRead { count: 0, ..r }
}

/// `k` tokens `c`, each without a run count, read from `r`.
pub open spec fn repeated(r: LifeRead, c: char, k: nat, origin: Coordinate) -> Result<LifeRead, Seq<char>>
    decreases k,
{
    if k == 0 {
        Ok(r)
    } else {
        match repeated(r, c, (k - 1) as nat, origin) {
            Err(e) => Err(e),
            Ok(r1) => life_step(r1, c, origin),
        }
    }
}

/// A row break `$` with run count `k` moves as far as `k` row breaks
/// without one: to the first column of the row `k` below.
pub proof fn lemma_counted_row_break(r: LifeRead, origin: Coordinate)
    requires
        !r.ended,
        r.count >= 1,
        0 <= r.y <= isize::MAX,
    ensures
        life_step(r, '$', origin) == repeated(without_count(r), '$', r.count, origin),
        life_step(r, '$', origin) is Ok <==> r.y + r.count <= isize::MAX,
        life_step(r, '$', origin) matches Ok(r2) ==> r2.y == r.y + r.count && r2.x == 0 && r2.cells == r.cells,
{
    lemma_row_breaks(without_count(r), r.count, origin);
}

/// The state that a run token writes: live for `o`, dead for `b` and `.`.
pub open spec fn run_token_state(c: char) -> GameOfLifeState {
    if c == 'o' {
        GameOfLifeState::Live
    } else {
        GameOfLifeState::Dead
    }
}

/// A run token `o`, `b` or `.` with run count `k` reads as `k` such tokens
/// without one: it moves `k` columns right and adds a live cell at each of
/// them for `o`, none for `b` and `.`, where these coordinates fit in
/// `isize`.
pub proof fn lemma_counted_run(r: LifeRead, c: char, origin: Coordinate)
    requires
        !r.ended,
        r.count >= 1,
        c == 'o' || c == 'b' || c == '.',
        0 <= r.x,
        r.x + r.count <= isize::MAX,
        origin.x + r.x + r.count <= isize::MAX,
        fits_isize(origin.y + r.y),
    ensures
        life_step(r, c, origin) is Ok,
        life_step(r, c, origin) == repeated(without_count(r), c, r.count, origin),
        life_step(r, c, origin) matches Ok(r2) ==> r2.x == r.x + r.count && r2.y == r.y && r2.cells.len()
            == r.cells.len() + (if c == 'o' {
            r.count as int
        } else {
            0
        }),
{
    lemma_repeated_run(without_count(r), c, r.count, origin);
    lemma_run_len(origin.x as int, origin.y + r.y, r.x, run_token_state(c), r.count);
}

/// A run of `n` cells keeps `n` cells when they are live and none when dead.
proof fn lemma_run_len(ox: int, wy: int, x: int, state: GameOfLifeState, n: nat)
    ensures
        life_run_cells(ox, wy, x, state, n) matches Ok(cells) ==> cells.len() == if state == GameOfLifeState::Live {
            n as int
        } else {
            0
        },
    decreases n,
{
    if n > 0 {
        lemma_run_len(ox, wy, x, state, (n - 1) as nat);
    }
}

/// `k` run tokens without a count add the run of `k` cells and move `k`
/// columns right.
proof fn lemma_repeated_run(r: LifeRead, c: char, k: nat, origin: Coordinate)
    requires
        !r.ended,
        r.count == 0,
        c == 'o' || c == 'b' || c == '.',
        0 <= r.x,
        r.x + k <= isize::MAX,
        origin.x + r.x + k <= isize::MAX,
        fits_isize(origin.y + r.y),
    ensures
        life_run_cells(origin.x as int, origin.y + r.y, r.x, run_token_state(c), k) is Ok,
        repeated(r, c, k, origin) == Ok::<LifeRead, Seq<char>>(
            LifeRead {
                x: r.x + k,
                cells: r.cells + life_run_cells(origin.x as int, origin.y + r.y, r.x, run_token_state(c), k)->Ok_0,
                ..r
            },
        ),
    decreases k,
{
    if k > 0 {
        lemma_repeated_run(r, c, (k - 1) as nat, origin);
        let ox = origin.x as int;
        let wy = origin.y + r.y;
        let state = run_token_state(c);
        let prev = life_run_cells(ox, wy, r.x, state, (k - 1) as nat)->Ok_0;
        let r1 = LifeRead { x: r.x + k - 1, cells: r.cells + prev, ..r };
        assert(!is_ascii_white_space(c) && !is_digit(c) && c != '$' && c != '!');
        let one = life_run_cells(ox, wy, r1.x, state, 1);
        assert(life_run_cells(ox, wy, r1.x, state, 0) == Ok::<Seq<Cell<GameOfLifeState>>, Seq<char>>(seq![]));
        let whole = life_run_cells(ox, wy, r.x, state, k);
        if state == GameOfLifeState::Live {
            assert(one->Ok_0 =~= seq![Cell { x: (ox + r.x + k - 1) as isize, y: wy as isize, state }]);
            assert(whole->Ok_0 == prev.push(Cell { x: (ox + r.x + k - 1) as isize, y: wy as isize, state }));
            assert(r.cells + prev + one->Ok_0 =~= r.cells + whole->Ok_0);
        } else {
            assert(one->Ok_0 =~= seq![]);
            assert(r.cells + prev + one->Ok_0 =~= r.cells + whole->Ok_0);
        }
    }
}

/// The read `r` moved `k` rows down, to the first column when `k` is not
/// zero.
pub open spec fn moved_down(r: LifeRead, k: nat) -> LifeRead {
    if k == 0 {
        r
    } else {
        LifeRead { x: 0, y: r.y + k, ..r }
    }
}

/// Plain row breaks move down one row each, to the first column, and fail
/// once the row leaves `isize`.
proof fn lemma_row_breaks(r: LifeRead, k: nat, origin: Coordinate)
    requires
        !r.ended,
        r.count == 0,
        0 <= r.y <= isize::MAX,
    ensures
        r.y + k <= isize::MAX ==> repeated(r, '$', k, origin) is Ok && repeated(r, '$', k, origin)->Ok_0 == moved_down(r, k),
        r.y + k > isize::MAX ==> repeated(r, '$', k, origin) is Err && repeated(r, '$', k, origin)->Err_0 == "coordinate overflow"@,
    decreases k,
{
    if k > 0 {
        lemma_row_breaks(r, (k - 1) as nat, origin);
        if r.y + k - 1 > isize::MAX {
        } else {
            assert(!is_ascii_white_space('$'));
            assert(!is_digit('$'));
        }
    }
}

/// Reads the first `n` characters of `data`.
pub open spec fn life_scan(data: Seq<char>, n: nat, origin: Coordinate) -> Result<LifeRead, Seq<char>>
    decreases n,
{
    if n == 0 {
        Ok(life_start())
    } else {
        match life_scan(data, (n - 1) as nat, origin) {
            Err(e) => Err(e),
            Ok(r) => life_step(r, data[n - 1], origin),
        }
    }
}

/// The live cells of run-length encoded Game of Life data whose top left
/// cell is at `origin`, or the message of the first error.
pub open spec fn spec_life_cells(data: Seq<char>, origin: Coordinate) -> Result<Seq<Cell<GameOfLifeState>>, Seq<char>> {
    match life_scan(data, data.len(), origin) {
        Err(e) => Err(e),
        Ok(r) => if r.count != 0 {
            Err("run count is missing a value"@)
        } else {
            Ok(r.cells)
        },
    }
}

/// Once reading fails, it fails with the same message however much more
/// is read.
proof fn lemma_life_scan_err(data: Seq<char>, n: nat, m: nat, origin: Coordinate)
    requires
        n <= m,
        life_scan(data, n, origin) is Err,
    ensures
        life_scan(data, m, origin) == life_scan(data, n, origin),
    decreases m - n,
{
    if n < m {
        lemma_life_scan_err(data, n, (m - 1) as nat, origin);
    }
}

/// Once the run fails, it fails with the same message however long it is.
proof fn lemma_life_run_err(ox: int, wy: int, x: int, state: GameOfLifeState, n: nat, m: nat)
    requires
        n <= m,
        life_run_cells(ox, wy, x, state, n) is Err,
    ensures
        life_run_cells(ox, wy, x, state, m) == life_run_cells(ox, wy, x, state, n),
    decreases m - n,
{
    if n < m {
        lemma_life_run_err(ox, wy, x, state, n, (m - 1) as nat);
    }
}

/// The state of reading Game of Life data, but for the cells.
struct LifeReader {
    x: isize,
    y: isize,
    count: usize,
    ended: bool,
}

/// The reading state of `reader` with `cells` read so far.
spec fn life_view(reader: LifeReader, cells: Seq<Cell<GameOfLifeState>>) -> LifeRead {
    LifeRead { x: reader.x as int, y: reader.y as int, count: reader.count as nat, ended: reader.ended, cells }
}

/// Adds a run of `run` cells of `state` at the position of `reader`.
fn life_add(
    reader: &mut LifeReader,
    cells: &mut Vec<Cell<GameOfLifeState>>,
    run: usize,
    state: GameOfLifeState,
    origin: Coordinate,
) -> (r: Result<(), String>)
    ensures
        match life_add_run(life_view(*old(reader), old(cells)@), run as nat, state, origin) {
            Ok(rr) => r is Ok && life_view(*final(reader), final(cells)@) == rr,
            Err(e) => r matches Err(m) && m@ == e,
        },
{
    let world_y = match origin.y.checked_add(reader.y) {
        Some(v) => v,
        None => {
            return Err(string_from_str("y coordinate overflow"));
        },
    };
    let ghost start = cells@;
    let x0 = reader.x;
    let mut offset: usize = 0;
    while offset < run
        invariant
            offset <= run,
            world_y == origin.y + old(reader).y,
            x0 == old(reader).x,
            start == old(cells)@,
            life_run_cells(origin.x as int, world_y as int, x0 as int, state, offset as nat) matches Ok(added)
                && cells@ == start + added,
        decreases run - offset,
    {
        let local_x = match checked_add_coord(x0, offset) {
            Some(v) => v,
            None => {
                proof {
                    lemma_life_run_err(origin.x as int, world_y as int, x0 as int, state, (offset + 1) as nat, run as nat);
                }
                return Err(string_from_str("coordinate overflow"));
            },
        };
        let world_x = match origin.x.checked_add(local_x) {
            Some(v) => v,
            None => {
                proof {
                    lemma_life_run_err(origin.x as int, world_y as int, x0 as int, state, (offset + 1) as nat, run as nat);
                }
                return Err(string_from_str("x coordinate overflow"));
            },
        };
        let ghost prev = life_run_cells(origin.x as int, world_y as int, x0 as int, state, offset as nat)->Ok_0;
        if state != GameOfLifeState::Dead {
            cells.push(Cell { x: world_x, y: world_y, state });
            assert(cells@ =~= start + prev.push(Cell { x: world_x, y: world_y, state }));
        }
        offset = offset + 1;
    }
    match checked_add_coord(x0, run) {
        Some(v) => {
            reader.x = v;
            Ok(())
        },
        None => Err(string_from_str("coordinate overflow")),
    }
}

/// Reads one more character of run-length encoded Game of Life data.
#[verifier::rlimit(40)]
fn life_read_step(reader: &mut LifeReader, cells: &mut Vec<Cell<GameOfLifeState>>, c: char, origin: Coordinate) -> (r:
    Result<(), String>)
    requires
        old(reader).ended ==> old(reader).count == 0,
    ensures
        match life_step(life_view(*old(reader), old(cells)@), c, origin) {
            Ok(rr) => r is Ok && life_view(*final(reader), final(cells)@) == rr,
            Err(e) => r matches Err(m) && m@ == e,
        },
        r is Ok ==> (final(reader).ended ==> final(reader).count == 0),
{
    if reader.ended {
        if is_ascii_whitespace_char(c) {
            return Ok(());
        }
        return Err(string_from_str("unexpected data after ! terminator"));
    }
    if is_ascii_whitespace_char(c) {
        if reader.count != 0 {
            return Err(string_from_str("whitespace is not allowed after a run count"));
        }
        return Ok(());
    }
    if '0' <= c && c <= '9' {
        if c == '0' && reader.count == 0 {
            return Err(string_from_str("run counts cannot have a leading zero"));
        }
        let d = (c as u32 - '0' as u32) as usize;
        let count = reader.count;
        if count > (usize::MAX - d) / 10 {
            proof {
                assert(count * 10 + d > usize::MAX) by (nonlinear_arith)
                    requires
                        count > (usize::MAX - d) / 10,
                        d <= 9,
                ;
            }
            return Err(string_from_str("run count overflow"));
        }
        proof {
            assert(count * 10 + d <= usize::MAX) by (nonlinear_arith)
                requires
                    count <= (usize::MAX - d) / 10,
                    d <= 9,
            ;
        }
        reader.count = count * 10 + d;
        return Ok(());
    }
    let run = if reader.count == 0 {
        1
    } else {
        reader.count
    };
    reader.count = 0;
    if c == '$' {
        match checked_add_coord(reader.y, run) {
            Some(v) => {
                reader.x = 0;
                reader.y = v;
                Ok(())
            },
            None => Err(string_from_str("coordinate overflow")),
        }
    } else if c == '!' {
        if run != 1 {
            return Err(string_from_str("the ! terminator cannot have a run count"));
        }
        reader.ended = true;
        Ok(())
    } else if c == 'b' || c == '.' {
        life_add(reader, cells, run, GameOfLifeState::Dead, origin)
    } else if c == 'o' {
        life_add(reader, cells, run, GameOfLifeState::Live, origin)
    } else {
        let mut m = string_from_str("invalid RLE token ");
        let shown = debug_char(first_utf8_byte(c) as char);
        push_chars(&mut m, chars_of_string(&shown).as_slice());
        Err(m)
    }
}

/// The live cells of run-length encoded Game of Life data whose top left
/// cell is at `origin`, or the message of the first error.
fn parse_life_data(data: &[char], origin: Coordinate) -> (r: Result<Vec<Cell<GameOfLifeState>>, String>)
    ensures
        match spec_life_cells(data@, origin) {
            Ok(cells) => r matches Ok(v) && v@ == cells,
            Err(e) => r matches Err(m) && m@ == e,
        },
{
    let mut cells: Vec<Cell<GameOfLifeState>> = Vec::new();
    let mut reader = LifeReader { x: 0, y: 0, count: 0, ended: false };
    let mut index: usize = 0;
    let ghost n = data@.len();
    while index < data.len()
        invariant
            index <= data@.len(),
            n == data@.len(),
            reader.ended ==> reader.count == 0,
            life_scan(data@, index as nat, origin) == Ok::<LifeRead, Seq<char>>(life_view(reader, cells@)),
        decreases data@.len() - index,
    {
        let stepped = life_read_step(&mut reader, &mut cells, data[index], origin);
        if stepped.is_err() {
            proof {
                lemma_life_scan_err(data@, (index + 1) as nat, n, origin);
            }
            return match stepped {
                Err(m) => Err(m),
                Ok(()) => Err(String::new()),
            };
        }
        index = index + 1;
    }
    if reader.count != 0 {
        return Err(string_from_str("run count is missing a value"));
    }
    Ok(cells)
}

/// The cells of a pattern, for one of the rulesets, as sequences.
pub enum CellsView {
    JvN29(Seq<Cell<VonNeumannState>>),
    GameOfLife(Seq<Cell<GameOfLifeState>>),
}

impl View for PatternCells {
    type V = CellsView;

    open spec fn view(&self) -> CellsView {
        match self {
            PatternCells::JvN29(cells) => CellsView::JvN29(cells@),
            PatternCells::GameOfLife(cells) => CellsView::GameOfLife(cells@),
        }
    }
}

/// The texts of `lines` one after the other.
pub open spec fn concat_texts(lines: Seq<Seq<char>>) -> Seq<char>
    decreases lines.len(),
{
    if lines.len() == 0 {
        seq![]
    } else {
        concat_texts(lines.drop_last()) + lines.last()
    }
}

/// The points of `coords` as pairs.
pub open spec fn point_set(coords: Seq<Coordinate>) -> Set<(isize, isize)> {
    Set::new(|p: (isize, isize)| exists|i: int| 0 <= i < coords.len() && coords[i].x == p.0 && coords[i].y == p.1)
}

/// The Golly file that the JvN29 cells of a document stand for: its
/// position, its size and rule, and the text of its lines.
pub open spec fn jvn29_golly_text(p: RlePattern) -> Seq<char> {
    "#CXRLE Pos="@ + signed_decimal(p.origin.x as int) + ","@ + signed_decimal(p.origin.y as int) + "\nx = "@
        + decimal(p.size.width as nat) + ", y = "@ + decimal(p.size.height as nat) + ", rule = JvN29\n"@
        + concat_texts(texts(p.lines@))
}

/// The JvN29 cells of a document's pattern, or the message of the error.
pub open spec fn spec_jvn29_pattern_cells(p: RlePattern) -> Result<Seq<Cell<VonNeumannState>>, Seq<char>> {
    match spec_parse_jvn29_rle(jvn29_golly_text(p)) {
        Ok(v) => Ok(v.cells),
        Err((line, m)) => Err("invalid JvN29 RLE: "@ + "line "@ + decimal(line) + ": "@ + m),
    }
}

/// The cells that a document holds, or the message of the first thing
/// wrong with it: its format, version, encoding, overlays, ruleset or
/// cells.
pub open spec fn spec_document_cells(d: VnsDocument) -> Result<CellsView, Seq<char>> {
    if d.format@ != "vnstudio.pattern"@ {
        Err("unsupported format "@ + debug_str_text(d.format@) + "; expected \"vnstudio.pattern\""@)
    } else if d.version != FORMAT_VERSION {
        Err("unsupported .vns version "@ + decimal(d.version as nat) + "; expected 1"@)
    } else if d.pattern.encoding@ != "rle"@ {
        Err("unsupported pattern encoding "@ + debug_str_text(d.pattern.encoding@) + "; expected \"rle\""@)
    } else {
        match overlays_error(d.extra.overlays@, 0) {
            Some(m) => Err(m),
            None => if d.ruleset@ == "jvn29"@ {
                match spec_jvn29_pattern_cells(d.pattern) {
                    Ok(cells) => Ok(CellsView::JvN29(cells)),
                    Err(m) => Err(m),
                }
            } else if d.ruleset@ == "game_of_life"@ {
                match spec_life_cells(concat_texts(texts(d.pattern.lines@)), d.pattern.origin) {
                    Ok(cells) => Ok(CellsView::GameOfLife(cells)),
                    Err(m) => Err(m),
                }
            } else {
                Err(
                    "unsupported ruleset "@ + debug_str_text(d.ruleset@) + "; expected \"jvn29\" or \"game_of_life\""@,
                )
            },
        }
    }
}

/// The characters of `lines` one after the other.
fn concat_lines(lines: &Vec<String>) -> (r: Vec<char>)
    ensures
        r@ == concat_texts(texts(lines@)),
{
    let mut r: Vec<char> = Vec::new();
    let mut i: usize = 0;
    while i < lines.len()
        invariant
            i <= lines@.len(),
            r@ == concat_texts(texts(lines@.subrange(0, i as int))),
        decreases lines@.len() - i,
    {
        let chars = chars_of_string(&lines[i]);
        let ghost before = r@;
        let mut j: usize = 0;
        while j < chars.len()
            invariant
                j <= chars@.len(),
                r@ == before + chars@.subrange(0, j as int),
            decreases chars@.len() - j,
        {
            r.push(chars[j]);
            j = j + 1;
            assert(r@ =~= before + chars@.subrange(0, j as int));
        }
        assert(chars@.subrange(0, chars@.len() as int) =~= chars@);
        assert(texts(lines@.subrange(0, i + 1)).drop_last() =~= texts(lines@.subrange(0, i as int)));
        i = i + 1;
    }
    assert(lines@.subrange(0, lines@.len() as int) =~= lines@);
    r
}

/// Pairs of coordinates are ordered as `Ord` requires, so that ordered
/// sets of them behave as sets.
pub(crate) proof fn lemma_pairs_ordered()
    ensures
        vstd::laws_cmp::obeys_cmp::<(isize, isize)>(),
{
    broadcast use vstd::laws_cmp::group_laws_cmp;

}

/// The points of `coords` as a set of pairs.
fn breakpoint_set(coords: &Vec<Coordinate>) -> (r: BTreeSet<(isize, isize)>)
    ensures
        r@ == point_set(coords@),
{
    proof {
        lemma_pairs_ordered();
    }
    let mut r: BTreeSet<(isize, isize)> = BTreeSet::new();
    let mut i: usize = 0;
    while i < coords.len()
        invariant
            i <= coords@.len(),
            r@ == point_set(coords@.subrange(0, i as int)),
        decreases coords@.len() - i,
    {
        let c = coords[i];
        let ghost before = r@;
        r.insert((c.x, c.y));
        i = i + 1;
        assert forall|p: (isize, isize)| #[trigger] r@.contains(p) == point_set(coords@.subrange(0, i as int)).contains(p) by {
            let sub = coords@.subrange(0, i as int);
            if p == (c.x, c.y) {
                assert(sub[i - 1] == c);
            } else if before.contains(p) {
                let prev = coords@.subrange(0, i - 1);
                let k = choose|k: int| 0 <= k < prev.len() && (#[trigger] prev[k]).x == p.0 && prev[k].y == p.1;
                assert(sub[k] == prev[k]);
            } else if point_set(sub).contains(p) {
                let prev = coords@.subrange(0, i - 1);
                let k = choose|k: int| 0 <= k < sub.len() && (#[trigger] sub[k]).x == p.0 && sub[k].y == p.1;
                assert(k < i - 1);
                assert(prev[k] == sub[k]);
            }
        }
        assert(r@ =~= point_set(coords@.subrange(0, i as int)));
    }
    assert(coords@.subrange(0, coords@.len() as int) =~= coords@);
    r
}

/// The JvN29 cells of a document's pattern: the Golly file they stand for,
/// read.
fn parse_jvn29_rle_pattern(pattern: &RlePattern) -> (r: Result<Vec<Cell<VonNeumannState>>, VnsError>)
    ensures
        match spec_jvn29_pattern_cells(*pattern) {
            Ok(cells) => r matches Ok(v) && v@ == cells,
            Err(m) => fails_with(r, m),
        },
{
    let mut text = string_from_str("#CXRLE Pos=");
    push_signed_decimal(&mut text, pattern.origin.x as i128);
    push_str(&mut text, ",");
    push_signed_decimal(&mut text, pattern.origin.y as i128);
    push_str(&mut text, "\nx = ");
    push_decimal(&mut text, pattern.size.width as u128);
    push_str(&mut text, ", y = ");
    push_decimal(&mut text, pattern.size.height as u128);
    push_str(&mut text, ", rule = JvN29\n");
    let data = concat_lines(&pattern.lines);
    push_chars(&mut text, data.as_slice());
    assert(text@ =~= jvn29_golly_text(*pattern));
    match parse_jvn29_rle(text.as_str()) {
        Ok(loaded) => Ok(loaded.cells),
        Err(error) => {
            let mut m = string_from_str("invalid JvN29 RLE: ");
            let shown = error.to_string();
            push_chars(&mut m, chars_of_string(&shown).as_slice());
            proof {
                if let Err((line, text)) = spec_parse_jvn29_rle(jvn29_golly_text(*pattern)) {
                    assert(m@ =~= "invalid JvN29 RLE: "@ + "line "@ + decimal(line) + ": "@ + text);
                }
            }
            Err(parse_failure(m))
        },
    }
}

/// The message `<what><text quoted><expected>`.
fn quoted_message(what: &str, text: &String, expected: &str) -> (r: String)
    ensures
        r@ == what@ + debug_str_text(text@) + expected@,
{
    let mut m = string_from_str(what);
    let shown = debug_str(text.as_str());
    push_chars(&mut m, chars_of_string(&shown).as_slice());
    push_str(&mut m, expected);
    m
}

/// Reads a decoded document: checks its format, version, encoding and
/// overlays, and reads its cells for its ruleset.
#[verifier::rlimit(30)]
pub fn load_document(document: VnsDocument) -> (r: Result<LoadedVnsPattern, VnsError>)
    ensures
        match spec_document_cells(document) {
            Err(m) => fails_with(r, m),
            Ok(cells) => r matches Ok(p) && p.cells@ == cells && p.breakpoints@ == point_set(
                document.extra.breakpoints@,
            ) && p.stages == document.extra.stages && p.overlays == document.extra.overlays,
        },
{
    if !text_equals(document.format.as_str(), "vnstudio.pattern") {
        return Err(
            parse_failure(quoted_message("unsupported format ", &document.format, "; expected \"vnstudio.pattern\"")),
        );
    }
    if document.version != FORMAT_VERSION {
        let mut m = string_from_str("unsupported .vns version ");
        push_decimal(&mut m, document.version as u128);
        push_str(&mut m, "; expected 1");
        return Err(parse_failure(m));
    }
    if !text_equals(document.pattern.encoding.as_str(), "rle") {
        return Err(
            parse_failure(
                quoted_message("unsupported pattern encoding ", &document.pattern.encoding, "; expected \"rle\""),
            ),
        );
    }
    let breakpoints = breakpoint_set(&document.extra.breakpoints);
    match validate_overlays(document.extra.overlays.as_slice()) {
        Err(e) => {
            return Err(e);
        },
        Ok(()) => {},
    }
    let cells = if text_equals(document.ruleset.as_str(), "jvn29") {
        match parse_jvn29_rle_pattern(&document.pattern) {
            Ok(cells) => PatternCells::JvN29(cells),
            Err(e) => {
                return Err(e);
            },
        }
    } else if text_equals(document.ruleset.as_str(), "game_of_life") {
        let data = concat_lines(&document.pattern.lines);
        match parse_life_data(data.as_slice(), document.pattern.origin) {
            Ok(cells) => PatternCells::GameOfLife(cells),
            Err(m) => {
                return Err(parse_failure(m));
            },
        }
    } else {
        return Err(
            parse_failure(
                quoted_message(
                    "unsupported ruleset ",
                    &document.ruleset,
                    "; expected \"jvn29\" or \"game_of_life\"",
                ),
            ),
        );
    };
    Ok(
        LoadedVnsPattern {
            cells,
            breakpoints,
            stages: document.extra.stages,
            overlays: document.extra.overlays,
        },
    )
}

/// The least and greatest coordinates of a set of cells.
pub struct SpecBounds {
    pub min_x: int,
    pub max_x: int,
    pub min_y: int,
    pub max_y: int,
}

/// The bounds of the first `n` cells (at least one), gathered from the
/// first cell on.
pub open spec fn spec_bounds<S: CellState>(cells: Seq<Cell<S>>, n: int) -> SpecBounds
    decreases n,
{
    if n <= 1 {
        SpecBounds {
            min_x: cells[0].x as int,
            max_x: cells[0].x as int,
            min_y: cells[0].y as int,
            max_y: cells[0].y as int,
        }
    } else {
        let b = spec_bounds(cells, n - 1);
        let c = cells[n - 1];
        SpecBounds {
            min_x: if c.x < b.min_x {
                c.x as int
            } else {
                b.min_x
            },
            max_x: if c.x > b.max_x {
                c.x as int
            } else {
                b.max_x
            },
            min_y: if c.y < b.min_y {
                c.y as int
            } else {
                b.min_y
            },
            max_y: if c.y > b.max_y {
                c.y as int
            } else {
                b.max_y
            },
        }
    }
}

/// The bounds of the first `n` cells hold all of them, and each bound is
/// the coordinate of one of them.
pub proof fn lemma_bounds<S: CellState>(cells: Seq<Cell<S>>, n: int)
    requires
        1 <= n <= cells.len(),
    ensures
        forall|i: int|
            0 <= i < n ==> spec_bounds(cells, n).min_x <= #[trigger] cells[i].x <= spec_bounds(cells, n).max_x
                && spec_bounds(cells, n).min_y <= cells[i].y <= spec_bounds(cells, n).max_y,
        exists|i: int| 0 <= i < n && #[trigger] cells[i].x == spec_bounds(cells, n).min_x,
        exists|i: int| 0 <= i < n && #[trigger] cells[i].x == spec_bounds(cells, n).max_x,
        exists|i: int| 0 <= i < n && #[trigger] cells[i].y == spec_bounds(cells, n).min_y,
        exists|i: int| 0 <= i < n && #[trigger] cells[i].y == spec_bounds(cells, n).max_y,
    decreases n,
{
    if n > 1 {
        lemma_bounds(cells, n - 1);
        let b = spec_bounds(cells, n - 1);
        let c = cells[n - 1];
        if c.x < b.min_x {
            assert(cells[n - 1].x == spec_bounds(cells, n).min_x);
        } else {
            let i = choose|i: int| 0 <= i < n - 1 && #[trigger] cells[i].x == b.min_x;
            assert(cells[i].x == spec_bounds(cells, n).min_x);
        }
        if c.x > b.max_x {
            assert(cells[n - 1].x == spec_bounds(cells, n).max_x);
        } else {
            let i = choose|i: int| 0 <= i < n - 1 && #[trigger] cells[i].x == b.max_x;
            assert(cells[i].x == spec_bounds(cells, n).max_x);
        }
        if c.y < b.min_y {
            assert(cells[n - 1].y == spec_bounds(cells, n).min_y);
        } else {
            let i = choose|i: int| 0 <= i < n - 1 && #[trigger] cells[i].y == b.min_y;
            assert(cells[i].y == spec_bounds(cells, n).min_y);
        }
        if c.y > b.max_y {
            assert(cells[n - 1].y == spec_bounds(cells, n).max_y);
        } else {
            let i = choose|i: int| 0 <= i < n - 1 && #[trigger] cells[i].y == b.max_y;
            assert(cells[i].y == spec_bounds(cells, n).max_y);
        }
    } else {
        assert(cells[0].x == spec_bounds(cells, n).min_x);
        assert(cells[0].x == spec_bounds(cells, n).max_x);
        assert(cells[0].y == spec_bounds(cells, n).min_y);
        assert(cells[0].y == spec_bounds(cells, n).max_y);
    }
}

/// The bounds of a nonempty set of cells.
#[derive(Clone, Copy)]
struct Bounds {
    min_x: isize,
    max_x: isize,
    min_y: isize,
    max_y: isize,
}

/// The bounds of the cells, if there are any.
fn bounds<S: CellState>(cells: &[Cell<S>]) -> (r: Option<Bounds>)
    ensures
        match r {
            None => cells@.len() == 0,
            Some(b) => cells@.len() > 0 && spec_bounds(cells@, cells@.len() as int) == (SpecBounds {
                min_x: b.min_x as int,
                max_x: b.max_x as int,
                min_y: b.min_y as int,
                max_y: b.max_y as int,
            }),
        },
{
    if cells.len() == 0 {
        return None;
    }
    let first = cells[0];
    let mut b = Bounds { min_x: first.x, max_x: first.x, min_y: first.y, max_y: first.y };
    let mut i: usize = 1;
    while i < cells.len()
        invariant
            1 <= i <= cells@.len(),
            spec_bounds(cells@, i as int) == (SpecBounds {
                min_x: b.min_x as int,
                max_x: b.max_x as int,
                min_y: b.min_y as int,
                max_y: b.max_y as int,
            }),
        decreases cells@.len() - i,
    {
        let c = cells[i];
        if c.x < b.min_x {
            b.min_x = c.x;
        }
        if c.x > b.max_x {
            b.max_x = c.x;
        }
        if c.y < b.min_y {
            b.min_y = c.y;
        }
        if c.y > b.max_y {
            b.max_y = c.y;
        }
        i = i + 1;
    }
    Some(b)
}

/// The position `a` comes before `b` in the order of rows: a lower row, or
/// the same row and a lower column.
pub open spec fn row_before(a: (int, int), b: (int, int)) -> bool {
    a.1 < b.1 || (a.1 == b.1 && a.0 < b.0)
}

/// The state of the first of `cells[0..n]` at (`x`, `y`), if any.
pub open spec fn state_in<S: CellState>(cells: Seq<Cell<S>>, n: int, x: int, y: int) -> Option<S>
    decreases n,
{
    if n <= 0 {
        None
    } else {
        match state_in(cells, n - 1, x, y) {
            Some(s) => Some(s),
            None => if cells[n - 1].x == x && cells[n - 1].y == y {
                Some(cells[n - 1].state)
            } else {
                None
            },
        }
    }
}

/// Two of `cells[0..n]` share the position `p`.
pub open spec fn shared_in<S: CellState>(cells: Seq<Cell<S>>, n: int, p: (int, int)) -> bool {
    exists|i: int, j: int|
        0 <= i < j < n && #[trigger] cells[i].x == p.0 && cells[i].y == p.1 && #[trigger] cells[j].x == p.0
            && cells[j].y == p.1
}

/// Two of the cells share a position that comes before (`x`, `y`).
pub open spec fn duplicate_before<S: CellState>(cells: Seq<Cell<S>>, x: int, y: int) -> bool {
    exists|p: (int, int)| #[trigger] shared_in(cells, cells.len() as int, p) && row_before(p, (x, y))
}

/// The state that the run-length encoded text shows at (`x`, `y`): that
/// of the first cell there, but the default from the first position that
/// two cells share on (past that position the cells are no longer read).
pub open spec fn shown_state<S: CellState>(cells: Seq<Cell<S>>, x: int, y: int) -> S {
    if duplicate_before(cells, x, y) {
        S::spec_default()
    } else {
        match state_in(cells, cells.len() as int, x, y) {
            Some(s) => s,
            None => S::spec_default(),
        }
    }
}

/// A number for each position, distinct for distinct positions.
pub open spec fn spec_position_key(x: int, y: int) -> int {
    x * 0x1_0000_0000_0000_0000 + (y + 0x8000_0000_0000_0000)
}

proof fn lemma_position_key_injective(x1: isize, y1: isize, x2: isize, y2: isize)
    ensures
        (spec_position_key(x1 as int, y1 as int) == spec_position_key(x2 as int, y2 as int)) == (x1 == x2 && y1
            == y2),
{
}

/// The key of the position (`x`, `y`).
fn position_key(x: isize, y: isize) -> (k: i128)
    ensures
        k == spec_position_key(x as int, y as int),
{
    (x as i128) * 0x1_0000_0000_0000_0000i128 + ((y as i128) + 0x8000_0000_0000_0000i128)
}

/// The map knows the first state of `cells[0..n]` at each position, and
/// `first_shared` is the first position (in the order of rows) that two of
/// them share.
pub open spec fn indexes<S: CellState>(
    m: Map<i128, S>,
    first_shared: Option<(isize, isize)>,
    cells: Seq<Cell<S>>,
    n: int,
) -> bool {
    &&& forall|x: isize, y: isize|
        #![trigger spec_position_key(x as int, y as int)]
        (m.contains_key(spec_position_key(x as int, y as int) as i128) <==> state_in(cells, n, x as int, y as int) is Some)
            && (m.contains_key(spec_position_key(x as int, y as int) as i128) ==> state_in(
            cells,
            n,
            x as int,
            y as int,
        ) == Some(m[spec_position_key(x as int, y as int) as i128]))
    &&& match first_shared {
        None => forall|p: (int, int)| !(#[trigger] shared_in(cells, n, p)),
        Some(d) => shared_in(cells, n, (d.0 as int, d.1 as int)) && forall|p: (int, int)| #[trigger]
            shared_in(cells, n, p) ==> !row_before(p, (d.0 as int, d.1 as int)),
    }
}

/// The first state of the cells at each position, and the first position
/// that two of them share.
#[verifier::rlimit(30)]
fn index_cells<S: CellState>(cells: &[Cell<S>]) -> (r: (HashMap<i128, S>, Option<(isize, isize)>))
    ensures
        indexes(r.0@, r.1, cells@, cells@.len() as int),
{
    let mut m: HashMap<i128, S> = HashMap::new();
    let mut first_shared: Option<(isize, isize)> = None;
    let mut i: usize = 0;
    while i < cells.len()
        invariant
            i <= cells@.len(),
            indexes(m@, first_shared, cells@, i as int),
        decreases cells@.len() - i,
    {
        let c = cells[i];
        let key = position_key(c.x, c.y);
        let ghost before = m@;
        let ghost shared_before = first_shared;
        let ghost cp = (c.x as int, c.y as int);
        if m.contains_key(&key) {
            let earlier = match first_shared {
                Some(d) => d.1 < c.y || (d.1 == c.y && d.0 < c.x),
                None => false,
            };
            if !earlier {
                first_shared = Some((c.x, c.y));
            }
            proof {
                assert(state_in(cells@, i as int, c.x as int, c.y as int) is Some);
                lemma_state_in_some(cells@, i as int, c.x as int, c.y as int);
                let k = choose|k: int| 0 <= k < i && #[trigger] cells@[k].x == c.x && cells@[k].y == c.y;
                assert(shared_in(cells@, i + 1, cp)) by {
                    assert(cells@[i as int] == c);
                }
                assert forall|p: (int, int)| #[trigger] shared_in(cells@, i + 1, p) implies shared_in(cells@, i as int, p)
                    || p == cp by {
                    lemma_shared_step(cells@, i as int, p);
                }
            }
        } else {
            m.insert(key, c.state);
            proof {
                assert forall|x: isize, y: isize|
                    #![trigger spec_position_key(x as int, y as int)]
                    (m@.contains_key(spec_position_key(x as int, y as int) as i128) <==> state_in(
                        cells@,
                        i + 1,
                        x as int,
                        y as int,
                    ) is Some) && (m@.contains_key(spec_position_key(x as int, y as int) as i128) ==> state_in(
                        cells@,
                        i + 1,
                        x as int,
                        y as int,
                    ) == Some(m@[spec_position_key(x as int, y as int) as i128])) by {
                    lemma_position_key_injective(x, y, c.x, c.y);
                }
                assert forall|p: (int, int)| #[trigger] shared_in(cells@, i + 1, p) implies shared_in(cells@, i as int, p) by {
                    lemma_shared_step(cells@, i as int, p);
                    if p == cp {
                        let (a, b) = choose|a: int, b: int|
                            0 <= a < b < i + 1 && #[trigger] cells@[a].x == p.0 && cells@[a].y == p.1
                                && #[trigger] cells@[b].x == p.0 && cells@[b].y == p.1;
                        if b == i {
                            lemma_state_in_found(cells@, i as int, a, c.x as int, c.y as int);
                        }
                    }
                }
            }
        }
        i = i + 1;
    }
    (m, first_shared)
}

/// A first state at a position belongs to one of the cells there.
pub proof fn lemma_state_in_some<S: CellState>(cells: Seq<Cell<S>>, n: int, x: int, y: int)
    requires
        state_in(cells, n, x, y) is Some,
    ensures
        exists|k: int| 0 <= k < n && #[trigger] cells[k].x == x && cells[k].y == y,
    decreases n,
{
    if n > 0 && state_in(cells, n - 1, x, y) is Some {
        lemma_state_in_some(cells, n - 1, x, y);
        let k = choose|k: int| 0 <= k < n - 1 && #[trigger] cells[k].x == x && cells[k].y == y;
        assert(cells[k].x == x);
    }
}

/// A cell at a position gives it a first state.
pub proof fn lemma_state_in_found<S: CellState>(cells: Seq<Cell<S>>, n: int, k: int, x: int, y: int)
    requires
        0 <= k < n,
        cells[k].x == x,
        cells[k].y == y,
    ensures
        state_in(cells, n, x, y) is Some,
    decreases n,
{
    if k < n - 1 {
        lemma_state_in_found(cells, n - 1, k, x, y);
    }
}

/// A position shared among `cells[0..n + 1]` is shared among `cells[0..n]`
/// or is that of `cells[n]`, shared with an earlier one.
proof fn lemma_shared_step<S: CellState>(cells: Seq<Cell<S>>, n: int, p: (int, int))
    requires
        0 <= n < cells.len(),
    ensures
        shared_in(cells, n + 1, p) ==> shared_in(cells, n, p) || (p == (cells[n].x as int, cells[n].y as int) && exists|k: int|
            0 <= k < n && #[trigger] cells[k].x == p.0 && cells[k].y == p.1),
        shared_in(cells, n, p) ==> shared_in(cells, n + 1, p),
{
    if shared_in(cells, n + 1, p) {
        let (a, b) = choose|a: int, b: int|
            0 <= a < b < n + 1 && #[trigger] cells[a].x == p.0 && cells[a].y == p.1 && #[trigger] cells[b].x == p.0
                && cells[b].y == p.1;
        if b < n {
            assert(shared_in(cells, n, p));
        } else {
            assert(cells[a].x == p.0);
        }
    }
    if shared_in(cells, n, p) {
        let (a, b) = choose|a: int, b: int|
            0 <= a < b < n && #[trigger] cells[a].x == p.0 && cells[a].y == p.1 && #[trigger] cells[b].x == p.0
                && cells[b].y == p.1;
        assert(shared_in(cells, n + 1, p));
    }
}

/// The state shown at (`x`, `y`), read from the index of the cells.
fn shown_at<S: CellState>(
    m: &HashMap<i128, S>,
    first_shared: Option<(isize, isize)>,
    x: isize,
    y: isize,
    Ghost(cells): Ghost<Seq<Cell<S>>>,
) -> (s: S)
    requires
        indexes(m@, first_shared, cells, cells.len() as int),
    ensures
        s == shown_state(cells, x as int, y as int),
{
    let past = match first_shared {
        Some(d) => d.1 < y || (d.1 == y && d.0 < x),
        None => false,
    };
    proof {
        let n = cells.len() as int;
        if past {
            let d = first_shared->0;
            assert(shared_in(cells, n, (d.0 as int, d.1 as int)));
        } else {
            assert forall|p: (int, int)| #[trigger] shared_in(cells, n, p) implies !row_before(p, (x as int, y as int)) by {
            }
        }
    }
    if past {
        return S::default_state();
    }
    let key = position_key(x, y);
    assert(m@.contains_key(key) <==> state_in(cells, cells.len() as int, x as int, y as int) is Some);
    match m.get(&key) {
        Some(s) => *s,
        None => S::default_state(),
    }
}

/// A state with its token in run-length encoded text.
pub trait RleState: CellState {
    spec fn spec_token(self) -> Seq<char>;

    /// Appends the token of the state.
    fn push_token(self, out: &mut String)
        ensures
            final(out)@ == old(out)@ + self.spec_token(),
    ;
}

impl RleState for GameOfLifeState {
    open spec fn spec_token(self) -> Seq<char> {
        match self {
            GameOfLifeState::Dead => seq!['b'],
            GameOfLifeState::Live => seq!['o'],
        }
    }

    fn push_token(self, out: &mut String) {
        match self {
            GameOfLifeState::Dead => out.push('b'),
            GameOfLifeState::Live => out.push('o'),
        }
    }
}

/// The token of the state numbered `code` in Golly's JvN29 numbering:
/// `.` for the ground state, a letter `A` to `X`, or `p` and a letter `A`
/// to `D` for the confluent states.
pub open spec fn golly_token(code: u8) -> Seq<char> {
    if code == 0 {
        seq!['.']
    } else if code <= 24 {
        seq![(64 + code) as char]
    } else {
        seq!['p', (40 + code) as char]
    }
}

impl RleState for VonNeumannState {
    open spec fn spec_token(self) -> Seq<char> {
        golly_token(spec_golly_code(self))
    }

    fn push_token(self, out: &mut String) {
        let code = golly_code(self);
        if code == 0 {
            out.push('.');
        } else if code <= 24 {
            out.push(crate::text::char_from_ascii(64 + code as u32));
        } else {
            out.push('p');
            out.push(crate::text::char_from_ascii(40 + code as u32));
        }
    }
}

/// The states shown along row `y` of the bounds `b`.
pub open spec fn row_states<S: CellState>(cells: Seq<Cell<S>>, b: SpecBounds, y: int) -> Seq<S> {
    Seq::new((b.max_x - b.min_x + 1) as nat, |i: int| shown_state(cells, b.min_x + i, y))
}

/// The length of the run of equal states at the end of `t`.
pub open spec fn trailing_run<S>(t: Seq<S>) -> nat
    decreases t.len(),
{
    if t.len() == 0 {
        0
    } else if t.len() == 1 {
        1
    } else if t[t.len() - 2] == t[t.len() - 1] {
        trailing_run(t.drop_last()) + 1
    } else {
        1
    }
}

pub proof fn lemma_trailing_run<S>(t: Seq<S>)
    ensures
        t.len() > 0 ==> 1 <= trailing_run(t) <= t.len(),
        t.len() == 0 ==> trailing_run(t) == 0,
    decreases t.len(),
{
    if t.len() > 1 {
        lemma_trailing_run(t.drop_last());
    }
}

/// The text of a run of `n` cells of state `s`: the count, where more
/// than one, then the token.
pub open spec fn run_text<S: RleState>(s: S, n: nat) -> Seq<char> {
    if n > 1 {
        decimal(n) + s.spec_token()
    } else {
        s.spec_token()
    }
}

/// The run-length encoded text of a sequence of states: each maximal run
/// of equal states as its run text, in order.
pub open spec fn rle_runs<S: RleState>(t: Seq<S>) -> Seq<char>
    decreases t.len(),
{
    if t.len() == 0 {
        seq![]
    } else {
        let k = trailing_run(t);
        proof {
            lemma_trailing_run(t);
        }
        rle_runs(t.take(t.len() - k)) + run_text(t.last(), k)
    }
}

/// The text of a pending run, if there is one.
pub open spec fn pending_text<S: RleState>(pending: Option<S>, run: nat) -> Seq<char> {
    match pending {
        Some(s) => run_text(s, run),
        None => seq![],
    }
}

/// Writes the pending run, if there is one.
fn flush_rle_run<S: RleState>(output: &mut String, pending: &mut Option<S>, run: &mut usize)
    ensures
        final(output)@ == old(output)@ + pending_text(*old(pending), *old(run) as nat),
        *final(pending) == None::<S>,
        *final(run) == if (*old(pending)) is None {
            *old(run)
        } else {
            0
        },
{
    let token = match *pending {
        Some(s) => s,
        None => {
            return;
        },
    };
    *pending = None;
    if *run > 1 {
        push_decimal(output, *run as u128);
    }
    token.push_token(output);
    *run = 0;
}

/// Adds one cell of state `state` to the pending run, or writes the
/// pending run and starts a new one.
fn push_rle_run<S: RleState>(output: &mut String, pending: &mut Option<S>, run: &mut usize, state: S)
    requires
        *old(run) < usize::MAX,
    ensures
        if *old(pending) == Some(state) {
            &&& final(output)@ == old(output)@
            &&& *final(run) == *old(run) + 1
        } else {
            &&& final(output)@ == old(output)@ + pending_text(*old(pending), *old(run) as nat)
            &&& *final(run) == 1
        },
        *final(pending) == Some(state),
{
    let same = match *pending {
        Some(p) => crate::cell::same_state(p, state),
        None => false,
    };
    if same {
        *run = *run + 1;
    } else {
        flush_rle_run(output, pending, run);
        *pending = Some(state);
        *run = 1;
    }
}

/// The bounds as integers.
spec fn spec_of(b: Bounds) -> SpecBounds {
    SpecBounds { min_x: b.min_x as int, max_x: b.max_x as int, min_y: b.min_y as int, max_y: b.max_y as int }
}

/// Appends the run-length encoded text of row `y` of the bounds `b`.
#[verifier::rlimit(30)]
fn encode_row<S: RleState>(
    output: &mut String,
    m: &HashMap<i128, S>,
    first_shared: Option<(isize, isize)>,
    b: Bounds,
    y: isize,
    Ghost(cells): Ghost<Seq<Cell<S>>>,
)
    requires
        indexes(m@, first_shared, cells, cells.len() as int),
        b.min_x <= b.max_x,
        b.max_x - b.min_x < isize::MAX,
    ensures
        final(output)@ == old(output)@ + rle_runs(row_states(cells, spec_of(b), y as int)),
{
    let ghost row = row_states(cells, spec_of(b), y as int);
    let ghost start = output@;
    let mut pending: Option<S> = None;
    let mut run: usize = 0;
    let mut x = b.min_x;
    loop
        invariant_except_break
            b.min_x <= x <= b.max_x,
            run as nat == trailing_run(row.take(x - b.min_x)),
            run <= x - b.min_x,
            output@ == start + rle_runs(row.take(x - b.min_x - run)),
            pending == if x == b.min_x {
                None::<S>
            } else {
                Some(row[x - b.min_x - 1])
            },
        invariant
            indexes(m@, first_shared, cells, cells.len() as int),
            b.min_x <= b.max_x,
            b.max_x - b.min_x < isize::MAX,
            row == row_states(cells, spec_of(b), y as int),
            start == old(output)@,
        ensures
            x == b.max_x,
            run as nat == trailing_run(row.take(x - b.min_x + 1)),
            1 <= run <= x - b.min_x + 1,
            output@ == start + rle_runs(row.take(x - b.min_x + 1 - run)),
            pending == Some(row[x - b.min_x]),
        decreases b.max_x - x,
    {
        let ghost i = x - b.min_x;
        let state = shown_at(m, first_shared, x, y, Ghost(cells));
        assert(state == row[i]);
        let ghost old_pending = pending;
        let ghost old_run = run;
        let ghost old_out = output@;
        push_rle_run(output, &mut pending, &mut run, state);
        proof {
            let t = row.take(i + 1);
            assert(t.drop_last() =~= row.take(i));
            lemma_trailing_run(row.take(i));
            if old_pending == Some(state) {
                assert(t[t.len() - 2] == t[t.len() - 1]);
                assert(i + 1 - run == i - old_run);
            } else {
                if i > 0 {
                    let u = row.take(i);
                    assert(u.take(u.len() - old_run) =~= row.take(i - old_run));
                    assert(u.last() == row[i - 1]);
                    assert(output@ =~= start + rle_runs(row.take(i)));
                } else {
                    assert(row.take(0) =~= Seq::<S>::empty());
                }
            }
        }
        if x == b.max_x {
            break;
        }
        x = x + 1;
    }
    let ghost w = b.max_x - b.min_x + 1;
    let ghost before_run = run;
    flush_rle_run(output, &mut pending, &mut run);
    proof {
        let u = row.take(w);
        assert(u =~= row);
        assert(u.take(u.len() - before_run) =~= row.take(w - before_run));
    }
}

/// The text of the first `n` rows of the bounds `b`, separated by `$`.
pub open spec fn rows_text<S: RleState>(cells: Seq<Cell<S>>, b: SpecBounds, n: int) -> Seq<char>
    decreases n,
{
    if n <= 0 {
        seq![]
    } else if n == 1 {
        rle_runs(row_states(cells, b, b.min_y))
    } else {
        rows_text(cells, b, n - 1) + seq!['$'] + rle_runs(row_states(cells, b, b.min_y + n - 1))
    }
}

/// The run-length encoded text of the cells within the bounds `b`: the
/// rows from top to bottom, separated by `$`, and the terminator `!`.
pub open spec fn rle_text<S: RleState>(cells: Seq<Cell<S>>, b: SpecBounds) -> Seq<char> {
    rows_text(cells, b, b.max_y - b.min_y + 1) + seq!['!']
}

/// The lines gathered from the first `n` characters of `t`, and the line
/// begun: a line ends after a `$`, a `!`, or its eightieth character.
pub open spec fn split_state(t: Seq<char>, n: int) -> (Seq<Seq<char>>, Seq<char>)
    decreases n,
{
    if n <= 0 {
        (seq![], seq![])
    } else {
        let (lines, current) = split_state(t, n - 1);
        let c = t[n - 1];
        let line = current.push(c);
        if line.len() >= RLE_LINE_LENGTH || c == '$' || c == '!' {
            (lines.push(line), seq![])
        } else {
            (lines, line)
        }
    }
}

/// The lines of run-length encoded text `t`, as a document holds them.
pub open spec fn split_rle_lines(t: Seq<char>) -> Seq<Seq<char>> {
    let (lines, current) = split_state(t, t.len() as int);
    if current.len() > 0 {
        lines.push(current)
    } else {
        lines
    }
}

/// Splits run-length encoded text into lines.
fn split_lines(text: &[char]) -> (r: Vec<String>)
    ensures
        texts(r@) == split_rle_lines(text@),
{
    let mut lines: Vec<String> = Vec::new();
    let mut current = String::new();
    let mut length: usize = 0;
    let mut i: usize = 0;
    while i < text.len()
        invariant
            i <= text@.len(),
            texts(lines@) == split_state(text@, i as int).0,
            current@ == split_state(text@, i as int).1,
            length == current@.len(),
            length < RLE_LINE_LENGTH,
        decreases text@.len() - i,
    {
        let c = text[i];
        current.push(c);
        length = length + 1;
        if length >= RLE_LINE_LENGTH || c == '$' || c == '!' {
            let line = current;
            let ghost before = texts(lines@);
            lines.push(line);
            assert(texts(lines@) =~= before.push(line@));
            current = String::new();
            length = 0;
        }
        i = i + 1;
    }
    if length > 0 {
        let ghost before = texts(lines@);
        lines.push(current);
        assert(texts(lines@) =~= before.push(split_state(text@, text@.len() as int).1));
    }
    lines
}

/// The run-length encoded text of the cells within the bounds `b`.
fn encode_cells<S: RleState>(cells: &[Cell<S>], b: Bounds) -> (r: String)
    requires
        b.min_x <= b.max_x,
        b.min_y <= b.max_y,
        b.max_x - b.min_x < isize::MAX,
    ensures
        r@ == rle_text(cells@, spec_of(b)),
{
    let (m, first_shared) = index_cells(cells);
    let mut output = String::new();
    let mut y = b.min_y;
    loop
        invariant_except_break
            output@ == rows_text(cells@, spec_of(b), y - b.min_y) + if y > b.min_y {
                seq!['$']
            } else {
                Seq::<char>::empty()
            },
        invariant
            b.min_y <= y <= b.max_y,
            b.min_x <= b.max_x,
            b.max_x - b.min_x < isize::MAX,
            indexes(m@, first_shared, cells@, cells@.len() as int),
        ensures
            y == b.max_y,
            output@ == rows_text(cells@, spec_of(b), y - b.min_y + 1),
        decreases b.max_y - y,
    {
        let ghost before = output@;
        encode_row(&mut output, &m, first_shared, b, y, Ghost(cells@));
        assert(output@ =~= rows_text(cells@, spec_of(b), y - b.min_y + 1));
        if y == b.max_y {
            break;
        }
        output.push('$');
        y = y + 1;
    }
    output.push('!');
    output
}

/// `r` is the run-length encoded pattern of the cells: empty cells give
/// an empty pattern; otherwise the pattern of their bounding box, unless
/// its width or height does not fit an `isize`.
pub open spec fn builds_pattern<S: RleState>(cells: Seq<Cell<S>>, r: Result<RlePattern, VnsError>) -> bool {
    if cells.len() == 0 {
        r matches Ok(p) && p.encoding@ == "rle"@ && p.origin == (Coordinate { x: 0, y: 0 }) && p.size == (
        PatternSize { width: 0, height: 0 }) && texts(p.lines@) == seq!["!"@]
    } else {
        let b = spec_bounds(cells, cells.len() as int);
        if b.max_x - b.min_x + 1 > isize::MAX {
            fails_with(r, "pattern width overflow"@)
        } else if b.max_y - b.min_y + 1 > isize::MAX {
            fails_with(r, "pattern height overflow"@)
        } else {
            r matches Ok(p) && p.encoding@ == "rle"@ && p.origin == (Coordinate {
                x: b.min_x as isize,
                y: b.min_y as isize,
            }) && p.size == (PatternSize {
                width: (b.max_x - b.min_x + 1) as usize,
                height: (b.max_y - b.min_y + 1) as usize,
            }) && texts(p.lines@) == split_rle_lines(rle_text(cells, b))
        }
    }
}

/// The cells as the run-length encoded pattern of a document.
fn build_rle_pattern<S: RleState>(cells: &[Cell<S>]) -> (r: Result<RlePattern, VnsError>)
    ensures
        builds_pattern(cells@, r),
{
    let b = match bounds(cells) {
        Some(b) => b,
        None => {
            let mut lines: Vec<String> = Vec::new();
            lines.push(string_from_str("!"));
            assert(texts(lines@) =~= seq!["!"@]);
            return Ok(
                RlePattern {
                    encoding: string_from_str("rle"),
                    origin: Coordinate { x: 0, y: 0 },
                    size: PatternSize { width: 0, height: 0 },
                    lines,
                },
            );
        },
    };
    proof {
        lemma_bounds(cells@, cells@.len() as int);
    }
    let width = (b.max_x as i128) - (b.min_x as i128) + 1;
    if width > isize::MAX as i128 {
        return Err(parse_failure(string_from_str("pattern width overflow")));
    }
    let height = (b.max_y as i128) - (b.min_y as i128) + 1;
    if height > isize::MAX as i128 {
        return Err(parse_failure(string_from_str("pattern height overflow")));
    }
    let text = encode_cells(cells, b);
    let chars = chars_of_string(&text);
    let lines = split_lines(chars.as_slice());
    Ok(
        RlePattern {
            encoding: string_from_str("rle"),
            origin: Coordinate { x: b.min_x, y: b.min_y },
            size: PatternSize { width: width as usize, height: height as usize },
            lines,
        },
    )
}

/// The points of `coords` come in increasing order of column, then of
/// row (so each once).
pub open spec fn points_increasing(coords: Seq<Coordinate>) -> bool {
    forall|i: int, j: int|
        0 <= i < j < coords.len() ==> #[trigger] coords[i].x < #[trigger] coords[j].x || (coords[i].x == coords[j].x
            && coords[i].y < coords[j].y)
}

/// A sequence of pairs that an ordered set hands out is increasing.
proof fn lemma_increasing_pairs(s: Seq<&(isize, isize)>)
    requires
        vstd::std_specs::btree::increasing_seq(s),
    ensures
        forall|i: int, j: int|
            0 <= i < j < s.len() ==> #[trigger] s[i].0 < #[trigger] s[j].0 || (s[i].0 == s[j].0 && s[i].1 < s[j].1),
{
    broadcast use vstd::std_specs::btree::axiom_increasing_seq_meaning, vstd::laws_cmp::group_laws_cmp;

    lemma_pairs_ordered();
    assert forall|i: int, j: int| 0 <= i < j < s.len() implies #[trigger] s[i].0 < #[trigger] s[j].0 || (s[i].0
        == s[j].0 && s[i].1 < s[j].1) by {
        assert(vstd::std_specs::cmp::OrdSpec::cmp_spec(&s[i], &s[j]) is Less);
    }
}

/// The points of an ordered set, in increasing order.
pub(crate) fn ordered_points(points: &BTreeSet<(isize, isize)>) -> (r: Vec<Coordinate>)
    ensures
        point_set(r@) == points@,
        points_increasing(r@),
{
    broadcast use vstd::std_specs::btree::group_btree_axioms;

    proof {
        lemma_pairs_ordered();
    }
    let ghost keys = vstd::std_specs::iter::IteratorSpec::remaining(
        &vstd::std_specs::btree::spec_btree_keys_iter(points),
    );
    let mut r: Vec<Coordinate> = Vec::new();
    for p in it: points.iter()
        invariant
            it.seq() == keys,
            r@.len() == it.index(),
            forall|k: int| 0 <= k < it.index() ==> #[trigger] r@[k] == (Coordinate { x: keys[k].0, y: keys[k].1 }),
    {
        r.push(Coordinate { x: p.0, y: p.1 });
    }
    proof {
        let s = keys.unref();
        lemma_increasing_pairs(keys);
        assert forall|q: (isize, isize)| #[trigger] point_set(r@).contains(q) == points@.contains(q) by {
            if point_set(r@).contains(q) {
                let k = choose|k: int| 0 <= k < r@.len() && (#[trigger] r@[k]).x == q.0 && r@[k].y == q.1;
                assert(s[k] == q);
                assert(s.to_set().contains(q));
            }
            if points@.contains(q) {
                assert(s.to_set().contains(q));
                let k = choose|k: int| 0 <= k < s.len() && #[trigger] s[k] == q;
                assert(r@[k].x == q.0 && r@[k].y == q.1);
            }
        }
        assert(point_set(r@) =~= points@);
        assert forall|i: int, j: int| 0 <= i < j < r@.len() implies #[trigger] r@[i].x < #[trigger] r@[j].x || (
        r@[i].x == r@[j].x && r@[i].y < r@[j].y) by {
            assert(s[i] == *keys[i]);
            assert(s[j] == *keys[j]);
        }
    }
    r
}

/// `r` is the document of the cells, for the ruleset, with the given
/// breakpoints, stages and overlays: the format and version of this
/// module, the cells as run-length encoded text, and the breakpoints in
/// increasing order; or the error of encoding the cells.
pub open spec fn documents<S: RleState>(
    cells: Seq<Cell<S>>,
    r: Result<VnsDocument, VnsError>,
    ruleset: Ruleset,
    breakpoints: Set<(isize, isize)>,
    stages: Vec<Stage>,
    overlays: Vec<Overlay>,
) -> bool {
    match r {
        Err(e) => builds_pattern(cells, Err(e)),
        Ok(d) => {
            &&& builds_pattern(cells, Ok(d.pattern))
            &&& d.format@ == "vnstudio.pattern"@
            &&& d.version == FORMAT_VERSION
            &&& d.ruleset@ == ruleset.spec_name()
            &&& point_set(d.extra.breakpoints@) == breakpoints
            &&& points_increasing(d.extra.breakpoints@)
            &&& d.extra.stages == stages
            &&& d.extra.overlays == overlays
        },
    }
}

/// The document of a pattern with the studio's extra state, once its
/// overlays are checked.
pub fn build_vns_document(
    cells: PatternCells,
    breakpoints: &BTreeSet<(isize, isize)>,
    stages: Vec<Stage>,
    overlays: Vec<Overlay>,
) -> (r: Result<VnsDocument, VnsError>)
    ensures
        overlays_error(overlays@, 0) matches Some(m) ==> fails_with(r, m),
        overlays_error(overlays@, 0) is None ==> match cells {
            PatternCells::JvN29(c) => documents(c@, r, Ruleset::JvN29, breakpoints@, stages, overlays),
            PatternCells::GameOfLife(c) => documents(c@, r, Ruleset::GameOfLife, breakpoints@, stages, overlays),
        },
{
    match validate_overlays(overlays.as_slice()) {
        Err(e) => {
            return Err(e);
        },
        Ok(()) => {},
    }
    let ruleset = cells.ruleset();
    let pattern = match &cells {
        PatternCells::JvN29(c) => build_rle_pattern(c.as_slice()),
        PatternCells::GameOfLife(c) => build_rle_pattern(c.as_slice()),
    };
    let pattern = match pattern {
        Ok(p) => p,
        Err(e) => {
            return Err(e);
        },
    };
    let points = ordered_points(breakpoints);
    Ok(
        VnsDocument {
            format: string_from_str("vnstudio.pattern"),
            version: FORMAT_VERSION,
            ruleset: string_from_str(ruleset.as_str()),
            pattern,
            extra: ExtraState { breakpoints: points, stages, overlays },
        },
    )
}

} // verus!
