//! John von Neumann's 29-state cellular automaton (JvN29).
use vstd::prelude::*;

use crate::automaton::CellularAutomaton;
use crate::cell::{default_cells, CellNeighborhood};
use crate::rule_lut::{power, radix_from, spec_radix, spec_table_size};

use crate::cell::{CellState, CellStateVisuals, LIVE_GLYPH_SVG, CellRuleEvaluator, CellularAutomataConfig, VonNeumannNeighborhood};

verus! {

/// The 29 states of von Neumann's automaton, numbered in declaration order.
#[derive(Debug, Default, Clone, Copy, PartialEq, Eq, Structural)]
pub enum VonNeumannState {
    /// The default, empty state.
    #[default]
    Ground,
    Sensitized,
    Sensitized0,
    Sensitized00,
    Sensitized000,
    Sensitized01,
    Sensitized1,
    Sensitized10,
    Sensitized11,
    Confluent00,
    Confluent01,
    Confluent10,
    Confluent11,
    TransmissionExcitedUp,
    TransmissionExcitedDown,
    TransmissionExcitedLeft,
    TransmissionExcitedRight,
    TransmissionQuiescentUp,
    TransmissionQuiescentDown,
    TransmissionQuiescentLeft,
    TransmissionQuiescentRight,
    SpecialTransmissionExcitedUp,
    SpecialTransmissionExcitedDown,
    SpecialTransmissionExcitedLeft,
    SpecialTransmissionExcitedRight,
    SpecialTransmissionQuiescentUp,
    SpecialTransmissionQuiescentDown,
    SpecialTransmissionQuiescentLeft,
    SpecialTransmissionQuiescentRight,
}

impl VonNeumannState {
    pub open spec fn spec_code_of(self) -> u8 {
        match self {
            VonNeumannState::Ground => 0,
            VonNeumannState::Sensitized => 1,
            VonNeumannState::Sensitized0 => 2,
            VonNeumannState::Sensitized00 => 3,
            VonNeumannState::Sensitized000 => 4,
            VonNeumannState::Sensitized01 => 5,
            VonNeumannState::Sensitized1 => 6,
            VonNeumannState::Sensitized10 => 7,
            VonNeumannState::Sensitized11 => 8,
            VonNeumannState::Confluent00 => 9,
            VonNeumannState::Confluent01 => 10,
            VonNeumannState::Confluent10 => 11,
            VonNeumannState::Confluent11 => 12,
            VonNeumannState::TransmissionExcitedUp => 13,
            VonNeumannState::TransmissionExcitedDown => 14,
            VonNeumannState::TransmissionExcitedLeft => 15,
            VonNeumannState::TransmissionExcitedRight => 16,
            VonNeumannState::TransmissionQuiescentUp => 17,
            VonNeumannState::TransmissionQuiescentDown => 18,
            VonNeumannState::TransmissionQuiescentLeft => 19,
            VonNeumannState::TransmissionQuiescentRight => 20,
            VonNeumannState::SpecialTransmissionExcitedUp => 21,
            VonNeumannState::SpecialTransmissionExcitedDown => 22,
            VonNeumannState::SpecialTransmissionExcitedLeft => 23,
            VonNeumannState::SpecialTransmissionExcitedRight => 24,
            VonNeumannState::SpecialTransmissionQuiescentUp => 25,
            VonNeumannState::SpecialTransmissionQuiescentDown => 26,
            VonNeumannState::SpecialTransmissionQuiescentLeft => 27,
            VonNeumannState::SpecialTransmissionQuiescentRight => 28,
        }
    }

    pub open spec fn spec_state_of(code: u8) -> Option<VonNeumannState> {
        match code {
            0 => Some(VonNeumannState::Ground),
            1 => Some(VonNeumannState::Sensitized),
            2 => Some(VonNeumannState::Sensitized0),
            3 => Some(VonNeumannState::Sensitized00),
            4 => Some(VonNeumannState::Sensitized000),
            5 => Some(VonNeumannState::Sensitized01),
            6 => Some(VonNeumannState::Sensitized1),
            7 => Some(VonNeumannState::Sensitized10),
            8 => Some(VonNeumannState::Sensitized11),
            9 => Some(VonNeumannState::Confluent00),
            10 => Some(VonNeumannState::Confluent01),
            11 => Some(VonNeumannState::Confluent10),
            12 => Some(VonNeumannState::Confluent11),
            13 => Some(VonNeumannState::TransmissionExcitedUp),
            14 => Some(VonNeumannState::TransmissionExcitedDown),
            15 => Some(VonNeumannState::TransmissionExcitedLeft),
            16 => Some(VonNeumannState::TransmissionExcitedRight),
            17 => Some(VonNeumannState::TransmissionQuiescentUp),
            18 => Some(VonNeumannState::TransmissionQuiescentDown),
            19 => Some(VonNeumannState::TransmissionQuiescentLeft),
            20 => Some(VonNeumannState::TransmissionQuiescentRight),
            21 => Some(VonNeumannState::SpecialTransmissionExcitedUp),
            22 => Some(VonNeumannState::SpecialTransmissionExcitedDown),
            23 => Some(VonNeumannState::SpecialTransmissionExcitedLeft),
            24 => Some(VonNeumannState::SpecialTransmissionExcitedRight),
            25 => Some(VonNeumannState::SpecialTransmissionQuiescentUp),
            26 => Some(VonNeumannState::SpecialTransmissionQuiescentDown),
            27 => Some(VonNeumannState::SpecialTransmissionQuiescentLeft),
            28 => Some(VonNeumannState::SpecialTransmissionQuiescentRight),
            _ => None,
        }
    }

    /// The two-character text that shows the state.
    pub open spec fn spec_display_str(self) -> &'static str {
        match self {
            VonNeumannState::Ground => "__",
            VonNeumannState::Sensitized => "S_",
            VonNeumannState::Sensitized0 => "S0",
            VonNeumannState::Sensitized00 => "00",
            VonNeumannState::Sensitized000 => "OO",
            VonNeumannState::Sensitized01 => "01",
            VonNeumannState::Sensitized1 => "S1",
            VonNeumannState::Sensitized10 => "10",
            VonNeumannState::Sensitized11 => "11",
            VonNeumannState::Confluent00 => "C0",
            VonNeumannState::Confluent01 => "C1",
            VonNeumannState::Confluent10 => "C2",
            VonNeumannState::Confluent11 => "C3",
            VonNeumannState::TransmissionExcitedUp => "^^",
            VonNeumannState::TransmissionExcitedDown => "vv",
            VonNeumannState::TransmissionExcitedLeft => "<<",
            VonNeumannState::TransmissionExcitedRight => ">>",
            VonNeumannState::TransmissionQuiescentUp => "^_",
            VonNeumannState::TransmissionQuiescentDown => "v_",
            VonNeumannState::TransmissionQuiescentLeft => "<_",
            VonNeumannState::TransmissionQuiescentRight => ">_",
            VonNeumannState::SpecialTransmissionExcitedUp => "^!",
            VonNeumannState::SpecialTransmissionExcitedDown => "v!",
            VonNeumannState::SpecialTransmissionExcitedLeft => "<!",
            VonNeumannState::SpecialTransmissionExcitedRight => ">!",
            VonNeumannState::SpecialTransmissionQuiescentUp => "!^",
            VonNeumannState::SpecialTransmissionQuiescentDown => "!v",
            VonNeumannState::SpecialTransmissionQuiescentLeft => "!<",
            VonNeumannState::SpecialTransmissionQuiescentRight => "!>",
        }
    }

    /// The two-character text that shows the state.
    pub fn display_str(self) -> (r: &'static str)
        ensures
            r == self.spec_display_str(),
    {
        match self {
            VonNeumannState::Ground => "__",
            VonNeumannState::Sensitized => "S_",
            VonNeumannState::Sensitized0 => "S0",
            VonNeumannState::Sensitized00 => "00",
            VonNeumannState::Sensitized000 => "OO",
            VonNeumannState::Sensitized01 => "01",
            VonNeumannState::Sensitized1 => "S1",
            VonNeumannState::Sensitized10 => "10",
            VonNeumannState::Sensitized11 => "11",
            VonNeumannState::Confluent00 => "C0",
            VonNeumannState::Confluent01 => "C1",
            VonNeumannState::Confluent10 => "C2",
            VonNeumannState::Confluent11 => "C3",
            VonNeumannState::TransmissionExcitedUp => "^^",
            VonNeumannState::TransmissionExcitedDown => "vv",
            VonNeumannState::TransmissionExcitedLeft => "<<",
            VonNeumannState::TransmissionExcitedRight => ">>",
            VonNeumannState::TransmissionQuiescentUp => "^_",
            VonNeumannState::TransmissionQuiescentDown => "v_",
            VonNeumannState::TransmissionQuiescentLeft => "<_",
            VonNeumannState::TransmissionQuiescentRight => ">_",
            VonNeumannState::SpecialTransmissionExcitedUp => "^!",
            VonNeumannState::SpecialTransmissionExcitedDown => "v!",
            VonNeumannState::SpecialTransmissionExcitedLeft => "<!",
            VonNeumannState::SpecialTransmissionExcitedRight => ">!",
            VonNeumannState::SpecialTransmissionQuiescentUp => "!^",
            VonNeumannState::SpecialTransmissionQuiescentDown => "!v",
            VonNeumannState::SpecialTransmissionQuiescentLeft => "!<",
            VonNeumannState::SpecialTransmissionQuiescentRight => "!>",
        }
    }
}

impl CellState for VonNeumannState {
    open spec fn spec_count() -> nat {
        29
    }

    open spec fn spec_code(self) -> u8 {
        self.spec_code_of()
    }

    open spec fn spec_from_code(code: u8) -> Option<Self> {
        Self::spec_state_of(code)
    }

    open spec fn spec_default() -> Self {
        VonNeumannState::Ground
    }

    proof fn lemma_code_round_trip(s: Self) {
    }

    proof fn lemma_from_code(code: u8) {
    }

    proof fn lemma_count_and_default() {
    }

    fn count() -> (n: usize) {
        29
    }

    fn code(self) -> (c: u8) {
        match self {
            VonNeumannState::Ground => 0,
            VonNeumannState::Sensitized => 1,
            VonNeumannState::Sensitized0 => 2,
            VonNeumannState::Sensitized00 => 3,
            VonNeumannState::Sensitized000 => 4,
            VonNeumannState::Sensitized01 => 5,
            VonNeumannState::Sensitized1 => 6,
            VonNeumannState::Sensitized10 => 7,
            VonNeumannState::Sensitized11 => 8,
            VonNeumannState::Confluent00 => 9,
            VonNeumannState::Confluent01 => 10,
            VonNeumannState::Confluent10 => 11,
            VonNeumannState::Confluent11 => 12,
            VonNeumannState::TransmissionExcitedUp => 13,
            VonNeumannState::TransmissionExcitedDown => 14,
            VonNeumannState::TransmissionExcitedLeft => 15,
            VonNeumannState::TransmissionExcitedRight => 16,
            VonNeumannState::TransmissionQuiescentUp => 17,
            VonNeumannState::TransmissionQuiescentDown => 18,
            VonNeumannState::TransmissionQuiescentLeft => 19,
            VonNeumannState::TransmissionQuiescentRight => 20,
            VonNeumannState::SpecialTransmissionExcitedUp => 21,
            VonNeumannState::SpecialTransmissionExcitedDown => 22,
            VonNeumannState::SpecialTransmissionExcitedLeft => 23,
            VonNeumannState::SpecialTransmissionExcitedRight => 24,
            VonNeumannState::SpecialTransmissionQuiescentUp => 25,
            VonNeumannState::SpecialTransmissionQuiescentDown => 26,
            VonNeumannState::SpecialTransmissionQuiescentLeft => 27,
            VonNeumannState::SpecialTransmissionQuiescentRight => 28,
        }
    }

    fn from_code(code: u8) -> (r: Option<Self>) {
        match code {
            0 => Some(VonNeumannState::Ground),
            1 => Some(VonNeumannState::Sensitized),
            2 => Some(VonNeumannState::Sensitized0),
            3 => Some(VonNeumannState::Sensitized00),
            4 => Some(VonNeumannState::Sensitized000),
            5 => Some(VonNeumannState::Sensitized01),
            6 => Some(VonNeumannState::Sensitized1),
            7 => Some(VonNeumannState::Sensitized10),
            8 => Some(VonNeumannState::Sensitized11),
            9 => Some(VonNeumannState::Confluent00),
            10 => Some(VonNeumannState::Confluent01),
            11 => Some(VonNeumannState::Confluent10),
            12 => Some(VonNeumannState::Confluent11),
            13 => Some(VonNeumannState::TransmissionExcitedUp),
            14 => Some(VonNeumannState::TransmissionExcitedDown),
            15 => Some(VonNeumannState::TransmissionExcitedLeft),
            16 => Some(VonNeumannState::TransmissionExcitedRight),
            17 => Some(VonNeumannState::TransmissionQuiescentUp),
            18 => Some(VonNeumannState::TransmissionQuiescentDown),
            19 => Some(VonNeumannState::TransmissionQuiescentLeft),
            20 => Some(VonNeumannState::TransmissionQuiescentRight),
            21 => Some(VonNeumannState::SpecialTransmissionExcitedUp),
            22 => Some(VonNeumannState::SpecialTransmissionExcitedDown),
            23 => Some(VonNeumannState::SpecialTransmissionExcitedLeft),
            24 => Some(VonNeumannState::SpecialTransmissionExcitedRight),
            25 => Some(VonNeumannState::SpecialTransmissionQuiescentUp),
            26 => Some(VonNeumannState::SpecialTransmissionQuiescentDown),
            27 => Some(VonNeumannState::SpecialTransmissionQuiescentLeft),
            28 => Some(VonNeumannState::SpecialTransmissionQuiescentRight),
            _ => None,
        }
    }

    fn default_state() -> (s: Self) {
        VonNeumannState::Ground
    }
}

impl CellStateVisuals for VonNeumannState {
    open spec fn spec_glyph_svg(self) -> Option<&'static str> {
        if self == VonNeumannState::Ground {
            None
        } else {
            Some(LIVE_GLYPH_SVG)
        }
    }

    fn glyph_svg(self) -> (r: Option<&'static str>) {
        match self {
            VonNeumannState::Ground => None,
            _ => Some(LIVE_GLYPH_SVG),
        }
    }

    open spec fn spec_pixel_color(self) -> Option<[u8; 3]> {
        match self {
            VonNeumannState::Ground => None,
            _ => Some([32, 33, 36]),
        }
    }

    fn pixel_color(self) -> (r: Option<[u8; 3]>) {
        match self {
            VonNeumannState::Ground => None,
            _ => Some([32, 33, 36]),
        }
    }
}

/// The direction a transmission state points to.
#[derive(Debug, Clone, Copy, PartialEq, Eq, Structural)]
pub enum Direction {
    Up,
    Down,
    Left,
    Right,
}

impl Direction {
    pub open spec fn spec_invert(self) -> Direction {
        match self {
            Direction::Up => Direction::Down,
            Direction::Down => Direction::Up,
            Direction::Left => Direction::Right,
            Direction::Right => Direction::Left,
        }
    }

    /// The opposite direction.
    pub fn invert(self) -> (r: Direction)
        ensures
            r == self.spec_invert(),
    {
        match self {
            Direction::Up => Direction::Down,
            Direction::Down => Direction::Up,
            Direction::Left => Direction::Right,
            Direction::Right => Direction::Left,
        }
    }
}

/// Inverting a direction twice gives it back, and never gives it unchanged.
pub proof fn lemma_invert_involution(d: Direction)
    ensures
        d.spec_invert().spec_invert() == d,
        d.spec_invert() != d,
{
}

/// Ordinary or special transmission.
#[derive(Debug, Clone, Copy, PartialEq, Eq, Structural)]
pub enum TransmissionKind {
    Normal,
    Special,
}

/// Whether a transmission state carries a signal.
#[derive(Debug, Clone, Copy, PartialEq, Eq, Structural)]
pub enum TransmissionState {
    Quiescent,
    Excited,
}

/// The kind, excitation and direction of a transmission state.
pub open spec fn spec_decode_transmission(s: VonNeumannState) -> Option<
    (TransmissionKind, TransmissionState, Direction),
> {
    match s {
        VonNeumannState::TransmissionExcitedUp => Some((TransmissionKind::Normal, TransmissionState::Excited, Direction::Up)),
        VonNeumannState::TransmissionExcitedDown => Some((TransmissionKind::Normal, TransmissionState::Excited, Direction::Down)),
        VonNeumannState::TransmissionExcitedLeft => Some((TransmissionKind::Normal, TransmissionState::Excited, Direction::Left)),
        VonNeumannState::TransmissionExcitedRight => Some((TransmissionKind::Normal, TransmissionState::Excited, Direction::Right)),
        VonNeumannState::TransmissionQuiescentUp => Some((TransmissionKind::Normal, TransmissionState::Quiescent, Direction::Up)),
        VonNeumannState::TransmissionQuiescentDown => Some((TransmissionKind::Normal, TransmissionState::Quiescent, Direction::Down)),
        VonNeumannState::TransmissionQuiescentLeft => Some((TransmissionKind::Normal, TransmissionState::Quiescent, Direction::Left)),
        VonNeumannState::TransmissionQuiescentRight => Some((TransmissionKind::Normal, TransmissionState::Quiescent, Direction::Right)),
        VonNeumannState::SpecialTransmissionExcitedUp => Some((TransmissionKind::Special, TransmissionState::Excited, Direction::Up)),
        VonNeumannState::SpecialTransmissionExcitedDown => Some((TransmissionKind::Special, TransmissionState::Excited, Direction::Down)),
        VonNeumannState::SpecialTransmissionExcitedLeft => Some((TransmissionKind::Special, TransmissionState::Excited, Direction::Left)),
        VonNeumannState::SpecialTransmissionExcitedRight => Some((TransmissionKind::Special, TransmissionState::Excited, Direction::Right)),
        VonNeumannState::SpecialTransmissionQuiescentUp => Some((TransmissionKind::Special, TransmissionState::Quiescent, Direction::Up)),
        VonNeumannState::SpecialTransmissionQuiescentDown => Some((TransmissionKind::Special, TransmissionState::Quiescent, Direction::Down)),
        VonNeumannState::SpecialTransmissionQuiescentLeft => Some((TransmissionKind::Special, TransmissionState::Quiescent, Direction::Left)),
        VonNeumannState::SpecialTransmissionQuiescentRight => Some((TransmissionKind::Special, TransmissionState::Quiescent, Direction::Right)),
        _ => None,
    }
}

/// The transmission state with the given kind, excitation and direction.
pub open spec fn spec_encode_transmission(
    kind: TransmissionKind,
    state: TransmissionState,
    direction: Direction,
) -> VonNeumannState {
    match (kind, state, direction) {
        (TransmissionKind::Normal, TransmissionState::Excited, Direction::Up) => VonNeumannState::TransmissionExcitedUp,
        (TransmissionKind::Normal, TransmissionState::Excited, Direction::Down) => VonNeumannState::TransmissionExcitedDown,
        (TransmissionKind::Normal, TransmissionState::Excited, Direction::Left) => VonNeumannState::TransmissionExcitedLeft,
        (TransmissionKind::Normal, TransmissionState::Excited, Direction::Right) => VonNeumannState::TransmissionExcitedRight,
        (TransmissionKind::Normal, TransmissionState::Quiescent, Direction::Up) => VonNeumannState::TransmissionQuiescentUp,
        (TransmissionKind::Normal, TransmissionState::Quiescent, Direction::Down) => VonNeumannState::TransmissionQuiescentDown,
        (TransmissionKind::Normal, TransmissionState::Quiescent, Direction::Left) => VonNeumannState::TransmissionQuiescentLeft,
        (TransmissionKind::Normal, TransmissionState::Quiescent, Direction::Right) => VonNeumannState::TransmissionQuiescentRight,
        (TransmissionKind::Special, TransmissionState::Excited, Direction::Up) => VonNeumannState::SpecialTransmissionExcitedUp,
        (TransmissionKind::Special, TransmissionState::Excited, Direction::Down) => VonNeumannState::SpecialTransmissionExcitedDown,
        (TransmissionKind::Special, TransmissionState::Excited, Direction::Left) => VonNeumannState::SpecialTransmissionExcitedLeft,
        (TransmissionKind::Special, TransmissionState::Excited, Direction::Right) => VonNeumannState::SpecialTransmissionExcitedRight,
        (TransmissionKind::Special, TransmissionState::Quiescent, Direction::Up) => VonNeumannState::SpecialTransmissionQuiescentUp,
        (TransmissionKind::Special, TransmissionState::Quiescent, Direction::Down) => VonNeumannState::SpecialTransmissionQuiescentDown,
        (TransmissionKind::Special, TransmissionState::Quiescent, Direction::Left) => VonNeumannState::SpecialTransmissionQuiescentLeft,
        (TransmissionKind::Special, TransmissionState::Quiescent, Direction::Right) => VonNeumannState::SpecialTransmissionQuiescentRight,
    }
}

/// The two flags of a confluent state: excited now, excited next.
pub open spec fn spec_decode_confluent(s: VonNeumannState) -> Option<(bool, bool)> {
    match s {
        VonNeumannState::Confluent00 => Some((false, false)),
        VonNeumannState::Confluent01 => Some((false, true)),
        VonNeumannState::Confluent10 => Some((true, false)),
        VonNeumannState::Confluent11 => Some((true, true)),
        _ => None,
    }
}

/// The confluent state with the given flags.
pub open spec fn spec_encode_confluent(is_excited: bool, will_be_excited: bool) -> VonNeumannState {
    match (is_excited, will_be_excited) {
        (false, false) => VonNeumannState::Confluent00,
        (false, true) => VonNeumannState::Confluent01,
        (true, false) => VonNeumannState::Confluent10,
        (true, true) => VonNeumannState::Confluent11,
    }
}

impl VonNeumannState {
    /// The kind, excitation and direction of a transmission state; `None`
    /// for every other state.
    pub fn decode_transmission(self) -> (r: Option<(TransmissionKind, TransmissionState, Direction)>)
        ensures
            r == spec_decode_transmission(self),
    {
        match self {
            VonNeumannState::TransmissionExcitedUp => Some((TransmissionKind::Normal, TransmissionState::Excited, Direction::Up)),
            VonNeumannState::TransmissionExcitedDown => Some((TransmissionKind::Normal, TransmissionState::Excited, Direction::Down)),
            VonNeumannState::TransmissionExcitedLeft => Some((TransmissionKind::Normal, TransmissionState::Excited, Direction::Left)),
            VonNeumannState::TransmissionExcitedRight => Some((TransmissionKind::Normal, TransmissionState::Excited, Direction::Right)),
            VonNeumannState::TransmissionQuiescentUp => Some((TransmissionKind::Normal, TransmissionState::Quiescent, Direction::Up)),
            VonNeumannState::TransmissionQuiescentDown => Some((TransmissionKind::Normal, TransmissionState::Quiescent, Direction::Down)),
            VonNeumannState::TransmissionQuiescentLeft => Some((TransmissionKind::Normal, TransmissionState::Quiescent, Direction::Left)),
            VonNeumannState::TransmissionQuiescentRight => Some((TransmissionKind::Normal, TransmissionState::Quiescent, Direction::Right)),
            VonNeumannState::SpecialTransmissionExcitedUp => Some((TransmissionKind::Special, TransmissionState::Excited, Direction::Up)),
            VonNeumannState::SpecialTransmissionExcitedDown => Some((TransmissionKind::Special, TransmissionState::Excited, Direction::Down)),
            VonNeumannState::SpecialTransmissionExcitedLeft => Some((TransmissionKind::Special, TransmissionState::Excited, Direction::Left)),
            VonNeumannState::SpecialTransmissionExcitedRight => Some((TransmissionKind::Special, TransmissionState::Excited, Direction::Right)),
            VonNeumannState::SpecialTransmissionQuiescentUp => Some((TransmissionKind::Special, TransmissionState::Quiescent, Direction::Up)),
            VonNeumannState::SpecialTransmissionQuiescentDown => Some((TransmissionKind::Special, TransmissionState::Quiescent, Direction::Down)),
            VonNeumannState::SpecialTransmissionQuiescentLeft => Some((TransmissionKind::Special, TransmissionState::Quiescent, Direction::Left)),
            VonNeumannState::SpecialTransmissionQuiescentRight => Some((TransmissionKind::Special, TransmissionState::Quiescent, Direction::Right)),
            _ => None,
        }
    }

    /// The transmission state with the given kind, excitation and direction.
    pub fn encode_transmission(
        kind: TransmissionKind,
        state: TransmissionState,
        direction: Direction,
    ) -> (r: VonNeumannState)
        ensures
            r == spec_encode_transmission(kind, state, direction),
    {
        match (kind, state, direction) {
            (TransmissionKind::Normal, TransmissionState::Excited, Direction::Up) => VonNeumannState::TransmissionExcitedUp,
            (TransmissionKind::Normal, TransmissionState::Excited, Direction::Down) => VonNeumannState::TransmissionExcitedDown,
            (TransmissionKind::Normal, TransmissionState::Excited, Direction::Left) => VonNeumannState::TransmissionExcitedLeft,
            (TransmissionKind::Normal, TransmissionState::Excited, Direction::Right) => VonNeumannState::TransmissionExcitedRight,
            (TransmissionKind::Normal, TransmissionState::Quiescent, Direction::Up) => VonNeumannState::TransmissionQuiescentUp,
            (TransmissionKind::Normal, TransmissionState::Quiescent, Direction::Down) => VonNeumannState::TransmissionQuiescentDown,
            (TransmissionKind::Normal, TransmissionState::Quiescent, Direction::Left) => VonNeumannState::TransmissionQuiescentLeft,
            (TransmissionKind::Normal, TransmissionState::Quiescent, Direction::Right) => VonNeumannState::TransmissionQuiescentRight,
            (TransmissionKind::Special, TransmissionState::Excited, Direction::Up) => VonNeumannState::SpecialTransmissionExcitedUp,
            (TransmissionKind::Special, TransmissionState::Excited, Direction::Down) => VonNeumannState::SpecialTransmissionExcitedDown,
            (TransmissionKind::Special, TransmissionState::Excited, Direction::Left) => VonNeumannState::SpecialTransmissionExcitedLeft,
            (TransmissionKind::Special, TransmissionState::Excited, Direction::Right) => VonNeumannState::SpecialTransmissionExcitedRight,
            (TransmissionKind::Special, TransmissionState::Quiescent, Direction::Up) => VonNeumannState::SpecialTransmissionQuiescentUp,
            (TransmissionKind::Special, TransmissionState::Quiescent, Direction::Down) => VonNeumannState::SpecialTransmissionQuiescentDown,
            (TransmissionKind::Special, TransmissionState::Quiescent, Direction::Left) => VonNeumannState::SpecialTransmissionQuiescentLeft,
            (TransmissionKind::Special, TransmissionState::Quiescent, Direction::Right) => VonNeumannState::SpecialTransmissionQuiescentRight,
        }
    }

    /// The flags of a confluent state; `None` for every other state.
    pub fn decode_confluent(self) -> (r: Option<(bool, bool)>)
        ensures
            r == spec_decode_confluent(self),
    {
        match self {
            VonNeumannState::Confluent00 => Some((false, false)),
            VonNeumannState::Confluent01 => Some((false, true)),
            VonNeumannState::Confluent10 => Some((true, false)),
            VonNeumannState::Confluent11 => Some((true, true)),
            _ => None,
        }
    }

    /// The confluent state with the given flags.
    pub fn encode_confluent(is_excited: bool, will_be_excited: bool) -> (r: VonNeumannState)
        ensures
            r == spec_encode_confluent(is_excited, will_be_excited),
    {
        match (is_excited, will_be_excited) {
            (false, false) => VonNeumannState::Confluent00,
            (false, true) => VonNeumannState::Confluent01,
            (true, false) => VonNeumannState::Confluent10,
            (true, true) => VonNeumannState::Confluent11,
        }
    }
}

/// Decoding an encoded transmission state gives back its parts.
pub proof fn lemma_transmission_decode_encode(
    kind: TransmissionKind,
    state: TransmissionState,
    direction: Direction,
)
    ensures
        spec_decode_transmission(spec_encode_transmission(kind, state, direction)) == Some(
            (kind, state, direction),
        ),
{
}

/// Encoding the parts of a transmission state gives back the state; exactly
/// sixteen states are transmission states.
pub proof fn lemma_transmission_encode_decode(s: VonNeumannState)
    ensures
        spec_decode_transmission(s) matches Some((k, t, d)) ==> spec_encode_transmission(k, t, d)
            == s,
        spec_decode_transmission(s) is Some <==> 13 <= s.spec_code() < 29,
{
}

/// Decoding an encoded confluent state gives back its flags.
pub proof fn lemma_confluent_decode_encode(is_excited: bool, will_be_excited: bool)
    ensures
        spec_decode_confluent(spec_encode_confluent(is_excited, will_be_excited)) == Some(
            (is_excited, will_be_excited),
        ),
{
}

/// Encoding the flags of a confluent state gives back the state.
pub proof fn lemma_confluent_encode_decode(s: VonNeumannState)
    ensures
        spec_decode_confluent(s) matches Some((e, w)) ==> spec_encode_confluent(e, w) == s,
        spec_decode_confluent(s) is Some <==> 9 <= s.spec_code() < 13,
{
}

/// The transmission a neighbor sends into the cell: the kind and excitation
/// of a transmission state pointing at the cell, where `toward` is the
/// direction from the neighbor to the cell.
pub open spec fn spec_incoming(n: VonNeumannState, toward: Direction) -> Option<
    (TransmissionKind, TransmissionState),
> {
    match spec_decode_transmission(n) {
        Some((k, s, d)) => if d == toward {
            Some((k, s))
        } else {
            None
        },
        None => None,
    }
}

/// An excited transmission of the given kind comes in.
pub open spec fn spec_excites(
    incoming: Option<(TransmissionKind, TransmissionState)>,
    kind: TransmissionKind,
) -> bool {
    incoming == Some((kind, TransmissionState::Excited))
}

/// An excited transmission of the other kind comes in.
pub open spec fn spec_destroys(
    incoming: Option<(TransmissionKind, TransmissionState)>,
    kind: TransmissionKind,
) -> bool {
    match incoming {
        Some((k, s)) => k != kind && s == TransmissionState::Excited,
        None => false,
    }
}

/// An excited transmission of any kind comes in.
pub open spec fn spec_any_excited(incoming: Option<(TransmissionKind, TransmissionState)>) -> bool {
    match incoming {
        Some((_, s)) => s == TransmissionState::Excited,
        None => false,
    }
}

/// The neighbor is a confluent state that is excited now.
pub open spec fn spec_confluent_excited(n: VonNeumannState) -> bool {
    match spec_decode_confluent(n) {
        Some((e, _)) => e,
        None => false,
    }
}

/// An ordinary transmission comes in, excited or not.
pub open spec fn spec_ordinary(incoming: Option<(TransmissionKind, TransmissionState)>) -> bool {
    match incoming {
        Some((k, _)) => k == TransmissionKind::Normal,
        None => false,
    }
}

/// Next state of a transmission cell of the given kind pointing in the given
/// direction. An excited transmission of the other kind coming in destroys it
/// (back to ground). Otherwise it becomes excited when an excited
/// transmission of its own kind, or an excited confluent cell, touches it on
/// a side other than the one it points to; else it becomes quiescent.
pub open spec fn spec_transmission_next(
    kind: TransmissionKind,
    direction: Direction,
    up: VonNeumannState,
    left: VonNeumannState,
    right: VonNeumannState,
    down: VonNeumannState,
) -> VonNeumannState {
    let iu = spec_incoming(up, Direction::Down);
    let il = spec_incoming(left, Direction::Right);
    let ir = spec_incoming(right, Direction::Left);
    let id = spec_incoming(down, Direction::Up);
    if spec_destroys(iu, kind) || spec_destroys(il, kind) || spec_destroys(ir, kind)
        || spec_destroys(id, kind) {
        VonNeumannState::Ground
    } else if (direction != Direction::Up && (spec_excites(iu, kind) || spec_confluent_excited(up)))
        || (direction != Direction::Left && (spec_excites(il, kind) || spec_confluent_excited(
        left,
    ))) || (direction != Direction::Right && (spec_excites(ir, kind) || spec_confluent_excited(
        right,
    ))) || (direction != Direction::Down && (spec_excites(id, kind) || spec_confluent_excited(
        down,
    ))) {
        spec_encode_transmission(kind, TransmissionState::Excited, direction)
    } else {
        spec_encode_transmission(kind, TransmissionState::Quiescent, direction)
    }
}

/// Next state of a confluent cell whose next excitation is
/// `will_be_excited`. An excited special transmission coming in destroys it.
/// Otherwise the flag moves on, and the new next excitation is set when at
/// least one ordinary transmission comes in and all that come in are excited.
pub open spec fn spec_confluent_next(
    will_be_excited: bool,
    up: VonNeumannState,
    left: VonNeumannState,
    right: VonNeumannState,
    down: VonNeumannState,
) -> VonNeumannState {
    let iu = spec_incoming(up, Direction::Down);
    let il = spec_incoming(left, Direction::Right);
    let ir = spec_incoming(right, Direction::Left);
    let id = spec_incoming(down, Direction::Up);
    let special = Some((TransmissionKind::Special, TransmissionState::Excited));
    let quiet = Some((TransmissionKind::Normal, TransmissionState::Quiescent));
    if iu == special || il == special || ir == special || id == special {
        VonNeumannState::Ground
    } else {
        let any_ordinary = spec_ordinary(iu) || spec_ordinary(il) || spec_ordinary(ir)
            || spec_ordinary(id);
        let any_quiet = iu == quiet || il == quiet || ir == quiet || id == quiet;
        spec_encode_confluent(will_be_excited, any_ordinary && !any_quiet)
    }
}

/// Next state of the ground and sensitized states, which step through a
/// binary tree of sensitized states, one bit per generation (excited input
/// or not), towards the state they construct.
pub open spec fn spec_sensitized_next(state: VonNeumannState, excited: bool) -> VonNeumannState {
    match state {
        VonNeumannState::Ground => if excited {
            VonNeumannState::Sensitized
        } else {
            VonNeumannState::Ground
        },
        VonNeumannState::Sensitized => if excited {
            VonNeumannState::Sensitized1
        } else {
            VonNeumannState::Sensitized0
        },
        VonNeumannState::Sensitized0 => if excited {
            VonNeumannState::Sensitized01
        } else {
            VonNeumannState::Sensitized00
        },
        VonNeumannState::Sensitized00 => if excited {
            VonNeumannState::TransmissionQuiescentLeft
        } else {
            VonNeumannState::Sensitized000
        },
        VonNeumannState::Sensitized000 => if excited {
            VonNeumannState::TransmissionQuiescentUp
        } else {
            VonNeumannState::TransmissionQuiescentRight
        },
        VonNeumannState::Sensitized01 => if excited {
            VonNeumannState::SpecialTransmissionQuiescentRight
        } else {
            VonNeumannState::TransmissionQuiescentDown
        },
        VonNeumannState::Sensitized1 => if excited {
            VonNeumannState::Sensitized11
        } else {
            VonNeumannState::Sensitized10
        },
        VonNeumannState::Sensitized10 => if excited {
            VonNeumannState::SpecialTransmissionQuiescentLeft
        } else {
            VonNeumannState::SpecialTransmissionQuiescentUp
        },
        VonNeumannState::Sensitized11 => if excited {
            VonNeumannState::Confluent00
        } else {
            VonNeumannState::SpecialTransmissionQuiescentDown
        },
        _ => VonNeumannState::Ground,
    }
}

/// The transition rule of von Neumann's automaton, from the state of a cell
/// and its four neighbors.
pub open spec fn spec_von_neumann_rule(
    state: VonNeumannState,
    up: VonNeumannState,
    left: VonNeumannState,
    right: VonNeumannState,
    down: VonNeumannState,
) -> VonNeumannState {
    match spec_decode_transmission(state) {
        Some((kind, _, direction)) => spec_transmission_next(kind, direction, up, left, right, down),
        None => match spec_decode_confluent(state) {
            Some((_, will_be_excited)) => spec_confluent_next(will_be_excited, up, left, right, down),
            None => {
                let excited = spec_any_excited(spec_incoming(up, Direction::Down))
                    || spec_any_excited(spec_incoming(left, Direction::Right))
                    || spec_any_excited(spec_incoming(right, Direction::Left))
                    || spec_any_excited(spec_incoming(down, Direction::Up));
                spec_sensitized_next(state, excited)
            },
        },
    }
}

fn incoming(n: VonNeumannState, toward: Direction) -> (r: Option<(TransmissionKind, TransmissionState)>)
    ensures
        r == spec_incoming(n, toward),
{
    match n.decode_transmission() {
        Some((k, s, d)) => if d == toward {
            Some((k, s))
        } else {
            None
        },
        None => None,
    }
}

fn excites(incoming: Option<(TransmissionKind, TransmissionState)>, kind: TransmissionKind) -> (r: bool)
    ensures
        r == spec_excites(incoming, kind),
{
    match incoming {
        Some((k, s)) => k == kind && s == TransmissionState::Excited,
        None => false,
    }
}

fn destroys(incoming: Option<(TransmissionKind, TransmissionState)>, kind: TransmissionKind) -> (r: bool)
    ensures
        r == spec_destroys(incoming, kind),
{
    match incoming {
        Some((k, s)) => k != kind && s == TransmissionState::Excited,
        None => false,
    }
}

fn any_excited(incoming: Option<(TransmissionKind, TransmissionState)>) -> (r: bool)
    ensures
        r == spec_any_excited(incoming),
{
    match incoming {
        Some((_, s)) => s == TransmissionState::Excited,
        None => false,
    }
}

fn confluent_excited(n: VonNeumannState) -> (r: bool)
    ensures
        r == spec_confluent_excited(n),
{
    match n.decode_confluent() {
        Some((e, _)) => e,
        None => false,
    }
}

fn is_ordinary(incoming: Option<(TransmissionKind, TransmissionState)>) -> (r: bool)
    ensures
        r == spec_ordinary(incoming),
{
    match incoming {
        Some((k, _)) => k == TransmissionKind::Normal,
        None => false,
    }
}

fn is_quiet_ordinary(incoming: Option<(TransmissionKind, TransmissionState)>) -> (r: bool)
    ensures
        r == (incoming == Some((TransmissionKind::Normal, TransmissionState::Quiescent))),
{
    match incoming {
        Some((k, s)) => k == TransmissionKind::Normal && s == TransmissionState::Quiescent,
        None => false,
    }
}

fn is_special_excited(incoming: Option<(TransmissionKind, TransmissionState)>) -> (r: bool)
    ensures
        r == (incoming == Some((TransmissionKind::Special, TransmissionState::Excited))),
{
    match incoming {
        Some((k, s)) => k == TransmissionKind::Special && s == TransmissionState::Excited,
        None => false,
    }
}

fn sensitized_next(state: VonNeumannState, excited: bool) -> (r: VonNeumannState)
    ensures
        r == spec_sensitized_next(state, excited),
{
    match state {
        VonNeumannState::Ground => if excited {
            VonNeumannState::Sensitized
        } else {
            VonNeumannState::Ground
        },
        VonNeumannState::Sensitized => if excited {
            VonNeumannState::Sensitized1
        } else {
            VonNeumannState::Sensitized0
        },
        VonNeumannState::Sensitized0 => if excited {
            VonNeumannState::Sensitized01
        } else {
            VonNeumannState::Sensitized00
        },
        VonNeumannState::Sensitized00 => if excited {
            VonNeumannState::TransmissionQuiescentLeft
        } else {
            VonNeumannState::Sensitized000
        },
        VonNeumannState::Sensitized000 => if excited {
            VonNeumannState::TransmissionQuiescentUp
        } else {
            VonNeumannState::TransmissionQuiescentRight
        },
        VonNeumannState::Sensitized01 => if excited {
            VonNeumannState::SpecialTransmissionQuiescentRight
        } else {
            VonNeumannState::TransmissionQuiescentDown
        },
        VonNeumannState::Sensitized1 => if excited {
            VonNeumannState::Sensitized11
        } else {
            VonNeumannState::Sensitized10
        },
        VonNeumannState::Sensitized10 => if excited {
            VonNeumannState::SpecialTransmissionQuiescentLeft
        } else {
            VonNeumannState::SpecialTransmissionQuiescentUp
        },
        VonNeumannState::Sensitized11 => if excited {
            VonNeumannState::Confluent00
        } else {
            VonNeumannState::SpecialTransmissionQuiescentDown
        },
        _ => VonNeumannState::Ground,
    }
}

/// The direction from the neighbor at position `k` of a von Neumann
/// neighborhood (above, left, right, below) to the cell in its middle.
pub open spec fn toward_center(k: int) -> Direction {
    if k == 0 {
        Direction::Down
    } else if k == 1 {
        Direction::Right
    } else if k == 2 {
        Direction::Left
    } else {
        Direction::Up
    }
}

/// The neighbor at position `k` is a transmission of kind `kind` pointing
/// at the cell in the middle.
pub open spec fn points_in(neighbors: Seq<VonNeumannState>, k: int, kind: TransmissionKind) -> bool {
    match spec_decode_transmission(neighbors[k]) {
        Some((kk, _, d)) => kk == kind && d == toward_center(k),
        None => false,
    }
}

/// The state is an excited transmission.
pub open spec fn is_excited_transmission(n: VonNeumannState) -> bool {
    match spec_decode_transmission(n) {
        Some((_, s, _)) => s == TransmissionState::Excited,
        None => false,
    }
}

/// A confluent cell is an AND gate over the ordinary transmissions pointing
/// at it. An excited special transmission pointing at it turns it to
/// ground. Otherwise it is excited next exactly when it was to be excited,
/// and it will be excited after that exactly when at least one ordinary
/// transmission points at it and every ordinary transmission pointing at it
/// is excited.
pub proof fn lemma_confluent_and_gate(state: VonNeumannState, neighbors: Seq<VonNeumannState>)
    requires
        neighbors.len() == 4,
        spec_decode_confluent(state) is Some,
    ensures
        (exists|k: int|
            0 <= k < 4 && points_in(neighbors, k, TransmissionKind::Special) && is_excited_transmission(
                #[trigger] neighbors[k],
            )) ==> VonNeumannConfig::spec_rule(state, neighbors) == VonNeumannState::Ground,
        !(exists|k: int|
            0 <= k < 4 && points_in(neighbors, k, TransmissionKind::Special) && is_excited_transmission(
                #[trigger] neighbors[k],
            )) ==> spec_decode_confluent(VonNeumannConfig::spec_rule(state, neighbors)) == Some(
            (
                (spec_decode_confluent(state)->0).1,
                (exists|k: int| 0 <= k < 4 && #[trigger] points_in(neighbors, k, TransmissionKind::Normal)) && (forall|
                    k: int,
                |
                    0 <= k < 4 && #[trigger] points_in(neighbors, k, TransmissionKind::Normal) ==> is_excited_transmission(
                        neighbors[k],
                    )),
            ),
        ),
{
    assert(toward_center(0) == Direction::Down);
    assert(toward_center(1) == Direction::Right);
    assert(toward_center(2) == Direction::Left);
    assert(toward_center(3) == Direction::Up);
    let from_above = points_in(neighbors, 0, TransmissionKind::Normal);
    let from_left = points_in(neighbors, 1, TransmissionKind::Normal);
    let from_right = points_in(neighbors, 2, TransmissionKind::Normal);
    let from_below = points_in(neighbors, 3, TransmissionKind::Normal);
    assert(from_above == spec_ordinary(spec_incoming(neighbors[0], Direction::Down)));
    assert(from_left == spec_ordinary(spec_incoming(neighbors[1], Direction::Right)));
    assert(from_right == spec_ordinary(spec_incoming(neighbors[2], Direction::Left)));
    assert(from_below == spec_ordinary(spec_incoming(neighbors[3], Direction::Up)));
}

/// The other kind of transmission.
pub open spec fn other_kind(kind: TransmissionKind) -> TransmissionKind {
    match kind {
        TransmissionKind::Normal => TransmissionKind::Special,
        TransmissionKind::Special => TransmissionKind::Normal,
    }
}

/// The neighbor at position `k` excites a transmission cell of kind `kind`
/// pointing in direction `d`: it lies on another side than the one the cell
/// points to, and it is an excited transmission of the same kind pointing at
/// the cell or a confluent cell excited now.
pub open spec fn excites_transmission(
    neighbors: Seq<VonNeumannState>,
    k: int,
    kind: TransmissionKind,
    d: Direction,
) -> bool {
    toward_center(k).spec_invert() != d && ((points_in(neighbors, k, kind) && is_excited_transmission(neighbors[k]))
        || spec_decode_confluent(neighbors[k]) matches Some((true, _)))
}

/// A transmission cell keeps its kind and direction. An excited
/// transmission of the other kind pointing at it turns it to ground.
/// Otherwise it is excited next exactly when a neighbor on a side other
/// than the one it points to is an excited transmission of its kind pointing
/// at it or a confluent cell excited now; else it is quiescent.
pub proof fn lemma_transmission_rule(state: VonNeumannState, neighbors: Seq<VonNeumannState>)
    requires
        neighbors.len() == 4,
        spec_decode_transmission(state) is Some,
    ensures
        ({
            let (kind, _, d) = spec_decode_transmission(state)->0;
            &&& (exists|k: int|
                0 <= k < 4 && points_in(neighbors, k, other_kind(kind)) && is_excited_transmission(
                    #[trigger] neighbors[k],
                )) ==> VonNeumannConfig::spec_rule(state, neighbors) == VonNeumannState::Ground
            &&& !(exists|k: int|
                0 <= k < 4 && points_in(neighbors, k, other_kind(kind)) && is_excited_transmission(
                    #[trigger] neighbors[k],
                )) ==> spec_decode_transmission(VonNeumannConfig::spec_rule(state, neighbors)) == Some(
                (
                    kind,
                    if exists|k: int| 0 <= k < 4 && #[trigger] excites_transmission(neighbors, k, kind, d) {
                        TransmissionState::Excited
                    } else {
                        TransmissionState::Quiescent
                    },
                    d,
                ),
            )
        }),
{
    let (kind, _, d) = spec_decode_transmission(state)->0;
    let e0 = excites_transmission(neighbors, 0, kind, d);
    let e1 = excites_transmission(neighbors, 1, kind, d);
    let e2 = excites_transmission(neighbors, 2, kind, d);
    let e3 = excites_transmission(neighbors, 3, kind, d);
    let o0 = points_in(neighbors, 0, other_kind(kind));
    let o1 = points_in(neighbors, 1, other_kind(kind));
    let o2 = points_in(neighbors, 2, other_kind(kind));
    let o3 = points_in(neighbors, 3, other_kind(kind));
    assert(toward_center(0) == Direction::Down);
    assert(toward_center(1) == Direction::Right);
    assert(toward_center(2) == Direction::Left);
    assert(toward_center(3) == Direction::Up);
}

/// The rule of von Neumann's automaton.
#[derive(Debug, Default, Clone, Copy)]
pub struct VonNeumannEvaluator;

impl CellRuleEvaluator<VonNeumannState, VonNeumannNeighborhood<VonNeumannState>> for VonNeumannEvaluator {
    open spec fn spec_evaluate(&self, state: VonNeumannState, neighbors: Seq<VonNeumannState>) -> VonNeumannState {
        spec_von_neumann_rule(state, neighbors[0], neighbors[1], neighbors[2], neighbors[3])
    }

    fn evaluate(
        &self,
        state: VonNeumannState,
        neighbors: &VonNeumannNeighborhood<VonNeumannState>,
    ) -> (r: VonNeumannState) {
        let up = neighbors.up();
        let left = neighbors.left();
        let right = neighbors.right();
        let down = neighbors.down();
        let iu = incoming(up, Direction::Down);
        let il = incoming(left, Direction::Right);
        let ir = incoming(right, Direction::Left);
        let id = incoming(down, Direction::Up);

        // Transmission rules
        if let Some((kind, _, direction)) = state.decode_transmission() {
            // Destruction by an excited transmission of the other kind
            if destroys(iu, kind) || destroys(il, kind) || destroys(ir, kind) || destroys(id, kind) {
                return VonNeumannState::Ground;
            }
            // Excitation from a transmission of the same kind or a confluent
            // cell, on any side but the one the cell points to
            if (direction != Direction::Up && (excites(iu, kind) || confluent_excited(up)))
                || (direction != Direction::Left && (excites(il, kind) || confluent_excited(left)))
                || (direction != Direction::Right && (excites(ir, kind) || confluent_excited(right)))
                || (direction != Direction::Down && (excites(id, kind) || confluent_excited(down))) {
                return VonNeumannState::encode_transmission(
                    kind,
                    TransmissionState::Excited,
                    direction,
                );
            }
            return VonNeumannState::encode_transmission(
                kind,
                TransmissionState::Quiescent,
                direction,
            );
        }
        // Confluent state rules
        if let Some((_, will_be_excited)) = state.decode_confluent() {
            // Destruction by an excited special transmission
            if is_special_excited(iu) || is_special_excited(il) || is_special_excited(ir)
                || is_special_excited(id) {
                return VonNeumannState::Ground;
            }
            // AND over the ordinary transmissions coming in
            let any_ordinary = is_ordinary(iu) || is_ordinary(il) || is_ordinary(ir) || is_ordinary(id);
            let any_quiet = is_quiet_ordinary(iu) || is_quiet_ordinary(il) || is_quiet_ordinary(ir)
                || is_quiet_ordinary(id);
            return VonNeumannState::encode_confluent(will_be_excited, any_ordinary && !any_quiet);
        }
        // Ground and sensitized states
        let excited = any_excited(iu) || any_excited(il) || any_excited(ir) || any_excited(id);
        sensitized_next(state, excited)
    }
}

/// Von Neumann's automaton: its states, the four orthogonal neighbors, and
/// its rule.
pub struct VonNeumannConfig;

impl CellularAutomataConfig for VonNeumannConfig {
    type State = VonNeumannState;

    type Neighborhood = VonNeumannNeighborhood<VonNeumannState>;

    type Evaluator = VonNeumannEvaluator;

    open spec fn spec_rule(state: VonNeumannState, neighbors: Seq<VonNeumannState>) -> VonNeumannState {
        spec_von_neumann_rule(state, neighbors[0], neighbors[1], neighbors[2], neighbors[3])
    }

    proof fn lemma_default_is_quiescent() {
        let n = default_cells::<VonNeumannState>(4);
        assert(n[0] == VonNeumannState::Ground);
        assert(n[1] == VonNeumannState::Ground);
        assert(n[2] == VonNeumannState::Ground);
        assert(n[3] == VonNeumannState::Ground);
    }

    open spec fn spec_name() -> Seq<char> {
        "Von Neumann"@
    }

    fn name() -> (r: &'static str) {
        proof {
            reveal_strlit("Von Neumann");
        }
        "Von Neumann"
    }

    fn new_evaluator() -> (e: VonNeumannEvaluator) {
        VonNeumannEvaluator
    }
}

/// The table of the rule fits the limit of the table builder.
pub proof fn lemma_von_neumann_table_size()
    ensures
        spec_table_size::<VonNeumannState>(VonNeumannNeighborhood::<VonNeumannState>::spec_num_cells()) == 33554432,
{
    reveal_with_fuel(radix_from, 6);
    reveal_with_fuel(power, 6);
    assert(spec_radix::<VonNeumannState>() == 32);
}

/// Von Neumann's 29-state automaton on the unbounded grid.
pub type VonNeumann = CellularAutomaton<VonNeumannConfig>;

/// The step on the grid, rows growing downward, that a direction points to.
pub open spec fn direction_step(d: Direction) -> (int, int) {
    match d {
        Direction::Up => (0, -1),
        Direction::Down => (0, 1),
        Direction::Left => (-1, 0),
        Direction::Right => (1, 0),
    }
}

/// `next` is the generation after `grid`, as `evaluate_next` makes it.
pub open spec fn next_generation(grid: VonNeumann, next: VonNeumann) -> bool {
    forall|p: int, q: int| #[trigger]
        next.state_at(p, q) == VonNeumannConfig::spec_rule(grid.state_at(p, q), grid.neighbors_at(p, q))
}

/// A signal moves one cell along a line of ordinary transmissions: where
/// the cell at (`x`, `y`) is an excited ordinary transmission pointing in
/// direction `d`, and the cell that it points to is a quiescent ordinary
/// transmission pointing the same way whose other three neighbors are
/// ground, that cell is excited in the next generation.
pub proof fn lemma_signal_moves_along(grid: VonNeumann, next: VonNeumann, x: int, y: int, d: Direction)
    requires
        next_generation(grid, next),
        grid.state_at(x, y) == spec_encode_transmission(TransmissionKind::Normal, TransmissionState::Excited, d),
        grid.state_at(x + direction_step(d).0, y + direction_step(d).1) == spec_encode_transmission(
            TransmissionKind::Normal,
            TransmissionState::Quiescent,
            d,
        ),
        forall|e: Direction|
            e != d.spec_invert() ==> #[trigger] grid.state_at(
                x + direction_step(d).0 + direction_step(e).0,
                y + direction_step(d).1 + direction_step(e).1,
            ) == VonNeumannState::Ground,
    ensures
        next.state_at(x + direction_step(d).0, y + direction_step(d).1) == spec_encode_transmission(
            TransmissionKind::Normal,
            TransmissionState::Excited,
            d,
        ),
{
    let tx = x + direction_step(d).0;
    let ty = y + direction_step(d).1;
    let n = grid.neighbors_at(tx, ty);
    assert(next.state_at(tx, ty) == VonNeumannConfig::spec_rule(grid.state_at(tx, ty), n));
    assert(n[0] == grid.state_at(tx, ty - 1));
    assert(n[1] == grid.state_at(tx - 1, ty));
    assert(n[2] == grid.state_at(tx + 1, ty));
    assert(n[3] == grid.state_at(tx, ty + 1));
    assert(Direction::Up != d.spec_invert() ==> grid.state_at(
        x + direction_step(d).0 + direction_step(Direction::Up).0,
        y + direction_step(d).1 + direction_step(Direction::Up).1,
    ) == VonNeumannState::Ground);
    assert(Direction::Down != d.spec_invert() ==> grid.state_at(
        x + direction_step(d).0 + direction_step(Direction::Down).0,
        y + direction_step(d).1 + direction_step(Direction::Down).1,
    ) == VonNeumannState::Ground);
    assert(Direction::Left != d.spec_invert() ==> grid.state_at(
        x + direction_step(d).0 + direction_step(Direction::Left).0,
        y + direction_step(d).1 + direction_step(Direction::Left).1,
    ) == VonNeumannState::Ground);
    assert(Direction::Right != d.spec_invert() ==> grid.state_at(
        x + direction_step(d).0 + direction_step(Direction::Right).0,
        y + direction_step(d).1 + direction_step(Direction::Right).1,
    ) == VonNeumannState::Ground);
}

} // verus!
