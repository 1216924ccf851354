//! Golly's run-length encoded patterns for the JvN29 rule.
use vstd::prelude::*;

use crate::cell::{painted, Cell};
use crate::text::{
    all_digits, ascii_lower, ascii_lowercase, digit_value, is_ascii_white_space, is_ascii_whitespace_char, is_digit,
    digits_only, is_white_space, is_whitespace_char, lower_range_equals, parse_isize, parse_usize, push_chars, push_str,
    chars_of_string, range_equals, spec_parse_isize, string_from_str, spec_parse_usize, string_from_range, trim_range, trimmed,
};
use crate::von_neumann::{
    spec_encode_confluent, spec_encode_transmission, spec_sensitized_next, Direction, TransmissionKind, TransmissionState, VonNeumann,
    VonNeumannState,
};

verus! {

/// `std::io::Error`, an error of reading a file.
#[verifier::external_type_specification]
#[verifier::external_body]
pub struct ExIoError(std::io::Error);

/// The state numbered `code` in Golly's JvN29 numbering.
pub open spec fn spec_golly_state(code: u8) -> Option<VonNeumannState> {
    match code {
        0 => Some(VonNeumannState::Ground),
        1 => Some(VonNeumannState::Sensitized),
        2 => Some(VonNeumannState::Sensitized0),
        3 => Some(VonNeumannState::Sensitized1),
        4 => Some(VonNeumannState::Sensitized00),
        5 => Some(VonNeumannState::Sensitized01),
        6 => Some(VonNeumannState::Sensitized10),
        7 => Some(VonNeumannState::Sensitized11),
        8 => Some(VonNeumannState::Sensitized000),
        9 => Some(VonNeumannState::TransmissionQuiescentRight),
        10 => Some(VonNeumannState::TransmissionQuiescentUp),
        11 => Some(VonNeumannState::TransmissionQuiescentLeft),
        12 => Some(VonNeumannState::TransmissionQuiescentDown),
        13 => Some(VonNeumannState::TransmissionExcitedRight),
        14 => Some(VonNeumannState::TransmissionExcitedUp),
        15 => Some(VonNeumannState::TransmissionExcitedLeft),
        16 => Some(VonNeumannState::TransmissionExcitedDown),
        17 => Some(VonNeumannState::SpecialTransmissionQuiescentRight),
        18 => Some(VonNeumannState::SpecialTransmissionQuiescentUp),
        19 => Some(VonNeumannState::SpecialTransmissionQuiescentLeft),
        20 => Some(VonNeumannState::SpecialTransmissionQuiescentDown),
        21 => Some(VonNeumannState::SpecialTransmissionExcitedRight),
        22 => Some(VonNeumannState::SpecialTransmissionExcitedUp),
        23 => Some(VonNeumannState::SpecialTransmissionExcitedLeft),
        24 => Some(VonNeumannState::SpecialTransmissionExcitedDown),
        25 => Some(VonNeumannState::Confluent00),
        26 => Some(VonNeumannState::Confluent10),
        27 => Some(VonNeumannState::Confluent01),
        28 => Some(VonNeumannState::Confluent11),
        _ => None,
    }
}

/// The number of a state in Golly's JvN29 numbering.
pub open spec fn spec_golly_code(state: VonNeumannState) -> u8 {
    match state {
        VonNeumannState::Ground => 0,
        VonNeumannState::Sensitized => 1,
        VonNeumannState::Sensitized0 => 2,
        VonNeumannState::Sensitized1 => 3,
        VonNeumannState::Sensitized00 => 4,
        VonNeumannState::Sensitized01 => 5,
        VonNeumannState::Sensitized10 => 6,
        VonNeumannState::Sensitized11 => 7,
        VonNeumannState::Sensitized000 => 8,
        VonNeumannState::TransmissionQuiescentRight => 9,
        VonNeumannState::TransmissionQuiescentUp => 10,
        VonNeumannState::TransmissionQuiescentLeft => 11,
        VonNeumannState::TransmissionQuiescentDown => 12,
        VonNeumannState::TransmissionExcitedRight => 13,
        VonNeumannState::TransmissionExcitedUp => 14,
        VonNeumannState::TransmissionExcitedLeft => 15,
        VonNeumannState::TransmissionExcitedDown => 16,
        VonNeumannState::SpecialTransmissionQuiescentRight => 17,
        VonNeumannState::SpecialTransmissionQuiescentUp => 18,
        VonNeumannState::SpecialTransmissionQuiescentLeft => 19,
        VonNeumannState::SpecialTransmissionQuiescentDown => 20,
        VonNeumannState::SpecialTransmissionExcitedRight => 21,
        VonNeumannState::SpecialTransmissionExcitedUp => 22,
        VonNeumannState::SpecialTransmissionExcitedLeft => 23,
        VonNeumannState::SpecialTransmissionExcitedDown => 24,
        VonNeumannState::Confluent00 => 25,
        VonNeumannState::Confluent10 => 26,
        VonNeumannState::Confluent01 => 27,
        VonNeumannState::Confluent11 => 28,
    }
}

/// The number of a state in Golly's JvN29 numbering.
pub fn golly_code(state: VonNeumannState) -> (r: u8)
    ensures
        r == spec_golly_code(state),
{
    match state {
        VonNeumannState::Ground => 0,
        VonNeumannState::Sensitized => 1,
        VonNeumannState::Sensitized0 => 2,
        VonNeumannState::Sensitized1 => 3,
        VonNeumannState::Sensitized00 => 4,
        VonNeumannState::Sensitized01 => 5,
        VonNeumannState::Sensitized10 => 6,
        VonNeumannState::Sensitized11 => 7,
        VonNeumannState::Sensitized000 => 8,
        VonNeumannState::TransmissionQuiescentRight => 9,
        VonNeumannState::TransmissionQuiescentUp => 10,
        VonNeumannState::TransmissionQuiescentLeft => 11,
        VonNeumannState::TransmissionQuiescentDown => 12,
        VonNeumannState::TransmissionExcitedRight => 13,
        VonNeumannState::TransmissionExcitedUp => 14,
        VonNeumannState::TransmissionExcitedLeft => 15,
        VonNeumannState::TransmissionExcitedDown => 16,
        VonNeumannState::SpecialTransmissionQuiescentRight => 17,
        VonNeumannState::SpecialTransmissionQuiescentUp => 18,
        VonNeumannState::SpecialTransmissionQuiescentLeft => 19,
        VonNeumannState::SpecialTransmissionQuiescentDown => 20,
        VonNeumannState::SpecialTransmissionExcitedRight => 21,
        VonNeumannState::SpecialTransmissionExcitedUp => 22,
        VonNeumannState::SpecialTransmissionExcitedLeft => 23,
        VonNeumannState::SpecialTransmissionExcitedDown => 24,
        VonNeumannState::Confluent00 => 25,
        VonNeumannState::Confluent10 => 26,
        VonNeumannState::Confluent01 => 27,
        VonNeumannState::Confluent11 => 28,
    }
}

/// The numbering is a bijection between the states and 0 to 28.
pub proof fn lemma_golly_numbering(state: VonNeumannState, code: u8)
    ensures
        spec_golly_state(spec_golly_code(state)) == Some(state),
        spec_golly_state(code) matches Some(s) ==> spec_golly_code(s) == code,
        spec_golly_state(code) is Some <==> code <= 28,
{
}

/// The block of four numbers in which Golly numbers the transmissions of a
/// kind and excitation: ordinary quiescent, ordinary excited, special
/// quiescent, special excited.
pub open spec fn golly_transmission_block(kind: TransmissionKind, state: TransmissionState) -> int {
    (if kind == TransmissionKind::Special {
        2int
    } else {
        0int
    }) + (if state == TransmissionState::Excited {
        1int
    } else {
        0int
    })
}

/// Where a direction comes within a block: right, up, left, down.
pub open spec fn golly_direction_place(d: Direction) -> int {
    match d {
        Direction::Right => 0,
        Direction::Up => 1,
        Direction::Left => 2,
        Direction::Down => 3,
    }
}

/// Golly numbers the transmission states from 9 by their meaning: four
/// blocks of four by kind and excitation, each block in the direction
/// order right, up, left, down. The confluent states follow from 25, one
/// more for a cell excited now and two more for a cell to be excited next.
pub proof fn lemma_golly_numbering_by_meaning(
    kind: TransmissionKind,
    state: TransmissionState,
    d: Direction,
    now: bool,
    next: bool,
)
    ensures
        spec_golly_state((9 + 4 * golly_transmission_block(kind, state) + golly_direction_place(d)) as u8) == Some(
            spec_encode_transmission(kind, state, d),
        ),
        spec_golly_code(spec_encode_transmission(kind, state, d)) == 9 + 4 * golly_transmission_block(kind, state)
            + golly_direction_place(d),
        spec_golly_state((25 + (if now { 1int } else { 0int }) + 2 * (if next { 1int } else { 0int })) as u8) == Some(
            spec_encode_confluent(now, next),
        ),
        spec_golly_code(spec_encode_confluent(now, next)) == 25 + (if now { 1int } else { 0int }) + 2 * (if next {
            1int
        } else {
            0int
        }),
{
}

/// Golly numbers the ground state 0 and the sensitized states from 1 in
/// the order of the tree the rule steps them through: 1 is what the ground
/// becomes when excited, and the state numbered `c` becomes the state
/// numbered `2c` when not excited and `2c + 1` when excited, up to 8.
pub proof fn lemma_golly_sensitized_numbering(c: u8)
    ensures
        spec_golly_state(0) == Some(VonNeumannState::Ground),
        spec_golly_state(1) == Some(spec_sensitized_next(VonNeumannState::Ground, true)),
        1 <= c <= 4 ==> spec_golly_state((2 * c) as u8) == Some(
            spec_sensitized_next(spec_golly_state(c)->0, false),
        ),
        1 <= c <= 3 ==> spec_golly_state((2 * c + 1) as u8) == Some(
            spec_sensitized_next(spec_golly_state(c)->0, true),
        ),
{
}

/// The state numbered `state` in Golly's JvN29 numbering, if any.
pub fn map_golly_state(state: u8) -> (r: Option<VonNeumannState>)
    ensures
        r == spec_golly_state(state),
{
    match state {
        0 => Some(VonNeumannState::Ground),
        1 => Some(VonNeumannState::Sensitized),
        2 => Some(VonNeumannState::Sensitized0),
        3 => Some(VonNeumannState::Sensitized1),
        4 => Some(VonNeumannState::Sensitized00),
        5 => Some(VonNeumannState::Sensitized01),
        6 => Some(VonNeumannState::Sensitized10),
        7 => Some(VonNeumannState::Sensitized11),
        8 => Some(VonNeumannState::Sensitized000),
        9 => Some(VonNeumannState::TransmissionQuiescentRight),
        10 => Some(VonNeumannState::TransmissionQuiescentUp),
        11 => Some(VonNeumannState::TransmissionQuiescentLeft),
        12 => Some(VonNeumannState::TransmissionQuiescentDown),
        13 => Some(VonNeumannState::TransmissionExcitedRight),
        14 => Some(VonNeumannState::TransmissionExcitedUp),
        15 => Some(VonNeumannState::TransmissionExcitedLeft),
        16 => Some(VonNeumannState::TransmissionExcitedDown),
        17 => Some(VonNeumannState::SpecialTransmissionQuiescentRight),
        18 => Some(VonNeumannState::SpecialTransmissionQuiescentUp),
        19 => Some(VonNeumannState::SpecialTransmissionQuiescentLeft),
        20 => Some(VonNeumannState::SpecialTransmissionQuiescentDown),
        21 => Some(VonNeumannState::SpecialTransmissionExcitedRight),
        22 => Some(VonNeumannState::SpecialTransmissionExcitedUp),
        23 => Some(VonNeumannState::SpecialTransmissionExcitedLeft),
        24 => Some(VonNeumannState::SpecialTransmissionExcitedDown),
        25 => Some(VonNeumannState::Confluent00),
        26 => Some(VonNeumannState::Confluent10),
        27 => Some(VonNeumannState::Confluent01),
        28 => Some(VonNeumannState::Confluent11),
        _ => None,
    }
}

/// What reading run-length encoded data has gathered so far: the
/// position of the next cell, a run count being read, a `p` waiting for
/// its letter with its run, whether the `!` terminator was read, and the
/// cells read.
pub struct RleRead {
    pub x: int,
    pub y: int,
    pub count: nat,
    pub pending: Option<nat>,
    pub ended: bool,
    pub cells: Seq<Cell<VonNeumannState>>,
}

/// Nothing read yet.
pub open spec fn rle_start() -> RleRead {
    RleRead { x: 0, y: 0, count: 0, pending: None, ended: false, cells: seq![] }
}

/// An `isize` value.
pub open spec fn fits_isize(v: int) -> bool {
    isize::MIN <= v <= isize::MAX
}

/// The first byte of the UTF-8 encoding of `c`.
pub open spec fn utf8_first_byte(c: char) -> u8 {
    let v = c as u32;
    if v < 0x80 {
        v as u8
    } else if v < 0x800 {
        (0xC0 + v / 64) as u8
    } else if v < 0x10000 {
        (0xE0 + v / 4096) as u8
    } else {
        (0xF0 + v / 262144) as u8
    }
}

/// What `format!("{:?}", c)` writes for the character `c`.
pub uninterp spec fn debug_char_text(c: char) -> Seq<char>;

/// The cells of a run of `state` from column `x`, offsets `0..n`, at
/// columns shifted by `ox` and row `wy`, or the message of the first
/// coordinate that does not fit.
pub open spec fn run_cells(ox: int, wy: int, x: int, state: VonNeumannState, n: nat) -> Result<
    Seq<Cell<VonNeumannState>>,
    Seq<char>,
>
    decreases n,
{
    if n == 0 {
        Ok(seq![])
    } else {
        match run_cells(ox, wy, x, state, (n - 1) as nat) {
            Err(e) => Err(e),
            Ok(cells) => {
                let offset = n - 1;
                if !fits_isize(offset) || !fits_isize(x + offset) {
                    Err("coordinate overflow"@)
                } else if !fits_isize(ox + x + offset) {
                    Err("x coordinate overflow"@)
                } else {
                    Ok(cells.push(Cell { x: (ox + x + offset) as isize, y: wy as isize, state }))
                }
            },
        }
    }
}

/// Adds a run of `run` cells of Golly state `code` at the position of
/// `r`, moving right past it.
pub open spec fn rle_add_run(r: RleRead, run: nat, code: u8, origin: (isize, isize)) -> Result<RleRead, Seq<char>> {
    match spec_golly_state(code) {
        None => Err("JvN29 state is out of range"@),
        Some(state) => {
            let wy = origin.1 + r.y;
            if !fits_isize(wy) {
                Err("y coordinate overflow"@)
            } else {
                match run_cells(origin.0 as int, wy, r.x, state, run) {
                    Err(e) => Err(e),
                    Ok(cells) => if !fits_isize(run as int) || !fits_isize(r.x + run) {
                        Err("coordinate overflow"@)
                    } else {
                        Ok(RleRead { x: r.x + run, cells: r.cells + cells, ..r })
                    },
                }
            }
        },
    }
}

/// Reads one more character of run-length encoded data.
pub open spec fn rle_step(r: RleRead, c: char, origin: (isize, isize)) -> Result<RleRead, Seq<char>> {
    if r.ended {
        if is_ascii_white_space(c) {
            Ok(r)
        } else {
            Err("unexpected data after ! terminator"@)
        }
    } else if r.pending is Some {
        if 'A' <= c <= 'D' {
            rle_add_run(RleRead { pending: None, ..r }, r.pending->0, (25 + (c as u32 - 'A' as u32)) as u8, origin)
        } else {
            Err("JvN29 only permits pA through pD"@)
        }
    } else if is_ascii_white_space(c) {
        if r.count != 0 {
            Err("whitespace is not allowed after a run count"@)
        } else {
            Ok(r)
        }
    } else if is_digit(c) {
        if c == '0' && r.count == 0 {
            Err("run counts cannot have a leading zero"@)
        } else if r.count * 10 + digit_value(c) > usize::MAX {
            Err("run count overflow"@)
        } else {
            Ok(RleRead { count: r.count * 10 + digit_value(c), ..r })
        }
    } else {
        let run: nat = if r.count == 0 {
            1
        } else {
            r.count
        };
        let r0 = RleRead { count: 0, ..r };
        if c == '.' || c == 'b' {
            if !fits_isize(run as int) || !fits_isize(r.x + run) {
                Err("coordinate overflow"@)
            } else {
                Ok(RleRead { x: r.x + run, ..r0 })
            }
        } else if c == '$' {
            if !fits_isize(run as int) || !fits_isize(r.y + run) {
                Err("coordinate overflow"@)
            } else {
                Ok(RleRead { x: 0, y: r.y + run, ..r0 })
            }
        } else if c == '!' {
            if run != 1 {
                Err("the ! terminator cannot have a run count"@)
            } else {
                Ok(RleRead { ended: true, ..r0 })
            }
        } else if c == 'o' {
            rle_add_run(r0, run, 1, origin)
        } else if 'A' <= c <= 'X' {
            rle_add_run(r0, run, (c as u32 - 'A' as u32 + 1) as u8, origin)
        } else if c == 'p' {
            Ok(RleRead { pending: Some(run), ..r0 })
        } else {
            Err("invalid RLE token "@ + debug_char_text(utf8_first_byte(c) as char))
        }
    }
}

/// The read `r` with no run count pending.
pub open spec fn rle_without_count(r: RleRead) -> RleRead {
    RleRead { count: 0, ..r }
}

/// `k` tokens `c`, each without a run count, read from `r`.
pub open spec fn rle_repeated(r: RleRead, c: char, k: nat, origin: (isize, isize)) -> Result<RleRead, Seq<char>>
    decreases k,
{
    if k == 0 {
        Ok(r)
    } else {
        match rle_repeated(r, c, (k - 1) as nat, origin) {
            Err(e) => Err(e),
            Ok(r1) => rle_step(r1, c, origin),
        }
    }
}

/// The Golly number of the state that a run token writes: 1 for `o`, 1 to
/// 24 for `A` to `X`.
pub open spec fn run_token_code(c: char) -> u8 {
    if c == 'o' {
        1
    } else {
        (c as u32 - 'A' as u32 + 1) as u8
    }
}

/// A row break `$` with run count `k` moves as far as `k` row breaks
/// without one: to the first column of the row `k` below.
pub proof fn lemma_rle_counted_row_break(r: RleRead, origin: (isize, isize))
    requires
        !r.ended,
        r.pending is None,
        r.count >= 1,
        0 <= r.y <= isize::MAX,
    ensures
        rle_step(r, '$', origin) == rle_repeated(rle_without_count(r), '$', r.count, origin),
        rle_step(r, '$', origin) is Ok <==> r.y + r.count <= isize::MAX,
        rle_step(r, '$', origin) matches Ok(r2) ==> r2.y == r.y + r.count && r2.x == 0 && r2.cells == r.cells,
{
    lemma_rle_row_breaks(rle_without_count(r), r.count, origin);
}

/// The read `r` moved `k` rows down, to the first column when `k` is not
/// zero.
pub open spec fn rle_moved_down(r: RleRead, k: nat) -> RleRead {
    if k == 0 {
        r
    } else {
        RleRead { x: 0, y: r.y + k, ..r }
    }
}

/// Plain row breaks move down one row each, to the first column, and fail
/// once the row leaves `isize`.
proof fn lemma_rle_row_breaks(r: RleRead, k: nat, origin: (isize, isize))
    requires
        !r.ended,
        r.pending is None,
        r.count == 0,
        0 <= r.y <= isize::MAX,
    ensures
        r.y + k <= isize::MAX ==> rle_repeated(r, '$', k, origin) is Ok && rle_repeated(r, '$', k, origin)->Ok_0
            == rle_moved_down(r, k),
        r.y + k > isize::MAX ==> rle_repeated(r, '$', k, origin) is Err && rle_repeated(r, '$', k, origin)->Err_0
            == "coordinate overflow"@,
    decreases k,
{
    if k > 0 {
        lemma_rle_row_breaks(r, (k - 1) as nat, origin);
        assert(!is_ascii_white_space('$'));
        assert(!is_digit('$'));
    }
}

/// A run token `o` or `A` to `X` with run count `k` reads as `k` such
/// tokens without one: it moves `k` columns right and adds `k` cells of its
/// state, one at each column passed, where these coordinates fit in
/// `isize`.
pub proof fn lemma_rle_counted_run(r: RleRead, c: char, origin: (isize, isize))
    requires
        !r.ended,
        r.pending is None,
        r.count >= 1,
        c == 'o' || 'A' <= c <= 'X',
        0 <= r.x,
        r.x + r.count <= isize::MAX,
        origin.0 + r.x + r.count <= isize::MAX,
        fits_isize(origin.1 + r.y),
    ensures
        rle_step(r, c, origin) is Ok,
        rle_step(r, c, origin) == rle_repeated(rle_without_count(r), c, r.count, origin),
        rle_step(r, c, origin) matches Ok(r2) ==> r2.x == r.x + r.count && r2.y == r.y && r2.cells.len()
            == r.cells.len() + r.count && forall|i: int|
            r.cells.len() <= i < r2.cells.len() ==> (#[trigger] r2.cells[i]).x == origin.0 + r.x + (i - r.cells.len())
                && r2.cells[i].y == origin.1 + r.y && Some(r2.cells[i].state) == spec_golly_state(run_token_code(c)),
{
    lemma_rle_repeated_run(rle_without_count(r), c, r.count, origin);
    lemma_run_cells(origin.0 as int, origin.1 + r.y, r.x, spec_golly_state(run_token_code(c))->0, r.count);
}

/// `k` run tokens without a count add the run of `k` cells and move `k`
/// columns right.
proof fn lemma_rle_repeated_run(r: RleRead, c: char, k: nat, origin: (isize, isize))
    requires
        !r.ended,
        r.pending is None,
        r.count == 0,
        c == 'o' || 'A' <= c <= 'X',
        0 <= r.x,
        r.x + k <= isize::MAX,
        origin.0 + r.x + k <= isize::MAX,
        fits_isize(origin.1 + r.y),
    ensures
        spec_golly_state(run_token_code(c)) is Some,
        run_cells(origin.0 as int, origin.1 + r.y, r.x, spec_golly_state(run_token_code(c))->0, k) is Ok,
        rle_repeated(r, c, k, origin) == Ok::<RleRead, Seq<char>>(
            RleRead {
                x: r.x + k,
                cells: r.cells + run_cells(
                    origin.0 as int,
                    origin.1 + r.y,
                    r.x,
                    spec_golly_state(run_token_code(c))->0,
                    k,
                )->Ok_0,
                ..r
            },
        ),
    decreases k,
{
    assert(1 <= run_token_code(c) <= 24);
    if k > 0 {
        lemma_rle_repeated_run(r, c, (k - 1) as nat, origin);
        let ox = origin.0 as int;
        let wy = origin.1 + r.y;
        let state = spec_golly_state(run_token_code(c))->0;
        let prev = run_cells(ox, wy, r.x, state, (k - 1) as nat)->Ok_0;
        let r1 = RleRead { x: r.x + k - 1, cells: r.cells + prev, ..r };
        assert(!is_ascii_white_space(c) && !is_digit(c) && c != '$' && c != '!' && c != 'p' && c != 'b' && c != '.');
        let one = run_cells(ox, wy, r1.x, state, 1);
        assert(run_cells(ox, wy, r1.x, state, 0) == Ok::<Seq<Cell<VonNeumannState>>, Seq<char>>(seq![]));
        let whole = run_cells(ox, wy, r.x, state, k);
        assert(one->Ok_0 =~= seq![Cell { x: (ox + r.x + k - 1) as isize, y: wy as isize, state }]);
        assert(whole->Ok_0 == prev.push(Cell { x: (ox + r.x + k - 1) as isize, y: wy as isize, state }));
        assert(r.cells + prev + one->Ok_0 =~= r.cells + whole->Ok_0);
        assert(rle_step(r1, c, origin) == rle_add_run(r1, 1, run_token_code(c), origin));
    }
}

/// Reads the first `n` characters of `data`.
pub open spec fn rle_scan(data: Seq<char>, n: nat, origin: (isize, isize)) -> Result<RleRead, Seq<char>>
    decreases n,
{
    if n == 0 {
        Ok(rle_start())
    } else {
        match rle_scan(data, (n - 1) as nat, origin) {
            Err(e) => Err(e),
            Ok(r) => rle_step(r, data[n - 1], origin),
        }
    }
}

/// The cells of run-length encoded JvN29 data whose top left cell is at
/// `origin`, or the message of the first error.
pub open spec fn spec_rle_cells(data: Seq<char>, origin: (isize, isize)) -> Result<Seq<Cell<VonNeumannState>>, Seq<char>> {
    match rle_scan(data, data.len(), origin) {
        Err(e) => Err(e),
        Ok(r) => if r.pending is Some {
            Err("incomplete p-state token"@)
        } else if r.count != 0 {
            Err("run count is missing a value"@)
        } else {
            Ok(r.cells)
        },
    }
}

/// The position `a` comes before the position `b` in reading order: in an
/// earlier row, or further left in the same row.
pub open spec fn reads_before(a: (int, int), b: (int, int)) -> bool {
    a.1 < b.1 || (a.1 == b.1 && a.0 < b.0)
}

/// The position of a cell.
pub open spec fn cell_pos(c: Cell<VonNeumannState>) -> (int, int) {
    (c.x as int, c.y as int)
}

/// The cells come in reading order, none is in the ground state and none
/// lies above or to the left of `origin`.
pub open spec fn cells_in_reading_order(cells: Seq<Cell<VonNeumannState>>, origin: (isize, isize)) -> bool {
    &&& forall|i: int, j: int|
        0 <= i < j < cells.len() ==> reads_before(cell_pos(#[trigger] cells[i]), cell_pos(#[trigger] cells[j]))
    &&& forall|i: int|
        0 <= i < cells.len() ==> (#[trigger] cells[i]).state != VonNeumannState::Ground && cells[i].x >= origin.0
            && cells[i].y >= origin.1
}

/// A partial read keeps its cells in reading order, all before its
/// position.
spec fn rle_read_ordered(r: RleRead, origin: (isize, isize)) -> bool {
    &&& r.x >= 0
    &&& r.y >= 0
    &&& cells_in_reading_order(r.cells, origin)
    &&& forall|i: int|
        0 <= i < r.cells.len() ==> reads_before(cell_pos(#[trigger] r.cells[i]), (origin.0 + r.x, origin.1 + r.y))
}

/// A run gives its cells left to right from column `ox + x` of row `wy`.
proof fn lemma_run_cells(ox: int, wy: int, x: int, state: VonNeumannState, n: nat)
    ensures
        run_cells(ox, wy, x, state, n) matches Ok(cells) ==> cells.len() == n && forall|k: int|
            0 <= k < n ==> (#[trigger] cells[k]).x == ox + x + k && cells[k].y == wy as isize && cells[k].state == state,
    decreases n,
{
    if n > 0 {
        lemma_run_cells(ox, wy, x, state, (n - 1) as nat);
    }
}

/// Adding a run of a state other than the ground keeps the order.
proof fn lemma_add_run_ordered(r: RleRead, run: nat, code: u8, origin: (isize, isize))
    requires
        rle_read_ordered(r, origin),
        code != 0,
    ensures
        rle_add_run(r, run, code, origin) matches Ok(r2) ==> rle_read_ordered(r2, origin),
{
    if let Ok(r2) = rle_add_run(r, run, code, origin) {
        let state = spec_golly_state(code)->0;
        let wy = origin.1 + r.y;
        let cells = run_cells(origin.0 as int, wy, r.x, state, run)->Ok_0;
        lemma_run_cells(origin.0 as int, wy, r.x, state, run);
        assert(state != VonNeumannState::Ground);
        assert(r2.cells == r.cells + cells);
        let all = r2.cells;
        let m = r.cells.len();
        assert forall|i: int, j: int| 0 <= i < j < all.len() implies reads_before(
            cell_pos(#[trigger] all[i]),
            cell_pos(#[trigger] all[j]),
        ) by {
            if j < m {
                assert(all[i] == r.cells[i] && all[j] == r.cells[j]);
            } else if i < m {
                assert(all[i] == r.cells[i]);
                assert(all[j] == cells[j - m]);
            } else {
                assert(all[i] == cells[i - m] && all[j] == cells[j - m]);
            }
        }
        assert forall|i: int| 0 <= i < all.len() implies (#[trigger] all[i]).state != VonNeumannState::Ground
            && all[i].x >= origin.0 && all[i].y >= origin.1 && reads_before(
            cell_pos(all[i]),
            (origin.0 + r2.x, origin.1 + r2.y),
        ) by {
            if i < m {
                assert(all[i] == r.cells[i]);
            } else {
                assert(all[i] == cells[i - m]);
            }
        }
    }
}

/// One more character keeps the order.
proof fn lemma_rle_step_ordered(r: RleRead, c: char, origin: (isize, isize))
    requires
        rle_read_ordered(r, origin),
    ensures
        rle_step(r, c, origin) matches Ok(r2) ==> rle_read_ordered(r2, origin),
{
    if !r.ended {
        if r.pending is Some {
            if 'A' <= c <= 'D' {
                lemma_add_run_ordered(
                    RleRead { pending: None, ..r },
                    r.pending->0,
                    (25 + (c as u32 - 'A' as u32)) as u8,
                    origin,
                );
            }
        } else if !is_ascii_white_space(c) && !is_digit(c) {
            let run: nat = if r.count == 0 {
                1
            } else {
                r.count
            };
            let r0 = RleRead { count: 0, ..r };
            if c == 'o' {
                lemma_add_run_ordered(r0, run, 1, origin);
            } else if 'A' <= c <= 'X' {
                lemma_add_run_ordered(r0, run, (c as u32 - 'A' as u32 + 1) as u8, origin);
            }
        }
    }
}

/// Every partial read keeps the order.
proof fn lemma_rle_scan_ordered(data: Seq<char>, n: nat, origin: (isize, isize))
    ensures
        rle_scan(data, n, origin) matches Ok(r) ==> rle_read_ordered(r, origin),
    decreases n,
{
    if n > 0 {
        lemma_rle_scan_ordered(data, (n - 1) as nat, origin);
        if let Ok(r) = rle_scan(data, (n - 1) as nat, origin) {
            lemma_rle_step_ordered(r, data[n - 1], origin);
        }
    }
}

/// The cells read from run-length encoded data come in reading order, the
/// top row first and left to right within a row, so that no two share a
/// position; none is in the ground state, and none lies above or to the
/// left of the origin.
pub proof fn lemma_rle_cells_in_reading_order(data: Seq<char>, origin: (isize, isize))
    ensures
        spec_rle_cells(data, origin) matches Ok(cells) ==> cells_in_reading_order(cells, origin),
{
    lemma_rle_scan_ordered(data, data.len(), origin);
}

/// `format!("{:?}", c)`: the character quoted and escaped as Rust's
/// `Debug` writes it. Its text is named by `debug_char_text`.
#[verifier::external_body]
pub(crate) fn debug_char(c: char) -> (r: String)
    ensures
        r@ == debug_char_text(c),
{
    format!("{c:?}")
}

/// The first byte of the UTF-8 encoding of `c`.
pub(crate) fn first_utf8_byte(c: char) -> (b: u8)
    ensures
        b == utf8_first_byte(c),
{
    let v = c as u32;
    if v < 0x80 {
        v as u8
    } else if v < 0x800 {
        (0xC0 + v / 64) as u8
    } else if v < 0x10000 {
        (0xE0 + v / 4096) as u8
    } else {
        (0xF0 + v / 262144) as u8
    }
}

/// Once reading fails, it fails with the same message however much more
/// is read.
proof fn lemma_rle_scan_err(data: Seq<char>, n: nat, m: nat, origin: (isize, isize))
    requires
        n <= m,
        rle_scan(data, n, origin) is Err,
    ensures
        rle_scan(data, m, origin) == rle_scan(data, n, origin),
    decreases m - n,
{
    if n < m {
        lemma_rle_scan_err(data, n, (m - 1) as nat, origin);
    }
}

/// `coordinate + amount`, unless it does not fit.
pub(crate) fn checked_add_coord(coordinate: isize, amount: usize) -> (r: Option<isize>)
    ensures
        match r {
            Some(v) => fits_isize(amount as int) && fits_isize(coordinate + amount) && v == coordinate + amount,
            None => !fits_isize(amount as int) || !fits_isize(coordinate + amount),
        },
{
    if amount > isize::MAX as usize {
        return None;
    }
    coordinate.checked_add(amount as isize)
}

/// Once the run fails, it fails with the same message however long it is.
proof fn lemma_run_cells_err(ox: int, wy: int, x: int, state: VonNeumannState, n: nat, m: nat)
    requires
        n <= m,
        run_cells(ox, wy, x, state, n) is Err,
    ensures
        run_cells(ox, wy, x, state, m) == run_cells(ox, wy, x, state, n),
    decreases m - n,
{
    if n < m {
        lemma_run_cells_err(ox, wy, x, state, n, (m - 1) as nat);
    }
}

/// Adds a run of `run` cells of Golly state `golly_state` at column `x`
/// of row `y`, both relative to `origin`, and moves `x` past it.
#[verifier::rlimit(30)]
fn add_state_run(
    cells: &mut Vec<Cell<VonNeumannState>>,
    x: &mut isize,
    y: isize,
    run: usize,
    golly_state: u8,
    origin: (isize, isize),
) -> (r: Result<(), String>)
    ensures
        match rle_add_run(
            RleRead { x: *old(x) as int, y: y as int, count: 0, pending: None, ended: false, cells: old(cells)@ },
            run as nat,
            golly_state,
            origin,
        ) {
            Ok(rr) => r is Ok && *final(x) == rr.x && final(cells)@ == rr.cells,
            Err(e) => r matches Err(m) && m@ == e,
        },
{
    let state = match map_golly_state(golly_state) {
        Some(state) => state,
        None => {
            return Err(string_from_str("JvN29 state is out of range"));
        },
    };
    let world_y = match origin.1.checked_add(y) {
        Some(v) => v,
        None => {
            return Err(string_from_str("y coordinate overflow"));
        },
    };
    let ghost start = cells@;
    let ghost x0 = *x as int;
    let mut offset: usize = 0;
    while offset < run
        invariant
            offset <= run,
            world_y == origin.1 + y,
            *x == x0,
            x0 == *old(x),
            start == old(cells)@,
            spec_golly_state(golly_state) == Some(state),
            run_cells(origin.0 as int, world_y as int, x0, state, offset as nat) matches Ok(added) && cells@ == start
                + added,
        decreases run - offset,
    {
        let local_x = match checked_add_coord(*x, offset) {
            Some(v) => v,
            None => {
                proof {
                    assert(run_cells(origin.0 as int, world_y as int, x0, state, (offset + 1) as nat) == Err::<
                        Seq<Cell<VonNeumannState>>,
                        Seq<char>,
                    >("coordinate overflow"@));
                    lemma_run_cells_err(origin.0 as int, world_y as int, x0, state, (offset + 1) as nat, run as nat);
                }
                return Err(string_from_str("coordinate overflow"));
            },
        };
        let world_x = match origin.0.checked_add(local_x) {
            Some(v) => v,
            None => {
                proof {
                    assert(run_cells(origin.0 as int, world_y as int, x0, state, (offset + 1) as nat) == Err::<
                        Seq<Cell<VonNeumannState>>,
                        Seq<char>,
                    >("x coordinate overflow"@));
                    lemma_run_cells_err(origin.0 as int, world_y as int, x0, state, (offset + 1) as nat, run as nat);
                }
                return Err(string_from_str("x coordinate overflow"));
            },
        };
        cells.push(Cell { x: world_x, y: world_y, state });
        offset = offset + 1;
        proof {
            let prev = run_cells(origin.0 as int, world_y as int, x0, state, (offset - 1) as nat)->Ok_0;
            assert(cells@ =~= start + prev.push(Cell { x: world_x, y: world_y, state }));
        }
    }
    match checked_add_coord(*x, run) {
        Some(v) => {
            *x = v;
            Ok(())
        },
        None => Err(string_from_str("coordinate overflow")),
    }
}

/// The state of reading run-length encoded data, but for the cells.
struct RleReader {
    x: isize,
    y: isize,
    count: usize,
    pending: Option<usize>,
    ended: bool,
}

/// The reading state of `reader` with `cells` read so far.
spec fn reader_view(reader: RleReader, cells: Seq<Cell<VonNeumannState>>) -> RleRead {
    RleRead {
        x: reader.x as int,
        y: reader.y as int,
        count: reader.count as nat,
        pending: match reader.pending {
            Some(run) => Some(run as nat),
            None => None,
        },
        ended: reader.ended,
        cells,
    }
}

/// A run count is read only outside a `p` token and before the `!`
/// terminator.
pub open spec fn rle_read_ok(r: RleRead) -> bool {
    &&& r.pending is Some ==> r.count == 0
    &&& r.ended ==> r.count == 0 && r.pending is None
}

/// Every reading state is consistent.
proof fn lemma_rle_scan_ok(data: Seq<char>, n: nat, origin: (isize, isize))
    ensures
        rle_scan(data, n, origin) matches Ok(r) ==> rle_read_ok(r),
    decreases n,
{
    if n > 0 {
        lemma_rle_scan_ok(data, (n - 1) as nat, origin);
    }
}

/// Adds the run of Golly state `code` that `reader` stands before.
fn reader_add_run(
    reader: &mut RleReader,
    cells: &mut Vec<Cell<VonNeumannState>>,
    run: usize,
    code: u8,
    origin: (isize, isize),
) -> (r: Result<(), String>)
    requires
        old(reader).count == 0,
        old(reader).pending is None,
        !old(reader).ended,
    ensures
        match rle_add_run(reader_view(*old(reader), old(cells)@), run as nat, code, origin) {
            Ok(rr) => r is Ok && reader_view(*final(reader), final(cells)@) == rr,
            Err(e) => r matches Err(m) && m@ == e,
        },
{
    let y = reader.y;
    add_state_run(cells, &mut reader.x, y, run, code, origin)
}

/// Reads one more character of run-length encoded data.
#[verifier::rlimit(40)]
fn reader_step(reader: &mut RleReader, cells: &mut Vec<Cell<VonNeumannState>>, c: char, origin: (isize, isize)) -> (r: Result<
    (),
    String,
>)
    requires
        rle_read_ok(reader_view(*old(reader), old(cells)@)),
    ensures
        match rle_step(reader_view(*old(reader), old(cells)@), c, origin) {
            Ok(rr) => r is Ok && reader_view(*final(reader), final(cells)@) == rr,
            Err(e) => r matches Err(m) && m@ == e,
        },
{
    if reader.ended {
        if is_ascii_whitespace_char(c) {
            return Ok(());
        }
        return Err(string_from_str("unexpected data after ! terminator"));
    }
    if let Some(run) = reader.pending {
        if 'A' <= c && c <= 'D' {
            reader.pending = None;
            let code = (25 + (c as u32 - 'A' as u32)) as u8;
            return reader_add_run(reader, cells, run, code, origin);
        }
        return Err(string_from_str("JvN29 only permits pA through pD"));
    }
    if is_ascii_whitespace_char(c) {
        if reader.count != 0 {
            return Err(string_from_str("whitespace is not allowed after a run count"));
        }
        return Ok(());
    }
    if '0' <= c && c <= '9' {
        if c == '0' && reader.count == 0 {
            return Err(string_from_str("run counts cannot have a leading zero"));
        }
        let d = (c as u32 - '0' as u32) as usize;
        let count = reader.count;
        if count > (usize::MAX - d) / 10 {
            proof {
                assert(count * 10 + d > usize::MAX) by (nonlinear_arith)
                    requires
                        count > (usize::MAX - d) / 10,
                        d <= 9,
                ;
            }
            return Err(string_from_str("run count overflow"));
        }
        proof {
            assert(count * 10 + d <= usize::MAX) by (nonlinear_arith)
                requires
                    count <= (usize::MAX - d) / 10,
                    d <= 9,
            ;
        }
        reader.count = count * 10 + d;
        return Ok(());
    }
    let run = if reader.count == 0 {
        1
    } else {
        reader.count
    };
    reader.count = 0;
    if c == '.' || c == 'b' {
        match checked_add_coord(reader.x, run) {
            Some(v) => {
                reader.x = v;
                Ok(())
            },
            None => Err(string_from_str("coordinate overflow")),
        }
    } else if c == '$' {
        match checked_add_coord(reader.y, run) {
            Some(v) => {
                reader.x = 0;
                reader.y = v;
                Ok(())
            },
            None => Err(string_from_str("coordinate overflow")),
        }
    } else if c == '!' {
        if run != 1 {
            return Err(string_from_str("the ! terminator cannot have a run count"));
        }
        reader.ended = true;
        Ok(())
    } else if c == 'o' {
        reader_add_run(reader, cells, run, 1, origin)
    } else if 'A' <= c && c <= 'X' {
        let code = (c as u32 - 'A' as u32 + 1) as u8;
        reader_add_run(reader, cells, run, code, origin)
    } else if c == 'p' {
        reader.pending = Some(run);
        Ok(())
    } else {
        let mut m = string_from_str("invalid RLE token ");
        let shown = debug_char(first_utf8_byte(c) as char);
        push_chars(&mut m, chars_of_string(&shown).as_slice());
        Err(m)
    }
}

/// The cells of run-length encoded JvN29 data whose top left cell is at
/// `origin`, or the message of the first error.
fn parse_data(data: &[char], origin: (isize, isize)) -> (r: Result<Vec<Cell<VonNeumannState>>, String>)
    ensures
        match spec_rle_cells(data@, origin) {
            Ok(cells) => r matches Ok(v) && v@ == cells,
            Err(e) => r matches Err(m) && m@ == e,
        },
{
    let mut cells: Vec<Cell<VonNeumannState>> = Vec::new();
    let mut reader = RleReader { x: 0, y: 0, count: 0, pending: None, ended: false };
    let mut index: usize = 0;
    let ghost n = data@.len();
    while index < data.len()
        invariant
            index <= data@.len(),
            n == data@.len(),
            rle_scan(data@, index as nat, origin) == Ok::<RleRead, Seq<char>>(reader_view(reader, cells@)),
        decreases data@.len() - index,
    {
        proof {
            lemma_rle_scan_ok(data@, index as nat, origin);
        }
        let stepped = reader_step(&mut reader, &mut cells, data[index], origin);
        if stepped.is_err() {
            proof {
                lemma_rle_scan_err(data@, (index + 1) as nat, n, origin);
            }
            return match stepped {
                Err(m) => Err(m),
                Ok(()) => Err(String::new()),
            };
        }
        index = index + 1;
    }
    if reader.pending.is_some() {
        return Err(string_from_str("incomplete p-state token"));
    }
    if reader.count != 0 {
        return Err(string_from_str("run count is missing a value"));
    }
    Ok(cells)
}

/// The position of the first `c` in `s` at or after `i`, or the end.
pub open spec fn find_from(s: Seq<char>, i: int, c: char) -> int
    decreases s.len() - i,
{
    if i >= s.len() {
        s.len() as int
    } else if s[i] == c {
        i
    } else {
        find_from(s, i + 1, c)
    }
}

pub proof fn lemma_find_from(s: Seq<char>, i: int, c: char)
    requires
        0 <= i <= s.len(),
    ensures
        i <= find_from(s, i, c) <= s.len(),
        find_from(s, i, c) < s.len() ==> s[find_from(s, i, c)] == c,
        forall|j: int| i <= j < find_from(s, i, c) ==> s[j] != c,
    decreases s.len() - i,
{
    if i < s.len() && s[i] != c {
        lemma_find_from(s, i + 1, c);
    }
}

/// The position of the first `c` in `s[lo..hi]`, or `hi`.
pub(crate) fn find_char(s: &[char], lo: usize, hi: usize, c: char) -> (r: usize)
    requires
        lo <= hi <= s@.len(),
    ensures
        r == find_from(s@.subrange(lo as int, hi as int), 0, c) + lo,
        lo <= r <= hi,
{
    let ghost t = s@.subrange(lo as int, hi as int);
    let mut i = lo;
    while i < hi && s[i] != c
        invariant
            lo <= i <= hi,
            hi <= s@.len(),
            t == s@.subrange(lo as int, hi as int),
            find_from(t, (i - lo) as int, c) == find_from(t, 0, c),
        decreases hi - i,
    {
        i = i + 1;
    }
    proof {
        lemma_find_from(t, (i - lo) as int, c);
    }
    i
}

/// `t` without leading and trailing whitespace.
pub open spec fn trim_seq(t: Seq<char>) -> Seq<char> {
    t.subrange(trimmed(t, 0, t.len() as int).0, trimmed(t, 0, t.len() as int).1)
}

/// `t` starts with `prefix`.
pub open spec fn starts_with(t: Seq<char>, prefix: Seq<char>) -> bool {
    t.len() >= prefix.len() && t.subrange(0, prefix.len() as int) == prefix
}

/// What `format!("{:?}", s)` writes for the text `s`.
pub uninterp spec fn debug_str_text(s: Seq<char>) -> Seq<char>;

/// `format!("{:?}", s)`: the text quoted and escaped as Rust's `Debug`
/// writes it. Its text is named by `debug_str_text`.
#[verifier::external_body]
pub(crate) fn debug_str(s: &str) -> (r: String)
    ensures
        r@ == debug_str_text(s@),
{
    format!("{s:?}")
}

/// A rule name as it is compared: trimmed and in lower case.
pub open spec fn normalize_rule(rule: Seq<char>) -> Seq<char> {
    ascii_lowercase(trim_seq(rule))
}

/// The rule is JvN29 (as `jvn29` or `jvn-29`, in any case), without the
/// bounds that would follow a colon.
pub open spec fn spec_validate_rule(rule: Seq<char>, line: nat) -> Result<(), (nat, Seq<char>)> {
    let normalized = normalize_rule(rule);
    if normalized.contains(':') {
        Err((line, "bounded JvN29 rules are not supported"@))
    } else if normalized != seq!['j', 'v', 'n', '2', '9'] && normalized != seq!['j', 'v', 'n', '-', '2', '9'] {
        Err((line, "unsupported rule "@ + debug_str_text(rule) + "; expected JvN29"@))
    } else {
        Ok(())
    }
}

/// What the lines of a Golly file read so far declare.
pub struct GollyScan {
    pub declared_size: Option<(usize, usize)>,
    pub origin: (isize, isize),
    pub generation: Option<Seq<char>>,
    pub comments: Seq<Seq<char>>,
    pub declared_rule: Option<Seq<char>>,
    pub data: Seq<char>,
    pub first_data_line: nat,
}

/// Nothing read yet.
pub open spec fn golly_scan_start() -> GollyScan {
    GollyScan {
        declared_size: None,
        origin: (0, 0),
        generation: None,
        comments: seq![],
        declared_rule: None,
        data: seq![],
        first_data_line: 1,
    }
}

/// Declares rule `rule` on line `line`: it must be JvN29 and agree with a
/// rule declared before.
pub open spec fn spec_set_rule(scan: GollyScan, rule: Seq<char>, line: nat) -> Result<GollyScan, (nat, Seq<char>)> {
    match spec_validate_rule(rule, line) {
        Err(e) => Err(e),
        Ok(()) => match scan.declared_rule {
            Some(previous) => if normalize_rule(previous) != normalize_rule(rule) {
                Err((line, "conflicting rule declarations"@))
            } else {
                Ok(scan)
            },
            None => Ok(GollyScan { declared_rule: Some(rule), ..scan }),
        },
    }
}

/// Trimming a part of a text is trimming the range of that part.
pub(crate) proof fn lemma_trim_subrange(s: Seq<char>, lo: int, hi: int)
    requires
        0 <= lo <= hi <= s.len(),
    ensures
        trim_seq(s.subrange(lo, hi)) == s.subrange(trimmed(s, lo, hi).0, trimmed(s, lo, hi).1),
        lo <= trimmed(s, lo, hi).0 <= trimmed(s, lo, hi).1 <= hi,
{
    let t = s.subrange(lo, hi);
    lemma_trim_start_shift(s, lo, hi, lo);
    let a = crate::text::trim_start_index(s, lo, hi);
    lemma_trim_start_bounds(s, lo, hi);
    lemma_trim_end_shift(s, lo, hi, a);
    lemma_trim_end_bounds(s, a, hi);
    assert(t.subrange(trimmed(t, 0, t.len() as int).0, trimmed(t, 0, t.len() as int).1) =~= s.subrange(
        trimmed(s, lo, hi).0,
        trimmed(s, lo, hi).1,
    ));
}

proof fn lemma_trim_start_bounds(s: Seq<char>, lo: int, hi: int)
    requires
        lo <= hi,
    ensures
        lo <= crate::text::trim_start_index(s, lo, hi) <= hi,
    decreases hi - lo,
{
    if lo < hi && is_white_space(s[lo]) {
        lemma_trim_start_bounds(s, lo + 1, hi);
    }
}

proof fn lemma_trim_end_bounds(s: Seq<char>, lo: int, hi: int)
    requires
        lo <= hi,
    ensures
        lo <= crate::text::trim_end_index(s, lo, hi) <= hi,
    decreases hi - lo,
{
    if lo < hi && is_white_space(s[hi - 1]) {
        lemma_trim_end_bounds(s, lo, hi - 1);
    }
}

proof fn lemma_trim_start_shift(s: Seq<char>, lo: int, hi: int, i: int)
    requires
        0 <= lo <= i <= hi <= s.len(),
    ensures
        crate::text::trim_start_index(s.subrange(lo, hi), i - lo, hi - lo) == crate::text::trim_start_index(s, i, hi)
            - lo,
    decreases hi - i,
{
    if i < hi && is_white_space(s[i]) {
        lemma_trim_start_shift(s, lo, hi, i + 1);
    }
}

proof fn lemma_trim_end_shift(s: Seq<char>, lo: int, hi: int, a: int)
    requires
        0 <= lo <= a <= hi <= s.len(),
    ensures
        crate::text::trim_end_index(s.subrange(lo, hi), a - lo, hi - lo) == crate::text::trim_end_index(s, a, hi) - lo,
    decreases hi - a,
{
    lemma_trim_end_shift_to(s, lo, hi, a, hi);
}

proof fn lemma_trim_end_shift_to(s: Seq<char>, lo: int, hi: int, a: int, b: int)
    requires
        0 <= lo <= a <= b <= hi <= s.len(),
    ensures
        crate::text::trim_end_index(s.subrange(lo, hi), a - lo, b - lo) == crate::text::trim_end_index(s, a, b) - lo,
    decreases b - a,
{
    if a < b && is_white_space(s[b - 1]) {
        lemma_trim_end_shift_to(s, lo, hi, a, b - 1);
    }
}

/// A string holding `s[lo..hi]` with its ASCII letters in lower case.
fn lower_string(s: &[char], lo: usize, hi: usize) -> (r: String)
    requires
        lo <= hi <= s@.len(),
    ensures
        r@ == ascii_lowercase(s@.subrange(lo as int, hi as int)),
{
    let mut r = String::new();
    let mut i = lo;
    while i < hi
        invariant
            lo <= i <= hi,
            hi <= s@.len(),
            r@ == ascii_lowercase(s@.subrange(lo as int, i as int)),
        decreases hi - i,
    {
        r.push(crate::text::to_ascii_lower(s[i]));
        i = i + 1;
        assert(r@ =~= ascii_lowercase(s@.subrange(lo as int, i as int)));
    }
    r
}

/// A parse error on line `line`.
fn parse_error(line: usize, text: &str) -> (e: GollyLoadError)
    ensures
        e matches GollyLoadError::Parse { line: l, message: m } && l == line && m@ == text@,
{
    GollyLoadError::Parse { line, message: string_from_str(text) }
}

/// A parse error on line `line` with the message `m`.
fn parse_error_with(line: usize, m: String) -> (e: GollyLoadError)
    ensures
        e matches GollyLoadError::Parse { line: l, message: m2 } && l == line && m2@ == m@,
{
    GollyLoadError::Parse { line, message: m }
}

/// The error of a file: reading it failed, or its text is not a JvN29
/// pattern, for the reason given, on the line given (counted from 1).
#[derive(Debug)]
pub enum GollyLoadError {
    Io(std::io::Error),
    Parse { line: usize, message: String },
}

/// The error is the parse error `(line, message)`.
pub open spec fn is_parse_error(e: &GollyLoadError, expected: (nat, Seq<char>)) -> bool {
    e matches GollyLoadError::Parse { line, message } && line == expected.0 && message@ == expected.1
}

/// Checks that `s[lo..hi]` names the JvN29 rule.
fn validate_rule(s: &[char], lo: usize, hi: usize, line: usize) -> (r: Result<(), GollyLoadError>)
    requires
        lo <= hi <= s@.len(),
    ensures
        match spec_validate_rule(s@.subrange(lo as int, hi as int), line as nat) {
            Ok(()) => r is Ok,
            Err(e) => r matches Err(err) && is_parse_error(&err, e),
        },
{
    let (a, b) = trim_range(s, lo, hi);
    proof {
        lemma_trim_subrange(s@, lo as int, hi as int);
    }
    let ghost normalized = ascii_lowercase(s@.subrange(a as int, b as int));
    let colon = find_char(s, a, b, ':');
    proof {
        lemma_find_from(s@.subrange(a as int, b as int), 0, ':');
        if colon < b {
            assert(normalized[colon - a] == ':');
        } else {
            assert forall|j: int| 0 <= j < normalized.len() implies normalized[j] != ':' by {
                assert(s@.subrange(a as int, b as int)[j] != ':');
            }
        }
    }
    if colon < b {
        return Err(parse_error(line, "bounded JvN29 rules are not supported"));
    }
    let short_name: &[char] = &['j', 'v', 'n', '2', '9'];
    let long_name: &[char] = &['j', 'v', 'n', '-', '2', '9'];
    assert(short_name@ == seq!['j', 'v', 'n', '2', '9']);
    assert(long_name@ == seq!['j', 'v', 'n', '-', '2', '9']);
    if !lower_range_equals(s, a, b, short_name) && !lower_range_equals(s, a, b, long_name) {
        let mut m = string_from_str("unsupported rule ");
        let rule = string_from_range(s, lo, hi);
        let shown = debug_str(rule.as_str());
        push_chars(&mut m, chars_of_string(&shown).as_slice());
        push_str(&mut m, "; expected JvN29");
        return Err(parse_error_with(line, m));
    }
    Ok(())
}

/// What the fields of a header line read so far give.
pub struct HeaderScan {
    pub width: Option<usize>,
    pub height: Option<usize>,
    pub rule: Option<Seq<char>>,
}

/// Reads one `key = value` field of a header line.
pub open spec fn spec_header_field(h: HeaderScan, part: Seq<char>, line: nat) -> Result<HeaderScan, (nat, Seq<char>)> {
    let eq = find_from(part, 0, '=');
    if eq >= part.len() {
        Err((line, "malformed header field"@))
    } else {
        let key = ascii_lowercase(trim_seq(part.subrange(0, eq)));
        let value = trim_seq(part.subrange(eq + 1, part.len() as int));
        if key == seq!['x'] {
            match spec_parse_usize(value) {
                Some(w) => Ok(HeaderScan { width: Some(w), ..h }),
                None => Err((line, "invalid width"@)),
            }
        } else if key == seq!['y'] {
            match spec_parse_usize(value) {
                Some(v) => Ok(HeaderScan { height: Some(v), ..h }),
                None => Err((line, "invalid height"@)),
            }
        } else if key == seq!['r', 'u', 'l', 'e'] {
            Ok(HeaderScan { rule: Some(value), ..h })
        } else {
            Err((line, "unsupported header field "@ + debug_str_text(key)))
        }
    }
}

/// Reads the comma-separated fields of a header line from position `p`.
pub open spec fn spec_header_fields(t: Seq<char>, p: int, h: HeaderScan, line: nat) -> Result<HeaderScan, (nat, Seq<char>)>
    decreases t.len() - p,
{
    if p < 0 || p > t.len() {
        Ok(h)
    } else {
        let q = find_from(t, p, ',');
        proof {
            lemma_find_from(t, p, ',');
        }
        match spec_header_field(h, t.subrange(p, q), line) {
            Err(e) => Err(e),
            Ok(h2) => if q >= t.len() {
                Ok(h2)
            } else {
                spec_header_fields(t, q + 1, h2, line)
            },
        }
    }
}

/// The size and the rule that a header line declares.
pub open spec fn spec_header(t: Seq<char>, line: nat) -> Result<((usize, usize), Option<Seq<char>>), (nat, Seq<char>)> {
    match spec_header_fields(t, 0, HeaderScan { width: None, height: None, rule: None }, line) {
        Err(e) => Err(e),
        Ok(h) => match (h.width, h.height) {
            (Some(w), Some(v)) => Ok(((w, v), h.rule)),
            (None, _) => Err((line, "missing x dimension"@)),
            (Some(_), None) => Err((line, "missing y dimension"@)),
        },
    }
}

/// Reads the size and the rule that the header line `s[lo..hi]` declares;
/// the rule is given as a range of positions in `s`.
#[verifier::rlimit(50)]
fn parse_header(s: &[char], lo: usize, hi: usize, line: usize) -> (r: Result<((usize, usize), Option<(usize, usize)>), GollyLoadError>)
    requires
        lo <= hi <= s@.len(),
    ensures
        match spec_header(s@.subrange(lo as int, hi as int), line as nat) {
            Ok((size, rule)) => r matches Ok((size2, rule2)) && size2 == size && match rule2 {
                Some((a, b)) => a <= b <= s@.len() && rule == Some(s@.subrange(a as int, b as int)),
                None => rule is None,
            },
            Err(e) => r matches Err(err) && is_parse_error(&err, e),
        },
{
    let ghost t = s@.subrange(lo as int, hi as int);
    let mut width: Option<usize> = None;
    let mut height: Option<usize> = None;
    let mut rule: Option<(usize, usize)> = None;
    let mut p = lo;
    loop
        invariant_except_break
            spec_header_fields(t, 0, HeaderScan { width: None, height: None, rule: None }, line as nat)
                == spec_header_fields(
                t,
                p - lo,
                HeaderScan {
                    width,
                    height,
                    rule: match rule {
                        Some((a, b)) => Some(s@.subrange(a as int, b as int)),
                        None => None,
                    },
                },
                line as nat,
            ),
        invariant
            lo <= p <= hi,
            hi <= s@.len(),
            t == s@.subrange(lo as int, hi as int),
            match rule {
                Some((a, b)) => a <= b <= s@.len(),
                None => true,
            },
        ensures
            spec_header_fields(t, 0, HeaderScan { width: None, height: None, rule: None }, line as nat)
                == Ok::<HeaderScan, (nat, Seq<char>)>(
                HeaderScan {
                    width,
                    height,
                    rule: match rule {
                        Some((a, b)) => Some(s@.subrange(a as int, b as int)),
                        None => None,
                    },
                },
            ),
        decreases hi - p,
    {
        let ghost h = HeaderScan {
            width,
            height,
            rule: match rule {
                Some((a, b)) => Some(s@.subrange(a as int, b as int)),
                None => None,
            },
        };
        let q = find_char(s, p, hi, ',');
        proof {
            lemma_find_from(t, p - lo, ',');
            lemma_find_from(s@.subrange(p as int, hi as int), 0, ',');
            lemma_find_tail(t, (p - lo) as int, ',');
            assert(s@.subrange(p as int, hi as int) =~= t.subrange(p - lo, t.len() as int));
        }
        let ghost part = s@.subrange(p as int, q as int);
        assert(part =~= t.subrange(p - lo, q - lo));
        let eq = find_char(s, p, q, '=');
        proof {
            lemma_find_from(part, 0, '=');
            assert(spec_header_fields(t, p - lo, h, line as nat) == match spec_header_field(h, part, line as nat) {
                Err(e) => Err(e),
                Ok(h2) => if q - lo >= t.len() {
                    Ok(h2)
                } else {
                    spec_header_fields(t, q - lo + 1, h2, line as nat)
                },
            });
        }
        if eq >= q {
            return Err(parse_error(line, "malformed header field"));
        }
        let (ka, kb) = trim_range(s, p, eq);
        let (va, vb) = trim_range(s, eq + 1, q);
        let ghost key = ascii_lowercase(s@.subrange(ka as int, kb as int));
        let ghost value = s@.subrange(va as int, vb as int);
        proof {
            lemma_trim_subrange(s@, p as int, eq as int);
            lemma_trim_subrange(s@, eq + 1, q as int);
            assert(part.subrange(0, eq - p) =~= s@.subrange(p as int, eq as int));
            assert(part.subrange(eq - p + 1, part.len() as int) =~= s@.subrange(eq + 1, q as int));
            assert(key == ascii_lowercase(trim_seq(part.subrange(0, eq - p))));
            assert(value == trim_seq(part.subrange(eq - p + 1, part.len() as int)));
            assert(spec_header_field(h, part, line as nat) == if key == seq!['x'] {
                match spec_parse_usize(value) {
                    Some(w) => Ok(HeaderScan { width: Some(w), ..h }),
                    None => Err((line as nat, "invalid width"@)),
                }
            } else if key == seq!['y'] {
                match spec_parse_usize(value) {
                    Some(v) => Ok(HeaderScan { height: Some(v), ..h }),
                    None => Err((line as nat, "invalid height"@)),
                }
            } else if key == seq!['r', 'u', 'l', 'e'] {
                Ok(HeaderScan { rule: Some(value), ..h })
            } else {
                Err((line as nat, "unsupported header field "@ + debug_str_text(key)))
            });
            assert(spec_header_fields(t, p - lo, h, line as nat) == match spec_header_field(h, part, line as nat) {
                Err(e) => Err(e),
                Ok(h2) => if q - lo >= t.len() {
                    Ok(h2)
                } else {
                    spec_header_fields(t, q - lo + 1, h2, line as nat)
                },
            });
        }
        let x_word: &[char] = &['x'];
        let y_word: &[char] = &['y'];
        let rule_word: &[char] = &['r', 'u', 'l', 'e'];
        assert(x_word@ == seq!['x']);
        assert(y_word@ == seq!['y']);
        assert(rule_word@ == seq!['r', 'u', 'l', 'e']);
        if lower_range_equals(s, ka, kb, x_word) {
            match parse_usize(s, va, vb) {
                Some(w) => {
                    width = Some(w);
                },
                None => {
                    assert(spec_header_field(h, part, line as nat) == Err::<HeaderScan, (nat, Seq<char>)>(
                        (line as nat, "invalid width"@),
                    ));
                    return Err(parse_error(line, "invalid width"));
                },
            }
        } else if lower_range_equals(s, ka, kb, y_word) {
            match parse_usize(s, va, vb) {
                Some(v) => {
                    height = Some(v);
                },
                None => {
                    assert(spec_header_field(h, part, line as nat) == Err::<HeaderScan, (nat, Seq<char>)>(
                        (line as nat, "invalid height"@),
                    ));
                    return Err(parse_error(line, "invalid height"));
                },
            }
        } else if lower_range_equals(s, ka, kb, rule_word) {
            rule = Some((va, vb));
        } else {
            let mut m = string_from_str("unsupported header field ");
            let key = lower_string(s, ka, kb);
            let shown = debug_str(key.as_str());
            push_chars(&mut m, chars_of_string(&shown).as_slice());
            assert(spec_header_field(h, part, line as nat) == Err::<HeaderScan, (nat, Seq<char>)>(
                (line as nat, m@),
            ));
            return Err(parse_error_with(line, m));
        }
        let ghost h2 = HeaderScan {
            width,
            height,
            rule: match rule {
                Some((a, b)) => Some(s@.subrange(a as int, b as int)),
                None => None,
            },
        };
        assert(spec_header_field(h, part, line as nat) == Ok::<HeaderScan, (nat, Seq<char>)>(h2));
        if q >= hi {
            break;
        }
        p = q + 1;
    }
    match (width, height) {
        (Some(w), Some(v)) => Ok(((w, v), rule)),
        (None, _) => Err(parse_error(line, "missing x dimension")),
        (Some(_), None) => Err(parse_error(line, "missing y dimension")),
    }
}

/// Searching from a position finds what searching the rest from its start
/// finds, shifted.
proof fn lemma_find_tail(t: Seq<char>, p: int, c: char)
    requires
        0 <= p <= t.len(),
    ensures
        find_from(t, p, c) == find_from(t.subrange(p, t.len() as int), 0, c) + p,
{
    lemma_find_tail_from(t, p, p, c);
}

proof fn lemma_find_tail_from(t: Seq<char>, p: int, i: int, c: char)
    requires
        0 <= p <= i <= t.len(),
    ensures
        find_from(t, i, c) == find_from(t.subrange(p, t.len() as int), i - p, c) + p,
    decreases t.len() - i,
{
    if i < t.len() && t[i] != c {
        lemma_find_tail_from(t, p, i + 1, c);
    }
}

/// The position of the first whitespace character of `t` at or after
/// `p`, or the end.
pub open spec fn word_end(t: Seq<char>, p: int) -> int
    decreases t.len() - p,
{
    if p >= t.len() {
        t.len() as int
    } else if is_white_space(t[p]) {
        p
    } else {
        word_end(t, p + 1)
    }
}

pub proof fn lemma_word_end(t: Seq<char>, p: int)
    requires
        0 <= p <= t.len(),
    ensures
        p <= word_end(t, p) <= t.len(),
        word_end(t, p) < t.len() ==> is_white_space(t[word_end(t, p)]),
        forall|j: int| p <= j < word_end(t, p) ==> !is_white_space(t[j]),
    decreases t.len() - p,
{
    if p < t.len() && !is_white_space(t[p]) {
        lemma_word_end(t, p + 1);
    }
}

/// Reads one `key=value` field of a `#CXRLE` line.
pub open spec fn spec_xrle_field(scan: GollyScan, w: Seq<char>, line: nat) -> Result<GollyScan, (nat, Seq<char>)> {
    let eq = find_from(w, 0, '=');
    if eq >= w.len() {
        Err((line, "malformed CXRLE field"@))
    } else {
        let key = ascii_lowercase(w.subrange(0, eq));
        let value = w.subrange(eq + 1, w.len() as int);
        if key == seq!['p', 'o', 's'] {
            let comma = find_from(value, 0, ',');
            if comma >= value.len() {
                Err((line, "malformed CXRLE Pos"@))
            } else {
                match spec_parse_isize(value.subrange(0, comma)) {
                    None => Err((line, "invalid CXRLE x position"@)),
                    Some(x) => match spec_parse_isize(value.subrange(comma + 1, value.len() as int)) {
                        None => Err((line, "invalid CXRLE y position"@)),
                        Some(y) => Ok(GollyScan { origin: (x, y), ..scan }),
                    },
                }
            }
        } else if key == seq!['g', 'e', 'n'] {
            if value.len() == 0 || !all_digits(value) {
                Err((line, "invalid CXRLE generation"@))
            } else {
                Ok(GollyScan { generation: Some(value), ..scan })
            }
        } else {
            Ok(scan)
        }
    }
}

/// Reads the whitespace-separated fields of a `#CXRLE` line from
/// position `p`.
pub open spec fn spec_xrle_fields(t: Seq<char>, p: int, scan: GollyScan, line: nat) -> Result<GollyScan, (nat, Seq<char>)>
    decreases t.len() - p,
{
    if p < 0 || p >= t.len() {
        Ok(scan)
    } else if is_white_space(t[p]) {
        spec_xrle_fields(t, p + 1, scan, line)
    } else {
        let q = word_end(t, p);
        proof {
            lemma_word_end(t, p + 1);
        }
        match spec_xrle_field(scan, t.subrange(p, q), line) {
            Err(e) => Err(e),
            Ok(s2) => spec_xrle_fields(t, q, s2, line),
        }
    }
}

/// The rule of a legacy `#r` (or `#R`) line, if it names one.
pub open spec fn spec_legacy_rule(t: Seq<char>) -> Option<Seq<char>> {
    if starts_with(t, seq!['#', 'r']) || starts_with(t, seq!['#', 'R']) {
        let rest = trim_seq(t.subrange(2, t.len() as int));
        if rest.len() > 0 {
            Some(rest)
        } else {
            None
        }
    } else {
        None
    }
}

/// A header line: `x` followed by whitespace or `=`.
pub open spec fn spec_is_header(t: Seq<char>) -> bool {
    t.len() >= 2 && t[0] == 'x' && (is_ascii_white_space(t[1]) || t[1] == '=')
}

/// Reads one trimmed line `t`, line number `line`.
pub open spec fn spec_line_step(scan: GollyScan, t: Seq<char>, line: nat) -> Result<GollyScan, (nat, Seq<char>)> {
    if t.len() == 0 {
        Ok(scan)
    } else if starts_with(t, seq!['#', 'C', 'X', 'R', 'L', 'E']) {
        spec_xrle_fields(t, 6, scan, line)
    } else if t[0] == '#' {
        match spec_legacy_rule(t) {
            Some(rule) => spec_set_rule(scan, rule, line),
            None => Ok(GollyScan { comments: scan.comments.push(t), ..scan }),
        }
    } else if spec_is_header(t) {
        match spec_header(t, line) {
            Err(e) => Err(e),
            Ok((size, rule)) => {
                let s2 = GollyScan { declared_size: Some(size), ..scan };
                match rule {
                    Some(r) => spec_set_rule(s2, r, line),
                    None => Ok(s2),
                }
            },
        }
    } else {
        Ok(
            GollyScan {
                first_data_line: if scan.data.len() == 0 {
                    line
                } else {
                    scan.first_data_line
                },
                data: scan.data + t,
                ..scan
            },
        )
    }
}

/// Reads the lines of `s` from position `p`, the first of them numbered
/// `line`, each trimmed of whitespace.
pub open spec fn spec_scan_lines(s: Seq<char>, p: int, line: nat, scan: GollyScan) -> Result<GollyScan, (nat, Seq<char>)>
    decreases s.len() - p,
{
    if p < 0 || p >= s.len() {
        Ok(scan)
    } else {
        let e = find_from(s, p, '\n');
        proof {
            lemma_find_from(s, p, '\n');
        }
        match spec_line_step(scan, s.subrange(trimmed(s, p, e).0, trimmed(s, p, e).1), line) {
            Err(err) => Err(err),
            Ok(s2) => if e >= s.len() {
                Ok(s2)
            } else {
                spec_scan_lines(s, e + 1, line + 1, s2)
            },
        }
    }
}

/// A JvN29 pattern read from a Golly file.
pub struct GollyPatternView {
    pub declared_size: (usize, usize),
    pub origin: (isize, isize),
    pub generation: Option<Seq<char>>,
    pub comments: Seq<Seq<char>>,
    pub cells: Seq<Cell<VonNeumannState>>,
}

/// The pattern that the text `s` of a Golly RLE file holds, or the line
/// and the message of the first error.
pub open spec fn spec_parse_jvn29_rle(s: Seq<char>) -> Result<GollyPatternView, (nat, Seq<char>)> {
    match spec_scan_lines(s, 0, 1, golly_scan_start()) {
        Err(e) => Err(e),
        Ok(scan) => match scan.declared_size {
            None => Err((1, "missing RLE x/y header"@)),
            Some(size) => match scan.declared_rule {
                None => Err((1, "missing JvN29 rule declaration"@)),
                Some(rule) => match spec_validate_rule(rule, 1) {
                    Err(e) => Err(e),
                    Ok(()) => match spec_rle_cells(scan.data, scan.origin) {
                        Err(m) => Err((scan.first_data_line, m)),
                        Ok(cells) => Ok(
                            GollyPatternView {
                                declared_size: size,
                                origin: scan.origin,
                                generation: scan.generation,
                                comments: scan.comments,
                                cells,
                            },
                        ),
                    },
                },
            },
        },
    }
}


/// The cells of a parsed JvN29 pattern come in reading order, none in the
/// ground state and none above or to the left of the pattern's origin.
pub proof fn lemma_parsed_cells_in_reading_order(s: Seq<char>)
    ensures
        spec_parse_jvn29_rle(s) matches Ok(p) ==> cells_in_reading_order(p.cells, p.origin),
{
    if let Ok(scan) = spec_scan_lines(s, 0, 1, golly_scan_start()) {
        lemma_rle_cells_in_reading_order(scan.data, scan.origin);
    }
}

/// The text of an optional string.
pub open spec fn opt_text(o: Option<String>) -> Option<Seq<char>> {
    match o {
        Some(t) => Some(t@),
        None => None,
    }
}

/// The texts of a sequence of strings.
pub open spec fn texts(v: Seq<String>) -> Seq<Seq<char>> {
    Seq::new(v.len(), |i: int| v[i]@)
}

/// What the lines of a Golly file read so far declare; `scan_view` gives
/// it as a `GollyScan`.
struct LineScan {
    declared_size: Option<(usize, usize)>,
    origin: (isize, isize),
    generation: Option<String>,
    comments: Vec<String>,
    declared_rule: Option<String>,
    data: Vec<char>,
    first_data_line: usize,
}

spec fn scan_view(st: &LineScan) -> GollyScan {
    GollyScan {
        declared_size: st.declared_size,
        origin: st.origin,
        generation: opt_text(st.generation),
        comments: texts(st.comments@),
        declared_rule: opt_text(st.declared_rule),
        data: st.data@,
        first_data_line: st.first_data_line as nat,
    }
}

/// Whether the rule names `p` and `s[a..b]` agree once trimmed and in
/// lower case.
fn rules_equal(p: &[char], s: &[char], a: usize, b: usize) -> (r: bool)
    requires
        a <= b <= s@.len(),
    ensures
        r == (normalize_rule(p@) == normalize_rule(s@.subrange(a as int, b as int))),
{
    let (pa, pb) = trim_range(p, 0, p.len());
    let (sa, sb) = trim_range(s, a, b);
    proof {
        lemma_trim_subrange(s@, a as int, b as int);
    }
    let ghost x = p@.subrange(pa as int, pb as int);
    let ghost y = s@.subrange(sa as int, sb as int);
    assert(normalize_rule(p@) == ascii_lowercase(x));
    assert(normalize_rule(s@.subrange(a as int, b as int)) == ascii_lowercase(y));
    if pb - pa != sb - sa {
        assert(ascii_lowercase(x).len() != ascii_lowercase(y).len());
        return false;
    }
    let mut i: usize = 0;
    while i < pb - pa
        invariant
            pa <= pb <= p@.len(),
            sa <= sb <= s@.len(),
            pb - pa == sb - sa,
            i <= pb - pa,
            x == p@.subrange(pa as int, pb as int),
            y == s@.subrange(sa as int, sb as int),
            normalize_rule(p@) == ascii_lowercase(x),
            normalize_rule(s@.subrange(a as int, b as int)) == ascii_lowercase(y),
            forall|k: int| 0 <= k < i ==> ascii_lower(#[trigger] x[k]) == ascii_lower(y[k]),
        decreases pb - pa - i,
    {
        if crate::text::to_ascii_lower(p[pa + i]) != crate::text::to_ascii_lower(s[sa + i]) {
            assert(ascii_lowercase(x)[i as int] != ascii_lowercase(y)[i as int]);
            return false;
        }
        i = i + 1;
    }
    assert(ascii_lowercase(x) =~= ascii_lowercase(y));
    true
}

/// Declares the rule `s[a..b]` on line `line`.
fn set_rule(st: &mut LineScan, s: &[char], a: usize, b: usize, line: usize) -> (r: Result<(), GollyLoadError>)
    requires
        a <= b <= s@.len(),
    ensures
        match spec_set_rule(scan_view(old(st)), s@.subrange(a as int, b as int), line as nat) {
            Ok(next) => r is Ok && scan_view(final(st)) == next,
            Err(e) => r matches Err(err) && is_parse_error(&err, e),
        },
{
    match validate_rule(s, a, b, line) {
        Err(e) => return Err(e),
        Ok(()) => {},
    }
    match &st.declared_rule {
        Some(previous) => {
            let previous_chars = chars_of_string(previous);
            if !rules_equal(previous_chars.as_slice(), s, a, b) {
                return Err(parse_error(line, "conflicting rule declarations"));
            }
            Ok(())
        },
        None => {
            st.declared_rule = Some(string_from_range(s, a, b));
            Ok(())
        },
    }
}

/// Reads the `key=value` field `s[p..q]` of a `#CXRLE` line.
fn read_xrle_field(st: &mut LineScan, s: &[char], p: usize, q: usize, line: usize) -> (r: Result<(), GollyLoadError>)
    requires
        p <= q <= s@.len(),
    ensures
        match spec_xrle_field(scan_view(old(st)), s@.subrange(p as int, q as int), line as nat) {
            Ok(next) => r is Ok && scan_view(final(st)) == next,
            Err(e) => r matches Err(err) && is_parse_error(&err, e),
        },
{
    let ghost w = s@.subrange(p as int, q as int);
    let eq = find_char(s, p, q, '=');
    proof {
        lemma_find_from(w, 0, '=');
    }
    if eq >= q {
        return Err(parse_error(line, "malformed CXRLE field"));
    }
    let ghost value = s@.subrange(eq + 1, q as int);
    assert(w.subrange(0, eq - p) =~= s@.subrange(p as int, eq as int));
    assert(w.subrange(eq - p + 1, w.len() as int) =~= value);
    let pos_word: &[char] = &['p', 'o', 's'];
    let gen_word: &[char] = &['g', 'e', 'n'];
    assert(pos_word@ == seq!['p', 'o', 's']);
    assert(gen_word@ == seq!['g', 'e', 'n']);
    if lower_range_equals(s, p, eq, pos_word) {
        let comma = find_char(s, eq + 1, q, ',');
        proof {
            lemma_find_from(value, 0, ',');
        }
        if comma >= q {
            return Err(parse_error(line, "malformed CXRLE Pos"));
        }
        assert(value.subrange(0, comma - eq - 1) =~= s@.subrange(eq + 1, comma as int));
        assert(value.subrange(comma - eq, value.len() as int) =~= s@.subrange(comma + 1, q as int));
        let x = match parse_isize(s, eq + 1, comma) {
            Some(x) => x,
            None => {
                return Err(parse_error(line, "invalid CXRLE x position"));
            },
        };
        let y = match parse_isize(s, comma + 1, q) {
            Some(y) => y,
            None => {
                return Err(parse_error(line, "invalid CXRLE y position"));
            },
        };
        st.origin = (x, y);
        Ok(())
    } else if lower_range_equals(s, p, eq, gen_word) {
        if eq + 1 == q || !digits_only(s, eq + 1, q) {
            return Err(parse_error(line, "invalid CXRLE generation"));
        }
        st.generation = Some(string_from_range(s, eq + 1, q));
        Ok(())
    } else {
        Ok(())
    }
}

/// Reads the `#CXRLE` line `s[a..b]`: its whitespace-separated fields
/// after the first six characters.
fn read_xrle_line(st: &mut LineScan, s: &[char], a: usize, b: usize, line: usize) -> (r: Result<(), GollyLoadError>)
    requires
        a + 6 <= b <= s@.len(),
    ensures
        match spec_xrle_fields(s@.subrange(a as int, b as int), 6, scan_view(old(st)), line as nat) {
            Ok(next) => r is Ok && scan_view(final(st)) == next,
            Err(e) => r matches Err(err) && is_parse_error(&err, e),
        },
{
    let ghost t = s@.subrange(a as int, b as int);
    let mut p = a + 6;
    while p < b
        invariant
            a + 6 <= p <= b,
            b <= s@.len(),
            t == s@.subrange(a as int, b as int),
            spec_xrle_fields(t, 6, scan_view(old(st)), line as nat) == spec_xrle_fields(
                t,
                p - a,
                scan_view(st),
                line as nat,
            ),
        decreases b - p,
    {
        if is_whitespace_char(s[p]) {
            p = p + 1;
        } else {
            let mut q = p + 1;
            proof {
                lemma_word_end(t, p - a + 1);
            }
            while q < b && !is_whitespace_char(s[q])
                invariant
                    a + 6 <= p < q <= b,
                    b <= s@.len(),
                    t == s@.subrange(a as int, b as int),
                    word_end(t, q - a) == word_end(t, p - a + 1),
                decreases b - q,
            {
                assert(t[q - a] == s@[q as int]);
                q = q + 1;
            }
            assert(t.subrange(p - a, q - a) =~= s@.subrange(p as int, q as int));
            match read_xrle_field(st, s, p, q, line) {
                Err(e) => {
                    return Err(e);
                },
                Ok(()) => {},
            }
            p = q;
        }
    }
    Ok(())
}

/// Appends `s[lo..hi]` to `v`.
fn push_range(v: &mut Vec<char>, s: &[char], lo: usize, hi: usize)
    requires
        lo <= hi <= s@.len(),
    ensures
        final(v)@ == old(v)@ + s@.subrange(lo as int, hi as int),
{
    let mut i = lo;
    while i < hi
        invariant
            lo <= i <= hi,
            hi <= s@.len(),
            v@ == old(v)@ + s@.subrange(lo as int, i as int),
        decreases hi - i,
    {
        v.push(s[i]);
        i = i + 1;
        assert(v@ =~= old(v)@ + s@.subrange(lo as int, i as int));
    }
}

/// Reads the trimmed line `s[a..b]`, line number `line`.
fn read_line(st: &mut LineScan, s: &[char], a: usize, b: usize, line: usize) -> (r: Result<(), GollyLoadError>)
    requires
        a <= b <= s@.len(),
    ensures
        match spec_line_step(scan_view(old(st)), s@.subrange(a as int, b as int), line as nat) {
            Ok(next) => r is Ok && scan_view(final(st)) == next,
            Err(e) => r matches Err(err) && is_parse_error(&err, e),
        },
{
    let ghost t = s@.subrange(a as int, b as int);
    if a == b {
        return Ok(());
    }
    let xrle_word: &[char] = &['#', 'C', 'X', 'R', 'L', 'E'];
    assert(xrle_word@ == seq!['#', 'C', 'X', 'R', 'L', 'E']);
    if b - a >= 6 {
        assert(t.subrange(0, 6) =~= s@.subrange(a as int, a + 6));
        if range_equals(s, a, a + 6, xrle_word) {
            return read_xrle_line(st, s, a, b, line);
        }
    }
    assert(t[0] == s@[a as int]);
    if s[a] == '#' {
        let lower_r: &[char] = &['#', 'r'];
        let upper_r: &[char] = &['#', 'R'];
        assert(lower_r@ == seq!['#', 'r']);
        assert(upper_r@ == seq!['#', 'R']);
        if b - a >= 2 {
            assert(t.subrange(0, 2) =~= s@.subrange(a as int, a + 2));
            if range_equals(s, a, a + 2, lower_r) || range_equals(s, a, a + 2, upper_r) {
                let (ra, rb) = trim_range(s, a + 2, b);
                proof {
                    lemma_trim_subrange(s@, a + 2, b as int);
                    assert(t.subrange(2, t.len() as int) =~= s@.subrange(a + 2, b as int));
                }
                if ra < rb {
                    return set_rule(st, s, ra, rb, line);
                }
            }
        }
        st.comments.push(string_from_range(s, a, b));
        assert(texts(st.comments@) =~= texts(old(st).comments@).push(t));
        return Ok(());
    }
    assert(b - a >= 2 ==> t[1] == s@[a + 1]);
    if b - a >= 2 && s[a] == 'x' && (is_ascii_whitespace_char(s[a + 1]) || s[a + 1] == '=') {
        match parse_header(s, a, b, line) {
            Err(e) => {
                return Err(e);
            },
            Ok((size, rule)) => {
                st.declared_size = Some(size);
                match rule {
                    Some((ra, rb)) => {
                        return set_rule(st, s, ra, rb, line);
                    },
                    None => {
                        return Ok(());
                    },
                }
            },
        }
    }
    if st.data.len() == 0 {
        st.first_data_line = line;
    }
    push_range(&mut st.data, s, a, b);
    Ok(())
}

/// A JvN29 pattern read from a Golly RLE file: the size that its header
/// declares, the position of its top left cell, the generation that its
/// `#CXRLE` line gives, its comment lines, and its cells in the order of
/// the file.
#[derive(Debug, PartialEq, Eq)]
pub struct GollyJvN29Pattern {
    pub declared_size: (usize, usize),
    pub origin: (isize, isize),
    pub generation: Option<String>,
    pub comments: Vec<String>,
    pub cells: Vec<Cell<VonNeumannState>>,
}

impl Clone for GollyJvN29Pattern {
    fn clone(&self) -> (r: Self)
        ensures
            r@ == self@,
    {
        let comments = self.comments.clone();
        let cells = crate::vns::copy_cells(&self.cells);
        proof {
            assert(texts(comments@) =~= texts(self.comments@));
        }
        GollyJvN29Pattern {
            declared_size: self.declared_size,
            origin: self.origin,
            generation: self.generation.clone(),
            comments,
            cells,
        }
    }
}

impl View for GollyJvN29Pattern {
    type V = GollyPatternView;

    open spec fn view(&self) -> GollyPatternView {
        GollyPatternView {
            declared_size: self.declared_size,
            origin: self.origin,
            generation: opt_text(self.generation),
            comments: texts(self.comments@),
            cells: self.cells@,
        }
    }
}

/// Reads a JvN29 pattern from the text of a Golly RLE file, or gives the
/// line and the reason of the first error.
#[verifier::rlimit(30)]
pub fn parse_jvn29_rle(input: &str) -> (r: Result<GollyJvN29Pattern, GollyLoadError>)
    ensures
        match spec_parse_jvn29_rle(input@) {
            Ok(v) => r matches Ok(p) && p@ == v,
            Err(e) => r matches Err(err) && is_parse_error(&err, e),
        },
{
    let chars = crate::text::chars_of(input);
    let s = chars.as_slice();
    let mut st = LineScan {
        declared_size: None,
        origin: (0, 0),
        generation: None,
        comments: Vec::new(),
        declared_rule: None,
        data: Vec::new(),
        first_data_line: 1,
    };
    assert(scan_view(&st) == golly_scan_start()) by {
        assert(texts(st.comments@) =~= Seq::<Seq<char>>::empty());
    }
    let n = s.len();
    if n > 0 {
        let mut p: usize = 0;
        let mut line: usize = 1;
        loop
            invariant_except_break
                p < n,
                line <= p + 1,
                spec_scan_lines(s@, 0, 1, golly_scan_start()) == spec_scan_lines(
                    s@,
                    p as int,
                    line as nat,
                    scan_view(&st),
                ),
            invariant
                n == s@.len(),
                s@ == input@,
            ensures
                spec_scan_lines(s@, 0, 1, golly_scan_start()) == Ok::<GollyScan, (nat, Seq<char>)>(scan_view(&st)),
            decreases n - p,
        {
            let e = find_char(s, p, n, '\n');
            proof {
                lemma_find_from(s@, p as int, '\n');
                lemma_find_tail(s@, p as int, '\n');
            }
            let (a, b) = trim_range(s, p, e);
            let ghost before = scan_view(&st);
            match read_line(&mut st, s, a, b, line) {
                Err(err) => {
                    return Err(err);
                },
                Ok(()) => {},
            }
            assert(spec_scan_lines(s@, p as int, line as nat, before) == if e >= s@.len() {
                Ok::<GollyScan, (nat, Seq<char>)>(scan_view(&st))
            } else {
                spec_scan_lines(s@, e + 1, (line + 1) as nat, scan_view(&st))
            });
            if e >= n - 1 {
                assert(e < n ==> spec_scan_lines(s@, e + 1, (line + 1) as nat, scan_view(&st)) == Ok::<
                    GollyScan,
                    (nat, Seq<char>),
                >(scan_view(&st)));
                break;
            }
            p = e + 1;
            line = line + 1;
        }
    }
    let size = match st.declared_size {
        Some(size) => size,
        None => {
            return Err(parse_error(1, "missing RLE x/y header"));
        },
    };
    let rule = match &st.declared_rule {
        Some(rule) => chars_of_string(rule),
        None => {
            return Err(parse_error(1, "missing JvN29 rule declaration"));
        },
    };
    assert(rule@.subrange(0, rule@.len() as int) =~= rule@);
    match validate_rule(rule.as_slice(), 0, rule.len(), 1) {
        Err(e) => {
            return Err(e);
        },
        Ok(()) => {},
    }
    let cells = match parse_data(st.data.as_slice(), st.origin) {
        Ok(cells) => cells,
        Err(m) => {
            return Err(parse_error_with(st.first_data_line, m));
        },
    };
    Ok(
        GollyJvN29Pattern {
            declared_size: size,
            origin: st.origin,
            generation: st.generation,
            comments: st.comments,
            cells,
        },
    )
}

impl GollyJvN29Pattern {
    /// Writes the cells of the pattern into `automaton` in the order of the
    /// file; where two of them share a position the later one stays.
    pub fn apply_to(&self, automaton: &mut VonNeumann)
        requires
            old(automaton).wf(),
        ensures
            final(automaton).wf(),
            forall|x: int, y: int| #[trigger]
                final(automaton).state_at(x, y) == painted(
                    self.cells@,
                    self.cells@.len() as int,
                    x,
                    y,
                    old(automaton).state_at(x, y),
                ),
    {
        automaton.set_cells(self.cells.as_slice());
    }
}

/// `format!("{}", error)`: the text that `Display` writes for a reading
/// error. Nothing is stated of it.
#[verifier::external_body]
pub(crate) fn io_error_text(error: &std::io::Error) -> String {
    format!("{error}")
}

impl GollyLoadError {
    /// The text of the error: that of the reading error, or
    /// `line N: message` for a parse error.
    pub fn to_string(&self) -> (r: String)
        ensures
            self matches GollyLoadError::Parse { line, message } ==> r@ == "line "@ + crate::text::decimal(
                line as nat,
            ) + ": "@ + message@,
    {
        match self {
            GollyLoadError::Io(error) => io_error_text(error),
            GollyLoadError::Parse { line, message } => {
                let mut r = String::new();
                push_str(&mut r, "line ");
                crate::text::push_decimal(&mut r, *line as u128);
                push_str(&mut r, ": ");
                push_chars(&mut r, chars_of_string(message).as_slice());
                r
            },
        }
    }
}

} // verus!
