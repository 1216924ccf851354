//! Reading back what was written: the document that `build_vns_document`
//! makes of cells gives `load_document` the cells of the same grid, in the
//! order of rows; cells already in that order come back as they were.
use vstd::prelude::*;

use crate::cell::{painted, Cell, CellState};
use crate::game_of_life::GameOfLifeState;
use crate::golly::{
    spec_parse_jvn29_rle, GollyPatternView, spec_is_header, find_from, golly_scan_start, spec_header, spec_header_field, spec_header_fields, spec_line_step, spec_scan_lines,
    spec_set_rule, spec_validate_rule, spec_xrle_field, spec_xrle_fields, starts_with, trim_seq, word_end, GollyScan,
    HeaderScan, lemma_golly_numbering, rle_add_run, rle_scan, rle_start, rle_step, run_cells, spec_golly_code, spec_golly_state,
    spec_rle_cells, RleRead,
};
use crate::von_neumann::VonNeumannState;
use crate::studio::{automaton_of, ActiveAutomaton};
use crate::vns::{lemma_listed_cells_repaint, lists_grid, PatternCells};
use crate::golly::{fits_isize, texts};
use crate::vns::golly_token;
use crate::text::{
    all_digits, ascii_lowercase, decimal, digit_char, digits_value, is_ascii_white_space, is_white_space, signed_decimal,
    spec_parse_integer, spec_parse_isize, spec_parse_usize, trim_end_index, trim_start_index, trimmed,
};
use crate::vns::{
    concat_texts, life_run_cells, life_scan, life_start, life_step, rle_runs, rle_text, row_states, rows_text, run_text,
    spec_life_cells, split_rle_lines, split_state, trailing_run, lemma_trailing_run, Coordinate, LifeRead, RleState,
    SpecBounds, shown_state, state_in, shared_in, duplicate_before, spec_bounds, lemma_bounds, lemma_state_in_some,
    lemma_state_in_found, builds_pattern, documents, jvn29_golly_text, spec_jvn29_pattern_cells, overlays_error, point_set, spec_document_cells, CellsView, Overlay,
    Ruleset, Stage, VnsDocument, RlePattern,
};

verus! {

/// Reading `data` on from the reading state `r`.
pub open spec fn life_run(r: LifeRead, data: Seq<char>, origin: Coordinate) -> Result<LifeRead, Seq<char>>
    decreases data.len(),
{
    if data.len() == 0 {
        Ok(r)
    } else {
        match life_run(r, data.drop_last(), origin) {
            Err(e) => Err(e),
            Ok(r2) => life_step(r2, data.last(), origin),
        }
    }
}

/// Reading the first `n` characters is reading them on from the start.
proof fn lemma_life_scan_run(data: Seq<char>, n: nat, origin: Coordinate)
    requires
        n <= data.len(),
    ensures
        life_scan(data, n, origin) == life_run(life_start(), data.take(n as int), origin),
    decreases n,
{
    if n > 0 {
        lemma_life_scan_run(data, (n - 1) as nat, origin);
        assert(data.take(n as int).drop_last() =~= data.take(n - 1));
    } else {
        assert(data.take(0) =~= Seq::<char>::empty());
    }
}

/// Reading two texts one after the other.
proof fn lemma_life_run_append(r: LifeRead, a: Seq<char>, b: Seq<char>, origin: Coordinate)
    ensures
        life_run(r, a + b, origin) == match life_run(r, a, origin) {
            Err(e) => Err(e),
            Ok(r2) => life_run(r2, b, origin),
        },
    decreases b.len(),
{
    if b.len() == 0 {
        assert(a + b =~= a);
    } else {
        lemma_life_run_append(r, a, b.drop_last(), origin);
        assert((a + b).drop_last() =~= a + b.drop_last());
        assert((a + b).last() == b.last());
    }
}

/// The digit characters are decimal digits of their value.
proof fn lemma_digit_char(d: nat)
    requires
        d < 10,
    ensures
        '0' <= digit_char(d) <= '9',
        crate::text::digit_value(digit_char(d)) == d,
        digit_char(d) == '0' <==> d == 0,
        !crate::text::is_ascii_white_space(digit_char(d)),
{
}

/// The decimal digits of a positive number read as its run count.
proof fn lemma_life_digits(r: LifeRead, n: nat, origin: Coordinate)
    requires
        !r.ended,
        r.count == 0,
        1 <= n <= usize::MAX,
    ensures
        life_run(r, decimal(n), origin) == Ok::<LifeRead, Seq<char>>(LifeRead { count: n, ..r }),
    decreases n,
{
    if n < 10 {
        lemma_digit_char(n);
        let c = digit_char(n);
        assert(decimal(n).drop_last() =~= Seq::<char>::empty());
        assert(decimal(n).last() == c);
        assert(life_run(r, Seq::<char>::empty(), origin) == Ok::<LifeRead, Seq<char>>(r));
        assert(crate::text::is_digit(c));
        assert(life_step(r, c, origin) == Ok::<LifeRead, Seq<char>>(LifeRead { count: n, ..r }));
    } else {
        lemma_life_digits(r, n / 10, origin);
        lemma_digit_char(n % 10);
        let c = digit_char(n % 10);
        assert(decimal(n).drop_last() =~= decimal(n / 10));
        assert(decimal(n).last() == c);
        let r2 = LifeRead { count: n / 10, ..r };
        assert(crate::text::is_digit(c));
        assert(r2.count * 10 + crate::text::digit_value(c) == n);
        assert(life_step(r2, c, origin) == Ok::<LifeRead, Seq<char>>(LifeRead { count: n, ..r }));
    }
}

/// The cells of the states `t` of a row other than the default, at
/// columns from `ox` on and at row `wy`.
pub open spec fn row_cells<S: CellState>(t: Seq<S>, ox: int, wy: int) -> Seq<Cell<S>>
    decreases t.len(),
{
    if t.len() == 0 {
        seq![]
    } else {
        row_cells(t.drop_last(), ox, wy) + if t.last() != S::spec_default() {
            seq![Cell { x: (ox + t.len() - 1) as isize, y: wy as isize, state: t.last() }]
        } else {
            seq![]
        }
    }
}

/// A run of cells whose coordinates fit gives the live cells of the row
/// it covers.
proof fn lemma_run_cells_of_row(t: Seq<GameOfLifeState>, ox: int, wy: int, j0: int, s: GameOfLifeState, m: nat)
    requires
        0 <= j0,
        j0 + m <= t.len(),
        forall|j: int| j0 <= j < j0 + m ==> t[j] == s,
        j0 + m <= isize::MAX + 1,
        isize::MIN <= ox,
        ox + j0 + m <= isize::MAX + 1,
        fits_isize(wy),
    ensures
        life_run_cells(ox, wy, j0, s, m) is Ok,
        row_cells(t.take(j0 + m), ox, wy) == row_cells(t.take(j0), ox, wy) + life_run_cells(
            ox,
            wy,
            j0,
            s,
            m,
        )->Ok_0,
    decreases m,
{
    if m == 0 {
        assert(t.take(j0 + m) =~= t.take(j0));
        assert(row_cells(t.take(j0), ox, wy) + Seq::<Cell<GameOfLifeState>>::empty() =~= row_cells(
            t.take(j0),
            ox,
            wy,
        ));
    } else {
        lemma_run_cells_of_row(t, ox, wy, j0, s, (m - 1) as nat);
        let u = t.take(j0 + m);
        assert(u.drop_last() =~= t.take(j0 + m - 1));
        assert(u.last() == s);
        let prev = life_run_cells(ox, wy, j0, s, (m - 1) as nat)->Ok_0;
        if s != GameOfLifeState::Dead {
            assert(row_cells(u, ox, wy) =~= row_cells(t.take(j0), ox, wy) + prev.push(
                Cell { x: (ox + j0 + m - 1) as isize, y: wy as isize, state: s },
            ));
        } else {
            assert(row_cells(u, ox, wy) =~= row_cells(t.take(j0), ox, wy) + prev);
        }
    }
}

/// The text of a run of `k` cells of state `s` adds them and moves past
/// them.
proof fn lemma_life_run_text(r: LifeRead, s: GameOfLifeState, k: nat, origin: Coordinate)
    requires
        !r.ended,
        r.count == 0,
        1 <= k,
        0 <= r.x,
        r.x + k <= isize::MAX,
        fits_isize(origin.y + r.y),
        origin.x + r.x + k <= isize::MAX + 1,
    ensures
        life_run_cells(origin.x as int, origin.y + r.y, r.x, s, k) is Ok,
        life_run(r, run_text(s, k), origin) == Ok::<LifeRead, Seq<char>>(
            LifeRead {
                x: r.x + k,
                cells: r.cells + life_run_cells(origin.x as int, origin.y + r.y, r.x, s, k)->Ok_0,
                ..r
            },
        ),
{
    let t = Seq::new((r.x + k) as nat, |j: int| s);
    lemma_run_cells_of_row(t, origin.x as int, origin.y + r.y, r.x, s, k);
    let c = s.spec_token()[0];
    assert(s.spec_token() =~= seq![c]);
    assert(seq![c].drop_last() =~= Seq::<char>::empty());
    assert(life_run(r, Seq::<char>::empty(), origin) == Ok::<LifeRead, Seq<char>>(r));
    let r1 = LifeRead { count: k, ..r };
    if k > 1 {
        lemma_life_run_append(r, decimal(k), seq![c], origin);
        lemma_life_digits(r, k, origin);
        assert(life_run(r1, Seq::<char>::empty(), origin) == Ok::<LifeRead, Seq<char>>(r1));
        assert(life_run(r1, seq![c], origin) == life_step(r1, c, origin));
    } else {
        assert(run_text(s, k) == seq![c]);
        assert(life_run(r, seq![c], origin) == life_step(r, c, origin));
    }
}

/// The states of the last run of `t` are all its last state.
proof fn lemma_trailing_run_equal<S>(t: Seq<S>)
    ensures
        forall|j: int| t.len() - trailing_run(t) <= j < t.len() ==> t[j] == t.last(),
    decreases t.len(),
{
    lemma_trailing_run(t);
    if t.len() > 1 && t[t.len() - 2] == t[t.len() - 1] {
        lemma_trailing_run_equal(t.drop_last());
        assert forall|j: int| t.len() - trailing_run(t) <= j < t.len() implies t[j] == t.last() by {
            if j < t.len() - 1 {
                assert(t.drop_last()[j] == t.drop_last().last());
            }
        }
    }
}

/// Reading the text of a row from its first column adds its live cells
/// and moves past its last column.
proof fn lemma_life_row(r: LifeRead, t: Seq<GameOfLifeState>, origin: Coordinate)
    requires
        !r.ended,
        r.count == 0,
        r.x == 0,
        fits_isize(origin.y + r.y),
        t.len() <= isize::MAX,
        origin.x + t.len() <= isize::MAX + 1,
    ensures
        life_run(r, rle_runs(t), origin) == Ok::<LifeRead, Seq<char>>(
            LifeRead { x: t.len() as int, cells: r.cells + row_cells(t, origin.x as int, origin.y + r.y), ..r },
        ),
    decreases t.len(),
{
    let ox = origin.x as int;
    let wy = origin.y + r.y;
    if t.len() == 0 {
        assert(r.cells + row_cells(t, ox, wy) =~= r.cells);
    } else {
        let k = trailing_run(t);
        lemma_trailing_run(t);
        lemma_trailing_run_equal(t);
        let p = t.take(t.len() - k);
        lemma_life_row(r, p, origin);
        lemma_life_run_append(r, rle_runs(p), run_text(t.last(), k), origin);
        let r2 = LifeRead { x: p.len() as int, cells: r.cells + row_cells(p, ox, wy), ..r };
        lemma_life_run_text(r2, t.last(), k, origin);
        lemma_run_cells_of_row(t, ox, wy, p.len() as int, t.last(), k);
        assert(t.take(t.len() as int) =~= t);
        let run = life_run_cells(ox, wy, p.len() as int, t.last(), k)->Ok_0;
        assert(r.cells + row_cells(p, ox, wy) + run =~= r.cells + (row_cells(p, ox, wy) + run));
    }
}

/// The cells other than the default of the first `n` rows of the bounds
/// `b`, row after row, as the states shown there.
pub open spec fn rows_cells<S: CellState>(cells: Seq<Cell<S>>, b: SpecBounds, n: int) -> Seq<Cell<S>>
    decreases n,
{
    if n <= 0 {
        seq![]
    } else {
        rows_cells(cells, b, n - 1) + row_cells(row_states(cells, b, b.min_y + n - 1), b.min_x, b.min_y + n - 1)
    }
}

/// Bounds that fit `isize` coordinates, with a width and a height that do
/// too.
pub open spec fn bounds_fit(b: SpecBounds) -> bool {
    &&& fits_isize(b.min_x) && fits_isize(b.max_x) && fits_isize(b.min_y) && fits_isize(b.max_y)
    &&& b.min_x <= b.max_x && b.min_y <= b.max_y
    &&& b.max_x - b.min_x + 1 <= isize::MAX
    &&& b.max_y - b.min_y + 1 <= isize::MAX
}

/// Reading the text of the first `n` rows adds their live cells and ends
/// past the last column of row `n - 1`.
proof fn lemma_life_rows(cells: Seq<Cell<GameOfLifeState>>, b: SpecBounds, n: int, origin: Coordinate)
    requires
        origin.x == b.min_x,
        origin.y == b.min_y,
        bounds_fit(b),
        1 <= n <= b.max_y - b.min_y + 1,
    ensures
        life_run(life_start(), rows_text(cells, b, n), origin) == Ok::<LifeRead, Seq<char>>(
            LifeRead {
                x: b.max_x - b.min_x + 1,
                y: n - 1,
                count: 0,
                ended: false,
                cells: rows_cells(cells, b, n),
            },
        ),
    decreases n,
{
    let row = row_states(cells, b, b.min_y + n - 1);
    if n == 1 {
        lemma_life_row(life_start(), row, origin);
        assert(Seq::<Cell<GameOfLifeState>>::empty() + row_cells(row, b.min_x, b.min_y) =~= rows_cells(
            cells,
            b,
            1,
        ));
    } else {
        lemma_life_rows(cells, b, n - 1, origin);
        let before = rows_text(cells, b, n - 1);
        lemma_life_run_append(life_start(), before + seq!['$'], rle_runs(row), origin);
        lemma_life_run_append(life_start(), before, seq!['$'], origin);
        let r1 = LifeRead {
            x: b.max_x - b.min_x + 1,
            y: n - 2,
            count: 0,
            ended: false,
            cells: rows_cells(cells, b, n - 1),
        };
        assert(seq!['$'].drop_last() =~= Seq::<char>::empty());
        assert(life_run(r1, Seq::<char>::empty(), origin) == Ok::<LifeRead, Seq<char>>(r1));
        let r2 = LifeRead { x: 0, y: n - 1, ..r1 };
        assert(life_run(r1, seq!['$'], origin) == Ok::<LifeRead, Seq<char>>(r2));
        lemma_life_row(r2, row, origin);
    }
}

/// The run-length encoded text of Game of Life cells reads back as the
/// live cells of their rows.
proof fn lemma_life_text(cells: Seq<Cell<GameOfLifeState>>, b: SpecBounds, origin: Coordinate)
    requires
        origin.x == b.min_x,
        origin.y == b.min_y,
        bounds_fit(b),
    ensures
        spec_life_cells(rle_text(cells, b), origin) == Ok::<Seq<Cell<GameOfLifeState>>, Seq<char>>(
            rows_cells(cells, b, b.max_y - b.min_y + 1),
        ),
{
    let h = b.max_y - b.min_y + 1;
    let text = rle_text(cells, b);
    lemma_life_rows(cells, b, h, origin);
    lemma_life_run_append(life_start(), rows_text(cells, b, h), seq!['!'], origin);
    let r1 = LifeRead {
        x: b.max_x - b.min_x + 1,
        y: h - 1,
        count: 0,
        ended: false,
        cells: rows_cells(cells, b, h),
    };
    assert(seq!['!'].drop_last() =~= Seq::<char>::empty());
    assert(life_run(r1, Seq::<char>::empty(), origin) == Ok::<LifeRead, Seq<char>>(r1));
    assert(life_run(r1, seq!['!'], origin) == Ok::<LifeRead, Seq<char>>(LifeRead { ended: true, ..r1 }));
    lemma_life_scan_run(text, text.len(), origin);
    assert(text.take(text.len() as int) =~= text);
}

/// The lines of a text, one after the other, are the text.
proof fn lemma_split_concat(t: Seq<char>, n: int)
    requires
        0 <= n <= t.len(),
    ensures
        concat_texts(split_state(t, n).0) + split_state(t, n).1 == t.take(n),
    decreases n,
{
    if n == 0 {
        assert(t.take(0) =~= Seq::<char>::empty());
        assert(concat_texts(Seq::<Seq<char>>::empty()) + Seq::<char>::empty() =~= Seq::<char>::empty());
    } else {
        lemma_split_concat(t, n - 1);
        let (lines, current) = split_state(t, n - 1);
        let line = current.push(t[n - 1]);
        assert(t.take(n) =~= t.take(n - 1).push(t[n - 1]));
        assert(lines.push(line).drop_last() =~= lines);
        assert(concat_texts(lines) + current + seq![t[n - 1]] =~= concat_texts(lines) + line);
        assert(concat_texts(lines) + line + Seq::<char>::empty() =~= concat_texts(lines) + line);
        assert(concat_texts(lines) + line =~= t.take(n));
    }
}

/// The lines that run-length encoded text is split into give the text.
proof fn lemma_split_rle_lines(t: Seq<char>)
    ensures
        concat_texts(split_rle_lines(t)) == t,
{
    lemma_split_concat(t, t.len() as int);
    assert(t.take(t.len() as int) =~= t);
    let (lines, current) = split_state(t, t.len() as int);
    if current.len() > 0 {
        assert(lines.push(current).drop_last() =~= lines);
    } else {
        assert(concat_texts(lines) + current =~= concat_texts(lines));
    }
}

/// The cell `a` is at a position before that of `b`, in the order of rows.
pub open spec fn cell_before<S: CellState>(a: Cell<S>, b: Cell<S>) -> bool {
    crate::vns::row_before((a.x as int, a.y as int), (b.x as int, b.y as int))
}

/// The cells come in the order of rows, each position once.
pub open spec fn row_sorted<S: CellState>(s: Seq<Cell<S>>) -> bool {
    forall|i: int, j: int| 0 <= i < j < s.len() ==> cell_before(#[trigger] s[i], #[trigger] s[j])
}

/// Two sequences of cells in the order of rows that hold the same cells
/// are the same.
proof fn lemma_sorted_unique<S: CellState>(a: Seq<Cell<S>>, c: Seq<Cell<S>>)
    requires
        row_sorted(a),
        row_sorted(c),
        forall|x: Cell<S>| a.contains(x) <==> c.contains(x),
    ensures
        a == c,
    decreases a.len(),
{
    if a.len() == 0 {
        if c.len() > 0 {
            assert(c.contains(c[0]));
        }
        assert(a =~= c);
    } else {
        assert(a.contains(a[0]));
        let j = choose|j: int| 0 <= j < c.len() && c[j] == a[0];
        assert(c.contains(c[0]));
        let i = choose|i: int| 0 <= i < a.len() && a[i] == c[0];
        if j > 0 {
            assert(cell_before(c[0], c[j]));
            if i > 0 {
                assert(cell_before(a[0], a[i]));
            }
            assert(false);
        }
        let a2 = a.drop_first();
        let c2 = c.drop_first();
        assert forall|x: Cell<S>| a2.contains(x) <==> c2.contains(x) by {
            if a2.contains(x) {
                let k = choose|k: int| 0 <= k < a2.len() && a2[k] == x;
                assert(a[k + 1] == x);
                assert(cell_before(a[0], a[k + 1]));
                assert(c.contains(x));
                let m = choose|m: int| 0 <= m < c.len() && c[m] == x;
                if m == 0 {
                    assert(false);
                }
                assert(c2[m - 1] == x);
            }
            if c2.contains(x) {
                let k = choose|k: int| 0 <= k < c2.len() && c2[k] == x;
                assert(c[k + 1] == x);
                assert(cell_before(c[0], c[k + 1]));
                assert(a.contains(x));
                let m = choose|m: int| 0 <= m < a.len() && a[m] == x;
                if m == 0 {
                    assert(false);
                }
                assert(a2[m - 1] == x);
            }
        }
        lemma_sorted_unique(a2, c2);
        assert(c[0] == a[0]);
        assert(a.len() == c.len());
        assert forall|k: int| 0 <= k < a.len() implies a[k] == c[k] by {
            if k > 0 {
                assert(a[k] == a2[k - 1]);
                assert(c[k] == c2[k - 1]);
            }
        }
        assert(a =~= c);
    }
}

/// The cells of a row come in order, and are those of its states other
/// than the default.
proof fn lemma_row_cells<S: CellState>(t: Seq<S>, ox: int, wy: int)
    requires
        fits_isize(wy),
        isize::MIN <= ox,
        ox + t.len() <= isize::MAX + 1,
    ensures
        row_sorted(row_cells(t, ox, wy)),
        forall|c: Cell<S>|
            row_cells(t, ox, wy).contains(c) <==> (c.y == wy && c.state != S::spec_default() && ox <= c.x < ox
                + t.len() && t[c.x - ox] == c.state),
    decreases t.len(),
{
    let row = row_cells(t, ox, wy);
    if t.len() == 0 {
        assert forall|c: Cell<S>| !row.contains(c) by {
        }
    } else {
        let u = t.drop_last();
        lemma_row_cells(u, ox, wy);
        let prev = row_cells(u, ox, wy);
        let cell = Cell { x: (ox + t.len() - 1) as isize, y: wy as isize, state: t.last() };
        if t.last() != S::spec_default() {
            assert(row =~= prev.push(cell));
            assert forall|i: int, j: int| 0 <= i < j < row.len() implies cell_before(#[trigger] row[i], #[trigger] row[j]) by {
                if j == row.len() - 1 {
                    assert(prev.contains(row[i]));
                }
            }
            assert forall|c: Cell<S>| row.contains(c) <==> (c.y == wy && c.state != S::spec_default() && ox <= c.x
                < ox + t.len() && t[c.x - ox] == c.state) by {
                if row.contains(c) && c != cell {
                    let k = choose|k: int| 0 <= k < row.len() && row[k] == c;
                    assert(prev.contains(c)) by {
                        assert(prev[k] == c);
                    }
                    assert(u[c.x - ox] == t[c.x - ox]);
                }
                if c.y == wy && c.state != S::spec_default() && ox <= c.x < ox + t.len() && t[c.x - ox] == c.state {
                    if c.x == ox + t.len() - 1 {
                        assert(c == cell);
                        assert(row[row.len() - 1] == cell);
                    } else {
                        assert(u[c.x - ox] == t[c.x - ox]);
                        assert(prev.contains(c));
                        let k = choose|k: int| 0 <= k < prev.len() && prev[k] == c;
                        assert(row[k] == c);
                    }
                }
            }
        } else {
            assert(row =~= prev);
            assert forall|c: Cell<S>| row.contains(c) <==> (c.y == wy && c.state != S::spec_default() && ox <= c.x
                < ox + t.len() && t[c.x - ox] == c.state) by {
                if ox <= c.x < ox + t.len() - 1 {
                    assert(u[c.x - ox] == t[c.x - ox]);
                }
            }
        }
    }
}

/// The cells of the first `n` rows come in order, and are the cells
/// shown within them in a state other than the default.
proof fn lemma_rows_cells<S: CellState>(cells: Seq<Cell<S>>, b: SpecBounds, n: int)
    requires
        bounds_fit(b),
        0 <= n <= b.max_y - b.min_y + 1,
    ensures
        row_sorted(rows_cells(cells, b, n)),
        forall|c: Cell<S>|
            rows_cells(cells, b, n).contains(c) <==> (c.state != S::spec_default() && b.min_y <= c.y < b.min_y + n
                && b.min_x <= c.x <= b.max_x && shown_state(cells, c.x as int, c.y as int) == c.state),
    decreases n,
{
    let all = rows_cells(cells, b, n);
    if n == 0 {
        assert forall|c: Cell<S>| !all.contains(c) by {
        }
    } else {
        lemma_rows_cells(cells, b, n - 1);
        let prev = rows_cells(cells, b, n - 1);
        let y = b.min_y + n - 1;
        let t = row_states(cells, b, y);
        lemma_row_cells(t, b.min_x, y);
        let row = row_cells(t, b.min_x, y);
        assert(all =~= prev + row);
        assert forall|i: int, j: int| 0 <= i < j < all.len() implies cell_before(#[trigger] all[i], #[trigger] all[j]) by {
            if i < prev.len() && j >= prev.len() {
                assert(prev.contains(all[i]));
                assert(row.contains(all[j])) by {
                    assert(row[j - prev.len()] == all[j]);
                }
            } else if i >= prev.len() {
                assert(all[i] == row[i - prev.len()]);
                assert(all[j] == row[j - prev.len()]);
            }
        }
        assert forall|c: Cell<S>| all.contains(c) <==> (c.state != S::spec_default() && b.min_y <= c.y < b.min_y + n
            && b.min_x <= c.x <= b.max_x && shown_state(cells, c.x as int, c.y as int) == c.state) by {
            if all.contains(c) {
                let k = choose|k: int| 0 <= k < all.len() && all[k] == c;
                if k < prev.len() {
                    assert(prev.contains(c)) by {
                        assert(prev[k] == c);
                    }
                } else {
                    assert(row.contains(c)) by {
                        assert(row[k - prev.len()] == c);
                    }
                }
            }
            if c.state != S::spec_default() && b.min_y <= c.y < b.min_y + n && b.min_x <= c.x <= b.max_x
                && shown_state(cells, c.x as int, c.y as int) == c.state {
                if c.y < y {
                    assert(prev.contains(c));
                    let k = choose|k: int| 0 <= k < prev.len() && prev[k] == c;
                    assert(all[k] == c);
                } else {
                    assert(t[c.x - b.min_x] == shown_state(cells, c.x as int, c.y as int));
                    assert(row.contains(c));
                    let k = choose|k: int| 0 <= k < row.len() && row[k] == c;
                    assert(all[prev.len() + k] == c);
                }
            }
        }
    }
}

/// The first state at a position held by exactly one of `cells[0..n]` is
/// its state.
proof fn lemma_state_in_unique<S: CellState>(cells: Seq<Cell<S>>, n: int, k: int)
    requires
        0 <= k < n <= cells.len(),
        forall|j: int| 0 <= j < n && j != k ==> !(#[trigger] cells[j].x == cells[k].x && cells[j].y == cells[k].y),
    ensures
        state_in(cells, n, cells[k].x as int, cells[k].y as int) == Some(cells[k].state),
    decreases n,
{
    if n - 1 > k {
        lemma_state_in_unique(cells, n - 1, k);
    } else {
        let x = cells[k].x as int;
        let y = cells[k].y as int;
        if state_in(cells, n - 1, x, y) is Some {
            lemma_state_in_some(cells, n - 1, x, y);
            let j = choose|j: int| 0 <= j < n - 1 && #[trigger] cells[j].x == x && cells[j].y == y;
            assert(false);
        }
    }
}

/// For cells in the order of rows, none in the default state, the state
/// shown at the position of one of them is its state, and elsewhere the
/// default.
proof fn lemma_shown_sorted<S: CellState>(cells: Seq<Cell<S>>, x: int, y: int)
    requires
        row_sorted(cells),
        forall|i: int| 0 <= i < cells.len() ==> (#[trigger] cells[i]).state != S::spec_default(),
    ensures
        forall|k: int|
            0 <= k < cells.len() && (#[trigger] cells[k]).x == x && cells[k].y == y ==> shown_state(cells, x, y)
                == cells[k].state,
        !(exists|k: int| 0 <= k < cells.len() && (#[trigger] cells[k]).x == x && cells[k].y == y) ==> shown_state(
            cells,
            x,
            y,
        ) == S::spec_default(),
{
    let n = cells.len() as int;
    assert forall|p: (int, int)| !(#[trigger] shared_in(cells, n, p)) by {
        if shared_in(cells, n, p) {
            let (i, j) = choose|i: int, j: int|
                0 <= i < j < n && #[trigger] cells[i].x == p.0 && cells[i].y == p.1 && #[trigger] cells[j].x == p.0
                    && cells[j].y == p.1;
            assert(cell_before(cells[i], cells[j]));
        }
    }
    assert(!duplicate_before(cells, x, y));
    assert forall|k: int| 0 <= k < cells.len() && (#[trigger] cells[k]).x == x && cells[k].y == y implies shown_state(
        cells,
        x,
        y,
    ) == cells[k].state by {
        assert forall|j: int| 0 <= j < n && j != k implies !(#[trigger] cells[j].x == cells[k].x && cells[j].y
            == cells[k].y) by {
            if j < k {
                assert(cell_before(cells[j], cells[k]));
            } else {
                assert(cell_before(cells[k], cells[j]));
            }
        }
        lemma_state_in_unique(cells, n, k);
    }
    if state_in(cells, n, x, y) is Some {
        lemma_state_in_some(cells, n, x, y);
    }
}

/// No two of the cells share a position.
pub open spec fn positions_unique<S: CellState>(cells: Seq<Cell<S>>) -> bool {
    forall|i: int, j: int|
        0 <= i < j < cells.len() ==> (#[trigger] cells[i]).x != (#[trigger] cells[j]).x || cells[i].y != cells[j].y
}

/// `back` holds the grid that `cells` paint on an empty grid, as a list in
/// the order of rows of the cells in a state other than the default.
pub open spec fn holds_same_grid<S: CellState>(back: Seq<Cell<S>>, cells: Seq<Cell<S>>) -> bool {
    &&& row_sorted(back)
    &&& forall|i: int| 0 <= i < back.len() ==> (#[trigger] back[i]).state != S::spec_default()
    &&& forall|x: int, y: int| #[trigger]
        painted(back, back.len() as int, x, y, S::spec_default()) == painted(
            cells,
            cells.len() as int,
            x,
            y,
            S::spec_default(),
        )
}

/// For cells at distinct positions, the state shown at a position is that
/// of the cell there, and elsewhere the default.
proof fn lemma_shown_unique<S: CellState>(cells: Seq<Cell<S>>, x: int, y: int)
    requires
        positions_unique(cells),
    ensures
        forall|k: int|
            0 <= k < cells.len() && (#[trigger] cells[k]).x == x && cells[k].y == y ==> shown_state(cells, x, y)
                == cells[k].state,
        !(exists|k: int| 0 <= k < cells.len() && (#[trigger] cells[k]).x == x && cells[k].y == y) ==> shown_state(
            cells,
            x,
            y,
        ) == S::spec_default(),
{
    let n = cells.len() as int;
    assert forall|p: (int, int)| !(#[trigger] shared_in(cells, n, p)) by {
        if shared_in(cells, n, p) {
            let (i, j) = choose|i: int, j: int|
                0 <= i < j < n && #[trigger] cells[i].x == p.0 && cells[i].y == p.1 && #[trigger] cells[j].x == p.0
                    && cells[j].y == p.1;
            assert(false);
        }
    }
    assert(!duplicate_before(cells, x, y));
    assert forall|k: int| 0 <= k < cells.len() && (#[trigger] cells[k]).x == x && cells[k].y == y implies shown_state(
        cells,
        x,
        y,
    ) == cells[k].state by {
        assert forall|j: int| 0 <= j < n && j != k implies !(#[trigger] cells[j].x == cells[k].x && cells[j].y
            == cells[k].y) by {
            if j < k {
                assert(cells[j].x != cells[k].x || cells[j].y != cells[k].y);
            } else {
                assert(cells[k].x != cells[j].x || cells[k].y != cells[j].y);
            }
        }
        lemma_state_in_unique(cells, n, k);
    }
    if state_in(cells, n, x, y) is Some {
        lemma_state_in_some(cells, n, x, y);
    }
}

/// Cells at distinct positions read back from the rows of their bounding
/// box as the cells of the same grid.
#[verifier::rlimit(30)]
proof fn lemma_read_back_same_grid<S: CellState>(cells: Seq<Cell<S>>)
    requires
        positions_unique(cells),
        cells.len() > 0 ==> bounds_fit(spec_bounds(cells, cells.len() as int)),
    ensures
        holds_same_grid(read_back_cells(cells), cells),
{
    let back = read_back_cells(cells);
    if cells.len() == 0 {
        assert forall|x: int, y: int| #[trigger]
            painted(back, back.len() as int, x, y, S::spec_default()) == painted(
                cells,
                cells.len() as int,
                x,
                y,
                S::spec_default(),
            ) by {
            assert(back.len() == 0);
        }
    } else {
        let b = spec_bounds(cells, cells.len() as int);
        let h = b.max_y - b.min_y + 1;
        lemma_bounds(cells, cells.len() as int);
        lemma_rows_cells(cells, b, h);
        assert forall|i: int| 0 <= i < back.len() implies (#[trigger] back[i]).state != S::spec_default() by {
            assert(back.contains(back[i]));
        }
        assert forall|x: int, y: int| #[trigger]
            painted(back, back.len() as int, x, y, S::spec_default()) == painted(
                cells,
                cells.len() as int,
                x,
                y,
                S::spec_default(),
            ) by {
            lemma_shown_unique(cells, x, y);
            let in_back = exists|k: int| 0 <= k < back.len() && (#[trigger] back[k]).x == x && back[k].y == y;
            if in_back {
                let k = choose|k: int| 0 <= k < back.len() && (#[trigger] back[k]).x == x && back[k].y == y;
                assert(back.contains(back[k]));
                assert forall|j: int| 0 <= j < back.len() && j != k implies !(#[trigger] back[j].x == back[k].x
                    && back[j].y == back[k].y) by {
                    if j < k {
                        assert(cell_before(back[j], back[k]));
                    } else {
                        assert(cell_before(back[k], back[j]));
                    }
                }
                crate::vns::lemma_painted_unique(back, back.len() as int, k, S::spec_default());
                if exists|m: int| 0 <= m < cells.len() && (#[trigger] cells[m]).x == x && cells[m].y == y {
                    let m = choose|m: int| 0 <= m < cells.len() && (#[trigger] cells[m]).x == x && cells[m].y == y;
                    assert forall|j: int| 0 <= j < cells.len() && j != m implies !(#[trigger] cells[j].x
                        == cells[m].x && cells[j].y == cells[m].y) by {
                        if j < m {
                            assert(cells[j].x != cells[m].x || cells[j].y != cells[m].y);
                        } else {
                            assert(cells[m].x != cells[j].x || cells[m].y != cells[j].y);
                        }
                    }
                    crate::vns::lemma_painted_unique(cells, cells.len() as int, m, S::spec_default());
                } else {
                    assert(shown_state(cells, x, y) == S::spec_default());
                    assert(false);
                }
            } else {
                crate::vns::lemma_painted_none(back, back.len() as int, x, y, S::spec_default());
                if exists|m: int| 0 <= m < cells.len() && (#[trigger] cells[m]).x == x && cells[m].y == y {
                    let m = choose|m: int| 0 <= m < cells.len() && (#[trigger] cells[m]).x == x && cells[m].y == y;
                    assert forall|j: int| 0 <= j < cells.len() && j != m implies !(#[trigger] cells[j].x
                        == cells[m].x && cells[j].y == cells[m].y) by {
                        if j < m {
                            assert(cells[j].x != cells[m].x || cells[j].y != cells[m].y);
                        } else {
                            assert(cells[m].x != cells[j].x || cells[m].y != cells[j].y);
                        }
                    }
                    crate::vns::lemma_painted_unique(cells, cells.len() as int, m, S::spec_default());
                    if cells[m].state != S::spec_default() {
                        let c = cells[m];
                        assert(back.contains(c));
                        let k = choose|k: int| 0 <= k < back.len() && back[k] == c;
                        assert(back[k].x == x && back[k].y == y);
                        assert(false);
                    }
                } else {
                    crate::vns::lemma_painted_none(cells, cells.len() as int, x, y, S::spec_default());
                }
            }
        }
    }
}

/// Cells in the order of rows, none in the default state, read back from
/// the rows of their bounding box as themselves.
proof fn lemma_cells_read_back<S: RleState>(cells: Seq<Cell<S>>)
    requires
        cells.len() > 0,
        row_sorted(cells),
        forall|i: int| 0 <= i < cells.len() ==> (#[trigger] cells[i]).state != S::spec_default(),
        bounds_fit(spec_bounds(cells, cells.len() as int)),
    ensures
        rows_cells(
            cells,
            spec_bounds(cells, cells.len() as int),
            spec_bounds(cells, cells.len() as int).max_y - spec_bounds(cells, cells.len() as int).min_y + 1,
        ) == cells,
{
    let b = spec_bounds(cells, cells.len() as int);
    let h = b.max_y - b.min_y + 1;
    lemma_bounds(cells, cells.len() as int);
    lemma_rows_cells(cells, b, h);
    let rows = rows_cells(cells, b, h);
    assert forall|c: Cell<S>| rows.contains(c) <==> cells.contains(c) by {
        lemma_shown_sorted(cells, c.x as int, c.y as int);
        if cells.contains(c) {
            let k = choose|k: int| 0 <= k < cells.len() && cells[k] == c;
            assert(cells[k].x == c.x && cells[k].y == c.y);
        }
        if rows.contains(c) {
            assert(exists|k: int| 0 <= k < cells.len() && (#[trigger] cells[k]).x == c.x && cells[k].y == c.y);
            let k = choose|k: int| 0 <= k < cells.len() && (#[trigger] cells[k]).x == c.x && cells[k].y == c.y;
            assert(cells[k] == c);
        }
    }
    lemma_sorted_unique(rows, cells);
}

/// The cells that the rows of the bounding box of `cells` show, in the
/// order of rows: what a document written from `cells` reads back as.
pub open spec fn read_back_cells<S: CellState>(cells: Seq<Cell<S>>) -> Seq<Cell<S>> {
    if cells.len() == 0 {
        Seq::empty()
    } else {
        let b = spec_bounds(cells, cells.len() as int);
        rows_cells(cells, b, b.max_y - b.min_y + 1)
    }
}

/// The document written from Game of Life cells reads back as the cells
/// that the rows of their bounding box show.
proof fn lemma_game_of_life_document_reads(
    cells: Seq<Cell<GameOfLifeState>>,
    d: VnsDocument,
    breakpoints: Set<(isize, isize)>,
    stages: Vec<Stage>,
    overlays: Vec<Overlay>,
)
    requires
        overlays_error(overlays@, 0) is None,
        documents(cells, Ok(d), Ruleset::GameOfLife, breakpoints, stages, overlays),
    ensures
        spec_document_cells(d) == Ok::<CellsView, Seq<char>>(CellsView::GameOfLife(read_back_cells(cells))),
        cells.len() > 0 ==> bounds_fit(spec_bounds(cells, cells.len() as int)),
{
    reveal_strlit("jvn29");
    reveal_strlit("game_of_life");
    assert("game_of_life"@ =~= Ruleset::GameOfLife.spec_name());
    assert(d.ruleset@ != "jvn29"@) by {
        assert("jvn29"@.len() == 5);
    }
    let p = d.pattern;
    if cells.len() == 0 {
        reveal_strlit("!");
        assert(texts(p.lines@) == seq!["!"@]);
        assert(seq!["!"@].drop_last() =~= Seq::<Seq<char>>::empty());
        let data = concat_texts(texts(p.lines@));
        assert(concat_texts(Seq::<Seq<char>>::empty()) == Seq::<char>::empty());
        assert(data == Seq::<char>::empty() + "!"@);
        assert("!"@ =~= seq!['!']);
        assert(data =~= seq!['!']);
        let origin = p.origin;
        assert(life_scan(data, 0, origin) == Ok::<LifeRead, Seq<char>>(life_start()));
        assert(life_scan(data, 1, origin) == Ok::<LifeRead, Seq<char>>(LifeRead { ended: true, ..life_start() }));
        assert(cells =~= Seq::<Cell<GameOfLifeState>>::empty());
        assert(spec_life_cells(data, origin) == Ok::<Seq<Cell<GameOfLifeState>>, Seq<char>>(cells));
    } else {
        let b = spec_bounds(cells, cells.len() as int);
        lemma_bounds(cells, cells.len() as int);
        let i0 = choose|i: int| 0 <= i < cells.len() && #[trigger] cells[i].x == b.min_x;
        let i1 = choose|i: int| 0 <= i < cells.len() && #[trigger] cells[i].x == b.max_x;
        let i2 = choose|i: int| 0 <= i < cells.len() && #[trigger] cells[i].y == b.min_y;
        let i3 = choose|i: int| 0 <= i < cells.len() && #[trigger] cells[i].y == b.max_y;
        assert(bounds_fit(b));
        let text = rle_text(cells, b);
        lemma_split_rle_lines(text);
        assert(concat_texts(texts(p.lines@)) == text);
        lemma_life_text(cells, b, p.origin);
    }
}

/// Writing Game of Life cells into a document and reading the document
/// back gives the same cells, breakpoints, stages and overlays, where the
/// cells are live and come in the order of rows, each position once (the
/// order in which a document holds them).
pub proof fn lemma_game_of_life_document_round_trip(
    cells: Seq<Cell<GameOfLifeState>>,
    d: VnsDocument,
    breakpoints: Set<(isize, isize)>,
    stages: Vec<Stage>,
    overlays: Vec<Overlay>,
)
    requires
        row_sorted(cells),
        forall|i: int| 0 <= i < cells.len() ==> (#[trigger] cells[i]).state == GameOfLifeState::Live,
        overlays_error(overlays@, 0) is None,
        documents(cells, Ok(d), Ruleset::GameOfLife, breakpoints, stages, overlays),
    ensures
        spec_document_cells(d) == Ok::<CellsView, Seq<char>>(CellsView::GameOfLife(cells)),
        point_set(d.extra.breakpoints@) == breakpoints,
        d.extra.stages == stages,
        d.extra.overlays == overlays,
{
    lemma_game_of_life_document_reads(cells, d, breakpoints, stages, overlays);
    if cells.len() > 0 {
        lemma_cells_read_back(cells);
    } else {
        assert(cells =~= Seq::<Cell<GameOfLifeState>>::empty());
    }
}

/// Writing Game of Life cells, at distinct positions but in any order and
/// any states, into a document and reading the document back gives the
/// cells of the same grid: the live cells, in the order of rows, each
/// position once; and the same breakpoints, stages and overlays.
pub proof fn lemma_game_of_life_document_grid_round_trip(
    cells: Seq<Cell<GameOfLifeState>>,
    d: VnsDocument,
    breakpoints: Set<(isize, isize)>,
    stages: Vec<Stage>,
    overlays: Vec<Overlay>,
)
    requires
        positions_unique(cells),
        overlays_error(overlays@, 0) is None,
        documents(cells, Ok(d), Ruleset::GameOfLife, breakpoints, stages, overlays),
    ensures
        spec_document_cells(d) matches Ok(CellsView::GameOfLife(back)) && holds_same_grid(back, cells),
        point_set(d.extra.breakpoints@) == breakpoints,
        d.extra.stages == stages,
        d.extra.overlays == overlays,
{
    lemma_game_of_life_document_reads(cells, d, breakpoints, stages, overlays);
    lemma_read_back_same_grid(cells);
}

/// Reading JvN29 data `data` on from the reading state `r`.
pub open spec fn rle_run_from(r: RleRead, data: Seq<char>, origin: (isize, isize)) -> Result<RleRead, Seq<char>>
    decreases data.len(),
{
    if data.len() == 0 {
        Ok(r)
    } else {
        match rle_run_from(r, data.drop_last(), origin) {
            Err(e) => Err(e),
            Ok(r2) => rle_step(r2, data.last(), origin),
        }
    }
}

/// Reading the first `n` characters is reading them on from the start.
proof fn lemma_rle_scan_run(data: Seq<char>, n: nat, origin: (isize, isize))
    requires
        n <= data.len(),
    ensures
        rle_scan(data, n, origin) == rle_run_from(rle_start(), data.take(n as int), origin),
    decreases n,
{
    if n > 0 {
        lemma_rle_scan_run(data, (n - 1) as nat, origin);
        assert(data.take(n as int).drop_last() =~= data.take(n - 1));
    } else {
        assert(data.take(0) =~= Seq::<char>::empty());
    }
}

/// Reading two texts one after the other.
proof fn lemma_rle_run_append(r: RleRead, a: Seq<char>, b: Seq<char>, origin: (isize, isize))
    ensures
        rle_run_from(r, a + b, origin) == match rle_run_from(r, a, origin) {
            Err(e) => Err(e),
            Ok(r2) => rle_run_from(r2, b, origin),
        },
    decreases b.len(),
{
    if b.len() == 0 {
        assert(a + b =~= a);
    } else {
        lemma_rle_run_append(r, a, b.drop_last(), origin);
        assert((a + b).drop_last() =~= a + b.drop_last());
        assert((a + b).last() == b.last());
    }
}

/// Reading one character.
proof fn lemma_rle_run_one(r: RleRead, c: char, origin: (isize, isize))
    ensures
        rle_run_from(r, seq![c], origin) == rle_step(r, c, origin),
{
    assert(seq![c].drop_last() =~= Seq::<char>::empty());
    assert(rle_run_from(r, Seq::<char>::empty(), origin) == Ok::<RleRead, Seq<char>>(r));
}

/// The decimal digits of a positive number read as its run count.
proof fn lemma_rle_digits(r: RleRead, n: nat, origin: (isize, isize))
    requires
        !r.ended,
        r.pending is None,
        r.count == 0,
        1 <= n <= usize::MAX,
    ensures
        rle_run_from(r, decimal(n), origin) == Ok::<RleRead, Seq<char>>(RleRead { count: n, ..r }),
    decreases n,
{
    if n < 10 {
        lemma_digit_char(n);
        let c = digit_char(n);
        assert(decimal(n) =~= seq![c]);
        lemma_rle_run_one(r, c, origin);
        assert(crate::text::is_digit(c));
    } else {
        lemma_rle_digits(r, n / 10, origin);
        lemma_digit_char(n % 10);
        let c = digit_char(n % 10);
        assert(decimal(n) =~= decimal(n / 10) + seq![c]);
        lemma_rle_run_append(r, decimal(n / 10), seq![c], origin);
        let r2 = RleRead { count: n / 10, ..r };
        lemma_rle_run_one(r2, c, origin);
        assert(crate::text::is_digit(c));
        assert(r2.count * 10 + crate::text::digit_value(c) == n);
    }
}

/// A run of cells whose coordinates fit gives the cells of the row it
/// covers, for a state other than the ground state.
proof fn lemma_run_cells_of_jvn29_row(
    t: Seq<VonNeumannState>,
    ox: int,
    wy: int,
    j0: int,
    s: VonNeumannState,
    m: nat,
)
    requires
        0 <= j0,
        j0 + m <= t.len(),
        forall|j: int| j0 <= j < j0 + m ==> t[j] == s,
        s != VonNeumannState::Ground,
        j0 + m <= isize::MAX + 1,
        isize::MIN <= ox,
        ox + j0 + m <= isize::MAX + 1,
        fits_isize(wy),
    ensures
        run_cells(ox, wy, j0, s, m) is Ok,
        row_cells(t.take(j0 + m), ox, wy) == row_cells(t.take(j0), ox, wy) + run_cells(ox, wy, j0, s, m)->Ok_0,
    decreases m,
{
    if m == 0 {
        assert(t.take(j0 + m) =~= t.take(j0));
        assert(row_cells(t.take(j0), ox, wy) + Seq::<Cell<VonNeumannState>>::empty() =~= row_cells(t.take(j0), ox, wy));
    } else {
        lemma_run_cells_of_jvn29_row(t, ox, wy, j0, s, (m - 1) as nat);
        let u = t.take(j0 + m);
        assert(u.drop_last() =~= t.take(j0 + m - 1));
        assert(u.last() == s);
        let prev = run_cells(ox, wy, j0, s, (m - 1) as nat)->Ok_0;
        assert(row_cells(u, ox, wy) =~= row_cells(t.take(j0), ox, wy) + prev.push(
            Cell { x: (ox + j0 + m - 1) as isize, y: wy as isize, state: s },
        ));
    }
}

/// A run of ground states adds no cell to a row.
proof fn lemma_ground_run_of_row(t: Seq<VonNeumannState>, ox: int, wy: int, j0: int, m: nat)
    requires
        0 <= j0,
        j0 + m <= t.len(),
        forall|j: int| j0 <= j < j0 + m ==> t[j] == VonNeumannState::Ground,
    ensures
        row_cells(t.take(j0 + m), ox, wy) == row_cells(t.take(j0), ox, wy),
    decreases m,
{
    if m == 0 {
        assert(t.take(j0 + m) =~= t.take(j0));
    } else {
        lemma_ground_run_of_row(t, ox, wy, j0, (m - 1) as nat);
        let u = t.take(j0 + m);
        assert(u.drop_last() =~= t.take(j0 + m - 1));
        assert(row_cells(u, ox, wy) =~= row_cells(t.take(j0 + m - 1), ox, wy));
    }
}

/// The cells that a run of `k` cells of state `s` adds at column `x`:
/// none for the ground state.
pub open spec fn jvn29_run_cells(ox: int, wy: int, x: int, s: VonNeumannState, k: nat) -> Seq<Cell<VonNeumannState>> {
    if s == VonNeumannState::Ground {
        seq![]
    } else {
        run_cells(ox, wy, x, s, k)->Ok_0
    }
}

/// Reading the token of state `s` once its run count `k` is read.
proof fn lemma_rle_token(r: RleRead, s: VonNeumannState, k: nat, origin: (isize, isize))
    requires
        !r.ended,
        r.pending is None,
        r.count == (if k > 1 {
            k
        } else {
            0
        }),
        1 <= k,
        0 <= r.x,
        r.x + k <= isize::MAX,
        fits_isize(origin.1 + r.y),
        origin.0 + r.x + k <= isize::MAX + 1,
        s != VonNeumannState::Ground ==> run_cells(origin.0 as int, origin.1 + r.y, r.x, s, k) is Ok,
    ensures
        rle_run_from(r, s.spec_token(), origin) == Ok::<RleRead, Seq<char>>(
            RleRead {
                x: r.x + k,
                count: 0,
                cells: r.cells + jvn29_run_cells(origin.0 as int, origin.1 + r.y, r.x, s, k),
                ..r
            },
        ),
{
    let c = spec_golly_code(s);
    lemma_golly_numbering(s, c);
    assert(s.spec_token() == golly_token(c));
    let r0 = RleRead { count: 0, ..r };
    if c == 0 {
        assert(s == VonNeumannState::Ground);
        let ch = '.';
        assert(golly_token(c) =~= seq![ch]);
        lemma_rle_run_one(r, ch, origin);
        assert(r.cells + jvn29_run_cells(origin.0 as int, origin.1 + r.y, r.x, s, k) =~= r.cells);
    } else if c <= 24 {
        let ch = (64 + c) as char;
        assert(golly_token(c) =~= seq![ch]);
        lemma_rle_run_one(r, ch, origin);
        assert(ch as u32 == 64 + c);
        assert('A' <= ch <= 'X');
        assert((ch as u32 - 'A' as u32 + 1) as u8 == c);
        assert(rle_step(r, ch, origin) == rle_add_run(r0, k, c, origin));
    } else {
        let ch = (40 + c) as char;
        assert(golly_token(c) =~= seq!['p', ch]);
        lemma_rle_run_append(r, seq!['p'], seq![ch], origin);
        assert(seq!['p'] + seq![ch] =~= seq!['p', ch]);
        lemma_rle_run_one(r, 'p', origin);
        let r1 = RleRead { pending: Some(k), ..r0 };
        assert(rle_step(r, 'p', origin) == Ok::<RleRead, Seq<char>>(r1));
        lemma_rle_run_one(r1, ch, origin);
        assert(ch as u32 == 40 + c);
        assert('A' <= ch <= 'D');
        assert((25 + (ch as u32 - 'A' as u32)) as u8 == c);
        assert(rle_step(r1, ch, origin) == rle_add_run(RleRead { pending: None, ..r1 }, k, c, origin));
        assert(RleRead { pending: None, ..r1 } == r0);
    }
}

/// The text of a run of `k` cells of state `s` adds them (none for the
/// ground state) and moves past them.
proof fn lemma_rle_run_text(r: RleRead, s: VonNeumannState, k: nat, origin: (isize, isize))
    requires
        !r.ended,
        r.pending is None,
        r.count == 0,
        1 <= k,
        0 <= r.x,
        r.x + k <= isize::MAX,
        fits_isize(origin.1 + r.y),
        origin.0 + r.x + k <= isize::MAX + 1,
        s != VonNeumannState::Ground ==> run_cells(origin.0 as int, origin.1 + r.y, r.x, s, k) is Ok,
    ensures
        rle_run_from(r, run_text(s, k), origin) == Ok::<RleRead, Seq<char>>(
            RleRead { x: r.x + k, cells: r.cells + jvn29_run_cells(origin.0 as int, origin.1 + r.y, r.x, s, k), ..r },
        ),
{
    if k > 1 {
        lemma_rle_run_append(r, decimal(k), s.spec_token(), origin);
        lemma_rle_digits(r, k, origin);
        lemma_rle_token(RleRead { count: k, ..r }, s, k, origin);
    } else {
        lemma_rle_token(r, s, k, origin);
    }
}

/// Reading the text of a row of JvN29 states from its first column adds
/// its cells other than the ground state and moves past its last column.
proof fn lemma_rle_row(r: RleRead, t: Seq<VonNeumannState>, origin: (isize, isize))
    requires
        !r.ended,
        r.pending is None,
        r.count == 0,
        r.x == 0,
        fits_isize(origin.1 + r.y),
        t.len() <= isize::MAX,
        origin.0 + t.len() <= isize::MAX + 1,
    ensures
        rle_run_from(r, rle_runs(t), origin) == Ok::<RleRead, Seq<char>>(
            RleRead { x: t.len() as int, cells: r.cells + row_cells(t, origin.0 as int, origin.1 + r.y), ..r },
        ),
    decreases t.len(),
{
    let ox = origin.0 as int;
    let wy = origin.1 + r.y;
    if t.len() == 0 {
        assert(r.cells + row_cells(t, ox, wy) =~= r.cells);
    } else {
        let k = trailing_run(t);
        lemma_trailing_run(t);
        lemma_trailing_run_equal(t);
        let p = t.take(t.len() - k);
        let s = t.last();
        lemma_rle_row(r, p, origin);
        lemma_rle_run_append(r, rle_runs(p), run_text(s, k), origin);
        let r2 = RleRead { x: p.len() as int, cells: r.cells + row_cells(p, ox, wy), ..r };
        assert(t.take(t.len() as int) =~= t);
        if s != VonNeumannState::Ground {
            lemma_run_cells_of_jvn29_row(t, ox, wy, p.len() as int, s, k);
        } else {
            lemma_ground_run_of_row(t, ox, wy, p.len() as int, k);
        }
        lemma_rle_run_text(r2, s, k, origin);
        let run = jvn29_run_cells(ox, wy, p.len() as int, s, k);
        assert(row_cells(t, ox, wy) == row_cells(p, ox, wy) + run) by {
            if s == VonNeumannState::Ground {
                assert(row_cells(p, ox, wy) + run =~= row_cells(p, ox, wy));
            }
        }
        assert(r.cells + row_cells(p, ox, wy) + run =~= r.cells + (row_cells(p, ox, wy) + run));
    }
}

/// Reading the text of the first `n` rows of JvN29 cells adds their cells
/// and ends past the last column of row `n - 1`.
proof fn lemma_rle_rows(cells: Seq<Cell<VonNeumannState>>, b: SpecBounds, n: int, origin: (isize, isize))
    requires
        origin.0 == b.min_x,
        origin.1 == b.min_y,
        bounds_fit(b),
        1 <= n <= b.max_y - b.min_y + 1,
    ensures
        rle_run_from(rle_start(), rows_text(cells, b, n), origin) == Ok::<RleRead, Seq<char>>(
            RleRead {
                x: b.max_x - b.min_x + 1,
                y: n - 1,
                count: 0,
                pending: None,
                ended: false,
                cells: rows_cells(cells, b, n),
            },
        ),
    decreases n,
{
    let row = row_states(cells, b, b.min_y + n - 1);
    if n == 1 {
        lemma_rle_row(rle_start(), row, origin);
        assert(Seq::<Cell<VonNeumannState>>::empty() + row_cells(row, b.min_x, b.min_y) =~= rows_cells(cells, b, 1));
    } else {
        lemma_rle_rows(cells, b, n - 1, origin);
        let before = rows_text(cells, b, n - 1);
        lemma_rle_run_append(rle_start(), before + seq!['$'], rle_runs(row), origin);
        lemma_rle_run_append(rle_start(), before, seq!['$'], origin);
        let r1 = RleRead {
            x: b.max_x - b.min_x + 1,
            y: n - 2,
            count: 0,
            pending: None,
            ended: false,
            cells: rows_cells(cells, b, n - 1),
        };
        lemma_rle_run_one(r1, '$', origin);
        let r2 = RleRead { x: 0, y: n - 1, ..r1 };
        assert(rle_step(r1, '$', origin) == Ok::<RleRead, Seq<char>>(r2));
        lemma_rle_row(r2, row, origin);
    }
}

/// The run-length encoded text of JvN29 cells reads back as the cells of
/// their rows other than the ground state.
proof fn lemma_rle_text(cells: Seq<Cell<VonNeumannState>>, b: SpecBounds, origin: (isize, isize))
    requires
        origin.0 == b.min_x,
        origin.1 == b.min_y,
        bounds_fit(b),
    ensures
        spec_rle_cells(rle_text(cells, b), origin) == Ok::<Seq<Cell<VonNeumannState>>, Seq<char>>(
            rows_cells(cells, b, b.max_y - b.min_y + 1),
        ),
{
    let h = b.max_y - b.min_y + 1;
    let text = rle_text(cells, b);
    lemma_rle_rows(cells, b, h, origin);
    lemma_rle_run_append(rle_start(), rows_text(cells, b, h), seq!['!'], origin);
    let r1 = RleRead {
        x: b.max_x - b.min_x + 1,
        y: h - 1,
        count: 0,
        pending: None,
        ended: false,
        cells: rows_cells(cells, b, h),
    };
    lemma_rle_run_one(r1, '!', origin);
    assert(rle_step(r1, '!', origin) == Ok::<RleRead, Seq<char>>(RleRead { ended: true, ..r1 }));
    lemma_rle_scan_run(text, text.len(), origin);
    assert(text.take(text.len() as int) =~= text);
}

/// The decimal text of a number is digits that read as the number.
proof fn lemma_decimal_digits(n: nat)
    ensures
        decimal(n).len() >= 1,
        all_digits(decimal(n)),
        digits_value(decimal(n)) == n,
    decreases n,
{
    if n < 10 {
        lemma_digit_char(n);
        assert(decimal(n).drop_last() =~= Seq::<char>::empty());
        assert(decimal(n).last() == digit_char(n));
        assert(digits_value(Seq::<char>::empty()) == 0);
    } else {
        lemma_decimal_digits(n / 10);
        lemma_digit_char(n % 10);
        assert(decimal(n).drop_last() =~= decimal(n / 10));
        assert(decimal(n).last() == digit_char(n % 10));
        assert((n / 10) * 10 + n % 10 == n);
        assert forall|i: int| 0 <= i < decimal(n).len() implies crate::text::is_digit(#[trigger] decimal(n)[i]) by {
            if i < decimal(n).len() - 1 {
                assert(decimal(n)[i] == decimal(n / 10)[i]);
            }
        }
    }
}

/// A number's decimal text parses as the number.
proof fn lemma_parse_usize_decimal(n: nat)
    requires
        n <= usize::MAX,
    ensures
        spec_parse_usize(decimal(n)) == Some(n as usize),
{
    lemma_decimal_digits(n);
    assert(crate::text::is_digit(decimal(n)[0]));
}

/// An integer's decimal text, with its sign, parses as the integer.
proof fn lemma_parse_isize_signed(v: isize)
    ensures
        spec_parse_isize(signed_decimal(v as int)) == Some(v),
{
    if v < 0 {
        let m = (-(v as int)) as nat;
        lemma_decimal_digits(m);
        let t = signed_decimal(v as int);
        assert(t.drop_first() =~= decimal(m));
        assert(spec_parse_integer(t, true) == Some((true, m)));
    } else {
        lemma_decimal_digits(v as nat);
        assert(crate::text::is_digit(decimal(v as nat)[0]));
        assert(spec_parse_integer(signed_decimal(v as int), true) == Some((false, v as nat)));
    }
}

/// The first `c` at or after `p` is at `e`.
proof fn lemma_find_at(s: Seq<char>, p: int, e: int, c: char)
    requires
        0 <= p <= e < s.len(),
        s[e] == c,
        forall|j: int| p <= j < e ==> s[j] != c,
    ensures
        crate::golly::find_from(s, p, c) == e,
{
    crate::golly::lemma_find_from(s, p, c);
}

/// There is no `c` at or after `p`.
proof fn lemma_find_none(s: Seq<char>, p: int, c: char)
    requires
        0 <= p <= s.len(),
        forall|j: int| p <= j < s.len() ==> s[j] != c,
    ensures
        crate::golly::find_from(s, p, c) == s.len(),
{
    crate::golly::lemma_find_from(s, p, c);
}

/// A range that starts and ends with characters other than whitespace is
/// its own trimmed range.
proof fn lemma_trim_fixed(s: Seq<char>, lo: int, hi: int)
    requires
        0 <= lo < hi <= s.len(),
        !is_white_space(s[lo]),
        !is_white_space(s[hi - 1]),
    ensures
        trimmed(s, lo, hi) == (lo, hi),
{
}

/// A word that runs to the end of the text ends there.
proof fn lemma_word_end_none(t: Seq<char>, p: int)
    requires
        0 <= p <= t.len(),
        forall|j: int| p <= j < t.len() ==> !is_white_space(#[trigger] t[j]),
    ensures
        crate::golly::word_end(t, p) == t.len(),
    decreases t.len() - p,
{
    if p < t.len() {
        lemma_word_end_none(t, p + 1);
    }
}

/// A character of run-length encoded JvN29 text: a token letter, a digit
/// of a run count, or a row or pattern end.
pub open spec fn rle_char(c: char) -> bool {
    c == '.' || ('A' <= c <= 'X') || c == 'p' || ('0' <= c <= '9') || c == '$' || c == '!'
}

/// The run-length encoded text of JvN29 states is made of its characters.
proof fn lemma_rle_runs_chars(t: Seq<VonNeumannState>)
    ensures
        forall|i: int| 0 <= i < rle_runs(t).len() ==> rle_char(#[trigger] rle_runs(t)[i]),
        t.len() > 0 ==> rle_runs(t).len() > 0,
    decreases t.len(),
{
    if t.len() > 0 {
        let k = trailing_run(t);
        lemma_trailing_run(t);
        let p = t.take(t.len() - k);
        lemma_rle_runs_chars(p);
        let s = t.last();
        let c = spec_golly_code(s);
        lemma_golly_numbering(s, c);
        let tok = s.spec_token();
        assert forall|i: int| 0 <= i < tok.len() implies rle_char(#[trigger] tok[i]) by {
            if c > 0 && c <= 24 {
                assert(tok =~= seq![(64 + c) as char]);
            } else if c > 24 {
                assert(tok =~= seq!['p', (40 + c) as char]);
            }
        }
        let rt = run_text(s, k);
        assert forall|i: int| 0 <= i < rt.len() implies rle_char(#[trigger] rt[i]) by {
            if k > 1 {
                lemma_decimal_digits(k);
                if i < decimal(k).len() {
                    assert(rt[i] == decimal(k)[i]);
                    assert(crate::text::is_digit(decimal(k)[i]));
                } else {
                    assert(rt[i] == tok[i - decimal(k).len()]);
                }
            }
        }
        let all = rle_runs(t);
        assert(all == rle_runs(p) + rt);
        assert(tok.len() > 0) by {
            if c == 0 {
                assert(tok =~= seq!['.']);
            } else if c <= 24 {
                assert(tok =~= seq![(64 + c) as char]);
            } else {
                assert(tok =~= seq!['p', (40 + c) as char]);
            }
        }
        assert forall|i: int| 0 <= i < all.len() implies rle_char(#[trigger] all[i]) by {
            if i < rle_runs(p).len() {
                assert(all[i] == rle_runs(p)[i]);
            } else {
                assert(all[i] == rt[i - rle_runs(p).len()]);
            }
        }
    }
}

/// The text of the rows of JvN29 cells is made of run-length encoded
/// characters, and starts with the text of its first row.
proof fn lemma_rows_text_chars(cells: Seq<Cell<VonNeumannState>>, b: SpecBounds, n: int)
    requires
        b.min_x <= b.max_x,
        n >= 1,
    ensures
        forall|i: int| 0 <= i < rows_text(cells, b, n).len() ==> rle_char(#[trigger] rows_text(cells, b, n)[i]),
        rows_text(cells, b, n).len() > 0,
        rows_text(cells, b, n)[0] != '$',
    decreases n,
{
    let row = row_states(cells, b, b.min_y + n - 1);
    lemma_rle_runs_chars(row);
    let last = rle_runs(row);
    assert(row.len() > 0);
    assert(last.len() > 0);
    if n == 1 {
        lemma_rle_row_start(row);
    } else {
        lemma_rows_text_chars(cells, b, n - 1);
        let before = rows_text(cells, b, n - 1);
        let all = rows_text(cells, b, n);
        assert(all == before + seq!['$'] + last);
        assert(all[0] == before[0]);
        assert forall|i: int| 0 <= i < all.len() implies rle_char(#[trigger] all[i]) by {
            if i < before.len() {
                assert(all[i] == before[i]);
            } else if i == before.len() {
                assert(all[i] == '$');
            } else {
                assert(all[i] == last[i - before.len() - 1]);
            }
        }
    }
}

/// The text of a row does not start with a row end.
proof fn lemma_rle_row_start(t: Seq<VonNeumannState>)
    requires
        t.len() > 0,
    ensures
        rle_runs(t)[0] != '$',
{
    lemma_rle_runs_chars(t);
    lemma_rle_runs_first(t);
}

/// The text of states begins with a digit or a token character.
proof fn lemma_rle_runs_first(t: Seq<VonNeumannState>)
    requires
        t.len() > 0,
    ensures
        rle_runs(t).len() > 0,
        rle_runs(t)[0] != '$',
        rle_runs(t)[0] != '!',
    decreases t.len(),
{
    let k = trailing_run(t);
    lemma_trailing_run(t);
    let p = t.take(t.len() - k);
    lemma_rle_runs_chars(t);
    let s = t.last();
    let c = spec_golly_code(s);
    lemma_golly_numbering(s, c);
    let tok = s.spec_token();
    let rt = run_text(s, k);
    if p.len() > 0 {
        lemma_rle_runs_first(p);
        assert(rle_runs(t)[0] == rle_runs(p)[0]);
    } else {
        assert(p =~= Seq::<VonNeumannState>::empty());
        assert(rle_runs(p) =~= Seq::<char>::empty());
        assert(rle_runs(t) =~= rt);
        if k > 1 {
            lemma_decimal_digits(k);
            assert(rt[0] == decimal(k)[0]);
            assert(crate::text::is_digit(decimal(k)[0]));
        } else if c == 0 {
            assert(tok =~= seq!['.']);
        } else if c <= 24 {
            assert(tok =~= seq![(64 + c) as char]);
        } else {
            assert(tok =~= seq!['p', (40 + c) as char]);
        }
    }
}

/// Leading whitespace up to `a` is skipped.
proof fn lemma_trim_start_skip(s: Seq<char>, lo: int, hi: int, a: int)
    requires
        lo <= a < hi,
        forall|j: int| lo <= j < a ==> is_white_space(#[trigger] s[j]),
        !is_white_space(s[a]),
    ensures
        trim_start_index(s, lo, hi) == a,
    decreases a - lo,
{
    if lo < a {
        lemma_trim_start_skip(s, lo + 1, hi, a);
    }
}

/// Trailing whitespace from `b` on is skipped.
proof fn lemma_trim_end_skip(s: Seq<char>, lo: int, hi: int, b: int)
    requires
        lo < b <= hi,
        forall|j: int| b <= j < hi ==> is_white_space(#[trigger] s[j]),
        !is_white_space(s[b - 1]),
    ensures
        trim_end_index(s, lo, hi) == b,
    decreases hi - b,
{
    if b < hi {
        lemma_trim_end_skip(s, lo, hi - 1, b);
    }
}

/// Trimming a text whose content runs from `a` to `b`.
proof fn lemma_trim_seq(t: Seq<char>, a: int, b: int)
    requires
        0 <= a < b <= t.len(),
        forall|j: int| 0 <= j < a ==> is_white_space(#[trigger] t[j]),
        forall|j: int| b <= j < t.len() ==> is_white_space(#[trigger] t[j]),
        !is_white_space(t[a]),
        !is_white_space(t[b - 1]),
    ensures
        trim_seq(t) == t.subrange(a, b),
{
    lemma_trim_start_skip(t, 0, t.len() as int, a);
    lemma_trim_end_skip(t, a, t.len() as int, b);
}

/// The decimal text of an integer, with its sign, is digits after an
/// optional minus.
proof fn lemma_signed_decimal_chars(v: int)
    ensures
        signed_decimal(v).len() >= 1,
        forall|i: int|
            0 <= i < signed_decimal(v).len() ==> ('0' <= #[trigger] signed_decimal(v)[i] <= '9'
                || signed_decimal(v)[i] == '-'),
        '0' <= signed_decimal(v).last() <= '9',
{
    if v < 0 {
        lemma_decimal_digits((-v) as nat);
        assert forall|i: int| 0 <= i < signed_decimal(v).len() implies ('0' <= #[trigger] signed_decimal(v)[i] <= '9'
            || signed_decimal(v)[i] == '-') by {
            if i > 0 {
                assert(signed_decimal(v)[i] == decimal((-v) as nat)[i - 1]);
                assert(crate::text::is_digit(decimal((-v) as nat)[i - 1]));
            }
        }
        assert(crate::text::is_digit(decimal((-v) as nat).last()));
    } else {
        lemma_decimal_digits(v as nat);
        assert(crate::text::is_digit(decimal(v as nat).last()));
        assert forall|i: int| 0 <= i < signed_decimal(v).len() implies ('0' <= #[trigger] signed_decimal(v)[i] <= '9'
            || signed_decimal(v)[i] == '-') by {
            assert(crate::text::is_digit(decimal(v as nat)[i]));
        }
    }
}

/// The `#CXRLE` line that gives the position of a pattern.
pub open spec fn xrle_line(ox: isize, oy: isize) -> Seq<char> {
    seq!['#', 'C', 'X', 'R', 'L', 'E', ' ', 'P', 'o', 's', '='] + signed_decimal(ox as int) + seq![','] + signed_decimal(
        oy as int,
    )
}

/// The `#CXRLE` line sets the position of the pattern.
proof fn lemma_xrle_line(ox: isize, oy: isize, scan: GollyScan)
    ensures
        spec_line_step(scan, xrle_line(ox, oy), 1) == Ok::<GollyScan, (nat, Seq<char>)>(
            GollyScan { origin: (ox, oy), ..scan },
        ),
{
    let a = signed_decimal(ox as int);
    let bb = signed_decimal(oy as int);
    lemma_signed_decimal_chars(ox as int);
    lemma_signed_decimal_chars(oy as int);
    let t = xrle_line(ox, oy);
    assert(t.subrange(0, 6) =~= seq!['#', 'C', 'X', 'R', 'L', 'E']);
    assert(starts_with(t, seq!['#', 'C', 'X', 'R', 'L', 'E']));
    assert(t[6] == ' ');
    assert(is_white_space(t[6]));
    assert(t[7] == 'P');
    assert forall|j: int| 7 <= j < t.len() implies !is_white_space(#[trigger] t[j]) by {
        if 11 <= j < 11 + a.len() {
            assert(t[j] == a[j - 11]);
        } else if j == 11 + a.len() {
            assert(t[j] == ',');
        } else if j > 11 + a.len() {
            assert(t[j] == bb[j - 12 - a.len()]);
        }
    }
    lemma_word_end_none(t, 7);
    let w = t.subrange(7, t.len() as int);
    assert(w =~= seq!['P', 'o', 's', '='] + a + seq![','] + bb);
    lemma_find_at(w, 0, 3, '=');
    assert(ascii_lowercase(w.subrange(0, 3)) =~= seq!['p', 'o', 's']);
    let value = w.subrange(4, w.len() as int);
    assert(value =~= a + seq![','] + bb);
    assert forall|j: int| 0 <= j < a.len() implies value[j] != ',' by {
        assert(value[j] == a[j]);
    }
    lemma_find_at(value, 0, a.len() as int, ',');
    assert(value.subrange(0, a.len() as int) =~= a);
    assert(value.subrange(a.len() + 1 as int, value.len() as int) =~= bb);
    lemma_parse_isize_signed(ox);
    lemma_parse_isize_signed(oy);
    assert(spec_xrle_field(scan, w, 1) == Ok::<GollyScan, (nat, Seq<char>)>(GollyScan { origin: (ox, oy), ..scan }));
    assert(spec_xrle_fields(t, 7, scan, 1) == spec_xrle_fields(t, t.len() as int, GollyScan { origin: (ox, oy), ..scan }, 1));
    assert(spec_xrle_fields(t, 6, scan, 1) == spec_xrle_fields(t, 7, scan, 1));
}

/// The header line that gives the size of a pattern and its rule.
pub open spec fn header_line(w: usize, h: usize) -> Seq<char> {
    seq!['x', ' ', '=', ' '] + decimal(w as nat) + seq![',', ' ', 'y', ' ', '=', ' '] + decimal(h as nat) + seq![
        ',',
        ' ',
        'r',
        'u',
        'l',
        'e',
        ' ',
        '=',
        ' ',
        'J',
        'v',
        'N',
        '2',
        '9',
    ]
}

/// A field `<pad>key = <pad>value` of a header line, its key and value
/// without whitespace around them.
proof fn lemma_header_part(part: Seq<char>, key: Seq<char>, pad: int, value: Seq<char>)
    requires
        0 <= pad <= 1,
        key.len() >= 1,
        value.len() >= 1,
        part == Seq::new(pad as nat, |i: int| ' ') + key + seq![' ', '=', ' '] + value,
        forall|i: int| 0 <= i < key.len() ==> !is_white_space(#[trigger] key[i]) && key[i] != '=',
        !is_white_space(value[0]),
        !is_white_space(value.last()),
    ensures
        find_from(part, 0, '=') == pad + key.len() + 1,
        trim_seq(part.subrange(0, pad + key.len() + 1)) == key,
        trim_seq(part.subrange(pad + key.len() + 2, part.len() as int)) == value,
{
    let e = pad + key.len() + 1;
    assert forall|j: int| 0 <= j < e implies part[j] != '=' by {
        if pad <= j < pad + key.len() {
            assert(part[j] == key[j - pad]);
        }
    }
    lemma_find_at(part, 0, e, '=');
    let k = part.subrange(0, e);
    assert forall|j: int| 0 <= j < pad implies is_white_space(#[trigger] k[j]) by {
    }
    assert(k[pad] == key[0]);
    assert(k[pad + key.len() - 1] == key.last());
    lemma_trim_seq(k, pad, pad + key.len());
    assert(k.subrange(pad, pad + key.len()) =~= key);
    let v = part.subrange(e + 1, part.len() as int);
    assert(v =~= seq![' '] + value);
    lemma_trim_seq(v, 1, v.len() as int);
    assert(v.subrange(1, v.len() as int) =~= value);
}

/// The header line declares the size and the JvN29 rule.
#[verifier::rlimit(40)]
proof fn lemma_header_line(w: usize, h: usize, line: nat)
    ensures
        spec_header(header_line(w, h), line) == Ok::<((usize, usize), Option<Seq<char>>), (nat, Seq<char>)>(
            ((w, h), Some(seq!['J', 'v', 'N', '2', '9'])),
        ),
{
    let dw = decimal(w as nat);
    let dh = decimal(h as nat);
    lemma_decimal_digits(w as nat);
    lemma_decimal_digits(h as nat);
    lemma_parse_usize_decimal(w as nat);
    lemma_parse_usize_decimal(h as nat);
    assert(crate::text::is_digit(dw[0]) && crate::text::is_digit(dw.last()));
    assert(crate::text::is_digit(dh[0]) && crate::text::is_digit(dh.last()));
    let t = header_line(w, h);
    let n1: int = 4 + dw.len() as int;
    let n2: int = n1 + 6 + dh.len() as int;
    assert(t.len() == n2 + 14);
    assert forall|j: int| 0 <= j < n1 implies t[j] != ',' by {
        if j >= 4 {
            assert(t[j] == dw[j - 4]);
            assert(crate::text::is_digit(dw[j - 4]));
        }
    }
    assert(t[n1] == ',');
    lemma_find_at(t, 0, n1, ',');
    assert forall|j: int| n1 + 1 <= j < n2 implies t[j] != ',' by {
        if j >= n1 + 6 {
            assert(t[j] == dh[j - n1 - 6]);
            assert(crate::text::is_digit(dh[j - n1 - 6]));
        }
    }
    assert(t[n2] == ',');
    lemma_find_at(t, n1 + 1, n2, ',');
    assert forall|j: int| n2 + 1 <= j < t.len() implies t[j] != ',' by {
    }
    lemma_find_none(t, n2 + 1, ',');
    let h0 = HeaderScan { width: None, height: None, rule: None };
    let part1 = t.subrange(0, n1);
    assert(part1 =~= Seq::new(0, |i: int| ' ') + seq!['x'] + seq![' ', '=', ' '] + dw);
    lemma_header_part(part1, seq!['x'], 0, dw);
    assert(ascii_lowercase(seq!['x']) =~= seq!['x']);
    let h1 = HeaderScan { width: Some(w), ..h0 };
    assert(spec_header_field(h0, part1, line) == Ok::<HeaderScan, (nat, Seq<char>)>(h1));
    let part2 = t.subrange(n1 + 1, n2);
    assert(part2 =~= Seq::new(1, |i: int| ' ') + seq!['y'] + seq![' ', '=', ' '] + dh);
    lemma_header_part(part2, seq!['y'], 1, dh);
    assert(ascii_lowercase(seq!['y']) =~= seq!['y']);
    let h2 = HeaderScan { height: Some(h), ..h1 };
    assert(spec_header_field(h1, part2, line) == Ok::<HeaderScan, (nat, Seq<char>)>(h2));
    let part3 = t.subrange(n2 + 1, t.len() as int);
    let rule = seq!['J', 'v', 'N', '2', '9'];
    assert(part3 =~= Seq::new(1, |i: int| ' ') + seq!['r', 'u', 'l', 'e'] + seq![' ', '=', ' '] + rule);
    lemma_header_part(part3, seq!['r', 'u', 'l', 'e'], 1, rule);
    assert(ascii_lowercase(seq!['r', 'u', 'l', 'e']) =~= seq!['r', 'u', 'l', 'e']);
    let h3 = HeaderScan { rule: Some(rule), ..h2 };
    assert(spec_header_field(h2, part3, line) == Ok::<HeaderScan, (nat, Seq<char>)>(h3));
    assert(spec_header_fields(t, n2 + 1, h2, line) == Ok::<HeaderScan, (nat, Seq<char>)>(h3));
    assert(spec_header_fields(t, n1 + 1, h1, line) == Ok::<HeaderScan, (nat, Seq<char>)>(h3));
    assert(spec_header_fields(t, 0, h0, line) == Ok::<HeaderScan, (nat, Seq<char>)>(h3));
}

/// Reading the line from `p` to `e`: a line break or the end follows it,
/// and it neither starts nor ends with whitespace.
proof fn lemma_scan_line(s: Seq<char>, p: int, e: int, line: nat, scan: GollyScan)
    requires
        0 <= p < e <= s.len(),
        forall|j: int| p <= j < e ==> s[j] != '\n',
        e < s.len() ==> s[e] == '\n',
        !is_white_space(s[p]),
        !is_white_space(s[e - 1]),
    ensures
        spec_scan_lines(s, p, line, scan) == match spec_line_step(scan, s.subrange(p, e), line) {
            Err(err) => Err(err),
            Ok(s2) => if e >= s.len() {
                Ok(s2)
            } else {
                spec_scan_lines(s, e + 1, line + 1, s2)
            },
        },
{
    if e < s.len() {
        lemma_find_at(s, p, e, '\n');
    } else {
        lemma_find_none(s, p, '\n');
    }
    lemma_trim_fixed(s, p, e);
}

/// The rule `JvN29` is accepted, and kept where no rule was declared.
proof fn lemma_set_jvn29_rule(scan: GollyScan, line: nat)
    requires
        scan.declared_rule is None,
    ensures
        spec_validate_rule(seq!['J', 'v', 'N', '2', '9'], line) == Ok::<(), (nat, Seq<char>)>(()),
        spec_set_rule(scan, seq!['J', 'v', 'N', '2', '9'], line) == Ok::<GollyScan, (nat, Seq<char>)>(
            GollyScan { declared_rule: Some(seq!['J', 'v', 'N', '2', '9']), ..scan },
        ),
{
    let rule = seq!['J', 'v', 'N', '2', '9'];
    lemma_trim_seq(rule, 0, 5);
    assert(rule.subrange(0, 5) =~= rule);
    let normalized = ascii_lowercase(trim_seq(rule));
    assert(normalized =~= seq!['j', 'v', 'n', '2', '9']);
    assert(!normalized.contains(':'));
}

/// The header line sets the size and the rule.
proof fn lemma_header_step(w: usize, h: usize, scan: GollyScan)
    requires
        scan.declared_rule is None,
    ensures
        spec_line_step(scan, header_line(w, h), 2) == Ok::<GollyScan, (nat, Seq<char>)>(
            GollyScan {
                declared_size: Some((w, h)),
                declared_rule: Some(seq!['J', 'v', 'N', '2', '9']),
                ..scan
            },
        ),
{
    let t = header_line(w, h);
    lemma_header_line(w, h, 2);
    assert(t[0] == 'x');
    assert(t[1] == ' ');
    assert(!starts_with(t, seq!['#', 'C', 'X', 'R', 'L', 'E'])) by {
        assert(t.subrange(0, 6)[0] == 'x');
    }
    assert(spec_is_header(t));
    lemma_set_jvn29_rule(GollyScan { declared_size: Some((w, h)), ..scan }, 2);
}

/// A line of run-length encoded data is kept as the data.
proof fn lemma_data_step(data: Seq<char>, scan: GollyScan)
    requires
        data.len() > 0,
        forall|i: int| 0 <= i < data.len() ==> rle_char(#[trigger] data[i]),
        scan.data.len() == 0,
    ensures
        spec_line_step(scan, data, 3) == Ok::<GollyScan, (nat, Seq<char>)>(
            GollyScan { first_data_line: 3, data: data, ..scan },
        ),
{
    assert(rle_char(data[0]));
    assert(!starts_with(data, seq!['#', 'C', 'X', 'R', 'L', 'E'])) by {
        if data.len() >= 6 {
            assert(data.subrange(0, 6)[0] == data[0]);
        }
    }
    assert(!spec_is_header(data));
    assert(scan.data + data =~= data);
}

/// The Golly file of a pattern's position, size and data, read.
#[verifier::rlimit(40)]
proof fn lemma_golly_text_reads(ox: isize, oy: isize, w: usize, h: usize, data: Seq<char>)
    requires
        data.len() > 0,
        forall|i: int| 0 <= i < data.len() ==> rle_char(#[trigger] data[i]),
        data.last() == '!',
    ensures
        spec_parse_jvn29_rle(xrle_line(ox, oy) + seq!['\n'] + header_line(w, h) + seq!['\n'] + data) == match spec_rle_cells(
            data,
            (ox, oy),
        ) {
            Ok(cells) => Ok(
                GollyPatternView { declared_size: (w, h), origin: (ox, oy), generation: None, comments: seq![], cells },
            ),
            Err(m) => Err((3nat, m)),
        },
{
    let l1 = xrle_line(ox, oy);
    let l2 = header_line(w, h);
    let g = l1 + seq!['\n'] + l2 + seq!['\n'] + data;
    lemma_signed_decimal_chars(ox as int);
    lemma_signed_decimal_chars(oy as int);
    lemma_decimal_digits(w as nat);
    lemma_decimal_digits(h as nat);
    let e1 = l1.len() as int;
    let p2 = e1 + 1;
    let e2 = p2 + l2.len();
    let p3 = e2 + 1;
    assert(g.subrange(0, e1) =~= l1);
    assert(g.subrange(p2, e2) =~= l2);
    assert(g.subrange(p3, g.len() as int) =~= data);
    assert forall|j: int| 0 <= j < e1 implies g[j] != '\n' by {
        assert(g[j] == l1[j]);
        if 11 <= j < 11 + signed_decimal(ox as int).len() {
            assert(l1[j] == signed_decimal(ox as int)[j - 11]);
        } else if j > 11 + signed_decimal(ox as int).len() {
            assert(l1[j] == signed_decimal(oy as int)[j - 12 - signed_decimal(ox as int).len()]);
        }
    }
    assert(g[e1] == '\n');
    assert(g[0] == '#');
    assert(g[e1 - 1] == signed_decimal(oy as int).last());
    let s0 = golly_scan_start();
    lemma_scan_line(g, 0, e1, 1, s0);
    lemma_xrle_line(ox, oy, s0);
    let s1 = GollyScan { origin: (ox, oy), ..s0 };
    let dw = decimal(w as nat);
    let dh = decimal(h as nat);
    assert forall|j: int| p2 <= j < e2 implies g[j] != '\n' by {
        assert(g[j] == l2[j - p2]);
        let k = j - p2;
        if 4 <= k < 4 + dw.len() {
            assert(l2[k] == dw[k - 4]);
            assert(crate::text::is_digit(dw[k - 4]));
        } else if 10 + dw.len() <= k < 10 + dw.len() + dh.len() {
            assert(l2[k] == dh[k - 10 - dw.len()]);
            assert(crate::text::is_digit(dh[k - 10 - dw.len()]));
        }
    }
    assert(g[e2] == '\n');
    assert(g[p2] == 'x');
    assert(g[e2 - 1] == '9');
    lemma_scan_line(g, p2, e2, 2, s1);
    lemma_header_step(w, h, s1);
    let s2 = GollyScan { declared_size: Some((w, h)), declared_rule: Some(seq!['J', 'v', 'N', '2', '9']), ..s1 };
    assert forall|j: int| p3 <= j < g.len() implies g[j] != '\n' by {
        assert(g[j] == data[j - p3]);
        assert(rle_char(data[j - p3]));
    }
    assert(g[p3] == data[0]);
    assert(rle_char(data[0]));
    assert(g[g.len() - 1] == '!');
    lemma_scan_line(g, p3, g.len() as int, 3, s2);
    lemma_data_step(data, s2);
    lemma_set_jvn29_rule(s0, 1);
}

/// The Golly file of a document's JvN29 pattern is its position line, its
/// header line and its data.
proof fn lemma_jvn29_text_shape(p: RlePattern)
    ensures
        jvn29_golly_text(p) == xrle_line(p.origin.x, p.origin.y) + seq!['\n'] + header_line(p.size.width, p.size.height)
            + seq!['\n'] + concat_texts(texts(p.lines@)),
{
    reveal_strlit("#CXRLE Pos=");
    reveal_strlit(",");
    reveal_strlit("\nx = ");
    reveal_strlit(", y = ");
    reveal_strlit(", rule = JvN29\n");
    assert(jvn29_golly_text(p) =~= xrle_line(p.origin.x, p.origin.y) + seq!['\n'] + header_line(
        p.size.width,
        p.size.height,
    ) + seq!['\n'] + concat_texts(texts(p.lines@)));
}

/// The empty JvN29 pattern reads back as no cells.
proof fn lemma_jvn29_empty_pattern(p: RlePattern)
    requires
        builds_pattern(Seq::<Cell<VonNeumannState>>::empty(), Ok(p)),
    ensures
        spec_jvn29_pattern_cells(p) == Ok::<Seq<Cell<VonNeumannState>>, Seq<char>>(Seq::empty()),
{
    reveal_strlit("!");
    let ox = p.origin.x;
    let oy = p.origin.y;
    let data = concat_texts(texts(p.lines@));
    assert(texts(p.lines@) == seq!["!"@]);
    assert(seq!["!"@].drop_last() =~= Seq::<Seq<char>>::empty());
    assert(concat_texts(Seq::<Seq<char>>::empty()) == Seq::<char>::empty());
    assert(data == Seq::<char>::empty() + "!"@);
    assert("!"@ =~= seq!['!']);
    assert(data =~= seq!['!']);
    lemma_jvn29_text_shape(p);
    lemma_golly_text_reads(ox, oy, p.size.width, p.size.height, data);
    assert(rle_scan(data, 0, (ox, oy)) == Ok::<RleRead, Seq<char>>(rle_start()));
    assert(rle_scan(data, 1, (ox, oy)) == Ok::<RleRead, Seq<char>>(RleRead { ended: true, ..rle_start() }));
}

/// A JvN29 pattern of cells reads back as the cells that the rows of
/// their bounding box show.
proof fn lemma_jvn29_pattern_reads_back(cells: Seq<Cell<VonNeumannState>>, p: RlePattern)
    requires
        cells.len() > 0,
        builds_pattern(cells, Ok(p)),
    ensures
        spec_jvn29_pattern_cells(p) == Ok::<Seq<Cell<VonNeumannState>>, Seq<char>>(read_back_cells(cells)),
        bounds_fit(spec_bounds(cells, cells.len() as int)),
{
    let ox = p.origin.x;
    let oy = p.origin.y;
    let data = concat_texts(texts(p.lines@));
    let b = spec_bounds(cells, cells.len() as int);
    lemma_bounds(cells, cells.len() as int);
    let i0 = choose|i: int| 0 <= i < cells.len() && #[trigger] cells[i].x == b.min_x;
    let i1 = choose|i: int| 0 <= i < cells.len() && #[trigger] cells[i].x == b.max_x;
    let i2 = choose|i: int| 0 <= i < cells.len() && #[trigger] cells[i].y == b.min_y;
    let i3 = choose|i: int| 0 <= i < cells.len() && #[trigger] cells[i].y == b.max_y;
    assert(bounds_fit(b));
    let text = rle_text(cells, b);
    lemma_split_rle_lines(text);
    assert(data == text);
    lemma_rows_text_chars(cells, b, b.max_y - b.min_y + 1);
    let rows = rows_text(cells, b, b.max_y - b.min_y + 1);
    assert forall|i: int| 0 <= i < text.len() implies rle_char(#[trigger] text[i]) by {
        if i < rows.len() {
            assert(text[i] == rows[i]);
        }
    }
    lemma_jvn29_text_shape(p);
    lemma_golly_text_reads(ox, oy, p.size.width, p.size.height, data);
    lemma_rle_text(cells, b, (ox, oy));
}

/// Writing JvN29 cells into a document and reading the document back
/// gives the same cells, breakpoints, stages and overlays, where no cell is
/// in the ground state and the cells come in the order of rows, each
/// position once (the order in which a document holds them).
pub proof fn lemma_jvn29_document_round_trip(
    cells: Seq<Cell<VonNeumannState>>,
    d: VnsDocument,
    breakpoints: Set<(isize, isize)>,
    stages: Vec<Stage>,
    overlays: Vec<Overlay>,
)
    requires
        row_sorted(cells),
        forall|i: int| 0 <= i < cells.len() ==> (#[trigger] cells[i]).state != VonNeumannState::Ground,
        overlays_error(overlays@, 0) is None,
        documents(cells, Ok(d), Ruleset::JvN29, breakpoints, stages, overlays),
    ensures
        spec_document_cells(d) == Ok::<CellsView, Seq<char>>(CellsView::JvN29(cells)),
        point_set(d.extra.breakpoints@) == breakpoints,
        d.extra.stages == stages,
        d.extra.overlays == overlays,
{
    lemma_jvn29_document_reads(cells, d, breakpoints, stages, overlays);
    if cells.len() > 0 {
        lemma_cells_read_back(cells);
    } else {
        assert(cells =~= Seq::<Cell<VonNeumannState>>::empty());
    }
}

/// The document written from JvN29 cells reads back as the cells that the
/// rows of their bounding box show.
proof fn lemma_jvn29_document_reads(
    cells: Seq<Cell<VonNeumannState>>,
    d: VnsDocument,
    breakpoints: Set<(isize, isize)>,
    stages: Vec<Stage>,
    overlays: Vec<Overlay>,
)
    requires
        overlays_error(overlays@, 0) is None,
        documents(cells, Ok(d), Ruleset::JvN29, breakpoints, stages, overlays),
    ensures
        spec_document_cells(d) == Ok::<CellsView, Seq<char>>(CellsView::JvN29(read_back_cells(cells))),
        cells.len() > 0 ==> bounds_fit(spec_bounds(cells, cells.len() as int)),
{
    reveal_strlit("jvn29");
    assert("jvn29"@ =~= Ruleset::JvN29.spec_name());
    if cells.len() == 0 {
        lemma_jvn29_empty_pattern(d.pattern);
    } else {
        lemma_jvn29_pattern_reads_back(cells, d.pattern);
    }
}

/// Writing JvN29 cells, at distinct positions but in any order and any
/// states, into a document and reading the document back gives the cells
/// of the same grid: those not in the ground state, in the order of rows,
/// each position once; and the same breakpoints, stages and overlays.
pub proof fn lemma_jvn29_document_grid_round_trip(
    cells: Seq<Cell<VonNeumannState>>,
    d: VnsDocument,
    breakpoints: Set<(isize, isize)>,
    stages: Vec<Stage>,
    overlays: Vec<Overlay>,
)
    requires
        positions_unique(cells),
        overlays_error(overlays@, 0) is None,
        documents(cells, Ok(d), Ruleset::JvN29, breakpoints, stages, overlays),
    ensures
        spec_document_cells(d) matches Ok(CellsView::JvN29(back)) && holds_same_grid(back, cells),
        point_set(d.extra.breakpoints@) == breakpoints,
        d.extra.stages == stages,
        d.extra.overlays == overlays,
{
    lemma_jvn29_document_reads(cells, d, breakpoints, stages, overlays);
    lemma_read_back_same_grid(cells);
}

/// Saving the cells taken from an automaton and loading the document again
/// gives an automaton of the same ruleset whose every cell with `isize`
/// coordinates is in the state it had: the cells listed by
/// `to_pattern_cells`, written by `build_vns_document`, read by
/// `load_document` and made into an automaton by `from_pattern_cells`.
#[verifier::rlimit(30)]
pub proof fn lemma_saved_pattern_loads_same_grid(
    a: ActiveAutomaton,
    cells: PatternCells,
    d: VnsDocument,
    loaded: PatternCells,
    b: ActiveAutomaton,
    breakpoints: Set<(isize, isize)>,
    stages: Vec<Stage>,
    overlays: Vec<Overlay>,
)
    requires
        match (a, cells) {
            (ActiveAutomaton::JvN29(x), PatternCells::JvN29(c)) => lists_grid(c@, |p: int, q: int| x.state_at(p, q)),
            (ActiveAutomaton::GameOfLife(x), PatternCells::GameOfLife(c)) => lists_grid(
                c@,
                |p: int, q: int| x.state_at(p, q),
            ),
            _ => false,
        },
        overlays_error(overlays@, 0) is None,
        match cells {
            PatternCells::JvN29(c) => documents(c@, Ok(d), Ruleset::JvN29, breakpoints, stages, overlays),
            PatternCells::GameOfLife(c) => documents(c@, Ok(d), Ruleset::GameOfLife, breakpoints, stages, overlays),
        },
        spec_document_cells(d) == Ok::<CellsView, Seq<char>>(loaded@),
        automaton_of(b, loaded),
    ensures
        match (a, b) {
            (ActiveAutomaton::JvN29(x), ActiveAutomaton::JvN29(y)) => forall|p: int, q: int|
                isize::MIN <= p <= isize::MAX && isize::MIN <= q <= isize::MAX ==> #[trigger] y.state_at(p, q)
                    == x.state_at(p, q),
            (ActiveAutomaton::GameOfLife(x), ActiveAutomaton::GameOfLife(y)) => forall|p: int, q: int|
                isize::MIN <= p <= isize::MAX && isize::MIN <= q <= isize::MAX ==> #[trigger] y.state_at(p, q)
                    == x.state_at(p, q),
            _ => false,
        },
{
    match cells {
        PatternCells::JvN29(c) => {
            lemma_jvn29_document_grid_round_trip(c@, d, breakpoints, stages, overlays);
        },
        PatternCells::GameOfLife(c) => {
            lemma_game_of_life_document_grid_round_trip(c@, d, breakpoints, stages, overlays);
        },
    }
    match (a, cells, loaded, b) {
        (
            ActiveAutomaton::JvN29(x),
            PatternCells::JvN29(c),
            PatternCells::JvN29(back),
            ActiveAutomaton::JvN29(y),
        ) => {
            lemma_listed_cells_repaint(c@, |p: int, q: int| x.state_at(p, q));
            assert forall|p: int, q: int|
                isize::MIN <= p <= isize::MAX && isize::MIN <= q <= isize::MAX implies #[trigger] y.state_at(p, q)
                == x.state_at(p, q) by {
                assert(painted(back@, back@.len() as int, p, q, VonNeumannState::spec_default()) == painted(
                    c@,
                    c@.len() as int,
                    p,
                    q,
                    VonNeumannState::spec_default(),
                ));
            }
        },
        (
            ActiveAutomaton::GameOfLife(x),
            PatternCells::GameOfLife(c),
            PatternCells::GameOfLife(back),
            ActiveAutomaton::GameOfLife(y),
        ) => {
            lemma_listed_cells_repaint(c@, |p: int, q: int| x.state_at(p, q));
            assert forall|p: int, q: int|
                isize::MIN <= p <= isize::MAX && isize::MIN <= q <= isize::MAX implies #[trigger] y.state_at(p, q)
                == x.state_at(p, q) by {
                assert(painted(back@, back@.len() as int, p, q, GameOfLifeState::spec_default()) == painted(
                    c@,
                    c@.len() as int,
                    p,
                    q,
                    GameOfLifeState::spec_default(),
                ));
            }
        },
        _ => {},
    }
}

} // verus!
