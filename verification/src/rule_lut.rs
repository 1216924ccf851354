//! A rule tabulated once for every combination of a state and its
//! neighbors, so that each evaluation is a single lookup.
use vstd::prelude::*;

use core::marker::PhantomData;

use crate::cell::{CellNeighborhood, CellRuleEvaluator, CellState};

verus! {

/// `r` to the power `e`.
pub open spec fn power(r: nat, e: nat) -> nat
    decreases e,
{
    if e == 0 {
        1
    } else {
        r * power(r, (e - 1) as nat)
    }
}

/// The least power of two that is at least `count`, searched upwards from
/// the power of two `r`.
pub open spec fn radix_from(r: nat, count: nat) -> nat
    decreases (if r < count {
        count - r
    } else {
        0
    }),
{
    if r == 0 || r >= count {
        r
    } else {
        radix_from(2 * r, count)
    }
}

/// The number of index values that one state takes in a table: the least
/// power of two that is at least the number of states, so that each state
/// takes a whole number of bits.
pub open spec fn spec_radix<State: CellState>() -> nat {
    radix_from(1, State::spec_count())
}

/// The number of entries of the table for states `State` and `k`
/// neighbors.
pub open spec fn spec_table_size<State: CellState>(k: nat) -> nat {
    power(spec_radix::<State>(), k + 1)
}

/// The number whose digits, most significant first and in base `r`, are
/// `digits`.
pub open spec fn spec_number(digits: Seq<nat>, r: nat) -> nat
    decreases digits.len(),
{
    if digits.len() == 0 {
        0
    } else {
        spec_number(digits.drop_last(), r) * r + digits.last()
    }
}

/// The last `n` digits of `x` in base `r`, most significant first.
pub open spec fn spec_digits(x: nat, r: nat, n: nat) -> Seq<nat>
    decreases n,
{
    if n == 0 {
        Seq::empty()
    } else {
        spec_digits(x / r, r, (n - 1) as nat).push(x % r)
    }
}

/// The codes of a state followed by those of its neighbors.
pub open spec fn spec_codes<State: CellState>(state: State, neighbors: Seq<State>) -> Seq<nat> {
    seq![state.spec_code() as nat] + neighbors.map_values(|s: State| s.spec_code() as nat)
}

/// The table index of a state and its neighbors.
pub open spec fn spec_to_index<State: CellState>(state: State, neighbors: Seq<State>) -> nat {
    spec_number(spec_codes(state, neighbors), spec_radix::<State>())
}

/// The state and neighbors that a table index stands for, if every digit of
/// the index is the code of a state.
pub open spec fn spec_from_index<State: CellState>(index: nat, k: nat) -> Option<(State, Seq<State>)> {
    let digits = spec_digits(index, spec_radix::<State>(), k + 1);
    if forall|j: int| 0 <= j < k + 1 ==> #[trigger] digits[j] < State::spec_count() {
        Some(
            (
                State::spec_from_code(digits[0] as u8)->0,
                Seq::new(k, |j: int| State::spec_from_code(digits[j + 1] as u8)->0),
            ),
        )
    } else {
        None
    }
}

pub open spec fn is_small_power_of_two(r: nat) -> bool {
    r == 1 || r == 2 || r == 4 || r == 8 || r == 16 || r == 32 || r == 64 || r == 128 || r == 256
}

proof fn lemma_radix_from(r: nat, count: nat)
    requires
        is_small_power_of_two(r),
        count <= 256,
    ensures
        radix_from(r, count) >= r,
        radix_from(r, count) >= count,
        is_small_power_of_two(radix_from(r, count)),
    decreases (if r < count {
        count - r
    } else {
        0
    }),
{
    if r < count {
        lemma_radix_from(2 * r, count);
    }
}

proof fn lemma_power_one(r: nat)
    ensures
        power(r, 1) == r,
{
    assert(power(r, 0) == 1);
    assert(power(r, 1) == r * power(r, 0));
}

/// The digits of a number are below the base.
proof fn lemma_digits_bound(x: nat, r: nat, n: nat)
    requires
        r >= 1,
    ensures
        spec_digits(x, r, n).len() == n,
        forall|j: int| 0 <= j < n ==> #[trigger] spec_digits(x, r, n)[j] < r,
    decreases n,
{
    if n > 0 {
        lemma_digits_bound(x / r, r, (n - 1) as nat);
    }
}

/// A prefix of the digits makes a number no larger.
proof fn lemma_number_prefix(digits: Seq<nat>, r: nat, j: int)
    requires
        r >= 1,
        0 <= j <= digits.len(),
    ensures
        spec_number(digits.take(j), r) <= spec_number(digits, r),
    decreases digits.len(),
{
    if j < digits.len() {
        let init = digits.drop_last();
        assert(init.take(j) =~= digits.take(j));
        lemma_number_prefix(init, r, j);
        let a = spec_number(init, r);
        assert(a <= a * r + digits.last()) by (nonlinear_arith)
            requires
                r >= 1,
        ;
    } else {
        assert(digits.take(j) =~= digits);
    }
}

proof fn lemma_radix<State: CellState>()
    ensures
        1 <= State::spec_count() <= spec_radix::<State>() <= 256,
{
    State::lemma_count_and_default();
    lemma_radix_from(1, State::spec_count());
}

proof fn lemma_power_positive(r: nat, e: nat)
    requires
        r >= 1,
    ensures
        power(r, e) >= 1,
    decreases e,
{
    if e > 0 {
        lemma_power_positive(r, (e - 1) as nat);
        assert(r * power(r, (e - 1) as nat) >= 1) by (nonlinear_arith)
            requires
                r >= 1,
                power(r, (e - 1) as nat) >= 1,
        ;
    }
}

proof fn lemma_power_monotone(r: nat, e1: nat, e2: nat)
    requires
        r >= 1,
        e1 <= e2,
    ensures
        power(r, e1) <= power(r, e2),
    decreases e2,
{
    if e1 < e2 {
        lemma_power_monotone(r, e1, (e2 - 1) as nat);
        lemma_power_positive(r, (e2 - 1) as nat);
        assert(power(r, (e2 - 1) as nat) <= r * power(r, (e2 - 1) as nat)) by (nonlinear_arith)
            requires
                r >= 1,
        ;
    }
}

/// A number with `n` digits below `r` is below `r` to the `n`.
proof fn lemma_number_bound(digits: Seq<nat>, r: nat)
    requires
        r >= 1,
        forall|j: int| 0 <= j < digits.len() ==> #[trigger] digits[j] < r,
    ensures
        spec_number(digits, r) < power(r, digits.len()),
    decreases digits.len(),
{
    if digits.len() > 0 {
        let init = digits.drop_last();
        lemma_number_bound(init, r);
        let a = spec_number(init, r);
        let p = power(r, init.len());
        let d = digits.last();
        assert(a * r + d < r * p) by (nonlinear_arith)
            requires
                a < p,
                d < r,
        ;
    }
}

/// The digits of a number are the digits it was made of.
proof fn lemma_digits_of_number(digits: Seq<nat>, r: nat)
    requires
        r >= 1,
        forall|j: int| 0 <= j < digits.len() ==> #[trigger] digits[j] < r,
    ensures
        spec_digits(spec_number(digits, r), r, digits.len()) == digits,
    decreases digits.len(),
{
    if digits.len() > 0 {
        let init = digits.drop_last();
        lemma_digits_of_number(init, r);
        let x = spec_number(digits, r);
        let a = spec_number(init, r);
        vstd::arithmetic::div_mod::lemma_fundamental_div_mod_converse(
            x as int,
            r as int,
            a as int,
            digits.last() as int,
        );
        assert(spec_digits(x, r, digits.len()) =~= digits);
    }
}

/// Decoding the index of a state and its neighbors gives them back.
pub proof fn lemma_from_to_index<State: CellState>(state: State, neighbors: Seq<State>)
    ensures
        spec_from_index::<State>(spec_to_index(state, neighbors), neighbors.len()) == Some(
            (state, neighbors),
        ),
        spec_to_index(state, neighbors) < spec_table_size::<State>(neighbors.len()),
{
    let r = spec_radix::<State>();
    lemma_radix::<State>();
    let codes = spec_codes(state, neighbors);
    let k = neighbors.len();
    assert forall|j: int| 0 <= j < codes.len() implies #[trigger] codes[j] < State::spec_count() by {
        if j == 0 {
            State::lemma_code_round_trip(state);
        } else {
            State::lemma_code_round_trip(neighbors[j - 1]);
        }
    }
    lemma_digits_of_number(codes, r);
    lemma_number_bound(codes, r);
    let digits = spec_digits(spec_to_index(state, neighbors), r, k + 1);
    assert(digits == codes);
    State::lemma_code_round_trip(state);
    let decoded = Seq::new(k, |j: int| State::spec_from_code(digits[j + 1] as u8)->0);
    assert forall|j: int| 0 <= j < k implies decoded[j] == neighbors[j] by {
        State::lemma_code_round_trip(neighbors[j]);
    }
    assert(decoded =~= neighbors);
}

/// The cells from `m` on hold the states whose codes are the digits after
/// the first `m + 1`.
pub open spec fn decoded_from<State: CellState>(cells: Seq<State>, digits: Seq<nat>, m: int) -> bool {
    forall|j: int| m <= j < cells.len() ==> #[trigger] decoded_at(cells, digits, j)
}

/// The cell `j` holds the state whose code is digit `j + 1`.
pub open spec fn decoded_at<State: CellState>(cells: Seq<State>, digits: Seq<nat>, j: int) -> bool {
    digits[j + 1] < State::spec_count() && cells[j] == State::spec_from_code(digits[j + 1] as u8)->0
}

proof fn lemma_decoded_step<State: CellState>(
    old_cells: Seq<State>,
    new_cells: Seq<State>,
    digits: Seq<nat>,
    m: int,
    state: State,
)
    requires
        0 <= m < old_cells.len(),
        decoded_from(old_cells, digits, m + 1),
        new_cells == old_cells.update(m, state),
        digits[m + 1] < State::spec_count(),
        state == State::spec_from_code(digits[m + 1] as u8)->0,
    ensures
        decoded_from(new_cells, digits, m),
{
    assert(new_cells.len() == old_cells.len());
    assert forall|j: int| m <= j < new_cells.len() implies #[trigger] decoded_at(new_cells, digits, j) by {
        if j > m {
            assert(decoded_at(old_cells, digits, j));
        }
    }
}

proof fn lemma_decoded_all<State: CellState>(cells: Seq<State>, digits: Seq<nat>)
    requires
        decoded_from(cells, digits, 0),
        digits.len() == cells.len() + 1,
        digits[0] < State::spec_count(),
    ensures
        cells == Seq::new(cells.len(), |j: int| State::spec_from_code(digits[j + 1] as u8)->0),
        forall|j: int| 0 <= j < digits.len() ==> #[trigger] digits[j] < State::spec_count(),
{
    assert forall|j: int| 0 <= j < cells.len() implies #[trigger] cells[j]
        == State::spec_from_code(digits[j + 1] as u8)->0 by {
        assert(decoded_at(cells, digits, j));
    }
    assert forall|j: int| 0 <= j < digits.len() implies #[trigger] digits[j] < State::spec_count() by {
        if j > 0 {
            assert(decoded_at(cells, digits, j - 1));
        }
    }
    assert(cells =~= Seq::new(cells.len(), |j: int| State::spec_from_code(digits[j + 1] as u8)->0));
}

fn with_neighbor<State: CellState, Neighborhood: CellNeighborhood<State>>(
    neighbors: Neighborhood,
    i: usize,
    state: State,
) -> (r: Neighborhood)
    requires
        i < neighbors.spec_cells().len(),
    ensures
        r.spec_cells() == neighbors.spec_cells().update(i as int, state),
{
    let mut neighbors = neighbors;
    let cells = neighbors.neighbors_mut();
    cells[i] = state;
    neighbors
}

/// A rule tabulated over every state and neighborhood.
pub struct RuleLUT<State: CellState, Neighborhood: CellNeighborhood<State>> {
    lut: Vec<State>,
    _phantom_data: PhantomData<Neighborhood>,
}

impl<State: CellState, Neighborhood: CellNeighborhood<State>> RuleLUT<State, Neighborhood> {
    /// The table has one entry for each index.
    #[verifier::type_invariant]
    spec fn wf(self) -> bool {
        &&& self.lut@.len() == spec_table_size::<State>(Neighborhood::spec_num_cells())
        &&& spec_table_size::<State>(Neighborhood::spec_num_cells()) < 64 * 1024 * 1024
    }

    /// The table entries.
    pub closed spec fn spec_table(&self) -> Seq<State> {
        self.lut@
    }

    /// The tabulated rule is the rule of `evaluator`, for every state and
    /// every neighborhood.
    pub open spec fn tabulates<E: CellRuleEvaluator<State, Neighborhood>>(&self, evaluator: &E) -> bool {
        forall|s: State, n: Seq<State>|
            n.len() == Neighborhood::spec_num_cells() ==> #[trigger] self.spec_evaluate(s, n)
                == evaluator.spec_evaluate(s, n)
    }

    /// The table entries, in index order.
    pub fn values(&self) -> (r: &[State])
        ensures
            r@ == self.spec_table(),
    {
        self.lut.as_slice()
    }

    /// Tabulates the rule of `evaluator`.
    pub fn compute<E: CellRuleEvaluator<State, Neighborhood>>(evaluator: &E) -> (r: Self)
        requires
            spec_table_size::<State>(Neighborhood::spec_num_cells()) < 64 * 1024 * 1024,
        ensures
            r.spec_table().len() == spec_table_size::<State>(Neighborhood::spec_num_cells()),
            r.tabulates(evaluator),
            forall|j: int|
                0 <= j < r.spec_table().len() ==> match #[trigger] spec_from_index::<State>(
                    j as nat,
                    Neighborhood::spec_num_cells(),
                ) {
                    Some((s, n)) => r.spec_table()[j] == evaluator.spec_evaluate(s, n),
                    None => r.spec_table()[j] == State::spec_default(),
                },
    {
        let k = Neighborhood::num_cells();
        let radix = Self::radix();
        let size = Self::table_size(radix, k);
        let mut lut: Vec<State> = Vec::new();
        let mut i: usize = 0;
        while i < size
            invariant
                i <= size,
                size == spec_table_size::<State>(k as nat),
                k == Neighborhood::spec_num_cells(),
                size < 64 * 1024 * 1024,
                lut@.len() == i,
                forall|j: int|
                    0 <= j < i ==> match #[trigger] spec_from_index::<State>(j as nat, k as nat) {
                        Some((s, n)) => lut@[j] == evaluator.spec_evaluate(s, n),
                        None => lut@[j] == State::spec_default(),
                    },
            decreases size - i,
        {
            match Self::from_index(i) {
                Some((state, neighbors)) => {
                    lut.push(evaluator.evaluate(state, &neighbors));
                },
                None => {
                    lut.push(State::default_state());
                },
            }
            i = i + 1;
        }
        let r = RuleLUT { lut, _phantom_data: PhantomData };
        assert forall|s: State, n: Seq<State>|
            n.len() == Neighborhood::spec_num_cells() implies #[trigger] r.spec_evaluate(s, n)
            == evaluator.spec_evaluate(s, n) by {
            lemma_from_to_index(s, n);
            let j = spec_to_index(s, n);
            assert(spec_from_index::<State>(j as nat, k as nat) == Some((s, n)));
        }
        r
    }

    /// The number of index values one state takes.
    fn radix() -> (r: usize)
        ensures
            r == spec_radix::<State>(),
            1 <= r <= 256,
    {
        let count = State::count();
        proof {
            State::lemma_count_and_default();
            lemma_radix_from(1, count as nat);
        }
        let mut r: usize = 1;
        while r < count
            invariant
                is_small_power_of_two(r as nat),
                1 <= count <= 256,
                radix_from(r as nat, count as nat) == spec_radix::<State>(),
                count == State::spec_count(),
            decreases 256 - r,
        {
            r = 2 * r;
        }
        r
    }

    fn table_size(radix: usize, k: u8) -> (size: usize)
        requires
            radix == spec_radix::<State>(),
            k == Neighborhood::spec_num_cells(),
            spec_table_size::<State>(k as nat) < 64 * 1024 * 1024,
        ensures
            size == spec_table_size::<State>(k as nat),
    {
        proof {
            lemma_radix::<State>();
        }
        let mut size: usize = radix;
        let mut e: u8 = 0;
        proof {
            lemma_power_one(radix as nat);
        }
        while e < k
            invariant
                e <= k,
                size == power(radix as nat, e as nat + 1),
                radix >= 1,
                radix == spec_radix::<State>(),
                power(radix as nat, k as nat + 1) < 64 * 1024 * 1024,
            decreases k - e,
        {
            proof {
                lemma_power_monotone(radix as nat, e as nat + 2, k as nat + 1);
                assert(power(radix as nat, e as nat + 2) == radix as nat * power(radix as nat, e as nat + 1));
            }
            size = size * radix;
            e = e + 1;
        }
        size
    }

    /// The table index of a state and its neighbors.
    fn to_index(state: State, neighbors: &Neighborhood) -> (index: usize)
        requires
            spec_table_size::<State>(Neighborhood::spec_num_cells()) < 64 * 1024 * 1024,
        ensures
            index == spec_to_index(state, neighbors.spec_cells()),
    {
        let radix = Self::radix();
        let cells = neighbors.neighbors();
        proof {
            Neighborhood::lemma_len(neighbors);
            lemma_from_to_index(state, neighbors.spec_cells());
        }
        let ghost codes = spec_codes(state, cells@);
        let mut index: usize = state.code() as usize;
        let mut i: usize = 0;
        assert(codes.take(1).drop_last() =~= Seq::<nat>::empty());
        assert(spec_number(codes.take(1).drop_last(), radix as nat) == 0);
        assert(codes.take(1).last() == state.spec_code());
        assert(spec_number(codes.take(1), radix as nat) == state.spec_code()) by {
            reveal_with_fuel(spec_number, 2);
        }
        while i < cells.len()
            invariant
                i <= cells@.len(),
                cells@ == neighbors.spec_cells(),
                cells@.len() == Neighborhood::spec_num_cells(),
                codes == spec_codes(state, cells@),
                radix == spec_radix::<State>(),
                1 <= radix <= 256,
                index == spec_number(codes.take(i + 1), radix as nat),
                spec_number(codes, radix as nat) < 64 * 1024 * 1024,
            decreases cells@.len() - i,
        {
            proof {
                lemma_number_prefix(codes, radix as nat, i + 2);
            }
            assert(codes.take(i + 2).drop_last() =~= codes.take(i + 1));
            index = index * radix + cells[i].code() as usize;
            i = i + 1;
        }
        assert(codes.take(i + 1) =~= codes);
        index
    }

    /// The state and neighbors that a table index stands for.
    #[verifier::rlimit(60)]
    fn from_index(index: usize) -> (r: Option<(State, Neighborhood)>)
        requires
            index < spec_table_size::<State>(Neighborhood::spec_num_cells()),
            spec_table_size::<State>(Neighborhood::spec_num_cells()) < 64 * 1024 * 1024,
        ensures
            match r {
                Some((s, n)) => spec_from_index::<State>(
                    index as nat,
                    Neighborhood::spec_num_cells(),
                ) == Some((s, n.spec_cells())),
                None => spec_from_index::<State>(
                    index as nat,
                    Neighborhood::spec_num_cells(),
                ) is None,
            },
    {
        let radix = Self::radix();
        let k = Neighborhood::num_cells();
        let ghost r = radix as nat;
        let ghost full = spec_digits(index as nat, r, k as nat + 1);
        let mut neighbors = Neighborhood::new_default();
        let mut rest: usize = index;
        let mut m: usize = k as usize;
        proof {
            Neighborhood::lemma_len(&neighbors);
            lemma_digits_bound(index as nat, r, k as nat + 1);
        }
        while m > 0
            invariant
                m <= k,
                k == Neighborhood::spec_num_cells(),
                radix == spec_radix::<State>(),
                r == radix,
                1 <= radix <= 256,
                full == spec_digits(index as nat, r, k as nat + 1),
                full.len() == k + 1,
                forall|j: int| 0 <= j < k + 1 ==> #[trigger] full[j] < r,
                full =~= spec_digits(rest as nat, r, m as nat + 1) + full.subrange(m + 1, k + 1),
                rest < power(r, m as nat + 1),
                neighbors.spec_cells().len() == k,
                decoded_from(neighbors.spec_cells(), full, m as int),
            decreases m,
        {
            let digit = rest % radix;
            let ghost before = spec_digits(rest as nat, r, m as nat + 1);
            assert(before =~= spec_digits((rest / radix) as nat, r, m as nat).push(digit as nat));
            assert(full[m as int] == digit) by {
                assert(full[m as int] == before[m as int]);
            }
            let component = State::from_code(digit as u8);
            proof {
                State::lemma_from_code(digit as u8);
            }
            let ghost old_cells = neighbors.spec_cells();
            let state = match component {
                Some(state) => state,
                None => {
                    return None;
                },
            };
            neighbors = with_neighbor(neighbors, m - 1, state);
            assert(neighbors.spec_cells() == old_cells.update(m - 1, state));
            assert(full[m as int] < State::spec_count());
            proof {
                let p = power(r, m as nat);
                let q = (rest / radix) as nat;
                let t = (rest % radix) as nat;
                vstd::arithmetic::div_mod::lemma_fundamental_div_mod(rest as int, radix as int);
                assert(rest == q * r + t);
                assert(q < p) by (nonlinear_arith)
                    requires
                        rest == q * r + t,
                        rest < r * p,
                        r >= 1,
                ;
            }
            rest = rest / radix;
            m = m - 1;
            proof {
                lemma_decoded_step(old_cells, neighbors.spec_cells(), full, m as int, state);
            }
            assert(full =~= spec_digits(rest as nat, r, m as nat + 1) + full.subrange(m + 1, k + 1));
        }
        assert(spec_digits(rest as nat, r, 1) =~= seq![rest as nat % r]);
        assert(full[0] == rest % radix);
        proof {
            assert(spec_digits(rest as nat, r, 1) =~= spec_digits((rest / radix) as nat, r, 0).push(
                rest as nat % r,
            ));
        }
        proof {
            lemma_power_one(r);
        }
        assert(rest < radix);
        assert(full[0] == rest) by {
            vstd::arithmetic::div_mod::lemma_small_mod(rest as nat, r);
        }
        let state = State::from_code(rest as u8);
        proof {
            State::lemma_from_code(rest as u8);
        }
        match state {
            Some(state) => {
                proof {
                    lemma_decoded_all(neighbors.spec_cells(), full);
                    assert(forall|j: int| 0 <= j < k + 1 ==> #[trigger] full[j] < State::spec_count());
                }
                Some((state, neighbors))
            },
            None => None,
        }
    }
}

impl<State: CellState, Neighborhood: CellNeighborhood<State>> CellRuleEvaluator<
    State,
    Neighborhood,
> for RuleLUT<State, Neighborhood> {
    open spec fn spec_evaluate(&self, state: State, neighbors: Seq<State>) -> State {
        self.spec_table()[spec_to_index(state, neighbors) as int]
    }

    fn evaluate(&self, state: State, neighbors: &Neighborhood) -> (r: State) {
        proof {
            Neighborhood::lemma_len(neighbors);
            lemma_from_to_index(state, neighbors.spec_cells());
        }
        proof {
            use_type_invariant(self);
        }
        self.lut[Self::to_index(state, neighbors)]
    }
}

} // verus!
