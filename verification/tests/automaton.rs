use vnstudio::cell::CellularAutomataConfig;
use vnstudio::evaluator::BasicEvaluator;
use vnstudio::game_of_life::{GameOfLife, GameOfLifeConfig, GameOfLifeState};
use vnstudio::von_neumann::{VonNeumann, VonNeumannConfig, VonNeumannState};

#[test]
fn glider_moves_one_cell_diagonally_in_four_generations() {
    let mut automaton = GameOfLife::new();
    for (x, y) in [(1, 0), (2, 1), (0, 2), (1, 2), (2, 2)] {
        automaton.set_state(x, y, GameOfLifeState::Live);
    }
    for _ in 0..4 {
        automaton.evaluate_next();
    }
    let mut live = automaton
        .visit_non_default_cells((-10, -10), (10, 10))
        .into_iter()
        .map(|(x, y, _)| (x, y))
        .collect::<Vec<_>>();
    live.sort();
    assert_eq!(live, vec![(1, 3), (2, 1), (2, 3), (3, 2), (3, 3)]);
}

#[test]
fn block_is_still_across_chunk_borders() {
    let mut automaton = GameOfLife::new();
    for (x, y) in [(63, 63), (64, 63), (63, 64), (64, 64)] {
        automaton.set_state(x, y, GameOfLifeState::Live);
    }
    automaton.evaluate_next();
    automaton.evaluate_next();
    for (x, y) in [(63, 63), (64, 63), (63, 64), (64, 64)] {
        assert_eq!(automaton.get_state(x, y), GameOfLifeState::Live);
    }
    assert_eq!(automaton.get_state(62, 63), GameOfLifeState::Dead);
}

#[test]
fn empty_grid_stays_empty() {
    let mut automaton = VonNeumann::new();
    automaton.evaluate_next();
    assert_eq!(automaton.get_state(0, 0), VonNeumannState::Ground);
    assert!(automaton.visit_non_default_cells((-5, -5), (5, 5)).is_empty());
}

#[test]
fn excited_transmission_passes_its_signal_on() {
    let mut automaton = VonNeumann::new();
    automaton.set_state(0, 0, VonNeumannState::TransmissionExcitedRight);
    automaton.set_state(1, 0, VonNeumannState::TransmissionQuiescentRight);
    automaton.evaluate_next();
    assert_eq!(automaton.get_state(0, 0), VonNeumannState::TransmissionQuiescentRight);
    assert_eq!(automaton.get_state(1, 0), VonNeumannState::TransmissionExcitedRight);
}

#[test]
fn written_cells_are_read_back() {
    let mut automaton = VonNeumann::new();
    automaton.set_state(-70, 12, VonNeumannState::Confluent01);
    assert_eq!(automaton.get_state(-70, 12), VonNeumannState::Confluent01);
    assert_eq!(automaton.get_state(-71, 12), VonNeumannState::Ground);
    assert!(automaton.chunk_count() >= 1);
}

#[test]
fn cells_near_the_edge_of_the_coordinates_stop_evaluation() {
    let mut automaton = GameOfLife::new();
    automaton.set_state(5, -5, GameOfLifeState::Live);
    assert!(automaton.chunks_inside());
    automaton.set_state(isize::MAX, 0, GameOfLifeState::Live);
    assert!(!automaton.chunks_inside());

    let mut low = VonNeumann::new();
    low.set_state(0, isize::MIN, VonNeumannState::Sensitized);
    assert!(!low.chunks_inside());
}

#[test]
fn evaluating_with_the_basic_evaluator_matches_evaluate_next() {
    let mut first = GameOfLife::new();
    let mut second = GameOfLife::new();
    for (x, y) in [(1, 0), (2, 1), (0, 2), (1, 2), (2, 2), (70, -3), (71, -3), (72, -3)] {
        first.set_state(x, y, GameOfLifeState::Live);
        second.set_state(x, y, GameOfLifeState::Live);
    }
    let mut grid_evaluator = BasicEvaluator;
    for _ in 0..9 {
        first.evaluate_next();
        second.evaluate_next_with(&mut grid_evaluator);
    }
    let bounds = ((-100, -100), (100, 100));
    assert_eq!(
        first.visit_non_default_cells(bounds.0, bounds.1).len(),
        second.visit_non_default_cells(bounds.0, bounds.1).len()
    );
    for (x, y, state) in first.visit_non_default_cells(bounds.0, bounds.1) {
        assert_eq!(second.get_state(x, y), state);
    }
    assert_eq!(first.chunk_count(), second.chunk_count());
}

#[test]
fn configurations_are_named() {
    assert_eq!(VonNeumannConfig::name(), "Von Neumann");
    assert_eq!(GameOfLifeConfig::name(), "Game of Life");
}

#[test]
fn rebuilding_the_rule_table_keeps_cells_and_rule() {
    let mut automaton = GameOfLife::new();
    for (x, y) in [(0, 0), (1, 0), (2, 0)] {
        automaton.set_state(x, y, GameOfLifeState::Live);
    }
    automaton.switch_to_lut();
    assert_eq!(automaton.get_state(1, 0), GameOfLifeState::Live);
    automaton.evaluate_next();
    assert_eq!(automaton.get_state(1, -1), GameOfLifeState::Live);
    assert_eq!(automaton.get_state(1, 1), GameOfLifeState::Live);
    assert_eq!(automaton.get_state(0, 0), GameOfLifeState::Dead);
}

#[test]
fn writing_a_corner_cell_allocates_four_chunks() {
    let mut automaton = GameOfLife::new();
    assert_eq!(automaton.chunk_count(), 0);
    automaton.set_state(0, 0, GameOfLifeState::Live);
    assert_eq!(automaton.chunk_count(), 4);
}

#[test]
fn a_default_write_into_a_missing_chunk_leaves_the_chunk_count() {
    let mut automaton = GameOfLife::new();
    automaton.set_state(5, 5, GameOfLifeState::Dead);
    assert_eq!(automaton.chunk_count(), 0);
    automaton.set_state(63, 10, GameOfLifeState::Live);
    assert_eq!(automaton.chunk_count(), 2);
    automaton.set_state(300, 300, GameOfLifeState::Dead);
    assert_eq!(automaton.chunk_count(), 2);
    automaton.set_state(63, 10, GameOfLifeState::Dead);
    assert_eq!(automaton.chunk_count(), 2);
}

#[test]
fn time_totals_start_at_zero_and_only_grow() {
    let mut automaton = GameOfLife::new();
    let times = automaton.operation_times();
    assert_eq!(
        (times.total_grid_evaluate, times.total_storage_apply, times.total_storage_optimize),
        (0, 0, 0)
    );
    automaton.set_state(0, 0, GameOfLifeState::Live);
    automaton.set_state(1, 0, GameOfLifeState::Live);
    automaton.set_state(2, 0, GameOfLifeState::Live);
    let mut before = (0, 0, 0);
    for _ in 0..3 {
        automaton.evaluate_next();
        let times = automaton.operation_times();
        let now = (times.total_grid_evaluate, times.total_storage_apply, times.total_storage_optimize);
        assert!(now.0 >= before.0 && now.1 >= before.1 && now.2 >= before.2);
        before = now;
    }
}
