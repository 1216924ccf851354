use std::collections::BTreeSet;

use vnstudio::cell::{Cell, CellStateVisuals, LIVE_GLYPH_SVG};
use vnstudio::game_of_life::GameOfLifeState;
use vnstudio::golly::parse_jvn29_rle;
use vnstudio::studio::{
    breakpoint_state_changed, is_vns_extension, pattern_for_app_from_golly, pattern_for_app_from_vns,
    ActiveAutomaton, SimulationSpeed,
};
use vnstudio::vns::{LoadedVnsPattern, PatternCells, Stage};
use vnstudio::von_neumann::VonNeumannState;

#[test]
fn fixed_speed_buttons_step_by_two_within_bounds() {
    assert_eq!(SimulationSpeed::Fixed(4).double(), SimulationSpeed::Fixed(8));
    assert_eq!(SimulationSpeed::Fixed(8).halve(), SimulationSpeed::Fixed(4));
    assert_eq!(SimulationSpeed::Fixed(4).halve(), SimulationSpeed::Fixed(2));
    assert_eq!(SimulationSpeed::Fixed(2).halve(), SimulationSpeed::Fixed(1));
    assert_eq!(SimulationSpeed::Fixed(64).double(), SimulationSpeed::Fixed(128));
    assert_eq!(SimulationSpeed::Fixed(1).halve(), SimulationSpeed::Fixed(1));
    assert_eq!(SimulationSpeed::Realtime.double(), SimulationSpeed::Realtime);
}

#[test]
fn default_state_has_no_visual() {
    let state = GameOfLifeState::default();
    assert_eq!(state.glyph_svg(), None);
    assert_eq!(state.pixel_color(), None);
}

#[test]
fn live_states_have_a_glyph_and_a_color() {
    assert_eq!(GameOfLifeState::Live.glyph_svg(), Some(LIVE_GLYPH_SVG));
    assert_eq!(GameOfLifeState::Live.pixel_color(), Some([32, 33, 36]));
    assert_eq!(VonNeumannState::default().glyph_svg(), None);
    assert_eq!(VonNeumannState::Confluent11.glyph_svg(), Some(LIVE_GLYPH_SVG));
    assert_eq!(VonNeumannState::Sensitized.pixel_color(), Some([32, 33, 36]));
}

#[test]
fn breakpoint_state_changes_when_state_differs() {
    assert!(!breakpoint_state_changed(GameOfLifeState::Dead, GameOfLifeState::Dead));
    assert!(breakpoint_state_changed(GameOfLifeState::Dead, GameOfLifeState::Live));
}

#[test]
fn doubling_saturates_and_halving_of_realtime_stays() {
    assert_eq!(SimulationSpeed::Fixed(u32::MAX).double(), SimulationSpeed::Fixed(u32::MAX));
    assert_eq!(SimulationSpeed::Fixed(3_000_000_000).double(), SimulationSpeed::Fixed(u32::MAX));
    assert_eq!(SimulationSpeed::Realtime.halve(), SimulationSpeed::Realtime);
    assert_eq!(SimulationSpeed::Fixed(0).halve(), SimulationSpeed::Fixed(1));
}

#[test]
fn speed_labels() {
    assert_eq!(SimulationSpeed::Fixed(4).label(), "4x");
    assert_eq!(SimulationSpeed::Fixed(16).label(), "16x");
    assert_eq!(SimulationSpeed::Fixed(64).label(), "64x");
    assert_eq!(SimulationSpeed::Fixed(8).label(), "Custom");
    assert_eq!(SimulationSpeed::Realtime.label(), "Realtime");
}

#[test]
fn vns_extension_ignores_case() {
    assert!(is_vns_extension("vns"));
    assert!(is_vns_extension("VnS"));
    assert!(!is_vns_extension("rle"));
    assert!(!is_vns_extension("vnsx"));
}

#[test]
fn automata_hold_the_cells_they_are_made_from() {
    let cells = PatternCells::GameOfLife(vec![
        Cell { x: 1, y: 1, state: GameOfLifeState::Live },
        Cell { x: 1, y: 1, state: GameOfLifeState::Dead },
        Cell { x: 2, y: 1, state: GameOfLifeState::Live },
    ]);
    let automaton = ActiveAutomaton::from_pattern_cells(cells);
    assert_eq!(automaton.name(), "Game of Life");
    assert_eq!(automaton.get_state_display(1, 1), "_");
    assert_eq!(automaton.get_state_display(2, 1), "O");

    let jvn = ActiveAutomaton::new_jvn29();
    assert_eq!(jvn.name(), "JvN29");
    assert_eq!(jvn.chunk_count(), 0);
    assert_eq!(jvn.get_state_display(0, 0), "__");
}

#[test]
fn blinker_evaluates_and_breakpoints_report_the_change() {
    let cells = PatternCells::GameOfLife(vec![
        Cell { x: 0, y: -1, state: GameOfLifeState::Live },
        Cell { x: 0, y: 0, state: GameOfLifeState::Live },
        Cell { x: 0, y: 1, state: GameOfLifeState::Live },
    ]);
    let mut automaton = ActiveAutomaton::from_pattern_cells(cells);
    let breakpoints = BTreeSet::from([(1, 0), (0, 0), (0, 1)]);
    let before = automaton.breakpoint_states(&breakpoints);
    assert_eq!(
        before,
        vec![((0, 0), "O".to_string()), ((0, 1), "O".to_string()), ((1, 0), "_".to_string())]
    );
    assert_eq!(automaton.first_changed_breakpoint(&before, 0), None);

    automaton.evaluate_next();

    let hit = automaton.first_changed_breakpoint(&before, 1).unwrap();
    assert_eq!((hit.x, hit.y), (0, 1));
    assert_eq!(hit.old_state, "O");
    assert_eq!(hit.new_state, "_");
    assert_eq!(hit.generation, 1);

    match automaton.to_pattern_cells() {
        PatternCells::GameOfLife(mut cells) => {
            cells.sort_by_key(|cell| (cell.y, cell.x));
            assert_eq!(
                cells,
                vec![
                    Cell { x: -1, y: 0, state: GameOfLifeState::Live },
                    Cell { x: 0, y: 0, state: GameOfLifeState::Live },
                    Cell { x: 1, y: 0, state: GameOfLifeState::Live },
                ]
            );
        }
        PatternCells::JvN29(_) => panic!("expected Game of Life cells"),
    }
}

#[test]
fn loaded_patterns_keep_their_baseline() {
    let pattern = parse_jvn29_rle("#CXRLE Pos=3,4\nx = 2, y = 1, rule = JvN29\nAB!").unwrap();
    let loaded = pattern_for_app_from_golly(pattern);
    assert_eq!(
        loaded.baseline_cells,
        PatternCells::JvN29(vec![
            Cell { x: 3, y: 4, state: VonNeumannState::Sensitized },
            Cell { x: 4, y: 4, state: VonNeumannState::Sensitized0 },
        ])
    );
    assert!(loaded.breakpoints.is_empty());
    assert!(loaded.stages.is_empty());
    assert_eq!(loaded.automaton.get_state_display(4, 4), "S0");

    let cells = PatternCells::GameOfLife(vec![Cell { x: 0, y: 0, state: GameOfLifeState::Live }]);
    let vns = LoadedVnsPattern {
        cells: cells.clone(),
        breakpoints: BTreeSet::from([(0, 0)]),
        stages: vec![Stage { name: "Start".to_string(), iteration: 0 }],
        overlays: Vec::new(),
    };
    let loaded = pattern_for_app_from_vns(vns);
    assert_eq!(loaded.baseline_cells, cells);
    assert_eq!(loaded.breakpoints, BTreeSet::from([(0, 0)]));
    assert_eq!(loaded.stages.len(), 1);
    assert_eq!(loaded.automaton.get_state_display(0, 0), "O");
}

#[test]
fn cells_taken_from_an_automaton_rebuild_it() {
    let cells = PatternCells::JvN29(vec![
        Cell { x: -65, y: 3, state: VonNeumannState::Confluent10 },
        Cell { x: 0, y: 0, state: VonNeumannState::TransmissionExcitedDown },
        Cell { x: 0, y: 0, state: VonNeumannState::SpecialTransmissionQuiescentUp },
        Cell { x: 130, y: -2, state: VonNeumannState::Sensitized11 },
    ]);
    let mut automaton = ActiveAutomaton::from_pattern_cells(cells);
    let taken = automaton.to_pattern_cells();
    let rebuilt = ActiveAutomaton::from_pattern_cells(taken);
    for (x, y) in [(-65, 3), (0, 0), (130, -2), (1, 1), (-64, 3)] {
        assert_eq!(rebuilt.get_state_display(x, y), automaton.get_state_display(x, y));
    }
    assert_eq!(rebuilt.get_state_display(0, 0), automaton.get_state_display(0, 0));
    match rebuilt {
        ActiveAutomaton::JvN29(a) => assert_eq!(a.get_state(0, 0), VonNeumannState::SpecialTransmissionQuiescentUp),
        ActiveAutomaton::GameOfLife(_) => panic!("expected a JvN29 automaton"),
    }
    assert!(automaton.chunks_inside());
}

#[test]
fn halving_undoes_doubling() {
    for m in [1u32, 7, 64, u32::MAX / 2] {
        assert_eq!(SimulationSpeed::Fixed(m).double().halve(), SimulationSpeed::Fixed(m));
    }
    for m in [2u32, 10, 128] {
        assert_eq!(SimulationSpeed::Fixed(m).halve().double(), SimulationSpeed::Fixed(m));
    }
    assert_eq!(SimulationSpeed::Realtime.double().halve(), SimulationSpeed::Realtime);
    assert_eq!(SimulationSpeed::Fixed(u32::MAX).double().halve(), SimulationSpeed::Fixed(u32::MAX / 2));
}
