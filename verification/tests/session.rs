use std::collections::BTreeSet;

use vnstudio::cell::Cell;
use vnstudio::evaluator::BasicEvaluator;
use vnstudio::game_of_life::GameOfLifeState;
use vnstudio::session::{
    new_stage, run_steps, stage_order, step_simulation, toggle_breakpoint, window_title, RunStop, StepOutcome,
};
use vnstudio::studio::{ActiveAutomaton, BreakpointHit};
use vnstudio::vns::{PatternCells, Stage};

fn blinker() -> ActiveAutomaton {
    ActiveAutomaton::from_pattern_cells(PatternCells::GameOfLife(vec![
        Cell { x: 0, y: -1, state: GameOfLifeState::Live },
        Cell { x: 0, y: 0, state: GameOfLifeState::Live },
        Cell { x: 0, y: 1, state: GameOfLifeState::Live },
    ]))
}

fn stage(name: &str, iteration: u64) -> Stage {
    Stage { name: name.to_string(), iteration }
}

#[test]
fn a_step_reports_the_first_breakpoint_that_changed() {
    let mut automaton = blinker();
    let mut grid_evaluator = BasicEvaluator;
    let breakpoints = BTreeSet::from([(1, 0), (0, 1), (0, 0)]);

    let outcome = step_simulation(&mut automaton, &mut grid_evaluator, &breakpoints, 7, true);
    let StepOutcome::Stepped { generation, hit: Some(hit) } = outcome else {
        panic!("expected a breakpoint hit, got {outcome:?}");
    };
    assert_eq!(generation, 8);
    assert_eq!((hit.x, hit.y), (0, 1));
    assert_eq!(hit.old_state, "O");
    assert_eq!(hit.new_state, "_");
    assert_eq!(hit.generation, 8);
    assert_eq!(automaton.get_state_display(1, 0), "O");
}

#[test]
fn unchecked_steps_report_nothing_and_generations_wrap() {
    let mut automaton = blinker();
    let mut grid_evaluator = BasicEvaluator;
    let breakpoints = BTreeSet::from([(0, 1)]);

    let outcome = step_simulation(&mut automaton, &mut grid_evaluator, &breakpoints, u64::MAX, false);
    assert_eq!(outcome, StepOutcome::Stepped { generation: 0, hit: None });

    let quiet = BTreeSet::from([(0, 0)]);
    let outcome = step_simulation(&mut automaton, &mut grid_evaluator, &quiet, 0, true);
    assert_eq!(outcome, StepOutcome::Stepped { generation: 1, hit: None });
}

#[test]
fn patterns_at_the_edge_are_not_stepped() {
    let mut automaton = ActiveAutomaton::from_pattern_cells(PatternCells::GameOfLife(vec![Cell {
        x: isize::MAX,
        y: 0,
        state: GameOfLifeState::Live,
    }]));
    let mut grid_evaluator = BasicEvaluator;
    let outcome = step_simulation(&mut automaton, &mut grid_evaluator, &BTreeSet::new(), 3, true);
    assert_eq!(outcome, StepOutcome::AtEdge);
    assert_eq!(automaton.get_state_display(isize::MAX, 0), "O");

    let progress = run_steps(&mut automaton, &mut grid_evaluator, &BTreeSet::new(), 3, Some(10), 5, true);
    assert_eq!(progress.stop, RunStop::AtEdge);
    assert_eq!((progress.generation, progress.steps), (3, 0));
}

#[test]
fn runs_stop_at_the_target_or_after_the_steps_allowed() {
    let mut automaton = blinker();
    let mut grid_evaluator = BasicEvaluator;
    let breakpoints = BTreeSet::new();

    let progress = run_steps(&mut automaton, &mut grid_evaluator, &breakpoints, 2, Some(5), 100, true);
    assert_eq!(progress.stop, RunStop::Reached);
    assert_eq!((progress.generation, progress.steps), (5, 3));
    assert_eq!(automaton.get_state_display(1, 0), "O");

    let progress = run_steps(&mut automaton, &mut grid_evaluator, &breakpoints, 5, Some(5), 100, true);
    assert_eq!(progress.stop, RunStop::Reached);
    assert_eq!((progress.generation, progress.steps), (5, 0));

    let progress = run_steps(&mut automaton, &mut grid_evaluator, &breakpoints, 5, None, 4, true);
    assert_eq!(progress.stop, RunStop::Running);
    assert_eq!((progress.generation, progress.steps), (9, 4));
    assert_eq!(automaton.get_state_display(0, 1), "_");
}

#[test]
fn runs_pause_where_a_breakpoint_changes_unless_told_to_skip() {
    let mut automaton = blinker();
    let mut grid_evaluator = BasicEvaluator;
    let breakpoints = BTreeSet::from([(-1, 0)]);

    let progress = run_steps(&mut automaton, &mut grid_evaluator, &breakpoints, 0, Some(10), 100, true);
    assert_eq!(progress.steps, 1);
    assert_eq!(progress.generation, 1);
    assert_eq!(
        progress.stop,
        RunStop::Breakpoint(BreakpointHit {
            x: -1,
            y: 0,
            old_state: "_".to_string(),
            new_state: "O".to_string(),
            generation: 1,
        })
    );

    let progress = run_steps(&mut automaton, &mut grid_evaluator, &breakpoints, 1, Some(10), 100, false);
    assert_eq!(progress.stop, RunStop::Reached);
    assert_eq!((progress.generation, progress.steps), (10, 9));
    assert_eq!(automaton.get_state_display(-1, 0), "_");
}

#[test]
fn stages_are_listed_by_iteration_then_name() {
    let stages = vec![stage("b", 2), stage("Alpha", 1), stage("alpha", 1), stage("Beta", 1), stage("a", 0)];
    assert_eq!(stage_order(&stages), vec![4, 1, 2, 3, 0]);
    assert_eq!(stage_order(&[]), Vec::<usize>::new());
    let named = vec![stage("ab", 3), stage("a", 3), stage("B", 3), stage("é", 3)];
    assert_eq!(stage_order(&named), vec![1, 0, 2, 3]);
}

#[test]
fn stage_names_are_trimmed_and_must_not_be_empty() {
    assert_eq!(new_stage("  Blinker \n", 12), Some(stage("Blinker", 12)));
    assert_eq!(new_stage("\u{3000}Glider gun\t", 0), Some(stage("Glider gun", 0)));
    assert_eq!(new_stage("   ", 4), None);
    assert_eq!(new_stage("", 4), None);
}

#[test]
fn breakpoints_toggle_and_forget_the_hit_they_clear() {
    let mut breakpoints = BTreeSet::new();
    let hit = BreakpointHit {
        x: 2,
        y: 3,
        old_state: "_".to_string(),
        new_state: "O".to_string(),
        generation: 9,
    };
    let mut last_hit = Some(hit.clone());

    toggle_breakpoint(&mut breakpoints, &mut last_hit, (2, 3));
    assert_eq!(breakpoints, BTreeSet::from([(2, 3)]));
    assert_eq!(last_hit, Some(hit.clone()));

    toggle_breakpoint(&mut breakpoints, &mut last_hit, (5, 5));
    toggle_breakpoint(&mut breakpoints, &mut last_hit, (5, 5));
    assert_eq!(last_hit, Some(hit));

    toggle_breakpoint(&mut breakpoints, &mut last_hit, (2, 3));
    assert!(breakpoints.is_empty());
    assert_eq!(last_hit, None);
}

#[test]
fn window_titles_show_speed_iteration_and_chunks() {
    assert_eq!(window_title(None, 0, 0), "VNStudio - UPS: N/A - Iteration: 0 - Chunks: 0");
    assert_eq!(window_title(Some(60), 1234, 9), "VNStudio - UPS: 60 - Iteration: 1234 - Chunks: 9");
}
