use std::collections::BTreeSet;

use vnstudio::cell::Cell;
use vnstudio::game_of_life::GameOfLifeState;
use vnstudio::vns::{
    build_vns_document, coordinates_are_axis_aligned, load_document, Coordinate, DirectedLine,
    DirectedLineOverlay, ExtraState, Overlay, PatternCells, PatternSize, RlePattern, Ruleset, Stage,
    VnsDocument, VnsError,
};
use vnstudio::studio::ActiveAutomaton;
use vnstudio::von_neumann::VonNeumannState;

fn document(ruleset: &str, version: u32, lines: &[&str], size: (usize, usize), extra: ExtraState) -> VnsDocument {
    VnsDocument {
        format: "vnstudio.pattern".to_string(),
        version,
        ruleset: ruleset.to_string(),
        pattern: RlePattern {
            encoding: "rle".to_string(),
            origin: Coordinate { x: 0, y: 0 },
            size: PatternSize { width: size.0, height: size.1 },
            lines: lines.iter().map(|line| line.to_string()).collect(),
        },
        extra,
    }
}

fn parse_message(result: Result<vnstudio::vns::LoadedVnsPattern, VnsError>) -> String {
    match result {
        Err(VnsError::Parse(message)) => message,
        Err(other) => panic!("unexpected error {other:?}"),
        Ok(loaded) => panic!("unexpected pattern {loaded:?}"),
    }
}

fn text_of(document: &VnsDocument) -> String {
    document.pattern.lines.concat()
}

#[test]
fn game_of_life_round_trips_rle_and_breakpoints() {
    let cells = vec![
        Cell { x: -1, y: 2, state: GameOfLifeState::Live },
        Cell { x: 0, y: 2, state: GameOfLifeState::Live },
        Cell { x: 1, y: 2, state: GameOfLifeState::Live },
    ];
    let breakpoints = BTreeSet::from([(0, 2)]);
    let stages = vec![Stage { name: "Blinker".to_string(), iteration: 1 }];
    let overlays = vec![Overlay::DirectedLines(DirectedLineOverlay {
        name: "Wires".to_string(),
        visible: true,
        lines: vec![DirectedLine {
            name: "Line 1".to_string(),
            visible: false,
            points: vec![
                Coordinate { x: -1, y: 2 },
                Coordinate { x: 2, y: 2 },
                Coordinate { x: 2, y: 4 },
            ],
        }],
    })];

    let built = build_vns_document(
        PatternCells::GameOfLife(cells.clone()),
        &breakpoints,
        stages.clone(),
        overlays.clone(),
    )
    .unwrap();
    assert_eq!(built.format, "vnstudio.pattern");
    assert_eq!(built.version, 1);
    assert_eq!(built.ruleset, "game_of_life");
    assert_eq!(built.pattern.encoding, "rle");
    assert_eq!(built.pattern.origin, Coordinate { x: -1, y: 2 });
    assert_eq!(built.pattern.size, PatternSize { width: 3, height: 1 });
    assert!(text_of(&built).contains("3o!"));
    assert_eq!(built.extra.breakpoints, vec![Coordinate { x: 0, y: 2 }]);
    assert_eq!(built.extra.stages, stages);
    assert!(matches!(built.extra.overlays.as_slice(), [Overlay::DirectedLines(_)]));

    let loaded = load_document(built).unwrap();
    assert_eq!(loaded.cells, PatternCells::GameOfLife(cells));
    assert_eq!(loaded.breakpoints, breakpoints);
    assert_eq!(loaded.stages, stages);
    assert_eq!(loaded.overlays, overlays);
}

#[test]
fn jvn29_round_trips_golly_style_tokens() {
    let cells = vec![
        Cell { x: 5, y: -3, state: VonNeumannState::Sensitized },
        Cell { x: 6, y: -3, state: VonNeumannState::Confluent11 },
    ];

    let built = build_vns_document(PatternCells::JvN29(cells.clone()), &BTreeSet::new(), Vec::new(), Vec::new())
        .unwrap();
    assert!(text_of(&built).contains("ApD!"));
    assert_eq!(built.ruleset, "jvn29");

    let loaded = load_document(built).unwrap();
    assert_eq!(loaded.cells, PatternCells::JvN29(cells));
}

#[test]
fn missing_extra_items_default_to_empty() {
    let extra = ExtraState { breakpoints: Vec::new(), ..ExtraState::default() };
    let loaded = load_document(document("game_of_life", 1, &["o!"], (1, 1), extra)).unwrap();

    assert!(loaded.stages.is_empty());
    assert!(loaded.overlays.is_empty());
    assert!(loaded.breakpoints.is_empty());
    assert_eq!(loaded.cells, PatternCells::GameOfLife(vec![Cell { x: 0, y: 0, state: GameOfLifeState::Live }]));
}

#[test]
fn empty_patterns_are_a_lone_terminator() {
    let built = build_vns_document(PatternCells::GameOfLife(Vec::new()), &BTreeSet::new(), Vec::new(), Vec::new())
        .unwrap();
    assert_eq!(built.pattern.lines, vec!["!".to_string()]);
    assert_eq!(built.pattern.size, PatternSize { width: 0, height: 0 });
    let loaded = load_document(built).unwrap();
    assert_eq!(loaded.cells, PatternCells::GameOfLife(Vec::new()));
}

#[test]
fn encoded_rows_group_runs_and_wrap_lines() {
    let mut cells = Vec::new();
    for x in 0..100 {
        if x % 3 != 0 {
            cells.push(Cell { x, y: 0, state: GameOfLifeState::Live });
        }
    }
    cells.push(Cell { x: 0, y: 3, state: GameOfLifeState::Live });
    let built = build_vns_document(PatternCells::GameOfLife(cells.clone()), &BTreeSet::new(), Vec::new(), Vec::new())
        .unwrap();
    let text = text_of(&built);
    assert!(text.starts_with("b2ob2ob2o"));
    assert!(text.ends_with("b2o$99b$99b$o98b!"));
    for line in &built.pattern.lines {
        assert!(line.len() <= 80);
        assert!(line.len() == 80 || line.ends_with('$') || line.ends_with('!'));
    }
    let loaded = load_document(built).unwrap();
    let mut expected = cells;
    expected.sort_by_key(|cell| (cell.y, cell.x));
    assert_eq!(loaded.cells, PatternCells::GameOfLife(expected));
}

#[test]
fn cells_are_written_in_row_order() {
    let cells = vec![
        Cell { x: 2, y: 1, state: VonNeumannState::TransmissionExcitedDown },
        Cell { x: 0, y: 0, state: VonNeumannState::Sensitized000 },
    ];
    let built = build_vns_document(PatternCells::JvN29(cells), &BTreeSet::new(), Vec::new(), Vec::new()).unwrap();
    assert_eq!(text_of(&built), "H2.$2.P!");
    let loaded = load_document(built).unwrap();
    assert_eq!(
        loaded.cells,
        PatternCells::JvN29(vec![
            Cell { x: 0, y: 0, state: VonNeumannState::Sensitized000 },
            Cell { x: 2, y: 1, state: VonNeumannState::TransmissionExcitedDown },
        ])
    );
}

#[test]
fn breakpoints_are_written_in_increasing_order() {
    let breakpoints = BTreeSet::from([(3, -1), (-2, 5), (-2, 4)]);
    let built = build_vns_document(PatternCells::GameOfLife(Vec::new()), &breakpoints, Vec::new(), Vec::new())
        .unwrap();
    assert_eq!(
        built.extra.breakpoints,
        vec![Coordinate { x: -2, y: 4 }, Coordinate { x: -2, y: 5 }, Coordinate { x: 3, y: -1 }]
    );
}

#[test]
fn rejects_non_orthogonal_directed_line_segments() {
    let extra = ExtraState {
        breakpoints: Vec::new(),
        stages: Vec::new(),
        overlays: vec![Overlay::DirectedLines(DirectedLineOverlay {
            name: "Bad".to_string(),
            visible: true,
            lines: vec![DirectedLine {
                name: "Diagonal".to_string(),
                visible: true,
                points: vec![Coordinate { x: 0, y: 0 }, Coordinate { x: 1, y: 1 }],
            }],
        })],
    };
    let input = document("game_of_life", 1, &["o!"], (1, 1), extra);

    assert!(load_document(input).is_err());
}

#[test]
fn rejects_unknown_ruleset() {
    let input = document("unknown", 1, &["!"], (0, 0), ExtraState::default());

    assert!(load_document(input).is_err());
}

#[test]
fn rejects_unsupported_version() {
    let input = document("game_of_life", 999, &["!"], (0, 0), ExtraState::default());

    assert!(load_document(input).is_err());
}

#[test]
fn rejects_malformed_game_of_life_rle() {
    let input = document("game_of_life", 1, &["A!"], (1, 1), ExtraState::default());

    assert!(load_document(input).is_err());
}

#[test]
fn reports_each_document_error() {
    let mut wrong_format = document("game_of_life", 1, &["!"], (0, 0), ExtraState::default());
    wrong_format.format = "other".to_string();
    assert_eq!(
        parse_message(load_document(wrong_format)),
        "unsupported format \"other\"; expected \"vnstudio.pattern\""
    );
    assert_eq!(
        parse_message(load_document(document("game_of_life", 999, &["!"], (0, 0), ExtraState::default()))),
        "unsupported .vns version 999; expected 1"
    );
    let mut wrong_encoding = document("game_of_life", 1, &["!"], (0, 0), ExtraState::default());
    wrong_encoding.pattern.encoding = "raw".to_string();
    assert_eq!(
        parse_message(load_document(wrong_encoding)),
        "unsupported pattern encoding \"raw\"; expected \"rle\""
    );
    assert_eq!(
        parse_message(load_document(document("unknown", 1, &["!"], (0, 0), ExtraState::default()))),
        "unsupported ruleset \"unknown\"; expected \"jvn29\" or \"game_of_life\""
    );
    assert_eq!(
        parse_message(load_document(document("game_of_life", 1, &["A!"], (1, 1), ExtraState::default()))),
        "invalid RLE token 'A'"
    );
    assert_eq!(
        parse_message(load_document(document("jvn29", 1, &["Z!"], (1, 1), ExtraState::default()))),
        "invalid JvN29 RLE: line 3: invalid RLE token 'Z'"
    );
}

#[test]
fn reports_each_directed_line_error() {
    let line = |points: Vec<Coordinate>| ExtraState {
        breakpoints: Vec::new(),
        stages: Vec::new(),
        overlays: vec![Overlay::DirectedLines(DirectedLineOverlay {
            name: "Group".to_string(),
            visible: true,
            lines: vec![DirectedLine { name: "Path".to_string(), visible: true, points }],
        })],
    };
    assert_eq!(
        parse_message(load_document(document("game_of_life", 1, &["!"], (0, 0), line(vec![Coordinate { x: 0, y: 0 }])))),
        "directed line \"Path\" must have at least two points"
    );
    assert_eq!(
        parse_message(load_document(document(
            "game_of_life",
            1,
            &["!"],
            (0, 0),
            line(vec![Coordinate { x: 0, y: 0 }, Coordinate { x: 0, y: 3 }, Coordinate { x: 1, y: 4 }])
        ))),
        "directed line \"Path\" contains a non-orthogonal segment"
    );
    assert_eq!(
        parse_message(load_document(document(
            "game_of_life",
            1,
            &["!"],
            (0, 0),
            line(vec![Coordinate { x: 0, y: 0 }, Coordinate { x: 0, y: 0 }])
        ))),
        "directed line \"Path\" contains a zero-length segment"
    );
    let result = build_vns_document(
        PatternCells::GameOfLife(Vec::new()),
        &BTreeSet::new(),
        Vec::new(),
        line(vec![Coordinate { x: 2, y: 2 }]).overlays,
    );
    assert!(matches!(result, Err(VnsError::Parse(message)) if message == "directed line \"Path\" must have at least two points"));
}

#[test]
fn game_of_life_data_errors() {
    let cases = [
        ("2 o!", "whitespace is not allowed after a run count"),
        ("0o!", "run counts cannot have a leading zero"),
        ("3!", "the ! terminator cannot have a run count"),
        ("o4", "run count is missing a value"),
        ("o!o", "unexpected data after ! terminator"),
        ("99999999999999999999999o!", "run count overflow"),
    ];
    for (data, message) in cases {
        let input = document("game_of_life", 1, &[data], (1, 1), ExtraState::default());
        assert_eq!(parse_message(load_document(input)), message, "{data}");
    }
}

#[test]
fn too_wide_patterns_cannot_be_written() {
    let cells = vec![
        Cell { x: isize::MIN, y: 0, state: GameOfLifeState::Live },
        Cell { x: 0, y: 0, state: GameOfLifeState::Live },
    ];
    let result = build_vns_document(PatternCells::GameOfLife(cells), &BTreeSet::new(), Vec::new(), Vec::new());
    assert!(matches!(result, Err(VnsError::Parse(message)) if message == "pattern width overflow"));
    let cells = vec![
        Cell { x: 0, y: isize::MAX, state: GameOfLifeState::Live },
        Cell { x: 0, y: -1, state: GameOfLifeState::Live },
    ];
    let result = build_vns_document(PatternCells::GameOfLife(cells), &BTreeSet::new(), Vec::new(), Vec::new());
    assert!(matches!(result, Err(VnsError::Parse(message)) if message == "pattern height overflow"));
}

#[test]
fn axis_alignment_and_ruleset_names() {
    assert!(coordinates_are_axis_aligned(Coordinate { x: 1, y: 5 }, Coordinate { x: 1, y: -5 }));
    assert!(coordinates_are_axis_aligned(Coordinate { x: 1, y: 5 }, Coordinate { x: 7, y: 5 }));
    assert!(!coordinates_are_axis_aligned(Coordinate { x: 1, y: 5 }, Coordinate { x: 2, y: 6 }));
    assert_eq!(Ruleset::JvN29.as_str(), "jvn29");
    assert_eq!(Ruleset::GameOfLife.as_str(), "game_of_life");
    assert_eq!(PatternCells::JvN29(Vec::new()).ruleset(), Ruleset::JvN29);
    assert_eq!(PatternCells::GameOfLife(Vec::new()).ruleset(), Ruleset::GameOfLife);
}

#[test]
fn errors_render_their_message() {
    assert_eq!(VnsError::Parse("bad pattern".to_string()).to_string(), "bad pattern");
    let json = serde_json::from_str::<u32>("not json").unwrap_err();
    let expected = json.to_string();
    assert_eq!(VnsError::Json(json).to_string(), expected);
    let io = std::io::Error::new(std::io::ErrorKind::Other, "disk full");
    assert_eq!(VnsError::Io(io).to_string(), "disk full");
}

#[test]
fn cells_in_any_order_come_back_in_row_order() {
    let cells = vec![
        Cell { x: 4, y: 1, state: GameOfLifeState::Live },
        Cell { x: -2, y: 1, state: GameOfLifeState::Live },
        Cell { x: 0, y: -3, state: GameOfLifeState::Dead },
        Cell { x: 7, y: -1, state: GameOfLifeState::Live },
    ];
    let built = build_vns_document(PatternCells::GameOfLife(cells), &BTreeSet::new(), Vec::new(), Vec::new())
        .unwrap();
    assert_eq!(built.pattern.origin, Coordinate { x: -2, y: -3 });
    let loaded = load_document(built).unwrap();
    assert_eq!(
        loaded.cells,
        PatternCells::GameOfLife(vec![
            Cell { x: 7, y: -1, state: GameOfLifeState::Live },
            Cell { x: -2, y: 1, state: GameOfLifeState::Live },
            Cell { x: 4, y: 1, state: GameOfLifeState::Live },
        ])
    );

    let jvn = vec![
        Cell { x: 3, y: 0, state: VonNeumannState::Confluent01 },
        Cell { x: 1, y: 0, state: VonNeumannState::Ground },
        Cell { x: 0, y: 0, state: VonNeumannState::TransmissionExcitedLeft },
    ];
    let built = build_vns_document(PatternCells::JvN29(jvn), &BTreeSet::new(), Vec::new(), Vec::new()).unwrap();
    let loaded = load_document(built).unwrap();
    assert_eq!(
        loaded.cells,
        PatternCells::JvN29(vec![
            Cell { x: 0, y: 0, state: VonNeumannState::TransmissionExcitedLeft },
            Cell { x: 3, y: 0, state: VonNeumannState::Confluent01 },
        ])
    );
}

#[test]
fn a_saved_automaton_loads_with_the_same_cells() {
    let mut automaton = ActiveAutomaton::from_pattern_cells(PatternCells::GameOfLife(vec![
        Cell { x: 70, y: 2, state: GameOfLifeState::Live },
        Cell { x: -1, y: -1, state: GameOfLifeState::Live },
        Cell { x: 0, y: 130, state: GameOfLifeState::Live },
    ]));
    let taken = automaton.to_pattern_cells();
    let built = build_vns_document(taken, &BTreeSet::from([(3, 3)]), Vec::new(), Vec::new()).unwrap();
    let loaded = load_document(built).unwrap();
    let reloaded = ActiveAutomaton::from_pattern_cells(loaded.cells);
    for (x, y) in [(70, 2), (-1, -1), (0, 130), (0, 0), (69, 2)] {
        assert_eq!(reloaded.get_state_display(x, y), automaton.get_state_display(x, y));
    }
    assert_eq!(loaded.breakpoints, BTreeSet::from([(3, 3)]));
}
