use vnstudio::golly::{map_golly_state, parse_jvn29_rle, GollyLoadError};
use vnstudio::von_neumann::{VonNeumann, VonNeumannState};

fn parse_message(input: &str) -> (usize, String) {
    match parse_jvn29_rle(input) {
        Err(GollyLoadError::Parse { line, message }) => (line, message),
        Err(GollyLoadError::Io(error)) => panic!("unexpected reading error {error}"),
        Ok(pattern) => panic!("unexpected pattern {pattern:?}"),
    }
}

#[test]
fn parses_all_jvn29_states() {
    let pattern =
        parse_jvn29_rle("x = 28, y = 1, rule = JvN29\nABCDEFGHIJKLMNOPQRSTUVWXpApBpCpD!").unwrap();

    assert_eq!(pattern.cells.len(), 28);
    for (index, cell) in pattern.cells.iter().enumerate() {
        assert_eq!(cell.state, map_golly_state(index as u8 + 1).unwrap());
        assert_eq!((cell.x, cell.y), (index as isize, 0));
    }
}

#[test]
fn parses_runs_rows_and_xrle_metadata() {
    let pattern = parse_jvn29_rle(
        "#CXRLE Pos=-5,7 Gen=3480106827776\n\
         # test comment\n\
         x = 5, y = 3, rule = JvN-29\n\
         2A2. B$2$3pD!",
    )
    .unwrap();

    assert_eq!(pattern.declared_size, (5, 3));
    assert_eq!(pattern.origin, (-5, 7));
    assert_eq!(pattern.generation.as_deref(), Some("3480106827776"));
    assert_eq!(pattern.comments, vec!["# test comment"]);
    assert_eq!(
        pattern
            .cells
            .iter()
            .map(|cell| (cell.x, cell.y, cell.state))
            .collect::<Vec<_>>(),
        vec![
            (-5, 7, VonNeumannState::Sensitized),
            (-4, 7, VonNeumannState::Sensitized),
            (-1, 7, VonNeumannState::Sensitized0),
            (-5, 10, VonNeumannState::Confluent11),
            (-4, 10, VonNeumannState::Confluent11),
            (-3, 10, VonNeumannState::Confluent11),
        ]
    );
}

#[test]
fn accepts_legacy_rule_declaration() {
    let pattern = parse_jvn29_rle("#r jVn29\nx = 1, y = 1\nA").unwrap();
    assert_eq!(pattern.cells.len(), 1);
}

#[test]
fn rejects_other_rules_and_out_of_range_states() {
    assert!(parse_jvn29_rle("x = 1, y = 1, rule = B3/S23\nA!").is_err());
    assert!(parse_jvn29_rle("x = 1, y = 1, rule = Nobili32\nA!").is_err());
    assert!(parse_jvn29_rle("x = 1, y = 1, rule = JvN29:T10,10\nA!").is_err());
    assert!(parse_jvn29_rle("x = 1, y = 1, rule = JvN29\npE!").is_err());
}

#[test]
fn applies_pattern_to_automaton() {
    let pattern = parse_jvn29_rle("#CXRLE Pos=-2,3\nx = 1, y = 1, rule = JvN29\nA!").unwrap();
    let mut automaton = VonNeumann::new();

    pattern.apply_to(&mut automaton);

    assert_eq!(automaton.get_state(-2, 3), VonNeumannState::Sensitized);
}

#[test]
fn parses_real_golly_jvn29_fragment() {
    let pattern = parse_jvn29_rle(
        "x = 60, y = 2, rule = JvN29\n\
         5.2pA.pA.pA3.pA.2pA2.pA3.3pA4.2pA2.2pA2.pA2.pA.pA2.pA.3pA.3pA.2pA$\n\
         4.pA3.pA.2pA.2pA.pA.pA.pA3.pA5.pA3.pA2.pA.pA2.pA.2pA.pA2.pA2.pA3.pA.pA!",
    )
    .unwrap();

    assert_eq!(pattern.cells.len(), 49);
    assert!(pattern
        .cells
        .iter()
        .all(|cell| cell.state == VonNeumannState::Confluent00));
}

#[test]
fn golly_numbering_round_trips() {
    for code in 0u8..=28 {
        let state = map_golly_state(code).unwrap();
        assert_eq!(vnstudio::golly::golly_code(state), code);
    }
    assert_eq!(map_golly_state(29), None);
    assert_eq!(map_golly_state(255), None);
}

#[test]
fn applied_pattern_leaves_other_cells_in_ground_state() {
    let pattern = parse_jvn29_rle("x = 1, y = 1, rule = JvN29\nA$$pA!").unwrap();
    let mut automaton = VonNeumann::new();
    pattern.apply_to(&mut automaton);
    assert_eq!(automaton.get_state(0, 0), VonNeumannState::Sensitized);
    assert_eq!(automaton.get_state(0, 2), VonNeumannState::Confluent00);
    assert_eq!(automaton.get_state(0, 1), VonNeumannState::Ground);
}

#[test]
fn blank_lines_and_carriage_returns_are_skipped() {
    let pattern = parse_jvn29_rle("\r\n  \nx = 2, y = 1, rule = JvN29\r\n\r\nA\r\nB!\r\n").unwrap();
    assert_eq!(pattern.declared_size, (2, 1));
    assert_eq!(
        pattern
            .cells
            .iter()
            .map(|cell| (cell.x, cell.y, cell.state))
            .collect::<Vec<_>>(),
        vec![
            (0, 0, VonNeumannState::Sensitized),
            (1, 0, VonNeumannState::Sensitized0)
        ]
    );
}

#[test]
fn data_errors_name_the_first_data_line() {
    assert_eq!(
        parse_message("#C one\nx = 1, y = 1, rule = JvN29\n\nA\nZ!"),
        (4, "invalid RLE token 'Z'".to_string())
    );
}

#[test]
fn reports_each_parse_error() {
    assert_eq!(
        parse_message("A!"),
        (1, "missing RLE x/y header".to_string())
    );
    assert_eq!(
        parse_message("x = 1, y = 1\nA!"),
        (1, "missing JvN29 rule declaration".to_string())
    );
    assert_eq!(
        parse_message("#r JvN29:T10,10\nx = 1, y = 1\nA!"),
        (1, "bounded JvN29 rules are not supported".to_string())
    );
    assert_eq!(
        parse_message("x = 1, y = 1, rule = B3/S23\nA!"),
        (1, "unsupported rule \"B3/S23\"; expected JvN29".to_string())
    );
    assert_eq!(
        parse_message("#r JvN29\nx = 1, y = 1, rule = jvn-29\nA!"),
        (2, "conflicting rule declarations".to_string())
    );
    assert_eq!(
        parse_message("x = 1, y\nA!"),
        (1, "malformed header field".to_string())
    );
    assert_eq!(
        parse_message("x = a, y = 1, rule = JvN29\nA!"),
        (1, "invalid width".to_string())
    );
    assert_eq!(
        parse_message("x = 1, y = -1, rule = JvN29\nA!"),
        (1, "invalid height".to_string())
    );
    assert_eq!(
        parse_message("x = 1, y = 1, z = 2, rule = JvN29\nA!"),
        (1, "unsupported header field \"z\"".to_string())
    );
    assert_eq!(
        parse_message("x = 1, rule = JvN29\nA!"),
        (1, "missing y dimension".to_string())
    );
    assert_eq!(
        parse_message("#CXRLE Pos\nx = 1, y = 1, rule = JvN29\nA!"),
        (1, "malformed CXRLE field".to_string())
    );
    assert_eq!(
        parse_message("#CXRLE Pos=3\nx = 1, y = 1, rule = JvN29\nA!"),
        (1, "malformed CXRLE Pos".to_string())
    );
    assert_eq!(
        parse_message("#CXRLE Pos=x,3\nx = 1, y = 1, rule = JvN29\nA!"),
        (1, "invalid CXRLE x position".to_string())
    );
    assert_eq!(
        parse_message("#CXRLE Pos=3,y\nx = 1, y = 1, rule = JvN29\nA!"),
        (1, "invalid CXRLE y position".to_string())
    );
    assert_eq!(
        parse_message("#CXRLE Gen=12a\nx = 1, y = 1, rule = JvN29\nA!"),
        (1, "invalid CXRLE generation".to_string())
    );
}

#[test]
fn reports_each_data_error() {
    let header = "x = 1, y = 1, rule = JvN29\n";
    let cases = [
        ("2 A!", "whitespace is not allowed after a run count"),
        ("0A!", "run counts cannot have a leading zero"),
        ("99999999999999999999999A!", "run count overflow"),
        ("2!", "the ! terminator cannot have a run count"),
        ("pE!", "JvN29 only permits pA through pD"),
        ("Ap", "incomplete p-state token"),
        ("A3", "run count is missing a value"),
        ("A!B", "unexpected data after ! terminator"),
        ("Aé!", "invalid RLE token 'Ã'"),
    ];
    for (data, message) in cases {
        let input = format!("{header}{data}");
        assert_eq!(parse_message(&input), (2, message.to_string()), "{data}");
    }
}

#[test]
fn coordinates_that_leave_isize_are_errors() {
    assert_eq!(
        parse_message("#CXRLE Pos=9223372036854775807,0\nx = 2, y = 1, rule = JvN29\n2A!"),
        (3, "x coordinate overflow".to_string())
    );
    assert_eq!(
        parse_message("#CXRLE Pos=0,9223372036854775807\nx = 1, y = 2, rule = JvN29\n$A!"),
        (3, "y coordinate overflow".to_string())
    );
}

#[test]
fn parse_errors_render_their_line() {
    let error = parse_jvn29_rle("A!").unwrap_err();
    assert_eq!(error.to_string(), "line 1: missing RLE x/y header");
}

#[test]
fn reading_errors_render_as_the_underlying_error() {
    let error = GollyLoadError::Io(std::io::Error::new(std::io::ErrorKind::NotFound, "no such pattern"));
    assert_eq!(error.to_string(), "no such pattern");
}

#[test]
fn parsed_cells_come_in_reading_order_from_the_origin() {
    let pattern = parse_jvn29_rle(
        "#CXRLE Pos=-3,4\n\
         x = 6, y = 4, rule = JvN29\n\
         b2A.o$$3bpC2X$C!",
    )
    .unwrap();

    assert_eq!(pattern.cells.len(), 7);
    for pair in pattern.cells.windows(2) {
        let (a, b) = (&pair[0], &pair[1]);
        assert!(a.y < b.y || (a.y == b.y && a.x < b.x));
    }
    for cell in &pattern.cells {
        assert_ne!(cell.state, VonNeumannState::Ground);
        assert!(cell.x >= -3 && cell.y >= 4);
    }
}
