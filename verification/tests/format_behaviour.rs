use transition_table::transition_table::{
    TransitionTable, TransitionTableRow, TransitionTableTransition,
};

fn row(
    accepting: bool,
    id: usize,
    transitions: Vec<TransitionTableTransition>,
) -> TransitionTableRow {
    TransitionTableRow { accepting, id, transitions }
}

#[test]
fn empty_input_gives_empty_table() {
    let table = TransitionTable::parse("").unwrap();
    assert_eq!(table.rows.len(), 0);
}

#[test]
fn empty_table_serializes_to_empty_text() {
    let table = TransitionTable { rows: vec![] };
    assert_eq!(table.serialize().unwrap(), "");
}

#[test]
fn round_trip_of_sorted_text_is_identity() {
    let text = "- 0 1 E E E E\n- 1 E 2 E E E\n- 2 2 3 2 2 2\n- 3 4 3 2 2 2\n+ 4 E E E E E";
    let table = TransitionTable::parse(text).unwrap();
    assert_eq!(table.serialize().unwrap(), text);
}

#[test]
fn parse_sorts_rows_ascending_by_id() {
    let text = "+ 4 E\n- 2 3\n- 0 1\n- 3 4\n- 1 2";
    let table = TransitionTable::parse(text).unwrap();
    let ids: Vec<usize> = table.rows.iter().map(|r| r.id).collect();
    assert_eq!(ids, vec![0, 1, 2, 3, 4]);
    assert_eq!(table.serialize().unwrap(), "- 0 1\n- 1 2\n- 2 3\n- 3 4\n+ 4 E");
}

#[test]
fn any_permutation_parses_to_the_same_table() {
    let a = TransitionTable::parse("- 0 1\n- 1 2\n+ 2 E").unwrap();
    let b = TransitionTable::parse("+ 2 E\n- 0 1\n- 1 2").unwrap();
    let c = TransitionTable::parse("- 1 2\n+ 2 E\n- 0 1").unwrap();
    assert_eq!(a, b);
    assert_eq!(a, c);
}

#[test]
fn duplicate_ids_keep_their_input_order() {
    let table = TransitionTable::parse("+ 7 E\n- 3 1\n- 3 2\n- 3 3").unwrap();
    assert_eq!(table.rows.len(), 4);
    assert_eq!(table.rows[0].transitions[0], TransitionTableTransition::Goto(1));
    assert_eq!(table.rows[1].transitions[0], TransitionTableTransition::Goto(2));
    assert_eq!(table.rows[2].transitions[0], TransitionTableTransition::Goto(3));
    assert_eq!(table.rows[3].id, 7);
}

#[test]
fn serialize_keeps_the_caller_order() {
    let table = TransitionTable {
        rows: vec![
            row(true, 9, vec![TransitionTableTransition::ErrorTransition]),
            row(false, 1, vec![TransitionTableTransition::Goto(9)]),
        ],
    };
    assert_eq!(table.serialize().unwrap(), "+ 9 E\n- 1 9");
}

#[test]
fn serialize_then_parse_sorts_the_rows() {
    let table = TransitionTable {
        rows: vec![
            row(true, 9, vec![TransitionTableTransition::ErrorTransition]),
            row(false, 1, vec![TransitionTableTransition::Goto(9)]),
        ],
    };
    let text = table.serialize().unwrap();
    let reparsed = TransitionTable::parse(&text).unwrap();
    let expected = TransitionTable {
        rows: vec![
            row(false, 1, vec![TransitionTableTransition::Goto(9)]),
            row(true, 9, vec![TransitionTableTransition::ErrorTransition]),
        ],
    };
    assert_eq!(reparsed, expected);
}

#[test]
fn crlf_and_extra_whitespace_are_tolerated() {
    let table = TransitionTable::parse("-  0   1\r\n+\t1  E\r\n").unwrap();
    assert_eq!(table.rows.len(), 2);
    assert_eq!(table.rows[0].id, 0);
    assert_eq!(table.rows[0].transitions[0], TransitionTableTransition::Goto(1));
    assert_eq!(table.rows[1].accepting, true);
    assert_eq!(
        table.rows[1].transitions[0],
        TransitionTableTransition::ErrorTransition
    );
    assert_eq!(table.serialize().unwrap(), "- 0 1\n+ 1 E");
}

#[test]
fn a_signed_id_parses_but_serializes_canonically() {
    let table = TransitionTable::parse("- +5 E").unwrap();
    assert_eq!(table.rows[0].id, 5);
    assert_eq!(table.serialize().unwrap(), "- 5 E");
}

#[test]
fn too_few_columns_is_an_error() {
    let err = TransitionTable::parse("-").unwrap_err();
    assert_eq!(err.message, "Line 1 has too few columns");
}

#[test]
fn a_marker_and_id_alone_make_a_row_without_transitions() {
    let table = TransitionTable::parse("- 0").unwrap();
    assert_eq!(table.rows.len(), 1);
    assert_eq!(table.rows[0].transitions.len(), 0);
    assert_eq!(table.serialize().unwrap(), "- 0");
}

#[test]
fn an_empty_line_is_an_error() {
    let err = TransitionTable::parse("- 0 1\n\n- 1 E").unwrap_err();
    assert_eq!(err.message, "Line 2 has too few columns");
}

#[test]
fn inconsistent_column_counts_are_an_error() {
    let err = TransitionTable::parse("- 0 1 2\n- 1 2").unwrap_err();
    assert_eq!(
        err.message,
        "Line 2 has a different number of columns than the previous lines"
    );
}

#[test]
fn a_bad_marker_is_an_error() {
    let err = TransitionTable::parse("x 0 1").unwrap_err();
    assert_eq!(err.message, "Line 1 has an invalid accepting state");
}

#[test]
fn a_marker_with_trailing_characters_is_an_error() {
    let err = TransitionTable::parse("+x 0 1").unwrap_err();
    assert_eq!(err.message, "Line 1 has an invalid accepting state");
}

#[test]
fn a_non_numeric_id_is_an_error() {
    let err = TransitionTable::parse("- abc 1").unwrap_err();
    assert_eq!(
        err.message,
        "Line 1 has an invalid state ID: invalid digit found in string"
    );
}

#[test]
fn an_id_too_large_for_the_machine_is_an_error() {
    let err = TransitionTable::parse("- 99999999999999999999999 1").unwrap_err();
    assert_eq!(
        err.message,
        "Line 1 has an invalid state ID: number too large to fit in target type"
    );
}

#[test]
fn a_bad_transition_names_line_and_column() {
    let err = TransitionTable::parse("- 0 E\n- 1 E\n- 2 x").unwrap_err();
    assert_eq!(
        err.message,
        "Line 3 column 3 has an invalid transition: invalid digit found in string"
    );
}

#[test]
fn a_lowercase_sentinel_is_an_error() {
    let err = TransitionTable::parse("- 0 e").unwrap_err();
    assert_eq!(
        err.message,
        "Line 1 column 3 has an invalid transition: invalid digit found in string"
    );
}

#[test]
fn the_first_failing_column_is_reported() {
    let err = TransitionTable::parse("- 0 1 y z").unwrap_err();
    assert_eq!(
        err.message,
        "Line 1 column 4 has an invalid transition: invalid digit found in string"
    );
}

#[test]
fn malformed_inputs_return_errors_without_panicking() {
    let inputs = [
        "-",
        "+",
        "E",
        "0 0 0",
        "- 0 1\n+ 1",
        "- - -",
        "++ 0",
        "- 0 E E\n? 1 E E",
        "\n",
        " \t ",
        "- 0 18446744073709551616",
    ];
    for input in inputs {
        assert!(TransitionTable::parse(input).is_err());
    }
}
