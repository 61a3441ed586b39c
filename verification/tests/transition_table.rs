use transition_table::transition_table::{
    ParseSerializeError, TransitionTable, TransitionTableRow, TransitionTableTransition,
};

/// The provided transition table
const PROVIDED_TRANSITION_TABLE: &str = "- 0 1 E E E E\n- 1 E 2 E E E\n- 2 2 3 2 2 2\n- 3 4 3 2 2 2\n+ 4 E E E E E";

#[test]
fn transition_table_parse() -> Result<(), ParseSerializeError> {
    let table = TransitionTable::parse(PROVIDED_TRANSITION_TABLE)?;

    assert_eq!(table.rows.len(), 5);

    assert_eq!(table.rows[0].accepting, false);
    assert_eq!(table.rows[0].id, 0);
    assert_eq!(table.rows[0].transitions.len(), 5);
    assert_eq!(
        table.rows[0].transitions[0],
        TransitionTableTransition::Goto(1)
    );
    assert_eq!(
        table.rows[0].transitions[1],
        TransitionTableTransition::ErrorTransition
    );
    assert_eq!(
        table.rows[0].transitions[2],
        TransitionTableTransition::ErrorTransition
    );
    assert_eq!(
        table.rows[0].transitions[3],
        TransitionTableTransition::ErrorTransition
    );
    assert_eq!(
        table.rows[0].transitions[4],
        TransitionTableTransition::ErrorTransition
    );

    assert_eq!(table.rows[1].accepting, false);
    assert_eq!(table.rows[1].id, 1);
    assert_eq!(table.rows[1].transitions.len(), 5);
    assert_eq!(
        table.rows[1].transitions[0],
        TransitionTableTransition::ErrorTransition
    );
    assert_eq!(
        table.rows[1].transitions[1],
        TransitionTableTransition::Goto(2)
    );
    assert_eq!(
        table.rows[1].transitions[2],
        TransitionTableTransition::ErrorTransition
    );
    assert_eq!(
        table.rows[1].transitions[3],
        TransitionTableTransition::ErrorTransition
    );
    assert_eq!(
        table.rows[1].transitions[4],
        TransitionTableTransition::ErrorTransition
    );

    assert_eq!(table.rows[2].accepting, false);
    assert_eq!(table.rows[2].id, 2);
    assert_eq!(table.rows[2].transitions.len(), 5);
    assert_eq!(
        table.rows[2].transitions[0],
        TransitionTableTransition::Goto(2)
    );
    assert_eq!(
        table.rows[2].transitions[1],
        TransitionTableTransition::Goto(3)
    );
    assert_eq!(
        table.rows[2].transitions[2],
        TransitionTableTransition::Goto(2)
    );
    assert_eq!(
        table.rows[2].transitions[3],
        TransitionTableTransition::Goto(2)
    );
    assert_eq!(
        table.rows[2].transitions[4],
        TransitionTableTransition::Goto(2)
    );

    assert_eq!(table.rows[3].accepting, false);
    assert_eq!(table.rows[3].id, 3);
    assert_eq!(table.rows[3].transitions.len(), 5);
    assert_eq!(
        table.rows[3].transitions[0],
        TransitionTableTransition::Goto(4)
    );
    assert_eq!(
        table.rows[3].transitions[1],
        TransitionTableTransition::Goto(3)
    );
    assert_eq!(
        table.rows[3].transitions[2],
        TransitionTableTransition::Goto(2)
    );
    assert_eq!(
        table.rows[3].transitions[3],
        TransitionTableTransition::Goto(2)
    );
    assert_eq!(
        table.rows[3].transitions[4],
        TransitionTableTransition::Goto(2)
    );

    assert_eq!(table.rows[4].accepting, true);
    assert_eq!(table.rows[4].id, 4);
    assert_eq!(table.rows[4].transitions.len(), 5);
    assert_eq!(
        table.rows[4].transitions[0],
        TransitionTableTransition::ErrorTransition
    );
    assert_eq!(
        table.rows[4].transitions[1],
        TransitionTableTransition::ErrorTransition
    );
    assert_eq!(
        table.rows[4].transitions[2],
        TransitionTableTransition::ErrorTransition
    );
    assert_eq!(
        table.rows[4].transitions[3],
        TransitionTableTransition::ErrorTransition
    );
    assert_eq!(
        table.rows[4].transitions[4],
        TransitionTableTransition::ErrorTransition
    );

    Ok(())
}

#[test]
fn transition_table_serialize() -> Result<(), ParseSerializeError> {
    let input = TransitionTable {
        rows: vec![
            TransitionTableRow {
                accepting: false,
                id: 0,
                transitions: vec![
                    TransitionTableTransition::Goto(1),
                    TransitionTableTransition::ErrorTransition,
                    TransitionTableTransition::ErrorTransition,
                    TransitionTableTransition::ErrorTransition,
                    TransitionTableTransition::ErrorTransition,
                ],
            },
            TransitionTableRow {
                accepting: false,
                id: 1,
                transitions: vec![
                    TransitionTableTransition::ErrorTransition,
                    TransitionTableTransition::Goto(2),
                    TransitionTableTransition::ErrorTransition,
                    TransitionTableTransition::ErrorTransition,
                    TransitionTableTransition::ErrorTransition,
                ],
            },
            TransitionTableRow {
                accepting: false,
                id: 2,
                transitions: vec![
                    TransitionTableTransition::Goto(2),
                    TransitionTableTransition::Goto(3),
                    TransitionTableTransition::Goto(2),
                    TransitionTableTransition::Goto(2),
                    TransitionTableTransition::Goto(2),
                ],
            },
            TransitionTableRow {
                accepting: false,
                id: 3,
                transitions: vec![
                    TransitionTableTransition::Goto(4),
                    TransitionTableTransition::Goto(3),
                    TransitionTableTransition::Goto(2),
                    TransitionTableTransition::Goto(2),
                    TransitionTableTransition::Goto(2),
                ],
            },
            TransitionTableRow {
                accepting: true,
                id: 4,
                transitions: vec![
                    TransitionTableTransition::ErrorTransition,
                    TransitionTableTransition::ErrorTransition,
                    TransitionTableTransition::ErrorTransition,
                    TransitionTableTransition::ErrorTransition,
                    TransitionTableTransition::ErrorTransition,
                ],
            },
        ],
    };

    let output = input.serialize()?;

    assert_eq!(output, PROVIDED_TRANSITION_TABLE);

    Ok(())
}
