use sqlmerge::error::RowConflict;
use sqlmerge::merge::{
    describe_conflict, extract_primary_key, handle_conflict, is_benign_duplicate_insert,
    is_convergent_delete, is_convergent_update, is_row_conflict, render_value, resolve_conflict, values_equal,
    Action, ConflictAction, ConflictItem, ConflictType, Operation, Reads, Resolution, Value,
};
use sqlmerge::{ConflictPolicy, PolicyConfig};

const KINDS: [ConflictType; 6] = [
    ConflictType::Unknown,
    ConflictType::Data,
    ConflictType::NotFound,
    ConflictType::Conflict,
    ConflictType::Constraint,
    ConflictType::ForeignKey,
];

const ACTIONS: [Action; 4] = [Action::Unknown, Action::Delete, Action::Insert, Action::Update];

fn whole(n: i64) -> Option<Value> {
    Some(Value::Integer(n))
}

fn text(s: &str) -> Option<Value> {
    Some(Value::Text(s.as_bytes().to_vec()))
}

fn fractional(x: f64) -> Value {
    Value::Real {
        bits: x.to_bits(),
        text: x.to_string(),
    }
}

/// A change of a table `users (id, name, score)` keyed by `id`.
fn users(
    action: Action,
    old: Vec<Option<Value>>,
    new: Vec<Option<Value>>,
    current: Vec<Option<Value>>,
) -> ConflictItem {
    ConflictItem {
        operation: Some(Operation {
            table: "users".to_string(),
            action,
            columns: 3,
        }),
        key_mask: Some(vec![1, 0, 0]),
        old_values: old,
        new_values: new,
        current_values: current,
        their_values: vec![],
        base_values: vec![],
        fk_conflicts: None,
    }
}

/// Theirs set a score of 222 where ours set another.
fn score_update(ours: i64) -> ConflictItem {
    let mut item = users(
        Action::Update,
        vec![whole(1), None, whole(10)],
        vec![None, None, whole(222)],
        vec![whole(1), text("alice"), whole(ours)],
    );
    item.their_values = vec![whole(1), text("alice"), whole(222)];
    item
}

/// Theirs inserted `(7, 'theirs', 77)` where ours has a row of that key.
fn insert_over(name: &str, score: i64) -> ConflictItem {
    users(
        Action::Insert,
        vec![None, None, None],
        vec![whole(7), text("theirs"), whole(77)],
        vec![whole(7), text(name), whole(score)],
    )
}

fn missing(action: Action) -> ConflictItem {
    users(
        action,
        vec![whole(3), text("carol"), whole(30)],
        vec![None, None, None],
        vec![],
    )
}

fn unreadable() -> ConflictItem {
    ConflictItem {
        operation: None,
        key_mask: None,
        old_values: vec![],
        new_values: vec![],
        current_values: vec![],
        their_values: vec![],
        base_values: vec![],
        fk_conflicts: None,
    }
}

fn policies(pattern: &str, policy: &str) -> PolicyConfig {
    PolicyConfig::load_body(&format!("[policies]\n\"{pattern}\" = \"{policy}\"\n"))
        .expect("valid test config")
}

fn under(policy: &str) -> PolicyConfig {
    policies("users", policy)
}

fn handled(
    policies: &PolicyConfig,
    kind: ConflictType,
    item: &ConflictItem,
) -> (ConflictAction, Vec<RowConflict>) {
    let mut unresolved = vec![];
    let action = handle_conflict(policies, kind, item, &mut unresolved);
    (action, unresolved)
}

#[test]
fn values_are_rendered_for_reports() {
    assert_eq!(render_value(&Value::Null), "NULL");
    for n in [0, 7, 10, -1, 42, i64::MAX, i64::MIN] {
        assert_eq!(render_value(&Value::Integer(n)), n.to_string());
    }
    assert_eq!(render_value(&fractional(1.5)), "1.5");
    assert_eq!(render_value(&Value::Text(b"it's".to_vec())), "'it's'");
    assert_eq!(render_value(&Value::Text("h\u{e9}".as_bytes().to_vec())), "'h\u{e9}'");
    assert_eq!(render_value(&Value::Text(vec![0xff, 0xfe])), "<2 bytes text>");
    assert_eq!(render_value(&Value::Text(vec![])), "''");
    assert_eq!(render_value(&Value::Blob(vec![0; 12])), "<blob 12 bytes>");
}

#[test]
fn values_are_equal_by_type_and_payload() {
    let values = [
        Value::Null,
        Value::Integer(1),
        Value::Integer(2),
        fractional(1.0),
        fractional(0.0),
        fractional(-0.0),
        fractional(f64::NAN),
        Value::Text(b"1".to_vec()),
        Value::Text(vec![]),
        Value::Blob(b"1".to_vec()),
        Value::Blob(vec![]),
    ];
    for (i, a) in values.iter().enumerate() {
        for (j, b) in values.iter().enumerate() {
            assert_eq!(values_equal(a, b), i == j, "{a:?} {b:?}");
            // Equal values are reported alike.
            assert!(!values_equal(a, b) || render_value(a) == render_value(b));
        }
    }
    // The rendering plays no part.
    let other = Value::Real {
        bits: 1.0f64.to_bits(),
        text: "one".to_string(),
    };
    assert!(values_equal(&fractional(1.0), &other));
}

#[test]
fn same_insert_on_both_sides_is_benign() {
    assert!(is_benign_duplicate_insert(ConflictType::Conflict, &insert_over("theirs", 77)));
    assert!(!is_benign_duplicate_insert(ConflictType::Conflict, &insert_over("ours", 77)));
    assert!(!is_benign_duplicate_insert(ConflictType::Data, &insert_over("theirs", 77)));
    assert!(!is_benign_duplicate_insert(ConflictType::Conflict, &unreadable()));
    // Every column has to be readable on both sides.
    let mut item = insert_over("theirs", 77);
    item.current_values.pop();
    assert!(!is_benign_duplicate_insert(ConflictType::Conflict, &item));
    // A table without columns, or with an impossible number of them, has no rows.
    for columns in [0, -1] {
        let mut item = insert_over("theirs", 77);
        item.operation = Some(Operation {
            table: "users".to_string(),
            action: Action::Insert,
            columns,
        });
        assert!(!is_benign_duplicate_insert(ConflictType::Conflict, &item));
    }
}

#[test]
fn same_delete_on_both_sides_is_benign() {
    assert!(is_convergent_delete(ConflictType::NotFound, &missing(Action::Delete)));
    assert!(!is_convergent_delete(ConflictType::NotFound, &missing(Action::Update)));
    assert!(!is_convergent_delete(ConflictType::Data, &missing(Action::Delete)));
    assert!(!is_convergent_delete(ConflictType::NotFound, &unreadable()));
}

#[test]
fn same_update_on_both_sides_is_benign() {
    assert!(is_convergent_update(ConflictType::Data, &score_update(222)));
    assert!(!is_convergent_update(ConflictType::Data, &score_update(111)));
    assert!(!is_convergent_update(ConflictType::NotFound, &score_update(222)));
    assert!(!is_convergent_update(ConflictType::Data, &unreadable()));
    // A delete of an edited row is no update.
    let mut item = missing(Action::Delete);
    item.current_values = vec![whole(3), text("carol"), whole(31)];
    item.their_values = item.current_values.clone();
    assert!(!is_convergent_update(ConflictType::Data, &item));
    // Ours wrote what theirs wrote, and changed one more column.
    let mut item = score_update(222);
    item.current_values[1] = text("alicia");
    assert!(!is_convergent_update(ConflictType::Data, &item));
    let (action, unresolved) =
        handled(&PolicyConfig::abort_all(), ConflictType::Data, &item);
    assert_eq!(action, ConflictAction::Abort);
    assert_eq!(unresolved.len(), 1);
    // A row that is not known, whole or in part, is the same as none.
    let mut item = score_update(222);
    item.their_values = vec![];
    assert!(!is_convergent_update(ConflictType::Data, &item));
    let mut item = score_update(222);
    item.their_values[1] = None;
    assert!(!is_convergent_update(ConflictType::Data, &item));
    let mut item = score_update(222);
    item.current_values = vec![];
    assert!(!is_convergent_update(ConflictType::Data, &item));
}

#[test]
fn three_different_rows_conflict() {
    let row = |a: i64, b: i64| vec![whole(1), whole(a), whole(b)];
    let base = row(10, 5);
    // Only one side changed the row, or both did so alike.
    assert!(!is_row_conflict(&base, &base, &row(99, 5), 3));
    assert!(!is_row_conflict(&base, &row(99, 5), &base, 3));
    assert!(!is_row_conflict(&base, &row(99, 5), &row(99, 5), 3));
    // The same column, another column, and one column more.
    assert!(is_row_conflict(&base, &row(98, 5), &row(99, 5), 3));
    assert!(is_row_conflict(&base, &row(10, 7), &row(99, 5), 3));
    assert!(is_row_conflict(&base, &row(99, 7), &row(99, 5), 3));
    // Rows that are not known, and rows without columns.
    assert!(!is_row_conflict(&vec![], &row(98, 5), &row(99, 5), 3));
    assert!(!is_row_conflict(&base, &row(98, 5), &row(99, 5), 4));
    assert!(!is_row_conflict(&base, &row(98, 5), &row(99, 5), 0));
    assert!(!is_row_conflict(&base, &row(98, 5), &row(99, 5), -1));
}

#[test]
fn benign_changes_are_omitted_under_every_policy() {
    for policy in ["abort", "ours", "theirs", "append-only"] {
        for (kind, item) in [
            (ConflictType::Conflict, insert_over("theirs", 77)),
            (ConflictType::NotFound, missing(Action::Delete)),
            (ConflictType::Data, score_update(222)),
        ] {
            let (action, unresolved) = handled(&under(policy), kind, &item);
            assert_eq!(action, ConflictAction::Omit);
            assert!(unresolved.is_empty());
        }
    }
}

#[test]
fn abort_leaves_every_conflict() {
    for kind in KINDS {
        for action in ACTIONS {
            assert_eq!(
                resolve_conflict(ConflictPolicy::Abort, kind, action),
                Resolution::Conflict,
            );
        }
    }
}

#[test]
fn ours_omits_every_conflict() {
    for kind in KINDS {
        for action in ACTIONS {
            assert_eq!(
                resolve_conflict(ConflictPolicy::Ours, kind, action),
                Resolution::Resolve(ConflictAction::Omit),
            );
        }
    }
}

#[test]
fn theirs_replaces_only_where_that_is_legal() {
    for kind in KINDS {
        let legal = kind == ConflictType::Data || kind == ConflictType::Conflict;
        for action in ACTIONS {
            let expected = if legal {
                Resolution::Resolve(ConflictAction::Replace)
            } else {
                Resolution::Conflict
            };
            assert_eq!(resolve_conflict(ConflictPolicy::Theirs, kind, action), expected);
        }
    }
}

#[test]
fn append_only_omits_inserts() {
    for kind in KINDS {
        for action in ACTIONS {
            let expected = if action == Action::Insert {
                Resolution::Resolve(ConflictAction::Omit)
            } else {
                Resolution::Conflict
            };
            assert_eq!(resolve_conflict(ConflictPolicy::AppendOnly, kind, action), expected);
        }
    }
}

#[test]
fn policies_answer_real_conflicts() {
    let data = score_update(111);
    let insert = insert_over("ours", 70);
    let update = missing(Action::Update);
    for (policy, over_data, over_insert, over_missing) in [
        ("abort", ConflictAction::Abort, ConflictAction::Abort, ConflictAction::Abort),
        ("ours", ConflictAction::Omit, ConflictAction::Omit, ConflictAction::Omit),
        ("theirs", ConflictAction::Replace, ConflictAction::Replace, ConflictAction::Abort),
        ("append-only", ConflictAction::Abort, ConflictAction::Omit, ConflictAction::Abort),
    ] {
        let policies = under(policy);
        for (kind, item, expected) in [
            (ConflictType::Data, &data, over_data),
            (ConflictType::Conflict, &insert, over_insert),
            (ConflictType::NotFound, &update, over_missing),
        ] {
            let (action, unresolved) = handled(&policies, kind, item);
            assert_eq!(action, expected, "{policy} {kind:?}");
            // A row is reported exactly where the answer is to abort.
            assert_eq!(unresolved.len(), usize::from(action == ConflictAction::Abort));
        }
    }
}

#[test]
fn tables_that_no_pattern_matches_abort() {
    let policies = policies("cache_*", "theirs");
    let mut item = score_update(111);
    let (action, unresolved) = handled(&policies, ConflictType::Data, &item);
    assert_eq!(action, ConflictAction::Abort);
    assert_eq!(unresolved[0].table, "users");
    item.operation = Some(Operation {
        table: "cache_hot".to_string(),
        action: Action::Update,
        columns: 3,
    });
    assert_eq!(handled(&policies, ConflictType::Data, &item).0, ConflictAction::Replace);
}

#[test]
fn change_of_an_unknown_table_aborts() {
    let everything = policies("*", "ours");
    let (action, unresolved) = handled(&everything, ConflictType::Data, &unreadable());
    assert_eq!(action, ConflictAction::Abort);
    assert_eq!(
        unresolved[0].display(),
        "table <unknown> pk () [SQLITE_CHANGESET_DATA]: ours=[] theirs=[]",
    );
}

#[test]
fn foreign_key_conflicts_abort_under_every_policy() {
    for policy in ["abort", "ours", "theirs", "append-only"] {
        let everything = policies("*", policy);
        let mut item = unreadable();
        item.fk_conflicts = Some(2);
        let (action, unresolved) = handled(&everything, ConflictType::ForeignKey, &item);
        assert_eq!(action, ConflictAction::Abort);
        assert_eq!(
            unresolved[0].display(),
            "table <deferred foreign key> pk () [SQLITE_CHANGESET_FOREIGN_KEY]: \
             ours=[] theirs=[2 deferred FK violation(s)]",
        );
    }
    let report = describe_conflict(ConflictType::ForeignKey, &unreadable());
    assert_eq!(report.theirs, vec!["0 deferred FK violation(s)".to_string()]);
}

#[test]
fn conflicts_over_a_row_show_both_sides() {
    let report = describe_conflict(ConflictType::Data, &score_update(111));
    assert_eq!(report.table, "users");
    assert_eq!(report.kind, "SQLITE_CHANGESET_DATA");
    assert_eq!(report.primary_key.0, vec!["1".to_string()]);
    assert_eq!(report.ours, vec!["1".to_string(), "'alice'".to_string(), "111".to_string()]);
    assert_eq!(report.theirs, vec!["222".to_string()]);

    let report = describe_conflict(ConflictType::NotFound, &missing(Action::Update));
    assert_eq!(
        report.display(),
        "table users pk (3) [SQLITE_CHANGESET_NOTFOUND]: ours=[] theirs=[]",
    );
}

#[test]
fn operation_with_a_negative_column_count_is_unknown() {
    let mut item = score_update(111);
    item.operation = Some(Operation {
        table: "users".to_string(),
        action: Action::Update,
        columns: -1,
    });
    let report = describe_conflict(ConflictType::Data, &item);
    assert_eq!(report.table, "<unknown>");
    assert!(report.primary_key.0.is_empty());
}

#[test]
fn keys_are_taken_from_where_they_are() {
    let mut item = insert_over("ours", 70);
    item.key_mask = Some(vec![1, 1]);
    // An insert has its key among the new values.
    item.old_values = vec![whole(99), whole(98)];
    assert_eq!(extract_primary_key(&item, Action::Insert, 3).display(), "(7, 'theirs')");
    // Any other change has it among the old ones, or else among the new ones.
    assert_eq!(extract_primary_key(&item, Action::Update, 3).display(), "(99, 98)");
    item.old_values = vec![None, whole(98)];
    assert_eq!(extract_primary_key(&item, Action::Delete, 3).display(), "(7, 98)");
    item.new_values = vec![];
    assert_eq!(extract_primary_key(&item, Action::Delete, 3).display(), "(?, 98)");
    // Only the columns that are asked for and are part of the key count.
    assert_eq!(extract_primary_key(&item, Action::Delete, 1).display(), "(?)");
    item.key_mask = Some(vec![0, 2]);
    assert_eq!(extract_primary_key(&item, Action::Delete, 3).display(), "(98)");
    item.key_mask = None;
    assert_eq!(extract_primary_key(&item, Action::Delete, 3).display(), "()");
}

#[test]
fn kinds_are_named_as_sqlite_names_them() {
    let names: Vec<&str> = KINDS.iter().map(|kind| kind.name()).collect();
    assert_eq!(
        names,
        vec![
            "UNKNOWN",
            "SQLITE_CHANGESET_DATA",
            "SQLITE_CHANGESET_NOTFOUND",
            "SQLITE_CHANGESET_CONFLICT",
            "SQLITE_CHANGESET_CONSTRAINT",
            "SQLITE_CHANGESET_FOREIGN_KEY",
        ],
    );
}

#[test]
fn only_what_is_there_may_be_read() {
    let reads = |operation, current_values, their_values, fk_conflicts| Reads {
        operation,
        current_values,
        their_values,
        fk_conflicts,
    };
    assert_eq!(ConflictType::Data.reads(), reads(true, true, true, false));
    assert_eq!(ConflictType::Conflict.reads(), reads(true, true, false, false));
    assert_eq!(ConflictType::NotFound.reads(), reads(true, false, false, false));
    assert_eq!(ConflictType::Constraint.reads(), reads(true, false, false, false));
    assert_eq!(ConflictType::Unknown.reads(), reads(true, false, false, false));
    assert_eq!(ConflictType::ForeignKey.reads(), reads(false, false, false, true));

    // What may not be read changes neither the answer nor the report.
    let mut item = missing(Action::Update);
    let before = handled(&under("abort"), ConflictType::NotFound, &item);
    item.current_values = vec![whole(5)];
    item.fk_conflicts = Some(9);
    let after = handled(&under("abort"), ConflictType::NotFound, &item);
    assert_eq!(before.0, after.0);
    assert_eq!(before.1[0].display(), after.1[0].display());
}
