use sqlmerge::checks::ForeignKeyViolation;
use sqlmerge::merge::{Action, ConflictAction, ConflictItem, ConflictType, Operation, Value};
use sqlmerge::run::{Reply, Request, Side};
use sqlmerge::schema::SchemaRow;
use sqlmerge::{MergeError, MergeRun, PolicyConfig};

const USERS: &str = "CREATE TABLE users (id INTEGER PRIMARY KEY, score INTEGER NOT NULL)";

/// What a pretended set of databases holds.
struct World {
    base: Vec<(&'static str, &'static str)>,
    ours: Vec<(&'static str, &'static str)>,
    theirs: Vec<(&'static str, &'static str)>,
    /// User tables and the numbers of their key columns.
    tables: Vec<(&'static str, i64)>,
    /// The updates of the changeset, with the rows of all sides.
    changes: Vec<ConflictItem>,
    conflicts: Vec<(ConflictType, ConflictItem)>,
    integrity: Vec<&'static str>,
    violations: Vec<ForeignKeyViolation>,
    /// The request that fails, counted from the first.
    fails_at: Option<usize>,
}

fn users_world() -> World {
    World {
        base: vec![("users", USERS)],
        ours: vec![("users", USERS)],
        theirs: vec![("users", USERS)],
        tables: vec![("users", 1)],
        changes: vec![],
        conflicts: vec![],
        integrity: vec!["ok"],
        violations: vec![],
        fails_at: None,
    }
}

struct Course {
    requests: Vec<String>,
    answers: Vec<ConflictAction>,
    outcome: Result<(), MergeError>,
}

fn rows(entries: &[(&str, &str)]) -> Vec<SchemaRow> {
    entries
        .iter()
        .map(|(name, sql)| SchemaRow {
            kind: "table".to_string(),
            name: name.to_string(),
            sql: sql.to_string(),
        })
        .collect()
}

fn merge(world: &World, policies: PolicyConfig) -> Course {
    let mut run = MergeRun::new("b'ase.db", "ours.db", "theirs.db", policies);
    let mut requests = vec![];
    let mut answers = vec![];
    loop {
        let request = run.request();
        if matches!(request, Request::Finish) {
            break;
        }
        requests.push(format!("{request:?}"));
        let reply = match request {
            Request::ReadSchema { side } => Reply::Schema(rows(match side {
                Side::Base => &world.base,
                Side::Ours => &world.ours,
                Side::Theirs => &world.theirs,
            })),
            Request::ListTables { .. } => {
                Reply::Tables(world.tables.iter().map(|(name, _)| name.to_string()).collect())
            }
            Request::CountKeyColumns { table, .. } => Reply::KeyColumns(
                world
                    .tables
                    .iter()
                    .find(|(name, _)| *name == table)
                    .expect("a listed table")
                    .1,
            ),
            Request::CompareRows => {
                for item in &world.changes {
                    run.on_change(item);
                }
                Reply::Done
            }
            Request::Apply => {
                for (kind, item) in &world.conflicts {
                    answers.push(run.on_conflict(*kind, item));
                }
                if answers.contains(&ConflictAction::Abort) {
                    Reply::Failed("abort".to_string())
                } else {
                    Reply::Done
                }
            }
            Request::CheckIntegrity => {
                Reply::Integrity(world.integrity.iter().map(|row| row.to_string()).collect())
            }
            Request::CheckForeignKeys => Reply::ForeignKeys(world.violations.clone()),
            _ => Reply::Done,
        };
        if world.fails_at == Some(requests.len() - 1) {
            run.answer(Reply::Failed("disk I/O error".to_string()));
        } else {
            run.answer(reply);
        }
    }
    Course {
        requests,
        answers,
        outcome: run.into_outcome().expect("a finished merge"),
    }
}

/// Theirs set the score of row 1 to 222 where ours set it to another value.
fn score_conflict(ours: i64) -> (ConflictType, ConflictItem) {
    let item = ConflictItem {
        operation: Some(Operation {
            table: "users".to_string(),
            action: Action::Update,
            columns: 2,
        }),
        key_mask: Some(vec![1, 0]),
        old_values: vec![Some(Value::Integer(1)), Some(Value::Integer(10))],
        new_values: vec![None, Some(Value::Integer(222))],
        current_values: vec![Some(Value::Integer(1)), Some(Value::Integer(ours))],
        their_values: vec![Some(Value::Integer(1)), Some(Value::Integer(222))],
        base_values: vec![],
        fk_conflicts: None,
    };
    (ConflictType::Data, item)
}

#[test]
fn clean_merge_asks_for_everything_in_order() {
    let course = merge(&users_world(), PolicyConfig::abort_all());
    assert!(course.outcome.is_ok());
    assert_eq!(
        course.requests,
        vec![
            "Open { side: Theirs, path: \"theirs.db\" }",
            "Open { side: Ours, path: \"ours.db\" }",
            "ReadSchema { side: Ours }",
            "ReadSchema { side: Theirs }",
            "Open { side: Base, path: \"b'ase.db\" }",
            "ReadSchema { side: Base }",
            "ReadSchema { side: Theirs }",
            "Close { side: Base }",
            "ListTables { side: Ours }",
            "CountKeyColumns { side: Ours, table: \"users\" }",
            "ListTables { side: Theirs }",
            "CountKeyColumns { side: Theirs, table: \"users\" }",
            "Execute { side: Theirs, sql: \"ATTACH DATABASE 'b''ase.db' AS base\" }",
            "BeginSession",
            "ListTables { side: Theirs }",
            "Diff { table: \"users\" }",
            "TakeChangeset",
            "CompareRows",
            "Execute { side: Theirs, sql: \"DETACH DATABASE base\" }",
            "Apply",
            "CheckIntegrity",
            "CheckForeignKeys",
        ],
    );
}

#[test]
fn merge_of_empty_databases_is_clean() {
    let mut world = users_world();
    world.base = vec![];
    world.ours = vec![];
    world.theirs = vec![];
    world.tables = vec![];
    let course = merge(&world, PolicyConfig::abort_all());
    assert!(course.outcome.is_ok());
    assert_eq!(course.requests.len(), 19);
}

#[test]
fn any_failure_refuses_the_merge() {
    let total = merge(&users_world(), PolicyConfig::abort_all()).requests.len();
    for k in 0..total {
        let mut world = users_world();
        world.fails_at = Some(k);
        let course = merge(&world, PolicyConfig::abort_all());
        assert_eq!(course.requests.len(), k + 1);
        assert_eq!(
            course.outcome.expect_err("a refusal").display(),
            "sqlite error: disk I/O error",
        );
    }
}

#[test]
fn diverging_schemas_are_refused_before_base_is_opened() {
    let mut world = users_world();
    world.theirs = vec![("users", "CREATE TABLE users (id INTEGER PRIMARY KEY)")];
    let course = merge(&world, PolicyConfig::abort_all());
    assert_eq!(course.requests.len(), 4);
    let Err(MergeError::SchemaDiverged(list)) = course.outcome else {
        panic!("expected SchemaDiverged");
    };
    assert_eq!(list.len(), 1);
    assert_eq!(list[0].object, "users");
}

#[test]
fn diverging_base_is_refused() {
    let mut world = users_world();
    world.base = vec![("users", "CREATE TABLE users (id INTEGER PRIMARY KEY)")];
    let course = merge(&world, PolicyConfig::abort_all());
    assert_eq!(course.requests.len(), 7);
    let Err(MergeError::BaseSchemaDiverged(names)) = course.outcome else {
        panic!("expected BaseSchemaDiverged");
    };
    assert_eq!(names, vec!["users".to_string()]);
}

#[test]
fn tables_without_keys_are_refused_before_anything_is_written() {
    let mut world = users_world();
    world.tables = vec![("logs", 0), ("users", 1), ("visits", 0)];
    let course = merge(&world, PolicyConfig::abort_all());
    assert!(!course.requests.iter().any(|r| r.starts_with("Apply") || r.starts_with("Execute")));
    let Err(MergeError::MissingPrimaryKey(tables)) = course.outcome else {
        panic!("expected MissingPrimaryKey");
    };
    assert_eq!(tables, vec!["logs".to_string(), "visits".to_string()]);
}

#[test]
fn unresolved_conflicts_are_reported() {
    let mut world = users_world();
    world.conflicts = vec![score_conflict(111)];
    let course = merge(&world, PolicyConfig::abort_all());
    assert_eq!(course.answers, vec![ConflictAction::Abort]);
    assert_eq!(
        course.outcome.expect_err("a refusal").display(),
        "merge conflict: 1 row(s) could not be merged automatically.\n  \
         - table users pk (1) [SQLITE_CHANGESET_DATA]: ours=[1, 111] theirs=[222]\n",
    );
}

#[test]
fn resolved_conflicts_leave_a_clean_merge() {
    for (policy, answer) in [("ours", ConflictAction::Omit), ("theirs", ConflictAction::Replace)] {
        let mut world = users_world();
        world.conflicts = vec![score_conflict(111)];
        let body = format!("[policies]
\"users\" = \"{policy}\"
");
        let policies = PolicyConfig::load_body(&body).expect("valid test config");
        let course = merge(&world, policies);
        assert_eq!(course.answers, vec![answer]);
        assert!(course.outcome.is_ok());
    }
}

#[test]
fn row_changed_alike_on_both_sides_merges_cleanly() {
    let mut world = users_world();
    world.conflicts = vec![score_conflict(222)];
    let course = merge(&world, PolicyConfig::abort_all());
    assert_eq!(course.answers, vec![ConflictAction::Omit]);
    assert!(course.outcome.is_ok());
}

#[test]
fn row_changed_differently_refuses_the_merge() {
    // Base (1, 10, 5), ours (1, 99, 7), theirs (1, 99, 5).
    let row = |values: [i64; 3]| values.map(|n| Some(Value::Integer(n))).to_vec();
    let item = ConflictItem {
        operation: Some(Operation {
            table: "users".to_string(),
            action: Action::Update,
            columns: 3,
        }),
        key_mask: Some(vec![1, 0, 0]),
        old_values: vec![Some(Value::Integer(1)), Some(Value::Integer(10)), None],
        new_values: vec![None, Some(Value::Integer(99)), None],
        current_values: row([1, 99, 7]),
        their_values: row([1, 99, 5]),
        base_values: vec![],
        fk_conflicts: None,
    };
    let mut world = users_world();
    world.conflicts = vec![(ConflictType::Data, item)];
    let course = merge(&world, PolicyConfig::abort_all());
    assert_eq!(course.answers, vec![ConflictAction::Abort]);
    let Err(MergeError::Conflicts(conflicts)) = course.outcome else {
        panic!("expected Conflicts");
    };
    assert_eq!(conflicts.len(), 1);
    assert_eq!(conflicts[0].table, "users");
}

/// An update of a row that base, ours and theirs hold like this.
fn update_of(base: [i64; 3], ours: [i64; 3], theirs: [i64; 3]) -> ConflictItem {
    let row = |values: [i64; 3]| values.map(|n| Some(Value::Integer(n))).to_vec();
    let written = |values: [i64; 3], key: bool| {
        (0..3)
            .map(|i| {
                let changed = base[i] != theirs[i];
                if changed || (key && i == 0) {
                    Some(Value::Integer(values[i]))
                } else {
                    None
                }
            })
            .collect()
    };
    ConflictItem {
        operation: Some(Operation {
            table: "users".to_string(),
            action: Action::Update,
            columns: 3,
        }),
        key_mask: Some(vec![1, 0, 0]),
        old_values: written(base, true),
        new_values: written(theirs, false),
        current_values: row(ours),
        their_values: row(theirs),
        base_values: row(base),
        fk_conflicts: None,
    }
}

#[test]
fn edits_of_different_columns_of_a_row_refuse_the_merge() {
    let mut world = users_world();
    world.changes = vec![
        update_of([1, 10, 5], [1, 10, 5], [1, 99, 5]),
        update_of([2, 10, 5], [2, 10, 7], [2, 99, 5]),
        update_of([3, 10, 5], [3, 99, 5], [3, 99, 5]),
    ];
    let course = merge(&world, PolicyConfig::abort_all());
    assert!(!course.requests.contains(&"Apply".to_string()));
    assert_eq!(
        course.outcome.expect_err("a refusal").display(),
        "merge conflict: 1 row(s) could not be merged automatically.\n  \
         - table users pk (2) [SQLITE_CHANGESET_DATA]: ours=[2, 10, 7] theirs=[99]\n",
    );
}

#[test]
fn policies_that_resolve_a_row_leave_it_to_the_apply() {
    for (policy, refused) in [("ours", false), ("theirs", false), ("append-only", true)] {
        let mut world = users_world();
        world.changes = vec![update_of([2, 10, 5], [2, 10, 7], [2, 99, 5])];
        let body = format!("[policies]\n\"users\" = \"{policy}\"\n");
        let policies = PolicyConfig::load_body(&body).expect("valid test config");
        let course = merge(&world, policies);
        assert_eq!(course.outcome.is_err(), refused);
        assert_eq!(course.requests.contains(&"Apply".to_string()), !refused);
    }
}

#[test]
fn rows_that_are_not_known_are_left_to_the_apply() {
    let mut world = users_world();
    let mut deleted = update_of([2, 10, 5], [2, 10, 7], [2, 99, 5]);
    deleted.current_values = vec![];
    let mut partial = update_of([3, 10, 5], [3, 10, 7], [3, 99, 5]);
    partial.base_values[2] = None;
    let mut unknown = update_of([4, 10, 5], [4, 10, 7], [4, 99, 5]);
    unknown.operation = None;
    world.changes = vec![deleted, partial, unknown];
    assert!(merge(&world, PolicyConfig::abort_all()).outcome.is_ok());
}

#[test]
fn only_unresolved_conflicts_are_reported_and_in_order() {
    let mut world = users_world();
    world.conflicts = vec![score_conflict(111), score_conflict(222), score_conflict(333)];
    let course = merge(&world, PolicyConfig::abort_all());
    let Err(MergeError::Conflicts(conflicts)) = course.outcome else {
        panic!("expected Conflicts");
    };
    let ours: Vec<&str> = conflicts.iter().map(|c| c.ours[1].as_str()).collect();
    assert_eq!(ours, vec!["111", "333"]);
}

#[test]
fn apply_that_fails_without_conflicts_is_a_failure() {
    let mut world = users_world();
    world.fails_at = Some(19);
    let course = merge(&world, PolicyConfig::abort_all());
    assert_eq!(course.requests[19], "Apply");
    assert!(matches!(course.outcome, Err(MergeError::Sqlite(_))));
}

#[test]
fn unsound_results_are_refused() {
    let mut world = users_world();
    world.integrity = vec!["row 3 missing from index"];
    assert!(matches!(
        merge(&world, PolicyConfig::abort_all()).outcome,
        Err(MergeError::IntegrityCheckFailed(_)),
    ));

    let mut world = users_world();
    world.violations = vec![ForeignKeyViolation {
        table: "child".to_string(),
        rowid: Some(99),
        parent: "parent".to_string(),
        fkid: 0,
    }];
    let Err(MergeError::ForeignKeyCheckFailed(lines)) =
        merge(&world, PolicyConfig::abort_all()).outcome
    else {
        panic!("expected ForeignKeyCheckFailed");
    };
    assert_eq!(lines, vec!["table child rowid 99 violates FK #0 -> parent".to_string()]);
}

#[test]
fn replies_that_were_not_asked_for_change_nothing() {
    let mut run = MergeRun::new("b", "o", "t", PolicyConfig::abort_all());
    run.answer(Reply::Integrity(vec!["ok".to_string()]));
    run.answer(Reply::KeyColumns(1));
    assert!(matches!(run.request(), Request::Open { side: Side::Theirs, .. }));
    let (kind, item) = score_conflict(222);
    assert_eq!(run.on_conflict(kind, &item), ConflictAction::Abort);
    run.on_change(&update_of([2, 10, 5], [2, 10, 7], [2, 99, 5]));
    assert!(run.into_outcome().is_none());
}

#[test]
fn outcome_is_final() {
    let mut run = MergeRun::new("b", "o", "t", PolicyConfig::abort_all());
    run.answer(Reply::Failed("first".to_string()));
    run.answer(Reply::Failed("second".to_string()));
    run.answer(Reply::Done);
    assert!(matches!(run.request(), Request::Finish));
    let Some(Err(error)) = run.into_outcome() else {
        panic!("expected a refusal");
    };
    assert_eq!(error.display(), "sqlite error: first");
}
