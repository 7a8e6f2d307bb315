use sqlmerge::checks::{assert_foreign_keys, assert_integrity, ForeignKeyViolation};
use sqlmerge::error::{PrimaryKey, RowConflict, SchemaDivergence};
use sqlmerge::MergeError;

fn strings(items: &[&str]) -> Vec<String> {
    items.iter().map(|s| s.to_string()).collect()
}

#[test]
fn keys_are_shown_in_parentheses() {
    assert_eq!(PrimaryKey(vec![]).display(), "()");
    assert_eq!(PrimaryKey(strings(&["1"])).display(), "(1)");
    assert_eq!(PrimaryKey(strings(&["1", "'a'", "?"])).display(), "(1, 'a', ?)");
}

fn conflict() -> RowConflict {
    RowConflict {
        table: "users".to_string(),
        kind: "SQLITE_CHANGESET_DATA".to_string(),
        primary_key: PrimaryKey(strings(&["1"])),
        ours: strings(&["1", "111"]),
        theirs: strings(&["1", "222"]),
    }
}

#[test]
fn conflicts_are_shown_on_one_line() {
    assert_eq!(
        conflict().display(),
        "table users pk (1) [SQLITE_CHANGESET_DATA]: ours=[1, 111] theirs=[1, 222]",
    );
}

#[test]
fn sqlite_failures_are_passed_on() {
    assert_eq!(
        MergeError::Sqlite("database is locked".to_string()).display(),
        "sqlite error: database is locked",
    );
}

#[test]
fn schema_divergence_is_reported() {
    let error = MergeError::SchemaDiverged(vec![
        SchemaDivergence {
            object: "a".to_string(),
            ours: Some("CREATE TABLE a(x)".to_string()),
            theirs: None,
        },
        SchemaDivergence {
            object: "b".to_string(),
            ours: None,
            theirs: Some("CREATE TABLE b(y)".to_string()),
        },
    ]);
    assert_eq!(
        error.display(),
        "refusing to merge: schema (sqlite_schema) diverges between the two sides.\n\
         sqlmerge merges data (rows), never DDL. Resolve the schema by hand first.\n\
         diverging objects:\n\
         \x20 - a\n      ours:   CREATE TABLE a(x)\n      theirs: <absent>\n\
         \x20 - b\n      ours:   <absent>\n      theirs: CREATE TABLE b(y)\n",
    );
}

#[test]
fn base_divergence_is_reported() {
    assert_eq!(
        MergeError::BaseSchemaDiverged(strings(&["users", "v"])).display(),
        "refusing to merge: the merge base's schema differs from the two sides \
         (did both sides apply the same DDL migration?).\n\
         sqlmerge merges data (rows), never DDL; the session diff needs all three \
         versions to share a schema.\n\
         objects that changed since base:\n\
         \x20 - users\n\
         \x20 - v\n",
    );
}

#[test]
fn missing_keys_are_reported() {
    assert_eq!(
        MergeError::MissingPrimaryKey(strings(&["logs"])).display(),
        "refusing to merge: 1 table(s) lack an explicit PRIMARY KEY.\n\
         the SQLite session extension silently skips PK-less tables, \
         which would be silent data loss.\n\
         tables:\n\
         \x20 - logs\n",
    );
    let many: Vec<String> = (0..12).map(|i| format!("t{i}")).collect();
    assert!(MergeError::MissingPrimaryKey(many)
        .display()
        .starts_with("refusing to merge: 12 table(s)"));
}

#[test]
fn conflicts_are_reported() {
    assert_eq!(
        MergeError::Conflicts(vec![conflict(), conflict()]).display(),
        "merge conflict: 2 row(s) could not be merged automatically.\n\
         \x20 - table users pk (1) [SQLITE_CHANGESET_DATA]: ours=[1, 111] theirs=[1, 222]\n\
         \x20 - table users pk (1) [SQLITE_CHANGESET_DATA]: ours=[1, 111] theirs=[1, 222]\n",
    );
}

#[test]
fn integrity_check_has_to_say_ok() {
    assert!(assert_integrity(strings(&["ok"])).is_ok());
    for rows in [vec![], strings(&["ok", "ok"]), strings(&["OK"]), strings(&["row 1 missing"])] {
        let Err(MergeError::IntegrityCheckFailed(found)) = assert_integrity(rows.clone()) else {
            panic!("expected IntegrityCheckFailed");
        };
        assert_eq!(found, rows);
    }
    assert_eq!(
        MergeError::IntegrityCheckFailed(strings(&["row 1 missing"])).display(),
        "post-merge PRAGMA integrity_check failed:\n  - row 1 missing\n",
    );
}

#[test]
fn foreign_key_check_has_to_say_nothing() {
    assert!(assert_foreign_keys(&vec![]).is_ok());
    let violations = vec![
        ForeignKeyViolation {
            table: "child".to_string(),
            rowid: Some(99),
            parent: "parent".to_string(),
            fkid: 0,
        },
        ForeignKeyViolation {
            table: "link".to_string(),
            rowid: None,
            parent: "parent".to_string(),
            fkid: 2,
        },
    ];
    let Err(error) = assert_foreign_keys(&violations) else {
        panic!("expected a refusal");
    };
    assert_eq!(
        error.display(),
        "post-merge PRAGMA foreign_key_check found violations:\n\
         \x20 - table child rowid 99 violates FK #0 -> parent\n\
         \x20 - table link rowid ? violates FK #2 -> parent\n",
    );
}
