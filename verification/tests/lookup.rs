use sqlmerge::lookup::{row_query, COLUMN_NAMES_SQL};
use sqlmerge::merge::{Action, ConflictItem, Operation, Value};
use sqlmerge::sql::quote_identifier;

fn names(items: &[&str]) -> Vec<String> {
    items.iter().map(|s| s.to_string()).collect()
}

/// An update of a table `my "t"` with three columns, keyed by the first and the last.
fn update() -> ConflictItem {
    ConflictItem {
        operation: Some(Operation {
            table: "my \"t\"".to_string(),
            action: Action::Update,
            columns: 3,
        }),
        key_mask: Some(vec![1, 0, 1]),
        old_values: vec![Some(Value::Integer(1)), None, Some(Value::Text(b"k".to_vec()))],
        new_values: vec![None, Some(Value::Null), None],
        current_values: vec![],
        their_values: vec![],
        base_values: vec![],
        fk_conflicts: None,
    }
}

#[test]
fn identifiers_are_quoted() {
    assert_eq!(quote_identifier("users"), "\"users\"");
    assert_eq!(quote_identifier("a\"b"), "\"a\"\"b\"");
    assert_eq!(quote_identifier("it's"), "\"it's\"");
    assert_eq!(quote_identifier(""), "\"\"");
}

#[test]
fn row_is_looked_up_by_its_key() {
    let query = row_query("main", &update(), &names(&["id", "v", "part"])).expect("a query");
    assert_eq!(
        query.sql,
        "SELECT \"id\", \"v\", \"part\" FROM \"main\".\"my \"\"t\"\"\" \
         WHERE \"id\" IS ?1 AND \"part\" IS ?2",
    );
    assert_eq!(query.key, vec![0, 2]);
    let query = row_query("base", &update(), &names(&["id", "v", "part"])).expect("a query");
    assert!(query.sql.contains("FROM \"base\".\"my"));
    assert_eq!(COLUMN_NAMES_SQL, "SELECT name FROM pragma_table_info(?1) ORDER BY cid");
}

#[test]
fn row_without_its_key_is_not_looked_up() {
    let columns = names(&["id", "v", "part"]);
    // Another number of columns.
    assert!(row_query("main", &update(), &names(&["id", "v"])).is_none());
    // Another action, or none.
    for action in [Action::Insert, Action::Delete, Action::Unknown] {
        let mut item = update();
        item.operation = Some(Operation {
            table: "t".to_string(),
            action,
            columns: 3,
        });
        assert!(row_query("main", &item, &columns).is_none());
    }
    let mut item = update();
    item.operation = None;
    assert!(row_query("main", &item, &columns).is_none());
    // No key, or a part of it missing.
    let mut item = update();
    item.key_mask = None;
    assert!(row_query("main", &item, &columns).is_none());
    let mut item = update();
    item.old_values[2] = None;
    assert!(row_query("main", &item, &columns).is_none());
    let mut item = update();
    item.old_values.pop();
    assert!(row_query("main", &item, &columns).is_none());
    // An impossible number of columns.
    let mut item = update();
    item.operation = Some(Operation {
        table: "t".to_string(),
        action: Action::Update,
        columns: -1,
    });
    assert!(row_query("main", &item, &columns).is_none());
}
