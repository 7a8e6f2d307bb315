use sqlmerge::schema::{
    assert_all_tables_have_primary_key, assert_base_schema_matches, assert_schema_matches,
    diverging_objects, table_has_primary_key, SchemaRow, TableKeys, KEY_COLUMNS_SQL,
    SCHEMA_OBJECTS_SQL, USER_TABLES_SQL,
};
use sqlmerge::text::{compare_texts, Order};
use sqlmerge::MergeError;

fn objects(entries: &[(&str, &str, &str)]) -> Vec<SchemaRow> {
    entries
        .iter()
        .map(|(kind, name, sql)| SchemaRow {
            kind: kind.to_string(),
            name: name.to_string(),
            sql: sql.to_string(),
        })
        .collect()
}

/// The given names and definitions as tables.
fn rows(entries: &[(&str, &str)]) -> Vec<SchemaRow> {
    let tables: Vec<(&str, &str, &str)> =
        entries.iter().map(|(name, sql)| ("table", *name, *sql)).collect();
    objects(&tables)
}

const USERS: &str = "CREATE TABLE users (id INTEGER PRIMARY KEY, name TEXT NOT NULL)";

#[test]
fn same_schema_in_other_words_matches() {
    let ours = rows(&[("users", USERS), ("i", "CREATE INDEX i ON users(name)")]);
    let theirs = rows(&[
        ("i", "CREATE INDEX i\n  ON users ( name ) -- by name"),
        ("users", "CREATE TABLE users(id INTEGER PRIMARY KEY,name TEXT NOT NULL)"),
    ]);
    assert!(assert_schema_matches(&ours, &theirs).is_ok());
    assert!(assert_base_schema_matches(&ours, &theirs).is_ok());
    assert!(assert_schema_matches(&vec![], &vec![]).is_ok());
}

#[test]
fn every_divergence_is_listed_in_order() {
    let ours = rows(&[("users", USERS), ("b", "CREATE TABLE b (x)"), ("same", "S")]);
    let theirs = rows(&[
        ("users", "CREATE TABLE users (id INTEGER PRIMARY KEY)"),
        ("a", "CREATE TABLE a ( x )"),
        ("same", " S "),
    ]);
    let Err(MergeError::SchemaDiverged(list)) = assert_schema_matches(&ours, &theirs) else {
        panic!("expected SchemaDiverged");
    };
    let found: Vec<(&str, Option<&str>, Option<&str>)> = list
        .iter()
        .map(|d| (d.object.as_str(), d.ours.as_deref(), d.theirs.as_deref()))
        .collect();
    assert_eq!(
        found,
        vec![
            ("a", None, Some("CREATE TABLE a(x)")),
            ("b", Some("CREATE TABLE b(x)"), None),
            (
                "users",
                Some("CREATE TABLE users(id INTEGER PRIMARY KEY,name TEXT NOT NULL)"),
                Some("CREATE TABLE users(id INTEGER PRIMARY KEY)"),
            ),
        ],
    );

    // Exchanging the schemas exchanges the sides.
    let Err(MergeError::SchemaDiverged(mirrored)) = assert_schema_matches(&theirs, &ours) else {
        panic!("expected SchemaDiverged");
    };
    assert_eq!(mirrored.len(), 3);
    for (d, m) in list.iter().zip(&mirrored) {
        assert_eq!((&d.object, &d.ours, &d.theirs), (&m.object, &m.theirs, &m.ours));
    }
}

#[test]
fn divergence_from_base_names_the_objects() {
    let base = rows(&[("users", USERS), ("z", "Z")]);
    let side = rows(&[
        ("users", "CREATE TABLE users (id INTEGER PRIMARY KEY, name TEXT NOT NULL, email TEXT)"),
        ("z", "Z"),
        ("extra", "E"),
    ]);
    let Err(MergeError::BaseSchemaDiverged(names)) = assert_base_schema_matches(&base, &side)
    else {
        panic!("expected BaseSchemaDiverged");
    };
    assert_eq!(names, vec!["extra".to_string(), "users".to_string()]);
}

#[test]
fn table_beside_a_trigger_of_its_name_is_compared() {
    let trigger = "CREATE TRIGGER t AFTER INSERT ON t BEGIN SELECT 1; END";
    let ours = objects(&[
        ("table", "t", "CREATE TABLE t(id INTEGER PRIMARY KEY)"),
        ("trigger", "t", trigger),
    ]);
    let theirs = objects(&[
        ("table", "t", "CREATE TABLE t(id INTEGER PRIMARY KEY, v TEXT)"),
        ("trigger", "t", trigger),
    ]);
    let list = diverging_objects(&ours, &theirs);
    assert_eq!(list.len(), 1);
    assert_eq!(list[0].object, "t");
    assert_eq!(list[0].ours.as_deref(), Some("CREATE TABLE t(id INTEGER PRIMARY KEY)"));
    assert_eq!(list[0].theirs.as_deref(), Some("CREATE TABLE t(id INTEGER PRIMARY KEY,v TEXT)"));
    assert!(assert_schema_matches(&ours, &theirs).is_err());
    assert!(assert_base_schema_matches(&ours, &theirs).is_err());
    assert!(assert_schema_matches(&ours, &ours).is_ok());

    // Where both differ, both are listed, the table first.
    let mut both = theirs.clone();
    both[1].sql = trigger.replace("SELECT 1", "SELECT 2");
    let list = diverging_objects(&ours, &both);
    let found: Vec<bool> = list
        .iter()
        .map(|d| d.ours.as_deref().expect("a definition").starts_with("CREATE TABLE"))
        .collect();
    assert_eq!(found, vec![true, false]);
    // The order of the rows plays no part.
    both.reverse();
    assert_eq!(diverging_objects(&ours, &both).len(), 2);
    assert!(diverging_objects(&both, &both).is_empty());
}

#[test]
fn objects_of_one_name_are_compared_with_each_other() {
    // A table on one side, a view on the other.
    let table = objects(&[("table", "x", "CREATE TABLE x (a)"), ("table", "y", "Y")]);
    let view = objects(&[("view", "x", "CREATE VIEW x AS SELECT 1"), ("table", "y", "Y")]);
    let list = diverging_objects(&table, &view);
    assert_eq!(list.len(), 1);
    assert_eq!(list[0].object, "x");
    assert_eq!(list[0].ours.as_deref(), Some("CREATE TABLE x(a)"));
    assert_eq!(list[0].theirs.as_deref(), Some("CREATE VIEW x AS SELECT 1"));
    let Err(MergeError::BaseSchemaDiverged(names)) = assert_base_schema_matches(&table, &view)
    else {
        panic!("expected BaseSchemaDiverged");
    };
    assert_eq!(names, vec!["x".to_string()]);

    // The same SQL under one name is no divergence.
    let one = objects(&[("table", "x", "X")]);
    let other = objects(&[("view", "x", " X ")]);
    assert!(diverging_objects(&one, &other).is_empty());
    assert!(assert_schema_matches(&one, &other).is_ok());

    // The triggers are compared with each other, and so is what they leave.
    let ours = objects(&[("table", "x", "T"), ("trigger", "x", "G")]);
    let theirs = objects(&[("trigger", "x", "G"), ("view", "x", "V")]);
    let list = diverging_objects(&ours, &theirs);
    assert_eq!(list.len(), 1);
    assert_eq!((list[0].ours.as_deref(), list[0].theirs.as_deref()), (Some("T"), Some("V")));
    // What has no counterpart at all is listed with one side.
    let list = diverging_objects(&ours, &objects(&[("trigger", "x", "G")]));
    assert_eq!(list.len(), 1);
    assert_eq!((list[0].ours.as_deref(), list[0].theirs.as_deref()), (Some("T"), None));
}

#[test]
fn base_names_each_object_once() {
    let base = objects(&[("table", "x", "T"), ("trigger", "x", "G"), ("table", "a", "A")]);
    let side = objects(&[("table", "x", "T2"), ("trigger", "x", "G2")]);
    assert_eq!(diverging_objects(&base, &side).len(), 3);
    let Err(MergeError::BaseSchemaDiverged(names)) = assert_base_schema_matches(&base, &side)
    else {
        panic!("expected BaseSchemaDiverged");
    };
    assert_eq!(names, vec!["a".to_string(), "x".to_string()]);
}

#[test]
fn names_are_ordered_as_strings_are() {
    let names = ["", "A", "Z", "_", "a", "ab", "b", "\u{e9}", "\u{ffff}", "\u{10000}"];
    for a in names {
        for b in names {
            let expected = if a < b {
                Order::Before
            } else if a == b {
                Order::Same
            } else {
                Order::After
            };
            assert_eq!(compare_texts(a, b), expected, "{a:?} {b:?}");
        }
    }
    let all = rows(&names.map(|n| (n, "X")));
    let Err(MergeError::BaseSchemaDiverged(found)) = assert_base_schema_matches(&all, &vec![])
    else {
        panic!("expected BaseSchemaDiverged");
    };
    let mut sorted: Vec<String> = names.iter().map(|n| n.to_string()).collect();
    sorted.sort_unstable();
    assert_eq!(found, sorted);
}

fn keys(entries: &[(&str, i64)]) -> Vec<TableKeys> {
    entries
        .iter()
        .map(|(table, n)| TableKeys {
            table: table.to_string(),
            key_columns: *n,
        })
        .collect()
}

#[test]
fn every_table_without_a_key_is_named() {
    assert!(assert_all_tables_have_primary_key(&vec![]).is_ok());
    assert!(assert_all_tables_have_primary_key(&keys(&[("a", 1), ("b", 2)])).is_ok());
    let Err(MergeError::MissingPrimaryKey(tables)) =
        assert_all_tables_have_primary_key(&keys(&[("logs", 0), ("a", 1), ("events", 0)]))
    else {
        panic!("expected MissingPrimaryKey");
    };
    assert_eq!(tables, vec!["logs".to_string(), "events".to_string()]);
    assert!(table_has_primary_key(1));
    assert!(!table_has_primary_key(0));
}

#[test]
fn queries_read_what_the_gates_need() {
    assert_eq!(
        SCHEMA_OBJECTS_SQL,
        "SELECT type, name, sql FROM sqlite_schema \
         WHERE sql IS NOT NULL AND name NOT LIKE 'sqlite\\_%' ESCAPE '\\' \
         ORDER BY name, type",
    );
    assert_eq!(
        USER_TABLES_SQL,
        "SELECT name FROM sqlite_schema \
         WHERE type = 'table' AND name NOT LIKE 'sqlite\\_%' ESCAPE '\\' \
         ORDER BY name",
    );
    assert_eq!(
        KEY_COLUMNS_SQL,
        "SELECT COUNT(*) FROM pragma_table_info(?1) WHERE pk > 0",
    );
}
