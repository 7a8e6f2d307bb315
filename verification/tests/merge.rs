//! Merges of small databases: each test builds base, ours and theirs, runs the merge,
//! and looks at ours or at the refusal.
//!
//! The databases are tables in memory. They understand the few statements that the
//! tests are written in, and they record and apply changesets as SQLite's session
//! extension does.

use sqlmerge::checks::ForeignKeyViolation;
use sqlmerge::merge::{
    values_equal, Action, ConflictAction, ConflictItem, ConflictType, Operation, Value,
};
use sqlmerge::run::{Reply, Request, Side};
use sqlmerge::schema::SchemaRow;
use sqlmerge::{MergeError, MergeRun, PolicyConfig};

type Row = Vec<Value>;

#[derive(Clone)]
struct Table {
    name: String,
    sql: String,
    columns: Vec<String>,
    key: Vec<bool>,
    /// For each column the table that it refers to.
    parents: Vec<Option<String>>,
    rows: Vec<Row>,
}

#[derive(Clone, Default)]
struct Database {
    tables: Vec<Table>,
}

fn same_row(a: &Row, b: &Row) -> bool {
    a.len() == b.len() && a.iter().zip(b).all(|(x, y)| values_equal(x, y))
}

fn literal(text: &str) -> Value {
    let text = text.trim();
    match text.strip_prefix('\'').and_then(|t| t.strip_suffix('\'')) {
        Some(inner) => Value::Text(inner.as_bytes().to_vec()),
        None => Value::Integer(text.parse().expect("an integer")),
    }
}

impl Table {
    fn create(sql: &str) -> Table {
        let open = sql.find('(').expect("columns");
        let name = sql["CREATE TABLE".len()..open].trim().to_string();
        let mut table = Table {
            name,
            sql: sql.to_string(),
            columns: vec![],
            key: vec![],
            parents: vec![],
            rows: vec![],
        };
        let inner = &sql[open + 1..sql.rfind(')').expect("the end of the columns")];
        for column in inner.split(',') {
            table.add_column(column);
        }
        table
    }

    fn add_column(&mut self, definition: &str) {
        let words: Vec<&str> = definition.split_whitespace().collect();
        self.columns.push(words[0].to_string());
        self.key.push(words.windows(2).any(|pair| pair == ["PRIMARY", "KEY"]));
        let parent = words.iter().position(|word| *word == "REFERENCES");
        self.parents
            .push(parent.map(|at| words[at + 1].split('(').next().expect("a name").to_string()));
        for row in &mut self.rows {
            row.push(Value::Null);
        }
    }

    fn column(&self, name: &str) -> usize {
        self.columns.iter().position(|c| c == name).expect("a column")
    }

    /// The position of the row with the key of another.
    fn find(&self, row: &Row) -> Option<usize> {
        let same_key = |other: &Row| {
            (0..row.len()).all(|i| !self.key[i] || values_equal(&row[i], &other[i]))
        };
        self.rows.iter().position(same_key)
    }

    /// The positions of the rows that a condition `column = value` holds of.
    fn select(&self, condition: Option<&str>) -> Vec<usize> {
        let matches = |row: &Row| match condition {
            Some(text) => {
                let (name, value) = text.split_once('=').expect("a condition");
                values_equal(&row[self.column(name.trim())], &literal(value))
            }
            None => true,
        };
        (0..self.rows.len()).filter(|&i| matches(&self.rows[i])).collect()
    }
}

impl Database {
    fn table(&self, name: &str) -> &Table {
        self.tables.iter().find(|t| t.name == name).expect("a table")
    }

    fn table_mut(&mut self, name: &str) -> &mut Table {
        self.tables.iter_mut().find(|t| t.name == name).expect("a table")
    }

    fn execute(&mut self, statement: &str) {
        if statement.starts_with("CREATE TABLE") {
            self.tables.push(Table::create(statement));
        } else if let Some(rest) = statement.strip_prefix("ALTER TABLE ") {
            let (name, column) = rest.split_once(" ADD COLUMN ").expect("a column");
            let table = self.table_mut(name);
            let end = table.sql.rfind(')').expect("the end of the columns");
            table.sql = format!("{}, {column})", &table.sql[..end]);
            table.add_column(column);
        } else if let Some(rest) = statement.strip_prefix("INSERT INTO ") {
            let (name, values) = rest.split_once(" VALUES ").expect("values");
            let table = self.table_mut(name);
            for row in values.split("),") {
                let inner = row.trim().trim_start_matches('(').trim_end_matches(')');
                table.rows.push(inner.split(',').map(literal).collect());
            }
        } else if let Some(rest) = statement.strip_prefix("UPDATE ") {
            let (name, rest) = rest.split_once(" SET ").expect("an assignment");
            let (assignment, condition) = rest.split_once(" WHERE ").expect("a condition");
            let (column, value) = assignment.split_once('=').expect("an assignment");
            let table = self.table_mut(name);
            let column = table.column(column.trim());
            for i in table.select(Some(condition)) {
                table.rows[i][column] = literal(value);
            }
        } else if let Some(rest) = statement.strip_prefix("DELETE FROM ") {
            let (name, condition) = rest.split_once(" WHERE ").expect("a condition");
            let table = self.table_mut(name);
            for i in table.select(Some(condition)).into_iter().rev() {
                table.rows.remove(i);
            }
        } else {
            assert!(statement.starts_with("PRAGMA"), "cannot execute {statement}");
        }
    }

    fn query(&self, sql: &str) -> Value {
        let rest = sql.strip_prefix("SELECT ").expect("a query");
        let (what, rest) = rest.split_once(" FROM ").expect("a table");
        let (name, condition) = match rest.split_once(" WHERE ") {
            Some((name, condition)) => (name, Some(condition)),
            None => (rest, None),
        };
        let table = self.table(name);
        let rows = table.select(condition);
        if what == "count(*)" {
            Value::Integer(rows.len() as i64)
        } else {
            table.rows[rows[0]][table.column(what)].clone()
        }
    }

    fn violations(&self) -> Vec<ForeignKeyViolation> {
        let mut found = vec![];
        for table in &self.tables {
            for row in &table.rows {
                for (i, parent) in table.parents.iter().enumerate() {
                    let Some(parent) = parent else { continue };
                    let is_there =
                        |other: &Row| values_equal(&other[0], &row[i]);
                    if !self.table(parent).rows.iter().any(is_there) {
                        let Value::Integer(rowid) = &row[0] else {
                            panic!("expected a row identifier");
                        };
                        found.push(ForeignKeyViolation {
                            table: table.name.clone(),
                            rowid: Some(*rowid),
                            parent: parent.clone(),
                            fkid: 0,
                        });
                    }
                }
            }
        }
        found
    }
}

/// A change of a table: the row before, and the row after.
struct Change {
    table: String,
    old: Option<Row>,
    new: Option<Row>,
}

impl Change {
    fn action(&self) -> Action {
        match (&self.old, &self.new) {
            (Some(_), Some(_)) => Action::Update,
            (Some(_), None) => Action::Delete,
            _ => Action::Insert,
        }
    }

    /// What a changeset holds of the change: of an update only the key and what it
    /// writes.
    fn item(&self, table: &Table) -> ConflictItem {
        let columns = table.columns.len();
        let written = |i: usize| match (&self.old, &self.new) {
            (Some(old), Some(new)) => !values_equal(&old[i], &new[i]),
            _ => true,
        };
        let update = self.action() == Action::Update;
        let values = |row: &Option<Row>, with_key: bool| {
            (0..columns)
                .map(|i| {
                    let row = row.as_ref()?;
                    (written(i) || (with_key && table.key[i])).then_some(row[i].clone())
                })
                .collect()
        };
        ConflictItem {
            operation: Some(Operation {
                table: self.table.clone(),
                action: self.action(),
                columns: columns as i32,
            }),
            key_mask: Some(table.key.iter().map(|k| u8::from(*k)).collect()),
            old_values: values(&self.old, true),
            new_values: values(&self.new, !update),
            current_values: vec![],
            their_values: vec![],
            base_values: vec![],
            fk_conflicts: None,
        }
    }

    fn key_row(&self) -> &Row {
        self.old.as_ref().or(self.new.as_ref()).expect("a row")
    }
}

fn diff(base: &Table, theirs: &Table) -> Vec<Change> {
    let change = |old: Option<&Row>, new: Option<&Row>| Change {
        table: base.name.clone(),
        old: old.cloned(),
        new: new.cloned(),
    };
    let mut changes = vec![];
    for row in &theirs.rows {
        match base.find(row) {
            Some(i) if same_row(&base.rows[i], row) => {}
            Some(i) => changes.push(change(Some(&base.rows[i]), Some(row))),
            None => changes.push(change(None, Some(row))),
        }
    }
    for row in &base.rows {
        if theirs.find(row).is_none() {
            changes.push(change(Some(row), None));
        }
    }
    changes
}

fn known(row: Option<&Row>) -> Vec<Option<Value>> {
    row.map(|r| r.iter().cloned().map(Some).collect()).unwrap_or_default()
}

/// Applies the changes, or none of them.
fn apply(ours: &mut Database, theirs: &Database, changes: &[Change], run: &mut MergeRun) -> Reply {
    let before = ours.clone();
    let violations = before.violations().len();
    for change in changes {
        let table = ours.table_mut(&change.table);
        let at = table.find(change.key_row());
        let kind = match (&change.old, &change.new, at) {
            (None, _, Some(_)) => Some(ConflictType::Conflict),
            (Some(_), _, None) => Some(ConflictType::NotFound),
            (Some(old), Some(new), Some(i)) => {
                let clashes = |c: usize| {
                    !values_equal(&old[c], &new[c]) && !values_equal(&table.rows[i][c], &old[c])
                };
                (0..old.len()).any(clashes).then_some(ConflictType::Data)
            }
            (Some(old), None, Some(i)) => {
                (!same_row(old, &table.rows[i])).then_some(ConflictType::Data)
            }
            _ => None,
        };
        let answer = match kind {
            Some(kind) => {
                let mut item = change.item(table);
                if kind.reads().current_values {
                    item.current_values = known(at.map(|i| &table.rows[i]));
                }
                if kind.reads().their_values {
                    let other = theirs.table(&change.table);
                    let row = other.find(change.key_row()).map(|i| &other.rows[i]);
                    item.their_values = known(row);
                }
                run.on_conflict(kind, &item)
            }
            None => ConflictAction::Replace,
        };
        match answer {
            ConflictAction::Omit => continue,
            ConflictAction::Abort => {
                *ours = before;
                return Reply::Failed("aborted".to_string());
            }
            ConflictAction::Replace => {}
        }
        match (&change.old, &change.new, at) {
            (Some(old), Some(new), Some(i)) => {
                for c in 0..old.len() {
                    if !values_equal(&old[c], &new[c]) {
                        table.rows[i][c] = new[c].clone();
                    }
                }
            }
            (Some(_), None, Some(i)) => {
                table.rows.remove(i);
            }
            (None, Some(new), Some(i)) => table.rows[i] = new.clone(),
            (None, Some(new), None) => table.rows.push(new.clone()),
            _ => return Reply::Failed("misuse".to_string()),
        }
    }
    let more = ours.violations().len().saturating_sub(violations);
    if more > 0 {
        let item = ConflictItem {
            operation: None,
            key_mask: None,
            old_values: vec![],
            new_values: vec![],
            current_values: vec![],
            their_values: vec![],
            base_values: vec![],
            fk_conflicts: Some(more as i32),
        };
        if run.on_conflict(ConflictType::ForeignKey, &item) == ConflictAction::Abort {
            *ours = before;
            return Reply::Failed("aborted".to_string());
        }
    }
    Reply::Done
}

/// A base/ours/theirs triple.
#[derive(Clone, Default)]
struct Fixture {
    base: Database,
    ours: Database,
    theirs: Database,
}

impl Fixture {
    fn new() -> Self {
        Self::default()
    }

    /// Run the merge under the all-abort default (no `sqlmerge.toml`).
    fn run(&mut self) -> Result<(), MergeError> {
        self.run_with(&PolicyConfig::abort_all())
    }

    /// Run the merge under an explicit policy config.
    fn run_with(&mut self, policies: &PolicyConfig) -> Result<(), MergeError> {
        let mut run = MergeRun::new("base.db", "ours.db", "theirs.db", policies.clone());
        let mut changes: Vec<Change> = vec![];
        loop {
            let request = run.request();
            if matches!(request, Request::Finish) {
                break;
            }
            let reply = self.perform(request, &mut changes, &mut run);
            run.answer(reply);
        }
        run.into_outcome().expect("a finished merge")
    }

    fn side(&self, side: Side) -> &Database {
        match side {
            Side::Base => &self.base,
            Side::Ours => &self.ours,
            Side::Theirs => &self.theirs,
        }
    }

    fn perform(
        &mut self,
        request: Request,
        changes: &mut Vec<Change>,
        run: &mut MergeRun,
    ) -> Reply {
        match request {
            Request::ReadSchema { side } => {
                let row = |table: &Table| SchemaRow {
                    kind: "table".to_string(),
                    name: table.name.clone(),
                    sql: table.sql.clone(),
                };
                Reply::Schema(self.side(side).tables.iter().map(row).collect())
            }
            Request::ListTables { side } => {
                Reply::Tables(self.side(side).tables.iter().map(|t| t.name.clone()).collect())
            }
            Request::CountKeyColumns { side, table } => {
                let key = &self.side(side).table(&table).key;
                Reply::KeyColumns(key.iter().filter(|k| **k).count() as i64)
            }
            Request::Diff { table } => {
                changes.extend(diff(self.base.table(&table), self.theirs.table(&table)));
                Reply::Done
            }
            Request::CompareRows => {
                for change in changes.iter().filter(|c| c.action() == Action::Update) {
                    let row = |database: &Database| {
                        let table = database.table(&change.table);
                        known(table.find(change.key_row()).map(|i| &table.rows[i]))
                    };
                    let mut item = change.item(self.base.table(&change.table));
                    item.base_values = row(&self.base);
                    item.current_values = row(&self.ours);
                    item.their_values = row(&self.theirs);
                    run.on_change(&item);
                }
                Reply::Done
            }
            Request::Apply => apply(&mut self.ours, &self.theirs, changes, run),
            Request::CheckIntegrity => Reply::Integrity(vec!["ok".to_string()]),
            Request::CheckForeignKeys => Reply::ForeignKeys(self.ours.violations()),
            _ => Reply::Done,
        }
    }
}

/// Parse a `sqlmerge.toml` body into a [`PolicyConfig`] for a test.
fn policies(toml: &str) -> PolicyConfig {
    PolicyConfig::load_body(toml).expect("valid test config")
}

/// Run a batch of SQL.
fn build(db: &mut Database, sql: &str) {
    for statement in sql.split(';').map(str::trim).filter(|s| !s.is_empty()) {
        db.execute(statement);
    }
}

fn copy_db(from: &Database, to: &mut Database) {
    *to = from.clone();
}

/// Read a single integer cell.
fn read_int(db: &Database, sql: &str) -> i64 {
    match db.query(sql) {
        Value::Integer(n) => n,
        other => panic!("expected an integer, got {other:?}"),
    }
}

/// Read a single text cell.
fn read_text(db: &Database, sql: &str) -> String {
    match db.query(sql) {
        Value::Text(bytes) => String::from_utf8(bytes).expect("utf8 text"),
        other => panic!("expected a text, got {other:?}"),
    }
}

const USERS_SCHEMA: &str =
    "CREATE TABLE users (id INTEGER PRIMARY KEY, name TEXT NOT NULL, score INTEGER NOT NULL);";

/// A standard base with three users; ours and theirs start as copies.
fn seeded_users() -> Fixture {
    let mut f = Fixture::new();
    build(
        &mut f.base,
        &format!(
            "{USERS_SCHEMA}\n\
             INSERT INTO users VALUES (1, 'alice', 10), (2, 'bob', 20), (3, 'carol', 30);"
        ),
    );
    copy_db(&f.base, &mut f.ours);
    copy_db(&f.base, &mut f.theirs);
    f
}

#[test]
fn non_overlapping_row_edits_merge_clean() {
    let mut f = seeded_users();
    // ours edits alice; theirs edits bob. Disjoint rows.
    build(&mut f.ours, "UPDATE users SET score = 11 WHERE id = 1;");
    build(&mut f.theirs, "UPDATE users SET score = 22 WHERE id = 2;");

    f.run().expect("clean merge");

    // ours keeps its alice edit and gains theirs's bob edit.
    assert_eq!(read_int(&f.ours, "SELECT score FROM users WHERE id = 1"), 11);
    assert_eq!(read_int(&f.ours, "SELECT score FROM users WHERE id = 2"), 22);
    assert_eq!(read_int(&f.ours, "SELECT score FROM users WHERE id = 3"), 30);
}

#[test]
fn same_cell_divergent_edit_conflicts() {
    let mut f = seeded_users();
    // Both edit alice's score to different values.
    build(&mut f.ours, "UPDATE users SET score = 111 WHERE id = 1;");
    build(&mut f.theirs, "UPDATE users SET score = 222 WHERE id = 1;");

    let err = f.run().expect_err("should conflict");
    let MergeError::Conflicts(conflicts) = err else {
        panic!("expected Conflicts, got {err:?}");
    };
    assert_eq!(conflicts.len(), 1);
    assert_eq!(conflicts[0].table, "users");

    // ours must be left unchanged (aborted apply, no partial write).
    assert_eq!(read_int(&f.ours, "SELECT score FROM users WHERE id = 1"), 111);
}

#[test]
fn inserts_with_different_pks_merge() {
    let mut f = seeded_users();
    build(&mut f.ours, "INSERT INTO users VALUES (4, 'dave', 40);");
    build(&mut f.theirs, "INSERT INTO users VALUES (5, 'erin', 50);");

    f.run().expect("clean merge");

    assert_eq!(read_int(&f.ours, "SELECT count(*) FROM users"), 5);
    assert_eq!(read_text(&f.ours, "SELECT name FROM users WHERE id = 4"), "dave");
    assert_eq!(read_text(&f.ours, "SELECT name FROM users WHERE id = 5"), "erin");
}

#[test]
fn identical_insert_both_sides_is_not_a_conflict() {
    let mut f = seeded_users();
    // Same PK, same values, on both sides.
    build(&mut f.ours, "INSERT INTO users VALUES (6, 'frank', 60);");
    build(&mut f.theirs, "INSERT INTO users VALUES (6, 'frank', 60);");

    f.run().expect("identical insert should merge clean");

    assert_eq!(read_int(&f.ours, "SELECT count(*) FROM users WHERE id = 6"), 1);
    assert_eq!(read_text(&f.ours, "SELECT name FROM users WHERE id = 6"), "frank");
}

#[test]
fn convergent_delete_merges_clean() {
    let mut f = seeded_users();
    // Both sides delete carol. The changeset's DELETE finds the row already
    // gone (NOTFOUND) and the end state matches on both sides: not a conflict.
    build(&mut f.ours, "DELETE FROM users WHERE id = 3;");
    build(&mut f.theirs, "DELETE FROM users WHERE id = 3;");

    f.run().expect("convergent delete should merge clean");

    assert_eq!(read_int(&f.ours, "SELECT count(*) FROM users WHERE id = 3"), 0);
    assert_eq!(read_int(&f.ours, "SELECT count(*) FROM users"), 2);
}

#[test]
fn delete_vs_update_conflicts() {
    let mut f = seeded_users();
    // theirs deletes alice; ours edited her. The changeset DELETE finds a row
    // whose values differ from base (DATA conflict): a real conflict.
    build(&mut f.ours, "UPDATE users SET score = 111 WHERE id = 1;");
    build(&mut f.theirs, "DELETE FROM users WHERE id = 1;");

    let err = f.run().expect_err("delete-vs-update should conflict");
    let MergeError::Conflicts(conflicts) = err else {
        panic!("expected Conflicts, got {err:?}");
    };
    assert_eq!(conflicts[0].table, "users");

    // ours untouched by the aborted apply.
    assert_eq!(read_int(&f.ours, "SELECT score FROM users WHERE id = 1"), 111);
}

#[test]
fn update_vs_delete_conflicts() {
    let mut f = seeded_users();
    // theirs edits alice; ours deleted her. The changeset UPDATE finds no row
    // (NOTFOUND on update): a real conflict, unlike the convergent delete.
    build(&mut f.ours, "DELETE FROM users WHERE id = 1;");
    build(&mut f.theirs, "UPDATE users SET score = 222 WHERE id = 1;");

    let err = f.run().expect_err("update-vs-delete should conflict");
    let MergeError::Conflicts(conflicts) = err else {
        panic!("expected Conflicts, got {err:?}");
    };
    assert_eq!(conflicts[0].table, "users");

    // ours untouched by the aborted apply: alice stays deleted.
    assert_eq!(read_int(&f.ours, "SELECT count(*) FROM users WHERE id = 1"), 0);
}

#[test]
fn base_schema_divergence_refused() {
    let mut f = seeded_users();
    // Both sides apply the SAME migration, so ours == theirs, but base is
    // behind. The session diff cannot span a schema change; refuse typed.
    build(&mut f.ours, "ALTER TABLE users ADD COLUMN email TEXT;");
    build(&mut f.theirs, "ALTER TABLE users ADD COLUMN email TEXT;");

    let err = f.run().expect_err("should refuse");
    let MergeError::BaseSchemaDiverged(objects) = err else {
        panic!("expected BaseSchemaDiverged, got {err:?}");
    };
    assert_eq!(objects, vec!["users".to_string()]);
}

#[test]
fn missing_primary_key_table_refused() {
    let mut f = Fixture::new();
    // `logs` has no PRIMARY KEY, so the session extension would silently skip it.
    build(
        &mut f.base,
        "CREATE TABLE logs (msg TEXT NOT NULL, at INTEGER NOT NULL);",
    );
    copy_db(&f.base, &mut f.ours);
    copy_db(&f.base, &mut f.theirs);
    build(&mut f.theirs, "INSERT INTO logs VALUES ('hi', 1);");

    let err = f.run().expect_err("should refuse");
    let MergeError::MissingPrimaryKey(tables) = err else {
        panic!("expected MissingPrimaryKey, got {err:?}");
    };
    assert_eq!(tables, vec!["logs".to_string()]);
}

#[test]
fn schema_divergence_refused() {
    let mut f = Fixture::new();
    build(&mut f.base, USERS_SCHEMA);
    copy_db(&f.base, &mut f.ours);
    copy_db(&f.base, &mut f.theirs);
    // theirs adds a column: DDL divergence.
    build(&mut f.theirs, "ALTER TABLE users ADD COLUMN email TEXT;");

    let err = f.run().expect_err("should refuse");
    let MergeError::SchemaDiverged(objs) = err else {
        panic!("expected SchemaDiverged, got {err:?}");
    };
    assert!(objs.iter().any(|o| o.object == "users"));
}

#[test]
fn schema_whitespace_difference_is_not_divergence() {
    let mut f = Fixture::new();
    build(
        &mut f.base,
        "CREATE TABLE t (id INTEGER PRIMARY KEY, v INTEGER NOT NULL);\n\
         INSERT INTO t VALUES (1, 1);",
    );
    copy_db(&f.base, &mut f.ours);
    // Rebuild theirs from scratch with reformatted (but equivalent) DDL.
    build(
        &mut f.theirs,
        "CREATE TABLE t (\n  id  INTEGER  PRIMARY KEY,\n  v   INTEGER  NOT NULL\n);\n\
         INSERT INTO t VALUES (1, 1);",
    );
    build(&mut f.theirs, "UPDATE t SET v = 2 WHERE id = 1;");

    f.run().expect("whitespace-only schema difference should merge");
    assert_eq!(read_int(&f.ours, "SELECT v FROM t WHERE id = 1"), 2);
}

const FK_SCHEMA: &str = "CREATE TABLE parent (id INTEGER PRIMARY KEY);\n\
     CREATE TABLE child (id INTEGER PRIMARY KEY, parent_id INTEGER NOT NULL \
     REFERENCES parent(id));";

#[test]
fn foreign_key_violation_from_merge_caught() {
    let mut f = Fixture::new();
    build(
        &mut f.base,
        &format!("{FK_SCHEMA}\nINSERT INTO parent VALUES (1);\nINSERT INTO child VALUES (10, 1);"),
    );
    copy_db(&f.base, &mut f.ours);
    copy_db(&f.base, &mut f.theirs);

    // ours deletes the parent that theirs's new child will reference.
    build(&mut f.ours, "PRAGMA foreign_keys=OFF; DELETE FROM parent WHERE id = 1;");
    // theirs adds a child pointing at parent 1 (still present in theirs).
    build(&mut f.theirs, "INSERT INTO child VALUES (11, 1);");

    // Applying theirs's new child (parent_id=1) onto ours (parent 1 gone) is an
    // FK violation. It must be caught and refused (exit 1). SQLite's changeset
    // apply raises this as a FOREIGN_KEY conflict; either that or the
    // post-merge PRAGMA foreign_key_check is an acceptable catch, as long as we
    // refuse.
    let err = f.run().expect_err("should catch FK violation");
    assert!(
        matches!(
            err,
            MergeError::Conflicts(_) | MergeError::ForeignKeyCheckFailed(_)
        ),
        "expected an FK-related refusal, got {err:?}"
    );
}

#[test]
fn preexisting_dangling_fk_caught_by_post_merge_check() {
    let mut f = Fixture::new();
    build(
        &mut f.base,
        &format!("{FK_SCHEMA}\nINSERT INTO parent VALUES (1);\nINSERT INTO child VALUES (10, 1);"),
    );
    copy_db(&f.base, &mut f.ours);
    copy_db(&f.base, &mut f.theirs);

    // ours already holds a dangling child (parent 2 never existed), created
    // with FK enforcement off. The base->theirs changeset only touches parent,
    // so the apply does not re-check this row; the post-merge
    // foreign_key_check must.
    build(
        &mut f.ours,
        "PRAGMA foreign_keys=OFF; INSERT INTO child VALUES (99, 2);",
    );
    build(&mut f.theirs, "INSERT INTO parent VALUES (3);");

    let err = f.run().expect_err("should catch pre-existing dangling FK");
    let MergeError::ForeignKeyCheckFailed(rows) = err else {
        panic!("expected ForeignKeyCheckFailed, got {err:?}");
    };
    assert!(!rows.is_empty());
}

// --- per-table conflict policies (sqlmerge.toml) ---------------------------

/// The same-cell divergent edit that aborts by default is resolved to ours
/// under the `ours` policy: the incoming change is omitted, ours is kept.
#[test]
fn ours_policy_keeps_our_value_on_data_conflict() {
    let mut f = seeded_users();
    build(&mut f.ours, "UPDATE users SET score = 111 WHERE id = 1;");
    build(&mut f.theirs, "UPDATE users SET score = 222 WHERE id = 1;");

    f.run_with(&policies("[policies]\n\"users\" = \"ours\"\n"))
        .expect("ours policy resolves the conflict");

    assert_eq!(read_int(&f.ours, "SELECT score FROM users WHERE id = 1"), 111);
}

/// Under `theirs`, a DATA conflict (both edited the same row) is `REPLACEd`
/// with theirs's value.
#[test]
fn theirs_policy_takes_their_value_on_data_conflict() {
    let mut f = seeded_users();
    build(&mut f.ours, "UPDATE users SET score = 111 WHERE id = 1;");
    build(&mut f.theirs, "UPDATE users SET score = 222 WHERE id = 1;");

    f.run_with(&policies("[policies]\n\"users\" = \"theirs\"\n"))
        .expect("theirs policy resolves the conflict");

    assert_eq!(read_int(&f.ours, "SELECT score FROM users WHERE id = 1"), 222);
}

/// Under `theirs`, a CONFLICT-type row (both inserted the same PK with
/// different values) is `REPLACEd` with theirs.
#[test]
fn theirs_policy_replaces_conflicting_insert() {
    let mut f = seeded_users();
    build(&mut f.ours, "INSERT INTO users VALUES (7, 'ours', 70);");
    build(&mut f.theirs, "INSERT INTO users VALUES (7, 'theirs', 77);");

    f.run_with(&policies("[policies]\n\"users\" = \"theirs\"\n"))
        .expect("theirs policy resolves the insert conflict");

    assert_eq!(read_text(&f.ours, "SELECT name FROM users WHERE id = 7"), "theirs");
    assert_eq!(read_int(&f.ours, "SELECT score FROM users WHERE id = 7"), 77);
}

/// REPLACE is illegal for a NOTFOUND conflict (theirs updated a row ours
/// deleted). Under `theirs`, that row must still abort rather than return an
/// illegal REPLACE that would fail the whole apply with `SQLITE_MISUSE`.
#[test]
fn theirs_policy_aborts_on_notfound_update() {
    let mut f = seeded_users();
    build(&mut f.ours, "DELETE FROM users WHERE id = 1;");
    build(&mut f.theirs, "UPDATE users SET score = 222 WHERE id = 1;");

    let err = f
        .run_with(&policies("[policies]\n\"users\" = \"theirs\"\n"))
        .expect_err("theirs cannot REPLACE a NOTFOUND row");
    let MergeError::Conflicts(conflicts) = err else {
        panic!("expected Conflicts, got {err:?}");
    };
    assert_eq!(conflicts[0].table, "users");
    // Aborted apply leaves ours untouched: alice stays deleted.
    assert_eq!(read_int(&f.ours, "SELECT count(*) FROM users WHERE id = 1"), 0);
}

/// Under `append-only`, a conflicting INSERT (same PK, different values) keeps
/// ours (the incoming insert is omitted).
#[test]
fn append_only_keeps_ours_on_conflicting_insert() {
    let mut f = seeded_users();
    build(&mut f.ours, "INSERT INTO users VALUES (8, 'ours', 80);");
    build(&mut f.theirs, "INSERT INTO users VALUES (8, 'theirs', 88);");

    f.run_with(&policies("[policies]\n\"users\" = \"append-only\"\n"))
        .expect("append-only omits the conflicting insert");

    assert_eq!(read_text(&f.ours, "SELECT name FROM users WHERE id = 8"), "ours");
    assert_eq!(read_int(&f.ours, "SELECT count(*) FROM users WHERE id = 8"), 1);
}

/// Under `append-only`, a conflicting UPDATE still aborts: only inserts win.
#[test]
fn append_only_aborts_on_update_conflict() {
    let mut f = seeded_users();
    build(&mut f.ours, "UPDATE users SET score = 111 WHERE id = 1;");
    build(&mut f.theirs, "UPDATE users SET score = 222 WHERE id = 1;");

    let err = f
        .run_with(&policies("[policies]\n\"users\" = \"append-only\"\n"))
        .expect_err("append-only aborts an update conflict");
    let MergeError::Conflicts(conflicts) = err else {
        panic!("expected Conflicts, got {err:?}");
    };
    assert_eq!(conflicts[0].table, "users");
    assert_eq!(read_int(&f.ours, "SELECT score FROM users WHERE id = 1"), 111);
}

/// A glob applies the policy to matching tables and leaves the rest on the
/// abort default: `cache_*` takes theirs, `users` (unmatched) still aborts.
#[test]
fn glob_scopes_policy_to_matching_tables() {
    let mut f = Fixture::new();
    build(
        &mut f.base,
        "CREATE TABLE users (id INTEGER PRIMARY KEY, score INTEGER NOT NULL);\n\
         CREATE TABLE cache_hot (id INTEGER PRIMARY KEY, v INTEGER NOT NULL);\n\
         INSERT INTO users VALUES (1, 10);\n\
         INSERT INTO cache_hot VALUES (1, 100);",
    );
    copy_db(&f.base, &mut f.ours);
    copy_db(&f.base, &mut f.theirs);

    // A conflict in cache_hot (theirs wins) and a clean edit in users.
    build(&mut f.ours, "UPDATE cache_hot SET v = 111 WHERE id = 1;");
    build(&mut f.theirs, "UPDATE cache_hot SET v = 222 WHERE id = 1;");

    f.run_with(&policies("[policies]\n\"cache_*\" = \"theirs\"\n"))
        .expect("cache_* conflict resolves to theirs");

    assert_eq!(read_int(&f.ours, "SELECT v FROM cache_hot WHERE id = 1"), 222);

    // And a conflict in the unmatched `users` table still aborts.
    let mut f2 = Fixture::new();
    build(
        &mut f2.base,
        "CREATE TABLE users (id INTEGER PRIMARY KEY, score INTEGER NOT NULL);\n\
         INSERT INTO users VALUES (1, 10);",
    );
    copy_db(&f2.base, &mut f2.ours);
    copy_db(&f2.base, &mut f2.theirs);
    build(&mut f2.ours, "UPDATE users SET score = 111 WHERE id = 1;");
    build(&mut f2.theirs, "UPDATE users SET score = 222 WHERE id = 1;");

    let err = f2
        .run_with(&policies("[policies]\n\"cache_*\" = \"theirs\"\n"))
        .expect_err("users is unmatched and still aborts");
    assert!(matches!(err, MergeError::Conflicts(_)), "got {err:?}");
}

/// The two sides edit different columns of one row: the row is changed differently, and
/// nothing is written.
#[test]
fn different_columns_of_a_row_conflict() {
    let mut f = seeded_users();
    build(&mut f.ours, "UPDATE users SET name = 'alicia' WHERE id = 1;");
    build(&mut f.theirs, "UPDATE users SET score = 222 WHERE id = 1;");

    let err = f.run().expect_err("should conflict");
    let MergeError::Conflicts(conflicts) = err else {
        panic!("expected Conflicts, got {err:?}");
    };
    assert_eq!(conflicts.len(), 1);
    assert_eq!(conflicts[0].table, "users");
    assert_eq!(read_int(&f.ours, "SELECT score FROM users WHERE id = 1"), 10);
    assert_eq!(read_text(&f.ours, "SELECT name FROM users WHERE id = 1"), "alicia");
}

/// Both sides come to the same row.
#[test]
fn same_row_on_both_sides_merges_clean() {
    let mut f = seeded_users();
    build(&mut f.ours, "UPDATE users SET score = 222 WHERE id = 1;");
    build(&mut f.theirs, "UPDATE users SET score = 222 WHERE id = 1;");
    f.run().expect("clean merge");
    assert_eq!(read_int(&f.ours, "SELECT score FROM users WHERE id = 1"), 222);
}

/// A policy that resolves the row keeps the columns that ours alone changed.
#[test]
fn resolved_row_keeps_the_columns_of_ours() {
    for policy in ["ours", "theirs"] {
        let mut f = seeded_users();
        build(&mut f.ours, "UPDATE users SET name = 'alicia' WHERE id = 1;");
        build(&mut f.theirs, "UPDATE users SET score = 222 WHERE id = 1;");
        f.run_with(&policies(&format!("[policies]\n\"users\" = \"{policy}\"\n")))
            .expect("the policy resolves the row");
        assert_eq!(read_text(&f.ours, "SELECT name FROM users WHERE id = 1"), "alicia");
    }
}
