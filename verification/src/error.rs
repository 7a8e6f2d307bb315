//! Typed refusals, and the messages that report them.
//!
//! There is no catch-all error: a merge that fails silently or ambiguously loses
//! data, so each refusal names exactly what went wrong.
use vstd::prelude::*;

use crate::text::{decimal, join, joined, length_text, texts};

verus! {

/// A row's primary key rendered for display, one column per element.
#[derive(Debug, Clone)]
pub struct PrimaryKey(pub Vec<String>);

impl View for PrimaryKey {
    type V = Seq<Seq<char>>;

    open spec fn view(&self) -> Seq<Seq<char>> {
        texts(self.0@)
    }
}

/// One row-level conflict that the apply could not resolve.
#[derive(Debug, Clone)]
pub struct RowConflict {
    pub table: String,
    pub kind: String,
    pub primary_key: PrimaryKey,
    /// The row that ours holds, column by column, where it is available.
    pub ours: Vec<String>,
    /// The incoming row from theirs, column by column, where it is available.
    pub theirs: Vec<String>,
}

/// The texts of a [`RowConflict`].
#[verifier::ext_equal]
pub struct ConflictModel {
    pub table: Seq<char>,
    pub kind: Seq<char>,
    pub primary_key: Seq<Seq<char>>,
    pub ours: Seq<Seq<char>>,
    pub theirs: Seq<Seq<char>>,
}

impl View for RowConflict {
    type V = ConflictModel;

    open spec fn view(&self) -> ConflictModel {
        ConflictModel {
            table: self.table@,
            kind: self.kind@,
            primary_key: self.primary_key@,
            ours: texts(self.ours@),
            theirs: texts(self.theirs@),
        }
    }
}

/// A schema object whose definition differs between the two sides.
#[derive(Debug, Clone)]
pub struct SchemaDivergence {
    pub object: String,
    pub ours: Option<String>,
    pub theirs: Option<String>,
}

/// The texts of a [`SchemaDivergence`].
#[verifier::ext_equal]
pub struct DivergenceModel {
    pub object: Seq<char>,
    pub ours: Option<Seq<char>>,
    pub theirs: Option<Seq<char>>,
}

/// The text of an optional string.
pub open spec fn optional_text(text: Option<String>) -> Option<Seq<char>> {
    match text {
        Some(t) => Some(t@),
        None => None,
    }
}

impl View for SchemaDivergence {
    type V = DivergenceModel;

    open spec fn view(&self) -> DivergenceModel {
        DivergenceModel {
            object: self.object@,
            ours: optional_text(self.ours),
            theirs: optional_text(self.theirs),
        }
    }
}

/// Everything that can make a merge refuse.
#[derive(Debug, Clone)]
pub enum MergeError {
    /// A database could not be opened, read or written; holds SQLite's message.
    Sqlite(String),
    /// The schema differs between ours and theirs; DDL is never merged.
    SchemaDiverged(Vec<SchemaDivergence>),
    /// Ours and theirs agree, but the schema of the merge base differs from theirs.
    BaseSchemaDiverged(Vec<String>),
    /// Some user tables lack an explicit `PRIMARY KEY`. The session extension
    /// skips such tables silently, which would lose their changes.
    MissingPrimaryKey(Vec<String>),
    /// Rows were left in conflict.
    Conflicts(Vec<RowConflict>),
    /// `PRAGMA integrity_check` reported corruption after the apply.
    IntegrityCheckFailed(Vec<String>),
    /// `PRAGMA foreign_key_check` reported violations after the apply.
    ForeignKeyCheckFailed(Vec<String>),
}

/// The texts of a [`MergeError`].
#[verifier::ext_equal]
pub enum ErrorModel {
    Sqlite(Seq<char>),
    SchemaDiverged(Seq<DivergenceModel>),
    BaseSchemaDiverged(Seq<Seq<char>>),
    MissingPrimaryKey(Seq<Seq<char>>),
    Conflicts(Seq<ConflictModel>),
    IntegrityCheckFailed(Seq<Seq<char>>),
    ForeignKeyCheckFailed(Seq<Seq<char>>),
}

/// The texts of several conflicts.
pub open spec fn conflict_models(conflicts: Seq<RowConflict>) -> Seq<ConflictModel> {
    Seq::new(conflicts.len(), |i: int| conflicts[i]@)
}

/// The texts of several divergences.
pub open spec fn divergence_models(divergences: Seq<SchemaDivergence>) -> Seq<DivergenceModel> {
    Seq::new(divergences.len(), |i: int| divergences[i]@)
}

impl View for MergeError {
    type V = ErrorModel;

    open spec fn view(&self) -> ErrorModel {
        match *self {
            MergeError::Sqlite(message) => ErrorModel::Sqlite(message@),
            MergeError::SchemaDiverged(objects) => ErrorModel::SchemaDiverged(
                divergence_models(objects@),
            ),
            MergeError::BaseSchemaDiverged(objects) => ErrorModel::BaseSchemaDiverged(
                texts(objects@),
            ),
            MergeError::MissingPrimaryKey(tables) => ErrorModel::MissingPrimaryKey(texts(tables@)),
            MergeError::Conflicts(conflicts) => ErrorModel::Conflicts(conflict_models(conflicts@)),
            MergeError::IntegrityCheckFailed(rows) => ErrorModel::IntegrityCheckFailed(
                texts(rows@),
            ),
            MergeError::ForeignKeyCheckFailed(rows) => ErrorModel::ForeignKeyCheckFailed(
                texts(rows@),
            ),
        }
    }
}

/// A primary key as it is shown: its columns in parentheses.
pub open spec fn key_text(key: Seq<Seq<char>>) -> Seq<char> {
    "("@ + joined(key, ", "@) + ")"@
}

/// A row conflict as it is shown.
pub open spec fn conflict_text(c: ConflictModel) -> Seq<char> {
    "table "@ + c.table + " pk "@ + key_text(c.primary_key) + " ["@ + c.kind + "]: ours=["@
        + joined(c.ours, ", "@) + "] theirs=["@ + joined(c.theirs, ", "@) + "]"@
}

/// A definition as it is shown, where there is one.
pub open spec fn definition_text(sql: Option<Seq<char>>) -> Seq<char> {
    match sql {
        Some(text) => text,
        None => "<absent>"@,
    }
}

/// A schema divergence as it is shown.
pub open spec fn divergence_text(d: DivergenceModel) -> Seq<char> {
    d.object + "\n      ours:   "@ + definition_text(d.ours) + "\n      theirs: "@
        + definition_text(d.theirs)
}

/// The items as a list, each on a line of its own.
pub open spec fn listed(items: Seq<Seq<char>>) -> Seq<char>
    decreases items.len(),
{
    if items.len() == 0 {
        Seq::empty()
    } else {
        listed(items.drop_last()) + "  - "@ + items.last() + "\n"@
    }
}

/// The message of an error.
pub open spec fn error_text(e: ErrorModel) -> Seq<char> {
    match e {
        ErrorModel::Sqlite(message) => "sqlite error: "@ + message,
        ErrorModel::SchemaDiverged(objects) =>
            "refusing to merge: schema (sqlite_schema) diverges between the two sides.\n"@
            + "sqlmerge merges data (rows), never DDL. Resolve the schema by hand first.\n"@
            + "diverging objects:\n"@ + listed(
            Seq::new(objects.len(), |i: int| divergence_text(objects[i])),
        ),
        ErrorModel::BaseSchemaDiverged(objects) =>
            "refusing to merge: the merge base's schema differs from the two sides (did both sides apply the same DDL migration?).\n"@
            + "sqlmerge merges data (rows), never DDL; the session diff needs all three versions to share a schema.\n"@
            + "objects that changed since base:\n"@ + listed(objects),
        ErrorModel::MissingPrimaryKey(tables) => "refusing to merge: "@ + decimal(
            tables.len() as int,
        ) + " table(s) lack an explicit PRIMARY KEY.\n"@
            + "the SQLite session extension silently skips PK-less tables, which would be silent data loss.\n"@
            + "tables:\n"@ + listed(tables),
        ErrorModel::Conflicts(conflicts) => "merge conflict: "@ + decimal(conflicts.len() as int)
            + " row(s) could not be merged automatically.\n"@ + listed(
            Seq::new(conflicts.len(), |i: int| conflict_text(conflicts[i])),
        ),
        ErrorModel::IntegrityCheckFailed(rows) => "post-merge PRAGMA integrity_check failed:\n"@
            + listed(rows),
        ErrorModel::ForeignKeyCheckFailed(rows) =>
            "post-merge PRAGMA foreign_key_check found violations:\n"@ + listed(rows),
    }
}

/// A list shows every one of its items in full: item `k` stands at the returned
/// position.
pub proof fn list_shows_every_item(items: Seq<Seq<char>>, k: int) -> (at: int)
    requires
        0 <= k < items.len(),
    ensures
        0 <= at <= listed(items).len() - items[k].len(),
        listed(items).subrange(at, at + items[k].len()) == items[k],
    decreases items.len(),
{
    let before = listed(items.drop_last());
    if k == items.len() - 1 {
        let at = (before + "  - "@).len() as int;
        assert(listed(items).subrange(at, at + items[k].len()) =~= items[k]);
        at
    } else {
        let at = list_shows_every_item(items.drop_last(), k);
        assert(listed(items).subrange(at, at + items[k].len()) =~= before.subrange(
            at,
            at + items[k].len(),
        ));
        at
    }
}

impl PrimaryKey {
    /// The key as it is shown: its columns in parentheses.
    pub fn display(&self) -> (text: String)
        ensures
            text@ == key_text(self@),
    {
        let mut text = String::new();
        text.append("(");
        text.append(join(&self.0, ", ").as_str());
        text.append(")");
        assert(text@ =~= key_text(self@));
        text
    }
}

impl RowConflict {
    /// The conflict as it is shown: table, key, kind, and the values of both sides.
    pub fn display(&self) -> (text: String)
        ensures
            text@ == conflict_text(self@),
    {
        let mut text = String::new();
        text.append("table ");
        text.append(self.table.as_str());
        text.append(" pk ");
        text.append(self.primary_key.display().as_str());
        text.append(" [");
        text.append(self.kind.as_str());
        text.append("]: ours=[");
        text.append(join(&self.ours, ", ").as_str());
        text.append("] theirs=[");
        text.append(join(&self.theirs, ", ").as_str());
        text.append("]");
        assert(text@ =~= conflict_text(self@));
        text
    }
}

impl SchemaDivergence {
    /// The divergence as it is shown: the object and its definition on either side.
    pub fn display(&self) -> (text: String)
        ensures
            text@ == divergence_text(self@),
    {
        let mut text = String::new();
        text.append(self.object.as_str());
        text.append("\n      ours:   ");
        match &self.ours {
            Some(sql) => text.append(sql.as_str()),
            None => text.append("<absent>"),
        }
        text.append("\n      theirs: ");
        match &self.theirs {
            Some(sql) => text.append(sql.as_str()),
            None => text.append("<absent>"),
        }
        assert(text@ =~= divergence_text(self@));
        text
    }
}

/// Appends one item of a list.
fn append_item(text: &mut String, item: &str)
    ensures
        final(text)@ == old(text)@ + ("  - "@ + item@ + "\n"@),
{
    text.append("  - ");
    text.append(item);
    text.append("\n");
    assert(text@ =~= old(text)@ + ("  - "@ + item@ + "\n"@));
}

/// Appends a list of items.
fn append_list(text: &mut String, items: &Vec<String>)
    ensures
        final(text)@ == old(text)@ + listed(texts(items@)),
{
    let ghost all = texts(items@);
    let mut i: usize = 0;
    while i < items.len()
        invariant
            i <= items.len(),
            all == texts(items@),
            text@ == old(text)@ + listed(all.take(i as int)),
        decreases items.len() - i,
    {
        assert(all.take(i + 1).drop_last() == all.take(i as int));
        append_item(text, items[i].as_str());
        i = i + 1;
        assert(text@ =~= old(text)@ + listed(all.take(i as int)));
    }
    assert(all.take(i as int) == all);
}

impl MergeError {
    /// The message of the error. It is one line for a failure of SQLite, and
    /// several lines, each ended by a line feed, for a refusal.
    pub fn display(&self) -> (text: String)
        ensures
            text@ == error_text(self@),
    {
        let mut text = String::new();
        match self {
            MergeError::Sqlite(message) => {
                text.append("sqlite error: ");
                text.append(message.as_str());
            },
            MergeError::SchemaDiverged(objects) => {
                let mut items: Vec<String> = Vec::new();
                let mut i: usize = 0;
                while i < objects.len()
                    invariant
                        i <= objects.len(),
                        items.len() == i,
                        forall|j: int|
                            0 <= j < i ==> (#[trigger] items[j])@ == divergence_text(objects[j]@),
                    decreases objects.len() - i,
                {
                    items.push(objects[i].display());
                    i = i + 1;
                }
                text.append(
                    "refusing to merge: schema (sqlite_schema) diverges between the two sides.\n",
                );
                text.append(
                    "sqlmerge merges data (rows), never DDL. Resolve the schema by hand first.\n",
                );
                text.append("diverging objects:\n");
                append_list(&mut text, &items);
                proof {
                    let models = divergence_models(objects@);
                    assert(texts(items@) =~= Seq::new(
                        models.len(),
                        |i: int| divergence_text(models[i]),
                    ));
                }
            },
            MergeError::BaseSchemaDiverged(objects) => {
                text.append(
                    "refusing to merge: the merge base's schema differs from the two sides (did both sides apply the same DDL migration?).\n",
                );
                text.append(
                    "sqlmerge merges data (rows), never DDL; the session diff needs all three versions to share a schema.\n",
                );
                text.append("objects that changed since base:\n");
                append_list(&mut text, objects);
            },
            MergeError::MissingPrimaryKey(tables) => {
                text.append("refusing to merge: ");
                text.append(length_text(tables.len()).as_str());
                text.append(" table(s) lack an explicit PRIMARY KEY.\n");
                text.append(
                    "the SQLite session extension silently skips PK-less tables, which would be silent data loss.\n",
                );
                text.append("tables:\n");
                append_list(&mut text, tables);
            },
            MergeError::Conflicts(conflicts) => {
                let mut items: Vec<String> = Vec::new();
                let mut i: usize = 0;
                while i < conflicts.len()
                    invariant
                        i <= conflicts.len(),
                        items.len() == i,
                        forall|j: int|
                            0 <= j < i ==> (#[trigger] items[j])@ == conflict_text(conflicts[j]@),
                    decreases conflicts.len() - i,
                {
                    items.push(conflicts[i].display());
                    i = i + 1;
                }
                text.append("merge conflict: ");
                text.append(length_text(conflicts.len()).as_str());
                text.append(" row(s) could not be merged automatically.\n");
                append_list(&mut text, &items);
                proof {
                    let models = conflict_models(conflicts@);
                    assert(texts(items@) =~= Seq::new(
                        models.len(),
                        |i: int| conflict_text(models[i]),
                    ));
                }
            },
            MergeError::IntegrityCheckFailed(rows) => {
                text.append("post-merge PRAGMA integrity_check failed:\n");
                append_list(&mut text, rows);
            },
            MergeError::ForeignKeyCheckFailed(rows) => {
                text.append("post-merge PRAGMA foreign_key_check found violations:\n");
                append_list(&mut text, rows);
            },
        }
        assert(text@ =~= error_text(self@));
        text
    }
}

/// The view of a report shows every field of it: the texts of its strings, one for each.
pub proof fn reports_are_viewed_in_full(c: RowConflict, d: SchemaDivergence)
    ensures
        c@.table == c.table@,
        c@.kind == c.kind@,
        c@.primary_key.len() == c.primary_key.0@.len(),
        forall|i: int|
            0 <= i < c.primary_key.0@.len() ==> #[trigger] c@.primary_key[i]
                == c.primary_key.0@[i]@,
        c@.ours.len() == c.ours@.len(),
        forall|i: int| 0 <= i < c.ours@.len() ==> #[trigger] c@.ours[i] == c.ours@[i]@,
        c@.theirs.len() == c.theirs@.len(),
        forall|i: int| 0 <= i < c.theirs@.len() ==> #[trigger] c@.theirs[i] == c.theirs@[i]@,
        d@.object == d.object@,
        d@.ours is Some <==> d.ours is Some,
        d.ours matches Some(sql) ==> d@.ours == Some(sql@),
        d@.theirs is Some <==> d.theirs is Some,
        d.theirs matches Some(sql) ==> d@.theirs == Some(sql@),
{
}

/// The strings and the texts are as many, and each text is that of its string.
pub open spec fn are_texts_of(found: Seq<Seq<char>>, strings: Seq<String>) -> bool {
    &&& found.len() == strings.len()
    &&& forall|i: int| 0 <= i < strings.len() ==> #[trigger] found[i] == strings[i]@
}

/// The view of an error shows what it holds, all of it and in its order.
pub proof fn errors_are_viewed_in_full(e: MergeError)
    ensures
        e matches MergeError::Sqlite(message) ==> e@ == ErrorModel::Sqlite(message@),
        e matches MergeError::SchemaDiverged(list) ==> (e@ matches ErrorModel::SchemaDiverged(
            found,
        ) && found.len() == list@.len() && forall|i: int|
            0 <= i < list@.len() ==> #[trigger] found[i] == list@[i]@),
        e matches MergeError::Conflicts(list) ==> (e@ matches ErrorModel::Conflicts(found)
            && found.len() == list@.len() && forall|i: int|
            0 <= i < list@.len() ==> #[trigger] found[i] == list@[i]@),
        e matches MergeError::BaseSchemaDiverged(list) ==> (e@ matches ErrorModel::BaseSchemaDiverged(
            found,
        ) && are_texts_of(found, list@)),
        e matches MergeError::MissingPrimaryKey(list) ==> (e@ matches ErrorModel::MissingPrimaryKey(
            found,
        ) && are_texts_of(found, list@)),
        e matches MergeError::IntegrityCheckFailed(list) ==> (
        e@ matches ErrorModel::IntegrityCheckFailed(found) && are_texts_of(found, list@)),
        e matches MergeError::ForeignKeyCheckFailed(list) ==> (
        e@ matches ErrorModel::ForeignKeyCheckFailed(found) && are_texts_of(found, list@)),
{
}

/// The lines of a list lie one behind the other, from its beginning to its end: line `i`
/// begins at `at[i]`, and holds two spaces, a dash, a space, item `i`, and a line feed.
pub proof fn list_lines_lie_behind_each_other(items: Seq<Seq<char>>) -> (at: Seq<int>)
    ensures
        at.len() == items.len() + 1,
        at[0] == 0,
        at.last() == listed(items).len(),
        forall|i: int|
            0 <= i < items.len() ==> 0 <= (#[trigger] at[i]) <= at[i + 1] <= listed(items).len()
                && listed(items).subrange(at[i], at[i + 1]) == seq![' ', ' ', '-', ' '] + items[i]
                + seq!['\n'],
    decreases items.len(),
{
    if items.len() == 0 {
        seq![0int]
    } else {
        reveal_strlit("  - ");
        reveal_strlit("\n");
        let before = items.drop_last();
        let head = listed(before);
        let earlier = list_lines_lie_behind_each_other(before);
        let at = earlier.push(listed(items).len() as int);
        assert forall|i: int| 0 <= i < items.len() implies 0 <= (#[trigger] at[i]) <= at[i + 1]
            <= listed(items).len() && listed(items).subrange(at[i], at[i + 1]) == seq![
            ' ',
            ' ',
            '-',
            ' ',
        ] + items[i] + seq!['\n'] by {
            assert(at[i] == earlier[i]);
            if i < before.len() {
                assert(at[i + 1] == earlier[i + 1]);
                assert(before[i] == items[i]);
                assert(listed(items).subrange(at[i], at[i + 1]) =~= head.subrange(
                    at[i],
                    at[i + 1],
                ));
            } else {
                assert(earlier.last() == earlier[i]);
                assert(listed(items).subrange(at[i], at[i + 1]) =~= seq![' ', ' ', '-', ' ']
                    + items[i] + seq!['\n']);
            }
        }
        at
    }
}

/// The message of a refusal says why it refuses, and ends in a list of all that it holds,
/// one line for each and in their order. A message that counts them counts them all.
pub proof fn messages_list_all_that_they_hold(
    message: Seq<char>,
    conflicts: Seq<ConflictModel>,
    objects: Seq<DivergenceModel>,
    items: Seq<Seq<char>>,
    lines: Seq<Seq<char>>,
)
    ensures
        error_text(ErrorModel::Sqlite(message)) == "sqlite error: "@ + message,
        lines.len() == conflicts.len() && (forall|i: int|
            0 <= i < lines.len() ==> #[trigger] lines[i] == conflict_text(conflicts[i]))
            ==> error_text(ErrorModel::Conflicts(conflicts)) == "merge conflict: "@ + decimal(
            conflicts.len() as int,
        ) + " row(s) could not be merged automatically.\n"@ + listed(lines),
        lines.len() == objects.len() && (forall|i: int|
            0 <= i < lines.len() ==> #[trigger] lines[i] == divergence_text(objects[i]))
            ==> error_text(ErrorModel::SchemaDiverged(objects))
            == "refusing to merge: schema (sqlite_schema) diverges between the two sides.\n"@
            + "sqlmerge merges data (rows), never DDL. Resolve the schema by hand first.\n"@
            + "diverging objects:\n"@ + listed(lines),
        error_text(ErrorModel::BaseSchemaDiverged(items))
            == "refusing to merge: the merge base's schema differs from the two sides (did both sides apply the same DDL migration?).\n"@
            + "sqlmerge merges data (rows), never DDL; the session diff needs all three versions to share a schema.\n"@
            + "objects that changed since base:\n"@ + listed(items),
        error_text(ErrorModel::MissingPrimaryKey(items)) == "refusing to merge: "@ + decimal(
            items.len() as int,
        ) + " table(s) lack an explicit PRIMARY KEY.\n"@
            + "the SQLite session extension silently skips PK-less tables, which would be silent data loss.\n"@
            + "tables:\n"@ + listed(items),
        error_text(ErrorModel::IntegrityCheckFailed(items))
            == "post-merge PRAGMA integrity_check failed:\n"@ + listed(items),
        error_text(ErrorModel::ForeignKeyCheckFailed(items))
            == "post-merge PRAGMA foreign_key_check found violations:\n"@ + listed(items),
{
    if lines.len() == conflicts.len() && forall|i: int|
        0 <= i < lines.len() ==> #[trigger] lines[i] == conflict_text(conflicts[i]) {
        assert(Seq::new(conflicts.len(), |i: int| conflict_text(conflicts[i])) =~= lines);
    }
    if lines.len() == objects.len() && forall|i: int|
        0 <= i < lines.len() ==> #[trigger] lines[i] == divergence_text(objects[i]) {
        assert(Seq::new(objects.len(), |i: int| divergence_text(objects[i])) =~= lines);
    }
}

/// A report shows the table, the key, the kind, and the values of both sides, each under
/// its own label.
pub proof fn reports_show_all_that_they_hold(c: ConflictModel, d: DivergenceModel)
    ensures
        key_text(c.primary_key) == seq!['('] + joined(c.primary_key, seq![',', ' ']) + seq![')'],
        conflict_text(c) == "table "@ + c.table + " pk "@ + key_text(c.primary_key) + " ["@ + c.kind
            + "]: ours=["@ + joined(c.ours, seq![',', ' ']) + "] theirs=["@ + joined(
            c.theirs,
            seq![',', ' '],
        ) + "]"@,
        d.ours is None && d.theirs is None ==> divergence_text(d) == d.object
            + "\n      ours:   <absent>"@ + "\n      theirs: <absent>"@,
        d.ours matches Some(ours) ==> (d.theirs matches Some(theirs) ==> divergence_text(d)
            == d.object + "\n      ours:   "@ + ours + "\n      theirs: "@ + theirs),
        d.ours is None ==> (d.theirs matches Some(theirs) ==> divergence_text(d) == d.object
            + "\n      ours:   <absent>"@ + "\n      theirs: "@ + theirs),
        d.theirs is None ==> (d.ours matches Some(ours) ==> divergence_text(d) == d.object
            + "\n      ours:   "@ + ours + "\n      theirs: <absent>"@),
{
    reveal_strlit(", ");
    reveal_strlit("(");
    reveal_strlit(")");
    reveal_strlit("<absent>");
    reveal_strlit("\n      ours:   ");
    reveal_strlit("\n      theirs: ");
    reveal_strlit("\n      ours:   <absent>");
    reveal_strlit("\n      theirs: <absent>");
    assert(", "@ =~= seq![',', ' ']);
    assert("("@ =~= seq!['(']);
    assert(")"@ =~= seq![')']);
    assert("\n      ours:   "@ + "<absent>"@ =~= "\n      ours:   <absent>"@);
    assert("\n      theirs: "@ + "<absent>"@ =~= "\n      theirs: <absent>"@);
    if d.ours is None && d.theirs is None {
        assert(divergence_text(d) =~= d.object + "\n      ours:   <absent>"@
            + "\n      theirs: <absent>"@);
    }
    if d.ours is None && d.theirs is Some {
        assert(divergence_text(d) =~= d.object + "\n      ours:   <absent>"@
            + "\n      theirs: "@ + d.theirs->0);
    }
    if d.theirs is None && d.ours is Some {
        assert(divergence_text(d) =~= d.object + "\n      ours:   "@ + d.ours->0
            + "\n      theirs: <absent>"@);
    }
}

} // verus!
