//! What the sweeps over the merged database report.
use vstd::prelude::*;

use crate::error::{ErrorModel, MergeError};
use crate::text::{decimal, integer_text, same_text, texts};

verus! {

/// Reports one row `ok`, or one row per problem.
pub const INTEGRITY_CHECK_SQL: &'static str = "PRAGMA integrity_check";

/// Reports one row per foreign-key violation.
pub const FOREIGN_KEY_CHECK_SQL: &'static str = "PRAGMA foreign_key_check";

/// A row whose foreign key refers to no row.
#[derive(Debug, Clone)]
pub struct ForeignKeyViolation {
    pub table: String,
    /// The row, where its table has row identifiers.
    pub rowid: Option<i64>,
    /// The table that the key refers to.
    pub parent: String,
    /// Which of the table's foreign keys it is.
    pub fkid: i64,
}

/// The texts and numbers of a [`ForeignKeyViolation`].
pub struct ViolationModel {
    pub table: Seq<char>,
    pub rowid: Option<i64>,
    pub parent: Seq<char>,
    pub fkid: i64,
}

impl View for ForeignKeyViolation {
    type V = ViolationModel;

    open spec fn view(&self) -> ViolationModel {
        ViolationModel {
            table: self.table@,
            rowid: self.rowid,
            parent: self.parent@,
            fkid: self.fkid,
        }
    }
}

/// The texts and numbers of several violations.
pub open spec fn violation_models(rows: Seq<ForeignKeyViolation>) -> Seq<ViolationModel> {
    Seq::new(rows.len(), |i: int| rows[i]@)
}

/// A violation as it is reported.
pub open spec fn violation_text(v: ViolationModel) -> Seq<char> {
    "table "@ + v.table + " rowid "@ + (match v.rowid {
        Some(n) => decimal(n as int),
        None => "?"@,
    }) + " violates FK #"@ + decimal(v.fkid as int) + " -> "@ + v.parent
}

/// Several violations as they are reported.
pub open spec fn violation_texts(rows: Seq<ViolationModel>) -> Seq<Seq<char>> {
    Seq::new(rows.len(), |i: int| violation_text(rows[i]))
}

impl ForeignKeyViolation {
    /// The violation as it is reported.
    pub fn display(&self) -> (text: String)
        ensures
            text@ == violation_text(self@),
    {
        let mut text = String::new();
        text.append("table ");
        text.append(self.table.as_str());
        text.append(" rowid ");
        match self.rowid {
            Some(n) => text.append(integer_text(n).as_str()),
            None => text.append("?"),
        }
        text.append(" violates FK #");
        text.append(integer_text(self.fkid).as_str());
        text.append(" -> ");
        text.append(self.parent.as_str());
        assert(text@ =~= violation_text(self@));
        text
    }
}

/// Refuses unless the integrity check reported the single row `ok`.
pub fn assert_integrity(rows: Vec<String>) -> (r: Result<(), MergeError>)
    ensures
        r is Ok <==> texts(rows@) == seq!["ok"@],
        r matches Err(e) ==> e@ == ErrorModel::IntegrityCheckFailed(texts(rows@)),
{
    if rows.len() == 1 && same_text(rows[0].as_str(), "ok") {
        assert(texts(rows@) =~= seq!["ok"@]);
        Ok(())
    } else {
        proof {
            if texts(rows@) == seq!["ok"@] {
                assert(texts(rows@).len() == 1);
                assert(texts(rows@)[0] == "ok"@);
            }
        }
        Err(MergeError::IntegrityCheckFailed(rows))
    }
}

/// Refuses unless the foreign-key check reported nothing, with a line per violation.
pub fn assert_foreign_keys(rows: &Vec<ForeignKeyViolation>) -> (r: Result<(), MergeError>)
    ensures
        r is Ok <==> rows.len() == 0,
        r matches Err(e) ==> e@ == ErrorModel::ForeignKeyCheckFailed(
            violation_texts(violation_models(rows@)),
        ),
{
    if rows.len() == 0 {
        return Ok(());
    }
    let mut lines: Vec<String> = Vec::new();
    let mut i: usize = 0;
    while i < rows.len()
        invariant
            i <= rows.len(),
            lines.len() == i,
            forall|j: int| 0 <= j < i ==> (#[trigger] lines[j])@ == violation_text(rows[j]@),
        decreases rows.len() - i,
    {
        lines.push(rows[i].display());
        i = i + 1;
    }
    assert(texts(lines@) =~= violation_texts(violation_models(rows@)));
    Err(MergeError::ForeignKeyCheckFailed(lines))
}

/// A reported violation shows its table, its row, which foreign key it is, and the table
/// that the key refers to, and the view of it leaves nothing out.
pub proof fn violations_show_all_that_they_hold(v: ForeignKeyViolation)
    ensures
        v.rowid matches Some(n) ==> violation_text(v@) == "table "@ + v.table@ + " rowid "@
            + decimal(n as int) + " violates FK #"@ + decimal(v.fkid as int) + " -> "@ + v.parent@,
        v.rowid is None ==> violation_text(v@) == "table "@ + v.table@ + " rowid ?"@
            + " violates FK #"@ + decimal(v.fkid as int) + " -> "@ + v.parent@,
{
    reveal_strlit(" rowid ");
    reveal_strlit("?");
    reveal_strlit(" rowid ?");
    assert(" rowid "@ + "?"@ =~= " rowid ?"@);
    if v.rowid is None {
        assert(violation_text(v@) =~= "table "@ + v.table@ + " rowid ?"@ + " violates FK #"@
            + decimal(v.fkid as int) + " -> "@ + v.parent@);
    }
}

/// Every violation is reported, in their order.
pub proof fn every_violation_is_reported(rows: Seq<ForeignKeyViolation>)
    ensures
        violation_texts(violation_models(rows)).len() == rows.len(),
        forall|i: int|
            0 <= i < rows.len() ==> #[trigger] violation_texts(violation_models(rows))[i]
                == violation_text(rows[i]@),
{
}

/// The two sweeps are SQLite's checks of integrity and of foreign keys.
pub proof fn sweeps_are_the_pragmas_of_sqlite()
    ensures
        INTEGRITY_CHECK_SQL@ == "PRAGMA integrity_check"@,
        FOREIGN_KEY_CHECK_SQL@ == "PRAGMA foreign_key_check"@,
{
}

} // verus!
