//! A merge as a conversation: what has to be done next, and what becomes of the
//! merge once it has been done.
//!
//! The changeset from base to theirs is applied onto ours. Before that, three gates
//! have to be passed: ours and theirs share their schema, base shares it too, and
//! every user table has a primary key; and the rows that the changeset updates are
//! compared with those of ours. After it, the merged database is checked. The driver
//! of the conversation holds the databases; it does what [`MergeRun::request`] asks
//! for, hands the outcome to [`MergeRun::answer`], shows the rows to compare to
//! [`MergeRun::on_change`], and while a changeset is applied asks
//! [`MergeRun::on_conflict`] about each conflict.
use vstd::prelude::*;

use crate::checks::{
    assert_foreign_keys, assert_integrity, violation_models, violation_texts, ForeignKeyViolation,
    ViolationModel,
};
use crate::config::PolicyConfig;
use crate::error::{conflict_models, ConflictModel, ErrorModel, MergeError, RowConflict};
use crate::merge::{
    answer, compare_change, handle_conflict, report, stays_in_conflict, ConflictAction,
    ConflictItem, ConflictPolicy, ConflictType,
};
use crate::schema::{
    assert_all_tables_have_primary_key, assert_base_schema_matches, assert_schema_matches,
    divergences, diverging_names, key_models, keyless, keyless_is_empty_when_all_have_keys,
    objects, row_models, same_schema, RowModel, SchemaRow, TableKeys,
};
use crate::sql::{literal, quote_string_literal};
use crate::text::texts;

verus! {

/// One of the three databases.
#[derive(Debug, Clone, Copy, PartialEq, Eq, Structural)]
pub enum Side {
    /// The common ancestor.
    Base,
    /// Our version, which receives the result.
    Ours,
    /// Their version.
    Theirs,
}

/// What has to be done next.
#[derive(Debug, Clone)]
pub enum Request {
    /// Open the database at a path.
    Open { side: Side, path: String },
    /// Close a database.
    Close { side: Side },
    /// Run [`crate::schema::SCHEMA_OBJECTS_SQL`].
    ReadSchema { side: Side },
    /// Run [`crate::schema::USER_TABLES_SQL`].
    ListTables { side: Side },
    /// Run [`crate::schema::KEY_COLUMNS_SQL`] for a table.
    CountKeyColumns { side: Side, table: String },
    /// Execute a statement.
    Execute { side: Side, sql: String },
    /// Begin a session on theirs.
    BeginSession,
    /// Record in the session how a table differs from the one in the attached base.
    Diff { table: String },
    /// Take the changeset of the session and end the session.
    TakeChangeset,
    /// Hand each update of the changeset to [`MergeRun::on_change`], with the rows that
    /// base, ours and theirs hold under its key.
    CompareRows,
    /// Apply the changeset to ours.
    Apply,
    /// Run [`crate::checks::INTEGRITY_CHECK_SQL`] on ours.
    CheckIntegrity,
    /// Run [`crate::checks::FOREIGN_KEY_CHECK_SQL`] on ours.
    CheckForeignKeys,
    /// Nothing: the merge has ended.
    Finish,
}

/// The outcome of what was done.
#[derive(Debug, Clone)]
pub enum Reply {
    /// It succeeded.
    Done,
    /// The schema objects of a database.
    Schema(Vec<SchemaRow>),
    /// The user tables of a database.
    Tables(Vec<String>),
    /// The number of key columns of a table.
    KeyColumns(i64),
    /// What the integrity check reported.
    Integrity(Vec<String>),
    /// What the foreign-key check reported.
    ForeignKeys(Vec<ForeignKeyViolation>),
    /// It failed; holds SQLite's message.
    Failed(String),
}

/// The texts of a [`Request`].
#[verifier::ext_equal]
pub enum RequestModel {
    Open { side: Side, path: Seq<char> },
    Close { side: Side },
    ReadSchema { side: Side },
    ListTables { side: Side },
    CountKeyColumns { side: Side, table: Seq<char> },
    Execute { side: Side, sql: Seq<char> },
    BeginSession,
    Diff { table: Seq<char> },
    TakeChangeset,
    CompareRows,
    Apply,
    CheckIntegrity,
    CheckForeignKeys,
    Finish,
}

impl View for Request {
    type V = RequestModel;

    open spec fn view(&self) -> RequestModel {
        match *self {
            Request::Open { side, path } => RequestModel::Open { side, path: path@ },
            Request::Close { side } => RequestModel::Close { side },
            Request::ReadSchema { side } => RequestModel::ReadSchema { side },
            Request::ListTables { side } => RequestModel::ListTables { side },
            Request::CountKeyColumns { side, table } => RequestModel::CountKeyColumns {
                side,
                table: table@,
            },
            Request::Execute { side, sql } => RequestModel::Execute { side, sql: sql@ },
            Request::BeginSession => RequestModel::BeginSession,
            Request::Diff { table } => RequestModel::Diff { table: table@ },
            Request::TakeChangeset => RequestModel::TakeChangeset,
            Request::CompareRows => RequestModel::CompareRows,
            Request::Apply => RequestModel::Apply,
            Request::CheckIntegrity => RequestModel::CheckIntegrity,
            Request::CheckForeignKeys => RequestModel::CheckForeignKeys,
            Request::Finish => RequestModel::Finish,
        }
    }
}

/// The texts of a [`Reply`].
#[verifier::ext_equal]
pub enum ReplyModel {
    Done,
    Schema(Seq<RowModel>),
    Tables(Seq<Seq<char>>),
    KeyColumns(int),
    Integrity(Seq<Seq<char>>),
    ForeignKeys(Seq<ViolationModel>),
    Failed(Seq<char>),
}

impl View for Reply {
    type V = ReplyModel;

    open spec fn view(&self) -> ReplyModel {
        match *self {
            Reply::Done => ReplyModel::Done,
            Reply::Schema(rows) => ReplyModel::Schema(row_models(rows@)),
            Reply::Tables(tables) => ReplyModel::Tables(texts(tables@)),
            Reply::KeyColumns(n) => ReplyModel::KeyColumns(n as int),
            Reply::Integrity(rows) => ReplyModel::Integrity(texts(rows@)),
            Reply::ForeignKeys(rows) => ReplyModel::ForeignKeys(violation_models(rows@)),
            Reply::Failed(message) => ReplyModel::Failed(message@),
        }
    }
}

/// How far a merge has come.
enum Phase {
    OpenTheirs,
    OpenOurs,
    OursSchema,
    TheirsSchema { ours: Vec<SchemaRow> },
    OpenBase,
    BaseSchema,
    SideSchema { base: Vec<SchemaRow> },
    CloseBase,
    Tables { side: Side },
    Keys { side: Side, tables: Vec<String>, counted: Vec<TableKeys> },
    Attach,
    Session,
    DiffTables,
    Diff { tables: Vec<String>, recorded: usize },
    Changeset,
    Compare { unresolved: Vec<RowConflict> },
    Detach,
    Apply { unresolved: Vec<RowConflict> },
    Integrity,
    ForeignKeys,
    Finished(Result<(), MergeError>),
}

/// How far a merge has come, with the texts it has gathered.
#[verifier::ext_equal]
pub enum PhaseModel {
    /// Theirs is to be opened.
    OpenTheirs,
    /// Ours is to be opened.
    OpenOurs,
    /// The schema of ours is to be read.
    OursSchema,
    /// The schema of theirs is to be read and compared with that of ours.
    TheirsSchema { ours: Seq<RowModel> },
    /// Base is to be opened.
    OpenBase,
    /// The schema of base is to be read.
    BaseSchema,
    /// The schema of theirs is to be read and compared with that of base.
    SideSchema { base: Seq<RowModel> },
    /// Base is to be closed.
    CloseBase,
    /// The user tables of a side are to be listed.
    Tables { side: Side },
    /// The key columns of the next table are to be counted.
    Keys { side: Side, tables: Seq<Seq<char>>, counted: Seq<(Seq<char>, int)> },
    /// Base is to be attached to theirs.
    Attach,
    /// A session is to be begun.
    Session,
    /// The tables to compare are to be listed.
    DiffTables,
    /// The differences in the next table are to be recorded.
    Diff { tables: Seq<Seq<char>>, recorded: int },
    /// The changeset is to be taken.
    Changeset,
    /// The rows of the changeset are to be compared; holds the reports on those in
    /// conflict.
    Compare { unresolved: Seq<ConflictModel> },
    /// Base is to be detached from theirs.
    Detach,
    /// The changeset is to be applied; holds the reports on unresolved conflicts.
    Apply { unresolved: Seq<ConflictModel> },
    /// The integrity of the merged database is to be checked.
    Integrity,
    /// The foreign keys of the merged database are to be checked.
    ForeignKeys,
    /// The merge has ended, cleanly or with a refusal.
    Finished(Result<(), ErrorModel>),
}

impl View for Phase {
    type V = PhaseModel;

    closed spec fn view(&self) -> PhaseModel {
        match *self {
            Phase::OpenTheirs => PhaseModel::OpenTheirs,
            Phase::OpenOurs => PhaseModel::OpenOurs,
            Phase::OursSchema => PhaseModel::OursSchema,
            Phase::TheirsSchema { ours } => PhaseModel::TheirsSchema { ours: row_models(ours@) },
            Phase::OpenBase => PhaseModel::OpenBase,
            Phase::BaseSchema => PhaseModel::BaseSchema,
            Phase::SideSchema { base } => PhaseModel::SideSchema { base: row_models(base@) },
            Phase::CloseBase => PhaseModel::CloseBase,
            Phase::Tables { side } => PhaseModel::Tables { side },
            Phase::Keys { side, tables, counted } => PhaseModel::Keys {
                side,
                tables: texts(tables@),
                counted: key_models(counted@),
            },
            Phase::Attach => PhaseModel::Attach,
            Phase::Session => PhaseModel::Session,
            Phase::DiffTables => PhaseModel::DiffTables,
            Phase::Diff { tables, recorded } => PhaseModel::Diff {
                tables: texts(tables@),
                recorded: recorded as int,
            },
            Phase::Changeset => PhaseModel::Changeset,
            Phase::Compare { unresolved } => PhaseModel::Compare {
                unresolved: conflict_models(unresolved@),
            },
            Phase::Detach => PhaseModel::Detach,
            Phase::Apply { unresolved } => PhaseModel::Apply {
                unresolved: conflict_models(unresolved@),
            },
            Phase::Integrity => PhaseModel::Integrity,
            Phase::ForeignKeys => PhaseModel::ForeignKeys,
            Phase::Finished(Ok(())) => PhaseModel::Finished(Ok(())),
            Phase::Finished(Err(e)) => PhaseModel::Finished(Err(e@)),
        }
    }
}

/// A merge in progress.
pub struct MergeRun {
    base_path: String,
    ours_path: String,
    theirs_path: String,
    policies: PolicyConfig,
    phase: Phase,
}

/// The texts of a [`MergeRun`].
#[verifier::ext_equal]
pub struct RunModel {
    pub base_path: Seq<char>,
    pub ours_path: Seq<char>,
    pub theirs_path: Seq<char>,
    pub policies: Seq<(Seq<char>, ConflictPolicy)>,
    pub phase: PhaseModel,
}

impl View for MergeRun {
    type V = RunModel;

    closed spec fn view(&self) -> RunModel {
        RunModel {
            base_path: self.base_path@,
            ours_path: self.ours_path@,
            theirs_path: self.theirs_path@,
            policies: self.policies@,
            phase: self.phase@,
        }
    }
}

/// A merge that is about to begin.
pub open spec fn begun(
    base_path: Seq<char>,
    ours_path: Seq<char>,
    theirs_path: Seq<char>,
    policies: Seq<(Seq<char>, ConflictPolicy)>,
) -> RunModel {
    RunModel { base_path, ours_path, theirs_path, policies, phase: PhaseModel::OpenTheirs }
}

/// The statement that attaches the database at a path under the name `base`.
pub open spec fn attach_sql(path: Seq<char>) -> Seq<char> {
    "ATTACH DATABASE "@ + literal(path) + " AS base"@
}

/// The statement that detaches it.
pub open spec fn detach_sql() -> Seq<char> {
    "DETACH DATABASE base"@
}

/// What a merge asks for.
pub open spec fn requested(run: RunModel) -> RequestModel {
    match run.phase {
        PhaseModel::OpenTheirs => RequestModel::Open { side: Side::Theirs, path: run.theirs_path },
        PhaseModel::OpenOurs => RequestModel::Open { side: Side::Ours, path: run.ours_path },
        PhaseModel::OursSchema => RequestModel::ReadSchema { side: Side::Ours },
        PhaseModel::TheirsSchema { .. } => RequestModel::ReadSchema { side: Side::Theirs },
        PhaseModel::OpenBase => RequestModel::Open { side: Side::Base, path: run.base_path },
        PhaseModel::BaseSchema => RequestModel::ReadSchema { side: Side::Base },
        PhaseModel::SideSchema { .. } => RequestModel::ReadSchema { side: Side::Theirs },
        PhaseModel::CloseBase => RequestModel::Close { side: Side::Base },
        PhaseModel::Tables { side } => RequestModel::ListTables { side },
        PhaseModel::Keys { side, tables, counted } => RequestModel::CountKeyColumns {
            side,
            table: tables[counted.len() as int],
        },
        PhaseModel::Attach => RequestModel::Execute {
            side: Side::Theirs,
            sql: attach_sql(run.base_path),
        },
        PhaseModel::Session => RequestModel::BeginSession,
        PhaseModel::DiffTables => RequestModel::ListTables { side: Side::Theirs },
        PhaseModel::Diff { tables, recorded } => RequestModel::Diff { table: tables[recorded] },
        PhaseModel::Changeset => RequestModel::TakeChangeset,
        PhaseModel::Compare { .. } => RequestModel::CompareRows,
        PhaseModel::Detach => RequestModel::Execute { side: Side::Theirs, sql: detach_sql() },
        PhaseModel::Apply { .. } => RequestModel::Apply,
        PhaseModel::Integrity => RequestModel::CheckIntegrity,
        PhaseModel::ForeignKeys => RequestModel::CheckForeignKeys,
        PhaseModel::Finished(_) => RequestModel::Finish,
    }
}

/// What follows when the key columns of some tables of a side have been counted: the
/// next table, a refusal that names the tables without a key, or the next side.
pub open spec fn after_count(
    side: Side,
    tables: Seq<Seq<char>>,
    counted: Seq<(Seq<char>, int)>,
) -> PhaseModel {
    if counted.len() < tables.len() {
        PhaseModel::Keys { side, tables, counted }
    } else if keyless(counted).len() > 0 {
        PhaseModel::Finished(Err(ErrorModel::MissingPrimaryKey(keyless(counted))))
    } else if side == Side::Ours {
        PhaseModel::Tables { side: Side::Theirs }
    } else {
        PhaseModel::Attach
    }
}

/// What follows when the differences in some tables have been recorded.
pub open spec fn after_diff(tables: Seq<Seq<char>>, recorded: int) -> PhaseModel {
    if recorded < tables.len() {
        PhaseModel::Diff { tables, recorded }
    } else {
        PhaseModel::Changeset
    }
}

/// What follows in a phase when what it asks for has failed: the reports on
/// unresolved conflicts say more than the failure of an aborted apply.
pub open spec fn after_failure(phase: PhaseModel, message: Seq<char>) -> PhaseModel {
    match phase {
        PhaseModel::Finished(_) => phase,
        PhaseModel::Apply { unresolved } if unresolved.len() > 0 => PhaseModel::Finished(
            Err(ErrorModel::Conflicts(unresolved)),
        ),
        _ => PhaseModel::Finished(Err(ErrorModel::Sqlite(message))),
    }
}

/// What follows in a phase on a reply. A reply that is none to what the phase asks
/// for changes nothing.
pub open spec fn after_reply(phase: PhaseModel, reply: ReplyModel) -> PhaseModel {
    match (phase, reply) {
        (_, ReplyModel::Failed(message)) => after_failure(phase, message),
        (PhaseModel::OpenTheirs, ReplyModel::Done) => PhaseModel::OpenOurs,
        (PhaseModel::OpenOurs, ReplyModel::Done) => PhaseModel::OursSchema,
        (PhaseModel::OursSchema, ReplyModel::Schema(ours)) => PhaseModel::TheirsSchema { ours },
        (PhaseModel::TheirsSchema { ours }, ReplyModel::Schema(theirs)) => if same_schema(
            objects(ours),
            objects(theirs),
        ) {
            PhaseModel::OpenBase
        } else {
            PhaseModel::Finished(
                Err(ErrorModel::SchemaDiverged(divergences(objects(ours), objects(theirs)))),
            )
        },
        (PhaseModel::OpenBase, ReplyModel::Done) => PhaseModel::BaseSchema,
        (PhaseModel::BaseSchema, ReplyModel::Schema(base)) => PhaseModel::SideSchema { base },
        (PhaseModel::SideSchema { base }, ReplyModel::Schema(side)) => if same_schema(
            objects(base),
            objects(side),
        ) {
            PhaseModel::CloseBase
        } else {
            PhaseModel::Finished(
                Err(
                    ErrorModel::BaseSchemaDiverged(
                        diverging_names(divergences(objects(base), objects(side))),
                    ),
                ),
            )
        },
        (PhaseModel::CloseBase, ReplyModel::Done) => PhaseModel::Tables { side: Side::Ours },
        (PhaseModel::Tables { side }, ReplyModel::Tables(tables)) => after_count(
            side,
            tables,
            Seq::empty(),
        ),
        (PhaseModel::Keys { side, tables, counted }, ReplyModel::KeyColumns(n)) => after_count(
            side,
            tables,
            counted.push((tables[counted.len() as int], n)),
        ),
        (PhaseModel::Attach, ReplyModel::Done) => PhaseModel::Session,
        (PhaseModel::Session, ReplyModel::Done) => PhaseModel::DiffTables,
        (PhaseModel::DiffTables, ReplyModel::Tables(tables)) => after_diff(tables, 0),
        (PhaseModel::Diff { tables, recorded }, ReplyModel::Done) => after_diff(
            tables,
            recorded + 1,
        ),
        (PhaseModel::Changeset, ReplyModel::Done) => PhaseModel::Compare {
            unresolved: Seq::empty(),
        },
        (PhaseModel::Compare { unresolved }, ReplyModel::Done) => if unresolved.len() > 0 {
            PhaseModel::Finished(Err(ErrorModel::Conflicts(unresolved)))
        } else {
            PhaseModel::Detach
        },
        (PhaseModel::Detach, ReplyModel::Done) => PhaseModel::Apply { unresolved: Seq::empty() },
        (PhaseModel::Apply { unresolved }, ReplyModel::Done) => if unresolved.len() > 0 {
            PhaseModel::Finished(Err(ErrorModel::Conflicts(unresolved)))
        } else {
            PhaseModel::Integrity
        },
        (PhaseModel::Integrity, ReplyModel::Integrity(rows)) => if rows == seq!["ok"@] {
            PhaseModel::ForeignKeys
        } else {
            PhaseModel::Finished(Err(ErrorModel::IntegrityCheckFailed(rows)))
        },
        (PhaseModel::ForeignKeys, ReplyModel::ForeignKeys(rows)) => if rows.len() == 0 {
            PhaseModel::Finished(Ok(()))
        } else {
            PhaseModel::Finished(Err(ErrorModel::ForeignKeyCheckFailed(violation_texts(rows))))
        },
        _ => phase,
    }
}

/// The merge after a reply.
pub open spec fn replied(run: RunModel, reply: ReplyModel) -> RunModel {
    RunModel { phase: after_reply(run.phase, reply), ..run }
}

/// The merge after an update has been compared: while rows are compared, one that is in
/// conflict is kept.
pub open spec fn compared(run: RunModel, item: ConflictItem) -> RunModel {
    match run.phase {
        PhaseModel::Compare { unresolved } if stays_in_conflict(run.policies, item) => RunModel {
            phase: PhaseModel::Compare {
                unresolved: unresolved.push(report(ConflictType::Data, item)),
            },
            ..run
        },
        _ => run,
    }
}

/// The merge after a conflict: while the changeset is applied, a conflict that is
/// answered with an abort is kept.
pub open spec fn conflicted(run: RunModel, kind: ConflictType, item: ConflictItem) -> RunModel {
    match run.phase {
        PhaseModel::Apply { unresolved } if answer(run.policies, kind, item)
            == ConflictAction::Abort => RunModel {
            phase: PhaseModel::Apply { unresolved: unresolved.push(report(kind, item)) },
            ..run
        },
        _ => run,
    }
}

/// The answer to a conflict. Nothing but an abort is answered while no changeset is
/// applied.
pub open spec fn conflict_answer(run: RunModel, kind: ConflictType, item: ConflictItem) -> ConflictAction {
    if run.phase is Apply {
        answer(run.policies, kind, item)
    } else {
        ConflictAction::Abort
    }
}

/// A list that is being worked off has an item left.
spec fn has_next(phase: Phase) -> bool {
    match phase {
        Phase::Keys { side, tables, counted } => counted@.len() < tables@.len(),
        Phase::Diff { tables, recorded } => recorded < tables@.len(),
        _ => true,
    }
}

/// Ends a merge that was refused, or goes on to the next phase.
fn gate(r: Result<(), MergeError>, next: Phase) -> (phase: Phase)
    requires
        has_next(next),
    ensures
        has_next(phase),
        r is Ok ==> phase == next,
        r matches Err(e) ==> phase@ == PhaseModel::Finished(Err(e@)),
{
    match r {
        Ok(()) => next,
        Err(e) => Phase::Finished(Err(e)),
    }
}

fn next_count(side: Side, tables: Vec<String>, counted: Vec<TableKeys>) -> (phase: Phase)
    ensures
        has_next(phase),
        phase@ == after_count(side, texts(tables@), key_models(counted@)),
{
    if counted.len() < tables.len() {
        return Phase::Keys { side, tables, counted };
    }
    let r = assert_all_tables_have_primary_key(&counted);
    proof {
        let keys = key_models(counted@);
        keyless_is_empty_when_all_have_keys(keys);
        if r is Ok {
            assert forall|i: int| 0 <= i < keys.len() implies (#[trigger] keys[i]).1 > 0 by {
                assert(counted@[i].key_columns > 0);
            }
        } else if keyless(keys).len() == 0 {
            assert forall|i: int| 0 <= i < counted.len() implies (#[trigger] counted[i]).key_columns
                > 0 by {
                assert(keys[i].1 > 0);
            }
        }
    }
    gate(
        r,
        if side == Side::Ours {
            Phase::Tables { side: Side::Theirs }
        } else {
            Phase::Attach
        },
    )
}

fn next_diff(tables: Vec<String>, recorded: usize) -> (phase: Phase)
    ensures
        has_next(phase),
        phase@ == after_diff(texts(tables@), recorded as int),
{
    if recorded < tables.len() {
        Phase::Diff { tables, recorded }
    } else {
        Phase::Changeset
    }
}

fn next_failure(phase: Phase, message: String) -> (next: Phase)
    requires
        has_next(phase),
    ensures
        has_next(next),
        next@ == after_failure(phase@, message@),
{
    match phase {
        Phase::Finished(r) => Phase::Finished(r),
        Phase::Apply { unresolved } => {
            if unresolved.len() > 0 {
                Phase::Finished(Err(MergeError::Conflicts(unresolved)))
            } else {
                Phase::Finished(Err(MergeError::Sqlite(message)))
            }
        },
        _ => Phase::Finished(Err(MergeError::Sqlite(message))),
    }
}

fn next_phase(phase: Phase, reply: Reply) -> (next: Phase)
    requires
        has_next(phase),
    ensures
        has_next(next),
        next@ == after_reply(phase@, reply@),
{
    match (phase, reply) {
        (phase, Reply::Failed(message)) => next_failure(phase, message),
        (Phase::OpenTheirs, Reply::Done) => Phase::OpenOurs,
        (Phase::OpenOurs, Reply::Done) => Phase::OursSchema,
        (Phase::OursSchema, Reply::Schema(ours)) => Phase::TheirsSchema { ours },
        (Phase::TheirsSchema { ours }, Reply::Schema(theirs)) => {
            gate(assert_schema_matches(&ours, &theirs), Phase::OpenBase)
        },
        (Phase::OpenBase, Reply::Done) => Phase::BaseSchema,
        (Phase::BaseSchema, Reply::Schema(base)) => Phase::SideSchema { base },
        (Phase::SideSchema { base }, Reply::Schema(side)) => {
            gate(assert_base_schema_matches(&base, &side), Phase::CloseBase)
        },
        (Phase::CloseBase, Reply::Done) => Phase::Tables { side: Side::Ours },
        (Phase::Tables { side }, Reply::Tables(tables)) => {
            let counted: Vec<TableKeys> = Vec::new();
            assert(key_models(counted@) =~= Seq::empty());
            next_count(side, tables, counted)
        },
        (Phase::Keys { side, tables, counted }, Reply::KeyColumns(n)) => {
            let mut counted = counted;
            let ghost before = key_models(counted@);
            let table = tables[counted.len()].clone();
            counted.push(TableKeys { table, key_columns: n });
            assert(key_models(counted@) =~= before.push((table@, n as int)));
            next_count(side, tables, counted)
        },
        (Phase::Attach, Reply::Done) => Phase::Session,
        (Phase::Session, Reply::Done) => Phase::DiffTables,
        (Phase::DiffTables, Reply::Tables(tables)) => next_diff(tables, 0),
        (Phase::Diff { tables, recorded }, Reply::Done) => {
            assert(recorded < tables.len());
            next_diff(tables, recorded + 1)
        },
        (Phase::Changeset, Reply::Done) => {
            let unresolved: Vec<RowConflict> = Vec::new();
            assert(conflict_models(unresolved@) =~= Seq::empty());
            Phase::Compare { unresolved }
        },
        (Phase::Compare { unresolved }, Reply::Done) => {
            if unresolved.len() > 0 {
                Phase::Finished(Err(MergeError::Conflicts(unresolved)))
            } else {
                Phase::Detach
            }
        },
        (Phase::Detach, Reply::Done) => {
            let unresolved: Vec<RowConflict> = Vec::new();
            assert(conflict_models(unresolved@) =~= Seq::empty());
            Phase::Apply { unresolved }
        },
        (Phase::Apply { unresolved }, Reply::Done) => {
            if unresolved.len() > 0 {
                Phase::Finished(Err(MergeError::Conflicts(unresolved)))
            } else {
                Phase::Integrity
            }
        },
        (Phase::Integrity, Reply::Integrity(rows)) => {
            gate(assert_integrity(rows), Phase::ForeignKeys)
        },
        (Phase::ForeignKeys, Reply::ForeignKeys(rows)) => {
            gate(assert_foreign_keys(&rows), Phase::Finished(Ok(())))
        },
        (phase, _) => phase,
    }
}

fn attach_statement(path: &str) -> (sql: String)
    ensures
        sql@ == attach_sql(path@),
{
    let mut sql = String::new();
    sql.append("ATTACH DATABASE ");
    sql.append(quote_string_literal(path).as_str());
    sql.append(" AS base");
    assert(sql@ =~= attach_sql(path@));
    sql
}

impl MergeRun {
    #[verifier::type_invariant]
    spec fn is_valid(self) -> bool {
        has_next(self.phase)
    }

    /// A merge of the databases at three paths that is about to begin.
    pub fn new(base_path: &str, ours_path: &str, theirs_path: &str, policies: PolicyConfig) -> (run:
        MergeRun)
        ensures
            run@ == begun(base_path@, ours_path@, theirs_path@, policies@),
    {
        MergeRun {
            base_path: String::from_str(base_path),
            ours_path: String::from_str(ours_path),
            theirs_path: String::from_str(theirs_path),
            policies,
            phase: Phase::OpenTheirs,
        }
    }

    /// What has to be done next.
    pub fn request(&self) -> (request: Request)
        ensures
            request@ == requested(self@),
    {
        proof {
            use_type_invariant(self);
        }
        match &self.phase {
            Phase::OpenTheirs => Request::Open {
                side: Side::Theirs,
                path: self.theirs_path.clone(),
            },
            Phase::OpenOurs => Request::Open { side: Side::Ours, path: self.ours_path.clone() },
            Phase::OursSchema => Request::ReadSchema { side: Side::Ours },
            Phase::TheirsSchema { .. } => Request::ReadSchema { side: Side::Theirs },
            Phase::OpenBase => Request::Open { side: Side::Base, path: self.base_path.clone() },
            Phase::BaseSchema => Request::ReadSchema { side: Side::Base },
            Phase::SideSchema { .. } => Request::ReadSchema { side: Side::Theirs },
            Phase::CloseBase => Request::Close { side: Side::Base },
            Phase::Tables { side } => Request::ListTables { side: *side },
            Phase::Keys { side, tables, counted } => Request::CountKeyColumns {
                side: *side,
                table: tables[counted.len()].clone(),
            },
            Phase::Attach => Request::Execute {
                side: Side::Theirs,
                sql: attach_statement(self.base_path.as_str()),
            },
            Phase::Session => Request::BeginSession,
            Phase::DiffTables => Request::ListTables { side: Side::Theirs },
            Phase::Diff { tables, recorded } => Request::Diff { table: tables[*recorded].clone() },
            Phase::Changeset => Request::TakeChangeset,
            Phase::Compare { .. } => Request::CompareRows,
            Phase::Detach => Request::Execute {
                side: Side::Theirs,
                sql: String::from_str("DETACH DATABASE base"),
            },
            Phase::Apply { .. } => Request::Apply,
            Phase::Integrity => Request::CheckIntegrity,
            Phase::ForeignKeys => Request::CheckForeignKeys,
            Phase::Finished(_) => Request::Finish,
        }
    }

    /// Takes the outcome of what was asked for.
    pub fn answer(&mut self, reply: Reply)
        ensures
            final(self)@ == replied(old(self)@, reply@),
    {
        proof {
            use_type_invariant(&*self);
        }
        let mut phase = Phase::OpenTheirs;
        std::mem::swap(&mut phase, &mut self.phase);
        self.phase = next_phase(phase, reply);
    }

    /// Takes an update of the changeset, with the rows that base, ours and theirs hold
    /// under its key.
    pub fn on_change(&mut self, item: &ConflictItem)
        ensures
            final(self)@ == compared(old(self)@, *item),
    {
        let mut phase = Phase::OpenTheirs;
        proof {
            use_type_invariant(&*self);
        }
        std::mem::swap(&mut phase, &mut self.phase);
        match phase {
            Phase::Compare { unresolved } => {
                let mut unresolved = unresolved;
                compare_change(&self.policies, item, &mut unresolved);
                self.phase = Phase::Compare { unresolved };
            },
            phase => {
                self.phase = phase;
            },
        }
    }

    /// Answers a conflict that comes up while the changeset is applied.
    pub fn on_conflict(&mut self, kind: ConflictType, item: &ConflictItem) -> (r: ConflictAction)
        ensures
            r == conflict_answer(old(self)@, kind, *item),
            final(self)@ == conflicted(old(self)@, kind, *item),
    {
        let mut phase = Phase::OpenTheirs;
        proof {
            use_type_invariant(&*self);
        }
        std::mem::swap(&mut phase, &mut self.phase);
        match phase {
            Phase::Apply { unresolved } => {
                let mut unresolved = unresolved;
                let r = handle_conflict(&self.policies, kind, item, &mut unresolved);
                self.phase = Phase::Apply { unresolved };
                r
            },
            phase => {
                self.phase = phase;
                ConflictAction::Abort
            },
        }
    }

    /// How the merge ended, or `None` where it has not.
    pub fn into_outcome(self) -> (outcome: Option<Result<(), MergeError>>)
        ensures
            outcome is Some <==> self@.phase is Finished,
            outcome matches Some(Ok(())) ==> self@.phase == PhaseModel::Finished(Ok(())),
            outcome matches Some(Err(e)) ==> self@.phase == PhaseModel::Finished(Err(e@)),
    {
        match self.phase {
            Phase::Finished(r) => Some(r),
            _ => None,
        }
    }
}

} // verus!
