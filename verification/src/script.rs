//! The conversation of a merge, word for word: which requests are made, in which order,
//! with which replies, and what each refusal says of them.
use vstd::prelude::*;

use crate::checks::{violation_texts, ViolationModel};
use crate::course::{course, got, pass_gates, replies_to, stage, Contents, Event};
use crate::error::ErrorModel;
use crate::merge::{
    answer, stays_in_conflict, ConflictAction, ConflictItem, ConflictPolicy, ConflictType,
};
use crate::run::{
    after_count, after_reply, begun, compared, conflict_answer, conflicted, replied, requested,
    PhaseModel, Reply, ReplyModel, Request, RequestModel, RunModel, Side,
};
use crate::schema::{
    divergences, diverging_names, keyless, keyless_is_empty_when_all_have_keys, objects,
    same_schema,
};
use crate::sql::literal;

verus! {

/// A request and the reply to it.
pub type Exchange = (RequestModel, ReplyModel);

/// The requests of a course with the replies to them, in their order. What is no reply to
/// the request is not heard.
pub open spec fn exchanges(start: RunModel, events: Seq<Event>) -> Seq<Exchange>
    decreases events.len(),
{
    if events.len() == 0 {
        Seq::empty()
    } else {
        let before = exchanges(start, events.drop_last());
        let request = requested(course(start, events.drop_last()));
        match events.last() {
            Event::Replied(reply) if replies_to(request, reply) => before.push((request, reply)),
            _ => before,
        }
    }
}

/// The three databases are opened and their schemas read; base is closed again.
pub open spec fn opening(start: RunModel, f: Contents) -> Seq<Exchange> {
    seq![
        (RequestModel::Open { side: Side::Theirs, path: start.theirs_path }, ReplyModel::Done),
        (RequestModel::Open { side: Side::Ours, path: start.ours_path }, ReplyModel::Done),
        (RequestModel::ReadSchema { side: Side::Ours }, ReplyModel::Schema(f.ours)),
        (RequestModel::ReadSchema { side: Side::Theirs }, ReplyModel::Schema(f.theirs)),
        (RequestModel::Open { side: Side::Base, path: start.base_path }, ReplyModel::Done),
        (RequestModel::ReadSchema { side: Side::Base }, ReplyModel::Schema(f.base)),
        (RequestModel::ReadSchema { side: Side::Theirs }, ReplyModel::Schema(f.side)),
        (RequestModel::Close { side: Side::Base }, ReplyModel::Done),
    ]
}

/// The tables of a side are listed, and the key columns of each are counted, one table
/// after the other.
pub open spec fn key_checks(side: Side, tables: Seq<Seq<char>>, keys: Seq<int>) -> Seq<Exchange> {
    seq![(RequestModel::ListTables { side }, ReplyModel::Tables(tables))] + Seq::new(
        keys.len(),
        |i: int|
            (RequestModel::CountKeyColumns { side, table: tables[i] }, ReplyModel::KeyColumns(
                keys[i],
            )),
    )
}

/// Base is attached to theirs, a session begun, the tables of theirs listed, and the
/// differences in the first `n` of them recorded, one table after the other.
pub open spec fn recording(start: RunModel, tables: Seq<Seq<char>>, n: int) -> Seq<Exchange> {
    seq![
        (
            RequestModel::Execute {
                side: Side::Theirs,
                sql: "ATTACH DATABASE "@ + literal(start.base_path) + " AS base"@,
            },
            ReplyModel::Done,
        ),
        (RequestModel::BeginSession, ReplyModel::Done),
        (RequestModel::ListTables { side: Side::Theirs }, ReplyModel::Tables(tables)),
    ] + Seq::new(n as nat, |i: int| (RequestModel::Diff { table: tables[i] }, ReplyModel::Done))
}

/// The changeset is taken, its rows are compared, base is detached, the changeset is
/// applied, and the result is checked and found sound.
pub open spec fn ending() -> Seq<Exchange> {
    seq![
        (RequestModel::TakeChangeset, ReplyModel::Done),
        (RequestModel::CompareRows, ReplyModel::Done),
        (
            RequestModel::Execute { side: Side::Theirs, sql: "DETACH DATABASE base"@ },
            ReplyModel::Done,
        ),
        (RequestModel::Apply, ReplyModel::Done),
        (RequestModel::CheckIntegrity, ReplyModel::Integrity(seq!["ok"@])),
        (RequestModel::CheckForeignKeys, ReplyModel::ForeignKeys(Seq::<ViolationModel>::empty())),
    ]
}

/// Everything up to the attachment of base.
pub open spec fn gates(start: RunModel, f: Contents) -> Seq<Exchange> {
    opening(start, f) + key_checks(Side::Ours, f.our_tables, f.our_keys) + key_checks(
        Side::Theirs,
        f.their_tables,
        f.their_keys,
    )
}

/// Everything up to the changeset.
pub open spec fn preparation(start: RunModel, f: Contents) -> Seq<Exchange> {
    gates(start, f) + recording(start, f.compared, f.compared.len() as int)
}

/// A whole merge that ends cleanly.
pub open spec fn clean_script(start: RunModel, f: Contents) -> Seq<Exchange> {
    preparation(start, f) + ending()
}

/// What has been said when a phase is reached.
pub open spec fn said_before(start: RunModel, f: Contents, phase: PhaseModel) -> Seq<Exchange> {
    match phase {
        PhaseModel::OpenTheirs => opening(start, f).take(0),
        PhaseModel::OpenOurs => opening(start, f).take(1),
        PhaseModel::OursSchema => opening(start, f).take(2),
        PhaseModel::TheirsSchema { .. } => opening(start, f).take(3),
        PhaseModel::OpenBase => opening(start, f).take(4),
        PhaseModel::BaseSchema => opening(start, f).take(5),
        PhaseModel::SideSchema { .. } => opening(start, f).take(6),
        PhaseModel::CloseBase => opening(start, f).take(7),
        PhaseModel::Tables { side } => if side == Side::Ours {
            opening(start, f)
        } else {
            opening(start, f) + key_checks(Side::Ours, f.our_tables, f.our_keys)
        },
        PhaseModel::Keys { side, .. } => if side == Side::Ours {
            opening(start, f) + key_checks(Side::Ours, f.our_tables, f.our_keys)
        } else {
            gates(start, f)
        },
        PhaseModel::Attach => gates(start, f),
        PhaseModel::Session => gates(start, f) + recording(start, f.compared, 0).take(1),
        PhaseModel::DiffTables => gates(start, f) + recording(start, f.compared, 0).take(2),
        PhaseModel::Diff { recorded, .. } => gates(start, f) + recording(
            start,
            f.compared,
            recorded,
        ),
        PhaseModel::Changeset => preparation(start, f),
        PhaseModel::Compare { .. } => preparation(start, f) + ending().take(1),
        PhaseModel::Detach => preparation(start, f) + ending().take(2),
        PhaseModel::Apply { .. } => preparation(start, f) + ending().take(3),
        PhaseModel::Integrity => preparation(start, f) + ending().take(4),
        PhaseModel::ForeignKeys => preparation(start, f) + ending().take(5),
        PhaseModel::Finished(_) => clean_script(start, f),
    }
}

/// Every table has been counted and has a key column.
pub open spec fn keyed(tables: Seq<Seq<char>>, keys: Seq<int>) -> bool {
    keys.len() == tables.len() && forall|i: int| 0 <= i < keys.len() ==> #[trigger] keys[i] > 0
}

/// The tables with their counts.
pub open spec fn counted_up(tables: Seq<Seq<char>>, keys: Seq<int>) -> Seq<(Seq<char>, int)> {
    Seq::new(keys.len(), |i: int| (tables[i], keys[i]))
}

/// What a phase holds is what was replied, and the gates that lie before it were passed.
pub open spec fn holds(f: Contents, phase: PhaseModel) -> bool {
    &&& phase matches PhaseModel::TheirsSchema { ours } ==> ours == f.ours
    &&& phase matches PhaseModel::SideSchema { base } ==> base == f.base
    &&& phase matches PhaseModel::Tables { side } ==> side != Side::Base
    &&& phase matches PhaseModel::Keys { side, tables, counted } ==> {
        &&& side != Side::Base
        &&& side == Side::Ours ==> tables == f.our_tables && counted == counted_up(
            f.our_tables,
            f.our_keys,
        )
        &&& side == Side::Theirs ==> tables == f.their_tables && counted == counted_up(
            f.their_tables,
            f.their_keys,
        )
        &&& counted.len() < tables.len()
    }
    &&& phase matches PhaseModel::Diff { tables, recorded } ==> tables == f.compared && 0
        <= recorded < tables.len()
    &&& stage(phase) >= 4 ==> same_schema(objects(f.ours), objects(f.theirs))
    &&& stage(phase) >= 7 ==> same_schema(objects(f.base), objects(f.side))
    &&& stage(phase) >= 10 ==> keyed(f.our_tables, f.our_keys)
    &&& stage(phase) >= 12 ==> keyed(f.their_tables, f.their_keys)
}

/// What a refusal says of the exchanges that led to it. A failure is passed on in its own
/// words. Diverging schemas are listed as they were read, a side of which some table has
/// no key by all of those tables, and what a check reported as it reported it. Conflicts
/// end the comparison of the rows, or the apply.
pub open spec fn tells_the_refusal(
    start: RunModel,
    f: Contents,
    said: Seq<Exchange>,
    e: ErrorModel,
) -> bool {
    match e {
        ErrorModel::Sqlite(message) => said.len() > 0 && said.last().1 == ReplyModel::Failed(
            message,
        ),
        ErrorModel::SchemaDiverged(list) => {
            &&& said == opening(start, f).take(4)
            &&& !same_schema(objects(f.ours), objects(f.theirs))
            &&& list == divergences(objects(f.ours), objects(f.theirs))
        },
        ErrorModel::BaseSchemaDiverged(names) => {
            &&& said == opening(start, f).take(7)
            &&& same_schema(objects(f.ours), objects(f.theirs))
            &&& !same_schema(objects(f.base), objects(f.side))
            &&& names == diverging_names(divergences(objects(f.base), objects(f.side)))
        },
        ErrorModel::MissingPrimaryKey(names) => {
            ||| {
                &&& said == opening(start, f) + key_checks(Side::Ours, f.our_tables, f.our_keys)
                &&& f.our_keys.len() == f.our_tables.len()
                &&& !keyed(f.our_tables, f.our_keys)
                &&& names == keyless(counted_up(f.our_tables, f.our_keys))
            }
            ||| {
                &&& said == gates(start, f)
                &&& keyed(f.our_tables, f.our_keys)
                &&& f.their_keys.len() == f.their_tables.len()
                &&& !keyed(f.their_tables, f.their_keys)
                &&& names == keyless(counted_up(f.their_tables, f.their_keys))
            }
        },
        ErrorModel::Conflicts(list) => {
            &&& list.len() > 0
            &&& pass_gates(f)
            &&& {
                ||| said == preparation(start, f) + ending().take(2)
                ||| said == preparation(start, f) + ending().take(4)
                ||| said.len() > 0 && said.drop_last() == preparation(start, f) + ending().take(3)
                    && said.last().0 == RequestModel::Apply && said.last().1 is Failed
            }
        },
        ErrorModel::IntegrityCheckFailed(rows) => {
            &&& pass_gates(f)
            &&& rows != seq!["ok"@]
            &&& said == (preparation(start, f) + ending().take(4)).push(
                (RequestModel::CheckIntegrity, ReplyModel::Integrity(rows)),
            )
        },
        ErrorModel::ForeignKeyCheckFailed(lines) => {
            &&& pass_gates(f)
            &&& said.len() > 0
            &&& said.drop_last() == preparation(start, f) + ending().take(5)
            &&& said.last().0 == RequestModel::CheckForeignKeys
            &&& said.last().1 matches ReplyModel::ForeignKeys(rows) && rows.len() > 0 && lines
                == violation_texts(rows)
        },
    }
}

/// The merge has come where the exchanges say that it has.
pub open spec fn is_on_script(
    start: RunModel,
    f: Contents,
    said: Seq<Exchange>,
    phase: PhaseModel,
) -> bool {
    match phase {
        PhaseModel::Finished(Err(e)) => tells_the_refusal(start, f, said, e),
        _ => said == said_before(start, f, phase) && holds(f, phase),
    }
}

/// The schemas are read.
proof fn opening_goes_on(
    start: RunModel,
    f: Contents,
    said: Seq<Exchange>,
    run: RunModel,
    reply: ReplyModel,
) -> (g: Contents)
    requires
        stage(run.phase) < 8,
        run == (RunModel { phase: run.phase, ..start }),
        is_on_script(start, f, said, run.phase),
        replies_to(requested(run), reply),
        !(reply is Failed),
    ensures
        is_on_script(
            start,
            g,
            said.push((requested(run), reply)),
            after_reply(run.phase, reply),
        ),
{
    let g = match (run.phase, reply) {
        (PhaseModel::OursSchema, ReplyModel::Schema(rows)) => Contents { ours: rows, ..f },
        (PhaseModel::TheirsSchema { .. }, ReplyModel::Schema(rows)) => Contents {
            theirs: rows,
            ..f
        },
        (PhaseModel::BaseSchema, ReplyModel::Schema(rows)) => Contents { base: rows, ..f },
        (PhaseModel::SideSchema { .. }, ReplyModel::Schema(rows)) => Contents { side: rows, ..f },
        _ => f,
    };
    let n = stage(run.phase);
    let more = said.push((requested(run), reply));
    assert(said =~= opening(start, f).take(n));
    assert(more =~= opening(start, g).take(n + 1));
    assert(opening(start, g).take(8) =~= opening(start, g));
    g
}

/// The tables of a side are listed, or the key columns of one more table counted.
proof fn key_checks_go_on(
    start: RunModel,
    f: Contents,
    said: Seq<Exchange>,
    run: RunModel,
    reply: ReplyModel,
) -> (g: Contents)
    requires
        run.phase is Tables || run.phase is Keys,
        run == (RunModel { phase: run.phase, ..start }),
        is_on_script(start, f, said, run.phase),
        replies_to(requested(run), reply),
        !(reply is Failed),
    ensures
        is_on_script(
            start,
            g,
            said.push((requested(run), reply)),
            after_reply(run.phase, reply),
        ),
{
    let more = said.push((requested(run), reply));
    match (run.phase, reply) {
        (PhaseModel::Tables { side }, ReplyModel::Tables(tables)) => {
            let g = if side == Side::Ours {
                Contents { our_tables: tables, our_keys: Seq::empty(), ..f }
            } else {
                Contents { their_tables: tables, their_keys: Seq::empty(), ..f }
            };
            assert(opening(start, g) =~= opening(start, f));
            if side == Side::Ours {
                assert(more =~= opening(start, g) + key_checks(Side::Ours, tables, g.our_keys));
            } else {
                assert(more =~= gates(start, g));
            }
            assert(counted_up(tables, Seq::<int>::empty()) =~= Seq::empty());
            count_is_on_script(start, g, more, side, tables, Seq::empty());
            g
        },
        (PhaseModel::Keys { side, tables, counted }, ReplyModel::KeyColumns(n)) => {
            let keys = if side == Side::Ours {
                f.our_keys
            } else {
                f.their_keys
            };
            let g = if side == Side::Ours {
                Contents { our_keys: keys.push(n), ..f }
            } else {
                Contents { their_keys: keys.push(n), ..f }
            };
            assert(opening(start, g) =~= opening(start, f));
            assert(key_checks(side, tables, keys.push(n)) =~= key_checks(side, tables, keys).push(
                (requested(run), reply),
            ));
            if side == Side::Ours {
                assert(more =~= opening(start, g) + key_checks(Side::Ours, tables, g.our_keys));
            } else {
                assert(more =~= gates(start, g));
            }
            assert(counted_up(tables, keys.push(n)) =~= counted.push(
                (tables[counted.len() as int], n),
            ));
            count_is_on_script(start, g, more, side, tables, keys.push(n));
            g
        },
        _ => f,
    }
}

proof fn count_is_on_script(
    start: RunModel,
    g: Contents,
    said: Seq<Exchange>,
    side: Side,
    tables: Seq<Seq<char>>,
    keys: Seq<int>,
)
    requires
        side == Side::Ours || side == Side::Theirs,
        keys.len() <= tables.len(),
        side == Side::Ours ==> tables == g.our_tables && keys == g.our_keys && said == opening(
            start,
            g,
        ) + key_checks(Side::Ours, tables, keys),
        side == Side::Theirs ==> tables == g.their_tables && keys == g.their_keys && said == gates(
            start,
            g,
        ) && keyed(g.our_tables, g.our_keys),
        same_schema(objects(g.ours), objects(g.theirs)),
        same_schema(objects(g.base), objects(g.side)),
    ensures
        is_on_script(start, g, said, after_count(side, tables, counted_up(tables, keys))),
{
    let counted = counted_up(tables, keys);
    if keys.len() == tables.len() {
        keyless_is_empty_when_all_have_keys(counted);
        if keyless(counted).len() == 0 {
            assert forall|i: int| 0 <= i < keys.len() implies #[trigger] keys[i] > 0 by {
                assert(counted[i].1 > 0);
            }
        } else {
            if keyed(tables, keys) {
                assert forall|i: int| 0 <= i < counted.len() implies (#[trigger] counted[i]).1
                    > 0 by {
                    assert(keys[i] > 0);
                }
            }
        }
    }
}

/// Base is attached, and one table after the other is recorded.
proof fn recording_goes_on(
    start: RunModel,
    f: Contents,
    said: Seq<Exchange>,
    run: RunModel,
    reply: ReplyModel,
) -> (g: Contents)
    requires
        12 <= stage(run.phase) < 16,
        run == (RunModel { phase: run.phase, ..start }),
        is_on_script(start, f, said, run.phase),
        replies_to(requested(run), reply),
        !(reply is Failed),
    ensures
        is_on_script(
            start,
            g,
            said.push((requested(run), reply)),
            after_reply(run.phase, reply),
        ),
{
    let more = said.push((requested(run), reply));
    match (run.phase, reply) {
        (PhaseModel::DiffTables, ReplyModel::Tables(tables)) => {
            let g = Contents { compared: tables, ..f };
            assert(opening(start, g) =~= opening(start, f));
            assert(more =~= gates(start, g) + recording(start, tables, 0));
            g
        },
        (PhaseModel::Diff { tables, recorded }, _) => {
            assert(recording(start, tables, recorded + 1) =~= recording(
                start,
                tables,
                recorded,
            ).push((requested(run), reply)));
            assert(more =~= gates(start, f) + recording(start, tables, recorded + 1));
            f
        },
        (PhaseModel::Session, _) => {
            assert(more =~= gates(start, f) + recording(start, f.compared, 0).take(2));
            f
        },
        _ => {
            assert(more =~= gates(start, f) + recording(start, f.compared, 0).take(1));
            f
        },
    }
}

/// The changeset is taken, compared and applied, and the result checked.
proof fn ending_goes_on(
    start: RunModel,
    f: Contents,
    said: Seq<Exchange>,
    run: RunModel,
    reply: ReplyModel,
)
    requires
        16 <= stage(run.phase) < 22,
        run == (RunModel { phase: run.phase, ..start }),
        is_on_script(start, f, said, run.phase),
        replies_to(requested(run), reply),
        !(reply is Failed),
    ensures
        is_on_script(
            start,
            f,
            said.push((requested(run), reply)),
            after_reply(run.phase, reply),
        ),
{
    let more = said.push((requested(run), reply));
    let n = stage(run.phase) - 16;
    assert(ending().take(0) =~= Seq::empty());
    assert(said =~= preparation(start, f) + ending().take(n));
    match (run.phase, reply) {
        (PhaseModel::Integrity, ReplyModel::Integrity(rows)) => {
            if rows == seq!["ok"@] {
                assert(more =~= preparation(start, f) + ending().take(5));
            }
        },
        (PhaseModel::ForeignKeys, ReplyModel::ForeignKeys(rows)) => {
            assert(more.drop_last() =~= said);
            if rows.len() == 0 {
                assert(rows =~= Seq::<ViolationModel>::empty());
                assert(more =~= clean_script(start, f));
            }
        },
        _ => {
            assert(more =~= preparation(start, f) + ending().take(n + 1));
        },
    }
}

/// One reply to what was asked for.
proof fn script_goes_on(
    start: RunModel,
    f: Contents,
    said: Seq<Exchange>,
    run: RunModel,
    reply: ReplyModel,
) -> (g: Contents)
    requires
        !(run.phase is Finished),
        run == (RunModel { phase: run.phase, ..start }),
        is_on_script(start, f, said, run.phase),
        replies_to(requested(run), reply),
    ensures
        is_on_script(
            start,
            g,
            said.push((requested(run), reply)),
            after_reply(run.phase, reply),
        ),
{
    if reply is Failed {
        assert(said.push((requested(run), reply)).drop_last() =~= said);
        f
    } else if stage(run.phase) < 8 {
        opening_goes_on(start, f, said, run, reply)
    } else if stage(run.phase) < 12 {
        key_checks_go_on(start, f, said, run, reply)
    } else if stage(run.phase) < 16 {
        recording_goes_on(start, f, said, run, reply)
    } else {
        ending_goes_on(start, f, said, run, reply);
        f
    }
}

/// A merge keeps to its script, whatever it is told: at every point of its course there
/// are contents of the databases of which the exchanges so far are the first part of the
/// script, up to where the merge has come, or up to its refusal, which then tells what
/// was replied.
pub proof fn merges_keep_to_their_script(start: RunModel, events: Seq<Event>) -> (f: Contents)
    requires
        start.phase is OpenTheirs,
    ensures
        course(start, events) == (RunModel { phase: course(start, events).phase, ..start }),
        is_on_script(start, f, exchanges(start, events), course(start, events).phase),
    decreases events.len(),
{
    if events.len() == 0 {
        let f = Contents {
            ours: Seq::empty(),
            theirs: Seq::empty(),
            base: Seq::empty(),
            side: Seq::empty(),
            our_tables: Seq::empty(),
            our_keys: Seq::empty(),
            their_tables: Seq::empty(),
            their_keys: Seq::empty(),
            compared: Seq::empty(),
        };
        assert(exchanges(start, events) =~= opening(start, f).take(0));
        f
    } else {
        let before = events.drop_last();
        let run = course(start, before);
        let f = merges_keep_to_their_script(start, before);
        match events.last() {
            Event::Replied(reply) => {
                if replies_to(requested(run), reply) {
                    script_goes_on(start, f, exchanges(start, before), run, reply)
                } else {
                    assert(replied(run, reply) == run);
                    f
                }
            },
            _ => f,
        }
    }
}

/// A merge ends cleanly only by the whole script, from the opening of the databases to the
/// last check, with contents that pass all gates: nothing is left out, nothing is done
/// twice, and every table of theirs that was listed for it is recorded.
pub proof fn clean_merges_follow_the_whole_script(
    base_path: Seq<char>,
    ours_path: Seq<char>,
    theirs_path: Seq<char>,
    policies: Seq<(Seq<char>, ConflictPolicy)>,
    events: Seq<Event>,
) -> (f: Contents)
    requires
        course(begun(base_path, ours_path, theirs_path, policies), events).phase
            == PhaseModel::Finished(Ok(())),
    ensures
        pass_gates(f),
        exchanges(begun(base_path, ours_path, theirs_path, policies), events) == clean_script(
            begun(base_path, ours_path, theirs_path, policies),
            f,
        ),
{
    merges_keep_to_their_script(begun(base_path, ours_path, theirs_path, policies), events)
}

/// Every exchange took place: the request was made, and the reply was given to it.
pub proof fn exchanges_took_place(start: RunModel, events: Seq<Event>, i: int)
    requires
        0 <= i < exchanges(start, events).len(),
    ensures
        got(start, events, exchanges(start, events)[i].0, exchanges(start, events)[i].1),
    decreases events.len(),
{
    let before = events.drop_last();
    let (request, reply) = exchanges(start, events)[i];
    if i < exchanges(start, before).len() {
        exchanges_took_place(start, before, i);
        let k = choose|k: int|
            0 <= k < before.len() && requested(course(start, #[trigger] before.take(k))) == request
                && before[k] == Event::Replied(reply);
        assert(events.take(k) =~= before.take(k));
        assert(events[k] == before[k]);
    } else {
        assert(events.take(before.len() as int) =~= before);
    }
}

/// The changeset has been asked for, or what follows it.
pub open spec fn has_come_to_the_changeset(run: RunModel) -> bool {
    ||| requested(run) is TakeChangeset
    ||| requested(run) is CompareRows
    ||| requested(run) is Apply
    ||| requested(run) is CheckIntegrity
    ||| requested(run) is CheckForeignKeys
    ||| run.phase == PhaseModel::Finished(Ok(()))
}

/// Once the merge has come to the changeset, everything up to it has been said.
proof fn preparation_was_said(start: RunModel, f: Contents, said: Seq<Exchange>, run: RunModel)
    requires
        is_on_script(start, f, said, run.phase),
        has_come_to_the_changeset(run),
    ensures
        said.len() >= preparation(start, f).len(),
        forall|i: int|
            0 <= i < preparation(start, f).len() ==> #[trigger] said[i] == preparation(start, f)[i],
        said.len() > preparation(start, f).len() ==> said[preparation(start, f).len() as int] == (
            RequestModel::TakeChangeset,
            ReplyModel::Done,
        ),
{
    let all = preparation(start, f);
    let n = said.len() - all.len();
    assert(said =~= all + ending().take(n));
}

/// Before the changeset is taken the differences in every table are recorded: the tables
/// that were listed once the session had begun are recorded one after the other, each
/// exactly once, and each time the recording succeeded. The listing is exchange `at`.
pub proof fn every_listed_table_is_recorded(
    base_path: Seq<char>,
    ours_path: Seq<char>,
    theirs_path: Seq<char>,
    policies: Seq<(Seq<char>, ConflictPolicy)>,
    events: Seq<Event>,
) -> (r: (Seq<Seq<char>>, int))
    requires
        has_come_to_the_changeset(
            course(begun(base_path, ours_path, theirs_path, policies), events),
        ),
    ensures
        ({
            let start = begun(base_path, ours_path, theirs_path, policies);
            let said = exchanges(start, events);
            let (tables, at) = r;
            &&& 1 <= at
            &&& at + tables.len() < said.len()
            &&& said[at - 1] == (RequestModel::BeginSession, ReplyModel::Done)
            &&& said[at] == (
                RequestModel::ListTables { side: Side::Theirs },
                ReplyModel::Tables(tables),
            )
            &&& forall|i: int|
                0 <= i < tables.len() ==> said[at + 1 + i] == (
                    RequestModel::Diff { table: #[trigger] tables[i] },
                    ReplyModel::Done,
                )
            &&& at + 1 + tables.len() < said.len() ==> said[at + 1 + tables.len()] == (
                RequestModel::TakeChangeset,
                ReplyModel::Done,
            )
            &&& got(
                start,
                events,
                RequestModel::ListTables { side: Side::Theirs },
                ReplyModel::Tables(tables),
            )
            &&& forall|i: int|
                0 <= i < tables.len() ==> got(
                    start,
                    events,
                    RequestModel::Diff { table: #[trigger] tables[i] },
                    ReplyModel::Done,
                )
        }),
{
    let start = begun(base_path, ours_path, theirs_path, policies);
    let said = exchanges(start, events);
    let f = merges_keep_to_their_script(start, events);
    let tables = f.compared;
    let at = gates(start, f).len() as int + 2;
    let all = preparation(start, f);
    let record = recording(start, tables, tables.len() as int);
    preparation_was_said(start, f, said, course(start, events));
    assert(forall|i: int| 0 <= i < record.len() ==> #[trigger] record[i] == all[at - 2 + i]);
    assert(said[at - 1] == record[1]);
    assert(said[at] == record[2]);
    exchanges_took_place(start, events, at);
    assert forall|i: int| 0 <= i < tables.len() implies said[at + 1 + i] == (
        RequestModel::Diff { table: #[trigger] tables[i] },
        ReplyModel::Done,
    ) && got(start, events, RequestModel::Diff { table: tables[i] }, ReplyModel::Done) by {
        assert(said[at + 1 + i] == record[3 + i]);
        exchanges_took_place(start, events, at + 1 + i);
    }
    (tables, at)
}

/// Some conflict is held, or the merge has been refused.
spec fn cannot_end_cleanly(phase: PhaseModel) -> bool {
    match phase {
        PhaseModel::Compare { unresolved } => unresolved.len() > 0,
        PhaseModel::Apply { unresolved } => unresolved.len() > 0,
        PhaseModel::Finished(Err(_)) => true,
        _ => false,
    }
}

proof fn conflicts_stay(run: RunModel, events: Seq<Event>)
    requires
        cannot_end_cleanly(run.phase),
    ensures
        cannot_end_cleanly(course(run, events).phase),
    decreases events.len(),
{
    if events.len() > 0 {
        conflicts_stay(run, events.drop_last());
    }
}

/// A merge in whose apply a conflict was answered with an abort never ends cleanly, and
/// neither does one in which a compared update was in conflict, whatever happens
/// afterwards.
pub proof fn aborted_merges_never_end_cleanly(
    run: RunModel,
    kind: ConflictType,
    item: ConflictItem,
    events: Seq<Event>,
)
    ensures
        run.phase is Apply && answer(run.policies, kind, item) == ConflictAction::Abort ==> course(
            conflicted(run, kind, item),
            events,
        ).phase != PhaseModel::Finished(Ok(())),
        run.phase is Compare && stays_in_conflict(run.policies, item) ==> course(
            compared(run, item),
            events,
        ).phase != PhaseModel::Finished(Ok(())),
{
    if run.phase is Apply && answer(run.policies, kind, item) == ConflictAction::Abort {
        conflicts_stay(conflicted(run, kind, item), events);
    }
    if run.phase is Compare && stays_in_conflict(run.policies, item) {
        conflicts_stay(compared(run, item), events);
    }
}

/// While the changeset is applied a conflict is answered by the policies of the merge;
/// at any other time with an abort, and it leaves no trace. An answer that is no abort
/// leaves the merge as it is.
pub proof fn conflicts_are_answered_during_the_apply(
    run: RunModel,
    kind: ConflictType,
    item: ConflictItem,
)
    ensures
        run.phase is Apply ==> conflict_answer(run, kind, item) == answer(
            run.policies,
            kind,
            item,
        ),
        !(run.phase is Apply) ==> conflict_answer(run, kind, item) == ConflictAction::Abort
            && conflicted(run, kind, item) == run,
        conflict_answer(run, kind, item) != ConflictAction::Abort ==> conflicted(run, kind, item)
            == run,
        !(run.phase is Compare) ==> compared(run, item) == run,
        !stays_in_conflict(run.policies, item) ==> compared(run, item) == run,
{
}

/// A merge that has ended asks for nothing, and one that has not ended always asks for
/// something. The rows are compared, and the changeset is applied, in the phases that are
/// for it and in no other.
pub proof fn requests_fit_their_phase(run: RunModel)
    ensures
        requested(run) is Finish <==> run.phase is Finished,
        requested(run) is CompareRows <==> run.phase is Compare,
        requested(run) is Apply <==> run.phase is Apply,
{
}

/// The view of a request shows what is asked for, and of whom.
pub proof fn requests_are_viewed_in_full(request: Request)
    ensures
        request matches Request::Open { side, path } ==> request@ == (RequestModel::Open {
            side,
            path: path@,
        }),
        request matches Request::Close { side } ==> request@ == (RequestModel::Close { side }),
        request matches Request::ReadSchema { side } ==> request@ == (RequestModel::ReadSchema {
            side,
        }),
        request matches Request::ListTables { side } ==> request@ == (RequestModel::ListTables {
            side,
        }),
        request matches Request::CountKeyColumns { side, table } ==> request@ == (
        RequestModel::CountKeyColumns { side, table: table@ }),
        request matches Request::Execute { side, sql } ==> request@ == (RequestModel::Execute {
            side,
            sql: sql@,
        }),
        request matches Request::Diff { table } ==> request@ == (RequestModel::Diff {
            table: table@,
        }),
        request is BeginSession ==> request@ == RequestModel::BeginSession,
        request is TakeChangeset ==> request@ == RequestModel::TakeChangeset,
        request is CompareRows ==> request@ == RequestModel::CompareRows,
        request is Apply ==> request@ == RequestModel::Apply,
        request is CheckIntegrity ==> request@ == RequestModel::CheckIntegrity,
        request is CheckForeignKeys ==> request@ == RequestModel::CheckForeignKeys,
        request is Finish ==> request@ == RequestModel::Finish,
{
}

/// The view of a reply shows all that was replied, in its order.
pub proof fn replies_are_viewed_in_full(reply: Reply)
    ensures
        reply is Done ==> reply@ == ReplyModel::Done,
        reply matches Reply::Schema(rows) ==> (reply@ matches ReplyModel::Schema(found)
            && found.len() == rows@.len() && forall|i: int|
            0 <= i < rows@.len() ==> #[trigger] found[i] == (
                (rows@[i].name@, rows@[i].kind@),
                rows@[i].sql@,
            )),
        reply matches Reply::Tables(tables) ==> (reply@ matches ReplyModel::Tables(found)
            && found.len() == tables@.len() && forall|i: int|
            0 <= i < tables@.len() ==> #[trigger] found[i] == tables@[i]@),
        reply matches Reply::KeyColumns(n) ==> reply@ == ReplyModel::KeyColumns(n as int),
        reply matches Reply::Integrity(rows) ==> (reply@ matches ReplyModel::Integrity(found)
            && found.len() == rows@.len() && forall|i: int|
            0 <= i < rows@.len() ==> #[trigger] found[i] == rows@[i]@),
        reply matches Reply::ForeignKeys(rows) ==> (reply@ matches ReplyModel::ForeignKeys(found)
            && found.len() == rows@.len() && forall|i: int|
            0 <= i < rows@.len() ==> #[trigger] found[i] == rows@[i]@),
        reply matches Reply::Failed(message) ==> reply@ == ReplyModel::Failed(message@),
{
}

} // verus!
