//! What holds of the whole course of a merge, whatever its driver replies.
use vstd::prelude::*;

use crate::checks::ViolationModel;
use crate::error::{ConflictModel, ErrorModel};
use crate::merge::{
    answer, changed_differently, different_changes_are_conflicts, policy_over, report, same_row,
    stays_in_conflict, three_different_rows_are_a_conflict, ConflictAction, ConflictItem,
    ConflictPolicy, ConflictType,
};
use crate::run::{
    after_count, after_diff, after_reply, attach_sql, begun, compared, conflict_answer, conflicted,
    detach_sql, replied, requested, PhaseModel, ReplyModel, RequestModel, RunModel, Side,
};
use crate::schema::{keyless, keyless_is_empty_when_all_have_keys, objects, same_schema, RowModel};

verus! {

/// Something that happens to a merge.
pub enum Event {
    /// What was asked for has been done.
    Replied(ReplyModel),
    /// An update has been compared.
    Compared(ConflictItem),
    /// A conflict has come up.
    Conflicted(ConflictType, ConflictItem),
}

/// The merge after an event.
pub open spec fn after(run: RunModel, event: Event) -> RunModel {
    match event {
        Event::Replied(reply) => replied(run, reply),
        Event::Compared(item) => compared(run, item),
        Event::Conflicted(kind, item) => conflicted(run, kind, item),
    }
}

/// The merge after some events.
pub open spec fn course(start: RunModel, events: Seq<Event>) -> RunModel
    decreases events.len(),
{
    if events.len() == 0 {
        start
    } else {
        after(course(start, events.drop_last()), events.last())
    }
}

/// At some point in the course `request` was asked for, and `reply` was the reply.
pub open spec fn got(
    start: RunModel,
    events: Seq<Event>,
    request: RequestModel,
    reply: ReplyModel,
) -> bool {
    exists|k: int|
        0 <= k < events.len() && requested(course(start, #[trigger] events.take(k))) == request
            && events[k] == Event::Replied(reply)
}

/// The schemas of two sides were read and found to be the same.
pub open spec fn schemas_agreed(start: RunModel, events: Seq<Event>, a: Side, b: Side) -> bool {
    exists|x: Seq<RowModel>, y: Seq<RowModel>|
        #![trigger objects(x), objects(y)]
        {
            &&& got(start, events, RequestModel::ReadSchema { side: a }, ReplyModel::Schema(x))
            &&& got(start, events, RequestModel::ReadSchema { side: b }, ReplyModel::Schema(y))
            &&& same_schema(objects(x), objects(y))
        }
}

/// The table was found to have a primary-key column.
pub open spec fn has_key(start: RunModel, events: Seq<Event>, side: Side, table: Seq<char>) -> bool {
    exists|n: int|
        n > 0 && #[trigger] got(
            start,
            events,
            RequestModel::CountKeyColumns { side, table },
            ReplyModel::KeyColumns(n),
        )
}

/// The tables of a side were listed, and each of them has a primary key.
pub open spec fn all_have_keys(start: RunModel, events: Seq<Event>, side: Side) -> bool {
    exists|tables: Seq<Seq<char>>|
        #[trigger] got(
            start,
            events,
            RequestModel::ListTables { side },
            ReplyModel::Tables(tables),
        ) && forall|i: int|
            0 <= i < tables.len() ==> has_key(start, events, side, #[trigger] tables[i])
}

/// All gates before the apply were passed.
pub open spec fn gates_passed(start: RunModel, events: Seq<Event>) -> bool {
    &&& schemas_agreed(start, events, Side::Ours, Side::Theirs)
    &&& schemas_agreed(start, events, Side::Base, Side::Theirs)
    &&& all_have_keys(start, events, Side::Ours)
    &&& all_have_keys(start, events, Side::Theirs)
}

/// The place of a phase in the order of a merge.
pub open spec fn stage(phase: PhaseModel) -> int {
    match phase {
        PhaseModel::OpenTheirs => 0,
        PhaseModel::OpenOurs => 1,
        PhaseModel::OursSchema => 2,
        PhaseModel::TheirsSchema { .. } => 3,
        PhaseModel::OpenBase => 4,
        PhaseModel::BaseSchema => 5,
        PhaseModel::SideSchema { .. } => 6,
        PhaseModel::CloseBase => 7,
        PhaseModel::Tables { side } => if side == Side::Ours {
            8
        } else {
            10
        },
        PhaseModel::Keys { side, .. } => if side == Side::Ours {
            9
        } else {
            11
        },
        PhaseModel::Attach => 12,
        PhaseModel::Session => 13,
        PhaseModel::DiffTables => 14,
        PhaseModel::Diff { .. } => 15,
        PhaseModel::Changeset => 16,
        PhaseModel::Compare { .. } => 17,
        PhaseModel::Detach => 18,
        PhaseModel::Apply { .. } => 19,
        PhaseModel::Integrity => 20,
        PhaseModel::ForeignKeys => 21,
        PhaseModel::Finished(_) => 22,
    }
}

/// What the phase that a course has led to tells of the course.
#[verifier::opaque]
spec fn tells(start: RunModel, events: Seq<Event>, phase: PhaseModel) -> bool {
    &&& phase matches PhaseModel::TheirsSchema { ours } ==> got(
        start,
        events,
        RequestModel::ReadSchema { side: Side::Ours },
        ReplyModel::Schema(ours),
    )
    &&& phase matches PhaseModel::SideSchema { base } ==> got(
        start,
        events,
        RequestModel::ReadSchema { side: Side::Base },
        ReplyModel::Schema(base),
    )
    &&& phase matches PhaseModel::Tables { side } ==> side != Side::Base
    &&& phase matches PhaseModel::Keys { side, tables, counted } ==> {
        &&& side != Side::Base
        &&& counted.len() < tables.len()
        &&& counts_of(start, events, side, tables, counted)
    }
    &&& !(phase matches PhaseModel::Finished(Err(_))) ==> {
        &&& stage(phase) >= 4 ==> schemas_agreed(start, events, Side::Ours, Side::Theirs)
        &&& stage(phase) >= 7 ==> schemas_agreed(start, events, Side::Base, Side::Theirs)
        &&& stage(phase) >= 10 ==> all_have_keys(start, events, Side::Ours)
        &&& stage(phase) >= 12 ==> all_have_keys(start, events, Side::Theirs)
        &&& stage(phase) >= 20 ==> got(start, events, RequestModel::Apply, ReplyModel::Done)
        &&& stage(phase) >= 21 ==> got(
            start,
            events,
            RequestModel::CheckIntegrity,
            ReplyModel::Integrity(seq!["ok"@]),
        )
        &&& stage(phase) >= 22 ==> got(
            start,
            events,
            RequestModel::CheckForeignKeys,
            ReplyModel::ForeignKeys(Seq::<ViolationModel>::empty()),
        )
    }
}

/// The tables of a side were listed, and the counts are those of the first of them.
spec fn counts_of(
    start: RunModel,
    events: Seq<Event>,
    side: Side,
    tables: Seq<Seq<char>>,
    counted: Seq<(Seq<char>, int)>,
) -> bool {
    &&& got(start, events, RequestModel::ListTables { side }, ReplyModel::Tables(tables))
    &&& counted.len() <= tables.len()
    &&& forall|i: int|
        0 <= i < counted.len() ==> (#[trigger] counted[i]).0 == tables[i] && got(
            start,
            events,
            RequestModel::CountKeyColumns { side, table: tables[i] },
            ReplyModel::KeyColumns(counted[i].1),
        )
}

proof fn got_before(
    start: RunModel,
    events: Seq<Event>,
    event: Event,
    request: RequestModel,
    reply: ReplyModel,
)
    requires
        got(start, events, request, reply),
    ensures
        got(start, events.push(event), request, reply),
{
    let k = choose|k: int|
        0 <= k < events.len() && requested(course(start, #[trigger] events.take(k))) == request
            && events[k] == Event::Replied(reply);
    assert(events.push(event).take(k) == events.take(k));
    assert(events.push(event)[k] == events[k]);
}

proof fn got_now(start: RunModel, events: Seq<Event>, reply: ReplyModel)
    ensures
        got(
            start,
            events.push(Event::Replied(reply)),
            requested(course(start, events)),
            reply,
        ),
{
    let all = events.push(Event::Replied(reply));
    assert(all.take(events.len() as int) == events);
    assert(all[events.len() as int] == Event::Replied(reply));
}

proof fn agreed_before(start: RunModel, events: Seq<Event>, event: Event, a: Side, b: Side)
    requires
        schemas_agreed(start, events, a, b),
    ensures
        schemas_agreed(start, events.push(event), a, b),
{
    let (x, y) = choose|x: Seq<RowModel>, y: Seq<RowModel>|
        #![trigger objects(x), objects(y)]
        {
            &&& got(start, events, RequestModel::ReadSchema { side: a }, ReplyModel::Schema(x))
            &&& got(start, events, RequestModel::ReadSchema { side: b }, ReplyModel::Schema(y))
            &&& same_schema(objects(x), objects(y))
        };
    got_before(
        start,
        events,
        event,
        RequestModel::ReadSchema { side: a },
        ReplyModel::Schema(x),
    );
    got_before(
        start,
        events,
        event,
        RequestModel::ReadSchema { side: b },
        ReplyModel::Schema(y),
    );
}

proof fn keys_before(start: RunModel, events: Seq<Event>, event: Event, side: Side)
    requires
        all_have_keys(start, events, side),
    ensures
        all_have_keys(start, events.push(event), side),
{
    let all = events.push(event);
    let tables = choose|tables: Seq<Seq<char>>|
        #[trigger] got(
            start,
            events,
            RequestModel::ListTables { side },
            ReplyModel::Tables(tables),
        ) && forall|i: int|
            0 <= i < tables.len() ==> has_key(start, events, side, #[trigger] tables[i]);
    got_before(
        start,
        events,
        event,
        RequestModel::ListTables { side },
        ReplyModel::Tables(tables),
    );
    assert forall|i: int| 0 <= i < tables.len() implies has_key(
        start,
        all,
        side,
        #[trigger] tables[i],
    ) by {
        assert(has_key(start, events, side, tables[i]));
        let n = choose|n: int|
            n > 0 && #[trigger] got(
                start,
                events,
                RequestModel::CountKeyColumns { side, table: tables[i] },
                ReplyModel::KeyColumns(n),
            );
        got_before(
            start,
            events,
            event,
            RequestModel::CountKeyColumns { side, table: tables[i] },
            ReplyModel::KeyColumns(n),
        );
    }
}

proof fn counts_before(
    start: RunModel,
    events: Seq<Event>,
    event: Event,
    side: Side,
    tables: Seq<Seq<char>>,
    counted: Seq<(Seq<char>, int)>,
)
    requires
        counts_of(start, events, side, tables, counted),
    ensures
        counts_of(start, events.push(event), side, tables, counted),
{
    got_before(
        start,
        events,
        event,
        RequestModel::ListTables { side },
        ReplyModel::Tables(tables),
    );
    assert forall|i: int| 0 <= i < counted.len() implies (#[trigger] counted[i]).0 == tables[i]
        && got(
        start,
        events.push(event),
        RequestModel::CountKeyColumns { side, table: tables[i] },
        ReplyModel::KeyColumns(counted[i].1),
    ) by {
        got_before(
            start,
            events,
            event,
            RequestModel::CountKeyColumns { side, table: tables[i] },
            ReplyModel::KeyColumns(counted[i].1),
        );
    }
}

proof fn counts_make_keys(
    start: RunModel,
    events: Seq<Event>,
    side: Side,
    tables: Seq<Seq<char>>,
    counted: Seq<(Seq<char>, int)>,
)
    requires
        counts_of(start, events, side, tables, counted),
        counted.len() == tables.len(),
        keyless(counted).len() == 0,
    ensures
        all_have_keys(start, events, side),
{
    keyless_is_empty_when_all_have_keys(counted);
    assert forall|i: int| 0 <= i < tables.len() implies has_key(
        start,
        events,
        side,
        #[trigger] tables[i],
    ) by {
        assert(counted[i].1 > 0);
    }
}

/// What the earlier phase told still holds after one more event.
proof fn still_tells(start: RunModel, events: Seq<Event>, event: Event, phase: PhaseModel)
    requires
        tells(start, events, phase),
    ensures
        tells(start, events.push(event), phase),
{
    reveal(tells);
    if let PhaseModel::TheirsSchema { ours } = phase {
        got_before(
            start,
            events,
            event,
            RequestModel::ReadSchema { side: Side::Ours },
            ReplyModel::Schema(ours),
        );
    }
    if let PhaseModel::SideSchema { base } = phase {
        got_before(
            start,
            events,
            event,
            RequestModel::ReadSchema { side: Side::Base },
            ReplyModel::Schema(base),
        );
    }
    if let PhaseModel::Keys { side, tables, counted } = phase {
        counts_before(start, events, event, side, tables, counted);
    }
    if !(phase matches PhaseModel::Finished(Err(_))) {
        if stage(phase) >= 4 {
            agreed_before(start, events, event, Side::Ours, Side::Theirs);
        }
        if stage(phase) >= 7 {
            agreed_before(start, events, event, Side::Base, Side::Theirs);
        }
        if stage(phase) >= 10 {
            keys_before(start, events, event, Side::Ours);
        }
        if stage(phase) >= 12 {
            keys_before(start, events, event, Side::Theirs);
        }
        if stage(phase) >= 20 {
            got_before(start, events, event, RequestModel::Apply, ReplyModel::Done);
        }
        if stage(phase) >= 21 {
            got_before(
                start,
                events,
                event,
                RequestModel::CheckIntegrity,
                ReplyModel::Integrity(seq!["ok"@]),
            );
        }
        if stage(phase) >= 22 {
            got_before(
                start,
                events,
                event,
                RequestModel::CheckForeignKeys,
                ReplyModel::ForeignKeys(Seq::<ViolationModel>::empty()),
            );
        }
    }
}

/// A passed comparison of two schemas tells that they agree.
proof fn comparison_tells(
    start: RunModel,
    events: Seq<Event>,
    a: Side,
    b: Side,
    x: Seq<RowModel>,
    y: Seq<RowModel>,
)
    requires
        got(start, events, RequestModel::ReadSchema { side: a }, ReplyModel::Schema(x)),
        got(start, events, RequestModel::ReadSchema { side: b }, ReplyModel::Schema(y)),
        same_schema(objects(x), objects(y)),
    ensures
        schemas_agreed(start, events, a, b),
{
}

/// One more count belongs to the next table.
proof fn count_tells(
    start: RunModel,
    events: Seq<Event>,
    side: Side,
    tables: Seq<Seq<char>>,
    counted: Seq<(Seq<char>, int)>,
    n: int,
)
    requires
        counts_of(start, events, side, tables, counted),
        counted.len() < tables.len(),
        got(
            start,
            events,
            RequestModel::CountKeyColumns { side, table: tables[counted.len() as int] },
            ReplyModel::KeyColumns(n),
        ),
    ensures
        counts_of(
            start,
            events,
            side,
            tables,
            counted.push((tables[counted.len() as int], n)),
        ),
{
    let more = counted.push((tables[counted.len() as int], n));
    assert forall|i: int| 0 <= i < more.len() implies (#[trigger] more[i]).0 == tables[i] && got(
        start,
        events,
        RequestModel::CountKeyColumns { side, table: tables[i] },
        ReplyModel::KeyColumns(more[i].1),
    ) by {
        if i < counted.len() {
            assert(more[i] == counted[i]);
        }
    }
}

/// After the counts, the next phase tells what they show.
proof fn after_count_tells(
    start: RunModel,
    events: Seq<Event>,
    side: Side,
    tables: Seq<Seq<char>>,
    counted: Seq<(Seq<char>, int)>,
)
    requires
        side != Side::Base,
        counts_of(start, events, side, tables, counted),
        schemas_agreed(start, events, Side::Ours, Side::Theirs),
        schemas_agreed(start, events, Side::Base, Side::Theirs),
        side == Side::Theirs ==> all_have_keys(start, events, Side::Ours),
    ensures
        tells(start, events, after_count(side, tables, counted)),
{
    reveal(tells);
    if counted.len() == tables.len() && keyless(counted).len() == 0 {
        counts_make_keys(start, events, side, tables, counted);
    }
}

/// The phase after a reply tells the truth where the phase before it did.
proof fn reply_tells(start: RunModel, events: Seq<Event>, run: RunModel, reply: ReplyModel)
    requires
        tells(start, events, run.phase),
        got(start, events, requested(run), reply),
    ensures
        tells(start, events, after_reply(run.phase, reply)),
{
    reveal(tells);
    match (run.phase, reply) {
        (_, ReplyModel::Failed(message)) => {},
        (PhaseModel::TheirsSchema { ours }, ReplyModel::Schema(theirs)) => {
            if same_schema(objects(ours), objects(theirs)) {
                comparison_tells(start, events, Side::Ours, Side::Theirs, ours, theirs);
            }
        },
        (PhaseModel::SideSchema { base }, ReplyModel::Schema(side)) => {
            if same_schema(objects(base), objects(side)) {
                comparison_tells(start, events, Side::Base, Side::Theirs, base, side);
            }
        },
        (PhaseModel::Tables { side }, ReplyModel::Tables(tables)) => {
            after_count_tells(start, events, side, tables, Seq::empty());
        },
        (PhaseModel::Keys { side, tables, counted }, ReplyModel::KeyColumns(n)) => {
            count_tells(start, events, side, tables, counted, n);
            after_count_tells(
                start,
                events,
                side,
                tables,
                counted.push((tables[counted.len() as int], n)),
            );
        },
        (PhaseModel::ForeignKeys, ReplyModel::ForeignKeys(rows)) => {
            if rows.len() == 0 {
                assert(rows == Seq::<ViolationModel>::empty());
            }
        },
        _ => {},
    }
}

/// A conflict changes nothing of what the phase tells.
proof fn conflict_tells(
    start: RunModel,
    events: Seq<Event>,
    run: RunModel,
    kind: ConflictType,
    item: ConflictItem,
)
    requires
        tells(start, events, run.phase),
    ensures
        tells(start, events, conflicted(run, kind, item).phase),
{
    reveal(tells);
}

/// Nor does the comparison of an update.
proof fn comparing_tells(start: RunModel, events: Seq<Event>, run: RunModel, item: ConflictItem)
    requires
        tells(start, events, run.phase),
    ensures
        tells(start, events, compared(run, item).phase),
{
    reveal(tells);
}

/// Every phase tells the truth about the course that led to it.
proof fn phases_tell(start: RunModel, events: Seq<Event>)
    requires
        start.phase is OpenTheirs,
    ensures
        tells(start, events, course(start, events).phase),
    decreases events.len(),
{
    if events.len() > 0 {
        let before = events.drop_last();
        let event = events.last();
        let run = course(start, before);
        phases_tell(start, before);
        assert(before.push(event) == events);
        still_tells(start, before, event, run.phase);
        match event {
            Event::Replied(reply) => {
                got_now(start, before, reply);
                reply_tells(start, events, run, reply);
            },
            Event::Compared(item) => {
                comparing_tells(start, events, run, item);
            },
            Event::Conflicted(kind, item) => {
                conflict_tells(start, events, run, kind, item);
            },
        }
    } else {
        reveal(tells);
    }
}

/// The changeset is applied only behind the gates: ours and theirs, and base and
/// theirs, were found to have the same schema, and every table of ours and of theirs
/// was found to have a primary key.
pub proof fn nothing_is_applied_before_the_gates(
    base_path: Seq<char>,
    ours_path: Seq<char>,
    theirs_path: Seq<char>,
    policies: Seq<(Seq<char>, ConflictPolicy)>,
    events: Seq<Event>,
)
    requires
        requested(course(begun(base_path, ours_path, theirs_path, policies), events)) is Apply,
    ensures
        gates_passed(begun(base_path, ours_path, theirs_path, policies), events),
{
    reveal(tells);
    phases_tell(begun(base_path, ours_path, theirs_path, policies), events);
}

/// A merge ends cleanly only where all gates were passed, the apply succeeded, the
/// integrity check reported `ok` and nothing else, and the foreign-key check
/// reported nothing.
pub proof fn clean_merges_passed_every_check(
    base_path: Seq<char>,
    ours_path: Seq<char>,
    theirs_path: Seq<char>,
    policies: Seq<(Seq<char>, ConflictPolicy)>,
    events: Seq<Event>,
)
    requires
        course(begun(base_path, ours_path, theirs_path, policies), events).phase
            == PhaseModel::Finished(Ok(())),
    ensures
        gates_passed(begun(base_path, ours_path, theirs_path, policies), events),
        got(
            begun(base_path, ours_path, theirs_path, policies),
            events,
            RequestModel::Apply,
            ReplyModel::Done,
        ),
        got(
            begun(base_path, ours_path, theirs_path, policies),
            events,
            RequestModel::CheckIntegrity,
            ReplyModel::Integrity(seq!["ok"@]),
        ),
        got(
            begun(base_path, ours_path, theirs_path, policies),
            events,
            RequestModel::CheckForeignKeys,
            ReplyModel::ForeignKeys(Seq::<ViolationModel>::empty()),
        ),
{
    reveal(tells);
    phases_tell(begun(base_path, ours_path, theirs_path, policies), events);
}

/// At some point in the course the apply was asked for.
pub open spec fn apply_was_requested(start: RunModel, events: Seq<Event>) -> bool {
    exists|k: int|
        0 <= k <= events.len() && requested(course(start, #[trigger] events.take(k))) is Apply
}

/// The merge was refused at a gate.
pub open spec fn refused_at_a_gate(run: RunModel) -> bool {
    run.phase matches PhaseModel::Finished(Err(e)) && (e is SchemaDiverged || e is BaseSchemaDiverged
        || e is MissingPrimaryKey)
}

proof fn after_the_apply(start: RunModel, events: Seq<Event>)
    requires
        apply_was_requested(start, events),
    ensures
        stage(course(start, events).phase) >= 19,
        !refused_at_a_gate(course(start, events)),
    decreases events.len(),
{
    let k = choose|k: int|
        0 <= k <= events.len() && requested(course(start, #[trigger] events.take(k))) is Apply;
    if k == events.len() {
        assert(events.take(k) == events);
    } else {
        let before = events.drop_last();
        assert(before.take(k) == events.take(k));
        after_the_apply(start, before);
    }
}

/// A merge that was refused at a gate never asked for the apply.
pub proof fn gates_refuse_before_the_apply(
    base_path: Seq<char>,
    ours_path: Seq<char>,
    theirs_path: Seq<char>,
    policies: Seq<(Seq<char>, ConflictPolicy)>,
    events: Seq<Event>,
)
    requires
        refused_at_a_gate(course(begun(base_path, ours_path, theirs_path, policies), events)),
    ensures
        !apply_was_requested(begun(base_path, ours_path, theirs_path, policies), events),
{
    let start = begun(base_path, ours_path, theirs_path, policies);
    if apply_was_requested(start, events) {
        after_the_apply(start, events);
    }
}

/// The conflict came up in the course: an update that was compared was in conflict, or
/// an abort was the answer to a conflict of the apply.
pub open spec fn came_up(start: RunModel, events: Seq<Event>, conflict: ConflictModel) -> bool {
    exists|k: int|
        {
            let run = course(start, #[trigger] events.take(k));
            &&& 0 <= k < events.len()
            &&& match events[k] {
                Event::Compared(item) => run.phase is Compare && stays_in_conflict(
                    run.policies,
                    item,
                ) && conflict == report(ConflictType::Data, item),
                Event::Conflicted(kind, item) => run.phase is Apply && conflict_answer(
                    run,
                    kind,
                    item,
                ) == ConflictAction::Abort && conflict == report(kind, item),
                Event::Replied(_) => false,
            }
        }
}

/// The conflicts that a phase holds.
pub open spec fn held(phase: PhaseModel) -> Seq<ConflictModel> {
    match phase {
        PhaseModel::Compare { unresolved } => unresolved,
        PhaseModel::Apply { unresolved } => unresolved,
        PhaseModel::Finished(Err(ErrorModel::Conflicts(conflicts))) => conflicts,
        _ => Seq::empty(),
    }
}

proof fn came_up_before(start: RunModel, events: Seq<Event>, event: Event, conflict: ConflictModel)
    requires
        came_up(start, events, conflict),
    ensures
        came_up(start, events.push(event), conflict),
{
    let k = choose|k: int|
        {
            let run = course(start, #[trigger] events.take(k));
            &&& 0 <= k < events.len()
            &&& match events[k] {
                Event::Compared(item) => run.phase is Compare && stays_in_conflict(
                    run.policies,
                    item,
                ) && conflict == report(ConflictType::Data, item),
                Event::Conflicted(kind, item) => run.phase is Apply && conflict_answer(
                    run,
                    kind,
                    item,
                ) == ConflictAction::Abort && conflict == report(kind, item),
                Event::Replied(_) => false,
            }
        };
    assert(events.push(event).take(k) == events.take(k));
    assert(events.push(event)[k] == events[k]);
}

proof fn held_conflicts_came_up(start: RunModel, events: Seq<Event>)
    requires
        start.phase is OpenTheirs,
    ensures
        forall|i: int|
            0 <= i < held(course(start, events).phase).len() ==> came_up(
                start,
                events,
                #[trigger] held(course(start, events).phase)[i],
            ),
        course(start, events).phase matches PhaseModel::Finished(
            Err(ErrorModel::Conflicts(conflicts)),
        ) ==> conflicts.len() > 0,
    decreases events.len(),
{
    if events.len() > 0 {
        let before = events.drop_last();
        let event = events.last();
        let run = course(start, before);
        let now = held(course(start, events).phase);
        let earlier = held(run.phase);
        held_conflicts_came_up(start, before);
        assert(before.push(event) == events);
        assert(events.take(before.len() as int) == before);
        assert(events[before.len() as int] == event);
        assert forall|i: int| 0 <= i < now.len() implies came_up(
            start,
            events,
            #[trigger] now[i],
        ) by {
            if i < earlier.len() {
                assert(now[i] == earlier[i]);
                came_up_before(start, before, event, earlier[i]);
            }
        }
    }
}

/// A merge that is refused for conflicts has some, and each of those that it reports
/// came up: an update was found in conflict, or an abort was answered.
pub proof fn reported_conflicts_came_up(
    base_path: Seq<char>,
    ours_path: Seq<char>,
    theirs_path: Seq<char>,
    policies: Seq<(Seq<char>, ConflictPolicy)>,
    events: Seq<Event>,
    conflicts: Seq<ConflictModel>,
)
    requires
        course(begun(base_path, ours_path, theirs_path, policies), events).phase
            == PhaseModel::Finished(Err(ErrorModel::Conflicts(conflicts))),
    ensures
        conflicts.len() > 0,
        forall|i: int|
            0 <= i < conflicts.len() ==> came_up(
                begun(base_path, ours_path, theirs_path, policies),
                events,
                #[trigger] conflicts[i],
            ),
{
    let start = begun(base_path, ours_path, theirs_path, policies);
    held_conflicts_came_up(start, events);
    assert(held(course(start, events).phase) == conflicts);
}

/// The request changes the content of a database.
pub open spec fn writes_to(request: RequestModel, side: Side) -> bool {
    match request {
        RequestModel::Execute { side: s, .. } => s == side,
        RequestModel::Apply => side == Side::Ours,
        _ => false,
    }
}

/// Nothing but the apply changes ours, and nothing changes base. On theirs no statement
/// is executed but those that attach base and detach it again.
pub proof fn only_the_apply_changes_ours(run: RunModel)
    ensures
        writes_to(requested(run), Side::Ours) ==> requested(run) is Apply,
        !writes_to(requested(run), Side::Base),
        requested(run) matches RequestModel::Execute { side, sql } ==> side == Side::Theirs && (sql
            == attach_sql(run.base_path) || sql == detach_sql()),
{
}

/// The reports on the conflicts that are answered with an abort, in their order.
pub open spec fn unresolved_reports(
    policies: Seq<(Seq<char>, ConflictPolicy)>,
    conflicts: Seq<(ConflictType, ConflictItem)>,
) -> Seq<ConflictModel>
    decreases conflicts.len(),
{
    if conflicts.len() == 0 {
        Seq::empty()
    } else {
        let before = unresolved_reports(policies, conflicts.drop_last());
        let (kind, item) = conflicts.last();
        if answer(policies, kind, item) == ConflictAction::Abort {
            before.push(report(kind, item))
        } else {
            before
        }
    }
}

/// The conflicts as events.
pub open spec fn as_events(conflicts: Seq<(ConflictType, ConflictItem)>) -> Seq<Event> {
    Seq::new(conflicts.len(), |i: int| Event::Conflicted(conflicts[i].0, conflicts[i].1))
}

proof fn conflicts_are_kept(run: RunModel, conflicts: Seq<(ConflictType, ConflictItem)>)
    requires
        run.phase == (PhaseModel::Apply { unresolved: Seq::<ConflictModel>::empty() }),
    ensures
        course(run, as_events(conflicts)) == (RunModel {
            phase: PhaseModel::Apply { unresolved: unresolved_reports(run.policies, conflicts) },
            ..run
        }),
    decreases conflicts.len(),
{
    if conflicts.len() > 0 {
        conflicts_are_kept(run, conflicts.drop_last());
        assert(as_events(conflicts).drop_last() == as_events(conflicts.drop_last()));
    }
}

/// A merge in whose apply some conflicts came up ends with a report on exactly those
/// that were answered with an abort, in their order, where there are any. Where there
/// are none the outcome of the apply decides.
pub proof fn unresolved_conflicts_refuse_the_merge(
    run: RunModel,
    conflicts: Seq<(ConflictType, ConflictItem)>,
    reply: ReplyModel,
)
    requires
        run.phase == (PhaseModel::Apply { unresolved: Seq::<ConflictModel>::empty() }),
        reply is Done || reply is Failed,
    ensures
        replied(course(run, as_events(conflicts)), reply).phase == (if unresolved_reports(
            run.policies,
            conflicts,
        ).len() > 0 {
            PhaseModel::Finished(
                Err(ErrorModel::Conflicts(unresolved_reports(run.policies, conflicts))),
            )
        } else {
            match reply {
                ReplyModel::Failed(message) => PhaseModel::Finished(
                    Err(ErrorModel::Sqlite(message)),
                ),
                _ => PhaseModel::Integrity,
            }
        }),
{
    conflicts_are_kept(run, conflicts);
}

/// A row that an apply finds changed differently refuses the merge, with one report that
/// names its table, where the table is left to `Abort` and no other conflict comes up.
pub proof fn different_changes_refuse_the_merge(
    run: RunModel,
    item: ConflictItem,
    reply: ReplyModel,
)
    requires
        run.phase == (PhaseModel::Apply { unresolved: Seq::<ConflictModel>::empty() }),
        reply is Done || reply is Failed,
        policy_over(run.policies, item) == ConflictPolicy::Abort,
        item.operation matches Some(op) && op.columns >= 0 && !same_row(
            item.current_values@,
            item.their_values@,
            op.columns as int,
        ),
    ensures
        replied(conflicted(run, ConflictType::Data, item), reply).phase == PhaseModel::Finished(
            Err(ErrorModel::Conflicts(seq![report(ConflictType::Data, item)])),
        ),
        report(ConflictType::Data, item).table == item.operation->0.table@,
{
    different_changes_are_conflicts(run.policies, item);
    assert(Seq::<ConflictModel>::empty().push(report(ConflictType::Data, item)) == seq![
        report(ConflictType::Data, item),
    ]);
}

/// The reports on the updates that are in conflict before the apply, in their order.
pub open spec fn differing_reports(
    policies: Seq<(Seq<char>, ConflictPolicy)>,
    changes: Seq<ConflictItem>,
) -> Seq<ConflictModel>
    decreases changes.len(),
{
    if changes.len() == 0 {
        Seq::empty()
    } else {
        let before = differing_reports(policies, changes.drop_last());
        if stays_in_conflict(policies, changes.last()) {
            before.push(report(ConflictType::Data, changes.last()))
        } else {
            before
        }
    }
}

/// The comparisons of some updates as events.
pub open spec fn as_comparisons(changes: Seq<ConflictItem>) -> Seq<Event> {
    Seq::new(changes.len(), |i: int| Event::Compared(changes[i]))
}

proof fn differences_are_kept(run: RunModel, changes: Seq<ConflictItem>)
    requires
        run.phase == (PhaseModel::Compare { unresolved: Seq::<ConflictModel>::empty() }),
    ensures
        course(run, as_comparisons(changes)) == (RunModel {
            phase: PhaseModel::Compare { unresolved: differing_reports(run.policies, changes) },
            ..run
        }),
    decreases changes.len(),
{
    if changes.len() > 0 {
        differences_are_kept(run, changes.drop_last());
        assert(as_comparisons(changes).drop_last() == as_comparisons(changes.drop_last()));
    }
}

/// A merge of whose updates some are in conflict with ours ends before the apply, with a
/// report on exactly those, in their order. Where there are none it goes on.
pub proof fn differing_rows_refuse_the_merge(run: RunModel, changes: Seq<ConflictItem>)
    requires
        run.phase == (PhaseModel::Compare { unresolved: Seq::<ConflictModel>::empty() }),
    ensures
        replied(course(run, as_comparisons(changes)), ReplyModel::Done).phase == (
        if differing_reports(run.policies, changes).len() > 0 {
            PhaseModel::Finished(
                Err(ErrorModel::Conflicts(differing_reports(run.policies, changes))),
            )
        } else {
            PhaseModel::Detach
        }),
{
    differences_are_kept(run, changes);
}

/// Where base, ours and theirs hold three different rows under one key, and do so under
/// no other, the merge is refused before anything is applied, with one report that names
/// the table of the row, if that table is left to `Abort`.
pub proof fn three_different_rows_refuse_the_merge(
    run: RunModel,
    changes: Seq<ConflictItem>,
    k: int,
)
    requires
        run.phase == (PhaseModel::Compare { unresolved: Seq::<ConflictModel>::empty() }),
        0 <= k < changes.len(),
        changed_differently(changes[k]),
        policy_over(run.policies, changes[k]) == ConflictPolicy::Abort,
        forall|i: int|
            0 <= i < changes.len() && i != k ==> !changed_differently(#[trigger] changes[i]),
    ensures
        replied(course(run, as_comparisons(changes)), ReplyModel::Done).phase
            == PhaseModel::Finished(
            Err(ErrorModel::Conflicts(seq![report(ConflictType::Data, changes[k])])),
        ),
        report(ConflictType::Data, changes[k]).table == changes[k].operation->0.table@,
{
    differing_rows_refuse_the_merge(run, changes);
    three_different_rows_are_a_conflict(run.policies, changes[k]);
    one_report(run.policies, changes, k);
}

proof fn one_report(
    policies: Seq<(Seq<char>, ConflictPolicy)>,
    changes: Seq<ConflictItem>,
    k: int,
)
    requires
        k < changes.len(),
        k >= 0 ==> stays_in_conflict(policies, changes[k]),
        forall|i: int|
            0 <= i < changes.len() && i != k ==> !changed_differently(#[trigger] changes[i]),
    ensures
        differing_reports(policies, changes) == (if k >= 0 {
            seq![report(ConflictType::Data, changes[k])]
        } else {
            Seq::empty()
        }),
    decreases changes.len(),
{
    if changes.len() > 0 {
        let before = changes.drop_last();
        assert(forall|i: int| 0 <= i < before.len() ==> (#[trigger] before[i]) == changes[i]);
        if k == before.len() {
            one_report(policies, before, -1);
            assert(differing_reports(policies, changes) =~= seq![
                report(ConflictType::Data, changes[k]),
            ]);
        } else {
            one_report(policies, before, k);
            assert(!changed_differently(changes[changes.len() - 1]));
        }
    }
}

/// Once a merge has ended nothing changes its outcome.
pub proof fn outcomes_are_final(run: RunModel, events: Seq<Event>)
    requires
        run.phase is Finished,
    ensures
        course(run, events) == run,
    decreases events.len(),
{
    if events.len() > 0 {
        outcomes_are_final(run, events.drop_last());
    }
}

/// A failure always ends the merge with a refusal.
pub proof fn failures_refuse_the_merge(run: RunModel, message: Seq<char>)
    requires
        !(run.phase is Finished),
    ensures
        replied(run, ReplyModel::Failed(message)).phase matches PhaseModel::Finished(Err(_)),
{
}

/// The reply is one to what was asked for.
pub open spec fn replies_to(request: RequestModel, reply: ReplyModel) -> bool {
    match reply {
        ReplyModel::Done => {
            ||| request is Open
            ||| request is Close
            ||| request is Execute
            ||| request is BeginSession
            ||| request is Diff
            ||| request is TakeChangeset
            ||| request is CompareRows
            ||| request is Apply
        },
        ReplyModel::Schema(_) => request is ReadSchema,
        ReplyModel::Tables(_) => request is ListTables,
        ReplyModel::KeyColumns(_) => request is CountKeyColumns,
        ReplyModel::Integrity(_) => request is CheckIntegrity,
        ReplyModel::ForeignKeys(_) => request is CheckForeignKeys,
        ReplyModel::Failed(_) => !(request is Finish),
    }
}

/// How many items of its list a phase has left.
pub open spec fn items_left(phase: PhaseModel) -> int {
    match phase {
        PhaseModel::Keys { tables, counted, .. } => tables.len() - counted.len(),
        PhaseModel::Diff { tables, recorded } => tables.len() - recorded,
        _ => 0,
    }
}

/// Every reply to what was asked for brings the merge nearer to its end: to a later
/// stage, or to the next item of a list. No other reply changes anything.
pub proof fn every_reply_makes_progress(run: RunModel, reply: ReplyModel)
    requires
        run.phase matches PhaseModel::Tables { side } ==> side != Side::Base,
        run.phase matches PhaseModel::Keys { side, .. } ==> side != Side::Base,
    ensures
        replies_to(requested(run), reply) ==> {
            let next = after_reply(run.phase, reply);
            ||| stage(next) > stage(run.phase)
            ||| stage(next) == stage(run.phase) && 0 <= items_left(next) < items_left(run.phase)
        },
        !replies_to(requested(run), reply) ==> replied(run, reply) == run,
{
}

/// What the sources of a merge hold, as far as its gates read it.
pub struct Contents {
    /// The schema of ours, and that of theirs when it is compared with it.
    pub ours: Seq<RowModel>,
    pub theirs: Seq<RowModel>,
    /// The schema of base, and that of theirs when it is compared with it.
    pub base: Seq<RowModel>,
    pub side: Seq<RowModel>,
    /// The tables of ours and theirs, and the numbers of their key columns.
    pub our_tables: Seq<Seq<char>>,
    pub our_keys: Seq<int>,
    pub their_tables: Seq<Seq<char>>,
    pub their_keys: Seq<int>,
    /// The tables to compare.
    pub compared: Seq<Seq<char>>,
}

/// The contents pass all gates.
pub open spec fn pass_gates(f: Contents) -> bool {
    &&& same_schema(objects(f.ours), objects(f.theirs))
    &&& same_schema(objects(f.base), objects(f.side))
    &&& f.our_keys.len() == f.our_tables.len()
    &&& f.their_keys.len() == f.their_tables.len()
    &&& forall|i: int| 0 <= i < f.our_keys.len() ==> #[trigger] f.our_keys[i] > 0
    &&& forall|i: int| 0 <= i < f.their_keys.len() ==> #[trigger] f.their_keys[i] > 0
}

/// The replies about the schemas.
pub open spec fn schema_replies(f: Contents) -> Seq<Event> {
    seq![
        Event::Replied(ReplyModel::Done),
        Event::Replied(ReplyModel::Done),
        Event::Replied(ReplyModel::Schema(f.ours)),
        Event::Replied(ReplyModel::Schema(f.theirs)),
        Event::Replied(ReplyModel::Done),
        Event::Replied(ReplyModel::Schema(f.base)),
        Event::Replied(ReplyModel::Schema(f.side)),
        Event::Replied(ReplyModel::Done),
    ]
}

/// The replies about the tables of one side.
pub open spec fn key_replies(tables: Seq<Seq<char>>, keys: Seq<int>) -> Seq<Event> {
    seq![Event::Replied(ReplyModel::Tables(tables))] + Seq::new(
        keys.len(),
        |i: int| Event::Replied(ReplyModel::KeyColumns(keys[i])),
    )
}

/// The replies while the changeset is made.
pub open spec fn diff_replies(tables: Seq<Seq<char>>) -> Seq<Event> {
    seq![
        Event::Replied(ReplyModel::Done),
        Event::Replied(ReplyModel::Done),
        Event::Replied(ReplyModel::Tables(tables)),
    ] + Seq::new(tables.len(), |i: int| Event::Replied(ReplyModel::Done)) + seq![
        Event::Replied(ReplyModel::Done),
    ]
}

/// The replies between the comparison of the updates and the apply.
pub open spec fn detach_replies() -> Seq<Event> {
    seq![Event::Replied(ReplyModel::Done), Event::Replied(ReplyModel::Done)]
}

/// The replies of an apply that succeeds and leaves a sound database.
pub open spec fn sound_replies() -> Seq<Event> {
    seq![
        Event::Replied(ReplyModel::Done),
        Event::Replied(ReplyModel::Integrity(seq!["ok"@])),
        Event::Replied(ReplyModel::ForeignKeys(Seq::empty())),
    ]
}

/// Everything that happens to a merge with these contents, updates and conflicts in
/// which nothing fails.
pub open spec fn smooth_course(
    f: Contents,
    changes: Seq<ConflictItem>,
    conflicts: Seq<(ConflictType, ConflictItem)>,
) -> Seq<Event> {
    schema_replies(f) + key_replies(f.our_tables, f.our_keys) + key_replies(
        f.their_tables,
        f.their_keys,
    ) + diff_replies(f.compared) + as_comparisons(changes) + detach_replies() + as_events(conflicts)
        + sound_replies()
}

proof fn course_goes_on(start: RunModel, first: Seq<Event>, then: Seq<Event>)
    ensures
        course(start, first + then) == course(course(start, first), then),
    decreases then.len(),
{
    if then.len() == 0 {
        assert(first + then == first);
    } else {
        assert((first + then).drop_last() == first + then.drop_last());
        course_goes_on(start, first, then.drop_last());
    }
}

proof fn one_reply(start: RunModel, events: Seq<Event>, reply: ReplyModel)
    ensures
        course(start, events.push(Event::Replied(reply))) == replied(course(start, events), reply),
{
    assert(events.push(Event::Replied(reply)).drop_last() == events);
}

proof fn schemas_pass(start: RunModel, f: Contents)
    requires
        start.phase is OpenTheirs,
        pass_gates(f),
    ensures
        course(start, schema_replies(f)) == (RunModel {
            phase: PhaseModel::Tables { side: Side::Ours },
            ..start
        }),
{
    let all = schema_replies(f);
    let e0 = Seq::<Event>::empty();
    let e1 = e0.push(all[0]);
    let e2 = e1.push(all[1]);
    let e3 = e2.push(all[2]);
    let e4 = e3.push(all[3]);
    let e5 = e4.push(all[4]);
    let e6 = e5.push(all[5]);
    let e7 = e6.push(all[6]);
    let e8 = e7.push(all[7]);
    assert(e8 =~= all);
    one_reply(start, e0, ReplyModel::Done);
    one_reply(start, e1, ReplyModel::Done);
    one_reply(start, e2, ReplyModel::Schema(f.ours));
    one_reply(start, e3, ReplyModel::Schema(f.theirs));
    one_reply(start, e4, ReplyModel::Done);
    one_reply(start, e5, ReplyModel::Schema(f.base));
    one_reply(start, e6, ReplyModel::Schema(f.side));
    one_reply(start, e7, ReplyModel::Done);
}

/// The counts of the first tables.
spec fn counts(tables: Seq<Seq<char>>, keys: Seq<int>, n: int) -> Seq<(Seq<char>, int)> {
    Seq::new(n as nat, |i: int| (tables[i], keys[i]))
}

proof fn keys_pass_so_far(
    run: RunModel,
    side: Side,
    tables: Seq<Seq<char>>,
    keys: Seq<int>,
    n: int,
)
    requires
        run.phase == (PhaseModel::Tables { side }),
        keys.len() == tables.len(),
        0 <= n <= tables.len(),
    ensures
        course(run, key_replies(tables, keys).take(n + 1)) == (RunModel {
            phase: after_count(side, tables, counts(tables, keys, n)),
            ..run
        }),
    decreases n,
{
    let all = key_replies(tables, keys);
    if n == 0 {
        let none = Seq::<Event>::empty();
        assert(all.take(1) =~= none.push(Event::Replied(ReplyModel::Tables(tables))));
        one_reply(run, none, ReplyModel::Tables(tables));
        assert(counts(tables, keys, 0) =~= Seq::empty());
    } else {
        keys_pass_so_far(run, side, tables, keys, n - 1);
        assert(all.take(n + 1) =~= all.take(n).push(
            Event::Replied(ReplyModel::KeyColumns(keys[n - 1])),
        ));
        one_reply(run, all.take(n), ReplyModel::KeyColumns(keys[n - 1]));
        assert(counts(tables, keys, n) =~= counts(tables, keys, n - 1).push(
            (tables[n - 1], keys[n - 1]),
        ));
    }
}

proof fn keys_pass(run: RunModel, side: Side, tables: Seq<Seq<char>>, keys: Seq<int>)
    requires
        run.phase == (PhaseModel::Tables { side }),
        keys.len() == tables.len(),
        forall|i: int| 0 <= i < keys.len() ==> #[trigger] keys[i] > 0,
    ensures
        course(run, key_replies(tables, keys)) == (RunModel {
            phase: if side == Side::Ours {
                PhaseModel::Tables { side: Side::Theirs }
            } else {
                PhaseModel::Attach
            },
            ..run
        }),
{
    let n = tables.len() as int;
    keys_pass_so_far(run, side, tables, keys, n);
    assert(key_replies(tables, keys).take(n + 1) =~= key_replies(tables, keys));
    let all = counts(tables, keys, n);
    assert forall|i: int| 0 <= i < all.len() implies (#[trigger] all[i]).1 > 0 by {
        assert(keys[i] > 0);
    }
    keyless_is_empty_when_all_have_keys(all);
}

proof fn diffs_pass_so_far(run: RunModel, tables: Seq<Seq<char>>, n: int)
    requires
        run.phase is Attach,
        0 <= n <= tables.len(),
    ensures
        course(run, diff_replies(tables).take(3 + n)) == (RunModel {
            phase: after_diff(tables, n),
            ..run
        }),
    decreases n,
{
    let all = diff_replies(tables);
    if n == 0 {
        let e0 = Seq::<Event>::empty();
        let e1 = e0.push(Event::Replied(ReplyModel::Done));
        let e2 = e1.push(Event::Replied(ReplyModel::Done));
        let e3 = e2.push(Event::Replied(ReplyModel::Tables(tables)));
        assert(all.take(3) =~= e3);
        one_reply(run, e0, ReplyModel::Done);
        one_reply(run, e1, ReplyModel::Done);
        one_reply(run, e2, ReplyModel::Tables(tables));
    } else {
        diffs_pass_so_far(run, tables, n - 1);
        assert(all.take(3 + n) =~= all.take(3 + n - 1).push(Event::Replied(ReplyModel::Done)));
        one_reply(run, all.take(3 + n - 1), ReplyModel::Done);
    }
}

proof fn diffs_pass(run: RunModel, tables: Seq<Seq<char>>)
    requires
        run.phase is Attach,
    ensures
        course(run, diff_replies(tables)) == (RunModel {
            phase: PhaseModel::Compare { unresolved: Seq::empty() },
            ..run
        }),
{
    let all = diff_replies(tables);
    let n = tables.len() as int;
    diffs_pass_so_far(run, tables, n);
    let e0 = all.take(3 + n);
    let e1 = e0.push(Event::Replied(ReplyModel::Done));
    assert(all =~= e1);
    one_reply(run, e0, ReplyModel::Done);
}

proof fn detach_passes(run: RunModel)
    requires
        run.phase == (PhaseModel::Compare { unresolved: Seq::<ConflictModel>::empty() }),
    ensures
        course(run, detach_replies()) == (RunModel {
            phase: PhaseModel::Apply { unresolved: Seq::empty() },
            ..run
        }),
{
    let e0 = Seq::<Event>::empty();
    let e1 = e0.push(Event::Replied(ReplyModel::Done));
    let e2 = e1.push(Event::Replied(ReplyModel::Done));
    assert(detach_replies() =~= e2);
    one_reply(run, e0, ReplyModel::Done);
    one_reply(run, e1, ReplyModel::Done);
}

proof fn same_rows_leave_no_report(
    policies: Seq<(Seq<char>, ConflictPolicy)>,
    changes: Seq<ConflictItem>,
)
    requires
        forall|i: int|
            0 <= i < changes.len() ==> !stays_in_conflict(policies, #[trigger] changes[i]),
    ensures
        differing_reports(policies, changes) == Seq::<ConflictModel>::empty(),
    decreases changes.len(),
{
    if changes.len() > 0 {
        let before = changes.drop_last();
        assert(forall|i: int| 0 <= i < before.len() ==> (#[trigger] before[i]) == changes[i]);
        assert(!stays_in_conflict(policies, changes[changes.len() - 1]));
        same_rows_leave_no_report(policies, before);
    }
}

proof fn sound_apply_passes(run: RunModel)
    requires
        run.phase == (PhaseModel::Apply { unresolved: Seq::<ConflictModel>::empty() }),
    ensures
        course(run, sound_replies()).phase == PhaseModel::Finished(Ok(())),
{
    let all = sound_replies();
    let e0 = Seq::<Event>::empty();
    let e1 = e0.push(all[0]);
    let e2 = e1.push(all[1]);
    let e3 = e2.push(all[2]);
    assert(all =~= e3);
    one_reply(run, e0, ReplyModel::Done);
    one_reply(run, e1, ReplyModel::Integrity(seq!["ok"@]));
    one_reply(run, e2, ReplyModel::ForeignKeys(Seq::empty()));
}

/// A merge in which nothing fails ends cleanly wherever the contents pass all gates, no
/// update is in conflict, and every conflict of the apply is resolved.
pub proof fn sound_merges_end_cleanly(
    base_path: Seq<char>,
    ours_path: Seq<char>,
    theirs_path: Seq<char>,
    policies: Seq<(Seq<char>, ConflictPolicy)>,
    f: Contents,
    changes: Seq<ConflictItem>,
    conflicts: Seq<(ConflictType, ConflictItem)>,
)
    requires
        pass_gates(f),
        forall|i: int|
            0 <= i < changes.len() ==> !stays_in_conflict(policies, #[trigger] changes[i]),
        forall|i: int|
            0 <= i < conflicts.len() ==> answer(
                policies,
                (#[trigger] conflicts[i]).0,
                conflicts[i].1,
            ) != ConflictAction::Abort,
    ensures
        course(
            begun(base_path, ours_path, theirs_path, policies),
            smooth_course(f, changes, conflicts),
        ).phase == PhaseModel::Finished(Ok(())),
{
    let start = begun(base_path, ours_path, theirs_path, policies);
    let a = schema_replies(f);
    let b = key_replies(f.our_tables, f.our_keys);
    let c = key_replies(f.their_tables, f.their_keys);
    let d = diff_replies(f.compared);
    let g = as_comparisons(changes);
    let h = detach_replies();
    let e = as_events(conflicts);
    let run1 = RunModel { phase: PhaseModel::Tables { side: Side::Ours }, ..start };
    let run2 = RunModel { phase: PhaseModel::Tables { side: Side::Theirs }, ..start };
    let run3 = RunModel { phase: PhaseModel::Attach, ..start };
    let run4 = RunModel { phase: PhaseModel::Compare { unresolved: Seq::empty() }, ..start };
    let run5 = RunModel { phase: PhaseModel::Apply { unresolved: Seq::empty() }, ..start };
    schemas_pass(start, f);
    course_goes_on(start, a, b);
    keys_pass(run1, Side::Ours, f.our_tables, f.our_keys);
    course_goes_on(start, a + b, c);
    keys_pass(run2, Side::Theirs, f.their_tables, f.their_keys);
    course_goes_on(start, a + b + c, d);
    diffs_pass(run3, f.compared);
    course_goes_on(start, a + b + c + d, g);
    differences_are_kept(run4, changes);
    same_rows_leave_no_report(policies, changes);
    course_goes_on(start, a + b + c + d + g, h);
    detach_passes(run4);
    course_goes_on(start, a + b + c + d + g + h, e);
    conflicts_are_kept(run5, conflicts);
    resolved_conflicts_leave_no_report(policies, conflicts);
    course_goes_on(start, a + b + c + d + g + h + e, sound_replies());
    sound_apply_passes(run5);
}

proof fn resolved_conflicts_leave_no_report(
    policies: Seq<(Seq<char>, ConflictPolicy)>,
    conflicts: Seq<(ConflictType, ConflictItem)>,
)
    requires
        forall|i: int|
            0 <= i < conflicts.len() ==> answer(
                policies,
                (#[trigger] conflicts[i]).0,
                conflicts[i].1,
            ) != ConflictAction::Abort,
    ensures
        unresolved_reports(policies, conflicts) == Seq::<ConflictModel>::empty(),
    decreases conflicts.len(),
{
    if conflicts.len() > 0 {
        let before = conflicts.drop_last();
        assert(answer(
            policies,
            conflicts[conflicts.len() - 1].0,
            conflicts[conflicts.len() - 1].1,
        ) != ConflictAction::Abort);
        assert forall|i: int| 0 <= i < before.len() implies answer(
            policies,
            (#[trigger] before[i]).0,
            before[i].1,
        ) != ConflictAction::Abort by {
            assert(before[i] == conflicts[i]);
        }
        resolved_conflicts_leave_no_report(policies, before);
    }
}

} // verus!
