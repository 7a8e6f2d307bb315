//! What equal values and rows are, how a conflict is answered under each policy, and what
//! a report on it shows.
use vstd::prelude::*;
use vstd::utf8::{decode_utf8, encode_utf8, valid_utf8};

use crate::config::policy_in;
use crate::merge::{
    answer, changed_differently, column, is_key_column, key_column_text, key_texts, known_row,
    known_texts, report, rows_conflict, same_row, same_value, stays_in_conflict, value_text,
    Action, ConflictAction, ConflictItem, ConflictPolicy, ConflictType, Value,
};
use crate::text::decimal;

verus! {

/// Two values are equal only within one type: two nulls, the same integer, numbers of the
/// same bits, and texts or blobs of the same length that hold the same byte at every
/// place.
pub proof fn equal_values_have_the_same_payload(a: Value, b: Value)
    ensures
        a is Null ==> same_value(a, b) == b is Null,
        a matches Value::Integer(x) ==> (same_value(a, b) <==> (b matches Value::Integer(y) && x
            == y)),
        a matches Value::Real { bits: x, text: _ } ==> (same_value(a, b) <==> (
        b matches Value::Real { bits: y, text: _ } && x == y)),
        a matches Value::Text(x) ==> (same_value(a, b) <==> (b matches Value::Text(y) && x@.len()
            == y@.len() && forall|i: int| 0 <= i < x@.len() ==> #[trigger] x@[i] == y@[i])),
        a matches Value::Blob(x) ==> (same_value(a, b) <==> (b matches Value::Blob(y) && x@.len()
            == y@.len() && forall|i: int| 0 <= i < x@.len() ==> #[trigger] x@[i] == y@[i])),
{
    match (a, b) {
        (Value::Text(x), Value::Text(y)) => {
            if x@.len() == y@.len() && forall|i: int|
                0 <= i < x@.len() ==> #[trigger] x@[i] == y@[i] {
                assert(x@ =~= y@);
            }
        },
        (Value::Blob(x), Value::Blob(y)) => {
            if x@.len() == y@.len() && forall|i: int|
                0 <= i < x@.len() ==> #[trigger] x@[i] == y@[i] {
                assert(x@ =~= y@);
            }
        },
        _ => {},
    }
}

/// The first `columns` columns of both rows are there, at least one of them, and hold
/// values that are equal in every column.
pub open spec fn equal_throughout(
    a: Seq<Option<Value>>,
    b: Seq<Option<Value>>,
    columns: int,
) -> bool {
    &&& 0 < columns <= a.len()
    &&& columns <= b.len()
    &&& forall|col: int|
        0 <= col < columns ==> (#[trigger] a[col]) is Some && b[col] is Some && same_value(
            a[col]->0,
            b[col]->0,
        )
}

/// The first `columns` columns of a row are there, at least one of them, and every one of
/// them holds a value.
pub open spec fn known_throughout(values: Seq<Option<Value>>, columns: int) -> bool {
    &&& 0 < columns <= values.len()
    &&& forall|col: int| 0 <= col < columns ==> (#[trigger] values[col]) is Some
}

/// Two known rows differ in one of their columns.
pub open spec fn differ_somewhere(
    a: Seq<Option<Value>>,
    b: Seq<Option<Value>>,
    columns: int,
) -> bool {
    exists|col: int| 0 <= col < columns && !same_value((#[trigger] a[col])->0, b[col]->0)
}

/// Rows are the same where they are equal throughout, and a row is known where every
/// column of it is.
pub proof fn rows_are_compared_in_every_column(
    a: Seq<Option<Value>>,
    b: Seq<Option<Value>>,
    columns: int,
)
    ensures
        same_row(a, b, columns) <==> equal_throughout(a, b, columns),
        known_row(a, columns) <==> known_throughout(a, columns),
{
    if same_row(a, b, columns) {
        assert(column(a, columns - 1) is Some);
        assert(column(b, columns - 1) is Some);
        assert forall|col: int| 0 <= col < columns implies (#[trigger] a[col]) is Some
            && b[col] is Some && same_value(a[col]->0, b[col]->0) by {
            assert(column(a, col) is Some);
        }
    }
    if equal_throughout(a, b, columns) {
        assert forall|col: int|
            #![trigger column(a, col)]
            #![trigger column(b, col)]
            0 <= col < columns implies {
            &&& column(a, col) matches Some(x)
            &&& column(b, col) matches Some(y)
            &&& same_value(x, y)
        } by {
            assert(a[col] is Some);
        }
    }
    if known_row(a, columns) {
        assert(column(a, columns - 1) is Some);
        assert forall|col: int| 0 <= col < columns implies (#[trigger] a[col]) is Some by {
            assert(column(a, col) is Some);
        }
    }
    if known_throughout(a, columns) {
        assert forall|col: int| 0 <= col < columns implies #[trigger] column(a, col) is Some by {
            assert(a[col] is Some);
        }
    }
}

/// Three known rows under one key are in conflict exactly where each two of them differ
/// somewhere: wherever two are equal throughout, at most one side changed the row, or
/// both came to the same.
pub proof fn rows_in_conflict_differ_in_pairs(
    base: Seq<Option<Value>>,
    ours: Seq<Option<Value>>,
    theirs: Seq<Option<Value>>,
    columns: int,
)
    ensures
        rows_conflict(base, ours, theirs, columns) <==> {
            &&& known_throughout(base, columns)
            &&& known_throughout(ours, columns)
            &&& known_throughout(theirs, columns)
            &&& differ_somewhere(base, ours, columns)
            &&& differ_somewhere(base, theirs, columns)
            &&& differ_somewhere(ours, theirs, columns)
        },
{
    rows_are_compared_in_every_column(base, ours, columns);
    rows_are_compared_in_every_column(base, theirs, columns);
    rows_are_compared_in_every_column(ours, theirs, columns);
    rows_are_compared_in_every_column(theirs, base, columns);
    if known_throughout(base, columns) && known_throughout(ours, columns) && known_throughout(
        theirs,
        columns,
    ) {
        known_rows_differ_or_are_equal(base, ours, columns);
        known_rows_differ_or_are_equal(base, theirs, columns);
        known_rows_differ_or_are_equal(ours, theirs, columns);
    }
}

proof fn known_rows_differ_or_are_equal(
    a: Seq<Option<Value>>,
    b: Seq<Option<Value>>,
    columns: int,
)
    requires
        known_throughout(a, columns),
        known_throughout(b, columns),
    ensures
        differ_somewhere(a, b, columns) != equal_throughout(a, b, columns),
{
    if !differ_somewhere(a, b, columns) {
        assert forall|col: int| 0 <= col < columns implies (#[trigger] a[col]) is Some
            && b[col] is Some && same_value(a[col]->0, b[col]->0) by {
            assert(b[col] is Some);
        }
    }
}

/// Both sides made the same change: an INSERT met a row of ours that is equal to the new
/// row in every column, a DELETE met no row, or an UPDATE met a row of ours that is equal
/// to that of theirs in every column.
pub open spec fn sides_agree(kind: ConflictType, item: ConflictItem) -> bool {
    item.operation matches Some(op) && {
        ||| kind == ConflictType::Conflict && equal_throughout(
            item.current_values@,
            item.new_values@,
            op.columns as int,
        )
        ||| kind == ConflictType::NotFound && op.action == Action::Delete
        ||| kind == ConflictType::Data && op.action == Action::Update && equal_throughout(
            item.current_values@,
            item.their_values@,
            op.columns as int,
        )
    }
}

/// What both sides did alike is omitted, under every policy.
pub proof fn agreeing_sides_are_omitted(
    policies: Seq<(Seq<char>, ConflictPolicy)>,
    kind: ConflictType,
    item: ConflictItem,
)
    requires
        sides_agree(kind, item),
    ensures
        answer(policies, kind, item) == ConflictAction::Omit,
{
    let columns = item.operation->0.columns as int;
    rows_are_compared_in_every_column(item.current_values@, item.new_values@, columns);
    rows_are_compared_in_every_column(item.current_values@, item.their_values@, columns);
}

/// Nothing but what both sides did alike is exempt from the policy for the table. Under
/// `Abort` every other conflict aborts; under `Ours` it is omitted; under `Theirs` it
/// replaces a present row, and aborts where there is none; under `AppendOnly` an INSERT
/// is omitted, and everything else aborts.
pub proof fn policies_decide_where_the_sides_differ(
    policies: Seq<(Seq<char>, ConflictPolicy)>,
    kind: ConflictType,
    item: ConflictItem,
)
    requires
        !sides_agree(kind, item),
        kind != ConflictType::ForeignKey,
        item.operation is Some,
    ensures
        policy_in(policies, item.operation->0.table@) == ConflictPolicy::Abort ==> answer(
            policies,
            kind,
            item,
        ) == ConflictAction::Abort,
        policy_in(policies, item.operation->0.table@) == ConflictPolicy::Ours ==> answer(
            policies,
            kind,
            item,
        ) == ConflictAction::Omit,
        policy_in(policies, item.operation->0.table@) == ConflictPolicy::Theirs && (kind
            == ConflictType::Data || kind == ConflictType::Conflict) ==> answer(
            policies,
            kind,
            item,
        ) == ConflictAction::Replace,
        policy_in(policies, item.operation->0.table@) == ConflictPolicy::Theirs && kind
            != ConflictType::Data && kind != ConflictType::Conflict ==> answer(policies, kind, item)
            == ConflictAction::Abort,
        policy_in(policies, item.operation->0.table@) == ConflictPolicy::AppendOnly
            && item.operation->0.action == Action::Insert ==> answer(policies, kind, item)
            == ConflictAction::Omit,
        policy_in(policies, item.operation->0.table@) == ConflictPolicy::AppendOnly
            && item.operation->0.action != Action::Insert ==> answer(policies, kind, item)
            == ConflictAction::Abort,
{
    let columns = item.operation->0.columns as int;
    rows_are_compared_in_every_column(item.current_values@, item.new_values@, columns);
    rows_are_compared_in_every_column(item.current_values@, item.their_values@, columns);
}

/// A violated constraint, and a conflict of a kind that is not known, is exempt from no
/// policy: it is omitted under `Ours`, and under `AppendOnly` over an INSERT, and aborts
/// under every other, whatever the rows hold.
pub proof fn constraints_are_never_exempt(
    policies: Seq<(Seq<char>, ConflictPolicy)>,
    kind: ConflictType,
    item: ConflictItem,
)
    requires
        kind == ConflictType::Constraint || kind == ConflictType::Unknown,
    ensures
        item.operation is None ==> answer(policies, kind, item) == ConflictAction::Abort,
        item.operation matches Some(op) ==> {
            let policy = policy_in(policies, op.table@);
            &&& policy == ConflictPolicy::Abort ==> answer(policies, kind, item)
                == ConflictAction::Abort
            &&& policy == ConflictPolicy::Theirs ==> answer(policies, kind, item)
                == ConflictAction::Abort
            &&& policy == ConflictPolicy::AppendOnly && op.action != Action::Insert ==> answer(
                policies,
                kind,
                item,
            ) == ConflictAction::Abort
            &&& answer(policies, kind, item) != ConflictAction::Replace
        },
{
    if item.operation is Some {
        policies_decide_where_the_sides_differ(policies, kind, item);
    }
}

/// A change whose table is not known is answered with an abort, and so is a foreign-key
/// conflict, whatever the policies are and whatever else is known of the change.
pub proof fn unknown_tables_abort(
    policies: Seq<(Seq<char>, ConflictPolicy)>,
    kind: ConflictType,
    item: ConflictItem,
)
    requires
        item.operation is None || kind == ConflictType::ForeignKey,
    ensures
        answer(policies, kind, item) == ConflictAction::Abort,
{
}

/// Before the apply a change is a conflict exactly where it is an UPDATE, the three rows
/// differ in pairs, and the policy for the table is `Abort` or `AppendOnly`.
pub proof fn updates_are_compared_under_their_policy(
    policies: Seq<(Seq<char>, ConflictPolicy)>,
    item: ConflictItem,
)
    ensures
        changed_differently(item) <==> (item.operation matches Some(op) && op.action
            == Action::Update && rows_conflict(
            item.base_values@,
            item.current_values@,
            item.their_values@,
            op.columns as int,
        )),
        stays_in_conflict(policies, item) <==> (item.operation matches Some(op) && op.action
            == Action::Update && rows_conflict(
            item.base_values@,
            item.current_values@,
            item.their_values@,
            op.columns as int,
        ) && (policy_in(policies, op.table@) == ConflictPolicy::Abort || policy_in(
            policies,
            op.table@,
        ) == ConflictPolicy::AppendOnly)),
{
}

/// A value is reported by what it holds: an integer by its numeral, a number by its
/// rendering, a text in quotes wherever its bytes are UTF-8, and by its length where they
/// are not, as a blob is.
pub proof fn values_are_reported_by_their_payload(value: Value)
    ensures
        value is Null ==> value_text(value) == seq!['N', 'U', 'L', 'L'],
        value matches Value::Integer(n) ==> value_text(value) == decimal(n as int),
        value matches Value::Real { bits: _, text } ==> value_text(value) == text@,
        value matches Value::Text(bytes) ==> (forall|t: Seq<char>|
            encode_utf8(t) == bytes@ ==> value_text(value) == #[trigger] (seq!['\''] + t) + seq![
                '\'',
            ]),
        value matches Value::Text(bytes) ==> (valid_utf8(bytes@) ==> value_text(value).len() >= 2
            && encode_utf8(value_text(value).subrange(1, value_text(value).len() - 1)) == bytes@),
        value matches Value::Text(bytes) ==> (!valid_utf8(bytes@) ==> value_text(value) == "<"@
            + decimal(bytes@.len() as int) + " bytes text>"@),
        value matches Value::Blob(bytes) ==> value_text(value) == "<blob "@ + decimal(
            bytes@.len() as int,
        ) + " bytes>"@,
{
    reveal_strlit("NULL");
    reveal_strlit("'");
    assert("NULL"@ =~= seq!['N', 'U', 'L', 'L']);
    if let Value::Text(bytes) = value {
        assert forall|t: Seq<char>| encode_utf8(t) == bytes@ implies value_text(value)
            == #[trigger] (seq!['\''] + t) + seq!['\''] by {
            vstd::utf8::encode_utf8_valid_utf8(t);
            vstd::utf8::encode_utf8_decode_utf8(t);
            assert(value_text(value) =~= (seq!['\''] + t) + seq!['\'']);
        }
        if valid_utf8(bytes@) {
            vstd::utf8::decode_utf8_encode_utf8(bytes@);
            assert(value_text(value).subrange(1, value_text(value).len() - 1) =~= decode_utf8(
                bytes@,
            ));
        }
    }
}

/// The reported key holds one text for each of the first `columns` columns whose byte in
/// the mask is not zero, in the order of the columns: its `i`-th text is that of column
/// `at[i]`.
pub proof fn reported_keys_are_those_of_the_mask(
    item: ConflictItem,
    action: Action,
    columns: nat,
) -> (at: Seq<int>)
    ensures
        at.len() == key_texts(item, action, columns).len(),
        item.key_mask is None ==> at.len() == 0,
        forall|i: int|
            0 <= i < at.len() ==> 0 <= (#[trigger] at[i]) < columns && at[i]
                < item.key_mask->0@.len() && item.key_mask->0@[at[i]] != 0 && key_texts(
                item,
                action,
                columns,
            )[i] == key_column_text(item, action, at[i]),
        forall|i: int, j: int| 0 <= i < j < at.len() ==> (#[trigger] at[i]) < (#[trigger] at[j]),
        item.key_mask matches Some(mask) ==> forall|col: int|
            0 <= col < columns && col < mask@.len() && #[trigger] mask@[col] != 0 ==> at.contains(
                col,
            ),
    decreases columns,
{
    if columns == 0 {
        Seq::empty()
    } else {
        let last = columns - 1;
        let earlier = reported_keys_are_those_of_the_mask(item, action, last as nat);
        let at = if is_key_column(item, last) {
            earlier.push(last)
        } else {
            earlier
        };
        if let Some(mask) = item.key_mask {
            assert forall|col: int| 0 <= col < columns && col < mask@.len() && #[trigger] mask@[col]
                != 0 implies at.contains(col) by {
                if col < last {
                    assert(earlier.contains(col));
                    let i = choose|i: int| 0 <= i < earlier.len() && earlier[i] == col;
                    assert(at[i] == col);
                } else {
                    assert(at[earlier.len() as int] == col);
                }
            }
        }
        assert forall|i: int| 0 <= i < at.len() implies 0 <= (#[trigger] at[i]) < columns && at[i]
            < item.key_mask->0@.len() && item.key_mask->0@[at[i]] != 0 && key_texts(
            item,
            action,
            columns,
        )[i] == key_column_text(item, action, at[i]) by {
            if i < earlier.len() {
                assert(at[i] == earlier[i]);
            }
        }
        at
    }
}

/// A key column is reported by its new value on an INSERT; on any other change by its old
/// value, or by its new one where no old one is given; and as a question mark where there
/// is none.
pub proof fn key_values_are_old_values_but_on_inserts(
    item: ConflictItem,
    action: Action,
    col: int,
)
    requires
        0 <= col,
    ensures
        action != Action::Insert && col < item.old_values@.len() && item.old_values@[col] is Some
            ==> key_column_text(item, action, col) == value_text(item.old_values@[col]->0),
        (action == Action::Insert || col >= item.old_values@.len() || item.old_values@[col] is None)
            && col < item.new_values@.len() && item.new_values@[col] is Some ==> key_column_text(
            item,
            action,
            col,
        ) == value_text(item.new_values@[col]->0),
        (action == Action::Insert || col >= item.old_values@.len() || item.old_values@[col] is None)
            && (col >= item.new_values@.len() || item.new_values@[col] is None) ==> key_column_text(
            item,
            action,
            col,
        ) == seq!['?'],
{
    reveal_strlit("?");
    assert("?"@ =~= seq!['?']);
}

/// Reported values are those of the first `columns` columns that hold one, all of them
/// and in the order of the columns: the `i`-th is that of column `at[i]`.
pub proof fn reported_values_are_the_known_ones(
    values: Seq<Option<Value>>,
    columns: nat,
) -> (at: Seq<int>)
    ensures
        at.len() == known_texts(values, columns).len(),
        forall|i: int|
            0 <= i < at.len() ==> 0 <= (#[trigger] at[i]) < columns && at[i] < values.len()
                && values[at[i]] is Some && known_texts(values, columns)[i] == value_text(
                values[at[i]]->0,
            ),
        forall|i: int, j: int| 0 <= i < j < at.len() ==> (#[trigger] at[i]) < (#[trigger] at[j]),
        forall|col: int|
            0 <= col < columns && col < values.len() && (#[trigger] values[col]) is Some
                ==> at.contains(col),
    decreases columns,
{
    if columns == 0 {
        Seq::empty()
    } else {
        let last = columns - 1;
        let earlier = reported_values_are_the_known_ones(values, last as nat);
        let at = if column(values, last) is Some {
            earlier.push(last)
        } else {
            earlier
        };
        assert forall|col: int| 0 <= col < columns && col < values.len() && (
        #[trigger] values[col]) is Some implies at.contains(col) by {
            if col < last {
                assert(earlier.contains(col));
                let i = choose|i: int| 0 <= i < earlier.len() && earlier[i] == col;
                assert(at[i] == col);
            } else {
                assert(at[earlier.len() as int] == col);
            }
        }
        assert forall|i: int| 0 <= i < at.len() implies 0 <= (#[trigger] at[i]) < columns && at[i]
            < values.len() && values[at[i]] is Some && known_texts(values, columns)[i]
            == value_text(values[at[i]]->0) by {
            if i < earlier.len() {
                assert(at[i] == earlier[i]);
            }
        }
        at
    }
}

/// A report names the table and the key of the change, and shows the row of ours and the
/// incoming row where there are both: in a conflict over a present row alone. A
/// foreign-key conflict has neither table nor key, and shows the number of violations.
pub proof fn reports_tell_the_change(kind: ConflictType, item: ConflictItem)
    ensures
        kind == ConflictType::ForeignKey ==> {
            &&& report(kind, item).table == "<deferred foreign key>"@
            &&& report(kind, item).primary_key.len() == 0
            &&& report(kind, item).ours.len() == 0
            &&& report(kind, item).theirs.len() == 1
            &&& item.fk_conflicts matches Some(n) ==> report(kind, item).theirs[0] == decimal(
                n as int,
            ) + " deferred FK violation(s)"@
            &&& item.fk_conflicts is None ==> report(kind, item).theirs[0] == decimal(0)
                + " deferred FK violation(s)"@
        },
        kind != ConflictType::ForeignKey ==> (item.operation matches Some(op) ==> (op.columns >= 0
            ==> {
            &&& report(kind, item).table == op.table@
            &&& report(kind, item).primary_key == key_texts(item, op.action, op.columns as nat)
            &&& kind == ConflictType::Data || kind == ConflictType::Conflict ==> report(
                kind,
                item,
            ).ours == known_texts(item.current_values@, op.columns as nat)
            &&& kind == ConflictType::Data || kind == ConflictType::Conflict ==> report(
                kind,
                item,
            ).theirs == known_texts(item.new_values@, op.columns as nat)
        })),
        kind != ConflictType::ForeignKey && (item.operation matches Some(op) ==> op.columns < 0)
            ==> {
            &&& report(kind, item).table == "<unknown>"@
            &&& report(kind, item).primary_key.len() == 0
            &&& report(kind, item).ours.len() == 0
            &&& report(kind, item).theirs.len() == 0
        },
        kind != ConflictType::ForeignKey && kind != ConflictType::Data && kind
            != ConflictType::Conflict ==> report(kind, item).ours.len() == 0 && report(
            kind,
            item,
        ).theirs.len() == 0,
        kind == ConflictType::Data ==> report(kind, item).kind == "SQLITE_CHANGESET_DATA"@,
        kind == ConflictType::NotFound ==> report(kind, item).kind == "SQLITE_CHANGESET_NOTFOUND"@,
        kind == ConflictType::Conflict ==> report(kind, item).kind == "SQLITE_CHANGESET_CONFLICT"@,
        kind == ConflictType::Constraint ==> report(kind, item).kind
            == "SQLITE_CHANGESET_CONSTRAINT"@,
        kind == ConflictType::ForeignKey ==> report(kind, item).kind
            == "SQLITE_CHANGESET_FOREIGN_KEY"@,
        kind == ConflictType::Unknown ==> report(kind, item).kind == "UNKNOWN"@,
{
}

} // verus!
