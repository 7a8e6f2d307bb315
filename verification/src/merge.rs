//! How each conflict of an apply is answered and reported.
use vstd::prelude::*;
use vstd::utf8::{decode_utf8, encode_utf8, encode_utf8_decode_utf8, valid_utf8};

use crate::config::{matches_name, policy_in, unmatched_tables_abort, PolicyConfig};
use crate::error::{conflict_models, ConflictModel, PrimaryKey, RowConflict};
use crate::text::{decimal, integer_text, length_text, texts};

verus! {

/// Conflict-resolution policy for one table.
///
/// The answers are constrained: [`ConflictAction::Replace`] is legal for `DATA` and
/// `CONFLICT` alone, and any other use of it fails the whole apply. Each variant
/// says how it handles the kinds where a replacement is illegal.
#[derive(Debug, Clone, Copy, PartialEq, Eq, Structural)]
pub enum ConflictPolicy {
    /// Any conflict aborts the entire merge.
    Abort,
    /// Keep ours on every conflict: omit the incoming change.
    Ours,
    /// Take theirs on `DATA` and `CONFLICT`. There is no row to replace on
    /// `NOTFOUND` (theirs edited a row that ours deleted) nor on `CONSTRAINT`, so
    /// those still abort.
    Theirs,
    /// Inserts win, mutations abort. A conflicting INSERT keeps ours; a conflicting
    /// UPDATE or DELETE aborts.
    AppendOnly,
}

impl Default for ConflictPolicy {
    fn default() -> (policy: ConflictPolicy)
        ensures
            policy == ConflictPolicy::Abort,
    {
        ConflictPolicy::Abort
    }
}

/// Why a change could not be applied as it is.
#[derive(Debug, Clone, Copy, PartialEq, Eq, Structural)]
pub enum ConflictType {
    /// A kind that this library does not know.
    Unknown,
    /// An UPDATE or DELETE found a row whose values are not those it expected.
    Data,
    /// An UPDATE or DELETE found no row with the key.
    NotFound,
    /// An INSERT found a row with the key.
    Conflict,
    /// The change violates a constraint.
    Constraint,
    /// The apply as a whole leaves foreign-key violations.
    ForeignKey,
}

/// What a change does to its row.
#[derive(Debug, Clone, Copy, PartialEq, Eq, Structural)]
pub enum Action {
    Unknown,
    Delete,
    Insert,
    Update,
}

/// The answer to a conflict.
#[derive(Debug, Clone, Copy, PartialEq, Eq, Structural)]
pub enum ConflictAction {
    /// Leave the change out and go on.
    Omit,
    /// Overwrite the row in ours and go on.
    Replace,
    /// Undo the whole apply.
    Abort,
}

/// A value of a column.
#[derive(Debug, Clone)]
pub enum Value {
    Null,
    Integer(i64),
    /// A floating-point number: its bits, and its decimal rendering.
    Real { bits: u64, text: String },
    /// A text, which need not be valid UTF-8.
    Text(Vec<u8>),
    Blob(Vec<u8>),
}

/// The table, the kind and the column count of a change.
#[derive(Debug, Clone)]
pub struct Operation {
    pub table: String,
    pub action: Action,
    pub columns: i32,
}

/// What is known of a conflicting change. Whatever could not be read is `None`, or
/// missing at the end of a vector.
#[derive(Debug, Clone)]
pub struct ConflictItem {
    pub operation: Option<Operation>,
    /// For each column a byte that is not zero where the column is part of the key.
    pub key_mask: Option<Vec<u8>>,
    /// The values that the change expects to find.
    pub old_values: Vec<Option<Value>>,
    /// The values that the change writes.
    pub new_values: Vec<Option<Value>>,
    /// The values of the row that ours holds.
    pub current_values: Vec<Option<Value>>,
    /// The values of the whole row that theirs holds. A change gives only those that
    /// it writes; this is what [`crate::lookup`] finds.
    pub their_values: Vec<Option<Value>>,
    /// The values of the whole row that base holds.
    pub base_values: Vec<Option<Value>>,
    /// The number of foreign-key violations.
    pub fk_conflicts: Option<i32>,
}

/// The name of a conflict kind as it is reported.
pub open spec fn kind_text(kind: ConflictType) -> Seq<char> {
    match kind {
        ConflictType::Unknown => "UNKNOWN"@,
        ConflictType::Data => "SQLITE_CHANGESET_DATA"@,
        ConflictType::NotFound => "SQLITE_CHANGESET_NOTFOUND"@,
        ConflictType::Conflict => "SQLITE_CHANGESET_CONFLICT"@,
        ConflictType::Constraint => "SQLITE_CHANGESET_CONSTRAINT"@,
        ConflictType::ForeignKey => "SQLITE_CHANGESET_FOREIGN_KEY"@,
    }
}

/// A value as it is reported.
pub open spec fn value_text(value: Value) -> Seq<char> {
    match value {
        Value::Null => "NULL"@,
        Value::Integer(n) => decimal(n as int),
        Value::Real { bits, text } => text@,
        Value::Text(bytes) => if valid_utf8(bytes@) {
            "'"@ + decode_utf8(bytes@) + "'"@
        } else {
            "<"@ + decimal(bytes@.len() as int) + " bytes text>"@
        },
        Value::Blob(bytes) => "<blob "@ + decimal(bytes@.len() as int) + " bytes>"@,
    }
}

/// The same type and the same payload; floating-point numbers by their bits.
pub open spec fn same_value(a: Value, b: Value) -> bool {
    match (a, b) {
        (Value::Null, Value::Null) => true,
        (Value::Integer(x), Value::Integer(y)) => x == y,
        (Value::Real { bits: x, text: _ }, Value::Real { bits: y, text: _ }) => x == y,
        (Value::Text(x), Value::Text(y)) => x@ == y@,
        (Value::Blob(x), Value::Blob(y)) => x@ == y@,
        _ => false,
    }
}

/// The value of a column, where it is known.
pub open spec fn column(values: Seq<Option<Value>>, col: int) -> Option<Value> {
    if 0 <= col < values.len() {
        values[col]
    } else {
        None
    }
}

/// The column is part of the primary key.
pub open spec fn is_key_column(item: ConflictItem, col: int) -> bool {
    item.key_mask matches Some(mask) && 0 <= col < mask@.len() && mask@[col] != 0
}

/// The change deletes a row that ours has deleted already.
pub open spec fn deletes_missing_row(kind: ConflictType, item: ConflictItem) -> bool {
    kind == ConflictType::NotFound && (item.operation matches Some(op) && op.action
        == Action::Delete)
}

/// Two rows of so many columns, of which there is at least one, are known and the same
/// in every column.
pub open spec fn same_row(a: Seq<Option<Value>>, b: Seq<Option<Value>>, columns: int) -> bool {
    columns > 0 && forall|col: int|
        #![trigger column(a, col)]
        #![trigger column(b, col)]
        0 <= col < columns ==> {
            &&& column(a, col) matches Some(x)
            &&& column(b, col) matches Some(y)
            &&& same_value(x, y)
        }
}

/// Every column of a row of so many columns is known.
pub open spec fn known_row(values: Seq<Option<Value>>, columns: int) -> bool {
    columns > 0 && forall|col: int| 0 <= col < columns ==> #[trigger] column(values, col) is Some
}

/// The rows that base, ours and theirs hold under one key are known, and no two of them
/// are the same: both sides changed the row, and changed it differently.
pub open spec fn rows_conflict(
    base: Seq<Option<Value>>,
    ours: Seq<Option<Value>>,
    theirs: Seq<Option<Value>>,
    columns: int,
) -> bool {
    &&& known_row(base, columns)
    &&& known_row(ours, columns)
    &&& known_row(theirs, columns)
    &&& !same_row(base, ours, columns)
    &&& !same_row(base, theirs, columns)
    &&& !same_row(ours, theirs, columns)
}

/// The change updates a row that ours has changed too, and differently.
pub open spec fn changed_differently(item: ConflictItem) -> bool {
    item.operation matches Some(op) && op.action == Action::Update && rows_conflict(
        item.base_values@,
        item.current_values@,
        item.their_values@,
        op.columns as int,
    )
}

/// The change inserts a row that ours holds already, the same in every column.
pub open spec fn inserts_present_row(kind: ConflictType, item: ConflictItem) -> bool {
    kind == ConflictType::Conflict && (item.operation matches Some(op) && same_row(
        item.current_values@,
        item.new_values@,
        op.columns as int,
    ))
}

/// The change updates a row that is the same in ours as in theirs, in every column.
pub open spec fn updates_to_present_row(kind: ConflictType, item: ConflictItem) -> bool {
    kind == ConflictType::Data && (item.operation matches Some(op) && op.action == Action::Update
        && same_row(item.current_values@, item.their_values@, op.columns as int))
}

/// Both sides made the same change, so there is nothing left to do.
pub open spec fn is_benign(kind: ConflictType, item: ConflictItem) -> bool {
    ||| inserts_present_row(kind, item)
    ||| deletes_missing_row(kind, item)
    ||| updates_to_present_row(kind, item)
}

/// The reported value of a key column: on an INSERT it is among the new values, and
/// else it is looked for among the old values first.
pub open spec fn key_column_text(item: ConflictItem, action: Action, col: int) -> Seq<char> {
    let old_value = column(item.old_values@, col);
    let new_value = column(item.new_values@, col);
    let value = if action == Action::Insert || old_value is None {
        new_value
    } else {
        old_value
    };
    match value {
        Some(v) => value_text(v),
        None => "?"@,
    }
}

/// The reported values of the key columns among the first `columns`.
pub open spec fn key_texts(item: ConflictItem, action: Action, columns: nat) -> Seq<Seq<char>>
    decreases columns,
{
    if columns == 0 {
        Seq::empty()
    } else {
        let col = columns - 1;
        let before = key_texts(item, action, col as nat);
        if is_key_column(item, col) {
            before.push(key_column_text(item, action, col))
        } else {
            before
        }
    }
}

/// The reported values of those among the first `columns` columns that are known.
pub open spec fn known_texts(values: Seq<Option<Value>>, columns: nat) -> Seq<Seq<char>>
    decreases columns,
{
    if columns == 0 {
        Seq::empty()
    } else {
        let before = known_texts(values, (columns - 1) as nat);
        match column(values, columns - 1) {
            Some(v) => before.push(value_text(v)),
            None => before,
        }
    }
}

/// The table, action and column count of a change, with stand-ins where they are
/// not known.
pub open spec fn reported_operation(item: ConflictItem) -> (Seq<char>, Action, nat) {
    match item.operation {
        Some(op) if op.columns >= 0 => (op.table@, op.action, op.columns as nat),
        _ => ("<unknown>"@, Action::Unknown, 0),
    }
}

/// The number of foreign-key violations as it is reported.
pub open spec fn violations_text(item: ConflictItem) -> Seq<char> {
    decimal(
        match item.fk_conflicts {
            Some(n) => n as int,
            None => 0,
        },
    ) + " deferred FK violation(s)"@
}

/// The report on a conflict.
pub open spec fn report(kind: ConflictType, item: ConflictItem) -> ConflictModel {
    if kind == ConflictType::ForeignKey {
        ConflictModel {
            table: "<deferred foreign key>"@,
            kind: kind_text(kind),
            primary_key: Seq::empty(),
            ours: Seq::empty(),
            theirs: seq![violations_text(item)],
        }
    } else {
        let (table, action, columns) = reported_operation(item);
        let has_values = kind == ConflictType::Data || kind == ConflictType::Conflict;
        ConflictModel {
            table,
            kind: kind_text(kind),
            primary_key: key_texts(item, action, columns),
            ours: if has_values {
                known_texts(item.current_values@, columns)
            } else {
                Seq::empty()
            },
            theirs: if has_values {
                known_texts(item.new_values@, columns)
            } else {
                Seq::empty()
            },
        }
    }
}

/// How a policy responds to a conflicting row.
#[derive(Debug, Clone, Copy, PartialEq, Eq, Structural)]
pub enum Resolution {
    /// The policy resolves the row with this answer; nothing is reported.
    Resolve(ConflictAction),
    /// The row stays in conflict: it is reported and the apply is aborted.
    Conflict,
}

/// The response of a policy to a conflict of some kind over a change.
pub open spec fn resolution(policy: ConflictPolicy, kind: ConflictType, action: Action) -> Resolution {
    match policy {
        ConflictPolicy::Abort => Resolution::Conflict,
        ConflictPolicy::Ours => Resolution::Resolve(ConflictAction::Omit),
        ConflictPolicy::Theirs => if kind == ConflictType::Data || kind == ConflictType::Conflict {
            Resolution::Resolve(ConflictAction::Replace)
        } else {
            Resolution::Conflict
        },
        ConflictPolicy::AppendOnly => if action == Action::Insert {
            Resolution::Resolve(ConflictAction::Omit)
        } else {
            Resolution::Conflict
        },
    }
}

/// The policy for the table of a change. Where the table is not known it is `Abort`,
/// rather than a guess.
pub open spec fn policy_over(
    policies: Seq<(Seq<char>, ConflictPolicy)>,
    item: ConflictItem,
) -> ConflictPolicy {
    match item.operation {
        Some(op) => policy_in(policies, op.table@),
        None => ConflictPolicy::Abort,
    }
}

/// The action of a change, where it is known.
pub open spec fn action_of(item: ConflictItem) -> Action {
    match item.operation {
        Some(op) => op.action,
        None => Action::Unknown,
    }
}

/// The answer to a conflict: what both sides did alike is omitted, a foreign-key
/// conflict aborts, and the policy for the table decides the rest.
pub open spec fn answer(
    policies: Seq<(Seq<char>, ConflictPolicy)>,
    kind: ConflictType,
    item: ConflictItem,
) -> ConflictAction {
    if is_benign(kind, item) {
        ConflictAction::Omit
    } else if kind == ConflictType::ForeignKey {
        ConflictAction::Abort
    } else {
        match resolution(policy_over(policies, item), kind, action_of(item)) {
            Resolution::Resolve(action) => action,
            Resolution::Conflict => ConflictAction::Abort,
        }
    }
}

/// The change is in conflict before it is applied: both sides changed its row
/// differently, and the policy for the table leaves that a conflict.
pub open spec fn stays_in_conflict(
    policies: Seq<(Seq<char>, ConflictPolicy)>,
    item: ConflictItem,
) -> bool {
    changed_differently(item) && resolution(
        policy_over(policies, item),
        ConflictType::Data,
        Action::Update,
    ) == Resolution::Conflict
}

/// The text whose UTF-8 encoding is the given bytes, if there is one.
///
/// Calls `std::str::from_utf8`. Not proved: that it succeeds exactly on valid UTF-8,
/// and that the encoding of the text it returns is the bytes it was given.
#[verifier::external_body]
fn utf8_text(bytes: &Vec<u8>) -> (text: Option<&str>)
    ensures
        text is Some <==> valid_utf8(bytes@),
        text matches Some(t) ==> encode_utf8(t@) == bytes@,
{
    std::str::from_utf8(bytes).ok()
}

impl ConflictType {
    /// The name of the kind as it is reported.
    pub fn name(self) -> (text: &'static str)
        ensures
            text@ == kind_text(self),
    {
        match self {
            ConflictType::Unknown => "UNKNOWN",
            ConflictType::Data => "SQLITE_CHANGESET_DATA",
            ConflictType::NotFound => "SQLITE_CHANGESET_NOTFOUND",
            ConflictType::Conflict => "SQLITE_CHANGESET_CONFLICT",
            ConflictType::Constraint => "SQLITE_CHANGESET_CONSTRAINT",
            ConflictType::ForeignKey => "SQLITE_CHANGESET_FOREIGN_KEY",
        }
    }
}

/// Renders a value as a short text for a conflict report.
pub fn render_value(value: &Value) -> (text: String)
    ensures
        text@ == value_text(*value),
{
    let mut text = String::new();
    match value {
        Value::Null => {
            text.append("NULL");
        },
        Value::Integer(n) => {
            text.append(integer_text(*n).as_str());
        },
        Value::Real { bits: _, text: number } => {
            text.append(number.as_str());
        },
        Value::Text(bytes) => {
            match utf8_text(bytes) {
                Some(t) => {
                    proof {
                        encode_utf8_decode_utf8(t@);
                    }
                    text.append("'");
                    text.append(t);
                    text.append("'");
                },
                None => {
                    text.append("<");
                    text.append(length_text(bytes.len()).as_str());
                    text.append(" bytes text>");
                },
            }
        },
        Value::Blob(bytes) => {
            text.append("<blob ");
            text.append(length_text(bytes.len()).as_str());
            text.append(" bytes>");
        },
    }
    assert(text@ =~= value_text(*value));
    text
}

fn same_bytes(a: &Vec<u8>, b: &Vec<u8>) -> (same: bool)
    ensures
        same == (a@ == b@),
{
    if a.len() != b.len() {
        return false;
    }
    let mut i: usize = 0;
    while i < a.len()
        invariant
            i <= a.len(),
            a.len() == b.len(),
            forall|j: int| 0 <= j < i ==> a[j] == b[j],
        decreases a.len() - i,
    {
        if a[i] != b[i] {
            return false;
        }
        i = i + 1;
    }
    assert(a@ =~= b@);
    true
}

/// Whether two values have the same type and the same payload. Floating-point
/// numbers are compared by their bits, so two rows written alike compare equal.
pub fn values_equal(a: &Value, b: &Value) -> (same: bool)
    ensures
        same == same_value(*a, *b),
{
    match (a, b) {
        (Value::Null, Value::Null) => true,
        (Value::Integer(x), Value::Integer(y)) => *x == *y,
        (Value::Real { bits: x, text: _ }, Value::Real { bits: y, text: _ }) => *x == *y,
        (Value::Text(x), Value::Text(y)) => same_bytes(x, y),
        (Value::Blob(x), Value::Blob(y)) => same_bytes(x, y),
        _ => false,
    }
}

/// The value of a column, where it is known.
fn value_at(values: &Vec<Option<Value>>, col: usize) -> (value: Option<&Value>)
    ensures
        value is Some <==> column(values@, col as int) is Some,
        value matches Some(v) ==> column(values@, col as int) == Some(*v),
{
    if col < values.len() {
        match &values[col] {
            Some(v) => Some(v),
            None => None,
        }
    } else {
        None
    }
}

/// Whether the change deletes a row that ours has deleted already. Both sides want
/// the row gone and it is gone. An UPDATE of a missing row stays a conflict: theirs
/// edited a row that ours deleted.
pub fn is_convergent_delete(kind: ConflictType, item: &ConflictItem) -> (r: bool)
    ensures
        r == deletes_missing_row(kind, *item),
{
    match &item.operation {
        Some(op) => kind == ConflictType::NotFound && op.action == Action::Delete,
        None => false,
    }
}

/// Whether two rows of so many columns are known and the same in every column.
fn rows_equal(a: &Vec<Option<Value>>, b: &Vec<Option<Value>>, columns: i32) -> (same: bool)
    ensures
        same == same_row(a@, b@, columns as int),
{
    if columns <= 0 {
        return false;
    }
    let mut col: i32 = 0;
    while col < columns
        invariant
            0 <= col <= columns,
            forall|c: int|
                #![trigger column(a@, c)]
                #![trigger column(b@, c)]
                0 <= c < col ==> {
                    &&& column(a@, c) matches Some(x)
                    &&& column(b@, c) matches Some(y)
                    &&& same_value(x, y)
                },
        decreases columns - col,
    {
        match (value_at(a, col as usize), value_at(b, col as usize)) {
            (Some(x), Some(y)) => {
                if !values_equal(x, y) {
                    return false;
                }
            },
            _ => {
                assert(column(a@, col as int) is None || column(b@, col as int) is None);
                return false;
            },
        }
        col = col + 1;
    }
    true
}

fn is_known_row(values: &Vec<Option<Value>>, columns: i32) -> (known: bool)
    ensures
        known == known_row(values@, columns as int),
{
    if columns <= 0 {
        return false;
    }
    let mut col: i32 = 0;
    while col < columns
        invariant
            0 <= col <= columns,
            forall|c: int| 0 <= c < col ==> #[trigger] column(values@, c) is Some,
        decreases columns - col,
    {
        if value_at(values, col as usize).is_none() {
            assert(column(values@, col as int) is None);
            return false;
        }
        col = col + 1;
    }
    true
}

/// Whether both sides changed a row, and changed it differently: the rows of base, ours
/// and theirs under one key are known, and no two of them are the same.
pub fn is_row_conflict(
    base: &Vec<Option<Value>>,
    ours: &Vec<Option<Value>>,
    theirs: &Vec<Option<Value>>,
    columns: i32,
) -> (r: bool)
    ensures
        r == rows_conflict(base@, ours@, theirs@, columns as int),
{
    is_known_row(base, columns) && is_known_row(ours, columns) && is_known_row(theirs, columns)
        && !rows_equal(base, ours, columns) && !rows_equal(base, theirs, columns) && !rows_equal(
        ours,
        theirs,
        columns,
    )
}

/// Whether the change inserts a row that ours holds already, equal in every column.
/// Every insert over an existing row arrives as a conflict, its values uncompared.
pub fn is_benign_duplicate_insert(kind: ConflictType, item: &ConflictItem) -> (r: bool)
    ensures
        r == inserts_present_row(kind, *item),
{
    match &item.operation {
        Some(op) => kind == ConflictType::Conflict && rows_equal(
            &item.current_values,
            &item.new_values,
            op.columns,
        ),
        None => false,
    }
}

/// Whether the change updates a row that is the same in ours as in theirs, in every
/// column. An UPDATE arrives as a conflict wherever ours has changed a column that it
/// writes, also where both sides have come to the same row.
pub fn is_convergent_update(kind: ConflictType, item: &ConflictItem) -> (r: bool)
    ensures
        r == updates_to_present_row(kind, *item),
{
    match &item.operation {
        Some(op) => kind == ConflictType::Data && op.action == Action::Update && rows_equal(
            &item.current_values,
            &item.their_values,
            op.columns,
        ),
        None => false,
    }
}

/// The primary-key values of a conflicting change, `?` where one cannot be told.
pub fn extract_primary_key(item: &ConflictItem, action: Action, columns: usize) -> (key: PrimaryKey)
    ensures
        key@ == key_texts(*item, action, columns as nat),
{
    let mut parts: Vec<String> = Vec::new();
    let mut col: usize = 0;
    while col < columns
        invariant
            col <= columns,
            texts(parts@) == key_texts(*item, action, col as nat),
        decreases columns - col,
    {
        let ghost before = texts(parts@);
        let is_key: bool = match &item.key_mask {
            Some(mask) => col < mask.len() && mask[col] != 0,
            None => false,
        };
        if is_key {
            let mut value = value_at(&item.new_values, col);
            if action != Action::Insert {
                let old_value = value_at(&item.old_values, col);
                if old_value.is_some() {
                    value = old_value;
                }
            }
            let part: String = match value {
                Some(v) => render_value(v),
                None => String::from_str("?"),
            };
            assert(part@ == key_column_text(*item, action, col as int));
            parts.push(part);
            assert(texts(parts@) =~= before.push(part@));
        }
        col = col + 1;
    }
    PrimaryKey(parts)
}

/// The rendered values of those among the first `columns` columns that are known.
fn known_values(values: &Vec<Option<Value>>, columns: usize) -> (parts: Vec<String>)
    ensures
        texts(parts@) == known_texts(values@, columns as nat),
{
    let mut parts: Vec<String> = Vec::new();
    let mut col: usize = 0;
    while col < columns
        invariant
            col <= columns,
            texts(parts@) == known_texts(values@, col as nat),
        decreases columns - col,
    {
        let ghost before = texts(parts@);
        if let Some(v) = value_at(values, col) {
            let part = render_value(v);
            parts.push(part);
            assert(texts(parts@) =~= before.push(part@));
        }
        col = col + 1;
    }
    parts
}

/// The values of ours and theirs in a conflict over a present row.
pub struct ConflictValues {
    /// The row that ours holds.
    pub ours: Vec<String>,
    /// The incoming row from theirs.
    pub theirs: Vec<String>,
}

/// The known values of ours and theirs in the first `columns` columns.
pub fn conflict_values(item: &ConflictItem, columns: usize) -> (values: ConflictValues)
    ensures
        texts(values.ours@) == known_texts(item.current_values@, columns as nat),
        texts(values.theirs@) == known_texts(item.new_values@, columns as nat),
{
    ConflictValues {
        ours: known_values(&item.current_values, columns),
        theirs: known_values(&item.new_values, columns),
    }
}

/// The report on a conflict. A foreign-key conflict has no row and no operation,
/// and only a conflict over a present row shows values.
pub fn describe_conflict(kind: ConflictType, item: &ConflictItem) -> (conflict: RowConflict)
    ensures
        conflict@ == report(kind, *item),
{
    if kind == ConflictType::ForeignKey {
        let n: i64 = match item.fk_conflicts {
            Some(n) => n as i64,
            None => 0,
        };
        let mut count = integer_text(n);
        count.append(" deferred FK violation(s)");
        let mut theirs: Vec<String> = Vec::new();
        theirs.push(count);
        let conflict = RowConflict {
            table: String::from_str("<deferred foreign key>"),
            kind: String::from_str(kind.name()),
            primary_key: PrimaryKey(Vec::new()),
            ours: Vec::new(),
            theirs,
        };
        assert(conflict@ =~= report(kind, *item));
        return conflict;
    }
    let mut table: String = String::from_str("<unknown>");
    let mut action: Action = Action::Unknown;
    let mut columns: usize = 0;
    if let Some(op) = &item.operation {
        if op.columns >= 0 {
            table = op.table.clone();
            action = op.action;
            columns = op.columns as usize;
        }
    }
    let primary_key = extract_primary_key(item, action, columns);
    let values: ConflictValues = if kind == ConflictType::Data || kind == ConflictType::Conflict {
        conflict_values(item, columns)
    } else {
        ConflictValues { ours: Vec::new(), theirs: Vec::new() }
    };
    let conflict = RowConflict {
        table,
        kind: String::from_str(kind.name()),
        primary_key,
        ours: values.ours,
        theirs: values.theirs,
    };
    assert(conflict@ =~= report(kind, *item));
    conflict
}

/// The response of a policy to a conflict of some kind over a change. Foreign-key
/// conflicts belong to no table and are answered before any policy is asked.
pub fn resolve_conflict(policy: ConflictPolicy, kind: ConflictType, action: Action) -> (r:
    Resolution)
    ensures
        r == resolution(policy, kind, action),
{
    match policy {
        ConflictPolicy::Abort => Resolution::Conflict,
        ConflictPolicy::Ours => Resolution::Resolve(ConflictAction::Omit),
        ConflictPolicy::Theirs => {
            if kind == ConflictType::Data || kind == ConflictType::Conflict {
                Resolution::Resolve(ConflictAction::Replace)
            } else {
                Resolution::Conflict
            }
        },
        ConflictPolicy::AppendOnly => {
            if action == Action::Insert {
                Resolution::Resolve(ConflictAction::Omit)
            } else {
                Resolution::Conflict
            }
        },
    }
}

/// Answers a conflict, and adds a report on it to `unresolved` where the answer is
/// to abort.
pub fn handle_conflict(
    policies: &PolicyConfig,
    kind: ConflictType,
    item: &ConflictItem,
    unresolved: &mut Vec<RowConflict>,
) -> (r: ConflictAction)
    ensures
        r == answer(policies@, kind, *item),
        conflict_models(final(unresolved)@) == (if r == ConflictAction::Abort {
            conflict_models(old(unresolved)@).push(report(kind, *item))
        } else {
            conflict_models(old(unresolved)@)
        }),
{
    if is_benign_duplicate_insert(kind, item) || is_convergent_delete(kind, item)
        || is_convergent_update(kind, item) {
        return ConflictAction::Omit;
    }
    let resolution: Resolution = if kind == ConflictType::ForeignKey {
        Resolution::Conflict
    } else {
        match &item.operation {
            Some(op) => resolve_conflict(
                policies.policy_for(op.table.as_str()),
                kind,
                op.action,
            ),
            None => Resolution::Conflict,
        }
    };
    match resolution {
        Resolution::Resolve(action) => action,
        Resolution::Conflict => {
            unresolved.push(describe_conflict(kind, item));
            assert(conflict_models(unresolved@) =~= conflict_models(old(unresolved)@).push(
                report(kind, *item),
            ));
            ConflictAction::Abort
        },
    }
}

/// Compares the rows of an update before it is applied, and adds a report to
/// `unresolved` where it is in conflict. An apply finds no conflict where the two sides
/// wrote to different columns of a row.
///
/// A row that the policy for its table resolves is left to the apply, which keeps every
/// column that ours alone changed.
pub fn compare_change(
    policies: &PolicyConfig,
    item: &ConflictItem,
    unresolved: &mut Vec<RowConflict>,
)
    ensures
        conflict_models(final(unresolved)@) == (if stays_in_conflict(policies@, *item) {
            conflict_models(old(unresolved)@).push(report(ConflictType::Data, *item))
        } else {
            conflict_models(old(unresolved)@)
        }),
{
    if let Some(op) = &item.operation {
        if op.action == Action::Update && is_row_conflict(
            &item.base_values,
            &item.current_values,
            &item.their_values,
            op.columns,
        ) && resolve_conflict(
            policies.policy_for(op.table.as_str()),
            ConflictType::Data,
            op.action,
        ) == Resolution::Conflict {
            unresolved.push(describe_conflict(ConflictType::Data, item));
            assert(conflict_models(unresolved@) =~= conflict_models(old(unresolved)@).push(
                report(ConflictType::Data, *item),
            ));
        }
    }
}

/// What may be read of a conflicting change.
#[derive(Debug, Clone, Copy, PartialEq, Eq, Structural)]
pub struct Reads {
    /// The operation, the key mask, and the old and new values.
    pub operation: bool,
    /// The values of the row that ours holds.
    pub current_values: bool,
    /// The values of the row that theirs holds.
    pub their_values: bool,
    /// The number of foreign-key violations.
    pub fk_conflicts: bool,
}

/// What may be read of a change in conflict: of a foreign-key conflict only the
/// number of violations, the row of ours only where there is one, and that of theirs
/// only where the two may turn out to be the same.
pub open spec fn legal_reads(kind: ConflictType) -> Reads {
    Reads {
        operation: kind != ConflictType::ForeignKey,
        current_values: kind == ConflictType::Data || kind == ConflictType::Conflict,
        their_values: kind == ConflictType::Data,
        fk_conflicts: kind == ConflictType::ForeignKey,
    }
}

impl ConflictType {
    /// What may be read of a change in conflict. Anything else is not there to be
    /// read, and to ask for it can crash.
    pub fn reads(self) -> (reads: Reads)
        ensures
            reads == legal_reads(self),
    {
        let has_row: bool = self == ConflictType::Data || self == ConflictType::Conflict;
        Reads {
            operation: self != ConflictType::ForeignKey,
            current_values: has_row,
            their_values: self == ConflictType::Data,
            fk_conflicts: self == ConflictType::ForeignKey,
        }
    }
}

/// The two items are the same in everything that may be read.
pub open spec fn agree_on(reads: Reads, a: ConflictItem, b: ConflictItem) -> bool {
    &&& reads.operation ==> a.operation == b.operation && a.key_mask == b.key_mask && a.old_values
        == b.old_values && a.new_values == b.new_values
    &&& reads.current_values ==> a.current_values == b.current_values
    &&& reads.their_values ==> a.their_values == b.their_values
    &&& reads.fk_conflicts ==> a.fk_conflicts == b.fk_conflicts
}

/// Neither the answer to a conflict nor the report on it depends on anything that
/// may not be read.
pub proof fn only_legal_reads_matter(
    policies: Seq<(Seq<char>, ConflictPolicy)>,
    kind: ConflictType,
    a: ConflictItem,
    b: ConflictItem,
)
    requires
        agree_on(legal_reads(kind), a, b),
    ensures
        answer(policies, kind, a) == answer(policies, kind, b),
        report(kind, a) == report(kind, b),
{
    if kind != ConflictType::ForeignKey {
        let (_, action, columns) = reported_operation(a);
        same_keys(a, b, action, columns);
    }
}

proof fn same_keys(a: ConflictItem, b: ConflictItem, action: Action, columns: nat)
    requires
        a.key_mask == b.key_mask,
        a.old_values == b.old_values,
        a.new_values == b.new_values,
    ensures
        key_texts(a, action, columns) == key_texts(b, action, columns),
    decreases columns,
{
    if columns > 0 {
        same_keys(a, b, action, (columns - 1) as nat);
    }
}

/// A row is replaced only in a conflict where that is legal.
pub proof fn replaces_only_where_legal(
    policies: Seq<(Seq<char>, ConflictPolicy)>,
    kind: ConflictType,
    item: ConflictItem,
)
    requires
        answer(policies, kind, item) == ConflictAction::Replace,
    ensures
        kind == ConflictType::Data || kind == ConflictType::Conflict,
        policy_over(policies, item) == ConflictPolicy::Theirs,
{
}

/// A foreign-key conflict aborts under every policy: to omit it would commit the
/// violation.
pub proof fn foreign_key_conflicts_abort(
    policies: Seq<(Seq<char>, ConflictPolicy)>,
    item: ConflictItem,
)
    ensures
        answer(policies, ConflictType::ForeignKey, item) == ConflictAction::Abort,
{
}

/// What both sides did alike is no conflict under any policy: the same insert, the
/// same delete, or updates to the same row.
pub proof fn same_change_on_both_sides_never_aborts(
    policies: Seq<(Seq<char>, ConflictPolicy)>,
    kind: ConflictType,
    item: ConflictItem,
)
    requires
        is_benign(kind, item),
    ensures
        answer(policies, kind, item) == ConflictAction::Omit,
{
}

/// A row that both sides changed differently is a conflict: where a change meets a row
/// of ours that it did not expect, and that row is not the one that theirs holds, it
/// aborts unless the policy for the table says otherwise.
pub proof fn different_changes_are_conflicts(
    policies: Seq<(Seq<char>, ConflictPolicy)>,
    item: ConflictItem,
)
    requires
        policy_over(policies, item) == ConflictPolicy::Abort,
        item.operation matches Some(op) ==> !same_row(
            item.current_values@,
            item.their_values@,
            op.columns as int,
        ),
    ensures
        answer(policies, ConflictType::Data, item) == ConflictAction::Abort,
{
}

/// Three different rows under one key are a conflict before anything is applied, where
/// the table is left to `Abort` or is append-only; and rows of which two are the same
/// are none.
pub proof fn three_different_rows_are_a_conflict(
    policies: Seq<(Seq<char>, ConflictPolicy)>,
    item: ConflictItem,
)
    ensures
        changed_differently(item) && (policy_over(policies, item) == ConflictPolicy::Abort
            || policy_over(policies, item) == ConflictPolicy::AppendOnly) ==> stays_in_conflict(
            policies,
            item,
        ),
        stays_in_conflict(policies, item) ==> {
            let columns = item.operation->0.columns as int;
            &&& !same_row(item.base_values@, item.current_values@, columns)
            &&& !same_row(item.base_values@, item.their_values@, columns)
            &&& !same_row(item.current_values@, item.their_values@, columns)
        },
{
}

/// Where no rule matches the table, every conflict aborts but what both sides did
/// alike.
pub proof fn conflicts_abort_by_default(
    policies: Seq<(Seq<char>, ConflictPolicy)>,
    kind: ConflictType,
    item: ConflictItem,
)
    requires
        !is_benign(kind, item),
        item.operation matches Some(op) ==> forall|i: int|
            0 <= i < policies.len() ==> !matches_name((#[trigger] policies[i]).0, op.table@),
    ensures
        answer(policies, kind, item) == ConflictAction::Abort,
{
    if let Some(op) = item.operation {
        unmatched_tables_abort(policies, op.table@);
    }
}

/// Under `ours` no conflict aborts but one over foreign keys, and no row is replaced.
pub proof fn ours_keeps_our_rows(
    policies: Seq<(Seq<char>, ConflictPolicy)>,
    kind: ConflictType,
    item: ConflictItem,
)
    requires
        policy_over(policies, item) == ConflictPolicy::Ours,
        kind != ConflictType::ForeignKey,
    ensures
        answer(policies, kind, item) == ConflictAction::Omit,
{
}

/// Under `theirs` a conflict over a present row takes theirs, and every other aborts,
/// but for what both sides did alike.
pub proof fn theirs_replaces_present_rows(
    policies: Seq<(Seq<char>, ConflictPolicy)>,
    kind: ConflictType,
    item: ConflictItem,
)
    requires
        policy_over(policies, item) == ConflictPolicy::Theirs,
        !is_benign(kind, item),
    ensures
        answer(policies, kind, item) == (if kind == ConflictType::Data || kind
            == ConflictType::Conflict {
            ConflictAction::Replace
        } else {
            ConflictAction::Abort
        }),
{
}

/// Under `append-only` a conflicting insert keeps ours, and every other conflict
/// aborts, but for what both sides did alike.
pub proof fn append_only_omits_inserts_alone(
    policies: Seq<(Seq<char>, ConflictPolicy)>,
    kind: ConflictType,
    item: ConflictItem,
)
    requires
        policy_over(policies, item) == ConflictPolicy::AppendOnly,
        kind != ConflictType::ForeignKey,
        !is_benign(kind, item),
    ensures
        answer(policies, kind, item) == (if action_of(item) == Action::Insert {
            ConflictAction::Omit
        } else {
            ConflictAction::Abort
        }),
{
}

/// Equality of values is an equivalence: a value equals itself, also where it is no
/// number.
pub proof fn same_value_is_an_equivalence(a: Value, b: Value, c: Value)
    ensures
        same_value(a, a),
        same_value(a, b) == same_value(b, a),
        same_value(a, b) && same_value(b, c) ==> same_value(a, c),
{
}

/// Equal values are of one type, and they are reported alike. Of two floating-point
/// numbers of the same bits this holds where their renderings are the same.
pub proof fn equal_values_are_reported_alike(a: Value, b: Value)
    requires
        same_value(a, b),
        a matches Value::Real { bits, text } ==> (b matches Value::Real { bits: b_bits, text: b_text }
            ==> text@ == b_text@),
    ensures
        value_text(a) == value_text(b),
        a is Null == b is Null,
        a is Integer == b is Integer,
        a is Real == b is Real,
        a is Text == b is Text,
        a is Blob == b is Blob,
{
}

} // verus!
