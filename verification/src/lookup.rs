//! Finding the rows that an update is about.
//!
//! A change gives the key of its row and the values that it writes, and nothing of the
//! other columns. Whether both sides changed the row, and whether they have come to the
//! same, shows only in the whole rows of base, ours and theirs.
use vstd::prelude::*;

use crate::merge::{column, is_key_column, Action, ConflictItem};
use crate::sql::{identifier, quote_identifier};
use crate::text::{decimal, join, joined, length_text, texts};

verus! {

/// Reads the names of the columns of the table given as the first parameter, in their
/// order.
pub const COLUMN_NAMES_SQL: &'static str = "SELECT name FROM pragma_table_info(?1) ORDER BY cid";

/// A query for one row. The old values of the columns in `key` are its parameters.
#[derive(Debug, Clone)]
pub struct RowQuery {
    pub sql: String,
    pub key: Vec<usize>,
}

/// The key columns among the first `columns`.
pub open spec fn key_columns(item: ConflictItem, columns: nat) -> Seq<int>
    decreases columns,
{
    if columns == 0 {
        Seq::empty()
    } else {
        let before = key_columns(item, (columns - 1) as nat);
        if is_key_column(item, columns - 1) {
            before.push(columns - 1)
        } else {
            before
        }
    }
}

/// The names as SQL identifiers.
pub open spec fn identifiers(names: Seq<Seq<char>>) -> Seq<Seq<char>> {
    Seq::new(names.len(), |i: int| identifier(names[i]))
}

/// For each key column that it holds the parameter of its place.
pub open spec fn conditions(names: Seq<Seq<char>>, key: Seq<int>) -> Seq<Seq<char>> {
    Seq::new(key.len(), |i: int| identifier(names[key[i]]) + " IS ?"@ + decimal(i + 1))
}

/// The query for the columns of the row whose key columns hold the parameters, in a
/// table of one of the databases of a connection.
pub open spec fn row_sql(
    database: Seq<char>,
    table: Seq<char>,
    names: Seq<Seq<char>>,
    key: Seq<int>,
) -> Seq<char> {
    "SELECT "@ + joined(identifiers(names), ", "@) + " FROM "@ + identifier(database) + "."@
        + identifier(table) + " WHERE "@ + joined(conditions(names, key), " AND "@)
}

/// The row can be looked up: the change updates a table of that many columns, and it
/// gives the whole key.
pub open spec fn has_lookup(item: ConflictItem, columns: nat) -> bool {
    let key = key_columns(item, columns);
    &&& item.operation matches Some(op) && op.action == Action::Update && op.columns == columns
    &&& key.len() > 0
    &&& forall|i: int| 0 <= i < key.len() ==> column(item.old_values@, #[trigger] key[i]) is Some
}

proof fn key_columns_are_columns(item: ConflictItem, columns: nat)
    ensures
        forall|i: int|
            0 <= i < key_columns(item, columns).len() ==> 0 <= #[trigger] key_columns(
                item,
                columns,
            )[i] < columns,
    decreases columns,
{
    if columns > 0 {
        let before = key_columns(item, (columns - 1) as nat);
        let all = key_columns(item, columns);
        key_columns_are_columns(item, (columns - 1) as nat);
        assert forall|i: int| 0 <= i < all.len() implies 0 <= #[trigger] all[i] < columns by {
            if i < before.len() {
                assert(all[i] == before[i]);
            }
        }
    }
}

/// The positions as mathematical integers.
pub open spec fn positions(key: Seq<usize>) -> Seq<int> {
    Seq::new(key.len(), |i: int| key[i] as int)
}

/// The key columns among the first `columns`.
fn find_key(item: &ConflictItem, columns: usize) -> (key: Vec<usize>)
    ensures
        positions(key@) == key_columns(*item, columns as nat),
{
    let mut key: Vec<usize> = Vec::new();
    let mut col: usize = 0;
    while col < columns
        invariant
            col <= columns,
            positions(key@) == key_columns(*item, col as nat),
        decreases columns - col,
    {
        let ghost before = positions(key@);
        let is_key: bool = match &item.key_mask {
            Some(mask) => col < mask.len() && mask[col] != 0,
            None => false,
        };
        if is_key {
            key.push(col);
            assert(positions(key@) =~= before.push(col as int));
        }
        col = col + 1;
    }
    key
}

/// The query for the row that an update is about, in one of the databases of a
/// connection, given the names of the columns of its table. There is none where the row
/// cannot be looked up.
pub fn row_query(database: &str, item: &ConflictItem, names: &Vec<String>) -> (query: Option<
    RowQuery,
>)
    ensures
        query is Some <==> has_lookup(*item, names@.len()),
        query matches Some(q) ==> {
            let key = key_columns(*item, names@.len());
            &&& positions(q.key@) == key
            &&& q.sql@ == row_sql(database@, item.operation->0.table@, texts(names@), key)
        },
{
    let op = match &item.operation {
        Some(op) => op,
        None => {
            return None;
        },
    };
    if op.action != Action::Update || op.columns < 0 || op.columns as usize != names.len() {
        return None;
    }
    let key = find_key(item, names.len());
    let ghost all = key_columns(*item, names@.len());
    let ghost columns = texts(names@);
    proof {
        key_columns_are_columns(*item, names@.len());
    }
    if key.len() == 0 {
        return None;
    }
    let mut parts: Vec<String> = Vec::new();
    let mut i: usize = 0;
    while i < key.len()
        invariant
            i <= key.len(),
            parts.len() == i,
            columns == texts(names@),
            all == key_columns(*item, names@.len()),
            all == positions(key@),
            forall|j: int| 0 <= j < all.len() ==> 0 <= #[trigger] all[j] < names@.len(),
            forall|j: int| 0 <= j < i ==> column(item.old_values@, #[trigger] all[j]) is Some,
            forall|j: int|
                0 <= j < i ==> (#[trigger] parts[j])@ == conditions(columns, all)[j],
        decreases key.len() - i,
    {
        let col: usize = key[i];
        assert(all[i as int] == col);
        if col >= item.old_values.len() || item.old_values[col].is_none() {
            assert(column(item.old_values@, all[i as int]) is None);
            return None;
        }
        let mut part = quote_identifier(names[col].as_str());
        part.append(" IS ?");
        part.append(length_text(i + 1).as_str());
        assert(part@ =~= conditions(columns, all)[i as int]);
        parts.push(part);
        i = i + 1;
    }
    assert(texts(parts@) =~= conditions(columns, all));
    let mut selected: Vec<String> = Vec::new();
    let mut k: usize = 0;
    while k < names.len()
        invariant
            k <= names.len(),
            selected.len() == k,
            forall|j: int| 0 <= j < k ==> (#[trigger] selected[j])@ == identifier(names[j]@),
        decreases names.len() - k,
    {
        selected.push(quote_identifier(names[k].as_str()));
        k = k + 1;
    }
    assert(texts(selected@) =~= identifiers(columns));
    let mut sql = String::new();
    sql.append("SELECT ");
    sql.append(join(&selected, ", ").as_str());
    sql.append(" FROM ");
    sql.append(quote_identifier(database).as_str());
    sql.append(".");
    sql.append(quote_identifier(op.table.as_str()).as_str());
    sql.append(" WHERE ");
    sql.append(join(&parts, " AND ").as_str());
    assert(sql@ =~= row_sql(database@, op.table@, columns, all));
    Some(RowQuery { sql, key })
}

/// The key columns are those of the first `columns` whose byte in the mask is not zero,
/// all of them, in their order.
pub proof fn key_columns_are_those_of_the_mask(item: ConflictItem, columns: nat)
    ensures
        item.key_mask is None ==> key_columns(item, columns).len() == 0,
        forall|i: int|
            0 <= i < key_columns(item, columns).len() ==> 0 <= (#[trigger] key_columns(
                item,
                columns,
            )[i]) < columns && key_columns(item, columns)[i] < item.key_mask->0@.len()
                && item.key_mask->0@[key_columns(item, columns)[i]] != 0,
        forall|i: int, j: int|
            0 <= i < j < key_columns(item, columns).len() ==> (#[trigger] key_columns(
                item,
                columns,
            )[i]) < (#[trigger] key_columns(item, columns)[j]),
        item.key_mask matches Some(mask) ==> forall|col: int|
            0 <= col < columns && col < mask@.len() && #[trigger] mask@[col] != 0 ==> key_columns(
                item,
                columns,
            ).contains(col),
    decreases columns,
{
    if columns > 0 {
        let last = columns - 1;
        let before = key_columns(item, last as nat);
        let all = key_columns(item, columns);
        key_columns_are_those_of_the_mask(item, last as nat);
        assert forall|i: int| 0 <= i < all.len() implies 0 <= (#[trigger] all[i]) < columns
            && all[i] < item.key_mask->0@.len() && item.key_mask->0@[all[i]] != 0 by {
            if i < before.len() {
                assert(all[i] == before[i]);
            }
        }
        assert forall|i: int, j: int| 0 <= i < j < all.len() implies (#[trigger] all[i]) < (
        #[trigger] all[j]) by {
            assert(all[i] == before[i]);
            if j < before.len() {
                assert(all[j] == before[j]);
            }
        }
        if let Some(mask) = item.key_mask {
            assert forall|col: int| 0 <= col < columns && col < mask@.len() && #[trigger] mask@[col]
                != 0 implies all.contains(col) by {
                if col < last {
                    assert(before.contains(col));
                    let i = choose|i: int| 0 <= i < before.len() && before[i] == col;
                    assert(all[i] == col);
                } else {
                    assert(all[before.len() as int] == col);
                }
            }
        }
    }
}

/// The positions of a key are those that it holds, one for each and in their order.
pub proof fn positions_are_those_of_the_key(key: Seq<usize>)
    ensures
        positions(key).len() == key.len(),
        forall|i: int| 0 <= i < key.len() ==> #[trigger] positions(key)[i] == key[i],
{
}

/// A row is looked up exactly where the change is an UPDATE of as many columns, one of
/// them is a key column, and every key column has its old value.
pub proof fn rows_are_looked_up_by_the_whole_key(item: ConflictItem, columns: nat)
    ensures
        has_lookup(item, columns) <==> {
            &&& item.operation is Some
            &&& item.operation->0.action == Action::Update
            &&& item.operation->0.columns == columns
            &&& item.key_mask matches Some(mask)
            &&& exists|col: int| 0 <= col < columns && col < mask@.len() && #[trigger] mask@[col]
                != 0
            &&& forall|col: int|
                0 <= col < columns && col < mask@.len() && #[trigger] mask@[col] != 0 ==> col
                    < item.old_values@.len() && item.old_values@[col] is Some
        },
{
    let key = key_columns(item, columns);
    key_columns_are_those_of_the_mask(item, columns);
    if let Some(mask) = item.key_mask {
        if has_lookup(item, columns) {
            assert(0 <= key[0] < columns && key[0] < mask@.len() && mask@[key[0]] != 0);
            assert forall|col: int| 0 <= col < columns && col < mask@.len() && #[trigger] mask@[col]
                != 0 implies col < item.old_values@.len() && item.old_values@[col] is Some by {
                let i = choose|i: int| 0 <= i < key.len() && key[i] == col;
                assert(column(item.old_values@, key[i]) is Some);
            }
        }
        if exists|col: int| 0 <= col < columns && col < mask@.len() && #[trigger] mask@[col] != 0 {
            let col = choose|col: int|
                0 <= col < columns && col < mask@.len() && #[trigger] mask@[col] != 0;
            assert(key.contains(col));
            if forall|col: int|
                0 <= col < columns && col < mask@.len() && #[trigger] mask@[col] != 0 ==> col
                    < item.old_values@.len() && item.old_values@[col] is Some {
                assert forall|i: int| 0 <= i < key.len() implies column(
                    item.old_values@,
                    #[trigger] key[i],
                ) is Some by {
                    assert(mask@[key[i]] != 0);
                }
            }
        }
    }
}

/// A lookup selects every column of the table, in their order and each by its quoted
/// name, from the table of the database, and asks of every key column that it is the
/// parameter of its place, counted from one.
pub proof fn lookups_name_every_column(
    database: Seq<char>,
    table: Seq<char>,
    names: Seq<Seq<char>>,
    key: Seq<int>,
    selected: Seq<Seq<char>>,
    asked: Seq<Seq<char>>,
)
    requires
        selected.len() == names.len(),
        forall|i: int| 0 <= i < names.len() ==> #[trigger] selected[i] == identifier(names[i]),
        asked.len() == key.len(),
        forall|i: int|
            0 <= i < key.len() ==> #[trigger] asked[i] == identifier(names[key[i]]) + " IS ?"@
                + decimal(i + 1),
    ensures
        row_sql(database, table, names, key) == "SELECT "@ + joined(selected, seq![',', ' '])
            + " FROM "@ + identifier(database) + seq!['.'] + identifier(table) + " WHERE "@
            + joined(asked, " AND "@),
{
    reveal_strlit(", ");
    reveal_strlit(".");
    assert(", "@ =~= seq![',', ' ']);
    assert("."@ =~= seq!['.']);
    assert(identifiers(names) =~= selected);
    assert(conditions(names, key) =~= asked);
}

} // verus!
