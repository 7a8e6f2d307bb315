//! Schema gate and primary-key gate.
//!
//! Changesets carry rows keyed by primary key and nothing about table definitions.
//! Three consequences drive this module:
//!
//!   1. Where the schema differs between the two sides, applying a changeset across
//!      that boundary is meaningless, so the merge is refused. Definitions are
//!      compared in their normal form.
//!   2. The merge base must share the schema too: a session diff needs the same
//!      table definitions on both ends.
//!   3. A session skips every table without an explicit `PRIMARY KEY` silently, so
//!      the merge of such a table is refused.
use vstd::prelude::*;

use crate::error::{
    divergence_models, optional_text, DivergenceModel, ErrorModel, MergeError, SchemaDivergence,
};
use crate::sql::{normalize_sql, normalized};
use crate::text::{
    compare_texts, precedes, precedes_is_asymmetric, precedes_is_total, precedes_is_transitive,
    same_text, texts, Order,
};

verus! {

/// Reads the type, the name and the definition of every schema object. Objects
/// without SQL of their own (the indexes behind `PRIMARY KEY` and `UNIQUE`) follow
/// from the table definitions and are left out, and so are SQLite's internal ones.
pub const SCHEMA_OBJECTS_SQL: &'static str =
    "SELECT type, name, sql FROM sqlite_schema WHERE sql IS NOT NULL AND name NOT LIKE 'sqlite\\_%' ESCAPE '\\' ORDER BY name, type";

/// Reads the names of the user tables, leaving out internal tables and views.
pub const USER_TABLES_SQL: &'static str =
    "SELECT name FROM sqlite_schema WHERE type = 'table' AND name NOT LIKE 'sqlite\\_%' ESCAPE '\\' ORDER BY name";

/// Counts the primary-key columns of the table given as the first parameter.
pub const KEY_COLUMNS_SQL: &'static str =
    "SELECT COUNT(*) FROM pragma_table_info(?1) WHERE pk > 0";

/// A schema object: its type (`table`, `index`, `view` or `trigger`), its name, and
/// the SQL that defines it.
#[derive(Debug, Clone)]
pub struct SchemaRow {
    pub kind: String,
    pub name: String,
    pub sql: String,
}

/// What tells a schema object from others: its name, and its type, since a trigger
/// may bear the name of a table.
pub type ObjectKey = (Seq<char>, Seq<char>);

/// The key and the definition of a schema object.
pub type RowModel = (ObjectKey, Seq<char>);

/// The definitions of the objects of a schema.
pub type Definitions = Map<ObjectKey, Seq<char>>;

impl View for SchemaRow {
    type V = RowModel;

    open spec fn view(&self) -> RowModel {
        ((self.name@, self.kind@), self.sql@)
    }
}

/// The keys and definitions of several rows.
pub open spec fn row_models(rows: Seq<SchemaRow>) -> Seq<RowModel> {
    Seq::new(rows.len(), |i: int| rows[i]@)
}

/// Each object's definition in normal form. Where a name and type occur more than
/// once, their last row counts.
pub open spec fn objects(rows: Seq<RowModel>) -> Definitions
    decreases rows.len(),
{
    if rows.len() == 0 {
        Map::empty()
    } else {
        objects(rows.drop_last()).insert(rows.last().0, normalized(rows.last().1))
    }
}

/// `a` comes before `b`, by name and then by type.
pub open spec fn key_precedes(a: ObjectKey, b: ObjectKey) -> bool {
    precedes(a.0, b.0) || (a.0 == b.0 && precedes(a.1, b.1))
}

proof fn key_precedes_is_asymmetric(a: ObjectKey, b: ObjectKey)
    requires
        key_precedes(a, b),
    ensures
        !key_precedes(b, a),
        a != b,
{
    if precedes(a.0, b.0) {
        precedes_is_asymmetric(a.0, b.0);
    } else {
        precedes_is_asymmetric(a.1, b.1);
    }
}

proof fn key_precedes_is_transitive(a: ObjectKey, b: ObjectKey, c: ObjectKey)
    requires
        key_precedes(a, b),
        key_precedes(b, c),
    ensures
        key_precedes(a, c),
{
    if precedes(a.0, b.0) && precedes(b.0, c.0) {
        precedes_is_transitive(a.0, b.0, c.0);
    } else if a.0 == b.0 && b.0 == c.0 && !precedes(a.0, b.0) && !precedes(b.0, c.0) {
        precedes_is_transitive(a.1, b.1, c.1);
    }
}

proof fn key_precedes_is_total(a: ObjectKey, b: ObjectKey)
    ensures
        a == b || key_precedes(a, b) || key_precedes(b, a),
{
    precedes_is_total(a.0, b.0);
    precedes_is_total(a.1, b.1);
}

/// The keys are in ascending order, each of them once.
pub open spec fn ascending(keys: Seq<ObjectKey>) -> bool {
    forall|i: int, j: int|
        0 <= i < j < keys.len() ==> key_precedes(#[trigger] keys[i], #[trigger] keys[j])
}

/// The keys are, in ascending order and each once, exactly those of the objects that
/// both schemas have and define differently.
pub open spec fn lists_changed(
    ours: Definitions,
    theirs: Definitions,
    keys: Seq<ObjectKey>,
) -> bool {
    &&& ascending(keys)
    &&& forall|key: ObjectKey| #[trigger]
        keys.contains(key) <==> ours.contains_key(key) && theirs.contains_key(key) && ours[key]
            != theirs[key]
}

/// The keys are, in ascending order and each once, exactly those of the objects of
/// `ours` that `theirs` does not have.
pub open spec fn lists_lone(ours: Definitions, theirs: Definitions, keys: Seq<ObjectKey>) -> bool {
    &&& ascending(keys)
    &&& forall|key: ObjectKey| #[trigger]
        keys.contains(key) <==> ours.contains_key(key) && !theirs.contains_key(key)
}

/// The objects that both schemas have and define differently, in ascending order.
pub open spec fn changed_keys(ours: Definitions, theirs: Definitions) -> Seq<ObjectKey> {
    choose|keys: Seq<ObjectKey>| lists_changed(ours, theirs, keys)
}

/// The objects of `ours` that `theirs` does not have, in ascending order.
pub open spec fn lone_keys(ours: Definitions, theirs: Definitions) -> Seq<ObjectKey> {
    choose|keys: Seq<ObjectKey>| lists_lone(ours, theirs, keys)
}

/// The divergence between an object of ours and one of theirs of the same name.
pub open spec fn between(
    ours: Definitions,
    theirs: Definitions,
    a: ObjectKey,
    b: ObjectKey,
) -> DivergenceModel {
    DivergenceModel { object: a.0, ours: Some(ours[a]), theirs: Some(theirs[b]) }
}

/// The divergence of an object of ours to which theirs has no counterpart.
pub open spec fn only_ours(ours: Definitions, a: ObjectKey) -> DivergenceModel {
    DivergenceModel { object: a.0, ours: Some(ours[a]), theirs: None }
}

/// The divergence of an object of theirs to which ours has no counterpart.
pub open spec fn only_theirs(theirs: Definitions, b: ObjectKey) -> DivergenceModel {
    DivergenceModel { object: b.0, ours: None, theirs: Some(theirs[b]) }
}

/// The divergences of objects that both schemas have.
pub open spec fn changes_at(
    ours: Definitions,
    theirs: Definitions,
    keys: Seq<ObjectKey>,
) -> Seq<DivergenceModel> {
    Seq::new(keys.len(), |i: int| between(ours, theirs, keys[i], keys[i]))
}

/// The divergences between objects of ours and objects of theirs that have no
/// counterpart of their own type: those of one name are paired with each other in
/// order, a pair is listed where its definitions differ, and what is left is listed
/// with one side alone.
pub open spec fn paired_up(
    ours: Definitions,
    theirs: Definitions,
    a: Seq<ObjectKey>,
    b: Seq<ObjectKey>,
) -> Seq<DivergenceModel>
    decreases a.len() + b.len(),
{
    if a.len() == 0 && b.len() == 0 {
        Seq::empty()
    } else if b.len() == 0 || (a.len() > 0 && precedes(a[0].0, b[0].0)) {
        seq![only_ours(ours, a[0])] + paired_up(ours, theirs, a.skip(1), b)
    } else if a.len() == 0 || precedes(b[0].0, a[0].0) {
        seq![only_theirs(theirs, b[0])] + paired_up(ours, theirs, a, b.skip(1))
    } else if ours[a[0]] != theirs[b[0]] {
        seq![between(ours, theirs, a[0], b[0])] + paired_up(ours, theirs, a.skip(1), b.skip(1))
    } else {
        paired_up(ours, theirs, a.skip(1), b.skip(1))
    }
}

/// Two lists that are each in the order of the names, as one: of one name, the items
/// of the first come first.
pub open spec fn in_name_order(x: Seq<DivergenceModel>, y: Seq<DivergenceModel>) -> Seq<
    DivergenceModel,
>
    decreases x.len() + y.len(),
{
    if x.len() == 0 {
        y
    } else if y.len() == 0 {
        x
    } else if precedes(y[0].object, x[0].object) {
        seq![y[0]] + in_name_order(x, y.skip(1))
    } else {
        seq![x[0]] + in_name_order(x.skip(1), y)
    }
}

/// The divergences of two schemas. The objects of one name are paired by their types;
/// those that are left on the two sides are paired with each other. A pair is listed
/// where its definitions differ, and what has no counterpart is listed too.
pub open spec fn divergences(ours: Definitions, theirs: Definitions) -> Seq<DivergenceModel> {
    in_name_order(
        changes_at(ours, theirs, changed_keys(ours, theirs)),
        paired_up(ours, theirs, lone_keys(ours, theirs), lone_keys(theirs, ours)),
    )
}

/// The names in a list of divergences, each once.
pub open spec fn diverging_names(list: Seq<DivergenceModel>) -> Seq<Seq<char>>
    decreases list.len(),
{
    if list.len() == 0 {
        Seq::empty()
    } else {
        let before = diverging_names(list.drop_last());
        if before.len() > 0 && before.last() == list.last().object {
            before
        } else {
            before.push(list.last().object)
        }
    }
}

/// The two schemas do not diverge.
pub open spec fn same_schema(ours: Definitions, theirs: Definitions) -> bool {
    divergences(ours, theirs).len() == 0
}

/// A key can be put into its place in an ascending list.
proof fn with_key(keys: Seq<ObjectKey>, key: ObjectKey) -> (more: Seq<ObjectKey>)
    requires
        ascending(keys),
    ensures
        ascending(more),
        forall|n: ObjectKey| #[trigger] more.contains(n) <==> keys.contains(n) || n == key,
    decreases keys.len(),
{
    if keys.len() == 0 {
        let more = seq![key];
        assert(more[0] == key);
        assert forall|n: ObjectKey| #[trigger] more.contains(n) <==> keys.contains(n) || n
            == key by {
            if n == key {
                assert(more[0] == n);
            }
        }
        more
    } else {
        let last = keys.last();
        let before = keys.drop_last();
        key_precedes_is_total(last, key);
        assert forall|n: ObjectKey| #[trigger] keys.contains(n) <==> before.contains(n) || n
            == last by {
            if keys.contains(n) {
                let i = choose|i: int| 0 <= i < keys.len() && keys[i] == n;
                if i < before.len() {
                    assert(before[i] == n);
                }
            }
            if before.contains(n) {
                let i = choose|i: int| 0 <= i < before.len() && before[i] == n;
                assert(keys[i] == n);
            }
            if n == last {
                assert(keys[keys.len() - 1] == n);
            }
        }
        if last == key {
            keys
        } else if key_precedes(last, key) {
            let more = keys.push(key);
            assert forall|i: int, j: int| 0 <= i < j < more.len() implies key_precedes(
                #[trigger] more[i],
                #[trigger] more[j],
            ) by {
                if j == keys.len() && i < keys.len() - 1 {
                    assert(key_precedes(keys[i], keys[keys.len() - 1]));
                    key_precedes_is_transitive(keys[i], last, key);
                }
            }
            assert forall|n: ObjectKey| #[trigger] more.contains(n) <==> keys.contains(n) || n
                == key by {
                if keys.contains(n) {
                    let i = choose|i: int| 0 <= i < keys.len() && keys[i] == n;
                    assert(more[i] == n);
                }
                if n == key {
                    assert(more[keys.len() as int] == n);
                }
            }
            more
        } else {
            let inner = with_key(before, key);
            let more = inner.push(last);
            assert forall|i: int| 0 <= i < inner.len() implies key_precedes(
                #[trigger] inner[i],
                last,
            ) by {
                assert(inner.contains(inner[i]));
                if inner[i] != key {
                    let k = choose|k: int| 0 <= k < before.len() && before[k] == inner[i];
                    assert(key_precedes(keys[k], keys[keys.len() - 1]));
                }
            }
            assert forall|n: ObjectKey| #[trigger] more.contains(n) <==> keys.contains(n) || n
                == key by {
                if more.contains(n) {
                    let i = choose|i: int| 0 <= i < more.len() && more[i] == n;
                    if i < inner.len() {
                        assert(inner[i] == n);
                        assert(inner.contains(n));
                    }
                }
                if inner.contains(n) {
                    let i = choose|i: int| 0 <= i < inner.len() && inner[i] == n;
                    assert(more[i] == n);
                }
                if n == last {
                    assert(more[inner.len() as int] == n);
                }
            }
            more
        }
    }
}

/// The objects of a schema that satisfy a condition can be listed in order.
proof fn keys_can_be_listed(rows: Seq<RowModel>, p: spec_fn(ObjectKey) -> bool) -> (keys: Seq<
    ObjectKey,
>)
    ensures
        ascending(keys),
        forall|key: ObjectKey| #[trigger]
            keys.contains(key) <==> objects(rows).contains_key(key) && p(key),
    decreases rows.len(),
{
    if rows.len() == 0 {
        Seq::empty()
    } else {
        let before = keys_can_be_listed(rows.drop_last(), p);
        if p(rows.last().0) {
            with_key(before, rows.last().0)
        } else {
            before
        }
    }
}

/// The objects that both of two schemas have and define differently, and those that
/// only one of them has, can be listed.
pub proof fn divergences_are_listed(ours: Seq<RowModel>, theirs: Seq<RowModel>)
    ensures
        lists_changed(
            objects(ours),
            objects(theirs),
            changed_keys(objects(ours), objects(theirs)),
        ),
        lists_lone(
            objects(ours),
            objects(theirs),
            lone_keys(objects(ours), objects(theirs)),
        ),
        lists_lone(
            objects(theirs),
            objects(ours),
            lone_keys(objects(theirs), objects(ours)),
        ),
{
    let x = objects(ours);
    let y = objects(theirs);
    let changed = keys_can_be_listed(
        ours,
        |key: ObjectKey| y.contains_key(key) && x[key] != y[key],
    );
    assert(lists_changed(x, y, changed));
    let lone = keys_can_be_listed(ours, |key: ObjectKey| !y.contains_key(key));
    assert(lists_lone(x, y, lone));
    let other = keys_can_be_listed(theirs, |key: ObjectKey| !x.contains_key(key));
    assert(lists_lone(y, x, other));
}

pub(crate) proof fn ascending_is_unique(xs: Seq<ObjectKey>, ys: Seq<ObjectKey>)
    requires
        ascending(xs),
        ascending(ys),
        forall|x: ObjectKey| xs.contains(x) <==> ys.contains(x),
    ensures
        xs == ys,
    decreases xs.len(),
{
    if xs.len() == 0 {
        if ys.len() > 0 {
            assert(ys.contains(ys[0]));
            assert(xs.contains(ys[0]));
        }
        assert(xs =~= ys);
    } else if ys.len() == 0 {
        assert(xs.contains(xs[0]));
        assert(ys.contains(xs[0]));
    } else {
        let x = xs.last();
        let y = ys.last();
        assert(xs.contains(x));
        assert(ys.contains(y));
        let i = choose|i: int| 0 <= i < xs.len() && xs[i] == y;
        let j = choose|j: int| 0 <= j < ys.len() && ys[j] == x;
        assert(ys.contains(x) && xs.contains(y));
        if x != y {
            assert(key_precedes(xs[i], xs[xs.len() - 1]));
            assert(key_precedes(ys[j], ys[ys.len() - 1]));
            key_precedes_is_asymmetric(x, y);
        }
        let xs1 = xs.drop_last();
        let ys1 = ys.drop_last();
        assert forall|n: ObjectKey| xs1.contains(n) <==> ys1.contains(n) by {
            if xs1.contains(n) {
                let k = choose|k: int| 0 <= k < xs1.len() && xs1[k] == n;
                assert(xs[k] == n);
                assert(xs.contains(n));
                key_precedes_is_asymmetric(xs[k], xs[xs.len() - 1]);
                let l = choose|l: int| 0 <= l < ys.len() && ys[l] == n;
                assert(ys.contains(n));
                assert(l < ys1.len());
                assert(ys1[l] == n);
            }
            if ys1.contains(n) {
                let k = choose|k: int| 0 <= k < ys1.len() && ys1[k] == n;
                assert(ys[k] == n);
                assert(ys.contains(n));
                key_precedes_is_asymmetric(ys[k], ys[ys.len() - 1]);
                let l = choose|l: int| 0 <= l < xs.len() && xs[l] == n;
                assert(xs.contains(n));
                assert(l < xs1.len());
                assert(xs1[l] == n);
            }
        }
        ascending_is_unique(xs1, ys1);
        assert(xs =~= xs1.push(x));
        assert(ys =~= ys1.push(y));
    }
}

/// The entries list a map in ascending order of the keys.
spec fn lists(entries: Seq<RowModel>, map: Definitions) -> bool {
    &&& forall|i: int, j: int|
        0 <= i < j < entries.len() ==> key_precedes(
            (#[trigger] entries[i]).0,
            (#[trigger] entries[j]).0,
        )
    &&& forall|i: int|
        0 <= i < entries.len() ==> map.contains_key((#[trigger] entries[i]).0)
            && map[entries[i].0] == entries[i].1
    &&& forall|key: ObjectKey| #[trigger]
        map.contains_key(key) ==> exists|i: int|
            0 <= i < entries.len() && (#[trigger] entries[i]).0 == key
}

/// Compares two objects by name and then by type.
fn compare_objects(a: &SchemaRow, b: &SchemaRow) -> (order: Order)
    ensures
        order == Order::Before <==> key_precedes(a@.0, b@.0),
        order == Order::Same <==> a@.0 == b@.0,
        order == Order::After <==> key_precedes(b@.0, a@.0),
{
    proof {
        if precedes(a.name@, b.name@) {
            precedes_is_asymmetric(a.name@, b.name@);
        }
        if precedes(b.name@, a.name@) {
            precedes_is_asymmetric(b.name@, a.name@);
        }
    }
    match compare_texts(a.name.as_str(), b.name.as_str()) {
        Order::Same => compare_texts(a.kind.as_str(), b.kind.as_str()),
        order => order,
    }
}

/// Sets the definition of an object in the list of a map.
fn insert_object(entries: &mut Vec<SchemaRow>, row: SchemaRow, Ghost(map): Ghost<Definitions>)
    requires
        lists(row_models(old(entries)@), map),
    ensures
        lists(row_models(final(entries)@), map.insert(row@.0, row@.1)),
{
    let ghost key = row@.0;
    let ghost es = row_models(entries@);
    let mut k: usize = entries.len();
    while k > 0 && compare_objects(&row, &entries[k - 1]) == Order::Before
        invariant
            k <= entries.len(),
            es == row_models(entries@),
            key == row@.0,
            lists(es, map),
            forall|j: int| k <= j < es.len() ==> key_precedes(key, (#[trigger] es[j]).0),
        decreases k,
    {
        assert(es[k - 1] == entries[k - 1]@);
        k = k - 1;
    }
    let ghost new = map.insert(row@.0, row@.1);
    let ghost pair = row@;
    proof {
        assert forall|j: int| k <= j < es.len() implies (#[trigger] es[j]).0 != key by {
            key_precedes_is_asymmetric(key, es[j].0);
        }
        if k > 0 {
            assert(es[k - 1] == entries[k - 1]@);
            assert forall|j: int| 0 <= j < k - 1 implies (#[trigger] es[j]).0 != es[k - 1].0 by {
                key_precedes_is_asymmetric(es[j].0, es[k - 1].0);
            }
        }
    }
    if k > 0 && compare_objects(&row, &entries[k - 1]) == Order::Same {
        entries.set(k - 1, row);
        proof {
            let fs = row_models(entries@);
            assert(fs =~= es.update(k - 1, pair));
            assert forall|n: ObjectKey| #[trigger] new.contains_key(n) implies exists|i: int|
                0 <= i < fs.len() && (#[trigger] fs[i]).0 == n by {
                if n == pair.0 {
                    assert(fs[k - 1].0 == n);
                } else {
                    assert(map.contains_key(n));
                    let i = choose|i: int| 0 <= i < es.len() && (#[trigger] es[i]).0 == n;
                    assert(fs[i].0 == n);
                }
            }
            assert(lists(fs, new));
        }
    } else {
        proof {
            if k > 0 {
                assert(key_precedes(es[k - 1].0, key));
                assert forall|j: int| 0 <= j < k implies key_precedes((#[trigger] es[j]).0, key)
                    && es[j].0 != key by {
                    if j < k - 1 {
                        key_precedes_is_transitive(es[j].0, es[k - 1].0, key);
                    }
                    key_precedes_is_asymmetric(es[j].0, key);
                }
            }
        }
        entries.insert(k, row);
        proof {
            let fs = row_models(entries@);
            assert(fs =~= es.insert(k as int, pair));
            assert forall|i: int, j: int| 0 <= i < j < fs.len() implies key_precedes(
                (#[trigger] fs[i]).0,
                (#[trigger] fs[j]).0,
            ) by {
                let i0 = if i < k {
                    i
                } else {
                    i - 1
                };
                let j0 = if j < k {
                    j
                } else {
                    j - 1
                };
                if i != k {
                    assert(fs[i] == es[i0]);
                }
                if j != k {
                    assert(fs[j] == es[j0]);
                }
            }
            assert forall|i: int| 0 <= i < fs.len() implies new.contains_key((#[trigger] fs[i]).0)
                && new[fs[i].0] == fs[i].1 by {
                if i < k {
                    assert(fs[i] == es[i]);
                } else if i > k {
                    assert(fs[i] == es[i - 1]);
                }
            }
            assert forall|n: ObjectKey| #[trigger] new.contains_key(n) implies exists|i: int|
                0 <= i < fs.len() && (#[trigger] fs[i]).0 == n by {
                if n == pair.0 {
                    assert(fs[k as int].0 == n);
                } else {
                    assert(map.contains_key(n));
                    let i = choose|i: int| 0 <= i < es.len() && (#[trigger] es[i]).0 == n;
                    if i < k {
                        assert(fs[i].0 == n);
                    } else {
                        assert(fs[i + 1].0 == n);
                    }
                }
            }
            assert(lists(fs, new));
        }
    }
}

/// The objects of a schema by name and type, with their definitions in normal form.
fn schema_objects(rows: &Vec<SchemaRow>) -> (entries: Vec<SchemaRow>)
    ensures
        lists(row_models(entries@), objects(row_models(rows@))),
{
    let ghost all = row_models(rows@);
    let mut entries: Vec<SchemaRow> = Vec::new();
    let mut i: usize = 0;
    while i < rows.len()
        invariant
            i <= rows.len(),
            all == row_models(rows@),
            lists(row_models(entries@), objects(all.take(i as int))),
        decreases rows.len() - i,
    {
        assert(all.take(i + 1).drop_last() == all.take(i as int));
        assert(all[i as int] == rows[i as int]@);
        let row = SchemaRow {
            kind: rows[i].kind.clone(),
            name: rows[i].name.clone(),
            sql: normalize_sql(rows[i].sql.as_str()),
        };
        insert_object(&mut entries, row, Ghost(objects(all.take(i as int))));
        i = i + 1;
    }
    assert(all.take(i as int) == all);
    entries
}

/// Finds the entry with the key of a row.
fn find(entries: &Vec<SchemaRow>, row: &SchemaRow, Ghost(map): Ghost<Definitions>) -> (found: Option<
    usize,
>)
    requires
        lists(row_models(entries@), map),
    ensures
        found matches Some(k) ==> k < entries.len() && entries[k as int]@.0 == row@.0,
        found is None ==> !map.contains_key(row@.0),
{
    let ghost es = row_models(entries@);
    let mut low: usize = 0;
    let mut high: usize = entries.len();
    while low < high
        invariant
            low <= high <= entries.len(),
            es == row_models(entries@),
            lists(es, map),
            forall|p: int| 0 <= p < low ==> key_precedes((#[trigger] es[p]).0, row@.0),
            forall|p: int| high <= p < es.len() ==> key_precedes(row@.0, (#[trigger] es[p]).0),
        decreases high - low,
    {
        let middle: usize = low + (high - low) / 2;
        assert(es[middle as int] == entries[middle as int]@);
        match compare_objects(&entries[middle], row) {
            Order::Before => {
                assert forall|p: int| 0 <= p < middle + 1 implies key_precedes(
                    (#[trigger] es[p]).0,
                    row@.0,
                ) by {
                    if p < middle {
                        key_precedes_is_transitive(es[p].0, es[middle as int].0, row@.0);
                    }
                }
                low = middle + 1;
            },
            Order::After => {
                assert forall|p: int| middle <= p < es.len() implies key_precedes(
                    row@.0,
                    (#[trigger] es[p]).0,
                ) by {
                    if p > middle {
                        key_precedes_is_transitive(row@.0, es[middle as int].0, es[p].0);
                    }
                }
                high = middle;
            },
            Order::Same => {
                return Some(middle);
            },
        }
    }
    proof {
        if map.contains_key(row@.0) {
            let p = choose|p: int| 0 <= p < es.len() && (#[trigger] es[p]).0 == row@.0;
            key_precedes_is_asymmetric(row@.0, row@.0);
        }
    }
    None
}

/// The keys are those of the first `i` entries that satisfy a condition.
spec fn picked(
    keys: Seq<ObjectKey>,
    es: Seq<RowModel>,
    i: int,
    p: spec_fn(ObjectKey) -> bool,
) -> bool {
    &&& ascending(keys)
    &&& forall|m: int, q: int|
        0 <= m < keys.len() && i <= q < es.len() ==> key_precedes(
            #[trigger] keys[m],
            (#[trigger] es[q]).0,
        )
    &&& forall|key: ObjectKey| #[trigger]
        keys.contains(key) <==> p(key) && exists|q: int| 0 <= q < i && (#[trigger] es[q]).0 == key
}

/// One more entry is picked where it satisfies the condition.
proof fn pick(keys: Seq<ObjectKey>, es: Seq<RowModel>, i: int, p: spec_fn(ObjectKey) -> bool)
    requires
        0 <= i < es.len(),
        forall|k: int, l: int|
            0 <= k < l < es.len() ==> key_precedes((#[trigger] es[k]).0, (#[trigger] es[l]).0),
        picked(keys, es, i, p),
    ensures
        picked(
            if p(es[i].0) {
                keys.push(es[i].0)
            } else {
                keys
            },
            es,
            i + 1,
            p,
        ),
{
    let more = if p(es[i].0) {
        keys.push(es[i].0)
    } else {
        keys
    };
    assert forall|key: ObjectKey| #[trigger] more.contains(key) <==> p(key) && exists|q: int|
        0 <= q < i + 1 && (#[trigger] es[q]).0 == key by {
        if more.contains(key) {
            let m = choose|m: int| 0 <= m < more.len() && more[m] == key;
            if m < keys.len() {
                assert(keys[m] == key);
                assert(keys.contains(key));
            } else {
                assert(es[i].0 == key);
            }
        }
        if p(key) && exists|q: int| 0 <= q < i + 1 && (#[trigger] es[q]).0 == key {
            let q = choose|q: int| 0 <= q < i + 1 && (#[trigger] es[q]).0 == key;
            if q < i {
                assert(keys.contains(key));
                let m = choose|m: int| 0 <= m < keys.len() && keys[m] == key;
                assert(more[m] == key);
            } else {
                assert(more[keys.len() as int] == key);
            }
        }
    }
}

/// The keys of the entries at some positions.
spec fn keys_at(entries: Seq<SchemaRow>, at: Seq<usize>) -> Seq<ObjectKey> {
    Seq::new(at.len(), |m: int| entries[at[m] as int]@.0)
}

/// The positions of the entries that the other schema does not have.
fn lone_entries(
    entries: &Vec<SchemaRow>,
    others: &Vec<SchemaRow>,
    Ghost(map): Ghost<Definitions>,
    Ghost(other): Ghost<Definitions>,
) -> (at: Vec<usize>)
    requires
        lists(row_models(entries@), map),
        lists(row_models(others@), other),
    ensures
        forall|m: int| 0 <= m < at.len() ==> (#[trigger] at[m]) < entries.len(),
        lists_lone(map, other, keys_at(entries@, at@)),
{
    let ghost es = row_models(entries@);
    let ghost alone = |key: ObjectKey| !other.contains_key(key);
    let mut at: Vec<usize> = Vec::new();
    let mut i: usize = 0;
    while i < entries.len()
        invariant
            i <= entries.len(),
            es == row_models(entries@),
            lists(es, map),
            lists(row_models(others@), other),
            alone == (|key: ObjectKey| !other.contains_key(key)),
            forall|m: int| 0 <= m < at.len() ==> (#[trigger] at[m]) < entries.len(),
            picked(keys_at(entries@, at@), es, i as int, alone),
        decreases entries.len() - i,
    {
        let ghost before = keys_at(entries@, at@);
        assert(es[i as int] == entries[i as int]@);
        proof {
            pick(before, es, i as int, alone);
        }
        match find(others, &entries[i], Ghost(other)) {
            Some(k) => {
                assert(row_models(others@)[k as int] == others[k as int]@);
            },
            None => {
                at.push(i);
                assert(keys_at(entries@, at@) =~= before.push(es[i as int].0));
            },
        }
        i = i + 1;
    }
    at
}

/// The divergences of the objects that both schemas have.
fn changed_entries(
    entries: &Vec<SchemaRow>,
    others: &Vec<SchemaRow>,
    Ghost(map): Ghost<Definitions>,
    Ghost(other): Ghost<Definitions>,
) -> (list: Vec<SchemaDivergence>)
    requires
        lists(row_models(entries@), map),
        lists(row_models(others@), other),
    ensures
        exists|keys: Seq<ObjectKey>| #[trigger]
            lists_changed(map, other, keys) && divergence_models(list@) == changes_at(
                map,
                other,
                keys,
            ),
{
    let ghost es = row_models(entries@);
    let ghost changed = |key: ObjectKey| other.contains_key(key) && map[key] != other[key];
    let ghost mut keys: Seq<ObjectKey> = Seq::empty();
    let mut list: Vec<SchemaDivergence> = Vec::new();
    let mut i: usize = 0;
    assert(divergence_models(list@) =~= changes_at(map, other, keys));
    while i < entries.len()
        invariant
            i <= entries.len(),
            es == row_models(entries@),
            lists(es, map),
            lists(row_models(others@), other),
            changed == (|key: ObjectKey| other.contains_key(key) && map[key] != other[key]),
            picked(keys, es, i as int, changed),
            divergence_models(list@) == changes_at(map, other, keys),
        decreases entries.len() - i,
    {
        let ghost before = keys;
        assert(es[i as int] == entries[i as int]@);
        proof {
            pick(keys, es, i as int, changed);
        }
        if let Some(k) = find(others, &entries[i], Ghost(other)) {
            assert(row_models(others@)[k as int] == others[k as int]@);
            if !same_text(entries[i].sql.as_str(), others[k].sql.as_str()) {
                let ghost models = divergence_models(list@);
                list.push(
                    SchemaDivergence {
                        object: entries[i].name.clone(),
                        ours: Some(entries[i].sql.clone()),
                        theirs: Some(others[k].sql.clone()),
                    },
                );
                proof {
                    keys = keys.push(es[i as int].0);
                    assert(divergence_models(list@) =~= models.push(list@.last()@));
                    assert(changes_at(map, other, keys) =~= models.push(list@.last()@));
                }
            }
        }
        i = i + 1;
    }
    assert(lists_changed(map, other, keys)) by {
        assert forall|key: ObjectKey| #[trigger] keys.contains(key) <==> map.contains_key(key)
            && other.contains_key(key) && map[key] != other[key] by {}
    }
    list
}

/// The divergences of the objects at some positions, which the other schema does not
/// have.
fn pair_entries(
    ours: &Vec<SchemaRow>,
    theirs: &Vec<SchemaRow>,
    a: &Vec<usize>,
    b: &Vec<usize>,
    Ghost(x): Ghost<Definitions>,
    Ghost(y): Ghost<Definitions>,
) -> (list: Vec<SchemaDivergence>)
    requires
        lists(row_models(ours@), x),
        lists(row_models(theirs@), y),
        forall|m: int| 0 <= m < a.len() ==> (#[trigger] a[m]) < ours.len(),
        forall|m: int| 0 <= m < b.len() ==> (#[trigger] b[m]) < theirs.len(),
    ensures
        divergence_models(list@) == paired_up(x, y, keys_at(ours@, a@), keys_at(theirs@, b@)),
{
    let ghost p = keys_at(ours@, a@);
    let ghost q = keys_at(theirs@, b@);
    let mut list: Vec<SchemaDivergence> = Vec::new();
    let mut i: usize = 0;
    let mut j: usize = 0;
    assert(p.skip(0) == p && q.skip(0) == q);
    assert(divergence_models(list@) + paired_up(x, y, p, q) =~= paired_up(x, y, p, q));
    while i < a.len() || j < b.len()
        invariant
            i <= a.len(),
            j <= b.len(),
            p == keys_at(ours@, a@),
            q == keys_at(theirs@, b@),
            lists(row_models(ours@), x),
            lists(row_models(theirs@), y),
            forall|m: int| 0 <= m < a.len() ==> (#[trigger] a[m]) < ours.len(),
            forall|m: int| 0 <= m < b.len() ==> (#[trigger] b[m]) < theirs.len(),
            paired_up(x, y, p, q) == divergence_models(list@) + paired_up(
                x,
                y,
                p.skip(i as int),
                q.skip(j as int),
            ),
        decreases a.len() - i + b.len() - j,
    {
        let ghost before = divergence_models(list@);
        let ghost left = p.skip(i as int);
        let ghost right = q.skip(j as int);
        let order: Order = if i == a.len() {
            Order::After
        } else if j == b.len() {
            Order::Before
        } else {
            compare_texts(ours[a[i]].name.as_str(), theirs[b[j]].name.as_str())
        };
        proof {
            if i < a.len() {
                let e = a[i as int] as int;
                assert(row_models(ours@)[e] == ours[e]@);
                assert(left[0] == ours[e]@.0);
                assert(left.skip(1) == p.skip(i + 1));
            }
            if j < b.len() {
                let e = b[j as int] as int;
                assert(row_models(theirs@)[e] == theirs[e]@);
                assert(right[0] == theirs[e]@.0);
                assert(right.skip(1) == q.skip(j + 1));
            }
        }
        match order {
            Order::Before => {
                list.push(
                    SchemaDivergence {
                        object: ours[a[i]].name.clone(),
                        ours: Some(ours[a[i]].sql.clone()),
                        theirs: None,
                    },
                );
                assert(divergence_models(list@) =~= before.push(only_ours(x, left[0])));
                i = i + 1;
            },
            Order::After => {
                proof {
                    if i < a.len() {
                        precedes_is_asymmetric(right[0].0, left[0].0);
                    }
                }
                list.push(
                    SchemaDivergence {
                        object: theirs[b[j]].name.clone(),
                        ours: None,
                        theirs: Some(theirs[b[j]].sql.clone()),
                    },
                );
                assert(divergence_models(list@) =~= before.push(only_theirs(y, right[0])));
                j = j + 1;
            },
            Order::Same => {
                if !same_text(ours[a[i]].sql.as_str(), theirs[b[j]].sql.as_str()) {
                    list.push(
                        SchemaDivergence {
                            object: ours[a[i]].name.clone(),
                            ours: Some(ours[a[i]].sql.clone()),
                            theirs: Some(theirs[b[j]].sql.clone()),
                        },
                    );
                    assert(divergence_models(list@) =~= before.push(
                        between(x, y, left[0], right[0]),
                    ));
                }
                i = i + 1;
                j = j + 1;
            },
        }
        proof {
            let rest = paired_up(x, y, p.skip(i as int), q.skip(j as int));
            assert(before + paired_up(x, y, left, right) =~= divergence_models(list@) + rest);
        }
    }
    assert(divergence_models(list@) + Seq::<DivergenceModel>::empty() =~= divergence_models(list@));
    list
}

fn copy_text(text: &Option<String>) -> (copy: Option<String>)
    ensures
        optional_text(copy) == optional_text(*text),
{
    match text {
        Some(t) => Some(t.clone()),
        None => None,
    }
}

fn copy_divergence(d: &SchemaDivergence) -> (copy: SchemaDivergence)
    ensures
        copy@ == d@,
{
    SchemaDivergence {
        object: d.object.clone(),
        ours: copy_text(&d.ours),
        theirs: copy_text(&d.theirs),
    }
}

/// Two lists that are each in the order of the names, as one.
fn merge_lists(x: &Vec<SchemaDivergence>, y: &Vec<SchemaDivergence>) -> (list: Vec<
    SchemaDivergence,
>)
    ensures
        divergence_models(list@) == in_name_order(divergence_models(x@), divergence_models(y@)),
{
    let ghost xs = divergence_models(x@);
    let ghost ys = divergence_models(y@);
    let mut list: Vec<SchemaDivergence> = Vec::new();
    let mut i: usize = 0;
    let mut j: usize = 0;
    assert(xs.skip(0) == xs && ys.skip(0) == ys);
    assert(divergence_models(list@) + in_name_order(xs, ys) =~= in_name_order(xs, ys));
    while i < x.len() || j < y.len()
        invariant
            i <= x.len(),
            j <= y.len(),
            xs == divergence_models(x@),
            ys == divergence_models(y@),
            in_name_order(xs, ys) == divergence_models(list@) + in_name_order(
                xs.skip(i as int),
                ys.skip(j as int),
            ),
        decreases x.len() - i + y.len() - j,
    {
        let ghost before = divergence_models(list@);
        let ghost left = xs.skip(i as int);
        let ghost right = ys.skip(j as int);
        let second: bool = if i == x.len() {
            true
        } else if j == y.len() {
            false
        } else {
            compare_texts(y[j].object.as_str(), x[i].object.as_str()) == Order::Before
        };
        proof {
            if i < x.len() {
                assert(left[0] == x[i as int]@);
                assert(left.skip(1) == xs.skip(i + 1));
                assert(seq![left[0]] + left.skip(1) =~= left);
            }
            if j < y.len() {
                assert(right[0] == y[j as int]@);
                assert(right.skip(1) == ys.skip(j + 1));
                assert(seq![right[0]] + right.skip(1) =~= right);
            }
        }
        if second {
            list.push(copy_divergence(&y[j]));
            assert(divergence_models(list@) =~= before.push(right[0]));
            j = j + 1;
        } else {
            list.push(copy_divergence(&x[i]));
            assert(divergence_models(list@) =~= before.push(left[0]));
            i = i + 1;
        }
        proof {
            let rest = in_name_order(xs.skip(i as int), ys.skip(j as int));
            assert(before + in_name_order(left, right) =~= divergence_models(list@) + rest);
        }
    }
    assert(divergence_models(list@) + Seq::<DivergenceModel>::empty() =~= divergence_models(list@));
    list
}

/// Every schema object whose normal form differs between the two schemas, objects
/// of only one of them included, in the order of the names.
///
/// An object of one schema is compared with the object of the other that has its name
/// and its type, so that a trigger does not stand for the table whose name it bears.
/// Where there is none, it is compared with an object that has its name alone.
pub fn diverging_objects(ours: &Vec<SchemaRow>, theirs: &Vec<SchemaRow>) -> (list: Vec<
    SchemaDivergence,
>)
    ensures
        divergence_models(list@) == divergences(
            objects(row_models(ours@)),
            objects(row_models(theirs@)),
        ),
{
    let ghost x = objects(row_models(ours@));
    let ghost y = objects(row_models(theirs@));
    let a = schema_objects(ours);
    let b = schema_objects(theirs);
    let changed = changed_entries(&a, &b, Ghost(x), Ghost(y));
    let lone_a = lone_entries(&a, &b, Ghost(x), Ghost(y));
    let lone_b = lone_entries(&b, &a, Ghost(y), Ghost(x));
    let paired = pair_entries(&a, &b, &lone_a, &lone_b, Ghost(x), Ghost(y));
    proof {
        divergences_are_listed(row_models(ours@), row_models(theirs@));
        let keys = choose|keys: Seq<ObjectKey>| #[trigger]
            lists_changed(x, y, keys) && divergence_models(changed@) == changes_at(x, y, keys);
        ascending_is_unique(keys, changed_keys(x, y));
        ascending_is_unique(keys_at(a@, lone_a@), lone_keys(x, y));
        ascending_is_unique(keys_at(b@, lone_b@), lone_keys(y, x));
    }
    merge_lists(&changed, &paired)
}

/// Refuses where the schemas of ours and theirs differ, listing every object whose
/// definition differs or that only one side has.
pub fn assert_schema_matches(ours: &Vec<SchemaRow>, theirs: &Vec<SchemaRow>) -> (r: Result<
    (),
    MergeError,
>)
    ensures
        r is Ok <==> same_schema(objects(row_models(ours@)), objects(row_models(theirs@))),
        r matches Err(e) ==> e@ == ErrorModel::SchemaDiverged(
            divergences(objects(row_models(ours@)), objects(row_models(theirs@))),
        ),
{
    let list = diverging_objects(ours, theirs);
    assert(divergence_models(list@).len() == list.len());
    if list.len() == 0 {
        Ok(())
    } else {
        Err(MergeError::SchemaDiverged(list))
    }
}

/// Refuses where the schema of the merge base differs from that of a side, naming
/// every object whose definition differs or that only one of them has.
pub fn assert_base_schema_matches(base: &Vec<SchemaRow>, side: &Vec<SchemaRow>) -> (r: Result<
    (),
    MergeError,
>)
    ensures
        r is Ok <==> same_schema(objects(row_models(base@)), objects(row_models(side@))),
        r matches Err(e) ==> e@ == ErrorModel::BaseSchemaDiverged(
            diverging_names(
                divergences(objects(row_models(base@)), objects(row_models(side@))),
            ),
        ),
{
    let list = diverging_objects(base, side);
    assert(divergence_models(list@).len() == list.len());
    if list.len() == 0 {
        return Ok(());
    }
    let ghost all = divergence_models(list@);
    let mut names: Vec<String> = Vec::new();
    let mut i: usize = 0;
    assert(texts(names@) =~= diverging_names(all.take(0)));
    while i < list.len()
        invariant
            i <= list.len(),
            all == divergence_models(list@),
            texts(names@) == diverging_names(all.take(i as int)),
        decreases list.len() - i,
    {
        let ghost before = texts(names@);
        assert(all.take(i + 1).drop_last() == all.take(i as int));
        assert(all[i as int] == list[i as int]@);
        let known: bool = if names.len() == 0 {
            false
        } else {
            assert(before.last() == names[names.len() - 1]@);
            same_text(names[names.len() - 1].as_str(), list[i].object.as_str())
        };
        if !known {
            names.push(list[i].object.clone());
            assert(texts(names@) =~= before.push(list[i as int].object@));
        }
        i = i + 1;
    }
    assert(all.take(i as int) == all);
    Err(MergeError::BaseSchemaDiverged(names))
}

/// A user table and the number of its primary-key columns.
#[derive(Debug, Clone)]
pub struct TableKeys {
    pub table: String,
    pub key_columns: i64,
}

impl View for TableKeys {
    type V = (Seq<char>, int);

    open spec fn view(&self) -> (Seq<char>, int) {
        (self.table@, self.key_columns as int)
    }
}

/// The names and key counts of several tables.
pub open spec fn key_models(tables: Seq<TableKeys>) -> Seq<(Seq<char>, int)> {
    Seq::new(tables.len(), |i: int| tables[i]@)
}

/// The names of the tables that have no primary-key column, in their order.
pub open spec fn keyless(tables: Seq<(Seq<char>, int)>) -> Seq<Seq<char>>
    decreases tables.len(),
{
    if tables.len() == 0 {
        Seq::empty()
    } else if tables.last().1 > 0 {
        keyless(tables.drop_last())
    } else {
        keyless(tables.drop_last()).push(tables.last().0)
    }
}

/// No table is keyless exactly when every table has a primary-key column.
pub proof fn keyless_is_empty_when_all_have_keys(tables: Seq<(Seq<char>, int)>)
    ensures
        keyless(tables).len() == 0 <==> forall|i: int|
            0 <= i < tables.len() ==> (#[trigger] tables[i]).1 > 0,
    decreases tables.len(),
{
    if tables.len() > 0 {
        let before = tables.drop_last();
        keyless_is_empty_when_all_have_keys(before);
        if keyless(tables).len() == 0 {
            assert forall|i: int| 0 <= i < tables.len() implies (#[trigger] tables[i]).1 > 0 by {
                if i < before.len() {
                    assert(before[i] == tables[i]);
                }
            }
        } else if forall|i: int| 0 <= i < tables.len() ==> (#[trigger] tables[i]).1 > 0 {
            assert(tables[tables.len() - 1].1 > 0);
            assert forall|i: int| 0 <= i < before.len() implies (#[trigger] before[i]).1 > 0 by {
                assert(before[i] == tables[i]);
            }
        }
    }
}

/// Whether a table with that many primary-key columns has a primary key.
pub fn table_has_primary_key(key_columns: i64) -> (r: bool)
    ensures
        r == (key_columns > 0),
{
    key_columns > 0
}

/// Refuses where a user table lacks an explicit `PRIMARY KEY`, naming every such
/// table.
pub fn assert_all_tables_have_primary_key(tables: &Vec<TableKeys>) -> (r: Result<(), MergeError>)
    ensures
        r is Ok <==> forall|i: int| 0 <= i < tables.len() ==> (#[trigger] tables[i]).key_columns > 0,
        r matches Err(e) ==> e@ == ErrorModel::MissingPrimaryKey(keyless(key_models(tables@))),
{
    let ghost all = key_models(tables@);
    let mut missing: Vec<String> = Vec::new();
    let mut i: usize = 0;
    while i < tables.len()
        invariant
            i <= tables.len(),
            all == key_models(tables@),
            texts(missing@) == keyless(all.take(i as int)),
        decreases tables.len() - i,
    {
        assert(all.take(i + 1).drop_last() == all.take(i as int));
        let ghost before = texts(missing@);
        if !table_has_primary_key(tables[i].key_columns) {
            missing.push(tables[i].table.clone());
            assert(texts(missing@) =~= before.push(tables[i as int].table@));
        }
        i = i + 1;
    }
    proof {
        assert(all.take(i as int) == all);
        keyless_is_empty_when_all_have_keys(all);
        assert(texts(missing@).len() == missing.len());
        if missing.len() == 0 {
            assert forall|i: int| 0 <= i < tables.len() implies (#[trigger] tables[i]).key_columns
                > 0 by {
                assert(all[i].1 > 0);
            }
        } else if forall|i: int|
            0 <= i < tables.len() ==> (#[trigger] tables[i]).key_columns > 0 {
            assert forall|i: int| 0 <= i < all.len() implies (#[trigger] all[i]).1 > 0 by {
                assert(tables[i].key_columns > 0);
            }
        }
    }
    if missing.len() == 0 {
        Ok(())
    } else {
        Err(MergeError::MissingPrimaryKey(missing))
    }
}

/// The tables that are found to have no key are exactly those whose count is not
/// positive, each as often as it was counted and in the order of the counts: the `i`-th
/// of them is that of count `at[i]`.
pub proof fn keyless_tables_are_those_without_a_key_column(tables: Seq<(Seq<char>, int)>) -> (at:
    Seq<int>)
    ensures
        at.len() == keyless(tables).len(),
        forall|i: int|
            0 <= i < at.len() ==> 0 <= (#[trigger] at[i]) < tables.len() && tables[at[i]].1 <= 0
                && keyless(tables)[i] == tables[at[i]].0,
        forall|i: int, j: int| 0 <= i < j < at.len() ==> (#[trigger] at[i]) < (#[trigger] at[j]),
        forall|k: int| 0 <= k < tables.len() && (#[trigger] tables[k]).1 <= 0 ==> at.contains(k),
    decreases tables.len(),
{
    if tables.len() == 0 {
        Seq::empty()
    } else {
        let before = tables.drop_last();
        let last = tables.len() - 1;
        let earlier = keyless_tables_are_those_without_a_key_column(before);
        let at = if tables.last().1 > 0 {
            earlier
        } else {
            earlier.push(last)
        };
        assert forall|k: int| 0 <= k < tables.len() && (#[trigger] tables[k]).1
            <= 0 implies at.contains(k) by {
            if k < last {
                assert(before[k] == tables[k]);
                assert(earlier.contains(k));
                let i = choose|i: int| 0 <= i < earlier.len() && earlier[i] == k;
                assert(at[i] == k);
            } else {
                assert(at[earlier.len() as int] == k);
            }
        }
        assert forall|i: int| 0 <= i < at.len() implies 0 <= (#[trigger] at[i]) < tables.len()
            && tables[at[i]].1 <= 0 && keyless(tables)[i] == tables[at[i]].0 by {
            if i < earlier.len() {
                assert(at[i] == earlier[i]);
                assert(before[at[i]] == tables[at[i]]);
            }
        }
        at
    }
}

/// A row stands for the object that its fields name, and the rows of a reply for theirs,
/// one for each and in their order.
pub proof fn rows_are_viewed_in_full(rows: Seq<SchemaRow>, tables: Seq<TableKeys>)
    ensures
        row_models(rows).len() == rows.len(),
        forall|i: int|
            0 <= i < rows.len() ==> #[trigger] row_models(rows)[i] == (
                (rows[i].name@, rows[i].kind@),
                rows[i].sql@,
            ),
        key_models(tables).len() == tables.len(),
        forall|i: int|
            0 <= i < tables.len() ==> #[trigger] key_models(tables)[i] == (
                tables[i].table@,
                tables[i].key_columns as int,
            ),
{
}

} // verus!
