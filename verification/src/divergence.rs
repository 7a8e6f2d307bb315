//! What holds of the list of divergences of two schemas.
use vstd::multiset::Multiset;
use vstd::prelude::*;

use crate::error::DivergenceModel;
use crate::schema::{
    ascending, ascending_is_unique, between, changed_keys, changes_at, divergences,
    divergences_are_listed, diverging_names, in_name_order, key_precedes, lone_keys, objects,
    only_ours, only_theirs, paired_up, row_models, same_schema, Definitions, ObjectKey, RowModel,
    SchemaRow,
};
use crate::sql::normalized;
use crate::text::{precedes, precedes_is_asymmetric, precedes_is_total, precedes_is_transitive};

verus! {

/// The first name comes before the second, or, unless `strict`, is the same.
spec fn goes_before(m: Seq<char>, n: Seq<char>, strict: bool) -> bool {
    precedes(m, n) || (!strict && m == n)
}

proof fn goes_before_is_transitive(
    m: Seq<char>,
    n: Seq<char>,
    o: Seq<char>,
    strict: bool,
)
    requires
        goes_before(m, n, strict),
        goes_before(n, o, strict),
    ensures
        goes_before(m, o, strict),
{
    if precedes(m, n) && precedes(n, o) {
        precedes_is_transitive(m, n, o);
    }
}

/// The names of the keys are in order.
spec fn keys_in_order(keys: Seq<ObjectKey>, strict: bool) -> bool {
    forall|i: int, j: int|
        0 <= i < j < keys.len() ==> goes_before(
            (#[trigger] keys[i]).0,
            (#[trigger] keys[j]).0,
            strict,
        )
}

/// The names of the divergences are in order.
spec fn in_order(list: Seq<DivergenceModel>, strict: bool) -> bool {
    forall|i: int, j: int|
        0 <= i < j < list.len() ==> goes_before(
            (#[trigger] list[i]).object,
            (#[trigger] list[j]).object,
            strict,
        )
}

/// The list without its first item.
proof fn first_and_rest(d: DivergenceModel, rest: Seq<DivergenceModel>, strict: bool)
    requires
        in_order(rest, strict),
        forall|i: int|
            0 <= i < rest.len() ==> goes_before(d.object, (#[trigger] rest[i]).object, strict),
    ensures
        in_order(seq![d] + rest, strict),
{
    let all = seq![d] + rest;
    assert forall|i: int, j: int| 0 <= i < j < all.len() implies goes_before(
        (#[trigger] all[i]).object,
        (#[trigger] all[j]).object,
        strict,
    ) by {
        assert(all[j] == rest[j - 1]);
        if i > 0 {
            assert(all[i] == rest[i - 1]);
        }
    }
}

proof fn rest_in_order(keys: Seq<ObjectKey>, strict: bool)
    requires
        keys_in_order(keys, strict),
        keys.len() > 0,
    ensures
        keys_in_order(keys.skip(1), strict),
{
    let rest = keys.skip(1);
    assert forall|i: int, j: int| 0 <= i < j < rest.len() implies goes_before(
        (#[trigger] rest[i]).0,
        (#[trigger] rest[j]).0,
        strict,
    ) by {
        assert(rest[i] == keys[i + 1] && rest[j] == keys[j + 1]);
    }
}

/// The name is that of one of the keys.
spec fn names(keys: Seq<ObjectKey>, name: Seq<char>) -> bool {
    exists|i: int| 0 <= i < keys.len() && (#[trigger] keys[i]).0 == name
}

proof fn names_of_rest(keys: Seq<ObjectKey>, name: Seq<char>)
    requires
        keys.len() > 0,
    ensures
        names(keys, name) <==> keys[0].0 == name || names(keys.skip(1), name),
{
    let rest = keys.skip(1);
    if names(keys, name) {
        let i = choose|i: int| 0 <= i < keys.len() && (#[trigger] keys[i]).0 == name;
        if i > 0 {
            assert(rest[i - 1].0 == name);
        }
    }
    if names(rest, name) {
        let i = choose|i: int| 0 <= i < rest.len() && (#[trigger] rest[i]).0 == name;
        assert(keys[i + 1].0 == name);
    }
    if keys[0].0 == name {
        assert(names(keys, name));
    }
}

/// The first name goes before every other.
proof fn first_goes_first(keys: Seq<ObjectKey>, name: Seq<char>, strict: bool)
    requires
        keys.len() > 0,
        keys_in_order(keys, strict),
        names(keys.skip(1), name),
    ensures
        goes_before(keys[0].0, name, strict),
{
    let rest = keys.skip(1);
    let i = choose|i: int| 0 <= i < rest.len() && (#[trigger] rest[i]).0 == name;
    assert(keys[i + 1].0 == name);
}

/// A name that comes before the first comes before every one.
proof fn before_first_is_before_all(
    name: Seq<char>,
    keys: Seq<ObjectKey>,
    other: Seq<char>,
    strict: bool,
)
    requires
        keys.len() > 0,
        keys_in_order(keys, strict),
        precedes(name, keys[0].0),
        names(keys, other),
    ensures
        precedes(name, other),
{
    names_of_rest(keys, other);
    if keys[0].0 != other {
        first_goes_first(keys, other, strict);
        if precedes(keys[0].0, other) {
            precedes_is_transitive(name, keys[0].0, other);
        }
    }
}

/// Objects that are paired up are listed in the order of their names.
proof fn pairs_are_in_order(
    x: Definitions,
    y: Definitions,
    a: Seq<ObjectKey>,
    b: Seq<ObjectKey>,
    strict: bool,
)
    requires
        keys_in_order(a, strict),
        keys_in_order(b, strict),
    ensures
        in_order(paired_up(x, y, a, b), strict),
        forall|i: int|
            0 <= i < paired_up(x, y, a, b).len() ==> names(
                a,
                (#[trigger] paired_up(x, y, a, b)[i]).object,
            ) || names(b, paired_up(x, y, a, b)[i].object),
    decreases a.len() + b.len(),
{
    let all = paired_up(x, y, a, b);
    if a.len() == 0 && b.len() == 0 {
    } else if b.len() == 0 || (a.len() > 0 && precedes(a[0].0, b[0].0)) {
        let d = only_ours(x, a[0]);
        let rest = paired_up(x, y, a.skip(1), b);
        rest_in_order(a, strict);
        pairs_are_in_order(x, y, a.skip(1), b, strict);
        assert forall|i: int| 0 <= i < rest.len() implies goes_before(
            d.object,
            (#[trigger] rest[i]).object,
            strict,
        ) && (names(a, rest[i].object) || names(b, rest[i].object)) by {
            names_of_rest(a, rest[i].object);
            if names(a.skip(1), rest[i].object) {
                first_goes_first(a, rest[i].object, strict);
            } else {
                before_first_is_before_all(a[0].0, b, rest[i].object, strict);
            }
        }
        first_and_rest(d, rest, strict);
        names_of_rest(a, a[0].0);
        assert forall|i: int| 0 <= i < all.len() implies names(a, (#[trigger] all[i]).object)
            || names(b, all[i].object) by {
            if i > 0 {
                assert(all[i] == rest[i - 1]);
            }
        }
    } else if a.len() == 0 || precedes(b[0].0, a[0].0) {
        let d = only_theirs(y, b[0]);
        let rest = paired_up(x, y, a, b.skip(1));
        rest_in_order(b, strict);
        pairs_are_in_order(x, y, a, b.skip(1), strict);
        assert forall|i: int| 0 <= i < rest.len() implies goes_before(
            d.object,
            (#[trigger] rest[i]).object,
            strict,
        ) && (names(a, rest[i].object) || names(b, rest[i].object)) by {
            names_of_rest(b, rest[i].object);
            if names(b.skip(1), rest[i].object) {
                first_goes_first(b, rest[i].object, strict);
            } else {
                before_first_is_before_all(b[0].0, a, rest[i].object, strict);
            }
        }
        first_and_rest(d, rest, strict);
        names_of_rest(b, b[0].0);
        assert forall|i: int| 0 <= i < all.len() implies names(a, (#[trigger] all[i]).object)
            || names(b, all[i].object) by {
            if i > 0 {
                assert(all[i] == rest[i - 1]);
            }
        }
    } else {
        let d = between(x, y, a[0], b[0]);
        let rest = paired_up(x, y, a.skip(1), b.skip(1));
        precedes_is_total(a[0].0, b[0].0);
        rest_in_order(a, strict);
        rest_in_order(b, strict);
        pairs_are_in_order(x, y, a.skip(1), b.skip(1), strict);
        assert forall|i: int| 0 <= i < rest.len() implies goes_before(
            d.object,
            (#[trigger] rest[i]).object,
            strict,
        ) && (names(a, rest[i].object) || names(b, rest[i].object)) by {
            names_of_rest(a, rest[i].object);
            names_of_rest(b, rest[i].object);
            if names(a.skip(1), rest[i].object) {
                first_goes_first(a, rest[i].object, strict);
            } else {
                first_goes_first(b, rest[i].object, strict);
            }
        }
        first_and_rest(d, rest, strict);
        names_of_rest(a, a[0].0);
        assert forall|i: int| 0 <= i < all.len() implies names(a, (#[trigger] all[i]).object)
            || names(b, all[i].object) by {
            if x[a[0]] == y[b[0]] {
                assert(all[i] == rest[i]);
            } else if i > 0 {
                assert(all[i] == rest[i - 1]);
            }
        }
    }
}

/// Two lists as one hold what either holds.
proof fn merged_holds_both(
    x: Seq<DivergenceModel>,
    y: Seq<DivergenceModel>,
    d: DivergenceModel,
)
    ensures
        in_name_order(x, y).contains(d) <==> x.contains(d) || y.contains(d),
    decreases x.len() + y.len(),
{
    if x.len() == 0 || y.len() == 0 {
    } else if precedes(y[0].object, x[0].object) {
        merged_holds_both(x, y.skip(1), d);
        cons_holds(y[0], in_name_order(x, y.skip(1)), d);
        cons_holds(y[0], y.skip(1), d);
        assert(seq![y[0]] + y.skip(1) =~= y);
    } else {
        merged_holds_both(x.skip(1), y, d);
        cons_holds(x[0], in_name_order(x.skip(1), y), d);
        cons_holds(x[0], x.skip(1), d);
        assert(seq![x[0]] + x.skip(1) =~= x);
    }
}

proof fn cons_holds(e: DivergenceModel, rest: Seq<DivergenceModel>, d: DivergenceModel)
    ensures
        (seq![e] + rest).contains(d) <==> e == d || rest.contains(d),
{
    let all = seq![e] + rest;
    if all.contains(d) {
        let i = choose|i: int| 0 <= i < all.len() && all[i] == d;
        if i > 0 {
            assert(rest[i - 1] == d);
        }
    }
    if rest.contains(d) {
        let i = choose|i: int| 0 <= i < rest.len() && rest[i] == d;
        assert(all[i + 1] == d);
    }
    if e == d {
        assert(all[0] == d);
    }
}

/// Two lists that are in the order of the names are so as one. For a strict order they
/// must have no name in common.
proof fn merged_is_in_order(x: Seq<DivergenceModel>, y: Seq<DivergenceModel>, strict: bool)
    requires
        in_order(x, strict),
        in_order(y, strict),
        strict ==> forall|i: int, j: int|
            0 <= i < x.len() && 0 <= j < y.len() ==> (#[trigger] x[i]).object != (
            #[trigger] y[j]).object,
    ensures
        in_order(in_name_order(x, y), strict),
    decreases x.len() + y.len(),
{
    if x.len() == 0 || y.len() == 0 {
    } else if precedes(y[0].object, x[0].object) {
        let z = y.skip(1);
        let rest = in_name_order(x, z);
        assert forall|i: int, j: int| 0 <= i < j < z.len() implies goes_before(
            (#[trigger] z[i]).object,
            (#[trigger] z[j]).object,
            strict,
        ) by {
            assert(z[i] == y[i + 1] && z[j] == y[j + 1]);
        }
        assert(forall|j: int| 0 <= j < z.len() ==> (#[trigger] z[j]) == y[j + 1]);
        merged_is_in_order(x, z, strict);
        assert forall|i: int| 0 <= i < rest.len() implies goes_before(
            y[0].object,
            (#[trigger] rest[i]).object,
            strict,
        ) by {
            let d = rest[i];
            merged_holds_both(x, z, d);
            assert(rest.contains(d));
            if z.contains(d) {
                let j = choose|j: int| 0 <= j < z.len() && z[j] == d;
                assert(y[j + 1] == d);
            } else {
                let j = choose|j: int| 0 <= j < x.len() && x[j] == d;
                if j > 0 {
                    goes_before_is_transitive(y[0].object, x[0].object, x[j].object, strict);
                }
            }
        }
        first_and_rest(y[0], rest, strict);
    } else {
        let z = x.skip(1);
        let rest = in_name_order(z, y);
        assert forall|i: int, j: int| 0 <= i < j < z.len() implies goes_before(
            (#[trigger] z[i]).object,
            (#[trigger] z[j]).object,
            strict,
        ) by {
            assert(z[i] == x[i + 1] && z[j] == x[j + 1]);
        }
        assert(forall|j: int| 0 <= j < z.len() ==> (#[trigger] z[j]) == x[j + 1]);
        merged_is_in_order(z, y, strict);
        precedes_is_total(x[0].object, y[0].object);
        assert forall|i: int| 0 <= i < rest.len() implies goes_before(
            x[0].object,
            (#[trigger] rest[i]).object,
            strict,
        ) by {
            let d = rest[i];
            merged_holds_both(z, y, d);
            assert(rest.contains(d));
            if z.contains(d) {
                let j = choose|j: int| 0 <= j < z.len() && z[j] == d;
                assert(x[j + 1] == d);
            } else {
                let j = choose|j: int| 0 <= j < y.len() && y[j] == d;
                if j > 0 {
                    goes_before_is_transitive(x[0].object, y[0].object, y[j].object, strict);
                }
            }
        }
        first_and_rest(x[0], rest, strict);
    }
}

proof fn ascending_keys_are_in_order(keys: Seq<ObjectKey>)
    requires
        ascending(keys),
    ensures
        keys_in_order(keys, false),
{
    assert forall|i: int, j: int| 0 <= i < j < keys.len() implies goes_before(
        (#[trigger] keys[i]).0,
        (#[trigger] keys[j]).0,
        false,
    ) by {
        assert(key_precedes(keys[i], keys[j]));
    }
}

/// The list of divergences is in the order of the names: none comes before an earlier
/// one.
pub proof fn divergences_are_in_name_order(ours: Seq<RowModel>, theirs: Seq<RowModel>)
    ensures
        forall|i: int, j: int|
            0 <= i < j < divergences(objects(ours), objects(theirs)).len() ==> !precedes(
                (#[trigger] divergences(objects(ours), objects(theirs))[j]).object,
                (#[trigger] divergences(objects(ours), objects(theirs))[i]).object,
            ),
{
    let x = objects(ours);
    let y = objects(theirs);
    let list = divergences(x, y);
    divergences_are_listed(ours, theirs);
    ascending_keys_are_in_order(changed_keys(x, y));
    ascending_keys_are_in_order(lone_keys(x, y));
    ascending_keys_are_in_order(lone_keys(y, x));
    pairs_are_in_order(x, y, lone_keys(x, y), lone_keys(y, x), false);
    let changes = changes_at(x, y, changed_keys(x, y));
    assert(forall|i: int|
        0 <= i < changes.len() ==> (#[trigger] changes[i]).object == changed_keys(x, y)[i].0);
    merged_is_in_order(changes, paired_up(x, y, lone_keys(x, y), lone_keys(y, x)), false);
    assert forall|i: int, j: int| 0 <= i < j < list.len() implies !precedes(
        (#[trigger] list[j]).object,
        (#[trigger] list[i]).object,
    ) by {
        assert(goes_before(list[i].object, list[j].object, false));
        if precedes(list[j].object, list[i].object) {
            precedes_is_asymmetric(list[j].object, list[i].object);
        }
    }
}

/// The divergence is one of an object that has no counterpart of its own type.
spec fn is_of_pair(
    x: Definitions,
    y: Definitions,
    a: Seq<ObjectKey>,
    b: Seq<ObjectKey>,
    d: DivergenceModel,
) -> bool {
    ||| exists|i: int| 0 <= i < a.len() && d == only_ours(x, #[trigger] a[i])
    ||| exists|j: int| 0 <= j < b.len() && d == only_theirs(y, #[trigger] b[j])
    ||| exists|i: int, j: int|
        0 <= i < a.len() && 0 <= j < b.len() && (#[trigger] a[i]).0 == (#[trigger] b[j]).0
            && x[a[i]] != y[b[j]] && d == between(x, y, a[i], b[j])
}

proof fn pair_of_more(
    x: Definitions,
    y: Definitions,
    a: Seq<ObjectKey>,
    b: Seq<ObjectKey>,
    m: int,
    n: int,
    d: DivergenceModel,
)
    requires
        0 <= m <= a.len(),
        0 <= n <= b.len(),
        is_of_pair(x, y, a.skip(m), b.skip(n), d),
    ensures
        is_of_pair(x, y, a, b, d),
{
    let p = a.skip(m);
    let q = b.skip(n);
    if exists|i: int| 0 <= i < p.len() && d == only_ours(x, #[trigger] p[i]) {
        let i = choose|i: int| 0 <= i < p.len() && d == only_ours(x, #[trigger] p[i]);
        assert(a[m + i] == p[i]);
    } else if exists|j: int| 0 <= j < q.len() && d == only_theirs(y, #[trigger] q[j]) {
        let j = choose|j: int| 0 <= j < q.len() && d == only_theirs(y, #[trigger] q[j]);
        assert(b[n + j] == q[j]);
    } else {
        let (i, j) = choose|i: int, j: int|
            0 <= i < p.len() && 0 <= j < q.len() && (#[trigger] p[i]).0 == (#[trigger] q[j]).0
                && x[p[i]] != y[q[j]] && d == between(x, y, p[i], q[j]);
        assert(a[m + i] == p[i]);
        assert(b[n + j] == q[j]);
    }
}

proof fn pairs_are_of_their_objects(
    x: Definitions,
    y: Definitions,
    a: Seq<ObjectKey>,
    b: Seq<ObjectKey>,
    d: DivergenceModel,
)
    requires
        paired_up(x, y, a, b).contains(d),
    ensures
        is_of_pair(x, y, a, b, d),
    decreases a.len() + b.len(),
{
    assert(a.skip(0) == a && b.skip(0) == b);
    if a.len() == 0 && b.len() == 0 {
    } else if b.len() == 0 || (a.len() > 0 && precedes(a[0].0, b[0].0)) {
        cons_holds(only_ours(x, a[0]), paired_up(x, y, a.skip(1), b), d);
        if d != only_ours(x, a[0]) {
            pairs_are_of_their_objects(x, y, a.skip(1), b, d);
            pair_of_more(x, y, a, b, 1, 0, d);
        }
    } else if a.len() == 0 || precedes(b[0].0, a[0].0) {
        cons_holds(only_theirs(y, b[0]), paired_up(x, y, a, b.skip(1)), d);
        if d != only_theirs(y, b[0]) {
            pairs_are_of_their_objects(x, y, a, b.skip(1), d);
            pair_of_more(x, y, a, b, 0, 1, d);
        }
    } else {
        precedes_is_total(a[0].0, b[0].0);
        let e = between(x, y, a[0], b[0]);
        cons_holds(e, paired_up(x, y, a.skip(1), b.skip(1)), d);
        if x[a[0]] != y[b[0]] && d == e {
            assert(a[0].0 == b[0].0);
        } else {
            pairs_are_of_their_objects(x, y, a.skip(1), b.skip(1), d);
            pair_of_more(x, y, a, b, 1, 1, d);
        }
    }
}

/// The schema has an object of that name and definition.
pub open spec fn defines(schema: Definitions, name: Seq<char>, sql: Seq<char>) -> bool {
    exists|kind: Seq<char>| #[trigger]
        schema.contains_key((name, kind)) && schema[(name, kind)] == sql
}

/// Every listed divergence is one: its two sides differ, and each side that it shows is
/// the definition of an object of that name in that schema.
pub proof fn listed_divergences_are_real(ours: Seq<RowModel>, theirs: Seq<RowModel>, i: int)
    requires
        0 <= i < divergences(objects(ours), objects(theirs)).len(),
    ensures
        ({
            let d = divergences(objects(ours), objects(theirs))[i];
            &&& d.ours != d.theirs
            &&& d.ours matches Some(sql) ==> defines(objects(ours), d.object, sql)
            &&& d.theirs matches Some(sql) ==> defines(objects(theirs), d.object, sql)
        }),
{
    let x = objects(ours);
    let y = objects(theirs);
    let d = divergences(x, y)[i];
    let keys = changed_keys(x, y);
    let a = lone_keys(x, y);
    let b = lone_keys(y, x);
    divergences_are_listed(ours, theirs);
    merged_holds_both(changes_at(x, y, keys), paired_up(x, y, a, b), d);
    assert(divergences(x, y).contains(d));
    if changes_at(x, y, keys).contains(d) {
        let k = choose|k: int| 0 <= k < keys.len() && changes_at(x, y, keys)[k] == d;
        assert(keys.contains(keys[k]));
        assert(x.contains_key((keys[k].0, keys[k].1)));
        assert(y.contains_key((keys[k].0, keys[k].1)));
    } else {
        pairs_are_of_their_objects(x, y, a, b, d);
        if exists|k: int| 0 <= k < a.len() && d == only_ours(x, #[trigger] a[k]) {
            let k = choose|k: int| 0 <= k < a.len() && d == only_ours(x, #[trigger] a[k]);
            assert(a.contains(a[k]));
            assert(x.contains_key((a[k].0, a[k].1)));
        } else if exists|k: int| 0 <= k < b.len() && d == only_theirs(y, #[trigger] b[k]) {
            let k = choose|k: int| 0 <= k < b.len() && d == only_theirs(y, #[trigger] b[k]);
            assert(b.contains(b[k]));
            assert(y.contains_key((b[k].0, b[k].1)));
        } else {
            let (k, l) = choose|k: int, l: int|
                0 <= k < a.len() && 0 <= l < b.len() && (#[trigger] a[k]).0 == (#[trigger] b[l]).0
                    && x[a[k]] != y[b[l]] && d == between(x, y, a[k], b[l]);
            assert(a.contains(a[k]));
            assert(b.contains(b[l]));
            assert(x.contains_key((a[k].0, a[k].1)));
            assert(y.contains_key((b[l].0, b[l].1)));
        }
    }
}

/// A change to an object that both schemas have is listed under its name with both
/// definitions, whatever else bears its name.
pub proof fn every_change_is_listed(
    ours: Seq<RowModel>,
    theirs: Seq<RowModel>,
    key: ObjectKey,
) -> (i: int)
    requires
        objects(ours).contains_key(key),
        objects(theirs).contains_key(key),
        objects(ours)[key] != objects(theirs)[key],
    ensures
        0 <= i < divergences(objects(ours), objects(theirs)).len(),
        divergences(objects(ours), objects(theirs))[i] == between(
            objects(ours),
            objects(theirs),
            key,
            key,
        ),
{
    let x = objects(ours);
    let y = objects(theirs);
    let keys = changed_keys(x, y);
    let d = between(x, y, key, key);
    divergences_are_listed(ours, theirs);
    assert(keys.contains(key));
    let k = choose|k: int| 0 <= k < keys.len() && keys[k] == key;
    assert(changes_at(x, y, keys)[k] == d);
    merged_holds_both(
        changes_at(x, y, keys),
        paired_up(x, y, lone_keys(x, y), lone_keys(y, x)),
        d,
    );
    choose|i: int| 0 <= i < divergences(x, y).len() && divergences(x, y)[i] == d
}

proof fn every_object_is_paired_up(
    x: Definitions,
    y: Definitions,
    a: Seq<ObjectKey>,
    b: Seq<ObjectKey>,
    k: int,
)
    requires
        0 <= k < a.len(),
    ensures
        ({
            ||| exists|d: DivergenceModel| #[trigger]
                paired_up(x, y, a, b).contains(d) && d.object == a[k].0 && d.ours == Some(x[a[k]])
            ||| exists|l: int|
                0 <= l < b.len() && (#[trigger] b[l]).0 == a[k].0 && y[b[l]] == x[a[k]]
        }),
    decreases a.len() + b.len(),
{
    let all = paired_up(x, y, a, b);
    if b.len() == 0 || precedes(a[0].0, b[0].0) {
        let d = only_ours(x, a[0]);
        let rest = paired_up(x, y, a.skip(1), b);
        if k == 0 {
            cons_holds(d, rest, d);
        } else {
            assert(a.skip(1)[k - 1] == a[k]);
            every_object_is_paired_up(x, y, a.skip(1), b, k - 1);
            if exists|e: DivergenceModel| #[trigger]
                rest.contains(e) && e.object == a[k].0 && e.ours == Some(x[a[k]]) {
                let e = choose|e: DivergenceModel| #[trigger]
                    rest.contains(e) && e.object == a[k].0 && e.ours == Some(x[a[k]]);
                cons_holds(d, rest, e);
            }
        }
    } else if precedes(b[0].0, a[0].0) {
        let d = only_theirs(y, b[0]);
        let rest = paired_up(x, y, a, b.skip(1));
        every_object_is_paired_up(x, y, a, b.skip(1), k);
        if exists|e: DivergenceModel| #[trigger]
            rest.contains(e) && e.object == a[k].0 && e.ours == Some(x[a[k]]) {
            let e = choose|e: DivergenceModel| #[trigger]
                rest.contains(e) && e.object == a[k].0 && e.ours == Some(x[a[k]]);
            cons_holds(d, rest, e);
        } else {
            let l = choose|l: int|
                0 <= l < b.skip(1).len() && (#[trigger] b.skip(1)[l]).0 == a[k].0
                    && y[b.skip(1)[l]] == x[a[k]];
            assert(b[l + 1] == b.skip(1)[l]);
        }
    } else {
        precedes_is_total(a[0].0, b[0].0);
        let d = between(x, y, a[0], b[0]);
        let rest = paired_up(x, y, a.skip(1), b.skip(1));
        if k == 0 {
            if x[a[0]] != y[b[0]] {
                cons_holds(d, rest, d);
            } else {
                assert(b[0].0 == a[k].0);
            }
        } else {
            assert(a.skip(1)[k - 1] == a[k]);
            every_object_is_paired_up(x, y, a.skip(1), b.skip(1), k - 1);
            if exists|e: DivergenceModel| #[trigger]
                rest.contains(e) && e.object == a[k].0 && e.ours == Some(x[a[k]]) {
                let e = choose|e: DivergenceModel| #[trigger]
                    rest.contains(e) && e.object == a[k].0 && e.ours == Some(x[a[k]]);
                cons_holds(d, rest, e);
            } else {
                let l = choose|l: int|
                    0 <= l < b.skip(1).len() && (#[trigger] b.skip(1)[l]).0 == a[k].0
                        && y[b.skip(1)[l]] == x[a[k]];
                assert(b[l + 1] == b.skip(1)[l]);
            }
        }
    }
}

/// An object of ours that theirs does not have is listed under its name with its
/// definition, unless theirs has an object of that name with the same definition.
pub proof fn every_lone_object_is_listed(
    ours: Seq<RowModel>,
    theirs: Seq<RowModel>,
    key: ObjectKey,
)
    requires
        objects(ours).contains_key(key),
        !objects(theirs).contains_key(key),
        !defines(objects(theirs), key.0, objects(ours)[key]),
    ensures
        exists|d: DivergenceModel| #[trigger]
            divergences(objects(ours), objects(theirs)).contains(d) && d.object == key.0 && d.ours
                == Some(objects(ours)[key]),
{
    let x = objects(ours);
    let y = objects(theirs);
    let a = lone_keys(x, y);
    let b = lone_keys(y, x);
    divergences_are_listed(ours, theirs);
    assert(a.contains(key));
    let k = choose|k: int| 0 <= k < a.len() && a[k] == key;
    every_object_is_paired_up(x, y, a, b, k);
    if exists|l: int| 0 <= l < b.len() && (#[trigger] b[l]).0 == a[k].0 && y[b[l]] == x[a[k]] {
        let l = choose|l: int|
            0 <= l < b.len() && (#[trigger] b[l]).0 == a[k].0 && y[b[l]] == x[a[k]];
        assert(b.contains(b[l]));
        assert(b[l] == (key.0, b[l].1));
        assert(y.contains_key((key.0, b[l].1)));
        assert(defines(y, key.0, x[key]));
    } else {
        let d = choose|d: DivergenceModel| #[trigger]
            paired_up(x, y, a, b).contains(d) && d.object == a[k].0 && d.ours == Some(x[a[k]]);
        merged_holds_both(changes_at(x, y, changed_keys(x, y)), paired_up(x, y, a, b), d);
        assert(divergences(x, y).contains(d));
    }
}

/// The divergence with its two sides exchanged.
pub open spec fn mirrored(d: DivergenceModel) -> DivergenceModel {
    DivergenceModel { object: d.object, ours: d.theirs, theirs: d.ours }
}

/// Every divergence of a list with its two sides exchanged.
pub open spec fn all_mirrored(list: Seq<DivergenceModel>) -> Seq<DivergenceModel> {
    Seq::new(list.len(), |i: int| mirrored(list[i]))
}

proof fn mirrored_cons(d: DivergenceModel, rest: Seq<DivergenceModel>)
    ensures
        all_mirrored(seq![d] + rest) == seq![mirrored(d)] + all_mirrored(rest),
{
    assert(all_mirrored(seq![d] + rest) =~= seq![mirrored(d)] + all_mirrored(rest));
}

proof fn pairs_mirror(x: Definitions, y: Definitions, a: Seq<ObjectKey>, b: Seq<ObjectKey>)
    ensures
        paired_up(y, x, b, a) == all_mirrored(paired_up(x, y, a, b)),
    decreases a.len() + b.len(),
{
    if a.len() == 0 && b.len() == 0 {
        assert(paired_up(y, x, b, a) =~= all_mirrored(paired_up(x, y, a, b)));
    } else if b.len() == 0 || (a.len() > 0 && precedes(a[0].0, b[0].0)) {
        if b.len() > 0 {
            precedes_is_asymmetric(a[0].0, b[0].0);
        }
        pairs_mirror(x, y, a.skip(1), b);
        mirrored_cons(only_ours(x, a[0]), paired_up(x, y, a.skip(1), b));
    } else if a.len() == 0 || precedes(b[0].0, a[0].0) {
        pairs_mirror(x, y, a, b.skip(1));
        mirrored_cons(only_theirs(y, b[0]), paired_up(x, y, a, b.skip(1)));
    } else {
        precedes_is_total(a[0].0, b[0].0);
        pairs_mirror(x, y, a.skip(1), b.skip(1));
        mirrored_cons(between(x, y, a[0], b[0]), paired_up(x, y, a.skip(1), b.skip(1)));
    }
}

proof fn merged_mirrors(p: Seq<DivergenceModel>, q: Seq<DivergenceModel>)
    ensures
        in_name_order(all_mirrored(p), all_mirrored(q)) == all_mirrored(in_name_order(p, q)),
    decreases p.len() + q.len(),
{
    if p.len() == 0 || q.len() == 0 {
    } else if precedes(q[0].object, p[0].object) {
        assert(all_mirrored(q).skip(1) =~= all_mirrored(q.skip(1)));
        merged_mirrors(p, q.skip(1));
        mirrored_cons(q[0], in_name_order(p, q.skip(1)));
    } else {
        assert(all_mirrored(p).skip(1) =~= all_mirrored(p.skip(1)));
        merged_mirrors(p.skip(1), q);
        mirrored_cons(p[0], in_name_order(p.skip(1), q));
    }
}

/// Exchanging the two schemas exchanges the two sides of every divergence and changes
/// nothing else, and a schema does not diverge from itself.
pub proof fn divergences_are_symmetric(ours: Seq<RowModel>, theirs: Seq<RowModel>)
    ensures
        divergences(objects(theirs), objects(ours)) == all_mirrored(
            divergences(objects(ours), objects(theirs)),
        ),
        divergences(objects(ours), objects(ours)) == Seq::<DivergenceModel>::empty(),
{
    let x = objects(ours);
    let y = objects(theirs);
    let keys = changed_keys(x, y);
    divergences_are_listed(ours, theirs);
    divergences_are_listed(theirs, ours);
    ascending_is_unique(changed_keys(y, x), keys);
    assert(changes_at(y, x, keys) =~= all_mirrored(changes_at(x, y, keys)));
    pairs_mirror(x, y, lone_keys(x, y), lone_keys(y, x));
    merged_mirrors(
        changes_at(x, y, keys),
        paired_up(x, y, lone_keys(x, y), lone_keys(y, x)),
    );
    divergences_are_listed(ours, ours);
    let none = Seq::<ObjectKey>::empty();
    ascending_is_unique(changed_keys(x, x), none);
    ascending_is_unique(lone_keys(x, x), none);
    assert(changes_at(x, x, none) =~= Seq::<DivergenceModel>::empty());
    assert(divergences(x, x) =~= Seq::<DivergenceModel>::empty());
}

/// Schemas that do not diverge have the same objects, but for the types of those that
/// one of them does not have; and schemas that have the same objects do not diverge.
pub proof fn no_divergence_means_same_definitions(ours: Seq<RowModel>, theirs: Seq<RowModel>)
    ensures
        same_schema(objects(ours), objects(theirs)) ==> forall|key: ObjectKey|
            {
                &&& #[trigger] objects(ours).contains_key(key) ==> defines(
                    objects(theirs),
                    key.0,
                    objects(ours)[key],
                )
                &&& objects(ours).contains_key(key) && objects(theirs).contains_key(key)
                    ==> objects(ours)[key] == objects(theirs)[key]
            },
        objects(ours) == objects(theirs) ==> same_schema(objects(ours), objects(theirs)),
{
    let x = objects(ours);
    let y = objects(theirs);
    if x == y {
        divergences_are_symmetric(ours, ours);
    }
    if same_schema(x, y) {
        assert forall|key: ObjectKey| {
            &&& #[trigger] x.contains_key(key) ==> defines(y, key.0, x[key])
            &&& x.contains_key(key) && y.contains_key(key) ==> x[key] == y[key]
        } by {
            if x.contains_key(key) {
                if y.contains_key(key) {
                    if x[key] != y[key] {
                        let i = every_change_is_listed(ours, theirs, key);
                    }
                    assert(y.contains_key((key.0, key.1)));
                } else if !defines(y, key.0, x[key]) {
                    every_lone_object_is_listed(ours, theirs, key);
                }
            }
        }
    }
}

/// The schema has at most one object of each name.
pub open spec fn one_of_each_name(schema: Definitions) -> bool {
    forall|a: ObjectKey, b: ObjectKey| #[trigger]
        schema.contains_key(a) && #[trigger] schema.contains_key(b) && a.0 == b.0 ==> a == b
}

/// The definition that a schema with at most one object of each name has under a name.
pub open spec fn definition_of(schema: Definitions, name: Seq<char>) -> Option<Seq<char>> {
    if exists|kind: Seq<char>| schema.contains_key((name, kind)) {
        Some(schema[(name, choose|kind: Seq<char>| schema.contains_key((name, kind)))])
    } else {
        None
    }
}

proof fn definition_of_object(schema: Definitions, key: ObjectKey)
    requires
        one_of_each_name(schema),
        schema.contains_key(key),
    ensures
        definition_of(schema, key.0) == Some(schema[key]),
{
    assert(schema.contains_key((key.0, key.1)));
    let kind = choose|kind: Seq<char>| schema.contains_key((key.0, kind));
    assert(schema.contains_key((key.0, kind)));
    assert((key.0, kind) == key);
}

proof fn sole_keys_are_in_strict_order(schema: Definitions, keys: Seq<ObjectKey>)
    requires
        one_of_each_name(schema),
        ascending(keys),
        forall|key: ObjectKey| #[trigger] keys.contains(key) ==> schema.contains_key(key),
    ensures
        keys_in_order(keys, true),
{
    assert forall|i: int, j: int| 0 <= i < j < keys.len() implies goes_before(
        (#[trigger] keys[i]).0,
        (#[trigger] keys[j]).0,
        true,
    ) by {
        assert(key_precedes(keys[i], keys[j]));
        assert(keys.contains(keys[i]) && keys.contains(keys[j]));
        if keys[i].0 == keys[j].0 {
            assert(keys[i] == keys[j]);
            if precedes(keys[i].0, keys[j].0) {
                precedes_is_asymmetric(keys[i].0, keys[j].0);
            } else {
                precedes_is_asymmetric(keys[i].1, keys[j].1);
            }
        }
    }
}

/// Where names are in strict order, an object is listed with one side alone only where
/// the other list has no object of its name.
proof fn sole_pairs(
    x: Definitions,
    y: Definitions,
    a: Seq<ObjectKey>,
    b: Seq<ObjectKey>,
    d: DivergenceModel,
)
    requires
        keys_in_order(a, true),
        keys_in_order(b, true),
        paired_up(x, y, a, b).contains(d),
    ensures
        d.ours is None ==> !names(a, d.object),
        d.theirs is None ==> !names(b, d.object),
    decreases a.len() + b.len(),
{
    if a.len() == 0 && b.len() == 0 {
    } else if b.len() == 0 || (a.len() > 0 && precedes(a[0].0, b[0].0)) {
        let rest = paired_up(x, y, a.skip(1), b);
        cons_holds(only_ours(x, a[0]), rest, d);
        rest_in_order(a, true);
        if rest.contains(d) {
            sole_pairs(x, y, a.skip(1), b, d);
            names_of_rest(a, d.object);
            pairs_are_in_order(x, y, a.skip(1), b, true);
            if d.ours is None && a[0].0 == d.object {
                let k = choose|k: int| 0 <= k < rest.len() && rest[k] == d;
                assert(names(a.skip(1), rest[k].object) || names(b, rest[k].object));
                if names(b, d.object) {
                    before_first_is_before_all(a[0].0, b, d.object, true);
                    precedes_is_asymmetric(a[0].0, d.object);
                }
            }
        }
        if d == only_ours(x, a[0]) && names(b, d.object) {
            before_first_is_before_all(a[0].0, b, d.object, true);
            precedes_is_asymmetric(a[0].0, d.object);
        }
    } else if a.len() == 0 || precedes(b[0].0, a[0].0) {
        let rest = paired_up(x, y, a, b.skip(1));
        cons_holds(only_theirs(y, b[0]), rest, d);
        rest_in_order(b, true);
        if rest.contains(d) {
            sole_pairs(x, y, a, b.skip(1), d);
            names_of_rest(b, d.object);
            pairs_are_in_order(x, y, a, b.skip(1), true);
            if d.theirs is None && b[0].0 == d.object {
                let k = choose|k: int| 0 <= k < rest.len() && rest[k] == d;
                assert(names(a, rest[k].object) || names(b.skip(1), rest[k].object));
                if names(a, d.object) {
                    before_first_is_before_all(b[0].0, a, d.object, true);
                    precedes_is_asymmetric(b[0].0, d.object);
                }
            }
        }
        if d == only_theirs(y, b[0]) && names(a, d.object) {
            before_first_is_before_all(b[0].0, a, d.object, true);
            precedes_is_asymmetric(b[0].0, d.object);
        }
    } else {
        precedes_is_total(a[0].0, b[0].0);
        let rest = paired_up(x, y, a.skip(1), b.skip(1));
        cons_holds(between(x, y, a[0], b[0]), rest, d);
        rest_in_order(a, true);
        rest_in_order(b, true);
        if rest.contains(d) {
            sole_pairs(x, y, a.skip(1), b.skip(1), d);
            names_of_rest(a, d.object);
            names_of_rest(b, d.object);
            pairs_are_in_order(x, y, a.skip(1), b.skip(1), true);
            let k = choose|k: int| 0 <= k < rest.len() && rest[k] == d;
            assert(names(a.skip(1), rest[k].object) || names(b.skip(1), rest[k].object));
            if names(a.skip(1), d.object) {
                first_goes_first(a, d.object, true);
            } else {
                first_goes_first(b, d.object, true);
            }
            precedes_is_asymmetric(a[0].0, d.object);
        }
    }
}

/// Where each of two schemas has at most one object of each name, the list of their
/// divergences is strictly ascending by name, a name is listed exactly where its
/// definitions differ, and each entry holds the definition that either side has under
/// that name.
pub proof fn sole_objects_are_compared_by_name(ours: Seq<RowModel>, theirs: Seq<RowModel>)
    requires
        one_of_each_name(objects(ours)),
        one_of_each_name(objects(theirs)),
    ensures
        ({
            let x = objects(ours);
            let y = objects(theirs);
            let list = divergences(x, y);
            &&& forall|i: int, j: int|
                0 <= i < j < list.len() ==> precedes(
                    (#[trigger] list[i]).object,
                    (#[trigger] list[j]).object,
                )
            &&& forall|i: int|
                0 <= i < list.len() ==> {
                    &&& (#[trigger] list[i]).ours == definition_of(x, list[i].object)
                    &&& list[i].theirs == definition_of(y, list[i].object)
                    &&& list[i].ours != list[i].theirs
                }
            &&& forall|name: Seq<char>|
                #![trigger definition_of(x, name)]
                #![trigger definition_of(y, name)]
                definition_of(x, name) != definition_of(y, name) ==> exists|i: int|
                    0 <= i < list.len() && (#[trigger] list[i]).object == name
        }),
{
    let x = objects(ours);
    let y = objects(theirs);
    let list = divergences(x, y);
    let keys = changed_keys(x, y);
    let a = lone_keys(x, y);
    let b = lone_keys(y, x);
    let changes = changes_at(x, y, keys);
    let pairs = paired_up(x, y, a, b);
    divergences_are_listed(ours, theirs);
    sole_keys_are_in_strict_order(x, keys);
    sole_keys_are_in_strict_order(x, a);
    sole_keys_are_in_strict_order(y, b);
    pairs_are_in_order(x, y, a, b, true);
    assert(forall|i: int| 0 <= i < changes.len() ==> (#[trigger] changes[i]).object == keys[i].0);
    assert forall|i: int, j: int| 0 <= i < changes.len() && 0 <= j < pairs.len() implies (
    #[trigger] changes[i]).object != (#[trigger] pairs[j]).object by {
        let name = pairs[j].object;
        assert(keys.contains(keys[i]));
        if keys[i].0 == name {
            if names(a, name) {
                let k = choose|k: int| 0 <= k < a.len() && (#[trigger] a[k]).0 == name;
                assert(a.contains(a[k]));
                assert(a[k] == keys[i]);
            } else {
                let k = choose|k: int| 0 <= k < b.len() && (#[trigger] b[k]).0 == name;
                assert(b.contains(b[k]));
                assert(b[k] == keys[i]);
            }
        }
    }
    merged_is_in_order(changes, pairs, true);
    assert forall|i: int, j: int| 0 <= i < j < list.len() implies precedes(
        (#[trigger] list[i]).object,
        (#[trigger] list[j]).object,
    ) by {
        assert(goes_before(list[i].object, list[j].object, true));
    }
    assert forall|i: int| 0 <= i < list.len() implies {
        &&& (#[trigger] list[i]).ours == definition_of(x, list[i].object)
        &&& list[i].theirs == definition_of(y, list[i].object)
        &&& list[i].ours != list[i].theirs
    } by {
        sole_entry(ours, theirs, i);
    }
    assert forall|name: Seq<char>|
        #![trigger definition_of(x, name)]
        #![trigger definition_of(y, name)]
        definition_of(x, name) != definition_of(y, name) implies exists|i: int|
        0 <= i < list.len() && (#[trigger] list[i]).object == name by {
        sole_name(ours, theirs, name);
    }
}

proof fn sole_entry(ours: Seq<RowModel>, theirs: Seq<RowModel>, i: int)
    requires
        one_of_each_name(objects(ours)),
        one_of_each_name(objects(theirs)),
        0 <= i < divergences(objects(ours), objects(theirs)).len(),
    ensures
        ({
            let d = divergences(objects(ours), objects(theirs))[i];
            &&& d.ours == definition_of(objects(ours), d.object)
            &&& d.theirs == definition_of(objects(theirs), d.object)
            &&& d.ours != d.theirs
        }),
{
    let x = objects(ours);
    let y = objects(theirs);
    let d = divergences(x, y)[i];
    let keys = changed_keys(x, y);
    let a = lone_keys(x, y);
    let b = lone_keys(y, x);
    divergences_are_listed(ours, theirs);
    listed_divergences_are_real(ours, theirs, i);
    merged_holds_both(changes_at(x, y, keys), paired_up(x, y, a, b), d);
    assert(divergences(x, y).contains(d));
    if let Some(sql) = d.ours {
        let kind = choose|kind: Seq<char>| #[trigger]
            x.contains_key((d.object, kind)) && x[(d.object, kind)] == sql;
        definition_of_object(x, (d.object, kind));
    }
    if let Some(sql) = d.theirs {
        let kind = choose|kind: Seq<char>| #[trigger]
            y.contains_key((d.object, kind)) && y[(d.object, kind)] == sql;
        definition_of_object(y, (d.object, kind));
    }
    if d.ours is None || d.theirs is None {
        assert forall|k: int| 0 <= k < keys.len() implies changes_at(x, y, keys)[k] != d by {}
        assert(paired_up(x, y, a, b).contains(d));
        sole_keys_are_in_strict_order(x, a);
        sole_keys_are_in_strict_order(y, b);
        sole_pairs(x, y, a, b, d);
        if d.ours is None && exists|kind: Seq<char>| x.contains_key((d.object, kind)) {
            // Ours has an object of that name, which is then one that theirs does not have.
            let kind = choose|kind: Seq<char>| x.contains_key((d.object, kind));
            let key = (d.object, kind);
            pairs_are_of_their_objects(x, y, a, b, d);
            let l = choose|l: int| 0 <= l < b.len() && d == only_theirs(y, #[trigger] b[l]);
            assert(b.contains(b[l]));
            assert(!y.contains_key(key));
            assert(a.contains(key));
            let k = choose|k: int| 0 <= k < a.len() && a[k] == key;
            assert(names(a, d.object));
        }
        if d.theirs is None && exists|kind: Seq<char>| y.contains_key((d.object, kind)) {
            let kind = choose|kind: Seq<char>| y.contains_key((d.object, kind));
            let key = (d.object, kind);
            pairs_are_of_their_objects(x, y, a, b, d);
            let l = choose|l: int| 0 <= l < a.len() && d == only_ours(x, #[trigger] a[l]);
            assert(a.contains(a[l]));
            assert(!x.contains_key(key));
            assert(b.contains(key));
            let k = choose|k: int| 0 <= k < b.len() && b[k] == key;
            assert(names(b, d.object));
        }
    }
}

proof fn sole_name(ours: Seq<RowModel>, theirs: Seq<RowModel>, name: Seq<char>)
    requires
        one_of_each_name(objects(ours)),
        one_of_each_name(objects(theirs)),
        definition_of(objects(ours), name) != definition_of(objects(theirs), name),
    ensures
        exists|i: int|
            0 <= i < divergences(objects(ours), objects(theirs)).len() && (
            #[trigger] divergences(objects(ours), objects(theirs))[i]).object == name,
{
    let x = objects(ours);
    let y = objects(theirs);
    if exists|kind: Seq<char>| x.contains_key((name, kind)) {
        let kind = choose|kind: Seq<char>| x.contains_key((name, kind));
        sole_object(ours, theirs, (name, kind));
    } else {
        let kind = choose|kind: Seq<char>| y.contains_key((name, kind));
        sole_object(theirs, ours, (name, kind));
        divergences_are_symmetric(ours, theirs);
        let other = divergences(y, x);
        let i = choose|i: int| 0 <= i < other.len() && (#[trigger] other[i]).object == name;
        assert(divergences(x, y)[i].object == name);
    }
}

proof fn sole_object(ours: Seq<RowModel>, theirs: Seq<RowModel>, key: ObjectKey)
    requires
        one_of_each_name(objects(ours)),
        one_of_each_name(objects(theirs)),
        objects(ours).contains_key(key),
        definition_of(objects(ours), key.0) != definition_of(objects(theirs), key.0),
    ensures
        exists|i: int|
            0 <= i < divergences(objects(ours), objects(theirs)).len() && (
            #[trigger] divergences(objects(ours), objects(theirs))[i]).object == key.0,
{
    let x = objects(ours);
    let y = objects(theirs);
    definition_of_object(x, key);
    if y.contains_key(key) {
        definition_of_object(y, key);
        let i = every_change_is_listed(ours, theirs, key);
    } else {
        if defines(y, key.0, x[key]) {
            let kind = choose|kind: Seq<char>| #[trigger]
                y.contains_key((key.0, kind)) && y[(key.0, kind)] == x[key];
            definition_of_object(y, (key.0, kind));
        }
        every_lone_object_is_listed(ours, theirs, key);
        let d = choose|d: DivergenceModel| #[trigger]
            divergences(x, y).contains(d) && d.object == key.0 && d.ours == Some(x[key]);
        let i = choose|i: int| 0 <= i < divergences(x, y).len() && divergences(x, y)[i] == d;
        assert(divergences(x, y)[i].object == key.0);
    }
}

/// The names in a list that is in their order are strictly ascending, and they are
/// exactly the names in the list.
pub proof fn diverging_names_are_ascending(list: Seq<DivergenceModel>)
    requires
        forall|i: int, j: int|
            0 <= i < j < list.len() ==> !precedes(
                (#[trigger] list[j]).object,
                (#[trigger] list[i]).object,
            ),
    ensures
        forall|i: int, j: int|
            0 <= i < j < diverging_names(list).len() ==> precedes(
                #[trigger] diverging_names(list)[i],
                #[trigger] diverging_names(list)[j],
            ),
        forall|name: Seq<char>| #[trigger]
            diverging_names(list).contains(name) <==> exists|i: int|
                0 <= i < list.len() && (#[trigger] list[i]).object == name,
        list.len() > 0 ==> diverging_names(list).len() > 0 && diverging_names(list).last()
            == list.last().object,
    decreases list.len(),
{
    if list.len() > 0 {
        let before = list.drop_last();
        let found = diverging_names(before);
        let all = diverging_names(list);
        let last = list.last().object;
        diverging_names_are_ascending(before);
        if before.len() > 0 {
            let m = before.len() - 1;
            assert(!precedes(list[m + 1].object, list[m].object));
            assert(before.last() == list[m]);
            precedes_is_total(found.last(), last);
        }
        assert forall|i: int, j: int| 0 <= i < j < all.len() implies precedes(
            #[trigger] all[i],
            #[trigger] all[j],
        ) by {
            if j < found.len() {
                assert(all[i] == found[i] && all[j] == found[j]);
            } else if i < found.len() - 1 {
                assert(precedes(found[i], found[found.len() - 1]));
                precedes_is_transitive(found[i], found.last(), last);
            }
        }
        assert forall|name: Seq<char>| #[trigger] all.contains(name) <==> exists|i: int|
            0 <= i < list.len() && (#[trigger] list[i]).object == name by {
            if all.contains(name) {
                let i = choose|i: int| 0 <= i < all.len() && all[i] == name;
                if i < found.len() {
                    assert(found[i] == name);
                    assert(found.contains(name));
                    let k = choose|k: int|
                        0 <= k < before.len() && (#[trigger] before[k]).object == name;
                    assert(list[k].object == name);
                } else {
                    assert(list[list.len() - 1].object == name);
                }
            }
            if exists|i: int| 0 <= i < list.len() && (#[trigger] list[i]).object == name {
                let i = choose|i: int| 0 <= i < list.len() && (#[trigger] list[i]).object == name;
                if i < before.len() {
                    assert(before[i].object == name);
                    assert(found.contains(name));
                    let k = choose|k: int| 0 <= k < found.len() && found[k] == name;
                    assert(all[k] == name);
                } else {
                    assert(all[all.len() - 1] == name);
                }
            }
        }
    }
}

/// The row is the last of its name and type.
pub open spec fn is_last_of_its_object(rows: Seq<SchemaRow>, i: int) -> bool {
    &&& 0 <= i < rows.len()
    &&& forall|j: int|
        i < j < rows.len() ==> !((#[trigger] rows[j]).name@ == rows[i].name@ && rows[j].kind@
            == rows[i].kind@)
}

/// Every row of a schema counts, whatever its type: the schema has an object of its name
/// and type, and the last row of them defines it. And every object comes from a row.
pub proof fn objects_are_those_of_the_rows(rows: Seq<SchemaRow>)
    ensures
        forall|i: int|
            0 <= i < rows.len() ==> objects(row_models(rows)).contains_key(
                ((#[trigger] rows[i]).name@, rows[i].kind@),
            ),
        forall|i: int|
            is_last_of_its_object(rows, i) ==> objects(row_models(rows))[(
                (#[trigger] rows[i]).name@,
                rows[i].kind@,
            )] == normalized(rows[i].sql@),
        forall|key: ObjectKey| #[trigger]
            objects(row_models(rows)).contains_key(key) ==> exists|i: int|
                is_last_of_its_object(rows, i) && key == ((#[trigger] rows[i]).name@, rows[i].kind@),
    decreases rows.len(),
{
    if rows.len() > 0 {
        let before = rows.drop_last();
        let last = rows.len() - 1;
        let schema = objects(row_models(rows));
        let earlier = objects(row_models(before));
        let top = (rows[last].name@, rows[last].kind@);
        objects_are_those_of_the_rows(before);
        assert(row_models(rows).drop_last() =~= row_models(before));
        assert(row_models(rows).last() == (top, rows[last].sql@));
        assert(schema == earlier.insert(top, normalized(rows[last].sql@)));
        assert forall|i: int| 0 <= i < rows.len() implies schema.contains_key(
            ((#[trigger] rows[i]).name@, rows[i].kind@),
        ) by {
            if i < last {
                assert(before[i] == rows[i]);
            }
        }
        assert forall|i: int| is_last_of_its_object(rows, i) implies schema[(
            (#[trigger] rows[i]).name@,
            rows[i].kind@,
        )] == normalized(rows[i].sql@) by {
            if i < last {
                assert(before[i] == rows[i]);
                assert(!(rows[last].name@ == rows[i].name@ && rows[last].kind@ == rows[i].kind@));
                assert forall|j: int| i < j < before.len() implies !((
                #[trigger] before[j]).name@ == before[i].name@ && before[j].kind@
                    == before[i].kind@) by {
                    assert(before[j] == rows[j]);
                }
                assert(is_last_of_its_object(before, i));
                assert(earlier[(before[i].name@, before[i].kind@)] == normalized(before[i].sql@));
            }
        }
        assert forall|key: ObjectKey| #[trigger] schema.contains_key(key) implies exists|i: int|
            is_last_of_its_object(rows, i) && key == ((#[trigger] rows[i]).name@, rows[i].kind@) by {
            if key == top {
                assert(is_last_of_its_object(rows, last));
            } else {
                assert(earlier.contains_key(key));
                let i = choose|i: int|
                    is_last_of_its_object(before, i) && key == (
                        (#[trigger] before[i]).name@,
                        before[i].kind@,
                    );
                assert(before[i] == rows[i]);
                assert forall|j: int| i < j < rows.len() implies !((#[trigger] rows[j]).name@
                    == rows[i].name@ && rows[j].kind@ == rows[i].kind@) by {
                    if j < last {
                        assert(before[j] == rows[j]);
                    }
                }
                assert(is_last_of_its_object(rows, i));
            }
        }
    } else {
        assert(row_models(rows) =~= Seq::empty());
    }
}

/// The list holds the divergence of an object of that name with these definitions.
pub open spec fn lists(
    ours: Seq<SchemaRow>,
    theirs: Seq<SchemaRow>,
    d: DivergenceModel,
) -> bool {
    divergences(objects(row_models(ours)), objects(row_models(theirs))).contains(d)
}

/// A row of ours and one of theirs that stand for the same object diverge wherever their
/// normal forms differ, whatever the type of the object: the divergence is listed, under
/// the name and with both normal forms.
pub proof fn changed_rows_are_listed(
    ours: Seq<SchemaRow>,
    theirs: Seq<SchemaRow>,
    i: int,
    j: int,
)
    requires
        is_last_of_its_object(ours, i),
        is_last_of_its_object(theirs, j),
        ours[i].name@ == theirs[j].name@,
        ours[i].kind@ == theirs[j].kind@,
        normalized(ours[i].sql@) != normalized(theirs[j].sql@),
    ensures
        lists(
            ours,
            theirs,
            DivergenceModel {
                object: ours[i].name@,
                ours: Some(normalized(ours[i].sql@)),
                theirs: Some(normalized(theirs[j].sql@)),
            },
        ),
        !same_schema(objects(row_models(ours)), objects(row_models(theirs))),
{
    let key = (ours[i].name@, ours[i].kind@);
    objects_are_those_of_the_rows(ours);
    objects_are_those_of_the_rows(theirs);
    assert(key == (theirs[j].name@, theirs[j].kind@));
    let k = every_change_is_listed(row_models(ours), row_models(theirs), key);
    let list = divergences(objects(row_models(ours)), objects(row_models(theirs)));
    assert(list.contains(list[k]));
}

/// A row of ours diverges where theirs has no row of its name with the same normal form,
/// and a row of theirs where ours has none: a divergence is listed under its name that
/// shows its normal form on its side.
pub proof fn added_rows_are_listed(ours: Seq<SchemaRow>, theirs: Seq<SchemaRow>, i: int)
    requires
        is_last_of_its_object(ours, i),
        forall|j: int|
            0 <= j < theirs.len() ==> !((#[trigger] theirs[j]).name@ == ours[i].name@ && normalized(
                theirs[j].sql@,
            ) == normalized(ours[i].sql@)),
    ensures
        exists|d: DivergenceModel| #[trigger]
            lists(ours, theirs, d) && d.object == ours[i].name@ && d.ours == Some(
                normalized(ours[i].sql@),
            ),
        exists|d: DivergenceModel| #[trigger]
            lists(theirs, ours, d) && d.object == ours[i].name@ && d.theirs == Some(
                normalized(ours[i].sql@),
            ),
        !same_schema(objects(row_models(ours)), objects(row_models(theirs))),
        !same_schema(objects(row_models(theirs)), objects(row_models(ours))),
{
    let a = row_models(ours);
    let b = row_models(theirs);
    let x = objects(a);
    let y = objects(b);
    let key = (ours[i].name@, ours[i].kind@);
    objects_are_those_of_the_rows(ours);
    objects_are_those_of_the_rows(theirs);
    if defines(y, key.0, x[key]) {
        let kind = choose|kind: Seq<char>| #[trigger]
            y.contains_key((key.0, kind)) && y[(key.0, kind)] == x[key];
        let j = choose|j: int|
            is_last_of_its_object(theirs, j) && (key.0, kind) == (
                (#[trigger] theirs[j]).name@,
                theirs[j].kind@,
            );
        assert(y[(theirs[j].name@, theirs[j].kind@)] == normalized(theirs[j].sql@));
        assert(false);
    }
    if y.contains_key(key) {
        let k = every_change_is_listed(a, b, key);
        assert(divergences(x, y).contains(divergences(x, y)[k]));
        assert(lists(ours, theirs, divergences(x, y)[k]));
        assert(y.contains_key((key.0, key.1)));
    } else {
        every_lone_object_is_listed(a, b, key);
        let d = choose|d: DivergenceModel| #[trigger]
            divergences(x, y).contains(d) && d.object == key.0 && d.ours == Some(x[key]);
        assert(lists(ours, theirs, d));
    }
    let d = choose|d: DivergenceModel| #[trigger]
        lists(ours, theirs, d) && d.object == ours[i].name@ && d.ours == Some(
            normalized(ours[i].sql@),
        );
    divergences_are_symmetric(a, b);
    let k = choose|k: int| 0 <= k < divergences(x, y).len() && divergences(x, y)[k] == d;
    assert(divergences(y, x)[k] == mirrored(d));
    assert(lists(theirs, ours, mirrored(d)));
}

/// The other side has a row that stands for the same object with the same normal form.
pub open spec fn has_counterpart(rows: Seq<SchemaRow>, i: int, others: Seq<SchemaRow>) -> bool {
    exists|j: int| #[trigger]
        is_last_of_its_object(others, j) && others[j].name@ == rows[i].name@ && others[j].kind@
            == rows[i].kind@ && normalized(others[j].sql@) == normalized(rows[i].sql@)
}

proof fn counterparts_define_the_same(
    rows: Seq<SchemaRow>,
    others: Seq<SchemaRow>,
    key: ObjectKey,
)
    requires
        forall|i: int| #[trigger]
            is_last_of_its_object(rows, i) ==> has_counterpart(rows, i, others),
        objects(row_models(rows)).contains_key(key),
    ensures
        objects(row_models(others)).contains_key(key),
        objects(row_models(others))[key] == objects(row_models(rows))[key],
{
    objects_are_those_of_the_rows(rows);
    objects_are_those_of_the_rows(others);
    let i = choose|i: int|
        is_last_of_its_object(rows, i) && key == ((#[trigger] rows[i]).name@, rows[i].kind@);
    assert(has_counterpart(rows, i, others));
    let j = choose|j: int| #[trigger]
        is_last_of_its_object(others, j) && others[j].name@ == rows[i].name@ && others[j].kind@
            == rows[i].kind@ && normalized(others[j].sql@) == normalized(rows[i].sql@);
    assert(key == (others[j].name@, others[j].kind@));
    assert(objects(row_models(rows))[(rows[i].name@, rows[i].kind@)] == normalized(rows[i].sql@));
    assert(objects(row_models(others))[(others[j].name@, others[j].kind@)] == normalized(
        others[j].sql@,
    ));
}

/// Schemas whose rows stand for the same objects with the same normal forms do not
/// diverge.
pub proof fn same_rows_do_not_diverge(ours: Seq<SchemaRow>, theirs: Seq<SchemaRow>)
    requires
        forall|i: int| #[trigger]
            is_last_of_its_object(ours, i) ==> has_counterpart(ours, i, theirs),
        forall|j: int| #[trigger]
            is_last_of_its_object(theirs, j) ==> has_counterpart(theirs, j, ours),
    ensures
        same_schema(objects(row_models(ours)), objects(row_models(theirs))),
        divergences(objects(row_models(ours)), objects(row_models(theirs))).len() == 0,
{
    let x = objects(row_models(ours));
    let y = objects(row_models(theirs));
    assert forall|key: ObjectKey| #[trigger] x.contains_key(key) == y.contains_key(key) by {
        if x.contains_key(key) {
            counterparts_define_the_same(ours, theirs, key);
        }
        if y.contains_key(key) {
            counterparts_define_the_same(theirs, ours, key);
        }
    }
    assert forall|key: ObjectKey| x.contains_key(key) implies #[trigger] x[key] == y[key] by {
        counterparts_define_the_same(ours, theirs, key);
    }
    assert(x =~= y);
    no_divergence_means_same_definitions(row_models(ours), row_models(theirs));
}

/// Every listed divergence is one of the rows: a side that it shows is the normal form of
/// a row of its name on that side.
pub proof fn listed_divergences_come_from_rows(
    ours: Seq<SchemaRow>,
    theirs: Seq<SchemaRow>,
    d: DivergenceModel,
)
    requires
        lists(ours, theirs, d),
    ensures
        d.ours != d.theirs,
        d.ours matches Some(sql) ==> exists|i: int|
            is_last_of_its_object(ours, i) && (#[trigger] ours[i]).name@ == d.object && normalized(
                ours[i].sql@,
            ) == sql,
        d.theirs matches Some(sql) ==> exists|i: int|
            is_last_of_its_object(theirs, i) && (#[trigger] theirs[i]).name@ == d.object
                && normalized(theirs[i].sql@) == sql,
{
    let a = row_models(ours);
    let b = row_models(theirs);
    let list = divergences(objects(a), objects(b));
    let k = choose|k: int| 0 <= k < list.len() && list[k] == d;
    listed_divergences_are_real(a, b, k);
    if let Some(sql) = d.ours {
        definition_comes_from_a_row(ours, d.object, sql);
    }
    if let Some(sql) = d.theirs {
        definition_comes_from_a_row(theirs, d.object, sql);
    }
}

proof fn definition_comes_from_a_row(rows: Seq<SchemaRow>, name: Seq<char>, sql: Seq<char>)
    requires
        defines(objects(row_models(rows)), name, sql),
    ensures
        exists|i: int|
            is_last_of_its_object(rows, i) && (#[trigger] rows[i]).name@ == name && normalized(
                rows[i].sql@,
            ) == sql,
{
    let schema = objects(row_models(rows));
    objects_are_those_of_the_rows(rows);
    let kind = choose|kind: Seq<char>| #[trigger]
        schema.contains_key((name, kind)) && schema[(name, kind)] == sql;
    let i = choose|i: int|
        is_last_of_its_object(rows, i) && (name, kind) == (
            (#[trigger] rows[i]).name@,
            rows[i].kind@,
        );
    assert(schema[(rows[i].name@, rows[i].kind@)] == normalized(rows[i].sql@));
}

/// Two lists of divergences are merged without loss: a divergence stands in the merged
/// list as often as in both together.
pub proof fn merging_loses_no_divergence(x: Seq<DivergenceModel>, y: Seq<DivergenceModel>)
    ensures
        in_name_order(x, y).len() == x.len() + y.len(),
        in_name_order(x, y).to_multiset() =~= x.to_multiset().add(y.to_multiset()),
    decreases x.len() + y.len(),
{
    broadcast use vstd::seq_lib::group_to_multiset_ensures;

    if x.len() == 0 {
        assert(x.to_multiset() =~= Multiset::empty());
    } else if y.len() == 0 {
        assert(y.to_multiset() =~= Multiset::empty());
    } else if precedes(y[0].object, x[0].object) {
        merging_loses_no_divergence(x, y.skip(1));
        multiset_of_first(y[0], in_name_order(x, y.skip(1)));
        multiset_of_first(y[0], y.skip(1));
        assert(seq![y[0]] + y.skip(1) =~= y);
    } else {
        merging_loses_no_divergence(x.skip(1), y);
        multiset_of_first(x[0], in_name_order(x.skip(1), y));
        multiset_of_first(x[0], x.skip(1));
        assert(seq![x[0]] + x.skip(1) =~= x);
    }
}

proof fn multiset_of_first(d: DivergenceModel, rest: Seq<DivergenceModel>)
    ensures
        (seq![d] + rest).to_multiset() =~= rest.to_multiset().insert(d),
{
    broadcast use vstd::seq_lib::group_to_multiset_ensures;

    vstd::seq_lib::lemma_multiset_commutative(seq![d], rest);
    assert(seq![d] =~= Seq::<DivergenceModel>::empty().push(d));
    assert(Seq::<DivergenceModel>::empty().to_multiset() =~= Multiset::empty());
}

/// There are no more pairs than objects without a counterpart of their own type, and just
/// as many where only one side has such objects.
pub proof fn pairs_are_no_more_than_their_objects(
    x: Definitions,
    y: Definitions,
    a: Seq<ObjectKey>,
    b: Seq<ObjectKey>,
)
    ensures
        paired_up(x, y, a, b).len() <= a.len() + b.len(),
        b.len() == 0 ==> paired_up(x, y, a, b).len() == a.len(),
        a.len() == 0 ==> paired_up(x, y, a, b).len() == b.len(),
    decreases a.len() + b.len(),
{
    if a.len() == 0 && b.len() == 0 {
    } else if b.len() == 0 || (a.len() > 0 && precedes(a[0].0, b[0].0)) {
        pairs_are_no_more_than_their_objects(x, y, a.skip(1), b);
    } else if a.len() == 0 || precedes(b[0].0, a[0].0) {
        pairs_are_no_more_than_their_objects(x, y, a, b.skip(1));
    } else {
        pairs_are_no_more_than_their_objects(x, y, a.skip(1), b.skip(1));
    }
}

/// Objects are ordered by their names, and those of one name by their types.
pub proof fn objects_are_ordered_by_name_and_type(
    name: Seq<char>,
    kind: Seq<char>,
    other_name: Seq<char>,
    other_kind: Seq<char>,
)
    ensures
        name != other_name ==> (key_precedes((name, kind), (other_name, other_kind)) <==> precedes(
            name,
            other_name,
        )),
        key_precedes((name, kind), (name, other_kind)) <==> precedes(kind, other_kind),
{
    if precedes(name, name) {
        precedes_is_asymmetric(name, name);
    }
}

/// Among divergences of one name, those of objects that both sides have come before those
/// of the others.
pub proof fn changes_come_before_pairs(x: Seq<DivergenceModel>, y: Seq<DivergenceModel>)
    requires
        x.len() > 0,
        y.len() > 0,
        x[0].object == y[0].object,
    ensures
        in_name_order(x, y).len() > 0,
        in_name_order(x, y)[0] == x[0],
{
    if precedes(y[0].object, x[0].object) {
        precedes_is_asymmetric(y[0].object, x[0].object);
    }
}

/// Of the objects without a counterpart of their own type, the first of ours and the first
/// of theirs are a pair where they have one name: they are listed as one divergence with
/// both definitions, unless these are the same. Where their names differ, the one whose
/// name comes first is listed alone.
pub proof fn first_objects_of_one_name_are_a_pair(
    x: Definitions,
    y: Definitions,
    a: Seq<ObjectKey>,
    b: Seq<ObjectKey>,
)
    requires
        a.len() > 0,
        b.len() > 0,
    ensures
        a[0].0 == b[0].0 && x[a[0]] == y[b[0]] ==> paired_up(x, y, a, b) == paired_up(
            x,
            y,
            a.skip(1),
            b.skip(1),
        ),
        a[0].0 == b[0].0 && x[a[0]] != y[b[0]] ==> paired_up(x, y, a, b) == seq![
            DivergenceModel { object: a[0].0, ours: Some(x[a[0]]), theirs: Some(y[b[0]]) },
        ] + paired_up(x, y, a.skip(1), b.skip(1)),
        precedes(a[0].0, b[0].0) ==> paired_up(x, y, a, b) == seq![
            DivergenceModel { object: a[0].0, ours: Some(x[a[0]]), theirs: None },
        ] + paired_up(x, y, a.skip(1), b),
        precedes(b[0].0, a[0].0) ==> paired_up(x, y, a, b) == seq![
            DivergenceModel { object: b[0].0, ours: None, theirs: Some(y[b[0]]) },
        ] + paired_up(x, y, a, b.skip(1)),
{
    if precedes(a[0].0, b[0].0) {
        precedes_is_asymmetric(a[0].0, b[0].0);
    }
    if precedes(b[0].0, a[0].0) {
        precedes_is_asymmetric(b[0].0, a[0].0);
    }
}

} // verus!
