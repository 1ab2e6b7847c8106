//! What holds of the commands whatever the input: proved over the
//! contracts' own spec functions.
use vstd::prelude::*;

use crate::dbconnector::{EntityView, ColumnView, same_entity, has_key};
use crate::utils::{stripped};
use crate::workflow::{
    contains_same, contains_key, absent_from_both, in_neither, named_by, not_named, without_named,
    last_entities,
};
use crate::files::CommitView;
use crate::changes::{
    merge_missing, committed_tables, still_exists, stage_additions, additions_over, additions_for,
    changed_copies, staged_after, refreshed_all, refreshed, removals, removal_of, marked_removed,
    staged_after_removal, after_commit,
};

verus! {

broadcast use vstd::seq_lib::group_seq_properties;

/// Merging keeps `acc` as a prefix.
pub proof fn lemma_merge_prefix(acc: Seq<EntityView>, items: Seq<EntityView>)
    ensures
        merge_missing(acc, items).len() >= acc.len(),
        forall|i: int| 0 <= i < acc.len() ==> #[trigger] merge_missing(acc, items)[i] == acc[i],
    decreases items.len(),
{
    if items.len() > 0 {
        let x = items[0];
        let next = if contains_same(acc, x) {
            acc
        } else {
            acc.push(x)
        };
        lemma_merge_prefix(next, items.drop_first());
        assert forall|i: int| 0 <= i < acc.len() implies #[trigger] merge_missing(acc, items)[i]
            == acc[i] by {
            assert(next[i] == acc[i]);
        }
    }
}

/// Merging loses no item: an equal table stands for each.
pub proof fn lemma_merge_contains(acc: Seq<EntityView>, items: Seq<EntityView>, j: int)
    requires
        0 <= j < items.len(),
    ensures
        contains_same(merge_missing(acc, items), items[j]),
    decreases items.len(),
{
    let x = items[0];
    let next = if contains_same(acc, x) {
        acc
    } else {
        acc.push(x)
    };
    let m = merge_missing(acc, items);
    assert(m == merge_missing(next, items.drop_first()));
    lemma_merge_prefix(next, items.drop_first());
    if j == 0 {
        if contains_same(acc, x) {
            let i = choose|i: int| 0 <= i < acc.len() && same_entity(acc[i], x);
            assert(m[i] == acc[i]);
        } else {
            assert(m[acc.len() as int] == next[acc.len() as int]);
            assert(same_entity(m[acc.len() as int], x));
        }
    } else {
        lemma_merge_contains(next, items.drop_first(), j - 1);
        assert(items.drop_first()[j - 1] == items[j]);
    }
}

/// Every element of a merge comes from `acc` or from `items`.
pub proof fn lemma_merge_origin(acc: Seq<EntityView>, items: Seq<EntityView>, t: int)
    requires
        0 <= t < merge_missing(acc, items).len(),
    ensures
        acc.contains(merge_missing(acc, items)[t]) || items.contains(merge_missing(acc, items)[t]),
    decreases items.len(),
{
    if items.len() > 0 {
        let x = items[0];
        let next = if contains_same(acc, x) {
            acc
        } else {
            acc.push(x)
        };
        lemma_merge_origin(next, items.drop_first(), t);
        let e = merge_missing(acc, items)[t];
        if next.contains(e) {
            let i = choose|i: int| 0 <= i < next.len() && next[i] == e;
            if i < acc.len() {
                assert(acc[i] == e);
            } else {
                assert(items[0] == e);
            }
        } else {
            let i = choose|i: int| 0 <= i < items.drop_first().len() && items.drop_first()[i] == e;
            assert(items[i + 1] == e);
        }
    }
}

/// `status`: an untracked table is in the database and is neither staged
/// nor tracked; a removed table is tracked, gone from the database and not
/// staged; and every database table that is neither staged nor tracked is
/// reported untracked.
pub proof fn law_status_partition(
    entities: Seq<EntityView>,
    staged: Seq<EntityView>,
    committed: Seq<EntityView>,
)
    ensures
        forall|i: int|
            0 <= i < absent_from_both(entities, staged, committed).len() ==> {
                let e = #[trigger] absent_from_both(entities, staged, committed)[i];
                &&& entities.contains(e)
                &&& !contains_same(staged, e)
                &&& !contains_same(committed, e)
            },
        forall|i: int|
            0 <= i < absent_from_both(committed, entities, staged).len() ==> {
                let e = #[trigger] absent_from_both(committed, entities, staged)[i];
                &&& committed.contains(e)
                &&& !contains_same(entities, e)
                &&& !contains_same(staged, e)
            },
        forall|j: int|
            0 <= j < entities.len() && !contains_same(staged, entities[j]) && !contains_same(
                committed,
                entities[j],
            ) ==> absent_from_both(entities, staged, committed).contains(#[trigger] entities[j]),
{
    let p = in_neither(staged, committed);
    let q = in_neither(entities, staged);
    assert forall|i: int| 0 <= i < absent_from_both(entities, staged, committed).len() implies {
        let e = #[trigger] absent_from_both(entities, staged, committed)[i];
        &&& entities.contains(e)
        &&& !contains_same(staged, e)
        &&& !contains_same(committed, e)
    } by {
        entities.lemma_filter_pred(p, i);
        let e = entities.filter(p)[i];
        assert(entities.filter(p).contains(e));
        entities.lemma_filter_contains_rev(p, e);
    }
    assert forall|i: int| 0 <= i < absent_from_both(committed, entities, staged).len() implies {
        let e = #[trigger] absent_from_both(committed, entities, staged)[i];
        &&& committed.contains(e)
        &&& !contains_same(entities, e)
        &&& !contains_same(staged, e)
    } by {
        committed.lemma_filter_pred(q, i);
        let e = committed.filter(q)[i];
        assert(committed.filter(q).contains(e));
        committed.lemma_filter_contains_rev(q, e);
    }
    assert forall|j: int|
        0 <= j < entities.len() && !contains_same(staged, entities[j]) && !contains_same(
            committed,
            entities[j],
        ) implies absent_from_both(entities, staged, committed).contains(#[trigger] entities[j]) by {
        entities.lemma_filter_contains(p, j);
    }
}

/// `unstage`: no table that a key names stays staged, every other staged
/// table stays, and unstaging the same keys again changes nothing.
pub proof fn law_unstage(staged: Seq<EntityView>, keys: Seq<EntityView>)
    ensures
        forall|i: int|
            0 <= i < without_named(staged, keys).len() ==> !named_by(
                keys,
                #[trigger] without_named(staged, keys)[i],
            ),
        forall|j: int|
            0 <= j < staged.len() && !named_by(keys, staged[j]) ==> without_named(
                staged,
                keys,
            ).contains(#[trigger] staged[j]),
        without_named(without_named(staged, keys), keys) == without_named(staged, keys),
{
    let p = not_named(keys);
    assert forall|i: int| 0 <= i < without_named(staged, keys).len() implies !named_by(
        keys,
        #[trigger] without_named(staged, keys)[i],
    ) by {
        staged.lemma_filter_pred(p, i);
    }
    assert forall|j: int| 0 <= j < staged.len() && !named_by(keys, staged[j]) implies without_named(
        staged,
        keys,
    ).contains(#[trigger] staged[j]) by {
        staged.lemma_filter_contains(p, j);
    }
    lemma_filter_all_kept(staged.filter(p), p);
}

/// Filtering a sequence whose elements all pass gives it back.
proof fn lemma_filter_all_kept(s: Seq<EntityView>, p: spec_fn(EntityView) -> bool)
    requires
        forall|i: int| 0 <= i < s.len() ==> p(#[trigger] s[i]),
    ensures
        s.filter(p) == s,
    decreases s.len(),
{
    reveal_with_fuel(Seq::<_>::filter, 1);
    if s.len() > 0 {
        lemma_filter_all_kept(s.drop_last(), p);
        assert(s.drop_last().push(s.last()) =~= s);
    }
}

/// `commit`: every recorded table exists; every staged table that exists,
/// and every tracked table that exists, is recorded (an equal table stands
/// for it).
pub proof fn law_commit(staged: Seq<EntityView>, last: Seq<EntityView>)
    ensures
        forall|i: int|
            0 <= i < committed_tables(staged, last).len() ==> (#[trigger] committed_tables(
                staged,
                last,
            )[i]).exists,
        forall|j: int|
            0 <= j < staged.len() && staged[j].exists ==> contains_same(
                committed_tables(staged, last),
                #[trigger] staged[j],
            ),
{
    let m = merge_missing(staged, last);
    let p = still_exists();
    assert forall|i: int| 0 <= i < committed_tables(staged, last).len() implies (
    #[trigger] committed_tables(staged, last)[i]).exists by {
        m.lemma_filter_pred(p, i);
    }
    lemma_merge_prefix(staged, last);
    assert forall|j: int| 0 <= j < staged.len() && staged[j].exists implies contains_same(
        committed_tables(staged, last),
        #[trigger] staged[j],
    ) by {
        assert(m[j] == staged[j]);
        m.lemma_filter_contains(p, j);
        let t = choose|t: int| 0 <= t < m.filter(p).len() && m.filter(p)[t] == staged[j];
        assert(same_entity(m.filter(p)[t], staged[j]));
    }
}

/// `commit`: every tracked table (all of which exist) is recorded again
/// (an equal table stands for it) unless the staging area marks an equal
/// table as removed.
pub proof fn law_commit_keeps_tracked(staged: Seq<EntityView>, last: Seq<EntityView>, j: int)
    requires
        0 <= j < last.len(),
        forall|i: int| 0 <= i < last.len() ==> (#[trigger] last[i]).exists,
    ensures
        contains_same(committed_tables(staged, last), last[j]) || exists|i: int|
            0 <= i < staged.len() && !staged[i].exists && same_entity(staged[i], last[j]),
{
    let m = merge_missing(staged, last);
    let p = still_exists();
    lemma_merge_contains(staged, last, j);
    let t = choose|t: int| 0 <= t < m.len() && same_entity(m[t], last[j]);
    lemma_merge_origin(staged, last, t);
    if m[t].exists {
        m.lemma_filter_contains(p, t);
        let u = choose|u: int| 0 <= u < m.filter(p).len() && m.filter(p)[u] == m[t];
        assert(same_entity(m.filter(p)[u], last[j]));
    } else {
        if last.contains(m[t]) {
            let i = choose|i: int| 0 <= i < last.len() && last[i] == m[t];
            assert(last[i].exists);
        }
        let i = choose|i: int| 0 <= i < staged.len() && staged[i] == m[t];
        assert(!staged[i].exists && same_entity(staged[i], last[j]));
    }
}

/// Stripping a line break added to a line gives the line back: always for
/// `\r\n`, and for `\n` when the line does not end in `\r`.
pub proof fn law_strip_line_break(s: Seq<char>)
    ensures
        stripped(s + seq!['\r', '\n']) == s,
        (s.len() == 0 || s.last() != '\r') ==> stripped(s + seq!['\n']) == s,
{
    assert((s + seq!['\r', '\n']).take(s.len() as int) =~= s);
    assert((s + seq!['\n']).take(s.len() as int) =~= s);
}

/// An element of either part is an element of the concatenation.
proof fn lemma_concat_contains(a: Seq<EntityView>, b: Seq<EntityView>, x: EntityView)
    requires
        a.contains(x) || b.contains(x),
    ensures
        (a + b).contains(x),
{
    if a.contains(x) {
        let i = choose|i: int| 0 <= i < a.len() && a[i] == x;
        assert((a + b)[i] == x);
    } else {
        let i = choose|i: int| 0 <= i < b.len() && b[i] == x;
        assert((a + b)[a.len() + i] == x);
    }
}

/// An element of the concatenation is an element of one of the parts.
proof fn lemma_concat_origin(a: Seq<EntityView>, b: Seq<EntityView>, x: EntityView)
    requires
        (a + b).contains(x),
    ensures
        a.contains(x) || b.contains(x),
{
    let i = choose|i: int| 0 <= i < (a + b).len() && (a + b)[i] == x;
    if i < a.len() {
        assert(a[i] == x);
    } else {
        assert(b[i - a.len()] == x);
    }
}

/// A committed table with the name of `e` and other columns yields a copy
/// of `e`.
proof fn lemma_changed_copies_contains(committed: Seq<EntityView>, e: EntityView, c: int)
    requires
        0 <= c < committed.len(),
        has_key(committed[c], e.schema, e.name),
        committed[c].columns != e.columns,
    ensures
        changed_copies(committed, e).contains(e),
    decreases committed.len(),
{
    let rest = committed.drop_last();
    if c == committed.len() - 1 {
        lemma_concat_contains(changed_copies(rest, e), seq![e], e);
    } else {
        lemma_changed_copies_contains(rest, e, c);
        lemma_concat_contains(
            changed_copies(rest, e),
            if has_key(committed.last(), e.schema, e.name) && committed.last().columns != e.columns {
                seq![e]
            } else {
                Seq::empty()
            },
            e,
        );
    }
}

/// Everything that staging one table adds is that table.
proof fn lemma_changed_copies_only(committed: Seq<EntityView>, e: EntityView, x: EntityView)
    requires
        changed_copies(committed, e).contains(x),
    ensures
        x == e,
    decreases committed.len(),
{
    if committed.len() > 0 {
        let rest = committed.drop_last();
        let tail = if has_key(committed.last(), e.schema, e.name) && committed.last().columns
            != e.columns {
            seq![e]
        } else {
            Seq::empty()
        };
        lemma_concat_origin(changed_copies(rest, e), tail, x);
        if changed_copies(rest, e).contains(x) {
            lemma_changed_copies_only(rest, e, x);
        }
    }
}

/// A database table named like `k` whose staging adds something is added.
proof fn lemma_additions_over_contains(
    k: EntityView,
    entities: Seq<EntityView>,
    staged: Seq<EntityView>,
    committed: Seq<EntityView>,
    j: int,
)
    requires
        0 <= j < entities.len(),
        has_key(entities[j], k.schema, k.name),
        additions_for(entities[j], staged, committed).contains(entities[j]),
    ensures
        additions_over(k, entities, staged, committed).contains(entities[j]),
    decreases entities.len(),
{
    let rest = entities.drop_last();
    let last = entities.last();
    let tail = if has_key(last, k.schema, k.name) {
        additions_for(last, staged, committed)
    } else {
        Seq::empty()
    };
    if j == entities.len() - 1 {
        lemma_concat_contains(additions_over(k, rest, staged, committed), tail, entities[j]);
    } else {
        assert(rest[j] == entities[j]);
        lemma_additions_over_contains(k, rest, staged, committed, j);
        lemma_concat_contains(additions_over(k, rest, staged, committed), tail, entities[j]);
    }
}

/// What one key adds is part of what all keys add.
proof fn lemma_stage_additions_contains(
    keys: Seq<EntityView>,
    entities: Seq<EntityView>,
    staged: Seq<EntityView>,
    committed: Seq<EntityView>,
    i: int,
    x: EntityView,
)
    requires
        0 <= i < keys.len(),
        additions_over(keys[i], entities, staged, committed).contains(x),
    ensures
        stage_additions(keys, entities, staged, committed).contains(x),
    decreases keys.len(),
{
    let rest = keys.drop_last();
    if i == keys.len() - 1 {
        lemma_concat_contains(
            stage_additions(rest, entities, staged, committed),
            additions_over(keys.last(), entities, staged, committed),
            x,
        );
    } else {
        assert(rest[i] == keys[i]);
        lemma_stage_additions_contains(rest, entities, staged, committed, i, x);
        lemma_concat_contains(
            stage_additions(rest, entities, staged, committed),
            additions_over(keys.last(), entities, staged, committed),
            x,
        );
    }
}

/// `stage`: a named database table is staged when no staged and no
/// committed table has its name (a new table), or when a committed table of
/// its name has other columns (a changed table).
pub proof fn law_stage_adds(
    keys: Seq<EntityView>,
    entities: Seq<EntityView>,
    staged: Seq<EntityView>,
    committed: Seq<EntityView>,
    i: int,
    j: int,
)
    requires
        0 <= i < keys.len(),
        0 <= j < entities.len(),
        has_key(entities[j], keys[i].schema, keys[i].name),
        (!contains_key(staged, entities[j].schema, entities[j].name) && !contains_key(
            committed,
            entities[j].schema,
            entities[j].name,
        )) || exists|c: int|
            0 <= c < committed.len() && has_key(
                committed[c],
                entities[j].schema,
                entities[j].name,
            ) && committed[c].columns != entities[j].columns,
    ensures
        contains_same(staged_after(keys, entities, staged, committed), entities[j]),
{
    let e = entities[j];
    let tail = if !contains_key(staged, e.schema, e.name) && !contains_key(
        committed,
        e.schema,
        e.name,
    ) {
        seq![e]
    } else {
        Seq::empty()
    };
    if !contains_key(staged, e.schema, e.name) && !contains_key(committed, e.schema, e.name) {
        lemma_concat_contains(changed_copies(committed, e), tail, e);
    } else {
        let c = choose|c: int|
            0 <= c < committed.len() && has_key(committed[c], e.schema, e.name)
                && committed[c].columns != e.columns;
        lemma_changed_copies_contains(committed, e, c);
        lemma_concat_contains(changed_copies(committed, e), tail, e);
    }
    lemma_additions_over_contains(keys[i], entities, staged, committed, j);
    lemma_stage_additions_contains(keys, entities, staged, committed, i, e);
    let adds = stage_additions(keys, entities, staged, committed);
    let t = choose|t: int| 0 <= t < adds.len() && adds[t] == e;
    lemma_merge_prefix(adds, refreshed_all(staged, keys, entities));
    assert(staged_after(keys, entities, staged, committed)[t] == e);
    assert(same_entity(e, e));
}

/// `stage`: nothing staged is lost; each staged table, with the columns
/// that staging gives it, is still in the staging area (an equal table
/// stands for it).
pub proof fn law_stage_keeps(
    keys: Seq<EntityView>,
    entities: Seq<EntityView>,
    staged: Seq<EntityView>,
    committed: Seq<EntityView>,
    j: int,
)
    requires
        0 <= j < staged.len(),
    ensures
        contains_same(
            staged_after(keys, entities, staged, committed),
            refreshed(staged[j], keys, entities),
        ),
{
    lemma_merge_contains(
        stage_additions(keys, entities, staged, committed),
        refreshed_all(staged, keys, entities),
        j,
    );
}

/// Everything a removal adds is marked removed, comes from the database,
/// and bears the name of a tracked table.
proof fn lemma_removal_of_shape(entities: Seq<EntityView>, k: EntityView, x: EntityView)
    requires
        removal_of(entities, k).contains(x),
    ensures
        !x.exists,
        has_key(x, k.schema, k.name),
        exists|j: int| 0 <= j < entities.len() && x == marked_removed(entities[j]),
    decreases entities.len(),
{
    let rest = entities.drop_last();
    let tail = if has_key(entities.last(), k.schema, k.name) {
        seq![marked_removed(entities.last())]
    } else {
        Seq::empty()
    };
    lemma_concat_origin(removal_of(rest, k), tail, x);
    if removal_of(rest, k).contains(x) {
        lemma_removal_of_shape(rest, k, x);
        let j = choose|j: int| 0 <= j < rest.len() && x == marked_removed(rest[j]);
        assert(rest[j] == entities[j]);
    } else {
        assert(x == marked_removed(entities[entities.len() - 1]));
    }
}

/// `remove`: everything it stages for removal is marked removed, is a
/// database table (marked), and is named by a key that names a tracked
/// table.
pub proof fn law_removals_shape(
    keys: Seq<EntityView>,
    entities: Seq<EntityView>,
    committed: Seq<EntityView>,
    x: EntityView,
)
    requires
        removals(keys, entities, committed).contains(x),
    ensures
        !x.exists,
        contains_key(committed, x.schema, x.name),
        named_by(keys, x),
        exists|j: int| 0 <= j < entities.len() && x == marked_removed(entities[j]),
    decreases keys.len(),
{
    let rest = keys.drop_last();
    let k = keys.last();
    let tail = if contains_key(committed, k.schema, k.name) {
        removal_of(entities, k)
    } else {
        Seq::empty()
    };
    lemma_concat_origin(removals(rest, entities, committed), tail, x);
    if removals(rest, entities, committed).contains(x) {
        law_removals_shape(rest, entities, committed, x);
        let i = choose|i: int|
            0 <= i < rest.len() && has_key(x, rest[i].schema, rest[i].name);
        assert(keys[i] == rest[i]);
    } else {
        lemma_removal_of_shape(entities, k, x);
        assert(has_key(x, keys[keys.len() - 1].schema, keys[keys.len() - 1].name));
    }
}

/// `remove`: nothing staged is lost; each staged table is still in the
/// staging area (an equal table stands for it).
pub proof fn law_remove_keeps(
    keys: Seq<EntityView>,
    entities: Seq<EntityView>,
    staged: Seq<EntityView>,
    committed: Seq<EntityView>,
    j: int,
)
    requires
        0 <= j < staged.len(),
    ensures
        contains_same(staged_after_removal(keys, entities, staged, committed), staged[j]),
{
    lemma_merge_contains(removals(keys, entities, committed), staged, j);
}

/// What staging one database table adds is that table.
proof fn lemma_additions_for_only(
    e: EntityView,
    staged: Seq<EntityView>,
    committed: Seq<EntityView>,
    x: EntityView,
)
    requires
        additions_for(e, staged, committed).contains(x),
    ensures
        x == e,
{
    let tail = if !contains_key(staged, e.schema, e.name) && !contains_key(
        committed,
        e.schema,
        e.name,
    ) {
        seq![e]
    } else {
        Seq::empty()
    };
    lemma_concat_origin(changed_copies(committed, e), tail, x);
    if changed_copies(committed, e).contains(x) {
        lemma_changed_copies_only(committed, e, x);
    }
}

/// What staging a key adds are database tables of that name.
proof fn lemma_additions_over_origin(
    k: EntityView,
    entities: Seq<EntityView>,
    staged: Seq<EntityView>,
    committed: Seq<EntityView>,
    x: EntityView,
)
    requires
        additions_over(k, entities, staged, committed).contains(x),
    ensures
        entities.contains(x),
        has_key(x, k.schema, k.name),
    decreases entities.len(),
{
    let rest = entities.drop_last();
    let last = entities.last();
    let tail = if has_key(last, k.schema, k.name) {
        additions_for(last, staged, committed)
    } else {
        Seq::empty()
    };
    lemma_concat_origin(additions_over(k, rest, staged, committed), tail, x);
    if additions_over(k, rest, staged, committed).contains(x) {
        lemma_additions_over_origin(k, rest, staged, committed, x);
        let j = choose|j: int| 0 <= j < rest.len() && rest[j] == x;
        assert(entities[j] == x);
    } else {
        lemma_additions_for_only(last, staged, committed, x);
        assert(entities[entities.len() - 1] == x);
    }
}

/// `stage`: everything it adds is a database table that a key names.
pub proof fn law_stage_additions_origin(
    keys: Seq<EntityView>,
    entities: Seq<EntityView>,
    staged: Seq<EntityView>,
    committed: Seq<EntityView>,
    x: EntityView,
)
    requires
        stage_additions(keys, entities, staged, committed).contains(x),
    ensures
        entities.contains(x),
        named_by(keys, x),
    decreases keys.len(),
{
    let rest = keys.drop_last();
    lemma_concat_origin(
        stage_additions(rest, entities, staged, committed),
        additions_over(keys.last(), entities, staged, committed),
        x,
    );
    if stage_additions(rest, entities, staged, committed).contains(x) {
        law_stage_additions_origin(rest, entities, staged, committed, x);
        let i = choose|i: int| 0 <= i < rest.len() && has_key(x, rest[i].schema, rest[i].name);
        assert(keys[i] == rest[i]);
    } else {
        lemma_additions_over_origin(keys.last(), entities, staged, committed, x);
        assert(has_key(x, keys[keys.len() - 1].schema, keys[keys.len() - 1].name));
    }
}

/// The elements that a merge adds after `acc` come from `items` and equal
/// nothing in `acc`.
proof fn lemma_merge_new(acc: Seq<EntityView>, items: Seq<EntityView>, t: int)
    requires
        acc.len() <= t < merge_missing(acc, items).len(),
    ensures
        items.contains(merge_missing(acc, items)[t]),
        !contains_same(acc, merge_missing(acc, items)[t]),
    decreases items.len(),
{
    let m = merge_missing(acc, items);
    let x = items[0];
    let rest = items.drop_first();
    let next = if contains_same(acc, x) {
        acc
    } else {
        acc.push(x)
    };
    lemma_merge_prefix(next, rest);
    if t < next.len() {
        assert(m[t] == next[t]);
        assert(next[t] == x);
    } else {
        lemma_merge_new(next, rest, t);
        let j = choose|j: int| 0 <= j < rest.len() && rest[j] == m[t];
        assert(items[j + 1] == m[t]);
        if contains_same(acc, m[t]) {
            let i = choose|i: int| 0 <= i < acc.len() && same_entity(acc[i], m[t]);
            assert(next[i] == acc[i]);
        }
    }
}

/// `remove`, then `commit`: a table that the staging area marks as removed
/// (and holds in no other form) is not recorded by the commit, whatever the
/// last commit tracked.
pub proof fn law_commit_drops_removed(
    staged: Seq<EntityView>,
    last: Seq<EntityView>,
    e: EntityView,
)
    requires
        exists|i: int| 0 <= i < staged.len() && same_entity(staged[i], e) && !staged[i].exists,
        forall|i: int|
            0 <= i < staged.len() && same_entity(#[trigger] staged[i], e) ==> !staged[i].exists,
    ensures
        !contains_same(committed_tables(staged, last), e),
{
    let m = merge_missing(staged, last);
    let p = still_exists();
    if contains_same(committed_tables(staged, last), e) {
        let u = choose|u: int| 0 <= u < m.filter(p).len() && same_entity(m.filter(p)[u], e);
        let f = m.filter(p)[u];
        m.lemma_filter_pred(p, u);
        assert(m.filter(p).contains(f));
        m.lemma_filter_contains_rev(p, f);
        let t = choose|t: int| 0 <= t < m.len() && m[t] == f;
        lemma_merge_prefix(staged, last);
        if t < staged.len() {
            assert(m[t] == staged[t]);
            assert(same_entity(staged[t], e));
        } else {
            lemma_merge_new(staged, last, t);
            let i = choose|i: int|
                0 <= i < staged.len() && same_entity(staged[i], e) && !staged[i].exists;
            assert(same_entity(staged[i], m[t]));
        }
    }
}

/// Two table definitions are the same exactly when schema and name are
/// equal and the column lists have the same length with, position by
/// position, the same column name and the same data type.
pub proof fn law_same_entity_compares_types(a: EntityView, b: EntityView)
    ensures
        same_entity(a, b) <==> {
            &&& a.schema == b.schema
            &&& a.name == b.name
            &&& a.columns.len() == b.columns.len()
            &&& forall|i: int|
                #![trigger a.columns[i]]
                0 <= i < a.columns.len() ==> a.columns[i].name == b.columns[i].name
                    && a.columns[i].data_type == b.columns[i].data_type
        },
{
    if same_entity(a, b) {
        assert forall|i: int| #![trigger a.columns[i]] 0 <= i < a.columns.len() implies a.columns[i].name
            == b.columns[i].name && a.columns[i].data_type == b.columns[i].data_type by {
            assert(a.columns[i] == b.columns[i]);
        }
    }
    if a.schema == b.schema && a.name == b.name && a.columns.len() == b.columns.len() && (forall|
        i: int,
    |
        #![trigger a.columns[i]]
        0 <= i < a.columns.len() ==> a.columns[i].name == b.columns[i].name
            && a.columns[i].data_type == b.columns[i].data_type) {
        assert forall|i: int| 0 <= i < a.columns.len() implies a.columns[i] == b.columns[i] by {
            let x: ColumnView = a.columns[i];
            let y: ColumnView = b.columns[i];
            assert(x.data_type == y.data_type);
        }
        assert(a.columns =~= b.columns);
    }
}

/// `status`: a database table whose column list (names and data types)
/// differs from that of every staged and every tracked table is reported
/// untracked.
pub proof fn law_status_changed_columns_untracked(
    entities: Seq<EntityView>,
    staged: Seq<EntityView>,
    committed: Seq<EntityView>,
    j: int,
)
    requires
        0 <= j < entities.len(),
        forall|i: int| 0 <= i < staged.len() ==> (#[trigger] staged[i]).columns != entities[j].columns,
        forall|i: int|
            0 <= i < committed.len() ==> (#[trigger] committed[i]).columns != entities[j].columns,
    ensures
        absent_from_both(entities, staged, committed).contains(entities[j]),
{
    law_status_partition(entities, staged, committed);
    assert(!contains_same(staged, entities[j]));
    assert(!contains_same(committed, entities[j]));
}

/// A key names a table exactly when schema and name are both equal.
pub proof fn law_named_by_exact(keys: Seq<EntityView>, e: EntityView)
    ensures
        named_by(keys, e) <==> exists|i: int|
            0 <= i < keys.len() && e.schema == #[trigger] keys[i].schema && e.name == keys[i].name,
{
}

/// `unstage`: a staged table is kept, as it is, exactly when no key has
/// both its schema and its name; the kept tables are the staged ones in
/// their order.
pub proof fn law_unstage_exact(staged: Seq<EntityView>, keys: Seq<EntityView>, j: int)
    requires
        0 <= j < staged.len(),
    ensures
        (forall|i: int|
            0 <= i < keys.len() ==> !(staged[j].schema == #[trigger] keys[i].schema && staged[j].name
                == keys[i].name)) ==> without_named(staged, keys).contains(staged[j]),
        (exists|i: int|
            0 <= i < keys.len() && staged[j].schema == #[trigger] keys[i].schema && staged[j].name
                == keys[i].name) ==> !without_named(staged, keys).contains(staged[j]),
{
    law_unstage(staged, keys);
    if without_named(staged, keys).contains(staged[j]) {
        let t = choose|t: int|
            0 <= t < without_named(staged, keys).len() && without_named(staged, keys)[t]
                == staged[j];
        assert(!named_by(keys, without_named(staged, keys)[t]));
    }
}

/// `stage`: a staged table that no key names (no key has both its schema
/// and its name) stays in the staging area with the schema, name and
/// columns it was staged with.
pub proof fn law_stage_keeps_unnamed(
    keys: Seq<EntityView>,
    entities: Seq<EntityView>,
    staged: Seq<EntityView>,
    committed: Seq<EntityView>,
    j: int,
)
    requires
        0 <= j < staged.len(),
        forall|i: int|
            0 <= i < keys.len() ==> !(staged[j].schema == #[trigger] keys[i].schema && staged[j].name
                == keys[i].name),
    ensures
        exists|t: int|
            0 <= t < staged_after(keys, entities, staged, committed).len() && {
                let x = #[trigger] staged_after(keys, entities, staged, committed)[t];
                &&& x.schema == staged[j].schema
                &&& x.name == staged[j].name
                &&& x.columns == staged[j].columns
            },
{
    assert(!named_by(keys, staged[j]));
    assert(refreshed_all(staged, keys, entities)[j] == staged[j]);
    law_stage_keeps(keys, entities, staged, committed, j);
    let m = staged_after(keys, entities, staged, committed);
    let t = choose|t: int| 0 <= t < m.len() && same_entity(m[t], staged[j]);
    assert(m[t].columns == staged[j].columns);
}

/// The database tables named like `k` all appear, marked removed.
proof fn lemma_removal_of_contains(entities: Seq<EntityView>, k: EntityView, j: int)
    requires
        0 <= j < entities.len(),
        has_key(entities[j], k.schema, k.name),
    ensures
        removal_of(entities, k).contains(marked_removed(entities[j])),
    decreases entities.len(),
{
    let rest = entities.drop_last();
    let tail = if has_key(entities.last(), k.schema, k.name) {
        seq![marked_removed(entities.last())]
    } else {
        Seq::empty()
    };
    if j == entities.len() - 1 {
        lemma_concat_contains(removal_of(rest, k), tail, marked_removed(entities[j]));
    } else {
        assert(rest[j] == entities[j]);
        lemma_removal_of_contains(rest, k, j);
        lemma_concat_contains(removal_of(rest, k), tail, marked_removed(entities[j]));
    }
}

/// What each tracked key asks for is part of all the removals.
proof fn lemma_removals_contains(
    keys: Seq<EntityView>,
    entities: Seq<EntityView>,
    committed: Seq<EntityView>,
    i: int,
    x: EntityView,
)
    requires
        0 <= i < keys.len(),
        contains_key(committed, keys[i].schema, keys[i].name),
        removal_of(entities, keys[i]).contains(x),
    ensures
        removals(keys, entities, committed).contains(x),
    decreases keys.len(),
{
    let rest = keys.drop_last();
    let k = keys.last();
    let tail = if contains_key(committed, k.schema, k.name) {
        removal_of(entities, k)
    } else {
        Seq::empty()
    };
    if i == keys.len() - 1 {
        lemma_concat_contains(removals(rest, entities, committed), tail, x);
    } else {
        assert(rest[i] == keys[i]);
        lemma_removals_contains(rest, entities, committed, i, x);
        lemma_concat_contains(removals(rest, entities, committed), tail, x);
    }
}

/// `remove`: for every key that has the schema and name of a tracked table,
/// every database table with that schema and name is staged, with its
/// columns, marked as not existing.
pub proof fn law_remove_complete(
    keys: Seq<EntityView>,
    entities: Seq<EntityView>,
    staged: Seq<EntityView>,
    committed: Seq<EntityView>,
    i: int,
    j: int,
    c: int,
)
    requires
        0 <= i < keys.len(),
        0 <= j < entities.len(),
        0 <= c < committed.len(),
        committed[c].schema == keys[i].schema && committed[c].name == keys[i].name,
        entities[j].schema == keys[i].schema && entities[j].name == keys[i].name,
    ensures
        exists|t: int|
            0 <= t < staged_after_removal(keys, entities, staged, committed).len() && {
                let x = #[trigger] staged_after_removal(keys, entities, staged, committed)[t];
                &&& x.schema == entities[j].schema
                &&& x.name == entities[j].name
                &&& x.columns == entities[j].columns
                &&& !x.exists
            },
{
    assert(has_key(committed[c], keys[i].schema, keys[i].name));
    lemma_removal_of_contains(entities, keys[i], j);
    let x = marked_removed(entities[j]);
    lemma_removals_contains(keys, entities, committed, i, x);
    let r = removals(keys, entities, committed);
    let t = choose|t: int| 0 <= t < r.len() && r[t] == x;
    lemma_merge_prefix(r, staged);
    assert(staged_after_removal(keys, entities, staged, committed)[t] == x);
}

/// The tracked tables are those of the last commit, and none before the
/// first commit.
pub proof fn law_tracked_are_last(commits: Seq<CommitView>)
    ensures
        commits.len() == 0 ==> last_entities(commits).len() == 0,
        commits.len() > 0 ==> last_entities(commits) == commits[commits.len() - 1].entities,
{
}

/// `commit`, whatever the length of the history: every table of the last
/// commit (all of which exist) is recorded again, with its schema, name and
/// columns, unless the staging area holds a table with that schema, name
/// and columns marked as not existing.
pub proof fn law_commit_keeps_last_commit(
    commits: Seq<CommitView>,
    staged: Seq<EntityView>,
    timestamp: int,
    uuid: Seq<char>,
    j: int,
)
    requires
        commits.len() > 0,
        0 <= j < commits[commits.len() - 1].entities.len(),
        forall|i: int|
            0 <= i < commits[commits.len() - 1].entities.len() ==> (#[trigger] commits[commits.len()
                - 1].entities[i]).exists,
        forall|i: int|
            0 <= i < staged.len() && (#[trigger] staged[i]).schema == commits[commits.len()
                - 1].entities[j].schema && staged[i].name == commits[commits.len() - 1].entities[j].name
                && staged[i].columns == commits[commits.len() - 1].entities[j].columns
                ==> staged[i].exists,
    ensures
        after_commit(commits, staged, timestamp, uuid).len() == commits.len() + 1,
        exists|t: int|
            0 <= t < after_commit(commits, staged, timestamp, uuid)[commits.len() as int].entities.len()
                && {
                let x = #[trigger] after_commit(commits, staged, timestamp, uuid)[commits.len() as int].entities[t];
                let y = commits[commits.len() - 1].entities[j];
                &&& x.schema == y.schema
                &&& x.name == y.name
                &&& x.columns == y.columns
            },
{
    let last = commits[commits.len() - 1].entities;
    assert(last_entities(commits) == last);
    law_commit_keeps_tracked(staged, last, j);
    if exists|i: int| 0 <= i < staged.len() && !staged[i].exists && same_entity(staged[i], last[j]) {
        let i = choose|i: int|
            0 <= i < staged.len() && !staged[i].exists && same_entity(staged[i], last[j]);
        assert(staged[i].exists);
    }
    let m = committed_tables(staged, last);
    let t = choose|t: int| 0 <= t < m.len() && same_entity(m[t], last[j]);
    assert(after_commit(commits, staged, timestamp, uuid)[commits.len() as int].entities == m);
    assert(m[t].columns == last[j].columns);
}

} // verus!
