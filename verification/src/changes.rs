use vstd::prelude::*;

use crate::dbconnector::{Entity, EntityView, entity_views, has_key, clone_columns, columns_equal};
use crate::files::{Commit, CommitView, commit_views};
use crate::workflow::{
    contains_same, contains_key, contains_entity, last_entities, tracked_entities, lemma_filter_step,
    named_by, is_named, parse_arguments, valid_prefix_len, argument_keys, string_views,
};
use crate::utils::argument_error;

verus! {

broadcast use vstd::seq_lib::group_seq_properties;

/// `acc` followed by the elements of `items`, in order, each added only
/// when no equal table (same schema, name and columns) is already there,
/// counting the ones added before it.
pub open spec fn merge_missing(acc: Seq<EntityView>, items: Seq<EntityView>) -> Seq<EntityView>
    decreases items.len(),
{
    if items.len() == 0 {
        acc
    } else {
        let x = items[0];
        merge_missing(
            if contains_same(acc, x) {
                acc
            } else {
                acc.push(x)
            },
            items.drop_first(),
        )
    }
}

/// Adds to `acc` each element of `items` that no equal table in `acc`
/// already stands for.
pub fn append_missing(acc: Vec<Entity>, items: &Vec<Entity>) -> (r: Vec<Entity>)
    ensures
        entity_views(r@) == merge_missing(entity_views(acc@), entity_views(items@)),
{
    let ghost goal = merge_missing(entity_views(acc@), entity_views(items@));
    let ghost iv = entity_views(items@);
    let mut r = acc;
    let mut i: usize = 0;
    assert(iv.skip(0) =~= iv);
    while i < items.len()
        invariant
            i <= items.len(),
            iv == entity_views(items@),
            merge_missing(entity_views(r@), iv.skip(i as int)) == goal,
        decreases items.len() - i,
    {
        let ghost before = entity_views(r@);
        assert(iv.skip(i as int)[0] == iv[i as int]);
        assert(iv.skip(i as int).drop_first() =~= iv.skip(i + 1));
        if !contains_entity(&r, &items[i]) {
            r.push(items[i].clone());
            assert(entity_views(r@) =~= before.push(iv[i as int]));
        }
        i = i + 1;
    }
    assert(iv.skip(i as int) =~= Seq::<EntityView>::empty());
    r
}

/// The predicate "still exists in the database".
pub open spec fn still_exists() -> spec_fn(EntityView) -> bool {
    |e: EntityView| e.exists
}

/// The tables that a commit records: the staged ones, then the tracked ones
/// that no staged table equals, leaving out those marked as removed.
pub open spec fn committed_tables(staged: Seq<EntityView>, last: Seq<EntityView>) -> Seq<EntityView> {
    merge_missing(staged, last).filter(still_exists())
}

/// Computes the tables of a new commit from the staged tables and the ones
/// that the last commit tracks.
pub fn commit_entities(staged: &Vec<Entity>, last: &Vec<Entity>) -> (r: Vec<Entity>)
    ensures
        entity_views(r@) == committed_tables(entity_views(staged@), entity_views(last@)),
{
    let mut acc: Vec<Entity> = Vec::new();
    let mut k: usize = 0;
    while k < staged.len()
        invariant
            k <= staged.len(),
            acc.len() == k,
            forall|j: int| 0 <= j < k ==> #[trigger] acc@[j]@ == staged@[j]@,
        decreases staged.len() - k,
    {
        acc.push(staged[k].clone());
        k = k + 1;
    }
    assert(entity_views(acc@) =~= entity_views(staged@));
    let all = append_missing(acc, last);
    let ghost s = entity_views(all@);
    let ghost p = still_exists();
    let mut r: Vec<Entity> = Vec::new();
    let mut i: usize = 0;
    while i < all.len()
        invariant
            i <= all.len(),
            s == entity_views(all@),
            p == still_exists(),
            entity_views(r@) == s.take(i as int).filter(p),
        decreases all.len() - i,
    {
        proof {
            lemma_filter_step(s, p, i as int);
        }
        if all[i].exists {
            r.push(all[i].clone());
            assert(entity_views(r@) =~= s.take(i as int).filter(p).push(s[i as int]));
        }
        i = i + 1;
    }
    assert(s.take(all.len() as int) =~= s);
    r
}

/// Why a commit was refused.
#[derive(Debug, PartialEq, Eq, Structural)]
pub enum CommitError {
    /// The staging area holds no table.
    NothingStaged,
}

/// The commits after one more commit of `staged` at `timestamp` with
/// identifier `uuid`.
pub open spec fn after_commit(
    commits: Seq<CommitView>,
    staged: Seq<EntityView>,
    timestamp: int,
    uuid: Seq<char>,
) -> Seq<CommitView> {
    commits.push(
        CommitView {
            entities: committed_tables(staged, last_entities(commits)),
            timestamp,
            uuid,
        },
    )
}

/// Records the staged tables as a new commit at `timestamp` with identifier
/// `uuid`, on top of `commits`. Refused when nothing is staged.
pub fn commit_at(staged: &Vec<Entity>, commits: Vec<Commit>, timestamp: i64, uuid: String) -> (r:
    Result<Vec<Commit>, CommitError>)
    ensures
        match r {
            Ok(v) => {
                &&& staged@.len() > 0
                &&& commit_views(v@) == after_commit(
                    commit_views(commits@),
                    entity_views(staged@),
                    timestamp as int,
                    uuid@,
                )
            },
            Err(e) => staged@.len() == 0 && e == CommitError::NothingStaged,
        },
{
    if staged.len() == 0 {
        return Err(CommitError::NothingStaged);
    }
    let last = tracked_entities(&commits);
    let entities = commit_entities(staged, &last);
    let ghost before = commit_views(commits@);
    let mut commits = commits;
    let c = Commit { entities, timestamp, uuid };
    let ghost cv = c@;
    commits.push(c);
    assert(commit_views(commits@) =~= before.push(cv));
    Ok(commits)
}

/// A lower-case hexadecimal digit.
pub open spec fn is_hex_lower(c: char) -> bool {
    ('0' <= c && c <= '9') || ('a' <= c && c <= 'f')
}

/// The text of a random (version 4) UUID in its hyphenated lower-case form,
/// such as `936da01f-9abd-4d9d-80c7-02af85c822a8`.
pub open spec fn is_uuid_v4_text(s: Seq<char>) -> bool {
    &&& s.len() == 36
    &&& forall|i: int|
        0 <= i < 36 ==> if i == 8 || i == 13 || i == 18 || i == 23 {
            s[i] == '-'
        } else {
            is_hex_lower(#[trigger] s[i])
        }
    &&& s[14] == '4'
    &&& (s[19] == '8' || s[19] == '9' || s[19] == 'a' || s[19] == 'b')
}

/// Calls `chrono::Utc::now()` and takes its `timestamp()`, the seconds
/// since the Unix epoch. It reads the clock, so nothing is stated of it.
#[verifier::external_body]
fn now_seconds() -> i64 {
    chrono::Utc::now().timestamp()
}

/// Calls `uuid::Uuid::new_v4()` and formats it with `to_string()`. The
/// crate sets the version digit to 4 and the variant digit to one of
/// `8 9 a b`, and formats the 128 bits as 32 lower-case hexadecimal digits
/// with hyphens after the 8th, 12th, 16th and 20th digit. The random bits
/// are left unsaid.
#[verifier::external_body]
fn new_commit_id() -> (r: String)
    ensures
        is_uuid_v4_text(r@),
{
    uuid::Uuid::new_v4().to_string()
}

/// `commit`: records the staged tables as a new commit stamped with the
/// current time and a fresh random identifier. Refused when nothing is
/// staged.
pub fn commit(staged: &Vec<Entity>, commits: Vec<Commit>) -> (r: Result<Vec<Commit>, CommitError>)
    ensures
        match r {
            Ok(v) => {
                &&& staged@.len() > 0
                &&& v@.len() == commits@.len() + 1
                &&& commit_views(v@).take(commits@.len() as int) == commit_views(commits@)
                &&& commit_views(v@).last().entities == committed_tables(
                    entity_views(staged@),
                    last_entities(commit_views(commits@)),
                )
                &&& is_uuid_v4_text(v@.last().uuid@)
            },
            Err(e) => staged@.len() == 0 && e == CommitError::NothingStaged,
        },
{
    if staged.len() == 0 {
        return Err(CommitError::NothingStaged);
    }
    let timestamp = now_seconds();
    let uuid = new_commit_id();
    let ghost u = uuid@;
    let ghost before = commit_views(commits@);
    let r = commit_at(staged, commits, timestamp, uuid);
    proof {
        if r is Ok {
            let v = r->Ok_0;
            assert(commit_views(v@).take(before.len() as int) =~= before);
            assert(commit_views(v@).last().uuid == u);
            assert(commit_views(v@).last() == v@.last()@);
        }
    }
    r
}

/// One copy of `e` for each table of `committed` with the name of `e` and
/// other columns.
pub open spec fn changed_copies(committed: Seq<EntityView>, e: EntityView) -> Seq<EntityView>
    decreases committed.len(),
{
    if committed.len() == 0 {
        Seq::empty()
    } else {
        changed_copies(committed.drop_last(), e) + if has_key(
            committed.last(),
            e.schema,
            e.name,
        ) && committed.last().columns != e.columns {
            seq![e]
        } else {
            Seq::empty()
        }
    }
}

/// What staging the database table `e` adds: a copy of it for each
/// committed table of that name with other columns, and one more when no
/// staged and no committed table has its name.
pub open spec fn additions_for(
    e: EntityView,
    staged: Seq<EntityView>,
    committed: Seq<EntityView>,
) -> Seq<EntityView> {
    changed_copies(committed, e) + if !contains_key(staged, e.schema, e.name) && !contains_key(
        committed,
        e.schema,
        e.name,
    ) {
        seq![e]
    } else {
        Seq::empty()
    }
}

/// What staging the key `k` adds, going through the database tables in
/// order.
pub open spec fn additions_over(
    k: EntityView,
    entities: Seq<EntityView>,
    staged: Seq<EntityView>,
    committed: Seq<EntityView>,
) -> Seq<EntityView>
    decreases entities.len(),
{
    if entities.len() == 0 {
        Seq::empty()
    } else {
        additions_over(k, entities.drop_last(), staged, committed) + if has_key(
            entities.last(),
            k.schema,
            k.name,
        ) {
            additions_for(entities.last(), staged, committed)
        } else {
            Seq::empty()
        }
    }
}

/// What staging the keys adds, key after key.
pub open spec fn stage_additions(
    keys: Seq<EntityView>,
    entities: Seq<EntityView>,
    staged: Seq<EntityView>,
    committed: Seq<EntityView>,
) -> Seq<EntityView>
    decreases keys.len(),
{
    if keys.len() == 0 {
        Seq::empty()
    } else {
        stage_additions(keys.drop_last(), entities, staged, committed) + additions_over(
            keys.last(),
            entities,
            staged,
            committed,
        )
    }
}

/// The last table of `entities` named `schema.name`, if any.
pub open spec fn last_with_key(entities: Seq<EntityView>, schema: Seq<char>, name: Seq<char>) -> Option<
    EntityView,
>
    decreases entities.len(),
{
    if entities.len() == 0 {
        None
    } else if has_key(entities.last(), schema, name) {
        Some(entities.last())
    } else {
        last_with_key(entities.drop_last(), schema, name)
    }
}

/// A staged table after staging `keys`: when a key names it and the
/// database holds a table of that name, it takes the columns of the last
/// such table; otherwise it stays as it is.
pub open spec fn refreshed(se: EntityView, keys: Seq<EntityView>, entities: Seq<EntityView>) -> EntityView {
    if named_by(keys, se) {
        match last_with_key(entities, se.schema, se.name) {
            Some(e) => EntityView {
                schema: se.schema,
                name: se.name,
                columns: e.columns,
                exists: se.exists,
            },
            None => se,
        }
    } else {
        se
    }
}

/// All staged tables after staging `keys`.
pub open spec fn refreshed_all(
    staged: Seq<EntityView>,
    keys: Seq<EntityView>,
    entities: Seq<EntityView>,
) -> Seq<EntityView> {
    staged.map_values(|se: EntityView| refreshed(se, keys, entities))
}

/// The staging area after staging `keys`: the additions, then each
/// (refreshed) staged table that no equal table already stands for.
pub open spec fn staged_after(
    keys: Seq<EntityView>,
    entities: Seq<EntityView>,
    staged: Seq<EntityView>,
    committed: Seq<EntityView>,
) -> Seq<EntityView> {
    merge_missing(
        stage_additions(keys, entities, staged, committed),
        refreshed_all(staged, keys, entities),
    )
}

/// Whether some table of `v` is named `schema.name`.
pub fn has_table(v: &Vec<Entity>, schema: &String, name: &String) -> (r: bool)
    ensures
        r == contains_key(entity_views(v@), schema@, name@),
{
    let mut i: usize = 0;
    while i < v.len()
        invariant
            i <= v.len(),
            forall|j: int|
                0 <= j < i ==> !has_key(#[trigger] entity_views(v@)[j], schema@, name@),
        decreases v.len() - i,
    {
        if v[i].schema == *schema && v[i].name == *name {
            assert(has_key(entity_views(v@)[i as int], schema@, name@));
            return true;
        }
        i = i + 1;
    }
    false
}

/// Appends `additions_for(e)` to `out`.
fn add_changes_for(
    e: &Entity,
    staged: &Vec<Entity>,
    committed: &Vec<Entity>,
    out: &mut Vec<Entity>,
)
    ensures
        entity_views(final(out)@) == entity_views(old(out)@) + additions_for(
            e@,
            entity_views(staged@),
            entity_views(committed@),
        ),
{
    let ghost c = entity_views(committed@);
    let ghost start = entity_views(out@);
    let mut j: usize = 0;
    assert(start + changed_copies(c.take(0), e@) =~= start);
    while j < committed.len()
        invariant
            j <= committed.len(),
            c == entity_views(committed@),
            entity_views(out@) == start + changed_copies(c.take(j as int), e@),
        decreases committed.len() - j,
    {
        let ghost before = entity_views(out@);
        assert(c.take(j + 1).drop_last() =~= c.take(j as int));
        if committed[j].schema == e.schema && committed[j].name == e.name && !columns_equal(
            &committed[j].columns,
            &e.columns,
        ) {
            out.push(e.clone());
            assert(entity_views(out@) =~= before.push(e@));
            assert(start + changed_copies(c.take(j + 1), e@) =~= before + seq![e@]);
        } else {
            assert(start + changed_copies(c.take(j + 1), e@) =~= before);
        }
        j = j + 1;
    }
    assert(c.take(committed.len() as int) =~= c);
    let ghost middle = entity_views(out@);
    if !has_table(staged, &e.schema, &e.name) && !has_table(committed, &e.schema, &e.name) {
        out.push(e.clone());
        assert(entity_views(out@) =~= middle.push(e@));
        assert(start + additions_for(e@, entity_views(staged@), c) =~= middle + seq![e@]);
    } else {
        assert(start + additions_for(e@, entity_views(staged@), c) =~= middle);
    }
}

/// Appends `additions_over(k)` to `out`.
fn add_changes_over(
    k: &Entity,
    entities: &Vec<Entity>,
    staged: &Vec<Entity>,
    committed: &Vec<Entity>,
    out: &mut Vec<Entity>,
)
    ensures
        entity_views(final(out)@) == entity_views(old(out)@) + additions_over(
            k@,
            entity_views(entities@),
            entity_views(staged@),
            entity_views(committed@),
        ),
{
    let ghost d = entity_views(entities@);
    let ghost sv = entity_views(staged@);
    let ghost cv = entity_views(committed@);
    let ghost start = entity_views(out@);
    let mut i: usize = 0;
    assert(start + additions_over(k@, d.take(0), sv, cv) =~= start);
    while i < entities.len()
        invariant
            i <= entities.len(),
            d == entity_views(entities@),
            sv == entity_views(staged@),
            cv == entity_views(committed@),
            entity_views(out@) == start + additions_over(k@, d.take(i as int), sv, cv),
        decreases entities.len() - i,
    {
        let ghost before = entity_views(out@);
        assert(d.take(i + 1).drop_last() =~= d.take(i as int));
        if entities[i].schema == k.schema && entities[i].name == k.name {
            add_changes_for(&entities[i], staged, committed, out);
            assert(start + additions_over(k@, d.take(i + 1), sv, cv) =~= before + additions_for(
                d[i as int],
                sv,
                cv,
            ));
        } else {
            assert(start + additions_over(k@, d.take(i + 1), sv, cv) =~= before);
        }
        i = i + 1;
    }
    assert(d.take(entities.len() as int) =~= d);
}

/// The index of the last table of `entities` named `schema.name`.
fn last_index_with_key(entities: &Vec<Entity>, schema: &String, name: &String) -> (r: Option<usize>)
    ensures
        match r {
            Some(j) => j < entities@.len() && last_with_key(entity_views(entities@), schema@, name@)
                == Some(entity_views(entities@)[j as int]),
            None => last_with_key(entity_views(entities@), schema@, name@) is None,
        },
{
    let ghost d = entity_views(entities@);
    let mut found: Option<usize> = None;
    let mut i: usize = 0;
    while i < entities.len()
        invariant
            i <= entities.len(),
            d == entity_views(entities@),
            match found {
                Some(j) => j < i && last_with_key(d.take(i as int), schema@, name@) == Some(d[j as int]),
                None => last_with_key(d.take(i as int), schema@, name@) is None,
            },
        decreases entities.len() - i,
    {
        assert(d.take(i + 1).drop_last() =~= d.take(i as int));
        assert(d.take(i + 1).last() == d[i as int]);
        if entities[i].schema == *schema && entities[i].name == *name {
            found = Some(i);
        }
        i = i + 1;
    }
    assert(d.take(entities.len() as int) =~= d);
    found
}

/// A staged table after staging `keys`.
fn refresh(se: &Entity, keys: &Vec<Entity>, entities: &Vec<Entity>) -> (r: Entity)
    ensures
        r@ == refreshed(se@, entity_views(keys@), entity_views(entities@)),
{
    if is_named(keys, se) {
        match last_index_with_key(entities, &se.schema, &se.name) {
            Some(j) => Entity {
                schema: se.schema.clone(),
                name: se.name.clone(),
                columns: clone_columns(&entities[j].columns),
                exists: se.exists,
            },
            None => se.clone(),
        }
    } else {
        se.clone()
    }
}

/// Stages the database tables that `keys` name, given the staged tables and
/// the ones that the last commit tracks; gives the new staging area.
pub fn stage_keys(
    keys: &Vec<Entity>,
    entities: &Vec<Entity>,
    staged: &Vec<Entity>,
    committed: &Vec<Entity>,
) -> (r: Vec<Entity>)
    ensures
        entity_views(r@) == staged_after(
            entity_views(keys@),
            entity_views(entities@),
            entity_views(staged@),
            entity_views(committed@),
        ),
{
    let ghost kv = entity_views(keys@);
    let ghost d = entity_views(entities@);
    let ghost sv = entity_views(staged@);
    let ghost cv = entity_views(committed@);
    let mut out: Vec<Entity> = Vec::new();
    let mut i: usize = 0;
    assert(entity_views(out@) =~= stage_additions(kv.take(0), d, sv, cv));
    while i < keys.len()
        invariant
            i <= keys.len(),
            kv == entity_views(keys@),
            d == entity_views(entities@),
            sv == entity_views(staged@),
            cv == entity_views(committed@),
            entity_views(out@) == stage_additions(kv.take(i as int), d, sv, cv),
        decreases keys.len() - i,
    {
        assert(kv.take(i + 1).drop_last() =~= kv.take(i as int));
        add_changes_over(&keys[i], entities, staged, committed, &mut out);
        i = i + 1;
    }
    assert(kv.take(keys.len() as int) =~= kv);
    let mut fresh: Vec<Entity> = Vec::new();
    let mut j: usize = 0;
    while j < staged.len()
        invariant
            j <= staged.len(),
            kv == entity_views(keys@),
            d == entity_views(entities@),
            sv == entity_views(staged@),
            fresh.len() == j,
            forall|t: int| 0 <= t < j ==> #[trigger] fresh@[t]@ == refreshed(sv[t], kv, d),
        decreases staged.len() - j,
    {
        fresh.push(refresh(&staged[j], keys, entities));
        j = j + 1;
    }
    assert(entity_views(fresh@) =~= refreshed_all(sv, kv, d));
    append_missing(out, &fresh)
}

/// `stage <schema.name>...`: stages the named database tables and gives
/// the new staging area. Refused, with the message of the first argument
/// that holds no `.`, when there is one; then the staging area stays as it
/// is.
pub fn stage(
    arguments: &Vec<String>,
    entities: &Vec<Entity>,
    staged: &Vec<Entity>,
    committed: &Vec<Entity>,
) -> (r: Result<Vec<Entity>, String>)
    ensures
        match r {
            Ok(v) => {
                &&& valid_prefix_len(string_views(arguments@)) == arguments@.len()
                &&& entity_views(v@) == staged_after(
                    argument_keys(string_views(arguments@)),
                    entity_views(entities@),
                    entity_views(staged@),
                    entity_views(committed@),
                )
            },
            Err(m) => {
                &&& valid_prefix_len(string_views(arguments@)) < arguments@.len()
                &&& m@ == argument_error(
                    string_views(arguments@)[valid_prefix_len(string_views(arguments@)) as int],
                )
            },
        },
{
    let (keys, error) = parse_arguments(arguments);
    match error {
        Some(m) => Err(m),
        None => Ok(stage_keys(&keys, entities, staged, committed)),
    }
}

/// `e` marked as gone from the database.
pub open spec fn marked_removed(e: EntityView) -> EntityView {
    EntityView { schema: e.schema, name: e.name, columns: e.columns, exists: false }
}

/// The database tables named like `k`, in order, marked as removed.
pub open spec fn removal_of(entities: Seq<EntityView>, k: EntityView) -> Seq<EntityView>
    decreases entities.len(),
{
    if entities.len() == 0 {
        Seq::empty()
    } else {
        removal_of(entities.drop_last(), k) + if has_key(entities.last(), k.schema, k.name) {
            seq![marked_removed(entities.last())]
        } else {
            Seq::empty()
        }
    }
}

/// The removals that the keys ask for, key after key; a key that names no
/// tracked table asks for none.
pub open spec fn removals(
    keys: Seq<EntityView>,
    entities: Seq<EntityView>,
    committed: Seq<EntityView>,
) -> Seq<EntityView>
    decreases keys.len(),
{
    if keys.len() == 0 {
        Seq::empty()
    } else {
        let k = keys.last();
        removals(keys.drop_last(), entities, committed) + if contains_key(
            committed,
            k.schema,
            k.name,
        ) {
            removal_of(entities, k)
        } else {
            Seq::empty()
        }
    }
}

/// The predicate "names no tracked table".
pub open spec fn names_untracked(committed: Seq<EntityView>) -> spec_fn(EntityView) -> bool {
    |k: EntityView| !contains_key(committed, k.schema, k.name)
}

/// The keys, in order, that name no tracked table.
pub open spec fn untracked_keys(keys: Seq<EntityView>, committed: Seq<EntityView>) -> Seq<EntityView> {
    keys.filter(names_untracked(committed))
}

/// The staging area after removing `keys`: the removals, then each staged
/// table that no equal table already stands for.
pub open spec fn staged_after_removal(
    keys: Seq<EntityView>,
    entities: Seq<EntityView>,
    staged: Seq<EntityView>,
    committed: Seq<EntityView>,
) -> Seq<EntityView> {
    merge_missing(removals(keys, entities, committed), staged)
}

/// Appends `removal_of(k)` to `out`.
fn add_removals_of(k: &Entity, entities: &Vec<Entity>, out: &mut Vec<Entity>)
    ensures
        entity_views(final(out)@) == entity_views(old(out)@) + removal_of(
            entity_views(entities@),
            k@,
        ),
{
    let ghost d = entity_views(entities@);
    let ghost start = entity_views(out@);
    let mut i: usize = 0;
    assert(start + removal_of(d.take(0), k@) =~= start);
    while i < entities.len()
        invariant
            i <= entities.len(),
            d == entity_views(entities@),
            entity_views(out@) == start + removal_of(d.take(i as int), k@),
        decreases entities.len() - i,
    {
        let ghost before = entity_views(out@);
        assert(d.take(i + 1).drop_last() =~= d.take(i as int));
        if entities[i].schema == k.schema && entities[i].name == k.name {
            let mut gone = entities[i].clone();
            gone.exists = false;
            out.push(gone);
            assert(entity_views(out@) =~= before.push(marked_removed(d[i as int])));
            assert(start + removal_of(d.take(i + 1), k@) =~= before + seq![
                marked_removed(d[i as int]),
            ]);
        } else {
            assert(start + removal_of(d.take(i + 1), k@) =~= before);
        }
        i = i + 1;
    }
    assert(d.take(entities.len() as int) =~= d);
}

/// What `remove` decides.
pub struct RemoveOutcome {
    /// The accepted keys, in order, that name no tracked table; each is
    /// reported as not tracked.
    pub not_tracked: Vec<Entity>,
    /// The new staging area, or the message of the first refused argument.
    pub staged: Result<Vec<Entity>, String>,
}

/// Stages the removal of the tracked tables that `keys` name: each database
/// table of that name is staged marked as removed. Gives the keys that name
/// no tracked table and the new staging area.
pub fn remove_keys(
    keys: &Vec<Entity>,
    entities: &Vec<Entity>,
    staged: &Vec<Entity>,
    committed: &Vec<Entity>,
) -> (r: (Vec<Entity>, Vec<Entity>))
    ensures
        entity_views(r.0@) == untracked_keys(entity_views(keys@), entity_views(committed@)),
        entity_views(r.1@) == staged_after_removal(
            entity_views(keys@),
            entity_views(entities@),
            entity_views(staged@),
            entity_views(committed@),
        ),
{
    let ghost kv = entity_views(keys@);
    let ghost d = entity_views(entities@);
    let ghost cv = entity_views(committed@);
    let ghost p = names_untracked(cv);
    let mut not_tracked: Vec<Entity> = Vec::new();
    let mut out: Vec<Entity> = Vec::new();
    let mut i: usize = 0;
    assert(entity_views(out@) =~= removals(kv.take(0), d, cv));
    while i < keys.len()
        invariant
            i <= keys.len(),
            kv == entity_views(keys@),
            d == entity_views(entities@),
            cv == entity_views(committed@),
            p == names_untracked(cv),
            entity_views(out@) == removals(kv.take(i as int), d, cv),
            entity_views(not_tracked@) == kv.take(i as int).filter(p),
        decreases keys.len() - i,
    {
        proof {
            lemma_filter_step(kv, p, i as int);
        }
        let ghost before = entity_views(out@);
        assert(kv.take(i + 1).drop_last() =~= kv.take(i as int));
        if has_table(committed, &keys[i].schema, &keys[i].name) {
            add_removals_of(&keys[i], entities, &mut out);
        } else {
            not_tracked.push(keys[i].clone());
            assert(entity_views(not_tracked@) =~= kv.take(i as int).filter(p).push(kv[i as int]));
            assert(removals(kv.take(i + 1), d, cv) =~= before);
        }
        i = i + 1;
    }
    assert(kv.take(keys.len() as int) =~= kv);
    let result = append_missing(out, staged);
    (not_tracked, result)
}

/// `remove <schema.name>...`: stages the removal of the named tracked
/// tables. The arguments are taken in order up to the first one that holds
/// no `.`; the accepted ones that name no tracked table are reported, and
/// the refused one, if any, leaves the staging area as it is.
pub fn remove(
    arguments: &Vec<String>,
    entities: &Vec<Entity>,
    staged: &Vec<Entity>,
    committed: &Vec<Entity>,
) -> (r: RemoveOutcome)
    ensures
        entity_views(r.not_tracked@) == untracked_keys(
            argument_keys(string_views(arguments@)),
            entity_views(committed@),
        ),
        match r.staged {
            Ok(v) => {
                &&& valid_prefix_len(string_views(arguments@)) == arguments@.len()
                &&& entity_views(v@) == staged_after_removal(
                    argument_keys(string_views(arguments@)),
                    entity_views(entities@),
                    entity_views(staged@),
                    entity_views(committed@),
                )
            },
            Err(m) => {
                &&& valid_prefix_len(string_views(arguments@)) < arguments@.len()
                &&& m@ == argument_error(
                    string_views(arguments@)[valid_prefix_len(string_views(arguments@)) as int],
                )
            },
        },
{
    let (keys, error) = parse_arguments(arguments);
    let (not_tracked, result) = remove_keys(&keys, entities, staged, committed);
    match error {
        Some(m) => RemoveOutcome { not_tracked, staged: Err(m) },
        None => RemoveOutcome { not_tracked, staged: Ok(result) },
    }
}

} // verus!
