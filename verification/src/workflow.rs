use vstd::prelude::*;

use crate::dbconnector::{Entity, EntityView, entity_views, same_entity, has_key};
use crate::files::{Commit, CommitView, commit_views};
use crate::utils::{parse_argument, spec_parse_argument, argument_error};

verus! {

broadcast use vstd::seq_lib::group_seq_properties;

/// Some element of `s` is the same table definition as `e` (schema, name
/// and columns; whether it exists is not compared).
pub open spec fn contains_same(s: Seq<EntityView>, e: EntityView) -> bool {
    exists|i: int| 0 <= i < s.len() && same_entity(s[i], e)
}

/// Some element of `s` is named `schema.name`.
pub open spec fn contains_key(s: Seq<EntityView>, schema: Seq<char>, name: Seq<char>) -> bool {
    exists|i: int| 0 <= i < s.len() && has_key(s[i], schema, name)
}

/// The tables of the last commit, or none when there is no commit yet.
pub open spec fn last_entities(commits: Seq<CommitView>) -> Seq<EntityView> {
    if commits.len() == 0 {
        Seq::empty()
    } else {
        commits.last().entities
    }
}

/// The predicate "in neither `a` nor `b`".
pub open spec fn in_neither(a: Seq<EntityView>, b: Seq<EntityView>) -> spec_fn(EntityView) -> bool {
    |e: EntityView| !contains_same(a, e) && !contains_same(b, e)
}

/// The elements of `src`, in order, that are in neither `a` nor `b`.
pub open spec fn absent_from_both(
    src: Seq<EntityView>,
    a: Seq<EntityView>,
    b: Seq<EntityView>,
) -> Seq<EntityView> {
    src.filter(in_neither(a, b))
}

/// One more element of `s` run through `filter`.
pub proof fn lemma_filter_step(s: Seq<EntityView>, p: spec_fn(EntityView) -> bool, i: int)
    requires
        0 <= i < s.len(),
    ensures
        s.take(i + 1).filter(p) == if p(s[i]) {
            s.take(i).filter(p).push(s[i])
        } else {
            s.take(i).filter(p)
        },
{
    reveal_with_fuel(Seq::<_>::filter, 1);
    assert(s.take(i + 1).drop_last() =~= s.take(i));
}

/// Whether `v` holds a table equal to `e` (same schema, name and columns).
pub fn contains_entity(v: &Vec<Entity>, e: &Entity) -> (r: bool)
    ensures
        r == contains_same(entity_views(v@), e@),
{
    let mut i: usize = 0;
    while i < v.len()
        invariant
            i <= v.len(),
            forall|j: int| 0 <= j < i ==> !same_entity(#[trigger] entity_views(v@)[j], e@),
        decreases v.len() - i,
    {
        if v[i] == *e {
            assert(same_entity(entity_views(v@)[i as int], e@));
            return true;
        }
        i = i + 1;
    }
    false
}

/// Copies a list of tables.
pub fn clone_entities(v: &Vec<Entity>) -> (r: Vec<Entity>)
    ensures
        entity_views(r@) == entity_views(v@),
{
    let mut r: Vec<Entity> = Vec::new();
    let mut i: usize = 0;
    while i < v.len()
        invariant
            i <= v.len(),
            r.len() == i,
            forall|j: int| 0 <= j < i ==> #[trigger] r@[j]@ == v@[j]@,
        decreases v.len() - i,
    {
        r.push(v[i].clone());
        i = i + 1;
    }
    assert(entity_views(r@) =~= entity_views(v@));
    r
}

/// The tables that the last commit tracks (none before the first commit).
pub fn tracked_entities(commits: &Vec<Commit>) -> (r: Vec<Entity>)
    ensures
        entity_views(r@) == last_entities(commit_views(commits@)),
{
    if commits.len() == 0 {
        let r: Vec<Entity> = Vec::new();
        assert(entity_views(r@) =~= Seq::<EntityView>::empty());
        r
    } else {
        let last = commits.len() - 1;
        clone_entities(&commits[last].entities)
    }
}

/// The elements of `src`, in order, that are equal to no element of `a` and
/// to no element of `b`.
fn keep_absent(src: &Vec<Entity>, a: &Vec<Entity>, b: &Vec<Entity>) -> (r: Vec<Entity>)
    ensures
        entity_views(r@) == absent_from_both(entity_views(src@), entity_views(a@), entity_views(b@)),
{
    let ghost s = entity_views(src@);
    let ghost p = in_neither(entity_views(a@), entity_views(b@));
    let mut r: Vec<Entity> = Vec::new();
    let mut i: usize = 0;
    while i < src.len()
        invariant
            i <= src.len(),
            s == entity_views(src@),
            p == in_neither(entity_views(a@), entity_views(b@)),
            entity_views(r@) == s.take(i as int).filter(p),
        decreases src.len() - i,
    {
        proof {
            lemma_filter_step(s, p, i as int);
        }
        if !contains_entity(a, &src[i]) && !contains_entity(b, &src[i]) {
            let e = src[i].clone();
            r.push(e);
            assert(entity_views(r@) =~= s.take(i as int).filter(p).push(s[i as int]));
        }
        i = i + 1;
    }
    assert(s.take(src.len() as int) =~= s);
    r
}

/// What `status` reports besides the tracked and the staged tables.
pub struct StatusReport {
    /// Tables of the database that are neither staged nor tracked.
    pub untracked: Vec<Entity>,
    /// Tracked tables that are gone from the database and are not staged.
    pub removed: Vec<Entity>,
}

/// Compares the tables of the database with the staged ones and the ones
/// that the last commit tracks. A table counts as known when an equal table
/// (same schema, name and columns) is in the list.
pub fn status(entities: &Vec<Entity>, staged: &Vec<Entity>, committed: &Vec<Entity>) -> (r:
    StatusReport)
    ensures
        entity_views(r.untracked@) == absent_from_both(
            entity_views(entities@),
            entity_views(staged@),
            entity_views(committed@),
        ),
        entity_views(r.removed@) == absent_from_both(
            entity_views(committed@),
            entity_views(entities@),
            entity_views(staged@),
        ),
{
    let untracked = keep_absent(entities, staged, committed);
    let removed = keep_absent(committed, entities, staged);
    StatusReport { untracked, removed }
}

/// The views of a sequence of strings.
pub open spec fn string_views(s: Seq<String>) -> Seq<Seq<char>> {
    s.map_values(|a: String| a@)
}

/// The table that an accepted argument names: its schema and name, no
/// columns, existing.
pub open spec fn parsed_key(s: Seq<char>) -> EntityView {
    let p = spec_parse_argument(s).unwrap();
    EntityView { schema: p.0, name: p.1, columns: Seq::empty(), exists: true }
}

/// How many arguments, from the first, are accepted before the first one
/// that is refused (all of them when none is refused).
pub open spec fn valid_prefix_len(a: Seq<Seq<char>>) -> nat
    decreases a.len(),
{
    if a.len() == 0 {
        0
    } else if spec_parse_argument(a[0]) is None {
        0
    } else {
        1 + valid_prefix_len(a.drop_first())
    }
}

/// The tables named by the accepted arguments before the first refused one.
pub open spec fn argument_keys(a: Seq<Seq<char>>) -> Seq<EntityView> {
    a.take(valid_prefix_len(a) as int).map_values(|s: Seq<char>| parsed_key(s))
}

/// The first `i` arguments are accepted and the one at `i` (if any) is
/// refused: then `i` is the accepted prefix.
pub proof fn lemma_valid_prefix_len(a: Seq<Seq<char>>, i: int)
    requires
        0 <= i <= a.len(),
        forall|j: int| 0 <= j < i ==> spec_parse_argument(#[trigger] a[j]) is Some,
        i == a.len() || spec_parse_argument(a[i]) is None,
    ensures
        valid_prefix_len(a) == i,
    decreases i,
{
    if i > 0 {
        assert forall|j: int| 0 <= j < i - 1 implies spec_parse_argument(
            #[trigger] a.drop_first()[j],
        ) is Some by {
            assert(a.drop_first()[j] == a[j + 1]);
        }
        lemma_valid_prefix_len(a.drop_first(), i - 1);
    }
}

/// Parses the arguments in order, up to the first one that is refused.
/// Gives the tables named before it, and its error message when there is
/// one.
pub fn parse_arguments(arguments: &Vec<String>) -> (r: (Vec<Entity>, Option<String>))
    ensures
        entity_views(r.0@) == argument_keys(string_views(arguments@)),
        valid_prefix_len(string_views(arguments@)) <= arguments@.len(),
        r.1 is None <==> valid_prefix_len(string_views(arguments@)) == arguments@.len(),
        r.1 matches Some(m) ==> m@ == argument_error(
            string_views(arguments@)[valid_prefix_len(string_views(arguments@)) as int],
        ),
{
    let ghost a = string_views(arguments@);
    let mut keys: Vec<Entity> = Vec::new();
    let mut i: usize = 0;
    while i < arguments.len()
        invariant
            a == string_views(arguments@),
            i <= arguments.len(),
            forall|j: int| 0 <= j < i ==> spec_parse_argument(#[trigger] a[j]) is Some,
            entity_views(keys@) == a.take(i as int).map_values(|s: Seq<char>| parsed_key(s)),
        decreases arguments.len() - i,
    {
        match parse_argument(arguments[i].as_str()) {
            Ok(k) => {
                let ghost kv = k@;
                let ghost before = entity_views(keys@);
                proof {
                    assert(k@.columns =~= Seq::<crate::dbconnector::ColumnView>::empty());
                    assert(kv == parsed_key(a[i as int]));
                }
                keys.push(k);
                assert(entity_views(keys@) =~= before.push(kv));
                assert(a.take(i + 1).map_values(|s: Seq<char>| parsed_key(s)) =~= a.take(
                    i as int,
                ).map_values(|s: Seq<char>| parsed_key(s)).push(parsed_key(a[i as int])));
            },
            Err(m) => {
                proof {
                    lemma_valid_prefix_len(a, i as int);
                }
                return (keys, Some(m));
            },
        }
        i = i + 1;
    }
    proof {
        lemma_valid_prefix_len(a, i as int);
    }
    (keys, None)
}

/// One of `keys` names `e` (same schema and name).
pub open spec fn named_by(keys: Seq<EntityView>, e: EntityView) -> bool {
    exists|i: int| 0 <= i < keys.len() && has_key(e, keys[i].schema, keys[i].name)
}

/// The predicate "named by none of `keys`".
pub open spec fn not_named(keys: Seq<EntityView>) -> spec_fn(EntityView) -> bool {
    |e: EntityView| !named_by(keys, e)
}

/// The elements of `staged`, in order, that none of `keys` names.
pub open spec fn without_named(staged: Seq<EntityView>, keys: Seq<EntityView>) -> Seq<EntityView> {
    staged.filter(not_named(keys))
}

/// Whether one of `keys` has the schema and name of `e`.
pub fn is_named(keys: &Vec<Entity>, e: &Entity) -> (r: bool)
    ensures
        r == named_by(entity_views(keys@), e@),
{
    let mut i: usize = 0;
    while i < keys.len()
        invariant
            i <= keys.len(),
            forall|j: int|
                0 <= j < i ==> !has_key(
                    e@,
                    #[trigger] entity_views(keys@)[j].schema,
                    entity_views(keys@)[j].name,
                ),
        decreases keys.len() - i,
    {
        if keys[i].schema == e.schema && keys[i].name == e.name {
            assert(has_key(e@, entity_views(keys@)[i as int].schema, entity_views(keys@)[i as int].name));
            return true;
        }
        i = i + 1;
    }
    false
}

/// Takes the tables that `keys` name out of the staged ones, keeping the
/// order of the rest.
pub fn unstage_keys(keys: &Vec<Entity>, staged: &Vec<Entity>) -> (r: Vec<Entity>)
    ensures
        entity_views(r@) == without_named(entity_views(staged@), entity_views(keys@)),
{
    let ghost s = entity_views(staged@);
    let ghost p = not_named(entity_views(keys@));
    let mut r: Vec<Entity> = Vec::new();
    let mut i: usize = 0;
    while i < staged.len()
        invariant
            i <= staged.len(),
            s == entity_views(staged@),
            p == not_named(entity_views(keys@)),
            entity_views(r@) == s.take(i as int).filter(p),
        decreases staged.len() - i,
    {
        proof {
            lemma_filter_step(s, p, i as int);
        }
        if !is_named(keys, &staged[i]) {
            let e = staged[i].clone();
            r.push(e);
            assert(entity_views(r@) =~= s.take(i as int).filter(p).push(s[i as int]));
        }
        i = i + 1;
    }
    assert(s.take(staged.len() as int) =~= s);
    r
}

/// `unstage <schema.name>...`: the staged tables without the named ones.
/// Refused, with the message of the first argument that holds no `.`, when
/// there is one; then the staging area stays as it is.
pub fn unstage(arguments: &Vec<String>, staged: &Vec<Entity>) -> (r: Result<Vec<Entity>, String>)
    ensures
        match r {
            Ok(v) => {
                &&& valid_prefix_len(string_views(arguments@)) == arguments@.len()
                &&& entity_views(v@) == without_named(
                    entity_views(staged@),
                    argument_keys(string_views(arguments@)),
                )
            },
            Err(m) => {
                &&& valid_prefix_len(string_views(arguments@)) < arguments@.len()
                &&& m@ == argument_error(
                    string_views(arguments@)[valid_prefix_len(string_views(arguments@)) as int],
                )
            },
        },
{
    let (keys, error) = parse_arguments(arguments);
    match error {
        Some(m) => Err(m),
        None => Ok(unstage_keys(&keys, staged)),
    }
}

} // verus!
