use dgit::changes::{
    append_missing, commit, commit_at, commit_entities, remove, stage, CommitError,
};
use dgit::dbconnector::{Column, Entity};
use dgit::files::Commit;
use dgit::workflow::{parse_arguments, status, tracked_entities, unstage};

fn col(name: &str, data_type: &str) -> Column {
    Column { name: name.to_string(), data_type: data_type.to_string() }
}

fn table(schema: &str, name: &str, cols: &[(&str, &str)]) -> Entity {
    Entity {
        schema: schema.to_string(),
        name: name.to_string(),
        columns: cols.iter().map(|(n, t)| col(n, t)).collect(),
        exists: true,
    }
}

fn args(words: &[&str]) -> Vec<String> {
    words.iter().map(|w| w.to_string()).collect()
}

fn names(v: &[Entity]) -> Vec<String> {
    v.iter().map(|e| format!("{}.{}", e.schema, e.name)).collect()
}

fn snapshot(entities: Vec<Entity>) -> Commit {
    Commit { entities, timestamp: 1_700_000_000, uuid: "id".to_string() }
}

#[test]
fn tracked_entities_come_from_the_last_commit() {
    assert!(tracked_entities(&vec![]).is_empty());
    let commits = vec![
        snapshot(vec![table("s", "old", &[])]),
        snapshot(vec![table("s", "a", &[]), table("s", "b", &[])]),
    ];
    assert_eq!(names(&tracked_entities(&commits)), vec!["s.a", "s.b"]);
}

#[test]
fn status_reports_untracked_and_removed() {
    let users = table("public", "users", &[("id", "integer")]);
    let orders = table("public", "orders", &[("id", "integer")]);
    let items = table("public", "items", &[("id", "integer")]);
    let gone = table("public", "gone", &[("id", "integer")]);
    let entities = vec![users.clone(), orders.clone(), items.clone()];
    let staged = vec![orders.clone()];
    let committed = vec![users.clone(), gone.clone()];
    let report = status(&entities, &staged, &committed);
    assert_eq!(names(&report.untracked), vec!["public.items"]);
    assert_eq!(names(&report.removed), vec!["public.gone"]);
}

#[test]
fn status_sees_a_changed_table_as_untracked() {
    let old = table("public", "users", &[("id", "integer")]);
    let new = table("public", "users", &[("id", "integer"), ("email", "text")]);
    let report = status(&vec![new], &vec![], &vec![old]);
    assert_eq!(names(&report.untracked), vec!["public.users"]);
    assert_eq!(names(&report.removed), vec!["public.users"]);
}

#[test]
fn parse_arguments_stops_at_first_refused() {
    let (keys, err) = parse_arguments(&args(&["a.b", "c.d"]));
    assert_eq!(names(&keys), vec!["a.b", "c.d"]);
    assert!(err.is_none());
    let (keys, err) = parse_arguments(&args(&["a.b", "bad", "c.d"]));
    assert_eq!(names(&keys), vec!["a.b"]);
    assert_eq!(err, Some("Invalid argument provided: bad".to_string()));
}

#[test]
fn unstage_takes_named_tables_out() {
    let staged = vec![
        table("s", "a", &[]),
        table("s", "b", &[]),
        table("t", "a", &[]),
        table("s", "a", &[("x", "int")]),
    ];
    let r = unstage(&args(&["s.a"]), &staged).unwrap();
    assert_eq!(names(&r), vec!["s.b", "t.a"]);
    let again = unstage(&args(&["s.a"]), &r).unwrap();
    assert_eq!(names(&again), names(&r));
}

#[test]
fn unstage_refuses_bad_argument() {
    let staged = vec![table("s", "a", &[])];
    assert_eq!(
        unstage(&args(&["s.a", "oops"]), &staged).unwrap_err(),
        "Invalid argument provided: oops"
    );
}

#[test]
fn stage_adds_a_new_table() {
    let users = table("public", "users", &[("id", "integer")]);
    let orders = table("public", "orders", &[("id", "integer")]);
    let r = stage(&args(&["public.users"]), &vec![users.clone(), orders], &vec![], &vec![]).unwrap();
    assert_eq!(r.len(), 1);
    assert!(r[0] == users);
}

#[test]
fn stage_of_unknown_name_adds_nothing() {
    let users = table("public", "users", &[("id", "integer")]);
    let r = stage(&args(&["public.nobody"]), &vec![users], &vec![], &vec![]).unwrap();
    assert!(r.is_empty());
}

#[test]
fn stage_skips_an_unchanged_committed_table() {
    let users = table("public", "users", &[("id", "integer")]);
    let r = stage(&args(&["public.users"]), &vec![users.clone()], &vec![], &vec![users]).unwrap();
    assert!(r.is_empty());
}

#[test]
fn stage_adds_a_changed_committed_table() {
    let old = table("public", "users", &[("id", "integer")]);
    let new = table("public", "users", &[("id", "integer"), ("email", "text")]);
    let r = stage(&args(&["public.users"]), &vec![new.clone()], &vec![], &vec![old]).unwrap();
    assert_eq!(r.len(), 1);
    assert!(r[0] == new);
}

#[test]
fn stage_refreshes_columns_of_a_staged_table() {
    let old = table("public", "users", &[("id", "integer")]);
    let new = table("public", "users", &[("id", "bigint")]);
    let other = table("public", "orders", &[]);
    let r = stage(
        &args(&["public.users"]),
        &vec![new.clone()],
        &vec![other.clone(), old],
        &vec![],
    )
    .unwrap();
    assert_eq!(r.len(), 2);
    assert!(r[0] == other);
    assert!(r[1] == new);
}

#[test]
fn stage_keeps_previously_staged_tables_after_additions() {
    let a = table("s", "a", &[]);
    let b = table("s", "b", &[]);
    let r = stage(&args(&["s.b"]), &vec![a.clone(), b.clone()], &vec![a.clone()], &vec![]).unwrap();
    assert_eq!(names(&r), vec!["s.b", "s.a"]);
}

#[test]
fn stage_twice_the_same_name_adds_two_copies() {
    let a = table("s", "a", &[]);
    let r = stage(&args(&["s.a", "s.a"]), &vec![a.clone()], &vec![], &vec![]).unwrap();
    assert_eq!(names(&r), vec!["s.a", "s.a"]);
}

#[test]
fn stage_refuses_bad_argument() {
    let a = table("s", "a", &[]);
    assert_eq!(
        stage(&args(&["s.a", "nodot"]), &vec![a], &vec![], &vec![]).unwrap_err(),
        "Invalid argument provided: nodot"
    );
}

#[test]
fn remove_marks_tracked_tables() {
    let a = table("s", "a", &[("id", "int")]);
    let b = table("s", "b", &[]);
    let out = remove(&args(&["s.a", "s.b"]), &vec![a.clone(), b.clone()], &vec![], &vec![a.clone()]);
    assert_eq!(names(&out.not_tracked), vec!["s.b"]);
    let staged = out.staged.unwrap();
    assert_eq!(staged.len(), 1);
    assert!(staged[0] == a);
    assert!(!staged[0].exists);
}

#[test]
fn remove_drops_an_equal_staged_table() {
    let a = table("s", "a", &[]);
    let c = table("s", "c", &[]);
    let out = remove(&args(&["s.a"]), &vec![a.clone()], &vec![a.clone(), c.clone()], &vec![a.clone()]);
    let staged = out.staged.unwrap();
    assert_eq!(names(&staged), vec!["s.a", "s.c"]);
    assert!(!staged[0].exists);
    assert!(staged[1].exists);
}

#[test]
fn remove_reports_before_a_refused_argument() {
    let a = table("s", "a", &[]);
    let out = remove(&args(&["x.y", "bad", "s.a"]), &vec![a.clone()], &vec![], &vec![a]);
    assert_eq!(names(&out.not_tracked), vec!["x.y"]);
    assert_eq!(out.staged.unwrap_err(), "Invalid argument provided: bad");
}

#[test]
fn merge_adds_only_missing_tables() {
    let a = table("s", "a", &[]);
    let b = table("s", "b", &[]);
    let r = append_missing(vec![a.clone()], &vec![b.clone(), a.clone(), b.clone()]);
    assert_eq!(names(&r), vec!["s.a", "s.b"]);
}

#[test]
fn commit_entities_merge_and_drop_removed() {
    let a = table("s", "a", &[]);
    let b = table("s", "b", &[]);
    let mut gone = table("s", "c", &[]);
    gone.exists = false;
    let c = table("s", "c", &[]);
    let r = commit_entities(&vec![gone, a.clone()], &vec![a.clone(), b.clone(), c]);
    assert_eq!(names(&r), vec!["s.a", "s.b"]);
}

#[test]
fn commit_at_appends_a_commit() {
    let a = table("s", "a", &[]);
    let b = table("s", "b", &[]);
    let history = vec![snapshot(vec![b.clone()])];
    let r = commit_at(&vec![a.clone()], history, 42, "abc".to_string()).unwrap();
    assert_eq!(r.len(), 2);
    assert_eq!(r[1].timestamp, 42);
    assert_eq!(r[1].uuid, "abc");
    assert_eq!(names(&r[1].entities), vec!["s.a", "s.b"]);
    assert_eq!(names(&r[0].entities), vec!["s.b"]);
}

#[test]
fn commit_refuses_an_empty_stage() {
    assert_eq!(commit_at(&vec![], vec![], 1, "x".to_string()).unwrap_err(), CommitError::NothingStaged);
    assert_eq!(commit(&vec![], vec![]).unwrap_err(), CommitError::NothingStaged);
}

#[test]
fn commit_stamps_a_random_uuid() {
    let a = table("s", "a", &[]);
    let r = commit(&vec![a.clone()], vec![]).unwrap();
    assert_eq!(r.len(), 1);
    let id = &r[0].uuid;
    assert_eq!(id.len(), 36);
    let chars: Vec<char> = id.chars().collect();
    for (i, c) in chars.iter().enumerate() {
        if i == 8 || i == 13 || i == 18 || i == 23 {
            assert_eq!(*c, '-');
        } else {
            assert!(c.is_ascii_hexdigit() && !c.is_ascii_uppercase());
        }
    }
    assert_eq!(chars[14], '4');
    assert!(matches!(chars[19], '8' | '9' | 'a' | 'b'));
    assert!(r[0].timestamp > 1_600_000_000);
    let again = commit(&vec![a], r).unwrap();
    assert_ne!(again[0].uuid, again[1].uuid);
}

#[test]
fn remove_then_commit_drops_the_table() {
    let a = table("s", "a", &[("id", "int")]);
    let b = table("s", "b", &[]);
    let history = vec![snapshot(vec![a.clone(), b.clone()])];
    let tracked_now = tracked_entities(&history);
    let out = remove(&args(&["s.a"]), &vec![a.clone(), b.clone()], &vec![], &tracked_now);
    let staged = out.staged.unwrap();
    let r = commit_at(&staged, history, 7, "next".to_string()).unwrap();
    assert_eq!(names(&r[1].entities), vec!["s.b"]);
}

#[test]
fn commit_records_only_existing_tables() {
    let a = table("s", "a", &[]);
    let mut gone = table("s", "z", &[]);
    gone.exists = false;
    let r = commit_at(&vec![gone, a], vec![], 1, "u".to_string()).unwrap();
    assert!(r[0].entities.iter().all(|e| e.exists));
    assert_eq!(names(&r[0].entities), vec!["s.a"]);
}
