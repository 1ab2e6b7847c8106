use vstd::prelude::*;

use crate::dbconnector::{Entity, EntityView, entity_views};

verus! {

/// The mathematical value of a [`Commit`].
pub struct CommitView {
    pub entities: Seq<EntityView>,
    pub timestamp: int,
    pub uuid: Seq<char>,
}

/// A recorded state of the tracked tables: the tables, the time of the
/// commit in seconds since the Unix epoch, and the commit's identifier.
#[derive(Debug)]
pub struct Commit {
    pub entities: Vec<Entity>,
    pub timestamp: i64,
    pub uuid: String,
}

impl View for Commit {
    type V = CommitView;

    open spec fn view(&self) -> CommitView {
        CommitView {
            entities: entity_views(self.entities@),
            timestamp: self.timestamp as int,
            uuid: self.uuid@,
        }
    }
}

/// The views of a sequence of commits.
pub open spec fn commit_views(s: Seq<Commit>) -> Seq<CommitView> {
    s.map_values(|c: Commit| c@)
}

/// Appends `tail` to a copy of `dir`.
fn join(dir: &str, tail: &str) -> (r: String)
    ensures
        r@ == dir@ + tail@,
{
    let mut r = String::from_str(dir);
    r.append(tail);
    r
}

/// The repository directory `<dir>/.dgit` of a working directory.
pub fn repo_dir(dir_path: &str) -> (r: String)
    ensures
        r@ == dir_path@ + "/.dgit"@,
{
    join(dir_path, "/.dgit")
}

/// The file `<dir>/.dgit/credentials` that holds the database login.
pub fn credentials_path(dir_path: &str) -> (r: String)
    ensures
        r@ == dir_path@ + "/.dgit/credentials"@,
{
    join(dir_path, "/.dgit/credentials")
}

/// The file `<dir>/.dgit/stage` that holds the staged tables.
pub fn stage_path(dir_path: &str) -> (r: String)
    ensures
        r@ == dir_path@ + "/.dgit/stage"@,
{
    join(dir_path, "/.dgit/stage")
}

/// The file `<dir>/.dgit/commit` that holds the commits.
pub fn commit_path(dir_path: &str) -> (r: String)
    ensures
        r@ == dir_path@ + "/.dgit/commit"@,
{
    join(dir_path, "/.dgit/commit")
}

/// Calls `std::path::Path::exists` on `path`. What it returns depends on the
/// file system at the time of the call, so nothing is stated of it.
#[verifier::external_body]
fn path_exists(path: &str) -> bool {
    std::path::Path::new(path).exists()
}

/// Whether the working directory `dir_path` holds a repository, that is
/// whether `<dir>/.dgit` exists on disk. The answer comes from the file
/// system; the path asked about is `repo_dir(dir_path)`.
pub fn repo_exists(dir_path: &str) -> bool {
    let path = repo_dir(dir_path);
    path_exists(path.as_str())
}

} // verus!
