//! The `git` invocations that record changes of the store.
use vstd::prelude::*;

use crate::text::views;

verus! {

/// The arguments of the two `git` invocations that record a change: one
/// that stages files, one that commits them.
#[derive(Debug)]
pub struct GitSteps {
    pub stage: Vec<String>,
    pub commit: Vec<String>,
}

/// `-C store_dir` followed by a subcommand and its arguments.
pub open spec fn in_store(store_dir: Seq<char>, rest: Seq<Seq<char>>) -> Seq<Seq<char>> {
    seq!["-C"@, store_dir] + rest
}

fn in_store_args(store_dir: &str, subcommand: &str, extra: &Vec<String>) -> (r: Vec<String>)
    ensures
        views(r@) == in_store(store_dir@, seq![subcommand@] + views(extra@)),
{
    let mut r: Vec<String> = Vec::new();
    r.push("-C".to_owned());
    r.push(store_dir.to_owned());
    r.push(subcommand.to_owned());
    let mut i: usize = 0;
    assert(views(extra@).take(0) =~= Seq::<Seq<char>>::empty());
    assert(views(r@) =~= in_store(store_dir@, seq![subcommand@] + views(extra@).take(0)));
    while i < extra.len()
        invariant
            i <= extra@.len(),
            views(r@) == in_store(store_dir@, seq![subcommand@] + views(extra@).take(i as int)),
        decreases extra@.len() - i,
    {
        let ghost before = views(r@);
        r.push(extra[i].clone());
        assert(views(r@) =~= before.push(extra@[i as int]@));
        assert(views(extra@).take(i + 1) =~= views(extra@).take(i as int).push(extra@[i as int]@));
        assert(in_store(store_dir@, seq![subcommand@] + views(extra@).take(i + 1)) =~= before.push(
            extra@[i as int]@,
        ));
        i = i + 1;
    }
    assert(views(extra@).take(i as int) =~= views(extra@));
    r
}

/// The arguments of `git` that initialize a repository in the store directory.
pub fn init(store_dir: &str) -> (r: Vec<String>)
    ensures
        views(r@) == in_store(store_dir@, seq!["init"@]),
{
    let none: Vec<String> = Vec::new();
    let r = in_store_args(store_dir, "init", &none);
    assert(seq!["init"@] + views(none@) =~= seq!["init"@]);
    r
}

fn commit_args(store_dir: &str, message: &str) -> (r: Vec<String>)
    ensures
        views(r@) == in_store(store_dir@, seq!["commit"@, "-m"@, message@]),
{
    let mut extra: Vec<String> = Vec::new();
    extra.push("-m".to_owned());
    extra.push(message.to_owned());
    let r = in_store_args(store_dir, "commit", &extra);
    assert(seq!["commit"@] + views(extra@) =~= seq!["commit"@, "-m"@, message@]);
    r
}

/// The `git` invocations that add files to the store and commit them with
/// the message.
pub fn add_and_commit(store_dir: &str, files: &Vec<String>, message: &str) -> (r: GitSteps)
    ensures
        views(r.stage@) == in_store(store_dir@, seq!["add"@] + views(files@)),
        views(r.commit@) == in_store(store_dir@, seq!["commit"@, "-m"@, message@]),
{
    GitSteps { stage: in_store_args(store_dir, "add", files), commit: commit_args(store_dir, message) }
}

/// The `git` invocations that remove files from the store and commit the
/// removal with the message.
pub fn remove_and_commit(store_dir: &str, files: &Vec<String>, message: &str) -> (r: GitSteps)
    ensures
        views(r.stage@) == in_store(store_dir@, seq!["rm"@] + views(files@)),
        views(r.commit@) == in_store(store_dir@, seq!["commit"@, "-m"@, message@]),
{
    GitSteps { stage: in_store_args(store_dir, "rm", files), commit: commit_args(store_dir, message) }
}

} // verus!
