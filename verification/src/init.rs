//! The bootstrap of a repository: the directories to make and the first
//! `HEAD`.
use crate::error::Error;
use crate::layout::{join, join_path, Layout};
use crate::repository::default_head;
use crate::text::views;
use vstd::prelude::*;

verus! {

/// What a bootstrap makes: the directories, in the order in which they are
/// made, and the `HEAD` file with its content.
#[derive(Debug, PartialEq, Eq)]
pub struct Bootstrap {
    pub directories: Vec<String>,
    pub head_path: String,
    pub head_content: String,
}

/// The objects directory with its reserved `info` and `pack` directories.
pub open spec fn objects_dirs(objects_dir: Seq<char>) -> Seq<Seq<char>> {
    seq![objects_dir, join(objects_dir, "info"@), join(objects_dir, "pack"@)]
}

/// The references directory with its `heads` and `tags` directories.
pub open spec fn refs_dirs(refs_dir: Seq<char>) -> Seq<Seq<char>> {
    seq![refs_dir, join(refs_dir, "heads"@), join(refs_dir, "tags"@)]
}

/// Every directory of a new repository, the repository directory first.
pub open spec fn bootstrap_dirs(git_dir: Seq<char>) -> Seq<Seq<char>> {
    seq![git_dir] + objects_dirs(join(git_dir, "objects"@)) + refs_dirs(join(git_dir, "refs"@))
}

/// The directories to make for the objects, in order.
pub fn build_objects_dir(objects_dir: &str) -> (dirs: Vec<String>)
    ensures
        views(dirs@) == objects_dirs(objects_dir@),
{
    let mut dirs: Vec<String> = Vec::new();
    dirs.push(String::from_str(objects_dir));
    dirs.push(join_path(objects_dir, "info"));
    dirs.push(join_path(objects_dir, "pack"));
    assert(views(dirs@) =~= objects_dirs(objects_dir@));
    dirs
}

/// The directories to make for the references, in order.
pub fn build_refs_dir(refs_dir: &str) -> (dirs: Vec<String>)
    ensures
        views(dirs@) == refs_dirs(refs_dir@),
{
    let mut dirs: Vec<String> = Vec::new();
    dirs.push(String::from_str(refs_dir));
    dirs.push(join_path(refs_dir, "heads"));
    dirs.push(join_path(refs_dir, "tags"));
    assert(views(dirs@) =~= refs_dirs(refs_dir@));
    dirs
}

/// The path of `HEAD` in a repository directory, and the text it starts with.
pub fn initialize_head(git_dir: &str) -> (r: (String, String))
    ensures
        r.0@ == join(git_dir@, "HEAD"@),
        r.1@ == default_head(),
{
    (join_path(git_dir, "HEAD"), String::from_str("ref: refs/heads/master\n"))
}

/// Plans a new repository. Fails where the repository directory is present.
pub fn init(layout: &Layout, present: bool) -> (r: Result<Bootstrap, Error>)
    ensures
        match r {
            Ok(b) => {
                &&& !present
                &&& views(b.directories@) == bootstrap_dirs(layout.git_dir@)
                &&& b.head_path@ == join(layout.git_dir@, "HEAD"@)
                &&& b.head_content@ == default_head()
            },
            Err(e) => present && e == Error::AlreadyInitialized,
        },
{
    if present {
        return Err(Error::AlreadyInitialized);
    }
    let mut directories: Vec<String> = Vec::new();
    directories.push(layout.git_dir.clone());
    let mut objects = build_objects_dir(layout.objects_dir().as_str());
    let mut refs = build_refs_dir(layout.refs_dir().as_str());
    let ghost o = objects@;
    let ghost r = refs@;
    directories.append(&mut objects);
    directories.append(&mut refs);
    let (head_path, head_content) = initialize_head(layout.git_dir.as_str());
    proof {
        assert(directories@ =~= seq![layout.git_dir] + o + r);
        assert(views(o).len() == 3 && views(r).len() == 3);
        assert(views(directories@) =~= bootstrap_dirs(layout.git_dir@));
    }
    Ok(Bootstrap { directories, head_path, head_content })
}

} // verus!
