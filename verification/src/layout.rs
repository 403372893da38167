//! Where a repository keeps its parts on disk. The repository directory is
//! given when a layout is made; every other path is derived from it.
use crate::object::Object;
use vstd::prelude::*;

verus! {

/// The path of `name` inside the directory `dir`.
pub open spec fn join(dir: Seq<char>, name: Seq<char>) -> Seq<char> {
    dir + "/"@ + name
}

/// Joins a directory and a name with a slash.
pub fn join_path(dir: &str, name: &str) -> (path: String)
    ensures
        path@ == join(dir@, name@),
{
    let mut path = String::from_str(dir);
    path.append("/");
    path.append(name);
    path
}

/// The paths of a repository.
#[derive(Debug, PartialEq, Eq)]
pub struct Layout {
    pub git_dir: String,
}

impl Layout {
    pub fn new(git_dir: String) -> (layout: Layout)
        ensures
            layout.git_dir == git_dir,
    {
        Layout { git_dir }
    }

    /// The layout under `.gitrust` in the current directory.
    pub fn standard() -> (layout: Layout)
        ensures
            layout.git_dir@ == ".gitrust"@,
    {
        Layout { git_dir: String::from_str(".gitrust") }
    }

    /// The directory that holds the objects.
    pub fn objects_dir(&self) -> (path: String)
        ensures
            path@ == join(self.git_dir@, "objects"@),
    {
        join_path(self.git_dir.as_str(), "objects")
    }

    /// The directory that holds the references.
    pub fn refs_dir(&self) -> (path: String)
        ensures
            path@ == join(self.git_dir@, "refs"@),
    {
        join_path(self.git_dir.as_str(), "refs")
    }

    /// The file that holds the staging ledger.
    pub fn index_path(&self) -> (path: String)
        ensures
            path@ == join(self.git_dir@, "index"@),
    {
        join_path(self.git_dir.as_str(), "index")
    }

    pub fn head_path(&self) -> (path: String)
        ensures
            path@ == join(self.git_dir@, "HEAD"@),
    {
        join_path(self.git_dir.as_str(), "HEAD")
    }

    /// The scratch file in which the commit message is edited.
    pub fn message_path(&self) -> (path: String)
        ensures
            path@ == join(self.git_dir@, "COMMIT_EDITMSG"@),
    {
        join_path(self.git_dir.as_str(), "COMMIT_EDITMSG")
    }

    /// The file of a reference, given its path relative to the repository
    /// directory.
    pub fn ref_path(&self, name: &str) -> (path: String)
        ensures
            path@ == join(self.git_dir@, name@),
    {
        join_path(self.git_dir.as_str(), name)
    }

    /// The directory of an object: named by the first two characters of its
    /// digest, inside the objects directory. A digest of fewer characters has
    /// no place on disk.
    pub fn object_dir(&self, object: &Object) -> (r: Option<String>)
        ensures
            match r {
                Some(path) => object.digest().len() >= 2 && path@ == join(
                    join(self.git_dir@, "objects"@),
                    object.digest().subrange(0, 2),
                ),
                None => object.digest().len() < 2,
            },
    {
        match object.directory() {
            Some(dir) => Some(join_path(self.objects_dir().as_str(), dir.as_str())),
            None => None,
        }
    }

    /// The file of an object: named by what follows the first two characters
    /// of its digest, inside its directory.
    pub fn object_path(&self, object: &Object) -> (r: Option<String>)
        ensures
            match r {
                Some(path) => object.digest().len() >= 2 && path@ == join(
                    join(join(self.git_dir@, "objects"@), object.digest().subrange(0, 2)),
                    object.digest().subrange(2, object.digest().len() as int),
                ),
                None => object.digest().len() < 2,
            },
    {
        match self.object_dir(object) {
            Some(dir) => match object.file_name() {
                Some(file) => Some(join_path(dir.as_str(), file.as_str())),
                None => None,
            },
            None => None,
        }
    }
}

} // verus!
