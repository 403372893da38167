//! The state of a repository, held in memory: its objects, its staging
//! ledger, the text of `HEAD`, and its references.
use crate::digest::Digest;
use crate::error::Error;
use crate::index::StagingIndex;
use crate::object::{ObjectStore, ObjectView};
use crate::table::Table;
use crate::text::{
    fields, lemma_drop_empty_push, lemma_split_free, lemma_split_join, split, split_fields, views,
    Separator,
};
use vstd::prelude::*;

verus! {

/// A repository. A reference is kept under its path relative to the
/// repository directory, such as `refs/heads/master`.
pub struct Repository {
    pub objects: ObjectStore,
    pub index: StagingIndex,
    pub head: String,
    pub refs: Table<Digest>,
}

/// The text that `HEAD` holds in a new repository.
pub open spec fn default_head() -> Seq<char> {
    "ref: refs/heads/master\n"@
}

/// The reference that `HEAD` names: `HEAD` holds the word `ref:` and the
/// path of a reference, and nothing else.
pub open spec fn head_branch(head: Seq<char>) -> Option<Seq<char>> {
    let f = fields(head);
    if f.len() == 2 && f[0] == "ref:"@ {
        Some(f[1])
    } else {
        None
    }
}

/// Finds the reference that `HEAD` names.
pub fn resolve_head(head: &str) -> (r: Result<String, Error>)
    ensures
        match r {
            Ok(name) => head_branch(head@) == Some(name@),
            Err(e) => e == Error::RefResolutionFailed && head_branch(head@) is None,
        },
{
    let parts = split_fields(head);
    assert(views(parts@).len() == parts@.len());
    if parts.len() == 2 {
        assert(views(parts@)[0] == parts@[0]@);
        assert(views(parts@)[1] == parts@[1]@);
        if crate::text::same_text(parts[0].as_str(), "ref:") {
            return Ok(parts[1].clone());
        }
    }
    Err(Error::RefResolutionFailed)
}

/// The `HEAD` of a new repository names the branch `refs/heads/master`.
pub proof fn lemma_default_head_names_master()
    ensures
        head_branch(default_head()) == Some("refs/heads/master"@),
{
    reveal_strlit("ref: refs/heads/master\n");
    reveal_strlit("ref:");
    reveal_strlit("refs/heads/master");
    let a = "ref:"@;
    let b = "refs/heads/master"@;
    let e = Seq::<char>::empty();
    let none = Seq::<Seq<char>>::empty();
    let ws = Separator::Whitespace;
    assert(default_head() =~= a + seq![' '] + (b + seq!['\n'] + e));
    lemma_split_join(a, ' ', b + seq!['\n'] + e, ws);
    lemma_split_join(b, '\n', e, ws);
    lemma_split_free(a, ws);
    lemma_split_free(b, ws);
    lemma_split_free(e, ws);
    assert(split(default_head(), ws) =~= none.push(a).push(b).push(e));
    lemma_drop_empty_push(none, a);
    lemma_drop_empty_push(none.push(a), b);
    lemma_drop_empty_push(none.push(a).push(b), e);
}

impl Repository {
    /// A new repository: no object, nothing staged, no reference yet, and
    /// `HEAD` naming the default branch.
    pub fn new() -> (repo: Repository)
        ensures
            repo.objects@ == Map::<Seq<char>, ObjectView>::empty(),
            repo.index@ == Seq::<char>::empty(),
            repo.head@ == default_head(),
            repo.refs@ == Map::<Seq<char>, Digest>::empty(),
    {
        Repository {
            objects: ObjectStore::new(),
            index: StagingIndex::new(),
            head: String::from_str("ref: refs/heads/master\n"),
            refs: Table::new(),
        }
    }

    /// The repository whose `HEAD` and ledger hold the given texts, with no
    /// object and no reference loaded. Fails where the repository directory
    /// is not present.
    pub fn open(present: bool, head: String, ledger: String) -> (r: Result<Repository, Error>)
        ensures
            match r {
                Ok(repo) => {
                    &&& present
                    &&& repo.objects@ == Map::<Seq<char>, ObjectView>::empty()
                    &&& repo.index@ == ledger@
                    &&& repo.head@ == head@
                    &&& repo.refs@ == Map::<Seq<char>, Digest>::empty()
                },
                Err(e) => !present && e == Error::RepositoryNotInitialized,
            },
    {
        if !present {
            return Err(Error::RepositoryNotInitialized);
        }
        Ok(
            Repository {
                objects: ObjectStore::new(),
                index: StagingIndex::from_text(ledger),
                head,
                refs: Table::new(),
            },
        )
    }

    /// The commit that a reference points to.
    pub fn reference(&self, name: &str) -> (r: Option<&Digest>)
        ensures
            match r {
                Some(d) => self.refs@.contains_key(name@) && *d == self.refs@[name@],
                None => !self.refs@.contains_key(name@),
            },
    {
        self.refs.get(name)
    }
}

/// Points the branch that `HEAD` names at a commit, in place of what it
/// pointed at.
pub fn update_ref(repo: &mut Repository, commit: &Digest) -> (r: Result<(), Error>)
    ensures
        final(repo).objects == old(repo).objects,
        final(repo).index == old(repo).index,
        final(repo).head == old(repo).head,
        match r {
            Ok(_) => head_branch(old(repo).head@) matches Some(name) && final(repo).refs@ == old(
                repo,
            ).refs@.insert(name, *commit),
            Err(e) => e == Error::RefResolutionFailed && head_branch(old(repo).head@) is None
                && final(repo).refs == old(repo).refs,
        },
{
    match resolve_head(repo.head.as_str()) {
        Ok(name) => {
            repo.refs.insert(name, commit.clone());
            Ok(())
        },
        Err(e) => Err(e),
    }
}

/// Empties the staging ledger.
pub fn clear_index(repo: &mut Repository)
    ensures
        final(repo).objects == old(repo).objects,
        final(repo).head == old(repo).head,
        final(repo).refs == old(repo).refs,
        final(repo).index@ == Seq::<char>::empty(),
{
    repo.index.clear();
}

} // verus!
