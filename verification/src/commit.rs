//! Commits: sealing the staged snapshot into a commit object, pointing the
//! active branch at it, and emptying the staging ledger.
//!
//! The message of a commit comes from outside (an editor that the caller
//! runs). The work is therefore cut into stages: `advance` does the work of one
//! stage on the repository in memory, and the caller fetches the message when
//! the stage that needs it is reached.
use crate::digest::{digest_of, Digest};
use crate::error::Error;
use crate::index::{records, EntryView};
use crate::object::{storable, stored_form, ObjectKind, ObjectStore, ObjectView};
use crate::repository::{clear_index, head_branch, update_ref, Repository};
use crate::text::{text_bytes, to_bytes};
use crate::tree::{build_tree, index_tree, store_tree, tree_digest, tree_of, tree_storable};
use vstd::prelude::*;

verus! {

/// The author that every commit names.
pub open spec fn committer() -> Seq<char> {
    "user"@
}

/// The text that the message file holds before the editor is run.
pub open spec fn message_template() -> Seq<char> {
    "# Title\n# Body"@
}

/// The text of a commit object: the root tree, the author, an empty line,
/// and the message.
pub open spec fn commit_text(tree: Seq<char>, author: Seq<char>, message: Seq<char>) -> Seq<
    char,
> {
    "tree "@ + tree + "\n"@ + "author "@ + author + "\n"@ + "\n"@ + message + "\n"@
}

/// The payload of the commit that seals a root tree with a message.
pub open spec fn commit_payload(tree: Seq<char>, message: Seq<char>) -> Seq<u8> {
    text_bytes(commit_text(tree, committer(), message))
}

/// The text to put into the message file before the editor is run.
pub fn commit_message_template() -> (s: String)
    ensures
        s@ == message_template(),
{
    String::from_str("# Title\n# Body")
}

/// Writes the commit object that seals a root tree with a message, and
/// returns its digest. The message is taken as it is.
pub fn build_commit(tree: &Digest, message: &str, store: &mut ObjectStore) -> (r: Result<
    Digest,
    Error,
>)
    ensures
        match r {
            Ok(d) => {
                &&& storable(commit_payload(tree@, message@))
                &&& d@ == digest_of(commit_payload(tree@, message@))
                &&& final(store)@ == old(store)@.insert(
                    d@,
                    stored_form(ObjectKind::Commit, commit_payload(tree@, message@)),
                )
            },
            Err(e) => {
                &&& e == Error::IOFailure
                &&& !storable(commit_payload(tree@, message@))
                &&& final(store)@ == old(store)@
            },
        },
{
    let mut text = String::from_str("tree ");
    text.append(tree.as_str());
    text.append("\n");
    text.append("author ");
    text.append("user");
    text.append("\n");
    text.append("\n");
    text.append(message);
    text.append("\n");
    assert(text@ =~= commit_text(tree@, committer(), message@));
    let payload = to_bytes(text.as_str());
    store.put(ObjectKind::Commit, payload.as_slice())
}

/// The stages of a commit, in order. A stage names the work that is done next.
#[derive(Debug, PartialEq, Eq)]
pub enum Stage {
    Idle,
    Validating,
    BuildingTree,
    /// The root tree is written; the commit object needs the message.
    BuildingCommit { root: Digest },
    UpdatingRef { commit: Digest },
    ClearingIndex { commit: Digest },
    Done { commit: Digest },
}

/// A stage as the contracts see it.
pub ghost enum StageView {
    Idle,
    Validating,
    BuildingTree,
    BuildingCommit { root: Seq<char> },
    UpdatingRef { commit: Seq<char> },
    ClearingIndex { commit: Seq<char> },
    Done { commit: Seq<char> },
}

impl View for Stage {
    type V = StageView;

    open spec fn view(&self) -> StageView {
        match self {
            Stage::Idle => StageView::Idle,
            Stage::Validating => StageView::Validating,
            Stage::BuildingTree => StageView::BuildingTree,
            Stage::BuildingCommit { root } => StageView::BuildingCommit { root: root@ },
            Stage::UpdatingRef { commit } => StageView::UpdatingRef { commit: commit@ },
            Stage::ClearingIndex { commit } => StageView::ClearingIndex { commit: commit@ },
            Stage::Done { commit } => StageView::Done { commit: commit@ },
        }
    }
}

/// The root directory that the ledger of a repository stands for.
pub open spec fn staged_tree(ledger: Seq<char>) -> Seq<crate::tree::ChildView> {
    tree_of(records(ledger))
}

impl Stage {
    /// Whether the work of this stage needs the commit message.
    pub fn needs_message(&self) -> (r: bool)
        ensures
            r == (self@ is BuildingCommit),
    {
        match self {
            Stage::BuildingCommit { .. } => true,
            _ => false,
        }
    }

    /// The commit that was published, once the last stage is reached.
    pub fn finished(&self) -> (r: Option<&Digest>)
        ensures
            match r {
                Some(d) => self@ == (StageView::Done { commit: d@ }),
                None => !(self@ is Done),
            },
    {
        match self {
            Stage::Done { commit } => Some(commit),
            _ => None,
        }
    }
}

/// Does the work of one stage and returns the stage that follows. A failure
/// ends the commit; the ledger is emptied only by the last stage, after
/// every other stage has succeeded, and the branch is moved only after the
/// commit object was written.
///
/// `message` is read by the stage that builds the commit object; `None`
/// there says that no message could be had, which fails the commit.
pub fn advance(repo: &mut Repository, stage: Stage, message: Option<&str>) -> (r: Result<
    Stage,
    Error,
>)
    ensures
        final(repo).head@ == old(repo).head@,
        r is Err ==> final(repo).index@ == old(repo).index@ && final(repo).refs@ == old(
            repo,
        ).refs@,
        forall|k: Seq<char>|
            old(repo).objects@.contains_key(k) ==> final(repo).objects@.contains_key(k),
        match stage@ {
            StageView::Idle => {
                &&& r matches Ok(next) && next@ == StageView::Validating
                &&& final(repo).objects@ == old(repo).objects@
                &&& final(repo).index@ == old(repo).index@
                &&& final(repo).refs@ == old(repo).refs@
            },
            StageView::Validating => {
                &&& final(repo).objects@ == old(repo).objects@
                &&& final(repo).index@ == old(repo).index@
                &&& final(repo).refs@ == old(repo).refs@
                &&& match r {
                    Ok(next) => next@ == StageView::BuildingTree && records(old(repo).index@).len()
                        > 0,
                    Err(e) => e == Error::NothingToCommit && records(old(repo).index@).len() == 0,
                }
            },
            StageView::BuildingTree => {
                &&& final(repo).index@ == old(repo).index@
                &&& final(repo).refs@ == old(repo).refs@
                &&& final(repo).objects@ == store_tree(
                    old(repo).objects@,
                    staged_tree(old(repo).index@),
                )
                &&& match r {
                    Ok(next) => {
                        &&& tree_storable(staged_tree(old(repo).index@))
                        &&& next@ == StageView::BuildingCommit {
                            root: tree_digest(staged_tree(old(repo).index@)),
                        }
                    },
                    Err(e) => e == Error::IOFailure && !tree_storable(
                        staged_tree(old(repo).index@),
                    ),
                }
            },
            StageView::BuildingCommit { root } => {
                &&& final(repo).index@ == old(repo).index@
                &&& final(repo).refs@ == old(repo).refs@
                &&& match r {
                    Ok(next) => {
                        &&& message matches Some(m)
                        &&& storable(commit_payload(root, m@))
                        &&& next@ == StageView::UpdatingRef {
                            commit: digest_of(commit_payload(root, m@)),
                        }
                        &&& final(repo).objects@ == old(repo).objects@.insert(
                            digest_of(commit_payload(root, m@)),
                            stored_form(ObjectKind::Commit, commit_payload(root, m@)),
                        )
                    },
                    Err(e) => {
                        &&& e == Error::IOFailure
                        &&& final(repo).objects@ == old(repo).objects@
                        &&& message matches Some(m) ==> !storable(commit_payload(root, m@))
                    },
                }
            },
            StageView::UpdatingRef { commit } => {
                &&& final(repo).objects@ == old(repo).objects@
                &&& final(repo).index@ == old(repo).index@
                &&& match r {
                    Ok(next) => {
                        &&& next@ == StageView::ClearingIndex { commit }
                        &&& head_branch(old(repo).head@) matches Some(name)
                        &&& final(repo).refs@.contains_key(name)
                        &&& final(repo).refs@[name]@ == commit
                        &&& final(repo).refs@.remove(name) == old(repo).refs@.remove(name)
                    },
                    Err(e) => e == Error::RefResolutionFailed && head_branch(old(repo).head@)
                        is None,
                }
            },
            StageView::ClearingIndex { commit } => {
                &&& r matches Ok(next) && next@ == StageView::Done { commit }
                &&& final(repo).objects@ == old(repo).objects@
                &&& final(repo).refs@ == old(repo).refs@
                &&& final(repo).index@ == Seq::<char>::empty()
            },
            StageView::Done { commit } => {
                &&& r matches Ok(next) && next@ == StageView::Done { commit }
                &&& final(repo).objects@ == old(repo).objects@
                &&& final(repo).index@ == old(repo).index@
                &&& final(repo).refs@ == old(repo).refs@
            },
        },
{
    match stage {
        Stage::Idle => Ok(Stage::Validating),
        Stage::Validating => {
            if repo.index.is_empty() {
                Err(Error::NothingToCommit)
            } else {
                Ok(Stage::BuildingTree)
            }
        },
        Stage::BuildingTree => {
            let tree = index_tree(&repo.index);
            match build_tree(&tree, &mut repo.objects) {
                Ok(root) => Ok(Stage::BuildingCommit { root }),
                Err(e) => Err(e),
            }
        },
        Stage::BuildingCommit { root } => {
            match message {
                Some(m) => match build_commit(&root, m, &mut repo.objects) {
                    Ok(commit) => Ok(Stage::UpdatingRef { commit }),
                    Err(e) => Err(e),
                },
                None => Err(Error::IOFailure),
            }
        },
        Stage::UpdatingRef { commit } => {
            match update_ref(repo, &commit) {
                Ok(_) => {
                    proof {
                        let name = head_branch(old(repo).head@)->0;
                        assert(repo.refs@.remove(name) =~= old(repo).refs@.remove(name));
                    }
                    Ok(Stage::ClearingIndex { commit })
                },
                Err(e) => Err(e),
            }
        },
        Stage::ClearingIndex { commit } => {
            clear_index(repo);
            Ok(Stage::Done { commit })
        },
        Stage::Done { commit } => Ok(Stage::Done { commit }),
    }
}

/// The failure of a commit on a ledger and a `HEAD` with a message, or `None`
/// where the commit goes through: an empty ledger comes first, then a tree or
/// a commit object that cannot be stored, then a `HEAD` that names no branch.
pub open spec fn commit_failure(ledger: Seq<char>, head: Seq<char>, message: Seq<char>) -> Option<
    Error,
> {
    let root = staged_tree(ledger);
    if records(ledger).len() == 0 {
        Some(Error::NothingToCommit)
    } else if !tree_storable(root) {
        Some(Error::IOFailure)
    } else if !storable(commit_payload(tree_digest(root), message)) {
        Some(Error::IOFailure)
    } else if head_branch(head) is None {
        Some(Error::RefResolutionFailed)
    } else {
        None
    }
}

/// The objects after a commit was tried: with nothing staged, as before;
/// else with the tree objects as far as they could be written and, if all of
/// them were, with the commit object if it can be stored.
pub open spec fn committed_objects(
    objects: Map<Seq<char>, ObjectView>,
    ledger: Seq<char>,
    message: Seq<char>,
) -> Map<Seq<char>, ObjectView> {
    let root = staged_tree(ledger);
    let payload = commit_payload(tree_digest(root), message);
    if records(ledger).len() == 0 {
        objects
    } else if tree_storable(root) && storable(payload) {
        store_tree(objects, root).insert(
            digest_of(payload),
            stored_form(ObjectKind::Commit, payload),
        )
    } else {
        store_tree(objects, root)
    }
}

/// Publishes what is staged, with the given message: writes the tree objects
/// and the commit object, points the active branch at the commit, and empties
/// the ledger. Returns the digest of the commit.
///
/// On any failure the ledger and the references are as they were, so that the
/// commit can be tried again. With nothing staged the repository is untouched.
pub fn commit(repo: &mut Repository, message: &str) -> (r: Result<Digest, Error>)
    ensures
        final(repo).head@ == old(repo).head@,
        final(repo).objects@ == committed_objects(
            old(repo).objects@,
            old(repo).index@,
            message@,
        ),
        forall|k: Seq<char>|
            old(repo).objects@.contains_key(k) ==> final(repo).objects@.contains_key(k),
        match r {
            Ok(commit) => {
                let root = staged_tree(old(repo).index@);
                &&& commit_failure(old(repo).index@, old(repo).head@, message@) is None
                &&& commit@ == digest_of(commit_payload(tree_digest(root), message@))
                &&& head_branch(old(repo).head@) matches Some(name)
                &&& final(repo).refs@.contains_key(name)
                &&& final(repo).refs@[name]@ == commit@
                &&& final(repo).refs@.remove(name) == old(repo).refs@.remove(name)
                &&& final(repo).index@ == Seq::<char>::empty()
                &&& records(final(repo).index@) == Seq::<EntryView>::empty()
            },
            Err(e) => {
                &&& commit_failure(old(repo).index@, old(repo).head@, message@) == Some(e)
                &&& final(repo).index@ == old(repo).index@
                &&& final(repo).refs@ == old(repo).refs@
            },
        },
{
    let stage = advance(repo, Stage::Idle, None)?;
    let stage = advance(repo, stage, None)?;
    let stage = advance(repo, stage, None)?;
    let stage = advance(repo, stage, Some(message))?;
    let stage = advance(repo, stage, None)?;
    let stage = advance(repo, stage, None)?;
    proof {
        crate::index::lemma_records_empty();
        assert(stage@ is Done);
    }
    match stage {
        Stage::Done { commit } => Ok(commit),
        _ => Err(Error::IOFailure),
    }
}

} // verus!
