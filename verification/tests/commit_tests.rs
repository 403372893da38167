use rusty_git::add::process_file;
use rusty_git::commit::{advance, build_commit, commit, commit_message_template, Stage};
use rusty_git::digest::{generate_sha1, Digest};
use rusty_git::error::Error;
use rusty_git::index::StagingIndex;
use rusty_git::object::{ObjectKind, ObjectStore};
use rusty_git::repository::{clear_index, resolve_head, update_ref, Repository};

const HELLO: &str = "aaf4c61ddcc5e8a2dabede0f3b482cd9aea9434d";
const TREE: &str = "9c7e48d50e43f144c1cd5a02526ebbece9eb9928";
const COMMIT: &str = "53530676365c77b7049acef05a29ea102aa783bd";

fn digest(hex: &str) -> Digest {
    Digest::new(hex.to_string())
}

#[test]
fn commit_with_nothing_staged_fails_and_touches_nothing() {
    let mut repo = Repository::new();
    assert_eq!(commit(&mut repo, "message"), Err(Error::NothingToCommit));
    assert_eq!(repo.objects.len(), 0);
    assert_eq!(repo.refs.len(), 0);
    assert_eq!(repo.reference("refs/heads/master"), None);
    assert_eq!(repo.index.text(), "");
    assert_eq!(repo.head, "ref: refs/heads/master\n");
}

#[test]
fn commit_with_only_malformed_lines_has_nothing_to_commit() {
    let mut repo = Repository::new();
    repo.index = StagingIndex::from_text("one\nthree fields here\n".to_string());
    let other = repo.objects.put(ObjectKind::Blob, b"kept").unwrap();
    assert_eq!(commit(&mut repo, "message"), Err(Error::NothingToCommit));
    assert_eq!(repo.objects.len(), 1);
    assert!(repo.objects.contains(&other));
    assert_eq!(repo.refs.len(), 0);
    assert_eq!(repo.index.text(), "one\nthree fields here\n");
}

#[test]
fn stage_hello_then_commit() {
    let mut repo = Repository::new();
    let blob = process_file(&mut repo, "a.txt", b"hello").unwrap();
    assert_eq!(blob.hex, HELLO);
    let commit_digest = commit(&mut repo, "first commit").unwrap();

    assert_eq!(repo.objects.get(&blob).unwrap(), b"hello".to_vec());
    let tree_text = format!("blob {} a.txt\n", HELLO);
    assert_eq!(repo.objects.get(&digest(TREE)).unwrap(), tree_text.into_bytes());
    let commit_text = format!("tree {}\nauthor user\n\nfirst commit\n", TREE);
    assert_eq!(commit_digest.hex, COMMIT);
    assert_eq!(repo.objects.get(&commit_digest).unwrap(), commit_text.into_bytes());
    assert_eq!(repo.objects.stored(&blob).unwrap().kind, ObjectKind::Blob);
    assert_eq!(repo.objects.stored(&digest(TREE)).unwrap().kind, ObjectKind::Tree);
    assert_eq!(repo.objects.stored(&commit_digest).unwrap().kind, ObjectKind::Commit);
    assert_eq!(repo.objects.len(), 3);

    assert_eq!(repo.reference("refs/heads/master"), Some(&commit_digest));
    assert_eq!(repo.refs.len(), 1);
    assert_eq!(repo.index.text(), "");
    assert_eq!(repo.index.read_all(), vec![]);
}

#[test]
fn after_a_commit_the_branch_holds_the_commit_and_the_ledger_is_empty() {
    let mut repo = Repository::new();
    repo.head = "ref: refs/heads/topic\n".to_string();
    process_file(&mut repo, "a.txt", b"one").unwrap();
    let first = commit(&mut repo, "one").unwrap();
    assert_eq!(repo.reference("refs/heads/topic"), Some(&first));
    assert!(repo.index.is_empty());
    assert_eq!(commit(&mut repo, "again"), Err(Error::NothingToCommit));

    process_file(&mut repo, "a.txt", b"two").unwrap();
    let second = commit(&mut repo, "two").unwrap();
    assert_ne!(first, second);
    assert_eq!(repo.reference("refs/heads/topic"), Some(&second));
    assert_eq!(repo.refs.len(), 1);
    assert_eq!(repo.reference("refs/heads/master"), None);
    assert!(repo.index.is_empty());
}

#[test]
fn a_commit_without_a_message_leaves_ledger_and_branch_as_they_were() {
    let mut repo = Repository::new();
    process_file(&mut repo, "a.txt", b"one").unwrap();
    let first = commit(&mut repo, "one").unwrap();
    process_file(&mut repo, "b.txt", b"two").unwrap();
    let ledger = repo.index.text().to_string();

    let stage = advance(&mut repo, Stage::Idle, None).unwrap();
    assert_eq!(stage, Stage::Validating);
    let stage = advance(&mut repo, stage, None).unwrap();
    assert_eq!(stage, Stage::BuildingTree);
    let stage = advance(&mut repo, stage, None).unwrap();
    assert!(stage.needs_message());
    assert_eq!(advance(&mut repo, stage, None), Err(Error::IOFailure));

    assert_eq!(repo.index.text(), ledger);
    assert_eq!(repo.reference("refs/heads/master"), Some(&first));
    assert_eq!(repo.refs.len(), 1);

    let second = commit(&mut repo, "two").unwrap();
    assert_eq!(repo.reference("refs/heads/master"), Some(&second));
    assert!(repo.index.is_empty());
}

#[test]
fn a_head_that_names_no_branch_fails_the_commit_and_keeps_the_ledger() {
    let mut repo = Repository::new();
    repo.head = format!("{}\n", COMMIT);
    process_file(&mut repo, "a.txt", b"hello").unwrap();
    let ledger = repo.index.text().to_string();
    assert_eq!(commit(&mut repo, "first commit"), Err(Error::RefResolutionFailed));
    assert_eq!(repo.index.text(), ledger);
    assert_eq!(repo.refs.len(), 0);
    assert!(repo.objects.contains(&digest(COMMIT)));
}

#[test]
fn the_stages_follow_one_another() {
    let mut repo = Repository::new();
    process_file(&mut repo, "a.txt", b"hello").unwrap();
    let stage = advance(&mut repo, Stage::Idle, None).unwrap();
    assert_eq!(stage, Stage::Validating);
    assert!(!stage.needs_message());
    let stage = advance(&mut repo, stage, None).unwrap();
    assert_eq!(stage, Stage::BuildingTree);
    let stage = advance(&mut repo, stage, None).unwrap();
    assert_eq!(stage, Stage::BuildingCommit { root: digest(TREE) });
    assert!(stage.needs_message());
    assert_eq!(repo.refs.len(), 0);
    let stage = advance(&mut repo, stage, Some("first commit")).unwrap();
    assert_eq!(stage, Stage::UpdatingRef { commit: digest(COMMIT) });
    assert_eq!(repo.refs.len(), 0);
    assert!(!repo.index.is_empty());
    let stage = advance(&mut repo, stage, None).unwrap();
    assert_eq!(stage, Stage::ClearingIndex { commit: digest(COMMIT) });
    assert_eq!(repo.reference("refs/heads/master"), Some(&digest(COMMIT)));
    assert!(!repo.index.is_empty());
    assert_eq!(stage.finished(), None);
    let stage = advance(&mut repo, stage, None).unwrap();
    assert_eq!(stage, Stage::Done { commit: digest(COMMIT) });
    assert_eq!(stage.finished(), Some(&digest(COMMIT)));
    assert!(repo.index.is_empty());
    let stage = advance(&mut repo, stage, None).unwrap();
    assert_eq!(stage, Stage::Done { commit: digest(COMMIT) });
}

#[test]
fn commit_text_is_tree_author_blank_line_message() {
    let mut store = ObjectStore::new();
    let d = build_commit(&digest(TREE), "# Title\n# Body", &mut store).unwrap();
    let text = format!("tree {}\nauthor user\n\n# Title\n# Body\n", TREE);
    assert_eq!(d, generate_sha1(text.as_bytes()));
    assert_eq!(store.get(&d).unwrap(), text.into_bytes());
    let empty = build_commit(&digest(TREE), "", &mut store).unwrap();
    assert_eq!(
        store.get(&empty).unwrap(),
        format!("tree {}\nauthor user\n\n\n", TREE).into_bytes()
    );
}

#[test]
fn message_template_has_two_lines() {
    assert_eq!(commit_message_template(), "# Title\n# Body");
}

#[test]
fn head_names_a_branch_only_in_its_proper_form() {
    assert_eq!(resolve_head("ref: refs/heads/master\n"), Ok("refs/heads/master".to_string()));
    assert_eq!(resolve_head("  ref:\trefs/heads/x  "), Ok("refs/heads/x".to_string()));
    assert_eq!(resolve_head(""), Err(Error::RefResolutionFailed));
    assert_eq!(resolve_head(COMMIT), Err(Error::RefResolutionFailed));
    assert_eq!(resolve_head("ref:"), Err(Error::RefResolutionFailed));
    assert_eq!(resolve_head("ref: a b"), Err(Error::RefResolutionFailed));
    assert_eq!(resolve_head("branch: refs/heads/master"), Err(Error::RefResolutionFailed));
}

#[test]
fn update_ref_overwrites_the_active_branch() {
    let mut repo = Repository::new();
    assert_eq!(update_ref(&mut repo, &digest(HELLO)), Ok(()));
    assert_eq!(repo.reference("refs/heads/master"), Some(&digest(HELLO)));
    assert_eq!(update_ref(&mut repo, &digest(TREE)), Ok(()));
    assert_eq!(repo.reference("refs/heads/master"), Some(&digest(TREE)));
    assert_eq!(repo.refs.len(), 1);
    repo.head = "detached".to_string();
    assert_eq!(update_ref(&mut repo, &digest(COMMIT)), Err(Error::RefResolutionFailed));
    assert_eq!(repo.reference("refs/heads/master"), Some(&digest(TREE)));
}

#[test]
fn clear_index_empties_the_ledger_only() {
    let mut repo = Repository::new();
    process_file(&mut repo, "a.txt", b"hello").unwrap();
    update_ref(&mut repo, &digest(COMMIT)).unwrap();
    clear_index(&mut repo);
    assert_eq!(repo.index.text(), "");
    assert_eq!(repo.objects.len(), 1);
    assert_eq!(repo.reference("refs/heads/master"), Some(&digest(COMMIT)));
}

#[test]
fn error_messages_are_plain_text() {
    assert_eq!(Error::NothingToCommit.message(), "Nothing to commit");
    assert_eq!(Error::AlreadyInitialized.message(), "Already a git repository");
    assert_eq!(
        Error::RepositoryNotInitialized.message(),
        "Not an initialized rusty_git repository"
    );
    assert_eq!(
        Error::PathNotFound.message(),
        "The specified file or directory does not exist"
    );
    assert_eq!(Error::ObjectNotFound.message(), "Object not found");
    assert_eq!(Error::RefResolutionFailed.message(), "HEAD does not name a branch");
    assert_eq!(Error::IOFailure.message(), "I/O failure");
}
