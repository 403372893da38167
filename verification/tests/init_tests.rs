use rusty_git::commit::commit;
use rusty_git::error::Error;
use rusty_git::init::{build_objects_dir, build_refs_dir, init, initialize_head};
use rusty_git::layout::Layout;
use rusty_git::repository::{resolve_head, Repository};

#[test]
fn test_build_objects_dir() {
    let objects_dir = "test_objects";
    let result = build_objects_dir(objects_dir);
    assert_eq!(result, vec!["test_objects", "test_objects/info", "test_objects/pack"]);
}

#[test]
fn test_build_refs_dir() {
    let refs_dir = "test_refs";
    let result = build_refs_dir(refs_dir);
    assert_eq!(result, vec!["test_refs", "test_refs/heads", "test_refs/tags"]);
}

#[test]
fn test_initialize_head() {
    let refs_dir = "test_refs";
    let (path, content) = initialize_head(refs_dir);
    assert_eq!(path, "test_refs/HEAD");
    assert_eq!(content, "ref: refs/heads/master\n");
}

#[test]
fn test_init() {
    let git_dir = ".gitrust";
    let result = init(&Layout::standard(), false);
    assert!(result.is_ok());
    let plan = result.unwrap();
    assert_eq!(plan.directories[0], git_dir);
    assert_eq!(
        plan.directories,
        vec![
            ".gitrust",
            ".gitrust/objects",
            ".gitrust/objects/info",
            ".gitrust/objects/pack",
            ".gitrust/refs",
            ".gitrust/refs/heads",
            ".gitrust/refs/tags",
        ]
    );
    assert_eq!(plan.head_path, ".gitrust/HEAD");
    assert_eq!(plan.head_content, "ref: refs/heads/master\n");
}

#[test]
fn test_init_already_exists() {
    let result = init(&Layout::standard(), true);
    assert!(result.is_err());
    assert_eq!(result.err().unwrap(), Error::AlreadyInitialized);
}

#[test]
fn the_first_head_names_the_master_branch() {
    let plan = init(&Layout::new("repo".to_string()), false).unwrap();
    assert_eq!(resolve_head(&plan.head_content), Ok("refs/heads/master".to_string()));
    assert_eq!(Repository::new().head, plan.head_content);
}

#[test]
fn bootstrap_then_commit_has_nothing_to_commit() {
    let plan = init(&Layout::standard(), false).unwrap();
    let mut repo = Repository::open(true, plan.head_content, String::new()).unwrap();
    assert_eq!(commit(&mut repo, "message"), Err(Error::NothingToCommit));
    assert_eq!(repo.reference("refs/heads/master"), None);
    assert_eq!(repo.refs.len(), 0);
    assert_eq!(repo.objects.len(), 0);
}
