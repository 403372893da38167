use rusty_git::digest::{generate_sha1, Digest};
use rusty_git::index::{StagedEntry, StagingIndex};
use rusty_git::object::{ObjectKind, ObjectStore};
use rusty_git::names::{compare_names, NameOrder};
use rusty_git::tree::{build_tree, index_tree, TreeChild, TreeNode};

const D1: &str = "aaf4c61ddcc5e8a2dabede0f3b482cd9aea9434d";
const D2: &str = "7c211433f02071597741e6ff5a8ea34789abbf43";

fn staged(entries: &[(&str, &str)]) -> StagingIndex {
    let mut index = StagingIndex::new();
    for (digest, path) in entries {
        index.append(&StagedEntry::new(Digest::new(digest.to_string()), path.to_string()));
    }
    index
}

fn blob(name: &str, digest: &str) -> TreeChild {
    TreeChild { name: name.to_string(), node: TreeNode::Blob(Digest::new(digest.to_string())) }
}

fn dir(name: &str, children: Vec<TreeChild>) -> TreeChild {
    TreeChild { name: name.to_string(), node: TreeNode::Tree(children) }
}

#[test]
fn a_path_becomes_nested_directories() {
    let tree = index_tree(&staged(&[(D1, "a/b/c.txt")]));
    assert_eq!(tree, vec![dir("a", vec![dir("b", vec![blob("c.txt", D1)])])]);
}

#[test]
fn root_tree_holds_a_blob_and_a_subtree() {
    let tree = index_tree(&staged(&[(D1, "a.txt"), (D2, "dir/b.txt")]));
    assert_eq!(tree, vec![blob("a.txt", D1), dir("dir", vec![blob("b.txt", D2)])]);

    let mut store = ObjectStore::new();
    let root = build_tree(&tree, &mut store).unwrap();
    let sub_text = format!("blob {} b.txt\n", D2);
    let sub = generate_sha1(sub_text.as_bytes());
    assert_eq!(sub.hex, "2cfbf6de16d5953526459c5feea3b8300b52c636");
    let root_text = format!("blob {} a.txt\ntree {} dir\n", D1, sub.hex);
    assert_eq!(root.hex, "13c0ae71be3b66cf44eeb3acc99361dd91e285c2");
    assert_eq!(store.get(&root).unwrap(), root_text.into_bytes());
    assert_eq!(store.get(&sub).unwrap(), sub_text.into_bytes());
    assert_eq!(store.stored(&root).unwrap().kind, ObjectKind::Tree);
    assert_eq!(store.len(), 2);
}

#[test]
fn children_are_kept_in_the_order_of_their_names() {
    let one = index_tree(&staged(&[(D1, "b"), (D2, "a"), (D1, "c/y"), (D2, "c/x"), (D1, "B")]));
    let two = index_tree(&staged(&[(D2, "c/x"), (D1, "B"), (D1, "c/y"), (D1, "b"), (D2, "a")]));
    let expected = vec![
        blob("B", D1),
        blob("a", D2),
        blob("b", D1),
        dir("c", vec![blob("x", D2), blob("y", D1)]),
    ];
    assert_eq!(one, expected);
    assert_eq!(two, expected);
    let mut s1 = ObjectStore::new();
    let mut s2 = ObjectStore::new();
    assert_eq!(build_tree(&one, &mut s1).unwrap(), build_tree(&two, &mut s2).unwrap());
}

#[test]
fn staging_a_path_again_replaces_its_blob() {
    let tree = index_tree(&staged(&[(D1, "dir/a.txt"), (D2, "dir/a.txt")]));
    assert_eq!(tree, vec![dir("dir", vec![blob("a.txt", D2)])]);
}

#[test]
fn a_later_entry_replaces_a_file_by_a_directory_and_back() {
    let tree = index_tree(&staged(&[(D1, "a"), (D2, "a/b")]));
    assert_eq!(tree, vec![dir("a", vec![blob("b", D2)])]);
    let tree = index_tree(&staged(&[(D1, "a/b"), (D1, "a/c"), (D2, "a")]));
    assert_eq!(tree, vec![blob("a", D2)]);
}

#[test]
fn empty_segments_are_names_too() {
    let tree = index_tree(&staged(&[(D1, "/a"), (D2, "x//y")]));
    assert_eq!(
        tree,
        vec![dir("", vec![blob("a", D1)]), dir("x", vec![dir("", vec![blob("y", D2)])])]
    );
}

#[test]
fn an_empty_ledger_gives_an_empty_root() {
    let tree = index_tree(&StagingIndex::new());
    assert_eq!(tree, vec![]);
    let mut store = ObjectStore::new();
    let root = build_tree(&tree, &mut store).unwrap();
    assert_eq!(root.hex, "da39a3ee5e6b4b0d3255bfef95601890afd80709");
    assert_eq!(store.get(&root).unwrap(), Vec::<u8>::new());
}

#[test]
fn building_a_tree_keeps_the_objects_already_stored() {
    let mut store = ObjectStore::new();
    let blob_digest = store.put(ObjectKind::Blob, b"hello").unwrap();
    let tree = index_tree(&staged(&[(D1, "a.txt")]));
    let root = build_tree(&tree, &mut store).unwrap();
    assert_eq!(root.hex, "9c7e48d50e43f144c1cd5a02526ebbece9eb9928");
    assert_eq!(store.get(&blob_digest).unwrap(), b"hello".to_vec());
    assert_eq!(store.len(), 2);
}

#[test]
fn names_are_ordered_by_character() {
    assert_eq!(compare_names("a", "b"), NameOrder::Before);
    assert_eq!(compare_names("b", "a"), NameOrder::After);
    assert_eq!(compare_names("a", "a"), NameOrder::Same);
    assert_eq!(compare_names("a", "ab"), NameOrder::Before);
    assert_eq!(compare_names("ab", "a"), NameOrder::After);
    assert_eq!(compare_names("", ""), NameOrder::Same);
    assert_eq!(compare_names("Z", "a"), NameOrder::Before);
    assert_eq!(compare_names("é", "z"), NameOrder::After);
    for (a, b) in [("abc", "abd"), ("x", "xy"), ("", "a"), ("é", "ü")] {
        assert_eq!(compare_names(a, b) == NameOrder::Before, a < b);
    }
}
