use rusty_git::digest::Digest;
use rusty_git::index::StagedEntry;
use rusty_git::layout::join_path;
use rusty_git::table::Table;
use rusty_git::text::{from_chars, same_text, to_bytes, to_chars, Separator};

#[test]
fn characters_go_to_a_string_and_back() {
    let text = "héllo, wörld ✓";
    let chars = to_chars(text);
    assert_eq!(chars.len(), 14);
    assert_eq!(chars[1], 'é');
    assert_eq!(from_chars(&chars), text);
    assert_eq!(from_chars(&vec![]), "");
    assert_eq!(to_chars(""), Vec::<char>::new());
}

#[test]
fn same_text_compares_character_by_character() {
    assert!(same_text("ref:", "ref:"));
    assert!(same_text("", ""));
    assert!(!same_text("ref:", "ref"));
    assert!(!same_text("ref:", "reF:"));
    assert!(!same_text("a", ""));
}

#[test]
fn text_bytes_are_utf8() {
    assert_eq!(to_bytes("aé✓"), vec![0x61, 0xc3, 0xa9, 0xe2, 0x9c, 0x93]);
    assert_eq!(to_bytes(""), Vec::<u8>::new());
}

#[test]
fn separators_match_their_characters() {
    assert!(Separator::Char('/').test('/'));
    assert!(!Separator::Char('/').test('\\'));
    assert!(Separator::Whitespace.test(' '));
    assert!(Separator::Whitespace.test('\u{2003}'));
    assert!(!Separator::Whitespace.test('/'));
}

#[test]
fn join_path_puts_a_slash_between() {
    assert_eq!(join_path(".gitrust", "objects"), ".gitrust/objects");
    assert_eq!(join_path("", ""), "/");
}

#[test]
fn digests_and_entries_copy_and_compare() {
    let a = Digest::new("aaf4".to_string());
    let b = a.clone();
    assert!(a.same(&b));
    assert_eq!(a.as_str(), "aaf4");
    assert!(!a.same(&Digest::new("aaf5".to_string())));
    let entry = StagedEntry::new(a, "x".to_string());
    assert_eq!(entry.clone(), entry);
}

#[test]
fn table_keeps_one_value_per_key() {
    let mut table: Table<u32> = Table::new();
    assert_eq!(table.len(), 0);
    assert_eq!(table.get("a"), None);
    table.insert("a".to_string(), 1);
    table.insert("b".to_string(), 2);
    table.insert("a".to_string(), 3);
    assert_eq!(table.len(), 2);
    assert_eq!(table.get("a"), Some(&3));
    assert_eq!(table.get("b"), Some(&2));
    assert_eq!(table.get("c"), None);
    let first = table.slot(0).unwrap();
    assert_eq!((first.key.as_str(), first.value), ("a", 3));
    assert!(table.slot(2).is_none());
}
