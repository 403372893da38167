use rusty_git::digest::Digest;
use rusty_git::index::{StagedEntry, StagingIndex};
use rusty_git::text::{split_fields, split_text, Separator};

const D1: &str = "aaf4c61ddcc5e8a2dabede0f3b482cd9aea9434d";
const D2: &str = "7c211433f02071597741e6ff5a8ea34789abbf43";

fn entry(digest: &str, path: &str) -> StagedEntry {
    StagedEntry::new(Digest::new(digest.to_string()), path.to_string())
}

#[test]
fn append_writes_one_line_per_record() {
    let mut index = StagingIndex::new();
    index.append(&entry(D1, "a.txt"));
    assert_eq!(index.text(), format!("{} a.txt\n", D1));
    index.append(&entry(D2, "dir/b.txt"));
    assert_eq!(index.text(), format!("{} a.txt\n{} dir/b.txt\n", D1, D2));
}

#[test]
fn staging_the_same_path_twice_keeps_both_records_in_order() {
    let mut index = StagingIndex::new();
    index.append(&entry(D1, "a.txt"));
    index.append(&entry(D2, "a.txt"));
    assert_eq!(index.read_all(), vec![entry(D1, "a.txt"), entry(D2, "a.txt")]);
}

#[test]
fn read_all_skips_malformed_lines() {
    let text = format!(
        "{d1} a.txt\n\nonly-one-field\n{d2} too many fields\n   \n  {d2}\t b.txt  \r\nzz c.txt",
        d1 = D1,
        d2 = D2
    );
    let index = StagingIndex::from_text(text);
    assert_eq!(
        index.read_all(),
        vec![entry(D1, "a.txt"), entry(D2, "b.txt"), entry("zz", "c.txt")]
    );
}

#[test]
fn a_path_with_a_space_is_not_read_back() {
    let mut index = StagingIndex::new();
    index.append(&entry(D1, "my file.txt"));
    assert_eq!(index.text(), format!("{} my file.txt\n", D1));
    assert_eq!(index.read_all(), vec![]);
    assert!(index.is_empty());
}

#[test]
fn a_record_after_an_incomplete_line_is_lost_with_it() {
    let mut index = StagingIndex::from_text(format!("{} a.txt", D1));
    index.append(&entry(D2, "b.txt"));
    assert_eq!(index.read_all(), vec![]);
}

#[test]
fn clear_leaves_an_empty_ledger() {
    let mut index = StagingIndex::new();
    assert!(index.is_empty());
    index.append(&entry(D1, "a.txt"));
    assert!(!index.is_empty());
    index.clear();
    assert_eq!(index.text(), "");
    assert_eq!(index.read_all(), vec![]);
    assert!(index.is_empty());
}

#[test]
fn split_text_keeps_empty_segments() {
    assert_eq!(split_text("a/b//c", Separator::Char('/')), vec!["a", "b", "", "c"]);
    assert_eq!(split_text("", Separator::Char('/')), vec![""]);
    assert_eq!(split_text("/", Separator::Char('/')), vec!["", ""]);
    assert_eq!(split_text("one\ntwo\n", Separator::Char('\n')), vec!["one", "two", ""]);
}

#[test]
fn split_fields_splits_at_any_whitespace() {
    assert_eq!(split_fields("  a \t b\u{a0}c\u{3000}d\n"), vec!["a", "b", "c", "d"]);
    assert_eq!(split_fields(""), Vec::<String>::new());
    assert_eq!(split_fields(" \t\r\n"), Vec::<String>::new());
    assert_eq!(split_fields("a\u{200b}b"), vec!["a\u{200b}b"]);
}

#[test]
fn whitespace_is_what_the_standard_library_calls_whitespace() {
    for n in 0..=0x10ffffu32 {
        if let Some(c) = char::from_u32(n) {
            assert_eq!(rusty_git::text::char_is_whitespace(c), c.is_whitespace(), "{:x}", n);
        }
    }
}
