//! Staging: storing the content of files as blobs and recording them in the
//! ledger.
use crate::digest::{digest_of, is_hex_char, is_sha1_hex, Digest};
use crate::error::Error;
use crate::index::{
    lemma_append_then_read, line_terminated, record_line, records, EntryView, StagedEntry,
};
use crate::object::{storable, stored_form, ObjectKind, ObjectView};
use crate::repository::Repository;
use crate::text::is_token;
use vstd::prelude::*;

verus! {

/// A file of the working directory: the path under which it is staged, and
/// its content.
#[derive(Debug, PartialEq, Eq)]
pub struct WorkFile {
    pub path: String,
    pub content: Vec<u8>,
}

/// What was found at a path of the working directory.
#[derive(Debug, PartialEq, Eq)]
pub enum WorkItem {
    /// Nothing is there.
    Missing,
    File(WorkFile),
    /// A directory, with what was found at each of its entries.
    Directory(Vec<WorkItem>),
    /// Something that is neither a file nor a directory.
    Other,
}

/// A file as the contracts see it.
pub ghost struct FileView {
    pub path: Seq<char>,
    pub content: Seq<u8>,
}

impl View for WorkFile {
    type V = FileView;

    open spec fn view(&self) -> FileView {
        FileView { path: self.path@, content: self.content@ }
    }
}

impl WorkItem {
    /// The files to stage for this item, in order: the file itself, or the
    /// files of a directory's entries, directories below included.
    pub open spec fn files(&self) -> Seq<FileView>
        decreases self,
    {
        match self {
            WorkItem::File(f) => seq![f@],
            WorkItem::Directory(entries) => files_in(entries@),
            _ => Seq::empty(),
        }
    }
}

/// The files to stage for the entries of a directory, entry by entry.
pub open spec fn files_in(entries: Seq<WorkItem>) -> Seq<FileView>
    decreases entries,
{
    if entries.len() == 0 {
        Seq::empty()
    } else {
        files_in(entries.drop_last()) + entries.last().files()
    }
}

/// The views of a list of files.
pub open spec fn file_views(files: Seq<&WorkFile>) -> Seq<FileView> {
    Seq::new(files.len(), |i: int| files[i]@)
}

/// The ledger entry for a staged file.
pub open spec fn entry_of(file: FileView) -> EntryView {
    EntryView { digest: digest_of(file.content), path: file.path }
}

/// The ledger entries for a list of staged files.
pub open spec fn entries_of(files: Seq<FileView>) -> Seq<EntryView> {
    Seq::new(files.len(), |i: int| entry_of(files[i]))
}

/// Every path is one field of a ledger line.
pub open spec fn paths_are_tokens(files: Seq<FileView>) -> bool {
    forall|i: int| 0 <= i < files.len() ==> is_token((#[trigger] files[i]).path)
}

/// The ledger after the given files were staged, one after the other.
pub open spec fn ledger_after(ledger: Seq<char>, files: Seq<FileView>) -> Seq<char>
    decreases files.len(),
{
    if files.len() == 0 {
        ledger
    } else {
        ledger_after(ledger, files.drop_last()) + record_line(entry_of(files.last()))
    }
}

/// The objects after the given files were staged, one after the other.
pub open spec fn objects_after(
    objects: Map<Seq<char>, ObjectView>,
    files: Seq<FileView>,
) -> Map<Seq<char>, ObjectView>
    decreases files.len(),
{
    if files.len() == 0 {
        objects
    } else {
        objects_after(objects, files.drop_last()).insert(
            digest_of(files.last().content),
            stored_form(ObjectKind::Blob, files.last().content),
        )
    }
}

/// The number of files at the front whose content can be stored: staging
/// stops at the first file that cannot.
pub open spec fn stageable(files: Seq<FileView>) -> nat
    decreases files.len(),
{
    if files.len() == 0 || !storable(files[0].content) {
        0
    } else {
        1 + stageable(files.drop_first())
    }
}

/// Staging stops at `n` where the first `n` files can be stored and the file
/// at `n`, if there is one, cannot.
pub proof fn lemma_stageable(files: Seq<FileView>, n: int)
    requires
        0 <= n <= files.len(),
        forall|j: int| 0 <= j < n ==> storable((#[trigger] files[j]).content),
        n == files.len() || !storable(files[n].content),
    ensures
        stageable(files) == n,
    decreases n,
{
    if n > 0 {
        let rest = files.drop_first();
        assert(storable(files[0].content));
        assert forall|j: int| 0 <= j < n - 1 implies storable((#[trigger] rest[j]).content) by {
            assert(rest[j] == files[j + 1]);
        }
        lemma_stageable(rest, n - 1);
    }
}

/// A digest in its proper form is one field of a ledger line.
pub proof fn lemma_digest_is_token(digest: Seq<char>)
    requires
        is_sha1_hex(digest),
    ensures
        is_token(digest),
{
    assert forall|i: int| 0 <= i < digest.len() implies !crate::text::is_whitespace(
        #[trigger] digest[i],
    ) by {
        assert(is_hex_char(digest[i]));
    }
}

/// Stages one file: stores its content as a blob and appends its record to
/// the ledger. Where the ledger so far ends in a complete line and the path
/// is one field, the records read back are those before and then this one.
pub fn process_file(repo: &mut Repository, path: &str, content: &[u8]) -> (r: Result<
    Digest,
    Error,
>)
    ensures
        final(repo).head@ == old(repo).head@,
        final(repo).refs@ == old(repo).refs@,
        match r {
            Ok(d) => {
                let entry = EntryView { digest: d@, path: path@ };
                &&& storable(content@)
                &&& d@ == digest_of(content@)
                &&& final(repo).objects@ == old(repo).objects@.insert(
                    d@,
                    stored_form(ObjectKind::Blob, content@),
                )
                &&& final(repo).index@ == old(repo).index@ + record_line(entry)
                &&& line_terminated(old(repo).index@) && is_token(path@) ==> {
                    &&& records(final(repo).index@) == records(old(repo).index@).push(entry)
                    &&& line_terminated(final(repo).index@)
                }
            },
            Err(e) => {
                &&& e == Error::IOFailure
                &&& !storable(content@)
                &&& final(repo).objects@ == old(repo).objects@
                &&& final(repo).index@ == old(repo).index@
            },
        },
{
    match repo.objects.put(ObjectKind::Blob, content) {
        Ok(digest) => {
            let entry = StagedEntry { digest: digest.clone(), path: String::from_str(path) };
            repo.index.append(&entry);
            proof {
                if line_terminated(old(repo).index@) && is_token(path@) {
                    lemma_digest_is_token(digest@);
                    lemma_append_then_read(old(repo).index@, entry@);
                }
            }
            Ok(digest)
        },
        Err(e) => Err(e),
    }
}

/// Collects the files of an item after those already collected.
fn gather<'a>(item: &'a WorkItem, out: &mut Vec<&'a WorkFile>)
    ensures
        file_views(final(out)@) == file_views(old(out)@) + item.files(),
    decreases item,
{
    match item {
        WorkItem::File(f) => {
            out.push(f);
            assert(file_views(out@) =~= file_views(old(out)@) + seq![f@]);
        },
        WorkItem::Directory(entries) => {
            let mut i: usize = 0;
            assert(file_views(out@) + files_in(entries@.take(0)) =~= file_views(out@));
            while i < entries.len()
                invariant
                    i <= entries.len(),
                    *item matches WorkItem::Directory(v) && v == *entries,
                    file_views(out@) == file_views(old(out)@) + files_in(
                        entries@.take(i as int),
                    ),
                decreases entries.len() - i,
            {
                proof {
                    assert(entries@.take(i + 1).drop_last() =~= entries@.take(i as int));
                    assert(entries@.take(i + 1).last() == entries@[i as int]);
                }
                let ghost before = file_views(out@);
                gather(&entries[i], out);
                assert(file_views(out@) =~= file_views(old(out)@) + (files_in(
                    entries@.take(i as int),
                ) + entries@[i as int].files()));
                i = i + 1;
            }
            assert(entries@.take(entries.len() as int) =~= entries@);
        },
        _ => {
            assert(file_views(out@) + item.files() =~= file_views(out@));
        },
    }
}

/// Stages what was found at a path: the file, or every file of the directory
/// and of the directories below it, in order. Staging stops at the first file
/// whose content cannot be stored; the files before it stay staged.
///
/// Where the ledger so far ends in a complete line and every path is one
/// field, the records read back are those before and then one for each file
/// that was staged, in order.
pub fn add(repo: &mut Repository, item: &WorkItem) -> (r: Result<(), Error>)
    ensures
        final(repo).head@ == old(repo).head@,
        final(repo).refs@ == old(repo).refs@,
        final(repo).index@ == ledger_after(
            old(repo).index@,
            item.files().take(stageable(item.files()) as int),
        ),
        final(repo).objects@ == objects_after(
            old(repo).objects@,
            item.files().take(stageable(item.files()) as int),
        ),
        line_terminated(old(repo).index@) && paths_are_tokens(item.files()) ==> {
            &&& line_terminated(final(repo).index@)
            &&& records(final(repo).index@) == records(old(repo).index@) + entries_of(
                item.files().take(stageable(item.files()) as int),
            )
        },
        match r {
            Ok(_) => !(item is Missing) && stageable(item.files()) == item.files().len(),
            Err(e) => if item is Missing {
                e == Error::PathNotFound
            } else {
                e == Error::IOFailure && stageable(item.files()) < item.files().len()
            },
        },
{
    if let WorkItem::Missing = item {
        assert(item.files().take(0) =~= Seq::<FileView>::empty());
        assert(records(repo.index@) + entries_of(Seq::<FileView>::empty()) =~= records(
            repo.index@,
        ));
        return Err(Error::PathNotFound);
    }
    let mut files: Vec<&WorkFile> = Vec::new();
    assert(file_views(files@) =~= Seq::<FileView>::empty());
    gather(item, &mut files);
    let ghost all = item.files();
    let ghost readable = line_terminated(old(repo).index@) && paths_are_tokens(all);
    assert(file_views(files@) =~= all);
    let mut i: usize = 0;
    assert(all.take(0) =~= Seq::<FileView>::empty());
    assert(records(repo.index@) + entries_of(all.take(0)) =~= records(repo.index@));
    while i < files.len()
        invariant
            i <= files.len(),
            file_views(files@) == all,
            all == item.files(),
            readable == (line_terminated(old(repo).index@) && paths_are_tokens(all)),
            forall|j: int| 0 <= j < i ==> storable((#[trigger] all[j]).content),
            repo.head@ == old(repo).head@,
            repo.refs@ == old(repo).refs@,
            repo.index@ == ledger_after(old(repo).index@, all.take(i as int)),
            repo.objects@ == objects_after(old(repo).objects@, all.take(i as int)),
            readable ==> line_terminated(repo.index@) && records(repo.index@) == records(
                old(repo).index@,
            ) + entries_of(all.take(i as int)),
        decreases files.len() - i,
    {
        let file = files[i];
        let ghost before = records(repo.index@);
        proof {
            assert(all[i as int] == file@);
            assert(all.take(i + 1).drop_last() =~= all.take(i as int));
            assert(all.take(i + 1).last() == file@);
        }
        match process_file(repo, file.path.as_str(), file.content.as_slice()) {
            Ok(_) => {
                proof {
                    if readable {
                        assert(before.push(entry_of(file@)) =~= records(old(repo).index@)
                            + entries_of(all.take(i + 1)));
                    }
                }
            },
            Err(e) => {
                proof {
                    lemma_stageable(all, i as int);
                }
                return Err(e);
            },
        }
        i = i + 1;
    }
    proof {
        lemma_stageable(all, i as int);
        assert(all.take(all.len() as int) =~= all);
    }
    Ok(())
}

} // verus!
