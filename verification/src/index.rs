//! The staging index: an append-only ledger of staged paths, one text record
//! per line, each record a digest and a path separated by a space.
use crate::digest::Digest;
use crate::text::{
    fields, is_token, lemma_fields_are_tokens, lemma_fields_empty, lemma_fields_pair,
    lemma_split_free, lemma_split_join, split, split_fields, split_text, views, Separator,
};
use vstd::prelude::*;

verus! {

/// One staged file: the digest of its content and its path.
#[derive(Debug, PartialEq, Eq)]
pub struct StagedEntry {
    pub digest: Digest,
    pub path: String,
}

/// A staged entry as the contracts see it.
pub ghost struct EntryView {
    pub digest: Seq<char>,
    pub path: Seq<char>,
}

impl View for StagedEntry {
    type V = EntryView;

    open spec fn view(&self) -> EntryView {
        EntryView { digest: self.digest@, path: self.path@ }
    }
}

impl Clone for StagedEntry {
    fn clone(&self) -> (r: Self)
        ensures
            r == *self,
    {
        StagedEntry { digest: self.digest.clone(), path: self.path.clone() }
    }
}

/// The ledger of staged entries, as the text that is kept on disk.
#[derive(Debug, PartialEq, Eq)]
pub struct StagingIndex {
    pub ledger: String,
}

impl View for StagingIndex {
    type V = Seq<char>;

    open spec fn view(&self) -> Seq<char> {
        self.ledger@
    }
}

/// The views of a list of staged entries.
pub open spec fn entry_views(entries: Seq<StagedEntry>) -> Seq<EntryView> {
    Seq::new(entries.len(), |i: int| entries[i]@)
}

/// Lines end at a line feed.
pub open spec fn line_break() -> Separator {
    Separator::Char('\n')
}

/// The text of one record: digest, a space, path, and a line break.
pub open spec fn record_line(entry: EntryView) -> Seq<char> {
    entry.digest + seq![' '] + entry.path + seq!['\n']
}

/// The record on a line: a line of exactly two whitespace-separated fields
/// holds a digest and a path; any other line holds none.
pub open spec fn parse_line(line: Seq<char>) -> Option<EntryView> {
    let f = fields(line);
    if f.len() == 2 {
        Some(EntryView { digest: f[0], path: f[1] })
    } else {
        None
    }
}

/// The records on the given lines, in order, malformed lines skipped.
pub open spec fn collect(lines: Seq<Seq<char>>) -> Seq<EntryView>
    decreases lines.len(),
{
    if lines.len() == 0 {
        Seq::empty()
    } else {
        match parse_line(lines.last()) {
            Some(entry) => collect(lines.drop_last()).push(entry),
            None => collect(lines.drop_last()),
        }
    }
}

/// The records of a ledger text.
pub open spec fn records(ledger: Seq<char>) -> Seq<EntryView> {
    collect(split(ledger, line_break()))
}

/// A ledger whose last line is complete: it is empty or ends in a line break.
pub open spec fn line_terminated(ledger: Seq<char>) -> bool {
    ledger.len() == 0 || ledger.last() == '\n'
}

/// An entry that is read back as it was written: its digest and its path are
/// not empty and hold no whitespace.
pub open spec fn readable(entry: EntryView) -> bool {
    is_token(entry.digest) && is_token(entry.path)
}

/// Collecting, one line at a time.
pub proof fn lemma_collect_push(lines: Seq<Seq<char>>, last: Seq<char>)
    ensures
        collect(lines.push(last)) == match parse_line(last) {
            Some(entry) => collect(lines).push(entry),
            None => collect(lines),
        },
{
    assert(lines.push(last).drop_last() =~= lines);
}

/// Collecting distributes over concatenation of lines.
pub proof fn lemma_collect_concat(a: Seq<Seq<char>>, b: Seq<Seq<char>>)
    ensures
        collect(a + b) == collect(a) + collect(b),
    decreases b.len(),
{
    if b.len() == 0 {
        assert(a + b =~= a);
        assert(collect(a) + collect(b) =~= collect(a));
    } else {
        assert((a + b).drop_last() =~= a + b.drop_last());
        assert((a + b).last() == b.last());
        lemma_collect_concat(a, b.drop_last());
        match parse_line(b.last()) {
            Some(entry) => {
                assert((collect(a) + collect(b.drop_last())).push(entry) =~= collect(a) + collect(
                    b.drop_last(),
                ).push(entry));
            },
            None => {},
        }
    }
}

/// An empty ledger holds no record.
pub proof fn lemma_records_empty()
    ensures
        records(Seq::<char>::empty()) == Seq::<EntryView>::empty(),
{
    let e = Seq::<char>::empty();
    let none = Seq::<Seq<char>>::empty();
    lemma_split_free(e, line_break());
    assert(seq![e] =~= none.push(e));
    lemma_collect_push(none, e);
    lemma_fields_empty();
}

/// What is written after a complete last line is read independently of what
/// came before it.
pub proof fn lemma_records_concat(ledger: Seq<char>, more: Seq<char>)
    requires
        line_terminated(ledger),
    ensures
        records(ledger + more) == records(ledger) + records(more),
{
    let nl = line_break();
    let e = Seq::<char>::empty();
    if ledger.len() == 0 {
        assert(ledger + more =~= more);
        assert(ledger =~= e);
        lemma_records_empty();
        assert(records(ledger) + records(more) =~= records(more));
    } else {
        let head = ledger.drop_last();
        assert(ledger =~= head + seq!['\n'] + e);
        assert(ledger + more =~= head + seq!['\n'] + more);
        lemma_split_join(head, '\n', e, nl);
        lemma_split_join(head, '\n', more, nl);
        lemma_collect_concat(split(head, nl), split(e, nl));
        lemma_collect_concat(split(head, nl), split(more, nl));
        lemma_records_empty();
        assert(collect(split(head, nl)) + collect(split(e, nl)) =~= collect(split(head, nl)));
    }
}

/// One record line holds exactly its entry.
pub proof fn lemma_records_of_line(entry: EntryView)
    requires
        readable(entry),
    ensures
        records(record_line(entry)) == seq![entry],
{
    let nl = line_break();
    let e = Seq::<char>::empty();
    let none = Seq::<Seq<char>>::empty();
    let body = entry.digest + seq![' '] + entry.path;
    assert(record_line(entry) =~= body + seq!['\n'] + e);
    lemma_split_join(body, '\n', e, nl);
    assert(crate::text::free_of(body, nl)) by {
        assert forall|i: int| 0 <= i < body.len() implies !nl.matches(#[trigger] body[i]) by {
            if i < entry.digest.len() {
                assert(body[i] == entry.digest[i]);
            } else if i > entry.digest.len() {
                assert(body[i] == entry.path[i - entry.digest.len() - 1]);
            }
        }
    }
    lemma_split_free(body, nl);
    lemma_split_free(e, nl);
    assert(split(record_line(entry), nl) =~= none.push(body).push(e));
    lemma_fields_pair(entry.digest, ' ', entry.path);
    lemma_fields_empty();
    lemma_collect_push(none, body);
    lemma_collect_push(none.push(body), e);
    assert(Seq::<EntryView>::empty().push(entry) =~= seq![entry]);
}

proof fn lemma_collect_readable(lines: Seq<Seq<char>>)
    ensures
        forall|i: int| 0 <= i < collect(lines).len() ==> readable(#[trigger] collect(lines)[i]),
    decreases lines.len(),
{
    if lines.len() > 0 {
        lemma_collect_readable(lines.drop_last());
        lemma_fields_are_tokens(lines.last());
        let f = fields(lines.last());
        let init = collect(lines.drop_last());
        assert forall|i: int| 0 <= i < collect(lines).len() implies readable(
            #[trigger] collect(lines)[i],
        ) by {
            if i < init.len() {
                assert(collect(lines)[i] == init[i]);
            } else {
                assert(is_token(f[0]) && is_token(f[1]));
            }
        }
    }
}

/// Every record that is read from a ledger, whatever the ledger holds, is a
/// readable entry: written again, it is read back as it is.
pub proof fn lemma_records_are_readable(ledger: Seq<char>)
    ensures
        forall|i: int| 0 <= i < records(ledger).len() ==> readable(#[trigger] records(ledger)[i]),
{
    lemma_collect_readable(split(ledger, line_break()));
}

/// Appending the record of a readable entry to a ledger whose last line is
/// complete adds exactly that entry after the ones already there, and leaves
/// the last line complete.
pub proof fn lemma_append_then_read(ledger: Seq<char>, entry: EntryView)
    requires
        line_terminated(ledger),
        readable(entry),
    ensures
        records(ledger + record_line(entry)) == records(ledger).push(entry),
        line_terminated(ledger + record_line(entry)),
{
    lemma_records_concat(ledger, record_line(entry));
    lemma_records_of_line(entry);
    assert(records(ledger) + seq![entry] =~= records(ledger).push(entry));
}

/// Staging the same path twice leaves two records, read back in the order in
/// which they were appended.
pub proof fn lemma_stage_twice(
    ledger: Seq<char>,
    first: Seq<char>,
    second: Seq<char>,
    path: Seq<char>,
)
    requires
        line_terminated(ledger),
        is_token(first),
        is_token(second),
        is_token(path),
    ensures
        records(
            ledger + record_line(EntryView { digest: first, path }) + record_line(
                EntryView { digest: second, path },
            ),
        ) == records(ledger).push(EntryView { digest: first, path }).push(
            EntryView { digest: second, path },
        ),
{
    let a = EntryView { digest: first, path };
    let b = EntryView { digest: second, path };
    lemma_append_then_read(ledger, a);
    lemma_append_then_read(ledger + record_line(a), b);
}

impl StagedEntry {
    pub fn new(digest: Digest, path: String) -> (e: StagedEntry)
        ensures
            e.digest == digest,
            e.path == path,
    {
        StagedEntry { digest, path }
    }
}

impl StagingIndex {
    /// An empty ledger.
    pub fn new() -> (index: StagingIndex)
        ensures
            index@ == Seq::<char>::empty(),
    {
        StagingIndex { ledger: String::new() }
    }

    /// The ledger with the given text.
    pub fn from_text(ledger: String) -> (index: StagingIndex)
        ensures
            index@ == ledger@,
    {
        StagingIndex { ledger }
    }

    pub fn text(&self) -> (s: &str)
        ensures
            s@ == self@,
    {
        self.ledger.as_str()
    }

    /// Writes one record after the records already there. Nothing that was
    /// written before is changed.
    pub fn append(&mut self, entry: &StagedEntry)
        ensures
            final(self)@ == old(self)@ + record_line(entry@),
            line_terminated(final(self)@),
    {
        self.ledger.append(entry.digest.as_str());
        self.ledger.push(' ');
        self.ledger.append(entry.path.as_str());
        self.ledger.push('\n');
        assert(self@ =~= old(self)@ + record_line(entry@));
    }

    /// Reads every record of the ledger, in order. A line that does not split
    /// into exactly two whitespace-separated fields is skipped.
    pub fn read_all(&self) -> (entries: Vec<StagedEntry>)
        ensures
            entry_views(entries@) == records(self@),
    {
        let lines = split_text(self.ledger.as_str(), Separator::Char('\n'));
        let mut entries: Vec<StagedEntry> = Vec::new();
        let mut i: usize = 0;
        while i < lines.len()
            invariant
                i <= lines.len(),
                entry_views(entries@) == collect(views(lines@).take(i as int)),
            decreases lines.len() - i,
        {
            proof {
                let all = views(lines@);
                assert(all.take(i + 1) =~= all.take(i as int).push(lines@[i as int]@));
                lemma_collect_push(all.take(i as int), lines@[i as int]@);
            }
            let parts = split_fields(lines[i].as_str());
            if parts.len() == 2 {
                let entry = StagedEntry {
                    digest: Digest::new(parts[0].clone()),
                    path: parts[1].clone(),
                };
                proof {
                    assert(views(parts@)[0] == parts@[0]@);
                    assert(views(parts@)[1] == parts@[1]@);
                    assert(entry_views(entries@.push(entry)) =~= entry_views(entries@).push(
                        entry@,
                    ));
                }
                entries.push(entry);
            } else {
                assert(views(parts@).len() == parts@.len());
            }
            i = i + 1;
        }
        proof {
            assert(views(lines@).take(lines.len() as int) =~= views(lines@));
        }
        entries
    }

    /// Whether the ledger holds no record.
    pub fn is_empty(&self) -> (r: bool)
        ensures
            r == (records(self@).len() == 0),
    {
        let entries = self.read_all();
        assert(entry_views(entries@).len() == entries@.len());
        entries.len() == 0
    }

    /// Empties the ledger: it stays present, with no record.
    pub fn clear(&mut self)
        ensures
            final(self)@ == Seq::<char>::empty(),
            records(final(self)@) == Seq::<EntryView>::empty(),
    {
        self.ledger = String::new();
        proof {
            lemma_records_empty();
        }
    }
}

} // verus!
