//! The table of records, keyed by path, and the file it is written to.
//!
//! The file is a twelve-byte header (signature, version, number of records),
//! the records in increasing order of path, and the SHA-1 digest of all that
//! precedes it.

use vstd::prelude::*;
use crate::bytes::{
    be32, lemma_lex_irreflexive, lemma_lex_transitive, lex_lt, lex_position, push_all, push_be32,
    Position,
};
use crate::digest::{sha1_digest, sha1_of};
use crate::entry::{entry_for, Entry, EntryView, FileStat};
use crate::error::IndexError;
use crate::protocol::{next_step, WritePhase, WriterAction, WriterEvent};

verus! {

/// The version of the file format.
pub const VERSION: u32 = 2;

/// The four bytes that every index file starts with.
pub open spec fn signature() -> Seq<u8> {
    seq![0x44u8, 0x49u8, 0x52u8, 0x43u8]
}

/// The header of a file with `count` records. The count is written in 32
/// bits: of a larger one the low 32 bits are kept.
pub open spec fn header(count: nat) -> Seq<u8> {
    signature() + be32(VERSION) + be32((count % 0x1_0000_0000) as u32)
}

/// The binary forms of the records of `s`, one after the other.
pub open spec fn records(s: Seq<EntryView>) -> Seq<u8>
    decreases s.len(),
{
    if s.len() == 0 {
        Seq::empty()
    } else {
        records(s.drop_last()) + s.last().encoding()
    }
}

/// The header and the records: what the checksum is computed over.
pub open spec fn body(s: Seq<EntryView>) -> Seq<u8> {
    header(s.len()) + records(s)
}

/// The whole file: header, records, and the digest of both.
pub open spec fn file_bytes(s: Seq<EntryView>) -> Seq<u8> {
    body(s) + sha1_digest(body(s))
}

/// The paths of `s` increase strictly in the lexicographic order on bytes.
pub open spec fn strictly_sorted(s: Seq<EntryView>) -> bool {
    forall|i: int, j: int| 0 <= i < j < s.len() ==> lex_lt(#[trigger] s[i].path, #[trigger] s[j].path)
}

/// The table that holds each record of `s` under its path.
pub open spec fn table_of(s: Seq<EntryView>) -> Map<Seq<u8>, EntryView> {
    Map::new(
        |p: Seq<u8>| exists|i: int| 0 <= i < s.len() && #[trigger] s[i].path == p,
        |p: Seq<u8>| s[choose|i: int| 0 <= i < s.len() && #[trigger] s[i].path == p],
    )
}

/// `s` lists the records of `table`, each once, in increasing order of path.
pub open spec fn is_snapshot_of(s: Seq<EntryView>, table: Map<Seq<u8>, EntryView>) -> bool {
    &&& strictly_sorted(s)
    &&& forall|i: int| 0 <= i < s.len() ==> table.contains_pair(#[trigger] s[i].path, s[i])
    &&& forall|p: Seq<u8>| #[trigger]
        table.dom().contains(p) ==> exists|i: int| 0 <= i < s.len() && #[trigger] s[i].path == p
}

/// In a sorted list no path occurs twice.
pub proof fn lemma_sorted_distinct(s: Seq<EntryView>, i: int, j: int)
    requires
        strictly_sorted(s),
        0 <= i < s.len(),
        0 <= j < s.len(),
        s[i].path == s[j].path,
    ensures
        i == j,
{
    lemma_lex_irreflexive(s[i].path);
    if i < j {
        assert(lex_lt(s[i].path, s[j].path));
    } else if j < i {
        assert(lex_lt(s[j].path, s[i].path));
    }
}

/// A sorted list is the snapshot of its own table.
pub proof fn lemma_table_of_sorted(s: Seq<EntryView>)
    requires
        strictly_sorted(s),
    ensures
        is_snapshot_of(s, table_of(s)),
{
    let table = table_of(s);
    assert forall|i: int| 0 <= i < s.len() implies table.contains_pair(
        #[trigger] s[i].path,
        s[i],
    ) by {
        let p = s[i].path;
        let j = choose|j: int| 0 <= j < s.len() && #[trigger] s[j].path == p;
        lemma_sorted_distinct(s, i, j);
    }
}

/// Putting a record where its path belongs keeps the list sorted and puts the
/// record into the table.
pub proof fn lemma_insert_at(s: Seq<EntryView>, pos: int, e: EntryView)
    requires
        strictly_sorted(s),
        0 <= pos <= s.len(),
        forall|j: int| 0 <= j < pos ==> lex_lt(#[trigger] s[j].path, e.path),
        pos < s.len() ==> lex_lt(e.path, s[pos].path),
    ensures
        strictly_sorted(s.insert(pos, e)),
        table_of(s.insert(pos, e)) == table_of(s).insert(e.path, e),
{
    let t = s.insert(pos, e);
    assert forall|j: int| pos <= j < s.len() implies lex_lt(e.path, #[trigger] s[j].path) by {
        if pos < j {
            assert(lex_lt(s[pos].path, s[j].path));
            lemma_lex_transitive(e.path, s[pos].path, s[j].path);
        }
    }
    assert forall|i: int, j: int| 0 <= i < j < t.len() implies lex_lt(
        #[trigger] t[i].path,
        #[trigger] t[j].path,
    ) by {
        if j < pos {
            assert(t[i] == s[i] && t[j] == s[j]);
        } else if j == pos {
            assert(t[i] == s[i]);
        } else if i < pos {
            assert(t[i] == s[i] && t[j] == s[j - 1]);
        } else if i == pos {
            assert(t[j] == s[j - 1]);
        } else {
            assert(t[i] == s[i - 1] && t[j] == s[j - 1]);
        }
    }
    lemma_table_of_sorted(s);
    lemma_table_of_sorted(t);
    let a = table_of(t);
    let b = table_of(s).insert(e.path, e);
    assert forall|p: Seq<u8>| a.dom().contains(p) <==> b.dom().contains(p) by {
        if a.dom().contains(p) {
            let i = choose|i: int| 0 <= i < t.len() && #[trigger] t[i].path == p;
            if i < pos {
                assert(s[i].path == p);
            } else if i > pos {
                assert(s[i - 1].path == p);
            }
        }
        if b.dom().contains(p) && p != e.path {
            let i = choose|i: int| 0 <= i < s.len() && #[trigger] s[i].path == p;
            if i < pos {
                assert(t[i].path == p);
            } else {
                assert(t[i + 1].path == p);
            }
        }
        if p == e.path {
            assert(t[pos].path == p);
        }
    }
    assert forall|p: Seq<u8>| a.dom().contains(p) implies #[trigger] a[p] == b[p] by {
        let i = choose|i: int| 0 <= i < t.len() && #[trigger] t[i].path == p;
        assert(a.contains_pair(t[i].path, t[i]));
        if i < pos {
            assert(t[i] == s[i]);
            assert(table_of(s).contains_pair(s[i].path, s[i]));
            lemma_lex_irreflexive(p);
        } else if i > pos {
            assert(t[i] == s[i - 1]);
            assert(table_of(s).contains_pair(s[i - 1].path, s[i - 1]));
            lemma_lex_irreflexive(p);
        }
    }
    assert(a =~= b);
}

/// Putting a record in the place of the one with its path keeps the list
/// sorted and puts the record into the table.
pub proof fn lemma_replace_at(s: Seq<EntryView>, pos: int, e: EntryView)
    requires
        strictly_sorted(s),
        0 <= pos < s.len(),
        s[pos].path == e.path,
    ensures
        strictly_sorted(s.update(pos, e)),
        table_of(s.update(pos, e)) == table_of(s).insert(e.path, e),
{
    let t = s.update(pos, e);
    assert forall|i: int, j: int| 0 <= i < j < t.len() implies lex_lt(
        #[trigger] t[i].path,
        #[trigger] t[j].path,
    ) by {
        assert(t[i].path == s[i].path && t[j].path == s[j].path);
    }
    lemma_table_of_sorted(s);
    lemma_table_of_sorted(t);
    let a = table_of(t);
    let b = table_of(s).insert(e.path, e);
    assert forall|p: Seq<u8>| a.dom().contains(p) <==> b.dom().contains(p) by {
        if a.dom().contains(p) {
            let i = choose|i: int| 0 <= i < t.len() && #[trigger] t[i].path == p;
            assert(s[i].path == p);
        }
        if b.dom().contains(p) && p != e.path {
            let i = choose|i: int| 0 <= i < s.len() && #[trigger] s[i].path == p;
            assert(t[i].path == p);
        }
        if p == e.path {
            assert(t[pos].path == p);
        }
    }
    assert forall|p: Seq<u8>| a.dom().contains(p) implies #[trigger] a[p] == b[p] by {
        let i = choose|i: int| 0 <= i < t.len() && #[trigger] t[i].path == p;
        assert(a.contains_pair(t[i].path, t[i]));
        if i != pos {
            assert(t[i] == s[i]);
            assert(table_of(s).contains_pair(s[i].path, s[i]));
            if p == e.path {
                lemma_sorted_distinct(s, i, pos);
            }
        }
    }
    assert(a =~= b);
}

/// The records of `s` as mathematical values.
pub open spec fn entry_views(s: Seq<Entry>) -> Seq<EntryView> {
    Seq::new(s.len(), |i: int| s[i]@)
}

/// The staging area: a table of records, keyed by path.
#[derive(Debug)]
pub struct Index {
    location: Vec<u8>,
    entries: Vec<Entry>,
    staged: Vec<u8>,
    phase: WritePhase,
}

impl View for Index {
    type V = Map<Seq<u8>, EntryView>;

    /// The table: each record under its path.
    open spec fn view(&self) -> Map<Seq<u8>, EntryView> {
        table_of(self.snapshot())
    }
}

impl Index {
    #[verifier::type_invariant]
    spec fn sorted_and_well_formed(self) -> bool {
        &&& strictly_sorted(entry_views(self.entries@))
        &&& forall|i: int| 0 <= i < self.entries@.len() ==> (#[trigger] self.entries@[i])@.wf()
    }

    /// The records in the order in which they are written.
    pub closed spec fn snapshot(&self) -> Seq<EntryView> {
        entry_views(self.entries@)
    }

    /// The on-disk location that the table is bound to.
    pub closed spec fn location(&self) -> Seq<u8> {
        self.location@
    }

    /// The bytes staged for the writer and not yet handed out.
    pub closed spec fn staged(&self) -> Seq<u8> {
        self.staged@
    }

    /// Where the replacement of the file stands.
    pub closed spec fn phase(&self) -> WritePhase {
        self.phase
    }

    /// An empty table bound to the file at `path`.
    pub fn new(path: Vec<u8>) -> (index: Index)
        ensures
            index@ == Map::<Seq<u8>, EntryView>::empty(),
            index.snapshot() == Seq::<EntryView>::empty(),
            index.location() == path@,
            index.staged() == Seq::<u8>::empty(),
            index.phase() == WritePhase::Idle,
    {
        let index = Index {
            location: path,
            entries: Vec::new(),
            staged: Vec::new(),
            phase: WritePhase::Idle,
        };
        assert(index.snapshot() =~= Seq::<EntryView>::empty());
        assert(index@ =~= Map::<Seq<u8>, EntryView>::empty());
        index
    }

    /// The place of `path` among the records, found by bisection: the number
    /// of records whose path comes before it, and whether the record there
    /// has that very path.
    fn find(&self, path: &[u8]) -> (at: (usize, bool))
        ensures
            at.0 <= self.snapshot().len(),
            forall|j: int| 0 <= j < at.0 ==> lex_lt(#[trigger] self.snapshot()[j].path, path@),
            at.1 ==> at.0 < self.snapshot().len() && self.snapshot()[at.0 as int].path == path@,
            !at.1 && at.0 < self.snapshot().len() ==> lex_lt(
                path@,
                self.snapshot()[at.0 as int].path,
            ),
    {
        proof {
            use_type_invariant(self);
        }
        let ghost all = self.snapshot();
        let mut low: usize = 0;
        let mut high: usize = self.entries.len();
        while low < high
            invariant
                low <= high <= all.len(),
                all == self.snapshot(),
                strictly_sorted(all),
                forall|j: int| 0 <= j < low ==> lex_lt(#[trigger] all[j].path, path@),
                forall|j: int| high <= j < all.len() ==> lex_lt(path@, #[trigger] all[j].path),
            decreases high - low,
        {
            let middle = low + (high - low) / 2;
            match lex_position(self.entries[middle].path(), path) {
                Position::Before => {
                    proof {
                        assert forall|j: int| 0 <= j < middle + 1 implies lex_lt(
                            #[trigger] all[j].path,
                            path@,
                        ) by {
                            if j < middle {
                                assert(lex_lt(all[j].path, all[middle as int].path));
                                lemma_lex_transitive(all[j].path, all[middle as int].path, path@);
                            }
                        }
                    }
                    low = middle + 1;
                },
                Position::Same => {
                    proof {
                        assert forall|j: int| 0 <= j < middle implies lex_lt(
                            #[trigger] all[j].path,
                            path@,
                        ) by {
                            assert(lex_lt(all[j].path, all[middle as int].path));
                        }
                    }
                    return (middle, true);
                },
                Position::After => {
                    proof {
                        assert forall|j: int| middle <= j < all.len() implies lex_lt(
                            path@,
                            #[trigger] all[j].path,
                        ) by {
                            if middle < j {
                                assert(lex_lt(all[middle as int].path, all[j].path));
                                lemma_lex_transitive(path@, all[middle as int].path, all[j].path);
                            }
                        }
                    }
                    high = middle;
                },
            }
        }
        (low, false)
    }

    /// Records the file at `path` with content `object_id` and metadata
    /// `stat`. A record already kept under `path` is replaced. A path with a
    /// zero byte is refused and the table stays as it is.
    pub fn add(&mut self, path: Vec<u8>, object_id: [u8; 20], stat: FileStat) -> (added: Result<
        (),
        IndexError,
    >)
        ensures
            added is Err <==> exists|i: int| 0 <= i < path@.len() && path@[i] == 0,
            added is Err ==> added == Err::<(), IndexError>(IndexError::InvalidPath),
            added is Err ==> final(self)@ == old(self)@ && final(self).snapshot() == old(
                self,
            ).snapshot(),
            added is Ok ==> final(self)@ == old(self)@.insert(
                path@,
                entry_for(path@, object_id@, stat),
            ),
            final(self).location() == old(self).location(),
            final(self).staged() == old(self).staged(),
            final(self).phase() == old(self).phase(),
    {
        let entry = match Entry::new(path, object_id, stat) {
            Ok(entry) => entry,
            Err(_) => {
                return Err(IndexError::InvalidPath);
            },
        };
        proof {
            use_type_invariant(&*self);
        }
        let (pos, found) = self.find(entry.path());
        let ghost before = self.snapshot();
        let ghost added = entry@;
        let mut entries: Vec<Entry> = Vec::new();
        core::mem::swap(&mut self.entries, &mut entries);
        if found {
            entries[pos] = entry;
            proof {
                assert(entry_views(entries@) =~= before.update(pos as int, added));
                lemma_replace_at(before, pos as int, added);
            }
        } else {
            entries.insert(pos, entry);
            proof {
                assert(entry_views(entries@) =~= before.insert(pos as int, added));
                lemma_insert_at(before, pos as int, added);
            }
        }
        self.entries = entries;
        Ok(())
    }

    /// The on-disk location that the table is bound to.
    pub fn path(&self) -> (path: &[u8])
        ensures
            path@ == self.location(),
    {
        self.location.as_slice()
    }

    /// The number of records: of paths that the table holds.
    pub fn len(&self) -> (count: usize)
        ensures
            count == self.snapshot().len(),
            count == self@.dom().len(),
    {
        proof {
            use_type_invariant(self);
            lemma_table_of_sorted(self.snapshot());
            lemma_snapshot_len(self.snapshot(), self@);
        }
        self.entries.len()
    }

    /// All records, in strictly increasing lexicographic order of their
    /// paths: each record of the table once.
    pub fn each_entry(&self) -> (all: Vec<Entry>)
        ensures
            entry_views(all@) == self.snapshot(),
            strictly_sorted(entry_views(all@)),
            is_snapshot_of(entry_views(all@), self@),
            forall|i: int| 0 <= i < all@.len() ==> (#[trigger] all@[i])@.wf(),
    {
        proof {
            use_type_invariant(self);
            lemma_table_of_sorted(self.snapshot());
        }
        let mut all: Vec<Entry> = Vec::new();
        let mut i: usize = 0;
        while i < self.entries.len()
            invariant
                i <= self.entries@.len(),
                all@.len() == i,
                forall|j: int| 0 <= j < i ==> (#[trigger] all@[j])@ == self.entries@[j]@,
            decreases self.entries@.len() - i,
        {
            all.push(self.entries[i].clone());
            i = i + 1;
        }
        assert(entry_views(all@) =~= self.snapshot());
        all
    }
}

/// The header of a file with `count` records.
pub fn header_bytes(count: usize) -> (out: Vec<u8>)
    ensures
        out@ == header(count as nat),
{
    let mut out: Vec<u8> = Vec::new();
    out.push(0x44);
    out.push(0x49);
    out.push(0x52);
    out.push(0x43);
    assert(out@ =~= signature());
    push_be32(&mut out, VERSION);
    push_be32(&mut out, (count as u64 % 0x1_0000_0000) as u32);
    out
}

impl Index {
    /// Stages `data` for the writer, after what is staged already. The
    /// checksum that `finish_write` appends covers it.
    pub fn write(&mut self, data: Vec<u8>)
        ensures
            final(self).staged() == old(self).staged() + data@,
            final(self).snapshot() == old(self).snapshot(),
            final(self).location() == old(self).location(),
            final(self).phase() == old(self).phase(),
    {
        proof {
            use_type_invariant(&*self);
        }
        let mut staged: Vec<u8> = Vec::new();
        core::mem::swap(&mut self.staged, &mut staged);
        push_all(&mut staged, data.as_slice());
        self.staged = staged;
    }

    /// Closes what is staged with its checksum, the SHA-1 digest of all the
    /// staged bytes, and hands the whole out. Nothing stays staged.
    pub fn finish_write(&mut self) -> (content: Vec<u8>)
        ensures
            content@ == old(self).staged() + sha1_digest(old(self).staged()),
            sha1_digest(old(self).staged()).len() == 20,
            final(self).staged() == Seq::<u8>::empty(),
            final(self).snapshot() == old(self).snapshot(),
            final(self).location() == old(self).location(),
            final(self).phase() == old(self).phase(),
    {
        proof {
            use_type_invariant(&*self);
        }
        let mut content: Vec<u8> = Vec::new();
        core::mem::swap(&mut self.staged, &mut content);
        let checksum = sha1_of(content.as_slice());
        push_all(&mut content, checksum.as_slice());
        content
    }

    /// One step of replacing the index file through an atomic writer: told
    /// the writer's answer to the last action, says what to ask of it next.
    ///
    /// When the lock is taken, the whole file is handed out in one `Write`:
    /// the header, every record in increasing order of path, and the checksum
    /// of both. The table stays as it is.
    pub fn write_updates(&mut self, event: WriterEvent) -> (action: WriterAction)
        ensures
            final(self).phase() == next_step(old(self).phase(), event).0,
            action.planned() == next_step(old(self).phase(), event).1,
            action matches WriterAction::Write(content) ==> {
                &&& content@ == file_bytes(old(self).snapshot())
                &&& content@.len() >= 20
                &&& content@.subrange(content@.len() - 20, content@.len() as int) == sha1_digest(
                    content@.subrange(0, content@.len() - 20),
                )
            },
            final(self).staged() == if action is Write {
                Seq::<u8>::empty()
            } else {
                old(self).staged()
            },
            final(self)@ == old(self)@,
            final(self).snapshot() == old(self).snapshot(),
            final(self).location() == old(self).location(),
    {
        proof {
            use_type_invariant(&*self);
        }
        match (self.phase, event) {
            (WritePhase::Idle, WriterEvent::Begin) => {
                self.phase = WritePhase::Acquiring;
                WriterAction::Acquire
            },
            (WritePhase::Acquiring, WriterEvent::Acquired) => {
                let ghost all = self.snapshot();
                self.staged = Vec::new();
                self.write(header_bytes(self.entries.len()));
                let mut i: usize = 0;
                while i < self.entries.len()
                    invariant
                        i <= all.len(),
                        self.snapshot() == all,
                        self.entries@.len() == all.len(),
                        self.staged() == header(all.len()) + records(all.subrange(0, i as int)),
                        self.location() == old(self).location(),
                        self.phase() == old(self).phase(),
                    decreases all.len() - i,
                {
                    let record = self.entries[i].encode();
                    proof {
                        assert(all.subrange(0, i + 1).drop_last() =~= all.subrange(0, i as int));
                        assert(all.subrange(0, i + 1).last() == self.entries@[i as int]@);
                    }
                    self.write(record);
                    i = i + 1;
                }
                assert(all.subrange(0, i as int) =~= all);
                let content = self.finish_write();
                proof {
                    use_type_invariant(&*self);
                    let n = content@.len();
                    assert(content@.subrange(0, n - 20) =~= body(all));
                    assert(content@.subrange(n - 20, n as int) =~= sha1_digest(body(all)));
                }
                self.phase = WritePhase::Writing;
                WriterAction::Write(content)
            },
            (WritePhase::Acquiring, WriterEvent::AlreadyHeld) => {
                self.phase = WritePhase::Idle;
                WriterAction::Finish(Err(IndexError::LockHeld))
            },
            (WritePhase::Writing, WriterEvent::Written) => {
                self.phase = WritePhase::Committing;
                WriterAction::Commit
            },
            (WritePhase::Committing, WriterEvent::Committed) => {
                self.phase = WritePhase::Idle;
                WriterAction::Finish(Ok(()))
            },
            _ => {
                self.phase = WritePhase::Idle;
                WriterAction::Finish(Err(IndexError::IoFailure))
            },
        }
    }
}

/// A snapshot has as many records as the table has paths.
pub proof fn lemma_snapshot_len(s: Seq<EntryView>, table: Map<Seq<u8>, EntryView>)
    requires
        is_snapshot_of(s, table),
    ensures
        table.dom().finite(),
        table.dom().len() == s.len(),
    decreases s.len(),
{
    if s.len() == 0 {
        assert(table.dom() =~= Set::<Seq<u8>>::empty());
    } else {
        let last = s.last();
        let rest = s.drop_last();
        let fewer = table.remove(last.path);
        assert forall|i: int| 0 <= i < rest.len() implies fewer.contains_pair(
            #[trigger] rest[i].path,
            rest[i],
        ) by {
            assert(rest[i] == s[i]);
            if s[i].path == last.path {
                lemma_sorted_distinct(s, i, s.len() - 1);
            }
        }
        assert forall|p: Seq<u8>| #[trigger] fewer.dom().contains(p) implies exists|i: int|
            0 <= i < rest.len() && #[trigger] rest[i].path == p by {
            assert(table.dom().contains(p));
            let i = choose|i: int| 0 <= i < s.len() && #[trigger] s[i].path == p;
            assert(rest[i].path == p);
        }
        assert forall|i: int, j: int| 0 <= i < j < rest.len() implies lex_lt(
            #[trigger] rest[i].path,
            #[trigger] rest[j].path,
        ) by {
            assert(rest[i] == s[i] && rest[j] == s[j]);
        }
        lemma_snapshot_len(rest, fewer);
        assert(table.dom().contains(last.path));
        assert(table.dom() =~= fewer.dom().insert(last.path));
    }
}

/// A table has one snapshot: the order of the records is fixed by their
/// paths, whatever the order in which they were added.
pub proof fn lemma_snapshot_unique(a: Seq<EntryView>, b: Seq<EntryView>, table: Map<Seq<u8>, EntryView>)
    requires
        is_snapshot_of(a, table),
        is_snapshot_of(b, table),
    ensures
        a == b,
    decreases a.len(),
{
    if a.len() == 0 {
        if b.len() > 0 {
            assert(table.dom().contains(b[0].path));
        }
        assert(a =~= b);
    } else {
        assert(table.dom().contains(a[0].path));
        let j = choose|j: int| 0 <= j < b.len() && #[trigger] b[j].path == a[0].path;
        assert(table.dom().contains(b[0].path));
        let i = choose|i: int| 0 <= i < a.len() && #[trigger] a[i].path == b[0].path;
        if j > 0 && i > 0 {
            assert(lex_lt(b[0].path, b[j].path));
            assert(lex_lt(a[0].path, a[i].path));
            lemma_lex_transitive(a[0].path, b[0].path, a[0].path);
            lemma_lex_irreflexive(a[0].path);
        }
        assert(a[0].path == b[0].path);
        assert(a[0] == b[0]);
        let first = a[0].path;
        let rest = table.remove(first);
        let ta = a.drop_first();
        let tb = b.drop_first();
        assert forall|k: int| 0 <= k < ta.len() implies rest.contains_pair(
            #[trigger] ta[k].path,
            ta[k],
        ) by {
            assert(ta[k] == a[k + 1]);
            if a[k + 1].path == first {
                lemma_sorted_distinct(a, 0, k + 1);
            }
        }
        assert forall|k: int| 0 <= k < tb.len() implies rest.contains_pair(
            #[trigger] tb[k].path,
            tb[k],
        ) by {
            assert(tb[k] == b[k + 1]);
            if b[k + 1].path == first {
                lemma_sorted_distinct(b, 0, k + 1);
            }
        }
        assert forall|p: Seq<u8>| #[trigger] rest.dom().contains(p) implies (exists|k: int|
            0 <= k < ta.len() && #[trigger] ta[k].path == p) && (exists|k: int|
            0 <= k < tb.len() && #[trigger] tb[k].path == p) by {
            assert(table.dom().contains(p));
            let x = choose|x: int| 0 <= x < a.len() && #[trigger] a[x].path == p;
            assert(ta[x - 1].path == p);
            let y = choose|y: int| 0 <= y < b.len() && #[trigger] b[y].path == p;
            assert(tb[y - 1].path == p);
        }
        assert forall|x: int, y: int| 0 <= x < y < ta.len() implies lex_lt(
            #[trigger] ta[x].path,
            #[trigger] ta[y].path,
        ) by {
            assert(ta[x] == a[x + 1] && ta[y] == a[y + 1]);
        }
        assert forall|x: int, y: int| 0 <= x < y < tb.len() implies lex_lt(
            #[trigger] tb[x].path,
            #[trigger] tb[y].path,
        ) by {
            assert(tb[x] == b[x + 1] && tb[y] == b[y + 1]);
        }
        lemma_snapshot_unique(ta, tb, rest);
        assert forall|k: int| 0 <= k < a.len() implies a[k] == b[k] by {
            if k > 0 {
                assert(ta[k - 1] == a[k] && tb[k - 1] == b[k]);
            }
        }
        assert(a.len() == ta.len() + 1 && b.len() == tb.len() + 1);
        assert(a =~= b);
    }
}

/// Adding a record under a path that the table already holds replaces the
/// record: the table is as if only the later one had been added, and a
/// snapshot shows the later record once and no other under that path.
pub proof fn lemma_last_write_wins(
    table: Map<Seq<u8>, EntryView>,
    first: EntryView,
    second: EntryView,
    snap: Seq<EntryView>,
)
    requires
        first.path == second.path,
        is_snapshot_of(snap, table.insert(first.path, first).insert(second.path, second)),
    ensures
        table.insert(first.path, first).insert(second.path, second) == table.insert(
            second.path,
            second,
        ),
        exists|i: int|
            0 <= i < snap.len() && snap[i] == second && forall|j: int|
                0 <= j < snap.len() && #[trigger] snap[j].path == second.path ==> j == i,
{
    let twice = table.insert(first.path, first).insert(second.path, second);
    assert(twice =~= table.insert(second.path, second));
    assert(twice.dom().contains(second.path));
    let i = choose|i: int| 0 <= i < snap.len() && #[trigger] snap[i].path == second.path;
    assert(twice.contains_pair(snap[i].path, snap[i]));
    assert forall|j: int| 0 <= j < snap.len() && #[trigger] snap[j].path
        == second.path implies j == i by {
        lemma_sorted_distinct(snap, i, j);
    }
}

} // verus!
