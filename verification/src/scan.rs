//! The depth-first walk that lists the files of the working tree.
//!
//! Reading a directory is left to the caller. The walk decides: given the
//! listing of the directory it asked for, it skips the names that are left
//! out, keeps the files, and says which directory to read next. Whoever
//! drives it starts with `ScanEvent::Begin`, reads each directory that a
//! `ScanAction::ReadDir` names, reports what it got as the next event, and
//! stops at `ScanAction::Done`.

use vstd::prelude::*;
use crate::bytes::copy_bytes;
use crate::error::{IndexError, PathError, PathErrorView};
use crate::ignore::{
    all_clear, ignored_list, ignored_names, is_listed, lemma_root_is_clear, name_views,
};
use crate::paths::{
    has_segment_in, is_relative, join, join_path, lemma_join_stays_clear, SEPARATOR,
};

verus! {

/// What a directory entry is.
#[derive(Debug, Clone, Copy, PartialEq, Eq, Structural)]
pub enum FileKind {
    File,
    Directory,
    Other,
}

/// One entry of a directory listing: a name and what it names.
#[derive(Debug)]
pub struct DirEntry {
    pub name: Vec<u8>,
    pub kind: FileKind,
}

/// A directory entry as a mathematical value.
pub struct DirEntryView {
    pub name: Seq<u8>,
    pub kind: FileKind,
}

impl View for DirEntry {
    type V = DirEntryView;

    open spec fn view(&self) -> DirEntryView {
        DirEntryView { name: self.name@, kind: self.kind }
    }
}

/// The entries of `listing` as mathematical values.
pub open spec fn listing_views(listing: Seq<DirEntry>) -> Seq<DirEntryView> {
    Seq::new(listing.len(), |i: int| listing[i]@)
}

/// A file or directory that the walk has yet to visit.
pub struct ItemView {
    pub path: Seq<u8>,
    pub kind: FileKind,
}

/// The walk visits an entry if it names a file or a directory, and its name
/// is a single segment that is not left out.
pub open spec fn is_wanted(entry: DirEntryView, names: Seq<Seq<u8>>) -> bool {
    &&& entry.kind != FileKind::Other
    &&& entry.name.len() > 0
    &&& forall|k: int| 0 <= k < entry.name.len() ==> entry.name[k] != SEPARATOR
    &&& !names.contains(entry.name)
}

/// The entries of `listing` that the walk visits, the last one first, each
/// with its path in `dir`.
pub open spec fn wanted_rev(dir: Seq<u8>, listing: Seq<DirEntryView>, names: Seq<Seq<u8>>) -> Seq<
    ItemView,
>
    decreases listing.len(),
{
    if listing.len() == 0 {
        Seq::empty()
    } else {
        let entry = listing.last();
        let rest = wanted_rev(dir, listing.drop_last(), names);
        if is_wanted(entry, names) {
            seq![ItemView { path: join(dir, entry.name), kind: entry.kind }] + rest
        } else {
            rest
        }
    }
}

/// What the walk has seen and has yet to see.
pub struct ScanState {
    /// Whether the walk was started.
    pub begun: bool,
    /// The directory whose listing was asked for, if any.
    pub awaiting: Option<Seq<u8>>,
    /// What is yet to visit; the last item comes next.
    pub pending: Seq<ItemView>,
    /// The files seen so far, in the order of the walk.
    pub found: Seq<Seq<u8>>,
}

/// What the caller reports to the walk.
pub enum ScanEventView {
    Begin,
    Listing(Seq<DirEntryView>),
    NotADirectory,
    Failed,
}

/// What the walk asks of the caller.
pub enum ScanActionView {
    ReadDir(Seq<u8>),
    Done(Result<Seq<Seq<u8>>, PathErrorView>),
}

/// Visits the pending files, up to the next directory: the files are added
/// to `found`, the directory, if there is one, is to be read next.
pub open spec fn settle(pending: Seq<ItemView>, found: Seq<Seq<u8>>) -> (Seq<ItemView>, Seq<Seq<u8>>, Option<Seq<u8>>)
    decreases pending.len(),
{
    if pending.len() == 0 {
        (pending, found, None)
    } else if pending.last().kind == FileKind::Directory {
        (pending.drop_last(), found, Some(pending.last().path))
    } else {
        settle(pending.drop_last(), found.push(pending.last().path))
    }
}

/// The walk goes on with `pending` and `found`: to the next directory, or to
/// its end, where it hands out the files.
pub open spec fn proceed(pending: Seq<ItemView>, found: Seq<Seq<u8>>) -> (ScanState, ScanActionView) {
    let (rest, seen, next) = settle(pending, found);
    match next {
        Some(dir) => (
            ScanState { begun: true, awaiting: Some(dir), pending: rest, found: seen },
            ScanActionView::ReadDir(dir),
        ),
        None => (finished(), ScanActionView::Done(Ok(seen))),
    }
}

/// The state of a walk that has not begun.
pub open spec fn fresh() -> ScanState {
    ScanState { begun: false, awaiting: None, pending: Seq::empty(), found: Seq::empty() }
}

/// The state of a walk that is over.
pub open spec fn finished() -> ScanState {
    ScanState { begun: true, awaiting: None, pending: Seq::empty(), found: Seq::empty() }
}

/// The walk ends because reading failed at `path`.
pub open spec fn failed(path: Seq<u8>) -> (ScanState, ScanActionView) {
    (
        finished(),
        ScanActionView::Done(Err(PathErrorView { kind: IndexError::IoFailure, path: path })),
    )
}

/// One step of the walk.
///
/// The walk starts by asking for the listing of the root, the empty path.
/// Given the listing of the directory it asked for, it goes through the
/// entries in their order: an entry that is left out is skipped, a file is
/// kept, a directory is read next, and the rest of the listing waits until
/// all below that directory is seen. What turns out to be no directory is
/// kept as a file. Any other answer ends the walk with `IoFailure` at the
/// directory that was asked for, or at the root where none was.
pub open spec fn scan_step(state: ScanState, event: ScanEventView, names: Seq<Seq<u8>>) -> (ScanState, ScanActionView) {
    if !state.begun {
        match event {
            ScanEventView::Begin => (
                ScanState {
                    begun: true,
                    awaiting: Some(Seq::empty()),
                    pending: Seq::empty(),
                    found: Seq::empty(),
                },
                ScanActionView::ReadDir(Seq::empty()),
            ),
            _ => failed(Seq::empty()),
        }
    } else {
        match (state.awaiting, event) {
            (Some(dir), ScanEventView::Listing(listing)) => proceed(
                state.pending + wanted_rev(dir, listing, names),
                state.found,
            ),
            (Some(dir), ScanEventView::NotADirectory) => proceed(
                state.pending,
                state.found.push(dir),
            ),
            (Some(dir), _) => failed(dir),
            (None, _) => failed(Seq::empty()),
        }
    }
}

/// What the caller reports to the walk.
#[derive(Debug)]
pub enum ScanEvent {
    /// Nothing was asked yet: the walk is to start.
    Begin,
    /// The entries of the directory that was asked for, in the order in
    /// which the filesystem gave them.
    Listing(Vec<DirEntry>),
    /// What was asked for is no directory.
    NotADirectory,
    /// Reading failed.
    Failed,
}

impl View for ScanEvent {
    type V = ScanEventView;

    open spec fn view(&self) -> ScanEventView {
        match self {
            ScanEvent::Begin => ScanEventView::Begin,
            ScanEvent::Listing(listing) => ScanEventView::Listing(listing_views(listing@)),
            ScanEvent::NotADirectory => ScanEventView::NotADirectory,
            ScanEvent::Failed => ScanEventView::Failed,
        }
    }
}

/// What the walk asks of the caller.
#[derive(Debug)]
pub enum ScanAction {
    /// List the directory at this path, relative to the root of the walk; the
    /// empty path is the root itself.
    ReadDir(Vec<u8>),
    /// The walk is over: the files, each by its path relative to the root, in
    /// the order of the walk; or the failure and the directory at which it
    /// happened.
    Done(Result<Vec<Vec<u8>>, PathError>),
}

impl View for ScanAction {
    type V = ScanActionView;

    open spec fn view(&self) -> ScanActionView {
        match self {
            ScanAction::ReadDir(dir) => ScanActionView::ReadDir(dir@),
            ScanAction::Done(Ok(files)) => ScanActionView::Done(Ok(name_views(files@))),
            ScanAction::Done(Err(failure)) => ScanActionView::Done(Err(failure@)),
        }
    }
}

/// A file or directory that the walk has yet to visit.
#[derive(Debug)]
struct Item {
    path: Vec<u8>,
    kind: FileKind,
}

impl View for Item {
    type V = ItemView;

    closed spec fn view(&self) -> ItemView {
        ItemView { path: self.path@, kind: self.kind }
    }
}

spec fn item_views(items: Seq<Item>) -> Seq<ItemView> {
    Seq::new(items.len(), |i: int| items[i]@)
}

/// No path among `items` has a segment that a scan leaves out.
spec fn items_clear(items: Seq<ItemView>) -> bool {
    forall|i: int| 0 <= i < items.len() ==> !has_segment_in(#[trigger] items[i].path, ignored_names())
}

/// Every path among `paths` is relative.
pub open spec fn all_relative(paths: Seq<Seq<u8>>) -> bool {
    forall|i: int| 0 <= i < paths.len() ==> is_relative(#[trigger] paths[i])
}

/// Every path among `items` is relative.
spec fn items_relative(items: Seq<ItemView>) -> bool {
    forall|i: int| 0 <= i < items.len() ==> is_relative(#[trigger] items[i].path)
}

/// Whether the walk visits `entry`.
fn wants(ignore: &Vec<Vec<u8>>, entry: &DirEntry) -> (wanted: bool)
    ensures
        wanted == is_wanted(entry@, name_views(ignore@)),
{
    match entry.kind {
        FileKind::Other => {
            return false;
        },
        _ => {},
    }
    let name = entry.name.as_slice();
    if name.len() == 0 {
        return false;
    }
    let mut k: usize = 0;
    while k < name.len()
        invariant
            k <= name@.len(),
            name@ == entry@.name,
            forall|j: int| 0 <= j < k ==> name@[j] != SEPARATOR,
        decreases name@.len() - k,
    {
        if name[k] == SEPARATOR {
            assert(entry@.name[k as int] == SEPARATOR);
            return false;
        }
        k = k + 1;
    }
    !is_listed(ignore, name)
}

/// Puts the entries of `listing` that the walk visits on `pending`, the last
/// one first, so that the first one comes next.
fn queue_wanted(ignore: &Vec<Vec<u8>>, dir: &[u8], listing: &Vec<DirEntry>, pending: &mut Vec<Item>)
    requires
        name_views(ignore@) == ignored_names(),
        !has_segment_in(dir@, ignored_names()),
        is_relative(dir@),
        items_clear(item_views(old(pending)@)),
        items_relative(item_views(old(pending)@)),
    ensures
        item_views(final(pending)@) == item_views(old(pending)@) + wanted_rev(
            dir@,
            listing_views(listing@),
            ignored_names(),
        ),
        items_clear(item_views(final(pending)@)),
        items_relative(item_views(final(pending)@)),
{
    let ghost before = item_views(pending@);
    let ghost entries = listing_views(listing@);
    let mut i: usize = listing.len();
    assert(entries.subrange(0, i as int) =~= entries);
    while i > 0
        invariant
            i <= listing@.len(),
            entries == listing_views(listing@),
            name_views(ignore@) == ignored_names(),
            !has_segment_in(dir@, ignored_names()),
            is_relative(dir@),
            items_clear(item_views(pending@)),
            items_relative(item_views(pending@)),
            item_views(pending@) + wanted_rev(dir@, entries.subrange(0, i as int), ignored_names())
                == before + wanted_rev(dir@, entries, ignored_names()),
        decreases i,
    {
        i = i - 1;
        let entry = &listing[i];
        let ghost head = entries.subrange(0, i + 1);
        let ghost shown = item_views(pending@);
        proof {
            assert(head.last() == entry@);
            assert(head.drop_last() =~= entries.subrange(0, i as int));
        }
        if wants(ignore, entry) {
            let path = join_path(dir, entry.name.as_slice());
            proof {
                lemma_join_stays_clear(dir@, entry@.name, ignored_names());
            }
            let item = Item { path, kind: entry.kind };
            let ghost shown_item = item@;
            pending.push(item);
            proof {
                assert(item_views(pending@) =~= shown.push(shown_item));
                assert(shown.push(shown_item) + wanted_rev(
                    dir@,
                    entries.subrange(0, i as int),
                    ignored_names(),
                ) =~= shown + wanted_rev(dir@, head, ignored_names()));
            }
        }
    }
    assert(entries.subrange(0, 0) =~= Seq::<DirEntryView>::empty());
    assert(item_views(pending@) =~= before + wanted_rev(dir@, entries, ignored_names()));
}

/// A depth-first walk of the working tree, driven by the caller's reads.
#[derive(Debug)]
pub struct Scanner {
    ignore: Vec<Vec<u8>>,
    begun: bool,
    awaiting: Option<Vec<u8>>,
    pending: Vec<Item>,
    found: Vec<Vec<u8>>,
}

impl Scanner {
    #[verifier::type_invariant]
    spec fn visits_nothing_left_out(self) -> bool {
        &&& name_views(self.ignore@) == ignored_names()
        &&& items_clear(item_views(self.pending@))
        &&& items_relative(item_views(self.pending@))
        &&& all_clear(name_views(self.found@))
        &&& all_relative(name_views(self.found@))
        &&& self.awaiting matches Some(dir) ==> !has_segment_in(dir@, ignored_names())
            && is_relative(dir@)
    }

    /// What the walk has seen and has yet to see.
    pub closed spec fn state(&self) -> ScanState {
        ScanState {
            begun: self.begun,
            awaiting: match self.awaiting {
                Some(dir) => Some(dir@),
                None => None,
            },
            pending: item_views(self.pending@),
            found: name_views(self.found@),
        }
    }

    /// A walk that has not begun.
    pub fn new() -> (scanner: Scanner)
        ensures
            scanner.state() == fresh(),
    {
        let scanner = Scanner {
            ignore: ignored_list(),
            begun: false,
            awaiting: None,
            pending: Vec::new(),
            found: Vec::new(),
        };
        assert(scanner.state().pending =~= Seq::<ItemView>::empty());
        assert(scanner.state().found =~= Seq::<Seq<u8>>::empty());
        scanner
    }

    /// One step of the walk: told what the caller read, says what to read
    /// next, or hands out the files. No file is handed out whose path has a
    /// segment that a scan leaves out: nothing in or below a directory of
    /// such a name. Every path handed out is relative to the root of the
    /// walk.
    #[verifier::loop_isolation(false)]
    pub fn step(&mut self, event: ScanEvent) -> (action: ScanAction)
        ensures
            (final(self).state(), action@) == scan_step(old(self).state(), event@, ignored_names()),
            action@ matches ScanActionView::Done(Ok(files)) ==> all_clear(files) && all_relative(
                files,
            ),
    {
        proof {
            use_type_invariant(&*self);
            lemma_root_is_clear();
        }
        let ghost target = scan_step(self.state(), event@, ignored_names());
        let mut pending: Vec<Item> = Vec::new();
        core::mem::swap(&mut self.pending, &mut pending);
        let mut found: Vec<Vec<u8>> = Vec::new();
        core::mem::swap(&mut self.found, &mut found);
        let mut awaiting: Option<Vec<u8>> = None;
        core::mem::swap(&mut self.awaiting, &mut awaiting);
        assert(name_views(self.found@) =~= Seq::<Seq<u8>>::empty());
        assert(item_views(self.pending@) =~= Seq::<ItemView>::empty());
        if !self.begun {
            self.begun = true;
            match event {
                ScanEvent::Begin => {
                    self.awaiting = Some(Vec::new());
                    return ScanAction::ReadDir(Vec::new());
                },
                _ => {
                    return ScanAction::Done(
                        Err(PathError { kind: IndexError::IoFailure, path: Vec::new() }),
                    );
                },
            }
        }
        match (awaiting, event) {
            (Some(dir), ScanEvent::Listing(listing)) => {
                queue_wanted(&self.ignore, dir.as_slice(), &listing, &mut pending);
            },
            (Some(dir), ScanEvent::NotADirectory) => {
                let ghost seen = name_views(found@);
                found.push(dir);
                assert(name_views(found@) =~= seen.push(dir@));
            },
            (Some(dir), _) => {
                return ScanAction::Done(Err(PathError { kind: IndexError::IoFailure, path: dir }));
            },
            (None, _) => {
                return ScanAction::Done(
                    Err(PathError { kind: IndexError::IoFailure, path: Vec::new() }),
                );
            },
        }
        assert(proceed(item_views(pending@), name_views(found@)) == target);
        while pending.len() > 0
            invariant
                items_clear(item_views(pending@)),
                items_relative(item_views(pending@)),
                all_clear(name_views(found@)),
                all_relative(name_views(found@)),
                proceed(item_views(pending@), name_views(found@)) == target,
                self.begun,
                self.awaiting is None,
                name_views(self.ignore@) == ignored_names(),
                name_views(self.found@) == Seq::<Seq<u8>>::empty(),
                item_views(self.pending@) == Seq::<ItemView>::empty(),
            decreases pending@.len(),
        {
            let ghost shown = item_views(pending@);
            let ghost seen = name_views(found@);
            let item = pending.pop().unwrap();
            proof {
                assert(item@ == shown.last());
                assert(item_views(pending@) =~= shown.drop_last());
            }
            match item.kind {
                FileKind::Directory => {
                    let next = copy_bytes(item.path.as_slice());
                    self.pending = pending;
                    self.found = found;
                    self.awaiting = Some(item.path);
                    return ScanAction::ReadDir(next);
                },
                _ => {
                    found.push(item.path);
                    proof {
                        assert(name_views(found@) =~= seen.push(item@.path));
                    }
                },
            }
        }
        assert(item_views(pending@) =~= Seq::<ItemView>::empty());
        ScanAction::Done(Ok(found))
    }
}

} // verus!
