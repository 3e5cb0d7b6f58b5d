//! The working tree: where it lies, which of its paths a scan leaves out,
//! and what reading from it gave.

use vstd::prelude::*;
use crate::bytes::{copy_bytes, copy_range, push_all};
use crate::entry::FileStat;
use crate::error::{IndexError, PathError, PathErrorView};
use crate::ignore::{ignored_list, ignored_names, is_listed, name_views};
use crate::paths::{
    has_segment_in, is_open_segment, is_segment, lemma_segment_start, pushed, SEPARATOR,
};
use crate::scan::{fresh, Scanner};

verus! {

/// A working tree and the names that a scan of it leaves out.
#[derive(Debug)]
pub struct Workspace {
    ignore: Vec<Vec<u8>>,
    path: Vec<u8>,
}

impl Workspace {
    #[verifier::type_invariant]
    spec fn leaves_out_the_fixed_names(self) -> bool {
        name_views(self.ignore@) == ignored_names()
    }

    /// Where the working tree lies.
    pub closed spec fn root(&self) -> Seq<u8> {
        self.path@
    }

    /// The working tree at `path`, with the fixed set of names left out.
    pub fn new(path: Vec<u8>) -> (workspace: Workspace)
        ensures
            workspace.root() == path@,
    {
        Workspace { ignore: ignored_list(), path }
    }

    /// Where the working tree lies.
    pub fn path(&self) -> (path: &[u8])
        ensures
            path@ == self.root(),
    {
        self.path.as_slice()
    }

    /// Whether some segment of `path` is a name that a scan leaves out.
    pub fn is_ignored(&self, path: &[u8]) -> (ignored: bool)
        ensures
            ignored == has_segment_in(path@, ignored_names()),
    {
        proof {
            use_type_invariant(self);
        }
        let len = path.len();
        let mut start: usize = 0;
        let mut i: usize = 0;
        while i < len
            invariant
                len == path@.len(),
                start <= i <= len,
                name_views(self.ignore@) == ignored_names(),
                is_open_segment(path@, start as int, i as int),
                forall|from: int, to: int|
                    is_segment(path@, from, to) && to < start ==> !ignored_names().contains(
                        #[trigger] path@.subrange(from, to),
                    ),
            decreases len - i,
        {
            if path[i] == SEPARATOR {
                let segment = copy_range(path, start, i);
                if is_listed(&self.ignore, segment.as_slice()) {
                    assert(is_segment(path@, start as int, i as int));
                    return true;
                }
                proof {
                    assert forall|from: int, to: int|
                        is_segment(path@, from, to) && to < i + 1 implies !ignored_names().contains(
                        #[trigger] path@.subrange(from, to),
                    ) by {
                        if to >= start {
                            lemma_segment_start(path@, start as int, i as int, from, to);
                        }
                    }
                }
                start = i + 1;
            }
            i = i + 1;
        }
        let segment = copy_range(path, start, len);
        let listed = is_listed(&self.ignore, segment.as_slice());
        proof {
            if listed {
                assert(is_segment(path@, start as int, len as int));
            } else {
                assert forall|from: int, to: int| is_segment(path@, from, to) implies !ignored_names().contains(
                    #[trigger] path@.subrange(from, to),
                ) by {
                    if to >= start {
                        lemma_segment_start(path@, start as int, len as int, from, to);
                    }
                }
            }
        }
        listed
    }
}

impl Workspace {
    /// Where the file at `path`, relative to the working tree, lies.
    pub fn absolute(&self, path: &[u8]) -> (whole: Vec<u8>)
        ensures
            whole@ == pushed(self.root(), path@),
    {
        if path.len() > 0 && path[0] == SEPARATOR {
            return copy_bytes(path);
        }
        let mut whole = copy_bytes(self.path.as_slice());
        let len = whole.len();
        if len > 0 && whole[len - 1] != SEPARATOR {
            whole.push(SEPARATOR);
        }
        push_all(&mut whole, path);
        whole
    }

    /// The content of the file at `path`, given what reading it gave: the
    /// bytes as they are, or `IoFailure` at `path` where there are none.
    pub fn read_data(&self, path: Vec<u8>, content: Option<Vec<u8>>) -> (data: Result<
        Vec<u8>,
        PathError,
    >)
        ensures
            match content {
                Some(bytes) => data == Ok::<Vec<u8>, PathError>(bytes),
                None => data matches Err(failure) && failure@ == (PathErrorView {
                    kind: IndexError::IoFailure,
                    path: path@,
                }),
            },
    {
        match content {
            Some(bytes) => Ok(bytes),
            None => Err(PathError { kind: IndexError::IoFailure, path }),
        }
    }

    /// The metadata of the file at `path`, given what the filesystem gave:
    /// the metadata as it is, or `StatFailure` at `path` where there is none.
    pub fn stat_file(&self, path: Vec<u8>, stat: Option<FileStat>) -> (found: Result<
        FileStat,
        PathError,
    >)
        ensures
            match stat {
                Some(given) => found == Ok::<FileStat, PathError>(given),
                None => found matches Err(failure) && failure@ == (PathErrorView {
                    kind: IndexError::StatFailure,
                    path: path@,
                }),
            },
    {
        match stat {
            Some(given) => Ok(given),
            None => Err(PathError { kind: IndexError::StatFailure, path }),
        }
    }

    /// A walk of the working tree that has not begun. It lists the files of
    /// the tree by their paths relative to the root, depth first, and leaves
    /// out every entry whose name is one of the fixed names, with all below
    /// it.
    pub fn list_files(&self) -> (scanner: Scanner)
        ensures
            scanner.state() == fresh(),
    {
        Scanner::new()
    }
}

} // verus!
