//! Paths as byte strings: their segments, and how one path is put after
//! another.

use vstd::prelude::*;
use crate::bytes::{copy_bytes, push_all};

verus! {

/// The byte that separates the segments of a path.
pub const SEPARATOR: u8 = 0x2F;

/// The bytes of `path` from `from` up to `to` are one whole segment: they
/// hold no separator and are bounded by separators or by the ends of `path`.
pub open spec fn is_segment(path: Seq<u8>, from: int, to: int) -> bool {
    &&& 0 <= from <= to <= path.len()
    &&& (from == 0 || path[from - 1] == SEPARATOR)
    &&& (to == path.len() || path[to] == SEPARATOR)
    &&& forall|k: int| from <= k < to ==> path[k] != SEPARATOR
}

/// Some segment of `path` is one of `names`.
pub open spec fn has_segment_in(path: Seq<u8>, names: Seq<Seq<u8>>) -> bool {
    exists|from: int, to: int|
        is_segment(path, from, to) && names.contains(#[trigger] path.subrange(from, to))
}

/// The path of `name` in the directory `dir`; the empty `dir` is the root.
pub open spec fn join(dir: Seq<u8>, name: Seq<u8>) -> Seq<u8> {
    if dir.len() == 0 {
        name
    } else {
        dir + seq![SEPARATOR] + name
    }
}

/// A segment starts at `start` and holds no separator up to `upto`.
pub open spec fn is_open_segment(path: Seq<u8>, start: int, upto: int) -> bool {
    &&& 0 <= start <= upto <= path.len()
    &&& (start == 0 || path[start - 1] == SEPARATOR)
    &&& forall|k: int| start <= k < upto ==> path[k] != SEPARATOR
}

/// A segment that ends no earlier than an open segment starts, and no later
/// than it reaches, is that segment, ended where the open one has its end.
pub proof fn lemma_segment_start(path: Seq<u8>, start: int, upto: int, from: int, to: int)
    requires
        is_open_segment(path, start, upto),
        upto == path.len() || path[upto] == SEPARATOR,
        is_segment(path, from, to),
        start <= to <= upto,
    ensures
        from == start,
        to == upto,
{
    if to < upto {
        assert(path[to] == SEPARATOR);
    }
    if from < start {
        assert(path[start - 1] == SEPARATOR);
    }
    if from > start {
        assert(path[from - 1] == SEPARATOR);
    }
}

/// `path` does not start at the root of the filesystem: it is relative.
pub open spec fn is_relative(path: Seq<u8>) -> bool {
    path.len() == 0 || path[0] != SEPARATOR
}

/// The path of `name` in the directory `dir`.
pub fn join_path(dir: &[u8], name: &[u8]) -> (path: Vec<u8>)
    ensures
        path@ == join(dir@, name@),
{
    if dir.len() == 0 {
        copy_bytes(name)
    } else {
        let mut path = copy_bytes(dir);
        path.push(SEPARATOR);
        push_all(&mut path, name);
        path
    }
}

/// `path` as seen from `base`: `path` itself where it starts at the root of
/// the filesystem, else `base` with `path` after it, a separator between them
/// where `base` does not end in one.
pub open spec fn pushed(base: Seq<u8>, path: Seq<u8>) -> Seq<u8> {
    if path.len() > 0 && path[0] == SEPARATOR {
        path
    } else if base.len() == 0 || base.last() == SEPARATOR {
        base + path
    } else {
        base + seq![SEPARATOR] + path
    }
}

/// A path with no segment in `names` gets none by a further segment that is
/// not in `names`.
pub proof fn lemma_join_stays_clear(dir: Seq<u8>, name: Seq<u8>, names: Seq<Seq<u8>>)
    requires
        dir.len() == 0 || !has_segment_in(dir, names),
        forall|k: int| 0 <= k < name.len() ==> name[k] != SEPARATOR,
        !names.contains(name),
    ensures
        !has_segment_in(join(dir, name), names),
{
    let path = join(dir, name);
    assert forall|from: int, to: int| is_segment(path, from, to) implies !names.contains(
        #[trigger] path.subrange(from, to),
    ) by {
        if dir.len() == 0 {
            if from > 0 {
                assert(path[from - 1] == SEPARATOR);
            }
            if to < path.len() {
                assert(path[to] == SEPARATOR);
            }
            assert(path.subrange(from, to) =~= name);
        } else {
            let split = dir.len() as int;
            assert(path[split] == SEPARATOR);
            if to <= split {
                assert(is_segment(dir, from, to)) by {
                    if from > 0 {
                        assert(path[from - 1] == dir[from - 1]);
                    }
                    if to < split {
                        assert(path[to] == dir[to]);
                    }
                    assert forall|k: int| from <= k < to implies dir[k] != SEPARATOR by {
                        assert(path[k] == dir[k]);
                    }
                }
                assert(path.subrange(from, to) =~= dir.subrange(from, to));
            } else {
                if from <= split {
                    assert(path[split] != SEPARATOR);
                }
                if from > split + 1 {
                    assert(path[from - 1] == name[from - 1 - split - 1]);
                }
                if to < path.len() {
                    assert(path[to] == name[to - split - 1]);
                }
                assert(path.subrange(from, to) =~= name);
            }
        }
    }
}

} // verus!
