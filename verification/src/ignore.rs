//! The names that a scan of the working tree leaves out.

use vstd::prelude::*;
use crate::bytes::same_bytes;
use crate::paths::{has_segment_in, is_segment};

verus! {

/// The names that a scan leaves out: `.`, `..`, `.vscode`, `.git`, `target`,
/// `src` and `.gitignore`.
pub open spec fn ignored_names() -> Seq<Seq<u8>> {
    seq![
        seq![0x2Eu8],
        seq![0x2Eu8, 0x2Eu8],
        seq![0x2Eu8, 0x76u8, 0x73u8, 0x63u8, 0x6Fu8, 0x64u8, 0x65u8],
        seq![0x2Eu8, 0x67u8, 0x69u8, 0x74u8],
        seq![0x74u8, 0x61u8, 0x72u8, 0x67u8, 0x65u8, 0x74u8],
        seq![0x73u8, 0x72u8, 0x63u8],
        seq![0x2Eu8, 0x67u8, 0x69u8, 0x74u8, 0x69u8, 0x67u8, 0x6Eu8, 0x6Fu8, 0x72u8, 0x65u8],
    ]
}

/// The byte strings of `names`.
pub open spec fn name_views(names: Seq<Vec<u8>>) -> Seq<Seq<u8>> {
    Seq::new(names.len(), |i: int| names[i]@)
}

/// No path among `paths` has a segment that a scan leaves out.
pub open spec fn all_clear(paths: Seq<Seq<u8>>) -> bool {
    forall|i: int| 0 <= i < paths.len() ==> !has_segment_in(#[trigger] paths[i], ignored_names())
}

/// Whether `name` is one of `names`.
pub fn is_listed(names: &Vec<Vec<u8>>, name: &[u8]) -> (listed: bool)
    ensures
        listed == name_views(names@).contains(name@),
{
    let mut i: usize = 0;
    while i < names.len()
        invariant
            i <= names@.len(),
            forall|j: int| 0 <= j < i ==> name_views(names@)[j] != name@,
        decreases names@.len() - i,
    {
        if same_bytes(names[i].as_slice(), name) {
            assert(name_views(names@)[i as int] == name@);
            return true;
        }
        i = i + 1;
    }
    false
}

/// The names that a scan leaves out, as vectors.
pub fn ignored_list() -> (ignore: Vec<Vec<u8>>)
    ensures
        name_views(ignore@) == ignored_names(),
{
    let mut ignore: Vec<Vec<u8>> = Vec::new();
    ignore.push(vec![0x2Eu8]);
    ignore.push(vec![0x2Eu8, 0x2Eu8]);
    ignore.push(vec![0x2Eu8, 0x76u8, 0x73u8, 0x63u8, 0x6Fu8, 0x64u8, 0x65u8]);
    ignore.push(vec![0x2Eu8, 0x67u8, 0x69u8, 0x74u8]);
    ignore.push(vec![0x74u8, 0x61u8, 0x72u8, 0x67u8, 0x65u8, 0x74u8]);
    ignore.push(vec![0x73u8, 0x72u8, 0x63u8]);
    ignore.push(
        vec![0x2Eu8, 0x67u8, 0x69u8, 0x74u8, 0x69u8, 0x67u8, 0x6Eu8, 0x6Fu8, 0x72u8, 0x65u8],
    );
    proof {
        let have = name_views(ignore@);
        let want = ignored_names();
        assert(have.len() == want.len());
        assert(have[0] =~= want[0]);
        assert(have[1] =~= want[1]);
        assert(have[2] =~= want[2]);
        assert(have[3] =~= want[3]);
        assert(have[4] =~= want[4]);
        assert(have[5] =~= want[5]);
        assert(have[6] =~= want[6]);
        assert(have =~= want);
    }
    ignore
}

/// No segment of the empty path is a name that a scan leaves out.
pub proof fn lemma_root_is_clear()
    ensures
        !has_segment_in(Seq::<u8>::empty(), ignored_names()),
{
    let root = Seq::<u8>::empty();
    assert forall|from: int, to: int| is_segment(root, from, to) implies !ignored_names().contains(
        #[trigger] root.subrange(from, to),
    ) by {
        let part = root.subrange(from, to);
        if ignored_names().contains(part) {
            let i = choose|i: int| 0 <= i < ignored_names().len() && ignored_names()[i] == part;
            assert(ignored_names()[i].len() > 0);
        }
    }
}

/// A directory named `.git` is left out.
pub proof fn lemma_dot_git_is_ignored()
    ensures
        ignored_names().contains(seq![0x2Eu8, 0x67u8, 0x69u8, 0x74u8]),
{
    assert(ignored_names()[3] =~= seq![0x2Eu8, 0x67u8, 0x69u8, 0x74u8]);
}

/// Among paths of which none has a segment that a scan leaves out, none lies
/// in or below a directory named `.git`, at whatever depth: no segment of any
/// of them is `.git`.
pub proof fn lemma_nothing_under_dot_git(paths: Seq<Seq<u8>>, i: int, from: int, to: int)
    requires
        all_clear(paths),
        0 <= i < paths.len(),
        is_segment(paths[i], from, to),
    ensures
        paths[i].subrange(from, to) != seq![0x2Eu8, 0x67u8, 0x69u8, 0x74u8],
{
    lemma_dot_git_is_ignored();
}

} // verus!
