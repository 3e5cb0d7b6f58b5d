//! One tracked file's record and its binary form.
//!
//! A record is ten big-endian 32-bit fields, the twenty bytes of the content
//! id, a big-endian 16-bit flags field, the path, and one to eight zero bytes
//! that bring the length to a multiple of eight.

use vstd::prelude::*;
use crate::bytes::{
    be16, be32, copy_bytes, copy_range, has_zero, lemma_be16_inverse, lemma_be32_inverse,
    push_all, push_be16, push_be32, read_be16, read_be32, zeros,
};
use crate::error::IndexError;

verus! {

/// The mode recorded for a file that its owner may not execute.
pub const MODE_REGULAR: u32 = 0x0000_81A4;

/// The mode recorded for a file that its owner may execute.
pub const MODE_EXECUTABLE: u32 = 0x0000_81ED;

/// The permission bit that tells the two modes apart.
pub const OWNER_EXECUTE: u32 = 0x40;

/// The largest path length that the flags field can hold.
pub const MAX_FLAG_LEN: u16 = 0x0FFF;

/// The length of a content id.
pub const OID_LEN: usize = 20;

/// Where the path starts in a record: after the fixed fields, the content id
/// and the flags.
pub const PATH_OFFSET: usize = 62;

/// What the filesystem says of a file, as plain numbers.
#[derive(Debug, Clone, Copy, PartialEq, Eq, Structural)]
pub struct FileStat {
    pub ctime: i64,
    pub ctime_nsec: i64,
    pub mtime: i64,
    pub mtime_nsec: i64,
    pub dev: u64,
    pub ino: u64,
    pub mode: u32,
    pub uid: u32,
    pub gid: u32,
    pub size: u64,
}

/// The low 32 bits of a number, in two's complement where it is negative.
pub open spec fn low32(x: int) -> u32 {
    (x % 0x1_0000_0000) as u32
}

/// The mode recorded for a file with the permission bits `mode`.
pub open spec fn canonical_mode(mode: u32) -> u32 {
    if mode & OWNER_EXECUTE != 0 {
        MODE_EXECUTABLE
    } else {
        MODE_REGULAR
    }
}

/// The flags recorded for a path of `len` bytes: the length, or 4095 where the
/// path is longer.
pub open spec fn path_flags(len: nat) -> u16 {
    if len < MAX_FLAG_LEN {
        len as u16
    } else {
        MAX_FLAG_LEN
    }
}

/// The number of zero bytes after a path of `path_len` bytes: at least one,
/// and as many as bring the record to a multiple of eight.
pub open spec fn padding_len(path_len: nat) -> nat {
    (8 - (PATH_OFFSET + path_len) % 8) as nat
}

/// A record as a mathematical value.
pub struct EntryView {
    pub ctime: u32,
    pub ctime_nsec: u32,
    pub mtime: u32,
    pub mtime_nsec: u32,
    pub dev: u32,
    pub ino: u32,
    pub mode: u32,
    pub uid: u32,
    pub gid: u32,
    pub size: u32,
    pub oid: Seq<u8>,
    pub flags: u16,
    pub path: Seq<u8>,
}

impl EntryView {
    /// The record is one that the index can hold: its mode is one of the two
    /// recorded modes, its content id has twenty bytes, its flags belong to
    /// its path, and its path has no zero byte.
    pub open spec fn wf(self) -> bool {
        &&& self.mode == MODE_REGULAR || self.mode == MODE_EXECUTABLE
        &&& self.oid.len() == OID_LEN
        &&& self.flags == path_flags(self.path.len())
        &&& forall|i: int| 0 <= i < self.path.len() ==> self.path[i] != 0
    }

    /// The first 62 bytes of the record: everything before the path.
    pub open spec fn fixed_part(self) -> Seq<u8> {
        be32(self.ctime) + be32(self.ctime_nsec) + be32(self.mtime) + be32(self.mtime_nsec)
            + be32(self.dev) + be32(self.ino) + be32(self.mode) + be32(self.uid) + be32(self.gid)
            + be32(self.size) + self.oid + be16(self.flags)
    }

    /// The record's binary form.
    pub open spec fn encoding(self) -> Seq<u8> {
        self.fixed_part() + self.path + zeros(padding_len(self.path.len()))
    }
}

/// The record of the file at `path` with content `oid` and metadata `stat`.
pub open spec fn entry_for(path: Seq<u8>, oid: Seq<u8>, stat: FileStat) -> EntryView {
    EntryView {
        ctime: low32(stat.ctime as int),
        ctime_nsec: low32(stat.ctime_nsec as int),
        mtime: low32(stat.mtime as int),
        mtime_nsec: low32(stat.mtime_nsec as int),
        dev: low32(stat.dev as int),
        ino: low32(stat.ino as int),
        mode: canonical_mode(stat.mode),
        uid: stat.uid,
        gid: stat.gid,
        size: low32(stat.size as int),
        oid: oid,
        flags: path_flags(path.len()),
        path: path,
    }
}

/// `bytes` starts with the binary form of the record `e`.
pub open spec fn decodes_to(bytes: Seq<u8>, e: EntryView) -> bool {
    e.wf() && e.encoding().is_prefix_of(bytes)
}

/// One tracked file's record.
#[derive(Debug)]
pub struct Entry {
    ctime: u32,
    ctime_nsec: u32,
    mtime: u32,
    mtime_nsec: u32,
    dev: u32,
    ino: u32,
    mode: u32,
    uid: u32,
    gid: u32,
    size: u32,
    oid: [u8; 20],
    flags: u16,
    path: Vec<u8>,
}

impl View for Entry {
    type V = EntryView;

    closed spec fn view(&self) -> EntryView {
        EntryView {
            ctime: self.ctime,
            ctime_nsec: self.ctime_nsec,
            mtime: self.mtime,
            mtime_nsec: self.mtime_nsec,
            dev: self.dev,
            ino: self.ino,
            mode: self.mode,
            uid: self.uid,
            gid: self.gid,
            size: self.size,
            oid: self.oid@,
            flags: self.flags,
            path: self.path@,
        }
    }
}

impl Clone for Entry {
    fn clone(&self) -> (copy: Entry)
        ensures
            copy@ == self@,
    {
        Entry {
            ctime: self.ctime,
            ctime_nsec: self.ctime_nsec,
            mtime: self.mtime,
            mtime_nsec: self.mtime_nsec,
            dev: self.dev,
            ino: self.ino,
            mode: self.mode,
            uid: self.uid,
            gid: self.gid,
            size: self.size,
            oid: self.oid,
            flags: self.flags,
            path: copy_bytes(self.path.as_slice()),
        }
    }
}

fn low32_of_u64(x: u64) -> (low: u32)
    ensures
        low == low32(x as int),
{
    (x % 0x1_0000_0000) as u32
}

fn low32_of_i64(x: i64) -> (low: u32)
    ensures
        low == low32(x as int),
{
    if x >= 0 {
        low32_of_u64(x as u64)
    } else {
        // x is -(y + 1), so its low bits are those of y, each one flipped.
        let y: u64 = (-(x + 1)) as u64;
        0xFFFF_FFFF - low32_of_u64(y)
    }
}

impl Entry {
    /// The record of the file at `path` with content `object_id` and metadata
    /// `stat`. Timestamps, device, inode and size keep their low 32 bits; of
    /// the permission bits only the owner's execute bit is kept. A path with a
    /// zero byte is refused: no reader could find where it ends.
    pub fn new(path: Vec<u8>, object_id: [u8; 20], stat: FileStat) -> (made: Result<Entry, IndexError>)
        ensures
            made is Err <==> exists|i: int| 0 <= i < path@.len() && path@[i] == 0,
            made is Err ==> made == Err::<Entry, IndexError>(IndexError::EncodingError),
            made is Ok ==> made->Ok_0@ == entry_for(path@, object_id@, stat) && made->Ok_0@.wf(),
    {
        if has_zero(path.as_slice()) {
            return Err(IndexError::EncodingError);
        }
        let mode: u32 = if stat.mode & OWNER_EXECUTE != 0 {
            MODE_EXECUTABLE
        } else {
            MODE_REGULAR
        };
        let flags: u16 = if path.len() < 0x0FFF {
            path.len() as u16
        } else {
            MAX_FLAG_LEN
        };
        Ok(
            Entry {
                ctime: low32_of_i64(stat.ctime),
                ctime_nsec: low32_of_i64(stat.ctime_nsec),
                mtime: low32_of_i64(stat.mtime),
                mtime_nsec: low32_of_i64(stat.mtime_nsec),
                dev: low32_of_u64(stat.dev),
                ino: low32_of_u64(stat.ino),
                mode,
                uid: stat.uid,
                gid: stat.gid,
                size: low32_of_u64(stat.size),
                oid: object_id,
                flags,
                path,
            },
        )
    }

    /// The record's binary form: the fixed fields, the content id, the flags,
    /// the path, and one to eight zero bytes up to the next multiple of eight.
    pub fn encode(&self) -> (out: Vec<u8>)
        ensures
            out@ == self@.encoding(),
            out@.len() == PATH_OFFSET + self@.path.len() + padding_len(self@.path.len()),
            out@.len() % 8 == 0,
    {
        let mut out: Vec<u8> = Vec::new();
        push_be32(&mut out, self.ctime);
        push_be32(&mut out, self.ctime_nsec);
        push_be32(&mut out, self.mtime);
        push_be32(&mut out, self.mtime_nsec);
        push_be32(&mut out, self.dev);
        push_be32(&mut out, self.ino);
        push_be32(&mut out, self.mode);
        push_be32(&mut out, self.uid);
        push_be32(&mut out, self.gid);
        push_be32(&mut out, self.size);
        push_all(&mut out, self.oid.as_slice());
        push_be16(&mut out, self.flags);
        assert(out@ == self@.fixed_part());
        assert(out@.len() == PATH_OFFSET);
        push_all(&mut out, self.path.as_slice());
        let ghost unpadded = out@;
        out.push(0);
        let mut pad: usize = 1;
        while out.len() % 8 != 0
            invariant
                unpadded.len() == PATH_OFFSET + self@.path.len(),
                out@ == unpadded + zeros(pad as nat),
                1 <= pad <= padding_len(self@.path.len()),
            decreases 8 - pad,
        {
            out.push(0);
            pad = pad + 1;
        }
        out
    }
}

/// Where each part of a record lies in its binary form.
pub proof fn lemma_encoding_layout(e: EntryView)
    requires
        e.oid.len() == OID_LEN,
    ensures
        e.fixed_part().len() == PATH_OFFSET,
        e.encoding().len() == PATH_OFFSET + e.path.len() + padding_len(e.path.len()),
        e.encoding().len() % 8 == 0,
        e.encoding().subrange(0, 4) == be32(e.ctime),
        e.encoding().subrange(4, 8) == be32(e.ctime_nsec),
        e.encoding().subrange(8, 12) == be32(e.mtime),
        e.encoding().subrange(12, 16) == be32(e.mtime_nsec),
        e.encoding().subrange(16, 20) == be32(e.dev),
        e.encoding().subrange(20, 24) == be32(e.ino),
        e.encoding().subrange(24, 28) == be32(e.mode),
        e.encoding().subrange(28, 32) == be32(e.uid),
        e.encoding().subrange(32, 36) == be32(e.gid),
        e.encoding().subrange(36, 40) == be32(e.size),
        e.encoding().subrange(40, 60) == e.oid,
        e.encoding().subrange(60, 62) == be16(e.flags),
        e.encoding().subrange(PATH_OFFSET as int, PATH_OFFSET + e.path.len()) == e.path,
        forall|k: int|
            PATH_OFFSET + e.path.len() <= k < e.encoding().len() ==> e.encoding()[k] == 0,
{
    let enc = e.encoding();
    assert(enc.subrange(0, 4) =~= be32(e.ctime));
    assert(enc.subrange(4, 8) =~= be32(e.ctime_nsec));
    assert(enc.subrange(8, 12) =~= be32(e.mtime));
    assert(enc.subrange(12, 16) =~= be32(e.mtime_nsec));
    assert(enc.subrange(16, 20) =~= be32(e.dev));
    assert(enc.subrange(20, 24) =~= be32(e.ino));
    assert(enc.subrange(24, 28) =~= be32(e.mode));
    assert(enc.subrange(28, 32) =~= be32(e.uid));
    assert(enc.subrange(32, 36) =~= be32(e.gid));
    assert(enc.subrange(36, 40) =~= be32(e.size));
    assert(enc.subrange(40, 60) =~= e.oid);
    assert(enc.subrange(60, 62) =~= be16(e.flags));
    assert(enc.subrange(PATH_OFFSET as int, PATH_OFFSET + e.path.len()) =~= e.path);
}

/// A record's binary form is built from its parts as they lie in `bytes`.
proof fn lemma_encoding_from_parts(bytes: Seq<u8>, e: EntryView, end: int)
    requires
        e.oid.len() == OID_LEN,
        end == PATH_OFFSET + e.path.len(),
        end + padding_len(e.path.len()) <= bytes.len(),
        bytes.subrange(0, 4) == be32(e.ctime),
        bytes.subrange(4, 8) == be32(e.ctime_nsec),
        bytes.subrange(8, 12) == be32(e.mtime),
        bytes.subrange(12, 16) == be32(e.mtime_nsec),
        bytes.subrange(16, 20) == be32(e.dev),
        bytes.subrange(20, 24) == be32(e.ino),
        bytes.subrange(24, 28) == be32(e.mode),
        bytes.subrange(28, 32) == be32(e.uid),
        bytes.subrange(32, 36) == be32(e.gid),
        bytes.subrange(36, 40) == be32(e.size),
        bytes.subrange(40, 60) == e.oid,
        bytes.subrange(60, 62) == be16(e.flags),
        bytes.subrange(PATH_OFFSET as int, end) == e.path,
        forall|k: int| end <= k < end + padding_len(e.path.len()) ==> bytes[k] == 0,
    ensures
        e.encoding().is_prefix_of(bytes),
{
    lemma_encoding_layout(e);
    let enc = e.encoding();
    let head = bytes.subrange(0, enc.len() as int);
    assert forall|i: int| 0 <= i < enc.len() implies enc[i] == head[i] by {
        if i < 4 {
            assert(enc[i] == enc.subrange(0, 4)[i]);
            assert(bytes[i] == bytes.subrange(0, 4)[i]);
        } else if i < 8 {
            assert(enc[i] == enc.subrange(4, 8)[i - 4]);
            assert(bytes[i] == bytes.subrange(4, 8)[i - 4]);
        } else if i < 12 {
            assert(enc[i] == enc.subrange(8, 12)[i - 8]);
            assert(bytes[i] == bytes.subrange(8, 12)[i - 8]);
        } else if i < 16 {
            assert(enc[i] == enc.subrange(12, 16)[i - 12]);
            assert(bytes[i] == bytes.subrange(12, 16)[i - 12]);
        } else if i < 20 {
            assert(enc[i] == enc.subrange(16, 20)[i - 16]);
            assert(bytes[i] == bytes.subrange(16, 20)[i - 16]);
        } else if i < 24 {
            assert(enc[i] == enc.subrange(20, 24)[i - 20]);
            assert(bytes[i] == bytes.subrange(20, 24)[i - 20]);
        } else if i < 28 {
            assert(enc[i] == enc.subrange(24, 28)[i - 24]);
            assert(bytes[i] == bytes.subrange(24, 28)[i - 24]);
        } else if i < 32 {
            assert(enc[i] == enc.subrange(28, 32)[i - 28]);
            assert(bytes[i] == bytes.subrange(28, 32)[i - 28]);
        } else if i < 36 {
            assert(enc[i] == enc.subrange(32, 36)[i - 32]);
            assert(bytes[i] == bytes.subrange(32, 36)[i - 32]);
        } else if i < 40 {
            assert(enc[i] == enc.subrange(36, 40)[i - 36]);
            assert(bytes[i] == bytes.subrange(36, 40)[i - 36]);
        } else if i < 60 {
            assert(enc[i] == enc.subrange(40, 60)[i - 40]);
            assert(bytes[i] == bytes.subrange(40, 60)[i - 40]);
        } else if i < 62 {
            assert(enc[i] == enc.subrange(60, 62)[i - 60]);
            assert(bytes[i] == bytes.subrange(60, 62)[i - 60]);
        } else if i < end {
            assert(enc[i] == enc.subrange(PATH_OFFSET as int, end)[i - PATH_OFFSET]);
            assert(bytes[i] == bytes.subrange(PATH_OFFSET as int, end)[i - PATH_OFFSET]);
        } else {
        }
    }
    assert(enc =~= head);
}

/// What `bytes` says of a record whose binary form it starts with, once the
/// first zero byte after the fixed part is found at `end`: the path lies
/// before `end`, every field is spelled by its bytes, and the padding is there.
proof fn lemma_decoded_parts(bytes: Seq<u8>, e: EntryView, end: int)
    requires
        decodes_to(bytes, e),
        PATH_OFFSET <= end < bytes.len(),
        forall|j: int| PATH_OFFSET <= j < end ==> bytes[j] != 0,
        bytes[end] == 0,
    ensures
        end == PATH_OFFSET + e.path.len(),
        end + padding_len(e.path.len()) <= bytes.len(),
        bytes.subrange(0, 4) == be32(e.ctime),
        bytes.subrange(4, 8) == be32(e.ctime_nsec),
        bytes.subrange(8, 12) == be32(e.mtime),
        bytes.subrange(12, 16) == be32(e.mtime_nsec),
        bytes.subrange(16, 20) == be32(e.dev),
        bytes.subrange(20, 24) == be32(e.ino),
        bytes.subrange(24, 28) == be32(e.mode),
        bytes.subrange(28, 32) == be32(e.uid),
        bytes.subrange(32, 36) == be32(e.gid),
        bytes.subrange(36, 40) == be32(e.size),
        bytes.subrange(40, 60) == e.oid,
        bytes.subrange(60, 62) == be16(e.flags),
        bytes.subrange(PATH_OFFSET as int, end) == e.path,
        forall|k: int| end <= k < end + padding_len(e.path.len()) ==> bytes[k] == 0,
{
    lemma_prefix_shape(bytes, e);
    let stop = PATH_OFFSET + e.path.len();
    if stop < end {
        assert(bytes[stop] == 0);
    } else if end < stop {
        assert(bytes[end] == e.path[end - PATH_OFFSET]);
    }
}

/// What `bytes` says of a record whose binary form it starts with.
proof fn lemma_prefix_shape(bytes: Seq<u8>, e: EntryView)
    requires
        decodes_to(bytes, e),
    ensures
        PATH_OFFSET + e.path.len() + padding_len(e.path.len()) <= bytes.len(),
        bytes.subrange(0, 4) == be32(e.ctime),
        bytes.subrange(4, 8) == be32(e.ctime_nsec),
        bytes.subrange(8, 12) == be32(e.mtime),
        bytes.subrange(12, 16) == be32(e.mtime_nsec),
        bytes.subrange(16, 20) == be32(e.dev),
        bytes.subrange(20, 24) == be32(e.ino),
        bytes.subrange(24, 28) == be32(e.mode),
        bytes.subrange(28, 32) == be32(e.uid),
        bytes.subrange(32, 36) == be32(e.gid),
        bytes.subrange(36, 40) == be32(e.size),
        bytes.subrange(40, 60) == e.oid,
        bytes.subrange(60, 62) == be16(e.flags),
        bytes.subrange(PATH_OFFSET as int, PATH_OFFSET + e.path.len()) == e.path,
        forall|j: int| 0 <= j < e.path.len() ==> bytes[PATH_OFFSET + j] == e.path[j],
        forall|k: int|
            PATH_OFFSET + e.path.len() <= k < PATH_OFFSET + e.path.len() + padding_len(
                e.path.len(),
            ) ==> bytes[k] == 0,
{
    lemma_encoding_layout(e);
    let enc = e.encoding();
    let head = bytes.subrange(0, enc.len() as int);
    assert(enc == head);
    assert(bytes.subrange(0, 4) =~= head.subrange(0, 4));
    assert(bytes.subrange(4, 8) =~= head.subrange(4, 8));
    assert(bytes.subrange(8, 12) =~= head.subrange(8, 12));
    assert(bytes.subrange(12, 16) =~= head.subrange(12, 16));
    assert(bytes.subrange(16, 20) =~= head.subrange(16, 20));
    assert(bytes.subrange(20, 24) =~= head.subrange(20, 24));
    assert(bytes.subrange(24, 28) =~= head.subrange(24, 28));
    assert(bytes.subrange(28, 32) =~= head.subrange(28, 32));
    assert(bytes.subrange(32, 36) =~= head.subrange(32, 36));
    assert(bytes.subrange(36, 40) =~= head.subrange(36, 40));
    assert(bytes.subrange(40, 60) =~= head.subrange(40, 60));
    assert(bytes.subrange(60, 62) =~= head.subrange(60, 62));
    assert(bytes.subrange(PATH_OFFSET as int, PATH_OFFSET + e.path.len()) =~= head.subrange(
        PATH_OFFSET as int,
        PATH_OFFSET + e.path.len(),
    ));
    assert forall|j: int| 0 <= j < e.path.len() implies bytes[PATH_OFFSET + j] == e.path[j] by {
        assert(head[PATH_OFFSET + j] == bytes[PATH_OFFSET + j]);
        assert(enc.subrange(PATH_OFFSET as int, PATH_OFFSET + e.path.len())[j] == enc[PATH_OFFSET
            + j]);
    }
    assert forall|k: int|
        PATH_OFFSET + e.path.len() <= k < PATH_OFFSET + e.path.len() + padding_len(
            e.path.len(),
        ) implies bytes[k] == 0 by {
        assert(head[k] == bytes[k]);
    }
}

/// The twenty bytes of `bytes` from `at` on.
fn read_oid(bytes: &[u8], at: usize) -> (oid: [u8; 20])
    requires
        at + OID_LEN <= bytes@.len(),
    ensures
        oid@ == bytes@.subrange(at as int, at + OID_LEN),
{
    let len = bytes.len();
    let mut oid: [u8; 20] = [0u8; 20];
    let mut i: usize = 0;
    while i < 20
        invariant
            i <= 20,
            at + OID_LEN <= len,
            len == bytes@.len(),
            forall|j: int| 0 <= j < i ==> oid@[j] == bytes@[at + j],
        decreases 20 - i,
    {
        oid[i] = bytes[at + i];
        i = i + 1;
    }
    assert(oid@ =~= bytes@.subrange(at as int, at + OID_LEN));
    oid
}

impl Entry {
    /// Reads the record that `bytes` starts with. The path runs from the end
    /// of the fixed part to the first zero byte; the record ends at the next
    /// multiple of eight after it. Bytes that are the binary form of no record
    /// (too short, an unknown mode, flags that do not belong to the path,
    /// padding that is not zero) are refused.
    pub fn decode(bytes: &[u8]) -> (read: Result<Entry, IndexError>)
        ensures
            read is Ok ==> decodes_to(bytes@, read->Ok_0@),
            read is Err ==> read == Err::<Entry, IndexError>(IndexError::EncodingError),
            read is Err ==> forall|e: EntryView| !decodes_to(bytes@, e),
    {
        let len = bytes.len();
        if len <= PATH_OFFSET {
            proof {
                assert forall|e: EntryView| !decodes_to(bytes@, e) by {
                    if decodes_to(bytes@, e) {
                        lemma_prefix_shape(bytes@, e);
                    }
                }
            }
            return Err(IndexError::EncodingError);
        }
        let mut end: usize = PATH_OFFSET;
        while end < len && bytes[end] != 0
            invariant
                PATH_OFFSET <= end <= len,
                len == bytes@.len(),
                forall|j: int| PATH_OFFSET <= j < end ==> bytes@[j] != 0,
            decreases len - end,
        {
            end = end + 1;
        }
        if end == len {
            proof {
                assert forall|e: EntryView| !decodes_to(bytes@, e) by {
                    if decodes_to(bytes@, e) {
                        lemma_prefix_shape(bytes@, e);
                        assert(bytes@[PATH_OFFSET + e.path.len()] == 0);
                    }
                }
            }
            return Err(IndexError::EncodingError);
        }
        let pad: usize = 8 - end % 8;
        assert(pad == padding_len((end - PATH_OFFSET) as nat));
        if len - end < pad {
            proof {
                assert forall|e: EntryView| !decodes_to(bytes@, e) by {
                    if decodes_to(bytes@, e) {
                        lemma_decoded_parts(bytes@, e, end as int);
                    }
                }
            }
            return Err(IndexError::EncodingError);
        }
        let mut k: usize = 1;
        while k < pad
            invariant
                1 <= k <= pad,
                PATH_OFFSET <= end,
                end + pad <= len,
                len == bytes@.len(),
                bytes@[end as int] == 0,
                pad == padding_len((end - PATH_OFFSET) as nat),
                forall|j: int| PATH_OFFSET <= j < end ==> bytes@[j] != 0,
                forall|j: int| end <= j < end + k ==> bytes@[j] == 0,
            decreases pad - k,
        {
            if bytes[end + k] != 0 {
                proof {
                    assert forall|e: EntryView| !decodes_to(bytes@, e) by {
                        if decodes_to(bytes@, e) {
                            lemma_decoded_parts(bytes@, e, end as int);
                        }
                    }
                }
                return Err(IndexError::EncodingError);
            }
            k = k + 1;
        }
        let mode = read_be32(bytes, 24);
        let flags = read_be16(bytes, 60);
        let path_len: usize = end - PATH_OFFSET;
        let expected: u16 = if path_len < 0x0FFF {
            path_len as u16
        } else {
            MAX_FLAG_LEN
        };
        if (mode != MODE_REGULAR && mode != MODE_EXECUTABLE) || flags != expected {
            proof {
                assert forall|e: EntryView| !decodes_to(bytes@, e) by {
                    if decodes_to(bytes@, e) {
                        lemma_decoded_parts(bytes@, e, end as int);
                        lemma_be32_inverse(e.mode, be32(mode));
                        lemma_be32_inverse(mode, be32(e.mode));
                        lemma_be16_inverse(e.flags, be16(flags));
                        lemma_be16_inverse(flags, be16(e.flags));
                    }
                }
            }
            return Err(IndexError::EncodingError);
        }
        let entry = Entry {
            ctime: read_be32(bytes, 0),
            ctime_nsec: read_be32(bytes, 4),
            mtime: read_be32(bytes, 8),
            mtime_nsec: read_be32(bytes, 12),
            dev: read_be32(bytes, 16),
            ino: read_be32(bytes, 20),
            mode,
            uid: read_be32(bytes, 28),
            gid: read_be32(bytes, 32),
            size: read_be32(bytes, 36),
            oid: read_oid(bytes, 40),
            flags,
            path: copy_range(bytes, PATH_OFFSET, end),
        };
        proof {
            lemma_encoding_from_parts(bytes@, entry@, end as int);
        }
        Ok(entry)
    }
}

/// No byte string starts with the binary forms of two different records.
pub proof fn lemma_decode_unique(bytes: Seq<u8>, a: EntryView, b: EntryView)
    requires
        decodes_to(bytes, a),
        decodes_to(bytes, b),
    ensures
        a == b,
{
    lemma_prefix_shape(bytes, a);
    let end = PATH_OFFSET + a.path.len();
    assert(bytes[end] == 0);
    assert forall|j: int| PATH_OFFSET <= j < end implies bytes[j] != 0 by {
        assert(bytes[PATH_OFFSET + (j - PATH_OFFSET)] == a.path[j - PATH_OFFSET]);
    }
    lemma_decoded_parts(bytes, b, end);
    lemma_be32_inverse(a.ctime, be32(b.ctime));
    lemma_be32_inverse(b.ctime, be32(a.ctime));
    lemma_be32_inverse(a.ctime_nsec, be32(b.ctime_nsec));
    lemma_be32_inverse(b.ctime_nsec, be32(a.ctime_nsec));
    lemma_be32_inverse(a.mtime, be32(b.mtime));
    lemma_be32_inverse(b.mtime, be32(a.mtime));
    lemma_be32_inverse(a.mtime_nsec, be32(b.mtime_nsec));
    lemma_be32_inverse(b.mtime_nsec, be32(a.mtime_nsec));
    lemma_be32_inverse(a.dev, be32(b.dev));
    lemma_be32_inverse(b.dev, be32(a.dev));
    lemma_be32_inverse(a.ino, be32(b.ino));
    lemma_be32_inverse(b.ino, be32(a.ino));
    lemma_be32_inverse(a.mode, be32(b.mode));
    lemma_be32_inverse(b.mode, be32(a.mode));
    lemma_be32_inverse(a.uid, be32(b.uid));
    lemma_be32_inverse(b.uid, be32(a.uid));
    lemma_be32_inverse(a.gid, be32(b.gid));
    lemma_be32_inverse(b.gid, be32(a.gid));
    lemma_be32_inverse(a.size, be32(b.size));
    lemma_be32_inverse(b.size, be32(a.size));
    lemma_be16_inverse(a.flags, be16(b.flags));
    lemma_be16_inverse(b.flags, be16(a.flags));
    assert(a.oid =~= b.oid);
    assert(a.path =~= b.path);
}

/// Decoding undoes encoding: the binary form of a well-formed record, with
/// whatever follows it, decodes to that record and to no other.
pub proof fn lemma_decode_encode(e: EntryView, rest: Seq<u8>, d: EntryView)
    requires
        e.wf(),
    ensures
        decodes_to(e.encoding() + rest, e),
        decodes_to(e.encoding() + rest, d) ==> d == e,
{
    let bytes = e.encoding() + rest;
    assert(bytes.subrange(0, e.encoding().len() as int) =~= e.encoding());
    if decodes_to(bytes, d) {
        lemma_decode_unique(bytes, d, e);
    }
}

impl Entry {
    /// The path that the record is kept under.
    pub fn path(&self) -> (path: &[u8])
        ensures
            path@ == self@.path,
    {
        self.path.as_slice()
    }

    /// The content id of the file.
    pub fn oid(&self) -> (oid: [u8; 20])
        ensures
            oid@ == self@.oid,
    {
        self.oid
    }

    /// The recorded mode: one of the two that the index knows.
    pub fn mode(&self) -> (mode: u32)
        ensures
            mode == self@.mode,
    {
        self.mode
    }

    /// The recorded flags: the length of the path, at most 4095.
    pub fn flags(&self) -> (flags: u16)
        ensures
            flags == self@.flags,
    {
        self.flags
    }

    /// The low 32 bits of the time, in seconds, of the last change of status.
    pub fn ctime(&self) -> (ctime: u32)
        ensures
            ctime == self@.ctime,
    {
        self.ctime
    }

    /// The nanoseconds that go with `ctime`.
    pub fn ctime_nsec(&self) -> (ctime_nsec: u32)
        ensures
            ctime_nsec == self@.ctime_nsec,
    {
        self.ctime_nsec
    }

    /// The low 32 bits of the time, in seconds, of the last change of content.
    pub fn mtime(&self) -> (mtime: u32)
        ensures
            mtime == self@.mtime,
    {
        self.mtime
    }

    /// The nanoseconds that go with `mtime`.
    pub fn mtime_nsec(&self) -> (mtime_nsec: u32)
        ensures
            mtime_nsec == self@.mtime_nsec,
    {
        self.mtime_nsec
    }

    /// The low 32 bits of the device number.
    pub fn dev(&self) -> (dev: u32)
        ensures
            dev == self@.dev,
    {
        self.dev
    }

    /// The low 32 bits of the inode number.
    pub fn ino(&self) -> (ino: u32)
        ensures
            ino == self@.ino,
    {
        self.ino
    }

    /// The owner's user id.
    pub fn uid(&self) -> (uid: u32)
        ensures
            uid == self@.uid,
    {
        self.uid
    }

    /// The owner's group id.
    pub fn gid(&self) -> (gid: u32)
        ensures
            gid == self@.gid,
    {
        self.gid
    }

    /// The low 32 bits of the file's length in bytes.
    pub fn size(&self) -> (size: u32)
        ensures
            size == self@.size,
    {
        self.size
    }
}

} // verus!
