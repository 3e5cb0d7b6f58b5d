//! Big-endian integers, zero padding and the lexicographic order on byte
//! strings.

use vstd::prelude::*;

verus! {

/// The four bytes of `x`, most significant first.
pub open spec fn be32(x: u32) -> Seq<u8> {
    seq![
        (x / 0x100 / 0x100 / 0x100) as u8,
        (x / 0x100 / 0x100 % 0x100) as u8,
        (x / 0x100 % 0x100) as u8,
        (x % 0x100) as u8,
    ]
}

/// The two bytes of `x`, most significant first.
pub open spec fn be16(x: u16) -> Seq<u8> {
    seq![(x / 0x100) as u8, (x % 0x100) as u8]
}

/// The number that four bytes spell, most significant first.
pub open spec fn be32_value(b: Seq<u8>) -> int
    recommends
        b.len() == 4,
{
    ((b[0] * 0x100 + b[1]) * 0x100 + b[2]) * 0x100 + b[3]
}

/// The number that two bytes spell, most significant first.
pub open spec fn be16_value(b: Seq<u8>) -> int
    recommends
        b.len() == 2,
{
    b[0] * 0x100 + b[1]
}

/// `n` zero bytes.
pub open spec fn zeros(n: nat) -> Seq<u8> {
    Seq::new(n, |i: int| 0u8)
}

/// Reading back what `be32` wrote gives the number again, and four bytes are
/// the big-endian form of exactly the number they spell.
pub proof fn lemma_be32_inverse(x: u32, b: Seq<u8>)
    ensures
        be32(x).len() == 4,
        be32_value(be32(x)) == x,
        b.len() == 4 ==> 0 <= be32_value(b) <= u32::MAX && be32(be32_value(b) as u32) == b,
{
    if b.len() == 4 {
        let v = be32_value(b);
        assert(be32(v as u32) =~= b);
    }
}

/// The same for two bytes.
pub proof fn lemma_be16_inverse(x: u16, b: Seq<u8>)
    ensures
        be16(x).len() == 2,
        be16_value(be16(x)) == x,
        b.len() == 2 ==> 0 <= be16_value(b) <= u16::MAX && be16(be16_value(b) as u16) == b,
{
    if b.len() == 2 {
        let v = be16_value(b);
        assert(be16(v as u16) =~= b);
    }
}

/// Appends the big-endian form of `x` to `out`.
pub fn push_be32(out: &mut Vec<u8>, x: u32)
    ensures
        final(out)@ == old(out)@ + be32(x),
{
    out.push((x / 0x100 / 0x100 / 0x100) as u8);
    out.push((x / 0x100 / 0x100 % 0x100) as u8);
    out.push((x / 0x100 % 0x100) as u8);
    out.push((x % 0x100) as u8);
    assert(out@ =~= old(out)@ + be32(x));
}

/// Appends the big-endian form of `x` to `out`.
pub fn push_be16(out: &mut Vec<u8>, x: u16)
    ensures
        final(out)@ == old(out)@ + be16(x),
{
    out.push((x / 0x100) as u8);
    out.push((x % 0x100) as u8);
    assert(out@ =~= old(out)@ + be16(x));
}

/// Reads the big-endian number in the four bytes of `bytes` from `at` on.
pub(crate) fn read_be32(bytes: &[u8], at: usize) -> (x: u32)
    requires
        at + 4 <= bytes@.len(),
    ensures
        x == be32_value(bytes@.subrange(at as int, at + 4)),
        be32(x) == bytes@.subrange(at as int, at + 4),
{
    let b0: u32 = bytes[at] as u32;
    let b1: u32 = bytes[at + 1] as u32;
    let b2: u32 = bytes[at + 2] as u32;
    let b3: u32 = bytes[at + 3] as u32;
    let x: u32 = ((b0 * 0x100 + b1) * 0x100 + b2) * 0x100 + b3;
    proof {
        lemma_be32_inverse(0, bytes@.subrange(at as int, at + 4));
    }
    x
}

/// Reads the big-endian number in the two bytes of `bytes` from `at` on.
pub(crate) fn read_be16(bytes: &[u8], at: usize) -> (x: u16)
    requires
        at + 2 <= bytes@.len(),
    ensures
        x == be16_value(bytes@.subrange(at as int, at + 2)),
        be16(x) == bytes@.subrange(at as int, at + 2),
{
    let b0: u16 = bytes[at] as u16;
    let b1: u16 = bytes[at + 1] as u16;
    let x: u16 = b0 * 0x100 + b1;
    proof {
        lemma_be16_inverse(0, bytes@.subrange(at as int, at + 2));
    }
    x
}

/// A fresh vector with the bytes of `data`.
pub fn copy_bytes(data: &[u8]) -> (out: Vec<u8>)
    ensures
        out@ == data@,
{
    let mut out: Vec<u8> = Vec::new();
    push_all(&mut out, data);
    out
}

/// Appends the bytes of `data` to `out`.
pub fn push_all(out: &mut Vec<u8>, data: &[u8])
    ensures
        final(out)@ == old(out)@ + data@,
{
    let mut i: usize = 0;
    while i < data.len()
        invariant
            i <= data@.len(),
            out@ == old(out)@ + data@.subrange(0, i as int),
        decreases data@.len() - i,
    {
        out.push(data[i]);
        i = i + 1;
    }
    assert(data@.subrange(0, i as int) == data@);
}

/// Whether `data` holds a zero byte.
pub fn has_zero(data: &[u8]) -> (found: bool)
    ensures
        found == exists|i: int| 0 <= i < data@.len() && data@[i] == 0,
{
    let mut i: usize = 0;
    while i < data.len()
        invariant
            i <= data@.len(),
            forall|j: int| 0 <= j < i ==> data@[j] != 0,
        decreases data@.len() - i,
    {
        if data[i] == 0 {
            return true;
        }
        i = i + 1;
    }
    false
}

/// The bytes of `bytes` from `from` up to `to`, in a fresh vector.
pub(crate) fn copy_range(bytes: &[u8], from: usize, to: usize) -> (out: Vec<u8>)
    requires
        from <= to <= bytes@.len(),
    ensures
        out@ == bytes@.subrange(from as int, to as int),
{
    let mut out: Vec<u8> = Vec::new();
    let mut i: usize = from;
    while i < to
        invariant
            from <= i <= to <= bytes@.len(),
            out@ == bytes@.subrange(from as int, i as int),
        decreases to - i,
    {
        out.push(bytes[i]);
        i = i + 1;
    }
    out
}

/// Whether `a` and `b` hold the same bytes.
pub fn same_bytes(a: &[u8], b: &[u8]) -> (same: bool)
    ensures
        same == (a@ == b@),
{
    if a.len() != b.len() {
        return false;
    }
    let mut i: usize = 0;
    while i < a.len()
        invariant
            i <= a@.len(),
            a@.len() == b@.len(),
            forall|j: int| 0 <= j < i ==> a@[j] == b@[j],
        decreases a@.len() - i,
    {
        if a[i] != b[i] {
            return false;
        }
        i = i + 1;
    }
    assert(a@ =~= b@);
    true
}

/// `a` and `b` agree before position `k`, and there `a` ends or holds the
/// smaller byte.
pub open spec fn lex_lt_at(a: Seq<u8>, b: Seq<u8>, k: int) -> bool {
    &&& 0 <= k <= a.len()
    &&& k < b.len()
    &&& forall|i: int| 0 <= i < k ==> a[i] == b[i]
    &&& (k == a.len() || a[k] < b[k])
}

/// `a` comes before `b` in the lexicographic order on byte strings: at the
/// first position where they differ `a` holds the smaller byte, or `a` is a
/// proper prefix of `b`.
pub open spec fn lex_lt(a: Seq<u8>, b: Seq<u8>) -> bool {
    exists|k: int| lex_lt_at(a, b, k)
}

/// No byte string comes before itself.
pub proof fn lemma_lex_irreflexive(a: Seq<u8>)
    ensures
        !lex_lt(a, a),
{
    if lex_lt(a, a) {
        let k = choose|k: int| lex_lt_at(a, a, k);
        assert(a[k] < a[k]);
    }
}

/// What comes before something that comes before `c` comes before `c`.
pub proof fn lemma_lex_transitive(a: Seq<u8>, b: Seq<u8>, c: Seq<u8>)
    requires
        lex_lt(a, b),
        lex_lt(b, c),
    ensures
        lex_lt(a, c),
{
    let k1 = choose|k: int| lex_lt_at(a, b, k);
    let k2 = choose|k: int| lex_lt_at(b, c, k);
    if k1 <= k2 {
        assert(lex_lt_at(a, c, k1));
    } else {
        assert(lex_lt_at(a, c, k2));
    }
}

/// How one byte string stands to another in the lexicographic order.
#[derive(Debug, Clone, Copy, PartialEq, Eq, Structural)]
pub enum Position {
    Before,
    Same,
    After,
}

/// Where `a` stands to `b` in the lexicographic order.
pub fn lex_position(a: &[u8], b: &[u8]) -> (at: Position)
    ensures
        at == Position::Before <==> lex_lt(a@, b@),
        at == Position::Same <==> a@ == b@,
        at == Position::After <==> lex_lt(b@, a@),
{
    proof {
        lemma_lex_irreflexive(a@);
        if lex_lt(a@, b@) && lex_lt(b@, a@) {
            lemma_lex_transitive(a@, b@, a@);
        }
    }
    let mut i: usize = 0;
    while i < a.len() && i < b.len()
        invariant
            i <= a@.len(),
            i <= b@.len(),
            forall|j: int| 0 <= j < i ==> a@[j] == b@[j],
        decreases a@.len() - i,
    {
        if a[i] < b[i] {
            assert(lex_lt_at(a@, b@, i as int));
            return Position::Before;
        }
        if a[i] > b[i] {
            assert(lex_lt_at(b@, a@, i as int));
            return Position::After;
        }
        i = i + 1;
    }
    if i < b.len() {
        assert(lex_lt_at(a@, b@, i as int));
        Position::Before
    } else if i < a.len() {
        assert(lex_lt_at(b@, a@, i as int));
        Position::After
    } else {
        assert(a@ =~= b@);
        Position::Same
    }
}

} // verus!
