//! Little-endian numbers in byte sequences.
use vstd::prelude::*;

verus! {

/// The 16-bit number stored at `off`.
pub open spec fn le16(s: Seq<u8>, off: int) -> u16 {
    (s[off] + 0x100 * s[off + 1]) as u16
}

/// The 32-bit number stored at `off`.
pub open spec fn le32(s: Seq<u8>, off: int) -> u32 {
    (le16(s, off) + 0x1_0000 * le16(s, off + 2)) as u32
}

/// The 64-bit number stored at `off`.
pub open spec fn le64(s: Seq<u8>, off: int) -> u64 {
    (le32(s, off) + 0x1_0000_0000 * le32(s, off + 4)) as u64
}

/// The byte of weight `256^k` of a number, for `k` below 8.
#[verifier::opaque]
pub open spec fn byte_of(v: int, k: int) -> u8 {
    if k == 0 {
        (v % 0x100) as u8
    } else if k == 1 {
        (v / 0x100 % 0x100) as u8
    } else if k == 2 {
        (v / 0x1_0000 % 0x100) as u8
    } else if k == 3 {
        (v / 0x100_0000 % 0x100) as u8
    } else if k == 4 {
        (v / 0x1_0000_0000 % 0x100) as u8
    } else if k == 5 {
        (v / 0x100_0000_0000 % 0x100) as u8
    } else if k == 6 {
        (v / 0x1_0000_0000_0000 % 0x100) as u8
    } else {
        (v / 0x100_0000_0000_0000 % 0x100) as u8
    }
}

/// The sequence `s` with the bytes `b` written over it from `off` on.
pub open spec fn overwrite(s: Seq<u8>, off: int, b: Seq<u8>) -> Seq<u8> {
    Seq::new(s.len(), |i: int| if off <= i < off + b.len() { b[i - off] } else { s[i] })
}

/// The sequence `s` with the low `n` bytes of `v` written little-endian at `off`.
pub open spec fn put_le(s: Seq<u8>, off: int, v: int, n: int) -> Seq<u8> {
    Seq::new(s.len(), |i: int| if off <= i < off + n { byte_of(v, i - off) } else { s[i] })
}

pub fn read_u16(s: &[u8], off: usize) -> (v: u16)
    requires
        off + 2 <= s@.len(),
    ensures
        v == le16(s@, off as int),
{
    assert(s@.len() == s.len());
    (s[off] as u16) + 0x100 * (s[off + 1] as u16)
}

pub fn read_u32(s: &[u8], off: usize) -> (v: u32)
    requires
        off + 4 <= s@.len(),
    ensures
        v == le32(s@, off as int),
{
    assert(s@.len() == s.len());
    (read_u16(s, off) as u32) + 0x1_0000 * (read_u16(s, off + 2) as u32)
}

pub fn read_u64(s: &[u8], off: usize) -> (v: u64)
    requires
        off + 8 <= s@.len(),
    ensures
        v == le64(s@, off as int),
{
    assert(s@.len() == s.len());
    (read_u32(s, off) as u64) + 0x1_0000_0000 * (read_u32(s, off + 4) as u64)
}

pub fn write_u32(s: &mut [u8], off: usize, v: u32)
    requires
        off + 4 <= old(s)@.len(),
    ensures
        final(s)@ == put_le(old(s)@, off as int, v as int, 4),
{
    s[off] = (v % 0x100) as u8;
    s[off + 1] = (v / 0x100 % 0x100) as u8;
    s[off + 2] = (v / 0x1_0000 % 0x100) as u8;
    s[off + 3] = (v / 0x100_0000 % 0x100) as u8;
    reveal(byte_of);
    assert(s@ =~= put_le(old(s)@, off as int, v as int, 4));
}

/// Writes the bytes `b` over `s` from `off` on.
pub fn write_bytes(s: &mut [u8], off: usize, b: &[u8])
    requires
        off + b@.len() <= old(s)@.len(),
    ensures
        final(s)@ == overwrite(old(s)@, off as int, b@),
{
    let mut i: usize = 0;
    while i < b.len()
        invariant
            i <= b@.len(),
            off + b@.len() <= s@.len(),
            s@.len() == old(s)@.len(),
            forall|j: int| 0 <= j < s@.len() ==> s@[j] == (if off <= j < off + i {
                b@[j - off]
            } else {
                old(s)@[j]
            }),
        decreases b@.len() - i,
    {
        assert(s@.len() == s.len());
        s[off + i] = b[i];
        i = i + 1;
    }
    assert(s@ =~= overwrite(old(s)@, off as int, b@));
}

/// Reading a 32-bit number gives back what was written.
pub proof fn lemma_put_get32(s: Seq<u8>, off: int, v: u32)
    requires
        0 <= off,
        off + 4 <= s.len(),
    ensures
        le32(put_le(s, off, v as int, 4), off) == v,
{
    reveal(byte_of);
    let t = put_le(s, off, v as int, 4);
    assert(t[off] == v % 0x100);
    assert(t[off + 1] == v / 0x100 % 0x100);
    assert(t[off + 2] == v / 0x1_0000 % 0x100);
    assert(t[off + 3] == v / 0x100_0000 % 0x100);
    assert(v == v % 0x100 + 0x100 * (v / 0x100 % 0x100) + 0x1_0000 * (v / 0x1_0000 % 0x100)
        + 0x100_0000 * (v / 0x100_0000 % 0x100)) by (bit_vector);
}

/// The bytes of a 64-bit number are those of its two halves.
proof fn lemma_halves(v: u64)
    ensures
        forall|k: int|
            0 <= k < 4 ==> #[trigger] byte_of(v as int, k) == byte_of(
                (v % 0x1_0000_0000) as int,
                k,
            ),
        forall|k: int|
            4 <= k < 8 ==> #[trigger] byte_of(v as int, k) == byte_of(
                (v / 0x1_0000_0000) as int,
                k - 4,
            ),
{
    reveal(byte_of);
    let l: u64 = v % 0x1_0000_0000;
    let h: u64 = v / 0x1_0000_0000;
    assert(v % 0x100 == l % 0x100 && v / 0x100 % 0x100 == l / 0x100 % 0x100 && v / 0x1_0000 % 0x100
        == l / 0x1_0000 % 0x100 && v / 0x100_0000 % 0x100 == l / 0x100_0000 % 0x100 && h % 0x100
        == v / 0x1_0000_0000 % 0x100 && v / 0x100_0000_0000 % 0x100 == h / 0x100 % 0x100 && v
        / 0x1_0000_0000_0000 % 0x100 == h / 0x1_0000 % 0x100 && v / 0x100_0000_0000_0000 % 0x100
        == h / 0x100_0000 % 0x100) by (bit_vector)
        requires
            l == v % 0x1_0000_0000,
            h == v / 0x1_0000_0000,
    ;
}

/// The bytes of a 16-bit number that was read are the bytes it was read from.
pub proof fn lemma_bytes_le16(s: Seq<u8>, off: int)
    ensures
        forall|k: int| 0 <= k < 2 ==> #[trigger] byte_of(le16(s, off) as int, k) == s[off + k],
{
    reveal(byte_of);
    let a = s[off] as int;
    let b = s[off + 1] as int;
    assert((a + 0x100 * b) % 0x100 == a && (a + 0x100 * b) / 0x100 == b);
}

/// The bytes of a 32-bit number that was read are the bytes it was read from.
pub proof fn lemma_bytes_le32(s: Seq<u8>, off: int)
    ensures
        forall|k: int| 0 <= k < 4 ==> #[trigger] byte_of(le32(s, off) as int, k) == s[off + k],
{
    let a = le16(s, off) as int;
    let b = le16(s, off + 2) as int;
    let v = a + 0x1_0000 * b;
    assert(le32(s, off) == v);
    lemma_bytes_le16(s, off);
    lemma_bytes_le16(s, off + 2);
    assert(byte_of(a, 0) == s[off] && byte_of(a, 1) == s[off + 1]);
    assert(byte_of(b, 0) == s[off + 2] && byte_of(b, 1) == s[off + 3]);
    assert forall|k: int| 0 <= k < 4 implies #[trigger] byte_of(v, k) == s[off + k] by {
        reveal(byte_of);
        assert(v % 0x100 == a % 0x100);
        assert(v / 0x100 % 0x100 == a / 0x100 % 0x100);
        assert(v / 0x1_0000 == b);
        assert(v / 0x100_0000 == b / 0x100);
    }
}

/// The bytes of a 64-bit number that was read are the bytes it was read from.
pub proof fn lemma_bytes_le64(s: Seq<u8>, off: int)
    ensures
        forall|k: int| 0 <= k < 8 ==> #[trigger] byte_of(le64(s, off) as int, k) == s[off + k],
{
    let v = le64(s, off);
    let a = le32(s, off) as int;
    let b = le32(s, off + 4) as int;
    assert(v == a + 0x1_0000_0000 * b);
    assert(v % 0x1_0000_0000 == a && v / 0x1_0000_0000 == b);
    lemma_halves(v);
    lemma_bytes_le32(s, off);
    lemma_bytes_le32(s, off + 4);
    assert forall|k: int| 0 <= k < 8 implies #[trigger] byte_of(v as int, k) == s[off + k] by {
        if k < 4 {
            assert(byte_of(a, k) == s[off + k]);
        } else {
            assert(byte_of(b, k - 4) == s[off + 4 + (k - 4)]);
        }
    }
}

/// The byte of weight `256^k` of a number.
pub fn nth_byte(v: u64, k: usize) -> (r: u8)
    requires
        k < 8,
    ensures
        r == byte_of(v as int, k as int),
{
    reveal(byte_of);
    if k == 0 {
        (v % 0x100) as u8
    } else if k == 1 {
        (v / 0x100 % 0x100) as u8
    } else if k == 2 {
        (v / 0x1_0000 % 0x100) as u8
    } else if k == 3 {
        (v / 0x100_0000 % 0x100) as u8
    } else if k == 4 {
        (v / 0x1_0000_0000 % 0x100) as u8
    } else if k == 5 {
        (v / 0x100_0000_0000 % 0x100) as u8
    } else if k == 6 {
        (v / 0x1_0000_0000_0000 % 0x100) as u8
    } else {
        (v / 0x100_0000_0000_0000 % 0x100) as u8
    }
}

/// A 16-bit number is determined by its bytes.
pub proof fn lemma_bytes_determine_u16(a: u16, b: u16)
    requires
        forall|k: int| 0 <= k < 2 ==> #[trigger] byte_of(a as int, k) == byte_of(b as int, k),
    ensures
        a == b,
{
    assert(byte_of(a as int, 0) == byte_of(b as int, 0));
    assert(byte_of(a as int, 1) == byte_of(b as int, 1));
    reveal(byte_of);
}

/// A 32-bit number is determined by its bytes.
pub proof fn lemma_bytes_determine_u32(a: u32, b: u32)
    requires
        forall|k: int| 0 <= k < 4 ==> #[trigger] byte_of(a as int, k) == byte_of(b as int, k),
    ensures
        a == b,
{
    assert(byte_of(a as int, 0) == byte_of(b as int, 0));
    assert(byte_of(a as int, 1) == byte_of(b as int, 1));
    assert(byte_of(a as int, 2) == byte_of(b as int, 2));
    assert(byte_of(a as int, 3) == byte_of(b as int, 3));
    reveal(byte_of);
    assert(a == b) by (bit_vector)
        requires
            a % 0x100 == b % 0x100,
            a / 0x100 % 0x100 == b / 0x100 % 0x100,
            a / 0x1_0000 % 0x100 == b / 0x1_0000 % 0x100,
            a / 0x100_0000 % 0x100 == b / 0x100_0000 % 0x100,
    ;
}

/// A 64-bit number is determined by its bytes.
pub proof fn lemma_bytes_determine_u64(a: u64, b: u64)
    requires
        forall|k: int| 0 <= k < 8 ==> #[trigger] byte_of(a as int, k) == byte_of(b as int, k),
    ensures
        a == b,
{
    lemma_halves(a);
    lemma_halves(b);
    let al = (a % 0x1_0000_0000) as u32;
    let bl = (b % 0x1_0000_0000) as u32;
    let ah = (a / 0x1_0000_0000) as u32;
    let bh = (b / 0x1_0000_0000) as u32;
    assert forall|k: int| 0 <= k < 4 implies #[trigger] byte_of(al as int, k) == byte_of(
        bl as int,
        k,
    ) by {
        assert(byte_of(a as int, k) == byte_of(b as int, k));
    }
    assert forall|k: int| 0 <= k < 4 implies #[trigger] byte_of(ah as int, k) == byte_of(
        bh as int,
        k,
    ) by {
        assert(byte_of(a as int, k + 4) == byte_of(b as int, k + 4));
        assert(byte_of(a as int, k + 4) == byte_of(ah as int, (k + 4) - 4));
        assert(byte_of(b as int, k + 4) == byte_of(bh as int, (k + 4) - 4));
    }
    lemma_bytes_determine_u32(al, bl);
    lemma_bytes_determine_u32(ah, bh);
}

} // verus!
