//! What the checksum is good for.
use crate::fs::types::{crc_bit, crc_bits, crc_of, crc_register};
use vstd::prelude::*;

verus! {

proof fn lemma_bit_is_kept(a: u32, b: u32)
    requires
        crc_bit(a) == crc_bit(b),
    ensures
        a == b,
{
    assert(((a & 1 == 1 && b & 1 == 1 && (a >> 1) ^ 0xEDB8_8320 == (b >> 1) ^ 0xEDB8_8320) || (a & 1
        == 1 && b & 1 != 1 && (a >> 1) ^ 0xEDB8_8320 == b >> 1) || (a & 1 != 1 && b & 1 == 1 && a
        >> 1 == (b >> 1) ^ 0xEDB8_8320) || (a & 1 != 1 && b & 1 != 1 && a >> 1 == b >> 1)) ==> a
        == b) by (bit_vector);
}

proof fn lemma_bits_are_kept(a: u32, b: u32, n: nat)
    requires
        crc_bits(a, n) == crc_bits(b, n),
    ensures
        a == b,
    decreases n,
{
    if n > 0 {
        lemma_bit_is_kept(crc_bits(a, (n - 1) as nat), crc_bits(b, (n - 1) as nat));
        lemma_bits_are_kept(a, b, (n - 1) as nat);
    }
}

proof fn lemma_one_change(s: Seq<u8>, t: Seq<u8>, i: int)
    requires
        s.len() == t.len(),
        0 <= i < s.len(),
        s[i] != t[i],
        forall|k: int| 0 <= k < s.len() && k != i ==> s[k] == t[k],
    ensures
        crc_register(s) != crc_register(t),
    decreases s.len(),
{
    let c = crc_register(s.drop_last());
    let d = crc_register(t.drop_last());
    let x = s.last() as u32;
    let y = t.last() as u32;
    if i == s.len() - 1 {
        assert(s.drop_last() =~= t.drop_last());
        assert(x != y ==> c ^ x != c ^ y) by (bit_vector);
    } else {
        lemma_one_change(s.drop_last(), t.drop_last(), i);
        assert(c != d ==> c ^ x != d ^ x) by (bit_vector);
    }
    if crc_register(s) == crc_register(t) {
        lemma_bits_are_kept(c ^ x, d ^ y, 8);
    }
}

/// Bytes of which one was changed have another checksum, whichever it was and however many there
/// are.
pub proof fn law_changed_byte_changes_the_checksum(s: Seq<u8>, t: Seq<u8>, i: int)
    requires
        s.len() == t.len(),
        0 <= i < s.len(),
        s[i] != t[i],
        forall|k: int| 0 <= k < s.len() && k != i ==> s[k] == t[k],
    ensures
        crc_of(s) != crc_of(t),
{
    lemma_one_change(s, t, i);
    let c = crc_register(s);
    let d = crc_register(t);
    assert(c != d ==> !c != !d) by (bit_vector);
}

/// A step of the division keeps sums.
proof fn lemma_division_is_linear(c: u32, d: u32)
    ensures
        crc_bit(c ^ d) == crc_bit(c) ^ crc_bit(d),
{
    let e = c ^ d;
    let p: u32 = 0xEDB8_8320;
    assert((if e & 1 == 1 { (e >> 1) ^ p } else { e >> 1 }) == (if c & 1 == 1 { (c >> 1) ^ p } else {
        c >> 1
    }) ^ (if d & 1 == 1 { (d >> 1) ^ p } else { d >> 1 })) by (bit_vector)
        requires
            e == c ^ d,
    ;
}

proof fn lemma_bits_are_linear(c: u32, d: u32, n: nat)
    ensures
        crc_bits(c ^ d, n) == crc_bits(c, n) ^ crc_bits(d, n),
    decreases n,
{
    if n > 0 {
        lemma_bits_are_linear(c, d, (n - 1) as nat);
        lemma_division_is_linear(crc_bits(c, (n - 1) as nat), crc_bits(d, (n - 1) as nat));
    }
}

proof fn lemma_registers_add_up(s: Seq<u8>, t: Seq<u8>, u: Seq<u8>, v: Seq<u8>)
    requires
        s.len() == t.len() == u.len() == v.len(),
        forall|k: int| 0 <= k < s.len() ==> #[trigger] v[k] == (s[k] ^ t[k]) ^ u[k],
    ensures
        crc_register(v) == (crc_register(s) ^ crc_register(t)) ^ crc_register(u),
    decreases s.len(),
{
    if s.len() == 0 {
        assert(0xFFFF_FFFFu32 == (0xFFFF_FFFFu32 ^ 0xFFFF_FFFFu32) ^ 0xFFFF_FFFFu32) by (bit_vector);
    } else {
        let n = s.len() - 1;
        assert(v.drop_last().len() == n);
        assert forall|k: int| 0 <= k < n implies #[trigger] v.drop_last()[k] == (s.drop_last()[k]
            ^ t.drop_last()[k]) ^ u.drop_last()[k] by {
            assert(v[k] == (s[k] ^ t[k]) ^ u[k]);
        }
        lemma_registers_add_up(s.drop_last(), t.drop_last(), u.drop_last(), v.drop_last());
        let (a, b, c) = (
            crc_register(s.drop_last()),
            crc_register(t.drop_last()),
            crc_register(u.drop_last()),
        );
        let (x, y, z) = (s.last(), t.last(), u.last());
        assert(v[n] == (s[n] ^ t[n]) ^ u[n]);
        assert(((a ^ b) ^ c) ^ (((x ^ y) ^ z) as u32) == ((a ^ (x as u32)) ^ (b ^ (y as u32))) ^ (c
            ^ (z as u32))) by (bit_vector);
        lemma_bits_are_linear((a ^ (x as u32)) ^ (b ^ (y as u32)), c ^ (z as u32), 8);
        lemma_bits_are_linear(a ^ (x as u32), b ^ (y as u32), 8);
    }
}

/// The checksum of the sum of three texts of one length, bit by bit, is the sum of their checksums.
pub proof fn law_checksums_add_up(s: Seq<u8>, t: Seq<u8>, u: Seq<u8>, v: Seq<u8>)
    requires
        s.len() == t.len() == u.len() == v.len(),
        forall|k: int| 0 <= k < s.len() ==> #[trigger] v[k] == (s[k] ^ t[k]) ^ u[k],
    ensures
        crc_of(v) == (crc_of(s) ^ crc_of(t)) ^ crc_of(u),
{
    lemma_registers_add_up(s, t, u, v);
    let (a, b, c) = (crc_register(s), crc_register(t), crc_register(u));
    assert(!((a ^ b) ^ c) == (!a ^ !b) ^ !c) by (bit_vector);
}

} // verus!
