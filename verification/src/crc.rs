//! CRC-32C, the checksum that guards the metadata file.

use vstd::prelude::*;

verus! {

/// The reflected Castagnoli polynomial.
pub const CRC32C_POLY: u32 = 0x82F6_3B78;

/// One bit of the division: shift, and take the polynomial off where a one falls out.
pub open spec fn crc_bit(c: u32) -> u32 {
    if c & 1 == 1 {
        (c >> 1) ^ 0x82F6_3B78
    } else {
        c >> 1
    }
}

/// One byte of the division.
pub open spec fn crc_byte(c: u32, b: u8) -> u32 {
    crc_bit(crc_bit(crc_bit(crc_bit(crc_bit(crc_bit(crc_bit(crc_bit(c ^ (b as u32)))))))))
}

/// The register after `data` has gone through.
pub open spec fn crc_state(data: Seq<u8>) -> u32
    decreases data.len(),
{
    if data.len() == 0 {
        0xFFFF_FFFF
    } else {
        crc_byte(crc_state(data.drop_last()), data.last())
    }
}

/// The CRC-32C of `data`.
pub open spec fn crc32c(data: Seq<u8>) -> u32 {
    crc_state(data) ^ 0xFFFF_FFFF
}

proof fn lemma_crc_bit_injective(x: u32, y: u32)
    by (bit_vector)
    requires
        crc_bit(x) == crc_bit(y),
    ensures
        x == y,
{
}

proof fn lemma_xor_byte_injective(c: u32, a: u8, b: u8)
    by (bit_vector)
    requires
        c ^ (a as u32) == c ^ (b as u32),
    ensures
        a == b,
{
}

proof fn lemma_xor_state_injective(c: u32, d: u32, b: u8)
    by (bit_vector)
    requires
        c ^ (b as u32) == d ^ (b as u32),
    ensures
        c == d,
{
}

proof fn lemma_final_xor_injective(c: u32, d: u32)
    by (bit_vector)
    requires
        c ^ 0xFFFF_FFFF == d ^ 0xFFFF_FFFF,
    ensures
        c == d,
{
}

proof fn lemma_crc_bits_injective(x: u32, y: u32)
    requires
        crc_bit(crc_bit(crc_bit(crc_bit(crc_bit(crc_bit(crc_bit(crc_bit(x)))))))) == crc_bit(
            crc_bit(crc_bit(crc_bit(crc_bit(crc_bit(crc_bit(crc_bit(y))))))),
        ),
    ensures
        x == y,
{
    let x1 = crc_bit(x);
    let x2 = crc_bit(x1);
    let x3 = crc_bit(x2);
    let x4 = crc_bit(x3);
    let x5 = crc_bit(x4);
    let x6 = crc_bit(x5);
    let x7 = crc_bit(x6);
    let y1 = crc_bit(y);
    let y2 = crc_bit(y1);
    let y3 = crc_bit(y2);
    let y4 = crc_bit(y3);
    let y5 = crc_bit(y4);
    let y6 = crc_bit(y5);
    let y7 = crc_bit(y6);
    lemma_crc_bit_injective(x7, y7);
    lemma_crc_bit_injective(x6, y6);
    lemma_crc_bit_injective(x5, y5);
    lemma_crc_bit_injective(x4, y4);
    lemma_crc_bit_injective(x3, y3);
    lemma_crc_bit_injective(x2, y2);
    lemma_crc_bit_injective(x1, y1);
    lemma_crc_bit_injective(x, y);
}

/// Two inputs of one length that differ in one byte and nowhere else have different checksums.
pub proof fn lemma_crc_detects_one_byte(d1: Seq<u8>, d2: Seq<u8>, i: int)
    requires
        d1.len() == d2.len(),
        0 <= i < d1.len(),
        d1[i] != d2[i],
        forall|j: int| 0 <= j < d1.len() && j != i ==> d1[j] == d2[j],
    ensures
        crc32c(d1) != crc32c(d2),
{
    lemma_state_differs(d1, d2, i);
    if crc32c(d1) == crc32c(d2) {
        lemma_final_xor_injective(crc_state(d1), crc_state(d2));
    }
}

proof fn lemma_state_differs(d1: Seq<u8>, d2: Seq<u8>, i: int)
    requires
        d1.len() == d2.len(),
        0 <= i < d1.len(),
        d1[i] != d2[i],
        forall|j: int| 0 <= j < d1.len() && j != i ==> d1[j] == d2[j],
    ensures
        crc_state(d1) != crc_state(d2),
    decreases d1.len(),
{
    let head_a = d1.drop_last();
    let head_b = d2.drop_last();
    if i == d1.len() - 1 {
        assert(head_a =~= head_b);
        let c = crc_state(head_a);
        if crc_state(d1) == crc_state(d2) {
            lemma_crc_bits_injective(c ^ (d1.last() as u32), c ^ (d2.last() as u32));
            lemma_xor_byte_injective(c, d1.last(), d2.last());
        }
    } else {
        assert(head_a[i] == d1[i] && head_b[i] == d2[i]);
        assert forall|j: int| 0 <= j < head_a.len() && j != i implies head_a[j] == head_b[j] by {
            assert(d1[j] == d2[j]);
        }
        lemma_state_differs(head_a, head_b, i);
        assert(d1.last() == d2.last());
        if crc_state(d1) == crc_state(d2) {
            lemma_crc_bits_injective(crc_state(head_a) ^ (d1.last() as u32), crc_state(head_b) ^ (d1.last() as u32));
            lemma_xor_state_injective(crc_state(head_a), crc_state(head_b), d1.last());
        }
    }
}

fn crc_step(c: u32) -> (r: u32)
    ensures
        r == crc_bit(c),
{
    if c & 1 == 1 {
        (c >> 1) ^ CRC32C_POLY
    } else {
        c >> 1
    }
}

/// The CRC-32C of the first `n` bytes of `data`.
pub fn crc32c_of(data: &Vec<u8>, n: usize) -> (r: u32)
    requires
        n <= data@.len(),
    ensures
        r == crc32c(data@.take(n as int)),
{
    let mut c: u32 = 0xFFFF_FFFF;
    let mut i: usize = 0;
    assert(data@.take(0) =~= Seq::empty());
    while i < n
        invariant
            i <= n <= data@.len(),
            c == crc_state(data@.take(i as int)),
        decreases n - i,
    {
        assert(data@.take(i + 1).drop_last() =~= data@.take(i as int));
        let mut x: u32 = c ^ (data[i] as u32);
        x = crc_step(x);
        x = crc_step(x);
        x = crc_step(x);
        x = crc_step(x);
        x = crc_step(x);
        x = crc_step(x);
        x = crc_step(x);
        x = crc_step(x);
        c = x;
        i = i + 1;
    }
    c ^ 0xFFFF_FFFF
}

} // verus!
