//! Checksums and hashes.

use vstd::prelude::*;

verus! {

/// The BLAKE3 hash of `data`.
pub uninterp spec fn blake3_of(data: Seq<u8>) -> [u8; 32];

/// The BLAKE3 hash of `data` under a key.
pub uninterp spec fn blake3_keyed_of(key: Seq<u8>, data: Seq<u8>) -> [u8; 32];

/// The CRC-32 polynomial, lowest power in the highest bit.
pub const CRC32_POLYNOMIAL: u32 = 0xEDB8_8320;

/// The register of a CRC-32 after one bit was shifted out.
pub open spec fn crc32_bit(register: u32) -> u32 {
    if register & 1 == 1 {
        (register >> 1) ^ CRC32_POLYNOMIAL
    } else {
        register >> 1
    }
}

/// The register after `n` bits were shifted out.
pub open spec fn crc32_bits(register: u32, n: nat) -> u32
    decreases n,
{
    if n == 0 {
        register
    } else {
        crc32_bit(crc32_bits(register, (n - 1) as nat))
    }
}

/// The register after the bytes of `data`; at first all its bits are set.
pub open spec fn crc32_register(data: Seq<u8>) -> u32
    decreases data.len(),
{
    if data.len() == 0 {
        0xFFFF_FFFF
    } else {
        crc32_bits(crc32_register(data.drop_last()) ^ data.last() as u32, 8)
    }
}

/// The CRC-32 checksum (IEEE) of `data`: the register with all its bits flipped.
pub open spec fn crc32_of(data: Seq<u8>) -> u32 {
    crc32_register(data) ^ 0xFFFF_FFFF
}

proof fn lemma_crc32_bits_differ(a: u32, b: u32, n: nat)
    requires
        a != b,
    ensures
        crc32_bits(a, n) != crc32_bits(b, n),
    decreases n,
{
    if n > 0 {
        lemma_crc32_bits_differ(a, b, (n - 1) as nat);
        let x = crc32_bits(a, (n - 1) as nat);
        let y = crc32_bits(b, (n - 1) as nat);
        assert(x != y ==> (if x & 1 == 1 {
            (x >> 1) ^ 0xEDB8_8320
        } else {
            x >> 1
        }) != (if y & 1 == 1 {
            (y >> 1) ^ 0xEDB8_8320
        } else {
            y >> 1
        })) by (bit_vector);
    }
}

proof fn lemma_crc32_register_differs(data: Seq<u8>, i: int, b: u8)
    requires
        0 <= i < data.len(),
        data[i] != b,
    ensures
        crc32_register(data.update(i, b)) != crc32_register(data),
    decreases data.len(),
{
    let changed = data.update(i, b);
    let r = crc32_register(data.drop_last());
    let s = crc32_register(changed.drop_last());
    let x = data.last();
    let y = changed.last();
    if i == data.len() - 1 {
        assert(changed.drop_last() =~= data.drop_last());
    } else {
        assert(changed.drop_last() =~= data.drop_last().update(i, b));
        lemma_crc32_register_differs(data.drop_last(), i, b);
    }
    assert((r == s && x != y || r != s && x == y) ==> r ^ (x as u32) != s ^ (y as u32))
        by (bit_vector);
    lemma_crc32_bits_differ(r ^ x as u32, s ^ y as u32, 8);
}

/// A CRC-32 notices every change of one byte.
pub proof fn crc32_notices_a_changed_byte(data: Seq<u8>, i: int, b: u8)
    requires
        0 <= i < data.len(),
        data[i] != b,
    ensures
        crc32_of(data.update(i, b)) != crc32_of(data),
{
    lemma_crc32_register_differs(data, i, b);
    let r = crc32_register(data);
    let s = crc32_register(data.update(i, b));
    assert(r != s ==> r ^ 0xFFFF_FFFF != s ^ 0xFFFF_FFFF) by (bit_vector);
}

/// Hashes `data` with `blake3::hash`, a function of the bytes alone.
#[verifier::external_body]
pub(crate) fn blake3_hash(data: &[u8]) -> (h: [u8; 32])
    ensures
        h == blake3_of(data@),
{
    *blake3::hash(data).as_bytes()
}

/// Hashes `data` under `key` with `blake3::keyed_hash`, a function of both alone.
#[verifier::external_body]
pub(crate) fn blake3_keyed_hash(key: &[u8; 32], data: &[u8]) -> (h: [u8; 32])
    ensures
        h == blake3_keyed_of(key@, data@),
{
    *blake3::keyed_hash(key, data).as_bytes()
}

/// The CRC-32 (IEEE) of `data`, by `crc32fast::hash`: the remainder by the polynomial
/// 0xEDB88320, lowest bit first, with the bits flipped at the start and at the end.
#[verifier::external_body]
pub(crate) fn crc32(data: &[u8]) -> (c: u32)
    ensures
        c == crc32_of(data@),
{
    crc32fast::hash(data)
}

} // verus!
