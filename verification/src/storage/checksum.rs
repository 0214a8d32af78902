//! CRC-32 checksums.
use vstd::prelude::*;
use vstd::string::*;
use crate::error::{DBError, DBFailure};
use crate::text;

verus! {

/// The remainder once one more bit of the data has been divided by the polynomial of
/// CRC-32, in which the highest power stands for the lowest bit.
pub open spec fn crc_bit(c: u32) -> u32 {
    if c & 1 == 1 {
        (c >> 1) ^ 0xedb88320
    } else {
        c >> 1
    }
}

/// The remainder once one more byte has been divided.
pub open spec fn crc_byte(c: u32, b: u8) -> u32 {
    crc_bit(
        crc_bit(crc_bit(crc_bit(crc_bit(crc_bit(crc_bit(crc_bit(c ^ (b as u32)))))))),
    )
}

/// The remainder once all of `data` has been divided, starting from `c`.
pub open spec fn crc_over(c: u32, data: Seq<u8>) -> u32
    decreases data.len(),
{
    if data.len() == 0 {
        c
    } else {
        crc_byte(crc_over(c, data.drop_last()), data.last())
    }
}

/// The CRC-32 checksum (IEEE) of `data`: the division starts from all ones, and all bits
/// of the remainder are flipped.
#[verifier::opaque]
pub open spec fn crc32(data: Seq<u8>) -> u32 {
    !crc_over(0xffff_ffff, data)
}

/// Different remainders stay different over one more bit.
proof fn lemma_crc_bit(a: u32, b: u32)
    requires
        crc_bit(a) == crc_bit(b),
    ensures
        a == b,
{
    assert(crc_bit(a) == crc_bit(b) ==> a == b) by (bit_vector);
}

/// What a remainder and a byte give together is settled by what comes of them.
proof fn lemma_crc_byte(a: u32, x: u8, b: u32, y: u8)
    requires
        crc_byte(a, x) == crc_byte(b, y),
    ensures
        a ^ (x as u32) == b ^ (y as u32),
{
    let (p0, q0) = (a ^ (x as u32), b ^ (y as u32));
    let (p1, q1) = (crc_bit(p0), crc_bit(q0));
    let (p2, q2) = (crc_bit(p1), crc_bit(q1));
    let (p3, q3) = (crc_bit(p2), crc_bit(q2));
    let (p4, q4) = (crc_bit(p3), crc_bit(q3));
    let (p5, q5) = (crc_bit(p4), crc_bit(q4));
    let (p6, q6) = (crc_bit(p5), crc_bit(q5));
    let (p7, q7) = (crc_bit(p6), crc_bit(q6));
    lemma_crc_bit(p7, q7);
    lemma_crc_bit(p6, q6);
    lemma_crc_bit(p5, q5);
    lemma_crc_bit(p4, q4);
    lemma_crc_bit(p3, q3);
    lemma_crc_bit(p2, q2);
    lemma_crc_bit(p1, q1);
    lemma_crc_bit(p0, q0);
}

/// One changed byte changes the remainder.
proof fn lemma_crc_over(c: u32, data: Seq<u8>, i: int, b: u8)
    requires
        0 <= i < data.len(),
        b != data[i],
    ensures
        crc_over(c, data.update(i, b)) != crc_over(c, data),
    decreases data.len(),
{
    let changed = data.update(i, b);
    let (x, y) = (data.last(), changed.last());
    let (p, q) = (crc_over(c, data.drop_last()), crc_over(c, changed.drop_last()));
    if i == data.len() - 1 {
        assert(changed.drop_last() =~= data.drop_last());
        assert(x != y ==> p ^ (x as u32) != p ^ (y as u32)) by (bit_vector);
    } else {
        assert(changed.drop_last() =~= data.drop_last().update(i, b));
        lemma_crc_over(c, data.drop_last(), i, b);
        assert(p != q ==> p ^ (x as u32) != q ^ (x as u32)) by (bit_vector);
    }
    if crc_byte(p, x) == crc_byte(q, y) {
        lemma_crc_byte(p, x, q, y);
    }
}

/// The checksum of data in which one byte is changed is another one.
pub proof fn law_changed_byte_changes_checksum(data: Seq<u8>, i: int, b: u8)
    requires
        0 <= i < data.len(),
        b != data[i],
    ensures
        crc32(data.update(i, b)) != crc32(data),
{
    reveal(crc32);
    lemma_crc_over(0xffff_ffff, data, i, b);
    let (p, q) = (crc_over(0xffff_ffff, data.update(i, b)), crc_over(0xffff_ffff, data));
    assert(p != q ==> !p != !q) by (bit_vector);
}

/// `crc32fast::Hasher::new`, `update` with all of `data`, `finalize`: the CRC-32 checksum
/// (IEEE) of `data`.
#[verifier::external_body]
fn crc32fast_hash(data: &[u8]) -> (checksum: u32)
    ensures
        checksum == crc32(data@),
{
    let mut hasher = crc32fast::Hasher::new();
    hasher.update(data);
    hasher.finalize()
}

/// The CRC-32 checksum of `data`.
pub fn calculate_crc32(data: &[u8]) -> (checksum: u32)
    ensures
        checksum == crc32(data@),
{
    crc32fast_hash(data)
}

/// The message for a checksum that is not the expected one.
pub open spec fn crc32_mismatch(expected: u32, got: u32) -> Seq<char> {
    "CRC32 mismatch: expected 0x"@ + text::hex_padded(expected as nat, 8) + ", got 0x"@ + text::hex_padded(
        got as nat,
        8,
    )
}

/// Accepts `data` if and only if `expected` is its checksum.
pub fn verify_crc32(data: &[u8], expected: u32) -> (r: Result<(), DBError>)
    ensures
        r is Ok <==> crc32(data@) == expected,
        r matches Err(e) ==> e@ == DBFailure::Corrupted(crc32_mismatch(expected, crc32(data@))),
{
    let computed: u32 = calculate_crc32(data);
    if computed == expected {
        return Ok(());
    }
    let mut message = "CRC32 mismatch: expected 0x".to_owned();
    text::push_hex_padded(&mut message, expected, 8);
    message.append(", got 0x");
    text::push_hex_padded(&mut message, computed, 8);
    Err(DBError::Corrupted(message))
}

} // verus!
