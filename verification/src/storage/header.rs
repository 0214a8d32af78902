//! The header of a block: its first and last key, how many records it has and
//! how many bytes they take.
use vstd::prelude::*;
use crate::bytes;
use crate::error::{IoError, IoFailure};

verus! {

/// The header of a block.
pub struct BlockHeader {
    pub first_key: Vec<u8>,
    pub last_key: Vec<u8>,
    pub record_count: u32,
    pub data_size: u32,
}

/// What the header of a block says.
#[verifier::ext_equal]
pub struct Header {
    pub first_key: Seq<u8>,
    pub last_key: Seq<u8>,
    pub record_count: u32,
    pub data_size: u32,
}

impl View for BlockHeader {
    type V = Header;

    open spec fn view(&self) -> Header {
        Header {
            first_key: self.first_key@,
            last_key: self.last_key@,
            record_count: self.record_count,
            data_size: self.data_size,
        }
    }
}

impl Header {
    /// The bytes of the header: each key behind its length, then the two numbers.
    pub open spec fn bytes(self) -> Seq<u8> {
        bytes::be32(self.first_key.len() as u32) + self.first_key + bytes::be32(
            self.last_key.len() as u32,
        ) + self.last_key + bytes::be32(self.record_count) + bytes::be32(self.data_size)
    }

    /// The header whose bytes start at `at`, and where they end.
    pub open spec fn parse(s: Seq<u8>, at: int) -> Result<(Header, int), IoFailure> {
        let first_len = bytes::be32_at(s, at) as int;
        let last_at = at + 4 + first_len;
        let last_len = bytes::be32_at(s, last_at) as int;
        let count_at = last_at + 4 + last_len;
        if bytes::holds(s, at, 4) && bytes::holds(s, at, 8 + first_len) && bytes::holds(
            s,
            at,
            16 + first_len + last_len,
        ) {
            Ok(
                (
                    Header {
                        first_key: s.subrange(at + 4, last_at),
                        last_key: s.subrange(last_at + 4, count_at),
                        record_count: bytes::be32_at(s, count_at),
                        data_size: bytes::be32_at(s, count_at + 4),
                    },
                    count_at + 8,
                ),
            )
        } else {
            Err(crate::error::eof_failure())
        }
    }
}

/// The bytes of a header with the given parts.
pub fn encode_header(first_key: &[u8], last_key: &[u8], record_count: u32, data_size: u32) -> (out:
    Vec<u8>)
    ensures
        out@ == (Header {
            first_key: first_key@,
            last_key: last_key@,
            record_count,
            data_size,
        }).bytes(),
{
    let mut out: Vec<u8> = Vec::new();
    bytes::push_be32(&mut out, first_key.len() as u32);
    bytes::push_all(&mut out, first_key);
    bytes::push_be32(&mut out, last_key.len() as u32);
    bytes::push_all(&mut out, last_key);
    bytes::push_be32(&mut out, record_count);
    bytes::push_be32(&mut out, data_size);
    assert(out@ =~= (Header {
        first_key: first_key@,
        last_key: last_key@,
        record_count,
        data_size,
    }).bytes());
    out
}

/// The header whose bytes start at `at`, and where they end.
pub fn decode_header(data: &[u8], at: usize) -> (r: Result<(BlockHeader, usize), IoError>)
    ensures
        match r {
            Ok((h, end)) => Header::parse(data@, at as int) == Ok::<_, IoFailure>((h@, end as int))
                && end <= data@.len(),
            Err(e) => Header::parse(data@, at as int) == Err::<(Header, int), _>(e@),
        },
{
    let len: usize = data.len();
    if at > len || len - at < 4 {
        return Err(IoError::eof());
    }
    let first_len: usize = bytes::get_be32(data, at) as usize;
    let left: usize = len - at - 4;
    if first_len > left || left - first_len < 4 {
        return Err(IoError::eof());
    }
    let last_at: usize = at + 4 + first_len;
    let last_len: usize = bytes::get_be32(data, last_at) as usize;
    let left: usize = len - last_at - 4;
    if last_len > left || left - last_len < 8 {
        return Err(IoError::eof());
    }
    let count_at: usize = last_at + 4 + last_len;
    let header = BlockHeader {
        first_key: bytes::copy_range(data, at + 4, last_at),
        last_key: bytes::copy_range(data, last_at + 4, count_at),
        record_count: bytes::get_be32(data, count_at),
        data_size: bytes::get_be32(data, count_at + 4),
    };
    Ok((header, count_at + 8))
}

/// Decoding gives back the header that was encoded, wherever its bytes stand.
pub proof fn law_header_round_trip(pre: Seq<u8>, h: Header, post: Seq<u8>)
    requires
        h.first_key.len() <= u32::MAX,
        h.last_key.len() <= u32::MAX,
    ensures
        Header::parse(pre + h.bytes() + post, pre.len() as int) == Ok::<_, IoFailure>(
            (h, (pre.len() + h.bytes().len()) as int),
        ),
{
    broadcast use crate::bytes::group_bytes;

    let s = pre + h.bytes() + post;
    let at = pre.len() as int;
    let (f, l) = (h.first_key.len() as int, h.last_key.len() as int);
    assert(s.subrange(at, at + 4) =~= bytes::be32(h.first_key.len() as u32));
    assert(s.subrange(at + 4, at + 4 + f) =~= h.first_key);
    assert(s.subrange(at + 4 + f, at + 8 + f) =~= bytes::be32(h.last_key.len() as u32));
    assert(s.subrange(at + 8 + f, at + 8 + f + l) =~= h.last_key);
    assert(s.subrange(at + 8 + f + l, at + 12 + f + l) =~= bytes::be32(h.record_count));
    assert(s.subrange(at + 12 + f + l, at + 16 + f + l) =~= bytes::be32(h.data_size));
}

/// Where the fields of a block's header are: the length of the first key, the first key,
/// the length of the last key, the last key, the number of records, and the number of
/// their bytes; numbers are big-endian.
pub proof fn law_header_layout(h: Header)
    requires
        h.first_key.len() <= u32::MAX,
        h.last_key.len() <= u32::MAX,
    ensures
        ({
            let (b, f, l) = (h.bytes(), h.first_key.len() as int, h.last_key.len() as int);
            &&& b.len() == 16 + f + l
            &&& bytes::be32_at(b, 0) == f
            &&& b.subrange(4, 4 + f) == h.first_key
            &&& bytes::be32_at(b, 4 + f) == l
            &&& b.subrange(8 + f, 8 + f + l) == h.last_key
            &&& bytes::be32_at(b, 8 + f + l) == h.record_count
            &&& bytes::be32_at(b, 12 + f + l) == h.data_size
        }),
{
    broadcast use bytes::group_bytes;

    let (b, f, l) = (h.bytes(), h.first_key.len() as int, h.last_key.len() as int);
    assert(b.subrange(0, 4) =~= bytes::be32(f as u32));
    assert(b.subrange(4, 4 + f) =~= h.first_key);
    assert(b.subrange(4 + f, 8 + f) =~= bytes::be32(l as u32));
    assert(b.subrange(8 + f, 8 + f + l) =~= h.last_key);
    assert(b.subrange(8 + f + l, 12 + f + l) =~= bytes::be32(h.record_count));
    assert(b.subrange(12 + f + l, 16 + f + l) =~= bytes::be32(h.data_size));
}

/// What is read as a header is the bytes of that header.
pub proof fn law_header_read_was_written(s: Seq<u8>, at: int)
    ensures
        Header::parse(s, at) matches Ok((h, end)) ==> 0 <= at <= end <= s.len() && s.subrange(
            at,
            end,
        ) == h.bytes(),
{
    broadcast use bytes::group_bytes;

    if let Ok((h, end)) = Header::parse(s, at) {
        let (f, l) = (h.first_key.len() as int, h.last_key.len() as int);
        bytes::lemma_number_at(s, at);
        bytes::lemma_number_at(s, at + 4 + f);
        bytes::lemma_number_at(s, at + 8 + f + l);
        bytes::lemma_number_at(s, at + 12 + f + l);
        assert(s.subrange(at, end) =~= h.bytes());
    }
}

} // verus!
