//! The header of a log file: a mark, the format version and the last checkpoint.
use vstd::prelude::*;
use crate::bytes;
use crate::error::{ErrorKind, IoError, IoFailure};
use crate::storage::checksum;
use crate::storage::checksum::calculate_crc32;
use crate::storage::constant::{WAL_HEADER_SIZE, WAL_MAGIC};

verus! {

/// The mark at the start of a log file.
pub open spec fn magic_bytes() -> Seq<u8> {
    WAL_MAGIC@
}

/// What the header of a log file says.
#[verifier::ext_equal]
pub struct LogHeader {
    pub magic: Seq<u8>,
    pub version: u64,
    pub last_checkpoint: u64,
    pub last_checkpoint_offset: u64,
}

impl LogHeader {
    /// The part of the header that its checksum covers.
    pub open spec fn head(self) -> Seq<u8> {
        self.magic + bytes::be64(self.version) + bytes::be64(self.last_checkpoint) + bytes::be64(
            self.last_checkpoint_offset,
        )
    }

    /// The bytes of the header.
    pub open spec fn bytes(self) -> Seq<u8> {
        self.head() + bytes::be32(checksum::crc32(self.head()))
    }

    /// The header at the start of the data. `checked` says whether its checksum has to
    /// match.
    pub open spec fn parse(s: Seq<u8>, checked: bool) -> Result<LogHeader, IoFailure> {
        if s.len() < WAL_HEADER_SIZE {
            Err(
                IoFailure {
                    kind: ErrorKind::UnexpectedEof,
                    message: "Buffer too short for WAL header"@,
                },
            )
        } else if s.subrange(0, 8) != magic_bytes() {
            Err(IoFailure { kind: ErrorKind::InvalidData, message: "Invalid WAL magic number"@ })
        } else if checked && checksum::crc32(s.subrange(0, 32)) != bytes::be32_at(s, 32) {
            Err(
                IoFailure { kind: ErrorKind::InvalidData, message: "WAL header checksum mismatch"@ },
            )
        } else {
            Ok(
                LogHeader {
                    magic: s.subrange(0, 8),
                    version: bytes::be64_at(s, 8),
                    last_checkpoint: bytes::be64_at(s, 16),
                    last_checkpoint_offset: bytes::be64_at(s, 24),
                },
            )
        }
    }
}

/// The bytes of a header with the given parts.
pub fn encode_log_header(
    magic: &[u8; 8],
    version: u64,
    last_checkpoint: u64,
    last_checkpoint_offset: u64,
) -> (out: Vec<u8>)
    ensures
        out@ == (LogHeader {
            magic: magic@,
            version,
            last_checkpoint,
            last_checkpoint_offset,
        }).bytes(),
{
    let mut out: Vec<u8> = Vec::new();
    let mut i: usize = 0;
    while i < 8
        invariant
            i <= 8,
            out@ == magic@.take(i as int),
        decreases 8 - i,
    {
        out.push(magic[i]);
        assert(out@ =~= magic@.take(i + 1));
        i = i + 1;
    }
    assert(out@ =~= magic@);
    bytes::push_be64(&mut out, version);
    bytes::push_be64(&mut out, last_checkpoint);
    bytes::push_be64(&mut out, last_checkpoint_offset);
    let checksum: u32 = calculate_crc32(out.as_slice());
    bytes::push_be32(&mut out, checksum);
    out
}

/// The parts of a header that was read: version, last checkpoint and its offset. The
/// mark is always the same.
pub fn decode_log_header(buf: &[u8], checked: bool) -> (r: Result<(u64, u64, u64), IoError>)
    ensures
        match r {
            Ok((version, last_checkpoint, last_checkpoint_offset)) => LogHeader::parse(
                buf@,
                checked,
            ) == Ok::<_, IoFailure>(
                LogHeader {
                    magic: magic_bytes(),
                    version,
                    last_checkpoint,
                    last_checkpoint_offset,
                },
            ),
            Err(e) => LogHeader::parse(buf@, checked) == Err::<LogHeader, _>(e@),
        },
{
    if (buf.len() as u64) < WAL_HEADER_SIZE {
        return Err(IoError::new(ErrorKind::UnexpectedEof, "Buffer too short for WAL header"));
    }
    let magic: [u8; 8] = WAL_MAGIC;
    let mut i: usize = 0;
    while i < 8
        invariant
            i <= 8,
            buf@.len() >= 36,
            magic@ == magic_bytes(),
            forall|j: int| 0 <= j < i ==> buf@[j] == #[trigger] magic@[j],
        decreases 8 - i,
    {
        if buf[i] != magic[i] {
            assert(buf@.subrange(0, 8)[i as int] != magic_bytes()[i as int]);
            return Err(IoError::new(ErrorKind::InvalidData, "Invalid WAL magic number"));
        }
        i = i + 1;
    }
    assert(buf@.subrange(0, 8) =~= magic_bytes());
    if checked {
        let covered: Vec<u8> = bytes::copy_range(buf, 0, 32);
        if calculate_crc32(covered.as_slice()) != bytes::get_be32(buf, 32) {
            return Err(IoError::new(ErrorKind::InvalidData, "WAL header checksum mismatch"));
        }
    }
    Ok((bytes::get_be64(buf, 8), bytes::get_be64(buf, 16), bytes::get_be64(buf, 24)))
}

/// Decoding gives back the header that was encoded, whatever follows it, and its
/// checksum matches.
pub proof fn law_log_header_round_trip(h: LogHeader, post: Seq<u8>, checked: bool)
    requires
        h.magic == magic_bytes(),
    ensures
        LogHeader::parse(h.bytes() + post, checked) == Ok::<_, IoFailure>(h),
        h.bytes().len() == WAL_HEADER_SIZE,
{
    broadcast use crate::bytes::group_bytes;

    let s = h.bytes() + post;
    assert(s.subrange(0, 8) =~= h.magic);
    assert(s.subrange(8, 16) =~= bytes::be64(h.version));
    assert(s.subrange(16, 24) =~= bytes::be64(h.last_checkpoint));
    assert(s.subrange(24, 32) =~= bytes::be64(h.last_checkpoint_offset));
    assert(s.subrange(0, 32) =~= h.head());
    assert(s.subrange(32, 36) =~= bytes::be32(checksum::crc32(h.head())));
}

/// A header with one byte changed is refused as invalid data where its checksum has to
/// match.
pub proof fn law_damaged_log_header_refused(h: LogHeader, i: int, b: u8, post: Seq<u8>)
    requires
        h.magic == magic_bytes(),
        0 <= i < WAL_HEADER_SIZE,
        b != h.bytes()[i],
    ensures
        LogHeader::parse(h.bytes().update(i, b) + post, true) matches Err(e) && e.kind
            == ErrorKind::InvalidData,
{
    broadcast use crate::bytes::group_bytes;

    law_log_header_round_trip(h, post, true);
    let sum = bytes::be32(checksum::crc32(h.head()));
    let s = h.bytes().update(i, b) + post;
    if i < 32 {
        checksum::law_changed_byte_changes_checksum(h.head(), i, b);
        assert(s.subrange(0, 32) =~= h.head().update(i, b));
        assert(s.subrange(32, 36) =~= sum);
    } else {
        assert(s.subrange(0, 32) =~= h.head());
        assert(s.subrange(32, 36) =~= sum.update(i - 32, b));
        bytes::lemma_from_be32(sum.update(i - 32, b));
        assert(sum.update(i - 32, b)[i - 32] != sum[i - 32]);
    }
}

/// Where the fields of a log's header are: the mark of the format, the version, the number
/// of the last checkpoint and its offset, and the checksum of all these; numbers are
/// big-endian.
pub proof fn law_log_header_layout(h: LogHeader)
    requires
        h.magic == magic_bytes(),
    ensures
        ({
            let b = h.bytes();
            &&& b.len() == 36
            &&& b.take(8) == WAL_MAGIC@
            &&& bytes::be64_at(b, 8) == h.version
            &&& bytes::be64_at(b, 16) == h.last_checkpoint
            &&& bytes::be64_at(b, 24) == h.last_checkpoint_offset
            &&& bytes::be32_at(b, 32) == checksum::crc32(b.take(32))
        }),
{
    broadcast use bytes::group_bytes;

    let b = h.bytes();
    assert(b.take(8) =~= h.magic);
    assert(b.subrange(8, 16) =~= bytes::be64(h.version));
    assert(b.subrange(16, 24) =~= bytes::be64(h.last_checkpoint));
    assert(b.subrange(24, 32) =~= bytes::be64(h.last_checkpoint_offset));
    assert(b.take(32) =~= h.head());
    assert(b.subrange(32, 36) =~= bytes::be32(checksum::crc32(h.head())));
}

/// What is read as a log's header is the bytes of that header, as far as its checksum;
/// with the checksum, where that is checked.
pub proof fn law_log_header_read_was_written(s: Seq<u8>, checked: bool)
    ensures
        LogHeader::parse(s, checked) matches Ok(h) ==> s.len() >= 36 && s.take(32) == h.head()
            && h.magic == WAL_MAGIC@,
        LogHeader::parse(s, true) matches Ok(h) ==> s.take(36) == h.bytes(),
        s.len() < 36 ==> LogHeader::parse(s, checked) is Err,
{
    broadcast use bytes::group_bytes;

    bytes::lemma_number_at(s, 8);
    bytes::lemma_number_at(s, 16);
    bytes::lemma_number_at(s, 24);
    bytes::lemma_number_at(s, 32);
    if let Ok(h) = LogHeader::parse(s, checked) {
        assert(s.take(32) =~= s.subrange(0, 8) + s.subrange(8, 16) + s.subrange(16, 24)
            + s.subrange(24, 32));
    }
    if let Ok(h) = LogHeader::parse(s, true) {
        assert(s.take(32) =~= s.subrange(0, 8) + s.subrange(8, 16) + s.subrange(16, 24)
            + s.subrange(24, 32));
        assert(s.subrange(0, 32) =~= s.take(32));
        assert(s.take(36) =~= s.take(32) + s.subrange(32, 36));
    }
}

} // verus!
