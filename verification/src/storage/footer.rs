//! The footer of a table: where its sections are, and their checksums.
use vstd::prelude::*;
use vstd::string::*;
use crate::bytes;
use crate::error::{ErrorKind, IoError, IoFailure};
use crate::storage::bloom;
use crate::storage::bloom::BloomFilterWrapper;
use crate::storage::checksum;
use crate::storage::checksum::calculate_crc32;
use crate::storage::index;
use crate::storage::index::{verify_index_checksum, IndexEntry, IndexItem, Offset, SparseIndexEntry,
    SparseItem};
use crate::storage::keyed;
use crate::storage::keymap::KeyMap;
use crate::storage::record;
use crate::storage::record::RecordType;
use crate::text;

verus! {

/// The number of bytes of a footer.
pub const FOOTER_SIZE: u64 = 64;

/// The mark by which a footer is known.
pub const MAGIC_NUMBER: u32 = 0xDB055555;

/// Where the sections of a table are, and their checksums.
#[derive(Clone, Copy, Debug, PartialEq, Eq, Structural)]
pub struct SSTableFooter {
    pub data_block_start: u64,
    pub data_block_end: u64,
    pub index_block_start: u64,
    pub index_block_end: u64,
    pub index_checksum: u32,
    pub bloom_block_start: u64,
    pub bloom_block_end: u64,
    pub bloom_checksum: u32,
}

/// The failure for a footer without its mark.
pub open spec fn bad_magic(got: u32) -> IoFailure {
    IoFailure {
        kind: ErrorKind::InvalidData,
        message: "Invalid magic number: expected 0x"@ + text::hex_upper(MAGIC_NUMBER as nat)
            + ", got 0x"@ + text::hex_upper(got as nat),
    }
}

/// The failure for a footer that does not match its checksum.
pub open spec fn footer_mismatch(calculated: u32, stored: u32) -> IoFailure {
    IoFailure {
        kind: ErrorKind::InvalidData,
        message: "Footer checksum mismatch: expected 0x"@ + text::hex_upper(calculated as nat)
            + ", got 0x"@ + text::hex_upper(stored as nat),
    }
}

/// The failure for a filter that does not match its checksum.
pub open spec fn bloom_mismatch(expected: u32, got: u32) -> IoFailure {
    IoFailure {
        kind: ErrorKind::InvalidData,
        message: "Bloom filter checksum mismatch: expected 0x"@ + text::hex_upper(expected as nat)
            + ", got 0x"@ + text::hex_upper(got as nat),
    }
}

/// The failure for a table that is shorter than a footer.
pub open spec fn too_short() -> IoFailure {
    IoFailure {
        kind: ErrorKind::InvalidInput,
        message: "invalid seek to a negative or overflowing position"@,
    }
}

impl SSTableFooter {
    /// The part of the footer that its checksum covers.
    pub open spec fn head(self) -> Seq<u8> {
        bytes::be64(self.data_block_start) + bytes::be64(self.data_block_end) + bytes::be64(
            self.index_block_start,
        ) + bytes::be64(self.index_block_end) + bytes::be32(self.index_checksum) + bytes::be64(
            self.bloom_block_start,
        ) + bytes::be64(self.bloom_block_end) + bytes::be32(self.bloom_checksum) + bytes::be32(
            MAGIC_NUMBER,
        )
    }

    /// The bytes of the footer.
    pub open spec fn bytes(self) -> Seq<u8> {
        self.head() + bytes::be32(checksum::crc32(self.head()))
    }

    /// The footer that starts at `at`.
    pub open spec fn parse(s: Seq<u8>, at: int) -> Result<SSTableFooter, IoFailure> {
        if !bytes::holds(s, at, 60) {
            Err(crate::error::eof_failure())
        } else if bytes::be32_at(s, at + 56) != MAGIC_NUMBER {
            Err(bad_magic(bytes::be32_at(s, at + 56)))
        } else if !bytes::holds(s, at, 64) {
            Err(crate::error::eof_failure())
        } else if checksum::crc32(s.subrange(at, at + 60)) != bytes::be32_at(s, at + 60) {
            Err(
                footer_mismatch(
                    checksum::crc32(s.subrange(at, at + 60)),
                    bytes::be32_at(s, at + 60),
                ),
            )
        } else {
            Ok(
                SSTableFooter {
                    data_block_start: bytes::be64_at(s, at),
                    data_block_end: bytes::be64_at(s, at + 8),
                    index_block_start: bytes::be64_at(s, at + 16),
                    index_block_end: bytes::be64_at(s, at + 24),
                    index_checksum: bytes::be32_at(s, at + 32),
                    bloom_block_start: bytes::be64_at(s, at + 36),
                    bloom_block_end: bytes::be64_at(s, at + 44),
                    bloom_checksum: bytes::be32_at(s, at + 52),
                },
            )
        }
    }

    /// The footer in the last bytes of a table.
    pub open spec fn of_table(s: Seq<u8>) -> Result<SSTableFooter, IoFailure> {
        if s.len() < FOOTER_SIZE {
            Err(too_short())
        } else {
            SSTableFooter::parse(s, s.len() - FOOTER_SIZE as int)
        }
    }

    /// The bytes of the footer.
    pub fn encode(&self) -> (out: Vec<u8>)
        ensures
            out@ == self.bytes(),
    {
        let mut out: Vec<u8> = Vec::new();
        bytes::push_be64(&mut out, self.data_block_start);
        assert(out@ =~= bytes::be64(self.data_block_start));
        bytes::push_be64(&mut out, self.data_block_end);
        bytes::push_be64(&mut out, self.index_block_start);
        bytes::push_be64(&mut out, self.index_block_end);
        bytes::push_be32(&mut out, self.index_checksum);
        bytes::push_be64(&mut out, self.bloom_block_start);
        bytes::push_be64(&mut out, self.bloom_block_end);
        bytes::push_be32(&mut out, self.bloom_checksum);
        bytes::push_be32(&mut out, MAGIC_NUMBER);
        let checksum: u32 = calculate_crc32(out.as_slice());
        bytes::push_be32(&mut out, checksum);
        out
    }

    /// The footer that starts at `at`.
    pub fn decode(data: &[u8], at: usize) -> (r: Result<SSTableFooter, IoError>)
        ensures
            match r {
                Ok(f) => SSTableFooter::parse(data@, at as int) == Ok::<_, IoFailure>(f),
                Err(e) => SSTableFooter::parse(data@, at as int) == Err::<SSTableFooter, _>(e@),
            },
    {
        let len: usize = data.len();
        if at > len || len - at < 60 {
            return Err(IoError::eof());
        }
        let magic: u32 = bytes::get_be32(data, at + 56);
        if magic != MAGIC_NUMBER {
            let mut message = "Invalid magic number: expected 0x".to_owned();
            text::push_hex_upper(&mut message, MAGIC_NUMBER);
            message.append(", got 0x");
            text::push_hex_upper(&mut message, magic);
            return Err(IoError::with_message(ErrorKind::InvalidData, message));
        }
        if len - at < 64 {
            return Err(IoError::eof());
        }
        let covered: Vec<u8> = bytes::copy_range(data, at, at + 60);
        let calculated: u32 = calculate_crc32(covered.as_slice());
        let stored: u32 = bytes::get_be32(data, at + 60);
        if stored != calculated {
            let mut message = "Footer checksum mismatch: expected 0x".to_owned();
            text::push_hex_upper(&mut message, calculated);
            message.append(", got 0x");
            text::push_hex_upper(&mut message, stored);
            return Err(IoError::with_message(ErrorKind::InvalidData, message));
        }
        Ok(
            SSTableFooter {
                data_block_start: bytes::get_be64(data, at),
                data_block_end: bytes::get_be64(data, at + 8),
                index_block_start: bytes::get_be64(data, at + 16),
                index_block_end: bytes::get_be64(data, at + 24),
                index_checksum: bytes::get_be32(data, at + 32),
                bloom_block_start: bytes::get_be64(data, at + 36),
                bloom_block_end: bytes::get_be64(data, at + 44),
                bloom_checksum: bytes::get_be32(data, at + 52),
            },
        )
    }
}

/// The number of bytes of a footer.
pub proof fn lemma_footer_size(f: SSTableFooter)
    ensures
        f.head().len() == 60,
        f.bytes().len() == FOOTER_SIZE,
{
    broadcast use crate::bytes::group_bytes;

}

/// Decoding gives back the footer that was encoded, wherever its bytes stand; at
/// the end of a table it is found as the table's footer.
pub proof fn law_footer_round_trip(pre: Seq<u8>, f: SSTableFooter, post: Seq<u8>)
    ensures
        SSTableFooter::parse(pre + f.bytes() + post, pre.len() as int) == Ok::<_, IoFailure>(f),
        SSTableFooter::of_table(pre + f.bytes()) == Ok::<_, IoFailure>(f),
{
    broadcast use crate::bytes::group_bytes;

    lemma_footer_size(f);
    let s = pre + f.bytes() + post;
    let at = pre.len() as int;
    lemma_footer_fields(pre, f, post);
    lemma_footer_fields(pre, f, seq![]);
    assert(pre + f.bytes() + seq![] =~= pre + f.bytes());
}

proof fn lemma_footer_fields(pre: Seq<u8>, f: SSTableFooter, post: Seq<u8>)
    ensures
        SSTableFooter::parse(pre + f.bytes() + post, pre.len() as int) == Ok::<_, IoFailure>(f),
{
    broadcast use crate::bytes::group_bytes;

    lemma_footer_size(f);
    let s = pre + f.bytes() + post;
    let at = pre.len() as int;
    assert(s.subrange(at, at + 8) =~= bytes::be64(f.data_block_start));
    assert(s.subrange(at + 8, at + 16) =~= bytes::be64(f.data_block_end));
    assert(s.subrange(at + 16, at + 24) =~= bytes::be64(f.index_block_start));
    assert(s.subrange(at + 24, at + 32) =~= bytes::be64(f.index_block_end));
    assert(s.subrange(at + 32, at + 36) =~= bytes::be32(f.index_checksum));
    assert(s.subrange(at + 36, at + 44) =~= bytes::be64(f.bloom_block_start));
    assert(s.subrange(at + 44, at + 52) =~= bytes::be64(f.bloom_block_end));
    assert(s.subrange(at + 52, at + 56) =~= bytes::be32(f.bloom_checksum));
    assert(s.subrange(at + 56, at + 60) =~= bytes::be32(MAGIC_NUMBER));
    assert(s.subrange(at, at + 60) =~= f.head());
    assert(s.subrange(at + 60, at + 64) =~= bytes::be32(checksum::crc32(f.head())));
}

/// A footer with one byte changed is refused as invalid data, whichever of its bytes it
/// is.
pub proof fn law_damaged_footer_refused(
    pre: Seq<u8>,
    f: SSTableFooter,
    i: int,
    b: u8,
    post: Seq<u8>,
)
    requires
        0 <= i < FOOTER_SIZE,
        b != f.bytes()[i],
    ensures
        f.bytes().len() == FOOTER_SIZE,
        SSTableFooter::parse(pre + f.bytes().update(i, b) + post, pre.len() as int) matches Err(e)
            && e.kind == ErrorKind::InvalidData,
        SSTableFooter::of_table(pre + f.bytes().update(i, b)) matches Err(e) && e.kind
            == ErrorKind::InvalidData,
{
    lemma_damaged_footer(pre, f, i, b, post);
    lemma_damaged_footer(pre, f, i, b, seq![]);
    assert(pre + f.bytes().update(i, b) + seq![] =~= pre + f.bytes().update(i, b));
}

proof fn lemma_damaged_footer(pre: Seq<u8>, f: SSTableFooter, i: int, b: u8, post: Seq<u8>)
    requires
        0 <= i < FOOTER_SIZE,
        b != f.bytes()[i],
    ensures
        f.bytes().len() == FOOTER_SIZE,
        SSTableFooter::parse(pre + f.bytes().update(i, b) + post, pre.len() as int) matches Err(e)
            && e.kind == ErrorKind::InvalidData,
{
    broadcast use crate::bytes::group_bytes;

    lemma_footer_size(f);
    let sum = bytes::be32(checksum::crc32(f.head()));
    let s = pre + f.bytes().update(i, b) + post;
    let at = pre.len() as int;
    if i < 60 {
        checksum::law_changed_byte_changes_checksum(f.head(), i, b);
        assert(s.subrange(at, at + 60) =~= f.head().update(i, b));
        assert(s.subrange(at + 60, at + 64) =~= sum);
    } else {
        assert(s.subrange(at, at + 60) =~= f.head());
        assert(s.subrange(at + 60, at + 64) =~= sum.update(i - 60, b));
        bytes::lemma_from_be32(sum.update(i - 60, b));
        assert(sum.update(i - 60, b)[i - 60] != sum[i - 60]);
    }
}

/// Accepts `data` if and only if `expected` is its checksum.
pub fn verify_bloom_checksum(data: &[u8], expected: u32) -> (r: Result<(), IoError>)
    ensures
        r is Ok <==> checksum::crc32(data@) == expected,
        r matches Err(e) ==> e@ == bloom_mismatch(expected, checksum::crc32(data@)),
{
    let calculated: u32 = calculate_crc32(data);
    if calculated == expected {
        return Ok(());
    }
    let mut message = "Bloom filter checksum mismatch: expected 0x".to_owned();
    text::push_hex_upper(&mut message, expected);
    message.append(", got 0x");
    text::push_hex_upper(&mut message, calculated);
    Err(IoError::with_message(ErrorKind::InvalidData, message))
}

/// A record without a timestamp.
pub struct PlainRecord {
    pub key: Seq<u8>,
    pub value: Seq<u8>,
    pub record_type: RecordType,
}

/// The data goes on from `at` for as long as the record there says.
pub open spec fn plain_record_fits(s: Seq<u8>, at: int) -> bool {
    &&& bytes::holds(s, at, 1)
    &&& RecordType::of_code(s[at]) is Some ==> {
        let key_len = bytes::be64_at(s, at + 1) as int;
        let value_len = bytes::be64_at(s, at + 9) as int;
        &&& bytes::holds(s, at, 17)
        &&& bytes::holds(s, at, 21 + key_len + value_len)
        &&& at + 38 + 2 * (key_len + value_len) <= usize::MAX
    }
}

/// The record that starts at `at`: its type, the two lengths, key, value and the
/// checksum of the value. With it comes a number of bytes to go on at, which
/// counts key, value and header twice.
pub open spec fn parse_plain_record(s: Seq<u8>, at: int) -> Result<(PlainRecord, int), IoFailure> {
    match RecordType::of_code(s[at]) {
        None => Err(record::bad_record_type()),
        Some(record_type) => {
            let key_len = bytes::be64_at(s, at + 1) as int;
            let value_len = bytes::be64_at(s, at + 9) as int;
            let value_at = at + 17 + key_len;
            let end = value_at + value_len;
            let value = s.subrange(value_at, end);
            if checksum::crc32(value) != bytes::be32_at(s, end) {
                Err(record::bad_checksum())
            } else {
                Ok(
                    (
                        PlainRecord { key: s.subrange(at + 17, value_at), value, record_type },
                        end + 21 + key_len + value_len,
                    ),
                )
            }
        },
    }
}

/// The record that starts at `offset`.
pub fn decode_record_from_file(reader: &[u8], offset: usize) -> (r: Result<
    (Vec<u8>, Vec<u8>, RecordType, usize),
    IoError,
>)
    requires
        plain_record_fits(reader@, offset as int),
    ensures
        match r {
            Ok((key, value, record_type, next)) => parse_plain_record(reader@, offset as int)
                == Ok::<_, IoFailure>(
                (PlainRecord { key: key@, value: value@, record_type }, next as int),
            ),
            Err(e) => parse_plain_record(reader@, offset as int) == Err::<(PlainRecord, int), _>(
                e@,
            ),
        },
{
    let record_type = match RecordType::from_u8(reader[offset]) {
        None => {
            return Err(IoError::new(ErrorKind::InvalidData, "Invalid record type"));
        },
        Some(record_type) => record_type,
    };
    let key_len: usize = bytes::get_be64(reader, offset + 1) as usize;
    let value_len: usize = bytes::get_be64(reader, offset + 9) as usize;
    let value_at: usize = offset + 17 + key_len;
    let end: usize = value_at + value_len;
    let key: Vec<u8> = bytes::copy_range(reader, offset + 17, value_at);
    let value: Vec<u8> = bytes::copy_range(reader, value_at, end);
    if calculate_crc32(value.as_slice()) != bytes::get_be32(reader, end) {
        return Err(IoError::new(ErrorKind::InvalidData, "Checksum mismatch"));
    }
    Ok((key, value, record_type, end + 1 + 8 + 8 + key_len + value_len + 4))
}

/// The footer in the last bytes of the table `data`.
pub fn read_sstable_footer(data: &[u8]) -> (r: Result<SSTableFooter, IoError>)
    ensures
        match r {
            Ok(f) => SSTableFooter::of_table(data@) == Ok::<_, IoFailure>(f),
            Err(e) => SSTableFooter::of_table(data@) == Err::<SSTableFooter, _>(e@),
        },
{
    if (data.len() as u64) < FOOTER_SIZE {
        return Err(
            IoError::new(
                ErrorKind::InvalidInput,
                "invalid seek to a negative or overflowing position",
            ),
        );
    }
    SSTableFooter::decode(data, data.len() - FOOTER_SIZE as usize)
}

/// The bytes of a section, if the table is long enough.
pub open spec fn section(s: Seq<u8>, start: u64, end: u64) -> Result<Seq<u8>, IoFailure> {
    if start == end {
        Ok(seq![])
    } else if end <= s.len() {
        Ok(s.subrange(start as int, end as int))
    } else {
        Err(crate::error::eof_failure())
    }
}

/// The first `n` entries of the sparse index from `at` on, and where they end.
pub open spec fn parse_sparse_entries(s: Seq<u8>, at: int, n: nat) -> Result<
    (Seq<SparseItem>, int),
    IoFailure,
>
    decreases n,
{
    if n == 0 {
        Ok((seq![], at))
    } else {
        match parse_sparse_entries(s, at, (n - 1) as nat) {
            Err(e) => Err(e),
            Ok((front, mid)) => match SparseItem::parse(s, mid) {
                Err(e) => Err(e),
                Ok((entry, end)) => Ok((front.push(entry), end)),
            },
        }
    }
}

/// An error of an entry stops the reading.
proof fn lemma_parse_sparse_err(s: Seq<u8>, at: int, i: nat, n: nat)
    requires
        i <= n,
        parse_sparse_entries(s, at, i) is Err,
    ensures
        parse_sparse_entries(s, at, n) == parse_sparse_entries(s, at, i),
    decreases n,
{
    if i < n {
        lemma_parse_sparse_err(s, at, i, (n - 1) as nat);
    }
}

/// The sparse index that starts at `at`: the number of entries, then the entries.
pub open spec fn parse_sparse_index(s: Seq<u8>, at: int) -> Result<
    (Seq<SparseItem>, int),
    IoFailure,
> {
    if bytes::holds(s, at, 8) {
        parse_sparse_entries(s, at + 8, bytes::be64_at(s, at) as nat)
    } else {
        Err(crate::error::eof_failure())
    }
}

/// The sparse index that starts at `at`, and where it ends.
pub fn decode_sparse_index_at(data: &[u8], at: usize) -> (r: Result<
    (Vec<SparseIndexEntry>, usize),
    IoError,
>)
    ensures
        match r {
            Ok((entries, end)) => parse_sparse_index(data@, at as int) == Ok::<_, IoFailure>(
                (keyed::views(entries@), end as int),
            ),
            Err(e) => parse_sparse_index(data@, at as int) == Err::<(Seq<SparseItem>, int), _>(e@),
        },
{
    let len: usize = data.len();
    if at > len || len - at < 8 {
        return Err(IoError::eof());
    }
    let n: u64 = bytes::get_be64(data, at);
    let mut entries: Vec<SparseIndexEntry> = Vec::new();
    let mut pos: usize = at + 8;
    let mut i: u64 = 0;
    assert(keyed::views(entries@) =~= seq![]);
    while i < n
        invariant
            i <= n,
            at + 8 <= data@.len(),
            n == bytes::be64_at(data@, at as int),
            parse_sparse_entries(data@, at + 8, i as nat) == Ok::<_, IoFailure>(
                (keyed::views(entries@), pos as int),
            ),
        decreases n - i,
    {
        match SparseIndexEntry::decode(data, pos) {
            Err(e) => {
                proof {
                    lemma_parse_sparse_err(data@, at + 8, (i + 1) as nat, n as nat);
                }
                return Err(e);
            },
            Ok((entry, end)) => {
                let ghost before = keyed::views(entries@);
                let ghost item = entry@;
                entries.push(entry);
                assert(keyed::views(entries@) =~= before.push(item));
                pos = end;
            },
        }
        i = i + 1;
    }
    Ok((entries, pos))
}

/// What reading the sparse index of a table gives.
pub open spec fn sparse_index_of(s: Seq<u8>, f: SSTableFooter) -> Result<
    Seq<SparseItem>,
    IoFailure,
> {
    match section(s, f.index_block_start, f.index_block_end) {
        Err(e) => Err(e),
        Ok(data) => if checksum::crc32(data) != f.index_checksum {
            Err(index::index_mismatch(f.index_checksum, checksum::crc32(data)))
        } else {
            match parse_sparse_index(data, 0) {
                Err(e) => Err(e),
                Ok((entries, _)) => Ok(entries),
            }
        },
    }
}

/// Copies a section of a table.
fn read_section(data: &[u8], start: u64, end: u64) -> (r: Result<Vec<u8>, IoError>)
    requires
        start <= end,
    ensures
        match r {
            Ok(v) => section(data@, start, end) == Ok::<_, IoFailure>(v@),
            Err(e) => section(data@, start, end) == Err::<Seq<u8>, _>(e@),
        },
{
    if start == end {
        let empty: Vec<u8> = Vec::new();
        assert(empty@ =~= seq![]);
        return Ok(empty);
    }
    if end > data.len() as u64 {
        return Err(IoError::eof());
    }
    Ok(bytes::copy_range(data, start as usize, end as usize))
}

/// The sparse index of the table `data`, whose checksum has to match.
pub fn read_sstable_sparse_index(data: &[u8], footer: &SSTableFooter) -> (r: Result<
    Vec<SparseIndexEntry>,
    IoError,
>)
    requires
        footer.index_block_start <= footer.index_block_end,
    ensures
        match r {
            Ok(entries) => sparse_index_of(data@, *footer) == Ok::<_, IoFailure>(
                keyed::views(entries@),
            ),
            Err(e) => sparse_index_of(data@, *footer) == Err::<Seq<SparseItem>, _>(e@),
        },
{
    let index_data: Vec<u8> = match read_section(
        data,
        footer.index_block_start,
        footer.index_block_end,
    ) {
        Err(e) => {
            return Err(e);
        },
        Ok(v) => v,
    };
    match verify_index_checksum(index_data.as_slice(), footer.index_checksum) {
        Err(e) => {
            return Err(e);
        },
        Ok(_) => {},
    }
    match decode_sparse_index_at(index_data.as_slice(), 0) {
        Err(e) => Err(e),
        Ok((entries, _)) => Ok(entries),
    }
}

/// The first `n` entries of a key index from `at` on, as a map, and where they
/// end. Of two entries of one key the later counts.
pub open spec fn parse_key_entries(s: Seq<u8>, at: int, n: nat) -> Result<
    (Map<Seq<u8>, u64>, int),
    IoFailure,
>
    decreases n,
{
    if n == 0 {
        Ok((Map::empty(), at))
    } else {
        match parse_key_entries(s, at, (n - 1) as nat) {
            Err(e) => Err(e),
            Ok((front, mid)) => match IndexItem::parse(s, mid) {
                Err(e) => Err(e),
                Ok((entry, end)) => Ok((front.insert(entry.key, entry.offset), end)),
            },
        }
    }
}

/// An error of an entry stops the reading.
proof fn lemma_parse_key_err(s: Seq<u8>, at: int, i: nat, n: nat)
    requires
        i <= n,
        parse_key_entries(s, at, i) is Err,
    ensures
        parse_key_entries(s, at, n) == parse_key_entries(s, at, i),
    decreases n,
{
    if i < n {
        lemma_parse_key_err(s, at, i, (n - 1) as nat);
    }
}

/// What reading the key index of a table gives.
pub open spec fn key_index_of(s: Seq<u8>, f: SSTableFooter) -> Result<
    Map<Seq<u8>, u64>,
    IoFailure,
> {
    match section(s, f.index_block_start, f.index_block_end) {
        Err(e) => Err(e),
        Ok(data) => if checksum::crc32(data) != f.index_checksum {
            Err(index::index_mismatch(f.index_checksum, checksum::crc32(data)))
        } else if !bytes::holds(data, 0, 8) {
            Err(crate::error::eof_failure())
        } else {
            match parse_key_entries(data, 8, bytes::be64_at(data, 0) as nat) {
                Err(e) => Err(e),
                Ok((entries, _)) => Ok(entries),
            }
        },
    }
}

/// The key index of the table `data`, whose checksum has to match.
pub fn read_sstable_index(data: &[u8], footer: &SSTableFooter) -> (r: Result<
    KeyMap<Offset>,
    IoError,
>)
    requires
        footer.index_block_start <= footer.index_block_end,
    ensures
        match r {
            Ok(index) => key_index_of(data@, *footer) == Ok::<_, IoFailure>(index@),
            Err(e) => key_index_of(data@, *footer) == Err::<Map<Seq<u8>, u64>, _>(e@),
        },
{
    let index_data: Vec<u8> = match read_section(
        data,
        footer.index_block_start,
        footer.index_block_end,
    ) {
        Err(e) => {
            return Err(e);
        },
        Ok(v) => v,
    };
    match verify_index_checksum(index_data.as_slice(), footer.index_checksum) {
        Err(e) => {
            return Err(e);
        },
        Ok(_) => {},
    }
    if index_data.len() < 8 {
        return Err(IoError::eof());
    }
    let n: u64 = bytes::get_be64(index_data.as_slice(), 0);
    let mut index: KeyMap<Offset> = KeyMap::new();
    let mut pos: usize = 8;
    let mut i: u64 = 0;
    while i < n
        invariant
            i <= n,
            section(data@, footer.index_block_start, footer.index_block_end) == Ok::<_, IoFailure>(
                index_data@,
            ),
            checksum::crc32(index_data@) == footer.index_checksum,
            bytes::holds(index_data@, 0, 8),
            n == bytes::be64_at(index_data@, 0),
            parse_key_entries(index_data@, 8, i as nat) == Ok::<_, IoFailure>((index@, pos as int)),
        decreases n - i,
    {
        match IndexEntry::decode(index_data.as_slice(), pos) {
            Err(e) => {
                proof {
                    lemma_parse_key_err(index_data@, 8, (i + 1) as nat, n as nat);
                }
                return Err(e);
            },
            Ok((entry, end)) => {
                index.insert(entry.key, Offset { offset: entry.offset });
                pos = end;
            },
        }
        i = i + 1;
    }
    Ok(index)
}

/// The bytes of the filter of a table, once its checksum has matched.
pub open spec fn bloom_section_of(s: Seq<u8>, f: SSTableFooter) -> Result<Seq<u8>, IoFailure> {
    match section(s, f.bloom_block_start, f.bloom_block_end) {
        Err(e) => Err(e),
        Ok(data) => if checksum::crc32(data) != f.bloom_checksum {
            Err(bloom_mismatch(f.bloom_checksum, checksum::crc32(data)))
        } else {
            Ok(data)
        },
    }
}

/// The bytes of the filter of the table `data`, whose checksum has to match.
pub fn read_bloom_section(data: &[u8], footer: &SSTableFooter) -> (r: Result<Vec<u8>, IoError>)
    requires
        footer.bloom_block_start <= footer.bloom_block_end,
    ensures
        match r {
            Ok(v) => bloom_section_of(data@, *footer) == Ok::<_, IoFailure>(v@),
            Err(e) => bloom_section_of(data@, *footer) == Err::<Seq<u8>, _>(e@),
        },
{
    let bloom_data: Vec<u8> = match read_section(
        data,
        footer.bloom_block_start,
        footer.bloom_block_end,
    ) {
        Err(e) => {
            return Err(e);
        },
        Ok(v) => v,
    };
    match verify_bloom_checksum(bloom_data.as_slice(), footer.bloom_checksum) {
        Err(e) => Err(e),
        Ok(_) => Ok(bloom_data),
    }
}

/// `f` is the filter that the bytes are of.
pub open spec fn filter_in(s: Seq<u8>, f: BloomFilterWrapper) -> bool {
    exists|end: int| bloom::filter_read(s, 0, f, end)
}

/// What reading the bytes of a filter gives.
pub open spec fn bloom_read(s: Seq<u8>, r: Result<BloomFilterWrapper, IoError>) -> bool {
    match r {
        Ok(f) => filter_in(s, f),
        Err(e) => bloom::parse_bloom(s, 0) == Err::<(Seq<u64>, u32, int), _>(e@),
    }
}

/// The filter of the table `data`, whose checksum has to match.
pub fn read_sstable_bloom(data: &[u8], footer: &SSTableFooter) -> (r: Result<
    BloomFilterWrapper,
    IoError,
>)
    requires
        footer.bloom_block_start <= footer.bloom_block_end,
        bloom_section_of(data@, *footer) matches Ok(section) ==> bloom::bloom_usable(section, 0),
    ensures
        bloom_section_of(data@, *footer) matches Err(failure) ==> (r matches Err(e) && e@
            == failure),
        bloom_section_of(data@, *footer) matches Ok(data) ==> bloom_read(data, r),
{
    let bloom_data: Vec<u8> = match read_bloom_section(data, footer) {
        Err(e) => {
            return Err(e);
        },
        Ok(v) => v,
    };
    match BloomFilterWrapper::decode(bloom_data.as_slice(), 0) {
        Err(e) => Err(e),
        Ok((f, end)) => {
            let found: Result<BloomFilterWrapper, IoError> = Ok(f);
            assert(bloom::filter_read(bloom_data@, 0, found->Ok_0, end as int));
            assert(filter_in(bloom_data@, found->Ok_0));
            found
        },
    }
}

/// Where the fields of a footer are: the start and the end of the data and of the index,
/// the checksum of the index, the start and the end of the filter, its checksum, the mark
/// of the format, and the checksum of all these; numbers are big-endian.
pub proof fn law_footer_layout(f: SSTableFooter)
    ensures
        ({
            let b = f.bytes();
            &&& b.len() == 64
            &&& bytes::be64_at(b, 0) == f.data_block_start
            &&& bytes::be64_at(b, 8) == f.data_block_end
            &&& bytes::be64_at(b, 16) == f.index_block_start
            &&& bytes::be64_at(b, 24) == f.index_block_end
            &&& bytes::be32_at(b, 32) == f.index_checksum
            &&& bytes::be64_at(b, 36) == f.bloom_block_start
            &&& bytes::be64_at(b, 44) == f.bloom_block_end
            &&& bytes::be32_at(b, 52) == f.bloom_checksum
            &&& bytes::be32_at(b, 56) == MAGIC_NUMBER
            &&& bytes::be32_at(b, 60) == checksum::crc32(b.take(60))
        }),
{
    broadcast use bytes::group_bytes;

    let b = f.bytes();
    assert(b.subrange(0, 8) =~= bytes::be64(f.data_block_start));
    assert(b.subrange(8, 16) =~= bytes::be64(f.data_block_end));
    assert(b.subrange(16, 24) =~= bytes::be64(f.index_block_start));
    assert(b.subrange(24, 32) =~= bytes::be64(f.index_block_end));
    assert(b.subrange(32, 36) =~= bytes::be32(f.index_checksum));
    assert(b.subrange(36, 44) =~= bytes::be64(f.bloom_block_start));
    assert(b.subrange(44, 52) =~= bytes::be64(f.bloom_block_end));
    assert(b.subrange(52, 56) =~= bytes::be32(f.bloom_checksum));
    assert(b.subrange(56, 60) =~= bytes::be32(MAGIC_NUMBER));
    assert(b.take(60) =~= f.head());
    assert(b.subrange(60, 64) =~= bytes::be32(checksum::crc32(f.head())));
}

/// What is read as a footer is the bytes of that footer, and it is read at the end of a
/// table.
pub proof fn law_footer_read_was_written(s: Seq<u8>, at: int)
    ensures
        SSTableFooter::parse(s, at) matches Ok(f) ==> bytes::holds(s, at, 64) && s.subrange(
            at,
            at + 64,
        ) == f.bytes(),
        SSTableFooter::of_table(s) matches Ok(f) ==> s.len() >= 64 && s.skip(s.len() - 64)
            == f.bytes(),
        s.len() < 64 ==> SSTableFooter::of_table(s) is Err,
{
    lemma_footer_read(s, at);
    if s.len() >= 64 {
        lemma_footer_read(s, s.len() - 64);
        assert(s.subrange(s.len() - 64, s.len() as int) =~= s.skip(s.len() - 64));
    }
}

proof fn lemma_footer_read(s: Seq<u8>, at: int)
    ensures
        SSTableFooter::parse(s, at) matches Ok(f) ==> bytes::holds(s, at, 64) && s.subrange(
            at,
            at + 64,
        ) == f.bytes(),
{
    broadcast use bytes::group_bytes;

    if let Ok(f) = SSTableFooter::parse(s, at) {
        bytes::lemma_number_at(s, at);
        bytes::lemma_number_at(s, at + 8);
        bytes::lemma_number_at(s, at + 16);
        bytes::lemma_number_at(s, at + 24);
        bytes::lemma_number_at(s, at + 32);
        bytes::lemma_number_at(s, at + 36);
        bytes::lemma_number_at(s, at + 44);
        bytes::lemma_number_at(s, at + 52);
        bytes::lemma_number_at(s, at + 56);
        bytes::lemma_number_at(s, at + 60);
        assert(s.subrange(at, at + 60) =~= f.head());
        assert(s.subrange(at, at + 64) =~= f.bytes());
    }
}

/// A section is the bytes from its start to its end, as long as they are there.
pub proof fn law_section(pre: Seq<u8>, body: Seq<u8>, post: Seq<u8>)
    requires
        pre.len() + body.len() <= u64::MAX,
    ensures
        section(pre + body + post, pre.len() as u64, (pre.len() + body.len()) as u64) == Ok::<
            _,
            IoFailure,
        >(body),
        body.len() > 0 ==> section(
            pre + body.drop_last(),
            pre.len() as u64,
            (pre.len() + body.len()) as u64,
        ) == Err::<Seq<u8>, _>(crate::error::eof_failure()),
{
    bytes::lemma_part(pre, body, post);
    if body.len() == 0 {
        assert(body =~= seq![]);
    }
}

/// A record of a table that is found through its index as it was written: the type, the
/// lengths of key and value, the key, the value, and the checksum of the value.
pub proof fn law_plain_record_reads_back(pre: Seq<u8>, r: PlainRecord, post: Seq<u8>)
    requires
        r.key.len() <= u64::MAX,
        r.value.len() <= u64::MAX,
    ensures
        parse_plain_record(
            pre + (seq![r.record_type.code()] + bytes::be64(r.key.len() as u64) + bytes::be64(
                r.value.len() as u64,
            ) + r.key + r.value + bytes::be32(checksum::crc32(r.value))) + post,
            pre.len() as int,
        ) matches Ok((found, _)) && found == r,
{
    broadcast use bytes::group_bytes;

    let (at, k, n) = (pre.len() as int, r.key.len() as int, r.value.len() as int);
    let b = seq![r.record_type.code()] + bytes::be64(r.key.len() as u64) + bytes::be64(
        r.value.len() as u64,
    ) + r.key + r.value + bytes::be32(checksum::crc32(r.value));
    let s = pre + b + post;
    record::law_type_codes(r.record_type, s[at]);
    assert(s[at] == r.record_type.code());
    assert(s.subrange(at + 1, at + 9) =~= bytes::be64(k as u64));
    assert(s.subrange(at + 9, at + 17) =~= bytes::be64(n as u64));
    assert(s.subrange(at + 17, at + 17 + k) =~= r.key);
    assert(s.subrange(at + 17 + k, at + 17 + k + n) =~= r.value);
    assert(s.subrange(at + 17 + k + n, at + 21 + k + n) =~= bytes::be32(
        checksum::crc32(r.value),
    ));
}

/// Data that does not end with the mark of the format is refused, and the failure shows
/// what stands in its place; so is data whose checksum is another.
pub proof fn law_other_format_refused(s: Seq<u8>, at: int)
    requires
        bytes::holds(s, at, 64),
    ensures
        bytes::be32_at(s, at + 56) != MAGIC_NUMBER ==> (SSTableFooter::parse(s, at) matches Err(e)
            && e.kind == ErrorKind::InvalidData && text::has_suffix(
            e.message,
            text::hex_upper(bytes::be32_at(s, at + 56) as nat),
        )),
        bytes::be32_at(s, at + 56) == MAGIC_NUMBER && bytes::be32_at(s, at + 60)
            != checksum::crc32(s.subrange(at, at + 60)) ==> (SSTableFooter::parse(s, at) matches Err(
            e,
        ) && e.kind == ErrorKind::InvalidData && text::has_suffix(
            e.message,
            text::hex_upper(bytes::be32_at(s, at + 60) as nat),
        )),
{
    let got = text::hex_upper(bytes::be32_at(s, at + 56) as nat);
    let stored = text::hex_upper(bytes::be32_at(s, at + 60) as nat);
    let sum = text::hex_upper(checksum::crc32(s.subrange(at, at + 60)) as nat);
    text::law_prefix_and_suffix(
        "Invalid magic number: expected 0x"@ + text::hex_upper(MAGIC_NUMBER as nat)
            + ", got 0x"@,
        got,
        got,
    );
    text::law_prefix_and_suffix(
        "Footer checksum mismatch: expected 0x"@ + sum + ", got 0x"@,
        stored,
        stored,
    );
}

} // verus!
