//! The manifest: which tables there are, as a log of changes.
use vstd::prelude::*;
use vstd::string::*;
use crate::bytes;
use crate::error::{ErrorKind, IoError, IoFailure};
use crate::storage::bloom;
use crate::storage::bloom::BloomFilterWrapper;
use crate::storage::checksum;
use crate::storage::checksum::calculate_crc32;
use crate::text;

verus! {

/// The entry adds a table.
pub const ENTRY_KIND_ADD: u8 = 1;

/// The entry removes a table.
pub const ENTRY_KIND_REMOVE: u8 = 2;

/// The entry marks a checkpoint.
pub const ENTRY_KIND_CHECKPOINT: u8 = 3;

/// The version of the manifest format.
pub const MANIFEST_VERSION: u32 = 1;

/// What the manifest knows of a table.
pub struct SSTableMeta {
    pub file_id: u64,
    pub level: u32,
    pub path: String,
    pub record_count: usize,
    pub bloom_bitmap: BloomFilterWrapper,
    pub smallest_key: Vec<u8>,
    pub largest_key: Vec<u8>,
}

/// What the manifest knows of a table, as mathematical values.
#[verifier::ext_equal]
pub struct MetaView {
    pub file_id: u64,
    pub level: u32,
    pub path: Seq<char>,
    pub record_count: usize,
    pub words: Seq<u64>,
    pub hashes: u32,
    pub smallest_key: Seq<u8>,
    pub largest_key: Seq<u8>,
}

impl View for SSTableMeta {
    type V = MetaView;

    open spec fn view(&self) -> MetaView {
        MetaView {
            file_id: self.file_id,
            level: self.level,
            path: self.path@,
            record_count: self.record_count,
            words: self.bloom_bitmap@.words,
            hashes: self.bloom_bitmap@.hashes,
            smallest_key: self.smallest_key@,
            largest_key: self.largest_key@,
        }
    }
}

impl Clone for SSTableMeta {
    fn clone(&self) -> (m: SSTableMeta)
        ensures
            m@ == self@,
            m.bloom_bitmap@ == self.bloom_bitmap@,
    {
        SSTableMeta {
            file_id: self.file_id,
            level: self.level,
            path: self.path.clone(),
            record_count: self.record_count,
            bloom_bitmap: self.bloom_bitmap.clone(),
            smallest_key: bytes::copy_bytes(self.smallest_key.as_slice()),
            largest_key: bytes::copy_bytes(self.largest_key.as_slice()),
        }
    }
}

/// A failure with the given kind and message.
pub open spec fn failure(kind: ErrorKind, message: Seq<char>) -> IoFailure {
    IoFailure { kind, message }
}

/// The part of an entry that its checksum covers.
pub open spec fn entry_head(kind: u8, payload: Seq<u8>) -> Seq<u8> {
    seq![kind] + bytes::field32(payload)
}

/// The bytes of an entry: its kind, the payload behind its length, and the checksum
/// of both.
pub open spec fn entry_bytes(kind: u8, payload: Seq<u8>) -> Seq<u8> {
    entry_head(kind, payload) + bytes::be32(checksum::crc32(entry_head(kind, payload)))
}

/// The failure for an entry that does not match its checksum.
pub open spec fn entry_mismatch(calculated: u32, stored: u32) -> IoFailure {
    failure(
        ErrorKind::InvalidData,
        "manifest entry checksum mismatch: expected 0x"@ + text::hex_padded_upper(
            calculated as nat,
            8,
        ) + ", got 0x"@ + text::hex_padded_upper(stored as nat, 8),
    )
}

/// The entry that starts at `at`, and where it ends.
pub open spec fn parse_entry(s: Seq<u8>, at: int) -> Result<(u8, Seq<u8>, int), IoFailure> {
    let len = bytes::be32_at(s, at + 1) as int;
    let payload_end = at + 5 + len;
    if at + 5 > usize::MAX {
        Err(failure(ErrorKind::InvalidData, "manifest offset overflow"@))
    } else if at + 5 > s.len() {
        Err(failure(ErrorKind::UnexpectedEof, "truncated manifest entry header"@))
    } else if payload_end > usize::MAX {
        Err(failure(ErrorKind::InvalidData, "manifest payload overflow"@))
    } else if payload_end + 4 > usize::MAX {
        Err(failure(ErrorKind::InvalidData, "manifest checksum overflow"@))
    } else if payload_end + 4 > s.len() {
        Err(failure(ErrorKind::UnexpectedEof, "truncated manifest entry payload"@))
    } else if checksum::crc32(s.subrange(at, payload_end)) != bytes::be32_at(s, payload_end) {
        Err(
            entry_mismatch(
                checksum::crc32(s.subrange(at, payload_end)),
                bytes::be32_at(s, payload_end),
            ),
        )
    } else {
        Ok((s[at], s.subrange(at + 5, payload_end), payload_end + 4))
    }
}

/// The bytes of an entry; the payload's length has to fit in four bytes.
pub fn encode_entry(kind: u8, payload: &[u8]) -> (r: Result<Vec<u8>, IoError>)
    ensures
        payload@.len() <= u32::MAX ==> (r matches Ok(v) && v@ == entry_bytes(kind, payload@)),
        payload@.len() > u32::MAX ==> (r matches Err(e) && e@ == failure(
            ErrorKind::InvalidInput,
            "manifest entry payload too large"@,
        )),
{
    if payload.len() as u64 > u32::MAX as u64 {
        return Err(IoError::new(ErrorKind::InvalidInput, "manifest entry payload too large"));
    }
    let mut out: Vec<u8> = Vec::new();
    out.push(kind);
    bytes::push_be32(&mut out, payload.len() as u32);
    bytes::push_all(&mut out, payload);
    assert(out@ =~= entry_head(kind, payload@));
    let checksum: u32 = calculate_crc32(out.as_slice());
    bytes::push_be32(&mut out, checksum);
    Ok(out)
}

/// The entry that starts at `offset`: its kind, its payload and where it ends.
pub fn decode_entry(data: &[u8], offset: usize) -> (r: Result<(u8, Vec<u8>, usize), IoError>)
    ensures
        match r {
            Ok((kind, payload, end)) => parse_entry(data@, offset as int) == Ok::<_, IoFailure>(
                (kind, payload@, end as int),
            ) && offset < end <= data@.len(),
            Err(e) => parse_entry(data@, offset as int) == Err::<(u8, Seq<u8>, int), _>(e@),
        },
{
    let len: usize = data.len();
    let header_end: usize = match offset.checked_add(5) {
        None => {
            return Err(IoError::new(ErrorKind::InvalidData, "manifest offset overflow"));
        },
        Some(end) => end,
    };
    if header_end > len {
        return Err(IoError::new(ErrorKind::UnexpectedEof, "truncated manifest entry header"));
    }
    let payload_len: usize = bytes::get_be32(data, offset + 1) as usize;
    let payload_end: usize = match header_end.checked_add(payload_len) {
        None => {
            return Err(IoError::new(ErrorKind::InvalidData, "manifest payload overflow"));
        },
        Some(end) => end,
    };
    let checksum_end: usize = match payload_end.checked_add(4) {
        None => {
            return Err(IoError::new(ErrorKind::InvalidData, "manifest checksum overflow"));
        },
        Some(end) => end,
    };
    if checksum_end > len {
        return Err(IoError::new(ErrorKind::UnexpectedEof, "truncated manifest entry payload"));
    }
    let stored: u32 = bytes::get_be32(data, payload_end);
    let covered: Vec<u8> = bytes::copy_range(data, offset, payload_end);
    let calculated: u32 = calculate_crc32(covered.as_slice());
    if stored != calculated {
        let mut message = "manifest entry checksum mismatch: expected 0x".to_owned();
        text::push_hex_padded_upper(&mut message, calculated, 8);
        message.append(", got 0x");
        text::push_hex_padded_upper(&mut message, stored, 8);
        return Err(IoError::with_message(ErrorKind::InvalidData, message));
    }
    Ok((data[offset], bytes::copy_range(data, header_end, payload_end), checksum_end))
}

/// Decoding gives back the entry that was encoded, wherever its bytes stand.
pub proof fn law_entry_round_trip(pre: Seq<u8>, kind: u8, payload: Seq<u8>, post: Seq<u8>)
    requires
        payload.len() <= u32::MAX,
        pre.len() + entry_bytes(kind, payload).len() <= usize::MAX,
    ensures
        parse_entry(pre + entry_bytes(kind, payload) + post, pre.len() as int) == Ok::<
            _,
            IoFailure,
        >((kind, payload, (pre.len() + entry_bytes(kind, payload).len()) as int)),
{
    broadcast use crate::bytes::group_bytes;

    let s = pre + entry_bytes(kind, payload) + post;
    let at = pre.len() as int;
    let n = payload.len() as int;
    let head = entry_head(kind, payload);
    assert(s[at] == kind);
    assert(s.subrange(at + 1, at + 5) =~= bytes::be32(payload.len() as u32));
    assert(s.subrange(at + 5, at + 5 + n) =~= payload);
    assert(s.subrange(at, at + 5 + n) =~= head);
    assert(s.subrange(at + 5 + n, at + 9 + n) =~= bytes::be32(checksum::crc32(head)));
}

/// An entry with one byte of its kind, its payload or its checksum changed is refused as
/// invalid data.
pub proof fn law_damaged_entry_refused(
    pre: Seq<u8>,
    kind: u8,
    payload: Seq<u8>,
    i: int,
    b: u8,
    post: Seq<u8>,
)
    requires
        payload.len() <= u32::MAX,
        pre.len() + entry_bytes(kind, payload).len() <= usize::MAX,
        i == 0 || 5 <= i < entry_bytes(kind, payload).len(),
        b != entry_bytes(kind, payload)[i],
    ensures
        entry_bytes(kind, payload).len() == payload.len() + 9,
        parse_entry(
            pre + entry_bytes(kind, payload).update(i, b) + post,
            pre.len() as int,
        ) matches Err(e) && e.kind == ErrorKind::InvalidData,
{
    broadcast use crate::bytes::group_bytes;

    let s = pre + entry_bytes(kind, payload).update(i, b) + post;
    let at = pre.len() as int;
    let n = payload.len() as int;
    let head = entry_head(kind, payload);
    let sum = bytes::be32(checksum::crc32(head));
    assert(s.subrange(at + 1, at + 5) =~= bytes::be32(payload.len() as u32));
    if i < 5 + n {
        checksum::law_changed_byte_changes_checksum(head, i, b);
        assert(s.subrange(at, at + 5 + n) =~= head.update(i, b));
        assert(s.subrange(at + 5 + n, at + 9 + n) =~= sum);
    } else {
        assert(s.subrange(at, at + 5 + n) =~= head);
        assert(s.subrange(at + 5 + n, at + 9 + n) =~= sum.update(i - 5 - n, b));
        bytes::lemma_from_be32(sum.update(i - 5 - n, b));
        assert(sum.update(i - 5 - n, b)[i - 5 - n] != sum[i - 5 - n]);
    }
}

/// An entry of which the end is missing is refused as ending too early.
pub proof fn law_torn_entry_refused(pre: Seq<u8>, kind: u8, payload: Seq<u8>, n: int)
    requires
        payload.len() <= u32::MAX,
        pre.len() + entry_bytes(kind, payload).len() <= usize::MAX,
        0 <= n < entry_bytes(kind, payload).len(),
    ensures
        parse_entry(pre + entry_bytes(kind, payload).take(n), pre.len() as int) matches Err(e)
            && e.kind == ErrorKind::UnexpectedEof,
{
    broadcast use crate::bytes::group_bytes;

    let s = pre + entry_bytes(kind, payload).take(n);
    let at = pre.len() as int;
    if n >= 5 {
        assert(s.subrange(at + 1, at + 5) =~= bytes::be32(payload.len() as u32));
    }
}

/// The bytes of the fields of a table before its key range.
pub open spec fn meta_head(m: MetaView) -> Seq<u8> {
    bytes::be32(m.level) + bytes::be64(m.file_id) + bytes::be64(m.record_count as u64)
        + bytes::field32(vstd::utf8::encode_utf8(m.path)) + bytes::field32(
        bloom::bloom_bytes(m.words, m.hashes),
    )
}

/// The payload that adds a table.
pub open spec fn add_payload(m: MetaView) -> Seq<u8> {
    meta_head(m) + bytes::field32(m.smallest_key) + bytes::field32(m.largest_key)
}

/// The lengths of the fields of a table fit in the four bytes that hold them.
pub open spec fn meta_encodable(m: MetaView) -> bool {
    &&& vstd::utf8::encode_utf8(m.path).len() <= u32::MAX
    &&& bloom::bloom_bytes(m.words, m.hashes).len() <= u32::MAX
    &&& m.smallest_key.len() <= u32::MAX
    &&& m.largest_key.len() <= u32::MAX
}

/// The failure for a field that is too long.
pub open spec fn field_too_long() -> IoFailure {
    failure(ErrorKind::InvalidInput, "field length exceeds u32"@)
}

/// Appends `value` behind its length.
pub fn push_bytes(buf: &mut Vec<u8>, value: &[u8]) -> (r: Result<(), IoError>)
    ensures
        value@.len() <= u32::MAX ==> r is Ok && final(buf)@ == old(buf)@ + bytes::field32(value@),
        value@.len() > u32::MAX ==> (r matches Err(e) && e@ == field_too_long()) && final(buf)@
            == old(buf)@,
{
    if value.len() as u64 > u32::MAX as u64 {
        return Err(IoError::new(ErrorKind::InvalidInput, "field length exceeds u32"));
    }
    bytes::push_be32(buf, value.len() as u32);
    bytes::push_all(buf, value);
    assert(buf@ =~= old(buf)@ + bytes::field32(value@));
    Ok(())
}

/// The payload that adds a table.
pub fn encode_add_payload(meta: &SSTableMeta) -> (r: Result<Vec<u8>, IoError>)
    ensures
        bloom::sound(meta.bloom_bitmap),
        meta_encodable(meta@) ==> (r matches Ok(v) && v@ == add_payload(meta@)),
        !meta_encodable(meta@) ==> (r matches Err(e) && e@ == field_too_long()),
{
    let mut payload: Vec<u8> = Vec::new();
    bytes::push_be32(&mut payload, meta.level);
    bytes::push_be64(&mut payload, meta.file_id);
    bytes::push_be64(&mut payload, meta.record_count as u64);
    let encoded_bloom: Vec<u8> = meta.bloom_bitmap.encode();
    proof {
        assert(payload@ =~= bytes::be32(meta.level) + bytes::be64(meta.file_id) + bytes::be64(
            meta.record_count as u64,
        ));
    }
    match push_bytes(&mut payload, meta.path.as_str().as_bytes()) {
        Err(e) => {
            return Err(e);
        },
        Ok(_) => {},
    }
    match push_bytes(&mut payload, encoded_bloom.as_slice()) {
        Err(e) => {
            return Err(e);
        },
        Ok(_) => {},
    }
    match push_bytes(&mut payload, meta.smallest_key.as_slice()) {
        Err(e) => {
            return Err(e);
        },
        Ok(_) => {},
    }
    match push_bytes(&mut payload, meta.largest_key.as_slice()) {
        Err(e) => {
            return Err(e);
        },
        Ok(_) => {},
    }
    Ok(payload)
}

/// The table that a payload adds. A payload that ends before the key range gives an
/// empty range.
pub open spec fn parse_add(s: Seq<u8>) -> Result<MetaView, IoFailure> {
    if s.len() < 20 {
        Err(crate::error::eof_failure())
    } else {
        match bytes::field32_at(s, 20) {
            None => Err(crate::error::eof_failure()),
            Some((path, a)) => if !vstd::utf8::valid_utf8(path) {
                Err(
                    failure(
                        ErrorKind::InvalidData,
                        "invalid UTF-8 in manifest path: "@ + text::utf8_error(path),
                    ),
                )
            } else {
                match bytes::field32_at(s, a) {
                    None => Err(crate::error::eof_failure()),
                    Some((filter, b)) => match bloom::parse_bloom(filter, 0) {
                        Err(e) => Err(e),
                        Ok((words, hashes, _)) => {
                            let range = if b >= s.len() {
                                Some((Seq::<u8>::empty(), Seq::<u8>::empty()))
                            } else {
                                match bytes::field32_at(s, b) {
                                    None => None,
                                    Some((smallest, c)) => match bytes::field32_at(s, c) {
                                        None => None,
                                        Some((largest, _)) => Some((smallest, largest)),
                                    },
                                }
                            };
                            match range {
                                None => Err(crate::error::eof_failure()),
                                Some((smallest_key, largest_key)) => if bytes::be64_at(s, 12)
                                    > usize::MAX {
                                    Err(
                                        failure(
                                            ErrorKind::InvalidData,
                                            "record count does not fit usize"@,
                                        ),
                                    )
                                } else {
                                    Ok(
                                        MetaView {
                                            file_id: bytes::be64_at(s, 4),
                                            level: bytes::be32_at(s, 0),
                                            path: vstd::utf8::decode_utf8(path),
                                            record_count: bytes::be64_at(s, 12) as usize,
                                            words,
                                            hashes: bloom::at_least_one(hashes),
                                            smallest_key,
                                            largest_key,
                                        },
                                    )
                                },
                            }
                        },
                    },
                }
            },
        }
    }
}

/// The bytes of the filter in a payload, where the payload gets that far.
pub open spec fn add_filter(s: Seq<u8>) -> Option<Seq<u8>> {
    if s.len() < 20 {
        None
    } else {
        match bytes::field32_at(s, 20) {
            None => None,
            Some((path, a)) => if !vstd::utf8::valid_utf8(path) {
                None
            } else {
                match bytes::field32_at(s, a) {
                    None => None,
                    Some((filter, _)) => Some(filter),
                }
            },
        }
    }
}

/// A filter can be made of the bytes in a payload, if there are any.
pub open spec fn add_usable(s: Seq<u8>) -> bool {
    add_filter(s) matches Some(filter) ==> bloom::bloom_usable(filter, 0)
}

/// Whether `decode_add_payload` may be called on the payload.
pub fn add_payload_readable(payload: &[u8]) -> (r: bool)
    ensures
        r == add_usable(payload@),
{
    if payload.len() < 20 {
        return true;
    }
    match bytes::get_field32(payload, 20) {
        None => true,
        Some((path, a)) => match text::from_utf8(path) {
            Err(_) => true,
            Ok(_) => match bytes::get_field32(payload, a) {
                None => true,
                Some((filter, _)) => BloomFilterWrapper::decodable(filter.as_slice(), 0),
            },
        },
    }
}

/// The table that a payload adds.
pub fn decode_add_payload(payload: &[u8]) -> (r: Result<SSTableMeta, IoError>)
    requires
        add_usable(payload@),
    ensures
        match r {
            Ok(meta) => {
                &&& parse_add(payload@) == Ok::<_, IoFailure>(meta@)
                &&& add_filter(payload@) matches Some(filter)
                &&& exists|end: int| bloom::filter_read(filter, 0, meta.bloom_bitmap, end)
            },
            Err(e) => parse_add(payload@) == Err::<MetaView, _>(e@),
        },
{
    let len: usize = payload.len();
    if len < 20 {
        return Err(IoError::eof());
    }
    let level: u32 = bytes::get_be32(payload, 0);
    let file_id: u64 = bytes::get_be64(payload, 4);
    let record_count: u64 = bytes::get_be64(payload, 12);
    let (path_bytes, a) = match bytes::get_field32(payload, 20) {
        None => {
            return Err(IoError::eof());
        },
        Some(found) => found,
    };
    let path: String = match text::from_utf8(path_bytes) {
        Err(detail) => {
            let mut message = "invalid UTF-8 in manifest path: ".to_owned();
            message.append(detail.as_str());
            return Err(IoError::with_message(ErrorKind::InvalidData, message));
        },
        Ok(path) => path,
    };
    let (filter, b) = match bytes::get_field32(payload, a) {
        None => {
            return Err(IoError::eof());
        },
        Some(found) => found,
    };
    let (bloom_bitmap, end) = match BloomFilterWrapper::decode(filter.as_slice(), 0) {
        Err(e) => {
            return Err(e);
        },
        Ok(found) => found,
    };
    let (smallest_key, largest_key): (Vec<u8>, Vec<u8>) = if b < len {
        match bytes::get_field32(payload, b) {
            None => {
                return Err(IoError::eof());
            },
            Some((smallest, c)) => match bytes::get_field32(payload, c) {
                None => {
                    return Err(IoError::eof());
                },
                Some((largest, _)) => (smallest, largest),
            },
        }
    } else {
        (Vec::new(), Vec::new())
    };
    if record_count > usize::MAX as u64 {
        return Err(IoError::new(ErrorKind::InvalidData, "record count does not fit usize"));
    }
    let meta = SSTableMeta {
        file_id,
        level,
        path,
        record_count: record_count as usize,
        bloom_bitmap,
        smallest_key,
        largest_key,
    };
    let found: Result<SSTableMeta, IoError> = Ok(meta);
    proof {
        if b >= len {
            assert(smallest_key@ =~= Seq::<u8>::empty());
            assert(largest_key@ =~= Seq::<u8>::empty());
        }
        assert(bloom::filter_read(filter@, 0, found->Ok_0.bloom_bitmap, end as int));
        assert(parse_add(payload@) == Ok::<_, IoFailure>(found->Ok_0@));
    }
    found
}

/// Decoding gives back the table that was encoded; without the bytes of its key
/// range, the table with an empty range.
pub proof fn law_add_payload_round_trip(m: MetaView)
    requires
        meta_encodable(m),
        m.hashes >= 1,
        m.words.len() <= u64::MAX,
    ensures
        parse_add(add_payload(m)) == Ok::<_, IoFailure>(m),
        parse_add(meta_head(m)) == Ok::<_, IoFailure>(
            MetaView { smallest_key: Seq::empty(), largest_key: Seq::empty(), ..m },
        ),
        add_filter(add_payload(m)) == Some(bloom::bloom_bytes(m.words, m.hashes)),
{
    lemma_add_fields(m, bytes::field32(m.smallest_key) + bytes::field32(m.largest_key));
    lemma_add_fields(m, seq![]);
    let head = meta_head(m);
    let (x, y) = (bytes::field32(m.smallest_key), bytes::field32(m.largest_key));
    assert(head + (x + y) =~= add_payload(m));
    assert(head + seq![] =~= head);
    bytes::lemma_field32(head, m.smallest_key, y);
    assert(head + x + y =~= add_payload(m));
    bytes::lemma_field32(head + x, m.largest_key, seq![]);
    assert(head + x + y + seq![] =~= add_payload(m));
}

proof fn lemma_add_fields(m: MetaView, tail: Seq<u8>)
    requires
        meta_encodable(m),
        m.words.len() <= u64::MAX,
    ensures
        ({
            let s = meta_head(m) + tail;
            let path = vstd::utf8::encode_utf8(m.path);
            let filter = bloom::bloom_bytes(m.words, m.hashes);
            let a = 24 + path.len() as int;
            let b = a + 4 + filter.len() as int;
            &&& meta_head(m).len() == b
            &&& s.len() >= 20
            &&& bytes::be32_at(s, 0) == m.level
            &&& bytes::be64_at(s, 4) == m.file_id
            &&& bytes::be64_at(s, 12) == m.record_count as u64
            &&& bytes::field32_at(s, 20) == Some((path, a))
            &&& vstd::utf8::valid_utf8(path)
            &&& vstd::utf8::decode_utf8(path) == m.path
            &&& bytes::field32_at(s, a) == Some((filter, b))
            &&& bloom::parse_bloom(filter, 0) == Ok::<_, IoFailure>(
                (m.words, m.hashes, filter.len() as int),
            )
        }),
{
    broadcast use crate::bytes::group_bytes;

    let s = meta_head(m) + tail;
    let path = vstd::utf8::encode_utf8(m.path);
    let filter = bloom::bloom_bytes(m.words, m.hashes);
    let l = bytes::be32(m.level);
    let f = bytes::be64(m.file_id);
    let c = bytes::be64(m.record_count as u64);
    let p = bytes::field32(path);
    let w = bytes::field32(filter);
    assert(s.subrange(0, 4) =~= l);
    assert(s.subrange(4, 12) =~= f);
    assert(s.subrange(12, 20) =~= c);
    bytes::lemma_field32(l + f + c, path, w + tail);
    assert(l + f + c + p + (w + tail) =~= s);
    bytes::lemma_field32(l + f + c + p, filter, tail);
    assert(l + f + c + p + w + tail =~= s);
    bloom::law_bloom_round_trip(seq![], m.words, m.hashes, seq![]);
    assert(seq![] + filter + seq![] =~= filter);
    vstd::utf8::encode_utf8_valid_utf8(m.path);
    vstd::utf8::encode_utf8_decode_utf8(m.path);
}

/// The payload that removes a table.
pub open spec fn remove_payload(level: u32, file_id: u64) -> Seq<u8> {
    bytes::be32(level) + bytes::be64(file_id)
}

/// The payload that removes a table.
pub fn encode_remove_payload(level: u32, file_id: u64) -> (payload: Vec<u8>)
    ensures
        payload@ == remove_payload(level, file_id),
{
    let mut payload: Vec<u8> = Vec::new();
    bytes::push_be32(&mut payload, level);
    bytes::push_be64(&mut payload, file_id);
    assert(payload@ =~= remove_payload(level, file_id));
    payload
}

/// The level and the number of the table that a payload removes.
pub open spec fn parse_remove(s: Seq<u8>) -> Result<(u32, u64), IoFailure> {
    if s.len() != 12 {
        Err(failure(ErrorKind::InvalidData, "remove payload length must be 12 bytes"@))
    } else {
        Ok((bytes::be32_at(s, 0), bytes::be64_at(s, 4)))
    }
}

/// The level and the number of the table that a payload removes.
pub fn decode_remove_payload(payload: &[u8]) -> (r: Result<(u32, u64), IoError>)
    ensures
        match r {
            Ok(p) => parse_remove(payload@) == Ok::<_, IoFailure>(p),
            Err(e) => parse_remove(payload@) == Err::<(u32, u64), _>(e@),
        },
{
    if payload.len() != 12 {
        return Err(IoError::new(ErrorKind::InvalidData, "remove payload length must be 12 bytes"));
    }
    Ok((bytes::get_be32(payload, 0), bytes::get_be64(payload, 4)))
}

/// The payload that marks a checkpoint.
pub open spec fn checkpoint_payload(checkpoint_lsn: u64, active_wal_segment: u64) -> Seq<u8> {
    bytes::be64(checkpoint_lsn) + bytes::be64(active_wal_segment)
}

/// The payload that marks a checkpoint.
pub fn encode_checkpoint_payload(checkpoint_lsn: u64, active_wal_segment: u64) -> (payload: Vec<u8>)
    ensures
        payload@ == checkpoint_payload(checkpoint_lsn, active_wal_segment),
{
    let mut payload: Vec<u8> = Vec::new();
    bytes::push_be64(&mut payload, checkpoint_lsn);
    bytes::push_be64(&mut payload, active_wal_segment);
    assert(payload@ =~= checkpoint_payload(checkpoint_lsn, active_wal_segment));
    payload
}

/// The sequence number and the log segment that a checkpoint payload has.
pub open spec fn parse_checkpoint(s: Seq<u8>) -> Result<(u64, u64), IoFailure> {
    if s.len() != 16 {
        Err(failure(ErrorKind::InvalidData, "checkpoint payload length must be 16 bytes"@))
    } else {
        Ok((bytes::be64_at(s, 0), bytes::be64_at(s, 8)))
    }
}

/// The sequence number and the log segment that a checkpoint payload has.
pub fn decode_checkpoint_payload(payload: &[u8]) -> (r: Result<(u64, u64), IoError>)
    ensures
        match r {
            Ok(p) => parse_checkpoint(payload@) == Ok::<_, IoFailure>(p),
            Err(e) => parse_checkpoint(payload@) == Err::<(u64, u64), _>(e@),
        },
{
    if payload.len() != 16 {
        return Err(
            IoError::new(ErrorKind::InvalidData, "checkpoint payload length must be 16 bytes"),
        );
    }
    Ok((bytes::get_be64(payload, 0), bytes::get_be64(payload, 8)))
}

/// Where the fields of an entry of the manifest's log are: its kind in one byte, the
/// payload with its length before it, and the checksum of all before it; numbers are
/// big-endian.
pub proof fn law_entry_layout(kind: u8, payload: Seq<u8>)
    requires
        payload.len() <= u32::MAX,
    ensures
        ({
            let (b, n) = (entry_bytes(kind, payload), payload.len() as int);
            &&& b.len() == 9 + n
            &&& b[0] == kind
            &&& bytes::be32_at(b, 1) == n
            &&& b.subrange(5, 5 + n) == payload
            &&& bytes::be32_at(b, 5 + n) == checksum::crc32(b.take(5 + n))
        }),
{
    broadcast use bytes::group_bytes;

    let (b, n) = (entry_bytes(kind, payload), payload.len() as int);
    assert(b.subrange(1, 5) =~= bytes::be32(n as u32));
    assert(b.subrange(5, 5 + n) =~= payload);
    assert(b.take(5 + n) =~= entry_head(kind, payload));
    assert(b.subrange(5 + n, 9 + n) =~= bytes::be32(checksum::crc32(entry_head(kind, payload))));
}

/// What is read as an entry is the bytes of that entry, and so with the payloads of a
/// removal and of a checkpoint.
pub proof fn law_entry_read_was_written(s: Seq<u8>, at: int)
    requires
        0 <= at,
    ensures
        parse_entry(s, at) matches Ok((kind, payload, end)) ==> end <= s.len() && s.subrange(at, end)
            == entry_bytes(kind, payload),
        parse_remove(s) matches Ok((level, file_id)) ==> s == remove_payload(level, file_id),
        parse_checkpoint(s) matches Ok((lsn, segment)) ==> s == checkpoint_payload(lsn, segment),
        s.len() != 12 ==> parse_remove(s) is Err,
        s.len() != 16 ==> parse_checkpoint(s) is Err,
{
    broadcast use bytes::group_bytes;

    if let Ok((kind, payload, end)) = parse_entry(s, at) {
        let tail = end - 4;
        bytes::lemma_number_at(s, at + 1);
        bytes::lemma_number_at(s, tail);
        assert(s.subrange(at, tail) =~= entry_head(kind, payload));
        assert(s.subrange(at, end) =~= s.subrange(at, tail) + s.subrange(tail, end));
    }
    bytes::lemma_number_at(s, 0);
    bytes::lemma_number_at(s, 4);
    bytes::lemma_number_at(s, 8);
    if s.len() == 12 {
        assert(s =~= s.subrange(0, 4) + s.subrange(4, 12));
    }
    if s.len() == 16 {
        assert(s =~= s.subrange(0, 8) + s.subrange(8, 16));
    }
}

/// The payload of a removal is read as what it was made of: the level and the number of
/// the table, in twelve bytes. That of a checkpoint is the number of the checkpoint and
/// the active log segment, in sixteen.
pub proof fn law_short_payloads_read_back(level: u32, file_id: u64, lsn: u64, segment: u64)
    ensures
        parse_remove(remove_payload(level, file_id)) == Ok::<_, IoFailure>((level, file_id)),
        parse_checkpoint(checkpoint_payload(lsn, segment)) == Ok::<_, IoFailure>((lsn, segment)),
        bytes::be32_at(remove_payload(level, file_id), 0) == level,
        bytes::be64_at(remove_payload(level, file_id), 4) == file_id,
        bytes::be64_at(checkpoint_payload(lsn, segment), 0) == lsn,
        bytes::be64_at(checkpoint_payload(lsn, segment), 8) == segment,
{
    broadcast use bytes::group_bytes;

    let (r, c) = (remove_payload(level, file_id), checkpoint_payload(lsn, segment));
    assert(r.subrange(0, 4) =~= bytes::be32(level));
    assert(r.subrange(4, 12) =~= bytes::be64(file_id));
    assert(c.subrange(0, 8) =~= bytes::be64(lsn));
    assert(c.subrange(8, 16) =~= bytes::be64(segment));
}

/// Where the fields of a table's entry are: its level, its number and the number of its
/// records, then its path, its filter, its smallest and its largest key, each with its
/// length before it.
pub proof fn law_add_payload_layout(m: MetaView)
    requires
        meta_encodable(m),
    ensures
        ({
            let b = add_payload(m);
            let p = vstd::utf8::encode_utf8(m.path);
            let f = bloom::bloom_bytes(m.words, m.hashes);
            let a: int = 24 + p.len() as int;
            let c = a + 4 + f.len();
            let d = c + 4 + m.smallest_key.len();
            &&& bytes::be32_at(b, 0) == m.level
            &&& bytes::be64_at(b, 4) == m.file_id
            &&& bytes::be64_at(b, 12) == m.record_count
            &&& bytes::field32_at(b, 20) == Some((p, a))
            &&& bytes::field32_at(b, a) == Some((f, c))
            &&& bytes::field32_at(b, c) == Some((m.smallest_key, d))
            &&& bytes::field32_at(b, d) == Some((m.largest_key, b.len() as int))
        }),
{
    broadcast use bytes::group_bytes;

    let b = add_payload(m);
    let p = vstd::utf8::encode_utf8(m.path);
    let f = bloom::bloom_bytes(m.words, m.hashes);
    let start = bytes::be32(m.level) + bytes::be64(m.file_id) + bytes::be64(m.record_count as u64);
    assert(b.subrange(0, 4) =~= bytes::be32(m.level));
    assert(b.subrange(4, 12) =~= bytes::be64(m.file_id));
    assert(b.subrange(12, 20) =~= bytes::be64(m.record_count as u64));
    let (x, y) = (bytes::field32(p), bytes::field32(f));
    let (u, v) = (bytes::field32(m.smallest_key), bytes::field32(m.largest_key));
    bytes::lemma_field32(start, p, y + u + v);
    bytes::lemma_field32(start + x, f, u + v);
    bytes::lemma_field32(start + x + y, m.smallest_key, v);
    bytes::lemma_field32(start + x + y + u, m.largest_key, seq![]);
    assert(b =~= start + x + (y + u + v));
    assert(b =~= start + x + y + (u + v));
    assert(b =~= start + x + y + u + v);
    assert(b =~= start + x + y + u + v + seq![]);
}

/// An entry that the data ends in the middle of fails as data that ends too early. One whose
/// checksum does not fit, or whose length leads beyond what can be addressed, fails as
/// invalid data. So does a payload of the wrong length.
pub proof fn law_entry_failure_kinds(s: Seq<u8>, at: int)
    requires
        0 <= at,
        s.len() <= usize::MAX,
    ensures
        ({
            let r = parse_entry(s, at);
            let end = at + 9 + bytes::be32_at(s, at + 1) as int;
            let headed = at + 5 <= s.len();
            &&& headed && end <= s.len() ==> (r is Err <==> checksum::crc32(
                s.subrange(at, end - 4),
            ) != bytes::be32_at(s, end - 4))
            &&& headed && end <= s.len() && r is Err ==> r->Err_0.kind == ErrorKind::InvalidData
            &&& headed && s.len() < end <= usize::MAX ==> r is Err && r->Err_0.kind
                == ErrorKind::UnexpectedEof
            &&& headed && end > usize::MAX ==> r is Err && r->Err_0.kind == ErrorKind::InvalidData
            &&& !headed && at + 5 <= usize::MAX ==> r is Err && r->Err_0.kind
                == ErrorKind::UnexpectedEof
            &&& at + 5 > usize::MAX ==> r is Err && r->Err_0.kind == ErrorKind::InvalidData
            &&& parse_remove(s) matches Err(e) ==> e.kind == ErrorKind::InvalidData
            &&& parse_checkpoint(s) matches Err(e) ==> e.kind == ErrorKind::InvalidData
        }),
{
}

/// The failure for a wrong checksum names the checksum of the entry first and the one that
/// was stored last.
pub proof fn law_mismatch_names_both(s: Seq<u8>, at: int)
    requires
        0 <= at,
        at + 9 + bytes::be32_at(s, at + 1) <= s.len() <= usize::MAX,
        parse_entry(s, at) is Err,
    ensures
        ({
            let end = at + 5 + bytes::be32_at(s, at + 1) as int;
            let message = parse_entry(s, at)->Err_0.message;
            let first = "manifest entry checksum mismatch: expected 0x"@ + text::hex_padded_upper(
                checksum::crc32(s.subrange(at, end)) as nat,
                8,
            );
            let last = text::hex_padded_upper(bytes::be32_at(s, end) as nat, 8);
            &&& message.len() >= first.len() + last.len()
            &&& message.take(first.len() as int) == first
            &&& message.skip(message.len() - last.len()) == last
        }),
{
    let end = at + 5 + bytes::be32_at(s, at + 1) as int;
    let message = parse_entry(s, at)->Err_0.message;
    let first = "manifest entry checksum mismatch: expected 0x"@ + text::hex_padded_upper(
        checksum::crc32(s.subrange(at, end)) as nat,
        8,
    );
    let last = text::hex_padded_upper(bytes::be32_at(s, end) as nat, 8);
    assert(message.take(first.len() as int) =~= first);
    assert(message.skip(message.len() - last.len()) =~= last);
}

} // verus!
