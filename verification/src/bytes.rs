//! Fixed-width integers and length-prefixed fields as bytes.
use vstd::prelude::*;
use vstd::slice::*;

verus! {

/// The four bytes of `x`, the most significant first.
#[verifier::opaque]
pub open spec fn be32(x: u32) -> Seq<u8> {
    seq![(x >> 24) as u8, (x >> 16) as u8, (x >> 8) as u8, x as u8]
}

/// The eight bytes of `x`, the most significant first.
#[verifier::opaque]
pub open spec fn be64(x: u64) -> Seq<u8> {
    seq![
        (x >> 56) as u8,
        (x >> 48) as u8,
        (x >> 40) as u8,
        (x >> 32) as u8,
        (x >> 24) as u8,
        (x >> 16) as u8,
        (x >> 8) as u8,
        x as u8,
    ]
}

/// The number whose four bytes, the most significant first, are `s`.
#[verifier::opaque]
pub open spec fn from_be32(s: Seq<u8>) -> u32 {
    ((s[0] as u32) << 24) | ((s[1] as u32) << 16) | ((s[2] as u32) << 8) | (s[3] as u32)
}

/// The number whose eight bytes, the most significant first, are `s`.
#[verifier::opaque]
pub open spec fn from_be64(s: Seq<u8>) -> u64 {
    ((s[0] as u64) << 56) | ((s[1] as u64) << 48) | ((s[2] as u64) << 40) | ((s[3] as u64) << 32)
        | ((s[4] as u64) << 24) | ((s[5] as u64) << 16) | ((s[6] as u64) << 8) | (s[7] as u64)
}

/// The four bytes of `x`, the least significant first.
pub open spec fn le32(x: u32) -> Seq<u8> {
    be32(x).reverse()
}

/// The eight bytes of `x`, the least significant first.
pub open spec fn le64(x: u64) -> Seq<u8> {
    be64(x).reverse()
}

/// The number whose four bytes, the least significant first, are `s`.
pub open spec fn from_le32(s: Seq<u8>) -> u32 {
    from_be32(s.reverse())
}

/// The number whose eight bytes, the least significant first, are `s`.
pub open spec fn from_le64(s: Seq<u8>) -> u64 {
    from_be64(s.reverse())
}

/// The encodings have a fixed width.
pub broadcast proof fn lemma_width(x: u32)
    ensures
        #[trigger] be32(x).len() == 4,
{
    reveal(be32);
}

/// The encodings have a fixed width.
pub broadcast proof fn lemma_width64(x: u64)
    ensures
        #[trigger] be64(x).len() == 8,
{
    reveal(be64);
}

/// Reading back the bytes of a number gives the number.
pub broadcast proof fn lemma_be32(x: u32)
    ensures
        from_be32(#[trigger] be32(x)) == x,
{
    reveal(be32);
    reveal(from_be32);
    assert((((x >> 24) as u8) as u32) << 24 | (((x >> 16) as u8) as u32) << 16 | (((x >> 8)
        as u8) as u32) << 8 | ((x as u8) as u32) == x) by (bit_vector);
}

/// Four bytes are those of the number that they hold, so no others hold it.
pub proof fn lemma_from_be32(s: Seq<u8>)
    requires
        s.len() == 4,
    ensures
        be32(from_be32(s)) == s,
{
    reveal(be32);
    reveal(from_be32);
    let (a, b, c, d) = (s[0], s[1], s[2], s[3]);
    assert({
        let x = ((a as u32) << 24) | ((b as u32) << 16) | ((c as u32) << 8) | (d as u32);
        (x >> 24) as u8 == a && (x >> 16) as u8 == b && (x >> 8) as u8 == c && x as u8 == d
    }) by (bit_vector);
    assert(be32(from_be32(s)) =~= s);
}

/// Reading back the bytes of a number gives the number.
pub broadcast proof fn lemma_be64(x: u64)
    ensures
        from_be64(#[trigger] be64(x)) == x,
{
    reveal(be64);
    reveal(from_be64);
    assert((((x >> 56) as u8) as u64) << 56 | (((x >> 48) as u8) as u64) << 48 | (((x >> 40)
        as u8) as u64) << 40 | (((x >> 32) as u8) as u64) << 32 | (((x >> 24) as u8) as u64) << 24
        | (((x >> 16) as u8) as u64) << 16 | (((x >> 8) as u8) as u64) << 8 | ((x as u8) as u64)
        == x) by (bit_vector);
}

/// Reading back the bytes of a number gives the number.
pub broadcast proof fn lemma_le32(x: u32)
    ensures
        from_le32(#[trigger] le32(x)) == x,
        le32(x).len() == 4,
{
    broadcast use {lemma_width, lemma_be32};
    assert(be32(x).reverse().reverse() =~= be32(x));
}

/// Reading back the bytes of a number gives the number.
pub broadcast proof fn lemma_le64(x: u64)
    ensures
        from_le64(#[trigger] le64(x)) == x,
        le64(x).len() == 8,
{
    broadcast use {lemma_width64, lemma_be64};
    assert(be64(x).reverse().reverse() =~= be64(x));
}

/// What every user of the encodings needs of them.
pub broadcast group group_bytes {
    lemma_width,
    lemma_width64,
    lemma_be32,
    lemma_be64,
    lemma_le32,
    lemma_le64,
}

/// There are `n` bytes from `at` on.
pub open spec fn holds(s: Seq<u8>, at: int, n: int) -> bool {
    0 <= at && 0 <= n && at + n <= s.len()
}

/// The big-endian number in the four bytes from `at` on.
pub open spec fn be32_at(s: Seq<u8>, at: int) -> u32 {
    from_be32(s.subrange(at, at + 4))
}

/// The big-endian number in the eight bytes from `at` on.
pub open spec fn be64_at(s: Seq<u8>, at: int) -> u64 {
    from_be64(s.subrange(at, at + 8))
}

/// The little-endian number in the four bytes from `at` on.
pub open spec fn le32_at(s: Seq<u8>, at: int) -> u32 {
    from_le32(s.subrange(at, at + 4))
}

/// The little-endian number in the eight bytes from `at` on.
pub open spec fn le64_at(s: Seq<u8>, at: int) -> u64 {
    from_le64(s.subrange(at, at + 8))
}

/// A part of a concatenation, found again at its place.
pub proof fn lemma_part(pre: Seq<u8>, mid: Seq<u8>, post: Seq<u8>)
    ensures
        (pre + mid + post).subrange(pre.len() as int, (pre.len() + mid.len()) as int) == mid,
        (pre + mid + post).len() == pre.len() + mid.len() + post.len(),
{
    assert((pre + mid + post).subrange(pre.len() as int, (pre.len() + mid.len()) as int) =~= mid);
}

/// The bytes of a field: its length in eight bytes, then the field.
pub open spec fn field64(body: Seq<u8>) -> Seq<u8> {
    be64(body.len() as u64) + body
}

/// The field that starts at `at`, and where it ends; `None` where the data ends
/// before.
pub open spec fn field64_at(s: Seq<u8>, at: int) -> Option<(Seq<u8>, int)> {
    let end = at + 8 + be64_at(s, at);
    if holds(s, at, 8) && holds(s, at, end - at) {
        Some((s.subrange(at + 8, end), end))
    } else {
        None
    }
}

/// A field is found again at its place.
pub proof fn lemma_field64(pre: Seq<u8>, body: Seq<u8>, post: Seq<u8>)
    requires
        body.len() <= u64::MAX,
    ensures
        field64_at(pre + field64(body) + post, pre.len() as int) == Some(
            (body, (pre.len() + 8 + body.len()) as int),
        ),
        field64(body).len() == 8 + body.len(),
{
    broadcast use group_bytes;

    let s = pre + field64(body) + post;
    let at = pre.len() as int;
    assert(s.subrange(at, at + 8) =~= be64(body.len() as u64));
    assert(s.subrange(at + 8, at + 8 + body.len()) =~= body);
}

/// The bytes of a field: its length in four bytes, then the field.
pub open spec fn field32(body: Seq<u8>) -> Seq<u8> {
    be32(body.len() as u32) + body
}

/// The field that starts at `at`, and where it ends; `None` where the data ends
/// before.
pub open spec fn field32_at(s: Seq<u8>, at: int) -> Option<(Seq<u8>, int)> {
    let end = at + 4 + be32_at(s, at);
    if holds(s, at, 4) && holds(s, at, end - at) {
        Some((s.subrange(at + 4, end), end))
    } else {
        None
    }
}

/// A field is found again at its place.
pub proof fn lemma_field32(pre: Seq<u8>, body: Seq<u8>, post: Seq<u8>)
    requires
        body.len() <= u32::MAX,
    ensures
        field32_at(pre + field32(body) + post, pre.len() as int) == Some(
            (body, (pre.len() + 4 + body.len()) as int),
        ),
        field32(body).len() == 4 + body.len(),
{
    broadcast use group_bytes;

    let s = pre + field32(body) + post;
    let at = pre.len() as int;
    assert(s.subrange(at, at + 4) =~= be32(body.len() as u32));
    assert(s.subrange(at + 4, at + 4 + body.len()) =~= body);
}

/// The field that starts at `at`, and where it ends.
pub fn get_field32(data: &[u8], at: usize) -> (r: Option<(Vec<u8>, usize)>)
    ensures
        match r {
            Some((body, end)) => field32_at(data@, at as int) == Some((body@, end as int)) && end
                <= data@.len(),
            None => field32_at(data@, at as int) is None,
        },
{
    let len: usize = data.len();
    if at > len || len - at < 4 {
        return None;
    }
    let n: usize = get_be32(data, at) as usize;
    if n > len - at - 4 {
        return None;
    }
    let end: usize = at + 4 + n;
    Some((copy_range(data, at + 4, end), end))
}

/// A number is found again at its place.
pub proof fn lemma_be64_at(pre: Seq<u8>, x: u64, post: Seq<u8>)
    ensures
        be64_at(pre + be64(x) + post, pre.len() as int) == x,
{
    broadcast use group_bytes;

    lemma_part(pre, be64(x), post);
}

/// A number is found again at its place.
pub proof fn lemma_be32_at(pre: Seq<u8>, x: u32, post: Seq<u8>)
    ensures
        be32_at(pre + be32(x) + post, pre.len() as int) == x,
{
    broadcast use group_bytes;

    lemma_part(pre, be32(x), post);
}

/// The field that starts at `at`, and where it ends.
pub fn get_field64(data: &[u8], at: usize) -> (r: Option<(Vec<u8>, usize)>)
    ensures
        match r {
            Some((body, end)) => field64_at(data@, at as int) == Some((body@, end as int)) && end
                <= data@.len(),
            None => field64_at(data@, at as int) is None,
        },
{
    let len: usize = data.len();
    if at > len || len - at < 8 {
        return None;
    }
    let n: u64 = get_be64(data, at);
    if n > (len - at - 8) as u64 {
        return None;
    }
    let end: usize = at + 8 + n as usize;
    Some((copy_range(data, at + 8, end), end))
}

/// Four pieces, however they are grouped.
pub proof fn lemma_regroup(a: Seq<u8>, b: Seq<u8>, c: Seq<u8>, d: Seq<u8>)
    ensures
        a + (b + c) + d == a + b + (c + d),
        a + b + c + d == a + b + (c + d),
{
    assert(a + (b + c) + d =~= a + b + (c + d));
    assert(a + b + c + d =~= a + b + (c + d));
}

/// Appends `x`, the most significant byte first.
pub fn push_be32(buf: &mut Vec<u8>, x: u32)
    ensures
        final(buf)@ == old(buf)@ + be32(x),
{
    reveal(be32);
    buf.push((x >> 24) as u8);
    buf.push((x >> 16) as u8);
    buf.push((x >> 8) as u8);
    buf.push(x as u8);
    assert(buf@ =~= old(buf)@ + be32(x));
}

/// Appends `x`, the most significant byte first.
pub fn push_be64(buf: &mut Vec<u8>, x: u64)
    ensures
        final(buf)@ == old(buf)@ + be64(x),
{
    reveal(be64);
    buf.push((x >> 56) as u8);
    buf.push((x >> 48) as u8);
    buf.push((x >> 40) as u8);
    buf.push((x >> 32) as u8);
    buf.push((x >> 24) as u8);
    buf.push((x >> 16) as u8);
    buf.push((x >> 8) as u8);
    buf.push(x as u8);
    assert(buf@ =~= old(buf)@ + be64(x));
}

/// Appends `x`, the least significant byte first.
pub fn push_le32(buf: &mut Vec<u8>, x: u32)
    ensures
        final(buf)@ == old(buf)@ + le32(x),
{
    reveal(be32);
    buf.push(x as u8);
    buf.push((x >> 8) as u8);
    buf.push((x >> 16) as u8);
    buf.push((x >> 24) as u8);
    assert(buf@ =~= old(buf)@ + le32(x));
}

/// Appends `x`, the least significant byte first.
pub fn push_le64(buf: &mut Vec<u8>, x: u64)
    ensures
        final(buf)@ == old(buf)@ + le64(x),
{
    reveal(be64);
    buf.push(x as u8);
    buf.push((x >> 8) as u8);
    buf.push((x >> 16) as u8);
    buf.push((x >> 24) as u8);
    buf.push((x >> 32) as u8);
    buf.push((x >> 40) as u8);
    buf.push((x >> 48) as u8);
    buf.push((x >> 56) as u8);
    assert(buf@ =~= old(buf)@ + le64(x));
}

/// Appends all of `other`.
pub fn push_all(buf: &mut Vec<u8>, other: &[u8])
    ensures
        final(buf)@ == old(buf)@ + other@,
{
    buf.extend_from_slice(other);
    assert(buf@ =~= old(buf)@ + other@);
}

/// The big-endian number in the four bytes from `at` on.
pub fn get_be32(data: &[u8], at: usize) -> (x: u32)
    requires
        holds(data@, at as int, 4),
    ensures
        x == be32_at(data@, at as int),
{
    reveal(from_be32);
    ((data[at] as u32) << 24) | ((data[at + 1] as u32) << 16) | ((data[at + 2] as u32) << 8) | (
    data[at + 3] as u32)
}

/// The big-endian number in the eight bytes from `at` on.
pub fn get_be64(data: &[u8], at: usize) -> (x: u64)
    requires
        holds(data@, at as int, 8),
    ensures
        x == be64_at(data@, at as int),
{
    reveal(from_be64);
    ((data[at] as u64) << 56) | ((data[at + 1] as u64) << 48) | ((data[at + 2] as u64) << 40) | ((
    data[at + 3] as u64) << 32) | ((data[at + 4] as u64) << 24) | ((data[at + 5] as u64) << 16) | ((
    data[at + 6] as u64) << 8) | (data[at + 7] as u64)
}

/// The little-endian number in the four bytes from `at` on.
pub fn get_le32(data: &[u8], at: usize) -> (x: u32)
    requires
        holds(data@, at as int, 4),
    ensures
        x == le32_at(data@, at as int),
{
    reveal(from_be32);
    assert(at + 4 <= data.len());
    ((data[at + 3] as u32) << 24) | ((data[at + 2] as u32) << 16) | ((data[at + 1] as u32) << 8) | (
    data[at] as u32)
}

/// The little-endian number in the eight bytes from `at` on.
pub fn get_le64(data: &[u8], at: usize) -> (x: u64)
    requires
        holds(data@, at as int, 8),
    ensures
        x == le64_at(data@, at as int),
{
    reveal(from_be64);
    assert(at + 8 <= data.len());
    ((data[at + 7] as u64) << 56) | ((data[at + 6] as u64) << 48) | ((data[at + 5] as u64) << 40)
        | ((data[at + 4] as u64) << 32) | ((data[at + 3] as u64) << 24) | ((data[at + 2] as u64)
        << 16) | ((data[at + 1] as u64) << 8) | (data[at] as u64)
}

/// A copy of the bytes from `from` up to `to`.
pub fn copy_range(data: &[u8], from: usize, to: usize) -> (out: Vec<u8>)
    requires
        from <= to <= data@.len(),
    ensures
        out@ == data@.subrange(from as int, to as int),
{
    slice_to_vec(slice_subrange(data, from, to))
}

/// A copy of all of `data`.
pub fn copy_bytes(data: &[u8]) -> (out: Vec<u8>)
    ensures
        out@ == data@,
{
    slice_to_vec(data)
}

/// Of the four bytes of a number each counts 256 times as much as the next one; the
/// little-endian bytes are the same in reverse.
pub proof fn law_bytes_by_weight(s: Seq<u8>, x: u32)
    requires
        s.len() == 4,
    ensures
        from_be32(s) == 256 * (256 * (256 * s[0] + s[1]) + s[2]) + s[3],
        from_le32(s) == 256 * (256 * (256 * s[3] + s[2]) + s[1]) + s[0],
        be32(x) == s <==> x == from_be32(s),
        le32(x) == s <==> x == from_le32(s),
{
    lemma_weight32(s);
    lemma_weight32(s.reverse());
    lemma_from_be32(s);
    lemma_from_be32(s.reverse());
    lemma_be32(x);
    lemma_le32(x);
    assert(s.reverse().reverse() =~= s);
}

proof fn lemma_weight32(s: Seq<u8>)
    requires
        s.len() == 4,
    ensures
        from_be32(s) == 256 * (256 * (256 * s[0] + s[1]) + s[2]) + s[3],
{
    reveal(from_be32);
    let (a, b, c, d) = (s[0], s[1], s[2], s[3]);
    assert(((a as u32) << 24) | ((b as u32) << 16) | ((c as u32) << 8) | (d as u32) == 256 * (256
        * (256 * (a as u32) + (b as u32)) + (c as u32)) + (d as u32)) by (bit_vector);
}

/// Of the eight bytes of a number the first four count for the high half, the last four
/// for the low half; the little-endian bytes are the same in reverse.
pub proof fn law_bytes_by_weight64(s: Seq<u8>)
    requires
        s.len() == 8,
    ensures
        from_be64(s) == 0x1_0000_0000 * from_be32(s.take(4)) + from_be32(s.skip(4)),
        from_le64(s) == 0x1_0000_0000 * from_le32(s.skip(4)) + from_le32(s.take(4)),
{
    lemma_weight64(s);
    lemma_weight64(s.reverse());
    assert(s.reverse().take(4) =~= s.skip(4).reverse());
    assert(s.reverse().skip(4) =~= s.take(4).reverse());
}

proof fn lemma_weight64(s: Seq<u8>)
    requires
        s.len() == 8,
    ensures
        from_be64(s) == 0x1_0000_0000 * from_be32(s.take(4)) + from_be32(s.skip(4)),
{
    reveal(from_be32);
    reveal(from_be64);
    let (a, b, c, d) = (s[0], s[1], s[2], s[3]);
    let (e, f, g, h) = (s[4], s[5], s[6], s[7]);
    assert(((a as u64) << 56) | ((b as u64) << 48) | ((c as u64) << 40) | ((d as u64) << 32) | ((
    e as u64) << 24) | ((f as u64) << 16) | ((g as u64) << 8) | (h as u64) == 0x1_0000_0000 * ((((
    a as u32) << 24) | ((b as u32) << 16) | ((c as u32) << 8) | (d as u32)) as u64) + ((((e
        as u32) << 24) | ((f as u32) << 16) | ((g as u32) << 8) | (h as u32)) as u64))
        by (bit_vector);
}

/// Eight bytes are those of the number that they hold, so no others hold it.
pub proof fn lemma_from_be64(s: Seq<u8>)
    requires
        s.len() == 8,
    ensures
        be64(from_be64(s)) == s,
{
    reveal(be64);
    reveal(from_be64);
    let (a, b, c, d) = (s[0], s[1], s[2], s[3]);
    let (e, f, g, h) = (s[4], s[5], s[6], s[7]);
    assert({
        let x = ((a as u64) << 56) | ((b as u64) << 48) | ((c as u64) << 40) | ((d as u64) << 32) | ((
        e as u64) << 24) | ((f as u64) << 16) | ((g as u64) << 8) | (h as u64);
        (x >> 56) as u8 == a && (x >> 48) as u8 == b && (x >> 40) as u8 == c && (x >> 32) as u8 == d
            && (x >> 24) as u8 == e && (x >> 16) as u8 == f && (x >> 8) as u8 == g && x as u8 == h
    }) by (bit_vector);
    assert(be64(from_be64(s)) =~= s);
}

/// The bytes of a number that is read at a place are those at the place.
pub proof fn lemma_number_at(s: Seq<u8>, at: int)
    ensures
        holds(s, at, 4) ==> be32(be32_at(s, at)) == s.subrange(at, at + 4),
        holds(s, at, 4) ==> le32(le32_at(s, at)) == s.subrange(at, at + 4),
        holds(s, at, 8) ==> be64(be64_at(s, at)) == s.subrange(at, at + 8),
        holds(s, at, 8) ==> le64(le64_at(s, at)) == s.subrange(at, at + 8),
{
    if holds(s, at, 4) {
        let t = s.subrange(at, at + 4);
        lemma_from_be32(t);
        lemma_from_be32(t.reverse());
        assert(t.reverse().reverse() =~= t);
    }
    if holds(s, at, 8) {
        let t = s.subrange(at, at + 8);
        lemma_from_be64(t);
        lemma_from_be64(t.reverse());
        assert(t.reverse().reverse() =~= t);
    }
}

/// The bytes of a field that is read at a place are those at the place.
pub proof fn lemma_field_at(s: Seq<u8>, at: int)
    ensures
        field64_at(s, at) matches Some((body, end)) ==> s.subrange(at, end) == field64(body) && end
            == at + 8 + body.len() && 0 <= at && end <= s.len(),
        field32_at(s, at) matches Some((body, end)) ==> s.subrange(at, end) == field32(body) && end
            == at + 4 + body.len() && 0 <= at && end <= s.len(),
{
    broadcast use group_bytes;

    lemma_number_at(s, at);
    if let Some((body, end)) = field64_at(s, at) {
        assert(s.subrange(at, end) =~= s.subrange(at, at + 8) + body);
    }
    if let Some((body, end)) = field32_at(s, at) {
        assert(s.subrange(at, end) =~= s.subrange(at, at + 4) + body);
    }
}

} // verus!
