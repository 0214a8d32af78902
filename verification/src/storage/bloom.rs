//! Bloom filters over keys.
use vstd::prelude::*;
use fastbloom::BloomFilter;
use crate::bytes;
use crate::error::{IoError, IoFailure};

verus! {

/// The seed of the hasher of every filter: a filter that is read back has to hash
/// as the one that was written.
pub const BLOOM_SEED: u128 = 0;

/// A Bloom filter of `fastbloom`, whose hasher is made from `BLOOM_SEED`.
#[verifier::external_body]
pub struct BloomFilterWrapper {
    filter: BloomFilter,
}

/// The words of the filter's bit vector, as `BloomFilter::as_slice` gives them.
pub uninterp spec fn filter_words(f: BloomFilterWrapper) -> Seq<u64>;

/// The number of hashes per key, as `BloomFilter::num_hashes` gives it.
pub uninterp spec fn filter_hashes(f: BloomFilterWrapper) -> u32;

/// The keys that `BloomFilter::contains` reports.
pub uninterp spec fn filter_members(f: BloomFilterWrapper) -> Set<Seq<u8>>;

/// The number of hashes that `BuilderWithBits::expected_items` settles on for a
/// number of bits and a number of items.
pub uninterp spec fn optimal_hashes(num_bits: nat, items: nat) -> u32;

/// A number of hashes, where none counts as one.
pub open spec fn at_least_one(hashes: u32) -> u32 {
    if hashes == 0 {
        1
    } else {
        hashes
    }
}

/// A number of items, where none counts as one.
pub open spec fn some_items(items: nat) -> nat {
    if items == 0 {
        1
    } else {
        items
    }
}

/// No keys.
pub open spec fn no_keys() -> Set<Seq<u8>> {
    Set::empty()
}

/// `n` words without a bit set.
pub open spec fn zeros(n: nat) -> Seq<u64> {
    Seq::new(n, |i: int| 0)
}

/// What a filter holds.
#[verifier::ext_equal]
pub struct BloomView {
    /// The words of the bit vector.
    pub words: Seq<u64>,
    /// The number of hashes per key.
    pub hashes: u32,
    /// The keys that are reported as possibly there.
    pub members: Set<Seq<u8>>,
}

impl View for BloomFilterWrapper {
    type V = BloomView;

    open spec fn view(&self) -> BloomView {
        BloomView {
            words: filter_words(*self),
            hashes: filter_hashes(*self),
            members: filter_members(*self),
        }
    }
}

/// `BloomFilter::with_num_bits(num_bits).seed(..).expected_items(items)`: a filter
/// without a bit set, with the bits rounded up to whole words and the number of
/// hashes chosen for the bits and the items (none counts as one). `with_num_bits`
/// panics on 0 and computes `num_bits + 64 - 1`.
#[verifier::external_body]
fn filter_with_bits(num_bits: usize, items: usize) -> (f: BloomFilterWrapper)
    requires
        0 < num_bits <= usize::MAX - 64,
    ensures
        f@.words == zeros(((num_bits + 63) / 64) as nat),
        f@.hashes == optimal_hashes(64 * f@.words.len(), some_items(items as nat)),
        f@.members == no_keys(),
{
    BloomFilterWrapper {
        filter: BloomFilter::with_num_bits(num_bits).seed(&BLOOM_SEED).expected_items(items),
    }
}

/// `BloomFilter::from_vec(words).seed(..).hashes(hashes)`: a filter with these words
/// and this number of hashes (none counts as one). What it reports is settled by
/// its words and its number of hashes, the hasher being the same in all filters;
/// with no bit set it reports nothing. `from_vec` panics without words, and the
/// number of bits has to fit in a `usize`.
#[verifier::external_body]
fn filter_from_words(words: Vec<u64>, hashes: u32) -> (f: BloomFilterWrapper)
    requires
        0 < words@.len() <= usize::MAX / 64,
    ensures
        f@.words == words@,
        f@.hashes == at_least_one(hashes),
        forall|g: BloomFilterWrapper|
            #![trigger filter_members(g)]
            filter_words(g) == filter_words(f) && filter_hashes(g) == filter_hashes(f)
                ==> filter_members(g) == filter_members(f),
        (forall|i: int| 0 <= i < words@.len() ==> words@[i] == 0) ==> f@.members == no_keys(),
{
    BloomFilterWrapper { filter: BloomFilter::from_vec(words).seed(&BLOOM_SEED).hashes(hashes) }
}

/// Every bit that is set in `a` is set in `b`.
pub open spec fn bits_within(a: Seq<u64>, b: Seq<u64>) -> bool {
    &&& a.len() == b.len()
    &&& forall|i: int| 0 <= i < a.len() ==> (#[trigger] a[i]) & b[i] == a[i]
}

/// `BloomFilter::insert`: from now on `key` is reported, and so is all that was, since
/// bits are set and none is cleared. Which bits are set, and so which other keys come
/// to be reported, is left unsaid: the hasher is fed machine words.
#[verifier::external_body]
fn filter_insert(f: &mut BloomFilterWrapper, key: &[u8])
    ensures
        final(f)@.members.contains(key@),
        old(f)@.members.subset_of(final(f)@.members),
        bits_within(old(f)@.words, final(f)@.words),
        final(f)@.hashes == old(f)@.hashes,
{
    f.filter.insert(key);
}

/// `BloomFilter::contains`.
#[verifier::external_body]
fn filter_contains(f: &BloomFilterWrapper, key: &[u8]) -> (r: bool)
    ensures
        r == f@.members.contains(key@),
{
    f.filter.contains(key)
}

/// `BloomFilter::clear`: no bit stays set, so that nothing is reported.
#[verifier::external_body]
fn filter_clear(f: &mut BloomFilterWrapper)
    ensures
        final(f)@.words == zeros(old(f)@.words.len()),
        final(f)@.hashes == old(f)@.hashes,
        final(f)@.members == no_keys(),
{
    f.filter.clear();
}

/// `BloomFilter::as_slice`, copied. A filter has at least one word, and as many
/// bits as a `usize` can count. What is reported by filters that have these words
/// and as many hashes is the same, the hasher being the same in all filters.
#[verifier::external_body]
fn filter_bitmap(f: &BloomFilterWrapper) -> (words: Vec<u64>)
    ensures
        words@ == f@.words,
        0 < words@.len() <= usize::MAX / 64,
        forall|g: BloomFilterWrapper|
            #![trigger filter_members(g)]
            filter_words(g) == words@ && filter_hashes(g) == filter_hashes(*f) ==> filter_members(g)
                == filter_members(*f),
{
    f.filter.as_slice().to_vec()
}

/// `BloomFilter::num_hashes`, which is at least one.
#[verifier::external_body]
fn filter_num_hashes(f: &BloomFilterWrapper) -> (hashes: u32)
    ensures
        hashes == f@.hashes,
        hashes >= 1,
{
    f.filter.num_hashes()
}

/// `BloomFilter::num_bits`: 64 for each word.
#[verifier::external_body]
fn filter_num_bits(f: &BloomFilterWrapper) -> (bits: usize)
    ensures
        bits == 64 * f@.words.len(),
{
    f.filter.num_bits()
}

/// `BloomFilter::clone`: the same words, hashes and hasher.
#[verifier::external_body]
fn filter_clone(f: &BloomFilterWrapper) -> (g: BloomFilterWrapper)
    ensures
        g@ == f@,
{
    BloomFilterWrapper { filter: f.filter.clone() }
}

/// The bytes of words, one after the other.
pub open spec fn words_bytes(words: Seq<u64>) -> Seq<u8>
    decreases words.len(),
{
    if words.len() == 0 {
        seq![]
    } else {
        words_bytes(words.drop_last()) + bytes::be64(words.last())
    }
}

/// The bytes of a filter: the number of bits, of hashes and of words, then the
/// words.
pub open spec fn bloom_bytes(words: Seq<u64>, hashes: u32) -> Seq<u8> {
    bytes::be64((64 * words.len()) as u64) + bytes::be32(hashes) + bytes::be64(words.len() as u64)
        + words_bytes(words)
}

/// The words and the number of hashes that are written from `at` on, and where
/// they end.
pub open spec fn parse_bloom(s: Seq<u8>, at: int) -> Result<(Seq<u64>, u32, int), IoFailure> {
    let n = bytes::be64_at(s, at + 12) as int;
    if bytes::holds(s, at, 20) && bytes::holds(s, at, 20 + 8 * n) {
        Ok(
            (
                Seq::new(n as nat, |i: int| bytes::be64_at(s, at + 20 + 8 * i)),
                bytes::be32_at(s, at + 8),
                at + 20 + 8 * n,
            ),
        )
    } else {
        Err(crate::error::eof_failure())
    }
}

/// What is written from `at` on is too short for a filter, or a filter can be made
/// of it: it has words, and no more bits than a `usize` can count.
pub open spec fn bloom_usable(s: Seq<u8>, at: int) -> bool {
    parse_bloom(s, at) matches Ok(p) ==> 0 < p.0.len() <= usize::MAX / 64
}

/// What holds of every filter: it has words and hashes, and what it reports is
/// settled by them.
pub open spec fn sound(f: BloomFilterWrapper) -> bool {
    &&& 0 < f@.words.len() <= usize::MAX / 64
    &&& f@.hashes >= 1
    &&& forall|g: BloomFilterWrapper|
        #![trigger filter_members(g)]
        filter_words(g) == filter_words(f) && filter_hashes(g) == filter_hashes(f)
            ==> filter_members(g) == filter_members(f)
}

/// `f` is the filter that is written from `at` on, up to `end`: it has the words
/// and the number of hashes, and it reports what every filter with these reports.
pub open spec fn filter_read(s: Seq<u8>, at: int, f: BloomFilterWrapper, end: int) -> bool {
    &&& parse_bloom(s, at) matches Ok((words, hashes, stop))
    &&& f@.words == words
    &&& f@.hashes == at_least_one(hashes)
    &&& end == stop
    &&& forall|g: BloomFilterWrapper|
        #![trigger filter_members(g)]
        filter_words(g) == filter_words(f) && filter_hashes(g) == filter_hashes(f)
            ==> filter_members(g) == filter_members(f)
}

/// The number of bytes of words.
pub proof fn lemma_words_size(words: Seq<u64>)
    ensures
        words_bytes(words).len() == 8 * words.len(),
    decreases words.len(),
{
    broadcast use crate::bytes::group_bytes;

    if words.len() > 0 {
        lemma_words_size(words.drop_last());
    }
}

/// A word is found again at its place.
proof fn lemma_word_at(words: Seq<u64>, i: int)
    requires
        0 <= i < words.len(),
    ensures
        words_bytes(words).subrange(8 * i, 8 * i + 8) == bytes::be64(words[i]),
    decreases words.len(),
{
    broadcast use crate::bytes::group_bytes;

    lemma_words_size(words);
    lemma_words_size(words.drop_last());
    if i < words.len() - 1 {
        lemma_word_at(words.drop_last(), i);
        assert(words_bytes(words).subrange(8 * i, 8 * i + 8) =~= words_bytes(
            words.drop_last(),
        ).subrange(8 * i, 8 * i + 8));
    } else {
        assert(words_bytes(words).subrange(8 * i, 8 * i + 8) =~= bytes::be64(words[i]));
    }
}

/// Decoding gives back the words and the number of hashes that were encoded,
/// wherever their bytes stand.
pub proof fn law_bloom_round_trip(pre: Seq<u8>, words: Seq<u64>, hashes: u32, post: Seq<u8>)
    requires
        words.len() <= u64::MAX,
    ensures
        parse_bloom(pre + bloom_bytes(words, hashes) + post, pre.len() as int) == Ok::<_, IoFailure>(
            (words, hashes, (pre.len() + bloom_bytes(words, hashes).len()) as int),
        ),
{
    broadcast use crate::bytes::group_bytes;

    let s = pre + bloom_bytes(words, hashes) + post;
    let at = pre.len() as int;
    lemma_words_size(words);
    assert(s.subrange(at + 8, at + 12) =~= bytes::be32(hashes));
    assert(s.subrange(at + 12, at + 20) =~= bytes::be64(words.len() as u64));
    let read = Seq::new(words.len(), |i: int| bytes::be64_at(s, at + 20 + 8 * i));
    assert forall|i: int| 0 <= i < words.len() implies #[trigger] read[i] == words[i] by {
        lemma_word_at(words, i);
        assert(s.subrange(at + 20 + 8 * i, at + 28 + 8 * i) =~= words_bytes(words).subrange(
            8 * i,
            8 * i + 8,
        ));
    }
    assert(read =~= words);
}

/// A filter that is read back from the bytes of another one has its words and its
/// number of hashes and reports the same keys.
pub proof fn law_filter_read_back(
    pre: Seq<u8>,
    f: BloomFilterWrapper,
    post: Seq<u8>,
    g: BloomFilterWrapper,
    end: int,
)
    requires
        f@.words.len() <= u64::MAX,
        f@.hashes >= 1,
        filter_read(
            pre + bloom_bytes(f@.words, f@.hashes) + post,
            pre.len() as int,
            g,
            end,
        ),
    ensures
        g@ == f@,
        end == pre.len() + bloom_bytes(f@.words, f@.hashes).len(),
{
    law_bloom_round_trip(pre, f@.words, f@.hashes, post);
    assert(filter_members(f) == filter_members(g));
}

impl BloomFilterWrapper {
    /// A filter without keys, of at least `num_bits` bits, for `expected_items` keys.
    pub fn new(num_bits: usize, expected_items: usize) -> (f: BloomFilterWrapper)
        requires
            0 < num_bits <= usize::MAX - 64,
        ensures
            f@.words == zeros(((num_bits + 63) / 64) as nat),
            f@.hashes == optimal_hashes(
                64 * f@.words.len(),
                some_items(expected_items as nat),
            ),
            f@.members == no_keys(),
    {
        filter_with_bits(num_bits, expected_items)
    }

    /// A filter without keys, of `num_words` words, with `hashes` hashes per key
    /// (none counts as one).
    pub fn with_shape(num_words: usize, hashes: u32) -> (f: BloomFilterWrapper)
        requires
            0 < num_words <= usize::MAX / 64,
        ensures
            f@.words == zeros(num_words as nat),
            f@.hashes == at_least_one(hashes),
            f@.members == no_keys(),
    {
        let words: Vec<u64> = vec![0u64; num_words];
        assert(words@ =~= zeros(num_words as nat));
        filter_from_words(words, hashes)
    }

    /// From now on `key` is reported, and so is all that was.
    pub fn insert(&mut self, key: &[u8])
        ensures
            final(self)@.members.contains(key@),
            old(self)@.members.subset_of(final(self)@.members),
            bits_within(old(self)@.words, final(self)@.words),
            final(self)@.hashes == old(self)@.hashes,
    {
        filter_insert(self, key)
    }

    /// Whether `key` is reported as possibly there.
    pub fn contains(&self, key: &[u8]) -> (r: bool)
        ensures
            r == self@.members.contains(key@),
    {
        filter_contains(self, key)
    }

    /// The bytes of the filter.
    pub fn encode(&self) -> (out: Vec<u8>)
        ensures
            out@ == bloom_bytes(self@.words, self@.hashes),
            sound(*self),
    {
        let words: Vec<u64> = filter_bitmap(self);
        let mut out: Vec<u8> = Vec::new();
        bytes::push_be64(&mut out, filter_num_bits(self) as u64);
        bytes::push_be32(&mut out, filter_num_hashes(self));
        bytes::push_be64(&mut out, words.len() as u64);
        let ghost head = out@;
        let mut i: usize = 0;
        assert(out@ =~= head + words_bytes(words@.take(0)));
        while i < words.len()
            invariant
                i <= words@.len(),
                out@ == head + words_bytes(words@.take(i as int)),
            decreases words@.len() - i,
        {
            bytes::push_be64(&mut out, words[i]);
            proof {
                assert(words@.take(i + 1).drop_last() =~= words@.take(i as int));
                assert(out@ =~= head + words_bytes(words@.take(i + 1)));
            }
            i = i + 1;
        }
        assert(words@.take(i as int) =~= words@);
        assert(out@ =~= bloom_bytes(self@.words, self@.hashes));
        out
    }

    /// Whether `decode` may be called on what is written from `at` on.
    pub fn decodable(data: &[u8], at: usize) -> (r: bool)
        ensures
            r == bloom_usable(data@, at as int),
    {
        let len: usize = data.len();
        if at > len || len - at < 20 {
            return true;
        }
        let n: u64 = bytes::get_be64(data, at + 12);
        if n > ((len - at - 20) / 8) as u64 {
            return true;
        }
        0 < n && n as usize <= usize::MAX / 64
    }

    /// The filter that is written from `at` on, and where it ends.
    pub fn decode(data: &[u8], at: usize) -> (r: Result<(BloomFilterWrapper, usize), IoError>)
        requires
            bloom_usable(data@, at as int),
        ensures
            match r {
                Ok((f, end)) => filter_read(data@, at as int, f, end as int),
                Err(e) => parse_bloom(data@, at as int) == Err::<(Seq<u64>, u32, int), _>(e@),
            },
    {
        let len: usize = data.len();
        if at > len || len - at < 20 {
            return Err(IoError::eof());
        }
        let hashes: u32 = bytes::get_be32(data, at + 8);
        let n: u64 = bytes::get_be64(data, at + 12);
        if n > ((len - at - 20) / 8) as u64 {
            return Err(IoError::eof());
        }
        let ghost want = Seq::new(n as nat, |i: int| bytes::be64_at(data@, at + 20 + 8 * i));
        let mut words: Vec<u64> = Vec::new();
        let mut i: usize = 0;
        let start: usize = at + 20;
        while i < n as usize
            invariant
                i <= n,
                start == at + 20,
                n <= (len - at - 20) / 8,
                len == data@.len(),
                start <= len,
                words@.len() == i,
                want == Seq::new(n as nat, |i: int| bytes::be64_at(data@, at + 20 + 8 * i)),
                forall|j: int| 0 <= j < i ==> #[trigger] words@[j] == want[j],
            decreases n - i,
        {
            assert(8 * i + 8 <= len - start);
            words.push(bytes::get_be64(data, start + 8 * i));
            i = i + 1;
        }
        assert(words@ =~= want);
        let end: usize = start + 8 * i;
        assert(parse_bloom(data@, at as int) == Ok::<_, IoFailure>((want, hashes, end as int)));
        Ok((filter_from_words(words, hashes), end))
    }

    /// Forgets all keys.
    pub fn clear(&mut self)
        ensures
            final(self)@.words == zeros(old(self)@.words.len()),
            final(self)@.hashes == old(self)@.hashes,
            final(self)@.members == no_keys(),
    {
        filter_clear(self)
    }
}

impl Clone for BloomFilterWrapper {
    fn clone(&self) -> (f: BloomFilterWrapper)
        ensures
            f@ == self@,
    {
        filter_clone(self)
    }
}

/// A filter has one hash at least, and is made for one key at least; otherwise for as many
/// as are asked for.
pub proof fn law_filter_counts(hashes: u32, items: nat)
    ensures
        at_least_one(hashes) >= 1,
        hashes >= 1 ==> at_least_one(hashes) == hashes,
        at_least_one(0) == 1,
        some_items(items) >= 1,
        items >= 1 ==> some_items(items) == items,
{
}

/// Where the fields of a filter are: the number of its bits, that of its hashes, and its
/// words with their number before them; numbers are big-endian.
pub proof fn law_bloom_layout(words: Seq<u64>, hashes: u32, i: int)
    requires
        64 * words.len() <= u64::MAX,
    ensures
        ({
            let b = bloom_bytes(words, hashes);
            &&& b.len() == 20 + 8 * words.len()
            &&& bytes::be64_at(b, 0) == 64 * words.len()
            &&& bytes::be32_at(b, 8) == hashes
            &&& bytes::be64_at(b, 12) == words.len()
            &&& 0 <= i < words.len() ==> bytes::be64_at(b, 20 + 8 * i) == words[i]
        }),
{
    broadcast use bytes::group_bytes;

    let none = Seq::<u8>::empty();
    let b = bloom_bytes(words, hashes);
    law_bloom_round_trip(none, words, hashes, none);
    assert(none + b + none =~= b);
    assert(b.subrange(0, 8) =~= bytes::be64((64 * words.len()) as u64));
    assert(b.subrange(8, 12) =~= bytes::be32(hashes));
    assert(b.subrange(12, 20) =~= bytes::be64(words.len() as u64));
    if 0 <= i < words.len() {
        let read = Seq::new(words.len(), |j: int| bytes::be64_at(b, 20 + 8 * j));
        assert(read == words);
        assert(read[i] == words[i]);
    }
}

/// A filter for no items is made as one for a single item is.
pub proof fn law_no_items_count_as_one(items: nat)
    ensures
        some_items(items) == if items < 1 {
            some_items(1)
        } else {
            items
        },
        some_items(1) == 1,
{
}

} // verus!
