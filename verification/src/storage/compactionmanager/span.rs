//! Spans of keys: from a first to a last one.
use vstd::prelude::*;
use crate::bytes;
use crate::order;
use crate::order::{order_keys, KeyOrder};
use crate::storage::manifest_codec::{MetaView, SSTableMeta};
use crate::storage::writemanager::block::Block;

verus! {

/// A span of keys as mathematical values.
pub open spec fn span_view(s: (Vec<u8>, Vec<u8>)) -> (Seq<u8>, Seq<u8>) {
    (s.0@, s.1@)
}

/// A span of keys that may be missing.
pub open spec fn opt_span(s: Option<(Vec<u8>, Vec<u8>)>) -> Option<(Seq<u8>, Seq<u8>)> {
    match s {
        Some(s) => Some(span_view(s)),
        None => None,
    }
}

/// The spans have keys in common, where each of them has keys: neither begins
/// behind the end of the other.
pub open spec fn spans_overlap(a: (Seq<u8>, Seq<u8>), b: (Seq<u8>, Seq<u8>)) -> bool {
    order::key_le(a.0, b.1) && order::key_le(b.0, a.1)
}

/// The lesser of two keys.
pub open spec fn min_key(a: Seq<u8>, b: Seq<u8>) -> Seq<u8> {
    if order::key_lt(b, a) {
        b
    } else {
        a
    }
}

/// The greater of two keys.
pub open spec fn max_key(a: Seq<u8>, b: Seq<u8>) -> Seq<u8> {
    if order::key_lt(a, b) {
        b
    } else {
        a
    }
}

/// The least span with both in it; a missing one adds nothing.
pub open spec fn widened(
    a: Option<(Seq<u8>, Seq<u8>)>,
    b: Option<(Seq<u8>, Seq<u8>)>,
) -> Option<(Seq<u8>, Seq<u8>)> {
    match (a, b) {
        (_, None) => a,
        (None, Some(_)) => b,
        (Some(x), Some(y)) => Some((min_key(x.0, y.0), max_key(x.1, y.1))),
    }
}

/// The key is in the span.
pub open spec fn in_span(s: (Seq<u8>, Seq<u8>), key: Seq<u8>) -> bool {
    order::key_le(s.0, key) && order::key_le(key, s.1)
}

/// Whether one span overlaps another is the same seen from either.
pub proof fn law_overlap_symmetric(a: (Seq<u8>, Seq<u8>), b: (Seq<u8>, Seq<u8>))
    ensures
        spans_overlap(a, b) == spans_overlap(b, a),
{
}

/// Spans with a key in common overlap.
pub proof fn law_common_key_overlaps(a: (Seq<u8>, Seq<u8>), b: (Seq<u8>, Seq<u8>), key: Seq<u8>)
    requires
        in_span(a, key),
        in_span(b, key),
    ensures
        spans_overlap(a, b),
{
    lemma_le_trans(a.0, key, b.1);
    lemma_le_trans(b.0, key, a.1);
}

/// What is in one of two spans is in the least span with both in it.
pub proof fn law_widened_has_both(a: (Seq<u8>, Seq<u8>), b: (Seq<u8>, Seq<u8>), key: Seq<u8>)
    requires
        in_span(a, key) || in_span(b, key),
    ensures
        widened(Some(a), Some(b)) matches Some(w) && in_span(w, key),
{
    order::lemma_key_total(a.0, b.0);
    order::lemma_key_total(a.1, b.1);
    let w = (min_key(a.0, b.0), max_key(a.1, b.1));
    if in_span(a, key) {
        lemma_le_trans(w.0, a.0, key);
        lemma_le_trans(key, a.1, w.1);
    } else {
        lemma_le_trans(w.0, b.0, key);
        lemma_le_trans(key, b.1, w.1);
    }
}

proof fn lemma_le_trans(a: Seq<u8>, b: Seq<u8>, c: Seq<u8>)
    requires
        order::key_le(a, b),
        order::key_le(b, c),
    ensures
        order::key_le(a, c),
{
    if a != b && b != c {
        order::lemma_key_transitive(a, b, c);
    }
}

/// Whether two spans of keys overlap.
pub fn ranges_overlap(left: &(Vec<u8>, Vec<u8>), right: &(Vec<u8>, Vec<u8>)) -> (r: bool)
    ensures
        r == spans_overlap(span_view(*left), span_view(*right)),
{
    proof {
        order::lemma_key_total(left.0@, right.1@);
        order::lemma_key_total(right.0@, left.1@);
        order::lemma_key_irreflexive(left.0@);
        order::lemma_key_irreflexive(right.0@);
        if order::key_lt(left.0@, right.1@) {
            order::lemma_key_asymmetric(left.0@, right.1@);
        }
        if order::key_lt(right.0@, left.1@) {
            order::lemma_key_asymmetric(right.0@, left.1@);
        }
    }
    !matches!(order_keys(left.0.as_slice(), right.1.as_slice()), KeyOrder::After) && !matches!(
        order_keys(right.0.as_slice(), left.1.as_slice()),
        KeyOrder::After
    )
}

/// The span from the first key of the first block to the last key of the last one.
pub fn range_from_blocks(blocks: &Vec<Block>) -> (r: Option<(Vec<u8>, Vec<u8>)>)
    ensures
        match r {
            Some((first, last)) => blocks@.len() > 0 && first@ == blocks@[0].first_key@ && last@
                == blocks@.last().last_key@,
            None => blocks@.len() == 0,
        },
{
    if blocks.len() == 0 {
        return None;
    }
    Some(
        (
            bytes::copy_bytes(blocks[0].first_key.as_slice()),
            bytes::copy_bytes(blocks[blocks.len() - 1].last_key.as_slice()),
        ),
    )
}

/// The span that the manifest knows of a table, unless one of its ends is empty.
pub open spec fn known_span(m: MetaView) -> Option<(Seq<u8>, Seq<u8>)> {
    if m.smallest_key.len() > 0 && m.largest_key.len() > 0 {
        Some((m.smallest_key, m.largest_key))
    } else {
        None
    }
}

/// The span that the manifest knows of a table. Where it knows none, the table's
/// index has to be read for it.
pub fn compute_meta_range(meta: &SSTableMeta) -> (r: Option<(Vec<u8>, Vec<u8>)>)
    ensures
        opt_span(r) == known_span(meta@),
{
    if meta.smallest_key.len() > 0 && meta.largest_key.len() > 0 {
        Some(
            (
                bytes::copy_bytes(meta.smallest_key.as_slice()),
                bytes::copy_bytes(meta.largest_key.as_slice()),
            ),
        )
    } else {
        None
    }
}

/// The least span with both in it.
pub fn widen(range: Option<(Vec<u8>, Vec<u8>)>, more: Option<(Vec<u8>, Vec<u8>)>) -> (r: Option<
    (Vec<u8>, Vec<u8>),
>)
    ensures
        opt_span(r) == widened(opt_span(range), opt_span(more)),
{
    match (range, more) {
        (range, None) => range,
        (None, more) => more,
        (Some((a, b)), Some((c, d))) => {
            let first = if matches!(order_keys(c.as_slice(), a.as_slice()), KeyOrder::Before) {
                c
            } else {
                a
            };
            let last = if matches!(order_keys(b.as_slice(), d.as_slice()), KeyOrder::Before) {
                d
            } else {
                b
            };
            Some((first, last))
        },
    }
}

/// The least span with all of the given ones in it.
pub open spec fn span_of_all(spans: Seq<Option<(Seq<u8>, Seq<u8>)>>) -> Option<(Seq<u8>, Seq<u8>)>
    decreases spans.len(),
{
    if spans.len() == 0 {
        None
    } else {
        widened(span_of_all(spans.drop_last()), spans.last())
    }
}

/// What is in one of the spans is in the least span with all of them in it.
pub proof fn law_level_span_has_all(
    spans: Seq<Option<(Seq<u8>, Seq<u8>)>>,
    i: int,
    key: Seq<u8>,
)
    requires
        0 <= i < spans.len(),
        spans[i] matches Some(s) && in_span(s, key),
    ensures
        span_of_all(spans) matches Some(w) && in_span(w, key),
    decreases spans.len(),
{
    let front = spans.drop_last();
    if i < front.len() {
        law_level_span_has_all(front, i, key);
        if let Some(last) = spans.last() {
            law_widened_has_both(span_of_all(front)->0, last, key);
        }
    } else {
        assert(spans.last() == spans[i]);
        if let Some(a) = span_of_all(front) {
            law_widened_has_both(a, spans[i]->0, key);
        }
    }
}

/// The least span with two spans in it is in every span that has both in it, and its ends
/// are ends of them.
pub proof fn law_widened_is_least(
    a: (Seq<u8>, Seq<u8>),
    b: (Seq<u8>, Seq<u8>),
    w: (Seq<u8>, Seq<u8>),
)
    requires
        order::key_le(w.0, a.0) && order::key_le(a.1, w.1),
        order::key_le(w.0, b.0) && order::key_le(b.1, w.1),
    ensures
        widened(Some(a), Some(b)) matches Some(s) && order::key_le(w.0, s.0) && order::key_le(
            s.1,
            w.1,
        ) && (s.0 == a.0 || s.0 == b.0) && (s.1 == a.1 || s.1 == b.1),
        widened(Some(a), None) == Some(a),
        widened(None, Some(b)) == Some(b),
{
}

/// Spans overlap where neither begins behind the end of the other.
pub proof fn law_apart_spans_do_not_overlap(a: (Seq<u8>, Seq<u8>), b: (Seq<u8>, Seq<u8>))
    ensures
        order::key_lt(a.1, b.0) || order::key_lt(b.1, a.0) ==> !spans_overlap(a, b),
        !order::key_lt(a.1, b.0) && !order::key_lt(b.1, a.0) ==> spans_overlap(a, b),
{
    order::lemma_key_total(a.0, b.1);
    order::lemma_key_total(b.0, a.1);
    order::lemma_key_irreflexive(a.0);
    order::lemma_key_irreflexive(b.0);
    if order::key_lt(a.1, b.0) {
        order::lemma_key_asymmetric(a.1, b.0);
    }
    if order::key_lt(b.1, a.0) {
        order::lemma_key_asymmetric(b.1, a.0);
    }
}

/// The manifest knows the span of a table where neither of its ends is empty, and then it
/// is the one between them.
pub proof fn law_known_span(m: MetaView)
    ensures
        known_span(m) is None <==> m.smallest_key.len() == 0 || m.largest_key.len() == 0,
        known_span(m) matches Some(s) ==> s.0 == m.smallest_key && s.1 == m.largest_key,
{
}

} // verus!
