//! Ranges of keys.
use vstd::prelude::*;
use crate::bytes;
use crate::order;
use crate::order::{order_keys, KeyOrder};
use crate::storage::memtable;
use crate::storage::memtable::{SlotBound, SlotBoundView};

verus! {

/// An end of a range of keys.
#[derive(Debug)]
pub enum KeyBound {
    Included(Vec<u8>),
    Excluded(Vec<u8>),
    Unbounded,
}

/// What an end of a range says.
pub enum BoundView {
    Included(Seq<u8>),
    Excluded(Seq<u8>),
    Unbounded,
}

impl View for KeyBound {
    type V = BoundView;

    open spec fn view(&self) -> BoundView {
        match *self {
            KeyBound::Included(k) => BoundView::Included(k@),
            KeyBound::Excluded(k) => BoundView::Excluded(k@),
            KeyBound::Unbounded => BoundView::Unbounded,
        }
    }
}

/// A range of keys.
#[derive(Debug)]
pub struct KeyRange {
    pub start: KeyBound,
    pub end: KeyBound,
}

/// What a range says.
pub struct RangeView {
    pub start: BoundView,
    pub end: BoundView,
}

impl View for KeyRange {
    type V = RangeView;

    open spec fn view(&self) -> RangeView {
        RangeView { start: self.start@, end: self.end@ }
    }
}

impl RangeView {
    /// The key is in the range.
    pub open spec fn has(self, key: Seq<u8>) -> bool {
        &&& match self.start {
            BoundView::Included(k) => order::key_le(k, key),
            BoundView::Excluded(k) => order::key_lt(k, key),
            BoundView::Unbounded => true,
        }
        &&& match self.end {
            BoundView::Included(k) => order::key_le(key, k),
            BoundView::Excluded(k) => order::key_lt(key, k),
            BoundView::Unbounded => true,
        }
    }

    /// The keys from `first` to `last` may have one that is in the range: `first` is
    /// not behind its end, nor `last` before its start.
    pub open spec fn touches(self, first: Seq<u8>, last: Seq<u8>) -> bool {
        &&& match self.end {
            BoundView::Included(k) => !order::key_lt(k, first),
            BoundView::Excluded(k) => !order::key_lt(k, first),
            BoundView::Unbounded => true,
        }
        &&& match self.start {
            BoundView::Included(k) => !order::key_lt(last, k),
            BoundView::Excluded(k) => !order::key_lt(last, k),
            BoundView::Unbounded => true,
        }
    }
}

/// A range that has a key touches every range of keys that the key is in.
pub proof fn law_touches(r: RangeView, key: Seq<u8>, first: Seq<u8>, last: Seq<u8>)
    requires
        r.has(key),
        order::key_le(first, key),
        order::key_le(key, last),
    ensures
        r.touches(first, last),
{
    order::lemma_key_irreflexive(key);
    match r.end {
        BoundView::Included(k) => {
            lemma_not_after(first, key, k);
        },
        BoundView::Excluded(k) => {
            lemma_not_after(first, key, k);
        },
        BoundView::Unbounded => {},
    }
    match r.start {
        BoundView::Included(k) => {
            lemma_not_after(k, key, last);
        },
        BoundView::Excluded(k) => {
            lemma_not_after(k, key, last);
        },
        BoundView::Unbounded => {},
    }
}

/// What is not behind `b`, which is not behind `c`, is not behind `c`.
proof fn lemma_not_after(a: Seq<u8>, b: Seq<u8>, c: Seq<u8>)
    requires
        order::key_le(a, b),
        order::key_le(b, c),
    ensures
        !order::key_lt(c, a),
{
    order::lemma_key_irreflexive(a);
    if a != b && b != c {
        order::lemma_key_transitive(a, b, c);
    }
    if a != c {
        order::lemma_key_asymmetric(a, c);
    }
}

/// Whether the keys from `first` to `last` may have one that is in the range.
pub fn ranges_overlap(range: &KeyRange, first: &[u8], last: &[u8]) -> (r: bool)
    ensures
        r == range@.touches(first@, last@),
{
    let past_end = match &range.end {
        KeyBound::Included(k) => matches!(order_keys(first, k.as_slice()), KeyOrder::After),
        KeyBound::Excluded(k) => matches!(order_keys(first, k.as_slice()), KeyOrder::After),
        KeyBound::Unbounded => false,
    };
    let before_start = match &range.start {
        KeyBound::Included(k) => matches!(order_keys(last, k.as_slice()), KeyOrder::Before),
        KeyBound::Excluded(k) => matches!(order_keys(last, k.as_slice()), KeyOrder::Before),
        KeyBound::Unbounded => false,
    };
    !past_end && !before_start
}

/// Whether the key is in the range.
pub fn key_in_range(key: &[u8], range: &KeyRange) -> (r: bool)
    ensures
        r == range@.has(key@),
{
    proof {
        match range@.start {
            BoundView::Included(k) => order::lemma_key_total(k, key@),
            _ => {},
        }
        match range@.end {
            BoundView::Included(k) => order::lemma_key_total(k, key@),
            _ => {},
        }
        order::lemma_key_irreflexive(key@);
    }
    let starts = match &range.start {
        KeyBound::Included(k) => !matches!(order_keys(key, k.as_slice()), KeyOrder::Before),
        KeyBound::Excluded(k) => matches!(order_keys(key, k.as_slice()), KeyOrder::After),
        KeyBound::Unbounded => true,
    };
    let ends = match &range.end {
        KeyBound::Included(k) => !matches!(order_keys(key, k.as_slice()), KeyOrder::After),
        KeyBound::Excluded(k) => matches!(order_keys(key, k.as_slice()), KeyOrder::Before),
        KeyBound::Unbounded => true,
    };
    starts && ends
}

/// The bounds between which a memtable has all versions of the keys in a range.
pub open spec fn slot_bounds(r: RangeView) -> (SlotBoundView, SlotBoundView) {
    (
        match r.start {
            BoundView::Included(k) => SlotBoundView::Included(k, 0),
            BoundView::Excluded(k) => SlotBoundView::Excluded(k, u64::MAX),
            BoundView::Unbounded => SlotBoundView::Unbounded,
        },
        match r.end {
            BoundView::Included(k) => SlotBoundView::Included(k, u64::MAX),
            BoundView::Excluded(k) => SlotBoundView::Excluded(k, 0),
            BoundView::Unbounded => SlotBoundView::Unbounded,
        },
    )
}

/// Between these bounds are the versions of the keys in the range, and no others.
pub proof fn law_slot_bounds(r: RangeView, key: Seq<u8>, lsn: u64)
    ensures
        (memtable::above((key, lsn), slot_bounds(r).0) && memtable::below(
            (key, lsn),
            slot_bounds(r).1,
        )) <==> r.has(key),
{
}

/// The bounds between which a memtable has all versions of the keys in a range.
pub fn collect_range_bounds(range: &KeyRange) -> (b: (SlotBound, SlotBound))
    ensures
        (b.0@, b.1@) == slot_bounds(range@),
{
    let start = match &range.start {
        KeyBound::Included(k) => SlotBound::Included(bytes::copy_bytes(k.as_slice()), 0),
        KeyBound::Excluded(k) => SlotBound::Excluded(bytes::copy_bytes(k.as_slice()), u64::MAX),
        KeyBound::Unbounded => SlotBound::Unbounded,
    };
    let end = match &range.end {
        KeyBound::Included(k) => SlotBound::Included(bytes::copy_bytes(k.as_slice()), u64::MAX),
        KeyBound::Excluded(k) => SlotBound::Excluded(bytes::copy_bytes(k.as_slice()), 0),
        KeyBound::Unbounded => SlotBound::Unbounded,
    };
    (start, end)
}

/// A range leaves out just the keys before its start and those behind its end; an end that
/// is included is no such key, one that is excluded is.
pub proof fn law_range_leaves_out(r: RangeView, key: Seq<u8>)
    ensures
        r.has(key) <==> {
            &&& match r.start {
                BoundView::Included(k) => !order::key_lt(key, k),
                BoundView::Excluded(k) => !order::key_lt(key, k) && key != k,
                BoundView::Unbounded => true,
            }
            &&& match r.end {
                BoundView::Included(k) => !order::key_lt(k, key),
                BoundView::Excluded(k) => !order::key_lt(k, key) && key != k,
                BoundView::Unbounded => true,
            }
        },
{
    match r.start {
        BoundView::Included(k) => lemma_le_or_after(k, key),
        BoundView::Excluded(k) => lemma_le_or_after(k, key),
        BoundView::Unbounded => {},
    }
    match r.end {
        BoundView::Included(k) => lemma_le_or_after(key, k),
        BoundView::Excluded(k) => lemma_le_or_after(key, k),
        BoundView::Unbounded => {},
    }
}

proof fn lemma_le_or_after(a: Seq<u8>, b: Seq<u8>)
    ensures
        order::key_le(a, b) <==> !order::key_lt(b, a),
        order::key_lt(a, b) <==> !order::key_lt(b, a) && a != b,
{
    order::lemma_key_total(a, b);
    order::lemma_key_irreflexive(a);
    if order::key_lt(a, b) {
        order::lemma_key_asymmetric(a, b);
    }
    if order::key_lt(b, a) {
        order::lemma_key_asymmetric(b, a);
    }
}

/// What ends before a range starts, or starts behind its end, is not touched by it.
pub proof fn law_apart_is_untouched(r: RangeView, first: Seq<u8>, last: Seq<u8>, k: Seq<u8>)
    ensures
        (r.start == BoundView::Included(k) || r.start == BoundView::Excluded(k)) && order::key_lt(
            last,
            k,
        ) ==> !r.touches(first, last),
        (r.end == BoundView::Included(k) || r.end == BoundView::Excluded(k)) && order::key_lt(
            k,
            first,
        ) ==> !r.touches(first, last),
{
}

} // verus!
