//! The entries of the replicated log.
use vstd::prelude::*;
use vstd::slice::slice_subrange;

verus! {

/// An end of a range of places in the log.
#[derive(Clone, Copy, Debug, PartialEq, Eq, Structural)]
pub enum LogBound {
    Included(u64),
    Excluded(u64),
    Unbounded,
}

/// The first place of a range.
pub open spec fn range_start(b: LogBound) -> int {
    match b {
        LogBound::Included(i) => i as int,
        LogBound::Excluded(i) => i + 1,
        LogBound::Unbounded => 0,
    }
}

/// The place behind the last one of a range, in a log of `len` entries.
pub open spec fn range_end(b: LogBound, len: nat) -> int {
    match b {
        LogBound::Included(i) => i + 1,
        LogBound::Excluded(i) => i as int,
        LogBound::Unbounded => len as int,
    }
}

/// The entries of a range, as far as there are any.
pub open spec fn entries_in<T>(entries: Seq<T>, from: LogBound, to: LogBound) -> Seq<T> {
    let start = range_start(from);
    let end = if range_end(to, entries.len()) < entries.len() {
        range_end(to, entries.len())
    } else {
        entries.len() as int
    };
    if start >= end {
        seq![]
    } else {
        entries.subrange(start, end)
    }
}

/// The entries of the replicated log, counted from 0.
pub struct RaftLog<T> {
    entries: Vec<T>,
}

impl<T> View for RaftLog<T> {
    type V = Seq<T>;

    closed spec fn view(&self) -> Seq<T> {
        self.entries@
    }
}

impl<T> RaftLog<T> {
    /// A log with the given entries.
    pub fn new(entries: Vec<T>) -> (l: RaftLog<T>)
        ensures
            l@ == entries@,
    {
        RaftLog { entries }
    }

    /// All entries.
    pub fn entries(&self) -> (v: &Vec<T>)
        ensures
            v@ == self@,
    {
        &self.entries
    }

    /// The last entry.
    pub fn last(&self) -> (r: Option<&T>)
        ensures
            match r {
                Some(e) => self@.len() > 0 && *e == self@.last(),
                None => self@.len() == 0,
            },
    {
        if self.entries.len() == 0 {
            None
        } else {
            Some(&self.entries[self.entries.len() - 1])
        }
    }

    /// The entries of a range, as far as there are any.
    pub fn try_get_log_entries(&self, from: LogBound, to: LogBound) -> (r: &[T])
        ensures
            r@ == entries_in(self@, from, to),
    {
        let len: usize = self.entries.len();
        let start: u128 = match from {
            LogBound::Included(i) => i as u128,
            LogBound::Excluded(i) => i as u128 + 1,
            LogBound::Unbounded => 0,
        };
        let wanted: u128 = match to {
            LogBound::Included(i) => i as u128 + 1,
            LogBound::Excluded(i) => i as u128,
            LogBound::Unbounded => len as u128,
        };
        let end: u128 = if wanted < len as u128 {
            wanted
        } else {
            len as u128
        };
        if start >= end {
            let none: &[T] = slice_subrange(self.entries.as_slice(), 0, 0);
            assert(none@ =~= seq![]);
            return none;
        }
        slice_subrange(self.entries.as_slice(), start as usize, end as usize)
    }

    /// Puts an entry behind the others.
    pub fn append(&mut self, entry: T)
        ensures
            final(self)@ == old(self)@.push(entry),
    {
        self.entries.push(entry);
    }

    /// Keeps the entries up to the place `index`.
    pub fn truncate(&mut self, index: u64)
        ensures
            final(self)@ == (if index + 1 < old(self)@.len() {
                old(self)@.take(index + 1)
            } else {
                old(self)@
            }),
    {
        let len: usize = self.entries.len();
        if (index as u128) + 1 < len as u128 {
            self.entries.truncate(index as usize + 1);
        }
    }

    /// Drops the entries up to the place `index`.
    pub fn purge(&mut self, index: u64)
        ensures
            final(self)@ == (if index + 1 >= old(self)@.len() {
                Seq::<T>::empty()
            } else {
                old(self)@.skip(index + 1)
            }),
    {
        let len: usize = self.entries.len();
        if (index as u128) + 1 >= len as u128 {
            self.entries = Vec::new();
            assert(self@ =~= Seq::<T>::empty());
        } else {
            let ghost before = self.entries@;
            self.entries = self.entries.split_off(index as usize + 1);
            assert(self@ =~= before.skip(index + 1));
        }
    }
}

/// Truncating keeps what comes before: a range that ends there is the same as before.
pub proof fn law_truncate_keeps_prefix<T>(
    entries: Seq<T>,
    index: u64,
    from: LogBound,
    to: LogBound,
)
    requires
        index + 1 < entries.len(),
        range_end(to, entries.len()) <= index + 1,
        to !is Unbounded,
    ensures
        entries_in(entries.take(index + 1), from, to) == entries_in(entries, from, to),
{
    assert(entries_in(entries.take(index + 1), from, to) =~= entries_in(entries, from, to));
}

/// A place is not before the start of a range.
pub open spec fn from_on(from: LogBound, place: int) -> bool {
    match from {
        LogBound::Included(i) => i <= place,
        LogBound::Excluded(i) => i < place,
        LogBound::Unbounded => true,
    }
}

/// A place is not behind the end of a range.
pub open spec fn up_to(to: LogBound, place: int) -> bool {
    match to {
        LogBound::Included(i) => place <= i,
        LogBound::Excluded(i) => place < i,
        LogBound::Unbounded => true,
    }
}

/// The entries of a range are, in order, those whose place is in it and no others: some
/// place `start` is that of the first one, the places that are in the range are those from
/// `start` on, as many as there are entries, and each entry is the log's at its place.
pub proof fn law_range_has_its_entries<T>(entries: Seq<T>, from: LogBound, to: LogBound) -> (start:
    int)
    ensures
        0 <= start,
        start + entries_in(entries, from, to).len() <= entries.len(),
        forall|place: int|
            #![trigger from_on(from, place), up_to(to, place)]
            (0 <= place < entries.len() && from_on(from, place) && up_to(to, place)) <==> start
                <= place < start + entries_in(entries, from, to).len(),
        forall|i: int|
            0 <= i < entries_in(entries, from, to).len() ==> #[trigger] entries_in(
                entries,
                from,
                to,
            )[i] == entries[start + i],
{
    let first: int = match from {
        LogBound::Included(i) => i as int,
        LogBound::Excluded(i) => i + 1,
        LogBound::Unbounded => 0,
    };
    if entries_in(entries, from, to).len() == 0 {
        0
    } else {
        first
    }
}

/// The number of the entries of a range: from its start to its end, or to that of the log
/// where that comes first.
pub proof fn law_range_length<T>(entries: Seq<T>, start: u64, end: u64)
    ensures
        entries_in(entries, LogBound::Included(start), LogBound::Excluded(end)).len() == {
            let stop = if end < entries.len() {
                end as int
            } else {
                entries.len() as int
            };
            if start < stop {
                stop - start
            } else {
                0
            }
        },
        entries_in(entries, LogBound::Unbounded, LogBound::Excluded(end)) == entries_in(
            entries,
            LogBound::Included(0),
            LogBound::Excluded(end),
        ),
        entries_in(entries, LogBound::Included(start), LogBound::Unbounded).len() == (if start
            < entries.len() {
            entries.len() - start
        } else {
            0
        }),
{
}

/// A range without bounds has the whole log.
pub proof fn law_unbounded_is_whole<T>(entries: Seq<T>)
    ensures
        entries_in(entries, LogBound::Unbounded, LogBound::Unbounded) == entries,
{
    assert(entries.subrange(0, entries.len() as int) =~= entries);
}

/// Two ranges of which one starts where the other ends have what the range over both
/// has.
pub proof fn law_ranges_join<T>(entries: Seq<T>, from: LogBound, middle: u64, to: LogBound)
    requires
        range_start(from) <= middle,
        middle <= range_end(to, entries.len()) || to is Unbounded,
    ensures
        entries_in(entries, from, LogBound::Excluded(middle)) + entries_in(
            entries,
            LogBound::Included(middle),
            to,
        ) == entries_in(entries, from, to),
{
    assert(entries_in(entries, from, LogBound::Excluded(middle)) + entries_in(
        entries,
        LogBound::Included(middle),
        to,
    ) =~= entries_in(entries, from, to));
}

/// An entry that was put behind the others is the only one from its place on, and the
/// entries before it are read as they were.
pub proof fn law_appended_is_read<T>(entries: Seq<T>, entry: T, from: LogBound)
    requires
        entries.len() <= u64::MAX,
    ensures
        entries_in(
            entries.push(entry),
            LogBound::Included(entries.len() as u64),
            LogBound::Unbounded,
        ) == seq![entry],
        entries_in(entries.push(entry), from, LogBound::Excluded(entries.len() as u64))
            == entries_in(entries, from, LogBound::Unbounded),
{
    assert(entries_in(
        entries.push(entry),
        LogBound::Included(entries.len() as u64),
        LogBound::Unbounded,
    ) =~= seq![entry]);
    assert(entries_in(entries.push(entry), from, LogBound::Excluded(entries.len() as u64))
        =~= entries_in(entries, from, LogBound::Unbounded));
}

/// Purging leaves what comes behind: a range of the log that is left is the range as many
/// places further on of the log that was.
pub proof fn law_purge_keeps_rest<T>(entries: Seq<T>, index: u64, start: u64, end: u64)
    requires
        index + 1 < entries.len(),
        index + 1 + start <= u64::MAX,
        index + 1 + end <= u64::MAX,
    ensures
        entries_in(
            entries.skip(index + 1),
            LogBound::Included(start),
            LogBound::Excluded(end),
        ) == entries_in(
            entries,
            LogBound::Included((index + 1 + start) as u64),
            LogBound::Excluded((index + 1 + end) as u64),
        ),
{
    assert(entries_in(
        entries.skip(index + 1),
        LogBound::Included(start),
        LogBound::Excluded(end),
    ) =~= entries_in(
        entries,
        LogBound::Included((index + 1 + start) as u64),
        LogBound::Excluded((index + 1 + end) as u64),
    ));
}

} // verus!
