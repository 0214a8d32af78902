//! Merging sorted sources of timestamped records: of each key the newest stays.
use vstd::prelude::*;
use crate::error::{DBError, DBFailure};
use crate::order;
use crate::order::KeyOrder;
use crate::storage::block;
use crate::storage::block::{copy_records, Block, TimedBlock};
use crate::storage::flush;
use crate::storage::flush::memtable_records;
use crate::storage::keyed;
use crate::storage::keymap;
use crate::storage::memtable::PlainMemtable;
use crate::storage::record;
use crate::storage::record::{Record, TimedRecord};
use crate::storage::sstable;
use crate::storage::timed_table;

verus! {

/// A source that gives out records in ascending order of their keys.
pub trait SortedRecordSource: Sized {
    /// The records that are still to come.
    spec fn remaining(&self) -> Seq<TimedRecord>;

    /// How the source fails behind these records, if it does not just end there.
    spec fn failure(&self) -> Option<DBFailure>;

    /// The next record, if there is one.
    fn next_record(&mut self) -> (r: Result<Option<Record>, DBError>)
        ensures
            match r {
                Ok(Some(record)) => {
                    &&& old(self).remaining().len() > 0
                    &&& record@ == old(self).remaining()[0]
                    &&& final(self).remaining() == old(self).remaining().skip(1)
                    &&& final(self).failure() == old(self).failure()
                },
                Ok(None) => {
                    &&& old(self).remaining().len() == 0
                    &&& final(self).remaining() == old(self).remaining()
                    &&& old(self).failure() is None
                    &&& final(self).failure() is None
                },
                Err(e) => old(self).remaining().len() == 0 && old(self).failure() == Some(e@),
            },
    ;
}

/// The number of records in queues.
pub open spec fn total(queues: Seq<Seq<TimedRecord>>) -> nat
    decreases queues.len(),
{
    if queues.len() == 0 {
        0
    } else {
        total(queues.drop_last()) + queues.last().len()
    }
}

/// Among the first `n` queues, the one whose first record comes first; of several with
/// equal first records the first queue.
pub open spec fn least(queues: Seq<Seq<TimedRecord>>, n: nat) -> Option<int>
    decreases n,
{
    if n == 0 {
        None
    } else {
        let front = least(queues, (n - 1) as nat);
        if queues[n - 1].len() == 0 {
            front
        } else {
            match front {
                None => Some(n - 1),
                Some(j) => if queues[n - 1][0].before(queues[j][0]) {
                    Some(n - 1)
                } else {
                    Some(j)
                },
            }
        }
    }
}

/// Queues without the first record of one of them.
pub open spec fn advanced(queues: Seq<Seq<TimedRecord>>, i: int) -> Seq<Seq<TimedRecord>> {
    queues.update(i, queues[i].skip(1))
}

/// The number of records where one queue is replaced.
pub proof fn lemma_total_update(queues: Seq<Seq<TimedRecord>>, i: int, q: Seq<TimedRecord>)
    requires
        0 <= i < queues.len(),
    ensures
        total(queues.update(i, q)) + queues[i].len() == total(queues) + q.len(),
    decreases queues.len(),
{
    let after = queues.update(i, q);
    if i == queues.len() - 1 {
        assert(after.drop_last() =~= queues.drop_last());
    } else {
        assert(after.drop_last() =~= queues.drop_last().update(i, q));
        lemma_total_update(queues.drop_last(), i, q);
    }
}

/// What `least` finds is a queue with records; where it finds none there are none, and
/// no first record comes before that of the queue it finds.
pub proof fn lemma_least(queues: Seq<Seq<TimedRecord>>, n: nat)
    requires
        n <= queues.len(),
    ensures
        match least(queues, n) {
            None => forall|j: int| 0 <= j < n ==> (#[trigger] queues[j]).len() == 0,
            Some(i) => {
                &&& 0 <= i < n
                &&& queues[i].len() > 0
                &&& forall|j: int|
                    0 <= j < n && (#[trigger] queues[j]).len() > 0 ==> order::key_le(
                        queues[i][0].key,
                        queues[j][0].key,
                    )
            },
        },
    decreases n,
{
    if n > 0 {
        lemma_least(queues, (n - 1) as nat);
        if queues[n - 1].len() > 0 {
            if let Some(j) = least(queues, (n - 1) as nat) {
                let (a, b) = (queues[n - 1][0].key, queues[j][0].key);
                order::lemma_key_total(a, b);
                if queues[n - 1][0].before(queues[j][0]) {
                    assert forall|k: int| 0 <= k < n && (#[trigger] queues[k]).len()
                        > 0 implies order::key_le(a, queues[k][0].key) by {
                        if k < n - 1 {
                            let c = queues[k][0].key;
                            if a != b && b != c {
                                order::lemma_key_transitive(a, b, c);
                            }
                        }
                    }
                } else {
                    order::lemma_key_irreflexive(a);
                    if order::key_lt(a, b) {
                        assert(queues[n - 1][0].before(queues[j][0]));
                    }
                }
            }
        }
    }
}

/// The records of queues in the order in which they come out: always the one that comes
/// first.
pub open spec fn popped(queues: Seq<Seq<TimedRecord>>) -> Seq<TimedRecord>
    decreases total(queues),
{
    match least(queues, queues.len()) {
        None => seq![],
        Some(i) => {
            proof {
                lemma_least(queues, queues.len());
                lemma_total_update(queues, i, queues[i].skip(1));
            }
            seq![queues[i][0]] + popped(advanced(queues, i))
        },
    }
}

/// Of each run of records with the same key the first of the newest.
pub open spec fn newest_runs(s: Seq<TimedRecord>) -> Seq<TimedRecord>
    decreases s.len(),
{
    if s.len() == 0 {
        seq![]
    } else {
        let front = newest_runs(s.drop_last());
        let r = s.last();
        if front.len() > 0 && front.last().key == r.key {
            if r.timestamp > front.last().timestamp {
                front.drop_last().push(r)
            } else {
                front
            }
        } else {
            front.push(r)
        }
    }
}

/// What merging gives: of the records of each key, as they come out, the first of the
/// newest.
pub open spec fn merged_records(queues: Seq<Seq<TimedRecord>>) -> Seq<TimedRecord> {
    newest_runs(popped(queues))
}

/// Some queue has the record.
pub open spec fn queued(queues: Seq<Seq<TimedRecord>>, r: TimedRecord) -> bool {
    exists|q: int| 0 <= q < queues.len() && (#[trigger] queues[q]).contains(r)
}

/// The records of the queues come out, and no others.
proof fn lemma_popped_records(queues: Seq<Seq<TimedRecord>>, r: TimedRecord)
    ensures
        popped(queues).contains(r) == queued(queues, r),
    decreases total(queues),
{
    lemma_least(queues, queues.len());
    match least(queues, queues.len()) {
        None => {},
        Some(i) => {
            lemma_total_update(queues, i, queues[i].skip(1));
            let rest = advanced(queues, i);
            lemma_popped_records(rest, r);
            let all = popped(queues);
            let tail = popped(rest);
            let first = queues[i][0];
            assert(all == seq![first] + tail);
            if all.contains(r) {
                let k = choose|k: int| 0 <= k < all.len() && all[k] == r;
                if k == 0 {
                    assert(queues[i].contains(r));
                } else {
                    assert(tail[k - 1] == r);
                    let q = choose|q: int| 0 <= q < rest.len() && (#[trigger] rest[q]).contains(r);
                    let j = choose|j: int| 0 <= j < rest[q].len() && rest[q][j] == r;
                    if q == i {
                        assert(queues[i][j + 1] == r);
                    } else {
                        assert(queues[q][j] == r);
                    }
                    assert(queues[q].contains(r));
                }
            }
            if queued(queues, r) {
                let q = choose|q: int| 0 <= q < queues.len() && (#[trigger] queues[q]).contains(r);
                let j = choose|j: int| 0 <= j < queues[q].len() && queues[q][j] == r;
                if q == i && j == 0 {
                    assert(all[0] == r);
                } else {
                    if q == i {
                        assert(rest[q][j - 1] == r);
                    } else {
                        assert(rest[q][j] == r);
                    }
                    assert(rest[q].contains(r));
                    assert(tail.contains(r));
                    let k = choose|k: int| 0 <= k < tail.len() && tail[k] == r;
                    assert(all[k + 1] == r);
                }
            }
        },
    }
}

/// Each queue is sorted by key.
pub open spec fn queues_sorted(queues: Seq<Seq<TimedRecord>>) -> bool {
    forall|q: int|
        0 <= q < queues.len() ==> keyed::sorted_by_key(#[trigger] queues[q], block::record_key())
}

/// What comes first has a key that is not greater than any other.
proof fn lemma_first_least(queues: Seq<Seq<TimedRecord>>, i: int, r: TimedRecord)
    requires
        queues_sorted(queues),
        least(queues, queues.len()) == Some(i),
        queued(queues, r),
    ensures
        order::key_le(queues[i][0].key, r.key),
{
    lemma_least(queues, queues.len());
    let key = block::record_key();
    let q = choose|q: int| 0 <= q < queues.len() && (#[trigger] queues[q]).contains(r);
    let j = choose|j: int| 0 <= j < queues[q].len() && queues[q][j] == r;
    let (a, b) = (queues[i][0].key, queues[q][0].key);
    assert(order::key_le(a, b));
    if j > 0 {
        assert(order::key_le(key(queues[q][0]), key(queues[q][j])));
        if a != b && b != r.key {
            order::lemma_key_transitive(a, b, r.key);
        }
    }
}

/// Records of sorted queues come out sorted.
proof fn lemma_popped_sorted(queues: Seq<Seq<TimedRecord>>)
    requires
        queues_sorted(queues),
    ensures
        keyed::sorted_by_key(popped(queues), block::record_key()),
    decreases total(queues),
{
    lemma_least(queues, queues.len());
    match least(queues, queues.len()) {
        None => {},
        Some(i) => {
            let key = block::record_key();
            lemma_total_update(queues, i, queues[i].skip(1));
            let rest = advanced(queues, i);
            assert forall|q: int| 0 <= q < rest.len() implies keyed::sorted_by_key(
                #[trigger] rest[q],
                key,
            ) by {
                assert(keyed::sorted_by_key(queues[q], key));
                if q == i {
                    assert forall|a: int, b: int| 0 <= a < b < rest[i].len() implies order::key_le(
                        key(#[trigger] rest[i][a]),
                        key(#[trigger] rest[i][b]),
                    ) by {
                        assert(order::key_le(key(queues[i][a + 1]), key(queues[i][b + 1])));
                    }
                }
            }
            lemma_popped_sorted(rest);
            let all = popped(queues);
            let tail = popped(rest);
            let first = queues[i][0];
            assert(all == seq![first] + tail);
            assert forall|a: int, b: int| 0 <= a < b < all.len() implies order::key_le(
                key(#[trigger] all[a]),
                key(#[trigger] all[b]),
            ) by {
                if a == 0 {
                    let r = tail[b - 1];
                    assert(tail.contains(r));
                    lemma_popped_records(rest, r);
                    lemma_advanced_queued(queues, i, r);
                    lemma_first_least(queues, i, r);
                } else {
                    assert(order::key_le(key(tail[a - 1]), key(tail[b - 1])));
                }
            }
        },
    }
}

/// What is left was there before.
proof fn lemma_advanced_queued(queues: Seq<Seq<TimedRecord>>, i: int, r: TimedRecord)
    requires
        0 <= i < queues.len(),
        queues[i].len() > 0,
        queued(advanced(queues, i), r),
    ensures
        queued(queues, r),
{
    let rest = advanced(queues, i);
    let q = choose|q: int| 0 <= q < rest.len() && (#[trigger] rest[q]).contains(r);
    let j = choose|j: int| 0 <= j < rest[q].len() && rest[q][j] == r;
    if q == i {
        assert(queues[i][j + 1] == r);
    } else {
        assert(queues[q][j] == r);
    }
    assert(queues[q].contains(r));
}

/// Of sorted records one of each key stays, and it is one of the newest.
#[verifier::spinoff_prover]
#[verifier::rlimit(40)]
proof fn lemma_newest_runs(s: Seq<TimedRecord>)
    requires
        keyed::sorted_by_key(s, block::record_key()),
    ensures
        ({
            let out = newest_runs(s);
            &&& keyed::strictly_sorted(out, block::record_key())
            &&& s.len() > 0 ==> out.len() > 0 && out.last().key == s.last().key
            &&& forall|j: int| 0 <= j < out.len() ==> s.contains(#[trigger] out[j])
            &&& forall|i: int| 0 <= i < s.len() ==> has_newer(out, #[trigger] s[i])
        }),
    decreases s.len(),
{
    if s.len() > 0 {
        let key = block::record_key();
        let t = s.drop_last();
        let r = s.last();
        assert forall|a: int, b: int| 0 <= a < b < t.len() implies order::key_le(
            key(#[trigger] t[a]),
            key(#[trigger] t[b]),
        ) by {
            assert(t[a] == s[a] && t[b] == s[b]);
        }
        lemma_newest_runs(t);
        let front = newest_runs(t);
        let out = newest_runs(s);
        assert(s[s.len() - 1] == r);
        assert forall|j: int| 0 <= j < out.len() implies s.contains(#[trigger] out[j]) by {
            if out[j] != r {
                assert(out[j] == front[j]);
                assert(t.contains(front[j]));
                let i = choose|i: int| 0 <= i < t.len() && t[i] == front[j];
                assert(s[i] == out[j]);
            }
        }
        if t.len() > 0 {
            assert(t.last() == s[s.len() - 2]);
            assert(order::key_le(key(s[s.len() - 2]), key(s[s.len() - 1])));
            assert(front[front.len() - 1].key == t.last().key);
        }
        let joined = front.len() > 0 && front.last().key == r.key;
        assert forall|a: int, b: int| 0 <= a < b < out.len() implies order::key_lt(
            key(#[trigger] out[a]),
            key(#[trigger] out[b]),
        ) by {
            if b < front.len() {
                assert(order::key_lt(key(front[a]), key(front[b])));
                assert(out[a] == front[a]);
            } else {
                assert(out[a] == front[a]);
                if a < front.len() - 1 {
                    assert(order::key_lt(key(front[a]), key(front[front.len() - 1])));
                    order::lemma_key_transitive(front[a].key, front.last().key, r.key);
                }
            }
        }
        assert forall|i: int| 0 <= i < s.len() implies has_newer(out, #[trigger] s[i]) by {
            if i < t.len() {
                assert(t[i] == s[i]);
                assert(has_newer(front, t[i]));
                let j = choose|j: int|
                    0 <= j < front.len() && (#[trigger] front[j]).key == t[i].key
                        && front[j].timestamp >= t[i].timestamp;
                assert(out[j].key == s[i].key && out[j].timestamp >= s[i].timestamp);
            } else {
                let j = out.len() - 1;
                assert(out[j].key == r.key && out[j].timestamp >= r.timestamp);
            }
        }
    }
}

/// Some record has the key of `r` and is not older.
pub open spec fn has_newer(s: Seq<TimedRecord>, r: TimedRecord) -> bool {
    exists|j: int|
        0 <= j < s.len() && (#[trigger] s[j]).key == r.key && s[j].timestamp >= r.timestamp
}

/// Merging sorted queues gives records with ascending keys: each is a record of the
/// queues, and of each key of the queues there is one that no record of the key is
/// newer than.
pub proof fn law_merge_keeps_newest(queues: Seq<Seq<TimedRecord>>)
    requires
        queues_sorted(queues),
    ensures
        keyed::strictly_sorted(merged_records(queues), block::record_key()),
        forall|j: int|
            0 <= j < merged_records(queues).len() ==> queued(
                queues,
                #[trigger] merged_records(queues)[j],
            ),
        forall|r: TimedRecord| #[trigger]
            queued(queues, r) ==> has_newer(merged_records(queues), r),
{
    lemma_popped_sorted(queues);
    let s = popped(queues);
    lemma_newest_runs(s);
    let out = merged_records(queues);
    assert forall|j: int| 0 <= j < out.len() implies queued(queues, #[trigger] out[j]) by {
        assert(s.contains(out[j]));
        lemma_popped_records(queues, out[j]);
    }
    assert forall|r: TimedRecord| #[trigger] queued(queues, r) implies has_newer(out, r) by {
        lemma_popped_records(queues, r);
        let i = choose|i: int| 0 <= i < s.len() && s[i] == r;
        assert(has_newer(out, s[i]));
    }
}

/// The records that sources still have.
pub open spec fn queues_of<S: SortedRecordSource>(sources: Seq<S>) -> Seq<Seq<TimedRecord>> {
    Seq::new(sources.len(), |i: int| sources[i].remaining())
}

/// How sources fail behind their records.
pub open spec fn failures_of<S: SortedRecordSource>(sources: Seq<S>) -> Seq<Option<DBFailure>> {
    Seq::new(sources.len(), |i: int| sources[i].failure())
}

/// How the first of the first `n` sources fails that fails when it is asked for its first
/// record.
pub open spec fn fails_at_start(
    queues: Seq<Seq<TimedRecord>>,
    failures: Seq<Option<DBFailure>>,
    n: nat,
) -> Option<DBFailure>
    decreases n,
{
    if n == 0 {
        None
    } else {
        match fails_at_start(queues, failures, (n - 1) as nat) {
            Some(e) => Some(e),
            None => if queues[n - 1].len() == 0 {
                failures[n - 1]
            } else {
                None
            },
        }
    }
}

/// How the first source fails that fails when a record of it has come out and it is asked
/// for the next one.
pub open spec fn fails_later(
    queues: Seq<Seq<TimedRecord>>,
    failures: Seq<Option<DBFailure>>,
) -> Option<DBFailure>
    decreases total(queues),
{
    match least(queues, queues.len()) {
        None => None,
        Some(i) => {
            proof {
                lemma_least(queues, queues.len());
                lemma_total_update(queues, i, queues[i].skip(1));
            }
            if queues[i].len() == 1 && failures[i] is Some {
                failures[i]
            } else {
                fails_later(advanced(queues, i), failures)
            }
        },
    }
}

/// How a merge fails: as the first source that fails does.
pub open spec fn merge_failure(
    queues: Seq<Seq<TimedRecord>>,
    failures: Seq<Option<DBFailure>>,
) -> Option<DBFailure> {
    match fails_at_start(queues, failures, queues.len()) {
        Some(e) => Some(e),
        None => fails_later(queues, failures),
    }
}

/// Where no source fails, a merge does not.
proof fn lemma_no_failure(queues: Seq<Seq<TimedRecord>>, failures: Seq<Option<DBFailure>>, n: nat)
    requires
        queues.len() == failures.len(),
        n <= queues.len(),
        forall|i: int| 0 <= i < failures.len() ==> #[trigger] failures[i] is None,
    ensures
        fails_at_start(queues, failures, n) is None,
        fails_later(queues, failures) is None,
    decreases total(queues), n,
{
    if n > 0 {
        lemma_no_failure(queues, failures, (n - 1) as nat);
    } else {
        lemma_least(queues, queues.len());
        if let Some(i) = least(queues, queues.len()) {
            lemma_total_update(queues, i, queues[i].skip(1));
            lemma_no_failure(advanced(queues, i), failures, 0);
        }
    }
}

/// A failure at the start is one of the whole start.
proof fn lemma_start_failure(
    queues: Seq<Seq<TimedRecord>>,
    failures: Seq<Option<DBFailure>>,
    i: nat,
    n: nat,
)
    requires
        i <= n,
        fails_at_start(queues, failures, i) is Some,
    ensures
        fails_at_start(queues, failures, n) == fails_at_start(queues, failures, i),
    decreases n,
{
    if i < n {
        lemma_start_failure(queues, failures, i, (n - 1) as nat);
    }
}

/// The queue of a source whose next record has been taken out already.
spec fn queue_at<S: SortedRecordSource>(source: S, head: Option<Record>) -> Seq<TimedRecord> {
    match head {
        Some(r) => seq![r@] + source.remaining(),
        None => seq![],
    }
}

/// The queues of sources whose next records have been taken out already.
spec fn queues_with<S: SortedRecordSource>(sources: Seq<S>, heads: Seq<Option<Record>>) -> Seq<
    Seq<TimedRecord>,
> {
    Seq::new(sources.len(), |i: int| queue_at(sources[i], heads[i]))
}

/// The queue whose first record comes first.
fn find_least<S: SortedRecordSource>(
    sources: &Vec<S>,
    heads: &Vec<Option<Record>>,
) -> (r: Option<usize>)
    requires
        heads@.len() == sources@.len(),
    ensures
        match r {
            Some(i) => least(queues_with(sources@, heads@), sources@.len()) == Some(i as int),
            None => least(queues_with(sources@, heads@), sources@.len()) is None,
        },
{
    let ghost queues = queues_with(sources@, heads@);
    let mut best: Option<usize> = None;
    let mut i: usize = 0;
    while i < heads.len()
        invariant
            i <= heads@.len(),
            heads@.len() == sources@.len(),
            queues == queues_with(sources@, heads@),
            match best {
                Some(j) => j < i && heads@[j as int] is Some && least(queues, i as nat) == Some(
                    j as int,
                ),
                None => least(queues, i as nat) is None,
            },
        decreases heads@.len() - i,
    {
        assert(queues[i as int] == queue_at(sources@[i as int], heads@[i as int]));
        match &heads[i] {
            None => {},
            Some(r) => {
                assert(queues[i as int][0] == r@);
                match best {
                    None => {
                        best = Some(i);
                    },
                    Some(j) => {
                        match &heads[j] {
                            None => {},
                            Some(b) => {
                                assert(queues[j as int] == queue_at(
                                    sources@[j as int],
                                    heads@[j as int],
                                ));
                                assert(queues[j as int][0] == b@);
                                if matches!(r.order(b), KeyOrder::Before) {
                                    best = Some(i);
                                }
                            },
                        }
                    },
                }
            },
        }
        i = i + 1;
    }
    best
}

/// Puts one more record behind those that stay.
fn keep_record(out: &mut Vec<Record>, record: Record, Ghost(before): Ghost<Seq<TimedRecord>>)
    requires
        keyed::views(old(out)@) == newest_runs(before),
    ensures
        keyed::views(final(out)@) == newest_runs(before.push(record@)),
{
    let ghost r = record@;
    let ghost front = keyed::views(out@);
    proof {
        assert(before.push(r).drop_last() =~= before);
        assert(before.push(r).last() == r);
    }
    let n: usize = out.len();
    let same = n > 0 && order::same_key(out[n - 1].key.as_slice(), record.key.as_slice());
    assert(same ==> front.last() == out@[n - 1]@);
    if same {
        if record.timestamp > out[n - 1].timestamp {
            out.pop();
            assert(keyed::views(out@) =~= front.drop_last());
            out.push(record);
            assert(keyed::views(out@) =~= front.drop_last().push(r));
        }
    } else {
        assert(n > 0 ==> front.last() == out@[n - 1]@);
        out.push(record);
        assert(keyed::views(out@) =~= front.push(r));
    }
}

/// Merges sorted sources: of each key the newest record. Where a source fails, the merge
/// fails as that source does.
pub fn merge_record_sources<S: SortedRecordSource>(sources: Vec<S>) -> (r: Result<
    Vec<Record>,
    DBError,
>)
    ensures
        match merge_failure(queues_of(sources@), failures_of(sources@)) {
            Some(failure) => r matches Err(e) && e@ == failure,
            None => r matches Ok(out) && keyed::views(out@) == merged_records(
                queues_of(sources@),
            ),
        },
{
    let ghost start = sources@;
    let ghost all = queues_of(start);
    let ghost fails = failures_of(start);
    let mut left = sources;
    let mut heads: Vec<Option<Record>> = Vec::new();
    let mut i: usize = 0;
    while i < left.len()
        invariant
            i <= left@.len(),
            left@.len() == start.len(),
            heads@.len() == i,
            all == queues_of(start),
            fails == failures_of(start),
            start == sources@,
            forall|j: int| i <= j < start.len() ==> #[trigger] left@[j] == start[j],
            forall|j: int|
                0 <= j < i ==> queue_at(#[trigger] left@[j], heads@[j]) == all[j],
            forall|j: int| 0 <= j < start.len() ==> (#[trigger] left@[j]).failure() == fails[j],
            fails_at_start(all, fails, i as nat) is None,
        decreases left@.len() - i,
    {
        let ghost before = left@;
        assert(left@[i as int] == start[i as int]);
        match left[i].next_record() {
            Err(e) => {
                proof {
                    lemma_start_failure(all, fails, (i + 1) as nat, all.len());
                }
                return Err(e);
            },
            Ok(head) => {
                proof {
                    assert(left@ == before.update(i as int, left@[i as int]));
                    assert(queue_at(left@[i as int], head) =~= all[i as int]);
                }
                heads.push(head);
            },
        }
        i = i + 1;
    }
    let mut out: Vec<Record> = Vec::new();
    let ghost mut done: Seq<TimedRecord> = seq![];
    proof {
        assert(queues_with(left@, heads@) =~= all);
        assert(failures_of(left@) =~= fails);
        assert(done + popped(all) =~= popped(all));
        assert(keyed::views(out@) =~= newest_runs(done));
    }
    loop
        invariant_except_break
            heads@.len() == left@.len(),
            failures_of(left@) == fails,
        invariant
            all == queues_of(sources@),
            fails == failures_of(sources@),
            fails_at_start(all, fails, all.len()) is None,
            fails_later(all, fails) == fails_later(queues_with(left@, heads@), fails),
            keyed::views(out@) == newest_runs(done),
            done + popped(queues_with(left@, heads@)) == popped(all),
        ensures
            popped(queues_with(left@, heads@)).len() == 0,
        decreases total(queues_with(left@, heads@)),
    {
        let ghost queues = queues_with(left@, heads@);
        proof {
            lemma_least(queues, queues.len());
        }
        match find_least(&left, &heads) {
            None => {
                break;
            },
            Some(i) => {
                let ghost before = left@;
                let ghost old_heads = heads@;
                assert(fails[i as int] == left@[i as int].failure());
                assert(queues[i as int] == queue_at(left@[i as int], heads@[i as int]));
                match left[i].next_record() {
                    Err(e) => {
                        return Err(e);
                    },
                    Ok(next) => {
                        assert(left@ == before.update(i as int, left@[i as int]));
                        assert(failures_of(left@) =~= fails);
                        heads.push(next);
                        let taken = heads.swap_remove(i);
                        match taken {
                            None => {
                                break;
                            },
                            Some(record) => {
                                let ghost r = record@;
                                proof {
                                    let after = queues_with(left@, heads@);
                                    assert(heads@ =~= old_heads.update(i as int, next));
                                    assert(queue_at(left@[i as int], next)
                                        =~= queues[i as int].skip(1));
                                    assert(after =~= advanced(queues, i as int));
                                    lemma_total_update(
                                        queues,
                                        i as int,
                                        queues[i as int].skip(1),
                                    );
                                    assert(queues[i as int][0] == r);
                                    assert(done + (seq![r] + popped(after)) =~= done.push(r)
                                        + popped(after));
                                }
                                keep_record(&mut out, record, Ghost(done));
                                proof {
                                    done = done.push(r);
                                }
                            },
                        }
                    },
                }
            },
        }
    }
    assert(done =~= popped(all));
    Ok(out)
}

/// The records of blocks that have been loaded, one block after the other.
pub open spec fn block_records(blocks: Seq<TimedBlock>) -> Seq<TimedRecord>
    decreases blocks.len(),
{
    if blocks.len() == 0 {
        seq![]
    } else {
        block_records(blocks.drop_last()) + match blocks.last().data {
            Some(records) => records,
            None => seq![],
        }
    }
}

/// What is left of records from a place on.
pub open spec fn left_of(records: Seq<TimedRecord>, at: usize) -> Seq<TimedRecord> {
    if at <= records.len() {
        records.skip(at as int)
    } else {
        seq![]
    }
}

/// The record at a place, if there is one; the place moves on.
fn take_next(records: &Vec<Record>, at: &mut usize) -> (r: Option<Record>)
    ensures
        match r {
            Some(record) => {
                let before = left_of(keyed::views(records@), *old(at));
                &&& before.len() > 0
                &&& record@ == before[0]
                &&& left_of(keyed::views(records@), *final(at)) == before.skip(1)
            },
            None => *final(at) == *old(at) && left_of(keyed::views(records@), *old(at)).len() == 0,
        },
{
    if *at < records.len() {
        let ghost all = keyed::views(records@);
        let ghost i = *at;
        let record = records[*at].clone();
        *at = *at + 1;
        assert(left_of(all, i).skip(1) =~= left_of(all, *at));
        Some(record)
    } else {
        None
    }
}

/// The records of a plain memtable as a source.
pub struct MemtableSource {
    records: Vec<Record>,
    at: usize,
}

impl MemtableSource {
    /// The records of the memtable, each with the time at which it was taken.
    pub fn new(memtable: &PlainMemtable) -> (s: MemtableSource)
        ensures
            keymap::lists(flush::unstamped(s.remaining()), memtable@),
            s.failure() is None,
    {
        let records = memtable_records(memtable);
        let s = MemtableSource { records, at: 0 };
        assert(s.remaining() =~= keyed::views(records@));
        s
    }
}

impl SortedRecordSource for MemtableSource {
    closed spec fn remaining(&self) -> Seq<TimedRecord> {
        left_of(keyed::views(self.records@), self.at)
    }

    open spec fn failure(&self) -> Option<DBFailure> {
        None
    }

    fn next_record(&mut self) -> (r: Result<Option<Record>, DBError>) {
        Ok(take_next(&self.records, &mut self.at))
    }
}

/// The records of the blocks of a table as a source.
pub struct SSTableSource {
    records: Vec<Record>,
    at: usize,
}

impl SSTableSource {
    /// The records of blocks, one block after the other.
    pub fn new(blocks: Vec<Block>) -> (s: SSTableSource)
        ensures
            s.remaining() == block_records(keyed::views(blocks@)),
            s.failure() is None,
    {
        let ghost all = keyed::views(blocks@);
        let mut records: Vec<Record> = Vec::new();
        let mut i: usize = 0;
        assert(keyed::views(records@) =~= block_records(all.take(0)));
        while i < blocks.len()
            invariant
                i <= blocks@.len(),
                all == keyed::views(blocks@),
                keyed::views(records@) == block_records(all.take(i as int)),
            decreases blocks@.len() - i,
        {
            let ghost before = keyed::views(records@);
            proof {
                assert(all.take(i + 1).drop_last() =~= all.take(i as int));
                assert(all.take(i + 1).last() == all[i as int]);
            }
            match &blocks[i].data {
                None => {
                    assert(before + Seq::<TimedRecord>::empty() =~= before);
                },
                Some(data) => {
                    let mut more: Vec<Record> = copy_records(data);
                    let ghost added = keyed::views(more@);
                    records.append(&mut more);
                    assert(keyed::views(records@) =~= before + added);
                },
            }
            i = i + 1;
        }
        assert(all.take(i as int) =~= all);
        let s = SSTableSource { records, at: 0 };
        assert(s.remaining() =~= keyed::views(records@));
        s
    }
}

impl SortedRecordSource for SSTableSource {
    closed spec fn remaining(&self) -> Seq<TimedRecord> {
        left_of(keyed::views(self.records@), self.at)
    }

    open spec fn failure(&self) -> Option<DBFailure> {
        None
    }

    fn next_record(&mut self) -> (r: Result<Option<Record>, DBError>) {
        Ok(take_next(&self.records, &mut self.at))
    }
}

/// A source of either kind.
pub enum MergeSource {
    Memtable(MemtableSource),
    Table(SSTableSource),
}

impl SortedRecordSource for MergeSource {
    open spec fn remaining(&self) -> Seq<TimedRecord> {
        match self {
            MergeSource::Memtable(s) => s.remaining(),
            MergeSource::Table(s) => s.remaining(),
        }
    }

    open spec fn failure(&self) -> Option<DBFailure> {
        None
    }

    fn next_record(&mut self) -> (r: Result<Option<Record>, DBError>) {
        match self {
            MergeSource::Memtable(s) => s.next_record(),
            MergeSource::Table(s) => s.next_record(),
        }
    }
}

/// The sources for a merge of a memtable with the blocks of a table.
fn build_merge_sources(memtable: &PlainMemtable, sstables: &Vec<Block>) -> (sources: Vec<
    MergeSource,
>)
    ensures
        sources@.len() == 2,
        keymap::lists(flush::unstamped(sources@[0].remaining()), memtable@),
        sources@[1].remaining() == block_records(keyed::views(sstables@)),
{
    let mut blocks: Vec<Block> = Vec::new();
    let mut i: usize = 0;
    while i < sstables.len()
        invariant
            i <= sstables@.len(),
            blocks@.len() == i,
            forall|j: int| 0 <= j < i ==> (#[trigger] blocks@[j])@ == sstables@[j]@,
        decreases sstables@.len() - i,
    {
        blocks.push(sstables[i].clone());
        i = i + 1;
    }
    assert(keyed::views(blocks@) =~= keyed::views(sstables@));
    let mut sources: Vec<MergeSource> = Vec::new();
    sources.push(MergeSource::Memtable(MemtableSource::new(memtable)));
    sources.push(MergeSource::Table(SSTableSource::new(blocks)));
    sources
}

/// Some times for the records of a memtable make `out` the merge of them with `table`.
pub open spec fn merges_memtable(
    m: Map<Seq<u8>, (record::RecordType, Seq<u8>)>,
    table: Seq<TimedRecord>,
    out: Seq<TimedRecord>,
) -> bool {
    exists|rs: Seq<TimedRecord>| #[trigger]
        keymap::lists(flush::unstamped(rs), m) && out == merged_records(seq![rs, table])
}

/// Merges a memtable, whose records count as written now, with the blocks of a table.
pub fn merge_sstables(memtable: &PlainMemtable, sstables: &Vec<Block>) -> (r: Result<
    Vec<Record>,
    DBError,
>)
    ensures
        r matches Ok(out) && merges_memtable(
            memtable@,
            block_records(keyed::views(sstables@)),
            keyed::views(out@),
        ),
{
    let sources = build_merge_sources(memtable, sstables);
    let ghost rs = sources@[0].remaining();
    let ghost table = sources@[1].remaining();
    proof {
        assert(queues_of(sources@) =~= seq![rs, table]);
        lemma_no_failure(queues_of(sources@), failures_of(sources@), sources@.len());
    }
    merge_record_sources(sources)
}

/// The records of tables, one queue for each table.
pub open spec fn table_queues(tables: Seq<Vec<Block>>) -> Seq<Seq<TimedRecord>> {
    Seq::new(tables.len(), |i: int| block_records(keyed::views(tables[i]@)))
}

/// Merges the blocks of tables.
pub fn merge_tables(tables: Vec<Vec<Block>>) -> (r: Result<Vec<Record>, DBError>)
    ensures
        r matches Ok(out) && keyed::views(out@) == merged_records(table_queues(tables@)),
{
    let ghost all = table_queues(tables@);
    let mut tables = tables;
    let mut sources: Vec<SSTableSource> = Vec::new();
    let ghost n = tables@.len();
    while tables.len() > 0
        invariant
            n == all.len(),
            tables@.len() + sources@.len() == n,
            queues_of(sources@) == all.take(sources@.len() as int),
            table_queues(tables@) == all.skip(sources@.len() as int),
        decreases tables@.len(),
    {
        let ghost before = tables@;
        let ghost k = sources@.len() as int;
        let ghost front = queues_of(sources@);
        let blocks = tables.remove(0);
        let source = SSTableSource::new(blocks);
        let ghost q = source.remaining();
        sources.push(source);
        proof {
            assert(q == table_queues(before)[0]);
            assert(table_queues(before)[0] == all.skip(k)[0]);
            assert(queues_of(sources@) =~= front.push(q));
            assert(all.take(k + 1) =~= all.take(k).push(all[k]));
            assert(table_queues(tables@) =~= table_queues(before).skip(1));
            assert(all.skip(k).skip(1) =~= all.skip(k + 1));
        }
    }
    proof {
        assert(all.take(sources@.len() as int) =~= all);
        lemma_no_failure(queues_of(sources@), failures_of(sources@), sources@.len());
    }
    merge_record_sources(sources)
}

proof fn lemma_before_weak(a: TimedRecord, b: TimedRecord, c: TimedRecord)
    requires
        a.before(b),
        !c.before(b),
    ensures
        a.before(c),
        !c.before(a),
{
    order::lemma_key_total(a.key, c.key);
    order::lemma_key_total(b.key, c.key);
    order::lemma_key_irreflexive(a.key);
    order::lemma_key_irreflexive(b.key);
    order::lemma_key_irreflexive(c.key);
    if order::key_lt(a.key, b.key) && order::key_lt(b.key, c.key) {
        order::lemma_key_transitive(a.key, b.key, c.key);
    }
    if order::key_lt(a.key, c.key) {
        order::lemma_key_asymmetric(a.key, c.key);
    }
    if order::key_lt(c.key, a.key) && order::key_lt(a.key, b.key) {
        order::lemma_key_transitive(c.key, a.key, b.key);
    }
}

/// The record that comes out first has the least key of all and is the newest of those at
/// the heads of the queues; of equally new ones it is that of the first queue.
pub proof fn law_least_comes_first(queues: Seq<Seq<TimedRecord>>, n: nat)
    requires
        n <= queues.len(),
    ensures
        match least(queues, n) {
            None => forall|j: int| 0 <= j < n ==> (#[trigger] queues[j]).len() == 0,
            Some(i) => {
                &&& 0 <= i < n
                &&& queues[i].len() > 0
                &&& forall|j: int|
                    0 <= j < n && (#[trigger] queues[j]).len() > 0 ==> !queues[j][0].before(
                        queues[i][0],
                    )
                &&& forall|j: int|
                    0 <= j < i && (#[trigger] queues[j]).len() > 0 ==> queues[i][0].before(
                        queues[j][0],
                    )
            },
        },
        n == queues.len() && least(queues, n) is Some ==> popped(queues).len() > 0 && popped(
            queues,
        )[0] == queues[least(queues, n)->0][0],
    decreases n,
{
    if n > 0 {
        law_least_comes_first(queues, (n - 1) as nat);
        let q = queues[n - 1];
        if q.len() > 0 {
            order::lemma_key_irreflexive(q[0].key);
            if let Some(j) = least(queues, (n - 1) as nat) {
                if q[0].before(queues[j][0]) {
                    assert forall|x: int|
                        0 <= x < n && (#[trigger] queues[x]).len() > 0 implies !queues[x][0].before(
                        q[0],
                    ) && (x < n - 1 ==> q[0].before(queues[x][0])) by {
                        if x < n - 1 {
                            lemma_before_weak(q[0], queues[j][0], queues[x][0]);
                        }
                    }
                }
            }
        }
    }
}

/// A record that stays of those before the last one and has its key is the last that
/// stays of them.
proof fn lemma_run_of_last(s: Seq<TimedRecord>, y: int)
    requires
        keyed::sorted_by_key(s, block::record_key()),
        s.len() > 0,
        0 <= y < newest_runs(s.drop_last()).len(),
        newest_runs(s.drop_last())[y].key == s.last().key,
    ensures
        y == newest_runs(s.drop_last()).len() - 1,
{
    let (front, n) = (s.drop_last(), s.len() - 1);
    let key = block::record_key();
    lemma_front_sorted(s);
    lemma_newest_runs(front);
    let out = newest_runs(front);
    let (a, b, c) = (out[y].key, out[out.len() - 1].key, s[n].key);
    if y < out.len() - 1 {
        assert(order::key_lt(key(out[y]), key(out[out.len() - 1])));
        assert(front.last() == s[n - 1]);
        assert(order::key_le(key(s[n - 1]), key(s[n])));
        order::lemma_key_irreflexive(a);
        if b != c {
            order::lemma_key_transitive(a, b, c);
        }
    }
}

proof fn lemma_front_sorted(s: Seq<TimedRecord>)
    requires
        keyed::sorted_by_key(s, block::record_key()),
        s.len() > 0,
    ensures
        keyed::sorted_by_key(s.drop_last(), block::record_key()),
{
    let (front, key) = (s.drop_last(), block::record_key());
    assert forall|a: int, b: int|
        #![trigger front[a], front[b]]
        0 <= a < b < front.len() implies order::key_le(key(front[a]), key(front[b])) by {
        assert(front[a] == s[a] && front[b] == s[b]);
    }
}

/// The record at `i` is the newest of its key, and the first of equally new ones.
pub open spec fn first_of_newest(s: Seq<TimedRecord>, i: int) -> bool {
    &&& forall|x: int|
        0 <= x < i && (#[trigger] s[x]).key == s[i].key ==> s[x].timestamp < s[i].timestamp
    &&& forall|x: int|
        i < x < s.len() && (#[trigger] s[x]).key == s[i].key ==> s[x].timestamp <= s[i].timestamp
}

/// Of the records of a key that come one after the other the newest stays; of equally new
/// ones the first.
pub proof fn law_first_of_newest_stays(s: Seq<TimedRecord>, j: int) -> (i: int)
    requires
        keyed::sorted_by_key(s, block::record_key()),
        0 <= j < newest_runs(s).len(),
    ensures
        0 <= i < s.len(),
        s[i] == newest_runs(s)[j],
        first_of_newest(s, i),
    decreases s.len(),
{
    let (front, n, r) = (s.drop_last(), s.len() - 1, s.last());
    let out = newest_runs(front);
    assert(s[n] == r);
    lemma_front_sorted(s);
    let replaced = out.len() > 0 && out.last().key == r.key && r.timestamp > out.last().timestamp;
    if j == out.len() || (replaced && j == out.len() - 1) {
        assert forall|x: int| 0 <= x < n && (#[trigger] s[x]).key == r.key implies s[x].timestamp
            < r.timestamp by {
            lemma_run_of_record(s, x);
        }
        n
    } else {
        let i = law_first_of_newest_stays(front, j);
        assert(newest_runs(s)[j] == out[j]);
        assert(s[i] == front[i]);
        assert forall|x: int| 0 <= x < i && (#[trigger] s[x]).key == s[i].key implies s[x].timestamp
            < s[i].timestamp by {
            assert(s[x] == front[x]);
        }
        assert forall|x: int|
            i < x < s.len() && (#[trigger] s[x]).key == s[i].key implies s[x].timestamp
            <= s[i].timestamp by {
            if x < n {
                assert(s[x] == front[x]);
            } else {
                lemma_run_of_last(s, j);
            }
        }
        i
    }
}

/// An earlier record of the key of the last one is no newer than the one that stays of
/// those before.
proof fn lemma_run_of_record(s: Seq<TimedRecord>, x: int)
    requires
        keyed::sorted_by_key(s, block::record_key()),
        0 <= x < s.len() - 1,
        s[x].key == s.last().key,
    ensures
        ({
            let out = newest_runs(s.drop_last());
            &&& out.len() > 0
            &&& out.last().key == s.last().key
            &&& out.last().timestamp >= s[x].timestamp
        }),
{
    let front = s.drop_last();
    lemma_front_sorted(s);
    lemma_newest_runs(front);
    let out = newest_runs(front);
    assert(front[x] == s[x]);
    assert(has_newer(out, front[x]));
    let y = choose|y: int|
        0 <= y < out.len() && (#[trigger] out[y]).key == front[x].key && out[y].timestamp
            >= front[x].timestamp;
    lemma_run_of_last(s, y);
}

proof fn lemma_fails_at_start(
    queues: Seq<Seq<TimedRecord>>,
    failures: Seq<Option<DBFailure>>,
    n: nat,
)
    requires
        n <= queues.len(),
        failures.len() == queues.len(),
    ensures
        match fails_at_start(queues, failures, n) {
            None => forall|i: int|
                0 <= i < n && (#[trigger] queues[i]).len() == 0 ==> failures[i] is None,
            Some(e) => exists|i: int|
                0 <= i < n && (#[trigger] queues[i]).len() == 0 && failures[i] == Some(e) && (
                forall|j: int|
                    0 <= j < i && (#[trigger] queues[j]).len() == 0 ==> failures[j] is None),
        },
    decreases n,
{
    if n > 0 {
        lemma_fails_at_start(queues, failures, (n - 1) as nat);
        if fails_at_start(queues, failures, (n - 1) as nat) is None && queues[n - 1].len() == 0 {
            assert(queues[n - 1].len() == 0);
        }
    }
}

proof fn lemma_fails_later(queues: Seq<Seq<TimedRecord>>, failures: Seq<Option<DBFailure>>)
    requires
        failures.len() == queues.len(),
    ensures
        match fails_later(queues, failures) {
            None => forall|i: int|
                0 <= i < queues.len() && (#[trigger] queues[i]).len() > 0 ==> failures[i] is None,
            Some(e) => exists|i: int|
                0 <= i < queues.len() && (#[trigger] queues[i]).len() > 0 && failures[i] == Some(e),
        },
    decreases total(queues),
{
    lemma_least(queues, queues.len());
    if let Some(i) = least(queues, queues.len()) {
        lemma_total_update(queues, i, queues[i].skip(1));
        if !(queues[i].len() == 1 && failures[i] is Some) {
            let rest = advanced(queues, i);
            lemma_fails_later(rest, failures);
            match fails_later(rest, failures) {
                None => {
                    assert forall|j: int|
                        0 <= j < queues.len() && (#[trigger] queues[j]).len()
                            > 0 implies failures[j] is None by {
                        if j != i {
                            assert(rest[j] == queues[j]);
                        } else {
                            assert(rest[i] == queues[i].skip(1));
                        }
                    }
                },
                Some(e) => {
                    let j = choose|j: int|
                        0 <= j < rest.len() && (#[trigger] rest[j]).len() > 0 && failures[j]
                            == Some(e);
                    assert(queues[j].len() > 0);
                },
            }
        }
    }
}

/// A merge fails just where one of its sources does, and as that one does; where a source
/// fails before its first record, the first such source decides.
pub proof fn law_merge_fails_with_source(
    queues: Seq<Seq<TimedRecord>>,
    failures: Seq<Option<DBFailure>>,
)
    requires
        failures.len() == queues.len(),
    ensures
        merge_failure(queues, failures) is None <==> forall|i: int|
            0 <= i < failures.len() ==> (#[trigger] failures[i]) is None,
        merge_failure(queues, failures) matches Some(e) ==> exists|i: int|
            0 <= i < failures.len() && #[trigger] failures[i] == Some(e),
        forall|i: int|
            0 <= i < queues.len() && (#[trigger] queues[i]).len() == 0 && failures[i] is Some && (
            forall|j: int| 0 <= j < i && (#[trigger] queues[j]).len() == 0 ==> failures[j] is None)
                ==> merge_failure(queues, failures) == failures[i],
{
    lemma_fails_at_start(queues, failures, queues.len());
    lemma_fails_later(queues, failures);
    match fails_at_start(queues, failures, queues.len()) {
        Some(e) => {
            let i = choose|i: int|
                0 <= i < queues.len() && (#[trigger] queues[i]).len() == 0 && failures[i] == Some(e)
                    && (forall|j: int|
                    0 <= j < i && (#[trigger] queues[j]).len() == 0 ==> failures[j] is None);
            assert(failures[i] == Some(e));
            assert forall|k: int|
                0 <= k < queues.len() && (#[trigger] queues[k]).len() == 0 && failures[k] is Some
                    && (forall|j: int|
                    0 <= j < k && (#[trigger] queues[j]).len() == 0 ==> failures[j]
                        is None) implies merge_failure(queues, failures) == failures[k] by {
                if k < i {
                    assert(queues[k].len() == 0);
                } else if i < k {
                    assert(queues[i].len() == 0);
                }
            }
        },
        None => match fails_later(queues, failures) {
            Some(e) => {
                let i = choose|i: int|
                    0 <= i < queues.len() && (#[trigger] queues[i]).len() > 0 && failures[i]
                        == Some(e);
                assert(failures[i] == Some(e));
            },
            None => {
                assert forall|i: int| 0 <= i < failures.len() implies (#[trigger] failures[i])
                    is None by {
                    assert(queues[i].len() >= 0);
                }
            },
        },
    }
}

/// Of two equally new records of a key, in two queues, that of the first queue comes out
/// first.
proof fn lemma_first_queue_first(
    p: Seq<TimedRecord>,
    q: Seq<TimedRecord>,
    i: int,
    b: TimedRecord,
    y: int,
) -> (x: int)
    requires
        keyed::strictly_sorted(p, block::record_key()),
        0 <= i < p.len(),
        p[i].key == b.key,
        p[i].timestamp == b.timestamp,
        p[i] != b,
        0 <= y < popped(seq![p, q]).len(),
        popped(seq![p, q])[y] == b,
    ensures
        0 <= x < y,
        popped(seq![p, q])[x] == p[i],
    decreases p.len() + q.len(),
{
    let queues = seq![p, q];
    let key = block::record_key();
    lemma_least(queues, 2);
    law_least_comes_first(queues, 2);
    assert(queues[0] == p && queues[1] == q);
    let l = least(queues, 2)->0;
    let all = popped(queues);
    let rest = advanced(queues, l);
    lemma_total_update(queues, l, queues[l].skip(1));
    assert(all == seq![queues[l][0]] + popped(rest));
    order::lemma_key_irreflexive(b.key);
    if i > 0 {
        assert(order::key_lt(key(p[0]), key(p[i])));
        order::lemma_key_asymmetric(p[0].key, b.key);
    }
    if l == 0 {
        assert(all[0] == p[0]);
        assert(rest =~= seq![p.skip(1), q]);
        if i == 0 {
            0
        } else {
            assert(p[0] != b);
            let t = p.skip(1);
            assert forall|u: int, v: int|
                #![trigger t[u], t[v]]
                0 <= u < v < t.len() implies order::key_lt(key(t[u]), key(t[v])) by {
                assert(t[u] == p[u + 1] && t[v] == p[v + 1]);
            }
            assert(popped(rest)[y - 1] == all[y]);
            let x = lemma_first_queue_first(t, q, i - 1, b, y - 1);
            assert(all[x + 1] == popped(rest)[x]);
            x + 1
        }
    } else {
        assert(q[0].before(p[0]));
        assert(all[0] == q[0]);
        assert(rest =~= seq![p, q.skip(1)]);
        assert(q[0] != b);
        assert(popped(rest)[y - 1] == all[y]);
        let x = lemma_first_queue_first(p, q.skip(1), i, b, y - 1);
        assert(all[x + 1] == popped(rest)[x]);
        x + 1
    }
}

/// What a memtable has of a key is merged into a table in place of every record of the key
/// that is not newer: the memtable's own records are those that stay, also where the
/// table has one that is equally new.
pub proof fn law_memtable_before_table(
    m: Map<Seq<u8>, (record::RecordType, Seq<u8>)>,
    table: Seq<TimedRecord>,
    out: Seq<TimedRecord>,
) -> (rs: Seq<TimedRecord>)
    requires
        merges_memtable(m, table, out),
        keyed::sorted_by_key(table, block::record_key()),
    ensures
        keymap::lists(flush::unstamped(rs), m),
        forall|i: int|
            #![trigger rs[i]]
            0 <= i < rs.len() && (forall|j: int|
                0 <= j < table.len() && (#[trigger] table[j]).key == rs[i].key
                    ==> table[j].timestamp <= rs[i].timestamp) ==> out.contains(rs[i]),
{
    let rs = choose|rs: Seq<TimedRecord>| #[trigger]
        keymap::lists(flush::unstamped(rs), m) && out == merged_records(seq![rs, table]);
    let key = block::record_key();
    let queues = seq![rs, table];
    let pairs = flush::unstamped(rs);
    assert forall|a: int, b: int|
        #![trigger rs[a], rs[b]]
        0 <= a < b < rs.len() implies order::key_lt(key(rs[a]), key(rs[b])) by {
        assert(order::key_lt(pairs[a].0, pairs[b].0));
    }
    keyed::lemma_strict_is_sorted(rs, key);
    assert(queues[0] == rs && queues[1] == table);
    assert(queues_sorted(queues));
    law_merge_keeps_newest(queues);
    lemma_popped_sorted(queues);
    assert forall|i: int|
        #![trigger rs[i]]
        0 <= i < rs.len() && (forall|j: int|
            0 <= j < table.len() && (#[trigger] table[j]).key == rs[i].key ==> table[j].timestamp
                <= rs[i].timestamp) implies out.contains(rs[i]) by {
        lemma_memtable_record_stays(rs, table, i);
    }
    rs
}

proof fn lemma_memtable_record_stays(rs: Seq<TimedRecord>, table: Seq<TimedRecord>, i: int)
    requires
        keyed::strictly_sorted(rs, block::record_key()),
        keyed::sorted_by_key(table, block::record_key()),
        queues_sorted(seq![rs, table]),
        0 <= i < rs.len(),
        forall|j: int|
            0 <= j < table.len() && (#[trigger] table[j]).key == rs[i].key ==> table[j].timestamp
                <= rs[i].timestamp,
    ensures
        merged_records(seq![rs, table]).contains(rs[i]),
{
    let key = block::record_key();
    let queues = seq![rs, table];
    let all = popped(queues);
    let out = merged_records(queues);
    assert(queues[0] == rs && queues[1] == table);
    law_merge_keeps_newest(queues);
    lemma_popped_sorted(queues);
    assert(queues[0].contains(rs[i]));
    assert(queued(queues, rs[i]));
    assert(has_newer(out, rs[i]));
    let j = choose|j: int|
        0 <= j < out.len() && (#[trigger] out[j]).key == rs[i].key && out[j].timestamp
            >= rs[i].timestamp;
    let b = out[j];
    assert(queued(queues, b));
    let q = choose|q: int| 0 <= q < queues.len() && (#[trigger] queues[q]).contains(b);
    let k = choose|k: int| 0 <= k < queues[q].len() && queues[q][k] == b;
    order::lemma_key_irreflexive(b.key);
    if q == 0 {
        if k < i {
            assert(order::key_lt(key(rs[k]), key(rs[i])));
        } else if i < k {
            assert(order::key_lt(key(rs[i]), key(rs[k])));
        }
    } else if b != rs[i] {
        assert(table[k] == b);
        let y = law_first_of_newest_stays(all, j);
        let x = lemma_first_queue_first(rs, table, i, b, y);
        assert(all[x].key == all[y].key);
        assert(all[x].timestamp < all[y].timestamp);
    }
    assert(out[j] == rs[i]);
}

/// The records of blocks are those of each block, one block after the other.
pub proof fn law_block_records(blocks: Seq<TimedBlock>)
    ensures
        block_records(blocks) == Seq::new(
            blocks.len(),
            |i: int|
                match blocks[i].data {
                    Some(records) => records,
                    None => seq![],
                },
        ).flatten_alt(),
    decreases blocks.len(),
{
    let parts = Seq::new(
        blocks.len(),
        |i: int|
            match blocks[i].data {
                Some(records) => records,
                None => seq![],
            },
    );
    reveal_with_fuel(Seq::flatten_alt, 2);
    if blocks.len() > 0 {
        let front = blocks.drop_last();
        law_block_records(front);
        assert(parts.drop_last() =~= Seq::new(
            front.len(),
            |i: int|
                match front[i].data {
                    Some(records) => records,
                    None => seq![],
                },
        ));
        assert(blocks.last() == blocks[blocks.len() - 1]);
    }
}

proof fn lemma_timed_blocks_load(rs: Seq<TimedRecord>, words: Seq<u64>, hashes: u32, n: nat)
    requires
        timed_table::all_fit(rs),
        keyed::strictly_sorted(rs, block::record_key()),
        timed_table::timed_table(timed_table::timed_blocks(rs), words, hashes).len() <= u64::MAX,
        n <= timed_table::timed_blocks(rs).len(),
    ensures
        ({
            let blocks = timed_table::timed_blocks(rs);
            let r = sstable::timed_blocks_of(
                timed_table::timed_table(blocks, words, hashes),
                timed_table::timed_index(blocks),
                n,
            );
            &&& r matches Ok(bs)
            &&& bs.len() == n
            &&& block_records(bs) == timed_table::timed_records_of(blocks.take(n as int))
        }),
    decreases n,
{
    let blocks = timed_table::timed_blocks(rs);
    if n > 0 {
        lemma_timed_blocks_load(rs, words, hashes, (n - 1) as nat);
        timed_table::lemma_timed_block_sorted(rs, n - 1);
        timed_table::lemma_timed_block_found(rs, words, hashes, n - 1);
        let s = timed_table::timed_table(blocks, words, hashes);
        let index = timed_table::timed_index(blocks);
        let front = sstable::timed_blocks_of(s, index, (n - 1) as nat)->Ok_0;
        let bs = sstable::timed_blocks_of(s, index, n)->Ok_0;
        assert(bs.drop_last() =~= front);
        assert(blocks.take(n as int).drop_last() =~= blocks.take(n - 1));
        assert(blocks.take(n as int).last() == blocks[n - 1]);
    } else {
        assert(blocks.take(0) =~= seq![]);
    }
}

/// A table of timestamped records that was written is loaded with the records that it was
/// made of, in their order.
pub proof fn law_timed_table_loads_back(rs: Seq<TimedRecord>, words: Seq<u64>, hashes: u32)
    requires
        timed_table::all_fit(rs),
        keyed::strictly_sorted(rs, block::record_key()),
        timed_table::timed_table(timed_table::timed_blocks(rs), words, hashes).len() <= u64::MAX,
    ensures
        ({
            let blocks = timed_table::timed_blocks(rs);
            let index = timed_table::timed_index(blocks);
            sstable::timed_blocks_of(
                timed_table::timed_table(blocks, words, hashes),
                index,
                index.len(),
            ) matches Ok(bs) && block_records(bs) == rs
        }),
{
    let blocks = timed_table::timed_blocks(rs);
    timed_table::law_timed_pack_keeps_records(rs);
    lemma_timed_blocks_load(rs, words, hashes, blocks.len());
    assert(blocks.take(blocks.len() as int) =~= blocks);
}

/// What is left of records starts with the one that is next, and holds those behind it.
pub proof fn law_left_of_records(records: Seq<TimedRecord>, at: usize)
    ensures
        left_of(records, 0) == records,
        left_of(records, at).len() == if at <= records.len() {
            records.len() - at
        } else {
            0
        },
        forall|i: int|
            0 <= i < left_of(records, at).len() ==> #[trigger] left_of(records, at)[i]
                == records[at + i],
{
}

/// Tables are merged in the order in which they are given, each with its own records.
pub proof fn law_table_has_its_queue(tables: Seq<Vec<Block>>, more: Seq<Vec<Block>>, t: Vec<Block>)
    ensures
        table_queues(tables + seq![t] + more) == table_queues(tables) + seq![
            block_records(keyed::views(t@)),
        ] + table_queues(more),
{
    assert(table_queues(tables + seq![t] + more) =~= table_queues(tables) + seq![
        block_records(keyed::views(t@)),
    ] + table_queues(more));
}

} // verus!
