//! The log directory as a whole: which entries its segments have, and that recovery reads
//! just these.
use vstd::prelude::*;
use crate::error::IoFailure;
use crate::order;
use crate::storage::keyed;
use crate::storage::keymap;
use crate::storage::log_format;
use crate::storage::log_format::{Coverage, LogEntry};
use crate::storage::record::RecordType;
use crate::storage::recovermanager::segment;
use crate::storage::recovermanager::wal;
use crate::storage::recovermanager::wal::{OpenView, WalView};
use crate::text;

verus! {

/// What a log directory has: which segments there are, and the bytes of each file.
#[verifier::ext_equal]
pub struct LogDir {
    pub wal: WalView,
    pub files: Map<Seq<char>, Seq<u8>>,
}

/// The bytes of a file, none where it is not there.
pub open spec fn bytes_of(files: Map<Seq<char>, Seq<u8>>, name: Seq<char>) -> Seq<u8> {
    if files.dom().contains(name) {
        files[name]
    } else {
        seq![]
    }
}

/// The files once a segment was opened: its file is made where it is not there, and what
/// is written first goes behind what it has.
pub open spec fn opened(files: Map<Seq<char>, Seq<u8>>, open: OpenView) -> Map<
    Seq<char>,
    Seq<u8>,
> {
    files.insert(
        open.filename,
        bytes_of(files, open.filename) + match open.header {
            Some(header) => header,
            None => seq![],
        },
    )
}

/// The bytes of a segment with these entries.
pub open spec fn segment_bytes(run: Seq<LogEntry>) -> Seq<u8> {
    wal::default_header().bytes() + log_format::log_bytes(run, Coverage::Body)
}

/// The names of segments.
pub open spec fn names_of(ids: Seq<u64>) -> Seq<Seq<char>> {
    Seq::new(ids.len(), |i: int| segment::segment_name(ids[i]))
}

/// The numbers of segments in ascending order.
pub open spec fn ascending(ids: Seq<u64>) -> bool {
    forall|i: int, j: int| #![trigger ids[i], ids[j]] 0 <= i < j < ids.len() ==> ids[i] < ids[j]
}

/// The numbers of the segments once one more entry was logged, in a new segment where the
/// last one was full.
pub open spec fn grown_ids(ids: Seq<u64>, full: bool) -> Seq<u64> {
    if full {
        ids.push((ids.last() + 1) as u64)
    } else {
        ids
    }
}

/// The numbers of the segments once the log was rotated: a new one takes the place of the
/// last one.
pub open spec fn rotated_ids(ids: Seq<u64>) -> Seq<u64> {
    ids.drop_last().push((ids.last() + 1) as u64)
}

/// The runs of entries of the segments once the log was rotated.
pub open spec fn rotated_runs(runs: Seq<Seq<LogEntry>>) -> Seq<Seq<LogEntry>> {
    runs.drop_last().push(seq![])
}

/// The runs of entries of the segments once one more entry was logged, in a new segment
/// where the last one was full.
pub open spec fn grown(runs: Seq<Seq<LogEntry>>, full: bool, e: LogEntry) -> Seq<Seq<LogEntry>> {
    if full {
        runs.push(seq![e])
    } else {
        runs.update(runs.len() - 1, runs.last().push(e))
    }
}

impl LogDir {
    /// A new log directory.
    pub open spec fn fresh(max_segment_size: u64) -> LogDir {
        LogDir {
            wal: WalView {
                active: 0,
                sealed: seq![],
                reserved: seq![],
                max_segment_size,
            },
            files: opened(Map::empty(), wal::fresh_segment(0)),
        }
    }

    /// The active segment is full.
    pub open spec fn full(self) -> bool {
        self.wal.full(bytes_of(self.files, segment::segment_name(self.wal.active)).len())
    }

    /// The directory once an entry was logged.
    pub open spec fn appended(self, e: LogEntry) -> LogDir {
        let wal = if self.full() {
            self.wal.next()
        } else {
            self.wal
        };
        let files = if self.full() {
            opened(self.files, wal::fresh_segment(wal.active))
        } else {
            self.files
        };
        let name = segment::segment_name(wal.active);
        LogDir { wal, files: files.insert(name, bytes_of(files, name) + e.bytes(Coverage::Body)) }
    }

    /// The directory once the log was rotated: the file that the rotation names is gone,
    /// and a new segment is open.
    pub open spec fn rotated(self) -> LogDir {
        let wal = self.wal.rotated();
        LogDir {
            wal,
            files: opened(
                self.files.remove(segment::segment_name(self.wal.active)),
                wal::fresh_segment(wal.active),
            ),
        }
    }

    /// The files of the directory are the segments with these numbers and these runs of
    /// entries. The last one is the active one.
    pub open spec fn holds(self, ids: Seq<u64>, runs: Seq<Seq<LogEntry>>) -> bool {
        &&& runs.len() > 0
        &&& ids.len() == runs.len()
        &&& ascending(ids)
        &&& self.wal.active == ids.last()
        &&& forall|name: Seq<char>| #[trigger]
            self.files.dom().contains(name) ==> names_of(ids).contains(name)
        &&& forall|i: int| 0 <= i < runs.len() ==> self.has_run(ids[i], #[trigger] runs[i])
    }

    /// The segment with this number has this run of entries.
    pub open spec fn has_run(self, id: u64, run: Seq<LogEntry>) -> bool {
        self.files.dom().contains(segment::segment_name(id)) && self.files[segment::segment_name(id)]
            == segment_bytes(run)
    }
}

/// Segments with different numbers have different names.
proof fn lemma_names_differ(a: u64, b: u64)
    requires
        segment::segment_name(a) == segment::segment_name(b),
    ensures
        a == b,
{
    segment::law_segment_number(a);
    segment::law_segment_number(b);
}

/// One more entry at the end of a log.
proof fn lemma_log_grows(run: Seq<LogEntry>, e: LogEntry)
    ensures
        log_format::log_bytes(run.push(e), Coverage::Body) == log_format::log_bytes(
            run,
            Coverage::Body,
        ) + e.bytes(Coverage::Body),
    decreases run.len(),
{
    let c = Coverage::Body;
    let all = run.push(e);
    if run.len() == 0 {
        assert(all.skip(1) =~= seq![]);
        assert(log_format::log_bytes(all.skip(1), c) =~= seq![]);
        assert(log_format::log_bytes(all, c) =~= e.bytes(c));
        assert(log_format::log_bytes(run, c) + e.bytes(c) =~= e.bytes(c));
    } else {
        lemma_log_grows(run.skip(1), e);
        assert(all.skip(1) =~= run.skip(1).push(e));
        assert(all[0] == run[0]);
        assert(log_format::log_bytes(all, c) =~= log_format::log_bytes(run, c) + e.bytes(c));
    }
}

/// A segment without entries is its header.
proof fn lemma_empty_segment()
    ensures
        segment_bytes(seq![]) == wal::default_header().bytes(),
{
    assert(log_format::log_bytes(seq![], Coverage::Body) =~= seq![]);
    assert(segment_bytes(seq![]) =~= wal::default_header().bytes());
}

/// What a new log directory has.
pub proof fn law_fresh_log(max_segment_size: u64)
    ensures
        LogDir::fresh(max_segment_size).holds(seq![0u64], seq![seq![]]),
{
    let d = LogDir::fresh(max_segment_size);
    lemma_empty_segment();
    assert(seq![] + wal::default_header().bytes() =~= wal::default_header().bytes());
    assert(names_of(seq![0u64])[0] == segment::segment_name(0));
}

/// Runs that agree on the first `n` join to the same.
proof fn lemma_joined_front(a: Seq<Seq<LogEntry>>, b: Seq<Seq<LogEntry>>, n: nat)
    requires
        n <= a.len(),
        n <= b.len(),
        forall|i: int| 0 <= i < n ==> a[i] == b[i],
    ensures
        wal::joined(a, n) == wal::joined(b, n),
    decreases n,
{
    if n > 0 {
        lemma_joined_front(a, b, (n - 1) as nat);
    }
}

/// The segment behind the last one is not there yet.
proof fn lemma_next_is_new(d: LogDir, ids: Seq<u64>, runs: Seq<Seq<LogEntry>>)
    requires
        d.holds(ids, runs),
        d.wal.active < u64::MAX,
    ensures
        !d.files.dom().contains(segment::segment_name((d.wal.active + 1) as u64)),
        forall|i: int|
            0 <= i < ids.len() ==> segment::segment_name(#[trigger] ids[i])
                != segment::segment_name((d.wal.active + 1) as u64),
{
    let new = (d.wal.active + 1) as u64;
    assert forall|i: int| 0 <= i < ids.len() implies segment::segment_name(#[trigger] ids[i])
        != segment::segment_name(new) by {
        if segment::segment_name(ids[i]) == segment::segment_name(new) {
            lemma_names_differ(ids[i], new);
            assert(i < ids.len() - 1 ==> ids[i] < ids[ids.len() - 1]);
        }
    }
    if d.files.dom().contains(segment::segment_name(new)) {
        let i = choose|i: int| 0 <= i < ids.len() && names_of(ids)[i] == segment::segment_name(new);
        assert(segment::segment_name(ids[i]) == segment::segment_name(new));
    }
}

/// Logging an entry keeps what the segments have and adds the entry behind it.
pub proof fn law_logged_entry_is_kept(
    d: LogDir,
    ids: Seq<u64>,
    runs: Seq<Seq<LogEntry>>,
    e: LogEntry,
)
    requires
        d.holds(ids, runs),
        d.wal.active < u64::MAX,
    ensures
        d.appended(e).holds(grown_ids(ids, d.full()), grown(runs, d.full(), e)),
        wal::joined(grown(runs, d.full(), e), grown(runs, d.full(), e).len()) == wal::joined(
            runs,
            runs.len(),
        ).push(e),
{
    let after = d.appended(e);
    let more = grown(runs, d.full(), e);
    let now = grown_ids(ids, d.full());
    let n = runs.len();
    let last = n - 1;
    assert(d.has_run(ids[last], runs[last]));
    lemma_empty_segment();
    let name = segment::segment_name(after.wal.active);
    assert forall|m: Seq<char>| #[trigger] after.files.dom().contains(m) implies names_of(
        now,
    ).contains(m) by {
        if m == name {
            assert(names_of(now)[now.len() - 1] == name);
        } else {
            assert(d.files.dom().contains(m));
            let i = choose|i: int| 0 <= i < n && names_of(ids)[i] == m;
            assert(names_of(now)[i] == m);
        }
    }
    if d.full() {
        lemma_next_is_new(d, ids, runs);
        lemma_log_grows(seq![], e);
        assert(seq![].push(e) =~= seq![e]);
        assert(seq![] + wal::default_header().bytes() =~= wal::default_header().bytes());
        assert(wal::default_header().bytes() + e.bytes(Coverage::Body) =~= segment_bytes(seq![e]));
        assert forall|i: int| 0 <= i < more.len() implies after.has_run(
            now[i],
            #[trigger] more[i],
        ) by {
            if i < n {
                assert(d.has_run(ids[i], runs[i]));
                assert(now[i] == ids[i]);
            }
        }
        assert(ascending(now)) by {
            assert forall|i: int, j: int| #![trigger now[i], now[j]] 0 <= i < j < now.len()
                implies now[i] < now[j] by {
                assert(now[i] == ids[i]);
                assert(i < n - 1 ==> ids[i] < ids[n - 1]);
                if j < n {
                    assert(now[j] == ids[j]);
                }
            }
        }
        lemma_joined_front(more, runs, n);
        assert(wal::joined(more, n + 1) =~= wal::joined(runs, n).push(e));
    } else {
        lemma_log_grows(runs.last(), e);
        assert(segment_bytes(runs.last()) + e.bytes(Coverage::Body) =~= segment_bytes(
            runs.last().push(e),
        ));
        assert forall|i: int| 0 <= i < more.len() implies after.has_run(
            now[i],
            #[trigger] more[i],
        ) by {
            if i < last {
                assert(d.has_run(ids[i], runs[i]));
                assert(ids[i] < ids[last]);
                if segment::segment_name(ids[i]) == name {
                    lemma_names_differ(ids[i], d.wal.active);
                }
            }
        }
        lemma_joined_front(more, runs, last as nat);
        assert(wal::joined(more, n) =~= wal::joined(runs, n).push(e));
    }
}

/// A rotation takes the entries of the last segment out of the log and keeps those of the
/// others.
pub proof fn law_rotation_empties_segment(d: LogDir, ids: Seq<u64>, runs: Seq<Seq<LogEntry>>)
    requires
        d.holds(ids, runs),
        d.wal.active < u64::MAX,
    ensures
        d.rotated().holds(rotated_ids(ids), rotated_runs(runs)),
        wal::joined(rotated_runs(runs), runs.len()) == wal::joined(runs, (runs.len() - 1) as nat),
{
    let after = d.rotated();
    let now = rotated_ids(ids);
    let left = rotated_runs(runs);
    let n = runs.len();
    let old = segment::segment_name(d.wal.active);
    let new = segment::segment_name(after.wal.active);
    lemma_next_is_new(d, ids, runs);
    lemma_empty_segment();
    assert(seq![] + wal::default_header().bytes() =~= wal::default_header().bytes());
    assert forall|m: Seq<char>| #[trigger] after.files.dom().contains(m) implies names_of(
        now,
    ).contains(m) by {
        if m == new {
            assert(names_of(now)[n - 1] == new);
        } else {
            assert(d.files.dom().contains(m));
            let i = choose|i: int| 0 <= i < n && names_of(ids)[i] == m;
            assert(i < n - 1);
            assert(names_of(now)[i] == m);
        }
    }
    assert forall|i: int| 0 <= i < left.len() implies after.has_run(now[i], #[trigger] left[i]) by {
        if i < n - 1 {
            assert(d.has_run(ids[i], runs[i]));
            assert(ids[i] < ids[n - 1]);
            assert(segment::segment_name(ids[i]) != new);
            if segment::segment_name(ids[i]) == old {
                lemma_names_differ(ids[i], d.wal.active);
            }
        }
    }
    assert forall|i: int, j: int| #![trigger now[i], now[j]] 0 <= i < j < now.len() implies now[i]
        < now[j] by {
        assert(now[i] == ids[i]);
        assert(ids[i] < ids[n - 1]);
        if j < n - 1 {
            assert(now[j] == ids[j]);
        }
    }
    lemma_joined_front(left, runs, (n - 1) as nat);
    assert(wal::joined(left, n) =~= wal::joined(runs, (n - 1) as nat));
}

/// Characters are ordered by their numbers.
proof fn lemma_char_order(a: char, b: char)
    requires
        a < b,
    ensures
        (a as u32) < (b as u32),
{
}

/// A text of ASCII characters that comes before another one does so byte by byte.
proof fn lemma_text_order(a: Seq<char>, b: Seq<char>, k: int)
    requires
        text::ascii(a),
        text::ascii(b),
        segment::text_lt_at(a, b, k),
    ensures
        order::key_lt(vstd::utf8::encode_utf8(a), vstd::utf8::encode_utf8(b)),
    decreases k,
{
    let (x, y) = (vstd::utf8::encode_utf8(a), vstd::utf8::encode_utf8(b));
    let p = b[0] as u32;
    assert(p & 0x7F == p) by (bit_vector)
        requires
            p < 128,
    ;
    assert(p as u8 == p);
    assert(y =~= seq![p as u8] + vstd::utf8::encode_utf8(b.drop_first()));
    if a.len() > 0 {
        let q = a[0] as u32;
        assert(q & 0x7F == q) by (bit_vector)
            requires
                q < 128,
        ;
        assert(q as u8 == q);
        assert(x =~= seq![q as u8] + vstd::utf8::encode_utf8(a.drop_first()));
        assert(x.drop_first() =~= vstd::utf8::encode_utf8(a.drop_first()));
        assert(y.drop_first() =~= vstd::utf8::encode_utf8(b.drop_first()));
        if k > 0 {
            assert(a.take(k)[0] == b.take(k)[0]);
            let (c, d) = (a.drop_first(), b.drop_first());
            assert(c.take(k - 1) =~= a.take(k).drop_first());
            assert(d.take(k - 1) =~= b.take(k).drop_first());
            assert forall|i: int| 0 <= i < c.len() implies (#[trigger] c[i] as u32) < 128 by {
                assert(c[i] == a[i + 1]);
            }
            assert forall|i: int| 0 <= i < d.len() implies (#[trigger] d[i] as u32) < 128 by {
                assert(d[i] == b[i + 1]);
            }
            lemma_text_order(c, d, k - 1);
            assert(x[0] == y[0]);
        } else {
            lemma_char_order(a[0], b[0]);
            assert(x[0] < y[0]);
        }
    } else {
        assert(x.len() == 0);
        assert(y.len() > 0);
    }
}

/// Numbers are written in ASCII.
proof fn lemma_padded_ascii(n: nat, width: nat)
    ensures
        text::ascii(text::decimal_padded(n, width)),
    decreases width,
{
    if width > 0 {
        lemma_padded_ascii(n / 10, (width - 1) as nat);
    }
}

/// The names of segments come one after the other in the order of their bytes.
proof fn lemma_name_order(a: u64, b: u64)
    requires
        a < b,
    ensures
        order::key_lt(
            vstd::utf8::encode_utf8(segment::segment_name(a)),
            vstd::utf8::encode_utf8(segment::segment_name(b)),
        ),
{
    reveal_strlit(".log");
    lemma_padded_ascii(a as nat, 20);
    lemma_padded_ascii(b as nat, 20);
    segment::law_names_sort_by_number(a, b);
    let (x, y) = (segment::segment_name(a), segment::segment_name(b));
    let k = choose|k: int| segment::text_lt_at(x, y, k);
    lemma_text_order(x, y, k);
}

/// Names with the bytes by which they are sorted.
spec fn keyed_names(names: Seq<Seq<char>>) -> Seq<(Seq<u8>, Seq<char>)> {
    Seq::new(names.len(), |i: int| (vstd::utf8::encode_utf8(names[i]), names[i]))
}

/// A listing of the log directory in any order is sorted into the order of the numbers.
pub proof fn law_segments_sorted(ids: Seq<u64>, listing: Seq<Seq<char>>)
    requires
        ascending(ids),
        listing.no_duplicates(),
        listing.to_set() == names_of(ids).to_set(),
    ensures
        wal::sorted_log_names(listing) == names_of(ids),
{
    let n = ids.len();
    let key = |m: Seq<char>| vstd::utf8::encode_utf8(m);
    let pred = |m: Seq<char>| text::has_suffix(m, ".log"@);
    let target = names_of(ids);
    assert forall|i: int| 0 <= i < listing.len() implies pred(#[trigger] listing[i]) by {
        assert(listing.to_set().contains(listing[i]));
        assert(target.contains(listing[i]));
        let j = choose|j: int| 0 <= j < n && target[j] == listing[i];
        segment::law_segment_number(ids[j]);
    }
    lemma_all_kept(listing, pred);
    let out = keyed::stable_sort(listing, key);
    keyed::law_sort_keeps_all(listing, key);
    keyed::law_sort_ascends(listing, key);
    broadcast use vstd::seq_lib::group_to_multiset_ensures;

    listing.lemma_multiset_has_no_duplicates();
    out.lemma_multiset_has_no_duplicates_conv();
    assert forall|m: Seq<char>| out.contains(m) == target.contains(m) by {
        assert(out.contains(m) == (out.to_multiset().count(m) > 0));
        assert(listing.contains(m) == (listing.to_multiset().count(m) > 0));
        assert(listing.to_set().contains(m) == listing.contains(m));
        assert(target.to_set().contains(m) == target.contains(m));
    }
    let (p, q) = (keyed_names(out), keyed_names(target));
    assert forall|i: int, j: int| #![trigger p[i], p[j]] 0 <= i < j < p.len() implies order::key_lt(
        p[i].0,
        p[j].0,
    ) by {
        assert(order::key_le(key(out[i]), key(out[j])));
        if key(out[i]) == key(out[j]) {
            vstd::utf8::encode_utf8_decode_utf8(out[i]);
            vstd::utf8::encode_utf8_decode_utf8(out[j]);
            assert(out[i] == out[j]);
        }
    }
    assert forall|i: int, j: int| #![trigger q[i], q[j]] 0 <= i < j < q.len() implies order::key_lt(
        q[i].0,
        q[j].0,
    ) by {
        assert(ids[i] < ids[j]);
        lemma_name_order(ids[i], ids[j]);
    }
    lemma_same_listing(out, target);
    lemma_same_listing(target, out);
    assert(keymap::listed(p) =~= keymap::listed(q));
    keymap::law_listing_unique(p, q);
    assert(out =~= target) by {
        assert(p.len() == q.len());
        assert forall|i: int| 0 <= i < out.len() implies out[i] == target[i] by {
            assert(p[i].1 == q[i].1);
        }
    }
}

/// Names that are among others are listed as those are.
proof fn lemma_same_listing(a: Seq<Seq<char>>, b: Seq<Seq<char>>)
    requires
        forall|m: Seq<char>| #[trigger] a.contains(m) ==> b.contains(m),
        keymap::ascending(keyed_names(a)),
        keymap::ascending(keyed_names(b)),
    ensures
        forall|k: Seq<u8>|
            #[trigger] keymap::has_key(keyed_names(a), k) ==> keymap::has_key(keyed_names(b), k)
                && keymap::listed(keyed_names(a))[k] == keymap::listed(keyed_names(b))[k],
{
    let (p, q) = (keyed_names(a), keyed_names(b));
    assert forall|k: Seq<u8>| #[trigger] keymap::has_key(p, k) implies keymap::has_key(q, k)
        && keymap::listed(p)[k] == keymap::listed(q)[k] by {
        let i = keymap::place(p, k);
        assert(p[i].0 == k);
        keymap::lemma_listed(p, i);
        assert(a.contains(a[i]));
        let j = choose|j: int| 0 <= j < b.len() && b[j] == a[i];
        assert(q[j].0 == k);
        keymap::lemma_listed(q, j);
    }
}

/// Where all are kept, a filter changes nothing.
proof fn lemma_all_kept(s: Seq<Seq<char>>, pred: spec_fn(Seq<char>) -> bool)
    requires
        forall|i: int| 0 <= i < s.len() ==> pred(#[trigger] s[i]),
    ensures
        s.filter(pred) == s,
    decreases s.len(),
{
    reveal_with_fuel(Seq::filter, 1);
    if s.len() > 0 {
        let t = s.drop_last();
        assert forall|i: int| 0 <= i < t.len() implies pred(#[trigger] t[i]) by {
            assert(t[i] == s[i]);
        }
        lemma_all_kept(t, pred);
        assert(s[s.len() - 1] == s.last());
        assert(t.push(s.last()) =~= s);
    } else {
        assert(s.filter(pred) =~= s);
    }
}

/// The greatest number among names is not below any of them, and is that of one of them.
proof fn lemma_max_segment(names: Seq<Seq<char>>)
    ensures
        forall|i: int|
            0 <= i < names.len() ==> (segment::segment_number(#[trigger] names[i]) matches Some(id)
                ==> id <= wal::max_segment(names)),
        wal::max_segment(names) == 0 || exists|i: int|
            0 <= i < names.len() && segment::segment_number(#[trigger] names[i]) == Some(
                wal::max_segment(names),
            ),
    decreases names.len(),
{
    if names.len() > 0 {
        let front = names.drop_last();
        lemma_max_segment(front);
        assert(names[names.len() - 1] == names.last());
        assert forall|i: int| 0 <= i < names.len() implies (segment::segment_number(
            #[trigger] names[i],
        ) matches Some(id) ==> id <= wal::max_segment(names)) by {
            if i < front.len() {
                assert(front[i] == names[i]);
            }
        }
        if wal::max_segment(names) == wal::max_segment(front) && wal::max_segment(front) != 0 {
            let i = choose|i: int|
                0 <= i < front.len() && segment::segment_number(#[trigger] front[i]) == Some(
                    wal::max_segment(front),
                );
            assert(names[i] == front[i]);
        }
    }
}

/// The files of the directory are named after the segments.
pub proof fn lemma_files_named(d: LogDir, ids: Seq<u64>, runs: Seq<Seq<LogEntry>>)
    requires
        d.holds(ids, runs),
    ensures
        d.files.dom() == names_of(ids).to_set(),
{
    let names = names_of(ids);
    assert forall|name: Seq<char>| names.contains(name) implies d.files.dom().contains(name) by {
        let i = choose|i: int| 0 <= i < names.len() && names[i] == name;
        assert(d.has_run(ids[i], runs[i]));
    }
    assert(d.files.dom() =~= names.to_set());
}

/// A manager that is made for the directory anew goes on with the active segment.
pub proof fn law_log_reopened(
    d: LogDir,
    ids: Seq<u64>,
    runs: Seq<Seq<LogEntry>>,
    listing: Seq<Seq<char>>,
)
    requires
        d.holds(ids, runs),
        listing.to_set() == d.files.dom(),
    ensures
        wal::max_segment(listing) == d.wal.active,
{
    let n = ids.len();
    let names = names_of(ids);
    lemma_files_named(d, ids, runs);
    lemma_max_segment(listing);
    let active = segment::segment_name(d.wal.active);
    assert(names[n - 1] == active);
    assert(names.contains(active));
    assert(listing.to_set().contains(active));
    let i = choose|i: int| 0 <= i < listing.len() && listing[i] == active;
    segment::law_segment_number(d.wal.active);
    assert(segment::segment_number(listing[i]) == Some(d.wal.active));
    let max = wal::max_segment(listing);
    if max > d.wal.active {
        let j = choose|j: int|
            0 <= j < listing.len() && segment::segment_number(#[trigger] listing[j]) == Some(max);
        assert(listing.to_set().contains(listing[j]));
        let k = choose|k: int| 0 <= k < n && names[k] == listing[j];
        segment::law_segment_number(ids[k]);
        assert(k < n - 1 ==> ids[k] < ids[n - 1]);
    }
}

/// The files of the directory in the order in which they are recovered.
pub open spec fn files_in_order(d: LogDir, ids: Seq<u64>) -> Seq<Seq<u8>> {
    Seq::new(ids.len(), |i: int| d.files[segment::segment_name(ids[i])])
}

/// Recovery of the directory gives the entries that its segments have.
pub proof fn law_log_read_back(d: LogDir, ids: Seq<u64>, runs: Seq<Seq<LogEntry>>)
    requires
        d.holds(ids, runs),
        forall|i: int, j: int|
            0 <= i < runs.len() && 0 <= j < runs[i].len() ==> log_format::loggable(
                #[trigger] runs[i][j],
            ),
    ensures
        wal::all_entries(files_in_order(d, ids), runs.len()) == Ok::<_, IoFailure>(
            wal::joined(runs, runs.len()),
        ),
{
    let files = files_in_order(d, ids);
    assert forall|i: int| 0 <= i < files.len() implies wal::is_segment(
        #[trigger] files[i],
        runs[i],
    ) by {
        assert(d.has_run(ids[i], runs[i]));
        lemma_whole_segment(runs[i]);
    }
    wal::law_recovery_across_segments(files, runs, runs.len());
}

/// A segment behind which nothing stands is a segment.
pub proof fn lemma_whole_segment(run: Seq<LogEntry>)
    ensures
        wal::is_segment(segment_bytes(run), run),
{
    let torn = LogEntry { record_type: RecordType::Put, lsn: 0, key: seq![], value: seq![] };
    let s = segment_bytes(run);
    assert(s =~= s + torn.bytes(Coverage::Body).take(0));
}

} // verus!
