//! Read resolution: the memtable first, then the tables, level by level.
use vstd::prelude::*;
use vstd::string::*;
use crate::bytes;
use crate::error::DBError;
use crate::order;
use crate::storage::keyed;
use crate::storage::keymap;
use crate::storage::keymap::KeyMap;
use crate::storage::manifest_codec::MetaView;
use crate::storage::manifest_state;
use crate::storage::manifest_state::{LevelMetas, ManifestSnapshot};
use crate::storage::memtable;
use crate::storage::memtable::{Memtable, Slot, SlotView};
use crate::storage::readmanager::range;
use crate::storage::readmanager::range::{collect_range_bounds, key_in_range, ranges_overlap,
    KeyRange, RangeView};
use crate::storage::readmanager::table;
use crate::storage::readmanager::table::read_table_range;
use crate::storage::record::{MemtableRecord, RecordType, Version};
use crate::storage::sstable_codec;
use crate::storage::writemanager::latest;

verus! {

/// The files of a level, the oldest first.
pub struct LevelFiles {
    pub level: u32,
    pub paths: Vec<String>,
}

/// What the files of a level are.
#[verifier::ext_equal]
pub struct LevelView {
    pub level: u32,
    pub paths: Seq<Seq<char>>,
}

impl View for LevelFiles {
    type V = LevelView;

    open spec fn view(&self) -> LevelView {
        LevelView {
            level: self.level,
            paths: Seq::new(self.paths@.len(), |i: int| self.paths@[i]@),
        }
    }
}

/// The files of a level that the manifest lists.
pub open spec fn level_view(l: LevelMetas) -> LevelView {
    LevelView { level: l.level, paths: paths_of(keyed::views(l.files@)) }
}

/// The paths of tables.
pub open spec fn paths_of(metas: Seq<MetaView>) -> Seq<Seq<char>> {
    Seq::new(metas.len(), |i: int| metas[i].path)
}

/// The files that a lookup goes through: those of all levels, in the order of the
/// manifest.
pub fn level_files(snapshot: &ManifestSnapshot) -> (levels: Vec<LevelFiles>)
    ensures
        keyed::views(levels@) == Seq::new(
            snapshot.levels@.len(),
            |i: int| level_view(snapshot.levels@[i]),
        ),
{
    let ghost all = Seq::new(snapshot.levels@.len(), |i: int| level_view(snapshot.levels@[i]));
    let mut levels: Vec<LevelFiles> = Vec::new();
    let mut i: usize = 0;
    while i < snapshot.levels.len()
        invariant
            i <= snapshot.levels@.len(),
            all == Seq::new(snapshot.levels@.len(), |i: int| level_view(snapshot.levels@[i])),
            keyed::views(levels@) == all.take(i as int),
        decreases snapshot.levels@.len() - i,
    {
        let l = &snapshot.levels[i];
        let ghost names = level_view(*l).paths;
        let mut paths: Vec<String> = Vec::new();
        let mut j: usize = 0;
        while j < l.files.len()
            invariant
                j <= l.files@.len(),
                names == paths_of(keyed::views(l.files@)),
                keyed::views(paths@) == names.take(j as int),
            decreases l.files@.len() - j,
        {
            let ghost before = keyed::views(paths@);
            paths.push(l.files[j].path.clone());
            proof {
                assert(keyed::views(paths@) =~= before.push(names[j as int]));
                assert(names.take(j + 1) =~= names.take(j as int).push(names[j as int]));
            }
            j = j + 1;
        }
        let ghost before = keyed::views(levels@);
        levels.push(LevelFiles { level: l.level, paths });
        proof {
            let last = levels@.last()@;
            assert(last.paths =~= keyed::views(paths@));
            assert(last =~= all[i as int]);
            assert(keyed::views(levels@) =~= before.push(last));
            assert(all.take(i + 1) =~= all.take(i as int).push(all[i as int]));
        }
        i = i + 1;
    }
    assert(all.take(i as int) =~= all);
    levels
}

/// What to do next in a lookup.
pub enum GetStep {
    /// Look the key up in the table at this path.
    Probe(String),
    /// The lookup is over.
    Done(Option<MemtableRecord>),
}

/// What to do next in a lookup.
pub enum StepView {
    Probe(Seq<char>),
    Done(Option<Version>),
}

impl View for GetStep {
    type V = StepView;

    open spec fn view(&self) -> StepView {
        match *self {
            GetStep::Probe(path) => StepView::Probe(path@),
            GetStep::Done(r) => StepView::Done(memtable::opt_version(r)),
        }
    }
}

/// A lookup under way.
#[verifier::ext_equal]
pub struct SearchView {
    /// The levels that are searched.
    pub levels: Seq<LevelView>,
    /// The level that is searched now.
    pub level_at: nat,
    /// How many of its files have been searched.
    pub file_at: nat,
    /// The newest record that was found in this level.
    pub best: Option<Version>,
    /// The answer, once it is known.
    pub answer: Option<Option<Version>>,
}

/// A record, unless it deletes its key.
pub open spec fn live(v: Version) -> Option<Version> {
    if v.record_type == RecordType::Delete {
        None
    } else {
        Some(v)
    }
}

/// The newer of two records; of two that are equally new the first.
pub open spec fn newer(best: Option<Version>, found: Option<Version>) -> Option<Version> {
    match (best, found) {
        (_, None) => best,
        (None, Some(_)) => found,
        (Some(b), Some(f)) => if f.lsn > b.lsn {
            found
        } else {
            best
        },
    }
}

impl SearchView {
    /// The lookup with the levels that are searched through behind it. A record that
    /// was found in level 0 is the answer once all files of that level have been
    /// searched.
    pub open spec fn settled(self) -> SearchView
        decreases self.levels.len() - self.level_at,
    {
        if self.answer is Some || self.level_at >= self.levels.len() || self.file_at
            < self.levels[self.level_at as int].paths.len() {
            self
        } else {
            match self.best {
                Some(v) => SearchView { answer: Some(live(v)), ..self },
                None => (SearchView {
                    level_at: self.level_at + 1,
                    file_at: 0,
                    ..self
                }).settled(),
            }
        }
    }

    /// What to do next.
    pub open spec fn step(self) -> StepView {
        match self.answer {
            Some(r) => StepView::Done(r),
            None => if self.level_at >= self.levels.len() {
                StepView::Done(None)
            } else {
                let l = self.levels[self.level_at as int];
                StepView::Probe(
                    if l.level == 0 {
                        l.paths[self.file_at as int]
                    } else {
                        l.paths[l.paths.len() - 1 - self.file_at]
                    },
                )
            },
        }
    }

    /// The lookup once the table that was asked for has answered. In level 0 all
    /// files are searched and the newest record counts; in the other levels the
    /// first record that is found.
    pub open spec fn told(self, found: Option<Version>) -> SearchView {
        let l = self.levels[self.level_at as int];
        if l.level == 0 {
            (SearchView {
                best: newer(self.best, found),
                file_at: self.file_at + 1,
                ..self
            }).settled()
        } else {
            match found {
                Some(v) => SearchView { answer: Some(live(v)), ..self },
                None => (SearchView { file_at: self.file_at + 1, ..self }).settled(),
            }
        }
    }
}

/// A lookup of one key: the memtable first, then the levels in ascending order.
pub struct TableSearch {
    levels: Vec<LevelFiles>,
    level_at: usize,
    file_at: usize,
    best: Option<MemtableRecord>,
    answer: Option<Option<MemtableRecord>>,
}

impl View for TableSearch {
    type V = SearchView;

    closed spec fn view(&self) -> SearchView {
        SearchView {
            levels: keyed::views(self.levels@),
            level_at: self.level_at as nat,
            file_at: self.file_at as nat,
            best: memtable::opt_version(self.best),
            answer: match self.answer {
                Some(r) => Some(memtable::opt_version(r)),
                None => None,
            },
        }
    }
}

impl TableSearch {
    /// Starts the lookup of `key` as of `sequence_number`: what the memtable has is
    /// the answer, be it the mark of a deletion; if it has nothing, the levels are
    /// searched in the order in which they are given.
    pub fn start(
        memtable: &Memtable,
        key: &[u8],
        sequence_number: u64,
        levels: Vec<LevelFiles>,
    ) -> (s: TableSearch)
        ensures
            exists|found: Option<Version>| #[trigger]
                memtable::newest_in(memtable@, key@, sequence_number, found) && s@
                    == start_view(found, keyed::views(levels@)),
            s@.settled() == s@,
    {
        let found = memtable.newest(key, sequence_number);
        let ghost f = memtable::opt_version(found);
        assert(memtable::newest_in(memtable@, key@, sequence_number, f));
        let mut search = TableSearch { levels, level_at: 0, file_at: 0, best: None, answer: None };
        if found.is_some() {
            search.answer = Some(found);
            assert(search@ == start_view(f, keyed::views(levels@)));
            return search;
        }
        proof {
            lemma_settled_twice(search@);
        }
        search.settle();
        search
    }

    /// Moves on past the levels that have been searched through.
    fn settle(&mut self)
        ensures
            final(self)@ == old(self)@.settled(),
    {
        let ghost target = self@.settled();
        while self.answer.is_none() && self.level_at < self.levels.len() && self.file_at
            >= self.levels[self.level_at].paths.len()
            invariant
                self@.settled() == target,
            decreases self.levels@.len() - self.level_at, self.answer.is_none() as int,
        {
            let ghost before = self@;
            assert(before.levels[before.level_at as int].paths.len()
                == self.levels@[self.level_at as int].paths@.len());
            match &self.best {
                Some(record) => {
                    let answer: Option<MemtableRecord> = match record.record_type {
                        RecordType::Delete => None,
                        RecordType::Put => Some(record.clone()),
                    };
                    self.answer = Some(answer);
                },
                None => {
                    self.level_at = self.level_at + 1;
                    self.file_at = 0;
                },
            }
        }
        proof {
            if self.level_at < self.levels@.len() {
                assert(self@.levels[self@.level_at as int].paths.len()
                    == self.levels@[self.level_at as int].paths@.len());
            }
        }
    }

    /// What to do next.
    pub fn step(&self) -> (r: GetStep)
        requires
            self@.settled() == self@,
        ensures
            r@ == self@.step(),
    {
        match &self.answer {
            Some(found) => {
                let answer: Option<MemtableRecord> = match found {
                    Some(record) => Some(record.clone()),
                    None => None,
                };
                GetStep::Done(answer)
            },
            None => {
                if self.level_at >= self.levels.len() {
                    return GetStep::Done(None);
                }
                let l = &self.levels[self.level_at];
                proof {
                    lemma_settled_room(self@);
                    assert(self@.levels[self@.level_at as int] == l@);
                }
                let at: usize = if l.level == 0 {
                    self.file_at
                } else {
                    l.paths.len() - 1 - self.file_at
                };
                GetStep::Probe(l.paths[at].clone())
            },
        }
    }

    /// Takes the answer of the table that was asked for.
    pub fn tell(&mut self, found: Option<MemtableRecord>)
        requires
            old(self)@.settled() == old(self)@,
            old(self)@.step() is Probe,
        ensures
            final(self)@ == old(self)@.told(memtable::opt_version(found)),
            final(self)@.settled() == final(self)@,
    {
        proof {
            lemma_settled_room(self@);
        }
        let ghost before = self@;
        let ghost l = self@.levels[self@.level_at as int];
        assert(l == self.levels@[self.level_at as int]@);
        assert(self.file_at < self.levels@[self.level_at as int].paths.len());
        if self.levels[self.level_at].level == 0 {
            let replace = match (&self.best, &found) {
                (_, None) => false,
                (None, Some(_)) => true,
                (Some(b), Some(f)) => f.lsn > b.lsn,
            };
            if replace {
                self.best = found;
            }
            self.file_at = self.file_at + 1;
            self.settle();
        } else {
            match found {
                Some(record) => {
                    let answer: Option<MemtableRecord> = match record.record_type {
                        RecordType::Delete => None,
                        RecordType::Put => Some(record),
                    };
                    self.answer = Some(answer);
                },
                None => {
                    self.file_at = self.file_at + 1;
                    self.settle();
                },
            }
        }
        proof {
            lemma_settled_twice(
                SearchView {
                    best: newer(before.best, memtable::opt_version(found)),
                    file_at: before.file_at + 1,
                    ..before
                },
            );
            lemma_settled_twice(SearchView { file_at: before.file_at + 1, ..before });
        }
    }
}

/// The lookup at its start.
pub open spec fn start_view(found: Option<Version>, levels: Seq<LevelView>) -> SearchView {
    let s = SearchView { levels, level_at: 0, file_at: 0, best: None, answer: None };
    match found {
        Some(_) => SearchView { answer: Some(found), ..s },
        None => s.settled(),
    }
}

/// Where a settled lookup asks for a table there is one.
proof fn lemma_settled_room(s: SearchView)
    requires
        s.settled() == s,
        s.answer is None,
        s.level_at < s.levels.len(),
    ensures
        s.file_at < s.levels[s.level_at as int].paths.len(),
{
    if s.file_at >= s.levels[s.level_at as int].paths.len() {
        match s.best {
            Some(v) => {},
            None => {
                lemma_settled_forward(
                    SearchView { level_at: s.level_at + 1, file_at: 0, ..s },
                );
            },
        }
    }
}

/// Settling does not go back.
proof fn lemma_settled_forward(s: SearchView)
    ensures
        s.settled().level_at >= s.level_at,
    decreases s.levels.len() - s.level_at,
{
    if !(s.answer is Some || s.level_at >= s.levels.len() || s.file_at
        < s.levels[s.level_at as int].paths.len()) && s.best is None {
        lemma_settled_forward(SearchView { level_at: s.level_at + 1, file_at: 0, ..s });
    }
}

/// What is settled stays as it is.
pub proof fn lemma_settled_twice(s: SearchView)
    ensures
        s.settled().settled() == s.settled(),
    decreases s.levels.len() - s.level_at,
{
    if !(s.answer is Some || s.level_at >= s.levels.len() || s.file_at
        < s.levels[s.level_at as int].paths.len()) && s.best is None {
        lemma_settled_twice(SearchView { level_at: s.level_at + 1, file_at: 0, ..s });
    }
}

/// The record that the rest of a level gives, from the file `from` on, where `best`
/// was found before and `ans` says what each table has: in level 0 the newest of
/// all, in the other levels that of the last file that has one.
pub open spec fn rest_of_level(
    l: LevelView,
    from: nat,
    best: Option<Version>,
    ans: spec_fn(Seq<char>) -> Option<Version>,
) -> Option<Version>
    decreases l.paths.len() - from,
{
    if from >= l.paths.len() {
        best
    } else if l.level == 0 {
        rest_of_level(l, from + 1, newer(best, ans(l.paths[from as int])), ans)
    } else {
        match ans(l.paths[l.paths.len() - 1 - from]) {
            Some(v) => Some(v),
            None => rest_of_level(l, from + 1, best, ans),
        }
    }
}

/// What the levels from the place `from` on say of a key: the first level that has
/// a record decides, and the mark of a deletion means that there is nothing.
pub open spec fn levels_answer(
    levels: Seq<LevelView>,
    from: nat,
    ans: spec_fn(Seq<char>) -> Option<Version>,
) -> Option<Version>
    decreases levels.len() - from,
{
    if from >= levels.len() {
        None
    } else {
        match rest_of_level(levels[from as int], 0, None, ans) {
            Some(v) => live(v),
            None => levels_answer(levels, from + 1, ans),
        }
    }
}

impl SearchView {
    /// What the lookup will answer.
    pub open spec fn outcome(self, ans: spec_fn(Seq<char>) -> Option<Version>) -> Option<Version> {
        match self.answer {
            Some(r) => r,
            None => if self.level_at >= self.levels.len() {
                None
            } else {
                match rest_of_level(
                    self.levels[self.level_at as int],
                    self.file_at,
                    self.best,
                    ans,
                ) {
                    Some(v) => live(v),
                    None => levels_answer(self.levels, self.level_at + 1, ans),
                }
            },
        }
    }
}

proof fn lemma_settled_outcome(s: SearchView, ans: spec_fn(Seq<char>) -> Option<Version>)
    ensures
        s.settled().outcome(ans) == s.outcome(ans),
    decreases s.levels.len() - s.level_at,
{
    if !(s.answer is Some || s.level_at >= s.levels.len() || s.file_at
        < s.levels[s.level_at as int].paths.len()) && s.best is None {
        lemma_settled_outcome(SearchView { level_at: s.level_at + 1, file_at: 0, ..s }, ans);
    }
}

/// What a lookup answers does not depend on how far it has got: it starts out with
/// the record of the memtable or, without one, with what the levels say in ascending
/// order; each answer of a table keeps it; and it is what the lookup ends with.
pub proof fn law_read_precedence(
    found: Option<Version>,
    levels: Seq<LevelView>,
    s: SearchView,
    ans: spec_fn(Seq<char>) -> Option<Version>,
)
    requires
        s.settled() == s,
    ensures
        start_view(found, levels).outcome(ans) == match found {
            Some(_) => found,
            None => levels_answer(levels, 0, ans),
        },
        s.step() matches StepView::Probe(path) ==> s.told(ans(path)).outcome(ans) == s.outcome(ans),
        s.step() matches StepView::Done(r) ==> r == s.outcome(ans),
{
    let fresh = SearchView { levels, level_at: 0, file_at: 0, best: None, answer: None };
    lemma_settled_outcome(fresh, ans);
    if let StepView::Probe(path) = s.step() {
        lemma_settled_room(s);
        let found = ans(path);
        lemma_settled_outcome(
            SearchView { best: newer(s.best, found), file_at: s.file_at + 1, ..s },
            ans,
        );
        lemma_settled_outcome(SearchView { file_at: s.file_at + 1, ..s }, ans);
    }
}

/// In level 0 the newest of the records that the files have decides.
pub proof fn law_level_zero_newest(
    l: LevelView,
    from: nat,
    best: Option<Version>,
    ans: spec_fn(Seq<char>) -> Option<Version>,
)
    requires
        l.level == 0,
    ensures
        best matches Some(b) ==> (rest_of_level(l, from, best, ans) matches Some(v) && v.lsn
            >= b.lsn),
        forall|i: int|
            from <= i < l.paths.len() && ans(#[trigger] l.paths[i]) is Some ==> (rest_of_level(
                l,
                from,
                best,
                ans,
            ) matches Some(v) && v.lsn >= ans(l.paths[i])->0.lsn),
    decreases l.paths.len() - from,
{
    if from < l.paths.len() {
        law_level_zero_newest(l, from + 1, newer(best, ans(l.paths[from as int])), ans);
    }
}

/// What level 0 gives is what one of its files has, or what was found before.
pub proof fn lemma_level_zero_source(
    l: LevelView,
    from: nat,
    best: Option<Version>,
    ans: spec_fn(Seq<char>) -> Option<Version>,
)
    requires
        l.level == 0,
    ensures
        rest_of_level(l, from, best, ans) == best || exists|i: int|
            from <= i < l.paths.len() && ans(#[trigger] l.paths[i]) == rest_of_level(
                l,
                from,
                best,
                ans,
            ),
    decreases l.paths.len() - from,
{
    if from < l.paths.len() {
        let here = ans(l.paths[from as int]);
        lemma_level_zero_source(l, from + 1, newer(best, here), ans);
        assert(ans(l.paths[from as int]) == here);
    }
}

/// Where a file of level 0 has a record of the key that is newer than those of the other
/// files of the level, that record decides, whatever the other levels have: it is the
/// answer, or there is none where it deletes the key.
pub proof fn law_newest_of_level_zero_decides(
    levels: Seq<LevelView>,
    i: int,
    ans: spec_fn(Seq<char>) -> Option<Version>,
)
    requires
        levels.len() > 0,
        levels[0].level == 0,
        0 <= i < levels[0].paths.len(),
        ans(levels[0].paths[i]) is Some,
        forall|j: int|
            0 <= j < levels[0].paths.len() && j != i && ans(#[trigger] levels[0].paths[j]) is Some
                ==> ans(levels[0].paths[j])->0.lsn < ans(levels[0].paths[i])->0.lsn,
    ensures
        levels_answer(levels, 0, ans) == live(ans(levels[0].paths[i])->0),
        start_view(None, levels).outcome(ans) == live(ans(levels[0].paths[i])->0),
{
    let l = levels[0];
    let v = ans(l.paths[i])->0;
    law_level_zero_newest(l, 0, None, ans);
    lemma_level_zero_source(l, 0, None, ans);
    let r = rest_of_level(l, 0, None, ans);
    assert(ans(l.paths[i]) is Some);
    assert(r is Some && r->0.lsn >= v.lsn);
    let j = choose|j: int| 0 <= j < l.paths.len() && ans(#[trigger] l.paths[j]) == r;
    assert(j == i);
    lemma_settled_outcome(
        SearchView { levels, level_at: 0, file_at: 0, best: None, answer: None },
        ans,
    );
}

/// Where only the file at `path` has a record, what a level gives is that record or
/// nothing.
proof fn lemma_only_file(
    l: LevelView,
    from: nat,
    best: Option<Version>,
    path: Seq<char>,
    ans: spec_fn(Seq<char>) -> Option<Version>,
)
    requires
        forall|p: Seq<char>| p != path ==> #[trigger] ans(p) is None,
        best is None || best == ans(path),
        l.level != 0 ==> best is None,
    ensures
        rest_of_level(l, from, best, ans) is None || rest_of_level(l, from, best, ans) == ans(path),
        best is Some ==> rest_of_level(l, from, best, ans) == best,
        forall|i: int|
            #![trigger l.paths[i]]
            0 <= i < l.paths.len() && l.paths[i] == path && (if l.level == 0 {
                from <= i
            } else {
                from <= l.paths.len() - 1 - i
            }) ==> rest_of_level(l, from, best, ans) == ans(path),
    decreases l.paths.len() - from,
{
    if from < l.paths.len() {
        if l.level == 0 {
            let here = ans(l.paths[from as int]);
            assert(l.paths[from as int] != path ==> here is None);
            lemma_only_file(l, from + 1, newer(best, here), path, ans);
        } else {
            let p = l.paths[l.paths.len() - 1 - from];
            assert(p != path ==> ans(p) is None);
            lemma_only_file(l, from + 1, best, path, ans);
        }
    }
}

/// Where only one file has a record of the key, that record decides.
pub proof fn law_only_record_decides(
    levels: Seq<LevelView>,
    from: nat,
    at: int,
    i: int,
    ans: spec_fn(Seq<char>) -> Option<Version>,
)
    requires
        from <= at < levels.len(),
        0 <= i < levels[at].paths.len(),
        forall|p: Seq<char>| p != levels[at].paths[i] ==> #[trigger] ans(p) is None,
    ensures
        levels_answer(levels, from, ans) == (match ans(levels[at].paths[i]) {
            Some(v) => live(v),
            None => None,
        }),
    decreases levels.len() - from,
{
    let path = levels[at].paths[i];
    lemma_only_file(levels[from as int], 0, None, path, ans);
    if from < at {
        law_only_record_decides(levels, from + 1, at, i, ans);
    } else {
        lemma_nowhere(levels, from + 1, path, ans);
    }
}

/// Where the only file with a record has none after all, there is no answer; a record
/// that it has is found if it is found in any level.
proof fn lemma_nowhere(
    levels: Seq<LevelView>,
    from: nat,
    path: Seq<char>,
    ans: spec_fn(Seq<char>) -> Option<Version>,
)
    requires
        forall|p: Seq<char>| p != path ==> #[trigger] ans(p) is None,
    ensures
        ans(path) is None ==> levels_answer(levels, from, ans) is None,
    decreases levels.len() - from,
{
    if from < levels.len() {
        lemma_only_file(levels[from as int], 0, None, path, ans);
        lemma_nowhere(levels, from + 1, path, ans);
    }
}

/// A record counts in a scan: it is in the range, and no newer than the scan.
pub open spec fn visible(v: Version, r: RangeView, sequence_number: u64) -> bool {
    v.lsn <= sequence_number && r.has(v.key)
}

/// The newest records of keys, with one more.
pub open spec fn keep_newest(m: Map<Seq<u8>, Version>, v: Version) -> Map<Seq<u8>, Version> {
    if m.dom().contains(v.key) && v.lsn <= m[v.key].lsn {
        m
    } else {
        m.insert(v.key, v)
    }
}

/// The newest records of keys, with those of `vs` that count.
pub open spec fn absorbed(
    m: Map<Seq<u8>, Version>,
    vs: Seq<Version>,
    r: RangeView,
    sequence_number: u64,
) -> Map<Seq<u8>, Version>
    decreases vs.len(),
{
    if vs.len() == 0 {
        m
    } else {
        let front = absorbed(m, vs.drop_last(), r, sequence_number);
        if visible(vs.last(), r, sequence_number) {
            keep_newest(front, vs.last())
        } else {
            front
        }
    }
}

/// The record of an entry of a memtable.
pub open spec fn slot_version(s: SlotView) -> Version {
    Version {
        key: s.key,
        value: s.record.value,
        record_type: s.record.record_type,
        lsn: s.lsn,
    }
}

/// The records of entries of a memtable.
pub open spec fn slot_versions(s: Seq<Slot>) -> Seq<Version> {
    Seq::new(s.len(), |i: int| slot_version(s[i]@))
}

/// The values of the keys that are not deleted.
pub open spec fn live_values(m: Map<Seq<u8>, Version>) -> Map<Seq<u8>, Seq<u8>> {
    Map::new(
        |k: Seq<u8>| m.dom().contains(k) && m[k].record_type == RecordType::Put,
        |k: Seq<u8>| m[k].value,
    )
}

/// A scan keeps, of the records that count, the newest of each key.
pub proof fn law_scan_keeps_newest(
    m: Map<Seq<u8>, Version>,
    vs: Seq<Version>,
    r: RangeView,
    sequence_number: u64,
)
    requires
        forall|k: Seq<u8>| #[trigger] m.dom().contains(k) ==> m[k].key == k,
    ensures
        ({
            let out = absorbed(m, vs, r, sequence_number);
            &&& forall|i: int|
                0 <= i < vs.len() && visible(#[trigger] vs[i], r, sequence_number)
                    ==> out.dom().contains(vs[i].key) && out[vs[i].key].lsn >= vs[i].lsn
            &&& forall|k: Seq<u8>| #[trigger]
                m.dom().contains(k) ==> out.dom().contains(k) && out[k].lsn >= m[k].lsn
            &&& forall|k: Seq<u8>| #[trigger]
                out.dom().contains(k) ==> out[k].key == k && ((m.dom().contains(k) && out[k]
                    == m[k]) || (vs.contains(out[k]) && visible(out[k], r, sequence_number)))
        }),
    decreases vs.len(),
{
    if vs.len() > 0 {
        let front = vs.drop_last();
        let v = vs.last();
        law_scan_keeps_newest(m, front, r, sequence_number);
        let a = absorbed(m, front, r, sequence_number);
        let out = absorbed(m, vs, r, sequence_number);
        assert(vs[vs.len() - 1] == v);
        assert forall|i: int|
            0 <= i < vs.len() && visible(
                #[trigger] vs[i],
                r,
                sequence_number,
            ) implies out.dom().contains(vs[i].key) && out[vs[i].key].lsn >= vs[i].lsn by {
            if i < front.len() {
                assert(front[i] == vs[i]);
            }
        }
        assert forall|k: Seq<u8>| #[trigger] out.dom().contains(k) implies out[k].key == k && ((
        m.dom().contains(k) && out[k] == m[k]) || (vs.contains(out[k]) && visible(
            out[k],
            r,
            sequence_number,
        ))) by {
            if out[k] == v && visible(v, r, sequence_number) && k == v.key {
            } else {
                assert(a.dom().contains(k) && out[k] == a[k]);
                if front.contains(a[k]) {
                    let j = choose|j: int| 0 <= j < front.len() && front[j] == a[k];
                    assert(vs[j] == a[k]);
                }
            }
        }
    }
}

/// A scan starts out with these records: those of the memtable that count, of each key
/// the newest.
pub open spec fn scan_starts(
    m: Map<(Seq<u8>, u64), Version>,
    r: RangeView,
    sequence_number: u64,
    merged: Map<Seq<u8>, Version>,
) -> bool {
    exists|slots: Seq<Slot>|
        {
            &&& #[trigger] memtable::lists_slots(
                slots,
                m,
                range::slot_bounds(r).0,
                range::slot_bounds(r).1,
            )
            &&& merged == absorbed(Map::empty(), slot_versions(slots), r, sequence_number)
        }
}

/// The records are those of their keys, which are in the range.
pub open spec fn kept_in_range(
    merged: Map<Seq<u8>, Version>,
    r: RangeView,
    sequence_number: u64,
) -> bool {
    forall|k: Seq<u8>| #[trigger]
        merged.dom().contains(k) ==> merged[k].key == k && visible(merged[k], r, sequence_number)
}

/// A scan keeps only records whose key is in the range and that are not newer than the
/// scan.
pub proof fn law_scan_stays_in_range(
    m: Map<Seq<u8>, Version>,
    vs: Seq<Version>,
    r: RangeView,
    sequence_number: u64,
)
    requires
        kept_in_range(m, r, sequence_number),
    ensures
        kept_in_range(absorbed(m, vs, r, sequence_number), r, sequence_number),
{
    law_scan_keeps_newest(m, vs, r, sequence_number);
}

/// A scan starts out with what lookups of the keys in the range would find in the
/// memtable.
pub proof fn law_scan_agrees_with_get(
    m: Map<(Seq<u8>, u64), Version>,
    r: RangeView,
    sequence_number: u64,
    merged: Map<Seq<u8>, Version>,
    key: Seq<u8>,
    found: Option<Version>,
)
    requires
        latest::consistent(m),
        scan_starts(m, r, sequence_number, merged),
        r.has(key),
        memtable::newest_in(m, key, sequence_number, found),
    ensures
        kept_in_range(merged, r, sequence_number),
        match found {
            Some(v) => merged.dom().contains(key) && merged[key] == v.under(key),
            None => !merged.dom().contains(key),
        },
{
    let (from, to) = range::slot_bounds(r);
    let slots = choose|slots: Seq<Slot>|
        {
            &&& #[trigger] memtable::lists_slots(slots, m, from, to)
            &&& merged == absorbed(Map::empty(), slot_versions(slots), r, sequence_number)
        };
    let vs = slot_versions(slots);
    let none = Map::<Seq<u8>, Version>::empty();
    law_scan_keeps_newest(none, vs, r, sequence_number);
    match found {
        Some(v) => {
            let lsn = choose|lsn: u64|
                {
                    &&& lsn <= sequence_number
                    &&& #[trigger] m.dom().contains((key, lsn))
                    &&& m[(key, lsn)] == v
                    &&& forall|other: u64|
                        lsn < other <= sequence_number ==> !#[trigger] m.dom().contains(
                            (key, other),
                        )
                };
            range::law_slot_bounds(r, key, lsn);
            let slot = (key, lsn);
            assert(m.dom().contains(slot));
            let i = choose|i: int|
                0 <= i < slots.len() && (#[trigger] slots[i])@.key == slot.0 && slots[i]@.lsn
                    == slot.1;
            assert(m[(slots[i]@.key, slots[i]@.lsn)] == slots[i]@.record);
            assert(vs[i] == slot_version(slots[i]@));
            assert(visible(vs[i], r, sequence_number));
            assert(merged.dom().contains(key) && merged[key].lsn >= lsn);
            lemma_scanned_slot(m, slots, from, to, r, sequence_number, merged, key);
            let l = merged[key].lsn;
            assert(m.dom().contains((key, l)));
            assert(l == lsn);
        },
        None => {
            if merged.dom().contains(key) {
                lemma_scanned_slot(m, slots, from, to, r, sequence_number, merged, key);
                assert(m.dom().contains((key, merged[key].lsn)));
            }
        },
    }
}

/// A record that a scan has from a memtable is the memtable's.
proof fn lemma_scanned_slot(
    m: Map<(Seq<u8>, u64), Version>,
    slots: Seq<Slot>,
    from: memtable::SlotBoundView,
    to: memtable::SlotBoundView,
    r: RangeView,
    sequence_number: u64,
    merged: Map<Seq<u8>, Version>,
    key: Seq<u8>,
)
    requires
        latest::consistent(m),
        memtable::lists_slots(slots, m, from, to),
        merged == absorbed(Map::empty(), slot_versions(slots), r, sequence_number),
        merged.dom().contains(key),
    ensures
        m.dom().contains((key, merged[key].lsn)),
        merged[key].lsn <= sequence_number,
        merged[key] == m[(key, merged[key].lsn)].under(key),
{
    let vs = slot_versions(slots);
    law_scan_keeps_newest(Map::empty(), vs, r, sequence_number);
    let v = merged[key];
    assert(vs.contains(v) && v.key == key);
    let i = choose|i: int| 0 <= i < vs.len() && vs[i] == v;
    assert(vs[i] == slot_version(slots[i]@));
    let slot = (slots[i]@.key, slots[i]@.lsn);
    assert(m.dom().contains(slot) && m[slot] == slots[i]@.record);
    assert(m[slot].lsn == slot.1);
    assert(v =~= m[slot].under(key));
}

/// A scan of a range has to read the table: its keys may be in the range, or it is not
/// known which keys it has.
pub open spec fn wanted(m: MetaView, r: RangeView) -> bool {
    m.smallest_key.len() == 0 || m.largest_key.len() == 0 || r.touches(
        m.smallest_key,
        m.largest_key,
    )
}

/// The tables that a scan of a range has to read, in their order.
pub open spec fn wanted_tables(metas: Seq<MetaView>, r: RangeView) -> Seq<MetaView>
    decreases metas.len(),
{
    if metas.len() == 0 {
        seq![]
    } else if wanted(metas.last(), r) {
        wanted_tables(metas.drop_last(), r).push(metas.last())
    } else {
        wanted_tables(metas.drop_last(), r)
    }
}

/// The tables that a scan has to read are those of the manifest that are wanted.
pub proof fn lemma_wanted_tables(metas: Seq<MetaView>, r: RangeView)
    ensures
        forall|m: MetaView| #[trigger]
            wanted_tables(metas, r).contains(m) == (metas.contains(m) && wanted(m, r)),
    decreases metas.len(),
{
    let all = wanted_tables(metas, r);
    if metas.len() > 0 {
        let front = metas.drop_last();
        let some = wanted_tables(front, r);
        lemma_wanted_tables(front, r);
        assert(metas =~= front.push(metas.last()));
        assert forall|m: MetaView| #[trigger] all.contains(m) == (metas.contains(m) && wanted(
            m,
            r,
        )) by {
            assert(some.contains(m) == (front.contains(m) && wanted(m, r)));
            vstd::seq_lib::lemma_seq_contains_after_push(front, metas.last(), m);
            vstd::seq_lib::lemma_seq_contains_after_push(some, metas.last(), m);
        }
    }
}

/// A scan of a range of keys as of a sequence number.
pub struct RangeScan {
    merged: KeyMap<MemtableRecord>,
    range: KeyRange,
    sequence_number: u64,
}

/// A scan under way.
pub struct ScanView {
    /// The newest record so far of each key.
    pub merged: Map<Seq<u8>, Version>,
    pub range: RangeView,
    pub sequence_number: u64,
}

impl View for RangeScan {
    type V = ScanView;

    closed spec fn view(&self) -> ScanView {
        ScanView {
            merged: self.merged@,
            range: self.range@,
            sequence_number: self.sequence_number,
        }
    }
}

impl RangeScan {
    /// Starts a scan with what the memtable has.
    pub fn start(memtable: &Memtable, range: KeyRange, sequence_number: u64) -> (s: RangeScan)
        ensures
            s@.range == range@,
            s@.sequence_number == sequence_number,
            scan_starts(memtable@, range@, sequence_number, s@.merged),
    {
        let (from, to) = collect_range_bounds(&range);
        let slots = memtable.range(from, to);
        let ghost all = slot_versions(slots@);
        let mut scan = RangeScan { merged: KeyMap::new(), range, sequence_number };
        let mut i: usize = 0;
        assert(scan@.merged == absorbed(
            Map::empty(),
            all.take(0),
            range@,
            sequence_number,
        ));
        while i < slots.len()
            invariant
                i <= slots@.len(),
                all == slot_versions(slots@),
                memtable::lists_slots(
                    slots@,
                    memtable@,
                    range::slot_bounds(range@).0,
                    range::slot_bounds(range@).1,
                ),
                scan@.range == range@,
                scan@.sequence_number == sequence_number,
                scan@.merged == absorbed(
                    Map::empty(),
                    all.take(i as int),
                    range@,
                    sequence_number,
                ),
            decreases slots@.len() - i,
        {
            let slot = &slots[i];
            let record = MemtableRecord {
                key: bytes::copy_bytes(slot.key.as_slice()),
                value: bytes::copy_bytes(slot.record.value.as_slice()),
                record_type: slot.record.record_type,
                lsn: slot.lsn,
            };
            proof {
                assert(record@ =~= all[i as int]);
                assert(all.take(i + 1).drop_last() =~= all.take(i as int));
                assert(all.take(i + 1).last() == all[i as int]);
            }
            scan.absorb_record(record);
            i = i + 1;
        }
        assert(all.take(i as int) =~= all);
        scan
    }

    /// Takes one record in.
    fn absorb_record(&mut self, record: MemtableRecord)
        ensures
            final(self)@.range == old(self)@.range,
            final(self)@.sequence_number == old(self)@.sequence_number,
            final(self)@.merged == (if visible(
                record@,
                old(self)@.range,
                old(self)@.sequence_number,
            ) {
                keep_newest(old(self)@.merged, record@)
            } else {
                old(self)@.merged
            }),
    {
        if record.lsn > self.sequence_number || !key_in_range(record.key.as_slice(), &self.range) {
            return;
        }
        let replace = match self.merged.get(record.key.as_slice()) {
            Some(existing) => record.lsn > existing.lsn,
            None => true,
        };
        if replace {
            let key: Vec<u8> = bytes::copy_bytes(record.key.as_slice());
            self.merged.insert(key, record);
        }
    }

    /// The paths of the tables that have to be read, in the order of the manifest.
    pub fn tables(&self, snapshot: &ManifestSnapshot) -> (paths: Vec<String>)
        ensures
            keyed::views(paths@) == paths_of(
                wanted_tables(manifest_state::all_files(snapshot.levels@), self@.range),
            ),
    {
        let ghost r = self@.range;
        let ghost levels = snapshot.levels@;
        let mut paths: Vec<String> = Vec::new();
        let mut i: usize = 0;
        assert(keyed::views(paths@) =~= paths_of(
            wanted_tables(manifest_state::all_files(levels.take(0)), r),
        ));
        while i < snapshot.levels.len()
            invariant
                i <= snapshot.levels@.len(),
                levels == snapshot.levels@,
                r == self@.range,
                keyed::views(paths@) == paths_of(
                    wanted_tables(manifest_state::all_files(levels.take(i as int)), r),
                ),
            decreases snapshot.levels@.len() - i,
        {
            let files = &snapshot.levels[i].files;
            let ghost front = manifest_state::all_files(levels.take(i as int));
            let ghost metas = keyed::views(files@);
            let mut j: usize = 0;
            assert(front + metas.take(0) =~= front);
            while j < files.len()
                invariant
                    j <= files@.len(),
                    metas == keyed::views(files@),
                    r == self@.range,
                    keyed::views(paths@) == paths_of(
                        wanted_tables(front + metas.take(j as int), r),
                    ),
                decreases files@.len() - j,
            {
                let meta = &files[j];
                let ghost before = keyed::views(paths@);
                let ghost more = front + metas.take(j + 1);
                proof {
                    assert(more.drop_last() =~= front + metas.take(j as int));
                    assert(more.last() == meta@);
                }
                if self.wants(meta.smallest_key.as_slice(), meta.largest_key.as_slice()) {
                    paths.push(meta.path.clone());
                    assert(keyed::views(paths@) =~= before.push(meta@.path));
                    assert(paths_of(wanted_tables(more, r)) =~= before.push(meta@.path));
                }
                j = j + 1;
            }
            proof {
                assert(metas.take(j as int) =~= metas);
                assert(levels.take(i + 1).drop_last() =~= levels.take(i as int));
            }
            i = i + 1;
        }
        assert(levels.take(i as int) =~= levels);
        paths
    }

    /// Whether a table with keys from `smallest` to `largest` has to be read. A table
    /// whose range is not known has.
    pub fn wants(&self, smallest: &[u8], largest: &[u8]) -> (r: bool)
        ensures
            r == (smallest@.len() == 0 || largest@.len() == 0 || self@.range.touches(
                smallest@,
                largest@,
            )),
    {
        smallest.len() == 0 || largest.len() == 0 || ranges_overlap(&self.range, smallest, largest)
    }

    /// Takes in what the table `data` has in the range. Where it cannot be read, the
    /// scan stays as it was.
    pub fn absorb_table(&mut self, data: &[u8]) -> (r: Result<(), DBError>)
        requires
            sstable_codec::table_usable(data@),
        ensures
            final(self)@.range == old(self)@.range,
            final(self)@.sequence_number == old(self)@.sequence_number,
            match table::table_records(data@, old(self)@.range) {
                Ok(vs) => r is Ok && final(self)@.merged == absorbed(
                    old(self)@.merged,
                    vs,
                    old(self)@.range,
                    old(self)@.sequence_number,
                ),
                Err(failure) => final(self)@.merged == old(self)@.merged && (r matches Err(e)
                    && e@ is Io && e@->Io_0 == failure),
            },
    {
        let ghost before = self@;
        let mut records: Vec<MemtableRecord> = match read_table_range(data, &self.range) {
            Err(e) => {
                return Err(e);
            },
            Ok(records) => records,
        };
        let ghost all = keyed::views(records@);
        let mut i: usize = 0;
        while i < records.len()
            invariant
                i <= records@.len(),
                all == keyed::views(records@),
                self@.range == before.range,
                self@.sequence_number == before.sequence_number,
                self@.merged == absorbed(
                    before.merged,
                    all.take(i as int),
                    before.range,
                    before.sequence_number,
                ),
            decreases records@.len() - i,
        {
            let record: MemtableRecord = records[i].clone();
            proof {
                assert(all.take(i + 1).drop_last() =~= all.take(i as int));
                assert(all.take(i + 1).last() == all[i as int]);
            }
            self.absorb_record(record);
            i = i + 1;
        }
        assert(all.take(i as int) =~= all);
        Ok(())
    }

    /// The keys and values that were found, in ascending order of the keys, without
    /// the keys that are deleted.
    pub fn finish(self) -> (out: Vec<(Vec<u8>, Vec<u8>)>)
        ensures
            keymap::lists(value_pairs(out@), live_values(self@.merged)),
    {
        let ghost merged = self@.merged;
        let entries = self.merged.into_entries();
        let ghost all = keymap::pairs(entries@);
        let mut out: Vec<(Vec<u8>, Vec<u8>)> = Vec::new();
        let mut i: usize = 0;
        proof {
            lemma_live_step_empty(all);
        }
        while i < entries.len()
            invariant
                i <= entries@.len(),
                all == keymap::pairs(entries@),
                keymap::ascending(all),
                value_pairs(out@) == live_pairs(all.take(i as int)),
            decreases entries@.len() - i,
        {
            let ghost before = value_pairs(out@);
            proof {
                assert(all.take(i + 1).drop_last() =~= all.take(i as int));
                assert(all.take(i + 1).last() == all[i as int]);
            }
            match entries[i].1.record_type {
                RecordType::Put => {
                    out.push(
                        (
                            bytes::copy_bytes(entries[i].0.as_slice()),
                            bytes::copy_bytes(entries[i].1.value.as_slice()),
                        ),
                    );
                    assert(value_pairs(out@) =~= before.push(
                        (all[i as int].0, all[i as int].1.value),
                    ));
                },
                RecordType::Delete => {},
            }
            i = i + 1;
        }
        proof {
            assert(all.take(i as int) =~= all);
            lemma_live_pairs(all);
        }
        out
    }
}

/// Pairs of key and value.
pub open spec fn value_pairs(s: Seq<(Vec<u8>, Vec<u8>)>) -> Seq<(Seq<u8>, Seq<u8>)> {
    Seq::new(s.len(), |i: int| (s[i].0@, s[i].1@))
}

/// Keys and values of the records that are no deletions.
spec fn live_pairs(s: Seq<(Seq<u8>, Version)>) -> Seq<(Seq<u8>, Seq<u8>)>
    decreases s.len(),
{
    if s.len() == 0 {
        seq![]
    } else if s.last().1.record_type == RecordType::Put {
        live_pairs(s.drop_last()).push((s.last().0, s.last().1.value))
    } else {
        live_pairs(s.drop_last())
    }
}

proof fn lemma_live_step_empty(s: Seq<(Seq<u8>, Version)>)
    ensures
        live_pairs(s.take(0)) == Seq::<(Seq<u8>, Seq<u8>)>::empty(),
        forall|out: Seq<(Vec<u8>, Vec<u8>)>|
            out.len() == 0 ==> #[trigger] value_pairs(out) == Seq::<(Seq<u8>, Seq<u8>)>::empty(),
{
    assert forall|out: Seq<(Vec<u8>, Vec<u8>)>|
        out.len() == 0 implies #[trigger] value_pairs(out) == Seq::<
        (Seq<u8>, Seq<u8>),
    >::empty() by {
        assert(value_pairs(out) =~= Seq::<(Seq<u8>, Seq<u8>)>::empty());
    }
}

/// The live pairs of a listing list the live values.
proof fn lemma_live_pairs(s: Seq<(Seq<u8>, Version)>)
    requires
        keymap::ascending(s),
    ensures
        keymap::lists(live_pairs(s), live_values(keymap::listed(s))),
        forall|i: int|
            0 <= i < live_pairs(s).len() ==> keymap::has_key(s, (#[trigger] live_pairs(s)[i]).0),
    decreases s.len(),
{
    if s.len() == 0 {
        assert(keymap::listed(live_pairs(s)) =~= live_values(keymap::listed(s)));
    } else {
        let t = s.drop_last();
        let (k, v) = s.last();
        keymap::lemma_drop_last(s);
        lemma_live_pairs(t);
        let lt = live_pairs(t);
        let ls = live_pairs(s);
        keymap::lemma_listed(s, s.len() - 1);
        let m = keymap::listed(s);
        assert forall|i: int| 0 <= i < lt.len() implies order::key_lt((#[trigger] lt[i]).0, k) by {
            assert(keymap::has_key(t, lt[i].0));
            let j = keymap::place(t, lt[i].0);
            assert(t[j].0 == lt[i].0);
            assert(s[j] == t[j]);
            assert(order::key_lt(s[j].0, s[s.len() - 1].0));
        }
        assert forall|i: int| 0 <= i < ls.len() implies keymap::has_key(
            s,
            (#[trigger] ls[i]).0,
        ) by {
            if i < lt.len() {
                assert(ls[i] == lt[i]);
                let j = keymap::place(t, lt[i].0);
                assert(t[j].0 == lt[i].0);
                assert(s[j] == t[j]);
            } else {
                assert(s[s.len() - 1].0 == k);
            }
        }
        if v.record_type == RecordType::Put {
            keymap::lemma_append(lt, k, v.value);
            assert(live_values(m) =~= live_values(keymap::listed(t)).insert(k, v.value));
        } else {
            assert(live_values(m) =~= live_values(keymap::listed(t)));
        }
    }
}

/// Of two records the newer one stays; of equally new ones that which was found first. A
/// record that deletes its key gives none.
pub proof fn law_newer_stays(b: Version, f: Version)
    ensures
        f.lsn > b.lsn ==> newer(Some(b), Some(f)) == Some(f),
        f.lsn <= b.lsn ==> newer(Some(b), Some(f)) == Some(b),
        newer(None, Some(f)) == Some(f),
        newer(Some(b), None) == Some(b),
        f.record_type == RecordType::Put ==> live(f) == Some(f),
        f.record_type == RecordType::Delete ==> live(f) is None,
{
}

/// A level below level 0 is asked from its last file to its first, and the first of them
/// that has the key decides; level 0 is asked from its first file to its last, all of
/// them.
pub proof fn law_files_asked_in_order(s: SearchView, found: Option<Version>)
    requires
        s.answer is None,
        s.level_at < s.levels.len(),
        s.file_at < s.levels[s.level_at as int].paths.len(),
    ensures
        ({
            let l = s.levels[s.level_at as int];
            let after = s.told(found);
            &&& l.level == 0 ==> s.step() == StepView::Probe(l.paths[s.file_at as int])
            &&& l.level != 0 ==> s.step() == StepView::Probe(
                l.paths[l.paths.len() - 1 - s.file_at],
            )
            &&& l.level != 0 && found is Some ==> after.step() == StepView::Done(live(found->0))
            &&& (l.level == 0 || found is None) && s.file_at + 1 < l.paths.len() ==> after.level_at
                == s.level_at && after.file_at == s.file_at + 1 && after.answer is None
            &&& l.level == 0 && s.file_at + 1 < l.paths.len() ==> after.best == newer(s.best, found)
        }),
{
}

/// A scan keeps of each key the newest record; of equally new ones that which came first.
pub proof fn law_scan_keeps_first_of_equal(m: Map<Seq<u8>, Version>, v: Version)
    ensures
        m.dom().contains(v.key) && v.lsn <= m[v.key].lsn ==> keep_newest(m, v) == m,
        m.dom().contains(v.key) && v.lsn > m[v.key].lsn ==> keep_newest(m, v)[v.key] == v,
        !m.dom().contains(v.key) ==> keep_newest(m, v)[v.key] == v,
        keep_newest(m, v).dom() == m.dom().insert(v.key),
        forall|k: Seq<u8>| #[trigger]
            m.dom().contains(k) && k != v.key ==> keep_newest(m, v)[k] == m[k],
{
    if m.dom().contains(v.key) {
        assert(m.dom().insert(v.key) =~= m.dom());
    }
    assert(keep_newest(m, v).dom() =~= m.dom().insert(v.key));
}

} // verus!
