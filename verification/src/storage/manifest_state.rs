//! What the manifest says: the tables of each level, the next file number and the
//! active log segment.
use vstd::prelude::*;
use vstd::string::*;
use crate::bytes;
use crate::error::{ErrorKind, IoError, IoFailure};
use crate::storage::bloom;
use crate::storage::keyed;
use crate::storage::manifest_codec;
use crate::storage::manifest_codec::{add_payload_readable, decode_add_payload,
    decode_checkpoint_payload, decode_entry, decode_remove_payload, encode_add_payload,
    encode_checkpoint_payload, encode_entry, encode_remove_payload, MetaView, SSTableMeta,
    ENTRY_KIND_ADD, ENTRY_KIND_CHECKPOINT, ENTRY_KIND_REMOVE, MANIFEST_VERSION};
use crate::text;

verus! {

/// Level and number of a table.
pub open spec fn slot_of(m: MetaView) -> (u32, u64) {
    (m.level, m.file_id)
}

/// One table comes before another: its level is lower, or its number in the same
/// level.
pub open spec fn slot_before(a: (u32, u64), b: (u32, u64)) -> bool {
    a.0 < b.0 || (a.0 == b.0 && a.1 < b.1)
}

/// The tables are in order, none twice.
pub open spec fn in_order(s: Seq<MetaView>) -> bool {
    forall|i: int, j: int|
        #![trigger s[i], s[j]]
        0 <= i < j < s.len() ==> slot_before(slot_of(s[i]), slot_of(s[j]))
}

/// Some table has this level and number.
pub open spec fn has_slot(s: Seq<MetaView>, k: (u32, u64)) -> bool {
    exists|i: int| 0 <= i < s.len() && slot_of(#[trigger] s[i]) == k
}

/// The place of the table with this level and number.
pub open spec fn slot_place(s: Seq<MetaView>, k: (u32, u64)) -> int {
    choose|i: int| 0 <= i < s.len() && slot_of(#[trigger] s[i]) == k
}

/// The tables by level and number.
pub open spec fn by_slot(s: Seq<MetaView>) -> Map<(u32, u64), MetaView> {
    Map::new(|k: (u32, u64)| has_slot(s, k), |k: (u32, u64)| s[slot_place(s, k)])
}

/// What the manifest says.
#[verifier::ext_equal]
pub struct ManifestView {
    pub version: u32,
    pub next_file_id: u64,
    pub checkpoint_lsn: u64,
    pub active_wal_segment: u64,
    pub files: Map<(u32, u64), MetaView>,
}

/// The state of the manifest.
pub struct ManifestManager {
    version: u32,
    next_file_id: u64,
    checkpoint_lsn: u64,
    active_wal_segment: u64,
    files: Vec<SSTableMeta>,
}

impl View for ManifestManager {
    type V = ManifestView;

    closed spec fn view(&self) -> ManifestView {
        ManifestView {
            version: self.version,
            next_file_id: self.next_file_id,
            checkpoint_lsn: self.checkpoint_lsn,
            active_wal_segment: self.active_wal_segment,
            files: by_slot(keyed::views(self.files@)),
        }
    }
}

/// The tables of a level.
pub struct LevelMetas {
    pub level: u32,
    pub files: Vec<SSTableMeta>,
}

/// What the manifest said at one time: the levels in ascending order, each with its
/// tables in ascending order of their numbers.
pub struct ManifestSnapshot {
    pub version: u32,
    pub next_file_id: u64,
    pub active_wal_segment: u64,
    pub levels: Vec<LevelMetas>,
}

/// The tables of levels, one level after the other.
pub open spec fn all_files(levels: Seq<LevelMetas>) -> Seq<MetaView>
    decreases levels.len(),
{
    if levels.len() == 0 {
        seq![]
    } else {
        all_files(levels.drop_last()) + keyed::views(levels.last().files@)
    }
}

/// Levels in ascending order, none without tables, each table in its level.
pub open spec fn levels_ok(levels: Seq<LevelMetas>) -> bool {
    &&& forall|i: int, j: int|
        #![trigger levels[i], levels[j]]
        0 <= i < j < levels.len() ==> levels[i].level < levels[j].level
    &&& forall|i: int| 0 <= i < levels.len() ==> level_ok(#[trigger] levels[i])
}

/// A level that has tables, all of them of this level.
pub open spec fn level_ok(l: LevelMetas) -> bool {
    &&& l.files@.len() > 0
    &&& forall|j: int| 0 <= j < l.files@.len() ==> (#[trigger] l.files@[j]).level == l.level
}

/// The levels have the tables of `files` and no others, in order.
pub open spec fn lists_files(levels: Seq<LevelMetas>, files: Map<(u32, u64), MetaView>) -> bool {
    &&& levels_ok(levels)
    &&& in_order(all_files(levels))
    &&& by_slot(all_files(levels)) == files
}

impl ManifestSnapshot {
    /// The tables of a level, if it has any.
    pub fn files(&self, level: u32) -> (r: Option<&Vec<SSTableMeta>>)
        ensures
            match r {
                Some(files) => files_at(self.levels@, level) == Some(keyed::views(files@)),
                None => files_at(self.levels@, level) is None,
            },
    {
        let mut i: usize = 0;
        assert(self.levels@.skip(0) =~= self.levels@);
        while i < self.levels.len()
            invariant
                i <= self.levels@.len(),
                files_at(self.levels@, level) == files_at(self.levels@.skip(i as int), level),
            decreases self.levels@.len() - i,
        {
            assert(self.levels@.skip(i as int)[0] == self.levels@[i as int]);
            if self.levels[i].level == level {
                return Some(&self.levels[i].files);
            }
            assert(self.levels@.skip(i as int).skip(1) =~= self.levels@.skip(i + 1));
            i = i + 1;
        }
        None
    }
}

/// The tables of a level, if it is there.
pub open spec fn files_at(levels: Seq<LevelMetas>, level: u32) -> Option<Seq<MetaView>>
    decreases levels.len(),
{
    if levels.len() == 0 {
        None
    } else if levels[0].level == level {
        Some(keyed::views(levels[0].files@))
    } else {
        files_at(levels.skip(1), level)
    }
}

/// A copy of what the manifest knows of tables.
pub fn copy_metas(metas: &Vec<SSTableMeta>) -> (out: Vec<SSTableMeta>)
    ensures
        keyed::views(out@) == keyed::views(metas@),
{
    let mut out: Vec<SSTableMeta> = Vec::new();
    let mut i: usize = 0;
    while i < metas.len()
        invariant
            i <= metas@.len(),
            out@.len() == i,
            forall|j: int| 0 <= j < i ==> (#[trigger] out@[j])@ == metas@[j]@,
        decreases metas@.len() - i,
    {
        out.push(metas[i].clone());
        i = i + 1;
    }
    assert(keyed::views(out@) =~= keyed::views(metas@));
    out
}

/// A change of the manifest.
pub enum Change {
    Add(MetaView),
    Remove(u32, u64),
    Checkpoint(u64, u64),
}

impl ManifestView {
    /// The manifest without entries.
    pub open spec fn empty() -> ManifestView {
        ManifestView {
            version: MANIFEST_VERSION,
            next_file_id: 1,
            checkpoint_lsn: 0,
            active_wal_segment: 0,
            files: Map::empty(),
        }
    }

    /// The manifest with one more table, and a next number behind its number.
    pub open spec fn with_file(self, m: MetaView) -> ManifestView {
        ManifestView {
            files: self.files.insert(slot_of(m), m),
            next_file_id: if m.file_id >= self.next_file_id {
                (m.file_id + 1) as u64
            } else {
                self.next_file_id
            },
            ..self
        }
    }

    /// The manifest once a change was read from its log.
    pub open spec fn replayed(self, c: Change) -> ManifestView {
        match c {
            Change::Add(m) => self.with_file(m),
            Change::Remove(level, file_id) => ManifestView {
                files: self.files.remove((level, file_id)),
                ..self
            },
            Change::Checkpoint(lsn, segment) => ManifestView {
                checkpoint_lsn: lsn,
                active_wal_segment: segment,
                ..self
            },
        }
    }
}

/// The failure for an entry of an unknown kind.
pub open spec fn unknown_kind(kind: u8) -> IoFailure {
    manifest_codec::failure(
        ErrorKind::InvalidData,
        "unknown manifest entry kind: "@ + text::decimal(kind as nat),
    )
}

/// The change that starts at `at` in the log, and where it ends.
pub open spec fn parse_change(s: Seq<u8>, at: int) -> Result<(Change, int), IoFailure> {
    match manifest_codec::parse_entry(s, at) {
        Err(e) => Err(e),
        Ok((kind, payload, end)) => if kind == ENTRY_KIND_ADD {
            match manifest_codec::parse_add(payload) {
                Err(e) => Err(e),
                Ok(m) => Ok((Change::Add(m), end)),
            }
        } else if kind == ENTRY_KIND_REMOVE {
            match manifest_codec::parse_remove(payload) {
                Err(e) => Err(e),
                Ok((level, file_id)) => Ok((Change::Remove(level, file_id), end)),
            }
        } else if kind == ENTRY_KIND_CHECKPOINT {
            match manifest_codec::parse_checkpoint(payload) {
                Err(e) => Err(e),
                Ok((lsn, segment)) => Ok((Change::Checkpoint(lsn, segment), end)),
            }
        } else {
            Err(unknown_kind(kind))
        },
    }
}

/// The manifest after the changes from `at` on.
pub open spec fn replay(s: Seq<u8>, at: int, v: ManifestView) -> Result<ManifestView, IoFailure>
    decreases s.len() - at,
{
    if at >= s.len() {
        Ok(v)
    } else {
        match parse_change(s, at) {
            Err(e) => Err(e),
            Ok((c, end)) => if at < end <= s.len() {
                replay(s, end, v.replayed(c))
            } else {
                Err(crate::error::eof_failure())
            },
        }
    }
}

/// The tables that are added from `at` on have filters that can be made and numbers
/// that have a successor.
pub open spec fn replay_sound(s: Seq<u8>, at: int) -> bool
    decreases s.len() - at,
{
    if at >= s.len() {
        true
    } else {
        match manifest_codec::parse_entry(s, at) {
            Err(_) => true,
            Ok((kind, payload, end)) => {
                &&& kind == ENTRY_KIND_ADD ==> manifest_codec::add_usable(payload)
                &&& parse_change(s, at) matches Ok((Change::Add(m), _)) ==> m.file_id < u64::MAX
                &&& parse_change(s, at) is Ok && at < end <= s.len() ==> replay_sound(s, end)
            },
        }
    }
}

/// Tables in order are found at their places.
pub proof fn lemma_by_slot(s: Seq<MetaView>, i: int)
    requires
        in_order(s),
        0 <= i < s.len(),
    ensures
        has_slot(s, slot_of(s[i])),
        slot_place(s, slot_of(s[i])) == i,
        by_slot(s).dom().contains(slot_of(s[i])),
        by_slot(s)[slot_of(s[i])] == s[i],
{
    let k = slot_of(s[i]);
    let j = slot_place(s, k);
    assert(slot_of(s[j]) == k);
    if j < i {
        assert(slot_before(slot_of(s[j]), slot_of(s[i])));
    } else if i < j {
        assert(slot_before(slot_of(s[i]), slot_of(s[j])));
    }
}

/// Putting a table at its place.
proof fn lemma_insert(s: Seq<MetaView>, at: int, m: MetaView)
    requires
        in_order(s),
        0 <= at <= s.len(),
        forall|i: int| 0 <= i < at ==> slot_before(slot_of(#[trigger] s[i]), slot_of(m)),
        forall|i: int| at <= i < s.len() ==> slot_before(slot_of(m), slot_of(#[trigger] s[i])),
    ensures
        in_order(s.insert(at, m)),
        by_slot(s.insert(at, m)) == by_slot(s).insert(slot_of(m), m),
{
    let t = s.insert(at, m);
    assert forall|i: int, j: int| 0 <= i < j < t.len() implies slot_before(
        slot_of(#[trigger] t[i]),
        slot_of(#[trigger] t[j]),
    ) by {
        if i == at {
            assert(t[j] == s[j - 1]);
        } else if j == at {
            assert(t[i] == s[i]);
        } else {
            let a = if i < at {
                i
            } else {
                i - 1
            };
            let b = if j < at {
                j
            } else {
                j - 1
            };
            assert(t[i] == s[a] && t[j] == s[b]);
        }
    }
    let want = by_slot(s).insert(slot_of(m), m);
    lemma_by_slot(t, at);
    assert forall|k: (u32, u64)| #[trigger] want.dom().contains(k) implies by_slot(
        t,
    ).dom().contains(k) && by_slot(t)[k] == want[k] by {
        if k != slot_of(m) {
            let i = slot_place(s, k);
            assert(slot_of(s[i]) == k);
            let j = if i < at {
                i
            } else {
                i + 1
            };
            assert(t[j] == s[i]);
            lemma_by_slot(t, j);
        }
    }
    assert forall|k: (u32, u64)| #[trigger] by_slot(t).dom().contains(k) implies want.dom().contains(
        k,
    ) by {
        let j = slot_place(t, k);
        assert(slot_of(t[j]) == k);
        if j != at {
            let i = if j < at {
                j
            } else {
                j - 1
            };
            assert(t[j] == s[i]);
            lemma_by_slot(s, i);
        }
    }
    assert(by_slot(t) =~= want);
}

/// Replacing a table.
proof fn lemma_update(s: Seq<MetaView>, at: int, m: MetaView)
    requires
        in_order(s),
        0 <= at < s.len(),
        slot_of(s[at]) == slot_of(m),
    ensures
        in_order(s.update(at, m)),
        by_slot(s.update(at, m)) == by_slot(s).insert(slot_of(m), m),
{
    let t = s.update(at, m);
    assert forall|i: int, j: int| 0 <= i < j < t.len() implies slot_before(
        slot_of(#[trigger] t[i]),
        slot_of(#[trigger] t[j]),
    ) by {
        assert(slot_of(t[i]) == slot_of(s[i]) && slot_of(t[j]) == slot_of(s[j]));
    }
    let want = by_slot(s).insert(slot_of(m), m);
    lemma_by_slot(t, at);
    assert forall|k: (u32, u64)| #[trigger] want.dom().contains(k) implies by_slot(
        t,
    ).dom().contains(k) && by_slot(t)[k] == want[k] by {
        if k != slot_of(m) {
            let i = slot_place(s, k);
            assert(slot_of(s[i]) == k);
            assert(t[i] == s[i]);
            lemma_by_slot(t, i);
        }
    }
    assert forall|k: (u32, u64)| #[trigger] by_slot(t).dom().contains(k) implies want.dom().contains(
        k,
    ) by {
        let j = slot_place(t, k);
        assert(slot_of(t[j]) == k);
        lemma_by_slot(s, j);
    }
    assert(by_slot(t) =~= want);
}

/// Taking a table out.
proof fn lemma_take_out(s: Seq<MetaView>, at: int)
    requires
        in_order(s),
        0 <= at < s.len(),
    ensures
        in_order(s.remove(at)),
        by_slot(s.remove(at)) == by_slot(s).remove(slot_of(s[at])),
{
    let t = s.remove(at);
    assert forall|i: int, j: int| 0 <= i < j < t.len() implies slot_before(
        slot_of(#[trigger] t[i]),
        slot_of(#[trigger] t[j]),
    ) by {
        let a = if i < at {
            i
        } else {
            i + 1
        };
        let b = if j < at {
            j
        } else {
            j + 1
        };
        assert(t[i] == s[a] && t[j] == s[b]);
    }
    let want = by_slot(s).remove(slot_of(s[at]));
    lemma_by_slot(s, at);
    assert forall|k: (u32, u64)| #[trigger] want.dom().contains(k) implies by_slot(
        t,
    ).dom().contains(k) && by_slot(t)[k] == want[k] by {
        let i = slot_place(s, k);
        assert(slot_of(s[i]) == k);
        let j = if i < at {
            i
        } else {
            i - 1
        };
        assert(t[j] == s[i]);
        lemma_by_slot(t, j);
    }
    assert forall|k: (u32, u64)| #[trigger] by_slot(t).dom().contains(k) implies want.dom().contains(
        k,
    ) by {
        let j = slot_place(t, k);
        let i = if j < at {
            j
        } else {
            j + 1
        };
        assert(t[j] == s[i]);
        lemma_by_slot(s, i);
    }
    assert(by_slot(t) =~= want);
}

/// The failure for file numbers that have run out.
pub open spec fn out_of_ids() -> IoFailure {
    manifest_codec::failure(ErrorKind::Other, "manifest file id overflow"@)
}

impl ManifestManager {
    #[verifier::type_invariant]
    spec fn inv(self) -> bool {
        in_order(keyed::views(self.files@))
    }

    /// The manifest without entries.
    pub fn new() -> (m: ManifestManager)
        ensures
            m@ == ManifestView::empty(),
    {
        let files: Vec<SSTableMeta> = Vec::new();
        assert(by_slot(keyed::views(files@)) =~= Map::empty());
        ManifestManager {
            version: MANIFEST_VERSION,
            next_file_id: 1,
            checkpoint_lsn: 0,
            active_wal_segment: 0,
            files,
        }
    }

    /// Hands out the next file number. Where there is none behind it, fails and
    /// changes nothing.
    pub fn allocate_file_id(&mut self) -> (r: Result<u64, IoError>)
        ensures
            old(self)@.next_file_id < u64::MAX ==> (r matches Ok(id) && id
                == old(self)@.next_file_id && final(self)@ == (ManifestView {
                next_file_id: (id + 1) as u64,
                ..old(self)@
            })),
            old(self)@.next_file_id == u64::MAX ==> (r matches Err(e) && e@ == out_of_ids())
                && final(self)@ == old(self)@,
    {
        proof {
            use_type_invariant(&*self);
        }
        let id: u64 = self.next_file_id;
        match id.checked_add(1) {
            None => Err(IoError::new(ErrorKind::Other, "manifest file id overflow")),
            Some(next) => {
                self.next_file_id = next;
                Ok(id)
            },
        }
    }

    /// The entry that has to be in the log before a table is registered.
    pub fn register_entry(meta: &SSTableMeta) -> (r: Result<Vec<u8>, IoError>)
        ensures
            bloom::sound(meta.bloom_bitmap),
            !manifest_codec::meta_encodable(meta@) ==> (r matches Err(e) && e@
                == manifest_codec::field_too_long()),
            manifest_codec::meta_encodable(meta@) && manifest_codec::add_payload(meta@).len()
                <= u32::MAX ==> (r matches Ok(v) && v@ == manifest_codec::entry_bytes(
                ENTRY_KIND_ADD,
                manifest_codec::add_payload(meta@),
            )),
            manifest_codec::meta_encodable(meta@) && manifest_codec::add_payload(meta@).len()
                > u32::MAX ==> (r matches Err(e) && e@ == manifest_codec::failure(
                ErrorKind::InvalidInput,
                "manifest entry payload too large"@,
            )),
    {
        match encode_add_payload(meta) {
            Err(e) => Err(e),
            Ok(payload) => encode_entry(ENTRY_KIND_ADD, payload.as_slice()),
        }
    }

    /// Registers a table whose entry is in the log. The next file number moves behind
    /// the table's; where there is none behind it, that fails, and the table stays
    /// registered.
    pub fn register_sstable(&mut self, meta: SSTableMeta) -> (r: Result<(), IoError>)
        ensures
            meta.file_id < u64::MAX ==> r is Ok && final(self)@ == old(self)@.with_file(meta@),
            meta.file_id == u64::MAX ==> (r matches Err(e) && e@ == out_of_ids()) && final(self)@
                == (ManifestView {
                files: old(self)@.files.insert(slot_of(meta@), meta@),
                ..old(self)@
            }),
    {
        let file_id: u64 = meta.file_id;
        self.put_file(meta);
        proof {
            use_type_invariant(&*self);
        }
        if file_id >= self.next_file_id {
            match file_id.checked_add(1) {
                None => {
                    return Err(IoError::new(ErrorKind::Other, "manifest file id overflow"));
                },
                Some(next) => {
                    self.next_file_id = next;
                },
            }
        }
        Ok(())
    }

    /// Puts a table at its place.
    fn put_file(&mut self, meta: SSTableMeta)
        ensures
            final(self)@ == (ManifestView {
                files: old(self)@.files.insert(slot_of(meta@), meta@),
                ..old(self)@
            }),
    {
        proof {
            use_type_invariant(&*self);
        }
        let ghost s = keyed::views(self.files@);
        let ghost m = meta@;
        let (found, at) = self.find(meta.level, meta.file_id);
        let mut fresh = ManifestManager::new();
        std::mem::swap(self, &mut fresh);
        let ManifestManager { version, next_file_id, checkpoint_lsn, active_wal_segment, mut files }
            = fresh;
        if found {
            files.set(at, meta);
            proof {
                assert(keyed::views(files@) =~= s.update(at as int, m));
                lemma_update(s, at as int, m);
            }
        } else {
            files.insert(at, meta);
            proof {
                assert(keyed::views(files@) =~= s.insert(at as int, m));
                lemma_insert(s, at as int, m);
            }
        }
        *self = ManifestManager {
            version,
            next_file_id,
            checkpoint_lsn,
            active_wal_segment,
            files,
        };
    }

    /// Whether there is a table with this level and number, and its place or where it
    /// would be.
    fn find(&self, level: u32, file_id: u64) -> (r: (bool, usize))
        ensures
            r.1 <= self.files@.len(),
            forall|i: int|
                0 <= i < r.1 ==> slot_before(
                    slot_of(#[trigger] keyed::views(self.files@)[i]),
                    (level, file_id),
                ),
            r.0 ==> r.1 < self.files@.len() && slot_of(keyed::views(self.files@)[r.1 as int]) == (
                level,
                file_id,
            ),
            !r.0 ==> forall|i: int|
                r.1 <= i < self.files@.len() ==> slot_before(
                    (level, file_id),
                    slot_of(#[trigger] keyed::views(self.files@)[i]),
                ),
    {
        proof {
            use_type_invariant(self);
        }
        let ghost s = keyed::views(self.files@);
        let mut i: usize = 0;
        while i < self.files.len()
            invariant
                i <= self.files@.len(),
                s == keyed::views(self.files@),
                in_order(s),
                forall|j: int|
                    0 <= j < i ==> slot_before(slot_of(#[trigger] s[j]), (level, file_id)),
            ensures
                i < s.len() ==> !slot_before(slot_of(s[i as int]), (level, file_id)),
            decreases self.files@.len() - i,
        {
            let m = &self.files[i];
            assert(s[i as int] == m@);
            if !(m.level < level || (m.level == level && m.file_id < file_id)) {
                break;
            }
            i = i + 1;
        }
        if i < self.files.len() {
            let m = &self.files[i];
            assert(s[i as int] == m@);
            if m.level == level && m.file_id == file_id {
                return (true, i);
            }
            assert forall|j: int| i <= j < s.len() implies slot_before(
                (level, file_id),
                slot_of(#[trigger] s[j]),
            ) by {
                if i < j {
                    assert(slot_before(slot_of(s[i as int]), slot_of(s[j])));
                }
            }
        }
        (false, i)
    }

    /// The entry that has to be in the log before a table is removed.
    pub fn remove_entry(level: u32, file_id: u64) -> (r: Result<Vec<u8>, IoError>)
        ensures
            r matches Ok(v) && v@ == manifest_codec::entry_bytes(
                ENTRY_KIND_REMOVE,
                manifest_codec::remove_payload(level, file_id),
            ),
    {
        broadcast use crate::bytes::group_bytes;

        let payload: Vec<u8> = encode_remove_payload(level, file_id);
        encode_entry(ENTRY_KIND_REMOVE, payload.as_slice())
    }

    /// Removes a table whose removal is in the log.
    pub fn remove_sstable(&mut self, level: u32, file_id: u64)
        ensures
            final(self)@ == old(self)@.replayed(Change::Remove(level, file_id)),
    {
        proof {
            use_type_invariant(&*self);
        }
        let ghost s = keyed::views(self.files@);
        let (found, at) = self.find(level, file_id);
        if found {
            let mut fresh = ManifestManager::new();
            std::mem::swap(self, &mut fresh);
            let ManifestManager {
                version,
                next_file_id,
                checkpoint_lsn,
                active_wal_segment,
                mut files,
            } = fresh;
            files.remove(at);
            proof {
                assert(keyed::views(files@) =~= s.remove(at as int));
                lemma_take_out(s, at as int);
            }
            *self = ManifestManager {
                version,
                next_file_id,
                checkpoint_lsn,
                active_wal_segment,
                files,
            };
        } else {
            proof {
                if has_slot(s, (level, file_id)) {
                    let i = slot_place(s, (level, file_id));
                    assert(slot_of(s[i]) == (level, file_id));
                    assert(slot_before(slot_of(s[i]), (level, file_id)) || slot_before(
                        (level, file_id),
                        slot_of(s[i]),
                    ));
                }
                assert(by_slot(s).remove((level, file_id)) =~= by_slot(s));
            }
        }
    }

    /// The entry that has to be in the log before a checkpoint is marked.
    pub fn checkpoint_entry(checkpoint_lsn: u64, active_wal_segment: u64) -> (r: Result<
        Vec<u8>,
        IoError,
    >)
        ensures
            r matches Ok(v) && v@ == manifest_codec::entry_bytes(
                ENTRY_KIND_CHECKPOINT,
                manifest_codec::checkpoint_payload(checkpoint_lsn, active_wal_segment),
            ),
    {
        broadcast use crate::bytes::group_bytes;

        let payload: Vec<u8> = encode_checkpoint_payload(checkpoint_lsn, active_wal_segment);
        encode_entry(ENTRY_KIND_CHECKPOINT, payload.as_slice())
    }

    /// Marks a checkpoint whose entry is in the log.
    pub fn mark_checkpoint(&mut self, checkpoint_lsn: u64, active_wal_segment: u64)
        ensures
            final(self)@ == (ManifestView { checkpoint_lsn, active_wal_segment, ..old(self)@ }),
    {
        proof {
            use_type_invariant(&*self);
        }
        self.checkpoint_lsn = checkpoint_lsn;
        self.active_wal_segment = active_wal_segment;
    }

    /// The sequence number of the last checkpoint: no record of the tables has a greater
    /// one.
    pub fn checkpoint_lsn(&self) -> (lsn: u64)
        ensures
            lsn == self@.checkpoint_lsn,
    {
        self.checkpoint_lsn
    }

    /// What the manifest says now.
    pub fn snapshot(&self) -> (s: ManifestSnapshot)
        ensures
            s.version == self@.version,
            s.next_file_id == self@.next_file_id,
            s.active_wal_segment == self@.active_wal_segment,
            lists_files(s.levels@, self@.files),
    {
        proof {
            use_type_invariant(self);
        }
        let ghost all = keyed::views(self.files@);
        let mut levels: Vec<LevelMetas> = Vec::new();
        let mut i: usize = 0;
        while i < self.files.len()
            invariant
                i <= self.files@.len(),
                all == keyed::views(self.files@),
                in_order(all),
                levels_ok(levels@),
                all_files(levels@) == all.take(i as int),
                levels@.len() > 0 <==> i > 0,
                i > 0 ==> levels@.last().level == all[i - 1].level,
            decreases self.files@.len() - i,
        {
            let meta: SSTableMeta = self.files[i].clone();
            let ghost m = meta@;
            let n: usize = levels.len();
            let ghost before = levels@;
            assert(m == all[i as int]);
            assert(all.take(i + 1) =~= all.take(i as int).push(m));
            if n > 0 && levels[n - 1].level == meta.level {
                let mut last: LevelMetas = levels.pop().unwrap();
                let ghost old_files = last.files@;
                assert(before.last() == last);
                assert(level_ok(before[n - 1]));
                last.files.push(meta);
                let ghost grown = last;
                levels.push(last);
                proof {
                    assert(levels@.drop_last() =~= before.drop_last());
                    assert(keyed::views(grown.files@) =~= keyed::views(old_files).push(m));
                    assert(all_files(levels@) =~= all_files(before).push(m));
                    assert forall|j: int| 0 <= j < levels@.len() implies level_ok(
                        #[trigger] levels@[j],
                    ) by {
                        if j < n - 1 {
                            assert(levels@[j] == before[j]);
                        }
                    }
                    assert forall|a: int, b: int|
                        #![trigger levels@[a], levels@[b]]
                        0 <= a < b < levels@.len() implies levels@[a].level < levels@[b].level by {
                        assert(before[a].level < before[b].level);
                    }
                }
            } else {
                let level: u32 = meta.level;
                let mut files: Vec<SSTableMeta> = Vec::new();
                files.push(meta);
                let added = LevelMetas { level, files };
                let ghost grown = added;
                levels.push(added);
                proof {
                    if n > 0 {
                        assert(slot_before(slot_of(all[i - 1]), slot_of(all[i as int])));
                    }
                    assert(levels@.drop_last() =~= before);
                    assert(keyed::views(grown.files@) =~= seq![m]);
                    assert(all_files(levels@) =~= all_files(before).push(m));
                    assert forall|j: int| 0 <= j < levels@.len() implies level_ok(
                        #[trigger] levels@[j],
                    ) by {
                        if j < n {
                            assert(levels@[j] == before[j]);
                        }
                    }
                    assert forall|a: int, b: int|
                        #![trigger levels@[a], levels@[b]]
                        0 <= a < b < levels@.len() implies levels@[a].level < levels@[b].level by {
                        if b < n {
                            assert(before[a].level < before[b].level);
                        } else if a < n - 1 {
                            assert(before[a].level < before[n - 1].level);
                        }
                    }
                }
            }
            i = i + 1;
        }
        assert(all.take(i as int) =~= all);
        ManifestSnapshot {
            version: self.version,
            next_file_id: self.next_file_id,
            active_wal_segment: self.active_wal_segment,
            levels,
        }
    }
}

/// Entries move forward.
proof fn lemma_entry_advances(s: Seq<u8>, at: int)
    requires
        0 <= at,
    ensures
        manifest_codec::parse_entry(s, at) matches Ok(p) ==> at + 9 <= p.2 <= s.len(),
        parse_change(s, at) matches Ok(p) ==> at + 9 <= p.1 <= s.len(),
{
}

/// Whether `replay_manifest` may be called on `data`.
pub fn manifest_readable(data: &[u8]) -> (r: bool)
    ensures
        r == replay_sound(data@, 0),
{
    let mut offset: usize = 0;
    while offset < data.len()
        invariant
            offset <= data@.len(),
            replay_sound(data@, 0) == replay_sound(data@, offset as int),
        decreases data@.len() - offset,
    {
        proof {
            lemma_entry_advances(data@, offset as int);
        }
        match decode_entry(data, offset) {
            Err(_) => {
                return true;
            },
            Ok((kind, payload, next)) => {
                if kind == ENTRY_KIND_ADD {
                    if !add_payload_readable(payload.as_slice()) {
                        return false;
                    }
                    match decode_add_payload(payload.as_slice()) {
                        Err(_) => {
                            return true;
                        },
                        Ok(meta) => {
                            if meta.file_id == u64::MAX {
                                return false;
                            }
                        },
                    }
                } else if kind == ENTRY_KIND_REMOVE {
                    if decode_remove_payload(payload.as_slice()).is_err() {
                        return true;
                    }
                } else if kind == ENTRY_KIND_CHECKPOINT {
                    if decode_checkpoint_payload(payload.as_slice()).is_err() {
                        return true;
                    }
                } else {
                    return true;
                }
                offset = next;
            },
        }
    }
    true
}

/// The manifest that the log `data` leads to.
pub fn replay_manifest(data: &[u8]) -> (r: Result<ManifestManager, IoError>)
    requires
        replay_sound(data@, 0),
    ensures
        match r {
            Ok(m) => replay(data@, 0, ManifestView::empty()) == Ok::<_, IoFailure>(m@),
            Err(e) => replay(data@, 0, ManifestView::empty()) == Err::<ManifestView, _>(e@),
        },
{
    let mut state = ManifestManager::new();
    let mut offset: usize = 0;
    while offset < data.len()
        invariant
            offset <= data@.len(),
            replay_sound(data@, offset as int),
            replay(data@, 0, ManifestView::empty()) == replay(data@, offset as int, state@),
        decreases data@.len() - offset,
    {
        proof {
            lemma_entry_advances(data@, offset as int);
        }
        let (kind, payload, next) = match decode_entry(data, offset) {
            Err(e) => {
                return Err(e);
            },
            Ok(found) => found,
        };
        if kind == ENTRY_KIND_ADD {
            match decode_add_payload(payload.as_slice()) {
                Err(e) => {
                    return Err(e);
                },
                Ok(meta) => {
                    let ghost m = meta@;
                    assert(parse_change(data@, offset as int) == Ok::<_, IoFailure>(
                        (Change::Add(m), next as int),
                    ));
                    match state.register_sstable(meta) {
                        Err(e) => {
                            return Err(e);
                        },
                        Ok(_) => {},
                    }
                },
            }
        } else if kind == ENTRY_KIND_REMOVE {
            match decode_remove_payload(payload.as_slice()) {
                Err(e) => {
                    return Err(e);
                },
                Ok((level, file_id)) => {
                    state.remove_sstable(level, file_id);
                },
            }
        } else if kind == ENTRY_KIND_CHECKPOINT {
            match decode_checkpoint_payload(payload.as_slice()) {
                Err(e) => {
                    return Err(e);
                },
                Ok((lsn, segment)) => {
                    state.mark_checkpoint(lsn, segment);
                },
            }
        } else {
            let mut message = "unknown manifest entry kind: ".to_owned();
            text::push_decimal(&mut message, kind as u64);
            return Err(IoError::with_message(ErrorKind::InvalidData, message));
        }
        offset = next;
    }
    Ok(state)
}

/// The entry of a change.
pub open spec fn change_bytes(c: Change) -> Seq<u8> {
    match c {
        Change::Add(m) => manifest_codec::entry_bytes(
            ENTRY_KIND_ADD,
            manifest_codec::add_payload(m),
        ),
        Change::Remove(level, file_id) => manifest_codec::entry_bytes(
            ENTRY_KIND_REMOVE,
            manifest_codec::remove_payload(level, file_id),
        ),
        Change::Checkpoint(lsn, segment) => manifest_codec::entry_bytes(
            ENTRY_KIND_CHECKPOINT,
            manifest_codec::checkpoint_payload(lsn, segment),
        ),
    }
}

/// A change that can be written: the lengths of a table's fields fit in the fields
/// that hold them, and it has a filter.
pub open spec fn change_encodable(c: Change) -> bool {
    c matches Change::Add(m) ==> {
        &&& manifest_codec::meta_encodable(m)
        &&& manifest_codec::add_payload(m).len() <= u32::MAX
        &&& m.hashes >= 1
        &&& m.words.len() <= u64::MAX
    }
}

/// Reading gives back the change that was written, wherever its bytes stand.
pub proof fn law_change_round_trip(pre: Seq<u8>, c: Change, post: Seq<u8>)
    requires
        change_encodable(c),
        pre.len() + change_bytes(c).len() <= usize::MAX,
    ensures
        parse_change(pre + change_bytes(c) + post, pre.len() as int) == Ok::<_, IoFailure>(
            (c, (pre.len() + change_bytes(c).len()) as int),
        ),
{
    broadcast use crate::bytes::group_bytes;

    match c {
        Change::Add(m) => {
            manifest_codec::law_entry_round_trip(
                pre,
                ENTRY_KIND_ADD,
                manifest_codec::add_payload(m),
                post,
            );
            manifest_codec::law_add_payload_round_trip(m);
        },
        Change::Remove(level, file_id) => {
            let payload = manifest_codec::remove_payload(level, file_id);
            manifest_codec::law_entry_round_trip(pre, ENTRY_KIND_REMOVE, payload, post);
            assert(payload.subrange(0, 4) =~= bytes::be32(level));
            assert(payload.subrange(4, 12) =~= bytes::be64(file_id));
        },
        Change::Checkpoint(lsn, segment) => {
            let payload = manifest_codec::checkpoint_payload(lsn, segment);
            manifest_codec::law_entry_round_trip(pre, ENTRY_KIND_CHECKPOINT, payload, post);
            assert(payload.subrange(0, 8) =~= bytes::be64(lsn));
            assert(payload.subrange(8, 16) =~= bytes::be64(segment));
        },
    }
}

/// The entries of changes, one after the other.
pub open spec fn changes_bytes(cs: Seq<Change>) -> Seq<u8>
    decreases cs.len(),
{
    if cs.len() == 0 {
        seq![]
    } else {
        change_bytes(cs[0]) + changes_bytes(cs.skip(1))
    }
}

/// The manifest after changes.
pub open spec fn after_changes(v: ManifestView, cs: Seq<Change>) -> ManifestView
    decreases cs.len(),
{
    if cs.len() == 0 {
        v
    } else {
        after_changes(v.replayed(cs[0]), cs.skip(1))
    }
}

/// Replaying the log of changes leads to the manifest after these changes.
pub proof fn law_manifest_replay(pre: Seq<u8>, cs: Seq<Change>, v: ManifestView)
    requires
        forall|i: int| 0 <= i < cs.len() ==> change_encodable(#[trigger] cs[i]),
        pre.len() + changes_bytes(cs).len() <= usize::MAX,
    ensures
        replay(pre + changes_bytes(cs), pre.len() as int, v) == Ok::<_, IoFailure>(
            after_changes(v, cs),
        ),
    decreases cs.len(),
{
    let s = pre + changes_bytes(cs);
    if cs.len() == 0 {
        assert(s =~= pre);
    } else {
        let c = cs[0];
        let rest = cs.skip(1);
        assert forall|i: int| 0 <= i < rest.len() implies change_encodable(#[trigger] rest[i]) by {
            assert(rest[i] == cs[i + 1]);
        }
        assert(pre + change_bytes(c) + changes_bytes(rest) =~= s);
        law_change_round_trip(pre, c, changes_bytes(rest));
        law_manifest_replay(pre + change_bytes(c), rest, v.replayed(c));
        lemma_entry_advances(s, pre.len() as int);
    }
}

/// The table stands in one of the levels.
pub open spec fn in_levels(levels: Seq<LevelMetas>, m: MetaView) -> bool {
    exists|i: int, j: int|
        #![trigger levels[i].files@[j]]
        0 <= i < levels.len() && 0 <= j < levels[i].files@.len() && levels[i].files@[j]@ == m
}

/// The tables of levels are those that stand in one of them.
pub proof fn lemma_all_files(levels: Seq<LevelMetas>)
    ensures
        forall|i: int, j: int|
            #![trigger levels[i].files@[j]]
            0 <= i < levels.len() && 0 <= j < levels[i].files@.len() ==> all_files(
                levels,
            ).contains(levels[i].files@[j]@),
        forall|k: int|
            0 <= k < all_files(levels).len() ==> in_levels(levels, #[trigger] all_files(levels)[k]),
    decreases levels.len(),
{
    if levels.len() > 0 {
        let front = levels.drop_last();
        let n = levels.len() - 1;
        let (a, b) = (all_files(front), keyed::views(levels.last().files@));
        let all = all_files(levels);
        lemma_all_files(front);
        assert(all == a + b);
        assert forall|i: int, j: int|
            #![trigger levels[i].files@[j]]
            0 <= i < levels.len() && 0 <= j < levels[i].files@.len() implies all.contains(
            levels[i].files@[j]@,
        ) by {
            if i < n {
                assert(front[i] == levels[i]);
                assert(a.contains(front[i].files@[j]@));
                let k = choose|k: int| 0 <= k < a.len() && a[k] == front[i].files@[j]@;
                assert(all[k] == a[k]);
            } else {
                assert(b[j] == levels[i].files@[j]@);
                assert(all[a.len() + j] == b[j]);
            }
        }
        assert forall|k: int| 0 <= k < all.len() implies in_levels(levels, #[trigger] all[k]) by {
            if k < a.len() {
                assert(a[k] == all[k]);
                assert(in_levels(front, a[k]));
                let (i, j) = choose|i: int, j: int|
                    #![trigger front[i].files@[j]]
                    0 <= i < front.len() && 0 <= j < front[i].files@.len() && front[i].files@[j]@
                        == a[k];
                assert(levels[i].files@[j]@ == all[k]);
            } else {
                assert(levels[n].files@[k - a.len()]@ == all[k]);
            }
        }
    }
}

proof fn lemma_files_at(levels: Seq<LevelMetas>, level: u32)
    ensures
        match files_at(levels, level) {
            Some(fs) => exists|i: int|
                0 <= i < levels.len() && (#[trigger] levels[i]).level == level && fs
                    == keyed::views(levels[i].files@),
            None => forall|i: int| 0 <= i < levels.len() ==> (#[trigger] levels[i]).level != level,
        },
    decreases levels.len(),
{
    if levels.len() > 0 && levels[0].level != level {
        let rest = levels.skip(1);
        lemma_files_at(rest, level);
        match files_at(rest, level) {
            Some(fs) => {
                let i = choose|i: int|
                    0 <= i < rest.len() && (#[trigger] rest[i]).level == level && fs
                        == keyed::views(rest[i].files@);
                assert(levels[i + 1] == rest[i]);
            },
            None => {
                assert forall|i: int| 0 <= i < levels.len() implies (#[trigger] levels[i]).level
                    != level by {
                    if i > 0 {
                        assert(levels[i] == rest[i - 1]);
                    }
                }
            },
        }
    }
}

/// The tables that a snapshot has in a level are those of the manifest that are of this
/// level, each once and in the order of their numbers; a level that it does not have is
/// one without tables.
pub proof fn law_snapshot_has_level(
    levels: Seq<LevelMetas>,
    files: Map<(u32, u64), MetaView>,
    level: u32,
)
    requires
        lists_files(levels, files),
    ensures
        match files_at(levels, level) {
            Some(fs) => {
                &&& fs.len() > 0
                &&& forall|i: int|
                    0 <= i < fs.len() ==> (#[trigger] fs[i]).level == level && files.dom().contains(
                        (level, fs[i].file_id),
                    ) && files[(level, fs[i].file_id)] == fs[i]
                &&& forall|i: int, j: int|
                    0 <= i < j < fs.len() ==> (#[trigger] fs[i]).file_id < (
                    #[trigger] fs[j]).file_id
                &&& forall|id: u64| #[trigger]
                    files.dom().contains((level, id)) ==> exists|i: int|
                        0 <= i < fs.len() && (#[trigger] fs[i]).file_id == id
            },
            None => forall|id: u64| !#[trigger] files.dom().contains((level, id)),
        },
{
    let all = all_files(levels);
    lemma_files_at(levels, level);
    lemma_all_files(levels);
    match files_at(levels, level) {
        Some(fs) => {
            let n = choose|i: int|
                0 <= i < levels.len() && (#[trigger] levels[i]).level == level && fs
                    == keyed::views(levels[i].files@);
            assert(level_ok(levels[n]));
            assert forall|i: int| 0 <= i < fs.len() implies (#[trigger] fs[i]).level == level
                && files.dom().contains((level, fs[i].file_id)) && files[(level, fs[i].file_id)]
                == fs[i] by {
                let f = levels[n].files@[i];
                assert(f.level == level);
                assert(all.contains(levels[n].files@[i]@));
                let k = choose|k: int| 0 <= k < all.len() && all[k] == fs[i];
                lemma_by_slot(all, k);
            }
            assert forall|id: u64| #[trigger] files.dom().contains((level, id)) implies exists|
                i: int,
            |
                0 <= i < fs.len() && (#[trigger] fs[i]).file_id == id by {
                assert(has_slot(all, (level, id)));
                let k = slot_place(all, (level, id));
                assert(slot_of(all[k]) == (level, id));
                assert(in_levels(levels, all[k]));
                let (a, b) = choose|a: int, b: int|
                    #![trigger levels[a].files@[b]]
                    0 <= a < levels.len() && 0 <= b < levels[a].files@.len() && levels[a].files@[b]@
                        == all[k];
                assert(level_ok(levels[a]));
                assert(levels[a].files@[b].level == levels[a].level);
                if a < n {
                    assert(levels[a].level < levels[n].level);
                } else if n < a {
                    assert(levels[n].level < levels[a].level);
                }
                assert(fs[b].file_id == id);
            }
            lemma_level_in_order(levels, n);
        },
        None => {
            assert forall|id: u64| !#[trigger] files.dom().contains((level, id)) by {
                if files.dom().contains((level, id)) {
                    assert(has_slot(all, (level, id)));
                    let k = slot_place(all, (level, id));
                    assert(slot_of(all[k]) == (level, id));
                    assert(in_levels(levels, all[k]));
                    let (a, b) = choose|a: int, b: int|
                        #![trigger levels[a].files@[b]]
                        0 <= a < levels.len() && 0 <= b < levels[a].files@.len()
                            && levels[a].files@[b]@ == all[k];
                    assert(level_ok(levels[a]));
                    assert(levels[a].files@[b].level == levels[a].level);
                }
            }
        },
    }
}

/// The tables of one level are in order where all are.
pub proof fn lemma_level_in_order(levels: Seq<LevelMetas>, n: int)
    requires
        in_order(all_files(levels)),
        levels_ok(levels),
        0 <= n < levels.len(),
    ensures
        forall|i: int, j: int|
            0 <= i < j < levels[n].files@.len() ==> (#[trigger] levels[n].files@[i]).file_id < (
            #[trigger] levels[n].files@[j]).file_id,
    decreases levels.len(),
{
    let front = levels.drop_last();
    let (a, b) = (all_files(front), keyed::views(levels.last().files@));
    let all = all_files(levels);
    assert(all == a + b);
    if n == levels.len() - 1 {
        assert(level_ok(levels[n]));
        assert forall|i: int, j: int| 0 <= i < j < levels[n].files@.len() implies (
        #[trigger] levels[n].files@[i]).file_id < (#[trigger] levels[n].files@[j]).file_id by {
            assert(all[a.len() + i] == b[i] && all[a.len() + j] == b[j]);
            assert(slot_before(slot_of(all[a.len() + i]), slot_of(all[a.len() + j])));
        }
    } else {
        assert forall|i: int, j: int| #![trigger a[i], a[j]] 0 <= i < j < a.len() implies slot_before(
            slot_of(a[i]),
            slot_of(a[j]),
        ) by {
            assert(all[i] == a[i] && all[j] == a[j]);
        }
        assert forall|i: int| 0 <= i < front.len() implies level_ok(#[trigger] front[i]) by {
            assert(front[i] == levels[i]);
        }
        assert forall|i: int, j: int|
            #![trigger front[i], front[j]]
            0 <= i < j < front.len() implies front[i].level < front[j].level by {
            assert(front[i] == levels[i] && front[j] == levels[j]);
        }
        lemma_level_in_order(front, n);
        assert(front[n] == levels[n]);
    }
}

/// A table that is added is in the manifest as it is, in place of one that had its level
/// and number, and the next number is behind its own; a removal takes one table out, and a
/// checkpoint sets its number and the active log segment. All else stays.
pub proof fn law_change_replayed(v: ManifestView, c: Change, slot: (u32, u64))
    requires
        c matches Change::Add(m) ==> m.file_id < u64::MAX,
    ensures
        v.replayed(c).version == v.version,
        match c {
            Change::Add(m) => {
                let after = v.replayed(c);
                &&& after.files.dom().contains((m.level, m.file_id))
                &&& after.files[(m.level, m.file_id)] == m
                &&& slot != (m.level, m.file_id) ==> after.files.dom().contains(slot)
                    == v.files.dom().contains(slot)
                &&& slot != (m.level, m.file_id) && v.files.dom().contains(slot)
                    ==> after.files[slot] == v.files[slot]
                &&& after.next_file_id > m.file_id
                &&& after.next_file_id >= v.next_file_id
                &&& after.next_file_id == v.next_file_id || after.next_file_id == m.file_id + 1
                &&& after.checkpoint_lsn == v.checkpoint_lsn
                &&& after.active_wal_segment == v.active_wal_segment
            },
            Change::Remove(level, file_id) => {
                let after = v.replayed(c);
                &&& !after.files.dom().contains((level, file_id))
                &&& slot != (level, file_id) ==> after.files.dom().contains(slot)
                    == v.files.dom().contains(slot)
                &&& slot != (level, file_id) && v.files.dom().contains(slot) ==> after.files[slot]
                    == v.files[slot]
                &&& after.next_file_id == v.next_file_id
                &&& after.checkpoint_lsn == v.checkpoint_lsn
                &&& after.active_wal_segment == v.active_wal_segment
            },
            Change::Checkpoint(lsn, segment) => {
                let after = v.replayed(c);
                &&& after.files == v.files
                &&& after.next_file_id == v.next_file_id
                &&& after.checkpoint_lsn == lsn
                &&& after.active_wal_segment == segment
            },
        },
{
}

/// The next number is behind that of every table.
pub open spec fn next_is_new(v: ManifestView) -> bool {
    forall|slot: (u32, u64)| #[trigger] v.files.dom().contains(slot) ==> slot.1 < v.next_file_id
}

/// Whatever tables are added and removed, the next number is one that no table has; nor
/// does it ever come back to a number that was the next one before.
pub proof fn law_numbers_are_new(v: ManifestView, cs: Seq<Change>)
    requires
        next_is_new(v),
        forall|i: int|
            0 <= i < cs.len() ==> ((#[trigger] cs[i]) matches Change::Add(m) ==> m.file_id
                < u64::MAX),
    ensures
        next_is_new(ManifestView::empty()),
        next_is_new(after_changes(v, cs)),
        after_changes(v, cs).next_file_id >= v.next_file_id,
    decreases cs.len(),
{
    if cs.len() > 0 {
        let (c, rest) = (cs[0], cs.skip(1));
        assert forall|i: int| 0 <= i < rest.len() implies ((#[trigger] rest[i]) matches Change::Add(
            m,
        ) ==> m.file_id < u64::MAX) by {
            assert(rest[i] == cs[i + 1]);
        }
        let after = v.replayed(c);
        assert forall|slot: (u32, u64)| #[trigger] after.files.dom().contains(slot) implies slot.1
            < after.next_file_id by {
            law_change_replayed(v, c, slot);
        }
        law_change_replayed(v, c, (0, 0));
        law_numbers_are_new(after, rest);
    }
}

/// An entry of a kind that is none is refused.
pub proof fn law_unknown_kind_refused(pre: Seq<u8>, kind: u8, payload: Seq<u8>, post: Seq<u8>)
    requires
        kind != ENTRY_KIND_ADD,
        kind != ENTRY_KIND_REMOVE,
        kind != ENTRY_KIND_CHECKPOINT,
        payload.len() <= u32::MAX,
        pre.len() + manifest_codec::entry_bytes(kind, payload).len() <= usize::MAX,
    ensures
        parse_change(
            pre + manifest_codec::entry_bytes(kind, payload) + post,
            pre.len() as int,
        ) matches Err(e) && e.kind == ErrorKind::InvalidData && text::has_suffix(
            e.message,
            text::decimal(kind as nat),
        ),
{
    manifest_codec::law_entry_round_trip(pre, kind, payload, post);
    let digits = text::decimal(kind as nat);
    text::law_prefix_and_suffix("unknown manifest entry kind: "@, digits, digits);
}

/// What is no entry behind the entries of a log makes the whole log unreadable: the
/// manifest is not opened with a part of its changes.
pub proof fn law_damaged_manifest_refused(
    pre: Seq<u8>,
    cs: Seq<Change>,
    tail: Seq<u8>,
    v: ManifestView,
    e: IoFailure,
)
    requires
        forall|i: int| 0 <= i < cs.len() ==> change_encodable(#[trigger] cs[i]),
        pre.len() + changes_bytes(cs).len() <= usize::MAX,
        tail.len() > 0,
        parse_change(
            pre + changes_bytes(cs) + tail,
            (pre.len() + changes_bytes(cs).len()) as int,
        ) == Err::<(Change, int), _>(e),
    ensures
        replay(pre + changes_bytes(cs) + tail, pre.len() as int, v) == Err::<ManifestView, _>(e),
    decreases cs.len(),
{
    let s = pre + changes_bytes(cs) + tail;
    if cs.len() == 0 {
        assert(s =~= pre + tail);
    } else {
        let c = cs[0];
        let rest = cs.skip(1);
        assert forall|i: int| 0 <= i < rest.len() implies change_encodable(#[trigger] rest[i]) by {
            assert(rest[i] == cs[i + 1]);
        }
        assert(pre + change_bytes(c) + changes_bytes(rest) + tail =~= s);
        assert(pre + change_bytes(c) + (changes_bytes(rest) + tail) =~= s);
        law_change_round_trip(pre, c, changes_bytes(rest) + tail);
        law_damaged_manifest_refused(pre + change_bytes(c), rest, tail, v.replayed(c), e);
        lemma_entry_advances(s, pre.len() as int);
    }
}

/// Running out of numbers is no damage of the data, and is told as what it is.
pub proof fn law_overflow_is_told()
    ensures
        out_of_ids().kind == ErrorKind::Other,
        out_of_ids().message == "manifest file id overflow"@,
{
}

} // verus!
