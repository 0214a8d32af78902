//! Settings of the program.
use vstd::prelude::*;
use vstd::string::*;
use crate::storage::compactionmanager::path;
use crate::storage::compactionmanager::path::join_path;
use crate::storage::config;
use crate::storage::config::{FalsePositiveRate, StorageConfig, StorageConfigBuilder};
use crate::storage::keyed;
use crate::storage::raft::RaftNodeConfig;
use crate::text;

verus! {

/// How much is logged.
#[derive(Clone, Copy, Debug, PartialEq, Eq, Structural)]
pub enum LogLevel {
    Off,
    Error,
    Warn,
    Info,
    Debug,
    Trace,
}

/// Settings of the program.
#[derive(Debug)]
pub struct Config {
    /// How much is logged: off, error, warn, info, debug or trace.
    pub log_level: String,
    /// Log as much as with debug.
    pub verbose: bool,
    /// The directory of the store.
    pub data_dir: String,
    /// The size in MB at which a memtable is flushed.
    pub memtable_size_mb: u64,
    /// The size of a block in KB.
    pub block_size_kb: usize,
    /// The number of files of level 0 at which they are merged.
    pub max_level0_files: usize,
    /// The size in MB at which a log segment is full.
    pub wal_segment_size_mb: u64,
    /// The rate of false reports that filters are made for.
    pub bloom_fp_rate: FalsePositiveRate,
    /// Run as a node of a cluster.
    pub raft_mode: bool,
    /// The number of the node.
    pub raft_node_id: u64,
    /// The other nodes, as `id:host:port` with commas between them.
    pub raft_peers: String,
    /// The address on which the node can be reached.
    pub raft_http_bind: String,
}

/// The level with a name, which is in lower case.
pub open spec fn level_named(name: Seq<char>) -> Option<LogLevel> {
    if name == "off"@ {
        Some(LogLevel::Off)
    } else if name == "error"@ {
        Some(LogLevel::Error)
    } else if name == "warn"@ {
        Some(LogLevel::Warn)
    } else if name == "info"@ {
        Some(LogLevel::Info)
    } else if name == "debug"@ {
        Some(LogLevel::Debug)
    } else if name == "trace"@ {
        Some(LogLevel::Trace)
    } else {
        None
    }
}

/// The level with a name, which is in lower case.
pub fn find_level(name: &str) -> (r: Option<LogLevel>)
    ensures
        r == level_named(name@),
{
    if text::same_text(name, "off") {
        Some(LogLevel::Off)
    } else if text::same_text(name, "error") {
        Some(LogLevel::Error)
    } else if text::same_text(name, "warn") {
        Some(LogLevel::Warn)
    } else if text::same_text(name, "info") {
        Some(LogLevel::Info)
    } else if text::same_text(name, "debug") {
        Some(LogLevel::Debug)
    } else if text::same_text(name, "trace") {
        Some(LogLevel::Trace)
    } else {
        None
    }
}

/// A number of bytes can be counted.
pub open spec fn sizes_countable(c: Config) -> bool {
    &&& c.memtable_size_mb * 1048576 <= u64::MAX
    &&& c.block_size_kb * 1024 <= usize::MAX
    &&& c.wal_segment_size_mb * 1048576 <= u64::MAX
}

impl Config {
    /// How much is logged. An unknown name means as much as with info.
    pub fn get_log_level(&self) -> (l: LogLevel)
        ensures
            l == (if self.verbose {
                LogLevel::Debug
            } else {
                match level_named(text::lower(self.log_level@)) {
                    Some(level) => level,
                    None => LogLevel::Info,
                }
            }),
    {
        if self.verbose {
            return LogLevel::Debug;
        }
        let name: String = text::to_lowercase(self.log_level.as_str());
        match find_level(name.as_str()) {
            Some(level) => level,
            None => LogLevel::Info,
        }
    }

    /// What is set for the storage engine.
    pub open spec fn choices(self) -> StorageConfigBuilder {
        StorageConfigBuilder {
            memtable_size_threshold: Some((self.memtable_size_mb * 1048576) as u64),
            sstable_block_size: Some((self.block_size_kb * 1024) as usize),
            max_level0_files: Some(self.max_level0_files),
            wal_segment_size: Some((self.wal_segment_size_mb * 1048576) as u64),
            bloom_false_positive_rate: Some(self.bloom_fp_rate),
            max_sstable_file_handles: None,
        }
    }

    /// Whether the sizes can be counted in bytes.
    pub fn has_countable_sizes(&self) -> (r: bool)
        ensures
            r == sizes_countable(*self),
    {
        self.memtable_size_mb <= u64::MAX / 1048576 && self.block_size_kb <= usize::MAX / 1024
            && self.wal_segment_size_mb <= u64::MAX / 1048576
    }

    /// The settings of the storage engine.
    pub fn to_storage_config(&self) -> (r: Result<StorageConfig, String>)
        requires
            sizes_countable(*self),
        ensures
            match self.choices().settings().problem() {
                None => r matches Ok(c) && c == self.choices().settings(),
                Some(message) => r matches Err(e) && e@ == "invalid storage config: "@ + message,
            },
    {
        let built = StorageConfig::builder().memtable_size_threshold(
            self.memtable_size_mb * 1048576,
        ).sstable_block_size(self.block_size_kb * 1024).max_level0_files(
            self.max_level0_files,
        ).wal_segment_size(self.wal_segment_size_mb * 1048576).bloom_false_positive_rate(
            self.bloom_fp_rate,
        );
        match built.build() {
            Ok(c) => Ok(c),
            Err(e) => {
                let mut message = "invalid storage config: ".to_owned();
                message.append(e.describe().as_str());
                Err(message)
            },
        }
    }

    /// The settings of the node, where it is one of a cluster.
    pub fn to_raft_node_config(&self) -> (r: Option<RaftNodeConfig>)
        ensures
            !self.raft_mode ==> r is None,
            self.raft_mode ==> (r matches Some(c) && c.node_id == self.raft_node_id && peer_views(
                c.peers@,
            ) == peers_of(self.raft_peers@) && c.http_bind@ == self.raft_http_bind@ && c.raft_dir@
                == path::join(self.data_dir@, "raft"@)),
    {
        if !self.raft_mode {
            return None;
        }
        Some(
            RaftNodeConfig {
                node_id: self.raft_node_id,
                peers: parse_peers(self.raft_peers.as_str()),
                http_bind: self.raft_http_bind.clone(),
                raft_dir: join_path(self.data_dir.as_str(), "raft"),
            },
        )
    }
}

/// The parts of a text between the characters `mark`.
pub open spec fn split_at(s: Seq<char>, mark: char) -> Seq<Seq<char>>
    decreases s.len(),
{
    if s.len() == 0 {
        seq![seq![]]
    } else {
        let front = split_at(s.drop_last(), mark);
        if s.last() == mark {
            front.push(seq![])
        } else {
            front.drop_last().push(front.last().push(s.last()))
        }
    }
}

/// The characters of parts.
pub open spec fn part_views(parts: Seq<Vec<char>>) -> Seq<Seq<char>> {
    Seq::new(parts.len(), |i: int| parts[i]@)
}

/// The parts of a text between the characters `mark`.
fn split_chars(chars: &[char], mark: char) -> (parts: Vec<Vec<char>>)
    ensures
        part_views(parts@) == split_at(chars@, mark),
{
    let mut parts: Vec<Vec<char>> = Vec::new();
    let mut current: Vec<char> = Vec::new();
    let mut i: usize = 0;
    proof {
        assert(chars@.take(0) =~= seq![]);
        assert(current@ =~= seq![]);
        assert(part_views(parts@).push(current@) =~= seq![seq![]]);
    }
    while i < chars.len()
        invariant
            i <= chars@.len(),
            part_views(parts@).push(current@) == split_at(chars@.take(i as int), mark),
        decreases chars@.len() - i,
    {
        let ghost (done, part) = (part_views(parts@), current@);
        let ghost before = split_at(chars@.take(i as int), mark);
        proof {
            assert(chars@.take(i + 1).drop_last() =~= chars@.take(i as int));
            assert(chars@.take(i + 1).last() == chars@[i as int]);
            assert(before.drop_last() =~= done);
            assert(before.last() == part);
        }
        if chars[i] == mark {
            parts.push(current);
            current = Vec::new();
            proof {
                assert(current@ =~= seq![]);
                assert(part_views(parts@) =~= done.push(part));
                assert(done.push(part) =~= before);
            }
        } else {
            current.push(chars[i]);
        }
        i = i + 1;
    }
    let ghost (done, part) = (part_views(parts@), current@);
    parts.push(current);
    assert(part_views(parts@) =~= done.push(part));
    assert(chars@.take(i as int) =~= chars@);
    parts
}

/// A node of a cluster: its number and its address.
#[verifier::ext_equal]
pub struct PeerView {
    pub id: u64,
    pub address: Seq<char>,
}

/// What nodes are.
pub open spec fn peer_views(peers: Seq<(u64, String)>) -> Seq<PeerView> {
    Seq::new(peers.len(), |i: int| PeerView { id: peers[i].0, address: peers[i].1@ })
}

/// The node that `id:host:port` names, with white space around it or not.
pub open spec fn peer_of(s: Seq<char>) -> Option<PeerView> {
    let parts = split_at(text::trimmed(s), ':');
    if s.len() == 0 || parts.len() != 3 {
        None
    } else {
        match text::u64_value(parts[0]) {
            None => None,
            Some(id) => Some(PeerView { id, address: parts[1] + ":"@ + parts[2] }),
        }
    }
}

/// The nodes that parts name; what names no node is passed over.
pub open spec fn peers_in(parts: Seq<Seq<char>>) -> Seq<PeerView>
    decreases parts.len(),
{
    if parts.len() == 0 {
        seq![]
    } else {
        match peer_of(parts.last()) {
            None => peers_in(parts.drop_last()),
            Some(p) => peers_in(parts.drop_last()).push(p),
        }
    }
}

/// The nodes that a text with commas names.
pub open spec fn peers_of(s: Seq<char>) -> Seq<PeerView> {
    peers_in(split_at(s, ','))
}

/// The node that `id:host:port` names.
fn parse_peer(spec_text: &Vec<char>) -> (r: Option<(u64, String)>)
    ensures
        match r {
            Some(p) => peer_of(spec_text@) == Some(PeerView { id: p.0, address: p.1@ }),
            None => peer_of(spec_text@) is None,
        },
{
    if spec_text.len() == 0 {
        return None;
    }
    let whole: String = text::string_of(spec_text.as_slice());
    let chars: Vec<char> = text::trim_chars(whole.as_str());
    let parts: Vec<Vec<char>> = split_chars(chars.as_slice(), ':');
    let ghost views = part_views(parts@);
    if parts.len() != 3 {
        return None;
    }
    assert(views[0] == parts@[0]@ && views[1] == parts@[1]@ && views[2] == parts@[2]@);
    match text::parse_u64(parts[0].as_slice()) {
        None => None,
        Some(id) => {
            let mut address: String = text::string_of(parts[1].as_slice());
            address.append(":");
            let port: String = text::string_of(parts[2].as_slice());
            address.append(port.as_str());
            Some((id, address))
        },
    }
}

/// The nodes that a text with commas names.
pub fn parse_peers(peers: &str) -> (out: Vec<(u64, String)>)
    ensures
        peer_views(out@) == peers_of(peers@),
{
    let chars: Vec<char> = text::chars_of(peers);
    let parts: Vec<Vec<char>> = split_chars(chars.as_slice(), ',');
    let ghost all = part_views(parts@);
    let mut out: Vec<(u64, String)> = Vec::new();
    let mut i: usize = 0;
    assert(peer_views(out@) =~= peers_in(all.take(0)));
    while i < parts.len()
        invariant
            i <= parts@.len(),
            all == part_views(parts@),
            peer_views(out@) == peers_in(all.take(i as int)),
        decreases parts@.len() - i,
    {
        let ghost before = peer_views(out@);
        proof {
            assert(all.take(i + 1).drop_last() =~= all.take(i as int));
            assert(all.take(i + 1).last() == parts@[i as int]@);
        }
        match parse_peer(&parts[i]) {
            None => {},
            Some(p) => {
                let ghost v = PeerView { id: p.0, address: p.1@ };
                out.push(p);
                assert(peer_views(out@) =~= before.push(v));
            },
        }
        i = i + 1;
    }
    assert(all.take(i as int) =~= all);
    out
}

/// A text is not of the form `id:host:port`.
pub open spec fn is_malformed(s: Seq<char>) -> bool {
    s.len() > 0 && split_at(text::trimmed(s), ':').len() != 3
}

/// The parts that are not of the form `id:host:port`.
pub open spec fn malformed_in(parts: Seq<Seq<char>>) -> Seq<Seq<char>>
    decreases parts.len(),
{
    if parts.len() == 0 {
        seq![]
    } else if is_malformed(parts.last()) {
        malformed_in(parts.drop_last()).push(parts.last())
    } else {
        malformed_in(parts.drop_last())
    }
}

/// The parts of a text with commas that a warning is due for: they are not of the form
/// `id:host:port`.
pub fn malformed_peers(peers: &str) -> (out: Vec<String>)
    ensures
        keyed::views(out@) == malformed_in(split_at(peers@, ',')),
{
    let chars: Vec<char> = text::chars_of(peers);
    let parts: Vec<Vec<char>> = split_chars(chars.as_slice(), ',');
    let ghost all = part_views(parts@);
    let mut out: Vec<String> = Vec::new();
    let mut i: usize = 0;
    assert(keyed::views(out@) =~= malformed_in(all.take(0)));
    while i < parts.len()
        invariant
            i <= parts@.len(),
            all == part_views(parts@),
            keyed::views(out@) == malformed_in(all.take(i as int)),
        decreases parts@.len() - i,
    {
        let ghost before = keyed::views(out@);
        proof {
            assert(all.take(i + 1).drop_last() =~= all.take(i as int));
            assert(all.take(i + 1).last() == parts@[i as int]@);
        }
        let whole: String = text::string_of(parts[i].as_slice());
        let trimmed: Vec<char> = text::trim_chars(whole.as_str());
        let fields: Vec<Vec<char>> = split_chars(trimmed.as_slice(), ':');
        assert(part_views(fields@).len() == fields@.len());
        if parts[i].len() > 0 && fields.len() != 3 {
            out.push(whole);
            assert(keyed::views(out@) =~= before.push(parts@[i as int]@));
        }
        i = i + 1;
    }
    assert(all.take(i as int) =~= all);
    out
}

/// The name of a level.
pub open spec fn level_text(level: LogLevel) -> Seq<char> {
    match level {
        LogLevel::Off => "off"@,
        LogLevel::Error => "error"@,
        LogLevel::Warn => "warn"@,
        LogLevel::Info => "info"@,
        LogLevel::Debug => "debug"@,
        LogLevel::Trace => "trace"@,
    }
}

/// Each level is found by its name, and no other name finds it.
pub proof fn law_level_names(level: LogLevel, name: Seq<char>)
    ensures
        level_named(level_text(level)) == Some(level),
        level_named(name) == Some(level) ==> name == level_text(level),
{
    reveal_strlit("off");
    reveal_strlit("error");
    reveal_strlit("warn");
    reveal_strlit("info");
    reveal_strlit("debug");
    reveal_strlit("trace");
    assert("error"@[0] == 'e' && "debug"@[0] == 'd' && "trace"@[0] == 't');
    assert("warn"@[0] == 'w' && "info"@[0] == 'i');
}

/// The sizes are set in bytes: MB for the memtable and the log segments, KB for blocks.
pub proof fn law_sizes_in_bytes(c: Config)
    requires
        sizes_countable(c),
    ensures
        c.choices().memtable_size_threshold matches Some(n) && n == config::megabytes(
            c.memtable_size_mb as int,
        ),
        c.choices().sstable_block_size matches Some(n) && n == config::kilobytes(
            c.block_size_kb as int,
        ),
        c.choices().wal_segment_size matches Some(n) && n == config::megabytes(
            c.wal_segment_size_mb as int,
        ),
        c.choices().max_level0_files == Some(c.max_level0_files),
        c.choices().bloom_false_positive_rate == Some(c.bloom_fp_rate),
        c.choices().max_sstable_file_handles is None,
{
}

/// Parts one after the other, with `mark` between them.
pub open spec fn joined(parts: Seq<Seq<char>>, mark: char) -> Seq<char>
    decreases parts.len(),
{
    if parts.len() == 0 {
        seq![]
    } else if parts.len() == 1 {
        parts[0]
    } else {
        joined(parts.drop_last(), mark).push(mark) + parts.last()
    }
}

/// The text does not have the character.
pub open spec fn lacks(s: Seq<char>, mark: char) -> bool {
    forall|i: int| 0 <= i < s.len() ==> #[trigger] s[i] != mark
}

/// None of the parts has the character.
pub open spec fn all_lack(parts: Seq<Seq<char>>, mark: char) -> bool {
    forall|i: int| 0 <= i < parts.len() ==> lacks(#[trigger] parts[i], mark)
}

proof fn lemma_split_more(s: Seq<char>, t: Seq<char>, mark: char)
    requires
        lacks(t, mark),
    ensures
        split_at(s, mark).len() > 0,
        split_at(s + t, mark) == split_at(s, mark).drop_last().push(split_at(s, mark).last() + t),
    decreases t.len(), s.len(),
{
    let front = split_at(s, mark);
    if s.len() > 0 {
        lemma_split_more(s.drop_last(), seq![], mark);
    }
    if t.len() == 0 {
        assert(s + t =~= s);
        assert(front.last() + t =~= front.last());
        assert(front.drop_last().push(front.last()) =~= front);
    } else {
        let u = t.drop_last();
        assert forall|i: int| 0 <= i < u.len() implies #[trigger] u[i] != mark by {
            assert(u[i] == t[i]);
        }
        lemma_split_more(s, u, mark);
        assert((s + t).drop_last() =~= s + u);
        assert((s + t).last() == t[t.len() - 1]);
        let most = split_at(s + u, mark);
        assert(most.drop_last() =~= front.drop_last());
        assert(most.last() == front.last() + u);
        assert((front.last() + u).push(t.last()) =~= front.last() + t);
    }
}

/// What was joined is split into the same parts again.
pub proof fn law_split_undoes_join(parts: Seq<Seq<char>>, mark: char)
    requires
        parts.len() > 0,
        all_lack(parts, mark),
    ensures
        split_at(joined(parts, mark), mark) == parts,
    decreases parts.len(),
{
    let none = Seq::<char>::empty();
    if parts.len() == 1 {
        assert(lacks(parts[0], mark));
        lemma_split_more(none, parts[0], mark);
        assert(none + parts[0] =~= parts[0]);
        assert(split_at(none, mark).drop_last().push(none + parts[0]) =~= parts);
    } else {
        let (front, last) = (parts.drop_last(), parts.last());
        assert(parts[parts.len() - 1] == last);
        assert forall|i: int| 0 <= i < front.len() implies lacks(#[trigger] front[i], mark) by {
            assert(front[i] == parts[i]);
        }
        law_split_undoes_join(front, mark);
        let head = joined(front, mark).push(mark);
        assert(head.drop_last() =~= joined(front, mark));
        assert(split_at(head, mark) == front.push(none));
        lemma_split_more(head, last, mark);
        assert(front.push(none).drop_last() =~= front);
        assert(none + last =~= last);
        assert(front.push(last) =~= parts);
    }
}

/// The parts that a text is split into have no mark, and joined they are the text.
pub proof fn law_join_undoes_split(s: Seq<char>, mark: char)
    ensures
        split_at(s, mark).len() > 0,
        all_lack(split_at(s, mark), mark),
        joined(split_at(s, mark), mark) == s,
    decreases s.len(),
{
    let none = Seq::<char>::empty();
    if s.len() == 0 {
        assert(joined(split_at(s, mark), mark) =~= s);
    } else {
        let parts = split_at(s.drop_last(), mark);
        law_join_undoes_split(s.drop_last(), mark);
        let all = split_at(s, mark);
        let n = parts.len() - 1;
        assert(lacks(parts[n], mark));
        if s.last() == mark {
            assert(all.drop_last() =~= parts);
            assert(joined(parts, mark).push(mark) + none =~= s);
            assert forall|i: int| 0 <= i < all.len() implies lacks(#[trigger] all[i], mark) by {
                if i <= n {
                    assert(all[i] == parts[i]);
                }
            }
        } else {
            let more = parts.last().push(s.last());
            assert(all == parts.drop_last().push(more));
            assert forall|i: int| 0 <= i < all.len() implies lacks(#[trigger] all[i], mark) by {
                if i < n {
                    assert(all[i] == parts[i]);
                } else {
                    assert(all[i] == more);
                    assert(parts[n] == parts.last());
                }
            }
            if n == 0 {
                assert(all[0] == more);
                assert(more =~= s);
            } else {
                assert(all.drop_last() =~= parts.drop_last());
                assert(all.last() == more);
                assert(joined(all, mark) =~= joined(parts, mark).push(s.last()));
                assert(joined(parts, mark).push(s.last()) =~= s);
            }
        }
    }
}

/// A node as it is written: its number, its host and its port.
pub struct WrittenPeer {
    pub id: u64,
    pub host: Seq<char>,
    pub port: Seq<char>,
}

impl WrittenPeer {
    /// The node can be written so.
    pub open spec fn ok(self) -> bool {
        &&& lacks(self.host, ':') && lacks(self.host, ',')
        &&& lacks(self.port, ':') && lacks(self.port, ',')
        &&& self.port.len() > 0
        &&& !text::white_space(self.port.last())
    }

    /// The node as it is written.
    pub open spec fn written(self) -> Seq<char> {
        joined(seq![text::decimal(self.id as nat), self.host, self.port], ':')
    }

    /// The node.
    pub open spec fn peer(self) -> PeerView {
        PeerView { id: self.id, address: self.host.push(':') + self.port }
    }
}

proof fn lemma_three_joined(a: Seq<char>, b: Seq<char>, c: Seq<char>, mark: char)
    ensures
        joined(seq![a, b, c], mark) == a.push(mark) + b.push(mark) + c,
{
    assert(seq![a, b, c].drop_last() =~= seq![a, b]);
    assert(seq![a, b].drop_last() =~= seq![a]);
    assert(joined(seq![a], mark) == a);
    assert(joined(seq![a, b], mark) == a.push(mark) + b);
    assert(joined(seq![a, b, c], mark) == (a.push(mark) + b).push(mark) + c);
    assert(joined(seq![a, b, c], mark) =~= a.push(mark) + b.push(mark) + c);
}

/// A node is read as it was written, with white space around it or not.
pub proof fn law_peer_reads_back(p: WrittenPeer, before: Seq<char>, after: Seq<char>)
    requires
        p.ok(),
        text::blank(before),
        text::blank(after),
    ensures
        peer_of(before + p.written() + after) == Some(p.peer()),
{
    let digits = text::decimal(p.id as nat);
    text::law_decimal_reads_back(p.id as nat);
    let fields = seq![digits, p.host, p.port];
    lemma_three_joined(digits, p.host, p.port, ':');
    let w = p.written();
    assert(w[0] == digits[0]);
    assert('0' <= digits[0] <= '9');
    assert(w.last() == p.port.last());
    text::law_trimmed(before, w, after);
    assert forall|i: int| 0 <= i < fields.len() implies lacks(#[trigger] fields[i], ':') by {
        if i == 0 {
            assert forall|j: int| 0 <= j < digits.len() implies #[trigger] digits[j] != ':' by {
                assert('0' <= digits[j] <= '9');
            }
        }
    }
    law_split_undoes_join(fields, ':');
    reveal_strlit(":");
    assert(p.host + ":"@ + p.port =~= p.host.push(':') + p.port);
}

/// Nodes with commas between them are read one by one, each as it was written.
pub proof fn law_peers_read_back(peers: Seq<WrittenPeer>, pad: Seq<char>)
    requires
        peers.len() > 0,
        forall|i: int| 0 <= i < peers.len() ==> (#[trigger] peers[i]).ok(),
        text::blank(pad),
    ensures
        peers_of(
            joined(Seq::new(peers.len(), |i: int| pad + peers[i].written() + pad), ','),
        ) == Seq::new(peers.len(), |i: int| peers[i].peer()),
{
    let parts = Seq::new(peers.len(), |i: int| pad + peers[i].written() + pad);
    assert forall|i: int| 0 <= i < parts.len() implies lacks(#[trigger] parts[i], ',') by {
        let p = peers[i];
        let digits = text::decimal(p.id as nat);
        text::law_decimal_reads_back(p.id as nat);
        lemma_three_joined(digits, p.host, p.port, ':');
        let w = digits.push(':') + p.host.push(':') + p.port;
        assert(p.written() == w);
        assert forall|j: int| 0 <= j < parts[i].len() implies #[trigger] parts[i][j] != ',' by {
            let k = j - pad.len();
            if k < 0 {
                assert(parts[i][j] == pad[j]);
                assert(text::white_space(pad[j]));
            } else if k >= w.len() {
                assert(parts[i][j] == pad[k - w.len()]);
                assert(text::white_space(pad[k - w.len()]));
            } else if k < digits.len() {
                assert(parts[i][j] == digits[k]);
                assert('0' <= digits[k] <= '9');
            } else if k > digits.len() && k < digits.len() + 1 + p.host.len() {
                assert(parts[i][j] == p.host[k - digits.len() - 1]);
            } else if k > digits.len() + 1 + p.host.len() {
                assert(parts[i][j] == p.port[k - digits.len() - 2 - p.host.len()]);
            }
        }
    }
    law_split_undoes_join(parts, ',');
    lemma_peers_in(peers, parts, pad);
}

proof fn lemma_peers_in(peers: Seq<WrittenPeer>, parts: Seq<Seq<char>>, pad: Seq<char>)
    requires
        parts.len() == peers.len(),
        forall|i: int| 0 <= i < peers.len() ==> (#[trigger] peers[i]).ok(),
        forall|i: int|
            0 <= i < peers.len() ==> #[trigger] parts[i] == pad + peers[i].written() + pad,
        text::blank(pad),
    ensures
        peers_in(parts) == Seq::new(peers.len(), |i: int| peers[i].peer()),
    decreases peers.len(),
{
    let all = Seq::new(peers.len(), |i: int| peers[i].peer());
    if peers.len() == 0 {
        assert(peers_in(parts) =~= all);
    } else {
        let n = peers.len() - 1;
        let (f, g) = (peers.drop_last(), parts.drop_last());
        assert forall|i: int| 0 <= i < f.len() implies (#[trigger] f[i]).ok() by {
            assert(f[i] == peers[i]);
        }
        assert forall|i: int| 0 <= i < f.len() implies #[trigger] g[i] == pad + f[i].written()
            + pad by {
            assert(g[i] == parts[i] && f[i] == peers[i]);
        }
        lemma_peers_in(f, g, pad);
        assert(parts.last() == parts[n]);
        law_peer_reads_back(peers[n], pad, pad);
        assert(Seq::new(f.len(), |i: int| f[i].peer()).push(peers[n].peer()) =~= all);
    }
}

/// What names no node is passed over: it is the empty part, or one that is not made of
/// three fields, or one whose first field is no number. A warning is due for those that are
/// not made of three fields.
pub proof fn law_not_a_peer(fields: Seq<Seq<char>>, before: Seq<char>, after: Seq<char>)
    requires
        fields.len() > 0,
        all_lack(fields, ':'),
        text::blank(before),
        text::blank(after),
        joined(fields, ':').len() > 0,
        !text::white_space(joined(fields, ':')[0]),
        !text::white_space(joined(fields, ':').last()),
    ensures
        ({
            let s = before + joined(fields, ':') + after;
            &&& is_malformed(s) == (fields.len() != 3)
            &&& peer_of(s) is None <==> (fields.len() != 3 || text::u64_value(fields[0]) is None)
        }),
        peer_of(Seq::<char>::empty()) is None,
        !is_malformed(Seq::<char>::empty()),
{
    text::law_trimmed(before, joined(fields, ':'), after);
    law_split_undoes_join(fields, ':');
}

/// One more part adds the node that it names, and a warning where one is due, behind the
/// others.
pub proof fn law_parts_one_by_one(parts: Seq<Seq<char>>, s: Seq<char>)
    ensures
        peers_in(Seq::<Seq<char>>::empty()).len() == 0,
        malformed_in(Seq::<Seq<char>>::empty()).len() == 0,
        peers_in(parts.push(s)) == (match peer_of(s) {
            Some(p) => peers_in(parts).push(p),
            None => peers_in(parts),
        }),
        malformed_in(parts.push(s)) == (if is_malformed(s) {
            malformed_in(parts).push(s)
        } else {
            malformed_in(parts)
        }),
{
    assert(parts.push(s).drop_last() =~= parts);
    assert(parts.push(s).last() == s);
}

} // verus!
