//! Settings of the storage engine.
use vstd::prelude::*;
use vstd::string::*;
use crate::error::{DBError, DBFailure};
use crate::text;

verus! {

/// The rate of false reports that filters are made for, as the bits of a number in the
/// binary64 format of IEEE 754.
#[derive(Clone, Copy, Debug, PartialEq, Eq, Structural)]
pub struct FalsePositiveRate {
    pub bits: u64,
}

/// The bits of 1.0.
pub const ONE_BITS: u64 = 0x3FF0_0000_0000_0000;

/// The bits of 0.01.
pub const DEFAULT_RATE_BITS: u64 = 0x3F84_7AE1_47AE_147B;

impl FalsePositiveRate {
    /// The bits are not those of a number.
    pub open spec fn not_a_number(self) -> bool {
        0x7FF0_0000_0000_0000 < self.bits < 0x8000_0000_0000_0000 || 0xFFF0_0000_0000_0000
            < self.bits
    }

    /// The rate is neither zero or less nor one or more.
    pub open spec fn usable(self) -> bool {
        0 < self.bits < ONE_BITS || self.not_a_number()
    }

    /// Whether the rate is neither zero or less nor one or more.
    pub fn is_usable(&self) -> (r: bool)
        ensures
            r == self.usable(),
    {
        (0 < self.bits && self.bits < ONE_BITS) || (0x7FF0_0000_0000_0000 < self.bits && self.bits
            < 0x8000_0000_0000_0000) || 0xFFF0_0000_0000_0000 < self.bits
    }
}

/// Settings of the storage engine.
#[derive(Clone, Copy, Debug, PartialEq, Eq, Structural)]
pub struct StorageConfig {
    /// The number of memtable bytes at which the memtable is flushed.
    pub memtable_size_threshold: u64,
    /// The number of bytes of a block.
    pub sstable_block_size: usize,
    /// The number of files of level 0 at which they are merged.
    pub max_level0_files: usize,
    /// The number of bytes at which a log segment is full.
    pub wal_segment_size: u64,
    /// The rate of false reports that filters are made for.
    pub bloom_false_positive_rate: FalsePositiveRate,
    /// The number of file handles that are kept open.
    pub max_sstable_file_handles: usize,
}

/// The settings where nothing else is said.
pub open spec fn default_settings() -> StorageConfig {
    StorageConfig {
        memtable_size_threshold: 4194304,
        sstable_block_size: 4096,
        max_level0_files: 2,
        wal_segment_size: 1048576,
        bloom_false_positive_rate: FalsePositiveRate { bits: DEFAULT_RATE_BITS },
        max_sstable_file_handles: 64,
    }
}

impl Default for StorageConfig {
    fn default() -> (c: StorageConfig)
        ensures
            c == default_settings(),
    {
        StorageConfig {
            memtable_size_threshold: 4194304,
            sstable_block_size: 4096,
            max_level0_files: 2,
            wal_segment_size: 1048576,
            bloom_false_positive_rate: FalsePositiveRate { bits: DEFAULT_RATE_BITS },
            max_sstable_file_handles: 64,
        }
    }
}

impl StorageConfig {
    /// What is wrong with the settings: the first thing, in the order of the fields.
    pub open spec fn problem(self) -> Option<Seq<char>> {
        if self.memtable_size_threshold < 1048576 {
            Some("memtable_size_threshold must be >= 1 MB"@)
        } else if self.memtable_size_threshold > 67108864 {
            Some("memtable_size_threshold must be <= 64 MB"@)
        } else if self.sstable_block_size < 1024 {
            Some("sstable_block_size must be >= 1 KB"@)
        } else if self.sstable_block_size > 65536 {
            Some("sstable_block_size must be <= 64 KB"@)
        } else if !(1 <= self.max_level0_files <= 10) {
            Some("max_level0_files must be between 1 and 10"@)
        } else if self.wal_segment_size < 262144 {
            Some("wal_segment_size must be >= 256 KB"@)
        } else if self.wal_segment_size > 10485760 {
            Some("wal_segment_size must be <= 10 MB"@)
        } else if !self.bloom_false_positive_rate.usable() {
            Some("bloom_false_positive_rate must be between 0.0 and 1.0 (exclusive)"@)
        } else if !(8 <= self.max_sstable_file_handles <= 512) {
            Some("max_sstable_file_handles must be between 8 and 512"@)
        } else {
            None
        }
    }

    /// A builder for settings.
    pub fn builder() -> (b: StorageConfigBuilder)
        ensures
            b == no_choices(),
    {
        StorageConfigBuilder::new()
    }

    /// Accepts the settings if nothing is wrong with them.
    pub fn validate(&self) -> (r: Result<(), DBError>)
        ensures
            match self.problem() {
                None => r is Ok,
                Some(message) => r matches Err(e) && e@ == DBFailure::StorageError(message),
            },
    {
        if self.memtable_size_threshold < 1048576 {
            return Err(DBError::StorageError("memtable_size_threshold must be >= 1 MB".to_owned()));
        }
        if self.memtable_size_threshold > 67108864 {
            return Err(
                DBError::StorageError("memtable_size_threshold must be <= 64 MB".to_owned()),
            );
        }
        if self.sstable_block_size < 1024 {
            return Err(DBError::StorageError("sstable_block_size must be >= 1 KB".to_owned()));
        }
        if self.sstable_block_size > 65536 {
            return Err(DBError::StorageError("sstable_block_size must be <= 64 KB".to_owned()));
        }
        if self.max_level0_files < 1 || self.max_level0_files > 10 {
            return Err(
                DBError::StorageError("max_level0_files must be between 1 and 10".to_owned()),
            );
        }
        if self.wal_segment_size < 262144 {
            return Err(DBError::StorageError("wal_segment_size must be >= 256 KB".to_owned()));
        }
        if self.wal_segment_size > 10485760 {
            return Err(DBError::StorageError("wal_segment_size must be <= 10 MB".to_owned()));
        }
        if !self.bloom_false_positive_rate.is_usable() {
            return Err(
                DBError::StorageError(
                    "bloom_false_positive_rate must be between 0.0 and 1.0 (exclusive)".to_owned(),
                ),
            );
        }
        if self.max_sstable_file_handles < 8 || self.max_sstable_file_handles > 512 {
            return Err(
                DBError::StorageError(
                    "max_sstable_file_handles must be between 8 and 512".to_owned(),
                ),
            );
        }
        Ok(())
    }
}

/// Collects settings; what is not set is taken from the defaults.
#[derive(Clone, Copy, Debug, PartialEq, Eq, Structural)]
pub struct StorageConfigBuilder {
    pub memtable_size_threshold: Option<u64>,
    pub sstable_block_size: Option<usize>,
    pub max_level0_files: Option<usize>,
    pub wal_segment_size: Option<u64>,
    pub bloom_false_positive_rate: Option<FalsePositiveRate>,
    pub max_sstable_file_handles: Option<usize>,
}

/// Nothing is set.
pub open spec fn no_choices() -> StorageConfigBuilder {
    StorageConfigBuilder {
        memtable_size_threshold: None,
        sstable_block_size: None,
        max_level0_files: None,
        wal_segment_size: None,
        bloom_false_positive_rate: None,
        max_sstable_file_handles: None,
    }
}

/// What was set, or else the default.
pub open spec fn or_default<T>(choice: Option<T>, default: T) -> T {
    match choice {
        Some(v) => v,
        None => default,
    }
}

impl StorageConfigBuilder {
    /// The settings that were collected.
    pub open spec fn settings(self) -> StorageConfig {
        let d = default_settings();
        StorageConfig {
            memtable_size_threshold: or_default(
                self.memtable_size_threshold,
                d.memtable_size_threshold,
            ),
            sstable_block_size: or_default(self.sstable_block_size, d.sstable_block_size),
            max_level0_files: or_default(self.max_level0_files, d.max_level0_files),
            wal_segment_size: or_default(self.wal_segment_size, d.wal_segment_size),
            bloom_false_positive_rate: or_default(
                self.bloom_false_positive_rate,
                d.bloom_false_positive_rate,
            ),
            max_sstable_file_handles: or_default(
                self.max_sstable_file_handles,
                d.max_sstable_file_handles,
            ),
        }
    }

    /// A builder without settings.
    pub fn new() -> (b: StorageConfigBuilder)
        ensures
            b == no_choices(),
    {
        StorageConfigBuilder {
            memtable_size_threshold: None,
            sstable_block_size: None,
            max_level0_files: None,
            wal_segment_size: None,
            bloom_false_positive_rate: None,
            max_sstable_file_handles: None,
        }
    }

    /// Sets the number of memtable bytes at which the memtable is flushed.
    pub fn memtable_size_threshold(self, size: u64) -> (b: StorageConfigBuilder)
        ensures
            b == (StorageConfigBuilder { memtable_size_threshold: Some(size), ..self }),
    {
        StorageConfigBuilder { memtable_size_threshold: Some(size), ..self }
    }

    /// Sets the number of bytes of a block.
    pub fn sstable_block_size(self, size: usize) -> (b: StorageConfigBuilder)
        ensures
            b == (StorageConfigBuilder { sstable_block_size: Some(size), ..self }),
    {
        StorageConfigBuilder { sstable_block_size: Some(size), ..self }
    }

    /// Sets the number of files of level 0 at which they are merged.
    pub fn max_level0_files(self, count: usize) -> (b: StorageConfigBuilder)
        ensures
            b == (StorageConfigBuilder { max_level0_files: Some(count), ..self }),
    {
        StorageConfigBuilder { max_level0_files: Some(count), ..self }
    }

    /// Sets the number of bytes at which a log segment is full.
    pub fn wal_segment_size(self, size: u64) -> (b: StorageConfigBuilder)
        ensures
            b == (StorageConfigBuilder { wal_segment_size: Some(size), ..self }),
    {
        StorageConfigBuilder { wal_segment_size: Some(size), ..self }
    }

    /// Sets the rate of false reports that filters are made for.
    pub fn bloom_false_positive_rate(self, rate: FalsePositiveRate) -> (b: StorageConfigBuilder)
        ensures
            b == (StorageConfigBuilder { bloom_false_positive_rate: Some(rate), ..self }),
    {
        StorageConfigBuilder { bloom_false_positive_rate: Some(rate), ..self }
    }

    /// Sets the number of file handles that are kept open.
    pub fn max_sstable_file_handles(self, count: usize) -> (b: StorageConfigBuilder)
        ensures
            b == (StorageConfigBuilder { max_sstable_file_handles: Some(count), ..self }),
    {
        StorageConfigBuilder { max_sstable_file_handles: Some(count), ..self }
    }

    /// The settings that were collected, if nothing is wrong with them.
    pub fn build(self) -> (r: Result<StorageConfig, DBError>)
        ensures
            match self.settings().problem() {
                None => r matches Ok(c) && c == self.settings(),
                Some(message) => r matches Err(e) && e@ == DBFailure::StorageError(message),
            },
    {
        let default = StorageConfig::default();
        let config = StorageConfig {
            memtable_size_threshold: match self.memtable_size_threshold {
                Some(v) => v,
                None => default.memtable_size_threshold,
            },
            sstable_block_size: match self.sstable_block_size {
                Some(v) => v,
                None => default.sstable_block_size,
            },
            max_level0_files: match self.max_level0_files {
                Some(v) => v,
                None => default.max_level0_files,
            },
            wal_segment_size: match self.wal_segment_size {
                Some(v) => v,
                None => default.wal_segment_size,
            },
            bloom_false_positive_rate: match self.bloom_false_positive_rate {
                Some(v) => v,
                None => default.bloom_false_positive_rate,
            },
            max_sstable_file_handles: match self.max_sstable_file_handles {
                Some(v) => v,
                None => default.max_sstable_file_handles,
            },
        };
        match config.validate() {
            Err(e) => Err(e),
            Ok(()) => Ok(config),
        }
    }
}

impl Default for StorageConfigBuilder {
    fn default() -> (b: StorageConfigBuilder)
        ensures
            b == no_choices(),
    {
        StorageConfigBuilder::new()
    }
}

/// A number of KB in bytes.
pub open spec fn kilobytes(n: int) -> int {
    n * 1024
}

/// A number of MB in bytes.
pub open spec fn megabytes(n: int) -> int {
    n * 1024 * 1024
}

/// A rate is usable where it lies between zero and one, both left out; what is not a
/// number is not refused either. The bits of the numbers from zero on ascend with them,
/// and those of the negative numbers have the highest bit set.
pub proof fn law_rate_between_zero_and_one(rate: FalsePositiveRate)
    ensures
        rate.bits == 0 ==> !rate.usable(),
        0 < rate.bits < ONE_BITS ==> rate.usable(),
        ONE_BITS <= rate.bits <= 0x7FF0_0000_0000_0000 ==> !rate.usable(),
        0x8000_0000_0000_0000 <= rate.bits <= 0xFFF0_0000_0000_0000 ==> !rate.usable(),
{
}

/// Settings are accepted just where each of them is within its bounds, and the defaults
/// are accepted.
pub proof fn law_settings_within_bounds(c: StorageConfig)
    ensures
        c.problem() is None <==> {
            &&& megabytes(1) <= c.memtable_size_threshold <= megabytes(64)
            &&& kilobytes(1) <= c.sstable_block_size <= kilobytes(64)
            &&& 1 <= c.max_level0_files <= 10
            &&& kilobytes(256) <= c.wal_segment_size <= megabytes(10)
            &&& c.bloom_false_positive_rate.usable()
            &&& 8 <= c.max_sstable_file_handles <= 512
        },
        default_settings().problem() is None,
{
}

/// The failure names the setting that is out of its bounds.
pub proof fn law_problem_names_setting(c: StorageConfig)
    ensures
        c.problem() matches Some(message) ==> {
            ||| text::has_prefix(message, "memtable_size_threshold must be"@) && !(megabytes(1)
                <= c.memtable_size_threshold <= megabytes(64))
            ||| text::has_prefix(message, "sstable_block_size must be"@) && !(kilobytes(1)
                <= c.sstable_block_size <= kilobytes(64))
            ||| text::has_prefix(message, "max_level0_files must be"@) && !(1 <= c.max_level0_files
                <= 10)
            ||| text::has_prefix(message, "wal_segment_size must be"@) && !(kilobytes(256)
                <= c.wal_segment_size <= megabytes(10))
            ||| text::has_prefix(message, "bloom_false_positive_rate must be"@)
                && !c.bloom_false_positive_rate.usable()
            ||| text::has_prefix(message, "max_sstable_file_handles must be"@) && !(8
                <= c.max_sstable_file_handles <= 512)
        },
{
    reveal_strlit("memtable_size_threshold must be");
    reveal_strlit("memtable_size_threshold must be >= 1 MB");
    reveal_strlit("memtable_size_threshold must be <= 64 MB");
    reveal_strlit("sstable_block_size must be");
    reveal_strlit("sstable_block_size must be >= 1 KB");
    reveal_strlit("sstable_block_size must be <= 64 KB");
    reveal_strlit("max_level0_files must be");
    reveal_strlit("max_level0_files must be between 1 and 10");
    reveal_strlit("wal_segment_size must be");
    reveal_strlit("wal_segment_size must be >= 256 KB");
    reveal_strlit("wal_segment_size must be <= 10 MB");
    reveal_strlit("bloom_false_positive_rate must be");
    reveal_strlit("bloom_false_positive_rate must be between 0.0 and 1.0 (exclusive)");
    reveal_strlit("max_sstable_file_handles must be");
    reveal_strlit("max_sstable_file_handles must be between 8 and 512");
    if let Some(m) = c.problem() {
        if c.memtable_size_threshold < 1048576 || c.memtable_size_threshold > 67108864 {
            assert(m.take(31) =~= "memtable_size_threshold must be"@);
        } else if c.sstable_block_size < 1024 || c.sstable_block_size > 65536 {
            assert(m.take(26) =~= "sstable_block_size must be"@);
        } else if !(1 <= c.max_level0_files <= 10) {
            assert(m.take(24) =~= "max_level0_files must be"@);
        } else if c.wal_segment_size < 262144 || c.wal_segment_size > 10485760 {
            assert(m.take(24) =~= "wal_segment_size must be"@);
        } else if !c.bloom_false_positive_rate.usable() {
            assert(m.take(33) =~= "bloom_false_positive_rate must be"@);
        } else {
            assert(m.take(32) =~= "max_sstable_file_handles must be"@);
        }
    }
}

/// What was set is in the settings, and what was not is as in the defaults.
pub proof fn law_choices_are_settings(b: StorageConfigBuilder)
    ensures
        b.memtable_size_threshold matches Some(v) ==> b.settings().memtable_size_threshold == v,
        b.sstable_block_size matches Some(v) ==> b.settings().sstable_block_size == v,
        b.max_level0_files matches Some(v) ==> b.settings().max_level0_files == v,
        b.wal_segment_size matches Some(v) ==> b.settings().wal_segment_size == v,
        b.bloom_false_positive_rate matches Some(v) ==> b.settings().bloom_false_positive_rate == v,
        b.max_sstable_file_handles matches Some(v) ==> b.settings().max_sstable_file_handles == v,
        b.memtable_size_threshold is None ==> b.settings().memtable_size_threshold == megabytes(4),
        b.sstable_block_size is None ==> b.settings().sstable_block_size == kilobytes(4),
        b.max_level0_files is None ==> b.settings().max_level0_files == 2,
        b.wal_segment_size is None ==> b.settings().wal_segment_size == megabytes(1),
        b.bloom_false_positive_rate is None ==> b.settings().bloom_false_positive_rate.bits
            == DEFAULT_RATE_BITS,
        b.max_sstable_file_handles is None ==> b.settings().max_sstable_file_handles == 64,
        no_choices().settings() == default_settings(),
{
}

} // verus!
