//! Reading a table of timestamped records.
use vstd::prelude::*;
use crate::error::{DBError, DBFailure, IoFailure};
use crate::storage::block::{Block, TimedBlock};
use crate::storage::bloom;
use crate::storage::bloom::BloomFilterWrapper;
use crate::storage::footer;
use crate::storage::footer::{read_sstable_bloom, read_sstable_footer, read_sstable_sparse_index,
    SSTableFooter};
use crate::storage::index::{SparseIndexEntry, SparseItem};
use crate::storage::keyed;

verus! {

/// A table that has been loaded.
pub struct SSTable {
    /// Its sparse index.
    pub index: Vec<SparseIndexEntry>,
    /// Its filter.
    pub bloom: BloomFilterWrapper,
    /// Its blocks.
    pub block: Vec<Block>,
}

/// The first `n` blocks of an index.
pub open spec fn timed_blocks_of(s: Seq<u8>, index: Seq<SparseItem>, n: nat) -> Result<
    Seq<TimedBlock>,
    DBFailure,
>
    decreases n,
{
    if n == 0 {
        Ok(seq![])
    } else {
        match timed_blocks_of(s, index, (n - 1) as nat) {
            Err(e) => Err(e),
            Ok(front) => match TimedBlock::parse(s, index[n - 1].block_offset) {
                Err(e) => Err(e),
                Ok((b, _)) => Ok(front.push(b)),
            },
        }
    }
}

proof fn lemma_blocks_err(s: Seq<u8>, index: Seq<SparseItem>, i: nat, n: nat)
    requires
        i <= n,
        timed_blocks_of(s, index, i) is Err,
    ensures
        timed_blocks_of(s, index, n) == timed_blocks_of(s, index, i),
    decreases n,
{
    if i < n {
        lemma_blocks_err(s, index, i, (n - 1) as nat);
    }
}

/// The footer and the sparse index of a table, and the bytes of its filter.
pub open spec fn timed_sections(s: Seq<u8>) -> Result<
    (SSTableFooter, Seq<SparseItem>, Seq<u8>),
    IoFailure,
> {
    match SSTableFooter::of_table(s) {
        Err(e) => Err(e),
        Ok(f) => match footer::sparse_index_of(s, f) {
            Err(e) => Err(e),
            Ok(index) => match footer::bloom_section_of(s, f) {
                Err(e) => Err(e),
                Ok(filter) => match bloom::parse_bloom(filter, 0) {
                    Err(e) => Err(e),
                    Ok(_) => Ok((f, index, filter)),
                },
            },
        },
    }
}

/// The sections of a table do not end before they start, and its filter can be made.
pub open spec fn sections_usable(s: Seq<u8>) -> bool {
    SSTableFooter::of_table(s) matches Ok(f) ==> {
        &&& f.index_block_start <= f.index_block_end
        &&& f.bloom_block_start <= f.bloom_block_end
        &&& footer::bloom_section_of(s, f) matches Ok(filter) ==> bloom::bloom_usable(filter, 0)
    }
}

impl SSTable {
    /// Whether `decode` may be called on the data.
    pub fn readable(data: &[u8]) -> (r: bool)
        ensures
            r == sections_usable(data@),
    {
        match read_sstable_footer(data) {
            Err(_) => true,
            Ok(f) => {
                if f.index_block_start > f.index_block_end || f.bloom_block_start
                    > f.bloom_block_end {
                    return false;
                }
                match footer::read_bloom_section(data, &f) {
                    Err(_) => true,
                    Ok(filter) => BloomFilterWrapper::decodable(filter.as_slice(), 0),
                }
            },
        }
    }

    /// The table in the data, with all its blocks.
    pub fn decode(data: &[u8]) -> (r: Result<SSTable, DBError>)
        requires
            sections_usable(data@),
        ensures
            match timed_sections(data@) {
                Err(failure) => r matches Err(e) && e@ == DBFailure::Io(failure),
                Ok((f, index, filter)) => match timed_blocks_of(data@, index, index.len()) {
                    Err(failure) => r matches Err(e) && e@ == failure,
                    Ok(blocks) => {
                        &&& r matches Ok(t)
                        &&& keyed::views(t.index@) == index
                        &&& keyed::views(t.block@) == blocks
                        &&& footer::filter_in(filter, t.bloom)
                    },
                },
            },
    {
        let f = match read_sstable_footer(data) {
            Err(e) => {
                return Err(DBError::Io(e));
            },
            Ok(f) => f,
        };
        let index: Vec<SparseIndexEntry> = match read_sstable_sparse_index(data, &f) {
            Err(e) => {
                return Err(DBError::Io(e));
            },
            Ok(index) => index,
        };
        let bloom = match read_sstable_bloom(data, &f) {
            Err(e) => {
                return Err(DBError::Io(e));
            },
            Ok(bloom) => bloom,
        };
        let ghost items = keyed::views(index@);
        proof {
            let filter = footer::bloom_section_of(data@, f)->Ok_0;
            assert(footer::filter_in(filter, bloom));
            let end = choose|end: int| bloom::filter_read(filter, 0, bloom, end);
            assert(bloom::parse_bloom(filter, 0) is Ok);
        }
        let mut block: Vec<Block> = Vec::new();
        let mut i: usize = 0;
        assert(keyed::views(block@) =~= seq![]);
        while i < index.len()
            invariant
                i <= index@.len(),
                items == keyed::views(index@),
                timed_sections(data@) matches Ok(p) && p.1 == items && footer::filter_in(p.2, bloom),
                timed_blocks_of(data@, items, i as nat) == Ok::<_, DBFailure>(keyed::views(block@)),
            decreases index@.len() - i,
        {
            match Block::decode_at(data, index[i].block_offset) {
                Err(e) => {
                    proof {
                        lemma_blocks_err(data@, items, (i + 1) as nat, items.len());
                    }
                    return Err(e);
                },
                Ok((b, _)) => {
                    let ghost before = keyed::views(block@);
                    let ghost v = b@;
                    block.push(b);
                    assert(keyed::views(block@) =~= before.push(v));
                },
            }
            i = i + 1;
        }
        Ok(SSTable { index, bloom, block })
    }
}

} // verus!
