//! Reading, writing and analysing multiple alignment blocks: a parser and
//! writer for the block format, a sorted set of genomic regions, and three
//! column-wise analyses (coverage, duplicate merging, region filtering).

pub mod coverage;
pub mod dup_blocks;
pub mod fasta;
pub mod filter;
pub mod laws;
pub mod model;
pub mod output;
pub mod parser;
pub mod ranges;
pub mod split;
pub mod text;

pub use coverage::{aligned_base, coverage, CoverageError, CoverageRow, MAFCoverage};
pub use dup_blocks::{
    block_contains_dups, consensus_base, dup_entries_from_block, get_consensus_info,
    max_among_possibilities, merge_dup_block, merge_dup_entries, output_dup_blocks,
    output_merged_consensus_blocks, unanimous_base, BaseCounts, ConsensusMode,
};
pub use fasta::maf_to_fasta;
pub use filter::{
    filter, filter_block, filter_block_columns, filter_entry_columns, get_filtered_columns,
    FilterError, FilterRunError, Run,
};
pub use model::{
    AlignedContext, AlignedContextStatus, GenomeGroup, MAFBlock, MAFBlockAlignedEntry,
    MAFBlockEntry, MAFBlockUnalignedEntry, MAFItem, Strand, UnalignedContextStatus,
};
pub use parser::{metadata_from_header, next_maf_item, parse_block, LinesRef, MAFParseError};
pub use ranges::{overlapping_ranges, parse_bed, range_contains_pos, BedParseError, Range, RangeSet};
pub use split::{split_maf, SplitFile};
pub use text::chrom_part;
