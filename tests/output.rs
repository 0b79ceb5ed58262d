use maf_junk::{
    AlignedContext, AlignedContextStatus, MAFBlock, MAFBlockAlignedEntry, MAFBlockEntry,
    MAFBlockUnalignedEntry, Strand, UnalignedContextStatus,
};

#[test]
fn display_block() {
    let block = MAFBlock {
        metadata: vec![
            ("meta1".to_owned(), "val1".to_owned()),
            ("meta2".to_owned(), "val2".to_owned()),
        ],
        entries: vec![
            MAFBlockEntry::AlignedEntry(MAFBlockAlignedEntry {
                seq: "panTro1.chr6".to_owned(),
                start: 28869787,
                aligned_length: 13,
                sequence_size: 161576975,
                strand: Strand::Positive,
                alignment: "gcagctgaaaaca".as_bytes().to_vec(),
                context: Some(AlignedContext {
                    left_status: AlignedContextStatus::FirstInSequence,
                    left_count: 0,
                    right_status: AlignedContextStatus::Contiguous,
                    right_count: 0,
                }),
                qualities: None,
            }),
            MAFBlockEntry::AlignedEntry(MAFBlockAlignedEntry {
                seq: "baboon".to_owned(),
                start: 249182,
                aligned_length: 13,
                sequence_size: 4622798,
                strand: Strand::Positive,
                alignment: "gcagctgaaaaca".as_bytes().to_vec(),
                context: Some(AlignedContext {
                    left_status: AlignedContextStatus::Insertion,
                    left_count: 234,
                    right_status: AlignedContextStatus::FirstInSequenceBridged,
                    right_count: 19,
                }),
                qualities: None,
            }),
            MAFBlockEntry::UnalignedEntry(MAFBlockUnalignedEntry {
                seq: "mm4.chr6".to_owned(),
                start: 53310102,
                size: 13,
                sequence_size: 151104725,
                strand: Strand::Positive,
                status: UnalignedContextStatus::Insertion,
            }),
        ],
    };
    assert_eq!(
        block.to_maf_string(),
        "a meta1=val1 meta2=val2
s panTro1.chr6 28869787 13 + 161576975 gcagctgaaaaca
i panTro1.chr6 N 0 C 0
s baboon 249182 13 + 4622798 gcagctgaaaaca
i baboon I 234 n 19
e mm4.chr6 53310102 13 + 151104725 I

"
    );
}

#[test]
fn empty_block_text() {
    let block = MAFBlock { metadata: vec![], entries: vec![] };
    assert_eq!(block.to_maf_string(), "a\n\n");
}

#[test]
fn zero_and_large_numbers_are_written_in_full() {
    let block = MAFBlock {
        metadata: vec![],
        entries: vec![MAFBlockEntry::UnalignedEntry(MAFBlockUnalignedEntry {
            seq: "g.c".to_owned(),
            start: 0,
            size: u64::MAX,
            sequence_size: 10,
            strand: Strand::Negative,
            status: UnalignedContextStatus::AlreadyUsed,
        })],
    };
    assert_eq!(block.to_maf_string(), "a\ne g.c 0 18446744073709551615 - 10 T\n\n");
}
