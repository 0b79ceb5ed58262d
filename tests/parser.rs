use maf_junk::{
    metadata_from_header, next_maf_item, parse_block, AlignedContext, AlignedContextStatus,
    LinesRef, MAFBlock, MAFBlockAlignedEntry, MAFBlockEntry, MAFBlockUnalignedEntry, MAFItem,
    MAFParseError, Strand, UnalignedContextStatus,
};

fn pairs(items: &[(&str, &str)]) -> Vec<(String, String)> {
    items.iter().map(|(k, v)| (k.to_string(), v.to_string())).collect()
}

#[test]
fn metadata_from_header_filled() {
    let header = "a score=23262.0 pass=2";
    match metadata_from_header(header) {
        Err(e) => assert!(false, "got error {:?}", e),
        Ok(val) => assert_eq!(val, pairs(&[("pass", "2"), ("score", "23262.0")])),
    }
}

#[test]
fn metadata_from_header_blank() {
    let header = "a";
    match metadata_from_header(header) {
        Err(e) => assert!(false, "got error {:?}", e),
        Ok(val) => assert_eq!(val, pairs(&[])),
    }
}

#[test]
fn metadata_later_key_replaces_earlier() {
    let val = metadata_from_header("a k=1 b=2 k=3").unwrap();
    assert_eq!(val, pairs(&[("b", "2"), ("k", "3")]));
}

#[test]
fn metadata_without_equals_is_an_error() {
    assert!(matches!(metadata_from_header("a score"), Err(MAFParseError::BadMetadata)));
}

#[test]
fn parse_block_only_s_lines() {
    let block_str = "a meta1=val1 meta2=val2
s hg16.chr7    27707221 13 + 158545518 gcagctgaaaaca
s baboon         249182 12 -   4622798 gcagctgaa-aca
s mm4.chr6     53310102 12 + 151104725 ACAGCTGA-AATA

this line is a canary to ensure it stops after a 'paragraph'";
    let mut lines = LinesRef::from_text(block_str);
    let header = lines.next_line().unwrap();
    match parse_block(header, &mut lines) {
        Err(e) => assert!(false, "got error {:?}", e),
        Ok(val) => assert_eq!(
            val,
            MAFBlock {
                metadata: pairs(&[("meta1", "val1"), ("meta2", "val2")]),
                entries: vec![
                    MAFBlockEntry::AlignedEntry(MAFBlockAlignedEntry {
                        seq: "hg16.chr7".to_owned(),
                        start: 27707221,
                        aligned_length: 13,
                        sequence_size: 158545518,
                        strand: Strand::Positive,
                        alignment: "gcagctgaaaaca".as_bytes().to_vec(),
                        context: None,
                        qualities: None,
                    }),
                    MAFBlockEntry::AlignedEntry(MAFBlockAlignedEntry {
                        seq: "baboon".to_owned(),
                        start: 249182,
                        aligned_length: 12,
                        sequence_size: 4622798,
                        strand: Strand::Negative,
                        alignment: "gcagctgaa-aca".as_bytes().to_vec(),
                        context: None,
                        qualities: None,
                    }),
                    MAFBlockEntry::AlignedEntry(MAFBlockAlignedEntry {
                        seq: "mm4.chr6".to_owned(),
                        start: 53310102,
                        aligned_length: 12,
                        sequence_size: 151104725,
                        strand: Strand::Positive,
                        alignment: "ACAGCTGA-AATA".as_bytes().to_vec(),
                        context: None,
                        qualities: None,
                    }),
                ],
            }
        ),
    }
}

#[test]
fn parse_block_i_lines() {
    let block_str = "a
s panTro1.chr6 28869787 13 + 161576975 gcagctgaaaaca
i panTro1.chr6 N 0 C 0
s baboon         249182 13 +   4622798 gcagctgaaaaca
i baboon       I 234 n 19";
    let mut lines = LinesRef::from_text(block_str);
    let header = lines.next_line().unwrap();
    match parse_block(header, &mut lines) {
        Err(e) => assert!(false, "got error {:?}", e),
        Ok(val) => assert_eq!(
            val,
            MAFBlock {
                metadata: pairs(&[]),
                entries: vec![
                    MAFBlockEntry::AlignedEntry(MAFBlockAlignedEntry {
                        seq: "panTro1.chr6".to_owned(),
                        start: 28869787,
                        aligned_length: 13,
                        sequence_size: 161576975,
                        strand: Strand::Positive,
                        alignment: "gcagctgaaaaca".as_bytes().to_vec(),
                        context: Some(AlignedContext {
                            left_status: AlignedContextStatus::FirstInSequence,
                            left_count: 0,
                            right_status: AlignedContextStatus::Contiguous,
                            right_count: 0,
                        }),
                        qualities: None,
                    }),
                    MAFBlockEntry::AlignedEntry(MAFBlockAlignedEntry {
                        seq: "baboon".to_owned(),
                        start: 249182,
                        aligned_length: 13,
                        sequence_size: 4622798,
                        strand: Strand::Positive,
                        alignment: "gcagctgaaaaca".as_bytes().to_vec(),
                        context: Some(AlignedContext {
                            left_status: AlignedContextStatus::Insertion,
                            left_count: 234,
                            right_status: AlignedContextStatus::FirstInSequenceBridged,
                            right_count: 19,
                        }),
                        qualities: None,
                    }),
                ],
            }
        ),
    };
}

#[test]
fn parse_block_e_lines() {
    let block_str = "a
s hg16.chr7    27707221 13 + 158545518 gcagctgaaaaca
e mm4.chr6     53310102 13 + 151104725 I";
    let mut lines = LinesRef::from_text(block_str);
    let header = lines.next_line().unwrap();
    match parse_block(header, &mut lines) {
        Err(e) => assert!(false, "got error {:?}", e),
        Ok(val) => assert_eq!(
            val,
            MAFBlock {
                metadata: pairs(&[]),
                entries: vec![
                    MAFBlockEntry::AlignedEntry(MAFBlockAlignedEntry {
                        seq: "hg16.chr7".to_owned(),
                        start: 27707221,
                        aligned_length: 13,
                        sequence_size: 158545518,
                        strand: Strand::Positive,
                        alignment: "gcagctgaaaaca".as_bytes().to_vec(),
                        context: None,
                        qualities: None,
                    }),
                    MAFBlockEntry::UnalignedEntry(MAFBlockUnalignedEntry {
                        seq: "mm4.chr6".to_owned(),
                        start: 53310102,
                        size: 13,
                        sequence_size: 151104725,
                        strand: Strand::Positive,
                        status: UnalignedContextStatus::Insertion,
                    }),
                ],
            }
        ),
    };
}

#[test]
fn parse_comment() {
    let comment_str = "##maf version=1";
    let mut lines = LinesRef::from_text(comment_str);
    match next_maf_item(&mut lines) {
        Err(e) => assert!(false, "got error {:?}", e),
        Ok(val) => assert_eq!(val, MAFItem::Comment("#maf version=1".to_owned())),
    }
}

#[test]
fn parse_blank_comment() {
    let comment_str = "#";
    let mut lines = LinesRef::from_text(comment_str);
    match next_maf_item(&mut lines) {
        Err(e) => assert!(false, "got error {:?}", e),
        Ok(val) => assert_eq!(val, MAFItem::Comment("".to_owned())),
    }
}

#[test]
fn i_line_after_e_line_is_an_error() {
    let text = "a\ne mm4.chr6 53310102 13 + 151104725 I\ni mm4.chr6 N 0 C 0\n";
    let mut lines = LinesRef::from_text(text);
    assert!(matches!(next_maf_item(&mut lines), Err(MAFParseError::UnexpectedLine(_))));
}

#[test]
fn i_line_for_another_sequence_is_an_error() {
    let text = "a\ns hg16.chr7 1 2 + 100 AC\ni mm4.chr6 N 0 C 0\n";
    let mut lines = LinesRef::from_text(text);
    assert!(matches!(next_maf_item(&mut lines), Err(MAFParseError::UnexpectedLine(_))));
}

#[test]
fn i_line_first_in_block_is_an_error() {
    let text = "a\ni mm4.chr6 N 0 C 0\n";
    let mut lines = LinesRef::from_text(text);
    assert!(matches!(next_maf_item(&mut lines), Err(MAFParseError::UnexpectedLine(_))));
}

#[test]
fn field_errors_name_the_field() {
    let mut lines = LinesRef::from_text("a\ns hg16.chr7 x 2 + 100 AC\n");
    assert!(matches!(next_maf_item(&mut lines), Err(MAFParseError::Misc("invalid start"))));
    let mut lines = LinesRef::from_text("a\ns hg16.chr7 1 2 * 100 AC\n");
    assert!(matches!(next_maf_item(&mut lines), Err(MAFParseError::Misc(_))));
    let mut lines = LinesRef::from_text("a\ns hg16.chr7 1 2 +\n");
    assert!(matches!(next_maf_item(&mut lines), Err(MAFParseError::Misc(_))));
    let mut lines = LinesRef::from_text("a\ne mm4.chr6 1 2 + 100 Z\n");
    assert!(matches!(next_maf_item(&mut lines), Err(MAFParseError::Misc(_))));
}

#[test]
fn line_kinds_that_are_not_read() {
    let mut lines = LinesRef::from_text("a\nq hg16.chr7 99\n");
    assert!(matches!(next_maf_item(&mut lines), Err(MAFParseError::UnsupportedLineType(_))));
    let mut lines = LinesRef::from_text("a\nx hg16.chr7 99\n");
    assert!(matches!(next_maf_item(&mut lines), Err(MAFParseError::BadLineType(_))));
    let mut lines = LinesRef::from_text("s hg16.chr7 1 2 + 100 AC\n");
    assert!(matches!(next_maf_item(&mut lines), Err(MAFParseError::UnexpectedLine(_))));
}

#[test]
fn end_of_input_after_blank_lines() {
    let mut lines = LinesRef::from_text("\n   \n\n");
    assert!(matches!(next_maf_item(&mut lines), Err(MAFParseError::EOF)));
}

#[test]
fn items_follow_one_another() {
    let text = "##maf version=1\n\na x=1\ns g.c 5 2 + 10 AC\n\na\ns g.c 7 1 - 10 T\n";
    let mut lines = LinesRef::from_text(text);
    assert_eq!(next_maf_item(&mut lines).unwrap(), MAFItem::Comment("#maf version=1".to_owned()));
    match next_maf_item(&mut lines).unwrap() {
        MAFItem::Block(b) => assert_eq!(b.metadata, pairs(&[("x", "1")])),
        other => panic!("unexpected {:?}", other),
    }
    match next_maf_item(&mut lines).unwrap() {
        MAFItem::Block(b) => assert_eq!(b.entries.len(), 1),
        other => panic!("unexpected {:?}", other),
    }
    assert!(matches!(next_maf_item(&mut lines), Err(MAFParseError::EOF)));
}

#[test]
fn crlf_line_ends_are_dropped() {
    let mut lines = LinesRef::from_text("a\r\ns g.c 5 2 + 10 AC\r\n");
    match next_maf_item(&mut lines).unwrap() {
        MAFItem::Block(b) => match &b.entries[0] {
            MAFBlockEntry::AlignedEntry(e) => assert_eq!(e.alignment, b"AC".to_vec()),
            other => panic!("unexpected {:?}", other),
        },
        other => panic!("unexpected {:?}", other),
    }
}

#[test]
fn round_trip_of_canonical_text() {
    let text = "a meta1=val1 meta2=val2
s panTro1.chr6 28869787 13 + 161576975 gcagctgaaaaca
i panTro1.chr6 N 0 C 0
s baboon 249182 13 - 4622798 gcagctgaa-aca
e mm4.chr6 53310102 13 + 151104725 I

";
    let mut lines = LinesRef::from_text(text);
    match next_maf_item(&mut lines).unwrap() {
        MAFItem::Block(b) => assert_eq!(b.to_maf_string(), text),
        other => panic!("unexpected {:?}", other),
    }
}

#[test]
fn errors_carry_the_offending_text() {
    let mut lines = LinesRef::from_text("a\ns g.c 1 1 + 5 C\nx hg16.chr7 99\n");
    match next_maf_item(&mut lines) {
        Err(MAFParseError::BadLineType(tok)) => assert_eq!(tok, "x"),
        other => panic!("unexpected {:?}", other),
    }
    let mut lines = LinesRef::from_text("\n  \nbogus line here\n");
    match next_maf_item(&mut lines) {
        Err(MAFParseError::UnexpectedLine(l)) => assert_eq!(l, "bogus line here"),
        other => panic!("unexpected {:?}", other),
    }
    let mut lines = LinesRef::from_text("a\ns g.c 1 x + 5 C\n");
    assert!(matches!(next_maf_item(&mut lines), Err(MAFParseError::Misc("invalid aligned length"))));
    let mut lines = LinesRef::from_text("a\ns g.c 1 1 + 5 C\ni g.c N z C 0\n");
    assert!(matches!(next_maf_item(&mut lines), Err(MAFParseError::Misc("invalid left count"))));
    let mut lines = LinesRef::from_text("a\ne g.c 1 1 + 5 Q\n");
    assert!(matches!(
        next_maf_item(&mut lines),
        Err(MAFParseError::Misc("invalid unaligned context status character"))
    ));
}
