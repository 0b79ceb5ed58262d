use maf_junk::{
    block_contains_dups, consensus_base, get_consensus_info, merge_dup_block, next_maf_item,
    output_dup_blocks, output_merged_consensus_blocks, unanimous_base, BaseCounts, ConsensusMode,
    LinesRef, MAFBlock, MAFBlockEntry, MAFItem,
};

fn block_of(text: &str) -> MAFBlock {
    let item = next_maf_item(&mut LinesRef::from_text(text)).expect("Couldn't parse MAF block");
    match item {
        MAFItem::Block(block) => block,
        other => panic!("Got unexpected maf item {:?}", other),
    }
}

#[test]
fn test_unanimous_base() {
    assert_eq!(unanimous_base(&BaseCounts { a: 0, c: 10, g: 0, t: 0 }), b'C');
    assert_eq!(unanimous_base(&BaseCounts { a: 0, c: 0, g: 0, t: 10 }), b'T');
    // Should give N if any disagreement
    assert_eq!(unanimous_base(&BaseCounts { a: 9, c: 0, g: 0, t: 1 }), b'N');
}

#[test]
fn test_consensus_base() {
    // If a majority points to a base, choose that
    let counts = BaseCounts { a: 6, c: 5, g: 5, t: 5 };
    let tiebreakers = BaseCounts { a: 0, c: 0, g: 0, t: 0 };
    assert_eq!(consensus_base(&counts, &tiebreakers), b'A');
    // If a tie exists, go to the tiebreaking counts to resolve it
    let counts = BaseCounts { a: 4, c: 4, g: 5, t: 5 };
    let tiebreakers = BaseCounts { a: 1, c: 1, g: 2, t: 1 };
    assert_eq!(consensus_base(&counts, &tiebreakers), b'G');
    // If a tie still exists even after tiebreaking, return an N
    let counts = BaseCounts { a: 4, c: 5, g: 4, t: 5 };
    let tiebreakers = BaseCounts { a: 1, c: 2, g: 1, t: 2 };
    assert_eq!(consensus_base(&counts, &tiebreakers), b'N');
}

#[test]
fn consensus_of_no_bases_is_n() {
    let zero = BaseCounts { a: 0, c: 0, g: 0, t: 0 };
    assert_eq!(consensus_base(&zero, &zero), b'N');
    assert_eq!(unanimous_base(&zero), b'N');
}

#[test]
fn test_get_consensus_info() {
    let block = block_of(
        "a
s       Gallus_gallus.chr1 4432333   6       +       157682039  CAG
s       Alca_torda.scaffold4709 42333   6       -       157682  TAG
s       Alca_torda.scaffold4709 41641   6       -       157682  G-A
",
    );
    let alignments = block.aligned_entries();
    let counts = get_consensus_info(&alignments);
    let expected_counts = vec![
        BaseCounts { a: 0, c: 1, t: 1, g: 1 },
        BaseCounts { a: 2, c: 0, t: 0, g: 0 },
        BaseCounts { a: 1, c: 0, t: 0, g: 2 },
    ];
    assert_eq!(counts, expected_counts);
}

#[test]
fn test_block_contains_dups() {
    let block = block_of(
        "a
s       Gallus_gallus.chr1 4432333   6       +       157682039  CAACAG
s       Alca_torda.scaffold4709 42333   6       -       157682  CAACAG
s       Alca_torda.scaffold4709 41641   6       -       157682  CAACAG
",
    );
    assert!(block_contains_dups(&block));

    let block = block_of(
        "a
s       Erythrocercus_mccallii.scaffold_2093    58535   1       +       127396  T
s       Eubucco_bourcierii.scaffold13745        58548   1       +       73788   C
s       Eudromia_elegans.scaffold_5     12617300        1       +       13876364        A
s       Eulacestoma_nigropectus.scaffold148     3647521 1       +       4202789 T
s       Eurypyga_helias.scaffold13804   27799   1       +       30980   G
s       Eurystomus_gularis.scaffold6487 121546  1       +       203918  T
s       Formicarius_rufipectus.scaffold473      3224110 1       -       3420713 T
s       Fregata_magnificens.C5769372__2.0       142     1       +       150     T
s       Fregetta_grallaria.scaffold_297 174414  1       -       673556  T
s       Fulmarus_glacialis.scaffold7044 80945   1       +       82154   T
s       Furnarius_figulus.scaffold_634  115343  1       +       392412  T
s       Galbula_dea.scaffold1422        3938    1       -       1348798 C
s       Gavia_stellata.scaffold9486     35556   1       +       49599   T
s       Geococcyx_californianus.scaffold6221    68277   1       +       96248   T
s       Geospiza_fortis.scaffold54      15705654        1       -       19033121        T
s       Glareola_pratincola.scaffold_8  396272  1       -       2357087 C
s       Glaucidium_brasilianum.scaffold_161     1648450 1       -       1875072 T
",
    );
    assert!(!block_contains_dups(&block));
}

const DUPS: &str = "a x=1
s Gallus_gallus.chr1 4432333 3 + 157682039 CAG
s Alca_torda.scaffold4709 42333 3 - 157682 TAG
e Other.c 5 5 + 100 I
s Alca_torda.scaffold4709 41641 2 - 157682 G-a
";

fn merged_alignment(mode: ConsensusMode) -> Vec<u8> {
    let merged = merge_dup_block(&block_of(DUPS), mode);
    assert_eq!(merged.entries.len(), 3);
    match &merged.entries[2] {
        MAFBlockEntry::AlignedEntry(e) => {
            assert_eq!(e.seq, "Alca_torda.scaffold4709");
            assert_eq!(e.start, 42333);
            e.alignment.clone()
        },
        other => panic!("unexpected {:?}", other),
    }
}

#[test]
fn mask_mode_gives_n_everywhere() {
    assert_eq!(merged_alignment(ConsensusMode::Mask), b"NNN".to_vec());
}

#[test]
fn unanimity_mode_merges() {
    assert_eq!(merged_alignment(ConsensusMode::Unanimity), b"NAN".to_vec());
}

#[test]
fn consensus_mode_merges() {
    // First column: T and G tie within the species and once each in the
    // whole column, so the tie stays. Last column: a and G tie within the
    // species; the whole column has G twice.
    assert_eq!(merged_alignment(ConsensusMode::Consensus), b"NAG".to_vec());
}

#[test]
fn merged_block_keeps_other_entries_in_order() {
    let merged = merge_dup_block(&block_of(DUPS), ConsensusMode::Mask);
    assert_eq!(merged.metadata, vec![("x".to_owned(), "1".to_owned())]);
    assert!(matches!(&merged.entries[0], MAFBlockEntry::AlignedEntry(e) if e.seq == "Gallus_gallus.chr1"));
    assert!(matches!(&merged.entries[1], MAFBlockEntry::UnalignedEntry(e) if e.seq == "Other.c"));
}

#[test]
fn dup_blocks_output() {
    let text = format!("##maf version=1\n{}\na\ns A.c 1 1 + 5 C\n", DUPS);
    let out = output_dup_blocks(&mut LinesRef::from_text(&text)).unwrap();
    assert_eq!(out, format!("##maf version=1\n{}", block_of(DUPS).to_maf_string()));
}

#[test]
fn merged_blocks_output() {
    let text = "a\ns A.c 1 1 + 5 C\n";
    let out = output_merged_consensus_blocks(&mut LinesRef::from_text(text), ConsensusMode::Mask).unwrap();
    assert_eq!(out, "a\ns A.c 1 1 + 5 C\n\n\n");
    assert!(output_merged_consensus_blocks(&mut LinesRef::from_text("a\nzz\n"), ConsensusMode::Mask).is_err());
}
