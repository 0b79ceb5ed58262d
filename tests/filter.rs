use maf_junk::{
    filter, filter_block, filter_block_columns, get_filtered_columns, next_maf_item, FilterError,
    FilterRunError, LinesRef, MAFBlock, MAFItem, Range, RangeSet, Run,
};

const BLOCK: &str = "a
s       Gallus_gallus.chr1 4432333   5       +       157682039  CAGT-A
s       Alca_torda.scaffold4709 42333   6       -       157682  TAGTAA
s       Alca_torda.scaffold4709 41641   3       -       157682  G-AA--
";

fn block_of(text: &str) -> MAFBlock {
    let item = next_maf_item(&mut LinesRef::from_text(text)).expect("Couldn't parse MAF block");
    match item {
        MAFItem::Block(block) => block,
        other => panic!("Got unexpected maf item {:?}", other),
    }
}

fn two_regions() -> RangeSet {
    RangeSet::from_ranges(vec![
        Range { seq: "chr1".to_string(), start: 4432333, end: 4432334 },
        Range { seq: "chr1".to_string(), start: 4432336, end: 4432338 },
    ])
}

#[test]
fn test_filter_block() {
    let block = filter_block_columns(&block_of(BLOCK), &Run { start: 2, length: 3 });
    assert_eq!(
        block.to_maf_string(),
        "a
s Gallus_gallus.chr1 4432335 2 + 157682039 GT-
s Alca_torda.scaffold4709 42335 3 - 157682 GTA
s Alca_torda.scaffold4709 41642 2 - 157682 AA-

"
    );
}

#[test]
fn test_get_filtered_columns() {
    let block = block_of(BLOCK);
    let ref_entry = &block.aligned_entries()[0];
    assert_eq!(
        get_filtered_columns(ref_entry, &two_regions()),
        Ok(vec![Run { start: 0, length: 1 }, Run { start: 3, length: 1 }, Run { start: 5, length: 1 }])
    );
}

#[test]
fn a_gap_column_ends_a_run() {
    let block = block_of(BLOCK);
    let ref_entry = &block.aligned_entries()[0];
    let regions = RangeSet::from_ranges(vec![Range { seq: "chr1".to_string(), start: 4432335, end: 4432338 }]);
    assert_eq!(
        get_filtered_columns(ref_entry, &regions),
        Ok(vec![Run { start: 2, length: 2 }, Run { start: 5, length: 1 }])
    );
}

#[test]
fn blocks_cut_per_run() {
    let pieces = filter_block(&block_of(BLOCK), &two_regions()).unwrap();
    assert_eq!(pieces.len(), 3);
    assert_eq!(
        pieces[1].to_maf_string(),
        "a\ns Gallus_gallus.chr1 4432336 1 + 157682039 T\ns Alca_torda.scaffold4709 42336 1 - 157682 T\ns Alca_torda.scaffold4709 41643 1 - 157682 A\n\n"
    );
}

#[test]
fn negative_reference_is_refused() {
    let block = block_of("a\ns G.chr1 10 2 - 100 AC\n");
    assert_eq!(filter_block(&block, &two_regions()), Err(FilterError::NegativeStrandReference));
}

#[test]
fn block_without_aligned_entries_gives_nothing() {
    let block = block_of("a\ne G.chr1 10 2 - 100 I\n");
    assert_eq!(filter_block(&block, &two_regions()), Ok(vec![]));
}

#[test]
fn filter_stream() {
    let text = format!("#c\n{}", BLOCK);
    let out = filter(&mut LinesRef::from_text(&text), &two_regions()).unwrap();
    assert!(out.starts_with("#c\na\ns Gallus_gallus.chr1 4432333 1 + 157682039 C\n"));
    assert_eq!(out.matches("a\n").count(), 3);
    let bad = filter(&mut LinesRef::from_text("a\ns G.chr1 10 2 - 100 AC\n"), &two_regions());
    assert!(matches!(bad, Err(FilterRunError::Filter(FilterError::NegativeStrandReference))));
}
