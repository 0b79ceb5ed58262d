use maf_junk::{chrom_part, overlapping_ranges, parse_bed, range_contains_pos, BedParseError, Range, RangeSet};

fn r(seq: &str, start: u64, end: u64) -> Range {
    Range { seq: seq.to_string(), start, end }
}

fn regions() -> RangeSet {
    RangeSet::from_ranges(vec![
        r("chr1", 4432333, 4432334),
        r("chr1", 4432333, 4432335),
        r("chr1", 4432336, 4432338),
        r("chr2", 4, 5),
    ])
}

#[test]
fn test_range_contains_pos() {
    let regions = regions();
    assert!(range_contains_pos(&regions, "chr1", 4432333));
    assert!(range_contains_pos(&regions, "chr1", 4432334));
    assert!(!range_contains_pos(&regions, "chr1", 4432335));
    assert!(!range_contains_pos(&regions, "chr1", 4));
    assert!(range_contains_pos(&regions, "chr2", 4));
}

#[test]
fn test_overlapping_ranges() {
    let regions = regions();
    assert_eq!(
        overlapping_ranges(&regions, &r("chr1", 4430000, 8000000)),
        vec![r("chr1", 4432333, 4432334), r("chr1", 4432333, 4432335), r("chr1", 4432336, 4432338)]
    );
    assert_eq!(
        overlapping_ranges(&regions, &r("chr1", 4430000, 4432335)),
        vec![r("chr1", 4432333, 4432334), r("chr1", 4432333, 4432335)]
    );
    assert_eq!(
        overlapping_ranges(&regions, &r("chr1", 4432335, 4432337)),
        vec![r("chr1", 4432333, 4432335), r("chr1", 4432336, 4432338)]
    );
}

#[test]
fn test_parse_bed() {
    let bed = "
chr1 200 300
chrZ 300 600
chr10 2 3
chr10 10 15
";
    let ranges = parse_bed(bed).unwrap();
    let expected_ranges = RangeSet::from_ranges(vec![
        r("chr1", 200, 300),
        r("chrZ", 300, 600),
        r("chr10", 2, 3),
        r("chr10", 10, 15),
    ]);
    assert_eq!(ranges, expected_ranges);
}

#[test]
fn ranges_are_kept_in_order_once() {
    let set = RangeSet::from_ranges(vec![r("chr2", 1, 2), r("chr1", 5, 9), r("chr1", 5, 6), r("chr2", 1, 2)]);
    assert_eq!(set.ranges, vec![r("chr1", 5, 6), r("chr1", 5, 9), r("chr2", 1, 2)]);
}

#[test]
fn range_predicates() {
    let x = r("chr1", 10, 20);
    assert!(x.overlaps("chr1", 10));
    assert!(!x.overlaps("chr1", 20));
    assert!(!x.overlaps("chr2", 15));
    assert!(x.precedes("chr1", 20));
    assert!(x.precedes("chr2", 0));
    assert!(!x.precedes("chr1", 19));
    assert!(x.succeeds("chr1", 9));
    assert!(x.succeeds("chr0", 100));
    assert!(!x.succeeds("chr1", 10));
}

#[test]
fn bed_lines_that_are_refused() {
    assert!(matches!(parse_bed("chr1 1 2 a b c d e f g\n"), Err(BedParseError::Unsupported(_))));
    assert!(matches!(parse_bed("chr1 1\n"), Err(BedParseError::BadLine(_))));
    assert!(matches!(parse_bed("chr1 x 2\n"), Err(BedParseError::BadLine(_))));
    assert_eq!(parse_bed("\n\n").unwrap().ranges, vec![]);
}

#[test]
fn chromosome_part_of_names() {
    assert_eq!(chrom_part("genome.chr.name"), "chr.name");
    assert_eq!(chrom_part("Erythrocercus_mccallii.scaffold_2093"), "scaffold_2093");
    assert_eq!(chrom_part("baboon"), "");
    assert_eq!(chrom_part("a..b"), ".b");
}
