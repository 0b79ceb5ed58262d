use maf_junk::{coverage, next_maf_item, LinesRef, MAFCoverage, MAFItem, Range, RangeSet};

const BLOCK: &str = "a
s       Erythrocercus_mccallii.scaffold_2093    58535   2       +       127396  T-G
s       Galbula_dea.scaffold1422        3938    3       -       1348798 CCC
s       Gavia_stellata.scaffold9486     35556   3       +       49599   TTT
s       Geococcyx_californianus.scaffold6221    68277   3       +       96248   TTT
s       Geospiza_fortis.scaffold54      15705654        3       -       19033121        TT-
s       Glareola_pratincola.scaffold_8  396272  3       -       2357087 -C-
s       Glaucidium_brasilianum.scaffold_161     1648450 3       -       1875072 TTT
";

fn add(maf_coverage: &mut MAFCoverage, block: &str) {
    let item = next_maf_item(&mut LinesRef::from_text(block)).expect("Couldn't parse MAF block");
    if let MAFItem::Block(block) = item {
        maf_coverage.add_block(block);
    } else {
        assert!(false, "Got unexpected maf item {:?}", item);
    }
}

#[test]
fn test_in_range() {
    let ranges = RangeSet::from_ranges(vec![
        Range { seq: "chr1".to_string(), start: 20, end: 30 },
        Range { seq: "chr1".to_string(), start: 30, end: 31 },
        Range { seq: "chr1".to_string(), start: 32, end: 40 },
        Range { seq: "chrW".to_string(), start: 0, end: 300 },
    ]);
    let maf_coverage = MAFCoverage::new("none", Some(ranges));
    assert!(!maf_coverage.in_range("chr0", 0));
    assert!(maf_coverage.in_range("chr1", 20));
    assert!(maf_coverage.in_range("chr1", 21));
    assert!(maf_coverage.in_range("chr1", 30));
    assert!(!maf_coverage.in_range("chr1", 31));
    assert!(maf_coverage.in_range("chr1", 35));
    assert!(!maf_coverage.in_range("chr2", 12));
    assert!(maf_coverage.in_range("chrW", 35));
    assert!(!maf_coverage.in_range("chrZ", 36));
}

#[test]
fn test_add_block_no_bed() {
    let mut maf_coverage = MAFCoverage::new("Erythrocercus_mccallii", None);
    add(&mut maf_coverage, BLOCK);
    assert_eq!(maf_coverage.coverage_of("Gavia_stellata"), Some(2));
    assert_eq!(maf_coverage.coverage_of("Geospiza_fortis"), Some(1));
    assert_eq!(maf_coverage.coverage_of("Erythrocercus_mccallii"), Some(2));
    assert!(maf_coverage.coverage_of("Glareola_pratincola").is_none());
}

#[test]
fn test_add_block_multi_ref() {
    let block = "a
s       Erythrocercus_mccallii.scaffold_2093    58535   2       +       127396  T-G
s       Erythrocercus_mccallii.scaffold_333    3213   2       +       33451  TG-
s       Galbula_dea.scaffold1422        3938    3       -       1348798 CCC
s       Gavia_stellata.scaffold9486     35556   3       +       49599   TTT
s       Geococcyx_californianus.scaffold6221    68277   3       +       96248   TTT
s       Geospiza_fortis.scaffold54      15705654        3       -       19033121        TT-
s       Glareola_pratincola.scaffold_8  396272  3       -       2357087 -C-
s       Glaucidium_brasilianum.scaffold_161     1648450 3       -       1875072 TTT
";
    let mut maf_coverage = MAFCoverage::new("Erythrocercus_mccallii", None);
    add(&mut maf_coverage, block);
    assert_eq!(maf_coverage.coverage_of("Gavia_stellata"), Some(4));
    assert_eq!(maf_coverage.coverage_of("Geospiza_fortis"), Some(3));
    assert_eq!(maf_coverage.coverage_of("Erythrocercus_mccallii"), Some(4));
    assert_eq!(maf_coverage.coverage_of("Glareola_pratincola"), Some(1));
}

#[test]
fn test_add_block_with_bed() {
    let regions = RangeSet::from_ranges(vec![Range {
        seq: "scaffold_2093".to_string(),
        start: 58536,
        end: 58538,
    }]);
    let mut maf_coverage = MAFCoverage::new("Erythrocercus_mccallii", Some(regions));
    add(&mut maf_coverage, BLOCK);
    assert_eq!(maf_coverage.coverage_of("Gavia_stellata"), Some(1));
    assert!(maf_coverage.coverage_of("Geospiza_fortis").is_none());
    assert_eq!(maf_coverage.coverage_of("Erythrocercus_mccallii"), Some(1));
    assert!(maf_coverage.coverage_of("Glareola_pratincola").is_none());

    // Negative-strand reference
    let block = "a
s       Erythrocercus_mccallii.scaffold_2093    68858   2       -       127396  T-G
s       Galbula_dea.scaffold1422        3938    3       -       1348798 CCC
s       Gavia_stellata.scaffold9486     35556   3       +       49599   TTT
s       Geococcyx_californianus.scaffold6221    68277   3       +       96248   TTT
s       Geospiza_fortis.scaffold54      15705654        3       -       19033121        TT-
s       Glareola_pratincola.scaffold_8  396272  3       -       2357087 -C-
s       Glaucidium_brasilianum.scaffold_161     1648450 3       -       1875072 TTT
";
    add(&mut maf_coverage, block);
    assert_eq!(maf_coverage.coverage_of("Gavia_stellata"), Some(2));
    assert!(maf_coverage.coverage_of("Geospiza_fortis").is_none());
    assert_eq!(maf_coverage.coverage_of("Erythrocercus_mccallii"), Some(2));
    assert!(maf_coverage.coverage_of("Glareola_pratincola").is_none());
}

#[test]
fn duplicate_entries_of_a_genome_count_once() {
    let block = "a
s ref.c1 0 4 + 100 ACGT
s dup.x 0 3 + 100 AC-T
s dup.y 0 3 + 100 A-GT
";
    let mut maf_coverage = MAFCoverage::new("ref", None);
    add(&mut maf_coverage, block);
    assert_eq!(maf_coverage.coverage_of("dup"), Some(4));
    assert_eq!(maf_coverage.coverage_of("ref"), Some(4));
}

#[test]
fn columns_outside_regions_count_for_no_genome() {
    let regions = RangeSet::from_ranges(vec![Range { seq: "c1".to_string(), start: 500, end: 600 }]);
    let mut maf_coverage = MAFCoverage::new("ref", Some(regions));
    add(&mut maf_coverage, "a\ns ref.c1 0 4 + 100 ACGT\ns other.x 0 4 + 100 ACGT\n");
    assert!(maf_coverage.coverage_of("ref").is_none());
    assert!(maf_coverage.coverage_of("other").is_none());
}

#[test]
fn report_totals() {
    let text = format!("##maf version=1\n{}\n{}", BLOCK, BLOCK);
    let rows = coverage(&mut LinesRef::from_text(&text), "Erythrocercus_mccallii", None).unwrap();
    let gavia = rows.iter().find(|r| r.genome == "Gavia_stellata").unwrap();
    assert_eq!(gavia.coverage, 4);
    assert_eq!(gavia.total, 127396);
    assert_eq!(gavia.ref_genome, "Erythrocercus_mccallii");
    assert!(rows.iter().all(|r| r.genome != "Glareola_pratincola"));

    let regions = RangeSet::from_ranges(vec![
        Range { seq: "scaffold_2093".to_string(), start: 58536, end: 58538 },
        Range { seq: "scaffold_9".to_string(), start: 10, end: 20 },
    ]);
    let rows = coverage(&mut LinesRef::from_text(BLOCK), "Erythrocercus_mccallii", Some(regions)).unwrap();
    assert!(rows.iter().all(|r| r.total == 12));
}

#[test]
fn coverage_reports_parse_errors() {
    assert!(coverage(&mut LinesRef::from_text("a\nz\n"), "g", None).is_err());
}
