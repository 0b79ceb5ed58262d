use maf_junk::{split_maf, LinesRef};

#[test]
fn test_simple_split() {
    let input_maf = "##maf version=1
a
s       Rhesus.chr21_chr20      0       54      +       19571763        AATTCTGTGAAGCTTCTTTGAGAGGCTTGGATTTATTTCACACATTCGAACATT
s       Human.chr21     0       54      +       9688985 AGTTCTGAGAAGCTTCTTTGTGAGGCTTGGATTCATTTCACACATTTGAACAtt

a
s       Rhesus.chr21_chr20      54      28      +       19571763        TGATTGAAGATTTGGAAACAGTCTTTTT
s       Human.chr21     58      27      +       9688985 tgattgtagatctggaaacagtctt-tt

a
s       Rhesus.chr21_chr20      82      16      +       19571763        TGTAAAATCTATAAAG
s       Human.chr21     85      16      +       9688985 tgtgaaatctataaag

a
s       Rhesus.chr22      193     32      +       19571763        aacctttcctttgctagagcactttggaaata
s       Human.chr21     217     32      +       9688985 aacctttcctttgctagagcactttgaaaata
";
    let files = split_maf(&mut LinesRef::from_text(input_maf), 84).unwrap();
    let names: Vec<&str> = files.iter().map(|f| f.name.as_str()).collect();
    // The first two blocks fit in one file, the third spills over into
    // another, and the fourth goes to yet another (new reference chromosome).
    assert_eq!(names, vec!["chr21_chr20.0.maf", "chr21_chr20.82.maf", "chr22.193.maf"]);
    assert_eq!(
        files[0].text,
        "##maf version=1
a
s Rhesus.chr21_chr20 0 54 + 19571763 AATTCTGTGAAGCTTCTTTGAGAGGCTTGGATTTATTTCACACATTCGAACATT
s Human.chr21 0 54 + 9688985 AGTTCTGAGAAGCTTCTTTGTGAGGCTTGGATTCATTTCACACATTTGAACAtt

a
s Rhesus.chr21_chr20 54 28 + 19571763 TGATTGAAGATTTGGAAACAGTCTTTTT
s Human.chr21 58 27 + 9688985 tgattgtagatctggaaacagtctt-tt

"
    );
    assert_eq!(
        files[1].text,
        "##maf version=1
a
s Rhesus.chr21_chr20 82 16 + 19571763 TGTAAAATCTATAAAG
s Human.chr21 85 16 + 9688985 tgtgaaatctataaag

"
    );
    assert_eq!(
        files[2].text,
        "##maf version=1
a
s Rhesus.chr22 193 32 + 19571763 aacctttcctttgctagagcactttggaaata
s Human.chr21 217 32 + 9688985 aacctttcctttgctagagcactttgaaaata

"
    );
}
