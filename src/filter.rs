//! Cutting blocks down to the columns whose reference bases lie in regions.

use crate::coverage::avs;
use crate::model::{
    AlignedView, EntryView, MAFBlock, MAFBlockAlignedEntry, MAFBlockEntry, Strand, aligned_of,
    copy_metadata,
};
use crate::parser::{
    ItemView, LinesRef, MAFParseError, comment_text, ev, item_step, items_from, kind_of,
    lemma_items_step, prepend, read_item,
};
use crate::model::{BlockView, MAFItem};
use crate::output::block_text;
use crate::text::{push_str, string_of};
use crate::ranges::{
    Range, RangeSet, RangeView, last_before, overlapping_ranges, overlaps_spec, rvs,
    starting_within,
};
use crate::text::{chrom_of, chrom_part, text_lt};
use vstd::prelude::*;

verus! {

/// A run of columns: `length` columns from column `start`.
#[derive(Debug, PartialEq, Eq, Structural, Clone, Copy)]
pub struct Run {
    pub start: usize,
    pub length: usize,
}

#[derive(Debug, PartialEq, Eq, Structural, Clone, Copy)]
pub enum FilterError {
    /// The reference entry is on the negative strand, which is not handled.
    NegativeStrandReference,
    /// An entry's start plus its width does not fit in 64 bits.
    CoordinateOverflow,
}

/// The runs of consecutive `true` flags, in order.
pub open spec fn runs_of(flags: Seq<bool>) -> Seq<Run>
    decreases flags.len(),
{
    if flags.len() == 0 {
        seq![]
    } else {
        let n = flags.len() - 1;
        let rest = runs_of(flags.drop_last());
        if !flags[n] {
            rest
        } else if n > 0 && flags[n - 1] {
            rest.update(
                rest.len() - 1,
                Run { start: rest.last().start, length: (rest.last().length + 1) as usize },
            )
        } else {
            rest.push(Run { start: n as usize, length: 1 })
        }
    }
}

/// Count of non-gap columns among the first `i`.
pub open spec fn nongap_before(a: Seq<u8>, i: int) -> int
    decreases i,
{
    if i <= 0 || a.len() == 0 {
        0
    } else if i > a.len() {
        nongap_before(a, a.len() as int)
    } else {
        nongap_before(a, i - 1) + (if a[i - 1] != 45u8 {
            1int
        } else {
            0int
        })
    }
}

/// Some candidate interval holds position `p` of `chrom`.
pub open spec fn covered(cands: Seq<RangeView>, chrom: Seq<char>, p: int) -> bool {
    0 <= p <= u64::MAX && exists|k: int|
        0 <= k < cands.len() && overlaps_spec(#[trigger] cands[k], chrom, p as u64)
}

/// The intervals that may hold a reference entry's bases.
pub open spec fn candidates(set: Seq<RangeView>, e: AlignedView) -> Seq<RangeView> {
    let q = RangeView { seq: chrom_of(e.seq), start: e.start, end: (e.start + e.aligned_length) as u64 };
    (if last_before(set, q) >= 0 {
        seq![set[last_before(set, q)]]
    } else {
        seq![]
    }) + starting_within(set, q)
}

/// Column `i` of reference entry `e` is kept: a base, at a position inside
/// one of the candidate intervals.
pub open spec fn kept_column(set: Seq<RangeView>, e: AlignedView, i: int) -> bool {
    e.alignment[i] != 45u8 && covered(
        candidates(set, e),
        chrom_of(e.seq),
        e.start + nongap_before(e.alignment, i),
    )
}

pub open spec fn kept_flags(set: Seq<RangeView>, e: AlignedView) -> Seq<bool> {
    Seq::new(e.alignment.len(), |i: int| kept_column(set, e, i))
}

proof fn lemma_runs_bounded(flags: Seq<bool>)
    requires
        flags.len() <= usize::MAX,
    ensures
        forall|j: int| 0 <= j < runs_of(flags).len() ==> (#[trigger] runs_of(flags)[j]).start + runs_of(flags)[j].length <= flags.len() && runs_of(flags)[j].length >= 1,
        runs_of(flags).len() > 0 ==> runs_of(flags).last().start + runs_of(flags).last().length <= flags.len(),
        flags.len() > 0 && flags.last() ==> runs_of(flags).len() > 0 && runs_of(flags).last().start + runs_of(flags).last().length == flags.len(),
    decreases flags.len(),
{
    if flags.len() > 0 {
        let t = flags.drop_last();
        lemma_runs_bounded(t);
        let n = flags.len() - 1;
        let r = runs_of(flags);
        let rt = runs_of(t);
        if flags[n] && n > 0 && flags[n - 1] {
            assert(t.last() == flags[n - 1]);
            assert(r.len() == rt.len());
            assert forall|j: int| 0 <= j < r.len() implies (#[trigger] r[j]).start + r[j].length <= flags.len() && r[j].length >= 1 by {
                if j < r.len() - 1 {
                    assert(r[j] == rt[j]);
                }
            }
        } else if flags[n] {
            assert forall|j: int| 0 <= j < r.len() implies (#[trigger] r[j]).start + r[j].length <= flags.len() && r[j].length >= 1 by {
                if j < r.len() - 1 {
                    assert(r[j] == rt[j]);
                }
            }
        }
    }
}

/// The interval lies wholly before position `p` of `chrom`.
pub open spec fn passed(r: RangeView, chrom: Seq<char>, p: int) -> bool {
    text_lt(r.seq, chrom) || r.end <= p
}

/// The runs of columns to keep: the reference entry's bases whose position
/// lies in a region. Two kept columns are in one run only where no column
/// between them is dropped.
pub fn get_filtered_columns(ref_entry: &MAFBlockAlignedEntry, ranges: &RangeSet) -> (r: Result<Vec<Run>, FilterError>)
    requires
        ref_entry.start + ref_entry.aligned_length <= u64::MAX,
        ranges.wf(),
    ensures
        ref_entry.strand == Strand::Negative ==> r == Err::<Vec<Run>, FilterError>(FilterError::NegativeStrandReference),
        ref_entry.strand == Strand::Positive ==> r is Ok && r->Ok_0@ == runs_of(kept_flags(ranges.items(), ref_entry@)),
{
    if ref_entry.strand == Strand::Negative {
        return Err(FilterError::NegativeStrandReference);
    }
    let chrom = chrom_part(ref_entry.seq.as_str());
    let query = Range {
        seq: chrom_part(ref_entry.seq.as_str()),
        start: ref_entry.start,
        end: ref_entry.start + ref_entry.aligned_length,
    };
    let cands = overlapping_ranges(ranges, &query);
    let ghost e = ref_entry@;
    let ghost flags = kept_flags(ranges.items(), e);
    assert(rvs(cands@) == candidates(ranges.items(), e));
    proof {
        crate::ranges::lemma_candidates_ascend(ranges, query@);
    }
    let mut cur: usize = 0;
    let mut runs: Vec<Run> = Vec::new();
    let mut current_pos: u128 = ref_entry.start as u128;
    let mut was_within_run = false;
    let mut i: usize = 0;
    let ghost a = ref_entry.alignment@;
    while i < ref_entry.alignment.len()
        invariant
            i <= ref_entry.alignment.len(),
            e == ref_entry@,
            a == e.alignment,
            flags == kept_flags(ranges.items(), e),
            rvs(cands@) == candidates(ranges.items(), e),
            chrom@ == chrom_of(e.seq),
            current_pos as int == e.start + nongap_before(a, i as int),
            nongap_before(a, i as int) <= i,
            cur <= cands@.len(),
            crate::ranges::keys_ascend(rvs(cands@)),
            forall|j: int| 0 <= j < cur ==> #[trigger] passed(rvs(cands@)[j], chrom@, current_pos as int),
            runs@ == runs_of(flags.take(i as int)),
            was_within_run == (i > 0 && flags[i - 1]),
        decreases ref_entry.alignment.len() - i,
    {
        let c = ref_entry.alignment[i];
        let ghost pos0 = current_pos as int;
        let ghost t1 = flags.take(i + 1);
        proof {
            assert(t1.drop_last() =~= flags.take(i as int));
            assert(nongap_before(a, i + 1) == nongap_before(a, i as int) + (if a[i as int] != 45u8 { 1int } else { 0int }));
            lemma_runs_bounded(flags.take(i as int));
        }
        let mut within_run = false;
        if c != 45u8 {
            let mut cov = false;
            if current_pos <= u64::MAX as u128 {
                let p = current_pos as u64;
                while cur < cands.len() && cands[cur].precedes(chrom.as_str(), p)
                    invariant
                        cur <= cands@.len(),
                        forall|j: int| 0 <= j < cur ==> #[trigger] passed(rvs(cands@)[j], chrom@, p as int),
                    decreases cands.len() - cur,
                {
                    assert(rvs(cands@)[cur as int] == cands@[cur as int]@);
                    cur = cur + 1;
                }
                cov = cur < cands.len() && cands[cur].overlaps(chrom.as_str(), p);
                proof {
                    let c = rvs(cands@);
                    if cur < cands.len() {
                        assert(c[cur as int] == cands@[cur as int]@);
                    }
                    crate::ranges::lemma_text_lt_irrefl(chrom@);
                    if cov {
                        assert(overlaps_spec(c[cur as int], chrom@, p));
                    }
                    if covered(c, chrom@, p as int) {
                        let k = choose|k: int| 0 <= k < c.len() && overlaps_spec(#[trigger] c[k], chrom@, p);
                        if k < cur {
                            assert(passed(c[k], chrom@, p as int));
                        } else if k > cur {
                            assert(crate::ranges::key_le(c[cur as int], c[k]));
                            assert(!passed(c[cur as int], chrom@, p as int));
                        }
                    }
                    assert(cov == covered(c, chrom@, p as int));
                }
            }
            if cov {
                if was_within_run {
                    let n = runs.len() - 1;
                    let last = runs[n];
                    runs.set(n, Run { start: last.start, length: last.length + 1 });
                } else {
                    runs.push(Run { start: i, length: 1 });
                }
                within_run = true;
            }
            current_pos = current_pos + 1;
        }
        assert forall|j: int| 0 <= j < cur implies #[trigger] passed(rvs(cands@)[j], chrom@, current_pos as int) by {
            assert(passed(rvs(cands@)[j], chrom@, pos0));
        }
        assert(within_run == flags[i as int]);
        was_within_run = within_run;
        i = i + 1;
    }
    assert(flags.take(i as int) =~= flags);
    Ok(runs)
}

/// Number of gaps at the front.
pub open spec fn leading_gaps(x: Seq<u8>) -> int
    decreases x.len(),
{
    if x.len() == 0 {
        0
    } else if x[0] == 45u8 {
        1 + leading_gaps(x.drop_first())
    } else {
        0
    }
}

pub open spec fn min(a: int, b: int) -> int {
    if a < b {
        a
    } else {
        b
    }
}

/// The columns of a run, cut at the end of the alignment.
pub open spec fn run_slice(a: Seq<u8>, run: Run) -> Seq<u8> {
    a.subrange(min(run.start as int, a.len() as int), min(run.start + run.length, a.len() as int))
}

/// An entry cut down to a run: the start moves past the bases before the run
/// and past the gaps that open it; the length counts the bases inside.
/// Context and qualities are dropped.
pub open spec fn projected(e: AlignedView, run: Run) -> AlignedView {
    let x = run_slice(e.alignment, run);
    AlignedView {
        alignment: x,
        seq: e.seq,
        start: (e.start + nongap_before(e.alignment, run.start as int) + leading_gaps(x)) as u64,
        aligned_length: nongap_before(x, x.len() as int) as u64,
        sequence_size: e.sequence_size,
        strand: e.strand,
        context: None,
        qualities: None,
    }
}

/// Every entry's start plus its width fits in 64 bits.
pub open spec fn coords_fit(al: Seq<AlignedView>) -> bool {
    forall|k: int| 0 <= k < al.len() ==> (#[trigger] al[k]).start + al[k].alignment.len() <= u64::MAX
}

proof fn lemma_nongap_le(a: Seq<u8>, i: int)
    requires
        0 <= i,
    ensures
        0 <= nongap_before(a, i) <= min(i, a.len() as int),
    decreases i,
{
    if i > 0 && a.len() > 0 {
        if i > a.len() {
            lemma_nongap_le(a, a.len() as int);
        } else {
            lemma_nongap_le(a, i - 1);
        }
    }
}

proof fn lemma_leading_gaps_le(x: Seq<u8>)
    ensures
        0 <= leading_gaps(x) <= x.len(),
    decreases x.len(),
{
    if x.len() > 0 && x[0] == 45u8 {
        lemma_leading_gaps_le(x.drop_first());
    }
}

/// Count of non-gap bytes among the first `n` of `x`.
fn count_nongap(x: &[u8], n: usize) -> (r: usize)
    requires
        n <= x@.len(),
    ensures
        r == nongap_before(x@, n as int),
{
    let mut cnt: usize = 0;
    let mut j: usize = 0;
    while j < n
        invariant
            j <= n,
            n <= x@.len(),
            cnt == nongap_before(x@, j as int),
            cnt <= j,
        decreases n - j,
    {
        if x[j] != 45u8 {
            cnt = cnt + 1;
        }
        j = j + 1;
    }
    cnt
}

fn count_leading_gaps(x: &[u8]) -> (r: usize)
    ensures
        r == leading_gaps(x@),
{
    let mut j: usize = 0;
    assert(x@.skip(0) =~= x@);
    while j < x.len() && x[j] == 45u8
        invariant
            j <= x@.len(),
            leading_gaps(x@) == j + leading_gaps(x@.skip(j as int)),
        decreases x.len() - j,
    {
        assert(x@.skip(j as int).drop_first() =~= x@.skip(j + 1));
        j = j + 1;
    }
    if j < x.len() {
        assert(x@.skip(j as int)[0] == x@[j as int]);
    } else {
        assert(x@.skip(j as int).len() == 0);
    }
    j
}

/// One entry cut down to the columns of a run.
pub fn filter_entry_columns(entry: &MAFBlockAlignedEntry, run: &Run) -> (r: MAFBlockAlignedEntry)
    requires
        entry.start + entry.alignment@.len() <= u64::MAX,
    ensures
        r@ == projected(entry@, *run),
{
    let a = entry.alignment.as_slice();
    let len = a.len();
    let s = if run.start < len { run.start } else { len };
    let e = if run.length <= len - s { s + run.length } else { len };
    let before = count_nongap(a, s);
    let x = vstd::slice::slice_to_vec(&a[s..e]);
    assert(x@ =~= run_slice(entry.alignment@, *run));
    let inside = count_leading_gaps(x.as_slice());
    let kept = count_nongap(x.as_slice(), x.len());
    proof {
        lemma_nongap_le(entry.alignment@, run.start as int);
        lemma_nongap_le(entry.alignment@, s as int);
        lemma_leading_gaps_le(x@);
        if run.start as int > len {
            assert(nongap_before(entry.alignment@, run.start as int) == nongap_before(entry.alignment@, len as int));
        }
    }
    MAFBlockAlignedEntry {
        seq: entry.seq.clone(),
        sequence_size: entry.sequence_size,
        strand: entry.strand,
        start: entry.start + before as u64 + inside as u64,
        alignment: x,
        aligned_length: kept as u64,
        context: None,
        qualities: None,
    }
}

pub open spec fn filtered_block(b: crate::model::BlockView, run: Run) -> crate::model::BlockView {
    crate::model::BlockView {
        entries: aligned_of(b.entries).map_values(|a: AlignedView| EntryView::Aligned(projected(a, run))),
        metadata: b.metadata,
    }
}

/// The block cut down to a run: its aligned entries, each cut to the run's
/// columns; unaligned entries are dropped; the metadata stays.
pub fn filter_block_columns(block: &MAFBlock, run: &Run) -> (r: MAFBlock)
    requires
        coords_fit(aligned_of(block@.entries)),
    ensures
        r@ == filtered_block(block@, *run),
{
    let al = block.aligned_entries();
    let ghost alv = avs(al@);
    let mut entries: Vec<MAFBlockEntry> = Vec::new();
    let mut k: usize = 0;
    while k < al.len()
        invariant
            k <= al.len(),
            alv == avs(al@),
            coords_fit(alv),
            ev(entries@) == alv.take(k as int).map_values(|a: AlignedView| EntryView::Aligned(projected(a, *run))),
        decreases al.len() - k,
    {
        assert(alv[k as int] == al@[k as int]@);
        let ghost before = ev(entries@);
        let p = filter_entry_columns(&al[k], run);
        let ghost pv = p@;
        entries.push(MAFBlockEntry::AlignedEntry(p));
        assert(ev(entries@) =~= before.push(EntryView::Aligned(pv)));
        assert(alv.take(k + 1) =~= alv.take(k as int).push(alv[k as int]));
        k = k + 1;
        assert(ev(entries@) =~= alv.take(k as int).map_values(|a: AlignedView| EntryView::Aligned(projected(a, *run))));
    }
    assert(alv.take(k as int) =~= alv);
    let r = MAFBlock { entries, metadata: copy_metadata(&block.metadata) };
    assert(r@.entries =~= filtered_block(block@, *run).entries);
    r
}

/// Checks that every entry's start plus its width fits in 64 bits.
fn entries_fit(al: &Vec<MAFBlockAlignedEntry>) -> (r: bool)
    ensures
        r == coords_fit(avs(al@)),
{
    let mut k: usize = 0;
    while k < al.len()
        invariant
            k <= al.len(),
            forall|j: int| 0 <= j < k ==> (#[trigger] avs(al@)[j]).start + avs(al@)[j].alignment.len() <= u64::MAX,
        decreases al.len() - k,
    {
        assert(avs(al@)[k as int] == al@[k as int]@);
        if al[k].start > u64::MAX - (al[k].alignment.len() as u64) || al[k].alignment.len() as u128 > u64::MAX as u128 {
            return false;
        }
        k = k + 1;
    }
    true
}

/// The block cut into one block per run of kept columns. The first aligned
/// entry is the reference; it must be on the positive strand. A block with
/// no aligned entry gives no blocks.
pub fn filter_block(block: &MAFBlock, ranges: &RangeSet) -> (r: Result<Vec<MAFBlock>, FilterError>)
    requires
        ranges.wf(),
    ensures
        aligned_of(block@.entries).len() == 0 ==> r is Ok && r->Ok_0@.len() == 0,
        aligned_of(block@.entries).len() > 0 ==> ({
            let al = aligned_of(block@.entries);
            let e = al[0];
            if !(coords_fit(al) && e.start + e.aligned_length <= u64::MAX) {
                r == Err::<Vec<MAFBlock>, FilterError>(FilterError::CoordinateOverflow)
            } else if e.strand == Strand::Negative {
                r == Err::<Vec<MAFBlock>, FilterError>(FilterError::NegativeStrandReference)
            } else {
                r is Ok && r->Ok_0@.len() == runs_of(kept_flags(ranges.items(), e)).len()
                    && forall|j: int| 0 <= j < r->Ok_0@.len() ==> (#[trigger] r->Ok_0@[j])@ == filtered_block(
                    block@,
                    runs_of(kept_flags(ranges.items(), e))[j],
                )
            }
        }),
{
    let al = block.aligned_entries();
    if al.len() == 0 {
        return Ok(Vec::new());
    }
    let ref_entry = &al[0];
    assert(avs(al@)[0] == ref_entry@);
    if !entries_fit(&al) || ref_entry.start > u64::MAX - ref_entry.aligned_length {
        return Err(FilterError::CoordinateOverflow);
    }
    let runs = match get_filtered_columns(ref_entry, ranges) {
        Ok(runs) => runs,
        Err(e) => return Err(e),
    };
    let mut out: Vec<MAFBlock> = Vec::new();
    let mut j: usize = 0;
    while j < runs.len()
        invariant
            j <= runs.len(),
            coords_fit(aligned_of(block@.entries)),
            out@.len() == j,
            forall|t: int| 0 <= t < j ==> (#[trigger] out@[t])@ == filtered_block(block@, runs@[t]),
        decreases runs.len() - j,
    {
        out.push(filter_block_columns(block, &runs[j]));
        j = j + 1;
    }
    Ok(out)
}

/// The text of the blocks that a block is cut into.
pub open spec fn runs_text(b: BlockView, runs: Seq<Run>) -> Seq<char>
    decreases runs.len(),
{
    if runs.len() == 0 {
        seq![]
    } else {
        runs_text(b, runs.drop_last()) + block_text(filtered_block(b, runs.last()))
    }
}

/// What filtering one block gives: the text of its pieces, or the failure.
pub open spec fn block_filter_text(b: BlockView, set: Seq<RangeView>) -> Result<Seq<char>, FilterError> {
    let al = aligned_of(b.entries);
    if al.len() == 0 {
        Ok(seq![])
    } else if !(coords_fit(al) && al[0].start + al[0].aligned_length <= u64::MAX) {
        Err(FilterError::CoordinateOverflow)
    } else if al[0].strand == Strand::Negative {
        Err(FilterError::NegativeStrandReference)
    } else {
        Ok(runs_text(b, runs_of(kept_flags(set, al[0]))))
    }
}

/// Comments, and the pieces of every block, as text; or the first failure.
pub open spec fn filter_text(items: Seq<ItemView>, set: Seq<RangeView>) -> Result<Seq<char>, FilterError>
    decreases items.len(),
{
    if items.len() == 0 {
        Ok(seq![])
    } else {
        match filter_text(items.drop_last(), set) {
            Err(k) => Err(k),
            Ok(t) => match items.last() {
                ItemView::Comment(c) => Ok(t + comment_text(c)),
                ItemView::Block(b) => match block_filter_text(b, set) {
                    Ok(x) => Ok(t + x),
                    Err(k) => Err(k),
                },
            },
        }
    }
}

proof fn lemma_filter_text_err(items: Seq<ItemView>, rest: Seq<ItemView>, set: Seq<RangeView>)
    requires
        filter_text(items, set) is Err,
    ensures
        filter_text(items + rest, set) == filter_text(items, set),
    decreases rest.len(),
{
    if rest.len() == 0 {
        assert(items + rest =~= items);
    } else {
        lemma_filter_text_err(items, rest.drop_last(), set);
        assert((items + rest).drop_last() =~= items + rest.drop_last());
    }
}

#[derive(Debug)]
pub enum FilterRunError {
    Parse(MAFParseError),
    Filter(FilterError),
}

/// Writes the comments, and each block cut down to the runs of its columns
/// that lie in the regions. Stops at the first item that cannot be read or
/// block that cannot be cut.
pub fn filter(input: &mut LinesRef, ranges: &RangeSet) -> (r: Result<String, FilterRunError>)
    requires
        old(input).wf(),
        ranges.wf(),
    ensures
        match items_from(old(input).text(), old(input).pos as int) {
            Ok(items) => match filter_text(items, ranges.items()) {
                Ok(t) => r is Ok && r->Ok_0@ == t,
                Err(k) => r == Err::<String, FilterRunError>(FilterRunError::Filter(k)),
            },
            Err(k) => r is Err,
        },
{
    let ghost ls = input.text();
    let ghost start = input.pos as int;
    let ghost set = ranges.items();
    let ghost mut done: Seq<ItemView> = seq![];
    let mut out: Vec<char> = Vec::new();
    assert(prepend(done, items_from(ls, start)) == items_from(ls, start)) by {
        match items_from(ls, start) {
            Ok(x) => { assert(done + x =~= x); },
            Err(k) => {},
        }
    }
    loop
        invariant
            input.wf(),
            input.text() == ls,
            ls == old(input).text(),
            start == old(input).pos,
            set == ranges.items(),
            ranges.wf(),
            ls.len() == input.lines.len(),
            prepend(done, items_from(ls, input.pos as int)) == items_from(ls, start),
            filter_text(done, set) == Ok::<Seq<char>, FilterError>(out@),
        decreases input.lines.len() - input.pos,
    {
        let ghost i = input.pos as int;
        let ghost st = item_step(ls, i);
        let item = read_item(input);
        match item {
            Err(e) => {
                if let MAFParseError::EOF = e {
                    proof {
                        assert(st is End);
                        assert(items_from(ls, i) == Ok::<Seq<ItemView>, crate::parser::FailKind>(seq![]));
                        assert(done + seq![] =~= done);
                        assert(items_from(ls, start) == Ok::<Seq<ItemView>, crate::parser::FailKind>(done));
                    }
                    return Ok(string_of(out.as_slice()));
                }
                proof {
                    assert(st is Failed);
                    assert(items_from(ls, i) == Err::<Seq<ItemView>, crate::parser::FailKind>(kind_of(e)));
                }
                return Err(FilterRunError::Parse(e));
            },
            Ok(MAFItem::Comment(c)) => {
                proof {
                    lemma_items_step(ls, i, done, ItemView::Comment(c@));
                }
                out.push('#');
                push_str(&mut out, c.as_str());
                out.push('\n');
                proof {
                    let nd = done.push(ItemView::Comment(c@));
                    assert(nd.drop_last() =~= done);
                    assert(out@ =~= filter_text(done, set)->Ok_0 + comment_text(c@));
                    done = nd;
                }
            },
            Ok(MAFItem::Block(b)) => {
                proof {
                    lemma_items_step(ls, i, done, ItemView::Block(b@));
                }
                let ghost nd = done.push(ItemView::Block(b@));
                assert(nd.drop_last() =~= done);
                match filter_block(&b, ranges) {
                    Ok(pieces) => {
                        let ghost before = out@;
                        let ghost al = aligned_of(b@.entries);
                        let mut j: usize = 0;
                        while j < pieces.len()
                            invariant
                                j <= pieces.len(),
                                al == aligned_of(b@.entries),
                                al.len() > 0 ==> coords_fit(al) && al[0].start + al[0].aligned_length <= u64::MAX && al[0].strand == Strand::Positive,
                                al.len() == 0 ==> pieces@.len() == 0,
                                al.len() > 0 ==> pieces@.len() == runs_of(kept_flags(set, al[0])).len(),
                                al.len() > 0 ==> forall|t: int| 0 <= t < pieces@.len() ==> (#[trigger] pieces@[t])@ == filtered_block(b@, runs_of(kept_flags(set, al[0]))[t]),
                                al.len() > 0 ==> out@ == before + runs_text(b@, runs_of(kept_flags(set, al[0])).take(j as int)),
                                al.len() == 0 ==> out@ == before,
                            decreases pieces.len() - j,
                        {
                            let t = pieces[j].to_maf_string();
                            push_str(&mut out, t.as_str());
                            proof {
                                let rs = runs_of(kept_flags(set, al[0]));
                                assert(rs.take(j + 1).drop_last() =~= rs.take(j as int));
                                assert(rs.take(j + 1).last() == rs[j as int]);
                            }
                            j = j + 1;
                        }
                        proof {
                            if al.len() > 0 {
                                let rs = runs_of(kept_flags(set, al[0]));
                                assert(rs.take(j as int) =~= rs);
                                assert(block_filter_text(b@, set) == Ok::<Seq<char>, FilterError>(runs_text(b@, rs)));
                            } else {
                                assert(out@ =~= before + seq![]);
                            }
                            done = nd;
                        }
                    },
                    Err(fe) => {
                        proof {
                            assert(block_filter_text(b@, set) == Err::<Seq<char>, FilterError>(fe));
                            assert(filter_text(nd, set) == Err::<Seq<char>, FilterError>(fe));
                            match items_from(ls, crate::parser::step_next(ls, i)) {
                                Ok(rest) => {
                                    lemma_filter_text_err(nd, rest, set);
                                },
                                Err(_) => {},
                            }
                        }
                        return Err(FilterRunError::Filter(fe));
                    },
                }
            },
        }
    }
}

} // verus!
