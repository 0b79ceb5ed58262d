//! Per-genome coverage of a reference genome's aligned bases.

use crate::model::{
    AlignedView, GenomeGroup, MAFBlock, MAFBlockAlignedEntry, Strand, aligned_of, covers,
    has_group, indices_of_genome, is_grouping,
};
use crate::parser::{
    FailKind, ItemView, LinesRef, MAFParseError, item_step, items_from, lemma_items_step, prepend, read_item,
};
use crate::ranges::{RangeSet, RangeView, contains_point, range_contains_pos};
use crate::text::{chrom_of, chrom_part, genome_of};
use crate::model::MAFItem;
use crate::ranges::text_equal;
use vstd::prelude::*;

verus! {

/// A base that counts as aligned: `ACGTN` in either case.
pub open spec fn is_aligned_base(b: u8) -> bool {
    b == 65u8 || b == 67u8 || b == 71u8 || b == 84u8 || b == 78u8 || b == 97u8 || b == 99u8 || b
        == 103u8 || b == 116u8 || b == 110u8
}

pub fn aligned_base(base: u8) -> (r: bool)
    ensures
        r == is_aligned_base(base),
{
    match base {
        65u8 | 67u8 | 71u8 | 84u8 | 78u8 | 97u8 | 99u8 | 103u8 | 116u8 | 110u8 => true,
        _ => false,
    }
}

/// Column `i` of an alignment, a gap past its end.
pub open spec fn base_at(a: Seq<u8>, i: int) -> u8 {
    if 0 <= i < a.len() {
        a[i]
    } else {
        45u8
    }
}

/// Count of aligned bases among the first `i` columns.
pub open spec fn aligned_before(a: Seq<u8>, i: int) -> int
    decreases i,
{
    if i <= 0 {
        0
    } else {
        aligned_before(a, i - 1) + (if is_aligned_base(base_at(a, i - 1)) {
            1int
        } else {
            0int
        })
    }
}

/// Reference position of column `i` of entry `e`.
pub open spec fn ref_pos(e: AlignedView, i: int) -> int {
    match e.strand {
        Strand::Positive => e.start + aligned_before(e.alignment, i),
        Strand::Negative => e.sequence_size - e.start - aligned_before(e.alignment, i),
    }
}

/// Whether a reference position is inside the configured regions (all
/// positions are where there are none).
pub open spec fn in_regions(ranges: Option<Seq<RangeView>>, chrom: Seq<char>, pos: int) -> bool {
    match ranges {
        None => true,
        Some(s) => 0 <= pos <= u64::MAX && contains_point(s, chrom, pos as u64),
    }
}

/// Column `i` of reference entry `e` counts: its base is aligned and its
/// position is inside the regions.
pub open spec fn column_counts(ranges: Option<Seq<RangeView>>, e: AlignedView, i: int) -> bool {
    is_aligned_base(base_at(e.alignment, i)) && in_regions(ranges, chrom_of(e.seq), ref_pos(e, i))
}

/// Some entry of genome `g` has an aligned base in column `i`.
pub open spec fn genome_aligned_at(al: Seq<AlignedView>, g: Seq<char>, i: int) -> bool {
    exists|k: int|
        0 <= k < al.len() && genome_of(#[trigger] al[k].seq) == g && is_aligned_base(
            base_at(al[k].alignment, i),
        )
}

/// What genome `g` gains from the first `n` columns of reference entry `e`.
pub open spec fn entry_gain(
    ranges: Option<Seq<RangeView>>,
    e: AlignedView,
    al: Seq<AlignedView>,
    g: Seq<char>,
    n: int,
) -> int
    decreases n,
{
    if n <= 0 {
        0
    } else {
        entry_gain(ranges, e, al, g, n - 1) + (if column_counts(ranges, e, n - 1)
            && genome_aligned_at(al, g, n - 1) {
            1int
        } else {
            0int
        })
    }
}

/// What genome `g` gains from the reference entries `refs` of a block.
pub open spec fn block_gain(
    ranges: Option<Seq<RangeView>>,
    refs: Seq<AlignedView>,
    al: Seq<AlignedView>,
    g: Seq<char>,
) -> int
    decreases refs.len(),
{
    if refs.len() == 0 {
        0
    } else {
        block_gain(ranges, refs.drop_last(), al, g) + entry_gain(
            ranges,
            refs.last(),
            al,
            g,
            refs.last().alignment.len() as int,
        )
    }
}

/// The entries of genome `g`, in order.
pub open spec fn entries_of_genome(al: Seq<AlignedView>, g: Seq<char>) -> Seq<AlignedView>
    decreases al.len(),
{
    if al.len() == 0 {
        seq![]
    } else {
        let rest = entries_of_genome(al.drop_last(), g);
        if genome_of(al.last().seq) == g {
            rest.push(al.last())
        } else {
            rest
        }
    }
}

/// Total alignment width of entries.
pub open spec fn total_width(al: Seq<AlignedView>) -> int
    decreases al.len(),
{
    if al.len() == 0 {
        0
    } else {
        total_width(al.drop_last()) + al.last().alignment.len()
    }
}

/// The count for key `g` in a list of counts, 0 where `g` is absent.
pub open spec fn count_in(v: Seq<(String, u64)>, g: Seq<char>) -> int
    decreases v.len(),
{
    if v.len() == 0 {
        0
    } else if v.last().0@ == g {
        v.last().1 as int
    } else {
        count_in(v.drop_last(), g)
    }
}

/// Whether key `g` is in a list of counts.
pub open spec fn has_key(v: Seq<(String, u64)>, g: Seq<char>) -> bool {
    exists|i: int| 0 <= i < v.len() && (#[trigger] v[i]).0@ == g
}

pub open spec fn keys_unique(v: Seq<(String, u64)>) -> bool {
    forall|i: int, j: int| 0 <= i < j < v.len() ==> (#[trigger] v[i]).0@ != (#[trigger] v[j]).0@
}

proof fn lemma_count_at(v: Seq<(String, u64)>, i: int)
    requires
        keys_unique(v),
        0 <= i < v.len(),
    ensures
        count_in(v, v[i].0@) == v[i].1,
    decreases v.len(),
{
    if i < v.len() - 1 {
        let t = v.drop_last();
        assert(v[i] == t[i]);
        assert(v[i].0@ != v[v.len() - 1].0@);
        lemma_count_at(t, i);
    }
}

proof fn lemma_count_absent(v: Seq<(String, u64)>, g: Seq<char>)
    requires
        !has_key(v, g),
    ensures
        count_in(v, g) == 0,
    decreases v.len(),
{
    if v.len() > 0 {
        assert(v[v.len() - 1] == v.last());
        assert(!has_key(v.drop_last(), g)) by {
            if has_key(v.drop_last(), g) {
                let i = choose|i: int| 0 <= i < v.drop_last().len() && (#[trigger] v.drop_last()[i]).0@ == g;
                assert(v[i] == v.drop_last()[i]);
            }
        }
        lemma_count_absent(v.drop_last(), g);
    }
}

proof fn lemma_count_update(v: Seq<(String, u64)>, i: int, p: (String, u64), h: Seq<char>)
    requires
        keys_unique(v),
        0 <= i < v.len(),
        p.0@ == v[i].0@,
    ensures
        count_in(v.update(i, p), h) == if h == v[i].0@ {
            p.1 as int
        } else {
            count_in(v, h)
        },
    decreases v.len(),
{
    let w = v.update(i, p);
    if i == v.len() - 1 {
        assert(w.drop_last() =~= v.drop_last());
    } else {
        assert(w.drop_last() =~= v.drop_last().update(i, p));
        assert(v.drop_last()[i] == v[i]);
        assert(w.last() == v.last());
        assert(v[i].0@ != v[v.len() - 1].0@);
        lemma_count_update(v.drop_last(), i, p, h);
    }
}

/// Adds one to the count of `g`, adding `g` with count one where it is absent.
fn bump(counts: &mut Vec<(String, u64)>, g: &String)
    requires
        keys_unique(old(counts)@),
        count_in(old(counts)@, g@) < u64::MAX,
    ensures
        keys_unique(final(counts)@),
        forall|h: Seq<char>| #[trigger] count_in(final(counts)@, h) == count_in(old(counts)@, h) + (if h == g@ {
            1int
        } else {
            0int
        }),
        forall|h: Seq<char>| #[trigger] has_key(final(counts)@, h) <==> has_key(old(counts)@, h) || h == g@,
{
    let ghost v = counts@;
    let mut i: usize = 0;
    while i < counts.len() && !text_equal(counts[i].0.as_str(), g.as_str())
        invariant
            i <= counts.len(),
            counts@ == v,
            forall|j: int| 0 <= j < i ==> (#[trigger] v[j]).0@ != g@,
        decreases counts.len() - i,
    {
        i = i + 1;
    }
    if i < counts.len() {
        proof {
            lemma_count_at(v, i as int);
        }
        let c = counts[i].1;
        let k = counts[i].0.clone();
        let ghost p = (k, (c + 1) as u64);
        counts.set(i, (k, c + 1));
        proof {
            assert(counts@ == v.update(i as int, p));
            assert forall|h: Seq<char>| #[trigger] count_in(counts@, h) == count_in(v, h) + (if h == g@ { 1int } else { 0int }) by {
                lemma_count_update(v, i as int, p, h);
            }
            assert forall|a: int, b: int| 0 <= a < b < counts@.len() implies (#[trigger] counts@[a]).0@ != (#[trigger] counts@[b]).0@ by {
                assert(counts@[a].0@ == v[a].0@ && counts@[b].0@ == v[b].0@);
            }
            assert forall|h: Seq<char>| #[trigger] has_key(counts@, h) <==> has_key(v, h) || h == g@ by {
                if has_key(counts@, h) {
                    let j = choose|j: int| 0 <= j < counts@.len() && (#[trigger] counts@[j]).0@ == h;
                    assert(v[j].0@ == h);
                }
                if has_key(v, h) {
                    let j = choose|j: int| 0 <= j < v.len() && (#[trigger] v[j]).0@ == h;
                    assert(counts@[j].0@ == h);
                }
                if h == g@ {
                    assert(counts@[i as int].0@ == h);
                }
            }
        }
    } else {
        proof {
            assert(!has_key(v, g@));
            lemma_count_absent(v, g@);
        }
        counts.push((g.clone(), 1));
        proof {
            assert(counts@.drop_last() =~= v);
            assert forall|a: int, b: int| 0 <= a < b < counts@.len() implies (#[trigger] counts@[a]).0@ != (#[trigger] counts@[b]).0@ by {
                assert(counts@[a] == v[a]);
                if b < v.len() {
                    assert(counts@[b] == v[b]);
                }
            }
            assert forall|h: Seq<char>| #[trigger] has_key(counts@, h) <==> has_key(v, h) || h == g@ by {
                if has_key(counts@, h) {
                    let j = choose|j: int| 0 <= j < counts@.len() && (#[trigger] counts@[j]).0@ == h;
                    if j < v.len() {
                        assert(v[j] == counts@[j]);
                    }
                }
                if has_key(v, h) {
                    let j = choose|j: int| 0 <= j < v.len() && (#[trigger] v[j]).0@ == h;
                    assert(counts@[j] == v[j]);
                }
                if h == g@ {
                    assert(counts@[v.len() as int].0@ == h);
                }
            }
        }
    }
}

/// The indices of genome `g`'s entries are those whose genome is `g`.
pub proof fn lemma_indices_of_genome(al: Seq<AlignedView>, g: Seq<char>)
    ensures
        forall|t: int|
            0 <= t < indices_of_genome(al, g).len() ==> 0 <= #[trigger] indices_of_genome(al, g)[t]
                < al.len() && genome_of(al[indices_of_genome(al, g)[t]].seq) == g,
        forall|k: int|
            0 <= k < al.len() && genome_of(#[trigger] al[k].seq) == g ==> exists|t: int|
                0 <= t < indices_of_genome(al, g).len() && indices_of_genome(al, g)[t] == k,
    decreases al.len(),
{
    if al.len() > 0 {
        let t0 = al.drop_last();
        lemma_indices_of_genome(t0, g);
        let idx = indices_of_genome(al, g);
        let idx0 = indices_of_genome(t0, g);
        assert forall|t: int| 0 <= t < idx.len() implies 0 <= #[trigger] idx[t] < al.len() && genome_of(al[idx[t]].seq) == g by {
            if t < idx0.len() {
                assert(idx[t] == idx0[t]);
                assert(al[idx0[t]] == t0[idx0[t]]);
            }
        }
        assert forall|k: int| 0 <= k < al.len() && genome_of(#[trigger] al[k].seq) == g implies exists|t: int|
            0 <= t < idx.len() && idx[t] == k by {
            if k < al.len() - 1 {
                assert(t0[k] == al[k]);
                let t = choose|t: int| 0 <= t < idx0.len() && idx0[t] == k;
                assert(idx[t] == k);
            } else {
                assert(idx[idx.len() - 1] == k);
            }
        }
    }
}

proof fn lemma_entry_gain_le(ranges: Option<Seq<RangeView>>, e: AlignedView, al: Seq<AlignedView>, g: Seq<char>, n: int)
    requires
        n >= 0,
    ensures
        0 <= entry_gain(ranges, e, al, g, n) <= n,
    decreases n,
{
    if n > 0 {
        lemma_entry_gain_le(ranges, e, al, g, n - 1);
    }
}

/// Reference position at `offset` aligned bases into entry `e`.
pub open spec fn pos_at(e: AlignedView, offset: int) -> int {
    match e.strand {
        Strand::Positive => e.start + offset,
        Strand::Negative => e.sequence_size - e.start - offset,
    }
}

fn ref_position(e: &MAFBlockAlignedEntry, offset: u64) -> (r: Option<u64>)
    ensures
        r is Some <==> 0 <= pos_at(e@, offset as int) <= u64::MAX,
        r is Some ==> r->0 == pos_at(e@, offset as int),
{
    match e.strand {
        Strand::Positive => e.start.checked_add(offset),
        Strand::Negative => {
            if e.sequence_size >= e.start && e.sequence_size - e.start >= offset {
                Some(e.sequence_size - e.start - offset)
            } else {
                None
            }
        },
    }
}

pub open spec fn avs(al: Seq<MAFBlockAlignedEntry>) -> Seq<AlignedView> {
    al.map_values(|a: MAFBlockAlignedEntry| a@)
}

/// Some entry among the members has an aligned base in column `i`.
fn group_aligned_at(al: &Vec<MAFBlockAlignedEntry>, members: &Vec<usize>, i: usize) -> (r: bool)
    requires
        forall|t: int| 0 <= t < members@.len() ==> #[trigger] members@[t] < al@.len(),
    ensures
        r == exists|t: int| 0 <= t < members@.len() && is_aligned_base(base_at(al@[#[trigger] members@[t] as int].alignment@, i as int)),
{
    let mut t: usize = 0;
    while t < members.len()
        invariant
            t <= members.len(),
            forall|u: int| 0 <= u < members@.len() ==> #[trigger] members@[u] < al@.len(),
            forall|u: int| 0 <= u < t ==> !is_aligned_base(base_at(al@[#[trigger] members@[u] as int].alignment@, i as int)),
        decreases members.len() - t,
    {
        let a = &al[members[t]];
        if i < a.alignment.len() && aligned_base(a.alignment[i]) {
            return true;
        }
        t = t + 1;
    }
    false
}

/// Coverage counting against a reference genome, optionally restricted to regions.
pub struct MAFCoverage {
    /// Coverage by genome, each genome once, in order of first count.
    pub coverage: Vec<(String, u64)>,
    /// Regions to restrict to; columns outside them are not counted.
    pub ranges: Option<RangeSet>,
    pub ref_genome: String,
    /// Reference sequence name and length, each sequence once, for the
    /// total when there are no regions.
    pub ref_lengths: Vec<(String, u64)>,
}

impl MAFCoverage {
    pub open spec fn ranges_view(&self) -> Option<Seq<RangeView>> {
        match self.ranges {
            Some(s) => Some(s.items()),
            None => None,
        }
    }

    pub open spec fn wf(&self) -> bool {
        &&& keys_unique(self.coverage@)
        &&& keys_unique(self.ref_lengths@)
        &&& match self.ranges {
            Some(s) => s.wf(),
            None => true,
        }
    }

    pub fn new(ref_genome: &str, ranges: Option<RangeSet>) -> (r: MAFCoverage)
        requires
            ranges is Some ==> ranges->0.wf(),
        ensures
            r.wf(),
            r.ref_genome@ == ref_genome@,
            r.ranges == ranges,
            r.coverage@.len() == 0,
            r.ref_lengths@.len() == 0,
    {
        MAFCoverage {
            coverage: Vec::new(),
            ref_genome: ref_genome.to_string(),
            ranges,
            ref_lengths: Vec::new(),
        }
    }

    /// Whether `position` of `chrom` is inside the regions; always where
    /// there are none.
    pub fn in_range(&self, chrom: &str, position: u64) -> (r: bool)
        requires
            self.wf(),
        ensures
            r == in_regions(self.ranges_view(), chrom@, position as int),
    {
        match &self.ranges {
            None => true,
            Some(set) => range_contains_pos(set, chrom, position),
        }
    }

    /// The coverage count of a genome, where it has one.
    pub fn coverage_of(&self, genome: &str) -> (r: Option<u64>)
        requires
            self.wf(),
        ensures
            r is Some <==> has_key(self.coverage@, genome@),
            r is Some ==> r->0 == count_in(self.coverage@, genome@),
    {
        let mut i: usize = 0;
        while i < self.coverage.len()
            invariant
                i <= self.coverage.len(),
                self.wf(),
                forall|j: int| 0 <= j < i ==> (#[trigger] self.coverage@[j]).0@ != genome@,
            decreases self.coverage.len() - i,
        {
            if text_equal(self.coverage[i].0.as_str(), genome) {
                proof {
                    lemma_count_at(self.coverage@, i as int);
                }
                return Some(self.coverage[i].1);
            }
            i = i + 1;
        }
        None
    }

    pub fn add_block_with_ref_entry(
        &mut self,
        ref_entry: &MAFBlockAlignedEntry,
        al: &Vec<MAFBlockAlignedEntry>,
        groups: &Vec<GenomeGroup>,
    )
        requires
            old(self).wf(),
            is_grouping(avs(al@), groups@),
            forall|h: Seq<char>| #[trigger] count_in(old(self).coverage@, h) + ref_entry.alignment@.len() <= u64::MAX,
        ensures
            final(self).wf(),
            final(self).ranges == old(self).ranges,
            final(self).ref_genome == old(self).ref_genome,
            forall|h: Seq<char>| #[trigger] count_in(final(self).coverage@, h) == count_in(old(self).coverage@, h) + entry_gain(
                old(self).ranges_view(),
                ref_entry@,
                avs(al@),
                h,
                ref_entry.alignment@.len() as int,
            ),
            forall|h: Seq<char>| #[trigger] has_key(final(self).coverage@, h) <==> has_key(old(self).coverage@, h) || count_in(final(self).coverage@, h) > count_in(old(self).coverage@, h),
            lv(final(self).ref_lengths@) == record_length(lv(old(self).ref_lengths@), ref_entry@),
    {
        let ghost alv = avs(al@);
        let ghost rv = self.ranges_view();
        let ghost e = ref_entry@;
        let ghost cov0 = self.coverage@;
        let chrom = chrom_part(ref_entry.seq.as_str());
        let mut ref_offset: u64 = 0;
        let mut i: usize = 0;
        proof {
            lemma_indices_of_genome(alv, seq![]);
        }
        while i < ref_entry.alignment.len()
            invariant
                i <= ref_entry.alignment.len(),
                alv == avs(al@),
                rv == self.ranges_view(),
                e == ref_entry@,
                chrom@ == chrom_of(e.seq),
                ref_offset as int == aligned_before(e.alignment, i as int),
                ref_offset <= i,
                self.wf(),
                is_grouping(alv, groups@),
                self.ranges == old(self).ranges,
                self.ref_genome == old(self).ref_genome,
                self.ref_lengths == old(self).ref_lengths,
                forall|h: Seq<char>| #[trigger] count_in(cov0, h) + e.alignment.len() <= u64::MAX,
                forall|h: Seq<char>| #[trigger] count_in(self.coverage@, h) == count_in(cov0, h) + entry_gain(rv, e, alv, h, i as int),
                forall|h: Seq<char>| #[trigger] has_key(self.coverage@, h) <==> has_key(cov0, h) || count_in(self.coverage@, h) > count_in(cov0, h),
            decreases ref_entry.alignment.len() - i,
        {
            let base = ref_entry.alignment[i];
            let ghost col_ok = column_counts(rv, e, i as int);
            let mut counts = false;
            if aligned_base(base) {
                let in_reg = match &self.ranges {
                    None => true,
                    Some(set) => match ref_position(ref_entry, ref_offset) {
                        Some(p) => range_contains_pos(set, chrom.as_str(), p),
                        None => false,
                    },
                };
                counts = in_reg;
                ref_offset = ref_offset + 1;
            }
            assert(counts == col_ok);
            if counts {
                let ghost cov1 = self.coverage@;
                let mut j: usize = 0;
                while j < groups.len()
                    invariant
                        j <= groups.len(),
                        i < ref_entry.alignment.len(),
                        e == ref_entry@,
                        rv == self.ranges_view(),
                        keys_unique(self.ref_lengths@),
                        self.ranges == old(self).ranges,
                        self.ref_genome == old(self).ref_genome,
                        self.ref_lengths == old(self).ref_lengths,
                        alv == avs(al@),
                        is_grouping(alv, groups@),
                        keys_unique(self.coverage@),
                        forall|h: Seq<char>| #[trigger] count_in(cov0, h) + e.alignment.len() <= u64::MAX,
                        forall|h: Seq<char>| #[trigger] count_in(cov1, h) == count_in(cov0, h) + entry_gain(rv, e, alv, h, i as int),
                        forall|h: Seq<char>| #[trigger] has_key(cov1, h) <==> has_key(cov0, h) || count_in(cov1, h) > count_in(cov0, h),
                        forall|h: Seq<char>| #[trigger] count_in(self.coverage@, h) == count_in(cov1, h) + (if has_group(groups@.take(j as int), h) && genome_aligned_at(alv, h, i as int) { 1int } else { 0int }),
                        forall|h: Seq<char>| #[trigger] has_key(self.coverage@, h) <==> has_key(cov1, h) || count_in(self.coverage@, h) > count_in(cov1, h),
                    decreases groups.len() - j,
                {
                    let g = &groups[j];
                    let ghost gv = g.genome@;
                    proof {
                        lemma_indices_of_genome(alv, gv);
                        assert(g.members@.map_values(|x: usize| x as int) == indices_of_genome(alv, gv));
                        assert forall|t: int| 0 <= t < g.members@.len() implies #[trigger] g.members@[t] < al@.len() by {
                            assert(g.members@.map_values(|x: usize| x as int)[t] == g.members@[t] as int);
                        }
                    }
                    let found = group_aligned_at(al, &g.members, i);
                    proof {
                        let idx = indices_of_genome(alv, gv);
                        assert(found == genome_aligned_at(alv, gv, i as int)) by {
                            if found {
                                let t = choose|t: int| 0 <= t < g.members@.len() && is_aligned_base(base_at(al@[#[trigger] g.members@[t] as int].alignment@, i as int));
                                assert(g.members@.map_values(|x: usize| x as int)[t] == g.members@[t] as int);
                                let k = g.members@[t] as int;
                                assert(alv[k] == al@[k]@);
                                assert(genome_of(alv[k].seq) == gv);
                            }
                            if genome_aligned_at(alv, gv, i as int) {
                                let k = choose|k: int| 0 <= k < alv.len() && genome_of(#[trigger] alv[k].seq) == gv && is_aligned_base(base_at(alv[k].alignment, i as int));
                                let t = choose|t: int| 0 <= t < idx.len() && idx[t] == k;
                                assert(g.members@.map_values(|x: usize| x as int)[t] == g.members@[t] as int);
                                assert(alv[k] == al@[k]@);
                                assert(is_aligned_base(base_at(al@[g.members@[t] as int].alignment@, i as int)));
                            }
                        }
                        assert forall|h: Seq<char>| has_group(#[trigger] groups@.take(j + 1), h) <==> has_group(groups@.take(j as int), h) || h == gv by {
                            if has_group(groups@.take(j + 1), h) {
                                let t = choose|t: int| 0 <= t < groups@.take(j + 1).len() && #[trigger] groups@.take(j + 1)[t].genome@ == h;
                                if t < j {
                                    assert(groups@.take(j as int)[t] == groups@[t]);
                                }
                            }
                            if has_group(groups@.take(j as int), h) {
                                let t = choose|t: int| 0 <= t < groups@.take(j as int).len() && #[trigger] groups@.take(j as int)[t].genome@ == h;
                                assert(groups@.take(j + 1)[t] == groups@[t]);
                            }
                            if h == gv {
                                assert(groups@.take(j + 1)[j as int] == groups@[j as int]);
                            }
                        }
                        assert(!has_group(groups@.take(j as int), gv)) by {
                            if has_group(groups@.take(j as int), gv) {
                                let t = choose|t: int| 0 <= t < groups@.take(j as int).len() && #[trigger] groups@.take(j as int)[t].genome@ == gv;
                                assert(groups@.take(j as int)[t] == groups@[t]);
                            }
                        }
                        lemma_entry_gain_le(rv, e, alv, gv, i as int);
                    }
                    if found {
                        bump(&mut self.coverage, &g.genome);
                    }
                    j = j + 1;
                }
                proof {
                    assert(groups@.take(j as int) =~= groups@);
                    assert forall|h: Seq<char>| genome_aligned_at(alv, h, i as int) implies #[trigger] has_group(groups@, h) by {
                        let k = choose|k: int| 0 <= k < alv.len() && genome_of(#[trigger] alv[k].seq) == h && is_aligned_base(base_at(alv[k].alignment, i as int));
                        assert(covers(alv, groups@));
                    }
                }
            }
            i = i + 1;
            assert forall|h: Seq<char>| #[trigger] count_in(self.coverage@, h) == count_in(cov0, h) + entry_gain(rv, e, alv, h, i as int) by {
                if counts {
                    if genome_aligned_at(alv, h, i - 1) {
                        assert(has_group(groups@, h));
                    }
                }
            }
            assert forall|h: Seq<char>| #[trigger] has_key(self.coverage@, h) <==> has_key(cov0, h) || count_in(self.coverage@, h) > count_in(cov0, h) by {
                lemma_entry_gain_le(rv, e, alv, h, i - 1);
                lemma_entry_gain_le(rv, e, alv, h, i as int);
            }
        }
        let ghost lens0 = self.ref_lengths@;
        let mut k: usize = 0;
        while k < self.ref_lengths.len() && !text_equal(self.ref_lengths[k].0.as_str(), ref_entry.seq.as_str())
            invariant
                k <= self.ref_lengths.len(),
                self.ref_lengths@ == lens0,
                forall|j: int| 0 <= j < k ==> (#[trigger] lens0[j]).0@ != ref_entry.seq@,
            decreases self.ref_lengths.len() - k,
        {
            k = k + 1;
        }
        proof {
            lemma_has_key_lv(lens0, ref_entry.seq@);
        }
        if k == self.ref_lengths.len() {
            assert(!has_key(lens0, ref_entry.seq@));
            self.ref_lengths.push((ref_entry.seq.clone(), ref_entry.sequence_size));
            assert(lv(self.ref_lengths@) =~= lv(lens0).push((ref_entry.seq@, ref_entry.sequence_size)));
            proof {
                assert forall|a: int, b: int| 0 <= a < b < self.ref_lengths@.len() implies (#[trigger] self.ref_lengths@[a]).0@ != (#[trigger] self.ref_lengths@[b]).0@ by {
                    assert(self.ref_lengths@[a] == lens0[a]);
                    if b < lens0.len() {
                        assert(self.ref_lengths@[b] == lens0[b]);
                    }
                }
            }
        } else {
            assert(lens0[k as int].0@ == ref_entry.seq@);
        }
    }
}

pub open spec fn lv(v: Seq<(String, u64)>) -> Seq<(Seq<char>, u64)> {
    v.map_values(|p: (String, u64)| (p.0@, p.1))
}

/// Records a reference sequence's length the first time it is seen.
pub open spec fn record_length(v: Seq<(Seq<char>, u64)>, e: AlignedView) -> Seq<(Seq<char>, u64)> {
    if exists|i: int| 0 <= i < v.len() && (#[trigger] v[i]).0 == e.seq {
        v
    } else {
        v.push((e.seq, e.sequence_size))
    }
}

pub open spec fn record_lengths(v: Seq<(Seq<char>, u64)>, refs: Seq<AlignedView>) -> Seq<(Seq<char>, u64)>
    decreases refs.len(),
{
    if refs.len() == 0 {
        v
    } else {
        record_length(record_lengths(v, refs.drop_last()), refs.last())
    }
}

proof fn lemma_has_key_lv(v: Seq<(String, u64)>, g: Seq<char>)
    ensures
        has_key(v, g) <==> exists|i: int| 0 <= i < lv(v).len() && (#[trigger] lv(v)[i]).0 == g,
{
    if has_key(v, g) {
        let i = choose|i: int| 0 <= i < v.len() && (#[trigger] v[i]).0@ == g;
        assert(lv(v)[i].0 == g);
    }
    if exists|i: int| 0 <= i < lv(v).len() && (#[trigger] lv(v)[i]).0 == g {
        let i = choose|i: int| 0 <= i < lv(v).len() && (#[trigger] lv(v)[i]).0 == g;
        assert(v[i].0@ == g);
    }
}

pub proof fn lemma_entries_of_genome(al: Seq<AlignedView>, g: Seq<char>)
    ensures
        entries_of_genome(al, g) == indices_of_genome(al, g).map_values(|k: int| al[k]),
        total_width(entries_of_genome(al, g)) <= total_width(al),
    decreases al.len(),
{
    if al.len() > 0 {
        let t = al.drop_last();
        lemma_entries_of_genome(t, g);
        lemma_indices_of_genome(t, g);
        let idx = indices_of_genome(t, g);
        assert(idx.map_values(|k: int| t[k]) =~= idx.map_values(|k: int| al[k])) by {
            assert forall|j: int| 0 <= j < idx.len() implies idx.map_values(|k: int| t[k])[j] == idx.map_values(|k: int| al[k])[j] && #[trigger] idx[j] == idx[j] by {
                assert(t[idx[j]] == al[idx[j]]);
            }
        }
        if genome_of(al.last().seq) == g {
            assert(indices_of_genome(al, g).map_values(|k: int| al[k]) =~= idx.map_values(|k: int| al[k]).push(al.last()));
            assert(entries_of_genome(al, g).drop_last() =~= entries_of_genome(t, g));
        } else {
            assert(indices_of_genome(al, g).map_values(|k: int| al[k]) =~= idx.map_values(|k: int| al[k]));
        }
    }
}

proof fn lemma_block_gain_le(ranges: Option<Seq<RangeView>>, refs: Seq<AlignedView>, al: Seq<AlignedView>, g: Seq<char>)
    ensures
        0 <= block_gain(ranges, refs, al, g) <= total_width(refs),
    decreases refs.len(),
{
    if refs.len() > 0 {
        lemma_block_gain_le(ranges, refs.drop_last(), al, g);
        lemma_entry_gain_le(ranges, refs.last(), al, g, refs.last().alignment.len() as int);
    }
}

/// One line of the coverage report.
pub struct CoverageRow {
    pub ref_genome: String,
    pub genome: String,
    /// Length of the reference counted over: the recorded sequence lengths,
    /// or the widths of the regions.
    pub total: u128,
    /// Reference bases covered by the genome.
    pub coverage: u64,
}

pub open spec fn lengths_sum(v: Seq<(Seq<char>, u64)>) -> int
    decreases v.len(),
{
    if v.len() == 0 {
        0
    } else {
        lengths_sum(v.drop_last()) + v.last().1
    }
}

/// The width of a region, none where it ends before it starts.
pub open spec fn width(r: RangeView) -> int {
    if r.end >= r.start {
        r.end - r.start
    } else {
        0
    }
}

pub open spec fn widths_sum(s: Seq<RangeView>) -> int
    decreases s.len(),
{
    if s.len() == 0 {
        0
    } else {
        widths_sum(s.drop_last()) + width(s.last())
    }
}

impl MAFCoverage {
    /// The reference length to report against.
    pub open spec fn total_spec(&self) -> int {
        match self.ranges {
            None => lengths_sum(lv(self.ref_lengths@)),
            Some(set) => widths_sum(set.items()),
        }
    }

    /// Adds a block: each entry of the reference genome is walked column by
    /// column, and every genome with an aligned base in a counted column
    /// gains one, however many entries it has there.
    pub fn add_block(&mut self, block: MAFBlock)
        requires
            old(self).wf(),
            forall|h: Seq<char>| #[trigger] count_in(old(self).coverage@, h) + total_width(aligned_of(block@.entries)) <= u64::MAX,
        ensures
            final(self).wf(),
            final(self).ranges == old(self).ranges,
            final(self).ref_genome == old(self).ref_genome,
            forall|h: Seq<char>| #[trigger] count_in(final(self).coverage@, h) == count_in(old(self).coverage@, h) + block_gain(
                old(self).ranges_view(),
                entries_of_genome(aligned_of(block@.entries), old(self).ref_genome@),
                aligned_of(block@.entries),
                h,
            ),
            forall|h: Seq<char>| #[trigger] has_key(final(self).coverage@, h) <==> has_key(old(self).coverage@, h) || count_in(final(self).coverage@, h) > count_in(old(self).coverage@, h),
            lv(final(self).ref_lengths@) == record_lengths(lv(old(self).ref_lengths@), entries_of_genome(aligned_of(block@.entries), old(self).ref_genome@)),
    {
        let al = block.aligned_entries();
        let groups = crate::model::group_by_genome(&al);
        let ghost alv = avs(al@);
        let ghost rg = self.ref_genome@;
        let ghost refs = entries_of_genome(alv, rg);
        let ghost rv = self.ranges_view();
        assert(alv == aligned_of(block@.entries));
        proof {
            lemma_entries_of_genome(alv, rg);
            lemma_indices_of_genome(alv, rg);
        }
        let mut j: usize = 0;
        while j < groups.len() && !text_equal(groups[j].genome.as_str(), self.ref_genome.as_str())
            invariant
                j <= groups.len(),
                forall|t: int| 0 <= t < j ==> (#[trigger] groups@[t]).genome@ != self.ref_genome@,
            decreases groups.len() - j,
        {
            j = j + 1;
        }
        if j == groups.len() {
            proof {
                assert(indices_of_genome(alv, rg) =~= Seq::<int>::empty()) by {
                    if indices_of_genome(alv, rg).len() > 0 {
                        let k = indices_of_genome(alv, rg)[0];
                        assert(covers(alv, groups@));
                        assert(has_group(groups@, genome_of(alv[k].seq)));
                        let t = choose|t: int| 0 <= t < groups@.len() && #[trigger] groups@[t].genome@ == genome_of(alv[k].seq);
                    }
                }
                assert(refs =~= Seq::<AlignedView>::empty());
            }
            return;
        }
        let members = &groups[j].members;
        assert(members@.map_values(|x: usize| x as int) == indices_of_genome(alv, rg));
        let ghost cov0 = self.coverage@;
        let ghost lens0 = lv(self.ref_lengths@);
        let mut t: usize = 0;
        while t < members.len()
            invariant
                t <= members.len(),
                alv == avs(al@),
                alv == aligned_of(block@.entries),
                rv == self.ranges_view(),
                rg == self.ref_genome@,
                is_grouping(alv, groups@),
                members@.map_values(|x: usize| x as int) == indices_of_genome(alv, rg),
                refs == indices_of_genome(alv, rg).map_values(|k: int| alv[k]),
                total_width(refs) <= total_width(alv),
                self.wf(),
                self.ranges == old(self).ranges,
                self.ref_genome == old(self).ref_genome,
                forall|h: Seq<char>| #[trigger] count_in(cov0, h) + total_width(alv) <= u64::MAX,
                forall|h: Seq<char>| #[trigger] count_in(self.coverage@, h) == count_in(cov0, h) + block_gain(rv, refs.take(t as int), alv, h),
                forall|h: Seq<char>| #[trigger] has_key(self.coverage@, h) <==> has_key(cov0, h) || count_in(self.coverage@, h) > count_in(cov0, h),
                lv(self.ref_lengths@) == record_lengths(lens0, refs.take(t as int)),
            decreases members.len() - t,
        {
            let ghost cov1 = self.coverage@;
            proof {
                assert(members@.map_values(|x: usize| x as int)[t as int] == members@[t as int] as int);
                lemma_indices_of_genome(alv, rg);
                assert(refs[t as int] == alv[members@[t as int] as int]);
                assert(refs.take(t + 1).drop_last() =~= refs.take(t as int));
                assert(refs.take(t + 1).last() == refs[t as int]);
                assert forall|h: Seq<char>| #[trigger] count_in(cov1, h) + al@[members@[t as int] as int].alignment@.len() <= u64::MAX by {
                    lemma_block_gain_le(rv, refs.take(t as int), alv, h);
                    lemma_total_width_prefix(refs, t as int);
                    assert(alv[members@[t as int] as int] == al@[members@[t as int] as int]@);
                }
            }
            let m = members[t];
            self.add_block_with_ref_entry(&al[m], &al, &groups);
            proof {
                assert(alv[m as int] == al@[m as int]@);
                assert forall|h: Seq<char>| #[trigger] has_key(self.coverage@, h) <==> has_key(cov0, h) || count_in(self.coverage@, h) > count_in(cov0, h) by {
                    lemma_block_gain_le(rv, refs.take(t as int), alv, h);
                    lemma_entry_gain_le(rv, alv[m as int], alv, h, alv[m as int].alignment.len() as int);
                }
            }
            t = t + 1;
        }
        proof {
            assert(refs.len() == members@.len());
            assert(refs.take(t as int) =~= refs);
        }
    }

    /// One row per genome with coverage: the reference genome, the genome,
    /// the total reference length and the number of covered bases.
    pub fn report(&self) -> (r: Vec<CoverageRow>)
        ensures
            r@.len() == self.coverage@.len(),
            forall|i: int| 0 <= i < r@.len() ==> {
                &&& (#[trigger] r@[i]).ref_genome@ == self.ref_genome@
                &&& r@[i].genome@ == self.coverage@[i].0@
                &&& r@[i].coverage == self.coverage@[i].1
                &&& r@[i].total == self.total_spec()
            },
    {
        let total = self.total();
        let mut rows: Vec<CoverageRow> = Vec::new();
        let mut i: usize = 0;
        while i < self.coverage.len()
            invariant
                i <= self.coverage.len(),
                total == self.total_spec(),
                rows@.len() == i,
                forall|j: int| 0 <= j < i ==> {
                    &&& (#[trigger] rows@[j]).ref_genome@ == self.ref_genome@
                    &&& rows@[j].genome@ == self.coverage@[j].0@
                    &&& rows@[j].coverage == self.coverage@[j].1
                    &&& rows@[j].total == total
                },
            decreases self.coverage.len() - i,
        {
            rows.push(CoverageRow {
                ref_genome: self.ref_genome.clone(),
                genome: self.coverage[i].0.clone(),
                total,
                coverage: self.coverage[i].1,
            });
            i = i + 1;
        }
        rows
    }

    /// The reference length to report against: the sum of the recorded
    /// reference sequence lengths, or of the region widths where there are
    /// regions.
    pub fn total(&self) -> (r: u128)
        ensures
            r == self.total_spec(),
    {
        match &self.ranges {
            None => {
                let mut sum: u128 = 0;
                let mut i: usize = 0;
                while i < self.ref_lengths.len()
                    invariant
                        i <= self.ref_lengths.len(),
                        sum == lengths_sum(lv(self.ref_lengths@).take(i as int)),
                        sum <= i * 0x1_0000_0000_0000_0000,
                    decreases self.ref_lengths.len() - i,
                {
                    assert(lv(self.ref_lengths@).take(i + 1).drop_last() =~= lv(self.ref_lengths@).take(i as int));
                    sum = sum + self.ref_lengths[i].1 as u128;
                    i = i + 1;
                }
                assert(lv(self.ref_lengths@).take(i as int) =~= lv(self.ref_lengths@));
                sum
            },
            Some(set) => {
                let mut sum: u128 = 0;
                let mut i: usize = 0;
                while i < set.ranges.len()
                    invariant
                        i <= set.ranges.len(),
                        sum == widths_sum(set.items().take(i as int)),
                        sum <= i * 0x1_0000_0000_0000_0000,
                    decreases set.ranges.len() - i,
                {
                    assert(set.items().take(i + 1).drop_last() =~= set.items().take(i as int));
                    let r = &set.ranges[i];
                    if r.end >= r.start {
                        sum = sum + (r.end - r.start) as u128;
                    }
                    i = i + 1;
                }
                assert(set.items().take(i as int) =~= set.items());
                sum
            },
        }
    }
}

proof fn lemma_total_width_prefix(s: Seq<AlignedView>, t: int)
    requires
        0 <= t < s.len(),
    ensures
        total_width(s.take(t)) + s[t].alignment.len() <= total_width(s),
    decreases s.len(),
{
    if t == s.len() - 1 {
        assert(s.drop_last() =~= s.take(t));
    } else {
        assert(s.drop_last().take(t) =~= s.take(t));
        assert(s.drop_last()[t] == s[t]);
        lemma_total_width_prefix(s.drop_last(), t);
    }
}

/// What genome `h` gains from the blocks among `items`.
pub open spec fn stream_gain(items: Seq<ItemView>, rv: Option<Seq<RangeView>>, rg: Seq<char>, h: Seq<char>) -> int
    decreases items.len(),
{
    if items.len() == 0 {
        0
    } else {
        stream_gain(items.drop_last(), rv, rg, h) + match items.last() {
            ItemView::Comment(_) => 0,
            ItemView::Block(b) => block_gain(
                rv,
                entries_of_genome(aligned_of(b.entries), rg),
                aligned_of(b.entries),
                h,
            ),
        }
    }
}

/// The reference sequences and their lengths, in order of first appearance.
pub open spec fn stream_lengths(items: Seq<ItemView>, rg: Seq<char>) -> Seq<(Seq<char>, u64)>
    decreases items.len(),
{
    if items.len() == 0 {
        seq![]
    } else {
        let rest = stream_lengths(items.drop_last(), rg);
        match items.last() {
            ItemView::Comment(_) => rest,
            ItemView::Block(b) => record_lengths(rest, entries_of_genome(aligned_of(b.entries), rg)),
        }
    }
}

proof fn lemma_stream_gain_nonneg(items: Seq<ItemView>, rv: Option<Seq<RangeView>>, rg: Seq<char>, h: Seq<char>)
    ensures
        stream_gain(items, rv, rg, h) >= 0,
    decreases items.len(),
{
    if items.len() > 0 {
        lemma_stream_gain_nonneg(items.drop_last(), rv, rg, h);
        if let ItemView::Block(b) = items.last() {
            lemma_block_gain_le(rv, entries_of_genome(aligned_of(b.entries), rg), aligned_of(b.entries), h);
        }
    }
}

/// Total alignment width of the blocks among `items`: no genome can gain
/// more than this.
pub open spec fn stream_width(items: Seq<ItemView>) -> int
    decreases items.len(),
{
    if items.len() == 0 {
        0
    } else {
        stream_width(items.drop_last()) + match items.last() {
            ItemView::Comment(_) => 0,
            ItemView::Block(b) => total_width(aligned_of(b.entries)),
        }
    }
}

proof fn lemma_total_width_nonneg(al: Seq<AlignedView>)
    ensures
        total_width(al) >= 0,
    decreases al.len(),
{
    if al.len() > 0 {
        lemma_total_width_nonneg(al.drop_last());
    }
}

proof fn lemma_stream_width_grows(a: Seq<ItemView>, b: Seq<ItemView>)
    ensures
        stream_width(a + b) >= stream_width(a),
    decreases b.len(),
{
    if b.len() == 0 {
        assert(a + b =~= a);
    } else {
        assert((a + b).drop_last() =~= a + b.drop_last());
        lemma_stream_width_grows(a, b.drop_last());
        if let ItemView::Block(bb) = b.last() {
            lemma_total_width_nonneg(aligned_of(bb.entries));
        }
    }
}

#[derive(Debug)]
pub enum CoverageError {
    Parse(MAFParseError),
    /// A genome's count would pass the largest 64-bit number.
    CountOverflow,
}

pub open spec fn region_items(bed: Option<RangeSet>) -> Option<Seq<RangeView>> {
    match bed {
        Some(s) => Some(s.items()),
        None => None,
    }
}

/// The greatest count, 0 where there is none.
fn max_count(counts: &Vec<(String, u64)>) -> (r: u64)
    ensures
        forall|h: Seq<char>| #[trigger] count_in(counts@, h) <= r,
        r == 0 || exists|i: int| 0 <= i < counts@.len() && (#[trigger] counts@[i]).1 == r,
{
    let mut m: u64 = 0;
    let mut i: usize = 0;
    while i < counts.len()
        invariant
            i <= counts.len(),
            forall|h: Seq<char>| #[trigger] count_in(counts@.take(i as int), h) <= m,
            m == 0 || exists|j: int| 0 <= j < i && (#[trigger] counts@[j]).1 == m,
        decreases counts.len() - i,
    {
        let ghost m0 = m;
        if counts[i].1 > m {
            m = counts[i].1;
            assert(counts@[i as int].1 == m);
        }
        i = i + 1;
        assert forall|h: Seq<char>| #[trigger] count_in(counts@.take(i as int), h) <= m by {
            assert(counts@.take(i as int).drop_last() =~= counts@.take(i - 1));
            assert(count_in(counts@.take(i - 1), h) <= m0);
        }
    }
    assert(counts@.take(i as int) =~= counts@);
    m
}

/// Total alignment width of the block's aligned entries.
fn block_width(block: &MAFBlock) -> (r: u128)
    ensures
        r == total_width(aligned_of(block@.entries)),
{
    let al = block.aligned_entries();
    let ghost alv = avs(al@);
    let mut w: u128 = 0;
    let mut i: usize = 0;
    while i < al.len()
        invariant
            i <= al.len(),
            alv == avs(al@),
            w == total_width(alv.take(i as int)),
            w <= i * 0x1_0000_0000_0000_0000,
        decreases al.len() - i,
    {
        assert(alv.take(i + 1).drop_last() =~= alv.take(i as int));
        assert(alv[i as int] == al@[i as int]@);
        w = w + al[i].alignment.len() as u128;
        i = i + 1;
    }
    assert(alv.take(i as int) =~= alv);
    w
}

/// The report rows for the items: one per genome with coverage, each once,
/// with its count over the blocks and the total reference length.
pub open spec fn rows_describe(rows: Seq<CoverageRow>, items: Seq<ItemView>, bed: Option<RangeSet>, rg: Seq<char>) -> bool {
    let rv = region_items(bed);
    &&& forall|j: int| 0 <= j < rows.len() ==> {
        &&& (#[trigger] rows[j]).ref_genome@ == rg
        &&& rows[j].coverage == stream_gain(items, rv, rg, rows[j].genome@)
        &&& rows[j].coverage > 0
        &&& rows[j].total == match bed {
            Some(s) => widths_sum(s.items()),
            None => lengths_sum(stream_lengths(items, rg)),
        }
    }
    &&& forall|j: int, t: int| 0 <= j < t < rows.len() ==> #[trigger] rows[j].genome@ != #[trigger] rows[t].genome@
    &&& forall|h: Seq<char>| stream_gain(items, rv, rg, h) > 0 ==> exists|j: int| 0 <= j < rows.len() && (#[trigger] rows[j]).genome@ == h
}

/// Counts, over all blocks, each genome's coverage of the reference genome's
/// aligned bases (inside the regions, where there are regions), and reports
/// one row per genome with coverage. Stops at the first item that cannot be
/// read.
pub fn coverage(input: &mut LinesRef, ref_genome: &str, bed: Option<RangeSet>) -> (r: Result<Vec<CoverageRow>, CoverageError>)
    requires
        old(input).wf(),
        bed is Some ==> bed->0.wf(),
    ensures
        items_from(old(input).text(), old(input).pos as int) is Err ==> r is Err,
        items_from(old(input).text(), old(input).pos as int) is Ok && stream_width(
            items_from(old(input).text(), old(input).pos as int)->Ok_0,
        ) <= u64::MAX ==> r is Ok,
        r is Ok ==> items_from(old(input).text(), old(input).pos as int) is Ok && rows_describe(
            r->Ok_0@,
            items_from(old(input).text(), old(input).pos as int)->Ok_0,
            bed,
            ref_genome@,
        ),
{
    let ghost ls = input.text();
    let ghost start = input.pos as int;
    let ghost rv = region_items(bed);
    let ghost bed0 = bed;
    let ghost mut done: Seq<ItemView> = seq![];
    let mut acc = MAFCoverage::new(ref_genome, bed);
    let ghost rg = acc.ref_genome@;
    assert(prepend(done, items_from(ls, start)) == items_from(ls, start)) by {
        match items_from(ls, start) {
            Ok(x) => { assert(done + x =~= x); },
            Err(k) => {},
        }
    }
    assert(lv(acc.ref_lengths@) =~= seq![]);
    loop
        invariant
            input.wf(),
            input.text() == ls,
            ls == old(input).text(),
            start == old(input).pos,
            ls.len() == input.lines.len(),
            prepend(done, items_from(ls, input.pos as int)) == items_from(ls, start),
            acc.wf(),
            acc.ranges == bed0,
            bed0 == bed,
            rv == region_items(bed),
            rv == acc.ranges_view(),
            rg == ref_genome@,
            acc.ref_genome@ == rg,
            forall|h: Seq<char>| #[trigger] count_in(acc.coverage@, h) == stream_gain(done, rv, rg, h),
            forall|h: Seq<char>| #[trigger] has_key(acc.coverage@, h) <==> count_in(acc.coverage@, h) > 0,
            lv(acc.ref_lengths@) == stream_lengths(done, rg),
            forall|h: Seq<char>| #[trigger] count_in(acc.coverage@, h) <= stream_width(done),
        decreases input.lines.len() - input.pos,
    {
        let ghost i = input.pos as int;
        let ghost st = item_step(ls, i);
        let item = read_item(input);
        match item {
            Err(e) => {
                if let MAFParseError::EOF = e {
                    proof {
                        assert(st is End);
                        assert(items_from(ls, i) == Ok::<Seq<ItemView>, FailKind>(seq![]));
                        assert(done + seq![] =~= done);
                        assert(items_from(ls, start) == Ok::<Seq<ItemView>, FailKind>(done));
                    }
                    let rows = acc.report();
                    proof {
                        assert forall|j: int| 0 <= j < rows@.len() implies rows@[j].coverage == stream_gain(done, rv, rg, rows@[j].genome@) && rows@[j].coverage > 0 by {
                            lemma_count_at(acc.coverage@, j);
                            assert(has_key(acc.coverage@, acc.coverage@[j].0@));
                        }
                        assert forall|h: Seq<char>| stream_gain(done, rv, rg, h) > 0 implies exists|j: int| 0 <= j < rows@.len() && (#[trigger] rows@[j]).genome@ == h by {
                            assert(has_key(acc.coverage@, h));
                            let j = choose|j: int| 0 <= j < acc.coverage@.len() && (#[trigger] acc.coverage@[j]).0@ == h;
                            assert(rows@[j].genome@ == h);
                        }
                        assert forall|j: int| 0 <= j < rows@.len() implies (#[trigger] rows@[j]).total == match bed0 {
                            Some(s) => widths_sum(s.items()),
                            None => lengths_sum(stream_lengths(done, rg)),
                        } by {}
                        assert forall|j: int, t: int| 0 <= j < t < rows@.len() implies #[trigger] rows@[j].genome@ != #[trigger] rows@[t].genome@ by {
                            assert(rows@[j].genome@ == acc.coverage@[j].0@);
                            assert(rows@[t].genome@ == acc.coverage@[t].0@);
                        }
                    }
                    proof {
                        let items = items_from(old(input).text(), old(input).pos as int)->Ok_0;
                        assert(items == done);
                        assert(rg == ref_genome@);
                        assert(region_items(bed) == rv);
                        assert(rows_describe(rows@, done, bed0, rg));
                    }
                    return Ok(rows);
                }
                proof {
                    assert(st is Failed);
                    assert(items_from(ls, i) is Err);
                }
                return Err(CoverageError::Parse(e));
            },
            Ok(MAFItem::Comment(c)) => {
                proof {
                    lemma_items_step(ls, i, done, ItemView::Comment(c@));
                    let nd = done.push(ItemView::Comment(c@));
                    assert(nd.drop_last() =~= done);
                    done = nd;
                }
            },
            Ok(MAFItem::Block(b)) => {
                proof {
                    lemma_items_step(ls, i, done, ItemView::Block(b@));
                }
                let ghost nd = done.push(ItemView::Block(b@));
                assert(nd.drop_last() =~= done);
                let m = max_count(&acc.coverage);
                let w = block_width(&b);
                assert(stream_width(nd) == stream_width(done) + w);
                if w > u64::MAX as u128 || m > u64::MAX - (w as u64) {
                    proof {
                        if m > 0 {
                            let j = choose|j: int| 0 <= j < acc.coverage@.len() && (#[trigger] acc.coverage@[j]).1 == m;
                            lemma_count_at(acc.coverage@, j);
                            assert(count_in(acc.coverage@, acc.coverage@[j].0@) <= stream_width(done));
                        }
                        lemma_stream_width_grows(Seq::<ItemView>::empty(), done);
                        assert(Seq::<ItemView>::empty() + done =~= done);
                        assert(m <= stream_width(done));
                        assert(stream_width(nd) > u64::MAX);
                        let next = crate::parser::step_next(ls, i);
                        assert(prepend(done, items_from(ls, i)) == prepend(nd, items_from(ls, next)));
                        if items_from(ls, next) is Ok {
                            let rest = items_from(ls, next)->Ok_0;
                            lemma_stream_width_grows(nd, rest);
                            assert(items_from(ls, start) == Ok::<Seq<ItemView>, FailKind>(nd + rest));
                            assert(stream_width(items_from(ls, start)->Ok_0) > u64::MAX);
                        } else {
                            assert(items_from(ls, start) is Err);
                        }
                    }
                    return Err(CoverageError::CountOverflow);
                }
                let ghost cov0 = acc.coverage@;
                acc.add_block(b);
                proof {
                    let bv = nd.last();
                    assert forall|h: Seq<char>| #[trigger] count_in(acc.coverage@, h) <= stream_width(nd) by {
                        let al = aligned_of(b@.entries);
                        lemma_block_gain_le(rv, entries_of_genome(al, rg), al, h);
                        lemma_entries_of_genome(al, rg);
                        assert(count_in(cov0, h) <= stream_width(done));
                    }
                    assert forall|h: Seq<char>| #[trigger] has_key(acc.coverage@, h) <==> count_in(acc.coverage@, h) > 0 by {
                        lemma_stream_gain_nonneg(done, rv, rg, h);
                        if let ItemView::Block(bb) = bv {
                            lemma_block_gain_le(rv, entries_of_genome(aligned_of(bb.entries), rg), aligned_of(bb.entries), h);
                        }
                    }
                    done = nd;
                }
            },
        }
    }
}

} // verus!
