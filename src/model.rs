//! The alignment data model: items, blocks, entries and their views.

use crate::text::{genome_of, genome_part};
use vstd::prelude::*;

verus! {

/// Indicates one of the two strands.
#[derive(Debug, PartialEq, Eq, Structural, Clone, Copy)]
pub enum Strand {
    Positive,
    Negative,
}

/// What adjoins an aligned region (the `i` line's status characters).
#[derive(Debug, PartialEq, Eq, Structural, Clone, Copy)]
pub enum AlignedContextStatus {
    /// `C`: the sequence before or after is contiguous with this block.
    Contiguous,
    /// `I`: there are bases between this block and the one before or after it.
    Insertion,
    /// `N`: this is the first sequence from this chromosome or scaffold.
    FirstInSequence,
    /// `n`: first sequence from this chromosome or scaffold, bridged by
    /// another alignment from a different one.
    FirstInSequenceBridged,
    /// `M`: there is missing data before or after this block.
    MissingData,
    /// `T`: the sequence in this block has been used before.
    AlreadyUsed,
}

/// Corresponds to the `i` line.
#[derive(Debug, PartialEq, Eq, Structural, Clone, Copy)]
pub struct AlignedContext {
    pub left_status: AlignedContextStatus,
    pub left_count: u64,
    pub right_status: AlignedContextStatus,
    pub right_count: u64,
}

/// What an unaligned region stands for (the `e` line's status character).
#[derive(Debug, PartialEq, Eq, Structural, Clone, Copy)]
pub enum UnalignedContextStatus {
    /// `C`: the sequence before and after is contiguous.
    Deletion,
    /// `I`: there are non-aligning bases in the source between chained blocks.
    Insertion,
    /// `M`: non-aligning bases, mostly `N`s.
    MissingData,
    /// `n`: the next aligning block starts in a new chromosome or scaffold.
    NewSequence,
    /// `T`: the sequence has been used before.
    AlreadyUsed,
}

/// An alignment entry within a block: an `s` line, with its `i` line if any.
#[derive(Debug, PartialEq, Eq, Clone)]
pub struct MAFBlockAlignedEntry {
    /// The bases, gaps (`-`) included.
    pub alignment: Vec<u8>,
    /// The sequence name, "genome.chrom...".
    pub seq: String,
    /// Start of the aligned region within this sequence.
    pub start: u64,
    /// Length of the aligned region, gaps not counted.
    pub aligned_length: u64,
    /// The total length of this sequence.
    pub sequence_size: u64,
    /// Which strand the aligned sequence is on.
    pub strand: Strand,
    /// What lies before and after the alignment within this sequence.
    pub context: Option<AlignedContext>,
    /// Quality scores per base, 0 to 100.
    pub qualities: Option<Vec<u8>>,
}

/// An unaligned region bridged by a chain: an `e` line.
#[derive(Debug, PartialEq, Eq, Clone)]
pub struct MAFBlockUnalignedEntry {
    pub seq: String,
    /// Start of the unaligned region.
    pub start: u64,
    /// Size of the unaligned region.
    pub size: u64,
    /// Strand aligned to by the bridging chain.
    pub strand: Strand,
    /// Size of the entire sequence.
    pub sequence_size: u64,
    pub status: UnalignedContextStatus,
}

#[derive(Debug, PartialEq, Eq, Clone)]
pub enum MAFBlockEntry {
    AlignedEntry(MAFBlockAlignedEntry),
    UnalignedEntry(MAFBlockUnalignedEntry),
}

/// An alignment block: its entries in order, and its metadata pairs in
/// ascending key order with each key once.
#[derive(Debug, PartialEq, Eq, Clone)]
pub struct MAFBlock {
    pub entries: Vec<MAFBlockEntry>,
    pub metadata: Vec<(String, String)>,
}

/// An item of the format: a block or a comment.
#[derive(Debug, PartialEq, Eq, Clone)]
pub enum MAFItem {
    Block(MAFBlock),
    Comment(String),
}

pub struct AlignedView {
    pub alignment: Seq<u8>,
    pub seq: Seq<char>,
    pub start: u64,
    pub aligned_length: u64,
    pub sequence_size: u64,
    pub strand: Strand,
    pub context: Option<AlignedContext>,
    pub qualities: Option<Seq<u8>>,
}

pub struct UnalignedView {
    pub seq: Seq<char>,
    pub start: u64,
    pub size: u64,
    pub strand: Strand,
    pub sequence_size: u64,
    pub status: UnalignedContextStatus,
}

pub enum EntryView {
    Aligned(AlignedView),
    Unaligned(UnalignedView),
}

pub struct BlockView {
    pub entries: Seq<EntryView>,
    pub metadata: Seq<(Seq<char>, Seq<char>)>,
}

impl View for MAFBlockAlignedEntry {
    type V = AlignedView;

    open spec fn view(&self) -> AlignedView {
        AlignedView {
            alignment: self.alignment@,
            seq: self.seq@,
            start: self.start,
            aligned_length: self.aligned_length,
            sequence_size: self.sequence_size,
            strand: self.strand,
            context: self.context,
            qualities: match self.qualities {
                Some(q) => Some(q@),
                None => None,
            },
        }
    }
}

impl View for MAFBlockUnalignedEntry {
    type V = UnalignedView;

    open spec fn view(&self) -> UnalignedView {
        UnalignedView {
            seq: self.seq@,
            start: self.start,
            size: self.size,
            strand: self.strand,
            sequence_size: self.sequence_size,
            status: self.status,
        }
    }
}

impl View for MAFBlockEntry {
    type V = EntryView;

    open spec fn view(&self) -> EntryView {
        match self {
            MAFBlockEntry::AlignedEntry(a) => EntryView::Aligned(a@),
            MAFBlockEntry::UnalignedEntry(u) => EntryView::Unaligned(u@),
        }
    }
}

pub open spec fn pair_view(p: (String, String)) -> (Seq<char>, Seq<char>) {
    (p.0@, p.1@)
}

impl View for MAFBlock {
    type V = BlockView;

    open spec fn view(&self) -> BlockView {
        BlockView {
            entries: self.entries@.map_values(|e: MAFBlockEntry| e@),
            metadata: self.metadata@.map_values(|p: (String, String)| pair_view(p)),
        }
    }
}

/// The aligned entries among `es`, in order.
pub open spec fn aligned_of(es: Seq<EntryView>) -> Seq<AlignedView>
    decreases es.len(),
{
    if es.len() == 0 {
        seq![]
    } else {
        let rest = aligned_of(es.drop_last());
        match es.last() {
            EntryView::Aligned(a) => rest.push(a),
            EntryView::Unaligned(_) => rest,
        }
    }
}

/// Indices of the aligned entries of genome `g` among `al`, in order.
pub open spec fn indices_of_genome(al: Seq<AlignedView>, g: Seq<char>) -> Seq<int>
    decreases al.len(),
{
    if al.len() == 0 {
        seq![]
    } else {
        let rest = indices_of_genome(al.drop_last(), g);
        if genome_of(al.last().seq) == g {
            rest.push(al.len() - 1)
        } else {
            rest
        }
    }
}

/// The genomes of the entries, each once, in order of first appearance.
pub open spec fn first_genomes(al: Seq<AlignedView>) -> Seq<Seq<char>>
    decreases al.len(),
{
    if al.len() == 0 {
        seq![]
    } else {
        let rest = first_genomes(al.drop_last());
        if rest.contains(genome_of(al.last().seq)) {
            rest
        } else {
            rest.push(genome_of(al.last().seq))
        }
    }
}

pub open spec fn genomes_of(gs: Seq<GenomeGroup>) -> Seq<Seq<char>> {
    gs.map_values(|x: GenomeGroup| x.genome@)
}

/// The entries of one genome, by their indices among the aligned entries.
pub struct GenomeGroup {
    pub genome: String,
    pub members: Vec<usize>,
}

/// Groups in order of each genome's first appearance: each genome of `al`
/// once, with the indices of its entries in order.
pub open spec fn is_grouping(al: Seq<AlignedView>, gs: Seq<GenomeGroup>) -> bool {
    &&& forall|i: int, j: int|
        0 <= i < j < gs.len() ==> #[trigger] gs[i].genome@ != #[trigger] gs[j].genome@
    &&& forall|i: int|
        0 <= i < gs.len() ==> (#[trigger] gs[i]).members@.map_values(|k: usize| k as int)
            == indices_of_genome(al, gs[i].genome@)
    &&& forall|i: int|
        0 <= i < gs.len() ==> (#[trigger] gs[i]).members@.len() > 0
    &&& covers(al, gs)
}

/// Some group is that of genome `g`.
pub open spec fn has_group(gs: Seq<GenomeGroup>, g: Seq<char>) -> bool {
    exists|i: int| 0 <= i < gs.len() && #[trigger] gs[i].genome@ == g
}

/// Each entry's genome has a group.
pub open spec fn covers(al: Seq<AlignedView>, gs: Seq<GenomeGroup>) -> bool {
    forall|k: int| 0 <= k < al.len() ==> has_group(gs, genome_of(#[trigger] al[k].seq))
}

pub fn copy_aligned(e: &MAFBlockAlignedEntry) -> (r: MAFBlockAlignedEntry)
    ensures
        r@ == e@,
{
    let qualities = match &e.qualities {
        Some(q) => Some(q.clone()),
        None => None,
    };
    proof {
        if e.qualities is Some {
            let q = e.qualities->0;
            assert(qualities->0@ =~= q@);
        }
    }
    let alignment = e.alignment.clone();
    assert(alignment@ =~= e.alignment@);
    MAFBlockAlignedEntry {
        alignment,
        seq: e.seq.clone(),
        start: e.start,
        aligned_length: e.aligned_length,
        sequence_size: e.sequence_size,
        strand: e.strand,
        context: e.context,
        qualities,
    }
}

pub fn copy_entry(e: &MAFBlockEntry) -> (r: MAFBlockEntry)
    ensures
        r@ == e@,
{
    match e {
        MAFBlockEntry::AlignedEntry(a) => MAFBlockEntry::AlignedEntry(copy_aligned(a)),
        MAFBlockEntry::UnalignedEntry(u) => MAFBlockEntry::UnalignedEntry(
            MAFBlockUnalignedEntry {
                seq: u.seq.clone(),
                start: u.start,
                size: u.size,
                strand: u.strand,
                sequence_size: u.sequence_size,
                status: u.status,
            },
        ),
    }
}

pub fn copy_metadata(m: &Vec<(String, String)>) -> (r: Vec<(String, String)>)
    ensures
        r@.map_values(|p: (String, String)| pair_view(p)) == m@.map_values(
            |p: (String, String)| pair_view(p),
        ),
{
    let mut out: Vec<(String, String)> = Vec::new();
    let mut i: usize = 0;
    while i < m.len()
        invariant
            i <= m.len(),
            out@.map_values(|p: (String, String)| pair_view(p)) == m@.map_values(
                |p: (String, String)| pair_view(p),
            ).take(i as int),
        decreases m.len() - i,
    {
        let k = m[i].0.clone();
        let v = m[i].1.clone();
        let ghost before = out@;
        assert(pair_view((k, v)) == pair_view(m@[i as int]));
        out.push((k, v));
        assert(out@.map_values(|p: (String, String)| pair_view(p)) =~= before.map_values(
            |p: (String, String)| pair_view(p),
        ).push(pair_view(m@[i as int])));
        i = i + 1;
        assert(out@.map_values(|p: (String, String)| pair_view(p)) =~= m@.map_values(
            |p: (String, String)| pair_view(p),
        ).take(i as int));
    }
    assert(m@.map_values(|p: (String, String)| pair_view(p)).take(i as int) =~= m@.map_values(
        |p: (String, String)| pair_view(p),
    ));
    out
}

impl MAFBlock {
    /// The aligned entries, in order.
    pub fn aligned_entries(&self) -> (r: Vec<MAFBlockAlignedEntry>)
        ensures
            r@.map_values(|a: MAFBlockAlignedEntry| a@) == aligned_of(self@.entries),
    {
        let mut out: Vec<MAFBlockAlignedEntry> = Vec::new();
        let mut i: usize = 0;
        while i < self.entries.len()
            invariant
                i <= self.entries.len(),
                out@.map_values(|a: MAFBlockAlignedEntry| a@) == aligned_of(
                    self@.entries.take(i as int),
                ),
            decreases self.entries.len() - i,
        {
            let ghost before = out@;
            assert(self@.entries.take(i + 1).drop_last() =~= self@.entries.take(i as int));
            match &self.entries[i] {
                MAFBlockEntry::AlignedEntry(a) => {
                    out.push(copy_aligned(a));
                    assert(out@.map_values(|a: MAFBlockAlignedEntry| a@) =~= before.map_values(
                        |a: MAFBlockAlignedEntry| a@,
                    ).push(a@));
                },
                MAFBlockEntry::UnalignedEntry(_) => {},
            }
            i = i + 1;
        }
        assert(self@.entries.take(i as int) =~= self@.entries);
        out
    }

    /// The aligned entries grouped by genome (the part of `seq` before the
    /// first `.`), genomes in order of first appearance.
    pub fn entries_as_hash(&self) -> (r: Vec<GenomeGroup>)
        ensures
            is_grouping(aligned_of(self@.entries), r@),
            genomes_of(r@) == first_genomes(aligned_of(self@.entries)),
    {
        let al = self.aligned_entries();
        group_by_genome(&al)
    }
}

/// Groups entries by genome, genomes in order of first appearance.
pub fn group_by_genome(al: &Vec<MAFBlockAlignedEntry>) -> (r: Vec<GenomeGroup>)
    ensures
        is_grouping(al@.map_values(|a: MAFBlockAlignedEntry| a@), r@),
        genomes_of(r@) == first_genomes(al@.map_values(|a: MAFBlockAlignedEntry| a@)),
{
    let ghost alv = al@.map_values(|a: MAFBlockAlignedEntry| a@);
    let mut groups: Vec<GenomeGroup> = Vec::new();
    let mut k: usize = 0;
    while k < al.len()
        invariant
            k <= al.len(),
            alv == al@.map_values(|a: MAFBlockAlignedEntry| a@),
            is_grouping(alv.take(k as int), groups@),
            genomes_of(groups@) == first_genomes(alv.take(k as int)),
        decreases al.len() - k,
    {
        let g = genome_part(al[k].seq.as_str());
        let ghost pre = alv.take(k as int);
        let ghost post = alv.take(k + 1);
        assert(post.drop_last() =~= pre);
        assert(post.last() == alv[k as int]);
        let mut j: usize = 0;
        while j < groups.len() && groups[j].genome != g
            invariant
                j <= groups.len(),
                forall|t: int| 0 <= t < j ==> groups@[t].genome@ != g@,
                is_grouping(pre, groups@),
                genomes_of(groups@) == first_genomes(pre),
            decreases groups.len() - j,
        {
            j = j + 1;
        }
        proof {
            assert forall|i: int| 0 <= i < groups.len() && groups@[i].genome@ != g@ implies
                indices_of_genome(post, groups@[i].genome@) == indices_of_genome(pre, groups@[i].genome@) by {}
        }
        if j < groups.len() {
            let ghost old_groups = groups@;
            let mut grp = groups.remove(j);
            grp.members.push(k);
            groups.insert(j, grp);
            proof {
                assert forall|i: int| 0 <= i < groups.len() implies
                    (#[trigger] groups@[i]).members@.map_values(|x: usize| x as int)
                        == indices_of_genome(post, groups@[i].genome@) by {
                    if i == j {
                        assert(groups@[i].members@.map_values(|x: usize| x as int) =~= old_groups[i].members@.map_values(|x: usize| x as int).push(k as int));
                    } else {
                        assert(groups@[i] == old_groups[i]);
                    }
                }
                assert forall|i: int, t: int| 0 <= i < t < groups.len() implies
                    #[trigger] groups@[i].genome@ != #[trigger] groups@[t].genome@ by {
                    assert(groups@[i].genome == old_groups[i].genome);
                    assert(groups@[t].genome == old_groups[t].genome);
                }
                assert forall|i: int| 0 <= i < groups.len() implies (#[trigger] groups@[i]).members@.len() > 0 by {
                    if i != j {
                        assert(groups@[i] == old_groups[i]);
                    }
                }
                assert forall|x: int| 0 <= x < post.len() implies has_group(groups@, genome_of(#[trigger] post[x].seq)) by {
                    if x < pre.len() {
                        assert(post[x] == pre[x]);
                        assert(has_group(old_groups, genome_of(pre[x].seq)));
                        let i = choose|i: int| 0 <= i < old_groups.len() && #[trigger] old_groups[i].genome@ == genome_of(pre[x].seq);
                        assert(groups@[i].genome == old_groups[i].genome);
                    } else {
                        assert(groups@[j as int].genome == old_groups[j as int].genome);
                    }
                }
                assert(covers(post, groups@));
                assert(is_grouping(post, groups@));
                assert(genomes_of(old_groups)[j as int] == g@);
                assert(first_genomes(pre).contains(g@));
                assert(genomes_of(groups@) =~= genomes_of(old_groups));
            }
        } else {
            let ghost old_groups = groups@;
            let mut members: Vec<usize> = Vec::new();
            members.push(k);
            groups.push(GenomeGroup { genome: g, members });
            proof {
                assert(indices_of_genome(pre, g@) =~= seq![]) by {
                    assert(is_grouping(pre, old_groups));
                    lemma_no_indices(pre, g@, old_groups);
                }
                assert forall|i: int| 0 <= i < groups.len() implies
                    (#[trigger] groups@[i]).members@.map_values(|x: usize| x as int)
                        == indices_of_genome(post, groups@[i].genome@) by {
                    if i == old_groups.len() {
                        assert(groups@[i].members@.map_values(|x: usize| x as int) =~= seq![k as int]);
                        assert(seq![k as int] =~= indices_of_genome(pre, g@).push(k as int));
                    } else {
                        assert(groups@[i] == old_groups[i]);
                    }
                }
                let ghost gs = groups@;
                assert forall|x: int| 0 <= x < post.len() implies has_group(gs, genome_of(#[trigger] post[x].seq)) by {
                    if x < pre.len() {
                        assert(post[x] == pre[x]);
                        assert(covers(pre, old_groups));
                        assert(has_group(old_groups, genome_of(pre[x].seq)));
                        let i = choose|i: int| 0 <= i < old_groups.len() && #[trigger] old_groups[i].genome@ == genome_of(pre[x].seq);
                        assert(gs[i] == old_groups[i]);
                        assert(gs[i].genome@ == genome_of(post[x].seq));
                    } else {
                        let n = old_groups.len() as int;
                        assert(gs[n].genome@ == g@);
                        assert(x == k);
                        assert(post[x] == al@[k as int]@);
                        assert(gs[n].genome@ == genome_of(post[x].seq));
                    }
                }
                assert forall|i: int| 0 <= i < groups.len() implies (#[trigger] groups@[i]).members@.len() > 0 by {
                    if i < old_groups.len() {
                        assert(groups@[i] == old_groups[i]);
                    }
                }
                assert forall|i: int, t: int| 0 <= i < t < groups.len() implies
                    #[trigger] groups@[i].genome@ != #[trigger] groups@[t].genome@ by {
                    assert(groups@[i] == old_groups[i]);
                    if t < old_groups.len() {
                        assert(groups@[t] == old_groups[t]);
                    }
                }
                assert(covers(post, groups@));
                assert(is_grouping(post, groups@));
                assert(!first_genomes(pre).contains(g@)) by {
                    if first_genomes(pre).contains(g@) {
                        let t = choose|t: int| 0 <= t < first_genomes(pre).len() && first_genomes(pre)[t] == g@;
                        assert(genomes_of(old_groups)[t] == old_groups[t].genome@);
                    }
                }
                assert(genomes_of(groups@) =~= genomes_of(old_groups).push(g@));
            }
        }
        k = k + 1;
    }
    assert(alv.take(k as int) =~= alv);
    groups
}

/// A genome that no group names has no entries.
proof fn lemma_no_indices(al: Seq<AlignedView>, g: Seq<char>, gs: Seq<GenomeGroup>)
    requires
        covers(al, gs),
        forall|i: int| 0 <= i < gs.len() ==> gs[i].genome@ != g,
    ensures
        indices_of_genome(al, g) == Seq::<int>::empty(),
    decreases al.len(),
{
    if al.len() > 0 {
        let k = al.len() - 1;
        assert forall|k2: int| 0 <= k2 < al.drop_last().len() implies has_group(gs, genome_of(#[trigger] al.drop_last()[k2].seq)) by {
            assert(al.drop_last()[k2] == al[k2]);
        }
        lemma_no_indices(al.drop_last(), g, gs);
    }
}

} // verus!
