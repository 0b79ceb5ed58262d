//! Merging the duplicate entries of a genome within a block.

use crate::coverage::{avs, base_at, entries_of_genome, lemma_entries_of_genome, lemma_indices_of_genome};
use crate::model::{
    AlignedView, EntryView, GenomeGroup, first_genomes, genomes_of, MAFBlock, MAFBlockAlignedEntry, MAFBlockEntry,
    aligned_of, copy_aligned, copy_entry, copy_metadata, has_group,
    indices_of_genome, is_grouping,
};
use crate::parser::{
    ItemView, LinesRef, MAFParseError, comment_text, ev, item_step, items_from, kind_of,
    lemma_items_step, prepend, read_item, };
use crate::model::BlockView;
use crate::output::block_text;
use crate::text::{push_str, string_of};
use crate::model::MAFItem;
use crate::text::{genome_of, genome_part};
use crate::ranges::text_equal;
use vstd::prelude::*;

verus! {

/// How the merged entry of a duplicated genome gets its base in a column.
#[derive(Debug, PartialEq, Eq, Structural, Clone, Copy)]
pub enum ConsensusMode {
    /// The base is kept if all the genome's entries agree on it, else `N`.
    Unanimity,
    /// The genome's most frequent base; ties are broken by the most frequent
    /// base of the whole column among the tied ones, and are `N` if they remain.
    Consensus,
    /// Every base of a duplicated genome becomes `N`.
    Mask,
}

/// Counts of each base in a column.
#[derive(Debug, PartialEq, Eq, Structural, Clone, Copy)]
pub struct BaseCounts {
    pub a: usize,
    pub c: usize,
    pub g: usize,
    pub t: usize,
}

pub open spec fn count_at(b: BaseCounts, i: int) -> int {
    if i == 0 {
        b.a as int
    } else if i == 1 {
        b.c as int
    } else if i == 2 {
        b.g as int
    } else {
        b.t as int
    }
}

/// The letter of base index `i`, upper case.
pub open spec fn letter(i: int) -> u8 {
    if i == 0 {
        65u8
    } else if i == 1 {
        67u8
    } else if i == 2 {
        71u8
    } else {
        84u8
    }
}

/// The base if exactly one base has a nonzero count, else `N`.
pub open spec fn unanimous_spec(b: BaseCounts) -> u8 {
    if b.a > 0 && b.c == 0 && b.g == 0 && b.t == 0 {
        65u8
    } else if b.a == 0 && b.c > 0 && b.g == 0 && b.t == 0 {
        67u8
    } else if b.a == 0 && b.c == 0 && b.g > 0 && b.t == 0 {
        71u8
    } else if b.a == 0 && b.c == 0 && b.g == 0 && b.t > 0 {
        84u8
    } else {
        78u8
    }
}

/// The greatest count among the bases still possible, 0 where none is.
pub open spec fn max_possible(b: BaseCounts, p: Seq<bool>) -> int {
    let m0 = if p[0] { count_at(b, 0) } else { 0 };
    let m1 = if p[1] && count_at(b, 1) > m0 { count_at(b, 1) } else { m0 };
    let m2 = if p[2] && count_at(b, 2) > m1 { count_at(b, 2) } else { m1 };
    if p[3] && count_at(b, 3) > m2 { count_at(b, 3) } else { m2 }
}

/// The bases still possible that have the greatest count among them.
pub open spec fn narrowed(b: BaseCounts, p: Seq<bool>) -> Seq<bool> {
    Seq::new(4, |i: int| p[i] && count_at(b, i) == max_possible(b, p))
}

/// The one base left possible, or `N` where none or several are.
pub open spec fn sole_base(p: Seq<bool>) -> u8 {
    if p[0] && !p[1] && !p[2] && !p[3] {
        65u8
    } else if !p[0] && p[1] && !p[2] && !p[3] {
        67u8
    } else if !p[0] && !p[1] && p[2] && !p[3] {
        71u8
    } else if !p[0] && !p[1] && !p[2] && p[3] {
        84u8
    } else {
        78u8
    }
}

pub open spec fn consensus_spec(b: BaseCounts, tie: BaseCounts) -> u8 {
    sole_base(narrowed(tie, narrowed(b, seq![true, true, true, true])))
}

pub fn unanimous_base(base_counts: &BaseCounts) -> (r: u8)
    ensures
        r == unanimous_spec(*base_counts),
{
    if base_counts.a > 0 && base_counts.c == 0 && base_counts.g == 0 && base_counts.t == 0 {
        65u8
    } else if base_counts.a == 0 && base_counts.c > 0 && base_counts.g == 0 && base_counts.t == 0 {
        67u8
    } else if base_counts.a == 0 && base_counts.c == 0 && base_counts.g > 0 && base_counts.t == 0 {
        71u8
    } else if base_counts.a == 0 && base_counts.c == 0 && base_counts.g == 0 && base_counts.t > 0 {
        84u8
    } else {
        78u8
    }
}

/// Keeps possible only the possible bases with the greatest count among them.
pub fn max_among_possibilities(base_counts: &BaseCounts, possibilities: &mut [bool; 4])
    ensures
        final(possibilities)@ == narrowed(*base_counts, old(possibilities)@),
{
    let ghost p = possibilities@;
    let ghost m = max_possible(*base_counts, p);
    let mut max_so_far: usize = 0;
    if possibilities[0] {
        max_so_far = base_counts.a;
    }
    if possibilities[1] && max_so_far < base_counts.c {
        possibilities.set(0, false);
        max_so_far = base_counts.c;
    } else if base_counts.c < max_so_far {
        possibilities.set(1, false);
    }
    if possibilities[2] && max_so_far < base_counts.g {
        possibilities.set(0, false);
        possibilities.set(1, false);
        max_so_far = base_counts.g;
    } else if base_counts.g < max_so_far {
        possibilities.set(2, false);
    }
    if possibilities[3] && max_so_far < base_counts.t {
        possibilities.set(0, false);
        possibilities.set(1, false);
        possibilities.set(2, false);
    } else if base_counts.t < max_so_far {
        possibilities.set(3, false);
    }
    assert(possibilities@ =~= narrowed(*base_counts, p));
}

pub fn consensus_base(base_counts: &BaseCounts, tie_breaker: &BaseCounts) -> (r: u8)
    ensures
        r == consensus_spec(*base_counts, *tie_breaker),
{
    let mut possible_bases = [true, true, true, true];
    assert(possible_bases@ =~= seq![true, true, true, true]);
    max_among_possibilities(base_counts, &mut possible_bases);
    max_among_possibilities(tie_breaker, &mut possible_bases);
    let p0 = possible_bases[0];
    let p1 = possible_bases[1];
    let p2 = possible_bases[2];
    let p3 = possible_bases[3];
    if p0 && !p1 && !p2 && !p3 {
        65u8
    } else if !p0 && p1 && !p2 && !p3 {
        67u8
    } else if !p0 && !p1 && p2 && !p3 {
        71u8
    } else if !p0 && !p1 && !p2 && p3 {
        84u8
    } else {
        78u8
    }
}

pub open spec fn lower(b: u8) -> u8 {
    if 65 <= b <= 90 {
        (b + 32) as u8
    } else {
        b
    }
}

/// Number of entries with letter `l` (lower case) in column `i`, either case.
pub open spec fn tally_letter(al: Seq<AlignedView>, i: int, l: u8) -> int
    decreases al.len(),
{
    if al.len() == 0 {
        0
    } else {
        tally_letter(al.drop_last(), i, l) + (if lower(base_at(al.last().alignment, i)) == l {
            1int
        } else {
            0int
        })
    }
}

proof fn lemma_tally_le(al: Seq<AlignedView>, i: int, l: u8)
    ensures
        0 <= tally_letter(al, i, l) <= al.len(),
    decreases al.len(),
{
    if al.len() > 0 {
        lemma_tally_le(al.drop_last(), i, l);
    }
}

/// The base counts of column `i`.
pub open spec fn tally(al: Seq<AlignedView>, i: int) -> BaseCounts {
    BaseCounts {
        a: tally_letter(al, i, 97u8) as usize,
        c: tally_letter(al, i, 99u8) as usize,
        g: tally_letter(al, i, 103u8) as usize,
        t: tally_letter(al, i, 116u8) as usize,
    }
}

fn lower_byte(b: u8) -> (r: u8)
    ensures
        r == lower(b),
{
    if 65 <= b && b <= 90 {
        b + 32
    } else {
        b
    }
}

/// The base counts of column `i` over the entries.
pub fn column_tally(entries: &Vec<MAFBlockAlignedEntry>, i: usize) -> (r: BaseCounts)
    ensures
        r == tally(avs(entries@), i as int),
{
    let ghost al = avs(entries@);
    let mut counts = BaseCounts { a: 0, c: 0, g: 0, t: 0 };
    let mut k: usize = 0;
    while k < entries.len()
        invariant
            k <= entries.len(),
            al == avs(entries@),
            counts.a == tally_letter(al.take(k as int), i as int, 97u8),
            counts.c == tally_letter(al.take(k as int), i as int, 99u8),
            counts.g == tally_letter(al.take(k as int), i as int, 103u8),
            counts.t == tally_letter(al.take(k as int), i as int, 116u8),
        decreases entries.len() - k,
    {
        let ghost t1 = al.take(k + 1);
        assert(t1.drop_last() =~= al.take(k as int));
        assert(t1.last() == entries@[k as int]@);
        proof {
            lemma_tally_le(al.take(k as int), i as int, 97u8);
            lemma_tally_le(al.take(k as int), i as int, 99u8);
            lemma_tally_le(al.take(k as int), i as int, 103u8);
            lemma_tally_le(al.take(k as int), i as int, 116u8);
        }
        let e = &entries[k];
        if i < e.alignment.len() {
            let b = lower_byte(e.alignment[i]);
            if b == 97u8 {
                counts.a = counts.a + 1;
            } else if b == 99u8 {
                counts.c = counts.c + 1;
            } else if b == 103u8 {
                counts.g = counts.g + 1;
            } else if b == 116u8 {
                counts.t = counts.t + 1;
            }
        }
        k = k + 1;
    }
    assert(al.take(k as int) =~= al);
    counts
}

/// The base counts of each column, as many columns as the first entry has.
pub fn get_consensus_info(entries: &Vec<MAFBlockAlignedEntry>) -> (r: Vec<BaseCounts>)
    ensures
        r@.len() == (if entries@.len() == 0 { 0 } else { entries@[0].alignment@.len() }),
        forall|i: int| 0 <= i < r@.len() ==> #[trigger] r@[i] == tally(avs(entries@), i),
{
    let mut counts: Vec<BaseCounts> = Vec::new();
    if entries.len() == 0 {
        return counts;
    }
    let length = entries[0].alignment.len();
    let mut i: usize = 0;
    while i < length
        invariant
            i <= length,
            length == entries@[0].alignment@.len(),
            counts@.len() == i,
            forall|j: int| 0 <= j < i ==> #[trigger] counts@[j] == tally(avs(entries@), j),
        decreases length - i,
    {
        counts.push(column_tally(entries, i));
        i = i + 1;
    }
    counts
}

pub open spec fn resolve(mode: ConsensusMode, species: BaseCounts, block: BaseCounts) -> u8 {
    match mode {
        ConsensusMode::Mask => 78u8,
        ConsensusMode::Unanimity => unanimous_spec(species),
        ConsensusMode::Consensus => consensus_spec(species, block),
    }
}

/// A genome with more than one aligned entry.
pub open spec fn is_dup(al: Seq<AlignedView>, g: Seq<char>) -> bool {
    entries_of_genome(al, g).len() > 1
}

/// The merged entry of duplicated genome `g`: the first of its entries, with
/// each column resolved from the genome's counts and the whole column's.
pub open spec fn merged_entry(al: Seq<AlignedView>, g: Seq<char>, mode: ConsensusMode) -> AlignedView {
    let sp = entries_of_genome(al, g);
    let rep = sp[0];
    AlignedView {
        alignment: Seq::new(
            rep.alignment.len(),
            |i: int| resolve(mode, tally(sp, i), tally(al, i)),
        ),
        ..rep
    }
}

fn resolve_base(mode: ConsensusMode, species: &BaseCounts, block: &BaseCounts) -> (r: u8)
    ensures
        r == resolve(mode, *species, *block),
{
    match mode {
        ConsensusMode::Mask => 78u8,
        ConsensusMode::Unanimity => unanimous_base(species),
        ConsensusMode::Consensus => consensus_base(species, block),
    }
}

/// The merged entry of a genome from its entries (given by their indices).
pub fn merge_dup_entries(al: &Vec<MAFBlockAlignedEntry>, group: &GenomeGroup, mode: ConsensusMode) -> (r: MAFBlockAlignedEntry)
    requires
        group.members@.map_values(|x: usize| x as int) == indices_of_genome(avs(al@), group.genome@),
        group.members@.len() > 0,
    ensures
        r@ == merged_entry(avs(al@), group.genome@, mode),
{
    let ghost alv = avs(al@);
    let ghost g = group.genome@;
    proof {
        lemma_entries_of_genome(alv, g);
        lemma_indices_of_genome(alv, g);
    }
    let mut species: Vec<MAFBlockAlignedEntry> = Vec::new();
    let mut t: usize = 0;
    while t < group.members.len()
        invariant
            t <= group.members.len(),
            alv == avs(al@),
            group.members@.map_values(|x: usize| x as int) == indices_of_genome(alv, g),
            entries_of_genome(alv, g) == indices_of_genome(alv, g).map_values(|k: int| alv[k]),
            forall|u: int| 0 <= u < indices_of_genome(alv, g).len() ==> 0 <= #[trigger] indices_of_genome(alv, g)[u] < alv.len(),
            avs(species@) == entries_of_genome(alv, g).take(t as int),
        decreases group.members.len() - t,
    {
        assert(group.members@.map_values(|x: usize| x as int)[t as int] == group.members@[t as int] as int);
        let m = group.members[t];
        let ghost before = species@;
        species.push(copy_aligned(&al[m]));
        assert(avs(species@) =~= avs(before).push(al@[m as int]@));
        t = t + 1;
        assert(avs(species@) =~= entries_of_genome(alv, g).take(t as int));
    }
    assert(entries_of_genome(alv, g).take(t as int) =~= entries_of_genome(alv, g));
    let mut merged = copy_aligned(&species[0]);
    let ghost rep = species@[0]@;
    let mut i: usize = 0;
    while i < merged.alignment.len()
        invariant
            i <= merged.alignment.len(),
            merged.alignment@.len() == rep.alignment.len(),
            avs(species@) == entries_of_genome(alv, g),
            alv == avs(al@),
            rep == species@[0]@,
            merged@ == (AlignedView { alignment: merged.alignment@, ..rep }),
            forall|j: int| 0 <= j < i ==> merged.alignment@[j] == #[trigger] resolve(mode, tally(avs(species@), j), tally(alv, j)),
        decreases merged.alignment.len() - i,
    {
        let sp = column_tally(&species, i);
        let bl = column_tally(al, i);
        let b = resolve_base(mode, &sp, &bl);
        merged.alignment.set(i, b);
        i = i + 1;
    }
    assert(merged.alignment@ =~= Seq::new(rep.alignment.len(), |i: int| resolve(mode, tally(entries_of_genome(alv, g), i), tally(alv, i))));
    merged
}

/// The duplicated genomes among `gs`, in order.
pub open spec fn dup_list(gs: Seq<Seq<char>>, al: Seq<AlignedView>) -> Seq<Seq<char>>
    decreases gs.len(),
{
    if gs.len() == 0 {
        seq![]
    } else {
        let rest = dup_list(gs.drop_last(), al);
        if is_dup(al, gs.last()) {
            rest.push(gs.last())
        } else {
            rest
        }
    }
}

/// Duplicated genomes: each once, exactly those with several entries.
pub open spec fn dup_genomes(al: Seq<AlignedView>, gs: Seq<Seq<char>>) -> bool {
    &&& forall|i: int, j: int| 0 <= i < j < gs.len() ==> #[trigger] gs[i] != #[trigger] gs[j]
    &&& forall|g: Seq<char>| #[trigger] gs.contains(g) <==> is_dup(al, g)
}

/// The groups of the duplicated genomes.
pub open spec fn is_dup_grouping(al: Seq<AlignedView>, gs: Seq<GenomeGroup>) -> bool {
    &&& dup_genomes(al, genomes_of(gs))
    &&& forall|i: int|
        0 <= i < gs.len() ==> (#[trigger] gs[i]).members@.map_values(|k: usize| k as int)
            == indices_of_genome(al, gs[i].genome@)
}

proof fn lemma_group_dup(al: Seq<AlignedView>, gs: Seq<GenomeGroup>, g: Seq<char>)
    requires
        is_grouping(al, gs),
    ensures
        is_dup(al, g) <==> exists|i: int| 0 <= i < gs.len() && (#[trigger] gs[i]).genome@ == g && gs[i].members@.len() > 1,
{
    lemma_entries_of_genome(al, g);
    lemma_indices_of_genome(al, g);
    if is_dup(al, g) {
        let k = indices_of_genome(al, g)[0];
        assert(crate::model::covers(al, gs));
        assert(has_group(gs, genome_of(al[k].seq)));
        let i = choose|i: int| 0 <= i < gs.len() && #[trigger] gs[i].genome@ == genome_of(al[k].seq);
        assert(gs[i].members@.map_values(|k: usize| k as int).len() == gs[i].members@.len());
    }
    if exists|i: int| 0 <= i < gs.len() && (#[trigger] gs[i]).genome@ == g && gs[i].members@.len() > 1 {
        let i = choose|i: int| 0 <= i < gs.len() && (#[trigger] gs[i]).genome@ == g && gs[i].members@.len() > 1;
        assert(gs[i].members@.map_values(|k: usize| k as int).len() == gs[i].members@.len());
    }
}

/// The groups of the genomes that have more than one aligned entry.
pub fn dup_entries_from_block(block: &MAFBlock) -> (r: Vec<GenomeGroup>)
    ensures
        is_dup_grouping(aligned_of(block@.entries), r@),
        genomes_of(r@) == dup_list(first_genomes(aligned_of(block@.entries)), aligned_of(block@.entries)),
{
    let groups = block.entries_as_hash();
    let ghost al = aligned_of(block@.entries);
    let mut out: Vec<GenomeGroup> = Vec::new();
    let mut j: usize = 0;
    while j < groups.len()
        invariant
            j <= groups.len(),
            is_grouping(al, groups@),
            genomes_of(groups@) == first_genomes(al),
            genomes_of(out@) == dup_list(genomes_of(groups@).take(j as int), al),
            forall|i: int| 0 <= i < out@.len() ==> (#[trigger] out@[i]).members@.map_values(|k: usize| k as int)
                == indices_of_genome(al, out@[i].genome@),
            forall|i: int, t: int| 0 <= i < t < out@.len() ==> #[trigger] out@[i].genome@ != #[trigger] out@[t].genome@,
            forall|g: Seq<char>| #[trigger] genomes_of(out@).contains(g) <==> exists|i: int|
                0 <= i < j && (#[trigger] groups@[i]).genome@ == g && groups@[i].members@.len() > 1,
        decreases groups.len() - j,
    {
        proof {
            let gj = groups@[j as int].genome@;
            lemma_entries_of_genome(al, gj);
            assert(groups@[j as int].members@.map_values(|k: usize| k as int).len() == groups@[j as int].members@.len());
            assert(genomes_of(groups@).take(j + 1) =~= genomes_of(groups@).take(j as int).push(gj));
            assert(genomes_of(groups@).take(j + 1).drop_last() =~= genomes_of(groups@).take(j as int));
        }
        if groups[j].members.len() > 1 {
            let ghost before = out@;
            out.push(GenomeGroup { genome: groups[j].genome.clone(), members: groups[j].members.clone() });
            proof {
                assert(out@.last().members@ =~= groups@[j as int].members@);
                assert(genomes_of(out@) =~= genomes_of(before).push(groups@[j as int].genome@));
                assert forall|i: int, t: int| 0 <= i < t < out@.len() implies #[trigger] out@[i].genome@ != #[trigger] out@[t].genome@ by {
                    if t == out@.len() - 1 {
                        if out@[i].genome@ == groups@[j as int].genome@ {
                            assert(genomes_of(before)[i] == out@[i].genome@);
                            assert(genomes_of(before).contains(groups@[j as int].genome@));
                        }
                    } else {
                        assert(out@[i] == before[i] && out@[t] == before[t]);
                    }
                }
                assert forall|i: int| 0 <= i < out@.len() implies (#[trigger] out@[i]).members@.map_values(|k: usize| k as int)
                    == indices_of_genome(al, out@[i].genome@) by {
                    if i < before.len() {
                        assert(out@[i] == before[i]);
                    }
                }
                assert forall|g: Seq<char>| #[trigger] genomes_of(out@).contains(g) <==> exists|i: int|
                    0 <= i < j + 1 && (#[trigger] groups@[i]).genome@ == g && groups@[i].members@.len() > 1 by {
                    let ns = genomes_of(out@);
                    let os = genomes_of(before);
                    if g == groups@[j as int].genome@ {
                        assert(ns[before.len() as int] == g);
                    }
                    if ns.contains(g) {
                        let i = choose|i: int| 0 <= i < ns.len() && ns[i] == g;
                        if i < os.len() {
                            assert(os[i] == g);
                        }
                    }
                    if os.contains(g) {
                        let i = choose|i: int| 0 <= i < os.len() && os[i] == g;
                        assert(ns[i] == g);
                    }
                }
            }
        } else {
            assert forall|g: Seq<char>| #[trigger] genomes_of(out@).contains(g) <==> exists|i: int|
                0 <= i < j + 1 && (#[trigger] groups@[i]).genome@ == g && groups@[i].members@.len() > 1 by {
                if exists|i: int| 0 <= i < j + 1 && (#[trigger] groups@[i]).genome@ == g && groups@[i].members@.len() > 1 {
                    let i = choose|i: int| 0 <= i < j + 1 && (#[trigger] groups@[i]).genome@ == g && groups@[i].members@.len() > 1;
                    assert(i < j);
                }
            }
        }
        j = j + 1;
    }
    assert(genomes_of(groups@).take(j as int) =~= genomes_of(groups@));
    proof {
        let gs = genomes_of(out@);
        assert forall|i: int, t: int| 0 <= i < t < gs.len() implies #[trigger] gs[i] != #[trigger] gs[t] by {
            assert(gs[i] == out@[i].genome@ && gs[t] == out@[t].genome@);
        }
        assert forall|g: Seq<char>| #[trigger] gs.contains(g) <==> is_dup(al, g) by {
            lemma_group_dup(al, groups@, g);
        }
    }
    out
}

/// Whether some genome has more than one aligned entry in the block.
pub fn block_contains_dups(block: &MAFBlock) -> (r: bool)
    ensures
        r == exists|g: Seq<char>| is_dup(aligned_of(block@.entries), g),
{
    let d = dup_entries_from_block(block);
    proof {
        let al = aligned_of(block@.entries);
        let gs = genomes_of(d@);
        if d@.len() > 0 {
            assert(gs.contains(gs[0]));
            assert(is_dup(al, gs[0]));
        }
        if exists|g: Seq<char>| is_dup(al, g) {
            let g = choose|g: Seq<char>| is_dup(al, g);
            assert(gs.contains(g));
        }
    }
    d.len() > 0
}

/// The entries that stay: unaligned ones, and aligned ones of genomes that
/// are not duplicated, in order.
pub open spec fn kept_entries(es: Seq<EntryView>, al: Seq<AlignedView>) -> Seq<EntryView>
    decreases es.len(),
{
    if es.len() == 0 {
        seq![]
    } else {
        let rest = kept_entries(es.drop_last(), al);
        match es.last() {
            EntryView::Aligned(a) => if is_dup(al, genome_of(a.seq)) {
                rest
            } else {
                rest.push(es.last())
            },
            EntryView::Unaligned(_) => rest.push(es.last()),
        }
    }
}

pub open spec fn merged_entries(al: Seq<AlignedView>, gs: Seq<Seq<char>>, mode: ConsensusMode) -> Seq<EntryView> {
    gs.map_values(|g: Seq<char>| EntryView::Aligned(merged_entry(al, g, mode)))
}

/// Whether genome `g` is among the groups.
fn in_groups(groups: &Vec<GenomeGroup>, g: &String) -> (r: bool)
    ensures
        r == genomes_of(groups@).contains(g@),
{
    let mut j: usize = 0;
    while j < groups.len()
        invariant
            j <= groups.len(),
            forall|t: int| 0 <= t < j ==> (#[trigger] groups@[t]).genome@ != g@,
        decreases groups.len() - j,
    {
        if text_equal(groups[j].genome.as_str(), g.as_str()) {
            assert(genomes_of(groups@)[j as int] == g@);
            return true;
        }
        j = j + 1;
    }
    proof {
        if genomes_of(groups@).contains(g@) {
            let t = choose|t: int| 0 <= t < genomes_of(groups@).len() && genomes_of(groups@)[t] == g@;
            assert(groups@[t].genome@ == g@);
        }
    }
    false
}

/// The block with each duplicated genome's entries replaced by one merged
/// entry: the other entries keep their order, and the merged entries follow.
pub fn merge_dup_block(block: &MAFBlock, mode: ConsensusMode) -> (r: MAFBlock)
    ensures
        r@.metadata == block@.metadata,
        r@.entries == kept_entries(block@.entries, aligned_of(block@.entries)) + merged_entries(
            aligned_of(block@.entries),
            dup_list(first_genomes(aligned_of(block@.entries)), aligned_of(block@.entries)),
            mode,
        ),
{
    let ghost es = block@.entries;
    let ghost alv = aligned_of(es);
    let dups = dup_entries_from_block(block);
    let al = block.aligned_entries();
    let mut entries: Vec<MAFBlockEntry> = Vec::new();
    let mut i: usize = 0;
    while i < block.entries.len()
        invariant
            i <= block.entries.len(),
            es == block@.entries,
            alv == aligned_of(es),
            is_dup_grouping(alv, dups@),
            ev(entries@) == kept_entries(es.take(i as int), alv),
        decreases block.entries.len() - i,
    {
        let ghost t1 = es.take(i + 1);
        assert(t1.drop_last() =~= es.take(i as int));
        assert(t1.last() == block.entries@[i as int]@);
        let ghost before = entries@;
        match &block.entries[i] {
            MAFBlockEntry::AlignedEntry(a) => {
                let g = genome_part(a.seq.as_str());
                if !in_groups(&dups, &g) {
                    entries.push(copy_entry(&block.entries[i]));
                    assert(ev(entries@) =~= ev(before).push(block.entries@[i as int]@));
                }
            },
            MAFBlockEntry::UnalignedEntry(_) => {
                entries.push(copy_entry(&block.entries[i]));
                assert(ev(entries@) =~= ev(before).push(block.entries@[i as int]@));
            },
        }
        i = i + 1;
    }
    assert(es.take(i as int) =~= es);
    let ghost kept = ev(entries@);
    let mut j: usize = 0;
    while j < dups.len()
        invariant
            j <= dups.len(),
            alv == avs(al@),
            is_dup_grouping(alv, dups@),
            ev(entries@) == kept + merged_entries(alv, genomes_of(dups@).take(j as int), mode),
        decreases dups.len() - j,
    {
        proof {
            let gv = dups@[j as int].genome@;
            assert(genomes_of(dups@)[j as int] == gv);
            assert(genomes_of(dups@).contains(gv));
            lemma_entries_of_genome(alv, gv);
            assert(dups@[j as int].members@.map_values(|k: usize| k as int).len() == dups@[j as int].members@.len());
        }
        let m = merge_dup_entries(&al, &dups[j], mode);
        let ghost before = ev(entries@);
        entries.push(MAFBlockEntry::AlignedEntry(m));
        proof {
            let gv = dups@[j as int].genome@;
            let tj = genomes_of(dups@).take(j as int);
            assert(genomes_of(dups@).take(j + 1) =~= tj.push(gv));
            assert(ev(entries@) =~= before.push(EntryView::Aligned(m@)));
            assert(merged_entries(alv, tj.push(gv), mode) =~= merged_entries(alv, tj, mode).push(
                EntryView::Aligned(merged_entry(alv, gv, mode)),
            ));
            assert(ev(entries@) =~= kept + merged_entries(alv, genomes_of(dups@).take(j + 1), mode));
        }
        j = j + 1;
    }
    assert(genomes_of(dups@).take(j as int) =~= genomes_of(dups@));
    MAFBlock { entries, metadata: copy_metadata(&block.metadata) }
}

pub open spec fn has_dups(b: BlockView) -> bool {
    exists|g: Seq<char>| is_dup(aligned_of(b.entries), g)
}

/// Comments, and the blocks that hold duplicated genomes, as text.
pub open spec fn dup_blocks_text(items: Seq<ItemView>) -> Seq<char>
    decreases items.len(),
{
    if items.len() == 0 {
        seq![]
    } else {
        dup_blocks_text(items.drop_last()) + match items.last() {
            ItemView::Comment(c) => comment_text(c),
            ItemView::Block(b) => if has_dups(b) {
                block_text(b)
            } else {
                seq![]
            },
        }
    }
}

/// A block with its duplicated genomes merged.
pub open spec fn merged_view(b: BlockView, mode: ConsensusMode) -> BlockView {
    let al = aligned_of(b.entries);
    BlockView {
        entries: kept_entries(b.entries, al) + merged_entries(al, dup_list(first_genomes(al), al), mode),
        metadata: b.metadata,
    }
}

/// Comments, and every block with its duplicated genomes merged, as text;
/// each block is followed by one more blank line.
pub open spec fn merged_blocks_text(items: Seq<ItemView>, mode: ConsensusMode) -> Seq<char>
    decreases items.len(),
{
    if items.len() == 0 {
        seq![]
    } else {
        merged_blocks_text(items.drop_last(), mode) + match items.last() {
            ItemView::Comment(c) => comment_text(c),
            ItemView::Block(b) => block_text(merged_view(b, mode)) + seq!['\n'],
        }
    }
}

fn push_comment(out: &mut Vec<char>, c: &String)
    ensures
        final(out)@ == old(out)@ + comment_text(c@),
{
    out.push('#');
    push_str(out, c.as_str());
    out.push('\n');
    assert(out@ =~= old(out)@ + comment_text(c@));
}

/// Writes the comments, and the blocks in which some genome has more than
/// one aligned entry, unchanged. Stops at the first item that cannot be read.
pub fn output_dup_blocks(input: &mut LinesRef) -> (r: Result<String, MAFParseError>)
    requires
        old(input).wf(),
    ensures
        match items_from(old(input).text(), old(input).pos as int) {
            Ok(items) => r is Ok && r->Ok_0@ == dup_blocks_text(items),
            Err(k) => r is Err && kind_of(r->Err_0) == k,
        },
{
    let ghost ls = input.text();
    let ghost start = input.pos as int;
    let ghost mut done: Seq<ItemView> = seq![];
    let mut out: Vec<char> = Vec::new();
    assert(prepend(done, items_from(ls, start)) == items_from(ls, start)) by {
        match items_from(ls, start) {
            Ok(x) => { assert(done + x =~= x); },
            Err(k) => {},
        }
    }
    loop
        invariant
            input.wf(),
            input.text() == ls,
            ls == old(input).text(),
            start == old(input).pos,
            ls.len() == input.lines.len(),
            prepend(done, items_from(ls, input.pos as int)) == items_from(ls, start),
            out@ == dup_blocks_text(done),
        decreases input.lines.len() - input.pos,
    {
        let ghost i = input.pos as int;
        let ghost st = item_step(ls, i);
        let item = read_item(input);
        match item {
            Err(e) => {
                if let MAFParseError::EOF = e {
                    proof {
                        assert(st is End);
                        assert(items_from(ls, i) == Ok::<Seq<ItemView>, crate::parser::FailKind>(seq![]));
                        assert(done + seq![] =~= done);
                        assert(items_from(ls, start) == Ok::<Seq<ItemView>, crate::parser::FailKind>(done));
                    }
                    return Ok(string_of(out.as_slice()));
                }
                proof {
                    assert(st is Failed);
                    assert(items_from(ls, i) == Err::<Seq<ItemView>, crate::parser::FailKind>(kind_of(e)));
                    assert(items_from(ls, start) == Err::<Seq<ItemView>, crate::parser::FailKind>(kind_of(e)));
                }
                return Err(e);
            },
            Ok(MAFItem::Comment(c)) => {
                proof {
                    lemma_items_step(ls, i, done, ItemView::Comment(c@));
                }
                push_comment(&mut out, &c);
                proof {
                    let nd = done.push(ItemView::Comment(c@));
                    assert(nd.drop_last() =~= done);
                    done = nd;
                }
            },
            Ok(MAFItem::Block(b)) => {
                proof {
                    lemma_items_step(ls, i, done, ItemView::Block(b@));
                }
                if block_contains_dups(&b) {
                    let t = b.to_maf_string();
                    push_str(&mut out, t.as_str());
                }
                proof {
                    let nd = done.push(ItemView::Block(b@));
                    assert(nd.drop_last() =~= done);
                    done = nd;
                }
            },
        }
    }
}

/// Writes the comments, and every block with each duplicated genome's
/// entries merged by `mode`. Stops at the first item that cannot be read.
pub fn output_merged_consensus_blocks(input: &mut LinesRef, mode: ConsensusMode) -> (r: Result<String, MAFParseError>)
    requires
        old(input).wf(),
    ensures
        match items_from(old(input).text(), old(input).pos as int) {
            Ok(items) => r is Ok && r->Ok_0@ == merged_blocks_text(items, mode),
            Err(k) => r is Err && kind_of(r->Err_0) == k,
        },
{
    let ghost ls = input.text();
    let ghost start = input.pos as int;
    let ghost mut done: Seq<ItemView> = seq![];
    let mut out: Vec<char> = Vec::new();
    assert(prepend(done, items_from(ls, start)) == items_from(ls, start)) by {
        match items_from(ls, start) {
            Ok(x) => { assert(done + x =~= x); },
            Err(k) => {},
        }
    }
    loop
        invariant
            input.wf(),
            input.text() == ls,
            ls == old(input).text(),
            start == old(input).pos,
            ls.len() == input.lines.len(),
            prepend(done, items_from(ls, input.pos as int)) == items_from(ls, start),
            out@ == merged_blocks_text(done, mode),
        decreases input.lines.len() - input.pos,
    {
        let ghost i = input.pos as int;
        let ghost st = item_step(ls, i);
        let item = read_item(input);
        match item {
            Err(e) => {
                if let MAFParseError::EOF = e {
                    proof {
                        assert(st is End);
                        assert(items_from(ls, i) == Ok::<Seq<ItemView>, crate::parser::FailKind>(seq![]));
                        assert(done + seq![] =~= done);
                        assert(items_from(ls, start) == Ok::<Seq<ItemView>, crate::parser::FailKind>(done));
                    }
                    return Ok(string_of(out.as_slice()));
                }
                proof {
                    assert(st is Failed);
                    assert(items_from(ls, i) == Err::<Seq<ItemView>, crate::parser::FailKind>(kind_of(e)));
                    assert(items_from(ls, start) == Err::<Seq<ItemView>, crate::parser::FailKind>(kind_of(e)));
                }
                return Err(e);
            },
            Ok(MAFItem::Comment(c)) => {
                proof {
                    lemma_items_step(ls, i, done, ItemView::Comment(c@));
                }
                push_comment(&mut out, &c);
                proof {
                    let nd = done.push(ItemView::Comment(c@));
                    assert(nd.drop_last() =~= done);
                    done = nd;
                }
            },
            Ok(MAFItem::Block(b)) => {
                proof {
                    lemma_items_step(ls, i, done, ItemView::Block(b@));
                }
                let merged = merge_dup_block(&b, mode);
                let t = merged.to_maf_string();
                push_str(&mut out, t.as_str());
                out.push('\n');
                proof {
                    let nd = done.push(ItemView::Block(b@));
                    assert(nd.drop_last() =~= done);
                    done = nd;
                }
            },
        }
    }
}

} // verus!
