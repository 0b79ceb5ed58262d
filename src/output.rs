//! Writing blocks back as text.

use crate::model::{
    AlignedContextStatus, BlockView, EntryView, MAFBlock, MAFBlockEntry, Strand,
    UnalignedContextStatus,
};
use crate::parser::{ev, mv};
use crate::text::{dec_text, push_dec, push_str, string_of};
use vstd::prelude::*;
use vstd::utf8::{decode_utf8, valid_utf8};

verus! {

pub open spec fn aligned_status_char(s: AlignedContextStatus) -> char {
    match s {
        AlignedContextStatus::Contiguous => 'C',
        AlignedContextStatus::Insertion => 'I',
        AlignedContextStatus::FirstInSequence => 'N',
        AlignedContextStatus::FirstInSequenceBridged => 'n',
        AlignedContextStatus::MissingData => 'M',
        AlignedContextStatus::AlreadyUsed => 'T',
    }
}

pub open spec fn unaligned_status_char(s: UnalignedContextStatus) -> char {
    match s {
        UnalignedContextStatus::Deletion => 'C',
        UnalignedContextStatus::Insertion => 'I',
        UnalignedContextStatus::MissingData => 'M',
        UnalignedContextStatus::NewSequence => 'n',
        UnalignedContextStatus::AlreadyUsed => 'T',
    }
}

pub open spec fn strand_char(s: Strand) -> char {
    match s {
        Strand::Positive => '+',
        Strand::Negative => '-',
    }
}

/// The text of alignment bytes: their UTF-8 decoding, or each byte as a
/// character where they are not UTF-8.
pub open spec fn alignment_text(b: Seq<u8>) -> Seq<char> {
    if valid_utf8(b) {
        decode_utf8(b)
    } else {
        b.map_values(|x: u8| x as char)
    }
}

pub open spec fn sp() -> Seq<char> {
    seq![' ']
}

pub open spec fn nl() -> Seq<char> {
    seq!['\n']
}

/// The header's metadata part: " key=value" for each pair, in order.
pub open spec fn meta_text(m: Seq<(Seq<char>, Seq<char>)>) -> Seq<char>
    decreases m.len(),
{
    if m.len() == 0 {
        seq![]
    } else {
        meta_text(m.drop_last()) + sp() + m.last().0 + seq!['='] + m.last().1
    }
}

/// The lines of one entry: `s` (and `i` where there is context), or `e`.
pub open spec fn entry_text(e: EntryView) -> Seq<char> {
    match e {
        EntryView::Aligned(a) => match a.context {
            Some(c) => s_text(a) + i_text(a, c),
            None => s_text(a),
        },
        EntryView::Unaligned(u) => e_text(u),
    }
}

pub open spec fn entries_text(es: Seq<EntryView>) -> Seq<char>
    decreases es.len(),
{
    if es.len() == 0 {
        seq![]
    } else {
        entries_text(es.drop_last()) + entry_text(es.last())
    }
}

/// The text of a block: the `a` line, the entries' lines, a blank line.
pub open spec fn block_text(b: BlockView) -> Seq<char> {
    seq!['a'] + meta_text(b.metadata) + nl() + entries_text(b.entries) + nl()
}

fn aligned_context_status_char(status: &AlignedContextStatus) -> (r: char)
    ensures
        r == aligned_status_char(*status),
{
    match status {
        AlignedContextStatus::Contiguous => 'C',
        AlignedContextStatus::Insertion => 'I',
        AlignedContextStatus::FirstInSequence => 'N',
        AlignedContextStatus::FirstInSequenceBridged => 'n',
        AlignedContextStatus::MissingData => 'M',
        AlignedContextStatus::AlreadyUsed => 'T',
    }
}

fn unaligned_context_status_char(status: &UnalignedContextStatus) -> (r: char)
    ensures
        r == unaligned_status_char(*status),
{
    match status {
        UnalignedContextStatus::Deletion => 'C',
        UnalignedContextStatus::Insertion => 'I',
        UnalignedContextStatus::MissingData => 'M',
        UnalignedContextStatus::NewSequence => 'n',
        UnalignedContextStatus::AlreadyUsed => 'T',
    }
}

fn strand_symbol(s: Strand) -> (r: char)
    ensures
        r == strand_char(s),
{
    match s {
        Strand::Positive => '+',
        Strand::Negative => '-',
    }
}

/// Relies on `std::str::from_utf8`: the text that the bytes encode, where
/// they are valid UTF-8.
#[verifier::external_body]
fn utf8_text(b: &[u8]) -> (r: Option<String>)
    ensures
        r is Some <==> valid_utf8(b@),
        r is Some ==> r->0@ == decode_utf8(b@),
{
    match std::str::from_utf8(b) {
        Ok(s) => Some(s.to_string()),
        Err(_) => None,
    }
}

fn push_alignment(out: &mut Vec<char>, b: &Vec<u8>)
    ensures
        final(out)@ == old(out)@ + alignment_text(b@),
{
    match utf8_text(b.as_slice()) {
        Some(t) => push_str(out, t.as_str()),
        None => {
            let mut i: usize = 0;
            while i < b.len()
                invariant
                    i <= b.len(),
                    out@ == old(out)@ + b@.map_values(|x: u8| x as char).take(i as int),
                decreases b.len() - i,
            {
                out.push(b[i] as char);
                i = i + 1;
                assert(out@ =~= old(out)@ + b@.map_values(|x: u8| x as char).take(i as int));
            }
            assert(b@.map_values(|x: u8| x as char).take(i as int) =~= b@.map_values(
                |x: u8| x as char,
            ));
        },
    }
}

fn push_sp_dec(out: &mut Vec<char>, n: u64)
    ensures
        final(out)@ == old(out)@ + sp() + dec_text(n as nat),
{
    out.push(' ');
    push_dec(out, n);
}

fn push_sp_str(out: &mut Vec<char>, s: &str)
    ensures
        final(out)@ == old(out)@ + sp() + s@,
{
    out.push(' ');
    push_str(out, s);
}

fn push_sp_char(out: &mut Vec<char>, c: char)
    ensures
        final(out)@ == old(out)@ + sp() + seq![c],
{
    out.push(' ');
    out.push(c);
    assert(out@ =~= old(out)@ + sp() + seq![c]);
}

pub open spec fn s_text(a: crate::model::AlignedView) -> Seq<char> {
    seq!['s'] + sp() + a.seq + sp() + dec_text(a.start as nat) + sp() + dec_text(
        a.aligned_length as nat,
    ) + sp() + seq![strand_char(a.strand)] + sp() + dec_text(a.sequence_size as nat) + sp()
        + alignment_text(a.alignment) + nl()
}

pub open spec fn i_text(a: crate::model::AlignedView, c: crate::model::AlignedContext) -> Seq<char> {
    seq!['i'] + sp() + a.seq + sp() + seq![aligned_status_char(c.left_status)] + sp() + dec_text(
        c.left_count as nat,
    ) + sp() + seq![aligned_status_char(c.right_status)] + sp() + dec_text(c.right_count as nat)
        + nl()
}

pub open spec fn e_text(u: crate::model::UnalignedView) -> Seq<char> {
    seq!['e'] + sp() + u.seq + sp() + dec_text(u.start as nat) + sp() + dec_text(u.size as nat)
        + sp() + seq![strand_char(u.strand)] + sp() + dec_text(u.sequence_size as nat) + sp()
        + seq![unaligned_status_char(u.status)] + nl()
}

fn push_s_line(out: &mut Vec<char>, e: &crate::model::MAFBlockAlignedEntry)
    ensures
        final(out)@ == old(out)@ + s_text(e@),
{
    out.push('s');
    push_sp_str(out, e.seq.as_str());
    push_sp_dec(out, e.start);
    push_sp_dec(out, e.aligned_length);
    push_sp_char(out, strand_symbol(e.strand));
    push_sp_dec(out, e.sequence_size);
    out.push(' ');
    push_alignment(out, &e.alignment);
    out.push('\n');
    assert(out@ =~= old(out)@ + s_text(e@));
}

fn push_i_line(out: &mut Vec<char>, e: &crate::model::MAFBlockAlignedEntry, c: &crate::model::AlignedContext)
    ensures
        final(out)@ == old(out)@ + i_text(e@, *c),
{
    out.push('i');
    push_sp_str(out, e.seq.as_str());
    push_sp_char(out, aligned_context_status_char(&c.left_status));
    push_sp_dec(out, c.left_count);
    push_sp_char(out, aligned_context_status_char(&c.right_status));
    push_sp_dec(out, c.right_count);
    out.push('\n');
    assert(out@ =~= old(out)@ + i_text(e@, *c));
}

fn push_e_line(out: &mut Vec<char>, e: &crate::model::MAFBlockUnalignedEntry)
    ensures
        final(out)@ == old(out)@ + e_text(e@),
{
    out.push('e');
    push_sp_str(out, e.seq.as_str());
    push_sp_dec(out, e.start);
    push_sp_dec(out, e.size);
    push_sp_char(out, strand_symbol(e.strand));
    push_sp_dec(out, e.sequence_size);
    push_sp_char(out, unaligned_context_status_char(&e.status));
    out.push('\n');
    assert(out@ =~= old(out)@ + e_text(e@));
}

fn push_entry(out: &mut Vec<char>, entry: &MAFBlockEntry)
    ensures
        final(out)@ == old(out)@ + entry_text(entry@),
{
    match entry {
        MAFBlockEntry::AlignedEntry(e) => {
            push_s_line(out, e);
            match &e.context {
                Some(c) => {
                    push_i_line(out, e, c);
                    assert(out@ =~= old(out)@ + (s_text(e@) + i_text(e@, *c)));
                },
                None => {},
            }
        },
        MAFBlockEntry::UnalignedEntry(e) => {
            push_e_line(out, e);
        },
    }
}

impl MAFBlock {
    /// The block as text: `a` with the metadata pairs in order, each entry's
    /// lines with single spaces between fields, then a blank line.
    pub fn to_maf_string(&self) -> (r: String)
        ensures
            r@ == block_text(self@),
    {
        let mut out: Vec<char> = Vec::new();
        out.push('a');
        let mut i: usize = 0;
        while i < self.metadata.len()
            invariant
                i <= self.metadata.len(),
                out@ == seq!['a'] + meta_text(mv(self.metadata@).take(i as int)),
            decreases self.metadata.len() - i,
        {
            out.push(' ');
            push_str(&mut out, self.metadata[i].0.as_str());
            out.push('=');
            push_str(&mut out, self.metadata[i].1.as_str());
            i = i + 1;
            assert(mv(self.metadata@).take(i as int).drop_last() =~= mv(self.metadata@).take(i - 1));
            assert(out@ =~= seq!['a'] + meta_text(mv(self.metadata@).take(i as int)));
        }
        out.push('\n');
        assert(mv(self.metadata@).take(i as int) =~= self@.metadata);
        let ghost head = out@;
        let mut j: usize = 0;
        while j < self.entries.len()
            invariant
                j <= self.entries.len(),
                out@ == head + entries_text(ev(self.entries@).take(j as int)),
            decreases self.entries.len() - j,
        {
            push_entry(&mut out, &self.entries[j]);
            j = j + 1;
            assert(ev(self.entries@).take(j as int).drop_last() =~= ev(self.entries@).take(j - 1));
            assert(out@ =~= head + entries_text(ev(self.entries@).take(j as int)));
        }
        out.push('\n');
        assert(ev(self.entries@).take(j as int) =~= self@.entries);
        assert(out@ =~= block_text(self@));
        string_of(out.as_slice())
    }
}

} // verus!
