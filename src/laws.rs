//! Properties of the library, stated over the spec functions that its
//! contracts use, and proved.

use crate::coverage::{
    base_at, column_counts, entry_gain, genome_aligned_at, is_aligned_base, ref_pos,
};
use crate::dup_blocks::{ConsensusMode, dup_list, is_dup, kept_entries, merged_entries, merged_entry, merged_view};
use crate::model::{aligned_of, first_genomes};
use crate::text::genome_of;
use crate::model::{AlignedContext, AlignedView, BlockView, EntryView, UnalignedView};
use crate::output::block_text;
use crate::parser::{ItemStep, item_step, step_next};
use crate::text::text_lt;
use crate::output::{alignment_text, aligned_status_char, strand_char, unaligned_status_char};
use crate::text::joined;
use vstd::utf8::valid_utf8;
use crate::parser::{
    apply_lines, drop_cr, lines_from, text_lines,
    FailKind, aligned_status_of, apply_line, header_meta, header_words, i_line, meta_of_words,
};
use crate::ranges::{RangeView, contains_point};
use crate::text::{
    chrom_of, dec_text, dec_value, digit_char, is_u64_text, is_ws, u64_of_text, unsigned_digits,
    words, words_from, all_digits, is_digit,
};
use vstd::prelude::*;

verus! {

/// A header whose only word is its tag has no metadata.
pub proof fn law_bare_header_has_no_metadata(h: Seq<char>)
    requires
        words(h).len() == 1,
    ensures
        header_meta(h) == Some(Seq::<(Seq<char>, Seq<char>)>::empty()),
{
    assert(header_words(h) =~= Seq::<Seq<char>>::empty());
    assert(meta_of_words(header_words(h)) =~= Seq::<(Seq<char>, Seq<char>)>::empty());
}

/// An `i` line with readable fields that follows an aligned entry of the
/// same sequence gives that entry the decoded context and changes nothing
/// else; after an unaligned entry, after an entry of another sequence, or
/// first in a block, it is an unexpected line.
pub proof fn law_i_line_attaches_context(es: Seq<EntryView>, f: Seq<Seq<char>>)
    requires
        f.len() >= 6,
        f[0] == seq!['i'],
        aligned_status_of(f[2]) is Some,
        is_u64_text(f[3]),
        aligned_status_of(f[4]) is Some,
        is_u64_text(f[5]),
    ensures
        es.len() > 0 && es.last() is Aligned && es.last()->Aligned_0.seq == f[1] ==> ({
            let a = es.last()->Aligned_0;
            let ctx = AlignedContext {
                left_status: aligned_status_of(f[2])->0,
                left_count: u64_of_text(f[3]),
                right_status: aligned_status_of(f[4])->0,
                right_count: u64_of_text(f[5]),
            };
            apply_line(es, f) == Ok::<Seq<EntryView>, FailKind>(
                es.drop_last().push(EntryView::Aligned(AlignedView { context: Some(ctx), ..a })),
            )
        }),
        es.len() == 0 ==> apply_line(es, f) == Err::<Seq<EntryView>, FailKind>(FailKind::Unexpected(seq!['i'])),
        es.len() > 0 && es.last() is Unaligned ==> apply_line(es, f) == Err::<Seq<EntryView>, FailKind>(
            FailKind::Unexpected(f[1]),
        ),
        es.len() > 0 && es.last() is Aligned && es.last()->Aligned_0.seq != f[1] ==> apply_line(es, f)
            == Err::<Seq<EntryView>, FailKind>(FailKind::Unexpected(f[1])),
{
    assert(f[0] != seq!['s']) by {
        assert(seq!['i'][0] != seq!['s'][0]);
    }
    if es.len() > 0 && es.last() is Aligned && es.last()->Aligned_0.seq == f[1] {
        let a = es.last()->Aligned_0;
        let ctx = AlignedContext {
            left_status: aligned_status_of(f[2])->0,
            left_count: u64_of_text(f[3]),
            right_status: aligned_status_of(f[4])->0,
            right_count: u64_of_text(f[5]),
        };
        assert(es.update(es.len() - 1, EntryView::Aligned(AlignedView { context: Some(ctx), ..a }))
            =~= es.drop_last().push(EntryView::Aligned(AlignedView { context: Some(ctx), ..a })));
    }
}

/// Where there are no regions, what a genome gains from one reference entry
/// is the number of columns in which the reference base and a base of some
/// entry of that genome are both aligned: a column counts once however many
/// of the genome's entries have a base there.
pub proof fn law_coverage_counts_shared_columns(
    e: AlignedView,
    al: Seq<AlignedView>,
    x: Seq<char>,
    n: int,
)
    requires
        0 <= n,
    ensures
        entry_gain(None, e, al, x, n) == shared_columns(e, al, x, n),
    decreases n,
{
    if n > 0 {
        law_coverage_counts_shared_columns(e, al, x, n - 1);
    }
}

/// The number of the first `n` columns in which the reference entry `e` has
/// an aligned base and some entry of genome `x` has one too.
pub open spec fn shared_columns(e: AlignedView, al: Seq<AlignedView>, x: Seq<char>, n: int) -> int
    decreases n,
{
    if n <= 0 {
        0
    } else {
        shared_columns(e, al, x, n - 1) + (if is_aligned_base(base_at(e.alignment, n - 1))
            && genome_aligned_at(al, x, n - 1) {
            1int
        } else {
            0int
        })
    }
}

/// A column whose reference position lies in no region adds to no genome's
/// coverage, the reference genome's own included.
pub proof fn law_outside_regions_counts_for_none(
    regions: Seq<RangeView>,
    e: AlignedView,
    al: Seq<AlignedView>,
    i: int,
)
    requires
        !(0 <= ref_pos(e, i) <= u64::MAX && contains_point(regions, chrom_of(e.seq), ref_pos(e, i) as u64)),
    ensures
        forall|h: Seq<char>| #![auto] entry_gain(Some(regions), e, al, h, i + 1) == entry_gain(Some(regions), e, al, h, i),
{
    assert(!column_counts(Some(regions), e, i));
}

/// In mask mode every column of a duplicated genome's merged entry is `N`,
/// and the merged entry has the width of the entry it stands for.
pub proof fn law_mask_gives_n(al: Seq<AlignedView>, g: Seq<char>)
    requires
        crate::coverage::entries_of_genome(al, g).len() > 1,
    ensures
        merged_entry(al, g, ConsensusMode::Mask).alignment.len() == crate::coverage::entries_of_genome(al, g)[0].alignment.len(),
        forall|i: int| 0 <= i < merged_entry(al, g, ConsensusMode::Mask).alignment.len() ==> #[trigger] merged_entry(al, g, ConsensusMode::Mask).alignment[i] == 78u8,
{
}

proof fn lemma_dec_text_digits(n: nat)
    ensures
        dec_text(n).len() > 0,
        all_digits(dec_text(n)),
        dec_value(dec_text(n)) == n,
        dec_text(n)[0] != '+',
    decreases n,
{
    let d = (n % 10) as int;
    assert(digit_char(d) as int == d + 48);
    if n >= 10 {
        lemma_dec_text_digits(n / 10);
        let t = dec_text(n / 10);
        assert(dec_text(n).drop_last() =~= t);
        assert forall|i: int| 0 <= i < dec_text(n).len() implies is_digit(#[trigger] dec_text(n)[i]) by {
            if i < t.len() {
                assert(dec_text(n)[i] == t[i]);
            }
        }
        assert(dec_text(n)[0] == t[0]);
        assert(dec_text(n).last() == digit_char(d));
        assert((n / 10) * 10 + n % 10 == n) by (nonlinear_arith);
        assert(dec_value(dec_text(n)) == dec_value(t) * 10 + d);
    } else {
        assert(dec_text(n).last() == digit_char(d));
        assert(n % 10 == n);
        assert(dec_value(dec_text(n).drop_last()) == 0);
        assert(dec_value(dec_text(n)) == dec_value(dec_text(n).drop_last()) * 10 + d);
        assert(dec_text(n).drop_last() =~= Seq::<char>::empty());
    }
}

/// The decimal text of a number reads back as that number.
pub proof fn law_decimal_round_trip(n: u64)
    ensures
        is_u64_text(dec_text(n as nat)),
        u64_of_text(dec_text(n as nat)) == n,
{
    lemma_dec_text_digits(n as nat);
    assert(unsigned_digits(dec_text(n as nat)) == dec_text(n as nat));
}

/// Text with no whitespace.
pub open spec fn ws_free(a: Seq<char>) -> bool {
    forall|i: int| 0 <= i < a.len() ==> !is_ws(#[trigger] a[i])
}

proof fn lemma_words_shift(x: Seq<char>, y: Seq<char>, j: int, cur: Seq<char>)
    requires
        0 <= j <= y.len(),
    ensures
        words_from(x + y, x.len() + j, cur) == words_from(y, j, cur),
    decreases y.len() - j,
{
    if j < y.len() {
        assert((x + y)[x.len() + j] == y[j]);
        if is_ws(y[j]) {
            lemma_words_shift(x, y, j + 1, seq![]);
        } else {
            lemma_words_shift(x, y, j + 1, cur.push(y[j]));
        }
    }
}

proof fn lemma_words_run(t: Seq<char>, i: int, cur: Seq<char>, k: int)
    requires
        0 <= i,
        0 <= k,
        i + k <= t.len(),
        forall|m: int| i <= m < i + k ==> !is_ws(#[trigger] t[m]),
    ensures
        words_from(t, i, cur) == words_from(t, i + k, cur + t.subrange(i, i + k)),
    decreases k,
{
    if k > 0 {
        lemma_words_run(t, i + 1, cur.push(t[i]), k - 1);
        assert(cur.push(t[i]) + t.subrange(i + 1, i + k) =~= cur + t.subrange(i, i + k));
    } else {
        assert(cur + t.subrange(i, i) =~= cur);
    }
}

/// A word, a space and the rest: the word comes first.
proof fn lemma_words_cons(a: Seq<char>, b: Seq<char>)
    requires
        a.len() > 0,
        ws_free(a),
    ensures
        words(a + seq![' '] + b) == seq![a] + words(b),
{
    let t = a + seq![' '] + b;
    lemma_words_run(t, 0, seq![], a.len() as int);
    assert(t.subrange(0, a.len() as int) =~= a);
    assert(seq![] + a =~= a);
    assert(t[a.len() as int] == ' ');
    assert(t =~= (a + seq![' ']) + b);
    lemma_words_shift(a + seq![' '], b, 0, seq![]);
}

proof fn lemma_words_single(a: Seq<char>)
    requires
        a.len() > 0,
        ws_free(a),
    ensures
        words(a) == seq![a],
{
    lemma_words_run(a, 0, seq![], a.len() as int);
    assert(a.subrange(0, a.len() as int) =~= a);
    assert(seq![] + a =~= a);
}

/// Fields that are not empty and hold no whitespace, joined by single
/// spaces, split back into the same fields.
pub proof fn law_words_of_joined(fs: Seq<Seq<char>>)
    requires
        fs.len() > 0,
        forall|i: int| 0 <= i < fs.len() ==> (#[trigger] fs[i]).len() > 0 && ws_free(fs[i]),
    ensures
        words(crate::text::joined(fs, seq![' '])) == fs,
    decreases fs.len(),
{
    if fs.len() == 1 {
        lemma_words_single(fs[0]);
    } else {
        let rest = fs.drop_first();
        assert(fs =~= seq![fs[0]] + rest);
        assert forall|i: int| 0 <= i < rest.len() implies (#[trigger] rest[i]).len() > 0 && ws_free(rest[i]) by {
            assert(rest[i] == fs[i + 1]);
        }
        law_words_of_joined(rest);
        crate::text::lemma_joined_prepend(rest, seq![' '], fs[0]);
        lemma_words_cons(fs[0], crate::text::joined(rest, seq![' ']));
        assert(seq![fs[0]] + rest =~= fs);
    }
}

proof fn lemma_lines_shift(x: Seq<char>, y: Seq<char>, j: int, cur: Seq<char>)
    requires
        0 <= j <= y.len(),
    ensures
        lines_from(x + y, x.len() + j, cur) == lines_from(y, j, cur),
    decreases y.len() - j,
{
    if j < y.len() {
        assert((x + y)[x.len() + j] == y[j]);
        if y[j] == '\n' {
            lemma_lines_shift(x, y, j + 1, seq![]);
        } else {
            lemma_lines_shift(x, y, j + 1, cur.push(y[j]));
        }
    }
}

proof fn lemma_lines_run(t: Seq<char>, i: int, cur: Seq<char>, k: int)
    requires
        0 <= i,
        0 <= k,
        i + k <= t.len(),
        forall|m: int| i <= m < i + k ==> #[trigger] t[m] != '\n',
    ensures
        lines_from(t, i, cur) == lines_from(t, i + k, cur + t.subrange(i, i + k)),
    decreases k,
{
    if k > 0 {
        lemma_lines_run(t, i + 1, cur.push(t[i]), k - 1);
        assert(cur.push(t[i]) + t.subrange(i + 1, i + k) =~= cur + t.subrange(i, i + k));
    } else {
        assert(cur + t.subrange(i, i) =~= cur);
    }
}

/// A line that holds no line break and does not end in `\r`.
pub open spec fn plain_line(a: Seq<char>) -> bool {
    (forall|i: int| 0 <= i < a.len() ==> #[trigger] a[i] != '\n') && !(a.len() > 0 && a.last() == '\r')
}

proof fn lemma_lines_cons(a: Seq<char>, b: Seq<char>)
    requires
        plain_line(a),
    ensures
        text_lines(a + seq!['\n'] + b) == seq![a] + text_lines(b),
{
    let t = a + seq!['\n'] + b;
    lemma_lines_run(t, 0, seq![], a.len() as int);
    assert(t.subrange(0, a.len() as int) =~= a);
    assert(seq![] + a =~= a);
    assert(t[a.len() as int] == '\n');
    assert(drop_cr(a) == a);
    assert(t =~= (a + seq!['\n']) + b);
    lemma_lines_shift(a + seq!['\n'], b, 0, seq![]);
}

/// Lines, each followed by a line break.
pub open spec fn lines_text(ls: Seq<Seq<char>>) -> Seq<char>
    decreases ls.len(),
{
    if ls.len() == 0 {
        seq![]
    } else {
        ls[0] + seq!['\n'] + lines_text(ls.drop_first())
    }
}

proof fn lemma_lines_text_split(ls: Seq<Seq<char>>, rest: Seq<char>)
    requires
        forall|i: int| 0 <= i < ls.len() ==> plain_line(#[trigger] ls[i]),
    ensures
        text_lines(lines_text(ls) + rest) == ls + text_lines(rest),
    decreases ls.len(),
{
    if ls.len() == 0 {
        assert(lines_text(ls) + rest =~= rest);
        assert(ls + text_lines(rest) =~= text_lines(rest));
    } else {
        let tail = ls.drop_first();
        assert forall|i: int| 0 <= i < tail.len() implies plain_line(#[trigger] tail[i]) by {
            assert(tail[i] == ls[i + 1]);
        }
        lemma_lines_text_split(tail, rest);
        assert(lines_text(ls) + rest =~= ls[0] + seq!['\n'] + (lines_text(tail) + rest));
        lemma_lines_cons(ls[0], lines_text(tail) + rest);
        assert(seq![ls[0]] + (tail + text_lines(rest)) =~= ls + text_lines(rest));
    }
}

proof fn lemma_lines_text_append(a: Seq<Seq<char>>, b: Seq<Seq<char>>)
    ensures
        lines_text(a + b) == lines_text(a) + lines_text(b),
    decreases a.len(),
{
    if a.len() == 0 {
        assert(a + b =~= b);
        assert(lines_text(a) + lines_text(b) =~= lines_text(b));
    } else {
        assert((a + b).drop_first() =~= a.drop_first() + b);
        lemma_lines_text_append(a.drop_first(), b);
        assert(lines_text(a + b) =~= a[0] + seq!['\n'] + (lines_text(a.drop_first()) + lines_text(b)));
        assert(lines_text(a) + lines_text(b) =~= a[0] + seq!['\n'] + lines_text(a.drop_first()) + lines_text(b));
    }
}

/// A field that is not empty and holds no whitespace.
pub open spec fn field_ok(f: Seq<char>) -> bool {
    f.len() > 0 && ws_free(f)
}

pub open spec fn s_fields(a: AlignedView) -> Seq<Seq<char>> {
    seq![
        seq!['s'],
        a.seq,
        dec_text(a.start as nat),
        dec_text(a.aligned_length as nat),
        seq![strand_char(a.strand)],
        dec_text(a.sequence_size as nat),
        alignment_text(a.alignment),
    ]
}

pub open spec fn i_fields(a: AlignedView, c: AlignedContext) -> Seq<Seq<char>> {
    seq![
        seq!['i'],
        a.seq,
        seq![aligned_status_char(c.left_status)],
        dec_text(c.left_count as nat),
        seq![aligned_status_char(c.right_status)],
        dec_text(c.right_count as nat),
    ]
}

pub open spec fn e_fields(u: UnalignedView) -> Seq<Seq<char>> {
    seq![
        seq!['e'],
        u.seq,
        dec_text(u.start as nat),
        dec_text(u.size as nat),
        seq![strand_char(u.strand)],
        dec_text(u.sequence_size as nat),
        seq![unaligned_status_char(u.status)],
    ]
}

/// The lines an entry is written as, without their line breaks.
pub open spec fn lines_of_entry(e: EntryView) -> Seq<Seq<char>> {
    match e {
        EntryView::Aligned(a) => match a.context {
            Some(c) => seq![joined(s_fields(a), seq![' ']), joined(i_fields(a, c), seq![' '])],
            None => seq![joined(s_fields(a), seq![' '])],
        },
        EntryView::Unaligned(u) => seq![joined(e_fields(u), seq![' '])],
    }
}

pub open spec fn lines_of_entries(es: Seq<EntryView>) -> Seq<Seq<char>>
    decreases es.len(),
{
    if es.len() == 0 {
        seq![]
    } else {
        lines_of_entries(es.drop_last()) + lines_of_entry(es.last())
    }
}

/// An entry that is written and read back unchanged: names and alignment
/// text are fields, the alignment is UTF-8, and there are no qualities.
pub open spec fn entry_wf(e: EntryView) -> bool {
    match e {
        EntryView::Aligned(a) => field_ok(a.seq) && valid_utf8(a.alignment) && field_ok(
            alignment_text(a.alignment),
        ) && a.qualities is None,
        EntryView::Unaligned(u) => field_ok(u.seq),
    }
}

proof fn lemma_dec_field(n: nat)
    ensures
        field_ok(dec_text(n)),
{
    lemma_dec_text_digits(n);
    assert forall|i: int| 0 <= i < dec_text(n).len() implies !is_ws(#[trigger] dec_text(n)[i]) by {
        assert(is_digit(dec_text(n)[i]));
    }
}

proof fn lemma_char_field(c: char)
    requires
        !is_ws(c),
    ensures
        field_ok(seq![c]),
{
}

proof fn lemma_fields_ok(fs: Seq<Seq<char>>)
    requires
        forall|i: int| 0 <= i < fs.len() ==> field_ok(#[trigger] fs[i]),
    ensures
        forall|i: int| 0 <= i < fs.len() ==> (#[trigger] fs[i]).len() > 0 && ws_free(fs[i]),
{
}

/// A joined line of fields is a plain line.
proof fn lemma_joined_plain(fs: Seq<Seq<char>>)
    requires
        fs.len() > 0,
        forall|i: int| 0 <= i < fs.len() ==> field_ok(#[trigger] fs[i]),
    ensures
        plain_line(joined(fs, seq![' '])),
        joined(fs, seq![' ']).len() > 0,
        joined(fs, seq![' '])[0] == fs[0][0],
    decreases fs.len(),
{
    let j = joined(fs, seq![' ']);
    if fs.len() == 1 {
    } else {
        let t = fs.drop_last();
        assert forall|i: int| 0 <= i < t.len() implies field_ok(#[trigger] t[i]) by {
            assert(t[i] == fs[i]);
        }
        lemma_joined_plain(t);
        let jt = joined(t, seq![' ']);
        let l = fs.last();
        assert(field_ok(fs[fs.len() - 1]));
        assert(j == jt + seq![' '] + l);
        assert forall|i: int| 0 <= i < j.len() implies #[trigger] j[i] != '\n' by {
            if i < jt.len() {
                assert(j[i] == jt[i]);
            } else if i == jt.len() {
            } else {
                assert(j[i] == l[i - jt.len() - 1]);
                assert(!is_ws(l[i - jt.len() - 1]));
            }
        }
        assert(j.last() == l.last());
        assert(!is_ws(l[l.len() - 1]));
        assert(j[0] == jt[0]);
        assert(t[0] == fs[0]);
    }
}

proof fn lemma_one_char_words(c: char, d: char)
    ensures
        (seq![c] == seq![d]) == (c == d),
{
    if seq![c] == seq![d] {
        assert(seq![c][0] == seq![d][0]);
    }
}

proof fn lemma_strand_round_trip(s: crate::model::Strand)
    ensures
        crate::parser::strand_of(seq![strand_char(s)]) == Some(s),
{
    lemma_one_char_words('-', '+');
}

proof fn lemma_aligned_status_round_trip(st: crate::model::AlignedContextStatus)
    ensures
        aligned_status_of(seq![aligned_status_char(st)]) == Some(st),
{
    let c = aligned_status_char(st);
    lemma_one_char_words(c, 'C');
    lemma_one_char_words(c, 'I');
    lemma_one_char_words(c, 'N');
    lemma_one_char_words(c, 'n');
    lemma_one_char_words(c, 'M');
    lemma_one_char_words(c, 'T');
}

proof fn lemma_unaligned_status_round_trip(st: crate::model::UnalignedContextStatus)
    ensures
        crate::parser::unaligned_status_of(seq![unaligned_status_char(st)]) == Some(st),
{
    let c = unaligned_status_char(st);
    lemma_one_char_words(c, 'C');
    lemma_one_char_words(c, 'I');
    lemma_one_char_words(c, 'M');
    lemma_one_char_words(c, 'n');
    lemma_one_char_words(c, 'T');
}

proof fn lemma_entry_text(e: EntryView)
    ensures
        crate::output::entry_text(e) == lines_text(lines_of_entry(e)),
{
    reveal_with_fuel(joined, 8);
    reveal_with_fuel(lines_text, 3);
    match e {
        EntryView::Aligned(a) => {
            assert(crate::output::s_text(a) =~= joined(s_fields(a), seq![' ']) + seq!['\n']);
            match a.context {
                Some(c) => {
                    assert(crate::output::i_text(a, c) =~= joined(i_fields(a, c), seq![' ']) + seq!['\n']);
                    let l = lines_of_entry(e);
                    assert(l.drop_first().drop_first() =~= Seq::<Seq<char>>::empty());
                    assert(lines_text(l) =~= l[0] + seq!['\n'] + (l[1] + seq!['\n'] + Seq::<char>::empty()));
                },
                None => {
                    let l = lines_of_entry(e);
                    assert(l.drop_first() =~= Seq::<Seq<char>>::empty());
                    assert(lines_text(l) =~= l[0] + seq!['\n'] + Seq::<char>::empty());
                },
            }
        },
        EntryView::Unaligned(u) => {
            assert(crate::output::e_text(u) =~= joined(e_fields(u), seq![' ']) + seq!['\n']);
            let l = lines_of_entry(e);
            assert(l.drop_first() =~= Seq::<Seq<char>>::empty());
            assert(lines_text(l) =~= l[0] + seq!['\n'] + Seq::<char>::empty());
        },
    }
}

proof fn lemma_entries_text(es: Seq<EntryView>)
    ensures
        crate::output::entries_text(es) == lines_text(lines_of_entries(es)),
    decreases es.len(),
{
    if es.len() == 0 {
    } else {
        lemma_entries_text(es.drop_last());
        lemma_entry_text(es.last());
        lemma_lines_text_append(lines_of_entries(es.drop_last()), lines_of_entry(es.last()));
    }
}

proof fn lemma_apply_lines_append(acc: Seq<EntryView>, a: Seq<Seq<char>>, b: Seq<Seq<char>>)
    ensures
        apply_lines(acc, a + b) == match apply_lines(acc, a) {
            Ok(x) => apply_lines(x, b),
            Err(k) => Err(k),
        },
    decreases a.len(),
{
    if a.len() == 0 {
        assert(a + b =~= b);
    } else {
        assert((a + b)[0] == a[0]);
        assert((a + b).drop_first() =~= a.drop_first() + b);
        match apply_line(acc, words(a[0])) {
            Ok(n) => {
                lemma_apply_lines_append(n, a.drop_first(), b);
            },
            Err(k) => {},
        }
    }
}

proof fn lemma_s_fields_ok(a: AlignedView)
    requires
        field_ok(a.seq),
        field_ok(alignment_text(a.alignment)),
    ensures
        forall|i: int| 0 <= i < s_fields(a).len() ==> field_ok(#[trigger] s_fields(a)[i]),
        words(joined(s_fields(a), seq![' '])) == s_fields(a),
{
    lemma_dec_field(a.start as nat);
    lemma_dec_field(a.aligned_length as nat);
    lemma_dec_field(a.sequence_size as nat);
    lemma_char_field('s');
    lemma_char_field(strand_char(a.strand));
    let f = s_fields(a);
    assert forall|i: int| 0 <= i < f.len() implies field_ok(#[trigger] f[i]) by {
        if i == 0 { assert(f[0] == seq!['s']); }
    }
    law_words_of_joined(f);
}

proof fn lemma_i_fields_ok(a: AlignedView, c: AlignedContext)
    requires
        field_ok(a.seq),
    ensures
        forall|i: int| 0 <= i < i_fields(a, c).len() ==> field_ok(#[trigger] i_fields(a, c)[i]),
        words(joined(i_fields(a, c), seq![' '])) == i_fields(a, c),
{
    lemma_dec_field(c.left_count as nat);
    lemma_dec_field(c.right_count as nat);
    lemma_char_field('i');
    lemma_char_field(aligned_status_char(c.left_status));
    lemma_char_field(aligned_status_char(c.right_status));
    let f = i_fields(a, c);
    assert forall|i: int| 0 <= i < f.len() implies field_ok(#[trigger] f[i]) by {}
    law_words_of_joined(f);
}

proof fn lemma_e_fields_ok(u: UnalignedView)
    requires
        field_ok(u.seq),
    ensures
        forall|i: int| 0 <= i < e_fields(u).len() ==> field_ok(#[trigger] e_fields(u)[i]),
        words(joined(e_fields(u), seq![' '])) == e_fields(u),
{
    lemma_dec_field(u.start as nat);
    lemma_dec_field(u.size as nat);
    lemma_dec_field(u.sequence_size as nat);
    lemma_char_field('e');
    lemma_char_field(strand_char(u.strand));
    lemma_char_field(unaligned_status_char(u.status));
    let f = e_fields(u);
    assert forall|i: int| 0 <= i < f.len() implies field_ok(#[trigger] f[i]) by {}
    law_words_of_joined(f);
}

/// The lines of one entry, read after others, add that entry.
proof fn lemma_apply_entry(acc: Seq<EntryView>, e: EntryView)
    requires
        entry_wf(e),
    ensures
        apply_lines(acc, lines_of_entry(e)) == Ok::<Seq<EntryView>, FailKind>(acc.push(e)),
{
    let l = lines_of_entry(e);
    lemma_one_char_words('i', 's');
    lemma_one_char_words('e', 's');
    lemma_one_char_words('e', 'i');
    match e {
        EntryView::Aligned(a) => {
            lemma_s_fields_ok(a);
            let f = s_fields(a);
            law_decimal_round_trip(a.start);
            law_decimal_round_trip(a.aligned_length);
            law_decimal_round_trip(a.sequence_size);
            lemma_strand_round_trip(a.strand);
            vstd::utf8::decode_utf8_encode_utf8(a.alignment);
            let plain = AlignedView { context: None, ..a };
            assert(crate::parser::s_line(acc, f) == Ok::<Seq<EntryView>, FailKind>(
                acc.push(EntryView::Aligned(plain)),
            ));
            assert(apply_line(acc, words(l[0])) == Ok::<Seq<EntryView>, FailKind>(
                acc.push(EntryView::Aligned(plain)),
            ));
            assert(apply_lines(acc, l) == apply_lines(acc.push(EntryView::Aligned(plain)), l.drop_first()));
            match a.context {
                None => {
                    assert(plain == a);
                    assert(l.drop_first() =~= Seq::<Seq<char>>::empty());
                    assert(apply_lines(acc.push(EntryView::Aligned(plain)), l.drop_first()) == Ok::<Seq<EntryView>, FailKind>(acc.push(e)));
                    assert(apply_lines(acc, l) == Ok::<Seq<EntryView>, FailKind>(acc.push(e)));
                },
                Some(c) => {
                    let acc1 = acc.push(EntryView::Aligned(plain));
                    lemma_i_fields_ok(a, c);
                    law_decimal_round_trip(c.left_count);
                    law_decimal_round_trip(c.right_count);
                    lemma_aligned_status_round_trip(c.left_status);
                    lemma_aligned_status_round_trip(c.right_status);
                    let g = i_fields(a, c);
                    assert(acc1.last() == EntryView::Aligned(plain));
                    assert(acc1.update(acc1.len() - 1, EntryView::Aligned(AlignedView { context: Some(c), ..plain })) =~= acc.push(e));
                    assert(i_line(acc1, g) == Ok::<Seq<EntryView>, FailKind>(acc.push(e)));
                    assert(l.drop_first()[0] == l[1]);
                    assert(words(l[1]) == g);
                    assert(g[0] != seq!['s']);
                    assert(apply_line(acc1, words(l[1])) == Ok::<Seq<EntryView>, FailKind>(acc.push(e)));
                    assert(l.drop_first().drop_first() =~= Seq::<Seq<char>>::empty());
                    assert(apply_lines(acc.push(e), l.drop_first().drop_first()) == Ok::<Seq<EntryView>, FailKind>(acc.push(e)));
                    assert(apply_lines(acc1, l.drop_first()) == Ok::<Seq<EntryView>, FailKind>(acc.push(e)));
                    assert(apply_lines(acc, l) == Ok::<Seq<EntryView>, FailKind>(acc.push(e)));
                },
            }
        },
        EntryView::Unaligned(u) => {
            lemma_e_fields_ok(u);
            law_decimal_round_trip(u.start);
            law_decimal_round_trip(u.size);
            law_decimal_round_trip(u.sequence_size);
            lemma_strand_round_trip(u.strand);
            lemma_unaligned_status_round_trip(u.status);
            assert(crate::parser::e_line(acc, e_fields(u)) == Ok::<Seq<EntryView>, FailKind>(acc.push(e)));
            assert(e_fields(u)[0] != seq!['s'] && e_fields(u)[0] != seq!['i']);
            assert(apply_line(acc, words(l[0])) == Ok::<Seq<EntryView>, FailKind>(acc.push(e)));
            assert(l.drop_first() =~= Seq::<Seq<char>>::empty());
            assert(apply_lines(acc.push(e), l.drop_first()) == Ok::<Seq<EntryView>, FailKind>(acc.push(e)));
            assert(apply_lines(acc, l) == Ok::<Seq<EntryView>, FailKind>(acc.push(e)));
        },
    }
}

proof fn lemma_apply_entries(acc: Seq<EntryView>, es: Seq<EntryView>)
    requires
        forall|i: int| 0 <= i < es.len() ==> entry_wf(#[trigger] es[i]),
    ensures
        apply_lines(acc, lines_of_entries(es)) == Ok::<Seq<EntryView>, FailKind>(acc + es),
    decreases es.len(),
{
    if es.len() == 0 {
        assert(acc + es =~= acc);
    } else {
        let t = es.drop_last();
        assert forall|i: int| 0 <= i < t.len() implies entry_wf(#[trigger] t[i]) by {
            assert(t[i] == es[i]);
        }
        lemma_apply_entries(acc, t);
        lemma_apply_lines_append(acc, lines_of_entries(t), lines_of_entry(es.last()));
        assert(entry_wf(es[es.len() - 1]));
        lemma_apply_entry(acc + t, es.last());
        assert((acc + t).push(es.last()) =~= acc + es);
    }
}

/// The header word of a metadata pair.
pub open spec fn kv_word(p: (Seq<char>, Seq<char>)) -> Seq<char> {
    p.0 + seq!['='] + p.1
}

pub open spec fn kv_words(m: Seq<(Seq<char>, Seq<char>)>) -> Seq<Seq<char>> {
    m.map_values(|p: (Seq<char>, Seq<char>)| kv_word(p))
}

pub open spec fn no_equals(a: Seq<char>) -> bool {
    forall|i: int| 0 <= i < a.len() ==> #[trigger] a[i] != '='
}

/// Metadata that is written and read back unchanged: keys and values hold
/// no whitespace and no `=`, and the keys ascend.
pub open spec fn meta_wf(m: Seq<(Seq<char>, Seq<char>)>) -> bool {
    &&& forall|i: int| 0 <= i < m.len() ==> ws_free((#[trigger] m[i]).0) && ws_free(m[i].1)
        && no_equals(m[i].0) && no_equals(m[i].1)
    &&& forall|i: int, j: int| 0 <= i < j < m.len() ==> text_lt((#[trigger] m[i]).0, (#[trigger] m[j]).0)
}

/// A block that is written and read back unchanged.
pub open spec fn block_wf(b: BlockView) -> bool {
    meta_wf(b.metadata) && forall|i: int| 0 <= i < b.entries.len() ==> entry_wf(#[trigger] b.entries[i])
}

proof fn lemma_header_text(m: Seq<(Seq<char>, Seq<char>)>)
    ensures
        seq!['a'] + crate::output::meta_text(m) == joined(seq![seq!['a']] + kv_words(m), seq![' ']),
    decreases m.len(),
{
    if m.len() > 0 {
        lemma_header_text(m.drop_last());
        let s = seq![seq!['a']] + kv_words(m);
        assert(s.drop_last() =~= seq![seq!['a']] + kv_words(m.drop_last()));
        assert(s.last() == kv_word(m.last()));
        assert(seq!['a'] + crate::output::meta_text(m) =~= (seq!['a'] + crate::output::meta_text(m.drop_last())) + seq![' '] + kv_word(m.last()));
    } else {
        assert(seq!['a'] + crate::output::meta_text(m) =~= seq!['a']);
        assert(seq![seq!['a']] + kv_words(m) =~= seq![seq!['a']]);
    }
}

proof fn lemma_kv_parts(p: (Seq<char>, Seq<char>))
    requires
        no_equals(p.0),
        no_equals(p.1),
    ensures
        crate::parser::meta_key(kv_word(p)) == p.0,
        crate::parser::meta_value(kv_word(p)) == p.1,
        crate::text::find_from(kv_word(p), '=', 0) < kv_word(p).len(),
{
    let w = kv_word(p);
    crate::text::lemma_find_from_range(w, '=', 0);
    let k = crate::text::find_from(w, '=', 0);
    assert(w[p.0.len() as int] == '=');
    if k < p.0.len() {
        assert(w[k] == p.0[k]);
    }
    assert(k == p.0.len()) by {
        if k > p.0.len() {
            assert(w[p.0.len() as int] != '=');
        }
    }
    assert(w.take(k) =~= p.0);
    let rest = w.skip(k + 1);
    assert(rest =~= p.1);
    crate::text::lemma_find_from_range(rest, '=', 0);
    let e = crate::text::find_from(rest, '=', 0);
    if e < rest.len() {
        assert(rest[e] == p.1[e]);
    }
    assert(rest.take(e) =~= p.1);
}

proof fn lemma_meta_insert_last(m: Seq<(Seq<char>, Seq<char>)>, k: Seq<char>, v: Seq<char>)
    requires
        forall|i: int| 0 <= i < m.len() ==> text_lt((#[trigger] m[i]).0, k),
    ensures
        crate::parser::meta_insert(m, k, v) == m.push((k, v)),
    decreases m.len(),
{
    if m.len() > 0 {
        crate::ranges::lemma_text_lt_irrefl(k);
        crate::ranges::lemma_text_lt_total(m[0].0, k);
        let t = m.drop_first();
        assert forall|i: int| 0 <= i < t.len() implies text_lt((#[trigger] t[i]).0, k) by {
            assert(t[i] == m[i + 1]);
        }
        lemma_meta_insert_last(t, k, v);
        assert(seq![m[0]] + t.push((k, v)) =~= m.push((k, v)));
    }
}

proof fn lemma_meta_of_kv_words(m: Seq<(Seq<char>, Seq<char>)>)
    requires
        meta_wf(m),
    ensures
        meta_of_words(kv_words(m)) == m,
    decreases m.len(),
{
    if m.len() > 0 {
        let t = m.drop_last();
        assert(meta_wf(t)) by {
            assert forall|i: int| 0 <= i < t.len() implies ws_free((#[trigger] t[i]).0) && ws_free(t[i].1)
                && no_equals(t[i].0) && no_equals(t[i].1) by {
                assert(t[i] == m[i]);
            }
            assert forall|i: int, j: int| 0 <= i < j < t.len() implies text_lt((#[trigger] t[i]).0, (#[trigger] t[j]).0) by {
                assert(t[i] == m[i] && t[j] == m[j]);
            }
        }
        lemma_meta_of_kv_words(t);
        assert(kv_words(m).drop_last() =~= kv_words(t));
        let last = m[m.len() - 1];
        assert(kv_words(m).last() == kv_word(last));
        lemma_kv_parts(last);
        assert forall|i: int| 0 <= i < t.len() implies text_lt((#[trigger] t[i]).0, last.0) by {
            assert(t[i] == m[i]);
        }
        lemma_meta_insert_last(t, last.0, last.1);
        assert(t.push((last.0, last.1)) =~= m);
    }
}

proof fn lemma_kv_fields(m: Seq<(Seq<char>, Seq<char>)>)
    requires
        meta_wf(m),
    ensures
        forall|i: int| 0 <= i < (seq![seq!['a']] + kv_words(m)).len() ==> field_ok(#[trigger] (seq![seq!['a']] + kv_words(m))[i]),
        forall|i: int| 0 <= i < kv_words(m).len() ==> crate::text::find_from(#[trigger] kv_words(m)[i], '=', 0) < kv_words(m)[i].len(),
{
    let s = seq![seq!['a']] + kv_words(m);
    assert forall|i: int| 0 <= i < s.len() implies field_ok(#[trigger] s[i]) by {
        if i > 0 {
            let p = m[i - 1];
            assert(s[i] == kv_word(p));
            let w = kv_word(p);
            assert forall|j: int| 0 <= j < w.len() implies !is_ws(#[trigger] w[j]) by {
                if j < p.0.len() {
                    assert(w[j] == p.0[j]);
                } else if j > p.0.len() {
                    assert(w[j] == p.1[j - p.0.len() - 1]);
                }
            }
        }
    }
    assert forall|i: int| 0 <= i < kv_words(m).len() implies crate::text::find_from(#[trigger] kv_words(m)[i], '=', 0) < kv_words(m)[i].len() by {
        lemma_kv_parts(m[i]);
    }
}

proof fn lemma_entry_lines_one(e: EntryView)
    requires
        entry_wf(e),
    ensures
        forall|i: int| 0 <= i < lines_of_entry(e).len() ==> plain_line(#[trigger] lines_of_entry(e)[i]) && !crate::parser::is_blank(lines_of_entry(e)[i]),
{
    let l = lines_of_entry(e);
    match e {
        EntryView::Aligned(a) => {
            lemma_s_fields_ok(a);
            lemma_joined_plain(s_fields(a));
            if let Some(c) = a.context {
                lemma_i_fields_ok(a, c);
                lemma_joined_plain(i_fields(a, c));
            }
        },
        EntryView::Unaligned(u) => {
            lemma_e_fields_ok(u);
            lemma_joined_plain(e_fields(u));
        },
    }
    assert forall|i: int| 0 <= i < l.len() implies plain_line(#[trigger] l[i]) && !crate::parser::is_blank(l[i]) by {}
}

#[verifier::rlimit(30)]
proof fn lemma_entry_lines_ok(es: Seq<EntryView>)
    requires
        forall|i: int| 0 <= i < es.len() ==> entry_wf(#[trigger] es[i]),
    ensures
        forall|i: int| 0 <= i < lines_of_entries(es).len() ==> plain_line(#[trigger] lines_of_entries(es)[i]) && !crate::parser::is_blank(lines_of_entries(es)[i]),
    decreases es.len(),
{
    if es.len() > 0 {
        let t = es.drop_last();
        assert forall|i: int| 0 <= i < t.len() implies entry_wf(#[trigger] t[i]) by {
            assert(t[i] == es[i]);
        }
        lemma_entry_lines_ok(t);
        let e = es.last();
        assert(entry_wf(es[es.len() - 1]));
        let l = lines_of_entry(e);
        lemma_entry_lines_one(e);
        let all = lines_of_entries(es);
        let pre = lines_of_entries(t);
        assert forall|i: int| 0 <= i < all.len() implies plain_line(#[trigger] all[i]) && !crate::parser::is_blank(all[i]) by {
            if i < pre.len() {
                assert(all[i] == pre[i]);
            } else {
                assert(all[i] == l[i - pre.len()]);
            }
        }
    }
}

proof fn lemma_block_end_run(ls: Seq<Seq<char>>, i: int, k: int)
    requires
        0 <= i <= k < ls.len(),
        forall|j: int| i <= j < k ==> !crate::parser::is_blank(#[trigger] ls[j]),
        crate::parser::is_blank(ls[k]),
    ensures
        crate::parser::block_end(ls, i) == k,
    decreases k - i,
{
    if i < k {
        lemma_block_end_run(ls, i + 1, k);
    }
}

/// Writing a well-formed block and reading the text back gives the same
/// block, and the reader stops at the end of the text; so writing what was
/// read gives the text back.
pub proof fn law_round_trip(b: BlockView)
    requires
        block_wf(b),
    ensures
        item_step(text_lines(block_text(b)), 0) == ItemStep::Block(b),
        step_next(text_lines(block_text(b)), 0) == text_lines(block_text(b)).len(),
        block_text(item_step(text_lines(block_text(b)), 0)->Block_0) == block_text(b),
{
    let m = b.metadata;
    let es = b.entries;
    let hf = seq![seq!['a']] + kv_words(m);
    let header = seq!['a'] + crate::output::meta_text(m);
    lemma_header_text(m);
    lemma_kv_fields(m);
    lemma_fields_ok(hf);
    law_words_of_joined(hf);
    lemma_joined_plain(hf);
    let el = lines_of_entries(es);
    lemma_entry_lines_ok(es);
    lemma_entries_text(es);
    let all = seq![header] + el + seq![Seq::<char>::empty()];
    reveal_with_fuel(lines_text, 2);
    lemma_lines_text_append(seq![header], el);
    lemma_lines_text_append(seq![header] + el, seq![Seq::<char>::empty()]);
    assert(lines_text(seq![header]) =~= header + seq!['\n']);
    assert(lines_text(seq![Seq::<char>::empty()]) =~= seq!['\n']);
    assert(block_text(b) =~= lines_text(all));
    assert forall|i: int| 0 <= i < all.len() implies plain_line(#[trigger] all[i]) by {
        if 0 < i < all.len() - 1 {
            assert(all[i] == el[i - 1]);
        }
    }
    lemma_lines_text_split(all, seq![]);
    assert(lines_text(all) + seq![] =~= lines_text(all));
    assert(text_lines(Seq::<char>::empty()) =~= Seq::<Seq<char>>::empty());
    assert(all + Seq::<Seq<char>>::empty() =~= all);
    let ls = text_lines(block_text(b));
    assert(ls == all);
    assert(ls[0] == header);
    assert(words(header) == hf);
    assert(!crate::parser::is_blank(ls[0]));
    assert(crate::parser::first_nonblank(ls, 0) == 0);
    assert(header[0] == 'a');
    assert(crate::parser::header_words(header) =~= kv_words(m));
    lemma_meta_of_kv_words(m);
    assert(header_meta(header) == Some(m));
    let end: int = 1 + el.len() as int;
    assert(ls[end] == Seq::<char>::empty());
    assert(words(Seq::<char>::empty()) =~= Seq::<Seq<char>>::empty());
    assert forall|j: int| 1 <= j < end implies !crate::parser::is_blank(#[trigger] ls[j]) by {
        assert(ls[j] == el[j - 1]);
    }
    lemma_block_end_run(ls, 1, end);
    assert(ls.subrange(1, end) =~= el);
    lemma_apply_entries(seq![], es);
    assert(Seq::<EntryView>::empty() + es =~= es);
    assert(crate::parser::block_result(ls[0], ls, 1) == Ok::<(Seq<EntryView>, Seq<(Seq<char>, Seq<char>)>), FailKind>((es, m)));
    assert(crate::model::BlockView { entries: es, metadata: m } == b);
}

/// Text in canonical form, that is the text of some well-formed block, reads
/// as a block whose text is that same text: writing what was read gives the
/// input back.
pub proof fn law_canonical_text_round_trip(x: Seq<char>)
    requires
        exists|b: BlockView| block_wf(b) && block_text(b) == x,
    ensures
        item_step(text_lines(x), 0) is Block,
        block_text(item_step(text_lines(x), 0)->Block_0) == x,
{
    let b = choose|b: BlockView| block_wf(b) && block_text(b) == x;
    law_round_trip(b);
}

proof fn lemma_kept_no_dup(es: Seq<EntryView>, al: Seq<AlignedView>)
    ensures
        forall|t: int| 0 <= t < kept_entries(es, al).len() && (#[trigger] kept_entries(es, al)[t]) is Aligned
            ==> !is_dup(al, genome_of(kept_entries(es, al)[t]->Aligned_0.seq)),
    decreases es.len(),
{
    if es.len() > 0 {
        lemma_kept_no_dup(es.drop_last(), al);
        let k0 = kept_entries(es.drop_last(), al);
        let k = kept_entries(es, al);
        assert forall|t: int| 0 <= t < k.len() && (#[trigger] k[t]) is Aligned implies !is_dup(al, genome_of(k[t]->Aligned_0.seq)) by {
            if t < k0.len() {
                assert(k[t] == k0[t]);
            }
        }
    }
}

proof fn lemma_first_genomes(al: Seq<AlignedView>)
    ensures
        forall|k: int| 0 <= k < al.len() ==> first_genomes(al).contains(genome_of(#[trigger] al[k].seq)),
        forall|i: int, j: int| 0 <= i < j < first_genomes(al).len() ==> #[trigger] first_genomes(al)[i] != #[trigger] first_genomes(al)[j],
    decreases al.len(),
{
    if al.len() > 0 {
        let t = al.drop_last();
        lemma_first_genomes(t);
        let f0 = first_genomes(t);
        let f = first_genomes(al);
        let g = genome_of(al.last().seq);
        assert forall|k: int| 0 <= k < al.len() implies f.contains(genome_of(#[trigger] al[k].seq)) by {
            if k < t.len() {
                assert(al[k] == t[k]);
                let i = choose|i: int| 0 <= i < f0.len() && f0[i] == genome_of(t[k].seq);
                assert(f[i] == f0[i]);
            } else if !f0.contains(g) {
                assert(f[f0.len() as int] == g);
            }
        }
        assert forall|i: int, j: int| 0 <= i < j < f.len() implies #[trigger] f[i] != #[trigger] f[j] by {
            if j < f0.len() {
                assert(f[i] == f0[i] && f[j] == f0[j]);
            } else {
                assert(f[i] == f0[i]);
            }
        }
    }
}

proof fn lemma_dup_list(gs: Seq<Seq<char>>, al: Seq<AlignedView>)
    requires
        forall|i: int, j: int| 0 <= i < j < gs.len() ==> #[trigger] gs[i] != #[trigger] gs[j],
    ensures
        forall|x: Seq<char>| #[trigger] dup_list(gs, al).contains(x) <==> gs.contains(x) && is_dup(al, x),
        forall|i: int, j: int| 0 <= i < j < dup_list(gs, al).len() ==> #[trigger] dup_list(gs, al)[i] != #[trigger] dup_list(gs, al)[j],
    decreases gs.len(),
{
    if gs.len() > 0 {
        let t = gs.drop_last();
        assert forall|i: int, j: int| 0 <= i < j < t.len() implies #[trigger] t[i] != #[trigger] t[j] by {
            assert(t[i] == gs[i] && t[j] == gs[j]);
        }
        lemma_dup_list(t, al);
        let d0 = dup_list(t, al);
        let d = dup_list(gs, al);
        let last = gs.last();
        assert(!t.contains(last)) by {
            if t.contains(last) {
                let i = choose|i: int| 0 <= i < t.len() && t[i] == last;
                assert(gs[i] == t[i]);
            }
        }
        assert forall|x: Seq<char>| #[trigger] d.contains(x) <==> gs.contains(x) && is_dup(al, x) by {
            if d.contains(x) {
                let i = choose|i: int| 0 <= i < d.len() && d[i] == x;
                if i < d0.len() {
                    assert(d[i] == d0[i]);
                    assert(d0[i] == x);
                    assert(d0.contains(x));
                    assert(t.contains(x));
                    let j = choose|j: int| 0 <= j < t.len() && t[j] == x;
                    assert(gs[j] == t[j]);
                } else {
                    assert(gs[gs.len() - 1] == x);
                }
            }
            if gs.contains(x) && is_dup(al, x) {
                let j = choose|j: int| 0 <= j < gs.len() && gs[j] == x;
                if j < t.len() {
                    assert(t[j] == x);
                    assert(d0.contains(x));
                    let i = choose|i: int| 0 <= i < d0.len() && d0[i] == x;
                    assert(d[i] == x);
                } else {
                    assert(d[d.len() - 1] == x);
                }
            }
        }
        assert forall|i: int, j: int| 0 <= i < j < d.len() implies #[trigger] d[i] != #[trigger] d[j] by {
            if j < d0.len() {
                assert(d[i] == d0[i] && d[j] == d0[j]);
            } else {
                assert(d[i] == d0[i]);
                assert(d0.contains(d0[i]));
            }
        }
    }
}

/// In mask mode, a duplicated genome has exactly one aligned entry in the
/// merged block, and every base of it is `N`.
pub proof fn law_mask_merged_block(b: BlockView, g: Seq<char>)
    requires
        is_dup(aligned_of(b.entries), g),
    ensures
        ({
            let es = merged_view(b, ConsensusMode::Mask).entries;
            &&& exists|t: int| 0 <= t < es.len() && (#[trigger] es[t]) is Aligned
                && genome_of(es[t]->Aligned_0.seq) == g
                && forall|i: int| 0 <= i < es[t]->Aligned_0.alignment.len() ==> es[t]->Aligned_0.alignment[i] == 78u8
            &&& forall|t1: int, t2: int| 0 <= t1 < es.len() && 0 <= t2 < es.len() && (#[trigger] es[t1]) is Aligned
                && (#[trigger] es[t2]) is Aligned && genome_of(es[t1]->Aligned_0.seq) == g
                && genome_of(es[t2]->Aligned_0.seq) == g ==> t1 == t2
        }),
{
    let al = aligned_of(b.entries);
    let kept = kept_entries(b.entries, al);
    let fg = first_genomes(al);
    let d = dup_list(fg, al);
    let m = merged_entries(al, d, ConsensusMode::Mask);
    let es = merged_view(b, ConsensusMode::Mask).entries;
    assert(es == kept + m);
    lemma_kept_no_dup(b.entries, al);
    lemma_first_genomes(al);
    lemma_dup_list(fg, al);
    crate::coverage::lemma_entries_of_genome(al, g);
    crate::coverage::lemma_indices_of_genome(al, g);
    let k0 = crate::model::indices_of_genome(al, g)[0];
    assert(genome_of(al[k0].seq) == g);
    assert(fg.contains(g));
    assert(d.contains(g));
    // every merged entry belongs to the genome it stands for
    assert forall|t: int| 0 <= t < m.len() implies (#[trigger] m[t]) is Aligned && genome_of(m[t]->Aligned_0.seq) == d[t] by {
        let x = d[t];
        assert(d.contains(x));
        crate::coverage::lemma_entries_of_genome(al, x);
        crate::coverage::lemma_indices_of_genome(al, x);
        let kx = crate::model::indices_of_genome(al, x)[0];
        assert(crate::coverage::entries_of_genome(al, x)[0] == al[kx]);
    }
    let t0 = choose|t: int| 0 <= t < d.len() && d[t] == g;
    let w = kept.len() + t0;
    assert(es[w] == m[t0]);
    law_mask_gives_n(al, g);
    assert forall|t1: int, t2: int| 0 <= t1 < es.len() && 0 <= t2 < es.len() && (#[trigger] es[t1]) is Aligned
        && (#[trigger] es[t2]) is Aligned && genome_of(es[t1]->Aligned_0.seq) == g
        && genome_of(es[t2]->Aligned_0.seq) == g implies t1 == t2 by {
        if t1 < kept.len() {
            assert(es[t1] == kept[t1]);
        }
        if t2 < kept.len() {
            assert(es[t2] == kept[t2]);
        }
        if t1 >= kept.len() && t2 >= kept.len() {
            assert(es[t1] == m[t1 - kept.len()]);
            assert(es[t2] == m[t2 - kept.len()]);
            if t1 != t2 {
                if t1 < t2 {
                    assert(d[t1 - kept.len()] != d[t2 - kept.len()]);
                } else {
                    assert(d[t2 - kept.len()] != d[t1 - kept.len()]);
                }
            }
        }
    }
}

} // verus!
