//! Reading items (comments and blocks) from lines of text.

use crate::model::{
    AlignedContext, AlignedContextStatus, AlignedView, EntryView, MAFBlock, MAFBlockAlignedEntry,
    MAFBlockEntry, MAFBlockUnalignedEntry, MAFItem, Strand, UnalignedContextStatus, UnalignedView,
    pair_view,
};
use crate::text::{
    chars_of, find_from, is_u64_text, parse_u64, split_words, string_of, text_less, text_lt,
    u64_of_text, words,
};
use vstd::prelude::*;
use vstd::slice::slice_to_vec;
use vstd::utf8::encode_utf8;

verus! {

/// Lines of text with a cursor: the next line to be read is `lines[pos]`.
pub struct LinesRef {
    pub lines: Vec<String>,
    pub pos: usize,
}

impl LinesRef {
    pub open spec fn wf(&self) -> bool {
        self.pos <= self.lines.len()
    }

    /// The text of every line, read or not.
    pub open spec fn text(&self) -> Seq<Seq<char>> {
        self.lines@.map_values(|l: String| l@)
    }

    pub fn new(lines: Vec<String>) -> (r: LinesRef)
        ensures
            r.wf(),
            r.lines@ == lines@,
            r.pos == 0,
    {
        LinesRef { lines, pos: 0 }
    }

    /// The lines of `text`: split at each `\n`, a `\r` before it dropped, and
    /// a last line without `\n` kept where it is not empty.
    pub fn from_text(text: &str) -> (r: LinesRef)
        ensures
            r.wf(),
            r.pos == 0,
            r.text() == text_lines(text@),
            r.text() == LinesRef::from_text_spec(text@),
    {
        let cs = chars_of(text);
        let mut lines: Vec<String> = Vec::new();
        let mut cur: Vec<char> = Vec::new();
        let mut i: usize = 0;
        while i < cs.len()
            invariant
                i <= cs.len(),
                cs@ == text@,
                lines@.map_values(|l: String| l@) + lines_from(cs@, i as int, cur@) == text_lines(
                    text@,
                ),
            decreases cs.len() - i,
        {
            if cs[i] == '\n' {
                let ghost c = cur@;
                if cur.len() > 0 && cur[cur.len() - 1] == '\r' {
                    cur.pop();
                }
                assert(cur@ == drop_cr(c));
                let ghost before = lines@;
                lines.push(string_of(cur.as_slice()));
                assert(lines@.map_values(|l: String| l@) =~= before.map_values(|l: String| l@)
                    + seq![drop_cr(c)]);
                cur = Vec::new();
                assert(cur@ =~= seq![]);
            } else {
                cur.push(cs[i]);
            }
            i = i + 1;
        }
        if cur.len() > 0 {
            let ghost before = lines@;
            lines.push(string_of(cur.as_slice()));
            assert(lines@.map_values(|l: String| l@) =~= before.map_values(|l: String| l@) + seq![
                cur@,
            ]);
        } else {
            assert(lines@.map_values(|l: String| l@) =~= lines@.map_values(|l: String| l@)
                + seq![]);
        }
        LinesRef { lines, pos: 0 }
    }

    /// The lines that `from_text` makes of `text`.
    pub open spec fn from_text_spec(text: Seq<char>) -> Seq<Seq<char>> {
        text_lines(text)
    }

    /// The next line, moving the cursor past it.
    pub fn next_line(&mut self) -> (r: Option<String>)
        requires
            old(self).wf(),
        ensures
            final(self).wf(),
            final(self).lines == old(self).lines,
            old(self).pos < old(self).lines.len() ==> r is Some && r->0@ == old(self).text()[old(
                self,
            ).pos as int] && final(self).pos == old(self).pos + 1,
            old(self).pos >= old(self).lines.len() ==> r is None && final(self).pos == old(
                self,
            ).pos,
    {
        if self.pos < self.lines.len() {
            let l = self.lines[self.pos].clone();
            self.pos = self.pos + 1;
            Some(l)
        } else {
            None
        }
    }
}

pub open spec fn drop_cr(c: Seq<char>) -> Seq<char> {
    if c.len() > 0 && c.last() == '\r' {
        c.drop_last()
    } else {
        c
    }
}

/// The lines of `t` from position `i`, `cur` being the line read so far.
pub open spec fn lines_from(t: Seq<char>, i: int, cur: Seq<char>) -> Seq<Seq<char>>
    decreases t.len() - i,
{
    if i >= t.len() {
        if cur.len() > 0 {
            seq![cur]
        } else {
            seq![]
        }
    } else if t[i] == '\n' {
        seq![drop_cr(cur)] + lines_from(t, i + 1, seq![])
    } else {
        lines_from(t, i + 1, cur.push(t[i]))
    }
}

pub open spec fn text_lines(t: Seq<char>) -> Seq<Seq<char>> {
    lines_from(t, 0, seq![])
}

#[derive(Debug)]
pub enum MAFParseError {
    /// The line source failed.
    IOError(String),
    /// A line where none of its kind may stand.
    UnexpectedLine(String),
    /// A header word without `=`.
    BadMetadata,
    /// A block line of an unknown kind.
    BadLineType(String),
    /// A block line of a kind that is not read (`q`).
    UnsupportedLineType(String),
    /// A field that is missing or cannot be read; names the field.
    Misc(&'static str),
    /// No block or comment before the end of input.
    EOF,
}

/// The kinds of failure, as contracts speak of them.
pub enum FailKind {
    Io,
    /// The line (or the sequence name of an `i` line) that is out of place.
    Unexpected(Seq<char>),
    Metadata,
    /// The first word of the block line.
    LineType(Seq<char>),
    Unsupported(Seq<char>),
    /// The message naming the field.
    Field(Seq<char>),
    Eof,
}

pub open spec fn kind_of(e: MAFParseError) -> FailKind {
    match e {
        MAFParseError::IOError(_) => FailKind::Io,
        MAFParseError::UnexpectedLine(l) => FailKind::Unexpected(l@),
        MAFParseError::BadMetadata => FailKind::Metadata,
        MAFParseError::BadLineType(w) => FailKind::LineType(w@),
        MAFParseError::UnsupportedLineType(w) => FailKind::Unsupported(w@),
        MAFParseError::Misc(m) => FailKind::Field(m@),
        MAFParseError::EOF => FailKind::Eof,
    }
}

pub open spec fn strand_of(w: Seq<char>) -> Option<Strand> {
    if w == seq!['+'] {
        Some(Strand::Positive)
    } else if w == seq!['-'] {
        Some(Strand::Negative)
    } else {
        None
    }
}

pub open spec fn aligned_status_of(w: Seq<char>) -> Option<AlignedContextStatus> {
    if w == seq!['C'] {
        Some(AlignedContextStatus::Contiguous)
    } else if w == seq!['I'] {
        Some(AlignedContextStatus::Insertion)
    } else if w == seq!['N'] {
        Some(AlignedContextStatus::FirstInSequence)
    } else if w == seq!['n'] {
        Some(AlignedContextStatus::FirstInSequenceBridged)
    } else if w == seq!['M'] {
        Some(AlignedContextStatus::MissingData)
    } else if w == seq!['T'] {
        Some(AlignedContextStatus::AlreadyUsed)
    } else {
        None
    }
}

pub open spec fn unaligned_status_of(w: Seq<char>) -> Option<UnalignedContextStatus> {
    if w == seq!['C'] {
        Some(UnalignedContextStatus::Deletion)
    } else if w == seq!['I'] {
        Some(UnalignedContextStatus::Insertion)
    } else if w == seq!['M'] {
        Some(UnalignedContextStatus::MissingData)
    } else if w == seq!['n'] {
        Some(UnalignedContextStatus::NewSequence)
    } else if w == seq!['T'] {
        Some(UnalignedContextStatus::AlreadyUsed)
    } else {
        None
    }
}

/// The effect of an `s` line with words `f` on the entries read so far.
pub open spec fn s_line(es: Seq<EntryView>, f: Seq<Seq<char>>) -> Result<Seq<EntryView>, FailKind> {
    if f.len() >= 7 && is_u64_text(f[2]) && is_u64_text(f[3]) && strand_of(f[4]) is Some
        && is_u64_text(f[5]) {
        Ok(
            es.push(
                EntryView::Aligned(
                    AlignedView {
                        alignment: encode_utf8(f[6]),
                        seq: f[1],
                        start: u64_of_text(f[2]),
                        aligned_length: u64_of_text(f[3]),
                        sequence_size: u64_of_text(f[5]),
                        strand: strand_of(f[4])->0,
                        context: None,
                        qualities: None,
                    },
                ),
            ),
        )
    } else {
        Err(s_line_failure(f))
    }
}

/// Which field of an `s` line fails first.
pub open spec fn s_line_failure(f: Seq<Seq<char>>) -> FailKind {
    if f.len() < 7 {
        FailKind::Field("s line incomplete"@)
    } else if !is_u64_text(f[2]) {
        FailKind::Field("invalid start"@)
    } else if !is_u64_text(f[3]) {
        FailKind::Field("invalid aligned length"@)
    } else if strand_of(f[4]) is None {
        FailKind::Field("Strand not valid"@)
    } else {
        FailKind::Field("invalid sequence size"@)
    }
}

/// Which field of an `i` line fails first.
pub open spec fn i_line_failure(f: Seq<Seq<char>>) -> FailKind {
    if f.len() < 6 {
        FailKind::Field("i line incomplete"@)
    } else if aligned_status_of(f[2]) is None {
        FailKind::Field("invalid aligned context status"@)
    } else if !is_u64_text(f[3]) {
        FailKind::Field("invalid left count"@)
    } else if aligned_status_of(f[4]) is None {
        FailKind::Field("invalid aligned context status"@)
    } else {
        FailKind::Field("invalid right count"@)
    }
}

/// Which field of an `e` line fails first.
pub open spec fn e_line_failure(f: Seq<Seq<char>>) -> FailKind {
    if f.len() < 7 {
        FailKind::Field("e line incomplete"@)
    } else if !is_u64_text(f[2]) {
        FailKind::Field("invalid start"@)
    } else if !is_u64_text(f[3]) {
        FailKind::Field("invalid unaligned length"@)
    } else if strand_of(f[4]) is None {
        FailKind::Field("Strand not valid"@)
    } else if !is_u64_text(f[5]) {
        FailKind::Field("invalid sequence size"@)
    } else {
        FailKind::Field("invalid unaligned context status character"@)
    }
}

/// The effect of an `i` line: the context goes to the last entry, which must
/// be an aligned entry of the same sequence.
pub open spec fn i_line(es: Seq<EntryView>, f: Seq<Seq<char>>) -> Result<Seq<EntryView>, FailKind> {
    if !(f.len() >= 6 && aligned_status_of(f[2]) is Some && is_u64_text(f[3])
        && aligned_status_of(f[4]) is Some && is_u64_text(f[5])) {
        Err(i_line_failure(f))
    } else if es.len() == 0 {
        Err(FailKind::Unexpected(seq!['i']))
    } else {
        match es.last() {
            EntryView::Aligned(a) => {
                if a.seq == f[1] {
                    let ctx = AlignedContext {
                        left_status: aligned_status_of(f[2])->0,
                        left_count: u64_of_text(f[3]),
                        right_status: aligned_status_of(f[4])->0,
                        right_count: u64_of_text(f[5]),
                    };
                    Ok(
                        es.update(
                            es.len() - 1,
                            EntryView::Aligned(AlignedView { context: Some(ctx), ..a }),
                        ),
                    )
                } else {
                    Err(FailKind::Unexpected(f[1]))
                }
            },
            EntryView::Unaligned(_) => Err(FailKind::Unexpected(f[1])),
        }
    }
}

/// The effect of an `e` line: a new unaligned entry.
pub open spec fn e_line(es: Seq<EntryView>, f: Seq<Seq<char>>) -> Result<Seq<EntryView>, FailKind> {
    if f.len() >= 7 && is_u64_text(f[2]) && is_u64_text(f[3]) && strand_of(f[4]) is Some
        && is_u64_text(f[5]) && unaligned_status_of(f[6]) is Some {
        Ok(
            es.push(
                EntryView::Unaligned(
                    UnalignedView {
                        seq: f[1],
                        start: u64_of_text(f[2]),
                        size: u64_of_text(f[3]),
                        strand: strand_of(f[4])->0,
                        sequence_size: u64_of_text(f[5]),
                        status: unaligned_status_of(f[6])->0,
                    },
                ),
            ),
        )
    } else {
        Err(e_line_failure(f))
    }
}

/// The effect of one block line with words `f` (at least one).
pub open spec fn apply_line(es: Seq<EntryView>, f: Seq<Seq<char>>) -> Result<
    Seq<EntryView>,
    FailKind,
> {
    if f[0] == seq!['s'] {
        s_line(es, f)
    } else if f[0] == seq!['i'] {
        i_line(es, f)
    } else if f[0] == seq!['e'] {
        e_line(es, f)
    } else if f[0] == seq!['q'] {
        Err(FailKind::Unsupported(f[0]))
    } else {
        Err(FailKind::LineType(f[0]))
    }
}

/// The effect of block lines in order, stopping at the first failure.
pub open spec fn apply_lines(es: Seq<EntryView>, body: Seq<Seq<char>>) -> Result<
    Seq<EntryView>,
    FailKind,
>
    decreases body.len(),
{
    if body.len() == 0 {
        Ok(es)
    } else {
        match apply_line(es, words(body[0])) {
            Ok(next) => apply_lines(next, body.drop_first()),
            Err(k) => Err(k),
        }
    }
}

pub open spec fn is_blank(l: Seq<char>) -> bool {
    words(l).len() == 0
}

/// The first blank line at or after `i`, or the number of lines.
pub open spec fn block_end(ls: Seq<Seq<char>>, i: int) -> int
    decreases ls.len() - i,
{
    if i >= ls.len() || is_blank(ls[i]) {
        i
    } else {
        block_end(ls, i + 1)
    }
}

/// The first line at or after `i` that is not blank, or the number of lines.
pub open spec fn first_nonblank(ls: Seq<Seq<char>>, i: int) -> int
    decreases ls.len() - i,
{
    if i >= ls.len() || !is_blank(ls[i]) {
        i
    } else {
        first_nonblank(ls, i + 1)
    }
}

/// The key of a metadata word: what stands before its first `=`.
pub open spec fn meta_key(w: Seq<char>) -> Seq<char> {
    w.take(find_from(w, '=', 0))
}

/// The value of a metadata word: what stands between its first `=` and the
/// next `=` or the end.
pub open spec fn meta_value(w: Seq<char>) -> Seq<char> {
    let rest = w.skip(find_from(w, '=', 0) + 1);
    rest.take(find_from(rest, '=', 0))
}

/// Puts `(k, v)` into key-ordered pairs `m`, replacing the value of an equal key.
pub open spec fn meta_insert(m: Seq<(Seq<char>, Seq<char>)>, k: Seq<char>, v: Seq<char>) -> Seq<
    (Seq<char>, Seq<char>),
>
    decreases m.len(),
{
    if m.len() == 0 {
        seq![(k, v)]
    } else if m[0].0 == k {
        seq![(k, v)] + m.drop_first()
    } else if text_lt(k, m[0].0) {
        seq![(k, v)] + m
    } else {
        seq![m[0]] + meta_insert(m.drop_first(), k, v)
    }
}

/// The pairs of the metadata words `ws`, later keys replacing earlier ones.
pub open spec fn meta_of_words(ws: Seq<Seq<char>>) -> Seq<(Seq<char>, Seq<char>)>
    decreases ws.len(),
{
    if ws.len() == 0 {
        seq![]
    } else {
        let w = ws.last();
        meta_insert(meta_of_words(ws.drop_last()), meta_key(w), meta_value(w))
    }
}

/// The words of a header line after the first.
pub open spec fn header_words(h: Seq<char>) -> Seq<Seq<char>> {
    if words(h).len() == 0 {
        seq![]
    } else {
        words(h).drop_first()
    }
}

/// The metadata of a header line: none where a word after the first lacks `=`.
pub open spec fn header_meta(h: Seq<char>) -> Option<Seq<(Seq<char>, Seq<char>)>> {
    let ws = header_words(h);
    if forall|j: int| 0 <= j < ws.len() ==> find_from(#[trigger] ws[j], '=', 0) < ws[j].len() {
        Some(meta_of_words(ws))
    } else {
        None
    }
}

/// The block that a header and the lines from `i` make.
pub open spec fn block_result(h: Seq<char>, ls: Seq<Seq<char>>, i: int) -> Result<
    (Seq<EntryView>, Seq<(Seq<char>, Seq<char>)>),
    FailKind,
> {
    match header_meta(h) {
        None => Err(FailKind::Metadata),
        Some(m) => match apply_lines(seq![], ls.subrange(i, block_end(ls, i))) {
            Ok(es) => Ok((es, m)),
            Err(k) => Err(k),
        },
    }
}

/// Where the cursor stands after a block read from `i`: past its blank line.
pub open spec fn after_block(ls: Seq<Seq<char>>, i: int) -> int {
    let e = block_end(ls, i);
    if e < ls.len() {
        e + 1
    } else {
        e
    }
}

pub open spec fn ev(v: Seq<MAFBlockEntry>) -> Seq<EntryView> {
    v.map_values(|e: MAFBlockEntry| e@)
}

pub open spec fn wv(f: Seq<Vec<char>>) -> Seq<Seq<char>> {
    f.map_values(|w: Vec<char>| w@)
}

/// Whether word `w` is the single character `c`.
fn is_word(w: &Vec<char>, c: char) -> (r: bool)
    ensures
        r == (w@ == seq![c]),
{
    let r = w.len() == 1 && w[0] == c;
    if r {
        assert(w@ =~= seq![c]);
    }
    r
}

fn parse_strand(strand: &Vec<char>) -> (r: Result<Strand, MAFParseError>)
    ensures
        match strand_of(strand@) {
            Some(s) => r == Ok::<Strand, MAFParseError>(s),
            None => r is Err && kind_of(r->Err_0) == FailKind::Field("Strand not valid"@),
        },
{
    if is_word(strand, '+') {
        Ok(Strand::Positive)
    } else if is_word(strand, '-') {
        Ok(Strand::Negative)
    } else {
        Err(MAFParseError::Misc("Strand not valid"))
    }
}

fn parse_aligned_context_status(status: &Vec<char>) -> (r: Result<AlignedContextStatus, MAFParseError>)
    ensures
        match aligned_status_of(status@) {
            Some(s) => r == Ok::<AlignedContextStatus, MAFParseError>(s),
            None => r is Err && kind_of(r->Err_0) == FailKind::Field("invalid aligned context status"@),
        },
{
    if is_word(status, 'C') {
        Ok(AlignedContextStatus::Contiguous)
    } else if is_word(status, 'I') {
        Ok(AlignedContextStatus::Insertion)
    } else if is_word(status, 'N') {
        Ok(AlignedContextStatus::FirstInSequence)
    } else if is_word(status, 'n') {
        Ok(AlignedContextStatus::FirstInSequenceBridged)
    } else if is_word(status, 'M') {
        Ok(AlignedContextStatus::MissingData)
    } else if is_word(status, 'T') {
        Ok(AlignedContextStatus::AlreadyUsed)
    } else {
        Err(MAFParseError::Misc("invalid aligned context status"))
    }
}

fn parse_unaligned_context_status(status: &Vec<char>) -> (r: Result<UnalignedContextStatus, MAFParseError>)
    ensures
        match unaligned_status_of(status@) {
            Some(s) => r == Ok::<UnalignedContextStatus, MAFParseError>(s),
            None => r is Err && kind_of(r->Err_0) == FailKind::Field("invalid unaligned context status character"@),
        },
{
    if is_word(status, 'C') {
        Ok(UnalignedContextStatus::Deletion)
    } else if is_word(status, 'I') {
        Ok(UnalignedContextStatus::Insertion)
    } else if is_word(status, 'M') {
        Ok(UnalignedContextStatus::MissingData)
    } else if is_word(status, 'n') {
        Ok(UnalignedContextStatus::NewSequence)
    } else if is_word(status, 'T') {
        Ok(UnalignedContextStatus::AlreadyUsed)
    } else {
        Err(MAFParseError::Misc("invalid unaligned context status character"))
    }
}

/// Field `i` read as a number.
fn field_u64(fields: &Vec<Vec<char>>, i: usize, what: &'static str) -> (r: Result<u64, MAFParseError>)
    requires
        i < fields.len(),
    ensures
        is_u64_text(fields@[i as int]@) ==> r == Ok::<u64, MAFParseError>(u64_of_text(fields@[i as int]@)),
        !is_u64_text(fields@[i as int]@) ==> r is Err && kind_of(r->Err_0) == FailKind::Field(what@),
{
    match parse_u64(fields[i].as_slice()) {
        Some(v) => Ok(v),
        None => Err(MAFParseError::Misc(what)),
    }
}

pub fn update_from_s_line(fields: &Vec<Vec<char>>, block_entries: &mut Vec<MAFBlockEntry>) -> (r: Result<(), MAFParseError>)
    ensures
        match s_line(ev(old(block_entries)@), wv(fields@)) {
            Ok(n) => r is Ok && ev(final(block_entries)@) == n,
            Err(k) => r is Err && kind_of(r->Err_0) == k && final(block_entries)@ == old(block_entries)@,
        },
{
    if fields.len() < 7 {
        return Err(MAFParseError::Misc("s line incomplete"));
    }
    let start = match field_u64(fields, 2, "invalid start") {
        Ok(v) => v,
        Err(e) => return Err(e),
    };
    let aligned_length = match field_u64(fields, 3, "invalid aligned length") {
        Ok(v) => v,
        Err(e) => return Err(e),
    };
    let strand = match parse_strand(&fields[4]) {
        Ok(v) => v,
        Err(e) => return Err(e),
    };
    let sequence_size = match field_u64(fields, 5, "invalid sequence size") {
        Ok(v) => v,
        Err(e) => return Err(e),
    };
    let text = string_of(fields[6].as_slice());
    let alignment = slice_to_vec(text.as_str().as_bytes());
    let entry = MAFBlockAlignedEntry {
        alignment,
        seq: string_of(fields[1].as_slice()),
        start,
        aligned_length,
        sequence_size,
        strand,
        context: None,
        qualities: None,
    };
    let ghost before = block_entries@;
    block_entries.push(MAFBlockEntry::AlignedEntry(entry));
    proof {
        let f = wv(fields@);
        assert(f[2] == fields@[2]@ && f[3] == fields@[3]@ && f[4] == fields@[4]@);
        assert(f[5] == fields@[5]@ && f[6] == fields@[6]@ && f[1] == fields@[1]@);
        assert(ev(block_entries@) =~= ev(before).push(block_entries@.last()@));
    }
    Ok(())
}

pub fn update_from_i_line(fields: &Vec<Vec<char>>, block_entries: &mut Vec<MAFBlockEntry>) -> (r: Result<(), MAFParseError>)
    ensures
        match i_line(ev(old(block_entries)@), wv(fields@)) {
            Ok(n) => r is Ok && ev(final(block_entries)@) == n,
            Err(k) => r is Err && kind_of(r->Err_0) == k && final(block_entries)@ == old(block_entries)@,
        },
{
    let ghost f = wv(fields@);
    if fields.len() < 6 {
        return Err(MAFParseError::Misc("i line incomplete"));
    }
    assert(f[1] == fields@[1]@ && f[2] == fields@[2]@ && f[3] == fields@[3]@);
    assert(f[4] == fields@[4]@ && f[5] == fields@[5]@);
    let left_status = match parse_aligned_context_status(&fields[2]) {
        Ok(v) => v,
        Err(e) => return Err(e),
    };
    let left_count = match field_u64(fields, 3, "invalid left count") {
        Ok(v) => v,
        Err(e) => return Err(e),
    };
    let right_status = match parse_aligned_context_status(&fields[4]) {
        Ok(v) => v,
        Err(e) => return Err(e),
    };
    let right_count = match field_u64(fields, 5, "invalid right count") {
        Ok(v) => v,
        Err(e) => return Err(e),
    };
    let context = AlignedContext { left_status, left_count, right_status, right_count };
    let n = block_entries.len();
    if n == 0 {
        let mut tag: Vec<char> = Vec::new();
        tag.push('i');
        assert(tag@ =~= seq!['i']);
        return Err(MAFParseError::UnexpectedLine(string_of(tag.as_slice())));
    }
    let seq = string_of(fields[1].as_slice());
    let updated = match &block_entries[n - 1] {
        MAFBlockEntry::AlignedEntry(e) => {
            if e.seq != seq {
                return Err(MAFParseError::UnexpectedLine(seq));
            }
            MAFBlockAlignedEntry {
                alignment: e.alignment.clone(),
                seq: e.seq.clone(),
                start: e.start,
                aligned_length: e.aligned_length,
                sequence_size: e.sequence_size,
                strand: e.strand,
                context: Some(context),
                qualities: match &e.qualities {
                    Some(q) => Some(q.clone()),
                    None => None,
                },
            }
        },
        MAFBlockEntry::UnalignedEntry(_) => {
            return Err(MAFParseError::UnexpectedLine(seq));
        },
    };
    let ghost before = block_entries@;
    proof {
        let old_e = before[n - 1];
        assert(ev(before).last() == old_e@);
        if let MAFBlockEntry::AlignedEntry(e) = old_e {
            assert(updated.alignment@ =~= e.alignment@);
            if e.qualities is Some {
                assert(updated.qualities->0@ =~= e.qualities->0@);
            }
        }
    }
    block_entries.set(n - 1, MAFBlockEntry::AlignedEntry(updated));
    proof {
        assert(ev(block_entries@) =~= ev(before).update(n - 1, block_entries@[n - 1]@));
    }
    Ok(())
}

pub fn update_from_e_line(fields: &Vec<Vec<char>>, block_entries: &mut Vec<MAFBlockEntry>) -> (r: Result<(), MAFParseError>)
    ensures
        match e_line(ev(old(block_entries)@), wv(fields@)) {
            Ok(n) => r is Ok && ev(final(block_entries)@) == n,
            Err(k) => r is Err && kind_of(r->Err_0) == k && final(block_entries)@ == old(block_entries)@,
        },
{
    let ghost f = wv(fields@);
    if fields.len() < 7 {
        return Err(MAFParseError::Misc("e line incomplete"));
    }
    assert(f[1] == fields@[1]@ && f[2] == fields@[2]@ && f[3] == fields@[3]@);
    assert(f[4] == fields@[4]@ && f[5] == fields@[5]@ && f[6] == fields@[6]@);
    let start = match field_u64(fields, 2, "invalid start") {
        Ok(v) => v,
        Err(e) => return Err(e),
    };
    let size = match field_u64(fields, 3, "invalid unaligned length") {
        Ok(v) => v,
        Err(e) => return Err(e),
    };
    let strand = match parse_strand(&fields[4]) {
        Ok(v) => v,
        Err(e) => return Err(e),
    };
    let sequence_size = match field_u64(fields, 5, "invalid sequence size") {
        Ok(v) => v,
        Err(e) => return Err(e),
    };
    let status = match parse_unaligned_context_status(&fields[6]) {
        Ok(v) => v,
        Err(e) => return Err(e),
    };
    let ghost before = block_entries@;
    block_entries.push(
        MAFBlockEntry::UnalignedEntry(
            MAFBlockUnalignedEntry {
                seq: string_of(fields[1].as_slice()),
                start,
                size,
                strand,
                sequence_size,
                status,
            },
        ),
    );
    proof {
        assert(ev(block_entries@) =~= ev(before).push(block_entries@.last()@));
    }
    Ok(())
}

/// Applies one block line (its words, at least one) to the entries read so far.
pub fn update_from_line(fields: &Vec<Vec<char>>, block_entries: &mut Vec<MAFBlockEntry>) -> (r: Result<(), MAFParseError>)
    requires
        fields.len() >= 1,
    ensures
        match apply_line(ev(old(block_entries)@), wv(fields@)) {
            Ok(n) => r is Ok && ev(final(block_entries)@) == n,
            Err(k) => r is Err && kind_of(r->Err_0) == k && final(block_entries)@ == old(block_entries)@,
        },
{
    assert(wv(fields@)[0] == fields@[0]@);
    if is_word(&fields[0], 's') {
        update_from_s_line(fields, block_entries)
    } else if is_word(&fields[0], 'i') {
        update_from_i_line(fields, block_entries)
    } else if is_word(&fields[0], 'e') {
        update_from_e_line(fields, block_entries)
    } else if is_word(&fields[0], 'q') {
        Err(MAFParseError::UnsupportedLineType(string_of(fields[0].as_slice())))
    } else {
        Err(MAFParseError::BadLineType(string_of(fields[0].as_slice())))
    }
}

pub open spec fn mv(m: Seq<(String, String)>) -> Seq<(Seq<char>, Seq<char>)> {
    m.map_values(|p: (String, String)| pair_view(p))
}

/// Goes from "key=value" to (key, value).
fn split_metadata_pairs(pair: &Vec<char>) -> (r: Result<(String, String), MAFParseError>)
    ensures
        find_from(pair@, '=', 0) < pair@.len() ==> r is Ok && r->Ok_0.0@ == meta_key(pair@)
            && r->Ok_0.1@ == meta_value(pair@),
        find_from(pair@, '=', 0) >= pair@.len() ==> r is Err && kind_of(r->Err_0)
            == FailKind::Metadata,
{
    let k = crate::text::find_char(pair.as_slice(), '=');
    if k >= pair.len() {
        return Err(MAFParseError::BadMetadata);
    }
    let key = string_of(&pair.as_slice()[0..k]);
    let rest = &pair.as_slice()[k + 1..pair.len()];
    let e = crate::text::find_char(rest, '=');
    let value = string_of(&rest[0..e]);
    proof {
        assert(key@ =~= meta_key(pair@));
        assert(rest@ =~= pair@.skip(k + 1));
        assert(value@ =~= meta_value(pair@));
    }
    Ok((key, value))
}

/// Before position `i` no key equals or follows `k`, so insertion happens
/// past them.
proof fn lemma_meta_insert_skip(m: Seq<(Seq<char>, Seq<char>)>, k: Seq<char>, v: Seq<char>, i: int)
    requires
        0 <= i <= m.len(),
        forall|j: int| 0 <= j < i ==> m[j].0 != k && !text_lt(k, #[trigger] m[j].0),
    ensures
        meta_insert(m, k, v) == m.take(i) + meta_insert(m.skip(i), k, v),
    decreases i,
{
    if i == 0 {
        assert(m.skip(0) =~= m);
        assert(m.take(0) + meta_insert(m, k, v) =~= meta_insert(m, k, v));
    } else {
        let t = m.drop_first();
        assert forall|j: int| 0 <= j < i - 1 implies t[j].0 != k && !text_lt(k, #[trigger] t[j].0) by {
            assert(t[j] == m[j + 1]);
        }
        lemma_meta_insert_skip(t, k, v, i - 1);
        assert(t.skip(i - 1) =~= m.skip(i));
        assert(m.take(i) =~= seq![m[0]] + t.take(i - 1));
        assert(m[0].0 != k && !text_lt(k, m[0].0));
        assert(m.take(i) + meta_insert(m.skip(i), k, v) =~= seq![m[0]] + (t.take(i - 1)
            + meta_insert(t.skip(i - 1), k, v)));
    }
}

/// Puts a pair into key-ordered metadata, replacing the value of an equal key.
fn meta_put(m: &mut Vec<(String, String)>, k: String, v: String)
    ensures
        mv(final(m)@) == meta_insert(mv(old(m)@), k@, v@),
{
    let ghost m0 = mv(m@);
    let mut i: usize = 0;
    while i < m.len() && m[i].0 != k && !text_less(k.as_str(), m[i].0.as_str())
        invariant
            i <= m.len(),
            m0 == mv(m@),
            forall|j: int| 0 <= j < i ==> m0[j].0 != k@ && !text_lt(k@, #[trigger] m0[j].0),
        decreases m.len() - i,
    {
        assert(m0[i as int] == pair_view(m@[i as int]));
        i = i + 1;
    }
    proof {
        lemma_meta_insert_skip(m0, k@, v@, i as int);
    }
    let ghost kv = k@;
    let ghost vv = v@;
    if i == m.len() {
        m.push((k, v));
        assert(m0.skip(i as int) =~= seq![]);
        assert(mv(m@) =~= m0.take(i as int) + seq![(kv, vv)]);
    } else {
        let ghost rest = m0.skip(i as int);
        assert(rest[0] == m0[i as int]);
        assert(m0[i as int] == pair_view(m@[i as int]));
        if m[i].0 == k {
            m.set(i, (k, v));
            assert(rest.drop_first() =~= m0.skip(i + 1));
            assert(mv(m@) =~= m0.take(i as int) + (seq![(kv, vv)] + rest.drop_first()));
        } else {
            m.insert(i, (k, v));
            assert(mv(m@) =~= m0.take(i as int) + (seq![(kv, vv)] + rest));
        }
    }
}

/// Parses block metadata: the header looks like "a key1=value1 key2=value2".
pub fn metadata_from_header(header: &str) -> (r: Result<Vec<(String, String)>, MAFParseError>)
    ensures
        header_meta(header@) is Some ==> r is Ok && mv(r->Ok_0@) == header_meta(header@)->0,
        header_meta(header@) is None ==> r is Err && kind_of(r->Err_0) == FailKind::Metadata,
{
    let cs = chars_of(header);
    let all = split_words(cs.as_slice());
    let ghost ws = header_words(header@);
    let mut m: Vec<(String, String)> = Vec::new();
    if all.len() == 0 {
        assert(ws =~= seq![]);
        assert(meta_of_words(ws) =~= mv(m@));
        return Ok(m);
    }
    let mut t: usize = 1;
    assert(ws =~= wv(all@).skip(1));
    while t < all.len()
        invariant
            1 <= t <= all.len(),
            wv(all@) == words(header@),
            ws == wv(all@).skip(1),
            mv(m@) == meta_of_words(ws.take(t - 1)),
            forall|j: int| 0 <= j < t - 1 ==> find_from(#[trigger] ws[j], '=', 0) < ws[j].len(),
        decreases all.len() - t,
    {
        assert(ws[t - 1] == all@[t as int]@);
        match split_metadata_pairs(&all[t]) {
            Ok((key, value)) => {
                meta_put(&mut m, key, value);
                assert(ws.take(t as int).drop_last() =~= ws.take(t - 1));
            },
            Err(e) => {
                assert(find_from(ws[t - 1], '=', 0) >= ws[t - 1].len());
                assert(header_meta(header@) is None);
                return Err(e);
            },
        }
        t = t + 1;
    }
    assert(ws.take(t - 1) =~= ws);
    Ok(m)
}

proof fn lemma_block_end_ge(ls: Seq<Seq<char>>, i: int)
    requires
        0 <= i,
    ensures
        i <= block_end(ls, i),
        block_end(ls, i) <= ls.len() || block_end(ls, i) == i,
    decreases ls.len() - i,
{
    if i < ls.len() && !is_blank(ls[i]) {
        lemma_block_end_ge(ls, i + 1);
    }
}

/// Reads the lines of a block that follow its header, up to and including
/// the blank line that ends it.
pub fn parse_block(header: String, input: &mut LinesRef) -> (r: Result<MAFBlock, MAFParseError>)
    requires
        old(input).wf(),
    ensures
        final(input).wf(),
        final(input).lines == old(input).lines,
        old(input).pos <= final(input).pos,
        match block_result(header@, old(input).text(), old(input).pos as int) {
            Ok((es, meta)) => r is Ok && r->Ok_0@.entries == es && r->Ok_0@.metadata == meta
                && final(input).pos == after_block(old(input).text(), old(input).pos as int),
            Err(k) => r is Err && kind_of(r->Err_0) == k,
        },
{
    let ghost ls = input.text();
    let ghost start = input.pos as int;
    let ghost end = block_end(ls, start);
    let metadata = match metadata_from_header(header.as_str()) {
        Ok(m) => m,
        Err(e) => return Err(e),
    };
    proof {
        lemma_block_end_ge(ls, start);
    }
    let mut block_entries: Vec<MAFBlockEntry> = Vec::new();
    let mut done = false;
    let ghost mut k: int = start;
    assert(ev(block_entries@) =~= seq![]);
    while !done
        invariant
            input.wf(),
            input.lines == old(input).lines,
            ls == input.text(),
            ls.len() == input.lines.len(),
            end == block_end(ls, start),
            start <= k <= end,
            end <= ls.len(),
            block_end(ls, k) == end,
            apply_lines(ev(block_entries@), ls.subrange(k, end)) == apply_lines(seq![], ls.subrange(start, end)),
            !done ==> input.pos == k,
            done ==> k == end && input.pos == after_block(ls, start),
            old(input).pos <= input.pos,
            start == old(input).pos,
            header_meta(header@) is Some,
            mv(metadata@) == header_meta(header@)->0,
        decreases input.lines.len() - input.pos + (if done { 0int } else { 1int }),
    {
        match input.next_line() {
            None => {
                done = true;
            },
            Some(line) => {
                let cs = chars_of(line.as_str());
                let fields = split_words(cs.as_slice());
                if fields.len() == 0 {
                    assert(is_blank(ls[k]));
                    done = true;
                } else {
                    proof {
                        assert(wv(fields@) == words(ls[k]));
                        assert(!is_blank(ls[k]));
                        lemma_block_end_ge(ls, k + 1);
                        assert(ls.subrange(k, end)[0] == ls[k]);
                        assert(ls.subrange(k, end).drop_first() =~= ls.subrange(k + 1, end));
                    }
                    let ghost es0 = ev(block_entries@);
                    match update_from_line(&fields, &mut block_entries) {
                        Ok(()) => {},
                        Err(e) => {
                            proof {
                                let body = ls.subrange(k, end);
                                assert(body.len() > 0);
                                assert(apply_line(es0, words(body[0])) == Err::<Seq<EntryView>, FailKind>(kind_of(e)));
                                assert(apply_lines(es0, body) == Err::<Seq<EntryView>, FailKind>(kind_of(e)));
                                assert(header_meta(header@) is Some);
                            }
                            return Err(e);
                        },
                    }
                    proof {
                        k = k + 1;
                    }
                }
            },
        }
    }
    assert(ls.subrange(k, end) =~= seq![]);
    Ok(MAFBlock { entries: block_entries, metadata })
}

/// Reads the next item: blank lines are skipped; a line starting with `#` is
/// a comment (the `#` dropped); a line starting with `a` opens a block.
pub fn next_maf_item(input: &mut LinesRef) -> (r: Result<MAFItem, MAFParseError>)
    requires
        old(input).wf(),
    ensures
        final(input).wf(),
        final(input).lines == old(input).lines,
        ({
            let ls = old(input).text();
            let j = first_nonblank(ls, old(input).pos as int);
            if j >= ls.len() {
                r is Err && kind_of(r->Err_0) == FailKind::Eof && final(input).pos == ls.len()
            } else if ls[j][0] == '#' {
                r is Ok && r->Ok_0 is Comment && r->Ok_0->Comment_0@ == ls[j].drop_first()
                    && final(input).pos == j + 1
            } else if ls[j][0] == 'a' {
                match block_result(ls[j], ls, j + 1) {
                    Ok((es, meta)) => r is Ok && r->Ok_0 is Block && r->Ok_0->Block_0@.entries == es
                        && r->Ok_0->Block_0@.metadata == meta && final(input).pos == after_block(ls, j + 1),
                    Err(k) => r is Err && kind_of(r->Err_0) == k,
                }
            } else {
                r is Err && kind_of(r->Err_0) == FailKind::Unexpected(ls[j]) && final(input).pos == j + 1
            }
        }),
{
    let ghost ls = input.text();
    let ghost start = input.pos as int;
    while input.pos < input.lines.len() && is_blank_line(&input.lines[input.pos])
        invariant
            input.wf(),
            input.lines == old(input).lines,
            ls == input.text(),
            ls.len() == input.lines.len(),
            start <= input.pos,
            first_nonblank(ls, input.pos as int) == first_nonblank(ls, start),
        decreases input.lines.len() - input.pos,
    {
        input.pos = input.pos + 1;
    }
    let ghost i = input.pos as int;
    assert(first_nonblank(ls, i) == i);
    if input.pos >= input.lines.len() {
        return Err(MAFParseError::EOF);
    }
    let line = input.lines[input.pos].clone();
    input.pos = input.pos + 1;
    let cs = chars_of(line.as_str());
    assert(cs@ == ls[i]);
    assert(cs.len() > 0) by {
        if cs.len() == 0 {
            assert(words(cs@) =~= Seq::<Seq<char>>::empty());
        }
    }
    if cs[0] == '#' {
        let c = string_of(&cs.as_slice()[1..cs.len()]);
        assert(c@ =~= ls[i].drop_first());
        Ok(MAFItem::Comment(c))
    } else if cs[0] == 'a' {
        match parse_block(line, input) {
            Ok(b) => Ok(MAFItem::Block(b)),
            Err(e) => Err(e),
        }
    } else {
        Err(MAFParseError::UnexpectedLine(line))
    }
}

fn is_blank_line(l: &String) -> (r: bool)
    ensures
        r == is_blank(l@),
{
    let cs = chars_of(l.as_str());
    let ws = split_words(cs.as_slice());
    assert(wv(ws@).len() == ws@.len());
    ws.len() == 0
}

/// What reading one item from line `i` gives.
pub enum ItemStep {
    End,
    Failed(FailKind),
    Comment(Seq<char>),
    Block(crate::model::BlockView),
}

pub open spec fn item_step(ls: Seq<Seq<char>>, i: int) -> ItemStep {
    let j = first_nonblank(ls, i);
    if j >= ls.len() {
        ItemStep::End
    } else if ls[j][0] == '#' {
        ItemStep::Comment(ls[j].drop_first())
    } else if ls[j][0] == 'a' {
        match block_result(ls[j], ls, j + 1) {
            Ok((es, meta)) => ItemStep::Block(crate::model::BlockView { entries: es, metadata: meta }),
            Err(k) => ItemStep::Failed(k),
        }
    } else {
        ItemStep::Failed(FailKind::Unexpected(ls[j]))
    }
}

/// Where the cursor stands after an item read from line `i`.
pub open spec fn step_next(ls: Seq<Seq<char>>, i: int) -> int {
    let j = first_nonblank(ls, i);
    if j < ls.len() && ls[j][0] == 'a' {
        after_block(ls, j + 1)
    } else {
        j + 1
    }
}

/// An item as the contracts of the commands see it.
pub enum ItemView {
    Comment(Seq<char>),
    Block(crate::model::BlockView),
}

/// The items from line `i` to the end, or the failure that stops them.
pub open spec fn items_from(ls: Seq<Seq<char>>, i: int) -> Result<Seq<ItemView>, FailKind>
    decreases ls.len() - i,
{
    let n = step_next(ls, i);
    match item_step(ls, i) {
        ItemStep::End => Ok(seq![]),
        ItemStep::Failed(k) => Err(k),
        ItemStep::Comment(c) => if i < n <= ls.len() {
            match items_from(ls, n) {
                Ok(rest) => Ok(seq![ItemView::Comment(c)] + rest),
                Err(k) => Err(k),
            }
        } else {
            Ok(seq![])
        },
        ItemStep::Block(b) => if i < n <= ls.len() {
            match items_from(ls, n) {
                Ok(rest) => Ok(seq![ItemView::Block(b)] + rest),
                Err(k) => Err(k),
            }
        } else {
            Ok(seq![])
        },
    }
}

/// Block lines never fail as the end of input does.
proof fn lemma_no_eof_in_block(es: Seq<EntryView>, body: Seq<Seq<char>>)
    ensures
        apply_lines(es, body) is Err ==> apply_lines(es, body)->Err_0 != FailKind::Eof,
    decreases body.len(),
{
    if body.len() > 0 {
        if let Ok(next) = apply_line(es, words(body[0])) {
            lemma_no_eof_in_block(next, body.drop_first());
        }
    }
}

pub proof fn lemma_first_nonblank_ge(ls: Seq<Seq<char>>, i: int)
    requires
        0 <= i,
    ensures
        i <= first_nonblank(ls, i),
        i <= ls.len() ==> first_nonblank(ls, i) <= ls.len(),
    decreases ls.len() - i,
{
    if i < ls.len() && is_blank(ls[i]) {
        lemma_first_nonblank_ge(ls, i + 1);
    }
}

/// One item read, in the terms of `item_step`.
pub open spec fn read_as_step(r: Result<MAFItem, MAFParseError>, st: ItemStep) -> bool {
    match st {
        ItemStep::End => r is Err && kind_of(r->Err_0) == FailKind::Eof,
        ItemStep::Failed(k) => r is Err && kind_of(r->Err_0) == k,
        ItemStep::Comment(c) => r is Ok && r->Ok_0 is Comment && r->Ok_0->Comment_0@ == c,
        ItemStep::Block(b) => r is Ok && r->Ok_0 is Block && r->Ok_0->Block_0@ == b,
    }
}

/// Reads the next item; the cursor moves past it.
pub fn read_item(input: &mut LinesRef) -> (r: Result<MAFItem, MAFParseError>)
    requires
        old(input).wf(),
    ensures
        final(input).wf(),
        final(input).lines == old(input).lines,
        read_as_step(r, item_step(old(input).text(), old(input).pos as int)),
        (r is Err && r->Err_0 is EOF) <==> item_step(old(input).text(), old(input).pos as int) is End,
        r is Ok ==> final(input).pos == step_next(old(input).text(), old(input).pos as int),
        r is Ok ==> old(input).pos < final(input).pos <= final(input).lines.len(),
{
    let ghost ls = input.text();
    let ghost i = input.pos as int;
    let r = next_maf_item(input);
    proof {
        lemma_first_nonblank_ge(ls, i);
        let j0 = first_nonblank(ls, i);
        if j0 < ls.len() {
            lemma_no_eof_in_block(seq![], ls.subrange(j0 + 1, block_end(ls, j0 + 1)));
        }
        let j = first_nonblank(ls, i);
        if j < ls.len() && ls[j][0] == 'a' {
            lemma_block_end_ge(ls, j + 1);
            if r is Ok && r->Ok_0 is Block {
                let b = r->Ok_0->Block_0;
                assert(b@ == crate::model::BlockView { entries: b@.entries, metadata: b@.metadata });
            }
        }
    }
    r
}

pub open spec fn prepend(d: Seq<ItemView>, r: Result<Seq<ItemView>, FailKind>) -> Result<Seq<ItemView>, FailKind> {
    match r {
        Ok(x) => Ok(d + x),
        Err(k) => Err(k),
    }
}

/// The text a comment is written back as.
pub open spec fn comment_text(c: Seq<char>) -> Seq<char> {
    seq!['#'] + c + seq!['\n']
}

/// After an item is read, the rest of the items follow it.
pub proof fn lemma_items_step(ls: Seq<Seq<char>>, i: int, done: Seq<ItemView>, x: ItemView)
    requires
        0 <= i < step_next(ls, i) <= ls.len(),
        match item_step(ls, i) {
            ItemStep::Comment(c) => x == ItemView::Comment(c),
            ItemStep::Block(b) => x == ItemView::Block(b),
            _ => false,
        },
    ensures
        prepend(done, items_from(ls, i)) == prepend(done.push(x), items_from(ls, step_next(ls, i))),
{
    let n = step_next(ls, i);
    match items_from(ls, n) {
        Ok(rest) => {
            assert(done + (seq![x] + rest) =~= done.push(x) + rest);
        },
        Err(k) => {},
    }
}

} // verus!
