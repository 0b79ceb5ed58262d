//! Genomic intervals and a sorted set of them.

use crate::parser::LinesRef;
use crate::text::{
    chars_of, is_u64_text, parse_u64, split_words, string_of, text_less, text_lt, u64_of_text,
    words,
};
use vstd::prelude::*;

verus! {

/// A half-open interval `[start, end)` of sequence `seq`.
#[derive(Debug, PartialEq, Eq, Clone)]
pub struct Range {
    pub seq: String,
    pub start: u64,
    pub end: u64,
}

pub struct RangeView {
    pub seq: Seq<char>,
    pub start: u64,
    pub end: u64,
}

impl View for Range {
    type V = RangeView;

    open spec fn view(&self) -> RangeView {
        RangeView { seq: self.seq@, start: self.start, end: self.end }
    }
}

/// Order by sequence name, then start, then end.
pub open spec fn range_lt(a: RangeView, b: RangeView) -> bool {
    text_lt(a.seq, b.seq) || (a.seq == b.seq && (a.start < b.start || (a.start == b.start && a.end
        < b.end)))
}

/// Order by sequence name, then start.
pub open spec fn starts_before(a: RangeView, seq: Seq<char>, start: u64) -> bool {
    text_lt(a.seq, seq) || (a.seq == seq && a.start < start)
}

pub open spec fn overlaps_spec(r: RangeView, chrom: Seq<char>, position: u64) -> bool {
    r.seq == chrom && r.start <= position && position < r.end
}

pub proof fn lemma_text_lt_irrefl(a: Seq<char>)
    ensures
        !text_lt(a, a),
    decreases a.len(),
{
    if a.len() > 0 {
        lemma_text_lt_irrefl(a.drop_first());
    }
}

pub proof fn lemma_text_lt_total(a: Seq<char>, b: Seq<char>)
    ensures
        a != b ==> text_lt(a, b) || text_lt(b, a),
        !(text_lt(a, b) && text_lt(b, a)),
    decreases a.len(),
{
    if a.len() > 0 && b.len() > 0 {
        lemma_text_lt_total(a.drop_first(), b.drop_first());
        if a[0] == b[0] && a.drop_first() == b.drop_first() {
            assert(a =~= seq![a[0]] + a.drop_first());
            assert(b =~= seq![b[0]] + b.drop_first());
        }
    } else if a.len() == 0 && b.len() == 0 {
        assert(a =~= b);
    }
}

impl Range {
    pub fn overlaps(&self, chrom: &str, position: u64) -> (r: bool)
        ensures
            r == overlaps_spec(self@, chrom@, position),
    {
        text_equal(self.seq.as_str(), chrom) && self.start <= position && self.end > position
    }

    /// Lies wholly before `position` of `chrom` in a forward scan.
    pub fn precedes(&self, chrom: &str, position: u64) -> (r: bool)
        ensures
            r == (text_lt(self.seq@, chrom@) || self.end <= position),
    {
        text_less(self.seq.as_str(), chrom) || self.end <= position
    }

    /// Lies wholly after `position` of `chrom` in a forward scan.
    pub fn succeeds(&self, chrom: &str, position: u64) -> (r: bool)
        ensures
            r == (text_lt(chrom@, self.seq@) || self.start > position),
    {
        text_less(chrom, self.seq.as_str()) || self.start > position
    }

    pub fn copy(&self) -> (r: Range)
        ensures
            r@ == self@,
    {
        Range { seq: self.seq.clone(), start: self.start, end: self.end }
    }
}

/// Whether two texts are equal.
pub fn text_equal(a: &str, b: &str) -> (r: bool)
    ensures
        r == (a@ == b@),
{
    let x = chars_of(a);
    let y = chars_of(b);
    if x.len() != y.len() {
        assert(x@.len() != y@.len());
        return false;
    }
    let mut i: usize = 0;
    while i < x.len()
        invariant
            i <= x.len(),
            x.len() == y.len(),
            x@ == a@,
            y@ == b@,
            x@.take(i as int) == y@.take(i as int),
        decreases x.len() - i,
    {
        if x[i] != y[i] {
            assert(x@ != y@) by {
                if x@ == y@ {
                    assert(x@[i as int] == y@[i as int]);
                }
            }
            return false;
        }
        i = i + 1;
        assert(x@.take(i as int) =~= x@.take(i - 1).push(x@[i - 1]));
        assert(y@.take(i as int) =~= y@.take(i - 1).push(y@[i - 1]));
    }
    assert(x@ =~= x@.take(i as int));
    assert(y@ =~= y@.take(i as int));
    true
}

fn range_less(a: &Range, b: &Range) -> (r: bool)
    ensures
        r == range_lt(a@, b@),
{
    if text_less(a.seq.as_str(), b.seq.as_str()) {
        true
    } else if text_equal(a.seq.as_str(), b.seq.as_str()) {
        a.start < b.start || (a.start == b.start && a.end < b.end)
    } else {
        false
    }
}

pub open spec fn rvs(s: Seq<Range>) -> Seq<RangeView> {
    s.map_values(|r: Range| r@)
}

/// A set of intervals, kept in ascending order with each interval once.
#[derive(Debug, PartialEq, Eq)]
pub struct RangeSet {
    pub ranges: Vec<Range>,
}

impl RangeSet {
    pub open spec fn wf(&self) -> bool {
        forall|i: int|
            0 <= i < self.ranges@.len() - 1 ==> range_lt(
                #[trigger] self.ranges@[i]@,
                self.ranges@[i + 1]@,
            )
    }

    /// The intervals in order.
    pub open spec fn items(&self) -> Seq<RangeView> {
        rvs(self.ranges@)
    }

    pub fn new() -> (r: RangeSet)
        ensures
            r.wf(),
            r.items() == Seq::<RangeView>::empty(),
    {
        let r = RangeSet { ranges: Vec::new() };
        assert(r.items() =~= Seq::<RangeView>::empty());
        r
    }

    /// Adds an interval unless it is there already.
    pub fn insert(&mut self, r: Range)
        requires
            old(self).wf(),
        ensures
            final(self).wf(),
            final(self).items().to_set() == old(self).items().to_set().insert(r@),
    {
        let ghost s0 = self.items();
        let mut i: usize = 0;
        while i < self.ranges.len() && range_less(&self.ranges[i], &r)
            invariant
                i <= self.ranges.len(),
                s0 == self.items(),
                self.wf(),
                i > 0 ==> range_lt(s0[i - 1], r@),
            decreases self.ranges.len() - i,
        {
            i = i + 1;
        }
        if i < self.ranges.len() && text_equal(self.ranges[i].seq.as_str(), r.seq.as_str())
            && self.ranges[i].start == r.start && self.ranges[i].end == r.end {
            assert(s0[i as int] == r@);
            assert(s0.to_set() =~= s0.to_set().insert(r@)) by {
                assert(s0.contains(r@));
            }
            return;
        }
        let ghost rv = r@;
        proof {
            if i < s0.len() {
                assert(s0[i as int] != rv);
                lemma_text_lt_total(s0[i as int].seq, rv.seq);
                lemma_text_lt_total(rv.seq, s0[i as int].seq);
                lemma_text_lt_irrefl(rv.seq);
                assert(range_lt(rv, s0[i as int]));
            }
        }
        self.ranges.insert(i, r);
        proof {
            let s1 = self.items();
            assert(s1 =~= s0.insert(i as int, rv));
            assert forall|j: int| 0 <= j < s1.len() - 1 implies range_lt(
                #[trigger] self.ranges@[j]@,
                self.ranges@[j + 1]@,
            ) by {
                assert(s1[j] == self.ranges@[j]@);
                assert(s1[j + 1] == self.ranges@[j + 1]@);
                if j + 1 < i {
                    assert(s1[j] == s0[j] && s1[j + 1] == s0[j + 1]);
                    assert(range_lt(self.ranges@[j]@, self.ranges@[j + 1]@));
                } else if j + 1 == i {
                } else if j == i {
                } else {
                    assert(s1[j] == s0[j - 1] && s1[j + 1] == s0[j]);
                }
            }
            assert(s1.to_set() =~= s0.to_set().insert(rv)) by {
                assert forall|x: RangeView| s1.contains(x) <==> s0.contains(x) || x == rv by {
                    if s1.contains(x) {
                        let j = choose|j: int| 0 <= j < s1.len() && s1[j] == x;
                        if j < i {
                            assert(s0[j] == x);
                        } else if j > i {
                            assert(s0[j - 1] == x);
                        }
                    }
                    if s0.contains(x) {
                        let j = choose|j: int| 0 <= j < s0.len() && s0[j] == x;
                        if j < i {
                            assert(s1[j] == x);
                        } else {
                            assert(s1[j + 1] == x);
                        }
                    }
                    if x == rv {
                        assert(s1[i as int] == x);
                    }
                }
            }
        }
    }

    /// The set of the given intervals.
    pub fn from_ranges(rs: Vec<Range>) -> (r: RangeSet)
        ensures
            r.wf(),
            r.items().to_set() == rvs(rs@).to_set(),
    {
        let mut set = RangeSet::new();
        let mut i: usize = 0;
        while i < rs.len()
            invariant
                i <= rs.len(),
                set.wf(),
                set.items().to_set() == rvs(rs@).take(i as int).to_set(),
            decreases rs.len() - i,
        {
            set.insert(rs[i].copy());
            i = i + 1;
            assert(rvs(rs@).take(i as int) =~= rvs(rs@).take(i - 1).push(rs@[i - 1]@));
            assert(rvs(rs@).take(i as int).to_set() =~= rvs(rs@).take(i - 1).to_set().insert(
                rs@[i - 1]@,
            )) by {
                rvs(rs@).take(i - 1).lemma_push_to_set_commute(rs@[i - 1]@);
            }
        }
        assert(rvs(rs@).take(i as int) =~= rvs(rs@));
        set
    }
}

/// The greatest start at or before `position` among the intervals of `chrom`.
pub open spec fn best_start(s: Seq<RangeView>, chrom: Seq<char>, position: u64) -> Option<u64>
    decreases s.len(),
{
    if s.len() == 0 {
        None
    } else {
        let b = best_start(s.drop_last(), chrom, position);
        let r = s.last();
        if r.seq == chrom && r.start <= position {
            match b {
                None => Some(r.start),
                Some(x) => if r.start > x {
                    Some(r.start)
                } else {
                    Some(x)
                },
            }
        } else {
            b
        }
    }
}

/// Some interval of `chrom` that starts at the greatest start at or before
/// `position` reaches past `position`.
pub open spec fn contains_point(s: Seq<RangeView>, chrom: Seq<char>, position: u64) -> bool {
    match best_start(s, chrom, position) {
        None => false,
        Some(b) => exists|i: int|
            0 <= i < s.len() && (#[trigger] s[i]).seq == chrom && s[i].start == b && s[i].end
                > position,
    }
}

proof fn lemma_best_start_bound(s: Seq<RangeView>, chrom: Seq<char>, position: u64)
    ensures
        forall|i: int|
            0 <= i < s.len() && (#[trigger] s[i]).seq == chrom && s[i].start <= position
                ==> best_start(s, chrom, position) is Some && s[i].start <= best_start(
                s,
                chrom,
                position,
            )->0,
        best_start(s, chrom, position) is Some ==> exists|i: int|
            0 <= i < s.len() && (#[trigger] s[i]).seq == chrom && s[i].start == best_start(
                s,
                chrom,
                position,
            )->0,
        best_start(s, chrom, position) is Some ==> best_start(s, chrom, position)->0 <= position,
    decreases s.len(),
{
    if s.len() > 0 {
        let t = s.drop_last();
        lemma_best_start_bound(t, chrom, position);
        assert forall|i: int| 0 <= i < t.len() implies t[i] == s[i] by {}
        if best_start(t, chrom, position) is Some {
            let j = choose|j: int|
                0 <= j < t.len() && (#[trigger] t[j]).seq == chrom && t[j].start == best_start(
                    t,
                    chrom,
                    position,
                )->0;
            assert(s[j] == t[j]);
        }
        if s.last().seq == chrom && s.last().start <= position {
            assert(s[s.len() - 1] == s.last());
        }
    }
}

/// Index of the last interval that starts strictly before the query, or -1.
pub open spec fn last_before(s: Seq<RangeView>, q: RangeView) -> int
    decreases s.len(),
{
    if s.len() == 0 {
        -1
    } else if starts_before(s.last(), q.seq, q.start) {
        s.len() - 1
    } else {
        last_before(s.drop_last(), q)
    }
}

/// The intervals of the query's sequence whose start lies within the query.
pub open spec fn starting_within(s: Seq<RangeView>, q: RangeView) -> Seq<RangeView>
    decreases s.len(),
{
    if s.len() == 0 {
        seq![]
    } else {
        let rest = starting_within(s.drop_last(), q);
        let r = s.last();
        if r.seq == q.seq && q.start <= r.start && r.start < q.end {
            rest.push(r)
        } else {
            rest
        }
    }
}

proof fn lemma_last_before_range(s: Seq<RangeView>, q: RangeView)
    ensures
        -1 <= last_before(s, q) < s.len(),
    decreases s.len(),
{
    if s.len() > 0 {
        lemma_last_before_range(s.drop_last(), q);
    }
}

/// The intervals that may overlap `range`: the one that starts last before
/// it (which may reach into it), then every interval of its sequence that
/// starts within it, in order.
pub fn overlapping_ranges(set: &RangeSet, range: &Range) -> (r: Vec<Range>)
    ensures
        rvs(r@) == (if last_before(set.items(), range@) >= 0 {
            seq![set.items()[last_before(set.items(), range@)]]
        } else {
            seq![]
        }) + starting_within(set.items(), range@),
{
    let ghost s = set.items();
    let ghost q = range@;
    let mut before: Option<usize> = None;
    let mut k: usize = 0;
    while k < set.ranges.len()
        invariant
            k <= set.ranges.len(),
            s == set.items(),
            q == range@,
            match before {
                None => last_before(s.take(k as int), q) == -1,
                Some(b) => last_before(s.take(k as int), q) == b && b < k,
            },
        decreases set.ranges.len() - k,
    {
        let r = &set.ranges[k];
        assert(s.take(k + 1).drop_last() =~= s.take(k as int));
        assert(s.take(k + 1).last() == s[k as int]);
        if text_less(r.seq.as_str(), range.seq.as_str()) || (text_equal(r.seq.as_str(), range.seq.as_str()) && r.start < range.start) {
            before = Some(k);
        }
        k = k + 1;
    }
    assert(s.take(k as int) =~= s);
    let mut out: Vec<Range> = Vec::new();
    match before {
        Some(b) => {
            out.push(set.ranges[b].copy());
        },
        None => {},
    }
    let ghost head = rvs(out@);
    assert(head =~= (if last_before(s, q) >= 0 { seq![s[last_before(s, q)]] } else { seq![] }));
    let mut k: usize = 0;
    while k < set.ranges.len()
        invariant
            k <= set.ranges.len(),
            s == set.items(),
            q == range@,
            rvs(out@) == head + starting_within(s.take(k as int), q),
        decreases set.ranges.len() - k,
    {
        let r = &set.ranges[k];
        assert(s.take(k + 1).drop_last() =~= s.take(k as int));
        assert(s.take(k + 1).last() == s[k as int]);
        if text_equal(r.seq.as_str(), range.seq.as_str()) && range.start <= r.start && r.start < range.end {
            let ghost o = rvs(out@);
            out.push(r.copy());
            assert(rvs(out@) =~= o.push(s[k as int]));
        }
        k = k + 1;
    }
    assert(s.take(k as int) =~= s);
    out
}

#[derive(Debug)]
pub enum BedParseError {
    /// A line with more than nine fields (BED12 and wider).
    Unsupported(String),
    /// A line whose sequence, start or end is missing or not a number.
    BadLine(String),
}

/// Why a region line makes no interval.
pub enum BedFail {
    TooManyFields,
    BadLine,
}

pub open spec fn bed_fail_of(e: BedParseError) -> BedFail {
    match e {
        BedParseError::Unsupported(_) => BedFail::TooManyFields,
        BedParseError::BadLine(_) => BedFail::BadLine,
    }
}

/// The interval of one region line's words (at least one).
pub open spec fn bed_line(ws: Seq<Seq<char>>) -> Result<RangeView, BedFail> {
    if ws.len() > 9 {
        Err(BedFail::TooManyFields)
    } else if ws.len() >= 3 && is_u64_text(ws[1]) && is_u64_text(ws[2]) {
        Ok(RangeView { seq: ws[0], start: u64_of_text(ws[1]), end: u64_of_text(ws[2]) })
    } else {
        Err(BedFail::BadLine)
    }
}

/// The intervals of region lines, or why the first line that is not blank
/// and makes no interval fails.
pub open spec fn bed_ranges(ls: Seq<Seq<char>>) -> Result<Set<RangeView>, BedFail>
    decreases ls.len(),
{
    if ls.len() == 0 {
        Ok(Set::empty())
    } else {
        match bed_ranges(ls.drop_last()) {
            Err(k) => Err(k),
            Ok(set) => {
                let ws = words(ls.last());
                if ws.len() == 0 {
                    Ok(set)
                } else {
                    match bed_line(ws) {
                        Ok(r) => Ok(set.insert(r)),
                        Err(k) => Err(k),
                    }
                }
            },
        }
    }
}

/// Reads regions, one `seq start end` per line (up to nine fields, the
/// rest ignored); blank lines are skipped.
pub fn parse_bed(bed: &str) -> (r: Result<RangeSet, BedParseError>)
    ensures
        match bed_ranges(LinesRef::from_text_spec(bed@)) {
            Ok(set) => r is Ok && r->Ok_0.wf() && r->Ok_0.items().to_set() == set,
            Err(k) => r is Err && bed_fail_of(r->Err_0) == k,
        },
{
    let lines = LinesRef::from_text(bed);
    let ghost ls = lines.text();
    let mut set = RangeSet::new();
    let mut k: usize = 0;
    assert(ls.take(0) =~= Seq::<Seq<char>>::empty());
    assert(set.items().to_set() =~= Set::<RangeView>::empty());
    while k < lines.lines.len()
        invariant
            k <= lines.lines.len(),
            ls == lines.text(),
            ls == LinesRef::from_text_spec(bed@),
            set.wf(),
            bed_ranges(ls.take(k as int)) == Ok::<Set<RangeView>, BedFail>(set.items().to_set()),
        decreases lines.lines.len() - k,
    {
        let cs = chars_of(lines.lines[k].as_str());
        let ws = split_words(cs.as_slice());
        let ghost t1 = ls.take(k + 1);
        assert(t1.drop_last() =~= ls.take(k as int));
        assert(t1.last() == ls[k as int]);
        let ghost wsv = ws@.map_values(|w: Vec<char>| w@);
        assert(wsv.len() == ws.len());
        if ws.len() > 0 {
            if ws.len() > 9 {
                proof { lemma_bed_ranges_err(ls, k as int + 1); }
                return Err(BedParseError::Unsupported(lines.lines[k].clone()));
            }
            if ws.len() < 3 {
                proof { lemma_bed_ranges_err(ls, k as int + 1); }
                return Err(BedParseError::BadLine(lines.lines[k].clone()));
            }
            assert(wsv[1] == ws@[1]@ && wsv[2] == ws@[2]@ && wsv[0] == ws@[0]@);
            let start = parse_u64(ws[1].as_slice());
            let end = parse_u64(ws[2].as_slice());
            match (start, end) {
                (Some(s), Some(e)) => {
                    set.insert(Range { seq: string_of(ws[0].as_slice()), start: s, end: e });
                },
                _ => {
                    proof { lemma_bed_ranges_err(ls, k as int + 1); }
                    return Err(BedParseError::BadLine(lines.lines[k].clone()));
                },
            }
        }
        k = k + 1;
    }
    assert(ls.take(k as int) =~= ls);
    Ok(set)
}

/// Once a prefix of the lines fails, all of them fail the same way.
proof fn lemma_bed_ranges_err(ls: Seq<Seq<char>>, k: int)
    requires
        0 <= k <= ls.len(),
        bed_ranges(ls.take(k)) is Err,
    ensures
        bed_ranges(ls) == bed_ranges(ls.take(k)),
    decreases ls.len() - k,
{
    if k < ls.len() {
        assert(ls.take(k + 1).drop_last() =~= ls.take(k));
        lemma_bed_ranges_err(ls, k + 1);
    } else {
        assert(ls.take(k) =~= ls);
    }
}

pub proof fn lemma_text_lt_trans(a: Seq<char>, b: Seq<char>, c: Seq<char>)
    requires
        text_lt(a, b),
        text_lt(b, c),
    ensures
        text_lt(a, c),
    decreases a.len(),
{
    if a.len() > 0 && b.len() > 0 && c.len() > 0 {
        if a[0] == b[0] && b[0] == c[0] {
            lemma_text_lt_trans(a.drop_first(), b.drop_first(), c.drop_first());
        }
    }
}

proof fn lemma_range_lt_trans(a: RangeView, b: RangeView, c: RangeView)
    requires
        range_lt(a, b),
        range_lt(b, c),
    ensures
        range_lt(a, c),
{
    if text_lt(a.seq, b.seq) && text_lt(b.seq, c.seq) {
        lemma_text_lt_trans(a.seq, b.seq, c.seq);
    }
}

/// In a well-formed set every interval comes before every later one.
proof fn lemma_sorted(set: &RangeSet, i: int, j: int)
    requires
        set.wf(),
        0 <= i < j < set.items().len(),
    ensures
        range_lt(set.items()[i], set.items()[j]),
    decreases j - i,
{
    assert(set.items()[i] == set.ranges@[i]@);
    assert(set.items()[j - 1] == set.ranges@[j - 1]@);
    assert(set.items()[j] == set.ranges@[j]@);
    assert(range_lt(set.ranges@[j - 1]@, set.ranges@[j]@));
    if i < j - 1 {
        lemma_sorted(set, i, j - 1);
        lemma_range_lt_trans(set.items()[i], set.items()[j - 1], set.items()[j]);
    }
}

/// The interval starts at or before `position` of `chrom`, in set order.
pub open spec fn starts_by(r: RangeView, chrom: Seq<char>, position: u64) -> bool {
    text_lt(r.seq, chrom) || (r.seq == chrom && r.start <= position)
}

fn starts_by_exec(r: &Range, chrom: &str, position: u64) -> (b: bool)
    ensures
        b == starts_by(r@, chrom@, position),
{
    text_less(r.seq.as_str(), chrom) || (text_equal(r.seq.as_str(), chrom) && r.start <= position)
}

proof fn lemma_starts_by_down(a: RangeView, b: RangeView, chrom: Seq<char>, position: u64)
    requires
        range_lt(a, b),
        starts_by(b, chrom, position),
    ensures
        starts_by(a, chrom, position),
{
    if text_lt(a.seq, b.seq) && text_lt(b.seq, chrom) {
        lemma_text_lt_trans(a.seq, b.seq, chrom);
    }
}

/// Locates the interval of `chrom` with the greatest start not past
/// `position` (the longest of those that start there) by binary search, and
/// tells whether it reaches past `position`. Where intervals of one sequence
/// overlap, a longer interval that starts earlier is not looked at: this
/// answers whether a point is inside, not how many intervals contain it.
pub fn range_contains_pos(set: &RangeSet, chrom: &str, position: u64) -> (r: bool)
    requires
        set.wf(),
    ensures
        r == contains_point(set.items(), chrom@, position),
{
    let ghost s = set.items();
    let mut lo: usize = 0;
    let mut hi: usize = set.ranges.len();
    while lo < hi
        invariant
            lo <= hi <= set.ranges.len(),
            s == set.items(),
            set.wf(),
            forall|i: int| 0 <= i < lo ==> starts_by(#[trigger] s[i], chrom@, position),
            forall|i: int| hi <= i < s.len() ==> !starts_by(#[trigger] s[i], chrom@, position),
        decreases hi - lo,
    {
        let mid = lo + (hi - lo) / 2;
        assert(s[mid as int] == set.ranges@[mid as int]@);
        if starts_by_exec(&set.ranges[mid], chrom, position) {
            proof {
                assert forall|i: int| 0 <= i <= mid implies starts_by(#[trigger] s[i], chrom@, position) by {
                    if i < mid {
                        lemma_sorted(set, i, mid as int);
                        lemma_starts_by_down(s[i], s[mid as int], chrom@, position);
                    }
                }
            }
            lo = mid + 1;
        } else {
            proof {
                assert forall|i: int| mid <= i < s.len() implies !starts_by(#[trigger] s[i], chrom@, position) by {
                    if mid < i && starts_by(s[i], chrom@, position) {
                        lemma_sorted(set, mid as int, i);
                        lemma_starts_by_down(s[mid as int], s[i], chrom@, position);
                    }
                }
            }
            hi = mid;
        }
    }
    if lo == 0 {
        proof {
            lemma_best_start_bound(s, chrom@, position);
            if best_start(s, chrom@, position) is Some {
                let i = choose|i: int| 0 <= i < s.len() && (#[trigger] s[i]).seq == chrom@ && s[i].start == best_start(s, chrom@, position)->0;
                assert(starts_by(s[i], chrom@, position));
            }
        }
        return false;
    }
    let k = lo - 1;
    let last = &set.ranges[k];
    assert(s[k as int] == last@);
    let r = text_equal(last.seq.as_str(), chrom) && last.end > position;
    proof {
        let ki = k as int;
        lemma_best_start_bound(s, chrom@, position);
        lemma_text_lt_irrefl(chrom@);
        if last@.seq == chrom@ {
            assert(starts_by(s[ki], chrom@, position));
            let b = best_start(s, chrom@, position)->0;
            assert(best_start(s, chrom@, position) is Some);
            let j = choose|j: int| 0 <= j < s.len() && (#[trigger] s[j]).seq == chrom@ && s[j].start == b;
            assert(starts_by(s[j], chrom@, position));
            assert(j <= ki);
            if j < ki {
                lemma_sorted(set, j, ki);
            }
            assert(b == last.start);
            assert forall|i: int| 0 <= i < s.len() && (#[trigger] s[i]).seq == chrom@ && s[i].start == b implies s[i].end <= last.end by {
                assert(starts_by(s[i], chrom@, position));
                if i < ki {
                    lemma_sorted(set, i, ki);
                }
            }
            if r {
                assert(s[ki].seq == chrom@ && s[ki].start == b && s[ki].end > position);
            }
        } else {
            if best_start(s, chrom@, position) is Some {
                let b = best_start(s, chrom@, position)->0;
                let j = choose|j: int| 0 <= j < s.len() && (#[trigger] s[j]).seq == chrom@ && s[j].start == b;
                assert(starts_by(s[j], chrom@, position));
                assert(j <= ki);
                if j < ki {
                    lemma_sorted(set, j, ki);
                    lemma_text_lt_total(s[j].seq, s[ki].seq);
                    assert(starts_by(s[ki], chrom@, position));
                    lemma_text_lt_total(s[ki].seq, chrom@);
                }
            }
        }
    }
    r
}

/// Order by sequence name, then start, ties allowed.
pub open spec fn key_le(a: RangeView, b: RangeView) -> bool {
    text_lt(a.seq, b.seq) || (a.seq == b.seq && a.start <= b.start)
}

pub open spec fn keys_ascend(c: Seq<RangeView>) -> bool {
    forall|i: int, j: int| 0 <= i < j < c.len() ==> key_le(#[trigger] c[i], #[trigger] c[j])
}

proof fn lemma_within_members(s: Seq<RangeView>, q: RangeView)
    ensures
        forall|t: int| 0 <= t < starting_within(s, q).len() ==> {
            &&& (#[trigger] starting_within(s, q)[t]).seq == q.seq
            &&& q.start <= starting_within(s, q)[t].start
            &&& exists|i: int| 0 <= i < s.len() && s[i] == starting_within(s, q)[t]
        },
    decreases s.len(),
{
    if s.len() > 0 {
        let t0 = s.drop_last();
        lemma_within_members(t0, q);
        let w = starting_within(s, q);
        let w0 = starting_within(t0, q);
        assert forall|t: int| 0 <= t < w.len() implies {
            &&& (#[trigger] w[t]).seq == q.seq
            &&& q.start <= w[t].start
            &&& exists|i: int| 0 <= i < s.len() && s[i] == w[t]
        } by {
            if t < w0.len() {
                assert(w[t] == w0[t]);
                let i = choose|i: int| 0 <= i < t0.len() && t0[i] == w0[t];
                assert(s[i] == t0[i]);
            } else {
                assert(w[t] == s[s.len() - 1]);
            }
        }
    }
}

proof fn lemma_within_ascend(s: Seq<RangeView>, q: RangeView)
    requires
        forall|i: int, j: int| 0 <= i < j < s.len() ==> range_lt(#[trigger] s[i], #[trigger] s[j]),
    ensures
        keys_ascend(starting_within(s, q)),
    decreases s.len(),
{
    if s.len() > 0 {
        let t0 = s.drop_last();
        assert forall|i: int, j: int| 0 <= i < j < t0.len() implies range_lt(#[trigger] t0[i], #[trigger] t0[j]) by {
            assert(t0[i] == s[i] && t0[j] == s[j]);
        }
        lemma_within_ascend(t0, q);
        lemma_within_members(t0, q);
        let w = starting_within(s, q);
        let w0 = starting_within(t0, q);
        assert forall|a: int, b: int| 0 <= a < b < w.len() implies key_le(#[trigger] w[a], #[trigger] w[b]) by {
            assert(w[a] == w0[a]);
            if b < w0.len() {
                assert(w[b] == w0[b]);
            } else {
                let i = choose|i: int| 0 <= i < t0.len() && t0[i] == w0[a];
                assert(s[i] == t0[i]);
                assert(range_lt(s[i], s[s.len() - 1]));
                assert(w[b] == s[s.len() - 1]);
            }
        }
    }
}

proof fn lemma_last_before_is_before(s: Seq<RangeView>, q: RangeView)
    ensures
        last_before(s, q) >= 0 ==> last_before(s, q) < s.len() && starts_before(s[last_before(s, q)], q.seq, q.start),
    decreases s.len(),
{
    if s.len() > 0 && !starts_before(s.last(), q.seq, q.start) {
        lemma_last_before_is_before(s.drop_last(), q);
        if last_before(s, q) >= 0 {
            assert(s[last_before(s, q)] == s.drop_last()[last_before(s, q)]);
        }
    }
}

/// The candidates for a query ascend by sequence and start.
pub proof fn lemma_candidates_ascend(set: &RangeSet, q: RangeView)
    requires
        set.wf(),
    ensures
        keys_ascend((if last_before(set.items(), q) >= 0 {
            seq![set.items()[last_before(set.items(), q)]]
        } else {
            seq![]
        }) + starting_within(set.items(), q)),
{
    let s = set.items();
    assert forall|i: int, j: int| 0 <= i < j < s.len() implies range_lt(#[trigger] s[i], #[trigger] s[j]) by {
        lemma_sorted(set, i, j);
    }
    lemma_within_ascend(s, q);
    lemma_within_members(s, q);
    lemma_last_before_is_before(s, q);
    let w = starting_within(s, q);
    let lb = last_before(s, q);
    let c = (if lb >= 0 { seq![s[lb]] } else { seq![] }) + w;
    assert forall|a: int, b: int| 0 <= a < b < c.len() implies key_le(#[trigger] c[a], #[trigger] c[b]) by {
        if lb >= 0 {
            if a == 0 {
                assert(c[a] == s[lb]);
                assert(c[b] == w[b - 1]);
            } else {
                assert(c[a] == w[a - 1] && c[b] == w[b - 1]);
            }
        } else {
            assert(c[a] == w[a] && c[b] == w[b]);
        }
    }
}

} // verus!
