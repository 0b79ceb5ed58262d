//! Character-level helpers: whitespace tokens, decimal numbers, dotted names.

use itertools::Itertools;
use vstd::prelude::*;

verus! {

/// Whitespace as it separates the fields of a line.
pub open spec fn is_ws(c: char) -> bool {
    c == ' ' || c == '\t' || c == '\n' || c == '\r' || c == '\x0B' || c == '\x0C'
}

/// The whitespace-separated words of `s` from position `i`, where `cur` is the
/// word being read when `s[i]` is reached.
pub open spec fn words_from(s: Seq<char>, i: int, cur: Seq<char>) -> Seq<Seq<char>>
    decreases s.len() - i,
{
    if i >= s.len() {
        if cur.len() > 0 {
            seq![cur]
        } else {
            seq![]
        }
    } else if is_ws(s[i]) {
        (if cur.len() > 0 {
            seq![cur]
        } else {
            seq![]
        }) + words_from(s, i + 1, seq![])
    } else {
        words_from(s, i + 1, cur.push(s[i]))
    }
}

/// The whitespace-separated words of `s`, in order.
pub open spec fn words(s: Seq<char>) -> Seq<Seq<char>> {
    words_from(s, 0, seq![])
}

pub open spec fn is_digit(c: char) -> bool {
    '0' <= c && c <= '9'
}

pub open spec fn digit_value(c: char) -> int {
    (c as int) - ('0' as int)
}

/// The value of a string of decimal digits.
pub open spec fn dec_value(s: Seq<char>) -> int
    decreases s.len(),
{
    if s.len() == 0 {
        0
    } else {
        dec_value(s.drop_last()) * 10 + digit_value(s.last())
    }
}

pub open spec fn all_digits(s: Seq<char>) -> bool {
    forall|i: int| 0 <= i < s.len() ==> is_digit(#[trigger] s[i])
}

/// The digits of a number, as an unsigned decimal is read: an optional `+`
/// and then at least one digit.
pub open spec fn unsigned_digits(s: Seq<char>) -> Seq<char> {
    if s.len() > 0 && s[0] == '+' {
        s.drop_first()
    } else {
        s
    }
}

/// `s` is the decimal text of a number that fits in a `u64`.
pub open spec fn is_u64_text(s: Seq<char>) -> bool {
    let d = unsigned_digits(s);
    d.len() > 0 && all_digits(d) && dec_value(d) <= u64::MAX
}

/// The number that decimal text `s` stands for.
pub open spec fn u64_of_text(s: Seq<char>) -> u64 {
    dec_value(unsigned_digits(s)) as u64
}

pub open spec fn digit_char(d: int) -> char {
    ((d + ('0' as int)) as u32) as char
}

/// The decimal digits of `n`, without leading zeros.
pub open spec fn dec_text(n: nat) -> Seq<char>
    decreases n,
{
    if n < 10 {
        seq![digit_char(n as int)]
    } else {
        dec_text(n / 10).push(digit_char((n % 10) as int))
    }
}

/// The pieces in order with `sep` between each two.
pub open spec fn joined(pieces: Seq<Seq<char>>, sep: Seq<char>) -> Seq<char>
    decreases pieces.len(),
{
    if pieces.len() == 0 {
        seq![]
    } else if pieces.len() == 1 {
        pieces[0]
    } else {
        joined(pieces.drop_last(), sep) + sep + pieces.last()
    }
}

/// Index of the first `c` in `s` at or after `i`, or `s.len()`.
pub open spec fn find_from(s: Seq<char>, c: char, i: int) -> int
    decreases s.len() - i,
{
    if i >= s.len() {
        s.len() as int
    } else if s[i] == c {
        i
    } else {
        find_from(s, c, i + 1)
    }
}

/// The genome part of a sequence name: what stands before the first `.`.
pub open spec fn genome_of(s: Seq<char>) -> Seq<char> {
    s.take(find_from(s, '.', 0))
}

/// The chromosome part of a sequence name: what stands after the first `.`,
/// empty where there is no `.`.
pub open spec fn chrom_of(s: Seq<char>) -> Seq<char> {
    let k = find_from(s, '.', 0);
    if k >= s.len() {
        seq![]
    } else {
        s.subrange(k + 1, s.len() as int)
    }
}

/// Lexicographic order on characters by code point, which is also the order
/// of their UTF-8 bytes.
pub open spec fn text_lt(a: Seq<char>, b: Seq<char>) -> bool
    decreases a.len(),
{
    if a.len() == 0 {
        b.len() > 0
    } else if b.len() == 0 {
        false
    } else if a[0] != b[0] {
        a[0] < b[0]
    } else {
        text_lt(a.drop_first(), b.drop_first())
    }
}

/// The characters of the string, in order.
pub fn chars_of(s: &str) -> (r: Vec<char>)
    ensures
        r@ == s@,
{
    broadcast use vstd::string::axiom_spec_iter;

    let mut v: Vec<char> = Vec::new();
    for c in it: s.chars()
        invariant
            v@ == it.seq().take(it.index() as int),
            it.seq() == s@,
    {
        v.push(c);
        assert(v@ =~= it.seq().take(it.index() + 1));
    }
    assert(v@ =~= s@);
    v
}

/// Relies on `String`'s `FromIterator<&char>`: the string of those characters, in order.
#[verifier::external_body]
pub(crate) fn string_of(cs: &[char]) -> (r: String)
    ensures
        r@ == cs@,
{
    cs.iter().collect()
}

/// Relies on `itertools::Itertools::join`: the pieces with `sep` between each two.
#[verifier::external_body]
fn join_pieces(pieces: &Vec<String>, sep: &str) -> (r: String)
    ensures
        r@ == joined(pieces@.map_values(|p: String| p@), sep@),
{
    pieces.iter().join(sep)
}

pub fn is_ws_char(c: char) -> (r: bool)
    ensures
        r == is_ws(c),
{
    c == ' ' || c == '\t' || c == '\n' || c == '\r' || c == '\x0B' || c == '\x0C'
}

/// The whitespace-separated words of `s`.
pub fn split_words(s: &[char]) -> (r: Vec<Vec<char>>)
    ensures
        r@.map_values(|w: Vec<char>| w@) == words(s@),
{
    let mut out: Vec<Vec<char>> = Vec::new();
    let mut cur: Vec<char> = Vec::new();
    let mut i: usize = 0;
    while i < s.len()
        invariant
            i <= s.len(),
            out@.map_values(|w: Vec<char>| w@) + words_from(s@, i as int, cur@) == words(s@),
        decreases s.len() - i,
    {
        let c = s[i];
        if is_ws_char(c) {
            if cur.len() > 0 {
                let ghost before = out@;
                out.push(cur);
                assert(out@.map_values(|w: Vec<char>| w@) =~= before.map_values(
                    |w: Vec<char>| w@,
                ) + seq![cur@]);
                cur = Vec::new();
            }
            assert(cur@ =~= seq![]);
        } else {
            cur.push(c);
        }
        i = i + 1;
    }
    if cur.len() > 0 {
        let ghost before = out@;
        let ghost c = cur@;
        out.push(cur);
        assert(out@.map_values(|w: Vec<char>| w@) =~= before.map_values(|w: Vec<char>| w@)
            + seq![c]);
    } else {
        assert(out@.map_values(|w: Vec<char>| w@) =~= out@.map_values(|w: Vec<char>| w@) + seq![]);
    }
    out
}

proof fn lemma_dec_value_prefix_le(s: Seq<char>, k: int)
    requires
        0 <= k <= s.len(),
        all_digits(s),
    ensures
        dec_value(s.take(k)) <= dec_value(s),
        0 <= dec_value(s.take(k)),
    decreases s.len(),
{
    if k == s.len() {
        assert(s.take(k) =~= s);
        lemma_dec_value_nonneg(s);
    } else {
        let t = s.drop_last();
        assert(all_digits(t));
        lemma_dec_value_prefix_le(t, k);
        assert(t.take(k) =~= s.take(k));
        lemma_dec_value_nonneg(t);
        assert(is_digit(s[s.len() - 1]));
    }
}

proof fn lemma_dec_value_nonneg(s: Seq<char>)
    requires
        all_digits(s),
    ensures
        dec_value(s) >= 0,
    decreases s.len(),
{
    if s.len() > 0 {
        assert(all_digits(s.drop_last()));
        lemma_dec_value_nonneg(s.drop_last());
        assert(is_digit(s[s.len() - 1]));
    }
}

/// Reads decimal text the way `u64`'s `FromStr` does: an optional `+`, then
/// digits only, with a value that fits.
pub fn parse_u64(s: &[char]) -> (r: Option<u64>)
    ensures
        r is Some <==> is_u64_text(s@),
        r is Some ==> r->0 == u64_of_text(s@),
{
    let mut i: usize = 0;
    if s.len() > 0 && s[0] == '+' {
        i = 1;
    }
    let first = i;
    let ghost d = unsigned_digits(s@);
    assert(d =~= s@.subrange(first as int, s@.len() as int));
    if i >= s.len() {
        assert(d.len() == 0);
        return None;
    }
    let mut v: u64 = 0;
    assert(d.take(0) =~= seq![]);
    while i < s.len()
        invariant
            first <= i <= s.len(),
            d == unsigned_digits(s@),
            d == s@.subrange(first as int, s@.len() as int),
            all_digits(d.take(i - first)),
            v as int == dec_value(d.take(i - first)),
        decreases s.len() - i,
    {
        let c = s[i];
        if !('0' <= c && c <= '9') {
            assert(!is_digit(d[i - first]));
            assert(!all_digits(d));
            assert(unsigned_digits(s@) == d);
            assert(!is_u64_text(s@));
            return None;
        }
        let dv: u64 = (c as u32 - '0' as u32) as u64;
        assert(dv as int == digit_value(d[i - first]));
        let ghost t = d.take(i - first + 1);
        assert(t.drop_last() =~= d.take(i - first));
        assert(all_digits(t));
        if v > (u64::MAX - dv) / 10 {
            proof {
                assert(dec_value(t) == v * 10 + dv) by (nonlinear_arith)
                    requires v > (u64::MAX - dv) / 10, dec_value(t) == dec_value(t.drop_last()) * 10 + dv,
                        dec_value(t.drop_last()) == v;
                assert(v * 10 + dv > u64::MAX) by (nonlinear_arith)
                    requires v > (u64::MAX - dv) / 10, dv <= 9;
                assert(unsigned_digits(s@) == d);
                if all_digits(d) {
                    lemma_dec_value_prefix_le(d, i - first + 1);
                    assert(dec_value(d) > u64::MAX);
                }
                assert(!is_u64_text(s@));
            }
            return None;
        }
        v = v * 10 + dv;
        i = i + 1;
    }
    assert(d.take(i - first) =~= d);
    Some(v)
}

/// Appends the decimal digits of `n`.
pub fn push_dec(out: &mut Vec<char>, n: u64)
    ensures
        final(out)@ == old(out)@ + dec_text(n as nat),
    decreases n,
{
    if n >= 10 {
        push_dec(out, n / 10);
    }
    let c = ((n % 10) as u8 + 48u8) as char;
    out.push(c);
    assert(c == digit_char((n % 10) as int));
    if n < 10 {
        assert(old(out)@ + dec_text(n as nat) =~= old(out)@.push(c));
    } else {
        assert(old(out)@ + dec_text(n as nat) =~= old(out)@ + dec_text((n / 10) as nat) + seq![c]);
    }
}

/// Appends the characters of `s`.
pub fn push_str(out: &mut Vec<char>, s: &str)
    ensures
        final(out)@ == old(out)@ + s@,
{
    let cs = chars_of(s);
    let mut i: usize = 0;
    while i < cs.len()
        invariant
            i <= cs.len(),
            cs@ == s@,
            out@ == old(out)@ + cs@.take(i as int),
        decreases cs.len() - i,
    {
        out.push(cs[i]);
        i = i + 1;
        assert(out@ =~= old(out)@ + cs@.take(i as int));
    }
    assert(cs@.take(i as int) =~= cs@);
}

/// Index of the first `c` in `s`, or `s.len()`.
pub fn find_char(s: &[char], c: char) -> (r: usize)
    ensures
        r as int == find_from(s@, c, 0),
        r <= s@.len(),
{
    proof {
        lemma_find_from_range(s@, c, 0);
    }
    let mut i: usize = 0;
    while i < s.len() && s[i] != c
        invariant
            i <= s.len(),
            find_from(s@, c, i as int) == find_from(s@, c, 0),
        decreases s.len() - i,
    {
        i = i + 1;
    }
    i
}

/// The pieces of `s` between the `.` characters from position `i`, where
/// `cur` is the piece being read when `s[i]` is reached.
pub open spec fn dot_pieces_from(s: Seq<char>, i: int, cur: Seq<char>) -> Seq<Seq<char>>
    decreases s.len() - i,
{
    if i >= s.len() {
        seq![cur]
    } else if s[i] == '.' {
        seq![cur] + dot_pieces_from(s, i + 1, seq![])
    } else {
        dot_pieces_from(s, i + 1, cur.push(s[i]))
    }
}

pub proof fn lemma_find_from_range(s: Seq<char>, c: char, i: int)
    requires
        0 <= i <= s.len(),
    ensures
        i <= find_from(s, c, i) <= s.len(),
        find_from(s, c, i) < s.len() ==> s[find_from(s, c, i)] == c,
        forall|j: int| i <= j < find_from(s, c, i) ==> s[j] != c,
    decreases s.len() - i,
{
    if i < s.len() && s[i] != c {
        lemma_find_from_range(s, c, i + 1);
    }
}

pub proof fn lemma_joined_prepend(pieces: Seq<Seq<char>>, sep: Seq<char>, first: Seq<char>)
    requires
        pieces.len() > 0,
    ensures
        joined(seq![first] + pieces, sep) == first + sep + joined(pieces, sep),
    decreases pieces.len(),
{
    let all = seq![first] + pieces;
    if pieces.len() == 1 {
        assert(all.drop_last() =~= seq![first]);
        assert(all.last() == pieces[0]);
    } else {
        assert(all.drop_last() =~= seq![first] + pieces.drop_last());
        assert(all.last() == pieces.last());
        lemma_joined_prepend(pieces.drop_last(), sep, first);
        assert(joined(all, sep) == joined(all.drop_last(), sep) + sep + all.last());
        assert(joined(pieces, sep) == joined(pieces.drop_last(), sep) + sep + pieces.last());
        assert(first + sep + joined(pieces, sep) =~= first + sep + joined(pieces.drop_last(), sep)
            + sep + pieces.last());
    }
}

/// Joining the `.`-pieces with `.` gives back the text they were read from.
proof fn lemma_dot_pieces_joined(s: Seq<char>, i: int, cur: Seq<char>)
    requires
        0 <= i <= s.len(),
    ensures
        joined(dot_pieces_from(s, i, cur), seq!['.']) == cur + s.subrange(i, s.len() as int),
        dot_pieces_from(s, i, cur).len() >= 1,
    decreases s.len() - i,
{
    if i == s.len() {
        assert(cur + s.subrange(i, s.len() as int) =~= cur);
    } else if s[i] == '.' {
        lemma_dot_pieces_joined(s, i + 1, seq![]);
        lemma_joined_prepend(dot_pieces_from(s, i + 1, seq![]), seq!['.'], cur);
        assert(cur + seq!['.'] + (seq![] + s.subrange(i + 1, s.len() as int)) =~= cur
            + s.subrange(i, s.len() as int));
    } else {
        lemma_dot_pieces_joined(s, i + 1, cur.push(s[i]));
        assert(cur.push(s[i]) + s.subrange(i + 1, s.len() as int) =~= cur + s.subrange(
            i,
            s.len() as int,
        ));
    }
}

/// Before the first `.` at or after `i`, the piece being read only grows.
proof fn lemma_dot_pieces_first(s: Seq<char>, i: int, cur: Seq<char>)
    requires
        0 <= i <= s.len(),
    ensures
        ({
            let k = find_from(s, '.', i);
            if k < s.len() {
                dot_pieces_from(s, i, cur) == seq![cur + s.subrange(i, k)] + dot_pieces_from(
                    s,
                    k + 1,
                    seq![],
                )
            } else {
                dot_pieces_from(s, i, cur) == seq![cur + s.subrange(i, s.len() as int)]
            }
        }),
    decreases s.len() - i,
{
    if i == s.len() {
        assert(cur + s.subrange(i, i) =~= cur);
    } else if s[i] == '.' {
        assert(cur + s.subrange(i, i) =~= cur);
    } else {
        lemma_dot_pieces_first(s, i + 1, cur.push(s[i]));
        let k = find_from(s, '.', i);
        lemma_find_from_range(s, '.', i);
        assert(cur.push(s[i]) + s.subrange(i + 1, k) =~= cur + s.subrange(i, k));
    }
}

/// Splits `s` at each `.`.
fn split_dots(s: &[char]) -> (r: Vec<String>)
    ensures
        r@.map_values(|p: String| p@) == dot_pieces_from(s@, 0, seq![]),
{
    let mut out: Vec<String> = Vec::new();
    let mut cur: Vec<char> = Vec::new();
    let mut i: usize = 0;
    while i < s.len()
        invariant
            i <= s.len(),
            out@.map_values(|p: String| p@) + dot_pieces_from(s@, i as int, cur@)
                == dot_pieces_from(s@, 0, seq![]),
        decreases s.len() - i,
    {
        if s[i] == '.' {
            let piece = string_of(cur.as_slice());
            let ghost before = out@;
            out.push(piece);
            assert(out@.map_values(|p: String| p@) =~= before.map_values(|p: String| p@) + seq![
                cur@,
            ]);
            cur = Vec::new();
            assert(cur@ =~= seq![]);
        } else {
            cur.push(s[i]);
        }
        i = i + 1;
    }
    let piece = string_of(cur.as_slice());
    let ghost before = out@;
    out.push(piece);
    assert(out@.map_values(|p: String| p@) =~= before.map_values(|p: String| p@) + seq![cur@]);
    out
}

/// Gets "chr.name" from "genome.chr.name": what stands after the first `.`.
pub fn chrom_part(seq: &str) -> (r: String)
    ensures
        r@ == chrom_of(seq@),
{
    let cs = chars_of(seq);
    let pieces = split_dots(cs.as_slice());
    proof {
        lemma_dot_pieces_joined(cs@, 0, seq![]);
    }
    let mut rest: Vec<String> = Vec::new();
    let mut i: usize = 1;
    while i < pieces.len()
        invariant
            1 <= i <= pieces.len(),
            rest@.map_values(|p: String| p@) == pieces@.map_values(|p: String| p@).subrange(1, i as int),
        decreases pieces.len() - i,
    {
        let ghost before = rest@;
        let p = pieces[i].clone();
        assert(p@ == pieces@[i as int]@);
        rest.push(p);
        assert(rest@.map_values(|p: String| p@) =~= before.map_values(|p: String| p@) + seq![
            pieces@[i as int]@,
        ]);
        i = i + 1;
        assert(rest@.map_values(|p: String| p@) =~= pieces@.map_values(|p: String| p@).subrange(1, i as int));
    }
    let r = join_pieces(&rest, ".");
    proof {
        reveal_strlit(".");
        assert("."@ =~= seq!['.']);
        let s = seq@;
        let k = find_from(s, '.', 0);
        lemma_find_from_range(s, '.', 0);
        lemma_dot_pieces_first(s, 0, seq![]);
        if k < s.len() {
            lemma_dot_pieces_joined(s, k + 1, seq![]);
            assert(rest@.map_values(|p: String| p@) =~= dot_pieces_from(s, k + 1, seq![]));
            assert(seq![] + s.subrange(k + 1, s.len() as int) =~= chrom_of(s));
            assert(r@ == joined(dot_pieces_from(s, k + 1, seq![]), seq!['.']));
        } else {
            assert(rest@.map_values(|p: String| p@) =~= Seq::<Seq<char>>::empty());
        }
    }
    r
}

/// The genome part of a sequence name: what stands before the first `.`.
pub fn genome_part(seq: &str) -> (r: String)
    ensures
        r@ == genome_of(seq@),
{
    let cs = chars_of(seq);
    let k = find_char(cs.as_slice(), '.');
    proof { lemma_find_from_range(cs@, '.', 0); }
    let r = string_of(&cs[0..k]);
    assert(r@ =~= genome_of(seq@));
    r
}

/// Whether `a` comes strictly before `b`.
pub fn text_less(a: &str, b: &str) -> (r: bool)
    ensures
        r == text_lt(a@, b@),
{
    let x = chars_of(a);
    let y = chars_of(b);
    let mut i: usize = 0;
    assert(x@.skip(0) =~= x@);
    assert(y@.skip(0) =~= y@);
    while i < x.len() && i < y.len() && x[i] == y[i]
        invariant
            i <= x.len(),
            i <= y.len(),
            text_lt(x@.skip(i as int), y@.skip(i as int)) == text_lt(x@, y@),
        decreases x.len() - i,
    {
        assert(x@.skip(i as int).drop_first() =~= x@.skip(i + 1));
        assert(y@.skip(i as int).drop_first() =~= y@.skip(i + 1));
        i = i + 1;
    }
    if i == x.len() {
        i < y.len()
    } else if i == y.len() {
        false
    } else {
        x[i] < y[i]
    }
}

} // verus!
