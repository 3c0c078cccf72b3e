//! The edge loader: text lines of `from to` pairs into a sorted array of packed edges.
use vstd::prelude::*;
use vstd::relations::sorted_by;
use voracious_radix_sort::RadixSort;
use crate::edge::{
    edge_count, from_of, key_of, lemma_count_concat, lemma_count_is_multiplicity, lemma_round_trip,
    symmetric_counts, to_of, Edge, EdgeAsInt,
};

verus! {

/// What `atoi_simd` parses a byte string into as a `u32`, if it accepts it.
pub uninterp spec fn decimal_u32(s: Seq<u8>) -> Option<u32>;

/// Every byte of `s` is an ASCII decimal digit.
pub open spec fn all_digits(s: Seq<u8>) -> bool {
    forall|i: int| 0 <= i < s.len() ==> 0x30u8 <= #[trigger] s[i] <= 0x39u8
}

/// The number that the decimal digits of `s` spell.
pub open spec fn digits_value(s: Seq<u8>) -> int
    decreases s.len(),
{
    if s.len() == 0 {
        0
    } else {
        digits_value(s.drop_last()) * 10 + (s.last() - 0x30u8)
    }
}

/// Relies on atoi_simd::parse (no '+' and no unbounded zero skipping): it validates its
/// input, so a number it returns is spelled by `s`, which holds digits only; and it takes
/// every non-empty digit string of up to ten bytes whose value fits in 32 bits.
#[verifier::external_body]
fn parse_u32(s: &[u8]) -> (r: Option<u32>)
    ensures
        r == decimal_u32(s@),
        r matches Some(v) ==> s@.len() > 0 && all_digits(s@) && v as int == digits_value(s@),
        0 < s@.len() <= 10 && all_digits(s@) && digits_value(s@) <= u32::MAX ==> r == Some(
            digits_value(s@) as u32,
        ),
{
    atoi_simd::parse::<u32, false, false>(s).ok()
}

/// Relies on voracious_radix_sort's `voracious_mt_sort` on `u64`: it puts the
/// values in ascending order, using `threads` workers.
#[verifier::external_body]
fn radix_sort(v: &mut Vec<u64>, threads: usize)
    requires
        threads >= 1,
    ensures
        final(v)@.to_multiset() == old(v)@.to_multiset(),
        sorted_by(final(v)@, |a: u64, b: u64| a <= b),
{
    v.voracious_mt_sort(threads);
}

pub open spec fn is_ascii_whitespace(b: u8) -> bool {
    b == 0x20u8 || b == 0x09u8 || b == 0x0au8 || b == 0x0cu8 || b == 0x0du8
}

/// The line without one trailing carriage return.
pub open spec fn strip_cr(line: Seq<u8>) -> Seq<u8> {
    if line.len() > 0 && line.last() == 0x0du8 {
        line.drop_last()
    } else {
        line
    }
}

/// The index of the first whitespace byte of `s` at or after `i`, or `s.len()`.
pub open spec fn first_ws(s: Seq<u8>, i: int) -> int
    decreases s.len() - i,
{
    if i >= s.len() {
        s.len() as int
    } else if is_ascii_whitespace(s[i]) {
        i
    } else {
        first_ws(s, i + 1)
    }
}

/// The index of the first newline of `s` at or after `i`, or `s.len()`.
pub open spec fn next_newline(s: Seq<u8>, i: int) -> int
    decreases s.len() - i,
{
    if i >= s.len() {
        s.len() as int
    } else if s[i] == 0x0au8 {
        i
    } else {
        next_newline(s, i + 1)
    }
}

/// The two fields of a line: what precedes its first whitespace byte and what follows it.
pub open spec fn fields(line: Seq<u8>) -> Option<(Seq<u8>, Seq<u8>)> {
    let l = strip_cr(line);
    let k = first_ws(l, 0);
    if k < l.len() {
        Some((l.subrange(0, k), l.subrange(k + 1, l.len() as int)))
    } else {
        None
    }
}

/// The pair of vertex ids a line spells, if it is two numbers.
pub open spec fn line_pair(line: Seq<u8>) -> Option<(u32, u32)> {
    match fields(line) {
        Some((a, b)) => match (decimal_u32(a), decimal_u32(b)) {
            (Some(f), Some(t)) => Some((f, t)),
            _ => None,
        },
        None => None,
    }
}

/// The packed edges a line contributes: both orientations of its pair, or none.
pub open spec fn line_edges(line: Seq<u8>) -> Seq<u64> {
    match line_pair(line) {
        Some((f, t)) => seq![key_of(t, f) as u64, key_of(f, t) as u64],
        None => Seq::empty(),
    }
}

/// `s` is a decimal number of at most ten digits that fits in 32 bits.
pub open spec fn short_u32(s: Seq<u8>) -> bool {
    0 < s.len() <= 10 && all_digits(s) && digits_value(s) <= u32::MAX
}

/// The edges of the lines of `s` that start at or after `i`, where `i` starts a line.
pub open spec fn edges_from(s: Seq<u8>, i: int) -> Seq<u64>
    decreases s.len() + 1 - i,
{
    if i < 0 || i >= s.len() {
        Seq::empty()
    } else {
        let j = next_newline(s, i);
        if j < i || j > s.len() {
            Seq::empty()
        } else {
            line_edges(s.subrange(i, j)) + edges_from(s, j + 1)
        }
    }
}

/// The packed edges of a whole text, in the order of its lines.
pub open spec fn text_edges(s: Seq<u8>) -> Seq<u64> {
    edges_from(s, 0)
}

proof fn lemma_next_newline_bounds(s: Seq<u8>, i: int)
    requires
        0 <= i <= s.len(),
    ensures
        i <= next_newline(s, i) <= s.len(),
        next_newline(s, i) < s.len() ==> s[next_newline(s, i)] == 0x0au8,
        forall|p: int| i <= p < next_newline(s, i) ==> s[p] != 0x0au8,
    decreases s.len() - i,
{
    if i < s.len() && s[i] != 0x0au8 {
        lemma_next_newline_bounds(s, i + 1);
    }
}

/// Index of the first newline at or after `i`.
fn find_newline(s: &[u8], i: usize) -> (j: usize)
    requires
        i <= s@.len(),
    ensures
        j == next_newline(s@, i as int),
{
    let mut j = i;
    while j < s.len()
        invariant
            i <= j <= s@.len(),
            next_newline(s@, i as int) == next_newline(s@, j as int),
        decreases s@.len() - j,
    {
        if s[j] == 0x0au8 {
            return j;
        }
        j = j + 1;
    }
    j
}

/// Splits a line (without its newline) into its two fields, after dropping one trailing
/// carriage return: what precedes the first ASCII whitespace byte, and all that follows it.
pub fn split_line(line: &[u8]) -> (r: Option<(&[u8], &[u8])>)
    ensures
        r matches Some((a, b)) <==> fields(line@) matches Some(_),
        r matches Some((a, b)) ==> fields(line@) == Some((a@, b@)),
{
    let n = line.len();
    let end: usize = if n > 0 && line[n - 1] == 0x0du8 {
        n - 1
    } else {
        n
    };
    let ghost l = strip_cr(line@);
    assert(l =~= line@.subrange(0, end as int));
    let mut k: usize = 0;
    while k < end
        invariant
            0 <= k <= end <= n == line@.len(),
            l == line@.subrange(0, end as int),
            l == strip_cr(line@),
            first_ws(l, 0) == first_ws(l, k as int),
        decreases end - k,
    {
        let b = line[k];
        assert(l[k as int] == b);
        if b == 0x20u8 || b == 0x09u8 || b == 0x0au8 || b == 0x0cu8 || b == 0x0du8 {
            let a = vstd::slice::slice_subrange(line, 0, k);
            let c = vstd::slice::slice_subrange(line, k + 1, end);
            assert(a@ =~= l.subrange(0, k as int));
            assert(c@ =~= l.subrange(k + 1, l.len() as int));
            assert(first_ws(l, k as int) == k);
            return Some((a, c));
        }
        k = k + 1;
    }
    assert(first_ws(l, k as int) == l.len());
    None
}

/// The two packed edges of the pair `(from, to)`: `(to, from)` then `(from, to)`.
pub fn pair_edges(from: u32, to: u32) -> (r: (EdgeAsInt, EdgeAsInt))
    ensures
        r.0 as int == key_of(to, from),
        r.1 as int == key_of(from, to),
{
    (Edge(to, from).to_int(), Edge(from, to).to_int())
}

/// The pair of vertex ids that a line spells: its two fields read as 32-bit numbers. A
/// pair comes back only where both fields are digit strings, and it is their values; it
/// comes back wherever both are digit strings of at most ten bytes whose values fit.
pub fn parse_line(line: &[u8]) -> (r: Option<(u32, u32)>)
    ensures
        r == line_pair(line@),
        r matches Some((f, t)) ==> fields(line@) matches Some((a, b)) && all_digits(a) && all_digits(b)
            && a.len() > 0 && b.len() > 0 && f as int == digits_value(a) && t as int == digits_value(b),
        (fields(line@) matches Some((a, b)) && short_u32(a) && short_u32(b)) ==> r matches Some(_),
{
    if let Some((a, b)) = split_line(line) {
        let f = parse_u32(a);
        let t = parse_u32(b);
        if let (Some(f), Some(t)) = (f, t) {
            return Some((f, t));
        }
    }
    None
}

/// Appends the edges of one line to `out`.
fn push_line_edges(line: &[u8], out: &mut Vec<EdgeAsInt>)
    ensures
        final(out)@ == old(out)@ + line_edges(line@),
{
    if let Some((f, t)) = parse_line(line) {
        let (x, y) = pair_edges(f, t);
        out.push(x);
        out.push(y);
        assert(final(out)@ =~= old(out)@ + line_edges(line@));
        return;
    }
    assert(final(out)@ =~= old(out)@ + line_edges(line@));
}

/// Parses every line of `content` into packed edges, both orientations of each pair,
/// in the order of the lines; lines that are not two numbers are skipped.
pub fn read_slice(content: &[u8]) -> (r: Vec<EdgeAsInt>)
    ensures
        r@ == text_edges(content@),
{
    let mut out: Vec<EdgeAsInt> = Vec::new();
    let n = content.len();
    let mut i: usize = 0;
    while i < n
        invariant
            n == content@.len(),
            i <= n,
            out@ + edges_from(content@, i as int) == text_edges(content@),
        decreases n - i,
    {
        let j = find_newline(content, i);
        proof {
            lemma_next_newline_bounds(content@, i as int);
        }
        let line = vstd::slice::slice_subrange(content, i, j);
        let ghost before = out@;
        push_line_edges(line, &mut out);
        assert(before + edges_from(content@, i as int)
            == before + (line_edges(line@) + edges_from(content@, j + 1)));
        assert(out@ + edges_from(content@, j + 1) =~= before + (line_edges(line@)
            + edges_from(content@, j + 1)));
        i = if j < n {
            j + 1
        } else {
            n
        };
    }
    assert(edges_from(content@, i as int) =~= Seq::<u64>::empty());
    assert(out@ =~= out@ + edges_from(content@, i as int));
    out
}


proof fn lemma_next_newline_monotone(s: Seq<u8>, i: int, k: int)
    requires
        0 <= i <= k <= s.len(),
    ensures
        next_newline(s, i) <= next_newline(s, k),
    decreases k - i,
{
    lemma_next_newline_bounds(s, k);
    if i < k && s[i] != 0x0au8 {
        lemma_next_newline_monotone(s, i + 1, k);
    }
}

proof fn lemma_next_newline_prefix(s: Seq<u8>, k: int, i: int)
    requires
        0 <= i <= k <= s.len(),
    ensures
        next_newline(s.subrange(0, k), i) == if next_newline(s, i) < k {
            next_newline(s, i)
        } else {
            k
        },
    decreases k - i,
{
    lemma_next_newline_bounds(s, i);
    if i < k && s[i] != 0x0au8 {
        lemma_next_newline_prefix(s, k, i + 1);
    }
}

proof fn lemma_next_newline_suffix(s: Seq<u8>, k: int, j: int)
    requires
        0 <= k <= s.len(),
        0 <= j <= s.len() - k,
    ensures
        next_newline(s.subrange(k, s.len() as int), j) + k == next_newline(s, k + j),
    decreases s.len() - k - j,
{
    if j < s.len() - k && s[k + j] != 0x0au8 {
        lemma_next_newline_suffix(s, k, j + 1);
    }
}

proof fn lemma_edges_from_suffix(s: Seq<u8>, k: int, j: int)
    requires
        0 <= k <= s.len(),
        0 <= j,
    ensures
        edges_from(s.subrange(k, s.len() as int), j) == edges_from(s, k + j),
    decreases s.len() + 1 - k - j,
{
    let q = s.subrange(k, s.len() as int);
    if j < q.len() {
        lemma_next_newline_suffix(s, k, j);
        lemma_next_newline_bounds(q, j);
        let nq = next_newline(q, j);
        assert(q.subrange(j, nq) =~= s.subrange(k + j, k + nq));
        lemma_edges_from_suffix(s, k, nq + 1);
    }
}

proof fn lemma_empty_line()
    ensures
        line_edges(Seq::<u8>::empty()) == Seq::<u64>::empty(),
{
    assert(strip_cr(Seq::<u8>::empty()) == Seq::<u8>::empty());
}

/// Past a line boundary `k`, the edges of the text are those of its part after `k`.
proof fn lemma_edges_from_split(s: Seq<u8>, k: int, i: int)
    requires
        0 <= i <= k <= s.len(),
        k == s.len() || s[k] == 0x0au8,
    ensures
        edges_from(s, i) == edges_from(s.subrange(0, k), i) + edges_from(
            s.subrange(k, s.len() as int),
            0,
        ),
    decreases k - i,
{
    let p = s.subrange(0, k);
    let q = s.subrange(k, s.len() as int);
    lemma_empty_line();
    if k < s.len() {
        lemma_next_newline_suffix(s, k, 0);
        assert(q.subrange(0, 0) =~= Seq::<u8>::empty());
        assert(s.subrange(k, k) =~= Seq::<u8>::empty());
        lemma_edges_from_suffix(s, k, 1);
        assert(edges_from(q, 0) =~= edges_from(s, k + 1));
    } else {
        assert(edges_from(q, 0) =~= Seq::<u64>::empty());
        assert(edges_from(s, k + 1) =~= Seq::<u64>::empty());
    }
    if i == k {
        assert(edges_from(p, i) == Seq::<u64>::empty());
        assert(edges_from(s, i) =~= Seq::<u64>::empty() + edges_from(q, 0));
    } else {
        lemma_next_newline_bounds(s, i);
        lemma_next_newline_prefix(s, k, i);
        let j = next_newline(s, i);
        assert(j <= k);
        assert(p.subrange(i, j) =~= s.subrange(i, j));
        if j < k {
            lemma_edges_from_split(s, k, j + 1);
            assert(edges_from(s, i) =~= edges_from(p, i) + edges_from(q, 0));
        } else {
            assert(edges_from(p, j + 1) == Seq::<u64>::empty());
            assert(edges_from(s, i) =~= edges_from(p, i) + edges_from(q, 0));
        }
    }
}

/// Cutting a text at a line boundary cuts its edges at the same place.
pub proof fn lemma_text_edges_split(s: Seq<u8>, k: int)
    requires
        0 <= k <= s.len(),
        k == 0 || k == s.len() || s[k] == 0x0au8,
    ensures
        text_edges(s) == text_edges(s.subrange(0, k)) + text_edges(s.subrange(k, s.len() as int)),
{
    if k == 0 {
        assert(s.subrange(0, 0) =~= Seq::<u8>::empty());
        assert(s.subrange(0, s.len() as int) =~= s);
        assert(text_edges(s) =~= Seq::<u64>::empty() + text_edges(s));
    } else {
        lemma_edges_from_split(s, k, 0);
    }
}

/// The edges of a text up to a line boundary `b` are those up to an earlier boundary `a`
/// followed by those of the slice between them.
proof fn lemma_slice_edges(s: Seq<u8>, a: int, b: int)
    requires
        0 <= a <= b <= s.len(),
        a == 0 || a == s.len() || s[a] == 0x0au8,
    ensures
        text_edges(s.subrange(0, b)) == text_edges(s.subrange(0, a)) + text_edges(
            s.subrange(a, b),
        ),
{
    let pre = s.subrange(0, b);
    lemma_text_edges_split(pre, a);
    assert(pre.subrange(0, a) =~= s.subrange(0, a));
    assert(pre.subrange(a, pre.len() as int) =~= s.subrange(a, b));
}

/// Where each of `n` workers starts reading: the first newline at or after an even
/// share of the text (position 0 for the first, the end of the text after the last).
pub fn split_positions(content: &[u8], n: usize) -> (r: Vec<usize>)
    requires
        n >= 1,
    ensures
        r@.len() == n + 1,
        r@[0] == 0,
        r@[n as int] == content@.len(),
        forall|i: int|
            0 < i < n ==> #[trigger] r@[i] == next_newline(
                content@,
                (content@.len() as int / n as int) * i,
            ),
        forall|i: int| 0 <= i < n ==> #[trigger] r@[i] <= r@[i + 1],
        forall|i: int| 0 <= i <= n ==> #[trigger] r@[i] <= content@.len(),
        forall|i: int|
            0 < i <= n ==> #[trigger] r@[i] == content@.len() || content@[r@[i] as int] == 0x0au8,
{
    let len = content.len();
    let share = len / n;
    let mut r: Vec<usize> = Vec::new();
    r.push(0);
    let mut i: usize = 1;
    while i < n
        invariant
            1 <= i <= n,
            share == len as int / n as int,
            len == content@.len(),
            r@.len() == i,
            r@[0] == 0,
            forall|t: int|
                0 < t < i ==> #[trigger] r@[t] == next_newline(content@, share * t),
            forall|t: int| 0 <= t < i - 1 ==> #[trigger] r@[t] <= r@[t + 1],
            forall|t: int|
                0 < t < i ==> #[trigger] r@[t] == len || content@[r@[t] as int] == 0x0au8,
            forall|t: int| 0 <= t < i ==> #[trigger] r@[t] <= len,
        decreases n - i,
    {
        assert(share * i <= len) by (nonlinear_arith)
            requires share == len as int / n as int, i <= n, n >= 1, len >= 0;
        assert(share * (i - 1) <= share * i) by (nonlinear_arith)
            requires share >= 0, i >= 1;
        let begin = share * i;
        let p = find_newline(content, begin);
        proof {
            lemma_next_newline_bounds(content@, begin as int);
            if i > 1 {
                lemma_next_newline_monotone(content@, share * (i - 1), begin as int);
            }
        }
        r.push(p);
        i = i + 1;
    }
    r.push(len);
    r
}

/// The loader's result for a text: its edges, sorted ascending.
pub open spec fn sorted_edges_of(r: Seq<u64>, content: Seq<u8>) -> bool {
    &&& sorted_by(r, |a: u64, b: u64| a <= b)
    &&& r.to_multiset() == text_edges(content).to_multiset()
}

/// Parses the text in `nthreads` slices cut at line boundaries, joins what they give and
/// sorts it with a radix sort that uses `nthreads` workers.
pub fn to_sorted_edges(content: &[u8], nthreads: usize) -> (r: Vec<EdgeAsInt>)
    requires
        nthreads >= 1,
    ensures
        sorted_edges_of(r@, content@),
        symmetric_counts(r@),
{
    let pos = split_positions(content, nthreads);
    let mut all: Vec<EdgeAsInt> = Vec::new();
    let mut i: usize = 0;
    assert(content@.subrange(0, 0) =~= Seq::<u8>::empty());
    while i < nthreads
        invariant
            0 <= i <= nthreads,
            pos@.len() == nthreads + 1,
            pos@[0] == 0,
            pos@[nthreads as int] == content@.len(),
            forall|t: int| 0 <= t < nthreads ==> #[trigger] pos@[t] <= pos@[t + 1],
            forall|t: int| 0 <= t <= nthreads ==> #[trigger] pos@[t] <= content@.len(),
            forall|t: int|
                0 < t <= nthreads ==> #[trigger] pos@[t] == content@.len() || content@[pos@[t] as int]
                    == 0x0au8,
            all@ == text_edges(content@.subrange(0, pos@[i as int] as int)),
        decreases nthreads - i,
    {
        let a = pos[i];
        let b = pos[i + 1];
        assert(pos@[i as int] <= pos@[i + 1]);
        assert(pos@[i + 1] <= content@.len());
        let slice = vstd::slice::slice_subrange(content, a, b);
        let mut part = read_slice(slice);
        proof {
            if i > 0 {
                assert(a == content@.len() || content@[a as int] == 0x0au8);
            }
            lemma_slice_edges(content@, a as int, b as int);
        }
        all.append(&mut part);
        i = i + 1;
    }
    assert(content@.subrange(0, content@.len() as int) =~= content@);
    radix_sort(&mut all, nthreads);
    proof {
        lemma_loaded_symmetric(content@, all@);
    }
    all
}

proof fn lemma_line_symmetric(line: Seq<u8>)
    ensures
        symmetric_counts(line_edges(line)),
{
    assert forall|a: u32, b: u32| #[trigger] edge_count(line_edges(line), a, b) == edge_count(line_edges(line), b, a) by {
        match fields(line) {
            Some((x, y)) => match (decimal_u32(x), decimal_u32(y)) {
                (Some(f), Some(t)) => {
                    lemma_round_trip(t, f);
                    lemma_round_trip(f, t);
                    let k1 = key_of(t, f) as u64;
                    let k2 = key_of(f, t) as u64;
                    let e = line_edges(line);
                    assert(e == seq![k1, k2]);
                    assert(e.drop_last() =~= seq![k1]);
                    assert(seq![k1].drop_last() =~= Seq::<u64>::empty());
                    assert(seq![k1].last() == k1);
                    assert(e.last() == k2);
                    assert(edge_count(Seq::<u64>::empty(), a, b) == 0);
                    assert(edge_count(Seq::<u64>::empty(), b, a) == 0);
                    assert(from_of(k1) == t && to_of(k1) == f && from_of(k2) == f && to_of(k2) == t);
                    assert(edge_count(seq![k1], a, b) == if t == a && f == b { 1int } else { 0 });
                    assert(edge_count(seq![k1], b, a) == if t == b && f == a { 1int } else { 0 });
                    assert(edge_count(e, a, b) == edge_count(seq![k1], a, b) + if f == a && t == b { 1int } else { 0 });
                    assert(edge_count(e, b, a) == edge_count(seq![k1], b, a) + if f == b && t == a { 1int } else { 0 });
                },
                _ => {},
            },
            None => {},
        }
    }
}

proof fn lemma_edges_from_symmetric(s: Seq<u8>, i: int)
    ensures
        symmetric_counts(edges_from(s, i)),
    decreases s.len() + 1 - i,
{
    if 0 <= i < s.len() {
        let j = next_newline(s, i);
        if i <= j <= s.len() {
            lemma_line_symmetric(s.subrange(i, j));
            lemma_edges_from_symmetric(s, j + 1);
            assert forall|a: u32, b: u32| #[trigger] edge_count(edges_from(s, i), a, b) == edge_count(edges_from(s, i), b, a) by {
                lemma_count_concat(line_edges(s.subrange(i, j)), edges_from(s, j + 1), a, b);
                lemma_count_concat(line_edges(s.subrange(i, j)), edges_from(s, j + 1), b, a);
            }
        }
    }
}

/// Every line gives both orientations of its pair, so the loaded edges count each edge
/// as often as its reverse.
pub proof fn lemma_loaded_symmetric(content: Seq<u8>, r: Seq<u64>)
    requires
        sorted_edges_of(r, content),
    ensures
        symmetric_counts(r),
{
    lemma_edges_from_symmetric(content, 0);
    assert forall|a: u32, b: u32| #[trigger] edge_count(r, a, b) == edge_count(r, b, a) by {
        lemma_count_is_multiplicity(r, a, b);
        lemma_count_is_multiplicity(r, b, a);
        lemma_count_is_multiplicity(text_edges(content), a, b);
        lemma_count_is_multiplicity(text_edges(content), b, a);
        assert(edge_count(text_edges(content), a, b) == edge_count(text_edges(content), b, a));
    }
}

/// Loading is a function of the text: two loads of the same text give the same array.
pub proof fn lemma_load_deterministic(content: Seq<u8>, r1: Seq<u64>, r2: Seq<u64>)
    requires
        sorted_edges_of(r1, content),
        sorted_edges_of(r2, content),
    ensures
        r1 == r2,
{
    let leq = |a: u64, b: u64| a <= b;
    assert(vstd::relations::total_ordering(leq));
    vstd::seq_lib::lemma_sorted_unique(r1, r2, leq);
}

} // verus!
