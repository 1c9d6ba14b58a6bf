//! Line splitting, offset-to-line mapping, and the line-filtering searches.

use vstd::prelude::*;
use vstd::string::StrSliceExecFns;
use crate::chars::chars_of;
use crate::engine::Strategy;
use crate::engine::is_match;
use crate::engine::search_spec;
use crate::engine::search_vecs;
use crate::tables::chars_in_alphabet;

verus! {

/// Number of line-break characters strictly before position `upto`.
pub open spec fn newline_count(t: Seq<char>, upto: int) -> int
    decreases upto,
        when upto >= 0
{
    if upto <= 0 {
        0
    } else {
        newline_count(t, upto - 1) + if t[upto - 1] == '\n' {
            1int
        } else {
            0int
        }
    }
}

/// The first position at or after `from` holding a line break, or the
/// length of `t` when none follows.
pub open spec fn find_newline(t: Seq<char>, from: int) -> int
    decreases t.len() - from,
        when 0 <= from <= t.len()
{
    if from >= t.len() {
        t.len() as int
    } else if t[from] == '\n' {
        from
    } else {
        find_newline(t, from + 1)
    }
}

/// A carriage return just before a line break is not part of the line.
pub open spec fn strip_cr(s: Seq<char>) -> Seq<char> {
    if s.len() > 0 && s.last() == '\r' {
        s.drop_last()
    } else {
        s
    }
}

/// `find_newline` stays within bounds, lands on a line break when one
/// exists, and skips no earlier one.
pub proof fn lemma_find_newline_props(t: Seq<char>, from: int)
    requires
        0 <= from <= t.len(),
    ensures
        from <= find_newline(t, from) <= t.len(),
        find_newline(t, from) < t.len() ==> t[find_newline(t, from)] == '\n',
        forall|q: int| from <= q < find_newline(t, from) ==> t[q] != '\n',
    decreases t.len() - from,
{
    if from < t.len() && t[from] != '\n' {
        lemma_find_newline_props(t, from + 1);
    }
}

/// A position with no line break before it (from `from`) that holds a line
/// break, or is the end, is what `find_newline` returns.
pub proof fn lemma_find_newline_is(t: Seq<char>, from: int, p: int)
    requires
        0 <= from <= p <= t.len(),
        forall|q: int| from <= q < p ==> t[q] != '\n',
        p == t.len() || t[p] == '\n',
    ensures
        find_newline(t, from) == p,
    decreases p - from,
{
    if from < p {
        lemma_find_newline_is(t, from + 1, p);
    }
}

/// The text's lines: segments delimited by line breaks, each with a
/// carriage return before the break removed, and with no empty final
/// segment after a terminating break.
pub open spec fn lines_of(t: Seq<char>) -> Seq<Seq<char>>
    decreases t.len(),
{
    if t.len() == 0 {
        Seq::empty()
    } else {
        let p = find_newline(t, 0);
        proof {
            lemma_find_newline_props(t, 0);
        }
        if p == t.len() {
            seq![t]
        } else {
            seq![strip_cr(t.take(p))] + lines_of(t.skip(p + 1))
        }
    }
}

/// Counting line breaks is additive around a split point.
pub proof fn lemma_newline_count_skip(t: Seq<char>, s: int, o: int)
    requires
        0 <= s <= o <= t.len(),
    ensures
        newline_count(t, o) == newline_count(t, s) + newline_count(t.skip(s), o - s),
    decreases o - s,
{
    if o > s {
        lemma_newline_count_skip(t, s, o - 1);
        assert(t.skip(s)[o - s - 1] == t[o - 1]);
    }
}

/// A stretch without line breaks adds nothing to the count.
pub proof fn lemma_newline_count_no_nl(t: Seq<char>, a: int, b: int)
    requires
        0 <= a <= b <= t.len(),
        forall|q: int| a <= q < b ==> t[q] != '\n',
    ensures
        newline_count(t, b) == newline_count(t, a),
    decreases b - a,
{
    if b > a {
        lemma_newline_count_no_nl(t, a, b - 1);
    }
}

/// The count of line breaks never exceeds the scanned length.
pub proof fn lemma_newline_count_bounds(t: Seq<char>, o: int)
    requires
        0 <= o,
    ensures
        0 <= newline_count(t, o) <= o,
    decreases o,
{
    if o > 0 {
        lemma_newline_count_bounds(t, o - 1);
    }
}

/// Every valid text position lies on some line: the number of line breaks
/// before it indexes into the text's line sequence.
pub proof fn lemma_line_index_bound(t: Seq<char>, o: int)
    requires
        0 <= o < t.len(),
    ensures
        0 <= newline_count(t, o) < lines_of(t).len(),
    decreases t.len(),
{
    lemma_find_newline_props(t, 0);
    lemma_newline_count_bounds(t, o);
    let p = find_newline(t, 0);
    if p == t.len() {
        lemma_newline_count_no_nl(t, 0, o);
    } else {
        if o <= p {
            lemma_newline_count_no_nl(t, 0, o);
        } else {
            lemma_newline_count_skip(t, p + 1, o);
            lemma_newline_count_no_nl(t, 0, p);
            assert(newline_count(t, p + 1) == 1);
            lemma_line_index_bound(t.skip(p + 1), o - p - 1);
        }
    }
}

/// The character ranges of the text's lines, in order: `txt` restricted to
/// the `k`-th returned range is the `k`-th line.
fn line_ranges(txt: &Vec<char>) -> (r: Vec<(usize, usize)>)
    ensures
        r@.len() == lines_of(txt@).len(),
        forall|k: int|
            0 <= k < r@.len() ==> #[trigger] r@[k].0 <= r@[k].1 <= txt@.len()
                && txt@.subrange(r@[k].0 as int, r@[k].1 as int) == lines_of(txt@)[k],
{
    let n = txt.len();
    let ghost t = txt@;
    let mut ranges: Vec<(usize, usize)> = Vec::new();
    let mut start: usize = 0;
    let mut pos: usize = 0;
    proof {
        assert(t.skip(0) =~= t);
        assert(Seq::new(0, |k: int| t.subrange(ranges@[k].0 as int, ranges@[k].1 as int))
            + lines_of(t) =~~= lines_of(t));
    }
    while pos < n
        invariant
            t == txt@,
            n == t.len(),
            start <= pos <= n,
            forall|q: int| start <= q < pos ==> t[q] != '\n',
            lines_of(t) =~~= Seq::new(ranges@.len(), |k: int| t.subrange(ranges@[k].0 as int, ranges@[k].1 as int))
                + lines_of(t.skip(start as int)),
            forall|k: int| 0 <= k < ranges@.len() ==> #[trigger] ranges@[k].0 <= ranges@[k].1 <= n,
        decreases n - pos,
    {
        if txt[pos] == '\n' {
            let end = if pos > start && txt[pos - 1] == '\r' {
                pos - 1
            } else {
                pos
            };
            proof {
                let t2 = t.skip(start as int);
                let prel = pos - start as int;
                assert forall|q: int| 0 <= q < prel implies t2[q] != '\n' by {
                    assert(t2[q] == t[start + q]);
                }
                assert(t2[prel] == t[pos as int]);
                lemma_find_newline_is(t2, 0, prel);
                assert(t2.take(prel) =~= t.subrange(start as int, pos as int));
                assert(strip_cr(t2.take(prel)) =~= t.subrange(start as int, end as int));
                assert(t2.skip(prel + 1) =~= t.skip(pos + 1));
                assert(lines_of(t2) == seq![strip_cr(t2.take(prel))] + lines_of(t2.skip(prel + 1)));
                let old_views = Seq::new(ranges@.len(), |k: int| t.subrange(ranges@[k].0 as int, ranges@[k].1 as int));
                let new_views = Seq::new(ranges@.push((start, end)).len(), |k: int|
                    t.subrange(ranges@.push((start, end))[k].0 as int, ranges@.push((start, end))[k].1 as int));
                assert(new_views =~~= old_views.push(t.subrange(start as int, end as int)));
                assert(old_views.push(t.subrange(start as int, end as int)) + lines_of(t.skip(pos + 1))
                    =~~= old_views + (seq![t.subrange(start as int, end as int)] + lines_of(t.skip(pos + 1))));
            }
            ranges.push((start, end));
            start = pos + 1;
        }
        pos += 1;
    }
    if start < n {
        proof {
            let t2 = t.skip(start as int);
            assert forall|q: int| 0 <= q < t2.len() implies t2[q] != '\n' by {
                assert(t2[q] == t[start + q]);
            }
            lemma_find_newline_is(t2, 0, t2.len() as int);
            assert(lines_of(t2) == seq![t2]);
            assert(t.subrange(start as int, n as int) =~= t2);
            let old_views = Seq::new(ranges@.len(), |k: int| t.subrange(ranges@[k].0 as int, ranges@[k].1 as int));
            let new_views = Seq::new(ranges@.push((start, n)).len(), |k: int|
                t.subrange(ranges@.push((start, n))[k].0 as int, ranges@.push((start, n))[k].1 as int));
            assert(new_views =~~= old_views.push(t2));
            assert(lines_of(t) =~~= old_views + seq![t2]);
            assert(old_views + seq![t2] =~~= old_views.push(t2));
        }
        ranges.push((start, n));
    } else {
        proof {
            assert(lines_of(t.skip(start as int)) =~~= Seq::<Seq<char>>::empty());
            assert(lines_of(t) =~~= Seq::new(ranges@.len(), |k: int|
                t.subrange(ranges@[k].0 as int, ranges@[k].1 as int)));
        }
    }
    proof {
        assert forall|k: int| 0 <= k < ranges@.len() implies #[trigger] ranges@[k].0 <= ranges@[k].1
            <= txt@.len() && txt@.subrange(ranges@[k].0 as int, ranges@[k].1 as int) == lines_of(
            txt@,
        )[k] by {
            assert(lines_of(t)[k] == Seq::new(ranges@.len(), |k2: int|
                t.subrange(ranges@[k2].0 as int, ranges@[k2].1 as int))[k]);
        }
    }
    ranges
}

/// Maps each match offset to the content of the line it falls on: the line
/// whose index is the number of line breaks strictly before the offset.
pub fn indices_to_lines<'a>(indices: Vec<i32>, contents: &'a str) -> (r: Vec<&'a str>)
    requires
        forall|k: int| 0 <= k < indices@.len() ==> 0 <= #[trigger] indices@[k] < contents@.len(),
    ensures
        r@.len() == indices@.len(),
        forall|k: int|
            0 <= k < indices@.len() ==> #[trigger] r@[k]@ == lines_of(contents@)[newline_count(
                contents@,
                indices@[k] as int,
            )],
{
    let txt = chars_of(contents);
    let ranges = line_ranges(&txt);
    let mut out: Vec<&'a str> = Vec::new();
    let mut k: usize = 0;
    while k < indices.len()
        invariant
            txt@ == contents@,
            ranges@.len() == lines_of(contents@).len(),
            forall|k2: int|
                0 <= k2 < ranges@.len() ==> #[trigger] ranges@[k2].0 <= ranges@[k2].1
                    <= contents@.len() && contents@.subrange(
                    ranges@[k2].0 as int,
                    ranges@[k2].1 as int,
                ) == lines_of(contents@)[k2],
            forall|k2: int|
                0 <= k2 < indices@.len() ==> 0 <= #[trigger] indices@[k2] < contents@.len(),
            k <= indices@.len(),
            out@.len() == k,
            forall|k2: int|
                0 <= k2 < k ==> #[trigger] out@[k2]@ == lines_of(contents@)[newline_count(
                    contents@,
                    indices@[k2] as int,
                )],
        decreases indices@.len() - k,
    {
        let idx = indices[k] as usize;
        let mut cnt: usize = 0;
        let mut p: usize = 0;
        while p < idx
            invariant
                txt@ == contents@,
                idx <= txt@.len(),
                p <= idx,
                cnt <= p,
                cnt == newline_count(txt@, p as int),
            decreases idx - p,
        {
            if txt[p] == '\n' {
                cnt += 1;
            }
            p += 1;
        }
        proof {
            lemma_line_index_bound(txt@, idx as int);
        }
        let pr = ranges[cnt];
        let line = contents.substring_char(pr.0, pr.1);
        out.push(line);
        k += 1;
    }
    out
}

/// Naive lowering: an upper-case basic Latin letter becomes its lower-case
/// counterpart; every other character is kept.  The transform is one
/// character for one character, so offsets into a lowered text line up with
/// the original.
pub open spec fn lower_char(c: char) -> char {
    if 65 <= (c as u32) && (c as u32) <= 90 {
        (((c as u32) + 32) as u8) as char
    } else {
        c
    }
}

/// `s` lowered character by character.
pub open spec fn lower_seq(s: Seq<char>) -> Seq<char> {
    Seq::new(s.len(), |k: int| lower_char(s[k]))
}

/// Lowering keeps the length and stays inside the supported alphabet.
pub proof fn lemma_lower_alphabet(s: Seq<char>)
    requires
        chars_in_alphabet(s),
    ensures
        lower_seq(s).len() == s.len(),
        chars_in_alphabet(lower_seq(s)),
{
}

/// Lowers one character.
fn lower_char_x(c: char) -> (r: char)
    ensures
        r == lower_char(c),
{
    let u = c as u32;
    if 65 <= u && u <= 90 {
        ((u + 32) as u8) as char
    } else {
        c
    }
}

/// Lowers a character vector.
pub(crate) fn lower_vec(v: &Vec<char>) -> (r: Vec<char>)
    ensures
        r@ == lower_seq(v@),
{
    let mut out: Vec<char> = Vec::new();
    let mut i: usize = 0;
    while i < v.len()
        invariant
            i <= v@.len(),
            out@.len() == i,
            forall|k: int| 0 <= k < i ==> #[trigger] out@[k] == lower_char(v@[k]),
        decreases v@.len() - i,
    {
        out.push(lower_char_x(v[i]));
        i += 1;
    }
    proof {
        assert(out@ =~= lower_seq(v@));
    }
    out
}

/// `needle` occurs in `hay` starting at offset `o`.
pub open spec fn contains_at(hay: Seq<char>, needle: Seq<char>, o: int) -> bool {
    &&& 0 <= o
    &&& o + needle.len() <= hay.len()
    &&& hay.subrange(o, o + needle.len() as int) == needle
}

/// `needle` occurs somewhere in `hay`.
pub open spec fn seq_contains(hay: Seq<char>, needle: Seq<char>) -> bool {
    exists|o: int| contains_at(hay, needle, o)
}

/// Checks whether the query occurs inside `txt[lo..hi]`, comparing either
/// the characters themselves or their lowered forms.
fn range_contains(txt: &Vec<char>, lo: usize, hi: usize, q: &Vec<char>, fold: bool) -> (r: bool)
    requires
        lo <= hi <= txt@.len(),
    ensures
        fold ==> r == seq_contains(
            lower_seq(txt@.subrange(lo as int, hi as int)),
            lower_seq(q@),
        ),
        !fold ==> r == seq_contains(txt@.subrange(lo as int, hi as int), q@),
{
    let ghost hay = if fold {
        lower_seq(txt@.subrange(lo as int, hi as int))
    } else {
        txt@.subrange(lo as int, hi as int)
    };
    let ghost needle = if fold {
        lower_seq(q@)
    } else {
        q@
    };
    let w = hi - lo;
    let ql = q.len();
    if ql > w {
        proof {
            assert(hay.len() == w);
            assert(needle.len() == ql);
            assert(!seq_contains(hay, needle));
        }
        return false;
    }
    let mut o: usize = 0;
    while o <= w - ql
        invariant
            lo <= hi <= txt@.len(),
            w == hi - lo,
            ql == q@.len(),
            ql <= w,
            o <= w,
            hay == if fold {
                lower_seq(txt@.subrange(lo as int, hi as int))
            } else {
                txt@.subrange(lo as int, hi as int)
            },
            needle == if fold {
                lower_seq(q@)
            } else {
                q@
            },
            hay.len() == w,
            needle.len() == ql,
            forall|o2: int| 0 <= o2 < o ==> !contains_at(hay, needle, o2),
        decreases w + 1 - o,
    {
        let mut q_i: usize = 0;
        let mut mismatch = false;
        while q_i < ql
            invariant
                lo <= hi <= txt@.len(),
                w == hi - lo,
                ql == q@.len(),
                o + ql <= w,
                q_i <= ql,
                hay == if fold {
                    lower_seq(txt@.subrange(lo as int, hi as int))
                } else {
                    txt@.subrange(lo as int, hi as int)
                },
                needle == if fold {
                    lower_seq(q@)
                } else {
                    q@
                },
                hay.len() == w,
                needle.len() == ql,
                !mismatch ==> forall|p: int| 0 <= p < q_i ==> hay[o + p] == needle[p],
                mismatch ==> exists|p: int| 0 <= p < ql && hay[o + p] != needle[p],
            decreases ql - q_i,
        {
            let a = txt[lo + o + q_i];
            let b = q[q_i];
            let same = if fold {
                lower_char_x(a) == lower_char_x(b)
            } else {
                a == b
            };
            proof {
                assert(hay[o + q_i] == if fold {
                    lower_char(txt@.subrange(lo as int, hi as int)[o + q_i])
                } else {
                    txt@.subrange(lo as int, hi as int)[o + q_i]
                });
                assert(txt@.subrange(lo as int, hi as int)[o + q_i] == txt@[lo + o + q_i]);
                assert(needle[q_i as int] == if fold {
                    lower_char(q@[q_i as int])
                } else {
                    q@[q_i as int]
                });
            }
            if !same {
                mismatch = true;
                proof {
                    assert(hay[o + q_i] != needle[q_i as int]);
                }
            }
            q_i += 1;
        }
        if !mismatch {
            proof {
                assert(hay.subrange(o as int, o + ql) =~= needle);
                assert(contains_at(hay, needle, o as int));
            }
            return true;
        }
        proof {
            let p = choose|p: int| 0 <= p < ql && hay[o + p] != needle[p];
            if contains_at(hay, needle, o as int) {
                assert(hay.subrange(o as int, o + ql)[p] == hay[o + p]);
                assert(false);
            }
        }
        o += 1;
    }
    proof {
        if seq_contains(hay, needle) {
            let o2 = choose|o2: int| contains_at(hay, needle, o2);
            assert(o2 < o);
            assert(false);
        }
    }
    false
}

/// The lines among `ls` that contain `q`.
pub open spec fn matching_of(ls: Seq<Seq<char>>, q: Seq<char>) -> Seq<Seq<char>> {
    ls.filter(|l: Seq<char>| seq_contains(l, q))
}

/// The lines among `ls` whose lowered form contains the (already lowered)
/// query `ql`.
pub open spec fn matching_ci_of(ls: Seq<Seq<char>>, ql: Seq<char>) -> Seq<Seq<char>> {
    ls.filter(|l: Seq<char>| seq_contains(lower_seq(l), ql))
}

/// Filtering one more line keeps the previous selection and appends the
/// line exactly when it matches.
proof fn lemma_matching_push(ls: Seq<Seq<char>>, x: Seq<char>, q: Seq<char>)
    ensures
        matching_of(ls.push(x), q) == if seq_contains(x, q) {
            matching_of(ls, q).push(x)
        } else {
            matching_of(ls, q)
        },
        matching_ci_of(ls.push(x), q) == if seq_contains(lower_seq(x), q) {
            matching_ci_of(ls, q).push(x)
        } else {
            matching_ci_of(ls, q)
        },
{
    reveal_with_fuel(Seq::<_>::filter, 2);
    assert(ls.push(x).drop_last() =~= ls);
    assert(ls.push(x).last() == x);
}

/// Returns the lines of `contents` that contain `query`, in order.
pub fn search<'a>(query: &str, contents: &'a str) -> (r: Vec<&'a str>)
    ensures
        r@.len() == matching_of(lines_of(contents@), query@).len(),
        forall|k: int|
            0 <= k < r@.len() ==> #[trigger] r@[k]@ == matching_of(lines_of(contents@), query@)[k],
{
    let txt = chars_of(contents);
    let q = chars_of(query);
    let ranges = line_ranges(&txt);
    let mut out: Vec<&'a str> = Vec::new();
    let mut k: usize = 0;
    while k < ranges.len()
        invariant
            txt@ == contents@,
            q@ == query@,
            ranges@.len() == lines_of(contents@).len(),
            forall|k2: int|
                0 <= k2 < ranges@.len() ==> #[trigger] ranges@[k2].0 <= ranges@[k2].1
                    <= contents@.len() && contents@.subrange(
                    ranges@[k2].0 as int,
                    ranges@[k2].1 as int,
                ) == lines_of(contents@)[k2],
            k <= ranges@.len(),
            out@.len() == matching_of(lines_of(contents@).take(k as int), query@).len(),
            forall|i: int|
                0 <= i < out@.len() ==> #[trigger] out@[i]@ == matching_of(
                    lines_of(contents@).take(k as int),
                    query@,
                )[i],
        decreases ranges@.len() - k,
    {
        let pr = ranges[k];
        let c = range_contains(&txt, pr.0, pr.1, &q, false);
        proof {
            let ls = lines_of(contents@);
            assert(ls.take(k + 1) =~= ls.take(k as int).push(ls[k as int]));
            lemma_matching_push(ls.take(k as int), ls[k as int], query@);
            assert(contents@.subrange(pr.0 as int, pr.1 as int) == ls[k as int]);
        }
        if c {
            let line = contents.substring_char(pr.0, pr.1);
            out.push(line);
        }
        k += 1;
    }
    proof {
        assert(lines_of(contents@).take(ranges@.len() as int) =~= lines_of(contents@));
    }
    out
}

/// Returns the lines of `contents` that contain `query` regardless of
/// basic-Latin letter case, in their original (non-lowered) form.
pub fn search_case_insensitive<'a>(query: &str, contents: &'a str) -> (r: Vec<&'a str>)
    ensures
        r@.len() == matching_ci_of(lines_of(contents@), lower_seq(query@)).len(),
        forall|k: int|
            0 <= k < r@.len() ==> #[trigger] r@[k]@ == matching_ci_of(
                lines_of(contents@),
                lower_seq(query@),
            )[k],
{
    let txt = chars_of(contents);
    let q = chars_of(query);
    let ranges = line_ranges(&txt);
    let mut out: Vec<&'a str> = Vec::new();
    let mut k: usize = 0;
    while k < ranges.len()
        invariant
            txt@ == contents@,
            q@ == query@,
            ranges@.len() == lines_of(contents@).len(),
            forall|k2: int|
                0 <= k2 < ranges@.len() ==> #[trigger] ranges@[k2].0 <= ranges@[k2].1
                    <= contents@.len() && contents@.subrange(
                    ranges@[k2].0 as int,
                    ranges@[k2].1 as int,
                ) == lines_of(contents@)[k2],
            k <= ranges@.len(),
            out@.len() == matching_ci_of(lines_of(contents@).take(k as int), lower_seq(query@)).len(),
            forall|i: int|
                0 <= i < out@.len() ==> #[trigger] out@[i]@ == matching_ci_of(
                    lines_of(contents@).take(k as int),
                    lower_seq(query@),
                )[i],
        decreases ranges@.len() - k,
    {
        let pr = ranges[k];
        let c = range_contains(&txt, pr.0, pr.1, &q, true);
        proof {
            let ls = lines_of(contents@);
            assert(ls.take(k + 1) =~= ls.take(k as int).push(ls[k as int]));
            lemma_matching_push(ls.take(k as int), ls[k as int], lower_seq(query@));
            assert(contents@.subrange(pr.0 as int, pr.1 as int) == ls[k as int]);
        }
        if c {
            let line = contents.substring_char(pr.0, pr.1);
            out.push(line);
        }
        k += 1;
    }
    proof {
        assert(lines_of(contents@).take(ranges@.len() as int) =~= lines_of(contents@));
    }
    out
}

/// Runs the combined Boyer-Moore search and returns the line content for
/// each match offset, in match order.
pub fn boyer_moore_lines<'a>(pattern: &str, contents: &'a str) -> (r: Vec<&'a str>)
    requires
        1 <= pattern@.len(),
        pattern@.len() + 2 < 0x8000_0000,
        contents@.len() + 2 < 0x8000_0000,
        chars_in_alphabet(pattern@),
        chars_in_alphabet(contents@),
    ensures
        r@.len() == search_spec(Strategy::Combined, pattern@, contents@).0.len(),
        forall|k: int|
            0 <= k < r@.len() ==> #[trigger] r@[k]@ == lines_of(contents@)[newline_count(
                contents@,
                search_spec(Strategy::Combined, pattern@, contents@).0[k] as int,
            )],
{
    let indices = crate::engine::boyer_moore_search(pattern, contents);
    proof {
        assert forall|k: int|
            0 <= k < indices@.len() implies 0 <= #[trigger] indices@[k]
            < contents@.len() by {
            assert(is_match(pattern@, contents@, indices@[k] as int));
        }
    }
    indices_to_lines(indices, contents)
}

/// Lowers both pattern and text, runs the combined Boyer-Moore search on
/// the lowered pair, and maps the offsets back onto the original text's
/// lines.  Lowering keeps each character in place, so the offsets line up.
pub fn boyer_moore_lines_case_insensitive<'a>(pattern: &str, contents: &'a str) -> (r: Vec<
    &'a str,
>)
    requires
        1 <= pattern@.len(),
        pattern@.len() + 2 < 0x8000_0000,
        contents@.len() + 2 < 0x8000_0000,
        chars_in_alphabet(pattern@),
        chars_in_alphabet(contents@),
    ensures
        r@.len() == search_spec(
            Strategy::Combined,
            lower_seq(pattern@),
            lower_seq(contents@),
        ).0.len(),
        forall|k: int|
            0 <= k < r@.len() ==> #[trigger] r@[k]@ == lines_of(contents@)[newline_count(
                contents@,
                search_spec(Strategy::Combined, lower_seq(pattern@), lower_seq(contents@)).0[k]
                    as int,
            )],
{
    let pat0 = chars_of(pattern);
    let txt0 = chars_of(contents);
    let pat = lower_vec(&pat0);
    let txt = lower_vec(&txt0);
    proof {
        lemma_lower_alphabet(pattern@);
        lemma_lower_alphabet(contents@);
    }
    let (indices, _comps, _shifts) = search_vecs(Strategy::Combined, &pat, &txt);
    proof {
        assert forall|k: int|
            0 <= k < indices@.len() implies 0 <= #[trigger] indices@[k]
            < contents@.len() by {
            assert(is_match(lower_seq(pattern@), lower_seq(contents@), indices@[k] as int));
        }
    }
    indices_to_lines(indices, contents)
}

} // verus!
