//! The Boyer-Moore search loop, with the bad-character and good-suffix
//! heuristics selectable separately or combined.

use vstd::prelude::*;
use crate::chars::chars_of;
use crate::tables::badchar_table;
use crate::tables::chars_in_alphabet;
use crate::tables::completed_shift_table;
use crate::tables::last_occurrence;
use crate::tables::lemma_badchar_rightmost;
use crate::tables::process_case_2;
use crate::tables::strong_suffix_table;
use crate::tables::suffix_tables;

verus! {

/// The larger of two integers.
pub open spec fn spec_max(a: int, b: int) -> int {
    if a >= b {
        a
    } else {
        b
    }
}

/// The pattern matches the text in full at alignment offset `o`.
pub open spec fn is_match(pat: Seq<char>, txt: Seq<char>, o: int) -> bool {
    &&& 0 <= o
    &&& o + pat.len() <= txt.len()
    &&& forall|q: int| 0 <= q < pat.len() ==> pat[q] == txt[o + q]
}

/// Scans the window at offset `o` from pattern position `j` leftward and
/// yields the position of the first mismatch, or -1 when the whole window
/// matches.
pub open spec fn scan_back(pat: Seq<char>, txt: Seq<char>, o: int, j: int) -> int
    decreases j + 1,
        when j >= -1
{
    if j < 0 {
        -1
    } else if pat[j] == txt[o + j] {
        scan_back(pat, txt, o, j - 1)
    } else {
        j
    }
}

/// The scan position stays between -1 and its starting point.
pub proof fn lemma_scan_back_range(pat: Seq<char>, txt: Seq<char>, o: int, j: int)
    requires
        j >= -1,
    ensures
        -1 <= scan_back(pat, txt, o, j) <= j,
    decreases j + 1,
{
    if j >= 0 && pat[j] == txt[o + j] {
        lemma_scan_back_range(pat, txt, o, j - 1);
    }
}

/// Which of the two shift heuristics the search loop consults.
#[derive(Clone, Copy, Debug, PartialEq, Eq, Structural)]
pub enum Strategy {
    /// Advance by the bad-character rule alone.
    BadCharOnly,
    /// Advance by the good-suffix rule alone.
    GoodSuffixOnly,
    /// Advance by the maximum of the two rules.
    Combined,
}

/// Comparison and shift counts of one search run.
#[derive(Clone, Copy, Debug, PartialEq, Eq, Structural)]
pub struct SearchMetrics {
    /// Number of character comparisons the scan performed.
    pub comparisons: u64,
    /// Number of alignments the loop examined.
    pub shifts: u64,
}

/// The advance applied after a full match at offset `o`.
pub open spec fn match_advance(
    strat: Strategy,
    pat: Seq<char>,
    txt: Seq<char>,
    bc: Seq<i32>,
    gs: Seq<i32>,
    o: int,
) -> int {
    let m = pat.len() as int;
    let n = txt.len() as int;
    let b = if o + m < n {
        m - bc[txt[o + m] as u32 as int]
    } else {
        1
    };
    match strat {
        Strategy::BadCharOnly => b,
        Strategy::GoodSuffixOnly => gs[0] as int,
        Strategy::Combined => spec_max(b, gs[0] as int),
    }
}

/// The advance applied after a mismatch at pattern position `j`.
pub open spec fn mismatch_advance(
    strat: Strategy,
    pat: Seq<char>,
    txt: Seq<char>,
    bc: Seq<i32>,
    gs: Seq<i32>,
    o: int,
    j: int,
) -> int {
    let b = spec_max(1, j - bc[txt[o + j] as u32 as int]);
    match strat {
        Strategy::BadCharOnly => b,
        Strategy::GoodSuffixOnly => gs[j + 1] as int,
        Strategy::Combined => spec_max(b, gs[j + 1] as int),
    }
}

/// Well-formedness of the inputs the search loop runs on: a nonempty
/// pattern, both sequences within the supported alphabet and machine
/// bounds, a bad-character table over the whole alphabet with entries below
/// the pattern length, and a fully populated (strictly positive) shift
/// table.
pub open spec fn engine_wf(pat: Seq<char>, txt: Seq<char>, bc: Seq<i32>, gs: Seq<i32>) -> bool {
    let m = pat.len() as int;
    let n = txt.len() as int;
    &&& 1 <= m
    &&& m + 2 < 0x8000_0000
    &&& n + 2 < 0x8000_0000
    &&& chars_in_alphabet(pat)
    &&& chars_in_alphabet(txt)
    &&& bc.len() == 256
    &&& forall|c: int| 0 <= c < 256 ==> -1 <= #[trigger] bc[c] < m
    &&& gs.len() == m + 1
    &&& forall|k: int| 0 <= k <= m ==> 1 <= #[trigger] gs[k] <= m + 1
}

/// Number of alignments still ahead of offset `o`, clamped at zero.
pub open spec fn engine_measure(m: int, n: int, o: int) -> int {
    if n - m - o + 1 > 0 {
        n - m - o + 1
    } else {
        0
    }
}

/// The search loop from alignment `o` onward: offsets found so far in
/// `acc`, comparisons in `comps` and examined alignments in `shifts`.  Each
/// step scans the window backward, records a full match, and advances by
/// the strategy's shift.
pub open spec fn engine_step(
    strat: Strategy,
    pat: Seq<char>,
    txt: Seq<char>,
    bc: Seq<i32>,
    gs: Seq<i32>,
    o: int,
    acc: Seq<i32>,
    comps: int,
    shifts: int,
) -> (Seq<i32>, int, int)
    decreases engine_measure(pat.len() as int, txt.len() as int, o),
        when engine_wf(pat, txt, bc, gs) && 0 <= o
{
    let m = pat.len() as int;
    let n = txt.len() as int;
    if o > n - m {
        (acc, comps, shifts)
    } else {
        let j = scan_back(pat, txt, o, m - 1);
        proof {
            lemma_scan_back_range(pat, txt, o, m - 1);
        }
        if j < 0 {
            engine_step(
                strat,
                pat,
                txt,
                bc,
                gs,
                o + match_advance(strat, pat, txt, bc, gs, o),
                acc.push(o as i32),
                comps + m,
                shifts + 1,
            )
        } else {
            engine_step(
                strat,
                pat,
                txt,
                bc,
                gs,
                o + mismatch_advance(strat, pat, txt, bc, gs, o, j),
                acc,
                comps + (m - j),
                shifts + 1,
            )
        }
    }
}

/// A table of `len` zero entries.
pub open spec fn zero_table(len: int) -> Seq<i32> {
    Seq::new(len as nat, |k: int| 0i32)
}

/// The bad-character table of `pat` as a sequence.
pub open spec fn badchar_table_spec(pat: Seq<char>) -> Seq<i32> {
    Seq::new(256, |c: int| last_occurrence(pat, c) as i32)
}

/// The completed good-suffix shift table of `pat`.
pub open spec fn good_suffix_shift_spec(pat: Seq<char>) -> Seq<i32> {
    let m = pat.len() as int;
    let raw = suffix_tables(pat, zero_table(m + 1), zero_table(m + 1));
    completed_shift_table(pat, raw.0, raw.1)
}

/// The offsets, comparison count and shift count that a search of `txt`
/// for `pat` under `strat` produces.
pub open spec fn search_spec(strat: Strategy, pat: Seq<char>, txt: Seq<char>) -> (
    Seq<i32>,
    int,
    int,
) {
    engine_step(
        strat,
        pat,
        txt,
        badchar_table_spec(pat),
        good_suffix_shift_spec(pat),
        0,
        Seq::empty(),
        0,
        0,
    )
}

/// On a mismatch at pattern position `j`, the bad-character rule never
/// skips a match: no alignment strictly between the current one and the one
/// the rule advances to can match, because the pattern position that would
/// meet the mismatching text character lies right of that character's
/// rightmost occurrence in the pattern.
pub proof fn lemma_badchar_no_skip_mismatch(
    pat: Seq<char>,
    txt: Seq<char>,
    bc: Seq<i32>,
    o: int,
    j: int,
    s: int,
)
    requires
        bc.len() == 256,
        forall|c: int| 0 <= c < 256 ==> #[trigger] bc[c] == last_occurrence(pat, c),
        chars_in_alphabet(txt),
        0 <= o,
        o + pat.len() <= txt.len(),
        0 <= j < pat.len(),
        pat[j] != txt[o + j],
        1 <= s < j - bc[txt[o + j] as u32 as int],
    ensures
        !is_match(pat, txt, o + s),
{
    let c = txt[o + j] as u32 as int;
    lemma_badchar_rightmost(pat, c);
    assert(j - s > last_occurrence(pat, c));
    assert(0 <= j - s < pat.len());
    assert((pat[j - s] as u32) != c);
    if is_match(pat, txt, o + s) {
        assert(pat[j - s] == txt[(o + s) + (j - s)]);
        assert((o + s) + (j - s) == o + j);
        assert(false);
    }
}

/// After a full match at offset `o` with a following text character, the
/// bad-character advance never skips a match: the pattern position that
/// would meet that following character lies right of its rightmost
/// occurrence in the pattern.
pub proof fn lemma_badchar_no_skip_match(
    pat: Seq<char>,
    txt: Seq<char>,
    bc: Seq<i32>,
    o: int,
    s: int,
)
    requires
        bc.len() == 256,
        forall|c: int| 0 <= c < 256 ==> #[trigger] bc[c] == last_occurrence(pat, c),
        chars_in_alphabet(txt),
        0 <= o,
        o + pat.len() < txt.len(),
        1 <= s < pat.len() - bc[txt[o + pat.len() as int] as u32 as int],
    ensures
        !is_match(pat, txt, o + s),
{
    let m = pat.len() as int;
    let c = txt[o + m] as u32 as int;
    lemma_badchar_rightmost(pat, c);
    assert(m - s > last_occurrence(pat, c));
    assert(0 <= m - s < m);
    assert((pat[m - s] as u32) != c);
    if is_match(pat, txt, o + s) {
        assert(pat[m - s] == txt[(o + s) + (m - s)]);
        assert((o + s) + (m - s) == o + m);
        assert(false);
    }
}

/// A displacement `s` is viable for shift entry `k` when what the window
/// has already revealed of the text leaves a match at that displacement
/// possible: the matched suffix (pattern positions `k` onward) re-aligns
/// consistently, and for `k >= 1` the pattern position that lands on the
/// mismatching text character differs from the character that mismatched
/// there.  A good-suffix shift that jumps over a viable displacement could
/// skip a match.
pub open spec fn viable_shift(pat: Seq<char>, k: int, s: int) -> bool {
    &&& forall|q: int| spec_max(k, s) <= q < pat.len() ==> pat[q - s] == #[trigger] pat[q]
    &&& (k - 1 - s >= 0 ==> pat[k - 1 - s] != pat[k - 1])
}

/// Every entry of the good-suffix table skips only non-viable
/// displacements: advancing by `gs[k]` can never pass over a match.
pub open spec fn gs_shifts_safe(pat: Seq<char>, gs: Seq<i32>) -> bool {
    forall|k: int, s: int|
        0 <= k <= pat.len() && 1 <= s < gs[k] ==> !viable_shift(pat, k, s)
}

/// A full match at displacement `s` from a window whose suffix from
/// position `j + 1` matched (with a mismatch at `j` when `j >= 0`) makes
/// `s` viable for shift entry `j + 1`.
pub proof fn lemma_viable_from_match(pat: Seq<char>, txt: Seq<char>, o: int, j: int, s: int)
    requires
        0 <= o,
        o + pat.len() <= txt.len(),
        -1 <= j < pat.len(),
        forall|q: int| j < q < pat.len() ==> pat[q] == txt[o + q],
        j >= 0 ==> pat[j] != txt[o + j],
        1 <= s,
        is_match(pat, txt, o + s),
    ensures
        viable_shift(pat, j + 1, s),
{
    let m = pat.len() as int;
    assert forall|q: int| spec_max(j + 1, s) <= q < m implies pat[q - s] == #[trigger] pat[q] by {
        assert(pat[q - s] == txt[(o + s) + (q - s)]);
    }
    if j - s >= 0 {
        assert(pat[j - s] == txt[(o + s) + (j - s)]);
    }
}

/// The shared search loop.  The result is pinned to `engine_step` over the
/// supplied tables; every reported offset is a full match, offsets come out
/// strictly increasing, and every match offset is reported under the
/// bad-character strategy, and under the others whenever the supplied
/// good-suffix table is safe.
pub(crate) fn run_search(
    strategy: Strategy,
    pat: &Vec<char>,
    txt: &Vec<char>,
    badchar: &Vec<i32>,
    shift: &Vec<i32>,
) -> (r: (Vec<i32>, u64, u64))
    requires
        engine_wf(pat@, txt@, badchar@, shift@),
        forall|c: int| 0 <= c < 256 ==> #[trigger] badchar@[c] == last_occurrence(pat@, c),
    ensures
        (r.0@, r.1 as int, r.2 as int) == engine_step(
            strategy,
            pat@,
            txt@,
            badchar@,
            shift@,
            0,
            Seq::<i32>::empty(),
            0,
            0,
        ),
        forall|k: int| 0 <= k < r.0@.len() ==> is_match(pat@, txt@, #[trigger] r.0@[k] as int),
        forall|k1: int, k2: int| 0 <= k1 < k2 < r.0@.len() ==> r.0@[k1] < r.0@[k2],
        strategy == Strategy::BadCharOnly || gs_shifts_safe(pat@, shift@) ==> forall|o: int|
            is_match(pat@, txt@, o) ==> r.0@.contains(o as i32),
{
    let m = pat.len();
    let n = txt.len();
    let ghost pm = pat@;
    let ghost tn = txt@;
    let ghost target = engine_step(
        strategy,
        pm,
        tn,
        badchar@,
        shift@,
        0,
        Seq::<i32>::empty(),
        0,
        0,
    );

    let mut locs: Vec<i32> = Vec::new();
    let mut comps: u64 = 0;
    let mut shifts: u64 = 0;
    let mut i: usize = 0;

    while i + m <= n
        invariant
            pm == pat@,
            tn == txt@,
            engine_wf(pm, tn, badchar@, shift@),
            forall|c: int| 0 <= c < 256 ==> #[trigger] badchar@[c] == last_occurrence(pm, c),
            m == pm.len(),
            n == tn.len(),
            i <= n + 1,
            engine_step(strategy, pm, tn, badchar@, shift@, i as int, locs@, comps as int, shifts as int)
                == target,
            comps as int <= (i as int) * (m as int),
            shifts as int <= i as int,
            forall|k: int| 0 <= k < locs@.len() ==> is_match(pm, tn, #[trigger] locs@[k] as int),
            forall|k: int| 0 <= k < locs@.len() ==> 0 <= #[trigger] locs@[k] < i,
            forall|k1: int, k2: int| 0 <= k1 < k2 < locs@.len() ==> locs@[k1] < locs@[k2],
            strategy == Strategy::BadCharOnly || gs_shifts_safe(pm, shift@) ==> forall|o: int|
                0 <= o < i && is_match(pm, tn, o) ==> locs@.contains(o as i32),
        decreases engine_measure(m as int, n as int, i as int),
    {
        let ghost comps0 = comps as int;
        proof {
            assert((i as int) * (m as int) <= (n as int) * (m as int)) by (nonlinear_arith)
                requires
                    0 <= i as int <= n as int,
                    0 <= m as int,
            ;
            assert((n as int) * (m as int) < 0x4000_0000_0000_0000) by (nonlinear_arith)
                requires
                    0 <= (n as int) < 0x8000_0000,
                    0 <= (m as int) < 0x8000_0000,
            ;
        }

        // Backward scan of the window at alignment i.
        let mut j: i32 = (m - 1) as i32;
        while j >= 0 && pat[j as usize] == txt[i + j as usize]
            invariant
                pm == pat@,
                tn == txt@,
                m == pm.len(),
                n == tn.len(),
                1 <= m,
                i + m <= n,
                m < 0x8000_0000,
                -1 <= j < m,
                comps as int == comps0 + (m - 1 - j),
                comps0 <= (i as int) * (m as int),
                (i as int) * (m as int) < 0x4000_0000_0000_0000,
                forall|q: int| j < q < m ==> pm[q] == tn[i + q],
                scan_back(pm, tn, i as int, m - 1) == scan_back(pm, tn, i as int, j as int),
            decreases j + 1,
        {
            comps += 1;
            j -= 1;
        }

        shifts += 1;
        let ghost j_spec = scan_back(pm, tn, i as int, m - 1);

        if j < 0 {
            proof {
                assert(j_spec == -1);
                assert(is_match(pm, tn, i as int));
            }
            let ghost locs_pre = locs@;
            locs.push(i as i32);

            let bc_adv: i32 = if i + m < n {
                (m as i32) - badchar[(txt[i + m] as u32) as usize]
            } else {
                1
            };
            let gs_adv: i32 = shift[0];
            let inc: i32 = match strategy {
                Strategy::BadCharOnly => bc_adv,
                Strategy::GoodSuffixOnly => gs_adv,
                Strategy::Combined => if bc_adv >= gs_adv {
                    bc_adv
                } else {
                    gs_adv
                },
            };
            proof {
                assert(inc as int == match_advance(strategy, pm, tn, badchar@, shift@, i as int));
                assert(1 <= inc <= m + 1);
                assert(comps as int == comps0 + m);
                assert(forall|k: int|
                    0 <= k < locs_pre.len() ==> locs@[k] == #[trigger] locs_pre[k]);
                if strategy == Strategy::BadCharOnly || gs_shifts_safe(pm, shift@) {
                    assert forall|o: int|
                        0 <= o < i + inc && is_match(pm, tn, o) implies locs@.contains(
                        o as i32,
                    ) by {
                        if o < i {
                            assert(locs_pre.contains(o as i32));
                            let k = choose|k: int|
                                0 <= k < locs_pre.len() && locs_pre[k] == o as i32;
                            assert(locs@[k] == o as i32);
                        } else if o == i {
                            assert(locs@[locs_pre.len() as int] == i as i32);
                        } else {
                            let s = o - i;
                            if strategy == Strategy::BadCharOnly || (strategy
                                == Strategy::Combined && s >= gs_adv as int) {
                                assert(s < bc_adv as int);
                                if i + m < n {
                                    lemma_badchar_no_skip_match(pm, tn, badchar@, i as int, s);
                                }
                            } else {
                                assert(gs_shifts_safe(pm, shift@));
                                assert(s < shift@[0]);
                                lemma_viable_from_match(pm, tn, i as int, -1, s);
                                assert(viable_shift(pm, 0, s));
                            }
                            assert(false);
                        }
                    }
                }
            }
            let ghost i0 = i as int;
            i += inc as usize;
            proof {
                assert(comps as int <= (i as int) * (m as int)) by (nonlinear_arith)
                    requires
                        comps as int <= i0 * (m as int) + (m as int),
                        i as int >= i0 + 1,
                        0 <= i0,
                        0 <= m as int,
                ;
            }
        } else {
            comps += 1;
            proof {
                assert(j_spec == j as int);
                assert(pm[j as int] != tn[i + j as int]);
            }
            let tc: usize = (txt[i + j as usize] as u32) as usize;
            let bc_raw: i32 = j - badchar[tc];
            let bc_adv: i32 = if bc_raw >= 1 {
                bc_raw
            } else {
                1
            };
            let gs_adv: i32 = shift[(j + 1) as usize];
            let inc: i32 = match strategy {
                Strategy::BadCharOnly => bc_adv,
                Strategy::GoodSuffixOnly => gs_adv,
                Strategy::Combined => if bc_adv >= gs_adv {
                    bc_adv
                } else {
                    gs_adv
                },
            };
            proof {
                assert(inc as int == mismatch_advance(
                    strategy,
                    pm,
                    tn,
                    badchar@,
                    shift@,
                    i as int,
                    j as int,
                ));
                assert(1 <= inc <= m + 1);
                assert(comps as int == comps0 + (m - j));
                if strategy == Strategy::BadCharOnly || gs_shifts_safe(pm, shift@) {
                    assert forall|o: int|
                        0 <= o < i + inc && is_match(pm, tn, o) implies locs@.contains(
                        o as i32,
                    ) by {
                        if o < i {
                            assert(locs@.contains(o as i32));
                        } else if o == i {
                            assert(pm[j as int] != tn[i + j as int]);
                            assert(false);
                        } else {
                            let s = o - i;
                            if strategy == Strategy::BadCharOnly || (strategy
                                == Strategy::Combined && s >= gs_adv as int) {
                                assert(s < bc_adv as int);
                                assert(s < j - badchar@[tn[i + j as int] as u32 as int]);
                                lemma_badchar_no_skip_mismatch(
                                    pm,
                                    tn,
                                    badchar@,
                                    i as int,
                                    j as int,
                                    s,
                                );
                            } else {
                                assert(gs_shifts_safe(pm, shift@));
                                assert(s < shift@[j + 1]);
                                lemma_viable_from_match(pm, tn, i as int, j as int, s);
                                assert(viable_shift(pm, j + 1, s));
                            }
                            assert(false);
                        }
                    }
                }
            }
            let ghost i0 = i as int;
            i += inc as usize;
            proof {
                assert(comps as int <= (i as int) * (m as int)) by (nonlinear_arith)
                    requires
                        comps as int <= i0 * (m as int) + (m as int),
                        i as int >= i0 + 1,
                        0 <= i0,
                        0 <= m as int,
                ;
            }
        }
    }
    proof {
        assert(engine_step(
            strategy,
            pm,
            tn,
            badchar@,
            shift@,
            i as int,
            locs@,
            comps as int,
            shifts as int,
        ) == (locs@, comps as int, shifts as int));
    }
    (locs, comps, shifts)
}

/// A vector of `len` zero entries.
fn zero_vec(len: usize) -> (r: Vec<i32>)
    ensures
        r@ == zero_table(len as int),
{
    let mut v: Vec<i32> = Vec::new();
    let mut i: usize = 0;
    while i < len
        invariant
            i <= len,
            v@.len() == i,
            forall|k: int| 0 <= k < i ==> v@[k] == 0i32,
        decreases len - i,
    {
        v.push(0);
        i += 1;
    }
    proof {
        assert(v@ =~= zero_table(len as int));
    }
    v
}

/// Preprocesses the pattern into both tables and runs the search loop under
/// the given strategy, over already-converted character vectors.
pub(crate) fn search_vecs(strategy: Strategy, pat: &Vec<char>, txt: &Vec<char>) -> (r: (
    Vec<i32>,
    u64,
    u64,
))
    requires
        1 <= pat@.len(),
        pat@.len() + 2 < 0x8000_0000,
        txt@.len() + 2 < 0x8000_0000,
        chars_in_alphabet(pat@),
        chars_in_alphabet(txt@),
    ensures
        (r.0@, r.1 as int, r.2 as int) == search_spec(strategy, pat@, txt@),
        forall|k: int| 0 <= k < r.0@.len() ==> is_match(pat@, txt@, #[trigger] r.0@[k] as int),
        forall|k1: int, k2: int| 0 <= k1 < k2 < r.0@.len() ==> r.0@[k1] < r.0@[k2],
        forall|o: int| is_match(pat@, txt@, o) ==> r.0@.contains(o as i32),
{
    proof {
        crate::safety::lemma_good_suffix_safe(pat@);
    }
    let m = pat.len();

    let badchar = badchar_table(pat);
    let shift0 = zero_vec(m + 1);
    let bpos0 = zero_vec(m + 1);
    let (shift_raw, bpos_raw) = strong_suffix_table(pat, shift0, bpos0);
    let (shift_done, _bpos_done) = process_case_2(pat, shift_raw, bpos_raw);

    proof {
        assert forall|c: int| 0 <= c < 256 implies -1 <= #[trigger] badchar@[c] < m as int by {
            lemma_badchar_rightmost(pat@, c);
        }
        assert(badchar@ =~= badchar_table_spec(pat@));
        assert(shift_done@ == good_suffix_shift_spec(pat@));
        assert(engine_wf(pat@, txt@, badchar@, shift_done@));
    }
    run_search(strategy, pat, txt, &badchar, &shift_done)
}

/// Converts both strings to character vectors and searches under the given
/// strategy.
pub(crate) fn search_with_tables(strategy: Strategy, pattern: &str, contents: &str) -> (r: (
    Vec<i32>,
    u64,
    u64,
))
    requires
        1 <= pattern@.len(),
        pattern@.len() + 2 < 0x8000_0000,
        contents@.len() + 2 < 0x8000_0000,
        chars_in_alphabet(pattern@),
        chars_in_alphabet(contents@),
    ensures
        (r.0@, r.1 as int, r.2 as int) == search_spec(strategy, pattern@, contents@),
        forall|k: int| 0 <= k < r.0@.len() ==> is_match(pattern@, contents@, #[trigger] r.0@[k] as int),
        forall|k1: int, k2: int| 0 <= k1 < k2 < r.0@.len() ==> r.0@[k1] < r.0@[k2],
        forall|o: int| is_match(pattern@, contents@, o) ==> r.0@.contains(o as i32),
{
    let pat = chars_of(pattern);
    let txt = chars_of(contents);
    search_vecs(strategy, &pat, &txt)
}

/// Searches `contents` for every occurrence of `pattern`, taking the larger
/// of the bad-character and good-suffix shifts at each step, and returns
/// the match start offsets in increasing order.  The offsets are exactly
/// the alignments at which a character-by-character scan finds the
/// pattern.
pub fn boyer_moore_search(pattern: &str, contents: &str) -> (r: Vec<i32>)
    requires
        1 <= pattern@.len(),
        pattern@.len() + 2 < 0x8000_0000,
        contents@.len() + 2 < 0x8000_0000,
        chars_in_alphabet(pattern@),
        chars_in_alphabet(contents@),
    ensures
        r@ == search_spec(Strategy::Combined, pattern@, contents@).0,
        forall|k: int| 0 <= k < r@.len() ==> is_match(pattern@, contents@, #[trigger] r@[k] as int),
        forall|k1: int, k2: int| 0 <= k1 < k2 < r@.len() ==> r@[k1] < r@[k2],
        forall|o: int| is_match(pattern@, contents@, o) ==> r@.contains(o as i32),
{
    let (locs, _comps, _shifts) = search_with_tables(Strategy::Combined, pattern, contents);
    locs
}

/// Searches with the bad-character heuristic alone.  The offsets are
/// exactly the alignments at which a character-by-character scan finds the
/// pattern, in increasing order, together with the run's metrics.
pub fn badcharsearch(pattern: &str, contents: &str) -> (r: (Vec<i32>, SearchMetrics))
    requires
        1 <= pattern@.len(),
        pattern@.len() + 2 < 0x8000_0000,
        contents@.len() + 2 < 0x8000_0000,
        chars_in_alphabet(pattern@),
        chars_in_alphabet(contents@),
    ensures
        r.0@ == search_spec(Strategy::BadCharOnly, pattern@, contents@).0,
        r.1.comparisons as int == search_spec(Strategy::BadCharOnly, pattern@, contents@).1,
        r.1.shifts as int == search_spec(Strategy::BadCharOnly, pattern@, contents@).2,
        forall|k: int| 0 <= k < r.0@.len() ==> is_match(pattern@, contents@, #[trigger] r.0@[k] as int),
        forall|k1: int, k2: int| 0 <= k1 < k2 < r.0@.len() ==> r.0@[k1] < r.0@[k2],
        forall|o: int| is_match(pattern@, contents@, o) ==> r.0@.contains(o as i32),
{
    let (locs, comps, shifts) = search_with_tables(Strategy::BadCharOnly, pattern, contents);
    (locs, SearchMetrics { comparisons: comps, shifts })
}

/// Searches with the good-suffix heuristic alone.  The offsets are exactly
/// the alignments at which a character-by-character scan finds the
/// pattern, in increasing order, together with the run's metrics.
pub fn goodsuffixsearch(pattern: &str, contents: &str) -> (r: (Vec<i32>, SearchMetrics))
    requires
        1 <= pattern@.len(),
        pattern@.len() + 2 < 0x8000_0000,
        contents@.len() + 2 < 0x8000_0000,
        chars_in_alphabet(pattern@),
        chars_in_alphabet(contents@),
    ensures
        r.0@ == search_spec(Strategy::GoodSuffixOnly, pattern@, contents@).0,
        r.1.comparisons as int == search_spec(Strategy::GoodSuffixOnly, pattern@, contents@).1,
        r.1.shifts as int == search_spec(Strategy::GoodSuffixOnly, pattern@, contents@).2,
        forall|k: int| 0 <= k < r.0@.len() ==> is_match(pattern@, contents@, #[trigger] r.0@[k] as int),
        forall|k1: int, k2: int| 0 <= k1 < k2 < r.0@.len() ==> r.0@[k1] < r.0@[k2],
        forall|o: int| is_match(pattern@, contents@, o) ==> r.0@.contains(o as i32),
{
    let (locs, comps, shifts) = search_with_tables(Strategy::GoodSuffixOnly, pattern, contents);
    (locs, SearchMetrics { comparisons: comps, shifts })
}

} // verus!
