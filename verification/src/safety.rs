//! Proof that the completed good-suffix shift table never skips a viable
//! displacement, for every pattern: advancing by a good-suffix shift can
//! never pass over a match.

use vstd::prelude::*;
use crate::engine::good_suffix_shift_spec;
use crate::engine::gs_shifts_safe;
use crate::engine::spec_max;
use crate::engine::viable_shift;
use crate::engine::zero_table;
use crate::tables::completed_shift_table;
use crate::tables::completer_state_wf;
use crate::tables::completer_step;
use crate::tables::suffix_state_wf;
use crate::tables::suffix_step;
use crate::tables::suffix_tables;

verus! {

/// The suffix of `pat` starting at `b` re-occurs starting at `i`: sliding
/// the tail at `b` left by `b - i` changes nothing.  For `b` past the end
/// this is trivially true (the empty suffix occurs everywhere).
pub open spec fn occurs_at(pat: Seq<char>, i: int, b: int) -> bool {
    forall|q: int| b <= q < pat.len() ==> pat[q - (b - i)] == #[trigger] pat[q]
}

/// Displacement `s` cannot be ruled out for shift entry `t` by the strong
/// suffix rule: the matched suffix at `t` re-occurs at `t - s`, preceded by
/// a character that differs from the one that mismatched.
pub open spec fn strong_viable(pat: Seq<char>, t: int, s: int) -> bool {
    &&& 1 <= s <= t - 1
    &&& occurs_at(pat, t - s, t)
    &&& pat[t - 1 - s] != pat[t - 1]
}

/// Re-occurrence composes along a chain.
proof fn lemma_occurs_trans(pat: Seq<char>, i: int, j: int, b: int)
    requires
        0 <= i <= j <= b,
        occurs_at(pat, i, j),
        occurs_at(pat, j, b),
    ensures
        occurs_at(pat, i, b),
{
    assert forall|q: int| b <= q < pat.len() implies pat[q - (b - i)] == #[trigger] pat[q] by {
        assert(pat[q - (b - j)] == pat[q]);
        let q2 = q - (b - j);
        assert(pat[q2 - (j - i)] == pat[q2]);
    }
}

/// A wider re-occurrence within a narrower one is a re-occurrence of the
/// narrower suffix.
proof fn lemma_occurs_sub(pat: Seq<char>, i: int, j: int, b: int)
    requires
        0 <= i <= j <= b,
        occurs_at(pat, i, j),
        occurs_at(pat, i, b),
    ensures
        occurs_at(pat, j, b),
{
    assert forall|q: int| b <= q < pat.len() implies pat[q - (b - j)] == #[trigger] pat[q] by {
        assert(pat[q - (b - i)] == pat[q]);
        let q2 = q - (b - j);
        assert(pat[q2 - (j - i)] == pat[q2]);
    }
}

/// Extending a re-occurrence by one character to the left.
proof fn lemma_occurs_ext(pat: Seq<char>, i: int, b: int)
    requires
        1 <= i < b <= pat.len(),
    ensures
        occurs_at(pat, i - 1, b - 1) <==> (pat[i - 1] == pat[b - 1] && occurs_at(pat, i, b)),
{
    if pat[i - 1] == pat[b - 1] && occurs_at(pat, i, b) {
        assert forall|q: int|
            b - 1 <= q < pat.len() implies pat[q - (b - i)] == #[trigger] pat[q] by {
            if q > b - 1 {
                assert(pat[q - (b - i)] == pat[q]);
            }
        }
    }
    if occurs_at(pat, i - 1, b - 1) {
        assert(pat[(b - 1) - (b - i)] == pat[b - 1]);
        assert forall|q: int| b <= q < pat.len() implies pat[q - (b - i)] == #[trigger] pat[q] by {
            assert(pat[q - ((b - 1) - (i - 1))] == pat[q]);
        }
    }
}

/// The invariant the suffix builder maintains: the current candidate `j`
/// re-occurs at `i`; every re-occurrence below `j` was already visited,
/// found to mismatch and recorded; the border table entries set so far are
/// the narrowest re-occurrences of their suffixes; every strongly viable
/// displacement whose visit has passed is dominated by the recorded shift;
/// and every recorded shift stems from such a visit.
pub open spec fn builder_inv(pat: Seq<char>, i: int, j: int, shift: Seq<i32>, bpos: Seq<i32>) -> bool {
    let m = pat.len() as int;
    &&& occurs_at(pat, i, j)
    &&& (i >= 1 ==> forall|b: int|
        i < b < j && #[trigger] occurs_at(pat, i, b) ==> pat[i - 1] != pat[b - 1] && shift[b] != 0
            && shift[b] <= b - i)
    &&& forall|k: int| i <= k <= m ==> occurs_at(pat, k, #[trigger] bpos[k] as int)
    &&& forall|k: int, b: int|
        i <= k <= m && k < b < bpos[k] ==> !(#[trigger] occurs_at(pat, k, b))
    &&& forall|t: int, s: int|
        0 <= t <= m && #[trigger] strong_viable(pat, t, s) && (t - s > i || (t - s == i && t < j))
            ==> shift[t] != 0 && shift[t] <= s
    &&& forall|t: int|
        0 <= t <= m && #[trigger] shift[t] != 0 ==> 1 <= shift[t] <= t - 1 && (t - shift[t] > i
            || (t - shift[t] == i && t <= j))
}

/// What holds of the finished raw tables: every strongly viable
/// displacement is dominated by the recorded shift, recorded shifts lie
/// within the pattern, and the border table records narrowest
/// re-occurrences.
pub open spec fn builder_post(pat: Seq<char>, shift: Seq<i32>, bpos: Seq<i32>) -> bool {
    let m = pat.len() as int;
    &&& forall|t: int, s: int|
        0 <= t <= m && #[trigger] strong_viable(pat, t, s) ==> shift[t] != 0 && shift[t] <= s
    &&& forall|t: int| 0 <= t <= m && #[trigger] shift[t] != 0 ==> 1 <= shift[t] <= t - 1
    &&& forall|k: int| 0 <= k <= m ==> occurs_at(pat, k, #[trigger] bpos[k] as int)
    &&& forall|k: int, b: int|
        0 <= k <= m && k < b < bpos[k] ==> !(#[trigger] occurs_at(pat, k, b))
    &&& forall|k: int| 0 <= k <= m ==> k < #[trigger] bpos[k] <= m + 1
    &&& shift.len() == m + 1
    &&& bpos.len() == m + 1
}

/// Induction along the suffix builder: the invariant carries down to the
/// finished tables.
proof fn lemma_builder_safe(pat: Seq<char>, i: int, j: int, shift: Seq<i32>, bpos: Seq<i32>)
    requires
        suffix_state_wf(pat, i, j, shift, bpos),
        builder_inv(pat, i, j, shift, bpos),
    ensures
        ({
            let r = suffix_step(pat, i, j, shift, bpos);
            builder_post(pat, r.0, r.1)
        }),
    decreases i, pat.len() + 1 - j,
{
    let m = pat.len() as int;
    if i <= 0 {
        assert(suffix_step(pat, i, j, shift, bpos) == (shift, bpos));
    } else if j <= m && pat[i - 1] != pat[j - 1] {
        let shift2 = if shift[j] == 0 {
            shift.update(j, (j - i) as i32)
        } else {
            shift
        };
        let j2 = bpos[j] as int;
        assert(occurs_at(pat, i, j2)) by {
            lemma_occurs_trans(pat, i, j, j2);
        }
        assert(shift2[j as int] != 0 && shift2[j as int] <= j - i);
        assert forall|b: int|
            i < b < j2 && #[trigger] occurs_at(pat, i, b) implies pat[i - 1] != pat[b - 1]
            && shift2[b] != 0 && shift2[b] <= b - i by {
            if b < j {
                assert(shift2[b] == shift[b]);
            } else if b > j {
                lemma_occurs_sub(pat, i, j, b);
                assert(false);
            }
        }
        assert forall|t: int, s: int|
            0 <= t <= m && #[trigger] strong_viable(pat, t, s) && (t - s > i || (t - s == i && t
                < j2)) implies shift2[t] != 0 && shift2[t] <= s by {
            if t - s > i || (t - s == i && t < j) {
                assert(shift[t] != 0 && shift[t] <= s);
                assert(shift2[t] == shift[t]);
            } else {
                assert(t - s == i && j <= t < j2);
                assert(occurs_at(pat, i, t));
                if t == j {
                    assert(shift2[t] != 0 && shift2[t] <= s);
                } else {
                    lemma_occurs_sub(pat, i, j, t);
                    assert(false);
                }
            }
        }
        assert forall|t: int|
            0 <= t <= m && #[trigger] shift2[t] != 0 implies 1 <= shift2[t] <= t - 1 && (t
                - shift2[t] > i || (t - shift2[t] == i && t <= j2)) by {
            if t == j && shift[j as int] == 0 {
                assert(shift2[t] == j - i);
            } else {
                assert(shift2[t] == shift[t]);
            }
        }
        lemma_builder_safe(pat, i, j2, shift2, bpos);
    } else {
        let bpos2 = bpos.update(i - 1, (j - 1) as i32);
        assert(occurs_at(pat, i - 1, j - 1)) by {
            if j <= m {
                lemma_occurs_ext(pat, i, j);
            }
        }
        assert forall|b: int| i - 1 < b < j - 1 implies !(#[trigger] occurs_at(pat, i - 1, b)) by {
            if occurs_at(pat, i - 1, b) {
                lemma_occurs_ext(pat, i, b + 1);
                assert(occurs_at(pat, i, b + 1) && pat[i - 1] == pat[b]);
                assert(pat[i - 1] != pat[b]);
            }
        }
        assert forall|k: int| i - 1 <= k <= m implies occurs_at(pat, k, #[trigger] bpos2[k] as int) by {
            if k > i - 1 {
                assert(bpos2[k] == bpos[k]);
            }
        }
        assert forall|k: int, b: int|
            i - 1 <= k <= m && k < b < bpos2[k] implies !(#[trigger] occurs_at(pat, k, b)) by {
            if k > i - 1 {
                assert(bpos2[k] == bpos[k]);
            }
        }
        assert forall|t: int, s: int|
            0 <= t <= m && #[trigger] strong_viable(pat, t, s) && (t - s > i - 1 || (t - s == i
                - 1 && t < j - 1)) implies shift[t] != 0 && shift[t] <= s by {
            if t - s > i || (t - s == i && t < j) {
            } else if t - s == i && t >= j {
                assert(j <= m);
                assert(occurs_at(pat, i, t));
                assert(pat[i - 1] != pat[t - 1]);
                if t == j {
                    assert(pat[i - 1] == pat[j - 1]);
                    assert(false);
                } else {
                    lemma_occurs_sub(pat, i, j, t);
                    assert(strong_viable(pat, t, t - j)) by {
                        assert(pat[t - 1 - (t - j)] == pat[j - 1]);
                        assert(pat[j - 1] == pat[i - 1]);
                    }
                    assert(shift[t] != 0 && shift[t] <= t - j);
                }
            } else {
                assert(t - s == i - 1 && t < j - 1);
                assert(occurs_at(pat, i - 1, t));
                assert(i - 1 < t) by {
                    assert(s <= t - 1);
                }
                assert(false);
            }
        }
        lemma_builder_safe(pat, i - 1, j - 1, shift, bpos2);
    }
}

/// Induction along the completion pass: entries already set are kept, and
/// an entry filled with the current border start skips only displacements
/// at which no suffix of the whole pattern re-occurs.
proof fn lemma_completer_safe(pat: Seq<char>, i: int, j: int, shift: Seq<i32>, bpos: Seq<i32>)
    requires
        completer_state_wf(pat, i, j, shift, bpos),
        0 <= i <= j,
        occurs_at(pat, 0, j),
        forall|b: int| spec_max(i, 1) <= b < j ==> !(#[trigger] occurs_at(pat, 0, b)),
        forall|k: int| 0 <= k <= pat.len() ==> occurs_at(pat, k, #[trigger] bpos[k] as int),
        forall|k: int, b: int|
            0 <= k <= pat.len() && k < b < bpos[k] ==> !(#[trigger] occurs_at(pat, k, b)),
    ensures
        ({
            let r = completer_step(pat, i, j, shift, bpos);
            &&& r.len() == shift.len()
            &&& forall|t: int| 0 <= t < shift.len() && #[trigger] shift[t] != 0 ==> r[t] == shift[t]
            &&& forall|t: int|
                i <= t <= pat.len() && shift[t] == 0 ==> forall|s: int|
                    spec_max(t, 1) <= s < #[trigger] r[t] ==> !occurs_at(pat, 0, s)
        }),
    decreases pat.len() + 1 - i,
{
    let m = pat.len() as int;
    if i > m {
    } else {
        let shift2 = if shift[i] == 0 {
            shift.update(i, j as i32)
        } else {
            shift
        };
        let j2 = if i == j {
            bpos[j] as int
        } else {
            j
        };
        if i == j {
            assert(occurs_at(pat, 0, j2)) by {
                lemma_occurs_trans(pat, 0, j, j2);
            }
            assert forall|b: int| spec_max(i + 1, 1) <= b < j2 implies !(#[trigger] occurs_at(
                pat,
                0,
                b,
            )) by {
                if b > j && occurs_at(pat, 0, b) {
                    lemma_occurs_sub(pat, 0, j, b);
                }
            }
        }
        lemma_completer_safe(pat, i + 1, j2, shift2, bpos);
        let r = completer_step(pat, i, j, shift, bpos);
        assert(r == completer_step(pat, i + 1, j2, shift2, bpos));
        assert forall|t: int|
            0 <= t < shift.len() && #[trigger] shift[t] != 0 implies r[t] == shift[t] by {
            assert(shift2[t] == shift[t]);
        }
        assert forall|t: int|
            i <= t <= m && shift[t] == 0 implies forall|s: int|
                spec_max(t, 1) <= s < #[trigger] r[t] ==> !occurs_at(pat, 0, s) by {
            if t == i {
                assert(shift2[i] == j as i32);
                assert(r[i] == j as i32);
                assert forall|s: int| spec_max(t, 1) <= s < r[t] implies !occurs_at(pat, 0, s) by {
                    assert(spec_max(i, 1) <= s < j);
                }
            } else {
                assert(shift2[t] == shift[t]);
            }
        }
    }
}

/// The completed good-suffix shift table of any pattern is safe: it never
/// advances past a viable displacement, so the search loop can never skip
/// a match.
pub proof fn lemma_good_suffix_safe(pat: Seq<char>)
    requires
        pat.len() + 1 < 0x8000_0000,
    ensures
        gs_shifts_safe(pat, good_suffix_shift_spec(pat)),
{
    let m = pat.len() as int;
    let s0 = zero_table(m + 1);
    let b0 = zero_table(m + 1);
    let b1 = b0.update(m, (m + 1) as i32);
    assert(suffix_state_wf(pat, m, m + 1, s0, b1));
    assert(builder_inv(pat, m, m + 1, s0, b1)) by {
        assert forall|k: int| m <= k <= m implies occurs_at(pat, k, #[trigger] b1[k] as int) by {
            assert(b1[m] == (m + 1) as i32);
        }
    }
    lemma_builder_safe(pat, m, m + 1, s0, b1);
    let raw = suffix_step(pat, m, m + 1, s0, b1);
    assert(raw == suffix_tables(pat, s0, b0)) by {
        assert(b0.update(m, (m + 1) as i32) == b1);
    }
    assert(builder_post(pat, raw.0, raw.1));
    let j0 = raw.1[0] as int;
    assert(completer_state_wf(pat, 0, j0, raw.0, raw.1));
    lemma_completer_safe(pat, 0, j0, raw.0, raw.1);
    let fin = completer_step(pat, 0, j0, raw.0, raw.1);
    assert(fin == completed_shift_table(pat, raw.0, raw.1));
    assert(good_suffix_shift_spec(pat) == fin);

    assert forall|k: int, s: int|
        0 <= k <= m && 1 <= s < fin[k] implies !viable_shift(pat, k, s) by {
        if viable_shift(pat, k, s) {
            if s <= k - 1 {
                assert(strong_viable(pat, k, s)) by {
                    assert forall|q: int|
                        k <= q < m implies pat[q - (k - (k - s))] == #[trigger] pat[q] by {
                        assert(spec_max(k, s) <= q);
                    }
                    assert(occurs_at(pat, k - s, k));
                }
                assert(raw.0[k] != 0 && raw.0[k] <= s);
                assert(fin[k] == raw.0[k]);
                assert(false);
            } else {
                assert(occurs_at(pat, 0, s)) by {
                    assert forall|q: int|
                        s <= q < m implies pat[q - (s - 0)] == #[trigger] pat[q] by {
                        assert(spec_max(k, s) <= q);
                    }
                }
                if raw.0[k] != 0 {
                    assert(fin[k] == raw.0[k]);
                    assert(raw.0[k] <= k - 1);
                    assert(false);
                } else {
                    assert(spec_max(k, 1) <= s < fin[k]);
                    assert(!occurs_at(pat, 0, s));
                    assert(false);
                }
            }
        }
    }
}

} // verus!
