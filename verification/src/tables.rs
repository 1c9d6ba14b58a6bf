//! Preprocessing of the pattern: the bad-character table and (further down)
//! the strong good-suffix shift table.

use vstd::prelude::*;

verus! {

/// The bad-character table covers exactly the scalar values 0..255.
pub open spec fn char_in_alphabet(c: char) -> bool {
    (c as u32) < 256
}

/// Every character of `s` lies in the supported alphabet.
pub open spec fn chars_in_alphabet(s: Seq<char>) -> bool {
    forall|k: int| 0 <= k < s.len() ==> char_in_alphabet(s[k])
}

/// The highest index of `pat` holding a character of scalar value `c`,
/// or -1 when no position does.
pub open spec fn last_occurrence(pat: Seq<char>, c: int) -> int
    decreases pat.len(),
{
    if pat.len() == 0 {
        -1
    } else if pat.last() as u32 == c {
        pat.len() - 1
    } else {
        last_occurrence(pat.drop_last(), c)
    }
}

/// `last_occurrence` really is the rightmost occurrence: it is -1 exactly
/// when `c` never occurs, and otherwise it is an occurrence with none to its
/// right.
pub proof fn lemma_badchar_rightmost(pat: Seq<char>, c: int)
    ensures
        last_occurrence(pat, c) == -1 <==> forall|k: int|
            0 <= k < pat.len() ==> (pat[k] as u32) != c,
        last_occurrence(pat, c) != -1 ==> {
            &&& 0 <= last_occurrence(pat, c) < pat.len()
            &&& (pat[last_occurrence(pat, c)] as u32) == c
            &&& forall|k: int| last_occurrence(pat, c) < k < pat.len() ==> (pat[k] as u32) != c
        },
    decreases pat.len(),
{
    if pat.len() > 0 {
        lemma_badchar_rightmost(pat.drop_last(), c);
        assert(forall|k: int| 0 <= k < pat.len() - 1 ==> pat[k] == pat.drop_last()[k]);
    }
}

/// Builds the bad-character table: entry `c` is the rightmost index at which
/// the character of scalar value `c` occurs in the pattern, or -1 when the
/// pattern never uses it.
pub fn badchar_table(pattern: &Vec<char>) -> (r: Vec<i32>)
    requires
        pattern@.len() < 0x8000_0000,
        chars_in_alphabet(pattern@),
    ensures
        r@.len() == 256,
        forall|c: int| 0 <= c < 256 ==> r@[c] == last_occurrence(pattern@, c),
{
    let size = pattern.len();
    let mut badchar: Vec<i32> = Vec::new();
    let mut f: usize = 0;
    while f < 256
        invariant
            badchar@.len() == f,
            f <= 256,
            forall|c: int| 0 <= c < f ==> badchar@[c] == -1,
        decreases 256 - f,
    {
        badchar.push(-1);
        f += 1;
    }
    assert(forall|c: int| 0 <= c < 256 ==> last_occurrence(pattern@.take(0), c) == -1);

    let mut i: usize = 0;
    while i < size
        invariant
            size == pattern@.len() < 0x8000_0000,
            chars_in_alphabet(pattern@),
            i <= size,
            badchar@.len() == 256,
            forall|c: int| 0 <= c < 256 ==> badchar@[c] == last_occurrence(pattern@.take(i as int), c),
        decreases size - i,
    {
        let ghost pre = badchar@;
        let c = pattern[i];
        assert(char_in_alphabet(c));
        let cu: usize = (c as u32) as usize;
        badchar[cu] = i as i32;
        proof {
            let t = pattern@.take(i + 1 as int);
            assert(t.drop_last() =~= pattern@.take(i as int));
            assert(t.last() == pattern@[i as int]);
            assert forall|cc: int| 0 <= cc < 256 implies badchar@[cc] == last_occurrence(t, cc) by {
                if cc == c as u32 {
                    assert(badchar@[cc] == i as i32);
                } else {
                    assert(badchar@[cc] == pre[cc]);
                }
            }
        }
        i += 1;
    }
    proof {
        assert(pattern@.take(size as int) =~= pattern@);
    }
    badchar
}

/// Well-formedness of the suffix-builder state: `i` sits strictly left of
/// `j`, and every border-table entry from `i` upward points strictly past its
/// own index (the border of a suffix starts to the suffix's right).
pub open spec fn suffix_state_wf(
    pat: Seq<char>,
    i: int,
    j: int,
    shift: Seq<i32>,
    bpos: Seq<i32>,
) -> bool {
    let m = pat.len() as int;
    &&& m + 1 < 0x8000_0000
    &&& shift.len() == m + 1
    &&& bpos.len() == m + 1
    &&& 0 <= i
    &&& i < j <= m + 1
    &&& forall|k: int| i <= k <= m ==> k < #[trigger] bpos[k] <= m + 1
}

/// One run of the suffix/border construction from state `(i, j)` down to
/// `i == 0`, exactly as the builder's loops perform it: on a mismatch the
/// first-writer-wins shift entry is recorded and `j` follows the border
/// chain; otherwise both cursors step left and the border start of the
/// suffix at `i - 1` is recorded.
pub open spec fn suffix_step(
    pat: Seq<char>,
    i: int,
    j: int,
    shift: Seq<i32>,
    bpos: Seq<i32>,
) -> (Seq<i32>, Seq<i32>)
    decreases i, pat.len() + 1 - j,
        when suffix_state_wf(pat, i, j, shift, bpos)
{
    let m = pat.len() as int;
    if i <= 0 {
        (shift, bpos)
    } else if j <= m && pat[i - 1] != pat[j - 1] {
        let shift2 = if shift[j] == 0 {
            shift.update(j, (j - i) as i32)
        } else {
            shift
        };
        suffix_step(pat, i, bpos[j] as int, shift2, bpos)
    } else {
        suffix_step(pat, i - 1, j - 1, shift, bpos.update(i - 1, (j - 1) as i32))
    }
}

/// The raw shift table and the border table that the suffix builder derives
/// from `pat`, starting from the given initial tables (the border table's
/// sentinel entry for the empty suffix is set first).
pub open spec fn suffix_tables(pat: Seq<char>, shift0: Seq<i32>, bpos0: Seq<i32>) -> (
    Seq<i32>,
    Seq<i32>,
) {
    let m = pat.len() as int;
    suffix_step(pat, m, m + 1, shift0, bpos0.update(m, (m + 1) as i32))
}

/// Builds the border-position table and the raw good-suffix shift table for
/// the strong suffix rule.  Entries of the shift table that this pass leaves
/// at zero are filled later by `process_case_2`.
pub fn strong_suffix_table(pattern: &Vec<char>, shift: Vec<i32>, bpos: Vec<i32>) -> (r: (
    Vec<i32>,
    Vec<i32>,
))
    requires
        pattern@.len() + 1 < 0x8000_0000,
        shift@.len() == pattern@.len() + 1,
        bpos@.len() == pattern@.len() + 1,
        forall|k: int| 0 <= k < shift@.len() ==> shift@[k] == 0,
    ensures
        (r.0@, r.1@) == suffix_tables(pattern@, shift@, bpos@),
        r.0@.len() == pattern@.len() + 1,
        r.1@.len() == pattern@.len() + 1,
        forall|k: int| 0 <= k <= pattern@.len() ==> 0 <= #[trigger] r.0@[k] <= pattern@.len(),
        forall|k: int| 0 <= k <= pattern@.len() ==> k < #[trigger] r.1@[k] <= pattern@.len() + 1,
{
    let ghost pat = pattern@;
    let ghost m = pattern@.len() as int;
    let ghost s_init = shift@;
    let ghost b_init = bpos@;
    let mut shift = shift;
    let mut bpos = bpos;
    let plen = pattern.len();

    let mut i: usize = plen;
    let mut j: usize = plen + 1;
    bpos[i] = j as i32;
    assert(bpos@ =~= b_init.update(m, (m + 1) as i32));
    let ghost target = suffix_step(pat, m, m + 1, shift@, bpos@);
    assert(target == suffix_tables(pat, s_init, b_init));

    while i > 0
        invariant
            pat == pattern@,
            m == pat.len() as int,
            m + 1 < 0x8000_0000,
            i <= plen == m,
            j <= plen + 1,
            suffix_state_wf(pat, i as int, j as int, shift@, bpos@),
            suffix_step(pat, i as int, j as int, shift@, bpos@) == target,
            forall|k: int| 0 <= k <= m ==> 0 <= #[trigger] shift@[k] <= m,
        decreases i,
    {
        while j <= plen && pattern[i - 1] != pattern[j - 1]
            invariant
                pat == pattern@,
                m == pat.len() as int,
                m + 1 < 0x8000_0000,
                1 <= i <= plen == m,
                j <= plen + 1,
                suffix_state_wf(pat, i as int, j as int, shift@, bpos@),
                suffix_step(pat, i as int, j as int, shift@, bpos@) == target,
                forall|k: int| 0 <= k <= m ==> 0 <= #[trigger] shift@[k] <= m,
            decreases plen + 1 - j,
        {
            let ghost s_pre = shift@;
            if shift[j] == 0 {
                shift[j] = (j - i) as i32;
                assert(shift@ =~= s_pre.update(j as int, (j - i) as i32));
            }
            j = bpos[j] as usize;
        }
        i = i - 1;
        j = j - 1;
        bpos[i] = j as i32;
    }
    assert(suffix_step(pat, 0, j as int, shift@, bpos@) == (shift@, bpos@));
    (shift, bpos)
}

/// Well-formedness of the completer state over a border table produced by
/// `strong_suffix_table`.
pub open spec fn completer_state_wf(
    pat: Seq<char>,
    i: int,
    j: int,
    shift: Seq<i32>,
    bpos: Seq<i32>,
) -> bool {
    let m = pat.len() as int;
    &&& m + 1 < 0x8000_0000
    &&& shift.len() == m + 1
    &&& bpos.len() == m + 1
    &&& 0 <= i
    &&& 1 <= j <= m + 1
    &&& forall|k: int| 0 <= k <= m ==> k < #[trigger] bpos[k] <= m + 1
}

/// One pass of the completion rule from position `i` with current widest
/// border start `j`: entries still at zero receive `j`, and `j` follows the
/// border chain whenever the scan reaches it.
pub open spec fn completer_step(
    pat: Seq<char>,
    i: int,
    j: int,
    shift: Seq<i32>,
    bpos: Seq<i32>,
) -> Seq<i32>
    decreases pat.len() + 1 - i,
        when completer_state_wf(pat, i, j, shift, bpos)
{
    let m = pat.len() as int;
    if i > m {
        shift
    } else {
        let shift2 = if shift[i] == 0 {
            shift.update(i, j as i32)
        } else {
            shift
        };
        let j2 = if i == j {
            bpos[j] as int
        } else {
            j
        };
        completer_step(pat, i + 1, j2, shift2, bpos)
    }
}

/// The fully populated shift table obtained by completing `shift0` along the
/// border table `bpos0`.
pub open spec fn completed_shift_table(pat: Seq<char>, shift0: Seq<i32>, bpos0: Seq<i32>) -> Seq<
    i32,
> {
    completer_step(pat, 0, bpos0[0] as int, shift0, bpos0)
}

/// Fills every entry of the shift table that the suffix builder left at
/// zero, using the widest border of the whole pattern, so that afterwards
/// every entry is strictly positive.
pub fn process_case_2(pattern: &Vec<char>, shift: Vec<i32>, bpos: Vec<i32>) -> (r: (
    Vec<i32>,
    Vec<i32>,
))
    requires
        pattern@.len() + 1 < 0x8000_0000,
        shift@.len() == pattern@.len() + 1,
        bpos@.len() == pattern@.len() + 1,
        forall|k: int| 0 <= k <= pattern@.len() ==> 0 <= #[trigger] shift@[k] <= pattern@.len(),
        forall|k: int| 0 <= k <= pattern@.len() ==> k < #[trigger] bpos@[k] <= pattern@.len() + 1,
    ensures
        r.0@ == completed_shift_table(pattern@, shift@, bpos@),
        r.1@ == bpos@,
        r.0@.len() == pattern@.len() + 1,
        forall|k: int| 0 <= k <= pattern@.len() ==> 1 <= #[trigger] r.0@[k] <= pattern@.len() + 1,
{
    let ghost pat = pattern@;
    let ghost m = pattern@.len() as int;
    let ghost s_init = shift@;
    let mut shift = shift;
    let pl = pattern.len();

    let mut j: i32 = bpos[0];
    let ghost target = completer_step(pat, 0, j as int, shift@, bpos@);

    let mut i: usize = 0;
    while i < pl + 1
        invariant
            pat == pattern@,
            m == pat.len() as int,
            m + 1 < 0x8000_0000,
            pl == m,
            i <= m + 1,
            completer_state_wf(pat, i as int, j as int, shift@, bpos@),
            completer_step(pat, i as int, j as int, shift@, bpos@) == target,
            forall|k: int| 0 <= k < i ==> 1 <= #[trigger] shift@[k] <= m + 1,
            forall|k: int| i <= k <= m ==> 0 <= #[trigger] shift@[k] <= m,
        decreases m + 1 - i,
    {
        let ghost s_pre = shift@;
        if shift[i] == 0 {
            shift[i] = j;
            assert(shift@ =~= s_pre.update(i as int, j));
        }
        if i == j as usize {
            j = bpos[j as usize];
        }
        i = i + 1;
    }
    assert(completer_step(pat, (m + 1) as int, j as int, shift@, bpos@) == shift@);
    (shift, bpos)
}

/// Building the tables twice from the same pattern yields identical tables:
/// each construction is pinned to a spec-level function of the pattern and
/// the initial tables alone, so two runs over the same inputs agree on the
/// bad-character table, the border table and the completed shift table.
pub proof fn lemma_table_construction_idempotent(
    pat: Seq<char>,
    shift0: Seq<i32>,
    bpos0: Seq<i32>,
    bc1: Seq<i32>,
    bc2: Seq<i32>,
    raw1: (Seq<i32>, Seq<i32>),
    raw2: (Seq<i32>, Seq<i32>),
    done1: Seq<i32>,
    done2: Seq<i32>,
)
    requires
        forall|c: int| 0 <= c < 256 ==> #[trigger] bc1[c] == last_occurrence(pat, c),
        forall|c: int| 0 <= c < 256 ==> #[trigger] bc2[c] == last_occurrence(pat, c),
        bc1.len() == 256,
        bc2.len() == 256,
        raw1 == suffix_tables(pat, shift0, bpos0),
        raw2 == suffix_tables(pat, shift0, bpos0),
        done1 == completed_shift_table(pat, raw1.0, raw1.1),
        done2 == completed_shift_table(pat, raw2.0, raw2.1),
    ensures
        bc1 == bc2,
        raw1 == raw2,
        done1 == done2,
{
    assert(bc1 =~= bc2);
}

} // verus!
