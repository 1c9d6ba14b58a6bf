use crep::badcharsearch;
use crep::boyer_moore_search;
use crep::goodsuffixsearch;
use crep::indices_to_lines;

/// Every offset where `pattern` matches `text` character by character.
fn naive_offsets(pattern: &str, text: &str) -> Vec<i32> {
    let pat: Vec<char> = pattern.chars().collect();
    let txt: Vec<char> = text.chars().collect();
    let mut out = Vec::new();
    if pat.is_empty() || pat.len() > txt.len() {
        return out;
    }
    for o in 0..=(txt.len() - pat.len()) {
        if (0..pat.len()).all(|q| pat[q] == txt[o + q]) {
            out.push(o as i32);
        }
    }
    out
}

#[test]
fn overlapping_matches_are_all_reported() {
    assert_eq!(vec![4, 8], boyer_moore_search("ABC", "ABAAABCDABC"));
}

#[test]
fn pattern_longer_than_text_yields_no_offsets() {
    let offsets = boyer_moore_search("abcdef", "abc");
    assert!(offsets.is_empty());
}

#[test]
fn pattern_equal_to_text_matches_at_zero() {
    assert_eq!(vec![0], boyer_moore_search("abc", "abc"));
}

#[test]
fn overlapping_periodic_pattern() {
    assert_eq!(vec![0, 1, 2], boyer_moore_search("aa", "aaaa"));
}

#[test]
fn single_character_pattern() {
    assert_eq!(vec![0, 2, 4], boyer_moore_search("a", "ababa"));
}

#[test]
fn strategies_agree_on_offsets() {
    let cases = [
        ("ABC", "ABAAABCDABC"),
        ("aa", "aaaa"),
        ("needle", "haystack with a needle in a needlestack"),
        ("xyz", "no such thing"),
        ("aba", "abababa"),
    ];
    for (p, t) in cases {
        let combined = boyer_moore_search(p, t);
        let (bad, _m1) = badcharsearch(p, t);
        let (good, _m2) = goodsuffixsearch(p, t);
        assert_eq!(combined, bad);
        assert_eq!(combined, good);
        assert_eq!(combined, naive_offsets(p, t));
    }
}

#[test]
fn exhaustive_cross_check_small_alphabet() {
    // Every pattern of length 1..=3 and every text of length 0..=6 over
    // {a, b}: the engine must report exactly the naive offsets, under each
    // strategy.  This exercises the shift rules near every boundary.
    fn word(bits: usize, len: usize) -> String {
        (0..len)
            .map(|i| if bits >> i & 1 == 0 { 'a' } else { 'b' })
            .collect()
    }
    for plen in 1..=3usize {
        for pbits in 0..(1 << plen) {
            let p = word(pbits, plen);
            for tlen in 0..=6usize {
                for tbits in 0..(1 << tlen) {
                    let t = word(tbits, tlen);
                    let expected = naive_offsets(&p, &t);
                    assert_eq!(expected, boyer_moore_search(&p, &t), "pattern {p} text {t}");
                    assert_eq!(expected, badcharsearch(&p, &t).0, "pattern {p} text {t}");
                    assert_eq!(expected, goodsuffixsearch(&p, &t).0, "pattern {p} text {t}");
                }
            }
        }
    }
}

#[test]
fn metrics_are_deterministic_and_positive() {
    let (o1, m1) = badcharsearch("abab", "abababab");
    let (o2, m2) = badcharsearch("abab", "abababab");
    assert_eq!(o1, o2);
    assert_eq!(m1, m2);
    assert!(m1.shifts >= o1.len() as u64);
    assert!(m1.comparisons >= m1.shifts);
}

#[test]
fn badchar_metrics_count_comparisons_and_shifts() {
    // Alignments 0, 2 and 4 each match all four characters; after the last
    // window reaches the end of the text the alignment advances by one and
    // the loop stops.
    let (offsets, metrics) = badcharsearch("abab", "abababab");
    assert_eq!(offsets, vec![0, 2, 4]);
    assert_eq!(metrics.comparisons, 12);
    assert_eq!(metrics.shifts, 3);
}

#[test]
fn good_suffix_metrics_count_comparisons_and_shifts() {
    // Each of the three alignments matches both characters, and the
    // good-suffix shift after a full match of "aa" is one.
    let (offsets, metrics) = goodsuffixsearch("aa", "aaaa");
    assert_eq!(offsets, vec![0, 1, 2]);
    assert_eq!(metrics.comparisons, 6);
    assert_eq!(metrics.shifts, 3);
}

#[test]
fn good_suffix_skips_no_fewer_alignments_than_naive_needs() {
    let (offsets, metrics) = goodsuffixsearch("abcab", "abcabdabcabcab");
    assert_eq!(offsets, naive_offsets("abcab", "abcabdabcabcab"));
    // The loop can examine at most one alignment per text position.
    assert!(metrics.shifts <= 14);
}

#[test]
fn offsets_map_to_lines() {
    let contents = "ab\ncd\nef";
    // Offsets 0, 3 and 6 start the three lines.
    assert_eq!(vec!["ab", "cd", "ef"], indices_to_lines(vec![0, 3, 6], contents));
    // An offset in the middle of a line maps to that line.
    assert_eq!(vec!["cd"], indices_to_lines(vec![4], contents));
    // Duplicate lines are reported once per offset.
    assert_eq!(vec!["ab", "ab"], indices_to_lines(vec![0, 1], contents));
}

#[test]
fn offset_on_a_line_break_belongs_to_the_line_it_ends() {
    let contents = "ab\ncd";
    assert_eq!(vec!["ab"], indices_to_lines(vec![2], contents));
}

#[test]
fn carriage_returns_are_stripped_from_line_ends() {
    let contents = "ab\r\ncd\r\nef";
    assert_eq!(vec!["ab", "cd", "ef"], indices_to_lines(vec![0, 4, 8], contents));
}

#[test]
fn searching_across_line_breaks_finds_the_starting_line() {
    let offsets = boyer_moore_search("b\nc", "ab\ncd");
    assert_eq!(vec![1], offsets);
    assert_eq!(vec!["ab"], indices_to_lines(offsets, "ab\ncd"));
}
