use crep::badchar_table;
use crep::process_case_2;
use crep::strong_suffix_table;

fn build_tables(pattern: &str) -> (Vec<i32>, Vec<i32>, Vec<i32>) {
    let pat: Vec<char> = pattern.chars().collect();
    let badchar = badchar_table(&pat);
    let shift = vec![0; pat.len() + 1];
    let bpos = vec![0; pat.len() + 1];
    let (shift, bpos) = strong_suffix_table(&pat, shift, bpos);
    let (shift, bpos) = process_case_2(&pat, shift, bpos);
    (badchar, shift, bpos)
}

#[test]
fn badchar_records_rightmost_occurrence() {
    let pat: Vec<char> = "abcab".chars().collect();
    let table = badchar_table(&pat);
    assert_eq!(table.len(), 256);
    assert_eq!(table['a' as usize], 3);
    assert_eq!(table['b' as usize], 4);
    assert_eq!(table['c' as usize], 2);
    assert_eq!(table['d' as usize], -1);
    assert_eq!(table[0], -1);
}

#[test]
fn badchar_single_character() {
    let pat: Vec<char> = "z".chars().collect();
    let table = badchar_table(&pat);
    assert_eq!(table['z' as usize], 0);
    for c in 0..256usize {
        if c != 'z' as usize {
            assert_eq!(table[c], -1);
        }
    }
}

#[test]
fn shift_table_is_strictly_positive() {
    for pattern in ["a", "ab", "aa", "abab", "aabaa", "abcdabc", "zzzzz"] {
        let (_badchar, shift, _bpos) = build_tables(pattern);
        assert_eq!(shift.len(), pattern.len() + 1);
        for (j, s) in shift.iter().enumerate() {
            assert!(*s >= 1, "pattern {pattern} entry {j} is {s}");
        }
    }
}

#[test]
fn known_shift_table_for_abbab() {
    // Classic worked example for the strong good-suffix rule.
    let (_badchar, shift, bpos) = build_tables("ABBAB");
    assert_eq!(shift, vec![3, 3, 3, 3, 2, 1]);
    assert_eq!(bpos, vec![3, 4, 4, 5, 5, 6]);
}

#[test]
fn building_tables_twice_yields_identical_tables() {
    for pattern in ["a", "abab", "aabaa", "mississippi"] {
        let first = build_tables(pattern);
        let second = build_tables(pattern);
        assert_eq!(first.0, second.0);
        assert_eq!(first.1, second.1);
        assert_eq!(first.2, second.2);
    }
}
