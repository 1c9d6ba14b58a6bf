use crep::boyer_moore_lines;
use crep::boyer_moore_lines_case_insensitive;
use crep::search;
use crep::search_case_insensitive;

#[test]
fn case_sensitive() {
    let query = "duct";
    let contents = "\
Rust:
safe, fast, productive.
Pick three.
Duct tape.";

    assert_eq!(vec!["safe, fast, productive."], search(query, contents));
}

#[test]
fn case_insensitive() {
    let query = "rUsT";
    let contents = "\
Rust:
safe, fast, productive.
Pick three.
Trust me.";

    assert_eq!(
        vec!["Rust:", "Trust me."],
        search_case_insensitive(query, contents)
    );
}

#[test]
fn boyer_moore() {
    let query = "duct";
    let contents = "\
Rust:
safe, fast, productive.
Pick three.
Duct tape.";

    assert_eq!(
        vec!["safe, fast, productive."],
        boyer_moore_lines(query, contents)
    );
}

#[test]
fn boyer_moore_case_insensitive() {
    let query = "rUsT";
    let contents = "\
Rust:
safe, fast, productive.
Pick three.
Trust me.";

    assert_eq!(
        vec!["Rust:", "Trust me."],
        boyer_moore_lines_case_insensitive(query, contents)
    );
}

#[test]
fn empty_query_matches_every_line() {
    let contents = "one\ntwo\nthree";
    assert_eq!(vec!["one", "two", "three"], search("", contents));
    assert_eq!(vec!["one", "two", "three"], search_case_insensitive("", contents));
}

#[test]
fn search_reports_a_line_once_per_match_line() {
    let contents = "aba\nbab\ncc\naba";
    assert_eq!(vec!["aba", "bab", "aba"], search("ab", contents));
}

#[test]
fn search_is_case_sensitive_by_default() {
    let contents = "Hello\nhello";
    assert_eq!(vec!["hello"], search("hello", contents));
}

#[test]
fn case_insensitive_leaves_non_letters_alone() {
    let contents = "A1B2\nx1y2";
    assert_eq!(vec!["A1B2"], search_case_insensitive("a1b", contents));
}

#[test]
fn boyer_moore_lines_reports_line_of_each_offset() {
    // Two matches on the first line, one on the second: one line per offset.
    let contents = "xxabxxab\nab";
    assert_eq!(
        vec!["xxabxxab", "xxabxxab", "ab"],
        boyer_moore_lines("ab", contents)
    );
}

#[test]
fn boyer_moore_case_insensitive_maps_to_original_lines() {
    let contents = "ABC def\nabc DEF";
    assert_eq!(
        vec!["ABC def", "abc DEF"],
        boyer_moore_lines_case_insensitive("aBc", contents)
    );
}
