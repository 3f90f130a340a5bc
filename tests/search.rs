use minigrep::search;
use minigrep::text::contains_str;

#[test]
fn case_sensitive() {
    let query = "duct";
    let contents = "\
Rust:
safe, fast, productive.
Pick three.
Duct tape.";

    assert_eq!(
        vec!["safe, fast, productive."],
        search(query, contents, true)
    );
}

#[test]
fn case_insensitive() {
    let query = "rUsT";
    let contents = "\
Rust:
safe, fast, productive.
Pick three.
Trust me.";

    assert_eq!(vec!["Rust:", "Trust me."], search(query, contents, false));
}

#[test]
fn no_match_gives_empty_result() {
    let contents = "Rust:\nsafe, fast, productive.\nPick three.";
    assert!(search("zebra", contents, true).is_empty());
    assert!(search("ZEBRA", contents, false).is_empty());
}

#[test]
fn empty_contents_has_no_lines() {
    assert!(search("", "", true).is_empty());
    assert!(search("a", "", false).is_empty());
}

#[test]
fn empty_query_keeps_every_line_in_order() {
    let contents = "one\n\nthree\n";
    assert_eq!(vec!["one", "", "three"], search("", contents, true));
}

#[test]
fn crlf_endings_are_stripped() {
    let contents = "alpha\r\nbeta\r\ngamma";
    assert_eq!(vec!["beta"], search("b", contents, true));
    assert_eq!(vec!["alpha", "beta", "gamma"], search("a", contents, true));
}

#[test]
fn lone_carriage_return_at_end_is_kept() {
    let contents = "x\r";
    assert_eq!(vec!["x\r"], search("x", contents, true));
}

#[test]
fn trailing_newline_adds_no_empty_line() {
    assert_eq!(vec!["a", ""], search("", "a\n\n", true));
    assert_eq!(vec!["a"], search("", "a\n", true));
}

#[test]
fn duplicate_lines_are_all_kept() {
    assert_eq!(vec!["ab", "ab"], search("b", "ab\ncd\nab", true));
}

#[test]
fn output_keeps_original_case() {
    assert_eq!(vec!["HELLO there"], search("hello", "HELLO there\nbye", false));
    assert!(search("hello", "HELLO there\nbye", true).is_empty());
}

#[test]
fn case_insensitive_folds_beyond_ascii() {
    let contents = "Größe\nÄRGER\nplain";
    assert_eq!(vec!["ÄRGER"], search("ärger", contents, false));
    assert_eq!(vec!["Größe"], search("GRÖ", contents, false));
    assert!(search("ärger", contents, true).is_empty());
}

#[test]
fn substring_inside_word_matches() {
    assert_eq!(vec!["productive"], search("duct", "productive\nconduit", true));
}

#[test]
fn contains_str_finds_runs_of_bytes() {
    assert!(contains_str("productive", "duct"));
    assert!(contains_str("abc", ""));
    assert!(contains_str("abc", "abc"));
    assert!(!contains_str("abc", "abcd"));
    assert!(!contains_str("Duct tape.", "duct"));
    assert!(contains_str("größe", "öß"));
}
