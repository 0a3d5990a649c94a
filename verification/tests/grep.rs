use rust_grep::{contains_substring, search, split_lines, status_line, Config};

#[test]
fn one_result() {
    let query = "duct";
    let contents = "\
Rust:
safe, fast, productive.
Pick three.";
    assert_eq!(vec!["safe, fast, productive."], search(query, contents));
}

#[test]
fn empty_query_returns_every_line() {
    let contents = "Rust:\nsafe, fast, productive.\nPick three.";
    assert_eq!(
        vec!["Rust:", "safe, fast, productive.", "Pick three."],
        search("", contents)
    );
}

#[test]
fn empty_contents_return_nothing() {
    assert!(search("duct", "").is_empty());
    assert!(search("", "").is_empty());
}

#[test]
fn matching_is_case_sensitive() {
    assert!(search("RUST", "rust").is_empty());
    assert_eq!(vec!["rust"], search("rust", "rust"));
}

#[test]
fn matcher_is_deterministic() {
    let query = "st";
    let contents = "Rust:\nsafe, fast, productive.\nPick three.";
    let first = search(query, contents);
    let second = search(query, contents);
    assert_eq!(first, second);
}

#[test]
fn duplicate_lines_kept_in_order() {
    let contents = "one match\nno hit\none match\nanother match";
    assert_eq!(
        vec!["one match", "one match", "another match"],
        search("match", contents)
    );
}

#[test]
fn match_at_line_start_and_end() {
    let contents = "prefix here\nhere suffix\nnowhere";
    assert_eq!(
        vec!["prefix here", "here suffix", "nowhere"],
        search("here", contents)
    );
}

#[test]
fn query_longer_than_line_never_matches() {
    assert!(search("a longer query", "short").is_empty());
}

#[test]
fn contains_substring_basics() {
    assert!(contains_substring("hello", "ell"));
    assert!(!contains_substring("hello", "xyz"));
    assert!(contains_substring("hello", ""));
    assert!(contains_substring("", ""));
    assert!(!contains_substring("", "a"));
    assert!(contains_substring("aaa", "aaa"));
    assert!(!contains_substring("aaa", "aaaa"));
}

#[test]
fn split_lines_conventions() {
    let lines: Vec<&str> = split_lines("a\nb\nc");
    assert_eq!(vec!["a", "b", "c"], lines);
    assert_eq!(vec!["a"], split_lines("a\n"));
    assert_eq!(vec![""], split_lines("\n"));
    assert_eq!(vec!["", ""], split_lines("\n\n"));
    assert!(split_lines("").is_empty());
}

#[test]
fn split_lines_strips_carriage_return_before_line_feed() {
    assert_eq!(vec!["a", "b"], split_lines("a\r\nb\r\n"));
    assert_eq!(vec!["a\r"], split_lines("a\r"));
    assert_eq!(vec!["a\rb"], split_lines("a\rb\n"));
}

#[test]
fn search_over_crlf_text() {
    assert_eq!(vec!["alpha"], search("alpha", "alpha\r\nbeta\r\n"));
}

#[test]
fn final_line_without_terminator_is_searched() {
    assert_eq!(vec!["tail line"], search("tail", "head line\ntail line"));
}

#[test]
fn queries_do_not_match_across_line_boundaries() {
    assert!(search("ab", "a\nb").is_empty());
    assert!(search("a\nb", "a\nb").is_empty());
    assert!(search("ab", "a\r\nb").is_empty());
}

#[test]
fn non_ascii_text_is_matched_by_character() {
    assert_eq!(vec!["café au lait"], search("café", "café au lait\nplain tea"));
    assert_eq!(vec!["αβγ"], search("β", "αβγ\nxyz"));
    assert!(search("é", "plain\ntea").is_empty());
}

#[test]
fn config_new_parses_query_and_filename() {
    let args = vec![
        String::from("prog"),
        String::from("duct"),
        String::from("file.txt"),
    ];
    let config = Config::new(&args).unwrap();
    assert_eq!("duct", config.query);
    assert_eq!("file.txt", config.filename);
}

#[test]
fn config_new_rejects_too_few_arguments() {
    let one = vec![String::from("prog")];
    assert_eq!(Err("not enough arguments"), Config::new(&one).map(|c| c.query));
    let two = vec![String::from("prog"), String::from("onlyone")];
    assert_eq!(Err("not enough arguments"), Config::new(&two).map(|c| c.query));
}

#[test]
fn status_line_names_query_and_file() {
    assert_eq!(
        "Searching for 'duct' in 'file.txt'",
        status_line("duct", "file.txt")
    );
}
