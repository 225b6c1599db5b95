use mini_grep::{search, search_case_insensitive, search_case_sensitive};

const TEST_CONTENTS: &str = "\
Rust:
safe, fast, productive.
Pick three.
Duct tape.
Trust me.";

#[test]
fn case_sensitive() {
    let query = "duct";
    assert_eq!(
        vec!["safe, fast, productive."],
        search_case_sensitive(query, TEST_CONTENTS)
    )
}

#[test]
fn case_insensitive() {
    let query = "rUsT";
    assert_eq!(
        vec!["Rust:", "Trust me."],
        search_case_insensitive(query, TEST_CONTENTS)
    );
}

#[test]
fn sample_text_written_with_escapes() {
    let contents = "Rust:\nsafe, fast, productive.\nPick three.\nDuct tape.\nTrust me.";
    assert_eq!(contents, TEST_CONTENTS);
    assert_eq!(
        vec!["safe, fast, productive."],
        search("duct", contents, false)
    );
    assert_eq!(vec!["Rust:", "Trust me."], search("rUsT", contents, true));
}

#[test]
fn empty_contents_has_no_match() {
    let none: Vec<&str> = Vec::new();
    assert_eq!(none, search_case_sensitive("anything", ""));
    assert_eq!(none, search_case_insensitive("anything", ""));
    assert_eq!(none, search("anything", "", false));
    assert_eq!(none, search("anything", "", true));
}

#[test]
fn empty_contents_and_empty_query() {
    let none: Vec<&str> = Vec::new();
    assert_eq!(none, search("", "", false));
    assert_eq!(none, search("", "", true));
}

#[test]
fn empty_query_on_a_text_without_line_ending() {
    assert_eq!(vec!["abc"], search_case_sensitive("", "abc"));
    assert_eq!(vec!["abc"], search_case_insensitive("", "abc"));
    assert_eq!(vec!["abc"], search("", "abc", false));
    assert_eq!(vec!["abc"], search("", "abc", true));
}

#[test]
fn empty_query_returns_every_line() {
    let all = vec![
        "Rust:",
        "safe, fast, productive.",
        "Pick three.",
        "Duct tape.",
        "Trust me.",
    ];
    assert_eq!(all, search("", TEST_CONTENTS, false));
    assert_eq!(all, search("", TEST_CONTENTS, true));
}

#[test]
fn empty_query_keeps_empty_lines() {
    assert_eq!(vec!["a", "", "b", ""], search("", "a\n\nb\n\n", false));
    assert_eq!(vec!["a", "", "b", ""], search("", "a\n\nb\n\n", true));
}

#[test]
fn no_match_is_an_empty_result() {
    let none: Vec<&str> = Vec::new();
    assert_eq!(none, search("zebra", TEST_CONTENTS, false));
    assert_eq!(none, search("zebra", TEST_CONTENTS, true));
}

#[test]
fn case_sensitive_needs_the_same_case() {
    assert_eq!(vec!["Duct tape."], search_case_sensitive("Duct", TEST_CONTENTS));
    let none: Vec<&str> = Vec::new();
    assert_eq!(none, search_case_sensitive("DUCT", TEST_CONTENTS));
    assert_eq!(
        vec!["safe, fast, productive.", "Duct tape."],
        search_case_insensitive("DUCT", TEST_CONTENTS)
    );
}

#[test]
fn case_sensitive_matches_are_among_the_insensitive() {
    for query in ["duct", "Rust", "t", "e.", "Pick three.", "", "x"] {
        let narrow = search_case_sensitive(query, TEST_CONTENTS);
        let wide = search_case_insensitive(query, TEST_CONTENTS);
        let mut from = 0;
        for line in &narrow {
            let at = wide[from..].iter().position(|other| other == line);
            assert!(at.is_some(), "{line:?} is missing for {query:?}");
            from += at.unwrap() + 1;
        }
    }
}

#[test]
fn final_sigma_folds_apart() {
    // The query alone ends a word, so its sigma folds to the final form; in
    // the line the same sigma stands inside a word.
    let contents = "\u{391}\u{3a3}\u{391}";
    let query = "\u{391}\u{3a3}";
    assert_eq!(vec![contents], search_case_sensitive(query, contents));
    let none: Vec<&str> = Vec::new();
    assert_eq!(none, search_case_insensitive(query, contents));
}

#[test]
fn same_search_twice_gives_the_same() {
    for ignore_case in [false, true] {
        for query in ["rust", "t", "", "zebra"] {
            let first = search(query, TEST_CONTENTS, ignore_case);
            let second = search(query, TEST_CONTENTS, ignore_case);
            assert_eq!(first, second);
        }
    }
}

#[test]
fn matches_keep_the_order_of_the_text() {
    let contents = "b1\na\nb2\nb1\nc\nb0\n";
    assert_eq!(vec!["b1", "b2", "b1", "b0"], search("b", contents, false));
    assert_eq!(vec!["b1", "b2", "b1", "b0"], search("B", contents, true));
}

#[test]
fn matches_are_slices_of_the_text_in_ascending_places() {
    let contents = "one\ntwo\nthree\ntwo\n";
    let found = search("o", contents, false);
    assert_eq!(vec!["one", "two", "two"], found);
    let start = contents.as_ptr() as usize;
    let places: Vec<usize> = found.iter().map(|line| line.as_ptr() as usize - start).collect();
    assert_eq!(vec![0, 4, 14], places);
}

#[test]
fn insensitive_matches_keep_their_case() {
    let contents = "HeLLo World\nhello\nHELLO\nbye";
    assert_eq!(
        vec!["HeLLo World", "hello", "HELLO"],
        search_case_insensitive("hElLo", contents)
    );
}

#[test]
fn insensitive_search_folds_beyond_ascii() {
    let contents = "\u{c9}COLE\n\u{e9}cole\necole";
    assert_eq!(
        vec!["\u{c9}COLE", "\u{e9}cole"],
        search_case_insensitive("\u{c9}cole", contents)
    );
    assert_eq!(
        vec!["\u{e9}cole"],
        search_case_sensitive("\u{e9}cole", contents)
    );
}

#[test]
fn mode_flag_selects_the_mode() {
    assert_eq!(
        search_case_sensitive("rust", TEST_CONTENTS),
        search("rust", TEST_CONTENTS, false)
    );
    assert_eq!(
        search_case_insensitive("rust", TEST_CONTENTS),
        search("rust", TEST_CONTENTS, true)
    );
    assert_eq!(vec!["Trust me."], search("rust", TEST_CONTENTS, false));
    assert_eq!(vec!["Rust:", "Trust me."], search("rust", TEST_CONTENTS, true));
}

#[test]
fn query_never_spans_two_lines() {
    let none: Vec<&str> = Vec::new();
    assert_eq!(none, search("a\nb", "a\nb", false));
    assert_eq!(none, search("ab", "a\nb", false));
    assert_eq!(none, search("a\r", "a\r\nb", false));
    assert_eq!(vec!["a\rb"], search("a\r", "a\rb\n", false));
}

#[test]
fn whole_line_and_longer_queries() {
    assert_eq!(vec!["Pick three."], search("Pick three.", TEST_CONTENTS, false));
    let none: Vec<&str> = Vec::new();
    assert_eq!(none, search("Pick three..", TEST_CONTENTS, false));
}
