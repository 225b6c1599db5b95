use mini_grep::{next_line, split_lines, str_contains};

#[test]
fn empty_text_has_no_lines() {
    let none: Vec<&str> = Vec::new();
    assert_eq!(none, split_lines(""));
    assert_eq!(None, next_line(""));
}

#[test]
fn text_without_line_ending_is_one_line() {
    assert_eq!(vec!["abc"], split_lines("abc"));
    assert_eq!(Some(("abc", "")), next_line("abc"));
}

#[test]
fn final_line_ending_adds_no_line() {
    assert_eq!(vec!["abc"], split_lines("abc\n"));
    assert_eq!(vec!["a", "b"], split_lines("a\nb\n"));
    assert_eq!(vec!["a", "b"], split_lines("a\nb"));
    assert_eq!(Some(("abc", "")), next_line("abc\n"));
}

#[test]
fn empty_lines_are_lines() {
    assert_eq!(vec![""], split_lines("\n"));
    assert_eq!(vec!["", ""], split_lines("\n\n"));
    assert_eq!(vec!["a", "", "b"], split_lines("a\n\nb"));
    assert_eq!(vec!["", "a"], split_lines("\na"));
}

#[test]
fn carriage_return_before_line_feed_is_dropped() {
    assert_eq!(vec!["a", "b"], split_lines("a\r\nb\r\n"));
    assert_eq!(vec![""], split_lines("\r\n"));
    assert_eq!(vec!["a\r"], split_lines("a\r\r\n"));
    assert_eq!(Some(("a", "b")), next_line("a\r\nb"));
}

#[test]
fn bare_carriage_return_stays() {
    assert_eq!(vec!["a\rb"], split_lines("a\rb"));
    assert_eq!(vec!["a\r"], split_lines("a\r"));
    assert_eq!(vec!["\ra", "b\r"], split_lines("\ra\nb\r"));
}

#[test]
fn next_line_steps_through_the_text() {
    let mut rest = "one\ntwo\r\n\nfour";
    let mut seen = Vec::new();
    while let Some((line, tail)) = next_line(rest) {
        seen.push(line);
        rest = tail;
    }
    assert_eq!(vec!["one", "two", "", "four"], seen);
    assert_eq!("", rest);
}

#[test]
fn lines_of_text_beyond_ascii() {
    let text = "gr\u{fc}n\n\u{65e5}\u{672c}\u{8a9e}\r\n\u{1f600}\n";
    assert_eq!(
        vec!["gr\u{fc}n", "\u{65e5}\u{672c}\u{8a9e}", "\u{1f600}"],
        split_lines(text)
    );
}

#[test]
fn lines_agree_with_the_standard_library() {
    for text in [
        "",
        "\n",
        "\r",
        "\r\n",
        "a",
        "a\n",
        "a\r\n",
        "a\r",
        "a\n\r",
        "\n\na\n\n",
        "x\r\r\ny",
        "Rust:\nsafe, fast, productive.\nPick three.\nDuct tape.\nTrust me.",
        "\u{e9}\n\u{1f600}\r\n\u{3a3}",
    ] {
        let expected: Vec<&str> = text.lines().collect();
        assert_eq!(expected, split_lines(text), "for {text:?}");
    }
}

#[test]
fn contains_finds_parts() {
    assert!(str_contains("safe, fast, productive.", "duct"));
    assert!(str_contains("abc", "abc"));
    assert!(str_contains("abc", "a"));
    assert!(str_contains("abc", "c"));
    assert!(str_contains("aab", "ab"));
    assert!(str_contains("ababac", "abac"));
}

#[test]
fn contains_rejects_what_is_absent() {
    assert!(!str_contains("Duct tape.", "duct"));
    assert!(!str_contains("abc", "abcd"));
    assert!(!str_contains("abc", "ac"));
    assert!(!str_contains("", "a"));
    assert!(!str_contains("ab", "ba"));
}

#[test]
fn empty_text_is_part_of_every_text() {
    assert!(str_contains("abc", ""));
    assert!(str_contains("", ""));
}

#[test]
fn contains_compares_whole_characters() {
    assert!(str_contains("na\u{ef}ve", "\u{ef}v"));
    assert!(str_contains("\u{65e5}\u{672c}\u{8a9e}", "\u{672c}"));
    assert!(!str_contains("\u{65e5}\u{672c}\u{8a9e}", "\u{672d}"));
    assert!(!str_contains("\u{e9}", "\u{e8}"));
    assert!(str_contains("a\u{1f600}b", "\u{1f600}b"));
}

#[test]
fn contains_agrees_with_the_standard_library() {
    let texts = ["", "a", "ab", "aab", "abab", "\u{e9}t\u{e9}", "x\u{1f600}y", "Trust me."];
    for hay in texts {
        for needle in texts {
            assert_eq!(hay.contains(needle), str_contains(hay, needle), "{needle:?} in {hay:?}");
        }
    }
}
