use shell_secrets::text::{
    chars_of, is_whitespace, join_lines, split_lines, starts_with, string_of, trim, unquote,
};

fn chars(text: &str) -> Vec<char> {
    text.chars().collect()
}

fn strings(lines: &[Vec<char>]) -> Vec<String> {
    lines.iter().map(|line| line.iter().collect()).collect()
}

#[test]
fn white_space_is_what_the_standard_library_calls_so() {
    for code in 0..=0x10ffffu32 {
        if let Some(c) = char::from_u32(code) {
            assert_eq!(is_whitespace(c), c.is_whitespace(), "U+{:04X}", code);
        }
    }
}

#[test]
fn chars_and_strings_turn_into_each_other() {
    for text in ["", "a", "export A=\"1\"\n", "h\u{e9}llo \u{4e16}\u{754c} \u{1f600}"] {
        assert_eq!(chars_of(text), chars(text));
        assert_eq!(string_of(&chars(text)), text);
    }
}

#[test]
fn trim_takes_the_white_space_off_both_ends() {
    let samples = [
        "",
        " ",
        " \t\r\n",
        "a",
        "  a",
        "a  ",
        " a b ",
        "\u{3000}x\u{a0}",
        "\u{200b}x\u{200b}",
        "\t export A=\"1\" \r",
        "\u{2028}\u{2029}\u{85}",
    ];
    for text in samples {
        assert_eq!(string_of(&trim(&chars(text))), text.trim(), "{:?}", text);
    }
    assert_eq!(string_of(&trim(&chars("  a  b  "))), "a  b");
}

#[test]
fn unquote_takes_every_double_quote_off_both_ends() {
    let samples = ["", "\"", "\"\"", "\"a\"", "\"\"a\"", "a\"b", "\"a\"b\"\"", "'a'", " \"a\""];
    for text in samples {
        assert_eq!(string_of(&unquote(&chars(text))), text.trim_matches('"'), "{:?}", text);
    }
    assert_eq!(string_of(&unquote(&chars("\"\"a\"b\"\"\""))), "a\"b");
}

#[test]
fn starts_with_tests_a_prefix() {
    assert!(starts_with(&chars("export A=1"), &chars("export ")));
    assert!(starts_with(&chars("export"), &chars("export")));
    assert!(starts_with(&chars("export"), &chars("")));
    assert!(!starts_with(&chars("expor"), &chars("export")));
    assert!(!starts_with(&chars("#export A=1"), &chars("export ")));
}

#[test]
fn lines_are_split_as_the_standard_library_splits_them() {
    let samples = [
        "",
        "\n",
        "\n\n",
        "a",
        "a\n",
        "a\n\n",
        "a\nb",
        "a\nb\n",
        "a\r\nb\r\n",
        "a\r",
        "a\r\n",
        "\r\n",
        "\r",
        "a\r\r\n",
        "a\rb\n",
        "\n\ra",
        "a\n\r\nb",
        "  x  \n\ty\t\n",
    ];
    for text in samples {
        let expected: Vec<String> = text.lines().map(|line| line.to_string()).collect();
        assert_eq!(strings(&split_lines(&chars(text))), expected, "{:?}", text);
    }
    assert_eq!(strings(&split_lines(&chars("a\r\n\nb\r"))), vec!["a", "", "b\r"]);
}

#[test]
fn lines_are_joined_with_one_line_feed_between_them() {
    assert_eq!(string_of(&join_lines(&vec![])), "");
    assert_eq!(string_of(&join_lines(&vec![chars("a")])), "a");
    assert_eq!(string_of(&join_lines(&vec![chars("")])), "");
    assert_eq!(string_of(&join_lines(&vec![chars("a"), chars("b")])), "a\nb");
    assert_eq!(string_of(&join_lines(&vec![chars("a"), chars(""), chars("b")])), "a\n\nb");
    assert_eq!(string_of(&join_lines(&vec![chars("a"), chars("")])), "a\n");
}

#[test]
fn splitting_undoes_joining_of_plain_lines() {
    let lines = vec![chars("export A=\"1\""), chars(""), chars("# note"), chars("last\r")];
    assert_eq!(split_lines(&join_lines(&lines)), lines);
    let not_plain = vec![chars("a\r"), chars("b")];
    assert_eq!(split_lines(&join_lines(&not_plain)), vec![chars("a"), chars("b")]);
    let ends_empty = vec![chars("a"), chars("")];
    assert_eq!(split_lines(&join_lines(&ends_empty)), vec![chars("a")]);
}

#[test]
fn joining_undoes_splitting_but_for_the_last_line_feed() {
    for text in ["", "a", "a\nb", "\n", "\n\n", "a\n", "a\n\nb\n", "  x \n\ty\n\n"] {
        let joined = string_of(&join_lines(&split_lines(&chars(text))));
        assert_eq!(joined, text.strip_suffix('\n').unwrap_or(text), "{:?}", text);
    }
    assert_eq!(string_of(&join_lines(&split_lines(&chars("a\r\nb\r\n")))), "a\nb");
}
