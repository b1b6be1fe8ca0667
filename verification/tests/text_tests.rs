use zw_to_anki::text::{
    chars_of, index_of, is_whitespace, join, less, push_chars, same_chars, slice, split_lines,
    split_on, split_words, string_of, trim_end_matches,
};

fn chars(s: &str) -> Vec<char> {
    s.chars().collect()
}

fn strings(parts: Vec<Vec<char>>) -> Vec<String> {
    parts.into_iter().map(|p| p.into_iter().collect()).collect()
}

#[test]
fn strings_and_characters() {
    assert_eq!(chars_of("a·好"), vec!['a', '·', '好']);
    assert_eq!(chars_of(""), Vec::<char>::new());
    assert_eq!(string_of(&vec!['a', '·', '好']), "a·好");
    assert_eq!(string_of(&vec![]), "");
    let mut s = String::from("x");
    push_chars(&mut s, &vec!['y', 'z']);
    assert_eq!(s, "xyz");
    assert_eq!(slice(&chars("abcdef"), 1, 4), vec!['b', 'c', 'd']);
    assert_eq!(slice(&chars("abcdef"), 2, 2), Vec::<char>::new());
    assert_eq!(slice(&chars("abc"), 0, 3), vec!['a', 'b', 'c']);
    assert!(same_chars(&chars("abc"), &chars("abc")));
    assert!(same_chars(&chars(""), &chars("")));
    assert!(!same_chars(&chars("abc"), &chars("abd")));
    assert!(!same_chars(&chars("abc"), &chars("ab")));
}

#[test]
fn first_place_of_a_character() {
    assert_eq!(index_of(&chars("a[b[c"), '['), 1);
    assert_eq!(index_of(&chars("[abc"), '['), 0);
    assert_eq!(index_of(&chars("abc"), '['), 3);
    assert_eq!(index_of(&chars(""), '['), 0);
}

#[test]
fn splitting_keeps_empty_pieces() {
    assert_eq!(strings(split_on(&chars("a/b//c/"), '/')), vec!["a", "b", "", "c", ""]);
    assert_eq!(strings(split_on(&chars("abc"), '/')), vec!["abc"]);
    assert_eq!(strings(split_on(&chars(""), '/')), vec![""]);
    assert_eq!(strings(split_on(&chars("/"), '/')), vec!["", ""]);
    assert_eq!(strings(split_on(&chars("//a"), '/')), vec!["", "", "a"]);
}

#[test]
fn words_are_runs_without_white_space() {
    assert_eq!(strings(split_words(&chars("  ab \t cd\u{3000}ef\n"))), vec!["ab", "cd", "ef"]);
    assert_eq!(strings(split_words(&chars("ab"))), vec!["ab"]);
    assert_eq!(strings(split_words(&chars(""))), Vec::<String>::new());
    assert_eq!(strings(split_words(&chars(" \u{a0}\u{2003} "))), Vec::<String>::new());
    assert_eq!(strings(split_words(&chars("a\u{200b}b c"))), vec!["a\u{200b}b", "c"]);
}

#[test]
fn white_space_is_what_std_calls_so() {
    let mut n: u32 = 0;
    while n <= 0x3100 {
        if let Some(c) = char::from_u32(n) {
            assert_eq!(is_whitespace(c), c.is_whitespace());
        }
        n += 1;
    }
    assert!(!is_whitespace('\u{feff}'));
    assert!(!is_whitespace('好'));
}

#[test]
fn trailing_copies_are_trimmed() {
    let trim = |s: &str, suffix: &str| -> String {
        trim_end_matches(&chars(s), &chars(suffix)).into_iter().collect()
    };
    assert_eq!(trim("yi1 er4] ", "] "), "yi1 er4");
    assert_eq!(trim("yi1] ] ] ", "] "), "yi1");
    assert_eq!(trim("yi1]", "] "), "yi1]");
    assert_eq!(trim("yi1 ] x", "] "), "yi1 ] x");
    assert_eq!(trim("] ] ", "] "), "");
    assert_eq!(trim("", "] "), "");
    assert_eq!(trim("abc", ""), "abc");
    assert_eq!(trim("aaa", "a"), "");
    assert_eq!(trim("aaa", "aa"), "a");
}

#[test]
fn lines_end_at_line_feeds() {
    assert_eq!(strings(split_lines(&chars("a\nb\r\nc"))), vec!["a", "b", "c"]);
    assert_eq!(strings(split_lines(&chars("a\nb\n"))), vec!["a", "b"]);
    assert_eq!(strings(split_lines(&chars("a\n\nb\r\n\r\n"))), vec!["a", "", "b", ""]);
    assert_eq!(strings(split_lines(&chars(""))), Vec::<String>::new());
    assert_eq!(strings(split_lines(&chars("\n"))), vec![""]);
    assert_eq!(strings(split_lines(&chars("a\r"))), vec!["a\r"]);
    assert_eq!(strings(split_lines(&chars("a\rb\n"))), vec!["a\rb"]);
    assert_eq!(strings(split_lines(&chars("a\r\r\n"))), vec!["a\r"]);
    for text in ["a\nb\r\nc", "a\n\nb\r\n\r\n", "", "\n", "a\r", "x\r\n\ny", "\r\n"] {
        let expected: Vec<&str> = text.lines().collect();
        assert_eq!(strings(split_lines(&chars(text))), expected);
    }
}

#[test]
fn order_of_character_sequences() {
    assert!(less(&chars("a"), &chars("b")));
    assert!(less(&chars(""), &chars("a")));
    assert!(less(&chars("ab"), &chars("abc")));
    assert!(less(&chars("Z"), &chars("a")));
    assert!(less(&chars("z"), &chars("é")));
    assert!(!less(&chars("a"), &chars("a")));
    assert!(!less(&chars(""), &chars("")));
    assert!(!less(&chars("b"), &chars("a")));
    assert!(!less(&chars("abc"), &chars("ab")));
    for (a, b) in [("laughing gas", "nitrous oxide N2O"), ("好", "坏"), ("a好", "a"), ("𠀀", "好")] {
        assert_eq!(less(&chars(a), &chars(b)), a < b);
        assert_eq!(less(&chars(b), &chars(a)), b < a);
    }
}

#[test]
fn joining_puts_the_separator_between() {
    let list = |parts: &[&str]| -> Vec<String> { parts.iter().map(|p| p.to_string()).collect() };
    assert_eq!(join(&list(&["a", "b", "c"]), " · "), "a · b · c");
    assert_eq!(join(&list(&["a"]), " · "), "a");
    assert_eq!(join(&list(&[]), " · "), "");
    assert_eq!(join(&list(&["", ""]), ","), ",");
    assert_eq!(join(&list(&["a", "b"]), ""), "ab");
}
