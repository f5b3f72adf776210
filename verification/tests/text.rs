use authorship::text::{chars_of, find_from, lines_of, reverse_vec, split_once, string_of, words_of};

#[test]
fn texts_are_cut_into_lines() {
    assert_eq!(lines_of(""), Vec::<String>::new());
    assert_eq!(lines_of("a"), vec!["a"]);
    assert_eq!(lines_of("a\n"), vec!["a"]);
    assert_eq!(lines_of("a\nb"), vec!["a", "b"]);
    assert_eq!(lines_of("a\r\nb\r\n"), vec!["a", "b"]);
    assert_eq!(lines_of("a\n\nb"), vec!["a", "", "b"]);
    assert_eq!(lines_of("\n"), vec![""]);
    assert_eq!(lines_of("a\r"), vec!["a\r"]);
    assert_eq!(lines_of("a\rb\n"), vec!["a\rb"]);
    assert_eq!(lines_of("\r\n"), vec![""]);
    for text in ["", "x", "x\n", "\n\n", "a\r\n\r\nb", "é\nü", "a\r", "\r", "\r\r\n"] {
        let std_lines: Vec<String> = text.lines().map(|l| l.to_string()).collect();
        assert_eq!(lines_of(text), std_lines, "{text:?}");
    }
}

#[test]
fn texts_are_cut_into_words() {
    assert_eq!(words_of(""), Vec::<String>::new());
    assert_eq!(words_of("a"), vec!["a"]);
    assert_eq!(words_of("a b"), vec!["a", "b"]);
    assert_eq!(words_of("  a   b  "), vec!["a", "b"]);
    assert_eq!(words_of("   "), Vec::<String>::new());
    assert_eq!(words_of("a\tb c"), vec!["a\tb", "c"]);
}

#[test]
fn a_text_is_split_at_the_first_delimiter() {
    assert_eq!(split_once("a/b/c", '/'), Some(("a".to_string(), "b/c".to_string())));
    assert_eq!(split_once("abc", '/'), None);
    assert_eq!(split_once("/", '/'), Some(("".to_string(), "".to_string())));
    assert_eq!(split_once("a/", '/'), Some(("a".to_string(), "".to_string())));
    assert_eq!(split_once("", '/'), None);
    assert_eq!(split_once("é ü", ' '), Some(("é".to_string(), "ü".to_string())));
}

#[test]
fn characters_are_found_and_put_together() {
    let chars = chars_of("héllo");
    assert_eq!(chars, vec!['h', 'é', 'l', 'l', 'o']);
    assert_eq!(find_from(&chars, 0, 'l'), 2);
    assert_eq!(find_from(&chars, 3, 'l'), 3);
    assert_eq!(find_from(&chars, 4, 'l'), 5);
    assert_eq!(find_from(&chars, 5, 'l'), 5);
    assert_eq!(string_of(&chars, 1, 4), "éll");
    assert_eq!(string_of(&chars, 2, 2), "");
    let mut items = vec![1, 2, 3];
    reverse_vec(&mut items);
    assert_eq!(items, vec![3, 2, 1]);
}
