use authorship::report::{
    author_report, layout_line, pad_left, sort_entries, text_before, year_report, AUTHOR_COLUMNS,
    YEAR_COLUMNS,
};
use authorship::tally::Tally;

fn tally(pairs: &[(&str, u64)]) -> Tally<String> {
    let mut t = Tally::new();
    for (name, n) in pairs {
        assert!(t.add(&name.to_string(), *n));
    }
    t
}

#[test]
fn a_line_fills_its_columns_with_dots() {
    let line = layout_line("alice", "123", 20);
    assert_eq!(line, "alice ............ 123");
    assert_eq!(line.len(), 22);
    assert_eq!(layout_line("", "", 3), " ... ");
}

#[test]
fn a_line_that_is_too_long_keeps_one_dot() {
    assert_eq!(layout_line("a-long-name", "123456", 10), "a-long-name . 123456");
    assert_eq!(layout_line("abc", "12", 5), "abc . 12");
    assert_eq!(layout_line("abc", "12", 6), "abc . 12");
    assert_eq!(layout_line("abc", "12", 7), "abc .. 12");
}

#[test]
fn wide_characters_take_two_columns() {
    assert_eq!(layout_line("日本", "1", 10), "日本 ..... 1");
    assert_eq!(layout_line("ab", "1", 10), "ab ....... 1");
}

#[test]
fn texts_are_compared_byte_by_byte() {
    assert!(text_before("a", "b"));
    assert!(!text_before("b", "a"));
    assert!(!text_before("a", "a"));
    assert!(text_before("", "a"));
    assert!(!text_before("a", ""));
    assert!(!text_before("", ""));
    assert!(text_before("ab", "abc"));
    assert!(text_before("Z", "a"));
    assert!(text_before("z", "é"));
    for (a, b) in [("x", "y"), ("abc", "abd"), ("é", "z"), ("", "")] {
        assert_eq!(text_before(a, b), a < b);
        assert_eq!(text_before(b, a), b < a);
    }
}

#[test]
fn entries_are_sorted_by_lines_then_by_name() {
    let entries = vec![
        ("zoe".to_string(), 5),
        ("bob".to_string(), 10),
        ("amy".to_string(), 5),
        ("cat".to_string(), 1),
    ];
    let sorted = sort_entries(&entries);
    assert_eq!(
        sorted,
        vec![
            ("cat".to_string(), 1),
            ("amy".to_string(), 5),
            ("zoe".to_string(), 5),
            ("bob".to_string(), 10),
        ]
    );
    let mut by_std: Vec<(u64, String)> = entries.iter().map(|(a, n)| (*n, a.clone())).collect();
    by_std.sort_unstable();
    assert_eq!(sorted.iter().map(|(a, n)| (*n, a.clone())).collect::<Vec<_>>(), by_std);
}

#[test]
fn the_author_report_lists_the_smallest_author_first() {
    let report = author_report(&tally(&[("bob", 1200), ("alice", 7)]));
    assert_eq!(report.len(), 2);
    assert_eq!(report[0], format!("alice {} 7", ".".repeat(AUTHOR_COLUMNS - 6)));
    assert_eq!(report[1], format!("bob {} 1200", ".".repeat(AUTHOR_COLUMNS - 7)));
    assert_eq!(author_report(&tally(&[])), Vec::<String>::new());
}

#[test]
fn the_year_report_lists_the_earliest_year_first() {
    let mut t: Tally<i16> = Tally::new();
    assert!(t.add(&2021, 15));
    assert!(t.add(&1999, 3));
    assert!(t.add(&7, 1));
    let report = year_report(&t);
    assert_eq!(
        report,
        vec![
            format!("   7 {} 1", ".".repeat(YEAR_COLUMNS - 5)),
            format!("1999 {} 3", ".".repeat(YEAR_COLUMNS - 5)),
            format!("2021 {} 15", ".".repeat(YEAR_COLUMNS - 6)),
        ]
    );
}

#[test]
fn a_short_text_is_padded_on_the_left() {
    assert_eq!(pad_left("7", 4), "   7");
    assert_eq!(pad_left("-12", 4), " -12");
    assert_eq!(pad_left("2024", 4), "2024");
    assert_eq!(pad_left("-2024", 4), "-2024");
    assert_eq!(pad_left("", 2), "  ");
    assert_eq!(pad_left("é", 3), "  é");
    for year in [-32768i16, -1, 0, 7, 99, 999, 1000, 32767] {
        assert_eq!(pad_left(&year.to_string(), 4), format!("{year:4}"));
    }
}
