use authorship::commit::Commit;
use authorship::git::{
    blame_lines, blame_outcome, check_entry_start, count_blame_lines, parse_blame_entry, parse_ls_tree,
    parse_rev_list, parse_rev_list_entry, BlameFailure, ParseError,
};

const HASH_A: &str = "aaaaaaaaaaaaaaaaaaaaaaaaaaaaaaaaaaaaaaaa";
const HASH_B: &str = "bbbbbbbbbbbbbbbbbbbbbbbbbbbbbbbbbbbbbbbb";

fn lines(text: &[&str]) -> Vec<String> {
    text.iter().map(|l| l.to_string()).collect()
}

fn entry(hash: &str, parents: &str, subject: &str) -> Vec<String> {
    lines(&[
        hash,
        parents,
        "Alice",
        "alice@x",
        "2024-01-01T00:00:00+00:00",
        "Bob",
        "bob@x",
        "2024-02-01T01:00:00+01:00",
        subject,
    ])
}

fn expected(hash: &str, parents: &[&str], subject: &str) -> Commit {
    Commit {
        hash: hash.to_string(),
        parents: parents.iter().map(|p| p.to_string()).collect(),
        author: "Alice".to_string(),
        author_mail: "alice@x".to_string(),
        author_time: 1_704_067_200,
        committer: "Bob".to_string(),
        committer_mail: "bob@x".to_string(),
        committer_time: 1_706_745_600,
        subject: subject.to_string(),
    }
}

#[test]
fn a_commit_takes_nine_lines() {
    let text = entry("h1", "p1 p2", "a subject");
    assert_eq!(parse_rev_list_entry(&text, 0), Ok(Some((expected("h1", &["p1", "p2"], "a subject"), 9))));
    assert_eq!(parse_rev_list_entry(&text, 9), Ok(None));
    assert_eq!(parse_rev_list_entry(&text, 1), Err(ParseError::BadTimestamp("Bob".to_string())));
}

#[test]
fn a_root_commit_has_no_parents() {
    let text = entry("h1", "", "s");
    assert_eq!(parse_rev_list_entry(&text, 0), Ok(Some((expected("h1", &[], "s"), 9))));
    let spaced = entry("h1", "  p1   p2 ", "s");
    assert_eq!(parse_rev_list_entry(&spaced, 0), Ok(Some((expected("h1", &["p1", "p2"], "s"), 9))));
}

#[test]
fn lines_that_run_out_end_the_list() {
    let text = entry("h1", "", "s");
    for n in 0..9 {
        let cut: Vec<String> = text[..n].to_vec();
        assert_eq!(parse_rev_list_entry(&cut, 0), Ok(None));
    }
}

#[test]
fn a_bad_time_counts_only_if_the_lines_reach_it() {
    let mut text = entry("h1", "", "s");
    text[4] = "yesterday".to_string();
    assert_eq!(parse_rev_list_entry(&text, 0), Err(ParseError::BadTimestamp("yesterday".to_string())));
    assert_eq!(parse_rev_list_entry(&text[..5].to_vec(), 0), Err(ParseError::BadTimestamp("yesterday".to_string())));
    assert_eq!(parse_rev_list_entry(&text[..4].to_vec(), 0), Ok(None));
    let mut text = entry("h1", "", "s");
    text[7] = "tomorrow".to_string();
    assert_eq!(parse_rev_list_entry(&text[..7].to_vec(), 0), Ok(None));
    assert_eq!(parse_rev_list_entry(&text[..8].to_vec(), 0), Err(ParseError::BadTimestamp("tomorrow".to_string())));
}

#[test]
fn a_commit_list_is_read_newest_first() {
    let mut text = entry("h2", "h1", "second").join("\n");
    text.push('\n');
    text.push_str(&entry("h1", "", "first").join("\r\n"));
    text.push('\n');
    assert_eq!(parse_rev_list(&text), Ok(vec![expected("h2", &["h1"], "second"), expected("h1", &[], "first")]));
    assert_eq!(parse_rev_list(""), Ok(vec![]));
    assert_eq!(parse_rev_list("h1\n\nAlice\n"), Ok(vec![]));
    text.push_str("h0\n\nA\na@x\nnever\n");
    assert_eq!(parse_rev_list(&text), Err(ParseError::BadTimestamp("never".to_string())));
}

#[test]
fn a_tree_snapshot_lists_blob_and_path() {
    let text = "b1 src/lib.rs\nb2 a file with spaces.txt\nb3 f\n";
    assert_eq!(
        parse_ls_tree(text),
        Ok(vec![
            ("src/lib.rs".to_string(), "b1".to_string()),
            ("a file with spaces.txt".to_string(), "b2".to_string()),
            ("f".to_string(), "b3".to_string()),
        ])
    );
    assert_eq!(parse_ls_tree(""), Ok(vec![]));
    assert_eq!(parse_ls_tree("b1 \n"), Ok(vec![("".to_string(), "b1".to_string())]));
}

#[test]
fn a_line_of_a_tree_snapshot_without_a_space_is_refused() {
    assert_eq!(parse_ls_tree("b1 f\nnospace\nb2 g\n"), Err(ParseError::BadTreeLine("nospace".to_string())));
    assert_eq!(parse_ls_tree("\n"), Err(ParseError::BadTreeLine("".to_string())));
}

fn blame_text() -> String {
    format!(
        "{HASH_A} 1 1 2\nauthor Alice\nsummary s\nfilename f\n\tfirst line\n{HASH_A} 2 2\n\tsecond line\n{HASH_B} 3 3 1\nauthor Bob\n\t\n"
    )
}

#[test]
fn an_origin_entry_ends_with_the_line_of_the_file() {
    let text: Vec<String> = blame_text().lines().map(|l| l.to_string()).collect();
    assert_eq!(parse_blame_entry(&text, 0), Some((HASH_A.to_string(), 5)));
    assert_eq!(parse_blame_entry(&text, 5), Some((HASH_A.to_string(), 7)));
    assert_eq!(parse_blame_entry(&text, 7), Some((HASH_B.to_string(), 10)));
    assert_eq!(parse_blame_entry(&text, 10), None);
    let open = lines(&[HASH_B, "author Bob"]);
    assert_eq!(parse_blame_entry(&open, 0), Some((HASH_B.to_string(), 2)));
}

#[test]
fn the_start_of_an_origin_entry_is_checked() {
    assert!(check_entry_start(HASH_A));
    assert!(check_entry_start(&format!("{HASH_A} 1 1 2")));
    assert!(!check_entry_start(&format!("\t{HASH_A}")));
    assert!(!check_entry_start("abc 1 1"));
    assert!(!check_entry_start(""));
    assert!(!check_entry_start(&format!("{HASH_A}a 1 1")));
    assert!(check_entry_start(&format!("{}éé 1", "a".repeat(36))));
    assert!(!check_entry_start(&format!("{}éé 1", "a".repeat(38))));
}

#[test]
fn lines_are_counted_per_origin_commit() {
    assert_eq!(
        count_blame_lines(&blame_text()),
        Ok(vec![(HASH_A.to_string(), 2), (HASH_B.to_string(), 1)])
    );
    assert_eq!(count_blame_lines(""), Ok(vec![]));
}

#[test]
fn a_line_that_cannot_start_an_entry_is_refused() {
    let text = format!("{HASH_A} 1 1 1\n\tline\nshort 2 2\n\tline\n");
    assert_eq!(count_blame_lines(&text), Err(ParseError::BadBlameLine("short 2 2".to_string())));
    assert_eq!(count_blame_lines("\tline\n"), Err(ParseError::BadBlameLine("\tline".to_string())));
}

#[test]
fn output_that_could_not_be_decoded_counts_no_line() {
    assert_eq!(blame_lines(None), Ok(vec![]));
    assert_eq!(blame_lines(Some(&blame_text())), Ok(vec![(HASH_A.to_string(), 2), (HASH_B.to_string(), 1)]));
    assert_eq!(blame_lines(Some("bad")), Err(ParseError::BadBlameLine("bad".to_string())));
}

#[test]
fn a_failed_tool_is_a_failure_and_undecodable_output_is_no_line() {
    assert_eq!(blame_outcome(false, None), Err(BlameFailure::ToolFailed));
    assert_eq!(blame_outcome(false, Some(&blame_text())), Err(BlameFailure::ToolFailed));
    assert_eq!(blame_outcome(true, None), Ok(vec![]));
    assert_eq!(
        blame_outcome(true, Some(&blame_text())),
        Ok(vec![(HASH_A.to_string(), 2), (HASH_B.to_string(), 1)])
    );
    assert_eq!(
        blame_outcome(true, Some("bad")),
        Err(BlameFailure::BadOutput(ParseError::BadBlameLine("bad".to_string())))
    );
}
