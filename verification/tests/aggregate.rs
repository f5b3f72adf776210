use authorship::aggregate::{
    count_authors, count_years, keep_count, new_author_cache, new_year_cache, CountError,
};
use authorship::tally::Tally;
use authorship::authors::Authors;
use authorship::blame::{Blame, BlameId, BlameTree};
use authorship::commit::Commit;
use authorship::store::Store;
use ignore::gitignore::{Gitignore, GitignoreBuilder};
use jiff::tz::TimeZone;

fn id(commit: &str, blob: &str, path: &str) -> BlameId {
    BlameId { commit: commit.to_string(), blob: blob.to_string(), path: path.to_string() }
}

fn commit(hash: &str, author: &str, mail: &str, author_time: i64) -> Commit {
    Commit {
        hash: hash.to_string(),
        parents: vec![],
        author: author.to_string(),
        author_mail: mail.to_string(),
        author_time,
        committer: author.to_string(),
        committer_mail: mail.to_string(),
        committer_time: author_time,
        subject: "s".to_string(),
    }
}

fn ignoring(lines: &[&str]) -> Gitignore {
    let mut builder = GitignoreBuilder::new("");
    for line in lines {
        builder.add_line(None, line).unwrap();
    }
    builder.build().unwrap()
}

fn record(id: BlameId, lines: &[(&str, u64)]) -> Blame {
    Blame { id, lines_by_commit: lines.iter().map(|(c, n)| (c.to_string(), *n)).collect() }
}

const Y2020: i64 = 1_590_000_000;
const Y2021: i64 = 1_620_000_000;

fn history() -> (Store, BlameTree) {
    let mut store = Store::new();
    store.save_commit(commit("A", "Alice", "alice@x", Y2020));
    store.save_commit(commit("B", "Bob", "bob@x", Y2021));
    store.save_commit(commit("C", "Alice A.", "alice@y", Y2021));
    store.save_blame(record(id("A", "b1", "f"), &[("A", 10)]));
    store.save_blame(record(id("B", "b2", "g"), &[("A", 3), ("B", 4), ("C", 5)]));
    store.save_blame(record(id("B", "b3", "Cargo.lock"), &[("B", 1000)]));
    let tree = BlameTree {
        commit: "B".to_string(),
        blames: vec![id("A", "b1", "f"), id("B", "b2", "g"), id("B", "b3", "Cargo.lock")],
    };
    (store, tree)
}

fn sorted(mut pairs: Vec<(String, u64)>) -> Vec<(String, u64)> {
    pairs.sort();
    pairs
}

#[test]
fn an_unchanged_file_counts_for_the_commit_it_goes_back_to() {
    let mut store = Store::new();
    store.save_commit(commit("A", "Alice", "alice@x", Y2020));
    store.save_commit(commit("B", "Bob", "bob@x", Y2021));
    store.save_blame(record(id("A", "b1", "f"), &[("A", 10)]));
    let tree_b = BlameTree { commit: "B".to_string(), blames: vec![id("A", "b1", "f")] };
    let mut cache = new_author_cache(10);
    let count =
        count_authors(&store, &mut cache, &ignoring(&[]), &Authors::new(vec![]), &tree_b, false).unwrap();
    assert_eq!(count.into_pairs(), vec![("Alice".to_string(), 10)]);
}

#[test]
fn lines_are_counted_per_author_name() {
    let (store, tree) = history();
    let mut cache = new_author_cache(10);
    let count =
        count_authors(&store, &mut cache, &ignoring(&["*.lock"]), &Authors::new(vec![]), &tree, false)
            .unwrap();
    assert_eq!(count.get(&"Alice".to_string()), 13);
    assert_eq!(count.get(&"Bob".to_string()), 4);
    assert_eq!(count.get(&"Alice A.".to_string()), 5);
    assert_eq!(count.get(&"Nobody".to_string()), 0);
    assert!(!count.contains(&"Nobody".to_string()));
}

#[test]
fn lines_are_counted_per_resolved_mail_address() {
    let (store, tree) = history();
    let authors = Authors::new(vec![("alice@y".to_string(), "alice@x".to_string())]);
    assert!(authors.check_for_cycles().is_ok());
    let mut cache = new_author_cache(10);
    let count = count_authors(&store, &mut cache, &ignoring(&["*.lock"]), &authors, &tree, true).unwrap();
    assert_eq!(
        sorted(count.into_pairs()),
        vec![("alice@x".to_string(), 18), ("bob@x".to_string(), 4)]
    );
}

#[test]
fn ignored_files_are_left_out() {
    let (store, tree) = history();
    let mut cache = new_author_cache(10);
    let all =
        count_authors(&store, &mut cache, &ignoring(&[]), &Authors::new(vec![]), &tree, false).unwrap();
    assert_eq!(all.get(&"Bob".to_string()), 1004);
    let mut cache = new_author_cache(10);
    let some =
        count_authors(&store, &mut cache, &ignoring(&["g"]), &Authors::new(vec![]), &tree, false).unwrap();
    assert_eq!(sorted(some.into_pairs()), vec![("Alice".to_string(), 10), ("Bob".to_string(), 1000)]);
}

#[test]
fn a_warm_cache_and_a_cold_cache_give_the_same_totals() {
    let (store, tree) = history();
    let ignore = ignoring(&["*.lock"]);
    let authors = Authors::new(vec![]);
    let mut warm = new_author_cache(10);
    let first = count_authors(&store, &mut warm, &ignore, &authors, &tree, false).unwrap();
    let second = count_authors(&store, &mut warm, &ignore, &authors, &tree, false).unwrap();
    let mut cold = new_author_cache(10);
    let third = count_authors(&store, &mut cold, &ignore, &authors, &tree, false).unwrap();
    let mut tiny = new_author_cache(1);
    let fourth = count_authors(&store, &mut tiny, &ignore, &authors, &tree, false).unwrap();
    let fifth = count_authors(&store, &mut tiny, &ignore, &authors, &tree, false).unwrap();
    let expected = vec![
        ("Alice".to_string(), 13),
        ("Alice A.".to_string(), 5),
        ("Bob".to_string(), 4),
    ];
    assert_eq!(sorted(first.into_pairs()), expected);
    assert_eq!(sorted(second.into_pairs()), expected);
    assert_eq!(sorted(third.into_pairs()), expected);
    assert_eq!(sorted(fourth.into_pairs()), expected);
    assert_eq!(sorted(fifth.into_pairs()), expected);
}

#[test]
fn a_cached_file_is_served_without_the_store() {
    let (store, tree) = history();
    let ignore = ignoring(&["*.lock"]);
    let authors = Authors::new(vec![]);
    let mut cache = new_author_cache(10);
    count_authors(&store, &mut cache, &ignore, &authors, &tree, false).unwrap();
    assert_eq!(cache.len(), 2);
    assert_eq!(
        cache.peek(&("A".to_string(), "b1".to_string(), "f".to_string())),
        Some(&vec![("Alice".to_string(), 10)])
    );
}

#[test]
fn the_order_of_the_files_does_not_change_the_totals() {
    let (store, tree) = history();
    let turned = BlameTree { commit: tree.commit.clone(), blames: tree.blames.iter().rev().cloned().collect() };
    let ignore = ignoring(&[]);
    let authors = Authors::new(vec![]);
    let one = count_authors(&store, &mut new_author_cache(10), &ignore, &authors, &tree, false).unwrap();
    let other = count_authors(&store, &mut new_author_cache(10), &ignore, &authors, &turned, false).unwrap();
    assert_eq!(sorted(one.into_pairs()), sorted(other.into_pairs()));
}

#[test]
fn a_file_without_a_record_is_reported() {
    let (store, _) = history();
    let tree = BlameTree { commit: "B".to_string(), blames: vec![id("A", "b1", "f"), id("B", "b9", "h")] };
    let res = count_authors(
        &store,
        &mut new_author_cache(10),
        &ignoring(&[]),
        &Authors::new(vec![]),
        &tree,
        false,
    );
    assert_eq!(res.err(), Some(CountError::MissingBlame(id("B", "b9", "h"))));
}

#[test]
fn a_record_that_names_an_unknown_commit_is_reported() {
    let (mut store, _) = history();
    store.save_blame(record(id("B", "b9", "h"), &[("A", 1), ("Z", 2)]));
    let tree = BlameTree { commit: "B".to_string(), blames: vec![id("B", "b9", "h")] };
    let res = count_authors(
        &store,
        &mut new_author_cache(10),
        &ignoring(&[]),
        &Authors::new(vec![]),
        &tree,
        false,
    );
    assert_eq!(res.err(), Some(CountError::MissingCommit("Z".to_string())));
    let res = count_years(&store, &mut new_year_cache(10), &ignoring(&[]), &TimeZone::UTC, &tree);
    assert_eq!(res.err(), Some(CountError::MissingCommit("Z".to_string())));
}

#[test]
fn a_count_that_does_not_fit_is_reported() {
    let (mut store, _) = history();
    store.save_blame(record(id("B", "b8", "h"), &[("A", u64::MAX)]));
    let tree = BlameTree { commit: "B".to_string(), blames: vec![id("A", "b1", "f"), id("B", "b8", "h")] };
    let ignore = ignoring(&[]);
    let authors = Authors::new(vec![]);
    let mut cache = new_author_cache(10);
    let res = count_authors(&store, &mut cache, &ignore, &authors, &tree, false);
    assert_eq!(res.err(), Some(CountError::Overflow));
    let res = count_authors(&store, &mut cache, &ignore, &authors, &tree, false);
    assert_eq!(res.err(), Some(CountError::Overflow));
    let alone = BlameTree { commit: "B".to_string(), blames: vec![id("B", "b8", "h")] };
    let res = count_authors(&store, &mut cache, &ignore, &authors, &alone, false).unwrap();
    assert_eq!(res.into_pairs(), vec![("Alice".to_string(), u64::MAX)]);
}

#[test]
fn lines_are_counted_per_year_of_the_author_time() {
    let (store, tree) = history();
    let ignore = ignoring(&["*.lock"]);
    let mut cache = new_year_cache(10);
    let first = count_years(&store, &mut cache, &ignore, &TimeZone::UTC, &tree).unwrap();
    assert_eq!(first.get(&2020), 13);
    assert_eq!(first.get(&2021), 9);
    assert_eq!(first.get(&2022), 0);
    let second = count_years(&store, &mut cache, &ignore, &TimeZone::UTC, &tree).unwrap();
    let mut pairs = second.into_pairs();
    pairs.sort();
    assert_eq!(pairs, vec![(2020, 13), (2021, 9)]);
}

#[test]
fn the_year_depends_on_the_time_zone() {
    let mut store = Store::new();
    let new_year_utc: i64 = 1_609_459_200;
    store.save_commit(commit("A", "Alice", "alice@x", new_year_utc - 1800));
    store.save_blame(record(id("A", "b1", "f"), &[("A", 7)]));
    let tree = BlameTree { commit: "A".to_string(), blames: vec![id("A", "b1", "f")] };
    let ignore = ignoring(&[]);
    let utc = count_years(&store, &mut new_year_cache(4), &ignore, &TimeZone::UTC, &tree).unwrap();
    assert_eq!(utc.into_pairs(), vec![(2020, 7)]);
    let east = TimeZone::fixed(jiff::tz::offset(1));
    let plus_one = count_years(&store, &mut new_year_cache(4), &ignore, &east, &tree).unwrap();
    assert_eq!(plus_one.into_pairs(), vec![(2021, 7)]);
}

#[test]
fn a_time_out_of_the_calendar_is_reported() {
    let mut store = Store::new();
    store.save_commit(commit("A", "Alice", "alice@x", i64::MAX));
    store.save_blame(record(id("A", "b1", "f"), &[("A", 7)]));
    let tree = BlameTree { commit: "A".to_string(), blames: vec![id("A", "b1", "f")] };
    let res = count_years(&store, &mut new_year_cache(4), &ignoring(&[]), &TimeZone::UTC, &tree);
    assert_eq!(res.err(), Some(CountError::TimeOutOfRange("A".to_string())));
}

#[test]
fn a_count_that_failed_ends_the_run() {
    let mut counts: Vec<Tally<i16>> = vec![];
    let mut one = Tally::new();
    assert!(one.add(&2020, 5));
    assert_eq!(keep_count(&mut counts, Ok(one)), Ok(()));
    assert_eq!(counts.len(), 1);
    assert_eq!(counts[0].get(&2020), 5);
    assert_eq!(
        keep_count(&mut counts, Err(CountError::MissingCommit("Z".to_string()))),
        Err(CountError::MissingCommit("Z".to_string()))
    );
    assert_eq!(keep_count(&mut counts, Err(CountError::Overflow)), Err(CountError::Overflow));
    assert_eq!(counts.len(), 1);
}
