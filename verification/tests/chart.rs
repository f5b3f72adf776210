use authorship::chart::{
    author_chart, author_series, fold_misc, rank_by_total, series_of, series_total, sum_series, tally_keys,
    times_of, year_bounds, year_chart, MAX_SERIES,
};
use authorship::commit::Commit;
use authorship::series::Series;
use authorship::tally::Tally;

fn commit(hash: &str, committer_time: i64) -> Commit {
    Commit {
        hash: hash.to_string(),
        parents: vec![],
        author: "a".to_string(),
        author_mail: "a@x".to_string(),
        author_time: 0,
        committer: "a".to_string(),
        committer_mail: "a@x".to_string(),
        committer_time,
        subject: "s".to_string(),
    }
}

fn tally(pairs: &[(&str, u64)]) -> Tally<String> {
    let mut t = Tally::new();
    for (name, n) in pairs {
        assert!(t.add(&name.to_string(), *n));
    }
    t
}

fn years(pairs: &[(i16, u64)]) -> Tally<i16> {
    let mut t = Tally::new();
    for (year, n) in pairs {
        assert!(t.add(year, *n));
    }
    t
}

fn series(name: &str, values: &[i64]) -> Series {
    Series { name: name.to_string(), values: values.to_vec() }
}

#[test]
fn keys_come_in_the_order_in_which_they_first_come_up() {
    let counts = vec![tally(&[("bob", 1), ("alice", 2)]), tally(&[("carol", 1), ("bob", 5)]), tally(&[])];
    assert_eq!(tally_keys(&counts), vec!["bob", "alice", "carol"]);
    assert_eq!(tally_keys(&Vec::<Tally<String>>::new()), Vec::<String>::new());
}

#[test]
fn a_series_holds_the_lines_of_its_key_in_every_commit() {
    let counts = vec![tally(&[("bob", 1), ("alice", 2)]), tally(&[("bob", 5)]), tally(&[])];
    let bob = series_of("Bob".to_string(), &"bob".to_string(), &counts).unwrap();
    assert_eq!(bob, series("Bob", &[1, 5, 0]));
    let alice = series_of("alice".to_string(), &"alice".to_string(), &counts).unwrap();
    assert_eq!(alice, series("alice", &[2, 0, 0]));
    let huge = vec![tally(&[("bob", i64::MAX as u64 + 1)])];
    assert_eq!(series_of("bob".to_string(), &"bob".to_string(), &huge), None);
    let all = author_series(&vec!["alice".to_string(), "bob".to_string()], &counts).unwrap();
    assert_eq!(all, vec![series("alice", &[2, 0, 0]), series("bob", &[1, 5, 0])]);
    assert_eq!(author_series(&vec!["bob".to_string()], &huge), None);
}

#[test]
fn totals_are_exact_beyond_the_range_of_a_value() {
    assert_eq!(series_total(&series("a", &[])), 0);
    assert_eq!(series_total(&series("a", &[1, -2, 10])), 9);
    assert_eq!(series_total(&series("a", &[i64::MAX, i64::MAX])), 2 * (i64::MAX as i128));
    assert_eq!(series_total(&series("a", &[i64::MIN, i64::MIN])), 2 * (i64::MIN as i128));
}

#[test]
fn series_are_ranked_by_total_and_ties_keep_their_order() {
    let ranked = rank_by_total(vec![
        series("small", &[1, 1]),
        series("tie one", &[2, 3]),
        series("large", &[10, 0]),
        series("tie two", &[5, 0]),
        series("none", &[0, 0]),
    ]);
    let names: Vec<&str> = ranked.iter().map(|s| s.name.as_str()).collect();
    assert_eq!(names, vec!["large", "tie one", "tie two", "small", "none"]);
    assert_eq!(rank_by_total(vec![]), vec![]);
}

#[test]
fn a_chart_with_few_series_is_left_alone() {
    let mut few: Vec<Series> = (0..MAX_SERIES as i64).map(|i| series(&format!("s{i}"), &[i, 1])).collect();
    let before: Vec<Series> = (0..MAX_SERIES as i64).map(|i| series(&format!("s{i}"), &[i, 1])).collect();
    assert!(fold_misc(&mut few, 2));
    assert_eq!(few, before);
}

#[test]
fn the_series_beyond_the_limit_are_added_up() {
    let mut many: Vec<Series> = (0..60i64).map(|i| series(&format!("s{i}"), &[100 - i, 1])).collect();
    assert!(fold_misc(&mut many, 2));
    assert_eq!(many.len(), MAX_SERIES);
    for i in 0..49 {
        assert_eq!(many[i], series(&format!("s{i}"), &[100 - i as i64, 1]));
    }
    let tail: i64 = (49..60).map(|i| 100 - i).sum();
    assert_eq!(many[49], series("Misc authors", &[tail, 11]));
}

#[test]
fn sums_that_do_not_fit_leave_the_chart_alone() {
    let mut many: Vec<Series> = (0..52i64).map(|i| series(&format!("s{i}"), &[i64::MAX])).collect();
    assert!(!fold_misc(&mut many, 1));
    assert_eq!(many.len(), 52);
    assert_eq!(many[51], series("s51", &[i64::MAX]));
    assert_eq!(sum_series("x", &many, 50, 1), None);
    assert_eq!(sum_series("x", &many, 51, 1), Some(series("x", &[i64::MAX])));
    assert_eq!(sum_series("x", &many, 52, 1), Some(series("x", &[0])));
}

#[test]
fn the_times_of_a_chart_are_the_committer_times() {
    assert_eq!(times_of(&vec![commit("b", 20), commit("a", 10)]), vec![20, 10]);
}

#[test]
fn the_author_chart_puts_the_largest_author_first_and_the_newest_commit_last() {
    let commits = vec![commit("new", 20), commit("old", 10)];
    let counts = vec![tally(&[("bob", 1), ("alice", 7)]), tally(&[("bob", 2)])];
    let graph = author_chart(commits, &counts).unwrap();
    assert_eq!(graph.title, "Lines per author");
    assert_eq!(graph.time, vec![10, 20]);
    assert_eq!(graph.commits.iter().map(|c| c.hash.as_str()).collect::<Vec<_>>(), vec!["old", "new"]);
    assert_eq!(graph.series, vec![series("alice", &[0, 7]), series("bob", &[2, 1])]);
}

#[test]
fn the_author_chart_keeps_to_the_limit() {
    let commits = vec![commit("only", 10)];
    let pairs: Vec<(String, u64)> = (0..60u64).map(|i| (format!("author{i:02}"), 100 - i)).collect();
    let mut t = Tally::new();
    for (name, n) in &pairs {
        assert!(t.add(name, *n));
    }
    let graph = author_chart(commits, &vec![t]).unwrap();
    assert_eq!(graph.series.len(), MAX_SERIES);
    assert_eq!(graph.series[0], series("author00", &[100]));
    assert_eq!(graph.series[48], series("author48", &[52]));
    let tail: i64 = (49..60).map(|i| 100 - i).sum();
    assert_eq!(graph.series[49], series("Misc authors", &[tail]));
}

#[test]
fn a_count_too_large_for_a_chart_gives_none() {
    let counts = vec![tally(&[("bob", u64::MAX)])];
    assert!(author_chart(vec![commit("c", 1)], &counts).is_none());
    assert!(year_chart(vec![commit("c", 1)], &vec![years(&[(2020, u64::MAX)])]).is_none());
}

#[test]
fn the_bounds_of_years_are_the_earliest_and_the_latest() {
    assert_eq!(year_bounds(&vec![2020]), (2020, 2020));
    assert_eq!(year_bounds(&vec![2020, 2018, 2023, 2019]), (2018, 2023));
    assert_eq!(year_bounds(&vec![-5, 5, 0]), (-5, 5));
}

#[test]
fn the_year_chart_holds_every_year_between_the_first_and_the_last() {
    let commits = vec![commit("new", 20), commit("old", 10)];
    let counts = vec![years(&[(2021, 5), (2018, 1)]), years(&[(2018, 4)])];
    let graph = year_chart(commits, &counts).unwrap();
    assert_eq!(graph.title, "Lines per year");
    assert_eq!(graph.time, vec![10, 20]);
    assert_eq!(
        graph.series,
        vec![
            series("2018", &[4, 1]),
            series("2019", &[0, 0]),
            series("2020", &[0, 0]),
            series("2021", &[0, 5]),
        ]
    );
}

#[test]
fn without_any_year_there_is_no_year_chart() {
    assert!(year_chart(vec![], &vec![]).is_none());
    assert!(year_chart(vec![commit("c", 1)], &vec![years(&[])]).is_none());
    let empty = author_chart(vec![commit("c", 1)], &vec![tally(&[])]).unwrap();
    assert_eq!(empty.series, vec![]);
    assert_eq!(empty.time, vec![1]);
}
