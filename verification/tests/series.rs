use authorship::commit::Commit;
use authorship::common::{first_hash, NoViableHash};
use authorship::graph::Graph;
use authorship::series::Series;
use jiff::tz::TimeZone;

fn commit(hash: &str, committer_time: i64) -> Commit {
    Commit {
        hash: hash.to_string(),
        parents: vec![],
        author: "a".to_string(),
        author_mail: "a@x".to_string(),
        author_time: 0,
        committer: "a".to_string(),
        committer_mail: "a@x".to_string(),
        committer_time,
        subject: "s".to_string(),
    }
}

#[test]
fn a_new_series_is_empty() {
    let series = Series::new("alice");
    assert_eq!(series.name, "alice");
    assert_eq!(series.values, Vec::<i64>::new());
}

#[test]
fn values_are_appended_and_turned_round() {
    let mut series = Series::new("alice");
    series.push(1);
    series.push(2);
    series.push(3);
    assert_eq!(series.values, vec![1, 2, 3]);
    series.reverse();
    assert_eq!(series.values, vec![3, 2, 1]);
    assert_eq!(series.name, "alice");
}

#[test]
fn a_value_that_is_too_large_is_not_appended() {
    let mut series = Series::new("alice");
    assert!(series.try_push(i64::MAX as u64));
    assert!(!series.try_push(i64::MAX as u64 + 1));
    assert!(!series.try_push(u64::MAX));
    assert_eq!(series.values, vec![i64::MAX]);
}

#[test]
fn series_are_added_value_by_value() {
    let mut one = Series { name: "one".to_string(), values: vec![1, 2, 3] };
    let other = Series { name: "other".to_string(), values: vec![10, 20, -30] };
    one.add(&other);
    assert_eq!(one, Series { name: "one".to_string(), values: vec![11, 22, -27] });
}

#[test]
fn series_that_cannot_be_added_are_left_alone() {
    let mut one = Series { name: "one".to_string(), values: vec![1, i64::MAX] };
    assert!(!one.try_add(&Series { name: "o".to_string(), values: vec![1, 1] }));
    assert_eq!(one.values, vec![1, i64::MAX]);
    assert!(!one.try_add(&Series { name: "o".to_string(), values: vec![1] }));
    assert_eq!(one.values, vec![1, i64::MAX]);
    assert!(one.try_add(&Series { name: "o".to_string(), values: vec![1, -1] }));
    assert_eq!(one.values, vec![2, i64::MAX - 1]);
}

#[test]
fn a_given_hash_wins_over_the_log() {
    let log = vec!["first".to_string(), "second".to_string()];
    assert_eq!(first_hash(&log, Some("given".to_string())), Ok("given".to_string()));
    assert_eq!(first_hash(&[], Some("given".to_string())), Ok("given".to_string()));
}

#[test]
fn the_first_of_the_log_is_the_default() {
    let log = vec!["first".to_string(), "second".to_string()];
    assert_eq!(first_hash(&log, None), Ok("first".to_string()));
}

#[test]
fn an_empty_log_has_no_viable_hash() {
    assert_eq!(first_hash(&[], None), Err(NoViableHash));
    assert_eq!(NoViableHash.message(), "found no viable hash");
}

#[test]
fn a_chart_shows_the_newest_commit_last() {
    let graph = Graph::new(
        "title",
        vec![commit("new", 30), commit("mid", 20), commit("old", 10)],
        vec![30, 20, 10],
        vec![
            Series { name: "a".to_string(), values: vec![3, 2, 1] },
            Series { name: "b".to_string(), values: vec![6, 5, 4] },
        ],
    );
    assert_eq!(graph.title, "title");
    assert_eq!(graph.commits.iter().map(|c| c.hash.as_str()).collect::<Vec<_>>(), vec!["old", "mid", "new"]);
    assert_eq!(graph.time, vec![10, 20, 30]);
    assert_eq!(
        graph.series,
        vec![
            Series { name: "a".to_string(), values: vec![1, 2, 3] },
            Series { name: "b".to_string(), values: vec![4, 5, 6] },
        ]
    );
}

#[test]
fn the_times_of_a_chart_are_spread() {
    let jan_2024: i64 = 1_704_067_200;
    let mut graph = Graph::new("t", vec![], vec![jan_2024 + 1, jan_2024], vec![]);
    graph.make_equidistant(&TimeZone::UTC);
    assert_eq!(graph.time, vec![jan_2024 + 669_600, jan_2024 + 2_008_800]);
    let feb_2024: i64 = 1_706_745_600;
    let mut mixed = Graph::new("t", vec![], vec![jan_2024, feb_2024], vec![]);
    assert_eq!(mixed.time, vec![feb_2024, jan_2024]);
    mixed.make_equidistant(&TimeZone::UTC);
    assert_eq!(mixed.time, vec![feb_2024 + 1_252_800, jan_2024 + 1_339_200]);
    let mut bad = Graph::new("t", vec![], vec![i64::MAX], vec![]);
    assert!(!bad.try_make_equidistant(&TimeZone::UTC));
    assert_eq!(bad.time, vec![i64::MAX]);
}
