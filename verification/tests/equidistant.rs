use authorship::commit::Commit;
use authorship::equidistant::{
    check_spans, count_months, make_equidistant, month_before, months_of, order_by_month,
    order_for_equidistance, spans_of, spread_samples, try_make_equidistant, try_order_for_equidistance,
};
use jiff::tz::TimeZone;

const JAN_2024: i64 = 1_704_067_200;
const FEB_2024: i64 = 1_706_745_600;
const MAR_2024: i64 = 1_709_251_200;

fn commit(hash: &str, committer_time: i64) -> Commit {
    Commit {
        hash: hash.to_string(),
        parents: vec![],
        author: "a".to_string(),
        author_mail: "a@x".to_string(),
        author_time: 0,
        committer: "a".to_string(),
        committer_mail: "a@x".to_string(),
        committer_time,
        subject: "s".to_string(),
    }
}

fn hashes(commits: &[Commit]) -> Vec<String> {
    commits.iter().map(|c| c.hash.clone()).collect()
}

#[test]
fn months_are_ordered_by_year_then_month() {
    assert!(month_before((2023, 12), (2024, 1)));
    assert!(month_before((2024, 1), (2024, 2)));
    assert!(!month_before((2024, 2), (2024, 2)));
    assert!(!month_before((2024, 2), (2024, 1)));
    assert!(!month_before((2025, 1), (2024, 12)));
}

fn spread(keys: Vec<(i16, i8)>, spans_by_month: &[((i16, i8), (i64, i64))]) -> Vec<i64> {
    let buckets = count_months(&keys);
    let spans: Vec<(i64, i64)> = buckets
        .iter()
        .map(|(month, _)| spans_by_month.iter().find(|(m, _)| m == month).unwrap().1)
        .collect();
    assert!(check_spans(&buckets, &spans));
    spread_samples(&keys, &buckets, &spans)
}

#[test]
fn months_are_counted_in_the_order_in_which_they_come_up() {
    let keys = vec![(2024, 2), (2023, 12), (2024, 2), (2024, 1), (2023, 12), (2024, 2)];
    assert_eq!(count_months(&keys), vec![((2024, 2), 3), ((2023, 12), 2), ((2024, 1), 1)]);
    assert_eq!(count_months(&vec![]), vec![]);
}

#[test]
fn samples_get_the_middle_of_their_slot() {
    let jan = (2024, 1);
    assert_eq!(spread(vec![jan; 3], &[(jan, (1000, 90))]), vec![1015, 1045, 1075]);
    assert_eq!(spread(vec![jan; 4], &[(jan, (0, 10))]), vec![1, 3, 5, 7]);
    let feb = (2024, 2);
    assert_eq!(
        spread(vec![jan, feb, feb], &[(jan, (0, 100)), (feb, (100, 50))]),
        vec![50, 112, 137]
    );
}

#[test]
fn a_sample_keeps_its_place_and_its_month() {
    let jan = (2024, 1);
    let feb = (2024, 2);
    let spans = [(jan, (0, 100)), (feb, (100, 50))];
    assert_eq!(spread(vec![feb, jan, feb], &spans), vec![112, 50, 137]);
    assert_eq!(spread(vec![feb, feb, jan], &spans), vec![112, 137, 50]);
    assert_eq!(spread(vec![jan, feb, jan, feb, jan], &spans), vec![16, 112, 49, 137, 82]);
}

#[test]
fn more_samples_than_seconds_share_the_start_of_the_month() {
    let jan = (2024, 1);
    assert_eq!(spread(vec![jan; 4], &[(jan, (500, 3))]), vec![500, 500, 500, 500]);
}

#[test]
fn slots_stay_inside_the_month_and_in_order() {
    let jan = (2024, 1);
    let start = 1000;
    for duration in [1i64, 2, 7, 59, 60, 61, 1000] {
        for n in [1usize, 2, 3, 7, 59, 60, 61] {
            let times = spread(vec![jan; n], &[(jan, (start, duration))]);
            assert_eq!(times.len(), n);
            for k in 0..n {
                assert!(start <= times[k] && times[k] < start + duration);
                if k > 0 {
                    assert!(times[k - 1] <= times[k]);
                    if duration >= n as i64 {
                        assert!(times[k - 1] < times[k]);
                    }
                }
            }
        }
    }
}

#[test]
fn spans_are_checked_before_they_are_cut() {
    assert!(check_spans(&vec![((2024, 1), 3)], &vec![(0, 10)]));
    assert!(check_spans(&vec![((2024, 1), 3)], &vec![(0, 1)]));
    assert!(!check_spans(&vec![((2024, 1), 3)], &vec![(0, 0)]));
    assert!(!check_spans(&vec![((2024, 1), 3)], &vec![(0, -1)]));
    assert!(!check_spans(&vec![((2024, 1), 0)], &vec![(0, 10)]));
    assert!(!check_spans(&vec![((2024, 1), 3)], &vec![(i64::MAX, 1)]));
    assert!(!check_spans(&vec![((2024, 1), 3)], &vec![]));
    assert!(check_spans(&vec![], &vec![]));
}

#[test]
fn the_calendar_gives_months_and_their_spans() {
    let tz = TimeZone::UTC;
    assert_eq!(
        months_of(&tz, &vec![JAN_2024, FEB_2024 - 1, FEB_2024, 0, -1]),
        Some(vec![(2024, 1), (2024, 1), (2024, 2), (1970, 1), (1969, 12)])
    );
    assert_eq!(months_of(&tz, &vec![JAN_2024, i64::MAX]), None);
    assert_eq!(
        spans_of(&tz, &vec![((2024, 1), 1), ((2024, 2), 1), ((2023, 2), 1)]),
        Some(vec![(JAN_2024, 31 * 86400), (FEB_2024, 29 * 86400), (1_675_209_600, 28 * 86400)])
    );
    assert_eq!(spans_of(&tz, &vec![((2024, 13), 1)]), None);
    let east = TimeZone::fixed(jiff::tz::offset(2));
    assert_eq!(months_of(&east, &vec![FEB_2024 - 3600]), Some(vec![(2024, 2)]));
    assert_eq!(spans_of(&east, &vec![((2024, 2), 1)]), Some(vec![(FEB_2024 - 7200, 29 * 86400)]));
}

#[test]
fn the_samples_of_a_month_are_spread_over_it() {
    let mut times = vec![JAN_2024 + 5, JAN_2024 + 6, FEB_2024 + 100];
    make_equidistant(&TimeZone::UTC, &mut times);
    assert_eq!(times, vec![JAN_2024 + 669_600, JAN_2024 + 2_008_800, FEB_2024 + 1_252_800]);
}

#[test]
fn a_sample_stays_in_its_month_whatever_the_order() {
    let mut times = vec![FEB_2024 + 100, JAN_2024 + 5, JAN_2024 + 6];
    make_equidistant(&TimeZone::UTC, &mut times);
    assert_eq!(times, vec![FEB_2024 + 1_252_800, JAN_2024 + 669_600, JAN_2024 + 2_008_800]);
    let before = vec![MAR_2024 + 7, JAN_2024, FEB_2024 + 1, MAR_2024 + 9, JAN_2024 + 99];
    let mut after = before.clone();
    assert!(try_make_equidistant(&TimeZone::UTC, &mut after));
    assert_eq!(months_of(&TimeZone::UTC, &after), months_of(&TimeZone::UTC, &before));
    assert!(after[0] < after[3]);
    assert!(after[1] < after[4]);
}

#[test]
fn a_burst_of_commits_on_one_day_is_spread_over_the_month() {
    let mut times = vec![MAR_2024 + 10; 31];
    assert!(try_make_equidistant(&TimeZone::UTC, &mut times));
    assert_eq!(times.len(), 31);
    for (k, time) in times.iter().enumerate() {
        assert_eq!(*time, MAR_2024 + 86400 * k as i64 + 43200);
    }
}

#[test]
fn samples_out_of_the_calendar_are_left_alone() {
    let mut times = vec![JAN_2024, i64::MIN];
    assert!(!try_make_equidistant(&TimeZone::UTC, &mut times));
    assert_eq!(times, vec![JAN_2024, i64::MIN]);
    let mut none: Vec<i64> = vec![];
    assert!(try_make_equidistant(&TimeZone::UTC, &mut none));
    assert_eq!(none, Vec::<i64>::new());
}

#[test]
fn commits_are_grouped_by_month_latest_first() {
    let mut commits = vec![
        commit("c1", FEB_2024 + 10),
        commit("c2", JAN_2024 + 10),
        commit("c3", FEB_2024 + 5),
        commit("c4", JAN_2024 + 20),
        commit("c5", MAR_2024),
    ];
    order_for_equidistance(&TimeZone::UTC, &mut commits);
    assert_eq!(hashes(&commits), vec!["c5", "c1", "c3", "c2", "c4"]);
}

#[test]
fn commits_in_order_stay_in_order() {
    let mut commits = vec![commit("c1", MAR_2024), commit("c2", FEB_2024 + 9), commit("c3", FEB_2024)];
    assert!(try_order_for_equidistance(&TimeZone::UTC, &mut commits));
    assert_eq!(hashes(&commits), vec!["c1", "c2", "c3"]);
    let mut bad = vec![commit("c1", MAR_2024), commit("c2", i64::MAX)];
    assert!(!try_order_for_equidistance(&TimeZone::UTC, &mut bad));
    assert_eq!(hashes(&bad), vec!["c1", "c2"]);
}

#[test]
fn commits_are_ordered_by_given_months() {
    let mut commits = vec![commit("a", 0), commit("b", 0), commit("c", 0), commit("d", 0)];
    order_by_month(&vec![(2020, 1), (2020, 3), (2020, 1), (2020, 2)], &mut commits);
    assert_eq!(hashes(&commits), vec!["b", "d", "a", "c"]);
}
