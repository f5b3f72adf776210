//! A chart: the commits of a history, a time for each, and the series.

use crate::commit::Commit;
use crate::equidistant::{
    in_span_of_sample, make_equidistant, sample_time, spreadable, try_make_equidistant,
};
use crate::series::Series;
use crate::text::reverse_vec;
use jiff::tz::TimeZone;
use vstd::prelude::*;
use vstd::string::StringExecFns;

verus! {

/// A chart. The newest commit stands last.
#[derive(Debug)]
pub struct Graph {
    pub title: String,
    pub commits: Vec<Commit>,
    pub time: Vec<i64>,
    pub series: Vec<Series>,
}

impl Graph {
    /// A chart of commits that are listed newest first: the commits, the
    /// times and the values of every series are turned round.
    pub fn new(title: &str, commits: Vec<Commit>, time: Vec<i64>, series: Vec<Series>) -> (graph: Self)
        ensures
            graph.title@ == title@,
            graph.commits@ == commits@.reverse(),
            graph.time@ == time@.reverse(),
            graph.series@.len() == series@.len(),
            forall|i: int|
                0 <= i < series@.len() ==> (#[trigger] graph.series@[i]).name == series@[i].name
                    && graph.series@[i].values@ == series@[i].values@.reverse(),
    {
        let mut commits = commits;
        let mut time = time;
        let mut series = series;
        reverse_vec(&mut commits);
        reverse_vec(&mut time);
        let ghost before = series@;
        let mut turned: Vec<Series> = Vec::new();
        reverse_vec(&mut series);
        while series.len() > 0
            invariant
                series.len() <= before.len(),
                series@ == before.reverse().take(series.len() as int),
                turned.len() == before.len() - series.len(),
                forall|i: int|
                    0 <= i < turned.len() ==> (#[trigger] turned@[i]).name == before[i].name
                        && turned@[i].values@ == before[i].values@.reverse(),
            decreases series.len(),
        {
            let ghost n = series.len();
            match series.pop() {
                Some(one) => {
                    let mut one = one;
                    assert(one == before.reverse()[n - 1]);
                    assert(series@ =~= before.reverse().take(n - 1));
                    one.reverse();
                    turned.push(one);
                },
                None => {},
            }
        }
        Graph { title: String::from_str(title), commits, time, series: turned }
    }

    /// Spreads the times of the chart evenly over their calendar months.
    pub fn make_equidistant(&mut self, tz: &TimeZone)
        requires
            spreadable(*tz, old(self).time@),
        ensures
            final(self).time@.len() == old(self).time@.len(),
            forall|i: int|
                0 <= i < old(self).time@.len() ==> #[trigger] final(self).time@[i] == sample_time(
                    *tz,
                    old(self).time@,
                    i,
                ),
            forall|i: int|
                0 <= i < old(self).time@.len() ==> in_span_of_sample(
                    *tz,
                    old(self).time@,
                    i,
                    #[trigger] final(self).time@[i],
                ),
            final(self).title == old(self).title,
            final(self).commits == old(self).commits,
            final(self).series == old(self).series,
    {
        make_equidistant(tz, &mut self.time);
    }

    /// As [`Graph::make_equidistant`], where the times can be spread; else
    /// the chart stays as it is and `false` is returned.
    pub fn try_make_equidistant(&mut self, tz: &TimeZone) -> (done: bool)
        ensures
            done == spreadable(*tz, old(self).time@),
            done ==> forall|i: int|
                0 <= i < old(self).time@.len() ==> #[trigger] final(self).time@[i] == sample_time(
                    *tz,
                    old(self).time@,
                    i,
                ),
            done ==> forall|i: int|
                0 <= i < old(self).time@.len() ==> in_span_of_sample(
                    *tz,
                    old(self).time@,
                    i,
                    #[trigger] final(self).time@[i],
                ),
            !done ==> final(self).time@ == old(self).time@,
            final(self).time@.len() == old(self).time@.len(),
            final(self).title == old(self).title,
            final(self).commits == old(self).commits,
            final(self).series == old(self).series,
    {
        try_make_equidistant(tz, &mut self.time)
    }
}

} // verus!
