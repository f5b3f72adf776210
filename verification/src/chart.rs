//! From the tallies of a history's commits to the series of a chart.

use crate::commit::Commit;
use crate::graph::Graph;
use crate::series::Series;
use crate::tally::{lines_of, pair_keys, Key, Tally};
use vstd::prelude::*;

verus! {

/// The tallies of a list, as mathematical values.
pub open spec fn tally_views<K: Key>(counts: Seq<Tally<K>>) -> Seq<Map<K::V, nat>> {
    counts.map_values(|t: Tally<K>| t@)
}

/// The mathematical values of a list of keys.
pub open spec fn key_views<K: Key>(keys: Seq<K>) -> Seq<K::V> {
    keys.map_values(|k: K| k.key())
}

/// Every tally of the list is well formed.
pub open spec fn tallies_wf<K: Key>(counts: Seq<Tally<K>>) -> bool {
    forall|i: int| 0 <= i < counts.len() ==> (#[trigger] counts[i]).wf()
}

/// The entries of the tallies of a list.
pub open spec fn tally_entries<K: Key>(counts: Seq<Tally<K>>) -> Seq<Seq<(K::V, u64)>> {
    counts.map_values(|t: Tally<K>| t.entries())
}

/// The keys `seen` and, behind them, the keys of `entries` that were not
/// seen before.
pub open spec fn add_keys<KV>(seen: Seq<KV>, entries: Seq<(KV, u64)>) -> Seq<KV>
    decreases entries.len(),
{
    if entries.len() == 0 {
        seen
    } else {
        let before = add_keys(seen, entries.drop_last());
        if before.contains(entries.last().0) {
            before
        } else {
            before.push(entries.last().0)
        }
    }
}

/// The keys of a list of tallies, each once, in the order in which they
/// first come up.
pub open spec fn first_keys<KV>(all: Seq<Seq<(KV, u64)>>) -> Seq<KV>
    decreases all.len(),
{
    if all.len() == 0 {
        Seq::empty()
    } else {
        add_keys(first_keys(all.drop_last()), all.last())
    }
}

fn holds_key<K: Key>(keys: &Vec<K>, key: &K) -> (found: bool)
    ensures
        found == key_views(keys@).contains(key.key()),
{
    let mut i: usize = 0;
    while i < keys.len()
        invariant
            i <= keys.len(),
            forall|j: int| 0 <= j < i ==> key_views(keys@)[j] != key.key(),
        decreases keys.len() - i,
    {
        assert(key_views(keys@)[i as int] == keys[i as int].key());
        if keys[i].same(key) {
            return true;
        }
        i += 1;
    }
    false
}

/// The keys that the tallies hold, each once, in the order in which they
/// first come up.
pub fn tally_keys<K: Key>(counts: &Vec<Tally<K>>) -> (keys: Vec<K>)
    requires
        tallies_wf(counts@),
    ensures
        key_views(keys@) == first_keys(tally_entries(counts@)),
{
    let ghost all = tally_entries(counts@);
    let mut keys: Vec<K> = Vec::new();
    let mut i: usize = 0;
    assert(all.take(0) =~= Seq::<Seq<(K::V, u64)>>::empty());
    assert(key_views(keys@) =~= first_keys(all.take(0)));
    while i < counts.len()
        invariant
            i <= counts.len(),
            tallies_wf(counts@),
            all == tally_entries(counts@),
            key_views(keys@) == first_keys(all.take(i as int)),
        decreases counts.len() - i,
    {
        assert(counts[i as int].wf());
        let pairs = counts[i].pairs();
        let ghost entries = pair_keys(pairs@);
        let ghost seen = key_views(keys@);
        proof {
            assert(all[i as int] == entries);
            assert(all.take(i + 1).drop_last() =~= all.take(i as int));
            assert(all.take(i + 1).last() == entries);
            assert(entries.take(0) =~= Seq::<(K::V, u64)>::empty());
        }
        let mut j: usize = 0;
        while j < pairs.len()
            invariant
                j <= pairs.len(),
                entries == pair_keys(pairs@),
                key_views(keys@) == add_keys(seen, entries.take(j as int)),
            decreases pairs.len() - j,
        {
            let ghost before = key_views(keys@);
            assert(entries[j as int].0 == pairs[j as int].0.key());
            assert(entries.take(j + 1).drop_last() =~= entries.take(j as int));
            assert(entries.take(j + 1).last() == entries[j as int]);
            if !holds_key(&keys, &pairs[j].0) {
                keys.push(pairs[j].0.copy());
                assert(key_views(keys@) =~= before.push(entries[j as int].0));
            }
            j += 1;
        }
        assert(entries.take(pairs.len() as int) =~= entries);
        i += 1;
    }
    assert(all.take(counts.len() as int) =~= all);
    keys
}

/// The series of one key: for each commit, the lines that its tally holds
/// for the key. `None` where a count is too large for a value of a series.
pub fn series_of<K: Key>(name: String, key: &K, counts: &Vec<Tally<K>>) -> (res: Option<Series>)
    requires
        tallies_wf(counts@),
    ensures
        match res {
            Some(series) => {
                &&& series.name == name
                &&& series.values@.len() == counts@.len()
                &&& forall|i: int|
                    0 <= i < counts@.len() ==> #[trigger] series.values@[i] == lines_of(
                        counts@[i]@,
                        key.key(),
                    )
            },
            None => exists|i: int|
                0 <= i < counts@.len() && lines_of((#[trigger] counts@[i])@, key.key()) > i64::MAX,
        },
{
    let mut series = Series { name, values: Vec::new() };
    let mut i: usize = 0;
    while i < counts.len()
        invariant
            i <= counts.len(),
            tallies_wf(counts@),
            series.name == name,
            series.values@.len() == i,
            forall|j: int|
                0 <= j < i ==> #[trigger] series.values@[j] == lines_of(counts@[j]@, key.key()),
        decreases counts.len() - i,
    {
        assert(counts[i as int].wf());
        let amount = counts[i].get(key);
        if !series.try_push(amount) {
            assert(lines_of(counts@[i as int]@, key.key()) > i64::MAX);
            return None;
        }
        i += 1;
    }
    Some(series)
}

/// The sum of the values of a series.
pub open spec fn total_of(values: Seq<i64>) -> int
    decreases values.len(),
{
    if values.len() == 0 {
        0
    } else {
        total_of(values.drop_last()) + values.last()
    }
}

/// The sum of the values of a series.
pub fn series_total(series: &Series) -> (sum: i128)
    ensures
        sum == total_of(series.values@),
{
    let mut sum: i128 = 0;
    let mut i: usize = 0;
    assert(series.values@.take(0) =~= Seq::<i64>::empty());
    while i < series.values.len()
        invariant
            i <= series.values.len(),
            sum == total_of(series.values@.take(i as int)),
            -(i as int) * 0x8000_0000_0000_0000 <= sum <= (i as int) * 0x8000_0000_0000_0000,
        decreases series.values.len() - i,
    {
        assert(series.values@.take(i + 1).drop_last() =~= series.values@.take(i as int));
        assert(series.values@.take(i + 1).last() == series.values@[i as int]);
        assert((i + 1) * 0x8000_0000_0000_0000 == i * 0x8000_0000_0000_0000 + 0x8000_0000_0000_0000) by (nonlinear_arith);
        assert((i as int) * 0x8000_0000_0000_0000 <= 0xffff_ffff_ffff_ffff * 0x8000_0000_0000_0000) by (nonlinear_arith)
            requires
                0 <= i <= 0xffff_ffff_ffff_ffff,
        ;
        sum = sum + series.values[i] as i128;
        i += 1;
    }
    assert(series.values@.take(series.values@.len() as int) =~= series.values@);
    sum
}

/// The list after `item` was put behind the last series whose total is not
/// smaller than its own.
pub open spec fn insert_ranked(sorted: Seq<Series>, item: Series) -> Seq<Series>
    decreases sorted.len(),
{
    if sorted.len() == 0 {
        seq![item]
    } else if total_of(sorted.last().values@) >= total_of(item.values@) {
        sorted.push(item)
    } else {
        insert_ranked(sorted.drop_last(), item).push(sorted.last())
    }
}

/// The series in descending order of their totals; series with the same
/// total keep their order.
pub open spec fn ranked(series: Seq<Series>) -> Seq<Series>
    decreases series.len(),
{
    if series.len() == 0 {
        Seq::empty()
    } else {
        insert_ranked(ranked(series.drop_last()), series.last())
    }
}

/// The totals never rise along the list.
pub open spec fn descending(series: Seq<Series>) -> bool {
    forall|i: int, j: int|
        0 <= i < j < series.len() ==> total_of(series[i].values@) >= total_of(series[j].values@)
}

/// Where a series goes: to position `p`, when every series from `p` on has
/// a smaller total and the one before `p` has not.
proof fn lemma_insert_ranked_at(sorted: Seq<Series>, item: Series, p: int)
    requires
        0 <= p <= sorted.len(),
        forall|q: int| p <= q < sorted.len() ==> total_of(sorted[q].values@) < total_of(item.values@),
        p > 0 ==> total_of(sorted[p - 1].values@) >= total_of(item.values@),
    ensures
        insert_ranked(sorted, item) == sorted.take(p) + seq![item] + sorted.skip(p),
    decreases sorted.len(),
{
    if sorted.len() == 0 {
        assert(sorted.take(p) + seq![item] + sorted.skip(p) =~= seq![item]);
    } else if p == sorted.len() {
        assert(sorted.take(p) + seq![item] + sorted.skip(p) =~= sorted.push(item));
    } else {
        let rest = sorted.drop_last();
        assert(total_of(sorted[sorted.len() - 1].values@) < total_of(item.values@));
        lemma_insert_ranked_at(rest, item, p);
        assert((rest.take(p) + seq![item] + rest.skip(p)).push(sorted.last()) =~= sorted.take(p)
            + seq![item] + sorted.skip(p));
    }
}

/// Orders series by their totals, the largest first. Series with the same
/// total keep their order.
pub fn rank_by_total(series: Vec<Series>) -> (sorted: Vec<Series>)
    ensures
        sorted@ == ranked(series@),
        descending(sorted@),
        sorted@.len() == series@.len(),
        forall|i: int| 0 <= i < sorted@.len() ==> series@.contains(#[trigger] sorted@[i]),
{
    let ghost all = series@;
    let mut series = series;
    let mut turned: Vec<Series> = Vec::new();
    while series.len() > 0
        invariant
            series.len() <= all.len(),
            series@ == all.take(series.len() as int),
            turned.len() == all.len() - series.len(),
            forall|q: int| 0 <= q < turned.len() ==> turned[q] == all[all.len() - 1 - q],
        decreases series.len(),
    {
        let ghost n = series.len();
        match series.pop() {
            Some(one) => {
                assert(one == all[n - 1]);
                assert(series@ =~= all.take(n - 1));
                turned.push(one);
            },
            None => {},
        }
    }
    let mut sorted: Vec<Series> = Vec::new();
    let mut totals: Vec<i128> = Vec::new();
    assert(all.take(0) =~= Seq::<Series>::empty());
    while turned.len() > 0
        invariant
            turned.len() <= all.len(),
            forall|q: int| 0 <= q < turned.len() ==> turned[q] == all[all.len() - 1 - q],
            sorted@ == ranked(all.take(all.len() - turned.len())),
            sorted.len() == all.len() - turned.len(),
            totals.len() == sorted.len(),
            forall|q: int| 0 <= q < sorted.len() ==> totals[q] == total_of(sorted[q].values@),
            forall|q: int| 0 <= q < sorted.len() ==> all.contains(#[trigger] sorted@[q]),
            descending(sorted@),
        decreases turned.len(),
    {
        let ghost j = (all.len() - turned.len()) as int;
        match turned.pop() {
            Some(one) => {
                assert(one == all[j]);
                assert(all.take(j + 1).drop_last() =~= all.take(j));
                assert(all.take(j + 1).last() == one);
                let total = series_total(&one);
                let mut p: usize = sorted.len();
                while p > 0 && totals[p - 1] < total
                    invariant
                        p <= sorted.len(),
                        totals.len() == sorted.len(),
                        total == total_of(one.values@),
                        forall|q: int| 0 <= q < sorted.len() ==> totals[q] == total_of(sorted[q].values@),
                        forall|q: int| p <= q < sorted.len() ==> total_of(sorted[q].values@) < total,
                    decreases p,
                {
                    p -= 1;
                }
                proof {
                    lemma_insert_ranked_at(sorted@, one, p as int);
                }
                let ghost before = sorted@;
                let ghost before_totals = totals@;
                sorted.insert(p, one);
                totals.insert(p, total);
                proof {
                    assert(sorted@ =~= before.take(p as int) + seq![one] + before.skip(p as int));
                    assert forall|q: int| 0 <= q < sorted.len() implies all.contains(
                        #[trigger] sorted@[q],
                    ) by {
                        if q < p {
                            assert(sorted[q] == before[q]);
                        } else if q > p {
                            assert(sorted[q] == before[q - 1]);
                        } else {
                            assert(all[j] == one);
                        }
                    }
                    assert forall|q: int| 0 <= q < sorted.len() implies totals[q] == total_of(
                        sorted[q].values@,
                    ) by {
                        if q < p {
                            assert(sorted[q] == before[q]);
                        } else if q > p {
                            assert(sorted[q] == before[q - 1]);
                            assert(totals[q] == before_totals[q - 1]);
                        }
                    }
                    assert forall|a: int, b: int| 0 <= a < b < sorted.len() implies total_of(
                        sorted[a].values@,
                    ) >= total_of(sorted[b].values@) by {
                        let ia = if a < p { a } else { a - 1 };
                        let ib = if b < p { b } else { b - 1 };
                        if a != p && b != p {
                            assert(total_of(before[ia].values@) >= total_of(before[ib].values@));
                        } else if a == p {
                            assert(sorted[b] == before[b - 1]);
                        } else {
                            assert(sorted[a] == before[a]);
                            if p > 0 {
                                if a < p - 1 {
                                    assert(total_of(before[a].values@) >= total_of(before[p - 1].values@));
                                }
                            }
                        }
                    }
                }
            },
            None => {},
        }
    }
    assert(all.take(all.len() as int) =~= all);
    sorted
}

/// The sum of the values that the series hold for commit `i`.
pub open spec fn column_sum(series: Seq<Series>, i: int) -> int
    decreases series.len(),
{
    if series.len() == 0 {
        0
    } else {
        column_sum(series.drop_last(), i) + series.last().values@[i]
    }
}

/// Every series holds `n` values.
pub open spec fn all_of_length(series: Seq<Series>, n: int) -> bool {
    forall|i: int| 0 <= i < series.len() ==> (#[trigger] series[i]).values@.len() == n
}

/// The sums of the columns fit in a value of a series.
pub open spec fn columns_fit(series: Seq<Series>, n: int) -> bool {
    forall|i: int| 0 <= i < n ==> i64::MIN <= #[trigger] column_sum(series, i) <= i64::MAX
}

/// The most series that a chart shows.
pub const MAX_SERIES: usize = 50;

/// The series called `name` that holds, for each commit, the sum of the
/// values of all series from position `from` on. `None` where a sum is too
/// large for a value of a series.
pub fn sum_series(name: &str, series: &Vec<Series>, from: usize, n: usize) -> (res: Option<Series>)
    requires
        from <= series.len(),
        all_of_length(series@, n as int),
    ensures
        match res {
            Some(sum) => {
                &&& columns_fit(series@.skip(from as int), n as int)
                &&& sum.name@ == name@
                &&& sum.values@.len() == n
                &&& forall|i: int|
                    0 <= i < n ==> #[trigger] sum.values@[i] == column_sum(series@.skip(from as int), i)
            },
            None => !columns_fit(series@.skip(from as int), n as int),
        },
{
    let ghost tail = series@.skip(from as int);
    let mut sum = Series::new(name);
    let mut i: usize = 0;
    while i < n
        invariant
            i <= n,
            from <= series.len(),
            all_of_length(series@, n as int),
            tail == series@.skip(from as int),
            sum.name@ == name@,
            sum.values@.len() == i,
            forall|j: int| 0 <= j < i ==> #[trigger] sum.values@[j] == column_sum(tail, j),
            forall|j: int| 0 <= j < i ==> i64::MIN <= #[trigger] column_sum(tail, j) <= i64::MAX,
        decreases n - i,
    {
        let mut total: i128 = 0;
        let mut k: usize = from;
        assert(tail.take(0) =~= Seq::<Series>::empty());
        while k < series.len()
            invariant
                from <= k <= series.len(),
                i < n,
                all_of_length(series@, n as int),
                tail == series@.skip(from as int),
                total == column_sum(tail.take(k - from), i as int),
                -((k - from) as int) * 0x8000_0000_0000_0000 <= total <= ((k - from) as int)
                    * 0x8000_0000_0000_0000,
            decreases series.len() - k,
        {
            let ghost c = (k - from) as int;
            assert(tail.take(c + 1).drop_last() =~= tail.take(c));
            assert(tail.take(c + 1).last() == series@[k as int]);
            assert(series@[k as int].values@.len() == n);
            assert((c + 1) * 0x8000_0000_0000_0000 == c * 0x8000_0000_0000_0000 + 0x8000_0000_0000_0000) by (nonlinear_arith);
            assert(c * 0x8000_0000_0000_0000 <= 0xffff_ffff_ffff_ffff * 0x8000_0000_0000_0000) by (nonlinear_arith)
                requires
                    0 <= c <= 0xffff_ffff_ffff_ffff,
            ;
            total = total + series[k].values[i] as i128;
            k += 1;
        }
        assert(tail.take(tail.len() as int) =~= tail);
        if total < -0x8000_0000_0000_0000 || total > 0x7fff_ffff_ffff_ffff {
            assert(!(i64::MIN <= column_sum(tail, i as int) <= i64::MAX));
            return None;
        }
        sum.values.push(total as i64);
        i += 1;
    }
    Some(sum)
}

/// Keeps a chart to [`MAX_SERIES`] series: where there are more, the last
/// ones are added up in one series called "Misc authors", which takes the
/// last place. Where a sum is too large for a value of a series, the series
/// stay as they are and `false` is returned.
pub fn fold_misc(series: &mut Vec<Series>, n: usize) -> (done: bool)
    requires
        all_of_length(old(series)@, n as int),
    ensures
        old(series)@.len() <= MAX_SERIES ==> done && final(series)@ == old(series)@,
        old(series)@.len() > MAX_SERIES ==> done == columns_fit(
            old(series)@.skip(MAX_SERIES - 1),
            n as int,
        ),
        !done ==> final(series)@ == old(series)@,
        old(series)@.len() > MAX_SERIES && done ==> {
            &&& final(series)@.len() == MAX_SERIES
            &&& final(series)@.take(MAX_SERIES - 1) == old(series)@.take(MAX_SERIES - 1)
            &&& final(series)@[MAX_SERIES - 1].name@ == "Misc authors"@
            &&& final(series)@[MAX_SERIES - 1].values@.len() == n
            &&& forall|i: int|
                0 <= i < n ==> #[trigger] final(series)@[MAX_SERIES - 1].values@[i] == column_sum(
                    old(series)@.skip(MAX_SERIES - 1),
                    i,
                )
        },
{
    if series.len() <= MAX_SERIES {
        return true;
    }
    let misc = match sum_series("Misc authors", series, MAX_SERIES - 1, n) {
        Some(misc) => misc,
        None => { return false; },
    };
    let ghost before = series@;
    series.truncate(MAX_SERIES - 1);
    series.push(misc);
    assert(series@.take(MAX_SERIES - 1) =~= before.take(MAX_SERIES - 1));
    true
}

/// The committer times of a list of commits.
pub open spec fn committer_times(commits: Seq<Commit>) -> Seq<i64> {
    commits.map_values(|c: Commit| c.committer_time)
}

/// The committer times of a list of commits.
pub fn times_of(commits: &Vec<Commit>) -> (times: Vec<i64>)
    ensures
        times@ == committer_times(commits@),
{
    let mut times: Vec<i64> = Vec::new();
    let mut i: usize = 0;
    while i < commits.len()
        invariant
            i <= commits.len(),
            times.len() == i,
            forall|j: int| 0 <= j < i ==> times[j] == commits[j].committer_time,
        decreases commits.len() - i,
    {
        times.push(commits[i].committer_time);
        i += 1;
    }
    assert(times@ =~= committer_times(commits@));
    times
}

/// One series for each author of `names`, in that order.
pub fn author_series(names: &Vec<String>, counts: &Vec<Tally<String>>) -> (res: Option<Vec<Series>>)
    requires
        tallies_wf(counts@),
    ensures
        match res {
            Some(series) => {
                &&& series@.len() == names@.len()
                &&& all_of_length(series@, counts@.len() as int)
                &&& forall|j: int|
                    0 <= j < names@.len() ==> (#[trigger] series@[j]).name@ == names@[j]@
                &&& forall|j: int, i: int|
                    0 <= j < names@.len() && 0 <= i < counts@.len() ==> #[trigger] series@[j].values@[i]
                        == lines_of(counts@[i]@, names@[j]@)
            },
            None => exists|j: int, i: int|
                0 <= j < names@.len() && 0 <= i < counts@.len() && lines_of(
                    (#[trigger] counts@[i])@,
                    (#[trigger] names@[j])@,
                ) > i64::MAX,
        },
{
    let mut series: Vec<Series> = Vec::new();
    let mut j: usize = 0;
    while j < names.len()
        invariant
            j <= names.len(),
            tallies_wf(counts@),
            series@.len() == j,
            all_of_length(series@, counts@.len() as int),
            forall|q: int| 0 <= q < j ==> (#[trigger] series@[q]).name@ == names@[q]@,
            forall|q: int, i: int|
                0 <= q < j && 0 <= i < counts@.len() ==> #[trigger] series@[q].values@[i] == lines_of(
                    counts@[i]@,
                    names@[q]@,
                ),
        decreases names.len() - j,
    {
        match series_of(names[j].clone(), &names[j], counts) {
            Some(one) => series.push(one),
            None => {
                proof {
                    let i = choose|i: int|
                        0 <= i < counts@.len() && lines_of((#[trigger] counts@[i])@, names[j as int].key())
                            > i64::MAX;
                    assert(lines_of(counts@[i]@, names@[j as int]@) > i64::MAX);
                }
                return None;
            },
        }
        j += 1;
    }
    Some(series)
}

/// The series hold, for each name in order, the lines that each tally holds
/// for it.
pub open spec fn series_match(
    series: Seq<Series>,
    names: Seq<Seq<char>>,
    counts: Seq<Map<Seq<char>, nat>>,
) -> bool {
    &&& series.len() == names.len()
    &&& all_of_length(series, counts.len() as int)
    &&& forall|j: int| 0 <= j < names.len() ==> (#[trigger] series[j]).name@ == names[j]
    &&& forall|j: int, i: int|
        0 <= j < names.len() && 0 <= i < counts.len() ==> #[trigger] series[j].values@[i] == lines_of(
            counts[i],
            names[j],
        )
}

/// `after` is `before` kept to [`MAX_SERIES`] series, the last ones added up
/// in the series "Misc authors".
pub open spec fn folded(before: Seq<Series>, after: Seq<Series>, n: int) -> bool {
    if before.len() <= MAX_SERIES {
        after == before
    } else {
        &&& after.len() == MAX_SERIES
        &&& after.take(MAX_SERIES - 1) == before.take(MAX_SERIES - 1)
        &&& after[MAX_SERIES - 1].name@ == "Misc authors"@
        &&& after[MAX_SERIES - 1].values@.len() == n
        &&& forall|i: int|
            0 <= i < n ==> #[trigger] after[MAX_SERIES - 1].values@[i] == column_sum(
                before.skip(MAX_SERIES - 1),
                i,
            )
    }
}

/// `after` holds the series of `before`, each under its name and with its
/// values turned round.
pub open spec fn turned_round(before: Seq<Series>, after: Seq<Series>) -> bool {
    &&& after.len() == before.len()
    &&& forall|i: int|
        0 <= i < before.len() ==> (#[trigger] after[i]).name == before[i].name && after[i].values@
            == before[i].values@.reverse()
}

/// The chart of the lines per author: one series for each author that a
/// tally holds, the authors with the most lines first and those beyond the
/// limit of the chart added up in one series. `commits` and `counts` list the
/// newest commit first; the chart shows it last. `None` where a count or a
/// sum is too large for a value of a series.
pub fn author_chart(commits: Vec<Commit>, counts: &Vec<Tally<String>>) -> (res: Option<Graph>)
    requires
        tallies_wf(counts@),
    ensures
        match res {
            Some(graph) => {
                &&& graph.title@ == "Lines per author"@
                &&& graph.commits@ == commits@.reverse()
                &&& graph.time@ == committer_times(commits@).reverse()
                &&& exists|base: Seq<Series>, shown: Seq<Series>|
                    {
                        &&& series_match(
                            base,
                            first_keys(tally_entries(counts@)),
                            tally_views(counts@),
                        )
                        &&& folded(ranked(base), shown, counts@.len() as int)
                        &&& turned_round(shown, graph.series@)
                    }
            },
            None => {
                ||| exists|j: int, i: int|
                    0 <= j < first_keys(tally_entries(counts@)).len() && 0 <= i < counts@.len()
                        && lines_of(
                        (#[trigger] tally_views(counts@)[i]),
                        (#[trigger] first_keys(tally_entries(counts@))[j]),
                    ) > i64::MAX
                ||| exists|base: Seq<Series>|
                    {
                        &&& series_match(
                            base,
                            first_keys(tally_entries(counts@)),
                            tally_views(counts@),
                        )
                        &&& base.len() > MAX_SERIES
                        &&& !columns_fit(ranked(base).skip(MAX_SERIES - 1), counts@.len() as int)
                    }
            },
        },
{
    let n = counts.len();
    let names = tally_keys(counts);
    let ghost keys = first_keys(tally_entries(counts@));
    assert(keys =~= key_views(names@));
    let series = match author_series(&names, counts) {
        Some(series) => series,
        None => {
            proof {
                let (j, i) = choose|j: int, i: int|
                    0 <= j < names@.len() && 0 <= i < counts@.len() && lines_of(
                        (#[trigger] counts@[i])@,
                        (#[trigger] names@[j])@,
                    ) > i64::MAX;
                assert(keys[j] == names@[j]@);
                assert(tally_views(counts@)[i] == counts@[i]@);
                assert(lines_of(tally_views(counts@)[i], keys[j]) > i64::MAX);
            }
            return None;
        },
    };
    let ghost base = series@;
    proof {
        assert(series_match(base, keys, tally_views(counts@))) by {
            assert forall|j: int| 0 <= j < keys.len() implies (#[trigger] base[j]).name@ == keys[j] by {
                assert(keys[j] == names@[j]@);
            }
            assert forall|j: int, i: int|
                0 <= j < keys.len() && 0 <= i < counts@.len() implies #[trigger] base[j].values@[i]
                == lines_of(tally_views(counts@)[i], keys[j]) by {
                assert(keys[j] == names@[j]@);
                assert(tally_views(counts@)[i] == counts@[i]@);
            }
        }
    }
    let mut series = rank_by_total(series);
    proof {
        assert forall|i: int| 0 <= i < series@.len() implies (#[trigger] series@[i]).values@.len()
            == n by {
            assert(base.contains(series@[i]));
            let q = choose|q: int| 0 <= q < base.len() && base[q] == series@[i];
            assert(base[q].values@.len() == n);
        }
    }
    let ghost sorted = series@;
    if !fold_misc(&mut series, n) {
        return None;
    }
    let ghost shown = series@;
    assert(folded(sorted, shown, n as int));
    let times = times_of(&commits);
    let graph = Graph::new("Lines per author", commits, times, series);
    assert(turned_round(shown, graph.series@));
    Some(graph)
}

/// The smallest of a list of years; 0 for an empty list.
pub open spec fn lowest(years: Seq<i16>) -> int
    decreases years.len(),
{
    if years.len() == 0 {
        0
    } else if years.len() == 1 || years.last() < lowest(years.drop_last()) {
        years.last() as int
    } else {
        lowest(years.drop_last())
    }
}

/// The largest of a list of years; 0 for an empty list.
pub open spec fn highest(years: Seq<i16>) -> int
    decreases years.len(),
{
    if years.len() == 0 {
        0
    } else if years.len() == 1 || years.last() > highest(years.drop_last()) {
        years.last() as int
    } else {
        highest(years.drop_last())
    }
}

/// The smallest and the largest of a list of years that is not empty.
pub fn year_bounds(years: &Vec<i16>) -> (bounds: (i16, i16))
    requires
        years.len() > 0,
    ensures
        bounds.0 == lowest(years@),
        bounds.1 == highest(years@),
        bounds.0 <= bounds.1,
{
    let mut low = years[0];
    let mut high = years[0];
    let mut i: usize = 1;
    assert(years@.take(1).drop_last() =~= Seq::<i16>::empty());
    while i < years.len()
        invariant
            1 <= i <= years.len(),
            low == lowest(years@.take(i as int)),
            high == highest(years@.take(i as int)),
            low <= high,
        decreases years.len() - i,
    {
        assert(years@.take(i + 1).drop_last() =~= years@.take(i as int));
        assert(years@.take(i + 1).last() == years[i as int]);
        if years[i] < low {
            low = years[i];
        }
        if years[i] > high {
            high = years[i];
        }
        i += 1;
    }
    assert(years@.take(years.len() as int) =~= years@);
    (low, high)
}

/// The series are those of the years from `low` on, one year after the
/// other: each is named as the year is displayed and holds, for each tally,
/// the lines of that year.
pub open spec fn year_series_match(series: Seq<Series>, low: int, counts: Seq<Map<i16, nat>>) -> bool {
    &&& all_of_length(series, counts.len() as int)
    &&& forall|k: int|
        0 <= k < series.len() ==> vstd::string::to_string_from_display_ensures::<i16>(
            &((low + k) as i16),
            (#[trigger] series[k]).name,
        )
    &&& forall|k: int, i: int|
        0 <= k < series.len() && 0 <= i < counts.len() ==> #[trigger] series[k].values@[i] == lines_of(
            counts[i],
            (low + k) as i16,
        )
}

/// The chart of the lines per year: one series for each year from the
/// earliest to the latest year that a tally holds, in ascending order.
/// `commits` and `counts` list the newest commit first; the chart shows it
/// last. `None` where no tally holds a year, or where a count is too large
/// for a value of a series.
pub fn year_chart(commits: Vec<Commit>, counts: &Vec<Tally<i16>>) -> (res: Option<Graph>)
    requires
        tallies_wf(counts@),
    ensures
        match res {
            Some(graph) => {
                let years = first_keys(tally_entries(counts@));
                &&& years.len() > 0
                &&& graph.title@ == "Lines per year"@
                &&& graph.commits@ == commits@.reverse()
                &&& graph.time@ == committer_times(commits@).reverse()
                &&& graph.series@.len() == highest(years) - lowest(years) + 1
                &&& exists|shown: Seq<Series>|
                    year_series_match(shown, lowest(years), tally_views(counts@)) && turned_round(
                        shown,
                        graph.series@,
                    )
            },
            None => {
                let years = first_keys(tally_entries(counts@));
                ||| years.len() == 0
                ||| exists|y: int, i: int|
                    lowest(years) <= y <= highest(years) && 0 <= i < counts@.len() && #[trigger] lines_of(
                        tally_views(counts@)[i],
                        y as i16,
                    ) > i64::MAX
            },
        },
{
    let years = tally_keys(counts);
    let ghost keys = first_keys(tally_entries(counts@));
    assert(keys =~= years@) by {
        assert(key_views(years@) =~= years@);
    }
    if years.len() == 0 {
        return None;
    }
    let (low, high) = year_bounds(&years);
    let mut series: Vec<Series> = Vec::new();
    let mut year: i32 = low as i32;
    while year <= high as i32
        invariant
            low <= year <= high + 1,
            keys == first_keys(tally_entries(counts@)),
            low == lowest(keys),
            high == highest(keys),
            tallies_wf(counts@),
            series@.len() == year - low,
            year_series_match(series@, low as int, tally_views(counts@)),
        decreases high + 1 - year,
    {
        let y = year as i16;
        let label = y.to_string();
        let ghost name = label;
        let ghost before = series@;
        match series_of(label, &y, counts) {
            Some(one) => {
                series.push(one);
                proof {
                    let views = tally_views(counts@);
                    assert forall|k: int| 0 <= k < series@.len() implies (#[trigger] series@[k]).values@.len()
                        == counts@.len() by {
                        if k < before.len() {
                            assert(series@[k] == before[k]);
                        }
                    }
                    assert forall|k: int|
                        0 <= k < series@.len() implies vstd::string::to_string_from_display_ensures::<
                        i16,
                    >(&((low + k) as i16), (#[trigger] series@[k]).name) by {
                        if k < before.len() {
                            assert(series@[k] == before[k]);
                        } else {
                            assert(series@[k].name == name);
                        }
                    }
                    assert forall|k: int, i: int|
                        0 <= k < series@.len() && 0 <= i < counts@.len() implies #[trigger] series@[k].values@[i]
                        == lines_of(views[i], (low + k) as i16) by {
                        assert(views[i] == counts@[i]@);
                        if k < before.len() {
                            assert(series@[k] == before[k]);
                        }
                    }
                }
            },
            None => {
                proof {
                    let i = choose|i: int|
                        0 <= i < counts@.len() && lines_of((#[trigger] counts@[i])@, y.key()) > i64::MAX;
                    assert(tally_views(counts@)[i] == counts@[i]@);
                    assert(lines_of(tally_views(counts@)[i], (year as int) as i16) > i64::MAX);
                }
                return None;
            },
        }
        year += 1;
    }
    let ghost shown = series@;
    let times = times_of(&commits);
    let graph = Graph::new("Lines per year", commits, times, series);
    assert(turned_round(shown, graph.series@));
    Some(graph)
}

} // verus!
