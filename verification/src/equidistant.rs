//! Spreading the samples of a chart evenly over their calendar months, and
//! ordering commits so that the samples of one month stand together.

use crate::cache::{key_index, lemma_key_index};
use crate::commit::Commit;
use crate::zone::{civil_month, month_span, zone_month, zone_month_span};
use jiff::tz::TimeZone;
use vstd::prelude::*;

verus! {

/// Month `a` comes before month `b`. A month is a `(year, month)` pair.
pub open spec fn key_before(a: (i16, i8), b: (i16, i8)) -> bool {
    a.0 < b.0 || (a.0 == b.0 && a.1 < b.1)
}

/// Whether month `a` comes before month `b`.
pub fn month_before(a: (i16, i8), b: (i16, i8)) -> (before: bool)
    ensures
        before == key_before(a, b),
{
    a.0 < b.0 || (a.0 == b.0 && a.1 < b.1)
}

/// The number of samples of month `key` among `keys`, which hold the month of
/// each sample.
pub open spec fn samples_in(keys: Seq<(i16, i8)>, key: (i16, i8)) -> nat
    decreases keys.len(),
{
    if keys.len() == 0 {
        0
    } else {
        samples_in(keys.drop_last(), key) + if keys.last() == key {
            1nat
        } else {
            0nat
        }
    }
}

/// The rank of sample `i` in its month: the number of samples of the same
/// month that stand before it.
pub open spec fn rank_of(keys: Seq<(i16, i8)>, i: int) -> nat {
    samples_in(keys.take(i), keys[i])
}

/// The months of a list of samples, each once, in the order in which they
/// first come up.
pub open spec fn first_months(keys: Seq<(i16, i8)>) -> Seq<(i16, i8)>
    decreases keys.len(),
{
    if keys.len() == 0 {
        Seq::empty()
    } else {
        let before = first_months(keys.drop_last());
        if before.contains(keys.last()) {
            before
        } else {
            before.push(keys.last())
        }
    }
}

/// A month has samples exactly where it occurs, and no more than there are
/// samples.
pub proof fn lemma_samples_in(keys: Seq<(i16, i8)>, key: (i16, i8))
    ensures
        samples_in(keys, key) <= keys.len(),
        samples_in(keys, key) >= 1 <==> keys.contains(key),
    decreases keys.len(),
{
    if keys.len() > 0 {
        let rest = keys.drop_last();
        lemma_samples_in(rest, key);
        if keys.contains(key) {
            let i = choose|i: int| 0 <= i < keys.len() && keys[i] == key;
            if i < rest.len() {
                assert(rest[i] == key);
            }
        }
        if rest.contains(key) {
            let i = choose|i: int| 0 <= i < rest.len() && rest[i] == key;
            assert(keys[i] == key);
        }
        if keys.last() == key {
            assert(keys[keys.len() - 1] == key);
        }
    }
}

/// A sample stands before the end of its month: its rank is below the
/// number of samples of the month.
pub proof fn lemma_rank_below(keys: Seq<(i16, i8)>, i: int)
    requires
        0 <= i < keys.len(),
    ensures
        rank_of(keys, i) < samples_in(keys, keys[i]),
    decreases keys.len(),
{
    let rest = keys.drop_last();
    if i == keys.len() - 1 {
        assert(keys.take(i) =~= rest);
    } else {
        lemma_rank_below(rest, i);
        assert(rest.take(i) =~= keys.take(i));
    }
}

/// Of two samples of one month the later has the higher rank.
pub proof fn lemma_rank_rises(keys: Seq<(i16, i8)>, i: int, j: int)
    requires
        0 <= i < j < keys.len(),
        keys[i] == keys[j],
    ensures
        rank_of(keys, i) < rank_of(keys, j),
{
    let upto = keys.take(j);
    lemma_rank_below(upto, i);
    assert(upto.take(i) =~= keys.take(i));
}

/// The months that first come up are the months that occur, each once.
pub proof fn lemma_first_months(keys: Seq<(i16, i8)>)
    ensures
        first_months(keys).no_duplicates(),
        forall|key: (i16, i8)| first_months(keys).contains(key) <==> keys.contains(key),
    decreases keys.len(),
{
    if keys.len() > 0 {
        let rest = keys.drop_last();
        let before = first_months(rest);
        let after = first_months(keys);
        lemma_first_months(rest);
        assert forall|key: (i16, i8)| after.contains(key) <==> keys.contains(key) by {
            if keys.contains(key) {
                let i = choose|i: int| 0 <= i < keys.len() && keys[i] == key;
                if i < rest.len() {
                    assert(rest[i] == key);
                    assert(rest.contains(key));
                    assert(before.contains(key));
                    let a = choose|a: int| 0 <= a < before.len() && before[a] == key;
                    assert(after[a] == key);
                } else if !before.contains(key) {
                    assert(after[before.len() as int] == key);
                }
            }
            if after.contains(key) {
                let a = choose|a: int| 0 <= a < after.len() && after[a] == key;
                if a < before.len() {
                    assert(before[a] == key);
                    assert(rest.contains(key));
                    let i = choose|i: int| 0 <= i < rest.len() && rest[i] == key;
                    assert(keys[i] == key);
                } else {
                    assert(keys[keys.len() - 1] == key);
                }
            }
        }
    }
}

/// The months of a list of counted months.
pub open spec fn bucket_months(buckets: Seq<((i16, i8), usize)>) -> Seq<(i16, i8)> {
    buckets.map_values(|b: ((i16, i8), usize)| b.0)
}

/// The buckets hold the months of the samples, each once in the order in
/// which they first come up, with the number of samples of each.
pub open spec fn counted(keys: Seq<(i16, i8)>, buckets: Seq<((i16, i8), usize)>) -> bool {
    &&& bucket_months(buckets) == first_months(keys)
    &&& forall|m: int|
        0 <= m < buckets.len() ==> (#[trigger] buckets[m]).1 == samples_in(keys, buckets[m].0)
}

/// Where a month stands among the buckets.
proof fn lemma_bucket_at(buckets: Seq<((i16, i8), usize)>, key: (i16, i8))
    ensures
        0 <= key_index(buckets, key) <= buckets.len(),
        key_index(buckets, key) < buckets.len() <==> bucket_months(buckets).contains(key),
        key_index(buckets, key) < buckets.len() ==> buckets[key_index(buckets, key)].0 == key,
        forall|j: int| 0 <= j < key_index(buckets, key) ==> buckets[j].0 != key,
{
    lemma_key_index(buckets, key);
    let p = key_index(buckets, key);
    let months = bucket_months(buckets);
    if p < buckets.len() {
        assert(months[p] == key);
    }
    if months.contains(key) {
        let a = choose|a: int| 0 <= a < months.len() && months[a] == key;
        assert(buckets[a].0 == key);
    }
}

/// Counts the samples of each month. The months come out in the order in
/// which they first come up.
pub fn count_months(keys: &Vec<(i16, i8)>) -> (buckets: Vec<((i16, i8), usize)>)
    ensures
        counted(keys@, buckets@),
{
    let mut buckets: Vec<((i16, i8), usize)> = Vec::new();
    let mut i: usize = 0;
    assert(keys@.take(0) =~= Seq::<(i16, i8)>::empty());
    assert(bucket_months(buckets@) =~= first_months(keys@.take(0)));
    while i < keys.len()
        invariant
            i <= keys.len(),
            counted(keys@.take(i as int), buckets@),
        decreases keys.len() - i,
    {
        let key = keys[i];
        let ghost done = keys@.take(i as int);
        let ghost next = keys@.take(i + 1);
        let ghost before = buckets@;
        proof {
            assert(next.drop_last() =~= done);
            assert(next.last() == key);
            lemma_first_months(done);
            lemma_samples_in(done, key);
            lemma_bucket_at(before, key);
        }
        let mut p: usize = 0;
        while p < buckets.len() && !(buckets[p].0.0 == key.0 && buckets[p].0.1 == key.1)
            invariant
                p <= buckets.len(),
                forall|j: int| 0 <= j < p ==> buckets[j].0 != key,
            decreases buckets.len() - p,
        {
            p += 1;
        }
        if p < buckets.len() {
            let have = buckets[p].1;
            assert(have == samples_in(done, key));
            buckets.set(p, (key, have + 1));
            proof {
                assert(bucket_months(buckets@) =~= bucket_months(before));
                assert(bucket_months(before)[p as int] == key);
                assert forall|m: int| 0 <= m < buckets.len() implies (#[trigger] buckets[m]).1
                    == samples_in(next, buckets[m].0) by {
                    if m != p {
                        assert(buckets[m] == before[m]);
                        assert(bucket_months(before)[m] != bucket_months(before)[p as int]);
                    }
                }
            }
        } else {
            proof {
                assert(!bucket_months(before).contains(key)) by {
                    if bucket_months(before).contains(key) {
                        let a = choose|a: int|
                            0 <= a < before.len() && bucket_months(before)[a] == key;
                        assert(before[a].0 == key);
                    }
                }
            }
            buckets.push((key, 1));
            proof {
                assert(bucket_months(buckets@) =~= bucket_months(before).push(key));
                assert forall|m: int| 0 <= m < buckets.len() implies (#[trigger] buckets[m]).1
                    == samples_in(next, buckets[m].0) by {
                    if m < before.len() {
                        assert(buckets[m] == before[m]);
                        assert(bucket_months(before)[m] == before[m].0);
                        assert(before[m].0 != key);
                    }
                }
            }
        }
        i += 1;
    }
    assert(keys@.take(keys@.len() as int) =~= keys@);
    buckets
}

/// The time of sample `k` of `n` in a month that starts at `start` and lasts
/// `duration` seconds: the middle of slot `k` when the month is cut into `n`
/// slots of equal whole length.
pub open spec fn slot_time(start: int, duration: int, n: int, k: int) -> int {
    start + k * (duration / n) + (duration / n) / 2
}

/// Every sample of a month lies inside the month.
pub proof fn lemma_slot_inside_month(start: int, duration: int, n: int, k: int)
    requires
        duration >= 1,
        n >= 1,
        0 <= k < n,
    ensures
        start <= slot_time(start, duration, n, k) < start + duration,
{
    let w = duration / n;
    lemma_slot_width(duration, n);
    assert(k * w <= (n - 1) * w) by (nonlinear_arith)
        requires
            0 <= k <= n - 1,
            w >= 0,
    ;
    assert((n - 1) * w + w == n * w) by (nonlinear_arith);
    assert(k * w >= 0) by (nonlinear_arith)
        requires
            k >= 0,
            w >= 0,
    ;
    if w == 0 {
        assert(k * w == 0) by (nonlinear_arith)
            requires
                w == 0,
        ;
    } else {
        assert(0 <= w / 2 < w);
    }
}

/// The whole length of a slot: the slots together are no longer than the
/// month.
pub proof fn lemma_slot_width(duration: int, n: int)
    requires
        duration >= 0,
        n >= 1,
    ensures
        0 <= duration / n,
        n * (duration / n) <= duration,
        duration >= n ==> duration / n >= 1,
{
    vstd::arithmetic::div_mod::lemma_fundamental_div_mod(duration, n);
    vstd::arithmetic::div_mod::lemma_mod_bound(duration, n);
    vstd::arithmetic::div_mod::lemma_div_pos_is_pos(duration, n);
    let w = duration / n;
    if duration >= n && w < 1 {
        assert(n * w == 0) by (nonlinear_arith)
            requires
                w == 0,
        ;
    }
}

/// The samples of a month keep their order, and where the month has at least
/// as many seconds as samples, no two samples share a time.
pub proof fn lemma_slots_in_order(start: int, duration: int, n: int, j: int, k: int)
    requires
        duration >= 0,
        n >= 1,
        0 <= j < k < n,
    ensures
        slot_time(start, duration, n, j) <= slot_time(start, duration, n, k),
        duration >= n ==> slot_time(start, duration, n, j) < slot_time(start, duration, n, k),
{
    let w = duration / n;
    lemma_slot_width(duration, n);
    assert(j * w <= k * w) by (nonlinear_arith)
        requires
            j <= k,
            w >= 0,
    ;
    if duration >= n {
        assert(j * w + w <= k * w) by (nonlinear_arith)
            requires
                j + 1 <= k,
                w >= 1,
        ;
    }
}

/// A month can be cut into slots for `n` samples without leaving the range
/// of the times: it lasts a second at least, it ends within the range, and
/// the number of samples is a time span too.
pub open spec fn span_usable(span: (i64, i64), n: nat) -> bool {
    1 <= span.1 && span.0 + span.1 <= i64::MAX && 1 <= n <= i64::MAX
}

/// Every month can be cut into slots for its samples.
pub open spec fn spans_usable(buckets: Seq<((i16, i8), usize)>, spans: Seq<(i64, i64)>) -> bool {
    &&& buckets.len() == spans.len()
    &&& forall|m: int| 0 <= m < buckets.len() ==> span_usable(#[trigger] spans[m], buckets[m].1 as nat)
}

/// Whether every month can be cut into slots for its samples.
pub fn check_spans(buckets: &Vec<((i16, i8), usize)>, spans: &Vec<(i64, i64)>) -> (usable: bool)
    ensures
        usable == spans_usable(buckets@, spans@),
{
    if buckets.len() != spans.len() {
        return false;
    }
    let mut i: usize = 0;
    while i < buckets.len()
        invariant
            i <= buckets.len(),
            buckets.len() == spans.len(),
            forall|j: int| 0 <= j < i ==> span_usable(#[trigger] spans[j], buckets[j].1 as nat),
        decreases buckets.len() - i,
    {
        let span = spans[i];
        let n = buckets[i].1;
        if span.1 < 1 || n < 1 || n as u64 > 0x7fff_ffff_ffff_ffffu64 || span.0.checked_add(span.1).is_none() {
            assert(!span_usable(spans[i as int], buckets[i as int].1 as nat));
            return false;
        }
        i += 1;
    }
    true
}

/// The time of sample `i` after spreading: the middle of the slot of its
/// rank, in the span of its month. `buckets` holds the months with the number
/// of their samples, `spans` the span of each month.
pub open spec fn spread_time(
    keys: Seq<(i16, i8)>,
    buckets: Seq<((i16, i8), usize)>,
    spans: Seq<(i64, i64)>,
    i: int,
) -> int {
    let m = key_index(buckets, keys[i]);
    slot_time(
        spans[m].0 as int,
        spans[m].1 as int,
        samples_in(keys, keys[i]) as int,
        rank_of(keys, i) as int,
    )
}

/// Gives every sample the middle of its slot: a sample keeps its place in
/// the list and its month, and the samples of a month get the slots of the
/// month in the order in which they stand.
pub fn spread_samples(
    keys: &Vec<(i16, i8)>,
    buckets: &Vec<((i16, i8), usize)>,
    spans: &Vec<(i64, i64)>,
) -> (times: Vec<i64>)
    requires
        counted(keys@, buckets@),
        spans_usable(buckets@, spans@),
    ensures
        times@.len() == keys@.len(),
        forall|i: int| 0 <= i < keys@.len() ==> #[trigger] times@[i] == spread_time(keys@, buckets@, spans@, i),
        forall|i: int|
            0 <= i < keys@.len() ==> spans@[key_index(buckets@, keys@[i])].0 <= #[trigger] times@[i]
                < spans@[key_index(buckets@, keys@[i])].0 + spans@[key_index(buckets@, keys@[i])].1,
{
    let mut used: Vec<usize> = Vec::new();
    let mut m: usize = 0;
    assert(keys@.take(0) =~= Seq::<(i16, i8)>::empty());
    while m < buckets.len()
        invariant
            m <= buckets.len(),
            used.len() == m,
            forall|j: int| 0 <= j < m ==> used[j] == 0,
        decreases buckets.len() - m,
    {
        used.push(0);
        m += 1;
    }
    let mut times: Vec<i64> = Vec::new();
    let mut i: usize = 0;
    while i < keys.len()
        invariant
            i <= keys.len(),
            counted(keys@, buckets@),
            spans_usable(buckets@, spans@),
            used.len() == buckets.len(),
            times.len() == i,
            forall|j: int|
                0 <= j < buckets.len() ==> #[trigger] used[j] == samples_in(
                    keys@.take(i as int),
                    buckets[j].0,
                ),
            forall|j: int| 0 <= j < i ==> #[trigger] times@[j] == spread_time(keys@, buckets@, spans@, j),
            forall|j: int|
                0 <= j < i ==> spans@[key_index(buckets@, keys@[j])].0 <= #[trigger] times@[j]
                    < spans@[key_index(buckets@, keys@[j])].0 + spans@[key_index(buckets@, keys@[j])].1,
        decreases keys.len() - i,
    {
        let key = keys[i];
        let ghost done = keys@.take(i as int);
        let ghost next = keys@.take(i + 1);
        proof {
            assert(next.drop_last() =~= done);
            assert(next.last() == key);
            lemma_first_months(keys@);
            assert(keys@[i as int] == key);
            assert(keys@.contains(key));
            lemma_bucket_at(buckets@, key);
            lemma_rank_below(keys@, i as int);
        }
        let mut p: usize = 0;
        while p < buckets.len() && !(buckets[p].0.0 == key.0 && buckets[p].0.1 == key.1)
            invariant
                p <= buckets.len(),
                forall|j: int| 0 <= j < p ==> buckets[j].0 != key,
                key_index(buckets@, key) < buckets.len(),
                buckets[key_index(buckets@, key)].0 == key,
            decreases buckets.len() - p,
        {
            p += 1;
        }
        assert(p == key_index(buckets@, key)) by {
            let q = key_index(buckets@, key);
            if p < q {
                assert(buckets[p as int].0 != key);
            }
            if q < p {
                assert(buckets[q].0 != key);
            }
        }
        let start = spans[p].0;
        let duration = spans[p].1;
        let amount = buckets[p].1;
        let rank = used[p];
        assert(span_usable(spans[p as int], buckets[p as int].1 as nat));
        assert(amount == samples_in(keys@, key));
        assert(rank == rank_of(keys@, i as int));
        let n = amount as i64;
        let k = rank as i64;
        let width = duration / n;
        proof {
            lemma_slot_width(duration as int, n as int);
            lemma_slot_inside_month(start as int, duration as int, n as int, k as int);
            assert(k * width <= (n - 1) * width) by (nonlinear_arith)
                requires
                    0 <= k <= n - 1,
                    width >= 0,
            ;
            assert((n - 1) * width + width == n * width) by (nonlinear_arith);
            assert(k * width >= 0) by (nonlinear_arith)
                requires
                    k >= 0,
                    width >= 0,
            ;
        }
        let time = start + (width * k + width / 2);
        assert(time == slot_time(start as int, duration as int, n as int, k as int)) by (nonlinear_arith)
            requires
                time == start + (width * k + width / 2),
                width == duration / n,
        ;
        times.push(time);
        let ghost before = used@;
        used.set(p, rank + 1);
        proof {
            lemma_bucket_months_distinct(keys@, buckets@);
            assert forall|j: int| 0 <= j < buckets.len() implies #[trigger] used[j] == samples_in(
                next,
                buckets[j].0,
            ) by {
                assert(before[j] == samples_in(done, buckets[j].0));
                if j != p {
                    assert(buckets[j].0 != buckets[p as int].0);
                }
            }
        }
        i += 1;
    }
    times
}

/// No two buckets hold the same month.
proof fn lemma_bucket_months_distinct(keys: Seq<(i16, i8)>, buckets: Seq<((i16, i8), usize)>)
    requires
        counted(keys, buckets),
    ensures
        forall|a: int, b: int|
            0 <= a < buckets.len() && 0 <= b < buckets.len() && a != b ==> buckets[a].0 != buckets[b].0,
{
    lemma_first_months(keys);
    let months = bucket_months(buckets);
    assert forall|a: int, b: int|
        0 <= a < buckets.len() && 0 <= b < buckets.len() && a != b implies buckets[a].0
        != buckets[b].0 by {
        assert(months[a] == buckets[a].0);
        assert(months[b] == buckets[b].0);
    }
}

/// The month of each sample in the time zone.
pub open spec fn month_keys(tz: TimeZone, times: Seq<i64>) -> Seq<(i16, i8)> {
    times.map_values(|t: i64| zone_month(tz, t)->0)
}

/// The first instant and the length of each month in the time zone.
pub open spec fn month_spans(tz: TimeZone, buckets: Seq<((i16, i8), usize)>) -> Seq<(i64, i64)> {
    buckets.map_values(|b: ((i16, i8), usize)| zone_month_span(tz, b.0.0, b.0.1)->0)
}

/// The span of the month of sample `i` in the time zone: its first instant
/// and its length in seconds.
pub open spec fn span_of_sample(tz: TimeZone, times: Seq<i64>, i: int) -> (i64, i64) {
    let key = month_keys(tz, times)[i];
    zone_month_span(tz, key.0, key.1)->0
}

/// The instant `t` lies in the span of the month of sample `i`.
pub open spec fn in_span_of_sample(tz: TimeZone, times: Seq<i64>, i: int, t: i64) -> bool {
    span_of_sample(tz, times, i).0 <= t < span_of_sample(tz, times, i).0 + span_of_sample(tz, times, i).1
}

/// Sample `i` can be spread: the calendar reaches it and its month, and the
/// month can be cut into slots for its samples.
pub open spec fn sample_spreadable(tz: TimeZone, times: Seq<i64>, i: int) -> bool {
    let keys = month_keys(tz, times);
    &&& zone_month(tz, times[i]) is Some
    &&& zone_month_span(tz, keys[i].0, keys[i].1) is Some
    &&& span_usable(span_of_sample(tz, times, i), samples_in(keys, keys[i]))
}

/// Every sample can be spread.
pub open spec fn spreadable(tz: TimeZone, times: Seq<i64>) -> bool {
    forall|i: int| 0 <= i < times.len() ==> #[trigger] sample_spreadable(tz, times, i)
}

/// The time of sample `i` after spreading: the middle of the slot of its
/// rank among the samples of its month, in the span of that month.
pub open spec fn sample_time(tz: TimeZone, times: Seq<i64>, i: int) -> int {
    let keys = month_keys(tz, times);
    slot_time(
        span_of_sample(tz, times, i).0 as int,
        span_of_sample(tz, times, i).1 as int,
        samples_in(keys, keys[i]) as int,
        rank_of(keys, i) as int,
    )
}

/// The month of each sample in the time zone; `None` where the calendar does
/// not reach a sample.
pub fn months_of(tz: &TimeZone, times: &Vec<i64>) -> (keys: Option<Vec<(i16, i8)>>)
    ensures
        match keys {
            Some(keys) => keys@ == month_keys(*tz, times@) && forall|i: int|
                0 <= i < times.len() ==> zone_month(*tz, #[trigger] times[i]) is Some,
            None => exists|i: int| 0 <= i < times.len() && zone_month(*tz, #[trigger] times[i]) is None,
        },
{
    let mut keys: Vec<(i16, i8)> = Vec::new();
    let mut i: usize = 0;
    while i < times.len()
        invariant
            i <= times.len(),
            keys.len() == i,
            forall|j: int| 0 <= j < i ==> zone_month(*tz, #[trigger] times[j]) == Some(keys[j]),
        decreases times.len() - i,
    {
        match civil_month(tz, times[i]) {
            Some(key) => keys.push(key),
            None => {
                assert(zone_month(*tz, times[i as int]) is None);
                return None;
            },
        }
        i += 1;
    }
    assert(keys@ =~= month_keys(*tz, times@));
    Some(keys)
}

/// The first instant and the length of each month in the time zone; `None`
/// where the calendar does not reach a month.
pub fn spans_of(tz: &TimeZone, buckets: &Vec<((i16, i8), usize)>) -> (spans: Option<Vec<(i64, i64)>>)
    ensures
        match spans {
            Some(spans) => spans@ == month_spans(*tz, buckets@) && forall|i: int|
                0 <= i < buckets.len() ==> zone_month_span(
                    *tz,
                    (#[trigger] buckets@[i]).0.0,
                    buckets@[i].0.1,
                ) is Some,
            None => exists|i: int|
                0 <= i < buckets.len() && zone_month_span(
                    *tz,
                    (#[trigger] buckets@[i]).0.0,
                    buckets@[i].0.1,
                ) is None,
        },
{
    let ghost views = buckets@;
    let mut spans: Vec<(i64, i64)> = Vec::new();
    let mut i: usize = 0;
    while i < buckets.len()
        invariant
            i <= buckets.len(),
            spans.len() == i,
            views == buckets@,
            forall|j: int|
                0 <= j < i ==> zone_month_span(*tz, (#[trigger] views[j]).0.0, views[j].0.1) == Some(
                    spans[j],
                ),
        decreases buckets.len() - i,
    {
        assert(views[i as int].0 == buckets[i as int].0);
        match month_span(tz, buckets[i].0.0, buckets[i].0.1) {
            Some(span) => spans.push(span),
            None => {
                assert(zone_month_span(*tz, views[i as int].0.0, views[i as int].0.1) is None);
                return None;
            },
        }
        i += 1;
    }
    assert(spans@ =~= month_spans(*tz, views));
    Some(spans)
}

/// Two samples of one month keep their order, and where the month has at
/// least as many seconds as samples, they get different times.
pub proof fn lemma_samples_in_order(tz: TimeZone, times: Seq<i64>, i: int, j: int)
    requires
        0 <= i < j < times.len(),
        month_keys(tz, times)[i] == month_keys(tz, times)[j],
        span_of_sample(tz, times, i).1 >= 0,
    ensures
        sample_time(tz, times, i) <= sample_time(tz, times, j),
        span_of_sample(tz, times, i).1 >= samples_in(month_keys(tz, times), month_keys(tz, times)[i])
            ==> sample_time(tz, times, i) < sample_time(tz, times, j),
{
    let keys = month_keys(tz, times);
    lemma_rank_rises(keys, i, j);
    lemma_rank_below(keys, j);
    lemma_slots_in_order(
        span_of_sample(tz, times, i).0 as int,
        span_of_sample(tz, times, i).1 as int,
        samples_in(keys, keys[i]) as int,
        rank_of(keys, i) as int,
        rank_of(keys, j) as int,
    );
}

/// The buckets and spans of a list of samples say of every sample what the
/// time zone says of it.
proof fn lemma_sample_bucket(
    tz: TimeZone,
    times: Seq<i64>,
    buckets: Seq<((i16, i8), usize)>,
    spans: Seq<(i64, i64)>,
    i: int,
) -> (m: int)
    requires
        0 <= i < times.len(),
        counted(month_keys(tz, times), buckets),
        spans == month_spans(tz, buckets),
    ensures
        m == key_index(buckets, month_keys(tz, times)[i]),
        0 <= m < buckets.len(),
        buckets[m].0 == month_keys(tz, times)[i],
        buckets[m].1 == samples_in(month_keys(tz, times), month_keys(tz, times)[i]),
        spans[m] == span_of_sample(tz, times, i),
{
    let keys = month_keys(tz, times);
    lemma_first_months(keys);
    assert(keys.contains(keys[i]));
    lemma_bucket_at(buckets, keys[i]);
    key_index(buckets, keys[i])
}

/// Every bucket is the month of some sample.
proof fn lemma_bucket_sample(tz: TimeZone, times: Seq<i64>, buckets: Seq<((i16, i8), usize)>, m: int) -> (i:
    int)
    requires
        0 <= m < buckets.len(),
        counted(month_keys(tz, times), buckets),
    ensures
        0 <= i < times.len(),
        month_keys(tz, times)[i] == buckets[m].0,
        m == key_index(buckets, month_keys(tz, times)[i]),
{
    let keys = month_keys(tz, times);
    lemma_first_months(keys);
    assert(bucket_months(buckets)[m] == buckets[m].0);
    assert(first_months(keys)[m] == buckets[m].0);
    assert(first_months(keys).contains(buckets[m].0));
    assert(keys.contains(buckets[m].0));
    let i = choose|i: int| 0 <= i < keys.len() && keys[i] == buckets[m].0;
    lemma_bucket_at(buckets, keys[i]);
    lemma_bucket_months_distinct(keys, buckets);
    i
}

/// Moves every sample to the middle of its slot. A sample keeps its place in
/// the list and stays in the span of its month; the samples of a month, in
/// the order in which they stand, get the slots of the month in ascending
/// order.
pub fn make_equidistant(tz: &TimeZone, times: &mut Vec<i64>)
    requires
        spreadable(*tz, old(times)@),
    ensures
        final(times)@.len() == old(times)@.len(),
        forall|i: int|
            0 <= i < old(times)@.len() ==> #[trigger] final(times)@[i] == sample_time(*tz, old(times)@, i),
        forall|i: int|
            0 <= i < old(times)@.len() ==> in_span_of_sample(*tz, old(times)@, i, #[trigger] final(times)@[i]),
{
    let done = try_make_equidistant(tz, times);
    assert(done);
}

/// As [`make_equidistant`], where every sample can be spread; else the
/// samples stay as they are and `false` is returned.
pub fn try_make_equidistant(tz: &TimeZone, times: &mut Vec<i64>) -> (done: bool)
    ensures
        done == spreadable(*tz, old(times)@),
        !done ==> final(times)@ == old(times)@,
        final(times)@.len() == old(times)@.len(),
        done ==> forall|i: int|
            0 <= i < old(times)@.len() ==> #[trigger] final(times)@[i] == sample_time(*tz, old(times)@, i),
        done ==> forall|i: int|
            0 <= i < old(times)@.len() ==> in_span_of_sample(*tz, old(times)@, i, #[trigger] final(times)@[i]),
{
    let ghost all = times@;
    let keys = match months_of(tz, times) {
        Some(keys) => keys,
        None => {
            proof {
                let i = choose|i: int| 0 <= i < all.len() && zone_month(*tz, #[trigger] all[i]) is None;
                assert(!sample_spreadable(*tz, all, i));
            }
            return false;
        },
    };
    let buckets = count_months(&keys);
    let spans = match spans_of(tz, &buckets) {
        Some(spans) => spans,
        None => {
            proof {
                let m = choose|m: int|
                    0 <= m < buckets.len() && zone_month_span(
                        *tz,
                        (#[trigger] buckets@[m]).0.0,
                        buckets@[m].0.1,
                    ) is None;
                let i = lemma_bucket_sample(*tz, all, buckets@, m);
                assert(!sample_spreadable(*tz, all, i));
            }
            return false;
        },
    };
    if !check_spans(&buckets, &spans) {
        proof {
            let m = choose|m: int|
                0 <= m < buckets.len() && !span_usable(#[trigger] spans@[m], buckets@[m].1 as nat);
            let i = lemma_bucket_sample(*tz, all, buckets@, m);
            let at = lemma_sample_bucket(*tz, all, buckets@, spans@, i);
            assert(!sample_spreadable(*tz, all, i));
        }
        return false;
    }
    proof {
        assert forall|i: int| 0 <= i < all.len() implies #[trigger] sample_spreadable(*tz, all, i) by {
            let m = lemma_sample_bucket(*tz, all, buckets@, spans@, i);
            assert(span_usable(spans@[m], buckets@[m].1 as nat));
            assert(zone_month_span(*tz, buckets@[m].0.0, buckets@[m].0.1) is Some);
        }
    }
    let spread = spread_samples(&keys, &buckets, &spans);
    proof {
        assert forall|i: int| 0 <= i < all.len() implies #[trigger] spread@[i] == sample_time(
            *tz,
            all,
            i,
        ) && in_span_of_sample(*tz, all, i, spread@[i]) by {
            let m = lemma_sample_bucket(*tz, all, buckets@, spans@, i);
            assert(spread@[i] == spread_time(keys@, buckets@, spans@, i));
        }
    }
    *times = spread;
    true
}

/// The list after `item` was put behind the last item whose month is not
/// later than its own. Items are `(month, value)` pairs.
pub open spec fn insert_stable<T>(sorted: Seq<((i16, i8), T)>, item: ((i16, i8), T)) -> Seq<
    ((i16, i8), T),
>
    decreases sorted.len(),
{
    if sorted.len() == 0 {
        seq![item]
    } else if !key_before(item.0, sorted.last().0) {
        sorted.push(item)
    } else {
        insert_stable(sorted.drop_last(), item).push(sorted.last())
    }
}

/// The items in ascending order of their months, items of one month in the
/// order in which they stood.
pub open spec fn stable_sort<T>(items: Seq<((i16, i8), T)>) -> Seq<((i16, i8), T)>
    decreases items.len(),
{
    if items.len() == 0 {
        Seq::empty()
    } else {
        insert_stable(stable_sort(items.drop_last()), items.last())
    }
}

/// The items in descending order of their months, items of one month in the
/// order in which they stood: the list is turned round, sorted, and turned
/// round again.
pub open spec fn grouped_by_month<T>(items: Seq<((i16, i8), T)>) -> Seq<((i16, i8), T)> {
    stable_sort(items.reverse()).reverse()
}

/// Where an item goes: behind position `p`, when every item from `p` on has
/// a later month and the item before `p` has not.
proof fn lemma_insert_at<T>(sorted: Seq<((i16, i8), T)>, item: ((i16, i8), T), p: int)
    requires
        0 <= p <= sorted.len(),
        forall|q: int| p <= q < sorted.len() ==> key_before(item.0, sorted[q].0),
        p > 0 ==> !key_before(item.0, sorted[p - 1].0),
    ensures
        insert_stable(sorted, item) == sorted.take(p) + seq![item] + sorted.skip(p),
    decreases sorted.len(),
{
    if sorted.len() == 0 {
        assert(sorted.take(p) + seq![item] + sorted.skip(p) =~= seq![item]);
    } else if p == sorted.len() {
        assert(sorted.take(p) + seq![item] + sorted.skip(p) =~= sorted.push(item));
    } else {
        let rest = sorted.drop_last();
        assert(key_before(item.0, sorted[sorted.len() - 1].0));
        lemma_insert_at(rest, item, p);
        assert((rest.take(p) + seq![item] + rest.skip(p)).push(sorted.last()) =~= sorted.take(p)
            + seq![item] + sorted.skip(p));
    }
}

/// The commits with their months.
pub open spec fn keyed(keys: Seq<(i16, i8)>, commits: Seq<Commit>) -> Seq<((i16, i8), Commit)> {
    Seq::new(commits.len(), |i: int| (keys[i], commits[i]))
}

/// The commits of a list of `(month, commit)` pairs.
pub open spec fn unkeyed(items: Seq<((i16, i8), Commit)>) -> Seq<Commit> {
    items.map_values(|item: ((i16, i8), Commit)| item.1)
}

/// Orders commits by the months in `keys`, latest month first; commits of
/// one month keep their order.
pub fn order_by_month(keys: &Vec<(i16, i8)>, commits: &mut Vec<Commit>)
    requires
        keys.len() == old(commits).len(),
    ensures
        final(commits)@ == unkeyed(grouped_by_month(keyed(keys@, old(commits)@))),
{
    let ghost all = keyed(keys@, commits@);
    let ghost turned = all.reverse();
    let ghost n = commits.len();
    let mut sorted: Vec<((i16, i8), Commit)> = Vec::new();
    assert(turned.take(0) =~= Seq::<((i16, i8), Commit)>::empty());
    while commits.len() > 0
        invariant
            commits.len() <= n,
            n == keys.len(),
            all == keyed(keys@, old(commits)@),
            all.len() == n,
            turned == all.reverse(),
            commits@ == old(commits)@.take(commits.len() as int),
            sorted@ == stable_sort(turned.take(n - commits.len())),
        decreases commits.len(),
    {
        let ghost j = (n - commits.len()) as int;
        let at = commits.len() - 1;
        let key = keys[at];
        assert(old(commits)@.take(at + 1)[at as int] == old(commits)@[at as int]);
        match commits.pop() {
            Some(commit) => {
                let ghost item = (key, commit);
                assert(turned[j] == item);
                assert(commits@ =~= old(commits)@.take(at as int));
                assert(turned.take(j + 1).drop_last() =~= turned.take(j));
                assert(turned.take(j + 1).last() == item);
                let mut p: usize = sorted.len();
                while p > 0 && month_before(key, sorted[p - 1].0)
                    invariant
                        p <= sorted.len(),
                        forall|q: int| p <= q < sorted.len() ==> key_before(key, sorted[q].0),
                    decreases p,
                {
                    p -= 1;
                }
                proof {
                    lemma_insert_at(sorted@, item, p as int);
                }
                let ghost before = sorted@;
                sorted.insert(p, (key, commit));
                assert(sorted@ =~= before.take(p as int) + seq![item] + before.skip(p as int));
            },
            None => {},
        }
    }
    assert(turned.take(n as int) =~= turned);
    let ghost result = sorted@;
    while sorted.len() > 0
        invariant
            sorted.len() <= result.len(),
            sorted@ == result.take(sorted.len() as int),
            commits.len() == result.len() - sorted.len(),
            forall|q: int| 0 <= q < commits.len() ==> commits[q] == result[result.len() - 1 - q].1,
        decreases sorted.len(),
    {
        let ghost m = sorted.len();
        match sorted.pop() {
            Some(item) => {
                assert(item == result[m - 1]);
                assert(sorted@ =~= result.take(m - 1));
                commits.push(item.1);
            },
            None => {},
        }
    }
    assert(commits@ =~= unkeyed(result.reverse()));
}

/// The month of each commit's committer time in the time zone.
pub open spec fn commit_months(tz: TimeZone, commits: Seq<Commit>) -> Seq<(i16, i8)> {
    commits.map_values(|c: Commit| zone_month(tz, c.committer_time)->0)
}

/// The month of each commit's committer time in the time zone; `None` where
/// the calendar does not reach a commit.
pub fn months_of_commits(tz: &TimeZone, commits: &Vec<Commit>) -> (keys: Option<Vec<(i16, i8)>>)
    ensures
        match keys {
            Some(keys) => keys@ == commit_months(*tz, commits@) && forall|i: int|
                0 <= i < commits.len() ==> zone_month(*tz, (#[trigger] commits[i]).committer_time) is Some,
            None => exists|i: int|
                0 <= i < commits.len() && zone_month(*tz, (#[trigger] commits[i]).committer_time) is None,
        },
{
    let mut keys: Vec<(i16, i8)> = Vec::new();
    let mut i: usize = 0;
    while i < commits.len()
        invariant
            i <= commits.len(),
            keys.len() == i,
            forall|j: int|
                0 <= j < i ==> zone_month(*tz, (#[trigger] commits[j]).committer_time) == Some(keys[j]),
        decreases commits.len() - i,
    {
        match civil_month(tz, commits[i].committer_time) {
            Some(key) => keys.push(key),
            None => {
                assert(zone_month(*tz, commits[i as int].committer_time) is None);
                return None;
            },
        }
        i += 1;
    }
    assert(keys@ =~= commit_months(*tz, commits@));
    Some(keys)
}

/// Orders commits so that the commits of one calendar month stand together,
/// latest month first, however slightly out of order they were committed.
/// Commits of one month keep their order.
pub fn order_for_equidistance(tz: &TimeZone, commits: &mut Vec<Commit>)
    requires
        forall|i: int|
            0 <= i < old(commits).len() ==> zone_month(*tz, (#[trigger] old(commits)[i]).committer_time) is Some,
    ensures
        final(commits)@ == unkeyed(
            grouped_by_month(keyed(commit_months(*tz, old(commits)@), old(commits)@)),
        ),
{
    match months_of_commits(tz, commits) {
        Some(keys) => order_by_month(&keys, commits),
        None => {},
    }
}

/// As [`order_for_equidistance`], where the calendar reaches every commit;
/// else the commits stay as they are and `false` is returned.
pub fn try_order_for_equidistance(tz: &TimeZone, commits: &mut Vec<Commit>) -> (done: bool)
    ensures
        done == forall|i: int|
            0 <= i < old(commits).len() ==> zone_month(*tz, (#[trigger] old(commits)[i]).committer_time) is Some,
        done ==> final(commits)@ == unkeyed(
            grouped_by_month(keyed(commit_months(*tz, old(commits)@), old(commits)@)),
        ),
        !done ==> final(commits)@ == old(commits)@,
{
    match months_of_commits(tz, commits) {
        Some(keys) => {
            order_by_month(&keys, commits);
            true
        },
        None => false,
    }
}

} // verus!
