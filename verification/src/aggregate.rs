//! Turning a commit's tree into line counts per author or per year.
//!
//! The counts of one file are the same in every commit that shares the
//! file's identifier, so they are kept in a bounded cache and merged from
//! there wherever the identifier comes up again.

use crate::authors::{chain_ends, resolve, Authors};
use crate::blame::{BlameId, BlameIdView, BlameTree};
use crate::cache::{
    after_get, after_put, author_cache_get, author_cache_new, author_cache_put, author_cap,
    author_entries, author_pairs, id_key, key_index, lemma_cache_stays_bounded, lemma_key_index,
    year_cache_get,
    year_cache_new, year_cache_put, year_cap, year_entries, AuthorCache, KeyView, YearCache,
};
use crate::commit::CommitView;
use crate::exclude::{ignored_paths, is_ignored, plain_relative};
use crate::store::{Store, StoreView};
use crate::tally::{
    checked_sum_pairs, fits, lemma_checked_sum, lemma_sum_of_distinct_pairs,
    lemma_sum_pairs_merges, lemma_sum_pairs_push, lines_of, pair_keys, sum_pairs,
    tally_add, tally_merge, Key, Tally,
};
use crate::zone::{civil_month, zone_month};
use ignore::gitignore::Gitignore;
use jiff::tz::TimeZone;
use vstd::prelude::*;

verus! {

/// Why a tree could not be counted.
#[derive(Debug, PartialEq, Eq)]
pub enum CountError {
    /// The store holds no authorship record for an identifier of the tree.
    MissingBlame(BlameId),
    /// An authorship record names a commit that the store does not hold.
    MissingCommit(String),
    /// The author time of a commit is out of the calendar's reach.
    TimeOutOfRange(String),
    /// A count no longer fits in 64 bits.
    Overflow,
}

/// The mathematical value of a [`CountError`].
pub enum CountErrorView {
    MissingBlame(BlameIdView),
    MissingCommit(Seq<char>),
    TimeOutOfRange(Seq<char>),
    Overflow,
}

impl View for CountError {
    type V = CountErrorView;

    open spec fn view(&self) -> CountErrorView {
        match self {
            CountError::MissingBlame(id) => CountErrorView::MissingBlame(id@),
            CountError::MissingCommit(hash) => CountErrorView::MissingCommit(hash@),
            CountError::TimeOutOfRange(hash) => CountErrorView::TimeOutOfRange(hash@),
            CountError::Overflow => CountErrorView::Overflow,
        }
    }
}

/// The tally `acc` after the lines of one authorship record were counted,
/// each under the bucket of the commit it goes back to. Counting stops at the
/// first line whose commit is missing or has no bucket, or whose count would
/// overflow.
pub open spec fn count_lines<KV>(
    commits: Map<Seq<char>, CommitView>,
    bucket: spec_fn(CommitView) -> Option<KV>,
    lines: Seq<(Seq<char>, u64)>,
    acc: Map<KV, nat>,
) -> Result<Map<KV, nat>, CountErrorView>
    decreases lines.len(),
{
    if lines.len() == 0 {
        Ok(acc)
    } else if !commits.contains_key(lines[0].0) {
        Err(CountErrorView::MissingCommit(lines[0].0))
    } else {
        match bucket(commits[lines[0].0]) {
            None => Err(CountErrorView::TimeOutOfRange(lines[0].0)),
            Some(k) => if lines_of(acc, k) + lines[0].1 > u64::MAX {
                Err(CountErrorView::Overflow)
            } else {
                count_lines(commits, bucket, lines.drop_first(), tally_add(acc, k, lines[0].1 as nat))
            },
        }
    }
}

/// The tally `acc` after the files of a tree were counted in order, the
/// ignored ones left out. Counting stops at the first file without a record,
/// or inside the first record that cannot be counted.
pub open spec fn count_entries<KV>(
    store: StoreView,
    bucket: spec_fn(CommitView) -> Option<KV>,
    ignored: Set<Seq<char>>,
    entries: Seq<BlameIdView>,
    acc: Map<KV, nat>,
) -> Result<Map<KV, nat>, CountErrorView>
    decreases entries.len(),
{
    if entries.len() == 0 {
        Ok(acc)
    } else if ignored.contains(entries[0].path) {
        count_entries(store, bucket, ignored, entries.drop_first(), acc)
    } else if !store.blames.contains_key(entries[0]) {
        Err(CountErrorView::MissingBlame(entries[0]))
    } else {
        match count_lines(store.commits, bucket, store.blames[entries[0]], acc) {
            Err(e) => Err(e),
            Ok(next) => count_entries(store, bucket, ignored, entries.drop_first(), next),
        }
    }
}

/// The lines of a record as `(bucket, lines)` pairs; `None` where a commit is
/// missing or has no bucket.
pub open spec fn bucketed<KV>(
    commits: Map<Seq<char>, CommitView>,
    bucket: spec_fn(CommitView) -> Option<KV>,
    lines: Seq<(Seq<char>, u64)>,
) -> Option<Seq<(KV, u64)>>
    decreases lines.len(),
{
    if lines.len() == 0 {
        Some(Seq::empty())
    } else if !commits.contains_key(lines[0].0) {
        None
    } else {
        match bucket(commits[lines[0].0]) {
            None => None,
            Some(k) => match bucketed(commits, bucket, lines.drop_first()) {
                None => None,
                Some(rest) => Some(seq![(k, lines[0].1)] + rest),
            },
        }
    }
}

/// Counting a record whose commits all have buckets is adding up its
/// bucketed pairs with overflow checks.
pub proof fn lemma_count_lines_bucketed<KV>(
    commits: Map<Seq<char>, CommitView>,
    bucket: spec_fn(CommitView) -> Option<KV>,
    lines: Seq<(Seq<char>, u64)>,
    acc: Map<KV, nat>,
)
    requires
        bucketed(commits, bucket, lines) is Some,
    ensures
        count_lines(commits, bucket, lines, acc) == match checked_sum_pairs(
            bucketed(commits, bucket, lines)->0,
            acc,
        ) {
            Some(t) => Ok::<Map<KV, nat>, CountErrorView>(t),
            None => Err(CountErrorView::Overflow),
        },
    decreases lines.len(),
{
    if lines.len() > 0 {
        let k = bucket(commits[lines[0].0])->0;
        let rest = bucketed(commits, bucket, lines.drop_first())->0;
        let pairs = bucketed(commits, bucket, lines)->0;
        assert(pairs == seq![(k, lines[0].1)] + rest);
        assert(pairs[0] == (k, lines[0].1));
        assert(pairs.drop_first() =~= rest);
        if lines_of(acc, k) + lines[0].1 <= u64::MAX {
            lemma_count_lines_bucketed(
                commits,
                bucket,
                lines.drop_first(),
                tally_add(acc, k, lines[0].1 as nat),
            );
        }
    }
}

/// Two lists of pairs that add up to the same tally from nothing behave
/// alike on top of any tally that fits.
pub proof fn lemma_same_sum_same_count<KV>(a: Seq<(KV, u64)>, b: Seq<(KV, u64)>, acc: Map<KV, nat>)
    requires
        fits(acc),
        sum_pairs(a, Map::empty()) == sum_pairs(b, Map::empty()),
    ensures
        checked_sum_pairs(a, acc) == checked_sum_pairs(b, acc),
{
    lemma_checked_sum(a, acc);
    lemma_checked_sum(b, acc);
    lemma_sum_pairs_merges(a, acc);
    lemma_sum_pairs_merges(b, acc);
}

/// A file can be counted: it is excluded, or the store holds its record and
/// every commit of the record has a bucket.
pub open spec fn entry_countable<KV>(
    store: StoreView,
    bucket: spec_fn(CommitView) -> Option<KV>,
    ignored: Set<Seq<char>>,
    id: BlameIdView,
) -> bool {
    ignored.contains(id.path) || (store.blames.contains_key(id) && bucketed(
        store.commits,
        bucket,
        store.blames[id],
    ) is Some)
}

/// The lines of one file per bucket; none for an excluded file.
pub open spec fn entry_sum<KV>(
    store: StoreView,
    bucket: spec_fn(CommitView) -> Option<KV>,
    ignored: Set<Seq<char>>,
    id: BlameIdView,
) -> Map<KV, nat> {
    if ignored.contains(id.path) {
        Map::empty()
    } else {
        sum_pairs(bucketed(store.commits, bucket, store.blames[id])->0, Map::empty())
    }
}

/// The lines of the files of a tree per bucket, without regard to limits.
pub open spec fn tree_sum<KV>(
    store: StoreView,
    bucket: spec_fn(CommitView) -> Option<KV>,
    ignored: Set<Seq<char>>,
    entries: Seq<BlameIdView>,
) -> Map<KV, nat>
    decreases entries.len(),
{
    if entries.len() == 0 {
        Map::empty()
    } else {
        tally_merge(
            entry_sum(store, bucket, ignored, entries[0]),
            tree_sum(store, bucket, ignored, entries.drop_first()),
        )
    }
}

/// A record with a commit that is missing or has no bucket cannot be
/// counted.
pub proof fn lemma_unbucketed_fails<KV>(
    commits: Map<Seq<char>, CommitView>,
    bucket: spec_fn(CommitView) -> Option<KV>,
    lines: Seq<(Seq<char>, u64)>,
    acc: Map<KV, nat>,
)
    requires
        bucketed(commits, bucket, lines) is None,
    ensures
        count_lines(commits, bucket, lines, acc) is Err,
    decreases lines.len(),
{
    if lines.len() > 0 && commits.contains_key(lines[0].0) {
        match bucket(commits[lines[0].0]) {
            None => {},
            Some(k) => {
                if lines_of(acc, k) + lines[0].1 <= u64::MAX {
                    lemma_unbucketed_fails(
                        commits,
                        bucket,
                        lines.drop_first(),
                        tally_add(acc, k, lines[0].1 as nat),
                    );
                }
            },
        }
    }
}

/// A tally that fits with more merged into it fits with less.
pub proof fn lemma_fits_part<KV>(a: Map<KV, nat>, b: Map<KV, nat>, c: Map<KV, nat>)
    requires
        fits(tally_merge(a, tally_merge(b, c))),
    ensures
        fits(tally_merge(a, b)),
{
    let whole = tally_merge(a, tally_merge(b, c));
    let part = tally_merge(a, b);
    assert forall|k: KV| part.contains_key(k) implies #[trigger] part[k] <= u64::MAX by {
        assert(whole.contains_key(k));
        assert(whole[k] <= u64::MAX);
    }
}

/// Counting a tree succeeds exactly where every file can be counted and the
/// sums fit, and then it gives the sums: what was counted before, merged
/// with the lines of the tree per bucket.
pub proof fn lemma_count_entries_sum<KV>(
    store: StoreView,
    bucket: spec_fn(CommitView) -> Option<KV>,
    ignored: Set<Seq<char>>,
    entries: Seq<BlameIdView>,
    acc: Map<KV, nat>,
)
    requires
        fits(acc),
    ensures
        count_entries(store, bucket, ignored, entries, acc) is Ok <==> (forall|i: int|
            0 <= i < entries.len() ==> entry_countable(store, bucket, ignored, #[trigger] entries[i]))
            && fits(tally_merge(acc, tree_sum(store, bucket, ignored, entries))),
        count_entries(store, bucket, ignored, entries, acc) is Ok ==> count_entries(
            store,
            bucket,
            ignored,
            entries,
            acc,
        ) == Ok::<Map<KV, nat>, CountErrorView>(
            tally_merge(acc, tree_sum(store, bucket, ignored, entries)),
        ),
    decreases entries.len(),
{
    let empty = Map::<KV, nat>::empty();
    if entries.len() == 0 {
        assert(tally_merge(acc, empty) =~= acc);
    } else {
        let x = entries[0];
        let rest = entries.drop_first();
        let own = entry_sum(store, bucket, ignored, x);
        let below = tree_sum(store, bucket, ignored, rest);
        let all_rest = forall|i: int|
            0 <= i < rest.len() ==> entry_countable(store, bucket, ignored, #[trigger] rest[i]);
        let all = forall|i: int|
            0 <= i < entries.len() ==> entry_countable(store, bucket, ignored, #[trigger] entries[i]);
        assert(all ==> all_rest) by {
            if all {
                assert forall|i: int| 0 <= i < rest.len() implies entry_countable(
                    store,
                    bucket,
                    ignored,
                    #[trigger] rest[i],
                ) by {
                    assert(rest[i] == entries[i + 1]);
                }
            }
        }
        assert(all_rest && entry_countable(store, bucket, ignored, x) ==> all) by {
            if all_rest && entry_countable(store, bucket, ignored, x) {
                assert forall|i: int| 0 <= i < entries.len() implies entry_countable(
                    store,
                    bucket,
                    ignored,
                    #[trigger] entries[i],
                ) by {
                    if i > 0 {
                        assert(entries[i] == rest[i - 1]);
                    }
                }
            }
        }
        assert(all ==> entry_countable(store, bucket, ignored, entries[0]));
        if ignored.contains(x.path) {
            lemma_count_entries_sum(store, bucket, ignored, rest, acc);
            assert(tally_merge(empty, below) =~= below);
        } else if !store.blames.contains_key(x) {
        } else {
            let lines = store.blames[x];
            if bucketed(store.commits, bucket, lines) is None {
                lemma_unbucketed_fails(store.commits, bucket, lines, acc);
            } else {
                let pairs = bucketed(store.commits, bucket, lines)->0;
                lemma_count_lines_bucketed(store.commits, bucket, lines, acc);
                lemma_checked_sum(pairs, acc);
                lemma_sum_pairs_merges(pairs, acc);
                let next = tally_merge(acc, own);
                assert(sum_pairs(pairs, acc) == next);
                assert(tally_merge(next, below) =~= tally_merge(acc, tally_merge(own, below)));
                if fits(next) {
                    lemma_count_entries_sum(store, bucket, ignored, rest, next);
                } else {
                    if fits(tally_merge(acc, tally_merge(own, below))) {
                        lemma_fits_part(acc, own, below);
                    }
                }
            }
        }
    }
}

/// The lines of a tree per bucket are those of any one of its files merged
/// with those of the others.
pub proof fn lemma_tree_sum_remove<KV>(
    store: StoreView,
    bucket: spec_fn(CommitView) -> Option<KV>,
    ignored: Set<Seq<char>>,
    entries: Seq<BlameIdView>,
    j: int,
)
    requires
        0 <= j < entries.len(),
    ensures
        tree_sum(store, bucket, ignored, entries) == tally_merge(
            entry_sum(store, bucket, ignored, entries[j]),
            tree_sum(store, bucket, ignored, entries.remove(j)),
        ),
    decreases entries.len(),
{
    if j == 0 {
        assert(entries.remove(0) =~= entries.drop_first());
    } else {
        let rest = entries.drop_first();
        lemma_tree_sum_remove(store, bucket, ignored, rest, j - 1);
        assert(entries.remove(j).drop_first() =~= rest.remove(j - 1));
        assert(entries.remove(j)[0] == entries[0]);
        assert(rest[j - 1] == entries[j]);
        let first = entry_sum(store, bucket, ignored, entries[0]);
        let picked = entry_sum(store, bucket, ignored, entries[j]);
        let others = tree_sum(store, bucket, ignored, rest.remove(j - 1));
        assert(tally_merge(first, tally_merge(picked, others)) =~= tally_merge(
            picked,
            tally_merge(first, others),
        ));
    }
}

/// The lines of a tree per bucket do not depend on the order of its files.
pub proof fn lemma_tree_sum_any_order<KV>(
    store: StoreView,
    bucket: spec_fn(CommitView) -> Option<KV>,
    ignored: Set<Seq<char>>,
    a: Seq<BlameIdView>,
    b: Seq<BlameIdView>,
)
    requires
        a.to_multiset() == b.to_multiset(),
    ensures
        tree_sum(store, bucket, ignored, a) == tree_sum(store, bucket, ignored, b),
    decreases a.len(),
{
    a.to_multiset_ensures();
    b.to_multiset_ensures();
    if a.len() == 0 {
        assert(b.len() == 0);
    } else {
        let x = a[0];
        assert(a.contains(x));
        assert(b.to_multiset().count(x) > 0);
        assert(b.contains(x));
        let j = choose|j: int| 0 <= j < b.len() && b[j] == x;
        assert(a.remove(0) =~= a.drop_first());
        assert(a.remove(0).to_multiset() =~= a.to_multiset().remove(a[0]));
        assert(b.remove(j).to_multiset() =~= b.to_multiset().remove(b[j]));
        lemma_tree_sum_any_order(store, bucket, ignored, a.drop_first(), b.remove(j));
        lemma_tree_sum_remove(store, bucket, ignored, b, j);
    }
}

/// The totals of a tree do not depend on the order in which its files are
/// counted: where counting succeeds for one order, it gives the same totals
/// for every other.
pub proof fn lemma_count_any_order<KV>(
    store: StoreView,
    bucket: spec_fn(CommitView) -> Option<KV>,
    ignored: Set<Seq<char>>,
    a: Seq<BlameIdView>,
    b: Seq<BlameIdView>,
    acc: Map<KV, nat>,
)
    requires
        fits(acc),
        a.to_multiset() == b.to_multiset(),
        count_entries(store, bucket, ignored, a, acc) is Ok,
    ensures
        count_entries(store, bucket, ignored, b, acc) == count_entries(store, bucket, ignored, a, acc),
{
    a.to_multiset_ensures();
    b.to_multiset_ensures();
    lemma_count_entries_sum(store, bucket, ignored, a, acc);
    lemma_count_entries_sum(store, bucket, ignored, b, acc);
    lemma_tree_sum_any_order(store, bucket, ignored, a, b);
    assert forall|i: int| 0 <= i < b.len() implies entry_countable(
        store,
        bucket,
        ignored,
        #[trigger] b[i],
    ) by {
        assert(b.contains(b[i]));
        assert(a.to_multiset().count(b[i]) > 0);
        assert(a.contains(b[i]));
        let k = choose|k: int| 0 <= k < a.len() && a[k] == b[i];
        assert(entry_countable(store, bucket, ignored, a[k]));
    }
}

/// The identifier that a cache key stands for.
pub open spec fn key_id(key: KeyView) -> BlameIdView {
    BlameIdView { commit: key.0, blob: key.1, path: key.2 }
}

/// A cache entry agrees with the store: the store holds the record of the
/// entry's identifier, every commit of the record has a bucket, and the
/// cached pairs add up to what the record adds up to.
pub open spec fn entry_agrees<KV>(
    store: StoreView,
    bucket: spec_fn(CommitView) -> Option<KV>,
    key: KeyView,
    pairs: Seq<(KV, u64)>,
) -> bool {
    &&& store.blames.contains_key(key_id(key))
    &&& bucketed(store.commits, bucket, store.blames[key_id(key)]) is Some
    &&& sum_pairs(pairs, Map::empty()) == sum_pairs(
        bucketed(store.commits, bucket, store.blames[key_id(key)])->0,
        Map::empty(),
    )
}

/// Every entry of a cache agrees with the store.
pub open spec fn entries_agree<KV>(
    store: StoreView,
    bucket: spec_fn(CommitView) -> Option<KV>,
    entries: Seq<(KeyView, Seq<(KV, u64)>)>,
) -> bool {
    forall|i: int|
        0 <= i < entries.len() ==> entry_agrees(store, bucket, (#[trigger] entries[i]).0, entries[i].1)
}

/// A lookup moves entries around and changes none.
pub proof fn lemma_agree_after_get<KV>(
    store: StoreView,
    bucket: spec_fn(CommitView) -> Option<KV>,
    entries: Seq<(KeyView, Seq<(KV, u64)>)>,
    key: KeyView,
)
    requires
        entries_agree(store, bucket, entries),
    ensures
        entries_agree(store, bucket, after_get(entries, key)),
{
    lemma_key_index(entries, key);
    let i = key_index(entries, key);
    let after = after_get(entries, key);
    assert forall|j: int| 0 <= j < after.len() implies entry_agrees(
        store,
        bucket,
        (#[trigger] after[j]).0,
        after[j].1,
    ) by {
        if i < entries.len() {
            if j == 0 {
                assert(after[j] == entries[i]);
            } else if j - 1 < i {
                assert(after[j] == entries[j - 1]);
            } else {
                assert(after[j] == entries[j]);
            }
        }
    }
}

/// Putting an entry that agrees with the store into a cache whose entries
/// agree leaves a cache whose entries agree.
pub proof fn lemma_agree_after_put<KV>(
    store: StoreView,
    bucket: spec_fn(CommitView) -> Option<KV>,
    entries: Seq<(KeyView, Seq<(KV, u64)>)>,
    cap: nat,
    key: KeyView,
    pairs: Seq<(KV, u64)>,
)
    requires
        entries_agree(store, bucket, entries),
        entry_agrees(store, bucket, key, pairs),
    ensures
        entries_agree(store, bucket, after_put(entries, cap, key, pairs)),
{
    lemma_key_index(entries, key);
    let i = key_index(entries, key);
    let after = after_put(entries, cap, key, pairs);
    assert forall|j: int| 0 <= j < after.len() implies entry_agrees(
        store,
        bucket,
        (#[trigger] after[j]).0,
        after[j].1,
    ) by {
        if j == 0 {
            assert(after[j] == (key, pairs));
        } else if i < entries.len() {
            if j - 1 < i {
                assert(after[j] == entries[j - 1]);
            } else {
                assert(after[j] == entries[j]);
            }
        } else {
            assert(after[j] == entries[j - 1]);
        }
    }
}

/// What the store holds stays what it is when the store grows, so a cache
/// that agreed before a write still agrees after it.
pub proof fn lemma_agree_after_growth<KV>(
    before: StoreView,
    after: StoreView,
    bucket: spec_fn(CommitView) -> Option<KV>,
    entries: Seq<(KeyView, Seq<(KV, u64)>)>,
)
    requires
        entries_agree(before, bucket, entries),
        forall|id: BlameIdView| #[trigger]
            before.blames.contains_key(id) ==> after.blames.contains_key(id) && after.blames[id]
                == before.blames[id],
        forall|hash: Seq<char>| #[trigger]
            before.commits.contains_key(hash) ==> after.commits.contains_key(hash)
                && after.commits[hash] == before.commits[hash],
    ensures
        entries_agree(after, bucket, entries),
{
    assert forall|i: int| 0 <= i < entries.len() implies entry_agrees(
        after,
        bucket,
        (#[trigger] entries[i]).0,
        entries[i].1,
    ) by {
        let id = key_id(entries[i].0);
        assert(entry_agrees(before, bucket, entries[i].0, entries[i].1));
        lemma_bucketed_after_growth(before.commits, after.commits, bucket, before.blames[id]);
    }
}

/// A record that could be bucketed can be bucketed alike once more commits
/// are known.
pub proof fn lemma_bucketed_after_growth<KV>(
    before: Map<Seq<char>, CommitView>,
    after: Map<Seq<char>, CommitView>,
    bucket: spec_fn(CommitView) -> Option<KV>,
    lines: Seq<(Seq<char>, u64)>,
)
    requires
        bucketed(before, bucket, lines) is Some,
        forall|hash: Seq<char>| #[trigger]
            before.contains_key(hash) ==> after.contains_key(hash) && after[hash] == before[hash],
    ensures
        bucketed(after, bucket, lines) == bucketed(before, bucket, lines),
    decreases lines.len(),
{
    if lines.len() > 0 {
        assert(before.contains_key(lines[0].0));
        lemma_bucketed_after_growth(before, after, bucket, lines.drop_first());
    }
}

/// Takes the count of one commit into the counts of a history: a count
/// that was had is appended, and a count that failed ends the whole run
/// with its error, since a chart of a part of the history would mislead.
pub fn keep_count<K: Key>(counts: &mut Vec<Tally<K>>, count: Result<Tally<K>, CountError>) -> (res: Result<
    (),
    CountError,
>)
    ensures
        match count {
            Ok(tally) => res is Ok && final(counts)@ == old(counts)@.push(tally),
            Err(e) => res == Err::<(), CountError>(e) && final(counts)@ == old(counts)@,
        },
{
    match count {
        Ok(tally) => {
            counts.push(tally);
            Ok(())
        },
        Err(e) => Err(e),
    }
}

/// Counts every pair of `pairs` into `count`. Where a count would overflow,
/// counting stops and `false` is returned.
pub fn merge_pairs<K: Key>(count: &mut Tally<K>, pairs: &Vec<(K, u64)>) -> (done: bool)
    requires
        old(count).wf(),
    ensures
        final(count).wf(),
        match checked_sum_pairs(pair_keys(pairs@), old(count)@) {
            Some(t) => done && final(count)@ == t,
            None => !done,
        },
{
    let ghost all = pair_keys(pairs@);
    let ghost start = count@;
    let mut i: usize = 0;
    assert(all.skip(0) =~= all);
    while i < pairs.len()
        invariant
            i <= pairs.len(),
            count.wf(),
            all == pair_keys(pairs@),
            start == old(count)@,
            checked_sum_pairs(all, start) == checked_sum_pairs(all.skip(i as int), count@),
        decreases pairs.len() - i,
    {
        let ghost rest = all.skip(i as int);
        assert(rest[0] == (pairs[i as int].0.key(), pairs[i as int].1));
        assert(rest.drop_first() =~= all.skip(i + 1));
        let ghost before = count@;
        if !count.add(&pairs[i].0, pairs[i].1) {
            assert(checked_sum_pairs(rest, before) is None);
            return false;
        }
        i += 1;
    }
    true
}

/// The bucket of a commit when counting per author: the canonical name of
/// its author, by mail address or by name.
pub open spec fn author_bucket(authors: Map<Seq<char>, Seq<char>>, use_email: bool) -> spec_fn(
    CommitView,
) -> Option<Seq<char>> {
    |c: CommitView|
        Some(
            resolve(
                authors,
                if use_email {
                    c.author_mail
                } else {
                    c.author
                },
            ),
        )
}

/// The entries of a cache of per-author tallies agree with the store.
pub open spec fn author_cache_agrees(
    cache: AuthorCache,
    store: StoreView,
    authors: Map<Seq<char>, Seq<char>>,
    use_email: bool,
) -> bool {
    entries_agree(store, author_bucket(authors, use_email), author_entries(cache))
}

/// An empty cache of per-author tallies that holds at most `cap` entries.
pub fn new_author_cache(cap: usize) -> (cache: AuthorCache)
    requires
        cap > 0,
    ensures
        author_entries(cache).len() == 0,
        author_cap(cache) == cap,
        forall|store: StoreView, authors: Map<Seq<char>, Seq<char>>, use_email: bool|
            author_cache_agrees(cache, store, authors, use_email),
{
    author_cache_new(cap)
}

/// Counts the lines of one record into `count`, and on their own into a
/// tally that is returned.
fn count_record_authors(
    store: &Store,
    authors: &Authors,
    use_email: bool,
    lines: &Vec<(String, u64)>,
    count: &mut Tally<String>,
) -> (res: Result<Tally<String>, CountError>)
    requires
        old(count).wf(),
        forall|x: Seq<char>| chain_ends(authors@, x),
    ensures
        final(count).wf(),
        match res {
            Ok(own) => {
                &&& own.wf()
                &&& count_lines(
                    store@.commits,
                    author_bucket(authors@, use_email),
                    crate::blame::line_views(lines@),
                    old(count)@,
                ) == Ok::<Map<Seq<char>, nat>, CountErrorView>(final(count)@)
                &&& bucketed(
                    store@.commits,
                    author_bucket(authors@, use_email),
                    crate::blame::line_views(lines@),
                ) is Some
                &&& own@ == sum_pairs(
                    bucketed(
                        store@.commits,
                        author_bucket(authors@, use_email),
                        crate::blame::line_views(lines@),
                    )->0,
                    Map::empty(),
                )
            },
            Err(e) => count_lines(
                store@.commits,
                author_bucket(authors@, use_email),
                crate::blame::line_views(lines@),
                old(count)@,
            ) == Err::<Map<Seq<char>, nat>, CountErrorView>(e@),
        },
{
    let ghost commits = store@.commits;
    let ghost bucket = author_bucket(authors@, use_email);
    let ghost all = crate::blame::line_views(lines@);
    let ghost start = count@;
    let ghost mut done: Seq<(Seq<char>, u64)> = Seq::empty();
    let mut own: Tally<String> = Tally::new();
    let mut i: usize = 0;
    assert(all.skip(0) =~= all);
    assert(done + bucketed(commits, bucket, all)->0 =~= bucketed(commits, bucket, all)->0);
    while i < lines.len()
        invariant
            i <= lines.len(),
            count.wf(),
            own.wf(),
            commits == store@.commits,
            bucket == author_bucket(authors@, use_email),
            all == crate::blame::line_views(lines@),
            start == old(count)@,
            forall|x: Seq<char>| chain_ends(authors@, x),
            count_lines(commits, bucket, all, start) == count_lines(
                commits,
                bucket,
                all.skip(i as int),
                count@,
            ),
            bucketed(commits, bucket, all) == match bucketed(commits, bucket, all.skip(i as int)) {
                Some(rest) => Some(done + rest),
                None => None,
            },
            own@ == sum_pairs(done, Map::empty()),
            forall|k: Seq<char>| lines_of(own@, k) <= lines_of(count@, k),
        decreases lines.len() - i,
    {
        let ghost rest = all.skip(i as int);
        assert(rest[0] == (lines[i as int].0@, lines[i as int].1));
        assert(rest.drop_first() =~= all.skip(i + 1));
        let commit = match store.load_commit(&lines[i].0) {
            Ok(commit) => commit,
            Err(_) => {
                assert(count_lines(commits, bucket, rest, count@) == Err::<
                    Map<Seq<char>, nat>,
                    CountErrorView,
                >(CountErrorView::MissingCommit(rest[0].0)));
                return Err(CountError::MissingCommit(lines[i].0.clone()));
            },
        };
        let name = if use_email {
            &commit.author_mail
        } else {
            &commit.author
        };
        let author = authors.get(name.as_str());
        let amount = lines[i].1;
        assert(bucket(commits[rest[0].0]) == Some(author@));
        let ghost before_count = count@;
        let ghost before_own = own@;
        if !count.add(&author, amount) {
            assert(count_lines(commits, bucket, rest, before_count) == Err::<
                Map<Seq<char>, nat>,
                CountErrorView,
            >(CountErrorView::Overflow));
            return Err(CountError::Overflow);
        }
        let fitted = own.add(&author, amount);
        assert(fitted) by {
            assert(lines_of(before_own, author@) <= lines_of(before_count, author@));
        }
        proof {
            lemma_sum_pairs_push(done, (author@, amount), Map::empty());
            let tail = bucketed(commits, bucket, all.skip(i + 1));
            if tail is Some {
                assert(done.push((author@, amount)) + tail->0 =~= done + (seq![(author@, amount)]
                    + tail->0));
            }
            done = done.push((author@, amount));
            assert forall|k: Seq<char>| lines_of(own@, k) <= lines_of(count@, k) by {
                assert(lines_of(before_own, k) <= lines_of(before_count, k));
            }
        }
        i += 1;
    }
    proof {
        assert(all.skip(i as int).len() == 0);
        assert(done + Seq::<(Seq<char>, u64)>::empty() =~= done);
    }
    Ok(own)
}

/// The lines of a tree per canonical author.
///
/// Files that the matcher excludes are left out. The counts of a file are
/// taken from the cache where it holds them, and computed from the store and
/// put into the cache where it does not; the result is the same either way.
pub fn count_authors(
    store: &Store,
    cache: &mut AuthorCache,
    ignore: &Gitignore,
    authors: &Authors,
    tree: &BlameTree,
    use_email: bool,
) -> (res: Result<Tally<String>, CountError>)
    requires
        forall|x: Seq<char>| chain_ends(authors@, x),
        forall|i: int| 0 <= i < tree@.blames.len() ==> plain_relative(#[trigger] tree@.blames[i].path),
        author_cache_agrees(*old(cache), store@, authors@, use_email),
    ensures
        author_cache_agrees(*final(cache), store@, authors@, use_email),
        author_cap(*final(cache)) == author_cap(*old(cache)),
        1 <= author_cap(*old(cache)) && author_entries(*old(cache)).len() <= author_cap(*old(cache))
            ==> author_entries(*final(cache)).len() <= author_cap(*old(cache)),
        match res {
            Ok(count) => count.wf() && count_entries(
                store@,
                author_bucket(authors@, use_email),
                ignored_paths(*ignore),
                tree@.blames,
                Map::empty(),
            ) == Ok::<Map<Seq<char>, nat>, CountErrorView>(count@),
            Err(e) => count_entries(
                store@,
                author_bucket(authors@, use_email),
                ignored_paths(*ignore),
                tree@.blames,
                Map::empty(),
            ) == Err::<Map<Seq<char>, nat>, CountErrorView>(e@),
        },
{
    let ghost bucket = author_bucket(authors@, use_email);
    let ghost ignored = ignored_paths(*ignore);
    let ghost all = tree@.blames;
    let ghost empty = Map::<Seq<char>, nat>::empty();
    let ghost cap = author_cap(*cache);
    let mut count: Tally<String> = Tally::new();
    let mut i: usize = 0;
    assert(all.skip(0) =~= all);
    while i < tree.blames.len()
        invariant
            i <= tree.blames.len(),
            count.wf(),
            bucket == author_bucket(authors@, use_email),
            ignored == ignored_paths(*ignore),
            all == tree@.blames,
            empty == Map::<Seq<char>, nat>::empty(),
            cap == author_cap(*cache),
            cap == author_cap(*old(cache)),
            1 <= cap && author_entries(*old(cache)).len() <= cap ==> author_entries(*cache).len() <= cap,
            forall|x: Seq<char>| chain_ends(authors@, x),
            forall|j: int| 0 <= j < all.len() ==> plain_relative(#[trigger] all[j].path),
            entries_agree(store@, bucket, author_entries(*cache)),
            count_entries(store@, bucket, ignored, all, empty) == count_entries(
                store@,
                bucket,
                ignored,
                all.skip(i as int),
                count@,
            ),
        decreases tree.blames.len() - i,
    {
        let id = &tree.blames[i];
        let ghost rest = all.skip(i as int);
        assert(rest[0] == id@);
        assert(all[i as int] == id@);
        assert(rest.drop_first() =~= all.skip(i + 1));
        if is_ignored(ignore, id.path.as_str()) {
            i += 1;
            continue ;
        }
        let ghost entries = author_entries(*cache);
        let ghost before = count@;
        proof {
            lemma_key_index(entries, id_key(id@));
            lemma_agree_after_get(store@, bucket, entries, id_key(id@));
            count.lemma_fits();
            if cap >= 1 {
                lemma_cache_stays_bounded(entries, cap, id_key(id@), Seq::<(Seq<char>, u64)>::empty());
            }
        }
        match author_cache_get(cache, id) {
            Some(pairs) => {
                proof {
                    let at = key_index(entries, id_key(id@));
                    assert(entry_agrees(store@, bucket, entries[at].0, entries[at].1));
                    assert(key_id(id_key(id@)) == id@);
                    assert(pair_keys(pairs@) =~= author_pairs(pairs@));
                    let lines = store@.blames[id@];
                    let record = bucketed(store@.commits, bucket, lines)->0;
                    lemma_same_sum_same_count(pair_keys(pairs@), record, before);
                    lemma_count_lines_bucketed(store@.commits, bucket, lines, before);
                }
                if !merge_pairs(&mut count, pairs) {
                    return Err(CountError::Overflow);
                }
            },
            None => {
                let blame = match store.load_blame(id) {
                    Ok(blame) => blame,
                    Err(_) => {
                        return Err(CountError::MissingBlame(id.clone()));
                    },
                };
                let own = match count_record_authors(
                    store,
                    authors,
                    use_email,
                    &blame.lines_by_commit,
                    &mut count,
                ) {
                    Ok(own) => own,
                    Err(e) => {
                        return Err(e);
                    },
                };
                let pairs = own.into_pairs();
                proof {
                    assert(pair_keys(pairs@) =~= author_pairs(pairs@));
                    lemma_sum_of_distinct_pairs(pair_keys(pairs@));
                    assert(key_id(id_key(id@)) == id@);
                    assert(entry_agrees(store@, bucket, id_key(id@), author_pairs(pairs@)));
                    lemma_agree_after_put(
                        store@,
                        bucket,
                        author_entries(*cache),
                        cap,
                        id_key(id@),
                        author_pairs(pairs@),
                    );
                    if cap >= 1 {
                        lemma_cache_stays_bounded(
                            author_entries(*cache),
                            cap,
                            id_key(id@),
                            author_pairs(pairs@),
                        );
                    }
                }
                author_cache_put(cache, id.clone(), pairs);
            },
        }
        i += 1;
    }
    Ok(count)
}

/// The bucket of a commit when counting per year: the calendar year of its
/// author time in the time zone.
pub open spec fn year_bucket(tz: TimeZone) -> spec_fn(CommitView) -> Option<i16> {
    |c: CommitView|
        match zone_month(tz, c.author_time) {
            Some(month) => Some(month.0),
            None => None,
        }
}

/// The entries of a cache of per-year tallies agree with the store.
pub open spec fn year_cache_agrees(cache: YearCache, store: StoreView, tz: TimeZone) -> bool {
    entries_agree(store, year_bucket(tz), year_entries(cache))
}

/// An empty cache of per-year tallies that holds at most `cap` entries.
pub fn new_year_cache(cap: usize) -> (cache: YearCache)
    requires
        cap > 0,
    ensures
        year_entries(cache).len() == 0,
        year_cap(cache) == cap,
        forall|store: StoreView, tz: TimeZone| year_cache_agrees(cache, store, tz),
{
    year_cache_new(cap)
}

/// Counts the lines of one record into `count`, and on their own into a
/// tally that is returned.
fn count_record_years(
    store: &Store,
    tz: &TimeZone,
    lines: &Vec<(String, u64)>,
    count: &mut Tally<i16>,
) -> (res: Result<Tally<i16>, CountError>)
    requires
        old(count).wf(),
    ensures
        final(count).wf(),
        match res {
            Ok(own) => {
                &&& own.wf()
                &&& count_lines(
                    store@.commits,
                    year_bucket(*tz),
                    crate::blame::line_views(lines@),
                    old(count)@,
                ) == Ok::<Map<i16, nat>, CountErrorView>(final(count)@)
                &&& bucketed(store@.commits, year_bucket(*tz), crate::blame::line_views(lines@)) is Some
                &&& own@ == sum_pairs(
                    bucketed(store@.commits, year_bucket(*tz), crate::blame::line_views(lines@))->0,
                    Map::empty(),
                )
            },
            Err(e) => count_lines(
                store@.commits,
                year_bucket(*tz),
                crate::blame::line_views(lines@),
                old(count)@,
            ) == Err::<Map<i16, nat>, CountErrorView>(e@),
        },
{
    let ghost commits = store@.commits;
    let ghost bucket = year_bucket(*tz);
    let ghost all = crate::blame::line_views(lines@);
    let ghost start = count@;
    let ghost mut done: Seq<(i16, u64)> = Seq::empty();
    let mut own: Tally<i16> = Tally::new();
    let mut i: usize = 0;
    assert(all.skip(0) =~= all);
    assert(done + bucketed(commits, bucket, all)->0 =~= bucketed(commits, bucket, all)->0);
    while i < lines.len()
        invariant
            i <= lines.len(),
            count.wf(),
            own.wf(),
            commits == store@.commits,
            bucket == year_bucket(*tz),
            all == crate::blame::line_views(lines@),
            start == old(count)@,
            count_lines(commits, bucket, all, start) == count_lines(
                commits,
                bucket,
                all.skip(i as int),
                count@,
            ),
            bucketed(commits, bucket, all) == match bucketed(commits, bucket, all.skip(i as int)) {
                Some(rest) => Some(done + rest),
                None => None,
            },
            own@ == sum_pairs(done, Map::empty()),
            forall|k: i16| lines_of(own@, k) <= lines_of(count@, k),
        decreases lines.len() - i,
    {
        let ghost rest = all.skip(i as int);
        assert(rest[0] == (lines[i as int].0@, lines[i as int].1));
        assert(rest.drop_first() =~= all.skip(i + 1));
        let commit = match store.load_commit(&lines[i].0) {
            Ok(commit) => commit,
            Err(_) => {
                assert(count_lines(commits, bucket, rest, count@) == Err::<
                    Map<i16, nat>,
                    CountErrorView,
                >(CountErrorView::MissingCommit(rest[0].0)));
                return Err(CountError::MissingCommit(lines[i].0.clone()));
            },
        };
        let year = match civil_month(tz, commit.author_time) {
            Some(month) => month.0,
            None => {
                assert(bucket(commits[rest[0].0]) is None);
                assert(count_lines(commits, bucket, rest, count@) == Err::<
                    Map<i16, nat>,
                    CountErrorView,
                >(CountErrorView::TimeOutOfRange(rest[0].0)));
                return Err(CountError::TimeOutOfRange(lines[i].0.clone()));
            },
        };
        let amount = lines[i].1;
        assert(bucket(commits[rest[0].0]) == Some(year));
        let ghost before_count = count@;
        let ghost before_own = own@;
        if !count.add(&year, amount) {
            assert(count_lines(commits, bucket, rest, before_count) == Err::<
                Map<i16, nat>,
                CountErrorView,
            >(CountErrorView::Overflow));
            return Err(CountError::Overflow);
        }
        let fitted = own.add(&year, amount);
        assert(fitted) by {
            assert(lines_of(before_own, year) <= lines_of(before_count, year));
        }
        proof {
            lemma_sum_pairs_push(done, (year, amount), Map::empty());
            let tail = bucketed(commits, bucket, all.skip(i + 1));
            if tail is Some {
                assert(done.push((year, amount)) + tail->0 =~= done + (seq![(year, amount)]
                    + tail->0));
            }
            done = done.push((year, amount));
            assert forall|k: i16| lines_of(own@, k) <= lines_of(count@, k) by {
                assert(lines_of(before_own, k) <= lines_of(before_count, k));
            }
        }
        i += 1;
    }
    proof {
        assert(all.skip(i as int).len() == 0);
        assert(done + Seq::<(i16, u64)>::empty() =~= done);
    }
    Ok(own)
}

/// The lines of a tree per calendar year of the time zone in which their
/// commits were authored.
///
/// Files that the matcher excludes are left out. The counts of a file are
/// taken from the cache where it holds them, and computed from the store and
/// put into the cache where it does not; the result is the same either way.
pub fn count_years(
    store: &Store,
    cache: &mut YearCache,
    ignore: &Gitignore,
    tz: &TimeZone,
    tree: &BlameTree,
) -> (res: Result<Tally<i16>, CountError>)
    requires
        forall|i: int| 0 <= i < tree@.blames.len() ==> plain_relative(#[trigger] tree@.blames[i].path),
        year_cache_agrees(*old(cache), store@, *tz),
    ensures
        year_cache_agrees(*final(cache), store@, *tz),
        year_cap(*final(cache)) == year_cap(*old(cache)),
        1 <= year_cap(*old(cache)) && year_entries(*old(cache)).len() <= year_cap(*old(cache))
            ==> year_entries(*final(cache)).len() <= year_cap(*old(cache)),
        match res {
            Ok(count) => count.wf() && count_entries(
                store@,
                year_bucket(*tz),
                ignored_paths(*ignore),
                tree@.blames,
                Map::empty(),
            ) == Ok::<Map<i16, nat>, CountErrorView>(count@),
            Err(e) => count_entries(
                store@,
                year_bucket(*tz),
                ignored_paths(*ignore),
                tree@.blames,
                Map::empty(),
            ) == Err::<Map<i16, nat>, CountErrorView>(e@),
        },
{
    let ghost bucket = year_bucket(*tz);
    let ghost ignored = ignored_paths(*ignore);
    let ghost all = tree@.blames;
    let ghost empty = Map::<i16, nat>::empty();
    let ghost cap = year_cap(*cache);
    let mut count: Tally<i16> = Tally::new();
    let mut i: usize = 0;
    assert(all.skip(0) =~= all);
    while i < tree.blames.len()
        invariant
            i <= tree.blames.len(),
            count.wf(),
            bucket == year_bucket(*tz),
            ignored == ignored_paths(*ignore),
            all == tree@.blames,
            empty == Map::<i16, nat>::empty(),
            cap == year_cap(*cache),
            cap == year_cap(*old(cache)),
            1 <= cap && year_entries(*old(cache)).len() <= cap ==> year_entries(*cache).len() <= cap,
            forall|j: int| 0 <= j < all.len() ==> plain_relative(#[trigger] all[j].path),
            entries_agree(store@, bucket, year_entries(*cache)),
            count_entries(store@, bucket, ignored, all, empty) == count_entries(
                store@,
                bucket,
                ignored,
                all.skip(i as int),
                count@,
            ),
        decreases tree.blames.len() - i,
    {
        let id = &tree.blames[i];
        let ghost rest = all.skip(i as int);
        assert(rest[0] == id@);
        assert(all[i as int] == id@);
        assert(rest.drop_first() =~= all.skip(i + 1));
        if is_ignored(ignore, id.path.as_str()) {
            i += 1;
            continue ;
        }
        let ghost entries = year_entries(*cache);
        let ghost before = count@;
        proof {
            lemma_key_index(entries, id_key(id@));
            lemma_agree_after_get(store@, bucket, entries, id_key(id@));
            count.lemma_fits();
            if cap >= 1 {
                lemma_cache_stays_bounded(entries, cap, id_key(id@), Seq::<(i16, u64)>::empty());
            }
        }
        match year_cache_get(cache, id) {
            Some(pairs) => {
                proof {
                    let at = key_index(entries, id_key(id@));
                    assert(entry_agrees(store@, bucket, entries[at].0, entries[at].1));
                    assert(key_id(id_key(id@)) == id@);
                    assert(pair_keys(pairs@) =~= pairs@);
                    let lines = store@.blames[id@];
                    let record = bucketed(store@.commits, bucket, lines)->0;
                    lemma_same_sum_same_count(pair_keys(pairs@), record, before);
                    lemma_count_lines_bucketed(store@.commits, bucket, lines, before);
                }
                if !merge_pairs(&mut count, pairs) {
                    return Err(CountError::Overflow);
                }
            },
            None => {
                let blame = match store.load_blame(id) {
                    Ok(blame) => blame,
                    Err(_) => {
                        return Err(CountError::MissingBlame(id.clone()));
                    },
                };
                let own = match count_record_years(store, tz, &blame.lines_by_commit, &mut count) {
                    Ok(own) => own,
                    Err(e) => {
                        return Err(e);
                    },
                };
                let pairs = own.into_pairs();
                proof {
                    assert(pair_keys(pairs@) =~= pairs@);
                    lemma_sum_of_distinct_pairs(pair_keys(pairs@));
                    assert(key_id(id_key(id@)) == id@);
                    assert(entry_agrees(store@, bucket, id_key(id@), pairs@));
                    lemma_agree_after_put(store@, bucket, year_entries(*cache), cap, id_key(id@), pairs@);
                    if cap >= 1 {
                        lemma_cache_stays_bounded(year_entries(*cache), cap, id_key(id@), pairs@);
                    }
                }
                year_cache_put(cache, id.clone(), pairs);
            },
        }
        i += 1;
    }
    Ok(count)
}

} // verus!
