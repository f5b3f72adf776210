//! Line counts per bucket: a finite map from a bucket key to a number of
//! lines, added up with overflow checks.

use vstd::prelude::*;

verus! {

/// A value that can key a tally: it has a mathematical value, and two keys
/// can be compared and copied.
pub trait Key: Sized {
    /// The type of the mathematical value.
    type V;

    /// The mathematical value of the key.
    spec fn key(&self) -> Self::V;

    /// Whether two keys have the same value.
    fn same(&self, other: &Self) -> (eq: bool)
        ensures
            eq == (self.key() == other.key()),
    ;

    /// A key with the same value.
    fn copy(&self) -> (c: Self)
        ensures
            c.key() == self.key(),
    ;
}

impl Key for String {
    type V = Seq<char>;

    open spec fn key(&self) -> Seq<char> {
        self@
    }

    fn same(&self, other: &Self) -> (eq: bool) {
        *self == *other
    }

    fn copy(&self) -> (c: Self) {
        self.clone()
    }
}

impl Key for i16 {
    type V = i16;

    open spec fn key(&self) -> i16 {
        *self
    }

    fn same(&self, other: &Self) -> (eq: bool) {
        *self == *other
    }

    fn copy(&self) -> (c: Self) {
        *self
    }
}

/// The lines counted for `k`; zero where the tally does not hold `k`.
pub open spec fn lines_of<KV>(t: Map<KV, nat>, k: KV) -> nat {
    if t.contains_key(k) {
        t[k]
    } else {
        0
    }
}

/// The tally after `n` more lines were counted for `k`.
pub open spec fn tally_add<KV>(t: Map<KV, nat>, k: KV, n: nat) -> Map<KV, nat> {
    t.insert(k, lines_of(t, k) + n)
}

/// Every count of the tally fits in 64 bits.
pub open spec fn fits<KV>(t: Map<KV, nat>) -> bool {
    forall|k: KV| t.contains_key(k) ==> #[trigger] t[k] <= u64::MAX
}

/// The sum of two tallies, key by key.
pub open spec fn tally_merge<KV>(a: Map<KV, nat>, b: Map<KV, nat>) -> Map<KV, nat> {
    Map::new(|k: KV| a.contains_key(k) || b.contains_key(k), |k: KV| lines_of(a, k) + lines_of(b, k))
}

/// The tally `acc` after each of `pairs` was counted, in order.
pub open spec fn sum_pairs<KV>(pairs: Seq<(KV, u64)>, acc: Map<KV, nat>) -> Map<KV, nat>
    decreases pairs.len(),
{
    if pairs.len() == 0 {
        acc
    } else {
        sum_pairs(pairs.drop_first(), tally_add(acc, pairs[0].0, pairs[0].1 as nat))
    }
}

/// As [`sum_pairs`], but counting stops with `None` at the first count that
/// would no longer fit in 64 bits.
pub open spec fn checked_sum_pairs<KV>(pairs: Seq<(KV, u64)>, acc: Map<KV, nat>) -> Option<
    Map<KV, nat>,
>
    decreases pairs.len(),
{
    if pairs.len() == 0 {
        Some(acc)
    } else if lines_of(acc, pairs[0].0) + pairs[0].1 > u64::MAX {
        None
    } else {
        checked_sum_pairs(pairs.drop_first(), tally_add(acc, pairs[0].0, pairs[0].1 as nat))
    }
}

/// Counting never lowers a count nor drops a key.
pub proof fn lemma_sum_pairs_grows<KV>(pairs: Seq<(KV, u64)>, acc: Map<KV, nat>, k: KV)
    ensures
        lines_of(sum_pairs(pairs, acc), k) >= lines_of(acc, k),
        acc.contains_key(k) ==> sum_pairs(pairs, acc).contains_key(k),
    decreases pairs.len(),
{
    if pairs.len() > 0 {
        lemma_sum_pairs_grows(pairs.drop_first(), tally_add(acc, pairs[0].0, pairs[0].1 as nat), k);
    }
}

/// Checked counting succeeds exactly when the plain sum fits, and then gives
/// that sum.
pub proof fn lemma_checked_sum<KV>(pairs: Seq<(KV, u64)>, acc: Map<KV, nat>)
    requires
        fits(acc),
    ensures
        checked_sum_pairs(pairs, acc) == if fits(sum_pairs(pairs, acc)) {
            Some(sum_pairs(pairs, acc))
        } else {
            None
        },
    decreases pairs.len(),
{
    if pairs.len() > 0 {
        let k = pairs[0].0;
        let next = tally_add(acc, k, pairs[0].1 as nat);
        if lines_of(acc, k) + pairs[0].1 > u64::MAX {
            lemma_sum_pairs_grows(pairs.drop_first(), next, k);
            assert(next.contains_key(k));
            assert(sum_pairs(pairs, acc).contains_key(k));
            assert(sum_pairs(pairs, acc)[k] > u64::MAX);
        } else {
            assert(fits(next)) by {
                assert forall|j: KV| next.contains_key(j) implies #[trigger] next[j] <= u64::MAX by {
                    if j != k {
                        assert(acc.contains_key(j));
                        assert(acc[j] <= u64::MAX);
                    }
                }
            }
            lemma_checked_sum(pairs.drop_first(), next);
        }
    }
}

/// Counting pairs on top of a tally is merging the tally with what the pairs
/// alone add up to.
pub proof fn lemma_sum_pairs_merges<KV>(pairs: Seq<(KV, u64)>, acc: Map<KV, nat>)
    ensures
        sum_pairs(pairs, acc) == tally_merge(acc, sum_pairs(pairs, Map::empty())),
    decreases pairs.len(),
{
    let empty = Map::<KV, nat>::empty();
    if pairs.len() == 0 {
        assert(tally_merge(acc, empty) =~= acc);
    } else {
        let k = pairs[0].0;
        let n = pairs[0].1 as nat;
        let rest = pairs.drop_first();
        lemma_sum_pairs_merges(rest, tally_add(acc, k, n));
        lemma_sum_pairs_merges(rest, tally_add(empty, k, n));
        let tail = sum_pairs(rest, empty);
        assert(tally_merge(tally_add(acc, k, n), tail) =~= tally_merge(
            acc,
            tally_merge(tally_add(empty, k, n), tail),
        ));
    }
}

/// Merging tallies does not depend on the order of the two.
pub proof fn lemma_merge_commutes<KV>(a: Map<KV, nat>, b: Map<KV, nat>)
    ensures
        tally_merge(a, b) == tally_merge(b, a),
{
    assert(tally_merge(a, b) =~= tally_merge(b, a));
}

/// Merging tallies does not depend on how they are grouped.
pub proof fn lemma_merge_associates<KV>(a: Map<KV, nat>, b: Map<KV, nat>, c: Map<KV, nat>)
    ensures
        tally_merge(tally_merge(a, b), c) == tally_merge(a, tally_merge(b, c)),
{
    assert(tally_merge(tally_merge(a, b), c) =~= tally_merge(a, tally_merge(b, c)));
}

/// The keys and counts of a list of pairs, as mathematical values.
pub open spec fn pair_keys<K: Key>(pairs: Seq<(K, u64)>) -> Seq<(K::V, u64)> {
    pairs.map_values(|p: (K, u64)| (p.0.key(), p.1))
}

/// No key occurs twice in the list.
pub open spec fn distinct_keys<KV>(pairs: Seq<(KV, u64)>) -> bool {
    forall|i: int, j: int| 0 <= i < j < pairs.len() ==> pairs[i].0 != pairs[j].0
}

/// The tally that a list of pairs with distinct keys stands for.
pub open spec fn pairs_map<KV>(pairs: Seq<(KV, u64)>) -> Map<KV, nat>
    decreases pairs.len(),
{
    if pairs.len() == 0 {
        Map::empty()
    } else {
        pairs_map(pairs.drop_last()).insert(pairs.last().0, pairs.last().1 as nat)
    }
}

/// What [`pairs_map`] holds: the keys of the list, each with its count.
pub proof fn lemma_pairs_map<KV>(pairs: Seq<(KV, u64)>)
    requires
        distinct_keys(pairs),
    ensures
        forall|i: int| 0 <= i < pairs.len() ==> pairs_map(pairs).contains_key(#[trigger] pairs[i].0),
        forall|i: int| 0 <= i < pairs.len() ==> pairs_map(pairs)[#[trigger] pairs[i].0] == pairs[i].1,
        forall|k: KV|
            pairs_map(pairs).contains_key(k) ==> exists|i: int|
                0 <= i < pairs.len() && #[trigger] pairs[i].0 == k,
        fits(pairs_map(pairs)),
    decreases pairs.len(),
{
    if pairs.len() > 0 {
        let rest = pairs.drop_last();
        lemma_pairs_map(rest);
        let m = pairs_map(pairs);
        assert forall|i: int| 0 <= i < pairs.len() implies m.contains_key(#[trigger] pairs[i].0)
            && m[pairs[i].0] == pairs[i].1 by {
            if i < pairs.len() - 1 {
                assert(rest[i] == pairs[i]);
                assert(pairs[i].0 != pairs[pairs.len() - 1].0);
            }
        }
        assert forall|k: KV| m.contains_key(k) implies exists|i: int|
            0 <= i < pairs.len() && #[trigger] pairs[i].0 == k by {
            if k == pairs.last().0 {
                assert(pairs[pairs.len() - 1].0 == k);
            } else {
                let i = choose|i: int| 0 <= i < rest.len() && #[trigger] rest[i].0 == k;
                assert(pairs[i].0 == k);
            }
        }
        assert forall|k: KV| m.contains_key(k) implies #[trigger] m[k] <= u64::MAX by {
            let i = choose|i: int| 0 <= i < pairs.len() && #[trigger] pairs[i].0 == k;
            assert(m[pairs[i].0] == pairs[i].1);
        }
    }
}

/// Every count that a list of pairs stands for fits in 64 bits.
pub proof fn lemma_pairs_map_fits<KV>(pairs: Seq<(KV, u64)>)
    ensures
        fits(pairs_map(pairs)),
    decreases pairs.len(),
{
    if pairs.len() > 0 {
        lemma_pairs_map_fits(pairs.drop_last());
    }
}

/// Counting a list of pairs with distinct keys from nothing gives the tally
/// that the list stands for.
pub proof fn lemma_sum_of_distinct_pairs<KV>(pairs: Seq<(KV, u64)>)
    requires
        distinct_keys(pairs),
    ensures
        sum_pairs(pairs, Map::empty()) == pairs_map(pairs),
    decreases pairs.len(),
{
    let empty = Map::<KV, nat>::empty();
    if pairs.len() > 0 {
        let rest = pairs.drop_last();
        let last = pairs.last();
        lemma_sum_of_distinct_pairs(rest);
        lemma_sum_pairs_push(rest, last, empty);
        assert(rest.push(last) =~= pairs);
        lemma_pairs_map(rest);
        if pairs_map(rest).contains_key(last.0) {
            let i = choose|i: int| 0 <= i < rest.len() && #[trigger] rest[i].0 == last.0;
            assert(pairs[i].0 == pairs[pairs.len() - 1].0);
        }
    }
}

/// Counting one more pair at the end is one more [`tally_add`].
pub proof fn lemma_sum_pairs_push<KV>(pairs: Seq<(KV, u64)>, last: (KV, u64), acc: Map<KV, nat>)
    ensures
        sum_pairs(pairs.push(last), acc) == tally_add(sum_pairs(pairs, acc), last.0, last.1 as nat),
    decreases pairs.len(),
{
    let all = pairs.push(last);
    let next = tally_add(acc, all[0].0, all[0].1 as nat);
    assert(sum_pairs(all, acc) == sum_pairs(all.drop_first(), next));
    if pairs.len() == 0 {
        assert(all.drop_first() =~= pairs);
        assert(sum_pairs(all.drop_first(), next) == next);
    } else {
        assert(all.drop_first() =~= pairs.drop_first().push(last));
        lemma_sum_pairs_push(pairs.drop_first(), last, next);
    }
}

/// Line counts per bucket key.
pub struct Tally<K: Key> {
    pairs: Vec<(K, u64)>,
}

impl<K: Key> View for Tally<K> {
    type V = Map<K::V, nat>;

    closed spec fn view(&self) -> Map<K::V, nat> {
        pairs_map(pair_keys(self.pairs@))
    }
}

impl<K: Key> Tally<K> {
    /// No key is held twice.
    pub closed spec fn wf(&self) -> bool {
        distinct_keys(pair_keys(self.pairs@))
    }

    /// The keys with their counts, in the order in which the keys were
    /// first counted.
    pub closed spec fn entries(&self) -> Seq<(K::V, u64)> {
        pair_keys(self.pairs@)
    }

    /// The entries of a tally hold each key once, and they are what the
    /// tally holds.
    pub proof fn lemma_entries(self)
        requires
            self.wf(),
        ensures
            distinct_keys(self.entries()),
            pairs_map(self.entries()) == self@,
    {
    }

    /// A tally without any key.
    pub fn new() -> (t: Self)
        ensures
            t.wf(),
            t@ == Map::<K::V, nat>::empty(),
    {
        Tally { pairs: Vec::new() }
    }

    /// Every count of a tally fits in 64 bits.
    pub proof fn lemma_fits(self)
        ensures
            fits(self@),
    {
        lemma_pairs_map_fits(pair_keys(self.pairs@));
    }

    fn position(&self, key: &K) -> (found: Option<usize>)
        requires
            self.wf(),
        ensures
            match found {
                Some(i) => i < self.pairs.len() && self.pairs[i as int].0.key() == key.key()
                    && self@.contains_key(key.key()) && self@[key.key()] == self.pairs[i as int].1,
                None => !self@.contains_key(key.key()),
            },
    {
        proof {
            lemma_pairs_map(pair_keys(self.pairs@));
        }
        let ghost keys = pair_keys(self.pairs@);
        let mut i: usize = 0;
        while i < self.pairs.len()
            invariant
                i <= self.pairs.len(),
                keys == pair_keys(self.pairs@),
                distinct_keys(keys),
                forall|j: int| 0 <= j < i ==> keys[j].0 != key.key(),
            decreases self.pairs.len() - i,
        {
            assert(keys[i as int] == (self.pairs[i as int].0.key(), self.pairs[i as int].1));
            if self.pairs[i].0.same(key) {
                assert(keys[i as int] == (self.pairs[i as int].0.key(), self.pairs[i as int].1));
                proof {
                    lemma_pairs_map(keys);
                    assert(pairs_map(keys).contains_key(keys[i as int].0));
                    assert(pairs_map(keys)[keys[i as int].0] == keys[i as int].1);
                }
                return Some(i);
            }
            i += 1;
        }
        proof {
            lemma_pairs_map(keys);
        }
        None
    }

    /// The lines counted for `key`; zero where the tally does not hold it.
    pub fn get(&self, key: &K) -> (n: u64)
        requires
            self.wf(),
        ensures
            n == lines_of(self@, key.key()),
    {
        match self.position(key) {
            Some(i) => self.pairs[i].1,
            None => 0,
        }
    }

    /// Whether the tally holds `key`.
    pub fn contains(&self, key: &K) -> (found: bool)
        requires
            self.wf(),
        ensures
            found == self@.contains_key(key.key()),
    {
        self.position(key).is_some()
    }

    /// Counts `n` more lines for `key`, unless the count would no longer fit
    /// in 64 bits: then the tally stays as it is and `false` is returned.
    pub fn add(&mut self, key: &K, n: u64) -> (done: bool)
        requires
            old(self).wf(),
        ensures
            final(self).wf(),
            done == (lines_of(old(self)@, key.key()) + n <= u64::MAX),
            done ==> final(self)@ == tally_add(old(self)@, key.key(), n as nat),
            !done ==> final(self)@ == old(self)@,
    {
        proof {
            lemma_pairs_map(pair_keys(self.pairs@));
        }
        let ghost before = pair_keys(self.pairs@);
        match self.position(key) {
            Some(i) => {
                let have = self.pairs[i].1;
                if n > u64::MAX - have {
                    return false;
                }
                let entry = (key.copy(), have + n);
                self.pairs.set(i, entry);
                proof {
                    let after = pair_keys(self.pairs@);
                    assert(after =~= before.update(i as int, (key.key(), (have + n) as u64)));
                    assert(distinct_keys(after)) by {
                        assert forall|a: int, b: int| 0 <= a < b < after.len() implies after[a].0
                            != after[b].0 by {
                            assert(before[a].0 != before[b].0);
                        }
                    }
                    lemma_pairs_map(after);
                    let want = tally_add(pairs_map(before), key.key(), n as nat);
                    assert(before[i as int].0 == key.key());
                    assert(pairs_map(before)[before[i as int].0] == before[i as int].1);
                    assert forall|k: K::V| #[trigger]
                        pairs_map(after).contains_key(k) implies want.contains_key(k) by {
                        let j = choose|j: int| 0 <= j < after.len() && #[trigger] after[j].0 == k;
                        assert(before[j].0 == k);
                        assert(pairs_map(before).contains_key(before[j].0));
                    }
                    assert forall|k: K::V| #[trigger]
                        want.contains_key(k) implies pairs_map(after).contains_key(k) && pairs_map(
                        after,
                    )[k] == want[k] by {
                        if k == key.key() {
                            assert(after[i as int].0 == k);
                            assert(pairs_map(after).contains_key(after[i as int].0));
                            assert(pairs_map(after)[after[i as int].0] == after[i as int].1);
                        } else {
                            let j = choose|j: int| 0 <= j < before.len() && #[trigger] before[j].0 == k;
                            assert(after[j].0 == k);
                            assert(pairs_map(after).contains_key(after[j].0));
                            assert(pairs_map(after)[after[j].0] == after[j].1);
                            assert(pairs_map(before)[before[j].0] == before[j].1);
                        }
                    }
                    assert(pairs_map(after) =~= want);
                }
                true
            },
            None => {
                self.pairs.push((key.copy(), n));
                proof {
                    let after = pair_keys(self.pairs@);
                    assert(after =~= before.push((key.key(), n)));
                    assert(after.drop_last() =~= before);
                    assert(distinct_keys(after)) by {
                        assert forall|a: int, b: int| 0 <= a < b < after.len() implies after[a].0
                            != after[b].0 by {
                            if b < before.len() {
                                assert(before[a].0 != before[b].0);
                            } else {
                                if after[a].0 == key.key() {
                                    assert(pairs_map(before).contains_key(before[a].0));
                                }
                            }
                        }
                    }
                    assert(pairs_map(after) =~= tally_add(pairs_map(before), key.key(), n as nat));
                }
                true
            },
        }
    }

    /// The keys with their counts, each key once, in the order in which the
    /// keys were first counted.
    pub fn into_pairs(self) -> (pairs: Vec<(K, u64)>)
        requires
            self.wf(),
        ensures
            pair_keys(pairs@) == self.entries(),
            distinct_keys(pair_keys(pairs@)),
            pairs_map(pair_keys(pairs@)) == self@,
    {
        self.pairs
    }

    /// The keys with their counts, each key once, in the order in which the
    /// keys were first counted.
    pub fn pairs(&self) -> (pairs: &Vec<(K, u64)>)
        requires
            self.wf(),
        ensures
            pair_keys(pairs@) == self.entries(),
            distinct_keys(pair_keys(pairs@)),
            pairs_map(pair_keys(pairs@)) == self@,
    {
        &self.pairs
    }
}

} // verus!
