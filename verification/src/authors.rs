//! Author aliases: a rename map that is followed to its end, and the check
//! that no chain of renames runs in a circle.

use vstd::prelude::*;
use vstd::string::StringExecFns;

verus! {

/// The rename map that a list of `(from, to)` pairs stands for. Where a name
/// is renamed twice, the later pair counts.
pub open spec fn rename_map(pairs: Seq<(Seq<char>, Seq<char>)>) -> Map<Seq<char>, Seq<char>>
    decreases pairs.len(),
{
    if pairs.len() == 0 {
        Map::empty()
    } else {
        rename_map(pairs.drop_last()).insert(pairs.last().0, pairs.last().1)
    }
}

/// The pairs of a list of owned strings, as texts.
pub open spec fn pair_views(pairs: Seq<(String, String)>) -> Seq<(Seq<char>, Seq<char>)> {
    pairs.map_values(|p: (String, String)| (p.0@, p.1@))
}

/// The name reached from `x` after exactly `n` renames, if the chain is that
/// long.
pub open spec fn follow(m: Map<Seq<char>, Seq<char>>, x: Seq<char>, n: nat) -> Option<Seq<char>>
    decreases n,
{
    if n == 0 {
        Some(x)
    } else if m.contains_key(x) {
        follow(m, m[x], (n - 1) as nat)
    } else {
        None
    }
}

/// `x` is renamed back to itself after one or more steps.
pub open spec fn on_cycle(m: Map<Seq<char>, Seq<char>>, x: Seq<char>) -> bool {
    exists|n: nat| n >= 1 && #[trigger] follow(m, x, n) == Some(x)
}

/// Some name of the map lies on a cycle, a self-rename included.
pub open spec fn has_cycle(m: Map<Seq<char>, Seq<char>>) -> bool {
    exists|x: Seq<char>| #[trigger] on_cycle(m, x)
}

/// The chain from `x` leaves the map after exactly `n` renames.
pub open spec fn ends_after(m: Map<Seq<char>, Seq<char>>, x: Seq<char>, n: nat) -> bool {
    match follow(m, x, n) {
        Some(y) => !m.contains_key(y),
        None => false,
    }
}

/// The chain from `x` reaches a name that is not renamed any further.
pub open spec fn chain_ends(m: Map<Seq<char>, Seq<char>>, x: Seq<char>) -> bool {
    exists|n: nat| #[trigger] ends_after(m, x, n)
}

/// The number of renames between `x` and its canonical name.
pub open spec fn chain_len(m: Map<Seq<char>, Seq<char>>, x: Seq<char>) -> nat {
    choose|n: nat| #[trigger] ends_after(m, x, n)
}

/// The canonical name of `x`: where its chain of renames ends.
pub open spec fn resolve(m: Map<Seq<char>, Seq<char>>, x: Seq<char>) -> Seq<char> {
    match follow(m, x, chain_len(m, x)) {
        Some(y) => y,
        None => x,
    }
}

/// Following `a + b` renames is following `a` and then `b`.
pub proof fn lemma_follow_add(m: Map<Seq<char>, Seq<char>>, x: Seq<char>, a: nat, b: nat)
    ensures
        follow(m, x, a + b) == match follow(m, x, a) {
            Some(y) => follow(m, y, b),
            None => None,
        },
    decreases a,
{
    if a == 0 {
    } else if m.contains_key(x) {
        lemma_follow_add(m, m[x], (a - 1) as nat, b);
        assert(follow(m, x, a + b) == follow(m, m[x], (a + b - 1) as nat));
    } else {
    }
}

/// A chain ends after one number of renames only.
pub proof fn lemma_end_unique(m: Map<Seq<char>, Seq<char>>, x: Seq<char>, a: nat, b: nat)
    requires
        ends_after(m, x, a),
        ends_after(m, x, b),
    ensures
        a == b,
{
    if a < b {
        lemma_follow_add(m, x, a, (b - a) as nat);
    } else if b < a {
        lemma_follow_add(m, x, b, (a - b) as nat);
    }
}

/// A name on a cycle stays inside the map however far it is followed.
pub proof fn lemma_cycle_never_ends(m: Map<Seq<char>, Seq<char>>, x: Seq<char>, n: nat, k: nat)
    requires
        n >= 1,
        follow(m, x, n) == Some(x),
    ensures
        !ends_after(m, x, k),
    decreases k,
{
    if k < n {
        lemma_follow_add(m, x, k, (n - k) as nat);
    } else {
        lemma_follow_add(m, x, n, (k - n) as nat);
        lemma_cycle_never_ends(m, x, n, (k - n) as nat);
    }
}

/// A map in which every chain ends has no cycle.
pub proof fn lemma_ending_chains_have_no_cycle(m: Map<Seq<char>, Seq<char>>)
    requires
        forall|x: Seq<char>| chain_ends(m, x),
    ensures
        !has_cycle(m),
{
    if has_cycle(m) {
        let x = choose|x: Seq<char>| #[trigger] on_cycle(m, x);
        let n = choose|n: nat| n >= 1 && #[trigger] follow(m, x, n) == Some(x);
        assert(chain_ends(m, x));
        let k = choose|k: nat| #[trigger] ends_after(m, x, k);
        lemma_cycle_never_ends(m, x, n, k);
    }
}

/// A name that the map does not rename is its own canonical name.
pub proof fn lemma_resolve_unmapped(m: Map<Seq<char>, Seq<char>>, x: Seq<char>)
    requires
        !m.contains_key(x),
    ensures
        chain_ends(m, x),
        chain_len(m, x) == 0,
        resolve(m, x) == x,
{
    assert(ends_after(m, x, 0));
    lemma_end_unique(m, x, 0, chain_len(m, x));
}

/// One rename brings a name one step closer to the same canonical name.
pub proof fn lemma_resolve_step(m: Map<Seq<char>, Seq<char>>, x: Seq<char>)
    requires
        m.contains_key(x),
        chain_ends(m, x),
    ensures
        chain_ends(m, m[x]),
        chain_len(m, x) == chain_len(m, m[x]) + 1,
        resolve(m, m[x]) == resolve(m, x),
{
    let n = chain_len(m, x);
    assert(ends_after(m, x, n));
    assert(n >= 1);
    assert(ends_after(m, m[x], (n - 1) as nat));
    lemma_end_unique(m, m[x], (n - 1) as nat, chain_len(m, m[x]));
}

/// The canonical name is not renamed any further.
pub proof fn lemma_resolve_is_unmapped(m: Map<Seq<char>, Seq<char>>, x: Seq<char>)
    requires
        chain_ends(m, x),
    ensures
        !m.contains_key(resolve(m, x)),
{
    assert(ends_after(m, x, chain_len(m, x)));
}

/// Resolving is idempotent: the canonical name of a canonical name is
/// itself.
pub proof fn lemma_resolve_idempotent(m: Map<Seq<char>, Seq<char>>, x: Seq<char>)
    requires
        chain_ends(m, x),
    ensures
        resolve(m, resolve(m, x)) == resolve(m, x),
{
    lemma_resolve_is_unmapped(m, x);
    lemma_resolve_unmapped(m, resolve(m, x));
}

/// A rename map built from a list has finitely many names.
pub proof fn lemma_rename_map_finite(pairs: Seq<(Seq<char>, Seq<char>)>)
    ensures
        rename_map(pairs).dom().finite(),
    decreases pairs.len(),
{
    if pairs.len() > 0 {
        lemma_rename_map_finite(pairs.drop_last());
    }
}

/// What the latest pair with a given name says is what the map says.
proof fn lemma_rename_map_lookup(pairs: Seq<(Seq<char>, Seq<char>)>, key: Seq<char>, i: int)
    requires
        -1 <= i < pairs.len(),
        i >= 0 ==> pairs[i].0 == key,
        forall|j: int| i < j < pairs.len() ==> pairs[j].0 != key,
    ensures
        rename_map(pairs).contains_key(key) == (i >= 0),
        i >= 0 ==> rename_map(pairs)[key] == pairs[i].1,
    decreases pairs.len(),
{
    if pairs.len() > 0 {
        let rest = pairs.drop_last();
        if i == pairs.len() - 1 {
        } else {
            lemma_rename_map_lookup(rest, key, i);
        }
    }
}

/// The texts of a list of owned strings.
pub open spec fn texts(names: Seq<String>) -> Seq<Seq<char>> {
    names.map_values(|s: String| s@)
}

/// A chain of renames that runs in a circle; `name` lies on it.
#[derive(Debug)]
pub struct CycleError {
    pub name: String,
}

impl CycleError {
    /// The error as a sentence for the operator.
    pub fn message(&self) -> (text: String)
        ensures
            text@ == "author loop detected containing "@ + self.name@,
    {
        String::from_str("author loop detected containing ").concat(self.name.as_str())
    }
}

/// The configured author renames.
#[derive(Debug)]
pub struct Authors {
    pairs: Vec<(String, String)>,
}

impl View for Authors {
    type V = Map<Seq<char>, Seq<char>>;

    closed spec fn view(&self) -> Map<Seq<char>, Seq<char>> {
        rename_map(pair_views(self.pairs@))
    }
}

impl Default for Authors {
    /// No author is renamed.
    fn default() -> (authors: Self)
        ensures
            authors@ == Map::<Seq<char>, Seq<char>>::empty(),
    {
        let authors = Authors { pairs: Vec::new() };
        assert(pair_views(authors.pairs@) =~= Seq::<(Seq<char>, Seq<char>)>::empty());
        authors
    }
}

fn contains_name(names: &Vec<String>, name: &String) -> (found: bool)
    ensures
        found == texts(names@).contains(name@),
{
    let mut i: usize = 0;
    while i < names.len()
        invariant
            i <= names.len(),
            forall|j: int| 0 <= j < i ==> texts(names@)[j] != name@,
        decreases names.len() - i,
    {
        if names[i] == *name {
            assert(texts(names@)[i as int] == name@);
            return true;
        }
        i += 1;
    }
    false
}

impl Authors {
    /// The renames that `rename` lists, a later pair overriding an earlier
    /// one for the same name.
    pub fn new(rename: Vec<(String, String)>) -> (authors: Self)
        ensures
            authors@ == rename_map(pair_views(rename@)),
    {
        Authors { pairs: rename }
    }

    /// The position of the pair that decides how `name` is renamed.
    fn lookup(&self, name: &String) -> (found: Option<usize>)
        ensures
            match found {
                Some(i) => i < self.pairs.len() && self@.contains_key(name@) && self@[name@]
                    == self.pairs[i as int].1@,
                None => !self@.contains_key(name@),
            },
    {
        let ghost views = pair_views(self.pairs@);
        let mut i: usize = self.pairs.len();
        while i > 0
            invariant
                i <= self.pairs.len(),
                views == pair_views(self.pairs@),
                forall|j: int| i <= j < views.len() ==> views[j].0 != name@,
            decreases i,
        {
            i -= 1;
            if self.pairs[i].0 == *name {
                proof {
                    assert(views[i as int].0 == name@);
                    lemma_rename_map_lookup(views, name@, i as int);
                }
                return Some(i);
            }
        }
        proof {
            lemma_rename_map_lookup(views, name@, -1);
        }
        None
    }

    /// Walks the chain of every renamed name and reports the first name that
    /// a walk meets twice.
    pub fn check_for_cycles(&self) -> (res: Result<(), CycleError>)
        ensures
            res is Ok <==> !has_cycle(self@),
            res is Ok ==> forall|x: Seq<char>| chain_ends(self@, x),
            res matches Err(e) ==> on_cycle(self@, e.name@),
    {
        let ghost m = self@;
        proof {
            lemma_rename_map_finite(pair_views(self.pairs@));
        }
        let mut s: usize = 0;
        while s < self.pairs.len()
            invariant
                s <= self.pairs.len(),
                m == self@,
                m.dom().finite(),
                forall|j: int| 0 <= j < s ==> chain_ends(m, #[trigger] self.pairs[j].0@),
            decreases self.pairs.len() - s,
        {
            let mut cur = self.pairs[s].0.clone();
            let ghost start = cur@;
            let mut seen: Vec<String> = Vec::new();
            seen.push(cur.clone());
            assert(texts(seen@).no_duplicates());
            loop
                invariant_except_break
                    seen.len() >= 1,
                    forall|i: int|
                        0 <= i < seen.len() ==> #[trigger] follow(m, start, i as nat) == Some(
                            texts(seen@)[i],
                        ),
                    texts(seen@)[seen.len() - 1] == cur@,
                    forall|i: int| 0 <= i < seen.len() - 1 ==> m.contains_key(texts(seen@)[i]),
                    texts(seen@).no_duplicates(),
                invariant
                    m == self@,
                    m.dom().finite(),
                ensures
                    chain_ends(m, start),
                decreases m.dom().len() + 1 - seen.len(),
            {
                let ghost names = texts(seen@);
                let ghost k = (seen.len() - 1) as nat;
                match self.lookup(&cur) {
                    None => {
                        assert(follow(m, start, k) == Some(names[k as int]));
                        assert(ends_after(m, start, k));
                        break ;
                    },
                    Some(i) => {
                        let next = self.pairs[i].1.clone();
                        proof {
                            lemma_follow_add(m, start, k, 1);
                            assert(follow(m, cur@, 1) == follow(m, m[cur@], 0));
                            assert(follow(m, start, k + 1) == Some(next@));
                        }
                        if contains_name(&seen, &next) {
                            proof {
                                let j = choose|j: int| 0 <= j < names.len() && names[j] == next@;
                                assert(follow(m, start, j as nat) == Some(names[j]));
                                lemma_follow_add(m, start, j as nat, (k + 1 - j) as nat);
                                assert(follow(m, next@, (k + 1 - j) as nat) == Some(next@));
                                assert(on_cycle(m, next@));
                                assert(has_cycle(m));
                            }
                            return Err(CycleError { name: next });
                        }
                        proof {
                            assert forall|x: Seq<char>| names.to_set().contains(x) implies m.dom().contains(
                                x,
                            ) by {
                                let j = choose|j: int| 0 <= j < names.len() && names[j] == x;
                                if j == names.len() - 1 {
                                } else {
                                    assert(m.contains_key(names[j]));
                                }
                            }
                            names.unique_seq_to_set();
                            vstd::set_lib::lemma_len_subset(names.to_set(), m.dom());
                        }
                        seen.push(next.clone());
                        cur = next;
                        proof {
                            let after = texts(seen@);
                            assert(after =~= names.push(cur@));
                            assert forall|a: int|
                                0 <= a < after.len() implies #[trigger] follow(m, start, a as nat)
                                == Some(after[a]) by {
                                if a < names.len() {
                                    assert(follow(m, start, a as nat) == Some(names[a]));
                                }
                            }
                            assert forall|a: int| 0 <= a < after.len() - 1 implies m.contains_key(
                                after[a],
                            ) by {
                                if a < names.len() - 1 {
                                    assert(m.contains_key(names[a]));
                                }
                            }
                        }
                    },
                }
            }
            s += 1;
        }
        proof {
            assert forall|x: Seq<char>| chain_ends(m, x) by {
                if m.contains_key(x) {
                    lemma_key_has_pair(pair_views(self.pairs@), x);
                    let j = choose|j: int|
                        0 <= j < self.pairs.len() && pair_views(self.pairs@)[j].0 == x;
                    assert(chain_ends(m, self.pairs[j].0@));
                } else {
                    lemma_resolve_unmapped(m, x);
                }
            }
            lemma_ending_chains_have_no_cycle(m);
        }
        Ok(())
    }

    /// The canonical name of `name`: the renames are followed until a name
    /// comes up that is not renamed. A name without a rename is returned as
    /// it is.
    pub fn get(&self, name: &str) -> (canonical: String)
        requires
            chain_ends(self@, name@),
        ensures
            canonical@ == resolve(self@, name@),
            !self@.contains_key(canonical@),
    {
        let ghost m = self@;
        let mut cur = String::from_str(name);
        loop
            invariant
                m == self@,
                chain_ends(m, cur@),
                resolve(m, cur@) == resolve(m, name@),
            decreases chain_len(m, cur@),
        {
            match self.lookup(&cur) {
                None => {
                    proof {
                        lemma_resolve_unmapped(m, cur@);
                    }
                    return cur;
                },
                Some(i) => {
                    proof {
                        lemma_resolve_step(m, cur@);
                    }
                    cur = self.pairs[i].1.clone();
                },
            }
        }
    }

    /// The canonical name of `name`, or `None` where its chain of renames
    /// never ends.
    pub fn try_get(&self, name: &str) -> (canonical: Option<String>)
        ensures
            match canonical {
                Some(c) => chain_ends(self@, name@) && c@ == resolve(self@, name@),
                None => !chain_ends(self@, name@),
            },
    {
        let ghost m = self@;
        let mut cur = String::from_str(name);
        let mut steps: usize = 0;
        let ghost mut walk: Seq<Seq<char>> = seq![name@];
        while steps < self.pairs.len()
            invariant
                m == self@,
                walk.len() == steps + 1,
                walk[steps as int] == cur@,
                forall|i: int| 0 <= i < walk.len() ==> #[trigger] follow(m, name@, i as nat) == Some(
                    walk[i],
                ),
                forall|i: int| 0 <= i < steps ==> m.contains_key(walk[i]),
                steps <= self.pairs.len(),
            decreases self.pairs.len() - steps,
        {
            let ghost k = steps as int;
            match self.lookup(&cur) {
                None => {
                    proof {
                        assert(follow(m, name@, k as nat) == Some(walk[k]));
                        assert(ends_after(m, name@, k as nat));
                        lemma_end_unique(m, name@, k as nat, chain_len(m, name@));
                    }
                    return Some(cur);
                },
                Some(i) => {
                    proof {
                        assert(follow(m, name@, k as nat) == Some(walk[k]));
                        lemma_follow_add(m, name@, k as nat, 1);
                        assert(follow(m, cur@, 1) == follow(m, m[cur@], 0));
                        let before = walk;
                        walk = walk.push(m[cur@]);
                        assert forall|a: int| 0 <= a < walk.len() implies #[trigger] follow(
                            m,
                            name@,
                            a as nat,
                        ) == Some(walk[a]) by {
                            if a < before.len() {
                                assert(follow(m, name@, a as nat) == Some(before[a]));
                            }
                        }
                    }
                    cur = self.pairs[i].1.clone();
                    steps += 1;
                },
            }
        }
        let ghost k = steps as int;
        match self.lookup(&cur) {
            None => {
                proof {
                    assert(follow(m, name@, k as nat) == Some(walk[k]));
                    assert(ends_after(m, name@, k as nat));
                    lemma_end_unique(m, name@, k as nat, chain_len(m, name@));
                }
                Some(cur)
            },
            Some(_) => {
                proof {
                    lemma_long_walk_never_ends(pair_views(self.pairs@), name@, walk);
                }
                None
            },
        }
    }
}

/// Every renamed name is the first half of some pair.
proof fn lemma_key_has_pair(pairs: Seq<(Seq<char>, Seq<char>)>, key: Seq<char>)
    requires
        rename_map(pairs).contains_key(key),
    ensures
        exists|j: int| 0 <= j < pairs.len() && pairs[j].0 == key,
    decreases pairs.len(),
{
    if pairs.len() > 0 {
        if pairs.last().0 == key {
            assert(pairs[pairs.len() - 1].0 == key);
        } else {
            lemma_key_has_pair(pairs.drop_last(), key);
            let j = choose|j: int| 0 <= j < pairs.drop_last().len() && pairs.drop_last()[j].0 == key;
            assert(pairs[j].0 == key);
        }
    }
}

/// A rename map has no more names than the list it was built from has pairs.
proof fn lemma_rename_map_size(pairs: Seq<(Seq<char>, Seq<char>)>)
    ensures
        rename_map(pairs).dom().finite(),
        rename_map(pairs).dom().len() <= pairs.len(),
    decreases pairs.len(),
{
    if pairs.len() > 0 {
        lemma_rename_map_size(pairs.drop_last());
    }
}

/// A walk that stays inside the map for more steps than the map has names
/// passes some name twice, so its start never reaches an end.
proof fn lemma_long_walk_never_ends(
    pairs: Seq<(Seq<char>, Seq<char>)>,
    x: Seq<char>,
    walk: Seq<Seq<char>>,
)
    requires
        walk.len() > pairs.len(),
        forall|i: int| 0 <= i < walk.len() ==> #[trigger] follow(rename_map(pairs), x, i as nat)
            == Some(walk[i]),
        forall|i: int| 0 <= i < walk.len() ==> rename_map(pairs).contains_key(walk[i]),
    ensures
        !chain_ends(rename_map(pairs), x),
{
    let m = rename_map(pairs);
    lemma_rename_map_size(pairs);
    if walk.no_duplicates() {
        walk.unique_seq_to_set();
        assert forall|y: Seq<char>| walk.to_set().contains(y) implies m.dom().contains(y) by {
            let j = choose|j: int| 0 <= j < walk.len() && walk[j] == y;
            assert(m.contains_key(walk[j]));
        }
        vstd::set_lib::lemma_len_subset(walk.to_set(), m.dom());
        assert(false);
    }
    let (a, b) = choose|a: int, b: int|
        0 <= a < walk.len() && 0 <= b < walk.len() && a != b && walk[a] == walk[b];
    let lo = if a < b { a } else { b };
    let hi = if a < b { b } else { a };
    let y = walk[lo];
    assert(follow(m, x, lo as nat) == Some(y));
    assert(follow(m, x, hi as nat) == Some(y));
    lemma_follow_add(m, x, lo as nat, (hi - lo) as nat);
    if chain_ends(m, x) {
        let n = choose|n: nat| #[trigger] ends_after(m, x, n);
        if n < lo {
            lemma_follow_add(m, x, n, (lo - n) as nat);
        } else {
            lemma_follow_add(m, x, lo as nat, (n - lo) as nat);
            lemma_cycle_never_ends(m, y, (hi - lo) as nat, (n - lo) as nat);
        }
    }
}

} // verus!
