//! The content-addressed store: commits, trees and authorship records, each
//! written once under its key and never changed or removed.

use crate::blame::{Blame, BlameId, BlameIdView, BlameTree};
use crate::commit::{Commit, CommitView};
use vstd::prelude::*;

verus! {

/// Writing `value` under `key` in an append-only map: the first value
/// written under a key stays.
pub open spec fn keep_first<KV, VV>(m: Map<KV, VV>, key: KV, value: VV) -> Map<KV, VV> {
    if m.contains_key(key) {
        m
    } else {
        m.insert(key, value)
    }
}

/// The map that a list of writes leaves behind, the oldest write first.
pub open spec fn written<KV, VV>(entries: Seq<(KV, VV)>) -> Map<KV, VV>
    decreases entries.len(),
{
    if entries.len() == 0 {
        Map::empty()
    } else {
        keep_first(written(entries.drop_last()), entries.last().0, entries.last().1)
    }
}

/// A write is idempotent: writing the same value under the same key again
/// changes nothing, so every later read gives what it gave before.
pub proof fn lemma_write_twice<KV, VV>(m: Map<KV, VV>, key: KV, value: VV)
    ensures
        keep_first(keep_first(m, key, value), key, value) == keep_first(m, key, value),
        keep_first(m, key, value).contains_key(key),
{
}

/// A write changes no value that was there before, whatever is written.
pub proof fn lemma_write_keeps<KV, VV>(m: Map<KV, VV>, key: KV, value: VV, other: KV)
    requires
        m.contains_key(other),
    ensures
        keep_first(m, key, value).contains_key(other),
        keep_first(m, key, value)[other] == m[other],
{
}

/// The first entry under a key is what the map holds for it.
proof fn lemma_written_lookup<KV, VV>(entries: Seq<(KV, VV)>, key: KV, i: int)
    requires
        0 <= i <= entries.len(),
        i < entries.len() ==> entries[i].0 == key,
        forall|j: int| 0 <= j < i ==> entries[j].0 != key,
    ensures
        written(entries).contains_key(key) == (i < entries.len()),
        i < entries.len() ==> written(entries)[key] == entries[i].1,
    decreases entries.len(),
{
    if entries.len() > 0 {
        let rest = entries.drop_last();
        if i >= rest.len() {
            lemma_written_lookup(rest, key, rest.len() as int);
        } else {
            lemma_written_lookup(rest, key, i);
        }
    }
}

/// What a store holds.
pub struct StoreView {
    pub commits: Map<Seq<char>, CommitView>,
    pub trees: Map<Seq<char>, Seq<BlameIdView>>,
    pub blames: Map<BlameIdView, Seq<(Seq<char>, u64)>>,
}

/// No value for the key.
#[derive(Debug, PartialEq, Eq, Clone, Copy)]
pub struct NotFound;

/// The store. Commits are keyed by hash, trees by the hash of their commit,
/// authorship records by their identifier.
pub struct Store {
    commits: Vec<Commit>,
    trees: Vec<BlameTree>,
    blames: Vec<Blame>,
}

/// The commits that were written, each under its hash, the oldest write
/// first.
pub closed spec fn commit_entries(commits: Seq<Commit>) -> Seq<(Seq<char>, CommitView)> {
    commits.map_values(|c: Commit| (c@.hash, c@))
}

/// The trees that were written, each under the hash of its commit, the
/// oldest write first.
pub closed spec fn tree_entries(trees: Seq<BlameTree>) -> Seq<(Seq<char>, Seq<BlameIdView>)> {
    trees.map_values(|t: BlameTree| (t@.commit, t@.blames))
}

/// The authorship records that were written, each under its identifier, the
/// oldest write first.
pub closed spec fn blame_entries(blames: Seq<Blame>) -> Seq<(BlameIdView, Seq<(Seq<char>, u64)>)> {
    blames.map_values(|b: Blame| (b@.id, b@.lines))
}

impl View for Store {
    type V = StoreView;

    closed spec fn view(&self) -> StoreView {
        StoreView {
            commits: written(commit_entries(self.commits@)),
            trees: written(tree_entries(self.trees@)),
            blames: written(blame_entries(self.blames@)),
        }
    }
}

impl Store {
    /// A store that holds nothing.
    pub fn new() -> (store: Self)
        ensures
            store@.commits == Map::<Seq<char>, CommitView>::empty(),
            store@.trees == Map::<Seq<char>, Seq<BlameIdView>>::empty(),
            store@.blames == Map::<BlameIdView, Seq<(Seq<char>, u64)>>::empty(),
    {
        Store { commits: Vec::new(), trees: Vec::new(), blames: Vec::new() }
    }

    fn commit_position(&self, hash: &String) -> (found: Option<usize>)
        ensures
            match found {
                Some(i) => i < self.commits.len() && self@.commits.contains_key(hash@)
                    && self@.commits[hash@] == self.commits[i as int]@,
                None => !self@.commits.contains_key(hash@),
            },
    {
        let ghost entries = commit_entries(self.commits@);
        let mut i: usize = 0;
        while i < self.commits.len()
            invariant
                i <= self.commits.len(),
                entries == commit_entries(self.commits@),
                forall|j: int| 0 <= j < i ==> entries[j].0 != hash@,
            decreases self.commits.len() - i,
        {
            assert(entries[i as int] == (self.commits[i as int]@.hash, self.commits[i as int]@));
            if self.commits[i].hash == *hash {
                proof {
                    lemma_written_lookup(entries, hash@, i as int);
                }
                return Some(i);
            }
            i += 1;
        }
        proof {
            lemma_written_lookup(entries, hash@, i as int);
        }
        None
    }

    /// Whether a commit is stored under `hash`.
    pub fn commit_exists(&self, hash: &String) -> (found: bool)
        ensures
            found == self@.commits.contains_key(hash@),
    {
        self.commit_position(hash).is_some()
    }

    /// The commit stored under `hash`.
    pub fn load_commit(&self, hash: &String) -> (res: Result<&Commit, NotFound>)
        ensures
            match res {
                Ok(commit) => self@.commits.contains_key(hash@) && self@.commits[hash@] == commit@,
                Err(_) => !self@.commits.contains_key(hash@),
            },
    {
        match self.commit_position(hash) {
            Some(i) => Ok(&self.commits[i]),
            None => Err(NotFound),
        }
    }

    /// Stores `commit` under its hash, unless a commit is stored there
    /// already.
    pub fn save_commit(&mut self, commit: Commit)
        ensures
            final(self)@.commits == keep_first(old(self)@.commits, commit@.hash, commit@),
            final(self)@.trees == old(self)@.trees,
            final(self)@.blames == old(self)@.blames,
    {
        if self.commit_position(&commit.hash).is_none() {
            let ghost before = commit_entries(self.commits@);
            self.commits.push(commit);
            assert(commit_entries(self.commits@).drop_last() =~= before);
        }
    }

    fn tree_position(&self, hash: &String) -> (found: Option<usize>)
        ensures
            match found {
                Some(i) => i < self.trees.len() && self@.trees.contains_key(hash@)
                    && self@.trees[hash@] == self.trees[i as int]@.blames
                    && self.trees[i as int]@.commit == hash@,
                None => !self@.trees.contains_key(hash@),
            },
    {
        let ghost entries = tree_entries(self.trees@);
        let mut i: usize = 0;
        while i < self.trees.len()
            invariant
                i <= self.trees.len(),
                entries == tree_entries(self.trees@),
                forall|j: int| 0 <= j < i ==> entries[j].0 != hash@,
            decreases self.trees.len() - i,
        {
            assert(entries[i as int] == (self.trees[i as int]@.commit, self.trees[i as int]@.blames));
            if self.trees[i].commit == *hash {
                proof {
                    lemma_written_lookup(entries, hash@, i as int);
                }
                return Some(i);
            }
            i += 1;
        }
        proof {
            lemma_written_lookup(entries, hash@, i as int);
        }
        None
    }

    /// Whether the tree of commit `hash` is stored.
    pub fn blametree_exists(&self, hash: &String) -> (found: bool)
        ensures
            found == self@.trees.contains_key(hash@),
    {
        self.tree_position(hash).is_some()
    }

    /// The tree of commit `hash`.
    pub fn load_blametree(&self, hash: &String) -> (res: Result<&BlameTree, NotFound>)
        ensures
            match res {
                Ok(tree) => self@.trees.contains_key(hash@) && self@.trees[hash@] == tree@.blames
                    && tree@.commit == hash@,
                Err(_) => !self@.trees.contains_key(hash@),
            },
    {
        match self.tree_position(hash) {
            Some(i) => Ok(&self.trees[i]),
            None => Err(NotFound),
        }
    }

    /// Stores `tree` under the hash of its commit, unless a tree is stored
    /// there already.
    pub fn save_blametree(&mut self, tree: BlameTree)
        ensures
            final(self)@.trees == keep_first(old(self)@.trees, tree@.commit, tree@.blames),
            final(self)@.commits == old(self)@.commits,
            final(self)@.blames == old(self)@.blames,
    {
        if self.tree_position(&tree.commit).is_none() {
            let ghost before = tree_entries(self.trees@);
            self.trees.push(tree);
            assert(tree_entries(self.trees@).drop_last() =~= before);
        }
    }

    fn blame_position(&self, id: &BlameId) -> (found: Option<usize>)
        ensures
            match found {
                Some(i) => i < self.blames.len() && self@.blames.contains_key(id@)
                    && self@.blames[id@] == self.blames[i as int]@.lines
                    && self.blames[i as int]@.id == id@,
                None => !self@.blames.contains_key(id@),
            },
    {
        let ghost entries = blame_entries(self.blames@);
        let mut i: usize = 0;
        while i < self.blames.len()
            invariant
                i <= self.blames.len(),
                entries == blame_entries(self.blames@),
                forall|j: int| 0 <= j < i ==> entries[j].0 != id@,
            decreases self.blames.len() - i,
        {
            assert(entries[i as int] == (self.blames[i as int]@.id, self.blames[i as int]@.lines));
            if self.blames[i].id.same(id) {
                proof {
                    lemma_written_lookup(entries, id@, i as int);
                }
                return Some(i);
            }
            i += 1;
        }
        proof {
            lemma_written_lookup(entries, id@, i as int);
        }
        None
    }

    /// Whether an authorship record is stored under `id`.
    pub fn blame_exists(&self, id: &BlameId) -> (found: bool)
        ensures
            found == self@.blames.contains_key(id@),
    {
        self.blame_position(id).is_some()
    }

    /// The authorship record stored under `id`.
    pub fn load_blame(&self, id: &BlameId) -> (res: Result<&Blame, NotFound>)
        ensures
            match res {
                Ok(blame) => self@.blames.contains_key(id@) && self@.blames[id@] == blame@.lines
                    && blame@.id == id@,
                Err(_) => !self@.blames.contains_key(id@),
            },
    {
        match self.blame_position(id) {
            Some(i) => Ok(&self.blames[i]),
            None => Err(NotFound),
        }
    }

    /// Stores `blame` under its identifier, unless a record is stored there
    /// already.
    pub fn save_blame(&mut self, blame: Blame)
        ensures
            final(self)@.blames == keep_first(old(self)@.blames, blame@.id, blame@.lines),
            final(self)@.commits == old(self)@.commits,
            final(self)@.trees == old(self)@.trees,
    {
        if self.blame_position(&blame.id).is_none() {
            let ghost before = blame_entries(self.blames@);
            self.blames.push(blame);
            assert(blame_entries(self.blames@).drop_last() =~= before);
        }
    }
}

} // verus!
