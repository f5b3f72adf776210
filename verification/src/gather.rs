//! Building a commit's tree of authorship identifiers from the trees of its
//! parents, and choosing the identifiers whose authorship is still to be
//! computed.

use crate::blame::{id_views, BlameId, BlameIdView, BlameTree};
use crate::commit::Commit;
use crate::exclude::{ignored_paths, is_ignored, plain_relative};
use crate::store::{NotFound, Store};
use ignore::gitignore::Gitignore;
use vstd::prelude::*;

verus! {

/// The commit to which a tree attributes the file at `path` with content
/// `blob`, if the tree holds that pair. Of several entries for one pair the
/// last counts.
pub open spec fn attribution(blames: Seq<BlameIdView>, path: Seq<char>, blob: Seq<char>) -> Option<
    Seq<char>,
>
    decreases blames.len(),
{
    if blames.len() == 0 {
        None
    } else if blames.last().path == path && blames.last().blob == blob {
        Some(blames.last().commit)
    } else {
        attribution(blames.drop_last(), path, blob)
    }
}

/// Every tree from position `from` on attributes the pair to `commit`.
pub open spec fn all_attribute(
    parents: Seq<Seq<BlameIdView>>,
    from: int,
    path: Seq<char>,
    blob: Seq<char>,
    commit: Seq<char>,
) -> bool {
    forall|i: int| from <= i < parents.len() ==> attribution(#[trigger] parents[i], path, blob) == Some(commit)
}

/// The commit whose authorship of the file can be reused: the one that the
/// first parent attributes it to, provided that every other parent holds the
/// same file and attributes it to the same commit. `None` where there is no
/// parent, or where any parent lacks the file or disagrees.
pub open spec fn inherited_commit(
    parents: Seq<Seq<BlameIdView>>,
    path: Seq<char>,
    blob: Seq<char>,
) -> Option<Seq<char>> {
    if parents.len() == 0 {
        None
    } else {
        match attribution(parents[0], path, blob) {
            None => None,
            Some(commit) => if all_attribute(parents, 1, path, blob, commit) {
                Some(commit)
            } else {
                None
            },
        }
    }
}

/// The trees of a list of parents, as lists of identifiers.
pub open spec fn parent_views(parents: Seq<BlameTree>) -> Seq<Seq<BlameIdView>> {
    parents.map_values(|t: BlameTree| t@.blames)
}

/// The identifier that a commit's tree holds for one of its files.
pub open spec fn built_entry(
    hash: Seq<char>,
    parents: Seq<Seq<BlameIdView>>,
    path: Seq<char>,
    blob: Seq<char>,
) -> BlameIdView {
    BlameIdView {
        commit: match inherited_commit(parents, path, blob) {
            Some(commit) => commit,
            None => hash,
        },
        blob,
        path,
    }
}

/// A file that every parent holds unchanged, attributed by all of them to one
/// commit, keeps that attribution.
pub proof fn lemma_unchanged_file_inherits(
    hash: Seq<char>,
    parents: Seq<Seq<BlameIdView>>,
    path: Seq<char>,
    blob: Seq<char>,
    commit: Seq<char>,
)
    requires
        parents.len() >= 1,
        forall|i: int| 0 <= i < parents.len() ==> attribution(#[trigger] parents[i], path, blob) == Some(commit),
    ensures
        built_entry(hash, parents, path, blob).commit == commit,
{
}

/// A file that some parent lacks, or holds with other content, is attributed
/// to the commit itself; so is every file of a commit without parents.
pub proof fn lemma_changed_file_recomputes(
    hash: Seq<char>,
    parents: Seq<Seq<BlameIdView>>,
    path: Seq<char>,
    blob: Seq<char>,
)
    requires
        parents.len() == 0 || exists|i: int|
            0 <= i < parents.len() && attribution(#[trigger] parents[i], path, blob) is None,
    ensures
        built_entry(hash, parents, path, blob).commit == hash,
{
    if parents.len() > 0 {
        let i = choose|i: int| 0 <= i < parents.len() && attribution(#[trigger] parents[i], path, blob) is None;
        assert(attribution(parents[i], path, blob) is None);
    }
}

/// Parents that attribute the file to different commits force the file to be
/// attributed to the commit itself.
pub proof fn lemma_disagreeing_parents_recompute(
    hash: Seq<char>,
    parents: Seq<Seq<BlameIdView>>,
    path: Seq<char>,
    blob: Seq<char>,
    i: int,
    j: int,
)
    requires
        0 <= i < parents.len(),
        0 <= j < parents.len(),
        attribution(parents[i], path, blob) != attribution(parents[j], path, blob),
    ensures
        built_entry(hash, parents, path, blob).commit == hash,
{
    match attribution(parents[0], path, blob) {
        None => {},
        Some(commit) => {
            if all_attribute(parents, 1, path, blob, commit) {
                assert(attribution(parents[i], path, blob) == Some(commit));
                assert(attribution(parents[j], path, blob) == Some(commit));
            }
        },
    }
}

/// The commit to which `blames` attributes the pair, looked up from the end.
fn find_attribution<'a>(blames: &'a Vec<BlameId>, path: &String, blob: &String) -> (found: Option<
    &'a String,
>)
    ensures
        match found {
            Some(commit) => attribution(id_views(blames@), path@, blob@) == Some(commit@),
            None => attribution(id_views(blames@), path@, blob@) is None,
        },
{
    let ghost views = id_views(blames@);
    let mut i: usize = blames.len();
    assert(views.take(i as int) =~= views);
    while i > 0
        invariant
            i <= blames.len(),
            views == id_views(blames@),
            attribution(views, path@, blob@) == attribution(views.take(i as int), path@, blob@),
        decreases i,
    {
        i -= 1;
        let ghost prefix = views.take(i + 1);
        assert(prefix.last() == views[i as int]);
        assert(prefix.drop_last() =~= views.take(i as int));
        if blames[i].path == *path && blames[i].blob == *blob {
            return Some(&blames[i].commit);
        }
    }
    assert(views.take(0).len() == 0);
    None
}

/// Finds the earliest commit whose authorship of a file can be reused.
///
/// `key` is the file's `(path, blob)` pair and `parents` are the trees of the
/// commit's parents, first parent first.
pub fn find_blame_commit(parents: &Vec<BlameTree>, key: &(String, String)) -> (found: Option<String>)
    ensures
        match found {
            Some(commit) => inherited_commit(parent_views(parents@), key.0@, key.1@) == Some(
                commit@,
            ),
            None => inherited_commit(parent_views(parents@), key.0@, key.1@) is None,
        },
{
    let ghost views = parent_views(parents@);
    if parents.len() == 0 {
        return None;
    }
    assert(views[0] == parents[0]@.blames);
    let commit = match find_attribution(&parents[0].blames, &key.0, &key.1) {
        None => { return None; },
        Some(commit) => commit,
    };
    let mut i: usize = 1;
    while i < parents.len()
        invariant
            1 <= i <= parents.len(),
            views == parent_views(parents@),
            attribution(views[0], key.0@, key.1@) == Some(commit@),
            forall|j: int| 1 <= j < i ==> attribution(#[trigger] views[j], key.0@, key.1@) == Some(commit@),
        decreases parents.len() - i,
    {
        assert(views[i as int] == parents[i as int]@.blames);
        match find_attribution(&parents[i].blames, &key.0, &key.1) {
            None => {
                assert(!all_attribute(views, 1, key.0@, key.1@, commit@));
                return None;
            },
            Some(other) => {
                if !(*other == *commit) {
                    assert(!all_attribute(views, 1, key.0@, key.1@, commit@));
                    return None;
                }
            },
        }
        i += 1;
    }
    Some(commit.clone())
}

/// The `(path, blob)` pairs of a tree snapshot, as texts.
pub open spec fn file_views(files: Seq<(String, String)>) -> Seq<(Seq<char>, Seq<char>)> {
    files.map_values(|f: (String, String)| (f.0@, f.1@))
}

/// The identifiers of a commit's tree: one for each file, in the order of
/// `files`.
pub open spec fn built_entries(
    hash: Seq<char>,
    parents: Seq<Seq<BlameIdView>>,
    files: Seq<(Seq<char>, Seq<char>)>,
) -> Seq<BlameIdView> {
    files.map_values(|f: (Seq<char>, Seq<char>)| built_entry(hash, parents, f.0, f.1))
}

/// Builds the tree of commit `hash` from the trees of its parents and the
/// `(path, blob)` pairs of its snapshot.
///
/// A file keeps the attribution on which all parents agree; any other file
/// is attributed to `hash` itself.
pub fn compute_blametree(hash: &String, parents: &Vec<BlameTree>, files: Vec<(String, String)>) -> (tree:
    BlameTree)
    ensures
        tree@.commit == hash@,
        tree@.blames == built_entries(hash@, parent_views(parents@), file_views(files@)),
{
    let ghost views = parent_views(parents@);
    let ghost wanted = built_entries(hash@, views, file_views(files@));
    let mut blames: Vec<BlameId> = Vec::new();
    let mut i: usize = 0;
    while i < files.len()
        invariant
            i <= files.len(),
            views == parent_views(parents@),
            wanted == built_entries(hash@, views, file_views(files@)),
            blames.len() == i,
            forall|j: int| 0 <= j < i ==> blames[j]@ == wanted[j],
        decreases files.len() - i,
    {
        let commit = match find_blame_commit(parents, &files[i]) {
            Some(commit) => commit,
            None => hash.clone(),
        };
        blames.push(BlameId { commit, blob: files[i].1.clone(), path: files[i].0.clone() });
        i += 1;
    }
    let tree = BlameTree { commit: hash.clone(), blames };
    assert(tree@.blames =~= wanted);
    tree
}

/// The trees of the parents of a commit, as the store holds them; `None`
/// where the tree of a parent is missing.
pub open spec fn stored_parents(trees: Map<Seq<char>, Seq<BlameIdView>>, parents: Seq<Seq<char>>) -> Option<
    Seq<Seq<BlameIdView>>,
>
    decreases parents.len(),
{
    if parents.len() == 0 {
        Some(Seq::empty())
    } else if !trees.contains_key(parents.last()) {
        None
    } else {
        match stored_parents(trees, parents.drop_last()) {
            Some(rest) => Some(rest.push(trees[parents.last()])),
            None => None,
        }
    }
}

/// Builds the tree of `commit` from the stored trees of its parents and the
/// `(path, blob)` pairs of its snapshot, and stores it. Nothing happens where
/// the store holds the tree already. The trees of all parents must be in the
/// store, which holds when commits are handled oldest first.
pub fn add_blametree(store: &mut Store, commit: &Commit, files: Vec<(String, String)>) -> (res: Result<
    (),
    NotFound,
>)
    ensures
        final(store)@.commits == old(store)@.commits,
        final(store)@.blames == old(store)@.blames,
        match res {
            Ok(_) => if old(store)@.trees.contains_key(commit@.hash) {
                final(store)@.trees == old(store)@.trees
            } else {
                stored_parents(old(store)@.trees, commit@.parents) is Some && final(store)@.trees
                    == old(store)@.trees.insert(
                    commit@.hash,
                    built_entries(
                        commit@.hash,
                        stored_parents(old(store)@.trees, commit@.parents)->0,
                        file_views(files@),
                    ),
                )
            },
            Err(_) => !old(store)@.trees.contains_key(commit@.hash) && stored_parents(
                old(store)@.trees,
                commit@.parents,
            ) is None && final(store)@.trees == old(store)@.trees,
        },
{
    if store.blametree_exists(&commit.hash) {
        return Ok(());
    }
    let ghost trees = store@.trees;
    let ghost names = commit@.parents;
    let mut parents: Vec<BlameTree> = Vec::new();
    let mut i: usize = 0;
    assert(names.take(0) =~= Seq::<Seq<char>>::empty());
    assert(parent_views(parents@) =~= Seq::<Seq<BlameIdView>>::empty());
    while i < commit.parents.len()
        invariant
            i <= commit.parents.len(),
            store@ == old(store)@,
            trees == store@.trees,
            names == commit@.parents,
            names.len() == commit.parents.len(),
            !trees.contains_key(commit@.hash),
            stored_parents(trees, names.take(i as int)) == Some(parent_views(parents@)),
            forall|j: int| 0 <= j < names.len() ==> names[j] == commit.parents[j]@,
        decreases commit.parents.len() - i,
    {
        assert(names.take(i + 1).drop_last() =~= names.take(i as int));
        assert(names.take(i + 1).last() == commit.parents[i as int]@);
        let ghost before = parent_views(parents@);
        match store.load_blametree(&commit.parents[i]) {
            Ok(tree) => {
                parents.push(tree.clone());
                assert(parent_views(parents@) =~= before.push(trees[names[i as int]]));
            },
            Err(_) => {
                proof {
                    lemma_missing_parent(trees, names, i as int);
                }
                return Err(NotFound);
            },
        }
        i += 1;
    }
    assert(names.take(i as int) =~= names);
    let tree = compute_blametree(&commit.hash, &parents, files);
    store.save_blametree(tree);
    Ok(())
}

/// One missing tree leaves the trees of the parents incomplete.
proof fn lemma_missing_parent(trees: Map<Seq<char>, Seq<BlameIdView>>, parents: Seq<Seq<char>>, i: int)
    requires
        0 <= i < parents.len(),
        !trees.contains_key(parents[i]),
    ensures
        stored_parents(trees, parents) is None,
    decreases parents.len(),
{
    if i < parents.len() - 1 {
        lemma_missing_parent(trees, parents.drop_last(), i);
    }
}

/// The oldest commit at or before position `from` whose tree the store does
/// not hold yet. The log lists the newest commit first, so the oldest commit
/// is the one that stands last.
pub fn oldest_without_tree(store: &Store, log: &Vec<Commit>, from: usize) -> (found: Option<usize>)
    requires
        from < log.len(),
    ensures
        match found {
            Some(i) => i <= from && !store@.trees.contains_key(log[i as int]@.hash) && forall|j: int|
                i < j <= from ==> store@.trees.contains_key(#[trigger] log[j]@.hash),
            None => forall|j: int| 0 <= j <= from ==> store@.trees.contains_key(#[trigger] log[j]@.hash),
        },
{
    let mut i: usize = from + 1;
    while i > 0
        invariant
            i <= from + 1,
            from < log.len(),
            forall|j: int| i <= j <= from ==> store@.trees.contains_key(#[trigger] log[j]@.hash),
        decreases i,
    {
        i -= 1;
        if !store.blametree_exists(&log[i].hash) {
            return Some(i);
        }
    }
    None
}

/// The identifiers whose authorship is being computed or was computed in
/// this run, by any worker.
pub struct InFlight {
    ids: Vec<BlameId>,
}

impl View for InFlight {
    type V = Set<BlameIdView>;

    closed spec fn view(&self) -> Set<BlameIdView> {
        id_views(self.ids@).to_set()
    }
}

impl InFlight {
    /// No identifier is in flight.
    pub fn new() -> (set: Self)
        ensures
            set@ == Set::<BlameIdView>::empty(),
    {
        let set = InFlight { ids: Vec::new() };
        assert(set@ =~= Set::<BlameIdView>::empty());
        set
    }

    /// Whether `id` is in flight.
    pub fn contains(&self, id: &BlameId) -> (found: bool)
        ensures
            found == self@.contains(id@),
    {
        let ghost views = id_views(self.ids@);
        let mut i: usize = 0;
        while i < self.ids.len()
            invariant
                i <= self.ids.len(),
                views == id_views(self.ids@),
                forall|j: int| 0 <= j < i ==> views[j] != id@,
            decreases self.ids.len() - i,
        {
            assert(views[i as int] == self.ids[i as int]@);
            if self.ids[i].same(id) {
                assert(views.contains(id@));
                return true;
            }
            i += 1;
        }
        false
    }

    /// Tests whether `id` is in flight and puts it in flight if it is not, in
    /// one step. `true` means that the caller is the one to compute it.
    pub fn claim(&mut self, id: &BlameId) -> (first: bool)
        ensures
            first == !old(self)@.contains(id@),
            final(self)@ == old(self)@.insert(id@),
    {
        if self.contains(id) {
            assert(self@.insert(id@) =~= self@);
            false
        } else {
            let ghost before = id_views(self.ids@);
            self.ids.push(id.clone());
            proof {
                let after = id_views(self.ids@);
                assert(after =~= before.push(id@));
                assert forall|x: BlameIdView| after.to_set().contains(x) == before.to_set().insert(
                    id@,
                ).contains(x) by {
                    if after.contains(x) {
                        let j = choose|j: int| 0 <= j < after.len() && after[j] == x;
                        if j < before.len() {
                            assert(before[j] == x);
                        }
                    }
                    if before.contains(x) {
                        let j = choose|j: int| 0 <= j < before.len() && before[j] == x;
                        assert(after[j] == x);
                    }
                    if x == id@ {
                        assert(after[before.len() as int] == x);
                    }
                }
                assert(after.to_set() =~= before.to_set().insert(id@));
            }
            true
        }
    }
}

/// Whether a worker that handles the tree of commit `own` has to look at
/// `id`: the tree attributes the file to that commit itself, and the file
/// is not excluded.
pub open spec fn wanted(own: Seq<char>, ignored: Set<Seq<char>>, id: BlameIdView) -> bool {
    id.commit == own && !ignored.contains(id.path)
}

/// Decides whether the worker that handles the tree of commit `own` is the
/// one to see to the authorship of `id`, and puts `id` in flight if so: the
/// tree attributes the file to that commit itself, the file is not
/// excluded, and no worker has claimed it before. This is the one step that
/// workers must not take at the same time.
pub fn claim_blame(ignore: &Gitignore, claimed: &mut InFlight, own: &String, id: &BlameId) -> (mine: bool)
    requires
        plain_relative(id@.path),
    ensures
        mine == (wanted(own@, ignored_paths(*ignore), id@) && !old(claimed)@.contains(id@)),
        final(claimed)@ == if wanted(own@, ignored_paths(*ignore), id@) {
            old(claimed)@.insert(id@)
        } else {
            old(claimed)@
        },
{
    if id.commit == *own && !is_ignored(ignore, id.path.as_str()) {
        claimed.claim(id)
    } else {
        false
    }
}

/// The identifiers in flight after a worker went through `entries`.
pub open spec fn claimed_after(
    own: Seq<char>,
    ignored: Set<Seq<char>>,
    claimed: Set<BlameIdView>,
    entries: Seq<BlameIdView>,
) -> Set<BlameIdView>
    decreases entries.len(),
{
    if entries.len() == 0 {
        claimed
    } else {
        let before = claimed_after(own, ignored, claimed, entries.drop_last());
        if wanted(own, ignored, entries.last()) {
            before.insert(entries.last())
        } else {
            before
        }
    }
}

/// The identifiers that a worker has to compute after it went through
/// `entries`: those it looked at, was the first to claim, and did not find
/// in the store.
pub open spec fn pending(
    blames: Set<BlameIdView>,
    own: Seq<char>,
    ignored: Set<Seq<char>>,
    claimed: Set<BlameIdView>,
    entries: Seq<BlameIdView>,
) -> Seq<BlameIdView>
    decreases entries.len(),
{
    if entries.len() == 0 {
        Seq::empty()
    } else {
        let rest = entries.drop_last();
        let before = pending(blames, own, ignored, claimed, rest);
        let id = entries.last();
        if wanted(own, ignored, id) && !claimed_after(own, ignored, claimed, rest).contains(id)
            && !blames.contains(id) {
            before.push(id)
        } else {
            before
        }
    }
}

/// Goes through the tree of one commit and hands out the identifiers whose
/// authorship this worker has to compute: the files that the tree attributes
/// to its own commit, that are not excluded, that no worker has claimed
/// before, and that the store does not hold. Every file looked at is put in
/// flight.
pub fn pending_blames(store: &Store, ignore: &Gitignore, claimed: &mut InFlight, tree: &BlameTree) -> (due:
    Vec<BlameId>)
    requires
        forall|i: int| 0 <= i < tree@.blames.len() ==> plain_relative(#[trigger] tree@.blames[i].path),
    ensures
        final(claimed)@ == claimed_after(
            tree@.commit,
            ignored_paths(*ignore),
            old(claimed)@,
            tree@.blames,
        ),
        id_views(due@) == pending(
            store@.blames.dom(),
            tree@.commit,
            ignored_paths(*ignore),
            old(claimed)@,
            tree@.blames,
        ),
{
    let ghost own = tree@.commit;
    let ghost ignored = ignored_paths(*ignore);
    let ghost start = claimed@;
    let ghost all = tree@.blames;
    let ghost blames = store@.blames.dom();
    let mut due: Vec<BlameId> = Vec::new();
    let mut i: usize = 0;
    assert(all.take(0) =~= Seq::<BlameIdView>::empty());
    assert(id_views(due@) =~= Seq::<BlameIdView>::empty());
    while i < tree.blames.len()
        invariant
            i <= tree.blames.len(),
            own == tree@.commit,
            ignored == ignored_paths(*ignore),
            start == old(claimed)@,
            all == tree@.blames,
            blames == store@.blames.dom(),
            forall|j: int| 0 <= j < all.len() ==> plain_relative(#[trigger] all[j].path),
            claimed@ == claimed_after(own, ignored, start, all.take(i as int)),
            id_views(due@) == pending(blames, own, ignored, start, all.take(i as int)),
        decreases tree.blames.len() - i,
    {
        let id = &tree.blames[i];
        assert(all[i as int] == id@);
        assert(all.take(i + 1).drop_last() =~= all.take(i as int));
        assert(all.take(i + 1).last() == id@);
        assert(plain_relative(all[i as int].path));
        if claim_blame(ignore, claimed, &tree.commit, id) {
            if !store.blame_exists(id) {
                let ghost before = id_views(due@);
                due.push(id.clone());
                assert(id_views(due@) =~= before.push(id@));
            }
        }
        i += 1;
    }
    assert(all.take(i as int) =~= all);
    due
}

} // verus!
