//! A tree of authorship identifiers laid out along the directories of the
//! paths, as it is kept on disk: a path is cut at every `/`, and files of
//! one directory share the directory's node.

use crate::blame::{id_views, BlameId, BlameIdView};
use crate::cache::{key_index, lemma_key_index};
use crate::text::{lemma_index_from, split_at_first, split_once};
use vstd::prelude::*;
use vstd::string::StringExecFns;

verus! {

/// The components of a path: the parts between its slashes, empty parts
/// included.
pub open spec fn components(path: Seq<char>) -> Seq<Seq<char>>
    decreases path.len(),
{
    match split_at_first(path, '/') {
        None => seq![path],
        Some((name, rest)) => {
            proof {
                lemma_index_from(path, 0, '/');
            }
            seq![name] + components(rest)
        },
    }
}

/// The path of a child called `name` in the directory `path`.
pub open spec fn child_path(path: Seq<char>, name: Seq<char>) -> Seq<char> {
    if path.len() == 0 {
        name
    } else {
        path + seq!['/'] + name
    }
}

/// The identifier of the file with the given commit and blob at `path`.
pub open spec fn file_id(file: (Seq<char>, Seq<char>), path: Seq<char>) -> BlameIdView {
    BlameIdView { commit: file.0, blob: file.1, path }
}

/// The path that the components `comps` lead to from the directory `path`.
pub open spec fn path_below(path: Seq<char>, comps: Seq<Seq<char>>) -> Seq<char>
    decreases comps.len(),
{
    if comps.len() == 0 {
        path
    } else {
        path_below(child_path(path, comps[0]), comps.drop_first())
    }
}

/// The components of a path that does not begin with a slash lead back to
/// the path.
pub proof fn lemma_path_round_trip(path: Seq<char>)
    requires
        path.len() > 0 ==> path[0] != '/',
    ensures
        path_below(Seq::empty(), components(path)) == path,
{
    lemma_index_from(path, 0, '/');
    match split_at_first(path, '/') {
        None => {
            assert(components(path) =~= seq![path]);
            assert(components(path).drop_first() =~= Seq::<Seq<char>>::empty());
            assert(path_below(child_path(Seq::empty(), path), Seq::empty()) == path);
        },
        Some((name, rest)) => {
            let comps = components(path);
            assert(comps == seq![name] + components(rest));
            assert(comps[0] == name);
            assert(comps.drop_first() =~= components(rest));
            assert(name.len() > 0);
            lemma_path_below_dir(name, rest);
            assert(name + seq!['/'] + rest =~= path);
        },
    }
}

/// Below a directory, the components of a path lead to the path behind the
/// directory and a slash.
pub proof fn lemma_path_below_dir(dir: Seq<char>, path: Seq<char>)
    requires
        dir.len() > 0,
    ensures
        path_below(dir, components(path)) == dir + seq!['/'] + path,
    decreases path.len(),
{
    lemma_index_from(path, 0, '/');
    match split_at_first(path, '/') {
        None => {
            assert(components(path) =~= seq![path]);
            assert(components(path).drop_first() =~= Seq::<Seq<char>>::empty());
            assert(path_below(child_path(dir, path), Seq::empty()) == dir + seq!['/'] + path);
        },
        Some((name, rest)) => {
            let comps = components(path);
            assert(comps == seq![name] + components(rest));
            assert(comps[0] == name);
            assert(comps.drop_first() =~= components(rest));
            lemma_path_below_dir(child_path(dir, name), rest);
            assert(name + seq!['/'] + rest =~= path);
            assert(child_path(dir, name) + seq!['/'] + rest =~= dir + seq!['/'] + path);
        },
    }
}

/// A node of the tree: the commit and blob of the file that ends here, if
/// one does, and the nodes below.
pub struct BlameSubtree {
    id: Option<(String, String)>,
    sub: Vec<(String, BlameSubtree)>,
}

impl BlameSubtree {
    /// The commit and blob of the file that ends at this node.
    pub closed spec fn file(&self) -> Option<(Seq<char>, Seq<char>)> {
        match self.id {
            Some((commit, blob)) => Some((commit@, blob@)),
            None => None,
        }
    }

    /// The children with their names.
    pub closed spec fn children(&self) -> Seq<(Seq<char>, BlameSubtree)> {
        self.sub@.map_values(|c: (String, BlameSubtree)| (c.0@, c.1))
    }

    /// The commit and blob of the file that is reached from this node by the
    /// components `comps`.
    pub closed spec fn lookup(&self, comps: Seq<Seq<char>>) -> Option<(Seq<char>, Seq<char>)>
        decreases comps.len(),
    {
        if comps.len() == 0 {
            self.file()
        } else {
            let i = key_index(self.children(), comps[0]);
            if 0 <= i < self.children().len() {
                self.children()[i].1.lookup(comps.drop_first())
            } else {
                None
            }
        }
    }

    /// The identifiers of the files at and below this node, which stands for
    /// the directory `path`: the file of the node first, then the files of
    /// the children in order.
    pub closed spec fn flat(&self, path: Seq<char>) -> Seq<BlameIdView>
        decreases self, 1nat, 0nat,
    {
        let own = match self.file() {
            Some((commit, blob)) => seq![BlameIdView { commit, blob, path }],
            None => Seq::empty(),
        };
        own + self.flat_children(path, 0)
    }

    /// The identifiers of the files below the children from position `from`
    /// on.
    pub closed spec fn flat_children(&self, path: Seq<char>, from: nat) -> Seq<BlameIdView>
        decreases self, 0nat, self.children().len() - from,
    {
        if from >= self.children().len() {
            Seq::empty()
        } else {
            self.sub@[from as int].1.flat(child_path(path, self.sub@[from as int].0@))
                + self.flat_children(path, from + 1)
        }
    }

    /// The commit and blob of the file that ends at this node, and the
    /// children with their names.
    pub fn parts(&self) -> (parts: (&Option<(String, String)>, &Vec<(String, BlameSubtree)>))
        ensures
            match *parts.0 {
                Some((commit, blob)) => self.file() == Some((commit@, blob@)),
                None => self.file() is None,
            },
            parts.1@.map_values(|c: (String, BlameSubtree)| (c.0@, c.1)) == self.children(),
    {
        (&self.id, &self.sub)
    }

    /// The node with the given file and children.
    pub fn from_parts(id: Option<(String, String)>, sub: Vec<(String, BlameSubtree)>) -> (node: Self)
        ensures
            match id {
                Some((commit, blob)) => node.file() == Some((commit@, blob@)),
                None => node.file() is None,
            },
            node.children() == sub@.map_values(|c: (String, BlameSubtree)| (c.0@, c.1)),
    {
        BlameSubtree { id, sub }
    }

    /// The components that lead to each file at and below this node, in the
    /// order in which the files are listed.
    pub closed spec fn flat_keys(&self) -> Seq<Seq<Seq<char>>>
        decreases self, 1nat, 0nat,
    {
        let own = match self.file() {
            Some(_) => seq![Seq::<Seq<char>>::empty()],
            None => Seq::empty(),
        };
        own + self.child_keys(0)
    }

    /// The components that lead to each file below the children from
    /// position `from` on.
    pub closed spec fn child_keys(&self, from: nat) -> Seq<Seq<Seq<char>>>
        decreases self, 0nat, self.children().len() - from,
    {
        if from >= self.children().len() {
            Seq::empty()
        } else {
            self.sub@[from as int].1.flat_keys().map_values(
                |c: Seq<Seq<char>>| seq![self.sub@[from as int].0@] + c,
            ) + self.child_keys(from + 1)
        }
    }

    /// No two children of a node share a name, here and below.
    pub closed spec fn wf(&self) -> bool
        decreases self,
    {
        &&& forall|i: int, j: int|
            0 <= i < j < self.sub@.len() ==> self.sub@[i].0@ != self.sub@[j].0@
        &&& forall|i: int| 0 <= i < self.sub@.len() ==> (#[trigger] self.sub@[i]).1.wf()
    }

    /// What the files of one child are listed among the files of the
    /// children.
    proof fn lemma_child_listed(self, path: Seq<char>, from: nat, i: int, x: BlameIdView)
        requires
            from <= i < self.sub@.len(),
            self.sub@[i].1.flat(child_path(path, self.sub@[i].0@)).contains(x),
        ensures
            self.flat_children(path, from).contains(x),
        decreases i - from,
    {
        let head = self.sub@[from as int].1.flat(child_path(path, self.sub@[from as int].0@));
        let tail = self.flat_children(path, from + 1);
        if from == i {
            let k = choose|k: int| 0 <= k < head.len() && head[k] == x;
            assert((head + tail)[k] == x);
        } else {
            self.lemma_child_listed(path, from + 1, i, x);
            let k = choose|k: int| 0 <= k < tail.len() && tail[k] == x;
            assert((head + tail)[head.len() + k] == x);
        }
    }

    /// What is listed among the files of the children is a file of one
    /// child.
    proof fn lemma_listed_in_child(self, path: Seq<char>, from: nat, x: BlameIdView) -> (i: int)
        requires
            self.flat_children(path, from).contains(x),
        ensures
            from <= i < self.sub@.len(),
            self.sub@[i].1.flat(child_path(path, self.sub@[i].0@)).contains(x),
        decreases self.sub@.len() - from,
    {
        let head = self.sub@[from as int].1.flat(child_path(path, self.sub@[from as int].0@));
        let tail = self.flat_children(path, from + 1);
        let k = choose|k: int| 0 <= k < (head + tail).len() && (head + tail)[k] == x;
        if k < head.len() {
            assert(head[k] == x);
            from as int
        } else {
            assert(tail[k - head.len()] == x);
            self.lemma_listed_in_child(path, from + 1, x)
        }
    }

    /// Every file that a lookup finds is listed, under the path that its
    /// components lead to.
    pub proof fn lemma_found_is_listed(self, path: Seq<char>, comps: Seq<Seq<char>>)
        requires
            self.lookup(comps) is Some,
        ensures
            self.flat(path).contains(file_id(self.lookup(comps)->0, path_below(path, comps))),
        decreases comps.len(),
    {
        let found = self.lookup(comps)->0;
        let x = BlameIdView { commit: found.0, blob: found.1, path: path_below(path, comps) };
        let own = match self.file() {
            Some((commit, blob)) => seq![BlameIdView { commit, blob, path }],
            None => Seq::empty(),
        };
        let below = self.flat_children(path, 0);
        if comps.len() == 0 {
            assert((own + below)[0] == x);
        } else {
            lemma_key_index(self.children(), comps[0]);
            let i = key_index(self.children(), comps[0]);
            let child = self.sub@[i].1;
            assert(self.children()[i] == (self.sub@[i].0@, child));
            child.lemma_found_is_listed(child_path(path, comps[0]), comps.drop_first());
            self.lemma_child_listed(path, 0, i, x);
            let k = choose|k: int| 0 <= k < below.len() && below[k] == x;
            assert((own + below)[own.len() + k] == x);
        }
    }

    /// In a well-formed tree, every file that is listed is found by a
    /// lookup of components that lead to its path.
    pub proof fn lemma_listed_is_found(self, path: Seq<char>, x: BlameIdView) -> (comps: Seq<Seq<char>>)
        requires
            self.wf(),
            self.flat(path).contains(x),
        ensures
            self.lookup(comps) == Some((x.commit, x.blob)),
            x.path == path_below(path, comps),
        decreases self,
    {
        let own = match self.file() {
            Some((commit, blob)) => seq![BlameIdView { commit, blob, path }],
            None => Seq::empty(),
        };
        let below = self.flat_children(path, 0);
        let k = choose|k: int| 0 <= k < (own + below).len() && (own + below)[k] == x;
        if k < own.len() {
            assert(own[k] == x);
            Seq::empty()
        } else {
            assert(below[k - own.len()] == x);
            let i = self.lemma_listed_in_child(path, 0, x);
            let child = self.sub@[i].1;
            let name = self.sub@[i].0@;
            assert(self.sub@[i].1.wf());
            let rest = child.lemma_listed_is_found(child_path(path, name), x);
            let comps = seq![name] + rest;
            assert(comps.drop_first() =~= rest);
            assert(comps[0] == name);
            assert forall|j: int| 0 <= j < i implies self.children()[j].0 != name by {
                assert(self.sub@[j].0@ != self.sub@[i].0@);
            }
            assert(self.children()[i] == (name, child));
            lemma_first_key(self.children(), name, i);
            comps
        }
    }

    /// In a well-formed tree, the files below the children are listed one
    /// for each list of components, which leads to it and to its path.
    proof fn lemma_children_by_keys(self, path: Seq<char>, from: nat)
        requires
            self.wf(),
            from <= self.sub@.len(),
        ensures
            self.flat_children(path, from).len() == self.child_keys(from).len(),
            self.child_keys(from).no_duplicates(),
            forall|i: int|
                0 <= i < self.child_keys(from).len() ==> {
                    let c = #[trigger] self.child_keys(from)[i];
                    &&& c.len() > 0
                    &&& exists|j: int| from <= j < self.sub@.len() && self.sub@[j].0@ == c[0]
                    &&& self.lookup(c) is Some
                    &&& self.flat_children(path, from)[i] == file_id(self.lookup(c)->0, path_below(path, c))
                },
        decreases self, 0nat, self.sub@.len() - from,
    {
        if from < self.sub@.len() {
            let child = self.sub@[from as int].1;
            let name = self.sub@[from as int].0@;
            let below = child_path(path, name);
            let head_keys = child.flat_keys().map_values(|c: Seq<Seq<char>>| seq![name] + c);
            let tail_keys = self.child_keys(from + 1);
            let head = child.flat(below);
            let tail = self.flat_children(path, from + 1);
            assert(self.sub@[from as int].1.wf());
            child.lemma_flat_by_keys(below);
            self.lemma_children_by_keys(path, from + 1);
            assert(self.children()[from as int] == (name, child));
            assert forall|j: int| 0 <= j < from implies self.children()[j].0 != name by {
                assert(self.sub@[j].0@ != self.sub@[from as int].0@);
            }
            lemma_first_key(self.children(), name, from as int);
            let all = self.child_keys(from);
            assert(all == head_keys + tail_keys);
            assert forall|i: int| 0 <= i < all.len() implies {
                let c = #[trigger] all[i];
                &&& c.len() > 0
                &&& exists|j: int| from <= j < self.sub@.len() && self.sub@[j].0@ == c[0]
                &&& self.lookup(c) is Some
                &&& self.flat_children(path, from)[i] == file_id(self.lookup(c)->0, path_below(path, c))
            } by {
                let c = all[i];
                if i < head_keys.len() {
                    let inner = child.flat_keys()[i];
                    assert(c == seq![name] + inner);
                    assert(c[0] == name);
                    assert(c.drop_first() =~= inner);
                    assert(self.sub@[from as int].0@ == c[0]);
                    assert(self.lookup(c) == child.lookup(inner));
                    assert((head + tail)[i] == head[i]);
                } else {
                    let k = i - head_keys.len();
                    assert(c == tail_keys[k]);
                    assert((head + tail)[i] == tail[k]);
                    let j = choose|j: int| from + 1 <= j < self.sub@.len() && self.sub@[j].0@ == c[0];
                    assert(self.sub@[j].0@ == c[0]);
                }
            }
            assert forall|a: int, b: int| 0 <= a < b < all.len() implies all[a] != all[b] by {
                if b < head_keys.len() {
                    let ia = child.flat_keys()[a];
                    let ib = child.flat_keys()[b];
                    assert(all[a] == seq![name] + ia);
                    assert(all[b] == seq![name] + ib);
                    assert(ia != ib);
                    assert((seq![name] + ia).drop_first() =~= ia);
                    assert((seq![name] + ib).drop_first() =~= ib);
                } else if a >= head_keys.len() {
                    assert(tail_keys[a - head_keys.len()] != tail_keys[b - head_keys.len()]);
                } else {
                    let ia = child.flat_keys()[a];
                    assert(all[a] == seq![name] + ia);
                    assert(all[a][0] == name);
                    let cb = tail_keys[b - head_keys.len()];
                    assert(all[b] == cb);
                    let j = choose|j: int| from + 1 <= j < self.sub@.len() && self.sub@[j].0@ == cb[0];
                    assert(self.sub@[from as int].0@ != self.sub@[j].0@);
                }
            }
        }
    }

    /// In a well-formed tree, the files at and below a node are listed one
    /// for each list of components, which leads to it and to its path.
    pub proof fn lemma_flat_by_keys(self, path: Seq<char>)
        requires
            self.wf(),
        ensures
            self.flat(path).len() == self.flat_keys().len(),
            self.flat_keys().no_duplicates(),
            forall|i: int|
                0 <= i < self.flat_keys().len() ==> {
                    let c = #[trigger] self.flat_keys()[i];
                    &&& self.lookup(c) is Some
                    &&& self.flat(path)[i] == file_id(self.lookup(c)->0, path_below(path, c))
                },
        decreases self, 1nat, 0nat,
    {
        self.lemma_children_by_keys(path, 0);
        let own = match self.file() {
            Some((commit, blob)) => seq![BlameIdView { commit, blob, path }],
            None => Seq::empty(),
        };
        let own_keys = match self.file() {
            Some(_) => seq![Seq::<Seq<char>>::empty()],
            None => Seq::empty(),
        };
        let below = self.flat_children(path, 0);
        let below_keys = self.child_keys(0);
        let all = self.flat_keys();
        assert(all == own_keys + below_keys);
        assert forall|i: int| 0 <= i < all.len() implies {
            let c = #[trigger] all[i];
            &&& self.lookup(c) is Some
            &&& self.flat(path)[i] == file_id(self.lookup(c)->0, path_below(path, c))
        } by {
            if i < own_keys.len() {
                assert(all[i] == Seq::<Seq<char>>::empty());
                assert((own + below)[i] == own[i]);
            } else {
                let k = i - own_keys.len();
                assert(all[i] == below_keys[k]);
                assert((own + below)[i] == below[k]);
            }
        }
        assert forall|a: int, b: int| 0 <= a < b < all.len() implies all[a] != all[b] by {
            if a >= own_keys.len() {
                assert(below_keys[a - own_keys.len()] != below_keys[b - own_keys.len()]);
            } else {
                assert(all[a].len() == 0);
                assert(all[b] == below_keys[b - own_keys.len()]);
            }
        }
    }

    /// The components of a file of one child are among the components of the
    /// children.
    proof fn lemma_child_key_listed(self, from: nat, i: int, c: Seq<Seq<char>>)
        requires
            from <= i < self.sub@.len(),
            self.sub@[i].1.flat_keys().contains(c),
        ensures
            self.child_keys(from).contains(seq![self.sub@[i].0@] + c),
        decreases i - from,
    {
        let name = self.sub@[from as int].0@;
        let head = self.sub@[from as int].1.flat_keys().map_values(|c: Seq<Seq<char>>| seq![name] + c);
        let tail = self.child_keys(from + 1);
        let x = seq![self.sub@[i].0@] + c;
        if from == i {
            let k = choose|k: int|
                0 <= k < self.sub@[i].1.flat_keys().len() && self.sub@[i].1.flat_keys()[k] == c;
            assert(head[k] == x);
            assert((head + tail)[k] == x);
        } else {
            self.lemma_child_key_listed(from + 1, i, c);
            let k = choose|k: int| 0 <= k < tail.len() && tail[k] == x;
            assert((head + tail)[head.len() + k] == x);
        }
    }

    /// The components of every file that a lookup finds are among the
    /// components of the listing.
    pub proof fn lemma_found_in_keys(self, comps: Seq<Seq<char>>)
        requires
            self.lookup(comps) is Some,
        ensures
            self.flat_keys().contains(comps),
        decreases comps.len(),
    {
        let own_keys = match self.file() {
            Some(_) => seq![Seq::<Seq<char>>::empty()],
            None => Seq::empty(),
        };
        let below_keys = self.child_keys(0);
        if comps.len() == 0 {
            assert(comps =~= Seq::<Seq<char>>::empty());
            assert((own_keys + below_keys)[0] == comps);
        } else {
            lemma_key_index(self.children(), comps[0]);
            let i = key_index(self.children(), comps[0]);
            let child = self.sub@[i].1;
            assert(self.children()[i] == (self.sub@[i].0@, child));
            child.lemma_found_in_keys(comps.drop_first());
            self.lemma_child_key_listed(0, i, comps.drop_first());
            assert(seq![self.sub@[i].0@] + comps.drop_first() =~= comps);
            let k = choose|k: int| 0 <= k < below_keys.len() && below_keys[k] == comps;
            assert((own_keys + below_keys)[own_keys.len() + k] == comps);
        }
    }

    /// A node without a file and without children.
    pub fn new() -> (node: Self)
        ensures
            node.wf(),
            node.file() is None,
            node.children().len() == 0,
            forall|comps: Seq<Seq<char>>| node.lookup(comps) is None,
            forall|path: Seq<char>| node.flat(path).len() == 0,
    {
        let node = BlameSubtree { id: None, sub: Vec::new() };
        proof {
            assert forall|comps: Seq<Seq<char>>| node.lookup(comps) is None by {
                node.lemma_leaf(comps);
            }
            assert forall|path: Seq<char>| node.flat(path).len() == 0 by {
                assert(node.flat_children(path, 0).len() == 0);
            }
        }
        node
    }

    proof fn lemma_leaf(self, comps: Seq<Seq<char>>)
        requires
            self.id is None,
            self.sub@.len() == 0,
        ensures
            self.lookup(comps) is None,
    {
        if comps.len() > 0 {
            lemma_key_index(self.children(), comps[0]);
        }
    }

    /// The position of the child called `name`, which is added without a
    /// file and without children if there is none.
    fn child_position(&mut self, name: &String) -> (at: usize)
        ensures
            old(self).wf() ==> final(self).wf(),
            at < final(self).sub@.len(),
            at == key_index(final(self).children(), name@),
            final(self).id == old(self).id,
            forall|comps: Seq<Seq<char>>| final(self).lookup(comps) == old(self).lookup(comps),
            forall|i: int| 0 <= i < old(self).sub@.len() ==> final(self).sub@[i] == old(self).sub@[i],
    {
        let ghost before = self.children();
        proof {
            lemma_key_index(before, name@);
        }
        let mut i: usize = 0;
        while i < self.sub.len()
            invariant
                i <= self.sub.len(),
                *self == *old(self),
                before == self.children(),
                forall|j: int| 0 <= j < i ==> before[j].0 != name@,
            decreases self.sub.len() - i,
        {
            assert(before[i as int].0 == self.sub[i as int].0@);
            if self.sub[i].0 == *name {
                proof {
                    lemma_first_key(before, name@, i as int);
                }
                return i;
            }
            i += 1;
        }
        proof {
            lemma_first_key(before, name@, i as int);
        }
        let leaf = BlameSubtree::new();
        self.sub.push((name.clone(), leaf));
        proof {
            let after = self.children();
            assert(after =~= before.push((name@, leaf)));
            if old(self).wf() {
                assert forall|a: int, b: int| 0 <= a < b < self.sub@.len() implies self.sub@[a].0@
                    != self.sub@[b].0@ by {
                    if b < old(self).sub@.len() {
                        assert(old(self).sub@[a].0@ != old(self).sub@[b].0@);
                    } else {
                        assert(before[a].0 != name@);
                        assert(before[a].0 == old(self).sub@[a].0@);
                    }
                }
                assert forall|a: int| 0 <= a < self.sub@.len() implies (#[trigger] self.sub@[a]).1.wf() by {
                    if a < old(self).sub@.len() {
                        assert(old(self).sub@[a].1.wf());
                    }
                }
            }
            lemma_first_key(after, name@, i as int);
            assert forall|comps: Seq<Seq<char>>| self.lookup(comps) == old(self).lookup(comps) by {
                if comps.len() > 0 {
                    lemma_key_index(before, comps[0]);
                    lemma_key_index(after, comps[0]);
                    let a = key_index(before, comps[0]);
                    if a < before.len() {
                        lemma_first_key(after, comps[0], a);
                    } else if comps[0] == name@ {
                        assert(leaf.lookup(comps.drop_first()) is None);
                    } else {
                        lemma_first_key(after, comps[0], after.len() as int);
                    }
                }
            }
        }
        i
    }

    /// Puts the file at `path` with its commit and blob into the tree. A file
    /// that was there under the same path is replaced.
    pub fn insert(&mut self, path: &str, commit: String, blob: String)
        ensures
            old(self).wf() ==> final(self).wf(),
            forall|comps: Seq<Seq<char>>|
                final(self).lookup(comps) == if comps == components(path@) {
                    Some((commit@, blob@))
                } else {
                    old(self).lookup(comps)
                },
        decreases path@.len(),
    {
        let ghost start = *self;
        match split_once(path, '/') {
            None => {
                let name = String::from_str(path);
                let at = self.child_position(&name);
                let ghost mid = *self;
                let ghost before = self.children();
                proof {
                    lemma_key_index(before, name@);
                    assert(before[at as int].0 == self.sub@[at as int].0@);
                }
                let (n, child) = self.sub.remove(at);
                let kept = BlameSubtree { id: Some((commit, blob)), sub: child.sub };
                self.sub.insert(at, (n, kept));
                proof {
                    let after = self.children();
                    assert(self.sub@ =~= mid.sub@.update(at as int, (n, kept)));
                    assert(after =~= before.update(at as int, (name@, kept)));
                    if start.wf() {
                        assert(mid.wf());
                        assert(mid.sub@[at as int].1.wf());
                        assert(kept.wf()) by {
                            assert(kept.sub == child.sub);
                            assert(child == mid.sub@[at as int].1);
                        }
                        lemma_wf_after_update(mid, *self, at as int, kept);
                    }
                    assert(components(path@) =~= seq![path@]);
                    assert forall|comps: Seq<Seq<char>>|
                        self.lookup(comps) == if comps == components(path@) {
                            Some((commit@, blob@))
                        } else {
                            start.lookup(comps)
                        } by {
                        assert(mid.lookup(comps) == start.lookup(comps));
                        lemma_lookup_after_update(mid, *self, at as int, kept, comps);
                        if comps.len() > 0 && comps[0] == name@ {
                            let tail = comps.drop_first();
                            if tail.len() == 0 {
                                assert(comps =~= seq![path@]);
                            } else {
                                assert(kept.children() == child.children());
                                assert(kept.lookup(tail) == child.lookup(tail));
                            }
                        }
                    }
                }
            },
            Some((name, rest)) => {
                proof {
                    lemma_index_from(path@, 0, '/');
                }
                let at = self.child_position(&name);
                let ghost mid = *self;
                let ghost before = self.children();
                proof {
                    lemma_key_index(before, name@);
                    assert(before[at as int].0 == self.sub@[at as int].0@);
                }
                let (n, child) = self.sub.remove(at);
                let mut child = child;
                let ghost was = child;
                child.insert(rest.as_str(), commit, blob);
                self.sub.insert(at, (n, child));
                proof {
                    let after = self.children();
                    assert(self.sub@ =~= mid.sub@.update(at as int, (n, child)));
                    assert(after =~= before.update(at as int, (name@, child)));
                    if start.wf() {
                        assert(mid.wf());
                        assert(mid.sub@[at as int].1.wf());
                        assert(was == mid.sub@[at as int].1);
                        lemma_wf_after_update(mid, *self, at as int, child);
                    }
                    assert(components(path@) =~= seq![name@] + components(rest@));
                    assert forall|comps: Seq<Seq<char>>|
                        self.lookup(comps) == if comps == components(path@) {
                            Some((commit@, blob@))
                        } else {
                            start.lookup(comps)
                        } by {
                        assert(mid.lookup(comps) == start.lookup(comps));
                        lemma_lookup_after_update(mid, *self, at as int, child, comps);
                        if comps.len() > 0 && comps[0] == name@ {
                            let tail = comps.drop_first();
                            assert(comps =~= seq![name@] + tail);
                            if tail == components(rest@) {
                                assert(comps =~= components(path@));
                            } else {
                                assert((seq![name@] + components(rest@)).drop_first() =~= components(
                                    rest@,
                                ));
                            }
                        } else if comps.len() > 0 {
                            assert(components(path@)[0] == name@);
                        }
                    }
                }
            },
        }
    }

    /// Appends the identifiers of the files at and below this node, which
    /// stands for the directory `path`.
    fn collect(&self, path: &str, blames: &mut Vec<BlameId>)
        ensures
            id_views(final(blames)@) == id_views(old(blames)@) + self.flat(path@),
        decreases self,
    {
        let ghost start = id_views(blames@);
        match &self.id {
            Some((commit, blob)) => {
                blames.push(
                    BlameId { commit: commit.clone(), blob: blob.clone(), path: String::from_str(path) },
                );
                assert(id_views(blames@) =~= start.push(
                    BlameIdView { commit: commit@, blob: blob@, path: path@ },
                ));
            },
            None => {
                assert(id_views(blames@) =~= start + Seq::<BlameIdView>::empty());
            },
        }
        let ghost own = id_views(blames@);
        assert(own + self.flat_children(path@, 0) =~= start + self.flat(path@));
        let mut k: usize = 0;
        while k < self.sub.len()
            invariant
                k <= self.sub.len(),
                own + self.flat_children(path@, 0) == id_views(blames@) + self.flat_children(
                    path@,
                    k as nat,
                ),
            decreases self.sub.len() - k,
        {
            let name = &self.sub[k].0;
            let subpath = if path.is_empty() {
                name.clone()
            } else {
                String::from_str(path).concat("/").concat(name.as_str())
            };
            proof {
                reveal_strlit("/");
                assert("/"@ =~= seq!['/']);
                assert(subpath@ =~= child_path(path@, self.sub@[k as int].0@));
            }
            let ghost before = id_views(blames@);
            self.sub[k].1.collect(subpath.as_str(), blames);
            assert(before + (self.sub@[k as int].1.flat(subpath@) + self.flat_children(
                path@,
                (k + 1) as nat,
            )) =~= before + self.sub@[k as int].1.flat(subpath@) + self.flat_children(
                path@,
                (k + 1) as nat,
            ));
            k += 1;
        }
        assert(self.flat_children(path@, self.sub@.len()).len() == 0);
        assert(id_views(blames@) + self.flat_children(path@, self.sub@.len()) =~= id_views(blames@));
    }

    /// Appends the identifiers of the files at and below this node, which
    /// stands for the directory `path`.
    pub fn into_blames(self, path: &str, blames: &mut Vec<BlameId>)
        ensures
            id_views(final(blames)@) == id_views(old(blames)@) + self.flat(path@),
    {
        self.collect(path, blames);
    }
}

/// The first entry under a key is where `key_index` points.
proof fn lemma_first_key<KV, VV>(entries: Seq<(KV, VV)>, key: KV, i: int)
    requires
        0 <= i <= entries.len(),
        i < entries.len() ==> entries[i].0 == key,
        forall|j: int| 0 <= j < i ==> entries[j].0 != key,
    ensures
        key_index(entries, key) == i,
{
    lemma_key_index(entries, key);
}

/// A well-formed node stays well formed when one child is replaced by a
/// well-formed child under the same name.
proof fn lemma_wf_after_update(before: BlameSubtree, after: BlameSubtree, at: int, child: BlameSubtree)
    requires
        before.wf(),
        child.wf(),
        0 <= at < before.sub@.len(),
        after.sub@.len() == before.sub@.len(),
        after.sub@[at].0@ == before.sub@[at].0@,
        after.sub@[at].1 == child,
        forall|j: int| 0 <= j < before.sub@.len() && j != at ==> after.sub@[j] == before.sub@[j],
    ensures
        after.wf(),
{
    assert forall|i: int, j: int| 0 <= i < j < after.sub@.len() implies after.sub@[i].0@
        != after.sub@[j].0@ by {
        assert(before.sub@[i].0@ != before.sub@[j].0@);
    }
    assert forall|i: int| 0 <= i < after.sub@.len() implies (#[trigger] after.sub@[i]).1.wf() by {
        if i != at {
            assert(before.sub@[i].1.wf());
        }
    }
}

/// A lookup after the child at one position was replaced: it goes the same
/// way, and differs only below that child.
proof fn lemma_lookup_after_update(
    before: BlameSubtree,
    after: BlameSubtree,
    at: int,
    child: BlameSubtree,
    comps: Seq<Seq<char>>,
)
    requires
        0 <= at < before.children().len(),
        at == key_index(before.children(), before.children()[at].0),
        after.children() == before.children().update(at, (before.children()[at].0, child)),
        after.file() == before.file(),
    ensures
        after.lookup(comps) == if comps.len() > 0 && comps[0] == before.children()[at].0 {
            child.lookup(comps.drop_first())
        } else {
            before.lookup(comps)
        },
{
    if comps.len() > 0 {
        let b = before.children();
        let a = after.children();
        lemma_key_index(b, comps[0]);
        let i = key_index(b, comps[0]);
        assert forall|j: int| 0 <= j < a.len() implies a[j].0 == b[j].0 by {}
        lemma_first_key(a, comps[0], i);
    }
}

/// The tree of one commit as it is kept on disk.
pub struct BlameTree {
    pub commit: String,
    blames: BlameSubtree,
}

/// The commit and blob that a list of identifiers holds for the path with
/// the components `comps`; of several, the last counts.
pub open spec fn file_at(blames: Seq<BlameIdView>, comps: Seq<Seq<char>>) -> Option<
    (Seq<char>, Seq<char>),
>
    decreases blames.len(),
{
    if blames.len() == 0 {
        None
    } else if components(blames.last().path) == comps {
        Some((blames.last().commit, blames.last().blob))
    } else {
        file_at(blames.drop_last(), comps)
    }
}

/// What a list of identifiers holds for some components is the commit and
/// blob of one of its identifiers with those components, and it holds
/// something for the components of each of its identifiers.
pub proof fn lemma_file_at(blames: Seq<BlameIdView>, comps: Seq<Seq<char>>)
    ensures
        file_at(blames, comps) is Some ==> exists|k: int|
            0 <= k < blames.len() && components(#[trigger] blames[k].path) == comps && file_at(
                blames,
                comps,
            ) == Some((blames[k].commit, blames[k].blob)),
        (exists|k: int| 0 <= k < blames.len() && components(#[trigger] blames[k].path) == comps)
            ==> file_at(blames, comps) is Some,
    decreases blames.len(),
{
    if blames.len() > 0 {
        let rest = blames.drop_last();
        lemma_file_at(rest, comps);
        if components(blames.last().path) == comps {
            assert(components(blames[blames.len() - 1].path) == comps);
        } else {
            if file_at(blames, comps) is Some {
                let k = choose|k: int|
                    0 <= k < rest.len() && components(#[trigger] rest[k].path) == comps && file_at(
                        rest,
                        comps,
                    ) == Some((rest[k].commit, rest[k].blob));
                assert(components(blames[k].path) == comps);
            }
            if exists|k: int| 0 <= k < blames.len() && components(#[trigger] blames[k].path) == comps {
                let k = choose|k: int|
                    0 <= k < blames.len() && components(#[trigger] blames[k].path) == comps;
                assert(components(rest[k].path) == comps);
            }
        }
    }
}

/// The paths of the identifiers differ from each other, and none begins with
/// a slash.
pub open spec fn plain_paths(blames: Seq<BlameIdView>) -> bool {
    &&& forall|i: int, j: int| 0 <= i < j < blames.len() ==> blames[i].path != blames[j].path
    &&& forall|i: int|
        0 <= i < blames.len() ==> ((#[trigger] blames[i]).path.len() > 0 ==> blames[i].path[0] != '/')
}

impl BlameTree {
    /// A tree that holds what a list of identifiers with plain paths holds
    /// lists those identifiers, each once and none besides: what is built
    /// from such a list and taken apart again is the list, in some order.
    pub proof fn lemma_round_trip(self, blames: Seq<BlameIdView>)
        requires
            self.wf(),
            plain_paths(blames),
            forall|comps: Seq<Seq<char>>| self.lookup(comps) == file_at(blames, comps),
        ensures
            self.flat().len() == blames.len(),
            self.flat().to_multiset() == blames.to_multiset(),
    {
        let flat = self.flat();
        let keys = self.keys();
        self.lemma_each_file_once();
        // Every listed identifier is one of the list.
        assert forall|i: int| 0 <= i < flat.len() implies blames.contains(#[trigger] flat[i]) by {
            let c = keys[i];
            lemma_file_at(blames, c);
            let k = choose|k: int|
                0 <= k < blames.len() && components(#[trigger] blames[k].path) == c && file_at(blames, c)
                    == Some((blames[k].commit, blames[k].blob));
            lemma_path_round_trip(blames[k].path);
            assert(flat[i] == blames[k]);
        }
        // Every identifier of the list is listed.
        assert forall|k: int| 0 <= k < blames.len() implies flat.contains(#[trigger] blames[k]) by {
            let c = components(blames[k].path);
            lemma_file_at(blames, c);
            assert(file_at(blames, c) is Some);
            let q = choose|q: int|
                0 <= q < blames.len() && components(#[trigger] blames[q].path) == c && file_at(blames, c)
                    == Some((blames[q].commit, blames[q].blob));
            lemma_path_round_trip(blames[k].path);
            lemma_path_round_trip(blames[q].path);
            assert(blames[q].path == blames[k].path);
            assert(q == k);
            assert(self.lookup(c) is Some);
            assert(keys.contains(c));
            let i = choose|i: int| 0 <= i < keys.len() && keys[i] == c;
            assert(flat[i] == blames[k]);
        }
        // Neither holds an identifier twice.
        assert forall|i: int, j: int| 0 <= i < j < flat.len() implies flat[i] != flat[j] by {
            lemma_file_at(blames, keys[i]);
            lemma_file_at(blames, keys[j]);
            let a = choose|a: int|
                0 <= a < blames.len() && components(#[trigger] blames[a].path) == keys[i] && file_at(
                    blames,
                    keys[i],
                ) == Some((blames[a].commit, blames[a].blob));
            let b = choose|b: int|
                0 <= b < blames.len() && components(#[trigger] blames[b].path) == keys[j] && file_at(
                    blames,
                    keys[j],
                ) == Some((blames[b].commit, blames[b].blob));
            lemma_path_round_trip(blames[a].path);
            lemma_path_round_trip(blames[b].path);
            assert(flat[i].path == blames[a].path);
            assert(flat[j].path == blames[b].path);
            assert(keys[i] != keys[j]);
        }
        assert(flat.no_duplicates());
        assert(blames.no_duplicates());
        flat.lemma_multiset_has_no_duplicates();
        blames.lemma_multiset_has_no_duplicates();
        broadcast use vstd::seq_lib::group_to_multiset_ensures;
        assert forall|x: BlameIdView| flat.to_multiset().count(x) == blames.to_multiset().count(x) by {
            if flat.contains(x) {
                let i = choose|i: int| 0 <= i < flat.len() && flat[i] == x;
                assert(blames.contains(flat[i]));
            }
            if blames.contains(x) {
                let k = choose|k: int| 0 <= k < blames.len() && blames[k] == x;
                assert(flat.contains(blames[k]));
            }
        }
        assert(flat.to_multiset() =~= blames.to_multiset());
        flat.to_multiset_ensures();
        blames.to_multiset_ensures();
    }

    /// The commit and blob of the file at the path with the components
    /// `comps`.
    pub closed spec fn lookup(&self, comps: Seq<Seq<char>>) -> Option<(Seq<char>, Seq<char>)> {
        self.blames.lookup(comps)
    }

    /// No two nodes of one directory share a name.
    pub closed spec fn wf(&self) -> bool {
        self.blames.wf()
    }

    /// Every file that a lookup finds is among the identifiers of the tree,
    /// under the path that its components lead to.
    pub proof fn lemma_found_is_listed(self, comps: Seq<Seq<char>>)
        requires
            self.lookup(comps) is Some,
        ensures
            self.flat().contains(file_id(self.lookup(comps)->0, path_below(Seq::empty(), comps))),
    {
        self.blames.lemma_found_is_listed(Seq::empty(), comps);
    }

    /// In a well-formed tree, every identifier of the tree is a file that a
    /// lookup finds by components that lead to its path.
    pub proof fn lemma_listed_is_found(self, x: BlameIdView) -> (comps: Seq<Seq<char>>)
        requires
            self.wf(),
            self.flat().contains(x),
        ensures
            self.lookup(comps) == Some((x.commit, x.blob)),
            x.path == path_below(Seq::empty(), comps),
    {
        self.blames.lemma_listed_is_found(Seq::empty(), x)
    }

    /// The components that lead to each identifier of the tree, in the order
    /// of [`BlameTree::flat`].
    pub closed spec fn keys(&self) -> Seq<Seq<Seq<char>>> {
        self.blames.flat_keys()
    }

    /// A well-formed tree lists every file that a lookup finds exactly
    /// once: the identifiers stand one for each list of components that
    /// leads to a file, no list stands twice, and every list that leads to a
    /// file is among them.
    pub proof fn lemma_each_file_once(self)
        requires
            self.wf(),
        ensures
            self.flat().len() == self.keys().len(),
            self.keys().no_duplicates(),
            forall|i: int|
                0 <= i < self.keys().len() ==> {
                    let c = #[trigger] self.keys()[i];
                    &&& self.lookup(c) is Some
                    &&& self.flat()[i] == file_id(self.lookup(c)->0, path_below(Seq::empty(), c))
                },
            forall|comps: Seq<Seq<char>>| self.lookup(comps) is Some ==> self.keys().contains(comps),
    {
        self.blames.lemma_flat_by_keys(Seq::empty());
        assert forall|comps: Seq<Seq<char>>| self.lookup(comps) is Some implies self.keys().contains(
            comps,
        ) by {
            self.blames.lemma_found_in_keys(comps);
        }
    }

    /// The commit whose tree this is.
    pub closed spec fn commit_hash(&self) -> String {
        self.commit
    }

    /// The identifiers of the tree, directory by directory.
    pub closed spec fn flat(&self) -> Seq<BlameIdView> {
        self.blames.flat(Seq::empty())
    }

    /// The root of the tree: the node of the top directory.
    pub fn root(&self) -> (root: &BlameSubtree)
        ensures
            root.wf() == self.wf(),
            forall|comps: Seq<Seq<char>>| root.lookup(comps) == self.lookup(comps),
            root.flat(Seq::empty()) == self.flat(),
    {
        &self.blames
    }

    /// The tree of `commit` with the given root.
    pub fn from_root(commit: String, root: BlameSubtree) -> (tree: Self)
        ensures
            tree.wf() == root.wf(),
            tree.commit_hash() == commit,
            forall|comps: Seq<Seq<char>>| tree.lookup(comps) == root.lookup(comps),
            tree.flat() == root.flat(Seq::empty()),
    {
        BlameTree { commit, blames: root }
    }

    /// The tree of `commit` with the files of `blames`.
    pub fn new(commit: String, blames: Vec<BlameId>) -> (tree: Self)
        ensures
            tree.wf(),
            tree.commit_hash() == commit,
            forall|comps: Seq<Seq<char>>| tree.lookup(comps) == file_at(id_views(blames@), comps),
    {
        let ghost all = id_views(blames@);
        let mut root = BlameSubtree::new();
        let mut i: usize = 0;
        assert(all.take(0) =~= Seq::<BlameIdView>::empty());
        while i < blames.len()
            invariant
                i <= blames.len(),
                all == id_views(blames@),
                root.wf(),
                forall|comps: Seq<Seq<char>>| root.lookup(comps) == file_at(all.take(i as int), comps),
            decreases blames.len() - i,
        {
            let ghost before = root;
            assert(all.take(i + 1).drop_last() =~= all.take(i as int));
            assert(all.take(i + 1).last() == blames[i as int]@);
            root.insert(blames[i].path.as_str(), blames[i].commit.clone(), blames[i].blob.clone());
            assert forall|comps: Seq<Seq<char>>| root.lookup(comps) == file_at(
                all.take(i + 1),
                comps,
            ) by {
                assert(before.lookup(comps) == file_at(all.take(i as int), comps));
            }
            i += 1;
        }
        assert(all.take(blames.len() as int) =~= all);
        BlameTree { commit, blames: root }
    }

    /// The commit of the tree and the identifiers of its files.
    pub fn destruct(self) -> (parts: (String, Vec<BlameId>))
        ensures
            parts.0 == self.commit_hash(),
            id_views(parts.1@) == self.flat(),
    {
        let mut blames: Vec<BlameId> = Vec::new();
        let BlameTree { commit, blames: root } = self;
        proof {
            reveal_strlit("");
            assert(""@ =~= Seq::<char>::empty());
        }
        assert(id_views(blames@) + root.flat(""@) =~= root.flat(Seq::empty()));
        root.into_blames("", &mut blames);
        (commit, blames)
    }
}

} // verus!
