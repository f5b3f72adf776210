//! Identifiers and records of per-file line authorship.

use sha2::{Digest, Sha256};
use vstd::prelude::*;
use vstd::string::StringExecFns;

verus! {

/// What the SHA-256 digest of a text's UTF-8 bytes reads as in lower-case
/// hexadecimal.
pub uninterp spec fn sha256_hex(text: Seq<char>) -> Seq<char>;

/// One of the characters `0` to `9` and `a` to `f`.
pub open spec fn is_lower_hex(c: char) -> bool {
    ('0' <= c && c <= '9') || ('a' <= c && c <= 'f')
}

/// The length of a digest in characters: two for each of its 32 bytes.
pub const DIGEST_CHARS: usize = 64;

/// Calls `sha2::Sha256::digest` on the bytes of `text` and formats the output
/// with `{:x}`. The contract claims that the result is a function of the
/// text, 64 characters long and written in lower-case hexadecimal digits.
#[verifier::external_body]
fn hex_digest(text: &str) -> (hex: String)
    ensures
        hex@ == sha256_hex(text@),
        hex@.len() == DIGEST_CHARS,
        forall|i: int| 0 <= i < hex@.len() ==> is_lower_hex(#[trigger] hex@[i]),
{
    format!("{:x}", Sha256::digest(text.as_bytes()))
}

/// The authorship of the file at `path` with content `blob`, as computed in
/// `commit`. Several commits share one identifier while the file is unchanged.
#[derive(Debug, PartialEq, Eq, Hash)]
pub struct BlameId {
    pub commit: String,
    pub blob: String,
    pub path: String,
}

/// The mathematical value of a [`BlameId`].
pub struct BlameIdView {
    pub commit: Seq<char>,
    pub blob: Seq<char>,
    pub path: Seq<char>,
}

impl View for BlameId {
    type V = BlameIdView;

    open spec fn view(&self) -> BlameIdView {
        BlameIdView { commit: self.commit@, blob: self.blob@, path: self.path@ }
    }
}

impl BlameIdView {
    /// The text whose digest names the identifier: the three fields in fixed
    /// order, without separators.
    pub open spec fn digest_input(self) -> Seq<char> {
        self.commit + self.blob + self.path
    }
}

impl Clone for BlameId {
    fn clone(&self) -> (res: Self)
        ensures
            res == *self,
    {
        BlameId { commit: self.commit.clone(), blob: self.blob.clone(), path: self.path.clone() }
    }
}

impl BlameId {
    /// Whether two identifiers agree in all three fields.
    pub fn same(&self, other: &BlameId) -> (res: bool)
        ensures
            res == (self@ == other@),
    {
        self.commit == other.commit && self.blob == other.blob && self.path == other.path
    }

    /// The digest that keys the identifier in a cache and names its file.
    pub fn sha256(&self) -> (hex: String)
        ensures
            hex@ == sha256_hex(self@.digest_input()),
            hex@.len() == DIGEST_CHARS,
            forall|i: int| 0 <= i < hex@.len() ==> is_lower_hex(#[trigger] hex@[i]),
    {
        let text = self.commit.clone().concat(self.blob.as_str()).concat(self.path.as_str());
        hex_digest(text.as_str())
    }
}

/// Two identifiers whose commit and blob names have the same lengths are
/// digested from the same text only if they are equal.
pub proof fn lemma_digest_input_injective(a: BlameIdView, b: BlameIdView)
    requires
        a.commit.len() == b.commit.len(),
        a.blob.len() == b.blob.len(),
        a.digest_input() == b.digest_input(),
    ensures
        a == b,
{
    let n = a.commit.len() as int;
    let m = a.blob.len() as int;
    let s = a.digest_input();
    let t = b.digest_input();
    assert(a.commit =~= s.subrange(0, n));
    assert(b.commit =~= t.subrange(0, n));
    assert(a.blob =~= s.subrange(n, n + m));
    assert(b.blob =~= t.subrange(n, n + m));
    assert(a.path =~= s.subrange(n + m, s.len() as int));
    assert(b.path =~= t.subrange(n + m, t.len() as int));
}

/// The texts of a list of identifiers.
pub open spec fn id_views(ids: Seq<BlameId>) -> Seq<BlameIdView> {
    ids.map_values(|id: BlameId| id@)
}

/// The texts and counts of a list of `(commit, lines)` pairs.
pub open spec fn line_views(lines: Seq<(String, u64)>) -> Seq<(Seq<char>, u64)> {
    lines.map_values(|l: (String, u64)| (l.0@, l.1))
}

/// The computed authorship of one file: for each commit that some line of
/// the file goes back to, the number of those lines.
#[derive(Debug, PartialEq, Eq)]
pub struct Blame {
    pub id: BlameId,
    pub lines_by_commit: Vec<(String, u64)>,
}

/// The mathematical value of a [`Blame`].
pub struct BlameView {
    pub id: BlameIdView,
    pub lines: Seq<(Seq<char>, u64)>,
}

impl View for Blame {
    type V = BlameView;

    open spec fn view(&self) -> BlameView {
        BlameView { id: self.id@, lines: line_views(self.lines_by_commit@) }
    }
}

/// The authorship identifiers of every tracked file in one commit's tree.
#[derive(Debug, PartialEq, Eq)]
pub struct BlameTree {
    pub commit: String,
    pub blames: Vec<BlameId>,
}

/// The mathematical value of a [`BlameTree`].
pub struct BlameTreeView {
    pub commit: Seq<char>,
    pub blames: Seq<BlameIdView>,
}

impl View for BlameTree {
    type V = BlameTreeView;

    open spec fn view(&self) -> BlameTreeView {
        BlameTreeView { commit: self.commit@, blames: id_views(self.blames@) }
    }
}

/// A copy of a list of identifiers.
pub fn clone_ids(ids: &Vec<BlameId>) -> (copy: Vec<BlameId>)
    ensures
        id_views(copy@) == id_views(ids@),
{
    let mut copy: Vec<BlameId> = Vec::new();
    let mut i: usize = 0;
    while i < ids.len()
        invariant
            i <= ids.len(),
            copy.len() == i,
            forall|j: int| 0 <= j < i ==> copy[j]@ == ids[j]@,
        decreases ids.len() - i,
    {
        copy.push(ids[i].clone());
        i += 1;
    }
    assert(id_views(copy@) =~= id_views(ids@));
    copy
}

/// A copy of a list of `(commit, lines)` pairs.
pub fn clone_lines(lines: &Vec<(String, u64)>) -> (copy: Vec<(String, u64)>)
    ensures
        line_views(copy@) == line_views(lines@),
{
    let mut copy: Vec<(String, u64)> = Vec::new();
    let mut i: usize = 0;
    while i < lines.len()
        invariant
            i <= lines.len(),
            copy.len() == i,
            forall|j: int| 0 <= j < i ==> copy[j].0@ == lines[j].0@ && copy[j].1 == lines[j].1,
        decreases lines.len() - i,
    {
        copy.push((lines[i].0.clone(), lines[i].1));
        i += 1;
    }
    assert(line_views(copy@) =~= line_views(lines@));
    copy
}

impl Clone for Blame {
    fn clone(&self) -> (res: Self)
        ensures
            res@ == self@,
    {
        Blame { id: self.id.clone(), lines_by_commit: clone_lines(&self.lines_by_commit) }
    }
}

impl Clone for BlameTree {
    fn clone(&self) -> (res: Self)
        ensures
            res@ == self@,
    {
        BlameTree { commit: self.commit.clone(), blames: clone_ids(&self.blames) }
    }
}

} // verus!
