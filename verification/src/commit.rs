//! Commits as the history provider reports them.

use vstd::prelude::*;

verus! {

/// One commit of the history. Times are seconds since the Unix epoch.
#[derive(Debug, PartialEq, Eq)]
pub struct Commit {
    pub hash: String,
    pub parents: Vec<String>,
    pub author: String,
    pub author_mail: String,
    pub author_time: i64,
    pub committer: String,
    pub committer_mail: String,
    pub committer_time: i64,
    pub subject: String,
}

/// The mathematical value of a [`Commit`].
pub struct CommitView {
    pub hash: Seq<char>,
    pub parents: Seq<Seq<char>>,
    pub author: Seq<char>,
    pub author_mail: Seq<char>,
    pub author_time: i64,
    pub committer: Seq<char>,
    pub committer_mail: Seq<char>,
    pub committer_time: i64,
    pub subject: Seq<char>,
}

/// The texts of a list of hashes.
pub open spec fn hash_views(hashes: Seq<String>) -> Seq<Seq<char>> {
    hashes.map_values(|h: String| h@)
}

impl View for Commit {
    type V = CommitView;

    open spec fn view(&self) -> CommitView {
        CommitView {
            hash: self.hash@,
            parents: hash_views(self.parents@),
            author: self.author@,
            author_mail: self.author_mail@,
            author_time: self.author_time,
            committer: self.committer@,
            committer_mail: self.committer_mail@,
            committer_time: self.committer_time,
            subject: self.subject@,
        }
    }
}

/// A copy of a list of hashes.
pub fn clone_hashes(hashes: &Vec<String>) -> (copy: Vec<String>)
    ensures
        hash_views(copy@) == hash_views(hashes@),
{
    let mut copy: Vec<String> = Vec::new();
    let mut i: usize = 0;
    while i < hashes.len()
        invariant
            i <= hashes.len(),
            copy.len() == i,
            forall|j: int| 0 <= j < i ==> copy[j]@ == hashes[j]@,
        decreases hashes.len() - i,
    {
        copy.push(hashes[i].clone());
        i += 1;
    }
    assert(hash_views(copy@) =~= hash_views(hashes@));
    copy
}

impl Clone for Commit {
    fn clone(&self) -> (res: Self)
        ensures
            res@ == self@,
    {
        Commit {
            hash: self.hash.clone(),
            parents: clone_hashes(&self.parents),
            author: self.author.clone(),
            author_mail: self.author_mail.clone(),
            author_time: self.author_time,
            committer: self.committer.clone(),
            committer_mail: self.committer_mail.clone(),
            committer_time: self.committer_time,
            subject: self.subject.clone(),
        }
    }
}

} // verus!
