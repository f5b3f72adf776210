//! Reading what the history provider prints: the commit list, the tree
//! snapshot of a commit, and the line-by-line origin of a file.

use crate::commit::{Commit, CommitView};
use crate::tally::{lines_of, pair_keys, pairs_map, tally_add, Tally};
use crate::text::{
    chars_of, find_from, first_part, lines_from, split_at_first,
    split_once, string_of, string_views, words_from, words_of,
};
use crate::zone::{parse_timestamp, timestamp_seconds};
use vstd::prelude::*;
use vstd::utf8::encode_utf8;

verus! {

/// A line that the history provider does not print.
#[derive(Debug, PartialEq, Eq)]
pub enum ParseError {
    /// A time of a commit is no timestamp.
    BadTimestamp(String),
    /// A line of a tree snapshot holds no space between blob and path.
    BadTreeLine(String),
    /// The first line of an origin entry starts with a tab, or its first
    /// word is no hash of forty bytes.
    BadBlameLine(String),
}

/// The mathematical value of a [`ParseError`].
pub enum ParseErrorView {
    BadTimestamp(Seq<char>),
    BadTreeLine(Seq<char>),
    BadBlameLine(Seq<char>),
}

impl View for ParseError {
    type V = ParseErrorView;

    open spec fn view(&self) -> ParseErrorView {
        match self {
            ParseError::BadTimestamp(text) => ParseErrorView::BadTimestamp(text@),
            ParseError::BadTreeLine(text) => ParseErrorView::BadTreeLine(text@),
            ParseError::BadBlameLine(text) => ParseErrorView::BadBlameLine(text@),
        }
    }
}

/// The number of lines that the commit list prints for one commit.
pub const ENTRY_LINES: usize = 9;

/// The commit that the nine lines from position `pos` on describe, and the
/// position behind them. `Ok(None)` where the lines run out first. The lines
/// are read in order, so a bad time counts only if the lines reach it.
pub open spec fn rev_list_entry(lines: Seq<Seq<char>>, pos: int) -> Result<
    Option<(CommitView, int)>,
    ParseErrorView,
> {
    if lines.len() - pos < 5 {
        Ok(None)
    } else if timestamp_seconds(lines[pos + 4]) is None {
        Err(ParseErrorView::BadTimestamp(lines[pos + 4]))
    } else if lines.len() - pos < 8 {
        Ok(None)
    } else if timestamp_seconds(lines[pos + 7]) is None {
        Err(ParseErrorView::BadTimestamp(lines[pos + 7]))
    } else if lines.len() - pos < 9 {
        Ok(None)
    } else {
        Ok(
            Some(
                (
                    CommitView {
                        hash: lines[pos],
                        parents: words_from(lines[pos + 1], 0),
                        author: lines[pos + 2],
                        author_mail: lines[pos + 3],
                        author_time: timestamp_seconds(lines[pos + 4])->0,
                        committer: lines[pos + 5],
                        committer_mail: lines[pos + 6],
                        committer_time: timestamp_seconds(lines[pos + 7])->0,
                        subject: lines[pos + 8],
                    },
                    pos + 9,
                ),
            ),
        )
    }
}

/// Reads the commit that starts at line `pos` of a commit list.
pub fn parse_rev_list_entry(lines: &Vec<String>, pos: usize) -> (res: Result<
    Option<(Commit, usize)>,
    ParseError,
>)
    requires
        pos <= lines.len(),
    ensures
        match res {
            Ok(Some((commit, next))) => rev_list_entry(string_views(lines@), pos as int) == Ok::<
                Option<(CommitView, int)>,
                ParseErrorView,
            >(Some((commit@, next as int))),
            Ok(None) => rev_list_entry(string_views(lines@), pos as int) == Ok::<
                Option<(CommitView, int)>,
                ParseErrorView,
            >(None),
            Err(e) => rev_list_entry(string_views(lines@), pos as int) == Err::<
                Option<(CommitView, int)>,
                ParseErrorView,
            >(e@),
        },
{
    let ghost views = string_views(lines@);
    let left = lines.len() - pos;
    if left < 5 {
        return Ok(None);
    }
    assert(views[pos + 4] == lines[pos + 4]@);
    let author_time = match parse_timestamp(lines[pos + 4].as_str()) {
        Some(secs) => secs,
        None => {
            return Err(ParseError::BadTimestamp(lines[pos + 4].clone()));
        },
    };
    if left < 8 {
        return Ok(None);
    }
    assert(views[pos + 7] == lines[pos + 7]@);
    let committer_time = match parse_timestamp(lines[pos + 7].as_str()) {
        Some(secs) => secs,
        None => {
            return Err(ParseError::BadTimestamp(lines[pos + 7].clone()));
        },
    };
    if left < 9 {
        return Ok(None);
    }
    assert(views[pos as int] == lines[pos as int]@);
    assert(views[pos + 1] == lines[pos + 1]@);
    assert(views[pos + 2] == lines[pos + 2]@);
    assert(views[pos + 3] == lines[pos + 3]@);
    assert(views[pos + 5] == lines[pos + 5]@);
    assert(views[pos + 6] == lines[pos + 6]@);
    assert(views[pos + 8] == lines[pos + 8]@);
    let parents = words_of(lines[pos + 1].as_str());
    assert(crate::commit::hash_views(parents@) =~= string_views(parents@));
    let commit = Commit {
        hash: lines[pos].clone(),
        parents,
        author: lines[pos + 2].clone(),
        author_mail: lines[pos + 3].clone(),
        author_time,
        committer: lines[pos + 5].clone(),
        committer_mail: lines[pos + 6].clone(),
        committer_time,
        subject: lines[pos + 8].clone(),
    };
    Ok(Some((commit, pos + 9)))
}

/// The commits that a commit list describes from line `pos` on; reading ends
/// where the lines run out.
pub open spec fn rev_list_from(lines: Seq<Seq<char>>, pos: int) -> Result<Seq<CommitView>, ParseErrorView>
    decreases lines.len() - pos,
{
    match rev_list_entry(lines, pos) {
        Err(e) => Err(e),
        Ok(None) => Ok(Seq::empty()),
        Ok(Some((commit, next))) => match rev_list_from(lines, next) {
            Err(e) => Err(e),
            Ok(rest) => Ok(seq![commit] + rest),
        },
    }
}

/// The values of a list of commits.
pub open spec fn commit_views(commits: Seq<Commit>) -> Seq<CommitView> {
    commits.map_values(|c: Commit| c@)
}

/// Reads a commit list: the commits in the order in which they are listed,
/// which is from the newest to the oldest.
pub fn parse_rev_list(text: &str) -> (res: Result<Vec<Commit>, ParseError>)
    ensures
        match res {
            Ok(commits) => rev_list_from(lines_from(text@, 0), 0) == Ok::<
                Seq<CommitView>,
                ParseErrorView,
            >(commit_views(commits@)),
            Err(e) => rev_list_from(lines_from(text@, 0), 0) == Err::<Seq<CommitView>, ParseErrorView>(
                e@,
            ),
        },
{
    let lines = crate::text::lines_of(text);
    let ghost views = string_views(lines@);
    let mut commits: Vec<Commit> = Vec::new();
    let mut pos: usize = 0;
    loop
        invariant
            pos <= lines.len(),
            views == string_views(lines@),
            views == lines_from(text@, 0),
            rev_list_from(views, 0) == match rev_list_from(views, pos as int) {
                Ok(rest) => Ok::<Seq<CommitView>, ParseErrorView>(commit_views(commits@) + rest),
                Err(e) => Err(e),
            },
        decreases lines.len() - pos,
    {
        let ghost before = commit_views(commits@);
        match parse_rev_list_entry(&lines, pos) {
            Err(e) => {
                return Err(e);
            },
            Ok(None) => {
                assert(before + Seq::<CommitView>::empty() =~= before);
                return Ok(commits);
            },
            Ok(Some((commit, next))) => {
                proof {
                    let tail = rev_list_from(views, next as int);
                    if tail is Ok {
                        assert(before.push(commit@) + tail->Ok_0 =~= before + (seq![commit@]
                            + tail->Ok_0));
                    }
                }
                commits.push(commit);
                assert(commit_views(commits@) =~= before.push(commit@));
                pos = next;
            },
        }
    }
}

/// The `(path, blob)` pairs that the lines of a tree snapshot list from line
/// `pos` on. A line holds the blob, a space, and the path.
pub open spec fn tree_files_from(lines: Seq<Seq<char>>, pos: int) -> Result<
    Seq<(Seq<char>, Seq<char>)>,
    ParseErrorView,
>
    decreases lines.len() - pos,
{
    if pos < 0 || pos >= lines.len() {
        Ok(Seq::empty())
    } else {
        match split_at_first(lines[pos], ' ') {
            None => Err(ParseErrorView::BadTreeLine(lines[pos])),
            Some((blob, path)) => match tree_files_from(lines, pos + 1) {
                Err(e) => Err(e),
                Ok(rest) => Ok(seq![(path, blob)] + rest),
            },
        }
    }
}

/// Reads the tree snapshot of a commit: the `(path, blob)` pair of every
/// file, in the order in which the files are listed.
pub fn parse_ls_tree(text: &str) -> (res: Result<Vec<(String, String)>, ParseError>)
    ensures
        match res {
            Ok(files) => tree_files_from(lines_from(text@, 0), 0) == Ok::<
                Seq<(Seq<char>, Seq<char>)>,
                ParseErrorView,
            >(crate::gather::file_views(files@)),
            Err(e) => tree_files_from(lines_from(text@, 0), 0) == Err::<
                Seq<(Seq<char>, Seq<char>)>,
                ParseErrorView,
            >(e@),
        },
{
    let lines = crate::text::lines_of(text);
    let ghost views = string_views(lines@);
    let mut files: Vec<(String, String)> = Vec::new();
    let mut pos: usize = 0;
    assert(crate::gather::file_views(files@) + Seq::<(Seq<char>, Seq<char>)>::empty()
        =~= crate::gather::file_views(files@));
    while pos < lines.len()
        invariant
            pos <= lines.len(),
            views == string_views(lines@),
            views == lines_from(text@, 0),
            tree_files_from(views, 0) == match tree_files_from(views, pos as int) {
                Ok(rest) => Ok::<Seq<(Seq<char>, Seq<char>)>, ParseErrorView>(
                    crate::gather::file_views(files@) + rest,
                ),
                Err(e) => Err(e),
            },
        decreases lines.len() - pos,
    {
        let ghost before = crate::gather::file_views(files@);
        assert(views[pos as int] == lines[pos as int]@);
        match split_once(lines[pos].as_str(), ' ') {
            None => {
                return Err(ParseError::BadTreeLine(lines[pos].clone()));
            },
            Some((blob, path)) => {
                proof {
                    let tail = tree_files_from(views, pos + 1);
                    if tail is Ok {
                        assert(before.push((path@, blob@)) + tail->Ok_0 =~= before + (seq![
                            (path@, blob@),
                        ] + tail->Ok_0));
                    }
                }
                files.push((path, blob));
                assert(crate::gather::file_views(files@) =~= before.push((path@, blob@)));
            },
        }
        pos += 1;
    }
    assert(crate::gather::file_views(files@) + Seq::<(Seq<char>, Seq<char>)>::empty()
        =~= crate::gather::file_views(files@));
    Ok(files)
}

/// The number of bytes of a commit hash in an origin entry.
pub const HASH_BYTES: usize = 40;

/// A line can start an origin entry: it does not start with a tab, and its
/// first word is forty bytes long.
pub open spec fn starts_entry(line: Seq<char>) -> bool {
    !(line.len() > 0 && line[0] == '\t') && encode_utf8(first_part(line, ' ')).len() == HASH_BYTES
}

/// The position behind the first line at or behind `from` that starts with a
/// tab; the number of lines where there is none.
pub open spec fn entry_end(lines: Seq<Seq<char>>, from: int) -> int
    decreases lines.len() - from,
{
    if from < 0 || from >= lines.len() {
        lines.len() as int
    } else if lines[from].len() > 0 && lines[from][0] == '\t' {
        from + 1
    } else {
        entry_end(lines, from + 1)
    }
}

/// An origin entry ends behind its start and not behind the lines.
pub proof fn lemma_entry_end(lines: Seq<Seq<char>>, from: int)
    requires
        0 <= from <= lines.len(),
    ensures
        from <= entry_end(lines, from) <= lines.len(),
        from < lines.len() ==> from < entry_end(lines, from),
    decreases lines.len() - from,
{
    if from < lines.len() && !(lines[from].len() > 0 && lines[from][0] == '\t') {
        lemma_entry_end(lines, from + 1);
    }
}

/// Whether a line starts with a tab.
fn starts_with_tab(chars: &Vec<char>) -> (tab: bool)
    ensures
        tab == (chars@.len() > 0 && chars@[0] == '\t'),
{
    chars.len() > 0 && chars[0] == '\t'
}

/// Whether a line can start an origin entry.
pub fn check_entry_start(line: &str) -> (ok: bool)
    ensures
        ok == starts_entry(line@),
{
    let chars = chars_of(line);
    if starts_with_tab(&chars) {
        return false;
    }
    let end = find_from(&chars, 0, ' ');
    let word = string_of(&chars, 0, end);
    word.as_str().as_bytes().len() == HASH_BYTES
}

/// Reads the origin entry that starts at line `pos`: the hash of the commit
/// that the line of the file goes back to, and the position behind the
/// entry, which ends with the line of the file itself. `None` at the end of
/// the lines.
pub fn parse_blame_entry(lines: &Vec<String>, pos: usize) -> (res: Option<(String, usize)>)
    requires
        pos <= lines.len(),
        pos < lines.len() ==> starts_entry(lines[pos as int]@),
    ensures
        match res {
            Some((hash, next)) => {
                &&& pos < lines.len()
                &&& hash@ == first_part(lines[pos as int]@, ' ')
                &&& next == entry_end(string_views(lines@), pos + 1)
                &&& pos < next <= lines.len()
            },
            None => pos == lines.len(),
        },
{
    if pos >= lines.len() {
        return None;
    }
    let ghost views = string_views(lines@);
    let chars = chars_of(lines[pos].as_str());
    let end = find_from(&chars, 0, ' ');
    let hash = string_of(&chars, 0, end);
    let mut next: usize = pos + 1;
    proof {
        lemma_entry_end(views, pos + 1);
    }
    while next < lines.len()
        invariant
            pos < next <= lines.len(),
            views == string_views(lines@),
            hash@ == first_part(lines[pos as int]@, ' '),
            entry_end(views, pos + 1) == entry_end(views, next as int),
        decreases lines.len() - next,
    {
        assert(views[next as int] == lines[next as int]@);
        let ghost at = next as int;
        let line = chars_of(lines[next].as_str());
        next += 1;
        if starts_with_tab(&line) {
            assert(entry_end(views, at) == at + 1);
            return Some((hash, next));
        }
        assert(entry_end(views, at) == entry_end(views, at + 1));
    }
    Some((hash, next))
}

/// The number of lines per origin commit that the origin entries from line
/// `pos` on add to `acc`; `None` where a line that should start an entry
/// cannot.
pub open spec fn blame_counts(lines: Seq<Seq<char>>, pos: int, acc: Map<Seq<char>, nat>) -> Option<
    Map<Seq<char>, nat>,
>
    decreases lines.len() - pos,
{
    if pos < 0 || pos >= lines.len() {
        Some(acc)
    } else if !starts_entry(lines[pos]) {
        None
    } else {
        proof {
            lemma_entry_end(lines, pos + 1);
        }
        blame_counts(lines, entry_end(lines, pos + 1), tally_add(acc, first_part(lines[pos], ' '), 1))
    }
}

/// The first line at or behind `pos` that should start an origin entry and
/// cannot.
pub open spec fn bad_blame_line(lines: Seq<Seq<char>>, pos: int) -> Seq<char>
    decreases lines.len() - pos,
{
    if pos < 0 || pos >= lines.len() {
        Seq::empty()
    } else if !starts_entry(lines[pos]) {
        lines[pos]
    } else {
        proof {
            lemma_entry_end(lines, pos + 1);
        }
        bad_blame_line(lines, entry_end(lines, pos + 1))
    }
}

/// Counts the lines of a file per commit that they go back to, from the
/// origin entries that the history provider prints for the file, one entry
/// for each line of the file.
pub fn count_blame_lines(text: &str) -> (res: Result<Vec<(String, u64)>, ParseError>)
    ensures
        match res {
            Ok(counts) => {
                &&& blame_counts(lines_from(text@, 0), 0, Map::empty()) == Some(
                    pairs_map(crate::blame::line_views(counts@)),
                )
                &&& crate::tally::distinct_keys(crate::blame::line_views(counts@))
            },
            Err(e) => {
                &&& blame_counts(lines_from(text@, 0), 0, Map::empty()) is None
                &&& e@ == ParseErrorView::BadBlameLine(bad_blame_line(lines_from(text@, 0), 0))
            },
        },
{
    let lines = crate::text::lines_of(text);
    let ghost views = string_views(lines@);
    let mut tally: Tally<String> = Tally::new();
    let mut pos: usize = 0;
    while pos < lines.len()
        invariant
            pos <= lines.len(),
            tally.wf(),
            views == string_views(lines@),
            views == lines_from(text@, 0),
            blame_counts(views, 0, Map::empty()) == blame_counts(views, pos as int, tally@),
            bad_blame_line(views, 0) == bad_blame_line(views, pos as int),
            forall|k: Seq<char>| lines_of(tally@, k) <= pos,
        decreases lines.len() - pos,
    {
        assert(views[pos as int] == lines[pos as int]@);
        if !check_entry_start(lines[pos].as_str()) {
            return Err(ParseError::BadBlameLine(lines[pos].clone()));
        }
        let ghost before = tally@;
        match parse_blame_entry(&lines, pos) {
            Some((hash, next)) => {
                assert(lines_of(before, hash@) <= pos);
                let counted = tally.add(&hash, 1);
                assert(counted);
                assert forall|k: Seq<char>| lines_of(tally@, k) <= next by {
                    assert(lines_of(before, k) <= pos);
                }
                pos = next;
            },
            None => {},
        }
    }
    let counts = tally.into_pairs();
    assert(pair_keys(counts@) =~= crate::blame::line_views(counts@));
    Ok(counts)
}

/// The authorship of a file from what the history provider printed for it:
/// the counted origin entries, or no line at all where the output could not
/// be decoded, which is the mark of a binary file.
pub fn blame_lines(output: Option<&str>) -> (res: Result<Vec<(String, u64)>, ParseError>)
    ensures
        match output {
            None => res matches Ok(counts) && counts@.len() == 0,
            Some(text) => match res {
                Ok(counts) => {
                    &&& blame_counts(lines_from(text@, 0), 0, Map::empty()) == Some(
                        pairs_map(crate::blame::line_views(counts@)),
                    )
                    &&& crate::tally::distinct_keys(crate::blame::line_views(counts@))
                },
                Err(e) => {
                    &&& blame_counts(lines_from(text@, 0), 0, Map::empty()) is None
                    &&& e@ == ParseErrorView::BadBlameLine(bad_blame_line(lines_from(text@, 0), 0))
                },
            },
        },
{
    match output {
        None => Ok(Vec::new()),
        Some(text) => count_blame_lines(text),
    }
}

/// Why the authorship of a file could not be had.
#[derive(Debug, PartialEq, Eq)]
pub enum BlameFailure {
    /// The history provider ended with a failure.
    ToolFailed,
    /// The history provider printed a line that it does not print.
    BadOutput(ParseError),
}

/// The mathematical value of a [`BlameFailure`].
pub enum BlameFailureView {
    ToolFailed,
    BadOutput(ParseErrorView),
}

impl View for BlameFailure {
    type V = BlameFailureView;

    open spec fn view(&self) -> BlameFailureView {
        match self {
            BlameFailure::ToolFailed => BlameFailureView::ToolFailed,
            BlameFailure::BadOutput(e) => BlameFailureView::BadOutput(e@),
        }
    }
}

/// The authorship of a file from how the history provider ended and what it
/// printed: a failure of the provider is a failure; output that could not be
/// decoded, which is the mark of a binary file, counts no line; any other
/// output is counted entry by entry.
pub fn blame_outcome(success: bool, output: Option<&str>) -> (res: Result<Vec<(String, u64)>, BlameFailure>)
    ensures
        !success ==> (res matches Err(e) && e@ == BlameFailureView::ToolFailed),
        success ==> match output {
            None => (res matches Ok(counts) && counts@.len() == 0),
            Some(text) => match res {
                Ok(counts) => {
                    &&& blame_counts(lines_from(text@, 0), 0, Map::empty()) == Some(
                        pairs_map(crate::blame::line_views(counts@)),
                    )
                    &&& crate::tally::distinct_keys(crate::blame::line_views(counts@))
                },
                Err(e) => {
                    &&& blame_counts(lines_from(text@, 0), 0, Map::empty()) is None
                    &&& e@ == BlameFailureView::BadOutput(
                        ParseErrorView::BadBlameLine(bad_blame_line(lines_from(text@, 0), 0)),
                    )
                },
            },
        },
{
    if !success {
        return Err(BlameFailure::ToolFailed);
    }
    match blame_lines(output) {
        Ok(counts) => Ok(counts),
        Err(e) => Err(BlameFailure::BadOutput(e)),
    }
}

} // verus!
