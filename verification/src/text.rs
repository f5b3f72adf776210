//! Texts as sequences of characters, and lists turned round.

use vstd::prelude::*;

verus! {

/// The characters of `text`, one by one.
pub fn chars_of(text: &str) -> (chars: Vec<char>)
    ensures
        chars@ == text@,
{
    let mut chars: Vec<char> = Vec::new();
    for c in it: text.chars()
        invariant
            it.seq() == text@,
            chars@ == text@.take(it.index() as int),
    {
        chars.push(c);
        assert(text@.take(it.index() + 1) =~= text@.take(it.index() as int).push(c));
    }
    assert(text@.take(text@.len() as int) =~= text@);
    chars
}

/// Turns a list round: the last item comes first.
pub fn reverse_vec<T>(items: &mut Vec<T>)
    ensures
        final(items)@ == old(items)@.reverse(),
{
    let ghost all = items@;
    let mut turned: Vec<T> = Vec::new();
    while items.len() > 0
        invariant
            items.len() <= all.len(),
            items@ == all.take(items.len() as int),
            turned.len() == all.len() - items.len(),
            forall|j: int| 0 <= j < turned.len() ==> turned[j] == all[all.len() - 1 - j],
        decreases items.len(),
    {
        let ghost n = items.len();
        match items.pop() {
            Some(item) => {
                assert(item == all[n - 1]);
                assert(items@ =~= all.take(n - 1));
                turned.push(item);
            },
            None => {},
        }
    }
    assert(turned@ =~= all.reverse());
    *items = turned;
}

/// `String::push` appends one character to the end of the string.
pub assume_specification[ String::push ](s: &mut String, ch: char)
    ensures
        final(s)@ == old(s)@.push(ch),
;

/// The characters from position `from` up to position `to`, as a string.
pub fn string_of(chars: &Vec<char>, from: usize, to: usize) -> (text: String)
    requires
        from <= to <= chars.len(),
    ensures
        text@ == chars@.subrange(from as int, to as int),
{
    let mut text = String::new();
    let mut i: usize = from;
    while i < to
        invariant
            from <= i <= to,
            to <= chars.len(),
            text@ == chars@.subrange(from as int, i as int),
        decreases to - i,
    {
        text.push(chars[i]);
        assert(chars@.subrange(from as int, i + 1) =~= chars@.subrange(from as int, i as int).push(
            chars@[i as int],
        ));
        i += 1;
    }
    text
}

/// The first position at or behind `from` that holds `c`; the length of the
/// text where there is none.
pub open spec fn index_from(s: Seq<char>, from: int, c: char) -> int
    decreases s.len() - from,
{
    if from < 0 || from >= s.len() {
        s.len() as int
    } else if s[from] == c {
        from
    } else {
        index_from(s, from + 1, c)
    }
}

/// Where `index_from` points.
pub proof fn lemma_index_from(s: Seq<char>, from: int, c: char)
    requires
        0 <= from <= s.len(),
    ensures
        from <= index_from(s, from, c) <= s.len(),
        index_from(s, from, c) < s.len() ==> s[index_from(s, from, c)] == c,
        forall|i: int| from <= i < index_from(s, from, c) ==> s[i] != c,
    decreases s.len() - from,
{
    if from < s.len() && s[from] != c {
        lemma_index_from(s, from + 1, c);
    }
}

/// The first position at or behind `from` that holds `c`; the length of the
/// text where there is none.
pub fn find_from(chars: &Vec<char>, from: usize, c: char) -> (at: usize)
    requires
        from <= chars.len(),
    ensures
        at == index_from(chars@, from as int, c),
        from <= at <= chars.len(),
{
    let mut i: usize = from;
    while i < chars.len() && chars[i] != c
        invariant
            from <= i <= chars.len(),
            index_from(chars@, from as int, c) == index_from(chars@, i as int, c),
        decreases chars.len() - i,
    {
        i += 1;
    }
    i
}

/// A line without the carriage return at its end, if it has one.
pub open spec fn strip_cr(line: Seq<char>) -> Seq<char> {
    if line.len() > 0 && line.last() == '\r' {
        line.drop_last()
    } else {
        line
    }
}

/// The lines of a text from position `from` on. A line ends with a line
/// feed, or with a carriage return and a line feed, neither of which
/// belongs to the line; the last line may end with the text.
pub open spec fn lines_from(s: Seq<char>, from: int) -> Seq<Seq<char>>
    decreases s.len() - from,
{
    if from < 0 || from >= s.len() {
        Seq::empty()
    } else {
        let end = index_from(s, from, '\n');
        proof {
            lemma_index_from(s, from, '\n');
        }
        if end >= s.len() {
            seq![s.subrange(from, s.len() as int)]
        } else {
            seq![strip_cr(s.subrange(from, end))] + lines_from(s, end + 1)
        }
    }
}

/// The texts of a list of strings.
pub open spec fn string_views(strings: Seq<String>) -> Seq<Seq<char>> {
    strings.map_values(|s: String| s@)
}

/// The lines of a text.
pub fn lines_of(text: &str) -> (lines: Vec<String>)
    ensures
        string_views(lines@) == lines_from(text@, 0),
{
    let chars = chars_of(text);
    let n = chars.len();
    let mut lines: Vec<String> = Vec::new();
    let mut from: usize = 0;
    assert(string_views(lines@) + lines_from(chars@, 0) =~= lines_from(chars@, 0));
    while from < n
        invariant
            from <= n,
            n == chars.len(),
            chars@ == text@,
            lines_from(chars@, 0) == string_views(lines@) + lines_from(chars@, from as int),
        decreases n - from,
    {
        let end = find_from(&chars, from, '\n');
        let ghost before = string_views(lines@);
        if end >= n {
            let line = string_of(&chars, from, n);
            lines.push(line);
            assert(string_views(lines@) =~= before.push(chars@.subrange(from as int, n as int)));
            assert(before + seq![chars@.subrange(from as int, n as int)] + lines_from(chars@, n as int)
                =~= before.push(chars@.subrange(from as int, n as int)));
            from = n;
        } else {
            let stop = if end > from && chars[end - 1] == '\r' {
                end - 1
            } else {
                end
            };
            let line = string_of(&chars, from, stop);
            proof {
                let whole = chars@.subrange(from as int, end as int);
                if end > from {
                    assert(whole.last() == chars@[end - 1]);
                }
                assert(line@ =~= strip_cr(whole));
            }
            lines.push(line);
            assert(string_views(lines@) =~= before.push(strip_cr(chars@.subrange(from as int, end as int))));
            assert(before + (seq![strip_cr(chars@.subrange(from as int, end as int))] + lines_from(
                chars@,
                end + 1,
            )) =~= before.push(strip_cr(chars@.subrange(from as int, end as int))) + lines_from(
                chars@,
                end + 1,
            ));
            from = end + 1;
        }
    }
    assert(string_views(lines@) + lines_from(chars@, from as int) =~= string_views(lines@));
    lines
}

/// The words of a text from position `from` on: the runs of characters
/// between spaces that are not empty.
pub open spec fn words_from(s: Seq<char>, from: int) -> Seq<Seq<char>>
    decreases s.len() - from,
{
    if from < 0 || from >= s.len() {
        Seq::empty()
    } else {
        let end = index_from(s, from, ' ');
        proof {
            lemma_index_from(s, from, ' ');
        }
        let word = if end > from {
            seq![s.subrange(from, end)]
        } else {
            Seq::empty()
        };
        if end >= s.len() {
            word
        } else {
            word + words_from(s, end + 1)
        }
    }
}

/// The words of a text.
pub fn words_of(text: &str) -> (words: Vec<String>)
    ensures
        string_views(words@) == words_from(text@, 0),
{
    let chars = chars_of(text);
    let n = chars.len();
    let mut words: Vec<String> = Vec::new();
    let mut from: usize = 0;
    assert(string_views(words@) + words_from(chars@, 0) =~= words_from(chars@, 0));
    while from < n
        invariant
            from <= n,
            n == chars.len(),
            chars@ == text@,
            words_from(chars@, 0) == string_views(words@) + words_from(chars@, from as int),
        decreases n - from,
    {
        let end = find_from(&chars, from, ' ');
        let ghost before = string_views(words@);
        let ghost word = if end > from {
            seq![chars@.subrange(from as int, end as int)]
        } else {
            Seq::<Seq<char>>::empty()
        };
        if end > from {
            let found = string_of(&chars, from, end);
            words.push(found);
        }
        assert(string_views(words@) =~= before + word);
        if end >= n {
            assert(before + word + words_from(chars@, n as int) =~= before + word);
            from = n;
        } else {
            assert(before + (word + words_from(chars@, end + 1)) =~= before + word + words_from(
                chars@,
                end + 1,
            ));
            from = end + 1;
        }
    }
    assert(string_views(words@) + words_from(chars@, from as int) =~= string_views(words@));
    words
}

/// The part of a text before its first `c` and the part behind it; `None`
/// where the text holds no `c`.
pub open spec fn split_at_first(s: Seq<char>, c: char) -> Option<(Seq<char>, Seq<char>)> {
    let at = index_from(s, 0, c);
    if at >= s.len() {
        None
    } else {
        Some((s.subrange(0, at), s.subrange(at + 1, s.len() as int)))
    }
}

/// Splits a text at its first `c`.
pub fn split_once(text: &str, c: char) -> (parts: Option<(String, String)>)
    ensures
        match parts {
            Some((before, after)) => split_at_first(text@, c) == Some((before@, after@)),
            None => split_at_first(text@, c) is None,
        },
{
    let chars = chars_of(text);
    let at = find_from(&chars, 0, c);
    if at >= chars.len() {
        None
    } else {
        Some((string_of(&chars, 0, at), string_of(&chars, at + 1, chars.len())))
    }
}

/// The part of a text before its first `c`; the whole text where it holds
/// no `c`.
pub open spec fn first_part(s: Seq<char>, c: char) -> Seq<char> {
    s.subrange(0, index_from(s, 0, c))
}

} // verus!
