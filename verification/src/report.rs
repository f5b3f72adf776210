//! The breakdown of a tree as lines of text: a name, a leader of dots, and a
//! number of lines.

use crate::tally::{lines_of, pair_keys, Tally};
use unicode_width::UnicodeWidthStr;
use vstd::prelude::*;
use vstd::string::{to_string_from_display_ensures, StrSliceExecFns, StringExecFns};
use vstd::utf8::encode_utf8;

verus! {

/// The number of columns that a text takes up on a terminal.
pub uninterp spec fn display_width(text: Seq<char>) -> usize;

/// Calls `UnicodeWidthStr::width`. The contract claims that the width is a
/// function of the text.
#[verifier::external_body]
fn text_width(text: &str) -> (width: usize)
    ensures
        width == display_width(text@),
{
    text.width()
}

/// A text with spaces in front of it, as many as it lacks to `width`
/// characters.
pub open spec fn padded(text: Seq<char>, width: int) -> Seq<char> {
    if text.len() < width {
        Seq::new((width - text.len()) as nat, |i: int| ' ') + text
    } else {
        text
    }
}

/// Puts spaces in front of a text until it has `width` characters.
pub fn pad_left(text: &str, width: usize) -> (label: String)
    ensures
        label@ == padded(text@, width as int),
{
    let have = text.unicode_len();
    let mut label = String::new();
    if have < width {
        let missing = width - have;
        let mut i: usize = 0;
        while i < missing
            invariant
                i <= missing,
                label@ == Seq::new(i as nat, |k: int| ' '),
            decreases missing - i,
        {
            label.push(' ');
            assert(label@ =~= Seq::new((i + 1) as nat, |k: int| ' '));
            i += 1;
        }
    }
    label.append(text);
    assert(label@ =~= padded(text@, width as int));
    label
}

/// The characters that the label of a year takes up at least.
pub const YEAR_WIDTH: usize = 4;

/// The columns of a line of the report per author.
pub const AUTHOR_COLUMNS: usize = 78;

/// The columns of a line of the report per year.
pub const YEAR_COLUMNS: usize = 18;

/// The number of dots between the two parts of a line: what is left of the
/// columns, and one dot at least.
pub open spec fn leader_len(columns: int, left: int, right: int) -> int {
    if columns - left - right >= 1 {
        columns - left - right
    } else {
        1
    }
}

/// A line of a report: the left part, a space, the dots, a space, and the
/// right part.
pub open spec fn report_line(left: Seq<char>, right: Seq<char>, columns: int) -> Seq<char> {
    left + seq![' '] + Seq::new(
        leader_len(columns, display_width(left) as int, display_width(right) as int) as nat,
        |i: int| '.',
    ) + seq![' '] + right
}

/// Lays out a line of a report.
pub fn layout_line(left: &str, right: &str, columns: usize) -> (line: String)
    ensures
        line@ == report_line(left@, right@, columns as int),
{
    let left_width = text_width(left);
    let right_width = text_width(right);
    let dots: usize = if columns > left_width && columns - left_width > right_width {
        columns - left_width - right_width
    } else {
        1
    };
    let mut line = String::from_str(left);
    line.push(' ');
    let ghost head = line@;
    let mut i: usize = 0;
    while i < dots
        invariant
            i <= dots,
            line@ == head + Seq::new(i as nat, |k: int| '.'),
        decreases dots - i,
    {
        line.push('.');
        assert(line@ =~= head + Seq::new((i + 1) as nat, |k: int| '.'));
        i += 1;
    }
    line.push(' ');
    line.append(right);
    assert(line@ =~= report_line(left@, right@, columns as int));
    line
}

/// Text `a` comes before text `b` when their bytes are compared one by one.
pub open spec fn bytes_before(a: Seq<u8>, b: Seq<u8>) -> bool
    decreases a.len(),
{
    if b.len() == 0 {
        false
    } else if a.len() == 0 {
        true
    } else if a[0] != b[0] {
        a[0] < b[0]
    } else {
        bytes_before(a.drop_first(), b.drop_first())
    }
}

/// Whether text `a` comes before text `b` when their bytes are compared one
/// by one.
pub fn text_before(a: &str, b: &str) -> (before: bool)
    ensures
        before == bytes_before(encode_utf8(a@), encode_utf8(b@)),
{
    let x = a.as_bytes();
    let y = b.as_bytes();
    let mut i: usize = 0;
    assert(x@.skip(0) =~= x@);
    assert(y@.skip(0) =~= y@);
    while i < x.len() && i < y.len()
        invariant
            i <= x.len(),
            i <= y.len(),
            x@ == encode_utf8(a@),
            y@ == encode_utf8(b@),
            bytes_before(x@, y@) == bytes_before(x@.skip(i as int), y@.skip(i as int)),
        decreases x.len() - i,
    {
        assert(x@.skip(i as int)[0] == x@[i as int]);
        assert(y@.skip(i as int)[0] == y@[i as int]);
        assert(x@.skip(i as int).drop_first() =~= x@.skip(i + 1));
        assert(y@.skip(i as int).drop_first() =~= y@.skip(i + 1));
        if x[i] != y[i] {
            return x[i] < y[i];
        }
        i += 1;
    }
    assert(x@.skip(i as int).len() == x@.len() - i);
    assert(y@.skip(i as int).len() == y@.len() - i);
    i < y.len()
}

/// Entry `a` of a report comes before entry `b`: it has fewer lines, or as
/// many and the earlier name. An entry is a `(name, lines)` pair.
pub open spec fn entry_before(a: (Seq<char>, u64), b: (Seq<char>, u64)) -> bool {
    a.1 < b.1 || (a.1 == b.1 && bytes_before(encode_utf8(a.0), encode_utf8(b.0)))
}

/// The list after `item` was put behind the last entry that it does not
/// come before.
pub open spec fn insert_entry(sorted: Seq<(Seq<char>, u64)>, item: (Seq<char>, u64)) -> Seq<
    (Seq<char>, u64),
>
    decreases sorted.len(),
{
    if sorted.len() == 0 {
        seq![item]
    } else if !entry_before(item, sorted.last()) {
        sorted.push(item)
    } else {
        insert_entry(sorted.drop_last(), item).push(sorted.last())
    }
}

/// The entries in ascending order.
pub open spec fn sorted_entries(entries: Seq<(Seq<char>, u64)>) -> Seq<(Seq<char>, u64)>
    decreases entries.len(),
{
    if entries.len() == 0 {
        Seq::empty()
    } else {
        insert_entry(sorted_entries(entries.drop_last()), entries.last())
    }
}

/// Sorting keeps the number of entries.
pub proof fn lemma_sorted_len(entries: Seq<(Seq<char>, u64)>)
    ensures
        sorted_entries(entries).len() == entries.len(),
    decreases entries.len(),
{
    if entries.len() > 0 {
        lemma_sorted_len(entries.drop_last());
        lemma_insert_len(sorted_entries(entries.drop_last()), entries.last());
    }
}

/// Putting an entry into a list makes the list one longer.
pub proof fn lemma_insert_len(sorted: Seq<(Seq<char>, u64)>, item: (Seq<char>, u64))
    ensures
        insert_entry(sorted, item).len() == sorted.len() + 1,
    decreases sorted.len(),
{
    if sorted.len() > 0 && entry_before(item, sorted.last()) {
        lemma_insert_len(sorted.drop_last(), item);
    }
}

proof fn lemma_insert_entry_at(sorted: Seq<(Seq<char>, u64)>, item: (Seq<char>, u64), p: int)
    requires
        0 <= p <= sorted.len(),
        forall|q: int| p <= q < sorted.len() ==> entry_before(item, sorted[q]),
        p > 0 ==> !entry_before(item, sorted[p - 1]),
    ensures
        insert_entry(sorted, item) == sorted.take(p) + seq![item] + sorted.skip(p),
    decreases sorted.len(),
{
    if sorted.len() == 0 {
        assert(sorted.take(p) + seq![item] + sorted.skip(p) =~= seq![item]);
    } else if p == sorted.len() {
        assert(sorted.take(p) + seq![item] + sorted.skip(p) =~= sorted.push(item));
    } else {
        let rest = sorted.drop_last();
        assert(entry_before(item, sorted[sorted.len() - 1]));
        lemma_insert_entry_at(rest, item, p);
        assert((rest.take(p) + seq![item] + rest.skip(p)).push(sorted.last()) =~= sorted.take(p)
            + seq![item] + sorted.skip(p));
    }
}

/// The entries of a tally per author in ascending order: fewest lines
/// first, entries with as many lines by name.
pub fn sort_entries(entries: &Vec<(String, u64)>) -> (sorted: Vec<(String, u64)>)
    ensures
        pair_keys(sorted@) == sorted_entries(pair_keys(entries@)),
{
    let ghost all = pair_keys(entries@);
    let mut sorted: Vec<(String, u64)> = Vec::new();
    let mut i: usize = 0;
    assert(all.take(0) =~= Seq::<(Seq<char>, u64)>::empty());
    assert(pair_keys(sorted@) =~= sorted_entries(all.take(0)));
    while i < entries.len()
        invariant
            i <= entries.len(),
            all == pair_keys(entries@),
            pair_keys(sorted@) == sorted_entries(all.take(i as int)),
        decreases entries.len() - i,
    {
        let ghost item = all[i as int];
        let ghost before = pair_keys(sorted@);
        assert(item == (entries[i as int].0@, entries[i as int].1));
        assert(all.take(i + 1).drop_last() =~= all.take(i as int));
        assert(all.take(i + 1).last() == item);
        let mut p: usize = sorted.len();
        while p > 0 && (entries[i].1 < sorted[p - 1].1 || (entries[i].1 == sorted[p - 1].1
            && text_before(entries[i].0.as_str(), sorted[p - 1].0.as_str())))
            invariant
                p <= sorted.len(),
                i < entries.len(),
                before == pair_keys(sorted@),
                item == (entries[i as int].0@, entries[i as int].1),
                forall|q: int| p <= q < sorted.len() ==> entry_before(item, before[q]),
            decreases p,
        {
            assert(before[p - 1] == (sorted[p - 1].0@, sorted[p - 1].1));
            p -= 1;
        }
        proof {
            if p > 0 {
                assert(before[p - 1] == (sorted[p - 1].0@, sorted[p - 1].1));
            }
            lemma_insert_entry_at(before, item, p as int);
        }
        sorted.insert(p, (entries[i].0.clone(), entries[i].1));
        assert(pair_keys(sorted@) =~= before.take(p as int) + seq![item] + before.skip(p as int));
        i += 1;
    }
    assert(all.take(entries.len() as int) =~= all);
    sorted
}

/// A line of the report per author says `name`, the dots, and `lines` as a
/// decimal number.
pub open spec fn author_line(line: Seq<char>, name: Seq<char>, lines: u64) -> bool {
    exists|digits: String|
        to_string_from_display_ensures::<u64>(&lines, digits) && line == report_line(
            name,
            digits@,
            AUTHOR_COLUMNS as int,
        )
}

/// The report per author: one line for each author of the tally, fewest
/// lines first, authors with as many lines by name.
pub fn author_report(count: &Tally<String>) -> (report: Vec<String>)
    requires
        count.wf(),
    ensures
        report@.len() == count.entries().len(),
        forall|i: int|
            0 <= i < report@.len() ==> author_line(
                (#[trigger] report@[i])@,
                sorted_entries(count.entries())[i].0,
                sorted_entries(count.entries())[i].1,
            ),
{
    let sorted = sort_entries(count.pairs());
    let ghost wanted = sorted_entries(count.entries());
    assert(pair_keys(sorted@) == wanted);
    let mut report: Vec<String> = Vec::new();
    let mut i: usize = 0;
    while i < sorted.len()
        invariant
            i <= sorted.len(),
            report@.len() == i,
            pair_keys(sorted@) == wanted,
            forall|j: int|
                0 <= j < i ==> author_line((#[trigger] report@[j])@, wanted[j].0, wanted[j].1),
        decreases sorted.len() - i,
    {
        assert(wanted[i as int] == (sorted[i as int].0@, sorted[i as int].1));
        let digits = sorted[i].1.to_string();
        let line = layout_line(sorted[i].0.as_str(), digits.as_str(), AUTHOR_COLUMNS);
        assert(author_line(line@, wanted[i as int].0, wanted[i as int].1));
        report.push(line);
        i += 1;
    }
    proof {
        assert(wanted.len() == sorted@.len());
        lemma_sorted_len(count.entries());
    }
    report
}

/// A line of the report per year says the year as a decimal number, padded
/// with spaces on the left, the dots, and `lines` as a decimal number.
pub open spec fn year_line(line: Seq<char>, year: i16, lines: u64) -> bool {
    exists|label: String, digits: String|
        {
            &&& to_string_from_display_ensures::<i16>(&year, label)
            &&& to_string_from_display_ensures::<u64>(&lines, digits)
            &&& line == report_line(padded(label@, YEAR_WIDTH as int), digits@, YEAR_COLUMNS as int)
        }
}

/// The years from `from` up to `to` that the tally holds, in ascending
/// order.
pub open spec fn years_held(t: Map<i16, nat>, from: int, to: int) -> Seq<i16>
    decreases to - from + 1,
{
    if from > to {
        Seq::empty()
    } else if t.contains_key(to as i16) {
        years_held(t, from, to - 1).push(to as i16)
    } else {
        years_held(t, from, to - 1)
    }
}

/// The report per year: one line for each year of the tally, the earliest
/// year first.
pub fn year_report(count: &Tally<i16>) -> (report: Vec<String>)
    requires
        count.wf(),
    ensures
        report@.len() == years_held(count@, i16::MIN as int, i16::MAX as int).len(),
        forall|i: int|
            0 <= i < report@.len() ==> year_line(
                (#[trigger] report@[i])@,
                years_held(count@, i16::MIN as int, i16::MAX as int)[i],
                lines_of(count@, years_held(count@, i16::MIN as int, i16::MAX as int)[i]) as u64,
            ),
{
    let mut report: Vec<String> = Vec::new();
    let mut year: i32 = -0x8000;
    let ghost t = count@;
    while year <= 0x7fff
        invariant
            -0x8000 <= year <= 0x8000,
            count.wf(),
            t == count@,
            report@.len() == years_held(t, i16::MIN as int, year - 1).len(),
            forall|j: int|
                0 <= j < report@.len() ==> year_line(
                    (#[trigger] report@[j])@,
                    years_held(t, i16::MIN as int, year - 1)[j],
                    lines_of(t, years_held(t, i16::MIN as int, year - 1)[j]) as u64,
                ),
        decreases 0x8000 - year,
    {
        let y = year as i16;
        let ghost held = years_held(t, i16::MIN as int, year - 1);
        if count.contains(&y) {
            let lines = count.get(&y);
            let digits = lines.to_string();
            let year_digits = y.to_string();
            let label = pad_left(year_digits.as_str(), YEAR_WIDTH);
            let line = layout_line(label.as_str(), digits.as_str(), YEAR_COLUMNS);
            assert(year_line(line@, y, lines));
            report.push(line);
            assert(years_held(t, i16::MIN as int, year as int) == held.push(y));
        } else {
            assert(years_held(t, i16::MIN as int, year as int) == held);
        }
        year += 1;
    }
    report
}

} // verus!
