//! One line of a chart: a name and a value for each commit.

use crate::text::reverse_vec;
use vstd::prelude::*;
use vstd::string::StringExecFns;

verus! {

/// A named series of values.
#[derive(Debug, PartialEq, Eq)]
pub struct Series {
    pub name: String,
    pub values: Vec<i64>,
}

/// The sum of two series of the same length, value by value.
pub open spec fn added(a: Seq<i64>, b: Seq<i64>) -> Seq<int> {
    Seq::new(a.len(), |i: int| a[i] + b[i])
}

impl Series {
    /// A series called `name` that holds no value yet.
    pub fn new(name: &str) -> (series: Self)
        ensures
            series.name@ == name@,
            series.values@.len() == 0,
    {
        Series { name: String::from_str(name), values: Vec::new() }
    }

    /// Appends `n` as the value of the next commit.
    pub fn push(&mut self, n: u64)
        requires
            n <= i64::MAX,
        ensures
            final(self).name == old(self).name,
            final(self).values@ == old(self).values@.push(n as i64),
    {
        self.values.push(n as i64);
    }

    /// Appends `n` as the value of the next commit, unless it is too large
    /// for a value: then the series stays as it is and `false` is returned.
    pub fn try_push(&mut self, n: u64) -> (done: bool)
        ensures
            done == (n <= i64::MAX),
            final(self).name == old(self).name,
            final(self).values@ == if done {
                old(self).values@.push(n as i64)
            } else {
                old(self).values@
            },
    {
        if n <= 0x7fff_ffff_ffff_ffff {
            self.values.push(n as i64);
            true
        } else {
            false
        }
    }

    /// Turns the series round: the value of the last commit comes first.
    pub fn reverse(&mut self)
        ensures
            final(self).name == old(self).name,
            final(self).values@ == old(self).values@.reverse(),
    {
        reverse_vec(&mut self.values);
    }

    /// Adds the values of `other` to the values of this series, commit by
    /// commit.
    pub fn add(&mut self, other: &Series)
        requires
            old(self).values@.len() == other.values@.len(),
            forall|i: int|
                0 <= i < other.values@.len() ==> i64::MIN <= #[trigger] added(
                    old(self).values@,
                    other.values@,
                )[i] <= i64::MAX,
        ensures
            final(self).name == old(self).name,
            final(self).values@.len() == old(self).values@.len(),
            forall|i: int|
                0 <= i < other.values@.len() ==> #[trigger] final(self).values@[i] == added(
                    old(self).values@,
                    other.values@,
                )[i],
    {
        let ghost before = self.values@;
        let mut i: usize = 0;
        while i < other.values.len()
            invariant
                i <= other.values.len(),
                self.name == old(self).name,
                before == old(self).values@,
                self.values@.len() == before.len(),
                before.len() == other.values@.len(),
                forall|j: int|
                    0 <= j < other.values@.len() ==> i64::MIN <= #[trigger] added(
                        before,
                        other.values@,
                    )[j] <= i64::MAX,
                forall|j: int| 0 <= j < i ==> #[trigger] self.values@[j] == added(before, other.values@)[j],
                forall|j: int| i <= j < before.len() ==> self.values@[j] == before[j],
            decreases other.values.len() - i,
        {
            assert(added(before, other.values@)[i as int] == before[i as int] + other.values@[i as int]);
            let sum = self.values[i] + other.values[i];
            self.values.set(i, sum);
            i += 1;
        }
    }

    /// Adds the values of `other` to the values of this series, unless the
    /// two differ in length or a sum does not fit: then the series stays as
    /// it is and `false` is returned.
    pub fn try_add(&mut self, other: &Series) -> (done: bool)
        ensures
            final(self).name == old(self).name,
            done == (old(self).values@.len() == other.values@.len() && forall|i: int|
                0 <= i < other.values@.len() ==> i64::MIN <= #[trigger] added(
                    old(self).values@,
                    other.values@,
                )[i] <= i64::MAX),
            !done ==> final(self).values@ == old(self).values@,
            done ==> final(self).values@.len() == old(self).values@.len() && forall|i: int|
                0 <= i < other.values@.len() ==> #[trigger] final(self).values@[i] == added(
                    old(self).values@,
                    other.values@,
                )[i],
    {
        if self.values.len() != other.values.len() {
            return false;
        }
        let mut i: usize = 0;
        while i < other.values.len()
            invariant
                i <= other.values.len(),
                self.values@.len() == other.values@.len(),
                self.values@ == old(self).values@,
                self.name == old(self).name,
                forall|j: int|
                    0 <= j < i ==> i64::MIN <= #[trigger] added(self.values@, other.values@)[j]
                        <= i64::MAX,
            decreases other.values.len() - i,
        {
            if self.values[i].checked_add(other.values[i]).is_none() {
                assert(!(i64::MIN <= added(self.values@, other.values@)[i as int] <= i64::MAX));
                return false;
            }
            i += 1;
        }
        self.add(other);
        true
    }
}

} // verus!
