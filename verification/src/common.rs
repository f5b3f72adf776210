//! Choosing the commit to report on.

use vstd::prelude::*;
use vstd::string::StringExecFns;

verus! {

/// Neither a hash was given nor does the log hold a commit.
#[derive(Debug, PartialEq, Eq, Clone, Copy)]
pub struct NoViableHash;

impl NoViableHash {
    /// The error as a sentence for the operator.
    pub fn message(&self) -> (text: String)
        ensures
            text@ == "found no viable hash"@,
    {
        String::from_str("found no viable hash")
    }
}

/// The hash to report on: the one that was asked for, or else the first of
/// the log, which lists the newest commit first.
pub fn first_hash(log: &[String], hash: Option<String>) -> (res: Result<String, NoViableHash>)
    ensures
        match hash {
            Some(given) => res == Ok::<String, NoViableHash>(given),
            None => if log@.len() > 0 {
                res matches Ok(first) && first@ == log@[0]@
            } else {
                res is Err
            },
        },
{
    if let Some(given) = hash {
        return Ok(given);
    }
    if log.len() > 0 {
        return Ok(log[0].clone());
    }
    Err(NoViableHash)
}

} // verus!
