//! An earlier, name-by-name comparison of two trees: statuses per name,
//! and the sorted name lists the walk merges.

pub mod path;
pub mod sorted_vec;

use vstd::prelude::*;

use crate::order::bytes_eq;

verus! {

/// A failure of the name-by-name comparison.
#[derive(Debug, PartialEq, Eq, Clone, Copy)]
pub enum Error {
    /// Neither side has the file.
    TwoMissingFiles,
}

/// Compares one file name across the two sides, given each side's content
/// where the file exists: both absent is an error, one side absent is a
/// missing status, and both present compare by exact bytes.
pub fn files(left: Option<&Vec<u8>>, right: Option<&Vec<u8>>) -> (r: Result<path::Status, Error>)
    ensures
        r == (match (left, right) {
            (Option::None, Option::None) => Result::<path::Status, Error>::Err(
                Error::TwoMissingFiles,
            ),
            (Option::Some(_), Option::None) => Result::<path::Status, Error>::Ok(
                path::Status::MissingRight,
            ),
            (Option::None, Option::Some(_)) => Result::<path::Status, Error>::Ok(
                path::Status::MissingLeft,
            ),
            (Option::Some(l), Option::Some(rr)) => Result::<path::Status, Error>::Ok(
                if l@ == rr@ {
                    path::Status::Equal
                } else {
                    path::Status::Partial
                },
            ),
        }),
{
    match (left, right) {
        (Option::None, Option::None) => Err(Error::TwoMissingFiles),
        (Option::Some(_), Option::None) => Ok(path::Status::MissingRight),
        (Option::None, Option::Some(_)) => Ok(path::Status::MissingLeft),
        (Option::Some(l), Option::Some(rr)) => {
            if bytes_eq(l.as_slice(), rr.as_slice()) {
                Ok(path::Status::Equal)
            } else {
                Ok(path::Status::Partial)
            }
        },
    }
}

} // verus!
