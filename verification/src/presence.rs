//! Errors that only say that something is not there.

use vstd::prelude::*;

verus! {

/// `std::io::Error`, carried through as it is: nothing is known of an
/// error but what [`is_not_found`] says.
#[verifier::external_type_specification]
#[verifier::external_body]
pub struct ExIoError(std::io::Error);

/// Whether the kind of an I/O error, as `std::io::Error::kind` gives it, is
/// `ErrorKind::NotFound`.
pub uninterp spec fn is_not_found(error: std::io::Error) -> bool;

/// Calls `std::io::Error::kind` and holds the kind against
/// `ErrorKind::NotFound`. The result is [`is_not_found`] of the error:
/// nothing more is claimed than that the kind of an error does not change.
#[verifier::external_body]
fn not_found(error: &std::io::Error) -> (r: bool)
    ensures
        r == is_not_found(*error),
{
    error.kind() == std::io::ErrorKind::NotFound
}

/// Whether something may exist at a path, given how reading its metadata
/// went: it may unless the read failed because nothing was found.
pub fn maybe_exists(probe: &Result<(), std::io::Error>) -> (r: bool)
    ensures
        r == match *probe {
            Ok(_) => true,
            Err(error) => !is_not_found(error),
        },
{
    match probe {
        Ok(_) => true,
        Err(error) => !not_found(error),
    }
}

/// Takes a failure to find something for a success, and hands every other
/// result on as it is.
pub fn ok_or_not_found(result: Result<(), std::io::Error>) -> (r: Result<(), std::io::Error>)
    ensures
        match result {
            Ok(_) => r is Ok,
            Err(error) => if is_not_found(error) {
                r is Ok
            } else {
                r == result
            },
        },
{
    match result {
        Ok(()) => Ok(()),
        Err(error) => {
            if not_found(&error) {
                Ok(())
            } else {
                Err(error)
            }
        },
    }
}

} // verus!
