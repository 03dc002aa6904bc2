//! The failures an entry point of the C ABI reports: why it failed, and what
//! to say about it.
//!
//! A C entry point cannot return a Rust `Result`, so the family's libraries
//! return null or a sentinel and record why separately. A failure travels to
//! the boundary as an [`FfiError`], not as a rendered string, so that its
//! classification survives.

use vstd::prelude::*;

use crate::kind;

verus! {

/// A failure on its way out of an entry point: its kind (see
/// [`crate::kind`]) and its message.
pub type FfiError = (i32, String);

/// A null or non-UTF-8 argument: [`kind::INVALID_ARGUMENT`] with `message`.
pub fn invalid_argument(message: &str) -> (r: FfiError)
    ensures
        r.0 == kind::INVALID_ARGUMENT,
        r.1@ == message@,
{
    (kind::INVALID_ARGUMENT, message.to_owned())
}

/// The message of a result that cannot cross the ABI. The wording is fixed so
/// the family reports this identically.
pub open spec fn invalid_output_message() -> Seq<char> {
    "output contains null byte"@
}

/// A result that cannot cross the ABI because it holds an interior NUL byte:
/// [`kind::INVALID_OUTPUT`] with a fixed message.
pub fn invalid_output() -> (r: FfiError)
    ensures
        r.0 == kind::INVALID_OUTPUT,
        r.1@ == invalid_output_message(),
{
    (kind::INVALID_OUTPUT, "output contains null byte".to_owned())
}

} // verus!
