//! Error-kind numbering for the `un*` family: the values that are already
//! shared, and the bands that keep future ones from colliding.
//!
//! Each library owns its own error-kind enum; what they share is the
//! numbering those enums live in, since the discriminants cross the C ABI as
//! plain integers. This module exports only values that are already
//! identical across the family, and otherwise offers bands: a range each
//! library allocates from.
//!
//! | Range | Meaning |
//! |---|---|
//! | `0` | Success. Never a valid kind; see [`NONE`] |
//! | `1..=17` | Assigned before the convention existed. Frozen where shipped |
//! | [`COMMON_BAND`] | New reasons that genuinely apply to more than one library |
//! | [`BOUNDARY_BAND`] | Failures of the ABI call itself |
//! | `200..` | One band per library, [`LIBRARY_BAND_SIZE`] wide; see [`library_band`] |
//!
//! Every library in the family keeps the same four rules: a new reason takes
//! a new number and existing numbers are never reused or renumbered; an
//! unrecognised value is a generic failure, not an error; `0` means success,
//! never a reason; reasons are `#[non_exhaustive]`.

use std::ops::RangeInclusive;
use vstd::prelude::*;

verus! {

/// No error is recorded: the last call on this thread succeeded. Not a valid
/// kind.
pub const NONE: i32 = 0;

/// A failure with no more specific classification. Shared across the family.
pub const OTHER: i32 = 1;

/// An I/O failure: a missing file, an unreadable one, a short read. Shared
/// across the family.
pub const IO: i32 = 2;

/// The input is not a document this library recognises at all. Shared
/// across the family.
pub const UNKNOWN_FORMAT: i32 = 3;

/// The first number of the common band.
pub const COMMON_BAND_START: i32 = 18;

/// The last number of the common band.
pub const COMMON_BAND_END: i32 = 99;

/// The first number of the boundary band.
pub const BOUNDARY_BAND_START: i32 = 100;

/// The last number of the boundary band.
pub const BOUNDARY_BAND_END: i32 = 199;

/// An argument was null, or a string argument was not valid UTF-8.
pub const INVALID_ARGUMENT: i32 = 100;

/// A panic was caught at the ABI boundary. Reaching this value means a bug in
/// the library, not in the caller's input.
pub const PANIC: i32 = 101;

/// The result could not cross the ABI: a string holding an interior NUL byte.
pub const INVALID_OUTPUT: i32 = 102;

/// Width of each library's private band.
pub const LIBRARY_BAND_SIZE: i32 = 100;

/// First number available to library bands.
pub const FIRST_LIBRARY_BAND: i32 = 200;

/// Whether `r` is the range `start..=end`, not yet iterated.
pub open spec fn is_band(r: RangeInclusive<i32>, start: int, end: int) -> bool {
    r@.start == start && r@.end == end && !r@.exhausted
}

/// Reasons that apply to more than one library and were assigned after the
/// convention: `18..=99`. A reason belongs here only once two or more
/// libraries expose it.
pub fn common_band() -> (r: RangeInclusive<i32>)
    ensures
        is_band(r, COMMON_BAND_START as int, COMMON_BAND_END as int),
{
    RangeInclusive::new(COMMON_BAND_START, COMMON_BAND_END)
}

/// Reasons that describe a failure of the ABI call itself: `100..=199`.
/// They have no library-side counterpart.
pub fn boundary_band() -> (r: RangeInclusive<i32>)
    ensures
        is_band(r, BOUNDARY_BAND_START as int, BOUNDARY_BAND_END as int),
{
    RangeInclusive::new(BOUNDARY_BAND_START, BOUNDARY_BAND_END)
}

/// The first number of library `index`'s band.
pub open spec fn library_band_start(index: int) -> int {
    FIRST_LIBRARY_BAND + index * LIBRARY_BAND_SIZE
}

/// Whether library `index`'s band fits in an `i32`.
pub open spec fn library_band_fits(index: int) -> bool {
    i32::MIN <= index * LIBRARY_BAND_SIZE && library_band_start(index) + LIBRARY_BAND_SIZE - 1
        <= i32::MAX
}

/// The band belonging to library `index`, counting from zero: bands are
/// handed out in a fixed order (`unpdf` 0, `undoc` 1, `unhwp` 2), each
/// [`LIBRARY_BAND_SIZE`] wide, from [`FIRST_LIBRARY_BAND`] on.
pub fn library_band(index: i32) -> (r: RangeInclusive<i32>)
    requires
        library_band_fits(index as int),
    ensures
        is_band(
            r,
            library_band_start(index as int),
            library_band_start(index as int) + LIBRARY_BAND_SIZE - 1,
        ),
{
    let start = FIRST_LIBRARY_BAND + index * LIBRARY_BAND_SIZE;
    RangeInclusive::new(start, start + LIBRARY_BAND_SIZE - 1)
}

/// Whether `kind` names a failure at the ABI boundary rather than in the
/// document: whether it lies in the boundary band.
pub fn is_boundary(kind: i32) -> (r: bool)
    ensures
        r == (BOUNDARY_BAND_START <= kind <= BOUNDARY_BAND_END),
{
    BOUNDARY_BAND_START <= kind && kind <= BOUNDARY_BAND_END
}

/// The bands do not overlap, and leave the historical range `1..=17` (and
/// the shared values in it) alone: the common band starts at 18, after
/// [`UNKNOWN_FORMAT`]; it ends before the boundary band, which ends before
/// the first library band; the boundary values lie in the boundary band and
/// the shared values outside it.
pub proof fn lemma_bands_are_ordered()
    ensures
        UNKNOWN_FORMAT < COMMON_BAND_START,
        COMMON_BAND_START == 18,
        COMMON_BAND_END < BOUNDARY_BAND_START,
        BOUNDARY_BAND_END < FIRST_LIBRARY_BAND,
        BOUNDARY_BAND_START <= INVALID_ARGUMENT <= BOUNDARY_BAND_END,
        BOUNDARY_BAND_START <= PANIC <= BOUNDARY_BAND_END,
        BOUNDARY_BAND_START <= INVALID_OUTPUT <= BOUNDARY_BAND_END,
        !(BOUNDARY_BAND_START <= NONE <= BOUNDARY_BAND_END),
        !(BOUNDARY_BAND_START <= OTHER <= BOUNDARY_BAND_END),
        !(BOUNDARY_BAND_START <= IO <= BOUNDARY_BAND_END),
        !(BOUNDARY_BAND_START <= UNKNOWN_FORMAT <= BOUNDARY_BAND_END),
{
}

/// Library bands are adjacent and disjoint: each starts right after the one
/// before it ends, the bands of two different libraries share no number, and
/// every library band lies above the boundary band.
pub proof fn lemma_library_bands_adjacent_and_disjoint(i: int, j: int, k: int)
    requires
        0 <= i,
        0 <= j,
    ensures
        library_band_start(i + 1) == library_band_start(i) + LIBRARY_BAND_SIZE - 1 + 1,
        library_band_start(i) > BOUNDARY_BAND_END,
        i != j ==> !(library_band_start(i) <= k <= library_band_start(i) + LIBRARY_BAND_SIZE - 1
            && library_band_start(j) <= k <= library_band_start(j) + LIBRARY_BAND_SIZE - 1),
{
    if i < j {
        assert(library_band_start(j) - library_band_start(i) == (j - i) * 100) by (nonlinear_arith);
        assert((j - i) * 100 >= 100) by (nonlinear_arith)
            requires
                j - i >= 1,
        ;
    } else if j < i {
        assert(library_band_start(i) - library_band_start(j) == (i - j) * 100) by (nonlinear_arith);
        assert((i - j) * 100 >= 100) by (nonlinear_arith)
            requires
                i - j >= 1,
        ;
    }
    assert(i * 100 >= 0) by (nonlinear_arith)
        requires
            i >= 0,
    ;
}

} // verus!
