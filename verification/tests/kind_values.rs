use unparser_shared::ffi::{invalid_argument, invalid_output};
use unparser_shared::kind::{
    boundary_band, common_band, is_boundary, library_band, BOUNDARY_BAND_END, FIRST_LIBRARY_BAND,
    INVALID_ARGUMENT, INVALID_OUTPUT, IO, LIBRARY_BAND_SIZE, NONE, OTHER, PANIC, UNKNOWN_FORMAT,
};

#[test]
fn the_shared_values_are_what_the_family_already_ships() {
    assert_eq!(NONE, 0);
    assert_eq!(OTHER, 1);
    assert_eq!(IO, 2);
    assert_eq!(UNKNOWN_FORMAT, 3);
    assert_eq!(INVALID_ARGUMENT, 100);
    assert_eq!(PANIC, 101);
    assert_eq!(INVALID_OUTPUT, 102);
}

#[test]
fn bands_do_not_overlap_and_leave_the_historical_range_alone() {
    let common = common_band();
    let boundary = boundary_band();
    assert!(*common.start() > UNKNOWN_FORMAT);
    assert_eq!(*common.start(), 18, "1..=17 is history, not ours to hand out");
    assert!(common.end() < boundary.start());
    assert!(*boundary.end() < FIRST_LIBRARY_BAND);
    assert_eq!(*boundary.end(), BOUNDARY_BAND_END);
}

#[test]
fn boundary_values_live_in_the_boundary_band() {
    for kind in [INVALID_ARGUMENT, PANIC, INVALID_OUTPUT] {
        assert!(is_boundary(kind), "{kind} should be a boundary reason");
    }
    for kind in [NONE, OTHER, IO, UNKNOWN_FORMAT] {
        assert!(!is_boundary(kind), "{kind} should not be a boundary reason");
    }
}

#[test]
fn library_bands_are_adjacent_and_disjoint() {
    let first = library_band(0);
    let second = library_band(1);
    let third = library_band(2);

    assert_eq!(first, 200..=299);
    assert_eq!(second, 300..=399);
    assert_eq!(third, 400..=499);
    assert_eq!(*second.start(), *first.end() + 1);
    assert_eq!(*third.start(), *second.end() + 1);
    assert!(!first.contains(second.start()));
}

#[test]
fn the_band_edges_are_boundary_or_not_exactly() {
    assert!(is_boundary(100));
    assert!(is_boundary(199));
    assert!(!is_boundary(99));
    assert!(!is_boundary(200));
    assert!(!is_boundary(-1));
    assert_eq!(LIBRARY_BAND_SIZE, 100);
    assert_eq!(library_band(-2), 0..=99);
}

#[test]
fn invalid_argument_and_invalid_output_carry_their_kinds() {
    let (kind, message) = invalid_argument("path was null");
    assert_eq!(kind, INVALID_ARGUMENT);
    assert_eq!(message, "path was null");
    let (kind, message) = invalid_output();
    assert_eq!(kind, INVALID_OUTPUT);
    assert_eq!(message, "output contains null byte");
}
