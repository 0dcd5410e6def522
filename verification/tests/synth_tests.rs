use sparse_scan::segment::{Segment, SegmentType};
use sparse_scan::synth::{SparseDescription, Tag};

fn data(start: u64, end: u64) -> Segment {
    Segment { segment_type: SegmentType::Data, start, end }
}

fn hole(start: u64, end: u64) -> Segment {
    Segment { segment_type: SegmentType::Hole, start, end }
}

#[test]
fn tag_offset_reads_any_variant() {
    assert_eq!(Tag::Data(5).offset(), 5);
    assert_eq!(Tag::Hole(9).offset(), 9);
    assert_eq!(Tag::End(30).offset(), 30);
}

#[test]
fn zero_length_layout_is_empty() {
    let d = SparseDescription::from_choices(0, true, &vec![]);
    assert_eq!(d.segments().clone(), vec![]);
}

#[test]
fn alternating_layout_reduces_exactly() {
    // Splits at 10 and 20 on a 30-byte file starting with data.
    let d = SparseDescription::from_choices(30, false, &vec![10, 20]);
    assert_eq!(d.segments().clone(), vec![data(0, 9), hole(10, 19), data(20, 29)]);
}

#[test]
fn layout_starting_with_hole() {
    let d = SparseDescription::from_choices(30, true, &vec![10]);
    assert_eq!(d.segments().clone(), vec![hole(0, 9), data(10, 29)]);
}

#[test]
fn duplicate_splits_collapse() {
    let d = SparseDescription::from_choices(30, false, &vec![10, 10, 20, 20]);
    assert_eq!(d.segments().clone(), vec![data(0, 9), hole(10, 19), data(20, 29)]);
}

#[test]
fn split_at_zero_merges_with_the_start_tag() {
    // The boundary at offset 0 is the layout's start; a split there adds
    // nothing, and the first type stays the chosen one.
    let d = SparseDescription::from_choices(30, true, &vec![0, 15]);
    assert_eq!(d.segments().clone(), vec![hole(0, 14), data(15, 29)]);
}

#[test]
fn unsorted_splits_are_sorted() {
    let d = SparseDescription::from_choices(40, false, &vec![30, 10, 20]);
    assert_eq!(
        d.segments().clone(),
        vec![data(0, 9), hole(10, 19), data(20, 29), hole(30, 39)]
    );
}

#[test]
fn single_byte_file_is_one_segment() {
    let d = SparseDescription::from_choices(1, false, &vec![]);
    assert_eq!(d.segments().clone(), vec![data(0, 0)]);
}

#[test]
fn scanning_a_layout_round_trips_to_its_canonical_form() {
    // The scan of the materialized layout equals the layout itself, with the
    // final segment's end moved from the last byte offset to the file length.
    let d = SparseDescription::from_choices(30, false, &vec![10, 20]);
    let scanned = d.scan_layout();
    assert_eq!(scanned, vec![data(0, 9), hole(10, 19), data(20, 30)]);
}

#[test]
fn round_trip_of_a_layout_ending_in_a_hole() {
    let d = SparseDescription::from_choices(25, true, &vec![5, 15]);
    assert_eq!(
        d.segments().clone(),
        vec![hole(0, 4), data(5, 14), hole(15, 24)]
    );
    let scanned = d.scan_layout();
    assert_eq!(scanned, vec![hole(0, 4), data(5, 14), hole(15, 25)]);
}

#[test]
fn scanning_the_same_layout_twice_is_identical() {
    let d = SparseDescription::from_choices(100, true, &vec![3, 47, 62]);
    assert_eq!(d.scan_layout(), d.scan_layout());
}

#[test]
fn write_plan_covers_exactly_the_data_segments() {
    let d = SparseDescription::from_choices(30, false, &vec![10, 20]);
    // Data over 0..=9 and 20..=29: ten bytes each.
    assert_eq!(d.write_plan(), vec![(0, 10), (20, 10)]);
}

#[test]
fn write_plan_of_an_all_hole_layout_is_empty() {
    let d = SparseDescription::from_choices(30, true, &vec![]);
    assert_eq!(d.segments().clone(), vec![hole(0, 29)]);
    assert_eq!(d.write_plan(), vec![]);
}
