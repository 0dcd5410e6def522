use sparse_scan::ranges::{next_query_start, segments_from_ranges, AllocatedRange};
use sparse_scan::segment::{Segment, SegmentType};

fn data(start: u64, end: u64) -> Segment {
    Segment { segment_type: SegmentType::Data, start, end }
}

fn hole(start: u64, end: u64) -> Segment {
    Segment { segment_type: SegmentType::Hole, start, end }
}

fn range(offset: u64, length: u64) -> AllocatedRange {
    AllocatedRange { offset, length }
}

#[test]
fn empty_file_has_no_ranges_and_no_segments() {
    let r = segments_from_ranges(&vec![], 0, true);
    assert_eq!(r, vec![]);
}

#[test]
fn non_sparse_file_is_one_data_segment() {
    let r = segments_from_ranges(&vec![], 100, false);
    assert_eq!(r, vec![data(0, 100)]);
}

#[test]
fn sparse_file_with_no_ranges_is_one_hole() {
    let r = segments_from_ranges(&vec![], 50, true);
    assert_eq!(r, vec![hole(0, 50)]);
}

#[test]
fn gaps_between_ranges_become_holes() {
    let r = segments_from_ranges(&vec![range(0, 10), range(20, 10)], 30, true);
    assert_eq!(r, vec![data(0, 10), hole(11, 19), data(20, 30)]);
}

#[test]
fn zero_length_range_is_dropped() {
    let r = segments_from_ranges(&vec![range(0, 10), range(15, 0), range(20, 10)], 30, true);
    assert_eq!(r, vec![data(0, 10), hole(11, 19), data(20, 30)]);
}

#[test]
fn leading_gap_becomes_a_hole() {
    let r = segments_from_ranges(&vec![range(10, 10)], 20, true);
    assert_eq!(r, vec![hole(0, 9), data(10, 20)]);
}

#[test]
fn trailing_gap_becomes_a_hole() {
    let r = segments_from_ranges(&vec![range(0, 10)], 30, true);
    assert_eq!(r, vec![data(0, 10), hole(11, 30)]);
}

#[test]
fn full_query_page_continues_after_its_last_range() {
    let page = vec![range(0, 10), range(20, 10)];
    assert_eq!(next_query_start(&page, 2, 100), Some(30));
}

#[test]
fn short_query_page_completes_the_query() {
    let page = vec![range(0, 10)];
    assert_eq!(next_query_start(&page, 2, 100), None);
}

#[test]
fn full_page_reaching_the_file_length_completes_the_query() {
    let page = vec![range(0, 10), range(20, 80)];
    assert_eq!(next_query_start(&page, 2, 100), None);
}

#[test]
fn empty_page_completes_the_query() {
    let page: Vec<AllocatedRange> = vec![];
    assert_eq!(next_query_start(&page, 2, 100), None);
}
