use sparse_scan::hole_scan::{HoleScan, ProbeOutcome, ProbeRequest};
use sparse_scan::segment::{ScanError, Segment, SegmentType};

fn data(start: u64, end: u64) -> Segment {
    Segment { segment_type: SegmentType::Data, start, end }
}

fn hole(start: u64, end: u64) -> Segment {
    Segment { segment_type: SegmentType::Hole, start, end }
}

/// Drives a hole scan with a prepared list of probe answers, as the
/// system-call shim would with real answers.
fn run_scan(end: u64, outcomes: &[ProbeOutcome]) -> Result<Vec<Segment>, ScanError> {
    let mut scan = HoleScan::new(end);
    let mut next = 0;
    while let Some(_req) = scan.next_probe() {
        let outcome = outcomes[next];
        next += 1;
        scan.feed(outcome)?;
    }
    Ok(scan.finish())
}

#[test]
fn empty_file_scans_to_nothing() {
    // Probing for a hole in a zero-length file reports that none exists.
    let r = run_scan(0, &[ProbeOutcome::Absent]).unwrap();
    assert_eq!(r, vec![]);
}

#[test]
fn dense_file_scans_to_one_data_segment() {
    // A fully dense file reports only the virtual hole at the file length.
    let r = run_scan(30, &[ProbeOutcome::Found(30)]).unwrap();
    assert_eq!(r, vec![data(0, 30)]);
}

#[test]
fn leading_hole_then_data() {
    // Hole over bytes 0..=9, data from 10 to the end of a 30-byte file.
    let r = run_scan(
        30,
        &[ProbeOutcome::Found(0), ProbeOutcome::Found(10), ProbeOutcome::Found(30)],
    )
    .unwrap();
    assert_eq!(r, vec![hole(0, 9), data(10, 30)]);
}

#[test]
fn alternating_pattern_scans_in_order() {
    // Data over 0..=9, hole over 10..=19, data to the end of a 30-byte file.
    let r = run_scan(
        30,
        &[ProbeOutcome::Found(10), ProbeOutcome::Found(20), ProbeOutcome::Found(30)],
    )
    .unwrap();
    assert_eq!(r, vec![data(0, 9), hole(10, 19), data(20, 30)]);
}

#[test]
fn trailing_hole_closed_when_no_data_remains() {
    // A hole at 10 with no data after it runs to the file length.
    let r = run_scan(30, &[ProbeOutcome::Found(10), ProbeOutcome::Absent]).unwrap();
    assert_eq!(r, vec![data(0, 9), hole(10, 30)]);
}

#[test]
fn failed_probe_aborts_with_os_error() {
    let e = run_scan(30, &[ProbeOutcome::Failed(9)]).unwrap_err();
    assert_eq!(e, ScanError { code: 9 });
}

#[test]
fn failure_mid_scan_reports_error_and_no_segments() {
    let r = run_scan(30, &[ProbeOutcome::Found(10), ProbeOutcome::Failed(5)]);
    assert_eq!(r, Err(ScanError { code: 5 }));
}

#[test]
fn scanning_same_outcomes_twice_is_identical() {
    let outcomes = [ProbeOutcome::Found(10), ProbeOutcome::Found(20), ProbeOutcome::Found(30)];
    let a = run_scan(30, &outcomes).unwrap();
    let b = run_scan(30, &outcomes).unwrap();
    assert_eq!(a, b);
}

#[test]
fn probes_alternate_and_search_strictly_past_a_found_hole() {
    let mut scan = HoleScan::new(30);
    assert_eq!(scan.next_probe(), Some(ProbeRequest::NextHole(0)));
    scan.feed(ProbeOutcome::Found(10)).unwrap();
    assert_eq!(scan.next_probe(), Some(ProbeRequest::NextData(11)));
    scan.feed(ProbeOutcome::Found(20)).unwrap();
    assert_eq!(scan.next_probe(), Some(ProbeRequest::NextHole(21)));
    scan.feed(ProbeOutcome::Found(30)).unwrap();
    assert_eq!(scan.next_probe(), None);
}

#[test]
fn scan_error_carries_raw_code() {
    assert_eq!(ScanError::new(7).code, 7);
}
