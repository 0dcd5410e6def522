//! The segment model: a typed, inclusive byte range, the invariants a scan
//! result must satisfy, and the single scan error.

use vstd::prelude::*;

verus! {

/// Classification of a contiguous byte range within a file.
#[derive(Clone, Copy, PartialEq, Eq, Structural, Debug)]
pub enum SegmentType {
    Data,
    Hole,
}

/// A contiguous typed byte range; both bounds are inclusive byte offsets from
/// the start of the file.
#[derive(Clone, Copy, PartialEq, Eq, Structural, Debug)]
pub struct Segment {
    pub segment_type: SegmentType,
    pub start: u64,
    pub end: u64,
}

/// The one scan failure kind: an underlying operating-system call failed.
/// It carries the raw error code the system reported.
#[derive(Clone, Copy, PartialEq, Eq, Structural, Debug)]
pub struct ScanError {
    pub code: i32,
}

pub open spec fn data_seg(start: u64, end: u64) -> Segment {
    Segment { segment_type: SegmentType::Data, start, end }
}

pub open spec fn hole_seg(start: u64, end: u64) -> Segment {
    Segment { segment_type: SegmentType::Hole, start, end }
}

pub open spec fn seg_wf(s: Segment) -> bool {
    s.start <= s.end
}

/// `b` begins right after `a` ends, and the two differ in type.
pub open spec fn adjacent_ok(a: Segment, b: Segment) -> bool {
    &&& b.start == a.end + 1
    &&& b.segment_type != a.segment_type
}

/// Each segment is well formed, consecutive segments are contiguous, and no
/// two adjacent segments share a type.
pub open spec fn chained(s: Seq<Segment>) -> bool {
    &&& forall|i: int| 0 <= i < s.len() ==> seg_wf(#[trigger] s[i])
    &&& forall|i: int|
        0 <= i && i + 1 < s.len() ==> adjacent_ok(#[trigger] s[i], #[trigger] s[i + 1])
}

/// Invariant of a scan result over a file of the given length: empty exactly
/// for an empty file; otherwise a contiguous, alternating partition that
/// starts at offset 0 and whose final segment ends at the file length.
pub open spec fn wf_scan(s: Seq<Segment>, len: u64) -> bool {
    &&& (s.len() == 0 <==> len == 0)
    &&& s.len() > 0 ==> s[0].start == 0 && s.last().end == len
    &&& chained(s)
}

/// Invariant of a synthetic layout of the given length: as `wf_scan`, except
/// that the final segment ends at the last byte offset, `len - 1`.
pub open spec fn wf_layout(s: Seq<Segment>, len: u64) -> bool {
    &&& (s.len() == 0 <==> len == 0)
    &&& s.len() > 0 ==> s[0].start == 0 && s.last().end + 1 == len
    &&& chained(s)
}

impl ScanError {
    /// Wraps a raw operating-system error code.
    pub fn new(code: i32) -> (r: ScanError)
        ensures
            r.code == code,
    {
        ScanError { code }
    }
}

} // verus!
