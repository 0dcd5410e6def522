//! Hole-boundary backend: reduces "next hole after X" / "next data after X"
//! probe answers into a complete segment partition.
//!
//! The probes themselves are operating-system calls made by the caller; the
//! logic here decides which probe to make next, records the hole segments the
//! answers describe, and finally synthesizes the data segments that must lie
//! in the gaps between holes.

use vstd::prelude::*;

use crate::reduce::{gap_ok, reduce_segments, spec_reduce, wf_run, MAX_FILE_LEN};
use crate::segment::{hole_seg, seg_wf, wf_scan, ScanError, Segment, SegmentType};

verus! {

/// Appending a well-formed hole past the last recorded one keeps the hole
/// list a well-formed run.
proof fn lemma_holes_push(hs: Seq<Segment>, h: Segment, end: u64)
    requires
        wf_run(hs, end, SegmentType::Hole),
        h.segment_type == SegmentType::Hole,
        seg_wf(h),
        h.end <= end,
        hs.len() > 0 ==> h.start >= hs.last().end + 2,
    ensures
        wf_run(hs.push(h), end, SegmentType::Hole),
{
    let p = hs.push(h);
    assert forall|i: int|
        0 <= i < p.len() implies (#[trigger] p[i]).segment_type == SegmentType::Hole && seg_wf(
        p[i],
    ) && p[i].end <= end by {
        if i < hs.len() {
            assert(p[i] == hs[i]);
        } else {
            assert(p[i] == h);
        }
    }
    assert forall|i: int|
        0 <= i && i + 1 < p.len() implies gap_ok(#[trigger] p[i], #[trigger] p[i + 1]) by {
        if i + 1 < hs.len() {
            assert(p[i] == hs[i]);
            assert(p[i + 1] == hs[i + 1]);
            assert(gap_ok(hs[i], hs[i + 1]));
        } else {
            assert(p[i] == hs[i]);
            assert(hs.last() == hs[i]);
            assert(p[i + 1] == h);
        }
    }
}

/// A boundary probe the caller should make next: the offset at which to look
/// for the next hole byte, or for the next data byte. Probes are inclusive:
/// the answer is the smallest qualifying offset at or after the given one.
#[derive(Clone, Copy, PartialEq, Eq, Structural, Debug)]
pub enum ProbeRequest {
    NextHole(u64),
    NextData(u64),
}

/// What a boundary probe reported: the boundary offset, the signal that no
/// further boundary of the requested kind exists, or an operating-system
/// failure with its raw error code.
#[derive(Clone, Copy, PartialEq, Eq, Structural, Debug)]
pub enum ProbeOutcome {
    Found(u64),
    Absent,
    Failed(i32),
}

/// The observable position of a hole scan: waiting for a hole boundary to be
/// probed at the carried offset, waiting for a data boundary, or finished.
#[derive(Clone, Copy, PartialEq, Eq, Structural, Debug)]
pub enum ScanPhase {
    SeekingHole(u64),
    SeekingData(u64),
    Done,
}

enum ScanState {
    AwaitHole { from: u64 },
    AwaitData { hole_start: u64 },
    Finished,
}

/// Drives a hole-boundary scan of one file: the caller makes the probe this
/// machine requests, feeds the outcome back, and repeats until the machine is
/// done; the recorded holes are then reduced to the full partition.
pub struct HoleScan {
    end: u64,
    holes: Vec<Segment>,
    state: ScanState,
}

impl HoleScan {
    /// The length of the file under scan.
    pub closed spec fn file_len(self) -> u64 {
        self.end
    }

    /// The hole segments recorded so far.
    pub closed spec fn holes(self) -> Seq<Segment> {
        self.holes@
    }

    /// Where the scan stands: which probe it awaits, or that it is finished.
    pub closed spec fn phase(self) -> ScanPhase {
        match self.state {
            ScanState::AwaitHole { from } => ScanPhase::SeekingHole(from),
            ScanState::AwaitData { hole_start } => ScanPhase::SeekingData(hole_start),
            ScanState::Finished => ScanPhase::Done,
        }
    }

    /// Internal validity: the recorded holes are a well-formed run for the
    /// file length, and the awaited probe offset sits past the last of them.
    pub closed spec fn wf(self) -> bool {
        &&& self.end <= MAX_FILE_LEN
        &&& wf_run(self.holes@, self.end, SegmentType::Hole)
        &&& self.holes@.len() > 0 ==> self.end > 0
        &&& match self.state {
            ScanState::AwaitHole { from } => {
                &&& from <= self.end
                &&& self.holes@.len() == 0 ==> from == 0
                &&& self.holes@.len() > 0 ==> from == self.holes@.last().end + 2
                    && self.holes@.last().end < self.end
            },
            ScanState::AwaitData { hole_start } => {
                &&& hole_start < self.end
                &&& self.holes@.len() > 0 ==> hole_start >= self.holes@.last().end + 2
            },
            ScanState::Finished => true,
        }
    }

    /// Begins a scan of a file of the given length, about to probe for the
    /// first hole at offset 0.
    pub fn new(end: u64) -> (r: HoleScan)
        requires
            end <= MAX_FILE_LEN,
        ensures
            r.wf(),
            r.file_len() == end,
            r.holes() == Seq::<Segment>::empty(),
            r.phase() == ScanPhase::SeekingHole(0),
    {
        HoleScan { end, holes: Vec::new(), state: ScanState::AwaitHole { from: 0 } }
    }

    /// The probe the caller should make next, or `None` once the scan is
    /// finished. A data probe is made strictly past the hole start it follows.
    pub fn next_probe(&self) -> (r: Option<ProbeRequest>)
        requires
            self.wf(),
        ensures
            (self.phase() matches ScanPhase::SeekingHole(f)
                ==> r == Some(ProbeRequest::NextHole(f))),
            (self.phase() matches ScanPhase::SeekingData(c)
                ==> r == Some(ProbeRequest::NextData((c + 1) as u64))),
            self.phase() == ScanPhase::Done ==> r == None::<ProbeRequest>,
    {
        match self.state {
            ScanState::AwaitHole { from } => Some(ProbeRequest::NextHole(from)),
            ScanState::AwaitData { hole_start } => Some(ProbeRequest::NextData(hole_start + 1)),
            ScanState::Finished => None,
        }
    }

    /// Feeds back the outcome of the requested probe.
    ///
    /// A reported failure aborts the scan at once with the carried error. A
    /// hole boundary inside the file starts the search for the end of that
    /// hole; one at or past the file length finishes the scan. A data boundary
    /// closes the pending hole just before it; when no data boundary remains,
    /// the pending hole is closed at the file length. A reported boundary
    /// that contradicts the probe's documented range (before the probed
    /// offset) is treated as "no further boundary".
    pub fn feed(&mut self, outcome: ProbeOutcome) -> (r: Result<(), ScanError>)
        requires
            old(self).wf(),
            old(self).phase() != ScanPhase::Done,
        ensures
            final(self).wf(),
            final(self).file_len() == old(self).file_len(),
            (outcome matches ProbeOutcome::Failed(code) ==> {
                &&& r == Err::<(), ScanError>((ScanError { code }))
                &&& final(self).phase() == ScanPhase::Done
                &&& final(self).holes() == old(self).holes()
            }),
            !(outcome matches ProbeOutcome::Failed(_)) ==> r is Ok,
            (old(self).phase() matches ScanPhase::SeekingHole(f) ==> (outcome
                matches ProbeOutcome::Found(x) ==> {
                if f <= x && x < old(self).file_len() {
                    &&& final(self).phase() == ScanPhase::SeekingData(x)
                    &&& final(self).holes() == old(self).holes()
                } else {
                    &&& final(self).phase() == ScanPhase::Done
                    &&& final(self).holes() == old(self).holes()
                }
            })),
            (old(self).phase() is SeekingHole && outcome == ProbeOutcome::Absent ==> {
                &&& final(self).phase() == ScanPhase::Done
                &&& final(self).holes() == old(self).holes()
            }),
            (old(self).phase() matches ScanPhase::SeekingData(c) ==> (outcome
                matches ProbeOutcome::Found(x) ==> {
                if c < x && x < old(self).file_len() {
                    &&& final(self).phase() == ScanPhase::SeekingHole((x + 1) as u64)
                    &&& final(self).holes() == old(self).holes().push(hole_seg(c, (x - 1) as u64))
                } else {
                    &&& final(self).phase() == ScanPhase::Done
                    &&& final(self).holes() == old(self).holes().push(
                        hole_seg(c, old(self).file_len()),
                    )
                }
            })),
            (old(self).phase() matches ScanPhase::SeekingData(c) ==> (outcome
                matches ProbeOutcome::Absent ==> {
                &&& final(self).phase() == ScanPhase::Done
                &&& final(self).holes() == old(self).holes().push(hole_seg(c, old(self).file_len()))
            })),
    {
        match outcome {
            ProbeOutcome::Failed(code) => {
                self.state = ScanState::Finished;
                Err(ScanError { code })
            },
            ProbeOutcome::Absent => {
                match self.state {
                    ScanState::AwaitData { hole_start } => {
                        let seg = Segment {
                            segment_type: SegmentType::Hole,
                            start: hole_start,
                            end: self.end,
                        };
                        proof {
                            lemma_holes_push(self.holes@, seg, self.end);
                        }
                        self.holes.push(seg);
                    },
                    _ => {},
                }
                self.state = ScanState::Finished;
                Ok(())
            },
            ProbeOutcome::Found(x) => {
                match self.state {
                    ScanState::AwaitHole { from } => {
                        if from <= x && x < self.end {
                            self.state = ScanState::AwaitData { hole_start: x };
                        } else {
                            self.state = ScanState::Finished;
                        }
                    },
                    ScanState::AwaitData { hole_start } => {
                        if hole_start < x && x < self.end {
                            let seg = Segment {
                                segment_type: SegmentType::Hole,
                                start: hole_start,
                                end: x - 1,
                            };
                            proof {
                                lemma_holes_push(self.holes@, seg, self.end);
                            }
                            self.holes.push(seg);
                            self.state = ScanState::AwaitHole { from: x + 1 };
                        } else {
                            let seg = Segment {
                                segment_type: SegmentType::Hole,
                                start: hole_start,
                                end: self.end,
                            };
                            proof {
                                lemma_holes_push(self.holes@, seg, self.end);
                            }
                            self.holes.push(seg);
                            self.state = ScanState::Finished;
                        }
                    },
                    ScanState::Finished => {},
                }
                Ok(())
            },
        }
    }

    /// Reduces the recorded holes to the complete partition of the file,
    /// synthesizing the data segments in the gaps.
    pub fn finish(self) -> (r: Vec<Segment>)
        requires
            self.wf(),
            self.phase() == ScanPhase::Done,
        ensures
            r@ == spec_reduce(self.holes(), self.file_len(), SegmentType::Data),
            wf_scan(r@, self.file_len()),
    {
        reduce_segments(&self.holes, self.end, SegmentType::Data)
    }
}

} // verus!
