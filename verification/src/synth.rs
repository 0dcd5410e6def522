//! Synthetic sparse-file layouts: the test oracle. A layout is built from a
//! chosen length, a chosen first segment type, and chosen split offsets; the
//! result is a law-abiding alternating partition that can be materialized as
//! a real file and compared against a scan of that file.

use vstd::prelude::*;

use crate::hole_scan::{HoleScan, ProbeOutcome, ProbeRequest, ScanPhase};
use crate::reduce::{
    gap_ok, lemma_reduce_round_trip, lemma_runs_subset, lemma_runs_wf, runs_from, typed_seg,
    wf_run, MAX_FILE_LEN,
};
use crate::segment::{adjacent_ok, chained, seg_wf, wf_layout, wf_scan, Segment, SegmentType};

verus! {

/// A boundary tag marking where a region begins: data or hole at the carried
/// offset, or the end of the file. A layout is the reduction of a sorted,
/// alternating tag list into segments.
#[derive(Clone, Copy, PartialEq, Eq, Hash, Structural, Debug)]
pub enum Tag {
    Data(u64),
    Hole(u64),
    End(u64),
}

impl Tag {
    /// The byte offset this tag stands at.
    pub open spec fn spec_offset(self) -> u64 {
        match self {
            Tag::Data(x) => x,
            Tag::Hole(x) => x,
            Tag::End(x) => x,
        }
    }

    /// The byte offset this tag stands at.
    pub fn offset(&self) -> (r: u64)
        ensures
            r == self.spec_offset(),
    {
        match *self {
            Tag::Data(x) => x,
            Tag::Hole(x) => x,
            Tag::End(x) => x,
        }
    }
}

/// A synthetic sparse-file description: an alternating segment partition of
/// a file, produced by `from_choices` and scanned back by `scan_layout`.
#[derive(Clone, Debug)]
pub struct SparseDescription(Vec<Segment>);

impl View for SparseDescription {
    type V = Seq<Segment>;

    closed spec fn view(&self) -> Seq<Segment> {
        self.0@
    }
}

/// The file length a layout describes: one past the final segment's
/// inclusive end, or zero for an empty layout.
pub open spec fn layout_len(l: Seq<Segment>) -> u64 {
    if l.len() == 0 {
        0
    } else {
        (l.last().end + 1) as u64
    }
}

/// A layout as a scan of the materialized file reports it: the final
/// segment's end moves from the last byte offset to the file length.
pub open spec fn canonical(l: Seq<Segment>) -> Seq<Segment> {
    if l.len() == 0 {
        l
    } else {
        l.update(
            l.len() - 1,
            typed_seg(l.last().segment_type, l.last().start, (l.last().end + 1) as u64),
        )
    }
}

/// Some segment of `s` starts at offset `o`.
pub open spec fn has_start(s: Seq<Segment>, o: u64) -> bool {
    exists|i: int| 0 <= i < s.len() && (#[trigger] s[i]).start == o
}

/// Strictly increasing offsets.
pub open spec fn strictly_sorted(v: Seq<u64>) -> bool {
    forall|i: int, j: int| 0 <= i < j < v.len() ==> #[trigger] v[i] < #[trigger] v[j]
}

/// The segment type at position `k` when the first segment has the type
/// chosen by `hole_first` and types alternate from there.
pub open spec fn alt_is_hole(hole_first: bool, k: int) -> bool {
    if k % 2 == 0 {
        hole_first
    } else {
        !hole_first
    }
}

/// Inserts `x` into a strictly sorted offset list, keeping it strictly
/// sorted; a duplicate is dropped, so per offset the list holds one entry.
fn insert_sorted(v: &mut Vec<u64>, x: u64)
    requires
        strictly_sorted(old(v)@),
    ensures
        strictly_sorted(final(v)@),
        forall|o: u64| final(v)@.contains(o) <==> old(v)@.contains(o) || o == x,
{
    let mut j: usize = 0;
    while j < v.len() && v[j] < x
        invariant
            j <= v@.len(),
            forall|k: int| 0 <= k < j ==> v@[k] < x,
            strictly_sorted(v@),
        decreases v@.len() - j,
    {
        j += 1;
    }
    if j < v.len() && v[j] == x {
        assert(v@[j as int] == x);
        assert(v@.contains(x));
        return ;
    }
    proof {
        v@.insert_ensures(j as int, x);
    }
    let ghost before = v@;
    v.insert(j, x);
    let ghost jj = j as int;
    assert forall|a: int, b: int| 0 <= a < b < v@.len() implies #[trigger] v@[a] < #[trigger] v@[b]
        by {
        if b < jj {
            assert(v@[a] == before[a]);
            assert(v@[b] == before[b]);
        } else if b == jj {
            assert(v@[a] == before[a]);
            assert(v@[b] == x);
        } else {
            let m = b - 1;
            assert(v@[m + 1] == before[m]);
            if a < jj {
                assert(v@[a] == before[a]);
                if a < m {
                    assert(before[a] < before[m]);
                }
            } else if a == jj {
                assert(v@[a] == x);
                assert(jj < before.len());
                assert(!(before[jj] < x) && before[jj] != x);
                if jj < m {
                    assert(before[jj] < before[m]);
                }
            } else {
                let n = a - 1;
                assert(v@[n + 1] == before[n]);
                assert(before[n] < before[m]);
            }
        }
    }
    assert forall|o: u64| v@.contains(o) implies (before.contains(o) || o == x) by {
        let k = choose|k: int| 0 <= k < v@.len() && v@[k] == o;
        if k < jj {
            assert(v@[k] == before[k]);
            assert(before[k] == o);
        } else if k > jj {
            let m = k - 1;
            assert(v@[m + 1] == before[m]);
            assert(before[m] == o);
        }
    }
    assert forall|o: u64| (before.contains(o) || o == x) implies v@.contains(o) by {
        if o == x {
            assert(v@[jj] == x);
        } else {
            let k = choose|k: int| 0 <= k < before.len() && before[k] == o;
            if k < jj {
                assert(v@[k] == before[k]);
            } else {
                assert(v@[k + 1] == before[k]);
            }
        }
    }
}

impl SparseDescription {
    /// A layout is well formed when it is a contiguous alternating partition
    /// that starts at offset 0 and stays within the largest supported file.
    pub open spec fn wf(&self) -> bool {
        &&& chained(self@)
        &&& self@.len() > 0 ==> self@[0].start == 0 && self@.last().end < MAX_FILE_LEN
    }

    /// The segments of this layout, first to last.
    pub fn segments(&self) -> (r: &Vec<Segment>)
        ensures
            r@ == self@,
    {
        &self.0
    }

    /// Builds the layout the given choices describe: a file of length
    /// `length` whose first segment type is chosen by `starts_with_hole` and
    /// whose segment boundaries are offset 0 and the split offsets. Split
    /// offsets are deduplicated (one boundary per offset) and sorted, and
    /// segment types alternate from the first; a zero-length file has no
    /// segments at all.
    pub fn from_choices(length: u64, starts_with_hole: bool, splits: &Vec<u64>) -> (r:
        SparseDescription)
        requires
            length <= MAX_FILE_LEN,
            forall|i: int| 0 <= i < splits@.len() ==> #[trigger] splits@[i] < length,
        ensures
            r.wf(),
            wf_layout(r@, length),
            length > 0 ==> r@[0].segment_type == (if starts_with_hole {
                SegmentType::Hole
            } else {
                SegmentType::Data
            }),
            forall|o: u64|
                has_start(r@, o) <==> (length > 0 && (o == 0 || splits@.contains(o))),
    {
        if length == 0 {
            let r = SparseDescription(Vec::new());
            assert(forall|o: u64| !has_start(r@, o));
            return r;
        }
        let mut offs: Vec<u64> = Vec::new();
        offs.push(0);
        assert(offs@ =~= seq![0u64]);
        assert forall|o: u64| offs@.contains(o) implies o == 0 by {
            let k = choose|k: int| 0 <= k < offs@.len() && offs@[k] == o;
        }
        assert(offs@[0] == 0);
        let mut i: usize = 0;
        while i < splits.len()
            invariant
                i <= splits@.len(),
                length > 0,
                strictly_sorted(offs@),
                forall|j: int| 0 <= j < splits@.len() ==> #[trigger] splits@[j] < length,
                forall|o: u64|
                    offs@.contains(o) <==> (o == 0 || splits@.take(i as int).contains(o)),
            decreases splits@.len() - i,
        {
            let x = splits[i];
            let ghost offs_before = offs@;
            insert_sorted(&mut offs, x);
            proof {
                assert(splits@.take(i as int + 1) =~= splits@.take(i as int).push(x));
                assert forall|o: u64|
                    splits@.take(i as int + 1).contains(o) implies (splits@.take(
                    i as int,
                ).contains(o) || o == x) by {
                    let t = splits@.take(i as int + 1);
                    let k = choose|k: int| 0 <= k < t.len() && t[k] == o;
                    if k < i {
                        assert(splits@.take(i as int)[k] == o);
                    }
                }
                assert forall|o: u64|
                    (splits@.take(i as int).contains(o) || o == x) implies splits@.take(
                    i as int + 1,
                ).contains(o) by {
                    if o == x {
                        assert(splits@.take(i as int + 1)[i as int] == o);
                    } else {
                        let k = choose|k: int|
                            0 <= k < i && splits@.take(i as int)[k] == o;
                        assert(splits@.take(i as int + 1)[k] == o);
                    }
                }
                assert forall|o: u64|
                    offs@.contains(o) <==> (o == 0 || splits@.take(i as int + 1).contains(o)) by {
                    assert(offs@.contains(o) <==> (offs_before.contains(o) || o == x));
                    assert(offs_before.contains(o) <==> (o == 0 || splits@.take(
                        i as int,
                    ).contains(o)));
                    assert(splits@.take(i as int + 1).contains(o) <==> (splits@.take(
                        i as int,
                    ).contains(o) || o == x));
                }
            }
            i += 1;
        }
        proof {
            assert(splits@.take(splits@.len() as int) =~= splits@);
        }
        // The offset list holds 0 and every split, each once, in order; 0 is
        // the least unsigned value, so it stands first.
        assert(offs@.contains(0));
        assert(offs@.len() >= 1);
        assert(offs@[0] == 0) by {
            let k = choose|k: int| 0 <= k < offs@.len() && offs@[k] == 0;
            if k > 0 {
                assert(offs@[0] < offs@[k]);
            }
        }
        assert forall|k: int| 0 <= k < offs@.len() implies #[trigger] offs@[k] < length by {
            assert(offs@.contains(offs@[k]));
        }
        let n = offs.len();
        let mut segs: Vec<Segment> = Vec::new();
        let mut hole_next = starts_with_hole;
        let mut k: usize = 0;
        while k < n
            invariant
                n == offs@.len(),
                n >= 1,
                length > 0,
                k <= n,
                strictly_sorted(offs@),
                offs@[0] == 0,
                forall|j: int| 0 <= j < n ==> #[trigger] offs@[j] < length,
                segs@.len() == k,
                forall|t: int| 0 <= t < k ==> (#[trigger] segs@[t]).start == offs@[t],
                forall|t: int|
                    0 <= t < k ==> (#[trigger] segs@[t]).end == (if t + 1 < n {
                        (offs@[t + 1] - 1) as u64
                    } else {
                        (length - 1) as u64
                    }),
                forall|t: int|
                    0 <= t < k ==> (#[trigger] segs@[t]).segment_type == (if alt_is_hole(
                        starts_with_hole,
                        t,
                    ) {
                        SegmentType::Hole
                    } else {
                        SegmentType::Data
                    }),
                hole_next == alt_is_hole(starts_with_hole, k as int),
            decreases n - k,
        {
            let start = offs[k];
            let end = if k + 1 < n {
                proof {
                    assert(offs@[k as int] < offs@[k as int + 1]);
                }
                offs[k + 1] - 1
            } else {
                length - 1
            };
            let t = if hole_next {
                SegmentType::Hole
            } else {
                SegmentType::Data
            };
            segs.push(Segment { segment_type: t, start, end });
            hole_next = !hole_next;
            k += 1;
        }
        let r = SparseDescription(segs);
        proof {
            let s = r@;
            assert(s.len() == n);
            assert forall|t: int| 0 <= t < s.len() implies seg_wf(#[trigger] s[t]) by {
                if t + 1 < n {
                    assert(offs@[t] < offs@[t + 1]);
                }
            }
            assert forall|t: int|
                0 <= t && t + 1 < s.len() implies adjacent_ok(#[trigger] s[t], #[trigger] s[t + 1])
                by {
                assert(offs@[t] < offs@[t + 1]);
                assert(s[t + 1].start == offs@[t + 1]);
                assert(alt_is_hole(starts_with_hole, t + 1) == !alt_is_hole(starts_with_hole, t));
            }
            assert(s.last().end + 1 == length);
            assert(wf_layout(s, length));
            assert forall|o: u64| has_start(s, o) implies (o == 0 || splits@.contains(o)) by {
                let t = choose|t: int| 0 <= t < s.len() && (#[trigger] s[t]).start == o;
                assert(s[t].start == offs@[t]);
                assert(offs@.contains(o));
            }
            assert forall|o: u64| (o == 0 || splits@.contains(o)) implies has_start(s, o) by {
                assert(offs@.contains(o));
                let t = choose|t: int| 0 <= t < offs@.len() && offs@[t] == o;
                assert(s[t].start == o);
            }
        }
        r
    }

    /// The writes that materialize this layout: one `(start, byte count)`
    /// record per data segment, covering exactly the segment's byte range;
    /// holes get no write.
    pub fn write_plan(&self) -> (r: Vec<(u64, u64)>)
        requires
            self.wf(),
        ensures
            r@ == spec_write_plan(self@),
    {
        proof {
            crate::reduce::lemma_chain_mono(self@);
            assert forall|t: int|
                0 <= t < self@.len() implies seg_wf(#[trigger] self@[t]) && self@[t].end
                < MAX_FILE_LEN by {
                assert(self@[t].end <= self@.last().end);
            }
        }
        let r = plan_from(&self.0, 0);
        proof {
            assert(self.0@.skip(0) =~= self.0@);
        }
        r
    }

    /// Scans this layout as a hole-boundary backend ideally would: the
    /// layout's own hole segments are the complete boundary information of
    /// the materialized file: each probe the scan machine requests is
    /// answered from them, exactly as the operating system would answer it,
    /// and the finished machine reduces what it recorded to the canonical
    /// form of the layout — the round trip.
    pub fn scan_layout(&self) -> (r: Vec<Segment>)
        requires
            self.wf(),
        ensures
            r@ == canonical(self@),
            wf_scan(r@, layout_len(self@)),
    {
        let n = self.0.len();
        let mut canon: Vec<Segment> = Vec::new();
        let mut i: usize = 0;
        while i < n
            invariant
                n == self@.len(),
                i <= n,
                self.wf(),
                canon@ == canonical(self@).take(i as int),
            decreases n - i,
        {
            let s = self.0[i];
            let bumped = if i + 1 == n {
                Segment { segment_type: s.segment_type, start: s.start, end: s.end + 1 }
            } else {
                s
            };
            proof {
                assert(canonical(self@)[i as int] == bumped);
                assert(canonical(self@).take(i as int + 1) =~= canonical(self@).take(
                    i as int,
                ).push(bumped));
            }
            canon.push(bumped);
            i += 1;
        }
        proof {
            assert(canonical(self@).take(n as int) =~= canonical(self@));
        }
        let len = if n == 0 {
            0
        } else {
            self.0[n - 1].end + 1
        };
        proof {
            lemma_canonical_wf(self@);
            assert(len == layout_len(self@));
            crate::reduce::lemma_chain_mono(canon@);
            lemma_runs_wf(canon@, len, SegmentType::Hole);
            lemma_runs_subset(canon@, SegmentType::Hole);
            lemma_reduce_round_trip(canon@, len, SegmentType::Data);
        }
        let holes = runs_from(&canon, 0, SegmentType::Hole);
        proof {
            assert(canon@.skip(0) =~= canon@);
            // Every hole starts strictly inside the file: its start is some
            // layout segment's start, and those end by the last byte offset.
            crate::reduce::lemma_chain_mono(self@);
            assert forall|t: int|
                0 <= t < holes@.len() implies (#[trigger] holes@[t]).start < len && (
                holes@[t].end + 2 <= len || holes@[t].end == len) by {
                assert(canon@.contains(holes@[t]));
                let j = choose|j: int| 0 <= j < canon@.len() && canon@[j] == holes@[t];
                assert(canon@[j].start == self@[j].start);
                assert(self@[j].end <= self@.last().end);
                if j + 1 < canon@.len() {
                    // A hole followed by another segment ends two bytes or
                    // more before the file length: the follower begins at a
                    // layout start, which sits at or before the last byte.
                    assert(adjacent_ok(canon@[j], canon@[j + 1]));
                    assert(canon@[j + 1].start == self@[j + 1].start);
                    assert(self@[j + 1].end <= self@.last().end);
                } else {
                    assert(canon@[j].end == len);
                }
            }
        }
        let mut scan = HoleScan::new(len);
        let mut m: usize = 0;
        let mut done = false;
        while !done
            invariant
                scan.wf(),
                scan.file_len() == len,
                wf_run(holes@, len, SegmentType::Hole),
                forall|t: int| 0 <= t < holes@.len() ==> (#[trigger] holes@[t]).start < len,
                forall|t: int|
                    0 <= t < holes@.len() ==> ((#[trigger] holes@[t]).end + 2 <= len
                        || holes@[t].end == len),
                m <= holes@.len(),
                scan.holes() == holes@.take(m as int),
                (scan.phase() matches ScanPhase::SeekingHole(f) ==> f == (if m == 0 {
                    0u64
                } else {
                    (holes@[m as int - 1].end + 2) as u64
                })),
                (scan.phase() matches ScanPhase::SeekingData(c) ==> m < holes@.len() && c
                    == holes@[m as int].start),
                scan.phase() == ScanPhase::Done ==> m == holes@.len(),
                done ==> scan.phase() == ScanPhase::Done,
            decreases (if done {
                0int
            } else {
                1int
            }) + 2 * (holes@.len() - m) + (if scan.phase() is SeekingHole {
                1int
            } else {
                0int
            }),
        {
            match scan.next_probe() {
                None => {
                    done = true;
                },
                Some(ProbeRequest::NextHole(_f)) => {
                    let outcome = if m < holes.len() {
                        proof {
                            if m > 0 {
                                let k = m as int - 1;
                                assert(gap_ok(holes@[k], holes@[k + 1]));
                            }
                        }
                        ProbeOutcome::Found(holes[m].start)
                    } else {
                        // No hole remains; the probe lands on the virtual
                        // hole at the end of the file.
                        ProbeOutcome::Found(len)
                    };
                    let _fed = scan.feed(outcome);
                },
                Some(ProbeRequest::NextData(_o)) => {
                    let h = holes[m];
                    let outcome = if h.end < len {
                        ProbeOutcome::Found(h.end + 1)
                    } else {
                        // The hole reaches the end of the file: no data
                        // boundary remains.
                        ProbeOutcome::Absent
                    };
                    proof {
                        assert(holes@[m as int].segment_type == SegmentType::Hole);
                        assert(seg_wf(holes@[m as int]));
                        assert(holes@.take(m as int + 1) =~= holes@.take(m as int).push(
                            holes@[m as int],
                        ));
                        if h.end >= len && m as int + 1 < holes@.len() {
                            let k = m as int;
                            assert(gap_ok(holes@[k], holes@[k + 1]));
                        }
                    }
                    let _fed = scan.feed(outcome);
                    let total = holes.len();
                    assert(m < total);
                    m += 1;
                },
            }
        }
        proof {
            assert(holes@.take(holes@.len() as int) =~= holes@);
            assert(scan.holes() == holes@);
        }
        scan.finish()
    }
}

/// The write records for the data segments of a layout, in order.
pub open spec fn spec_write_plan(l: Seq<Segment>) -> Seq<(u64, u64)>
    decreases l.len(),
{
    if l.len() == 0 {
        Seq::empty()
    } else if l[0].segment_type == SegmentType::Data {
        seq![(l[0].start, (l[0].end - l[0].start + 1) as u64)] + spec_write_plan(l.skip(1))
    } else {
        spec_write_plan(l.skip(1))
    }
}

/// The write records from index `i` on, mirroring the specification.
fn plan_from(segs: &Vec<Segment>, i: usize) -> (r: Vec<(u64, u64)>)
    requires
        i <= segs@.len(),
        forall|t: int| 0 <= t < segs@.len() ==> seg_wf(#[trigger] segs@[t]) && segs@[t].end
            < MAX_FILE_LEN,
    ensures
        r@ == spec_write_plan(segs@.skip(i as int)),
    decreases segs@.len() - i,
{
    let mut r: Vec<(u64, u64)> = Vec::new();
    if i == segs.len() {
        assert(segs@.skip(i as int) =~= Seq::<Segment>::empty());
        return r;
    }
    let first = segs[i];
    assert(segs@.skip(i as int)[0] == first);
    let mut rest = plan_from(segs, i + 1);
    assert(segs@.skip(i as int).skip(1) =~= segs@.skip(i as int + 1));
    if first.segment_type == SegmentType::Data {
        r.push((first.start, first.end - first.start + 1));
    }
    r.append(&mut rest);
    assert(r@ =~= spec_write_plan(segs@.skip(i as int)));
    r
}

/// The canonical form of a well-formed layout is a well-formed scan result
/// for the layout's file length: coverage from offset 0 to the length, and
/// alternation, hold of it.
pub proof fn lemma_canonical_wf(l: Seq<Segment>)
    requires
        chained(l),
        l.len() > 0 ==> l[0].start == 0 && l.last().end < MAX_FILE_LEN,
    ensures
        wf_scan(canonical(l), layout_len(l)),
        canonical(l).len() == l.len(),
        layout_len(l) <= MAX_FILE_LEN,
{
    if l.len() == 0 {
    } else {
        let c = canonical(l);
        let last = l.len() - 1;
        assert(c[last] == typed_seg(l.last().segment_type, l.last().start, (l.last().end + 1) as u64));
        assert forall|i: int| 0 <= i < c.len() implies seg_wf(#[trigger] c[i]) by {
            if i < last {
                assert(c[i] == l[i]);
            } else {
                assert(seg_wf(l[i]));
            }
        }
        assert forall|i: int|
            0 <= i && i + 1 < c.len() implies adjacent_ok(#[trigger] c[i], #[trigger] c[i + 1]) by {
            assert(c[i] == l[i]);
            assert(adjacent_ok(l[i], l[i + 1]));
            if i + 1 < last {
                assert(c[i + 1] == l[i + 1]);
            }
        }
        assert(c[0].start == 0);
        assert(c.last().end == layout_len(l));
    }
}

/// Scanning the same unmodified boundary information twice yields the same
/// partition: a scan result is a function of the collected segments and the
/// file length alone, so an unmodified file scans to identical sequences.
pub proof fn lemma_scan_idempotent(
    hs1: Seq<Segment>,
    hs2: Seq<Segment>,
    end1: u64,
    end2: u64,
    fill: SegmentType,
)
    requires
        hs1 == hs2,
        end1 == end2,
    ensures
        crate::reduce::spec_reduce(hs1, end1, fill) == crate::reduce::spec_reduce(hs2, end2, fill),
{
}

} // verus!
