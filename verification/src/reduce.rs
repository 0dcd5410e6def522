//! The shared reducer: given the segments of one type that a backend
//! collected (holes from boundary probes, data from allocated ranges), fill
//! every gap with a segment of the opposite type, yielding the complete
//! partition of the file.

use vstd::prelude::*;

use crate::segment::{adjacent_ok, chained, seg_wf, wf_scan, Segment, SegmentType};

verus! {

/// The largest file length the reducers accept: lengths and boundary offsets
/// come from the operating system as non-negative signed 64-bit values.
pub const MAX_FILE_LEN: u64 = 0x7fff_ffff_ffff_ffff;

pub open spec fn typed_seg(t: SegmentType, start: u64, end: u64) -> Segment {
    Segment { segment_type: t, start, end }
}

/// The type opposite to the given one.
pub open spec fn other_type(t: SegmentType) -> SegmentType {
    match t {
        SegmentType::Data => SegmentType::Hole,
        SegmentType::Hole => SegmentType::Data,
    }
}

/// `b` starts far enough past `a` to leave at least one byte between them.
pub open spec fn gap_ok(a: Segment, b: Segment) -> bool {
    b.start >= a.end + 2
}

/// Invariant of a collected segment list for a file of length `end`: every
/// entry has type `ty` and is well formed within the file, the list is
/// sorted, and consecutive entries leave room for at least one byte of the
/// opposite type between them.
pub open spec fn wf_run(segs: Seq<Segment>, end: u64, ty: SegmentType) -> bool {
    &&& forall|i: int| 0 <= i < segs.len() ==> (#[trigger] segs[i]).segment_type == ty
    &&& forall|i: int| 0 <= i < segs.len() ==> seg_wf(#[trigger] segs[i])
    &&& forall|i: int| 0 <= i < segs.len() ==> (#[trigger] segs[i]).end <= end
    &&& forall|i: int|
        0 <= i && i + 1 < segs.len() ==> gap_ok(#[trigger] segs[i], #[trigger] segs[i + 1])
}

/// The collected segments interleaved with fill: each entry, then the gap up
/// to the next entry filled with type `fill`, and after the last entry the
/// gap up to `end` if one remains.
pub open spec fn gap_weave(segs: Seq<Segment>, end: u64, fill: SegmentType) -> Seq<Segment>
    decreases segs.len(),
{
    if segs.len() == 0 {
        Seq::empty()
    } else if segs.len() == 1 {
        if segs[0].end < end {
            seq![segs[0], typed_seg(fill, (segs[0].end + 1) as u64, end)]
        } else {
            seq![segs[0]]
        }
    } else {
        seq![segs[0], typed_seg(fill, (segs[0].end + 1) as u64, (segs[1].start - 1) as u64)]
            + gap_weave(segs.skip(1), end, fill)
    }
}

/// The full reduction of a collected list over a file of length `end`: a
/// leading fill segment when the first entry does not start at offset 0, then
/// the weave of entries and gap fill; with no entries at all, a single fill
/// segment spanning the file, or nothing for an empty file.
pub open spec fn spec_reduce(segs: Seq<Segment>, end: u64, fill: SegmentType) -> Seq<Segment> {
    if segs.len() == 0 {
        if end == 0 {
            Seq::empty()
        } else {
            seq![typed_seg(fill, 0, end)]
        }
    } else if segs[0].start > 0 {
        seq![typed_seg(fill, 0, (segs[0].start - 1) as u64)] + gap_weave(segs, end, fill)
    } else {
        gap_weave(segs, end, fill)
    }
}

/// The weave of a non-empty well-formed list is a contiguous, alternating
/// run from the first entry's start to `end`.
proof fn lemma_weave_wf(segs: Seq<Segment>, end: u64, fill: SegmentType)
    requires
        wf_run(segs, end, other_type(fill)),
        segs.len() > 0,
        end <= MAX_FILE_LEN,
    ensures
        gap_weave(segs, end, fill).len() > 0,
        gap_weave(segs, end, fill)[0] == segs[0],
        gap_weave(segs, end, fill).last().end == end,
        chained(gap_weave(segs, end, fill)),
    decreases segs.len(),
{
    let w = gap_weave(segs, end, fill);
    if segs.len() == 1 {
        assert(chained(w));
    } else {
        let tail = segs.skip(1);
        assert forall|i: int| 0 <= i < tail.len() implies (#[trigger] tail[i]) == segs[i + 1] by {}
        assert(wf_run(tail, end, other_type(fill)));
        lemma_weave_wf(tail, end, fill);
        let rest = gap_weave(tail, end, fill);
        let gap = typed_seg(fill, (segs[0].end + 1) as u64, (segs[1].start - 1) as u64);
        assert(w == seq![segs[0], gap] + rest);
        assert(w.len() == 2 + rest.len());
        assert(w.last() == rest.last());
        assert(rest[0] == segs[1]);
        assert(gap_ok(segs[0], segs[1]));
        assert forall|i: int| 0 <= i < w.len() implies seg_wf(#[trigger] w[i]) by {
            if i >= 2 {
                assert(w[i] == rest[i - 2]);
            }
        }
        assert forall|i: int|
            0 <= i && i + 1 < w.len() implies adjacent_ok(#[trigger] w[i], #[trigger] w[i + 1]) by {
            if i == 0 {
                assert(w[0] == segs[0]);
                assert(w[1] == gap);
            } else if i == 1 {
                assert(w[1] == gap);
                assert(w[2] == rest[0]);
            } else {
                let j = i - 2;
                assert(w[i] == rest[j]);
                assert(w[i + 1] == rest[j + 1]);
                assert(adjacent_ok(rest[j], rest[j + 1]));
            }
        }
    }
}

/// `spec_reduce` of a well-formed collected list is a well-formed scan result.
proof fn lemma_reduce_wf(segs: Seq<Segment>, end: u64, fill: SegmentType)
    requires
        wf_run(segs, end, other_type(fill)),
        end <= MAX_FILE_LEN,
        segs.len() > 0 ==> end > 0,
    ensures
        wf_scan(spec_reduce(segs, end, fill), end),
{
    if segs.len() == 0 {
    } else {
        lemma_weave_wf(segs, end, fill);
        let w = gap_weave(segs, end, fill);
        if segs[0].start > 0 {
            let lead = typed_seg(fill, 0, (segs[0].start - 1) as u64);
            let full = seq![lead] + w;
            assert(full.last() == w.last());
            assert(full[0] == lead);
            assert forall|i: int| 0 <= i < full.len() implies seg_wf(#[trigger] full[i]) by {
                if i >= 1 {
                    assert(full[i] == w[i - 1]);
                }
            }
            assert forall|i: int|
                0 <= i && i + 1 < full.len() implies adjacent_ok(
                #[trigger] full[i],
                #[trigger] full[i + 1],
            ) by {
                if i == 0 {
                    assert(full[1] == w[0]);
                    assert(w[0] == segs[0]);
                } else {
                    let j = i - 1;
                    assert(full[i] == w[j]);
                    assert(full[i + 1] == w[j + 1]);
                    assert(adjacent_ok(w[j], w[j + 1]));
                }
            }
            assert(wf_scan(full, end));
        } else {
            assert(w[0] == segs[0]);
            assert(wf_scan(w, end));
        }
    }
}

/// Weave of the collected list from index `i` on, built front to back so the
/// executable recursion mirrors the specification exactly.
fn weave_from(segs: &Vec<Segment>, i: usize, end: u64, fill: SegmentType) -> (r: Vec<Segment>)
    requires
        wf_run(segs@, end, other_type(fill)),
        end <= MAX_FILE_LEN,
        i <= segs@.len(),
    ensures
        r@ == gap_weave(segs@.skip(i as int), end, fill),
    decreases segs@.len() - i,
{
    let mut r: Vec<Segment> = Vec::new();
    if i == segs.len() {
        assert(segs@.skip(i as int) =~= Seq::<Segment>::empty());
        return r;
    }
    let h = segs[i];
    assert(segs@.skip(i as int)[0] == h);
    r.push(h);
    if i + 1 == segs.len() {
        if h.end < end {
            r.push(Segment { segment_type: fill, start: h.end + 1, end });
        }
        assert(r@ =~= gap_weave(segs@.skip(i as int), end, fill));
        r
    } else {
        let next = segs[i + 1];
        assert(segs@.skip(i as int)[1] == next);
        assert(gap_ok(h, next));
        r.push(Segment { segment_type: fill, start: h.end + 1, end: next.start - 1 });
        let mut rest = weave_from(segs, i + 1, end, fill);
        r.append(&mut rest);
        assert(segs@.skip(i as int).skip(1) =~= segs@.skip(i as int + 1));
        assert(r@ =~= gap_weave(segs@.skip(i as int), end, fill));
        r
    }
}

/// The segments of one type, in order, as they stand in a partition: the
/// list a backend would collect from a file laid out exactly as `s`.
pub open spec fn runs_of(s: Seq<Segment>, ty: SegmentType) -> Seq<Segment>
    decreases s.len(),
{
    if s.len() == 0 {
        Seq::empty()
    } else if s[0].segment_type == ty {
        seq![s[0]] + runs_of(s.skip(1), ty)
    } else {
        runs_of(s.skip(1), ty)
    }
}

/// In a contiguous chain, every segment ends at or before the last one does.
pub proof fn lemma_chain_mono(s: Seq<Segment>)
    requires
        chained(s),
    ensures
        forall|i: int| 0 <= i < s.len() ==> (#[trigger] s[i]).end <= s.last().end,
    decreases s.len(),
{
    if s.len() <= 1 {
    } else {
        let tail = s.skip(1);
        assert forall|i: int| 0 <= i < tail.len() implies (#[trigger] tail[i]) == s[i + 1] by {}
        assert(chained(tail));
        lemma_chain_mono(tail);
        assert forall|i: int| 0 <= i < s.len() implies (#[trigger] s[i]).end <= s.last().end by {
            if i == 0 {
                assert(adjacent_ok(s[0], s[1]));
                assert(tail[0] == s[1]);
                assert(tail[0].end <= tail.last().end);
            } else {
                let j = i - 1;
                assert(tail[j] == s[j + 1]);
                assert(tail[j].end <= tail.last().end);
            }
        }
    }
}

/// The extraction of one type from a well-formed partition is a well-formed
/// run: sorted holes (or data) within the file, with room between them.
pub proof fn lemma_runs_wf(s: Seq<Segment>, end: u64, ty: SegmentType)
    requires
        chained(s),
        forall|i: int| 0 <= i < s.len() ==> (#[trigger] s[i]).end <= end,
    ensures
        wf_run(runs_of(s, ty), end, ty),
        runs_of(s, ty).len() <= s.len(),
    decreases s.len(),
{
    reveal_with_fuel(runs_of, 3);
    let r = runs_of(s, ty);
    if s.len() == 0 {
    } else if s[0].segment_type != ty {
        let tail = s.skip(1);
        assert forall|i: int| 0 <= i < tail.len() implies (#[trigger] tail[i]) == s[i + 1] by {}
        assert(chained(tail));
        lemma_runs_wf(tail, end, ty);
        assert(r == runs_of(tail, ty));
    } else if s.len() == 1 {
        assert(s.skip(1) =~= Seq::<Segment>::empty());
        assert(r =~= seq![s[0]]);
        assert(wf_run(r, end, ty));
    } else {
        // s[1] has the opposite type, so the extraction of the tail equals
        // the extraction from s[2] on.
        let tail = s.skip(1);
        assert forall|i: int| 0 <= i < tail.len() implies (#[trigger] tail[i]) == s[i + 1] by {}
        assert(chained(tail));
        lemma_runs_wf(tail, end, ty);
        let rest = runs_of(tail, ty);
        assert(r == seq![s[0]] + rest);
        assert(adjacent_ok(s[0], s[1]));
        assert forall|i: int|
            0 <= i < r.len() implies (#[trigger] r[i]).segment_type == ty && seg_wf(r[i])
            && r[i].end <= end by {
            if i >= 1 {
                let j = i - 1;
                assert(r[i] == rest[j]);
            }
        }
        assert forall|i: int|
            0 <= i && i + 1 < r.len() implies gap_ok(#[trigger] r[i], #[trigger] r[i + 1]) by {
            if i == 0 {
                // The next extracted segment is s[2]: s[1] differs from s[0]
                // in type, so it is skipped, and s[2] differs from s[1].
                assert(rest[0] == r[1]);
                assert(tail[0] == s[1]);
                assert(s[1].segment_type != ty);
                assert(rest == runs_of(tail.skip(1), ty));
                assert(tail.skip(1) =~= s.skip(2));
                if s.len() == 2 {
                    assert(s.skip(2) =~= Seq::<Segment>::empty());
                } else {
                    assert(s.skip(2)[0] == s[2]);
                    assert(adjacent_ok(s[1], s[2]));
                    assert(rest[0] == s[2]);
                }
            } else {
                let j = i - 1;
                assert(r[i] == rest[j]);
                assert(r[i + 1] == rest[j + 1]);
                assert(gap_ok(rest[j], rest[j + 1]));
            }
        }
    }
}

/// Every extracted segment is one of the partition's segments.
pub proof fn lemma_runs_subset(s: Seq<Segment>, ty: SegmentType)
    ensures
        forall|i: int|
            0 <= i < runs_of(s, ty).len() ==> s.contains(#[trigger] runs_of(s, ty)[i]),
    decreases s.len(),
{
    if s.len() == 0 {
    } else {
        let tail = s.skip(1);
        lemma_runs_subset(tail, ty);
        let r = runs_of(s, ty);
        let rt = runs_of(tail, ty);
        assert forall|i: int| 0 <= i < r.len() implies s.contains(#[trigger] r[i]) by {
            if s[0].segment_type == ty && i == 0 {
                assert(r[0] == s[0]);
                assert(s[0] == s[0]);
            } else {
                let k = if s[0].segment_type == ty {
                    i - 1
                } else {
                    i
                };
                assert(r[i] == rt[k]);
                assert(tail.contains(rt[k]));
                let j = choose|j: int| 0 <= j < tail.len() && tail[j] == rt[k];
                assert(s[j + 1] == rt[k]);
            }
        }
    }
}

/// The weave inverts extraction: weaving the `ty`-typed segments of a
/// contiguous alternating chain that starts with one fills the gaps with
/// exactly the chain's other segments.
proof fn lemma_weave_round_trip(s: Seq<Segment>, end: u64, fill: SegmentType)
    requires
        chained(s),
        s.len() > 0,
        s[0].segment_type == other_type(fill),
        s.last().end == end,
    ensures
        gap_weave(runs_of(s, other_type(fill)), end, fill) == s,
    decreases s.len(),
{
    reveal_with_fuel(runs_of, 3);
    let ty = other_type(fill);
    let r = runs_of(s, ty);
    if s.len() == 1 {
        assert(s.skip(1) =~= Seq::<Segment>::empty());
        assert(r =~= seq![s[0]]);
        assert(gap_weave(r, end, fill) =~= s);
    } else {
        assert(adjacent_ok(s[0], s[1]));
        assert(s[1].segment_type == fill);
        let tail = s.skip(1);
        assert forall|i: int| 0 <= i < tail.len() implies (#[trigger] tail[i]) == s[i + 1] by {}
        assert(tail.skip(1) =~= s.skip(2));
        assert(runs_of(tail, ty) == runs_of(s.skip(2), ty));
        if s.len() == 2 {
            assert(s.skip(2) =~= Seq::<Segment>::empty());
            assert(r =~= seq![s[0]]);
            assert(s[0].end < end);
            assert(typed_seg(fill, (s[0].end + 1) as u64, end) == s[1]);
            assert(gap_weave(r, end, fill) =~= s);
        } else {
            let s2 = s.skip(2);
            assert forall|i: int| 0 <= i < s2.len() implies (#[trigger] s2[i]) == s[i + 2] by {}
            assert(chained(s2));
            assert(s2[0] == s[2]);
            assert(adjacent_ok(s[1], s[2]));
            assert(s[2].segment_type == ty);
            assert(s2.last() == s.last());
            lemma_weave_round_trip(s2, end, fill);
            let r2 = runs_of(s2, ty);
            assert(r2[0] == s[2]);
            assert(r == seq![s[0]] + r2);
            assert(r.len() >= 2);
            assert(r[0] == s[0]);
            assert(r[1] == r2[0]);
            assert(r.skip(1) =~= r2);
            let gap = typed_seg(fill, (r[0].end + 1) as u64, (r[1].start - 1) as u64);
            assert(gap == s[1]);
            assert(gap_weave(r, end, fill) == seq![s[0], s[1]] + gap_weave(r2, end, fill));
            assert(gap_weave(r, end, fill) =~= s);
        }
    }
}

/// The reducer inverts extraction: reducing the `ty`-typed segments of any
/// well-formed partition, filling with the opposite type, rebuilds the
/// partition exactly. This is the round-trip law at the heart of both
/// backends: a file laid out as `s` reports exactly `runs_of(s, ty)` to a
/// backend that collects `ty` segments, and the reduction returns `s`.
pub proof fn lemma_reduce_round_trip(s: Seq<Segment>, end: u64, fill: SegmentType)
    requires
        wf_scan(s, end),
    ensures
        spec_reduce(runs_of(s, other_type(fill)), end, fill) == s,
{
    reveal_with_fuel(runs_of, 3);
    let ty = other_type(fill);
    let r = runs_of(s, ty);
    if s.len() == 0 {
        assert(r =~= Seq::<Segment>::empty());
        assert(spec_reduce(r, end, fill) =~= s);
    } else if s[0].segment_type == ty {
        lemma_weave_round_trip(s, end, fill);
        assert(r[0] == s[0]);
        assert(r[0].start == 0);
        assert(spec_reduce(r, end, fill) == gap_weave(r, end, fill));
    } else {
        let tail = s.skip(1);
        assert forall|i: int| 0 <= i < tail.len() implies (#[trigger] tail[i]) == s[i + 1] by {}
        assert(s[0].segment_type == fill);
        assert(r == runs_of(tail, ty));
        if s.len() == 1 {
            assert(tail =~= Seq::<Segment>::empty());
            assert(r =~= Seq::<Segment>::empty());
            assert(end > 0);
            assert(s =~= seq![typed_seg(fill, 0, end)]);
        } else {
            assert(adjacent_ok(s[0], s[1]));
            assert(s[1].segment_type == ty);
            assert(chained(tail));
            assert(tail[0] == s[1]);
            assert(tail.last() == s.last());
            lemma_weave_round_trip(tail, end, fill);
            assert(r[0] == s[1]);
            assert(r[0].start == s[0].end + 1);
            assert(r[0].start > 0);
            let lead = typed_seg(fill, 0, (r[0].start - 1) as u64);
            assert(lead == s[0]);
            assert(spec_reduce(r, end, fill) == seq![lead] + gap_weave(r, end, fill));
            assert(spec_reduce(r, end, fill) =~= s);
        }
    }
}

/// Extracts the segments of type `ty` from index `i` on, front to back,
/// mirroring the specification's recursion.
pub fn runs_from(segs: &Vec<Segment>, i: usize, ty: SegmentType) -> (r: Vec<Segment>)
    requires
        i <= segs@.len(),
    ensures
        r@ == runs_of(segs@.skip(i as int), ty),
    decreases segs@.len() - i,
{
    let mut r: Vec<Segment> = Vec::new();
    if i == segs.len() {
        assert(segs@.skip(i as int) =~= Seq::<Segment>::empty());
        return r;
    }
    let first = segs[i];
    assert(segs@.skip(i as int)[0] == first);
    let mut rest = runs_from(segs, i + 1, ty);
    assert(segs@.skip(i as int).skip(1) =~= segs@.skip(i as int + 1));
    if first.segment_type == ty {
        r.push(first);
    }
    r.append(&mut rest);
    assert(r@ =~= runs_of(segs@.skip(i as int), ty));
    r
}

/// Fills every gap a collected segment list leaves within a file of length
/// `end` with segments of type `fill`, returning the complete partition:
/// fill before the first entry, between consecutive entries, and after the
/// last entry, as needed; a single fill segment when the list is empty and
/// the file is not; nothing for an empty file.
pub fn reduce_segments(segs: &Vec<Segment>, end: u64, fill: SegmentType) -> (r: Vec<Segment>)
    requires
        wf_run(segs@, end, other_type(fill)),
        end <= MAX_FILE_LEN,
        segs@.len() > 0 ==> end > 0,
    ensures
        r@ == spec_reduce(segs@, end, fill),
        wf_scan(r@, end),
{
    proof {
        lemma_reduce_wf(segs@, end, fill);
    }
    let mut r: Vec<Segment> = Vec::new();
    if segs.len() == 0 {
        if end > 0 {
            r.push(Segment { segment_type: fill, start: 0, end });
        }
        assert(r@ =~= spec_reduce(segs@, end, fill));
        return r;
    }
    let first = segs[0];
    if first.start > 0 {
        r.push(Segment { segment_type: fill, start: 0, end: first.start - 1 });
    }
    let mut w = weave_from(segs, 0, end, fill);
    r.append(&mut w);
    assert(segs@.skip(0) =~= segs@);
    assert(r@ =~= spec_reduce(segs@, end, fill));
    r
}

} // verus!
