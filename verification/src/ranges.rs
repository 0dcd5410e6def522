//! Allocated-range backend: reduces the (offset, length) records an
//! operating system reports for a sparse-capable file into a complete
//! segment partition, special-casing empty files and files that are not
//! sparse-capable.

use vstd::prelude::*;

use crate::reduce::{reduce_segments, spec_reduce, wf_run, MAX_FILE_LEN};
use crate::segment::{data_seg, wf_scan, Segment, SegmentType};

verus! {

/// One allocated range as the operating system reports it: `length` bytes of
/// backed storage beginning at byte `offset`.
#[derive(Clone, Copy, PartialEq, Eq, Structural, Debug)]
pub struct AllocatedRange {
    pub offset: u64,
    pub length: u64,
}

/// The data segments an allocated-range list describes, one per range, with
/// `end = offset + length`; a reported zero-length range signals malformed
/// operating-system output and is dropped.
pub open spec fn data_segs_of(rs: Seq<AllocatedRange>) -> Seq<Segment>
    decreases rs.len(),
{
    if rs.len() == 0 {
        Seq::empty()
    } else if rs[0].length == 0 {
        data_segs_of(rs.skip(1))
    } else {
        seq![data_seg(rs[0].offset, (rs[0].offset + rs[0].length) as u64)] + data_segs_of(
            rs.skip(1),
        )
    }
}

/// The full reduction of an allocated-range query over a file of length
/// `len`: nothing for an empty file, a single data segment for a file that is
/// not sparse-capable, and otherwise the ranges' data segments with every gap
/// filled by a hole.
pub open spec fn spec_ranges(rs: Seq<AllocatedRange>, len: u64, sparse: bool) -> Seq<Segment> {
    if len == 0 {
        Seq::empty()
    } else if !sparse {
        seq![data_seg(0, len)]
    } else {
        spec_reduce(data_segs_of(rs), len, SegmentType::Hole)
    }
}

/// Every data segment a range list describes ends at or past byte 1: its end
/// is an offset plus a positive length.
proof fn lemma_data_segs_pos(rs: Seq<AllocatedRange>)
    requires
        forall|j: int| 0 <= j < rs.len() ==> (#[trigger] rs[j]).offset + rs[j].length
            <= MAX_FILE_LEN,
    ensures
        forall|i: int|
            0 <= i < data_segs_of(rs).len() ==> (#[trigger] data_segs_of(rs)[i]).end >= 1,
    decreases rs.len(),
{
    if rs.len() == 0 {
    } else {
        let tail = rs.skip(1);
        assert forall|j: int| 0 <= j < tail.len() implies (#[trigger] tail[j]) == rs[j + 1] by {}
        lemma_data_segs_pos(tail);
        let ds = data_segs_of(rs);
        if rs[0].length == 0 {
            assert(ds == data_segs_of(tail));
        } else {
            let rest = data_segs_of(tail);
            assert(ds == seq![data_seg(rs[0].offset, (rs[0].offset + rs[0].length) as u64)]
                + rest);
            assert forall|i: int| 0 <= i < ds.len() implies (#[trigger] ds[i]).end >= 1 by {
                if i == 0 {
                    assert(rs[0].offset + rs[0].length <= MAX_FILE_LEN);
                } else {
                    let j = i - 1;
                    assert(ds[i] == rest[j]);
                    assert(rest[j].end >= 1);
                }
            }
        }
    }
}

/// Converts the range list from index `i` on into data segments, dropping
/// zero-length ranges; built front to back to mirror the specification.
fn data_segments_from(rs: &Vec<AllocatedRange>, i: usize) -> (r: Vec<Segment>)
    requires
        i <= rs@.len(),
        forall|j: int| 0 <= j < rs@.len() ==> (#[trigger] rs@[j]).offset + rs@[j].length
            <= MAX_FILE_LEN,
    ensures
        r@ == data_segs_of(rs@.skip(i as int)),
    decreases rs@.len() - i,
{
    let mut r: Vec<Segment> = Vec::new();
    if i == rs.len() {
        assert(rs@.skip(i as int) =~= Seq::<AllocatedRange>::empty());
        return r;
    }
    let first = rs[i];
    assert(rs@.skip(i as int)[0] == first);
    let mut rest = data_segments_from(rs, i + 1);
    assert(rs@.skip(i as int).skip(1) =~= rs@.skip(i as int + 1));
    if first.length > 0 {
        r.push(
            Segment {
                segment_type: SegmentType::Data,
                start: first.offset,
                end: first.offset + first.length,
            },
        );
    }
    r.append(&mut rest);
    assert(r@ =~= data_segs_of(rs@.skip(i as int)));
    r
}

/// Decides whether a paginated allocated-range query must continue. A query
/// buffer of `capacity` records that came back full signals that more ranges
/// may be pending; the next query then begins right where the last returned
/// range ends. A buffer with room to spare, or one whose last range already
/// reaches the file length, completes the query.
pub fn next_query_start(page: &Vec<AllocatedRange>, capacity: usize, len: u64) -> (r: Option<u64>)
    requires
        len <= MAX_FILE_LEN,
        page@.len() <= capacity,
        forall|j: int| 0 <= j < page@.len() ==> (#[trigger] page@[j]).offset + page@[j].length
            <= MAX_FILE_LEN,
    ensures
        (r matches Some(next) ==> {
            &&& page@.len() == capacity
            &&& page@.len() > 0
            &&& next == (page@.last().offset + page@.last().length) as u64
            &&& next < len
        }),
        r is None <==> (page@.len() < capacity || page@.len() == 0 || (page@.last().offset
            + page@.last().length) >= len),
{
    if page.len() == capacity && page.len() > 0 {
        let last = page[page.len() - 1];
        let next = last.offset + last.length;
        if next < len {
            Some(next)
        } else {
            None
        }
    } else {
        None
    }
}

/// Reduces one allocated-range query to the complete partition of a file of
/// length `len`. An empty file yields nothing; a file that is not flagged
/// sparse-capable yields a single data segment spanning it without consulting
/// the ranges; otherwise each range becomes a data segment (zero-length
/// ranges are dropped as malformed) and every gap before, between and after
/// them becomes a hole.
pub fn segments_from_ranges(rs: &Vec<AllocatedRange>, len: u64, sparse: bool) -> (r: Vec<Segment>)
    requires
        len <= MAX_FILE_LEN,
        forall|j: int| 0 <= j < rs@.len() ==> (#[trigger] rs@[j]).offset + rs@[j].length
            <= MAX_FILE_LEN,
        wf_run(data_segs_of(rs@), len, SegmentType::Data),
    ensures
        r@ == spec_ranges(rs@, len, sparse),
        wf_scan(r@, len),
{
    let mut r: Vec<Segment> = Vec::new();
    if len == 0 {
        assert(r@ =~= spec_ranges(rs@, len, sparse));
        return r;
    }
    if !sparse {
        r.push(Segment { segment_type: SegmentType::Data, start: 0, end: len });
        assert(r@ =~= spec_ranges(rs@, len, sparse));
        return r;
    }
    let ds = data_segments_from(rs, 0);
    proof {
        assert(rs@.skip(0) =~= rs@);
        if ds@.len() > 0 {
            lemma_data_segs_pos(rs@);
        }
    }
    reduce_segments(&ds, len, SegmentType::Hole)
}

} // verus!
