//! Planning line-aligned chunks.
//!
//! The planner divides a text's byte range into up to `requested` chunks.
//! Each tentative chunk end is advanced to the next line boundary, so no
//! line is ever split across two chunks; a chunk that came out smaller than
//! half the target size is extended by one more line.  The final chunk
//! always ends at the end of the data, even when that leaves fewer chunks
//! than requested.

use vstd::prelude::*;

use crate::text::{
    is_line_boundary, lemma_line_end_bounds, lemma_line_end_terminator, line_end, lines_between,
    lines_of, raw_lines_from, scan_line_end,
};
use crate::text::lemma_lines_split;

verus! {

/// A half-open interval `[start, end)` of byte offsets into the text.
#[derive(Debug, Clone, Copy, PartialEq, Eq, Structural)]
pub struct ByteRange {
    pub start: u64,
    pub end: u64,
}

/// The byte size each chunk aims for: the file size divided by the number
/// of requested chunks, but at least one byte.
pub open spec fn plan_target(size: nat, requested: nat) -> nat
    recommends
        requested >= 1,
{
    if size / requested >= 1 {
        size / requested
    } else {
        1
    }
}

/// Where the chunk that starts at `current` ends: at the target size,
/// advanced to the next line boundary, extended by one more line when the
/// chunk stayed under half the target — except that the last permitted
/// chunk, or one whose tentative end already reaches the end of the data,
/// runs to the end of the data.
pub open spec fn chunk_end_spec(data: Seq<u8>, current: int, target: int, last: bool) -> int {
    let size = data.len() as int;
    let e0 = if current + target >= size {
        size
    } else {
        current + target
    };
    if last || e0 == size {
        size
    } else {
        let e1 = line_end(data, e0);
        if e1 - current < target / 2 && e1 < size {
            line_end(data, e1)
        } else {
            e1
        }
    }
}

/// A chunk list that covers `data` completely: ranges are contiguous,
/// start at offset 0, end at the end of the data, and every boundary is a
/// line boundary.
pub open spec fn chunks_cover(data: Seq<u8>, chunks: Seq<ByteRange>) -> bool {
    &&& chunks.len() >= 1
    &&& chunks[0].start == 0
    &&& chunks.last().end == data.len()
    &&& forall|j: int|
        0 <= j < chunks.len() - 1 ==> chunks[j].end == #[trigger] chunks[j + 1].start
    &&& forall|j: int| 0 <= j < chunks.len() ==> (#[trigger] chunks[j].start) <= chunks[j].end
    &&& forall|j: int|
        0 <= j < chunks.len() ==> is_line_boundary(data, #[trigger] chunks[j].end as int)
}

/// Divides the text into up to `requested` line-aligned chunks.
///
/// The ranges are contiguous, start at 0, and the last one ends at the end
/// of the data; every boundary falls on a line boundary.  Each chunk's end
/// is exactly the one `chunk_end_spec` gives, so the plan is determined by
/// the data and the requested count alone.  Empty data yields the single
/// empty chunk `[0, 0)`.
pub fn plan_chunks(data: &Vec<u8>, requested: usize) -> (chunks: Vec<ByteRange>)
    requires
        requested >= 1,
    ensures
        chunks_cover(data@, chunks@),
        chunks@.len() <= requested,
        data@.len() == 0 ==> chunks@.len() == 1 && chunks@[0].start == 0 && chunks@[0].end == 0,
        data@.len() > 0 ==> forall|j: int|
            0 <= j < chunks@.len() ==> (#[trigger] chunks@[j].start) < chunks@[j].end,
        data@.len() > 0 ==> forall|j: int|
            0 <= j < chunks@.len() ==> (#[trigger] chunks@[j].end) as int == chunk_end_spec(
                data@,
                chunks@[j].start as int,
                plan_target(data@.len(), requested as nat) as int,
                j == requested - 1,
            ),
        forall|j: int| 0 <= j < chunks@.len() - 1 ==> (#[trigger] chunks@[j].end) < data@.len(),
{
    let size = data.len();
    let mut chunks: Vec<ByteRange> = Vec::new();
    if size == 0 {
        chunks.push(ByteRange { start: 0, end: 0 });
        return chunks;
    }
    let t = size / requested;
    let target = if t == 0 {
        1
    } else {
        t
    };
    let ghost gtarget = plan_target(data@.len(), requested as nat);
    proof {
        assert(target == gtarget);
    }
    let mut current: usize = 0;
    let mut i: usize = 0;
    while i < requested && current < size
        invariant
            1 <= requested,
            0 < size == data@.len(),
            target == gtarget,
            target >= 1,
            i <= requested,
            current <= size,
            chunks@.len() == i,
            i == 0 ==> current == 0,
            i > 0 ==> chunks@[0].start == 0,
            i > 0 ==> chunks@[i - 1].end == current,
            i == requested ==> current == size,
            forall|j: int|
                0 <= j < i - 1 ==> chunks@[j].end == #[trigger] chunks@[j + 1].start,
            forall|j: int| 0 <= j < i - 1 ==> (#[trigger] chunks@[j].end) < size,
            forall|j: int| 0 <= j < i ==> (#[trigger] chunks@[j].start) < chunks@[j].end,
            forall|j: int|
                0 <= j < i ==> is_line_boundary(data@, #[trigger] chunks@[j].end as int),
            forall|j: int|
                0 <= j < i ==> (#[trigger] chunks@[j].end) as int == chunk_end_spec(
                    data@,
                    chunks@[j].start as int,
                    gtarget as int,
                    j == requested - 1,
                ),
        decreases requested - i,
    {
        let is_last = i == requested - 1;
        let e0 = if target >= size - current {
            size
        } else {
            current + target
        };
        let end: usize;
        if is_last || e0 == size {
            end = size;
        } else {
            let e1 = scan_line_end(data, e0);
            proof {
                lemma_line_end_bounds(data@, e0 as int);
                lemma_line_end_terminator(data@, e0 as int);
            }
            if e1 - current < target / 2 && e1 < size {
                end = scan_line_end(data, e1);
                proof {
                    lemma_line_end_bounds(data@, e1 as int);
                    lemma_line_end_terminator(data@, e1 as int);
                }
            } else {
                end = e1;
            }
        }
        chunks.push(ByteRange { start: current as u64, end: end as u64 });
        current = end;
        i = i + 1;
    }
    chunks
}

/// The raw lines of each chunk, in chunk order, concatenated.
pub open spec fn cover_lines(data: Seq<u8>, chunks: Seq<ByteRange>) -> Seq<Seq<u8>>
    decreases chunks.len(),
{
    if chunks.len() == 0 {
        Seq::empty()
    } else {
        lines_between(data, chunks[0].start as int, chunks[0].end as int) + cover_lines(
            data,
            chunks.drop_first(),
        )
    }
}

/// No chunk plan that covers the data ever splits a line: reassembling the
/// chunks' line sequences in order reproduces the data's own line sequence
/// exactly.
pub proof fn lemma_chunks_preserve_lines(data: Seq<u8>, chunks: Seq<ByteRange>)
    requires
        chunks_cover(data, chunks),
    ensures
        cover_lines(data, chunks) == lines_of(data),
{
    lemma_cover_lines_from(data, chunks, 0);
    assert(chunks.skip(0) =~= chunks);
    assert(cover_lines(data, chunks) == raw_lines_from(data, chunks[0].start as int));
}

/// Helper: the chunks of a suffix of a cover concatenate to the raw lines
/// from the suffix's first offset.
proof fn lemma_cover_lines_from(data: Seq<u8>, chunks: Seq<ByteRange>, k: int)
    requires
        chunks.len() >= 1,
        0 <= k <= chunks.len(),
        chunks.last().end == data.len(),
        forall|j: int| 0 <= j < chunks.len() - 1 ==> chunks[j].end == #[trigger] chunks[j + 1].start,
        forall|j: int| 0 <= j < chunks.len() ==> (#[trigger] chunks[j].start) <= chunks[j].end,
        forall|j: int|
            0 <= j < chunks.len() ==> is_line_boundary(data, #[trigger] chunks[j].end as int),
        forall|j: int| 0 <= j < chunks.len() ==> (#[trigger] chunks[j].end) <= data.len(),
        k < chunks.len() ==> chunks[k].start <= data.len(),
    ensures
        k < chunks.len() ==> cover_lines(data, chunks.skip(k)) == raw_lines_from(
            data,
            chunks[k].start as int,
        ),
        k == chunks.len() ==> cover_lines(data, chunks.skip(k)) == Seq::<Seq<u8>>::empty(),
    decreases chunks.len() - k,
{
    if k == chunks.len() {
        assert(chunks.skip(k) =~= Seq::<ByteRange>::empty());
    } else {
        let s = chunks[k].start as int;
        let e = chunks[k].end as int;
        lemma_cover_lines_from(data, chunks, k + 1);
        lemma_lines_split(data, s, e);
        assert(chunks.skip(k)[0] == chunks[k]);
        assert(chunks.skip(k).drop_first() =~= chunks.skip(k + 1));
        if k + 1 < chunks.len() {
            assert(chunks[k + 1].start == e);
            assert(cover_lines(data, chunks.skip(k)) == lines_between(data, s, e)
                + raw_lines_from(data, e));
        } else {
            assert(e == data.len());
            assert(raw_lines_from(data, e) =~= Seq::<Seq<u8>>::empty());
            assert(cover_lines(data, chunks.skip(k)) =~= lines_between(data, s, e));
        }
    }
}

} // verus!
