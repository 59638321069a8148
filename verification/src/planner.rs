//! The chunk planner. Static planning cuts the input into one byte range
//! per worker, each boundary advanced to the next record terminator, so no
//! range splits a line. Dynamic claiming derives a chunk from a raw claimed
//! offset by walking backward to the previous terminator, within a bounded
//! excess margin; consecutive claims tile the input exactly.

use vstd::prelude::*;
use crate::AggError;
use crate::parser::NEWLINE;

verus! {

/// A position is a record boundary: the very start, the very end, or one
/// past a terminator byte.
pub open spec fn boundary_aligned(data: Seq<u8>, p: int) -> bool {
    p == 0 || p == data.len() || data[p - 1] == NEWLINE
}

/// A half-open byte range `[start, end)` of the input, assigned to one
/// worker; both edges lie on record boundaries, so it splits no line.
#[derive(Clone, Copy, Debug, PartialEq, Eq, Structural)]
pub struct ChunkDescriptor {
    pub start: usize,
    pub end: usize,
}

pub open spec fn chunk_wf(data: Seq<u8>, c: ChunkDescriptor) -> bool {
    &&& c.start <= c.end <= data.len()
    &&& boundary_aligned(data, c.start as int)
    &&& boundary_aligned(data, c.end as int)
}

/// `p` is one past the first terminator at or after `from`, or the data
/// length if no terminator follows `from`.
pub open spec fn cut_after(data: Seq<u8>, from: int, p: int) -> bool {
    &&& from <= p <= data.len()
    &&& forall|m: int| from <= m < p - 1 ==> data[m] != NEWLINE
    &&& p < data.len() ==> (from < p && data[p - 1] == NEWLINE)
}

proof fn lemma_cuts_monotone(data: Seq<u8>, f1: int, p1: int, f2: int, p2: int)
    requires
        cut_after(data, f1, p1),
        cut_after(data, f2, p2),
        f1 <= f2,
    ensures
        p1 <= p2,
{
    if p1 > p2 {
        assert(p2 < data.len());
        assert(data[p2 - 1] != NEWLINE);
    }
}

/// One past the first terminator at or after `start`, or `None` if the
/// remainder of the buffer holds no terminator.
pub fn find_next_newline(start: usize, buffer: &[u8]) -> (r: Option<usize>)
    requires
        start <= buffer@.len(),
    ensures
        match r {
            Some(p) => start < p <= buffer@.len() && buffer@[p - 1] == NEWLINE
                && forall|m: int| start <= m < p - 1 ==> buffer@[m] != NEWLINE,
            None => forall|m: int| start <= m < buffer@.len() ==> buffer@[m] != NEWLINE,
        },
{
    let mut pos = start;
    while pos < buffer.len()
        invariant
            start <= pos <= buffer@.len(),
            forall|m: int| start <= m < pos ==> buffer@[m] != NEWLINE,
        decreases buffer@.len() - pos,
    {
        if buffer[pos] == NEWLINE {
            return Some(pos + 1);
        }
        pos = pos + 1;
    }
    None
}

/// Cut the input into `workers` adjoining chunks covering it completely:
/// nominal cut points at multiples of `len / workers`, each advanced to the
/// next record terminator. Small inputs degenerate some chunks to empty,
/// which is permitted.
pub fn plan_chunks(buffer: &[u8], workers: usize) -> (r: Vec<ChunkDescriptor>)
    requires
        1 <= workers,
    ensures
        r@.len() == workers,
        r@[0].start == 0,
        r@[workers - 1].end == buffer@.len(),
        forall|i: int| 0 <= i < workers ==> chunk_wf(buffer@, #[trigger] r@[i]),
        forall|i: int| 0 <= i < workers - 1 ==> (#[trigger] r@[i]).end == r@[i + 1].start,
        forall|i: int| 1 <= i < workers ==> cut_after(
            buffer@,
            i * (buffer@.len() as int / workers as int),
            (#[trigger] r@[i]).start as int,
        ),
{
    let len = buffer.len();
    let chunk_length = len / workers;
    let mut starts: Vec<usize> = Vec::new();
    starts.push(0);
    let mut i: usize = 1;
    while i < workers
        invariant
            1 <= i <= workers,
            starts@.len() == i,
            starts@[0] == 0,
            len == buffer@.len(),
            chunk_length == len / workers,
            1 <= workers,
            forall|m: int| 1 <= m < i ==> cut_after(
                buffer@, m * chunk_length as int, #[trigger] starts@[m] as int),
        decreases workers - i,
    {
        proof {
            assert(workers * chunk_length <= len) by (nonlinear_arith)
                requires chunk_length == len / workers, 1 <= workers,
            ;
            assert(i * chunk_length <= workers * chunk_length) by (nonlinear_arith)
                requires i <= workers, 0 <= chunk_length,
            ;
        }
        let nominal = i * chunk_length;
        let s = match find_next_newline(nominal, buffer) {
            Some(p) => p,
            None => len,
        };
        proof {
            assert(cut_after(buffer@, i as int * chunk_length as int, s as int));
        }
        starts.push(s);
        i = i + 1;
    }
    let mut r: Vec<ChunkDescriptor> = Vec::new();
    let mut m: usize = 0;
    while m < workers
        invariant
            0 <= m <= workers,
            r@.len() == m,
            starts@.len() == workers,
            starts@[0] == 0,
            len == buffer@.len(),
            chunk_length == len / workers,
            1 <= workers,
            forall|q: int| 1 <= q < workers ==> cut_after(
                buffer@, q * chunk_length as int, #[trigger] starts@[q] as int),
            forall|q: int| 0 <= q < m ==> (#[trigger] r@[q]).start == starts@[q],
            forall|q: int| 0 <= q < m ==> (#[trigger] r@[q]).end
                == if q + 1 < workers { starts@[q + 1] as int } else { len as int },
            forall|q: int| 0 <= q < m ==> chunk_wf(buffer@, #[trigger] r@[q]),
        decreases workers - m,
    {
        let s = starts[m];
        let e = if m + 1 < workers { starts[m + 1] } else { len };
        proof {
            if m == 0 {
                if 1 < workers {
                    assert(cut_after(buffer@, 1 * chunk_length as int, e as int));
                }
            } else {
                assert(cut_after(buffer@, m as int * chunk_length as int, s as int));
                if m + 1 < workers {
                    assert((m as int) * (chunk_length as int)
                        <= (m + 1) * (chunk_length as int)) by (nonlinear_arith)
                        requires 0 <= chunk_length as int,
                    ;
                    lemma_cuts_monotone(
                        buffer@,
                        m as int * chunk_length as int, s as int,
                        (m + 1) * chunk_length as int, e as int,
                    );
                }
            }
            assert(s <= e <= len);
            assert(boundary_aligned(buffer@, s as int));
            assert(boundary_aligned(buffer@, e as int));
        }
        r.push(ChunkDescriptor { start: s, end: e });
        m = m + 1;
    }
    r
}

/// The record boundary at or before `o`: `o` itself if it sits just past a
/// terminator, else the nearest boundary to its left.
pub open spec fn back_boundary(data: Seq<u8>, o: int) -> int
    decreases o,
{
    if o <= 0 {
        0
    } else if data[o - 1] == NEWLINE {
        o
    } else {
        back_boundary(data, o - 1)
    }
}

pub proof fn lemma_back_boundary_props(data: Seq<u8>, o: int)
    requires
        0 <= o <= data.len(),
    ensures
        0 <= back_boundary(data, o) <= o,
        back_boundary(data, o) == 0 || data[back_boundary(data, o) - 1] == NEWLINE,
        boundary_aligned(data, back_boundary(data, o)),
        forall|q: int| back_boundary(data, o) < q <= o ==> #[trigger] data[q - 1] != NEWLINE,
    decreases o,
{
    if o > 0 && data[o - 1] != NEWLINE {
        lemma_back_boundary_props(data, o - 1);
    }
}

proof fn lemma_back_boundary_is(data: Seq<u8>, o: int, p: int)
    requires
        0 <= p <= o <= data.len(),
        p == 0 || data[p - 1] == NEWLINE,
        forall|q: int| p < q <= o ==> #[trigger] data[q - 1] != NEWLINE,
    ensures
        back_boundary(data, o) == p,
    decreases o,
{
    if o > 0 && data[o - 1] != NEWLINE {
        lemma_back_boundary_is(data, o - 1, p);
    }
}

pub proof fn lemma_back_boundary_monotone(data: Seq<u8>, o1: int, o2: int)
    requires
        0 <= o1 <= o2 <= data.len(),
    ensures
        back_boundary(data, o1) <= back_boundary(data, o2),
    decreases o2 - o1,
{
    if o1 < o2 {
        lemma_back_boundary_monotone(data, o1, o2 - 1);
        if o2 > 0 && data[o2 - 1] == NEWLINE {
            lemma_back_boundary_props(data, o2 - 1);
        }
    }
}

/// The aligned start of the chunk claimed at raw offset `o`.
pub open spec fn claimed_start(data: Seq<u8>, o: int) -> int {
    if o >= data.len() {
        data.len() as int
    } else {
        back_boundary(data, o)
    }
}

/// The aligned end of the chunk claimed at raw offset `o` with nominal
/// chunk size `c`.
pub open spec fn claimed_end(data: Seq<u8>, o: int, c: int) -> int {
    if o >= data.len() {
        data.len() as int
    } else if o + c >= data.len() {
        data.len() as int
    } else {
        back_boundary(data, o + c)
    }
}

fn align_back(buffer: &[u8], offset: usize, excess: usize) -> (r: Option<usize>)
    requires
        offset <= buffer@.len(),
    ensures
        ({
            let b = back_boundary(buffer@, offset as int);
            if offset - b <= excess {
                r == Some(b as usize)
            } else {
                r is None
            }
        }),
{
    let mut p = offset;
    while p > 0 && buffer[p - 1] != NEWLINE && offset - p < excess
        invariant
            p <= offset <= buffer@.len(),
            offset - p <= excess,
            forall|q: int| p < q <= offset ==> #[trigger] buffer@[q - 1] != NEWLINE,
        decreases p,
    {
        p = p - 1;
    }
    if p == 0 || buffer[p - 1] == NEWLINE {
        proof {
            lemma_back_boundary_is(buffer@, offset as int, p as int);
        }
        Some(p)
    } else {
        proof {
            let b = back_boundary(buffer@, offset as int);
            lemma_back_boundary_props(buffer@, offset as int);
            assert(b < p) by {
                if b >= p {
                    assert(buffer@[b - 1] == NEWLINE);
                    if b > p {
                        assert(buffer@[b - 1] != NEWLINE);
                    }
                }
            }
        }
        None
    }
}

/// Derive the chunk claimed at raw offset `offset`: its start is the record
/// boundary at or before `offset`, its end the boundary at or before
/// `offset + chunk_size` (or the end of the data). Walking back further
/// than `excess` bytes means a line exceeds the configured margin: that is
/// an alignment error, reported distinctly from a data-format error.
pub fn align_chunk(buffer: &[u8], offset: usize, chunk_size: usize, excess: usize)
    -> (r: Result<ChunkDescriptor, AggError>)
    requires
        offset <= buffer@.len(),
        1 <= chunk_size,
    ensures
        match r {
            Ok(c) => {
                &&& chunk_wf(buffer@, c)
                &&& c.start == claimed_start(buffer@, offset as int)
                &&& c.end == claimed_end(buffer@, offset as int, chunk_size as int)
                &&& offset - c.start <= excess
                &&& offset + chunk_size < buffer@.len()
                    ==> offset + chunk_size - c.end <= excess
            },
            Err(e) => {
                &&& e == AggError::Alignment
                &&& (offset as int) < buffer@.len()
                &&& (offset - back_boundary(buffer@, offset as int) > excess
                    || (offset + chunk_size < buffer@.len()
                        && offset + chunk_size
                            - back_boundary(buffer@, offset as int + chunk_size as int)
                            > excess))
            },
        },
{
    let len = buffer.len();
    if offset == len {
        return Ok(ChunkDescriptor { start: len, end: len });
    }
    let s = match align_back(buffer, offset, excess) {
        Some(p) => p,
        None => {
            return Err(AggError::Alignment);
        },
    };
    proof {
        lemma_back_boundary_props(buffer@, offset as int);
    }
    if chunk_size >= len - offset {
        return Ok(ChunkDescriptor { start: s, end: len });
    }
    let ne = offset + chunk_size;
    let e = match align_back(buffer, ne, excess) {
        Some(p) => p,
        None => {
            return Err(AggError::Alignment);
        },
    };
    proof {
        lemma_back_boundary_props(buffer@, ne as int);
        lemma_back_boundary_monotone(buffer@, offset as int, ne as int);
    }
    Ok(ChunkDescriptor { start: s, end: e })
}

/// Dynamic claiming covers the input exactly: the chunk claimed at any
/// offset ends where the chunk claimed at the next offset begins, claims
/// never overlap, and the very first claim starts at byte zero.
pub proof fn lemma_dynamic_claims_tile(data: Seq<u8>, o: int, c: int)
    requires
        0 <= o,
        1 <= c,
    ensures
        claimed_end(data, o, c) == claimed_start(data, o + c),
        claimed_start(data, 0) == 0,
        o <= data.len() ==> claimed_start(data, o) <= claimed_end(data, o, c) <= data.len(),
{
    if o < data.len() {
        lemma_back_boundary_props(data, o);
        if o + c < data.len() {
            lemma_back_boundary_props(data, o + c);
            lemma_back_boundary_monotone(data, o, o + c);
        }
    }
    if 0 < data.len() {
        assert(back_boundary(data, 0) == 0);
    }
}

} // verus!
