//! The aggregation engine: plan chunks, scan each chunk into a local table,
//! and fold every local table into one global table. The result is pinned
//! to the input bytes alone, so any worker count — and any merge order, by
//! the merge law — produces the same global table.

use vstd::prelude::*;
use crate::AggError;
use crate::planner::{plan_chunks, ChunkDescriptor, chunk_wf};
use crate::scan::{scan_spec, scan_ascii_chunk, lemma_scan_concat, lemma_scan_concat_none,
    lemma_scan_spec_terminated, lemma_scan_spec_obs_wf};
use crate::table::{Table, table_of, merge_spec, lemma_table_of_concat, lemma_table_of_wf};

verus! {

/// The end of the data prefix wholly covered by the first `i` chunks.
spec fn prefix_end(chunks: Seq<ChunkDescriptor>, i: int) -> int {
    if i == 0 {
        0
    } else {
        chunks[i - 1].end as int
    }
}

/// Aggregate the whole input with the given number of workers. The result
/// is a function of the input bytes alone — the ensures clause does not
/// mention the worker count — so runs with different worker counts produce
/// identical global tables. Fails with a format error exactly when some
/// line of the input is malformed or unterminated.
#[verifier::rlimit(60)]
pub fn aggregate(data: &[u8], worker_count: usize) -> (r: Result<Table, AggError>)
    requires
        1 <= worker_count,
    ensures
        match r {
            Ok(t) => scan_spec(data@) is Some && t.wf()
                && t@ == table_of(scan_spec(data@)->Some_0),
            Err(e) => scan_spec(data@) is None && e == AggError::Format,
        },
{
    let chunks = plan_chunks(data, worker_count);
    let n = chunks.len();
    let mut global = Table::new();
    let mut i: usize = 0;
    proof {
        assert(data@.take(0) =~= Seq::<u8>::empty());
    }
    while i < n
        invariant
            0 <= i <= n,
            n == chunks@.len() == worker_count,
            1 <= worker_count,
            chunks@[0].start == 0,
            chunks@[n - 1].end == data@.len(),
            forall|q: int| 0 <= q < n ==> chunk_wf(data@, #[trigger] chunks@[q]),
            forall|q: int| 0 <= q < n - 1 ==> (#[trigger] chunks@[q]).end == chunks@[q + 1].start,
            0 <= prefix_end(chunks@, i as int) <= data@.len(),
            scan_spec(data@.take(prefix_end(chunks@, i as int))) is Some,
            global.wf(),
            global@ == table_of(scan_spec(data@.take(prefix_end(chunks@, i as int)))->Some_0),
        decreases n - i,
    {
        let c = chunks[i];
        proof {
            assert(chunk_wf(data@, chunks@[i as int]));
            if i > 0 {
                assert(chunks@[i - 1].end == chunks@[i as int].start);
            }
            assert(c.start as int == prefix_end(chunks@, i as int));
        }
        let ghost pre = data@.take(c.start as int);
        let ghost chunkreg = data@.subrange(c.start as int, c.end as int);
        let local = match scan_ascii_chunk(c.start, c.end, data) {
            Ok(tl) => tl,
            Err(_) => {
                // one malformed chunk poisons the whole input
                proof {
                    let tail = data@.skip(c.end as int);
                    lemma_scan_spec_terminated(pre);
                    if c.end as int == data@.len() {
                        assert(chunkreg + tail =~= chunkreg);
                    } else {
                        assert(chunkreg.len() > 0);
                        assert(chunkreg.last() == data@[c.end - 1]);
                        lemma_scan_concat_none(chunkreg, tail);
                    }
                    lemma_scan_concat(pre, chunkreg + tail);
                    assert(pre + (chunkreg + tail) =~= data@);
                }
                return Err(AggError::Format);
            },
        };
        proof {
            let obs_pre = scan_spec(pre)->Some_0;
            let obs_chunk = scan_spec(chunkreg)->Some_0;
            lemma_scan_spec_terminated(pre);
            lemma_scan_concat(pre, chunkreg);
            assert(pre + chunkreg =~= data@.take(c.end as int));
            lemma_scan_spec_obs_wf(pre);
            lemma_scan_spec_obs_wf(chunkreg);
            lemma_table_of_wf(obs_pre);
            lemma_table_of_wf(obs_chunk);
            assert forall|k: Seq<u8>| global@.dom().contains(k) && local@.dom().contains(k)
                implies global@[k].count + local@[k].count <= u64::MAX by {
                assert(global@[k].count <= obs_pre.len());
                assert(local@[k].count <= obs_chunk.len());
                assert(2 * obs_pre.len() <= pre.len());
                assert(2 * obs_chunk.len() <= chunkreg.len());
            }
        }
        global.merge_from(&local);
        proof {
            let obs_pre = scan_spec(pre)->Some_0;
            let obs_chunk = scan_spec(chunkreg)->Some_0;
            lemma_table_of_concat(obs_pre, obs_chunk);
            assert(scan_spec(data@.take(c.end as int)) == Some(obs_pre + obs_chunk));
            assert(global@ == table_of(obs_pre + obs_chunk));
            assert(prefix_end(chunks@, i + 1) == c.end as int);
        }
        i = i + 1;
    }
    proof {
        assert(prefix_end(chunks@, n as int) == data@.len());
        assert(data@.take(data@.len() as int) =~= data@);
    }
    Ok(global)
}

/// The merge law at the level of whole inputs: splitting a data set at any
/// record boundary, aggregating each half separately, and merging the two
/// tables under the fan-in rule yields exactly the table of the whole data
/// set. (A cut in the middle of a line makes both halves malformed, so the
/// law is stated for boundary cuts.)
pub proof fn lemma_split_merge(data: Seq<u8>, cut: int)
    requires
        0 <= cut <= data.len(),
        cut == 0 || data[cut - 1] == crate::parser::NEWLINE,
        scan_spec(data) is Some,
    ensures
        scan_spec(data.take(cut)) is Some,
        scan_spec(data.skip(cut)) is Some,
        table_of(scan_spec(data)->Some_0) == merge_spec(
            table_of(scan_spec(data.take(cut))->Some_0),
            table_of(scan_spec(data.skip(cut))->Some_0),
        ),
{
    let a = data.take(cut);
    let b = data.skip(cut);
    assert(data =~= a + b);
    if a.len() > 0 {
        assert(a.last() == data[cut - 1]);
    }
    if scan_spec(a) is None {
        lemma_scan_concat_none(a, b);
        assert(false);
    }
    lemma_scan_concat(a, b);
    lemma_table_of_concat(scan_spec(a)->Some_0, scan_spec(b)->Some_0);
}

} // verus!

verus! {

/// Every raw offset the work cursor can claim finds a record boundary
/// within the excess margin.
pub open spec fn claims_aligned(data: Seq<u8>, c: int, e: int) -> bool {
    forall|k: int| 0 < k && #[trigger] (k * c) < data.len()
        ==> k * c - crate::planner::back_boundary(data, k * c) <= e
}

/// Aggregate under dynamic claiming: a cursor claims offsets `0, c, 2c, …`;
/// each claim is aligned to record boundaries within the `excess` margin,
/// scanned, and merged at once. Succeeds exactly when the input is well
/// formed and every claim aligns; an alignment failure is reported
/// distinctly from a format error. The table produced equals the one
/// produced by static planning: the result is pinned to the input alone.
#[verifier::rlimit(80)]
pub fn aggregate_claimed(data: &[u8], chunk_size: usize, excess: usize)
    -> (r: Result<Table, AggError>)
    requires
        1 <= chunk_size,
    ensures
        r is Ok <==> (scan_spec(data@) is Some
            && claims_aligned(data@, chunk_size as int, excess as int)),
        r matches Ok(t) ==> t.wf() && t@ == table_of(scan_spec(data@)->Some_0),
        r == Err::<Table, AggError>(AggError::Format) ==> scan_spec(data@) is None,
        r == Err::<Table, AggError>(AggError::Alignment)
            ==> !claims_aligned(data@, chunk_size as int, excess as int),
{
    let len = data.len();
    let mut global = Table::new();
    let mut o: usize = 0;
    let ghost mut k: int = 0;
    let ghost c = chunk_size as int;
    proof {
        assert(data@.take(crate::planner::claimed_start(data@, 0)) =~= Seq::<u8>::empty());
    }
    while o < len
        invariant
            0 <= o <= len,
            len == data@.len(),
            o == k * c,
            0 <= k,
            c == chunk_size as int,
            1 <= chunk_size,
            forall|k2: int| 0 < k2 <= k && #[trigger] (k2 * c) < data@.len()
                ==> k2 * c - crate::planner::back_boundary(data@, k2 * c) <= excess,
            scan_spec(data@.take(crate::planner::claimed_start(data@, o as int))) is Some,
            global.wf(),
            global@ == table_of(
                scan_spec(data@.take(crate::planner::claimed_start(data@, o as int)))->Some_0),
        decreases len - o,
    {
        let cd = match crate::planner::align_chunk(data, o, chunk_size, excess) {
            Ok(cd) => cd,
            Err(_) => {
                // a line longer than the excess margin: a tuning failure
                proof {
                    if o - crate::planner::back_boundary(data@, o as int) > excess {
                        assert(k > 0) by {
                            if k == 0 {
                                assert(crate::planner::back_boundary(data@, 0) == 0);
                            }
                        }
                        assert(!claims_aligned(data@, c, excess as int));
                    } else {
                        assert((k + 1) * c == k * c + c) by (nonlinear_arith);
                        assert((k + 1) * c == o + chunk_size);
                        assert(!claims_aligned(data@, c, excess as int));
                    }
                }
                return Err(AggError::Alignment);
            },
        };
        let ghost pre = data@.take(cd.start as int);
        let ghost chunkreg = data@.subrange(cd.start as int, cd.end as int);
        let local = match scan_ascii_chunk(cd.start, cd.end, data) {
            Ok(tl) => tl,
            Err(_) => {
                // one malformed claim poisons the whole input
                proof {
                    let tail = data@.skip(cd.end as int);
                    lemma_scan_spec_terminated(pre);
                    crate::planner::lemma_back_boundary_props(data@, o as int);
                    if cd.end as int == data@.len() {
                        assert(chunkreg + tail =~= chunkreg);
                    } else {
                        assert(chunkreg.len() > 0);
                        assert(chunkreg.last() == data@[cd.end - 1]);
                        lemma_scan_concat_none(chunkreg, tail);
                    }
                    lemma_scan_concat(pre, chunkreg + tail);
                    assert(pre + (chunkreg + tail) =~= data@);
                }
                return Err(AggError::Format);
            },
        };
        proof {
            let obs_pre = scan_spec(pre)->Some_0;
            let obs_chunk = scan_spec(chunkreg)->Some_0;
            lemma_scan_spec_terminated(pre);
            lemma_scan_concat(pre, chunkreg);
            assert(pre + chunkreg =~= data@.take(cd.end as int));
            lemma_scan_spec_obs_wf(pre);
            lemma_scan_spec_obs_wf(chunkreg);
            lemma_table_of_wf(obs_pre);
            lemma_table_of_wf(obs_chunk);
            assert forall|kb: Seq<u8>| global@.dom().contains(kb) && local@.dom().contains(kb)
                implies global@[kb].count + local@[kb].count <= u64::MAX by {
                assert(global@[kb].count <= obs_pre.len());
                assert(local@[kb].count <= obs_chunk.len());
                assert(2 * obs_pre.len() <= pre.len());
                assert(2 * obs_chunk.len() <= chunkreg.len());
            }
        }
        global.merge_from(&local);
        proof {
            let obs_pre = scan_spec(pre)->Some_0;
            let obs_chunk = scan_spec(chunkreg)->Some_0;
            lemma_table_of_concat(obs_pre, obs_chunk);
            assert(scan_spec(data@.take(cd.end as int)) == Some(obs_pre + obs_chunk));
            crate::planner::lemma_dynamic_claims_tile(data@, o as int, c);
            assert(cd.end as int == crate::planner::claimed_start(data@, o + c));
        }
        if chunk_size >= len - o {
            // this claim reached the end of the data: everything is consumed
            proof {
                assert(cd.end as int == data@.len());
                assert(data@.take(data@.len() as int) =~= data@);
                assert((k + 1) * c == k * c + c) by (nonlinear_arith);
                assert forall|k2: int| 0 < k2 && #[trigger] (k2 * c) < data@.len()
                    implies k2 * c - crate::planner::back_boundary(data@, k2 * c)
                        <= excess by {
                    if k2 > k {
                        assert(k2 * c >= (k + 1) * c) by (nonlinear_arith)
                            requires k2 >= k + 1, c >= 1,
                        ;
                        assert(false);
                    } else {
                        assert(0 < k2 <= k && (k2 * c) < data@.len());
                    }
                }
            }
            return Ok(global);
        }
        o = o + chunk_size;
        proof {
            assert((k + 1) * c == k * c + c) by (nonlinear_arith);
            k = k + 1;
            assert(o == k * c);
            // the end-side alignment of this claim is the start-side
            // alignment of the next one
            assert forall|k2: int| 0 < k2 <= k && #[trigger] (k2 * c) < data@.len()
                implies k2 * c - crate::planner::back_boundary(data@, k2 * c) <= excess by {
                if k2 == k {
                    assert(k2 * c == o);
                    assert(cd.end as int == crate::planner::back_boundary(data@, o as int));
                }
            }
        }
    }
    proof {
        assert(crate::planner::claimed_start(data@, o as int) == data@.len());
        assert(data@.take(data@.len() as int) =~= data@);
        assert forall|k2: int| 0 < k2 && #[trigger] (k2 * c) < data@.len()
            implies k2 * c - crate::planner::back_boundary(data@, k2 * c) <= excess by {
            if k2 > k {
                assert(k2 * c >= k * c) by (nonlinear_arith)
                    requires k2 >= k, c >= 1,
                ;
                assert(false);
            } else {
                assert(0 < k2 <= k && (k2 * c) < data@.len());
            }
        }
    }
    Ok(global)
}

} // verus!

