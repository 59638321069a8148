//! The record scanner: a single forward pass over an aligned byte region,
//! splitting it into `key;value` lines and folding every observation into a
//! table. A line without a delimiter, a malformed value, or trailing bytes
//! without a terminator fail the whole scan; nothing is silently skipped.

use vstd::prelude::*;
use crate::AggError;
use crate::parser::{NEWLINE, SEMICOLON, is_value, value_of, parse_ascii_digits,
    lemma_value_range};
use crate::records::MAX_TENTHS;
use crate::table::{Obs, obs_wf, table_of, upd_one, Table};

verus! {

/// Index of the first occurrence of `b` in `data`, or `data.len()` if absent.
pub open spec fn first_at(data: Seq<u8>, b: u8) -> nat
    decreases data.len(),
{
    if data.len() == 0 {
        0
    } else if data[0] == b {
        0
    } else {
        1 + first_at(data.skip(1), b)
    }
}

/// `first_at` is characterized by: no occurrence before it, and an
/// occurrence at it unless `b` does not occur at all.
pub proof fn lemma_first_at_is(data: Seq<u8>, b: u8, p: int)
    requires
        0 <= p <= data.len(),
        forall|i: int| 0 <= i < p ==> data[i] != b,
        p < data.len() ==> data[p] == b,
    ensures
        first_at(data, b) == p,
    decreases data.len(),
{
    if data.len() > 0 {
        if data[0] == b {
            assert(p == 0);
        } else {
            assert(p >= 1);
            let d = data.skip(1);
            assert forall|i: int| 0 <= i < p - 1 implies d[i] != b by {
                assert(d[i] == data[i + 1]);
            }
            if p - 1 < d.len() {
                assert(d[p - 1] == data[p]);
            }
            lemma_first_at_is(d, b, p - 1);
        }
    }
}

/// The observation carried by one line (without its terminator): the key is
/// everything before the first delimiter, the value bytes after it must
/// match the numeric format. `None` marks a malformed line.
pub open spec fn line_obs(line: Seq<u8>) -> Option<Obs> {
    let d = first_at(line, SEMICOLON) as int;
    if d < line.len() && is_value(line.skip(d + 1)) {
        Some((line.take(d), value_of(line.skip(d + 1))))
    } else {
        None
    }
}

/// The observations of a whole region: one per line, in order, where every
/// line must be well formed and terminated. `None` marks a malformed region.
pub open spec fn scan_spec(data: Seq<u8>) -> Option<Seq<Obs>>
    decreases data.len(),
{
    if data.len() == 0 {
        Some(Seq::empty())
    } else {
        let i = first_at(data, NEWLINE) as int;
        if i >= data.len() {
            None
        } else if line_obs(data.take(i)) is Some && scan_spec(data.skip(i + 1)) is Some {
            Some(seq![line_obs(data.take(i))->Some_0] + scan_spec(data.skip(i + 1))->Some_0)
        } else {
            None
        }
    }
}

/// A region that scans successfully is either empty or ends on a terminator.
pub proof fn lemma_scan_spec_terminated(data: Seq<u8>)
    requires
        scan_spec(data) is Some,
    ensures
        data.len() == 0 || data.last() == NEWLINE,
    decreases data.len(),
{
    if data.len() > 0 {
        let i = first_at(data, NEWLINE) as int;
        lemma_first_at_props(data, NEWLINE);
        if i + 1 < data.len() {
            lemma_scan_spec_terminated(data.skip(i + 1));
            assert(data.skip(i + 1).last() == data.last());
        }
    }
}

/// Scanning the concatenation of a terminated region that scans successfully
/// with any second region: the outcome is the outcome of the second region,
/// and the observations concatenate.
pub proof fn lemma_scan_concat(a: Seq<u8>, b: Seq<u8>)
    requires
        a.len() == 0 || a.last() == NEWLINE,
        scan_spec(a) is Some,
    ensures
        scan_spec(a + b) is Some <==> scan_spec(b) is Some,
        scan_spec(b) is Some ==> scan_spec(a + b)
            == Some(scan_spec(a)->Some_0 + scan_spec(b)->Some_0),
    decreases a.len(),
{
    if a.len() == 0 {
        assert(a + b =~= b);
        if scan_spec(b) is Some {
            assert(scan_spec(a)->Some_0 + scan_spec(b)->Some_0 =~= scan_spec(b)->Some_0);
        }
    } else {
        let i = first_at(a, NEWLINE) as int;
        lemma_first_at_props(a, NEWLINE);
        assert(i < a.len()) by {
            if i >= a.len() {
                assert(a[a.len() - 1] != NEWLINE);
            }
        }
        assert forall|m: int| 0 <= m < i implies (a + b)[m] != NEWLINE by {
            assert((a + b)[m] == a[m]);
        }
        assert((a + b)[i] == a[i]);
        lemma_first_at_is(a + b, NEWLINE, i);
        assert((a + b).take(i) =~= a.take(i));
        assert((a + b).skip(i + 1) =~= a.skip(i + 1) + b);
        if a.skip(i + 1).len() > 0 {
            assert(a.skip(i + 1).last() == a.last());
        }
        lemma_scan_concat(a.skip(i + 1), b);
        if scan_spec(b) is Some {
            assert(seq![line_obs(a.take(i))->Some_0]
                + (scan_spec(a.skip(i + 1))->Some_0 + scan_spec(b)->Some_0)
                =~= (seq![line_obs(a.take(i))->Some_0] + scan_spec(a.skip(i + 1))->Some_0)
                    + scan_spec(b)->Some_0);
        }
    }
}

/// A terminated region that fails to scan poisons any concatenation.
pub proof fn lemma_scan_concat_none(a: Seq<u8>, b: Seq<u8>)
    requires
        a.len() == 0 || a.last() == NEWLINE,
        scan_spec(a) is None,
    ensures
        scan_spec(a + b) is None,
    decreases a.len(),
{
    assert(a.len() > 0);
    let i = first_at(a, NEWLINE) as int;
    lemma_first_at_props(a, NEWLINE);
    assert(i < a.len()) by {
        if i >= a.len() {
            assert(a[a.len() - 1] != NEWLINE);
        }
    }
    assert forall|m: int| 0 <= m < i implies (a + b)[m] != NEWLINE by {
        assert((a + b)[m] == a[m]);
    }
    assert((a + b)[i] == a[i]);
    lemma_first_at_is(a + b, NEWLINE, i);
    assert((a + b).take(i) =~= a.take(i));
    assert((a + b).skip(i + 1) =~= a.skip(i + 1) + b);
    if line_obs(a.take(i)) is Some {
        // the failure lies further right
        assert(scan_spec(a.skip(i + 1)) is None);
        assert(a.skip(i + 1).len() > 0);
        assert(a.skip(i + 1).last() == a.last());
        lemma_scan_concat_none(a.skip(i + 1), b);
    }
}

/// No occurrence strictly before `first_at`, and one at it if in range.
pub proof fn lemma_first_at_props(data: Seq<u8>, b: u8)
    ensures
        first_at(data, b) <= data.len(),
        forall|i: int| 0 <= i < first_at(data, b) ==> data[i] != b,
        first_at(data, b) < data.len() ==> data[first_at(data, b) as int] == b,
    decreases data.len(),
{
    if data.len() > 0 && data[0] != b {
        let d = data.skip(1);
        lemma_first_at_props(d, b);
        assert forall|i: int| 0 <= i < first_at(data, b) implies data[i] != b by {
            if i >= 1 {
                assert(d[i - 1] == data[i]);
            }
        }
        if first_at(data, b) < data.len() {
            assert(d[first_at(d, b) as int] == data[first_at(data, b) as int]);
        }
    }
}

/// Observations of a successful scan are in range and each consumed at
/// least two bytes of the region.
pub proof fn lemma_scan_spec_obs_wf(data: Seq<u8>)
    requires
        scan_spec(data) is Some,
    ensures
        obs_wf(scan_spec(data)->Some_0),
        2 * scan_spec(data)->Some_0.len() <= data.len(),
    decreases data.len(),
{
    if data.len() > 0 {
        let i = first_at(data, NEWLINE) as int;
        let line = data.take(i);
        let d = first_at(line, SEMICOLON) as int;
        lemma_value_range(line.skip(d + 1));
        lemma_scan_spec_obs_wf(data.skip(i + 1));
        let ob = line_obs(line)->Some_0;
        let rest = scan_spec(data.skip(i + 1))->Some_0;
        assert(scan_spec(data)->Some_0 == seq![ob] + rest);
        assert(i >= 1);
        assert forall|m: int| 0 <= m < (seq![ob] + rest).len()
            implies -(MAX_TENTHS as int) <= (#[trigger] (seq![ob] + rest)[m]).1
                <= MAX_TENTHS as int by {
            if m >= 1 {
                assert((seq![ob] + rest)[m] == rest[m - 1]);
            }
        }
    }
}

} // verus!

verus! {

/// A region consisting of one line and its terminator scans to exactly the
/// observation of that line.
proof fn lemma_scan_single_line(data: Seq<u8>)
    requires
        data.len() >= 1,
        data.last() == NEWLINE,
        forall|m: int| 0 <= m < data.len() - 1 ==> data[m] != NEWLINE,
    ensures
        line_obs(data.take(data.len() - 1)) is Some
            ==> scan_spec(data) == Some(seq![line_obs(data.take(data.len() - 1))->Some_0]),
        line_obs(data.take(data.len() - 1)) is None ==> scan_spec(data) is None,
{
    lemma_first_at_is(data, NEWLINE, data.len() - 1);
    assert(data.skip(data.len() - 1 + 1) =~= Seq::<u8>::empty());
    assert(scan_spec(Seq::<u8>::empty()) == Some(Seq::<Obs>::empty()));
    if line_obs(data.take(data.len() - 1)) is Some {
        assert(seq![line_obs(data.take(data.len() - 1))->Some_0] + Seq::<Obs>::empty()
            =~= seq![line_obs(data.take(data.len() - 1))->Some_0]);
    }
}

/// Consuming one more well-formed line extends the observations by one and
/// the induced table by that observation.
proof fn lemma_scan_step(region: Seq<u8>, off: int, lineend: int, ob: Obs)
    requires
        0 <= off <= lineend < region.len(),
        scan_spec(region.take(off)) is Some,
        region[lineend] == NEWLINE,
        forall|m: int| off <= m < lineend ==> region[m] != NEWLINE,
        line_obs(region.subrange(off, lineend)) == Some(ob),
    ensures
        scan_spec(region.take(lineend + 1)) is Some,
        scan_spec(region.take(lineend + 1))->Some_0
            == scan_spec(region.take(off))->Some_0 + seq![ob],
        table_of(scan_spec(region.take(lineend + 1))->Some_0)
            == upd_one(table_of(scan_spec(region.take(off))->Some_0), ob.0, ob.1),
{
    let consumed = region.take(off);
    let lineterm = region.subrange(off, lineend + 1);
    lemma_scan_spec_terminated(consumed);
    assert(lineterm.last() == region[lineend]);
    assert forall|m: int| 0 <= m < lineterm.len() - 1 implies lineterm[m] != NEWLINE by {
        assert(lineterm[m] == region[off + m]);
    }
    assert(lineterm.take(lineterm.len() - 1) =~= region.subrange(off, lineend));
    lemma_scan_single_line(lineterm);
    assert(scan_spec(lineterm) == Some(seq![ob]));
    lemma_scan_concat(consumed, lineterm);
    assert(consumed + lineterm =~= region.take(lineend + 1));
    let obs_new = scan_spec(region.take(off))->Some_0 + seq![ob];
    assert(scan_spec(region.take(lineend + 1)) == Some(obs_new));
    assert(obs_new.drop_last() =~= scan_spec(region.take(off))->Some_0);
    assert(obs_new.last() == ob);
}

/// If, past a cleanly consumed prefix, the next line is unterminated or
/// carries no observation, the whole region fails to scan.
proof fn lemma_scan_fail(region: Seq<u8>, off: int, p: int)
    requires
        0 <= off <= p <= region.len(),
        off < region.len(),
        scan_spec(region.take(off)) is Some,
        forall|m: int| off <= m < p ==> region[m] != NEWLINE,
        p < region.len() ==> region[p] == NEWLINE,
        p == region.len() || line_obs(region.subrange(off, p)) is None,
    ensures
        scan_spec(region) is None,
{
    let consumed = region.take(off);
    let rest = region.skip(off);
    lemma_scan_spec_terminated(consumed);
    assert(rest.len() > 0);
    assert forall|m: int| 0 <= m < p - off implies rest[m] != NEWLINE by {
        assert(rest[m] == region[off + m]);
    }
    if p - off < rest.len() {
        assert(rest[p - off] == region[p]);
    }
    lemma_first_at_is(rest, NEWLINE, p - off);
    if p < region.len() {
        assert(rest.take(p - off) =~= region.subrange(off, p));
    }
    assert(scan_spec(rest) is None);
    lemma_scan_concat(consumed, rest);
    assert(consumed + rest =~= region);
}

/// Scan the aligned region `[start, end)` of `buffer` and return the table
/// of all its observations. Fails with a format error exactly when the
/// region is not a run of well-formed, terminated `key;value` lines.
#[verifier::rlimit(60)]
pub fn scan_ascii_chunk(start: usize, end: usize, buffer: &[u8]) -> (r: Result<Table, AggError>)
    requires
        start <= end <= buffer@.len(),
    ensures
        ({
            let region = buffer@.subrange(start as int, end as int);
            match r {
                Ok(t) => scan_spec(region) is Some && t.wf()
                    && t@ == table_of(scan_spec(region)->Some_0),
                Err(e) => scan_spec(region) is None && e == AggError::Format,
            }
        }),
{
    let ghost region = buffer@.subrange(start as int, end as int);
    let mut t = Table::new();
    let mut pos = start;
    proof {
        assert(region.take(0) =~= Seq::<u8>::empty());
    }
    while pos < end
        invariant
            start <= pos <= end <= buffer@.len(),
            region == buffer@.subrange(start as int, end as int),
            scan_spec(region.take(pos - start)) is Some,
            t.wf(),
            t@ == table_of(scan_spec(region.take(pos - start))->Some_0),
        decreases end - pos,
    {
        let ghost obs_done = scan_spec(region.take(pos - start))->Some_0;
        // find the record terminator
        let mut j = pos;
        while j < end && buffer[j] != NEWLINE
            invariant
                pos <= j <= end <= buffer@.len(),
                forall|m: int| pos <= m < j ==> buffer@[m] != NEWLINE,
            decreases end - j,
        {
            j = j + 1;
        }
        proof {
            assert forall|m: int| pos - start <= m < j - start
                implies region[m] != NEWLINE by {
                assert(region[m] == buffer@[start + m]);
            }
        }
        if j == end {
            // trailing bytes with no terminator: the region is malformed
            proof {
                lemma_scan_fail(region, pos - start, region.len() as int);
            }
            return Err(AggError::Format);
        }
        let ghost line = region.subrange(pos - start, j - start);
        proof {
            assert(region[j - start] == buffer@[j as int]);
        }
        // find the delimiter within the line
        let mut k = pos;
        while k < j && buffer[k] != SEMICOLON
            invariant
                pos <= k <= j <= buffer@.len(),
                forall|m: int| pos <= m < k ==> buffer@[m] != SEMICOLON,
            decreases j - k,
        {
            k = k + 1;
        }
        proof {
            assert forall|m: int| 0 <= m < k - pos implies line[m] != SEMICOLON by {
                assert(line[m] == buffer@[pos + m]);
            }
        }
        if k == j {
            // a line without a delimiter is a format error
            proof {
                lemma_first_at_is(line, SEMICOLON, line.len() as int);
                assert(line_obs(line) is None);
                lemma_scan_fail(region, pos - start, j - start);
            }
            return Err(AggError::Format);
        }
        proof {
            assert(line[k - pos] == buffer@[k as int]);
            lemma_first_at_is(line, SEMICOLON, k - pos);
            assert(line.skip(k - pos + 1) =~= buffer@.subrange(k + 1, j as int));
            assert(line.take(k - pos) =~= buffer@.subrange(pos as int, k as int));
        }
        let vb = vstd::slice::slice_subrange(buffer, k + 1, j);
        match parse_ascii_digits(vb) {
            None => {
                // malformed value bytes are a format error
                proof {
                    assert(line_obs(line) is None);
                    lemma_scan_fail(region, pos - start, j - start);
                }
                return Err(AggError::Format);
            },
            Some(v) => {
                let key = vstd::slice::slice_subrange(buffer, pos, k);
                let ghost ob: Obs = (key@, v as int);
                proof {
                    assert(line_obs(line) == Some(ob));
                    // an accumulator counts at most one observation per
                    // two bytes already consumed, so it cannot overflow
                    lemma_scan_spec_obs_wf(region.take(pos - start));
                    crate::table::lemma_table_of_wf(obs_done);
                    if t@.dom().contains(key@) {
                        assert(t@[key@].count <= obs_done.len());
                    }
                }
                t.upsert(key, v);
                proof {
                    lemma_scan_step(region, pos - start, j - start, ob);
                }
                pos = j + 1;
            },
        }
    }
    proof {
        assert(region.take(pos - start) =~= region);
    }
    Ok(t)
}

} // verus!

verus! {

/// A line with no delimiter byte anywhere in the input fails the whole
/// scan — it is never silently dropped, whatever stands before or after it.
pub proof fn lemma_missing_delimiter(pre: Seq<u8>, line: Seq<u8>, post: Seq<u8>)
    requires
        pre.len() == 0 || pre.last() == NEWLINE,
        forall|m: int| 0 <= m < line.len() ==> line[m] != NEWLINE,
        forall|m: int| 0 <= m < line.len() ==> line[m] != SEMICOLON,
    ensures
        scan_spec(pre + line.push(NEWLINE) + post) is None,
{
    lemma_first_at_is(line, SEMICOLON, line.len() as int);
    assert(line_obs(line) is None);
    let mid = line.push(NEWLINE);
    assert(mid.last() == NEWLINE);
    assert forall|m: int| 0 <= m < mid.len() - 1 implies mid[m] != NEWLINE by {
        assert(mid[m] == line[m]);
    }
    assert(mid.take(mid.len() - 1) =~= line);
    lemma_scan_single_line(mid);
    assert(scan_spec(mid) is None);
    lemma_scan_concat_none(mid, post);
    if scan_spec(pre) is Some {
        lemma_scan_concat(pre, mid + post);
    } else {
        lemma_scan_concat_none(pre, mid + post);
    }
    assert(pre + line.push(NEWLINE) + post =~= pre + (mid + post));
}

} // verus!
