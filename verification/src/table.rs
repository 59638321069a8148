//! Key-to-statistics tables. A table maps raw key bytes to their running
//! statistics; its mathematical view is a `Map<Seq<u8>, Acc>`. The same
//! type serves as a worker-local table while scanning and as the global
//! table that per-chunk tables are folded into.

use vstd::prelude::*;
use crate::records::{Acc, Records, acc_wf, acc_one, acc_add, acc_merge, lemma_acc_merge_wf,
    MAX_TENTHS};

verus! {

/// One observation: key bytes and a value in tenths.
pub type Obs = (Seq<u8>, int);

/// Every observed value is within the range the line format can carry.
pub open spec fn obs_wf(obs: Seq<Obs>) -> bool {
    forall|i: int| 0 <= i < obs.len()
        ==> -(MAX_TENTHS as int) <= (#[trigger] obs[i]).1 <= MAX_TENTHS as int
}

/// Fold one observation into a table: create the key's accumulator on its
/// first observation, extend it on every later one.
pub open spec fn upd_one(t: Map<Seq<u8>, Acc>, k: Seq<u8>, v: int) -> Map<Seq<u8>, Acc> {
    if t.dom().contains(k) {
        t.insert(k, acc_add(t[k], v))
    } else {
        t.insert(k, acc_one(v))
    }
}

/// The table induced by a sequence of observations, folded left to right.
pub open spec fn table_of(obs: Seq<Obs>) -> Map<Seq<u8>, Acc>
    decreases obs.len(),
{
    if obs.len() == 0 {
        Map::empty()
    } else {
        upd_one(table_of(obs.drop_last()), obs.last().0, obs.last().1)
    }
}

/// Merge two tables: keys of either side, accumulators of shared keys merged.
pub open spec fn merge_spec(a: Map<Seq<u8>, Acc>, b: Map<Seq<u8>, Acc>) -> Map<Seq<u8>, Acc> {
    Map::new(
        |k: Seq<u8>| a.dom().contains(k) || b.dom().contains(k),
        |k: Seq<u8>|
            if a.dom().contains(k) && b.dom().contains(k) {
                acc_merge(a[k], b[k])
            } else if a.dom().contains(k) {
                a[k]
            } else {
                b[k]
            },
    )
}

/// Splitting a run of observations anywhere and merging the two partial
/// tables yields the table of the whole run: the fan-in merge loses and
/// double-counts nothing, whatever the split.
pub proof fn lemma_table_of_concat(o1: Seq<Obs>, o2: Seq<Obs>)
    ensures
        table_of(o1 + o2) == merge_spec(table_of(o1), table_of(o2)),
    decreases o2.len(),
{
    let t1 = table_of(o1);
    if o2.len() == 0 {
        assert(o1 + o2 =~= o1);
        assert(merge_spec(t1, table_of(o2)) =~= t1);
    } else {
        let o2p = o2.drop_last();
        let k = o2.last().0;
        let v = o2.last().1;
        lemma_table_of_concat(o1, o2p);
        assert((o1 + o2).drop_last() =~= o1 + o2p);
        assert((o1 + o2).last() == o2.last());
        let t2p = table_of(o2p);
        assert(upd_one(merge_spec(t1, t2p), k, v) =~= merge_spec(t1, upd_one(t2p, k, v)));
    }
}

/// The table of in-range observations is well formed: every accumulator
/// satisfies `acc_wf` and counts at most the number of observations.
pub proof fn lemma_table_of_wf(obs: Seq<Obs>)
    requires
        obs_wf(obs),
    ensures
        table_of(obs).dom().finite(),
        forall|k: Seq<u8>| #[trigger] table_of(obs).dom().contains(k)
            ==> acc_wf(table_of(obs)[k]) && table_of(obs)[k].count <= obs.len(),
    decreases obs.len(),
{
    if obs.len() > 0 {
        let op = obs.drop_last();
        assert(obs_wf(op));
        lemma_table_of_wf(op);
        let k = obs.last().0;
        let v = obs.last().1;
        if table_of(op).dom().contains(k) {
            lemma_acc_merge_wf(table_of(op)[k], acc_one(v));
        }
    }
}

fn slice_eq(a: &[u8], b: &[u8]) -> (r: bool)
    ensures
        r <==> a@ == b@,
{
    if a.len() != b.len() {
        return false;
    }
    let mut i: usize = 0;
    while i < a.len()
        invariant
            i <= a@.len(),
            a@.len() == b@.len(),
            forall|j: int| 0 <= j < i ==> a@[j] == b@[j],
        decreases a@.len() - i,
    {
        if a[i] != b[i] {
            return false;
        }
        i = i + 1;
    }
    proof {
        assert(a@ =~= b@);
    }
    true
}

/// A table from raw key bytes to their statistics.
pub struct Table {
    entries: Vec<(Vec<u8>, Records)>,
}

pub open spec fn keys_distinct(s: Seq<(Vec<u8>, Records)>) -> bool {
    forall|i: int, j: int| 0 <= i < j < s.len() ==> s[i].0@ != s[j].0@
}

pub open spec fn entries_map(s: Seq<(Vec<u8>, Records)>) -> Map<Seq<u8>, Acc>
    decreases s.len(),
{
    if s.len() == 0 {
        Map::empty()
    } else {
        entries_map(s.drop_last()).insert(s.last().0@, s.last().1@)
    }
}

proof fn lemma_entries_map_dom(s: Seq<(Vec<u8>, Records)>)
    ensures
        entries_map(s).dom().finite(),
        forall|k: Seq<u8>| #[trigger] entries_map(s).dom().contains(k)
            <==> exists|i: int| 0 <= i < s.len() && #[trigger] s[i].0@ == k,
    decreases s.len(),
{
    if s.len() > 0 {
        lemma_entries_map_dom(s.drop_last());
        assert forall|k: Seq<u8>| #[trigger] entries_map(s).dom().contains(k)
            implies exists|i: int| 0 <= i < s.len() && #[trigger] s[i].0@ == k by {
            if k == s.last().0@ {
                assert(s[s.len() - 1].0@ == k);
            } else {
                let i = choose|i: int| 0 <= i < s.drop_last().len()
                    && #[trigger] s.drop_last()[i].0@ == k;
                assert(s[i].0@ == k);
            }
        }
        assert forall|i: int| 0 <= i < s.len() && s[i].0@ == s[i].0@
            implies entries_map(s).dom().contains(s[i].0@) by {
            if i < s.len() - 1 {
                assert(s.drop_last()[i].0@ == s[i].0@);
            }
        }
    }
}

proof fn lemma_entries_map_at(s: Seq<(Vec<u8>, Records)>, i: int)
    requires
        keys_distinct(s),
        0 <= i < s.len(),
    ensures
        entries_map(s).dom().contains(s[i].0@),
        entries_map(s)[s[i].0@] == s[i].1@,
    decreases s.len(),
{
    lemma_entries_map_dom(s);
    if i < s.len() - 1 {
        assert(s.drop_last()[i] == s[i]);
        lemma_entries_map_at(s.drop_last(), i);
        assert(s[i].0@ != s.last().0@);
    }
}

proof fn lemma_entries_map_update(s: Seq<(Vec<u8>, Records)>, i: int, r: Records)
    requires
        keys_distinct(s),
        0 <= i < s.len(),
    ensures
        entries_map(s.update(i, (s[i].0, r))) == entries_map(s).insert(s[i].0@, r@),
    decreases s.len(),
{
    let s2 = s.update(i, (s[i].0, r));
    if i == s.len() - 1 {
        assert(s2.drop_last() =~= s.drop_last());
        assert(s2.last() == (s[i].0, r));
        assert(entries_map(s2) =~= entries_map(s).insert(s[i].0@, r@));
    } else {
        assert(s2.drop_last() =~= s.drop_last().update(i, (s[i].0, r)));
        assert(s.drop_last()[i] == s[i]);
        lemma_entries_map_update(s.drop_last(), i, r);
        assert(s2.last() == s.last());
        assert(s[i].0@ != s.last().0@);
        assert(entries_map(s2) =~= entries_map(s).insert(s[i].0@, r@));
    }
}

proof fn lemma_entries_map_len(s: Seq<(Vec<u8>, Records)>)
    requires
        keys_distinct(s),
    ensures
        entries_map(s).dom().finite(),
        entries_map(s).dom().len() == s.len(),
    decreases s.len(),
{
    lemma_entries_map_dom(s);
    if s.len() > 0 {
        lemma_entries_map_len(s.drop_last());
        lemma_entries_map_dom(s.drop_last());
        assert(!entries_map(s.drop_last()).dom().contains(s.last().0@));
    }
}

impl Table {
    /// The table as a mapping from key bytes to accumulator.
    pub closed spec fn view(&self) -> Map<Seq<u8>, Acc> {
        entries_map(self.entries@)
    }

    /// Keys are stored once each and every accumulator is well formed.
    pub closed spec fn wf(&self) -> bool {
        &&& keys_distinct(self.entries@)
        &&& forall|i: int| 0 <= i < self.entries@.len() ==> (#[trigger] self.entries@[i].1).wf()
    }

    /// Number of distinct keys in the table.
    pub closed spec fn spec_len(&self) -> nat {
        self.entries@.len()
    }

    /// Key bytes of the entry at position `i`, in storage order.
    pub closed spec fn spec_key(&self, i: int) -> Seq<u8> {
        self.entries@[i].0@
    }

    /// A well-formed table has a finite domain, one entry per key, and
    /// well-formed statistics for every key.
    pub proof fn lemma_wf_props(&self)
        requires
            self.wf(),
        ensures
            self@.dom().finite(),
            self@.dom().len() == self.spec_len(),
            forall|k: Seq<u8>| #[trigger] self@.dom().contains(k) ==> acc_wf(self@[k]),
            forall|i: int| 0 <= i < self.spec_len()
                ==> self@.dom().contains(#[trigger] self.spec_key(i)),
            forall|i: int, j: int| 0 <= i < j < self.spec_len()
                ==> self.spec_key(i) != self.spec_key(j),
    {
        lemma_entries_map_dom(self.entries@);
        lemma_entries_map_len(self.entries@);
        assert forall|k: Seq<u8>| #[trigger] self@.dom().contains(k)
            implies acc_wf(self@[k]) by {
            let i = choose|i: int| 0 <= i < self.entries@.len()
                && #[trigger] self.entries@[i].0@ == k;
            lemma_entries_map_at(self.entries@, i);
        }
        assert forall|i: int| 0 <= i < self.spec_len()
            implies self@.dom().contains(#[trigger] self.spec_key(i)) by {
            lemma_entries_map_at(self.entries@, i);
        }
    }

    /// An empty table.
    pub fn new() -> (t: Table)
        ensures
            t@ == Map::<Seq<u8>, Acc>::empty(),
            t.wf(),
            t.spec_len() == 0,
    {
        Table { entries: Vec::new() }
    }

    fn find_key(&self, key: &[u8]) -> (r: Option<usize>)
        ensures
            match r {
                Some(i) => i < self.entries@.len() && self.entries@[i as int].0@ == key@,
                None => forall|i: int| 0 <= i < self.entries@.len()
                    ==> (#[trigger] self.entries@[i]).0@ != key@,
            },
    {
        let n = self.entries.len();
        let mut i: usize = 0;
        while i < n
            invariant
                i <= n,
                n == self.entries@.len(),
                forall|j: int| 0 <= j < i ==> (#[trigger] self.entries@[j]).0@ != key@,
            decreases n - i,
        {
            if slice_eq(self.entries[i].0.as_slice(), key) {
                return Some(i);
            }
            i = i + 1;
        }
        None
    }

    /// Record one observation of `key` with value `item` (in tenths).
    pub fn upsert(&mut self, key: &[u8], item: i32)
        requires
            old(self).wf(),
            -MAX_TENTHS <= item <= MAX_TENTHS,
            old(self)@.dom().contains(key@) ==> old(self)@[key@].count < u64::MAX,
        ensures
            final(self)@ == upd_one(old(self)@, key@, item as int),
            final(self).wf(),
    {
        proof {
            lemma_entries_map_dom(self.entries@);
        }
        match self.find_key(key) {
            Some(i) => {
                proof {
                    lemma_entries_map_at(self.entries@, i as int);
                }
                let mut r = self.entries[i].1;
                r.update(item);
                proof {
                    lemma_entries_map_update(self.entries@, i as int, r);
                }
                let k_and_r = &mut self.entries[i];
                k_and_r.1 = r;
                proof {
                    assert(self.entries@ =~= old(self).entries@.update(
                        i as int, (old(self).entries@[i as int].0, r)));
                }
            },
            None => {
                let kv = vstd::slice::slice_to_vec(key);
                let r = Records::from_item(item);
                self.entries.push((kv, r));
                proof {
                    assert(self.entries@.drop_last() =~= old(self).entries@);
                    assert(entries_map(self.entries@)
                        =~= entries_map(old(self).entries@).insert(key@, r@));
                }
            },
        }
    }

    /// Look up the statistics recorded for `key`.
    pub fn get(&self, key: &[u8]) -> (r: Option<Records>)
        requires
            self.wf(),
        ensures
            match r {
                Some(rec) => self@.dom().contains(key@) && rec@ == self@[key@] && rec.wf(),
                None => !self@.dom().contains(key@),
            },
    {
        proof {
            lemma_entries_map_dom(self.entries@);
        }
        match self.find_key(key) {
            Some(i) => {
                proof {
                    lemma_entries_map_at(self.entries@, i as int);
                }
                Some(self.entries[i].1)
            },
            None => None,
        }
    }

    /// Fold another table into this one under the fan-in merge rule:
    /// shared keys merge their accumulators, fresh keys are inserted as is.
    pub fn merge_from(&mut self, other: &Table)
        requires
            old(self).wf(),
            other.wf(),
            forall|k: Seq<u8>| old(self)@.dom().contains(k) && other@.dom().contains(k)
                ==> old(self)@[k].count + other@[k].count <= u64::MAX,
        ensures
            final(self)@ == merge_spec(old(self)@, other@),
            final(self).wf(),
    {
        let n = other.entries.len();
        let mut j: usize = 0;
        proof {
            assert(other.entries@.take(0) =~= Seq::<(Vec<u8>, Records)>::empty());
            assert(self@ =~= merge_spec(old(self)@, entries_map(other.entries@.take(0))));
        }
        while j < n
            invariant
                j <= n,
                n == other.entries@.len(),
                other.wf(),
                self.wf(),
                self@ == merge_spec(old(self)@, entries_map(other.entries@.take(j as int))),
                forall|k: Seq<u8>| old(self)@.dom().contains(k) && other@.dom().contains(k)
                    ==> old(self)@[k].count + other@[k].count <= u64::MAX,
            decreases n - j,
        {
            let ghost pre = self@;
            let ghost pre_entries = self.entries@;
            let ghost tk = entries_map(other.entries@.take(j as int));
            proof {
                lemma_entries_map_dom(other.entries@.take(j as int));
                lemma_entries_map_at(other.entries@, j as int);
                assert(other.entries@.take(j as int + 1).drop_last()
                    =~= other.entries@.take(j as int));
                assert(entries_map(other.entries@.take(j as int + 1))
                    =~= tk.insert(other.entries@[j as int].0@, other.entries@[j as int].1@));
                // the key at j is fresh among the first j entries
                assert forall|i: int| 0 <= i < j
                    implies (#[trigger] other.entries@.take(j as int)[i]).0@
                        != other.entries@[j as int].0@ by {
                    assert(other.entries@.take(j as int)[i] == other.entries@[i]);
                }
                assert(!tk.dom().contains(other.entries@[j as int].0@));
            }
            let key = &other.entries[j].0;
            let r_other = other.entries[j].1;
            proof {
                lemma_entries_map_dom(self.entries@);
            }
            match self.find_key(key.as_slice()) {
                Some(i) => {
                    proof {
                        lemma_entries_map_at(self.entries@, i as int);
                        // the current value at this key is still the original
                        // one, since the key is fresh among the merged entries
                        assert(pre.dom().contains(key@));
                        assert(old(self)@.dom().contains(key@));
                        assert(other@.dom().contains(key@));
                        assert(pre[key@] == old(self)@[key@]);
                        assert(self.entries@[i as int].1@ == old(self)@[key@]);
                        assert(r_other@ == other@[key@]);
                        assert(old(self)@[key@].count + other@[key@].count <= u64::MAX);
                    }
                    let merged = self.entries[i].1.merge(r_other);
                    proof {
                        lemma_entries_map_update(self.entries@, i as int, merged);
                    }
                    let slot = &mut self.entries[i];
                    slot.1 = merged;
                    proof {
                        assert(self.entries@ =~= pre_entries.update(
                            i as int, (pre_entries[i as int].0, merged)));
                        assert(pre == entries_map(pre_entries));
                        assert(self@ == pre.insert(key@, merged@));
                        assert(self@[key@] == merged@);
                        assert(self@ == pre.insert(key@, acc_merge(old(self)@[key@], r_other@)));
                    }
                },
                None => {
                    let kv = vstd::slice::slice_to_vec(key.as_slice());
                    self.entries.push((kv, r_other));
                    proof {
                        assert(self.entries@.drop_last() =~= pre_entries);
                        assert(entries_map(self.entries@)
                            =~= entries_map(pre_entries).insert(key@, r_other@));
                        assert(self@ == pre.insert(key@, r_other@));
                        assert(!pre.dom().contains(key@));
                        assert(!old(self)@.dom().contains(key@));
                    }
                },
            }
            proof {
                let tkp = entries_map(other.entries@.take(j as int + 1));
                let target = merge_spec(old(self)@, tkp);
                assert(tkp == tk.insert(key@, r_other@));
                assert forall|k: Seq<u8>| #[trigger] target.dom().contains(k)
                    implies self@.dom().contains(k) && self@[k] == target[k] by {
                    if k == key@ {
                        assert(tkp[k] == r_other@);
                        assert(self@.dom().contains(k));
                        if old(self)@.dom().contains(k) {
                            assert(self@[k] == acc_merge(old(self)@[k], r_other@));
                            assert(target[k] == acc_merge(old(self)@[k], tkp[k]));
                        } else {
                            assert(self@[k] == r_other@);
                            assert(target[k] == tkp[k]);
                        }
                    } else {
                        assert(tk.insert(key@, r_other@)[k] == tk[k]);
                        assert(tkp.dom() == tk.dom().insert(key@));
                        assert(tkp.dom().contains(k) == tk.dom().contains(k));
                        assert(self@[k] == pre[k]);
                        assert(pre.dom().contains(k) == (old(self)@.dom().contains(k)
                            || tk.dom().contains(k)));
                        assert(self@.dom().contains(k));
                        assert(self@[k] == target[k]);
                    }
                }
                assert forall|k: Seq<u8>| #[trigger] self@.dom().contains(k)
                    implies target.dom().contains(k) by {
                    if k != key@ {
                        assert(pre.dom().contains(k));
                    }
                }
                assert(self@ =~= target);
            }
            j = j + 1;
        }
        proof {
            assert(other.entries@.take(n as int) =~= other.entries@);
        }
    }

    /// Number of distinct keys.
    pub fn num_keys(&self) -> (n: usize)
        ensures
            n == self.spec_len(),
    {
        self.entries.len()
    }

    /// The key bytes stored at position `i`.
    pub fn key_at(&self, i: usize) -> (k: &Vec<u8>)
        requires
            self.wf(),
            i < self.spec_len(),
        ensures
            k@ == self.spec_key(i as int),
            self@.dom().contains(k@),
    {
        proof {
            lemma_entries_map_at(self.entries@, i as int);
        }
        &self.entries[i].0
    }

    /// All rows of the table as `(key, min, mean, max)` tuples, values in
    /// tenths, in storage order: the bulk iteration handed to the report
    /// builder, which sorts and formats them.
    pub fn report_rows(&self) -> (r: Vec<(Vec<u8>, i32, i32, i32)>)
        requires
            self.wf(),
        ensures
            r@.len() == self.spec_len(),
            forall|i: int| 0 <= i < r@.len() ==> {
                let k = (#[trigger] r@[i]).0@;
                &&& k == self.spec_key(i)
                &&& self@.dom().contains(k)
                &&& r@[i].1 == self@[k].min
                &&& r@[i].2 == crate::records::mean_tenths(self@[k])
                &&& r@[i].3 == self@[k].max
            },
    {
        let mut out: Vec<(Vec<u8>, i32, i32, i32)> = Vec::new();
        let n = self.entries.len();
        let mut i: usize = 0;
        while i < n
            invariant
                i <= n,
                n == self.entries@.len(),
                self.wf(),
                out@.len() == i,
                forall|q: int| 0 <= q < i ==> {
                    let k = (#[trigger] out@[q]).0@;
                    &&& k == self.spec_key(q)
                    &&& self@.dom().contains(k)
                    &&& out@[q].1 == self@[k].min
                    &&& out@[q].2 == crate::records::mean_tenths(self@[k])
                    &&& out@[q].3 == self@[k].max
                },
            decreases n - i,
        {
            let key = vstd::slice::slice_to_vec(self.entries[i].0.as_slice());
            let stats = self.entries[i].1;
            proof {
                lemma_entries_map_at(self.entries@, i as int);
            }
            let m = stats.mean();
            out.push((key, stats.min, m, stats.max));
            i = i + 1;
        }
        out
    }

    /// The statistics stored at position `i`.
    pub fn stats_at(&self, i: usize) -> (r: Records)
        requires
            self.wf(),
            i < self.spec_len(),
        ensures
            r@ == self@[self.spec_key(i as int)],
            r.wf(),
    {
        proof {
            lemma_entries_map_at(self.entries@, i as int);
        }
        self.entries[i].1
    }
}

} // verus!

verus! {

/// Every key in the table of any run of in-range observations has at least
/// one observation, and its rounded mean lies between its minimum and its
/// maximum.
pub proof fn lemma_stats_bounded(obs: Seq<Obs>, k: Seq<u8>)
    requires
        obs_wf(obs),
        table_of(obs).dom().contains(k),
    ensures
        table_of(obs)[k].count >= 1,
        table_of(obs)[k].min <= crate::records::mean_tenths(table_of(obs)[k])
            <= table_of(obs)[k].max,
        table_of(obs)[k].min <= table_of(obs)[k].max,
{
    lemma_table_of_wf(obs);
    crate::records::lemma_mean_bounded(table_of(obs)[k]);
}

} // verus!
