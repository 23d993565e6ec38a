//! The state of an aggregation: one statistic per key, keys in the order in
//! which they were first seen, and an index from key hash to positions.

use std::collections::HashMap;
use vstd::prelude::*;
use vstd::slice::{slice_subrange, slice_to_vec};
use crate::aggregate::{add_value, merge_summary, single, Aggregate, Summary};
use crate::format::{entry_text, join_entries, push_bytes, render, sorted_keys};
use crate::hashing::{key_hash, xxh3_of};
use crate::order::{
    lemma_lex_total, lemma_lex_transitive, lemma_sorted_unique, less, lex_lt, strictly_sorted,
};
use crate::parse::{parse_line, split_line, ParseError};

verus! {

broadcast use vstd::std_specs::hash::group_hash_axioms;

/// The statistics of a group of lines: one per key.
pub type Stats = Map<Seq<u8>, Summary>;

/// `m` once value `v` of key `k` is added.
pub open spec fn add_entry(m: Stats, k: Seq<u8>, v: int) -> Stats {
    m.insert(
        k,
        if m.contains_key(k) {
            add_value(m[k], v)
        } else {
            single(v)
        },
    )
}

/// `m` once the statistic `s` of key `k` is taken in.
pub open spec fn merge_entry(m: Stats, k: Seq<u8>, s: Summary) -> Stats {
    m.insert(
        k,
        if m.contains_key(k) {
            merge_summary(m[k], s)
        } else {
            s
        },
    )
}

/// The statistics of two groups of lines taken together: keys of both sides,
/// merged where both have them.
pub open spec fn merge_maps(a: Stats, b: Stats) -> Stats {
    Map::new(
        |k: Seq<u8>| a.contains_key(k) || b.contains_key(k),
        |k: Seq<u8>|
            if a.contains_key(k) && b.contains_key(k) {
                merge_summary(a[k], b[k])
            } else if a.contains_key(k) {
                a[k]
            } else {
                b[k]
            },
    )
}

/// The map from `ks[i]` to `ss[i]`.
pub open spec fn entries_map(ks: Seq<Seq<u8>>, ss: Seq<Summary>) -> Stats
    decreases ks.len(),
{
    if ks.len() == 0 {
        Map::empty()
    } else {
        entries_map(ks.drop_last(), ss.drop_last()).insert(ks.last(), ss.last())
    }
}

/// Sum of the counts.
pub open spec fn count_sum(ss: Seq<Summary>) -> int
    decreases ss.len(),
{
    if ss.len() == 0 {
        0
    } else {
        count_sum(ss.drop_last()) + ss.last().count
    }
}

/// Statistics per key, for keys seen as opaque bytes.
pub struct MeasurementAggregator {
    index: HashMap<u64, Vec<usize>>,
    locations: Vec<Vec<u8>>,
    stats: Vec<Aggregate>,
}

impl MeasurementAggregator {
    /// The keys, in the order in which they were first seen.
    pub closed spec fn keys(&self) -> Seq<Seq<u8>> {
        self.locations@.map_values(|v: Vec<u8>| v@)
    }

    pub closed spec fn summaries(&self) -> Seq<Summary> {
        self.stats@.map_values(|a: Aggregate| a@)
    }

    /// The statistic of each key seen.
    pub closed spec fn model(&self) -> Stats {
        entries_map(self.keys(), self.summaries())
    }

    /// The sum over all keys of their counts: the number of values taken in.
    pub closed spec fn total(&self) -> int {
        count_sum(self.summaries())
    }

    pub closed spec fn wf(&self) -> bool {
        let n = self.locations@.len();
        &&& self.stats@.len() == n
        &&& self.keys().no_duplicates()
        &&& forall|i: int| 0 <= i < n ==> (#[trigger] self.stats@[i]).wf()
        &&& self.total() <= u64::MAX
        &&& forall|i: int|
            0 <= i < n ==> {
                let h = xxh3_of(#[trigger] self.locations@[i]@);
                self.index@.contains_key(h) && self.index@[h]@.contains(i as usize)
            }
        &&& forall|h: u64, t: int|
            self.index@.contains_key(h) && 0 <= t < self.index@[h]@.len() ==> {
                let j = #[trigger] self.index@[h]@[t];
                j < n && xxh3_of(self.locations@[j as int]@) == h
            }
    }

    proof fn lemma_model(&self)
        requires
            self.wf(),
        ensures
            self.keys().len() == self.locations@.len(),
            self.summaries().len() == self.locations@.len(),
            forall|i: int|
                0 <= i < self.locations@.len() ==> #[trigger] self.keys()[i]
                    == self.locations@[i]@,
            forall|i: int|
                0 <= i < self.locations@.len() ==> #[trigger] self.summaries()[i]
                    == self.stats@[i]@,
            forall|k: Seq<u8>| self.model().contains_key(k) <==> self.keys().contains(k),
            forall|i: int|
                0 <= i < self.locations@.len() ==> self.model()[#[trigger] self.keys()[i]]
                    == self.summaries()[i],
    {
        lemma_entries(self.keys(), self.summaries());
    }

    /// `total()` is the sum of the counts of all keys, each key taken once.
    pub proof fn total_is_sum_of_counts(&self)
        requires
            self.wf(),
        ensures
            exists|ks: Seq<Seq<u8>>|
                {
                    &&& ks.no_duplicates()
                    &&& forall|k: Seq<u8>| #[trigger] ks.contains(k) <==> self.model().contains_key(k)
                    &&& self.total() == count_sum(ks.map_values(|k: Seq<u8>| self.model()[k]))
                },
    {
        self.lemma_model();
        let ks = self.keys();
        assert(ks.map_values(|k: Seq<u8>| self.model()[k]) =~= self.summaries());
        assert forall|k: Seq<u8>| #[trigger] ks.contains(k) <==> self.model().contains_key(k) by {}
    }

    /// An empty state.
    pub fn new() -> (r: MeasurementAggregator)
        ensures
            r.wf(),
            r.model() == Stats::empty(),
            r.total() == 0,
    {
        let r = MeasurementAggregator {
            index: HashMap::new(),
            locations: Vec::new(),
            stats: Vec::new(),
        };
        assert(r.keys() =~= Seq::<Seq<u8>>::empty());
        assert(r.summaries() =~= Seq::<Summary>::empty());
        r
    }

    /// Number of distinct keys.
    pub fn len(&self) -> (r: usize)
        requires
            self.wf(),
        ensures
            r == self.model().dom().len(),
    {
        proof {
            self.lemma_model();
            lemma_dom_len(self.keys(), self.summaries());
        }
        self.locations.len()
    }

    /// Replaces the statistic at position `j`.
    fn update_at(&mut self, j: usize, a: Aggregate)
        requires
            old(self).wf(),
            j < old(self).locations@.len(),
            a.wf(),
            old(self).total() - old(self).stats@[j as int].count + a.count <= u64::MAX,
        ensures
            final(self).wf(),
            final(self).model() == old(self).model().insert(old(self).keys()[j as int], a@),
            final(self).total() == old(self).total() - old(self).stats@[j as int].count + a.count,
            final(self).keys() == old(self).keys(),
    {
        let ghost ks = self.keys();
        let ghost ss = self.summaries();
        proof {
            self.lemma_model();
            lemma_count_sum_update(ss, j as int, a@);
            lemma_entries_update(ks, ss, j as int, a@);
        }
        self.stats.set(j, a);
        assert(self.summaries() =~= ss.update(j as int, a@));
        assert(self.keys() =~= ks);
        assert forall|h: u64, t: int|
            self.index@.contains_key(h) && 0 <= t < self.index@[h]@.len() implies {
            let i = #[trigger] self.index@[h]@[t];
            i < self.locations@.len() && xxh3_of(self.locations@[i as int]@) == h
        } by {}
    }

    /// Adds a key that is not there yet, with its statistic.
    fn insert_new(&mut self, key: Vec<u8>, h: u64, a: Aggregate)
        requires
            old(self).wf(),
            h == xxh3_of(key@),
            forall|i: int|
                0 <= i < old(self).locations@.len() ==> (#[trigger] old(self).locations@[i])@
                    != key@,
            a.wf(),
            old(self).total() + a.count <= u64::MAX,
        ensures
            final(self).wf(),
            final(self).model() == old(self).model().insert(key@, a@),
            final(self).total() == old(self).total() + a.count,
    {
        let ghost ks = self.keys();
        let ghost ss = self.summaries();
        let ghost old_index = self.index@;
        let ghost old_locs = self.locations@;
        proof {
            self.lemma_model();
        }
        let n = self.locations.len();
        let mut bucket = match self.index.remove(&h) {
            Some(b) => b,
            None => Vec::new(),
        };
        let ghost old_bucket = bucket@;
        assert(old_index.contains_key(h) ==> old_bucket == old_index[h]@);
        bucket.push(n);
        self.index.insert(h, bucket);
        let ghost kv = key@;
        self.locations.push(key);
        self.stats.push(a);
        assert(self.keys() =~= ks.push(kv));
        assert(self.summaries() =~= ss.push(a@));
        assert(ks.push(kv).drop_last() =~= ks);
        assert(ss.push(a@).drop_last() =~= ss);
        assert(self.keys().no_duplicates()) by {
            assert forall|i: int, j: int|
                0 <= i < self.keys().len() && 0 <= j < self.keys().len() && i != j implies
                self.keys()[i] != self.keys()[j] by {
                if i < n && j < n {
                    assert(ks[i] != ks[j]);
                } else if i < n {
                    assert(old_locs[i]@ != kv);
                } else if j < n {
                    assert(old_locs[j]@ != kv);
                }
            }
        }
        assert forall|i: int| 0 <= i < self.stats@.len() implies (#[trigger] self.stats@[i]).wf() by {
            if i < n {
                assert(old(self).stats@[i].wf());
            }
        }
        assert forall|i: int| 0 <= i < self.locations@.len() implies {
            let g = xxh3_of(#[trigger] self.locations@[i]@);
            self.index@.contains_key(g) && self.index@[g]@.contains(i as usize)
        } by {
            if i < n {
                let g = xxh3_of(old_locs[i]@);
                assert(old_index.contains_key(g) && old_index[g]@.contains(i as usize));
                if g == h {
                    let u = choose|u: int| 0 <= u < old_bucket.len() && old_bucket[u] == i as usize;
                    assert(self.index@[h]@[u] == i as usize);
                }
            } else {
                assert(self.index@[h]@[old_bucket.len() as int] == n);
            }
        }
        assert forall|g: u64, t: int|
            self.index@.contains_key(g) && 0 <= t < self.index@[g]@.len() implies {
            let j = #[trigger] self.index@[g]@[t];
            j < self.locations@.len() && xxh3_of(self.locations@[j as int]@) == g
        } by {
            if g == h {
                if t < old_bucket.len() {
                    assert(self.index@[g]@[t] == old_index[g]@[t]);
                }
            } else {
                assert(self.index@[g] == old_index[g]);
            }
        }
    }

    /// Adds value `v` (tenths) of `key`.
    fn record(&mut self, key: &[u8], v: i32)
        requires
            old(self).wf(),
            old(self).total() < u64::MAX,
        ensures
            final(self).wf(),
            final(self).model() == add_entry(old(self).model(), key@, v as int),
            final(self).total() == old(self).total() + 1,
    {
        proof {
            self.lemma_model();
        }
        let h = key_hash(key);
        match self.find(key, h) {
            Some(j) => {
                proof {
                    lemma_count_le_sum(self.summaries(), j as int);
                    assert(self.keys()[j as int] == key@);
                    assert(self.keys().contains(key@));
                    assert(self.model().contains_key(key@));
                }
                let mut a = self.stats[j];
                assert(self.summaries()[j as int] == a@);
                assert(self.model()[key@] == a@);
                a.add(v);
                self.update_at(j, a);
            },
            None => {
                proof {
                    assert(!self.keys().contains(key@)) by {
                        if self.keys().contains(key@) {
                            let i = choose|i: int| 0 <= i < self.keys().len() && self.keys()[i] == key@;
                            assert(self.locations@[i]@ != key@);
                        }
                    }
                    assert(!self.model().contains_key(key@));
                }
                let k = slice_to_vec(key);
                self.insert_new(k, h, Aggregate::new(v));
            },
        }
    }

    /// Adds one line, `<key>;<value>` without its newline. A line that does
    /// not parse is refused and leaves the state as it was.
    pub fn add(&mut self, line: &[u8]) -> (r: Result<(), ParseError>)
        requires
            old(self).wf(),
            old(self).total() < u64::MAX,
        ensures
            final(self).wf(),
            match parse_line(line@) {
                Ok((k, v)) => r is Ok && final(self).model() == add_entry(old(self).model(), k, v)
                    && final(self).total() == old(self).total() + 1,
                Err(e) => r == Err::<(), ParseError>(e) && final(self).model() == old(self).model()
                    && final(self).total() == old(self).total(),
            },
    {
        match split_line(line) {
            Ok((d, v)) => {
                let key = slice_subrange(line, 0, d);
                self.record(key, v);
                Ok(())
            },
            Err(e) => Err(e),
        }
    }

    /// Takes in every statistic of `other`: afterwards the state holds the
    /// statistics of both groups of lines together.
    pub fn merge(&mut self, other: &MeasurementAggregator)
        requires
            old(self).wf(),
            other.wf(),
            old(self).total() + other.total() <= u64::MAX,
        ensures
            final(self).wf(),
            final(self).model() == merge_maps(old(self).model(), other.model()),
            final(self).total() == old(self).total() + other.total(),
    {
        let ghost start = self.model();
        let ghost oks = other.keys();
        let ghost oss = other.summaries();
        proof {
            other.lemma_model();
            lemma_count_sum_nonneg(oss);
            assert(oks.take(0) =~= Seq::<Seq<u8>>::empty());
            assert(oss.take(0) =~= Seq::<Summary>::empty());
            lemma_merge_empty(start);
        }
        let mut i: usize = 0;
        while i < other.locations.len()
            invariant
                self.wf(),
                other.wf(),
                oks == other.keys(),
                oss == other.summaries(),
                oks.len() == oss.len() == other.locations@.len(),
                i <= other.locations@.len(),
                self.model() == merge_maps(start, entries_map(oks.take(i as int), oss.take(i as int))),
                self.total() == old(self).total() + count_sum(oss.take(i as int)),
                old(self).total() + other.total() <= u64::MAX,
            decreases other.locations.len() - i,
        {
            proof {
                other.lemma_model();
                lemma_merge_step(start, oks, oss, i as int);
                lemma_count_sum_prefix(oss, i as int);
                lemma_count_sum_nonneg(oss.take(i as int));
            }
            let key = other.locations[i].as_slice();
            let s = other.stats[i];
            assert(oks[i as int] == key@ && oss[i as int] == s@);
            assert(other.stats@[i as int].wf());
            let h = key_hash(key);
            proof {
                self.lemma_model();
            }
            match self.find(key, h) {
                Some(j) => {
                    proof {
                        lemma_count_le_sum(self.summaries(), j as int);
                        assert(self.keys()[j as int] == key@);
                        assert(self.keys().contains(key@));
                        assert(self.model().contains_key(key@));
                    }
                    let mut a = self.stats[j];
                    assert(self.summaries()[j as int] == a@);
                    assert(self.model()[key@] == a@);
                    a.merge(&s);
                    self.update_at(j, a);
                },
                None => {
                    proof {
                        assert(!self.keys().contains(key@)) by {
                            if self.keys().contains(key@) {
                                let t = choose|t: int| 0 <= t < self.keys().len() && self.keys()[t] == key@;
                                assert(self.locations@[t]@ != key@);
                            }
                        }
                        assert(!self.model().contains_key(key@));
                    }
                    let k = slice_to_vec(key);
                    self.insert_new(k, h, s);
                },
            }
            i = i + 1;
        }
        proof {
            assert(oks.take(i as int) =~= oks);
            assert(oss.take(i as int) =~= oss);
        }
    }

    /// The positions of the keys, ordered by key in ascending byte order.
    fn sorted_order(&self) -> (r: Vec<usize>)
        requires
            self.wf(),
        ensures
            r@.len() == self.locations@.len(),
            forall|q: int| 0 <= q < r@.len() ==> #[trigger] r@[q] < self.locations@.len(),
            forall|i: usize| i < self.locations@.len() ==> #[trigger] r@.contains(i),
            forall|a: int, b: int|
                0 <= a < b < r@.len() ==> lex_lt(
                    self.locations@[r@[a] as int]@,
                    self.locations@[r@[b] as int]@,
                ),
    {
        let n = self.locations.len();
        let mut order: Vec<usize> = Vec::new();
        let mut k: usize = 0;
        while k < n
            invariant
                self.wf(),
                n == self.locations@.len(),
                k <= n,
                order@.len() == k,
                forall|q: int| 0 <= q < k ==> #[trigger] order@[q] < k,
                forall|i: usize| i < k ==> #[trigger] order@.contains(i),
                forall|a: int, b: int|
                    0 <= a < b < k ==> lex_lt(
                        self.locations@[order@[a] as int]@,
                        self.locations@[order@[b] as int]@,
                    ),
            decreases n - k,
        {
            let ghost kk = self.locations@[k as int]@;
            let mut p: usize = 0;
            let mut found = false;
            while p < k && !found
                invariant
                    self.wf(),
                    n == self.locations@.len(),
                    k < n,
                    kk == self.locations@[k as int]@,
                    order@.len() == k,
                    forall|q: int| 0 <= q < k ==> #[trigger] order@[q] < k,
                    p <= k,
                    found ==> p < k && lex_lt(kk, self.locations@[order@[p as int] as int]@),
                    forall|q: int|
                        0 <= q < p ==> lex_lt(
                            #[trigger] self.locations@[order@[q] as int]@,
                            kk,
                        ),
                decreases k - p + if found { 0int } else { 1int },
            {
                let o = order[p];
                if less(self.locations[k].as_slice(), self.locations[o].as_slice()) {
                    found = true;
                } else {
                    proof {
                        self.lemma_model();
                        assert(self.keys()[o as int] != self.keys()[k as int]);
                        lemma_lex_total(kk, self.locations@[o as int]@);
                    }
                    p = p + 1;
                }
            }
            let ghost before = order@;
            order.insert(p, k);
            proof {
                assert forall|a: int, b: int| 0 <= a < b < k + 1 implies lex_lt(
                    self.locations@[order@[a] as int]@,
                    self.locations@[order@[b] as int]@,
                ) by {
                    if b == p {
                        assert(order@[a] == before[a]);
                        assert(lex_lt(self.locations@[before[a] as int]@, kk));
                    } else if a == p {
                        assert(order@[b] == before[b - 1]);
                        if b - 1 > p {
                            lemma_lex_transitive(
                                kk,
                                self.locations@[before[p as int] as int]@,
                                self.locations@[before[b - 1] as int]@,
                            );
                        }
                    } else {
                        let a0 = if a < p { a } else { a - 1 };
                        let b0 = if b < p { b } else { b - 1 };
                        assert(order@[a] == before[a0] && order@[b] == before[b0]);
                    }
                }
                assert forall|i: usize| i < k + 1 implies #[trigger] order@.contains(i) by {
                    if i == k {
                        assert(order@[p as int] == k);
                    } else {
                        assert(before.contains(i));
                        let q = choose|q: int| 0 <= q < before.len() && before[q] == i;
                        if q < p {
                            assert(order@[q] == i);
                        } else {
                            assert(order@[q + 1] == i);
                        }
                    }
                }
                assert forall|q: int| 0 <= q < k + 1 implies #[trigger] order@[q] < k + 1 by {
                    if q < p {
                        assert(order@[q] == before[q]);
                    } else if q > p {
                        assert(order@[q] == before[q - 1]);
                    }
                }
            }
            k = k + 1;
        }
        order
    }

    /// Appends `{key=min/avg/max, ...}` and a newline: every key once, in
    /// ascending byte order, each statistic with one fractional digit.
    pub fn write(&self, out: &mut Vec<u8>)
        requires
            self.wf(),
        ensures
            final(out)@ == old(out)@ + render(self.model()),
            strictly_sorted(sorted_keys(self.model())),
            forall|k: Seq<u8>|
                #[trigger] sorted_keys(self.model()).contains(k) <==> self.model().contains_key(k),
    {
        let order = self.sorted_order();
        let n = self.locations.len();
        let ghost m = self.model();
        let ghost sk = order@.map_values(|o: usize| self.locations@[o as int]@);
        proof {
            self.lemma_model();
            assert(strictly_sorted(sk));
            assert forall|k: Seq<u8>| #[trigger] sk.contains(k) <==> m.contains_key(k) by {
                if sk.contains(k) {
                    let q = choose|q: int| 0 <= q < sk.len() && sk[q] == k;
                    assert(self.keys()[order@[q] as int] == k);
                    assert(self.keys().contains(k));
                }
                if m.contains_key(k) {
                    assert(self.keys().contains(k));
                    let i = choose|i: int| 0 <= i < self.keys().len() && self.keys()[i] == k;
                    assert(order@.contains(i as usize));
                    let q = choose|q: int| 0 <= q < order@.len() && order@[q] == i as usize;
                    assert(sk[q] == k);
                }
            }
            lemma_sorted_unique(sk, sorted_keys(m));
        }
        let ghost start = out@;
        out.push(123);
        let mut idx: usize = 0;
        while idx < order.len()
            invariant
                self.wf(),
                m == self.model(),
                sk == order@.map_values(|o: usize| self.locations@[o as int]@),
                forall|q: int| 0 <= q < order@.len() ==> #[trigger] order@[q] < self.locations@.len(),
                idx <= order@.len(),
                out@ == start + seq![123u8] + join_entries(m, sk.take(idx as int)),
            decreases order.len() - idx,
        {
            let ghost before = out@;
            if idx > 0 {
                out.push(44);
                out.push(32);
            }
            let o = order[idx];
            push_bytes(out, self.locations[o].as_slice());
            out.push(61);
            proof {
                self.lemma_model();
                assert(self.stats@[o as int].wf());
                assert(m[self.keys()[o as int]] == self.stats@[o as int]@);
            }
            self.stats[o].write_to(out);
            proof {
                let t = sk.take(idx as int + 1);
                assert(t.drop_last() =~= sk.take(idx as int));
                assert(t.last() == self.locations@[o as int]@);
                if idx == 0 {
                    assert(sk.take(0) =~= Seq::<Seq<u8>>::empty());
                    assert(out@ =~= start + seq![123u8] + entry_text(m, t.last()));
                } else {
                    assert(out@ =~= before + seq![44u8, 32u8] + entry_text(m, t.last()));
                }
            }
            idx = idx + 1;
        }
        assert(sk.take(idx as int) =~= sk);
        out.push(125);
        out.push(10);
        assert(out@ =~= start + render(m));
    }

    /// The statistic of `key`, if it was seen.
    pub fn get(&self, key: &[u8]) -> (r: Option<Aggregate>)
        requires
            self.wf(),
        ensures
            match r {
                Some(a) => self.model().contains_key(key@) && a@ == self.model()[key@] && a.wf(),
                None => !self.model().contains_key(key@),
            },
    {
        proof {
            self.lemma_model();
        }
        let h = key_hash(key);
        match self.find(key, h) {
            Some(j) => {
                assert(self.keys()[j as int] == key@);
                assert(self.keys().contains(key@));
                assert(self.stats@[j as int].wf());
                Some(self.stats[j])
            },
            None => {
                assert(!self.keys().contains(key@)) by {
                    if self.keys().contains(key@) {
                        let i = choose|i: int| 0 <= i < self.keys().len() && self.keys()[i] == key@;
                        assert(self.locations@[i]@ != key@);
                    }
                }
                None
            },
        }
    }

    /// The number of values taken in: the sum over all keys of their counts.
    pub fn total_count(&self) -> (r: u64)
        requires
            self.wf(),
        ensures
            r == self.total(),
    {
        let ghost ss = self.summaries();
        let mut sum: u64 = 0;
        let mut i: usize = 0;
        proof {
            self.lemma_model();
            assert(ss.take(0) =~= Seq::<Summary>::empty());
        }
        while i < self.stats.len()
            invariant
                self.wf(),
                ss == self.summaries(),
                ss.len() == self.stats@.len(),
                forall|j: int| 0 <= j < ss.len() ==> #[trigger] ss[j] == self.stats@[j]@,
                i <= ss.len(),
                sum == count_sum(ss.take(i as int)),
            decreases self.stats.len() - i,
        {
            proof {
                lemma_count_sum_prefix(ss, i as int);
                lemma_count_sum_nonneg(ss.take(i as int));
            }
            sum = sum + self.stats[i].count;
            i = i + 1;
        }
        assert(ss.take(i as int) =~= ss);
        sum
    }

    /// Position of `key` among the keys, found through its hash bucket.
    fn find(&self, key: &[u8], h: u64) -> (r: Option<usize>)
        requires
            self.wf(),
            h == xxh3_of(key@),
        ensures
            match r {
                Some(j) => j < self.locations@.len() && self.locations@[j as int]@ == key@,
                None => forall|i: int|
                    0 <= i < self.locations@.len() ==> (#[trigger] self.locations@[i])@ != key@,
            },
    {
        let n = self.locations.len();
        match self.index.get(&h) {
            None => {
                assert forall|i: int| 0 <= i < self.locations@.len() implies (
                #[trigger] self.locations@[i])@ != key@ by {
                    if self.locations@[i]@ == key@ {
                        assert(self.index@.contains_key(xxh3_of(self.locations@[i]@)));
                    }
                }
                None
            },
            Some(bucket) => {
                let mut t: usize = 0;
                while t < bucket.len()
                    invariant
                        self.wf(),
                        h == xxh3_of(key@),
                        self.index@.contains_key(h),
                        *bucket == self.index@[h],
                        n == self.locations@.len(),
                        t <= bucket@.len(),
                        forall|u: int|
                            0 <= u < t ==> self.locations@[(#[trigger] bucket@[u]) as int]@
                                != key@,
                    decreases bucket.len() - t,
                {
                    let j = bucket[t];
                    assert(j < self.locations@.len());
                    if bytes_eq(self.locations[j].as_slice(), key) {
                        return Some(j);
                    }
                    t = t + 1;
                }
                assert forall|i: int| 0 <= i < self.locations@.len() implies (
                #[trigger] self.locations@[i])@ != key@ by {
                    if self.locations@[i]@ == key@ {
                        assert(bucket@.contains(i as usize));
                        let u = choose|u: int| 0 <= u < bucket@.len() && bucket@[u] == i as usize;
                        assert(self.locations@[bucket@[u] as int]@ != key@);
                    }
                }
                None
            },
        }
    }
}

/// Byte-wise equality.
fn bytes_eq(a: &[u8], b: &[u8]) -> (r: bool)
    ensures
        r == (a@ == b@),
{
    if a.len() != b.len() {
        return false;
    }
    let mut i: usize = 0;
    while i < a.len()
        invariant
            i <= a.len(),
            a@.len() == b@.len(),
            forall|j: int| 0 <= j < i ==> a@[j] == b@[j],
        decreases a.len() - i,
    {
        if a[i] != b[i] {
            return false;
        }
        i = i + 1;
    }
    assert(a@ =~= b@);
    true
}

proof fn lemma_entries_update(ks: Seq<Seq<u8>>, ss: Seq<Summary>, j: int, x: Summary)
    requires
        ks.len() == ss.len(),
        ks.no_duplicates(),
        0 <= j < ks.len(),
    ensures
        entries_map(ks, ss.update(j, x)) == entries_map(ks, ss).insert(ks[j], x),
{
    let ss2 = ss.update(j, x);
    lemma_entries(ks, ss);
    lemma_entries(ks, ss2);
    assert forall|k: Seq<u8>| #[trigger] entries_map(ks, ss2).contains_key(k) implies entries_map(
        ks,
        ss2,
    )[k] == entries_map(ks, ss).insert(ks[j], x)[k] by {
        assert(ks.contains(k));
        let i = choose|i: int| 0 <= i < ks.len() && ks[i] == k;
        if i != j {
            assert(ks[i] != ks[j]);
        }
    }
    assert forall|k: Seq<u8>| #[trigger] entries_map(ks, ss).insert(ks[j], x).contains_key(k)
        implies entries_map(ks, ss2).contains_key(k) by {
        if k == ks[j] {
            assert(ks.contains(k));
        } else {
            assert(entries_map(ks, ss).contains_key(k));
            assert(ks.contains(k));
        }
    }
    assert(entries_map(ks, ss2) =~= entries_map(ks, ss).insert(ks[j], x));
}

/// Merging with no statistics changes nothing.
pub proof fn lemma_merge_empty(m: Stats)
    ensures
        merge_maps(m, Map::empty()) == m,
        merge_maps(Map::empty(), m) == m,
        entries_map(Seq::empty(), Seq::empty()) == Map::<Seq<u8>, Summary>::empty(),
{
    assert(merge_maps(m, Map::empty()) =~= m);
    assert(merge_maps(Map::empty(), m) =~= m);
}

/// Taking in one more entry of `other` extends the merge by that entry.
proof fn lemma_merge_step(m: Stats, ks: Seq<Seq<u8>>, ss: Seq<Summary>, i: int)
    requires
        ks.len() == ss.len(),
        ks.no_duplicates(),
        0 <= i < ks.len(),
    ensures
        merge_maps(m, entries_map(ks.take(i + 1), ss.take(i + 1))) == merge_entry(
            merge_maps(m, entries_map(ks.take(i), ss.take(i))),
            ks[i],
            ss[i],
        ),
{
    let ka = ks.take(i);
    let kb = ks.take(i + 1);
    assert(kb.drop_last() =~= ka);
    assert(ss.take(i + 1).drop_last() =~= ss.take(i));
    assert(ka.no_duplicates()) by {
        assert forall|p: int, q: int|
            0 <= p < ka.len() && 0 <= q < ka.len() && p != q implies ka[p] != ka[q] by {
            assert(ka[p] == ks[p] && ka[q] == ks[q]);
        }
    }
    lemma_entries(ka, ss.take(i));
    assert(!ka.contains(ks[i])) by {
        if ka.contains(ks[i]) {
            let p = choose|p: int| 0 <= p < ka.len() && ka[p] == ks[i];
            assert(ks[p] == ks[i]);
        }
    }
    assert(merge_maps(m, entries_map(kb, ss.take(i + 1))) =~= merge_entry(
        merge_maps(m, entries_map(ka, ss.take(i))),
        ks[i],
        ss[i],
    ));
}

proof fn lemma_count_sum_prefix(ss: Seq<Summary>, i: int)
    requires
        0 <= i < ss.len(),
    ensures
        count_sum(ss.take(i + 1)) == count_sum(ss.take(i)) + ss[i].count,
        count_sum(ss.take(i + 1)) <= count_sum(ss),
    decreases ss.len() - i,
{
    assert(ss.take(i + 1).drop_last() =~= ss.take(i));
    if i + 1 < ss.len() {
        lemma_count_sum_prefix(ss, i + 1);
    } else {
        assert(ss.take(i + 1) =~= ss);
    }
}

/// Keys and summaries read back from `entries_map`.
proof fn lemma_entries(ks: Seq<Seq<u8>>, ss: Seq<Summary>)
    requires
        ks.len() == ss.len(),
        ks.no_duplicates(),
    ensures
        forall|k: Seq<u8>| #[trigger] entries_map(ks, ss).contains_key(k) <==> ks.contains(k),
        forall|i: int| 0 <= i < ks.len() ==> entries_map(ks, ss)[#[trigger] ks[i]] == ss[i],
    decreases ks.len(),
{
    if ks.len() > 0 {
        let ks0 = ks.drop_last();
        let ss0 = ss.drop_last();
        assert(ks0.no_duplicates()) by {
            assert forall|i: int, j: int|
                0 <= i < ks0.len() && 0 <= j < ks0.len() && i != j implies ks0[i] != ks0[j] by {
                assert(ks0[i] == ks[i] && ks0[j] == ks[j]);
            }
        }
        lemma_entries(ks0, ss0);
        assert forall|k: Seq<u8>| #[trigger] entries_map(ks, ss).contains_key(k) <==> ks.contains(k) by {
            assert(entries_map(ks0, ss0).contains_key(k) <==> ks0.contains(k));
            if ks.contains(k) {
                let i = choose|i: int| 0 <= i < ks.len() && ks[i] == k;
                if i < ks.len() - 1 {
                    assert(ks0[i] == k);
                }
            }
            if ks0.contains(k) {
                let i = choose|i: int| 0 <= i < ks0.len() && ks0[i] == k;
                assert(ks[i] == k);
            }
        }
        assert forall|i: int| 0 <= i < ks.len() implies entries_map(ks, ss)[#[trigger] ks[i]]
            == ss[i] by {
            if i < ks.len() - 1 {
                assert(ks0[i] == ks[i]);
                assert(ks[i] != ks.last());
            }
        }
    }
}

proof fn lemma_dom_len(ks: Seq<Seq<u8>>, ss: Seq<Summary>)
    requires
        ks.len() == ss.len(),
        ks.no_duplicates(),
    ensures
        entries_map(ks, ss).dom().len() == ks.len(),
        entries_map(ks, ss).dom().finite(),
    decreases ks.len(),
{
    if ks.len() > 0 {
        let ks0 = ks.drop_last();
        assert(ks0.no_duplicates()) by {
            assert forall|i: int, j: int|
                0 <= i < ks0.len() && 0 <= j < ks0.len() && i != j implies ks0[i] != ks0[j] by {
                assert(ks0[i] == ks[i] && ks0[j] == ks[j]);
            }
        }
        lemma_dom_len(ks0, ss.drop_last());
        lemma_entries(ks0, ss.drop_last());
        assert(!ks0.contains(ks.last())) by {
            if ks0.contains(ks.last()) {
                let i = choose|i: int| 0 <= i < ks0.len() && ks0[i] == ks.last();
                assert(ks[i] == ks[ks.len() - 1]);
            }
        }
    }
}

proof fn lemma_count_sum_update(ss: Seq<Summary>, j: int, x: Summary)
    requires
        0 <= j < ss.len(),
    ensures
        count_sum(ss.update(j, x)) == count_sum(ss) - ss[j].count + x.count,
    decreases ss.len(),
{
    if j < ss.len() - 1 {
        lemma_count_sum_update(ss.drop_last(), j, x);
        assert(ss.update(j, x).drop_last() == ss.drop_last().update(j, x));
    } else {
        assert(ss.update(j, x).drop_last() == ss.drop_last());
    }
}

proof fn lemma_count_le_sum(ss: Seq<Summary>, j: int)
    requires
        0 <= j < ss.len(),
    ensures
        ss[j].count <= count_sum(ss),
    decreases ss.len(),
{
    if j < ss.len() - 1 {
        lemma_count_le_sum(ss.drop_last(), j);
    }
    lemma_count_sum_nonneg(ss.drop_last());
}

proof fn lemma_count_sum_nonneg(ss: Seq<Summary>)
    ensures
        count_sum(ss) >= 0,
    decreases ss.len(),
{
    if ss.len() > 0 {
        lemma_count_sum_nonneg(ss.drop_last());
    }
}

} // verus!
