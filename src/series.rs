//! The shared time axis and the history of every tracked metric.

use crate::chunk::{
    lemma_aligned_evict, lemma_aligned_step, lemma_evict_count, lemma_evict_keeps_sample, lemma_no_sample_empty, ValueChunk,
};
use crate::harvest::{CpuData, Data, MemHarvest};
use vstd::prelude::*;

verus! {

/// The sample of key `key` among `values`, absent past their end.
pub open spec fn sample_at<V>(values: Seq<Option<V>>, key: int) -> Option<V> {
    if 0 <= key < values.len() {
        values[key]
    } else {
        None
    }
}

/// The sum of `s`.
pub open spec fn sum_counts(s: Seq<nat>) -> nat
    decreases s.len(),
{
    if s.len() == 0 {
        0
    } else {
        sum_counts(s.drop_last()) + s.last()
    }
}

/// A sum over a subsequence of `b` (picked by the increasing `f`) of terms
/// no larger than those picked is at most the sum of `b`, and equal to it
/// when the terms are equal and every term not picked is 0.
proof fn lemma_sum_subsequence(a: Seq<nat>, b: Seq<nat>, f: Seq<int>)
    requires
        f.len() == a.len(),
        forall|i: int| 0 <= i < f.len() ==> 0 <= #[trigger] f[i] < b.len(),
        forall|i: int, j: int| 0 <= i < j < f.len() ==> #[trigger] f[i] < #[trigger] f[j],
        forall|i: int| 0 <= i < a.len() ==> #[trigger] a[i] <= b[f[i]],
    ensures
        sum_counts(a) <= sum_counts(b),
        (forall|i: int| 0 <= i < a.len() ==> #[trigger] a[i] == b[f[i]]) && (forall|x: int|
            0 <= x < b.len() && !f.contains(x) ==> #[trigger] b[x] == 0) ==> sum_counts(a) == sum_counts(b),
    decreases b.len(),
{
    if b.len() == 0 {
        if a.len() > 0 {
            assert(0 <= f[0] < b.len());
        }
    } else {
        let last = b.len() - 1;
        let bl = b.drop_last();
        if a.len() > 0 && f[a.len() - 1] == last {
            let al = a.drop_last();
            let fl = f.drop_last();
            assert forall|i: int| 0 <= i < fl.len() implies 0 <= #[trigger] fl[i] < bl.len() by {
                assert(f[i] < f[a.len() - 1]);
            }
            lemma_sum_subsequence(al, bl, fl);
            if (forall|i: int| 0 <= i < a.len() ==> #[trigger] a[i] == b[f[i]]) && (forall|x: int|
                0 <= x < b.len() && !f.contains(x) ==> #[trigger] b[x] == 0) {
                assert forall|x: int| 0 <= x < bl.len() && !fl.contains(x) implies #[trigger] bl[x] == 0 by {
                    if f.contains(x) {
                        let w = choose|w: int| 0 <= w < f.len() && f[w] == x;
                        assert(w != a.len() - 1);
                        assert(fl[w] == x);
                    }
                    assert(b[x] == 0);
                }
                assert forall|i: int| 0 <= i < al.len() implies #[trigger] al[i] == bl[fl[i]] by {
                    assert(f[i] < f[a.len() - 1]);
                    assert(a[i] == b[f[i]]);
                }
                lemma_sum_subsequence(al, bl, fl);
            }
        } else {
            assert forall|i: int| 0 <= i < f.len() implies 0 <= #[trigger] f[i] < bl.len() by {
                if f[i] == last {
                    assert(f[i] <= f[a.len() - 1]) by {
                        if i < a.len() - 1 {
                            assert(f[i] < f[a.len() - 1]);
                        }
                    }
                }
            }
            lemma_sum_subsequence(a, bl, f);
            if (forall|i: int| 0 <= i < a.len() ==> #[trigger] a[i] == b[f[i]]) && (forall|x: int|
                0 <= x < b.len() && !f.contains(x) ==> #[trigger] b[x] == 0) {
                assert(!f.contains(last)) by {
                    if f.contains(last) {
                        let w = choose|w: int| 0 <= w < f.len() && f[w] == last;
                        assert(f[w] < bl.len());
                    }
                }
                assert(b[last] == 0);
                assert forall|x: int| 0 <= x < bl.len() && !f.contains(x) implies #[trigger] bl[x] == 0 by {
                    assert(b[x] == 0);
                }
                assert forall|i: int| 0 <= i < a.len() implies #[trigger] a[i] == bl[f[i]] by {
                    assert(a[i] == b[f[i]]);
                }
                lemma_sum_subsequence(a, bl, f);
            }
        }
    }
}

/// Histories keyed by a stable index (a core or a device), created at the
/// first sample of a key and dropped once eviction leaves them empty.
pub struct IndexedSeries<V> {
    /// Each key with its history; no key occurs twice.
    pub entries: Vec<(usize, ValueChunk<V>)>,
}

impl<V> IndexedSeries<V> {
    /// Every history is aligned with an axis of `n` indices, and no key
    /// occurs twice.
    pub open spec fn aligned(&self, n: int) -> bool {
        &&& forall|i: int| 0 <= i < self.entries@.len() ==> (#[trigger] self.entries@[i]).1.aligned(n)
        &&& forall|i: int, j: int|
            0 <= i < j < self.entries@.len() ==> (#[trigger] self.entries@[i]).0 != (#[trigger] self.entries@[j]).0
    }

    /// The number of samples retained over all entries.
    pub open spec fn retained_count(&self) -> nat {
        sum_counts(self.entries@.map_values(|e: (usize, ValueChunk<V>)| e.1.retained_count()))
    }

    /// Whether some entry has key `key`.
    pub open spec fn has_key(&self, key: int) -> bool {
        exists|i: int| 0 <= i < self.entries@.len() && (#[trigger] self.entries@[i]).0 == key
    }

    /// `self` is `before` after a step of the axis at `index` that brought
    /// `values`, where position `p` holds the sample of key `p`: every tracked
    /// key records its sample or a gap, and each new key with a sample gets a
    /// history of that one sample, after the existing entries.
    pub open spec fn recorded_from(&self, before: &Self, values: Seq<Option<V>>, index: int) -> bool {
        let old_len = before.entries@.len();
        &&& old_len <= self.entries@.len()
        &&& forall|i: int|
            0 <= i < old_len ==> {
                &&& (#[trigger] self.entries@[i]).0 == before.entries@[i].0
                &&& self.entries@[i].1.recorded_from(
                    &before.entries@[i].1,
                    sample_at(values, before.entries@[i].0 as int),
                    index,
                )
            }
        &&& forall|i: int|
            old_len <= i < self.entries@.len() ==> {
                let key = (#[trigger] self.entries@[i]).0 as int;
                let vc = self.entries@[i].1;
                &&& !before.has_key(key)
                &&& sample_at(values, key) is Some
                &&& vc.previous_chunks@.len() == 0
                &&& vc.current is Some
                &&& vc.current->0.start_offset == index
                &&& vc.current->0.end_offset == index + 1
                &&& vc.current->0.data@ == seq![sample_at(values, key)->0]
            }
        &&& forall|p: int| 0 <= p < values.len() && (#[trigger] values[p]) is Some ==> self.has_key(p)
    }

    /// `self` is `before` with `k` indices cut off the axis, where `f` maps
    /// each entry of `self` to the entry of `before` it comes from: entries
    /// keep their order, each kept history is evicted and still holds a
    /// sample, and each dropped one held none at index `k` or later.
    pub open spec fn evicted_through(&self, before: &Self, k: int, f: Seq<int>) -> bool {
        let b = before.entries@;
        let a = self.entries@;
        &&& f.len() == a.len()
        &&& forall|i: int|
            0 <= i < a.len() ==> {
                &&& 0 <= #[trigger] f[i] < b.len()
                &&& a[i].0 == b[f[i]].0
                &&& a[i].1.evicted_from(&b[f[i]].1, k)
                &&& a[i].1.has_data()
            }
        &&& forall|i: int, j: int| 0 <= i < j < a.len() ==> #[trigger] f[i] < #[trigger] f[j]
        &&& forall|x: int| 0 <= x < b.len() && !f.contains(x) ==> !(#[trigger] b[x]).1.keeps_sample(k)
    }

    /// `self` is `before` with `k` indices cut off the axis.
    pub open spec fn evicted_from(&self, before: &Self, k: int) -> bool {
        exists|f: Seq<int>| self.evicted_through(before, k, f)
    }

    /// No history yet.
    pub fn new() -> (r: Self)
        ensures
            r.entries@.len() == 0,
    {
        IndexedSeries { entries: Vec::new() }
    }

    /// Cuts the indices below `k` off the axis of every history, and drops
    /// the histories left without a sample.
    pub(crate) fn evict(&mut self, k: usize, Ghost(n): Ghost<int>)
        requires
            old(self).aligned(n),
            k <= n,
        ensures
            final(self).aligned(n - k),
            final(self).evicted_from(old(self), k as int),
    {
        let mut rest = self.entries.split_off(0);
        let ghost orig = rest@;
        let total_count = rest.len();
        let ghost total = total_count as int;
        let ghost mut f: Seq<int> = Seq::empty();
        let mut consumed: usize = 0;
        while rest.len() > 0
            invariant
                total == orig.len(),
                total <= usize::MAX,
                orig == old(self).entries@,
                consumed + rest@.len() == total,
                rest@ == orig.subrange(consumed as int, total as int),
                f.len() == self.entries@.len(),
                forall|i: int|
                    0 <= i < self.entries@.len() ==> {
                        &&& 0 <= #[trigger] f[i] < consumed
                        &&& self.entries@[i].0 == orig[f[i]].0
                        &&& self.entries@[i].1.evicted_from(&orig[f[i]].1, k as int)
                        &&& self.entries@[i].1.has_data()
                        &&& self.entries@[i].1.aligned(n - k)
                    },
                forall|i: int, j: int| 0 <= i < j < self.entries@.len() ==> #[trigger] f[i] < #[trigger] f[j],
                forall|x: int| 0 <= x < consumed && !f.contains(x) ==> !(#[trigger] orig[x]).1.keeps_sample(k as int),
                forall|x: int| 0 <= x < total ==> (#[trigger] orig[x]).1.aligned(n),
                forall|x: int, y: int| 0 <= x < y < total ==> (#[trigger] orig[x]).0 != (#[trigger] orig[y]).0,
                k <= n,
            decreases rest@.len(),
        {
            let ghost before_f = f;
            let ghost before_entries = self.entries@;
            let (key, mut vc) = rest.remove(0);
            proof {
                assert(orig.subrange(consumed as int, total as int)[0] == orig[consumed as int]);
                assert(rest@ =~= orig.subrange(consumed + 1, total as int));
            }
            let ghost vc0 = vc;
            vc.evict(k);
            proof {
                lemma_aligned_evict(vc0, vc, k as int, n);
            }
            if !vc.is_empty() {
                self.entries.push((key, vc));
                proof {
                    f = f.push(consumed as int);
                    assert forall|i: int| 0 <= i < self.entries@.len() implies {
                        &&& 0 <= #[trigger] f[i] < consumed + 1
                        &&& self.entries@[i].0 == orig[f[i]].0
                        &&& self.entries@[i].1.evicted_from(&orig[f[i]].1, k as int)
                        &&& self.entries@[i].1.has_data()
                        &&& self.entries@[i].1.aligned(n - k)
                    } by {
                        if i < before_entries.len() {
                            assert(f[i] == before_f[i]);
                            assert(self.entries@[i] == before_entries[i]);
                        }
                    }
                    assert forall|x: int| 0 <= x < consumed + 1 && !f.contains(x) implies !(#[trigger] orig[x]).1.keeps_sample(k as int) by {
                        if x < consumed {
                            if before_f.contains(x) {
                                let w = choose|w: int| 0 <= w < before_f.len() && before_f[w] == x;
                                assert(f[w] == x);
                            }
                        } else {
                            assert(f[f.len() - 1] == x);
                        }
                    }
                }
            } else {
                proof {
                    if orig[consumed as int].1.keeps_sample(k as int) {
                        lemma_evict_keeps_sample(vc0, vc, k as int);
                    }
                    assert forall|x: int| 0 <= x < consumed + 1 && !f.contains(x) implies !(#[trigger] orig[x]).1.keeps_sample(k as int) by {}
                }
            }
            consumed = consumed + 1;
        }
        proof {
            assert forall|i: int, j: int| 0 <= i < j < self.entries@.len() implies (#[trigger] self.entries@[i]).0 != (#[trigger] self.entries@[j]).0 by {
                assert(f[i] < f[j]);
                assert(orig[f[i]].0 != orig[f[j]].0);
            }
            assert forall|i: int| 0 <= i < self.entries@.len() implies (#[trigger] self.entries@[i]).1.aligned(n - k) by {
                assert(0 <= f[i]);
            }
            assert(self.evicted_through(old(self), k as int, f));
        }
    }
}

impl<V: Copy> IndexedSeries<V> {
    /// Records one step of the axis at `index`: each tracked key appends its
    /// sample from `values` (position `p` holds the sample of key `p`) or
    /// seals a gap, and each new key with a sample gets a history.
    pub fn record(&mut self, values: &Vec<Option<V>>, index: usize)
        requires
            old(self).aligned(index as int),
            index < usize::MAX,
        ensures
            final(self).aligned(index + 1),
            final(self).recorded_from(old(self), values@, index as int),
    {
        let n_values = values.len();
        let mut seen: Vec<bool> = Vec::new();
        let mut p: usize = 0;
        while p < n_values
            invariant
                p <= n_values,
                n_values == values@.len(),
                seen@.len() == p,
                forall|q: int| 0 <= q < p ==> !(#[trigger] seen@[q]),
            decreases n_values - p,
        {
            seen.push(false);
            p = p + 1;
        }
        let old_len = self.entries.len();
        let mut j: usize = 0;
        while j < old_len
            invariant
                old_len == self.entries@.len(),
                old_len == old(self).entries@.len(),
                j <= old_len,
                n_values == values@.len(),
                seen@.len() == n_values,
                index < usize::MAX,
                old(self).aligned(index as int),
                forall|i: int|
                    0 <= i < j ==> {
                        &&& (#[trigger] self.entries@[i]).0 == old(self).entries@[i].0
                        &&& self.entries@[i].1.recorded_from(
                            &old(self).entries@[i].1,
                            sample_at(values@, old(self).entries@[i].0 as int),
                            index as int,
                        )
                        &&& self.entries@[i].1.aligned(index + 1)
                    },
                forall|i: int| j <= i < old_len ==> #[trigger] self.entries@[i] == old(self).entries@[i],
                forall|q: int|
                    0 <= q < n_values ==> (#[trigger] seen@[q] <==> exists|i: int|
                        0 <= i < j && (#[trigger] old(self).entries@[i]).0 == q),
            decreases old_len - j,
        {
            let key = self.entries[j].0;
            let sample: Option<V> = if key < n_values {
                values[key]
            } else {
                None
            };
            let ghost before = self.entries@;
            let ghost vc0 = self.entries@[j as int].1;
            proof {
                assert(before[j as int] == old(self).entries@[j as int]);
                assert(vc0.aligned(index as int));
            }
            match sample {
                Some(v) => {
                    self.entries[j].1.add(v, index);
                },
                None => {
                    self.entries[j].1.end_chunk();
                },
            }
            proof {
                lemma_aligned_step(vc0, self.entries@[j as int].1, sample, index as int);
                assert forall|i: int| 0 <= i < old_len && i != j implies #[trigger] self.entries@[i] == before[i] by {}
            }
            let ghost seen0 = seen@;
            if key < n_values {
                seen.set(key, true);
            }
            proof {
                assert forall|q: int|
                    0 <= q < n_values implies (#[trigger] seen@[q] <==> exists|i: int|
                        0 <= i < j + 1 && (#[trigger] old(self).entries@[i]).0 == q) by {
                    if q == key {
                        assert(old(self).entries@[j as int].0 == q);
                    } else {
                        assert(seen@[q] == seen0[q]);
                        if exists|i: int| 0 <= i < j + 1 && (#[trigger] old(self).entries@[i]).0 == q {
                            let i = choose|i: int| 0 <= i < j + 1 && (#[trigger] old(self).entries@[i]).0 == q;
                            assert(i != j);
                        }
                    }
                }
            }
            j = j + 1;
        }
        let ghost mid = self.entries@;
        let mut p: usize = 0;
        while p < n_values
            invariant
                old_len == old(self).entries@.len(),
                old_len <= self.entries@.len(),
                p <= n_values,
                n_values == values@.len(),
                seen@.len() == n_values,
                index < usize::MAX,
                mid.len() == old_len,
                forall|i: int| 0 <= i < old_len ==> #[trigger] self.entries@[i] == mid[i],
                forall|i: int|
                    0 <= i < old_len ==> {
                        &&& (#[trigger] mid[i]).0 == old(self).entries@[i].0
                        &&& mid[i].1.recorded_from(
                            &old(self).entries@[i].1,
                            sample_at(values@, old(self).entries@[i].0 as int),
                            index as int,
                        )
                        &&& mid[i].1.aligned(index + 1)
                    },
                forall|q: int|
                    0 <= q < n_values ==> (#[trigger] seen@[q] <==> old(self).has_key(q)),
                forall|i: int|
                    old_len <= i < self.entries@.len() ==> {
                        let key = (#[trigger] self.entries@[i]).0 as int;
                        let vc = self.entries@[i].1;
                        &&& key < p
                        &&& !old(self).has_key(key)
                        &&& sample_at(values@, key) is Some
                        &&& vc.previous_chunks@.len() == 0
                        &&& vc.current is Some
                        &&& vc.current->0.start_offset == index
                        &&& vc.current->0.end_offset == index + 1
                        &&& vc.current->0.data@ == seq![sample_at(values@, key)->0]
                        &&& vc.aligned(index + 1)
                    },
                forall|i: int, k: int|
                    old_len <= i < k < self.entries@.len() ==> (#[trigger] self.entries@[i]).0 < (#[trigger] self.entries@[k]).0,
                forall|q: int| 0 <= q < p && (#[trigger] values@[q]) is Some ==> self.has_key(q),
            decreases n_values - p,
        {
            if !seen[p] {
                match values[p] {
                    Some(v) => {
                        let mut vc: ValueChunk<V> = ValueChunk::new();
                        let ghost vc0 = vc;
                        vc.add(v, index);
                        proof {
                            lemma_aligned_step(vc0, vc, Some(v), index as int);
                        }
                        let ghost before = self.entries@;
                        self.entries.push((p, vc));
                        proof {
                            assert(self.entries@[self.entries@.len() - 1].0 == p);
                            assert forall|q: int| 0 <= q < p + 1 && (#[trigger] values@[q]) is Some implies self.has_key(q) by {
                                if q < p {
                                    let i = choose|i: int| 0 <= i < before.len() && (#[trigger] before[i]).0 == q;
                                    assert(self.entries@[i] == before[i]);
                                }
                            }
                        }
                    },
                    None => {},
                }
            } else {
                proof {
                    let i = choose|i: int| 0 <= i < old(self).entries@.len() && (#[trigger] old(self).entries@[i]).0 == p;
                    assert(self.entries@[i].0 == p);
                }
            }
            p = p + 1;
        }
        proof {
            assert forall|i: int, k: int| 0 <= i < k < self.entries@.len() implies (#[trigger] self.entries@[i]).0 != (#[trigger] self.entries@[k]).0 by {
                if k < old_len {
                    assert(old(self).entries@[i].0 != old(self).entries@[k].0);
                } else if i < old_len {
                    assert(old(self).has_key(self.entries@[i].0 as int)) by {
                        assert(old(self).entries@[i].0 == self.entries@[i].0);
                    }
                }
            }
        }
    }
}

/// The sample of a memory pool: its reading when it has a size, for
/// there is no usage percentage of an empty pool.
pub open spec fn mem_sample(m: Option<MemHarvest>) -> Option<MemHarvest> {
    match m {
        Some(h) => if h.total_bytes > 0 {
            Some(h)
        } else {
            None
        },
        None => None,
    }
}

/// The received-rate sample of a snapshot.
pub open spec fn rx_sample<F>(d: &Data<F>) -> Option<u64> {
    match d.network {
        Some(nw) => Some(nw.rx),
        None => None,
    }
}

/// The transmitted-rate sample of a snapshot.
pub open spec fn tx_sample<F>(d: &Data<F>) -> Option<u64> {
    match d.network {
        Some(nw) => Some(nw.tx),
        None => None,
    }
}

/// The per-CPU samples of a snapshot, by position.
pub open spec fn cpu_samples<F>(d: &Data<F>) -> Seq<Option<F>> {
    match d.cpu {
        Some(list) => list@.map_values(|c: CpuData<F>| Some(c.cpu_usage)),
        None => Seq::empty(),
    }
}

/// The per-GPU memory samples of a snapshot, by position.
pub open spec fn gpu_samples<F>(d: &Data<F>) -> Seq<Option<MemHarvest>> {
    match d.gpu {
        Some(list) => list@.map_values(|g: (String, MemHarvest)| mem_sample(Some(g.1))),
        None => Seq::empty(),
    }
}

/// Whether `now - t` exceeds `max_age`.
pub open spec fn is_stale(now: u64, t: u64, max_age: u64) -> bool {
    now - t > max_age
}

/// The history of every tracked metric on one shared time axis; `F` is the
/// type of fractional readings.
pub struct TimeSeriesData<F> {
    /// When the last sample was taken, in milliseconds.
    pub current_time: u64,
    /// For each index of the axis, the milliseconds since the sample before.
    pub time_offsets: Vec<u32>,
    /// For each index `i` of the axis, in order: when it was taken, `i` and
    /// `i + 1`, the range of indices it made valid.
    pub offset_ranges: Vec<(u64, usize, usize)>,
    /// Network receive rate.
    pub rx: ValueChunk<u64>,
    /// Network transmit rate.
    pub tx: ValueChunk<u64>,
    /// CPU usage, by core position.
    pub cpu: IndexedSeries<F>,
    /// Main memory.
    pub mem: ValueChunk<MemHarvest>,
    /// Swap.
    pub swap: ValueChunk<MemHarvest>,
    /// Cache memory.
    pub cache_mem: ValueChunk<MemHarvest>,
    /// ZFS ARC memory.
    pub arc_mem: ValueChunk<MemHarvest>,
    /// GPU memory, by device position.
    pub gpu_mem: IndexedSeries<MemHarvest>,
}

impl<F> TimeSeriesData<F> {
    /// The ledger holds one entry per index of the axis, in order of time and
    /// no later than the last sample, and every history is aligned with the
    /// axis.
    pub open spec fn wf(&self) -> bool {
        let n = self.time_offsets@.len() as int;
        let ledger = self.offset_ranges@;
        &&& ledger.len() == n
        &&& forall|j: int| 0 <= j < n ==> (#[trigger] ledger[j]).1 == j && ledger[j].2 == j + 1
        &&& forall|i: int, j: int| 0 <= i < j < n ==> (#[trigger] ledger[i]).0 <= (#[trigger] ledger[j]).0
        &&& forall|j: int| 0 <= j < n ==> (#[trigger] ledger[j]).0 <= self.current_time
        &&& self.rx.aligned(n)
        &&& self.tx.aligned(n)
        &&& self.cpu.aligned(n)
        &&& self.mem.aligned(n)
        &&& self.swap.aligned(n)
        &&& self.cache_mem.aligned(n)
        &&& self.arc_mem.aligned(n)
        &&& self.gpu_mem.aligned(n)
    }

    /// `self` is `before` after adding the snapshot `data` at the next index
    /// `i` of the axis: the time since the last sample and the ledger entry
    /// `(time, i, i + 1)` are recorded, each metric present is appended to its
    /// history, and a gap is sealed in each absent one.
    pub open spec fn added_from(&self, before: &Self, data: &Data<F>) -> bool {
        let i = before.time_offsets@.len() as int;
        &&& self.current_time == data.collection_time
        &&& self.time_offsets@ == before.time_offsets@.push((data.collection_time - before.current_time) as u32)
        &&& self.offset_ranges@ == before.offset_ranges@.push((data.collection_time, i as usize, (i + 1) as usize))
        &&& self.rx.recorded_from(&before.rx, rx_sample(data), i)
        &&& self.tx.recorded_from(&before.tx, tx_sample(data), i)
        &&& self.cpu.recorded_from(&before.cpu, cpu_samples(data), i)
        &&& self.mem.recorded_from(&before.mem, mem_sample(data.memory), i)
        &&& self.swap.recorded_from(&before.swap, mem_sample(data.swap), i)
        &&& self.cache_mem.recorded_from(&before.cache_mem, mem_sample(data.cache), i)
        &&& self.arc_mem.recorded_from(&before.arc_mem, mem_sample(data.arc), i)
        &&& self.gpu_mem.recorded_from(&before.gpu_mem, gpu_samples(data), i)
    }

    /// `self` is `before` with everything older than `max_age` before `now`
    /// dropped: the first `k` ledger entries, exactly the stale ones, go with
    /// their axis indices, and every history loses its samples below `k` and
    /// is rebased.
    pub open spec fn pruned_from(&self, before: &Self, now: u64, max_age: u64) -> bool {
        let n = before.time_offsets@.len() as int;
        let k = n - self.time_offsets@.len();
        &&& self.current_time == before.current_time
        &&& 0 <= k <= n
        &&& forall|j: int| 0 <= j < k ==> is_stale(now, (#[trigger] before.offset_ranges@[j]).0, max_age)
        &&& forall|j: int| k <= j < n ==> !is_stale(now, (#[trigger] before.offset_ranges@[j]).0, max_age)
        &&& self.time_offsets@ == before.time_offsets@.subrange(k, n)
        &&& forall|j: int| 0 <= j < n - k ==> (#[trigger] self.offset_ranges@[j]).0 == before.offset_ranges@[j + k].0
        &&& self.rx.evicted_from(&before.rx, k)
        &&& self.tx.evicted_from(&before.tx, k)
        &&& self.cpu.evicted_from(&before.cpu, k)
        &&& self.mem.evicted_from(&before.mem, k)
        &&& self.swap.evicted_from(&before.swap, k)
        &&& self.cache_mem.evicted_from(&before.cache_mem, k)
        &&& self.arc_mem.evicted_from(&before.arc_mem, k)
        &&& self.gpu_mem.evicted_from(&before.gpu_mem, k)
    }

    /// An empty store whose clock starts at `start_time`.
    pub fn new(start_time: u64) -> (r: Self)
        ensures
            r.wf(),
            r.current_time == start_time,
            r.time_offsets@.len() == 0,
            r.rx.current is None && r.rx.previous_chunks@.len() == 0,
            r.tx.current is None && r.tx.previous_chunks@.len() == 0,
            r.cpu.entries@.len() == 0,
            r.mem.current is None && r.mem.previous_chunks@.len() == 0,
            r.swap.current is None && r.swap.previous_chunks@.len() == 0,
            r.cache_mem.current is None && r.cache_mem.previous_chunks@.len() == 0,
            r.arc_mem.current is None && r.arc_mem.previous_chunks@.len() == 0,
            r.gpu_mem.entries@.len() == 0,
    {
        TimeSeriesData {
            current_time: start_time,
            time_offsets: Vec::new(),
            offset_ranges: Vec::new(),
            rx: ValueChunk::new(),
            tx: ValueChunk::new(),
            cpu: IndexedSeries::new(),
            mem: ValueChunk::new(),
            swap: ValueChunk::new(),
            cache_mem: ValueChunk::new(),
            arc_mem: ValueChunk::new(),
            gpu_mem: IndexedSeries::new(),
        }
    }
}

/// Appends to `series` at `index` when there is a sample, else seals it.
fn record_one<V>(series: &mut ValueChunk<V>, sample: Option<V>, index: usize)
    requires
        old(series).aligned(index as int),
        index < usize::MAX,
    ensures
        final(series).aligned(index + 1),
        final(series).recorded_from(old(series), sample, index as int),
{
    let ghost s0 = *series;
    match sample {
        Some(v) => series.add(v, index),
        None => series.end_chunk(),
    }
    proof {
        lemma_aligned_step(s0, *series, sample, index as int);
    }
}

/// Cuts the indices below `k` off the axis of `series`.
fn evict_one<V>(series: &mut ValueChunk<V>, k: usize, Ghost(n): Ghost<int>)
    requires
        old(series).aligned(n),
        k <= n,
    ensures
        final(series).aligned(n - k),
        final(series).evicted_from(old(series), k as int),
{
    let ghost s0 = *series;
    series.evict(k);
    proof {
        lemma_aligned_evict(s0, *series, k as int, n);
    }
}

/// The sample of a memory pool, when it has a size.
fn mem_value(m: Option<MemHarvest>) -> (r: Option<MemHarvest>)
    ensures
        r == mem_sample(m),
{
    match m {
        Some(h) => if h.has_percent() {
            Some(h)
        } else {
            None
        },
        None => None,
    }
}

impl<F: Copy> TimeSeriesData<F> {
    /// Drops everything older than `max_age` milliseconds before the last
    /// sample (see [`TimeSeriesData::prune_at`]).
    pub fn prune(&mut self, max_age: u64)
        requires
            old(self).wf(),
        ensures
            final(self).wf(),
            final(self).pruned_from(old(self), old(self).current_time, max_age),
    {
        let now = self.current_time;
        self.prune_at(now, max_age);
    }

    /// Drops everything older than `max_age` milliseconds before `now`: the
    /// ledger is searched for the first entry that is not stale, whose index
    /// `k` becomes the new index 0; the axis and ledger lose their first `k`
    /// entries, every history loses its samples below `k` and is rebased, and
    /// per-core and per-device histories left empty are dropped.
    pub fn prune_at(&mut self, now: u64, max_age: u64)
        requires
            old(self).wf(),
            old(self).current_time <= now,
        ensures
            final(self).wf(),
            final(self).pruned_from(old(self), now, max_age),
    {
        let n = self.offset_ranges.len();
        let mut lo: usize = 0;
        let mut hi: usize = n;
        while lo < hi
            invariant
                lo <= hi <= n,
                n == self.offset_ranges@.len(),
                self == old(self),
                old(self).wf(),
                self.current_time <= now,
                forall|j: int| 0 <= j < lo ==> is_stale(now, (#[trigger] self.offset_ranges@[j]).0, max_age),
                forall|j: int| hi <= j < n ==> !is_stale(now, (#[trigger] self.offset_ranges@[j]).0, max_age),
            decreases hi - lo,
        {
            let mid = lo + (hi - lo) / 2;
            let t = self.offset_ranges[mid].0;
            proof {
                assert(self.offset_ranges@[mid as int].0 <= now);
            }
            if now - t > max_age {
                proof {
                    assert forall|j: int| 0 <= j < mid + 1 implies is_stale(now, (#[trigger] self.offset_ranges@[j]).0, max_age) by {
                        if j < mid {
                            assert(self.offset_ranges@[j].0 <= self.offset_ranges@[mid as int].0);
                        }
                    }
                }
                lo = mid + 1;
            } else {
                proof {
                    assert forall|j: int| mid <= j < n implies !is_stale(now, (#[trigger] self.offset_ranges@[j]).0, max_age) by {
                        if j > mid {
                            assert(self.offset_ranges@[mid as int].0 <= self.offset_ranges@[j].0);
                        }
                    }
                }
                hi = mid;
            }
        }
        let k = lo;
        let ghost old_ledger = self.offset_ranges@;
        let offsets_tail = self.time_offsets.split_off(k);
        self.time_offsets = offsets_tail;
        let ledger_tail = self.offset_ranges.split_off(k);
        let mut ledger: Vec<(u64, usize, usize)> = Vec::new();
        let mut j: usize = 0;
        while j < ledger_tail.len()
            invariant
                j <= ledger_tail@.len(),
                ledger_tail@ == old_ledger.subrange(k as int, n as int),
                ledger@.len() == j,
                forall|x: int| 0 <= x < j ==> (#[trigger] ledger@[x]) == (ledger_tail@[x].0, x as usize, (x + 1) as usize),
            decreases ledger_tail@.len() - j,
        {
            let entry = ledger_tail[j];
            ledger.push((entry.0, j, j + 1));
            j = j + 1;
        }
        self.offset_ranges = ledger;
        let ghost m = n as int;
        evict_one(&mut self.rx, k, Ghost(m));
        evict_one(&mut self.tx, k, Ghost(m));
        self.cpu.evict(k, Ghost(m));
        evict_one(&mut self.mem, k, Ghost(m));
        evict_one(&mut self.swap, k, Ghost(m));
        evict_one(&mut self.cache_mem, k, Ghost(m));
        evict_one(&mut self.arc_mem, k, Ghost(m));
        self.gpu_mem.evict(k, Ghost(m));
        proof {
            let ledger = self.offset_ranges@;
            assert forall|x: int, y: int| 0 <= x < y < ledger.len() implies (#[trigger] ledger[x]).0 <= (#[trigger] ledger[y]).0 by {
                assert(old_ledger[x + k].0 <= old_ledger[y + k].0);
            }
            assert forall|x: int| 0 <= x < ledger.len() implies (#[trigger] ledger[x]).0 <= self.current_time by {
                assert(old_ledger[x + k].0 <= self.current_time);
            }
        }
    }

    /// Adds a snapshot at the next index `i` of the axis: records the time
    /// since the last sample and the ledger entry `(time, i, i + 1)`, appends
    /// each metric present to its history, and seals a gap in each absent one.
    pub fn add(&mut self, data: &Data<F>)
        requires
            old(self).wf(),
            old(self).current_time <= data.collection_time,
            old(self).time_offsets@.len() < usize::MAX - 1,
        ensures
            final(self).wf(),
            final(self).added_from(old(self), data),
    {
        let index = self.time_offsets.len();
        let delta = data.collection_time - self.current_time;
        self.current_time = data.collection_time;
        self.time_offsets.push(delta as u32);
        self.offset_ranges.push((data.collection_time, index, index + 1));

        let (rx, tx) = match &data.network {
            Some(nw) => (Some(nw.rx), Some(nw.tx)),
            None => (None, None),
        };
        record_one(&mut self.rx, rx, index);
        record_one(&mut self.tx, tx, index);
        record_one(&mut self.mem, mem_value(data.memory), index);
        record_one(&mut self.swap, mem_value(data.swap), index);
        record_one(&mut self.cache_mem, mem_value(data.cache), index);
        record_one(&mut self.arc_mem, mem_value(data.arc), index);

        let mut cpu_values: Vec<Option<F>> = Vec::new();
        if let Some(cpu) = &data.cpu {
            let mut i: usize = 0;
            while i < cpu.len()
                invariant
                    i <= cpu@.len(),
                    cpu_values@ == cpu@.subrange(0, i as int).map_values(|c: CpuData<F>| Some(c.cpu_usage)),
                decreases cpu@.len() - i,
            {
                cpu_values.push(Some(cpu[i].cpu_usage));
                proof {
                    assert(cpu@.subrange(0, i + 1).map_values(|c: CpuData<F>| Some(c.cpu_usage)) =~= cpu_values@);
                }
                i = i + 1;
            }
            proof {
                assert(cpu@.subrange(0, cpu@.len() as int) =~= cpu@);
            }
        }
        proof {
            assert(cpu_values@ =~= cpu_samples(data));
        }
        self.cpu.record(&cpu_values, index);

        let mut gpu_values: Vec<Option<MemHarvest>> = Vec::new();
        if let Some(gpu) = &data.gpu {
            let mut i: usize = 0;
            while i < gpu.len()
                invariant
                    i <= gpu@.len(),
                    gpu_values@ == gpu@.subrange(0, i as int).map_values(|g: (String, MemHarvest)| mem_sample(Some(g.1))),
                decreases gpu@.len() - i,
            {
                gpu_values.push(mem_value(Some(gpu[i].1)));
                proof {
                    assert(gpu@.subrange(0, i + 1).map_values(|g: (String, MemHarvest)| mem_sample(Some(g.1))) =~= gpu_values@);
                }
                i = i + 1;
            }
            proof {
                assert(gpu@.subrange(0, gpu@.len() as int) =~= gpu@);
            }
        }
        proof {
            assert(gpu_values@ =~= gpu_samples(data));
        }
        self.gpu_mem.record(&gpu_values, index);
    }
}

/// Cutting `k` indices off keyed histories never adds a sample; cutting none
/// off histories that all hold a sample keeps every sample.
proof fn lemma_indexed_evict_count<V>(before: IndexedSeries<V>, after: IndexedSeries<V>, k: int, n: int)
    requires
        before.aligned(n),
        after.evicted_from(&before, k),
        k >= 0,
    ensures
        after.retained_count() <= before.retained_count(),
        k == 0 && (forall|i: int| 0 <= i < before.entries@.len() ==> (#[trigger] before.entries@[i]).1.has_data())
            ==> after.retained_count() == before.retained_count(),
{
    let f = choose|f: Seq<int>| after.evicted_through(&before, k, f);
    let a = after.entries@.map_values(|e: (usize, ValueChunk<V>)| e.1.retained_count());
    let b = before.entries@.map_values(|e: (usize, ValueChunk<V>)| e.1.retained_count());
    assert forall|i: int| 0 <= i < a.len() implies #[trigger] a[i] <= b[f[i]] && (k == 0 ==> a[i] == b[f[i]]) by {
        assert(0 <= f[i] < before.entries@.len());
        assert(before.entries@[f[i]].1.aligned(n));
        lemma_evict_count(before.entries@[f[i]].1, after.entries@[i].1, k);
    }
    lemma_sum_subsequence(a, b, f);
    if k == 0 && (forall|i: int| 0 <= i < before.entries@.len() ==> (#[trigger] before.entries@[i]).1.has_data()) {
        assert forall|x: int| 0 <= x < b.len() && !f.contains(x) implies #[trigger] b[x] == 0 by {
            let vc = before.entries@[x].1;
            assert(vc.aligned(n));
            assert(!vc.keeps_sample(0));
            lemma_no_sample_empty(vc);
        }
        assert forall|i: int| 0 <= i < a.len() implies #[trigger] a[i] == b[f[i]] by {}
    }
}

impl<F> TimeSeriesData<F> {
    /// The number of samples retained over every history.
    pub open spec fn retained_count(&self) -> nat {
        self.rx.retained_count() + self.tx.retained_count() + self.cpu.retained_count() + self.mem.retained_count()
            + self.swap.retained_count() + self.cache_mem.retained_count() + self.arc_mem.retained_count()
            + self.gpu_mem.retained_count()
    }
}

/// Pruning the store never adds a sample nor an index of the axis.
pub proof fn lemma_store_prune_never_grows<F>(before: TimeSeriesData<F>, after: TimeSeriesData<F>, now: u64, max_age: u64)
    requires
        before.wf(),
        after.pruned_from(&before, now, max_age),
    ensures
        after.retained_count() <= before.retained_count(),
        after.time_offsets@.len() <= before.time_offsets@.len(),
{
    let n = before.time_offsets@.len() as int;
    let k = n - after.time_offsets@.len();
    lemma_evict_count(before.rx, after.rx, k);
    lemma_evict_count(before.tx, after.tx, k);
    lemma_evict_count(before.mem, after.mem, k);
    lemma_evict_count(before.swap, after.swap, k);
    lemma_evict_count(before.cache_mem, after.cache_mem, k);
    lemma_evict_count(before.arc_mem, after.arc_mem, k);
    lemma_indexed_evict_count(before.cpu, after.cpu, k, n);
    lemma_indexed_evict_count(before.gpu_mem, after.gpu_mem, k, n);
}

/// Pruning the store a second time with the same time and age removes
/// nothing: the axis keeps its length and every sample is kept.
pub proof fn lemma_store_prune_twice<F>(
    ts0: TimeSeriesData<F>,
    ts1: TimeSeriesData<F>,
    ts2: TimeSeriesData<F>,
    now: u64,
    max_age: u64,
)
    requires
        ts0.wf(),
        ts1.wf(),
        ts1.pruned_from(&ts0, now, max_age),
        ts2.pruned_from(&ts1, now, max_age),
    ensures
        ts2.time_offsets@ == ts1.time_offsets@,
        ts2.retained_count() == ts1.retained_count(),
{
    let n0 = ts0.time_offsets@.len() as int;
    let k1 = n0 - ts1.time_offsets@.len();
    let n1 = ts1.time_offsets@.len() as int;
    let k2 = n1 - ts2.time_offsets@.len();
    if k2 > 0 {
        assert(is_stale(now, ts1.offset_ranges@[0].0, max_age));
        assert(ts1.offset_ranges@[0].0 == ts0.offset_ranges@[0 + k1].0);
        assert(!is_stale(now, ts0.offset_ranges@[0 + k1].0, max_age));
    }
    assert(k2 == 0);
    assert(ts2.time_offsets@ =~= ts1.time_offsets@);
    assert(ts1.mem.starts_from(0));
    assert(ts1.swap.starts_from(0));
    assert(ts1.cache_mem.starts_from(0));
    assert(ts1.arc_mem.starts_from(0));
    assert(ts1.rx.starts_from(0));
    assert(ts1.tx.starts_from(0));
    lemma_evict_count(ts1.rx, ts2.rx, 0);
    lemma_evict_count(ts1.tx, ts2.tx, 0);
    lemma_evict_count(ts1.mem, ts2.mem, 0);
    lemma_evict_count(ts1.swap, ts2.swap, 0);
    lemma_evict_count(ts1.cache_mem, ts2.cache_mem, 0);
    lemma_evict_count(ts1.arc_mem, ts2.arc_mem, 0);
    let f_cpu = choose|f: Seq<int>| ts1.cpu.evicted_through(&ts0.cpu, k1, f);
    assert forall|i: int| 0 <= i < ts1.cpu.entries@.len() implies (#[trigger] ts1.cpu.entries@[i]).1.has_data() by {
        assert(0 <= f_cpu[i]);
    }
    let f_gpu = choose|f: Seq<int>| ts1.gpu_mem.evicted_through(&ts0.gpu_mem, k1, f);
    assert forall|i: int| 0 <= i < ts1.gpu_mem.entries@.len() implies (#[trigger] ts1.gpu_mem.entries@[i]).1.has_data() by {
        assert(0 <= f_gpu[i]);
    }
    lemma_indexed_evict_count(ts1.cpu, ts2.cpu, 0, n1);
    lemma_indexed_evict_count(ts1.gpu_mem, ts2.gpu_mem, 0, n1);
}

} // verus!
