//! Gap-aware storage of one metric's samples.

use vstd::prelude::*;

verus! {

/// A contiguous, gap-free run of samples of one metric, placed on the shared
/// time axis at the indices `[start_offset, end_offset)`.
pub struct DataChunk<T> {
    /// Index of the first sample on the time axis.
    pub start_offset: usize,
    /// Index one past the last sample on the time axis.
    pub end_offset: usize,
    /// The samples, oldest first.
    pub data: Vec<T>,
}

impl<T> DataChunk<T> {
    /// Every index of `[start_offset, end_offset)` holds exactly one sample.
    pub open spec fn wf(&self) -> bool {
        &&& self.start_offset <= self.end_offset
        &&& self.end_offset - self.start_offset == self.data@.len()
    }

    /// `self` is `before` moved `k` indices down the time axis.
    pub open spec fn shifted_from(&self, before: &Self, k: int) -> bool {
        &&& self.start_offset == before.start_offset - k
        &&& self.end_offset == before.end_offset - k
        &&& self.data@ == before.data@
    }

    /// `self` is what is left of `before` once every index below `k` is
    /// dropped and the axis is rebased so that `k` becomes index 0; `k` lies
    /// past the start of `before`.
    pub open spec fn trimmed_from(&self, before: &Self, k: int) -> bool {
        &&& self.start_offset == 0
        &&& if k > before.end_offset {
            &&& self.end_offset == 0
            &&& self.data@ == Seq::<T>::empty()
        } else {
            &&& self.end_offset == before.end_offset - k
            &&& self.data@ == before.data@.subrange(k - before.start_offset, before.data@.len() as int)
        }
    }

    /// Creates a chunk holding one sample at index `start_offset`.
    pub fn new(initial_value: T, start_offset: usize) -> (r: Self)
        requires
            start_offset < usize::MAX,
        ensures
            r.wf(),
            r.start_offset == start_offset,
            r.end_offset == start_offset + 1,
            r.data@ == seq![initial_value],
    {
        let mut data: Vec<T> = Vec::new();
        data.push(initial_value);
        DataChunk { start_offset, end_offset: start_offset + 1, data }
    }

    /// Drops every sample at an index below `prune_end_index`, and rebases
    /// the chunk so that `prune_end_index` becomes index 0. Returns whether
    /// the boundary lay past the chunk's start; if not, nothing changes.
    pub fn try_prune(&mut self, prune_end_index: usize) -> (pruned: bool)
        requires
            old(self).wf(),
        ensures
            final(self).wf(),
            pruned == (prune_end_index > old(self).start_offset),
            pruned ==> final(self).trimmed_from(old(self), prune_end_index as int),
            !pruned ==> *final(self) == *old(self),
    {
        if prune_end_index > self.end_offset {
            self.data.clear();
            self.start_offset = 0;
            self.end_offset = 0;
            true
        } else if prune_end_index > self.start_offset {
            let drain_end = prune_end_index - self.start_offset;
            let rest = self.data.split_off(drain_end);
            self.data = rest;
            self.start_offset = 0;
            self.end_offset = self.end_offset - prune_end_index;
            true
        } else {
            false
        }
    }

    /// Moves the chunk `offset` indices down the time axis.
    pub fn update_indices(&mut self, offset: usize)
        requires
            old(self).wf(),
            offset <= old(self).start_offset,
        ensures
            final(self).wf(),
            final(self).shifted_from(old(self), offset as int),
    {
        self.start_offset = self.start_offset - offset;
        self.end_offset = self.end_offset - offset;
    }
}

/// The number of samples held by `chunks`.
pub open spec fn total_len<T>(chunks: Seq<DataChunk<T>>) -> nat
    decreases chunks.len(),
{
    if chunks.len() == 0 {
        0
    } else {
        total_len(chunks.drop_last()) + chunks.last().data@.len()
    }
}

proof fn lemma_total_len_append<T>(a: Seq<DataChunk<T>>, b: Seq<DataChunk<T>>)
    ensures
        total_len(a + b) == total_len(a) + total_len(b),
    decreases b.len(),
{
    if b.len() == 0 {
        assert(a + b =~= a);
    } else {
        lemma_total_len_append(a, b.drop_last());
        assert((a + b).drop_last() =~= a + b.drop_last());
    }
}

proof fn lemma_total_len_single<T>(c: DataChunk<T>)
    ensures
        total_len(seq![c]) == c.data@.len(),
{
    assert(seq![c].drop_last() =~= Seq::<DataChunk<T>>::empty());
    assert(total_len(Seq::<DataChunk<T>>::empty()) == 0);
}

proof fn lemma_total_len_pointwise<T>(a: Seq<DataChunk<T>>, b: Seq<DataChunk<T>>)
    requires
        a.len() == b.len(),
        forall|i: int| 0 <= i < a.len() ==> (#[trigger] a[i]).data@.len() <= b[i].data@.len(),
    ensures
        total_len(a) <= total_len(b),
    decreases a.len(),
{
    if a.len() > 0 {
        lemma_total_len_pointwise(a.drop_last(), b.drop_last());
    }
}

proof fn lemma_total_len_suffix<T>(s: Seq<DataChunk<T>>, k: int)
    requires
        0 <= k <= s.len(),
    ensures
        total_len(s.subrange(k, s.len() as int)) <= total_len(s),
{
    lemma_total_len_append(s.subrange(0, k), s.subrange(k, s.len() as int));
    assert(s.subrange(0, k) + s.subrange(k, s.len() as int) =~= s);
}

/// The retained history of one metric: a chunk being appended to, and the
/// chunks sealed at each gap, oldest first.
pub struct ValueChunk<T> {
    /// The chunk that new samples extend, if the last tick had a sample.
    pub current: Option<DataChunk<T>>,
    /// Sealed chunks, oldest first, each ending before the next one starts.
    pub previous_chunks: Vec<DataChunk<T>>,
}

impl<T> ValueChunk<T> {
    /// Every chunk covers its indices without a hole, and the chunks follow
    /// one another on the time axis without overlap, the current one last.
    pub open spec fn wf(&self) -> bool {
        let prev = self.previous_chunks@;
        &&& forall|i: int| 0 <= i < prev.len() ==> (#[trigger] prev[i]).wf()
        &&& forall|i: int, j: int|
            0 <= i < j < prev.len() ==> (#[trigger] prev[i]).end_offset <= (#[trigger] prev[j]).start_offset
        &&& match self.current {
            Some(c) => {
                &&& c.wf()
                &&& forall|i: int| 0 <= i < prev.len() ==> (#[trigger] prev[i]).end_offset <= c.start_offset
            },
            None => true,
        }
    }

    /// All chunks, oldest first: the sealed ones, then the current one.
    pub open spec fn chunks(&self) -> Seq<DataChunk<T>> {
        match self.current {
            Some(c) => self.previous_chunks@.push(c),
            None => self.previous_chunks@,
        }
    }

    /// The number of samples retained.
    pub open spec fn retained_count(&self) -> nat {
        total_len(self.chunks())
    }

    /// Whether pruning at `k` trims the current chunk, which then makes every
    /// sealed chunk stale.
    pub open spec fn prunes_current(&self, k: int) -> bool {
        self.current is Some && k > self.current->0.start_offset
    }

    /// `b` is the newest sealed chunk that starts before `k`.
    pub open spec fn is_boundary(&self, k: int, b: int) -> bool {
        let prev = self.previous_chunks@;
        &&& 0 <= b < prev.len()
        &&& prev[b].start_offset < k
        &&& (b + 1 == prev.len() || k <= prev[b + 1].start_offset)
    }

    /// `self` is `before` pruned at `k` through the sealed chunk `b`: the
    /// chunks older than `b` go, `b` is trimmed (and goes too when nothing of
    /// it is left), and every newer chunk moves `k` indices down the axis.
    pub open spec fn pruned_through(&self, before: &Self, k: int, b: int) -> bool {
        let prev = before.previous_chunks@;
        let keep = k < prev[b].end_offset;
        let first = if keep { b } else { b + 1 };
        &&& self.previous_chunks@.len() == prev.len() - first
        &&& keep ==> self.previous_chunks@[0].trimmed_from(&prev[b], k)
        &&& forall|j: int|
            b < j < prev.len() ==> self.previous_chunks@[j - first].shifted_from(&(#[trigger] prev[j]), k)
        &&& match before.current {
            Some(c) => self.current is Some && self.current->0.shifted_from(&c, k),
            None => self.current is None,
        }
    }

    /// `self` is `before` after dropping every sample at an index below `k`
    /// and rebasing what is left so that `k` becomes index 0.
    pub open spec fn pruned_from(&self, before: &Self, k: int) -> bool {
        if before.prunes_current(k) {
            &&& self.previous_chunks@.len() == 0
            &&& self.current is Some
            &&& self.current->0.trimmed_from(&before.current->0, k)
        } else if forall|i: int|
            0 <= i < before.previous_chunks@.len() ==> k <= (#[trigger] before.previous_chunks@[i]).start_offset {
            &&& self.previous_chunks@ == before.previous_chunks@
            &&& self.current == before.current
        } else {
            forall|b: int| #[trigger] before.is_boundary(k, b) ==> self.pruned_through(before, k, b)
        }
    }

    /// `self` is `before` with `value` appended at `index`: to the current
    /// chunk, or as a new current chunk after a gap.
    pub open spec fn added_from(&self, before: &Self, value: T, index: int) -> bool {
        &&& self.previous_chunks@ == before.previous_chunks@
        &&& self.current is Some
        &&& self.current->0.end_offset == index + 1
        &&& match before.current {
            Some(c) => {
                &&& self.current->0.start_offset == c.start_offset
                &&& self.current->0.data@ == c.data@.push(value)
            },
            None => {
                &&& self.current->0.start_offset == index
                &&& self.current->0.data@ == seq![value]
            },
        }
    }

    /// `self` is `before` with its current chunk, if any, sealed.
    pub open spec fn sealed_from(&self, before: &Self) -> bool {
        &&& self.current is None
        &&& self.previous_chunks@ == before.chunks()
    }

    /// The history is well formed on an axis of `n` indices: every chunk
    /// ends by `n`, and the current chunk, if any, reaches it.
    pub open spec fn aligned(&self, n: int) -> bool {
        &&& self.wf()
        &&& forall|i: int| 0 <= i < self.previous_chunks@.len() ==> (#[trigger] self.previous_chunks@[i]).end_offset <= n
        &&& match self.current {
            Some(c) => c.end_offset == n,
            None => true,
        }
    }

    /// Whether no chunk starts below index `k`.
    pub open spec fn starts_from(&self, k: int) -> bool {
        forall|i: int| 0 <= i < self.chunks().len() ==> k <= (#[trigger] self.chunks()[i]).start_offset
    }

    /// `self` is `before` with every chunk moved `k` indices down the axis.
    pub open spec fn rebased_from(&self, before: &Self, k: int) -> bool {
        &&& self.previous_chunks@.len() == before.previous_chunks@.len()
        &&& forall|i: int|
            0 <= i < before.previous_chunks@.len() ==> (#[trigger] self.previous_chunks@[i]).shifted_from(
                &before.previous_chunks@[i],
                k,
            )
        &&& match before.current {
            Some(c) => self.current is Some && self.current->0.shifted_from(&c, k),
            None => self.current is None,
        }
    }

    /// `self` is `before` after a step of the axis at `index` that brought
    /// `sample`: appended when there is one, sealed when there is none.
    pub open spec fn recorded_from(&self, before: &Self, sample: Option<T>, index: int) -> bool {
        match sample {
            Some(v) => self.added_from(before, v, index),
            None => self.sealed_from(before),
        }
    }

    /// `self` is `before` with the indices below `k` cut off the axis:
    /// pruned when a chunk starts below `k`, otherwise only rebased.
    pub open spec fn evicted_from(&self, before: &Self, k: int) -> bool {
        if before.starts_from(k) {
            self.rebased_from(before, k)
        } else {
            self.pruned_from(before, k)
        }
    }

    /// Whether some chunk holds a sample at index `k` or later.
    pub open spec fn keeps_sample(&self, k: int) -> bool {
        exists|i: int|
            0 <= i < self.chunks().len() && (#[trigger] self.chunks()[i]).data@.len() > 0
                && self.chunks()[i].end_offset > k
    }

    /// Whether some chunk holds a sample.
    pub open spec fn has_data(&self) -> bool {
        exists|i: int| 0 <= i < self.chunks().len() && (#[trigger] self.chunks()[i]).data@.len() > 0
    }

    /// An empty history.
    pub fn new() -> (r: Self)
        ensures
            r.wf(),
            r.current is None,
            r.previous_chunks@.len() == 0,
    {
        ValueChunk { current: None, previous_chunks: Vec::new() }
    }

    /// Appends `value` at `index`, extending the current chunk, or starting
    /// one if the last tick was a gap.
    pub fn add(&mut self, value: T, index: usize)
        requires
            old(self).wf(),
            index < usize::MAX,
            match old(self).current {
                Some(c) => index == c.end_offset,
                None => forall|i: int|
                    0 <= i < old(self).previous_chunks@.len()
                        ==> (#[trigger] old(self).previous_chunks@[i]).end_offset <= index,
            },
        ensures
            final(self).wf(),
            final(self).added_from(old(self), value, index as int),
    {
        match self.current.as_mut() {
            Some(current) => {
                current.data.push(value);
                current.end_offset = index + 1;
            },
            None => {
                self.current = Some(DataChunk::new(value, index));
            },
        }
    }

    /// Seals the current chunk, if any, so that the next sample starts a new
    /// one: this is how a tick without a sample leaves a gap.
    pub fn end_chunk(&mut self)
        requires
            old(self).wf(),
        ensures
            final(self).wf(),
            final(self).sealed_from(old(self)),
    {
        if let Some(current) = self.current.take() {
            self.previous_chunks.push(current);
        }
    }

    /// Drops every sample at an index below `remove_up_to` and rebases what
    /// is left so that `remove_up_to` becomes index 0. When the boundary falls
    /// in the current chunk, every sealed chunk is dropped at once; otherwise
    /// the sealed chunks are searched from the newest for the boundary.
    pub fn prune(&mut self, remove_up_to: usize)
        requires
            old(self).wf(),
        ensures
            final(self).wf(),
            final(self).pruned_from(old(self), remove_up_to as int),
            final(self).retained_count() <= old(self).retained_count(),
    {
        let ghost k = remove_up_to as int;
        let pruned_current = match self.current.as_mut() {
            Some(current) => current.try_prune(remove_up_to),
            None => false,
        };
        if pruned_current {
            self.previous_chunks.clear();
            proof {
                lemma_pruned_from(*old(self), *self, k);
            }
            return;
        }
        let len = self.previous_chunks.len();
        let mut i: usize = len;
        while i > 0 && remove_up_to <= self.previous_chunks[i - 1].start_offset
            invariant
                i <= len,
                len == self.previous_chunks@.len(),
                self.previous_chunks@ == old(self).previous_chunks@,
                self.current == old(self).current,
                forall|j: int| i <= j < len ==> remove_up_to <= (#[trigger] self.previous_chunks@[j]).start_offset,
            decreases i,
        {
            i = i - 1;
        }
        if i == 0 {
            proof {
                lemma_pruned_from(*old(self), *self, k);
            }
            return;
        }
        let b = i - 1;
        let ghost prev = old(self).previous_chunks@;
        proof {
            assert(old(self).is_boundary(k, b as int));
            assert(!(forall|j: int| 0 <= j < prev.len() ==> k <= (#[trigger] prev[j]).start_offset)) by {
                assert(k > prev[b as int].start_offset);
            }
        }
        self.previous_chunks[b].try_prune(remove_up_to);
        let first = if self.previous_chunks[b].end_offset == 0 {
            b + 1
        } else {
            b
        };
        let tail = self.previous_chunks.split_off(first);
        self.previous_chunks = tail;
        let ghost tail0 = self.previous_chunks@;
        if let Some(current) = self.current.as_mut() {
            current.update_indices(remove_up_to);
        }
        let ghost cur1 = self.current;
        proof {
            assert(match old(self).current {
                Some(c) => cur1 is Some && cur1->0.shifted_from(&c, k) && cur1->0.wf(),
                None => cur1 is None,
            });
        }
        let skip: usize = if first == b {
            1
        } else {
            0
        };
        let n = self.previous_chunks.len();
        let mut j: usize = skip;
        while j < n
            invariant
                k == remove_up_to as int,
                prev == old(self).previous_chunks@,
                self.current == cur1,
                skip <= j <= n,
                n == self.previous_chunks@.len(),
                n == tail0.len(),
                first + n == len,
                first == b ==> skip == 1,
                first == b + 1 ==> skip == 0,
                forall|t: int| 0 <= t < n ==> (#[trigger] tail0[t]).wf(),
                forall|t: int| skip <= t < n ==> k <= (#[trigger] tail0[t]).start_offset,
                forall|t: int| skip <= t < n ==> tail0[t] == #[trigger] prev[t + first],
                forall|t: int| 0 <= t < j ==> (#[trigger] self.previous_chunks@[t]).wf(),
                forall|t: int|
                    skip <= t < j ==> (#[trigger] self.previous_chunks@[t]).shifted_from(&tail0[t], k),
                forall|t: int| j <= t < n ==> #[trigger] self.previous_chunks@[t] == tail0[t],
                0 < skip ==> self.previous_chunks@[0] == tail0[0],
            decreases n - j,
        {
            let ghost before = self.previous_chunks@;
            proof {
                assert(before[j as int] == tail0[j as int]);
                assert(k <= tail0[j as int].start_offset);
                assert(tail0[j as int].wf());
            }
            self.previous_chunks[j].update_indices(remove_up_to);
            proof {
                assert forall|t: int| 0 <= t < n && t != j implies #[trigger] self.previous_chunks@[t] == before[t] by {}
            }
            j = j + 1;
        }
        proof {
            let newp = self.previous_chunks@;
            assert forall|bb: int| #[trigger] old(self).is_boundary(k, bb) implies self.pruned_through(old(self), k, bb) by {
                if bb < b {
                    assert(prev[bb].end_offset <= prev[b as int].start_offset);
                    assert(prev[bb + 1].start_offset <= prev[b as int].start_offset) by {
                        if bb + 1 < b {
                            assert(prev[bb + 1].end_offset <= prev[b as int].start_offset);
                        }
                    }
                }
                if bb > b {
                    assert(k <= prev[bb].start_offset);
                }
                assert(bb == b);
                assert forall|jj: int| b < jj < prev.len() implies newp[jj - first].shifted_from(&(#[trigger] prev[jj]), k) by {
                    assert(tail0[jj - first] == prev[(jj - first) + first]);
                }
            }
            lemma_pruned_from(*old(self), *self, k);
        }
    }

    /// Moves every chunk `offset` indices down the time axis, for a history
    /// that holds nothing below index `offset`.
    pub fn rebase(&mut self, offset: usize)
        requires
            old(self).wf(),
            old(self).starts_from(offset as int),
        ensures
            final(self).wf(),
            final(self).rebased_from(old(self), offset as int),
    {
        let ghost k = offset as int;
        let ghost prev = self.previous_chunks@;
        proof {
            assert forall|t: int| 0 <= t < prev.len() implies k <= (#[trigger] prev[t]).start_offset by {
                assert(old(self).chunks()[t] == prev[t]);
            }
            if let Some(c) = old(self).current {
                assert(old(self).chunks()[prev.len() as int] == c);
            }
        }
        if let Some(current) = self.current.as_mut() {
            current.update_indices(offset);
        }
        let ghost cur1 = self.current;
        let n = self.previous_chunks.len();
        let mut j: usize = 0;
        while j < n
            invariant
                k == offset as int,
                n == prev.len(),
                n == self.previous_chunks@.len(),
                j <= n,
                self.current == cur1,
                prev == old(self).previous_chunks@,
                forall|t: int| 0 <= t < n ==> k <= (#[trigger] prev[t]).start_offset,
                forall|t: int| 0 <= t < n ==> (#[trigger] prev[t]).wf(),
                forall|t: int, u: int| 0 <= t < u < n ==> (#[trigger] prev[t]).end_offset <= (#[trigger] prev[u]).start_offset,
                forall|t: int| 0 <= t < j ==> (#[trigger] self.previous_chunks@[t]).shifted_from(&prev[t], k),
                forall|t: int| j <= t < n ==> #[trigger] self.previous_chunks@[t] == prev[t],
            decreases n - j,
        {
            let ghost before = self.previous_chunks@;
            proof {
                assert(before[j as int] == prev[j as int]);
                assert(prev[j as int].wf());
            }
            self.previous_chunks[j].update_indices(offset);
            proof {
                assert forall|t: int| 0 <= t < n && t != j implies #[trigger] self.previous_chunks@[t] == before[t] by {}
            }
            j = j + 1;
        }
        proof {
            let newp = self.previous_chunks@;
            assert forall|x: int, y: int| 0 <= x < y < newp.len() implies (#[trigger] newp[x]).end_offset <= (#[trigger] newp[y]).start_offset by {
                assert(prev[x].end_offset <= prev[y].start_offset);
            }
            assert forall|x: int| 0 <= x < newp.len() implies (#[trigger] newp[x]).wf() by {
                assert(prev[x].wf());
            }
        }
    }

    /// Cuts the indices below `remove_up_to` off the axis: prunes when a
    /// chunk starts below it, and otherwise moves every chunk down.
    pub fn evict(&mut self, remove_up_to: usize)
        requires
            old(self).wf(),
        ensures
            final(self).wf(),
            final(self).evicted_from(old(self), remove_up_to as int),
    {
        let mut later = true;
        if let Some(current) = &self.current {
            later = remove_up_to <= current.start_offset;
            if !later {
                assert(self.chunks()[self.chunks().len() - 1] == current);
            }
        }
        let mut i: usize = 0;
        while later && i < self.previous_chunks.len()
            invariant
                i <= self.previous_chunks@.len(),
                later ==> forall|j: int| 0 <= j < i ==> remove_up_to <= (#[trigger] self.previous_chunks@[j]).start_offset,
                later ==> match self.current {
                    Some(c) => remove_up_to <= c.start_offset,
                    None => true,
                },
                !later ==> !self.starts_from(remove_up_to as int),
            decreases self.previous_chunks@.len() - i,
        {
            if self.previous_chunks[i].start_offset < remove_up_to {
                later = false;
                assert(self.chunks()[i as int] == self.previous_chunks@[i as int]);
            }
            i = i + 1;
        }
        proof {
            if later {
                assert forall|j: int| 0 <= j < self.chunks().len() implies remove_up_to <= (#[trigger] self.chunks()[j]).start_offset by {
                    if j < self.previous_chunks@.len() {
                        assert(self.chunks()[j] == self.previous_chunks@[j]);
                    }
                }
            }
        }
        if later {
            self.rebase(remove_up_to);
        } else {
            self.prune(remove_up_to);
        }
    }

    /// Whether no chunk holds a sample.
    pub fn is_empty(&self) -> (r: bool)
        requires
            self.wf(),
        ensures
            r == forall|i: int| 0 <= i < self.chunks().len() ==> (#[trigger] self.chunks()[i]).data@.len() == 0,
            r == !self.has_data(),
    {
        if let Some(current) = &self.current {
            if current.data.len() > 0 {
                assert(self.chunks()[self.chunks().len() - 1] == current);
                return false;
            }
        }
        let mut i: usize = 0;
        while i < self.previous_chunks.len()
            invariant
                i <= self.previous_chunks@.len(),
                forall|j: int| 0 <= j < i ==> (#[trigger] self.previous_chunks@[j]).data@.len() == 0,
                match self.current {
                    Some(c) => c.data@.len() == 0,
                    None => true,
                },
            decreases self.previous_chunks@.len() - i,
        {
            if self.previous_chunks[i].data.len() > 0 {
                assert(self.chunks()[i as int] == self.previous_chunks@[i as int]);
                return false;
            }
            i = i + 1;
        }
        assert forall|j: int| 0 <= j < self.chunks().len() implies (#[trigger] self.chunks()[j]).data@.len() == 0 by {
            if j < self.previous_chunks@.len() {
                assert(self.chunks()[j] == self.previous_chunks@[j]);
            }
        }
        true
    }
}

impl<T> Default for ValueChunk<T> {
    /// An empty history.
    fn default() -> (r: Self)
        ensures
            r.wf(),
            r.current is None,
            r.previous_chunks@.len() == 0,
    {
        ValueChunk::new()
    }
}

proof fn lemma_total_len_zero<T>(s: Seq<DataChunk<T>>)
    requires
        forall|i: int| 0 <= i < s.len() ==> (#[trigger] s[i]).data@.len() == 0,
    ensures
        total_len(s) == 0,
    decreases s.len(),
{
    if s.len() > 0 {
        lemma_total_len_zero(s.drop_last());
    }
}

proof fn lemma_total_len_pointwise_eq<T>(a: Seq<DataChunk<T>>, b: Seq<DataChunk<T>>)
    requires
        a.len() == b.len(),
        forall|i: int| 0 <= i < a.len() ==> (#[trigger] a[i]).data@.len() == b[i].data@.len(),
    ensures
        total_len(a) == total_len(b),
    decreases a.len(),
{
    if a.len() > 0 {
        lemma_total_len_pointwise_eq(a.drop_last(), b.drop_last());
    }
}

proof fn lemma_boundary_exists<T>(v: ValueChunk<T>, k: int, i: int)
    requires
        v.wf(),
        0 <= i < v.previous_chunks@.len(),
        v.previous_chunks@[i].start_offset < k,
    ensures
        exists|b: int| #[trigger] v.is_boundary(k, b),
    decreases v.previous_chunks@.len() - i,
{
    let prev = v.previous_chunks@;
    if i + 1 == prev.len() || k <= prev[i + 1].start_offset {
        assert(v.is_boundary(k, i));
    } else {
        lemma_boundary_exists(v, k, i + 1);
    }
}

/// Pruning keeps the history well formed and never adds a sample.
pub proof fn lemma_pruned_from<T>(before: ValueChunk<T>, after: ValueChunk<T>, k: int)
    requires
        before.wf(),
        after.pruned_from(&before, k),
        k >= 0,
    ensures
        after.wf(),
        after.retained_count() <= before.retained_count(),
{
    let prev = before.previous_chunks@;
    let oc = before.chunks();
    let nc = after.chunks();
    if before.prunes_current(k) {
        let c0 = before.current->0;
        let c1 = after.current->0;
        assert(nc =~= seq![c1]);
        lemma_total_len_single(c1);
        lemma_total_len_suffix(oc, oc.len() - 1);
        assert(oc.subrange(oc.len() - 1, oc.len() as int) =~= seq![c0]);
        lemma_total_len_single(c0);
    } else if forall|i: int| 0 <= i < prev.len() ==> k <= (#[trigger] prev[i]).start_offset {
        assert(nc =~= oc);
    } else {
        let i0 = choose|i: int| 0 <= i < prev.len() && !(k <= (#[trigger] prev[i]).start_offset);
        lemma_boundary_exists(before, k, i0);
        let b = choose|b: int| #[trigger] before.is_boundary(k, b);
        assert(after.pruned_through(&before, k, b));
        let keep = k < prev[b].end_offset;
        let first = if keep { b } else { b + 1 };
        let newp = after.previous_chunks@;
        assert forall|x: int| 0 <= x < newp.len() implies (#[trigger] newp[x]).wf() by {
            if x + first > b {
                assert(newp[(x + first) - first].shifted_from(&prev[x + first], k));
            }
        }
        assert forall|x: int, y: int| 0 <= x < y < newp.len() implies (#[trigger] newp[x]).end_offset <= (#[trigger] newp[y]).start_offset by {
            assert(prev[x + first].end_offset <= prev[y + first].start_offset);
            assert(newp[(y + first) - first].shifted_from(&prev[y + first], k));
            if x + first > b {
                assert(newp[(x + first) - first].shifted_from(&prev[x + first], k));
            }
        }
        if let Some(c) = after.current {
            let c0 = before.current->0;
            assert forall|x: int| 0 <= x < newp.len() implies (#[trigger] newp[x]).end_offset <= c.start_offset by {
                assert(prev[x + first].end_offset <= c0.start_offset);
                if x + first > b {
                    assert(newp[(x + first) - first].shifted_from(&prev[x + first], k));
                }
            }
        }
        let suffix = oc.subrange(first, oc.len() as int);
        assert(nc.len() == suffix.len());
        assert forall|x: int| 0 <= x < nc.len() implies (#[trigger] nc[x]).data@.len() <= suffix[x].data@.len() by {
            if x < newp.len() {
                assert(suffix[x] == prev[x + first]);
                if x + first > b {
                    assert(newp[(x + first) - first].shifted_from(&prev[x + first], k));
                }
            }
        }
        lemma_total_len_pointwise(nc, suffix);
        lemma_total_len_suffix(oc, first);
    }
}

/// Along any run of prunes with non-decreasing boundaries, the number of
/// retained samples never grows.
pub proof fn lemma_prune_run_never_grows<T>(states: Seq<ValueChunk<T>>, bounds: Seq<int>)
    requires
        states.len() == bounds.len() + 1,
        states[0].wf(),
        forall|i: int| 0 <= i < bounds.len() ==> (#[trigger] bounds[i]) >= 0,
        forall|i: int, j: int| 0 <= i < j < bounds.len() ==> (#[trigger] bounds[i]) <= (#[trigger] bounds[j]),
        forall|i: int| 0 <= i < bounds.len() ==> (#[trigger] states[i + 1]).pruned_from(&states[i], bounds[i]),
    ensures
        forall|i: int, j: int|
            0 <= i <= j < states.len() ==> (#[trigger] states[j]).retained_count() <= (#[trigger] states[i]).retained_count(),
    decreases bounds.len(),
{
    if bounds.len() > 0 {
        let n = bounds.len() as int;
        lemma_prune_run_never_grows(states.drop_last(), bounds.drop_last());
        assert(states.drop_last()[(n - 1)] == states[n - 1]);
        assert(states[n - 1].wf()) by {
            lemma_prune_run_well_formed(states, bounds, n - 1);
        }
        assert(states[(n - 1) + 1].pruned_from(&states[n - 1], bounds[n - 1]));
        lemma_pruned_from(states[n - 1], states[n], bounds[n - 1]);
        assert forall|i: int, j: int|
            0 <= i <= j < states.len() implies (#[trigger] states[j]).retained_count() <= (#[trigger] states[i]).retained_count() by {
            if j < n {
                assert(states.drop_last()[i] == states[i]);
                assert(states.drop_last()[j] == states[j]);
            } else if i < n {
                assert(states.drop_last()[i] == states[i]);
                assert(states.drop_last()[n - 1] == states[n - 1]);
            }
        }
    }
}

proof fn lemma_prune_run_well_formed<T>(states: Seq<ValueChunk<T>>, bounds: Seq<int>, m: int)
    requires
        states.len() == bounds.len() + 1,
        states[0].wf(),
        0 <= m < states.len(),
        forall|i: int| 0 <= i < bounds.len() ==> (#[trigger] bounds[i]) >= 0,
        forall|i: int| 0 <= i < bounds.len() ==> (#[trigger] states[i + 1]).pruned_from(&states[i], bounds[i]),
    ensures
        states[m].wf(),
    decreases m,
{
    if m > 0 {
        lemma_prune_run_well_formed(states, bounds, m - 1);
        assert(states[(m - 1) + 1].pruned_from(&states[m - 1], bounds[m - 1]));
        lemma_pruned_from(states[m - 1], states[m], bounds[m - 1]);
    }
}

/// A prune at `k` keeps every sample of a history that holds none below
/// index `k`.
pub proof fn lemma_prune_keeps_later_samples<T>(before: ValueChunk<T>, after: ValueChunk<T>, k: int)
    requires
        before.wf(),
        after.pruned_from(&before, k),
        k >= 0,
        forall|i: int|
            0 <= i < before.chunks().len() && (#[trigger] before.chunks()[i]).data@.len() > 0
                ==> k <= before.chunks()[i].start_offset,
    ensures
        after.retained_count() == before.retained_count(),
{
    let prev = before.previous_chunks@;
    let oc = before.chunks();
    let nc = after.chunks();
    if before.prunes_current(k) {
        let c0 = before.current->0;
        let c1 = after.current->0;
        assert(oc[oc.len() - 1] == c0);
        assert forall|i: int| 0 <= i < oc.len() implies (#[trigger] oc[i]).data@.len() == 0 by {
            if i < prev.len() {
                assert(oc[i] == prev[i]);
            }
        }
        lemma_total_len_zero(oc);
        assert(nc =~= seq![c1]);
        lemma_total_len_single(c1);
    } else if forall|i: int| 0 <= i < prev.len() ==> k <= (#[trigger] prev[i]).start_offset {
        assert(nc =~= oc);
    } else {
        let i0 = choose|i: int| 0 <= i < prev.len() && !(k <= (#[trigger] prev[i]).start_offset);
        lemma_boundary_exists(before, k, i0);
        let b = choose|b: int| #[trigger] before.is_boundary(k, b);
        assert(after.pruned_through(&before, k, b));
        assert(oc[b] == prev[b]);
        let first = b + 1;
        let newp = after.previous_chunks@;
        let head = oc.subrange(0, first);
        let suffix = oc.subrange(first, oc.len() as int);
        assert forall|i: int| 0 <= i < head.len() implies (#[trigger] head[i]).data@.len() == 0 by {
            assert(head[i] == prev[i]);
            assert(oc[i] == prev[i]);
            if i < b {
                assert(prev[i].end_offset <= prev[b].start_offset);
            }
        }
        lemma_total_len_zero(head);
        lemma_total_len_append(head, suffix);
        assert(head + suffix =~= oc);
        assert(nc.len() == suffix.len());
        assert forall|x: int| 0 <= x < nc.len() implies (#[trigger] nc[x]).data@.len() == suffix[x].data@.len() by {
            if x < newp.len() {
                assert(suffix[x] == prev[x + first]);
                assert(newp[(x + first) - first].shifted_from(&prev[x + first], k));
            }
        }
        lemma_total_len_pointwise_eq(nc, suffix);
    }
}

/// Pruning a second time at the same boundary removes no further sample,
/// provided that the first prune left no sample below that boundary on the
/// rebased axis.
pub proof fn lemma_prune_twice<T>(v0: ValueChunk<T>, v1: ValueChunk<T>, v2: ValueChunk<T>, k: int)
    requires
        v0.wf(),
        k >= 0,
        v1.pruned_from(&v0, k),
        v2.pruned_from(&v1, k),
        forall|i: int|
            0 <= i < v1.chunks().len() && (#[trigger] v1.chunks()[i]).data@.len() > 0
                ==> k <= v1.chunks()[i].start_offset,
    ensures
        v1.wf(),
        v2.wf(),
        v2.retained_count() == v1.retained_count(),
{
    lemma_pruned_from(v0, v1, k);
    lemma_pruned_from(v1, v2, k);
    lemma_prune_keeps_later_samples(v1, v2, k);
}

/// Appending at the end of the axis, or sealing, keeps a history aligned
/// with the axis as it grows by one index.
pub proof fn lemma_aligned_step<T>(before: ValueChunk<T>, after: ValueChunk<T>, value: Option<T>, n: int)
    requires
        before.aligned(n),
        match value {
            Some(v) => after.added_from(&before, v, n),
            None => after.sealed_from(&before),
        },
    ensures
        after.aligned(n + 1),
{
    if value is None {
        if let Some(c) = before.current {
            assert forall|i: int| 0 <= i < after.previous_chunks@.len() implies (#[trigger] after.previous_chunks@[i]).wf()
                && after.previous_chunks@[i].end_offset <= n + 1 by {
                if i < before.previous_chunks@.len() {
                    assert(after.previous_chunks@[i] == before.previous_chunks@[i]);
                }
            }
            assert forall|i: int, j: int| 0 <= i < j < after.previous_chunks@.len()
                implies (#[trigger] after.previous_chunks@[i]).end_offset <= (#[trigger] after.previous_chunks@[j]).start_offset by {
                assert(after.previous_chunks@[i] == before.previous_chunks@[i]);
                if j < before.previous_chunks@.len() {
                    assert(after.previous_chunks@[j] == before.previous_chunks@[j]);
                }
            }
        }
    }
}

/// Pruning at `k`, at most the length `n` of the axis, leaves a history
/// aligned with the axis shortened by `k`.
pub proof fn lemma_aligned_prune<T>(before: ValueChunk<T>, after: ValueChunk<T>, k: int, n: int)
    requires
        before.aligned(n),
        after.pruned_from(&before, k),
        !before.starts_from(k),
        0 <= k <= n,
    ensures
        after.aligned(n - k),
{
    lemma_pruned_from(before, after, k);
    let prev = before.previous_chunks@;
    let newp = after.previous_chunks@;
    if before.prunes_current(k) {
    } else if forall|i: int| 0 <= i < prev.len() ==> k <= (#[trigger] prev[i]).start_offset {
        let oc = before.chunks();
        let x = choose|x: int| 0 <= x < oc.len() && (#[trigger] oc[x]).start_offset < k;
        if x < prev.len() {
            assert(oc[x] == prev[x]);
        }
    } else {
        let i0 = choose|i: int| 0 <= i < prev.len() && !(k <= (#[trigger] prev[i]).start_offset);
        lemma_boundary_exists(before, k, i0);
        let b = choose|b: int| #[trigger] before.is_boundary(k, b);
        assert(after.pruned_through(&before, k, b));
        let keep = k < prev[b].end_offset;
        let first = if keep { b } else { b + 1 };
        assert forall|i: int| 0 <= i < newp.len() implies (#[trigger] newp[i]).end_offset <= n - k by {
            assert(prev[i + first].end_offset <= n);
            if i + first > b {
                assert(newp[(i + first) - first].shifted_from(&prev[i + first], k));
            }
        }
    }
}

/// Rebasing a history that holds nothing below `k` keeps it aligned with
/// the axis shortened by `k`.
pub proof fn lemma_aligned_rebase<T>(before: ValueChunk<T>, after: ValueChunk<T>, k: int, n: int)
    requires
        before.aligned(n),
        after.rebased_from(&before, k),
        after.wf(),
        before.starts_from(k),
        0 <= k <= n,
    ensures
        after.aligned(n - k),
{
    let prev = before.previous_chunks@;
    assert forall|i: int| 0 <= i < after.previous_chunks@.len() implies (#[trigger] after.previous_chunks@[i]).end_offset <= n - k by {
        assert(before.chunks()[i] == prev[i]);
        assert(prev[i].end_offset <= n);
    }
}

/// Cutting `k` indices off the axis leaves a sample in a history exactly
/// when it had one at index `k` or later.
pub proof fn lemma_evict_keeps_sample<T>(before: ValueChunk<T>, after: ValueChunk<T>, k: int)
    requires
        before.wf(),
        after.evicted_from(&before, k),
        k >= 0,
        before.keeps_sample(k),
    ensures
        after.has_data(),
{
    let prev = before.previous_chunks@;
    let newp = after.previous_chunks@;
    let oc = before.chunks();
    let nc = after.chunks();
    let x = choose|x: int| 0 <= x < oc.len() && (#[trigger] oc[x]).data@.len() > 0 && oc[x].end_offset > k;
    if before.starts_from(k) {
        if x < prev.len() {
            assert(oc[x] == prev[x]);
            assert(nc[x] == newp[x]);
        } else {
            assert(nc[x] == after.current->0);
        }
        assert(nc[x].data@.len() > 0);
    } else if before.prunes_current(k) {
        let c = before.current->0;
        if x < prev.len() {
            assert(oc[x] == prev[x]);
            assert(prev[x].end_offset <= c.start_offset);
        }
        assert(oc[x] == c);
        assert(nc[0] == after.current->0);
        assert(nc[0].data@.len() > 0);
    } else if forall|i: int| 0 <= i < prev.len() ==> k <= (#[trigger] prev[i]).start_offset {
        assert(nc =~= oc);
        assert(nc[x].data@.len() > 0);
    } else {
        let i0 = choose|i: int| 0 <= i < prev.len() && !(k <= (#[trigger] prev[i]).start_offset);
        lemma_boundary_exists(before, k, i0);
        let b = choose|b: int| #[trigger] before.is_boundary(k, b);
        assert(after.pruned_through(&before, k, b));
        let keep = k < prev[b].end_offset;
        let first = if keep { b } else { b + 1 };
        if x < prev.len() {
            assert(oc[x] == prev[x]);
            if x < b {
                assert(prev[x].end_offset <= prev[b].start_offset);
            } else if x == b {
                assert(keep);
                assert(nc[0] == newp[0]);
                assert(nc[0].data@.len() > 0);
            } else {
                assert(newp[x - first].shifted_from(&prev[x], k));
                assert(nc[x - first] == newp[x - first]);
                assert(nc[x - first].data@.len() > 0);
            }
        } else {
            assert(nc[nc.len() - 1] == after.current->0);
            assert(nc[nc.len() - 1].data@.len() > 0);
        }
    }
}

/// Cutting `k` indices off an aligned history keeps it aligned with the
/// shortened axis.
pub proof fn lemma_aligned_evict<T>(before: ValueChunk<T>, after: ValueChunk<T>, k: int, n: int)
    requires
        before.aligned(n),
        after.evicted_from(&before, k),
        after.wf(),
        0 <= k <= n,
    ensures
        after.aligned(n - k),
{
    if before.starts_from(k) {
        lemma_aligned_rebase(before, after, k, n);
    } else {
        lemma_aligned_prune(before, after, k, n);
    }
}

/// Cutting `k` indices off the axis never adds a sample, and only rebasing
/// (when nothing lies below `k`) keeps them all.
pub proof fn lemma_evict_count<T>(before: ValueChunk<T>, after: ValueChunk<T>, k: int)
    requires
        before.wf(),
        after.evicted_from(&before, k),
        k >= 0,
    ensures
        after.retained_count() <= before.retained_count(),
        before.starts_from(k) ==> after.retained_count() == before.retained_count(),
{
    if before.starts_from(k) {
        let oc = before.chunks();
        let nc = after.chunks();
        assert(nc.len() == oc.len());
        assert forall|i: int| 0 <= i < nc.len() implies (#[trigger] nc[i]).data@.len() == oc[i].data@.len() by {
            if i < before.previous_chunks@.len() {
                assert(nc[i] == after.previous_chunks@[i]);
                assert(oc[i] == before.previous_chunks@[i]);
            }
        }
        lemma_total_len_pointwise_eq(nc, oc);
    } else {
        lemma_pruned_from(before, after, k);
    }
}

/// A history with no sample at index 0 or later holds no sample.
pub proof fn lemma_no_sample_empty<T>(vc: ValueChunk<T>)
    requires
        vc.wf(),
        !vc.keeps_sample(0),
    ensures
        vc.retained_count() == 0,
{
    let cs = vc.chunks();
    assert forall|i: int| 0 <= i < cs.len() implies (#[trigger] cs[i]).data@.len() == 0 by {
        if i < vc.previous_chunks@.len() {
            assert(cs[i] == vc.previous_chunks@[i]);
        }
        if cs[i].data@.len() > 0 {
            assert(cs[i].end_offset > 0);
        }
    }
    lemma_total_len_zero(cs);
}

} // verus!
