use vstd::prelude::*;

verus! {

/// A fixed-capacity buffer that absorbs blocks of any length and reports
/// when it holds a complete frame.
pub struct Accumulator<T> {
    buffer: Vec<T>,
    len: usize,
}

pub open spec fn min_int(a: int, b: int) -> int {
    if a <= b { a } else { b }
}

impl<T: Copy> Accumulator<T> {
    /// Number of samples that a full accumulator holds.
    pub closed spec fn spec_capacity(&self) -> nat {
        self.buffer@.len()
    }

    /// The samples gathered since the accumulator was last emptied.
    pub closed spec fn contents(&self) -> Seq<T> {
        self.buffer@.subrange(0, self.len as int)
    }

    pub closed spec fn wf(&self) -> bool {
        self.len <= self.buffer@.len()
    }

    /// An empty accumulator of `capacity` samples; `zero` fills the storage.
    pub fn new(capacity: usize, zero: T) -> (r: Self)
        ensures
            r.wf(),
            r.spec_capacity() == capacity,
            r.contents() == Seq::<T>::empty(),
    {
        let mut buffer: Vec<T> = Vec::with_capacity(capacity);
        let mut i: usize = 0;
        while i < capacity
            invariant
                i <= capacity,
                buffer@.len() == i,
            decreases capacity - i,
        {
            buffer.push(zero);
            i = i + 1;
        }
        Accumulator { buffer, len: 0 }
    }

    pub fn capacity(&self) -> (r: usize)
        ensures
            r == self.spec_capacity(),
    {
        self.buffer.len()
    }

    pub fn len(&self) -> (r: usize)
        requires
            self.wf(),
        ensures
            r == self.contents().len(),
    {
        self.len
    }

    pub fn is_full(&self) -> (r: bool)
        requires
            self.wf(),
        ensures
            r == (self.contents().len() == self.spec_capacity()),
            self.contents().len() <= self.spec_capacity(),
    {
        self.len == self.buffer.len()
    }

    /// Copies as many samples of `src[start..]` as the remaining capacity
    /// takes and returns the position in `src` where the unconsumed tail
    /// begins (`src.len()` when everything was taken).
    pub fn fill(&mut self, src: &[T], start: usize) -> (next: usize)
        requires
            old(self).wf(),
            start <= src@.len(),
        ensures
            final(self).wf(),
            final(self).spec_capacity() == old(self).spec_capacity(),
            start <= next <= src@.len(),
            next - start == min_int(
                src@.len() - start,
                old(self).spec_capacity() - old(self).contents().len(),
            ),
            final(self).contents() == old(self).contents() + src@.subrange(start as int, next as int),
    {
        let room = self.buffer.len() - self.len;
        let avail = src.len() - start;
        let n = if avail < room { avail } else { room };
        let ghost before = self.contents();
        let mut k: usize = 0;
        while k < n
            invariant
                self.wf(),
                avail == src@.len() - start,
                room == self.buffer@.len() - self.len,
                n <= avail,
                n <= room,
                self.len + n <= self.buffer@.len(),
                start + n <= src@.len(),
                start + n <= usize::MAX,
                self.len + n <= usize::MAX,
                k <= n,
                self.buffer@.len() == old(self).buffer@.len(),
                self.len == old(self).len,
                before == self.contents(),
                self.buffer@.subrange(self.len as int, self.len + k)
                    == src@.subrange(start as int, start + k),
            decreases n - k,
        {
            let v: T = src[start + k];
            self.buffer.set(self.len + k, v);
            proof {
                assert(self.buffer@.subrange(self.len as int, self.len + k + 1)
                    =~= src@.subrange(start as int, start + k + 1));
                assert(self.buffer@.subrange(0, self.len as int) =~= before);
            }
            k = k + 1;
        }
        self.len = self.len + n;
        proof {
            assert(self.contents() =~= before + src@.subrange(start as int, start + n));
        }
        start + n
    }

    /// Forgets the gathered samples; the storage keeps its values.
    pub fn empty(&mut self)
        requires
            old(self).wf(),
        ensures
            final(self).wf(),
            final(self).spec_capacity() == old(self).spec_capacity(),
            final(self).contents() == Seq::<T>::empty(),
    {
        self.len = 0;
        proof {
            assert(self.contents() =~= Seq::<T>::empty());
        }
    }

    /// One step of cutting a stream into frames: a full accumulator is
    /// emptied first, then it takes what it can of `src[start..]`. Returns
    /// where the unconsumed tail of `src` begins.
    pub fn next_frame(&mut self, src: &[T], start: usize) -> (next: usize)
        requires
            old(self).wf(),
            start <= src@.len(),
        ensures
            final(self).wf(),
            final(self).spec_capacity() == old(self).spec_capacity(),
            ({
                let held = if old(self).contents().len() == old(self).spec_capacity() {
                    Seq::<T>::empty()
                } else {
                    old(self).contents()
                };
                &&& start <= next <= src@.len()
                &&& next - start == min_int(src@.len() - start, old(self).spec_capacity() - held.len())
                &&& final(self).contents() == held + src@.subrange(start as int, next as int)
            }),
            old(self).spec_capacity() > 0 ==> ({
                let n = old(self).spec_capacity();
                let held = if old(self).contents().len() == n {
                    Seq::<T>::empty()
                } else {
                    old(self).contents()
                };
                let cut = frames_of(n, held, src@.subrange(start as int, src@.len() as int));
                if cut.0.len() > 0 {
                    &&& final(self).contents().len() == n
                    &&& final(self).contents() == cut.0[0]
                    &&& frames_of(n, Seq::<T>::empty(), src@.subrange(next as int, src@.len() as int))
                        == (cut.0.drop_first(), cut.1)
                } else {
                    &&& next == src@.len()
                    &&& final(self).contents().len() < n
                    &&& final(self).contents() == cut.1
                }
            }),
    {
        if self.is_full() {
            self.empty();
        }
        let ghost held = self.contents();
        let next = self.fill(src, start);
        proof {
            let n = self.spec_capacity();
            let block = src@.subrange(start as int, src@.len() as int);
            if n > 0 {
                let room = n - held.len();
                if block.len() < room {
                    assert(src@.subrange(start as int, next as int) =~= block);
                } else {
                    assert(src@.subrange(start as int, next as int) =~= block.take(room as int));
                    assert(src@.subrange(next as int, src@.len() as int)
                        =~= block.subrange(room as int, block.len() as int));
                    let rest = frames_of(n, Seq::<T>::empty(), block.subrange(room as int, block.len() as int));
                    assert((seq![held + block.take(room as int)] + rest.0).drop_first() =~= rest.0);
                }
            }
        }
        next
    }

    /// The gathered samples.
    pub fn contents_slice(&self) -> (r: &[T])
        requires
            self.wf(),
        ensures
            r@ == self.contents(),
    {
        let s = self.buffer.as_slice();
        vstd::slice::slice_subrange(s, 0, self.len)
    }
}

/// Samples held after filling an empty accumulator of capacity `cap`
/// from blocks of the given lengths, one `fill` per block.
pub open spec fn held_after_fills(cap: int, lens: Seq<int>) -> int
    decreases lens.len(),
{
    if lens.len() == 0 {
        0
    } else {
        let before = held_after_fills(cap, lens.drop_last());
        before + min_int(lens.last(), cap - before)
    }
}

pub open spec fn total_len(lens: Seq<int>) -> int
    decreases lens.len(),
{
    if lens.len() == 0 {
        0
    } else {
        total_len(lens.drop_last()) + lens.last()
    }
}

/// Whatever the blocks, an accumulator of capacity `cap` filled from empty
/// never holds more than `cap` samples and holds exactly
/// `min(total length of the blocks, cap)` of them.
pub proof fn lemma_fills_total(cap: int, lens: Seq<int>)
    requires
        cap >= 0,
        forall|i: int| 0 <= i < lens.len() ==> lens[i] >= 0,
    ensures
        0 <= held_after_fills(cap, lens) <= cap,
        held_after_fills(cap, lens) == min_int(total_len(lens), cap),
    decreases lens.len(),
{
    if lens.len() > 0 {
        let init = lens.drop_last();
        assert forall|i: int| 0 <= i < init.len() implies init[i] >= 0 by {
            assert(init[i] == lens[i]);
        }
        lemma_fills_total(cap, init);
        lemma_total_nonneg(init);
    }
}

/// The frames completed, in order, and the samples left over, when `block`
/// is fed to an accumulator of capacity `n` that holds `held`.
pub open spec fn frames_of<T>(n: nat, held: Seq<T>, block: Seq<T>) -> (Seq<Seq<T>>, Seq<T>)
    decreases block.len(),
{
    if held.len() >= n || block.len() < n - held.len() {
        (Seq::empty(), held + block)
    } else {
        let room = n - held.len();
        let rest = frames_of(n, Seq::empty(), block.subrange(room as int, block.len() as int));
        (seq![held + block.take(room as int)] + rest.0, rest.1)
    }
}

/// Cutting a stream into frames does not depend on how it is split into
/// blocks: feeding `xs` and then `ys` completes the same frames, and leaves
/// the same samples over, as feeding `xs + ys` in one block.
pub proof fn lemma_frames_split<T>(n: nat, held: Seq<T>, xs: Seq<T>, ys: Seq<T>)
    requires
        held.len() < n,
    ensures
        ({
            let first = frames_of(n, held, xs);
            let second = frames_of(n, first.1, ys);
            frames_of(n, held, xs + ys) == (first.0 + second.0, second.1)
        }),
    decreases xs.len(),
{
    let room = n - held.len();
    if xs.len() < room {
        let first = frames_of(n, held, xs);
        assert(first.0 =~= Seq::<Seq<T>>::empty());
        if ys.len() < n - (held + xs).len() {
            assert(held + (xs + ys) =~= (held + xs) + ys);
        } else {
            let r = n - (held + xs).len();
            assert(held + (xs + ys).take(room as int) =~= (held + xs) + ys.take(r as int));
            assert((xs + ys).subrange(room as int, (xs + ys).len() as int)
                =~= ys.subrange(r as int, ys.len() as int));
        }
        let second = frames_of(n, first.1, ys);
        assert(first.0 + second.0 =~= second.0);
    } else {
        let tail = xs.subrange(room as int, xs.len() as int);
        lemma_frames_split(n, Seq::empty(), tail, ys);
        assert((xs + ys).take(room as int) =~= xs.take(room as int));
        assert((xs + ys).subrange(room as int, (xs + ys).len() as int) =~= tail + ys);
        let first = frames_of(n, held, xs);
        let inner = frames_of(n, Seq::empty(), tail);
        let second = frames_of(n, first.1, ys);
        assert(seq![held + xs.take(room as int)] + (inner.0 + second.0)
            =~= (seq![held + xs.take(room as int)] + inner.0) + second.0);
    }
}

proof fn lemma_total_nonneg(lens: Seq<int>)
    requires
        forall|i: int| 0 <= i < lens.len() ==> lens[i] >= 0,
    ensures
        total_len(lens) >= 0,
    decreases lens.len(),
{
    if lens.len() > 0 {
        let init = lens.drop_last();
        assert forall|i: int| 0 <= i < init.len() implies init[i] >= 0 by {
            assert(init[i] == lens[i]);
        }
        lemma_total_nonneg(init);
    }
}

} // verus!
