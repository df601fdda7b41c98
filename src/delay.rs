use vstd::prelude::*;

verus! {

/// A ring of samples with a read/write cursor: the storage of a feedback
/// delay line of fixed length.
pub struct Delay<T> {
    buffer: Vec<T>,
    pointer: usize,
}

/// The lengths of the two blocks handed to `Delay::process` differ.
#[derive(Clone, Copy, Debug, PartialEq, Eq, Structural)]
pub struct LengthMismatch {
    pub input: usize,
    pub output: usize,
}

/// The ring after writing `ws[k]` at position `(c + k) % (line.len() as int)`, in order.
pub open spec fn after_writes<T>(line: Seq<T>, c: int, ws: Seq<T>) -> Seq<T>
    decreases ws.len(),
{
    if ws.len() == 0 {
        line
    } else {
        after_writes(line, c, ws.drop_last()).update((c + ws.len() - 1) % (line.len() as int), ws.last())
    }
}

/// One pass of the delay over a block: sample `k` of the input is combined by
/// `step` with the value the ring holds under the cursor at that moment, which
/// gives output sample `k` and the value `ws[k]` written back in its place.
pub open spec fn delay_run<T, F: Fn(T, T) -> (T, T)>(
    line: Seq<T>,
    c: int,
    xs: Seq<T>,
    ys: Seq<T>,
    ws: Seq<T>,
    step: F,
) -> bool {
    &&& xs.len() == ys.len()
    &&& ws.len() == xs.len()
    &&& forall|k: int|
        0 <= k < xs.len() ==> #[trigger] step.ensures(
            (xs[k], after_writes(line, c, ws.take(k))[(c + k) % (line.len() as int)]),
            (ys[k], ws[k]),
        )
}

impl<T: Copy> Delay<T> {
    /// The ring's contents.
    pub closed spec fn line(&self) -> Seq<T> {
        self.buffer@
    }

    /// The position that the next sample reads and writes.
    pub closed spec fn cursor(&self) -> int {
        self.pointer as int
    }

    pub open spec fn wf(&self) -> bool {
        0 <= self.cursor() < self.line().len()
    }

    /// A ring of `length` samples, each `zero`, with the cursor at 0.
    pub fn new(length: usize, zero: T) -> (r: Self)
        requires
            length > 0,
        ensures
            r.wf(),
            r.line() == Seq::new(length as nat, |_i: int| zero),
            r.cursor() == 0,
    {
        let mut buffer: Vec<T> = Vec::with_capacity(length);
        let mut i: usize = 0;
        while i < length
            invariant
                i <= length,
                buffer@ == Seq::new(i as nat, |_i: int| zero),
            decreases length - i,
        {
            buffer.push(zero);
            i = i + 1;
            proof {
                assert(buffer@ =~= Seq::new(i as nat, |_i: int| zero));
            }
        }
        Delay { buffer, pointer: 0 }
    }

    pub fn len(&self) -> (r: usize)
        ensures
            r == self.line().len(),
    {
        self.buffer.len()
    }

    /// Moves the cursor one place on, back to 0 after the last position.
    pub fn advance(&mut self)
        requires
            old(self).wf(),
        ensures
            final(self).wf(),
            final(self).line() == old(self).line(),
            final(self).cursor() == (old(self).cursor() + 1) % (old(self).line().len() as int),
    {
        let n = self.buffer.len();
        proof {
            let c = self.pointer as int;
            if c + 1 < n {
                vstd::arithmetic::div_mod::lemma_small_mod((c + 1) as nat, n as nat);
            } else {
                vstd::arithmetic::div_mod::lemma_mod_self_0(n as int);
            }
        }
        if self.pointer + 1 == n {
            self.pointer = 0;
        } else {
            self.pointer = self.pointer + 1;
        }
    }

    /// Sets every sample of the ring to `zero` and the cursor to 0.
    pub fn reset(&mut self, zero: T)
        requires
            old(self).wf(),
        ensures
            final(self).wf(),
            final(self).line() == Seq::new(old(self).line().len(), |_i: int| zero),
            final(self).cursor() == 0,
    {
        self.pointer = 0;
        let n = self.buffer.len();
        let mut i: usize = 0;
        while i < n
            invariant
                i <= n == self.buffer@.len() == old(self).buffer@.len(),
                self.pointer == 0,
                forall|j: int| 0 <= j < i ==> self.buffer@[j] == zero,
            decreases n - i,
        {
            self.buffer.set(i, zero);
            i = i + 1;
        }
        proof {
            assert(self.buffer@ =~= Seq::new(old(self).line().len(), |_i: int| zero));
        }
    }

    /// The sample under the cursor.
    pub fn current(&self) -> (r: T)
        requires
            self.wf(),
        ensures
            r == self.line()[self.cursor()],
    {
        self.buffer[self.pointer]
    }

    /// Passes one sample through the ring: `step(x, d)` with `d` the value
    /// under the cursor gives the output and the value stored back in `d`'s
    /// place; then the cursor advances.
    pub fn tick<F: Fn(T, T) -> (T, T)>(&mut self, x: T, step: &F) -> (y: T)
        requires
            old(self).wf(),
            forall|a: T, b: T| step.requires((a, b)),
        ensures
            final(self).wf(),
            exists|w: T|
                step.ensures((x, old(self).line()[old(self).cursor()]), (y, w))
                && final(self).line() == old(self).line().update(old(self).cursor(), w),
            final(self).cursor() == (old(self).cursor() + 1) % (old(self).line().len() as int),
    {
        let d = self.buffer[self.pointer];
        let (y, w) = step(x, d);
        self.buffer.set(self.pointer, w);
        self.advance();
        y
    }

    /// Runs the block `x` through the ring into `y`, one `tick` per sample.
    /// The blocks must have equal lengths; otherwise nothing changes and the
    /// two lengths are reported.
    pub fn process<F: Fn(T, T) -> (T, T)>(&mut self, x: &[T], y: &mut [T], step: &F) -> (r: Result<(), LengthMismatch>)
        requires
            old(self).wf(),
            forall|a: T, b: T| step.requires((a, b)),
        ensures
            final(self).wf(),
            final(self).line().len() == old(self).line().len(),
            r is Ok <==> x@.len() == old(y)@.len(),
            r is Err ==> r == Err::<(), LengthMismatch>(LengthMismatch { input: x@.len() as usize, output: old(y)@.len() as usize })
                && final(self).line() == old(self).line()
                && final(self).cursor() == old(self).cursor()
                && final(y)@ == old(y)@,
            r is Ok ==> exists|ws: Seq<T>|
                delay_run(old(self).line(), old(self).cursor(), x@, final(y)@, ws, *step)
                && final(self).line() == after_writes(old(self).line(), old(self).cursor(), ws),
            r is Ok ==> final(self).cursor() == (old(self).cursor() + x@.len()) % (old(self).line().len() as int),
    {
        if x.len() != y.len() {
            return Err(LengthMismatch { input: x.len(), output: y.len() });
        }
        let n = x.len();
        let ghost line0 = self.line();
        let ghost c = self.cursor();
        let ghost len = self.line().len() as int;
        let ghost mut ws: Seq<T> = Seq::empty();
        let mut i: usize = 0;
        proof {
            vstd::arithmetic::div_mod::lemma_small_mod(c as nat, len as nat);
        }
        while i < n
            invariant
                self.wf(),
                len == line0.len(),
                0 <= c < len,
                n == x@.len() == y@.len(),
                i <= n,
                ws.len() == i,
                self.line() == after_writes(line0, c, ws),
                self.line().len() == len,
                self.cursor() == (c + i) % len,
                forall|a: T, b: T| step.requires((a, b)),
                forall|k: int|
                    0 <= k < i ==> #[trigger] step.ensures(
                        (x@[k], after_writes(line0, c, ws.take(k))[(c + k) % len]),
                        (y@[k], ws[k]),
                    ),
            decreases n - i,
        {
            let ghost pre = self.line();
            let ghost at = self.cursor();
            let v = self.tick(x[i], step);
            let ghost w = choose|w: T|
                step.ensures((x@[i as int], pre[at]), (v, w)) && self.line() == pre.update(at, w);
            let ghost y_before = y@;
            y[i] = v;
            proof {
                let ws2 = ws.push(w);
                assert(ws2.drop_last() =~= ws);
                assert(ws2.take(i as int) =~= ws);
                assert forall|k: int| 0 <= k <= i implies #[trigger] ws2.take(k) == ws.take(k) by {
                    assert(ws2.take(k) =~= ws.take(k));
                }
                vstd::arithmetic::div_mod::lemma_add_mod_noop_right(1, c + i, len);
                assert forall|k: int| 0 <= k < i + 1 implies #[trigger] step.ensures(
                    (x@[k], after_writes(line0, c, ws2.take(k))[(c + k) % len]),
                    (y@[k], ws2[k]),
                ) by {
                    if k < i {
                        assert(y@[k] == y_before[k]);
                        assert(ws2[k] == ws[k]);
                        assert(step.ensures(
                            (x@[k], after_writes(line0, c, ws.take(k))[(c + k) % len]),
                            (y_before[k], ws[k]),
                        ));
                    } else {
                        assert(ws2.take(k) == ws);
                    }
                }
                ws = ws2;
            }
            i = i + 1;
        }
        Ok(())
    }
}

proof fn lemma_writes_keep_constant<T>(line: Seq<T>, c: int, ws: Seq<T>, z: T)
    requires
        line.len() > 0,
        forall|j: int| 0 <= j < line.len() ==> line[j] == z,
        forall|j: int| 0 <= j < ws.len() ==> ws[j] == z,
    ensures
        after_writes(line, c, ws) == line,
    decreases ws.len(),
{
    if ws.len() > 0 {
        let init = ws.drop_last();
        assert forall|j: int| 0 <= j < init.len() implies init[j] == z by {
            assert(init[j] == ws[j]);
        }
        lemma_writes_keep_constant(line, c, init, z);
        let p = (c + ws.len() - 1) % (line.len() as int);
        vstd::arithmetic::div_mod::lemma_mod_bound(c + ws.len() - 1, line.len() as int);
        assert(line.update(p, ws.last()) =~= line);
    }
}

proof fn lemma_silent_prefix<T, F: Fn(T, T) -> (T, T)>(
    line: Seq<T>,
    c: int,
    xs: Seq<T>,
    ys: Seq<T>,
    ws: Seq<T>,
    step: F,
    z: T,
    n: int,
)
    requires
        line.len() > 0,
        forall|j: int| 0 <= j < line.len() ==> line[j] == z,
        forall|j: int| 0 <= j < xs.len() ==> xs[j] == z,
        forall|a: T, b: T| step.ensures((z, z), (a, b)) ==> a == z && b == z,
        delay_run(line, c, xs, ys, ws, step),
        0 <= n <= xs.len(),
    ensures
        forall|j: int| 0 <= j < n ==> ws[j] == z && ys[j] == z,
    decreases n,
{
    if n > 0 {
        let k = n - 1;
        lemma_silent_prefix(line, c, xs, ys, ws, step, z, k);
        let pre = ws.take(k);
        assert forall|j: int| 0 <= j < pre.len() implies pre[j] == z by {
            assert(pre[j] == ws[j]);
        }
        lemma_writes_keep_constant(line, c, pre, z);
        vstd::arithmetic::div_mod::lemma_mod_bound(c + k, line.len() as int);
        assert(step.ensures(
            (xs[k], after_writes(line, c, ws.take(k))[(c + k) % (line.len() as int)]),
            (ys[k], ws[k]),
        ));
    }
}

/// A ring that holds only `z`, fed only `z`, gives only `z` back, provided
/// `step` turns a pair of `z` into a pair of `z`: silence in, silence out,
/// however long the block.
pub proof fn lemma_silence_stays_silent<T, F: Fn(T, T) -> (T, T)>(
    line: Seq<T>,
    c: int,
    xs: Seq<T>,
    ys: Seq<T>,
    ws: Seq<T>,
    step: F,
    z: T,
)
    requires
        line.len() > 0,
        forall|j: int| 0 <= j < line.len() ==> line[j] == z,
        forall|j: int| 0 <= j < xs.len() ==> xs[j] == z,
        forall|a: T, b: T| step.ensures((z, z), (a, b)) ==> a == z && b == z,
        delay_run(line, c, xs, ys, ws, step),
    ensures
        forall|j: int| 0 <= j < ys.len() ==> ys[j] == z,
{
    lemma_silent_prefix(line, c, xs, ys, ws, step, z, xs.len() as int);
}

/// After `reset(zero)` the ring holds `zero` everywhere with the cursor at 0,
/// so the first sample `x` processed is combined with `zero` and with nothing
/// that came before the reset.
pub proof fn lemma_reset_forgets<T, F: Fn(T, T) -> (T, T)>(
    len: nat,
    zero: T,
    x: T,
    y: T,
    ws: Seq<T>,
    step: F,
)
    requires
        len > 0,
        delay_run(Seq::new(len, |_i: int| zero), 0, seq![x], seq![y], ws, step),
    ensures
        step.ensures((x, zero), (y, ws[0])),
{
    let line = Seq::new(len, |_i: int| zero);
    assert(ws.take(0) =~= Seq::<T>::empty());
    vstd::arithmetic::div_mod::lemma_small_mod(0, len);
    assert(step.ensures(
        (seq![x][0], after_writes(line, 0, ws.take(0))[(0int + 0int) % (line.len() as int)]),
        (seq![y][0], ws[0]),
    ));
}

} // verus!
