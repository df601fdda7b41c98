use vstd::prelude::*;
use crate::accumulator::Accumulator;

verus! {

/// Why a double-buffered capture refused a block.
#[derive(Clone, Copy, Debug, PartialEq, Eq, Structural)]
pub enum FeedError {
    /// The block, of this length, would complete two frames in one call.
    TooBig(usize),
    /// Both slots hold a complete frame, which the protocol never allows.
    BothFull,
}

/// Result and new contents of the filling slot and of the other slot after
/// `block` is fed to a pair whose filling slot holds `fill` and other slot
/// holds `other`, both of capacity `cap`.
pub open spec fn fed<T>(cap: nat, fill: Seq<T>, other: Seq<T>, block: Seq<T>) -> (
    Result<bool, FeedError>,
    Seq<T>,
    Seq<T>,
) {
    let room = cap - fill.len();
    if block.len() < room {
        (Ok(false), fill + block, other)
    } else {
        let rest = block.subrange(room, block.len() as int);
        if rest.len() < cap {
            (Ok(true), fill + block.take(room), rest)
        } else {
            (Err(FeedError::TooBig(block.len() as usize)), fill + block.take(room), rest.take(cap as int))
        }
    }
}

/// Two accumulators that alternate: one holds the last complete frame while
/// the other fills, so that a reader always finds a whole frame.
pub struct DoubleBuffer<T> {
    first: Accumulator<T>,
    second: Accumulator<T>,
}

impl<T: Copy> DoubleBuffer<T> {
    pub closed spec fn first_view(&self) -> Seq<T> {
        self.first.contents()
    }

    pub closed spec fn second_view(&self) -> Seq<T> {
        self.second.contents()
    }

    /// Samples per frame.
    pub closed spec fn frame_len(&self) -> nat {
        self.first.spec_capacity()
    }

    pub closed spec fn wf(&self) -> bool {
        &&& self.first.wf()
        &&& self.second.wf()
        &&& self.first.spec_capacity() == self.second.spec_capacity()
        &&& self.first.spec_capacity() > 0
    }

    pub open spec fn first_full(&self) -> bool {
        self.first_view().len() == self.frame_len()
    }

    pub open spec fn second_full(&self) -> bool {
        self.second_view().len() == self.frame_len()
    }

    /// Two empty slots of `size` samples each.
    pub fn new(size: usize, zero: T) -> (r: Self)
        requires
            size > 0,
        ensures
            r.wf(),
            r.frame_len() == size,
            r.first_view() == Seq::<T>::empty(),
            r.second_view() == Seq::<T>::empty(),
    {
        DoubleBuffer { first: Accumulator::new(size, zero), second: Accumulator::new(size, zero) }
    }

    pub fn frame_size(&self) -> (r: usize)
        requires
            self.wf(),
        ensures
            r == self.frame_len(),
    {
        self.first.capacity()
    }

    /// Takes in a block. While no slot is full the second slot fills; after
    /// that the slot that is not full fills. When the filling slot completes
    /// a frame, the other slot drops its old frame and takes the rest of the
    /// block, and `Ok(true)` says that a new frame is ready; a rest that
    /// would complete a second frame is refused with its block's length.
    pub fn feed(&mut self, block: &[T]) -> (r: Result<bool, FeedError>)
        requires
            old(self).wf(),
        ensures
            final(self).wf(),
            final(self).frame_len() == old(self).frame_len(),
            old(self).first_full() && old(self).second_full() ==> r == Err::<bool, FeedError>(FeedError::BothFull)
                && final(self).first_view() == old(self).first_view()
                && final(self).second_view() == old(self).second_view(),
            !old(self).first_full() && old(self).second_full() ==> (r, final(self).first_view(), final(self).second_view())
                == fed(old(self).frame_len(), old(self).first_view(), old(self).second_view(), block@),
            !old(self).second_full() ==> (r, final(self).second_view(), final(self).first_view())
                == fed(old(self).frame_len(), old(self).second_view(), old(self).first_view(), block@),
    {
        let first_full = self.first.is_full();
        let second_full = self.second.is_full();
        if first_full && second_full {
            return Err(FeedError::BothFull);
        }
        if second_full {
            feed_pair(&mut self.first, &mut self.second, block)
        } else {
            feed_pair(&mut self.second, &mut self.first, block)
        }
    }

    /// Copies the complete frame, if there is one, into `buf` and says
    /// whether there was one.
    pub fn time(&self, buf: &mut [T]) -> (r: bool)
        requires
            self.wf(),
            old(buf)@.len() == self.frame_len(),
        ensures
            r == (self.first_full() || self.second_full()),
            self.first_full() ==> final(buf)@ == self.first_view(),
            !self.first_full() && self.second_full() ==> final(buf)@ == self.second_view(),
            !r ==> final(buf)@ == old(buf)@,
    {
        if self.first.is_full() {
            copy_into(buf, self.first.contents_slice());
            true
        } else if self.second.is_full() {
            copy_into(buf, self.second.contents_slice());
            true
        } else {
            false
        }
    }

    /// The complete frame, if there is one.
    pub fn completed(&self) -> (r: Option<&[T]>)
        requires
            self.wf(),
        ensures
            r is Some == (self.first_full() || self.second_full()),
            self.first_full() ==> r.unwrap()@ == self.first_view(),
            !self.first_full() && self.second_full() ==> r.unwrap()@ == self.second_view(),
    {
        if self.first.is_full() {
            Some(self.first.contents_slice())
        } else if self.second.is_full() {
            Some(self.second.contents_slice())
        } else {
            None
        }
    }
}

fn copy_into<T: Copy>(dst: &mut [T], src: &[T])
    requires
        old(dst)@.len() == src@.len(),
    ensures
        final(dst)@ == src@,
{
    let n = src.len();
    let mut i: usize = 0;
    while i < n
        invariant
            n == src@.len() == dst@.len(),
            i <= n,
            forall|j: int| 0 <= j < i ==> dst@[j] == src@[j],
        decreases n - i,
    {
        dst[i] = src[i];
        i = i + 1;
    }
    proof {
        assert(dst@ =~= src@);
    }
}

fn feed_pair<T: Copy>(filling: &mut Accumulator<T>, other: &mut Accumulator<T>, block: &[T]) -> (r: Result<bool, FeedError>)
    requires
        old(filling).wf(),
        old(other).wf(),
        old(filling).spec_capacity() == old(other).spec_capacity(),
        old(filling).spec_capacity() > 0,
        old(filling).contents().len() < old(filling).spec_capacity(),
    ensures
        final(filling).wf(),
        final(other).wf(),
        final(filling).spec_capacity() == old(filling).spec_capacity(),
        final(other).spec_capacity() == old(other).spec_capacity(),
        (r, final(filling).contents(), final(other).contents())
            == fed(old(filling).spec_capacity(), old(filling).contents(), old(other).contents(), block@),
{
    let ghost cap = filling.spec_capacity();
    let ghost room = cap - filling.contents().len();
    let next = filling.fill(block, 0);
    if !filling.is_full() {
        proof {
            assert(block@.subrange(0, next as int) =~= block@);
        }
        return Ok(false);
    }
    proof {
        assert(block@.subrange(0, next as int) =~= block@.take(room));
    }
    other.empty();
    let after = other.fill(block, next);
    if other.is_full() {
        proof {
            assert(Seq::<T>::empty() + block@.subrange(next as int, after as int)
                =~= block@.subrange(room, block@.len() as int).take(cap as int));
        }
        Err(FeedError::TooBig(block.len()))
    } else {
        proof {
            assert(Seq::<T>::empty() + block@.subrange(next as int, after as int)
                =~= block@.subrange(room, block@.len() as int));
        }
        Ok(true)
    }
}

} // verus!
