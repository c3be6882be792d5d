//! Giving out buffers that are free and taking note of those in use.

use vstd::prelude::*;
use vstd::std_specs::cmp::PartialEqSpec;

verus! {

/// A list of buffers, each with the key it was last given out for and the
/// number of uses it still has to serve. A buffer with no uses left is
/// free.
pub struct BufferAllocator<K: Eq> {
    buffers: Vec<(K, usize)>,
}

/// The first buffer from `from` on that has no uses left, or the length of
/// the list where there is none.
pub open spec fn first_free<K>(buffers: Seq<(K, usize)>, from: int) -> int
    decreases buffers.len() - from,
{
    if from < 0 || from >= buffers.len() {
        buffers.len() as int
    } else if buffers[from].1 == 0 {
        from
    } else {
        first_free(buffers, from + 1)
    }
}

impl<K: Eq> View for BufferAllocator<K> {
    type V = Seq<(K, usize)>;

    closed spec fn view(&self) -> Seq<(K, usize)> {
        self.buffers@
    }
}

impl<K: Eq> BufferAllocator<K> {
    /// Makes an allocator without buffers.
    pub fn new() -> (allocator: Self)
        ensures
            allocator@ == Seq::<(K, usize)>::empty(),
    {
        BufferAllocator { buffers: Vec::new() }
    }

    /// Gives out a buffer for `key`, to serve `uses` uses, and returns its
    /// index: the first free buffer, or a new one behind all others where
    /// none is free.
    pub fn allocate(&mut self, key: K, uses: usize) -> (idx: usize)
        ensures
            idx == first_free(old(self)@, 0),
            idx <= old(self)@.len(),
            idx < old(self)@.len() ==> old(self)@[idx as int].1 == 0,
            forall|i: int| 0 <= i < idx ==> (#[trigger] old(self)@[i]).1 != 0,
            final(self)@ == (if idx < old(self)@.len() {
                old(self)@.update(idx as int, (key, uses))
            } else {
                old(self)@.push((key, uses))
            }),
    {
        let mut idx: usize = 0;
        while idx < self.buffers.len()
            invariant
                idx <= self.buffers@.len(),
                *self == *old(self),
                first_free(self@, 0) == first_free(self@, idx as int),
                forall|i: int| 0 <= i < idx ==> (#[trigger] self@[i]).1 != 0,
            decreases self.buffers@.len() - idx,
        {
            if self.buffers[idx].1 == 0 {
                self.buffers[idx] = (key, uses);
                return idx;
            }
            idx += 1;
        }
        self.buffers.push((key, uses));
        idx
    }

    /// Whether a buffer was last given out for `key`.
    pub fn contains(&self, key: K) -> (found: bool)
        ensures
            K::obeys_eq_spec() ==> found == exists|i: int|
                0 <= i < self@.len() && (#[trigger] self@[i]).0.eq_spec(&key),
    {
        let mut idx: usize = 0;
        while idx < self.buffers.len()
            invariant
                idx <= self.buffers@.len(),
                K::obeys_eq_spec() ==> forall|i: int|
                    0 <= i < idx ==> !(#[trigger] self@[i]).0.eq_spec(&key),
            decreases self.buffers@.len() - idx,
        {
            if self.buffers[idx].0 == key {
                assert(K::obeys_eq_spec() ==> self@[idx as int].0.eq_spec(&key));
                return true;
            }
            idx += 1;
        }
        false
    }
}

} // verus!
