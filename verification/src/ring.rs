//! A circular store of samples with a read cursor and a write cursor.
//!
//! The store never grows. Writing goes on at the write cursor and wraps at
//! the end, over the oldest samples; reading goes on at the read cursor and
//! wraps likewise. The distance from the read cursor forward to the write
//! cursor is the delay.

use vstd::arithmetic::div_mod::{
    lemma_add_mod_noop, lemma_fundamental_div_mod, lemma_mod_bound, lemma_mod_twice, lemma_small_mod,
    lemma_sub_mod_noop,
};
use vstd::prelude::*;

verus! {

/// A ring buffer as the contracts see it.
pub struct RingView<T> {
    /// The samples of the store, by position.
    pub buffer: Seq<T>,
    /// The position that is read next.
    pub read: int,
    /// The position that is written next.
    pub write: int,
}

impl<T> RingView<T> {
    /// Both cursors lie inside the store; in an empty store they are 0.
    pub open spec fn wf(self) -> bool {
        if self.buffer.len() == 0 {
            self.read == 0 && self.write == 0
        } else {
            0 <= self.read < self.buffer.len() && 0 <= self.write < self.buffer.len()
        }
    }

    /// The number of samples that the store holds.
    pub open spec fn size(self) -> int {
        self.buffer.len() as int
    }

    /// How far the read cursor is behind the write cursor.
    pub open spec fn delay(self) -> int {
        (self.write - self.read) % self.size()
    }

    /// The buffer after one sample was written.
    pub open spec fn push(self, sample: T) -> Self {
        RingView {
            buffer: self.buffer.update(self.write, sample),
            write: (self.write + 1) % self.size(),
            ..self
        }
    }

    /// The buffer after `samples` were written, one after the other.
    pub open spec fn write(self, samples: Seq<T>) -> Self
        decreases samples.len(),
    {
        if samples.len() == 0 {
            self
        } else {
            self.write(samples.drop_last()).push(samples.last())
        }
    }

    /// The next `n` samples from the read cursor on.
    pub open spec fn peek(self, n: nat) -> Seq<T> {
        Seq::new(n, |k: int| self.buffer[(self.read + k) % self.size()])
    }

    /// The buffer after `n` samples were read.
    pub open spec fn skip(self, n: nat) -> Self {
        RingView { read: (self.read + n) % self.size(), ..self }
    }

    /// The buffer with the read cursor `delay` samples behind the write
    /// cursor.
    pub open spec fn seek(self, delay: nat) -> Self {
        RingView { read: (self.write - delay) % self.size(), ..self }
    }
}

/// A fixed-size circular store of samples.
pub struct RingBuffer<T> {
    buffer: Vec<T>,
    read_idx: usize,
    write_idx: usize,
}

impl<T> View for RingBuffer<T> {
    type V = RingView<T>;

    closed spec fn view(&self) -> RingView<T> {
        RingView {
            buffer: self.buffer@,
            read: self.read_idx as int,
            write: self.write_idx as int,
        }
    }
}

/// Advancing a position by one and wrapping is the same before and after
/// the position was wrapped.
proof fn lemma_wrap_step(x: int, n: int)
    requires
        n > 0,
    ensures
        (x % n + 1) % n == (x + 1) % n,
        0 <= x % n < n,
{
    lemma_add_mod_noop(x, 1, n);
    lemma_mod_twice(x, n);
    lemma_add_mod_noop(x % n, 1, n);
    lemma_mod_bound(x, n);
}

/// The position `offset` samples away from `base` in a store of `size`
/// samples.
fn wrap_index(base: usize, offset: isize, size: usize) -> (at: usize)
    requires
        size > 0,
        base < size,
    ensures
        at == (base + offset) % (size as int),
        at < size,
{
    proof {
        let n = size as int;
        lemma_add_mod_noop(base as int, offset as int, n);
        lemma_small_mod(base as nat, size as nat);
        lemma_mod_bound(offset as int, n);
        lemma_mod_bound(base + offset, n);
    }
    if offset >= 0 {
        let step = (offset as usize) % size;
        proof {
            let n = size as int;
            if base + step < n {
                lemma_small_mod((base + step) as nat, size as nat);
            } else {
                lemma_small_mod((base + step - n) as nat, size as nat);
                vstd::arithmetic::div_mod::lemma_mod_add_multiples_vanish(base + step - n, n);
            }
        }
        if step < size - base {
            base + step
        } else {
            step - (size - base)
        }
    } else {
        // The distance backwards, which fits in a `usize` also where `offset`
        // is the least of its type.
        let back = ((-(offset + 1)) as usize + 1) % size;
        proof {
            let n = size as int;
            let distance = -(offset as int);
            lemma_sub_mod_noop(base as int, distance, n);
            lemma_mod_bound(distance, n);
            if base >= back {
                lemma_small_mod((base - back) as nat, size as nat);
            } else {
                lemma_small_mod((base - back + n) as nat, size as nat);
                vstd::arithmetic::div_mod::lemma_mod_add_multiples_vanish(base - back, n);
            }
        }
        if base >= back {
            base - back
        } else {
            size - back + base
        }
    }
}

impl<T> RingBuffer<T> {
    #[verifier::type_invariant]
    spec fn inv(self) -> bool {
        self@.wf()
    }
}

impl<T: Copy> RingBuffer<T> {
    /// Makes a ring buffer of `size` samples, all of them `fill`, with both
    /// cursors at the start.
    pub fn new(size: usize, fill: T) -> (ring: Self)
        ensures
            ring@.wf(),
            ring@.buffer == Seq::new(size as nat, |i: int| fill),
            ring@.read == 0,
            ring@.write == 0,
    {
        let mut buffer: Vec<T> = Vec::new();
        while buffer.len() < size
            invariant
                buffer@.len() <= size,
                forall|i: int| 0 <= i < buffer@.len() ==> buffer@[i] == fill,
            decreases size - buffer@.len(),
        {
            buffer.push(fill);
        }
        assert(buffer@ =~= Seq::new(size as nat, |i: int| fill));
        RingBuffer { buffer, read_idx: 0, write_idx: 0 }
    }

    /// The number of samples that the buffer holds.
    pub fn size(&self) -> (size: usize)
        ensures
            size == self@.size(),
            self@.wf(),
    {
        proof {
            use_type_invariant(self);
        }
        self.buffer.len()
    }

    /// How far the read cursor is behind the write cursor, in samples.
    pub fn delay(&self) -> (delay: usize)
        requires
            self@.size() > 0,
        ensures
            delay == self@.delay(),
            delay < self@.size(),
    {
        proof {
            use_type_invariant(self);
            let n = self@.size();
            let d = self@.write - self@.read;
            if d >= 0 {
                lemma_small_mod(d as nat, n as nat);
            } else {
                lemma_small_mod((d + n) as nat, n as nat);
                vstd::arithmetic::div_mod::lemma_mod_add_multiples_vanish(d, n);
            }
        }
        if self.write_idx >= self.read_idx {
            self.write_idx - self.read_idx
        } else {
            self.buffer.len() - self.read_idx + self.write_idx
        }
    }

    /// Puts the read cursor `delay` samples behind the write cursor. A
    /// delay of a whole turn or more comes to the same as the rest of it.
    pub fn seek(&mut self, delay: usize)
        requires
            old(self)@.size() > 0,
        ensures
            final(self)@ == old(self)@.seek(delay as nat),
            final(self)@.wf(),
    {
        proof {
            use_type_invariant(&*self);
        }
        let size = self.buffer.len();
        let back = delay % size;
        let read_idx = if self.write_idx >= back {
            self.write_idx - back
        } else {
            size - back + self.write_idx
        };
        proof {
            let n = size as int;
            let w = self.write_idx as int;
            lemma_sub_mod_noop(w, delay as int, n);
            lemma_small_mod(w as nat, n as nat);
            if w >= back {
                lemma_small_mod((w - back) as nat, n as nat);
            } else {
                lemma_small_mod((w - back + n) as nat, n as nat);
                vstd::arithmetic::div_mod::lemma_mod_add_multiples_vanish(w - back, n);
            }
            assert(read_idx == (w - delay) % n);
        }
        self.read_idx = read_idx;
    }

    /// The samples from `i` to `j` samples behind or before the read
    /// cursor, as the store holds them: in one piece where they do not go
    /// over the end of the store, and in two where they do. Where `i` and
    /// `j` name the same position, the two pieces are the whole store from
    /// that position on.
    pub fn slice_read(&self, i: isize, j: isize) -> (parts: (&[T], &[T]))
        requires
            0 <= j - i < self@.size(),
        ensures
            ({
                let from = (self@.read + i) % self@.size();
                let to = (self@.read + j) % self@.size();
                if from < to {
                    parts.0@ == self@.buffer.subrange(from, to) && parts.1@.len() == 0
                } else {
                    parts.0@ == self@.buffer.subrange(from, self@.size()) && parts.1@
                        == self@.buffer.subrange(0, to)
                }
            }),
    {
        proof {
            use_type_invariant(self);
        }
        let size = self.buffer.len();
        let from = wrap_index(self.read_idx, i, size);
        let to = wrap_index(self.read_idx, j, size);
        if from < to {
            (
                vstd::slice::slice_subrange(self.buffer.as_slice(), from, to),
                vstd::slice::slice_subrange(self.buffer.as_slice(), to, to),
            )
        } else {
            (
                vstd::slice::slice_subrange(self.buffer.as_slice(), from, size),
                vstd::slice::slice_subrange(self.buffer.as_slice(), 0, to),
            )
        }
    }

    /// Moves the read cursor by `offset` samples, forwards or backwards.
    pub fn seek_read(&mut self, offset: isize)
        requires
            old(self)@.size() > 0,
        ensures
            final(self)@ == (RingView {
                read: (old(self)@.read + offset) % old(self)@.size(),
                ..old(self)@
            }),
            final(self)@.wf(),
    {
        proof {
            use_type_invariant(&*self);
        }
        let read_idx = wrap_index(self.read_idx, offset, self.buffer.len());
        self.read_idx = read_idx;
    }

    /// Moves the write cursor by `offset` samples, forwards or backwards.
    pub fn seek_write(&mut self, offset: isize)
        requires
            old(self)@.size() > 0,
        ensures
            final(self)@ == (RingView {
                write: (old(self)@.write + offset) % old(self)@.size(),
                ..old(self)@
            }),
            final(self)@.wf(),
    {
        proof {
            use_type_invariant(&*self);
        }
        let write_idx = wrap_index(self.write_idx, offset, self.buffer.len());
        self.write_idx = write_idx;
    }

    /// Puts the read cursor `delay` samples behind the write cursor.
    pub fn sync_read_to_write(&mut self, delay: usize)
        requires
            old(self)@.size() > 0,
        ensures
            final(self)@ == old(self)@.seek(delay as nat),
            final(self)@.wf(),
    {
        self.seek(delay)
    }

    /// Copies the next samples from the read cursor on into `samples`, as
    /// many as it holds, and leaves the read cursor where it is.
    pub fn peek(&self, samples: &mut [T])
        requires
            old(samples)@.len() == 0 || self@.size() > 0,
        ensures
            final(samples)@ == self@.peek(old(samples)@.len()),
    {
        proof {
            use_type_invariant(self);
        }
        let count = samples.len();
        if count == 0 {
            assert(samples@ =~= self@.peek(0));
            return ;
        }
        let size = self.buffer.len();
        let mut at = self.read_idx;
        let mut k: usize = 0;
        proof {
            lemma_small_mod(at as nat, size as nat);
        }
        while k < count
            invariant
                size == self.buffer@.len(),
                size > 0,
                samples@.len() == count,
                k <= count,
                at < size,
                at == (self@.read + k) % (size as int),
                forall|j: int| 0 <= j < k ==> samples@[j] == self@.peek(count as nat)[j],
            decreases count - k,
        {
            samples[k] = self.buffer[at];
            proof {
                lemma_wrap_step(self@.read + k, size as int);
                if at + 1 == size {
                    vstd::arithmetic::div_mod::lemma_mod_self_0(size as int);
                } else {
                    lemma_small_mod((at + 1) as nat, size as nat);
                }
            }
            at = if at + 1 == size {
                0
            } else {
                at + 1
            };
            k += 1;
        }
        assert(samples@ =~= self@.peek(count as nat));
    }

    /// Moves the read cursor on by `count` samples.
    pub fn skip(&mut self, count: usize)
        requires
            old(self)@.size() > 0,
        ensures
            final(self)@ == old(self)@.skip(count as nat),
            final(self)@.wf(),
    {
        proof {
            use_type_invariant(&*self);
        }
        let size = self.buffer.len();
        let step = count % size;
        let room = size - self.read_idx;
        let read_idx = if step < room {
            self.read_idx + step
        } else {
            step - room
        };
        proof {
            let n = size as int;
            let r = self.read_idx as int;
            lemma_add_mod_noop(r, count as int, n);
            lemma_small_mod(r as nat, n as nat);
            if step < room {
                lemma_small_mod((r + step) as nat, n as nat);
            } else {
                lemma_small_mod((r + step - n) as nat, n as nat);
                vstd::arithmetic::div_mod::lemma_mod_add_multiples_vanish(r + step - n, n);
            }
            assert(read_idx == (r + count) % n);
        }
        self.read_idx = read_idx;
    }

    /// Copies the next samples from the read cursor on into `samples`, as
    /// many as it holds, and moves the read cursor behind them.
    pub fn read(&mut self, samples: &mut [T])
        requires
            old(samples)@.len() == 0 || old(self)@.size() > 0,
        ensures
            final(samples)@ == old(self)@.peek(old(samples)@.len()),
            final(self)@ == (if old(samples)@.len() == 0 {
                old(self)@
            } else {
                old(self)@.skip(old(samples)@.len())
            }),
            final(self)@.wf(),
    {
        proof {
            use_type_invariant(&*self);
        }
        self.peek(samples);
        if samples.len() > 0 {
            self.skip(samples.len());
        }
    }

    /// Writes `samples` at the write cursor, one after the other, and moves
    /// the write cursor behind them. Samples that do not fit overwrite the
    /// oldest ones.
    pub fn write(&mut self, samples: &[T])
        requires
            samples@.len() == 0 || old(self)@.size() > 0,
        ensures
            final(self)@ == old(self)@.write(samples@),
            final(self)@.wf(),
            final(self)@.size() == old(self)@.size(),
    {
        proof {
            use_type_invariant(&*self);
        }
        let count = samples.len();
        if count == 0 {
            return ;
        }
        let size = self.buffer.len();
        let mut at = self.write_idx;
        let mut k: usize = 0;
        assert(samples@.take(0) =~= Seq::<T>::empty());
        let ghost read = self@.read;
        while k < count
            invariant
                size == self.buffer@.len(),
                size > 0,
                count == samples@.len(),
                k <= count,
                at < size,
                self.read_idx == read,
                read == old(self)@.read,
                self.write_idx == old(self).write_idx,
                0 <= read < size,
                self.write_idx < size,
                (RingView { buffer: self.buffer@, read, write: at as int }) == old(self)@.write(
                    samples@.take(k as int),
                ),
            decreases count - k,
        {
            let ghost before = RingView { buffer: self.buffer@, read, write: at as int };
            self.buffer[at] = samples[k];
            proof {
                let prefix = samples@.take(k + 1);
                assert(prefix.drop_last() =~= samples@.take(k as int));
                assert(prefix.last() == samples@[k as int]);
                if at + 1 == size {
                    vstd::arithmetic::div_mod::lemma_mod_self_0(size as int);
                } else {
                    lemma_small_mod((at + 1) as nat, size as nat);
                }
                assert(old(self)@.write(prefix) == before.push(samples@[k as int]));
            }
            at = if at + 1 == size {
                0
            } else {
                at + 1
            };
            k += 1;
        }
        assert(samples@.take(count as int) =~= samples@);
        self.write_idx = at;
    }
}

/// Positions less than a whole turn apart are different positions.
proof fn lemma_distinct_positions(start: int, a: int, b: int, n: int)
    requires
        n > 0,
        0 <= a < b < n,
    ensures
        (start + a) % n != (start + b) % n,
{
    if (start + a) % n == (start + b) % n {
        lemma_fundamental_div_mod(start + a, n);
        lemma_fundamental_div_mod(start + b, n);
        let qa = (start + a) / n;
        let qb = (start + b) / n;
        assert(b - a == n * (qb - qa)) by (nonlinear_arith)
            requires
                start + a == n * qa + (start + a) % n,
                start + b == n * qb + (start + b) % n,
                (start + a) % n == (start + b) % n,
        ;
        assert(false) by (nonlinear_arith)
            requires
                b - a == n * (qb - qa),
                0 < b - a < n,
        ;
    }
}

/// Moving on by `a` and then by `b`, wrapping each time, is moving on by
/// `a + b`.
proof fn lemma_wrap_twice(start: int, a: int, b: int, n: int)
    requires
        n > 0,
    ensures
        ((start + a) % n + b) % n == (start + a + b) % n,
{
    lemma_add_mod_noop(start + a, b, n);
    lemma_mod_twice(start + a, n);
    lemma_add_mod_noop((start + a) % n, b, n);
}

/// Writing moves the write cursor and nothing else: the store keeps its
/// size and the read cursor stays.
pub proof fn lemma_write_keeps_shape<T>(v: RingView<T>, samples: Seq<T>)
    requires
        v.wf(),
        v.size() > 0,
    ensures
        v.write(samples).wf(),
        v.write(samples).size() == v.size(),
        v.write(samples).read == v.read,
        v.write(samples).write == (v.write + samples.len()) % v.size(),
    decreases samples.len(),
{
    if samples.len() == 0 {
        lemma_small_mod(v.write as nat, v.size() as nat);
    } else {
        lemma_write_keeps_shape(v, samples.drop_last());
        lemma_wrap_twice(v.write, samples.len() - 1, 1, v.size());
        lemma_mod_bound(v.write + samples.len(), v.size());
    }
}

/// Samples written behind the samples held come out behind them.
///
/// Say the buffer holds `held` samples that were not read yet, so that the
/// write cursor is `held` positions ahead of the read cursor. If `samples`
/// fit in beside them, then after the write the buffer holds the samples
/// held before, followed by `samples`.
pub proof fn lemma_write_appends<T>(v: RingView<T>, samples: Seq<T>, held: nat)
    requires
        v.wf(),
        v.size() > 0,
        (v.read + held) % v.size() == v.write,
        held + samples.len() <= v.size(),
    ensures
        v.write(samples).peek(held + samples.len()) == v.peek(held) + samples,
        (v.read + held + samples.len()) % v.size() == v.write(samples).write,
    decreases samples.len(),
{
    let n = v.size();
    lemma_write_keeps_shape(v, samples);
    if samples.len() == 0 {
        assert(v.write(samples).peek(held) =~= v.peek(held) + samples);
    } else {
        let front = samples.drop_last();
        let mid = v.write(front);
        lemma_write_appends(v, front, held);
        lemma_write_keeps_shape(v, front);
        let count = held + samples.len();
        lemma_wrap_twice(v.read, (held + front.len()) as int, 1, n);
        let after = v.write(samples);
        assert(after == mid.push(samples.last()));
        assert forall|k: int| 0 <= k < count implies after.peek(count)[k] == (v.peek(held)
            + samples)[k] by {
            if k < count - 1 {
                lemma_distinct_positions(v.read, k, count - 1, n);
                assert(mid.peek((count - 1) as nat)[k] == (v.peek(held) + front)[k]);
            }
        }
        assert(after.peek(count) =~= v.peek(held) + samples);
    }
}

/// Reading takes the oldest samples held and leaves the others.
///
/// Of `held` samples that the buffer holds, a read of `n` returns the first
/// `n`; afterwards the buffer holds the other `held - n`.
pub proof fn lemma_read_takes<T>(v: RingView<T>, held: nat, n: nat)
    requires
        v.wf(),
        v.size() > 0,
        n <= held,
    ensures
        v.peek(n) == v.peek(held).take(n as int),
        v.skip(n).peek((held - n) as nat) == v.peek(held).skip(n as int),
        v.skip(n).wf(),
        (v.skip(n).read + (held - n)) % v.size() == (v.read + held) % v.size(),
{
    let size = v.size();
    assert(v.peek(n) =~= v.peek(held).take(n as int));
    lemma_mod_bound(v.read + n, size);
    assert forall|k: int| 0 <= k < held - n implies v.skip(n).peek((held - n) as nat)[k] == v.peek(
        held,
    ).skip(n as int)[k] by {
        lemma_wrap_twice(v.read, n as int, k, size);
    }
    assert(v.skip(n).peek((held - n) as nat) =~= v.peek(held).skip(n as int));
    lemma_wrap_twice(v.read, n as int, (held - n) as int, size);
}

/// The buffer after each of `writes` was written, in order.
pub open spec fn write_all<T>(v: RingView<T>, writes: Seq<Seq<T>>) -> RingView<T>
    decreases writes.len(),
{
    if writes.len() == 0 {
        v
    } else {
        write_all(v, writes.drop_last()).write(writes.last())
    }
}

/// All samples of `writes`, in order.
pub open spec fn all_samples<T>(writes: Seq<Seq<T>>) -> Seq<T>
    decreases writes.len(),
{
    if writes.len() == 0 {
        Seq::empty()
    } else {
        all_samples(writes.drop_last()) + writes.last()
    }
}

/// What reads of the lengths `reads` return, one after the other, put
/// together.
pub open spec fn read_all<T>(v: RingView<T>, reads: Seq<nat>) -> Seq<T>
    decreases reads.len(),
{
    if reads.len() == 0 {
        Seq::empty()
    } else {
        v.peek(reads[0]) + read_all(v.skip(reads[0]), reads.drop_first())
    }
}

/// The sum of the lengths `reads`.
pub open spec fn total(reads: Seq<nat>) -> nat
    decreases reads.len(),
{
    if reads.len() == 0 {
        0
    } else {
        reads[0] + total(reads.drop_first())
    }
}

proof fn lemma_write_all_appends<T>(v: RingView<T>, writes: Seq<Seq<T>>, held: nat)
    requires
        v.wf(),
        v.size() > 0,
        (v.read + held) % v.size() == v.write,
        held + all_samples(writes).len() <= v.size(),
    ensures
        write_all(v, writes).wf(),
        write_all(v, writes).size() == v.size(),
        write_all(v, writes).read == v.read,
        write_all(v, writes).peek(held + all_samples(writes).len()) == v.peek(held) + all_samples(
            writes,
        ),
        (v.read + held + all_samples(writes).len()) % v.size() == write_all(v, writes).write,
    decreases writes.len(),
{
    if writes.len() == 0 {
        assert(v.peek(held) + all_samples(writes) =~= v.peek(held));
    } else {
        let front = writes.drop_last();
        lemma_write_all_appends(v, front, held);
        let mid = write_all(v, front);
        let before = held + all_samples(front).len();
        lemma_write_keeps_shape(mid, writes.last());
        lemma_write_appends(mid, writes.last(), before);
        assert((v.peek(held) + all_samples(front)) + writes.last() =~= v.peek(held) + all_samples(
            writes,
        ));
    }
}

proof fn lemma_read_all_takes<T>(v: RingView<T>, reads: Seq<nat>, held: nat)
    requires
        v.wf(),
        v.size() > 0,
        total(reads) <= held,
    ensures
        read_all(v, reads) == v.peek(held).take(total(reads) as int),
    decreases reads.len(),
{
    if reads.len() == 0 {
        assert(read_all(v, reads) =~= v.peek(held).take(0));
    } else {
        let n = reads[0];
        let rest = reads.drop_first();
        lemma_read_takes(v, held, n);
        lemma_read_all_takes(v.skip(n), rest, (held - n) as nat);
        assert(v.peek(held).take(n as int) + v.peek(held).skip(n as int).take(
            total(rest) as int,
        ) =~= v.peek(held).take(total(reads) as int));
    }
}

/// What goes into a ring buffer comes out of it, in the order in which it
/// went in, wherever the cursors stand and however often they wrap.
///
/// Take a buffer that holds `held` unread samples, write `writes` into it,
/// one after the other, and then read blocks of the lengths `reads`. If
/// the writes fit in beside the samples held, and no more is read than the
/// buffer then holds, the blocks read are, put together, the start of the
/// samples held followed by all samples written.
pub proof fn lemma_round_trip<T>(v: RingView<T>, held: nat, writes: Seq<Seq<T>>, reads: Seq<nat>)
    requires
        v.wf(),
        v.size() > 0,
        (v.read + held) % v.size() == v.write,
        held + all_samples(writes).len() <= v.size(),
        total(reads) <= held + all_samples(writes).len(),
    ensures
        read_all(write_all(v, writes), reads) == (v.peek(held) + all_samples(writes)).take(
            total(reads) as int,
        ),
{
    lemma_write_all_appends(v, writes, held);
    lemma_read_all_takes(write_all(v, writes), reads, held + all_samples(writes).len());
}

/// One call of a ring buffer: a write of samples, or a read of a number of
/// samples.
pub enum RingCall<T> {
    Write { samples: Seq<T> },
    Read { count: nat },
}

/// The buffer after the first `upto` of `calls`.
pub open spec fn after_calls<T>(v: RingView<T>, calls: Seq<RingCall<T>>, upto: int) -> RingView<T>
    decreases upto,
{
    if upto <= 0 {
        v
    } else {
        let before = after_calls(v, calls, upto - 1);
        match calls[upto - 1] {
            RingCall::Write { samples } => before.write(samples),
            RingCall::Read { count } => before.skip(count),
        }
    }
}

/// All samples that the first `upto` of `calls` write, in order.
pub open spec fn written_by<T>(calls: Seq<RingCall<T>>, upto: int) -> Seq<T>
    decreases upto,
{
    if upto <= 0 {
        Seq::empty()
    } else {
        match calls[upto - 1] {
            RingCall::Write { samples } => written_by(calls, upto - 1) + samples,
            RingCall::Read { count } => written_by(calls, upto - 1),
        }
    }
}

/// All samples that the reads among the first `upto` of `calls` return,
/// in order.
pub open spec fn read_by<T>(v: RingView<T>, calls: Seq<RingCall<T>>, upto: int) -> Seq<T>
    decreases upto,
{
    if upto <= 0 {
        Seq::empty()
    } else {
        match calls[upto - 1] {
            RingCall::Write { samples } => read_by(v, calls, upto - 1),
            RingCall::Read { count } => read_by(v, calls, upto - 1) + after_calls(
                v,
                calls,
                upto - 1,
            ).peek(count),
        }
    }
}

/// Whether each of the first `upto` of `calls` finds room: a write beside
/// the unread samples, of which a buffer of `size` samples with `held`
/// unread samples holds `size` at most, and a read within them.
pub open spec fn calls_fit<T>(calls: Seq<RingCall<T>>, held: nat, size: int, upto: int) -> bool
    decreases upto,
{
    if upto <= 0 {
        true
    } else {
        let unread = held + written_by(calls, upto - 1).len() - read_by_len(calls, upto - 1);
        calls_fit(calls, held, size, upto - 1) && match calls[upto - 1] {
            RingCall::Write { samples } => unread + samples.len() <= size,
            RingCall::Read { count } => count <= unread,
        }
    }
}

/// The number of samples that the reads among the first `upto` of `calls`
/// ask for.
pub open spec fn read_by_len<T>(calls: Seq<RingCall<T>>, upto: int) -> nat
    decreases upto,
{
    if upto <= 0 {
        0
    } else {
        match calls[upto - 1] {
            RingCall::Write { samples } => read_by_len(calls, upto - 1),
            RingCall::Read { count } => read_by_len(calls, upto - 1) + count,
        }
    }
}

/// What goes into a ring buffer comes out of it in the same order, with
/// writes and reads in any turn, wherever the cursors stand and however
/// often they wrap.
///
/// Take a buffer that holds `held` unread samples, and make the first `upto`
/// of `calls`, each of which finds room. What the reads have returned is,
/// put together, the start of the samples held followed by the samples
/// written; the buffer holds the rest of them unread.
pub proof fn lemma_round_trip_in_turn<T>(
    v: RingView<T>,
    held: nat,
    calls: Seq<RingCall<T>>,
    upto: int,
)
    requires
        v.wf(),
        v.size() > 0,
        (v.read + held) % v.size() == v.write,
        held <= v.size(),
        0 <= upto <= calls.len(),
        calls_fit(calls, held, v.size(), upto),
    ensures
        read_by(v, calls, upto).len() == read_by_len(calls, upto),
        read_by_len(calls, upto) <= held + written_by(calls, upto).len(),
        held + written_by(calls, upto).len() - read_by_len(calls, upto) <= v.size(),
        read_by(v, calls, upto) == (v.peek(held) + written_by(calls, upto)).take(
            read_by_len(calls, upto) as int,
        ),
        after_calls(v, calls, upto).peek(
            (held + written_by(calls, upto).len() - read_by_len(calls, upto)) as nat,
        ) == (v.peek(held) + written_by(calls, upto)).skip(read_by_len(calls, upto) as int),
        after_calls(v, calls, upto).wf(),
        after_calls(v, calls, upto).size() == v.size(),
        (after_calls(v, calls, upto).read + (held + written_by(calls, upto).len() - read_by_len(
            calls,
            upto,
        ))) % v.size() == after_calls(v, calls, upto).write,
    decreases upto,
{
    let all = v.peek(held) + written_by(calls, upto);
    if upto == 0 {
        assert(all =~= v.peek(held));
        assert(all.take(0) =~= Seq::<T>::empty());
        assert(all.skip(0) =~= all);
    } else {
        lemma_round_trip_in_turn(v, held, calls, upto - 1);
        let before = after_calls(v, calls, upto - 1);
        let wrote = written_by(calls, upto - 1);
        let taken = read_by_len(calls, upto - 1);
        let unread = (held + wrote.len() - taken) as nat;
        let earlier = v.peek(held) + wrote;
        match calls[upto - 1] {
            RingCall::Write { samples } => {
                lemma_write_keeps_shape(before, samples);
                lemma_write_appends(before, samples, unread);
                assert(all =~= earlier + samples);
                assert(all.take(taken as int) =~= earlier.take(taken as int));
                assert(all.skip(taken as int) =~= earlier.skip(taken as int) + samples);
            },
            RingCall::Read { count } => {
                lemma_read_takes(before, unread, count);
                assert(all == earlier);
                assert(earlier.take(taken as int) + earlier.skip(taken as int).take(count as int)
                    =~= earlier.take((taken + count) as int));
                assert(earlier.skip(taken as int).skip(count as int) =~= earlier.skip(
                    (taken + count) as int,
                ));
            },
        }
    }
}

/// The number of unread samples that a buffer holds is its delay, as long
/// as it is less than a whole turn.
pub proof fn lemma_delay_is_held<T>(v: RingView<T>, held: nat)
    requires
        v.wf(),
        v.size() > 0,
        held < v.size(),
    ensures
        v.delay() == held <==> (v.read + held) % v.size() == v.write,
{
    let n = v.size();
    lemma_fundamental_div_mod(v.write - v.read, n);
    lemma_fundamental_div_mod(v.read + held, n);
    lemma_mod_bound(v.write - v.read, n);
    lemma_mod_bound(v.read + held, n);
    let q1 = (v.write - v.read) / n;
    let q2 = (v.read + held) / n;
    if v.delay() == held {
        assert(v.write == n * q1 + held + v.read);
        lemma_small_mod(v.write as nat, n as nat);
        vstd::arithmetic::div_mod::lemma_mod_multiples_vanish(-q1, v.write, n);
        assert(v.write + (-q1) * n == v.read + held) by (nonlinear_arith)
            requires
                v.write == n * q1 + held + v.read,
        ;
    }
    if (v.read + held) % n == v.write {
        assert(v.write - v.read == n * (-q2) + held) by (nonlinear_arith)
            requires
                v.read + held == n * q2 + v.write,
        ;
        lemma_small_mod(held, n as nat);
        vstd::arithmetic::div_mod::lemma_mod_multiples_vanish(-q2, held as int, n);
        assert(n * (-q2) + held == (-q2) * n + held) by (nonlinear_arith);
    }
}

} // verus!
