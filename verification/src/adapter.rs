//! From blocks of a fixed size to blocks of any size.
//!
//! Some sources produce samples only in batches of a fixed size. The
//! adapter keeps the part of a batch that was not asked for yet, and gets
//! the next batch when it runs out.

use crate::account::Account;
use vstd::prelude::*;

verus! {

/// A source of samples that come in batches of `N`.
///
/// A source keeps account of what it has produced: every batch that it
/// fills is added to its account, and nothing else is.
pub trait BatchSource<T, const N: usize> {
    /// Every sample that the source has produced, oldest first.
    spec fn produced(&self) -> Account<T>;

    /// Fills `batch` with the next `N` samples.
    fn next_batch(&mut self, batch: &mut [T; N])
        ensures
            final(self).produced() == old(self).produced() + final(batch)@,
    ;
}

/// A buffer of one batch of `N` samples, of which a part was handed out.
pub struct FixedOutputAdapter<T, const N: usize> {
    buffer: [T; N],
    idx: usize,
}

impl<T, const N: usize> FixedOutputAdapter<T, N> {
    #[verifier::type_invariant]
    spec fn inv(self) -> bool {
        self.idx <= N
    }

    /// The samples of the batch that were not handed out yet.
    pub closed spec fn pending(&self) -> Seq<T> {
        self.buffer@.skip(self.idx as int)
    }
}

/// The number of batches that must be fetched to hand out `wanted` samples
/// when `pending` are at hand.
pub open spec fn batches_needed(pending: nat, wanted: nat, batch: nat) -> nat {
    if wanted <= pending || batch == 0 {
        0
    } else {
        ((wanted - pending + batch - 1) / (batch as int)) as nat
    }
}

/// Successive fills hand out what the source produces in order, with no
/// sample lost or doubled. Where a first fill has turned the samples at
/// hand `pending` into `between` and handed out `first`, while the source
/// came from `before` to `produced`, and a second fill has turned `between`
/// into `left` and handed out `second`, while the source came to `after`,
/// the two fills together have handed out, and left at hand, the samples
/// that were at hand and behind them all that the source has produced
/// since.
pub proof fn lemma_fills_in_order<T>(
    pending: Seq<T>,
    first: Seq<T>,
    between: Seq<T>,
    second: Seq<T>,
    left: Seq<T>,
    before: Seq<T>,
    produced: Seq<T>,
    after: Seq<T>,
)
    requires
        first + between == pending + produced.skip(before.len() as int),
        produced.take(before.len() as int) == before,
        before.len() <= produced.len(),
        second + left == between + after.skip(produced.len() as int),
        after.take(produced.len() as int) == produced,
        produced.len() <= after.len(),
    ensures
        first + second + left == pending + after.skip(before.len() as int),
        after.take(before.len() as int) == before,
{
    let fresh = produced.skip(before.len() as int);
    let fresher = after.skip(produced.len() as int);
    assert(after.skip(before.len() as int) =~= fresh + fresher) by {
        assert forall|i: int| 0 <= i < fresh.len() implies after[before.len() + i] == fresh[i] by {
            assert(after.take(produced.len() as int)[before.len() + i] == produced[before.len()
                + i]);
        }
    }
    assert(first + second + left =~= first + (second + left));
    assert(first + (between + fresher) =~= (first + between) + fresher);
    assert((pending + fresh) + fresher =~= pending + (fresh + fresher));
    assert(after.take(before.len() as int) =~= produced.take(before.len() as int)) by {
        assert forall|i: int| 0 <= i < before.len() implies after[i] == produced[i] by {
            assert(after.take(produced.len() as int)[i] == produced[i]);
        }
    }
}

impl<T: Copy, const N: usize> FixedOutputAdapter<T, N> {
    /// Makes an adapter with nothing at hand. `fill` is what the buffer
    /// holds before the first batch.
    pub fn new(fill: T) -> (adapter: Self)
        ensures
            adapter.pending() == Seq::<T>::empty(),
    {
        let adapter = FixedOutputAdapter { buffer: [fill;N], idx: N };
        assert(adapter.pending() =~= Seq::<T>::empty());
        adapter
    }

    /// The number of samples at hand.
    pub fn available(&self) -> (count: usize)
        ensures
            count == self.pending().len(),
            count <= N,
    {
        proof {
            use_type_invariant(self);
        }
        N - self.idx
    }

    /// Hands out samples at hand into `output[at..]`, as many as there are
    /// and as fit, and returns their number.
    pub fn read_at(&mut self, output: &mut [T], at: usize) -> (written: usize)
        requires
            at <= old(output)@.len(),
        ensures
            written == (if old(self).pending().len() <= old(output)@.len() - at {
                old(self).pending().len()
            } else {
                (old(output)@.len() - at) as nat
            }),
            final(output)@ == old(output)@.take(at as int) + old(self).pending().take(written as int)
                + old(output)@.skip(at + written),
            final(self).pending() == old(self).pending().skip(written as int),
    {
        proof {
            use_type_invariant(&*self);
        }
        let at_hand = N - self.idx;
        let room = output.len() - at;
        let len = if at_hand <= room {
            at_hand
        } else {
            room
        };
        let start = self.idx;
        let mut k: usize = 0;
        while k < len
            invariant
                k <= len,
                start + len <= N,
                at + len <= output@.len(),
                at + len <= usize::MAX,
                output@.len() == old(output)@.len(),
                *self == *old(self),
                start == self.idx,
                forall|j: int| 0 <= j < at ==> output@[j] == old(output)@[j],
                forall|j: int| at <= j < at + k ==> output@[j] == self.buffer@[start + j - at],
                forall|j: int| at + k <= j < output@.len() ==> output@[j] == old(output)@[j],
            decreases len - k,
        {
            output[at + k] = self.buffer[start + k];
            k += 1;
        }
        self.idx = start + len;
        proof {
            assert(output@ =~= old(output)@.take(at as int) + old(self).pending().take(len as int)
                + old(output)@.skip(at + len));
            assert(self.pending() =~= old(self).pending().skip(len as int));
        }
        len
    }

    /// Hands out samples at hand into `output`, as many as there are and as
    /// fit, and returns their number.
    pub fn read(&mut self, output: &mut [T]) -> (written: usize)
        ensures
            written == (if old(self).pending().len() <= old(output)@.len() {
                old(self).pending().len()
            } else {
                old(output)@.len()
            }),
            final(output)@ == old(self).pending().take(written as int) + old(output)@.skip(
                written as int,
            ),
            final(self).pending() == old(self).pending().skip(written as int),
    {
        let written = self.read_at(output, 0);
        assert(output@ =~= old(self).pending().take(written as int) + old(output)@.skip(
            written as int,
        ));
        written
    }

    /// Puts a batch of `silence` at hand, in place of what was at hand.
    pub fn write_silence(&mut self, silence: T)
        ensures
            final(self).pending() == Seq::new(N as nat, |i: int| silence),
    {
        let mut k: usize = 0;
        while k < N
            invariant
                k <= N,
                forall|j: int| 0 <= j < k ==> self.buffer@[j] == silence,
            decreases N - k,
        {
            proof {
                use_type_invariant(&*self);
            }
            self.buffer[k] = silence;
            k += 1;
        }
        self.idx = 0;
        assert(self.pending() =~= Seq::new(N as nat, |i: int| silence));
    }

    /// Puts the batch `batch` at hand, in place of what was at hand.
    pub fn load(&mut self, batch: [T; N])
        ensures
            final(self).pending() == batch@,
    {
        proof {
            use_type_invariant(&*self);
        }
        self.buffer = batch;
        self.idx = 0;
        assert(self.pending() =~= batch@);
    }

    /// Fills `output`, first with the samples at hand and then with batches
    /// from `source`, fetched one by one as long as samples are missing.
    /// What is left of the last batch stays at hand.
    pub fn fill<S: BatchSource<T, N>>(&mut self, output: &mut [T], source: &mut S)
        requires
            N > 0,
        ensures
            final(output)@.len() == old(output)@.len(),
            final(output)@ + final(self).pending() == old(self).pending() + final(source).produced().skip(
                old(source).produced().len() as int,
            ),
            final(source).produced().take(old(source).produced().len() as int)
                == old(source).produced(),
            final(source).produced().len() == old(source).produced().len() + batches_needed(
                old(self).pending().len(),
                old(output)@.len(),
                N as nat,
            ) * N,
            old(self).pending().len() >= old(output)@.len() ==> {
                &&& final(output)@ == old(self).pending().take(old(output)@.len() as int)
                &&& final(self).pending() == old(self).pending().skip(old(output)@.len() as int)
            },
            old(self).pending().len() < old(output)@.len() ==> {
                &&& final(output)@.take(old(self).pending().len() as int) == old(self).pending()
                &&& final(self).pending().len() == batches_needed(
                    old(self).pending().len(),
                    old(output)@.len(),
                    N as nat,
                ) * N - (old(output)@.len() - old(self).pending().len())
            },
    {
        let wanted = output.len();
        let ghost first = self.pending();
        let ghost had = source.produced();
        let mut at: usize = self.read_at(output, 0);
        assert(output@.take(at as int) =~= first.take(at as int));
        assert(had.skip(had.len() as int) =~= Seq::<T>::empty());
        assert(had.take(had.len() as int) =~= had);
        if at == wanted {
            assert(output@ =~= first.take(wanted as int));
            assert(output@ + self.pending() =~= first + had.skip(had.len() as int));
            assert(batches_needed(first.len(), wanted as nat, N as nat) * N == 0) by {
                assert(batches_needed(first.len(), wanted as nat, N as nat) == 0);
            }
            return ;
        }
        let ghost mut fetched: nat = 0;
        while at < wanted
            invariant
                N > 0,
                wanted == output@.len(),
                first.len() <= at <= wanted,
                first.len() < wanted,
                output@.take(first.len() as int) == first,
                at < wanted ==> self.pending().len() == 0,
                at == first.len() + fetched * N - self.pending().len(),
                at < wanted ==> fetched * N < wanted - first.len(),
                at == wanted ==> (fetched - 1) * N < wanted - first.len() <= fetched * N,
                source.produced().len() == had.len() + fetched * N,
                source.produced().take(had.len() as int) == had,
                output@.take(at as int) + self.pending() == first + source.produced().skip(
                    had.len() as int,
                ),
            decreases wanted - at,
        {
            let mut batch = self.buffer;
            let ghost made = source.produced();
            source.next_batch(&mut batch);
            self.load(batch);
            let ghost before = output@;
            let written = self.read_at(output, at);
            proof {
                fetched = fetched + 1;
                assert(output@.take(first.len() as int) =~= before.take(first.len() as int));
                assert((fetched - 1) * N + N == fetched * N) by (nonlinear_arith);
                assert(source.produced().take(had.len() as int) =~= made.take(had.len() as int));
                assert(source.produced().skip(had.len() as int) =~= made.skip(had.len() as int)
                    + batch@);
                assert(output@.take(at + written) =~= before.take(at as int) + batch@.take(
                    written as int,
                ));
                assert(batch@ =~= batch@.take(written as int) + batch@.skip(written as int));
                assert(output@.take(at + written) + self.pending() =~= before.take(at as int)
                    + batch@);
            }
            at = at + written;
        }
        assert(output@.take(wanted as int) =~= output@);
        proof {
            let missing = wanted - first.len();
            assert(fetched == (missing + N - 1) / (N as int)) by {
                assert((fetched - 1) * N == fetched * N - N) by (nonlinear_arith);
                assert(missing + N - 1 == fetched * N + (missing + N - 1 - fetched * N));
                vstd::arithmetic::div_mod::lemma_fundamental_div_mod_converse_div(
                    missing + N - 1,
                    N as int,
                    fetched as int,
                    missing + N - 1 - fetched * N,
                );
                assert(fetched * N == N * fetched) by (nonlinear_arith);
            }
        }
    }
}

} // verus!
