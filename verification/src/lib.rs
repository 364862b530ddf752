//! Lazy enumeration of the powerset of an indexable collection.
//!
//! A source collection implements [`SizableContainer`], which exposes its
//! element count and read access by position. The [`Powerset`] trait, given
//! to every such collection by a blanket implementation, hands out a
//! [`PowersetIterator`] that walks the subset bitmasks `0 .. 2^n` in
//! ascending order, producing one lightweight [`Subset`] view per bitmask.
//! Driving a [`Subset`] yields references to the source elements whose
//! position bit is set, from the lowest position upward; no subset is ever
//! materialized as an owned collection.

pub mod bits;
pub mod select;

use vstd::prelude::*;
use vstd::arithmetic::power2::{pow2, lemma_pow2_strictly_increases};
use crate::bits::{popcount, popcount_usize, lemma_bit_test, lemma_shl_one, lemma_shr_div};
use crate::select::{powerset_seq, selected_from, lemma_selected_count, lemma_selected_from_empty};

verus! {

/// Capability a source collection must provide: a stable element count and
/// read access to the element at each position below that count.
///
/// `contents` is the mathematical view of the collection that the two
/// executable methods are specified against.
pub trait SizableContainer {
    /// The element type handed out by position.
    type Item;

    /// The collection seen as a mathematical sequence of its elements.
    spec fn contents(&self) -> Seq<Self::Item>;

    /// The number of elements, `n`: positions `0 <= i < n` are readable.
    fn num_elements(&self) -> (n: usize)
        ensures
            n == self.contents().len(),
    ;

    /// A reference to the element at position `i`.
    fn at(&self, i: usize) -> (r: &Self::Item)
        requires
            i < self.contents().len(),
        ensures
            *r == self.contents()[i as int],
    ;
}

impl<T> SizableContainer for Vec<T> {
    type Item = T;

    open spec fn contents(&self) -> Seq<T> {
        self@
    }

    fn num_elements(&self) -> (n: usize) {
        self.len()
    }

    fn at(&self, i: usize) -> (r: &T) {
        &self[i]
    }
}

/// The powerset capability, given to every [`SizableContainer`] by a blanket
/// implementation: start a fresh, exhaustive enumeration of all subsets.
///
/// Two passes over the same unmutated source produce identical sequences:
/// the iterator returned here always starts at bitmask `0`, and every later
/// state and result is pinned, through the contracts of
/// [`PowersetIterator::next`] and [`Subset::next`], by the source's contents
/// alone.
pub trait Powerset: SizableContainer + Sized {
    /// Begin enumerating the subsets of `self`, from the empty subset
    /// (bitmask `0`) upward.
    ///
    /// The element count must lie below the word width: the enumeration
    /// walks bitmasks up to `2^n`, which a `usize` only holds for `n` below
    /// `usize::BITS`.
    fn powerset<'a>(&'a self) -> (it: PowersetIterator<'a, Self>)
        requires
            self.contents().len() < usize::BITS,
        ensures
            it.wf(),
            it.source() == self.contents(),
            it.counter() == 0,
    ;
}

impl<I: SizableContainer> Powerset for I {
    fn powerset<'a>(&'a self) -> (it: PowersetIterator<'a, I>) {
        PowersetIterator { items: self, subset: 0 }
    }
}

/// The outer enumerator: walks every bitmask from `0` to `2^n - 1` in
/// ascending order and hands out one [`Subset`] view per bitmask.
pub struct PowersetIterator<'a, I: SizableContainer> {
    items: &'a I,
    subset: usize,
}

impl<'a, I: SizableContainer> PowersetIterator<'a, I> {
    /// The borrowed source seen as a sequence.
    pub closed spec fn source(&self) -> Seq<I::Item> {
        self.items.contents()
    }

    /// The next bitmask to hand out; it only ever increases.
    pub closed spec fn counter(&self) -> nat {
        self.subset as nat
    }

    /// The enumerator's invariant: the source is small enough for its
    /// bitmasks to fit a `usize`, and the counter never passes `2^n`.
    pub open spec fn wf(&self) -> bool {
        &&& self.source().len() < usize::BITS
        &&& self.counter() <= pow2(self.source().len())
    }

    /// Produce the next subset view, or signal that all `2^n` subsets have
    /// been handed out. Once exhausted, the enumerator stays exhausted: the
    /// counter never moves again.
    ///
    /// Each produced view carries the bitmask the counter held, with its
    /// scan cursor at position `0`; views come in strictly ascending bitmask
    /// order, starting at `0`, with no bitmask skipped or repeated.
    pub fn next(&mut self) -> (r: Option<Subset<'a, I>>)
        requires
            old(self).wf(),
        ensures
            final(self).wf(),
            final(self).source() == old(self).source(),
            match r {
                None => {
                    &&& old(self).counter() == pow2(old(self).source().len())
                    &&& final(self).counter() == old(self).counter()
                },
                Some(sub) => {
                    &&& old(self).counter() < pow2(old(self).source().len())
                    &&& final(self).counter() == old(self).counter() + 1
                    &&& sub.wf()
                    &&& sub.source() == old(self).source()
                    &&& sub.mask() == old(self).counter()
                    &&& sub.cursor() == 0
                    &&& sub.remaining() == powerset_seq(old(self).source())[old(
                        self,
                    ).counter() as int]
                },
            },
    {
        let n = self.items.num_elements();
        proof {
            lemma_shl_one(n);
        }
        if self.subset >= 1usize << n {
            return None;
        }
        let s = self.subset;
        self.subset = self.subset + 1;
        Some(Subset { items: self.items, subset: s, next: 0 })
    }
}

/// One subset of the source, named by one bitmask: a lazy view that yields
/// references to the elements whose position bit is set, from the lowest
/// position upward.
pub struct Subset<'a, I: SizableContainer> {
    items: &'a I,
    subset: usize,
    next: usize,
}

impl<'a, I: SizableContainer> Subset<'a, I> {
    /// The borrowed source seen as a sequence.
    pub closed spec fn source(&self) -> Seq<I::Item> {
        self.items.contents()
    }

    /// The bitmask naming this subset; fixed at creation.
    pub closed spec fn mask(&self) -> nat {
        self.subset as nat
    }

    /// The next bit position the scan will examine; it only ever increases.
    pub closed spec fn cursor(&self) -> nat {
        self.next as nat
    }

    /// The elements still to be yielded: those at set-bit positions of the
    /// mask at or above the cursor, in ascending order of position.
    pub open spec fn remaining(&self) -> Seq<I::Item> {
        selected_from(self.source(), self.mask(), self.cursor())
    }

    /// The view's invariant: every set bit of the mask names a readable
    /// position, and the cursor never passes the element count.
    pub open spec fn wf(&self) -> bool {
        &&& self.source().len() < usize::BITS
        &&& self.mask() < pow2(self.source().len())
        &&& self.cursor() <= self.source().len()
    }

    /// Yield a reference to the element at the lowest set-bit position at or
    /// above the cursor, moving the cursor just past it; or signal
    /// exhaustion when no set bit remains there.
    ///
    /// The scan stops as soon as `1 << p` exceeds the mask: no bit at or
    /// above `p` can then be set, so positions beyond the mask's highest set
    /// bit are never examined.
    pub fn next(&mut self) -> (r: Option<&'a I::Item>)
        requires
            old(self).wf(),
        ensures
            final(self).wf(),
            final(self).source() == old(self).source(),
            final(self).mask() == old(self).mask(),
            final(self).cursor() >= old(self).cursor(),
            match r {
                None => {
                    &&& old(self).remaining().len() == 0
                    &&& final(self).remaining().len() == 0
                },
                Some(e) => {
                    &&& old(self).remaining().len() > 0
                    &&& *e == old(self).remaining()[0]
                    &&& final(self).remaining() == old(self).remaining().skip(1)
                    &&& final(self).remaining().len() == old(self).remaining().len() - 1
                },
            },
    {
        loop
            invariant
                self.wf(),
                self.source() == old(self).source(),
                self.mask() == old(self).mask(),
                self.cursor() >= old(self).cursor(),
                self.remaining() == old(self).remaining(),
            decreases self.source().len() - self.cursor(),
        {
            proof {
                lemma_shl_one(self.next);
            }
            if 1usize << self.next > self.subset {
                proof {
                    lemma_selected_from_empty::<I::Item>(
                        self.source(),
                        self.mask(),
                        self.cursor(),
                    );
                }
                return None;
            }
            proof {
                if self.cursor() >= self.source().len() {
                    if self.cursor() > self.source().len() {
                        lemma_pow2_strictly_increases(self.source().len(), self.cursor());
                    }
                    assert(false);
                }
                lemma_bit_test(self.subset, self.next);
            }
            if (1usize << self.next) & self.subset != 0 {
                let item = self.items.at(self.next);
                proof {
                    let pre = self.remaining();
                    assert(pre.skip(1) =~= selected_from(
                        self.source(),
                        self.mask(),
                        self.cursor() + 1,
                    ));
                }
                self.next = self.next + 1;
                return Some(item);
            }
            self.next = self.next + 1;
        }
    }

    /// The exact number of elements still to be yielded: the population
    /// count of the mask's bits at or above the cursor. Lower and upper
    /// bound are always equal, and the count is `0` exactly when the view is
    /// exhausted.
    pub fn size_hint(&self) -> (r: (usize, usize))
        requires
            self.wf(),
        ensures
            r.0 == self.remaining().len(),
            r.1 == r.0,
            r.0 == popcount(self.mask() / pow2(self.cursor())),
            self.cursor() == 0 ==> r.0 == popcount(self.mask()),
    {
        proof {
            lemma_shr_div(self.subset, self.next);
            lemma_selected_count::<I::Item>(self.source(), self.mask(), self.cursor());
            assert(pow2(0) == 1) by {
                vstd::arithmetic::power2::lemma2_to64();
            }
            if self.cursor() == 0 {
                assert(self.mask() / pow2(self.cursor()) == self.mask() / 1);
                assert(self.mask() / 1nat == self.mask()) by (nonlinear_arith);
            }
        }
        let c = popcount_usize(self.subset >> self.next);
        (c, c)
    }
}

} // verus!
