//! Dense iteration: every address from zero up to the length, in ascending
//! order, whether it holds an entry or not.
//!
//! [`IntoIter`] and [`Iter`] are described by the sequence of words that they
//! have yet to hand out. [`IterMut`] is a cursor over a store that it borrows
//! exclusively; it stores a zero word at every address that it visits and
//! that holds no entry.

use crate::store::VMem;
use vstd::prelude::*;

verus! {

/// Iterator that takes ownership of [`VMem`].
pub struct IntoIter<const W: usize> {
    vmem: VMem<W>,
    index: usize,
}

impl<const W: usize> View for IntoIter<W> {
    type V = Seq<Seq<u8>>;

    /// The words that are yet to come.
    closed spec fn view(&self) -> Seq<Seq<u8>> {
        self.vmem@.dense().skip(self.index as int)
    }
}

impl<const W: usize> IntoIter<W> {
    #[verifier::type_invariant]
    closed spec fn in_range(&self) -> bool {
        self.index <= self.vmem@.length
    }

    /// Hand out the next word, until every address has been visited.
    pub fn next(&mut self) -> (item: Option<[u8; W]>)
        ensures
            match item {
                Some(w) => {
                    &&& old(self)@.len() > 0
                    &&& w@ == old(self)@[0]
                    &&& final(self)@ == old(self)@.drop_first()
                },
                None => old(self)@.len() == 0 && final(self)@ == old(self)@,
            },
    {
        proof {
            use_type_invariant(&*self);
            self.vmem.lemma_shape();
        }
        let word = self.vmem.read_word(self.index);
        if word.is_some() {
            self.index += 1;
            assert(self@ =~= old(self)@.drop_first());
        }
        word
    }
}

/// Iterator over a reference of [`VMem`].
pub struct Iter<'a, const W: usize> {
    vmem: &'a VMem<W>,
    index: usize,
}

impl<'a, const W: usize> View for Iter<'a, W> {
    type V = Seq<Seq<u8>>;

    /// The words that are yet to come.
    closed spec fn view(&self) -> Seq<Seq<u8>> {
        self.vmem@.dense().skip(self.index as int)
    }
}

impl<'a, const W: usize> Iter<'a, W> {
    #[verifier::type_invariant]
    closed spec fn in_range(&self) -> bool {
        self.index <= self.vmem@.length
    }

    /// Hand out a reference to the next word, until every address has been
    /// visited. The store is not changed: for an address without an entry the
    /// reference is to a zero word outside the store.
    pub fn next(&mut self) -> (item: Option<&'a [u8; W]>)
        ensures
            match item {
                Some(w) => {
                    &&& old(self)@.len() > 0
                    &&& w@ == old(self)@[0]
                    &&& final(self)@ == old(self)@.drop_first()
                },
                None => old(self)@.len() == 0 && final(self)@ == old(self)@,
            },
    {
        proof {
            use_type_invariant(&*self);
            self.vmem.lemma_shape();
        }
        let word = self.vmem.word_ref(self.index);
        if word.is_some() {
            self.index += 1;
            assert(self@ =~= old(self)@.drop_first());
        }
        word
    }
}

/// Iterator over a mutable reference of [`VMem`]: the store, borrowed
/// exclusively, and the next address to visit.
///
/// Visiting an address that holds no entry stores a zero word there, so a
/// full pass leaves an entry at every address.
pub struct IterMut<'a, const W: usize> {
    pub vmem: &'a mut VMem<W>,
    pub index: usize,
}

impl<'a, const W: usize> IterMut<'a, W> {
    /// Hand out exclusive access to the word at the next address, until every
    /// address has been visited. The reference ends before the next step; what
    /// was written through it is what the address then holds.
    pub fn next(&mut self) -> (item: Option<&mut [u8; W]>)
        ensures
            *final(final(self).vmem) == *final(old(self).vmem),
            final(self).vmem@.wf(),
            match item {
                Some(w) => {
                    &&& old(self).vmem@.in_bounds(old(self).index as int)
                    &&& w@ == old(self).vmem@.word(old(self).index as int)
                    &&& final(self).vmem@ == old(self).vmem@.write(
                        final(w)@,
                        old(self).index as int,
                    )
                    &&& final(self).index == old(self).index + 1
                },
                None => {
                    &&& !old(self).vmem@.in_bounds(old(self).index as int)
                    &&& final(self).vmem@ == old(self).vmem@
                    &&& final(self).index == old(self).index
                },
            },
    {
        let addr = self.index;
        if addr < self.vmem.len() {
            self.index += 1;
        }
        self.vmem.word_mut(addr)
    }
}

impl<const W: usize> VMem<W> {
    /// Iterate over the words inside the `VMem`, taking ownership of it.
    pub fn into_iter(self) -> (words: IntoIter<W>)
        ensures
            words@ == self@.dense(),
    {
        let words = IntoIter { vmem: self, index: 0 };
        assert(words@ =~= self@.dense());
        words
    }

    /// Iterate over references to the words inside the `VMem`.
    pub fn iter<'a>(&'a self) -> (words: Iter<'a, W>)
        ensures
            words@ == self@.dense(),
    {
        let words = Iter { vmem: self, index: 0 };
        assert(words@ =~= self@.dense());
        words
    }

    /// Iterate over mutable references to the words inside the `VMem`.
    ///
    /// **Warning**: This will allocate words that hadn't been written to.
    pub fn iter_mut<'a>(&'a mut self) -> (words: IterMut<'a, W>)
        ensures
            *words.vmem == *old(self),
            *final(words.vmem) == *final(self),
            words.index == 0,
    {
        IterMut { vmem: self, index: 0 }
    }
}

} // verus!
