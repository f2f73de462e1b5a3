//! The sparse word store: a fixed number of addressable words, of which only
//! the written ones occupy storage.

use crate::model::{entries_of, lists, words_of, zero_word, Memory};
use std::collections::btree_map;
use std::collections::BTreeMap;
use std::io::ErrorKind;
use vstd::prelude::*;
use vstd::std_specs::btree::{increasing_seq, spec_btree_map_iter};
use vstd::std_specs::cmp::OrdSpec;
use vstd::std_specs::iter::IteratorSpec;

verus! {

/// Virtual memory of `len` words, each `W` bytes wide. Storage is allocated
/// for a word when it is first written; an unwritten word reads as zero.
#[derive(Debug, PartialEq)]
pub struct VMem<const W: usize> {
    memory: BTreeMap<usize, [u8; W]>,
    len: usize,
}

impl<const W: usize> View for VMem<W> {
    type V = Memory;

    closed spec fn view(&self) -> Memory {
        Memory { length: self.len as nat, width: W as nat, words: words_of(self.memory@) }
    }
}

impl<const W: usize> VMem<W> {
    /// No entry lies outside the address space.
    #[verifier::type_invariant]
    closed spec fn in_range(&self) -> bool {
        forall|k: usize| self.memory@.contains_key(k) ==> k < self.len
    }

    /// The width of the model is the width of the type, and the length fits
    /// in a machine word.
    pub proof fn lemma_shape(&self)
        ensures
            self@.width == W,
            self@.length <= usize::MAX,
    {
    }

    /// Create a new [`VMem`] with a given length (the number of words).
    /// Nothing is stored yet.
    pub fn new(length: usize) -> (vmem: Self)
        ensures
            vmem@ == Memory::empty(length as nat, W as nat),
    {
        let vmem = Self { memory: BTreeMap::new(), len: length };
        assert(vmem@.words =~= Map::empty());
        vmem
    }

    /// The length of the `VMem`: its number of addressable words.
    pub fn len(&self) -> (n: usize)
        ensures
            n == self@.length,
            self@.wf(),
    {
        proof {
            use_type_invariant(self);
        }
        self.len
    }

    /// The width of the `VMem`: the number of bytes in a word.
    pub fn width(&self) -> (w: usize)
        ensures
            w == W,
            w == self@.width,
    {
        W
    }

    /// Read the word at the specified address. An address outside the memory
    /// yields `None`; an address that was never written yields the zero word.
    pub fn read_word(&self, addr: usize) -> (word: Option<[u8; W]>)
        ensures
            match word {
                Some(w) => self@.read(addr as int) == Some(w@),
                None => self@.read(addr as int) is None,
            },
    {
        if addr < self.len {
            match self.memory.get(&addr) {
                Some(word) => Some(*word),
                None => {
                    let zero = [0x00; W];
                    assert(zero@ =~= zero_word(W as nat));
                    Some(zero)
                },
            }
        } else {
            None
        }
    }

    /// Write a word to the specified address, allocating its entry if it has
    /// none. An address outside the memory is refused with
    /// [`ErrorKind::AddrNotAvailable`] and nothing changes.
    pub fn write_word(&mut self, word: [u8; W], addr: usize) -> (res: Result<(), ErrorKind>)
        ensures
            final(self)@ == old(self)@.write(word@, addr as int),
            final(self)@.wf(),
            res == if old(self)@.in_bounds(addr as int) {
                Ok::<(), ErrorKind>(())
            } else {
                Err::<(), ErrorKind>(ErrorKind::AddrNotAvailable)
            },
    {
        proof {
            use_type_invariant(&*self);
        }
        if addr < self.len {
            // The map is taken out for the insertion and put back after it,
            // so that the store is whole wherever the insertion could unwind.
            let mut memory = BTreeMap::new();
            std::mem::swap(&mut memory, &mut self.memory);
            memory.insert(addr, word);
            self.memory = memory;
            assert(self@.words =~= old(self)@.words.insert(addr as int, word@));
            Ok(())
        } else {
            Err(ErrorKind::AddrNotAvailable)
        }
    }

    /// Every store denotes a well-formed memory. The call does nothing; it
    /// is there for what it lets the caller know.
    pub(crate) fn know_wf(&self)
        ensures
            self@.wf(),
    {
        proof {
            use_type_invariant(self);
        }
    }

    /// The word at the specified address, by reference: as
    /// [`VMem::read_word`], without the copy.
    pub(crate) fn word_ref<'a>(&'a self, addr: usize) -> (word: Option<&'a [u8; W]>)
        ensures
            match word {
                Some(w) => self@.read(addr as int) == Some(w@),
                None => self@.read(addr as int) is None,
            },
    {
        if addr < self.len {
            match self.memory.get(&addr) {
                Some(word) => Some(word),
                None => {
                    let zero = &[0x00; W];
                    assert(zero@ =~= zero_word(W as nat));
                    Some(zero)
                },
            }
        } else {
            None
        }
    }

    /// Exclusive access to the word at the specified address. An address in
    /// bounds that holds no entry yet gets a zero word stored first; what is
    /// written through the reference is what the address holds afterwards.
    pub(crate) fn word_mut(&mut self, addr: usize) -> (word: Option<&mut [u8; W]>)
        ensures
            final(self)@.wf(),
            match word {
                Some(w) => {
                    &&& old(self)@.in_bounds(addr as int)
                    &&& w@ == old(self)@.word(addr as int)
                    &&& final(self)@ == old(self)@.write(final(w)@, addr as int)
                },
                None => !old(self)@.in_bounds(addr as int) && final(self)@ == old(self)@,
            },
    {
        proof {
            use_type_invariant(&*self);
        }
        if addr < self.len {
            if !self.memory.contains_key(&addr) {
                let zero = [0x00; W];
                assert(zero@ =~= zero_word(W as nat));
                let mut memory = BTreeMap::new();
                std::mem::swap(&mut memory, &mut self.memory);
                memory.insert(addr, zero);
                self.memory = memory;
            }
            let ghost held = self.memory@;
            let word = slot_mut(&mut self.memory, addr);
            proof {
                assert forall|x: [u8; W]| #[trigger]
                    words_of(held.insert(addr, x)) == old(self)@.words.insert(addr as int, x@) by {
                    assert(words_of(held.insert(addr, x)) =~= old(self)@.words.insert(
                        addr as int,
                        x@,
                    ));
                }
            }
            word
        } else {
            None
        }
    }

    /// Iterate over the stored entries, in ascending order of address.
    pub fn iter_content<'a>(&'a self) -> (entries: btree_map::Iter<'a, usize, [u8; W]>)
        ensures
            self@.listed_by(entries_of(entries.remaining())),
            self@.wf(),
            entries.obeys_prophetic_iter_laws(),
            entries.decrease() is Some,
            entries.initial_value_relation(&entries),
    {
        proof {
            use_type_invariant(self);
        }
        ordered_entries(&self.memory)
    }
}

/// The entries of an address-to-word map, in ascending order of address.
pub(crate) fn ordered_entries<'a, const W: usize>(m: &'a BTreeMap<usize, [u8; W]>) -> (entries:
    btree_map::Iter<'a, usize, [u8; W]>)
    ensures
        lists(entries_of(entries.remaining()), words_of(m@)),
        entries.obeys_prophetic_iter_laws(),
        entries.decrease() is Some,
        entries.initial_value_relation(&entries),
{
    let entries = m.iter();
    proof {
        let rem = entries.remaining();
        let listed = entries_of(rem);
        let words = words_of(m@);
        assert(entries == spec_btree_map_iter(m));
        lemma_keys_ascend(rem.map_values(|kv: (&usize, &[u8; W])| *kv.0));
        assert forall|i: int, j: int| 0 <= i < j < listed.len() implies listed[i].0
            < listed[j].0 by {
            let keys = rem.map_values(|kv: (&usize, &[u8; W])| *kv.0);
            assert(keys[i] < keys[j]);
        }
        assert forall|i: int| 0 <= i < listed.len() implies words.contains_key(
            #[trigger] listed[i].0,
        ) && words[listed[i].0] == listed[i].1 by {
            assert(m@.contains_key(*rem[i].0));
        }
        assert forall|a: int| #[trigger] words.contains_key(a) implies exists|i: int|
            0 <= i < listed.len() && #[trigger] listed[i].0 == a by {
            let k = a as usize;
            assert(rem.contains((&k, &m@[k])));
            let i = rem.index_of((&k, &m@[k]));
            assert(listed[i].0 == a);
        }
    }
    entries
}

/// Keys that `BTreeMap` hands out in increasing order grow strictly.
proof fn lemma_keys_ascend(s: Seq<usize>)
    requires
        increasing_seq(s),
    ensures
        forall|i: int, j: int| 0 <= i < j < s.len() ==> s[i] < s[j],
{
    broadcast use vstd::std_specs::btree::axiom_increasing_seq_meaning;

    assert forall|i: int, j: int| 0 <= i < j < s.len() implies s[i] < s[j] by {
        assert(s[i].cmp_spec(&s[j]) is Less);
    }
}

/// `BTreeMap::get_mut` on a map from addresses to words: where the address
/// has an entry, exclusive access to its word, and the word written through
/// the reference is the entry's word when the borrow ends; where it has none,
/// `None`, and the map stays as it is. Looking up an integer key runs no
/// code that could panic.
#[verifier::external_body]
fn slot_mut<'a, const W: usize>(m: &'a mut BTreeMap<usize, [u8; W]>, addr: usize) -> (word: Option<
    &'a mut [u8; W],
>)
    ensures
        match word {
            Some(w) => {
                &&& old(m)@.contains_key(addr)
                &&& *w == old(m)@[addr]
                &&& final(m)@ == old(m)@.insert(addr, *final(w))
            },
            None => !old(m)@.contains_key(addr) && final(m)@ == old(m)@,
        },
    no_unwind
{
    m.get_mut(&addr)
}

/// `std::io::ErrorKind`, the kind of error that a refused write returns: an
/// enumeration without fields, of which the library names one variant.
#[verifier::external_type_specification]
pub struct ExErrorKind(ErrorKind);

} // verus!
