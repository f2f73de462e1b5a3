//! The mathematical model of a sparse memory.
//!
//! A [`Memory`] is what a store denotes: a length, a word width and a partial
//! map from addresses to words. Every contract of the executable types is
//! stated over the functions of this module.

use vstd::prelude::*;

verus! {

/// The word of `width` bytes that are all zero.
pub open spec fn zero_word(width: nat) -> Seq<u8> {
    Seq::new(width, |i: int| 0u8)
}

/// Number of words that `n` bytes occupy when a word has `width` bytes:
/// `n / width`, rounded up.
pub open spec fn chunk_count(n: nat, width: nat) -> nat {
    if n % width == 0 {
        n / width
    } else {
        n / width + 1
    }
}

/// The byte count that a read of `n` bytes at word address `addr` returns:
/// the address behind the last whole word, times the width, plus the length
/// of the partial word that follows. It counts from address zero, not from
/// `addr`, and it counts the words that lie outside the memory too.
pub open spec fn cursor_bytes(addr: nat, n: nat, width: nat) -> nat {
    (addr + n / width) * width + n % width
}

/// The entries of an address-to-word map with the addresses as integers and
/// the words as byte sequences.
pub open spec fn words_of<const W: usize>(m: Map<usize, [u8; W]>) -> Map<int, Seq<u8>> {
    Map::new(
        |a: int| 0 <= a <= usize::MAX && m.contains_key(a as usize),
        |a: int| m[a as usize]@,
    )
}

/// A run of entries as borrowed from a store, with the addresses as integers
/// and the words as byte sequences.
pub open spec fn entries_of<const W: usize>(s: Seq<(&usize, &[u8; W])>) -> Seq<(int, Seq<u8>)> {
    s.map_values(|e: (&usize, &[u8; W])| (*e.0 as int, (*e.1)@))
}

/// The addresses of the entries grow strictly from each one to the next.
pub open spec fn ascending(s: Seq<(int, Seq<u8>)>) -> bool {
    forall|i: int, j: int| 0 <= i < j < s.len() ==> s[i].0 < s[j].0
}

/// `s` lists the entries of `words`: each entry once, with its word, in
/// ascending order of address.
pub open spec fn lists(s: Seq<(int, Seq<u8>)>, words: Map<int, Seq<u8>>) -> bool {
    &&& ascending(s)
    &&& forall|i: int|
        0 <= i < s.len() ==> words.contains_key(#[trigger] s[i].0) && words[s[i].0] == s[i].1
    &&& forall|a: int| #[trigger]
        words.contains_key(a) ==> exists|i: int| 0 <= i < s.len() && #[trigger] s[i].0 == a
}

/// Length of the first adjacency chunk of the entries `s` for a chunk size
/// of `cap`: the first entry, and then each next entry while the chunk has
/// fewer than `cap` entries and the entry's address is one more than that of
/// the entry before it.
pub open spec fn run_len(s: Seq<(int, Seq<u8>)>, cap: nat) -> nat
    decreases s.len(),
{
    if s.len() == 0 {
        0
    } else if s.len() == 1 || cap <= 1 || s[1].0 != s[0].0 + 1 {
        1
    } else {
        1 + run_len(s.drop_first(), (cap - 1) as nat)
    }
}

/// A sparse, word-addressed memory: `length` addressable words of `width`
/// bytes each, of which only those in `words` are stored. An address without
/// an entry holds the zero word.
pub struct Memory {
    pub length: nat,
    pub width: nat,
    pub words: Map<int, Seq<u8>>,
}

impl Memory {
    /// Every stored address lies in `[0, length)` and every stored word has
    /// `width` bytes.
    pub open spec fn wf(self) -> bool {
        forall|a: int| #[trigger]
            self.words.contains_key(a) ==> 0 <= a < self.length && self.words[a].len()
                == self.width
    }

    /// The memory of the given shape with nothing stored.
    pub open spec fn empty(length: nat, width: nat) -> Memory {
        Memory { length, width, words: Map::empty() }
    }

    /// Whether `a` is an address of this memory.
    pub open spec fn in_bounds(self, a: int) -> bool {
        0 <= a < self.length
    }

    /// The word that address `a` holds: the stored one, or the zero word.
    pub open spec fn word(self, a: int) -> Seq<u8> {
        if self.words.contains_key(a) {
            self.words[a]
        } else {
            zero_word(self.width)
        }
    }

    /// Reading address `a`: nothing outside the address space, else the word.
    pub open spec fn read(self, a: int) -> Option<Seq<u8>> {
        if self.in_bounds(a) {
            Some(self.word(a))
        } else {
            None
        }
    }

    /// Writing `w` at address `a`: the entry is set if `a` is in bounds,
    /// otherwise nothing changes.
    pub open spec fn write(self, w: Seq<u8>, a: int) -> Memory {
        if self.in_bounds(a) {
            Memory { words: self.words.insert(a, w), ..self }
        } else {
            self
        }
    }

    /// The memory after a mutable pass over the first `ws.len()` addresses,
    /// in ascending order, where `ws[a]` is the word that address `a` holds
    /// when the pass has left it. A step of the pass is a write at the next
    /// address, of the word that the reference handed out held when it ended:
    /// each visited address has an entry.
    pub open spec fn visited(self, ws: Seq<Seq<u8>>) -> Memory
        decreases ws.len(),
    {
        if ws.len() == 0 {
            self
        } else {
            self.visited(ws.drop_last()).write(ws.last(), ws.len() - 1)
        }
    }

    /// Number of stored entries.
    pub open spec fn entry_count(self) -> nat {
        self.words.dom().len()
    }

    /// The dense content: the word of every address, in ascending order.
    pub open spec fn dense(self) -> Seq<Seq<u8>> {
        Seq::new(self.length, |a: int| self.word(a))
    }

    /// Reading bytes at word address `addr` into a buffer that holds `buf`:
    /// the buffer is cut into words of `width` bytes, the last one possibly
    /// shorter; byte `j` belongs to address `addr + j / width` and is taken
    /// from that word if the address is in bounds, and left as it was if not.
    pub open spec fn read_bytes(self, buf: Seq<u8>, addr: int) -> Seq<u8> {
        Seq::new(
            buf.len(),
            |j: int|
                if self.in_bounds(addr + j / (self.width as int)) {
                    self.word(addr + j / (self.width as int))[j % (self.width as int)]
                } else {
                    buf[j]
                },
        )
    }

    /// Whether writing `n` bytes at word address `addr` reaches address `a`:
    /// `a` is in bounds and one of the `chunk_count(n, width)` addresses from
    /// `addr` on.
    pub open spec fn reached(self, n: nat, addr: int, a: int) -> bool {
        self.in_bounds(a) && addr <= a < addr + chunk_count(n, self.width)
    }

    /// The word that address `a` holds after `buf` was written at word
    /// address `addr`, for an address that the write reaches: the bytes that
    /// `buf` supplies for it, followed, where `buf` ends inside the word, by
    /// the bytes that the word held before.
    pub open spec fn merged(self, buf: Seq<u8>, addr: int, a: int) -> Seq<u8> {
        Seq::new(
            self.width,
            |o: int|
                if (a - addr) * self.width + o < buf.len() {
                    buf[(a - addr) * self.width + o]
                } else {
                    self.word(a)[o]
                },
        )
    }

    /// Writing the bytes `buf` at word address `addr`: every address that the
    /// write reaches gets its merged word, everything else stays.
    pub open spec fn write_bytes(self, buf: Seq<u8>, addr: int) -> Memory {
        Memory {
            words: Map::new(
                |a: int| self.words.contains_key(a) || self.reached(buf.len(), addr, a),
                |a: int|
                    if self.reached(buf.len(), addr, a) {
                        self.merged(buf, addr, a)
                    } else {
                        self.words[a]
                    },
            ),
            ..self
        }
    }

    /// Word `a` of `bytes` cut into words of `width` bytes, the last one
    /// filled up with zeros.
    pub open spec fn padded(bytes: Seq<u8>, width: nat, a: int) -> Seq<u8> {
        Seq::new(
            width,
            |o: int|
                if a * width + o < bytes.len() {
                    bytes[a * width + o]
                } else {
                    0u8
                },
        )
    }

    /// The memory built from a flat byte image: as long as the image, rounded
    /// up to whole words, and storing exactly the words that are not zero.
    pub open spec fn from_bytes(bytes: Seq<u8>, width: nat) -> Memory {
        Memory {
            length: chunk_count(bytes.len(), width),
            width,
            words: Map::new(
                |a: int|
                    0 <= a < chunk_count(bytes.len(), width) && Self::padded(bytes, width, a)
                        != zero_word(width),
                |a: int| Self::padded(bytes, width, a),
            ),
        }
    }

    /// `s` lists the stored entries: each entry once, with its word, in
    /// ascending order of address.
    pub open spec fn listed_by(self, s: Seq<(int, Seq<u8>)>) -> bool {
        lists(s, self.words)
    }

    /// The changeset from this memory to `new`: the addresses that both
    /// memories have and at which their words differ, each with the word of
    /// `new`.
    pub open spec fn diff(self, new: Memory) -> Map<int, Seq<u8>> {
        Map::new(
            |a: int| 0 <= a < self.length && a < new.length && self.word(a) != new.word(a),
            |a: int| new.word(a),
        )
    }

    /// Whether every address of the changeset is an address of this memory.
    pub open spec fn accepts(self, changes: Map<int, Seq<u8>>) -> bool {
        forall|a: int| changes.contains_key(a) ==> self.in_bounds(a)
    }

    /// Applying a changeset: every entry of it whose address is in bounds is
    /// written, everything else stays.
    ///
    /// This is what is left when the entries are written in ascending order
    /// of address and the first refused write ends the run, since the
    /// addresses before the first one out of bounds are exactly those in
    /// bounds.
    pub open spec fn patch(self, changes: Map<int, Seq<u8>>) -> Memory {
        Memory {
            words: Map::new(
                |a: int|
                    self.words.contains_key(a) || (changes.contains_key(a) && self.in_bounds(a)),
                |a: int|
                    if changes.contains_key(a) && self.in_bounds(a) {
                        changes[a]
                    } else {
                        self.words[a]
                    },
            ),
            ..self
        }
    }

    /// Writing the entries `s` one after the other, from the first on, until
    /// one is refused because its address is out of bounds: that one and
    /// those behind it are not written.
    pub open spec fn written_in_order(self, s: Seq<(int, Seq<u8>)>) -> Memory
        decreases s.len(),
    {
        if s.len() == 0 || !self.in_bounds(s[0].0) {
            self
        } else {
            self.write(s[0].1, s[0].0).written_in_order(s.drop_first())
        }
    }

    /// Two memories hold the same word at every address below `n`.
    pub open spec fn agrees_with(self, other: Memory, n: nat) -> bool {
        forall|a: int| 0 <= a < n ==> self.word(a) == other.word(a)
    }
}

} // verus!
