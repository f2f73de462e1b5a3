//! Changesets: the sparse difference between two memories, and its
//! application.

use crate::model::{entries_of, lists, words_of};
use crate::store::{ordered_entries, VMem};
use std::collections::BTreeMap;
use std::io::ErrorKind;
use vstd::prelude::*;
use vstd::std_specs::iter::IteratorSpec;

verus! {

/// Address `a` is among the first `n` entries of `s`.
spec fn among(s: Seq<(int, Seq<u8>)>, n: int, a: int) -> bool {
    exists|j: int| 0 <= j < n && #[trigger] s[j].0 == a
}

/// Whether two words hold the same bytes.
fn same_word<const W: usize>(x: &[u8; W], y: &[u8; W]) -> (same: bool)
    ensures
        same == (x@ == y@),
{
    let mut i: usize = 0;
    while i < W
        invariant
            i <= W,
            forall|j: int| 0 <= j < i ==> x@[j] == y@[j],
        decreases W - i,
    {
        if x[i] != y[i] {
            return false;
        }
        i += 1;
    }
    assert(x@ =~= y@);
    true
}

impl<const W: usize> VMem<W> {
    /// Diff two [`VMem`]s, returning a BTreeMap with (address, word) pairs.
    ///
    /// The two are walked together from address zero, as far as the shorter
    /// one reaches. Where their words differ, an address without an entry
    /// counting as a zero word, the changeset holds the word of `new`.
    pub fn diff(old: &Self, new: &Self) -> (changes: BTreeMap<usize, [u8; W]>)
        ensures
            words_of(changes@) == old@.diff(new@),
    {
        let mut changes = BTreeMap::<usize, [u8; W]>::new();
        let mut old_words = old.iter();
        let mut new_words = new.iter();
        let mut addr: usize = 0;
        let mut more = true;
        proof {
            old.lemma_shape();
            new.lemma_shape();
            assert(words_of(changes@) =~= Map::new(
                |a: int| 0 <= a < 0 && old@.word(a) != new@.word(a),
                |a: int| new@.word(a),
            ));
        }
        while more
            invariant
                old@.length <= usize::MAX,
                addr <= old@.length,
                addr <= new@.length,
                more ==> old_words@ == old@.dense().skip(addr as int),
                more ==> new_words@ == new@.dense().skip(addr as int),
                !more ==> addr == old@.length || addr == new@.length,
                words_of(changes@) == Map::new(
                    |a: int| 0 <= a < addr && old@.word(a) != new@.word(a),
                    |a: int| new@.word(a),
                ),
            decreases old@.length - addr, more as int,
        {
            let pair = (old_words.next(), new_words.next());
            match pair {
                (Some(old_word), Some(new_word)) => {
                    assert(old_word@ == old@.word(addr as int));
                    assert(new_word@ == new@.word(addr as int));
                    assert(old_words@ =~= old@.dense().skip(addr + 1));
                    assert(new_words@ =~= new@.dense().skip(addr + 1));
                    let ghost held = changes@;
                    if !same_word(old_word, new_word) {
                        changes.insert(addr, *new_word);
                    }
                    addr += 1;
                    assert forall|a: int| #[trigger]
                        words_of(changes@).contains_key(a) <==> (0 <= a < addr && old@.word(a)
                            != new@.word(a)) by {
                        assert(words_of(held).contains_key(a) <==> (0 <= a < addr - 1 && old@.word(
                            a,
                        ) != new@.word(a)));
                    }
                    assert forall|a: int| #[trigger]
                        words_of(changes@).contains_key(a) implies words_of(changes@)[a]
                        == new@.word(a) by {
                        if a != addr - 1 {
                            assert(words_of(held).contains_key(a));
                            assert(words_of(held)[a] == new@.word(a));
                        }
                    }
                    assert(words_of(changes@) =~= Map::new(
                        |a: int| 0 <= a < addr && old@.word(a) != new@.word(a),
                        |a: int| new@.word(a),
                    ));
                },
                _ => {
                    more = false;
                },
            }
        }
        assert(words_of(changes@) =~= old@.diff(new@));
        changes
    }

    /// Apply a patch with new data to the [`VMem`].
    ///
    /// The entries are written in ascending order of address. The first one
    /// whose address lies outside the memory ends the run with
    /// [`ErrorKind::AddrNotAvailable`]; what was written before it stays.
    pub fn patch(&mut self, patch: BTreeMap<usize, [u8; W]>) -> (res: Result<(), ErrorKind>)
        ensures
            final(self)@ == old(self)@.patch(words_of(patch@)),
            final(self)@.wf(),
            res == if old(self)@.accepts(words_of(patch@)) {
                Ok::<(), ErrorKind>(())
            } else {
                Err::<(), ErrorKind>(ErrorKind::AddrNotAvailable)
            },
    {
        let ghost before = self@;
        let ghost changes = words_of(patch@);
        self.know_wf();
        let entries = ordered_entries(&patch);
        let ghost all = entries.remaining();
        let ghost listed = entries_of(all);
        proof {
            assert(self@.words =~= Map::new(
                |a: int| before.words.contains_key(a) || among(listed, 0, a),
                |a: int|
                    if among(listed, 0, a) {
                        changes[a]
                    } else {
                        before.words[a]
                    },
            ));
        }
        for entry in it: entries
            invariant
                before == old(self)@,
                changes == words_of(patch@),
                it.seq() == all,
                listed == entries_of(all),
                lists(listed, changes),
                self@.length == before.length,
                self@.width == before.width,
                self@.wf(),
                forall|j: int| 0 <= j < it.index() ==> before.in_bounds(#[trigger] listed[j].0),
                self@.words == Map::new(
                    |a: int| before.words.contains_key(a) || among(listed, it.index(), a),
                    |a: int|
                        if among(listed, it.index(), a) {
                            changes[a]
                        } else {
                            before.words[a]
                        },
                ),
        {
            let ghost at = it.index();
            assert(listed[at] == (*entry.0 as int, (*entry.1)@));
            let written = self.write_word(*entry.1, *entry.0);
            if written.is_err() {
                proof {
                    assert(!before.in_bounds(listed[at].0));
                    assert(changes.contains_key(listed[at].0));
                    assert forall|a: int| changes.contains_key(a) && before.in_bounds(
                        a,
                    ) implies among(listed, at, a) by {
                        let j = choose|j: int| 0 <= j < listed.len() && #[trigger] listed[j].0 == a;
                        if j >= at {
                            assert(listed[at].0 <= listed[j].0);
                        }
                    }
                    assert(self@.words =~= before.patch(changes).words);
                    assert(self@ == before.patch(changes));
                    assert(!before.accepts(changes));
                    assert(written == Err::<(), ErrorKind>(ErrorKind::AddrNotAvailable));
                }
                return written;
            }
            proof {
                let a0 = listed[at].0;
                assert forall|a: int| among(listed, at + 1, a) <==> (among(listed, at, a) || a
                    == a0) by {
                    if among(listed, at + 1, a) {
                        let j = choose|j: int| 0 <= j < at + 1 && #[trigger] listed[j].0 == a;
                        if j < at {
                            assert(among(listed, at, a));
                        }
                    }
                    if among(listed, at, a) {
                        let j = choose|j: int| 0 <= j < at && #[trigger] listed[j].0 == a;
                        assert(0 <= j < at + 1 && listed[j].0 == a);
                    }
                    if a == a0 {
                        assert(0 <= at < at + 1 && listed[at].0 == a);
                    }
                }
                assert(self@.words =~= Map::new(
                    |a: int| before.words.contains_key(a) || among(listed, at + 1, a),
                    |a: int|
                        if among(listed, at + 1, a) {
                            changes[a]
                        } else {
                            before.words[a]
                        },
                ));
            }
        }
        proof {
            assert forall|a: int| changes.contains_key(a) implies before.in_bounds(a) && among(
                listed,
                listed.len() as int,
                a,
            ) by {
                let j = choose|j: int| 0 <= j < listed.len() && #[trigger] listed[j].0 == a;
                assert(before.in_bounds(listed[j].0));
            }
            assert forall|a: int| among(listed, listed.len() as int, a) implies changes.contains_key(
                a,
            ) by {
                let j = choose|j: int| 0 <= j < listed.len() && #[trigger] listed[j].0 == a;
                assert(changes.contains_key(listed[j].0));
            }
            assert(self@.words =~= before.patch(changes).words);
        }
        Ok(())
    }
}

} // verus!
