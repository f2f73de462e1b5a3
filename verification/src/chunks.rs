//! The sparse view in adjacency chunks: only the stored entries, in ascending
//! order of address, grouped into runs of consecutive addresses.

use crate::laws::lemma_run_len_unique;
use crate::model::{entries_of, run_len};
use crate::store::VMem;
use vstd::prelude::*;
use vstd::std_specs::iter::IteratorSpec;

verus! {

/// Iterator over the stored entries in chunks of adjacent addresses.
pub struct ChunksAdjacentContent<'a, const W: usize> {
    entries: Vec<(&'a usize, &'a [u8; W])>,
    next: usize,
    chunk_size: usize,
}

impl<'a, const W: usize> View for ChunksAdjacentContent<'a, W> {
    type V = Seq<(int, Seq<u8>)>;

    /// The entries that are yet to come, in ascending order of address.
    closed spec fn view(&self) -> Seq<(int, Seq<u8>)> {
        entries_of(self.entries@).skip(self.next as int)
    }
}

impl<'a, const W: usize> ChunksAdjacentContent<'a, W> {
    #[verifier::type_invariant]
    closed spec fn in_range(&self) -> bool {
        self.next <= self.entries@.len()
    }

    /// The maximum number of entries in a chunk.
    pub closed spec fn cap(&self) -> nat {
        self.chunk_size as nat
    }

    /// Hand out the next chunk: the next entry that is yet to come, and the
    /// entries after it while the chunk has fewer entries than the chunk
    /// size and each address is one more than the address before it. A chunk
    /// size of zero gives chunks of one entry.
    pub fn next(&mut self) -> (chunk: Option<Vec<(&'a usize, &'a [u8; W])>>)
        ensures
            final(self).cap() == old(self).cap(),
            match chunk {
                Some(c) => {
                    &&& old(self)@.len() > 0
                    &&& entries_of(c@) == old(self)@.take(
                        run_len(old(self)@, old(self).cap()) as int,
                    )
                    &&& final(self)@ == old(self)@.skip(run_len(old(self)@, old(self).cap()) as int)
                },
                None => old(self)@.len() == 0 && final(self)@ == old(self)@,
            },
    {
        proof {
            use_type_invariant(&*self);
        }
        let total = self.entries.len();
        let start = self.next;
        if start >= total {
            return None;
        }
        let ghost ahead = self@;
        let mut chunk = Vec::new();
        chunk.push(self.entries[start]);
        let mut taken: usize = 1;
        let mut adjacent = true;
        while adjacent && taken < self.chunk_size && taken < total - start
            invariant
                total == self.entries@.len(),
                start < total,
                1 <= taken <= total - start,
                taken <= self.chunk_size || taken == 1,
                ahead == entries_of(self.entries@).skip(start as int),
                chunk@ == self.entries@.subrange(start as int, start + taken),
                forall|i: int| 1 <= i < taken ==> (#[trigger] ahead[i]).0 == ahead[i - 1].0 + 1,
                !adjacent ==> taken < total - start && ahead[taken as int].0 != ahead[taken - 1].0
                    + 1,
            decreases total - start - taken, adjacent as int,
        {
            let before = *self.entries[start + taken - 1].0;
            let addr = *self.entries[start + taken].0;
            assert(ahead[taken as int].0 == addr && ahead[taken - 1].0 == before);
            if before < addr && addr - before == 1 {
                chunk.push(self.entries[start + taken]);
                taken += 1;
                assert(chunk@ =~= self.entries@.subrange(start as int, start + taken));
            } else {
                adjacent = false;
            }
        }
        proof {
            lemma_run_len_unique(ahead, self.chunk_size as nat, taken as nat);
            assert(entries_of(chunk@) =~= ahead.take(taken as int));
        }
        self.next = start + taken;
        assert(self@ =~= ahead.skip(taken as int));
        Some(chunk)
    }
}

impl<const W: usize> VMem<W> {
    /// Iterate over adjacent chunks of a specified maximum size.
    pub fn chunks_adjacent_content<'a>(&'a self, chunk_size: usize) -> (chunks:
        ChunksAdjacentContent<'a, W>)
        ensures
            self@.listed_by(chunks@),
            chunks.cap() == chunk_size,
    {
        let mut entries: Vec<(&'a usize, &'a [u8; W])> = Vec::new();
        let content = self.iter_content();
        let ghost all = content.remaining();
        for entry in it: content
            invariant
                it.seq() == all,
                entries@.len() == it.index(),
                forall|i: int| 0 <= i < entries@.len() ==> entries@[i] == all[i],
        {
            entries.push(entry);
        }
        assert(entries@ =~= all);
        let chunks = ChunksAdjacentContent { entries, next: 0, chunk_size };
        assert(chunks@ =~= entries_of(all));
        chunks
    }
}

} // verus!
