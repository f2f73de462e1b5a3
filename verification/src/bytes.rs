//! The byte view: reading and writing byte buffers that span consecutive
//! words, and building a memory from a flat byte image.

use crate::model::{chunk_count, cursor_bytes, zero_word, Memory};
use crate::store::VMem;
use vstd::arithmetic::div_mod::{lemma_fundamental_div_mod, lemma_fundamental_div_mod_converse};
use vstd::prelude::*;
use vstd::std_specs::convert::FromSpecImpl;

verus! {

/// Byte `c * width + o` lies in chunk `c` at offset `o`.
proof fn lemma_chunk_offset(width: int, c: int, o: int)
    requires
        width > 0,
        0 <= c,
        0 <= o < width,
    ensures
        (c * width + o) / width == c,
        (c * width + o) % width == o,
        c * width + o >= 0,
{
    lemma_fundamental_div_mod_converse(c * width + o, width, c, o);
    assert(c * width >= 0) by (nonlinear_arith)
        requires
            width > 0,
            c >= 0,
    ;
}

/// `[0, pos)` holds exactly `c` chunks when `pos == c * width`, and one more
/// when a partial chunk follows.
proof fn lemma_chunk_count(width: nat, c: nat, extra: nat)
    requires
        width > 0,
        extra <= width,
    ensures
        chunk_count(c * width, width) == c,
        extra > 0 ==> chunk_count(c * width + extra, width) == c + 1,
{
    lemma_fundamental_div_mod_converse((c * width) as int, width as int, c as int, 0);
    if extra > 0 {
        if extra < width {
            lemma_fundamental_div_mod_converse(
                (c * width + extra) as int,
                width as int,
                c as int,
                extra as int,
            );
        } else {
            assert((c + 1) * width == c * width + width) by (nonlinear_arith);
            lemma_fundamental_div_mod_converse(
                (c * width + extra) as int,
                width as int,
                c as int + 1,
                0,
            );
        }
    }
}

/// A chunk that starts before the end of `n` bytes is one of the
/// `chunk_count(n, width)` chunks, and that count is at most `n`.
proof fn lemma_chunk_bound(width: nat, n: nat, c: nat)
    requires
        width > 0,
    ensures
        chunk_count(n, width) <= n,
        c * width < n ==> c < chunk_count(n, width),
{
    let q = n / width;
    let r = n % width;
    lemma_fundamental_div_mod(n as int, width as int);
    assert(q * width >= q) by (nonlinear_arith)
        requires
            width >= 1,
            q >= 0,
    ;
    if c * width < n && c >= chunk_count(n, width) {
        assert(c * width >= chunk_count(n, width) * width) by (nonlinear_arith)
            requires
                c >= chunk_count(n, width),
                width > 0,
        ;
        assert((q + 1) * width == q * width + width) by (nonlinear_arith);
    }
}

/// One step of a byte write: with `c` whole words of `buf` written, writing
/// the next `take` bytes amounts to one word write at address `addr + c`, of
/// the word merged from those bytes, or to nothing where that address is out
/// of bounds.
proof fn lemma_write_step(m: Memory, buf: Seq<u8>, addr: int, c: nat, take: nat)
    requires
        m.width > 0,
        0 <= addr,
        0 < take <= m.width,
        c * m.width + take <= buf.len(),
        take < m.width ==> c * m.width + take == buf.len(),
    ensures
        ({
            let pre = buf.take((c * m.width) as int);
            let post = buf.take((c * m.width + take) as int);
            let cur = m.write_bytes(pre, addr);
            &&& cur.word(addr + c) == m.word(addr + c)
            &&& m.write_bytes(post, addr) == cur.write(m.merged(post, addr, addr + c), addr + c)
        }),
{
    let w = m.width;
    let pre = buf.take((c * w) as int);
    let post = buf.take((c * w + take) as int);
    let cur = m.write_bytes(pre, addr);
    let a = addr + c;
    lemma_chunk_count(w, c, take);
    let lhs = m.write_bytes(post, addr);
    let rhs = cur.write(m.merged(post, addr, a), a);
    assert forall|x: int| m.reached(pre.len(), addr, x) implies m.merged(pre, addr, x)
        == m.merged(post, addr, x) by {
        let k = x - addr;
        assert((k + 1) * w <= c * w) by (nonlinear_arith)
            requires
                k + 1 <= c,
                w > 0,
        ;
        assert((k + 1) * w == k * w + w) by (nonlinear_arith);
        assert(m.merged(pre, addr, x) =~= m.merged(post, addr, x));
    }
    assert(lhs.words =~= rhs.words);
}

/// `std::io::Error`, the error type of the result that a byte read hands
/// back. The library never makes one: nothing is known or said of its values.
#[verifier::external_type_specification]
#[verifier::external_body]
pub struct ExIoError(std::io::Error);

impl<const W: usize> VMem<W> {
    /// Fill buffer with the contents from the `VMem` starting from the
    /// specified address.
    ///
    /// The buffer is cut into words of `W` bytes, the last one possibly
    /// shorter. A word whose address lies in the memory is filled from it; one
    /// whose address lies outside is left untouched. The count returned is
    /// the position of the cursor in bytes, not the number of bytes copied.
    pub fn read_at(&self, buf: &mut [u8], addr: usize) -> (res: std::io::Result<usize>)
        requires
            W > 0,
            cursor_bytes(addr as nat, old(buf)@.len(), W as nat) <= usize::MAX,
        ensures
            final(buf)@ == self@.read_bytes(old(buf)@, addr as int),
            res matches Ok(count) && count == cursor_bytes(
                addr as nat,
                old(buf)@.len(),
                W as nat,
            ),
    {
        let n = buf.len();
        let ghost before = buf@;
        let ghost want = self@.read_bytes(before, addr as int);
        let mut pos: usize = 0;
        let mut chunk: usize = 0;
        proof {
            self.lemma_shape();
        }
        while pos < n
            invariant
                W > 0,
                self@.width == W,
                n == before.len(),
                buf@.len() == n,
                self@.length <= usize::MAX,
                pos <= n,
                chunk <= pos,
                pos < n ==> pos == chunk * W,
                want == self@.read_bytes(before, addr as int),
                forall|j: int| 0 <= j < pos ==> buf@[j] == want[j],
                forall|j: int| pos <= j < n ==> buf@[j] == before[j],
            decreases n - pos,
        {
            let take = if n - pos < W {
                n - pos
            } else {
                W
            };
            proof {
                assert forall|j: int| pos <= j < pos + take implies #[trigger] want[j] == (
                if self@.in_bounds(addr + chunk) {
                    self@.word(addr + chunk)[j - pos]
                } else {
                    before[j]
                }) by {
                    lemma_chunk_offset(W as int, chunk as int, j - pos);
                }
            }
            let word = match addr.checked_add(chunk) {
                Some(a) => self.read_word(a),
                None => None,
            };
            match word {
                Some(word) => {
                    let mut o: usize = 0;
                    while o < take
                        invariant
                            o <= take,
                            take <= W,
                            pos + take <= n,
                            buf@.len() == n,
                            n == before.len(),
                            want.len() == n,
                            forall|j: int|
                                pos <= j < pos + take ==> #[trigger] want[j] == word@[j - pos],
                            forall|j: int| 0 <= j < pos + o ==> buf@[j] == want[j],
                            forall|j: int| pos + o <= j < n ==> buf@[j] == before[j],
                        decreases take - o,
                    {
                        buf[pos + o] = word[o];
                        o += 1;
                    }
                },
                None => {
                    assert(!self@.in_bounds(addr + chunk));
                },
            }
            pos += take;
            proof {
                if pos < n {
                    assert((chunk + 1) * W == chunk * W + W) by (nonlinear_arith);
                }
            }
            if pos < n {
                chunk += 1;
            }
        }
        assert(buf@ =~= want);
        proof {
            assert((addr + n / W) * W >= addr + n / W) by (nonlinear_arith)
                requires
                    W >= 1,
            ;
        }
        Ok((addr + n / W) * W + n % W)
    }

    /// Write the content from the buffer to the `VMem` starting from the
    /// specified address.
    ///
    /// The buffer is cut into words of `W` bytes, the last one possibly
    /// shorter. A whole word replaces the word at its address. A shorter last
    /// word replaces only the leading bytes of the word at its address and
    /// keeps the rest, zero where nothing was stored. Words whose address
    /// lies outside the memory are skipped.
    pub fn write_at(&mut self, buf: &[u8], addr: usize)
        requires
            W > 0,
        ensures
            final(self)@ == old(self)@.write_bytes(buf@, addr as int),
            final(self)@.wf(),
    {
        let n = buf.len();
        let ghost before = self@;
        let mut pos: usize = 0;
        let mut chunk: usize = 0;
        proof {
            self.lemma_shape();
            lemma_chunk_count(W as nat, 0, 0);
            assert(before.write_bytes(buf@.take(0), addr as int).words =~= before.words);
        }
        self.know_wf();
        while pos < n
            invariant
                W > 0,
                before.width == W,
                before.length <= usize::MAX,
                n == buf@.len(),
                pos <= n,
                chunk <= pos,
                pos < n ==> pos == chunk * W,
                self@ == before.write_bytes(buf@.take(pos as int), addr as int),
                self@.wf(),
            decreases n - pos,
        {
            let take = if n - pos < W {
                n - pos
            } else {
                W
            };
            proof {
                lemma_write_step(before, buf@, addr as int, chunk as nat, take as nat);
            }
            let ghost post = buf@.take(pos + take);
            // The word that the address holds is the base of the merge; a
            // whole word from the buffer overwrites all of it.
            let target = match addr.checked_add(chunk) {
                Some(a) => self.read_word(a),
                None => None,
            };
            match target {
                Some(mut word) => {
                    let a = addr + chunk;
                    let ghost held = word@;
                    let mut o: usize = 0;
                    while o < take
                        invariant
                            o <= take,
                            take <= W,
                            pos + take <= n,
                            n == buf@.len(),
                            word@.len() == W,
                            forall|i: int| 0 <= i < o ==> word@[i] == buf@[pos + i],
                            forall|i: int| o <= i < W ==> word@[i] == held[i],
                        decreases take - o,
                    {
                        word[o] = buf[pos + o];
                        o += 1;
                    }
                    assert(word@ =~= before.merged(post, addr as int, a as int));
                    let _ = self.write_word(word, a);
                },
                None => {
                    assert(!before.in_bounds(addr + chunk));
                },
            }
            pos += take;
            proof {
                if pos < n {
                    assert((chunk + 1) * W == chunk * W + W) by (nonlinear_arith);
                }
            }
            if pos < n {
                chunk += 1;
            }
        }
        assert(buf@.take(n as int) =~= buf@);
    }

    /// Build a memory from a flat byte image. The image is cut into words of
    /// `W` bytes, the last one filled up with zeros; the memory is as long as
    /// the image has words, and stores those that are not zero.
    pub fn from_bytes(bytes: &[u8]) -> (vmem: Self)
        requires
            W > 0,
        ensures
            vmem@ == Memory::from_bytes(bytes@, W as nat),
            vmem@.wf(),
    {
        let n = bytes.len();
        proof {
            lemma_chunk_bound(W as nat, n as nat, 0);
        }
        let count = if n % W != 0 {
            n / W + 1
        } else {
            n / W
        };
        let mut vmem = VMem::<W>::new(count);
        let mut pos: usize = 0;
        let mut done: usize = 0;
        let ghost image = bytes@;
        proof {
            vmem.lemma_shape();
            lemma_chunk_count(W as nat, 0, 0);
            assert(vmem@.words =~= Map::new(
                |a: int| 0 <= a < 0 && Memory::padded(image, W as nat, a) != zero_word(W as nat),
                |a: int| Memory::padded(image, W as nat, a),
            ));
        }
        while pos < n
            invariant
                W > 0,
                image == bytes@,
                n == image.len(),
                count == chunk_count(n as nat, W as nat),
                pos <= n,
                done <= count,
                pos < n ==> pos == done * W,
                pos == n ==> done == count,
                vmem@.length == count,
                vmem@.width == W,
                vmem@.words == Map::new(
                    |a: int|
                        0 <= a < done && Memory::padded(image, W as nat, a) != zero_word(W as nat),
                    |a: int| Memory::padded(image, W as nat, a),
                ),
                vmem@.wf(),
            decreases n - pos,
        {
            let take = if n - pos < W {
                n - pos
            } else {
                W
            };
            proof {
                lemma_chunk_bound(W as nat, n as nat, done as nat);
                lemma_chunk_count(W as nat, done as nat, take as nat);
            }
            let mut word = [0x00; W];
            let mut nonzero = false;
            let mut o: usize = 0;
            let ghost mut witness: int = 0;
            while o < take
                invariant
                    o <= take,
                    take <= W,
                    pos + take <= n,
                    n == bytes@.len(),
                    word@.len() == W,
                    forall|i: int| 0 <= i < o ==> word@[i] == bytes@[pos + i],
                    forall|i: int| o <= i < W ==> word@[i] == 0u8,
                    nonzero ==> 0 <= witness < o && word@[witness] != 0u8,
                    !nonzero ==> forall|i: int| 0 <= i < o ==> word@[i] == 0u8,
                decreases take - o,
            {
                word[o] = bytes[pos + o];
                if bytes[pos + o] != 0 {
                    nonzero = true;
                    proof {
                        witness = o as int;
                    }
                }
                o += 1;
            }
            proof {
                assert(word@ =~= Memory::padded(image, W as nat, done as int));
                if nonzero {
                    assert(zero_word(W as nat)[witness] == 0u8);
                } else {
                    assert(word@ =~= zero_word(W as nat));
                }
            }
            if nonzero {
                let _ = vmem.write_word(word, done);
            }
            pos += take;
            done += 1;
            proof {
                if pos < n {
                    assert((done - 1 + 1) * W == (done - 1) * W + W) by (nonlinear_arith);
                }
                assert(vmem@.words =~= Map::new(
                    |a: int|
                        0 <= a < done && Memory::padded(image, W as nat, a) != zero_word(W as nat),
                    |a: int| Memory::padded(image, W as nat, a),
                ));
            }
        }
        vmem
    }
}

impl<const W: usize> From<&[u8]> for VMem<W> {
    /// The memory of a flat byte image, as [`VMem::from_bytes`] builds it.
    /// With a width of zero no byte belongs to a word: the memory is empty.
    fn from(bytes: &[u8]) -> (vmem: Self)
        ensures
            W > 0 ==> vmem@ == Memory::from_bytes(bytes@, W as nat),
            W == 0 ==> vmem@ == Memory::empty(0, 0),
    {
        if W == 0 {
            VMem::new(0)
        } else {
            VMem::from_bytes(bytes)
        }
    }
}

/// What `from` returns is stated in its own `ensures`, over the model: a
/// store has no value in specifications other than through its view.
impl<const W: usize> FromSpecImpl<&[u8]> for VMem<W> {
    open spec fn obeys_from_spec() -> bool {
        false
    }

    open spec fn from_spec(bytes: &[u8]) -> Self {
        arbitrary()
    }
}

} // verus!
