//! Laws of the memory model: what holds of reads, writes, byte views,
//! iteration and changesets, for every memory.

use crate::model::{ascending, chunk_count, cursor_bytes, lists, run_len, zero_word, Memory};
use vstd::arithmetic::div_mod::{lemma_fundamental_div_mod, lemma_fundamental_div_mod_converse};
use vstd::prelude::*;
use vstd::set_lib::lemma_int_range;

verus! {

/// A word written at an address in bounds is the word read back from it.
pub proof fn lemma_write_then_read(m: Memory, w: Seq<u8>, a: int)
    requires
        m.in_bounds(a),
    ensures
        m.write(w, a).read(a) == Some(w),
{
}

/// A write changes no other address: every other address reads as before,
/// and has an entry exactly if it had one.
pub proof fn lemma_write_elsewhere(m: Memory, w: Seq<u8>, a: int, b: int)
    requires
        a != b,
    ensures
        m.write(w, b).read(a) == m.read(a),
        m.write(w, b).words.contains_key(a) == m.words.contains_key(a),
{
}

/// An address in bounds that holds no entry reads as the zero word. In a
/// memory that was just made, that is every address in bounds.
pub proof fn lemma_untouched_reads_zero(m: Memory, a: int)
    requires
        m.in_bounds(a),
        !m.words.contains_key(a),
    ensures
        m.read(a) == Some(zero_word(m.width)),
        Memory::empty(m.length, m.width).read(a) == Some(zero_word(m.width)),
{
}

/// The length is the first address out of bounds: reading it yields nothing,
/// and writing to it changes nothing.
pub proof fn lemma_bounds(m: Memory, w: Seq<u8>)
    ensures
        m.read(m.length as int) is None,
        !m.in_bounds(m.length as int),
        m.write(w, m.length as int) == m,
{
}

/// The dense content has one word for each address, and the word at
/// position `a` is the word that reading address `a` yields.
pub proof fn lemma_dense_covers(m: Memory)
    ensures
        m.dense().len() == m.length,
        forall|a: int| 0 <= a < m.length ==> m.read(a) == Some(#[trigger] m.dense()[a]),
{
}

/// After a full mutable pass every address holds an entry: the number of
/// entries is the length. `ws` are the words that the addresses hold when
/// the pass has left them, in ascending order of address.
pub proof fn lemma_full_pass_materializes(m: Memory, ws: Seq<Seq<u8>>)
    requires
        m.wf(),
        ws.len() == m.length,
    ensures
        m.visited(ws).words.dom() == Set::new(|a: int| 0 <= a < m.length),
        m.visited(ws).entry_count() == m.length,
        forall|a: int| 0 <= a < m.length ==> m.visited(ws).word(a) == ws[a],
{
    lemma_visited(m, ws);
    lemma_int_range(0, m.length as int);
    assert forall|a: int| m.visited(ws).words.dom().contains(a) <==> 0 <= a < m.length by {
        assert(m.visited(ws).words.contains_key(a) <==> (0 <= a < ws.len() || m.words.contains_key(
            a,
        )));
    }
    assert(m.visited(ws).words.dom() =~= Set::new(|a: int| 0 <= a < m.length));
    assert(m.visited(ws).words.dom() =~= vstd::set_lib::set_int_range(0, m.length as int));
}

/// A mutable pass over the first `ws.len()` addresses stores those, keeps
/// the entries at the other addresses, and keeps the shape.
pub proof fn lemma_visited(m: Memory, ws: Seq<Seq<u8>>)
    requires
        ws.len() <= m.length,
    ensures
        m.visited(ws).length == m.length,
        m.visited(ws).width == m.width,
        forall|a: int| #[trigger]
            m.visited(ws).words.contains_key(a) <==> (0 <= a < ws.len() || m.words.contains_key(a)),
        forall|a: int| 0 <= a < ws.len() ==> #[trigger] m.visited(ws).words[a] == ws[a],
        forall|a: int|
            !(0 <= a < ws.len()) && m.words.contains_key(a) ==> #[trigger] m.visited(ws).words[a]
                == m.words[a],
    decreases ws.len(),
{
    if ws.len() > 0 {
        let init = ws.drop_last();
        let last = ws.len() - 1;
        let held = m.visited(init);
        lemma_visited(m, init);
        assert(held.in_bounds(last));
        assert(m.visited(ws).words == held.words.insert(last, ws.last()));
        assert forall|a: int| #[trigger] m.visited(ws).words.contains_key(a) <==> (0 <= a
            < ws.len() || m.words.contains_key(a)) by {
            assert(held.words.contains_key(a) <==> (0 <= a < init.len() || m.words.contains_key(
                a,
            )));
        }
        assert forall|a: int| 0 <= a < ws.len() implies #[trigger] m.visited(ws).words[a]
            == ws[a] by {
            if a < last {
                assert(held.words[a] == init[a]);
            }
        }
        assert forall|a: int| !(0 <= a < ws.len()) && m.words.contains_key(a) implies #[trigger]
            m.visited(ws).words[a] == m.words[a] by {
            assert(held.words[a] == m.words[a]);
        }
    }
}

/// Bytes written at a word address are the bytes read back from it, at
/// every position whose word lies in the memory; at every other position
/// the read leaves the buffer as it was.
pub proof fn lemma_write_then_read_bytes(m: Memory, buf: Seq<u8>, other: Seq<u8>, addr: int)
    requires
        m.width > 0,
        0 <= addr,
        other.len() == buf.len(),
    ensures
        m.write_bytes(buf, addr).read_bytes(other, addr).len() == buf.len(),
        forall|j: int|
            0 <= j < buf.len() ==> #[trigger] m.write_bytes(buf, addr).read_bytes(other, addr)[j]
                == if m.in_bounds(addr + j / (m.width as int)) {
                buf[j]
            } else {
                other[j]
            },
{
    let w = m.width as int;
    let after = m.write_bytes(buf, addr);
    assert forall|j: int| 0 <= j < buf.len() implies #[trigger] after.read_bytes(other, addr)[j]
        == if m.in_bounds(addr + j / w) {
        buf[j]
    } else {
        other[j]
    } by {
        let c = j / w;
        let o = j % w;
        let a = addr + c;
        lemma_fundamental_div_mod(j, w);
        assert(w * c == c * w) by (nonlinear_arith);
        if m.in_bounds(a) {
            lemma_chunk_holds(buf.len(), m.width, j);
            assert(m.reached(buf.len(), addr, a));
            assert(after.word(a) == m.merged(buf, addr, a));
            assert((a - addr) * w + o == j);
        }
    }
}

/// Byte `j` of `n` lies in one of the `chunk_count(n, width)` chunks.
proof fn lemma_chunk_holds(n: nat, width: nat, j: int)
    requires
        width > 0,
        0 <= j < n,
    ensures
        0 <= j / (width as int) < chunk_count(n, width),
{
    let w = width as int;
    lemma_fundamental_div_mod(j, w);
    lemma_fundamental_div_mod(n as int, w);
    let c = j / w;
    let q = (n as int) / w;
    assert(c >= 0 && c <= q) by (nonlinear_arith)
        requires
            j == w * c + j % w,
            n == w * q + (n as int) % w,
            0 <= j % w < w,
            0 <= (n as int) % w < w,
            0 <= j < n,
            w > 0,
    ;
    if c == q {
        assert((n as int) % w > 0);
    }
}

/// A byte write that is shorter than a word replaces the leading bytes of
/// the word at its address and keeps the bytes behind them.
pub proof fn lemma_partial_write_keeps_tail(m: Memory, w: Seq<u8>, short: Seq<u8>, a: int)
    requires
        m.in_bounds(a),
        w.len() == m.width,
        short.len() < m.width,
    ensures
        m.write(w, a).write_bytes(short, a).word(a).len() == m.width,
        forall|o: int|
            0 <= o < short.len() ==> m.write(w, a).write_bytes(short, a).word(a)[o] == short[o],
        forall|o: int|
            short.len() <= o < m.width ==> m.write(w, a).write_bytes(short, a).word(a)[o] == w[o],
{
    let held = m.write(w, a);
    if short.len() > 0 {
        lemma_fundamental_div_mod_converse(short.len() as int, m.width as int, 0, short.len() as int);
        assert(held.reached(short.len(), a, a));
        assert(held.write_bytes(short, a).word(a) == held.merged(short, a, a));
    } else {
        assert(!held.reached(short.len(), a, a));
    }
}

/// A changeset holds exactly the addresses, among those that both memories
/// have, at which the words differ, and for each of them the new word.
pub proof fn lemma_diff_exact(old: Memory, new: Memory, a: int)
    ensures
        old.diff(new).contains_key(a) <==> old.in_bounds(a) && new.in_bounds(a) && old.word(a)
            != new.word(a),
        old.diff(new).contains_key(a) ==> old.diff(new)[a] == new.word(a),
{
}

/// Applying the changeset from `old` to `new` to `old` is accepted, and gives
/// a memory that holds the words of `new` at every address that both have.
pub proof fn lemma_patch_of_diff(old: Memory, new: Memory)
    ensures
        old.accepts(old.diff(new)),
        forall|a: int|
            old.in_bounds(a) && new.in_bounds(a) ==> old.patch(old.diff(new)).word(a) == new.word(
                a,
            ),
        old.length == new.length ==> old.patch(old.diff(new)).agrees_with(new, old.length),
{
    assert forall|a: int| old.in_bounds(a) && new.in_bounds(a) implies old.patch(
        old.diff(new),
    ).word(a) == new.word(a) by {
        if !old.diff(new).contains_key(a) {
            assert(old.word(a) == new.word(a));
        }
    }
}

/// A changeset whose addresses are all in bounds, applied, holds at each of
/// its addresses the word of the changeset, and elsewhere the word from
/// before.
pub proof fn lemma_patch_words(m: Memory, changes: Map<int, Seq<u8>>, a: int)
    requires
        m.accepts(changes),
    ensures
        m.patch(changes).word(a) == if changes.contains_key(a) {
            changes[a]
        } else {
            m.word(a)
        },
{
}

/// Writing the entries of a changeset in ascending order of address, up to
/// the first refused write, leaves what applying the changeset leaves; and
/// no write is refused exactly if the changeset is accepted. The addresses
/// of a changeset are word indices: none is negative.
pub proof fn lemma_patch_in_order(m: Memory, changes: Map<int, Seq<u8>>, s: Seq<(int, Seq<u8>)>)
    requires
        m.wf(),
        lists(s, changes),
        forall|a: int| changes.contains_key(a) ==> 0 <= a,
    ensures
        m.written_in_order(s) == m.patch(changes),
        m.accepts(changes) <==> forall|i: int| 0 <= i < s.len() ==> m.in_bounds(#[trigger] s[i].0),
{
    lemma_written_in_order(m, s);
    assert forall|a: int| changes.contains_key(a) && m.in_bounds(a) implies exists|i: int|
        0 <= i < s.len() && #[trigger] s[i].0 == a && forall|j: int|
            0 <= j < i ==> m.in_bounds(#[trigger] s[j].0) by {
        let i = choose|i: int| 0 <= i < s.len() && #[trigger] s[i].0 == a;
        assert forall|j: int| 0 <= j < i implies m.in_bounds(#[trigger] s[j].0) by {
            assert(changes.contains_key(s[j].0));
            assert(s[j].0 < s[i].0);
        }
    }
    let out = m.written_in_order(s);
    assert forall|a: int| #[trigger] out.words.contains_key(a) <==> m.patch(
        changes,
    ).words.contains_key(a) by {
        if out.words.contains_key(a) && !m.words.contains_key(a) {
            let i = choose|i: int|
                0 <= i < s.len() && #[trigger] s[i].0 == a && m.in_bounds(a) && forall|j: int|
                    0 <= j < i ==> m.in_bounds(#[trigger] s[j].0);
            assert(changes.contains_key(s[i].0));
        }
    }
    assert forall|a: int| #[trigger] out.words.contains_key(a) implies out.words[a] == m.patch(
        changes,
    ).words[a] by {
        if changes.contains_key(a) && m.in_bounds(a) {
            let i = choose|i: int|
                0 <= i < s.len() && #[trigger] s[i].0 == a && forall|j: int|
                    0 <= j < i ==> m.in_bounds(#[trigger] s[j].0);
            assert(out.words[s[i].0] == s[i].1);
        } else {
            assert(m.words.contains_key(a));
            if exists|i: int| 0 <= i < s.len() && #[trigger] s[i].0 == a {
                let i = choose|i: int| 0 <= i < s.len() && #[trigger] s[i].0 == a;
                assert(changes.contains_key(s[i].0));
            }
        }
    }
    assert(out.words =~= m.patch(changes).words);
    if m.accepts(changes) {
        assert forall|i: int| 0 <= i < s.len() implies m.in_bounds(#[trigger] s[i].0) by {
            assert(changes.contains_key(s[i].0));
        }
    }
}

/// What writing in order leaves: the shape stays; an address holds an entry
/// if it held one or is the address of an entry that no out-of-bounds entry
/// precedes, and then, in entries that ascend, it holds that entry's word.
proof fn lemma_written_in_order(m: Memory, s: Seq<(int, Seq<u8>)>)
    requires
        ascending(s),
    ensures
        m.written_in_order(s).length == m.length,
        m.written_in_order(s).width == m.width,
        forall|a: int| #[trigger]
            m.written_in_order(s).words.contains_key(a) <==> (m.words.contains_key(a) || exists|
                i: int,
            |
                0 <= i < s.len() && #[trigger] s[i].0 == a && m.in_bounds(a) && forall|j: int|
                    0 <= j < i ==> m.in_bounds(#[trigger] s[j].0)),
        forall|i: int|
            0 <= i < s.len() && m.in_bounds(s[i].0) && (forall|j: int|
                0 <= j < i ==> m.in_bounds(#[trigger] s[j].0)) ==> m.written_in_order(s).words[(
            #[trigger] s[i]).0] == s[i].1,
        forall|a: int|
            m.words.contains_key(a) && !(exists|i: int|
                0 <= i < s.len() && #[trigger] s[i].0 == a) ==> #[trigger] m.written_in_order(
                s,
            ).words[a] == m.words[a],
    decreases s.len(),
{
    if s.len() == 0 || !m.in_bounds(s[0].0) {
        assert forall|a: int| #[trigger]
            m.written_in_order(s).words.contains_key(a) implies (m.words.contains_key(a) || exists|
            i: int,
        |
            0 <= i < s.len() && #[trigger] s[i].0 == a && m.in_bounds(a) && forall|j: int|
                0 <= j < i ==> m.in_bounds(#[trigger] s[j].0)) by {}
        assert forall|a: int|
            (exists|i: int|
                0 <= i < s.len() && #[trigger] s[i].0 == a && m.in_bounds(a) && forall|j: int|
                    0 <= j < i ==> m.in_bounds(#[trigger] s[j].0)) implies m.words.contains_key(
            a,
        ) by {
            let i = choose|i: int|
                0 <= i < s.len() && #[trigger] s[i].0 == a && m.in_bounds(a) && forall|j: int|
                    0 <= j < i ==> m.in_bounds(#[trigger] s[j].0);
            if i > 0 {
                assert(m.in_bounds(s[0].0));
            }
        }
        assert forall|i: int|
            0 <= i < s.len() && m.in_bounds(s[i].0) && (forall|j: int|
                0 <= j < i ==> m.in_bounds(#[trigger] s[j].0)) implies m.written_in_order(
            s,
        ).words[(#[trigger] s[i]).0] == s[i].1 by {
            if i > 0 {
                assert(m.in_bounds(s[0].0));
            }
        }
    } else {
        let first = m.write(s[0].1, s[0].0);
        let rest = s.drop_first();
        let out = m.written_in_order(s);
        lemma_written_in_order(first, rest);
        assert(out == first.written_in_order(rest));
        assert forall|a: int| #[trigger] out.words.contains_key(a) implies (m.words.contains_key(a)
            || exists|i: int|
            0 <= i < s.len() && #[trigger] s[i].0 == a && m.in_bounds(a) && forall|j: int|
                0 <= j < i ==> m.in_bounds(#[trigger] s[j].0)) by {
            if !m.words.contains_key(a) {
                if a == s[0].0 {
                    assert(0 <= 0 < s.len() && s[0].0 == a);
                } else {
                    assert(!first.words.contains_key(a));
                    let i = choose|i: int|
                        0 <= i < rest.len() && #[trigger] rest[i].0 == a && first.in_bounds(a)
                            && forall|j: int| 0 <= j < i ==> first.in_bounds(#[trigger] rest[j].0);
                    assert(s[i + 1].0 == a);
                    assert forall|j: int| 0 <= j < i + 1 implies m.in_bounds(#[trigger] s[j].0) by {
                        if j > 0 {
                            assert(first.in_bounds(rest[j - 1].0));
                        }
                    }
                }
            }
        }
        assert forall|a: int|
            (m.words.contains_key(a) || exists|i: int|
                0 <= i < s.len() && #[trigger] s[i].0 == a && m.in_bounds(a) && forall|j: int|
                    0 <= j < i ==> m.in_bounds(#[trigger] s[j].0)) implies #[trigger]
            out.words.contains_key(a) by {
            if !m.words.contains_key(a) {
                let i = choose|i: int|
                    0 <= i < s.len() && #[trigger] s[i].0 == a && m.in_bounds(a) && forall|j: int|
                        0 <= j < i ==> m.in_bounds(#[trigger] s[j].0);
                if i > 0 {
                    assert(rest[i - 1].0 == a);
                    assert forall|j: int| 0 <= j < i - 1 implies first.in_bounds(
                        #[trigger] rest[j].0,
                    ) by {
                        assert(m.in_bounds(s[j + 1].0));
                    }
                } else {
                    assert(first.words.contains_key(a));
                }
            } else {
                assert(first.words.contains_key(a));
            }
        }
        assert forall|i: int|
            0 <= i < s.len() && m.in_bounds(s[i].0) && (forall|j: int|
                0 <= j < i ==> m.in_bounds(#[trigger] s[j].0)) implies out.words[(
        #[trigger] s[i]).0] == s[i].1 by {
            if i > 0 {
                assert(rest[i - 1] == s[i]);
                assert forall|j: int| 0 <= j < i - 1 implies first.in_bounds(
                    #[trigger] rest[j].0,
                ) by {
                    assert(m.in_bounds(s[j + 1].0));
                }
                assert(out.words[rest[i - 1].0] == rest[i - 1].1);
            } else {
                assert(first.words.contains_key(s[0].0));
                assert forall|k: int| 0 <= k < rest.len() implies #[trigger] rest[k].0
                    != s[0].0 by {
                    assert(s[0].0 < s[k + 1].0);
                }
                assert(out.words[s[0].0] == first.words[s[0].0]);
            }
        }
        assert forall|a: int|
            m.words.contains_key(a) && !(exists|i: int|
                0 <= i < s.len() && #[trigger] s[i].0 == a) implies #[trigger] out.words[a]
            == m.words[a] by {
            assert(s[0].0 != a);
            assert(first.words.contains_key(a));
            assert forall|k: int| 0 <= k < rest.len() implies #[trigger] rest[k].0 != a by {
                assert(s[k + 1].0 != a);
            }
        }
    }
}

/// The byte count that a read returns is the address of the read in bytes
/// plus the length of the buffer.
pub proof fn lemma_cursor_bytes(addr: nat, n: nat, width: nat)
    requires
        width > 0,
    ensures
        cursor_bytes(addr, n, width) == addr * width + n,
{
    lemma_fundamental_div_mod(n as int, width as int);
    assert((addr + n / width) * width == addr * width + width * (n / width)) by (nonlinear_arith);
}

/// A memory built from a byte image holds at every address the word of the
/// image, filled up with zeros: the words left out are the zero words.
pub proof fn lemma_from_bytes_content(bytes: Seq<u8>, width: nat, a: int)
    requires
        Memory::from_bytes(bytes, width).in_bounds(a),
    ensures
        Memory::from_bytes(bytes, width).word(a) == Memory::padded(bytes, width, a),
        Memory::from_bytes(bytes, width).wf(),
{
}

/// The first adjacency chunk is not empty, stays within the chunk size
/// unless it is a single entry, holds consecutive addresses, and ends at
/// the end of the entries, at the chunk size or before a gap.
pub proof fn lemma_run_len_maximal(s: Seq<(int, Seq<u8>)>, cap: nat)
    requires
        s.len() > 0,
    ensures
        1 <= run_len(s, cap) <= s.len(),
        run_len(s, cap) <= cap || run_len(s, cap) == 1,
        forall|i: int| 1 <= i < run_len(s, cap) ==> (#[trigger] s[i]).0 == s[i - 1].0 + 1,
        run_len(s, cap) == s.len() || run_len(s, cap) >= cap || s[run_len(s, cap) as int].0
            != s[run_len(s, cap) - 1].0 + 1,
    decreases s.len(),
{
    if s.len() == 1 || cap <= 1 || s[1].0 != s[0].0 + 1 {
    } else {
        let rest = s.drop_first();
        lemma_run_len_maximal(rest, (cap - 1) as nat);
        let r = run_len(rest, (cap - 1) as nat);
        assert forall|i: int| 1 <= i < r + 1 implies (#[trigger] s[i]).0 == s[i - 1].0 + 1 by {
            if i >= 2 {
                assert(rest[i - 1].0 == rest[i - 2].0 + 1);
            }
        }
        if !(r + 1 == s.len() || r + 1 >= cap) {
            assert(rest[r as int].0 != rest[r - 1].0 + 1);
        }
    }
}

/// A prefix of `r` entries that are consecutive, that is within the chunk
/// size unless it is the single first entry, and that stops at the end of
/// `s`, at the chunk size or before a gap, is the first adjacency chunk.
pub proof fn lemma_run_len_unique(s: Seq<(int, Seq<u8>)>, cap: nat, r: nat)
    requires
        1 <= r <= s.len(),
        r <= cap || r == 1,
        forall|i: int| 1 <= i < r ==> (#[trigger] s[i]).0 == s[i - 1].0 + 1,
        r == s.len() || r >= cap || s[r as int].0 != s[r - 1].0 + 1,
    ensures
        run_len(s, cap) == r,
    decreases s.len(),
{
    if s.len() == 1 || cap <= 1 || s[1].0 != s[0].0 + 1 {
        if r >= 2 {
            assert(s[1].0 == s[0].0 + 1);
        }
    } else {
        let rest = s.drop_first();
        assert forall|i: int| 1 <= i < r - 1 implies (#[trigger] rest[i]).0 == rest[i - 1].0
            + 1 by {
            assert(s[i + 1].0 == s[i].0 + 1);
        }
        lemma_run_len_unique(rest, (cap - 1) as nat, (r - 1) as nat);
    }
}

/// In entries that ascend, the addresses of the first adjacency chunk are
/// those from the first address on, without a gap.
pub proof fn lemma_run_is_contiguous(s: Seq<(int, Seq<u8>)>, cap: nat, i: int)
    requires
        ascending(s),
        0 <= i < run_len(s, cap),
    ensures
        s[i].0 == s[0].0 + i,
    decreases i,
{
    if i > 0 {
        lemma_run_len_maximal(s, cap);
        lemma_run_is_contiguous(s, cap, i - 1);
    }
}

} // verus!
