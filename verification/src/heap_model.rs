//! Mathematical model of the heap arena.
//!
//! The arena is a flat byte sequence.  Every block is described solely by its
//! metadata byte: the header at the block's first byte and an identical
//! footer at its last byte.  A metadata byte packs the block size (a multiple
//! of four, so its two low bits are free) with the allocation bit and the
//! "previous block allocated" bit.
//!
//! This module defines the decoding of a metadata byte, the chain of blocks
//! that tiles the arena, the well-formedness predicate that every public
//! heap operation preserves, and the lemmas that the operations' proofs use.

use vstd::prelude::*;

verus! {

/// Block size stored in a metadata byte: the byte with its two low bits
/// cleared.
pub open spec fn bsize_of(b: u8) -> int {
    (b as int / 4) * 4
}

/// Allocation bit of a metadata byte (lowest bit).
pub open spec fn alloc_of(b: u8) -> int {
    b as int % 2
}

/// "Previous block allocated" bit of a metadata byte (second-lowest bit).
pub open spec fn prev_of(b: u8) -> int {
    (b as int / 2) % 2
}

/// The byte value that encodes a block size with the two flag bits.
pub open spec fn enc(size: int, alloc: int, prev: int) -> int {
    size + alloc + 2 * prev
}

/// A size/flag triple that a single metadata byte can hold.
pub open spec fn enc_valid(size: int, alloc: int, prev: int) -> bool {
    &&& 4 <= size <= 252
    &&& size % 4 == 0
    &&& 0 <= alloc <= 1
    &&& 0 <= prev <= 1
}

/// The smallest multiple of four that is at least `n`.
pub open spec fn round_up4(n: int) -> int {
    ((n + 3) / 4) * 4
}

/// Rounding up to a multiple of four lands within the next three values,
/// fixes multiples of four, and is monotone.
pub proof fn lemma_round_up4(n: int)
    requires
        0 <= n,
    ensures
        n <= round_up4(n) < n + 4,
        round_up4(n) % 4 == 0,
        n % 4 == 0 ==> round_up4(n) == n,
        forall|m: int| 0 <= m <= n ==> #[trigger] round_up4(m) <= round_up4(n),
{
    assert forall|m: int| 0 <= m <= n implies #[trigger] round_up4(m) <= round_up4(n) by {
        assert(((m + 3) / 4) * 4 <= ((n + 3) / 4) * 4) by (nonlinear_arith)
            requires
                0 <= m <= n,
        ;
    }
    assert(n <= ((n + 3) / 4) * 4 < n + 4 && (((n + 3) / 4) * 4) % 4 == 0 && (n % 4 == 0 ==> ((n
        + 3) / 4) * 4 == n)) by (nonlinear_arith)
        requires
            0 <= n,
    ;
}

/// Decoding inverts encoding on every triple a metadata byte can hold.
pub proof fn lemma_enc_roundtrip(size: int, alloc: int, prev: int)
    requires
        enc_valid(size, alloc, prev),
    ensures
        0 <= enc(size, alloc, prev) <= 255,
        bsize_of(enc(size, alloc, prev) as u8) == size,
        alloc_of(enc(size, alloc, prev) as u8) == alloc,
        prev_of(enc(size, alloc, prev) as u8) == prev,
{
    let b = enc(size, alloc, prev);
    assert(b == 4 * (size / 4) + (alloc + 2 * prev));
    assert(b / 4 == size / 4 && b % 4 == alloc + 2 * prev) by (nonlinear_arith)
        requires
            b == 4 * (size / 4) + (alloc + 2 * prev),
            0 <= alloc + 2 * prev < 4,
            0 <= size / 4,
    ;
    assert((alloc + 2 * prev) % 2 == alloc && (alloc + 2 * prev) / 2 == prev);
}

/// The blocks starting at `i` tile the arena up to its end, each with a
/// valid size, a footer equal to its header, and a "previous allocated" bit
/// equal to `prev_alloc`, the allocation bit of the block just before `i`
/// (zero at the bottom of the arena).
pub open spec fn wf_chain(h: Seq<u8>, i: int, prev_alloc: int) -> bool
    decreases h.len() - i
        when 0 <= i <= h.len()
{
    if i == h.len() {
        true
    } else {
        let s = bsize_of(h[i]);
        &&& 4 <= s
        &&& i + s <= h.len()
        &&& h[i + s - 1] == h[i]
        &&& prev_of(h[i]) == prev_alloc
        &&& wf_chain(h, i + s, alloc_of(h[i]))
    }
}

/// Walking the block chain from `i` lands exactly on `j`.
pub open spec fn reaches(h: Seq<u8>, i: int, j: int) -> bool
    decreases j - i
        when 0 <= i <= j
{
    ||| i == j
    ||| {
        let s = bsize_of(h[i]);
        &&& i < j
        &&& i < h.len()
        &&& 4 <= s
        &&& i + s <= j
        &&& reaches(h, i + s, j)
    }
}

/// `j` is the header offset of one of the arena's blocks.
pub open spec fn is_block_start(h: Seq<u8>, j: int) -> bool {
    &&& 0 <= j < h.len()
    &&& reaches(h, 0, j)
}

/// No block is free while the block just before it is also free.  Under
/// `wf_chain` the "previous allocated" bit mirrors the predecessor's
/// allocation bit, so the condition reads off each block's own header.
pub open spec fn no_adjacent_free(h: Seq<u8>) -> bool {
    forall|j: int| #[trigger] is_block_start(h, j) && j != 0 ==> alloc_of(h[j]) == 1 || prev_of(h[j]) == 1
}

/// Like [`no_adjacent_free`], but the block starting at `x` (if any) is
/// allowed to have a free predecessor.  This is the state a split leaves
/// behind until the allocator marks the head block allocated.
pub open spec fn no_adjacent_free_except(h: Seq<u8>, x: int) -> bool {
    forall|j: int| #[trigger] is_block_start(h, j) && j != 0 && j != x ==> alloc_of(h[j]) == 1
        || prev_of(h[j]) == 1
}

/// Sum of the block sizes along the chain from `i`.
pub open spec fn blocks_total(h: Seq<u8>, i: int) -> int
    decreases h.len() - i
        when 0 <= i <= h.len()
{
    if i == h.len() {
        0
    } else {
        let s = bsize_of(h[i]);
        if 4 <= s && i + s <= h.len() {
            s + blocks_total(h, i + s)
        } else {
            0
        }
    }
}

/// Header offset of the first block at or after `i` that is free and at
/// least `min` bytes large.
pub open spec fn first_fit_from(h: Seq<u8>, i: int, min: int) -> Option<int>
    decreases h.len() - i
        when 0 <= i <= h.len()
{
    if i == h.len() {
        None
    } else {
        let s = bsize_of(h[i]);
        if !(4 <= s && i + s <= h.len()) {
            None
        } else if alloc_of(h[i]) == 0 && s >= min {
            Some(i)
        } else {
            first_fit_from(h, i + s, min)
        }
    }
}

/// The arena holds a free block of at least `min` bytes.
pub open spec fn has_free_block(h: Seq<u8>, min: int) -> bool {
    exists|j: int| #[trigger] is_block_start(h, j) && alloc_of(h[j]) == 0 && bsize_of(h[j]) >= min
}

/// A finished run of blocks: they tile the arena exactly from `i` to `j`,
/// the flag `p` is the allocation bit of the block just before `i`, and `q`
/// is the allocation bit of the run's last block (`p` again if the run is
/// empty).
pub open spec fn wf_seg(h: Seq<u8>, i: int, j: int, p: int, q: int) -> bool
    decreases j - i
        when 0 <= i <= j
{
    if i == j {
        p == q
    } else {
        let s = bsize_of(h[i]);
        &&& 4 <= s
        &&& i + s <= j
        &&& j <= h.len()
        &&& h[i + s - 1] == h[i]
        &&& prev_of(h[i]) == p
        &&& wf_seg(h, i + s, j, alloc_of(h[i]), q)
    }
}

/// `wf_chain` from `i` only reads the bytes from `i` on.
pub proof fn lemma_wf_chain_frame(h1: Seq<u8>, h2: Seq<u8>, i: int, p: int)
    requires
        0 <= i <= h1.len(),
        h1.len() == h2.len(),
        forall|k: int| i <= k < h1.len() ==> h1[k] == h2[k],
        wf_chain(h1, i, p),
    ensures
        wf_chain(h2, i, p),
    decreases h1.len() - i,
{
    if i == h1.len() {
    } else {
        let s = bsize_of(h1[i]);
        lemma_wf_chain_frame(h1, h2, i + s, alloc_of(h1[i]));
    }
}

/// `wf_seg` between `i` and `j` only reads the bytes between them.
pub proof fn lemma_wf_seg_frame(h1: Seq<u8>, h2: Seq<u8>, i: int, j: int, p: int, q: int)
    requires
        0 <= i <= j,
        h1.len() == h2.len(),
        forall|k: int| i <= k < j ==> h1[k] == h2[k],
        wf_seg(h1, i, j, p, q),
    ensures
        wf_seg(h2, i, j, p, q),
    decreases j - i,
{
    if i == j {
    } else {
        let s = bsize_of(h1[i]);
        lemma_wf_seg_frame(h1, h2, i + s, j, alloc_of(h1[i]), q);
    }
}

/// A finished run followed by a well-formed chain is a well-formed chain.
pub proof fn lemma_seg_chain_compose(h: Seq<u8>, i: int, j: int, p: int, q: int)
    requires
        0 <= i <= j,
        wf_seg(h, i, j, p, q),
        wf_chain(h, j, q),
    ensures
        wf_chain(h, i, p),
    decreases j - i,
{
    if i == j {
    } else {
        let s = bsize_of(h[i]);
        lemma_seg_chain_compose(h, i + s, j, alloc_of(h[i]), q);
    }
}

/// Two finished runs end to end form one finished run.
pub proof fn lemma_seg_seg_compose(h: Seq<u8>, i: int, j: int, k: int, p: int, q: int, r: int)
    requires
        0 <= i <= j <= k,
        wf_seg(h, i, j, p, q),
        wf_seg(h, j, k, q, r),
    ensures
        wf_seg(h, i, k, p, r),
    decreases j - i,
{
    if i == j {
    } else {
        let s = bsize_of(h[i]);
        lemma_seg_seg_compose(h, i + s, j, k, alloc_of(h[i]), q, r);
    }
}

/// Splitting a well-formed chain at a block it reaches: the part before the
/// block is a finished run, the part from it is itself a well-formed chain,
/// and both carry the block's own "previous allocated" bit as their flag.
pub proof fn lemma_chain_decompose(h: Seq<u8>, i: int, j: int, p: int)
    requires
        0 <= i <= j < h.len(),
        wf_chain(h, i, p),
        reaches(h, i, j),
    ensures
        wf_seg(h, i, j, p, prev_of(h[j])),
        wf_chain(h, j, prev_of(h[j])),
    decreases j - i,
{
    if i == j {
    } else {
        let s = bsize_of(h[i]);
        lemma_chain_decompose(h, i + s, j, alloc_of(h[i]));
    }
}

/// Chain walks are paths: one landing point of a walk from `i` reaches any
/// later landing point of a walk from the same `i`.
pub proof fn lemma_reaches_trans(h: Seq<u8>, i: int, j: int, k: int)
    requires
        0 <= i <= j <= k,
        reaches(h, i, j),
        reaches(h, i, k),
    ensures
        reaches(h, j, k),
    decreases j - i,
{
    if i == j {
    } else {
        let s = bsize_of(h[i]);
        lemma_reaches_trans(h, i + s, j, k);
    }
}

/// Chain walks concatenate.
pub proof fn lemma_reaches_concat(h: Seq<u8>, i: int, j: int, k: int)
    requires
        0 <= i <= j <= k,
        reaches(h, i, j),
        reaches(h, j, k),
    ensures
        reaches(h, i, k),
    decreases j - i,
{
    if i == j {
    } else {
        let s = bsize_of(h[i]);
        lemma_reaches_concat(h, i + s, j, k);
    }
}

/// A chain walk from `i` to `j` only reads the bytes between them.
pub proof fn lemma_reaches_frame(h1: Seq<u8>, h2: Seq<u8>, i: int, j: int)
    requires
        0 <= i <= j,
        h1.len() == h2.len(),
        forall|k: int| i <= k < j ==> h1[k] == h2[k],
        reaches(h1, i, j),
    ensures
        reaches(h2, i, j),
    decreases j - i,
{
    if i == j {
    } else {
        let s = bsize_of(h1[i]);
        lemma_reaches_frame(h1, h2, i + s, j);
    }
}

/// In a well-formed chain, the sizes along the chain sum exactly to
/// the number of bytes the chain covers.
pub proof fn lemma_blocks_total(h: Seq<u8>, i: int, prev_alloc: int)
    requires
        0 <= i <= h.len(),
        wf_chain(h, i, prev_alloc),
    ensures
        blocks_total(h, i) == h.len() - i,
    decreases h.len() - i,
{
    if i == h.len() {
    } else {
        let s = bsize_of(h[i]);
        lemma_blocks_total(h, i + s, alloc_of(h[i]));
    }
}

/// What a first-fit hit says: the result is a reachable free block that
/// fits, and every reachable block before it is allocated or too small.
pub proof fn lemma_first_fit_found(h: Seq<u8>, i: int, min: int)
    requires
        0 <= i <= h.len(),
        first_fit_from(h, i, min) is Some,
    ensures
        ({
            let j = first_fit_from(h, i, min)->Some_0;
            &&& reaches(h, i, j)
            &&& i <= j < h.len()
            &&& alloc_of(h[j]) == 0
            &&& bsize_of(h[j]) >= min
            &&& j + bsize_of(h[j]) <= h.len()
            &&& forall|k: int|
                i <= k < j && #[trigger] reaches(h, i, k) ==> alloc_of(h[k]) == 1 || bsize_of(
                    h[k],
                ) < min
        }),
    decreases h.len() - i,
{
    let j = first_fit_from(h, i, min)->Some_0;
    let s = bsize_of(h[i]);
    if alloc_of(h[i]) == 0 && s >= min {
        assert(reaches(h, i, j));
    } else {
        lemma_first_fit_found(h, i + s, min);
        assert(reaches(h, i, j));
        assert forall|k: int| i <= k < j && #[trigger] reaches(h, i, k) implies alloc_of(h[k])
            == 1 || bsize_of(h[k]) < min by {
            if k != i {
                assert(reaches(h, i, k));
                assert(reaches(h, i + s, k));
            }
        }
    }
}

/// A first-fit miss over a well-formed chain means every reachable block is
/// allocated or too small.
pub proof fn lemma_first_fit_none(h: Seq<u8>, i: int, p: int, min: int)
    requires
        0 <= i <= h.len(),
        wf_chain(h, i, p),
        first_fit_from(h, i, min) is None,
    ensures
        forall|k: int|
            i <= k < h.len() && #[trigger] reaches(h, i, k) ==> alloc_of(h[k]) == 1 || bsize_of(
                h[k],
            ) < min,
    decreases h.len() - i,
{
    if i == h.len() {
    } else {
        let s = bsize_of(h[i]);
        lemma_first_fit_none(h, i + s, alloc_of(h[i]), min);
        assert forall|k: int| i <= k < h.len() && #[trigger] reaches(h, i, k) implies alloc_of(
            h[k],
        ) == 1 || bsize_of(h[k]) < min by {
            if k != i {
                assert(reaches(h, i, k));
                assert(reaches(h, i + s, k));
            }
        }
    }
}

/// A reachable free block that fits guarantees a first-fit hit.
pub proof fn lemma_first_fit_some(h: Seq<u8>, i: int, p: int, min: int, j: int)
    requires
        0 <= i <= j < h.len(),
        wf_chain(h, i, p),
        reaches(h, i, j),
        alloc_of(h[j]) == 0,
        bsize_of(h[j]) >= min,
    ensures
        first_fit_from(h, i, min) is Some,
    decreases j - i,
{
    if i == j {
    } else {
        let s = bsize_of(h[i]);
        lemma_first_fit_some(h, i + s, alloc_of(h[i]), min, j);
    }
}

/// Shape of the arena after splitting the free block at `i` into a head of
/// `min` bytes and a free tail: the chain is still well formed, the head and
/// tail are both reachable blocks with the stated metadata, and only the
/// pair of headers and footers changed.  The only tolerated adjacency of two
/// free blocks is the tail right below the head.
pub proof fn lemma_split_shape(h0: Seq<u8>, h2: Seq<u8>, i: int, min: int, s0: int, p0: int)
    requires
        wf_chain(h0, 0, 0),
        no_adjacent_free(h0),
        h0.len() <= 252,
        0 <= i < h0.len(),
        reaches(h0, 0, i),
        s0 == bsize_of(h0[i]),
        p0 == prev_of(h0[i]),
        alloc_of(h0[i]) == 0,
        4 <= min <= s0,
        min % 4 == 0,
        s0 - min >= 4,
        h2 == h0.update(i, (enc(min, 0, p0) as u8)).update(i + min - 1, (enc(min, 0, p0) as u8))
            .update(i + min, (enc(s0 - min, 0, 0) as u8)).update(
            i + s0 - 1,
            (enc(s0 - min, 0, 0) as u8),
        ),
    ensures
        h2.len() == h0.len(),
        wf_chain(h2, 0, 0),
        is_block_start(h2, i),
        bsize_of(h2[i]) == min,
        alloc_of(h2[i]) == 0,
        prev_of(h2[i]) == p0,
        i + min < h2.len(),
        is_block_start(h2, i + min),
        bsize_of(h2[i + min]) == s0 - min,
        alloc_of(h2[i + min]) == 0,
        prev_of(h2[i + min]) == 0,
        i + s0 <= h2.len(),
        no_adjacent_free_except(h2, i + min),
        forall|k: int|
            0 <= k < h0.len() && k != i && k != i + min - 1 && k != i + min && k != i + s0 - 1
                ==> h2[k] == h0[k],
{
    lemma_chain_decompose(h0, 0, i, 0);
    assert(wf_chain(h0, i, p0));
    assert(wf_chain(h0, i + s0, 0));
    assert(s0 % 4 == 0);
    let hb = enc(min, 0, p0) as u8;
    let tb = enc(s0 - min, 0, 0) as u8;
    lemma_enc_roundtrip(min, 0, p0);
    lemma_enc_roundtrip(s0 - min, 0, 0);
    assert(h2[i] == hb && h2[i + min - 1] == hb && h2[i + min] == tb && h2[i + s0 - 1] == tb);

    // The prefix and the suffix of the arena still hold their runs.
    lemma_wf_seg_frame(h0, h2, 0, i, 0, p0);
    lemma_wf_chain_frame(h0, h2, i + s0, 0);

    // The two new blocks form a finished run in place of the old block.
    assert(wf_seg(h2, i + s0, i + s0, 0, 0));
    assert(wf_seg(h2, i + min, i + s0, 0, 0));
    assert(wf_seg(h2, i, i + s0, p0, 0));
    lemma_seg_seg_compose(h2, 0, i, i + s0, 0, p0, 0);
    lemma_seg_chain_compose(h2, 0, i + s0, 0, 0);

    // Both halves are reachable blocks.
    lemma_reaches_frame(h0, h2, 0, i);
    assert(reaches(h2, i + min, i + min));
    assert(reaches(h2, i, i + min));
    lemma_reaches_concat(h2, 0, i, i + min);
    assert(reaches(h2, i + s0, i + s0));
    assert(reaches(h2, i + min, i + s0));

    // Only the tail sits free below a free block.
    assert forall|j: int| #[trigger] is_block_start(h2, j) && j != 0 && j != i + min implies
        alloc_of(h2[j]) == 1 || prev_of(h2[j]) == 1 by {
        assert(reaches(h2, 0, j));
        if j < i {
            lemma_reaches_frame(h2, h0, 0, j);
            assert(is_block_start(h0, j));
        } else if j == i {
            assert(is_block_start(h0, i));
        } else {
            lemma_reaches_trans(h2, 0, i, j);
            assert(reaches(h2, i, j));
            if j != i + min {
                assert(reaches(h2, i + min, j));
                if j == i + s0 {
                    assert(reaches(h0, i + s0, i + s0));
                    assert(reaches(h0, i, i + s0));
                    lemma_reaches_concat(h0, 0, i, i + s0);
                    assert(is_block_start(h0, i + s0));
                    assert(prev_of(h0[i + s0]) == 0);
                } else {
                    assert(reaches(h2, i + s0, j));
                    lemma_reaches_frame(h2, h0, i + s0, j);
                    assert(reaches(h0, i + s0, i + s0));
                    assert(reaches(h0, i, i + s0));
                    lemma_reaches_concat(h0, 0, i, i + s0);
                    lemma_reaches_concat(h0, 0, i + s0, j);
                    assert(is_block_start(h0, j));
                }
            }
        }
    }
}

/// Chain walks land only on multiples of four, block sizes being multiples
/// of four.
pub proof fn lemma_reaches_mod4(h: Seq<u8>, i: int, j: int)
    requires
        0 <= i <= j,
        i % 4 == 0,
        reaches(h, i, j),
    ensures
        j % 4 == 0,
    decreases j - i,
{
    if i == j {
    } else {
        let s = bsize_of(h[i]);
        assert(s % 4 == 0) by (nonlinear_arith)
            requires
                s == (h[i] as int / 4) * 4,
        ;
        lemma_reaches_mod4(h, i + s, j);
    }
}

/// A nonempty finished run ends in a block whose footer sits just before the
/// run's end, carries a plausible size, and whose allocation bit is the
/// run's exit flag.
pub proof fn lemma_seg_last(h: Seq<u8>, a: int, j: int, p: int, q: int)
    requires
        0 <= a < j,
        wf_seg(h, a, j, p, q),
    ensures
        4 <= bsize_of(h[j - 1]) <= j - a,
        alloc_of(h[j - 1]) == q,
        h[j - bsize_of(h[j - 1])] == h[j - 1],
        reaches(h, a, j - bsize_of(h[j - 1])),
        wf_seg(h, a, j - bsize_of(h[j - 1]), p, prev_of(h[j - 1])),
    decreases j - a,
{
    let s = bsize_of(h[a]);
    assert(wf_seg(h, a + s, j, alloc_of(h[a]), q));
    if a + s == j {
        assert(h[j - 1] == h[a]);
        assert(reaches(h, a, a));
        assert(wf_seg(h, a, a, p, p));
    } else {
        lemma_seg_last(h, a + s, j, alloc_of(h[a]), q);
        let q0 = j - bsize_of(h[j - 1]);
        assert(reaches(h, a + s, q0));
        assert(reaches(h, a, q0));
        assert(wf_seg(h, a + s, a + s, alloc_of(h[a]), alloc_of(h[a])));
        assert(wf_seg(h, a, a + s, p, alloc_of(h[a])));
        lemma_seg_seg_compose(h, a, a + s, q0, p, alloc_of(h[a]), prev_of(h[j - 1]));
    }
}

/// A well-formed chain walks exactly to the arena's end.
pub proof fn lemma_chain_reaches_end(h: Seq<u8>, i: int, p: int)
    requires
        0 <= i <= h.len(),
        wf_chain(h, i, p),
    ensures
        reaches(h, i, h.len() as int),
    decreases h.len() - i,
{
    if i == h.len() {
        assert(reaches(h, i, i));
    } else {
        let s = bsize_of(h[i]);
        lemma_chain_reaches_end(h, i + s, alloc_of(h[i]));
        assert(reaches(h, i, h.len() as int));
    }
}

/// Start of the free run a release at header offset `i` merges: the
/// predecessor's start when the predecessor is free, else `i` itself.
pub open spec fn free_lo(h: Seq<u8>, i: int) -> int {
    if i > 0 && prev_of(h[i]) == 0 {
        i - bsize_of(h[i - 1])
    } else {
        i
    }
}

/// End of the free run a release at header offset `i` merges: past the
/// successor when the successor exists and is free, else the block's own
/// end.
pub open spec fn free_hi(h: Seq<u8>, i: int) -> int {
    let e = i + bsize_of(h[i]);
    if e < h.len() && alloc_of(h[e]) == 0 {
        e + bsize_of(h[e])
    } else {
        e
    }
}

/// Shape of the arena after releasing the block at `i` and coalescing: the
/// run from `free_lo` to `free_hi` is one free block carrying the
/// "previous allocated" bit the run's first block had, the block after the
/// run (if any) has its "previous allocated" bit cleared and nothing else
/// changed, and the full invariant holds again.
#[verifier::rlimit(50)]
pub proof fn lemma_free_shape(g: Seq<u8>, h4: Seq<u8>, i: int)
    requires
        wf_chain(g, 0, 0),
        no_adjacent_free(g),
        g.len() <= 252,
        0 <= i < g.len(),
        reaches(g, 0, i),
        alloc_of(g[i]) == 1,
        h4.len() == g.len(),
        ({
            let lo = free_lo(g, i);
            let hi = free_hi(g, i);
            let mb = enc(hi - lo, 0, prev_of(g[lo])) as u8;
            &&& h4[lo] == mb
            &&& h4[hi - 1] == mb
            &&& (hi < g.len() ==> {
                let ns = bsize_of(g[hi]);
                let xb = enc(ns, alloc_of(g[hi]), 0) as u8;
                h4[hi] == xb && h4[hi + ns - 1] == xb
            })
            &&& forall|k: int|
                0 <= k < g.len() && !(lo <= k < hi) && !(hi < g.len() && (k == hi || k == hi
                    + bsize_of(g[hi]) - 1)) ==> h4[k] == g[k]
        }),
    ensures
        ({
            let lo = free_lo(g, i);
            let hi = free_hi(g, i);
            &&& 0 <= lo <= i
            &&& i < hi <= g.len()
            &&& hi - lo >= bsize_of(g[i])
            &&& wf_chain(h4, 0, 0)
            &&& no_adjacent_free(h4)
            &&& is_block_start(h4, lo)
            &&& alloc_of(h4[lo]) == 0
            &&& bsize_of(h4[lo]) == hi - lo
            &&& prev_of(h4[lo]) == prev_of(g[lo])
            &&& (hi < g.len() ==> is_block_start(h4, hi) && prev_of(h4[hi]) == 0 && alloc_of(
                h4[hi],
            ) == alloc_of(g[hi]) && bsize_of(h4[hi]) == bsize_of(g[hi]))
        }),
{
    let lo = free_lo(g, i);
    let hi = free_hi(g, i);
    let s = bsize_of(g[i]);
    let e = i + s;
    let pi = prev_of(g[i]);
    lemma_chain_decompose(g, 0, i, 0);
    assert(wf_chain(g, i, pi));
    assert(wf_chain(g, e, 1));

    // The merged run's bounds and the byte just before it.
    if i > 0 && pi == 0 {
        // The predecessor is free and is absorbed.
        lemma_seg_last(g, 0, i, 0, pi);
        assert(lo == i - bsize_of(g[i - 1]));
        assert(g[lo] == g[i - 1]);
        assert(alloc_of(g[lo]) == 0);
        assert(bsize_of(g[lo]) == i - lo);
        assert(wf_seg(g, 0, lo, 0, prev_of(g[lo])));
        assert(is_block_start(g, lo));
        if lo != 0 {
            assert(prev_of(g[lo]) == 1);
        }
    } else {
        assert(lo == i);
        assert(wf_seg(g, 0, lo, 0, prev_of(g[lo])));
    }
    let pl = prev_of(g[lo]);

    // The merged run's end and the block after it, which is allocated.
    if e < g.len() && alloc_of(g[e]) == 0 {
        // The successor is free and is absorbed.
        assert(hi == e + bsize_of(g[e]));
        assert(wf_chain(g, e, 1));
        assert(wf_chain(g, hi, 0));
        if hi < g.len() {
            assert(reaches(g, hi, hi));
            assert(reaches(g, e, hi));
            assert(reaches(g, e, e));
            assert(reaches(g, i, e));
            lemma_reaches_concat(g, 0, i, e);
            lemma_reaches_concat(g, 0, e, hi);
            assert(is_block_start(g, hi));
            assert(prev_of(g[hi]) == 0);
            assert(alloc_of(g[hi]) == 1);
        }
    } else {
        assert(hi == e);
        if hi < g.len() {
            assert(alloc_of(g[hi]) == 1);
            assert(reaches(g, e, e));
            assert(reaches(g, i, e));
            lemma_reaches_concat(g, 0, i, e);
            assert(is_block_start(g, hi));
        }
        assert(wf_chain(g, hi, 1));
    }

    // Sizes are multiples of four, so the run's length encodes cleanly.
    lemma_reaches_mod4(g, 0, i);
    assert((g[i - 1] as int / 4) * 4 % 4 == 0 && (g[i] as int / 4) * 4 % 4 == 0 && (g[e] as int
        / 4) * 4 % 4 == 0) by (nonlinear_arith);
    let mb = enc(hi - lo, 0, pl) as u8;
    lemma_enc_roundtrip(hi - lo, 0, pl);

    // The prefix below the run is untouched.
    lemma_wf_seg_frame(g, h4, 0, lo, 0, pl);
    lemma_reaches_frame(g, h4, 0, lo);

    // The run itself is one free block now.
    assert(wf_seg(h4, hi, hi, 0, 0));
    assert(wf_seg(h4, lo, hi, pl, 0));

    // The chain above the run, with the first block's bit cleared.
    if hi < g.len() {
        let ns = bsize_of(g[hi]);
        let xb = enc(ns, alloc_of(g[hi]), 0) as u8;
        lemma_enc_roundtrip(ns, alloc_of(g[hi]), 0);
        let fh = prev_of(g[hi]);
        assert(wf_chain(g, hi, fh));
        assert(wf_chain(g, hi + ns, alloc_of(g[hi])));
        lemma_wf_chain_frame(g, h4, hi + ns, alloc_of(g[hi]));
        assert(wf_seg(h4, hi + ns, hi + ns, alloc_of(g[hi]), alloc_of(g[hi])));
        assert(wf_seg(h4, hi, hi + ns, 0, alloc_of(g[hi])));
        lemma_seg_chain_compose(h4, hi, hi + ns, 0, alloc_of(g[hi]));
    } else {
        assert(wf_chain(h4, hi, 0));
    }
    lemma_seg_chain_compose(h4, lo, hi, pl, 0);
    lemma_seg_chain_compose(h4, 0, lo, 0, pl);

    // The run and its follower are reachable blocks of the new arena.
    assert(reaches(h4, hi, hi));
    assert(reaches(h4, lo, hi));
    lemma_reaches_concat(h4, 0, lo, hi);

    // No two adjacent blocks are both free.
    assert forall|j: int| #[trigger] is_block_start(h4, j) && j != 0 implies alloc_of(h4[j]) == 1
        || prev_of(h4[j]) == 1 by {
        assert(reaches(h4, 0, j));
        if j < lo {
            lemma_reaches_frame(h4, g, 0, j);
            assert(is_block_start(g, j));
        } else if j == lo {
            // The merged block itself: its predecessor is allocated.
        } else {
            lemma_reaches_trans(h4, 0, lo, j);
            assert(reaches(h4, lo, j));
            if j == hi {
                // The follower was checked allocated above.
            } else {
                assert(reaches(h4, hi, j));
                let ns = bsize_of(g[hi]);
                assert(reaches(h4, hi + ns, j));
                lemma_reaches_frame(h4, g, hi + ns, j);
                assert(wf_chain(g, hi, prev_of(g[hi])));
                assert(reaches(g, hi + ns, hi + ns));
                assert(reaches(g, hi, hi + ns));
                lemma_reaches_concat(g, 0, hi, hi + ns);
                lemma_reaches_concat(g, 0, hi + ns, j);
                assert(is_block_start(g, j));
            }
        }
    }
}

/// Shape of the arena after marking the free block at `i` allocated and, if
/// a block follows it, setting that block's "previous allocated" bit: the
/// full invariant holds again, and nothing outside the touched headers and
/// footers changed.
pub proof fn lemma_allocate_shape(h1: Seq<u8>, h3: Seq<u8>, i: int, b: int)
    requires
        wf_chain(h1, 0, 0),
        h1.len() <= 252,
        no_adjacent_free_except(h1, i + b),
        0 <= i < h1.len(),
        reaches(h1, 0, i),
        bsize_of(h1[i]) == b,
        alloc_of(h1[i]) == 0,
        i + b < h1.len() ==> reaches(h1, 0, i + b) && prev_of(h1[i + b]) == 0,
        h3 == (if i + b < h1.len() {
            let ab = enc(b, 1, prev_of(h1[i])) as u8;
            let ns = bsize_of(h1[i + b]);
            let nb = enc(ns, alloc_of(h1[i + b]), 1) as u8;
            h1.update(i, ab).update(i + b - 1, ab).update(i + b, nb).update(i + b + ns - 1, nb)
        } else {
            let ab = enc(b, 1, prev_of(h1[i])) as u8;
            h1.update(i, ab).update(i + b - 1, ab)
        }),
    ensures
        h3.len() == h1.len(),
        wf_chain(h3, 0, 0),
        no_adjacent_free(h3),
        is_block_start(h3, i),
        alloc_of(h3[i]) == 1,
        bsize_of(h3[i]) == b,
        prev_of(h3[i]) == prev_of(h1[i]),
        i + b <= h3.len(),
        i + b < h3.len() ==> is_block_start(h3, i + b) && prev_of(h3[i + b]) == 1 && bsize_of(
            h3[i + b],
        ) == bsize_of(h1[i + b]) && alloc_of(h3[i + b]) == alloc_of(h1[i + b]),
        forall|k: int| 0 <= k < i ==> h3[k] == h1[k],
        forall|k: int| i < k < i + b - 1 ==> h3[k] == h1[k],
        forall|k: int|
            i + b - 1 < k < h3.len() && (i + b >= h3.len() || (k != i + b && k != i + b + bsize_of(
                h1[i + b],
            ) - 1)) ==> h3[k] == h1[k],
{
    let p = prev_of(h1[i]);
    lemma_chain_decompose(h1, 0, i, 0);
    assert(wf_chain(h1, i, p));
    assert(wf_chain(h1, i + b, 0));
    let ab = enc(b, 1, p) as u8;
    lemma_enc_roundtrip(b, 1, p);
    lemma_wf_seg_frame(h1, h3, 0, i, 0, p);
    lemma_reaches_frame(h1, h3, 0, i);
    if i + b < h1.len() {
        let ns = bsize_of(h1[i + b]);
        let na = alloc_of(h1[i + b]);
        let nb = enc(ns, na, 1) as u8;
        lemma_enc_roundtrip(ns, na, 1);
        assert(h3[i] == ab && h3[i + b - 1] == ab && h3[i + b] == nb && h3[i + b + ns - 1] == nb);
        lemma_wf_chain_frame(h1, h3, i + b + ns, na);
        assert(wf_seg(h3, i + b + ns, i + b + ns, na, na));
        assert(wf_seg(h3, i + b, i + b + ns, 1, na));
        assert(wf_seg(h3, i, i + b + ns, p, na));
        lemma_seg_seg_compose(h3, 0, i, i + b + ns, 0, p, na);
        lemma_seg_chain_compose(h3, 0, i + b + ns, 0, na);
        assert(reaches(h3, i + b, i + b));
        assert(reaches(h3, i, i + b));
        lemma_reaches_concat(h3, 0, i, i + b);
        assert forall|j: int| #[trigger] is_block_start(h3, j) && j != 0 implies alloc_of(h3[j])
            == 1 || prev_of(h3[j]) == 1 by {
            assert(reaches(h3, 0, j));
            if j < i {
                lemma_reaches_frame(h3, h1, 0, j);
                assert(is_block_start(h1, j));
            } else if j == i {
            } else {
                lemma_reaches_trans(h3, 0, i, j);
                assert(reaches(h3, i, j));
                if j == i + b {
                } else {
                    assert(reaches(h3, i + b, j));
                    assert(reaches(h3, i + b + ns, j));
                    lemma_reaches_frame(h3, h1, i + b + ns, j);
                    assert(reaches(h1, i + b + ns, i + b + ns));
                    assert(reaches(h1, i + b, i + b + ns));
                    lemma_reaches_concat(h1, 0, i + b, i + b + ns);
                    lemma_reaches_concat(h1, 0, i + b + ns, j);
                    assert(is_block_start(h1, j));
                }
            }
        }
    } else {
        assert(h3[i] == ab && h3[i + b - 1] == ab);
        assert(wf_seg(h3, i + b, i + b, 1, 1));
        assert(wf_seg(h3, i, i + b, p, 1));
        lemma_seg_seg_compose(h3, 0, i, i + b, 0, p, 1);
        assert(wf_chain(h3, i + b, 1));
        lemma_seg_chain_compose(h3, 0, i + b, 0, 1);
        assert forall|j: int| #[trigger] is_block_start(h3, j) && j != 0 implies alloc_of(h3[j])
            == 1 || prev_of(h3[j]) == 1 by {
            assert(reaches(h3, 0, j));
            if j < i {
                lemma_reaches_frame(h3, h1, 0, j);
                assert(is_block_start(h1, j));
            } else if j == i {
            } else {
                lemma_reaches_trans(h3, 0, i, j);
                assert(reaches(h3, i, j));
            }
        }
    }
}

/// Writes confined to one block's payload — strictly between its header and
/// its footer — leave the whole block structure intact: the chain, every
/// block's metadata byte, and the absence of adjacent free blocks.
pub proof fn lemma_payload_frame(g: Seq<u8>, h2: Seq<u8>, i: int, a: int, b: int)
    requires
        wf_chain(g, 0, 0),
        no_adjacent_free(g),
        0 <= i < g.len(),
        reaches(g, 0, i),
        i + 1 <= a <= b <= i + bsize_of(g[i]) - 1,
        h2.len() == g.len(),
        forall|k: int| 0 <= k < g.len() && !(a <= k < b) ==> h2[k] == g[k],
    ensures
        wf_chain(h2, 0, 0),
        no_adjacent_free(h2),
        is_block_start(h2, i),
        h2[i] == g[i],
{
    let s = bsize_of(g[i]);
    let p = prev_of(g[i]);
    lemma_chain_decompose(g, 0, i, 0);
    assert(wf_chain(g, i, p));
    assert(wf_chain(g, i + s, alloc_of(g[i])));
    lemma_wf_seg_frame(g, h2, 0, i, 0, p);
    lemma_wf_chain_frame(g, h2, i + s, alloc_of(g[i]));
    assert(wf_seg(h2, i + s, i + s, alloc_of(g[i]), alloc_of(g[i])));
    assert(wf_seg(h2, i, i + s, p, alloc_of(g[i])));
    lemma_seg_seg_compose(h2, 0, i, i + s, 0, p, alloc_of(g[i]));
    lemma_seg_chain_compose(h2, 0, i + s, 0, alloc_of(g[i]));
    lemma_reaches_frame(g, h2, 0, i);
    assert forall|j: int| #[trigger] is_block_start(h2, j) && j != 0 implies alloc_of(h2[j]) == 1
        || prev_of(h2[j]) == 1 by {
        assert(reaches(h2, 0, j));
        if j <= i {
            lemma_reaches_frame(h2, g, 0, j);
            assert(is_block_start(g, j));
        } else {
            lemma_reaches_trans(h2, 0, i, j);
            assert(reaches(h2, i, j));
            assert(reaches(h2, i + s, j));
            lemma_reaches_frame(h2, g, i + s, j);
            assert(reaches(g, i + s, i + s));
            assert(reaches(g, i, i + s));
            lemma_reaches_concat(g, 0, i, i + s);
            lemma_reaches_concat(g, 0, i + s, j);
            assert(is_block_start(g, j));
        }
    }
}

/// Over a well-formed arena, the first-fit search succeeds exactly when a
/// large enough free block exists.
pub proof fn lemma_first_fit_iff_free_block(h: Seq<u8>, min: int)
    requires
        wf_chain(h, 0, 0),
    ensures
        first_fit_from(h, 0, min) is Some <==> has_free_block(h, min),
{
    if first_fit_from(h, 0, min) is Some {
        lemma_first_fit_found(h, 0, min);
        let j = first_fit_from(h, 0, min)->Some_0;
        assert(is_block_start(h, j) && alloc_of(h[j]) == 0 && bsize_of(h[j]) >= min);
    }
    if has_free_block(h, min) {
        let j = choose|j: int|
            #[trigger] is_block_start(h, j) && alloc_of(h[j]) == 0 && bsize_of(h[j]) >= min;
        lemma_first_fit_some(h, 0, 0, min, j);
    }
}


/// In a well-formed arena no two adjacent blocks are both free: a block and
/// the block starting at its end are never free at the same time.
pub proof fn lemma_no_adjacent_free_blocks(h: Seq<u8>, j: int)
    requires
        wf_chain(h, 0, 0),
        no_adjacent_free(h),
        is_block_start(h, j),
        j + bsize_of(h[j]) < h.len(),
    ensures
        alloc_of(h[j]) == 1 || alloc_of(h[j + bsize_of(h[j])]) == 1,
{
    let s = bsize_of(h[j]);
    lemma_chain_decompose(h, 0, j, 0);
    assert(wf_chain(h, j, prev_of(h[j])));
    assert(wf_chain(h, j + s, alloc_of(h[j])));
    assert(prev_of(h[j + s]) == alloc_of(h[j]));
    assert(reaches(h, j + s, j + s));
    assert(reaches(h, j, j + s));
    lemma_reaches_concat(h, 0, j, j + s);
    assert(is_block_start(h, j + s));
}

/// A release immediately followed by an allocation of the same or a smaller
/// payload always succeeds: the released block (merged or not) is a free
/// block large enough for the new request, so the first-fit search cannot
/// miss.  `j` is any free block at least as large as a block able to hold
/// `m` payload bytes — such as the one a successful release leaves behind —
/// and `n <= m` is the new request.
pub proof fn lemma_free_then_allocate_succeeds(h: Seq<u8>, j: int, m: int, n: int)
    requires
        wf_chain(h, 0, 0),
        is_block_start(h, j),
        alloc_of(h[j]) == 0,
        bsize_of(h[j]) >= round_up4(m + 2),
        0 <= n <= m,
    ensures
        has_free_block(h, round_up4(n + 2)),
        first_fit_from(h, 0, round_up4(n + 2)) is Some,
{
    lemma_round_up4(m + 2);
    assert(round_up4(n + 2) <= round_up4(m + 2));
    assert(is_block_start(h, j) && alloc_of(h[j]) == 0 && bsize_of(h[j]) >= round_up4(n + 2));
    lemma_first_fit_iff_free_block(h, round_up4(n + 2));
}

} // verus!
