//! A greedy first-fit heap over one fixed byte arena.
//!
//! Every block is bracketed by a one-byte header and an identical one-byte
//! footer.  Allocation searches the block chain for the first free block
//! that fits, splitting off the remainder when it is large enough to stand
//! alone; releasing a block immediately merges it with a free neighbour on
//! either side.  The structural invariant — blocks exactly tile the arena,
//! footers mirror headers, the "previous allocated" bits are accurate, and
//! no two adjacent blocks are both free — is `Heap::wf` and is preserved by
//! every public operation.

use vstd::prelude::*;

use crate::byte_utils::BytesConverter;
use crate::heap_model::{
    alloc_of, bsize_of, enc, enc_valid, first_fit_from, free_hi, free_lo, has_free_block,
    is_block_start, lemma_allocate_shape, lemma_chain_decompose, lemma_chain_reaches_end,
    lemma_enc_roundtrip, lemma_first_fit_iff_free_block, lemma_free_shape, lemma_payload_frame,
    lemma_reaches_concat, lemma_reaches_mod4, lemma_reaches_trans, lemma_round_up4, lemma_seg_last,
    lemma_split_shape, no_adjacent_free, no_adjacent_free_except, prev_of, reaches, round_up4,
    wf_chain,
};

verus! {

/// Size of a header in bytes.
pub const HEADER_SIZE: usize = 1;

/// Size of a footer in bytes.
pub const FOOTER_SIZE: usize = HEADER_SIZE;

/// Size of a header and footer together.
pub const HEADER_FOOTER_SIZE: usize = HEADER_SIZE + FOOTER_SIZE;

/// The minimum size a block can be.
pub const MINIMUM_BLOCK_SIZE: usize = 4;

/// The minimum size a caller can ask to have allocated.
pub const MINIMUM_ALLOCATED_SIZE: usize = 2;

/// Value in a header/footer if the block is allocated.
pub const B_ALLOCED: u8 = 1;

/// Value in a header/footer if the previous block is allocated.
pub const PB_ALLOCED: u8 = 2;

/// Value in a header/footer if the block and the previous block are allocated.
pub const PB_B_ALLOCED: u8 = 3;

/// The maximum size a block can be.
pub const MAX_BLOCK_SIZE: u8 = u8::MAX - PB_B_ALLOCED;

/// Index of the bottommost block of the heap.
pub const BOTTOM_OF_HEAP: usize = 0;

/// Mask that extracts the block size from a header/footer.
pub const BLOCK_SIZE_MASK: u8 = 0xFC;

/// Mask that extracts the two allocation bits from a header/footer.
pub const BLOCK_ALLOC_VALS_MASK: u8 = 0x3;

/// Used when a header/footer is created with both allocation bits clear.
pub const DEFAULT_ALLOC: u8 = 0;

/// A decoded header or footer: one metadata byte's worth of information.
#[derive(Copy, Clone, Debug, PartialEq, Eq, Structural)]
pub struct _Header {
    pub block_size: usize,
    pub block_alloc: u8,
    pub pblock_alloc: u8,
}

/// A footer carries exactly the same information as a header.
pub type _Footer = _Header;

impl _Header {
    /// The triple fits in one metadata byte.
    pub open spec fn valid(self) -> bool {
        enc_valid(self.block_size as int, self.block_alloc as int, self.pblock_alloc as int)
    }

    /// The byte value this header encodes to.
    pub open spec fn spec_byte(self) -> int {
        enc(self.block_size as int, self.block_alloc as int, self.pblock_alloc as int)
    }

    pub fn _new(block_size: usize, block_alloc: u8, pblock_alloc: u8) -> (h: Self)
        requires
            block_size >= 4,
            block_size % 4 == 0,
            block_alloc == 0 || block_alloc == 1,
            pblock_alloc == 0 || pblock_alloc == 1,
        ensures
            h == (_Header { block_size, block_alloc, pblock_alloc }),
    {
        Self { block_size, block_alloc, pblock_alloc }
    }

    /// The smallest free block, used as a placeholder.
    pub fn _default() -> (h: Self)
        ensures
            h == (_Header {
                block_size: 4usize,
                block_alloc: 0u8,
                pblock_alloc: 0u8,
            }),
    {
        _Header::_new(MINIMUM_BLOCK_SIZE, DEFAULT_ALLOC, DEFAULT_ALLOC)
    }

    /// Block size stored in a metadata byte.
    pub fn _get_bsize_from_byte(byte: &u8) -> (s: usize)
        ensures
            s == bsize_of(*byte),
    {
        let b = *byte;
        proof {
            assert((b & BLOCK_SIZE_MASK) == (b as int / 4 * 4)) by (bit_vector);
        }
        (b & BLOCK_SIZE_MASK) as usize
    }

    /// Allocation bit stored in a metadata byte.
    pub fn _get_alloc_val_from_byte(byte: &u8) -> (a: u8)
        ensures
            a == alloc_of(*byte),
    {
        let b = *byte;
        proof {
            assert((b & 1) == (b as int % 2)) by (bit_vector);
        }
        b & 1
    }

    /// "Previous block allocated" bit stored in a metadata byte.
    pub fn _get_prev_alloc_val_from_byte(byte: &u8) -> (p: u8)
        ensures
            p == prev_of(*byte),
    {
        let b = *byte;
        proof {
            assert(((b & 2) >> 1) == (b as int / 2 % 2)) by (bit_vector);
        }
        (b & 2) >> 1
    }

    /// Both allocation bits of a metadata byte, packed in the two low bits.
    pub fn _get_alloc_vals_from_byte(byte: &u8) -> (v: u8)
        ensures
            v == alloc_of(*byte) + 2 * prev_of(*byte),
    {
        let b = *byte;
        proof {
            assert((b & BLOCK_ALLOC_VALS_MASK) == (b as int % 2) + 2 * (b as int / 2
                % 2)) by (bit_vector);
        }
        b & BLOCK_ALLOC_VALS_MASK
    }

    /// Packs this header into its metadata byte: the size (whose two low
    /// bits are zero) plus the allocation bit plus the shifted
    /// "previous allocated" bit.
    pub fn _to_byte(&self) -> (b: u8)
        requires
            self.valid(),
        ensures
            b == self.spec_byte(),
            bsize_of(b) == self.block_size,
            alloc_of(b) == self.block_alloc,
            prev_of(b) == self.pblock_alloc,
    {
        let p = self.pblock_alloc;
        proof {
            lemma_enc_roundtrip(
                self.block_size as int,
                self.block_alloc as int,
                self.pblock_alloc as int,
            );
            assert((p << 1) == 2 * p) by (bit_vector)
                requires
                    p == 0 || p == 1,
            ;
        }
        self.block_size as u8 + self.block_alloc + (p << 1)
    }

    /// Decodes a metadata byte into its header.  The byte must carry a
    /// plausible block size; a well-formed arena never produces one that
    /// does not.
    pub fn _from_byte(byte: &u8) -> (h: Self)
        requires
            bsize_of(*byte) >= 4,
        ensures
            h.block_size == bsize_of(*byte),
            h.block_alloc == alloc_of(*byte),
            h.pblock_alloc == prev_of(*byte),
            h.valid(),
            h.spec_byte() == *byte,
    {
        let size = _Header::_get_bsize_from_byte(byte);
        let block_alloc = _Header::_get_alloc_val_from_byte(byte);
        let pblock_alloc = _Header::_get_prev_alloc_val_from_byte(byte);
        _Header::_new(size, block_alloc, pblock_alloc)
    }
}

/// The ways a heap operation can fail.  All of them are ordinary return
/// values: the heap never aborts on a caller-supplied offset or size.
#[derive(Copy, Clone, Debug, PartialEq, Eq, Structural)]
pub enum HeapError {
    /// An out-of-bounds or misaligned offset.
    InvalidPointer,
    /// Releasing a block that is not allocated.
    DoubleFree,
    /// A header/footer mismatch or another violated internal invariant.
    Corruption,
    /// No free block is large enough.
    OutOfMemory,
    /// A zero-length write, or a request below the defined minimum.
    InvalidRequest,
}

/// The heap: one owned byte arena and its capacity.
#[derive(Clone)]
pub struct Heap {
    pub heap: Vec<u8>,
    pub size: usize,
}

impl Heap {
    /// Structural well-formedness: the buffer matches the declared capacity,
    /// and blocks with mirrored footers and accurate "previous allocated"
    /// bits tile it exactly.
    pub open spec fn wf_tiled(&self) -> bool {
        &&& self.heap@.len() == self.size
        &&& 4 <= self.size <= 252
        &&& wf_chain(self.heap@, 0, 0)
    }

    /// The invariant that holds between public operations: structure plus
    /// "no two adjacent blocks are both free".
    pub open spec fn wf(&self) -> bool {
        &&& self.wf_tiled()
        &&& no_adjacent_free(self.heap@)
    }

    /// Creates a heap of `size` bytes, rounded up to a multiple of four,
    /// holding one free block that spans the whole arena.
    pub fn new_heap(size: usize) -> (r: Self)
        requires
            4 <= size <= 252,
        ensures
            r.wf(),
            r.size == round_up4(size as int),
            r.heap@.len() == r.size,
            bsize_of(r.heap@[0]) == r.size,
            alloc_of(r.heap@[0]) == 0,
            prev_of(r.heap@[0]) == 0,
            r.heap@[0] == r.size as u8,
            r.heap@[r.size - 1] == r.heap@[0],
            forall|j: int| 0 < j < r.size - 1 ==> r.heap@[j] == 0,
    {
        proof {
            lemma_round_up4(size as int);
        }
        let mut _size = size;

        // Round up to the closest multiple of four.
        if size % 4 == 0 {
        } else {
            let t = size + 3;
            _size = t & !3;
            proof {
                assert(t <= 255 ==> (t & !3usize) == (t / 4) * 4) by (bit_vector);
            }
        }

        let init_h = _Header::_new(_size, 0, 0);
        let init_f = _Footer::_new(_size, 0, 0);
        let mut h: Vec<u8> = vec![0; _size];

        h[BOTTOM_OF_HEAP] = init_h._to_byte();
        h[_size - 1] = init_f._to_byte();

        let r = Self { heap: h, size: _size };
        proof {
            assert(wf_chain(r.heap@, _size as int, 0));
            assert(wf_chain(r.heap@, 0, 0));
            assert forall|j: int| #[trigger] is_block_start(r.heap@, j) && j != 0 implies alloc_of(
                r.heap@[j],
            ) == 1 || prev_of(r.heap@[j]) == 1 by {
                assert(reaches(r.heap@, 0, j));
                assert(reaches(r.heap@, _size as int, j));
            }
        }
        r
    }

    /// Writes `h` as the header at `i` and as the footer at the end of the
    /// same block, and touches nothing else.
    pub fn _write_header_footer(&mut self, h: &_Header, i: usize)
        requires
            h.valid(),
            old(self).heap@.len() == old(self).size,
            i + h.block_size <= old(self).size,
            i == 0 || i >= 4,
        ensures
            final(self).size == old(self).size,
            final(self).heap@ == old(self).heap@.update(i as int, (h.spec_byte() as u8)).update(
                i + h.block_size - 1,
                (h.spec_byte() as u8),
            ),
            bsize_of(final(self).heap@[i as int]) == h.block_size,
            alloc_of(final(self).heap@[i as int]) == h.block_alloc,
            prev_of(final(self).heap@[i as int]) == h.pblock_alloc,
    {
        // Write the header to `i` and the footer to the block's last byte.
        self.heap[i] = h._to_byte();
        self.heap[i + h.block_size - FOOTER_SIZE] = h._to_byte();
    }

    /// First-fit search: the header offset and size of the first free block
    /// that can hold `size` payload bytes plus a header and footer, rounded
    /// up to a multiple of four.  When the remainder of the found block is
    /// large enough to stand alone, the block is split on the spot: the head
    /// block takes exactly the rounded size, the tail stays free, and both
    /// get correct headers and footers.  Returns `None` when no free block
    /// is large enough.
    #[verifier::loop_isolation(false)]
    pub fn _find_free_block(&mut self, size: usize) -> (r: Option<(usize, usize)>)
        requires
            old(self).wf(),
            size >= 1,
            size <= usize::MAX - 5,
        ensures
            final(self).size == old(self).size,
            final(self).heap@.len() == old(self).heap@.len(),
            final(self).wf_tiled(),
            ({
                let h0 = old(self).heap@;
                let h2 = final(self).heap@;
                let min = round_up4(size as int + 2);
                match r {
                    None => {
                        &&& *final(self) == *old(self)
                        &&& first_fit_from(h0, 0, min) is None
                        &&& !has_free_block(h0, min)
                    },
                    Some((i, bsize)) => {
                        let s0 = bsize_of(h0[i as int]);
                        &&& first_fit_from(h0, 0, min) == Some(i as int)
                        &&& is_block_start(h0, i as int)
                        &&& alloc_of(h0[i as int]) == 0
                        &&& min <= s0
                        &&& i + s0 <= h0.len()
                        &&& is_block_start(h2, i as int)
                        &&& bsize_of(h2[i as int]) == bsize
                        &&& alloc_of(h2[i as int]) == 0
                        &&& prev_of(h2[i as int]) == prev_of(h0[i as int])
                        &&& min <= bsize <= s0
                        &&& i + bsize <= h2.len()
                        &&& no_adjacent_free_except(h2, i + bsize)
                        &&& (i + bsize < h2.len() ==> is_block_start(h2, i + bsize)
                            && prev_of(h2[i + bsize]) == 0)
                        &&& (if s0 - min >= 4 {
                            &&& bsize == min
                            &&& is_block_start(h2, i + min)
                            &&& bsize_of(h2[i + min]) == s0 - min
                            &&& alloc_of(h2[i + min]) == 0
                            &&& prev_of(h2[i + min]) == 0
                            &&& forall|k: int|
                                0 <= k < h0.len() && k != i && k != i + min - 1 && k != i + min
                                    && k != i + s0 - 1 ==> h2[k] == h0[k]
                        } else {
                            &&& bsize == s0
                            &&& *final(self) == *old(self)
                        })
                    },
                }
            }),
    {
        let ghost h0 = self.heap@;
        let ghost sz0: usize = self.size;
        let ghost min: int = round_up4(size as int + 2);

        let mut i: usize = 0;
        while i < self.size
            invariant
                *self == *old(self),
                self.heap@ == h0,
                self.size == sz0,
                h0.len() == sz0,
                4 <= sz0 <= 252,
                wf_chain(h0, 0, 0),
                no_adjacent_free(h0),
                size >= 1,
                size <= usize::MAX - 5,
                min == round_up4(size as int + 2),
                i <= sz0,
                reaches(h0, 0, i as int),
                first_fit_from(h0, i as int, min) == first_fit_from(h0, 0, min),
            decreases sz0 - i,
        {
            proof {
                lemma_chain_decompose(h0, 0, i as int, 0);
            }
            // The current block's header.
            let curr_header = _Header::_from_byte(&self.heap[i]);
            let ghost s0: int = bsize_of(h0[i as int]);
            let ghost p0: int = prev_of(h0[i as int]);

            // The smallest multiple of four that holds the payload plus a
            // header and a footer.
            let t = size + HEADER_FOOTER_SIZE + 3;
            let minimum_size = t & !3;
            proof {
                assert((t & !3usize) == (t / 4) * 4) by (bit_vector);
                assert(minimum_size == min);
            }

            if curr_header.block_size >= minimum_size && curr_header.block_alloc == 0 {
                proof {
                    assert(first_fit_from(h0, i as int, min) == Some(i as int));
                    lemma_round_up4(size as int + 2);
                    assert(wf_chain(h0, i + s0, 0));
                }
                // Split if the remainder can stand alone as a block.
                if curr_header.block_size - minimum_size >= MINIMUM_BLOCK_SIZE && (
                curr_header.block_size - minimum_size) % 4 == 0 {
                    // The head block: exactly the rounded size, still free,
                    // keeping the "previous allocated" bit.
                    let new_size = minimum_size;
                    let new_header = _Header::_new(new_size, 0, curr_header.pblock_alloc);

                    // The tail block: the remainder, free, below a free block.
                    let rest_size = curr_header.block_size - new_size;
                    let rest_header = _Header::_new(rest_size, DEFAULT_ALLOC, DEFAULT_ALLOC);

                    proof {
                        if i != 0 {
                            assert(reaches(h0, 0, i as int));
                        }
                    }
                    self._write_header_footer(&new_header, i);
                    self._write_header_footer(&rest_header, i + new_size);

                    proof {
                        lemma_split_shape(h0, self.heap@, i as int, min, s0, p0);
                    }
                    return Some((i, new_size));
                }
                // The block fits but cannot be split: hand it out whole.
                proof {
                    assert(no_adjacent_free_except(self.heap@, i + s0));
                    if i + s0 < sz0 {
                        assert(reaches(h0, i + s0, i + s0));
                        assert(reaches(h0, i as int, i + s0));
                        lemma_reaches_concat(h0, 0, i as int, i + s0);
                    }
                }
                return Some((i, curr_header.block_size));
            }
            // This block is allocated or too small: step to the next one.
            proof {
                assert(first_fit_from(h0, i as int, min) == first_fit_from(h0, i + s0, min));
                assert(reaches(h0, i + s0, i + s0));
                assert(reaches(h0, i as int, i + s0));
                lemma_reaches_concat(h0, 0, i as int, i + s0);
            }
            i += curr_header.block_size;
        }
        // The walk covered every block without a hit.
        proof {
            assert(first_fit_from(h0, sz0 as int, min) is None);
            lemma_first_fit_iff_free_block(h0, min);
        }
        None
    }

    /// Allocates a block able to hold `size` payload bytes and returns the
    /// payload's offset: one byte past the chosen block's header, so always
    /// congruent to one modulo four.  The chosen block is the first free
    /// block large enough for the payload plus its header and footer (split
    /// when the remainder can stand alone), its "previous allocated" bit is
    /// taken from the predecessor's footer, and the block after it learns
    /// that its predecessor is now allocated.  Returns `None`, leaving the
    /// arena untouched, exactly when no free block is large enough.
    #[verifier::rlimit(50)]
    pub fn allocate(&mut self, size: usize) -> (r: Option<usize>)
        requires
            old(self).wf(),
            size >= 2,
            size <= usize::MAX - 5,
        ensures
            final(self).wf(),
            final(self).size == old(self).size,
            final(self).heap@.len() == old(self).heap@.len(),
            ({
                let h0 = old(self).heap@;
                let h2 = final(self).heap@;
                let min = round_up4(size as int + 2);
                match r {
                    None => {
                        &&& *final(self) == *old(self)
                        &&& !has_free_block(h0, min)
                    },
                    Some(p) => {
                        let i = p - 1;
                        let b = bsize_of(h2[i]);
                        &&& has_free_block(h0, min)
                        &&& first_fit_from(h0, 0, min) == Some(i)
                        &&& p >= 1
                        &&& p % 4 == 1
                        &&& is_block_start(h2, i)
                        &&& alloc_of(h2[i]) == 1
                        &&& b >= min
                        &&& b - 2 >= size
                        &&& i + b <= h2.len()
                        &&& b == (if bsize_of(h0[i]) - min >= 4 {
                            min
                        } else {
                            bsize_of(h0[i])
                        })
                        &&& (i + b < h2.len() ==> is_block_start(h2, i + b) && prev_of(h2[i + b])
                            == 1)
                        &&& forall|k: int| 0 <= k < i ==> h2[k] == h0[k]
                        &&& forall|k: int| i < k < i + b - 1 ==> h2[k] == h0[k]
                        &&& forall|k: int|
                            0 <= k < h2.len() && k != i && k != i + b - 1 && !(i + b < h2.len() && (
                            k == i + b || k == i + b + bsize_of(h2[i + b]) - 1)) ==> h2[k] == h0[k]
                    },
                }
            }),
    {
        let ghost h0 = self.heap@;
        let good_block = self._find_free_block(size);
        let ghost h1 = self.heap@;
        let ghost min: int = round_up4(size as int + 2);

        match good_block {
            Some((i, bsize)) => {
                proof {
                    lemma_first_fit_iff_free_block(h0, min);
                    lemma_round_up4(size as int + 2);
                    lemma_chain_decompose(h1, 0, i as int, 0);
                    lemma_reaches_mod4(h1, 0, i as int);
                }
                let ghost p0: int = prev_of(h1[i as int]);

                // Mark the block allocated.
                let mut curr_h = _Header::_from_byte(&self.heap[i]);
                curr_h.block_alloc = 1;

                // If a block lies below, read its footer to learn whether it
                // is allocated; under the invariant it always is, the found
                // block itself being free.
                if i > BOTTOM_OF_HEAP {
                    proof {
                        lemma_seg_last(h1, 0, i as int, 0, p0);
                    }
                    let prev_f = _Footer::_from_byte(&self.heap[i - FOOTER_SIZE]);
                    if prev_f.block_alloc == 1 {
                        curr_h.pblock_alloc = 1;
                    }
                }
                proof {
                    assert(curr_h.pblock_alloc == p0);
                    assert(bsize % 4 == 0) by (nonlinear_arith)
                        requires
                            bsize == (h1[i as int] as int / 4) * 4,
                    ;
                    if i != 0 {
                        assert(reaches(h1, 0, i as int));
                    }
                }
                self._write_header_footer(&curr_h, i);

                // Tell the block below the new allocation, if there is one,
                // that its predecessor is now allocated.
                let next_block_start = i + bsize;
                if next_block_start < self.size {
                    proof {
                        lemma_chain_decompose(h1, 0, next_block_start as int, 0);
                    }
                    let mut next_h = _Header::_from_byte(&self.heap[next_block_start]);
                    // A free block's neighbour never believes its predecessor
                    // is allocated; the invariant rules it out.
                    assert(next_h.pblock_alloc == 0);
                    next_h.pblock_alloc = 1;
                    self._write_header_footer(&next_h, next_block_start);
                }

                proof {
                    lemma_allocate_shape(h1, self.heap@, i as int, bsize as int);
                }

                // The payload starts right after the header.
                Some(i + HEADER_SIZE)
            },
            None => None,
        }
    }

    /// Merges the just-released block whose payload starts at `ptr` with a
    /// free neighbour on either side, writes one header and footer for the
    /// merged extent, and clears the "previous allocated" bit of the block
    /// above it.  `g` is the arena as it stood before the release; the
    /// caller has already cleared the released block's allocation bit.
    #[verifier::rlimit(100)]
    fn _coalesse(&mut self, ptr: usize, Ghost(g): Ghost<Seq<u8>>)
        requires
            1 <= ptr,
            ptr - 1 < g.len(),
            g.len() == old(self).size,
            g.len() == old(self).heap@.len(),
            4 <= old(self).size <= 252,
            wf_chain(g, 0, 0),
            no_adjacent_free(g),
            reaches(g, 0, ptr - 1),
            alloc_of(g[ptr - 1]) == 1,
            old(self).heap@ == g.update(
                ptr - 1,
                (enc(bsize_of(g[ptr - 1]), 0, prev_of(g[ptr - 1])) as u8),
            ).update(
                ptr - 1 + bsize_of(g[ptr - 1]) - 1,
                (enc(bsize_of(g[ptr - 1]), 0, prev_of(g[ptr - 1])) as u8),
            ),
        ensures
            final(self).size == old(self).size,
            final(self).heap@.len() == old(self).heap@.len(),
            ({
                let i = ptr - 1;
                let lo = free_lo(g, i);
                let hi = free_hi(g, i);
                let s = bsize_of(g[i]);
                let h2 = final(self).heap@;
                &&& wf_chain(h2, 0, 0)
                &&& no_adjacent_free(h2)
                &&& is_block_start(h2, lo)
                &&& alloc_of(h2[lo]) == 0
                &&& bsize_of(h2[lo]) == hi - lo
                &&& prev_of(h2[lo]) == prev_of(g[lo])
                &&& hi - lo >= s
                &&& (hi < g.len() ==> is_block_start(h2, hi) && prev_of(h2[hi]) == 0 && alloc_of(
                    h2[hi],
                ) == alloc_of(g[hi]) && bsize_of(h2[hi]) == bsize_of(g[hi]))
                &&& forall|k: int| 0 <= k < lo ==> h2[k] == g[k]
                &&& forall|k: int|
                    lo < k < hi - 1 && k != i && k != i + s - 1 ==> h2[k] == g[k]
                &&& (lo != i ==> h2[i] == (enc(s, 0, prev_of(g[i])) as u8))
                &&& (i + s != hi && i + s - 1 != lo ==> h2[i + s - 1] == (enc(
                    s,
                    0,
                    prev_of(g[i]),
                ) as u8))
                &&& forall|k: int|
                    hi < g.len() && hi + bsize_of(g[hi]) <= k < g.len() ==> h2[k] == g[k]
            }),
    {
        let ghost i: int = ptr - 1;
        let ghost s: int = bsize_of(g[i]);
        let ghost e: int = i + s;
        let ghost pi: int = prev_of(g[i]);
        proof {
            lemma_chain_decompose(g, 0, i, 0);
            assert(wf_chain(g, e, 1));
            lemma_reaches_mod4(g, 0, i);
            lemma_chain_reaches_end(g, 0, 0);
            lemma_reaches_mod4(g, 0, g.len() as int);
            assert(s % 4 == 0) by (nonlinear_arith)
                requires
                    s == (g[i] as int / 4) * 4,
            ;
            lemma_enc_roundtrip(s, 0, pi);
        }
        // At most one block below and one above the released block can be
        // free: the invariant held before the release.
        let curr_h = _Header::_from_byte(&self.heap[ptr - HEADER_SIZE]);
        let mut final_size = curr_h.block_size;
        let mut final_prev_alloc = curr_h.pblock_alloc;
        let mut final_header_index = ptr - HEADER_SIZE;

        // Whether a block exists below, and whether one exists above.
        let mut up_flag: u8 = 0;
        let mut down_flag: u8 = 0;
        if ptr != BOTTOM_OF_HEAP + HEADER_SIZE {
            down_flag = 1;
        }
        if curr_h.block_size + ptr < self.size {
            up_flag = 1;
        }
        proof {
            // Block boundaries are multiples of four, so the off-by-one test
            // above agrees with "a block starts at the released block's end".
            assert(up_flag == 1 <==> e < g.len());
        }

        // If the block below is free, absorb it: the merged block starts at
        // its start and inherits its "previous allocated" bit.
        if down_flag == 1 {
            proof {
                lemma_seg_last(g, 0, i, 0, pi);
            }
            let below_f = _Footer::_from_byte(&self.heap[ptr - HEADER_FOOTER_SIZE]);
            if below_f.block_alloc == 0 {
                final_size += below_f.block_size;
                final_prev_alloc = below_f.pblock_alloc;
                final_header_index -= below_f.block_size;
            }
        }

        // If the block above is free, absorb it.
        if up_flag == 1 {
            proof {
                assert(wf_chain(g, e, 1));
            }
            let above_h = _Header::_from_byte(&self.heap[ptr + curr_h.block_size - HEADER_SIZE]);
            if above_h.block_alloc == 0 {
                final_size += above_h.block_size;
            }
        }
        let ghost lo: int = free_lo(g, i);
        let ghost hi: int = free_hi(g, i);
        proof {
            assert(final_header_index == lo);
            assert(final_size == hi - lo);
            assert(final_prev_alloc == prev_of(g[lo]));
            if e < g.len() && alloc_of(g[e]) == 0 {
                assert(wf_chain(g, e, 1));
                assert(wf_chain(g, e + bsize_of(g[e]), alloc_of(g[e])));
                if hi < g.len() {
                    assert(prev_of(g[hi]) == 0);
                    assert(wf_chain(g, hi, prev_of(g[hi])));
                }
            } else if hi < g.len() {
                assert(wf_chain(g, e, 1));
                assert(prev_of(g[e]) == 1);
                assert(wf_chain(g, hi, prev_of(g[hi])));
            }
        }

        self._coalesse_write(final_header_index, final_size, final_prev_alloc, ptr, Ghost(g));
    }

    /// Second half of coalescing: writes the merged block's header and
    /// footer at `final_header_index` and clears the "previous allocated"
    /// bit of the block above the merged extent, if one exists.
    #[verifier::rlimit(100)]
    fn _coalesse_write(
        &mut self,
        final_header_index: usize,
        final_size: usize,
        final_prev_alloc: u8,
        ptr: usize,
        Ghost(g): Ghost<Seq<u8>>,
    )
        requires
            1 <= ptr,
            ptr - 1 < g.len(),
            g.len() == old(self).size,
            g.len() == old(self).heap@.len(),
            4 <= old(self).size <= 252,
            wf_chain(g, 0, 0),
            no_adjacent_free(g),
            reaches(g, 0, ptr - 1),
            alloc_of(g[ptr - 1]) == 1,
            old(self).heap@ == g.update(
                ptr - 1,
                (enc(bsize_of(g[ptr - 1]), 0, prev_of(g[ptr - 1])) as u8),
            ).update(
                ptr - 1 + bsize_of(g[ptr - 1]) - 1,
                (enc(bsize_of(g[ptr - 1]), 0, prev_of(g[ptr - 1])) as u8),
            ),
            final_header_index == free_lo(g, ptr - 1),
            final_size == free_hi(g, ptr - 1) - free_lo(g, ptr - 1),
            final_prev_alloc == prev_of(g[free_lo(g, ptr - 1)]),
            free_hi(g, ptr - 1) < g.len() ==> wf_chain(
                g,
                free_hi(g, ptr - 1),
                prev_of(g[free_hi(g, ptr - 1)]),
            ),
        ensures
            final(self).size == old(self).size,
            final(self).heap@.len() == old(self).heap@.len(),
            ({
                let i = ptr - 1;
                let lo = free_lo(g, i);
                let hi = free_hi(g, i);
                let s = bsize_of(g[i]);
                let h2 = final(self).heap@;
                &&& wf_chain(h2, 0, 0)
                &&& no_adjacent_free(h2)
                &&& is_block_start(h2, lo)
                &&& alloc_of(h2[lo]) == 0
                &&& bsize_of(h2[lo]) == hi - lo
                &&& prev_of(h2[lo]) == prev_of(g[lo])
                &&& hi - lo >= s
                &&& (hi < g.len() ==> is_block_start(h2, hi) && prev_of(h2[hi]) == 0 && alloc_of(
                    h2[hi],
                ) == alloc_of(g[hi]) && bsize_of(h2[hi]) == bsize_of(g[hi]))
                &&& forall|k: int| 0 <= k < lo ==> h2[k] == g[k]
                &&& forall|k: int|
                    lo < k < hi - 1 && k != i && k != i + s - 1 ==> h2[k] == g[k]
                &&& (lo != i ==> h2[i] == (enc(s, 0, prev_of(g[i])) as u8))
                &&& (i + s != hi && i + s - 1 != lo ==> h2[i + s - 1] == (enc(
                    s,
                    0,
                    prev_of(g[i]),
                ) as u8))
                &&& forall|k: int|
                    hi < g.len() && hi + bsize_of(g[hi]) <= k < g.len() ==> h2[k] == g[k]
            }),
    {
        let ghost i: int = ptr - 1;
        let ghost s: int = bsize_of(g[i]);
        let ghost lo: int = free_lo(g, i);
        let ghost hi: int = free_hi(g, i);
        proof {
            lemma_chain_decompose(g, 0, i, 0);
            lemma_reaches_mod4(g, 0, i);
            assert(s % 4 == 0) by (nonlinear_arith)
                requires
                    s == (g[i] as int / 4) * 4,
            ;
            if i > 0 && prev_of(g[i]) == 0 {
                lemma_seg_last(g, 0, i, 0, prev_of(g[i]));
                assert((g[i - 1] as int / 4) * 4 % 4 == 0) by (nonlinear_arith);
            }
            if i + s < g.len() && alloc_of(g[i + s]) == 0 {
                assert(wf_chain(g, i + s, 1));
                assert((g[i + s] as int / 4) * 4 % 4 == 0) by (nonlinear_arith);
            }
        }

        // Tell the block above the merged extent, if there is one, that the
        // block below it is now free.
        if final_header_index + final_size < self.size {
            let mut above_above_h = _Header::_from_byte(&self.heap[final_header_index + final_size]);
            above_above_h.pblock_alloc = 0;
            self._write_header_footer(&above_above_h, final_header_index + final_size);
        }

        // Write the merged block's header and footer.
        let final_header = _Header::_new(final_size, DEFAULT_ALLOC, final_prev_alloc);
        self._write_header_footer(&final_header, final_header_index);

        proof {
            lemma_free_shape(g, self.heap@, i);
        }
    }

    /// Releases the block whose payload starts at `ptr`.  A pointer that is
    /// out of bounds, at the bottom of the arena, misaligned, or not the
    /// payload offset of one of the arena's blocks is reported as
    /// `InvalidPointer`; releasing a block that is already free is a
    /// `DoubleFree`.  On success the block is marked free and immediately
    /// merged with a free neighbour on either side, so no two adjacent
    /// blocks are ever left both free.
    #[verifier::loop_isolation(false)]
    pub fn free(&mut self, ptr: usize) -> (r: Result<(), HeapError>)
        requires
            old(self).wf(),
        ensures
            final(self).wf(),
            final(self).size == old(self).size,
            final(self).heap@.len() == old(self).heap@.len(),
            ({
                let h0 = old(self).heap@;
                let h2 = final(self).heap@;
                let i = ptr - 1;
                let ok = 1 <= ptr < old(self).size && ptr % 4 == 1 && is_block_start(h0, i)
                    && alloc_of(h0[i]) == 1;
                &&& (r is Ok <==> ok)
                &&& (!ok ==> *final(self) == *old(self) && r == Err::<(), HeapError>(
                    if 1 <= ptr < old(self).size && ptr % 4 == 1 && is_block_start(h0, i) {
                        HeapError::DoubleFree
                    } else {
                        HeapError::InvalidPointer
                    },
                ))
                &&& (ok ==> {
                    let lo = free_lo(h0, i);
                    let hi = free_hi(h0, i);
                    let s = bsize_of(h0[i]);
                    &&& is_block_start(h2, lo)
                    &&& alloc_of(h2[lo]) == 0
                    &&& bsize_of(h2[lo]) == hi - lo
                    &&& hi - lo >= s
                    &&& prev_of(h2[lo]) == prev_of(h0[lo])
                    &&& has_free_block(h2, s)
                    &&& (hi < h2.len() ==> is_block_start(h2, hi) && prev_of(h2[hi]) == 0
                        && alloc_of(h2[hi]) == alloc_of(h0[hi]) && bsize_of(h2[hi]) == bsize_of(
                        h0[hi],
                    ))
                    &&& forall|k: int| 0 <= k < lo ==> h2[k] == h0[k]
                    &&& forall|k: int|
                        lo < k < hi - 1 && k != i && k != i + s - 1 ==> h2[k] == h0[k]
                    &&& (lo != i ==> h2[i] == (enc(s, 0, prev_of(h0[i])) as u8))
                    &&& (i + s != hi && i + s - 1 != lo ==> h2[i + s - 1] == (
                    enc(s, 0, prev_of(h0[i])) as u8))
                    &&& forall|k: int|
                        hi < h2.len() && hi + bsize_of(h0[hi]) <= k < h2.len() ==> h2[k] == h0[k]
                })
            }),
    {
        let ghost h0 = self.heap@;

        if ptr >= self.size {
            return Err(HeapError::InvalidPointer);
        }
        if ptr < HEADER_SIZE {
            // No payload can start at the very first byte of the arena.
            return Err(HeapError::InvalidPointer);
        }
        if ptr % 4 != HEADER_SIZE {
            // Payload offsets are always one past a multiple of four.
            return Err(HeapError::InvalidPointer);
        }

        // Walk the block chain: a valid pointer must sit one byte past the
        // header of one of the arena's blocks.
        let target = ptr - HEADER_SIZE;
        let mut i: usize = 0;
        proof {
            assert(reaches(h0, 0, 0));
        }
        while i < target
            invariant
                *self == *old(self),
                i <= target,
                reaches(h0, 0, i as int),
            decreases target - i,
        {
            proof {
                lemma_chain_decompose(h0, 0, i as int, 0);
            }
            let hdr = _Header::_from_byte(&self.heap[i]);
            let next = i + hdr.block_size;
            if next > target {
                // The walk jumped over `target`: no block starts there.
                proof {
                    if reaches(h0, 0, target as int) {
                        lemma_reaches_trans(h0, 0, i as int, target as int);
                        assert(reaches(h0, i as int, target as int));
                        assert(false);
                    }
                }
                return Err(HeapError::InvalidPointer);
            }
            proof {
                assert(reaches(h0, next as int, next as int));
                assert(reaches(h0, i as int, next as int));
                lemma_reaches_concat(h0, 0, i as int, next as int);
            }
            i = next;
        }
        proof {
            lemma_chain_decompose(h0, 0, target as int, 0);
        }

        // Read the block's header and the mirrored footer at its last byte.
        let mut header = _Header::_from_byte(&self.heap[ptr - HEADER_SIZE]);
        let bsize = header.block_size;
        let footer = _Footer::_from_byte(&self.heap[ptr + bsize - HEADER_FOOTER_SIZE]);

        // The block must be allocated.
        if header.block_alloc != B_ALLOCED {
            return Err(HeapError::DoubleFree);
        }

        // Defensive checks: the invariant rules both out, but a heap is
        // bookkeeping for strangers' data, and these are cheap.
        if ptr - HEADER_SIZE + bsize > self.size {
            return Err(HeapError::Corruption);
        }
        if header != footer {
            return Err(HeapError::Corruption);
        }

        // Mark the block free and write the pair back.
        header.block_alloc = 0;
        self._write_header_footer(&header, ptr - HEADER_SIZE);

        // Merge with free neighbours.
        self._coalesse(ptr, Ghost(h0));
        proof {
            let lo = free_lo(h0, target as int);
            assert(is_block_start(self.heap@, lo) && alloc_of(self.heap@[lo]) == 0 && bsize_of(
                self.heap@[lo],
            ) >= bsize);
        }
        Ok(())
    }

    /// Writes `n` bytes of `src`'s byte image into the block whose payload
    /// starts at `ptr`, beginning `offset` bytes into the payload.  A
    /// zero-length write, or one asking for more bytes than `src` provides,
    /// is an `InvalidRequest`; one that would run past the block's usable
    /// capacity is an `InvalidPointer` and leaves every byte of the arena
    /// unchanged.  The copy can never touch the block's own header or
    /// footer, nor any other block.
    #[verifier::loop_isolation(false)]
    pub fn write_bytes(
        &mut self,
        ptr: &usize,
        src: &impl BytesConverter,
        n: usize,
        offset: usize,
    ) -> (r: Result<(), HeapError>)
        requires
            old(self).wf(),
            *ptr >= 1,
            is_block_start(old(self).heap@, *ptr - 1),
        ensures
            final(self).wf(),
            final(self).size == old(self).size,
            final(self).heap@.len() == old(self).heap@.len(),
            ({
                let h0 = old(self).heap@;
                let h2 = final(self).heap@;
                let cap = bsize_of(h0[*ptr - 1]) - 2;
                let ok = n >= 1 && n <= src.bytes_spec().len() && offset + n <= cap;
                &&& (r is Ok <==> ok)
                &&& (!ok ==> *final(self) == *old(self))
                &&& (n == 0 ==> r == Err::<(), HeapError>(HeapError::InvalidRequest))
                &&& (n >= 1 && n > src.bytes_spec().len() ==> r == Err::<(), HeapError>(
                    HeapError::InvalidRequest,
                ))
                &&& (n >= 1 && n <= src.bytes_spec().len() && offset + n > cap ==> r == Err::<
                    (),
                    HeapError,
                >(HeapError::InvalidPointer))
                &&& (ok ==> {
                    &&& forall|k: int|
                        0 <= k < h0.len() && !(*ptr + offset <= k < *ptr + offset + n) ==> h2[k]
                            == h0[k]
                    &&& forall|k: int|
                        0 <= k < n ==> h2[*ptr + offset + k] == src.bytes_spec()[k]
                })
            }),
    {
        let ghost h0 = self.heap@;
        proof {
            lemma_chain_decompose(h0, 0, *ptr - 1, 0);
        }
        // Usable payload capacity of the block.
        let bbytes = self._check_bsize(ptr);

        if n == 0 {
            return Err(HeapError::InvalidRequest);
        }
        let data = src.to_bytes();
        if n > data.len() {
            return Err(HeapError::InvalidRequest);
        }
        if offset > bbytes || n > bbytes - offset {
            return Err(HeapError::InvalidPointer);
        }

        // A bounds-checked copy into the payload, one byte at a time.
        let start = *ptr + offset;
        let mut k: usize = 0;
        while k < n
            invariant
                k <= n,
                self.size == old(self).size,
                self.heap@.len() == h0.len(),
                forall|m: int| 0 <= m < h0.len() && !(start <= m < start + k) ==> self.heap@[m] == h0[m],
                forall|m: int| 0 <= m < k ==> self.heap@[start + m] == data@[m],
            decreases n - k,
        {
            self.heap[start + k] = data[k];
            k += 1;
        }
        proof {
            lemma_payload_frame(h0, self.heap@, *ptr - 1, start as int, start + n);
        }
        Ok(())
    }

    /// Reads `n` bytes out of the block whose payload starts at `ptr`,
    /// beginning `offset` bytes into the payload, with the same bounds
    /// checking as a write.
    #[verifier::loop_isolation(false)]
    pub fn read_bytes(&self, ptr: &usize, n: usize, offset: usize) -> (r: Result<
        Vec<u8>,
        HeapError,
    >)
        requires
            self.wf(),
            *ptr >= 1,
            is_block_start(self.heap@, *ptr - 1),
        ensures
            ({
                let cap = bsize_of(self.heap@[*ptr - 1]) - 2;
                let ok = n >= 1 && offset + n <= cap;
                &&& (r is Ok <==> ok)
                &&& (n == 0 ==> r == Err::<Vec<u8>, HeapError>(HeapError::InvalidRequest))
                &&& (n >= 1 && offset + n > cap ==> r == Err::<Vec<u8>, HeapError>(
                    HeapError::InvalidPointer,
                ))
                &&& (ok ==> r->Ok_0@ == self.heap@.subrange(
                    *ptr + offset,
                    *ptr + offset + n,
                ))
            }),
    {
        proof {
            lemma_chain_decompose(self.heap@, 0, *ptr - 1, 0);
        }
        let bbytes = self._check_bsize(ptr);

        if n == 0 {
            return Err(HeapError::InvalidRequest);
        }
        if offset > bbytes || n > bbytes - offset {
            return Err(HeapError::InvalidPointer);
        }

        let start = *ptr + offset;
        let mut out: Vec<u8> = Vec::new();
        let mut k: usize = 0;
        while k < n
            invariant
                k <= n,
                out@.len() == k,
                forall|m: int| 0 <= m < k ==> out@[m] == self.heap@[start + m],
            decreases n - k,
        {
            out.push(self.heap[start + k]);
            k += 1;
        }
        proof {
            assert(out@ =~= self.heap@.subrange(*ptr + offset, *ptr + offset + n));
        }
        Ok(out)
    }

    /// Walking the block chain from the bottom of a well-formed arena, the
    /// block sizes sum exactly to the arena's capacity: blocks tile the
    /// arena with no gap and no overlap.
    pub proof fn lemma_block_sizes_sum_to_capacity(&self)
        requires
            self.wf(),
        ensures
            crate::heap_model::blocks_total(self.heap@, 0) == self.size,
    {
        crate::heap_model::lemma_blocks_total(self.heap@, 0, 0);
    }

    /// Usable payload bytes of the block whose payload starts at `ptr`: the
    /// block size minus the header and footer.
    fn _check_bsize(&self, ptr: &usize) -> (r: usize)
        requires
            1 <= *ptr,
            *ptr - 1 < self.heap@.len(),
            bsize_of(self.heap@[*ptr - 1]) >= 4,
        ensures
            r == bsize_of(self.heap@[*ptr - 1]) - 2,
    {
        let h = _Header::_from_byte(&self.heap[*ptr - HEADER_SIZE]);
        h.block_size - HEADER_FOOTER_SIZE
    }
}

} // verus!
