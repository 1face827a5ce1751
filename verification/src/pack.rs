//! The byte-cursor engine: a bit-level cursor over a byte buffer.
//!
//! `BitPack` tracks its position as a byte index plus a bit offset inside
//! that byte. Values are packed least significant bits first: the low bit of
//! a value lands in the lowest free bit position of the buffer.

use vstd::prelude::*;

use crate::bits::{
    bit32, bit8, buf_bit, bv_mask32, lemma_bit_index, lemma_buf_write_chunk, lemma_mask_noop,
    lemma_mask_value, lemma_read_chunk, lemma_u32_mask_bit, lemma_u32_or_bit, lemma_u32_shl_bit,
    lemma_u32_shr_bit, lemma_u32_zero_bit,
};

verus! {

/// Relates the buffer before and after a successful write of the low `width`
/// bits of `value` at bit position `pos`: bits in the target range are or-ed
/// with the bits of `value`, every other bit is untouched.
pub open spec fn wrote(pre: Seq<u8>, post: Seq<u8>, pos: int, value: u32, width: int) -> bool {
    &&& post.len() == pre.len()
    &&& forall|j: int|
        0 <= j < pre.len() * 8 ==> buf_bit(post, j) == (buf_bit(pre, j) || (pos <= j < pos
            + width && bit32(value, j - pos)))
}

/// What a successful read of `width` bits at bit position `pos` returns: the
/// value whose low `width` bits are the buffer bits at `pos`, and whose
/// higher bits are zero.
pub open spec fn read_back(buf: Seq<u8>, pos: int, width: int, v: u32) -> bool {
    &&& forall|k: int| 0 <= k < width ==> bit32(v, k) == buf_bit(buf, pos + k)
    &&& forall|k: int| width <= k < 32 ==> !bit32(v, k)
}

/// Largest bit width a single write or read may request.
pub const MAX_BITS: usize = 32;

/// Number of bits in a byte.
pub const BYTE_BITS: usize = 8;

/// A bit-level cursor over a byte buffer.
///
/// `buff` is the backing storage; `cursor` is the index of the byte the
/// cursor stands in, and `bits` the offset inside that byte.
#[derive(Clone, Debug, PartialEq, Eq)]
pub struct BitPack<B> {
    pub buff: B,
    pub cursor: usize,
    pub bits: usize,
}

impl<B> BitPack<B> {
    /// The cursor position as a total number of bits consumed.
    pub open spec fn spec_sum_bits(&self) -> int {
        self.cursor * 8 + self.bits
    }

    /// Creates a packer over `buff` with the cursor at the start.
    #[inline]
    pub fn new(buff: B) -> (r: Self)
        ensures
            r.buff == buff,
            r.cursor == 0,
            r.bits == 0,
    {
        BitPack { buff, cursor: 0, bits: 0 }
    }

    /// The total number of bits consumed so far.
    #[inline]
    pub fn sum_bits(&self) -> (r: usize)
        requires
            self.cursor * 8 + self.bits <= usize::MAX,
        ensures
            r == self.spec_sum_bits(),
    {
        self.cursor * BYTE_BITS + self.bits
    }

    /// Moves the cursor to the byte index `cursor`.
    #[inline]
    pub fn with_cursor(&mut self, cursor: usize) -> (r: &mut Self)
        ensures
            r.cursor == cursor,
            r.bits == old(self).bits,
            r.buff == old(self).buff,
            *final(self) == *final(r),
    {
        self.cursor = cursor;
        self
    }

    /// Moves the cursor to the bit offset `bits` inside the current byte.
    #[inline]
    pub fn with_bits(&mut self, bits: usize) -> (r: &mut Self)
        ensures
            r.bits == bits,
            r.cursor == old(self).cursor,
            r.buff == old(self).buff,
            *final(self) == *final(r),
    {
        self.bits = bits;
        self
    }
}

impl<'a> BitPack<&'a mut [u8]> {
    /// The buffer the packer writes into.
    #[inline]
    pub fn as_slice(&self) -> (r: &[u8])
        ensures
            r@ == old(self.buff)@,
    {
        &*self.buff
    }

    /// Writes the low `bits` bits of `value` at the cursor, least significant
    /// bits first, and advances the cursor by `bits`.
    ///
    /// Written bits are or-ed into the buffer, never overwritten, so the
    /// target region must start out zeroed for the value to be read back.
    /// The call fails with the requested width when that width exceeds
    /// [`MAX_BITS`] or the number of bits remaining in the buffer; a failed
    /// call leaves both buffer and cursor untouched.
    pub fn write(&mut self, value: u32, bits: usize) -> (r: Result<(), usize>)
        requires
            old(self).bits < 8,
            old(self).cursor * 8 + old(self).bits + 32 <= usize::MAX,
            old(self).buff@.len() * 8 <= usize::MAX,
        ensures
            final(self).buff@.len() == old(self).buff@.len(),
            final(final(self).buff)@ == final(old(self).buff)@,
            r is Ok <==> (bits <= MAX_BITS && old(self).spec_sum_bits() + bits <= old(self).buff@.len() * 8),
            r is Err ==> r == Err::<(), usize>(bits) && final(self).cursor == old(self).cursor
                && final(self).bits == old(self).bits && final(self).buff@ == old(self).buff@,
            r is Ok ==> wrote(
                old(self).buff@,
                final(self).buff@,
                old(self).spec_sum_bits(),
                value,
                bits as int,
            ) && final(self).spec_sum_bits() == old(self).spec_sum_bits() + bits
                && final(self).bits < 8,
    {
        if bits > MAX_BITS || self.buff.len() * BYTE_BITS < self.sum_bits() + bits {
            return Err(bits);
        }
        let ghost pre = self.buff@;
        let ghost pos0 = self.spec_sum_bits();
        let mut v: u32 = value;
        let mut w: usize = bits;
        if w < MAX_BITS {
            proof {
                lemma_mask_value(w as u32);
            }
            v = v & ((1u32 << (w as u32)) - 1);
        }
        let ghost v0 = v;
        let ghost w0 = w;
        proof {
            assert forall|k: int| 0 <= k < 32 implies #[trigger] bit32(v0, k) == (k < w0 && bit32(
                value,
                k,
            )) by {
                if w0 < 32 {
                    lemma_u32_mask_bit(value, w0 as u32, k as u32);
                }
            }
        }
        if w == 0 {
            assert(wrote(pre, self.buff@, pos0, value, 0));
            return Ok(());
        }
        while w > BYTE_BITS - self.bits
            invariant
                self.bits < 8,
                self.buff@.len() == pre.len(),
                pre.len() * 8 <= usize::MAX,
                1 <= w <= w0 <= 32,
                w0 == bits,
                self.spec_sum_bits() == pos0 + w0 - w,
                pos0 + w0 <= pre.len() * 8,
                final(self.buff)@ == final(old(self).buff)@,
                forall|k: int|
                    0 <= k < 32 ==> (#[trigger] bit32(v, k) == (k < w && bit32(v0, w0 - w + k))),
                forall|j: int|
                    0 <= j < pre.len() * 8 ==> (#[trigger] buf_bit(self.buff@, j) == (buf_bit(
                        pre,
                        j,
                    ) || (pos0 <= j < pos0 + (w0 - w) && bit32(v0, j - pos0)))),
            decreases w,
        {
            let bl: usize = BYTE_BITS - self.bits;
            proof {
                lemma_mask_value(bl as u32);
            }
            let bb: u32 = v & ((1u32 << (bl as u32)) - 1);
            let c: usize = self.cursor;
            let off: usize = self.bits;
            let b0: u8 = self.buff[c];
            let ghost bufa = self.buff@;
            self.buff[c] = b0 | ((bb as u8) << (off as u8));
            proof {
                assert(bb == v & bv_mask32(bl as u32));
                lemma_buf_write_chunk(bufa, self.buff@, c as int, off as int, v, bl as int);
                let ghost cpos = pos0 + w0 - w;
                assert(8 * (c as int) + off == cpos);
                assert forall|j: int| 0 <= j < pre.len() * 8 implies buf_bit(self.buff@, j) == (
                buf_bit(pre, j) || (pos0 <= j < cpos + bl && bit32(v0, j - pos0))) by {
                    assert(buf_bit(bufa, j) == (buf_bit(pre, j) || (pos0 <= j < cpos && bit32(
                        v0,
                        j - pos0,
                    ))));
                    if cpos <= j < cpos + bl {
                        assert(bit32(v, j - cpos) == (j - cpos < w && bit32(v0, w0 - w + (j - cpos))));
                    }
                }
            }
            self.cursor = c + 1;
            self.bits = 0;
            let ghost vprev = v;
            v = v >> (bl as u32);
            w = w - bl;
            proof {
                assert forall|k: int| 0 <= k < 32 implies #[trigger] bit32(v, k) == (k < w
                    && bit32(v0, w0 - w + k)) by {
                    lemma_u32_shr_bit(vprev, bl as u32, k as u32);
                    if k + bl < 32 {
                        assert(bit32(vprev, k + bl) == (k + bl < w + bl && bit32(
                            v0,
                            w0 - (w + bl) + (k + bl),
                        )));
                    }
                }
            }
        }
        let c: usize = self.cursor;
        let off: usize = self.bits;
        let b0: u8 = self.buff[c];
        let ghost bufa = self.buff@;
        proof {
            assert forall|k: int| 0 <= k < 32 && #[trigger] bit32(v, k) implies k < w by {
                assert(bit32(v, k) == (k < w && bit32(v0, w0 - w + k)));
            }
            lemma_mask_noop(v, w as u32);
        }
        self.buff[c] = b0 | ((v as u8) << (off as u8));
        proof {
            assert(v == v & bv_mask32(w as u32));
            lemma_buf_write_chunk(bufa, self.buff@, c as int, off as int, v, w as int);
            let ghost cpos = pos0 + w0 - w;
            assert(8 * (c as int) + off == cpos);
            assert forall|j: int| 0 <= j < pre.len() * 8 implies buf_bit(self.buff@, j) == (buf_bit(
                pre,
                j,
            ) || (pos0 <= j < pos0 + w0 && bit32(v0, j - pos0))) by {
                assert(buf_bit(bufa, j) == (buf_bit(pre, j) || (pos0 <= j < cpos && bit32(
                    v0,
                    j - pos0,
                ))));
                if cpos <= j < cpos + w {
                    assert(bit32(v, j - cpos) == (j - cpos < w && bit32(v0, w0 - w + (j - cpos))));
                }
            }
            assert forall|j: int| 0 <= j < pre.len() * 8 implies buf_bit(self.buff@, j) == (buf_bit(
                pre,
                j,
            ) || (pos0 <= j < pos0 + bits && bit32(value, j - pos0))) by {
                if pos0 <= j < pos0 + bits {
                    assert(bit32(v0, j - pos0) == (j - pos0 < w0 && bit32(value, j - pos0)));
                }
            }
        }
        self.bits = off + w;
        if self.bits >= BYTE_BITS {
            self.cursor = c + 1;
            self.bits = 0;
        }
        Ok(())
    }
}

impl<'a> BitPack<&'a [u8]> {
    /// The packed bytes the packer reads from.
    #[inline]
    pub fn as_slice(&self) -> (r: &[u8])
        ensures
            r@ == self.buff@,
    {
        self.buff
    }

    /// Reads `bits` bits at the cursor, least significant bits first, and
    /// advances the cursor by `bits`.
    ///
    /// Mirrors `write`: reading back the widths of a write session over a
    /// buffer that started out zeroed reproduces the written (masked) values.
    /// The call fails with the requested width when that width exceeds
    /// [`MAX_BITS`] or the number of bits remaining in the buffer; a failed
    /// call leaves the cursor untouched. The buffer itself is never changed.
    pub fn read(&mut self, bits: usize) -> (r: Result<u32, usize>)
        requires
            old(self).bits <= 8,
            old(self).cursor * 8 + old(self).bits + 32 <= usize::MAX,
            old(self).buff@.len() * 8 <= usize::MAX,
        ensures
            final(self).buff == old(self).buff,
            r is Ok <==> (bits <= MAX_BITS && old(self).spec_sum_bits() + bits <= old(self).buff@.len() * 8),
            r is Err ==> r == Err::<u32, usize>(bits) && final(self).cursor == old(self).cursor
                && final(self).bits == old(self).bits,
            r matches Ok(v) ==> read_back(
                old(self).buff@,
                old(self).spec_sum_bits(),
                bits as int,
                v,
            ) && final(self).spec_sum_bits() == old(self).spec_sum_bits() + bits
                && final(self).bits <= 8,
    {
        if bits > MAX_BITS || self.buff.len() * BYTE_BITS < self.sum_bits() + bits {
            return Err(bits);
        }
        let ghost pos0 = self.spec_sum_bits();
        if bits == 0 {
            proof {
                assert forall|k: int| 0 <= k < 32 implies !bit32(0u32, k) by {
                    lemma_u32_zero_bit(k as u32);
                }
            }
            return Ok(0);
        }
        let mut w: usize = bits;
        let mut shift: usize = 0;
        let mut output: u32 = 0;
        proof {
            assert forall|k: int| 0 <= k < 32 implies !bit32(output, k) by {
                lemma_u32_zero_bit(k as u32);
            }
        }
        while w > BYTE_BITS - self.bits
            invariant
                self.bits <= 8,
                self.buff == old(self).buff,
                self.buff@.len() * 8 <= usize::MAX,
                1 <= w <= bits <= 32,
                shift == bits - w,
                self.spec_sum_bits() == pos0 + shift,
                pos0 + bits <= self.buff@.len() * 8,
                forall|k: int|
                    0 <= k < 32 ==> (#[trigger] bit32(output, k) == (k < shift && buf_bit(
                        self.buff@,
                        pos0 + k,
                    ))),
            decreases w, self.bits,
        {
            let byte_left: usize = BYTE_BITS - self.bits;
            let c: usize = self.cursor;
            let off: usize = self.bits;
            let b: u8 = self.buff[c];
            proof {
                lemma_mask_value(byte_left as u32);
            }
            let bb: u32 = ((b as u32) >> (off as u32)) & ((1u32 << (byte_left as u32)) - 1);
            let ghost outa = output;
            output = output | (bb << (shift as u32));
            proof {
                assert(bb == ((b as u32) >> (off as u32)) & bv_mask32(byte_left as u32));
                assert forall|t: int| 0 <= t < 32 implies #[trigger] bit32(output, t) == (t < shift
                    + byte_left && buf_bit(self.buff@, pos0 + t)) by {
                    assert(bit32(outa, t) == (t < shift && buf_bit(self.buff@, pos0 + t)));
                    lemma_u32_or_bit(outa, bb << (shift as u32), t as u32);
                    lemma_u32_shl_bit(bb, shift as u32, t as u32);
                    if shift <= t {
                        lemma_read_chunk(b, off as u32, byte_left as u32, t - shift);
                        if t - shift < byte_left {
                            lemma_bit_index(c as int, off + (t - shift));
                            assert(buf_bit(self.buff@, 8 * (c as int) + (off + (t - shift)))
                                == bit8(b, off + (t - shift)));
                        }
                    }
                }
            }
            self.bits = off + byte_left;
            shift = shift + byte_left;
            w = w - byte_left;
            if self.bits >= BYTE_BITS {
                self.cursor = c + 1;
                self.bits = self.bits - BYTE_BITS;
            }
        }
        let c: usize = self.cursor;
        let off: usize = self.bits;
        let b: u8 = self.buff[c];
        proof {
            lemma_mask_value(w as u32);
        }
        let bb: u32 = ((b as u32) >> (off as u32)) & ((1u32 << (w as u32)) - 1);
        let ghost outa = output;
        output = output | (bb << (shift as u32));
        proof {
            assert(bb == ((b as u32) >> (off as u32)) & bv_mask32(w as u32));
            assert forall|t: int| 0 <= t < 32 implies #[trigger] bit32(output, t) == (t < bits
                && buf_bit(self.buff@, pos0 + t)) by {
                assert(bit32(outa, t) == (t < shift && buf_bit(self.buff@, pos0 + t)));
                lemma_u32_or_bit(outa, bb << (shift as u32), t as u32);
                lemma_u32_shl_bit(bb, shift as u32, t as u32);
                if shift <= t {
                    lemma_read_chunk(b, off as u32, w as u32, t - shift);
                    if t - shift < w {
                        lemma_bit_index(c as int, off + (t - shift));
                        assert(buf_bit(self.buff@, 8 * (c as int) + (off + (t - shift))) == bit8(
                            b,
                            off + (t - shift),
                        ));
                    }
                }
            }
        }
        self.bits = off + w;
        Ok(output)
    }
}

} // verus!
