//! The growable-buffer adapter: the byte-cursor engine over an owned,
//! dynamically resized byte container.
//!
//! A write first extends the container by the least number of whole bytes
//! that makes room for the new total bit demand, zero-filling the new bytes,
//! and then delegates to the fixed-size engine over a fresh slice view. The
//! container never shrinks.

use vstd::prelude::*;

use crate::bits::{
    bit32, buf_bit, lemma_ceil8, lemma_div8_bounds, lemma_div8_shift, lemma_u8_zero_bit,
};
use crate::pack::{wrote, BitPack, BYTE_BITS, MAX_BITS};

verus! {

/// Relates the buffer before and after a successful growable write of the
/// low `width` bits of `value` at bit position `pos`: the buffer grows to
/// the least whole number of bytes that holds `pos + width` bits (never
/// shrinking), the bits in the target range are or-ed with the bits of
/// `value`, and every other bit — the zero-filled tail included — keeps its
/// old value, zero where the old buffer ended.
pub open spec fn grew(pre: Seq<u8>, post: Seq<u8>, pos: int, value: u32, width: int) -> bool {
    &&& post.len() == (if pos + width <= pre.len() * 8 {
        pre.len() as int
    } else {
        (pos + width + 7) / 8
    })
    &&& forall|j: int|
        0 <= j < post.len() * 8 ==> buf_bit(post, j) == ((j < pre.len() * 8 && buf_bit(pre, j))
            || (pos <= j < pos + width && bit32(value, j - pos)))
}

impl Default for BitPack<Vec<u8>> {
    /// A growable packer over an empty buffer.
    fn default() -> (r: Self)
        ensures
            r.buff@.len() == 0,
            r.cursor == 0,
            r.bits == 0,
    {
        Self::new(Vec::new())
    }
}

impl BitPack<Vec<u8>> {
    /// Creates a growable packer over an empty buffer with room reserved for
    /// `capacity` bytes.
    pub fn with_capacity(capacity: usize) -> (r: Self)
        ensures
            r.buff@.len() == 0,
            r.cursor == 0,
            r.bits == 0,
    {
        Self::new(Vec::with_capacity(capacity))
    }

    /// The packed bytes produced so far.
    #[inline]
    pub fn as_slice(&self) -> (r: &[u8])
        ensures
            r@ == self.buff@,
    {
        self.buff.as_slice()
    }

    /// Hands the backing buffer to the caller.
    #[inline]
    pub fn into_vec(self) -> (r: Vec<u8>)
        ensures
            r@ == self.buff@,
    {
        self.buff
    }

    /// Writes the low `bits` bits of `value` at the cursor, growing the
    /// buffer first by the least number of whole bytes that makes room.
    ///
    /// Only a width above [`MAX_BITS`] fails, and a failed call changes
    /// nothing. On success the buffer holds exactly
    /// `max(old length, ceil((cursor + bits) / 8))` bytes, the bits of
    /// `value` stand at the old cursor position, and every other bit — the
    /// zero-filled tail included — is what it was before.
    pub fn write(&mut self, value: u32, bits: usize) -> (r: Result<(), usize>)
        requires
            old(self).bits < 8,
            old(self).cursor * 8 + old(self).bits + 40 <= usize::MAX,
            old(self).buff@.len() * 8 <= usize::MAX,
        ensures
            r is Ok <==> bits <= MAX_BITS,
            r is Err ==> r == Err::<(), usize>(bits) && final(self).cursor == old(self).cursor
                && final(self).bits == old(self).bits && final(self).buff@ == old(self).buff@,
            r is Ok ==> {
                &&& grew(
                    old(self).buff@,
                    final(self).buff@,
                    old(self).spec_sum_bits(),
                    value,
                    bits as int,
                )
                &&& final(self).spec_sum_bits() == old(self).spec_sum_bits() + bits
                &&& final(self).bits < 8
            },
    {
        if bits > MAX_BITS {
            return Err(bits);
        }
        let ghost pre = self.buff@;
        let ghost pos0 = self.spec_sum_bits();
        let len: usize = self.buff.len();
        let need: usize = self.sum_bits() + bits;
        if need > len * BYTE_BITS {
            let extra: usize = need - len * BYTE_BITS;
            let target: usize = len + (extra + (BYTE_BITS - 1)) / BYTE_BITS;
            proof {
                lemma_div8_shift(extra as int + 7, len as int);
                lemma_ceil8(need as int);
            }
            while self.buff.len() < target
                invariant
                    len <= self.buff@.len() <= target,
                    target == (pos0 + bits + 7) / 8,
                    target * 8 <= pos0 + bits + 7,
                    self.buff@.subrange(0, len as int) == pre,
                    forall|i: int| len <= i < self.buff@.len() ==> self.buff@[i] == 0u8,
                    self.cursor == old(self).cursor,
                    self.bits == old(self).bits,
                decreases target - self.buff@.len(),
            {
                self.buff.push(0u8);
                proof {
                    assert(self.buff@.subrange(0, len as int) == pre);
                }
            }
        }
        let ghost grown = self.buff@;
        proof {
            assert forall|j: int| 0 <= j < grown.len() * 8 implies #[trigger] buf_bit(grown, j)
                == (j < pre.len() * 8 && buf_bit(pre, j)) by {
                lemma_div8_bounds(j, grown.len() as int);
                if j < pre.len() * 8 {
                    lemma_div8_bounds(j, pre.len() as int);
                    assert(grown[j / 8] == pre[j / 8]);
                } else {
                    assert(grown[j / 8] == 0u8);
                    lemma_u8_zero_bit((j % 8) as u8);
                }
            }
        }
        let mut inner: BitPack<&mut [u8]> = BitPack {
            buff: self.buff.as_mut_slice(),
            cursor: self.cursor,
            bits: self.bits,
        };
        let r = inner.write(value, bits);
        let inner_cursor: usize = inner.cursor;
        let inner_bits: usize = inner.bits;
        match r {
            Ok(()) => {
                self.cursor = inner_cursor;
                self.bits = inner_bits;
                Ok(())
            },
            Err(e) => Err(e),
        }
    }
}

} // verus!
