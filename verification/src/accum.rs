//! The word-accumulator engine: bits gathered in a 32-bit pending word and
//! committed to the buffer a whole word at a time.
//!
//! Values are packed most significant bits first inside the pending word: a
//! write places its bits into the highest free positions, and a full word is
//! serialized to the buffer as four little-endian bytes. A write session
//! must end with an explicit [`WordPacker::flush`] when its total bit count
//! is not a multiple of 32, or the trailing bits are lost. Reads mirror
//! writes, loading one whole word from the buffer whenever the pending word
//! is exhausted.

use vstd::prelude::*;

use crate::bits::{
    bit32, bit8, buf_bit, bv_mask32, lemma_div32_bounds, lemma_div4_floor, lemma_div8_bounds, lemma_mask_value,
    lemma_mul_div4, lemma_u32_mask_bit, lemma_u32_of_u8_bit, lemma_u32_or_bit, lemma_u32_shl_bit,
    lemma_u32_shr_bit, lemma_u32_zero_bit, lemma_u8_of_u32_bit,
};
use crate::pack::{BYTE_BITS, MAX_BITS};

verus! {

/// Bit `t` of a byte sequence holding 32-bit little-endian words that are
/// packed most significant bit first: bit `t` lives in word `t / 32`, at
/// word bit position `31 - t % 32`, and word bit `p` of word `k` is flat
/// buffer bit `32 * k + p`.
pub open spec fn word_bit(buf: Seq<u8>, t: int) -> bool {
    buf_bit(buf, 32 * (t / 32) + 31 - (t % 32))
}

/// The low `w` bits of `v` in most-significant-first order.
pub open spec fn msb_bits(v: u32, w: int) -> Seq<bool> {
    Seq::new(w as nat, |t: int| bit32(v, w - 1 - t))
}

/// Appending the four little-endian bytes of a word to a whole number of
/// words keeps every committed bit and commits the word's bits, most
/// significant first.
proof fn lemma_append_word(pre: Seq<u8>, post: Seq<u8>, p: u32)
    requires
        pre.len() % 4 == 0,
        post == pre + seq![p as u8, (p >> 8u32) as u8, (p >> 16u32) as u8, (p >> 24u32) as u8],
    ensures
        post.len() == pre.len() + 4,
        post.len() % 4 == 0,
        forall|t: int| 0 <= t < pre.len() * 8 ==> word_bit(post, t) == word_bit(pre, t),
        forall|t: int|
            0 <= t < 32 ==> #[trigger] word_bit(post, pre.len() * 8 + t) == bit32(p, 31 - t),
{
    let l = pre.len() as int;
    lemma_mul_div4(l);
    assert forall|t: int| 0 <= t < l * 8 implies word_bit(post, t) == word_bit(pre, t) by {
        lemma_div32_bounds(t, l / 4);
        let j = 32 * (t / 32) + 31 - (t % 32);
        assert(0 <= j < l * 8);
        lemma_div8_bounds(j, l);
        assert(post[j / 8] == pre[j / 8]);
    }
    assert forall|t: int| 0 <= t < 32 implies #[trigger] word_bit(post, l * 8 + t) == bit32(
        p,
        31 - t,
    ) by {
        lemma_div32_bounds(l * 8 + t, l / 4 + 1);
        assert((l * 8 + t) / 32 == l / 4 && (l * 8 + t) % 32 == t);
        let q = 31 - t;
        let j = l * 8 + q;
        lemma_div8_bounds(q, 4);
        let d = q / 8;
        let o = q % 8;
        assert(j == 8 * (l + d) + o);
        lemma_div8_bounds(j, l + 4);
        assert(j / 8 == l + d && j % 8 == o);
        if d == 0 {
            assert(post[l + d] == p as u8);
            lemma_u8_of_u32_bit(p, o as u8);
        } else if d == 1 {
            assert(post[l + d] == (p >> 8u32) as u8);
            lemma_u8_of_u32_bit(p >> 8u32, o as u8);
            lemma_u32_shr_bit(p, 8u32, o as u32);
        } else if d == 2 {
            assert(post[l + d] == (p >> 16u32) as u8);
            lemma_u8_of_u32_bit(p >> 16u32, o as u8);
            lemma_u32_shr_bit(p, 16u32, o as u32);
        } else {
            assert(post[l + d] == (p >> 24u32) as u8);
            lemma_u8_of_u32_bit(p >> 24u32, o as u8);
            lemma_u32_shr_bit(p, 24u32, o as u32);
        }
        assert(bit8(post[l + d], o) == bit32(p, q));
    }
}

/// The writing half of the word-accumulator engine, over an owned growable
/// buffer.
pub struct WordPacker {
    pub buff: Vec<u8>,
    pub pending: u32,
    pub used: usize,
}

impl WordPacker {
    /// The committed buffer holds whole words, the pending word holds `used`
    /// bits in its highest positions and zeros below them.
    pub open spec fn wf(&self) -> bool {
        &&& self.used < 32
        &&& self.buff@.len() % 4 == 0
        &&& forall|k: int| 0 <= k < 32 - self.used ==> !bit32(self.pending, k)
    }

    /// The total number of bits consumed: committed plus pending.
    pub open spec fn spec_sum_bits(&self) -> int {
        self.buff@.len() * 8 + self.used
    }

    /// The stream of bits written so far, committed words first, then the
    /// pending bits, most significant first.
    pub open spec fn stream(&self) -> Seq<bool> {
        Seq::new(
            (self.buff@.len() * 8 + self.used) as nat,
            |t: int|
                if t < self.buff@.len() * 8 {
                    word_bit(self.buff@, t)
                } else {
                    bit32(self.pending, 31 - (t - self.buff@.len() * 8))
                },
        )
    }

    /// Creates a packer with an empty buffer and an empty pending word.
    pub fn new() -> (r: Self)
        ensures
            r.wf(),
            r.stream() == Seq::<bool>::empty(),
            r.spec_sum_bits() == 0,
    {
        let r = WordPacker { buff: Vec::new(), pending: 0, used: 0 };
        proof {
            assert forall|k: int| 0 <= k < 32 implies !bit32(0u32, k) by {
                lemma_u32_zero_bit(k as u32);
            }
            assert(r.stream() =~= Seq::<bool>::empty());
        }
        r
    }

    /// The total number of bits consumed so far.
    pub fn sum_bits(&self) -> (r: usize)
        requires
            self.buff@.len() * 8 + 32 <= usize::MAX,
            self.used <= 32,
        ensures
            r == self.spec_sum_bits(),
    {
        self.buff.len() * 8 + self.used
    }

    /// The committed bytes: whole words only, pending bits are not visible
    /// until [`WordPacker::flush`].
    #[inline]
    pub fn as_slice(&self) -> (r: &[u8])
        ensures
            r@ == self.buff@,
    {
        self.buff.as_slice()
    }

    /// Hands the committed buffer to the caller.
    #[inline]
    pub fn into_vec(self) -> (r: Vec<u8>)
        ensures
            r@ == self.buff@,
    {
        self.buff
    }

    /// Appends the pending word to the buffer as four little-endian bytes
    /// and clears it.
    fn flush_word(&mut self)
        requires
            old(self).buff@.len() % 4 == 0,
            old(self).buff@.len() + 4 <= usize::MAX,
        ensures
            final(self).buff@.len() == old(self).buff@.len() + 4,
            final(self).buff@.len() % 4 == 0,
            final(self).pending == 0,
            final(self).used == 0,
            forall|t: int|
                0 <= t < old(self).buff@.len() * 8 ==> word_bit(final(self).buff@, t) == word_bit(
                    old(self).buff@,
                    t,
                ),
            forall|t: int|
                0 <= t < 32 ==> #[trigger] word_bit(final(self).buff@, old(self).buff@.len() * 8
                    + t) == bit32(old(self).pending, 31 - t),
    {
        let p: u32 = self.pending;
        let ghost pre = self.buff@;
        self.buff.push(p as u8);
        self.buff.push((p >> 8u32) as u8);
        self.buff.push((p >> 16u32) as u8);
        self.buff.push((p >> 24u32) as u8);
        self.pending = 0;
        self.used = 0;
        proof {
            assert(self.buff@ == pre + seq![
                p as u8,
                (p >> 8u32) as u8,
                (p >> 16u32) as u8,
                (p >> 24u32) as u8,
            ]);
            lemma_append_word(pre, self.buff@, p);
        }
    }

    /// Writes the low `bits` bits of `value`, most significant bits first,
    /// into the pending word, committing a full word to the buffer whenever
    /// the pending word fills up; a value may be split across that boundary.
    ///
    /// Only a width above [`MAX_BITS`] fails, and a failed call changes
    /// nothing. On success the bit stream grows by exactly the low `bits`
    /// bits of `value`, most significant first.
    pub fn write(&mut self, value: u32, bits: usize) -> (r: Result<(), usize>)
        requires
            old(self).wf(),
            old(self).buff@.len() * 8 + 64 <= usize::MAX,
        ensures
            final(self).wf(),
            r is Ok <==> bits <= MAX_BITS,
            r is Err ==> r == Err::<(), usize>(bits) && final(self).buff@ == old(self).buff@
                && final(self).pending == old(self).pending && final(self).used == old(self).used,
            r is Ok ==> final(self).stream() == old(self).stream() + msb_bits(value, bits as int)
                && final(self).spec_sum_bits() == old(self).spec_sum_bits() + bits,
    {
        if bits > MAX_BITS {
            return Err(bits);
        }
        let ghost pre = *self;
        let mut v: u32 = value;
        if bits < MAX_BITS {
            proof {
                lemma_mask_value(bits as u32);
            }
            v = v & ((1u32 << (bits as u32)) - 1);
        }
        let ghost v0 = v;
        proof {
            assert forall|k: int| 0 <= k < 32 implies #[trigger] bit32(v0, k) == (k < bits
                && bit32(value, k)) by {
                if bits < 32 {
                    lemma_u32_mask_bit(value, bits as u32, k as u32);
                }
            }
        }
        if bits == 0 {
            proof {
                assert(self.stream() =~= pre.stream() + msb_bits(value, 0));
            }
            return Ok(());
        }
        let free: usize = MAX_BITS - self.used;
        if bits <= free {
            let sh: usize = free - bits;
            let ghost p = self.pending;
            self.pending = self.pending | (v << (sh as u32));
            self.used = self.used + bits;
            proof {
                assert forall|k: int| 0 <= k < 32 implies #[trigger] bit32(self.pending, k) == (
                bit32(p, k) || (sh <= k && bit32(v0, k - sh))) by {
                    lemma_u32_or_bit(p, v0 << (sh as u32), k as u32);
                    lemma_u32_shl_bit(v0, sh as u32, k as u32);
                }
                assert forall|k: int| 0 <= k < 32 - self.used implies !bit32(self.pending, k) by {
                    assert(!bit32(p, k));
                }
                assert(self.stream().len() == pre.stream().len() + bits);
                assert forall|t: int| 0 <= t < self.stream().len() implies self.stream()[t] == (
                pre.stream() + msb_bits(value, bits as int))[t] by {
                    let l8 = pre.buff@.len() * 8;
                    if t >= l8 {
                        let u = t - l8;
                        assert(bit32(self.pending, 31 - u) == (bit32(p, 31 - u) || (sh <= 31 - u
                            && bit32(v0, 31 - u - sh))));
                        if u < pre.used {
                            assert(bit32(v0, 31 - u - sh) ==> 31 - u - sh < bits);
                        } else {
                            assert(!bit32(p, 31 - u));
                        }
                    }
                }
                assert(self.stream() =~= pre.stream() + msb_bits(value, bits as int));
            }
            if self.used == MAX_BITS {
                let ghost mid = *self;
                self.flush_word();
                proof {
                    assert forall|k: int| 0 <= k < 32 - self.used implies !bit32(
                        self.pending,
                        k,
                    ) by {
                        lemma_u32_zero_bit(k as u32);
                    }
                    assert(self.stream().len() == mid.stream().len());
                    assert forall|t: int| 0 <= t < self.stream().len() implies self.stream()[t]
                        == mid.stream()[t] by {
                        let l8 = mid.buff@.len() * 8;
                        if t >= l8 {
                            let s = t - l8;
                            assert(word_bit(self.buff@, mid.buff@.len() * 8 + s) == bit32(
                                mid.pending,
                                31 - s,
                            ));
                        }
                    }
                    assert(self.stream() =~= mid.stream());
                }
            }
            Ok(())
        } else {
            let lo_w: usize = bits - free;
            let hi: u32 = v >> (lo_w as u32);
            let ghost p = self.pending;
            self.pending = self.pending | hi;
            let ghost p1 = self.pending;
            proof {
                assert forall|k: int| 0 <= k < 32 implies #[trigger] bit32(p1, k) == (bit32(p, k)
                    || (k + lo_w < 32 && bit32(v0, k + lo_w))) by {
                    lemma_u32_or_bit(p, hi, k as u32);
                    lemma_u32_shr_bit(v0, lo_w as u32, k as u32);
                }
            }
            let ghost mid = *self;
            self.flush_word();
            proof {
                lemma_mask_value(lo_w as u32);
            }
            let lo: u32 = v & ((1u32 << (lo_w as u32)) - 1);
            self.pending = lo << ((MAX_BITS - lo_w) as u32);
            self.used = lo_w;
            proof {
                assert(lo == v0 & bv_mask32(lo_w as u32));
                assert forall|k: int| 0 <= k < 32 implies #[trigger] bit32(self.pending, k) == (32
                    - lo_w <= k && bit32(v0, k - (32 - lo_w))) by {
                    lemma_u32_shl_bit(lo, (32 - lo_w) as u32, k as u32);
                    if 32 - lo_w <= k {
                        lemma_u32_mask_bit(v0, lo_w as u32, (k - (32 - lo_w)) as u32);
                    }
                }
                assert forall|k: int| 0 <= k < 32 - self.used implies !bit32(self.pending, k) by {
                }
                assert(self.stream().len() == pre.stream().len() + bits);
                assert forall|t: int| 0 <= t < self.stream().len() implies self.stream()[t] == (
                pre.stream() + msb_bits(value, bits as int))[t] by {
                    let l8 = pre.buff@.len() * 8;
                    if l8 <= t < l8 + 32 {
                        let s = t - l8;
                        assert(word_bit(self.buff@, mid.buff@.len() * 8 + s) == bit32(
                            p1,
                            31 - s,
                        ));
                        assert(bit32(p1, 31 - s) == (bit32(p, 31 - s) || (31 - s + lo_w < 32
                            && bit32(v0, 31 - s + lo_w))));
                        if s < pre.used {
                            assert(bit32(v0, 31 - s + lo_w) ==> 31 - s + lo_w < bits);
                        } else {
                            assert(!bit32(p, 31 - s));
                        }
                    } else if t >= l8 + 32 {
                        let u = t - (l8 + 32);
                        assert(bit32(self.pending, 31 - u) == (32 - lo_w <= 31 - u && bit32(
                            v0,
                            31 - u - (32 - lo_w),
                        )));
                    }
                }
                assert(self.stream() =~= pre.stream() + msb_bits(value, bits as int));
            }
            Ok(())
        }
    }

    /// Commits the pending word, padded with zero bits, as a whole word.
    ///
    /// Required once after the last write of a session whose total bit count
    /// is not a multiple of 32. Calling it with an empty pending word is a
    /// no-op: it neither advances the cursor nor changes the buffer.
    pub fn flush(&mut self)
        requires
            old(self).wf(),
            old(self).buff@.len() + 4 <= usize::MAX,
        ensures
            final(self).wf(),
            old(self).used == 0 ==> final(self).buff@ == old(self).buff@ && final(self).pending
                == old(self).pending && final(self).used == old(self).used && final(self).stream()
                == old(self).stream(),
            old(self).used > 0 ==> {
                &&& final(self).used == 0
                &&& final(self).buff@.len() == old(self).buff@.len() + 4
                &&& final(self).stream().len() == old(self).stream().len() + (32 - old(self).used)
                &&& (forall|t: int|
                    0 <= t < old(self).stream().len() ==> final(self).stream()[t]
                        == old(self).stream()[t])
                &&& (forall|t: int|
                    old(self).stream().len() <= t < final(self).stream().len()
                        ==> !final(self).stream()[t])
            },
    {
        if self.used == 0 {
            return ;
        }
        let ghost pre = *self;
        self.flush_word();
        proof {
            assert forall|k: int| 0 <= k < 32 implies !bit32(0u32, k) by {
                lemma_u32_zero_bit(k as u32);
            }
            assert forall|t: int| 0 <= t < pre.stream().len() implies self.stream()[t]
                == pre.stream()[t] by {
                if t >= pre.buff@.len() * 8 {
                    assert(word_bit(self.buff@, pre.buff@.len() * 8 + (t - pre.buff@.len() * 8))
                        == bit32(pre.pending, 31 - (t - pre.buff@.len() * 8)));
                }
            }
            assert forall|t: int|
                pre.stream().len() <= t < self.stream().len() implies !self.stream()[t] by {
                let s = t - pre.buff@.len() * 8;
                assert(word_bit(self.buff@, pre.buff@.len() * 8 + s) == bit32(
                    pre.pending,
                    31 - s,
                ));
                assert(!bit32(pre.pending, 31 - s));
            }
        }
    }
}

/// The reading half of the word-accumulator engine, over a read-only
/// buffer whose useful length is a whole number of words: bytes past the
/// last whole word are never read.
pub struct WordUnpacker<'a> {
    pub buff: &'a [u8],
    pub cursor: usize,
    pub pending: u32,
    pub avail: usize,
}

impl<'a> WordUnpacker<'a> {
    /// The cursor stands on a word boundary behind the buffer's end, and the
    /// highest `avail` bits of the pending word are the buffer bits just
    /// before the cursor that were not yet handed out.
    pub open spec fn wf(&self) -> bool {
        &&& self.avail <= 32
        &&& self.cursor % 4 == 0
        &&& self.cursor <= self.buff@.len()
        &&& self.avail <= self.cursor * 8
        &&& forall|s: int|
            0 <= s < self.avail ==> #[trigger] bit32(self.pending, 31 - s) == word_bit(
                self.buff@,
                self.cursor * 8 - self.avail + s,
            )
    }

    /// The total number of bits consumed: loaded minus still pending.
    pub open spec fn spec_sum_bits(&self) -> int {
        self.cursor * 8 - self.avail
    }

    /// Creates an unpacker over `buff` with the cursor at the start.
    pub fn new(buff: &'a [u8]) -> (r: Self)
        ensures
            r.wf(),
            r.buff@ == buff@,
            r.spec_sum_bits() == 0,
    {
        WordUnpacker { buff, cursor: 0, pending: 0, avail: 0 }
    }

    /// The total number of bits consumed so far.
    pub fn sum_bits(&self) -> (r: usize)
        requires
            self.wf(),
            self.buff@.len() * 8 <= usize::MAX,
        ensures
            r == self.spec_sum_bits(),
    {
        self.cursor * BYTE_BITS - self.avail
    }

    /// Loads the next whole word from the buffer into the pending word.
    fn load_word(&mut self)
        requires
            old(self).wf(),
            old(self).avail == 0,
            old(self).cursor + 4 <= old(self).buff@.len(),
            old(self).buff@.len() * 8 <= usize::MAX,
        ensures
            final(self).wf(),
            final(self).buff == old(self).buff,
            final(self).avail == 32,
            final(self).spec_sum_bits() == old(self).spec_sum_bits(),
    {
        let c: usize = self.cursor;
        let b0: u32 = self.buff[c] as u32;
        let b1: u32 = self.buff[c + 1] as u32;
        let b2: u32 = self.buff[c + 2] as u32;
        let b3: u32 = self.buff[c + 3] as u32;
        self.pending = b0 | (b1 << 8u32) | (b2 << 16u32) | (b3 << 24u32);
        self.cursor = c + 4;
        self.avail = 32;
        proof {
            lemma_mul_div4(c as int);
            assert forall|s: int| 0 <= s < 32 implies #[trigger] bit32(self.pending, 31 - s)
                == word_bit(self.buff@, self.cursor * 8 - 32 + s) by {
                let q = 31 - s;
                lemma_u32_or_bit(b0, b1 << 8u32, q as u32);
                lemma_u32_or_bit(b0 | (b1 << 8u32), b2 << 16u32, q as u32);
                lemma_u32_or_bit((b0 | (b1 << 8u32)) | (b2 << 16u32), b3 << 24u32, q as u32);
                lemma_u32_shl_bit(b1, 8u32, q as u32);
                lemma_u32_shl_bit(b2, 16u32, q as u32);
                lemma_u32_shl_bit(b3, 24u32, q as u32);
                lemma_u32_of_u8_bit(self.buff@[c as int], q as u32);
                if q >= 8 {
                    lemma_u32_of_u8_bit(self.buff@[c as int + 1], (q - 8) as u32);
                }
                if q >= 16 {
                    lemma_u32_of_u8_bit(self.buff@[c as int + 2], (q - 16) as u32);
                }
                if q >= 24 {
                    lemma_u32_of_u8_bit(self.buff@[c as int + 3], (q - 24) as u32);
                }
                lemma_div8_bounds(q, 4);
                let d = q / 8;
                let o = q % 8;
                let j = c * 8 + q;
                assert(j == 8 * (c + d) + o);
                lemma_div8_bounds(j, self.buff@.len() as int);
                assert(j / 8 == c + d && j % 8 == o);
                assert(bit32(self.pending, q) == bit8(self.buff@[c + d], o));
                lemma_div32_bounds(c * 8 + s, c as int / 4 + 1);
                assert((c * 8 + s) / 32 == c as int / 4 && (c * 8 + s) % 32 == s);
                assert(word_bit(self.buff@, c * 8 + s) == buf_bit(self.buff@, c * 8 + q));
            }
        }
    }

    /// Reads `bits` bits at the cursor, most significant bits first, and
    /// advances the cursor by `bits`.
    ///
    /// Mirrors [`WordPacker::write`] over a buffer that the matching write
    /// session produced and flushed. The call fails with the requested width
    /// when that width exceeds [`MAX_BITS`] or the bits remaining in the
    /// buffer's whole words; a failed call leaves the cursor untouched. The
    /// buffer is never changed.
    pub fn read(&mut self, bits: usize) -> (r: Result<u32, usize>)
        requires
            old(self).wf(),
            old(self).buff@.len() * 8 + 32 <= usize::MAX,
        ensures
            final(self).wf(),
            final(self).buff == old(self).buff,
            r is Ok <==> (bits <= MAX_BITS && old(self).spec_sum_bits() + bits <= (old(self).buff@.len() / 4) * 32),
            r is Err ==> r == Err::<u32, usize>(bits) && final(self).cursor == old(self).cursor
                && final(self).pending == old(self).pending && final(self).avail == old(
                self,
            ).avail,
            r matches Ok(v) ==> {
                &&& (forall|t: int|
                    0 <= t < bits ==> #[trigger] bit32(v, bits - 1 - t) == word_bit(
                        old(self).buff@,
                        old(self).spec_sum_bits() + t,
                    ))
                &&& (forall|k: int| bits <= k < 32 ==> !bit32(v, k))
                &&& final(self).spec_sum_bits() == old(self).spec_sum_bits() + bits
            },
    {
        let cap: usize = (self.buff.len() / 4) * 32;
        let consumed: usize = self.cursor * BYTE_BITS - self.avail;
        if bits > MAX_BITS || cap < consumed + bits {
            return Err(bits);
        }
        let ghost pos0 = self.spec_sum_bits();
        if bits == 0 {
            proof {
                assert forall|k: int| 0 <= k < 32 implies !bit32(0u32, k) by {
                    lemma_u32_zero_bit(k as u32);
                }
            }
            return Ok(0);
        }
        let mut w: usize = bits;
        let mut out: u32 = 0;
        proof {
            assert forall|k: int| 0 <= k < 32 implies !bit32(out, k) by {
                lemma_u32_zero_bit(k as u32);
            }
        }
        while w > 0
            invariant
                self.wf(),
                self.buff == old(self).buff,
                self.buff@.len() * 8 + 32 <= usize::MAX,
                0 <= w <= bits <= 32,
                self.spec_sum_bits() == pos0 + (bits - w),
                pos0 + bits <= (self.buff@.len() / 4) * 32,
                forall|k: int|
                    0 <= k < 32 ==> (#[trigger] bit32(out, k) == (k < bits - w && word_bit(
                        self.buff@,
                        pos0 + (bits - w) - 1 - k,
                    ))),
            decreases w,
        {
            if self.avail == 0 {
                proof {
                    lemma_div4_floor(self.buff@.len() as int);
                    lemma_mul_div4(self.cursor as int);
                    assert(self.cursor as int / 4 < self.buff@.len() as int / 4);
                }
                self.load_word();
            }
            let take: usize = if w < self.avail {
                w
            } else {
                self.avail
            };
            let ghost outa = out;
            let ghost pa = self.pending;
            let ghost ava = self.avail;
            let ghost d = bits - w;
            let chunk: u32 = if take == MAX_BITS {
                self.pending
            } else {
                self.pending >> ((MAX_BITS - take) as u32)
            };
            out = if take == MAX_BITS {
                chunk
            } else {
                (out << (take as u32)) | chunk
            };
            self.pending = if take == MAX_BITS {
                0u32
            } else {
                self.pending << (take as u32)
            };
            self.avail = self.avail - take;
            w = w - take;
            proof {
                let cons = pos0 + d;
                if take == MAX_BITS {
                    assert(ava == 32 && d == 0 && w == 0);
                    assert forall|k: int| 0 <= k < 32 implies (#[trigger] bit32(out, k) == (k
                        < bits - w && word_bit(self.buff@, pos0 + (bits - w) - 1 - k))) by {
                        assert(bit32(pa, 31 - (31 - k)) == word_bit(self.buff@, cons + (31 - k)));
                    }
                    assert forall|s: int| 0 <= s < self.avail implies #[trigger] bit32(
                        self.pending,
                        31 - s,
                    ) == word_bit(self.buff@, self.cursor * 8 - self.avail + s) by {
                        lemma_u32_zero_bit((31 - s) as u32);
                    }
                } else {
                    assert forall|k: int| 0 <= k < 32 implies (#[trigger] bit32(out, k) == (k
                        < bits - w && word_bit(self.buff@, pos0 + (bits - w) - 1 - k))) by {
                        lemma_u32_or_bit(outa << (take as u32), chunk, k as u32);
                        lemma_u32_shl_bit(outa, take as u32, k as u32);
                        lemma_u32_shr_bit(pa, (32 - take) as u32, k as u32);
                        if k < take {
                            assert(bit32(chunk, k) == bit32(pa, 31 - (take - 1 - k)));
                            assert(bit32(pa, 31 - (take - 1 - k)) == word_bit(
                                self.buff@,
                                cons + (take - 1 - k),
                            ));
                        } else {
                            assert(bit32(chunk, k) == (k + (32 - take) < 32 && bit32(
                                pa,
                                k + (32 - take),
                            )));
                            assert(bit32(outa, k - take) == ((k - take) < d && word_bit(
                                self.buff@,
                                pos0 + d - 1 - (k - take),
                            )));
                        }
                    }
                    assert forall|s: int| 0 <= s < self.avail implies #[trigger] bit32(
                        self.pending,
                        31 - s,
                    ) == word_bit(self.buff@, self.cursor * 8 - self.avail + s) by {
                        lemma_u32_shl_bit(pa, take as u32, (31 - s) as u32);
                        assert(bit32(pa, 31 - (s + take)) == word_bit(
                            self.buff@,
                            self.cursor * 8 - ava + (s + take),
                        ));
                    }
                }
            }
        }
        proof {
            assert forall|t: int| 0 <= t < bits implies #[trigger] bit32(out, bits - 1 - t)
                == word_bit(old(self).buff@, pos0 + t) by {
                assert(bit32(out, bits - 1 - t) == ((bits - 1 - t) < bits && word_bit(
                    self.buff@,
                    pos0 + bits - 1 - (bits - 1 - t),
                )));
            }
        }
        Ok(out)
    }
}

} // verus!
