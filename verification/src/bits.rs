//! Bit-level model of packed buffers.
//!
//! A buffer is viewed as a flat sequence of bits: bytes in order, least
//! significant bit first inside each byte. All contracts of the byte-cursor
//! engine are stated over this model.

use vstd::prelude::*;

verus! {

/// Bit `i` of a 32-bit value, for a machine index.
pub open spec fn bv_bit32(v: u32, i: u32) -> bool {
    (v >> i) & 1 == 1
}

/// Bit `i` of a byte, for a machine index.
pub open spec fn bv_bit8(b: u8, i: u8) -> bool {
    (b >> i) & 1 == 1
}

/// Bit `i` of a 32-bit value, for a mathematical index; false outside 0..32.
pub open spec fn bit32(v: u32, i: int) -> bool {
    0 <= i < 32 && bv_bit32(v, i as u32)
}

/// Bit `i` of a byte, for a mathematical index; false outside 0..8.
pub open spec fn bit8(b: u8, i: int) -> bool {
    0 <= i < 8 && bv_bit8(b, i as u8)
}

/// Bit `i` of a byte sequence: bytes in order, LSB first inside a byte.
pub open spec fn buf_bit(buf: Seq<u8>, i: int) -> bool {
    0 <= i < buf.len() * 8 && bit8(buf[i / 8], i % 8)
}

/// The 32-bit value whose low `w` bits are set.
pub open spec fn bv_mask32(w: u32) -> u32 {
    if w >= 32 {
        0xffff_ffffu32
    } else {
        !(0xffff_ffffu32 << w)
    }
}

/// Splitting a flat bit index into a byte index and an offset inside the byte.
pub proof fn lemma_bit_index(c: int, o: int)
    by (nonlinear_arith)
    requires
        0 <= o < 8,
        0 <= c,
    ensures
        (8 * c + o) / 8 == c,
        (8 * c + o) % 8 == o,
{
}

/// Bits of a bitwise or of bytes.
pub proof fn lemma_u8_or_bit(a: u8, b: u8, t: u8)
    by (bit_vector)
    ensures
        bv_bit8(a | b, t) == (bv_bit8(a, t) || bv_bit8(b, t)),
{
}

/// Bits of a left-shifted byte.
pub proof fn lemma_u8_shl_bit(c: u8, s: u8, t: u8)
    by (bit_vector)
    requires
        s < 8,
        t < 8,
    ensures
        bv_bit8(c << s, t) == (s <= t && bv_bit8(c, (t - s) as u8)),
{
}

/// Truncating a 32-bit value to a byte keeps the low eight bits.
pub proof fn lemma_u8_of_u32_bit(v: u32, t: u8)
    by (bit_vector)
    requires
        t < 8,
    ensures
        bv_bit8(v as u8, t) == bv_bit32(v, t as u32),
{
}

/// Widening a byte to 32 bits keeps its bits and adds zeros above.
pub proof fn lemma_u32_of_u8_bit(b: u8, k: u32)
    by (bit_vector)
    ensures
        bv_bit32(b as u32, k) == (k < 8 && bv_bit8(b, k as u8)),
{
}

/// Bits of a bitwise or of 32-bit values.
pub proof fn lemma_u32_or_bit(a: u32, b: u32, k: u32)
    by (bit_vector)
    ensures
        bv_bit32(a | b, k) == (bv_bit32(a, k) || bv_bit32(b, k)),
{
}

/// Bits of a masked 32-bit value.
pub proof fn lemma_u32_mask_bit(v: u32, w: u32, k: u32)
    by (bit_vector)
    ensures
        bv_bit32(v & bv_mask32(w), k) == (k < w && bv_bit32(v, k)),
{
}

/// Bits of a right-shifted 32-bit value.
pub proof fn lemma_u32_shr_bit(v: u32, s: u32, k: u32)
    by (bit_vector)
    requires
        s < 32,
    ensures
        bv_bit32(v >> s, k) == (k + s < 32 && bv_bit32(v, (k + s) as u32)),
{
}

/// Bits of a left-shifted 32-bit value.
pub proof fn lemma_u32_shl_bit(v: u32, s: u32, k: u32)
    by (bit_vector)
    requires
        s < 32,
        k < 32,
    ensures
        bv_bit32(v << s, k) == (s <= k && bv_bit32(v, (k - s) as u32)),
{
}

/// The executable mask expression equals the mask of the model.
pub proof fn lemma_mask_value(w: u32)
    by (bit_vector)
    requires
        w < 32,
    ensures
        1u32 << w >= 1,
        ((1u32 << w) - 1) as u32 == bv_mask32(w),
{
}

/// A zero byte has no bits set.
pub proof fn lemma_u8_zero_bit(t: u8)
    by (bit_vector)
    ensures
        !bv_bit8(0u8, t),
{
}

/// A zero 32-bit value has no bits set.
pub proof fn lemma_u32_zero_bit(k: u32)
    by (bit_vector)
    ensures
        !bv_bit32(0u32, k),
{
}

/// Dividing by eight distributes over adding a multiple of eight.
pub proof fn lemma_div8_shift(a: int, k: int)
    by (nonlinear_arith)
    requires
        0 <= a,
        0 <= k,
    ensures
        (a + 8 * k) / 8 == a / 8 + k,
{
}

/// Rounding up to a whole number of bytes covers `x` bits and wastes less
/// than a byte.
pub proof fn lemma_ceil8(x: int)
    by (nonlinear_arith)
    requires
        0 <= x,
    ensures
        x <= ((x + 7) / 8) * 8 < x + 8,
{
}

/// Bounds of the word index and bit offset of a flat bit index counted in
/// 32-bit words.
pub proof fn lemma_div32_bounds(i: int, n: int)
    by (nonlinear_arith)
    requires
        0 <= i < n * 32,
    ensures
        0 <= i / 32 < n,
        0 <= i % 32 < 32,
        i == 32 * (i / 32) + i % 32,
{
}

/// A length holds its whole words and less than one more.
pub proof fn lemma_div4_floor(l: int)
    by (nonlinear_arith)
    requires
        0 <= l,
    ensures
        4 * (l / 4) <= l < 4 * (l / 4) + 4,
{
}

/// A length that is a whole number of words is four times its word count.
pub proof fn lemma_mul_div4(l: int)
    by (nonlinear_arith)
    requires
        0 <= l,
        l % 4 == 0,
    ensures
        l == 4 * (l / 4),
{
}

/// Bounds of the byte index and bit offset of a flat bit index.
pub proof fn lemma_div8_bounds(j: int, n: int)
    by (nonlinear_arith)
    requires
        0 <= j < n * 8,
    ensures
        0 <= j / 8 < n,
        0 <= j % 8 < 8,
        j == 8 * (j / 8) + j % 8,
{
}

proof fn lemma_ext_step(x: u32, y: u32, m: u32, n: u32)
    by (bit_vector)
    requires
        m < 32,
        n == m + 1,
        x & bv_mask32(m) == y & bv_mask32(m),
        bv_bit32(x, m) == bv_bit32(y, m),
    ensures
        x & bv_mask32(n) == y & bv_mask32(n),
{
}

proof fn lemma_ext_rec(x: u32, y: u32, n: u32)
    requires
        n <= 32,
        forall|k: u32| k < n ==> bv_bit32(x, k) == bv_bit32(y, k),
    ensures
        x & bv_mask32(n) == y & bv_mask32(n),
    decreases n,
{
    if n == 0 {
        assert(x & bv_mask32(0) == y & bv_mask32(0)) by (bit_vector);
    } else {
        let m: u32 = (n - 1) as u32;
        lemma_ext_rec(x, y, m);
        assert(bv_bit32(x, m) == bv_bit32(y, m));
        lemma_ext_step(x, y, m, n);
    }
}

/// Two 32-bit values with the same bits are equal.
pub proof fn lemma_u32_bit_ext(x: u32, y: u32)
    requires
        forall|k: int| 0 <= k < 32 ==> bit32(x, k) == bit32(y, k),
    ensures
        x == y,
{
    assert forall|k: u32| k < 32 implies bv_bit32(x, k) == bv_bit32(y, k) by {
        assert(bit32(x, k as int) == bit32(y, k as int));
    }
    lemma_ext_rec(x, y, 32);
    assert(x & bv_mask32(32) == x) by (bit_vector);
    assert(y & bv_mask32(32) == y) by (bit_vector);
}

/// Masking a value whose bits already lie below `w` changes nothing.
pub proof fn lemma_mask_noop(v: u32, w: u32)
    requires
        forall|k: int| 0 <= k < 32 ==> (#[trigger] bit32(v, k) ==> k < w),
    ensures
        v & bv_mask32(w) == v,
{
    assert forall|k: int| 0 <= k < 32 implies bit32(v & bv_mask32(w), k) == bit32(v, k) by {
        lemma_u32_mask_bit(v, w, k as u32);
        assert(bit32(v, k) ==> k < w);
    }
    lemma_u32_bit_ext(v & bv_mask32(w), v);
}

/// Bits of a byte after a chunk of `v`, masked to `cw` bits, is or-ed into
/// it at offset `off`.
pub proof fn lemma_byte_or_chunk(b0: u8, v: u32, cw: u32, off: u8, t: int)
    requires
        off < 8,
        0 <= t < 8,
    ensures
        bit8(b0 | (((v & bv_mask32(cw)) as u8) << off), t) == (bit8(b0, t) || (off <= t && t
            - off < cw && bit32(v, t - off))),
{
    let chunk32 = v & bv_mask32(cw);
    let chunk8 = chunk32 as u8;
    lemma_u8_or_bit(b0, chunk8 << off, t as u8);
    lemma_u8_shl_bit(chunk8, off, t as u8);
    if off <= t {
        lemma_u8_of_u32_bit(chunk32, (t - off) as u8);
        lemma_u32_mask_bit(v, cw, (t - off) as u32);
    }
}

/// Bits of a chunk extracted from byte `b`: the byte is widened, shifted
/// right by `off` and masked to its low `cw` bits.
pub proof fn lemma_read_chunk(b: u8, off: u32, cw: u32, t: int)
    requires
        off < 32,
        0 <= t < 32,
    ensures
        bit32(((b as u32) >> off) & bv_mask32(cw), t) == (t < cw && t + off < 8 && bit8(
            b,
            t + off,
        )),
{
    lemma_u32_mask_bit((b as u32) >> off, cw, t as u32);
    lemma_u32_shr_bit(b as u32, off, t as u32);
    if t + off < 32 {
        lemma_u32_of_u8_bit(b, (t + off) as u32);
    }
}

/// Effect on the flat bit view of or-ing a chunk of `v`, masked to `cw`
/// bits, into byte `c` at offset `off`.
pub proof fn lemma_buf_write_chunk(pre: Seq<u8>, post: Seq<u8>, c: int, off: int, v: u32, cw: int)
    requires
        0 <= c < pre.len(),
        0 <= off < 8,
        0 <= cw,
        off + cw <= 8,
        post == pre.update(c, pre[c] | (((v & bv_mask32(cw as u32)) as u8) << (off as u8))),
    ensures
        post.len() == pre.len(),
        forall|j: int|
            0 <= j < pre.len() * 8 ==> buf_bit(post, j) == (buf_bit(pre, j) || (8 * c + off <= j
                < 8 * c + off + cw && bit32(v, j - (8 * c + off)))),
{
    assert forall|j: int| 0 <= j < pre.len() * 8 implies buf_bit(post, j) == (buf_bit(pre, j) || (
    8 * c + off <= j < 8 * c + off + cw && bit32(v, j - (8 * c + off)))) by {
        lemma_div8_bounds(j, pre.len() as int);
        let q = j / 8;
        let t = j % 8;
        if q == c {
            lemma_byte_or_chunk(pre[c], v, cw as u32, off as u8, t);
            assert(post[q] == pre[c] | (((v & bv_mask32(cw as u32)) as u8) << (off as u8)));
        } else {
            assert(post[q] == pre[q]);
        }
    }
}

} // verus!
