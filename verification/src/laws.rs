//! Laws relating the engines' operations, proved over the bit-level model.

use vstd::prelude::*;

use crate::accum::{msb_bits, word_bit};
use crate::bits::{
    bit32, buf_bit, bv_mask32, lemma_ceil8, lemma_div8_bounds, lemma_u32_bit_ext,
    lemma_u32_mask_bit, lemma_u8_zero_bit,
};
use crate::grow::grew;
use crate::pack::{read_back, wrote};

verus! {

/// The bit position where the `i`-th field of a record with the given
/// widths starts: the sum of the widths before it.
pub open spec fn pos_of(widths: Seq<usize>, i: int) -> int
    decreases i,
{
    if i <= 0 {
        0
    } else {
        pos_of(widths, i - 1) + widths[i - 1]
    }
}

/// Every bit of the buffer at or past position `from` is clear.
pub open spec fn clear_from(buf: Seq<u8>, from: int) -> bool {
    forall|j: int| from <= j < buf.len() * 8 ==> !buf_bit(buf, j)
}

/// A buffer of zero bytes has no bit set.
pub proof fn lemma_zero_bytes_clear(buf: Seq<u8>)
    requires
        forall|i: int| 0 <= i < buf.len() ==> buf[i] == 0u8,
    ensures
        clear_from(buf, 0),
{
    assert forall|j: int| 0 <= j < buf.len() * 8 implies !buf_bit(buf, j) by {
        lemma_div8_bounds(j, buf.len() as int);
        assert(buf[j / 8] == 0u8);
        lemma_u8_zero_bit((j % 8) as u8);
    }
}

/// Field positions grow with the field index.
pub proof fn lemma_pos_of_mono(widths: Seq<usize>, i: int, j: int)
    requires
        0 <= i <= j <= widths.len(),
    ensures
        pos_of(widths, i) <= pos_of(widths, j),
    decreases j - i,
{
    if i < j {
        lemma_pos_of_mono(widths, i, j - 1);
    }
}

/// After the first `m` fields are written in order into a buffer whose bits
/// were all clear, the buffer holds each written field's bits at its
/// position and is still clear from the end of the last field on.
#[verifier::rlimit(50)]
proof fn lemma_write_chain(bufs: Seq<Seq<u8>>, values: Seq<u32>, widths: Seq<usize>, m: int)
    requires
        bufs.len() == widths.len() + 1,
        values.len() == widths.len(),
        clear_from(bufs[0], 0),
        forall|i: int| 0 <= i < widths.len() ==> #[trigger] widths[i] <= 32,
        pos_of(widths, widths.len() as int) <= bufs[0].len() * 8,
        forall|i: int|
            0 <= i < widths.len() ==> #[trigger] wrote(
                bufs[i],
                bufs[i + 1],
                pos_of(widths, i),
                values[i],
                widths[i] as int,
            ),
        0 <= m <= widths.len(),
    ensures
        bufs[m].len() == bufs[0].len(),
        clear_from(bufs[m], pos_of(widths, m)),
        forall|i: int, k: int|
            #![trigger pos_of(widths, i), bit32(values[i], k)]
            0 <= i < m && 0 <= k < widths[i] ==> buf_bit(bufs[m], pos_of(widths, i) + k) == bit32(
                values[i],
                k,
            ),
    decreases m,
{
    if m > 0 {
        lemma_write_chain(bufs, values, widths, m - 1);
        let pre = bufs[m - 1];
        let post = bufs[m];
        let pos = pos_of(widths, m - 1);
        let w = widths[m - 1] as int;
        let i0 = m - 1;
        assert(wrote(bufs[i0], bufs[i0 + 1], pos_of(widths, i0), values[i0], widths[i0] as int));
        assert(wrote(pre, post, pos, values[m - 1], w));
        lemma_pos_of_mono(widths, m, widths.len() as int);
        assert(pos + w == pos_of(widths, m));
        assert(clear_from(post, pos_of(widths, m))) by {
            assert forall|j: int| pos_of(widths, m) <= j < post.len() * 8 implies !buf_bit(
                post,
                j,
            ) by {
                assert(buf_bit(post, j) == (buf_bit(pre, j) || (pos <= j < pos + w && bit32(
                    values[m - 1],
                    j - pos,
                ))));
            }
        }
        assert forall|i: int, k: int|
            #![trigger pos_of(widths, i), bit32(values[i], k)]
            0 <= i < m && 0 <= k < widths[i] implies buf_bit(bufs[m], pos_of(widths, i) + k)
            == bit32(values[i], k) by {
            let p = pos_of(widths, i) + k;
            assert(pos_of(widths, i) + widths[i] == pos_of(widths, i + 1));
            lemma_pos_of_mono(widths, 0, i);
            lemma_pos_of_mono(widths, i + 1, widths.len() as int);
            assert(0 <= p < pre.len() * 8);
            assert(buf_bit(post, p) == (buf_bit(pre, p) || (pos <= p < pos + w && bit32(
                values[m - 1],
                p - pos,
            ))));
            if i < m - 1 {
                lemma_pos_of_mono(widths, i + 1, m - 1);
                assert(p < pos_of(widths, i + 1) <= pos);
                assert(buf_bit(pre, p) == bit32(values[i], k));
            } else {
                assert(!buf_bit(pre, p));
            }
        }
    }
}

/// Round-trip law: writing any sequence of `(value, width)` fields in order
/// into a buffer whose bits are all clear, and then reading the same
/// sequence of widths back from the result, yields every value masked to
/// its width.
pub proof fn lemma_round_trip(
    bufs: Seq<Seq<u8>>,
    values: Seq<u32>,
    widths: Seq<usize>,
    reads: Seq<u32>,
)
    requires
        bufs.len() == widths.len() + 1,
        values.len() == widths.len(),
        reads.len() == widths.len(),
        clear_from(bufs[0], 0),
        forall|i: int| 0 <= i < widths.len() ==> 1 <= #[trigger] widths[i] <= 32,
        pos_of(widths, widths.len() as int) <= bufs[0].len() * 8,
        forall|i: int|
            0 <= i < widths.len() ==> #[trigger] wrote(
                bufs[i],
                bufs[i + 1],
                pos_of(widths, i),
                values[i],
                widths[i] as int,
            ),
        forall|i: int|
            0 <= i < widths.len() ==> read_back(
                bufs[widths.len() as int],
                pos_of(widths, i),
                widths[i] as int,
                #[trigger] reads[i],
            ),
    ensures
        forall|i: int|
            0 <= i < widths.len() ==> #[trigger] reads[i] == values[i] & bv_mask32(
                widths[i] as u32,
            ),
{
    let n = widths.len() as int;
    lemma_write_chain(bufs, values, widths, n);
    assert forall|i: int| 0 <= i < n implies #[trigger] reads[i] == values[i] & bv_mask32(
        widths[i] as u32,
    ) by {
        let w = widths[i] as int;
        let masked = values[i] & bv_mask32(widths[i] as u32);
        assert forall|k: int| 0 <= k < 32 implies bit32(reads[i], k) == bit32(masked, k) by {
            lemma_u32_mask_bit(values[i], widths[i] as u32, k as u32);
            if k < w {
                assert(buf_bit(bufs[n], pos_of(widths, i) + k) == bit32(values[i], k));
                assert(bit32(reads[i], k) == buf_bit(bufs[n], pos_of(widths, i) + k));
            } else {
                assert(!bit32(reads[i], k));
            }
        }
        lemma_u32_bit_ext(reads[i], masked);
    }
}

/// Masking law: a write stores only the low `width` bits of the value — it
/// leaves the buffer exactly as the same write with the value masked
/// beforehand would.
pub proof fn lemma_masking(pre: Seq<u8>, post: Seq<u8>, pos: int, value: u32, width: usize)
    requires
        width <= 32,
        wrote(pre, post, pos, value, width as int),
    ensures
        wrote(pre, post, pos, value & bv_mask32(width as u32), width as int),
{
    assert forall|j: int| 0 <= j < pre.len() * 8 implies buf_bit(post, j) == (buf_bit(pre, j) || (
    pos <= j < pos + width && bit32(value & bv_mask32(width as u32), j - pos))) by {
        assert(buf_bit(post, j) == (buf_bit(pre, j) || (pos <= j < pos + width && bit32(
            value,
            j - pos,
        ))));
        if pos <= j < pos + width {
            lemma_u32_mask_bit(value, width as u32, (j - pos) as u32);
        }
    }
}

/// Growth law: writing a sequence of fields against an initially empty
/// growable buffer leaves exactly as many bytes as the least whole number
/// that holds the total bit count, and every bit at or past that count is
/// zero.
pub proof fn lemma_growth(bufs: Seq<Seq<u8>>, values: Seq<u32>, widths: Seq<usize>)
    requires
        bufs.len() == widths.len() + 1,
        values.len() == widths.len(),
        bufs[0].len() == 0,
        forall|i: int| 0 <= i < widths.len() ==> #[trigger] widths[i] <= 32,
        forall|i: int|
            0 <= i < widths.len() ==> #[trigger] grew(
                bufs[i],
                bufs[i + 1],
                pos_of(widths, i),
                values[i],
                widths[i] as int,
            ),
    ensures
        bufs[widths.len() as int].len() == (pos_of(widths, widths.len() as int) + 7) / 8,
        clear_from(bufs[widths.len() as int], pos_of(widths, widths.len() as int)),
{
    lemma_growth_chain(bufs, values, widths, widths.len() as int);
}

proof fn lemma_growth_chain(bufs: Seq<Seq<u8>>, values: Seq<u32>, widths: Seq<usize>, m: int)
    requires
        bufs.len() == widths.len() + 1,
        values.len() == widths.len(),
        bufs[0].len() == 0,
        forall|i: int| 0 <= i < widths.len() ==> #[trigger] widths[i] <= 32,
        forall|i: int|
            0 <= i < widths.len() ==> #[trigger] grew(
                bufs[i],
                bufs[i + 1],
                pos_of(widths, i),
                values[i],
                widths[i] as int,
            ),
        0 <= m <= widths.len(),
    ensures
        bufs[m].len() == (pos_of(widths, m) + 7) / 8,
        clear_from(bufs[m], pos_of(widths, m)),
    decreases m,
{
    lemma_pos_of_mono(widths, 0, m);
    if m > 0 {
        lemma_growth_chain(bufs, values, widths, m - 1);
        let pre = bufs[m - 1];
        let post = bufs[m];
        let pos = pos_of(widths, m - 1);
        let w = widths[m - 1] as int;
        let i0 = m - 1;
        assert(grew(bufs[i0], bufs[i0 + 1], pos_of(widths, i0), values[i0], widths[i0] as int));
        assert(grew(pre, post, pos, values[m - 1], w));
        lemma_pos_of_mono(widths, 0, m - 1);
        lemma_ceil8(pos);
        lemma_ceil8(pos + w);
        assert(post.len() == (pos + w + 7) / 8);
        assert(clear_from(post, pos_of(widths, m))) by {
            assert forall|j: int| pos + w <= j < post.len() * 8 implies !buf_bit(post, j) by {
                assert(buf_bit(post, j) == ((j < pre.len() * 8 && buf_bit(pre, j)) || (pos <= j
                    < pos + w && bit32(values[m - 1], j - pos))));
            }
        }
    }
}

/// The bit stream that the first `m` fields of a word-accumulator write
/// session produce: the fields' bits in order, each most significant bit
/// first.
pub open spec fn msb_stream(values: Seq<u32>, widths: Seq<usize>, m: int) -> Seq<bool>
    decreases m,
{
    if m <= 0 {
        Seq::empty()
    } else {
        msb_stream(values, widths, m - 1) + msb_bits(values[m - 1], widths[m - 1] as int)
    }
}

/// The stream of the first `m` fields is as long as their widths add up to.
pub proof fn lemma_msb_stream_len(values: Seq<u32>, widths: Seq<usize>, m: int)
    requires
        0 <= m <= widths.len(),
    ensures
        msb_stream(values, widths, m).len() == pos_of(widths, m),
    decreases m,
{
    if m > 0 {
        lemma_msb_stream_len(values, widths, m - 1);
    }
}

proof fn lemma_msb_stream_index(values: Seq<u32>, widths: Seq<usize>, i: int, m: int, t: int)
    requires
        0 <= i < m <= widths.len(),
        0 <= t < widths[i],
    ensures
        msb_stream(values, widths, m)[pos_of(widths, i) + t] == bit32(
            values[i],
            widths[i] - 1 - t,
        ),
    decreases m,
{
    lemma_msb_stream_len(values, widths, m - 1);
    lemma_pos_of_mono(widths, 0, i);
    if i == m - 1 {
        assert(msb_bits(values[i], widths[i] as int)[t] == bit32(values[i], widths[i] - 1 - t));
    } else {
        lemma_msb_stream_index(values, widths, i, m - 1, t);
        assert(pos_of(widths, i) + widths[i] == pos_of(widths, i + 1));
        lemma_pos_of_mono(widths, i + 1, m - 1);
    }
}

/// Round-trip law for the word-accumulator engine: a write session appends
/// each field's bits to the stream, most significant bits first, and once
/// that stream stands committed in a buffer, reading the same sequence of
/// widths back yields every value masked to its width.
pub proof fn lemma_word_round_trip(
    buf: Seq<u8>,
    values: Seq<u32>,
    widths: Seq<usize>,
    reads: Seq<u32>,
)
    requires
        values.len() == widths.len(),
        reads.len() == widths.len(),
        forall|i: int| 0 <= i < widths.len() ==> #[trigger] widths[i] <= 32,
        forall|t: int|
            0 <= t < pos_of(widths, widths.len() as int) ==> #[trigger] word_bit(buf, t)
                == msb_stream(values, widths, widths.len() as int)[t],
        forall|i: int, t: int|
            0 <= i < widths.len() && 0 <= t < widths[i] ==> #[trigger] bit32(
                reads[i],
                widths[i] - 1 - t,
            ) == word_bit(buf, pos_of(widths, i) + t),
        forall|i: int, k: int|
            0 <= i < widths.len() && widths[i] <= k < 32 ==> !(#[trigger] bit32(reads[i], k)),
    ensures
        forall|i: int|
            0 <= i < widths.len() ==> #[trigger] reads[i] == values[i] & bv_mask32(
                widths[i] as u32,
            ),
{
    let n = widths.len() as int;
    lemma_msb_stream_len(values, widths, n);
    assert forall|i: int| 0 <= i < n implies #[trigger] reads[i] == values[i] & bv_mask32(
        widths[i] as u32,
    ) by {
        let w = widths[i] as int;
        let masked = values[i] & bv_mask32(widths[i] as u32);
        assert forall|k: int| 0 <= k < 32 implies bit32(reads[i], k) == bit32(masked, k) by {
            lemma_u32_mask_bit(values[i], widths[i] as u32, k as u32);
            if k < w {
                let t = w - 1 - k;
                lemma_msb_stream_index(values, widths, i, n, t);
                lemma_pos_of_mono(widths, 0, i);
                assert(pos_of(widths, i) + widths[i] == pos_of(widths, i + 1));
                lemma_pos_of_mono(widths, i + 1, n);
                assert(word_bit(buf, pos_of(widths, i) + t) == msb_stream(values, widths, n)[
                    pos_of(widths, i) + t]);
                assert(bit32(reads[i], widths[i] - 1 - t) == word_bit(
                    buf,
                    pos_of(widths, i) + t,
                ));
            }
        }
        lemma_u32_bit_ext(reads[i], masked);
    }
}

} // verus!
