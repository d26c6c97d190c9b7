//! Preview thumbnail decoder.
//!
//! The preview is an 8-bit grayscale image stored, run-length encoded, at
//! the end of an image chunk. Each marker byte has a type in its top two
//! bits and a count in its low six bits:
//! type 0 emits `count * 4` white (0) pixels, type 1 emits `count * 4`
//! black (0xFF) pixels, type 2 is followed by `count` literal bytes of four
//! 2-bit samples each (scaled by 85), type 3 is counted and otherwise
//! ignored.

use vstd::prelude::*;
use crate::chunks::{ChunkRef, le_u16, read_u16_at, MAX_PREVIEW_PIXELS};
use crate::decoder::{Preview, line_bytes_of, row_bytes_of};
use crate::bitstream::lemma_pow2_mono;
use vstd::arithmetic::power2::{pow2, lemma2_to64, lemma_pow2_unfold};

verus! {

/// The four grayscale pixels of a type-2 literal byte.
pub open spec fn literal_pixels(b: u8) -> Seq<u8> {
    seq![
        (((b >> 6u8) & 3u8) * 85) as u8,
        (((b >> 4u8) & 3u8) * 85) as u8,
        (((b >> 2u8) & 3u8) * 85) as u8,
        ((b & 3u8) * 85) as u8,
    ]
}

/// The pixels of consecutive literal bytes.
pub open spec fn literals_pixels(bytes: Seq<u8>) -> Seq<u8>
    decreases bytes.len(),
{
    if bytes.len() == 0 {
        Seq::empty()
    } else {
        literals_pixels(bytes.drop_last()) + literal_pixels(bytes.last())
    }
}

/// The RLE decoder from byte `pos` with `out` decoded so far: stops at
/// `end` or once `total` pixels are out. Returns the pixels (not yet cut
/// to `total`) and the number of type-3 markers.
pub open spec fn rle_run(buf: Seq<u8>, end: int, total: int, pos: int, out: Seq<u8>, type3: int) -> (
    Seq<u8>,
    int,
)
    decreases end - pos,
{
    if pos >= end || out.len() >= total {
        (out, type3)
    } else {
        let ch = buf[pos];
        let typ = ch / 64;
        let count = (ch % 64) as int;
        let pos1 = pos + 1;
        if typ == 0 {
            rle_run(buf, end, total, pos1, out + Seq::new((count * 4) as nat, |i: int| 0u8), type3)
        } else if typ == 1 {
            rle_run(buf, end, total, pos1, out + Seq::new((count * 4) as nat, |i: int| 0xFFu8), type3)
        } else if typ == 2 {
            let k = if count <= end - pos1 { count } else { end - pos1 };
            rle_run(
                buf,
                end,
                total,
                pos1 + k,
                out + literals_pixels(buf.subrange(pos1, pos1 + k)),
                type3,
            )
        } else {
            rle_run(buf, end, total, pos1, out, type3 + 1)
        }
    }
}

/// Decoded preview pixels, cut to `total_pixels`, and the count of
/// type-3 markers, reading at most `max_bytes` bytes of `buf`.
pub open spec fn spec_decode_preview_rle(buf: Seq<u8>, total_pixels: int, max_bytes: int) -> (
    Seq<u8>,
    int,
) {
    let end = if max_bytes <= buf.len() { max_bytes } else { buf.len() as int };
    let r = rle_run(buf, end, total_pixels, 0, Seq::empty(), 0);
    (if r.0.len() > total_pixels { r.0.take(total_pixels) } else { r.0 }, r.1)
}

/// The four gray levels a preview pixel can take.
pub open spec fn is_preview_level(v: u8) -> bool {
    v == 0 || v == 85 || v == 170 || v == 255
}

/// Every pixel of `s` is one of the four gray levels.
pub open spec fn all_preview_levels(s: Seq<u8>) -> bool {
    forall|i: int| 0 <= i < s.len() ==> #[trigger] is_preview_level(s[i])
}

proof fn lemma_literal_levels(b: u8)
    ensures
        all_preview_levels(literal_pixels(b)),
{
    let a0 = (b >> 6u8) & 3u8;
    let a1 = (b >> 4u8) & 3u8;
    let a2 = (b >> 2u8) & 3u8;
    let a3 = b & 3u8;
    assert(a0 <= 3u8 && a1 <= 3u8 && a2 <= 3u8 && a3 <= 3u8) by (bit_vector)
        requires
            a0 == (b >> 6u8) & 3u8,
            a1 == (b >> 4u8) & 3u8,
            a2 == (b >> 2u8) & 3u8,
            a3 == b & 3u8,
    ;
    let p = literal_pixels(b);
    assert(p[0] == (a0 * 85) as u8 && p[1] == (a1 * 85) as u8);
    assert(p[2] == (a2 * 85) as u8 && p[3] == (a3 * 85) as u8);
}

proof fn lemma_literals_levels(bytes: Seq<u8>)
    ensures
        all_preview_levels(literals_pixels(bytes)),
    decreases bytes.len(),
{
    if bytes.len() > 0 {
        lemma_literals_levels(bytes.drop_last());
        lemma_literal_levels(bytes.last());
        let a = literals_pixels(bytes.drop_last());
        let b = literal_pixels(bytes.last());
        assert forall|i: int| 0 <= i < (a + b).len() implies #[trigger] is_preview_level((a + b)[i]) by {
            if i < a.len() {
                assert(is_preview_level(a[i]));
            } else {
                assert(is_preview_level(b[i - a.len()]));
            }
        }
    }
}

proof fn lemma_rle_levels(buf: Seq<u8>, end: int, total: int, pos: int, out: Seq<u8>, type3: int)
    requires
        0 <= pos,
        end <= buf.len(),
        all_preview_levels(out),
    ensures
        all_preview_levels(rle_run(buf, end, total, pos, out, type3).0),
    decreases end - pos,
{
    if pos >= end || out.len() >= total {
    } else {
        let ch = buf[pos];
        let typ = ch / 64;
        let count = (ch % 64) as int;
        let pos1 = pos + 1;
        if typ == 0 {
            let add = Seq::new((count * 4) as nat, |i: int| 0u8);
            assert forall|i: int| 0 <= i < (out + add).len() implies #[trigger] is_preview_level((out + add)[i]) by {
                if i < out.len() {
                    assert(is_preview_level(out[i]));
                }
            }
            lemma_rle_levels(buf, end, total, pos1, out + add, type3);
        } else if typ == 1 {
            let add = Seq::new((count * 4) as nat, |i: int| 0xFFu8);
            assert forall|i: int| 0 <= i < (out + add).len() implies #[trigger] is_preview_level((out + add)[i]) by {
                if i < out.len() {
                    assert(is_preview_level(out[i]));
                }
            }
            lemma_rle_levels(buf, end, total, pos1, out + add, type3);
        } else if typ == 2 {
            let k = if count <= end - pos1 { count } else { end - pos1 };
            let add = literals_pixels(buf.subrange(pos1, pos1 + k));
            lemma_literals_levels(buf.subrange(pos1, pos1 + k));
            assert forall|i: int| 0 <= i < (out + add).len() implies #[trigger] is_preview_level((out + add)[i]) by {
                if i < out.len() {
                    assert(is_preview_level(out[i]));
                } else {
                    assert(is_preview_level(add[i - out.len()]));
                }
            }
            lemma_rle_levels(buf, end, total, pos1 + k, out + add, type3);
        } else {
            lemma_rle_levels(buf, end, total, pos1, out, type3 + 1);
        }
    }
}

proof fn lemma_rle_prefix(
    buf: Seq<u8>,
    other: Seq<u8>,
    end: int,
    total: int,
    pos: int,
    out: Seq<u8>,
    type3: int,
)
    requires
        0 <= pos,
        end <= buf.len(),
        end <= other.len(),
        forall|i: int| 0 <= i < end ==> buf[i] == other[i],
    ensures
        rle_run(buf, end, total, pos, out, type3) == rle_run(other, end, total, pos, out, type3),
    decreases end - pos,
{
    if pos >= end || out.len() >= total {
    } else {
        let ch = buf[pos];
        assert(other[pos] == ch);
        let typ = ch / 64;
        let count = (ch % 64) as int;
        let pos1 = pos + 1;
        if typ == 0 {
            lemma_rle_prefix(buf, other, end, total, pos1, out + Seq::new((count * 4) as nat, |i: int| 0u8), type3);
        } else if typ == 1 {
            lemma_rle_prefix(buf, other, end, total, pos1, out + Seq::new((count * 4) as nat, |i: int| 0xFFu8), type3);
        } else if typ == 2 {
            let k = if count <= end - pos1 { count } else { end - pos1 };
            assert(buf.subrange(pos1, pos1 + k) =~= other.subrange(pos1, pos1 + k));
            lemma_rle_prefix(
                buf,
                other,
                end,
                total,
                pos1 + k,
                out + literals_pixels(buf.subrange(pos1, pos1 + k)),
                type3,
            );
        } else {
            lemma_rle_prefix(buf, other, end, total, pos1, out, type3 + 1);
        }
    }
}

/// The preview decoder reads nothing past the first `min(max_bytes,
/// buf.len())` bytes: cutting the buffer there leaves the result unchanged.
pub proof fn lemma_preview_rle_prefix_only(buf: Seq<u8>, total_pixels: int, max_bytes: int)
    requires
        0 <= max_bytes,
    ensures
        ({
            let e = if max_bytes <= buf.len() { max_bytes } else { buf.len() as int };
            spec_decode_preview_rle(buf, total_pixels, max_bytes) == spec_decode_preview_rle(
                buf.take(e),
                total_pixels,
                max_bytes,
            )
        }),
{
    let e = if max_bytes <= buf.len() { max_bytes } else { buf.len() as int };
    lemma_rle_prefix(buf, buf.take(e), e, total_pixels, 0, Seq::empty(), 0);
}

proof fn lemma_rle_type3_range(buf: Seq<u8>, end: int, total: int, pos: int, out: Seq<u8>, type3: int)
    requires
        0 <= pos,
        end <= buf.len(),
    ensures
        type3 <= rle_run(buf, end, total, pos, out, type3).1,
        rle_run(buf, end, total, pos, out, type3).1 <= type3 + if pos < end { end - pos } else { 0 },
    decreases end - pos,
{
    if pos >= end || out.len() >= total {
    } else {
        let ch = buf[pos];
        let typ = ch / 64;
        let count = (ch % 64) as int;
        let pos1 = pos + 1;
        if typ == 0 {
            lemma_rle_type3_range(buf, end, total, pos1, out + Seq::new((count * 4) as nat, |i: int| 0u8), type3);
        } else if typ == 1 {
            lemma_rle_type3_range(buf, end, total, pos1, out + Seq::new((count * 4) as nat, |i: int| 0xFFu8), type3);
        } else if typ == 2 {
            let k = if count <= end - pos1 { count } else { end - pos1 };
            lemma_rle_type3_range(
                buf,
                end,
                total,
                pos1 + k,
                out + literals_pixels(buf.subrange(pos1, pos1 + k)),
                type3,
            );
        } else {
            lemma_rle_type3_range(buf, end, total, pos1, out, type3 + 1);
        }
    }
}

/// The type-3 count is at most the number of bytes the decoder may read,
/// `min(max_bytes, buf.len())`.
pub proof fn lemma_rle_type3_count_bound(buf: Seq<u8>, total_pixels: int, max_bytes: int)
    requires
        0 <= max_bytes,
    ensures
        spec_decode_preview_rle(buf, total_pixels, max_bytes).1 <= if max_bytes <= buf.len() {
            max_bytes
        } else {
            buf.len() as int
        },
{
    let end = if max_bytes <= buf.len() { max_bytes } else { buf.len() as int };
    lemma_rle_type3_range(buf, end, total_pixels, 0, Seq::empty(), 0);
}

/// Decode a preview RLE byte stream into `(grayscale pixels, type-3
/// marker count)`; each pixel is 8 bits, 0 white and 0xFF black.
pub fn decode_preview_rle(buf: &[u8], total_pixels: usize, max_bytes: usize) -> (r: (Vec<u8>, u32))
    requires
        spec_decode_preview_rle(buf@, total_pixels as int, max_bytes as int).1 <= u32::MAX,
    ensures
        (r.0@, r.1 as int) == spec_decode_preview_rle(buf@, total_pixels as int, max_bytes as int),
        r.0@.len() <= total_pixels,
        all_preview_levels(r.0@),
{
    let mut out: Vec<u8> = Vec::new();
    let mut pos: usize = 0;
    let mut type3: u32 = 0;
    let end = if max_bytes <= buf.len() {
        max_bytes
    } else {
        buf.len()
    };
    let ghost init = rle_run(buf@, end as int, total_pixels as int, 0, Seq::empty(), 0);
    proof {
        assert(init.1 == spec_decode_preview_rle(buf@, total_pixels as int, max_bytes as int).1);
    }
    while pos < end && out.len() < total_pixels
        invariant
            end <= buf@.len(),
            init.1 <= u32::MAX,
            pos <= end,
            type3 <= pos,
            init == rle_run(buf@, end as int, total_pixels as int, pos as int, out@, type3 as int),
        decreases end - pos,
    {
        let ch = buf[pos];
        pos += 1;
        let typ = ch >> 6;
        let count = (ch & 0x3F) as usize;
        proof {
            assert(typ == ch / 64 && (ch & 0x3Fu8) == ch % 64 && ch % 64 < 64) by (bit_vector)
                requires
                    typ == ch >> 6u8,
            ;
        }
        if typ == 0 {
            let ghost o = out@;
            let mut i: usize = 0;
            while i < count * 4
                invariant
                    count < 64,
                    i <= count * 4,
                    out@ == o + Seq::new(i as nat, |j: int| 0u8),
                decreases count * 4 - i,
            {
                out.push(0u8);
                i += 1;
                proof {
                    assert(out@ =~= o + Seq::new(i as nat, |j: int| 0u8));
                }
            }
        } else if typ == 1 {
            let ghost o = out@;
            let mut i: usize = 0;
            while i < count * 4
                invariant
                    count < 64,
                    i <= count * 4,
                    out@ == o + Seq::new(i as nat, |j: int| 0xFFu8),
                decreases count * 4 - i,
            {
                out.push(0xFFu8);
                i += 1;
                proof {
                    assert(out@ =~= o + Seq::new(i as nat, |j: int| 0xFFu8));
                }
            }
        } else if typ == 2 {
            let ghost o = out@;
            let ghost pos1 = pos;
            let avail = end - pos;
            let k = if count <= avail {
                count
            } else {
                avail
            };
            let mut c: usize = 0;
            while c < k
                invariant
                    k <= count < 64,
                    pos1 + k <= end,
                    end <= buf@.len(),
                    c <= k,
                    pos == pos1 + c,
                    out@ == o + literals_pixels(buf@.subrange(pos1 as int, pos as int)),
                decreases k - c,
            {
                let cb = buf[pos];
                pos += 1;
                proof {
                    assert(((cb >> 6u8) & 3u8) <= 3u8 && ((cb >> 4u8) & 3u8) <= 3u8 && ((cb >> 2u8)
                        & 3u8) <= 3u8 && (cb & 3u8) <= 3u8) by (bit_vector);
                }
                out.push(((cb >> 6) & 3) * 85);
                out.push(((cb >> 4) & 3) * 85);
                out.push(((cb >> 2) & 3) * 85);
                out.push((cb & 3) * 85);
                proof {
                    let s1 = buf@.subrange(pos1 as int, pos as int);
                    assert(s1.drop_last() =~= buf@.subrange(pos1 as int, pos - 1));
                    assert(s1.last() == cb);
                    assert(out@ =~= o + literals_pixels(s1));
                }
                c += 1;
            }
        } else {
            proof {
                lemma_rle_type3_range(buf@, end as int, total_pixels as int, pos as int, out@, type3 + 1);
            }
            type3 += 1;
        }
    }
    let ghost full = out@;
    if out.len() > total_pixels {
        out.truncate(total_pixels);
    }
    proof {
        assert(init == (full, type3 as int));
        lemma_rle_levels(buf@, end as int, total_pixels as int, 0, Seq::empty(), 0);
        if full.len() > total_pixels {
            assert(out@ =~= full.take(total_pixels as int));
        }
    }
    (out, type3)
}


/// Chunk-relative little-endian `u16` header field.
pub open spec fn header_u16(data: Seq<u8>, start: int, off: int) -> int {
    le_u16(data, start + off)
}

/// Preview width rounded up to a multiple of four.
pub open spec fn padded_width(px: int) -> int {
    (px + 3) / 4 * 4
}

/// Whether the chunk carries a preview that can be decoded: a nonzero
/// size that fits in the chunk, nonzero dimensions, and a grayscale
/// buffer of at most `MAX_PREVIEW_PIXELS`.
pub open spec fn preview_present(data: Seq<u8>, start: int, length: int) -> bool {
    let size = header_u16(data, start, 0x3c);
    let px = header_u16(data, start, 0x3e);
    let py = header_u16(data, start, 0x40);
    &&& size > 0
    &&& px > 0
    &&& py > 0
    &&& size <= length
    &&& padded_width(px) * py <= MAX_PREVIEW_PIXELS
}

/// `s` extended with mid-gray (128) up to `n` pixels.
pub open spec fn pad_gray(s: Seq<u8>, n: int) -> Seq<u8> {
    if s.len() < n {
        s + Seq::new((n - s.len()) as nat, |i: int| 128u8)
    } else {
        s
    }
}

/// The grayscale preview, `padded_width(px)` pixels per row, bottom row
/// first, decoded from the last `size` bytes of the chunk.
pub open spec fn preview_gray(data: Seq<u8>, start: int, length: int) -> Seq<u8> {
    let size = header_u16(data, start, 0x3c);
    let target = padded_width(header_u16(data, start, 0x3e)) * header_u16(data, start, 0x40);
    pad_gray(
        spec_decode_preview_rle(
            data.subrange(start + length - size, start + length),
            target,
            size,
        ).0,
        target,
    )
}

/// Pixel `(tx, ty)` of the preview scaled to `tw x th`: the nearest
/// source pixel (rows flipped to top-first), black (1) when its gray
/// level is at least 128; 0 past the width.
pub open spec fn preview_bit(gray: Seq<u8>, px: int, py: int, tw: int, th: int, tx: int, ty: int) -> u8 {
    if 0 <= tx < tw {
        let sy = ty * py / th;
        let sx = tx * px / tw;
        if gray[(py - 1 - sy) * padded_width(px) + sx] >= 128 {
            1u8
        } else {
            0u8
        }
    } else {
        0u8
    }
}

/// Whether `stride` is a row width of the stored preview for a preview
/// `px` pixels wide: a multiple of four, at least `px`, less than `px + 4`.
pub open spec fn is_preview_stride(px: int, stride: int) -> bool {
    &&& stride % 4 == 0
    &&& px <= stride < px + 4
}

/// The stored preview's rows are `px` rounded up to a multiple of four
/// pixels: `padded_width` is the one such stride, and it exceeds `px`
/// whenever `px` is not a multiple of four.
pub proof fn lemma_preview_stride(px: int)
    requires
        0 <= px,
    ensures
        is_preview_stride(px, padded_width(px)),
        forall|stride: int| #[trigger] is_preview_stride(px, stride) ==> stride == padded_width(px),
        px % 4 != 0 ==> padded_width(px) > px,
{
}

/// Stored pixel `(sx, sy)` of the preview, counted from the top row, is
/// gray sample `(py - 1 - sy) * stride + sx` for the padded row width
/// `stride`: the scaled preview's pixel is black exactly when that sample
/// is at least 128.
pub proof fn lemma_preview_bit_reads_padded_rows(
    gray: Seq<u8>,
    px: int,
    py: int,
    tw: int,
    th: int,
    tx: int,
    ty: int,
    stride: int,
)
    requires
        0 <= px,
        is_preview_stride(px, stride),
        0 <= tx < tw,
    ensures
        ({
            let sy = ty * py / th;
            let sx = tx * px / tw;
            preview_bit(gray, px, py, tw, th, tx, ty) == if gray[(py - 1 - sy) * stride + sx] >= 128 {
                1u8
            } else {
                0u8
            }
        }),
{
    lemma_preview_stride(px);
}

/// The gray buffer of a present preview holds exactly `stride * py`
/// samples: `py` rows of the padded width.
pub proof fn lemma_preview_gray_len(data: Seq<u8>, start: int, length: int, stride: int)
    requires
        preview_present(data, start, length),
        is_preview_stride(header_u16(data, start, 0x3e), stride),
    ensures
        preview_gray(data, start, length).len() == stride * header_u16(data, start, 0x40),
{
    lemma_preview_stride(header_u16(data, start, 0x3e));
}

/// The number whose binary digits, most significant first, are `bits`.
pub open spec fn msb_value(bits: Seq<u8>) -> nat
    decreases bits.len(),
{
    if bits.len() == 0 {
        0
    } else {
        msb_value(bits.drop_last()) * 2 + bits.last() as nat
    }
}

/// Byte `b` of row `ty` of the scaled preview bitmap.
pub open spec fn preview_byte(gray: Seq<u8>, px: int, py: int, tw: int, th: int, ty: int, b: int) -> u8 {
    msb_value(Seq::new(8, |j: int| preview_bit(gray, px, py, tw, th, 8 * b + j, ty))) as u8
}

/// The scaled preview bitmap: `th` rows of `row_bytes_of(tw)` bytes.
pub open spec fn preview_bitmap(gray: Seq<u8>, px: int, py: int, tw: int, th: int) -> Seq<u8> {
    let rb = row_bytes_of(tw);
    Seq::new((rb * th) as nat, |k: int| preview_byte(gray, px, py, tw, th, k / rb, k % rb))
}

/// Target dimensions of the preview: the main image's when scaling,
/// else the preview's own.
pub open spec fn preview_target(data: Seq<u8>, start: int, scale_to_a4: bool) -> (int, int) {
    if scale_to_a4 {
        (header_u16(data, start, 0x26), header_u16(data, start, 0x28))
    } else {
        (header_u16(data, start, 0x3e), header_u16(data, start, 0x40))
    }
}

/// Whether `pv` is the decoded preview of the chunk.
pub open spec fn preview_of_chunk(pv: Preview, data: Seq<u8>, start: int, length: int, scale_to_a4: bool) -> bool {
    let (tw, th) = preview_target(data, start, scale_to_a4);
    let px = header_u16(data, start, 0x3e);
    let py = header_u16(data, start, 0x40);
    &&& pv.width == tw
    &&& pv.height == th
    &&& pv.row_bytes == row_bytes_of(tw)
    &&& pv.bitmap@ == preview_bitmap(preview_gray(data, start, length), px, py, tw, th)
}

proof fn lemma_scaled_below(t: int, n: int, m: int)
    requires
        0 <= t < m,
        0 < n,
    ensures
        0 <= t * n / m < n,
{
    assert(0 <= t * n / m < n) by (nonlinear_arith)
        requires
            0 <= t < m,
            0 < n,
    ;
}

proof fn lemma_source_index(py: int, sy: int, pw: int, sx: int)
    requires
        0 <= sy < py,
        0 <= sx < pw,
    ensures
        0 <= (py - 1 - sy) * pw + sx < pw * py,
{
    assert(0 <= (py - 1 - sy) * pw + sx < pw * py) by (nonlinear_arith)
        requires
            0 <= sy < py,
            0 <= sx < pw,
    ;
}

/// Decode the preview thumbnail at the end of the image chunk at
/// `chunk_start` and, when `scale_to_a4`, scale it to the main image's
/// dimensions; `None` when the chunk has no decodable preview (see
/// `preview_present`).
pub fn decode_preview_chunk(data: &[u8], chunk_start: usize, chunk_length: usize, scale_to_a4: bool) -> (r: Option<Preview>)
    requires
        0x42 <= chunk_length,
        chunk_start + chunk_length <= data@.len(),
    ensures
        match r {
            Some(pv) => preview_present(data@, chunk_start as int, chunk_length as int)
                && preview_of_chunk(pv, data@, chunk_start as int, chunk_length as int, scale_to_a4),
            None => !preview_present(data@, chunk_start as int, chunk_length as int),
        },
{
    let chunk = ChunkRef { offset: chunk_start, length: chunk_length };
    let size = read_u16_at(data, chunk, 0x3c).unwrap() as usize;
    let px = read_u16_at(data, chunk, 0x3e).unwrap() as usize;
    let py = read_u16_at(data, chunk, 0x40).unwrap() as usize;
    let main_w = read_u16_at(data, chunk, 0x26).unwrap() as usize;
    let main_h = read_u16_at(data, chunk, 0x28).unwrap() as usize;
    if size == 0 || px == 0 || py == 0 {
        return None;
    }
    if size > chunk_length {
        return None;
    }
    let padded_x = (px + 3) / 4 * 4;
    proof {
        assert(padded_x * py <= 0x10004 * 0xFFFF) by (nonlinear_arith)
            requires
                padded_x <= 0x10004,
                py <= 0xFFFF,
        ;
    }
    let target64 = padded_x as u64 * py as u64;
    if target64 > MAX_PREVIEW_PIXELS {
        return None;
    }
    let target = target64 as usize;
    let n = data.len();
    let end = chunk_start + chunk_length;
    let buf = vstd::slice::slice_subrange(data, end - size, end);
    proof {
        lemma_rle_type3_count_bound(buf@, target as int, size as int);
    }
    let (mut pixels, _type3) = decode_preview_rle(buf, target, size);
    let ghost decoded = pixels@;
    proof {
        let start = chunk_start as int;
        assert(size == header_u16(data@, start, 0x3c));
        assert(px == header_u16(data@, start, 0x3e));
        assert(py == header_u16(data@, start, 0x40));
        assert(target == padded_width(px as int) * py);
        assert(buf@ == data@.subrange(end - size, end as int));
        assert(decoded == spec_decode_preview_rle(buf@, target as int, size as int).0);
        assert(decoded.len() <= target);
    }
    while pixels.len() < target
        invariant
            decoded.len() <= target,
            pixels@ == decoded + Seq::new((pixels@.len() - decoded.len()) as nat, |i: int| 128u8),
            decoded.len() <= pixels@.len() <= target,
        decreases target - pixels@.len(),
    {
        pixels.push(128u8);
        proof {
            assert(pixels@ =~= decoded + Seq::new(
                (pixels@.len() - decoded.len()) as nat,
                |i: int| 128u8,
            ));
        }
    }
    let ghost gray = preview_gray(data@, chunk_start as int, chunk_length as int);
    proof {
        if decoded.len() == target {
            assert(pixels@ =~= decoded);
        }
        assert(pixels@ =~= gray);
    }
    let tw = if scale_to_a4 {
        main_w
    } else {
        px
    };
    let th = if scale_to_a4 {
        main_h
    } else {
        py
    };
    let line_bytes = (tw + 7) / 8;
    let row_bytes = (line_bytes + 3) / 4 * 4;
    let mut bitmap: Vec<u8> = Vec::new();
    let mut ty: usize = 0;
    while ty < th
        invariant
            0 <= th <= 0xFFFF,
            0 <= tw <= 0xFFFF,
            0 < px <= 0xFFFF,
            0 < py <= 0xFFFF,
            padded_x == padded_width(px as int),
            row_bytes == row_bytes_of(tw as int),
            pixels@ == gray,
            gray.len() == padded_x * py,
            padded_x * py <= MAX_PREVIEW_PIXELS,
            ty <= th,
            bitmap@.len() == ty * row_bytes,
            forall|k: int|
                0 <= k < bitmap@.len() ==> #[trigger] bitmap@[k] == preview_byte(
                    gray,
                    px as int,
                    py as int,
                    tw as int,
                    th as int,
                    k / row_bytes as int,
                    k % row_bytes as int,
                ),
        decreases th - ty,
    {
        proof {
            lemma_scaled_below(ty as int, py as int, th as int);
        }
        proof {
            assert(ty * py <= 0xFFFF * 0xFFFF) by (nonlinear_arith)
                requires
                    ty <= 0xFFFF,
                    py <= 0xFFFF,
            ;
        }
        let sy = ((ty as u64 * py as u64) / th as u64) as usize;
        proof {
            lemma_source_index(py as int, sy as int, padded_x as int, 0);
        }
        let src_row = (py - 1 - sy) * padded_x;
        let mut b: usize = 0;
        while b < row_bytes
            invariant
                0 <= th <= 0xFFFF,
                0 <= tw <= 0xFFFF,
                0 < px <= 0xFFFF,
                0 < py <= 0xFFFF,
                padded_x == padded_width(px as int),
                row_bytes == row_bytes_of(tw as int),
                pixels@ == gray,
                gray.len() == padded_x * py,
                padded_x * py <= MAX_PREVIEW_PIXELS,
                ty < th,
                sy == (ty * py) / (th as int),
                sy < py,
                src_row == (py - 1 - sy) * padded_x,
                b <= row_bytes,
                bitmap@.len() == ty * row_bytes + b,
                forall|k: int|
                    0 <= k < bitmap@.len() ==> #[trigger] bitmap@[k] == preview_byte(
                        gray,
                        px as int,
                        py as int,
                        tw as int,
                        th as int,
                        k / row_bytes as int,
                        k % row_bytes as int,
                    ),
            decreases row_bytes - b,
        {
            let ghost bits = Seq::new(
                8,
                |j: int| preview_bit(gray, px as int, py as int, tw as int, th as int, 8 * b + j, ty as int),
            );
            let mut v: u32 = 0;
            let mut j: usize = 0;
            proof {
                lemma2_to64();
            }
            while j < 8
                invariant
                    0 <= tw <= 0xFFFF,
                    0 < px <= 0xFFFF,
                    0 < py <= 0xFFFF,
                    padded_x == padded_width(px as int),
                    pixels@ == gray,
                    gray.len() == padded_x * py,
                    padded_x * py <= MAX_PREVIEW_PIXELS,
                    ty < th,
                    sy == (ty * py) / (th as int),
                    sy < py,
                    src_row == (py - 1 - sy) * padded_x,
                    b < row_bytes,
                    row_bytes <= 0x2004,
                    bits == Seq::new(
                        8,
                        |j: int| preview_bit(gray, px as int, py as int, tw as int, th as int, 8 * b + j, ty as int),
                    ),
                    j <= 8,
                    v == msb_value(bits.take(j as int)),
                    v < pow2(j as nat),
                decreases 8 - j,
            {
                let tx = 8 * b + j;
                let mut bit: u32 = 0;
                if tx < tw {
                    proof {
                        lemma_scaled_below(tx as int, px as int, tw as int);
                    }
                    proof {
                        assert(tx * px <= 0xFFFF * 0xFFFF) by (nonlinear_arith)
                            requires
                                tx <= 0xFFFF,
                                px <= 0xFFFF,
                        ;
                    }
                    let sx = ((tx as u64 * px as u64) / tw as u64) as usize;
                    proof {
                        lemma_source_index(py as int, sy as int, padded_x as int, sx as int);
                    }
                    if pixels[src_row + sx] >= 128 {
                        bit = 1;
                    }
                }
                proof {
                    assert(bit == bits[j as int]);
                    assert(bits.take(j + 1).drop_last() =~= bits.take(j as int));
                    lemma_pow2_unfold((j + 1) as nat);
                    lemma_pow2_mono(j as nat, 8);
                    lemma2_to64();
                }
                v = v * 2 + bit;
                j += 1;
            }
            proof {
                assert(bits.take(8) =~= bits);
                lemma2_to64();
                assert(v < 256);
            }
            bitmap.push(v as u8);
            proof {
                let k = bitmap@.len() - 1;
                assert(k / row_bytes as int == ty as int && k % row_bytes as int == b as int) by (nonlinear_arith)
                    requires
                        k == ty * row_bytes + b,
                        b < row_bytes,
                        0 <= ty,
                ;
            }
            b += 1;
        }
        proof {
            assert(ty * row_bytes + row_bytes == (ty + 1) * row_bytes) by (nonlinear_arith);
        }
        ty += 1;
    }
    proof {
        assert(th * row_bytes == row_bytes * th) by (nonlinear_arith);
        assert(bitmap@ =~= preview_bitmap(gray, px as int, py as int, tw as int, th as int));
    }
    Some(Preview { width: tw as u32, height: th as u32, row_bytes: row_bytes as u32, bitmap })
}

} // verus!
