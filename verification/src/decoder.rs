//! Per-line CCITT-T.6 decoder and the conversions between a packed 1-bit
//! row and its changing-elements table.
//!
//! A changing-elements table has the shape `[-1, x0, x1, ..., width, width]`:
//! after the leading `-1`, consecutive pairs `(x[2k+1], x[2k+2])` are the
//! black runs `[x[2k+1], x[2k+2])` of the row.

use vstd::prelude::*;
use crate::bitstream::{BitCursor, stream_val, lemma_stream_val_bound, lemma_stream_val_nonzero, lemma_stream_val_split};
use crate::ccitt::{CodeTables, DispatchEntry, RunHit, DispatchHit, spec_two_d, spec_dispatch, spec_white_codes, spec_black_codes, first_run_hit, last_twod_hit, run_entries_ok, lemma_code_lists_ok, lemma_first_run_hit_zero, lemma_first_run_hit_len, lemma_last_twod_hit_zero, lemma_last_twod_hit_index, lemma_two_d_ok};

verus! {

/// Per-page decoder statistics. Soft errors (failed lines, drift drops)
/// are counted here; they never surface as `Err`.
#[derive(Debug, Clone, PartialEq, Eq, Structural)]
pub struct DecodeStats {
    /// Successfully decoded compressed lines.
    pub n_ok: u32,
    /// Compressed lines that ended after a single vertical code.
    pub n_v0: u32,
    /// Type-0 markers seen.
    pub n_t0: u32,
    /// Type-1 markers seen.
    pub n_t1: u32,
    /// Compressed lines that failed to decode.
    pub n_fail: u32,
    /// Longest run of consecutive failed (or V0-only) lines.
    pub max_consecutive_fail: u32,
    /// Row of the first failed line.
    pub first_fail_y: Option<u32>,
    /// Resynchronisation probes run.
    pub resync_probes: u32,
    /// Resynchronisations committed.
    pub resync_hits: u32,
    /// Blank-run markers dropped because they followed a drift event.
    pub blank_drops_after_drift: u32,
}

impl DecodeStats {
    /// All counters zero and no failed row.
    pub open spec fn is_zero(&self) -> bool {
        &&& self.n_ok == 0
        &&& self.n_v0 == 0
        &&& self.n_t0 == 0
        &&& self.n_t1 == 0
        &&& self.n_fail == 0
        &&& self.max_consecutive_fail == 0
        &&& self.first_fail_y is None
        &&& self.resync_probes == 0
        &&& self.resync_hits == 0
        &&& self.blank_drops_after_drift == 0
    }
}

impl Default for DecodeStats {
    fn default() -> (r: Self)
        ensures
            r.is_zero(),
    {
        DecodeStats {
            n_ok: 0,
            n_v0: 0,
            n_t0: 0,
            n_t1: 0,
            n_fail: 0,
            max_consecutive_fail: 0,
            first_fail_y: None,
            resync_probes: 0,
            resync_hits: 0,
            blank_drops_after_drift: 0,
        }
    }
}

/// Embedded preview thumbnail, decoded and (optionally) upscaled.
#[derive(Debug, Clone)]
pub struct Preview {
    /// Width in pixels.
    pub width: u32,
    /// Height in pixels.
    pub height: u32,
    /// Bytes per row of `bitmap` (padded to a multiple of 4).
    pub row_bytes: u32,
    /// 1-bit packed, MSB-first per byte; bit value 1 means BLACK.
    pub bitmap: Vec<u8>,
}

/// A single decoded page.
#[derive(Debug, Clone)]
pub struct Page {
    /// Image width in pixels.
    pub width: u32,
    /// Image height in pixels.
    pub height: u32,
    /// Horizontal DPI from the file (300 when the file stores 0).
    pub dpi_x: u32,
    /// Vertical DPI from the file (300 when the file stores 0).
    pub dpi_y: u32,
    /// Bytes per row in `bitmap` (padded to a multiple of 4).
    pub row_bytes: u32,
    /// 1-bit packed bitmap, MSB-first per byte; **bit value 1 means
    /// BLACK**. Length `row_bytes * height`.
    pub bitmap: Vec<u8>,
    /// Preview thumbnail, when requested and present.
    pub preview: Option<Preview>,
    /// Per-page decoder statistics.
    pub stats: DecodeStats,
}

/// Bytes of a packed row holding `width` pixels.
pub open spec fn line_bytes_of(width: int) -> int {
    (width + 7) / 8
}

/// Bytes of a packed row, padded to a multiple of four.
pub open spec fn row_bytes_of(width: int) -> int {
    (line_bytes_of(width) + 3) / 4 * 4
}

/// A packed row is a whole number of 32-bit words and holds every pixel:
/// `row_bytes` is a multiple of 4, at least `line_bytes`, and less than
/// `line_bytes + 4`.
pub proof fn lemma_row_bytes_padded(width: int)
    requires
        0 <= width,
    ensures
        row_bytes_of(width) % 4 == 0,
        line_bytes_of(width) <= row_bytes_of(width) < line_bytes_of(width) + 4,
        width <= line_bytes_of(width) * 8 < width + 8,
{
}

/// Pixel `p` (MSB-first) of a packed row: 1 is black.
pub open spec fn pixel(row: Seq<u8>, p: int) -> u8 {
    (row[p / 8] >> ((7 - p % 8) as u8)) & 1u8
}

/// `v`, or 0 when negative.
pub open spec fn max0(v: i32) -> int {
    if v < 0 { 0 } else { v as int }
}

/// `v`, capped at `width`.
pub open spec fn min_w(v: i32, width: int) -> int {
    if v > width { width } else { v as int }
}

/// Whether pixel `p` lies in one of the black runs of `table` from pair
/// index `i` on. Each run is clamped to `[0, width)`; the first run that
/// starts at or beyond `width` ends the list.
pub open spec fn painted(table: Seq<i32>, width: int, i: int, p: int) -> bool
    decreases table.len() - i,
{
    if i < 0 || i + 1 >= table.len() {
        false
    } else if max0(table[i]) >= width {
        false
    } else {
        (max0(table[i]) <= p < min_w(table[i + 1], width)) || painted(table, width, i + 2, p)
    }
}

proof fn lemma_or_range_bits(b: u8, lo: u8, hi: u8, q: u8)
    requires
        lo < hi <= 8,
        q < 8,
    ensures
        ((b | ((0xFFu8 >> lo) & (0xFFu8 << ((8 - hi) as u8)))) >> ((7 - q) as u8)) & 1u8 == 1u8
            <==> (((b >> ((7 - q) as u8)) & 1u8 == 1u8) || (lo <= q && q < hi)),
{
    assert(((b | ((0xFFu8 >> lo) & (0xFFu8 << ((8 - hi) as u8)))) >> ((7 - q) as u8)) & 1u8 == 1u8
        <==> (((b >> ((7 - q) as u8)) & 1u8 == 1u8) || (lo <= q && q < hi))) by (bit_vector)
        requires
            lo < hi <= 8,
            q < 8,
    ;
}

proof fn lemma_or_low_bits(b: u8, lo: u8, q: u8)
    requires
        lo < 8,
        q < 8,
    ensures
        ((b | (0xFFu8 >> lo)) >> ((7 - q) as u8)) & 1u8 == 1u8 <==> (((b >> ((7 - q) as u8)) & 1u8
            == 1u8) || lo <= q),
{
    assert(((b | (0xFFu8 >> lo)) >> ((7 - q) as u8)) & 1u8 == 1u8 <==> (((b >> ((7 - q) as u8))
        & 1u8 == 1u8) || lo <= q)) by (bit_vector)
        requires
            lo < 8,
            q < 8,
    ;
}

proof fn lemma_or_high_bits(b: u8, rem: u8, q: u8)
    requires
        1 <= rem < 8,
        q < 8,
    ensures
        ((b | (0xFFu8 << ((8 - rem) as u8))) >> ((7 - q) as u8)) & 1u8 == 1u8 <==> (((b >> ((7
            - q) as u8)) & 1u8 == 1u8) || q < rem),
{
    assert(((b | (0xFFu8 << ((8 - rem) as u8))) >> ((7 - q) as u8)) & 1u8 == 1u8 <==> (((b >> ((7
        - q) as u8)) & 1u8 == 1u8) || q < rem)) by (bit_vector)
        requires
            1 <= rem < 8,
            q < 8,
    ;
}

proof fn lemma_full_byte_bits(q: u8)
    requires
        q < 8,
    ensures
        (0xFFu8 >> ((7 - q) as u8)) & 1u8 == 1u8,
{
    assert((0xFFu8 >> ((7 - q) as u8)) & 1u8 == 1u8) by (bit_vector)
        requires
            q < 8,
    ;
}

/// Paint the pixels `[start, end)` of `out` black.
#[verifier::rlimit(80)]
#[verifier::spinoff_prover]
fn paint_run(out: &mut Vec<u8>, start: i32, end: i32)
    requires
        0 <= start < end,
        end <= old(out)@.len() * 8,
    ensures
        final(out)@.len() == old(out)@.len(),
        forall|p: int|
            0 <= p < old(out)@.len() * 8 ==> (pixel(final(out)@, p) == 1u8 <==> (pixel(
                old(out)@,
                p,
            ) == 1u8 || (start <= p < end))),
{
    let sb = (start / 8) as usize;
    let eb = ((end - 1) / 8) as usize;
    let ghost o = out@;
    if sb == eb {
        let lo = (start % 8) as u8;
        let hi: u8 = if end % 8 == 0 {
            8
        } else {
            (end % 8) as u8
        };
        let mask = (0xFFu8 >> lo) & (0xFFu8 << (8 - hi));
        let b = out[sb];
        out.set(sb, b | mask);
        proof {
            assert forall|p: int| 0 <= p < o.len() * 8 implies (pixel(out@, p) == 1u8 <==> (pixel(
                o,
                p,
            ) == 1u8 || (start <= p < end))) by {
                let k = p / 8;
                let q = (p % 8) as u8;
                assert(p == k * 8 + q);
                assert(start == sb * 8 + lo);
                if k == sb {
                    lemma_or_range_bits(b, lo, hi, q);
                    assert(start <= p < end <==> lo <= q && q < hi);
                } else {
                    assert(out@[k] == o[k]);
                    assert(!(start <= p < end));
                }
            }
            assert(o == old(out)@);
            assert(out@.len() == o.len());
        }
    } else {
        let lo = (start % 8) as u8;
        let b = out[sb];
        out.set(sb, b | (0xFFu8 >> lo));
        let mut k = sb + 1;
        while k < eb
            invariant
                sb < eb,
                eb < o.len(),
                sb + 1 <= k <= eb,
                out@.len() == o.len(),
                out@[sb as int] == (b | (0xFFu8 >> lo)),
                forall|j: int| sb < j < k ==> out@[j] == 0xFFu8,
                forall|j: int| 0 <= j < o.len() && (j < sb || j >= k) ==> out@[j] == o[j],
            decreases eb - k,
        {
            out.set(k, 0xFF);
            k = k + 1;
        }
        let rem = (end % 8) as u8;
        let be = out[eb];
        if rem == 0 {
            out.set(eb, 0xFF);
        } else {
            out.set(eb, be | (0xFFu8 << (8 - rem)));
        }
        proof {
            assert(be == o[eb as int]);
            assert forall|p: int| 0 <= p < o.len() * 8 implies (pixel(out@, p) == 1u8 <==> (pixel(
                o,
                p,
            ) == 1u8 || (start <= p < end))) by {
                let kk = p / 8;
                let q = (p % 8) as u8;
                assert(p == kk * 8 + q);
                assert(start == sb * 8 + lo);
                assert(end - 1 == eb * 8 + (end - 1) % 8);
                if kk == sb {
                    lemma_or_low_bits(b, lo, q);
                    assert(out@[kk] == (b | (0xFFu8 >> lo)));
                    assert((start <= p < end) <==> lo <= q);
                } else if sb < kk < eb {
                    lemma_full_byte_bits(q);
                    assert(out@[kk] == 0xFFu8);
                    assert(start <= p < end);
                } else if kk == eb {
                    if rem == 0 {
                        lemma_full_byte_bits(q);
                        assert(start <= p < end);
                    } else {
                        lemma_or_high_bits(be, rem, q);
                        assert((start <= p < end) <==> q < rem);
                    }
                } else {
                    assert(out@[kk] == o[kk]);
                    assert(!(start <= p < end));
                }
            }
        }
    }
}

/// Bit `p` of the rendered row of `table`: 1 when the pixel is painted.
pub open spec fn row_bit(table: Seq<i32>, width: int, p: int) -> u8 {
    if painted(table, width, 1, p) { 1u8 } else { 0u8 }
}

/// Byte `b` of the rendered row of `table`, MSB first.
pub open spec fn row_byte(table: Seq<i32>, width: int, b: int) -> u8 {
    (row_bit(table, width, 8 * b) * 128 + row_bit(table, width, 8 * b + 1) * 64 + row_bit(
        table,
        width,
        8 * b + 2,
    ) * 32 + row_bit(table, width, 8 * b + 3) * 16 + row_bit(table, width, 8 * b + 4) * 8
        + row_bit(table, width, 8 * b + 5) * 4 + row_bit(table, width, 8 * b + 6) * 2 + row_bit(
        table,
        width,
        8 * b + 7,
    )) as u8
}

/// The packed row of `row_bytes` bytes that `table` renders to.
pub open spec fn spec_row(table: Seq<i32>, width: int, row_bytes: int) -> Seq<u8> {
    Seq::new(row_bytes as nat, |b: int| row_byte(table, width, b))
}

proof fn lemma_byte_from_bits(v: u8)
    ensures
        v == ((v >> 7u8) & 1u8) * 128 + ((v >> 6u8) & 1u8) * 64 + ((v >> 5u8) & 1u8) * 32 + ((v
            >> 4u8) & 1u8) * 16 + ((v >> 3u8) & 1u8) * 8 + ((v >> 2u8) & 1u8) * 4 + ((v >> 1u8)
            & 1u8) * 2 + ((v >> 0u8) & 1u8),
{
    assert(v == ((v >> 7u8) & 1u8) * 128 + ((v >> 6u8) & 1u8) * 64 + ((v >> 5u8) & 1u8) * 32 + ((v
        >> 4u8) & 1u8) * 16 + ((v >> 3u8) & 1u8) * 8 + ((v >> 2u8) & 1u8) * 4 + ((v >> 1u8)
        & 1u8) * 2 + ((v >> 0u8) & 1u8)) by (bit_vector);
}

proof fn lemma_pixel_bit(r: Seq<u8>, table: Seq<i32>, width: int, b: int, j: int)
    requires
        forall|p: int|
            0 <= p < r.len() * 8 ==> (pixel(r, p) == 1u8 <==> painted(table, width, 1, p)),
        0 <= b < r.len(),
        0 <= j < 8,
    ensures
        (r[b] >> ((7 - j) as u8)) & 1u8 == row_bit(table, width, 8 * b + j),
{
    let v = r[b];
    let q = (7 - j) as u8;
    assert((8 * b + j) / 8 == b);
    assert((8 * b + j) % 8 == j);
    assert(pixel(r, 8 * b + j) == (v >> q) & 1u8);
    assert((v >> q) & 1u8 <= 1u8) by (bit_vector);
}

/// A row whose pixels are exactly the painted ones is the rendered row.
proof fn lemma_row_from_pixels(r: Seq<u8>, table: Seq<i32>, width: int)
    requires
        forall|p: int|
            0 <= p < r.len() * 8 ==> (pixel(r, p) == 1u8 <==> painted(table, width, 1, p)),
    ensures
        r == spec_row(table, width, r.len() as int),
{
    assert forall|b: int| 0 <= b < r.len() implies r[b] == row_byte(table, width, b) by {
        lemma_pixel_bit(r, table, width, b, 0);
        lemma_pixel_bit(r, table, width, b, 1);
        lemma_pixel_bit(r, table, width, b, 2);
        lemma_pixel_bit(r, table, width, b, 3);
        lemma_pixel_bit(r, table, width, b, 4);
        lemma_pixel_bit(r, table, width, b, 5);
        lemma_pixel_bit(r, table, width, b, 6);
        lemma_pixel_bit(r, table, width, b, 7);
        assert(8 * b + 0 == 8 * b);
        lemma_byte_from_bits(r[b]);
    }
    assert(r =~= spec_row(table, width, r.len() as int));
}

/// Convert a changing-elements table to a packed 1-bit MSB-first row of
/// `row_bytes` bytes: pixel `p` is black exactly when it lies in one of the
/// table's black runs (see `painted`).
pub fn table_to_row(table: &[i32], width: i32, row_bytes: usize) -> (r: Vec<u8>)
    requires
        width <= row_bytes * 8,
    ensures
        r@.len() == row_bytes,
        forall|p: int|
            0 <= p < row_bytes * 8 ==> (pixel(r@, p) == 1u8 <==> painted(
                table@,
                width as int,
                1,
                p,
            )),
        r@ == spec_row(table@, width as int, row_bytes as int),
{
    let mut out: Vec<u8> = vec![0u8; row_bytes];
    let n = table.len();
    if n < 2 {
        proof {
            assert forall|p: int| 0 <= p < row_bytes * 8 implies (pixel(out@, p) == 1u8 <==> painted(
                table@,
                width as int,
                1,
                p,
            )) by {
                let q = (7 - p % 8) as u8;
                assert((0u8 >> q) & 1u8 == 0u8) by (bit_vector);
            }
            lemma_row_from_pixels(out@, table@, width as int);
        }
        return out;
    }
    let mut i: usize = 1;
    proof {
        assert forall|p: int| 0 <= p < row_bytes * 8 implies pixel(out@, p) == 0u8 by {
            let q = (7 - p % 8) as u8;
            assert((0u8 >> q) & 1u8 == 0u8) by (bit_vector);
        }
    }
    while i < n - 1
        invariant
            n == table@.len(),
            n >= 2,
            1 <= i,
            i % 2 == 1,
            width <= row_bytes * 8,
            out@.len() == row_bytes,
            forall|p: int|
                0 <= p < row_bytes * 8 ==> (#[trigger] painted(table@, width as int, 1, p) <==> (
                pixel(out@, p) == 1u8 || painted(table@, width as int, i as int, p))),
        ensures
            out@.len() == row_bytes,
            forall|p: int|
                0 <= p < row_bytes * 8 ==> (pixel(out@, p) == 1u8 <==> painted(
                    table@,
                    width as int,
                    1,
                    p,
                )),
        decreases n - i,
    {
        let start = if table[i] < 0 {
            0
        } else {
            table[i]
        };
        let mut end = table[i + 1];
        if start >= width {
            proof {
                assert forall|p: int| 0 <= p < row_bytes * 8 implies !painted(
                    table@,
                    width as int,
                    i as int,
                    p,
                ) by {}
            }
            break;
        }
        if end > width {
            end = width;
        }
        if end > start {
            let ghost before = out@;
            paint_run(&mut out, start, end);
            proof {
                assert forall|p: int| 0 <= p < row_bytes * 8 implies (painted(
                    table@,
                    width as int,
                    1,
                    p,
                ) <==> (pixel(out@, p) == 1u8 || painted(table@, width as int, i + 2, p))) by {
                    assert(painted(table@, width as int, 1, p) <==> (pixel(before, p) == 1u8
                        || painted(table@, width as int, i as int, p)));
                    assert(pixel(out@, p) == 1u8 <==> (pixel(before, p) == 1u8 || (start <= p
                        < end)));
                    assert(painted(table@, width as int, i as int, p) == ((start <= p < end)
                        || painted(table@, width as int, i + 2, p)));
                }
            }
        } else {
            proof {
                assert forall|p: int| 0 <= p < row_bytes * 8 implies (painted(
                    table@,
                    width as int,
                    1,
                    p,
                ) <==> (pixel(out@, p) == 1u8 || painted(table@, width as int, i + 2, p))) by {
                    assert(painted(table@, width as int, 1, p) <==> (pixel(out@, p) == 1u8
                        || painted(table@, width as int, i as int, p)));
                    assert(painted(table@, width as int, i as int, p) == ((start <= p < end)
                        || painted(table@, width as int, i + 2, p)));
                }
            }
        }
        let ghost i0 = i;
        let ghost o1 = out@;
        proof {
            assert(forall|p: int|
                0 <= p < row_bytes * 8 ==> (painted(table@, width as int, 1, p) <==> (pixel(o1, p)
                    == 1u8 || painted(table@, width as int, i0 + 2, p))));
        }
        i = i + 2;
        proof {
            assert(i as int == i0 + 2);
            assert forall|p: int|
                0 <= p < row_bytes * 8 implies (#[trigger] painted(table@, width as int, 1, p) <==> (
                pixel(out@, p) == 1u8 || painted(table@, width as int, i as int, p))) by {
                assert(painted(table@, width as int, 1, p) <==> (pixel(o1, p) == 1u8 || painted(
                    table@,
                    width as int,
                    i0 + 2,
                    p,
                )));
                assert(o1 == out@);
            }
        }
    }
    proof {
        lemma_row_from_pixels(out@, table@, width as int);
    }
    out
}

/// Colour of pixel `x` of the row, with the pixel left of the row white.
pub open spec fn colour_before(row: Seq<u8>, x: int) -> u8 {
    if x <= 0 { 0u8 } else { pixel(row, x - 1) }
}

/// The positions `x < n` where the row changes colour (from white at the
/// left edge), in increasing order.
pub open spec fn transitions(row: Seq<u8>, n: int) -> Seq<i32>
    decreases n,
{
    if n <= 0 {
        Seq::empty()
    } else if pixel(row, n - 1) != colour_before(row, n - 1) {
        transitions(row, n - 1).push((n - 1) as i32)
    } else {
        transitions(row, n - 1)
    }
}

/// The changing-elements table of the first `width` pixels of a row.
pub open spec fn spec_table_from_raw(row: Seq<u8>, width: i32) -> Seq<i32> {
    seq![-1i32] + transitions(row, width as int) + seq![width, width]
}

/// The number of entries of `t` from index `j` on that are at most `p`.
pub open spec fn count_from(t: Seq<i32>, j: int, p: int) -> nat
    decreases t.len() - j,
{
    if j < 0 || j >= t.len() {
        0
    } else {
        (if t[j] <= p { 1nat } else { 0nat }) + count_from(t, j + 1, p)
    }
}

/// Strictly increasing, within `[0, n)`.
pub open spec fn increasing_below(t: Seq<i32>, n: int) -> bool {
    &&& forall|a: int, b: int| 0 <= a < b < t.len() ==> t[a] < t[b]
    &&& forall|a: int| 0 <= a < t.len() ==> 0 <= #[trigger] t[a] < n
}

proof fn lemma_pixel_is_bit(row: Seq<u8>, p: int)
    requires
        0 <= p < row.len() * 8,
    ensures
        pixel(row, p) <= 1u8,
{
    let b = row[p / 8];
    let q = (7 - p % 8) as u8;
    assert((b >> q) & 1u8 <= 1u8) by (bit_vector);
}

proof fn lemma_transitions_shape(row: Seq<u8>, n: int)
    requires
        0 <= n <= i32::MAX,
    ensures
        increasing_below(transitions(row, n), n),
    decreases n,
{
    if n > 0 {
        lemma_transitions_shape(row, n - 1);
    }
}

proof fn lemma_count_push(t: Seq<i32>, x: i32, j: int, p: int)
    requires
        0 <= j <= t.len(),
    ensures
        count_from(t.push(x), j, p) == count_from(t, j, p) + (if x <= p { 1nat } else { 0nat }),
    decreases t.len() - j,
{
    if j < t.len() {
        lemma_count_push(t, x, j + 1, p);
        assert(t.push(x)[j] == t[j]);
    } else {
        assert(t.push(x)[j] == x);
        assert(count_from(t.push(x), j + 1, p) == 0);
    }
}

proof fn lemma_count_all_below(t: Seq<i32>, j: int, p: int)
    requires
        0 <= j <= t.len(),
        forall|a: int| 0 <= a < t.len() ==> #[trigger] t[a] <= p,
    ensures
        count_from(t, j, p) == t.len() - j,
    decreases t.len() - j,
{
    if j < t.len() {
        lemma_count_all_below(t, j + 1, p);
    }
}

proof fn lemma_count_none(t: Seq<i32>, j: int, p: int)
    requires
        0 <= j,
        forall|a: int| j <= a < t.len() ==> #[trigger] t[a] > p,
    ensures
        count_from(t, j, p) == 0,
    decreases t.len() - j,
{
    if j < t.len() {
        lemma_count_none(t, j + 1, p);
    }
}

/// Pixel `p` of a row is black exactly when an odd number of its
/// transitions lie at or before `p`.
proof fn lemma_pixel_parity(row: Seq<u8>, n: int, p: int)
    requires
        0 <= p < n <= row.len() * 8,
        n <= i32::MAX,
    ensures
        (pixel(row, p) == 1u8) <==> count_from(transitions(row, n), 0, p) % 2 == 1,
    decreases n,
{
    let t0 = transitions(row, n - 1);
    lemma_transitions_shape(row, n - 1);
    lemma_pixel_is_bit(row, n - 1);
    if p < n - 1 {
        lemma_pixel_parity(row, n - 1, p);
        if pixel(row, n - 1) != colour_before(row, n - 1) {
            lemma_count_push(t0, (n - 1) as i32, 0, p);
        }
    } else {
        lemma_count_all_below(t0, 0, p);
        if n - 1 > 0 {
            lemma_pixel_parity(row, n - 1, n - 2);
            lemma_count_all_below(t0, 0, n - 2);
            lemma_pixel_is_bit(row, n - 2);
        }
        if pixel(row, n - 1) != colour_before(row, n - 1) {
            lemma_count_push(t0, (n - 1) as i32, 0, p);
        }
    }
}

/// Painting from pair index `i` of `[-1] + t + [w, w]` colours pixel `p`
/// exactly when an odd number of the transitions from `i - 1` on lie at
/// or before `p`.
proof fn lemma_painted_parity(t: Seq<i32>, w: i32, i: int, p: int)
    requires
        increasing_below(t, w as int),
        1 <= i,
        0 <= p < w,
    ensures
        painted(seq![-1i32] + t + seq![w, w], w as int, i, p) <==> count_from(t, i - 1, p) % 2 == 1,
    decreases t.len() + 3 - i,
{
    let tt = seq![-1i32] + t + seq![w, w];
    if i + 1 >= tt.len() {
        lemma_count_none(t, i - 1, p);
    } else if i > t.len() {
        assert(tt[i] == w);
        lemma_count_none(t, i - 1, p);
    } else {
        assert(tt[i] == t[i - 1]);
        lemma_painted_parity(t, w, i + 2, p);
        assert(painted(tt, w as int, i, p) == ((max0(tt[i]) <= p < min_w(tt[i + 1], w as int))
            || painted(tt, w as int, i + 2, p)));
        assert(count_from(t, i - 1, p) == (if t[i - 1] <= p { 1nat } else { 0nat }) + count_from(
            t,
            i,
            p,
        ));
        if i < t.len() {
            assert(count_from(t, i, p) == (if t[i] <= p { 1nat } else { 0nat }) + count_from(
                t,
                i + 1,
                p,
            ));
        }
        if p < t[i - 1] {
            lemma_count_none(t, i - 1, p);
            lemma_count_none(t, i + 1, p);
        } else if i < t.len() && p >= t[i] {
            assert(tt[i + 1] == t[i]);
        } else {
            lemma_count_none(t, i, p);
            if i < t.len() {
                assert(tt[i + 1] == t[i]);
            } else {
                assert(tt[i + 1] == w);
            }
        }
    }
}

proof fn lemma_painted_below_width(table: Seq<i32>, w: int, i: int, p: int)
    requires
        painted(table, w, i, p),
    ensures
        p < w,
    decreases table.len() - i,
{
    if i >= 0 && i + 1 < table.len() && max0(table[i]) < w {
        if !(max0(table[i]) <= p < min_w(table[i + 1], w)) {
            lemma_painted_below_width(table, w, i + 2, p);
        }
    }
}

/// Rendering the changing-elements table of a raw row gives back the
/// row's first `width` pixels, and paints nothing past them.
pub proof fn lemma_raw_table_round_trip(row: Seq<u8>, width: i32, p: int)
    requires
        0 <= width <= row.len() * 8,
        0 <= p,
    ensures
        p < width ==> (painted(spec_table_from_raw(row, width), width as int, 1, p) <==> pixel(row, p)
            == 1u8),
        p >= width ==> !painted(spec_table_from_raw(row, width), width as int, 1, p),
{
    let t = transitions(row, width as int);
    assert(spec_table_from_raw(row, width) == seq![-1i32] + t + seq![width, width]);
    if p < width {
        lemma_transitions_shape(row, width as int);
        lemma_painted_parity(t, width, 1, p);
        lemma_pixel_parity(row, width as int, p);
    } else if painted(spec_table_from_raw(row, width), width as int, 1, p) {
        lemma_painted_below_width(spec_table_from_raw(row, width), width as int, 1, p);
    }
}

/// Build the changing-elements table of the first `width` pixels of a
/// packed 1-bit MSB-first row (1 = black).
pub fn table_from_raw(row: &[u8], width: i32) -> (r: Vec<i32>)
    requires
        width <= row@.len() * 8,
    ensures
        r@ == spec_table_from_raw(row@, width),
        r@.len() <= 3 || r@.len() <= width + 3,
{
    let mut out: Vec<i32> = vec![-1];
    let mut colour: u8 = 0;
    let mut x: i32 = 0;
    while x < width
        invariant
            0 <= x,
            x <= width || x == 0,
            width <= row@.len() * 8,
            out@ == seq![-1i32] + transitions(row@, x as int),
            out@.len() <= x + 1,
            colour == colour_before(row@, x as int),
        decreases width - x,
    {
        let byte = row[(x / 8) as usize];
        let bit = (byte >> (7 - (x % 8)) as u8) & 1;
        let ghost t = transitions(row@, x as int);
        proof {
            assert(bit == pixel(row@, x as int));
            assert(bit <= 1u8) by (bit_vector)
                requires
                    bit == (byte >> ((7 - (x % 8)) as u8)) & 1u8,
            ;
            if x > 0 {
                let pb = row@[(x - 1) / 8];
                let q = (7 - (x - 1) % 8) as u8;
                assert((pb >> q) & 1u8 <= 1u8) by (bit_vector);
            }
            assert(colour <= 1u8);
        }
        if bit != colour {
            out.push(x);
            proof {
                assert(seq![-1i32] + t.push(x) =~= (seq![-1i32] + t).push(x));
            }
            let c = colour;
            colour = colour ^ 1;
            proof {
                assert(colour == bit) by (bit_vector)
                    requires
                        colour == c ^ 1u8,
                        c <= 1u8,
                        bit <= 1u8,
                        bit != c,
                ;
            }
        }
        x = x + 1;
    }
    out.push(width);
    out.push(width);
    proof {
        if width <= 0 {
            assert(transitions(row@, width as int) == Seq::<i32>::empty());
            assert(transitions(row@, x as int) == Seq::<i32>::empty());
        }
        assert(out@ =~= seq![-1i32] + transitions(row@, width as int) + seq![width, width]);
    }
    out
}

/// The `n` stream bits at `abs`, when the refill mode can supply them: a
/// lazy cursor stops at the end of the input, an eager one reads zeros
/// past it.
pub open spec fn peek_bits(data: Seq<u8>, abs: int, n: nat, lazy: bool) -> Option<nat> {
    if lazy && abs + n > data.len() * 8 {
        None
    } else {
        Some(stream_val(data, abs, n))
    }
}

/// Lazy and eager refill read the same bits: at the same position of the
/// same data, whenever a lazy read of `n` bits succeeds, an eager read of
/// `n` bits gives the same value.
pub proof fn lemma_lazy_eager_agree(data: Seq<u8>, abs: int, n: nat)
    ensures
        peek_bits(data, abs, n, true) is Some ==> peek_bits(data, abs, n, false) == peek_bits(
            data,
            abs,
            n,
            true,
        ),
{
}

/// The run codes of a colour (0 white, 1 black), terminating then make-up.
pub open spec fn colour_codes(colour: u32) -> Seq<(u32, u32, u32)> {
    if colour == 0 {
        spec_white_codes()
    } else {
        spec_black_codes()
    }
}

/// The code list of either colour is usable in a 13-bit lookup.
pub proof fn lemma_colour_codes_ok(colour: u32)
    ensures
        run_entries_ok(colour_codes(colour)),
{
    lemma_code_lists_ok();
}

/// One horizontal-mode run of `colour` read at bit `abs`: make-up codes
/// (run > 63) accumulate until a terminating code. Returns whether a run
/// was read, the bit position reached and the column reached (wrapping
/// `i32` arithmetic). No code begins past the end of the input.
pub open spec fn read_full_run(data: Seq<u8>, abs: int, x: i32, lazy: bool, colour: u32) -> (
    bool,
    int,
    i32,
)
    decreases data.len() * 8 + 16 - abs,
{
    if abs >= data.len() * 8 {
        (false, abs, x)
    } else {
        match peek_bits(data, abs, 13, lazy) {
            None => (false, abs, x),
            Some(v) => match first_run_hit(colour_codes(colour), v as u32) {
                None => (false, abs, x),
                Some(h) => {
                    let x2 = vstd::wrapping::i32_specs::wrapping_add(x, h.run as i32);
                    if h.run <= 63 {
                        (true, abs + h.code_len, x2)
                    } else {
                        proof {
                            lemma_colour_codes_ok(colour);
                            lemma_first_run_hit_len(colour_codes(colour), v as u32);
                        }
                        read_full_run(data, abs + h.code_len, x2, lazy, colour)
                    }
                },
            },
        }
    }
}

/// Advance the reference index by pairs while the reference entry is at
/// or before `x`.
pub open spec fn walk_forward(prev: Seq<i32>, tp: int, x: i32) -> int
    decreases prev.len() + 2 - tp,
{
    if 0 <= tp < prev.len() && prev[tp] <= x {
        walk_forward(prev, tp + 2, x)
    } else {
        tp
    }
}

/// Up to `k` b2-skips: advance by a pair while `x` is at or past the
/// reference entry.
pub open spec fn b2_skip(prev: Seq<i32>, tp: int, x: i32, k: nat) -> int
    decreases k,
{
    if k == 0 {
        tp
    } else if 0 <= tp < prev.len() && x >= prev[tp] {
        b2_skip(prev, tp + 2, x, (k - 1) as nat)
    } else {
        tp
    }
}

/// State of the line decoder between two codes.
pub struct LineState {
    /// Absolute bit position in the input.
    pub abs: int,
    /// Current column `a0`.
    pub x: i32,
    /// Index into the reference table.
    pub tp: int,
    /// Current colour (0 white, 1 black).
    pub colour: u32,
    /// Changing elements emitted so far.
    pub out: Seq<i32>,
    /// Codes processed so far.
    pub safety: int,
    /// No code processed yet.
    pub first: bool,
}

/// The effect of one two-dimensional code (after its bits, which end at
/// `abs1`); `Err(abs)` when the line fails with the stream at `abs`.
pub open spec fn mode_step(
    data: Seq<u8>,
    width: i32,
    prev: Seq<i32>,
    lazy: bool,
    bug4: bool,
    s: LineState,
    tp0: int,
    abs1: int,
    d: DispatchEntry,
) -> Result<LineState, int> {
    match d {
        DispatchEntry::H => {
            let r1 = read_full_run(data, abs1, s.x, lazy, s.colour);
            if !r1.0 {
                Err(r1.1)
            } else {
                let c1 = if s.colour == 0 { 1u32 } else { 0u32 };
                let r2 = read_full_run(data, r1.1, r1.2, lazy, c1);
                if !r2.0 {
                    Err(r2.1)
                } else {
                    let x = r2.2;
                    Ok(
                        LineState {
                            abs: r2.1,
                            x,
                            tp: if bug4 { walk_forward(prev, tp0, x) } else { tp0 },
                            colour: s.colour,
                            out: s.out.push(r1.2).push(x),
                            safety: s.safety + 1,
                            first: false,
                        },
                    )
                }
            }
        },
        DispatchEntry::P => {
            if tp0 + 1 >= prev.len() {
                Err(abs1)
            } else {
                Ok(
                    LineState {
                        abs: abs1,
                        x: prev[tp0 + 1],
                        tp: if bug4 { tp0 + 2 } else { tp0 },
                        colour: s.colour,
                        out: s.out,
                        safety: s.safety + 1,
                        first: false,
                    },
                )
            }
        },
        DispatchEntry::V(voff) => {
            if tp0 >= prev.len() {
                Err(abs1)
            } else {
                let x = vstd::wrapping::i32_specs::wrapping_add(prev[tp0], voff as i32);
                let flip = if x < width { if s.colour == 0 { 1u32 } else { 0u32 } } else { s.colour };
                let tp = if bug4 {
                    if voff > 0 && x < width {
                        b2_skip(prev, tp0 + 1, x, if voff == 3 { 2 } else { 1 })
                    } else {
                        tp0 + 1
                    }
                } else if x < width && tp0 >= 1 {
                    tp0 - 1
                } else {
                    tp0
                };
                Ok(
                    LineState {
                        abs: abs1,
                        x,
                        tp,
                        colour: flip,
                        out: s.out.push(x),
                        safety: s.safety + 1,
                        first: false,
                    },
                )
            }
        },
    }
}

/// The line decoder from state `s`: `(changing elements, final bit
/// position)`. A failure (no code, bits exhausted, missing reference entry,
/// or more than `limit` codes) yields `[-1, width, width, width]`.
pub open spec fn line_steps(
    data: Seq<u8>,
    width: i32,
    prev: Seq<i32>,
    lazy: bool,
    bug4: bool,
    limit: int,
    s: LineState,
) -> (Seq<i32>, int)
    decreases limit - s.safety,
{
    if s.x >= width {
        (s.out.push(width).push(width), s.abs)
    } else if s.safety + 1 > limit {
        (seq![-1i32, width, width, width], s.abs)
    } else {
        let tp0 = if !bug4 && !s.first { walk_forward(prev, s.tp, s.x) } else { s.tp };
        match peek_bits(data, s.abs, 7, lazy) {
            None => (seq![-1i32, width, width, width], s.abs),
            Some(v) => match last_twod_hit(spec_two_d(), v as u32) {
                None => (seq![-1i32, width, width, width], s.abs),
                Some(hit) => {
                    let abs1 = s.abs + hit.code_len;
                    if hit.dispatch_idx >= 9 {
                        (seq![-1i32, width, width, width], abs1)
                    } else {
                        match mode_step(
                            data,
                            width,
                            prev,
                            lazy,
                            bug4,
                            s,
                            tp0,
                            abs1,
                            spec_dispatch()[hit.dispatch_idx as int],
                        ) {
                            Err(a) => (seq![-1i32, width, width, width], a),
                            Ok(next) => line_steps(data, width, prev, lazy, bug4, limit, next),
                        }
                    }
                },
            },
        }
    }
}

/// The index of `b1` in the reference table `prev` for the line state
/// `s`: the reference changing element the next code is measured from.
pub open spec fn b1_index(prev: Seq<i32>, bug4: bool, s: LineState) -> int {
    if !bug4 && !s.first {
        walk_forward(prev, s.tp, s.x)
    } else {
        s.tp
    }
}

/// Whether the two-dimensional code at bit `abs` is the pass code `0001`
/// and can be read.
pub open spec fn pass_code_at(data: Seq<u8>, abs: int, lazy: bool) -> bool {
    &&& stream_val(data, abs, 4) == 1
    &&& (lazy ==> abs + 7 <= data.len() * 8)
}

proof fn lemma_pass_code_hit(data: Seq<u8>, abs: int, lazy: bool)
    requires
        pass_code_at(data, abs, lazy),
    ensures
        peek_bits(data, abs, 7, lazy) is Some,
        ({
            let v = peek_bits(data, abs, 7, lazy).unwrap();
            last_twod_hit(spec_two_d(), v as u32) == Some(DispatchHit { dispatch_idx: 8, code_len: 4 })
        }),
{
    lemma_stream_val_split(data, abs, 4, 3);
    lemma_stream_val_bound(data, abs + 4, 3);
    vstd::arithmetic::power2::lemma2_to64();
    let v = stream_val(data, abs, 7);
    assert(8 <= v < 16);
    let w = v as u32;
    assert(w >> 3u32 == 1u32) by (bit_vector)
        requires
            8u32 <= w < 16u32,
    ;
}

/// Pass mode moves `a0` to `b2`: when the next code of a line is the pass
/// code `0001`, the decoder emits no changing element, keeps its colour,
/// consumes the four code bits and continues from column `prev[b1 + 1]`,
/// the reference changing element right after `b1`.
pub proof fn lemma_pass_mode_moves_to_b2(
    data: Seq<u8>,
    width: i32,
    prev: Seq<i32>,
    lazy: bool,
    bug4: bool,
    limit: int,
    s: LineState,
)
    requires
        s.x < width,
        s.safety + 1 <= limit,
        pass_code_at(data, s.abs, lazy),
        b1_index(prev, bug4, s) + 1 < prev.len(),
    ensures
        ({
            let tp0 = b1_index(prev, bug4, s);
            line_steps(data, width, prev, lazy, bug4, limit, s) == line_steps(
                data,
                width,
                prev,
                lazy,
                bug4,
                limit,
                LineState {
                    abs: s.abs + 4,
                    x: prev[tp0 + 1],
                    tp: if bug4 { tp0 + 2 } else { tp0 },
                    colour: s.colour,
                    out: s.out,
                    safety: s.safety + 1,
                    first: false,
                },
            )
        }),
{
    lemma_pass_code_hit(data, s.abs, lazy);
}

/// A vertical code `V0` at the same point instead lands on `b1` itself:
/// when the next code is `1`, the decoder continues from column
/// `prev[b1]`, so a pass code moves one reference element further.
pub proof fn lemma_v0_moves_to_b1(
    data: Seq<u8>,
    width: i32,
    prev: Seq<i32>,
    lazy: bool,
    bug4: bool,
    limit: int,
    s: LineState,
)
    requires
        s.x < width,
        s.safety + 1 <= limit,
        stream_val(data, s.abs, 1) == 1,
        lazy ==> s.abs + 7 <= data.len() * 8,
        b1_index(prev, bug4, s) < prev.len(),
    ensures
        exists|next: LineState|
            next.x == prev[b1_index(prev, bug4, s)] && next.abs == s.abs + 1 && line_steps(
                data,
                width,
                prev,
                lazy,
                bug4,
                limit,
                s,
            ) == #[trigger] line_steps(data, width, prev, lazy, bug4, limit, next),
{
    lemma_stream_val_split(data, s.abs, 1, 6);
    lemma_stream_val_bound(data, s.abs + 1, 6);
    vstd::arithmetic::power2::lemma2_to64();
    let v = stream_val(data, s.abs, 7);
    assert(64 <= v < 128);
    let w = v as u32;
    assert(w >> 6u32 == 1u32 && w >> 4u32 != 1u32 && w >> 4u32 != 3u32 && w >> 1u32 != 2u32
        && w >> 1u32 != 3u32 && w >> 0u32 != 2u32 && w >> 0u32 != 3u32 && w >> 3u32 != 1u32) by (bit_vector)
        requires
            64u32 <= w < 128u32,
    ;
    let tp0 = b1_index(prev, bug4, s);
    let x = vstd::wrapping::i32_specs::wrapping_add(prev[tp0], 0i32);
    assert(x == prev[tp0]);
    assert(last_twod_hit(spec_two_d(), w) == Some(DispatchHit { dispatch_idx: 3, code_len: 1 })) by {
        reveal_with_fuel(last_twod_hit, 7);
    }
    let r = mode_step(data, width, prev, lazy, bug4, s, tp0, s.abs + 1, DispatchEntry::V(0i8));
    let next = r->Ok_0;
    assert(line_steps(data, width, prev, lazy, bug4, limit, s) == line_steps(data, width, prev, lazy, bug4, limit, next));
}

/// Vertical mode `V(k)` (`k` in `-3..=3`) puts the next changing element
/// `a1` at `b1 + k`: it is emitted, the colour changes when it lies inside
/// the row, and decoding continues right after the code.
pub proof fn lemma_vertical_mode_lands_at_b1_plus_k(
    data: Seq<u8>,
    width: i32,
    prev: Seq<i32>,
    lazy: bool,
    bug4: bool,
    s: LineState,
    tp0: int,
    abs1: int,
    k: i8,
)
    requires
        -3 <= k <= 3,
        0 <= tp0 < prev.len(),
        i32::MIN <= prev[tp0] + k <= i32::MAX,
        s.colour <= 1,
    ensures
        mode_step(data, width, prev, lazy, bug4, s, tp0, abs1, DispatchEntry::V(k)) is Ok,
        ({
            let n = mode_step(data, width, prev, lazy, bug4, s, tp0, abs1, DispatchEntry::V(k))->Ok_0;
            &&& n.x == prev[tp0] + k
            &&& n.out == s.out.push(n.x)
            &&& n.abs == abs1
            &&& n.colour == if n.x < width { (1 - s.colour) as u32 } else { s.colour }
        }),
{
    let x = vstd::wrapping::i32_specs::wrapping_add(prev[tp0], k as i32);
    assert(x == prev[tp0] + k);
}

/// Horizontal mode reads a run of the current colour starting at `a0`,
/// then a run of the other colour: both ends `a1`, `a2` are emitted, the
/// colour is kept, and decoding continues at `a2`.
pub proof fn lemma_horizontal_mode_reads_two_runs(
    data: Seq<u8>,
    width: i32,
    prev: Seq<i32>,
    lazy: bool,
    bug4: bool,
    s: LineState,
    tp0: int,
    abs1: int,
)
    requires
        s.colour <= 1,
        read_full_run(data, abs1, s.x, lazy, s.colour).0,
        read_full_run(
            data,
            read_full_run(data, abs1, s.x, lazy, s.colour).1,
            read_full_run(data, abs1, s.x, lazy, s.colour).2,
            lazy,
            (1 - s.colour) as u32,
        ).0,
    ensures
        mode_step(data, width, prev, lazy, bug4, s, tp0, abs1, DispatchEntry::H) is Ok,
        ({
            let r1 = read_full_run(data, abs1, s.x, lazy, s.colour);
            let r2 = read_full_run(data, r1.1, r1.2, lazy, (1 - s.colour) as u32);
            let n = mode_step(data, width, prev, lazy, bug4, s, tp0, abs1, DispatchEntry::H)->Ok_0;
            &&& n.out == s.out.push(r1.2).push(r2.2)
            &&& n.x == r2.2
            &&& n.abs == r2.1
            &&& n.colour == s.colour
        }),
{
}

/// Colour 0 reads white run codes and colour 1 black run codes.
pub proof fn lemma_colour_codes()
    ensures
        colour_codes(0) == spec_white_codes(),
        colour_codes(1) == spec_black_codes(),
{
}

/// A line that opens with a pass code skips the first reference run: it
/// continues, white, from column `prev[2]` (`b2` of the line start) with
/// no changing element emitted.
pub proof fn lemma_line_opening_with_pass(
    data: Seq<u8>,
    start: int,
    width: i32,
    prev: Seq<i32>,
    lazy: bool,
    bug4: bool,
)
    requires
        0 < width,
        width * 4 + 100 >= 1,
        pass_code_at(data, start * 8, lazy),
        prev.len() >= 3,
    ensures
        ({
            let r = line_steps(
                data,
                width,
                prev,
                lazy,
                bug4,
                width * 4 + 100,
                LineState {
                    abs: start * 8 + 4,
                    x: prev[2],
                    tp: if bug4 { 3 } else { 1 },
                    colour: 0,
                    out: seq![-1i32],
                    safety: 1,
                    first: false,
                },
            );
            spec_decomp_line(data, start, width, prev, lazy, bug4) == (r.0, r.1 - start * 8)
        }),
{
    let init = LineState {
        abs: start * 8,
        x: 0,
        tp: 1,
        colour: 0,
        out: seq![-1i32],
        safety: 0,
        first: true,
    };
    lemma_pass_mode_moves_to_b2(data, width, prev, lazy, bug4, width * 4 + 100, init);
}

/// A table of changing elements as the line decoder emits it: it opens
/// with `-1` and closes with `width` twice.
pub open spec fn line_table_shape(t: Seq<i32>, width: i32) -> bool {
    &&& t.len() >= 3
    &&& t[0] == -1
    &&& t[t.len() - 2] == width
    &&& t[t.len() - 1] == width
}

proof fn lemma_line_steps_shape(
    data: Seq<u8>,
    width: i32,
    prev: Seq<i32>,
    lazy: bool,
    bug4: bool,
    limit: int,
    s: LineState,
)
    requires
        s.out.len() >= 1,
        s.out[0] == -1,
    ensures
        line_table_shape(line_steps(data, width, prev, lazy, bug4, limit, s).0, width),
    decreases limit - s.safety,
{
    if s.x >= width || s.safety + 1 > limit {
    } else {
        let tp0 = if !bug4 && !s.first { walk_forward(prev, s.tp, s.x) } else { s.tp };
        match peek_bits(data, s.abs, 7, lazy) {
            None => {},
            Some(v) => match last_twod_hit(spec_two_d(), v as u32) {
                None => {},
                Some(hit) => {
                    let abs1 = s.abs + hit.code_len;
                    if hit.dispatch_idx < 9 {
                        let d = spec_dispatch()[hit.dispatch_idx as int];
                        match mode_step(data, width, prev, lazy, bug4, s, tp0, abs1, d) {
                            Err(a) => {},
                            Ok(next) => {
                                assert(next.out.len() >= 1 && next.out[0] == -1);
                                lemma_line_steps_shape(data, width, prev, lazy, bug4, limit, next);
                            },
                        }
                    }
                },
            },
        }
    }
}

/// Every line the decoder returns, decoded or failed, is a table that
/// starts with `-1` and ends with `width` twice.
pub proof fn lemma_decomp_line_shape(
    data: Seq<u8>,
    start: int,
    width: i32,
    prev: Seq<i32>,
    lazy: bool,
    bug4: bool,
)
    ensures
        line_table_shape(spec_decomp_line(data, start, width, prev, lazy, bug4).0, width),
{
    let init = LineState {
        abs: start * 8,
        x: 0,
        tp: 1,
        colour: 0,
        out: seq![-1i32],
        safety: 0,
        first: true,
    };
    lemma_line_steps_shape(data, width, prev, lazy, bug4, width * 4 + 100, init);
}

/// One CCITT-T.6 line decoded from byte `start` against the reference
/// table `prev`: `(changing elements, bits consumed)`.
pub open spec fn spec_decomp_line(
    data: Seq<u8>,
    start: int,
    width: i32,
    prev: Seq<i32>,
    lazy: bool,
    bug4: bool,
) -> (Seq<i32>, int) {
    let init = LineState {
        abs: start * 8,
        x: 0,
        tp: 1,
        colour: 0,
        out: seq![-1i32],
        safety: 0,
        first: true,
    };
    let r = line_steps(data, width, prev, lazy, bug4, width * 4 + 100, init);
    (r.0, r.1 - start * 8)
}

proof fn lemma_run_lazy_eager(data: Seq<u8>, abs: int, x: i32, colour: u32)
    ensures
        read_full_run(data, abs, x, true, colour).1 >= abs,
        read_full_run(data, abs, x, false, colour).1 >= abs,
        read_full_run(data, abs, x, true, colour).1 + 13 <= data.len() * 8 ==> read_full_run(
            data,
            abs,
            x,
            true,
            colour,
        ) == read_full_run(data, abs, x, false, colour),
    decreases data.len() * 8 + 16 - abs,
{
    if abs < data.len() * 8 {
        match peek_bits(data, abs, 13, false) {
            None => {},
            Some(v) => match first_run_hit(colour_codes(colour), v as u32) {
                None => {},
                Some(h) => {
                    if h.run > 63 {
                        lemma_colour_codes_ok(colour);
                        lemma_first_run_hit_len(colour_codes(colour), v as u32);
                        let x2 = vstd::wrapping::i32_specs::wrapping_add(x, h.run as i32);
                        lemma_run_lazy_eager(data, abs + h.code_len, x2, colour);
                    }
                },
            },
        }
        if abs + 13 <= data.len() * 8 {
            lemma_lazy_eager_agree(data, abs, 13);
        }
    }
}

#[verifier::rlimit(60)]
#[verifier::spinoff_prover]
proof fn lemma_steps_lazy_eager(
    data: Seq<u8>,
    width: i32,
    prev: Seq<i32>,
    bug4: bool,
    limit: int,
    s: LineState,
)
    ensures
        line_steps(data, width, prev, true, bug4, limit, s).1 >= s.abs,
        line_steps(data, width, prev, true, bug4, limit, s).1 + 13 <= data.len() * 8 ==> line_steps(
            data,
            width,
            prev,
            true,
            bug4,
            limit,
            s,
        ) == line_steps(data, width, prev, false, bug4, limit, s),
    decreases limit - s.safety,
{
    if s.x >= width || s.safety + 1 > limit {
    } else {
        let tp0 = if !bug4 && !s.first { walk_forward(prev, s.tp, s.x) } else { s.tp };
        lemma_lazy_eager_agree(data, s.abs, 7);
        match peek_bits(data, s.abs, 7, true) {
            None => {},
            Some(v) => match last_twod_hit(spec_two_d(), v as u32) {
                None => {},
                Some(hit) => {
                    lemma_two_d_ok();
                    lemma_last_twod_hit_index(spec_two_d(), v as u32);
                    let abs1 = s.abs + hit.code_len;
                    if hit.dispatch_idx < 9 {
                        let d = spec_dispatch()[hit.dispatch_idx as int];
                        match d {
                            DispatchEntry::H => {
                                lemma_run_lazy_eager(data, abs1, s.x, s.colour);
                                let r1 = read_full_run(data, abs1, s.x, true, s.colour);
                                let c1 = if s.colour == 0 { 1u32 } else { 0u32 };
                                lemma_run_lazy_eager(data, r1.1, r1.2, c1);
                            },
                            _ => {},
                        }
                        match mode_step(data, width, prev, true, bug4, s, tp0, abs1, d) {
                            Err(a) => {},
                            Ok(next) => {
                                lemma_steps_lazy_eager(data, width, prev, bug4, limit, next);
                            },
                        }
                    }
                },
            },
        }
    }
}

/// A line that the lazy decoder finishes at least 13 bits before the end
/// of the input decodes the same with lazy and with eager refill.
pub proof fn lemma_lazy_eager_line(
    data: Seq<u8>,
    start: int,
    width: i32,
    prev: Seq<i32>,
    bug4: bool,
)
    requires
        start * 8 + spec_decomp_line(data, start, width, prev, true, bug4).1 + 13 <= data.len() * 8,
    ensures
        spec_decomp_line(data, start, width, prev, true, bug4) == spec_decomp_line(
            data,
            start,
            width,
            prev,
            false,
            bug4,
        ),
{
    let init = LineState {
        abs: start * 8,
        x: 0,
        tp: 1,
        colour: 0,
        out: seq![-1i32],
        safety: 0,
        first: true,
    };
    lemma_steps_lazy_eager(data, width, prev, bug4, width * 4 + 100, init);
}

/// Input lengths the decoder can count bits of.
pub open spec fn input_len_ok(n: int) -> bool {
    n + 0x10000 <= usize::MAX && n <= 0x0800_0000_0000_0000
}

/// The cursor of a line that started at byte `start`, with its position
/// bounded by the input.
pub open spec fn cursor_ok(bc: BitCursor, data: Seq<u8>, start: int, lazy: bool) -> bool {
    &&& bc.wf()
    &&& bc.data_view() == data
    &&& bc.is_lazy() == lazy
    &&& 0 <= start
    &&& start * 8 <= bc.abs_pos() <= data.len() * 8 + 16
    &&& bc.consumed() == bc.abs_pos() - start * 8
    &&& input_len_ok(data.len() as int)
}

proof fn lemma_cursor_bounds(bc: BitCursor, data: Seq<u8>, start: int, lazy: bool)
    requires
        cursor_ok(bc, data, start, lazy),
    ensures
        bc.next_byte() + 4 <= usize::MAX,
        bc.next_byte() >= start,
        bc.next_byte() <= data.len() + 7,
{
    bc.lemma_wf_facts();
}

fn fail_table(width: i32, bc: &BitCursor, start_pos: usize, Ghost(data): Ghost<Seq<u8>>, Ghost(lazy): Ghost<bool>) -> (r: (Vec<i32>, i64))
    requires
        cursor_ok(*bc, data, start_pos as int, lazy),
    ensures
        r.0@ == seq![-1i32, width, width, width],
        r.1 == bc.abs_pos() - start_pos * 8,
{
    proof {
        lemma_cursor_bounds(*bc, data, start_pos as int, lazy);
        bc.lemma_wf_facts();
    }
    let consumed = ((bc.next_load_byte() - start_pos) as i64) * 8 - bc.bits_buffered() as i64;
    let v = vec![-1, width, width, width];
    proof {
        assert(v@ =~= seq![-1i32, width, width, width]);
    }
    (v, consumed)
}

/// Read one horizontal-mode run with the cursor (see `read_full_run`).
fn read_run(
    bc: &mut BitCursor,
    x: i32,
    colour: u32,
    tables: &CodeTables,
    Ghost(data): Ghost<Seq<u8>>,
    Ghost(start): Ghost<int>,
    Ghost(lazy): Ghost<bool>,
) -> (r: (bool, i32))
    requires
        cursor_ok(*old(bc), data, start, lazy),
        tables.wf(),
        colour <= 1,
    ensures
        cursor_ok(*final(bc), data, start, lazy),
        (r.0, final(bc).abs_pos(), r.1) == read_full_run(data, old(bc).abs_pos(), x, lazy, colour),
{
    let mut xx = x;
    proof {
        lemma_colour_codes_ok(colour);
        lemma_first_run_hit_zero(colour_codes(colour));
    }
    loop
        invariant
            cursor_ok(*bc, data, start, lazy),
            tables.wf(),
            colour <= 1,
            run_entries_ok(colour_codes(colour)),
            first_run_hit(colour_codes(colour), 0) is None,
            read_full_run(data, old(bc).abs_pos(), x, lazy, colour) == read_full_run(
                data,
                bc.abs_pos(),
                xx,
                lazy,
                colour,
            ),
        decreases data.len() * 8 + 16 - bc.abs_pos(),
    {
        let ghost a = bc.abs_pos();
        proof {
            lemma_cursor_bounds(*bc, data, start, lazy);
        }
        let top13 = match bc.peek(13) {
            Some(v) => v,
            None => {
                return (false, xx);
            },
        };
        proof {
            lemma_stream_val_bound(data, a, 13);
            vstd::arithmetic::power2::lemma2_to64();
        }
        let hit = if colour == 0 {
            tables.white[top13 as usize]
        } else {
            tables.black[top13 as usize]
        };
        assert(hit == first_run_hit(colour_codes(colour), top13));
        let h = match hit {
            Some(h) => h,
            None => {
                proof {
                    if a >= data.len() * 8 {
                        crate::bitstream::lemma_stream_val_past_end(data, a, 13);
                    }
                }
                return (false, xx);
            },
        };
        proof {
            lemma_first_run_hit_len(colour_codes(colour), top13);
            if top13 == 0 {
                assert(false);
            }
            lemma_stream_val_nonzero(data, a, 13);
            bc.lemma_wf_facts();
        }
        bc.consume(h.code_len);
        xx = xx.wrapping_add(h.run as i32);
        if h.run <= 63 {
            return (true, xx);
        }
    }
}

/// Walk the reference index forward past entries at or before `x`.
fn walk_forward_exec(prev: &[i32], tp: usize, x: i32) -> (r: usize)
    requires
        tp <= prev@.len() + 1,
        prev@.len() + 2 <= usize::MAX,
    ensures
        r == walk_forward(prev@, tp as int, x),
        r <= prev@.len() + 1,
{
    let mut t = tp;
    while t < prev.len() && prev[t] <= x
        invariant
            t <= prev@.len() + 1,
            prev@.len() + 2 <= usize::MAX,
            walk_forward(prev@, tp as int, x) == walk_forward(prev@, t as int, x),
        decreases prev@.len() + 2 - t,
    {
        t = t + 2;
    }
    t
}

/// Up to `k` b2-skips of the reference index.
fn b2_skip_exec(prev: &[i32], tp: usize, x: i32, k: u32) -> (r: usize)
    requires
        tp <= prev@.len() + 1,
        prev@.len() + 2 <= usize::MAX,
    ensures
        r == b2_skip(prev@, tp as int, x, k as nat),
        r <= prev@.len() + 1,
    decreases k,
{
    if k == 0 {
        tp
    } else if tp < prev.len() && x >= prev[tp] {
        b2_skip_exec(prev, tp + 2, x, k - 1)
    } else {
        tp
    }
}

/// Decode one CCITT-T.6 line starting at byte `start_pos` against the
/// reference table `table_prev`. Returns `(changing elements, bits
/// consumed)`; on any failure the table is `[-1, width, width, width]`,
/// which renders as an all-white row.
///
/// `lazy` selects byte-by-byte refill; `bug4` selects the canonical
/// reference-table walk (otherwise the legacy scan-forward).
#[verifier::rlimit(100)]
pub fn decomp_line(
    data: &[u8],
    start_pos: usize,
    width: i32,
    table_prev: &[i32],
    lazy: bool,
    bug4: bool,
    tables: &CodeTables,
) -> (r: (Vec<i32>, i64))
    requires
        tables.wf(),
        start_pos <= data@.len(),
        input_len_ok(data@.len() as int),
        table_prev@.len() + 2 <= usize::MAX,
        i32::MIN <= width * 4,
        width * 4 + 100 < i32::MAX,
    ensures
        (r.0@, r.1 as int) == spec_decomp_line(data@, start_pos as int, width, table_prev@, lazy, bug4),
        0 <= r.1 <= (data@.len() - start_pos) * 8 + 16,
        r.0@.len() <= 4 || r.0@.len() <= 2 * (width * 4 + 100) + 3,
        r.0@.len() >= 3,
        line_table_shape(r.0@, width),
{
    proof {
        lemma_decomp_line_shape(data@, start_pos as int, width, table_prev@, lazy, bug4);
    }
    let mut bc = BitCursor::with_start(data, start_pos, lazy);
    let mut out: Vec<i32> = vec![-1];
    let mut tp_idx: usize = 1;
    let mut colour: u32 = 0;
    let mut x: i32 = 0;
    let mut safety: i32 = 0;
    let mut first_iter = true;
    let safety_limit = width * 4 + 100;
    let ghost d = data@;
    let ghost prev = table_prev@;
    let ghost start = start_pos as int;
    let ghost limit = safety_limit as int;
    let ghost init = LineState {
        abs: start * 8,
        x: 0,
        tp: 1,
        colour: 0,
        out: seq![-1i32],
        safety: 0,
        first: true,
    };
    proof {
        assert(out@ =~= seq![-1i32]);
        lemma_two_d_ok();
        lemma_last_twod_hit_zero(spec_two_d());
        bc.lemma_wf_facts();
    }
    while x < width
        invariant
            cursor_ok(bc, d, start, lazy),
            tables.wf(),
            d == data@,
            start == start_pos as int,
            init == (LineState {
                abs: start * 8,
                x: 0,
                tp: 1,
                colour: 0,
                out: seq![-1i32],
                safety: 0,
                first: true,
            }),
            prev == table_prev@,
            table_prev@.len() + 2 <= usize::MAX,
            limit == width * 4 + 100,
            safety_limit == limit,
            width * 4 + 100 < i32::MAX,
            0 <= safety,
            safety > 0 ==> safety <= limit,
            out@.len() <= 1 + 2 * safety,
            out@.len() >= 1,
            colour <= 1,
            tp_idx <= table_prev@.len() + 1,
            last_twod_hit(spec_two_d(), 0) is None,
            forall|i: int| 0 <= i < spec_two_d().len() ==> #[trigger] crate::ccitt::twod_entry_ok(
                spec_two_d()[i],
            ),
            spec_two_d().len() == 9,
            spec_dispatch().len() == 9,
            line_steps(d, width, prev, lazy, bug4, limit, init) == line_steps(
                d,
                width,
                prev,
                lazy,
                bug4,
                limit,
                LineState {
                    abs: bc.abs_pos(),
                    x,
                    tp: tp_idx as int,
                    colour,
                    out: out@,
                    safety: safety as int,
                    first: first_iter,
                },
            ),
        decreases limit - safety,
    {
        let ghost s = LineState {
            abs: bc.abs_pos(),
            x,
            tp: tp_idx as int,
            colour,
            out: out@,
            safety: safety as int,
            first: first_iter,
        };
        safety += 1;
        if safety > safety_limit {
            proof {
                assert(line_steps(d, width, prev, lazy, bug4, limit, s) == (seq![-1i32, width, width, width], s.abs));
            }
            return fail_table(width, &bc, start_pos, Ghost(d), Ghost(lazy));
        }
        if !bug4 && !first_iter {
            tp_idx = walk_forward_exec(table_prev, tp_idx, x);
        }
        let ghost tp0 = tp_idx as int;
        first_iter = false;
        let ghost a = bc.abs_pos();
        proof {
            lemma_cursor_bounds(bc, d, start, lazy);
        }
        let top7 = match bc.peek(7) {
            Some(v) => v,
            None => {
                proof {
                    assert(peek_bits(d, a, 7, lazy) is None);
                    assert(line_steps(d, width, prev, lazy, bug4, limit, s) == (seq![-1i32, width, width, width], s.abs));
                }
                return fail_table(width, &bc, start_pos, Ghost(d), Ghost(lazy));
            },
        };
        proof {
            lemma_stream_val_bound(d, a, 7);
            vstd::arithmetic::power2::lemma2_to64();
        }
        let entry = match tables.tab7[top7 as usize] {
            Some(e) => e,
            None => {
                return fail_table(width, &bc, start_pos, Ghost(d), Ghost(lazy));
            },
        };
        proof {
            lemma_last_twod_hit_index(spec_two_d(), top7);
            assert(crate::ccitt::twod_entry_ok(spec_two_d()[entry.dispatch_idx as int]));
            if top7 == 0 {
                assert(false);
            }
            lemma_stream_val_nonzero(d, a, 7);
            bc.lemma_wf_facts();
        }
        bc.consume(entry.code_len);
        let ghost abs1 = bc.abs_pos();
        let dispatch = tables.dispatch[entry.dispatch_idx as usize];
        match dispatch {
            DispatchEntry::H => {
                let (ok1, x1) = read_run(&mut bc, x, colour, tables, Ghost(d), Ghost(start), Ghost(lazy));
                if !ok1 {
                    return fail_table(width, &bc, start_pos, Ghost(d), Ghost(lazy));
                }
                out.push(x1);
                let c0 = colour;
                colour = colour ^ 1;
                proof {
                    assert(colour == (if c0 == 0 { 1u32 } else { 0u32 })) by (bit_vector)
                        requires
                            colour == c0 ^ 1u32,
                            c0 <= 1u32,
                    ;
                }
                let (ok2, x2) = read_run(&mut bc, x1, colour, tables, Ghost(d), Ghost(start), Ghost(lazy));
                if !ok2 {
                    return fail_table(width, &bc, start_pos, Ghost(d), Ghost(lazy));
                }
                out.push(x2);
                let c1 = colour;
                colour = colour ^ 1;
                proof {
                    assert(colour == c0) by (bit_vector)
                        requires
                            colour == c1 ^ 1u32,
                            c1 == (if c0 == 0 { 1u32 } else { 0u32 }),
                            c0 <= 1u32,
                    ;
                }
                x = x2;
                if bug4 {
                    tp_idx = walk_forward_exec(table_prev, tp_idx, x);
                }
            },
            DispatchEntry::P => {
                if tp_idx + 1 >= table_prev.len() {
                    return fail_table(width, &bc, start_pos, Ghost(d), Ghost(lazy));
                }
                x = table_prev[tp_idx + 1];
                if bug4 {
                    tp_idx += 2;
                }
            },
            DispatchEntry::V(voff) => {
                if tp_idx >= table_prev.len() {
                    return fail_table(width, &bc, start_pos, Ghost(d), Ghost(lazy));
                }
                let b1 = table_prev[tp_idx];
                x = b1.wrapping_add(voff as i32);
                out.push(x);
                if bug4 {
                    tp_idx += 1;
                    if voff > 0 && x < width {
                        let max_skips: u32 = if voff == 3 {
                            2
                        } else {
                            1
                        };
                        tp_idx = b2_skip_exec(table_prev, tp_idx, x, max_skips);
                    }
                } else {
                    if x < width && tp_idx >= 1 {
                        tp_idx -= 1;
                    }
                }
                if x < width {
                    let c0 = colour;
                    colour = colour ^ 1;
                    proof {
                        assert(colour == (if c0 == 0 { 1u32 } else { 0u32 })) by (bit_vector)
                            requires
                                colour == c0 ^ 1u32,
                                c0 <= 1u32,
                        ;
                    }
                }
            },
        }
        proof {
            assert(spec_dispatch()[entry.dispatch_idx as int] == dispatch);
        }
    }
    out.push(width);
    out.push(width);
    proof {
        lemma_cursor_bounds(bc, d, start, lazy);
        bc.lemma_wf_facts();
    }
    let consumed = ((bc.next_load_byte() - start_pos) as i64) * 8 - bc.bits_buffered() as i64;
    (out, consumed)
}

} // verus!
