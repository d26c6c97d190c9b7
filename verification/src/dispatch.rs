//! Per-line marker dispatcher of an image chunk.
//!
//! The line stream starts at chunk offset `+0x42`. Each line begins with a
//! marker byte whose top two bits select the handler:
//! type 0 is a raw line (`low6 == 1`), a skipped line (`low6 == 3`) or a
//! stray byte; type 1 is a stray byte; type 2 is a CCITT-T.6 compressed
//! line; type 3 is a run of `low6 + 1` blank lines, or a stray byte after a
//! low-confidence dispatch. The dispatcher never reads past the chunk.

use vstd::prelude::*;
use crate::ccitt::CodeTables;
use crate::chunks::{ChunkRef, le_u16, read_u16_at, spec_read_u16_at, IMAGE_CHUNK_MIN_LEN, MAX_IMAGE_PIXELS};
use crate::config::{Config, DispatchKind, T0DropMode};
use crate::decoder::{DecodeStats, Page, Preview, line_bytes_of, row_bytes_of, decomp_line, spec_decomp_line, table_from_raw, spec_table_from_raw, table_to_row, spec_row, input_len_ok, lemma_lazy_eager_line};
use crate::error::MaxError;
use crate::preview::{decode_preview_chunk, preview_present, preview_of_chunk};

verus! {

/// `n` copies of `v`.
pub open spec fn fill(n: int, v: i32) -> Seq<i32> {
    Seq::new(n as nat, |i: int| v)
}

/// The all-white reference table: `-1`, then `width + 16` copies of
/// `width`.
pub open spec fn spec_sentinel(width: i32) -> Seq<i32> {
    seq![-1i32] + fill(width + 16, width)
}

/// Build the all-white reference table of a row of `width` pixels:
/// `-1`, then `width + 16` copies of `width` (as `i32`).
pub fn make_sentinel(width: u32) -> (r: Vec<i32>)
    requires
        width + 16 <= usize::MAX,
    ensures
        r@ == seq![-1i32] + fill(width + 16, width as i32),
        width <= i32::MAX ==> r@ == spec_sentinel(width as i32),
{
    let mut v: Vec<i32> = Vec::new();
    v.push(-1i32);
    let n = width as usize + 16;
    let w = width as i32;
    let mut i: usize = 0;
    while i < n
        invariant
            n == width + 16,
            w == width as i32,
            i <= n,
            v@ == seq![-1i32] + fill(i as int, w),
        decreases n - i,
    {
        v.push(w);
        i += 1;
        proof {
            assert(v@ =~= seq![-1i32] + fill(i as int, w));
        }
    }
    v
}

/// `bm` with the bytes from `at` on replaced by `row`.
pub open spec fn write_row(bm: Seq<u8>, at: int, row: Seq<u8>) -> Seq<u8> {
    Seq::new(bm.len(), |k: int| if at <= k < at + row.len() { row[k - at] } else { bm[k] })
}

/// Copy `src` into `bitmap` from byte `at` on.
fn copy_into(bitmap: &mut Vec<u8>, at: usize, src: &[u8])
    requires
        at + src@.len() <= old(bitmap)@.len(),
    ensures
        final(bitmap)@ == write_row(old(bitmap)@, at as int, src@),
{
    let ghost b0 = bitmap@;
    let n = bitmap.len();
    let mut i: usize = 0;
    while i < src.len()
        invariant
            n == b0.len(),
            at + src@.len() <= b0.len(),
            bitmap@.len() == b0.len(),
            i <= src@.len(),
            forall|k: int|
                0 <= k < b0.len() ==> #[trigger] bitmap@[k] == (if at <= k < at + i {
                    src@[k - at]
                } else {
                    b0[k]
                }),
        decreases src@.len() - i,
    {
        bitmap.set(at + i, src[i]);
        i += 1;
    }
    proof {
        assert(bitmap@ =~= write_row(b0, at as int, src@));
    }
}

/// The reference table that follows a decoded line: `-1`, the line's
/// changing elements after its leading `-1`, then 16 copies of `width`.
pub open spec fn next_reference(table: Seq<i32>, width: i32) -> Seq<i32> {
    seq![-1i32] + table.subrange(1, table.len() as int) + fill(16, width)
}

fn make_next_reference(table: &Vec<i32>, width: i32) -> (r: Vec<i32>)
    requires
        1 <= table@.len(),
    ensures
        r@ == next_reference(table@, width),
{
    let mut v: Vec<i32> = Vec::new();
    v.push(-1i32);
    let mut i: usize = 1;
    while i < table.len()
        invariant
            1 <= i <= table@.len(),
            v@ == seq![-1i32] + table@.subrange(1, i as int),
        decreases table@.len() - i,
    {
        v.push(table[i]);
        i += 1;
        proof {
            assert(v@ =~= seq![-1i32] + table@.subrange(1, i as int));
        }
    }
    let mut k: usize = 0;
    while k < 16
        invariant
            k <= 16,
            v@ == seq![-1i32] + table@.subrange(1, table@.len() as int) + fill(k as int, width),
        decreases 16 - k,
    {
        v.push(width);
        k += 1;
        proof {
            assert(v@ =~= seq![-1i32] + table@.subrange(1, table@.len() as int) + fill(
                k as int,
                width,
            ));
        }
    }
    v
}

/// The reference table of a raw line: its changing elements followed by
/// 16 copies of `width`.
pub open spec fn raw_reference(row: Seq<u8>, width: i32) -> Seq<i32> {
    spec_table_from_raw(row, width) + fill(16, width)
}

/// What the dispatcher of one chunk works on.
pub struct ChunkGeometry {
    /// The whole file.
    pub data: Seq<u8>,
    /// The byte after the chunk.
    pub end: int,
    /// Image width in pixels.
    pub width: i32,
    /// Image height in rows.
    pub height: int,
    /// Bytes of a raw line.
    pub line_bytes: int,
    /// Bytes of a bitmap row.
    pub row_bytes: int,
}

/// The dispatcher's state between two markers.
pub struct DispatchState {
    /// Position of the next marker byte.
    pub pos: int,
    /// Next bitmap row.
    pub y: int,
    /// Reference table for the next compressed line.
    pub ref_table: Seq<i32>,
    /// The bitmap so far.
    pub bitmap: Seq<u8>,
    /// Counters so far.
    pub stats: DecodeStats,
    /// Current run of failed or V0-only lines.
    pub consecutive_fail: int,
    /// Whether the last dispatch was a low-confidence one.
    pub last_drift: bool,
    /// The kind of the last dispatch that had one (a blank run clears it,
    /// a skipped line or a dropped marker leaves it).
    pub last_kind: Option<DispatchKind>,
    /// Set when a raw line runs past the chunk: decoding stops there.
    pub stopped: bool,
}

/// The counters after one more failed compressed line at row `y`.
pub open spec fn stats_after_fail(s: DecodeStats, cf: int, y: int) -> DecodeStats {
    DecodeStats {
        n_fail: (s.n_fail + 1) as u32,
        max_consecutive_fail: if cf > s.max_consecutive_fail {
            cf as u32
        } else {
            s.max_consecutive_fail
        },
        first_fail_y: if s.first_fail_y is None {
            Some(y as u32)
        } else {
            s.first_fail_y
        },
        ..s
    }
}

/// The counters after one more V0-only compressed line.
pub open spec fn stats_after_v0(s: DecodeStats, cf: int) -> DecodeStats {
    DecodeStats {
        n_v0: (s.n_v0 + 1) as u32,
        max_consecutive_fail: if cf > s.max_consecutive_fail {
            cf as u32
        } else {
            s.max_consecutive_fail
        },
        ..s
    }
}

/// Whether `t0_drop_after_drift` drops a type-0 marker that follows a
/// dispatch of kind `last`: the mode is on and, when `t0_drop_kinds` is
/// given, `last` is one of them.
pub open spec fn t0_drop_applies(cfg: Config, last: Option<DispatchKind>) -> bool {
    &&& cfg.t0_drop_after_drift != T0DropMode::Disabled
    &&& match cfg.t0_drop_kinds {
        None => true,
        Some(ks) => last is Some && ks@.contains(last->0),
    }
}

/// The reference table after a low-confidence dispatch: all white when
/// `reset_ref_after_drift`, else unchanged.
pub open spec fn ref_after_drift(g: ChunkGeometry, cfg: Config, t: Seq<i32>) -> Seq<i32> {
    if cfg.reset_ref_after_drift {
        spec_sentinel(g.width)
    } else {
        t
    }
}

/// The `fail_scan_forward` search: from `q` on, within `left` bytes and
/// the chunk, the first byte whose top two bits are `10` (a type-2
/// marker); `p` when there is none.
pub open spec fn scan_forward(g: ChunkGeometry, p: int, q: int, left: int) -> int
    decreases (if left > 0 { left } else { 0 }),
{
    if left <= 0 || q < 0 || q >= g.end {
        p
    } else if g.data[q] / 64 == 2 {
        q
    } else {
        scan_forward(g, p, q + 1, left - 1)
    }
}

/// The `fail_scan_forward` search lands at or after its start, and
/// inside the chunk when it starts there.
pub proof fn lemma_scan_forward_range(g: ChunkGeometry, p: int, q: int, left: int)
    requires
        p <= q,
    ensures
        p <= scan_forward(g, p, q, left),
        q < g.end ==> scan_forward(g, p, q, left) < g.end,
    decreases (if left > 0 { left } else { 0 }),
{
    if left <= 0 || q < 0 || q >= g.end {
    } else if g.data[q] / 64 == 2 {
    } else {
        lemma_scan_forward_range(g, p, q + 1, left - 1);
        if q + 1 >= g.end {
        }
    }
}

/// Total resync probes allowed per page: `fail_resync_budget`, with 0
/// and anything above 1024 read as 1024.
pub open spec fn resync_cap(cfg: Config) -> int {
    if cfg.fail_resync_budget == 0 || cfg.fail_resync_budget > 1024 {
        1024
    } else {
        cfg.fail_resync_budget as int
    }
}

/// The resync probe range `K`: `fail_resync_max`, at most 64.
pub open spec fn resync_span(cfg: Config) -> int {
    if cfg.fail_resync_max > 64 {
        64
    } else {
        cfg.fail_resync_max as int
    }
}

/// The lines a resync probe looks ahead, `M`: `fail_resync_lookahead`,
/// at most 64.
pub open spec fn resync_lines(cfg: Config) -> int {
    if cfg.fail_resync_lookahead > 64 {
        64
    } else {
        cfg.fail_resync_lookahead as int
    }
}

/// A lookahead probe: dispatch up to `steps` markers from byte `q` against
/// the reference table `t`, writing nothing, and count
/// `(n_ok, n_drift)`: decoded compressed lines, and failed or V0-only
/// lines, type-1 markers and stray type-0 bytes. Raw and skipped lines and
/// blank runs count as neither. It stops at the chunk end and at a raw
/// line that runs past it.
pub open spec fn probe_lines(g: ChunkGeometry, lazy: bool, bug4: bool, q: int, t: Seq<i32>, steps: int) -> (
    int,
    int,
)
    decreases (if steps > 0 { steps } else { 0 }),
{
    if steps <= 0 || q < 0 || q >= g.end {
        (0, 0)
    } else {
        let m = g.data[q];
        let typ = m / 64;
        let low6 = m % 64;
        let lb = g.line_bytes;
        if typ == 2 {
            let line = spec_decomp_line(g.data, q + 1, g.width, t, lazy, bug4);
            let adv = if line.1 > 0 { (line.1 + 7) / 8 } else { 0 };
            if line.0 == seq![-1i32, g.width, g.width, g.width] {
                let r = probe_lines(g, lazy, bug4, q + 1 + adv, t, steps - 1);
                (r.0, r.1 + 1)
            } else {
                let r = probe_lines(g, lazy, bug4, q + 1 + adv, next_reference(line.0, g.width), steps - 1);
                (r.0 + 1, r.1)
            }
        } else if typ == 1 {
            let r = probe_lines(g, lazy, bug4, q + 1, t, steps - 1);
            (r.0, r.1 + 1)
        } else if typ == 0 {
            if low6 == 1 {
                if q + 1 + lb <= g.end {
                    probe_lines(
                        g,
                        lazy,
                        bug4,
                        q + 1 + lb,
                        raw_reference(g.data.subrange(q + 1, q + 1 + lb), g.width),
                        steps - 1,
                    )
                } else {
                    (0, 0)
                }
            } else if low6 == 3 {
                probe_lines(g, lazy, bug4, q + 1 + lb, t, steps - 1)
            } else {
                let r = probe_lines(g, lazy, bug4, q + 1, t, steps - 1);
                (r.0, r.1 + 1)
            }
        } else {
            probe_lines(g, lazy, bug4, q + 1, spec_sentinel(g.width), steps - 1)
        }
    }
}

proof fn lemma_probe_counts(g: ChunkGeometry, lazy: bool, bug4: bool, q: int, t: Seq<i32>, steps: int)
    ensures
        0 <= probe_lines(g, lazy, bug4, q, t, steps).0,
        0 <= probe_lines(g, lazy, bug4, q, t, steps).1,
        probe_lines(g, lazy, bug4, q, t, steps).0 + probe_lines(g, lazy, bug4, q, t, steps).1 <= (
        if steps > 0 { steps } else { 0 }),
    decreases (if steps > 0 { steps } else { 0 }),
{
    if steps <= 0 || q < 0 || q >= g.end {
    } else {
        let m = g.data[q];
        let typ = m / 64;
        let low6 = m % 64;
        let lb = g.line_bytes;
        if typ == 2 {
            let line = spec_decomp_line(g.data, q + 1, g.width, t, lazy, bug4);
            let adv = if line.1 > 0 { (line.1 + 7) / 8 } else { 0 };
            lemma_probe_counts(g, lazy, bug4, q + 1 + adv, t, steps - 1);
            lemma_probe_counts(g, lazy, bug4, q + 1 + adv, next_reference(line.0, g.width), steps - 1);
        } else if typ == 1 {
            lemma_probe_counts(g, lazy, bug4, q + 1, t, steps - 1);
        } else if typ == 0 {
            if low6 == 1 {
                if q + 1 + lb <= g.end {
                    lemma_probe_counts(
                        g,
                        lazy,
                        bug4,
                        q + 1 + lb,
                        raw_reference(g.data.subrange(q + 1, q + 1 + lb), g.width),
                        steps - 1,
                    );
                }
            } else if low6 == 3 {
                lemma_probe_counts(g, lazy, bug4, q + 1 + lb, t, steps - 1);
            } else {
                lemma_probe_counts(g, lazy, bug4, q + 1, t, steps - 1);
            }
        } else {
            lemma_probe_counts(g, lazy, bug4, q + 1, spec_sentinel(g.width), steps - 1);
        }
    }
}

/// The `i`-th resync candidate offset: 0, -1, +1, -2, +2, ...
pub open spec fn cand_offset(i: int) -> int {
    if i % 2 == 1 {
        -((i + 1) / 2)
    } else {
        i / 2
    }
}

/// The resync search from candidate `i` on, with `left` probes of the
/// budget left and `best` the best `(offset, score)` so far: each
/// candidate `p + offset` that lies in `[lo, end)` is probed and scored
/// `n_ok - n_drift`; a later candidate wins only with a strictly higher
/// score, so ties go to the smaller `|offset|`. Returns the best and the
/// number of probes run.
pub open spec fn resync_search(
    g: ChunkGeometry,
    lazy: bool,
    bug4: bool,
    span: int,
    lines: int,
    lo: int,
    p: int,
    t: Seq<i32>,
    i: int,
    left: int,
    best: Option<(int, int)>,
) -> (Option<(int, int)>, int)
    decreases (if 2 * span + 1 - i > 0 { 2 * span + 1 - i } else { 0 }),
{
    if i < 0 || i >= 2 * span + 1 || left <= 0 {
        (best, 0)
    } else {
        let q = p + cand_offset(i);
        if q < lo || q >= g.end {
            resync_search(g, lazy, bug4, span, lines, lo, p, t, i + 1, left, best)
        } else {
            let r = probe_lines(g, lazy, bug4, q, t, lines);
            let sc = r.0 - r.1;
            let nb = if best is None || sc > best.unwrap().1 {
                Some((cand_offset(i), sc))
            } else {
                best
            };
            let rest = resync_search(g, lazy, bug4, span, lines, lo, p, t, i + 1, left - 1, nb);
            (rest.0, rest.1 + 1)
        }
    }
}

/// Whether the dispatch before a failed line was itself low-confidence
/// (a failed or V0-only line, a stray type-0 byte or a type-1 marker):
/// then the failure is not isolated and no resync is tried.
pub open spec fn after_drift_kind(last: Option<DispatchKind>) -> bool {
    last == Some(DispatchKind::Fail) || last == Some(DispatchKind::V0) || last == Some(
        DispatchKind::Bad,
    ) || last == Some(DispatchKind::T1)
}

/// The smart-resync search after a failed line at `s.pos` whose naive next
/// marker is `p`: run when `fail_resync_max > 0` and the failure is
/// isolated, over candidates after the failed marker, within the budget
/// left. Returns the best `(offset, score)` and the probes run.
pub open spec fn fail_resync(g: ChunkGeometry, cfg: Config, s: DispatchState, p: int) -> (
    Option<(int, int)>,
    int,
) {
    if cfg.fail_resync_max > 0 && !after_drift_kind(s.last_kind) {
        resync_search(
            g,
            cfg.lazy_bit_loading,
            cfg.bug4,
            resync_span(cfg),
            resync_lines(cfg),
            s.pos + 1,
            p,
            s.ref_table,
            0,
            resync_cap(cfg) - s.stats.resync_probes,
            None,
        )
    } else {
        (None, 0)
    }
}

/// Whether a resync search result is committed: a best candidate scoring
/// at least `fail_resync_min_confidence`.
pub open spec fn resync_commits(cfg: Config, r: (Option<(int, int)>, int)) -> bool {
    r.0 is Some && r.0.unwrap().1 >= cfg.fail_resync_min_confidence
}

/// Handle the marker at `s.pos`.
pub open spec fn dispatch_step(g: ChunkGeometry, cfg: Config, s: DispatchState) -> DispatchState {
    let marker = g.data[s.pos];
    let typ = marker / 64;
    let low6 = marker % 64;
    let lb = g.line_bytes;
    if typ == 0 {
        let stats = DecodeStats { n_t0: (s.stats.n_t0 + 1) as u32, ..s.stats };
        if s.last_drift && t0_drop_applies(cfg, s.last_kind) {
            if cfg.t0_drop_after_drift == T0DropMode::Marker {
                DispatchState { pos: s.pos + 1, stats, last_drift: false, ..s }
            } else {
                DispatchState { pos: s.pos + 1 + lb, stats, last_drift: false, ..s }
            }
        } else if !cfg.strict_t0 || low6 == 1 {
            if s.pos + 1 + lb <= g.end {
                let row = g.data.subrange(s.pos + 1, s.pos + 1 + lb);
                DispatchState {
                    pos: s.pos + 1 + lb,
                    y: s.y + 1,
                    ref_table: raw_reference(row, g.width),
                    bitmap: write_row(s.bitmap, s.y * g.row_bytes, row),
                    stats,
                    consecutive_fail: 0,
                    last_drift: false,
                    last_kind: Some(DispatchKind::T0),
                    stopped: false,
                }
            } else {
                DispatchState { stats, stopped: true, ..s }
            }
        } else if low6 == 3 {
            DispatchState { pos: s.pos + 1 + lb, stats, ..s }
        } else {
            DispatchState {
                pos: s.pos + 1,
                stats,
                last_drift: true,
                last_kind: Some(DispatchKind::Bad),
                ref_table: ref_after_drift(g, cfg, s.ref_table),
                ..s
            }
        }
    } else if typ == 1 {
        DispatchState {
            pos: s.pos + 1,
            stats: DecodeStats { n_t1: (s.stats.n_t1 + 1) as u32, ..s.stats },
            last_drift: true,
            last_kind: Some(DispatchKind::T1),
            ref_table: ref_after_drift(g, cfg, s.ref_table),
            ..s
        }
    } else if typ == 2 {
        let line = spec_decomp_line(
            g.data,
            s.pos + 1,
            g.width,
            s.ref_table,
            cfg.lazy_bit_loading,
            cfg.bug4,
        );
        let table = line.0;
        let consumed = line.1;
        let advance = if consumed > 0 { (consumed + 7) / 8 } else { 0 };
        let is_fail = table == seq![-1i32, g.width, g.width, g.width];
        let cf = s.consecutive_fail + 1;
        let p = s.pos + 1 + advance;
        if is_fail && consumed != 1 {
            let cascade = cfg.suppress_t2_fail_y_in_cascade && s.last_kind == Some(
                DispatchKind::Fail,
            );
            let rs = fail_resync(g, cfg, s, p);
            let hit = resync_commits(cfg, rs);
            let st = stats_after_fail(s.stats, cf, s.y);
            DispatchState {
                pos: if hit {
                    p + rs.0.unwrap().0
                } else {
                    scan_forward(g, p, p, cfg.fail_scan_forward as int)
                },
                y: if cascade { s.y } else { s.y + 1 },
                ref_table: ref_after_drift(g, cfg, s.ref_table),
                stats: DecodeStats {
                    resync_probes: (st.resync_probes + rs.1) as u32,
                    resync_hits: (st.resync_hits + if hit { 1int } else { 0int }) as u32,
                    ..st
                },
                consecutive_fail: cf,
                last_drift: true,
                last_kind: Some(DispatchKind::Fail),
                ..s
            }
        } else if is_fail {
            DispatchState {
                pos: p,
                y: s.y + 1,
                ref_table: ref_after_drift(g, cfg, s.ref_table),
                stats: stats_after_v0(s.stats, cf),
                consecutive_fail: cf,
                last_drift: true,
                last_kind: Some(DispatchKind::V0),
                ..s
            }
        } else {
            DispatchState {
                pos: p,
                y: s.y + 1,
                ref_table: next_reference(table, g.width),
                bitmap: write_row(
                    s.bitmap,
                    s.y * g.row_bytes,
                    spec_row(table, g.width as int, g.row_bytes),
                ),
                stats: DecodeStats { n_ok: (s.stats.n_ok + 1) as u32, ..s.stats },
                consecutive_fail: 0,
                last_drift: false,
                last_kind: Some(DispatchKind::Success),
                stopped: false,
            }
        }
    } else if cfg.drop_blank_after_drift && s.last_drift {
        DispatchState {
            pos: s.pos + 1,
            stats: DecodeStats {
                blank_drops_after_drift: (s.stats.blank_drops_after_drift + 1) as u32,
                ..s.stats
            },
            ..s
        }
    } else {
        let y2 = s.y + low6 + 1;
        DispatchState {
            pos: s.pos + 1,
            y: if y2 < g.height { y2 } else { g.height },
            ref_table: spec_sentinel(g.width),
            last_drift: false,
            last_kind: None,
            ..s
        }
    }
}

/// Dispatch markers until the image is complete, the chunk is exhausted,
/// or a raw line runs past the chunk.
pub open spec fn dispatch_run(g: ChunkGeometry, cfg: Config, s: DispatchState) -> DispatchState
    decreases (if s.pos < g.end { g.end - s.pos } else { 0 }),
    when g.line_bytes >= 0
{
    if s.stopped || s.y >= g.height || s.pos < 0 || s.pos >= g.end {
        s
    } else {
        proof {
            lemma_step_advances(g, cfg, s);
        }
        let n = dispatch_step(g, cfg, s);
        if n.stopped {
            n
        } else {
            dispatch_run(g, cfg, n)
        }
    }
}

/// The number of markers `dispatch_run` handles from `s` on.
pub open spec fn dispatch_count(g: ChunkGeometry, cfg: Config, s: DispatchState) -> nat
    decreases (if s.pos < g.end { g.end - s.pos } else { 0 }),
    when g.line_bytes >= 0
{
    if s.stopped || s.y >= g.height || s.pos < 0 || s.pos >= g.end {
        0
    } else {
        proof {
            lemma_step_advances(g, cfg, s);
        }
        let n = dispatch_step(g, cfg, s);
        if n.stopped {
            1
        } else {
            1 + dispatch_count(g, cfg, n)
        }
    }
}

/// Every marker the dispatcher handles moves the read position forward by
/// at least one byte, unless decoding stops there.
pub proof fn lemma_step_advances(g: ChunkGeometry, cfg: Config, s: DispatchState)
    requires
        g.line_bytes >= 0,
        0 <= s.pos < g.end,
    ensures
        dispatch_step(g, cfg, s).stopped || dispatch_step(g, cfg, s).pos >= s.pos + 1,
        dispatch_step(g, cfg, s).bitmap.len() == s.bitmap.len(),
{
    let line = spec_decomp_line(g.data, s.pos + 1, g.width, s.ref_table, cfg.lazy_bit_loading, cfg.bug4);
    let advance = if line.1 > 0 { (line.1 + 7) / 8 } else { 0 };
    let p = s.pos + 1 + advance;
    lemma_scan_forward_range(g, p, p, cfg.fail_scan_forward as int);
    if cfg.fail_resync_max > 0 && !after_drift_kind(s.last_kind) {
        lemma_resync_search_range(
            g,
            cfg.lazy_bit_loading,
            cfg.bug4,
            resync_span(cfg),
            resync_lines(cfg),
            s.pos + 1,
            p,
            s.ref_table,
            0,
            resync_cap(cfg) - s.stats.resync_probes,
            None,
        );
    }
}

/// The resync search runs no more probes than the budget left, and its
/// best candidate lies in `[lo, end)`; it has one only if it ran a probe
/// or started with one.
pub proof fn lemma_resync_search_range(
    g: ChunkGeometry,
    lazy: bool,
    bug4: bool,
    span: int,
    lines: int,
    lo: int,
    p: int,
    t: Seq<i32>,
    i: int,
    left: int,
    best: Option<(int, int)>,
)
    requires
        best is Some ==> lo <= p + best.unwrap().0 < g.end,
    ensures
        ({
            let r = resync_search(g, lazy, bug4, span, lines, lo, p, t, i, left, best);
            &&& 0 <= r.1
            &&& r.1 <= (if left > 0 { left } else { 0 })
            &&& r.0 is Some ==> lo <= p + r.0.unwrap().0 < g.end
            &&& (r.0 is Some && best is None) ==> r.1 >= 1
        }),
    decreases (if 2 * span + 1 - i > 0 { 2 * span + 1 - i } else { 0 }),
{
    if i < 0 || i >= 2 * span + 1 || left <= 0 {
    } else {
        let q = p + cand_offset(i);
        if q < lo || q >= g.end {
            lemma_resync_search_range(g, lazy, bug4, span, lines, lo, p, t, i + 1, left, best);
        } else {
            let r = probe_lines(g, lazy, bug4, q, t, lines);
            let sc = r.0 - r.1;
            let nb = if best is None || sc > best.unwrap().1 {
                Some((cand_offset(i), sc))
            } else {
                best
            };
            lemma_resync_search_range(g, lazy, bug4, span, lines, lo, p, t, i + 1, left - 1, nb);
        }
    }
}

proof fn lemma_run_bounds(g: ChunkGeometry, cfg: Config, s: DispatchState)
    requires
        g.line_bytes >= 0,
        0 <= s.pos,
    ensures
        dispatch_count(g, cfg, s) <= (if s.pos < g.end { g.end - s.pos } else { 0 }),
        dispatch_run(g, cfg, s).bitmap.len() == s.bitmap.len(),
    decreases (if s.pos < g.end { g.end - s.pos } else { 0 }),
{
    if s.stopped || s.y >= g.height || s.pos >= g.end {
    } else {
        lemma_step_advances(g, cfg, s);
        let n = dispatch_step(g, cfg, s);
        if !n.stopped {
            lemma_run_bounds(g, cfg, n);
        }
    }
}

/// Decoding a chunk handles at most one marker per byte of its line
/// stream: the work is bounded by the chunk's length, whatever the bytes.
pub proof fn lemma_markers_bounded(data: Seq<u8>, start: int, length: int, cfg: Config)
    requires
        0 <= start,
        IMAGE_CHUNK_MIN_LEN <= length,
    ensures
        dispatch_count(chunk_geometry(data, start, length), cfg, initial_state(data, start, length))
            <= length - 0x42,
{
    lemma_run_bounds(chunk_geometry(data, start, length), cfg, initial_state(data, start, length));
}

/// The resync counters' bounds between markers.
pub open spec fn resync_counters_ok(cfg: Config, st: DecodeStats) -> bool {
    &&& st.resync_probes <= resync_cap(cfg)
    &&& st.resync_hits <= st.resync_probes
    &&& st.n_fail == 0 ==> st.resync_probes == 0
    &&& cfg.fail_resync_max == 0 ==> st.resync_probes == 0
}

proof fn lemma_step_resync(g: ChunkGeometry, cfg: Config, s: DispatchState)
    requires
        g.line_bytes >= 0,
        0 <= s.pos < g.end,
        resync_counters_ok(cfg, s.stats),
        s.stats.n_fail < u32::MAX,
    ensures
        resync_counters_ok(cfg, dispatch_step(g, cfg, s).stats),
        dispatch_step(g, cfg, s).stats.n_fail <= s.stats.n_fail + 1,
{
    let line = spec_decomp_line(g.data, s.pos + 1, g.width, s.ref_table, cfg.lazy_bit_loading, cfg.bug4);
    let advance = if line.1 > 0 { (line.1 + 7) / 8 } else { 0 };
    let p = s.pos + 1 + advance;
    if cfg.fail_resync_max > 0 && !after_drift_kind(s.last_kind) {
        lemma_resync_search_range(
            g,
            cfg.lazy_bit_loading,
            cfg.bug4,
            resync_span(cfg),
            resync_lines(cfg),
            s.pos + 1,
            p,
            s.ref_table,
            0,
            resync_cap(cfg) - s.stats.resync_probes,
            None,
        );
    }
}

proof fn lemma_run_resync(g: ChunkGeometry, cfg: Config, s: DispatchState)
    requires
        g.line_bytes >= 0,
        0 <= s.pos,
        resync_counters_ok(cfg, s.stats),
        s.stats.n_fail + (if s.pos < g.end { g.end - s.pos } else { 0 }) <= u32::MAX,
    ensures
        resync_counters_ok(cfg, dispatch_run(g, cfg, s).stats),
    decreases (if s.pos < g.end { g.end - s.pos } else { 0 }),
{
    if s.stopped || s.y >= g.height || s.pos >= g.end {
    } else {
        lemma_step_advances(g, cfg, s);
        lemma_step_resync(g, cfg, s);
        let n = dispatch_step(g, cfg, s);
        if !n.stopped {
            lemma_run_resync(g, cfg, n);
        }
    }
}

/// Smart resync stays within its budget: on every decoded page the probes
/// run are at most `resync_cap(cfg)` (1024 when `fail_resync_budget` is 0),
/// no more resyncs are committed than probes run, and no probe runs when
/// `fail_resync_max` is 0 or no line failed.
pub proof fn lemma_page_resync_bounded(page: Page, data: Seq<u8>, start: int, length: int, cfg: Config)
    requires
        0 <= start,
        IMAGE_CHUNK_MIN_LEN <= length <= u32::MAX,
        page_of_chunk(page, data, start, length, cfg),
    ensures
        page.stats.resync_probes <= resync_cap(cfg),
        page.stats.resync_hits <= page.stats.resync_probes,
        page.stats.n_fail == 0 ==> page.stats.resync_probes == 0,
        cfg.fail_resync_max == 0 ==> page.stats.resync_probes == 0 && page.stats.resync_hits == 0,
{
    lemma_run_resync(chunk_geometry(data, start, length), cfg, initial_state(data, start, length));
}

/// Whether two configurations agree on every switch the dispatcher reads.
pub open spec fn same_dispatch_switches(a: Config, b: Config) -> bool {
    &&& a.lazy_bit_loading == b.lazy_bit_loading
    &&& same_line_switches(a, b)
}

/// Whether two configurations agree on every switch the dispatcher reads
/// but `lazy_bit_loading`.
pub open spec fn same_line_switches(a: Config, b: Config) -> bool {
    &&& a.bug4 == b.bug4
    &&& a.strict_t0 == b.strict_t0
    &&& a.drop_blank_after_drift == b.drop_blank_after_drift
    &&& a.t0_drop_after_drift == b.t0_drop_after_drift
    &&& a.t0_drop_kinds == b.t0_drop_kinds
    &&& a.fail_scan_forward == b.fail_scan_forward
    &&& a.suppress_t2_fail_y_in_cascade == b.suppress_t2_fail_y_in_cascade
    &&& a.reset_ref_after_drift == b.reset_ref_after_drift
    &&& a.fail_resync_max == b.fail_resync_max
    &&& a.fail_resync_lookahead == b.fail_resync_lookahead
    &&& a.fail_resync_min_confidence == b.fail_resync_min_confidence
    &&& a.fail_resync_budget == b.fail_resync_budget
}

#[verifier::rlimit(80)]
#[verifier::spinoff_prover]
proof fn lemma_run_same_switches(g: ChunkGeometry, a: Config, b: Config, s: DispatchState)
    requires
        g.line_bytes >= 0,
        0 <= s.pos,
        same_dispatch_switches(a, b),
    ensures
        dispatch_run(g, a, s) == dispatch_run(g, b, s),
    decreases (if s.pos < g.end { g.end - s.pos } else { 0 }),
{
    if s.stopped || s.y >= g.height || s.pos >= g.end {
    } else {
        lemma_step_advances(g, a, s);
        assert(dispatch_step(g, a, s) == dispatch_step(g, b, s));
        let n = dispatch_step(g, a, s);
        if !n.stopped {
            lemma_run_same_switches(g, a, b, n);
        }
    }
}

/// The decoded image depends on the configuration only through the
/// switches `same_dispatch_switches` compares: `t0_reset`,
/// `suppress_t1_all`, `embed_preview` and `max_pages` leave bitmap and
/// counters unchanged.
pub proof fn lemma_decoding_ignores_other_switches(
    data: Seq<u8>,
    start: int,
    length: int,
    a: Config,
    b: Config,
)
    requires
        0 <= start,
        same_dispatch_switches(a, b),
    ensures
        decoded_chunk(data, start, length, a) == decoded_chunk(data, start, length, b),
{
    lemma_run_same_switches(chunk_geometry(data, start, length), a, b, initial_state(data, start, length));
}

/// Whether every compressed line the dispatcher decodes from `s` on, with
/// byte-by-byte refill, ends at least 13 bits before the end of the data.
pub open spec fn lazy_lines_clear(g: ChunkGeometry, cfg: Config, s: DispatchState) -> bool
    decreases (if s.pos < g.end { g.end - s.pos } else { 0 }),
    when g.line_bytes >= 0
{
    if s.stopped || s.y >= g.height || s.pos < 0 || s.pos >= g.end {
        true
    } else {
        let line_clear = g.data[s.pos] / 64 == 2 ==> (s.pos + 1) * 8 + spec_decomp_line(
            g.data,
            s.pos + 1,
            g.width,
            s.ref_table,
            true,
            cfg.bug4,
        ).1 + 13 <= g.data.len() * 8;
        proof {
            lemma_step_advances(g, cfg, s);
        }
        let n = dispatch_step(g, cfg, s);
        line_clear && (n.stopped || lazy_lines_clear(g, cfg, n))
    }
}

#[verifier::rlimit(80)]
#[verifier::spinoff_prover]
proof fn lemma_run_lazy_eager(g: ChunkGeometry, lazy: Config, eager: Config, s: DispatchState)
    requires
        g.line_bytes >= 0,
        0 <= s.pos,
        lazy.lazy_bit_loading,
        !eager.lazy_bit_loading,
        same_line_switches(lazy, eager),
        lazy.fail_resync_max == 0,
        lazy_lines_clear(g, lazy, s),
    ensures
        dispatch_run(g, lazy, s) == dispatch_run(g, eager, s),
    decreases (if s.pos < g.end { g.end - s.pos } else { 0 }),
{
    if s.stopped || s.y >= g.height || s.pos >= g.end {
    } else {
        if g.data[s.pos] / 64 == 2 {
            lemma_lazy_eager_line(g.data, s.pos + 1, g.width, s.ref_table, lazy.bug4);
        }
        assert(dispatch_step(g, lazy, s) == dispatch_step(g, eager, s));
        lemma_step_advances(g, lazy, s);
        let n = dispatch_step(g, lazy, s);
        if !n.stopped {
            lemma_run_lazy_eager(g, lazy, eager, n);
        }
    }
}

/// Lazy (byte-by-byte) and eager refill decode a chunk identically when
/// every compressed line the lazy decoder reads ends at least 13 bits
/// before the end of the data (with smart resync off, whose probes decode
/// further lines).
pub proof fn lemma_lazy_eager_chunk(data: Seq<u8>, start: int, length: int, cfg: Config)
    requires
        0 <= start,
        cfg.lazy_bit_loading,
        cfg.fail_resync_max == 0,
        lazy_lines_clear(chunk_geometry(data, start, length), cfg, initial_state(data, start, length)),
    ensures
        decoded_chunk(data, start, length, cfg) == decoded_chunk(
            data,
            start,
            length,
            Config { lazy_bit_loading: false, ..cfg },
        ),
{
    lemma_run_lazy_eager(
        chunk_geometry(data, start, length),
        cfg,
        Config { lazy_bit_loading: false, ..cfg },
        initial_state(data, start, length),
    );
}

/// The all-white reference line of a row `width` pixels wide, as the
/// decoder's tables hold it: `-1`, then `width + 16` entries equal to
/// `width` (every changing element at the right edge).
pub open spec fn all_white_reference(width: i32) -> Seq<i32> {
    Seq::new((width + 17) as nat, |i: int| if i == 0 { -1i32 } else { width })
}

/// A blank-run marker that is not dropped as drift resets the reference
/// line to all white: the next compressed line decodes against white,
/// whatever lines came before, exactly as at the start of the chunk.
pub proof fn lemma_blank_run_resets_reference(g: ChunkGeometry, cfg: Config, s: DispatchState)
    requires
        0 <= s.pos < g.end,
        g.width >= 0,
        g.data[s.pos] / 64 == 3,
        !(cfg.drop_blank_after_drift && s.last_drift),
    ensures
        dispatch_step(g, cfg, s).ref_table == all_white_reference(g.width),
{
    assert(spec_sentinel(g.width) =~= all_white_reference(g.width));
}

/// Two dispatcher states that differ only in their reference lines leave
/// a blank-run marker with the same state.
pub proof fn lemma_blank_run_forgets_reference(
    g: ChunkGeometry,
    cfg: Config,
    s: DispatchState,
    t: Seq<i32>,
)
    requires
        0 <= s.pos < g.end,
        g.data[s.pos] / 64 == 3,
        !(cfg.drop_blank_after_drift && s.last_drift),
    ensures
        dispatch_step(g, cfg, s) == dispatch_step(g, cfg, DispatchState { ref_table: t, ..s }),
{
}

/// The chunk starts from the all-white reference line.
pub proof fn lemma_chunk_starts_white(data: Seq<u8>, start: int, length: int)
    requires
        chunk_width(data, start) <= 0xFFFF,
    ensures
        initial_state(data, start, length).ref_table == all_white_reference(
            chunk_geometry(data, start, length).width,
        ),
{
    let w = chunk_geometry(data, start, length).width;
    assert(spec_sentinel(w) =~= all_white_reference(w));
}

/// A decoded page takes its size and resolution from the chunk header:
/// width at chunk offset `0x26`, height at `0x28`, horizontal and vertical
/// DPI at `0x2a` and `0x2c` (little-endian), a stored DPI of 0 read as
/// 300, and rows padded to a multiple of four bytes.
pub proof fn lemma_page_header_fields(page: Page, data: Seq<u8>, start: int, length: int, cfg: Config)
    requires
        page_of_chunk(page, data, start, length, cfg),
    ensures
        page.width == le_u16(data, start + 0x26),
        page.height == le_u16(data, start + 0x28),
        page.dpi_x == if le_u16(data, start + 0x2a) == 0 { 300 } else { le_u16(data, start + 0x2a) },
        page.dpi_y == if le_u16(data, start + 0x2c) == 0 { 300 } else { le_u16(data, start + 0x2c) },
        page.row_bytes % 4 == 0,
        page.row_bytes * 8 >= page.width,
        page.row_bytes * 8 < page.width + 32,
{
    crate::decoder::lemma_row_bytes_padded(page.width as int);
}

/// Every decoded page's bitmap holds `row_bytes * height` bytes.
pub proof fn lemma_page_bitmap_len(page: Page, data: Seq<u8>, start: int, length: int, cfg: Config)
    requires
        0 <= start,
        page_of_chunk(page, data, start, length, cfg),
    ensures
        page.bitmap@.len() == page.row_bytes * page.height,
{
    let g = chunk_geometry(data, start, length);
    lemma_run_bounds(g, cfg, initial_state(data, start, length));
    assert(g.row_bytes * g.height >= 0) by (nonlinear_arith)
        requires
            g.row_bytes >= 0,
            g.height >= 0,
    ;
}

/// Chunk-relative little-endian `u16` header field.
pub open spec fn chunk_u16(data: Seq<u8>, start: int, off: int) -> int {
    le_u16(data, start + off)
}

/// Declared image width of the chunk at `start`.
pub open spec fn chunk_width(data: Seq<u8>, start: int) -> int {
    chunk_u16(data, start, 0x26)
}

/// Declared image height of the chunk at `start`.
pub open spec fn chunk_height(data: Seq<u8>, start: int) -> int {
    chunk_u16(data, start, 0x28)
}

/// A stored DPI, with 0 read as 300.
pub open spec fn dpi_or_default(v: int) -> int {
    if v == 0 {
        300
    } else {
        v
    }
}

/// Whether the chunk's declared pixel count exceeds `MAX_IMAGE_PIXELS`.
pub open spec fn chunk_too_large(data: Seq<u8>, start: int) -> bool {
    chunk_width(data, start) * chunk_height(data, start) > MAX_IMAGE_PIXELS
}

/// The error for a chunk that is too large.
pub open spec fn too_large_error(data: Seq<u8>, start: int) -> MaxError {
    MaxError::ImageTooLarge {
        width: chunk_width(data, start) as u32,
        height: chunk_height(data, start) as u32,
        pixels: (chunk_width(data, start) * chunk_height(data, start)) as u64,
        max: MAX_IMAGE_PIXELS,
    }
}

/// The dispatcher's view of the chunk at `start` of `length` bytes.
pub open spec fn chunk_geometry(data: Seq<u8>, start: int, length: int) -> ChunkGeometry {
    let w = chunk_width(data, start);
    ChunkGeometry {
        data,
        end: start + length,
        width: w as i32,
        height: chunk_height(data, start),
        line_bytes: line_bytes_of(w),
        row_bytes: row_bytes_of(w),
    }
}

/// Counters that are all zero.
pub open spec fn zero_stats() -> DecodeStats {
    DecodeStats {
        n_ok: 0,
        n_v0: 0,
        n_t0: 0,
        n_t1: 0,
        n_fail: 0,
        max_consecutive_fail: 0,
        first_fail_y: None,
        resync_probes: 0,
        resync_hits: 0,
        blank_drops_after_drift: 0,
    }
}

/// The dispatcher's state before the first marker: an all-white bitmap
/// and reference table.
pub open spec fn initial_state(data: Seq<u8>, start: int, length: int) -> DispatchState {
    let g = chunk_geometry(data, start, length);
    DispatchState {
        pos: start + 0x42,
        y: 0,
        ref_table: spec_sentinel(g.width),
        bitmap: Seq::new((g.row_bytes * g.height) as nat, |i: int| 0u8),
        stats: zero_stats(),
        consecutive_fail: 0,
        last_drift: false,
        last_kind: None,
        stopped: false,
    }
}

/// The dispatcher's final state on the chunk at `start`.
pub open spec fn decoded_chunk(data: Seq<u8>, start: int, length: int, cfg: Config) -> DispatchState {
    dispatch_run(chunk_geometry(data, start, length), cfg, initial_state(data, start, length))
}

/// Whether `page` is the decoded main image of the chunk (its preview
/// aside).
pub open spec fn page_image_of_chunk(page: Page, data: Seq<u8>, start: int, length: int, cfg: Config) -> bool {
    let fin = decoded_chunk(data, start, length, cfg);
    &&& page.width == chunk_width(data, start)
    &&& page.height == chunk_height(data, start)
    &&& page.dpi_x == dpi_or_default(chunk_u16(data, start, 0x2a))
    &&& page.dpi_y == dpi_or_default(chunk_u16(data, start, 0x2c))
    &&& page.row_bytes == row_bytes_of(chunk_width(data, start))
    &&& page.bitmap@ == fin.bitmap
    &&& page.stats == fin.stats
}

/// Whether `pv` is the page's preview: decoded and scaled to the main
/// image when `cfg.embed_preview` and the chunk has one, else absent.
pub open spec fn page_preview_of_chunk(pv: Option<Preview>, data: Seq<u8>, start: int, length: int, cfg: Config) -> bool {
    if cfg.embed_preview {
        match pv {
            Some(p) => preview_present(data, start, length) && preview_of_chunk(
                p,
                data,
                start,
                length,
                true,
            ),
            None => !preview_present(data, start, length),
        }
    } else {
        pv is None
    }
}

/// Whether `page` is the decoded chunk.
pub open spec fn page_of_chunk(page: Page, data: Seq<u8>, start: int, length: int, cfg: Config) -> bool {
    &&& page_image_of_chunk(page, data, start, length, cfg)
    &&& page_preview_of_chunk(page.preview, data, start, length, cfg)
}

/// Counted markers of the state.
pub open spec fn counted(s: DecodeStats) -> int {
    s.n_t0 + s.n_t1 + s.n_fail + s.n_v0 + s.n_ok + s.blank_drops_after_drift
}

/// The chunk sits inside the data with a complete header, and the data's
/// length leaves room for the position arithmetic.
pub open spec fn chunk_in_data(data: Seq<u8>, start: int, length: int) -> bool {
    &&& 0 <= start
    &&& IMAGE_CHUNK_MIN_LEN <= length <= u32::MAX
    &&& start + length <= data.len()
    &&& input_len_ok(data.len() as int)
}


/// Append `n` copies of `v`.
fn append_fill(t: &mut Vec<i32>, v: i32, n: usize)
    ensures
        final(t)@ == old(t)@ + fill(n as int, v),
{
    let ghost t0 = t@;
    let mut i: usize = 0;
    while i < n
        invariant
            i <= n,
            t@ == t0 + fill(i as int, v),
        decreases n - i,
    {
        t.push(v);
        i += 1;
        proof {
            assert(t@ =~= t0 + fill(i as int, v));
        }
    }
}

/// Exec view of the chunk geometry.
struct Geometry {
    end: usize,
    width: u32,
    height: u32,
    line_bytes: usize,
    row_bytes: usize,
}

impl Geometry {
    spec fn matches(&self, g: ChunkGeometry, data: Seq<u8>, start: int, length: int) -> bool {
        &&& g == chunk_geometry(data, start, length)
        &&& chunk_in_data(data, start, length)
        &&& self.end == start + length
        &&& self.width == chunk_width(data, start)
        &&& self.height == chunk_height(data, start)
        &&& self.width <= 0xFFFF
        &&& self.height <= 0xFFFF
        &&& self.line_bytes == line_bytes_of(self.width as int)
        &&& self.row_bytes == row_bytes_of(self.width as int)
        &&& self.row_bytes <= 0x2004
        &&& self.line_bytes <= self.row_bytes
        &&& self.width <= self.line_bytes * 8
    }
}

/// Exec state of the dispatcher.
struct LineDispatcher {
    pos: usize,
    y: u32,
    ref_table: Vec<i32>,
    bitmap: Vec<u8>,
    stats: DecodeStats,
    consecutive_fail: u32,
    last_drift: bool,
    last_kind: Option<DispatchKind>,
}

impl LineDispatcher {
    spec fn state(&self, stopped: bool) -> DispatchState {
        DispatchState {
            pos: self.pos as int,
            y: self.y as int,
            ref_table: self.ref_table@,
            bitmap: self.bitmap@,
            stats: self.stats,
            consecutive_fail: self.consecutive_fail as int,
            last_drift: self.last_drift,
            last_kind: self.last_kind,
            stopped,
        }
    }

    /// Bounds that hold between markers.
    spec fn inv(&self, geo: Geometry, start: int, data_len: int) -> bool {
        &&& start + 0x42 <= self.pos <= data_len + 0x2100
        &&& self.y <= geo.height
        &&& self.ref_table@.len() <= 0x90000
        &&& self.bitmap@.len() == geo.row_bytes * geo.height
        &&& counted(self.stats) <= self.pos - (start + 0x42)
        &&& self.consecutive_fail <= self.stats.n_fail + self.stats.n_v0
        &&& self.stats.max_consecutive_fail <= self.stats.n_fail + self.stats.n_v0
        &&& self.stats.resync_probes <= 1024
        &&& self.stats.resync_hits <= self.stats.resync_probes
    }
}

proof fn lemma_row_fits(y: int, height: int, row_bytes: int)
    requires
        0 <= y < height <= 0xFFFF,
        0 <= row_bytes <= 0x2004,
    ensures
        y * row_bytes + row_bytes <= row_bytes * height,
        0 <= y * row_bytes,
        row_bytes * height <= 0x2004 * 0xFFFF,
{
    assert(row_bytes * height <= 0x2004 * 0xFFFF) by (nonlinear_arith)
        requires
            0 <= height <= 0xFFFF,
            0 <= row_bytes <= 0x2004,
    ;
    assert(y * row_bytes + row_bytes <= row_bytes * height) by (nonlinear_arith)
        requires
            0 <= y < height,
            0 <= row_bytes,
    ;
    assert(0 <= y * row_bytes) by (nonlinear_arith)
        requires
            0 <= y,
            0 <= row_bytes,
    ;
}

/// Whether `t0_drop_after_drift` applies after a dispatch of kind `last`.
fn t0_drop_applies_exec(cfg: &Config, last: Option<DispatchKind>) -> (r: bool)
    ensures
        r == t0_drop_applies(*cfg, last),
{
    if cfg.t0_drop_after_drift == T0DropMode::Disabled {
        return false;
    }
    match &cfg.t0_drop_kinds {
        None => true,
        Some(ks) => match last {
            None => false,
            Some(k) => {
                let mut i: usize = 0;
                while i < ks.len()
                    invariant
                        i <= ks@.len(),
                        forall|j: int| 0 <= j < i ==> ks@[j] != k,
                        cfg.t0_drop_after_drift != T0DropMode::Disabled,
                        cfg.t0_drop_kinds == Some(*ks),
                        last == Some(k),
                    decreases ks@.len() - i,
                {
                    if ks[i] == k {
                        proof {
                            assert(ks@[i as int] == k);
                            assert(ks@.contains(k));
                        }
                        return true;
                    }
                    i += 1;
                }
                false
            },
        },
    }
}

/// The `fail_scan_forward` search from byte `p` (see `scan_forward`).
fn scan_forward_exec(data: &[u8], end: usize, p: usize, n: u32, Ghost(g): Ghost<ChunkGeometry>) -> (r: usize)
    requires
        g.data == data@,
        g.end == end,
        end <= data@.len(),
        p <= end,
    ensures
        r as int == scan_forward(g, p as int, p as int, n as int),
        p <= r <= end,
{
    let mut q: usize = p;
    let mut left: u32 = n;
    while left > 0 && q < end
        invariant
            g.data == data@,
            g.end == end,
            end <= data@.len(),
            p <= q <= end,
            scan_forward(g, p as int, p as int, n as int) == scan_forward(g, p as int, q as int, left as int),
        decreases left,
    {
        if data[q] >> 6 == 2 {
            proof {
                let m = data@[q as int];
                assert((m >> 6u8) == m / 64) by (bit_vector);
            }
            return q;
        }
        proof {
            let m = data@[q as int];
            assert((m >> 6u8) == m / 64) by (bit_vector);
        }
        q += 1;
        left -= 1;
    }
    p
}

/// Handle a type-0 marker: a raw line, a skipped line or a stray byte.
/// Returns whether a raw line ran past the chunk.
fn handle_raw_marker(
    d: &mut LineDispatcher,
    data: &[u8],
    geo: &Geometry,
    low6: u8,
    strict_t0: bool,
    Ghost(g): Ghost<ChunkGeometry>,
    cfg: &Config,
    Ghost(start): Ghost<int>,
    Ghost(length): Ghost<int>,
) -> (stopped: bool)
    requires
        geo.matches(g, data@, start, length),
        old(d).inv(*geo, start, data@.len() as int),
        old(d).pos < geo.end,
        old(d).y < geo.height,
        cfg.strict_t0 == strict_t0,
        data@[old(d).pos as int] / 64 == 0,
        low6 == data@[old(d).pos as int] % 64,
    ensures
        final(d).state(stopped) == dispatch_step(g, *cfg, old(d).state(false)),
        !stopped ==> final(d).inv(*geo, start, data@.len() as int),
        !stopped ==> final(d).pos > old(d).pos,
{
    d.stats.n_t0 = d.stats.n_t0 + 1;
    let lb = geo.line_bytes;
    if d.last_drift && t0_drop_applies_exec(cfg, d.last_kind) {
        if cfg.t0_drop_after_drift == T0DropMode::Marker {
            d.pos = d.pos + 1;
        } else {
            d.pos = d.pos + 1 + lb;
        }
        d.last_drift = false;
        false
    } else if !strict_t0 || low6 == 1 {
        let p1 = d.pos + 1;
        if p1 + lb <= geo.end {
            let row = vstd::slice::slice_subrange(data, p1, p1 + lb);
            proof {
                lemma_row_fits(d.y as int, geo.height as int, geo.row_bytes as int);
            }
            copy_into(&mut d.bitmap, d.y as usize * geo.row_bytes, row);
            let mut t = table_from_raw(row, geo.width as i32);
            append_fill(&mut t, geo.width as i32, 16);
            d.ref_table = t;
            d.pos = p1 + lb;
            d.y = d.y + 1;
            d.consecutive_fail = 0;
            d.last_drift = false;
            d.last_kind = Some(DispatchKind::T0);
            false
        } else {
            true
        }
    } else if low6 == 3 {
        d.pos = d.pos + 1 + lb;
        false
    } else {
        d.pos = d.pos + 1;
        d.last_drift = true;
        d.last_kind = Some(DispatchKind::Bad);
        if cfg.reset_ref_after_drift {
            d.ref_table = make_sentinel(geo.width);
        }
        false
    }
}


/// A copy of a reference table.
fn copy_table(t: &Vec<i32>) -> (r: Vec<i32>)
    ensures
        r@ == t@,
{
    let mut v: Vec<i32> = Vec::new();
    let mut i: usize = 0;
    while i < t.len()
        invariant
            i <= t@.len(),
            v@ == t@.subrange(0, i as int),
        decreases t@.len() - i,
    {
        v.push(t[i]);
        i += 1;
        proof {
            assert(v@ =~= t@.subrange(0, i as int));
        }
    }
    proof {
        assert(t@.subrange(0, t@.len() as int) =~= t@);
    }
    v
}

/// The resync lookahead probe (see `probe_lines`).
#[verifier::rlimit(80)]
#[verifier::spinoff_prover]
fn probe_exec(
    data: &[u8],
    geo: &Geometry,
    q0: usize,
    t0: &Vec<i32>,
    steps: u32,
    lazy: bool,
    bug4: bool,
    tables: &CodeTables,
    Ghost(g): Ghost<ChunkGeometry>,
    Ghost(start): Ghost<int>,
    Ghost(length): Ghost<int>,
) -> (r: (u32, u32))
    requires
        geo.matches(g, data@, start, length),
        tables.wf(),
        t0@.len() <= 0x90000,
        steps <= 64,
    ensures
        (r.0 as int, r.1 as int) == probe_lines(g, lazy, bug4, q0 as int, t0@, steps as int),
{
    let w = geo.width as i32;
    let lb = geo.line_bytes;
    let mut q = q0;
    let mut t = copy_table(t0);
    let mut left: u32 = steps;
    let mut n_ok: u32 = 0;
    let mut n_drift: u32 = 0;
    while left > 0 && q < geo.end
        invariant
            geo.matches(g, data@, start, length),
            tables.wf(),
            w == g.width,
            lb == g.line_bytes,
            t@.len() <= 0x90000,
            n_ok + n_drift + left <= steps,
            steps <= 64,
            probe_lines(g, lazy, bug4, q0 as int, t0@, steps as int) == ({
                let rest = probe_lines(g, lazy, bug4, q as int, t@, left as int);
                (n_ok + rest.0, n_drift + rest.1)
            }),
        decreases left,
    {
        let ghost q_old = q as int;
        let ghost t_old = t@;
        let ghost left_old = left as int;
        let m = data[q];
        let typ = m >> 6;
        let low6 = m & 0x3F;
        proof {
            assert(typ == m / 64 && low6 == m % 64) by (bit_vector)
                requires
                    typ == m >> 6u8,
                    low6 == m & 0x3Fu8,
            ;
        }
        left -= 1;
        if typ == 2 {
            let p1 = q + 1;
            let (table, consumed_bits) = decomp_line(data, p1, w, t.as_slice(), lazy, bug4, tables);
            let consumed_bytes = ((consumed_bits + 7) / 8) as usize;
            let is_fail = table.len() == 4 && table[0] == -1 && table[1] == w && table[2] == w
                && table[3] == w;
            proof {
                if is_fail {
                    assert(table@ =~= seq![-1i32, w, w, w]);
                }
                if table@ == seq![-1i32, w, w, w] {
                    assert(table@[0] == -1i32 && table@[1] == w && table@[2] == w && table@[3] == w);
                }
            }
            if is_fail {
                n_drift += 1;
            } else {
                n_ok += 1;
                t = make_next_reference(&table, w);
            }
            q = p1 + consumed_bytes;
        } else if typ == 1 {
            n_drift += 1;
            q = q + 1;
        } else if typ == 0 {
            if low6 == 1 {
                if q + 1 + lb <= geo.end {
                    let row = vstd::slice::slice_subrange(data, q + 1, q + 1 + lb);
                    let mut nt = table_from_raw(row, w);
                    append_fill(&mut nt, w, 16);
                    t = nt;
                    q = q + 1 + lb;
                } else {
                    left = 0;
                    proof {
                        assert(probe_lines(g, lazy, bug4, q_old, t_old, left_old) == (0int, 0int));
                    }
                }
            } else if low6 == 3 {
                q = q + 1 + lb;
            } else {
                n_drift += 1;
                q = q + 1;
            }
        } else {
            t = make_sentinel(geo.width);
            q = q + 1;
        }
    }
    (n_ok, n_drift)
}

/// The resync search (see `resync_search`) from candidate 0 with no best
/// yet: the best `(offset, score)` and the probes run.
#[verifier::rlimit(80)]
#[verifier::spinoff_prover]
fn resync_search_exec(
    data: &[u8],
    geo: &Geometry,
    lo: usize,
    p: usize,
    t: &Vec<i32>,
    span: u32,
    lines: u32,
    budget: u32,
    lazy: bool,
    bug4: bool,
    tables: &CodeTables,
    Ghost(g): Ghost<ChunkGeometry>,
    Ghost(start): Ghost<int>,
    Ghost(length): Ghost<int>,
) -> (r: (Option<(i64, i64)>, u32))
    requires
        geo.matches(g, data@, start, length),
        tables.wf(),
        t@.len() <= 0x90000,
        span <= 64,
        lines <= 64,
        budget <= 1024,
        p <= data@.len() + 2,
        lo <= data@.len() + 2,
    ensures
        ({
            let sr = resync_search(g, lazy, bug4, span as int, lines as int, lo as int, p as int, t@, 0, budget as int, None);
            &&& r.1 as int == sr.1
            &&& match r.0 {
                None => sr.0 is None,
                Some(b) => sr.0 == Some((b.0 as int, b.1 as int)),
            }
        }),
{
    let ghost full = resync_search(g, lazy, bug4, span as int, lines as int, lo as int, p as int, t@, 0, budget as int, None);
    proof {
        assert(input_len_ok(data@.len() as int));
    }
    let n = 2 * span + 1;
    let mut i: u32 = 0;
    let mut left: u32 = budget;
    let mut used: u32 = 0;
    let mut best: Option<(i64, i64)> = None;
    while i < n && left > 0
        invariant
            geo.matches(g, data@, start, length),
            tables.wf(),
            t@.len() <= 0x90000,
            span <= 64,
            lines <= 64,
            n == 2 * span + 1,
            i <= n,
            used + left == budget,
            budget <= 1024,
            p <= data@.len() + 2,
            lo <= data@.len() + 2,
            data@.len() <= 0x0800_0000_0000_0000,
            match best {
                None => true,
                Some(b) => -64 <= b.1 <= 64 && -64 <= b.0 <= 64,
            },
            ({
                let sb: Option<(int, int)> = match best {
                    None => None,
                    Some(b) => Some((b.0 as int, b.1 as int)),
                };
                let rest = resync_search(g, lazy, bug4, span as int, lines as int, lo as int, p as int, t@, i as int, left as int, sb);
                full == (rest.0, used + rest.1)
            }),
        decreases n - i,
    {
        let off: i64 = if i % 2 == 1 {
            -(((i + 1) / 2) as i64)
        } else {
            (i / 2) as i64
        };
        proof {
            assert(off == cand_offset(i as int));
        }
        let q = p as i64 + off;
        let ghost sb: Option<(int, int)> = match best {
            None => None,
            Some(b) => Some((b.0 as int, b.1 as int)),
        };
        proof {
            assert(q as int == p + cand_offset(i as int));
            assert(geo.end <= data@.len());
        }
        if q < lo as i64 || q >= geo.end as i64 {
            proof {
                assert(resync_search(g, lazy, bug4, span as int, lines as int, lo as int, p as int, t@, i as int, left as int, sb)
                    == resync_search(g, lazy, bug4, span as int, lines as int, lo as int, p as int, t@, i + 1, left as int, sb));
            }
            i += 1;
        } else {
            let (ok, drift) = probe_exec(data, geo, q as usize, t, lines, lazy, bug4, tables, Ghost(g), Ghost(start), Ghost(length));
            proof {
                lemma_probe_counts(g, lazy, bug4, q as int, t@, lines as int);
            }
            let sc: i64 = ok as i64 - drift as i64;
            let better = match best {
                None => true,
                Some(b) => sc > b.1,
            };
            if better {
                best = Some((off, sc));
            }
            proof {
                let nb: Option<(int, int)> = match best {
                    None => None,
                    Some(b) => Some((b.0 as int, b.1 as int)),
                };
                assert(nb == (if sb is None || sc > sb.unwrap().1 { Some((cand_offset(i as int), sc as int)) } else { sb }));
                let rest = resync_search(g, lazy, bug4, span as int, lines as int, lo as int, p as int, t@, i + 1, left - 1, nb);
                assert(resync_search(g, lazy, bug4, span as int, lines as int, lo as int, p as int, t@, i as int, left as int, sb)
                    == (rest.0, rest.1 + 1));
            }
            i += 1;
            left -= 1;
            used += 1;
        }
    }
    (best, used)
}

/// The smart-resync search after a failed line whose naive next marker is
/// `p` (see `fail_resync`).
fn fail_resync_exec(
    d: &LineDispatcher,
    data: &[u8],
    geo: &Geometry,
    p: usize,
    cfg: &Config,
    tables: &CodeTables,
    Ghost(g): Ghost<ChunkGeometry>,
    Ghost(start): Ghost<int>,
    Ghost(length): Ghost<int>,
) -> (r: (Option<(i64, i64)>, u32))
    requires
        geo.matches(g, data@, start, length),
        d.inv(*geo, start, data@.len() as int),
        d.pos < geo.end,
        d.pos + 1 <= p <= data@.len() + 2,
        tables.wf(),
    ensures
        ({
            let rs = fail_resync(g, *cfg, d.state(false), p as int);
            &&& r.1 as int == rs.1
            &&& match r.0 {
                None => rs.0 is None,
                Some(b) => rs.0 == Some((b.0 as int, b.1 as int)),
            }
        }),
{
    let isolated = !(d.last_kind == Some(DispatchKind::Fail) || d.last_kind == Some(DispatchKind::V0)
        || d.last_kind == Some(DispatchKind::Bad) || d.last_kind == Some(DispatchKind::T1));
    if cfg.fail_resync_max > 0 && isolated {
        let budget = cfg.fail_resync_budget;
        let cap: u32 = if budget == 0 || budget > 1024 {
            1024
        } else {
            budget
        };
        let left: u32 = if d.stats.resync_probes < cap {
            cap - d.stats.resync_probes
        } else {
            0
        };
        let span: u32 = if cfg.fail_resync_max > 64 {
            64
        } else {
            cfg.fail_resync_max
        };
        let lines: u32 = if cfg.fail_resync_lookahead > 64 {
            64
        } else {
            cfg.fail_resync_lookahead
        };
        proof {
            let s = d.state(false);
            assert(cap == resync_cap(*cfg));
            assert(span == resync_span(*cfg));
            assert(lines == resync_lines(*cfg));
            if d.stats.resync_probes >= cap {
                assert(resync_search(g, cfg.lazy_bit_loading, cfg.bug4, span as int, lines as int, s.pos + 1, p as int, s.ref_table, 0, resync_cap(*cfg) - s.stats.resync_probes, None)
                    == (None::<(int, int)>, 0int));
                assert(resync_search(g, cfg.lazy_bit_loading, cfg.bug4, span as int, lines as int, s.pos + 1, p as int, s.ref_table, 0, 0, None)
                    == (None::<(int, int)>, 0int));
            }
        }
        resync_search_exec(
            data,
            geo,
            d.pos + 1,
            p,
            &d.ref_table,
            span,
            lines,
            left,
            cfg.lazy_bit_loading,
            cfg.bug4,
            tables,
            Ghost(g),
            Ghost(start),
            Ghost(length),
        )
    } else {
        (None, 0)
    }
}

/// Handle a type-2 marker: decode one CCITT-T.6 line against the current
/// reference table.
#[verifier::rlimit(80)]
#[verifier::spinoff_prover]
fn handle_compressed_line(
    d: &mut LineDispatcher,
    data: &[u8],
    geo: &Geometry,
    lazy: bool,
    bug4: bool,
    tables: &CodeTables,
    Ghost(g): Ghost<ChunkGeometry>,
    cfg: &Config,
    Ghost(start): Ghost<int>,
    Ghost(length): Ghost<int>,
)
    requires
        geo.matches(g, data@, start, length),
        old(d).inv(*geo, start, data@.len() as int),
        old(d).pos < geo.end,
        old(d).y < geo.height,
        cfg.lazy_bit_loading == lazy,
        cfg.bug4 == bug4,
        tables.wf(),
        data@[old(d).pos as int] / 64 == 2,
    ensures
        final(d).state(false) == dispatch_step(g, *cfg, old(d).state(false)),
        final(d).inv(*geo, start, data@.len() as int),
        final(d).pos > old(d).pos,
{
    let ghost s = d.state(false);
    let w = geo.width as i32;
    let p1 = d.pos + 1;
    let (table, consumed_bits) = decomp_line(
        data,
        p1,
        w,
        d.ref_table.as_slice(),
        lazy,
        bug4,
        tables,
    );
    let consumed_bytes = ((consumed_bits + 7) / 8) as usize;
    let is_fail = table.len() == 4 && table[0] == -1 && table[1] == w && table[2] == w && table[3]
        == w;
    proof {
        if is_fail {
            assert(table@ =~= seq![-1i32, w, w, w]);
        }
        if table@ == seq![-1i32, w, w, w] {
            assert(table@[0] == -1i32 && table@[1] == w && table@[2] == w && table@[3] == w);
        }
    }
    let looks_v0 = is_fail && consumed_bits == 1;
    let cf = d.consecutive_fail + 1;
    let p = p1 + consumed_bytes;
    if is_fail && !looks_v0 {
        let cascade = cfg.suppress_t2_fail_y_in_cascade && d.last_kind == Some(DispatchKind::Fail);
        let (best, used) = fail_resync_exec(d, data, geo, p, cfg, tables, Ghost(g), Ghost(start), Ghost(length));
        proof {
            let rs = fail_resync(g, *cfg, s, p as int);
            if cfg.fail_resync_max > 0 && !after_drift_kind(s.last_kind) {
                lemma_resync_search_range(
                    g,
                    cfg.lazy_bit_loading,
                    cfg.bug4,
                    resync_span(*cfg),
                    resync_lines(*cfg),
                    s.pos + 1,
                    p as int,
                    s.ref_table,
                    0,
                    resync_cap(*cfg) - s.stats.resync_probes,
                    None,
                );
            }
        }
        let hit = match best {
            Some(b) => b.1 >= cfg.fail_resync_min_confidence as i64,
            None => false,
        };
        d.stats.resync_probes = d.stats.resync_probes + used;
        if hit {
            d.stats.resync_hits = d.stats.resync_hits + 1;
        }
        d.stats.n_fail = d.stats.n_fail + 1;
        d.consecutive_fail = cf;
        if cf > d.stats.max_consecutive_fail {
            d.stats.max_consecutive_fail = cf;
        }
        if d.stats.first_fail_y.is_none() {
            d.stats.first_fail_y = Some(d.y);
        }
        d.last_drift = true;
        d.last_kind = Some(DispatchKind::Fail);
        if cfg.reset_ref_after_drift {
            d.ref_table = make_sentinel(geo.width);
        }
        d.pos = if hit {
            match best {
                Some(b) => (p as i64 + b.0) as usize,
                None => p,
            }
        } else if p <= geo.end {
            scan_forward_exec(data, geo.end, p, cfg.fail_scan_forward, Ghost(g))
        } else {
            p
        };
        if !cascade {
            d.y = d.y + 1;
        }
        return;
    } else if looks_v0 {
        d.stats.n_v0 = d.stats.n_v0 + 1;
        d.consecutive_fail = cf;
        if cf > d.stats.max_consecutive_fail {
            d.stats.max_consecutive_fail = cf;
        }
        d.last_drift = true;
        d.last_kind = Some(DispatchKind::V0);
        if cfg.reset_ref_after_drift {
            d.ref_table = make_sentinel(geo.width);
        }
    } else {
        d.stats.n_ok = d.stats.n_ok + 1;
        d.consecutive_fail = 0;
        let row = table_to_row(table.as_slice(), w, geo.row_bytes);
        proof {
            lemma_row_fits(d.y as int, geo.height as int, geo.row_bytes as int);
        }
        copy_into(&mut d.bitmap, d.y as usize * geo.row_bytes, row.as_slice());
        d.ref_table = make_next_reference(&table, w);
        d.last_drift = false;
        d.last_kind = Some(DispatchKind::Success);
    }
    d.pos = p;
    d.y = d.y + 1;
}

/// Handle a type-3 marker: a run of blank lines, or a stray byte right
/// after a low-confidence dispatch.
fn handle_blank_marker(
    d: &mut LineDispatcher,
    data: &[u8],
    geo: &Geometry,
    low6: u8,
    drop_blank_after_drift: bool,
    Ghost(g): Ghost<ChunkGeometry>,
    cfg: &Config,
    Ghost(start): Ghost<int>,
    Ghost(length): Ghost<int>,
)
    requires
        geo.matches(g, data@, start, length),
        old(d).inv(*geo, start, data@.len() as int),
        old(d).pos < geo.end,
        old(d).y < geo.height,
        cfg.drop_blank_after_drift == drop_blank_after_drift,
        data@[old(d).pos as int] / 64 == 3,
        low6 == data@[old(d).pos as int] % 64,
    ensures
        final(d).state(false) == dispatch_step(g, *cfg, old(d).state(false)),
        final(d).inv(*geo, start, data@.len() as int),
        final(d).pos > old(d).pos,
{
    if drop_blank_after_drift && d.last_drift {
        d.stats.blank_drops_after_drift = d.stats.blank_drops_after_drift + 1;
    } else {
        let y2 = d.y + low6 as u32 + 1;
        d.y = if y2 < geo.height {
            y2
        } else {
            geo.height
        };
        d.ref_table = make_sentinel(geo.width);
        d.last_drift = false;
        d.last_kind = None;
    }
    d.pos = d.pos + 1;
}


/// Decode the image chunk at `chunk_start` of `chunk_length` bytes into a
/// page: read the header, reject images over `MAX_IMAGE_PIXELS`, then
/// dispatch the line markers (see `dispatch_run`).
pub fn decode_image_chunk(
    data: &[u8],
    chunk_start: usize,
    chunk_length: usize,
    cfg: &Config,
    tables: &CodeTables,
) -> (r: Result<Page, MaxError>)
    requires
        chunk_in_data(data@, chunk_start as int, chunk_length as int),
        tables.wf(),
    ensures
        match r {
            Ok(page) => {
                &&& !chunk_too_large(data@, chunk_start as int)
                &&& page_of_chunk(page, data@, chunk_start as int, chunk_length as int, *cfg)
            },
            Err(e) => chunk_too_large(data@, chunk_start as int) && e == too_large_error(
                data@,
                chunk_start as int,
            ),
        },
{
    let chunk = ChunkRef { offset: chunk_start, length: chunk_length };
    let width = read_u16_at(data, chunk, 0x26).unwrap() as u32;
    let height = read_u16_at(data, chunk, 0x28).unwrap() as u32;
    let raw_dpi_x = read_u16_at(data, chunk, 0x2a).unwrap() as u32;
    let raw_dpi_y = read_u16_at(data, chunk, 0x2c).unwrap() as u32;
    let dpi_x = if raw_dpi_x == 0 {
        300
    } else {
        raw_dpi_x
    };
    let dpi_y = if raw_dpi_y == 0 {
        300
    } else {
        raw_dpi_y
    };
    proof {
        assert(width * height <= 0xFFFF * 0xFFFF) by (nonlinear_arith)
            requires
                width <= 0xFFFF,
                height <= 0xFFFF,
        ;
    }
    let pixels = width as u64 * height as u64;
    if pixels > MAX_IMAGE_PIXELS {
        return Err(MaxError::ImageTooLarge { width, height, pixels, max: MAX_IMAGE_PIXELS });
    }
    let line_bytes = (width as usize + 7) / 8;
    let row_bytes = (line_bytes + 3) / 4 * 4;
    let geo = Geometry { end: chunk_start + chunk_length, width, height, line_bytes, row_bytes };
    let ghost g = chunk_geometry(data@, chunk_start as int, chunk_length as int);
    let ghost start = chunk_start as int;
    let ghost length = chunk_length as int;
    proof {
        lemma_row_fits(0, 1, row_bytes as int);
        assert(row_bytes * height <= 0x2004 * 0xFFFF) by (nonlinear_arith)
            requires
                row_bytes <= 0x2004,
                height <= 0xFFFF,
        ;
    }
    let bitmap: Vec<u8> = vec![0u8; row_bytes * height as usize];
    let stats = DecodeStats::default();
    let mut d = LineDispatcher {
        pos: chunk_start + 0x42,
        y: 0,
        ref_table: make_sentinel(width),
        bitmap,
        stats,
        consecutive_fail: 0,
        last_drift: false,
        last_kind: None,
    };
    let ghost init = d.state(false);
    proof {
        assert(d.bitmap@ =~= Seq::new((row_bytes * height) as nat, |i: int| 0u8));
        assert(init == initial_state(data@, start, length));
    }
    let ghost mut stopped = false;
    loop
        invariant_except_break
            !stopped,
            d.inv(geo, start, data@.len() as int),
            dispatch_run(g, *cfg, init) == dispatch_run(g, *cfg, d.state(false)),
        invariant
            geo.matches(g, data@, start, length),
            tables.wf(),
            init == initial_state(data@, start, length),
        ensures
            dispatch_run(g, *cfg, init) == d.state(stopped),
        decreases (if d.pos < geo.end { geo.end - d.pos } else { 0 }),
    {
        if !(d.y < geo.height && d.pos < geo.end) {
            break;
        }
        let ghost s = d.state(false);
        let marker = data[d.pos];
        let typ = marker >> 6;
        let low6 = marker & 0x3F;
        proof {
            assert(typ == marker / 64 && low6 == marker % 64) by (bit_vector)
                requires
                    typ == marker >> 6u8,
                    low6 == marker & 0x3Fu8,
            ;
        }
        if typ == 0 {
            let hit_end = handle_raw_marker(
                &mut d,
                data,
                &geo,
                low6,
                cfg.strict_t0,
                Ghost(g),
                cfg,
                Ghost(start),
                Ghost(length),
            );
            if hit_end {
                proof {
                    stopped = true;
                }
                break;
            }
        } else if typ == 1 {
            d.stats.n_t1 = d.stats.n_t1 + 1;
            d.pos = d.pos + 1;
            d.last_drift = true;
            d.last_kind = Some(DispatchKind::T1);
            if cfg.reset_ref_after_drift {
                d.ref_table = make_sentinel(geo.width);
            }
        } else if typ == 2 {
            handle_compressed_line(
                &mut d,
                data,
                &geo,
                cfg.lazy_bit_loading,
                cfg.bug4,
                tables,
                Ghost(g),
                cfg,
                Ghost(start),
                Ghost(length),
            );
        } else {
            handle_blank_marker(
                &mut d,
                data,
                &geo,
                low6,
                cfg.drop_blank_after_drift,
                Ghost(g),
                cfg,
                Ghost(start),
                Ghost(length),
            );
        }
        proof {
            assert(d.state(false) == dispatch_step(g, *cfg, s));
        }
    }
    let preview = if cfg.embed_preview {
        decode_preview_chunk(data, chunk_start, chunk_length, true)
    } else {
        None
    };
    Ok(
        Page {
            width,
            height,
            dpi_x,
            dpi_y,
            row_bytes: row_bytes as u32,
            bitmap: d.bitmap,
            preview,
            stats: d.stats,
        },
    )
}

} // verus!
