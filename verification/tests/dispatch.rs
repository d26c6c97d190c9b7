use vigb_decoder::{decode_max, Config, DispatchKind, MaxError, T0DropMode};

/// A file with one image chunk at 0x10 of `width x height` pixels whose
/// line stream is `body`.
fn file_with_chunk(width: u16, height: u16, body: &[u8]) -> Vec<u8> {
    let mut data = vec![0u8; 0x10];
    data[..5].copy_from_slice(b"ViGBe");
    let len = 0x42 + body.len();
    let mut chunk = vec![0u8; len];
    chunk[0] = b'D';
    chunk[1] = b'L';
    chunk[2..6].copy_from_slice(&(len as u32).to_le_bytes());
    chunk[6..10].copy_from_slice(&0x0001_4000u32.to_le_bytes());
    chunk[0x26..0x28].copy_from_slice(&width.to_le_bytes());
    chunk[0x28..0x2a].copy_from_slice(&height.to_le_bytes());
    chunk[0x42..].copy_from_slice(body);
    data.extend_from_slice(&chunk);
    data
}

fn decode_one(data: &[u8], cfg: &Config) -> vigb_decoder::Page {
    let mut pages = decode_max(data, cfg).expect("decode");
    assert_eq!(pages.len(), 1);
    pages.remove(0)
}

#[test]
fn raw_line_is_copied() {
    let data = file_with_chunk(8, 4, &[0x01, 0xAB]);
    let p = decode_one(&data, &Config::default());
    assert_eq!(p.row_bytes, 4);
    assert_eq!(p.bitmap, vec![0xAB, 0, 0, 0, 0, 0, 0, 0, 0, 0, 0, 0, 0, 0, 0, 0]);
    assert_eq!(p.stats.n_t0, 1);
    assert_eq!(p.dpi_x, 300);
    assert_eq!(p.dpi_y, 300);
}

#[test]
fn skipped_line_is_consumed_without_output() {
    let data = file_with_chunk(8, 2, &[0x03, 0xFF, 0x01, 0x81]);
    let p = decode_one(&data, &Config::default());
    assert_eq!(p.bitmap, vec![0x81, 0, 0, 0, 0, 0, 0, 0]);
    assert_eq!(p.stats.n_t0, 2);
}

#[test]
fn stray_type0_byte_is_dropped_and_the_next_blank_too() {
    // 0x05 is a stray type-0 byte; the blank marker after it follows a
    // low-confidence dispatch and is dropped; the raw line lands on row 0.
    let data = file_with_chunk(8, 2, &[0x05, 0xC1, 0x01, 0xF0]);
    let p = decode_one(&data, &Config::default());
    assert_eq!(p.bitmap, vec![0xF0, 0, 0, 0, 0, 0, 0, 0]);
    assert_eq!(p.stats.n_t0, 2);
    assert_eq!(p.stats.blank_drops_after_drift, 1);
}

#[test]
fn non_strict_type0_copies_any_line() {
    let data = file_with_chunk(8, 2, &[0x05, 0x3C]);
    let cfg = Config::builder().strict_t0(false).build();
    let p = decode_one(&data, &cfg);
    assert_eq!(p.bitmap, vec![0x3C, 0, 0, 0, 0, 0, 0, 0]);
}

#[test]
fn blank_run_advances_low6_plus_one_rows() {
    // 0xC1: a run of two blank rows; the raw line then lands on row 2.
    let data = file_with_chunk(8, 4, &[0xC1, 0x01, 0x0F]);
    let p = decode_one(&data, &Config::default());
    assert_eq!(&p.bitmap[8..12], &[0x0F, 0, 0, 0]);
    assert_eq!(p.bitmap.iter().filter(|&&b| b != 0).count(), 1);
}

#[test]
fn blank_run_stops_at_the_last_row() {
    // A run of 64 rows on a 3-row image ends the image.
    let data = file_with_chunk(8, 3, &[0xFF, 0x01, 0xFF]);
    let p = decode_one(&data, &Config::default());
    assert_eq!(p.bitmap, vec![0u8; 12]);
    assert_eq!(p.stats.n_t0, 0);
}

#[test]
fn type1_markers_are_stray_bytes() {
    // The type-1 byte is dropped; the blank after it is dropped as drift
    // unless drift blanks are kept.
    let data = file_with_chunk(8, 4, &[0x41, 0xC0, 0x01, 0x80]);
    let p = decode_one(&data, &Config::default());
    assert_eq!(p.stats.n_t1, 1);
    assert_eq!(p.stats.blank_drops_after_drift, 1);
    assert_eq!(&p.bitmap[0..4], &[0x80, 0, 0, 0]);
    let cfg = Config::builder().drop_blank_after_drift(false).build();
    let q = decode_one(&data, &cfg);
    assert_eq!(q.stats.blank_drops_after_drift, 0);
    assert_eq!(&q.bitmap[0..4], &[0, 0, 0, 0]);
    assert_eq!(&q.bitmap[4..8], &[0x80, 0, 0, 0]);
}

#[test]
fn compressed_lines_are_rendered() {
    // One line: H, white 2, black 3, then V(0): black pixels 2..4.
    let data = file_with_chunk(8, 2, &[0x80, 0b0010_1111, 0b0100_0000]);
    let p = decode_one(&data, &Config::default());
    assert_eq!(&p.bitmap[0..4], &[0b0011_1000, 0, 0, 0]);
    assert_eq!(p.stats.n_ok, 1);
    assert_eq!(p.stats.n_fail, 0);
}

#[test]
fn single_v0_line_counts_as_v0() {
    let data = file_with_chunk(8, 2, &[0x80, 0x80]);
    let p = decode_one(&data, &Config::default());
    assert_eq!(p.stats.n_v0, 1);
    assert_eq!(p.stats.n_ok, 0);
    assert_eq!(p.stats.max_consecutive_fail, 1);
    assert_eq!(p.bitmap, vec![0u8; 8]);
}

#[test]
fn failed_lines_are_counted() {
    // Two type-2 markers whose payload fails the code lookup.
    let data = file_with_chunk(8, 4, &[0xC0, 0x80, 0x00, 0x80, 0x00]);
    let p = decode_one(&data, &Config::default());
    assert_eq!(p.stats.n_fail, 2);
    assert_eq!(p.stats.first_fail_y, Some(1));
    assert_eq!(p.stats.max_consecutive_fail, 2);
    assert_eq!(p.bitmap, vec![0u8; 16]);
}

#[test]
fn raw_line_past_the_chunk_stops_decoding() {
    let data = file_with_chunk(16, 2, &[0x01, 0xFF]);
    let p = decode_one(&data, &Config::default());
    assert_eq!(p.bitmap, vec![0u8; 8]);
    assert_eq!(p.stats.n_t0, 1);
}

#[test]
fn stored_dpi_is_kept() {
    let mut data = file_with_chunk(8, 1, &[]);
    data[0x10 + 0x2a..0x10 + 0x2c].copy_from_slice(&200u16.to_le_bytes());
    data[0x10 + 0x2c..0x10 + 0x2e].copy_from_slice(&600u16.to_le_bytes());
    let p = decode_one(&data, &Config::default());
    assert_eq!((p.dpi_x, p.dpi_y), (200, 600));
}

#[test]
fn preview_is_attached_when_requested() {
    // A 4x1 preview of four black pixels, stored as one type-1 marker.
    let mut data = file_with_chunk(8, 2, &[0x41]);
    let c = 0x10usize;
    data[c + 0x3c..c + 0x3e].copy_from_slice(&1u16.to_le_bytes());
    data[c + 0x3e..c + 0x40].copy_from_slice(&4u16.to_le_bytes());
    data[c + 0x40..c + 0x42].copy_from_slice(&1u16.to_le_bytes());
    let p = decode_one(&data, &Config::default());
    assert!(p.preview.is_none());
    let cfg = Config::builder().embed_preview(true).build();
    let q = decode_one(&data, &cfg);
    let pv = q.preview.expect("preview");
    assert_eq!((pv.width, pv.height, pv.row_bytes), (8, 2, 4));
    assert_eq!(pv.bitmap, vec![0xFF, 0, 0, 0, 0xFF, 0, 0, 0]);
}

#[test]
fn first_oversized_chunk_is_reported() {
    let mut data = file_with_chunk(8, 1, &[]);
    let mut second = file_with_chunk(20000, 20000, &[]);
    let third = file_with_chunk(30000, 30000, &[]);
    data.extend_from_slice(&second.split_off(0x10));
    data.extend_from_slice(&third[0x10..]);
    match decode_max(&data, &Config::default()) {
        Err(MaxError::ImageTooLarge { width, height, pixels, max }) => {
            assert_eq!((width, height), (20000, 20000));
            assert_eq!(pixels, 400_000_000);
            assert_eq!(max, 200 * 1024 * 1024);
        },
        other => panic!("expected ImageTooLarge, got {:?}", other),
    }
}

#[test]
fn truncated_error_reports_the_file_length() {
    let data = b"ViGBe and nothing else".to_vec();
    match decode_max(&data, &Config::default()) {
        Err(MaxError::Truncated { offset, need, have }) => {
            assert_eq!((offset, need, have), (0, 0x40, data.len()));
        },
        other => panic!("expected Truncated, got {:?}", other),
    }
}

#[test]
fn pages_come_in_file_order() {
    let mut data = file_with_chunk(8, 1, &[0x01, 0x11]);
    let second = file_with_chunk(16, 1, &[0x01, 0x22, 0x33]);
    data.extend_from_slice(&second[0x10..]);
    let pages = decode_max(&data, &Config::default()).unwrap();
    assert_eq!(pages.len(), 2);
    assert_eq!(pages[0].bitmap, vec![0x11, 0, 0, 0]);
    assert_eq!(pages[1].bitmap, vec![0x22, 0x33, 0, 0]);
}

#[test]
fn markers_handled_never_exceed_the_line_stream() {
    // A stream of stray bytes: every byte is one marker, counted once.
    let body: Vec<u8> = (0..200u32).map(|i| if i % 2 == 0 { 0x05 } else { 0x41 }).collect();
    let data = file_with_chunk(8, 4, &body);
    let p = decode_one(&data, &Config::default());
    let s = &p.stats;
    let counted = s.n_t0 + s.n_t1 + s.n_fail + s.n_v0 + s.n_ok + s.blank_drops_after_drift;
    assert_eq!(counted, 200);
    assert_eq!(p.bitmap.len() as u32, p.row_bytes * p.height);
}

#[test]
fn resync_off_runs_no_probe_whatever_the_budget() {
    let data = file_with_chunk(8, 4, &[0xC0, 0x80, 0x00, 0x80, 0x00]);
    let cfg = Config::builder()
        .fail_resync_lookahead(u32::MAX)
        .fail_resync_budget(u32::MAX)
        .build();
    let p = decode_one(&data, &cfg);
    assert_eq!(p.stats.n_fail, 2);
    assert_eq!(p.stats.resync_probes, 0);
    assert_eq!(p.stats.resync_hits, 0);
}

#[test]
fn resync_probes_stay_within_the_budget() {
    let data = file_with_chunk(8, 4, &[0xC0, 0x80, 0x00, 0x80, 0x00]);
    let cfg = Config::builder()
        .fail_resync_max(u32::MAX)
        .fail_resync_lookahead(u32::MAX)
        .fail_resync_budget(3)
        .build();
    let p = decode_one(&data, &cfg);
    assert!(p.stats.resync_probes <= 3);
    assert!(p.stats.resync_hits <= p.stats.resync_probes);
}

#[test]
fn resync_commits_the_best_candidate_above_the_confidence() {
    // FAIL at the first marker (its payload is zero bits); the naive next
    // marker is the stray 0x00 (score -1), one byte on is a decodable line
    // (score +1).
    let data = file_with_chunk(8, 4, &[0x80, 0x00, 0x80, 0b0010_1111, 0b0100_0000]);
    let cfg = Config::builder()
        .fail_resync_max(1)
        .fail_resync_lookahead(1)
        .fail_resync_min_confidence(1)
        .build();
    let p = decode_one(&data, &cfg);
    assert_eq!(p.stats.resync_probes, 2);
    assert_eq!(p.stats.resync_hits, 1);
    assert_eq!(p.stats.n_t0, 0);
    assert_eq!(p.stats.n_ok, 1);
    assert_eq!(&p.bitmap[4..8], &[0b0011_1000, 0, 0, 0]);
    // Below the confidence gate nothing is committed: the stray byte is
    // dispatched as usual.
    let cfg = Config::builder()
        .fail_resync_max(1)
        .fail_resync_lookahead(1)
        .fail_resync_min_confidence(2)
        .build();
    let p = decode_one(&data, &cfg);
    assert_eq!(p.stats.resync_probes, 2);
    assert_eq!(p.stats.resync_hits, 0);
    assert_eq!(p.stats.n_t0, 1);
}

#[test]
fn scan_forward_and_cascade_suppression() {
    let body = [0x80, 0x00, 0x80, 0x00, 0x01, 0xAB];
    let data = file_with_chunk(8, 4, &body);
    let base = decode_one(&data, &Config::default());
    assert_eq!(base.stats.n_fail, 2);
    assert_eq!(base.stats.n_t0, 3);
    assert_eq!(base.bitmap[8], 0xAB);
    // Scanning forward skips the first stray byte to the next type-2
    // marker: the second FAIL follows the first directly.
    let scan = decode_one(&data, &Config::builder().fail_scan_forward(2).build());
    assert_eq!(scan.stats.n_fail, 2);
    assert_eq!(scan.stats.n_t0, 2);
    assert_eq!(scan.bitmap[8], 0xAB);
    // In that cascade the second FAIL does not advance y.
    let cascade = decode_one(
        &data,
        &Config::builder().fail_scan_forward(2).suppress_t2_fail_y_in_cascade(true).build(),
    );
    assert_eq!(cascade.bitmap[4], 0xAB);
    assert_eq!(cascade.bitmap[8], 0);
}

#[test]
fn reset_ref_after_drift_decodes_against_white() {
    // An OK line (black 2..5), a type-1 drift marker, then V0 V0 V0.
    let data = file_with_chunk(8, 3, &[0x80, 0b0010_1111, 0b0100_0000, 0x40, 0x80, 0b1110_0000]);
    let keep = decode_one(&data, &Config::default());
    assert_eq!(keep.stats.n_ok, 2);
    assert_eq!(keep.bitmap[4], 0b0011_1000);
    let reset = decode_one(&data, &Config::builder().reset_ref_after_drift(true).build());
    assert_eq!(reset.stats.n_ok, 1);
    assert_eq!(reset.stats.n_v0, 1);
    assert_eq!(reset.bitmap[4], 0);
}

#[test]
fn t0_drop_after_drift_modes() {
    let data = file_with_chunk(8, 2, &[0x40, 0x01, 0xAB]);
    assert_eq!(decode_one(&data, &Config::default()).bitmap[0], 0xAB);
    let full = decode_one(&data, &Config::builder().t0_drop_after_drift(T0DropMode::Full).build());
    assert_eq!(full.bitmap, vec![0u8; 8]);
    assert_eq!(full.stats.n_t0, 1);
    let other_kind = decode_one(
        &data,
        &Config::builder()
            .t0_drop_after_drift(T0DropMode::Full)
            .t0_drop_kinds(Some(vec![DispatchKind::Fail]))
            .build(),
    );
    assert_eq!(other_kind.bitmap[0], 0xAB);
    let data = file_with_chunk(8, 2, &[0x40, 0x01, 0x01, 0xCD]);
    let marker = decode_one(&data, &Config::builder().t0_drop_after_drift(T0DropMode::Marker).build());
    assert_eq!(marker.bitmap[0], 0xCD);
    assert_eq!(marker.stats.n_t0, 2);
    assert_eq!(decode_one(&data, &Config::default()).bitmap[0], 0x01);
}

#[test]
fn switches_the_dispatcher_does_not_read_leave_the_page_unchanged() {
    let data = file_with_chunk(8, 4, &[0x80, 0b0010_1111, 0b0100_0000, 0xC0, 0x80, 0x00, 0x01, 0xAB]);
    let base = decode_one(&data, &Config::default());
    let cfg = Config::builder().t0_reset(true).suppress_t1_all(false).max_pages(7).build();
    let other = decode_one(&data, &cfg);
    assert_eq!(other.bitmap, base.bitmap);
    assert_eq!(other.stats, base.stats);
}
