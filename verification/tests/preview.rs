use vigb_decoder::preview::{decode_preview_chunk, decode_preview_rle};

#[test]
fn rle_type0_emits_zeros() {
    let buf = [0x02u8];
    let (out, type3) = decode_preview_rle(&buf, 8, 1);
    assert_eq!(out, vec![0u8; 8]);
    assert_eq!(type3, 0);
}

#[test]
fn rle_type1_emits_ff() {
    let buf = [0x41u8];
    let (out, _) = decode_preview_rle(&buf, 4, 1);
    assert_eq!(out, vec![0xFFu8; 4]);
}

#[test]
fn rle_type2_emits_grayscale_quartets() {
    let buf = [0x81u8, 0xC0];
    let (out, _) = decode_preview_rle(&buf, 4, 2);
    assert_eq!(out, vec![255, 0, 0, 0]);
}

#[test]
fn rle_stops_at_total_pixels() {
    let buf = [0x41u8];
    let (out, _) = decode_preview_rle(&buf, 2, 1);
    assert_eq!(out, vec![0xFFu8; 2]);
}

#[test]
fn rle_counts_type3_and_honours_max_bytes() {
    // Two type-3 markers, then a type-1 marker beyond max_bytes.
    let buf = [0xC5u8, 0xFF, 0x41];
    let (out, type3) = decode_preview_rle(&buf, 16, 2);
    assert!(out.is_empty());
    assert_eq!(type3, 2);
    // A literal run cut short by the end of the input.
    let (out, _) = decode_preview_rle(&[0x83u8, 0x1B], 64, 2);
    assert_eq!(out, vec![0, 85, 170, 255]);
}

/// A chunk at offset 0 with main dimensions `w x h` and a preview of
/// `px x py` pixels stored as `rle` at the end.
fn chunk_with_preview(w: u16, h: u16, px: u16, py: u16, rle: &[u8]) -> Vec<u8> {
    let len = 0x42 + rle.len();
    let mut data = vec![0u8; len];
    data[0] = b'D';
    data[1] = b'L';
    data[2..6].copy_from_slice(&(len as u32).to_le_bytes());
    data[6..10].copy_from_slice(&0x0001_4000u32.to_le_bytes());
    data[0x26..0x28].copy_from_slice(&w.to_le_bytes());
    data[0x28..0x2a].copy_from_slice(&h.to_le_bytes());
    data[0x3c..0x3e].copy_from_slice(&(rle.len() as u16).to_le_bytes());
    data[0x3e..0x40].copy_from_slice(&px.to_le_bytes());
    data[0x40..0x42].copy_from_slice(&py.to_le_bytes());
    data[0x42..].copy_from_slice(rle);
    data
}

#[test]
fn preview_is_flipped_and_thresholded() {
    // A 4x2 preview: stored bottom row first. Row 0 (stored first) is
    // black, row 1 is white; after the flip the top row is white.
    let rle = [0x41u8, 0x01];
    let data = chunk_with_preview(8, 8, 4, 2, &rle);
    let pv = decode_preview_chunk(&data, 0, data.len(), false).expect("preview");
    assert_eq!(pv.width, 4);
    assert_eq!(pv.height, 2);
    assert_eq!(pv.row_bytes, 4);
    assert_eq!(pv.bitmap, vec![0, 0, 0, 0, 0xF0, 0, 0, 0]);
}

#[test]
fn preview_scales_to_the_main_image() {
    // The same preview scaled to 8x4: each source pixel covers 2x2.
    let rle = [0x41u8, 0x01];
    let data = chunk_with_preview(8, 4, 4, 2, &rle);
    let pv = decode_preview_chunk(&data, 0, data.len(), true).expect("preview");
    assert_eq!(pv.width, 8);
    assert_eq!(pv.height, 4);
    assert_eq!(
        pv.bitmap,
        vec![0, 0, 0, 0, 0, 0, 0, 0, 0xFF, 0, 0, 0, 0xFF, 0, 0, 0]
    );
}

#[test]
fn short_preview_is_padded_mid_gray() {
    // No pixels decoded: the gray fill (128) thresholds to black.
    let rle = [0xC0u8];
    let data = chunk_with_preview(4, 1, 4, 1, &rle);
    let pv = decode_preview_chunk(&data, 0, data.len(), false).expect("preview");
    assert_eq!(pv.bitmap, vec![0xF0, 0, 0, 0]);
}

#[test]
fn missing_or_oversized_preview_is_none() {
    let data = chunk_with_preview(8, 8, 0, 2, &[0x41]);
    assert!(decode_preview_chunk(&data, 0, data.len(), false).is_none());
    let data = chunk_with_preview(8, 8, 0xFFFF, 0xFFFF, &[0x41]);
    assert!(decode_preview_chunk(&data, 0, data.len(), false).is_none());
    // A preview size larger than the chunk.
    let mut data = chunk_with_preview(8, 8, 4, 2, &[0x41]);
    data[0x3c..0x3e].copy_from_slice(&0x100u16.to_le_bytes());
    assert!(decode_preview_chunk(&data, 0, data.len(), false).is_none());
}

#[test]
fn rle_pixels_are_four_gray_levels_and_never_exceed_total() {
    let buf = [0x81u8, 0x1B, 0xE4, 0x02, 0x42, 0xC5, 0x81];
    let (px, t3) = decode_preview_rle(&buf, 18, buf.len());
    assert_eq!(px.len(), 18);
    assert!(px.iter().all(|v| matches!(*v, 0 | 85 | 170 | 255)));
    assert_eq!(t3, 1);
}

#[test]
fn rle_reads_nothing_past_max_bytes() {
    let buf = [0x82u8, 0x1B, 0xE4, 0x41, 0x03, 0x81, 0x55];
    for max in 0..=buf.len() + 2 {
        let e = max.min(buf.len());
        assert_eq!(decode_preview_rle(&buf, 1000, max), decode_preview_rle(&buf[..e], 1000, max));
    }
}
