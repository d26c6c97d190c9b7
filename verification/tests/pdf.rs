use std::io::Read;
use vigb_decoder::pdf::{push_fixed4, write_pdf_bytes, PdfOptions};
use vigb_decoder::{DecodeStats, Page, Preview};

fn make_test_page(width: u32, height: u32) -> Page {
    let row_bytes = ((width as usize).div_ceil(8) + 3) & !3;
    let bitmap = vec![0u8; row_bytes * height as usize];
    Page {
        width,
        height,
        dpi_x: 300,
        dpi_y: 300,
        row_bytes: row_bytes as u32,
        bitmap,
        preview: None,
        stats: DecodeStats::default(),
    }
}

fn find(hay: &[u8], needle: &[u8]) -> Option<usize> {
    hay.windows(needle.len()).position(|w| w == needle)
}

#[test]
fn pdf_has_valid_header_and_trailer() {
    let pages = vec![make_test_page(100, 100)];
    let bytes = write_pdf_bytes(&pages, &PdfOptions::default());
    assert!(bytes.starts_with(b"%PDF-1.4\n"));
    assert!(bytes.windows(7).any(|w| w == b"trailer"));
    assert!(bytes.windows(9).any(|w| w == b"startxref"));
    assert!(bytes.ends_with(b"%%EOF\n"));
}

#[test]
fn pdf_xref_is_well_formed() {
    let pages = vec![make_test_page(50, 50)];
    let bytes = write_pdf_bytes(&pages, &PdfOptions::default());
    let xref_pos = bytes.windows(5).position(|w| w == b"xref\n").unwrap();
    let xref_section = &bytes[xref_pos..];
    assert!(xref_section
        .windows(20)
        .any(|w| w == b"0000000000 65535 f \n"));
}

#[test]
fn xref_offsets_point_at_objects() {
    let mut p = make_test_page(20, 10);
    p.preview = Some(Preview { width: 8, height: 2, row_bytes: 4, bitmap: vec![0xFF; 8] });
    let bytes = write_pdf_bytes(&[p, make_test_page(30, 5)], &PdfOptions::default());
    let xref_pos = find(&bytes, b"xref\n0 ").unwrap();
    let text = std::str::from_utf8(&bytes[xref_pos..]).unwrap();
    let lines: Vec<&str> = text.lines().collect();
    assert_eq!(lines[1], "0 12");
    for i in 1..12usize {
        let off: usize = lines[2 + i][..10].parse().unwrap();
        let head = format!("{i} 0 obj\n");
        assert_eq!(&bytes[off..off + head.len()], head.as_bytes());
    }
    let tail = std::str::from_utf8(&bytes[bytes.len() - 40..]).unwrap();
    assert!(tail.contains(&format!("startxref\n{xref_pos}\n%%EOF\n")));
    assert!(text.contains("trailer\n<< /Size 12 /Root 11 0 R >>"));
}

#[test]
fn page_tree_lists_every_page_and_preview() {
    let mut p = make_test_page(16, 4);
    p.preview = Some(Preview { width: 8, height: 2, row_bytes: 4, bitmap: vec![0; 8] });
    let with = write_pdf_bytes(&[p.clone()], &PdfOptions::default());
    assert!(find(&with, b"<< /Type /Pages /Count 2 /Kids [3 0 R 6 0 R] >>").is_some());
    assert!(find(&with, b"<< /Type /Catalog /Pages 7 0 R >>").is_some());
    let without = write_pdf_bytes(&[p], &PdfOptions { include_previews: false });
    assert!(find(&without, b"<< /Type /Pages /Count 1 /Kids [3 0 R] >>").is_some());
    assert!(find(&without, b"/Parent 4 0 R").is_some());
}

#[test]
fn page_object_sizes_follow_dpi() {
    let mut p = make_test_page(2480, 3508);
    p.dpi_x = 300;
    p.dpi_y = 300;
    let bytes = write_pdf_bytes(&[p], &PdfOptions::default());
    assert!(find(&bytes, b"/MediaBox [0 0 595.2000 841.9200]").is_some());
    // The image is row_bytes * 8 = 2480 pixels wide (310 bytes padded to 312).
    assert!(find(&bytes, b"/Width 2496 /Height 3508").is_some());
    assert!(find(&bytes, b"q\n599.0400 0 0 841.9200 0 0 cm\n/Im0 Do\nQ\n").is_some());
}

#[test]
fn image_stream_is_the_zlib_of_the_bitmap() {
    let mut p = make_test_page(16, 2);
    p.bitmap = vec![0xAA, 0x55, 0, 0, 0x0F, 0xF0, 0, 0];
    let bytes = write_pdf_bytes(&[p.clone()], &PdfOptions::default());
    let start = find(&bytes, b"stream\n").unwrap() + 7;
    let end = find(&bytes, b"\nendstream").unwrap();
    let stream = &bytes[start..end];
    assert_ne!(stream, &p.bitmap[..]);
    let mut out = Vec::new();
    flate2::read::ZlibDecoder::new(stream)
        .read_to_end(&mut out)
        .unwrap();
    assert_eq!(out, p.bitmap);
    let len_tag = format!("/Length {} >>", stream.len());
    assert!(find(&bytes, len_tag.as_bytes()).is_some());
}

fn fixed4(n: u64, d: u64) -> String {
    let mut buf = Vec::new();
    push_fixed4(&mut buf, n, d);
    String::from_utf8(buf).unwrap()
}

#[test]
fn page_sizes_print_like_rust_floats() {
    let mut cases: Vec<(u64, u64)> = vec![
        (72, 256),
        (72, 57600),
        (72, 768),
        (0, 300),
        (1, 0xFFFF_FFFF),
        (72 * 65535, 1),
        (72 * 2480, 300),
        (72 * 3508, 300),
        (72 * 1700, 200),
        (72 * 5, 3),
        (72 * 7, 600),
    ];
    for w in [1u64, 3, 17, 100, 102, 146, 999, 2464, 4096, 65535] {
        for d in [1u64, 2, 3, 7, 72, 96, 150, 200, 256, 300, 301, 400, 600, 1200, 2304, 65535] {
            cases.push((w * 72, d));
        }
    }
    for (n, d) in cases {
        let expect = format!("{:.4}", n as f64 / d as f64);
        assert_eq!(fixed4(n, d), expect, "{n} / {d}");
    }
}

#[test]
fn zero_dpi_prints_like_rust_floats() {
    assert_eq!(fixed4(72, 0), format!("{:.4}", 72.0f64 / 0.0f64));
    assert_eq!(fixed4(0, 0), format!("{:.4}", 0.0f64 / 0.0f64));
}
