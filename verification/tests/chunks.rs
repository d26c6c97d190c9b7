use vigb_decoder::chunks::{find_image_chunks, read_u16_at, ChunkRef, IMAGE_CHUNK_MIN_LEN};

#[test]
fn finds_no_chunks_in_empty_buffer() {
    let chunks = find_image_chunks(&[]);
    assert!(chunks.is_empty());
}

#[test]
fn finds_no_chunks_when_magic_absent() {
    let data = vec![0u8; 256];
    let chunks = find_image_chunks(&data);
    assert!(chunks.is_empty());
}

#[test]
fn finds_single_synthetic_chunk() {
    let mut data = vec![0u8; 256];
    let chunk_offset = 0x40usize;
    let length = 0x80u32;
    data[chunk_offset] = b'D';
    data[chunk_offset + 1] = b'L';
    data[chunk_offset + 2..chunk_offset + 6].copy_from_slice(&length.to_le_bytes());
    data[chunk_offset + 6..chunk_offset + 10].copy_from_slice(&0x0001_4000u32.to_le_bytes());

    let chunks = find_image_chunks(&data);
    assert_eq!(chunks.len(), 1);
    assert_eq!(chunks[0].offset, chunk_offset);
    assert_eq!(chunks[0].length, length as usize);
}

#[test]
fn rejects_chunk_shorter_than_min_len() {
    let mut data = vec![0u8; 256];
    let off = 0x10usize;
    data[off] = b'D';
    data[off + 1] = b'L';
    data[off + 2..off + 6].copy_from_slice(&0x10u32.to_le_bytes());
    data[off + 6..off + 10].copy_from_slice(&0x0001_4000u32.to_le_bytes());
    assert!(find_image_chunks(&data).is_empty());
}

#[test]
fn rejects_chunk_at_min_len_minus_one() {
    let mut data = vec![0u8; 256];
    let off = 0x10usize;
    data[off] = b'D';
    data[off + 1] = b'L';
    data[off + 2..off + 6].copy_from_slice(&((IMAGE_CHUNK_MIN_LEN - 1) as u32).to_le_bytes());
    data[off + 6..off + 10].copy_from_slice(&0x0001_4000u32.to_le_bytes());
    assert!(find_image_chunks(&data).is_empty());
}

#[test]
fn accepts_chunk_at_exact_min_len() {
    let mut data = vec![0u8; 256];
    let off = 0x10usize;
    data[off] = b'D';
    data[off + 1] = b'L';
    data[off + 2..off + 6].copy_from_slice(&(IMAGE_CHUNK_MIN_LEN as u32).to_le_bytes());
    data[off + 6..off + 10].copy_from_slice(&0x0001_4000u32.to_le_bytes());
    let chunks = find_image_chunks(&data);
    assert_eq!(chunks.len(), 1);
    assert_eq!(chunks[0].length, IMAGE_CHUNK_MIN_LEN);
}

#[test]
fn read_u16_at_returns_some_within_bounds() {
    let mut data = vec![0u8; 256];
    data[0x10 + 0x26] = 0xa0;
    data[0x10 + 0x27] = 0x09;
    let chunk = ChunkRef { offset: 0x10, length: IMAGE_CHUNK_MIN_LEN };
    assert_eq!(read_u16_at(&data, chunk, 0x26), Some(0x09a0));
}

#[test]
fn read_u16_at_returns_none_past_chunk_length() {
    let data = vec![0u8; 256];
    let chunk = ChunkRef { offset: 0, length: IMAGE_CHUNK_MIN_LEN };
    assert_eq!(read_u16_at(&data, chunk, IMAGE_CHUNK_MIN_LEN), None);
    assert_eq!(read_u16_at(&data, chunk, IMAGE_CHUNK_MIN_LEN - 1), None);
}

#[test]
fn skips_non_image_dl_chunks() {
    let mut data = vec![0u8; 256];
    data[0x10] = b'D';
    data[0x11] = b'L';
    data[0x12..0x16].copy_from_slice(&64u32.to_le_bytes());
    data[0x16..0x1A].copy_from_slice(&0x0001_2000u32.to_le_bytes());
    let chunks = find_image_chunks(&data);
    assert!(chunks.is_empty());
}

#[test]
fn finds_two_back_to_back_chunks() {
    let mut data = vec![0u8; 512];
    for off in [0x00usize, 0x80usize] {
        data[off] = b'D';
        data[off + 1] = b'L';
        data[off + 2..off + 6].copy_from_slice(&0x80u32.to_le_bytes());
        data[off + 6..off + 10].copy_from_slice(&0x0001_4000u32.to_le_bytes());
    }
    let chunks = find_image_chunks(&data);
    assert_eq!(chunks.len(), 2);
    assert_eq!(chunks[0].offset, 0x00);
    assert_eq!(chunks[1].offset, 0x80);
}

#[test]
fn chunk_past_the_end_of_data_is_skipped() {
    // A chunk whose advertised length runs past the data is not taken.
    let mut data = vec![0u8; 0x60];
    data[0] = b'D';
    data[1] = b'L';
    data[2..6].copy_from_slice(&0x61u32.to_le_bytes());
    data[6..10].copy_from_slice(&0x0001_4000u32.to_le_bytes());
    assert!(find_image_chunks(&data).is_empty());
}

#[test]
fn zero_page_index_is_not_an_image_chunk() {
    let mut data = vec![0u8; 0x100];
    data[0] = b'D';
    data[1] = b'L';
    data[2..6].copy_from_slice(&0x80u32.to_le_bytes());
    data[6..10].copy_from_slice(&0x0000_4000u32.to_le_bytes());
    assert!(find_image_chunks(&data).is_empty());
}

#[test]
fn read_u16_at_refuses_reads_past_the_data() {
    // The chunk claims more bytes than the data holds.
    let data = vec![1u8; 0x20];
    let chunk = ChunkRef { offset: 0x10, length: 0x80 };
    assert_eq!(read_u16_at(&data, chunk, 0x0e), Some(0x0101));
    assert_eq!(read_u16_at(&data, chunk, 0x0f), None);
}

#[test]
fn header_inside_a_chunk_body_is_covered_not_returned() {
    let mut data = vec![0u8; 0x200];
    let put = |data: &mut Vec<u8>, off: usize, len: u32| {
        data[off] = b'D';
        data[off + 1] = b'L';
        data[off + 2..off + 6].copy_from_slice(&len.to_le_bytes());
        data[off + 6..off + 10].copy_from_slice(&0x0001_4000u32.to_le_bytes());
    };
    put(&mut data, 0x10, 0x100);
    put(&mut data, 0x40, 0x80);
    put(&mut data, 0x120, 0x80);
    let chunks = find_image_chunks(&data);
    assert_eq!(
        chunks,
        vec![ChunkRef { offset: 0x10, length: 0x100 }, ChunkRef { offset: 0x120, length: 0x80 }]
    );
    for c in &chunks {
        let len = u32::from_le_bytes(data[c.offset + 2..c.offset + 6].try_into().unwrap());
        assert_eq!(c.length, len as usize);
        assert_eq!(&data[c.offset..c.offset + 2], b"DL");
    }
}
