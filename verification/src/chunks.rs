//! `.max` container chunk discovery.
//!
//! Each scanned page is stored as a `DL`-tagged chunk. Image chunks carry
//! the tag `0x4000` in the low 16 bits of their flags word and a nonzero
//! page index in the high 16 bits.

use vstd::prelude::*;

verus! {

/// Minimum byte length of an image chunk: the image stream starts at
/// chunk-relative offset `+0x42`, after the last header field
/// (`preview_height` at `+0x40..+0x42`).
pub const IMAGE_CHUNK_MIN_LEN: usize = 0x42;

/// Maximum supported pixel count (`width * height`) of the main image:
/// 200 megapixels.
pub const MAX_IMAGE_PIXELS: u64 = 200 * 1024 * 1024;

/// Maximum supported pixel count (`padded_x * preview_height`) of the
/// intermediate preview buffer: 16 megapixels.
pub const MAX_PREVIEW_PIXELS: u64 = 16 * 1024 * 1024;

/// A discovered image chunk in the file.
#[derive(Debug, Clone, Copy, PartialEq, Eq, Structural)]
pub struct ChunkRef {
    /// Byte offset of the `DL` magic in the file.
    pub offset: usize,
    /// Total length of the chunk in bytes (including the 10-byte header).
    pub length: usize,
}

/// Little-endian `u16` at byte `i`.
pub open spec fn le_u16(data: Seq<u8>, i: int) -> int {
    data[i] as int + 256 * data[i + 1] as int
}

/// Little-endian `u32` at byte `i`.
pub open spec fn le_u32(data: Seq<u8>, i: int) -> int {
    le_u16(data, i) + 65536 * le_u16(data, i + 2)
}

/// The `u16` at chunk-relative offset `off`, if it lies within both the
/// chunk and the data.
pub open spec fn spec_read_u16_at(data: Seq<u8>, chunk: ChunkRef, off: int) -> Option<u16> {
    if off + 2 <= chunk.length && chunk.offset + off + 2 <= data.len() {
        Some(le_u16(data, chunk.offset + off) as u16)
    } else {
        None
    }
}

/// Read a little-endian `u16` at chunk-relative `off`; `None` if the read
/// would go past the chunk or the data.
pub fn read_u16_at(data: &[u8], chunk: ChunkRef, off: usize) -> (r: Option<u16>)
    ensures
        r == spec_read_u16_at(data@, chunk, off as int),
{
    let end = match off.checked_add(2) {
        Some(e) => e,
        None => {
            return None;
        },
    };
    let dl = data.len();
    if end > chunk.length {
        return None;
    }
    let i = match chunk.offset.checked_add(off) {
        Some(i) => i,
        None => {
            return None;
        },
    };
    if dl < 2 || i > dl - 2 {
        return None;
    }
    let v: u16 = (data[i] as u16) + (data[i + 1] as u16) * 256;
    Some(v)
}

/// Whether an image chunk header starts at byte `pos`: the `DL` magic, the
/// image tag `0x4000`, a nonzero page index, and a length that is at least
/// `IMAGE_CHUNK_MIN_LEN` and stays within the data.
pub open spec fn image_chunk_at(data: Seq<u8>, pos: int) -> bool {
    &&& 0 <= pos
    &&& pos + 10 <= data.len()
    &&& data[pos] == 0x44u8
    &&& data[pos + 1] == 0x4cu8
    &&& le_u16(data, pos + 6) == 0x4000
    &&& le_u16(data, pos + 8) > 0
    &&& le_u32(data, pos + 2) >= IMAGE_CHUNK_MIN_LEN
    &&& le_u32(data, pos + 2) <= data.len() - pos
}

/// The image chunks found by scanning forward from byte `pos`: an image
/// chunk is taken whole and the scan resumes after it; any other byte is
/// skipped.
pub open spec fn scan_chunks(data: Seq<u8>, pos: int) -> Seq<ChunkRef>
    decreases data.len() - pos,
{
    if pos < 0 || pos + 10 > data.len() {
        Seq::empty()
    } else if image_chunk_at(data, pos) {
        seq![ChunkRef { offset: pos as usize, length: le_u32(data, pos + 2) as usize }]
            + scan_chunks(data, pos + le_u32(data, pos + 2))
    } else {
        scan_chunks(data, pos + 1)
    }
}

/// Chunks that are long enough, lie inside the data, and follow each other
/// without overlap, all starting at or after `from`.
pub open spec fn chunks_well_placed(chunks: Seq<ChunkRef>, data_len: int, from: int) -> bool {
    &&& forall|k: int|
        0 <= k < chunks.len() ==> #[trigger] chunks[k].length >= IMAGE_CHUNK_MIN_LEN
            && chunks[k].offset + chunks[k].length <= data_len
    &&& forall|k: int| 0 <= k < chunks.len() ==> from <= #[trigger] chunks[k].offset
    &&& forall|k: int|
        0 <= k < chunks.len() - 1 ==> chunks[k].offset + chunks[k].length <= #[trigger] chunks[k
            + 1].offset
}

proof fn lemma_scan_well_placed(data: Seq<u8>, pos: int)
    requires
        pos >= 0,
        data.len() <= usize::MAX,
    ensures
        chunks_well_placed(scan_chunks(data, pos), data.len() as int, pos),
    decreases data.len() - pos,
{
    if pos + 10 > data.len() {
    } else if image_chunk_at(data, pos) {
        let l = le_u32(data, pos + 2);
        lemma_scan_well_placed(data, pos + l);
        let rest = scan_chunks(data, pos + l);
        let c = ChunkRef { offset: pos as usize, length: l as usize };
        let all = seq![c] + rest;
        assert(scan_chunks(data, pos) == all);
        assert forall|k: int| 0 <= k < all.len() - 1 implies all[k].offset + all[k].length
            <= #[trigger] all[k + 1].offset by {
            if k > 0 {
                assert(all[k] == rest[k - 1]);
                assert(all[k + 1] == rest[k]);
                let j = k - 1;
                assert(rest[j].offset + rest[j].length <= rest[j + 1].offset);
            } else {
                assert(all[1] == rest[0]);
                assert(pos + l <= rest[0].offset);
                assert(all[0] == c);
                assert(c.offset + c.length == pos + l);
            }
        }
        assert forall|k: int| 0 <= k < all.len() implies pos <= #[trigger] all[k].offset by {
            if k > 0 {
                assert(all[k] == rest[k - 1]);
            }
        }
        assert forall|k: int| 0 <= k < all.len() implies #[trigger] all[k].length
            >= IMAGE_CHUNK_MIN_LEN && all[k].offset + all[k].length <= data.len() by {
            if k > 0 {
                assert(all[k] == rest[k - 1]);
            }
        }
    } else {
        lemma_scan_well_placed(data, pos + 1);
    }
}

/// Whether byte `p` lies inside one of `chunks`.
pub open spec fn covered_by(chunks: Seq<ChunkRef>, p: int) -> bool {
    exists|k: int|
        0 <= k < chunks.len() && #[trigger] chunks[k].offset <= p < chunks[k].offset
            + chunks[k].length
}

proof fn lemma_scan_sound(data: Seq<u8>, pos: int)
    requires
        pos >= 0,
        data.len() <= usize::MAX,
    ensures
        forall|k: int|
            0 <= k < scan_chunks(data, pos).len() ==> image_chunk_at(
                data,
                #[trigger] scan_chunks(data, pos)[k].offset as int,
            ) && scan_chunks(data, pos)[k].length == le_u32(data, scan_chunks(data, pos)[k].offset + 2),
    decreases data.len() - pos,
{
    if pos + 10 > data.len() {
    } else if image_chunk_at(data, pos) {
        let l = le_u32(data, pos + 2);
        lemma_scan_sound(data, pos + l);
        let rest = scan_chunks(data, pos + l);
        let all = scan_chunks(data, pos);
        assert forall|k: int| 0 <= k < all.len() implies image_chunk_at(
            data,
            #[trigger] all[k].offset as int,
        ) && all[k].length == le_u32(data, all[k].offset + 2) by {
            if k > 0 {
                assert(all[k] == rest[k - 1]);
            } else {
                assert(all[0] == ChunkRef { offset: pos as usize, length: l as usize });
                assert(all[0].offset as int == pos);
                assert(all[0].length == l);
            }
        }
    } else {
        lemma_scan_sound(data, pos + 1);
        assert(scan_chunks(data, pos) == scan_chunks(data, pos + 1));
    }
}

proof fn lemma_scan_covers(data: Seq<u8>, pos: int, p: int)
    requires
        0 <= pos <= p,
        image_chunk_at(data, p),
        data.len() <= usize::MAX,
    ensures
        covered_by(scan_chunks(data, pos), p),
    decreases data.len() - pos,
{
    let all = scan_chunks(data, pos);
    if image_chunk_at(data, pos) {
        let l = le_u32(data, pos + 2);
        let rest = scan_chunks(data, pos + l);
        if p < pos + l {
            assert(all[0].offset <= p < all[0].offset + all[0].length);
        } else {
            lemma_scan_covers(data, pos + l, p);
            let k = choose|k: int|
                0 <= k < rest.len() && #[trigger] rest[k].offset <= p < rest[k].offset
                    + rest[k].length;
            assert(all[k + 1] == rest[k]);
            assert(all[k + 1].offset <= p < all[k + 1].offset + all[k + 1].length);
        }
    } else {
        assert(p != pos);
        lemma_scan_covers(data, pos + 1, p);
    }
}

/// The scan finds exactly the image chunk headers it can reach: each
/// chunk it returns starts with an image chunk header and has that
/// header's length, and every image chunk header in the data lies inside
/// a returned chunk (it is one, or sits within the body of an earlier one).
pub proof fn lemma_scan_exact(data: Seq<u8>)
    requires
        data.len() <= usize::MAX,
    ensures
        forall|k: int|
            0 <= k < scan_chunks(data, 0).len() ==> image_chunk_at(
                data,
                #[trigger] scan_chunks(data, 0)[k].offset as int,
            ) && scan_chunks(data, 0)[k].length == le_u32(data, scan_chunks(data, 0)[k].offset + 2),
        forall|p: int| #[trigger] image_chunk_at(data, p) ==> covered_by(scan_chunks(data, 0), p),
{
    lemma_scan_sound(data, 0);
    assert forall|p: int| #[trigger] image_chunk_at(data, p) implies covered_by(scan_chunks(data, 0), p) by {
        lemma_scan_covers(data, 0, p);
    }
}

/// Scan `data` for image chunks, in file order.
///
/// Every returned chunk is at least `IMAGE_CHUNK_MIN_LEN` bytes long, lies
/// inside `data`, and starts after the end of the previous one.
pub fn find_image_chunks(data: &[u8]) -> (r: Vec<ChunkRef>)
    ensures
        r@ == scan_chunks(data@, 0),
        chunks_well_placed(r@, data@.len() as int, 0),
        forall|k: int| 0 <= k < r@.len() ==> #[trigger] r@[k].length <= u32::MAX,
        forall|k: int|
            0 <= k < r@.len() ==> image_chunk_at(data@, #[trigger] r@[k].offset as int)
                && r@[k].length == le_u32(data@, r@[k].offset + 2),
        forall|p: int| #[trigger] image_chunk_at(data@, p) ==> covered_by(r@, p),
{
    let mut out: Vec<ChunkRef> = Vec::new();
    let n = data.len();
    proof {
        lemma_scan_well_placed(data@, 0);
        lemma_scan_exact(data@);
    }
    if n < 10 {
        return out;
    }
    let mut pos: usize = 0;
    while pos <= n - 10
        invariant
            n == data@.len(),
            n >= 10,
            pos <= n,
            out@ + scan_chunks(data@, pos as int) == scan_chunks(data@, 0),
            forall|k: int| 0 <= k < out@.len() ==> #[trigger] out@[k].length <= u32::MAX,
        decreases n - pos,
    {
        if data[pos] == 0x44u8 && data[pos + 1] == 0x4cu8 {
            let length32: u32 = (data[pos + 2] as u32) + (data[pos + 3] as u32) * 256 + (data[pos
                + 4] as u32) * 65536 + (data[pos + 5] as u32) * 16777216;
            let length = length32 as usize;
            let tag: u32 = (data[pos + 6] as u32) + (data[pos + 7] as u32) * 256;
            let page_index: u32 = (data[pos + 8] as u32) + (data[pos + 9] as u32) * 256;
            if tag == 0x4000 && page_index > 0 && length >= IMAGE_CHUNK_MIN_LEN && length <= n
                - pos {
                proof {
                    assert(image_chunk_at(data@, pos as int));
                    let c = ChunkRef { offset: pos, length };
                    assert(scan_chunks(data@, pos as int) == seq![c] + scan_chunks(
                        data@,
                        pos + length,
                    ));
                    assert(out@.push(c) + scan_chunks(data@, pos + length) =~= out@ + (seq![c]
                        + scan_chunks(data@, pos + length)));
                }
                out.push(ChunkRef { offset: pos, length });
                pos = pos + length;
                continue;
            }
        }
        proof {
            assert(!image_chunk_at(data@, pos as int));
        }
        pos = pos + 1;
    }
    proof {
        assert(scan_chunks(data@, pos as int) == Seq::<ChunkRef>::empty());
        assert(out@ + Seq::<ChunkRef>::empty() =~= out@);
    }
    out
}

} // verus!
