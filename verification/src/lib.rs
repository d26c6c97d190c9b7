//! Decoder for PaperPort 2 (`.max`, "ViGBe") image scans.
//!
//! Each image chunk of a `.max` file wraps a CCITT-T.6 (Group 4 fax)
//! compressed 1-bit bitmap behind a per-line marker dispatcher. The
//! decoded bitmaps are 1-bit packed, MSB first, and **bit value 1 means
//! BLACK**.

use vstd::prelude::*;

pub mod bitstream;
pub mod ccitt;
pub mod chunks;
pub mod cli;
pub mod config;
pub mod decoder;
pub mod dispatch;
pub mod error;
pub mod pdf;
pub mod preview;
pub mod text;

pub use chunks::{MAX_IMAGE_PIXELS, MAX_PREVIEW_PIXELS};
pub use config::{Config, ConfigBuilder, DispatchKind, T0DropMode};
pub use decoder::{DecodeStats, Page, Preview};
pub use error::MaxError;
pub use pdf::{write_pdf_bytes, PdfOptions};

use ccitt::CodeTables;
use chunks::{ChunkRef, find_image_chunks, scan_chunks};
use decoder::input_len_ok;
use dispatch::{chunk_too_large, decode_image_chunk, page_of_chunk, too_large_error};

verus! {

/// The file magic `ViGBe`.
pub open spec fn magic() -> Seq<u8> {
    seq![0x56u8, 0x69u8, 0x47u8, 0x42u8, 0x65u8]
}

/// Whether `data` starts with the file magic.
pub open spec fn has_magic(data: Seq<u8>) -> bool {
    data.len() >= 5 && data.take(5) == magic()
}

/// Index of the first chunk from `i` on whose image is too large.
pub open spec fn first_too_large(data: Seq<u8>, chunks: Seq<ChunkRef>, i: int) -> Option<int>
    decreases chunks.len() - i,
{
    if i < 0 || i >= chunks.len() {
        None
    } else if chunk_too_large(data, chunks[i].offset as int) {
        Some(i)
    } else {
        first_too_large(data, chunks, i + 1)
    }
}

/// The error `decode_max` returns on `data`, if any: a missing magic, then
/// no image chunk, then more chunks than `cfg.max_pages`, then the first
/// chunk whose image is too large.
pub open spec fn decode_error(data: Seq<u8>, cfg: Config) -> Option<MaxError> {
    let chunks = scan_chunks(data, 0);
    if !has_magic(data) {
        Some(MaxError::BadMagic { offset: 0 })
    } else if chunks.len() == 0 {
        Some(MaxError::Truncated { offset: 0, need: 0x40, have: data.len() as usize })
    } else if chunks.len() > cfg.max_pages {
        Some(MaxError::TooManyPages { count: chunks.len() as usize, max: cfg.max_pages })
    } else {
        match first_too_large(data, chunks, 0) {
            Some(i) => Some(too_large_error(data, chunks[i].offset as int)),
            None => None,
        }
    }
}

/// Decode all image chunks of a `.max` byte buffer: one page per image
/// chunk, in file order.
pub fn decode_max(data: &[u8], cfg: &Config) -> (r: Result<Vec<Page>, MaxError>)
    requires
        input_len_ok(data@.len() as int),
    ensures
        match r {
            Ok(pages) => {
                let chunks = scan_chunks(data@, 0);
                &&& decode_error(data@, *cfg) is None
                &&& pages@.len() == chunks.len()
                &&& forall|i: int|
                    0 <= i < pages@.len() ==> page_of_chunk(
                        #[trigger] pages@[i],
                        data@,
                        chunks[i].offset as int,
                        chunks[i].length as int,
                        *cfg,
                    )
            },
            Err(e) => decode_error(data@, *cfg) == Some(e),
        },
{
    if data.len() < 5 || data[0] != 0x56u8 || data[1] != 0x69u8 || data[2] != 0x47u8 || data[3]
        != 0x42u8 || data[4] != 0x65u8 {
        proof {
            if data@.len() >= 5 && data@.take(5) == magic() {
                assert(data@[0] == data@.take(5)[0] && data@[1] == data@.take(5)[1] && data@[2]
                    == data@.take(5)[2] && data@[3] == data@.take(5)[3] && data@[4] == data@.take(
                    5,
                )[4]);
            }
        }
        return Err(MaxError::BadMagic { offset: 0 });
    }
    proof {
        assert(data@.take(5) =~= magic());
    }
    let chunks = find_image_chunks(data);
    if chunks.len() == 0 {
        return Err(MaxError::Truncated { offset: 0, need: 0x40, have: data.len() });
    }
    if chunks.len() > cfg.max_pages as usize {
        return Err(MaxError::TooManyPages { count: chunks.len(), max: cfg.max_pages });
    }
    let tables = CodeTables::new();
    let mut pages: Vec<Page> = Vec::new();
    let mut i: usize = 0;
    while i < chunks.len()
        invariant
            chunks@ == scan_chunks(data@, 0),
            chunks::chunks_well_placed(chunks@, data@.len() as int, 0),
            forall|k: int| 0 <= k < chunks@.len() ==> #[trigger] chunks@[k].length <= u32::MAX,
            input_len_ok(data@.len() as int),
            tables.wf(),
            has_magic(data@),
            0 < chunks@.len() <= cfg.max_pages,
            i <= chunks@.len(),
            pages@.len() == i,
            first_too_large(data@, chunks@, 0) == first_too_large(data@, chunks@, i as int),
            forall|k: int|
                0 <= k < i ==> page_of_chunk(
                    #[trigger] pages@[k],
                    data@,
                    chunks@[k].offset as int,
                    chunks@[k].length as int,
                    *cfg,
                ),
        decreases chunks@.len() - i,
    {
        let c = chunks[i];
        proof {
            assert(chunks@[i as int].length >= chunks::IMAGE_CHUNK_MIN_LEN);
        }
        match decode_image_chunk(data, c.offset, c.length, cfg, &tables) {
            Ok(page) => {
                pages.push(page);
            },
            Err(e) => {
                return Err(e);
            },
        }
        i += 1;
    }
    Ok(pages)
}

} // verus!
