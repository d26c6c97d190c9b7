//! File-level errors of the decoder. Per-line decode failures are soft and
//! are counted in `DecodeStats` instead.

use vstd::prelude::*;
use crate::text::{dec_chars, hex_chars, push_decimal, push_hex};

verus! {

/// `std::io::Error`, carried opaquely in `MaxError::Io`.
#[verifier::external_type_specification]
#[verifier::external_body]
pub struct ExIoError(std::io::Error);

/// Errors returned by the `.max` decoder.
#[derive(Debug)]
pub enum MaxError {
    /// File magic check failed; the input is not a ViGBe `.max` file.
    BadMagic {
        /// Byte offset where the magic was expected.
        offset: u64,
    },
    /// The file holds no complete image chunk.
    Truncated {
        /// Chunk start offset.
        offset: u64,
        /// Bytes needed.
        need: usize,
        /// Bytes available from this offset to the end of the file.
        have: usize,
    },
    /// An image chunk's declared dimensions exceed `MAX_IMAGE_PIXELS`.
    ImageTooLarge {
        /// Declared width in pixels.
        width: u32,
        /// Declared height in pixels.
        height: u32,
        /// Pixel count `width * height`.
        pixels: u64,
        /// The maximum allowed pixel count.
        max: u64,
    },
    /// The file holds more image chunks than `Config::max_pages`.
    TooManyPages {
        /// Number of image chunks found.
        count: usize,
        /// The configured maximum.
        max: u32,
    },
    /// Underlying I/O error.
    Io(std::io::Error),
}

impl From<std::io::Error> for MaxError {
    fn from(e: std::io::Error) -> (r: Self) {
        MaxError::Io(e)
    }
}

impl vstd::std_specs::convert::FromSpecImpl<std::io::Error> for MaxError {
    open spec fn obeys_from_spec() -> bool {
        true
    }

    open spec fn from_spec(v: std::io::Error) -> Self {
        MaxError::Io(v)
    }
}

/// The message of every error but `Io`.
pub open spec fn message_text(e: MaxError) -> Seq<char> {
    match e {
        MaxError::BadMagic { offset } => "not a ViGB file: bad magic at offset 0x"@ + hex_chars(
            offset as nat,
        ),
        MaxError::Truncated { offset, need, have } => "truncated chunk at 0x"@ + hex_chars(
            offset as nat,
        ) + ": need "@ + dec_chars(need as nat) + " bytes, have "@ + dec_chars(have as nat),
        MaxError::ImageTooLarge { width, height, pixels, max } => "image dimensions "@ + dec_chars(
            width as nat,
        ) + "x"@ + dec_chars(height as nat) + " exceed maximum supported size ("@ + dec_chars(
            pixels as nat,
        ) + " pixels, max "@ + dec_chars(max as nat) + " pixels)"@,
        MaxError::TooManyPages { count, max } => "too many pages: "@ + dec_chars(count as nat)
            + " image chunks, max "@ + dec_chars(max as nat),
        MaxError::Io(_) => "io: "@,
    }
}

impl MaxError {
    /// Human-readable description of the error.
    pub fn message(&self) -> (r: String)
        ensures
            !(self is Io) ==> r@ == message_text(*self),
            self is Io ==> r@.len() >= 4 && r@.take(4) == "io: "@,
    {
        match self {
            MaxError::BadMagic { offset } => {
                let mut s = <String as StringExecFns>::from_str(
                    "not a ViGB file: bad magic at offset 0x",
                );
                push_hex(&mut s, *offset);
                s
            },
            MaxError::Truncated { offset, need, have } => {
                let mut s = <String as StringExecFns>::from_str("truncated chunk at 0x");
                push_hex(&mut s, *offset);
                s.append(": need ");
                push_decimal(&mut s, *need as u64);
                s.append(" bytes, have ");
                push_decimal(&mut s, *have as u64);
                s
            },
            MaxError::ImageTooLarge { width, height, pixels, max } => {
                let mut s = <String as StringExecFns>::from_str("image dimensions ");
                push_decimal(&mut s, *width as u64);
                s.append("x");
                push_decimal(&mut s, *height as u64);
                s.append(" exceed maximum supported size (");
                push_decimal(&mut s, *pixels);
                s.append(" pixels, max ");
                push_decimal(&mut s, *max);
                s.append(" pixels)");
                s
            },
            MaxError::TooManyPages { count, max } => {
                let mut s = <String as StringExecFns>::from_str("too many pages: ");
                push_decimal(&mut s, *count as u64);
                s.append(" image chunks, max ");
                push_decimal(&mut s, *max as u64);
                s
            },
            MaxError::Io(e) => {
                let mut s = <String as StringExecFns>::from_str("io: ");
                let detail = e.to_string();
                s.append(detail.as_str());
                proof {
                    reveal_strlit("io: ");
                    assert(s@.take(4) =~= "io: "@);
                }
                s
            },
        }
    }
}

} // verus!
