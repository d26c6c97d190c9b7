//! CCITT-T.6 (Group 4 fax) code tables and the lookup tables built from them.
//!
//! The code values are those of ITU-T Recommendation T.4 (11/1988),
//! Tables 1/T.4, 2/T.4 (with the extended make-up codes) and 3/T.4,
//! cross-checked against the TIFF 6.0 specification.

use vstd::prelude::*;
use vstd::arithmetic::power2::{pow2, lemma2_to64};
use vstd::bits::{lemma_u32_shl_is_mul, lemma_u32_pow2_no_overflow};

verus! {

/// Two-dimensional code dispatch entries (V(-3)..V(+3), H, P).
#[derive(Debug, Clone, Copy, PartialEq, Eq, Structural)]
pub enum DispatchEntry {
    /// Vertical mode V(n) with n in -3..=3.
    V(i8),
    /// Horizontal mode (followed by two run-length codes).
    H,
    /// Pass mode.
    P,
}

/// Seven-bit dispatcher table entry: which dispatch index matched and how
/// many bits the matched code consumes.
#[derive(Debug, Clone, Copy, PartialEq, Eq, Structural)]
pub struct DispatchHit {
    /// Index into the dispatch order (`dispatch_entries`, `two_d_codes`).
    pub dispatch_idx: u8,
    /// Number of bits consumed by the code.
    pub code_len: u32,
}

/// Thirteen-bit run-length lookup entry.
#[derive(Debug, Clone, Copy, PartialEq, Eq, Structural)]
pub struct RunHit {
    /// Decoded run length in pixels.
    pub run: u32,
    /// Number of bits consumed by the code.
    pub code_len: u32,
}

/// Two-dimensional codes of Table 3/T.4 in dispatch order
/// V_L3, V_L2, V_L1, V0, V_R1, V_R2, V_R3, H, P; each `(length_bits, code_bits)`.
pub open spec fn spec_two_d() -> Seq<(u32, u32)> {
    seq![(7, 0x02), (6, 0x02), (3, 0x02), (1, 0x01), (3, 0x03), (6, 0x03), (7, 0x03), (3, 0x01), (4, 0x01)]
}

/// The two-dimensional codes in dispatch order.
pub fn two_d_codes() -> (r: Vec<(u32, u32)>)
    ensures
        r@ == spec_two_d(),
{
    let r = vec![(7, 0x02), (6, 0x02), (3, 0x02), (1, 0x01), (3, 0x03), (6, 0x03), (7, 0x03), (3, 0x01), (4, 0x01)];
    assert(r@ =~= spec_two_d());
    r
}

/// Dispatch labels in the same order as `spec_two_d`.
pub open spec fn spec_dispatch() -> Seq<DispatchEntry> {
    seq![
        DispatchEntry::V(-3i8),
        DispatchEntry::V(-2i8),
        DispatchEntry::V(-1i8),
        DispatchEntry::V(0i8),
        DispatchEntry::V(1i8),
        DispatchEntry::V(2i8),
        DispatchEntry::V(3i8),
        DispatchEntry::H,
        DispatchEntry::P,
    ]
}

/// The dispatch labels in dispatch order.
pub fn dispatch_entries() -> (r: Vec<DispatchEntry>)
    ensures
        r@ == spec_dispatch(),
{
    let r = vec![
        DispatchEntry::V(-3),
        DispatchEntry::V(-2),
        DispatchEntry::V(-1),
        DispatchEntry::V(0),
        DispatchEntry::V(1),
        DispatchEntry::V(2),
        DispatchEntry::V(3),
        DispatchEntry::H,
        DispatchEntry::P,
    ];
    assert(r@ =~= spec_dispatch());
    r
}

/// White terminating codes (ITU-T T.4 Table 1), run lengths 0..=63.
/// Each entry: `(length_bits, code_bits, run_length)`.
pub open spec fn spec_white_term() -> Seq<(u32, u32, u32)> {
    seq![
        (8, 0x35, 0), (6, 0x07, 1), (4, 0x07, 2), (4, 0x08, 3),
        (4, 0x0B, 4), (4, 0x0C, 5), (4, 0x0E, 6), (4, 0x0F, 7),
        (5, 0x13, 8), (5, 0x14, 9), (5, 0x07, 10), (5, 0x08, 11),
        (6, 0x08, 12), (6, 0x03, 13), (6, 0x34, 14), (6, 0x35, 15),
        (6, 0x2A, 16), (6, 0x2B, 17), (7, 0x27, 18), (7, 0x0C, 19),
        (7, 0x08, 20), (7, 0x17, 21), (7, 0x03, 22), (7, 0x04, 23),
        (7, 0x28, 24), (7, 0x2B, 25), (7, 0x13, 26), (7, 0x24, 27),
        (7, 0x18, 28), (8, 0x02, 29), (8, 0x03, 30), (8, 0x1A, 31),
        (8, 0x1B, 32), (8, 0x12, 33), (8, 0x13, 34), (8, 0x14, 35),
        (8, 0x15, 36), (8, 0x16, 37), (8, 0x17, 38), (8, 0x28, 39),
        (8, 0x29, 40), (8, 0x2A, 41), (8, 0x2B, 42), (8, 0x2C, 43),
        (8, 0x2D, 44), (8, 0x04, 45), (8, 0x05, 46), (8, 0x0A, 47),
        (8, 0x0B, 48), (8, 0x52, 49), (8, 0x53, 50), (8, 0x54, 51),
        (8, 0x55, 52), (8, 0x24, 53), (8, 0x25, 54), (8, 0x58, 55),
        (8, 0x59, 56), (8, 0x5A, 57), (8, 0x5B, 58), (8, 0x4A, 59),
        (8, 0x4B, 60), (8, 0x32, 61), (8, 0x33, 62), (8, 0x34, 63),
    ]
}

/// White terminating codes (ITU-T T.4 Table 1), run lengths 0..=63.
pub fn white_term_entries() -> (r: Vec<(u32, u32, u32)>)
    ensures
        r@ == spec_white_term(),
{
    let r = vec![
        (8, 0x35, 0), (6, 0x07, 1), (4, 0x07, 2), (4, 0x08, 3),
        (4, 0x0B, 4), (4, 0x0C, 5), (4, 0x0E, 6), (4, 0x0F, 7),
        (5, 0x13, 8), (5, 0x14, 9), (5, 0x07, 10), (5, 0x08, 11),
        (6, 0x08, 12), (6, 0x03, 13), (6, 0x34, 14), (6, 0x35, 15),
        (6, 0x2A, 16), (6, 0x2B, 17), (7, 0x27, 18), (7, 0x0C, 19),
        (7, 0x08, 20), (7, 0x17, 21), (7, 0x03, 22), (7, 0x04, 23),
        (7, 0x28, 24), (7, 0x2B, 25), (7, 0x13, 26), (7, 0x24, 27),
        (7, 0x18, 28), (8, 0x02, 29), (8, 0x03, 30), (8, 0x1A, 31),
        (8, 0x1B, 32), (8, 0x12, 33), (8, 0x13, 34), (8, 0x14, 35),
        (8, 0x15, 36), (8, 0x16, 37), (8, 0x17, 38), (8, 0x28, 39),
        (8, 0x29, 40), (8, 0x2A, 41), (8, 0x2B, 42), (8, 0x2C, 43),
        (8, 0x2D, 44), (8, 0x04, 45), (8, 0x05, 46), (8, 0x0A, 47),
        (8, 0x0B, 48), (8, 0x52, 49), (8, 0x53, 50), (8, 0x54, 51),
        (8, 0x55, 52), (8, 0x24, 53), (8, 0x25, 54), (8, 0x58, 55),
        (8, 0x59, 56), (8, 0x5A, 57), (8, 0x5B, 58), (8, 0x4A, 59),
        (8, 0x4B, 60), (8, 0x32, 61), (8, 0x33, 62), (8, 0x34, 63),
    ];
    assert(r@ =~= spec_white_term());
    r
}

/// White make-up codes (ITU-T T.4 Table 2), runs 64..=1728 step 64,
/// followed by the extended make-up codes 1792..=2560 shared with black.
/// Each entry: `(length_bits, code_bits, run_length)`.
pub open spec fn spec_white_makeup() -> Seq<(u32, u32, u32)> {
    seq![
        (5, 0x1B, 64), (5, 0x12, 128), (6, 0x17, 192), (7, 0x37, 256),
        (8, 0x36, 320), (8, 0x37, 384), (8, 0x64, 448), (8, 0x65, 512),
        (8, 0x68, 576), (8, 0x67, 640), (9, 0xCC, 704), (9, 0xCD, 768),
        (9, 0xD2, 832), (9, 0xD3, 896), (9, 0xD4, 960), (9, 0xD5, 1024),
        (9, 0xD6, 1088), (9, 0xD7, 1152), (9, 0xD8, 1216), (9, 0xD9, 1280),
        (9, 0xDA, 1344), (9, 0xDB, 1408), (9, 0x98, 1472), (9, 0x99, 1536),
        (9, 0x9A, 1600), (6, 0x18, 1664), (9, 0x9B, 1728), (11, 0x08, 1792),
        (11, 0x0C, 1856), (11, 0x0D, 1920), (12, 0x12, 1984), (12, 0x13, 2048),
        (12, 0x14, 2112), (12, 0x15, 2176), (12, 0x16, 2240), (12, 0x17, 2304),
        (12, 0x1C, 2368), (12, 0x1D, 2432), (12, 0x1E, 2496), (12, 0x1F, 2560),
    ]
}

/// White make-up codes (ITU-T T.4 Table 2), runs 64..=1728 step 64, then
/// the extended make-up codes 1792..=2560.
pub fn white_makeup_entries() -> (r: Vec<(u32, u32, u32)>)
    ensures
        r@ == spec_white_makeup(),
{
    let r = vec![
        (5, 0x1B, 64), (5, 0x12, 128), (6, 0x17, 192), (7, 0x37, 256),
        (8, 0x36, 320), (8, 0x37, 384), (8, 0x64, 448), (8, 0x65, 512),
        (8, 0x68, 576), (8, 0x67, 640), (9, 0xCC, 704), (9, 0xCD, 768),
        (9, 0xD2, 832), (9, 0xD3, 896), (9, 0xD4, 960), (9, 0xD5, 1024),
        (9, 0xD6, 1088), (9, 0xD7, 1152), (9, 0xD8, 1216), (9, 0xD9, 1280),
        (9, 0xDA, 1344), (9, 0xDB, 1408), (9, 0x98, 1472), (9, 0x99, 1536),
        (9, 0x9A, 1600), (6, 0x18, 1664), (9, 0x9B, 1728), (11, 0x08, 1792),
        (11, 0x0C, 1856), (11, 0x0D, 1920), (12, 0x12, 1984), (12, 0x13, 2048),
        (12, 0x14, 2112), (12, 0x15, 2176), (12, 0x16, 2240), (12, 0x17, 2304),
        (12, 0x1C, 2368), (12, 0x1D, 2432), (12, 0x1E, 2496), (12, 0x1F, 2560),
    ];
    assert(r@ =~= spec_white_makeup());
    r
}

/// Black terminating codes (ITU-T T.4 Table 1), run lengths 0..=63.
/// Each entry: `(length_bits, code_bits, run_length)`.
pub open spec fn spec_black_term() -> Seq<(u32, u32, u32)> {
    seq![
        (10, 0x37, 0), (3, 0x02, 1), (2, 0x03, 2), (2, 0x02, 3),
        (3, 0x03, 4), (4, 0x03, 5), (4, 0x02, 6), (5, 0x03, 7),
        (6, 0x05, 8), (6, 0x04, 9), (7, 0x04, 10), (7, 0x05, 11),
        (7, 0x07, 12), (8, 0x04, 13), (8, 0x07, 14), (9, 0x18, 15),
        (10, 0x17, 16), (10, 0x18, 17), (10, 0x08, 18), (11, 0x67, 19),
        (11, 0x68, 20), (11, 0x6C, 21), (11, 0x37, 22), (11, 0x28, 23),
        (11, 0x17, 24), (11, 0x18, 25), (12, 0xCA, 26), (12, 0xCB, 27),
        (12, 0xCC, 28), (12, 0xCD, 29), (12, 0x68, 30), (12, 0x69, 31),
        (12, 0x6A, 32), (12, 0x6B, 33), (12, 0xD2, 34), (12, 0xD3, 35),
        (12, 0xD4, 36), (12, 0xD5, 37), (12, 0xD6, 38), (12, 0xD7, 39),
        (12, 0x6C, 40), (12, 0x6D, 41), (12, 0xDA, 42), (12, 0xDB, 43),
        (12, 0x54, 44), (12, 0x55, 45), (12, 0x56, 46), (12, 0x57, 47),
        (12, 0x64, 48), (12, 0x65, 49), (12, 0x52, 50), (12, 0x53, 51),
        (12, 0x24, 52), (12, 0x37, 53), (12, 0x38, 54), (12, 0x27, 55),
        (12, 0x28, 56), (12, 0x58, 57), (12, 0x59, 58), (12, 0x2B, 59),
        (12, 0x2C, 60), (12, 0x5A, 61), (12, 0x66, 62), (12, 0x67, 63),
    ]
}

/// Black terminating codes (ITU-T T.4 Table 1), run lengths 0..=63.
pub fn black_term_entries() -> (r: Vec<(u32, u32, u32)>)
    ensures
        r@ == spec_black_term(),
{
    let r = vec![
        (10, 0x37, 0), (3, 0x02, 1), (2, 0x03, 2), (2, 0x02, 3),
        (3, 0x03, 4), (4, 0x03, 5), (4, 0x02, 6), (5, 0x03, 7),
        (6, 0x05, 8), (6, 0x04, 9), (7, 0x04, 10), (7, 0x05, 11),
        (7, 0x07, 12), (8, 0x04, 13), (8, 0x07, 14), (9, 0x18, 15),
        (10, 0x17, 16), (10, 0x18, 17), (10, 0x08, 18), (11, 0x67, 19),
        (11, 0x68, 20), (11, 0x6C, 21), (11, 0x37, 22), (11, 0x28, 23),
        (11, 0x17, 24), (11, 0x18, 25), (12, 0xCA, 26), (12, 0xCB, 27),
        (12, 0xCC, 28), (12, 0xCD, 29), (12, 0x68, 30), (12, 0x69, 31),
        (12, 0x6A, 32), (12, 0x6B, 33), (12, 0xD2, 34), (12, 0xD3, 35),
        (12, 0xD4, 36), (12, 0xD5, 37), (12, 0xD6, 38), (12, 0xD7, 39),
        (12, 0x6C, 40), (12, 0x6D, 41), (12, 0xDA, 42), (12, 0xDB, 43),
        (12, 0x54, 44), (12, 0x55, 45), (12, 0x56, 46), (12, 0x57, 47),
        (12, 0x64, 48), (12, 0x65, 49), (12, 0x52, 50), (12, 0x53, 51),
        (12, 0x24, 52), (12, 0x37, 53), (12, 0x38, 54), (12, 0x27, 55),
        (12, 0x28, 56), (12, 0x58, 57), (12, 0x59, 58), (12, 0x2B, 59),
        (12, 0x2C, 60), (12, 0x5A, 61), (12, 0x66, 62), (12, 0x67, 63),
    ];
    assert(r@ =~= spec_black_term());
    r
}

/// Black make-up codes (ITU-T T.4 Table 2), runs 64..=1728 step 64,
/// followed by the extended make-up codes 1792..=2560 shared with white.
/// Each entry: `(length_bits, code_bits, run_length)`.
pub open spec fn spec_black_makeup() -> Seq<(u32, u32, u32)> {
    seq![
        (10, 0x0F, 64), (12, 0xC8, 128), (12, 0xC9, 192), (12, 0x5B, 256),
        (12, 0x33, 320), (12, 0x34, 384), (12, 0x35, 448), (13, 0x6C, 512),
        (13, 0x6D, 576), (13, 0x4A, 640), (13, 0x4B, 704), (13, 0x4C, 768),
        (13, 0x4D, 832), (13, 0x72, 896), (13, 0x73, 960), (13, 0x74, 1024),
        (13, 0x75, 1088), (13, 0x76, 1152), (13, 0x77, 1216), (13, 0x52, 1280),
        (13, 0x53, 1344), (13, 0x54, 1408), (13, 0x55, 1472), (13, 0x5A, 1536),
        (13, 0x5B, 1600), (13, 0x64, 1664), (13, 0x65, 1728), (11, 0x08, 1792),
        (11, 0x0C, 1856), (11, 0x0D, 1920), (12, 0x12, 1984), (12, 0x13, 2048),
        (12, 0x14, 2112), (12, 0x15, 2176), (12, 0x16, 2240), (12, 0x17, 2304),
        (12, 0x1C, 2368), (12, 0x1D, 2432), (12, 0x1E, 2496), (12, 0x1F, 2560),
    ]
}

/// Black make-up codes (ITU-T T.4 Table 2), runs 64..=1728 step 64, then
/// the extended make-up codes 1792..=2560.
pub fn black_makeup_entries() -> (r: Vec<(u32, u32, u32)>)
    ensures
        r@ == spec_black_makeup(),
{
    let r = vec![
        (10, 0x0F, 64), (12, 0xC8, 128), (12, 0xC9, 192), (12, 0x5B, 256),
        (12, 0x33, 320), (12, 0x34, 384), (12, 0x35, 448), (13, 0x6C, 512),
        (13, 0x6D, 576), (13, 0x4A, 640), (13, 0x4B, 704), (13, 0x4C, 768),
        (13, 0x4D, 832), (13, 0x72, 896), (13, 0x73, 960), (13, 0x74, 1024),
        (13, 0x75, 1088), (13, 0x76, 1152), (13, 0x77, 1216), (13, 0x52, 1280),
        (13, 0x53, 1344), (13, 0x54, 1408), (13, 0x55, 1472), (13, 0x5A, 1536),
        (13, 0x5B, 1600), (13, 0x64, 1664), (13, 0x65, 1728), (11, 0x08, 1792),
        (11, 0x0C, 1856), (11, 0x0D, 1920), (12, 0x12, 1984), (12, 0x13, 2048),
        (12, 0x14, 2112), (12, 0x15, 2176), (12, 0x16, 2240), (12, 0x17, 2304),
        (12, 0x1C, 2368), (12, 0x1D, 2432), (12, 0x1E, 2496), (12, 0x1F, 2560),
    ];
    assert(r@ =~= spec_black_makeup());
    r
}

/// A run-code entry is usable in a 13-bit lookup: its length is 1..=13
/// and its code is a nonzero value of that many bits.
pub open spec fn run_entry_ok(e: (u32, u32, u32)) -> bool {
    1 <= e.0 <= 13 && 1 <= e.1 && (e.1 as int) < pow2(e.0 as nat)
}

/// Every entry is usable in a 13-bit lookup.
pub open spec fn run_entries_ok(s: Seq<(u32, u32, u32)>) -> bool {
    forall|i: int| 0 <= i < s.len() ==> #[trigger] run_entry_ok(s[i])
}

/// Every run code of the four tables is usable in a 13-bit lookup.
pub proof fn lemma_tables_ok()
    ensures
        run_entries_ok(spec_white_term()),
        run_entries_ok(spec_white_makeup()),
        run_entries_ok(spec_black_term()),
        run_entries_ok(spec_black_makeup()),
{
    lemma2_to64();
}

/// A two-dimensional code entry is usable in a 7-bit lookup.
pub open spec fn twod_entry_ok(e: (u32, u32)) -> bool {
    1 <= e.0 <= 7 && 1 <= e.1 && (e.1 as int) < pow2(e.0 as nat)
}

/// Every two-dimensional code is usable in a 7-bit lookup, and the code
/// and label lists line up.
pub proof fn lemma_two_d_ok()
    ensures
        forall|i: int| 0 <= i < spec_two_d().len() ==> #[trigger] twod_entry_ok(spec_two_d()[i]),
        spec_two_d().len() == 9,
        spec_dispatch().len() == 9,
{
    lemma2_to64();
}

/// Whether the 13-bit window `v` begins with the code of run entry `e`.
pub open spec fn run_code_matches(e: (u32, u32, u32), v: u32) -> bool {
    e.0 <= 13 && (v >> ((13 - e.0) as u32)) == e.1
}

/// The first entry of `s` whose code begins the 13-bit window `v`.
pub open spec fn first_run_hit(s: Seq<(u32, u32, u32)>, v: u32) -> Option<RunHit>
    decreases s.len(),
{
    if s.len() == 0 {
        None
    } else {
        match first_run_hit(s.drop_last(), v) {
            Some(h) => Some(h),
            None => if run_code_matches(s.last(), v) {
                Some(RunHit { run: s.last().2, code_len: s.last().0 })
            } else {
                None
            },
        }
    }
}

/// Whether the 7-bit window `v` begins with the two-dimensional code `e`.
pub open spec fn twod_matches(e: (u32, u32), v: u32) -> bool {
    e.0 <= 7 && (v >> ((7 - e.0) as u32)) == e.1
}

/// The last entry of `s` whose code begins the 7-bit window `v`, with its
/// index (the entries are prefix-free, so at most one matches).
pub open spec fn last_twod_hit(s: Seq<(u32, u32)>, v: u32) -> Option<DispatchHit>
    decreases s.len(),
{
    if s.len() == 0 {
        None
    } else if twod_matches(s.last(), v) {
        Some(DispatchHit { dispatch_idx: (s.len() - 1) as u8, code_len: s.last().0 })
    } else {
        last_twod_hit(s.drop_last(), v)
    }
}

/// An entry's code of `len` bits covers exactly the `width`-bit windows
/// from `code << pad` up to the next multiple of `1 << pad`.
proof fn lemma_code_span(len: u32, pad: u32, width: u32, code: u32, i: u32)
    requires
        1 <= len,
        len + pad == width,
        width <= 13,
        code < (1u32 << len),
        i < (1u32 << width),
    ensures
        ((code << pad) <= i && i < (code << pad) + (1u32 << pad)) <==> (i >> pad) == code,
        (code << pad) + (1u32 << pad) <= (1u32 << width),
{
    assert(((code << pad) <= i && i < (code << pad) + (1u32 << pad)) <==> (i >> pad) == code)
        by (bit_vector)
        requires
            1 <= len,
            len + pad == width,
            width <= 13,
            code < (1u32 << len),
            i < (1u32 << width),
    ;
    assert((code << pad) + (1u32 << pad) <= (1u32 << width)) by (bit_vector)
        requires
            1 <= len,
            len + pad == width,
            width <= 13,
            code < (1u32 << len),
    ;
}

/// A window of zero bits begins no run code.
pub proof fn lemma_first_run_hit_zero(s: Seq<(u32, u32, u32)>)
    requires
        run_entries_ok(s),
    ensures
        first_run_hit(s, 0) is None,
    decreases s.len(),
{
    if s.len() > 0 {
        assert(run_entries_ok(s.drop_last())) by {
            assert forall|i: int| 0 <= i < s.drop_last().len() implies #[trigger] run_entry_ok(
                s.drop_last()[i],
            ) by {
                assert(run_entry_ok(s[i]));
            }
        }
        lemma_first_run_hit_zero(s.drop_last());
        assert(run_entry_ok(s[s.len() - 1]));
        let p = (13 - s.last().0) as u32;
        assert(0u32 >> p == 0u32) by (bit_vector);
    }
}

/// A hit consumes a code of 1..=13 bits.
pub proof fn lemma_first_run_hit_len(s: Seq<(u32, u32, u32)>, v: u32)
    requires
        run_entries_ok(s),
    ensures
        first_run_hit(s, v) matches Some(h) ==> 1 <= h.code_len <= 13,
    decreases s.len(),
{
    if s.len() > 0 {
        assert(run_entries_ok(s.drop_last())) by {
            assert forall|i: int| 0 <= i < s.drop_last().len() implies #[trigger] run_entry_ok(
                s.drop_last()[i],
            ) by {
                assert(run_entry_ok(s[i]));
            }
        }
        lemma_first_run_hit_len(s.drop_last(), v);
        assert(run_entry_ok(s[s.len() - 1]));
    }
}

/// A window of zero bits begins no two-dimensional code.
pub proof fn lemma_last_twod_hit_zero(s: Seq<(u32, u32)>)
    requires
        forall|i: int| 0 <= i < s.len() ==> #[trigger] twod_entry_ok(s[i]),
    ensures
        last_twod_hit(s, 0) is None,
    decreases s.len(),
{
    if s.len() > 0 {
        assert(twod_entry_ok(s[s.len() - 1]));
        let p = (7 - s.last().0) as u32;
        assert(0u32 >> p == 0u32) by (bit_vector);
        lemma_last_twod_hit_zero(s.drop_last());
    }
}

/// A two-dimensional hit names an entry of `s` and consumes its length.
pub proof fn lemma_last_twod_hit_index(s: Seq<(u32, u32)>, v: u32)
    requires
        s.len() <= 255,
    ensures
        last_twod_hit(s, v) matches Some(h) ==> h.dispatch_idx < s.len() && h.code_len
            == s[h.dispatch_idx as int].0,
    decreases s.len(),
{
    if s.len() > 0 {
        lemma_last_twod_hit_index(s.drop_last(), v);
    }
}

fn fill_run_entries(
    table: &mut Vec<Option<RunHit>>,
    entries: &[(u32, u32, u32)],
    Ghost(prefix): Ghost<Seq<(u32, u32, u32)>>,
)
    requires
        old(table)@.len() == 8192,
        run_entries_ok(entries@),
        forall|i: int| 0 <= i < 8192 ==> old(table)@[i] == first_run_hit(prefix, i as u32),
    ensures
        final(table)@.len() == 8192,
        forall|i: int|
            0 <= i < 8192 ==> final(table)@[i] == first_run_hit(prefix + entries@, i as u32),
{
    let mut k: usize = 0;
    while k < entries.len()
        invariant
            0 <= k <= entries.len(),
            table@.len() == 8192,
            run_entries_ok(entries@),
            forall|i: int|
                0 <= i < 8192 ==> table@[i] == first_run_hit(
                    prefix + entries@.take(k as int),
                    i as u32,
                ),
        decreases entries.len() - k,
    {
        let (length, code, run) = entries[k];
        proof {
            assert(run_entry_ok(entries@[k as int]));
            lemma2_to64();
            lemma_u32_pow2_no_overflow(length as nat);
            lemma_u32_shl_is_mul(1u32, length);
            lemma_u32_shl_is_mul(1u32, 13u32);
        }
        let pad: u32 = 13 - length;
        let base32: u32 = code << pad;
        let span32: u32 = 1u32 << pad;
        proof {
            lemma_code_span(length, pad, 13, code, 0);
        }
        let base = base32 as usize;
        let span = span32 as usize;
        let ghost pk = prefix + entries@.take(k as int);
        let ghost e = entries@[k as int];
        let ghost hit = RunHit { run, code_len: length };
        let mut j: usize = 0;
        while j < span
            invariant
                0 <= j <= span,
                base + span <= 8192,
                table@.len() == 8192,
                hit == (RunHit { run, code_len: length }),
                forall|i: int|
                    0 <= i < 8192 ==> table@[i] == (if base <= i < base + j && first_run_hit(
                        pk,
                        i as u32,
                    ) is None {
                        Some(hit)
                    } else {
                        first_run_hit(pk, i as u32)
                    }),
            decreases span - j,
        {
            let ghost before = table@;
            if table[base + j].is_none() {
                table.set(base + j, Some(RunHit { run, code_len: length }));
            }
            proof {
                assert forall|i: int| 0 <= i < 8192 && i != base + j implies table@[i] == before[i] by {}
            }
            j = j + 1;
        }
        proof {
            let pk1 = prefix + entries@.take(k + 1);
            assert(pk1 =~= pk.push(e));
            assert(pk1.drop_last() =~= pk);
            assert forall|i: int| 0 <= i < 8192 implies table@[i] == first_run_hit(pk1, i as u32) by {
                lemma_code_span(length, pad, 13, code, i as u32);
                assert(i as u32 as int == i);
            }
        }
        k = k + 1;
    }
    proof {
        assert(entries@.take(entries@.len() as int) =~= entries@);
    }
}

/// Build a 13-bit run-length lookup table: entry `i` is the first code of
/// `term` followed by `makeup` that begins the 13-bit window `i`.
pub fn build_run_table(term: &[(u32, u32, u32)], makeup: &[(u32, u32, u32)]) -> (r: Vec<
    Option<RunHit>,
>)
    requires
        run_entries_ok(term@),
        run_entries_ok(makeup@),
    ensures
        r@.len() == 8192,
        forall|i: int| 0 <= i < 8192 ==> r@[i] == first_run_hit(term@ + makeup@, i as u32),
{
    let mut table: Vec<Option<RunHit>> = vec![None; 8192];
    proof {
        let e = Seq::<(u32, u32, u32)>::empty();
        assert forall|i: int| 0 <= i < 8192 implies table@[i] == first_run_hit(e, i as u32) by {}
    }
    fill_run_entries(&mut table, term, Ghost(Seq::empty()));
    proof {
        assert(Seq::<(u32, u32, u32)>::empty() + term@ =~= term@);
    }
    fill_run_entries(&mut table, makeup, Ghost(term@));
    table
}

/// Build the 7-bit dispatcher table: entry `i` is the two-dimensional code
/// that begins the 7-bit window `i`, if any.
pub fn build_tab7() -> (r: Vec<Option<DispatchHit>>)
    ensures
        r@.len() == 128,
        forall|i: int| 0 <= i < 128 ==> r@[i] == last_twod_hit(spec_two_d(), i as u32),
{
    let codes = two_d_codes();
    let mut table: Vec<Option<DispatchHit>> = vec![None; 128];
    proof {
        lemma_two_d_ok();
    }
    let mut idx: usize = 0;
    while idx < codes.len()
        invariant
            0 <= idx <= codes.len(),
            codes@ == spec_two_d(),
            table@.len() == 128,
            forall|i: int| 0 <= i < codes@.len() ==> #[trigger] twod_entry_ok(codes@[i]),
            forall|i: int|
                0 <= i < 128 ==> table@[i] == last_twod_hit(codes@.take(idx as int), i as u32),
        decreases codes.len() - idx,
    {
        let (length, code) = codes[idx];
        proof {
            assert(twod_entry_ok(codes@[idx as int]));
            lemma2_to64();
            lemma_u32_pow2_no_overflow(length as nat);
            lemma_u32_shl_is_mul(1u32, length);
            lemma_u32_shl_is_mul(1u32, 7u32);
        }
        let pad: u32 = 7 - length;
        let base32: u32 = code << pad;
        let span32: u32 = 1u32 << pad;
        proof {
            lemma_code_span(length, pad, 7, code, 0);
        }
        let base = base32 as usize;
        let span = span32 as usize;
        let ghost pk = codes@.take(idx as int);
        let ghost hit = DispatchHit { dispatch_idx: idx as u8, code_len: length };
        let mut j: usize = 0;
        while j < span
            invariant
                0 <= j <= span,
                base + span <= 128,
                table@.len() == 128,
                idx < 9,
                hit == (DispatchHit { dispatch_idx: idx as u8, code_len: length }),
                forall|i: int|
                    0 <= i < 128 ==> table@[i] == (if base <= i < base + j {
                        Some(hit)
                    } else {
                        last_twod_hit(pk, i as u32)
                    }),
            decreases span - j,
        {
            let ghost before = table@;
            table.set(base + j, Some(DispatchHit { dispatch_idx: idx as u8, code_len: length }));
            proof {
                assert forall|i: int| 0 <= i < 128 && i != base + j implies table@[i] == before[i] by {}
                assert(table@[base + j] == Some(hit));
            }
            j = j + 1;
        }
        proof {
            let pk1 = codes@.take(idx + 1);
            assert(pk1.drop_last() =~= pk);
            assert(pk1.last() == codes@[idx as int]);
            assert forall|i: int| 0 <= i < 128 implies table@[i] == last_twod_hit(pk1, i as u32) by {
                lemma_code_span(length, pad, 7, code, i as u32);
            }
        }
        idx = idx + 1;
    }
    proof {
        assert(codes@.take(9) =~= codes@);
    }
    table
}

/// The 13-bit white run-length table (terminating then make-up codes).
pub fn white_table() -> (r: Vec<Option<RunHit>>)
    ensures
        r@.len() == 8192,
        forall|i: int|
            0 <= i < 8192 ==> r@[i] == first_run_hit(
                spec_white_term() + spec_white_makeup(),
                i as u32,
            ),
{
    proof {
        lemma_tables_ok();
    }
    let term = white_term_entries();
    let makeup = white_makeup_entries();
    build_run_table(term.as_slice(), makeup.as_slice())
}

/// The 13-bit black run-length table (terminating then make-up codes).
pub fn black_table() -> (r: Vec<Option<RunHit>>)
    ensures
        r@.len() == 8192,
        forall|i: int|
            0 <= i < 8192 ==> r@[i] == first_run_hit(
                spec_black_term() + spec_black_makeup(),
                i as u32,
            ),
{
    proof {
        lemma_tables_ok();
    }
    let term = black_term_entries();
    let makeup = black_makeup_entries();
    build_run_table(term.as_slice(), makeup.as_slice())
}

/// White codes in lookup order.
pub open spec fn spec_white_codes() -> Seq<(u32, u32, u32)> {
    spec_white_term() + spec_white_makeup()
}

/// Black codes in lookup order.
pub open spec fn spec_black_codes() -> Seq<(u32, u32, u32)> {
    spec_black_term() + spec_black_makeup()
}

/// Every code of the white and black lookup lists is usable in a 13-bit
/// lookup.
pub proof fn lemma_code_lists_ok()
    ensures
        run_entries_ok(spec_white_codes()),
        run_entries_ok(spec_black_codes()),
{
    lemma_tables_ok();
    let w = spec_white_codes();
    assert forall|i: int| 0 <= i < w.len() implies #[trigger] run_entry_ok(w[i]) by {
        if i < spec_white_term().len() {
            assert(run_entry_ok(spec_white_term()[i]));
        } else {
            assert(run_entry_ok(spec_white_makeup()[i - spec_white_term().len()]));
        }
    }
    let b = spec_black_codes();
    assert forall|i: int| 0 <= i < b.len() implies #[trigger] run_entry_ok(b[i]) by {
        if i < spec_black_term().len() {
            assert(run_entry_ok(spec_black_term()[i]));
        } else {
            assert(run_entry_ok(spec_black_makeup()[i - spec_black_term().len()]));
        }
    }
}

/// The lookup tables the line decoder works with.
pub struct CodeTables {
    /// 7-bit two-dimensional code table.
    pub tab7: Vec<Option<DispatchHit>>,
    /// 13-bit white run table.
    pub white: Vec<Option<RunHit>>,
    /// 13-bit black run table.
    pub black: Vec<Option<RunHit>>,
    /// Dispatch labels by index.
    pub dispatch: Vec<DispatchEntry>,
}

impl CodeTables {
    /// Each table holds the lookup of its code list.
    pub open spec fn wf(&self) -> bool {
        &&& self.tab7@.len() == 128
        &&& (forall|i: int|
            0 <= i < 128 ==> self.tab7@[i] == last_twod_hit(spec_two_d(), i as u32))
        &&& self.white@.len() == 8192
        &&& (forall|i: int|
            0 <= i < 8192 ==> self.white@[i] == first_run_hit(spec_white_codes(), i as u32))
        &&& self.black@.len() == 8192
        &&& (forall|i: int|
            0 <= i < 8192 ==> self.black@[i] == first_run_hit(spec_black_codes(), i as u32))
        &&& self.dispatch@ == spec_dispatch()
    }

    /// Build all lookup tables.
    pub fn new() -> (r: Self)
        ensures
            r.wf(),
    {
        CodeTables {
            tab7: build_tab7(),
            white: white_table(),
            black: black_table(),
            dispatch: dispatch_entries(),
        }
    }
}

/// ITU-T T.4 Table 1: the code of each white terminating run `0..=63`,
/// indexed by run length, as `(length_bits, code_bits)`.
pub open spec fn t4_white_terminating_codes() -> Seq<(u32, u32)> {
    seq![
        (8, 0b00110101), (6, 0b000111), (4, 0b0111), (4, 0b1000),
        (4, 0b1011), (4, 0b1100), (4, 0b1110), (4, 0b1111),
        (5, 0b10011), (5, 0b10100), (5, 0b00111), (5, 0b01000),
        (6, 0b001000), (6, 0b000011), (6, 0b110100), (6, 0b110101),
        (6, 0b101010), (6, 0b101011), (7, 0b0100111), (7, 0b0001100),
        (7, 0b0001000), (7, 0b0010111), (7, 0b0000011), (7, 0b0000100),
        (7, 0b0101000), (7, 0b0101011), (7, 0b0010011), (7, 0b0100100),
        (7, 0b0011000), (8, 0b00000010), (8, 0b00000011), (8, 0b00011010),
        (8, 0b00011011), (8, 0b00010010), (8, 0b00010011), (8, 0b00010100),
        (8, 0b00010101), (8, 0b00010110), (8, 0b00010111), (8, 0b00101000),
        (8, 0b00101001), (8, 0b00101010), (8, 0b00101011), (8, 0b00101100),
        (8, 0b00101101), (8, 0b00000100), (8, 0b00000101), (8, 0b00001010),
        (8, 0b00001011), (8, 0b01010010), (8, 0b01010011), (8, 0b01010100),
        (8, 0b01010101), (8, 0b00100100), (8, 0b00100101), (8, 0b01011000),
        (8, 0b01011001), (8, 0b01011010), (8, 0b01011011), (8, 0b01001010),
        (8, 0b01001011), (8, 0b00110010), (8, 0b00110011), (8, 0b00110100),
    ]
}

/// The white codes the decoder looks runs up in follow ITU-T T.4 Table 1:
/// for every run length `n` in `0..=63`, lookup entry `n` carries the
/// standard code of `n` (its length and bits) and decodes to a run of `n`
/// white pixels.
pub proof fn lemma_white_codes_follow_t4()
    ensures
        forall|n: int|
            0 <= n < 64 ==> #[trigger] spec_white_codes()[n] == (
                t4_white_terminating_codes()[n].0,
                t4_white_terminating_codes()[n].1,
                n as u32,
            ),
{
    let w = spec_white_codes();
    let t = t4_white_terminating_codes();
    assert(w.subrange(0, 64) =~= spec_white_term());
    assert(w[0] == (t[0].0, t[0].1, 0u32));
    assert(w[1] == (t[1].0, t[1].1, 1u32));
    assert(w[2] == (t[2].0, t[2].1, 2u32));
    assert(w[3] == (t[3].0, t[3].1, 3u32));
    assert(w[4] == (t[4].0, t[4].1, 4u32));
    assert(w[5] == (t[5].0, t[5].1, 5u32));
    assert(w[6] == (t[6].0, t[6].1, 6u32));
    assert(w[7] == (t[7].0, t[7].1, 7u32));
    assert(w[8] == (t[8].0, t[8].1, 8u32));
    assert(w[9] == (t[9].0, t[9].1, 9u32));
    assert(w[10] == (t[10].0, t[10].1, 10u32));
    assert(w[11] == (t[11].0, t[11].1, 11u32));
    assert(w[12] == (t[12].0, t[12].1, 12u32));
    assert(w[13] == (t[13].0, t[13].1, 13u32));
    assert(w[14] == (t[14].0, t[14].1, 14u32));
    assert(w[15] == (t[15].0, t[15].1, 15u32));
    assert(w[16] == (t[16].0, t[16].1, 16u32));
    assert(w[17] == (t[17].0, t[17].1, 17u32));
    assert(w[18] == (t[18].0, t[18].1, 18u32));
    assert(w[19] == (t[19].0, t[19].1, 19u32));
    assert(w[20] == (t[20].0, t[20].1, 20u32));
    assert(w[21] == (t[21].0, t[21].1, 21u32));
    assert(w[22] == (t[22].0, t[22].1, 22u32));
    assert(w[23] == (t[23].0, t[23].1, 23u32));
    assert(w[24] == (t[24].0, t[24].1, 24u32));
    assert(w[25] == (t[25].0, t[25].1, 25u32));
    assert(w[26] == (t[26].0, t[26].1, 26u32));
    assert(w[27] == (t[27].0, t[27].1, 27u32));
    assert(w[28] == (t[28].0, t[28].1, 28u32));
    assert(w[29] == (t[29].0, t[29].1, 29u32));
    assert(w[30] == (t[30].0, t[30].1, 30u32));
    assert(w[31] == (t[31].0, t[31].1, 31u32));
    assert(w[32] == (t[32].0, t[32].1, 32u32));
    assert(w[33] == (t[33].0, t[33].1, 33u32));
    assert(w[34] == (t[34].0, t[34].1, 34u32));
    assert(w[35] == (t[35].0, t[35].1, 35u32));
    assert(w[36] == (t[36].0, t[36].1, 36u32));
    assert(w[37] == (t[37].0, t[37].1, 37u32));
    assert(w[38] == (t[38].0, t[38].1, 38u32));
    assert(w[39] == (t[39].0, t[39].1, 39u32));
    assert(w[40] == (t[40].0, t[40].1, 40u32));
    assert(w[41] == (t[41].0, t[41].1, 41u32));
    assert(w[42] == (t[42].0, t[42].1, 42u32));
    assert(w[43] == (t[43].0, t[43].1, 43u32));
    assert(w[44] == (t[44].0, t[44].1, 44u32));
    assert(w[45] == (t[45].0, t[45].1, 45u32));
    assert(w[46] == (t[46].0, t[46].1, 46u32));
    assert(w[47] == (t[47].0, t[47].1, 47u32));
    assert(w[48] == (t[48].0, t[48].1, 48u32));
    assert(w[49] == (t[49].0, t[49].1, 49u32));
    assert(w[50] == (t[50].0, t[50].1, 50u32));
    assert(w[51] == (t[51].0, t[51].1, 51u32));
    assert(w[52] == (t[52].0, t[52].1, 52u32));
    assert(w[53] == (t[53].0, t[53].1, 53u32));
    assert(w[54] == (t[54].0, t[54].1, 54u32));
    assert(w[55] == (t[55].0, t[55].1, 55u32));
    assert(w[56] == (t[56].0, t[56].1, 56u32));
    assert(w[57] == (t[57].0, t[57].1, 57u32));
    assert(w[58] == (t[58].0, t[58].1, 58u32));
    assert(w[59] == (t[59].0, t[59].1, 59u32));
    assert(w[60] == (t[60].0, t[60].1, 60u32));
    assert(w[61] == (t[61].0, t[61].1, 61u32));
    assert(w[62] == (t[62].0, t[62].1, 62u32));
    assert(w[63] == (t[63].0, t[63].1, 63u32));
    assert forall|n: int| 0 <= n < 64 implies #[trigger] w[n] == (t[n].0, t[n].1, n as u32) by {
        assert(w[n] == w.subrange(0, 64)[n]);
    }
}

/// ITU-T T.4 Table 1: the code of each black terminating run `0..=63`,
/// indexed by run length, as `(length_bits, code_bits)`.
pub open spec fn t4_black_terminating_codes() -> Seq<(u32, u32)> {
    seq![
        (10, 0b0000110111), (3, 0b010), (2, 0b11), (2, 0b10),
        (3, 0b011), (4, 0b0011), (4, 0b0010), (5, 0b00011),
        (6, 0b000101), (6, 0b000100), (7, 0b0000100), (7, 0b0000101),
        (7, 0b0000111), (8, 0b00000100), (8, 0b00000111), (9, 0b000011000),
        (10, 0b0000010111), (10, 0b0000011000), (10, 0b0000001000), (11, 0b00001100111),
        (11, 0b00001101000), (11, 0b00001101100), (11, 0b00000110111), (11, 0b00000101000),
        (11, 0b00000010111), (11, 0b00000011000), (12, 0b000011001010), (12, 0b000011001011),
        (12, 0b000011001100), (12, 0b000011001101), (12, 0b000001101000), (12, 0b000001101001),
        (12, 0b000001101010), (12, 0b000001101011), (12, 0b000011010010), (12, 0b000011010011),
        (12, 0b000011010100), (12, 0b000011010101), (12, 0b000011010110), (12, 0b000011010111),
        (12, 0b000001101100), (12, 0b000001101101), (12, 0b000011011010), (12, 0b000011011011),
        (12, 0b000001010100), (12, 0b000001010101), (12, 0b000001010110), (12, 0b000001010111),
        (12, 0b000001100100), (12, 0b000001100101), (12, 0b000001010010), (12, 0b000001010011),
        (12, 0b000000100100), (12, 0b000000110111), (12, 0b000000111000), (12, 0b000000100111),
        (12, 0b000000101000), (12, 0b000001011000), (12, 0b000001011001), (12, 0b000000101011),
        (12, 0b000000101100), (12, 0b000001011010), (12, 0b000001100110), (12, 0b000001100111),
    ]
}

/// ITU-T T.4 Table 2: the white make-up codes of runs `64, 128, ..., 1728`.
pub open spec fn t4_white_makeup_codes() -> Seq<(u32, u32)> {
    seq![
        (5, 0b11011), (5, 0b10010), (6, 0b010111), (7, 0b0110111),
        (8, 0b00110110), (8, 0b00110111), (8, 0b01100100), (8, 0b01100101),
        (8, 0b01101000), (8, 0b01100111), (9, 0b011001100), (9, 0b011001101),
        (9, 0b011010010), (9, 0b011010011), (9, 0b011010100), (9, 0b011010101),
        (9, 0b011010110), (9, 0b011010111), (9, 0b011011000), (9, 0b011011001),
        (9, 0b011011010), (9, 0b011011011), (9, 0b010011000), (9, 0b010011001),
        (9, 0b010011010), (6, 0b011000), (9, 0b010011011),
    ]
}

/// ITU-T T.4 Table 2: the black make-up codes of runs `64, 128, ..., 1728`.
pub open spec fn t4_black_makeup_codes() -> Seq<(u32, u32)> {
    seq![
        (10, 0b0000001111), (12, 0b000011001000), (12, 0b000011001001), (12, 0b000001011011),
        (12, 0b000000110011), (12, 0b000000110100), (12, 0b000000110101), (13, 0b0000001101100),
        (13, 0b0000001101101), (13, 0b0000001001010), (13, 0b0000001001011), (13, 0b0000001001100),
        (13, 0b0000001001101), (13, 0b0000001110010), (13, 0b0000001110011), (13, 0b0000001110100),
        (13, 0b0000001110101), (13, 0b0000001110110), (13, 0b0000001110111), (13, 0b0000001010010),
        (13, 0b0000001010011), (13, 0b0000001010100), (13, 0b0000001010101), (13, 0b0000001011010),
        (13, 0b0000001011011), (13, 0b0000001100100), (13, 0b0000001100101),
    ]
}

/// ITU-T T.4 Table 3: the extended make-up codes of runs
/// `1792, 1856, ..., 2560`, the same for both colours.
pub open spec fn t4_extended_makeup_codes() -> Seq<(u32, u32)> {
    seq![
        (11, 0b00000001000), (11, 0b00000001100), (11, 0b00000001101), (12, 0b000000010010),
        (12, 0b000000010011), (12, 0b000000010100), (12, 0b000000010101), (12, 0b000000010110),
        (12, 0b000000010111), (12, 0b000000011100), (12, 0b000000011101), (12, 0b000000011110),
        (12, 0b000000011111),
    ]
}

/// ITU-T T.4 Table 4 (two-dimensional codes): each mode with its code, in
/// the decoder's dispatch order.
pub open spec fn t4_two_d_modes() -> Seq<(u32, u32, DispatchEntry)> {
    seq![
        (7, 0b0000010, DispatchEntry::V(-3i8)),
        (6, 0b000010, DispatchEntry::V(-2i8)),
        (3, 0b010, DispatchEntry::V(-1i8)),
        (1, 0b1, DispatchEntry::V(0i8)),
        (3, 0b011, DispatchEntry::V(1i8)),
        (6, 0b000011, DispatchEntry::V(2i8)),
        (7, 0b0000011, DispatchEntry::V(3i8)),
        (3, 0b001, DispatchEntry::H),
        (4, 0b0001, DispatchEntry::P),
    ]
}
/// The black terminating codes the decoder looks runs up in follow ITU-T
/// T.4 Table 1: lookup entry `n` (for `n` in `0..=63`) carries the
/// standard black code of `n` and decodes to a run of `n` black pixels.
pub proof fn lemma_black_codes_follow_t4()
    ensures
        forall|n: int|
            0 <= n < 64 ==> #[trigger] spec_black_codes()[n] == (
                t4_black_terminating_codes()[n].0,
                t4_black_terminating_codes()[n].1,
                n as u32,
            ),
{
    let w = spec_black_codes();
    let t = t4_black_terminating_codes();
    assert(w.subrange(0, 64) =~= spec_black_term());
    assert(w[0] == (t[0].0, t[0].1, 0u32));
    assert(w[1] == (t[1].0, t[1].1, 1u32));
    assert(w[2] == (t[2].0, t[2].1, 2u32));
    assert(w[3] == (t[3].0, t[3].1, 3u32));
    assert(w[4] == (t[4].0, t[4].1, 4u32));
    assert(w[5] == (t[5].0, t[5].1, 5u32));
    assert(w[6] == (t[6].0, t[6].1, 6u32));
    assert(w[7] == (t[7].0, t[7].1, 7u32));
    assert(w[8] == (t[8].0, t[8].1, 8u32));
    assert(w[9] == (t[9].0, t[9].1, 9u32));
    assert(w[10] == (t[10].0, t[10].1, 10u32));
    assert(w[11] == (t[11].0, t[11].1, 11u32));
    assert(w[12] == (t[12].0, t[12].1, 12u32));
    assert(w[13] == (t[13].0, t[13].1, 13u32));
    assert(w[14] == (t[14].0, t[14].1, 14u32));
    assert(w[15] == (t[15].0, t[15].1, 15u32));
    assert(w[16] == (t[16].0, t[16].1, 16u32));
    assert(w[17] == (t[17].0, t[17].1, 17u32));
    assert(w[18] == (t[18].0, t[18].1, 18u32));
    assert(w[19] == (t[19].0, t[19].1, 19u32));
    assert(w[20] == (t[20].0, t[20].1, 20u32));
    assert(w[21] == (t[21].0, t[21].1, 21u32));
    assert(w[22] == (t[22].0, t[22].1, 22u32));
    assert(w[23] == (t[23].0, t[23].1, 23u32));
    assert(w[24] == (t[24].0, t[24].1, 24u32));
    assert(w[25] == (t[25].0, t[25].1, 25u32));
    assert(w[26] == (t[26].0, t[26].1, 26u32));
    assert(w[27] == (t[27].0, t[27].1, 27u32));
    assert(w[28] == (t[28].0, t[28].1, 28u32));
    assert(w[29] == (t[29].0, t[29].1, 29u32));
    assert(w[30] == (t[30].0, t[30].1, 30u32));
    assert(w[31] == (t[31].0, t[31].1, 31u32));
    assert(w[32] == (t[32].0, t[32].1, 32u32));
    assert(w[33] == (t[33].0, t[33].1, 33u32));
    assert(w[34] == (t[34].0, t[34].1, 34u32));
    assert(w[35] == (t[35].0, t[35].1, 35u32));
    assert(w[36] == (t[36].0, t[36].1, 36u32));
    assert(w[37] == (t[37].0, t[37].1, 37u32));
    assert(w[38] == (t[38].0, t[38].1, 38u32));
    assert(w[39] == (t[39].0, t[39].1, 39u32));
    assert(w[40] == (t[40].0, t[40].1, 40u32));
    assert(w[41] == (t[41].0, t[41].1, 41u32));
    assert(w[42] == (t[42].0, t[42].1, 42u32));
    assert(w[43] == (t[43].0, t[43].1, 43u32));
    assert(w[44] == (t[44].0, t[44].1, 44u32));
    assert(w[45] == (t[45].0, t[45].1, 45u32));
    assert(w[46] == (t[46].0, t[46].1, 46u32));
    assert(w[47] == (t[47].0, t[47].1, 47u32));
    assert(w[48] == (t[48].0, t[48].1, 48u32));
    assert(w[49] == (t[49].0, t[49].1, 49u32));
    assert(w[50] == (t[50].0, t[50].1, 50u32));
    assert(w[51] == (t[51].0, t[51].1, 51u32));
    assert(w[52] == (t[52].0, t[52].1, 52u32));
    assert(w[53] == (t[53].0, t[53].1, 53u32));
    assert(w[54] == (t[54].0, t[54].1, 54u32));
    assert(w[55] == (t[55].0, t[55].1, 55u32));
    assert(w[56] == (t[56].0, t[56].1, 56u32));
    assert(w[57] == (t[57].0, t[57].1, 57u32));
    assert(w[58] == (t[58].0, t[58].1, 58u32));
    assert(w[59] == (t[59].0, t[59].1, 59u32));
    assert(w[60] == (t[60].0, t[60].1, 60u32));
    assert(w[61] == (t[61].0, t[61].1, 61u32));
    assert(w[62] == (t[62].0, t[62].1, 62u32));
    assert(w[63] == (t[63].0, t[63].1, 63u32));
    assert forall|n: int| 0 <= n < 64 implies #[trigger] w[n] == (t[n].0, t[n].1, n as u32) by {
        assert(w[n] == w.subrange(0, 64)[n]);
    }
}

/// The make-up codes follow ITU-T T.4 Tables 2 and 3: entry `k` of each
/// colour's make-up list is the standard code of run `64 * (k + 1)`, the
/// colour's own code for runs up to 1728 and the shared extended code for
/// runs 1792 to 2560.
pub proof fn lemma_makeup_codes_follow_t4()
    ensures
        forall|k: int|
            0 <= k < 27 ==> #[trigger] spec_white_makeup()[k] == (
                t4_white_makeup_codes()[k].0,
                t4_white_makeup_codes()[k].1,
                (64 * (k + 1)) as u32,
            ) && spec_black_makeup()[k] == (
                t4_black_makeup_codes()[k].0,
                t4_black_makeup_codes()[k].1,
                (64 * (k + 1)) as u32,
            ),
        forall|k: int|
            0 <= k < 13 ==> #[trigger] spec_white_makeup()[27 + k] == (
                t4_extended_makeup_codes()[k].0,
                t4_extended_makeup_codes()[k].1,
                (1792 + 64 * k) as u32,
            ) && spec_black_makeup()[27 + k] == (
                t4_extended_makeup_codes()[k].0,
                t4_extended_makeup_codes()[k].1,
                (1792 + 64 * k) as u32,
            ),
{
    let wm = spec_white_makeup();
    let bm = spec_black_makeup();
    let tw = t4_white_makeup_codes();
    let tb = t4_black_makeup_codes();
    let te = t4_extended_makeup_codes();
    assert(wm[0] == (tw[0].0, tw[0].1, 64u32));
    assert(wm[1] == (tw[1].0, tw[1].1, 128u32));
    assert(wm[2] == (tw[2].0, tw[2].1, 192u32));
    assert(wm[3] == (tw[3].0, tw[3].1, 256u32));
    assert(wm[4] == (tw[4].0, tw[4].1, 320u32));
    assert(wm[5] == (tw[5].0, tw[5].1, 384u32));
    assert(wm[6] == (tw[6].0, tw[6].1, 448u32));
    assert(wm[7] == (tw[7].0, tw[7].1, 512u32));
    assert(wm[8] == (tw[8].0, tw[8].1, 576u32));
    assert(wm[9] == (tw[9].0, tw[9].1, 640u32));
    assert(wm[10] == (tw[10].0, tw[10].1, 704u32));
    assert(wm[11] == (tw[11].0, tw[11].1, 768u32));
    assert(wm[12] == (tw[12].0, tw[12].1, 832u32));
    assert(wm[13] == (tw[13].0, tw[13].1, 896u32));
    assert(wm[14] == (tw[14].0, tw[14].1, 960u32));
    assert(wm[15] == (tw[15].0, tw[15].1, 1024u32));
    assert(wm[16] == (tw[16].0, tw[16].1, 1088u32));
    assert(wm[17] == (tw[17].0, tw[17].1, 1152u32));
    assert(wm[18] == (tw[18].0, tw[18].1, 1216u32));
    assert(wm[19] == (tw[19].0, tw[19].1, 1280u32));
    assert(wm[20] == (tw[20].0, tw[20].1, 1344u32));
    assert(wm[21] == (tw[21].0, tw[21].1, 1408u32));
    assert(wm[22] == (tw[22].0, tw[22].1, 1472u32));
    assert(wm[23] == (tw[23].0, tw[23].1, 1536u32));
    assert(wm[24] == (tw[24].0, tw[24].1, 1600u32));
    assert(wm[25] == (tw[25].0, tw[25].1, 1664u32));
    assert(wm[26] == (tw[26].0, tw[26].1, 1728u32));
    assert(bm[0] == (tb[0].0, tb[0].1, 64u32));
    assert(bm[1] == (tb[1].0, tb[1].1, 128u32));
    assert(bm[2] == (tb[2].0, tb[2].1, 192u32));
    assert(bm[3] == (tb[3].0, tb[3].1, 256u32));
    assert(bm[4] == (tb[4].0, tb[4].1, 320u32));
    assert(bm[5] == (tb[5].0, tb[5].1, 384u32));
    assert(bm[6] == (tb[6].0, tb[6].1, 448u32));
    assert(bm[7] == (tb[7].0, tb[7].1, 512u32));
    assert(bm[8] == (tb[8].0, tb[8].1, 576u32));
    assert(bm[9] == (tb[9].0, tb[9].1, 640u32));
    assert(bm[10] == (tb[10].0, tb[10].1, 704u32));
    assert(bm[11] == (tb[11].0, tb[11].1, 768u32));
    assert(bm[12] == (tb[12].0, tb[12].1, 832u32));
    assert(bm[13] == (tb[13].0, tb[13].1, 896u32));
    assert(bm[14] == (tb[14].0, tb[14].1, 960u32));
    assert(bm[15] == (tb[15].0, tb[15].1, 1024u32));
    assert(bm[16] == (tb[16].0, tb[16].1, 1088u32));
    assert(bm[17] == (tb[17].0, tb[17].1, 1152u32));
    assert(bm[18] == (tb[18].0, tb[18].1, 1216u32));
    assert(bm[19] == (tb[19].0, tb[19].1, 1280u32));
    assert(bm[20] == (tb[20].0, tb[20].1, 1344u32));
    assert(bm[21] == (tb[21].0, tb[21].1, 1408u32));
    assert(bm[22] == (tb[22].0, tb[22].1, 1472u32));
    assert(bm[23] == (tb[23].0, tb[23].1, 1536u32));
    assert(bm[24] == (tb[24].0, tb[24].1, 1600u32));
    assert(bm[25] == (tb[25].0, tb[25].1, 1664u32));
    assert(bm[26] == (tb[26].0, tb[26].1, 1728u32));
    assert(wm[27] == (te[0].0, te[0].1, 1792u32));
    assert(bm[27] == (te[0].0, te[0].1, 1792u32));
    assert(wm[28] == (te[1].0, te[1].1, 1856u32));
    assert(bm[28] == (te[1].0, te[1].1, 1856u32));
    assert(wm[29] == (te[2].0, te[2].1, 1920u32));
    assert(bm[29] == (te[2].0, te[2].1, 1920u32));
    assert(wm[30] == (te[3].0, te[3].1, 1984u32));
    assert(bm[30] == (te[3].0, te[3].1, 1984u32));
    assert(wm[31] == (te[4].0, te[4].1, 2048u32));
    assert(bm[31] == (te[4].0, te[4].1, 2048u32));
    assert(wm[32] == (te[5].0, te[5].1, 2112u32));
    assert(bm[32] == (te[5].0, te[5].1, 2112u32));
    assert(wm[33] == (te[6].0, te[6].1, 2176u32));
    assert(bm[33] == (te[6].0, te[6].1, 2176u32));
    assert(wm[34] == (te[7].0, te[7].1, 2240u32));
    assert(bm[34] == (te[7].0, te[7].1, 2240u32));
    assert(wm[35] == (te[8].0, te[8].1, 2304u32));
    assert(bm[35] == (te[8].0, te[8].1, 2304u32));
    assert(wm[36] == (te[9].0, te[9].1, 2368u32));
    assert(bm[36] == (te[9].0, te[9].1, 2368u32));
    assert(wm[37] == (te[10].0, te[10].1, 2432u32));
    assert(bm[37] == (te[10].0, te[10].1, 2432u32));
    assert(wm[38] == (te[11].0, te[11].1, 2496u32));
    assert(bm[38] == (te[11].0, te[11].1, 2496u32));
    assert(wm[39] == (te[12].0, te[12].1, 2560u32));
    assert(bm[39] == (te[12].0, te[12].1, 2560u32));
}

/// The two-dimensional codes follow ITU-T T.4 Table 4: code `i` of the
/// decoder's list and the mode it dispatches to are the standard pair.
pub proof fn lemma_two_d_codes_follow_t4()
    ensures
        forall|i: int|
            0 <= i < 9 ==> #[trigger] spec_two_d()[i] == (t4_two_d_modes()[i].0, t4_two_d_modes()[i].1)
                && spec_dispatch()[i] == t4_two_d_modes()[i].2,
{
    let c = spec_two_d();
    let d = spec_dispatch();
    let t = t4_two_d_modes();
    assert(c[0] == (t[0].0, t[0].1) && d[0] == t[0].2);
    assert(c[1] == (t[1].0, t[1].1) && d[1] == t[1].2);
    assert(c[2] == (t[2].0, t[2].1) && d[2] == t[2].2);
    assert(c[3] == (t[3].0, t[3].1) && d[3] == t[3].2);
    assert(c[4] == (t[4].0, t[4].1) && d[4] == t[4].2);
    assert(c[5] == (t[5].0, t[5].1) && d[5] == t[5].2);
    assert(c[6] == (t[6].0, t[6].1) && d[6] == t[6].2);
    assert(c[7] == (t[7].0, t[7].1) && d[7] == t[7].2);
    assert(c[8] == (t[8].0, t[8].1) && d[8] == t[8].2);
}

} // verus!
