//! MSB-first bit reader for CCITT-T.6 line decoding.
//!
//! Two refill modes:
//! - eager: load 2 bytes whenever the window holds at most 16 bits; bytes
//!   past the end of the input read as zero.
//! - lazy: load 1 byte at a time, only while the next peek would underrun
//!   and input remains.
//!
//! The abstract model: the input is an infinite MSB-first bit sequence
//! (`stream_bit`) made of the data bytes followed by zero bytes. A cursor
//! sits at an absolute bit position `abs_pos`; `peek(n)` answers the next
//! `n` bits of that sequence whenever the refill rule leaves enough bits
//! in the window.

use vstd::prelude::*;
use vstd::arithmetic::power2::{pow2, lemma_pow2_pos, lemma_pow2_adds, lemma2_to64};
use vstd::bits::{
    lemma_u64_shr_is_div, lemma_u64_shl_is_mul, lemma_u64_pow2_no_overflow, low_bits_mask,
    lemma_u64_low_bits_mask_is_mod,
};
use vstd::arithmetic::div_mod::{lemma_fundamental_div_mod_converse, lemma_div_multiples_vanish_fancy};
use vstd::arithmetic::mul::{lemma_mul_inequality, lemma_mul_is_commutative, lemma_mul_strict_inequality};

verus! {

/// Byte `j` of the input, or zero past either end.
pub open spec fn byte_at(data: Seq<u8>, j: int) -> u8 {
    if 0 <= j < data.len() { data[j] } else { 0u8 }
}

/// Bit `p` (MSB-first) of the zero-padded input.
pub open spec fn stream_bit(data: Seq<u8>, p: int) -> nat {
    ((byte_at(data, p / 8) >> ((7 - p % 8) as u8)) & 1u8) as nat
}

/// The `n` bits starting at bit `p`, read as a big-endian unsigned number.
pub open spec fn stream_val(data: Seq<u8>, p: int, n: nat) -> nat
    decreases n,
{
    if n == 0 {
        0
    } else {
        stream_val(data, p, (n - 1) as nat) * 2 + stream_bit(data, p + n - 1)
    }
}

/// Number of bytes that a lazy refill loads for a peek of `n` bits.
pub open spec fn lazy_loads(bits_left: int, n: int, pos: int, len: int) -> int {
    if bits_left >= n || pos >= len {
        0
    } else {
        let want = (n - bits_left + 7) / 8;
        if want <= len - pos { want } else { len - pos }
    }
}

/// Number of bytes that an eager refill loads for a peek of `n` bits: two
/// when at most 16 bits are buffered, then one at a time (zero bytes past
/// the end of the input) until `n` bits are buffered.
pub open spec fn eager_loads(bits_left: int, n: int) -> int {
    let first = if bits_left <= 16 { 2int } else { 0int };
    let after = bits_left + 8 * first;
    first + if after >= n { 0int } else { (n - after + 7) / 8 }
}

/// A stream bit is 0 or 1.
pub proof fn lemma_stream_bit_le1(data: Seq<u8>, p: int)
    ensures
        stream_bit(data, p) <= 1,
{
    let b = byte_at(data, p / 8);
    let s = (7 - p % 8) as u8;
    assert((b >> s) & 1u8 <= 1u8) by (bit_vector);
}

/// `n` stream bits read as a number below `2^n`.
pub proof fn lemma_stream_val_bound(data: Seq<u8>, p: int, n: nat)
    ensures
        stream_val(data, p, n) < pow2(n),
    decreases n,
{
    if n == 0 {
        lemma2_to64();
    } else {
        lemma_stream_val_bound(data, p, (n - 1) as nat);
        lemma_stream_bit_le1(data, p + n - 1);
        vstd::arithmetic::power2::lemma_pow2_unfold(n);
    }
}

/// Powers of two grow with the exponent.
pub proof fn lemma_pow2_mono(a: nat, b: nat)
    requires
        a <= b,
    ensures
        pow2(a) <= pow2(b),
{
    if a < b {
        vstd::arithmetic::power2::lemma_pow2_strictly_increases(a, b);
    }
}

/// Splitting a window: the first `a + b` bits are the first `a` bits
/// followed by the next `b` bits.
pub proof fn lemma_stream_val_split(data: Seq<u8>, p: int, a: nat, b: nat)
    ensures
        stream_val(data, p, a + b) == stream_val(data, p, a) * pow2(b) + stream_val(data, p + a, b),
    decreases b,
{
    if b == 0 {
        lemma2_to64();
    } else {
        lemma_stream_val_split(data, p, a, (b - 1) as nat);
        vstd::arithmetic::power2::lemma_pow2_unfold(b);
        assert(stream_val(data, p, a + b) == stream_val(data, p, (a + b - 1) as nat) * 2
            + stream_bit(data, p + a + b - 1));
        assert(stream_val(data, p + a, b) == stream_val(data, p + a, (b - 1) as nat) * 2
            + stream_bit(data, p + a + b - 1));
        let x = stream_val(data, p, a);
        let y = stream_val(data, p + a, (b - 1) as nat);
        let q = pow2((b - 1) as nat);
        assert((x * q + y) * 2 == x * (2 * q) + y * 2) by (nonlinear_arith);
    }
}

/// A byte-aligned window of eight bits is the byte itself.
pub proof fn lemma_stream_val_byte(data: Seq<u8>, p: int)
    requires
        p % 8 == 0,
    ensures
        stream_val(data, p, 8) == byte_at(data, p / 8),
{
    reveal_with_fuel(stream_val, 9);
    let b = byte_at(data, p / 8);
    assert forall|i: int| 0 <= i < 8 implies (#[trigger] ((p + i) / 8)) == p / 8 && (p + i) % 8
        == i by {}
    assert(stream_bit(data, p) == ((b >> 7u8) & 1u8) as nat) by {
        assert((p + 0) / 8 == p / 8);
    }
    assert(stream_bit(data, p + 1) == ((b >> 6u8) & 1u8) as nat) by {
        assert((p + 1) / 8 == p / 8 && (p + 1) % 8 == 1);
    }
    assert(stream_bit(data, p + 2) == ((b >> 5u8) & 1u8) as nat) by {
        assert((p + 2) / 8 == p / 8 && (p + 2) % 8 == 2);
    }
    assert(stream_bit(data, p + 3) == ((b >> 4u8) & 1u8) as nat) by {
        assert((p + 3) / 8 == p / 8 && (p + 3) % 8 == 3);
    }
    assert(stream_bit(data, p + 4) == ((b >> 3u8) & 1u8) as nat) by {
        assert((p + 4) / 8 == p / 8 && (p + 4) % 8 == 4);
    }
    assert(stream_bit(data, p + 5) == ((b >> 2u8) & 1u8) as nat) by {
        assert((p + 5) / 8 == p / 8 && (p + 5) % 8 == 5);
    }
    assert(stream_bit(data, p + 6) == ((b >> 1u8) & 1u8) as nat) by {
        assert((p + 6) / 8 == p / 8 && (p + 6) % 8 == 6);
    }
    assert(stream_bit(data, p + 7) == ((b >> 0u8) & 1u8) as nat) by {
        assert((p + 7) / 8 == p / 8 && (p + 7) % 8 == 7);
    }
    assert(((((((((b >> 7u8) & 1u8) as int * 2 + ((b >> 6u8) & 1u8) as int) * 2 + ((b >> 5u8)
        & 1u8) as int) * 2 + ((b >> 4u8) & 1u8) as int) * 2 + ((b >> 3u8) & 1u8) as int) * 2 + ((b
        >> 2u8) & 1u8) as int) * 2 + ((b >> 1u8) & 1u8) as int) * 2 + ((b >> 0u8) & 1u8) as int
        == b as int) by (bit_vector);
}

/// Past the end of the input every window reads as zero.
pub proof fn lemma_stream_val_past_end(data: Seq<u8>, p: int, n: nat)
    requires
        p >= data.len() * 8,
    ensures
        stream_val(data, p, n) == 0,
    decreases n,
{
    if n > 0 {
        lemma_stream_val_past_end(data, p, (n - 1) as nat);
        let q = p + n - 1;
        assert(q / 8 >= data.len()) by {
            assert(q >= data.len() * 8);
        }
        assert(byte_at(data, q / 8) == 0u8);
        let s = (7 - q % 8) as u8;
        assert((0u8 >> s) & 1u8 == 0u8) by (bit_vector);
    }
}

/// A nonzero window starts inside the input.
pub proof fn lemma_stream_val_nonzero(data: Seq<u8>, p: int, n: nat)
    requires
        stream_val(data, p, n) != 0,
    ensures
        p < data.len() * 8,
{
    if p >= data.len() * 8 {
        lemma_stream_val_past_end(data, p, n);
    }
}

/// Reading two more bytes after a byte-aligned window of `k` bits.
proof fn lemma_append_two_bytes(data: Seq<u8>, a: int, k: nat)
    requires
        (a + k) % 8 == 0,
    ensures
        stream_val(data, a, k + 16) == stream_val(data, a, k) * 65536 + byte_at(data, (a + k) / 8)
            * 256 + byte_at(data, (a + k) / 8 + 1),
{
    lemma_stream_val_split(data, a, k, 16);
    lemma_stream_val_split(data, a + k, 8, 8);
    lemma_stream_val_byte(data, a + k);
    lemma_stream_val_byte(data, a + k + 8);
    assert((a + k + 8) / 8 == (a + k) / 8 + 1);
    lemma2_to64();
}

/// Reading one more byte after a byte-aligned window of `k` bits.
proof fn lemma_append_byte(data: Seq<u8>, a: int, k: nat)
    requires
        (a + k) % 8 == 0,
    ensures
        stream_val(data, a, k + 8) == stream_val(data, a, k) * 256 + byte_at(data, (a + k) / 8),
{
    lemma_stream_val_split(data, a, k, 8);
    lemma_stream_val_byte(data, a + k);
    lemma2_to64();
}

/// MSB-first bit reader over a byte slice.
pub struct BitCursor<'a> {
    data: &'a [u8],
    /// Bit window, right-aligned: its low `bits_left` bits are the next
    /// bits of the stream.
    bits: u64,
    /// Number of valid bits in `bits`.
    bits_left: u32,
    /// Byte offset of the next byte to load.
    pos: usize,
    /// Byte-by-byte refill when true.
    lazy: bool,
    /// Total bits consumed over the cursor's lifetime.
    total_consumed: u64,
}

impl<'a> BitCursor<'a> {
    /// The input bytes.
    pub closed spec fn data_view(&self) -> Seq<u8> {
        self.data@
    }

    /// Whether the cursor refills byte by byte.
    pub closed spec fn is_lazy(&self) -> bool {
        self.lazy
    }

    /// Byte offset of the next byte that would be loaded.
    pub closed spec fn next_byte(&self) -> int {
        self.pos as int
    }

    /// Number of bits currently buffered.
    pub closed spec fn buffered(&self) -> int {
        self.bits_left as int
    }

    /// Total bits consumed so far.
    pub closed spec fn consumed(&self) -> int {
        self.total_consumed as int
    }

    /// Absolute bit position of the next unconsumed bit of the stream.
    pub open spec fn abs_pos(&self) -> int {
        self.next_byte() * 8 - self.buffered()
    }

    /// Bit position where the cursor started: eight times the next byte,
    /// less the buffered and the consumed bits. No operation changes it.
    pub open spec fn origin(&self) -> int {
        self.abs_pos() - self.consumed()
    }

    /// Well-formedness: the window holds exactly the next `bits_left`
    /// stream bits and never more than 40.
    pub closed spec fn wf(&self) -> bool {
        &&& self.bits_left <= 40
        &&& self.pos * 8 >= self.bits_left
        &&& (self.bits as nat) < pow2(self.bits_left as nat)
        &&& self.bits as nat == stream_val(
            self.data@,
            self.pos * 8 - self.bits_left,
            self.bits_left as nat,
        )
        &&& (self.lazy ==> self.pos <= self.data@.len() || self.bits_left == 0)
    }

    /// Facts that callers rely on: the window never exceeds 40 bits, and
    /// in lazy mode the window only holds bits of the input.
    pub proof fn lemma_wf_facts(&self)
        requires
            self.wf(),
        ensures
            0 <= self.buffered() <= 40,
            self.abs_pos() >= 0,
            self.next_byte() >= 0,
            self.is_lazy() ==> self.abs_pos() + self.buffered() <= self.data_view().len() * 8
                || self.buffered() == 0,
    {
    }

    /// Create a new cursor at byte offset 0 of `data`.
    pub fn new(data: &'a [u8], lazy: bool) -> (r: Self)
        ensures
            r.wf(),
            r.data_view() == data@,
            r.is_lazy() == lazy,
            r.next_byte() == 0,
            r.buffered() == 0,
            r.consumed() == 0,
            r.origin() == 0,
    {
        proof {
            lemma2_to64();
        }
        Self { data, bits: 0, bits_left: 0, pos: 0, lazy, total_consumed: 0 }
    }

    /// Create a cursor that starts at `start_pos` bytes into `data`.
    pub fn with_start(data: &'a [u8], start_pos: usize, lazy: bool) -> (r: Self)
        ensures
            r.wf(),
            r.data_view() == data@,
            r.is_lazy() == lazy,
            r.next_byte() == start_pos,
            r.buffered() == 0,
            r.consumed() == 0,
            r.origin() == start_pos * 8,
    {
        proof {
            lemma2_to64();
        }
        Self { data, bits: 0, bits_left: 0, pos: start_pos, lazy, total_consumed: 0 }
    }

    /// Peek the next `n` bits (1..=32) without consuming them; `None` if the
    /// refill rule cannot supply that many bits.
    pub fn peek(&mut self, n: u32) -> (r: Option<u32>)
        requires
            old(self).wf(),
            1 <= n <= 32,
            old(self).next_byte() + 4 <= usize::MAX,
        ensures
            final(self).wf(),
            final(self).data_view() == old(self).data_view(),
            final(self).is_lazy() == old(self).is_lazy(),
            final(self).consumed() == old(self).consumed(),
            final(self).abs_pos() == old(self).abs_pos(),
            final(self).origin() == old(self).origin(),
            !old(self).is_lazy() ==> final(self).next_byte() == old(self).next_byte() + eager_loads(
                old(self).buffered(),
                n as int,
            ),
            old(self).is_lazy() ==> final(self).next_byte() == old(self).next_byte() + lazy_loads(
                old(self).buffered(),
                n as int,
                old(self).next_byte(),
                old(self).data_view().len() as int,
            ),
            r == (if final(self).buffered() >= n {
                Some(stream_val(final(self).data_view(), final(self).abs_pos(), n as nat) as u32)
            } else {
                None
            }),
            !old(self).is_lazy() ==> r is Some,
            old(self).is_lazy() ==> (r is Some <==> old(self).abs_pos() + n <= old(
                self,
            ).data_view().len() * 8),
    {
        self.refill_if_needed(n);
        if self.bits_left < n {
            return None;
        }
        let ghost a = self.pos * 8 - self.bits_left;
        let ghost l = self.bits_left as nat;
        let shift = self.bits_left - n;
        let hi = self.bits >> (shift as u64);
        proof {
            lemma_u64_pow2_no_overflow(n as nat);
            lemma_u64_shl_is_mul(1u64, n as u64);
        }
        let mask = (1u64 << (n as u64)) - 1;
        proof {
            lemma_stream_val_split(self.data@, a, n as nat, (l - n) as nat);
            lemma_stream_val_bound(self.data@, a + n, (l - n) as nat);
            lemma_stream_val_bound(self.data@, a, n as nat);
            lemma_pow2_pos((l - n) as nat);
            lemma_u64_shr_is_div(self.bits, shift as u64);
            let hv = stream_val(self.data@, a, n as nat);
            let lv = stream_val(self.data@, a + n, (l - n) as nat);
            lemma_fundamental_div_mod_converse(
                self.bits as int,
                pow2((l - n) as nat) as int,
                hv as int,
                lv as int,
            );
            assert(hi as nat == hv);
            assert(hi < (1u64 << (n as u64)));
            let nn = n as u64;
            assert(hi < (1u64 << nn) && nn <= 32 ==> hi & ((1u64 << nn) - 1u64) as u64 == hi)
                by (bit_vector);
            lemma2_to64();
            lemma_pow2_mono(n as nat, 32);
        }
        let v = hi & mask;
        Some(v as u32)
    }

    /// Consume `n` previously peeked bits.
    pub fn consume(&mut self, n: u32)
        requires
            old(self).wf(),
            n <= old(self).buffered(),
            old(self).consumed() + n <= u64::MAX,
        ensures
            final(self).wf(),
            final(self).data_view() == old(self).data_view(),
            final(self).is_lazy() == old(self).is_lazy(),
            final(self).next_byte() == old(self).next_byte(),
            final(self).buffered() == old(self).buffered() - n,
            final(self).consumed() == old(self).consumed() + n,
            final(self).abs_pos() == old(self).abs_pos() + n,
            final(self).origin() == old(self).origin(),
    {
        let ghost a = self.pos * 8 - self.bits_left;
        let ghost l = self.bits_left as nat;
        self.bits_left = self.bits_left - n;
        self.total_consumed = self.total_consumed + n as u64;
        let bl = self.bits_left;
        let old_bits = self.bits;
        proof {
            lemma_u64_pow2_no_overflow(bl as nat);
            lemma_u64_shl_is_mul(1u64, bl as u64);
            lemma_pow2_pos(bl as nat);
        }
        let mask = (1u64 << (bl as u64)) - 1;
        self.bits = old_bits & mask;
        proof {
            let r = (l - n) as nat;
            lemma_stream_val_split(self.data@, a, n as nat, r);
            lemma_stream_val_bound(self.data@, a + n, r);
            lemma_stream_val_bound(self.data@, a, n as nat);
            let hv = stream_val(self.data@, a, n as nat);
            let lv = stream_val(self.data@, a + n, r);
            assert(mask == low_bits_mask(r) as u64);
            lemma_u64_low_bits_mask_is_mod(old_bits, r);
            lemma_fundamental_div_mod_converse(
                old_bits as int,
                pow2(r) as int,
                hv as int,
                lv as int,
            );
            assert(self.bits as nat == lv);
        }
    }

    /// Total bits consumed via `consume`.
    pub fn consumed_bits(&self) -> (r: u64)
        ensures
            r == self.consumed(),
    {
        self.total_consumed
    }

    /// Byte offset of the next byte that would be loaded.
    pub fn next_load_byte(&self) -> (r: usize)
        ensures
            r == self.next_byte(),
    {
        self.pos
    }

    /// Bits currently buffered.
    pub fn bits_buffered(&self) -> (r: u32)
        ensures
            r == self.buffered(),
    {
        self.bits_left
    }

    fn refill_if_needed(&mut self, need: u32)
        requires
            old(self).wf(),
            1 <= need <= 32,
            old(self).next_byte() + 4 <= usize::MAX,
        ensures
            final(self).wf(),
            final(self).data_view() == old(self).data_view(),
            final(self).is_lazy() == old(self).is_lazy(),
            final(self).consumed() == old(self).consumed(),
            final(self).abs_pos() == old(self).abs_pos(),
            !old(self).is_lazy() ==> final(self).next_byte() == old(self).next_byte() + eager_loads(
                old(self).buffered(),
                need as int,
            ),
            !old(self).is_lazy() ==> final(self).buffered() >= need,
            old(self).is_lazy() ==> final(self).next_byte() == old(self).next_byte() + lazy_loads(
                old(self).buffered(),
                need as int,
                old(self).next_byte(),
                old(self).data_view().len() as int,
            ),
            old(self).is_lazy() ==> (final(self).buffered() >= need <==> old(self).abs_pos()
                + need <= old(self).data_view().len() * 8),
    {
        let ghost a = self.pos * 8 - self.bits_left;
        let ghost p0 = self.pos as int;
        let ghost b0l = self.bits_left as int;
        if self.lazy {
            while self.bits_left < need && self.pos < self.data.len()
                invariant
                    self.wf(),
                    self.lazy,
                    need <= 32,
                    self.pos * 8 - self.bits_left == a,
                    p0 <= self.pos,
                    self.bits_left == b0l + 8 * (self.pos - p0),
                    self.pos > p0 ==> self.bits_left < need + 8,
                    self.data@ == old(self).data@,
                    self.total_consumed == old(self).total_consumed,
                    self.pos > p0 ==> self.pos <= self.data@.len(),
                decreases self.data@.len() - self.pos,
            {
                let b = self.data[self.pos] as u64;
                let ghost k = self.bits_left as nat;
                proof {
                    lemma_stream_val_bound(self.data@, a, k);
                    lemma_append_byte(self.data@, a, k);
                    lemma_pow2_mono(k, 32);
                    lemma2_to64();
                    assert(byte_at(self.data@, (a + k) / 8) == self.data@[self.pos as int]);
                }
                let old_bits = self.bits;
                assert(old_bits < 0x1_0000_0000u64 && b < 256u64 ==> (old_bits << 8u64) | b
                    == old_bits * 256 + b) by (bit_vector);
                self.bits = (old_bits << 8) | b;
                self.bits_left = self.bits_left + 8;
                self.pos = self.pos + 1;
                proof {
                    lemma_pow2_adds(k, 8);
                    lemma2_to64();
                    lemma_mul_strict_inequality(old_bits as int, pow2(k) as int, 256);
                    assert(self.bits as nat == old_bits as nat * 256 + b as nat);
                    assert((old_bits as nat + 1) * 256 <= pow2(k) * 256) by (nonlinear_arith)
                        requires
                            old_bits as nat + 1 <= pow2(k),
                    ;
                }
            }
            proof {
                if self.pos > p0 {
                    assert(self.bits_left < need + 8);
                }
                if self.bits_left >= need {
                    assert(self.pos <= self.data@.len());
                } else {
                    assert(self.pos >= self.data@.len());
                }
                if self.bits_left < need {
                    // ran out of input
                    if self.pos > p0 {
                        assert(self.pos == self.data@.len());
                    } else {
                        assert(self.pos >= self.data@.len());
                    }
                }
                if b0l < need && p0 < self.data@.len() {
                    let want = (need - b0l + 7) / 8;
                    let got = self.pos - p0;
                    if self.bits_left >= need {
                        assert(got == want) by {
                            assert(b0l + 8 * got >= need);
                            assert(b0l + 8 * (got - 1) < need);
                        }
                        assert(got <= self.data@.len() - p0);
                    } else {
                        assert(self.pos == self.data@.len());
                        assert(got <= want) by {
                            assert(b0l + 8 * (got - 1) < need);
                        }
                    }
                }
            }
        } else {
            if self.bits_left <= 16 {
                let b0: u64 = if self.pos < self.data.len() {
                    self.data[self.pos] as u64
                } else {
                    0
                };
                let b1: u64 = if self.pos + 1 < self.data.len() {
                    self.data[self.pos + 1] as u64
                } else {
                    0
                };
                let ghost k = self.bits_left as nat;
                let old_bits = self.bits;
                proof {
                    lemma_stream_val_bound(self.data@, a, k);
                    lemma_append_two_bytes(self.data@, a, k);
                    lemma_pow2_mono(k, 16);
                    lemma2_to64();
                    assert(old_bits < 0x10000u64 || k == 16);
                    assert(old_bits < 0x10000u64);
                    assert(b0 == byte_at(self.data@, (a + k) / 8));
                    assert(b1 == byte_at(self.data@, (a + k) / 8 + 1));
                }
                assert(old_bits < 0x10000u64 && b0 < 256u64 && b1 < 256u64 ==> (old_bits << 16u64)
                    | (b0 << 8u64) | b1 == old_bits * 65536 + b0 * 256 + b1) by (bit_vector);
                self.bits = (old_bits << 16) | (b0 << 8) | b1;
                self.bits_left = self.bits_left + 16;
                self.pos = self.pos + 2;
                proof {
                    lemma_pow2_adds(k, 16);
                    assert(((old_bits as nat) + 1) * 65536 <= pow2(k) * 65536) by (nonlinear_arith)
                        requires
                            old_bits as nat + 1 <= pow2(k),
                    ;
                }
            }
            let ghost p1 = self.pos as int;
            let ghost b1l = self.bits_left as int;
            while self.bits_left < need
                invariant
                    self.wf(),
                    !self.lazy,
                    need <= 32,
                    self.pos * 8 - self.bits_left == a,
                    p1 <= self.pos,
                    self.bits_left == b1l + 8 * (self.pos - p1),
                    self.pos > p1 ==> self.bits_left < need + 8,
                    b1l >= 16,
                    p1 <= p0 + 2,
                    p0 + 4 <= usize::MAX,
                    self.data@ == old(self).data@,
                    self.total_consumed == old(self).total_consumed,
                decreases 40 - self.bits_left,
            {
                let b: u64 = if self.pos < self.data.len() {
                    self.data[self.pos] as u64
                } else {
                    0
                };
                let ghost k = self.bits_left as nat;
                proof {
                    lemma_stream_val_bound(self.data@, a, k);
                    lemma_append_byte(self.data@, a, k);
                    lemma_pow2_mono(k, 32);
                    lemma2_to64();
                    assert((a + k) / 8 == self.pos);
                    assert(byte_at(self.data@, (a + k) / 8) == b);
                }
                let old_bits = self.bits;
                assert(old_bits < 0x1_0000_0000u64 && b < 256u64 ==> (old_bits << 8u64) | b
                    == old_bits * 256 + b) by (bit_vector);
                self.bits = (old_bits << 8) | b;
                self.bits_left = self.bits_left + 8;
                self.pos = self.pos + 1;
                proof {
                    lemma_pow2_adds(k, 8);
                    lemma2_to64();
                    lemma_mul_strict_inequality(old_bits as int, pow2(k) as int, 256);
                    assert(self.bits as nat == old_bits as nat * 256 + b as nat);
                    assert((old_bits as nat + 1) * 256 <= pow2(k) * 256) by (nonlinear_arith)
                        requires
                            old_bits as nat + 1 <= pow2(k),
                    ;
                }
            }
            proof {
                let got = self.pos - p1;
                if b1l < need {
                    assert(got == (need - b1l + 7) / 8) by {
                        assert(b1l + 8 * got >= need);
                        assert(b1l + 8 * (got - 1) < need);
                    }
                } else {
                    assert(got == 0);
                }
            }
        }
    }
}

} // verus!
