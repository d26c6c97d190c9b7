//! Number rendering for messages and the PDF writer: decimal and
//! lower-case hexadecimal digits, most significant first, without
//! leading zeros (zero renders as one `0`).

use vstd::prelude::*;

verus! {

/// The digits of `n` in base `base`, most significant first.
pub open spec fn digits(n: nat, base: nat) -> Seq<nat>
    decreases n,
{
    if base < 2 || n < base {
        seq![n]
    } else {
        proof {
            assert(n / base < n) by (nonlinear_arith)
                requires
                    n >= base,
                    base >= 2,
            ;
        }
        digits(n / base, base).push(n % base)
    }
}

/// The ASCII character of digit `d` (`0`-`9`, then `a`-`f`).
pub open spec fn digit_char(d: nat) -> char {
    if d < 10 {
        (48 + d) as char
    } else {
        (87 + d) as char
    }
}

/// The ASCII byte of digit `d` (`0`-`9`, then `a`-`f`).
pub open spec fn digit_byte(d: nat) -> u8 {
    if d < 10 {
        (48 + d) as u8
    } else {
        (87 + d) as u8
    }
}

/// `n` in decimal, as characters.
pub open spec fn dec_chars(n: nat) -> Seq<char> {
    digits(n, 10).map_values(|d: nat| digit_char(d))
}

/// `n` in lower-case hexadecimal, as characters.
pub open spec fn hex_chars(n: nat) -> Seq<char> {
    digits(n, 16).map_values(|d: nat| digit_char(d))
}

/// `n` in decimal, as ASCII bytes.
pub open spec fn dec_bytes(n: nat) -> Seq<u8> {
    digits(n, 10).map_values(|d: nat| digit_byte(d))
}

/// The digit values of `n` in base `base`, most significant first.
fn digit_values(n: u64, base: u64) -> (r: Vec<u8>)
    requires
        2 <= base <= 16,
    ensures
        r@.len() == digits(n as nat, base as nat).len(),
        forall|i: int| 0 <= i < r@.len() ==> r@[i] as nat == #[trigger] digits(n as nat, base as nat)[i],
        forall|i: int| 0 <= i < r@.len() ==> r@[i] < base,
{
    let mut rev: Vec<u8> = Vec::new();
    let mut m = n;
    while m >= base
        invariant
            2 <= base <= 16,
            digits(n as nat, base as nat) == digits(m as nat, base as nat) + rev@.map_values(
                |d: u8| d as nat,
            ).reverse(),
            forall|i: int| 0 <= i < rev@.len() ==> rev@[i] < base,
        decreases m,
    {
        let d = (m % base) as u8;
        let ghost old_rev = rev@;
        rev.push(d);
        proof {
            assert(rev@.map_values(|d: u8| d as nat).reverse() =~= seq![(m % base) as nat]
                + old_rev.map_values(|d: u8| d as nat).reverse());
            assert(digits(m as nat, base as nat) == digits((m / base) as nat, base as nat).push(
                (m % base) as nat,
            ));
            assert(digits((m / base) as nat, base as nat).push((m % base) as nat) + old_rev.map_values(
                |d: u8| d as nat,
            ).reverse() =~= digits((m / base) as nat, base as nat) + (seq![(m % base) as nat]
                + old_rev.map_values(|d: u8| d as nat).reverse()));
        }
        m = m / base;
    }
    rev.push(m as u8);
    proof {
        assert(digits(m as nat, base as nat) == seq![m as nat]);
    }
    let mut out: Vec<u8> = Vec::new();
    let mut k: usize = rev.len();
    while k > 0
        invariant
            k <= rev@.len(),
            out@.len() == rev@.len() - k,
            forall|i: int| 0 <= i < out@.len() ==> out@[i] == rev@[rev@.len() - 1 - i],
            forall|i: int| 0 <= i < rev@.len() ==> rev@[i] < base,
        decreases k,
    {
        k -= 1;
        out.push(rev[k]);
    }
    proof {
        let full = digits(n as nat, base as nat);
        assert(full =~= rev@.map_values(|d: u8| d as nat).reverse());
    }
    out
}

/// The one-character string of digit `d`.
fn digit_str(d: u8) -> (r: &'static str)
    requires
        d < 16,
    ensures
        r@ == seq![digit_char(d as nat)],
{
    match d {
        0 => { proof { reveal_strlit("0"); } "0" },
        1 => { proof { reveal_strlit("1"); } "1" },
        2 => { proof { reveal_strlit("2"); } "2" },
        3 => { proof { reveal_strlit("3"); } "3" },
        4 => { proof { reveal_strlit("4"); } "4" },
        5 => { proof { reveal_strlit("5"); } "5" },
        6 => { proof { reveal_strlit("6"); } "6" },
        7 => { proof { reveal_strlit("7"); } "7" },
        8 => { proof { reveal_strlit("8"); } "8" },
        9 => { proof { reveal_strlit("9"); } "9" },
        10 => { proof { reveal_strlit("a"); } "a" },
        11 => { proof { reveal_strlit("b"); } "b" },
        12 => { proof { reveal_strlit("c"); } "c" },
        13 => { proof { reveal_strlit("d"); } "d" },
        14 => { proof { reveal_strlit("e"); } "e" },
        _ => { proof { reveal_strlit("f"); } "f" },
    }
}

/// Append the digits of `n` in base `base` to `s`.
fn push_digits_str(s: &mut String, n: u64, base: u64)
    requires
        2 <= base <= 16,
    ensures
        final(s)@ == old(s)@ + digits(n as nat, base as nat).map_values(|d: nat| digit_char(d)),
{
    let ds = digit_values(n, base);
    let ghost full = digits(n as nat, base as nat);
    let ghost s0 = s@;
    let mut i: usize = 0;
    while i < ds.len()
        invariant
            2 <= base <= 16,
            ds@.len() == full.len(),
            forall|k: int| 0 <= k < ds@.len() ==> ds@[k] as nat == #[trigger] full[k],
            forall|k: int| 0 <= k < ds@.len() ==> ds@[k] < base,
            i <= ds@.len(),
            s@ == s0 + full.take(i as int).map_values(|d: nat| digit_char(d)),
        decreases ds@.len() - i,
    {
        let d = ds[i];
        s.append(digit_str(d));
        proof {
            assert(full.take(i + 1) =~= full.take(i as int).push(d as nat));
            assert(full.take(i + 1).map_values(|d: nat| digit_char(d)) =~= full.take(
                i as int,
            ).map_values(|d: nat| digit_char(d)).push(digit_char(d as nat)));
        }
        i += 1;
    }
    proof {
        assert(full.take(i as int) =~= full);
    }
}

/// Append `n` in decimal to `s`.
pub fn push_decimal(s: &mut String, n: u64)
    ensures
        final(s)@ == old(s)@ + dec_chars(n as nat),
{
    push_digits_str(s, n, 10);
}

/// Append `n` in lower-case hexadecimal to `s`.
pub fn push_hex(s: &mut String, n: u64)
    ensures
        final(s)@ == old(s)@ + hex_chars(n as nat),
{
    push_digits_str(s, n, 16);
}

/// Append `n` in decimal, as ASCII bytes, to `buf`.
pub fn push_decimal_bytes(buf: &mut Vec<u8>, n: u64)
    ensures
        final(buf)@ == old(buf)@ + dec_bytes(n as nat),
{
    let ds = digit_values(n, 10);
    let ghost full = digits(n as nat, 10);
    let ghost b0 = buf@;
    let mut i: usize = 0;
    while i < ds.len()
        invariant
            ds@.len() == full.len(),
            forall|k: int| 0 <= k < ds@.len() ==> ds@[k] as nat == #[trigger] full[k],
            forall|k: int| 0 <= k < ds@.len() ==> ds@[k] < 10,
            i <= ds@.len(),
            buf@ == b0 + full.take(i as int).map_values(|d: nat| digit_byte(d)),
        decreases ds@.len() - i,
    {
        let d = ds[i];
        buf.push(48u8 + d);
        proof {
            assert(full.take(i + 1) =~= full.take(i as int).push(d as nat));
            assert(full.take(i + 1).map_values(|d: nat| digit_byte(d)) =~= full.take(
                i as int,
            ).map_values(|d: nat| digit_byte(d)).push(digit_byte(d as nat)));
        }
        i += 1;
    }
    proof {
        assert(full.take(i as int) =~= full);
    }
}

} // verus!
