//! Integers written out as text: decimal, hexadecimal, zero padding,
//! human-readable byte sizes and durations.

use vstd::prelude::*;
use crate::text::push_char;

verus! {

// ---------------------------------------------------------------------------
// Digits
// ---------------------------------------------------------------------------

/// The digit for `d < 16`; letters are upper or lower case.
pub open spec fn digit_char(d: nat, upper: bool) -> char {
    if d < 10 {
        (48 + d) as char
    } else if upper {
        (55 + d) as char
    } else {
        (87 + d) as char
    }
}

/// `n` in decimal, as `format!("{}", n)` writes it.
pub open spec fn dec_digits(n: nat) -> Seq<char>
    decreases n,
{
    if n < 10 {
        seq![digit_char(n, false)]
    } else {
        dec_digits(n / 10).push(digit_char(n % 10, false))
    }
}

/// `n` in hexadecimal, as `{:x}` (or `{:X}` when `upper`) writes it.
pub open spec fn hex_digits(n: nat, upper: bool) -> Seq<char>
    decreases n,
{
    if n < 16 {
        seq![digit_char(n, upper)]
    } else {
        hex_digits(n / 16, upper).push(digit_char(n % 16, upper))
    }
}

/// `s` padded on the left with `'0'` up to `width` chars (`{:0width}`).
pub open spec fn zero_pad(s: Seq<char>, width: nat) -> Seq<char> {
    if s.len() < width {
        Seq::new((width - s.len()) as nat, |i: int| '0') + s
    } else {
        s
    }
}

/// The char for the digit `d < 16`.
pub fn digit_exec(d: u64, upper: bool) -> (c: char)
    requires
        d < 16,
    ensures
        c == digit_char(d as nat, upper),
{
    let b: u8 = d as u8;
    if d < 10 {
        (48u8 + b) as char
    } else if upper {
        (55u8 + b) as char
    } else {
        (87u8 + b) as char
    }
}

/// Appends `n` in decimal.
pub fn push_dec(s: &mut String, n: u64)
    ensures
        final(s)@ == old(s)@ + dec_digits(n as nat),
    decreases n,
{
    if n >= 10 {
        push_dec(s, n / 10);
    }
    push_char(s, digit_exec(n % 10, false));
    proof {
        if n >= 10 {
            assert(old(s)@ + dec_digits(n as nat / 10) + seq![digit_char(n as nat % 10, false)]
                =~= old(s)@ + dec_digits(n as nat));
        } else {
            assert(old(s)@.push(digit_char(n as nat, false)) =~= old(s)@ + dec_digits(n as nat));
        }
    }
}

/// Appends `n` in hexadecimal.
pub fn push_hex(s: &mut String, n: u64, upper: bool)
    ensures
        final(s)@ == old(s)@ + hex_digits(n as nat, upper),
    decreases n,
{
    if n >= 16 {
        push_hex(s, n / 16, upper);
    }
    push_char(s, digit_exec(n % 16, upper));
    proof {
        if n >= 16 {
            assert(old(s)@ + hex_digits(n as nat / 16, upper) + seq![
                digit_char(n as nat % 16, upper),
            ] =~= old(s)@ + hex_digits(n as nat, upper));
        } else {
            assert(old(s)@.push(digit_char(n as nat, upper)) =~= old(s)@ + hex_digits(
                n as nat,
                upper,
            ));
        }
    }
}

/// Appends `count` zeros.
pub fn push_zeros(s: &mut String, count: usize)
    ensures
        final(s)@ == old(s)@ + Seq::new(count as nat, |i: int| '0'),
{
    let mut k: usize = 0;
    while k < count
        invariant
            k <= count,
            s@ == old(s)@ + Seq::new(k as nat, |i: int| '0'),
        decreases count - k,
    {
        push_char(s, '0');
        assert(old(s)@ + Seq::new((k + 1) as nat, |i: int| '0') =~= (old(s)@ + Seq::new(
            k as nat,
            |i: int| '0',
        )).push('0'));
        k += 1;
    }
}

/// `b` to the power `k`.
pub open spec fn pow(b: nat, k: nat) -> nat
    decreases k,
{
    if k == 0 {
        1
    } else {
        b * pow(b, (k - 1) as nat)
    }
}

/// A number below `10^k` has at most `k` decimal digits.
proof fn lemma_dec_digits_len(n: nat, k: nat)
    requires
        k >= 1,
        n < pow(10, k),
    ensures
        dec_digits(n).len() <= k,
    decreases k,
{
    if n >= 10 {
        let p = pow(10, (k - 1) as nat);
        assert(k >= 2) by {
            if k == 1 {
                assert(pow(10, 0) == 1);
            }
        }
        assert(n / 10 < p) by (nonlinear_arith)
            requires
                n < 10 * p,
        ;
        lemma_dec_digits_len(n / 10, (k - 1) as nat);
    }
}

/// A number below `16^k` has at most `k` hexadecimal digits.
proof fn lemma_hex_digits_len(n: nat, k: nat, upper: bool)
    requires
        k >= 1,
        n < pow(16, k),
    ensures
        hex_digits(n, upper).len() <= k,
    decreases k,
{
    if n >= 16 {
        let p = pow(16, (k - 1) as nat);
        assert(k >= 2) by {
            if k == 1 {
                assert(pow(16, 0) == 1);
            }
        }
        assert(n / 16 < p) by (nonlinear_arith)
            requires
                n < 16 * p,
        ;
        lemma_hex_digits_len(n / 16, (k - 1) as nat, upper);
    }
}

/// Number of decimal digits of `n`.
pub fn dec_len(n: u64) -> (l: usize)
    ensures
        l == dec_digits(n as nat).len(),
    decreases n,
{
    proof {
        reveal_with_fuel(pow, 20);
        assert(pow(10, 19) == 10_000_000_000_000_000_000);
        lemma_dec_digits_len(n as nat / 10, 19);
    }
    if n >= 10 {
        dec_len(n / 10) + 1
    } else {
        1
    }
}

/// Number of hexadecimal digits of `n`.
pub fn hex_len(n: u64, upper: bool) -> (l: usize)
    ensures
        l == hex_digits(n as nat, upper).len(),
    decreases n,
{
    proof {
        reveal_with_fuel(pow, 16);
        assert(pow(16, 15) == 0x1000_0000_0000_0000);
        lemma_hex_digits_len(n as nat / 16, 15, upper);
    }
    if n >= 16 {
        hex_len(n / 16, upper) + 1
    } else {
        1
    }
}

/// Appends `n` in decimal, zero-padded to `width` (`{:0width$}`).
pub fn push_dec_padded(s: &mut String, n: u64, width: usize)
    ensures
        final(s)@ == old(s)@ + zero_pad(dec_digits(n as nat), width as nat),
{
    let l = dec_len(n);
    if l < width {
        push_zeros(s, width - l);
    }
    push_dec(s, n);
    assert(s@ =~= old(s)@ + zero_pad(dec_digits(n as nat), width as nat)) by {
        if l < width {
            assert(old(s)@ + Seq::new((width - l) as nat, |i: int| '0') + dec_digits(n as nat)
                =~= old(s)@ + zero_pad(dec_digits(n as nat), width as nat));
        }
    }
}

/// Appends `n` in hexadecimal, zero-padded to `width` (`{:0width$x}` or `{:0width$X}`).
pub fn push_hex_padded(s: &mut String, n: u64, width: usize, upper: bool)
    ensures
        final(s)@ == old(s)@ + zero_pad(hex_digits(n as nat, upper), width as nat),
{
    let l = hex_len(n, upper);
    if l < width {
        push_zeros(s, width - l);
    }
    push_hex(s, n, upper);
    assert(s@ =~= old(s)@ + zero_pad(hex_digits(n as nat, upper), width as nat)) by {
        if l < width {
            assert(old(s)@ + Seq::new((width - l) as nat, |i: int| '0') + hex_digits(
                n as nat,
                upper,
            ) =~= old(s)@ + zero_pad(hex_digits(n as nat, upper), width as nat));
        }
    }
}


// ---------------------------------------------------------------------------
// Sizes and durations
// ---------------------------------------------------------------------------

/// The spacing of the `f64` values around `b` (for `b < 2^64`): 1 below
/// 2^53, doubling with each further power of two.
pub open spec fn f64_spacing(b: nat) -> nat {
    if b < 0x20_0000_0000_0000 {
        1
    } else if b < 0x40_0000_0000_0000 {
        2
    } else if b < 0x80_0000_0000_0000 {
        4
    } else if b < 0x100_0000_0000_0000 {
        8
    } else if b < 0x200_0000_0000_0000 {
        16
    } else if b < 0x400_0000_0000_0000 {
        32
    } else if b < 0x800_0000_0000_0000 {
        64
    } else if b < 0x1000_0000_0000_0000 {
        128
    } else if b < 0x2000_0000_0000_0000 {
        256
    } else if b < 0x4000_0000_0000_0000 {
        512
    } else if b < 0x8000_0000_0000_0000 {
        1024
    } else {
        2048
    }
}

/// `n / d` rounded to the nearest integer, ties to even.
pub open spec fn div_round_even(n: nat, d: nat) -> nat {
    let q = n / d;
    let r = n % d;
    if 2 * r > d || (2 * r == d && q % 2 == 1) {
        q + 1
    } else {
        q
    }
}

/// The value of `b as f64`: `b` rounded to the nearest multiple of the
/// spacing of `f64` values there, ties to even.
pub open spec fn f64_value(b: nat) -> nat {
    div_round_even(b, f64_spacing(b)) * f64_spacing(b)
}

/// How many times 1024 divides into a size before it drops below 1024 (at most 4).
pub open spec fn size_unit(v: nat) -> nat {
    if v < 1024 {
        0
    } else if v < 1048576 {
        1
    } else if v < 1073741824 {
        2
    } else if v < 1099511627776 {
        3
    } else {
        4
    }
}

pub open spec fn unit_divisor(u: nat) -> nat {
    if u == 0 {
        1
    } else if u == 1 {
        1024
    } else if u == 2 {
        1048576
    } else if u == 3 {
        1073741824
    } else {
        1099511627776
    }
}

pub open spec fn unit_name(u: nat) -> Seq<char> {
    if u == 0 {
        "B"@
    } else if u == 1 {
        "KB"@
    } else if u == 2 {
        "MB"@
    } else if u == 3 {
        "GB"@
    } else {
        "TB"@
    }
}

/// A byte count for people: `{:.1} {unit}` of the size in B, KB, MB, GB or
/// TB, the largest unit that leaves at least 1 (TB at most).
pub open spec fn size_text(bytes: nat) -> Seq<char> {
    let v = f64_value(bytes);
    let u = size_unit(v);
    let tenths = div_round_even(v * 10, unit_divisor(u));
    dec_digits(tenths / 10) + seq!['.', digit_char(tenths % 10, false), ' '] + unit_name(u)
}

proof fn lemma_div_round_even_bound(n: nat, d: nat)
    requires
        d > 0,
    ensures
        div_round_even(n, d) * d <= n + d,
        div_round_even(n, d) <= n / d + 1,
{
    let q = n / d;
    let r = n % d;
    assert(n == d * q + r && 0 <= r < d) by (nonlinear_arith)
        requires
            d > 0,
            q == n / d,
            r == n % d,
    ;
    assert((q + 1) * d == q * d + d) by (nonlinear_arith);
    assert(q * d == d * q) by (nonlinear_arith);
}

/// The spacing of `f64` values around `b`.
fn f64_spacing_exec(bytes: u64) -> (step: u128)
    ensures
        step == f64_spacing(bytes as nat),
{
    let b: u128 = bytes as u128;
    if b < 0x20_0000_0000_0000 {
        1
    } else if b < 0x40_0000_0000_0000 {
        2
    } else if b < 0x80_0000_0000_0000 {
        4
    } else if b < 0x100_0000_0000_0000 {
        8
    } else if b < 0x200_0000_0000_0000 {
        16
    } else if b < 0x400_0000_0000_0000 {
        32
    } else if b < 0x800_0000_0000_0000 {
        64
    } else if b < 0x1000_0000_0000_0000 {
        128
    } else if b < 0x2000_0000_0000_0000 {
        256
    } else if b < 0x4000_0000_0000_0000 {
        512
    } else if b < 0x8000_0000_0000_0000 {
        1024
    } else {
        2048
    }
}

/// `n / d` rounded to the nearest integer, ties to even.
fn div_round_even_exec(n: u128, d: u128) -> (k: u128)
    requires
        d > 0,
        n + d <= u128::MAX,
    ensures
        k == div_round_even(n as nat, d as nat),
        k * d <= n + d,
        k <= n / d + 1,
{
    let q = n / d;
    let rem = n % d;
    proof {
        lemma_div_round_even_bound(n as nat, d as nat);
    }
    assert(q < u128::MAX) by (nonlinear_arith)
        requires
            q == n / d,
            d > 0,
            n + d <= u128::MAX,
    ;
    assert(rem < d) by (nonlinear_arith)
        requires
            rem == n % d,
            d > 0,
    ;
    if rem > d - rem || (rem == d - rem && q % 2 == 1) {
        q + 1
    } else {
        q
    }
}

/// The value of `bytes as f64`.
fn f64_value_exec(bytes: u64) -> (v: u128)
    ensures
        v == f64_value(bytes as nat),
        v <= 0x1_0000_0000_0000_0800,
{
    let step = f64_spacing_exec(bytes);
    let k = div_round_even_exec(bytes as u128, step);
    k * step
}

/// Formats a byte count as `format!("{:.1} {}", bytes as f64 / 1024^u, unit)`.
pub fn format_size(bytes: u64) -> (r: String)
    ensures
        r@ == size_text(bytes as nat),
{
    let v = f64_value_exec(bytes);
    let (d, u): (u128, usize) = if v < 1024 {
        (1, 0)
    } else if v < 1048576 {
        (1024, 1)
    } else if v < 1073741824 {
        (1048576, 2)
    } else if v < 1099511627776 {
        (1073741824, 3)
    } else {
        (1099511627776, 4)
    };
    assert(u == size_unit(v as nat) && d == unit_divisor(u as nat));
    let tenths = div_round_even_exec(v * 10, d);
    assert(tenths <= 200_000_000) by (nonlinear_arith)
        requires
            tenths <= (v as int * 10) / (d as int) + 1,
            d >= 1,
            d == 1 ==> v < 1024,
            d == 1024 ==> v < 1048576,
            d == 1048576 ==> v < 1073741824,
            d == 1073741824 ==> v < 1099511627776,
            d == 1 || d == 1024 || d == 1048576 || d == 1073741824 || d == 1099511627776,
            v <= 0x1_0000_0000_0000_0800,
    ;
    let whole: u64 = (tenths / 10) as u64;
    let frac: u64 = (tenths % 10) as u64;
    let mut r = String::new();
    push_dec(&mut r, whole);
    push_char(&mut r, '.');
    push_char(&mut r, digit_exec(frac, false));
    push_char(&mut r, ' ');
    let name = if u == 0 {
        "B"
    } else if u == 1 {
        "KB"
    } else if u == 2 {
        "MB"
    } else if u == 3 {
        "GB"
    } else {
        "TB"
    };
    crate::text::push_str(&mut r, name);
    assert(r@ =~= size_text(bytes as nat));
    r
}

/// A duration in whole seconds for people: `42s`, `3m 7s` or `2h 15m`.
pub open spec fn eta_text(secs: nat) -> Seq<char> {
    if secs < 60 {
        dec_digits(secs) + seq!['s']
    } else if secs < 3600 {
        dec_digits(secs / 60) + seq!['m', ' '] + dec_digits(secs % 60) + seq!['s']
    } else {
        dec_digits(secs / 3600) + seq!['h', ' '] + dec_digits((secs % 3600) / 60) + seq!['m']
    }
}

/// Formats a remaining time given in whole seconds.
pub fn format_eta(secs: u64) -> (r: String)
    ensures
        r@ == eta_text(secs as nat),
{
    let mut r = String::new();
    if secs < 60 {
        push_dec(&mut r, secs);
        push_char(&mut r, 's');
    } else if secs < 3600 {
        push_dec(&mut r, secs / 60);
        push_char(&mut r, 'm');
        push_char(&mut r, ' ');
        push_dec(&mut r, secs % 60);
        push_char(&mut r, 's');
    } else {
        push_dec(&mut r, secs / 3600);
        push_char(&mut r, 'h');
        push_char(&mut r, ' ');
        push_dec(&mut r, (secs % 3600) / 60);
        push_char(&mut r, 'm');
    }
    assert(r@ =~= eta_text(secs as nat));
    r
}

} // verus!
