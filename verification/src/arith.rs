//! Integer helpers shared by the whole crate: saturating arithmetic,
//! basis-point ratios and little-endian fields.

use vstd::prelude::*;

verus! {

/// What a `u64` computation that saturates gives for the exact result `x`.
pub open spec fn sat64(x: int) -> int {
    if x < 0 {
        0
    } else if x > u64::MAX {
        u64::MAX as int
    } else {
        x
    }
}

pub open spec fn min_int(a: int, b: int) -> int {
    if a <= b { a } else { b }
}

pub open spec fn max_int(a: int, b: int) -> int {
    if a >= b { a } else { b }
}

/// `a` divided by `b`, rounded up.
pub open spec fn ceil_div(a: int, b: int) -> int {
    (a + b - 1) / b
}

/// Multiplies, stopping at the greatest `u64`.
pub fn saturating_mul(a: u64, b: u64) -> (product: u64)
    ensures
        product == sat64(a * b),
{
    assert(0 <= a * b <= u64::MAX * u64::MAX) by (nonlinear_arith)
        requires
            0 <= a <= u64::MAX,
            0 <= b <= u64::MAX,
    ;
    let wide: u128 = a as u128 * b as u128;
    if wide > u64::MAX as u128 {
        u64::MAX
    } else {
        wide as u64
    }
}

/// Divides and rounds up.
pub fn div_ceil(a: u64, b: u64) -> (quotient: u64)
    requires
        b > 0,
    ensures
        quotient == ceil_div(a as int, b as int),
{
    let q: u64 = a / b;
    let r: u64 = a % b;
    proof {
        lemma_ceil_div(a as int, b as int);
        assert(r > 0 ==> b > 1);
        assert(r > 0 ==> q < u64::MAX) by {
            if r > 0 {
                assert(a / b <= a / 2) by (nonlinear_arith)
                    requires
                        b >= 2,
                        a >= 0,
                ;
            }
        }
    }
    if r > 0 {
        q + 1
    } else {
        q
    }
}

/// Rounding up adds one exactly when there is a remainder.
pub proof fn lemma_ceil_div(a: int, b: int)
    requires
        a >= 0,
        b > 0,
    ensures
        ceil_div(a, b) == a / b + (if a % b > 0 { 1int } else { 0 }),
        ceil_div(a, b) * b >= a,
        ceil_div(a, b) * b < a + b,
{
    let q = a / b;
    let r = a % b;
    vstd::arithmetic::div_mod::lemma_fundamental_div_mod(a, b);
    assert(a == b * q + r && 0 <= r < b);
    if r > 0 {
        assert((q + 1) * b == b * q + b) by (nonlinear_arith);
        vstd::arithmetic::div_mod::lemma_fundamental_div_mod_converse(a + b - 1, b, q + 1, r - 1);
    } else {
        assert(q * b == b * q) by (nonlinear_arith);
        vstd::arithmetic::div_mod::lemma_fundamental_div_mod_converse(a + b - 1, b, q, b - 1);
    }
}

/// The share of `denominator` that `numerator` makes up, in ten-thousandths,
/// cut off and never above the whole. Without a denominator there is none.
pub open spec fn basis_points(numerator: int, denominator: int) -> Option<u16> {
    if denominator == 0 {
        None
    } else {
        Some(min_int(numerator * 10_000 / denominator, 10_000) as u16)
    }
}

/// Computes a ratio in basis points.
pub fn ratio_basis_points(numerator: u64, denominator: u64) -> (points: Option<u16>)
    ensures
        points == basis_points(numerator as int, denominator as int),
{
    if denominator == 0 {
        return None;
    }
    let scaled: u128 = numerator as u128 * 10_000;
    let share: u128 = scaled / denominator as u128;
    proof {
        assert(scaled as int == numerator * 10_000);
        assert(share as int == scaled as int / denominator as int);
        assert(share >= 0);
    }
    if share > 10_000 {
        Some(10_000)
    } else {
        Some(share as u16)
    }
}

// ---------------------------------------------------------------------
// Little-endian fields
// ---------------------------------------------------------------------

/// The number that `bytes` writes with its least significant byte first.
pub open spec fn le_value(bytes: Seq<u8>) -> nat
    decreases bytes.len(),
{
    if bytes.len() == 0 {
        0
    } else {
        bytes[0] as nat + 256 * le_value(bytes.skip(1))
    }
}

/// `value` written least significant byte first in `width` bytes; higher
/// digits are dropped.
pub open spec fn le_bytes(value: nat, width: nat) -> Seq<u8>
    decreases width,
{
    if width == 0 {
        Seq::empty()
    } else {
        seq![(value % 256) as u8] + le_bytes(value / 256, (width - 1) as nat)
    }
}

pub proof fn lemma_le_bytes_len(value: nat, width: nat)
    ensures
        le_bytes(value, width).len() == width,
    decreases width,
{
    if width > 0 {
        lemma_le_bytes_len(value / 256, (width - 1) as nat);
    }
}

/// Two bytes read as a little-endian number.
pub proof fn lemma_le_value_2(bytes: Seq<u8>)
    requires
        bytes.len() == 2,
    ensures
        le_value(bytes) == bytes[0] + 256 * bytes[1],
{
    reveal_with_fuel(le_value, 3);
}

/// Four bytes read as a little-endian number.
pub proof fn lemma_le_value_4(bytes: Seq<u8>)
    requires
        bytes.len() == 4,
    ensures
        le_value(bytes) == bytes[0] + 256 * bytes[1] + 65536 * bytes[2] + 16777216 * bytes[3],
{
    reveal_with_fuel(le_value, 5);
}

/// What is written in enough bytes is read back.
pub proof fn lemma_le_round_trip(value: nat, width: nat)
    ensures
        le_bytes(value, width).len() == width,
        le_value(le_bytes(value, width)) == value % vstd::arithmetic::power::pow(256, width) as nat,
    decreases width,
{
    lemma_le_bytes_len(value, width);
    vstd::arithmetic::power::lemma_pow_positive(256, width);
    if width == 0 {
        vstd::arithmetic::power::lemma_pow0(256);
    } else {
        let rest = (width - 1) as nat;
        lemma_le_round_trip(value / 256, rest);
        let tail = le_bytes(value / 256, rest);
        assert(le_bytes(value, width).skip(1) =~= tail);
        vstd::arithmetic::power::lemma_pow_adds(256, 1, rest);
        vstd::arithmetic::power::lemma_pow1(256);
        vstd::arithmetic::power::lemma_pow_positive(256, rest);
        let p = vstd::arithmetic::power::pow(256, rest);
        assert(vstd::arithmetic::power::pow(256, width) == 256 * p);
        vstd::arithmetic::div_mod::lemma_mod_breakdown(value as int, 256, p);
    }
}

/// Reads a little-endian `u16` at an offset that lies inside `bytes`.
pub fn read_u16(bytes: &[u8], at: usize) -> (value: u16)
    requires
        at + 2 <= bytes@.len(),
    ensures
        value == le_value(bytes@.subrange(at as int, at + 2)),
{
    proof {
        lemma_le_value_2(bytes@.subrange(at as int, at + 2));
    }
    bytes[at] as u16 + 256 * bytes[at + 1] as u16
}

/// Reads a little-endian `u32` at an offset that lies inside `bytes`.
pub fn read_u32(bytes: &[u8], at: usize) -> (value: u32)
    requires
        at + 4 <= bytes@.len(),
    ensures
        value == le_value(bytes@.subrange(at as int, at + 4)),
{
    proof {
        lemma_le_value_4(bytes@.subrange(at as int, at + 4));
    }
    bytes[at] as u32 + 256 * bytes[at + 1] as u32 + 65536 * bytes[at + 2] as u32 + 16777216
        * bytes[at + 3] as u32
}

/// Reads a little-endian `u64` at an offset that lies inside `bytes`.
pub fn read_u64(bytes: &[u8], at: usize) -> (value: u64)
    requires
        at + 8 <= bytes@.len(),
    ensures
        value == le_value(bytes@.subrange(at as int, at + 8)),
{
    let len: usize = bytes.len();
    assert(at + 8 <= len);
    let low: u32 = read_u32(bytes, at);
    let high: u32 = read_u32(bytes, at + 4);
    proof {
        let whole = bytes@.subrange(at as int, at + 8);
        reveal_with_fuel(le_value, 5);
        lemma_le_value_4(bytes@.subrange(at as int, at + 4));
        assert(whole.skip(1).skip(1).skip(1).skip(1) =~= bytes@.subrange(at + 4, at + 8));
    }
    low as u64 + 4294967296 * high as u64
}

/// Appends the `width` low bytes of `value`, least significant first.
pub fn push_le(bytes: &mut Vec<u8>, value: u64, width: usize)
    requires
        width <= 8,
    ensures
        final(bytes)@ == old(bytes)@ + le_bytes(value as nat, width as nat),
{
    let mut left: usize = width;
    let mut rest: u64 = value;
    let ghost start = bytes@;
    while left > 0
        invariant
            left <= width,
            bytes@ + le_bytes(rest as nat, left as nat) == start + le_bytes(
                value as nat,
                width as nat,
            ),
        decreases left,
    {
        let ghost before = bytes@;
        let ghost tail = le_bytes(rest as nat / 256, (left - 1) as nat);
        let digit: u8 = (rest % 256) as u8;
        assert(before + (seq![digit] + tail) =~= before.push(digit) + tail);
        bytes.push(digit);
        rest = rest / 256;
        left = left - 1;
    }
    assert(bytes@ + le_bytes(rest as nat, 0) =~= bytes@);
}

/// Overwrites the bytes from `at` on with the `width` low bytes of `value`,
/// least significant first.
pub fn write_le(bytes: &mut Vec<u8>, at: usize, value: u64, width: usize)
    requires
        width <= 8,
        at + width <= old(bytes)@.len(),
    ensures
        final(bytes)@ == splice(old(bytes)@, at as int, le_bytes(value as nat, width as nat)),
{
    let len: usize = bytes.len();
    let mut done: usize = 0;
    let mut rest: u64 = value;
    let ghost start = bytes@;
    let ghost full = le_bytes(value as nat, width as nat);
    proof {
        lemma_le_bytes_len(value as nat, width as nat);
        assert(full.take(0) + le_bytes(rest as nat, width as nat) =~= full);
    }
    while done < width
        invariant
            done <= width,
            width <= 8,
            start.len() == bytes@.len(),
            len == start.len(),
            full.len() == width,
            at + width <= start.len(),
            full.skip(done as int) == le_bytes(rest as nat, (width - done) as nat),
            bytes@ == splice(start, at as int, full.take(done as int)),
        decreases width - done,
    {
        let ghost before = bytes@;
        let digit: u8 = (rest % 256) as u8;
        proof {
            let tail = le_bytes(rest as nat / 256, (width - done - 1) as nat);
            assert(full.skip(done as int) == seq![digit] + tail);
            assert(full[done as int] == full.skip(done as int)[0]);
            assert(full.skip(done as int + 1) =~= full.skip(done as int).skip(1));
            assert((seq![digit] + tail).skip(1) =~= tail);
        }
        bytes.set(at + done, digit);
        assert(bytes@ =~= splice(start, at as int, full.take(done + 1)));
        rest = rest / 256;
        done = done + 1;
    }
    assert(full.take(width as int) =~= full);
}

/// `base` with the bytes from `at` on replaced by `patch`.
pub open spec fn splice(base: Seq<u8>, at: int, patch: Seq<u8>) -> Seq<u8> {
    Seq::new(
        base.len(),
        |i: int|
            if at <= i < at + patch.len() {
                patch[i - at]
            } else {
                base[i]
            },
    )
}

} // verus!
