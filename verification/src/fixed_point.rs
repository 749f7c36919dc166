//! Fixed-point numbers, held as the two's-complement integer that counts units
//! in the last place.
//!
//! A quaternion component has 30 fractional bits, so the integer `v` stands for
//! `v / 2^30`. The three packed layouts keep 20, 15 or 12 fractional bits. Sums,
//! differences and comparisons of two numbers of one precision are those of their
//! integers. Whatever rescales a number (a product, a change of precision, a square
//! root) is computed by the `fixed` and `fixed-sqrt` crates.

use vstd::prelude::*;
use vstd::arithmetic::div_mod::*;
use vstd::arithmetic::mul::*;
use vstd::arithmetic::power2::*;

verus! {

/// Fractional bits of the most precise packed layout.
pub const FP20: u32 = 20;

/// Fractional bits of the layout that stores the first and last sample in full.
pub const FP15: u32 = 15;

/// Fractional bits of the layout that stores each sample on its own.
pub const FP12: u32 = 12;

/// The number one with 30 fractional bits.
pub const ONE: i32 = 0x4000_0000;

/// One half with 30 fractional bits.
pub const HALF: i32 = 0x2000_0000;

/// Largest magnitude of a component that can still be rounded to every packed
/// precision without leaving the 32-bit range.
pub const MAX_MAGNITUDE: i32 = 0x7ffd_ffff;

/// Largest magnitude whose square still has a 32-bit representation with 30
/// fractional bits.
pub const MAX_SQUARABLE: i32 = 1518500249;

/// -1, 0 or 1 as `v` is negative, zero or positive.
pub open spec fn sign(v: int) -> int {
    if v > 0 {
        1
    } else if v < 0 {
        -1
    } else {
        0
    }
}

/// The absolute value.
pub open spec fn magnitude(v: int) -> int {
    if v < 0 {
        -v
    } else {
        v
    }
}

/// `v` times the sign of `of`: `v`, its negative or zero.
pub open spec fn with_sign_of(v: int, of: int) -> int {
    if of > 0 {
        v
    } else if of < 0 {
        -v
    } else {
        0
    }
}

/// The packed precisions.
pub open spec fn is_precision(frac: u32) -> bool {
    frac == FP12 || frac == FP15 || frac == FP20
}

/// How many units at 30 fractional bits make one unit at `frac` fractional bits.
pub open spec fn scale(frac: u32) -> int {
    pow2((30 - frac) as nat) as int
}

/// `c`, a number with 30 fractional bits, at `frac` fractional bits: the nearest
/// number of the coarser precision, and of two that are equally near the one
/// further from zero. Half a unit of the coarser precision is added to the
/// magnitude, the surplus bits of the magnitude are dropped, and the sign is put
/// back.
pub open spec fn round_to(c: int, frac: u32) -> int {
    with_sign_of((magnitude(c) + scale(frac) / 2) / scale(frac), c)
}

/// Whether `c` can be rounded to `frac` fractional bits within 32 bits: its
/// magnitude and half a unit more is a 32-bit number.
pub open spec fn roundable(c: int, frac: u32) -> bool {
    magnitude(c) + scale(frac) / 2 <= i32::MAX
}

/// `v`, a number with `frac` fractional bits, at 30 fractional bits.
pub open spec fn widen_to(v: int, frac: u32) -> int {
    v * scale(frac)
}

/// The product of two numbers with 30 fractional bits, rounded towards minus
/// infinity.
pub open spec fn product(a: int, b: int) -> int {
    (a * b) / (ONE as int)
}

/// Half of `s` in units in the last place, and of the two numbers that are
/// equally near the one further from zero.
pub open spec fn half_away(s: int) -> int {
    with_sign_of((magnitude(s) + 1) / 2, s)
}

/// Half of `a + b` in units in the last place, rounded away from zero where the
/// sum is odd.
pub open spec fn average(a: int, b: int) -> int {
    half_away(a + b)
}

/// Whether `v` is a two's-complement number of `bits` bits.
pub open spec fn fits(v: int, bits: nat) -> bool {
    -(pow2((bits - 1) as nat) as int) <= v < pow2((bits - 1) as nat) as int
}

/// Whether `r` is the largest integer whose square is at most `n`.
pub open spec fn is_integer_root(n: int, r: int) -> bool {
    0 <= r && r * r <= n < (r + 1) * (r + 1)
}

/// The largest integer whose square is at most `n`, for `n` that is not negative.
pub open spec fn integer_root(n: int) -> int {
    choose|r: int| is_integer_root(n, r)
}

/// The square root of a number with 30 fractional bits as `fixed-sqrt` finds it:
/// the integer root of the raw value, moved up by half the fractional bits. Its
/// low 15 bits are zero.
pub open spec fn root(x: int) -> int {
    32768 * integer_root(x)
}

/// At most one integer is the integer root of `n`.
pub proof fn lemma_integer_root_unique(n: int, r: int, s: int)
    requires
        is_integer_root(n, r),
        is_integer_root(n, s),
    ensures
        r == s,
{
    if r < s {
        assert((r + 1) * (r + 1) <= s * s) by (nonlinear_arith)
            requires
                0 <= r,
                r + 1 <= s,
        ;
    } else if s < r {
        assert((s + 1) * (s + 1) <= r * r) by (nonlinear_arith)
            requires
                0 <= s,
                s + 1 <= r,
        ;
    }
}

/// An integer that meets `is_integer_root` is the integer root.
pub proof fn lemma_integer_root_is(n: int, r: int)
    requires
        is_integer_root(n, r),
    ensures
        integer_root(n) == r,
{
    lemma_integer_root_unique(n, r, integer_root(n));
}

/// Every number that is not negative has an integer root.
pub proof fn lemma_integer_root_exists(n: int)
    requires
        0 <= n,
    ensures
        is_integer_root(n, integer_root(n)),
    decreases n,
{
    if n == 0 {
        assert(is_integer_root(0, 0));
    } else {
        lemma_integer_root_exists(n - 1);
        let r: int = integer_root(n - 1);
        if (r + 1) * (r + 1) <= n {
            assert((r + 2) * (r + 2) > n) by (nonlinear_arith)
                requires
                    (r + 1) * (r + 1) > n - 1,
                    0 <= r,
            ;
            assert(is_integer_root(n, r + 1));
        } else {
            assert(is_integer_root(n, r));
        }
    }
}

/// The root of a number that is not negative, squared, is at most the number
/// at 60 fractional bits, and one step of the root further it is more.
pub proof fn lemma_root_bounds(n: int)
    requires
        0 <= n,
    ensures
        0 <= root(n),
        root(n) * root(n) <= ONE * n,
        ONE * n < (root(n) + 32768) * (root(n) + 32768),
{
    lemma_integer_root_exists(n);
    let s: int = integer_root(n);
    let d: int = root(n);
    assert(d * d == ONE * (s * s)) by (nonlinear_arith)
        requires
            d == 32768 * s,
            ONE == 32768 * 32768,
    ;
    assert((d + 32768) * (d + 32768) == ONE * ((s + 1) * (s + 1))) by (nonlinear_arith)
        requires
            d == 32768 * s,
            ONE == 32768 * 32768,
    ;
    assert(ONE * (s * s) <= ONE * n) by (nonlinear_arith)
        requires
            s * s <= n,
            ONE > 0,
    ;
    assert(ONE * n < ONE * ((s + 1) * (s + 1))) by (nonlinear_arith)
        requires
            n < (s + 1) * (s + 1),
            ONE > 0,
    ;
}

/// The rounded square of a number lies less than one unit below the square.
pub proof fn lemma_square_floor(c: int)
    ensures
        0 <= product(c, c),
        ONE * product(c, c) <= c * c < ONE * product(c, c) + ONE,
{
    assert(c * c >= 0) by (nonlinear_arith);
    lemma_fundamental_div_mod(c * c, ONE as int);
    lemma_mod_bound(c * c, ONE as int);
}

/// The scales of the three packed precisions.
pub proof fn lemma_scale_values()
    ensures
        scale(FP12) == 0x4_0000,
        scale(FP15) == 0x8000,
        scale(FP20) == 0x400,
{
    lemma2_to64();
}

/// `fixed`'s `Mul` on two `I2F30` values. The crate widens both factors to 64
/// bits, multiplies and drops the low 30 bits of the product; it reports an
/// overflow exactly when the result has no 32-bit representation.
#[verifier::external_body]
pub(crate) fn fixed_mul(a: i32, b: i32) -> (r: i32)
    requires
        i32::MIN <= product(a as int, b as int) <= i32::MAX,
    ensures
        r == product(a as int, b as int),
{
    (fixed::types::I2F30::from_bits(a) * fixed::types::I2F30::from_bits(b)).to_bits()
}

/// `fixed`'s `to_num` from `I2F30` to `I12F20`: the ten surplus fractional bits
/// are discarded, which rounds towards minus infinity. Every value fits.
#[verifier::external_body]
pub(crate) fn fixed_to_fp20(x: i32) -> (r: i32)
    ensures
        r == x as int / 0x400,
{
    fixed::types::I2F30::from_bits(x).to_num::<fixed::types::I12F20>().to_bits()
}

/// `fixed`'s `to_num` from `I2F30` to `I17F15`: the fifteen surplus fractional
/// bits are discarded, which rounds towards minus infinity. Every value fits.
#[verifier::external_body]
pub(crate) fn fixed_to_fp15(x: i32) -> (r: i32)
    ensures
        r == x as int / 0x8000,
{
    fixed::types::I2F30::from_bits(x).to_num::<fixed::types::I17F15>().to_bits()
}

/// `fixed`'s `to_num` from `I2F30` to `I20F12`: the eighteen surplus fractional
/// bits are discarded, which rounds towards minus infinity. Every value fits.
#[verifier::external_body]
pub(crate) fn fixed_to_fp12(x: i32) -> (r: i32)
    ensures
        r == x as int / 0x4_0000,
{
    fixed::types::I2F30::from_bits(x).to_num::<fixed::types::I20F12>().to_bits()
}

/// `fixed`'s `to_num` from `I12F20` to `I2F30`: exact where the value is in the
/// range of `I2F30`, which the caller has to show.
#[verifier::external_body]
pub(crate) fn fixed_from_fp20(x: i32) -> (r: i32)
    requires
        i32::MIN <= x * 0x400 <= i32::MAX,
    ensures
        r == x * 0x400,
{
    fixed::types::I12F20::from_bits(x).to_num::<fixed::types::I2F30>().to_bits()
}

/// `fixed`'s `to_num` from `I17F15` to `I2F30`: exact where the value is in the
/// range of `I2F30`, which the caller has to show.
#[verifier::external_body]
pub(crate) fn fixed_from_fp15(x: i32) -> (r: i32)
    requires
        i32::MIN <= x * 0x8000 <= i32::MAX,
    ensures
        r == x * 0x8000,
{
    fixed::types::I17F15::from_bits(x).to_num::<fixed::types::I2F30>().to_bits()
}

/// `fixed`'s `to_num` from `I20F12` to `I2F30`: exact where the value is in the
/// range of `I2F30`, which the caller has to show.
#[verifier::external_body]
pub(crate) fn fixed_from_fp12(x: i32) -> (r: i32)
    requires
        i32::MIN <= x * 0x4_0000 <= i32::MAX,
    ensures
        r == x * 0x4_0000,
{
    fixed::types::I20F12::from_bits(x).to_num::<fixed::types::I2F30>().to_bits()
}

/// `fixed-sqrt`'s `FixedSqrt::sqrt` on an `I2F30` value that is not negative. The
/// crate takes the integer square root of the raw value with `integer-sqrt` and
/// shifts it left by 15 bits.
#[verifier::external_body]
pub(crate) fn fixed_sqrt(x: i32) -> (r: i32)
    requires
        x >= 0,
    ensures
        r >= 0,
        r % 32768 == 0,
        is_integer_root(x as int, r as int / 32768),
{
    fixed_sqrt::FixedSqrt::sqrt(fixed::types::I2F30::from_bits(x)).to_bits()
}

/// The sign of `v` in units in the last place.
pub fn signum(v: i32) -> (r: i32)
    ensures
        r == sign(v as int),
{
    if v > 0 {
        1
    } else if v < 0 {
        -1
    } else {
        0
    }
}

/// The absolute value of `v`.
pub fn abs(v: i32) -> (r: i32)
    requires
        v > i32::MIN,
    ensures
        r == magnitude(v as int),
{
    if v < 0 {
        -v
    } else {
        v
    }
}

/// `v` times the sign of `of`.
pub fn flip(v: i32, of: i32) -> (r: i32)
    requires
        v > i32::MIN,
    ensures
        r == with_sign_of(v as int, of as int),
{
    if of > 0 {
        v
    } else if of < 0 {
        -v
    } else {
        0
    }
}

/// Half a unit of the precision `FRAC`, in units at 30 fractional bits.
pub fn half_unit<const FRAC: u32>() -> (r: i32)
    requires
        is_precision(FRAC),
    ensures
        r == scale(FRAC) / 2,
        r > 0,
{
    proof {
        lemma_scale_values();
        assert(0x4000_0000i32 >> 13u32 == 0x2_0000i32) by (bit_vector);
        assert(0x4000_0000i32 >> 16u32 == 0x4000i32) by (bit_vector);
        assert(0x4000_0000i32 >> 21u32 == 0x200i32) by (bit_vector);
    }
    ONE >> (FRAC + 1)
}

/// Drops the surplus fractional bits of a number with 30 fractional bits.
pub fn narrow<const FRAC: u32>(bits: i32) -> (r: i32)
    requires
        is_precision(FRAC),
    ensures
        r == bits as int / scale(FRAC),
{
    proof {
        lemma_scale_values();
    }
    if FRAC == FP20 {
        fixed_to_fp20(bits)
    } else if FRAC == FP15 {
        fixed_to_fp15(bits)
    } else {
        fixed_to_fp12(bits)
    }
}

/// A number with `FRAC` fractional bits at 30 fractional bits.
pub fn widen<const FRAC: u32>(bits: i32) -> (r: i32)
    requires
        is_precision(FRAC),
        i32::MIN <= widen_to(bits as int, FRAC) <= i32::MAX,
    ensures
        r == widen_to(bits as int, FRAC),
{
    proof {
        lemma_scale_values();
    }
    if FRAC == FP20 {
        fixed_from_fp20(bits)
    } else if FRAC == FP15 {
        fixed_from_fp15(bits)
    } else {
        fixed_from_fp12(bits)
    }
}

/// Rounds a number with 30 fractional bits to the nearest one with `FRAC`
/// fractional bits, away from zero where two are equally near.
pub fn round<const FRAC: u32>(c: i32) -> (r: i32)
    requires
        is_precision(FRAC),
        roundable(c as int, FRAC),
    ensures
        r == round_to(c as int, FRAC),
{
    let epsilon: i32 = half_unit::<FRAC>();
    let rounded: i32 = narrow::<FRAC>(abs(c) + epsilon);
    proof {
        lemma_scale_values();
    }
    flip(rounded, c)
}

/// The product of two numbers with 30 fractional bits.
pub fn multiply(a: i32, b: i32) -> (r: i32)
    requires
        -(MAX_SQUARABLE as int) <= a <= MAX_SQUARABLE,
        -(MAX_SQUARABLE as int) <= b <= MAX_SQUARABLE,
    ensures
        r == product(a as int, b as int),
{
    proof {
        lemma_product_bound(a as int, b as int);
    }
    fixed_mul(a, b)
}

/// The product of two squarable numbers has a 32-bit representation.
pub proof fn lemma_product_bound(a: int, b: int)
    requires
        -(MAX_SQUARABLE as int) <= a <= MAX_SQUARABLE,
        -(MAX_SQUARABLE as int) <= b <= MAX_SQUARABLE,
    ensures
        i32::MIN <= product(a, b) <= i32::MAX,
{
    let m: int = MAX_SQUARABLE as int;
    assert(-(m * m) <= a * b <= m * m) by (nonlinear_arith)
        requires
            -m <= a <= m,
            -m <= b <= m,
    ;
    assert(m * m == 2305843006213062001) by (nonlinear_arith)
        requires
            m == 1518500249,
    ;
}

/// The square root of a number with 30 fractional bits that is not negative.
pub fn square_root(bits: i32) -> (r: i32)
    requires
        bits >= 0,
    ensures
        r == root(bits as int),
        r >= 0,
{
    let r: i32 = fixed_sqrt(bits);
    proof {
        lemma_integer_root_is(bits as int, r as int / 32768);
    }
    r
}

} // verus!
