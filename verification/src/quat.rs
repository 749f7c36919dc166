//! Quaternions, their three retained components, and reduced-precision vectors.

use vstd::prelude::*;
use vstd::arithmetic::power2::*;
use crate::bit_field::{power_of_two, Fix};
use crate::fixed_point::{
    abs, average, fits, flip, half_away, is_precision, lemma_scale_values, magnitude, multiply,
    product, root, round, round_to, signum, square_root, widen, widen_to, with_sign_of,
    MAX_MAGNITUDE, MAX_SQUARABLE, ONE,
};

verus! {

/// Whether `idx` is the lowest index at which the components of `q` reach their
/// largest magnitude.
pub open spec fn is_first_largest(q: Seq<int>, idx: int) -> bool {
    &&& 0 <= idx < q.len()
    &&& forall|j: int| 0 <= j < q.len() ==> magnitude(#[trigger] q[j]) <= magnitude(q[idx])
    &&& forall|j: int| 0 <= j < idx ==> magnitude(#[trigger] q[j]) < magnitude(q[idx])
}

/// The lowest index at which the components of `q` reach their largest magnitude.
pub open spec fn max_abs_index(q: Seq<int>) -> int {
    choose|idx: int| is_first_largest(q, idx)
}

/// The three components of `q` that follow component `idx` cyclically, each
/// multiplied by the sign of component `idx`.
pub open spec fn elide(q: Seq<int>, idx: int) -> Seq<int> {
    Seq::new(3, |i: int| with_sign_of(q[(i + 1 + idx) % 4], q[idx]))
}

/// One minus the sum of the squares of the three components, each square rounded
/// towards minus infinity at 30 fractional bits.
pub open spec fn residual(r: Seq<int>) -> int {
    ONE - product(r[0], r[0]) - product(r[1], r[1]) - product(r[2], r[2])
}

/// `v`, or zero where `v` is negative.
pub open spec fn clamp(v: int) -> int {
    if v < 0 {
        0
    } else {
        v
    }
}

/// The component that the unit norm leaves for three retained components: the
/// root of the residual, taken as zero where the residual is negative.
pub open spec fn missing_component(r: Seq<int>) -> int {
    root(clamp(residual(r)))
}

/// The quaternion with the retained components `r` after position `idx` and the
/// missing component at `idx`.
pub open spec fn rebuild(r: Seq<int>, idx: int) -> Seq<int> {
    Seq::new(
        4,
        |k: int|
            if k == idx {
                missing_component(r)
            } else {
                r[(k - idx + 3) % 4]
            },
    )
}

/// Each component rounded to `frac` fractional bits.
pub open spec fn quantize(r: Seq<int>, frac: u32) -> Seq<int> {
    Seq::new(3, |i: int| round_to(r[i], frac))
}

/// Each component with `frac` fractional bits at 30 fractional bits.
pub open spec fn dequantize(v: Seq<int>, frac: u32) -> Seq<int> {
    Seq::new(3, |i: int| widen_to(v[i], frac))
}

/// The sum of two vectors of three.
pub open spec fn vec_add(a: Seq<int>, b: Seq<int>) -> Seq<int> {
    Seq::new(3, |i: int| a[i] + b[i])
}

/// The difference of two vectors of three.
pub open spec fn vec_sub(a: Seq<int>, b: Seq<int>) -> Seq<int> {
    Seq::new(3, |i: int| a[i] - b[i])
}

/// The rounded average of two vectors of three.
pub open spec fn vec_avg(a: Seq<int>, b: Seq<int>) -> Seq<int> {
    Seq::new(3, |i: int| average(a[i], b[i]))
}

/// Whether each of the three components is a two's-complement number of `bits`
/// bits.
pub open spec fn vec_fits(v: Seq<int>, bits: nat) -> bool {
    fits(v[0], bits) && fits(v[1], bits) && fits(v[2], bits)
}

/// Whether each of the three components has a magnitude of at most `limit`.
pub open spec fn vec_within(v: Seq<int>, limit: int) -> bool {
    &&& -limit <= v[0] <= limit
    &&& -limit <= v[1] <= limit
    &&& -limit <= v[2] <= limit
}

/// Whether each of the three components is a 32-bit number.
pub open spec fn vec_in_i32(v: Seq<int>) -> bool {
    &&& i32::MIN <= v[0] <= i32::MAX
    &&& i32::MIN <= v[1] <= i32::MAX
    &&& i32::MIN <= v[2] <= i32::MAX
}

/// At most one index is the first largest.
pub proof fn lemma_first_largest_unique(q: Seq<int>, a: int, b: int)
    requires
        is_first_largest(q, a),
        is_first_largest(q, b),
    ensures
        a == b,
{
    if a < b {
        assert(magnitude(q[a]) < magnitude(q[b]));
        assert(magnitude(q[b]) <= magnitude(q[a]));
    } else if b < a {
        assert(magnitude(q[b]) < magnitude(q[a]));
        assert(magnitude(q[a]) <= magnitude(q[b]));
    }
}

/// A unit quaternion: four components with 30 fractional bits.
#[derive(Clone, Copy, Debug)]
pub struct Quaternion(pub [i32; 4]);

/// Three components of a quaternion at full precision. Which component is missing
/// is kept beside the value.
#[derive(Clone, Copy, Debug)]
pub struct Quat3(pub [i32; 3]);

/// Three components at `FRAC` fractional bits.
#[derive(Clone, Copy, Debug, PartialEq, Eq)]
pub struct RoundedQuat3<const FRAC: u32> {
    pub value: [i32; 3],
}

impl View for Quaternion {
    type V = Seq<int>;

    open spec fn view(&self) -> Seq<int> {
        Seq::new(4, |i: int| self.0[i] as int)
    }
}

impl View for Quat3 {
    type V = Seq<int>;

    open spec fn view(&self) -> Seq<int> {
        Seq::new(3, |i: int| self.0[i] as int)
    }
}

impl<const FRAC: u32> View for RoundedQuat3<FRAC> {
    type V = Seq<int>;

    open spec fn view(&self) -> Seq<int> {
        Seq::new(3, |i: int| self.value[i] as int)
    }
}

impl Default for Quaternion {
    fn default() -> (r: Self)
        ensures
            r@ == seq![0int, 0int, 0int, 0int],
    {
        let r = Quaternion([0, 0, 0, 0]);
        assert(r@ =~= seq![0int, 0int, 0int, 0int]);
        r
    }
}

impl Quaternion {
    /// Whether every component can be negated and rounded to each packed
    /// precision within 32 bits.
    pub open spec fn in_range(&self) -> bool {
        forall|i: int| 0 <= i < 4 ==> -MAX_MAGNITUDE <= #[trigger] self.0[i] <= MAX_MAGNITUDE
    }

    /// Whether the negative of every component is a 32-bit number.
    pub open spec fn negatable(&self) -> bool {
        forall|i: int| 0 <= i < 4 ==> i32::MIN < #[trigger] self.0[i]
    }

    /// The index of the component of largest magnitude, the lowest one where
    /// several are largest.
    pub fn max_abs_idx(&self) -> (index: usize)
        requires
            self.negatable(),
        ensures
            is_first_largest(self@, index as int),
            index == max_abs_index(self@),
    {
        let mut index: usize = 0;
        let mut max: i32 = abs(self.0[0]);
        let mut i: usize = 1;
        while i < 4
            invariant
                1 <= i <= 4,
                self.negatable(),
                index < i,
                max == magnitude(self@[index as int]),
                forall|j: int| 0 <= j < i ==> magnitude(#[trigger] self@[j]) <= max,
                forall|j: int| 0 <= j < index ==> magnitude(#[trigger] self@[j]) < max,
            decreases 4 - i,
        {
            let val: i32 = abs(self.0[i]);
            if val > max {
                index = i;
                max = val;
            }
            i += 1;
        }
        proof {
            lemma_first_largest_unique(self@, index as int, max_abs_index(self@));
        }
        index
    }

    /// Drops the component at `max_idx` and gives the three that follow it its
    /// sign. Where the largest component is dropped, none of the three is larger
    /// than it.
    pub fn to_quat3(&self, max_idx: usize) -> (r: Quat3)
        requires
            max_idx < 4,
            self.negatable(),
        ensures
            r@ == elide(self@, max_idx as int),
            self.in_range() ==> r.in_range(),
            is_first_largest(self@, max_idx as int) ==> vec_within(
                r@,
                magnitude(self@[max_idx as int]),
            ),
    {
        let s: i32 = signum(self.0[max_idx]);
        let a: i32 = self.0[(1 + max_idx) % 4];
        let b: i32 = self.0[(2 + max_idx) % 4];
        let c: i32 = self.0[(3 + max_idx) % 4];
        let r = Quat3([flip(a, s), flip(b, s), flip(c, s)]);
        assert(r@ =~= elide(self@, max_idx as int));
        proof {
            if is_first_largest(self@, max_idx as int) {
                let top: int = magnitude(self@[max_idx as int]);
                assert(magnitude(self@[((1 + max_idx) % 4) as int]) <= top);
                assert(magnitude(self@[((2 + max_idx) % 4) as int]) <= top);
                assert(magnitude(self@[((3 + max_idx) % 4) as int]) <= top);
            }
        }
        r
    }

    /// Puts the three retained components back after position `missing_idx` and
    /// fills that position from the unit norm.
    pub fn reconstruct(item: Quat3, missing_idx: usize) -> (out: Quaternion)
        requires
            missing_idx < 4,
            item.squarable(),
        ensures
            out@ == rebuild(item@, missing_idx as int),
            out@[missing_idx as int] >= 0,
    {
        let a: i32 = multiply(item.0[0], item.0[0]);
        let b: i32 = multiply(item.0[1], item.0[1]);
        let c: i32 = multiply(item.0[2], item.0[2]);
        proof {
            lemma_square_not_negative(item.0[0] as int);
            lemma_square_not_negative(item.0[1] as int);
            lemma_square_not_negative(item.0[2] as int);
        }
        let sqr_sum: i64 = ONE as i64 - a as i64 - b as i64 - c as i64;
        let rest: i32 = if sqr_sum < 0 {
            0
        } else {
            sqr_sum as i32
        };
        let mut out = Quaternion([0, 0, 0, 0]);
        out.0[(1 + missing_idx) % 4] = item.0[0];
        out.0[(2 + missing_idx) % 4] = item.0[1];
        out.0[(3 + missing_idx) % 4] = item.0[2];
        out.0[missing_idx] = square_root(rest);
        assert(out@ =~= rebuild(item@, missing_idx as int));
        out
    }
}

/// The rounded square of a number is not negative.
pub proof fn lemma_square_not_negative(c: int)
    ensures
        product(c, c) >= 0,
{
    assert(c * c >= 0) by (nonlinear_arith);
}

impl Quat3 {
    /// Whether every component can be negated and rounded to each packed
    /// precision within 32 bits.
    pub open spec fn in_range(&self) -> bool {
        vec_within(self@, MAX_MAGNITUDE as int)
    }

    /// Whether the square of every component has a 32-bit representation.
    pub open spec fn squarable(&self) -> bool {
        vec_within(self@, MAX_SQUARABLE as int)
    }

    /// The components of `val` at full precision.
    pub fn from<const FRAC: u32>(val: RoundedQuat3<FRAC>) -> (r: Quat3)
        requires
            is_precision(FRAC),
            vec_in_i32(dequantize(val@, FRAC)),
        ensures
            r@ == dequantize(val@, FRAC),
    {
        let r = Quat3(
            [
                widen::<FRAC>(val.value[0]),
                widen::<FRAC>(val.value[1]),
                widen::<FRAC>(val.value[2]),
            ],
        );
        assert(r@ =~= dequantize(val@, FRAC));
        r
    }
}

impl<const FRAC: u32> RoundedQuat3<FRAC> {
    /// The components of `val` rounded to `FRAC` fractional bits.
    pub fn from(val: Quat3) -> (r: Self)
        requires
            is_precision(FRAC),
            val.in_range(),
        ensures
            r@ == quantize(val@, FRAC),
    {
        proof {
            lemma_scale_values();
        }
        let r = RoundedQuat3 {
            value: [round::<FRAC>(val.0[0]), round::<FRAC>(val.0[1]), round::<FRAC>(val.0[2])],
        };
        assert(r@ =~= quantize(val@, FRAC));
        r
    }

    /// The vector stored in three fields of `WIDTH` bits.
    pub fn from_fields<const WIDTH: u32>(val: [Fix<WIDTH>; 3]) -> (r: Self)
        ensures
            r.value[0] == val[0].0,
            r.value[1] == val[1].0,
            r.value[2] == val[2].0,
    {
        RoundedQuat3 { value: [val[0].0, val[1].0, val[2].0] }
    }

    /// The vector as three numbers to be stored in fields of `WIDTH` bits.
    pub fn into_fields<const WIDTH: u32>(self) -> (r: [Fix<WIDTH>; 3])
        ensures
            r[0].0 == self.value[0],
            r[1].0 == self.value[1],
            r[2].0 == self.value[2],
    {
        [Fix(self.value[0]), Fix(self.value[1]), Fix(self.value[2])]
    }

    /// The sum, component by component.
    pub fn add(self, rhs: Self) -> (r: Self)
        requires
            vec_in_i32(vec_add(self@, rhs@)),
        ensures
            r@ == vec_add(self@, rhs@),
    {
        let r = RoundedQuat3 {
            value: [
                self.value[0] + rhs.value[0],
                self.value[1] + rhs.value[1],
                self.value[2] + rhs.value[2],
            ],
        };
        assert(r@ =~= vec_add(self@, rhs@));
        r
    }

    /// The difference, component by component.
    pub fn sub(self, rhs: Self) -> (r: Self)
        requires
            vec_in_i32(vec_sub(self@, rhs@)),
        ensures
            r@ == vec_sub(self@, rhs@),
    {
        let r = RoundedQuat3 {
            value: [
                self.value[0] - rhs.value[0],
                self.value[1] - rhs.value[1],
                self.value[2] - rhs.value[2],
            ],
        };
        assert(r@ =~= vec_sub(self@, rhs@));
        r
    }

    /// The rounded average, component by component.
    pub fn avg(&self, other: &Self) -> (r: Self)
        requires
            vec_within(vec_add(self@, other@), i32::MAX as int),
        ensures
            r@ == vec_avg(self@, other@),
    {
        let r = RoundedQuat3 {
            value: [
                halve(self.value[0] + other.value[0]),
                halve(self.value[1] + other.value[1]),
                halve(self.value[2] + other.value[2]),
            ],
        };
        assert(r@ =~= vec_avg(self@, other@));
        r
    }

    /// Whether every component is a two's-complement number of `bits` bits.
    pub fn fits_within(&self, bits: usize) -> (r: bool)
        requires
            1 <= bits <= 32,
        ensures
            r == vec_fits(self@, bits as nat),
    {
        let half: i64 = power_of_two((bits - 1) as u32) as i64;
        let a: i64 = self.value[0] as i64;
        let b: i64 = self.value[1] as i64;
        let c: i64 = self.value[2] as i64;
        -half <= a && a < half && -half <= b && b < half && -half <= c && c < half
    }
}

/// Half of the sum `s` of two numbers, away from zero where `s` is odd.
pub fn halve(s: i32) -> (r: i32)
    requires
        i32::MIN < s,
    ensures
        r == half_away(s as int),
{
    let half: i64 = (abs(s) as i64 + 1) / 2;
    flip(half as i32, s)
}

/// A quarter of `v`, rounded towards minus infinity.
pub fn quarter(v: i32) -> (r: i32)
    ensures
        r == v as int / 4,
{
    if v >= 0 {
        v / 4
    } else {
        (-((3 - v as i64) / 4)) as i32
    }
}

} // verus!
