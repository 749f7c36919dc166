//! How close a decoded frame is to the quaternions that were encoded.
//!
//! The encoder gives the value of its frame as `frame_value` of `chosen_mode` and
//! `chosen_payload`; the decoder gives its quaternions as `sample_of` and its
//! timestamp as `timestamp_of` of the value of the frame. `lemma_round_trip`
//! says what that frame stores, `lemma_sample_close` what is decoded from a
//! frame that stores a sample, and `lemma_elision_retained` with
//! `lemma_elision_missing` what dropping and filling in a component does to a
//! quaternion at full precision.
//!
//! Rounding takes the nearest number of the coarser precision, so a stored
//! component lies within half a unit of the component that was encoded.

use vstd::prelude::*;
use vstd::arithmetic::div_mod::{lemma_fundamental_div_mod, lemma_mod_bound};
use vstd::arithmetic::power2::*;
use crate::bit_field::BilgeBitvecExt;
use crate::codec::{
    chosen_mode, chosen_payload, components_of, frame_value, individual_sample, missing_idx_of,
    mode_of, sample, sample_of, timestamp_of, tries_first_last,
};
use crate::fixed_point::{
    average, fits, is_precision, lemma_root_bounds, lemma_scale_values, lemma_square_floor,
    magnitude, product, root, round_to, scale, sign, widen_to, with_sign_of, FP12, FP15, FP20,
    HALF, ONE,
};
use crate::laws::{
    lemma_first_last_round_trip, lemma_frame_round_trip, lemma_individual_compress_round_trip,
    lemma_individual_round_trip, lemma_last_delta_round_trip,
};
use crate::quat::{
    clamp, dequantize, elide, is_first_largest, max_abs_index, missing_component, quantize,
    rebuild, residual, vec_fits, vec_sub,
};
use crate::types::{
    mid_delta, FirstLastDeltaMid, Individual, IndividualCompress, LastDeltaFirstDeltaMid,
    QuaternionMode, Timestamp,
};

verus! {

/// The sum of the squares of the four components.
pub open spec fn norm_squared(q: Seq<int>) -> int {
    q[0] * q[0] + q[1] * q[1] + q[2] * q[2] + q[3] * q[3]
}

/// The square of one at 30 fractional bits.
pub open spec fn one_squared() -> int {
    0x1000_0000_0000_0000
}

/// Whether `q` has four components and its norm, squared, is within `tolerance`
/// of one.
pub open spec fn is_unit_within(q: Seq<int>, tolerance: int) -> bool {
    &&& q.len() == 4
    &&& one_squared() - tolerance <= norm_squared(q) <= one_squared() + tolerance
}

/// The tolerance on the squared norm under which every layout stores a sample
/// without loss of high bits: an eighth.
pub open spec fn norm_tolerance() -> int {
    0x200_0000_0000_0000
}

/// A quaternion that is unit up to the tolerance of the layouts.
pub open spec fn is_unit(q: Seq<int>) -> bool {
    is_unit_within(q, norm_tolerance())
}

/// Rounding moves a number by at most half a unit of the precision, and the
/// negative of a number rounds to the negative of what the number rounds to.
pub proof fn lemma_round_error(c: int, frac: u32)
    requires
        is_precision(frac),
    ensures
        -(scale(frac) / 2) <= c - widen_to(round_to(c, frac), frac) <= scale(frac) / 2,
        round_to(-c, frac) == -round_to(c, frac),
{
    lemma_scale_values();
    let s: int = scale(frac);
    let nudged: int = magnitude(c) + s / 2;
    lemma_fundamental_div_mod(nudged, s);
    lemma_mod_bound(nudged, s);
    let q: int = nudged / s;
    vstd::arithmetic::mul::lemma_mul_is_commutative(q, s);
    assert((-q) * s == -(q * s)) by (nonlinear_arith);
    assert(widen_to(round_to(c, frac), frac) == with_sign_of(q * s, c));
}

/// A number of magnitude below one less half a unit rounds to a number whose
/// integer part is zero, so that it fits a field of one bit more than the
/// fractional bits.
pub proof fn lemma_round_fits(c: int, frac: u32)
    requires
        is_precision(frac),
        -(ONE - scale(frac) / 2) <= c < ONE - scale(frac) / 2,
    ensures
        fits(round_to(c, frac), (frac + 1) as nat),
{
    lemma_scale_values();
    lemma2_to64();
    let s: int = scale(frac);
    let nudged: int = magnitude(c) + s / 2;
    lemma_fundamental_div_mod(nudged, s);
    lemma_mod_bound(nudged, s);
    let q: int = nudged / s;
    vstd::arithmetic::mul::lemma_mul_is_commutative(q, s);
    let limit: int = pow2(frac as nat) as int;
    assert(limit * s == ONE);
    if q >= limit {
        assert(q * s >= limit * s) by (nonlinear_arith)
            requires
                q >= limit,
                s > 0,
        ;
    }
}

/// A component that is no larger than another one of a quaternion whose squared
/// norm is at most nine eighths has a magnitude of at most three quarters.
pub proof fn lemma_smaller_component(q: Seq<int>, idx: int, k: int)
    requires
        q.len() == 4,
        norm_squared(q) <= one_squared() + norm_tolerance(),
        0 <= idx < 4,
        0 <= k < 4,
        k != idx,
        magnitude(q[k]) <= magnitude(q[idx]),
    ensures
        magnitude(q[k]) <= 0x3000_0000,
{
    let c: int = q[k];
    let m: int = q[idx];
    lemma_squares(q);
    assert(c * c <= m * m) by (nonlinear_arith)
        requires
            magnitude(c) <= magnitude(m),
    ;
    assert(c * c + m * m <= norm_squared(q));
    if magnitude(c) > 0x3000_0000 {
        assert(c * c >= 0x3000_0001 * 0x3000_0001) by (nonlinear_arith)
            requires
                magnitude(c) >= 0x3000_0001,
        ;
    }
}

/// The squares of the components are not negative.
pub proof fn lemma_squares(q: Seq<int>)
    requires
        q.len() == 4,
    ensures
        q[0] * q[0] >= 0,
        q[1] * q[1] >= 0,
        q[2] * q[2] >= 0,
        q[3] * q[3] >= 0,
{
    let a: int = q[0];
    let b: int = q[1];
    let c: int = q[2];
    let d: int = q[3];
    assert(a * a >= 0 && b * b >= 0 && c * c >= 0 && d * d >= 0) by (nonlinear_arith);
}

/// Beside a component of magnitude above one half, every other component of a
/// quaternion whose squared norm is at most nine eighths has a magnitude below
/// fifteen sixteenths.
pub proof fn lemma_beside_large_component(q: Seq<int>, idx: int, k: int)
    requires
        q.len() == 4,
        norm_squared(q) <= one_squared() + norm_tolerance(),
        0 <= idx < 4,
        0 <= k < 4,
        k != idx,
        magnitude(q[idx]) > HALF,
    ensures
        magnitude(q[k]) < 0x3c00_0000,
{
    let c: int = q[k];
    let m: int = q[idx];
    lemma_squares(q);
    assert(m * m >= 0x2000_0001 * 0x2000_0001) by (nonlinear_arith)
        requires
            magnitude(m) >= 0x2000_0001,
    ;
    assert(c * c + m * m <= norm_squared(q));
    if magnitude(c) >= 0x3c00_0000 {
        assert(c * c >= 0x3c00_0000 * 0x3c00_0000) by (nonlinear_arith)
            requires
                magnitude(c) >= 0x3c00_0000,
        ;
    }
}

/// The components that stay when the largest one is dropped have magnitudes of
/// at most three quarters.
pub proof fn lemma_elide_largest(q: Seq<int>, idx: int)
    requires
        q.len() == 4,
        norm_squared(q) <= one_squared() + norm_tolerance(),
        is_first_largest(q, idx),
    ensures
        forall|j: int| 0 <= j < 3 ==> magnitude(#[trigger] elide(q, idx)[j]) <= 0x3000_0000,
{
    assert forall|j: int| 0 <= j < 3 implies magnitude(#[trigger] elide(q, idx)[j])
        <= 0x3000_0000 by {
        let k: int = (j + 1 + idx) % 4;
        assert(magnitude(q[k]) <= magnitude(q[idx]));
        lemma_smaller_component(q, idx, k);
    }
}

/// The components that stay beside a dropped component of magnitude above one
/// half have magnitudes below fifteen sixteenths.
pub proof fn lemma_elide_large(q: Seq<int>, idx: int)
    requires
        q.len() == 4,
        norm_squared(q) <= one_squared() + norm_tolerance(),
        0 <= idx < 4,
        magnitude(q[idx]) > HALF,
    ensures
        forall|j: int| 0 <= j < 3 ==> magnitude(#[trigger] elide(q, idx)[j]) < 0x3c00_0000,
{
    assert forall|j: int| 0 <= j < 3 implies magnitude(#[trigger] elide(q, idx)[j])
        < 0x3c00_0000 by {
        let k: int = (j + 1 + idx) % 4;
        lemma_beside_large_component(q, idx, k);
    }
}

/// Three components of magnitude below fifteen sixteenths, rounded, fit fields
/// of one bit more than the fractional bits.
pub proof fn lemma_quantize_fits(r: Seq<int>, frac: u32)
    requires
        is_precision(frac),
        r.len() == 3,
        forall|j: int| 0 <= j < 3 ==> magnitude(#[trigger] r[j]) < 0x3c00_0000,
    ensures
        vec_fits(quantize(r, frac), (frac + 1) as nat),
{
    lemma_scale_values();
    assert(magnitude(r[0]) < 0x3c00_0000);
    assert(magnitude(r[1]) < 0x3c00_0000);
    assert(magnitude(r[2]) < 0x3c00_0000);
    lemma_round_fits(r[0], frac);
    lemma_round_fits(r[1], frac);
    lemma_round_fits(r[2], frac);
}

/// Four components have a first largest one, and `max_abs_index` is its index.
pub proof fn lemma_first_largest_exists(q: Seq<int>)
    requires
        q.len() == 4,
    ensures
        is_first_largest(q, max_abs_index(q)),
{
    let a: int = if magnitude(q[1]) > magnitude(q[0]) {
        1
    } else {
        0
    };
    let b: int = if magnitude(q[2]) > magnitude(q[a]) {
        2
    } else {
        a
    };
    let c: int = if magnitude(q[3]) > magnitude(q[b]) {
        3
    } else {
        b
    };
    assert(is_first_largest(q, c));
}

/// Whether sample `i` of the frame holds the components of `q` beside the one at
/// `idx`: each stored component lies at most half a unit of the precision above
/// the component of `q` with the sign of the missing one, and at most half a
/// unit and `slack` more below it.
pub open spec fn stores_sample(frame: int, i: nat, q: Seq<int>, idx: int, frac: u32, slack: int)
    -> bool {
    &&& missing_idx_of(frame, i) == idx
    &&& components_of(frame, i).len() == 3
    &&& forall|j: int|
        0 <= j < 3 ==> -(scale(frac) / 2) <= #[trigger] elide(q, idx)[j] - components_of(
            frame,
            i,
        )[j] <= scale(frac) / 2 + slack
}

/// Whether sample `i` of the frame holds exactly the components of `q` beside
/// the one at `idx`, rounded to `frac` fractional bits.
pub open spec fn stores_rounded(frame: int, i: nat, q: Seq<int>, idx: int, frac: u32) -> bool {
    &&& missing_idx_of(frame, i) == idx
    &&& components_of(frame, i) == dequantize(sample(q, idx, frac), frac)
}

/// Rounded components that are put back at full precision lie within the error
/// of rounding.
pub proof fn lemma_dequantize_close(r: Seq<int>, frac: u32)
    requires
        is_precision(frac),
        r.len() == 3,
    ensures
        forall|j: int|
            0 <= j < 3 ==> -(scale(frac) / 2) <= #[trigger] r[j] - dequantize(
                quantize(r, frac),
                frac,
            )[j] <= scale(frac) / 2,
{
    assert forall|j: int| 0 <= j < 3 implies -(scale(frac) / 2) <= #[trigger] r[j] - dequantize(
        quantize(r, frac),
        frac,
    )[j] <= scale(frac) / 2 by {
        lemma_round_error(r[j], frac);
    }
}

/// A frame that holds each sample on its own stores the components beside the
/// largest one of each sample, at 12 fractional bits.
pub proof fn lemma_individual_frame(
    first: Seq<int>,
    mid: Seq<int>,
    last: Seq<int>,
    timestamp: Timestamp,
)
    requires
        is_unit(first),
        is_unit(mid),
        is_unit(last),
        timestamp.wf(),
    ensures
        ({
            let frame = frame_value(
                QuaternionMode::Individual,
                Individual::layout(
                    individual_sample(first),
                    individual_sample(mid),
                    individual_sample(last),
                ),
                timestamp,
            );
            &&& mode_of(frame) == QuaternionMode::Individual
            &&& timestamp_of(frame) == timestamp.raw()
            &&& stores_sample(frame, 0, first, max_abs_index(first), FP12, 0)
            &&& stores_sample(frame, 1, mid, max_abs_index(mid), FP12, 0)
            &&& stores_sample(frame, 2, last, max_abs_index(last), FP12, 0)
            &&& stores_rounded(frame, 0, first, max_abs_index(first), FP12)
            &&& stores_rounded(frame, 1, mid, max_abs_index(mid), FP12)
            &&& stores_rounded(frame, 2, last, max_abs_index(last), FP12)
        }),
{
    lemma2_to64();
    let s0: int = individual_sample(first);
    let s1: int = individual_sample(mid);
    let s2: int = individual_sample(last);
    lemma_individual_sample(first);
    lemma_individual_sample(mid);
    lemma_individual_sample(last);
    lemma_individual_round_trip(s0, s1, s2);
    let payload: int = Individual::layout(s0, s1, s2);
    lemma_frame_round_trip(QuaternionMode::Individual, payload, timestamp);
    lemma_dequantize_close(elide(first, max_abs_index(first)), FP12);
    lemma_dequantize_close(elide(mid, max_abs_index(mid)), FP12);
    lemma_dequantize_close(elide(last, max_abs_index(last)), FP12);
}

/// A sample that is packed on its own comes back with its missing index and its
/// rounded components.
pub proof fn lemma_individual_sample(q: Seq<int>)
    requires
        is_unit(q),
    ensures
        IndividualCompress::missing_idx_of(individual_sample(q)) == max_abs_index(q),
        IndividualCompress::components_of(individual_sample(q)) == sample(
            q,
            max_abs_index(q),
            FP12,
        ),
        0 <= individual_sample(q) < pow2(41),
{
    let idx: int = max_abs_index(q);
    lemma_first_largest_exists(q);
    lemma_elide_largest(q, idx);
    assert forall|j: int| 0 <= j < 3 implies magnitude(#[trigger] elide(q, idx)[j])
        < 0x3c00_0000 by {
        assert(magnitude(elide(q, idx)[j]) <= 0x3000_0000);
    }
    lemma_quantize_fits(elide(q, idx), FP12);
    lemma_individual_compress_round_trip(idx, sample(q, idx, FP12));
}

/// A frame that holds the first and the last sample in full stores the
/// components of all three samples beside the largest one of the middle sample,
/// at 15 fractional bits; the middle sample may lack up to three units more.
pub proof fn lemma_first_last_frame(
    first: Seq<int>,
    mid: Seq<int>,
    last: Seq<int>,
    timestamp: Timestamp,
)
    requires
        is_unit(first),
        is_unit(mid),
        is_unit(last),
        timestamp.wf(),
        tries_first_last(first, last, max_abs_index(mid)),
        FirstLastDeltaMid::accepts(
            sample(first, max_abs_index(mid), FP15),
            sample(mid, max_abs_index(mid), FP15),
            sample(last, max_abs_index(mid), FP15),
        ),
    ensures
        ({
            let idx = max_abs_index(mid);
            let frame = frame_value(
                QuaternionMode::FirstLastDeltaMid,
                FirstLastDeltaMid::layout(
                    idx,
                    sample(first, idx, FP15),
                    sample(mid, idx, FP15),
                    sample(last, idx, FP15),
                ),
                timestamp,
            );
            &&& mode_of(frame) == QuaternionMode::FirstLastDeltaMid
            &&& timestamp_of(frame) == timestamp.raw()
            &&& stores_sample(frame, 0, first, idx, FP15, 0)
            &&& stores_sample(frame, 1, mid, idx, FP15, 3 * scale(FP15))
            &&& stores_sample(frame, 2, last, idx, FP15, 0)
            &&& stores_rounded(frame, 0, first, idx, FP15)
            &&& !FirstLastDeltaMid::shifts(
                sample(first, idx, FP15),
                sample(mid, idx, FP15),
                sample(last, idx, FP15),
            ) ==> stores_rounded(frame, 1, mid, idx, FP15)
            &&& stores_rounded(frame, 2, last, idx, FP15)
        }),
{
    lemma2_to64();
    lemma_scale_values();
    let idx: int = max_abs_index(mid);
    lemma_first_largest_exists(mid);
    let f: Seq<int> = sample(first, idx, FP15);
    let m: Seq<int> = sample(mid, idx, FP15);
    let l: Seq<int> = sample(last, idx, FP15);
    lemma_elide_large(first, idx);
    lemma_elide_large(last, idx);
    lemma_quantize_fits(elide(first, idx), FP15);
    lemma_quantize_fits(elide(last, idx), FP15);
    lemma_first_last_round_trip(idx, f, m, l);
    let payload: int = FirstLastDeltaMid::layout(idx, f, m, l);
    lemma_frame_round_trip(QuaternionMode::FirstLastDeltaMid, payload, timestamp);
    let frame: int = frame_value(QuaternionMode::FirstLastDeltaMid, payload, timestamp);
    lemma_dequantize_close(elide(first, idx), FP15);
    lemma_dequantize_close(elide(mid, idx), FP15);
    lemma_dequantize_close(elide(last, idx), FP15);
    let back: Seq<int> = FirstLastDeltaMid::mid_of(payload);
    assert forall|j: int| 0 <= j < 3 implies -(scale(FP15) / 2) <= #[trigger] elide(mid, idx)[j]
        - components_of(frame, 1)[j] <= scale(FP15) / 2 + 3 * scale(FP15) by {
        assert(0 <= m[j] - back[j] <= 3);
        assert(components_of(frame, 1)[j] == back[j] * scale(FP15));
        assert(dequantize(m, FP15)[j] == m[j] * scale(FP15));
    }
}

/// Where the layout with the last sample in full accepts three samples of which
/// the middle one has components of at most three quarters, the components of
/// the last one are 21-bit numbers.
pub proof fn lemma_last_fits(first: Seq<int>, mid: Seq<int>, last: Seq<int>)
    requires
        first.len() == 3,
        mid.len() == 3,
        last.len() == 3,
        LastDeltaFirstDeltaMid::accepts(first, mid, last),
        forall|j: int| 0 <= j < 3 ==> -0xc_0001 <= #[trigger] mid[j] <= 0xc_0001,
    ensures
        vec_fits(last, 21),
{
    lemma2_to64();
    assert forall|j: int| 0 <= j < 3 implies fits(#[trigger] last[j], 21) by {
        let l: int = last[j];
        let f: int = first[j];
        let m: int = mid[j];
        assert(-0xc_0001 <= m <= 0xc_0001);
        assert(vec_sub(last, first)[j] == l - f);
        assert(mid_delta(first, mid, last)[j] == m - average(l, f));
        assert(fits(l - f, 13));
        assert(fits(m - average(l, f), 7));
    }
}

/// A frame that holds the last sample in full stores the components of all three
/// samples beside the largest one of the middle sample, at 20 fractional bits.
pub proof fn lemma_last_delta_frame(
    first: Seq<int>,
    mid: Seq<int>,
    last: Seq<int>,
    timestamp: Timestamp,
)
    requires
        is_unit(first),
        is_unit(mid),
        is_unit(last),
        timestamp.wf(),
        LastDeltaFirstDeltaMid::accepts(
            sample(first, max_abs_index(mid), FP20),
            sample(mid, max_abs_index(mid), FP20),
            sample(last, max_abs_index(mid), FP20),
        ),
    ensures
        ({
            let idx = max_abs_index(mid);
            let frame = frame_value(
                QuaternionMode::LastDeltaFirstDeltaMid,
                LastDeltaFirstDeltaMid::layout(
                    idx,
                    sample(first, idx, FP20),
                    sample(mid, idx, FP20),
                    sample(last, idx, FP20),
                ),
                timestamp,
            );
            &&& mode_of(frame) == QuaternionMode::LastDeltaFirstDeltaMid
            &&& timestamp_of(frame) == timestamp.raw()
            &&& stores_sample(frame, 0, first, idx, FP20, 0)
            &&& stores_sample(frame, 1, mid, idx, FP20, 0)
            &&& stores_sample(frame, 2, last, idx, FP20, 0)
            &&& stores_rounded(frame, 0, first, idx, FP20)
            &&& stores_rounded(frame, 1, mid, idx, FP20)
            &&& stores_rounded(frame, 2, last, idx, FP20)
        }),
{
    lemma2_to64();
    lemma_scale_values();
    let idx: int = max_abs_index(mid);
    lemma_first_largest_exists(mid);
    let f: Seq<int> = sample(first, idx, FP20);
    let m: Seq<int> = sample(mid, idx, FP20);
    let l: Seq<int> = sample(last, idx, FP20);
    lemma_elide_largest(mid, idx);
    assert forall|j: int| 0 <= j < 3 implies -0xc_0001 <= #[trigger] m[j] <= 0xc_0001 by {
        let c: int = elide(mid, idx)[j];
        assert(magnitude(c) <= 0x3000_0000);
        lemma_round_error(c, FP20);
        assert(m[j] == round_to(c, FP20));
    }
    lemma_last_fits(f, m, l);
    lemma_last_delta_round_trip(idx, f, m, l);
    let payload: int = LastDeltaFirstDeltaMid::layout(idx, f, m, l);
    lemma_frame_round_trip(QuaternionMode::LastDeltaFirstDeltaMid, payload, timestamp);
    lemma_dequantize_close(elide(first, idx), FP20);
    lemma_dequantize_close(elide(mid, idx), FP20);
    lemma_dequantize_close(elide(last, idx), FP20);
}

/// Decoding what was encoded: the frame of three unit quaternions and a
/// timestamp names the layout that was chosen, holds the timestamp, and stores
/// of each quaternion the components beside the missing one, with the sign of
/// the missing one, rounded to the precision of the layout. Only the middle
/// sample of the layout with the first and the last sample in full may lack up
/// to three units more, where its difference from the average is stored
/// without its two lowest bits. In the two layouts with differences the
/// component that is missing is the largest one of the middle quaternion; else
/// it is the largest one of each.
pub proof fn lemma_round_trip(
    first: Seq<int>,
    mid: Seq<int>,
    last: Seq<int>,
    timestamp: Timestamp,
)
    requires
        is_unit(first),
        is_unit(mid),
        is_unit(last),
        timestamp.wf(),
    ensures
        ({
            let mode = chosen_mode(first, mid, last);
            let frame = frame_value(mode, chosen_payload(first, mid, last), timestamp);
            let idx = max_abs_index(mid);
            &&& mode_of(frame) == mode
            &&& mode != QuaternionMode::Unknown
            &&& timestamp_of(frame) == timestamp.raw()
            &&& mode == QuaternionMode::LastDeltaFirstDeltaMid ==> {
                &&& stores_sample(frame, 0, first, idx, FP20, 0)
                &&& stores_sample(frame, 1, mid, idx, FP20, 0)
                &&& stores_sample(frame, 2, last, idx, FP20, 0)
                &&& stores_rounded(frame, 0, first, idx, FP20)
                &&& stores_rounded(frame, 1, mid, idx, FP20)
                &&& stores_rounded(frame, 2, last, idx, FP20)
            }
            &&& mode == QuaternionMode::FirstLastDeltaMid ==> {
                &&& stores_sample(frame, 0, first, idx, FP15, 0)
                &&& stores_sample(frame, 1, mid, idx, FP15, 3 * scale(FP15))
                &&& stores_sample(frame, 2, last, idx, FP15, 0)
                &&& stores_rounded(frame, 0, first, idx, FP15)
                &&& !FirstLastDeltaMid::shifts(
                    sample(first, idx, FP15),
                    sample(mid, idx, FP15),
                    sample(last, idx, FP15),
                ) ==> stores_rounded(frame, 1, mid, idx, FP15)
                &&& stores_rounded(frame, 2, last, idx, FP15)
            }
            &&& mode == QuaternionMode::Individual ==> {
                &&& stores_sample(frame, 0, first, max_abs_index(first), FP12, 0)
                &&& stores_sample(frame, 1, mid, max_abs_index(mid), FP12, 0)
                &&& stores_sample(frame, 2, last, max_abs_index(last), FP12, 0)
                &&& stores_rounded(frame, 0, first, max_abs_index(first), FP12)
                &&& stores_rounded(frame, 1, mid, max_abs_index(mid), FP12)
                &&& stores_rounded(frame, 2, last, max_abs_index(last), FP12)
            }
        }),
{
    match chosen_mode(first, mid, last) {
        QuaternionMode::LastDeltaFirstDeltaMid => {
            lemma_last_delta_frame(first, mid, last, timestamp);
        },
        QuaternionMode::FirstLastDeltaMid => {
            lemma_first_last_frame(first, mid, last, timestamp);
        },
        _ => {
            lemma_individual_frame(first, mid, last, timestamp);
        },
    }
}

/// Dropping a component and putting the rest back leaves every other component
/// with the sign of the dropped one, exactly.
pub proof fn lemma_elision_retained(q: Seq<int>, idx: int)
    requires
        q.len() == 4,
        0 <= idx < 4,
    ensures
        rebuild(elide(q, idx), idx).len() == 4,
        rebuild(elide(q, idx), idx)[idx] == missing_component(elide(q, idx)),
        forall|k: int|
            0 <= k < 4 && k != idx ==> #[trigger] rebuild(elide(q, idx), idx)[k] == with_sign_of(
                q[k],
                q[idx],
            ),
{
    let r: Seq<int> = elide(q, idx);
    assert forall|k: int| 0 <= k < 4 && k != idx implies #[trigger] rebuild(r, idx)[k]
        == with_sign_of(q[k], q[idx]) by {
        let j: int = (k - idx + 3) % 4;
        assert(0 <= j < 3);
        assert((j + 1 + idx) % 4 == k);
        assert(r[j] == with_sign_of(q[(j + 1 + idx) % 4], q[idx]));
    }
}

/// The squares of the components that stay beside a dropped component that is
/// not zero sum up to the squared norm less the square of the dropped one.
pub proof fn lemma_elide_squares(q: Seq<int>, idx: int)
    requires
        q.len() == 4,
        0 <= idx < 4,
        q[idx] != 0,
    ensures
        ({
            let r = elide(q, idx);
            r[0] * r[0] + r[1] * r[1] + r[2] * r[2] == norm_squared(q) - q[idx] * q[idx]
        }),
{
    let r: Seq<int> = elide(q, idx);
    let a: int = q[(1 + idx) % 4];
    let b: int = q[(2 + idx) % 4];
    let c: int = q[(3 + idx) % 4];
    assert(r[0] == with_sign_of(a, q[idx]));
    assert(r[1] == with_sign_of(b, q[idx]));
    assert(r[2] == with_sign_of(c, q[idx]));
    assert(r[0] * r[0] == a * a) by (nonlinear_arith)
        requires
            r[0] == a || r[0] == -a,
    ;
    assert(r[1] * r[1] == b * b) by (nonlinear_arith)
        requires
            r[1] == b || r[1] == -b,
    ;
    assert(r[2] * r[2] == c * c) by (nonlinear_arith)
        requires
            r[2] == c || r[2] == -c,
    ;
}

/// The square of the largest component is at least a quarter of the squared
/// norm, so that the largest component of a quaternion whose squared norm is at
/// least seven eighths has a magnitude of at least a quarter.
pub proof fn lemma_largest_component(q: Seq<int>, idx: int)
    requires
        q.len() == 4,
        is_first_largest(q, idx),
    ensures
        4 * (magnitude(q[idx]) * magnitude(q[idx])) >= norm_squared(q),
        one_squared() - norm_tolerance() <= norm_squared(q) ==> magnitude(q[idx]) >= 0x1000_0000,
{
    let m: int = magnitude(q[idx]);
    assert forall|k: int| 0 <= k < 4 implies #[trigger] q[k] * q[k] <= m * m by {
        let c: int = q[k];
        assert(magnitude(c) <= m);
        assert(c * c <= m * m) by (nonlinear_arith)
            requires
                -m <= c <= m,
        ;
    }
    assert(q[0] * q[0] <= m * m);
    assert(q[1] * q[1] <= m * m);
    assert(q[2] * q[2] <= m * m);
    assert(q[3] * q[3] <= m * m);
    if m < 0x1000_0000 {
        assert(m * m <= 0x0fff_ffff * 0x0fff_ffff) by (nonlinear_arith)
            requires
                0 <= m <= 0x0fff_ffff,
        ;
    }
}

/// Dropping the largest component of a unit quaternion and filling it in from
/// the unit norm gives back its magnitude, to within the step of the square
/// root and what the squared norm differs by from one. The step is 32768 units
/// in the last place; a difference of `tolerance` in the squared norm moves the
/// component by at most `tolerance / 2^28` units.
pub proof fn lemma_elision_missing(q: Seq<int>, idx: int, tolerance: int)
    requires
        0 <= tolerance <= norm_tolerance(),
        is_unit_within(q, tolerance),
        is_first_largest(q, idx),
    ensures
        ({
            let d = missing_component(elide(q, idx));
            let m = magnitude(q[idx]);
            let bound = tolerance / 0x1000_0000;
            m - 32768 - bound - 1 < d <= m + bound + 6
        }),
{
    let r: Seq<int> = elide(q, idx);
    let m: int = magnitude(q[idx]);
    let bound: int = tolerance / 0x1000_0000;
    let norm: int = norm_squared(q);
    lemma_largest_component(q, idx);
    lemma_elide_squares(q, idx);
    lemma_square_floor(r[0]);
    lemma_square_floor(r[1]);
    lemma_square_floor(r[2]);
    let rest: int = clamp(residual(r));
    let d: int = root(rest);
    lemma_root_bounds(rest);
    assert(m * m == q[idx] * q[idx]) by (nonlinear_arith)
        requires
            m == q[idx] || m == -q[idx],
    ;
    // The residual at 60 fractional bits lies between the square of the dropped
    // component, less what the norm is off, and three units above that.
    let exact: int = one_squared() - (r[0] * r[0] + r[1] * r[1] + r[2] * r[2]);
    assert(exact == m * m + (one_squared() - norm));
    assert(ONE * residual(r) == one_squared() - ONE * product(r[0], r[0]) - ONE * product(
        r[1],
        r[1],
    ) - ONE * product(r[2], r[2])) by (nonlinear_arith)
        requires
            residual(r) == ONE - product(r[0], r[0]) - product(r[1], r[1]) - product(r[2], r[2]),
            ONE * ONE == one_squared(),
    ;
    assert(exact <= ONE * residual(r) < exact + 3 * ONE);
    assert(exact > 0);
    assert(residual(r) > 0) by (nonlinear_arith)
        requires
            ONE * residual(r) > 0,
            ONE > 0,
    ;
    assert(rest == residual(r));
    assert(tolerance < 0x1000_0000 * (bound + 1));
    let whole: int = ONE * rest;
    assert(d * d <= whole);
    assert(whole < (d + 32768) * (d + 32768));
    assert(m * m - tolerance <= whole < m * m + tolerance + 3 * ONE);
    if d > m + bound + 6 {
        assert(d * d >= m * m + 0x2000_0000 * (bound + 7)) by (nonlinear_arith)
            requires
                d >= m + bound + 7,
                m >= 0x1000_0000,
                bound >= 0,
        ;
    }
    if d + 32768 <= m - bound - 1 {
        assert((d + 32768) * (d + 32768) <= m * m - 0x1000_0000 * (bound + 1))
            by (nonlinear_arith)
            requires
                0 <= d + 32768 <= m - (bound + 1),
                m >= 0x1000_0000,
                bound >= 0,
        ;
    }
}

/// The squares of two numbers that differ by at most `error`, of which the first
/// has a magnitude of at most `limit`, differ by at most `error * (2 * limit +
/// error)`.
pub proof fn lemma_square_moves(a: int, b: int, error: int, limit: int)
    requires
        -error <= a - b <= error,
        -limit <= a <= limit,
    ensures
        -(error * (2 * limit + error)) <= a * a - b * b <= error * (2 * limit + error),
{
    let e: int = a - b;
    assert(a * a - b * b == e * (2 * a - e)) by (nonlinear_arith)
        requires
            e == a - b,
    ;
    assert(-(error * (2 * limit + error)) <= e * (2 * a - e) <= error * (2 * limit + error))
        by (nonlinear_arith)
        requires
            -error <= e <= error,
            -limit <= a <= limit,
    ;
}

/// No component of a quaternion whose squared norm is at most nine eighths has a
/// magnitude above one and a half.
pub proof fn lemma_component_bound(q: Seq<int>, k: int)
    requires
        q.len() == 4,
        norm_squared(q) <= one_squared() + norm_tolerance(),
        0 <= k < 4,
    ensures
        magnitude(q[k]) <= 0x6000_0000,
{
    let c: int = q[k];
    lemma_squares(q);
    assert(c * c <= norm_squared(q));
    if magnitude(c) > 0x6000_0000 {
        assert(c * c >= 0x6000_0001 * 0x6000_0001) by (nonlinear_arith)
            requires
                magnitude(c) >= 0x6000_0001,
        ;
    }
}

/// What room the stored components leave for the missing one. Where three
/// components are stored to within `error` of those of a unit quaternion beside
/// a component that is not zero, the component that is filled in, squared, lies
/// within a bound of the square of the one that was dropped, up to one step of
/// the square root. The bound is what the squared norm is off by, three units
/// of rounding, and three times `error * (3 * ONE + error)`.
pub proof fn lemma_missing_component_close(
    q: Seq<int>,
    idx: int,
    stored: Seq<int>,
    error: int,
    tolerance: int,
)
    requires
        0 <= tolerance <= norm_tolerance(),
        is_unit_within(q, tolerance),
        0 <= idx < 4,
        q[idx] != 0,
        stored.len() == 3,
        0 <= error,
        forall|j: int| 0 <= j < 3 ==> -error <= #[trigger] elide(q, idx)[j] - stored[j] <= error,
    ensures
        ({
            let d = missing_component(stored);
            let m = magnitude(q[idx]);
            let bound = tolerance + 3 * (error * (3 * ONE + error));
            &&& 0 <= d
            &&& d * d < m * m + bound + 3 * ONE
            &&& m * m - bound < (d + 32768) * (d + 32768)
        }),
{
    let r: Seq<int> = elide(q, idx);
    let m: int = magnitude(q[idx]);
    let limit: int = 0x6000_0000;
    let step: int = error * (2 * limit + error);
    assert(2 * limit == 3 * ONE);
    lemma_elide_squares(q, idx);
    assert forall|j: int| 0 <= j < 3 implies -step <= #[trigger] r[j] * r[j] - stored[j]
        * stored[j] <= step by {
        let k: int = (j + 1 + idx) % 4;
        lemma_component_bound(q, k);
        assert(r[j] == with_sign_of(q[k], q[idx]));
        assert(-error <= r[j] - stored[j] <= error);
        lemma_square_moves(r[j], stored[j], error, limit);
    }
    assert(-step <= r[0] * r[0] - stored[0] * stored[0] <= step);
    assert(-step <= r[1] * r[1] - stored[1] * stored[1] <= step);
    assert(-step <= r[2] * r[2] - stored[2] * stored[2] <= step);
    lemma_square_floor(stored[0]);
    lemma_square_floor(stored[1]);
    lemma_square_floor(stored[2]);
    let rest: int = clamp(residual(stored));
    let d: int = root(rest);
    lemma_root_bounds(rest);
    assert(m * m == q[idx] * q[idx]) by (nonlinear_arith)
        requires
            m == q[idx] || m == -q[idx],
    ;
    assert(m * m > 0) by (nonlinear_arith)
        requires
            m > 0,
    ;
    let exact: int = one_squared() - (stored[0] * stored[0] + stored[1] * stored[1] + stored[2]
        * stored[2]);
    assert(ONE * residual(stored) == one_squared() - ONE * product(stored[0], stored[0]) - ONE
        * product(stored[1], stored[1]) - ONE * product(stored[2], stored[2]))
        by (nonlinear_arith)
        requires
            residual(stored) == ONE - product(stored[0], stored[0]) - product(
                stored[1],
                stored[1],
            ) - product(stored[2], stored[2]),
            ONE * ONE == one_squared(),
    ;
    assert(exact <= ONE * residual(stored) < exact + 3 * ONE);
    let bound: int = tolerance + 3 * step;
    assert(m * m - bound <= exact <= m * m + bound);
    let whole: int = ONE * rest;
    if residual(stored) < 0 {
        assert(whole == 0);
        assert(ONE * residual(stored) < 0) by (nonlinear_arith)
            requires
                residual(stored) < 0,
                ONE > 0,
        ;
    }
    assert(m * m - bound <= whole < m * m + bound + 3 * ONE);
    assert(d * d <= whole);
    assert(whole < (d + 32768) * (d + 32768));
}

/// What a decoded sample holds beside its missing component is what the frame
/// stores, and its missing component is filled in from those.
pub proof fn lemma_decoded_sample(frame: int, i: nat)
    requires
        components_of(frame, i).len() == 3,
        0 <= missing_idx_of(frame, i) < 4,
    ensures
        sample_of(frame, i).len() == 4,
        sample_of(frame, i)[missing_idx_of(frame, i)] == missing_component(
            components_of(frame, i),
        ),
        forall|j: int|
            0 <= j < 3 ==> sample_of(frame, i)[(j + 1 + missing_idx_of(frame, i)) % 4]
                == #[trigger] components_of(frame, i)[j],
{
    let idx: int = missing_idx_of(frame, i);
    assert forall|j: int| 0 <= j < 3 implies sample_of(frame, i)[(j + 1 + idx) % 4]
        == #[trigger] components_of(frame, i)[j] by {
        let k: int = (j + 1 + idx) % 4;
        assert(k != idx);
        assert((k - idx + 3) % 4 == j);
    }
}

/// A sample that a frame stores is decoded close to the quaternion that was
/// encoded. Beside the missing component, each decoded component lies at most
/// half a unit of the precision above the component of `q` with the sign of the
/// missing one, and at most half a unit and `slack` more below it.
/// The missing component is decoded as a number that is not negative; where it
/// is not zero in `q`, the square of what is decoded is close to its square.
pub proof fn lemma_sample_close(frame: int, i: nat, q: Seq<int>, idx: int, frac: u32, slack: int)
    requires
        is_precision(frac),
        0 <= slack,
        is_unit(q),
        0 <= idx < 4,
        stores_sample(frame, i, q, idx, frac, slack),
    ensures
        sample_of(frame, i).len() == 4,
        forall|k: int|
            0 <= k < 4 && k != idx ==> -(scale(frac) / 2) <= with_sign_of(q[k], q[idx])
                - #[trigger] sample_of(frame, i)[k] <= scale(frac) / 2 + slack,
        0 <= sample_of(frame, i)[idx],
        q[idx] != 0 ==> ({
            let d = sample_of(frame, i)[idx];
            let m = magnitude(q[idx]);
            let error = scale(frac) / 2 + slack;
            let bound = norm_tolerance() + 3 * (error * (3 * ONE + error));
            &&& d * d < m * m + bound + 3 * ONE
            &&& m * m - bound < (d + 32768) * (d + 32768)
        }),
{
    lemma_scale_values();
    lemma_decoded_sample(frame, i);
    let stored: Seq<int> = components_of(frame, i);
    let error: int = scale(frac) / 2 + slack;
    assert forall|k: int| 0 <= k < 4 && k != idx implies -(scale(frac) / 2) <= with_sign_of(
        q[k],
        q[idx],
    ) - #[trigger] sample_of(frame, i)[k] <= scale(frac) / 2 + slack by {
        let j: int = (k - idx + 3) % 4;
        assert((j + 1 + idx) % 4 == k);
        assert(sample_of(frame, i)[(j + 1 + idx) % 4] == stored[j]);
        assert(elide(q, idx)[j] == with_sign_of(q[(j + 1 + idx) % 4], q[idx]));
        assert(-(scale(frac) / 2) <= elide(q, idx)[j] - stored[j] <= scale(frac) / 2 + slack);
    }
    lemma_root_bounds(clamp(residual(stored)));
    if q[idx] != 0 {
        assert forall|j: int| 0 <= j < 3 implies -error <= #[trigger] elide(q, idx)[j]
            - stored[j] <= error by {
            assert(-(scale(frac) / 2) <= elide(q, idx)[j] - stored[j] <= scale(frac) / 2
                + slack);
        }
        lemma_missing_component_close(q, idx, stored, error, norm_tolerance());
    }
}

} // verus!
