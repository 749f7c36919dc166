//! What holds of the records and of the frames whatever the samples.
//!
//! A record that was packed comes back unpacked, as far as its fields are wide
//! enough for what it was given. A frame names its mode and holds its record and
//! its timestamp. The mode is chosen in a fixed order of preference. What lies
//! above the timestamp of a frame is zero when written and is not read.

use vstd::prelude::*;
use vstd::arithmetic::power2::*;
use vstd::arithmetic::div_mod::{
    lemma_fundamental_div_mod, lemma_fundamental_div_mod_converse, lemma_mod_bound,
    lemma_mod_multiples_vanish,
};
use crate::bit_field::{
    above, cat, field, le_value, lemma_above_twice, lemma_cat_bound, lemma_cat_of_parts,
    lemma_cat_split, lemma_le_value_bound, lemma_le_value_byte, lemma_small, lemma_triple_bound,
    lemma_triple_fields, lemma_untriple_triple, low, triple, untriple, BilgeBitvecExt,
};
use crate::codec::{
    chosen_mode, components_of, frame_value, missing_idx_of, mode_of, payload_of, sample,
    sample_of, timestamp_of, tries_first_last,
};
use crate::fixed_point::{fits, FP15, FP20};
use crate::quat::{max_abs_index, vec_avg, vec_fits, vec_sub};
use crate::types::{
    mid_delta, FirstLastDeltaMid, Individual, IndividualCompress, LastDeltaFirstDeltaMid,
    QuaternionMode, Timestamp,
};

verus! {

/// A vector that fits `bits` bits, component by component.
pub proof fn lemma_fits_each(v: Seq<int>, bits: nat)
    requires
        v.len() == 3,
        vec_fits(v, bits),
    ensures
        forall|i: int|
            0 <= i < 3 ==> -(pow2((bits - 1) as nat) as int) <= #[trigger] v[i] < pow2(
                (bits - 1) as nat,
            ),
{
}

/// Unpacking a sample that was packed on its own gives back the missing index
/// and, where they are 13-bit numbers, the components.
pub proof fn lemma_individual_compress_round_trip(missing_idx: int, data: Seq<int>)
    requires
        0 <= missing_idx < 4,
        data.len() == 3,
        vec_fits(data, 13),
    ensures
        IndividualCompress::missing_idx_of(IndividualCompress::layout(missing_idx, data))
            == missing_idx,
        IndividualCompress::components_of(IndividualCompress::layout(missing_idx, data)) == data,
        0 <= IndividualCompress::layout(missing_idx, data) < pow2(41),
{
    lemma2_to64();
    let raw: int = IndividualCompress::layout(missing_idx, data);
    lemma_triple_bound(data, 13);
    lemma_cat_split(missing_idx, 2, triple(data, 13));
    lemma_cat_bound(missing_idx, 2, triple(data, 13), 39);
    assert(above(raw, 0) == raw);
    lemma_fits_each(data, 13);
    lemma_untriple_triple(data, 13, 0);
    assert(cat(triple(data, 13), 39, 0) == triple(data, 13));
}

/// The three samples of a record come back in their order.
pub proof fn lemma_individual_round_trip(first: int, mid: int, last: int)
    requires
        0 <= first < pow2(41),
        0 <= mid < pow2(41),
        0 <= last < pow2(41),
    ensures
        Individual::sample_of(Individual::layout(first, mid, last), 0) == first,
        Individual::sample_of(Individual::layout(first, mid, last), 1) == mid,
        Individual::sample_of(Individual::layout(first, mid, last), 2) == last,
        0 <= Individual::layout(first, mid, last) < pow2(123),
{
    lemma2_to64();
    let raw: int = Individual::layout(first, mid, last);
    lemma_cat_bound(mid, 41, last, 41);
    lemma_cat_bound(first, 41, cat(mid, 41, last), 82);
    lemma_cat_split(first, 41, cat(mid, 41, last));
    lemma_cat_split(mid, 41, last);
    lemma_small(last, 41);
    assert(above(raw, 0) == raw);
    lemma_above_twice(raw, 41, 41);
}

/// Unpacking a record that holds the last sample in full gives back the missing
/// index and the three samples, where the last one has 21-bit components.
pub proof fn lemma_last_delta_round_trip(
    missing_idx: int,
    first: Seq<int>,
    mid: Seq<int>,
    last: Seq<int>,
)
    requires
        0 <= missing_idx < 4,
        first.len() == 3,
        mid.len() == 3,
        last.len() == 3,
        LastDeltaFirstDeltaMid::accepts(first, mid, last),
        vec_fits(last, 21),
    ensures
        LastDeltaFirstDeltaMid::missing_idx_of(
            LastDeltaFirstDeltaMid::layout(missing_idx, first, mid, last),
        ) == missing_idx,
        LastDeltaFirstDeltaMid::first_of(
            LastDeltaFirstDeltaMid::layout(missing_idx, first, mid, last),
        ) == first,
        LastDeltaFirstDeltaMid::mid_of(
            LastDeltaFirstDeltaMid::layout(missing_idx, first, mid, last),
        ) == mid,
        LastDeltaFirstDeltaMid::last_of(
            LastDeltaFirstDeltaMid::layout(missing_idx, first, mid, last),
        ) == last,
        0 <= LastDeltaFirstDeltaMid::layout(missing_idx, first, mid, last) < pow2(125),
{
    lemma2_to64();
    let raw: int = LastDeltaFirstDeltaMid::layout(missing_idx, first, mid, last);
    let first_delta: Seq<int> = vec_sub(last, first);
    let mid_avg_delta: Seq<int> = mid_delta(first, mid, last);
    let top: int = triple(mid_avg_delta, 7);
    let upper: int = cat(triple(first_delta, 13), 39, top);
    let body: int = cat(triple(last, 21), 63, upper);
    lemma_triple_bound(mid_avg_delta, 7);
    lemma_triple_bound(first_delta, 13);
    lemma_triple_bound(last, 21);
    lemma_cat_bound(triple(first_delta, 13), 39, top, 21);
    lemma_cat_bound(triple(last, 21), 63, upper, 60);
    lemma_cat_bound(missing_idx, 2, body, 123);
    lemma_cat_split(missing_idx, 2, body);
    assert(above(raw, 0) == raw);
    lemma_fits_each(last, 21);
    lemma_fits_each(first_delta, 13);
    lemma_fits_each(mid_avg_delta, 7);
    lemma_untriple_triple(last, 21, upper);
    lemma_triple_fields(last, 21, upper);
    lemma_above_twice(raw, 2, 63);
    lemma_untriple_triple(first_delta, 13, top);
    lemma_triple_fields(first_delta, 13, top);
    lemma_above_twice(raw, 65, 39);
    lemma_untriple_triple(mid_avg_delta, 7, 0);
    assert(cat(top, 21, 0) == top);
    assert(LastDeltaFirstDeltaMid::last_of(raw) == last);
    assert(untriple(above(raw, 65), 13) == first_delta);
    assert(untriple(above(raw, 104), 7) == mid_avg_delta);
    assert(LastDeltaFirstDeltaMid::first_of(raw) =~= first);
    assert(LastDeltaFirstDeltaMid::mid_of(raw) =~= mid);
}

/// Unpacking a record that holds the first and the last sample in full gives
/// back the missing index, these two samples where they have 16-bit components,
/// and the middle sample less the two lowest bits of its difference from the
/// average where the record drops them.
pub proof fn lemma_first_last_round_trip(
    missing_idx: int,
    first: Seq<int>,
    mid: Seq<int>,
    last: Seq<int>,
)
    requires
        0 <= missing_idx < 4,
        first.len() == 3,
        mid.len() == 3,
        last.len() == 3,
        FirstLastDeltaMid::accepts(first, mid, last),
        vec_fits(first, 16),
        vec_fits(last, 16),
    ensures
        FirstLastDeltaMid::missing_idx_of(FirstLastDeltaMid::layout(missing_idx, first, mid, last))
            == missing_idx,
        FirstLastDeltaMid::first_of(FirstLastDeltaMid::layout(missing_idx, first, mid, last))
            == first,
        FirstLastDeltaMid::last_of(FirstLastDeltaMid::layout(missing_idx, first, mid, last))
            == last,
        FirstLastDeltaMid::additional_shift_of(
            FirstLastDeltaMid::layout(missing_idx, first, mid, last),
        ) == FirstLastDeltaMid::shifts(first, mid, last),
        !FirstLastDeltaMid::shifts(first, mid, last) ==> FirstLastDeltaMid::mid_of(
            FirstLastDeltaMid::layout(missing_idx, first, mid, last),
        ) == mid,
        forall|i: int|
            0 <= i < 3 ==> 0 <= mid[i] - (#[trigger] FirstLastDeltaMid::mid_of(
                FirstLastDeltaMid::layout(missing_idx, first, mid, last),
            )[i]) <= 3,
        0 <= FirstLastDeltaMid::layout(missing_idx, first, mid, last) < pow2(123),
{
    lemma2_to64();
    let raw: int = FirstLastDeltaMid::layout(missing_idx, first, mid, last);
    let shifts: bool = FirstLastDeltaMid::shifts(first, mid, last);
    let flag: int = if shifts {
        1
    } else {
        0
    };
    let delta: Seq<int> = mid_delta(first, mid, last);
    let stored: Seq<int> = FirstLastDeltaMid::stored_delta(first, mid, last);
    let top: int = triple(stored, 8);
    let upper: int = cat(triple(last, 16), 48, top);
    let body: int = cat(triple(first, 16), 48, upper);
    let tagged: int = cat(missing_idx, 2, body);
    lemma_triple_bound(stored, 8);
    lemma_triple_bound(last, 16);
    lemma_triple_bound(first, 16);
    lemma_cat_bound(triple(last, 16), 48, top, 24);
    lemma_cat_bound(triple(first, 16), 48, upper, 72);
    lemma_cat_bound(missing_idx, 2, body, 120);
    lemma_cat_bound(flag, 1, tagged, 122);
    lemma_cat_split(flag, 1, tagged);
    lemma_cat_split(missing_idx, 2, body);
    assert(above(raw, 0) == raw);
    lemma_above_twice(raw, 1, 2);
    lemma_fits_each(first, 16);
    lemma_fits_each(last, 16);
    assert(vec_fits(stored, 8));
    lemma_fits_each(stored, 8);
    lemma_untriple_triple(first, 16, upper);
    lemma_triple_fields(first, 16, upper);
    lemma_above_twice(raw, 3, 48);
    lemma_untriple_triple(last, 16, top);
    lemma_triple_fields(last, 16, top);
    lemma_above_twice(raw, 51, 48);
    lemma_untriple_triple(stored, 8, 0);
    assert(cat(top, 24, 0) == top);
    assert(FirstLastDeltaMid::first_of(raw) == first);
    assert(FirstLastDeltaMid::last_of(raw) == last);
    assert(untriple(above(raw, 99), 8) == stored);
    let back: Seq<int> = FirstLastDeltaMid::mid_of(raw);
    assert forall|i: int| 0 <= i < 3 implies 0 <= mid[i] - (#[trigger] back[i]) <= 3 && (!shifts
        ==> back[i] == mid[i]) by {
        assert(delta[i] == mid[i] - vec_avg(last, first)[i]);
        if shifts {
            assert(stored[i] == delta[i] / 4);
            assert(FirstLastDeltaMid::delta_of(raw)[i] == stored[i] * 4);
        } else {
            assert(FirstLastDeltaMid::delta_of(raw)[i] == delta[i]);
        }
    }
    if !shifts {
        assert(back =~= mid);
    }
}

/// A frame names its mode, and holds its record and its timestamp.
pub proof fn lemma_frame_round_trip(mode: QuaternionMode, payload: int, timestamp: Timestamp)
    requires
        0 <= payload < pow2(mode.payload_bits()),
        timestamp.wf(),
    ensures
        mode_of(frame_value(mode, payload, timestamp)) == mode,
        payload_of(frame_value(mode, payload, timestamp)) == payload,
        timestamp_of(frame_value(mode, payload, timestamp)) == timestamp.raw(),
        0 <= frame_value(mode, payload, timestamp) < pow2(2 + mode.payload_bits() + 17),
{
    lemma2_to64();
    let width: nat = mode.payload_bits();
    let upper: int = cat(payload, width, timestamp.raw());
    let frame: int = frame_value(mode, payload, timestamp);
    timestamp.lemma_raw_bound();
    lemma_cat_bound(payload, width, timestamp.raw(), 17);
    lemma_cat_bound(mode.code(), 2, upper, width + 17);
    lemma_cat_split(mode.code(), 2, upper);
    lemma_cat_split(payload, width, timestamp.raw());
    lemma_small(timestamp.raw(), 17);
    assert(above(frame, 0) == frame);
    lemma_above_twice(frame, 2, width);
}

/// The layout with the last sample in full is chosen wherever it accepts the
/// samples; each sample is held on its own exactly where neither of the other
/// two layouts takes the samples.
pub proof fn lemma_mode_choice(first: Seq<int>, mid: Seq<int>, last: Seq<int>)
    ensures
        ({
            let idx = max_abs_index(mid);
            let fine = LastDeltaFirstDeltaMid::accepts(
                sample(first, idx, FP20),
                sample(mid, idx, FP20),
                sample(last, idx, FP20),
            );
            let coarse = tries_first_last(first, last, idx) && FirstLastDeltaMid::accepts(
                sample(first, idx, FP15),
                sample(mid, idx, FP15),
                sample(last, idx, FP15),
            );
            let mode = chosen_mode(first, mid, last);
            &&& fine <==> mode == QuaternionMode::LastDeltaFirstDeltaMid
            &&& !fine && coarse <==> mode == QuaternionMode::FirstLastDeltaMid
            &&& !fine && !coarse <==> mode == QuaternionMode::Individual
            &&& mode != QuaternionMode::Unknown
        }),
{
}

/// The mode of a frame is in the two lowest bits of its first byte.
pub proof fn lemma_mode_bits(bytes: Seq<u8>)
    requires
        bytes.len() >= 1,
    ensures
        field(le_value(bytes) as int, 0, 2) == bytes[0] % 4,
{
    lemma2_to64();
    let v: int = le_value(bytes) as int;
    assert(above(v, 0) == v);
    assert(v == bytes[0] + 256 * le_value(bytes.drop_first()));
}

/// In a frame of 18 bytes whose value lies below two to the power 142 the two
/// highest bits of the last byte are zero.
pub proof fn lemma_slack_zero(bytes: Seq<u8>)
    requires
        bytes.len() == 18,
        le_value(bytes) < pow2(142),
    ensures
        bytes[17] < 64,
{
    lemma2_to64();
    let v: int = le_value(bytes) as int;
    lemma_le_value_byte(bytes, 17);
    lemma_cat_of_parts(v, 136);
    lemma_pow2_adds(136, 6);
    lemma_pow2_pos(136);
    let top: int = above(v, 136);
    let p: int = pow2(136) as int;
    if top >= 64 {
        assert(p * top >= p * 64) by (nonlinear_arith)
            requires
                top >= 64,
                p > 0,
        ;
    }
    vstd::arithmetic::div_mod::lemma_div_pos_is_pos(v, p);
    lemma_small(top, 8);
}

/// A field that lies within the low `n` bits of a value is a field of these low
/// bits.
pub proof fn lemma_field_of_low(v: int, n: nat, start: nat, width: nat)
    requires
        0 <= v,
        start + width <= n,
    ensures
        field(v, start, width) == field(low(v, n), start, width),
{
    let l: int = low(v, n);
    let h: int = above(v, n);
    lemma_cat_of_parts(v, n);
    lemma_pow2_pos(start);
    lemma_pow2_pos(width);
    let ps: int = pow2(start) as int;
    let pw: int = pow2(width) as int;
    let pr: int = pow2((n - start - width) as nat) as int;
    lemma_pow2_adds(start, (n - start) as nat);
    lemma_pow2_adds(width, (n - start - width) as nat);
    lemma_fundamental_div_mod(l, ps);
    lemma_mod_bound(l, ps);
    let q: int = l / ps;
    let r: int = l % ps;
    assert(v == (q + pw * pr * h) * ps + r) by (nonlinear_arith)
        requires
            v == l + (ps * (pw * pr)) * h,
            l == ps * q + r,
    ;
    lemma_fundamental_div_mod_converse(v, ps, q + pw * pr * h, r);
    assert(pw * pr * h == pw * (pr * h)) by (nonlinear_arith);
    lemma_mod_multiples_vanish(pr * h, q, pw);
}

/// Two frames whose values agree below the end of the timestamp name one mode
/// and hold the same record, timestamp and samples: what is above the
/// timestamp is not read.
pub proof fn lemma_slack_ignored(a: int, b: int)
    requires
        0 <= a,
        0 <= b,
        low(a, 2 + mode_of(a).payload_bits() + 17) == low(b, 2 + mode_of(a).payload_bits() + 17),
    ensures
        mode_of(a) == mode_of(b),
        payload_of(a) == payload_of(b),
        timestamp_of(a) == timestamp_of(b),
        forall|i: nat| i < 3 ==> #[trigger] sample_of(a, i) == sample_of(b, i),
{
    let width: nat = mode_of(a).payload_bits();
    let n: nat = 2 + width + 17;
    lemma_field_of_low(a, n, 0, 2);
    lemma_field_of_low(b, n, 0, 2);
    lemma_field_of_low(a, n, 2, width);
    lemma_field_of_low(b, n, 2, width);
    lemma_field_of_low(a, n, 2 + width, 17);
    lemma_field_of_low(b, n, 2 + width, 17);
    assert forall|i: nat| i < 3 implies #[trigger] sample_of(a, i) == sample_of(b, i) by {
        assert(components_of(a, i) == components_of(b, i));
        assert(missing_idx_of(a, i) == missing_idx_of(b, i));
    }
}

/// The value of a byte string is the value of its first `k` bytes with the value
/// of the rest above it.
pub proof fn lemma_le_value_split(bytes: Seq<u8>, k: nat)
    requires
        k <= bytes.len(),
    ensures
        le_value(bytes) == cat(le_value(bytes.take(k as int)) as int, 8 * k, le_value(
            bytes.skip(k as int),
        ) as int),
    decreases k,
{
    lemma2_to64();
    if k == 0 {
        assert(bytes.skip(0) =~= bytes);
        assert(bytes.take(0).len() == 0);
        assert(le_value(bytes.take(0)) == 0);
    } else {
        let tail: Seq<u8> = bytes.drop_first();
        let front: Seq<u8> = bytes.take(k as int);
        lemma_le_value_split(tail, (k - 1) as nat);
        assert(front.drop_first() =~= tail.take(k - 1));
        assert(bytes.skip(k as int) =~= tail.skip(k - 1));
        assert(front[0] == bytes[0]);
        let head: int = le_value(tail.take(k - 1)) as int;
        let rest: int = le_value(tail.skip(k - 1)) as int;
        let p: int = pow2((8 * (k - 1)) as nat) as int;
        lemma_pow2_adds(8, (8 * (k - 1)) as nat);
        assert(8 + (8 * (k - 1)) as nat == 8 * k);
        assert(pow2(8 * k) == 256 * p);
        assert(le_value(bytes) == bytes[0] + 256 * le_value(tail));
        assert(le_value(tail) == head + p * rest);
        assert(le_value(front) == front[0] + 256 * le_value(front.drop_first()));
        assert(le_value(front) == bytes[0] + 256 * head);
        assert(bytes[0] + 256 * (head + p * rest) == (bytes[0] + 256 * head) + (256 * p) * rest)
            by (nonlinear_arith);
    }
}

/// Of a frame that does not hold the last sample in full, the two highest bits
/// of the last byte are not read: two such frames that differ in nothing else
/// hold the same mode, timestamp and samples.
pub proof fn lemma_slack_bits_ignored(a: Seq<u8>, b: Seq<u8>)
    requires
        a.len() == 18,
        b.len() == 18,
        forall|i: int| 0 <= i < 17 ==> a[i] == b[i],
        a[17] % 64 == b[17] % 64,
        mode_of(le_value(a) as int) != QuaternionMode::LastDeltaFirstDeltaMid,
    ensures
        mode_of(le_value(a) as int) == mode_of(le_value(b) as int),
        timestamp_of(le_value(a) as int) == timestamp_of(le_value(b) as int),
        forall|i: nat|
            i < 3 ==> #[trigger] sample_of(le_value(a) as int, i) == sample_of(
                le_value(b) as int,
                i,
            ),
{
    lemma2_to64();
    lemma_low_142(a);
    lemma_low_142(b);
    assert(a.take(17) =~= b.take(17));
    lemma_slack_ignored(le_value(a) as int, le_value(b) as int);
}

/// The low 142 bits of a frame are its first 17 bytes and the low six bits of
/// the last one.
pub proof fn lemma_low_142(bytes: Seq<u8>)
    requires
        bytes.len() == 18,
    ensures
        low(le_value(bytes) as int, 142) == cat(
            le_value(bytes.take(17)) as int,
            136,
            (bytes[17] % 64) as int,
        ),
{
    lemma2_to64();
    lemma_le_value_split(bytes, 17);
    let head: int = le_value(bytes.take(17)) as int;
    let last: Seq<u8> = bytes.skip(17);
    assert(last.len() == 1);
    assert(last.drop_first().len() == 0);
    assert(le_value(last) == last[0] + 256 * le_value(last.drop_first()));
    assert(le_value(last) == bytes[17]);
    lemma_le_value_bound(bytes.take(17));
    lemma_pow2_adds(136, 6);
    let p: int = pow2(136) as int;
    let top: int = bytes[17] as int;
    lemma_cat_bound(head, 136, top % 64, 6);
    assert(head + p * top == (top / 64) * (p * 64) + (head + p * (top % 64))) by (nonlinear_arith)
        requires
            top == 64 * (top / 64) + top % 64,
    ;
    lemma_fundamental_div_mod_converse(
        le_value(bytes) as int,
        pow2(142) as int,
        top / 64,
        head + p * (top % 64),
    );
}

} // verus!
