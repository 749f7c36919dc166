//! Frames: the choice of a layout for three samples, and the way back.

use vstd::prelude::*;
use vstd::arithmetic::power2::*;
use crate::bit_field::{
    above, cat, field, le_value, lemma_append_field, lemma_cat_regroup, lemma_cat_split,
    lemma_le_value_zero, BilgeBitvecExt,
};
use crate::laws::{lemma_mode_bits, lemma_slack_zero};
use crate::fixed_point::{
    abs, is_precision, lemma_scale_values, magnitude, FP12, FP15, FP20, HALF,
};
use crate::quat::{
    dequantize, elide, max_abs_index, quantize, rebuild, vec_within, Quat3, Quaternion,
    RoundedQuat3,
};
use crate::types::{
    FirstLastDeltaMid, Individual, IndividualCompress, LastDeltaFirstDeltaMid, QuaternionMode,
    Timestamp, PACK_LIMIT,
};

verus! {

/// The three components of `q` that are stored when component `idx` is missing,
/// at `frac` fractional bits.
pub open spec fn sample(q: Seq<int>, idx: int, frac: u32) -> Seq<int> {
    quantize(elide(q, idx), frac)
}

/// Whether the layout with the first and the last sample in full is tried: in
/// both of them the component that is missing has a magnitude above one half.
pub open spec fn tries_first_last(first: Seq<int>, last: Seq<int>, idx: int) -> bool {
    magnitude(first[idx]) > HALF && magnitude(last[idx]) > HALF
}

/// The layout that three samples are written in. The most precise one is taken
/// where its differences are small enough, then the one with the first and the
/// last sample in full where it is tried and accepts, else the one that holds
/// each sample on its own.
pub open spec fn chosen_mode(first: Seq<int>, mid: Seq<int>, last: Seq<int>) -> QuaternionMode {
    let idx = max_abs_index(mid);
    if LastDeltaFirstDeltaMid::accepts(
        sample(first, idx, FP20),
        sample(mid, idx, FP20),
        sample(last, idx, FP20),
    ) {
        QuaternionMode::LastDeltaFirstDeltaMid
    } else if tries_first_last(first, last, idx) && FirstLastDeltaMid::accepts(
        sample(first, idx, FP15),
        sample(mid, idx, FP15),
        sample(last, idx, FP15),
    ) {
        QuaternionMode::FirstLastDeltaMid
    } else {
        QuaternionMode::Individual
    }
}

/// One sample on its own, with its own largest component missing.
pub open spec fn individual_sample(q: Seq<int>) -> int {
    IndividualCompress::layout(max_abs_index(q), sample(q, max_abs_index(q), FP12))
}

/// The record that three samples are written as. In the two layouts with
/// differences the largest component of the middle sample is missing from all
/// three.
pub open spec fn chosen_payload(first: Seq<int>, mid: Seq<int>, last: Seq<int>) -> int {
    let idx = max_abs_index(mid);
    match chosen_mode(first, mid, last) {
        QuaternionMode::LastDeltaFirstDeltaMid => LastDeltaFirstDeltaMid::layout(
            idx,
            sample(first, idx, FP20),
            sample(mid, idx, FP20),
            sample(last, idx, FP20),
        ),
        QuaternionMode::FirstLastDeltaMid => FirstLastDeltaMid::layout(
            idx,
            sample(first, idx, FP15),
            sample(mid, idx, FP15),
            sample(last, idx, FP15),
        ),
        _ => Individual::layout(
            individual_sample(first),
            individual_sample(mid),
            individual_sample(last),
        ),
    }
}

/// The little-endian value of the frame with the mode, the record and the
/// timestamp: the mode in the lowest two bits, the record above it, the timestamp
/// above the record, and zero above the timestamp.
pub open spec fn frame_value(mode: QuaternionMode, payload: int, timestamp: Timestamp) -> int {
    cat(mode.code(), 2, cat(payload, mode.payload_bits(), timestamp.raw()))
}

/// The mode that a frame of the value `frame` names.
pub open spec fn mode_of(frame: int) -> QuaternionMode {
    let code = field(frame, 0, 2);
    if code == 0 {
        QuaternionMode::Individual
    } else if code == 1 {
        QuaternionMode::FirstLastDeltaMid
    } else if code == 2 {
        QuaternionMode::LastDeltaFirstDeltaMid
    } else {
        QuaternionMode::Unknown
    }
}

/// The record of a frame of the value `frame`.
pub open spec fn payload_of(frame: int) -> int {
    field(frame, 2, mode_of(frame).payload_bits())
}

/// The timestamp of a frame of the value `frame`, as the integer of its record.
pub open spec fn timestamp_of(frame: int) -> int {
    field(frame, 2 + mode_of(frame).payload_bits(), 17)
}

/// The index of the component that is missing from sample `i` of a frame.
pub open spec fn missing_idx_of(frame: int, i: nat) -> int {
    let payload = payload_of(frame);
    match mode_of(frame) {
        QuaternionMode::LastDeltaFirstDeltaMid => LastDeltaFirstDeltaMid::missing_idx_of(payload),
        QuaternionMode::FirstLastDeltaMid => FirstLastDeltaMid::missing_idx_of(payload),
        _ => IndividualCompress::missing_idx_of(Individual::sample_of(payload, i)),
    }
}

/// The three stored components of sample `i` of a frame, at 30 fractional bits.
pub open spec fn components_of(frame: int, i: nat) -> Seq<int> {
    let payload = payload_of(frame);
    match mode_of(frame) {
        QuaternionMode::LastDeltaFirstDeltaMid => dequantize(
            if i == 0 {
                LastDeltaFirstDeltaMid::first_of(payload)
            } else if i == 1 {
                LastDeltaFirstDeltaMid::mid_of(payload)
            } else {
                LastDeltaFirstDeltaMid::last_of(payload)
            },
            FP20,
        ),
        QuaternionMode::FirstLastDeltaMid => dequantize(
            if i == 0 {
                FirstLastDeltaMid::first_of(payload)
            } else if i == 1 {
                FirstLastDeltaMid::mid_of(payload)
            } else {
                FirstLastDeltaMid::last_of(payload)
            },
            FP15,
        ),
        _ => dequantize(
            IndividualCompress::components_of(Individual::sample_of(payload, i)),
            FP12,
        ),
    }
}

/// Sample `i` of a frame of the value `frame`: its stored components with the
/// missing one filled in.
pub open spec fn sample_of(frame: int, i: nat) -> Seq<int> {
    rebuild(components_of(frame, i), missing_idx_of(frame, i))
}

/// Writes the mode, the record and the timestamp, one above the other, into a
/// frame of zeros.
pub fn write_frame<P: BilgeBitvecExt>(mode: QuaternionMode, payload: P, timestamp: Timestamp) -> (res:
    [u8; 18])
    requires
        P::width() == mode.payload_bits(),
        payload.wf(),
        timestamp.wf(),
    ensures
        le_value(res@) == frame_value(mode, payload.raw(), timestamp),
        le_value(res@) < pow2(2 + mode.payload_bits() + 17),
{
    let mut res: [u8; 18] = [0u8; 18];
    let ghost width: nat = P::width();
    proof {
        lemma2_to64();
        payload.lemma_raw_bound();
        timestamp.lemma_raw_bound();
        lemma_le_value_zero(res@);
        lemma_append_field(0, 0, mode.code(), 2);
        lemma_append_field(mode.code(), 2, payload.raw(), width);
        lemma_append_field(cat(mode.code(), 2, payload.raw()), 2 + width, timestamp.raw(), 17);
        lemma_cat_regroup(mode.code(), 2, payload.raw(), width, timestamp.raw());
    }
    let at: usize = mode.write_slice(&mut res, 0);
    let at: usize = payload.write_slice(&mut res, at);
    let _: usize = timestamp.write_slice(&mut res, at);
    res
}

/// Encodes three quaternions `[first, mid, last]` and a timestamp as the sensor
/// does.
///
/// The frame is given by its little-endian value, which fixes all of its 18
/// bytes: the mode that `chosen_mode` names in the two lowest bits, the record of
/// `chosen_payload` above it, then the timestamp, and zero in what is left.
pub fn compress_quaternion_triplet(input: &[Quaternion; 3], timestamp: Timestamp) -> (res: [u8; 18])
    requires
        input[0].in_range(),
        input[1].in_range(),
        input[2].in_range(),
        timestamp.wf(),
    ensures
        le_value(res@) == frame_value(
            chosen_mode(input[0]@, input[1]@, input[2]@),
            chosen_payload(input[0]@, input[1]@, input[2]@),
            timestamp,
        ),
        mode_of(le_value(res@) as int) == chosen_mode(input[0]@, input[1]@, input[2]@),
        le_value(res@) < pow2(
            2 + chosen_mode(input[0]@, input[1]@, input[2]@).payload_bits() + 17,
        ),
        res[0] % 4 == chosen_mode(input[0]@, input[1]@, input[2]@).code(),
        chosen_mode(input[0]@, input[1]@, input[2]@) != QuaternionMode::LastDeltaFirstDeltaMid
            ==> res[17] < 64,
{
    let max_idx: usize = input[1].max_abs_idx();
    let missing_idx: u8 = max_idx as u8;
    let first: Quat3 = input[0].to_quat3(max_idx);
    let mid: Quat3 = input[1].to_quat3(max_idx);
    let last: Quat3 = input[2].to_quat3(max_idx);
    proof {
        lemma_scale_values();
        lemma2_to64();
    }
    let fine: [RoundedQuat3<FP20>; 3] = [
        RoundedQuat3::from(first),
        RoundedQuat3::from(mid),
        RoundedQuat3::from(last),
    ];
    proof {
        lemma_rounded_within(first, FP20);
        lemma_rounded_within(mid, FP20);
        lemma_rounded_within(last, FP20);
    }
    let res: [u8; 18] = match LastDeltaFirstDeltaMid::pack(missing_idx, fine) {
        Some(data) => write_frame(QuaternionMode::LastDeltaFirstDeltaMid, data, timestamp),
        None => {
            let coarse: Option<FirstLastDeltaMid> = if abs(input[0].0[max_idx]) > HALF && abs(
                input[2].0[max_idx],
            ) > HALF {
                proof {
                    lemma_rounded_within(first, FP15);
                    lemma_rounded_within(mid, FP15);
                    lemma_rounded_within(last, FP15);
                }
                FirstLastDeltaMid::pack(
                    missing_idx,
                    [RoundedQuat3::from(first), RoundedQuat3::from(mid), RoundedQuat3::from(last)],
                )
            } else {
                None
            };
            match coarse {
                Some(data) => write_frame(QuaternionMode::FirstLastDeltaMid, data, timestamp),
                None => {
                    let data: Individual = Individual::new(
                        [
                            pack_individual(&input[0]),
                            pack_individual(&input[1]),
                            pack_individual(&input[2]),
                        ],
                    );
                    write_frame(QuaternionMode::Individual, data, timestamp)
                },
            }
        },
    };
    proof {
        let frame: int = le_value(res@) as int;
        let mode: QuaternionMode = chosen_mode(input[0]@, input[1]@, input[2]@);
        lemma_cat_split(
            mode.code(),
            2,
            cat(
                chosen_payload(input[0]@, input[1]@, input[2]@),
                mode.payload_bits(),
                timestamp.raw(),
            ),
        );
        assert(above(frame, 0) == frame);
        lemma_mode_bits(res@);
        if mode != QuaternionMode::LastDeltaFirstDeltaMid {
            lemma_slack_zero(res@);
        }
    }
    res
}

/// One sample on its own: its largest component is dropped and the rest rounded
/// to 12 fractional bits.
pub fn pack_individual(q: &Quaternion) -> (r: IndividualCompress)
    requires
        q.in_range(),
    ensures
        r@ == individual_sample(q@),
        r.wf(),
{
    let max_idx: usize = q.max_abs_idx();
    let quat3: Quat3 = q.to_quat3(max_idx);
    let rounded: RoundedQuat3<FP12> = RoundedQuat3::from(quat3);
    IndividualCompress::pack(max_idx as u8, rounded)
}

/// Components in range stay well within the packing limit when they are rounded.
pub proof fn lemma_rounded_within(q: Quat3, frac: u32)
    requires
        q.in_range(),
        is_precision(frac),
    ensures
        vec_within(quantize(q@, frac), PACK_LIMIT as int),
{
    lemma_scale_values();
    assert(q.0[0] == q@[0] && q.0[1] == q@[1] && q.0[2] == q@[2]);
}

/// The three quaternions of a record that holds each sample on its own.
pub fn decode_individual(data: Individual) -> (r: [Quaternion; 3])
    ensures
        forall|i: nat|
            i < 3 ==> (#[trigger] r[i as int])@ == rebuild(
                dequantize(
                    IndividualCompress::components_of(Individual::sample_of(data@, i)),
                    FP12,
                ),
                IndividualCompress::missing_idx_of(Individual::sample_of(data@, i)),
            ),
{
    proof {
        lemma2_to64();
        lemma_scale_values();
    }
    let samples: [IndividualCompress; 3] = data.val_0();
    let (idx0, c0) = samples[0].unpack();
    let (idx1, c1) = samples[1].unpack();
    let (idx2, c2) = samples[2].unpack();
    let q0: Quaternion = Quaternion::reconstruct(Quat3::from(c0), idx0 as usize);
    let q1: Quaternion = Quaternion::reconstruct(Quat3::from(c1), idx1 as usize);
    let q2: Quaternion = Quaternion::reconstruct(Quat3::from(c2), idx2 as usize);
    [q0, q1, q2]
}

/// The three quaternions of a record that holds the first and the last sample
/// in full.
pub fn decode_first_last(data: FirstLastDeltaMid) -> (r: [Quaternion; 3])
    ensures
        r[0]@ == rebuild(
            dequantize(FirstLastDeltaMid::first_of(data@), FP15),
            FirstLastDeltaMid::missing_idx_of(data@),
        ),
        r[1]@ == rebuild(
            dequantize(FirstLastDeltaMid::mid_of(data@), FP15),
            FirstLastDeltaMid::missing_idx_of(data@),
        ),
        r[2]@ == rebuild(
            dequantize(FirstLastDeltaMid::last_of(data@), FP15),
            FirstLastDeltaMid::missing_idx_of(data@),
        ),
{
    proof {
        lemma2_to64();
        lemma_scale_values();
    }
    let (idx, samples) = data.unpack();
    let q0: Quaternion = Quaternion::reconstruct(Quat3::from(samples[0]), idx as usize);
    let q1: Quaternion = Quaternion::reconstruct(Quat3::from(samples[1]), idx as usize);
    let q2: Quaternion = Quaternion::reconstruct(Quat3::from(samples[2]), idx as usize);
    [q0, q1, q2]
}

/// The three quaternions of a record that holds the last sample in full.
pub fn decode_last_delta(data: LastDeltaFirstDeltaMid) -> (r: [Quaternion; 3])
    ensures
        r[0]@ == rebuild(
            dequantize(LastDeltaFirstDeltaMid::first_of(data@), FP20),
            LastDeltaFirstDeltaMid::missing_idx_of(data@),
        ),
        r[1]@ == rebuild(
            dequantize(LastDeltaFirstDeltaMid::mid_of(data@), FP20),
            LastDeltaFirstDeltaMid::missing_idx_of(data@),
        ),
        r[2]@ == rebuild(
            dequantize(LastDeltaFirstDeltaMid::last_of(data@), FP20),
            LastDeltaFirstDeltaMid::missing_idx_of(data@),
        ),
{
    proof {
        lemma2_to64();
        lemma_scale_values();
    }
    let (idx, samples) = data.unpack();
    let q0: Quaternion = Quaternion::reconstruct(Quat3::from(samples[0]), idx as usize);
    let q1: Quaternion = Quaternion::reconstruct(Quat3::from(samples[1]), idx as usize);
    let q2: Quaternion = Quaternion::reconstruct(Quat3::from(samples[2]), idx as usize);
    [q0, q1, q2]
}

impl Quaternion {
    /// Decodes the three quaternions `[first, mid, last]` and the timestamp of a
    /// frame. A frame whose two lowest bits are both set names no layout and
    /// holds nothing; every other frame is decoded, whatever its bits. The bits
    /// above the timestamp are not read.
    pub fn parse(bytes: [u8; 18]) -> (r: Option<([Quaternion; 3], Timestamp)>)
        ensures
            r.is_none() <==> field(le_value(bytes@) as int, 0, 2) == 3,
            r.is_none() <==> bytes[0] % 4 == 3,
            r matches Some((quats, timestamp)) ==> {
                &&& quats[0]@ == sample_of(le_value(bytes@) as int, 0)
                &&& quats[1]@ == sample_of(le_value(bytes@) as int, 1)
                &&& quats[2]@ == sample_of(le_value(bytes@) as int, 2)
                &&& timestamp.raw() == timestamp_of(le_value(bytes@) as int)
                &&& timestamp.wf()
            },
    {
        let ghost frame: int = le_value(bytes@) as int;
        proof {
            lemma2_to64();
            lemma_mode_bits(bytes@);
        }
        let (mode, at) = QuaternionMode::read(&bytes, 0);
        assert(mode == mode_of(frame));
        match mode {
            QuaternionMode::Individual => {
                let (data, next) = Individual::read(&bytes, at);
                let quats: [Quaternion; 3] = decode_individual(data);
                let (timestamp, _) = Timestamp::read(&bytes, next);
                Some((quats, timestamp))
            },
            QuaternionMode::FirstLastDeltaMid => {
                let (data, next) = FirstLastDeltaMid::read(&bytes, at);
                let quats: [Quaternion; 3] = decode_first_last(data);
                let (timestamp, _) = Timestamp::read(&bytes, next);
                Some((quats, timestamp))
            },
            QuaternionMode::LastDeltaFirstDeltaMid => {
                let (data, next) = LastDeltaFirstDeltaMid::read(&bytes, at);
                let quats: [Quaternion; 3] = decode_last_delta(data);
                let (timestamp, _) = Timestamp::read(&bytes, next);
                Some((quats, timestamp))
            },
            QuaternionMode::Unknown => None,
        }
    }
}

} // verus!
