//! The records of the wire format.
//!
//! A frame holds, from its lowest bit up:
//!  - 2 bits for the quaternion mode,
//!  - 123 or 125 bits for a record that depends on the mode,
//!  - 17 bits for the timestamp.
//! Each record is one integer whose fields are laid out from its lowest bit up,
//! in the order in which this file names them.

use vstd::prelude::*;
use vstd::arithmetic::div_mod::lemma_mod_bound;
use vstd::arithmetic::power2::*;
use crate::bit_field::{
    above, cat, field, join, lemma_above_twice, lemma_cat_bound, lemma_embed_extract,
    lemma_pow2_le, pack3, split, triple, unpack3, untriple, BilgeBitvecExt,
};
use crate::fixed_point::{FP12, FP15, FP20};
use crate::quat::{quarter, vec_add, vec_avg, vec_fits, vec_sub, vec_within, RoundedQuat3};

verus! {

/// Largest magnitude of the components handed to a delta layout: sums and
/// differences of two such numbers stay within 32 bits.
pub const PACK_LIMIT: i32 = 0x2000_0000;

/// Which record follows the mode in a frame.
#[derive(Clone, Copy, Debug, PartialEq, Eq)]
pub enum QuaternionMode {
    /// Each sample on its own, at 12 fractional bits.
    Individual,
    /// The first and the last sample in full, at 15 fractional bits.
    FirstLastDeltaMid,
    /// The last sample in full, at 20 fractional bits.
    LastDeltaFirstDeltaMid,
    /// No layout. The encoder never writes it; a frame that names it cannot be
    /// decoded.
    Unknown,
}

impl QuaternionMode {
    /// The two bits that stand for the mode.
    pub open spec fn code(self) -> int {
        match self {
            QuaternionMode::Individual => 0,
            QuaternionMode::FirstLastDeltaMid => 1,
            QuaternionMode::LastDeltaFirstDeltaMid => 2,
            QuaternionMode::Unknown => 3,
        }
    }

    /// The number of bits of the record that follows the mode.
    pub open spec fn payload_bits(self) -> nat {
        match self {
            QuaternionMode::LastDeltaFirstDeltaMid => 125,
            _ => 123,
        }
    }
}

impl BilgeBitvecExt for QuaternionMode {
    open spec fn width() -> nat {
        2
    }

    open spec fn raw(&self) -> int {
        self.code()
    }

    open spec fn wf(&self) -> bool {
        true
    }

    proof fn lemma_raw_bound(&self) {
        lemma2_to64();
    }

    fn bits() -> (r: usize) {
        2
    }

    fn into_raw(self) -> (r: u128) {
        match self {
            QuaternionMode::Individual => 0,
            QuaternionMode::FirstLastDeltaMid => 1,
            QuaternionMode::LastDeltaFirstDeltaMid => 2,
            QuaternionMode::Unknown => 3,
        }
    }

    fn from_raw(raw: u128) -> (r: Self) {
        proof {
            lemma2_to64();
        }
        if raw == 0 {
            QuaternionMode::Individual
        } else if raw == 1 {
            QuaternionMode::FirstLastDeltaMid
        } else if raw == 2 {
            QuaternionMode::LastDeltaFirstDeltaMid
        } else {
            QuaternionMode::Unknown
        }
    }
}

/// The two counters that close a frame: 11 bits, then 6 bits.
#[derive(Clone, Copy, Debug, PartialEq, Eq)]
pub struct Timestamp {
    /// The first counter, of 11 bits.
    pub start: u16,
    /// The second counter, of 6 bits.
    pub count: u8,
}

impl Timestamp {
    /// The timestamp with the two counters.
    pub fn new(start: u16, count: u8) -> (r: Self)
        requires
            start < 2048,
            count < 64,
        ensures
            r.wf(),
            r.start == start,
            r.count == count,
    {
        Timestamp { start, count }
    }

    /// The first counter.
    pub fn start(&self) -> (r: u16)
        ensures
            r == self.start,
    {
        self.start
    }

    /// The second counter.
    pub fn count(&self) -> (r: u8)
        ensures
            r == self.count,
    {
        self.count
    }
}

impl BilgeBitvecExt for Timestamp {
    open spec fn width() -> nat {
        17
    }

    open spec fn raw(&self) -> int {
        cat(self.start as int, 11, self.count as int)
    }

    open spec fn wf(&self) -> bool {
        self.start < 2048 && self.count < 64
    }

    proof fn lemma_raw_bound(&self) {
        lemma2_to64();
    }

    fn bits() -> (r: usize) {
        17
    }

    fn into_raw(self) -> (r: u128) {
        proof {
            lemma2_to64();
        }
        self.start as u128 + 2048 * (self.count as u128)
    }

    fn from_raw(raw: u128) -> (r: Self) {
        proof {
            lemma2_to64();
        }
        Timestamp { start: (raw % 2048) as u16, count: (raw / 2048) as u8 }
    }
}

/// One sample on its own: which component is missing, then the other three at
/// 12 fractional bits in 13 bits each.
#[derive(Clone, Copy, Debug)]
pub struct IndividualCompress {
    pub raw: u128,
}

impl View for IndividualCompress {
    type V = int;

    open spec fn view(&self) -> int {
        self.raw as int
    }
}

impl IndividualCompress {
    /// The record of a missing index and three components.
    pub open spec fn layout(missing_idx: int, data: Seq<int>) -> int {
        cat(missing_idx, 2, triple(data, 13))
    }

    /// The missing index that a record holds.
    pub open spec fn missing_idx_of(raw: int) -> int {
        field(raw, 0, 2)
    }

    /// The components that a record holds.
    pub open spec fn components_of(raw: int) -> Seq<int> {
        untriple(above(raw, 2), 13)
    }

    /// Lays out the missing index and the components. A component that is no
    /// 13-bit number loses its high bits.
    pub fn pack(missing_idx: u8, data: RoundedQuat3<FP12>) -> (r: Self)
        requires
            missing_idx < 4,
        ensures
            r@ == Self::layout(missing_idx as int, data@),
            r.wf(),
    {
        let body: u128 = pack3::<13>(data.into_fields());
        proof {
            lemma2_to64();
            lemma_pow2_le(39, 126);
            lemma_cat_bound(missing_idx as int, 2, body as int, 39);
            assert(data@ =~= seq![
                data.value[0] as int,
                data.value[1] as int,
                data.value[2] as int,
            ]);
        }
        IndividualCompress { raw: join(missing_idx as u128, 2, body) }
    }

    /// The missing index and the components that the record holds.
    pub fn unpack(self) -> (r: (u8, RoundedQuat3<FP12>))
        ensures
            r.0 == Self::missing_idx_of(self@),
            r.0 < 4,
            r.1@ == Self::components_of(self@),
            vec_fits(r.1@, 13),
    {
        let data: RoundedQuat3<FP12> = vector_at::<13, FP12>(self.raw, 2);
        let (idx, _) = split(self.raw, 2);
        proof {
            lemma2_to64();
            assert(above(self@, 0) == self@);
        }
        (idx as u8, data)
    }
}

/// What is left of `raw` above its low `start` bits.
pub fn drop_bits(raw: u128, start: u32) -> (r: u128)
    requires
        start < 126,
    ensures
        r == above(raw as int, start as nat),
{
    if start < 63 {
        let (_, rest) = split(raw, start);
        rest
    } else {
        let (_, upper) = split(raw, 63);
        let (_, rest) = split(upper, start - 63);
        proof {
            lemma_above_twice(raw as int, 63, (start - 63) as nat);
        }
        rest
    }
}

/// The vector stored in the three fields of `WIDTH` bits that start at bit
/// `start` of `raw`.
pub fn vector_at<const WIDTH: u32, const FRAC: u32>(raw: u128, start: u32) -> (r: RoundedQuat3<
    FRAC,
>)
    requires
        1 <= WIDTH <= 32,
        start < 126,
    ensures
        r@ == untriple(above(raw as int, start as nat), WIDTH as nat),
        vec_fits(r@, WIDTH as nat),
{
    let rest: u128 = drop_bits(raw, start);
    let (fields, _) = unpack3::<WIDTH>(rest);
    let r: RoundedQuat3<FRAC> = RoundedQuat3::from_fields(fields);
    proof {
        lemma_untriple_fits(rest as int, WIDTH as nat);
        assert(r@ =~= untriple(rest as int, WIDTH as nat));
    }
    r
}

/// Whatever three fields of `width` bits hold, the numbers read from them fit
/// `width` bits.
pub proof fn lemma_untriple_fits(raw: int, width: nat)
    requires
        1 <= width,
    ensures
        vec_fits(untriple(raw, width), width),
{
    lemma_pow2_pos(width);
    lemma_mod_bound(above(raw, 0), pow2(width) as int);
    lemma_mod_bound(above(raw, width), pow2(width) as int);
    lemma_mod_bound(above(raw, 2 * width), pow2(width) as int);
    lemma_embed_extract(field(raw, 0, width), width);
    lemma_embed_extract(field(raw, width, width), width);
    lemma_embed_extract(field(raw, 2 * width, width), width);
}

impl BilgeBitvecExt for IndividualCompress {
    open spec fn width() -> nat {
        41
    }

    open spec fn raw(&self) -> int {
        self@
    }

    open spec fn wf(&self) -> bool {
        0 <= self@ < pow2(41)
    }

    proof fn lemma_raw_bound(&self) {
    }

    fn bits() -> (r: usize) {
        41
    }

    fn into_raw(self) -> (r: u128) {
        self.raw
    }

    fn from_raw(raw: u128) -> (r: Self) {
        IndividualCompress { raw }
    }
}

/// Three samples, each on its own.
#[derive(Clone, Copy, Debug)]
pub struct Individual {
    pub raw: u128,
}

impl View for Individual {
    type V = int;

    open spec fn view(&self) -> int {
        self.raw as int
    }
}

impl Individual {
    /// The record of three samples.
    pub open spec fn layout(first: int, mid: int, last: int) -> int {
        cat(first, 41, cat(mid, 41, last))
    }

    /// The sample at `index` of a record.
    pub open spec fn sample_of(raw: int, index: nat) -> int {
        field(raw, 41 * index, 41)
    }

    /// Lays out three samples in their order.
    pub fn new(samples: [IndividualCompress; 3]) -> (r: Self)
        requires
            samples[0].wf(),
            samples[1].wf(),
            samples[2].wf(),
        ensures
            r@ == Self::layout(samples[0]@, samples[1]@, samples[2]@),
            r.wf(),
    {
        proof {
            lemma_cat_bound(samples[1]@, 41, samples[2]@, 41);
            lemma_cat_bound(samples[0]@, 41, cat(samples[1]@, 41, samples[2]@), 82);
            lemma_pow2_le(41, 87);
            lemma_pow2_le(82, 87);
        }
        let upper: u128 = join(samples[1].raw, 41, samples[2].raw);
        Individual { raw: join(samples[0].raw, 41, upper) }
    }

    /// The three samples that the record holds.
    pub fn val_0(&self) -> (r: [IndividualCompress; 3])
        ensures
            r[0]@ == Self::sample_of(self@, 0),
            r[1]@ == Self::sample_of(self@, 1),
            r[2]@ == Self::sample_of(self@, 2),
    {
        let (first, r1) = split(self.raw, 41);
        let (mid, r2) = split(r1, 41);
        let (last, _) = split(r2, 41);
        proof {
            lemma2_to64();
            assert(above(self@, 0) == self@);
            lemma_above_twice(self@, 41, 41);
        }
        [
            IndividualCompress { raw: first },
            IndividualCompress { raw: mid },
            IndividualCompress { raw: last },
        ]
    }
}

impl BilgeBitvecExt for Individual {
    open spec fn width() -> nat {
        123
    }

    open spec fn raw(&self) -> int {
        self@
    }

    open spec fn wf(&self) -> bool {
        0 <= self@ < pow2(123)
    }

    proof fn lemma_raw_bound(&self) {
    }

    fn bits() -> (r: usize) {
        123
    }

    fn into_raw(self) -> (r: u128) {
        self.raw
    }

    fn from_raw(raw: u128) -> (r: Self) {
        Individual { raw }
    }
}

/// What the middle sample differs by from the rounded average of the other two.
pub open spec fn mid_delta(first: Seq<int>, mid: Seq<int>, last: Seq<int>) -> Seq<int> {
    vec_sub(mid, vec_avg(last, first))
}

/// A quarter of each component, rounded towards minus infinity.
pub open spec fn vec_quarter(v: Seq<int>) -> Seq<int> {
    Seq::new(3, |i: int| v[i] / 4)
}

/// Each component times four.
pub open spec fn vec_times_four(v: Seq<int>) -> Seq<int> {
    Seq::new(3, |i: int| v[i] * 4)
}

/// The first and the last sample in full at 15 fractional bits, and what the
/// middle one differs by from their average. A flag says whether that difference
/// is stored without its two lowest bits.
#[derive(Clone, Copy, Debug)]
pub struct FirstLastDeltaMid {
    pub raw: u128,
}

impl View for FirstLastDeltaMid {
    type V = int;

    open spec fn view(&self) -> int {
        self.raw as int
    }
}

impl FirstLastDeltaMid {
    /// Whether the three samples can be laid out: the middle difference is a
    /// 10-bit number.
    pub open spec fn accepts(first: Seq<int>, mid: Seq<int>, last: Seq<int>) -> bool {
        vec_fits(mid_delta(first, mid, last), 10)
    }

    /// Whether the middle difference is stored without its two lowest bits: it is
    /// no 8-bit number.
    pub open spec fn shifts(first: Seq<int>, mid: Seq<int>, last: Seq<int>) -> bool {
        !vec_fits(mid_delta(first, mid, last), 8)
    }

    /// The middle difference as it is stored.
    pub open spec fn stored_delta(first: Seq<int>, mid: Seq<int>, last: Seq<int>) -> Seq<int> {
        if Self::shifts(first, mid, last) {
            vec_quarter(mid_delta(first, mid, last))
        } else {
            mid_delta(first, mid, last)
        }
    }

    /// The record of a missing index and three samples.
    pub open spec fn layout(missing_idx: int, first: Seq<int>, mid: Seq<int>, last: Seq<int>)
        -> int {
        cat(
            if Self::shifts(first, mid, last) {
                1
            } else {
                0
            },
            1,
            cat(
                missing_idx,
                2,
                cat(
                    triple(first, 16),
                    48,
                    cat(triple(last, 16), 48, triple(Self::stored_delta(first, mid, last), 8)),
                ),
            ),
        )
    }

    /// The flag that a record holds.
    pub open spec fn additional_shift_of(raw: int) -> bool {
        field(raw, 0, 1) == 1
    }

    /// The missing index that a record holds.
    pub open spec fn missing_idx_of(raw: int) -> int {
        field(raw, 1, 2)
    }

    /// The first sample that a record holds.
    pub open spec fn first_of(raw: int) -> Seq<int> {
        untriple(above(raw, 3), 16)
    }

    /// The last sample that a record holds.
    pub open spec fn last_of(raw: int) -> Seq<int> {
        untriple(above(raw, 51), 16)
    }

    /// The middle difference that a record holds, with its two lowest bits put
    /// back as zero where the flag is set.
    pub open spec fn delta_of(raw: int) -> Seq<int> {
        if Self::additional_shift_of(raw) {
            vec_times_four(untriple(above(raw, 99), 8))
        } else {
            untriple(above(raw, 99), 8)
        }
    }

    /// The middle sample that a record holds: the average of the other two and
    /// the difference.
    pub open spec fn mid_of(raw: int) -> Seq<int> {
        vec_add(vec_avg(Self::last_of(raw), Self::first_of(raw)), Self::delta_of(raw))
    }

    /// Lays out the three samples `[first, mid, last]` where the middle
    /// difference is a 10-bit number. A component of the first or the last
    /// sample that is no 16-bit number loses its high bits.
    pub fn pack(missing_idx: u8, data: [RoundedQuat3<FP15>; 3]) -> (r: Option<Self>)
        requires
            missing_idx < 4,
            forall|k: int| 0 <= k < 3 ==> vec_within((#[trigger] data[k])@, PACK_LIMIT as int),
        ensures
            r.is_some() <==> Self::accepts(data[0]@, data[1]@, data[2]@),
            r matches Some(p) ==> p@ == Self::layout(
                missing_idx as int,
                data[0]@,
                data[1]@,
                data[2]@,
            ) && p.wf(),
    {
        let first: RoundedQuat3<FP15> = data[0];
        let mid: RoundedQuat3<FP15> = data[1];
        let last: RoundedQuat3<FP15> = data[2];
        let avg: RoundedQuat3<FP15> = last.avg(&first);
        let mut mid_avg_delta: RoundedQuat3<FP15> = mid.sub(avg);
        assert(mid_avg_delta@ == mid_delta(first@, mid@, last@));
        if mid_avg_delta.fits_within(10) {
            let additional_shift: bool = !mid_avg_delta.fits_within(8);
            if additional_shift {
                mid_avg_delta = RoundedQuat3 {
                    value: [
                        quarter(mid_avg_delta.value[0]),
                        quarter(mid_avg_delta.value[1]),
                        quarter(mid_avg_delta.value[2]),
                    ],
                };
                assert(mid_avg_delta@ =~= vec_quarter(mid_delta(first@, mid@, last@)));
            }
            let flag: u128 = if additional_shift {
                1
            } else {
                0
            };
            let low_part: u128 = pack3::<16>(first.into_fields());
            let mid_part: u128 = pack3::<16>(last.into_fields());
            let top_part: u128 = pack3::<8>(mid_avg_delta.into_fields());
            proof {
                lemma2_to64();
                assert(first@ =~= seq![
                    first.value[0] as int,
                    first.value[1] as int,
                    first.value[2] as int,
                ]);
                assert(last@ =~= seq![
                    last.value[0] as int,
                    last.value[1] as int,
                    last.value[2] as int,
                ]);
                assert(mid_avg_delta@ =~= seq![
                    mid_avg_delta.value[0] as int,
                    mid_avg_delta.value[1] as int,
                    mid_avg_delta.value[2] as int,
                ]);
                lemma_cat_bound(mid_part as int, 48, top_part as int, 24);
                lemma_cat_bound(low_part as int, 48, cat(mid_part as int, 48, top_part as int), 72);
                lemma_cat_bound(
                    missing_idx as int,
                    2,
                    cat(low_part as int, 48, cat(mid_part as int, 48, top_part as int)),
                    120,
                );
                lemma_cat_bound(
                    flag as int,
                    1,
                    cat(
                        missing_idx as int,
                        2,
                        cat(low_part as int, 48, cat(mid_part as int, 48, top_part as int)),
                    ),
                    122,
                );
                lemma_pow2_le(24, 80);
                lemma_pow2_le(72, 80);
                lemma_pow2_le(120, 126);
                lemma_pow2_le(122, 127);
            }
            let upper: u128 = join(mid_part, 48, top_part);
            let body: u128 = join(low_part, 48, upper);
            let tagged: u128 = join(missing_idx as u128, 2, body);
            Some(FirstLastDeltaMid { raw: join(flag, 1, tagged) })
        } else {
            None
        }
    }

    /// The missing index and the three samples `[first, mid, last]` that the
    /// record holds.
    pub fn unpack(self) -> (r: (u8, [RoundedQuat3<FP15>; 3]))
        ensures
            r.0 == Self::missing_idx_of(self@),
            r.0 < 4,
            r.1[0]@ == Self::first_of(self@),
            r.1[1]@ == Self::mid_of(self@),
            r.1[2]@ == Self::last_of(self@),
            vec_within(r.1[0]@, 0x8400),
            vec_within(r.1[1]@, 0x8400),
            vec_within(r.1[2]@, 0x8400),
    {
        let first: RoundedQuat3<FP15> = vector_at::<16, FP15>(self.raw, 3);
        let last: RoundedQuat3<FP15> = vector_at::<16, FP15>(self.raw, 51);
        let stored: RoundedQuat3<FP15> = vector_at::<8, FP15>(self.raw, 99);
        let (flag, rest) = split(self.raw, 1);
        let (idx, _) = split(rest, 2);
        proof {
            lemma2_to64();
            assert(above(self@, 0) == self@);
        }
        let avg: RoundedQuat3<FP15> = last.avg(&first);
        let mid_avg_delta: RoundedQuat3<FP15> = if flag == 1 {
            RoundedQuat3 { value: [stored.value[0] * 4, stored.value[1] * 4, stored.value[2] * 4] }
        } else {
            stored
        };
        assert(mid_avg_delta@ =~= Self::delta_of(self@));
        let mid: RoundedQuat3<FP15> = avg.add(mid_avg_delta);
        (idx as u8, [first, mid, last])
    }
}

impl BilgeBitvecExt for FirstLastDeltaMid {
    open spec fn width() -> nat {
        123
    }

    open spec fn raw(&self) -> int {
        self@
    }

    open spec fn wf(&self) -> bool {
        0 <= self@ < pow2(123)
    }

    proof fn lemma_raw_bound(&self) {
    }

    fn bits() -> (r: usize) {
        123
    }

    fn into_raw(self) -> (r: u128) {
        self.raw
    }

    fn from_raw(raw: u128) -> (r: Self) {
        FirstLastDeltaMid { raw }
    }
}

/// The last sample in full at 20 fractional bits, what the first one lacks to
/// it, and what the middle one differs by from the average of the two.
#[derive(Clone, Copy, Debug)]
pub struct LastDeltaFirstDeltaMid {
    pub raw: u128,
}

impl View for LastDeltaFirstDeltaMid {
    type V = int;

    open spec fn view(&self) -> int {
        self.raw as int
    }
}

impl LastDeltaFirstDeltaMid {
    /// Whether the three samples can be laid out: the first difference is a
    /// 13-bit number and the middle difference a 7-bit number.
    pub open spec fn accepts(first: Seq<int>, mid: Seq<int>, last: Seq<int>) -> bool {
        vec_fits(vec_sub(last, first), 13) && vec_fits(mid_delta(first, mid, last), 7)
    }

    /// The record of a missing index and three samples.
    pub open spec fn layout(missing_idx: int, first: Seq<int>, mid: Seq<int>, last: Seq<int>)
        -> int {
        cat(
            missing_idx,
            2,
            cat(
                triple(last, 21),
                63,
                cat(triple(vec_sub(last, first), 13), 39, triple(mid_delta(first, mid, last), 7)),
            ),
        )
    }

    /// The missing index that a record holds.
    pub open spec fn missing_idx_of(raw: int) -> int {
        field(raw, 0, 2)
    }

    /// The last sample that a record holds.
    pub open spec fn last_of(raw: int) -> Seq<int> {
        untriple(above(raw, 2), 21)
    }

    /// The first sample that a record holds: the last one less the first
    /// difference.
    pub open spec fn first_of(raw: int) -> Seq<int> {
        vec_sub(Self::last_of(raw), untriple(above(raw, 65), 13))
    }

    /// The middle sample that a record holds: the average of the other two and
    /// the middle difference.
    pub open spec fn mid_of(raw: int) -> Seq<int> {
        vec_add(
            vec_avg(Self::last_of(raw), Self::first_of(raw)),
            untriple(above(raw, 104), 7),
        )
    }

    /// Lays out the three samples `[first, mid, last]` where both differences
    /// are small enough. A component of the last sample that is no 21-bit number
    /// loses its high bits.
    pub fn pack(missing_idx: u8, data: [RoundedQuat3<FP20>; 3]) -> (r: Option<Self>)
        requires
            missing_idx < 4,
            forall|k: int| 0 <= k < 3 ==> vec_within((#[trigger] data[k])@, PACK_LIMIT as int),
        ensures
            r.is_some() <==> Self::accepts(data[0]@, data[1]@, data[2]@),
            r matches Some(p) ==> p@ == Self::layout(
                missing_idx as int,
                data[0]@,
                data[1]@,
                data[2]@,
            ) && p.wf(),
    {
        let first: RoundedQuat3<FP20> = data[0];
        let mid: RoundedQuat3<FP20> = data[1];
        let last: RoundedQuat3<FP20> = data[2];
        let first_delta: RoundedQuat3<FP20> = last.sub(first);
        let avg: RoundedQuat3<FP20> = last.avg(&first);
        let mid_avg_delta: RoundedQuat3<FP20> = mid.sub(avg);
        assert(mid_avg_delta@ == mid_delta(first@, mid@, last@));
        if first_delta.fits_within(13) && mid_avg_delta.fits_within(7) {
            let low_part: u128 = pack3::<21>(last.into_fields());
            let mid_part: u128 = pack3::<13>(first_delta.into_fields());
            let top_part: u128 = pack3::<7>(mid_avg_delta.into_fields());
            proof {
                lemma2_to64();
                assert(last@ =~= seq![
                    last.value[0] as int,
                    last.value[1] as int,
                    last.value[2] as int,
                ]);
                assert(first_delta@ =~= seq![
                    first_delta.value[0] as int,
                    first_delta.value[1] as int,
                    first_delta.value[2] as int,
                ]);
                assert(mid_avg_delta@ =~= seq![
                    mid_avg_delta.value[0] as int,
                    mid_avg_delta.value[1] as int,
                    mid_avg_delta.value[2] as int,
                ]);
                lemma_cat_bound(mid_part as int, 39, top_part as int, 21);
                lemma_cat_bound(low_part as int, 63, cat(mid_part as int, 39, top_part as int), 60);
                lemma_cat_bound(
                    missing_idx as int,
                    2,
                    cat(low_part as int, 63, cat(mid_part as int, 39, top_part as int)),
                    123,
                );
                lemma_pow2_le(21, 89);
                lemma_pow2_le(60, 65);
                lemma_pow2_le(123, 126);
            }
            let upper: u128 = join(mid_part, 39, top_part);
            let body: u128 = join(low_part, 63, upper);
            Some(LastDeltaFirstDeltaMid { raw: join(missing_idx as u128, 2, body) })
        } else {
            None
        }
    }

    /// The missing index and the three samples `[first, mid, last]` that the
    /// record holds.
    pub fn unpack(self) -> (r: (u8, [RoundedQuat3<FP20>; 3]))
        ensures
            r.0 == Self::missing_idx_of(self@),
            r.0 < 4,
            r.1[0]@ == Self::first_of(self@),
            r.1[1]@ == Self::mid_of(self@),
            r.1[2]@ == Self::last_of(self@),
            vec_within(r.1[0]@, 0x10_2000),
            vec_within(r.1[1]@, 0x10_2000),
            vec_within(r.1[2]@, 0x10_2000),
    {
        let last: RoundedQuat3<FP20> = vector_at::<21, FP20>(self.raw, 2);
        let first_delta: RoundedQuat3<FP20> = vector_at::<13, FP20>(self.raw, 65);
        let mid_avg_delta: RoundedQuat3<FP20> = vector_at::<7, FP20>(self.raw, 104);
        let (idx, _) = split(self.raw, 2);
        proof {
            lemma2_to64();
            assert(above(self@, 0) == self@);
        }
        let first: RoundedQuat3<FP20> = last.sub(first_delta);
        let avg: RoundedQuat3<FP20> = last.avg(&first);
        let mid: RoundedQuat3<FP20> = avg.add(mid_avg_delta);
        (idx as u8, [first, mid, last])
    }
}

impl BilgeBitvecExt for LastDeltaFirstDeltaMid {
    open spec fn width() -> nat {
        125
    }

    open spec fn raw(&self) -> int {
        self@
    }

    open spec fn wf(&self) -> bool {
        0 <= self@ < pow2(125)
    }

    proof fn lemma_raw_bound(&self) {
    }

    fn bits() -> (r: usize) {
        125
    }

    fn into_raw(self) -> (r: u128) {
        self.raw
    }

    fn from_raw(raw: u128) -> (r: Self) {
        LastDeltaFirstDeltaMid { raw }
    }
}

} // verus!
