use joycon_quat::bit_field::BilgeBitvecExt;
use joycon_quat::fixed_point::{FP12, FP15, FP20};
use joycon_quat::quat::RoundedQuat3;
use joycon_quat::types::{
    drop_bits, vector_at, FirstLastDeltaMid, Individual, IndividualCompress,
    LastDeltaFirstDeltaMid, QuaternionMode, Timestamp,
};

fn rq<const FRAC: u32>(value: [i32; 3]) -> RoundedQuat3<FRAC> {
    RoundedQuat3 { value }
}

#[test]
fn individual_sample_bit_pattern() {
    let packed = IndividualCompress::pack(2, rq::<FP12>([1, -1, 4095]));
    assert_eq!(packed.raw, 2 | (1 << 2) | (0x1fff << 15) | (0xfff << 28));
    let (idx, data) = packed.unpack();
    assert_eq!(idx, 2);
    assert_eq!(data.value, [1, -1, 4095]);
}

#[test]
fn individual_sample_loses_high_bits_of_large_components() {
    let packed = IndividualCompress::pack(0, rq::<FP12>([4096, -4097, 0]));
    let (_, data) = packed.unpack();
    assert_eq!(data.value, [-4096, 4095, 0]);
}

#[test]
fn individual_record_holds_three_samples_in_order() {
    let samples = [
        IndividualCompress::pack(1, rq::<FP12>([10, 20, 30])),
        IndividualCompress::pack(2, rq::<FP12>([-10, -20, -30])),
        IndividualCompress::pack(3, rq::<FP12>([0, 0, 1])),
    ];
    let record = Individual::new(samples);
    assert_eq!(record.raw, samples[0].raw | samples[1].raw << 41 | samples[2].raw << 82);
    let back = record.val_0();
    for i in 0..3 {
        assert_eq!(back[i].raw, samples[i].raw);
    }
    assert_eq!(back[1].unpack().0, 2);
    assert_eq!(back[1].unpack().1.value, [-10, -20, -30]);
}

#[test]
fn last_delta_bit_pattern() {
    let first = rq::<FP20>([100, 200, -300]);
    let mid = rq::<FP20>([101, 199, -301]);
    let last = rq::<FP20>([104, 196, -304]);
    let packed = LastDeltaFirstDeltaMid::pack(1, [first, mid, last]).unwrap();
    // last, then last - first, then mid - avg(last, first); avg is [102, 198, -302].
    let expected: u128 = 1
        | 104 << 2
        | 196 << 23
        | ((1 << 21) - 304) << 44
        | 4 << 65
        | ((1 << 13) - 4) << 78
        | ((1 << 13) - 4) << 91
        | ((1 << 7) - 1) << 104
        | 1 << 111
        | 1 << 118;
    assert_eq!(packed.raw, expected);
    let (idx, data) = packed.unpack();
    assert_eq!(idx, 1);
    assert_eq!(data, [first, mid, last]);
}

#[test]
fn last_delta_rejects_large_differences() {
    let zero = rq::<FP20>([0, 0, 0]);
    assert!(LastDeltaFirstDeltaMid::pack(0, [zero, zero, rq([4095, -4096, 0])]).is_none());
    assert!(LastDeltaFirstDeltaMid::pack(0, [zero, zero, rq([100, 0, 0])]).is_some());
    assert!(LastDeltaFirstDeltaMid::pack(0, [zero, zero, rq([4096, 0, 0])]).is_none());
    assert!(LastDeltaFirstDeltaMid::pack(0, [zero, rq([0, 63, -64]), zero]).is_some());
    assert!(LastDeltaFirstDeltaMid::pack(0, [zero, rq([0, 64, 0]), zero]).is_none());
    assert!(LastDeltaFirstDeltaMid::pack(0, [zero, rq([0, 0, -65]), zero]).is_none());
}

#[test]
fn first_last_bit_pattern_without_shift() {
    let first = rq::<FP15>([1000, -2000, 3000]);
    let mid = rq::<FP15>([1100, -2100, 3127]);
    let last = rq::<FP15>([1001, -2001, 3001]);
    let packed = FirstLastDeltaMid::pack(3, [first, mid, last]).unwrap();
    // avg(last, first) is [1001, -2001, 3001].
    let expected: u128 = 0
        | 3 << 1
        | 1000 << 3
        | ((1 << 16) - 2000) << 19
        | 3000 << 35
        | 1001 << 51
        | ((1 << 16) - 2001) << 67
        | 3001 << 83
        | 99 << 99
        | ((1 << 8) - 99) << 107
        | 126 << 115;
    assert_eq!(packed.raw, expected);
    let (idx, data) = packed.unpack();
    assert_eq!(idx, 3);
    assert_eq!(data, [first, mid, last]);
}

#[test]
fn first_last_drops_two_bits_of_a_ten_bit_difference() {
    let first = rq::<FP15>([0, 0, 0]);
    let last = rq::<FP15>([0, 0, 0]);
    let mid = rq::<FP15>([511, -512, 130]);
    let packed = FirstLastDeltaMid::pack(0, [first, mid, last]).unwrap();
    assert_eq!(packed.raw & 1, 1);
    assert_eq!(packed.raw >> 99, 127 | 128 << 8 | 32 << 16);
    let (_, data) = packed.unpack();
    assert_eq!(data[0], first);
    assert_eq!(data[2], last);
    assert_eq!(data[1].value, [508, -512, 128]);
}

#[test]
fn first_last_rejects_an_eleven_bit_difference() {
    let zero = rq::<FP15>([0, 0, 0]);
    assert!(FirstLastDeltaMid::pack(0, [zero, rq([512, 0, 0]), zero]).is_none());
    assert!(FirstLastDeltaMid::pack(0, [zero, rq([0, -513, 0]), zero]).is_none());
    assert!(FirstLastDeltaMid::pack(0, [zero, rq([127, -128, 0]), zero]).unwrap().raw & 1 == 0);
    assert!(FirstLastDeltaMid::pack(0, [zero, rq([128, 0, 0]), zero]).unwrap().raw & 1 == 1);
}

#[test]
fn any_record_unpacks() {
    let (idx, data) = LastDeltaFirstDeltaMid { raw: (1u128 << 125) - 1 }.unpack();
    assert_eq!(idx, 3);
    assert_eq!(data[2].value, [-1, -1, -1]);
    assert_eq!(data[0].value, [0, 0, 0]);
    assert_eq!(data[1].value, [-2, -2, -2]);
    let (idx, data) = FirstLastDeltaMid { raw: (1u128 << 123) - 1 }.unpack();
    assert_eq!(idx, 3);
    assert_eq!(data[0].value, [-1, -1, -1]);
    assert_eq!(data[1].value, [-5, -5, -5]);
    assert_eq!(data[2].value, [-1, -1, -1]);
}

#[test]
fn vectors_are_read_at_their_offset() {
    let raw: u128 = 5 << 104 | 6 << 111 | 0x7f << 118;
    assert_eq!(drop_bits(raw, 104), 5 | 6 << 7 | 0x7f << 14);
    assert_eq!(drop_bits(raw, 0), raw);
    assert_eq!(vector_at::<7, FP20>(raw, 104).value, [5, 6, -1]);
}

#[test]
fn mode_codes() {
    assert_eq!(QuaternionMode::Individual.into_raw(), 0);
    assert_eq!(QuaternionMode::FirstLastDeltaMid.into_raw(), 1);
    assert_eq!(QuaternionMode::LastDeltaFirstDeltaMid.into_raw(), 2);
    assert_eq!(QuaternionMode::Unknown.into_raw(), 3);
    assert_eq!(QuaternionMode::from_raw(0), QuaternionMode::Individual);
    assert_eq!(QuaternionMode::from_raw(1), QuaternionMode::FirstLastDeltaMid);
    assert_eq!(QuaternionMode::from_raw(2), QuaternionMode::LastDeltaFirstDeltaMid);
    assert_eq!(QuaternionMode::from_raw(3), QuaternionMode::Unknown);
    assert_eq!(QuaternionMode::bits(), 2);
    assert_eq!(Individual::bits(), 123);
    assert_eq!(FirstLastDeltaMid::bits(), 123);
    assert_eq!(LastDeltaFirstDeltaMid::bits(), 125);
    assert_eq!(IndividualCompress::bits(), 41);
    assert_eq!(Timestamp::bits(), 17);
}

#[test]
fn timestamp_holds_start_below_count() {
    let timestamp = Timestamp::new(0x555, 0x2a);
    assert_eq!(timestamp.into_raw(), 0x555 | 0x2a << 11);
    assert_eq!(Timestamp::from_raw(0x1ffff), Timestamp::new(2047, 63));
    assert_eq!(Timestamp::from_raw(2048).count(), 1);
    assert_eq!(Timestamp::from_raw(2048).start(), 0);
}

#[test]
fn records_are_written_and_read_at_a_bit_offset() {
    let mut frame = [0u8; 18];
    let next = Timestamp::new(2047, 0).write_slice(&mut frame, 3);
    assert_eq!(next, 20);
    assert_eq!(frame[..3], [0xf8, 0x3f, 0]);
    let next = QuaternionMode::Unknown.write_slice(&mut frame, 142);
    assert_eq!(next, 144);
    assert_eq!(frame[17], 0xc0);
    let (timestamp, next) = Timestamp::read(&frame, 3);
    assert_eq!(timestamp, Timestamp::new(2047, 0));
    assert_eq!(next, 20);
    let (mode, _) = QuaternionMode::read(&frame, 142);
    assert_eq!(mode, QuaternionMode::Unknown);
    let (mode, _) = QuaternionMode::read(&frame, 4);
    assert_eq!(mode, QuaternionMode::Unknown);
    let (mode, _) = QuaternionMode::read(&frame, 13);
    assert_eq!(mode, QuaternionMode::FirstLastDeltaMid);
}

#[test]
fn writing_replaces_only_the_field() {
    let mut frame = [0xffu8; 18];
    let record = LastDeltaFirstDeltaMid { raw: 0 };
    let next = record.write_slice(&mut frame, 2);
    assert_eq!(next, 127);
    assert_eq!(frame[0], 3);
    assert_eq!(frame[1..15], [0u8; 14]);
    assert_eq!(frame[15], 0x80);
    assert_eq!(frame[16], 0xff);
    let (back, _) = LastDeltaFirstDeltaMid::read(&frame, 2);
    assert_eq!(back.raw, 0);
    let (wide, _) = Individual::read(&frame, 21);
    assert_eq!(wide.raw, ((1u128 << 17) - 1) << 106);
}
