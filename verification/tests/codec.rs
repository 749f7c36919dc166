use joycon_quat::compress_quaternion_triplet;
use joycon_quat::types::Timestamp;
use joycon_quat::Quaternion;

const ONE: i32 = 1 << 30;

fn quats(raw: [[i32; 4]; 3]) -> [Quaternion; 3] {
    [Quaternion(raw[0]), Quaternion(raw[1]), Quaternion(raw[2])]
}

fn decoded(frame: [u8; 18]) -> ([[i32; 4]; 3], Timestamp) {
    let (q, timestamp) = Quaternion::parse(frame).unwrap();
    ([q[0].0, q[1].0, q[2].0], timestamp)
}

const CLOSE: [[i32; 4]; 3] = [
    [768692521, 625384609, 412938038, 20238089],
    [768716165, 625356805, 412934211, 20277220],
    [768740570, 625329377, 412932236, 20238087],
];

const MEDIUM: [[i32; 4]; 3] = [
    [753581142, 645926693, 409086905, 21530890],
    [768700635, 625354449, 412965867, 20293954],
    [783537760, 606436759, 413235668, 21466788],
];

const MEDIUM_SMALL_DELTA: [[i32; 4]; 3] = [
    [753581142, 645926693, 409086905, 21530890],
    [768684148, 626343195, 411434158, 21501654],
    [783537760, 606436759, 413235668, 21466788],
];

const FAR: [[i32; 4]; 3] = [
    [966367642, 322122547, 322122547, 107374182],
    [531477213, 531477213, 531477213, -552736302],
    [107112078, -214224157, 321336235, 996142330],
];

const NEGATIVE_DOMINANT: [[i32; 4]; 3] = [
    [107779115, -215558230, -1023901590, 215558230],
    [107776942, -215553885, -1023880953, 215661662],
    [107774769, -215549538, -1023860307, 215765088],
];

#[test]
fn identity_triplet_round_trips() {
    let input = [Quaternion([ONE, 0, 0, 0]); 3];
    let frame = compress_quaternion_triplet(&input, Timestamp::new(0, 0));
    assert_eq!(frame, [2, 0, 0, 0, 0, 0, 0, 0, 0, 0, 0, 0, 0, 0, 0, 0, 0, 0]);
    let (out, timestamp) = decoded(frame);
    assert_eq!(timestamp, Timestamp::new(0, 0));
    assert_eq!(out, [[ONE, 0, 0, 0]; 3]);
}

#[test]
fn close_samples_take_the_most_precise_layout() {
    let frame = compress_quaternion_triplet(&quats(CLOSE), Timestamp::new(1234, 56));
    assert_eq!(frame[0] & 3, 2);
    assert_eq!(
        frame,
        [18, 23, 149, 108, 78, 12, 77, 19, 80, 254, 250, 31, 0, 0, 254, 38, 105, 226]
    );
    let (out, timestamp) = decoded(frame);
    assert_eq!(timestamp, Timestamp::new(1234, 56));
    assert_eq!(
        out,
        [
            [768671744, 625384448, 412938240, 20238336],
            [768704512, 625356800, 412934144, 20277248],
            [768737280, 625329152, 412932096, 20238336],
        ]
    );
}

#[test]
fn moderate_motion_takes_the_layout_with_first_and_last_in_full() {
    let frame = compress_quaternion_triplet(&quats(MEDIUM), Timestamp::new(2047, 63));
    assert_eq!(frame[0] & 3, 1);
    // The flag that the middle difference lost its two lowest bits is bit 2.
    assert_eq!(frame[0] & 4, 0);
    assert_eq!(
        frame,
        [1, 160, 137, 24, 38, 82, 96, 9, 105, 40, 230, 81, 192, 252, 102, 251, 255, 63]
    );
    let (out, timestamp) = decoded(frame);
    assert_eq!(timestamp, Timestamp::new(2047, 63));
    assert_eq!(
        out,
        [
            [753565696, 645922816, 409075712, 21528576],
            [768671744, 625344512, 412975104, 20283392],
            [783515648, 606437376, 413237248, 21463040],
        ]
    );
}

#[test]
fn negated_last_sample_is_written_like_the_sample_itself() {
    let mut input = MEDIUM;
    for c in input[2].iter_mut() {
        *c = -*c;
    }
    let frame = compress_quaternion_triplet(&quats(input), Timestamp::new(2047, 63));
    assert_eq!(frame[0] & 3, 1);
    assert_eq!(frame, compress_quaternion_triplet(&quats(MEDIUM), Timestamp::new(2047, 63)));
}

#[test]
fn small_dropped_component_skips_the_layout_with_first_and_last_in_full() {
    // The middle difference is [-164, 0, -164] at 15 fractional bits, a 10-bit
    // number, but the first sample has less than one half where the middle one
    // is largest.
    let input = [
        [526080888, 547553578, 536817233, 536817233],
        [547553578, 536817233, 536817233, 526080888],
        [547553578, 536817233, 536817233, 526080888],
    ];
    let frame = compress_quaternion_triplet(&quats(input), Timestamp::new(0, 0));
    assert_eq!(frame[0] & 3, 0);
    assert_eq!(frame, [4, 128, 0, 208, 245, 1, 0, 1, 160, 235, 3, 0, 2, 64, 215, 7, 0, 0]);
}

#[test]
fn small_middle_difference_is_stored_unshifted() {
    let frame = compress_quaternion_triplet(&quats(MEDIUM_SMALL_DELTA), Timestamp::new(1, 2));
    assert_eq!(
        frame,
        [1, 160, 137, 24, 38, 82, 96, 9, 105, 40, 230, 81, 128, 0, 1, 32, 0, 2]
    );
    let (out, timestamp) = decoded(frame);
    assert_eq!(timestamp, Timestamp::new(1, 2));
    assert_eq!(
        out,
        [
            [753565696, 645922816, 409075712, 21528576],
            [768671744, 626327552, 411435008, 21495808],
            [783515648, 606437376, 413237248, 21463040],
        ]
    );
}

#[test]
fn distant_samples_fall_back_to_individual_layout() {
    let frame = compress_quaternion_triplet(&quats(FAR), Timestamp::new(77, 12));
    assert_eq!(frame[0] & 3, 0);
    assert_eq!(
        frame,
        [208, 76, 154, 137, 102, 184, 2, 87, 224, 10, 124, 102, 120, 230, 202, 164, 9, 12]
    );
    let (out, timestamp) = decoded(frame);
    assert_eq!(timestamp, Timestamp::new(77, 12));
    assert_eq!(
        out,
        [
            [966295552, 322174976, 322174976, 107479040],
            [-531365888, -531365888, -531365888, 553025536],
            [107216896, -214171648, 321388544, 996114432],
        ]
    );
}

#[test]
fn negative_dominant_component_comes_back_positive() {
    let frame = compress_quaternion_triplet(&quats(NEGATIVE_DOMINANT), Timestamp::new(100, 10));
    assert_eq!(
        frame,
        [202, 142, 204, 191, 201, 188, 144, 205, 176, 249, 4, 0, 255, 3, 0, 0, 50, 40]
    );
    let (out, _) = decoded(frame);
    assert_eq!(
        out,
        [
            [-107779072, 215558144, 1023868928, -215558144],
            [-107777024, 215554048, 1023868928, -215661568],
            [-107774976, 215549952, 1023836160, -215764992],
        ]
    );
    for q in out.iter() {
        assert!(q[2] > 0);
    }
}

#[test]
fn small_negative_component_is_stored_as_the_nearest_unit() {
    let input = [Quaternion([ONE, -614, 0, 0]); 3];
    let frame = compress_quaternion_triplet(&input, Timestamp::new(0, 0));
    assert_eq!(frame, [242, 255, 255, 1, 0, 0, 0, 0, 0, 0, 0, 0, 0, 0, 0, 0, 0, 0]);
    let (out, _) = decoded(frame);
    assert_eq!(out, [[ONE, -1024, 0, 0]; 3]);
}

#[test]
fn retained_components_are_within_half_a_unit() {
    let cases: [([[i32; 4]; 3], i64, [usize; 3]); 3] = [
        (CLOSE, 1 << 10, [0, 0, 0]),
        (FAR, 1 << 18, [0, 3, 3]),
        (NEGATIVE_DOMINANT, 1 << 10, [2, 2, 2]),
    ];
    for (input, unit, missing) in cases.iter() {
        let frame = compress_quaternion_triplet(&quats(*input), Timestamp::new(3, 4));
        let (out, _) = decoded(frame);
        for i in 0..3 {
            let sign: i64 = if input[i][missing[i]] < 0 { -1 } else { 1 };
            for k in 0..4 {
                if k != missing[i] {
                    let diff = sign * input[i][k] as i64 - out[i][k] as i64;
                    assert!(-unit / 2 <= diff && diff <= unit / 2);
                }
            }
        }
    }
}

#[test]
fn missing_component_is_within_the_step_of_the_square_root() {
    let frame = compress_quaternion_triplet(&quats(FAR), Timestamp::new(3, 4));
    let (out, _) = decoded(frame);
    assert!((out[0][0] as i64 - FAR[0][0] as i64).abs() < (1 << 18));
    assert!((out[1][3] as i64 + FAR[1][3] as i64).abs() < (1 << 19));
    assert!((out[2][3] as i64 - FAR[2][3] as i64).abs() < (1 << 18));
    for q in out.iter() {
        let missing = q.iter().map(|c| c.abs()).max().unwrap();
        assert_eq!(missing % 32768, 0);
    }
}

#[test]
fn timestamp_is_recovered_exactly() {
    for (start, count) in [(0u16, 0u8), (1, 0), (0, 1), (2047, 63), (1024, 32), (1365, 42)] {
        for input in [CLOSE, MEDIUM, FAR] {
            let frame = compress_quaternion_triplet(&quats(input), Timestamp::new(start, count));
            let (_, timestamp) = decoded(frame);
            assert_eq!(timestamp.start(), start);
            assert_eq!(timestamp.count(), count);
        }
    }
}

#[test]
fn unknown_mode_is_a_decode_failure() {
    assert!(Quaternion::parse([3, 0, 0, 0, 0, 0, 0, 0, 0, 0, 0, 0, 0, 0, 0, 0, 0, 0]).is_none());
    assert!(Quaternion::parse([0xff; 18]).is_none());
    let mut frame = compress_quaternion_triplet(&quats(CLOSE), Timestamp::new(1, 1));
    frame[0] |= 3;
    assert!(Quaternion::parse(frame).is_none());
    frame[0] &= 0xfc;
    assert!(Quaternion::parse(frame).is_some());
}

#[test]
fn slack_bits_are_zero_and_are_not_read() {
    for input in [MEDIUM, FAR] {
        let frame = compress_quaternion_triplet(&quats(input), Timestamp::new(2047, 63));
        assert_ne!(frame[0] & 3, 2);
        assert_eq!(frame[17] & 0xc0, 0);
        let expected = decoded(frame);
        for slack in [0x40u8, 0x80, 0xc0] {
            let mut flipped = frame;
            flipped[17] ^= slack;
            assert_eq!(decoded(flipped), expected);
        }
    }
}

#[test]
fn encoding_is_repeatable() {
    for input in [CLOSE, MEDIUM, FAR] {
        let a = compress_quaternion_triplet(&quats(input), Timestamp::new(9, 9));
        let b = compress_quaternion_triplet(&quats(input), Timestamp::new(9, 9));
        assert_eq!(a, b);
    }
}

#[test]
fn most_precise_layout_uses_all_144_bits() {
    let frame = compress_quaternion_triplet(&quats(CLOSE), Timestamp::new(2047, 63));
    assert_eq!(frame[0] & 3, 2);
    // The timestamp ends at the last bit of the frame.
    assert_eq!(frame[17], 0xff);
    assert_eq!(frame[16] & 0x80, 0x80);
}

#[test]
fn zero_component_at_the_shared_index_erases_the_sample() {
    let input = quats([[ONE, 0, 0, 0], [0, ONE, 0, 0], [0, 0, -ONE, 0]]);
    let frame = compress_quaternion_triplet(&input, Timestamp::new(5, 6));
    assert_eq!(frame, [6, 0, 0, 0, 0, 0, 0, 0, 0, 0, 0, 0, 0, 0, 0, 128, 2, 24]);
    let (out, timestamp) = decoded(frame);
    assert_eq!(timestamp, Timestamp::new(5, 6));
    assert_eq!(out, [[0, ONE, 0, 0]; 3]);
}

#[test]
fn default_quaternion_is_zero() {
    assert_eq!(Quaternion::default().0, [0, 0, 0, 0]);
}
