use joycon_quat::bit_field::{pack3, power_of_two, split, join, unpack3, Fix};
use joycon_quat::fixed_point::{
    abs, flip, half_unit, multiply, narrow, round, signum, square_root, widen, FP12, FP15, FP20,
    HALF, ONE,
};
use joycon_quat::quat::{halve, quarter, Quat3, RoundedQuat3};
use joycon_quat::Quaternion;

#[test]
fn confirm() {
    let fits = |val: i32, bits: usize| {
        RoundedQuat3::<FP12> { value: [val, val, val] }.fits_within(bits)
    };
    assert!(fits(511, 10));
    assert!(!fits(512, 10));
    assert!(fits(-512, 10));
    assert!(!fits(-513, 10));

    assert!(fits(127, 8));
    assert!(!fits(128, 8));
    assert!(fits(-128, 8));
    assert!(!fits(-129, 8));
}

#[test]
fn testfix() {
    let a: Fix<12> = Fix::extract(0);
    assert_eq!(a.0, 0);
    let back: u32 = Fix::<12>::extract(0).embed();
    assert_eq!(back, 0);
    let (value, rest) = unpack3::<15>(0);
    assert_eq!([value[0].0, value[1].0, value[2].0], [0, 0, 0]);
    assert_eq!(rest, 0);
}

#[test]
fn fits_within_needs_every_component() {
    assert!(RoundedQuat3::<FP20> { value: [63, -64, 0] }.fits_within(7));
    assert!(!RoundedQuat3::<FP20> { value: [0, 0, 64] }.fits_within(7));
    assert!(!RoundedQuat3::<FP20> { value: [0, -65, 0] }.fits_within(7));
    assert!(!RoundedQuat3::<FP20> { value: [4096, 0, 0] }.fits_within(13));
    assert!(RoundedQuat3::<FP20> { value: [4095, -4096, 1] }.fits_within(13));
    assert!(RoundedQuat3::<FP20> { value: [i32::MAX, i32::MIN, 0] }.fits_within(32));
    assert!(RoundedQuat3::<FP20> { value: [0, -1, 0] }.fits_within(1));
    assert!(!RoundedQuat3::<FP20> { value: [1, 0, 0] }.fits_within(1));
}

#[test]
fn embed_keeps_the_low_bits() {
    assert_eq!(Fix::<13>(0).embed(), 0);
    assert_eq!(Fix::<13>(1).embed(), 1);
    assert_eq!(Fix::<13>(-1).embed(), 8191);
    assert_eq!(Fix::<13>(4095).embed(), 4095);
    assert_eq!(Fix::<13>(-4096).embed(), 4096);
    assert_eq!(Fix::<13>(4096).embed(), 4096);
    assert_eq!(Fix::<13>(-4097).embed(), 4095);
    assert_eq!(Fix::<32>(-1).embed(), u32::MAX);
    assert_eq!(Fix::<1>(-1).embed(), 1);
}

#[test]
fn extract_reads_the_top_bit_as_sign() {
    assert_eq!(Fix::<13>::extract(0).0, 0);
    assert_eq!(Fix::<13>::extract(1).0, 1);
    assert_eq!(Fix::<13>::extract(8191).0, -1);
    assert_eq!(Fix::<13>::extract(4095).0, 4095);
    assert_eq!(Fix::<13>::extract(4096).0, -4096);
    assert_eq!(Fix::<8>::extract(128).0, -128);
    assert_eq!(Fix::<7>::extract(63).0, 63);
    assert_eq!(Fix::<32>::extract(u32::MAX).0, -1);
}

#[test]
fn numbers_that_fit_survive_the_field() {
    for v in [-1048576, -1, 0, 1, 777, 1048575] {
        assert_eq!(Fix::<21>::extract(Fix::<21>(v).embed()).0, v);
    }
}

#[test]
fn three_fields_are_laid_out_lowest_first() {
    let raw = pack3::<8>([Fix(1), Fix(2), Fix(-1)]);
    assert_eq!(raw, 0xff0201);
    let (fields, rest) = unpack3::<8>(0xab_ff0201);
    assert_eq!([fields[0].0, fields[1].0, fields[2].0], [1, 2, -1]);
    assert_eq!(rest, 0xab);
}

#[test]
fn split_and_join_are_inverse() {
    assert_eq!(split(0b1011_0110, 3), (0b110, 0b10110));
    assert_eq!(join(0b110, 3, 0b10110), 0b1011_0110);
    assert_eq!(split(u128::MAX, 63), ((1 << 63) - 1, (1 << 65) - 1));
    assert_eq!(power_of_two(0), 1);
    assert_eq!(power_of_two(63), 1 << 63);
}

#[test]
fn signs_and_magnitudes() {
    assert_eq!(signum(5), 1);
    assert_eq!(signum(-5), -1);
    assert_eq!(signum(0), 0);
    assert_eq!(abs(-7), 7);
    assert_eq!(abs(i32::MAX), i32::MAX);
    assert_eq!(flip(9, 3), 9);
    assert_eq!(flip(9, -3), -9);
    assert_eq!(flip(9, 0), 0);
}

#[test]
fn half_units_of_the_three_precisions() {
    assert_eq!(half_unit::<FP12>(), 1 << 17);
    assert_eq!(half_unit::<FP15>(), 1 << 14);
    assert_eq!(half_unit::<FP20>(), 1 << 9);
}

#[test]
fn narrowing_rounds_towards_minus_infinity() {
    assert_eq!(narrow::<FP12>(ONE), 4096);
    assert_eq!(narrow::<FP15>(ONE), 32768);
    assert_eq!(narrow::<FP20>(ONE), 1 << 20);
    assert_eq!(narrow::<FP20>(1023), 0);
    assert_eq!(narrow::<FP20>(-1), -1);
    assert_eq!(narrow::<FP20>(-1024), -1);
    assert_eq!(narrow::<FP20>(-1025), -2);
    assert_eq!(narrow::<FP12>(i32::MIN), -8192);
    assert_eq!(narrow::<FP12>(i32::MAX), 8191);
}

#[test]
fn widening_is_exact() {
    assert_eq!(widen::<FP12>(4096), ONE);
    assert_eq!(widen::<FP15>(-32768), -ONE);
    assert_eq!(widen::<FP20>(3), 3072);
    assert_eq!(widen::<FP20>(-(1 << 21)), i32::MIN);
    assert_eq!(widen::<FP12>(8191), 8191 << 18);
}

#[test]
fn rounding_takes_the_nearest_and_ties_away_from_zero() {
    assert_eq!(round::<FP12>(ONE), 4096);
    assert_eq!(round::<FP12>(-ONE), -4096);
    assert_eq!(round::<FP12>(-HALF), -2048);
    assert_eq!(round::<FP12>(ONE >> 2), 1024);
    assert_eq!(round::<FP12>(131071), 0);
    assert_eq!(round::<FP12>(131072), 1);
    assert_eq!(round::<FP12>(-1), 0);
    assert_eq!(round::<FP12>(-131071), 0);
    assert_eq!(round::<FP12>(-131072), -1);
    assert_eq!(round::<FP12>(-131073), -1);
    assert_eq!(round::<FP15>(16383), 0);
    assert_eq!(round::<FP15>(16384), 1);
    assert_eq!(round::<FP15>(-16384), -1);
    assert_eq!(round::<FP15>(-16385), -1);
    assert_eq!(round::<FP20>(511), 0);
    assert_eq!(round::<FP20>(512), 1);
    assert_eq!(round::<FP20>(-511), 0);
    assert_eq!(round::<FP20>(-512), -1);
    assert_eq!(round::<FP20>(-513), -1);
    assert_eq!(round::<FP20>(-614), -1);
    assert_eq!(round::<FP20>(0), 0);
    assert_eq!(round::<FP12>(0x7ffd_ffff), 8191);
    assert_eq!(round::<FP12>(-0x7ffd_ffff), -8191);
}

#[test]
fn rounding_is_symmetric() {
    for c in [0, 1, 511, 512, 513, 1535, 1536, 131072, 393216, 805306368, ONE, 0x7ffd_ffff] {
        assert_eq!(round::<FP12>(-c), -round::<FP12>(c));
        assert_eq!(round::<FP15>(-c), -round::<FP15>(c));
        assert_eq!(round::<FP20>(-c), -round::<FP20>(c));
        let back = widen::<FP20>(round::<FP20>(c)) as i64;
        assert!((back - c as i64).abs() <= 512);
    }
}

#[test]
fn products_have_thirty_fractional_bits() {
    assert_eq!(multiply(HALF, HALF), 1 << 28);
    assert_eq!(multiply(ONE, ONE), ONE);
    assert_eq!(multiply(-HALF, HALF), -(1 << 28));
    assert_eq!(multiply(1, 1), 0);
    assert_eq!(multiply(-1, 1), -1);
    assert_eq!(multiply(1518500249, 1518500249), 2147483645);
    assert_eq!(multiply(3, ONE), 3);
}

#[test]
fn square_roots_have_fifteen_zero_bits() {
    assert_eq!(square_root(ONE), ONE);
    assert_eq!(square_root(1 << 28), HALF);
    assert_eq!(square_root(0), 0);
    assert_eq!(square_root(1), 32768);
    assert_eq!(square_root(3), 32768);
    assert_eq!(square_root(4), 65536);
    assert_eq!(square_root(HALF), 23170 << 15);
    assert_eq!(square_root(i32::MAX), 46340 << 15);
}

#[test]
fn halves_round_away_from_zero_and_quarters_round_down() {
    assert_eq!(halve(3), 2);
    assert_eq!(halve(-3), -2);
    assert_eq!(halve(1), 1);
    assert_eq!(halve(-1), -1);
    assert_eq!(halve(-2), -1);
    assert_eq!(halve(4), 2);
    assert_eq!(halve(-4), -2);
    assert_eq!(halve(0), 0);
    assert_eq!(halve(203), 102);
    assert_eq!(halve(i32::MAX), 1 << 30);
    assert_eq!(halve(-i32::MAX), -(1 << 30));
    assert_eq!(quarter(7), 1);
    assert_eq!(quarter(-1), -1);
    assert_eq!(quarter(-4), -1);
    assert_eq!(quarter(-5), -2);
    assert_eq!(quarter(i32::MIN), -(1 << 29));
}

#[test]
fn average_rounds_half_away_from_zero() {
    let a = RoundedQuat3::<FP15> { value: [1, -1, -1] };
    let b = RoundedQuat3::<FP15> { value: [2, -2, -1] };
    assert_eq!(a.avg(&b).value, [2, -2, -1]);
    let c = RoundedQuat3::<FP15> { value: [2, -2, 5] };
    let d = RoundedQuat3::<FP15> { value: [2, -2, -5] };
    assert_eq!(c.avg(&d).value, [2, -2, 0]);
    assert_eq!(c.avg(&d), d.avg(&c));
    let e = RoundedQuat3::<FP20> { value: [-1, -3, 3] };
    let f = RoundedQuat3::<FP20> { value: [-1, -4, 4] };
    assert_eq!(e.avg(&f).value, [-1, -4, 4]);
}

#[test]
fn sums_and_differences_are_componentwise() {
    let a = RoundedQuat3::<FP20> { value: [1, -20, 300] };
    let b = RoundedQuat3::<FP20> { value: [5, 7, -9] };
    assert_eq!(a.add(b).value, [6, -13, 291]);
    assert_eq!(a.sub(b).value, [-4, -27, 309]);
    assert_eq!(a.sub(b).add(b), a);
}

#[test]
fn largest_component_is_the_first_of_equals() {
    assert_eq!(Quaternion([5, -7, 7, 1]).max_abs_idx(), 1);
    assert_eq!(Quaternion([3, 3, -3, 3]).max_abs_idx(), 0);
    assert_eq!(Quaternion([0, 0, 0, 0]).max_abs_idx(), 0);
    assert_eq!(Quaternion([0, 0, 0, -1]).max_abs_idx(), 3);
    assert_eq!(Quaternion([1, 2, -3, 3]).max_abs_idx(), 2);
}

#[test]
fn elision_keeps_the_cyclic_order_and_flips_the_sign() {
    assert_eq!(Quaternion([5, -7, 7, 1]).to_quat3(1).0, [-7, -1, -5]);
    assert_eq!(Quaternion([5, -7, 7, 1]).to_quat3(0).0, [-7, 7, 1]);
    assert_eq!(Quaternion([5, -7, 7, 1]).to_quat3(3).0, [5, -7, 7]);
    assert_eq!(Quaternion([5, 0, 7, 1]).to_quat3(1).0, [0, 0, 0]);
}

#[test]
fn reconstruction_fills_the_missing_component() {
    assert_eq!(Quaternion::reconstruct(Quat3([HALF, HALF, HALF]), 0).0, [HALF; 4]);
    assert_eq!(Quaternion::reconstruct(Quat3([0, 0, 0]), 2).0, [0, 0, ONE, 0]);
    assert_eq!(
        Quaternion::reconstruct(Quat3([600000000, -300000000, 100000000]), 3).0,
        [600000000, -300000000, 100000000, 832405504]
    );
}

#[test]
fn reconstruction_clamps_a_negative_residual() {
    assert_eq!(Quaternion::reconstruct(Quat3([ONE, ONE, 0]), 1).0, [0, 0, ONE, ONE]);
    assert_eq!(
        Quaternion::reconstruct(Quat3([1518500249, -1518500249, 1518500249]), 0).0,
        [0, 1518500249, -1518500249, 1518500249]
    );
}

#[test]
fn elision_is_inverted_by_reconstruction() {
    let q = Quaternion([966367642, 322122547, 322122547, 107374182]);
    let idx = q.max_abs_idx();
    assert_eq!(idx, 0);
    let back = Quaternion::reconstruct(q.to_quat3(idx), idx);
    assert_eq!(back.0[1..], q.0[1..]);
    assert!((back.0[0] as i64 - q.0[0] as i64).abs() <= 32768 + 6);
    let n = Quaternion([-966367642, 322122547, 322122547, 107374182]);
    let back = Quaternion::reconstruct(n.to_quat3(0), 0);
    assert_eq!(back.0[1..], [-322122547, -322122547, -107374182]);
    assert!(back.0[0] > 0);
}

#[test]
fn quantization_and_its_way_back() {
    let q = Quat3([ONE, -ONE, 131072]);
    let r: RoundedQuat3<FP12> = RoundedQuat3::from(q);
    assert_eq!(r.value, [4096, -4096, 1]);
    let r: RoundedQuat3<FP12> = RoundedQuat3::from(Quat3([-HALF, ONE >> 2, 0]));
    assert_eq!(r.value, [-2048, 1024, 0]);
    let r: RoundedQuat3<FP20> = RoundedQuat3::from(Quat3([512, -513, 1 << 29]));
    assert_eq!(r.value, [1, -1, 1 << 19]);
    let back = Quat3::from(RoundedQuat3::<FP15> { value: [1, -2, 32768] });
    assert_eq!(back.0, [32768, -65536, ONE]);
}
