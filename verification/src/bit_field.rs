//! Bit fields: integers of a given width at a given offset of a larger integer.
//!
//! A frame is read as one little-endian integer: bit `k` of the frame is bit
//! `k % 8` of byte `k / 8`. A field of `width` bits at bit `start` is then
//! `(frame / 2^start) % 2^width`. Records inside a frame are laid out the same
//! way, lowest field first. Moving a field between the bytes and an integer is
//! left to the `bitvec` crate.

use vstd::prelude::*;
use vstd::arithmetic::div_mod::*;
use vstd::arithmetic::mul::*;
use vstd::arithmetic::power2::*;
use bitvec::field::BitField;
use bitvec::view::BitView;

verus! {

/// Number of bits in a frame.
pub const FRAME_BITS: usize = 144;

/// The low `width` bits of `raw`.
pub open spec fn low(raw: int, width: nat) -> int {
    raw % (pow2(width) as int)
}

/// What is left of `raw` above its low `width` bits.
pub open spec fn above(raw: int, width: nat) -> int {
    raw / (pow2(width) as int)
}

/// The field of `width` bits that starts at bit `start` of `raw`.
pub open spec fn field(raw: int, start: nat, width: nat) -> int {
    low(above(raw, start), width)
}

/// The integer whose low `width` bits are `first` and whose remaining bits are
/// `rest`.
pub open spec fn cat(first: int, width: nat, rest: int) -> int {
    first + pow2(width) * rest
}

/// The field of `width` bits that stores `v`: its low bits in two's complement.
pub open spec fn embed(v: int, width: nat) -> int {
    v % (pow2(width) as int)
}

/// The number that a field of `width` bits stores: the field read as two's
/// complement.
pub open spec fn extract(stored: int, width: nat) -> int {
    if stored >= pow2((width - 1) as nat) {
        stored - pow2(width)
    } else {
        stored
    }
}

/// The bytes as one little-endian integer.
pub open spec fn le_value(bytes: Seq<u8>) -> nat
    decreases bytes.len(),
{
    if bytes.len() == 0 {
        0
    } else {
        bytes[0] as nat + 256 * le_value(bytes.drop_first())
    }
}

/// Taking `cat` apart gives back its two parts.
pub proof fn lemma_cat_split(first: int, width: nat, rest: int)
    requires
        0 <= first < pow2(width),
    ensures
        low(cat(first, width, rest), width) == first,
        above(cat(first, width, rest), width) == rest,
{
    lemma_pow2_pos(width);
    lemma_mul_is_commutative(pow2(width) as int, rest);
    lemma_fundamental_div_mod_converse(cat(first, width, rest), pow2(width) as int, rest, first);
}

/// `cat` of two bounded parts is bounded by the sum of their widths.
pub proof fn lemma_cat_bound(first: int, width: nat, rest: int, more: nat)
    requires
        0 <= first < pow2(width),
        0 <= rest < pow2(more),
    ensures
        0 <= cat(first, width, rest) < pow2(width + more),
{
    lemma_pow2_pos(width);
    lemma_pow2_adds(width, more);
    let p: int = pow2(width) as int;
    let q: int = pow2(more) as int;
    assert(0 <= p * rest <= p * (q - 1)) by (nonlinear_arith)
        requires
            0 < p,
            0 <= rest <= q - 1,
    ;
    assert(p * (q - 1) == p * q - p) by (nonlinear_arith);
}

/// Every integer is `cat` of its low bits and what is above them.
pub proof fn lemma_cat_of_parts(raw: int, width: nat)
    ensures
        raw == cat(low(raw, width), width, above(raw, width)),
        0 <= low(raw, width) < pow2(width),
{
    lemma_pow2_pos(width);
    lemma_fundamental_div_mod(raw, pow2(width) as int);
    lemma_mod_bound(raw, pow2(width) as int);
}

/// Dropping `a` bits and then `b` bits drops `a + b` bits.
pub proof fn lemma_above_twice(raw: int, a: nat, b: nat)
    requires
        0 <= raw,
    ensures
        above(above(raw, a), b) == above(raw, a + b),
        0 <= above(raw, a),
{
    lemma_pow2_pos(a);
    lemma_pow2_pos(b);
    lemma_pow2_adds(a, b);
    lemma_div_denominator(raw, pow2(a) as int, pow2(b) as int);
    lemma_div_pos_is_pos(raw, pow2(a) as int);
}

/// A value below `2^width` has nothing above its low `width` bits.
pub proof fn lemma_small(raw: int, width: nat)
    requires
        0 <= raw < pow2(width),
    ensures
        low(raw, width) == raw,
        above(raw, width) == 0,
{
    lemma_fundamental_div_mod_converse(raw, pow2(width) as int, 0, raw);
}

/// Storing `x` in the `width` bits at `at` of a value that lies below `2^at` puts
/// `x` above the value.
pub proof fn lemma_append_field(value: int, at: nat, x: int, width: nat)
    requires
        0 <= value < pow2(at),
        0 <= x < pow2(width),
    ensures
        value + (low(x, width) - field(value, at, width)) * pow2(at) == cat(value, at, x),
        0 <= cat(value, at, x) < pow2(at + width),
{
    lemma_small(value, at);
    lemma_small(x, width);
    lemma_pow2_pos(width);
    lemma_small_mod(0, pow2(width));
    lemma_cat_bound(value, at, x, width);
    lemma_mul_is_commutative(x, pow2(at) as int);
}

/// Putting `c` above `cat(a, n, b)` is putting `cat(b, m, c)` above `a`.
pub proof fn lemma_cat_regroup(a: int, n: nat, b: int, m: nat, c: int)
    ensures
        cat(cat(a, n, b), n + m, c) == cat(a, n, cat(b, m, c)),
{
    lemma_pow2_adds(n, m);
    let p: int = pow2(n) as int;
    let q: int = pow2(m) as int;
    assert((a + p * b) + (p * q) * c == a + p * (b + q * c)) by (nonlinear_arith);
}

/// A number that fits comes back out of the field that stores it.
pub proof fn lemma_extract_embed(v: int, width: nat)
    requires
        1 <= width,
        -(pow2((width - 1) as nat) as int) <= v < pow2((width - 1) as nat),
    ensures
        extract(embed(v, width), width) == v,
        0 <= embed(v, width) < pow2(width),
{
    lemma_pow2_unfold(width);
    let m: int = pow2(width) as int;
    if v >= 0 {
        lemma_fundamental_div_mod_converse(v, m, 0, v);
    } else {
        lemma_fundamental_div_mod_converse(v, m, -1, v + m);
    }
}

/// A field stores the number that is read from it, and that number fits.
pub proof fn lemma_embed_extract(stored: int, width: nat)
    requires
        1 <= width,
        0 <= stored < pow2(width),
    ensures
        embed(extract(stored, width), width) == stored,
        -(pow2((width - 1) as nat) as int) <= extract(stored, width) < pow2((width - 1) as nat),
{
    lemma_pow2_unfold(width);
    let m: int = pow2(width) as int;
    if stored >= pow2((width - 1) as nat) {
        lemma_fundamental_div_mod_converse(stored - m, m, -1, stored);
    } else {
        lemma_fundamental_div_mod_converse(stored, m, 0, stored);
    }
}

/// The stored field lies below `2^width` whatever the number.
pub proof fn lemma_embed_bound(v: int, width: nat)
    ensures
        0 <= embed(v, width) < pow2(width),
{
    lemma_pow2_pos(width);
    lemma_mod_bound(v, pow2(width) as int);
}

/// The little-endian value of `n` bytes lies below `2^(8n)`.
pub proof fn lemma_le_value_bound(bytes: Seq<u8>)
    ensures
        le_value(bytes) < pow2(8 * bytes.len()),
    decreases bytes.len(),
{
    lemma2_to64();
    if bytes.len() > 0 {
        let tail: Seq<u8> = bytes.drop_first();
        lemma_le_value_bound(tail);
        lemma_pow2_adds(8, 8 * tail.len());
        lemma_cat_bound(bytes[0] as int, 8, le_value(tail) as int, 8 * tail.len());
    }
}

/// Bytes that are all zero have the value zero.
pub proof fn lemma_le_value_zero(bytes: Seq<u8>)
    requires
        forall|i: int| 0 <= i < bytes.len() ==> bytes[i] == 0,
    ensures
        le_value(bytes) == 0,
    decreases bytes.len(),
{
    if bytes.len() > 0 {
        lemma_le_value_zero(bytes.drop_first());
    }
}

/// Byte `i` is the field of eight bits at bit `8 * i` of the value.
pub proof fn lemma_le_value_byte(bytes: Seq<u8>, i: nat)
    requires
        i < bytes.len(),
    ensures
        bytes[i as int] == field(le_value(bytes) as int, 8 * i, 8),
    decreases i,
{
    lemma2_to64();
    let tail: Seq<u8> = bytes.drop_first();
    let v: int = le_value(bytes) as int;
    assert(v == cat(bytes[0] as int, 8, le_value(tail) as int));
    lemma_cat_split(bytes[0] as int, 8, le_value(tail) as int);
    if i == 0 {
        assert(above(v, 0) == v);
    } else {
        lemma_le_value_byte(tail, (i - 1) as nat);
        lemma_above_twice(v, 8, (8 * (i - 1)) as nat);
        assert(8 + 8 * (i - 1) == 8 * i);
    }
}

/// Two byte strings of one length with one value are equal.
pub proof fn lemma_le_value_injective(a: Seq<u8>, b: Seq<u8>)
    requires
        a.len() == b.len(),
        le_value(a) == le_value(b),
    ensures
        a == b,
{
    assert forall|i: int| 0 <= i < a.len() implies a[i] == b[i] by {
        lemma_le_value_byte(a, i as nat);
        lemma_le_value_byte(b, i as nat);
    }
    assert(a =~= b);
}

/// `bitvec`'s `load_le` on the bits `lo .. hi` of the frame, viewed in `Lsb0`
/// order. In that order bit `k` of the view is bit `k % 8` of byte `k / 8`, and
/// `load_le` gives the lowest bit of the view the lowest place, so the result is
/// the field of the frame's little-endian value. The crate panics on an empty
/// view and on one wider than the integer.
#[verifier::external_body]
pub(crate) fn load_le(data: &[u8; 18], lo: usize, hi: usize) -> (r: u128)
    requires
        lo < hi <= FRAME_BITS,
        hi - lo <= 128,
    ensures
        r == field(le_value(data@) as int, lo as nat, (hi - lo) as nat),
{
    data.view_bits::<bitvec::order::Lsb0>()[lo..hi].load_le::<u128>()
}

/// `bitvec`'s `store_le` on the bits `lo .. hi` of the frame, viewed in `Lsb0`
/// order. The low `hi - lo` bits of `value` replace the field; every bit outside
/// it stays. The crate panics on an empty view and on one wider than the
/// integer.
#[verifier::external_body]
pub(crate) fn store_le(data: &mut [u8; 18], lo: usize, hi: usize, value: u128)
    requires
        lo < hi <= FRAME_BITS,
        hi - lo <= 128,
    ensures
        le_value(final(data)@) == le_value(old(data)@) + (low(value as int, (hi - lo) as nat)
            - field(le_value(old(data)@) as int, lo as nat, (hi - lo) as nat)) * pow2(lo as nat),
{
    data.view_bits_mut::<bitvec::order::Lsb0>()[lo..hi].store_le::<u128>(value)
}

/// Two to the power `k`.
pub fn power_of_two(k: u32) -> (r: u64)
    requires
        k < 64,
    ensures
        r == pow2(k as nat),
        k <= 32 ==> r <= 0x1_0000_0000,
{
    proof {
        lemma2_to64();
        lemma_pow2_strictly_increases(k as nat, 64);
        if k < 32 {
            lemma_pow2_strictly_increases(k as nat, 32);
        }
        vstd::bits::lemma_u64_shl_is_mul(1, k as u64);
    }
    1u64 << k
}

/// The low `width` bits of `raw`, and what is above them.
pub fn split(raw: u128, width: u32) -> (r: (u128, u128))
    requires
        width < 64,
    ensures
        r.0 == low(raw as int, width as nat),
        r.1 == above(raw as int, width as nat),
        r.0 < pow2(width as nat),
{
    let modulus: u128 = power_of_two(width) as u128;
    proof {
        lemma_pow2_pos(width as nat);
    }
    (raw % modulus, raw / modulus)
}

/// The integer with `first` in its low `width` bits and `rest` above them.
pub fn join(first: u128, width: u32, rest: u128) -> (r: u128)
    requires
        width < 64,
        first < pow2(width as nat),
        rest < pow2((128 - width) as nat),
    ensures
        r == cat(first as int, width as nat, rest as int),
{
    let modulus: u128 = power_of_two(width) as u128;
    proof {
        lemma_cat_bound(first as int, width as nat, rest as int, (128 - width) as nat);
        lemma_pow2_128();
    }
    first + modulus * rest
}

/// Two to the power 128 is one more than the largest `u128`.
pub proof fn lemma_pow2_128()
    ensures
        pow2(128) == u128::MAX + 1,
{
    lemma2_to64();
    lemma_pow2_adds(64, 64);
}

/// Powers of two grow with the exponent.
pub proof fn lemma_pow2_le(a: nat, b: nat)
    requires
        a <= b,
    ensures
        pow2(a) <= pow2(b),
{
    if a < b {
        lemma_pow2_strictly_increases(a, b);
    }
}

/// A fixed-point number that is stored in a field of `WIDTH` bits.
#[derive(Clone, Copy, Debug)]
pub struct Fix<const WIDTH: u32>(pub i32);

impl<const WIDTH: u32> Fix<WIDTH> {
    /// The field that stores the number: the low `WIDTH` bits of its two's
    /// complement. A number that does not fit loses its high bits; nothing is
    /// rounded.
    pub fn embed(self) -> (r: u32)
        requires
            1 <= WIDTH <= 32,
        ensures
            r == embed(self.0 as int, WIDTH as nat),
    {
        let modulus: u64 = power_of_two(WIDTH);
        let lifted: u64 = (self.0 as i64 + 0x1_0000_0000) as u64;
        proof {
            lemma2_to64();
            lemma_pow2_adds(WIDTH as nat, (32 - WIDTH) as nat);
            lemma_mod_multiples_vanish(
                pow2((32 - WIDTH) as nat) as int,
                self.0 as int,
                modulus as int,
            );
            lemma_mod_bound(self.0 as int, modulus as int);
        }
        (lifted % modulus) as u32
    }

    /// The number that a field stores: the field with its top bit as the sign.
    pub fn extract(stored: u32) -> (r: Self)
        requires
            1 <= WIDTH <= 32,
            stored < pow2(WIDTH as nat),
        ensures
            r.0 == extract(stored as int, WIDTH as nat),
    {
        let half: u64 = power_of_two(WIDTH - 1);
        proof {
            lemma2_to64();
            lemma_pow2_unfold(WIDTH as nat);
            if WIDTH < 32 {
                lemma_pow2_strictly_increases(WIDTH as nat, 32);
            }
        }
        if stored as u64 >= half {
            Fix((stored as i64 - 2 * (half as i64)) as i32)
        } else {
            Fix(stored as i32)
        }
    }
}

/// Three numbers stored in three successive fields of `width` bits.
pub open spec fn triple(v: Seq<int>, width: nat) -> int {
    cat(embed(v[0], width), width, cat(embed(v[1], width), width, embed(v[2], width)))
}

/// The three numbers stored in the three fields of `width` bits at the bottom of
/// `raw`.
pub open spec fn untriple(raw: int, width: nat) -> Seq<int> {
    seq![
        extract(field(raw, 0, width), width),
        extract(field(raw, width, width), width),
        extract(field(raw, 2 * width, width), width),
    ]
}

/// Three stored fields take three times the width.
pub proof fn lemma_triple_bound(v: Seq<int>, width: nat)
    ensures
        0 <= triple(v, width) < pow2(3 * width),
{
    lemma_embed_bound(v[0], width);
    lemma_embed_bound(v[1], width);
    lemma_embed_bound(v[2], width);
    lemma_cat_bound(embed(v[1], width), width, embed(v[2], width), width);
    lemma_cat_bound(
        embed(v[0], width),
        width,
        cat(embed(v[1], width), width, embed(v[2], width)),
        width + width,
    );
}

/// The three fields at the bottom of `cat(triple(v, width), 3 * width, rest)` hold
/// the low bits of the numbers, and `rest` is what is above them.
pub proof fn lemma_triple_fields(v: Seq<int>, width: nat, rest: int)
    requires
        0 <= rest,
    ensures
        field(cat(triple(v, width), 3 * width, rest), 0, width) == embed(v[0], width),
        field(cat(triple(v, width), 3 * width, rest), width, width) == embed(v[1], width),
        field(cat(triple(v, width), 3 * width, rest), 2 * width, width) == embed(v[2], width),
        above(cat(triple(v, width), 3 * width, rest), 3 * width) == rest,
        0 <= cat(triple(v, width), 3 * width, rest),
{
    let e0: int = embed(v[0], width);
    let e1: int = embed(v[1], width);
    let e2: int = embed(v[2], width);
    let whole: int = cat(triple(v, width), 3 * width, rest);
    lemma_embed_bound(v[0], width);
    lemma_embed_bound(v[1], width);
    lemma_embed_bound(v[2], width);
    lemma_triple_bound(v, width);
    lemma_pow2_adds(width, width);
    lemma_pow2_adds(width, 2 * width);
    lemma_pow2_pos(width);
    let p: int = pow2(width) as int;
    // The whole in the nested form that the fields are taken from.
    let inner2: int = cat(e2, width, rest);
    let inner1: int = cat(e1, width, inner2);
    assert(whole == cat(e0, width, inner1)) by (nonlinear_arith)
        requires
            whole == (e0 + p * (e1 + p * e2)) + (p * (p * p)) * rest,
            inner1 == e1 + p * (e2 + p * rest),
            cat(e0, width, inner1) == e0 + p * inner1,
    ;
    assert(0 <= inner2) by (nonlinear_arith)
        requires
            inner2 == e2 + p * rest,
            0 <= e2,
            0 <= rest,
            0 < p,
    ;
    assert(0 <= inner1) by (nonlinear_arith)
        requires
            inner1 == e1 + p * inner2,
            0 <= e1,
            0 <= inner2,
            0 < p,
    ;
    assert(0 <= whole) by (nonlinear_arith)
        requires
            whole == e0 + p * inner1,
            0 <= e0,
            0 <= inner1,
            0 < p,
    ;
    lemma_cat_split(e0, width, inner1);
    lemma_cat_split(e1, width, inner2);
    lemma_cat_split(e2, width, rest);
    assert(above(whole, 0) == whole) by {
        lemma2_to64();
    }
    lemma_above_twice(whole, width, width);
    lemma_above_twice(whole, 2 * width, width);
    assert(width + width == 2 * width);
    assert(2 * width + width == 3 * width);
}

/// Three numbers that fit come back out of the fields that store them.
pub proof fn lemma_untriple_triple(v: Seq<int>, width: nat, rest: int)
    requires
        1 <= width,
        v.len() == 3,
        0 <= rest,
        forall|i: int|
            0 <= i < 3 ==> -(pow2((width - 1) as nat) as int) <= #[trigger] v[i] < pow2(
                (width - 1) as nat,
            ),
    ensures
        untriple(cat(triple(v, width), 3 * width, rest), width) == v,
{
    lemma_triple_fields(v, width, rest);
    lemma_extract_embed(v[0], width);
    lemma_extract_embed(v[1], width);
    lemma_extract_embed(v[2], width);
    assert(untriple(cat(triple(v, width), 3 * width, rest), width) =~= v);
}

/// Stores three numbers in three successive fields of `WIDTH` bits.
pub fn pack3<const WIDTH: u32>(v: [Fix<WIDTH>; 3]) -> (r: u128)
    requires
        1 <= WIDTH <= 32,
    ensures
        r == triple(seq![v[0].0 as int, v[1].0 as int, v[2].0 as int], WIDTH as nat),
        r < pow2(3 * WIDTH as nat),
{
    let e0: u128 = v[0].embed() as u128;
    let e1: u128 = v[1].embed() as u128;
    let e2: u128 = v[2].embed() as u128;
    proof {
        let w: nat = WIDTH as nat;
        let s: Seq<int> = seq![v[0].0 as int, v[1].0 as int, v[2].0 as int];
        lemma_embed_bound(s[0], w);
        lemma_embed_bound(s[1], w);
        lemma_embed_bound(s[2], w);
        lemma_cat_bound(e1 as int, w, e2 as int, w);
        lemma_pow2_le(w, (128 - w) as nat);
        lemma_pow2_le(w + w, (128 - w) as nat);
        lemma_triple_bound(s, w);
    }
    let upper: u128 = join(e1, WIDTH, e2);
    join(e0, WIDTH, upper)
}

/// Reads three numbers from the three fields of `WIDTH` bits at the bottom of
/// `raw`, and gives what is above them.
pub fn unpack3<const WIDTH: u32>(raw: u128) -> (r: ([Fix<WIDTH>; 3], u128))
    requires
        1 <= WIDTH <= 32,
    ensures
        seq![r.0[0].0 as int, r.0[1].0 as int, r.0[2].0 as int] == untriple(
            raw as int,
            WIDTH as nat,
        ),
        r.1 == above(raw as int, 3 * WIDTH as nat),
{
    let (f0, r1) = split(raw, WIDTH);
    let (f1, r2) = split(r1, WIDTH);
    let (f2, r3) = split(r2, WIDTH);
    proof {
        let w: nat = WIDTH as nat;
        lemma2_to64();
        lemma_pow2_le(w, 32);
        assert(above(raw as int, 0) == raw as int);
        lemma_above_twice(raw as int, w, w);
        lemma_above_twice(raw as int, 2 * w, w);
        assert(w + w == 2 * w);
        assert(2 * w + w == 3 * w);
    }
    let a: Fix<WIDTH> = Fix::extract(f0 as u32);
    let b: Fix<WIDTH> = Fix::extract(f1 as u32);
    let c: Fix<WIDTH> = Fix::extract(f2 as u32);
    let fields: [Fix<WIDTH>; 3] = [a, b, c];
    assert(seq![fields[0].0 as int, fields[1].0 as int, fields[2].0 as int] =~= untriple(
        raw as int,
        WIDTH as nat,
    ));
    (fields, r3)
}

/// A record of the wire format: a value that is one integer of a fixed number of
/// bits, read from and written to a frame at a bit offset.
pub trait BilgeBitvecExt: Sized {
    /// The number of bits that the record takes.
    spec fn width() -> nat;

    /// The record as an integer.
    spec fn raw(&self) -> int;

    /// Whether the record is one of its width.
    spec fn wf(&self) -> bool;

    /// A record of its width is an integer of that many bits.
    proof fn lemma_raw_bound(&self)
        requires
            self.wf(),
        ensures
            0 <= self.raw() < pow2(Self::width()),
    ;

    /// The number of bits that the record takes.
    fn bits() -> (r: usize)
        ensures
            r == Self::width(),
            1 <= r <= 128,
    ;

    /// The record as an integer.
    fn into_raw(self) -> (r: u128)
        requires
            self.wf(),
        ensures
            r == self.raw(),
    ;

    /// The record that is the integer `raw`.
    fn from_raw(raw: u128) -> (r: Self)
        requires
            raw < pow2(Self::width()),
        ensures
            r.raw() == raw,
            r.wf(),
    ;

    /// Reads the record from the bits of `data` that start at `at`, and gives
    /// the offset of the bit behind it.
    fn read(data: &[u8; 18], at: usize) -> (r: (Self, usize))
        requires
            at + Self::width() <= FRAME_BITS,
        ensures
            r.0.raw() == field(le_value(data@) as int, at as nat, Self::width()),
            r.0.wf(),
            r.1 == at + Self::width(),
    {
        let width: usize = Self::bits();
        let raw: u128 = load_le(data, at, at + width);
        proof {
            lemma_pow2_pos(width as nat);
            lemma_mod_bound(above(le_value(data@) as int, at as nat), pow2(width as nat) as int);
        }
        (Self::from_raw(raw), at + width)
    }

    /// Writes the record to the bits of `data` that start at `at`, and gives the
    /// offset of the bit behind it. The other bits of `data` stay.
    fn write_slice(self, data: &mut [u8; 18], at: usize) -> (next: usize)
        requires
            self.wf(),
            at + Self::width() <= FRAME_BITS,
        ensures
            next == at + Self::width(),
            le_value(final(data)@) == le_value(old(data)@) + (self.raw() - field(
                le_value(old(data)@) as int,
                at as nat,
                Self::width(),
            )) * pow2(at as nat),
    {
        let width: usize = Self::bits();
        proof {
            self.lemma_raw_bound();
            lemma_small(self.raw(), width as nat);
        }
        let value: u128 = self.into_raw();
        store_le(data, at, at + width, value);
        at + width
    }
}

} // verus!
