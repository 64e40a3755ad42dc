use vstd::prelude::*;
use vstd::wrapping::i32_specs;
use crate::encoder::AlignedBlock;

verus! {

pub const CONST_BITS: i32 = 13;
pub const PASS1_BITS: i32 = 2;

pub const FIX_0_298631336: i32 = 2446;
pub const FIX_0_390180644: i32 = 3196;
pub const FIX_0_541196100: i32 = 4433;
pub const FIX_0_765366865: i32 = 6270;
pub const FIX_0_899976223: i32 = 7373;
pub const FIX_1_175875602: i32 = 9633;
pub const FIX_1_501321110: i32 = 12299;
pub const FIX_1_847759065: i32 = 15137;
pub const FIX_1_961570560: i32 = 16069;
pub const FIX_2_053119869: i32 = 16819;
pub const FIX_2_562915447: i32 = 20995;
pub const FIX_3_072711026: i32 = 25172;

/// Two's-complement addition, wrapping at 32 bits.
#[verifier::opaque]
pub open spec fn wadd(a: i32, b: i32) -> i32 {
    i32_specs::wrapping_add(a, b)
}

/// Two's-complement subtraction, wrapping at 32 bits.
#[verifier::opaque]
pub open spec fn wsub(a: i32, b: i32) -> i32 {
    i32_specs::wrapping_sub(a, b)
}

/// Two's-complement multiplication, wrapping at 32 bits.
#[verifier::opaque]
pub open spec fn wmul(a: i32, b: i32) -> i32 {
    i32_specs::wrapping_mul(a, b)
}

pub fn add_wrapping(a: i32, b: i32) -> (r: i32)
    ensures
        r == wadd(a, b),
{
    proof {
        reveal(wadd);
    }
    a.wrapping_add(b)
}

pub fn sub_wrapping(a: i32, b: i32) -> (r: i32)
    ensures
        r == wsub(a, b),
{
    proof {
        reveal(wsub);
    }
    a.wrapping_sub(b)
}

pub fn mul_wrapping(a: i32, b: i32) -> (r: i32)
    ensures
        r == wmul(a, b),
{
    proof {
        reveal(wmul);
    }
    a.wrapping_mul(b)
}

/// Divides by `2^n`, rounding half up.
pub open spec fn spec_descale(x: i32, n: i32) -> i32 {
    wadd(x, (1i32 << ((n - 1) as i32)) as i32) >> n
}

/// The descaling shifts the transform uses.
pub open spec fn descale_shift(n: i32) -> bool {
    n == PASS1_BITS || n == CONST_BITS - PASS1_BITS || n == CONST_BITS + PASS1_BITS
}

/// One pass of the integer DCT of the IJG "islow" method over eight values
/// (all arithmetic wraps at 32 bits): the first pass scales its output up
/// by `2^PASS1_BITS`, the second scales it back down.
#[verifier::opaque]
pub open spec fn fdct_1d(first_pass: bool, i: Seq<i32>) -> Seq<i32> {
    let tmp0 = wadd(i[0], i[7]);
    let tmp7 = wsub(i[0], i[7]);
    let tmp1 = wadd(i[1], i[6]);
    let tmp6 = wsub(i[1], i[6]);
    let tmp2 = wadd(i[2], i[5]);
    let tmp5 = wsub(i[2], i[5]);
    let tmp3 = wadd(i[3], i[4]);
    let tmp4 = wsub(i[3], i[4]);
    let tmp10 = wadd(tmp0, tmp3);
    let tmp13 = wsub(tmp0, tmp3);
    let tmp11 = wadd(tmp1, tmp2);
    let tmp12 = wsub(tmp1, tmp2);
    let out0 = if first_pass { wadd(tmp10, tmp11) << PASS1_BITS } else { spec_descale(wadd(tmp10, tmp11), PASS1_BITS) };
    let out4 = if first_pass { wsub(tmp10, tmp11) << PASS1_BITS } else { spec_descale(wsub(tmp10, tmp11), PASS1_BITS) };
    let z1 = wmul(wadd(tmp12, tmp13), FIX_0_541196100);
    let bits: i32 = (if first_pass { CONST_BITS - PASS1_BITS } else { CONST_BITS + PASS1_BITS }) as i32;
    let out2 = spec_descale(wadd(z1, wmul(tmp13, FIX_0_765366865)), bits);
    let out6 = spec_descale(wadd(z1, wmul(tmp12, (-FIX_1_847759065) as i32)), bits);
    let z1 = wadd(tmp4, tmp7);
    let z2 = wadd(tmp5, tmp6);
    let z3 = wadd(tmp4, tmp6);
    let z4 = wadd(tmp5, tmp7);
    let z5 = wmul(wadd(z3, z4), FIX_1_175875602);
    let tmp4 = wmul(tmp4, FIX_0_298631336);
    let tmp5 = wmul(tmp5, FIX_2_053119869);
    let tmp6 = wmul(tmp6, FIX_3_072711026);
    let tmp7 = wmul(tmp7, FIX_1_501321110);
    let z1 = wmul(z1, (-FIX_0_899976223) as i32);
    let z2 = wmul(z2, (-FIX_2_562915447) as i32);
    let z3 = wadd(wmul(z3, (-FIX_1_961570560) as i32), z5);
    let z4 = wadd(wmul(z4, (-FIX_0_390180644) as i32), z5);
    let out7 = spec_descale(wadd(wadd(tmp4, z1), z3), bits);
    let out5 = spec_descale(wadd(wadd(tmp5, z2), z4), bits);
    let out3 = spec_descale(wadd(wadd(tmp6, z2), z3), bits);
    let out1 = spec_descale(wadd(wadd(tmp7, z1), z4), bits);
    seq![out0, out1, out2, out3, out4, out5, out6, out7]
}

proof fn lemma_wadd_exact(a: i32, b: i32)
    requires
        i32::MIN <= a + b <= i32::MAX,
    ensures
        wadd(a, b) == a + b,
{
    reveal(wadd);
}

proof fn lemma_wsub_exact(a: i32, b: i32)
    requires
        i32::MIN <= a - b <= i32::MAX,
    ensures
        wsub(a, b) == a - b,
{
    reveal(wsub);
}

proof fn lemma_wmul_exact(a: i32, b: i32)
    requires
        i32::MIN <= a * b <= i32::MAX,
    ensures
        wmul(a, b) == a * b,
{
    reveal(wmul);
    let p = a * b;
    if p >= 0 {
        assert(p % 4294967296 == p);
    } else {
        assert(p % 4294967296 == p + 4294967296);
    }
}

/// The shifts of the transform: a left shift by two multiplies by four,
/// and a right shift by `n` is the floor of the division by `2^n`.
proof fn lemma_shift_facts(y: i32)
    by (bit_vector)
    ensures
        (1i32 << 1i32) == 2,
        (1i32 << 10i32) == 1024,
        (1i32 << 14i32) == 16384,
        -0x2000_0000 <= y < 0x2000_0000 ==> y << 2i32 == 4 * y,
        4 * (y >> 2i32) <= y < 4 * (y >> 2i32) + 4,
        2048 * (y >> 11i32) <= y < 2048 * (y >> 11i32) + 2048,
        32768 * (y >> 15i32) <= y < 32768 * (y >> 15i32) + 32768,
{
}

/// Shifting left by `PASS1_BITS` multiplies by four.
proof fn lemma_shl_pass1(x: i32)
    requires
        -0x2000_0000 <= x < 0x2000_0000,
    ensures
        x << PASS1_BITS == 4 * x,
{
    lemma_shift_facts(x);
}

/// The descaling rounds to the nearest multiple of `2^n`, halves up.
proof fn lemma_descale_rounds(x: i32, n: i32)
    requires
        n == 2 || n == 11 || n == 15,
        i32::MIN <= x <= i32::MAX - 16384,
    ensures
        n == 2 ==> 4 * spec_descale(x, n) <= x + 2 < 4 * spec_descale(x, n) + 4,
        n == 11 ==> 2048 * spec_descale(x, n) <= x + 1024 < 2048 * spec_descale(x, n) + 2048,
        n == 15 ==> 32768 * spec_descale(x, n) <= x + 16384 < 32768 * spec_descale(x, n) + 32768,
{
    lemma_shift_facts(x);
    if n == 2 {
        lemma_wadd_exact(x, 2);
        lemma_shift_facts(wadd(x, 2));
    } else if n == 11 {
        lemma_wadd_exact(x, 1024);
        lemma_shift_facts(wadd(x, 1024));
    } else {
        lemma_wadd_exact(x, 16384);
        lemma_shift_facts(wadd(x, 16384));
    }
}

/// `8192 * sqrt(2) * cos(k * pi / 16)`, rounded, for `k` in `0..=8`.
pub open spec fn scaled_cos_table(k: int) -> int {
    if k == 0 {
        11585
    } else if k == 1 {
        11363
    } else if k == 2 {
        10703
    } else if k == 3 {
        9633
    } else if k == 4 {
        8192
    } else if k == 5 {
        6436
    } else if k == 6 {
        4433
    } else if k == 7 {
        2260
    } else {
        0
    }
}

/// `8192 * sqrt(2) * cos(m * pi / 16)`, rounded, for any `m`: the cosine has
/// period 32 here, is even, and changes sign about 8.
pub open spec fn scaled_cos(m: int) -> int {
    let k = m % 32;
    if k <= 8 {
        scaled_cos_table(k)
    } else if k <= 16 {
        -scaled_cos_table(16 - k)
    } else if k <= 24 {
        -scaled_cos_table(k - 16)
    } else {
        scaled_cos_table(32 - k)
    }
}

/// The DCT-II basis, scaled by `8192 * sqrt(2)` and rounded:
/// `c(u) * cos((2x + 1) * u * pi / 16)` with `c(0) = 1 / sqrt(2)`, `c(u) = 1` otherwise.
pub open spec fn dct_basis(u: int, x: int) -> int {
    if u == 0 {
        8192
    } else {
        scaled_cos((2 * x + 1) * u)
    }
}

/// The DCT-II sum of frequency `u` over eight values, in the scale of `dct_basis`.
pub open spec fn dct_sum(i: Seq<i32>, u: int) -> int {
    i[0] * dct_basis(u, 0) + i[1] * dct_basis(u, 1) + i[2] * dct_basis(u, 2) + i[3] * dct_basis(u, 3) + i[4]
        * dct_basis(u, 4) + i[5] * dct_basis(u, 5) + i[6] * dct_basis(u, 6) + i[7] * dct_basis(u, 7)
}

pub open spec fn abs_i32(v: i32) -> int {
    if v < 0 {
        -v
    } else {
        v as int
    }
}

/// The sum of the magnitudes of eight values.
pub open spec fn magnitude_sum(i: Seq<i32>) -> int {
    abs_i32(i[0]) + abs_i32(i[1]) + abs_i32(i[2]) + abs_i32(i[3]) + abs_i32(i[4]) + abs_i32(i[5])
        + abs_i32(i[6]) + abs_i32(i[7])
}

/// The DCT-II sums written out.
proof fn lemma_dct_sums(i: Seq<i32>)
    ensures
        dct_sum(i, 0) == 8192 * i[0] + 8192 * i[1] + 8192 * i[2] + 8192 * i[3] + 8192 * i[4] + 8192 * i[5] + 8192 * i[6] + 8192 * i[7],
        dct_sum(i, 1) == 11363 * i[0] + 9633 * i[1] + 6436 * i[2] + 2260 * i[3] - 2260 * i[4] - 6436 * i[5] - 9633 * i[6] - 11363 * i[7],
        dct_sum(i, 2) == 10703 * i[0] + 4433 * i[1] - 4433 * i[2] - 10703 * i[3] - 10703 * i[4] - 4433 * i[5] + 4433 * i[6] + 10703 * i[7],
        dct_sum(i, 3) == 9633 * i[0] - 2260 * i[1] - 11363 * i[2] - 6436 * i[3] + 6436 * i[4] + 11363 * i[5] + 2260 * i[6] - 9633 * i[7],
        dct_sum(i, 4) == 8192 * i[0] - 8192 * i[1] - 8192 * i[2] + 8192 * i[3] + 8192 * i[4] - 8192 * i[5] - 8192 * i[6] + 8192 * i[7],
        dct_sum(i, 5) == 6436 * i[0] - 11363 * i[1] + 2260 * i[2] + 9633 * i[3] - 9633 * i[4] - 2260 * i[5] + 11363 * i[6] - 6436 * i[7],
        dct_sum(i, 6) == 4433 * i[0] - 10703 * i[1] + 10703 * i[2] - 4433 * i[3] - 4433 * i[4] + 10703 * i[5] - 10703 * i[6] + 4433 * i[7],
        dct_sum(i, 7) == 2260 * i[0] - 6436 * i[1] + 9633 * i[2] - 11363 * i[3] + 11363 * i[4] - 9633 * i[5] + 6436 * i[6] - 2260 * i[7],
{
    assert(dct_basis(1, 0) == 11363);
    assert(dct_basis(1, 1) == 9633);
    assert(dct_basis(1, 2) == 6436);
    assert(dct_basis(1, 3) == 2260);
    assert(dct_basis(1, 4) == -2260);
    assert(dct_basis(1, 5) == -6436);
    assert(dct_basis(1, 6) == -9633);
    assert(dct_basis(1, 7) == -11363);
    assert(dct_basis(2, 0) == 10703);
    assert(dct_basis(2, 1) == 4433);
    assert(dct_basis(2, 2) == -4433);
    assert(dct_basis(2, 3) == -10703);
    assert(dct_basis(2, 4) == -10703);
    assert(dct_basis(2, 5) == -4433);
    assert(dct_basis(2, 6) == 4433);
    assert(dct_basis(2, 7) == 10703);
    assert(dct_basis(3, 0) == 9633);
    assert(dct_basis(3, 1) == -2260);
    assert(dct_basis(3, 2) == -11363);
    assert(dct_basis(3, 3) == -6436);
    assert(dct_basis(3, 4) == 6436);
    assert(dct_basis(3, 5) == 11363);
    assert(dct_basis(3, 6) == 2260);
    assert(dct_basis(3, 7) == -9633);
    assert(dct_basis(4, 0) == 8192);
    assert(dct_basis(4, 1) == -8192);
    assert(dct_basis(4, 2) == -8192);
    assert(dct_basis(4, 3) == 8192);
    assert(dct_basis(4, 4) == 8192);
    assert(dct_basis(4, 5) == -8192);
    assert(dct_basis(4, 6) == -8192);
    assert(dct_basis(4, 7) == 8192);
    assert(dct_basis(5, 0) == 6436);
    assert(dct_basis(5, 1) == -11363);
    assert(dct_basis(5, 2) == 2260);
    assert(dct_basis(5, 3) == 9633);
    assert(dct_basis(5, 4) == -9633);
    assert(dct_basis(5, 5) == -2260);
    assert(dct_basis(5, 6) == 11363);
    assert(dct_basis(5, 7) == -6436);
    assert(dct_basis(6, 0) == 4433);
    assert(dct_basis(6, 1) == -10703);
    assert(dct_basis(6, 2) == 10703);
    assert(dct_basis(6, 3) == -4433);
    assert(dct_basis(6, 4) == -4433);
    assert(dct_basis(6, 5) == 10703);
    assert(dct_basis(6, 6) == -10703);
    assert(dct_basis(6, 7) == 4433);
    assert(dct_basis(7, 0) == 2260);
    assert(dct_basis(7, 1) == -6436);
    assert(dct_basis(7, 2) == 9633);
    assert(dct_basis(7, 3) == -11363);
    assert(dct_basis(7, 4) == 11363);
    assert(dct_basis(7, 5) == -9633);
    assert(dct_basis(7, 6) == 6436);
    assert(dct_basis(7, 7) == -2260);
}

/// The butterfly's coefficients are within one unit of the DCT-II basis.
proof fn lemma_coefficient_gap(i: Seq<i32>)
    ensures
        -magnitude_sum(i) <= i[2] - i[5] <= magnitude_sum(i),
        -magnitude_sum(i) <= 0 <= magnitude_sum(i),
        -magnitude_sum(i) <= i[1] + i[2] - i[5] - i[6] <= magnitude_sum(i),
        -magnitude_sum(i) <= i[0] + i[1] + i[2] - i[5] - i[6] - i[7] <= magnitude_sum(i),
        -magnitude_sum(i) <= -i[1] + i[2] + i[5] - i[6] <= magnitude_sum(i),
        -magnitude_sum(i) <= 0 <= magnitude_sum(i),
{
}

/// The weight of one unit of a pass's output in the scale of `dct_sum`:
/// the first pass keeps two fractional bits, the second none and a factor 8.
pub open spec fn pass_scale(first_pass: bool) -> int {
    if first_pass {
        2048
    } else {
        32768
    }
}

/// Half a unit of a pass's output, in the scale of `dct_sum`.
pub open spec fn pass_half(first_pass: bool) -> int {
    pass_scale(first_pass) / 2
}

/// The even outputs of a pass: the sums of the inputs, exact in the first
/// pass and rounded in the second, and the butterfly sums for 2 and 6.
proof fn lemma_fdct_1d_even(first_pass: bool, i: Seq<i32>)
    requires
        i.len() == 8,
        forall|x: int| 0 <= x < 8 ==> -8192 <= #[trigger] i[x] <= 8192,
    ensures
        first_pass ==> fdct_1d(first_pass, i)[0] == 4 * (i[0] + i[1] + i[2] + i[3] + i[4] + i[5] + i[6] + i[7]),
        first_pass ==> fdct_1d(first_pass, i)[4] == 4 * (i[0] - i[1] - i[2] + i[3] + i[4] - i[5] - i[6] + i[7]),
        !first_pass ==> 4 * fdct_1d(first_pass, i)[0] <= i[0] + i[1] + i[2] + i[3] + i[4] + i[5] + i[6] + i[7] + 2
            < 4 * fdct_1d(first_pass, i)[0] + 4,
        !first_pass ==> 4 * fdct_1d(first_pass, i)[4] <= i[0] - i[1] - i[2] + i[3] + i[4] - i[5] - i[6] + i[7] + 2
            < 4 * fdct_1d(first_pass, i)[4] + 4,
        pass_scale(first_pass) * fdct_1d(first_pass, i)[2] <= 10703 * i[0] + 4433 * i[1] - 4433 * i[2] - 10703 * i[3] - 10703 * i[4] - 4433 * i[5] + 4433 * i[6] + 10703 * i[7] + pass_half(first_pass) < pass_scale(first_pass) * fdct_1d(first_pass, i)[2] + pass_scale(first_pass),
        pass_scale(first_pass) * fdct_1d(first_pass, i)[6] <= 4433 * i[0] - 10704 * i[1] + 10704 * i[2] - 4433 * i[3] - 4433 * i[4] + 10704 * i[5] - 10704 * i[6] + 4433 * i[7] + pass_half(first_pass) < pass_scale(first_pass) * fdct_1d(first_pass, i)[6] + pass_scale(first_pass),
{
    assert(-8192 <= i[0] <= 8192 && -8192 <= i[1] <= 8192 && -8192 <= i[2] <= 8192 && -8192 <= i[3] <= 8192);
    assert(-8192 <= i[4] <= 8192 && -8192 <= i[5] <= 8192 && -8192 <= i[6] <= 8192 && -8192 <= i[7] <= 8192);
    let tmp0 = wadd(i[0], i[7]);
    lemma_wadd_exact(i[0], i[7]);
    let tmp7 = wsub(i[0], i[7]);
    lemma_wsub_exact(i[0], i[7]);
    let tmp1 = wadd(i[1], i[6]);
    lemma_wadd_exact(i[1], i[6]);
    let tmp6 = wsub(i[1], i[6]);
    lemma_wsub_exact(i[1], i[6]);
    let tmp2 = wadd(i[2], i[5]);
    lemma_wadd_exact(i[2], i[5]);
    let tmp5 = wsub(i[2], i[5]);
    lemma_wsub_exact(i[2], i[5]);
    let tmp3 = wadd(i[3], i[4]);
    lemma_wadd_exact(i[3], i[4]);
    let tmp4 = wsub(i[3], i[4]);
    lemma_wsub_exact(i[3], i[4]);
    let tmp10 = wadd(tmp0, tmp3);
    lemma_wadd_exact(tmp0, tmp3);
    let tmp13 = wsub(tmp0, tmp3);
    lemma_wsub_exact(tmp0, tmp3);
    let tmp11 = wadd(tmp1, tmp2);
    lemma_wadd_exact(tmp1, tmp2);
    let tmp12 = wsub(tmp1, tmp2);
    lemma_wsub_exact(tmp1, tmp2);
    let s04 = wadd(tmp10, tmp11);
    lemma_wadd_exact(tmp10, tmp11);
    let d04 = wsub(tmp10, tmp11);
    lemma_wsub_exact(tmp10, tmp11);
    let bits: i32 = (if first_pass { CONST_BITS - PASS1_BITS } else { CONST_BITS + PASS1_BITS }) as i32;
    if first_pass {
        lemma_shl_pass1(s04);
        lemma_shl_pass1(d04);
    } else {
        lemma_descale_rounds(s04, PASS1_BITS);
        lemma_descale_rounds(d04, PASS1_BITS);
    }
    let e12 = wadd(tmp12, tmp13);
    lemma_wadd_exact(tmp12, tmp13);
    let z1 = wmul(e12, FIX_0_541196100);
    lemma_wmul_exact(e12, FIX_0_541196100);
    let m13 = wmul(tmp13, FIX_0_765366865);
    lemma_wmul_exact(tmp13, FIX_0_765366865);
    let m12 = wmul(tmp12, (-FIX_1_847759065) as i32);
    lemma_wmul_exact(tmp12, (-FIX_1_847759065) as i32);
    let a2 = wadd(z1, m13);
    lemma_wadd_exact(z1, m13);
    let a6 = wadd(z1, m12);
    lemma_wadd_exact(z1, m12);
    lemma_descale_rounds(a2, bits);
    lemma_descale_rounds(a6, bits);
    reveal(fdct_1d);
}

/// The odd outputs of a pass: the rotation sums, rounded.
#[verifier::rlimit(40)]
proof fn lemma_fdct_1d_odd(first_pass: bool, i: Seq<i32>)
    requires
        i.len() == 8,
        forall|x: int| 0 <= x < 8 ==> -8192 <= #[trigger] i[x] <= 8192,
    ensures
        pass_scale(first_pass) * fdct_1d(first_pass, i)[1] <= 11363 * i[0] + 9633 * i[1] + 6437 * i[2] + 2260 * i[3] - 2260 * i[4] - 6437 * i[5] - 9633 * i[6] - 11363 * i[7] + pass_half(first_pass) < pass_scale(first_pass) * fdct_1d(first_pass, i)[1] + pass_scale(first_pass),
        pass_scale(first_pass) * fdct_1d(first_pass, i)[3] <= 9633 * i[0] - 2259 * i[1] - 11362 * i[2] - 6436 * i[3] + 6436 * i[4] + 11362 * i[5] + 2259 * i[6] - 9633 * i[7] + pass_half(first_pass) < pass_scale(first_pass) * fdct_1d(first_pass, i)[3] + pass_scale(first_pass),
        pass_scale(first_pass) * fdct_1d(first_pass, i)[5] <= 6437 * i[0] - 11362 * i[1] + 2261 * i[2] + 9633 * i[3] - 9633 * i[4] - 2261 * i[5] + 11362 * i[6] - 6437 * i[7] + pass_half(first_pass) < pass_scale(first_pass) * fdct_1d(first_pass, i)[5] + pass_scale(first_pass),
        pass_scale(first_pass) * fdct_1d(first_pass, i)[7] <= 2260 * i[0] - 6436 * i[1] + 9633 * i[2] - 11363 * i[3] + 11363 * i[4] - 9633 * i[5] + 6436 * i[6] - 2260 * i[7] + pass_half(first_pass) < pass_scale(first_pass) * fdct_1d(first_pass, i)[7] + pass_scale(first_pass),
{
    assert(-8192 <= i[0] <= 8192 && -8192 <= i[1] <= 8192 && -8192 <= i[2] <= 8192 && -8192 <= i[3] <= 8192);
    assert(-8192 <= i[4] <= 8192 && -8192 <= i[5] <= 8192 && -8192 <= i[6] <= 8192 && -8192 <= i[7] <= 8192);
    let tmp0 = wadd(i[0], i[7]);
    lemma_wadd_exact(i[0], i[7]);
    let tmp7 = wsub(i[0], i[7]);
    lemma_wsub_exact(i[0], i[7]);
    let tmp1 = wadd(i[1], i[6]);
    lemma_wadd_exact(i[1], i[6]);
    let tmp6 = wsub(i[1], i[6]);
    lemma_wsub_exact(i[1], i[6]);
    let tmp2 = wadd(i[2], i[5]);
    lemma_wadd_exact(i[2], i[5]);
    let tmp5 = wsub(i[2], i[5]);
    lemma_wsub_exact(i[2], i[5]);
    let tmp3 = wadd(i[3], i[4]);
    lemma_wadd_exact(i[3], i[4]);
    let tmp4 = wsub(i[3], i[4]);
    lemma_wsub_exact(i[3], i[4]);
    let bits: i32 = (if first_pass { CONST_BITS - PASS1_BITS } else { CONST_BITS + PASS1_BITS }) as i32;
    let y1 = wadd(tmp4, tmp7);
    lemma_wadd_exact(tmp4, tmp7);
    let y2 = wadd(tmp5, tmp6);
    lemma_wadd_exact(tmp5, tmp6);
    let y3 = wadd(tmp4, tmp6);
    lemma_wadd_exact(tmp4, tmp6);
    let y4 = wadd(tmp5, tmp7);
    lemma_wadd_exact(tmp5, tmp7);
    let y34 = wadd(y3, y4);
    lemma_wadd_exact(y3, y4);
    let z5 = wmul(y34, FIX_1_175875602);
    lemma_wmul_exact(y34, FIX_1_175875602);
    let m4 = wmul(tmp4, FIX_0_298631336);
    lemma_wmul_exact(tmp4, FIX_0_298631336);
    let m5 = wmul(tmp5, FIX_2_053119869);
    lemma_wmul_exact(tmp5, FIX_2_053119869);
    let m6 = wmul(tmp6, FIX_3_072711026);
    lemma_wmul_exact(tmp6, FIX_3_072711026);
    let m7 = wmul(tmp7, FIX_1_501321110);
    lemma_wmul_exact(tmp7, FIX_1_501321110);
    let w1 = wmul(y1, (-FIX_0_899976223) as i32);
    lemma_wmul_exact(y1, (-FIX_0_899976223) as i32);
    let w2 = wmul(y2, (-FIX_2_562915447) as i32);
    lemma_wmul_exact(y2, (-FIX_2_562915447) as i32);
    let n3 = wmul(y3, (-FIX_1_961570560) as i32);
    lemma_wmul_exact(y3, (-FIX_1_961570560) as i32);
    let n4 = wmul(y4, (-FIX_0_390180644) as i32);
    lemma_wmul_exact(y4, (-FIX_0_390180644) as i32);
    let w3 = wadd(n3, z5);
    lemma_wadd_exact(n3, z5);
    let w4 = wadd(n4, z5);
    lemma_wadd_exact(n4, z5);
    let p7 = wadd(m4, w1);
    lemma_wadd_exact(m4, w1);
    let p5 = wadd(m5, w2);
    lemma_wadd_exact(m5, w2);
    let p3 = wadd(m6, w2);
    lemma_wadd_exact(m6, w2);
    let p1 = wadd(m7, w1);
    lemma_wadd_exact(m7, w1);
    let a7 = wadd(p7, w3);
    lemma_wadd_exact(p7, w3);
    let a5 = wadd(p5, w4);
    lemma_wadd_exact(p5, w4);
    let a3 = wadd(p3, w3);
    lemma_wadd_exact(p3, w3);
    let a1 = wadd(p1, w4);
    lemma_wadd_exact(p1, w4);
    lemma_descale_rounds(a7, bits);
    lemma_descale_rounds(a5, bits);
    lemma_descale_rounds(a3, bits);
    lemma_descale_rounds(a1, bits);
    reveal(fdct_1d);
}

/// Each output of a pass is the DCT-II coefficient of its frequency:
/// `out[u] * 2048` (first pass) or `out[u] * 32768` (second pass) is
/// `dct_sum(i, u)` up to half a unit of rounding and one unit of
/// coefficient precision per input magnitude.
pub proof fn lemma_fdct_1d_is_dct(first_pass: bool, i: Seq<i32>)
    requires
        i.len() == 8,
        forall|x: int| 0 <= x < 8 ==> -8192 <= #[trigger] i[x] <= 8192,
    ensures
        forall|u: int|
            0 <= u < 8 ==> -pass_half(first_pass) - magnitude_sum(i) <= pass_scale(first_pass) * #[trigger] fdct_1d(
                first_pass,
                i,
            )[u] - dct_sum(i, u) <= pass_half(first_pass) + magnitude_sum(i),
{
    assert(-8192 <= i[0] <= 8192 && -8192 <= i[1] <= 8192 && -8192 <= i[2] <= 8192 && -8192 <= i[3] <= 8192);
    assert(-8192 <= i[4] <= 8192 && -8192 <= i[5] <= 8192 && -8192 <= i[6] <= 8192 && -8192 <= i[7] <= 8192);
    lemma_fdct_1d_even(first_pass, i);
    lemma_fdct_1d_odd(first_pass, i);
    lemma_dct_sums(i);
    lemma_coefficient_gap(i);
    let o = fdct_1d(first_pass, i);
    assert forall|u: int|
        0 <= u < 8 implies -pass_half(first_pass) - magnitude_sum(i) <= pass_scale(first_pass) * #[trigger] o[u] - dct_sum(i, u)
            <= pass_half(first_pass) + magnitude_sum(i) by {
        if u == 0 {
        } else if u == 1 {
        } else if u == 2 {
        } else if u == 3 {
        } else if u == 4 {
        } else if u == 5 {
        } else if u == 6 {
        } else {
        }
    }
}

/// Row `y` of a block, widened.
pub open spec fn row_of(d: Seq<i16>, y: int) -> Seq<i32> {
    Seq::new(8, |k: int| d[y * 8 + k] as i32)
}

/// Column `x` of the intermediate values.
pub open spec fn col_of(d: Seq<i32>, x: int) -> Seq<i32> {
    Seq::new(8, |k: int| d[k * 8 + x])
}

/// The first pass: each row transformed.
pub open spec fn rows_pass(d: Seq<i16>) -> Seq<i32> {
    Seq::new(64, |idx: int| fdct_1d(true, row_of(d, idx / 8))[idx % 8])
}

/// The forward DCT of a block: the rows transformed, then the columns,
/// truncated to 16 bits.
pub open spec fn fdct_spec(d: Seq<i16>) -> Seq<i16> {
    Seq::new(64, |idx: int| fdct_1d(false, col_of(rows_pass(d), idx % 8))[idx / 8] as i16)
}

/// The basis is within its largest value, `8192 * sqrt(2)`.
proof fn lemma_dct_basis_bound(u: int, x: int)
    ensures
        -11585 <= dct_basis(u, x) <= 11585,
{
}

proof fn lemma_product_bound(a: int, b: int, ma: int, mb: int)
    by (nonlinear_arith)
    requires
        -ma <= a <= ma,
        -mb <= b <= mb,
    ensures
        -(ma * mb) <= a * b <= ma * mb,
{
}

/// One term of the column sum: an output of the first pass weighted by the
/// vertical basis, against the exact row sum it rounds.
proof fn lemma_weighted_rounding(c: int, b: int, s: int)
    by (nonlinear_arith)
    requires
        -2048 <= 2048 * c - s <= 2048,
        -11585 <= b <= 11585,
    ensures
        -23726080 <= 2048 * (c * b) - b * s <= 23726080,
{
}

/// A DCT-II sum of eight values of magnitude at most `m` (at most 8192):
/// it is at most `8 * 11585 * m`.
proof fn lemma_dct_sum_bound(i: Seq<i32>, u: int, m: int)
    requires
        0 <= m <= 8192,
        i.len() == 8,
        forall|x: int| 0 <= x < 8 ==> -m <= #[trigger] i[x] <= m,
    ensures
        -92680 * m <= dct_sum(i, u) <= 92680 * m,
        magnitude_sum(i) <= 8 * m,
{
    assert forall|x: int| 0 <= x < 8 implies -(m * 11585) <= #[trigger] i[x] * dct_basis(u, x) <= m * 11585 by {
        lemma_dct_basis_bound(u, x);
        lemma_product_bound(i[x] as int, dct_basis(u, x), m, 11585);
    }
    assert(-(m * 11585) <= i[0] * dct_basis(u, 0) <= m * 11585);
    assert(-(m * 11585) <= i[1] * dct_basis(u, 1) <= m * 11585);
    assert(-(m * 11585) <= i[2] * dct_basis(u, 2) <= m * 11585);
    assert(-(m * 11585) <= i[3] * dct_basis(u, 3) <= m * 11585);
    assert(-(m * 11585) <= i[4] * dct_basis(u, 4) <= m * 11585);
    assert(-(m * 11585) <= i[5] * dct_basis(u, 5) <= m * 11585);
    assert(-(m * 11585) <= i[6] * dct_basis(u, 6) <= m * 11585);
    assert(-(m * 11585) <= i[7] * dct_basis(u, 7) <= m * 11585);
}

/// The 2-D DCT-II sum of the horizontal frequency `u` and the vertical
/// frequency `v` over a block: each row's sum for `u`, weighted by the
/// vertical basis for `v`.
pub open spec fn dct2_sum(d: Seq<i16>, u: int, v: int) -> int {
    dct_basis(v, 0) * dct_sum(row_of(d, 0), u) + dct_basis(v, 1) * dct_sum(row_of(d, 1), u) + dct_basis(v, 2)
        * dct_sum(row_of(d, 2), u) + dct_basis(v, 3) * dct_sum(row_of(d, 3), u) + dct_basis(v, 4) * dct_sum(
        row_of(d, 4),
        u,
    ) + dct_basis(v, 5) * dct_sum(row_of(d, 5), u) + dct_basis(v, 6) * dct_sum(row_of(d, 6), u) + dct_basis(v, 7)
        * dct_sum(row_of(d, 7), u)
}

/// The transform of a block of samples (magnitudes up to 128) holds at
/// position `v * 8 + u` its 2-D DCT-II coefficient of horizontal frequency
/// `u` and vertical frequency `v`: `2^26` times it is `dct2_sum(d, u, v)`
/// to within `320_000_000` (under five units of the coefficient).
pub proof fn lemma_fdct_is_dct2(d: Seq<i16>)
    requires
        d.len() == 64,
        forall|k: int| 0 <= k < 64 ==> -128 <= #[trigger] d[k] <= 128,
    ensures
        forall|u: int, v: int|
            0 <= u < 8 && 0 <= v < 8 ==> -320_000_000 <= 67108864 * #[trigger] fdct_spec(d)[v * 8 + u] - dct2_sum(
                d,
                u,
                v,
            ) <= 320_000_000,
{
    assert forall|u: int, v: int| 0 <= u < 8 && 0 <= v < 8 implies -320_000_000 <= 67108864 * #[trigger] fdct_spec(
        d,
    )[v * 8 + u] - dct2_sum(d, u, v) <= 320_000_000 by {
        lemma_fdct_coefficient(d, u, v);
    }
}

#[verifier::rlimit(40)]
proof fn lemma_fdct_coefficient(d: Seq<i16>, u: int, v: int)
    requires
        d.len() == 64,
        forall|k: int| 0 <= k < 64 ==> -128 <= #[trigger] d[k] <= 128,
        0 <= u < 8,
        0 <= v < 8,
    ensures
        -320_000_000 <= 67108864 * fdct_spec(d)[v * 8 + u] - dct2_sum(d, u, v) <= 320_000_000,
{
    let c = col_of(rows_pass(d), u);
    assert forall|y: int| 0 <= y < 8 implies -5794 <= #[trigger] c[y] <= 5794 && -2048 <= 2048 * c[y] - dct_sum(
        row_of(d, y),
        u,
    ) <= 2048 by {
        let row = row_of(d, y);
        assert forall|x: int| 0 <= x < 8 implies -128 <= #[trigger] row[x] <= 128 by {
            assert(row[x] == d[y * 8 + x]);
        }
        lemma_fdct_1d_is_dct(true, row);
        lemma_dct_sum_bound(row, u, 128);
        assert((y * 8 + u) / 8 == y && (y * 8 + u) % 8 == u);
        assert(c[y] == fdct_1d(true, row)[u]);
    }
    lemma_fdct_1d_is_dct(false, c);
    lemma_dct_sum_bound(c, v, 5794);
    let f = fdct_1d(false, c)[v];
    assert((v * 8 + u) % 8 == u && (v * 8 + u) / 8 == v);
    assert(fdct_spec(d)[v * 8 + u] == f as i16);
    assert(-32768 <= f <= 32767);
    assert(fdct_spec(d)[v * 8 + u] == f);
    assert forall|y: int| 0 <= y < 8 implies -23726080 <= 2048 * (#[trigger] c[y] * dct_basis(v, y)) - dct_basis(v, y)
        * dct_sum(row_of(d, y), u) <= 23726080 by {
        lemma_dct_basis_bound(v, y);
        lemma_weighted_rounding(c[y] as int, dct_basis(v, y), dct_sum(row_of(d, y), u));
    }
    assert(-23726080 <= 2048 * (c[0] * dct_basis(v, 0)) - dct_basis(v, 0) * dct_sum(row_of(d, 0), u) <= 23726080);
    assert(-23726080 <= 2048 * (c[1] * dct_basis(v, 1)) - dct_basis(v, 1) * dct_sum(row_of(d, 1), u) <= 23726080);
    assert(-23726080 <= 2048 * (c[2] * dct_basis(v, 2)) - dct_basis(v, 2) * dct_sum(row_of(d, 2), u) <= 23726080);
    assert(-23726080 <= 2048 * (c[3] * dct_basis(v, 3)) - dct_basis(v, 3) * dct_sum(row_of(d, 3), u) <= 23726080);
    assert(-23726080 <= 2048 * (c[4] * dct_basis(v, 4)) - dct_basis(v, 4) * dct_sum(row_of(d, 4), u) <= 23726080);
    assert(-23726080 <= 2048 * (c[5] * dct_basis(v, 5)) - dct_basis(v, 5) * dct_sum(row_of(d, 5), u) <= 23726080);
    assert(-23726080 <= 2048 * (c[6] * dct_basis(v, 6)) - dct_basis(v, 6) * dct_sum(row_of(d, 6), u) <= 23726080);
    assert(-23726080 <= 2048 * (c[7] * dct_basis(v, 7)) - dct_basis(v, 7) * dct_sum(row_of(d, 7), u) <= 23726080);
}

/// A forward DCT of 8x8 blocks.
pub trait FDCT {
    fn fdct(data: &mut AlignedBlock)
        ensures
            final(data).data@ == fdct_spec(old(data).data@),
    ;
}

#[inline(always)]
pub fn descale(x: i32, n: i32) -> (r: i32)
    requires
        descale_shift(n),
    ensures
        r == spec_descale(x, n),
{
    add_wrapping(x, 1i32 << (n - 1)) >> n
}

/// One pass over eight values.
pub fn fdct_1d_exec(first_pass: bool, i0: i32, i1: i32, i2: i32, i3: i32, i4: i32, i5: i32, i6: i32, i7: i32) -> (r: [i32; 8])
    ensures
        r@ == fdct_1d(first_pass, seq![i0, i1, i2, i3, i4, i5, i6, i7]),
        -8192 <= i0 <= 8192 && -8192 <= i1 <= 8192 && -8192 <= i2 <= 8192 && -8192 <= i3 <= 8192 && -8192 <= i4
            <= 8192 && -8192 <= i5 <= 8192 && -8192 <= i6 <= 8192 && -8192 <= i7 <= 8192 ==> forall|u: int|
            0 <= u < 8 ==> -pass_half(first_pass) - magnitude_sum(seq![i0, i1, i2, i3, i4, i5, i6, i7]) <= pass_scale(
                first_pass,
            ) * #[trigger] r[u] - dct_sum(seq![i0, i1, i2, i3, i4, i5, i6, i7], u) <= pass_half(first_pass)
                + magnitude_sum(seq![i0, i1, i2, i3, i4, i5, i6, i7]),
{
    let tmp0 = add_wrapping(i0, i7);
    let tmp7 = sub_wrapping(i0, i7);
    let tmp1 = add_wrapping(i1, i6);
    let tmp6 = sub_wrapping(i1, i6);
    let tmp2 = add_wrapping(i2, i5);
    let tmp5 = sub_wrapping(i2, i5);
    let tmp3 = add_wrapping(i3, i4);
    let tmp4 = sub_wrapping(i3, i4);

    let tmp10 = add_wrapping(tmp0, tmp3);
    let tmp13 = sub_wrapping(tmp0, tmp3);
    let tmp11 = add_wrapping(tmp1, tmp2);
    let tmp12 = sub_wrapping(tmp1, tmp2);

    let out0 = if first_pass {
        add_wrapping(tmp10, tmp11) << PASS1_BITS
    } else {
        descale(add_wrapping(tmp10, tmp11), PASS1_BITS)
    };

    let out4 = if first_pass {
        sub_wrapping(tmp10, tmp11) << PASS1_BITS
    } else {
        descale(sub_wrapping(tmp10, tmp11), PASS1_BITS)
    };

    let z1 = mul_wrapping(add_wrapping(tmp12, tmp13), FIX_0_541196100);
    let descale_bits = if first_pass {
        CONST_BITS - PASS1_BITS
    } else {
        CONST_BITS + PASS1_BITS
    };

    let out2 = descale(add_wrapping(z1, mul_wrapping(tmp13, FIX_0_765366865)), descale_bits);
    let out6 = descale(add_wrapping(z1, mul_wrapping(tmp12, -FIX_1_847759065)), descale_bits);

    let z1 = add_wrapping(tmp4, tmp7);
    let z2 = add_wrapping(tmp5, tmp6);
    let z3 = add_wrapping(tmp4, tmp6);
    let z4 = add_wrapping(tmp5, tmp7);
    let z5 = mul_wrapping(add_wrapping(z3, z4), FIX_1_175875602);

    let tmp4 = mul_wrapping(tmp4, FIX_0_298631336);
    let tmp5 = mul_wrapping(tmp5, FIX_2_053119869);
    let tmp6 = mul_wrapping(tmp6, FIX_3_072711026);
    let tmp7 = mul_wrapping(tmp7, FIX_1_501321110);
    let z1 = mul_wrapping(z1, -FIX_0_899976223);
    let z2 = mul_wrapping(z2, -FIX_2_562915447);
    let z3 = add_wrapping(mul_wrapping(z3, -FIX_1_961570560), z5);
    let z4 = add_wrapping(mul_wrapping(z4, -FIX_0_390180644), z5);

    let out7 = descale(add_wrapping(add_wrapping(tmp4, z1), z3), descale_bits);
    let out5 = descale(add_wrapping(add_wrapping(tmp5, z2), z4), descale_bits);
    let out3 = descale(add_wrapping(add_wrapping(tmp6, z2), z3), descale_bits);
    let out1 = descale(add_wrapping(add_wrapping(tmp7, z1), z4), descale_bits);

    proof {
        reveal(fdct_1d);
    }
    let r = [out0, out1, out2, out3, out4, out5, out6, out7];
    proof {
        let i = seq![i0, i1, i2, i3, i4, i5, i6, i7];
        assert(r@ == fdct_1d(first_pass, i));
        if -8192 <= i0 <= 8192 && -8192 <= i1 <= 8192 && -8192 <= i2 <= 8192 && -8192 <= i3 <= 8192 && -8192
            <= i4 <= 8192 && -8192 <= i5 <= 8192 && -8192 <= i6 <= 8192 && -8192 <= i7 <= 8192 {
            assert forall|x: int| 0 <= x < 8 implies -8192 <= #[trigger] i[x] <= 8192 by {}
            lemma_fdct_1d_is_dct(first_pass, i);
            assert forall|u: int| 0 <= u < 8 implies r[u] == #[trigger] fdct_1d(first_pass, i)[u] by {}
        }
    }
    r
}

/// The scalar transform: rows, then columns.
pub struct DefaultFDCT;

impl FDCT for DefaultFDCT {
    fn fdct(data: &mut AlignedBlock) {
        let ghost d = data.data@;
        let mut data2 = [0i32;64];
        // Pass 1: process rows.
        let mut y: usize = 0;
        while y < 8
            invariant
                y <= 8,
                data.data@ == d,
                forall|idx: int| 0 <= idx < y * 8 ==> #[trigger] data2[idx] == rows_pass(d)[idx],
            decreases 8 - y,
        {
            let offset = y * 8;
            let r = fdct_1d_exec(
                true,
                data.data[offset] as i32,
                data.data[offset + 1] as i32,
                data.data[offset + 2] as i32,
                data.data[offset + 3] as i32,
                data.data[offset + 4] as i32,
                data.data[offset + 5] as i32,
                data.data[offset + 6] as i32,
                data.data[offset + 7] as i32,
            );
            proof {
                assert(seq![data.data[offset as int] as i32, data.data[offset + 1] as i32, data.data[offset + 2] as i32,
                    data.data[offset + 3] as i32, data.data[offset + 4] as i32, data.data[offset + 5] as i32,
                    data.data[offset + 6] as i32, data.data[offset + 7] as i32] =~= row_of(d, y as int));
            }
            let mut x: usize = 0;
            while x < 8
                invariant
                    x <= 8,
                    y < 8,
                    offset == y * 8,
                    data.data@ == d,
                    r@ == fdct_1d(true, row_of(d, y as int)),
                    forall|idx: int| 0 <= idx < offset + x ==> #[trigger] data2[idx] == rows_pass(d)[idx],
                decreases 8 - x,
            {
                data2[offset + x] = r[x];
                proof {
                    let idx = offset + x;
                    assert(idx / 8 == y && idx % 8 == x);
                }
                x += 1;
            }
            y += 1;
        }

        // Pass 2: process columns.
        let mut x: usize = 0;
        while x < 8
            invariant
                x <= 8,
                forall|idx: int| 0 <= idx < 64 ==> #[trigger] data2[idx] == rows_pass(d)[idx],
                forall|idx: int| 0 <= idx < 64 && idx % 8 < x ==> #[trigger] data.data[idx] == fdct_spec(d)[idx],
            decreases 8 - x,
        {
            let r = fdct_1d_exec(
                false,
                data2[x],
                data2[8 + x],
                data2[16 + x],
                data2[24 + x],
                data2[32 + x],
                data2[40 + x],
                data2[48 + x],
                data2[56 + x],
            );
            proof {
                assert(seq![data2[x as int], data2[8 + x], data2[16 + x], data2[24 + x], data2[32 + x],
                    data2[40 + x], data2[48 + x], data2[56 + x]] =~= col_of(rows_pass(d), x as int));
            }
            let mut k: usize = 0;
            while k < 8
                invariant
                    k <= 8,
                    x < 8,
                    r@ == fdct_1d(false, col_of(rows_pass(d), x as int)),
                    forall|idx: int| 0 <= idx < 64 ==> #[trigger] data2[idx] == rows_pass(d)[idx],
                    forall|idx: int| 0 <= idx < 64 && (idx % 8 < x || (idx % 8 == x && idx / 8 < k)) ==> #[trigger] data.data[idx] == fdct_spec(d)[idx],
                decreases 8 - k,
            {
                data.data[k * 8 + x] = r[k] as i16;
                proof {
                    let idx = k * 8 + x;
                    assert(idx / 8 == k && idx % 8 == x);
                }
                k += 1;
            }
            x += 1;
        }
        proof {
            assert(data.data@ =~= fdct_spec(d));
        }
    }
}

} // verus!
