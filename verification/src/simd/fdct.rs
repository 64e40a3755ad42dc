use vstd::prelude::*;
use crate::encoder::AlignedBlock;
use crate::fdct::{
    add_wrapping, sub_wrapping, mul_wrapping, wadd, wsub, wmul, spec_descale, descale_shift,
    fdct_1d, rows_pass, fdct_spec, row_of, col_of, FDCT, CONST_BITS, PASS1_BITS,
    FIX_0_298631336, FIX_0_390180644, FIX_0_541196100, FIX_0_765366865, FIX_0_899976223,
    FIX_1_175875602, FIX_1_501321110, FIX_1_847759065, FIX_1_961570560, FIX_2_053119869,
    FIX_2_562915447, FIX_3_072711026,
};

verus! {

/// Eight 32-bit lanes, transformed together.
pub type Lanes = [i32; 8];

/// The values that lane `j` holds in each of the eight vectors.
pub open spec fn lane(v: [Lanes; 8], j: int) -> Seq<i32> {
    Seq::new(8, |i: int| v[i][j])
}

fn splat(v: i32) -> (r: Lanes)
    ensures
        forall|j: int| 0 <= j < 8 ==> #[trigger] r[j] == v,
{
    [v; 8]
}

fn lanes_add(a: &Lanes, b: &Lanes) -> (r: Lanes)
    ensures
        forall|j: int| 0 <= j < 8 ==> #[trigger] r[j] == wadd(a[j], b[j]),
{
    let mut r = [0i32; 8];
    let mut j: usize = 0;
    while j < 8
        invariant
            j <= 8,
            forall|k: int| 0 <= k < j ==> #[trigger] r[k] == wadd(a[k], b[k]),
        decreases 8 - j,
    {
        r[j] = add_wrapping(a[j], b[j]);
        j += 1;
    }
    r
}

fn lanes_sub(a: &Lanes, b: &Lanes) -> (r: Lanes)
    ensures
        forall|j: int| 0 <= j < 8 ==> #[trigger] r[j] == wsub(a[j], b[j]),
{
    let mut r = [0i32; 8];
    let mut j: usize = 0;
    while j < 8
        invariant
            j <= 8,
            forall|k: int| 0 <= k < j ==> #[trigger] r[k] == wsub(a[k], b[k]),
        decreases 8 - j,
    {
        r[j] = sub_wrapping(a[j], b[j]);
        j += 1;
    }
    r
}

fn lanes_mul(a: &Lanes, b: &Lanes) -> (r: Lanes)
    ensures
        forall|j: int| 0 <= j < 8 ==> #[trigger] r[j] == wmul(a[j], b[j]),
{
    let mut r = [0i32; 8];
    let mut j: usize = 0;
    while j < 8
        invariant
            j <= 8,
            forall|k: int| 0 <= k < j ==> #[trigger] r[k] == wmul(a[k], b[k]),
        decreases 8 - j,
    {
        r[j] = mul_wrapping(a[j], b[j]);
        j += 1;
    }
    r
}

fn lanes_shl(a: &Lanes, n: i32) -> (r: Lanes)
    requires
        0 <= n < 32,
    ensures
        forall|j: int| 0 <= j < 8 ==> #[trigger] r[j] == a[j] << n,
{
    let mut r = [0i32; 8];
    let mut j: usize = 0;
    while j < 8
        invariant
            j <= 8,
            0 <= n < 32,
            forall|k: int| 0 <= k < j ==> #[trigger] r[k] == a[k] << n,
        decreases 8 - j,
    {
        r[j] = a[j] << n;
        j += 1;
    }
    r
}

#[inline(always)]
fn descale(x: &Lanes, n: i32) -> (r: Lanes)
    requires
        descale_shift(n),
    ensures
        forall|j: int| 0 <= j < 8 ==> #[trigger] r[j] == spec_descale(x[j], n),
{
    let rounded = lanes_add(x, &splat(1i32 << (n - 1)));
    let mut r = [0i32; 8];
    let mut j: usize = 0;
    while j < 8
        invariant
            j <= 8,
            descale_shift(n),
            forall|k: int| 0 <= k < 8 ==> #[trigger] rounded[k] == wadd(x[k], 1i32 << (n - 1)),
            forall|k: int| 0 <= k < j ==> #[trigger] r[k] == spec_descale(x[k], n),
        decreases 8 - j,
    {
        r[j] = rounded[j] >> n;
        j += 1;
    }
    r
}

/// Column `x` of a block, widened, one row per lane.
#[inline(always)]
fn load_col(data: &[i16; 64], x: usize) -> (r: Lanes)
    requires
        x < 8,
    ensures
        forall|y: int| 0 <= y < 8 ==> #[trigger] r[y] == data[y * 8 + x] as i32,
{
    let mut r = [0i32; 8];
    let mut y: usize = 0;
    while y < 8
        invariant
            y <= 8,
            x < 8,
            forall|k: int| 0 <= k < y ==> #[trigger] r[k] == data[k * 8 + x] as i32,
        decreases 8 - y,
    {
        r[y] = data[y * 8 + x] as i32;
        y += 1;
    }
    r
}

/// Row `y` of the intermediate values, one column per lane.
#[inline(always)]
fn load_row(data: &[i32; 64], y: usize) -> (r: Lanes)
    requires
        y < 8,
    ensures
        forall|x: int| 0 <= x < 8 ==> #[trigger] r[x] == data[y * 8 + x],
{
    let mut r = [0i32; 8];
    let mut x: usize = 0;
    while x < 8
        invariant
            x <= 8,
            y < 8,
            forall|k: int| 0 <= k < x ==> #[trigger] r[k] == data[y * 8 + k],
        decreases 8 - x,
    {
        r[x] = data[y * 8 + x];
        x += 1;
    }
    r
}

/// One pass of the transform, carried out on all eight lanes at once:
/// lane `j` of the result is the one-dimensional transform of lane `j`
/// of the input.
#[verifier::rlimit(60)]
fn fdct_pass(first_pass: bool, input: [Lanes; 8]) -> (r: [Lanes; 8])
    ensures
        forall|j: int| 0 <= j < 8 ==> #[trigger] lane(r, j) == fdct_1d(first_pass, lane(input, j)),
{
    let i0 = input[0];
    let i1 = input[1];
    let i2 = input[2];
    let i3 = input[3];
    let i4 = input[4];
    let i5 = input[5];
    let i6 = input[6];
    let i7 = input[7];

    let tmp0 = lanes_add(&i0, &i7);
    let tmp7 = lanes_sub(&i0, &i7);
    let tmp1 = lanes_add(&i1, &i6);
    let tmp6 = lanes_sub(&i1, &i6);
    let tmp2 = lanes_add(&i2, &i5);
    let tmp5 = lanes_sub(&i2, &i5);
    let tmp3 = lanes_add(&i3, &i4);
    let tmp4 = lanes_sub(&i3, &i4);

    let tmp10 = lanes_add(&tmp0, &tmp3);
    let tmp13 = lanes_sub(&tmp0, &tmp3);
    let tmp11 = lanes_add(&tmp1, &tmp2);
    let tmp12 = lanes_sub(&tmp1, &tmp2);

    let sum = lanes_add(&tmp10, &tmp11);
    let diff = lanes_sub(&tmp10, &tmp11);
    let out0 = if first_pass {
        lanes_shl(&sum, PASS1_BITS)
    } else {
        descale(&sum, PASS1_BITS)
    };
    let out4 = if first_pass {
        lanes_shl(&diff, PASS1_BITS)
    } else {
        descale(&diff, PASS1_BITS)
    };

    let z1 = lanes_mul(&lanes_add(&tmp12, &tmp13), &splat(FIX_0_541196100));
    let descale_bits = if first_pass {
        CONST_BITS - PASS1_BITS
    } else {
        CONST_BITS + PASS1_BITS
    };

    let out2 = descale(&lanes_add(&z1, &lanes_mul(&tmp13, &splat(FIX_0_765366865))), descale_bits);
    let out6 = descale(&lanes_add(&z1, &lanes_mul(&tmp12, &splat(-FIX_1_847759065))), descale_bits);

    let z1 = lanes_add(&tmp4, &tmp7);
    let z2 = lanes_add(&tmp5, &tmp6);
    let z3 = lanes_add(&tmp4, &tmp6);
    let z4 = lanes_add(&tmp5, &tmp7);
    let z5 = lanes_mul(&lanes_add(&z3, &z4), &splat(FIX_1_175875602));

    let tmp4 = lanes_mul(&tmp4, &splat(FIX_0_298631336));
    let tmp5 = lanes_mul(&tmp5, &splat(FIX_2_053119869));
    let tmp6 = lanes_mul(&tmp6, &splat(FIX_3_072711026));
    let tmp7 = lanes_mul(&tmp7, &splat(FIX_1_501321110));
    let z1 = lanes_mul(&z1, &splat(-FIX_0_899976223));
    let z2 = lanes_mul(&z2, &splat(-FIX_2_562915447));
    let z3 = lanes_add(&lanes_mul(&z3, &splat(-FIX_1_961570560)), &z5);
    let z4 = lanes_add(&lanes_mul(&z4, &splat(-FIX_0_390180644)), &z5);

    let out7 = descale(&lanes_add(&lanes_add(&tmp4, &z1), &z3), descale_bits);
    let out5 = descale(&lanes_add(&lanes_add(&tmp5, &z2), &z4), descale_bits);
    let out3 = descale(&lanes_add(&lanes_add(&tmp6, &z2), &z3), descale_bits);
    let out1 = descale(&lanes_add(&lanes_add(&tmp7, &z1), &z4), descale_bits);

    let r = [out0, out1, out2, out3, out4, out5, out6, out7];
    proof {
        reveal(fdct_1d);
        assert forall|j: int| 0 <= j < 8 implies #[trigger] lane(r, j) == fdct_1d(first_pass, lane(input, j)) by {
            let l = lane(input, j);
            assert(l[0] == i0[j] && l[1] == i1[j] && l[2] == i2[j] && l[3] == i3[j]);
            assert(l[4] == i4[j] && l[5] == i5[j] && l[6] == i6[j] && l[7] == i7[j]);
            assert(lane(r, j) =~= fdct_1d(first_pass, l));
        }
    }
    r
}

/// The transform computed eight lanes at a time: the row pass on the
/// columns (lane `y` holds row `y`), then the column pass on the rows
/// (lane `x` holds column `x`).
pub struct SimdFDCT;

impl FDCT for SimdFDCT {
    fn fdct(data: &mut AlignedBlock) {
        let ghost d = data.data@;
        let cols = [
            load_col(&data.data, 0),
            load_col(&data.data, 1),
            load_col(&data.data, 2),
            load_col(&data.data, 3),
            load_col(&data.data, 4),
            load_col(&data.data, 5),
            load_col(&data.data, 6),
            load_col(&data.data, 7),
        ];
        proof {
            assert forall|y: int| 0 <= y < 8 implies #[trigger] lane(cols, y) == row_of(d, y) by {
                assert(lane(cols, y) =~= row_of(d, y));
            }
        }
        let first_pass = fdct_pass(true, cols);

        let mut data2 = [0i32; 64];
        let mut x: usize = 0;
        while x < 8
            invariant
                x <= 8,
                forall|y: int| 0 <= y < 8 ==> #[trigger] lane(first_pass, y) == fdct_1d(true, row_of(d, y)),
                forall|idx: int| 0 <= idx < 64 && idx % 8 < x ==> #[trigger] data2[idx] == rows_pass(d)[idx],
            decreases 8 - x,
        {
            let values = first_pass[x];
            let mut y: usize = 0;
            while y < 8
                invariant
                    y <= 8,
                    x < 8,
                    values == first_pass[x as int],
                    forall|yy: int| 0 <= yy < 8 ==> #[trigger] lane(first_pass, yy) == fdct_1d(true, row_of(d, yy)),
                    forall|idx: int| 0 <= idx < 64 && (idx % 8 < x || (idx % 8 == x && idx / 8 < y)) ==> #[trigger] data2[idx] == rows_pass(d)[idx],
                decreases 8 - y,
            {
                data2[y * 8 + x] = values[y];
                proof {
                    let idx = y * 8 + x;
                    assert(idx / 8 == y && idx % 8 == x);
                    assert(lane(first_pass, y as int)[x as int] == values[y as int]);
                }
                y += 1;
            }
            x += 1;
        }

        let rows = [
            load_row(&data2, 0),
            load_row(&data2, 1),
            load_row(&data2, 2),
            load_row(&data2, 3),
            load_row(&data2, 4),
            load_row(&data2, 5),
            load_row(&data2, 6),
            load_row(&data2, 7),
        ];
        proof {
            assert forall|x: int| 0 <= x < 8 implies #[trigger] lane(rows, x) == col_of(rows_pass(d), x) by {
                assert(lane(rows, x) =~= col_of(rows_pass(d), x));
            }
        }
        let second_pass = fdct_pass(false, rows);

        let mut y: usize = 0;
        while y < 8
            invariant
                y <= 8,
                forall|x: int| 0 <= x < 8 ==> #[trigger] lane(second_pass, x) == fdct_1d(false, col_of(rows_pass(d), x)),
                forall|idx: int| 0 <= idx < 64 && idx / 8 < y ==> #[trigger] data.data[idx] == fdct_spec(d)[idx],
            decreases 8 - y,
        {
            let values = second_pass[y];
            let mut x: usize = 0;
            while x < 8
                invariant
                    x <= 8,
                    y < 8,
                    values == second_pass[y as int],
                    forall|xx: int| 0 <= xx < 8 ==> #[trigger] lane(second_pass, xx) == fdct_1d(false, col_of(rows_pass(d), xx)),
                    forall|idx: int| 0 <= idx < 64 && (idx / 8 < y || (idx / 8 == y && idx % 8 < x)) ==> #[trigger] data.data[idx] == fdct_spec(d)[idx],
                decreases 8 - x,
            {
                data.data[y * 8 + x] = values[x] as i16;
                proof {
                    let idx = y * 8 + x;
                    assert(idx / 8 == y && idx % 8 == x);
                    assert(lane(second_pass, x as int)[y as int] == values[x as int]);
                }
                x += 1;
            }
            y += 1;
        }
        proof {
            assert(data.data@ =~= fdct_spec(d));
        }
    }
}

} // verus!
