use vstd::prelude::*;
use vstd::arithmetic::div_mod::{
    lemma_div_is_ordered, lemma_div_multiples_vanish, lemma_div_pos_is_pos,
    lemma_fundamental_div_mod, lemma_mod_bound,
};

use crate::errors::BlurError;

verus! {

// One in Q16 fixed point: weights are stored as multiples of 1 / 65536.
pub const Q16_ONE: u32 = 65536;

/// Degree-four Taylor polynomial of e^-x at `q` in Q16, for `q` in
/// [0, 1/4].
pub open spec fn taylor_q16(q: int) -> int {
    let t2 = q * q / 65536;
    let t3 = t2 * q / 65536;
    let t4 = t3 * q / 65536;
    65536 + t2 / 2 + t4 / 24 - q - t3 / 6
}

/// e^-f in Q16 for a fractional argument `f` in [0, 65536): the Taylor
/// polynomial is taken at `f / 4` and squared twice.
pub open spec fn exp_unit_q16(f: int) -> int {
    let p = taylor_q16(f / 4);
    let p2 = p * p / 65536;
    p2 * p2 / 65536
}

/// (e^-1)^k in Q16, by repeated Q16 multiplication.
pub open spec fn exp_int_pow_q16(k: int) -> int
    decreases k,
{
    if k <= 0 {
        65536
    } else {
        exp_int_pow_q16(k - 1) * 24109 / 65536
    }
}

/// e^-t for a Q16 argument `t`: the integer-part power times the
/// fractional-part series, clamped to one.
pub open spec fn exp_neg_q16_spec(t: int) -> int {
    let r = exp_int_pow_q16(t / 65536) * exp_unit_q16(t % 65536) / 65536;
    if r > 65536 {
        65536
    } else {
        r
    }
}

/// Unnormalized Gaussian sample at integer offset `off` for a Q16 sigma:
/// e^(-off^2 / (2 sigma^2)) in Q16, zero once the exponent reaches the
/// cutoff.
pub open spec fn raw_weight_spec(sigma: int, off: int) -> int {
    let t = off * off * 0x8000_0000_0000 / (sigma * sigma);
    if t >= 786432 {
        0
    } else {
        exp_neg_q16_spec(t)
    }
}

/// Sum of the first `j` unnormalized samples of a kernel of odd length
/// `size`.
pub open spec fn raw_sum_spec(size: int, sigma: int, j: int) -> int
    decreases j,
{
    if j <= 0 {
        0
    } else {
        raw_sum_spec(size, sigma, j - 1) + raw_weight_spec(sigma, j - 1 - (size - 1) / 2)
    }
}

/// Normalized non-center weight at index `i`: the unnormalized sample
/// scaled so that all samples together aim at Q16 one, rounded down.
pub open spec fn scaled_weight_spec(size: int, sigma: int, i: int) -> int {
    raw_weight_spec(sigma, i - (size - 1) / 2) * 65536 / raw_sum_spec(size, sigma, size)
}

/// Sum of the normalized weights among the first `j`, skipping the center
/// tap.
pub open spec fn scaled_partial_spec(size: int, sigma: int, j: int) -> int
    decreases j,
{
    if j <= 0 {
        0
    } else {
        scaled_partial_spec(size, sigma, j - 1) + if j - 1 == (size - 1) / 2 {
            0
        } else {
            scaled_weight_spec(size, sigma, j - 1)
        }
    }
}

/// Sum of the first `j` unnormalized samples, skipping the center tap.
pub open spec fn raw_nc_spec(size: int, sigma: int, j: int) -> int
    decreases j,
{
    if j <= 0 {
        0
    } else {
        raw_nc_spec(size, sigma, j - 1) + if j - 1 == (size - 1) / 2 {
            0
        } else {
            raw_weight_spec(sigma, j - 1 - (size - 1) / 2)
        }
    }
}

/// The weight the built kernel holds at index `i`: the scaled sample off
/// center, and at the center whatever is left to make the total exactly
/// Q16 one.
pub open spec fn kernel_weight_spec(size: int, sigma: int, i: int) -> int {
    if i == (size - 1) / 2 {
        65536 - scaled_partial_spec(size, sigma, size)
    } else {
        scaled_weight_spec(size, sigma, i)
    }
}

/// Sum of the first `j` stored kernel weights.
pub open spec fn kernel_total(k: Seq<u32>, j: int) -> int
    decreases j,
{
    if j <= 0 {
        0
    } else {
        kernel_total(k, j - 1) + k[j - 1]
    }
}

/// What every built kernel satisfies: odd positive length, each weight at
/// most Q16 one, a positive center weight, and a total of exactly Q16
/// one — the discrete form of the weights summing to 1.0.
pub open spec fn well_formed_kernel(k: Seq<u32>) -> bool {
    &&& k.len() >= 1
    &&& k.len() % 2 == 1
    &&& kernel_total(k, k.len() as int) == 65536
    &&& forall|i: int| 0 <= i < k.len() ==> (#[trigger] k[i]) <= 65536
    &&& k[(k.len() - 1) as int / 2] >= 1
}

/// The integer-power factor stays within [0, Q16 one].
pub proof fn lemma_exp_int_pow_bounds(k: int)
    ensures
        0 <= exp_int_pow_q16(k) <= 65536,
    decreases (if k <= 0 { 0int } else { k }),
{
    if k <= 0 {
    } else {
        lemma_exp_int_pow_bounds(k - 1);
        let a = exp_int_pow_q16(k - 1);
        lemma_div_pos_is_pos(a * 24109, 65536);
        assert(a * 24109 <= 65536 * 24109) by (nonlinear_arith)
            requires
                0 <= a <= 65536,
        ;
        lemma_div_is_ordered(a * 24109, (65536 * 24109) as int, 65536);
        lemma_div_multiples_vanish(24109, 65536);
    }
}

/// The fractional-part series stays nonnegative for arguments in
/// [0, 65536).
pub proof fn lemma_exp_unit_nonneg(f: int)
    requires
        0 <= f < 65536,
    ensures
        0 <= exp_unit_q16(f),
{
    let q = f / 4;
    lemma_div_pos_is_pos(f, 4);
    lemma_div_is_ordered(f, 65535, 4);
    assert(q <= 16383);
    let t2 = q * q / 65536;
    let t3 = t2 * q / 65536;
    assert(0 <= q * q <= 16383 * 16383) by (nonlinear_arith)
        requires
            0 <= q <= 16383,
    ;
    lemma_div_pos_is_pos(q * q, 65536);
    lemma_div_is_ordered(q * q, (16383 * 16383) as int, 65536);
    assert(t2 <= 4095);
    assert(0 <= t2 * q <= 4095 * 16383) by (nonlinear_arith)
        requires
            0 <= q <= 16383,
            0 <= t2 <= 4095,
    ;
    lemma_div_pos_is_pos(t2 * q, 65536);
    lemma_div_is_ordered(t2 * q, (4095 * 16383) as int, 65536);
    assert(t3 <= 1023);
    lemma_div_pos_is_pos(t3, 6);
    lemma_div_is_ordered(t3, 1023, 6);
    let t4 = t3 * q / 65536;
    assert(0 <= t3 * q) by (nonlinear_arith)
        requires
            0 <= q,
            0 <= t3,
    ;
    lemma_div_pos_is_pos(t3 * q, 65536);
    lemma_div_pos_is_pos(t2, 2);
    lemma_div_pos_is_pos(t4, 24);
    let p = taylor_q16(q);
    assert(p >= 65536 - q - t3 / 6);
    assert(p >= 0);
    assert(0 <= p * p) by (nonlinear_arith)
        requires
            0 <= p,
    ;
    lemma_div_pos_is_pos(p * p, 65536);
    let p2 = p * p / 65536;
    assert(0 <= p2 * p2) by (nonlinear_arith)
        requires
            0 <= p2,
    ;
    lemma_div_pos_is_pos(p2 * p2, 65536);
}

/// e^-t in Q16 lies within [0, Q16 one] for nonnegative arguments.
pub proof fn lemma_exp_neg_bounds(t: int)
    requires
        0 <= t,
    ensures
        0 <= exp_neg_q16_spec(t) <= 65536,
{
    lemma_mod_bound(t, 65536);
    lemma_div_pos_is_pos(t, 65536);
    lemma_exp_int_pow_bounds(t / 65536);
    lemma_exp_unit_nonneg(t % 65536);
    assert(0 <= exp_int_pow_q16(t / 65536) * exp_unit_q16(t % 65536)) by (nonlinear_arith)
        requires
            0 <= exp_int_pow_q16(t / 65536),
            0 <= exp_unit_q16(t % 65536),
    ;
    lemma_div_pos_is_pos(exp_int_pow_q16(t / 65536) * exp_unit_q16(t % 65536), 65536);
}

/// Every unnormalized sample lies within [0, Q16 one], and the sample at
/// offset zero is exactly Q16 one.
pub proof fn lemma_raw_weight_bounds(sigma: int, off: int)
    requires
        sigma >= 1,
    ensures
        0 <= raw_weight_spec(sigma, off) <= 65536,
        off == 0 ==> raw_weight_spec(sigma, off) == 65536,
{
    let t = off * off * 0x8000_0000_0000 / (sigma * sigma);
    assert(0 <= off * off * 0x8000_0000_0000) by (nonlinear_arith);
    assert(sigma * sigma >= 1) by (nonlinear_arith)
        requires
            sigma >= 1,
    ;
    lemma_div_pos_is_pos(off * off * 0x8000_0000_0000, sigma * sigma);
    if t >= 786432 {
    } else {
        lemma_exp_neg_bounds(t);
    }
    if off == 0 {
        assert(off * off * 0x8000_0000_0000 == 0) by (nonlinear_arith)
            requires
                off == 0,
        ;
        assert(t == 0);
        assert(exp_int_pow_q16(0) == 65536);
        assert(taylor_q16(0) == 65536);
        assert(65536int * 65536 == 4294967296) by (nonlinear_arith);
        assert(exp_unit_q16(0) == 65536);
        assert(exp_neg_q16_spec(0) == 65536);
    }
}

/// e^-t in Q16 for a Q16 argument `t`, clamped to one; exactly the value
/// `exp_neg_q16_spec` describes.
fn exp_neg_q16(t: u64) -> (r: u32)
    ensures
        r as int == exp_neg_q16_spec(t as int),
        r <= 65536,
{
    proof {
        lemma_exp_neg_bounds(t as int);
        lemma_mod_bound(t as int, 65536);
        lemma_div_pos_is_pos(t as int, 65536);
    }
    let k: u64 = t / 65536;
    let f: u64 = t % 65536;
    let q: u64 = f / 4;
    proof {
        lemma_div_pos_is_pos(f as int, 4);
        lemma_div_is_ordered(f as int, 65535, 4);
        assert(q <= 16383);
        assert(q * q <= 16383 * 16383) by (nonlinear_arith)
            requires
                q <= 16383u64,
        ;
    }
    let t2: u64 = q * q / 65536;
    proof {
        lemma_div_is_ordered((q * q) as int, (16383 * 16383) as int, 65536);
        assert(t2 <= 4095);
        assert(t2 * q <= 4095 * 16383) by (nonlinear_arith)
            requires
                t2 <= 4095u64,
                q <= 16383u64,
        ;
    }
    let t3: u64 = t2 * q / 65536;
    proof {
        lemma_div_is_ordered((t2 * q) as int, (4095 * 16383) as int, 65536);
        assert(t3 <= 1023);
        assert(t3 * q <= 1023 * 16383) by (nonlinear_arith)
            requires
                t3 <= 1023u64,
                q <= 16383u64,
        ;
    }
    let t4: u64 = t3 * q / 65536;
    proof {
        lemma_div_is_ordered((t3 * q) as int, (1023 * 16383) as int, 65536);
        lemma_div_is_ordered(t3 as int, 1023, 6);
    }
    let pos: u64 = 65536 + t2 / 2 + t4 / 24;
    let neg: u64 = q + t3 / 6;
    let p: u64 = pos - neg;
    proof {
        assert(p as int == taylor_q16(f as int / 4));
        assert(p <= 68000);
        assert(p * p <= 4624000000) by (nonlinear_arith)
            requires
                p <= 68000u64,
        ;
    }
    let p2: u64 = p * p / 65536;
    proof {
        lemma_div_is_ordered((p * p) as int, 4624000000, 65536);
        assert(p2 <= 70557);
        assert(p2 * p2 <= 4978290249) by (nonlinear_arith)
            requires
                p2 <= 70557u64,
        ;
    }
    let p4: u64 = p2 * p2 / 65536;
    proof {
        lemma_div_is_ordered((p2 * p2) as int, 4978290249, 65536);
        assert(p4 <= 75963);
        assert(p4 as int == exp_unit_q16(t as int % 65536));
    }
    let mut acc: u64 = 65536;
    let mut j: u64 = 0;
    while j < k
        invariant
            0 <= j <= k,
            acc as int == exp_int_pow_q16(j as int),
            acc <= 65536,
        decreases k - j,
    {
        proof {
            lemma_exp_int_pow_bounds(j as int + 1);
            assert(acc * 24109 <= 65536 * 24109) by (nonlinear_arith)
                requires
                    acc <= 65536u64,
            ;
        }
        acc = acc * 24109 / 65536;
        j = j + 1;
    }
    proof {
        assert(acc * p4 <= 4978311168) by (nonlinear_arith)
            requires
                acc <= 65536u64,
                p4 <= 75963u64,
        ;
    }
    let scaled: u64 = acc * p4 / 65536;
    if scaled > 65536 {
        65536
    } else {
        scaled as u32
    }
}

/// Unnormalized Gaussian sample at offset `off` for a Q16 `sigma`;
/// exactly the value `raw_weight_spec` describes.
fn raw_weight(sigma: u32, off: i64) -> (r: u32)
    requires
        sigma >= 1,
        -0x8000_0000 <= off <= 0x8000_0000,
    ensures
        r as int == raw_weight_spec(sigma as int, off as int),
        r <= 65536,
{
    proof {
        lemma_raw_weight_bounds(sigma as int, off as int);
        assert(0 <= off * off <= 0x8000_0000 * 0x8000_0000) by (nonlinear_arith)
            requires
                -0x8000_0000 <= off <= 0x8000_0000,
        ;
    }
    let off2: u128 = (off * off) as u128;
    proof {
        assert(off2 * 0x8000_0000_0000 <= 0x4000_0000_0000_0000 * 0x8000_0000_0000)
            by (nonlinear_arith)
            requires
                off2 <= 0x4000_0000_0000_0000u128,
        ;
        assert(1 <= (sigma as u128) * (sigma as u128) <= 0xffff_ffff * 0xffff_ffff)
            by (nonlinear_arith)
            requires
                1 <= sigma <= 0xffff_ffffu32,
        ;
    }
    let num: u128 = off2 * 0x8000_0000_0000;
    let den: u128 = (sigma as u128) * (sigma as u128);
    let t: u128 = num / den;
    if t >= 786432 {
        0
    } else {
        exp_neg_q16(t as u64)
    }
}

/// Builds the normalized one-dimensional Gaussian kernel for an odd,
/// positive `kernel_size` and a positive Q16 `sigma` (65536 stands for a
/// sigma of 1.0).
///
/// The samples are taken at integer offsets from the center, scaled so
/// that the whole kernel sums to exactly Q16 one, with the center tap
/// absorbing the rounding remainder; a flat image is therefore left
/// unchanged by convolution with the result.  An even (or zero) size and
/// a zero sigma are reported as errors, and nothing else is.
pub fn get_gaussian_kernel_1d(kernel_size: u32, sigma: u32) -> (r: Result<
    Vec<u32>,
    BlurError,
>)
    ensures
        r.is_ok() <==> (kernel_size % 2 == 1 && sigma >= 1),
        kernel_size % 2 == 0 ==> r == Result::<Vec<u32>, BlurError>::Err(
            BlurError::KernelSizeMustBeOdd,
        ),
        kernel_size % 2 == 1 && sigma == 0 ==> r == Result::<Vec<u32>, BlurError>::Err(
            BlurError::SigmaMustBePositive,
        ),
        r.is_ok() ==> {
            &&& r.unwrap()@.len() == kernel_size
            &&& forall|i: int|
                0 <= i < kernel_size ==> (#[trigger] r.unwrap()@[i]) as int == kernel_weight_spec(
                    kernel_size as int,
                    sigma as int,
                    i,
                )
            &&& well_formed_kernel(r.unwrap()@)
            &&& forall|i: int|
                0 <= i < kernel_size ==> (#[trigger] r.unwrap()@[i]) == r.unwrap()@[
                    kernel_size - 1 - i
                ]
        },
{
    if kernel_size % 2 == 0 {
        return Result::Err(BlurError::KernelSizeMustBeOdd);
    }
    if sigma == 0 {
        return Result::Err(BlurError::SigmaMustBePositive);
    }
    let size: usize = kernel_size as usize;
    let half: usize = size / 2;
    let sz = Ghost(size as int);
    let sg = Ghost(sigma as int);

    let mut raws: Vec<u32> = Vec::new();
    let mut rsum: u64 = 0;
    let mut i: usize = 0;
    while i < size
        invariant
            0 <= i <= size,
            size == kernel_size,
            size % 2 == 1,
            half == (size - 1) / 2,
            sigma >= 1,
            sz@ == size as int,
            sg@ == sigma as int,
            raws@.len() == i,
            forall|j: int|
                0 <= j < i ==> (#[trigger] raws@[j]) as int == raw_weight_spec(
                    sg@,
                    j - (sz@ - 1) / 2,
                ),
            forall|j: int| 0 <= j < i ==> (#[trigger] raws@[j]) <= 65536,
            rsum as int == raw_sum_spec(sz@, sg@, i as int),
            rsum <= i * 65536,
            i > half ==> rsum >= 65536,
        decreases size - i,
    {
        let off: i64 = (i as i64) - (half as i64);
        let rv = raw_weight(sigma, off);
        proof {
            lemma_raw_weight_bounds(sg@, off as int);
            assert((i + 1) * 65536 == i * 65536 + 65536) by (nonlinear_arith);
        }
        raws.push(rv);
        rsum = rsum + (rv as u64);
        i = i + 1;
    }
    proof {
        assert(rsum >= 65536);
        assert(raw_sum_spec(sz@, sg@, sz@) >= 65536);
    }

    let mut weights: Vec<u32> = Vec::new();
    let mut wsum: u64 = 0;
    let mut i: usize = 0;
    while i < size
        invariant
            0 <= i <= size,
            size == kernel_size,
            size % 2 == 1,
            half == (size - 1) / 2,
            sigma >= 1,
            sz@ == size as int,
            sg@ == sigma as int,
            raws@.len() == size,
            forall|j: int|
                0 <= j < size ==> (#[trigger] raws@[j]) as int == raw_weight_spec(
                    sg@,
                    j - (sz@ - 1) / 2,
                ),
            forall|j: int| 0 <= j < size ==> (#[trigger] raws@[j]) <= 65536,
            rsum as int == raw_sum_spec(sz@, sg@, sz@),
            65536 <= rsum,
            weights@.len() == i,
            forall|j: int|
                0 <= j < i ==> (#[trigger] weights@[j]) as int == scaled_weight_spec(
                    sz@,
                    sg@,
                    j,
                ),
            forall|j: int| 0 <= j < i ==> (#[trigger] weights@[j]) <= 65536,
            wsum as int == scaled_partial_spec(sz@, sg@, i as int),
            wsum <= i * 65536,
            wsum * rsum <= raw_nc_spec(sz@, sg@, i as int) * 65536,
            raw_nc_spec(sz@, sg@, i as int) <= raw_sum_spec(sz@, sg@, i as int) - if i > half {
                65536int
            } else {
                0int
            },
        decreases size - i,
    {
        let rv: u64 = raws[i] as u64;
        let wv64: u64 = rv * 65536 / rsum;
        proof {
            let x = rv as int * 65536;
            let d = rsum as int;
            lemma_div_pos_is_pos(x, d);
            // wv64 <= rv: division by at least 65536 undoes the scaling
            lemma_div_is_ordered_by_denominator_local(x, d);
            lemma_div_multiples_vanish(rv as int, 65536);
            assert(65536 * (rv as int) == x);
            assert(wv64 <= rv);
            // wv64 * rsum <= rv * 65536
            lemma_fundamental_div_mod(x, d);
            lemma_mod_bound(x, d);
            assert(d * (x / d) <= x);
            assert(wv64 as int * d == d * (x / d)) by (nonlinear_arith)
                requires
                    wv64 as int == x / d,
            ;
            lemma_raw_weight_bounds(sg@, i as int - (sz@ - 1) / 2);
            // step the three running sums
            assert((wsum as int + wv64 as int) * d == wsum as int * d + wv64 as int * d)
                by (nonlinear_arith);
            assert((i + 1) * 65536 == i * 65536 + 65536) by (nonlinear_arith);
            // raw sums are monotone in their length
            lemma_raw_sum_step(sz@, sg@, i as int + 1);
        }
        let wv: u32 = wv64 as u32;
        weights.push(wv);
        if i != half {
            wsum = wsum + wv64;
        }
        i = i + 1;
    }
    proof {
        // the non-center total is strictly below Q16 one
        let rs = rsum as int;
        let nc = raw_nc_spec(sz@, sg@, sz@);
        assert(nc <= rs - 65536);
        assert(wsum as int * rs <= nc * 65536);
        assert(nc * 65536 <= (rs - 65536) * 65536) by (nonlinear_arith)
            requires
                nc <= rs - 65536,
        ;
        assert((rs - 65536) * 65536 < rs * 65536) by (nonlinear_arith);
        assert((wsum as int) < 65536) by (nonlinear_arith)
            requires
                wsum as int * rs < rs * 65536,
                rs >= 1,
        ;
    }
    let center: u32 = Q16_ONE - (wsum as u32);
    let mut result = weights;
    result.set(half, center);
    proof {
        lemma_kernel_assembly(result@, sz@, sg@, sz@);
        assert forall|i: int| 0 <= i < kernel_size implies (#[trigger] result@[i]) == result@[
            kernel_size - 1 - i
        ] by {
            lemma_kernel_symmetry(sz@, sg@, i);
        }
        assert(result@[(result@.len() - 1) as int / 2] >= 1);
    }
    Result::Ok(result)
}

/// Division by a larger denominator cannot make a quotient larger than
/// the Q16 quotient: `a * 65536 / d <= a` when `d >= 65536`.
proof fn lemma_div_is_ordered_by_denominator_local(n: int, d: int)
    requires
        0 <= n,
        65536 <= d,
    ensures
        n / d <= n / 65536,
{
    vstd::arithmetic::div_mod::lemma_div_is_ordered_by_denominator(n, 65536, d);
}

/// Unfolds one step of the raw sums: the sample joins both the full sum
/// and, off center, the non-center sum.
proof fn lemma_raw_sum_step(size: int, sigma: int, j: int)
    requires
        j >= 1,
    ensures
        raw_sum_spec(size, sigma, j) == raw_sum_spec(size, sigma, j - 1) + raw_weight_spec(
            sigma,
            j - 1 - (size - 1) / 2,
        ),
        raw_nc_spec(size, sigma, j) == raw_nc_spec(size, sigma, j - 1) + if j - 1 == (size - 1)
            / 2 {
            0int
        } else {
            raw_weight_spec(sigma, j - 1 - (size - 1) / 2)
        },
{
}

/// The stored kernel: scaled weights off center plus the remainder at the
/// center sum to the partial scaled total, plus the center once it is
/// passed.
proof fn lemma_kernel_assembly(k: Seq<u32>, size: int, sigma: int, j: int)
    requires
        k.len() == size,
        size >= 1,
        0 <= j <= size,
        forall|i: int|
            0 <= i < size && i != (size - 1) / 2 ==> (#[trigger] k[i]) as int
                == scaled_weight_spec(size, sigma, i),
        k[(size - 1) / 2] as int == 65536 - scaled_partial_spec(size, sigma, size),
    ensures
        kernel_total(k, j) == scaled_partial_spec(size, sigma, j) + if j > (size - 1) / 2 {
            65536 - scaled_partial_spec(size, sigma, size)
        } else {
            0int
        },
    decreases j,
{
    if j > 0 {
        lemma_kernel_assembly(k, size, sigma, j - 1);
    }
}

/// The unnormalized samples, and with them the scaled weights, are
/// mirror-symmetric around the center tap.
proof fn lemma_kernel_symmetry(size: int, sigma: int, i: int)
    requires
        size >= 1,
        size % 2 == 1,
        0 <= i < size,
    ensures
        kernel_weight_spec(size, sigma, i) == kernel_weight_spec(size, sigma, size - 1 - i),
{
    let half = (size - 1) / 2;
    let o1 = i - half;
    let o2 = size - 1 - i - half;
    assert(o2 == -o1);
    assert(o1 * o1 == o2 * o2) by (nonlinear_arith)
        requires
            o2 == -o1,
    ;
    if i == half {
        assert(size - 1 - i == half);
    }
}

} // verus!
