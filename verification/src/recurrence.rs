use vstd::prelude::*;
use vstd::arithmetic::div_mod::{
    lemma_div_is_ordered, lemma_div_multiples_vanish, lemma_div_pos_is_pos,
};

use crate::convolution::clampi;

verus! {

// The approximate blur engine runs, per scanline, four cascaded running
// integrators fed by a fourth-difference of the replicate-extended
// samples.  This module gives that recurrence its mathematical model:
// the integrators are windowed combinations of iterated cumulative sums
// of the read sequence, which both pins their exact values and bounds
// them, so the engine's 64-bit arithmetic is proved exact.

/// Sample the virtual cursor reads at step `p`: the scanline sample at
/// `p + 2r - 1`, clamped to the line (replicate edge), and zero before
/// the cursor start at `-4r`.
pub open spec fn fg_read(line: Seq<int>, r: int, p: int) -> int {
    if p < -4 * r {
        0
    } else {
        line[clampi(p + 2 * r - 1, 0, line.len() - 1)]
    }
}

/// First cumulative sum of the read sequence from the cursor start.
pub open spec fn fg_c1(line: Seq<int>, r: int, p: int) -> int
    decreases p + 4 * r + 1,
{
    if p < -4 * r {
        0
    } else {
        fg_c1(line, r, p - 1) + fg_read(line, r, p)
    }
}

/// Second cumulative sum.
pub open spec fn fg_c2(line: Seq<int>, r: int, p: int) -> int
    decreases p + 4 * r + 1,
{
    if p < -4 * r {
        0
    } else {
        fg_c2(line, r, p - 1) + fg_c1(line, r, p)
    }
}

/// Third cumulative sum.
pub open spec fn fg_c3(line: Seq<int>, r: int, p: int) -> int
    decreases p + 4 * r + 1,
{
    if p < -4 * r {
        0
    } else {
        fg_c3(line, r, p - 1) + fg_c2(line, r, p)
    }
}

/// Fourth cumulative sum.
pub open spec fn fg_c4(line: Seq<int>, r: int, p: int) -> int
    decreases p + 4 * r + 1,
{
    if p < -4 * r {
        0
    } else {
        fg_c4(line, r, p - 1) + fg_c3(line, r, p)
    }
}

/// Lag-`r` window sum of the reads: first difference of the first
/// cumulative sum.
pub open spec fn fg_d2(line: Seq<int>, r: int, a: int) -> int {
    fg_c2(line, r, a) - fg_c2(line, r, a - r)
}

/// Second lag-`r` difference of the third cumulative sum.
pub open spec fn fg_dd3(line: Seq<int>, r: int, a: int) -> int {
    (fg_c3(line, r, a) - fg_c3(line, r, a - r)) - (fg_c3(line, r, a - r) - fg_c3(
        line,
        r,
        a - 2 * r,
    ))
}

/// Third lag-`r` difference of the fourth cumulative sum.
pub open spec fn fg_ddd4(line: Seq<int>, r: int, a: int) -> int {
    fg_c4(line, r, a) - 3 * fg_c4(line, r, a - r) + 3 * fg_c4(line, r, a - 2 * r) - fg_c4(
        line,
        r,
        a - 3 * r,
    )
}

/// The `dif` integrator after step `p`: the fourth lag-`r` difference of
/// the first cumulative sum.
pub open spec fn fg_dif(line: Seq<int>, r: int, p: int) -> int {
    fg_c1(line, r, p) - 4 * fg_c1(line, r, p - r) + 6 * fg_c1(line, r, p - 2 * r) - 4 * fg_c1(
        line,
        r,
        p - 3 * r,
    ) + fg_c1(line, r, p - 4 * r)
}

/// The `der_2` integrator after step `p`.
pub open spec fn fg_der2(line: Seq<int>, r: int, p: int) -> int {
    fg_c2(line, r, p) - 4 * fg_c2(line, r, p - r) + 6 * fg_c2(line, r, p - 2 * r) - 4 * fg_c2(
        line,
        r,
        p - 3 * r,
    ) + fg_c2(line, r, p - 4 * r)
}

/// The `der_1` integrator after step `p`.
pub open spec fn fg_der1(line: Seq<int>, r: int, p: int) -> int {
    fg_c3(line, r, p) - 4 * fg_c3(line, r, p - r) + 6 * fg_c3(line, r, p - 2 * r) - 4 * fg_c3(
        line,
        r,
        p - 3 * r,
    ) + fg_c3(line, r, p - 4 * r)
}

/// The `sum` integrator after step `p`: the discrete box-spline window
/// over the reads.
pub open spec fn fg_sum(line: Seq<int>, r: int, p: int) -> int {
    fg_c4(line, r, p) - 4 * fg_c4(line, r, p - r) + 6 * fg_c4(line, r, p - 2 * r) - 4 * fg_c4(
        line,
        r,
        p - 3 * r,
    ) + fg_c4(line, r, p - 4 * r)
}

/// Output sample `p` of one blurred scanline: the window sum before step
/// `p`, scaled by the box-spline weight `1 / r^4`.
pub open spec fn fg_line_out(line: Seq<int>, r: int, p: int) -> int {
    fg_sum(line, r, p - 1) / (r * r * r * r)
}

/// All samples of the line lie in a byte.
pub open spec fn fg_line_bounded(line: Seq<int>) -> bool {
    forall|t: int| 0 <= t < line.len() ==> 0 <= #[trigger] line[t] <= 255
}

/// One step of each cumulative sum, valid on both sides of the cursor
/// start.
pub proof fn lemma_c_steps(line: Seq<int>, r: int, x: int)
    requires
        r >= 1,
    ensures
        fg_c1(line, r, x) == fg_c1(line, r, x - 1) + fg_read(line, r, x),
        fg_c2(line, r, x) == fg_c2(line, r, x - 1) + fg_c1(line, r, x),
        fg_c3(line, r, x) == fg_c3(line, r, x - 1) + fg_c2(line, r, x),
        fg_c4(line, r, x) == fg_c4(line, r, x - 1) + fg_c3(line, r, x),
{
    if x < -4 * r {
        assert(fg_c1(line, r, x) == 0);
        assert(fg_c1(line, r, x - 1) == 0);
        assert(fg_read(line, r, x) == 0);
        assert(fg_c2(line, r, x) == 0);
        assert(fg_c2(line, r, x - 1) == 0);
        assert(fg_c3(line, r, x) == 0);
        assert(fg_c3(line, r, x - 1) == 0);
        assert(fg_c4(line, r, x) == 0);
        assert(fg_c4(line, r, x - 1) == 0);
    }
}

/// Each read is a byte value.
pub proof fn lemma_read_bounds(line: Seq<int>, r: int, p: int)
    requires
        r >= 1,
        line.len() >= 1,
        fg_line_bounded(line),
    ensures
        0 <= fg_read(line, r, p) <= 255,
{
    if p >= -4 * r {
        assert(0 <= clampi(p + 2 * r - 1, 0, line.len() - 1) < line.len());
    }
}

/// Windows of the first cumulative sum grow by at most 255 per step.
pub proof fn lemma_w1(line: Seq<int>, r: int, a: int, m: int)
    requires
        r >= 1,
        m >= 0,
        line.len() >= 1,
        fg_line_bounded(line),
    ensures
        0 <= fg_c1(line, r, a) - fg_c1(line, r, a - m) <= 255 * m,
    decreases m,
{
    if m > 0 {
        lemma_w1(line, r, a - 1, m - 1);
        lemma_c_steps(line, r, a);
        lemma_read_bounds(line, r, a);
        assert(255 * m == 255 * (m - 1) + 255) by (nonlinear_arith);
    }
}

/// Windows of the lag-`r` window sum grow by at most `255 r` per step.
pub proof fn lemma_w2(line: Seq<int>, r: int, a: int, m: int)
    requires
        r >= 1,
        m >= 0,
        line.len() >= 1,
        fg_line_bounded(line),
    ensures
        0 <= fg_d2(line, r, a) - fg_d2(line, r, a - m) <= 255 * r * m,
    decreases m,
{
    if m > 0 {
        lemma_w2(line, r, a - 1, m - 1);
        lemma_c_steps(line, r, a);
        lemma_c_steps(line, r, a - r);
        assert(fg_d2(line, r, a) - fg_d2(line, r, a - 1) == fg_c1(line, r, a) - fg_c1(
            line,
            r,
            a - r,
        ));
        lemma_w1(line, r, a, r);
        assert(255 * r * m == 255 * r * (m - 1) + 255 * r) by (nonlinear_arith);
    }
}

/// Windows of the second difference of the third cumulative sum grow by
/// at most `255 r^2` per step.
pub proof fn lemma_w3(line: Seq<int>, r: int, a: int, m: int)
    requires
        r >= 1,
        m >= 0,
        line.len() >= 1,
        fg_line_bounded(line),
    ensures
        0 <= fg_dd3(line, r, a) - fg_dd3(line, r, a - m) <= 255 * r * r * m,
    decreases m,
{
    if m > 0 {
        lemma_w3(line, r, a - 1, m - 1);
        lemma_c_steps(line, r, a);
        lemma_c_steps(line, r, a - r);
        lemma_c_steps(line, r, a - 2 * r);
        assert(fg_dd3(line, r, a) - fg_dd3(line, r, a - 1) == fg_d2(line, r, a) - fg_d2(
            line,
            r,
            a - r,
        ));
        lemma_w2(line, r, a, r);
        assert(255 * r * r * m == 255 * r * r * (m - 1) + 255 * r * r) by (nonlinear_arith);
    }
}

/// Windows of the third difference of the fourth cumulative sum grow by
/// at most `255 r^3` per step.
pub proof fn lemma_w4(line: Seq<int>, r: int, a: int, m: int)
    requires
        r >= 1,
        m >= 0,
        line.len() >= 1,
        fg_line_bounded(line),
    ensures
        0 <= fg_ddd4(line, r, a) - fg_ddd4(line, r, a - m) <= 255 * r * r * r * m,
    decreases m,
{
    if m > 0 {
        lemma_w4(line, r, a - 1, m - 1);
        lemma_c_steps(line, r, a);
        lemma_c_steps(line, r, a - r);
        lemma_c_steps(line, r, a - 2 * r);
        lemma_c_steps(line, r, a - 3 * r);
        assert(fg_ddd4(line, r, a) - fg_ddd4(line, r, a - 1) == fg_dd3(line, r, a) - fg_dd3(
            line,
            r,
            a - r,
        ));
        lemma_w3(line, r, a, r);
        assert(255 * r * r * r * m == 255 * r * r * r * (m - 1) + 255 * r * r * r)
            by (nonlinear_arith);
    }
}

/// The integrators are bounded by polynomials in the radius: the cascade
/// realizes a nonnegative box-spline window whose weights total `r^4`.
pub proof fn lemma_fg_state_bounds(line: Seq<int>, r: int, p: int)
    requires
        r >= 1,
        line.len() >= 1,
        fg_line_bounded(line),
    ensures
        -1020 * r <= fg_dif(line, r, p) <= 1020 * r,
        -510 * (r * r) <= fg_der2(line, r, p) <= 510 * (r * r),
        -255 * (r * r * r) <= fg_der1(line, r, p) <= 255 * (r * r * r),
        0 <= fg_sum(line, r, p) <= 255 * (r * r * r * r),
{
    // dif: a combination of four lag-r windows of c1
    lemma_w1(line, r, p, r);
    lemma_w1(line, r, p - r, r);
    lemma_w1(line, r, p - 2 * r, r);
    lemma_w1(line, r, p - 3 * r, r);
    let g0 = fg_c1(line, r, p) - fg_c1(line, r, p - r);
    let g1 = fg_c1(line, r, p - r) - fg_c1(line, r, p - 2 * r);
    let g2 = fg_c1(line, r, p - 2 * r) - fg_c1(line, r, p - 3 * r);
    let g3 = fg_c1(line, r, p - 3 * r) - fg_c1(line, r, p - 4 * r);
    assert(fg_dif(line, r, p) == g0 - 3 * g1 + 3 * g2 - g3);
    assert(1020 * r == 255 * r + 3 * (255 * r)) by (nonlinear_arith);
    // der2: a combination of three second differences of c2
    lemma_w2(line, r, p, r);
    lemma_w2(line, r, p - r, r);
    lemma_w2(line, r, p - 2 * r, r);
    let h0 = fg_d2(line, r, p) - fg_d2(line, r, p - r);
    let h1 = fg_d2(line, r, p - r) - fg_d2(line, r, p - 2 * r);
    let h2 = fg_d2(line, r, p - 2 * r) - fg_d2(line, r, p - 3 * r);
    assert(fg_der2(line, r, p) == h0 - 2 * h1 + h2);
    assert(510 * (r * r) == 255 * r * r + 255 * r * r) by (nonlinear_arith);
    // der1: a difference of two third differences of c3
    lemma_w3(line, r, p, r);
    lemma_w3(line, r, p - r, r);
    let k0 = fg_dd3(line, r, p) - fg_dd3(line, r, p - r);
    let k1 = fg_dd3(line, r, p - r) - fg_dd3(line, r, p - 2 * r);
    assert(fg_der1(line, r, p) == k0 - k1);
    assert(255 * (r * r * r) == 255 * r * r * r) by (nonlinear_arith);
    // sum: one fourth difference of c4, which is a window of ddd4
    lemma_w4(line, r, p, r);
    assert(fg_sum(line, r, p) == fg_ddd4(line, r, p) - fg_ddd4(line, r, p - r));
    assert(255 * r * r * r * r == 255 * (r * r * r * r)) by (nonlinear_arith);
}

/// One step of all four integrators: the guarded aging-out corrections
/// and the fresh read are exactly the change of the window combinations.
pub proof fn lemma_fg_state_step(line: Seq<int>, r: int, p: int)
    requires
        r >= 1,
    ensures
        fg_dif(line, r, p) == fg_dif(line, r, p - 1) + fg_read(line, r, p) - 4 * fg_read(
            line,
            r,
            p - r,
        ) + 6 * fg_read(line, r, p - 2 * r) - 4 * fg_read(line, r, p - 3 * r) + fg_read(
            line,
            r,
            p - 4 * r,
        ),
        fg_der2(line, r, p) == fg_der2(line, r, p - 1) + fg_dif(line, r, p),
        fg_der1(line, r, p) == fg_der1(line, r, p - 1) + fg_der2(line, r, p),
        fg_sum(line, r, p) == fg_sum(line, r, p - 1) + fg_der1(line, r, p),
{
    lemma_c_steps(line, r, p);
    lemma_c_steps(line, r, p - r);
    lemma_c_steps(line, r, p - 2 * r);
    lemma_c_steps(line, r, p - 3 * r);
    lemma_c_steps(line, r, p - 4 * r);
}

/// Before the cursor start every integrator is zero.
pub proof fn lemma_fg_state_init(line: Seq<int>, r: int)
    requires
        r >= 1,
    ensures
        fg_dif(line, r, -4 * r - 1) == 0,
        fg_der2(line, r, -4 * r - 1) == 0,
        fg_der1(line, r, -4 * r - 1) == 0,
        fg_sum(line, r, -4 * r - 1) == 0,
{
    let p = -4 * r - 1;
    assert(fg_c1(line, r, p) == 0);
    assert(fg_c1(line, r, p - r) == 0);
    assert(fg_c1(line, r, p - 2 * r) == 0);
    assert(fg_c1(line, r, p - 3 * r) == 0);
    assert(fg_c1(line, r, p - 4 * r) == 0);
    assert(fg_c2(line, r, p) == 0);
    assert(fg_c2(line, r, p - r) == 0);
    assert(fg_c2(line, r, p - 2 * r) == 0);
    assert(fg_c2(line, r, p - 3 * r) == 0);
    assert(fg_c2(line, r, p - 4 * r) == 0);
    assert(fg_c3(line, r, p) == 0);
    assert(fg_c3(line, r, p - r) == 0);
    assert(fg_c3(line, r, p - 2 * r) == 0);
    assert(fg_c3(line, r, p - 3 * r) == 0);
    assert(fg_c3(line, r, p - 4 * r) == 0);
    assert(fg_c4(line, r, p) == 0);
    assert(fg_c4(line, r, p - r) == 0);
    assert(fg_c4(line, r, p - 2 * r) == 0);
    assert(fg_c4(line, r, p - 3 * r) == 0);
    assert(fg_c4(line, r, p - 4 * r) == 0);
}

/// Every output sample is a byte value.
pub proof fn lemma_fg_out_bounds(line: Seq<int>, r: int, p: int)
    requires
        r >= 1,
        line.len() >= 1,
        fg_line_bounded(line),
    ensures
        0 <= fg_line_out(line, r, p) <= 255,
{
    lemma_fg_state_bounds(line, r, p - 1);
    assert(r * r * r * r >= 1) by (nonlinear_arith)
        requires
            r >= 1,
    ;
    let r4 = r * r * r * r;
    lemma_div_pos_is_pos(fg_sum(line, r, p - 1), r4);
    lemma_div_is_ordered(fg_sum(line, r, p - 1), 255 * r4, r4);
    lemma_div_multiples_vanish(255, r4);
    assert(r4 * 255 == 255 * r4) by (nonlinear_arith);
}

} // verus!
