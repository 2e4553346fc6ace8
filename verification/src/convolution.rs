use vstd::prelude::*;
use vstd::arithmetic::div_mod::{
    lemma_div_is_ordered, lemma_div_multiples_vanish, lemma_div_pos_is_pos,
};

use crate::channels_configuration::FastBlurChannels;
use crate::edge_mode::EdgeMode;
use crate::errors::BlurError;
use crate::geometry::{line_pt, on_line, pix_index, valid_pix};
use crate::kernel::{get_gaussian_kernel_1d, kernel_total, well_formed_kernel};
use crate::scheduler::{segment_end_spec, segment_range, segment_start_spec};
use crate::threading::ThreadingPolicy;

verus! {

/// `v` clamped into `[lo, hi]`.
pub open spec fn clampi(v: int, lo: int, hi: int) -> int {
    if v < lo {
        lo
    } else if v > hi {
        hi
    } else {
        v
    }
}

/// The `n` samples of a buffer scanline starting at `base` and advancing
/// by `step`, as mathematical integers.
pub open spec fn extract_line(s: Seq<u8>, base: int, step: int, n: int) -> Seq<int> {
    Seq::new(n as nat, |t: int| s[base + t * step] as int)
}

/// Q16 accumulator of the first `j` kernel taps at output position `pos`
/// with the replicate-edge policy: out-of-range taps read the clamped
/// edge sample.
pub open spec fn conv_acc_clamp(line: Seq<int>, k: Seq<u32>, pos: int, j: int) -> int
    decreases j,
{
    if j <= 0 {
        0
    } else {
        conv_acc_clamp(line, k, pos, j - 1) + k[j - 1] * line[clampi(
            pos + (j - 1) - (k.len() - 1) as int / 2,
            0,
            line.len() - 1,
        )]
    }
}

/// Q16 accumulator of the first `j` kernel taps at output position `pos`
/// with the kernel-clip policy: out-of-range taps are dropped.
pub open spec fn conv_acc_clip(line: Seq<int>, k: Seq<u32>, pos: int, j: int) -> int
    decreases j,
{
    if j <= 0 {
        0
    } else {
        conv_acc_clip(line, k, pos, j - 1) + {
            let t = pos + (j - 1) - (k.len() - 1) as int / 2;
            if 0 <= t < line.len() {
                k[j - 1] * line[t]
            } else {
                0
            }
        }
    }
}

/// Total weight of the in-range taps among the first `j` at output
/// position `pos`, for a line of length `n`.
pub open spec fn conv_wsum_clip(n: int, k: Seq<u32>, pos: int, j: int) -> int
    decreases j,
{
    if j <= 0 {
        0
    } else {
        conv_wsum_clip(n, k, pos, j - 1) + {
            let t = pos + (j - 1) - (k.len() - 1) as int / 2;
            if 0 <= t < n {
                k[j - 1] as int
            } else {
                0
            }
        }
    }
}

/// Blurred sample at position `pos` of a scanline: the weighted window
/// sum divided by the total weight in play — Q16 one under `Clamp`, the
/// weight of the surviving taps under `KernelClip`.
pub open spec fn conv_out(line: Seq<int>, k: Seq<u32>, mode: EdgeMode, pos: int) -> int {
    match mode {
        EdgeMode::Clamp => conv_acc_clamp(line, k, pos, k.len() as int) / 65536,
        EdgeMode::KernelClip => conv_acc_clip(line, k, pos, k.len() as int) / conv_wsum_clip(
            line.len() as int,
            k,
            pos,
            k.len() as int,
        ),
    }
}

/// A partial kernel total is bounded by the full one, and nonnegative.
pub proof fn lemma_kernel_total_le(k: Seq<u32>, j: int)
    requires
        0 <= j <= k.len(),
    ensures
        0 <= kernel_total(k, j) <= kernel_total(k, k.len() as int),
    decreases k.len() - j,
{
    if j < k.len() {
        lemma_kernel_total_le(k, j + 1);
    }
    lemma_kernel_total_nonneg(k, j);
}

/// Kernel totals of unsigned weights are nonnegative.
pub proof fn lemma_kernel_total_nonneg(k: Seq<u32>, j: int)
    ensures
        kernel_total(k, j) >= 0,
    decreases (if j <= 0 { 0int } else { j }),
{
    if j > 0 {
        lemma_kernel_total_nonneg(k, j - 1);
    }
}

/// Scanline positions with distinct sample numbers are distinct buffer
/// positions.
pub proof fn lemma_line_pt_distinct(base: int, step: int, a: int, b: int)
    requires
        step >= 1,
        a < b,
    ensures
        line_pt(base, step, a) < line_pt(base, step, b),
{
    assert(a * step < b * step) by (nonlinear_arith)
        requires
            a < b,
            step >= 1,
    ;
}

/// Sample numbers below `b` stay inside a buffer that holds sample
/// `b - 1`.
pub proof fn lemma_line_pt_in_bounds(base: int, step: int, a: int, b: int, len: int)
    requires
        step >= 1,
        base >= 0,
        0 <= a < b,
        base + (b - 1) * step < len,
    ensures
        0 <= line_pt(base, step, a) < len,
{
    assert(0 <= a * step && a * step <= (b - 1) * step) by (nonlinear_arith)
        requires
            0 <= a <= b - 1,
            step >= 1,
    ;
}

/// Convolves samples `p0 .. p1` of one scanline of an eight-bit buffer:
/// sample `p` of `dst`'s scanline becomes the kernel window around sample
/// `p` of `src`'s scanline, with the chosen edge policy.  Nothing outside
/// those `dst` samples is touched.
pub fn convolve_scanline_u8(
    src: &Vec<u8>,
    dst: &mut Vec<u8>,
    src_base: usize,
    src_step: usize,
    dst_base: usize,
    dst_step: usize,
    n: usize,
    p0: usize,
    p1: usize,
    kernel: &Vec<u32>,
    edge_mode: EdgeMode,
)
    requires
        well_formed_kernel(kernel@),
        kernel@.len() <= 0xffff_ffff,
        1 <= n <= 0xffff_ffff,
        p0 <= p1 <= n,
        src_step >= 1,
        dst_step >= 1,
        src_base + (n - 1) * src_step < src@.len(),
        dst_base + (n - 1) * dst_step < old(dst)@.len(),
    ensures
        final(dst)@.len() == old(dst)@.len(),
        forall|p: int|
            p0 <= p < p1 ==> final(dst)@[line_pt(dst_base as int, dst_step as int, p)] as int
                == conv_out(
                extract_line(src@, src_base as int, src_step as int, n as int),
                kernel@,
                edge_mode,
                p,
            ),
        forall|i: int|
            0 <= i < old(dst)@.len() && !(exists|p: int|
                p0 <= p < p1 && i == #[trigger] line_pt(dst_base as int, dst_step as int, p))
                ==> final(dst)@[i] == old(dst)@[i],
{
    let ghost line = extract_line(src@, src_base as int, src_step as int, n as int);
    let src_len: usize = src.len();
    let dst_len: usize = dst.len();
    let ksize: usize = kernel.len();
    let half: usize = ksize / 2;
    let mut p: usize = p0;
    while p < p1
        invariant
            well_formed_kernel(kernel@),
            ksize == kernel@.len(),
            half == (ksize - 1) / 2,
            kernel@.len() <= 0xffff_ffff,
            1 <= n <= 0xffff_ffff,
            p0 <= p <= p1 <= n,
            src_step >= 1,
            dst_step >= 1,
            src_base + (n - 1) * src_step < src@.len(),
            dst_base + (n - 1) * dst_step < dst@.len(),
            src@.len() <= usize::MAX,
            dst@.len() <= usize::MAX,
            dst@.len() == old(dst)@.len(),
            line == extract_line(src@, src_base as int, src_step as int, n as int),
            forall|q: int|
                p0 <= q < p ==> dst@[line_pt(dst_base as int, dst_step as int, q)] as int
                    == conv_out(line, kernel@, edge_mode, q),
            forall|i: int|
                0 <= i < dst@.len() && !(exists|q: int|
                    p0 <= q < p && i == #[trigger] line_pt(dst_base as int, dst_step as int, q))
                    ==> dst@[i] == old(dst)@[i],
        decreases p1 - p,
    {
        let mut acc: u64 = 0;
        let mut wsum: u64 = 0;
        let mut j: usize = 0;
        while j < ksize
            invariant
                well_formed_kernel(kernel@),
                ksize == kernel@.len(),
                half == (ksize - 1) / 2,
                kernel@.len() <= 0xffff_ffff,
                1 <= n <= 0xffff_ffff,
                0 <= j <= ksize,
                p < n,
                src_step >= 1,
                src_base + (n - 1) * src_step < src@.len(),
                src@.len() <= usize::MAX,
                line == extract_line(src@, src_base as int, src_step as int, n as int),
                edge_mode == EdgeMode::Clamp ==> acc as int == conv_acc_clamp(
                    line,
                    kernel@,
                    p as int,
                    j as int,
                ),
                edge_mode == EdgeMode::KernelClip ==> acc as int == conv_acc_clip(
                    line,
                    kernel@,
                    p as int,
                    j as int,
                ),
                edge_mode == EdgeMode::KernelClip ==> wsum as int == conv_wsum_clip(
                    n as int,
                    kernel@,
                    p as int,
                    j as int,
                ),
                acc <= 255 * kernel_total(kernel@, j as int),
                edge_mode == EdgeMode::KernelClip ==> acc <= 255 * wsum,
                wsum as int <= kernel_total(kernel@, j as int),
                edge_mode == EdgeMode::KernelClip && j > half ==> wsum as int >= kernel@[
                    half as int
                ],
            decreases ksize - j,
        {
            proof {
                lemma_kernel_total_le(kernel@, j as int);
                lemma_kernel_total_le(kernel@, j as int + 1);
                assert(kernel_total(kernel@, j as int + 1) == kernel_total(kernel@, j as int)
                    + kernel@[j as int]);
            }
            let t_raw: i64 = (p as i64) + (j as i64) - (half as i64);
            let w: u64 = kernel[j] as u64;
            if edge_mode == EdgeMode::Clamp {
                let t: usize = if t_raw < 0 {
                    0
                } else if t_raw > (n - 1) as i64 {
                    n - 1
                } else {
                    t_raw as usize
                };
                proof {
                    lemma_line_pt_in_bounds(
                        src_base as int,
                        src_step as int,
                        t as int,
                        n as int,
                        src@.len() as int,
                    );
                    assert(w * (src@[src_base as int + t as int * src_step as int] as u64) <= w
                        * 255) by (nonlinear_arith)
                        requires
                            src@[src_base as int + t as int * src_step as int] <= 255u8,
                            w >= 0,
                    ;
                    assert(255 * kernel_total(kernel@, j as int) + 255 * (w as int) == 255 * (
                    kernel_total(kernel@, j as int) + w as int)) by (nonlinear_arith);
                }
                let v: u64 = src[src_base + t * src_step] as u64;
                acc = acc + w * v;
                proof {
                    assert(t as int == clampi(
                        p as int + j as int - (ksize - 1) as int / 2,
                        0,
                        n as int - 1,
                    ));
                    assert(line[t as int] == src@[src_base as int + t as int * src_step as int]
                        as int);
                }
            } else {
                if t_raw >= 0 && t_raw <= (n - 1) as i64 {
                    let t: usize = t_raw as usize;
                    proof {
                        lemma_line_pt_in_bounds(
                            src_base as int,
                            src_step as int,
                            t as int,
                            n as int,
                            src@.len() as int,
                        );
                        assert(w * (src@[src_base as int + t as int * src_step as int] as u64)
                            <= w * 255) by (nonlinear_arith)
                            requires
                                src@[src_base as int + t as int * src_step as int] <= 255u8,
                                w >= 0,
                        ;
                        assert(255 * (wsum as int) + 255 * (w as int) == 255 * (wsum as int + w
                            as int)) by (nonlinear_arith);
                        assert(255 * kernel_total(kernel@, j as int) + 255 * (w as int) == 255
                            * (kernel_total(kernel@, j as int) + w as int))
                            by (nonlinear_arith);
                    }
                    let v: u64 = src[src_base + t * src_step] as u64;
                    acc = acc + w * v;
                    wsum = wsum + w;
                }
            }
            j = j + 1;
        }
        let out_val: u8 = if edge_mode == EdgeMode::Clamp {
            proof {
                assert(kernel_total(kernel@, ksize as int) == 65536);
                assert(acc <= 16711680);
                lemma_div_is_ordered(acc as int, 16711680, 65536);
                lemma_div_multiples_vanish(255, 65536);
                assert((65536 * 255) as int / 65536 == 255);
                lemma_div_pos_is_pos(acc as int, 65536);
            }
            (acc / 65536) as u8
        } else {
            proof {
                assert(ksize as int > half as int);
                assert(wsum >= 1);
                lemma_div_is_ordered(acc as int, 255 * (wsum as int), wsum as int);
                lemma_div_multiples_vanish(255, wsum as int);
                assert((wsum as int * 255) as int / (wsum as int) == 255);
                assert(255 * (wsum as int) == wsum as int * 255) by (nonlinear_arith);
                lemma_div_pos_is_pos(acc as int, wsum as int);
            }
            (acc / wsum) as u8
        };
        proof {
            lemma_line_pt_in_bounds(
                dst_base as int,
                dst_step as int,
                p as int,
                n as int,
                dst@.len() as int,
            );
        }
        let idx: usize = dst_base + p * dst_step;
        dst.set(idx, out_val);
        proof {
            assert(out_val as int == conv_out(line, kernel@, edge_mode, p as int));
            assert(idx as int == line_pt(dst_base as int, dst_step as int, p as int));
            assert forall|q: int|
                p0 <= q < p + 1 implies dst@[line_pt(dst_base as int, dst_step as int, q)]
                as int == conv_out(line, kernel@, edge_mode, q) by {
                lemma_line_pt_in_bounds(
                    dst_base as int,
                    dst_step as int,
                    q,
                    n as int,
                    dst@.len() as int,
                );
                if q < p {
                    lemma_line_pt_distinct(dst_base as int, dst_step as int, q, p as int);
                }
            }
        }
        p = p + 1;
    }
}

/// The row scanline of lane `l` of row `y`: the source samples the
/// horizontal pass convolves.
pub open spec fn row_line(s: Seq<u8>, stride: int, ch: int, w: int, y: int, l: int) -> Seq<int> {
    extract_line(s, y * stride + l, ch, w)
}

/// Horizontally blurred sample at `(y, x, l)`.
pub open spec fn h_out(
    s: Seq<u8>,
    src_stride: int,
    ch: int,
    w: int,
    k: Seq<u32>,
    m: EdgeMode,
    y: int,
    x: int,
    l: int,
) -> int {
    conv_out(row_line(s, src_stride, ch, w, y, l), k, m, x)
}

/// Position `i` belongs to some pixel of rows `y0 .. y1`.
pub open spec fn rows_written(i: int, stride: int, ch: int, w: int, y0: int, y1: int) -> bool {
    exists|y: int, x: int, l: int|
        y0 <= y < y1 && 0 <= x < w && 0 <= l < ch && i == #[trigger] pix_index(stride, ch, y, x, l)
}

/// Position `i` belongs to a pixel of row `y` in a lane below `lmax`.
pub open spec fn lanes_written(i: int, stride: int, ch: int, w: int, y: int, lmax: int) -> bool {
    exists|x: int, l: int|
        0 <= x < w && 0 <= l < lmax && i == #[trigger] pix_index(stride, ch, y, x, l)
}

/// Horizontal pass over the row segment `start_y .. end_y`: every lane of
/// every pixel of those rows of `dst` becomes the kernel window around
/// the same position of the corresponding `src` row; everything else in
/// `dst` is untouched.
pub fn gaussian_h_segment(
    src: &Vec<u8>,
    src_stride: usize,
    dst: &mut Vec<u8>,
    dst_stride: usize,
    width: usize,
    height: usize,
    ch: usize,
    kernel: &Vec<u32>,
    edge_mode: EdgeMode,
    start_y: usize,
    end_y: usize,
)
    requires
        well_formed_kernel(kernel@),
        kernel@.len() <= 0xffff_ffff,
        1 <= width <= 0xffff_ffff,
        1 <= height <= 0xffff_ffff,
        1 <= ch,
        src_stride >= width * ch,
        dst_stride >= width * ch,
        src@.len() >= (height - 1) * src_stride + width * ch,
        old(dst)@.len() >= (height - 1) * dst_stride + width * ch,
        start_y <= end_y <= height,
    ensures
        final(dst)@.len() == old(dst)@.len(),
        forall|y: int, x: int, l: int|
            start_y <= y < end_y && 0 <= x < width && 0 <= l < ch ==> final(dst)@[
                #[trigger] pix_index(dst_stride as int, ch as int, y, x, l)
            ] as int == h_out(
                src@,
                src_stride as int,
                ch as int,
                width as int,
                kernel@,
                edge_mode,
                y,
                x,
                l,
            ),
        forall|i: int|
            0 <= i < old(dst)@.len() && !rows_written(
                i,
                dst_stride as int,
                ch as int,
                width as int,
                start_y as int,
                end_y as int,
            ) ==> final(dst)@[i] == old(dst)@[i],
{
    let ghost dstride = dst_stride as int;
    let ghost chi = ch as int;
    let ghost wi = width as int;
    let src_len: usize = src.len();
    let dst_len: usize = dst.len();
    let mut y: usize = start_y;
    while y < end_y
        invariant
            well_formed_kernel(kernel@),
            kernel@.len() <= 0xffff_ffff,
            1 <= width <= 0xffff_ffff,
            1 <= height <= 0xffff_ffff,
            1 <= ch,
            src_stride >= width * ch,
            dst_stride >= width * ch,
            src@.len() >= (height - 1) * src_stride + width * ch,
            dst@.len() >= (height - 1) * dst_stride + width * ch,
            src@.len() <= usize::MAX,
            dst@.len() <= usize::MAX,
            dst@.len() == old(dst)@.len(),
            start_y <= y <= end_y <= height,
            dstride == dst_stride as int,
            chi == ch as int,
            wi == width as int,
            forall|yy: int, x: int, l: int|
                start_y <= yy < y && 0 <= x < width && 0 <= l < ch ==> dst@[
                    #[trigger] pix_index(dstride, chi, yy, x, l)
                ] as int == h_out(
                    src@,
                    src_stride as int,
                    chi,
                    wi,
                    kernel@,
                    edge_mode,
                    yy,
                    x,
                    l,
                ),
            forall|i: int|
                0 <= i < dst@.len() && !rows_written(i, dstride, chi, wi, start_y as int, y as int)
                    ==> dst@[i] == old(dst)@[i],
        decreases end_y - y,
    {
        let ghost dst_row_entry = dst@;
        let mut l: usize = 0;
        while l < ch
            invariant
                well_formed_kernel(kernel@),
                kernel@.len() <= 0xffff_ffff,
                1 <= width <= 0xffff_ffff,
                1 <= height <= 0xffff_ffff,
                1 <= ch,
                src_stride >= width * ch,
                dst_stride >= width * ch,
                src@.len() >= (height - 1) * src_stride + width * ch,
                dst@.len() >= (height - 1) * dst_stride + width * ch,
                src@.len() <= usize::MAX,
                dst@.len() <= usize::MAX,
                dst@.len() == dst_row_entry.len(),
                dst@.len() == old(dst)@.len(),
                start_y <= y < end_y <= height,
                0 <= l <= ch,
                dstride == dst_stride as int,
                chi == ch as int,
                wi == width as int,
                forall|x: int, ll: int|
                    0 <= x < width && 0 <= ll < l ==> dst@[
                        #[trigger] pix_index(dstride, chi, y as int, x, ll)
                    ] as int == h_out(
                        src@,
                        src_stride as int,
                        chi,
                        wi,
                        kernel@,
                        edge_mode,
                        y as int,
                        x,
                        ll,
                    ),
                forall|i: int|
                    0 <= i < dst@.len() && !lanes_written(i, dstride, chi, wi, y as int, l as int)
                        ==> dst@[i] == dst_row_entry[i],
            decreases ch - l,
        {
            proof {
                crate::geometry::lemma_pix_index_in_bounds(
                    wi,
                    height as int,
                    chi,
                    src_stride as int,
                    src@.len() as int,
                    y as int,
                    wi - 1,
                    l as int,
                );
                crate::geometry::lemma_pix_index_in_bounds(
                    wi,
                    height as int,
                    chi,
                    dstride,
                    dst@.len() as int,
                    y as int,
                    wi - 1,
                    l as int,
                );
                crate::geometry::lemma_offset_below_stride(wi, chi, src_stride as int, 0, l as int);
                crate::geometry::lemma_offset_below_stride(wi, chi, dstride, 0, l as int);
                assert(0 <= (wi - 1) * chi) by (nonlinear_arith)
                    requires
                        wi >= 1,
                        chi >= 1,
                ;
                assert(y * src_stride <= (height - 1) * src_stride) by (nonlinear_arith)
                    requires
                        0 <= y as int <= height as int - 1,
                        src_stride >= 0,
                ;
                assert(y * dst_stride <= (height - 1) * dst_stride) by (nonlinear_arith)
                    requires
                        0 <= y as int <= height as int - 1,
                        dst_stride >= 0,
                ;
            }
            let src_base: usize = y * src_stride + l;
            let dst_base: usize = y * dst_stride + l;
            let ghost dst_pre = dst@;
            convolve_scanline_u8(
                src,
                dst,
                src_base,
                ch,
                dst_base,
                ch,
                width,
                0,
                width,
                kernel,
                edge_mode,
            );
            proof {
                assert forall|x: int, ll: int|
                    0 <= x < width && 0 <= ll < l + 1 implies dst@[
                        #[trigger] pix_index(dstride, chi, y as int, x, ll)
                    ] as int == h_out(
                        src@,
                        src_stride as int,
                        chi,
                        wi,
                        kernel@,
                        edge_mode,
                        y as int,
                        x,
                        ll,
                    ) by {
                    if ll == l as int {
                        assert(pix_index(dstride, chi, y as int, x, ll) == line_pt(
                            dst_base as int,
                            chi,
                            x,
                        ));
                        assert(dst@[line_pt(dst_base as int, chi, x)] as int == conv_out(
                            extract_line(src@, src_base as int, chi, wi),
                            kernel@,
                            edge_mode,
                            x,
                        ));
                    } else {
                        crate::geometry::lemma_row_line_misses(
                            wi,
                            height as int,
                            chi,
                            dstride,
                            y as int,
                            l as int,
                            y as int,
                            x,
                            ll,
                        );
                        crate::geometry::lemma_pix_index_in_bounds(
                            wi,
                            height as int,
                            chi,
                            dstride,
                            dst@.len() as int,
                            y as int,
                            x,
                            ll,
                        );
                    }
                }
                assert forall|i: int|
                    0 <= i < dst@.len() && !lanes_written(i, dstride, chi, wi, y as int, l as int
                        + 1) implies dst@[i] == dst_row_entry[i] by {
                    assert forall|pp: int|
                        0 <= pp < width implies i != #[trigger] line_pt(dst_base as int, chi, pp)
                        by {
                        if i == line_pt(dst_base as int, chi, pp) {
                            assert(i == pix_index(dstride, chi, y as int, pp, l as int));
                            assert(lanes_written(i, dstride, chi, wi, y as int, l as int + 1));
                        }
                    }
                    assert(!lanes_written(i, dstride, chi, wi, y as int, l as int));
                    assert(dst_pre[i] == dst_row_entry[i]);
                }
            }
            l = l + 1;
        }
        proof {
            assert forall|i: int|
                0 <= i < dst@.len() && !rows_written(i, dstride, chi, wi, start_y as int, y as int
                    + 1) implies dst@[i] == old(dst)@[i] by {
                if lanes_written(i, dstride, chi, wi, y as int, chi) {
                    let (x, ll) = choose|x: int, ll: int|
                        0 <= x < wi && 0 <= ll < chi && i == #[trigger] pix_index(
                            dstride,
                            chi,
                            y as int,
                            x,
                            ll,
                        );
                    assert(rows_written(i, dstride, chi, wi, start_y as int, y as int + 1));
                } else {
                    if rows_written(i, dstride, chi, wi, start_y as int, y as int) {
                        let (yy, x, ll) = choose|yy: int, x: int, ll: int|
                            start_y <= yy < y as int && 0 <= x < wi && 0 <= ll < chi && i
                                == #[trigger] pix_index(dstride, chi, yy, x, ll);
                        assert(rows_written(i, dstride, chi, wi, start_y as int, y as int + 1));
                    }
                }
            }
            assert forall|yy: int, x: int, l: int|
                start_y <= yy < y + 1 && 0 <= x < width && 0 <= l < ch implies dst@[
                    #[trigger] pix_index(dstride, chi, yy, x, l)
                ] as int == h_out(
                    src@,
                    src_stride as int,
                    chi,
                    wi,
                    kernel@,
                    edge_mode,
                    yy,
                    x,
                    l,
                ) by {
                if yy < y as int {
                    crate::geometry::lemma_pix_index_in_bounds(
                        wi,
                        height as int,
                        chi,
                        dstride,
                        dst@.len() as int,
                        yy,
                        x,
                        l,
                    );
                    if lanes_written(
                        pix_index(dstride, chi, yy, x, l),
                        dstride,
                        chi,
                        wi,
                        y as int,
                        chi,
                    ) {
                        let (x2, l2) = choose|x2: int, l2: int|
                            0 <= x2 < wi && 0 <= l2 < chi && pix_index(dstride, chi, yy, x, l)
                                == #[trigger] pix_index(dstride, chi, y as int, x2, l2);
                        crate::geometry::lemma_pix_index_injective(
                            wi,
                            height as int,
                            chi,
                            dstride,
                            yy,
                            x,
                            l,
                            y as int,
                            x2,
                            l2,
                        );
                    }
                    assert(dst@[pix_index(dstride, chi, yy, x, l)] == dst_row_entry[pix_index(
                        dstride,
                        chi,
                        yy,
                        x,
                        l,
                    )]);
                }
            }
        }
        y = y + 1;
    }
}

/// The column scanline of lane `l` of column `x`: the samples the
/// vertical pass convolves.
pub open spec fn col_line(s: Seq<u8>, stride: int, ch: int, h: int, x: int, l: int) -> Seq<int> {
    extract_line(s, x * ch + l, stride, h)
}

/// Vertically blurred sample at `(y, x, l)`.
pub open spec fn v_out(
    s: Seq<u8>,
    src_stride: int,
    ch: int,
    h: int,
    k: Seq<u32>,
    m: EdgeMode,
    y: int,
    x: int,
    l: int,
) -> int {
    conv_out(col_line(s, src_stride, ch, h, x, l), k, m, y)
}

/// Position `i` belongs to a pixel of rows `y0 .. y1` in column `x`, in a
/// lane below `lmax`.
pub open spec fn col_lanes_written(
    i: int,
    stride: int,
    ch: int,
    y0: int,
    y1: int,
    x: int,
    lmax: int,
) -> bool {
    exists|y: int, l: int|
        y0 <= y < y1 && 0 <= l < lmax && i == #[trigger] pix_index(stride, ch, y, x, l)
}

/// Vertical pass over the row segment `start_y .. end_y`: every lane of
/// every pixel of those rows of `dst` becomes the kernel window around
/// the same row of the corresponding `src` column; everything else in
/// `dst` is untouched.
pub fn gaussian_v_segment(
    src: &Vec<u8>,
    src_stride: usize,
    dst: &mut Vec<u8>,
    dst_stride: usize,
    width: usize,
    height: usize,
    ch: usize,
    kernel: &Vec<u32>,
    edge_mode: EdgeMode,
    start_y: usize,
    end_y: usize,
)
    requires
        well_formed_kernel(kernel@),
        kernel@.len() <= 0xffff_ffff,
        1 <= width <= 0xffff_ffff,
        1 <= height <= 0xffff_ffff,
        1 <= ch,
        src_stride >= width * ch,
        dst_stride >= width * ch,
        src@.len() >= (height - 1) * src_stride + width * ch,
        old(dst)@.len() >= (height - 1) * dst_stride + width * ch,
        start_y <= end_y <= height,
    ensures
        final(dst)@.len() == old(dst)@.len(),
        forall|y: int, x: int, l: int|
            start_y <= y < end_y && 0 <= x < width && 0 <= l < ch ==> final(dst)@[
                #[trigger] pix_index(dst_stride as int, ch as int, y, x, l)
            ] as int == v_out(
                src@,
                src_stride as int,
                ch as int,
                height as int,
                kernel@,
                edge_mode,
                y,
                x,
                l,
            ),
        forall|i: int|
            0 <= i < old(dst)@.len() && !rows_written(
                i,
                dst_stride as int,
                ch as int,
                width as int,
                start_y as int,
                end_y as int,
            ) ==> final(dst)@[i] == old(dst)@[i],
{
    let ghost dstride = dst_stride as int;
    let ghost sstride = src_stride as int;
    let ghost chi = ch as int;
    let ghost wi = width as int;
    let ghost hi = height as int;
    let src_len: usize = src.len();
    let dst_len: usize = dst.len();
    let mut x: usize = 0;
    while x < width
        invariant
            well_formed_kernel(kernel@),
            kernel@.len() <= 0xffff_ffff,
            1 <= width <= 0xffff_ffff,
            1 <= height <= 0xffff_ffff,
            1 <= ch,
            src_stride >= width * ch,
            dst_stride >= width * ch,
            src@.len() >= (height - 1) * src_stride + width * ch,
            dst@.len() >= (height - 1) * dst_stride + width * ch,
            src@.len() <= usize::MAX,
            dst@.len() <= usize::MAX,
            dst@.len() == old(dst)@.len(),
            start_y <= end_y <= height,
            0 <= x <= width,
            dstride == dst_stride as int,
            sstride == src_stride as int,
            chi == ch as int,
            wi == width as int,
            hi == height as int,
            forall|y: int, xx: int, l: int|
                start_y <= y < end_y && 0 <= xx < x && 0 <= l < ch ==> dst@[
                    #[trigger] pix_index(dstride, chi, y, xx, l)
                ] as int == v_out(src@, sstride, chi, hi, kernel@, edge_mode, y, xx, l),
            forall|i: int|
                0 <= i < dst@.len() && !rows_written(
                    i,
                    dstride,
                    chi,
                    x as int,
                    start_y as int,
                    end_y as int,
                ) ==> dst@[i] == old(dst)@[i],
        decreases width - x,
    {
        let ghost dst_col_entry = dst@;
        let mut l: usize = 0;
        while l < ch
            invariant
                well_formed_kernel(kernel@),
                kernel@.len() <= 0xffff_ffff,
                1 <= width <= 0xffff_ffff,
                1 <= height <= 0xffff_ffff,
                1 <= ch,
                src_stride >= width * ch,
                dst_stride >= width * ch,
                src@.len() >= (height - 1) * src_stride + width * ch,
                dst@.len() >= (height - 1) * dst_stride + width * ch,
                src@.len() <= usize::MAX,
                dst@.len() <= usize::MAX,
                dst@.len() == dst_col_entry.len(),
                dst@.len() == old(dst)@.len(),
                start_y <= end_y <= height,
                0 <= x < width,
                0 <= l <= ch,
                dstride == dst_stride as int,
                sstride == src_stride as int,
                chi == ch as int,
                wi == width as int,
                hi == height as int,
                forall|y: int, ll: int|
                    start_y <= y < end_y && 0 <= ll < l ==> dst@[
                        #[trigger] pix_index(dstride, chi, y, x as int, ll)
                    ] as int == v_out(src@, sstride, chi, hi, kernel@, edge_mode, y, x as int, ll),
                forall|i: int|
                    0 <= i < dst@.len() && !col_lanes_written(
                        i,
                        dstride,
                        chi,
                        start_y as int,
                        end_y as int,
                        x as int,
                        l as int,
                    ) ==> dst@[i] == dst_col_entry[i],
            decreases ch - l,
        {
            proof {
                crate::geometry::lemma_pix_index_in_bounds(
                    wi,
                    hi,
                    chi,
                    sstride,
                    src@.len() as int,
                    hi - 1,
                    x as int,
                    l as int,
                );
                crate::geometry::lemma_pix_index_in_bounds(
                    wi,
                    hi,
                    chi,
                    dstride,
                    dst@.len() as int,
                    hi - 1,
                    x as int,
                    l as int,
                );
                crate::geometry::lemma_offset_below_stride(wi, chi, sstride, x as int, l as int);
                crate::geometry::lemma_offset_below_stride(wi, chi, dstride, x as int, l as int);
                assert(0 <= (hi - 1) * sstride) by (nonlinear_arith)
                    requires
                        hi >= 1,
                        sstride >= 0,
                ;
                assert(0 <= (hi - 1) * dstride) by (nonlinear_arith)
                    requires
                        hi >= 1,
                        dstride >= 0,
                ;
            }
            let base: usize = x * ch + l;
            let ghost dst_pre = dst@;
            convolve_scanline_u8(
                src,
                dst,
                base,
                src_stride,
                base,
                dst_stride,
                height,
                start_y,
                end_y,
                kernel,
                edge_mode,
            );
            proof {
                assert forall|y: int, ll: int|
                    start_y <= y < end_y && 0 <= ll < l + 1 implies dst@[
                        #[trigger] pix_index(dstride, chi, y, x as int, ll)
                    ] as int == v_out(
                        src@,
                        sstride,
                        chi,
                        hi,
                        kernel@,
                        edge_mode,
                        y,
                        x as int,
                        ll,
                    ) by {
                    if ll == l as int {
                        assert(pix_index(dstride, chi, y, x as int, ll) == line_pt(
                            base as int,
                            dstride,
                            y,
                        ));
                        assert(dst@[line_pt(base as int, dstride, y)] as int == conv_out(
                            extract_line(src@, base as int, sstride, hi),
                            kernel@,
                            edge_mode,
                            y,
                        ));
                    } else {
                        crate::geometry::lemma_column_line_misses(
                            wi,
                            hi,
                            chi,
                            dstride,
                            x as int,
                            l as int,
                            y,
                            x as int,
                            ll,
                        );
                        assert forall|pp: int|
                            start_y <= pp < end_y implies pix_index(dstride, chi, y, x as int, ll)
                                != #[trigger] line_pt(base as int, dstride, pp) by {
                            if pix_index(dstride, chi, y, x as int, ll) == line_pt(
                                base as int,
                                dstride,
                                pp,
                            ) {
                                assert(on_line(
                                    pix_index(dstride, chi, y, x as int, ll),
                                    (x as int) * chi + l as int,
                                    dstride,
                                    hi,
                                ));
                            }
                        }
                        crate::geometry::lemma_pix_index_in_bounds(
                            wi,
                            hi,
                            chi,
                            dstride,
                            dst@.len() as int,
                            y,
                            x as int,
                            ll,
                        );
                    }
                }
                assert forall|i: int|
                    0 <= i < dst@.len() && !col_lanes_written(
                        i,
                        dstride,
                        chi,
                        start_y as int,
                        end_y as int,
                        x as int,
                        l as int + 1,
                    ) implies dst@[i] == dst_col_entry[i] by {
                    assert forall|pp: int|
                        start_y <= pp < end_y implies i != #[trigger] line_pt(
                            base as int,
                            dstride,
                            pp,
                        ) by {
                        if i == line_pt(base as int, dstride, pp) {
                            assert(i == pix_index(dstride, chi, pp, x as int, l as int));
                            assert(col_lanes_written(
                                i,
                                dstride,
                                chi,
                                start_y as int,
                                end_y as int,
                                x as int,
                                l as int + 1,
                            ));
                        }
                    }
                    assert(!col_lanes_written(
                        i,
                        dstride,
                        chi,
                        start_y as int,
                        end_y as int,
                        x as int,
                        l as int,
                    ));
                    assert(dst_pre[i] == dst_col_entry[i]);
                }
            }
            l = l + 1;
        }
        proof {
            assert forall|i: int|
                0 <= i < dst@.len() && !rows_written(
                    i,
                    dstride,
                    chi,
                    x as int + 1,
                    start_y as int,
                    end_y as int,
                ) implies dst@[i] == old(dst)@[i] by {
                if col_lanes_written(
                    i,
                    dstride,
                    chi,
                    start_y as int,
                    end_y as int,
                    x as int,
                    chi,
                ) {
                    let (yy, ll) = choose|yy: int, ll: int|
                        start_y <= yy < end_y && 0 <= ll < chi && i == #[trigger] pix_index(
                            dstride,
                            chi,
                            yy,
                            x as int,
                            ll,
                        );
                    assert(rows_written(
                        i,
                        dstride,
                        chi,
                        x as int + 1,
                        start_y as int,
                        end_y as int,
                    ));
                } else {
                    if rows_written(i, dstride, chi, x as int, start_y as int, end_y as int) {
                        let (yy, xx, ll) = choose|yy: int, xx: int, ll: int|
                            start_y <= yy < end_y && 0 <= xx < x as int && 0 <= ll < chi && i
                                == #[trigger] pix_index(dstride, chi, yy, xx, ll);
                        assert(rows_written(
                            i,
                            dstride,
                            chi,
                            x as int + 1,
                            start_y as int,
                            end_y as int,
                        ));
                    }
                }
            }
            assert forall|y: int, xx: int, l: int|
                start_y <= y < end_y && 0 <= xx < x + 1 && 0 <= l < ch implies dst@[
                    #[trigger] pix_index(dstride, chi, y, xx, l)
                ] as int == v_out(src@, sstride, chi, hi, kernel@, edge_mode, y, xx, l) by {
                if xx < x as int {
                    crate::geometry::lemma_pix_index_in_bounds(
                        wi,
                        hi,
                        chi,
                        dstride,
                        dst@.len() as int,
                        y,
                        xx,
                        l,
                    );
                    if col_lanes_written(
                        pix_index(dstride, chi, y, xx, l),
                        dstride,
                        chi,
                        start_y as int,
                        end_y as int,
                        x as int,
                        chi,
                    ) {
                        let (y2, l2) = choose|y2: int, l2: int|
                            start_y <= y2 < end_y && 0 <= l2 < chi && pix_index(
                                dstride,
                                chi,
                                y,
                                xx,
                                l,
                            ) == #[trigger] pix_index(dstride, chi, y2, x as int, l2);
                        crate::geometry::lemma_pix_index_injective(
                            wi,
                            hi,
                            chi,
                            dstride,
                            y,
                            xx,
                            l,
                            y2,
                            x as int,
                            l2,
                        );
                    }
                    assert(dst@[pix_index(dstride, chi, y, xx, l)] == dst_col_entry[pix_index(
                        dstride,
                        chi,
                        y,
                        xx,
                        l,
                    )]);
                }
            }
        }
        x = x + 1;
    }
    proof {
        assert forall|i: int|
            0 <= i < dst@.len() && !rows_written(
                i,
                dstride,
                chi,
                wi,
                start_y as int,
                end_y as int,
            ) implies dst@[i] == old(dst)@[i] by {
            if rows_written(i, dstride, chi, wi, start_y as int, end_y as int) {
            }
        }
    }
}

/// Horizontal pass over all rows, split into `count` contiguous row
/// segments exactly as the per-pass workers of one call split them; the
/// segments tile the row range, so together they blur every row and touch
/// nothing else.
fn gaussian_pass_h(
    src: &Vec<u8>,
    src_stride: usize,
    dst: &mut Vec<u8>,
    dst_stride: usize,
    width: usize,
    height: usize,
    ch: usize,
    kernel: &Vec<u32>,
    edge_mode: EdgeMode,
    count: u32,
)
    requires
        well_formed_kernel(kernel@),
        kernel@.len() <= 0xffff_ffff,
        1 <= width <= 0xffff_ffff,
        1 <= height <= 0xffff_ffff,
        1 <= ch,
        src_stride >= width * ch,
        dst_stride >= width * ch,
        src@.len() >= (height - 1) * src_stride + width * ch,
        old(dst)@.len() >= (height - 1) * dst_stride + width * ch,
        1 <= count,
    ensures
        final(dst)@.len() == old(dst)@.len(),
        forall|y: int, x: int, l: int|
            0 <= y < height && 0 <= x < width && 0 <= l < ch ==> final(dst)@[
                #[trigger] pix_index(dst_stride as int, ch as int, y, x, l)
            ] as int == h_out(
                src@,
                src_stride as int,
                ch as int,
                width as int,
                kernel@,
                edge_mode,
                y,
                x,
                l,
            ),
        forall|i: int|
            0 <= i < old(dst)@.len() && !rows_written(
                i,
                dst_stride as int,
                ch as int,
                width as int,
                0,
                height as int,
            ) ==> final(dst)@[i] == old(dst)@[i],
{
    let ghost dstride = dst_stride as int;
    let ghost chi = ch as int;
    let ghost wi = width as int;
    let ghost hi = height as int;
    let mut i: u32 = 0;
    proof {
        crate::scheduler::lemma_segments_chain(hi, count as int, 0);
    }
    while i < count
        invariant
            well_formed_kernel(kernel@),
            kernel@.len() <= 0xffff_ffff,
            1 <= width <= 0xffff_ffff,
            1 <= height <= 0xffff_ffff,
            1 <= ch,
            src_stride >= width * ch,
            dst_stride >= width * ch,
            src@.len() >= (height - 1) * src_stride + width * ch,
            dst@.len() >= (height - 1) * dst_stride + width * ch,
            dst@.len() == old(dst)@.len(),
            1 <= count,
            0 <= i <= count,
            dstride == dst_stride as int,
            chi == ch as int,
            wi == width as int,
            hi == height as int,
            forall|y: int, x: int, l: int|
                0 <= y < seg_done(hi, count as int, i as int) && 0 <= x < width && 0 <= l < ch
                    ==> dst@[#[trigger] pix_index(dstride, chi, y, x, l)] as int == h_out(
                    src@,
                    src_stride as int,
                    chi,
                    wi,
                    kernel@,
                    edge_mode,
                    y,
                    x,
                    l,
                ),
            forall|j: int|
                0 <= j < dst@.len() && !rows_written(
                    j,
                    dstride,
                    chi,
                    wi,
                    0,
                    seg_done(hi, count as int, i as int),
                ) ==> dst@[j] == old(dst)@[j],
        decreases count - i,
    {
        proof {
            crate::scheduler::lemma_segment_bounds(hi, count as int, i as int);
            crate::scheduler::lemma_segments_chain(hi, count as int, i as int);
        }
        let (sy, ey) = segment_range(height as u32, count, i);
        let ghost dst_seg_entry = dst@;
        gaussian_h_segment(
            src,
            src_stride,
            dst,
            dst_stride,
            width,
            height,
            ch,
            kernel,
            edge_mode,
            sy as usize,
            ey as usize,
        );
        proof {
            lemma_merge_rows(
                dst_seg_entry,
                dst@,
                old(dst)@,
                dstride,
                chi,
                wi,
                hi,
                sy as int,
                ey as int,
            );
            assert(seg_done(hi, count as int, i as int) == sy as int);
            assert(seg_done(hi, count as int, i as int + 1) == ey as int);
            assert forall|y: int, x: int, l: int|
                0 <= y < ey as int && 0 <= x < width && 0 <= l < ch implies dst@[
                    #[trigger] pix_index(dstride, chi, y, x, l)
                ] as int == h_out(
                    src@,
                    src_stride as int,
                    chi,
                    wi,
                    kernel@,
                    edge_mode,
                    y,
                    x,
                    l,
                ) by {
                if y < sy as int {
                    crate::geometry::lemma_pix_index_in_bounds(
                        wi,
                        hi,
                        chi,
                        dstride,
                        dst@.len() as int,
                        y,
                        x,
                        l,
                    );
                    lemma_rows_written_needs_row(
                        pix_index(dstride, chi, y, x, l),
                        dstride,
                        chi,
                        wi,
                        hi,
                        sy as int,
                        ey as int,
                        y,
                        x,
                        l,
                    );
                }
            }
        }
        i = i + 1;
    }
    proof {
        assert(seg_done(hi, count as int, count as int) == hi);
    }
}

/// Rows finished after `i` of `count` segments: the start of segment `i`,
/// or the whole extent once every segment ran.
pub open spec fn seg_done(extent: int, count: int, i: int) -> int {
    if i >= count {
        extent
    } else {
        segment_start_spec(extent, count, i)
    }
}

/// A pixel position of a row outside `y0 .. y1` is not among the
/// positions those rows occupy.
pub proof fn lemma_rows_written_needs_row(
    j: int,
    stride: int,
    ch: int,
    w: int,
    h: int,
    y0: int,
    y1: int,
    y: int,
    x: int,
    l: int,
)
    requires
        stride >= w * ch,
        ch >= 1,
        0 <= y0,
        y1 <= h,
        valid_pix(w, h, ch, y, x, l),
        !(y0 <= y < y1),
        j == pix_index(stride, ch, y, x, l),
    ensures
        !rows_written(j, stride, ch, w, y0, y1),
{
    if rows_written(j, stride, ch, w, y0, y1) {
        let (y2, x2, l2) = choose|y2: int, x2: int, l2: int|
            y0 <= y2 < y1 && 0 <= x2 < w && 0 <= l2 < ch && j == #[trigger] pix_index(
                stride,
                ch,
                y2,
                x2,
                l2,
            );
        crate::geometry::lemma_pix_index_injective(w, h, ch, stride, y, x, l, y2, x2, l2);
    }
}

/// Merges the unchanged-position accounts of two consecutive stages: what
/// stage two left alone and stage one had already left alone is still the
/// original value, relative to the union of the written rows.
pub proof fn lemma_merge_rows(
    mid: Seq<u8>,
    now: Seq<u8>,
    orig: Seq<u8>,
    stride: int,
    ch: int,
    w: int,
    h: int,
    sy: int,
    ey: int,
)
    requires
        mid.len() == now.len(),
        orig.len() == now.len(),
        0 <= sy <= ey <= h,
        forall|j: int|
            0 <= j < mid.len() && !rows_written(j, stride, ch, w, 0, sy) ==> mid[j] == orig[j],
        forall|j: int|
            0 <= j < now.len() && !rows_written(j, stride, ch, w, sy, ey) ==> now[j] == mid[j],
    ensures
        forall|j: int|
            0 <= j < now.len() && !rows_written(j, stride, ch, w, 0, ey) ==> now[j] == orig[j],
{
    assert forall|j: int|
        0 <= j < now.len() && !rows_written(j, stride, ch, w, 0, ey) implies now[j] == orig[j]
        by {
        if rows_written(j, stride, ch, w, 0, sy) {
            let (y2, x2, l2) = choose|y2: int, x2: int, l2: int|
                0 <= y2 < sy && 0 <= x2 < w && 0 <= l2 < ch && j == #[trigger] pix_index(
                    stride,
                    ch,
                    y2,
                    x2,
                    l2,
                );
            assert(rows_written(j, stride, ch, w, 0, ey));
        }
        if rows_written(j, stride, ch, w, sy, ey) {
            let (y2, x2, l2) = choose|y2: int, x2: int, l2: int|
                sy <= y2 < ey && 0 <= x2 < w && 0 <= l2 < ch && j == #[trigger] pix_index(
                    stride,
                    ch,
                    y2,
                    x2,
                    l2,
                );
            assert(rows_written(j, stride, ch, w, 0, ey));
        }
    }
}

/// Vertical pass over all rows, split into `count` contiguous row
/// segments; the segments tile the row range.
fn gaussian_pass_v(
    src: &Vec<u8>,
    src_stride: usize,
    dst: &mut Vec<u8>,
    dst_stride: usize,
    width: usize,
    height: usize,
    ch: usize,
    kernel: &Vec<u32>,
    edge_mode: EdgeMode,
    count: u32,
)
    requires
        well_formed_kernel(kernel@),
        kernel@.len() <= 0xffff_ffff,
        1 <= width <= 0xffff_ffff,
        1 <= height <= 0xffff_ffff,
        1 <= ch,
        src_stride >= width * ch,
        dst_stride >= width * ch,
        src@.len() >= (height - 1) * src_stride + width * ch,
        old(dst)@.len() >= (height - 1) * dst_stride + width * ch,
        1 <= count,
    ensures
        final(dst)@.len() == old(dst)@.len(),
        forall|y: int, x: int, l: int|
            0 <= y < height && 0 <= x < width && 0 <= l < ch ==> final(dst)@[
                #[trigger] pix_index(dst_stride as int, ch as int, y, x, l)
            ] as int == v_out(
                src@,
                src_stride as int,
                ch as int,
                height as int,
                kernel@,
                edge_mode,
                y,
                x,
                l,
            ),
        forall|i: int|
            0 <= i < old(dst)@.len() && !rows_written(
                i,
                dst_stride as int,
                ch as int,
                width as int,
                0,
                height as int,
            ) ==> final(dst)@[i] == old(dst)@[i],
{
    let ghost dstride = dst_stride as int;
    let ghost chi = ch as int;
    let ghost wi = width as int;
    let ghost hi = height as int;
    let mut i: u32 = 0;
    proof {
        crate::scheduler::lemma_segments_chain(hi, count as int, 0);
    }
    while i < count
        invariant
            well_formed_kernel(kernel@),
            kernel@.len() <= 0xffff_ffff,
            1 <= width <= 0xffff_ffff,
            1 <= height <= 0xffff_ffff,
            1 <= ch,
            src_stride >= width * ch,
            dst_stride >= width * ch,
            src@.len() >= (height - 1) * src_stride + width * ch,
            dst@.len() >= (height - 1) * dst_stride + width * ch,
            dst@.len() == old(dst)@.len(),
            1 <= count,
            0 <= i <= count,
            dstride == dst_stride as int,
            chi == ch as int,
            wi == width as int,
            hi == height as int,
            forall|y: int, x: int, l: int|
                0 <= y < seg_done(hi, count as int, i as int) && 0 <= x < width && 0 <= l < ch
                    ==> dst@[#[trigger] pix_index(dstride, chi, y, x, l)] as int == v_out(
                    src@,
                    src_stride as int,
                    chi,
                    hi,
                    kernel@,
                    edge_mode,
                    y,
                    x,
                    l,
                ),
            forall|j: int|
                0 <= j < dst@.len() && !rows_written(
                    j,
                    dstride,
                    chi,
                    wi,
                    0,
                    seg_done(hi, count as int, i as int),
                ) ==> dst@[j] == old(dst)@[j],
        decreases count - i,
    {
        proof {
            crate::scheduler::lemma_segment_bounds(hi, count as int, i as int);
            crate::scheduler::lemma_segments_chain(hi, count as int, i as int);
        }
        let (sy, ey) = segment_range(height as u32, count, i);
        let ghost dst_seg_entry = dst@;
        gaussian_v_segment(
            src,
            src_stride,
            dst,
            dst_stride,
            width,
            height,
            ch,
            kernel,
            edge_mode,
            sy as usize,
            ey as usize,
        );
        proof {
            lemma_merge_rows(
                dst_seg_entry,
                dst@,
                old(dst)@,
                dstride,
                chi,
                wi,
                hi,
                sy as int,
                ey as int,
            );
            assert(seg_done(hi, count as int, i as int) == sy as int);
            assert(seg_done(hi, count as int, i as int + 1) == ey as int);
            assert forall|y: int, x: int, l: int|
                0 <= y < ey as int && 0 <= x < width && 0 <= l < ch implies dst@[
                    #[trigger] pix_index(dstride, chi, y, x, l)
                ] as int == v_out(
                    src@,
                    src_stride as int,
                    chi,
                    hi,
                    kernel@,
                    edge_mode,
                    y,
                    x,
                    l,
                ) by {
                if y < sy as int {
                    crate::geometry::lemma_pix_index_in_bounds(
                        wi,
                        hi,
                        chi,
                        dstride,
                        dst@.len() as int,
                        y,
                        x,
                        l,
                    );
                    lemma_rows_written_needs_row(
                        pix_index(dstride, chi, y, x, l),
                        dstride,
                        chi,
                        wi,
                        hi,
                        sy as int,
                        ey as int,
                        y,
                        x,
                        l,
                    );
                }
            }
        }
        i = i + 1;
    }
    proof {
        assert(seg_done(hi, count as int, count as int) == hi);
    }
}

/// The kernel that `get_gaussian_kernel_1d` builds for an odd `size` and
/// a positive Q16 `sigma`, as a sequence.
pub open spec fn gaussian_kernel_seq(size: int, sigma: int) -> Seq<u32> {
    Seq::new(size as nat, |i: int| crate::kernel::kernel_weight_spec(size, sigma, i) as u32)
}

/// The horizontally blurred column that the vertical pass consumes.
pub open spec fn h_col(
    s: Seq<u8>,
    src_stride: int,
    ch: int,
    w: int,
    h: int,
    k: Seq<u32>,
    m: EdgeMode,
    x: int,
    l: int,
) -> Seq<int> {
    Seq::new(h as nat, |y: int| h_out(s, src_stride, ch, w, k, m, y, x, l))
}

/// The two-pass separable Gaussian blur of sample `(y, x, l)`: the
/// vertical kernel window over the horizontally blurred column.  This is
/// a function of the source pixels, the geometry, the kernel and the edge
/// policy alone — in particular the threading policy plays no part in it.
pub open spec fn gaussian_blur_out(
    s: Seq<u8>,
    src_stride: int,
    ch: int,
    w: int,
    h: int,
    k: Seq<u32>,
    m: EdgeMode,
    y: int,
    x: int,
    l: int,
) -> int {
    conv_out(h_col(s, src_stride, ch, w, h, k, m, x, l), k, m, y)
}

/// Exact two-pass separable Gaussian blur of an eight-bit interleaved
/// buffer, written to a distinct destination buffer of the same declared
/// dimensions.
///
/// The kernel is built from `kernel_size` (odd and positive, else the
/// call reports `KernelSizeMustBeOdd` and writes nothing) and the Q16
/// `sigma` (positive, else `SigmaMustBePositive`; 65536 stands for a
/// sigma of 1.0).  On success every lane of every pixel of `dst` holds
/// the value `gaussian_blur_out` describes, and positions outside the
/// pixel rows — row padding beyond `width * ch` — are untouched.  The
/// threading policy only chooses how rows are partitioned into segments;
/// the result does not depend on it.
pub fn gaussian_blur(
    src: &Vec<u8>,
    src_stride: u32,
    dst: &mut Vec<u8>,
    dst_stride: u32,
    width: u32,
    height: u32,
    kernel_size: u32,
    sigma: u32,
    channels: FastBlurChannels,
    edge_mode: EdgeMode,
    threading_policy: ThreadingPolicy,
) -> (r: Result<(), BlurError>)
    requires
        1 <= width,
        1 <= height,
        src_stride as int >= width as int * channels.count(),
        dst_stride as int >= width as int * channels.count(),
        src@.len() >= (height as int - 1) * src_stride as int + width as int * channels.count(),
        old(dst)@.len() >= (height as int - 1) * dst_stride as int + width as int
            * channels.count(),
    ensures
        r.is_ok() <==> (kernel_size % 2 == 1 && sigma >= 1),
        kernel_size % 2 == 0 ==> r == Result::<(), BlurError>::Err(BlurError::KernelSizeMustBeOdd)
            && final(dst)@ == old(dst)@,
        kernel_size % 2 == 1 && sigma == 0 ==> r == Result::<(), BlurError>::Err(
            BlurError::SigmaMustBePositive,
        ) && final(dst)@ == old(dst)@,
        final(dst)@.len() == old(dst)@.len(),
        r.is_ok() ==> forall|y: int, x: int, l: int|
            0 <= y < height && 0 <= x < width && 0 <= l < channels.count() ==> final(dst)@[
                #[trigger] pix_index(dst_stride as int, channels.count(), y, x, l)
            ] as int == gaussian_blur_out(
                src@,
                src_stride as int,
                channels.count(),
                width as int,
                height as int,
                gaussian_kernel_seq(kernel_size as int, sigma as int),
                edge_mode,
                y,
                x,
                l,
            ),
        r.is_ok() ==> forall|i: int|
            0 <= i < old(dst)@.len() && !rows_written(
                i,
                dst_stride as int,
                channels.count(),
                width as int,
                0,
                height as int,
            ) ==> final(dst)@[i] == old(dst)@[i],
{
    let kernel = match get_gaussian_kernel_1d(kernel_size, sigma) {
        Result::Ok(k) => k,
        Result::Err(e) => {
            return Result::Err(e);
        },
    };
    proof {
        assert(kernel@ =~= gaussian_kernel_seq(kernel_size as int, sigma as int));
    }
    let ch: usize = channels.get_channels();
    let w: usize = width as usize;
    let h: usize = height as usize;
    let sstride: usize = src_stride as usize;
    let dstride: usize = dst_stride as usize;
    let dst_len: usize = dst.len();
    proof {
        crate::geometry::lemma_offset_below_stride(
            w as int,
            ch as int,
            dstride as int,
            w as int - 1,
            ch as int - 1,
        );
        assert(0 <= (h as int - 1) * dstride as int) by (nonlinear_arith)
            requires
                h >= 1,
                dstride as int >= 0,
        ;
    }
    let need: usize = (h - 1) * dstride + w * ch;
    let mut transient: Vec<u8> = Vec::new();
    while transient.len() < need
        invariant
            transient@.len() <= need,
        decreases need - transient@.len(),
    {
        transient.push(0);
    }
    let count: u32 = threading_policy.get_threads_count(width, height);
    gaussian_pass_h(
        src,
        sstride,
        &mut transient,
        dstride,
        w,
        h,
        ch,
        &kernel,
        edge_mode,
        count,
    );
    gaussian_pass_v(
        &transient,
        dstride,
        dst,
        dstride,
        w,
        h,
        ch,
        &kernel,
        edge_mode,
        count,
    );
    proof {
        let chi = ch as int;
        let wi = w as int;
        let hi = h as int;
        let ks = kernel@;
        assert forall|y: int, x: int, l: int|
            0 <= y < hi && 0 <= x < wi && 0 <= l < chi implies dst@[
            #[trigger] pix_index(dst_stride as int, chi, y, x, l)
        ] as int == gaussian_blur_out(
            src@,
            src_stride as int,
            chi,
            wi,
            hi,
            ks,
            edge_mode,
            y,
            x,
            l,
        ) by {
            assert(col_line(transient@, dstride as int, chi, hi, x, l) =~= h_col(
                src@,
                src_stride as int,
                chi,
                wi,
                hi,
                ks,
                edge_mode,
                x,
                l,
            )) by {
                assert forall|yy: int| 0 <= yy < hi implies col_line(
                    transient@,
                    dstride as int,
                    chi,
                    hi,
                    x,
                    l,
                )[yy] == h_out(src@, src_stride as int, chi, wi, ks, edge_mode, yy, x, l) by {
                    assert(transient@[#[trigger] pix_index(dstride as int, chi, yy, x, l)]
                        as int == h_out(
                        src@,
                        src_stride as int,
                        chi,
                        wi,
                        ks,
                        edge_mode,
                        yy,
                        x,
                        l,
                    ));
                    assert(pix_index(dstride as int, chi, yy, x, l) == x * chi + l + yy
                        * dstride as int);
                }
            }
        }
    }
    Result::Ok(())
}

/// On a constant scanline the replicate-edge accumulator is the partial
/// kernel total times the constant.
proof fn lemma_acc_clamp_const(line: Seq<int>, k: Seq<u32>, pos: int, j: int, c: int)
    requires
        line.len() >= 1,
        forall|t: int| 0 <= t < line.len() ==> line[t] == c,
        0 <= j <= k.len(),
    ensures
        conv_acc_clamp(line, k, pos, j) == kernel_total(k, j) * c,
    decreases j,
{
    if j == 0 {
        assert(kernel_total(k, 0) * c == 0) by (nonlinear_arith);
    } else {
        lemma_acc_clamp_const(line, k, pos, j - 1, c);
        let t = clampi(pos + (j - 1) - (k.len() - 1) as int / 2, 0, line.len() - 1);
        assert(0 <= t < line.len());
        assert((kernel_total(k, j - 1) + k[j - 1]) * c == kernel_total(k, j - 1) * c + k[j - 1]
            * c) by (nonlinear_arith);
    }
}

/// On a constant scanline the kernel-clip accumulator is the surviving
/// weight total times the constant.
proof fn lemma_acc_clip_const(line: Seq<int>, k: Seq<u32>, pos: int, j: int, c: int)
    requires
        forall|t: int| 0 <= t < line.len() ==> line[t] == c,
        0 <= j <= k.len(),
    ensures
        conv_acc_clip(line, k, pos, j) == conv_wsum_clip(line.len() as int, k, pos, j) * c,
    decreases j,
{
    if j == 0 {
        assert(conv_wsum_clip(line.len() as int, k, pos, 0) * c == 0) by (nonlinear_arith);
    } else {
        lemma_acc_clip_const(line, k, pos, j - 1, c);
        let w0 = conv_wsum_clip(line.len() as int, k, pos, j - 1);
        let t = pos + (j - 1) - (k.len() - 1) as int / 2;
        if 0 <= t < line.len() {
            assert((w0 + k[j - 1]) * c == w0 * c + k[j - 1] * c) by (nonlinear_arith);
        }
    }
}

/// Once the center tap is in, the surviving weight total carries at least
/// the center weight; it never goes negative.
proof fn lemma_wsum_center(n: int, k: Seq<u32>, pos: int, j: int)
    requires
        k.len() >= 1,
        0 <= pos < n,
        0 <= j <= k.len(),
    ensures
        conv_wsum_clip(n, k, pos, j) >= 0,
        j > (k.len() - 1) as int / 2 ==> conv_wsum_clip(n, k, pos, j) >= k[
            (k.len() - 1) as int / 2
        ],
    decreases j,
{
    if j > 0 {
        lemma_wsum_center(n, k, pos, j - 1);
        let t = pos + (j - 1) - (k.len() - 1) as int / 2;
        assert(conv_wsum_clip(n, k, pos, j) == conv_wsum_clip(n, k, pos, j - 1) + if 0 <= t < n {
            k[j - 1] as int
        } else {
            0int
        });
        if j - 1 == (k.len() - 1) as int / 2 {
            assert(t == pos);
            assert(0 <= t < n);
        }
    }
}

/// Convolving any position of a constant scanline with a well-formed
/// kernel gives the constant back, under either edge policy: this is the
/// flat-image invariant that exact normalization buys.
pub proof fn lemma_conv_out_const(line: Seq<int>, k: Seq<u32>, m: EdgeMode, pos: int, c: int)
    requires
        well_formed_kernel(k),
        line.len() >= 1,
        forall|t: int| 0 <= t < line.len() ==> line[t] == c,
        0 <= pos < line.len(),
    ensures
        conv_out(line, k, m, pos) == c,
{
    match m {
        EdgeMode::Clamp => {
            lemma_acc_clamp_const(line, k, pos, k.len() as int, c);
            assert(kernel_total(k, k.len() as int) == 65536);
            lemma_div_multiples_vanish(c, 65536);
            assert(65536 * c == kernel_total(k, k.len() as int) * c) by (nonlinear_arith)
                requires
                    kernel_total(k, k.len() as int) == 65536,
            ;
        },
        EdgeMode::KernelClip => {
            lemma_acc_clip_const(line, k, pos, k.len() as int, c);
            lemma_wsum_center(line.len() as int, k, pos, k.len() as int);
            let ws = conv_wsum_clip(line.len() as int, k, pos, k.len() as int);
            assert(ws >= 1);
            lemma_div_multiples_vanish(c, ws);
            assert(ws * c == conv_acc_clip(line, k, pos, k.len() as int));
        },
    }
}

/// Blurring a lane that holds one constant over the whole image leaves
/// every sample of that lane unchanged, for any well-formed kernel, any
/// edge policy and any channel layout.
pub proof fn lemma_gaussian_blur_flat(
    s: Seq<u8>,
    src_stride: int,
    ch: int,
    w: int,
    h: int,
    k: Seq<u32>,
    m: EdgeMode,
    c: int,
    y: int,
    x: int,
    l: int,
)
    requires
        well_formed_kernel(k),
        w >= 1,
        h >= 1,
        ch >= 1,
        0 <= l < ch,
        0 <= y < h,
        0 <= x < w,
        forall|yy: int, xx: int|
            0 <= yy < h && 0 <= xx < w ==> s[#[trigger] pix_index(src_stride, ch, yy, xx, l)]
                as int == c,
    ensures
        gaussian_blur_out(s, src_stride, ch, w, h, k, m, y, x, l) == c,
{
    assert forall|yy: int, xx: int|
        0 <= yy < h && 0 <= xx < w implies h_out(s, src_stride, ch, w, k, m, yy, xx, l) == c by {
        let line = row_line(s, src_stride, ch, w, yy, l);
        assert forall|t: int| 0 <= t < line.len() implies line[t] == c by {
            assert(s[#[trigger] pix_index(src_stride, ch, yy, t, l)] as int == c);
            assert(pix_index(src_stride, ch, yy, t, l) == yy * src_stride + l + t * ch);
        }
        lemma_conv_out_const(line, k, m, xx, c);
    }
    let colv = h_col(s, src_stride, ch, w, h, k, m, x, l);
    assert forall|t: int| 0 <= t < colv.len() implies colv[t] == c by {
        assert(h_out(s, src_stride, ch, w, k, m, t, x, l) == c);
    }
    lemma_conv_out_const(colv, k, m, y, c);
}

/// A one-pixel image comes back unchanged from the blur, whatever the
/// kernel: every window sample is the pixel itself.
pub proof fn lemma_gaussian_blur_one_pixel(
    s: Seq<u8>,
    src_stride: int,
    ch: int,
    k: Seq<u32>,
    m: EdgeMode,
    l: int,
)
    requires
        well_formed_kernel(k),
        ch >= 1,
        0 <= l < ch,
        0 <= l < s.len(),
    ensures
        gaussian_blur_out(s, src_stride, ch, 1, 1, k, m, 0, 0, l) == s[l] as int,
{
    assert(pix_index(src_stride, ch, 0, 0, l) == l);
    lemma_gaussian_blur_flat(s, src_stride, ch, 1, 1, k, m, s[l] as int, 0, 0, l);
}

/// Two destination buffers that both satisfy the blur contract for the
/// same source, geometry, kernel, edge policy and prior contents are
/// byte-identical.  The contract never mentions the threading policy, so
/// this covers both determinism of repeated runs and the agreement of
/// `Single` and `Adaptive` scheduling.
pub proof fn lemma_blur_contract_unique(
    d1: Seq<u8>,
    d2: Seq<u8>,
    orig: Seq<u8>,
    s: Seq<u8>,
    src_stride: int,
    dst_stride: int,
    ch: int,
    w: int,
    h: int,
    k: Seq<u32>,
    m: EdgeMode,
)
    requires
        d1.len() == orig.len(),
        d2.len() == orig.len(),
        w >= 1,
        h >= 1,
        ch >= 1,
        dst_stride >= w * ch,
        orig.len() >= (h - 1) * dst_stride + w * ch,
        forall|y: int, x: int, l: int|
            0 <= y < h && 0 <= x < w && 0 <= l < ch ==> d1[
                #[trigger] pix_index(dst_stride, ch, y, x, l)
            ] as int == gaussian_blur_out(s, src_stride, ch, w, h, k, m, y, x, l),
        forall|y: int, x: int, l: int|
            0 <= y < h && 0 <= x < w && 0 <= l < ch ==> d2[
                #[trigger] pix_index(dst_stride, ch, y, x, l)
            ] as int == gaussian_blur_out(s, src_stride, ch, w, h, k, m, y, x, l),
        forall|i: int|
            0 <= i < orig.len() && !rows_written(i, dst_stride, ch, w, 0, h) ==> d1[i] == orig[i],
        forall|i: int|
            0 <= i < orig.len() && !rows_written(i, dst_stride, ch, w, 0, h) ==> d2[i] == orig[i],
    ensures
        d1 == d2,
{
    assert forall|i: int| 0 <= i < d1.len() implies d1[i] == d2[i] by {
        if rows_written(i, dst_stride, ch, w, 0, h) {
            let (y, x, l) = choose|y: int, x: int, l: int|
                0 <= y < h && 0 <= x < w && 0 <= l < ch && i == #[trigger] pix_index(
                    dst_stride,
                    ch,
                    y,
                    x,
                    l,
                );
            assert(d1[i] as int == gaussian_blur_out(s, src_stride, ch, w, h, k, m, y, x, l));
            assert(d2[i] as int == gaussian_blur_out(s, src_stride, ch, w, h, k, m, y, x, l));
        }
    }
    assert(d1 =~= d2);
}

} // verus!
