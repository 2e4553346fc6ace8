use vstd::prelude::*;
use vstd::arithmetic::div_mod::{lemma_fundamental_div_mod, lemma_mod_bound};

use crate::channels_configuration::FastBlurChannels;
use crate::convolution::extract_line;
use crate::geometry::{line_pt, on_line, pix_index, valid_pix};
use crate::recurrence::{
    fg_c1, fg_c2, fg_c3, fg_c4, fg_dif, fg_der1, fg_der2, fg_line_bounded, fg_line_out, fg_read,
    fg_sum,
    lemma_fg_out_bounds, lemma_fg_state_bounds, lemma_fg_state_init, lemma_fg_state_step,
    lemma_read_bounds,
};
use crate::threading::ThreadingPolicy;

verus! {

// Ring capacity of the per-scanline history: a power of two strictly
// above six times the largest supported radius, so that all live
// positions of the cursor window map to distinct slots.
pub const RING_CAPACITY: usize = 2048;

// Radii above this cap are silently clamped before the pass runs.
pub const MAX_RADIUS: u32 = 256;

/// Ring slot of logical position `v`: `v` modulo the capacity, shifted
/// into range for the negative warm-up positions.
pub open spec fn slot_spec(v: int) -> int {
    (v + 2048) % 2048
}

/// Ring slot of logical position `v`, computed with the capacity mask as
/// the engine does.
fn slot_of(v: i64) -> (s: usize)
    requires
        -2048 <= v < 0x2_0000_0000,
    ensures
        s as int == slot_spec(v as int),
        s < 2048,
{
    let x: u64 = (v + 2048) as u64;
    proof {
        assert(x & 2047 == x % 2048) by (bit_vector);
        lemma_mod_bound(x as int, 2048);
    }
    (x & 2047) as usize
}

/// Logical positions less than one capacity apart use distinct slots.
pub proof fn lemma_slot_distinct(a: int, b: int)
    requires
        -2048 <= b,
        0 < a - b < 2048,
    ensures
        slot_spec(a) != slot_spec(b),
{
    let x = a + 2048;
    let y = b + 2048;
    lemma_fundamental_div_mod(x, 2048);
    lemma_fundamental_div_mod(y, 2048);
    lemma_mod_bound(x, 2048);
    lemma_mod_bound(y, 2048);
    if slot_spec(a) == slot_spec(b) {
        assert(x - y == 2048 * (x / 2048) - 2048 * (y / 2048));
        assert(2048 * (x / 2048) - 2048 * (y / 2048) == 2048 * (x / 2048 - y / 2048))
            by (nonlinear_arith);
        let d = x / 2048 - y / 2048;
        assert(2048 * d == x - y);
        assert(0 < 2048 * d < 2048);
        assert(false) by (nonlinear_arith)
            requires
                0 < 2048 * d < 2048,
        ;
    }
}

/// Runs the cascaded-integrator recurrence over one scanline of the
/// buffer, in place: sample `p` of the scanline becomes
/// `fg_line_out(line, radius, p)` of the scanline's prior contents, and
/// nothing off the scanline is touched.  The virtual cursor starts at
/// `-4 * radius`; while it is negative the aging-out corrections are
/// suppressed in stages, and past the end the source index is clamped to
/// the last sample (replicate edge).
#[verifier::rlimit(100)]
pub fn fg_scanline(buf: &mut Vec<u8>, base: usize, step: usize, n: usize, radius: u32)
    requires
        1 <= radius <= 256,
        1 <= n <= 0xffff_ffff,
        1 <= step,
        base + (n - 1) * step < old(buf)@.len(),
    ensures
        final(buf)@.len() == old(buf)@.len(),
        forall|p: int|
            0 <= p < n ==> final(buf)@[line_pt(base as int, step as int, p)] as int
                == fg_line_out(
                extract_line(old(buf)@, base as int, step as int, n as int),
                radius as int,
                p,
            ),
        forall|i: int|
            0 <= i < old(buf)@.len() && !on_line(i, base as int, step as int, n as int)
                ==> final(buf)@[i] == old(buf)@[i],
{
    let ghost line = extract_line(old(buf)@, base as int, step as int, n as int);
    let ghost r = radius as int;
    proof {
        assert(line.len() == n as int);
        assert(fg_line_bounded(line)) by {
            assert forall|t: int| 0 <= t < line.len() implies 0 <= #[trigger] line[t] <= 255 by {
                assert(line[t] == old(buf)@[base as int + t * step as int] as int);
            }
        }
        lemma_fg_state_init(line, r);
    }
    let buf_len: usize = buf.len();
    let r64: i64 = radius as i64;
    let n64: i64 = n as i64;
    let mut ring: Vec<i64> = Vec::new();
    while ring.len() < RING_CAPACITY
        invariant
            ring@.len() <= 2048,
        decreases 2048 - ring@.len(),
    {
        ring.push(0);
    }
    let mut dif: i64 = 0;
    let mut der2: i64 = 0;
    let mut der1: i64 = 0;
    let mut sum: i64 = 0;
    let mut p: i64 = -4 * r64;
    while p < n64
        invariant
            1 <= radius <= 256,
            1 <= n <= 0xffff_ffff,
            1 <= step,
            base + (n - 1) * step < buf@.len(),
            buf@.len() <= usize::MAX,
            buf@.len() == old(buf)@.len(),
            r == radius as int,
            r64 == radius as i64,
            n64 == n as i64,
            line == extract_line(old(buf)@, base as int, step as int, n as int),
            line.len() == n as int,
            fg_line_bounded(line),
            ring@.len() == 2048,
            -4 * r <= (p as int) && (p as int) <= n as int,
            (p as int) < n as int ==> {
                &&& dif as int == fg_dif(line, r, p as int - 1)
                &&& der2 as int == fg_der2(line, r, p as int - 1)
                &&& der1 as int == fg_der1(line, r, p as int - 1)
                &&& sum as int == fg_sum(line, r, p as int - 1)
            },
            forall|q: int|
                (p as int) - 4 * r <= q <= (p as int) - 1 && -4 * r <= q && q <= n as int - 2
                    ==> ring@[#[trigger] slot_spec(q + 2 * r)] as int == fg_read(line, r, q),
            forall|q: int|
                0 <= q < (p as int) && q < n as int ==> buf@[
                    #[trigger] line_pt(base as int, step as int, q)
                ] as int == fg_line_out(line, r, q),
            forall|q: int|
                0 <= q < n as int && (p as int) <= q ==> buf@[
                    #[trigger] line_pt(base as int, step as int, q)
                ] == old(buf)@[line_pt(base as int, step as int, q)],
            forall|i: int|
                0 <= i < buf@.len() && !on_line(i, base as int, step as int, n as int) ==> buf@[i]
                    == old(buf)@[i],
        decreases n64 - p,
    {
        let ghost pi = p as int;
        proof {
            lemma_fg_state_bounds(line, r, pi - 1);
            lemma_fg_state_bounds(line, r, pi);
            lemma_fg_state_step(line, r, pi);
            lemma_read_bounds(line, r, pi);
            lemma_read_bounds(line, r, pi - r);
            lemma_read_bounds(line, r, pi - 2 * r);
            lemma_read_bounds(line, r, pi - 3 * r);
            lemma_read_bounds(line, r, pi - 4 * r);
        }
        if p >= 0 {
            proof {
                lemma_fg_out_bounds(line, r, pi);
                crate::convolution::lemma_line_pt_in_bounds(
                    base as int,
                    step as int,
                    pi,
                    n as int,
                    buf@.len() as int,
                );
                assert(1 <= r64 * r64 && r64 * r64 <= 0x1_0000 && 1 <= r64 * r64 * r64
                    && r64 * r64 * r64 <= 0x100_0000 && 1 <= r64 * r64 * r64 * r64 && r64 * r64
                    * r64 * r64 <= 0x1_0000_0000) by (nonlinear_arith)
                    requires
                        1 <= r64 <= 256,
                ;
            }
            let r4: i64 = r64 * r64 * r64 * r64;
            let su: u64 = sum as u64;
            let q8: u64 = su / (r4 as u64);
            let out_v: u8 = q8 as u8;
            let idx: usize = base + (p as usize) * step;
            let ghost buf_before_write = buf@;
            buf.set(idx, out_v);
            proof {
                assert(out_v as int == fg_line_out(line, r, pi));
                assert(idx as int == line_pt(base as int, step as int, pi));
                assert forall|q: int|
                    0 <= q < pi + 1 && q < n as int implies buf@[
                    #[trigger] line_pt(base as int, step as int, q)
                ] as int == fg_line_out(line, r, q) by {
                    if q < pi {
                        crate::convolution::lemma_line_pt_distinct(
                            base as int,
                            step as int,
                            q,
                            pi,
                        );
                        crate::convolution::lemma_line_pt_in_bounds(
                            base as int,
                            step as int,
                            q,
                            n as int,
                            buf@.len() as int,
                        );
                    }
                }
                assert forall|q: int|
                    0 <= q < n as int && pi + 1 <= q implies buf@[
                    #[trigger] line_pt(base as int, step as int, q)
                ] == old(buf)@[line_pt(base as int, step as int, q)] by {
                    crate::convolution::lemma_line_pt_distinct(base as int, step as int, pi, q);
                    crate::convolution::lemma_line_pt_in_bounds(
                        base as int,
                        step as int,
                        q,
                        n as int,
                        buf@.len() as int,
                    );
                }
                assert forall|i: int|
                    0 <= i < buf@.len() && !on_line(i, base as int, step as int, n as int)
                    implies buf@[i] == old(buf)@[i] by {
                    assert(on_line(idx as int, base as int, step as int, n as int));
                }
            }
            let s_pr: usize = slot_of(p + r64);
            let s_p: usize = slot_of(p);
            let s_mr: usize = slot_of(p - r64);
            let s_m2r: usize = slot_of(p - 2 * r64);
            proof {
                assert(slot_spec(pi + r) == slot_spec((pi - r) + 2 * r));
                assert(slot_spec(pi) == slot_spec((pi - 2 * r) + 2 * r));
                assert(slot_spec(pi - r) == slot_spec((pi - 3 * r) + 2 * r));
                assert(slot_spec(pi - 2 * r) == slot_spec((pi - 4 * r) + 2 * r));
            }
            let a_pr: i64 = ring[s_pr];
            let a_p: i64 = ring[s_p];
            let a_mr: i64 = ring[s_mr];
            let a_m2r: i64 = ring[s_m2r];
            proof {
                assert(a_pr as int == fg_read(line, r, pi - r));
                assert(a_p as int == fg_read(line, r, pi - 2 * r));
                assert(a_mr as int == fg_read(line, r, pi - 3 * r));
                assert(a_m2r as int == fg_read(line, r, pi - 4 * r));
            }
            dif = dif + (-4) * (a_mr + a_pr) + 6 * a_p + a_m2r;
        } else {
            if p + 3 * r64 >= 0 {
                let s1: usize = slot_of(p + r64);
                proof {
                    assert(slot_spec(pi + r) == slot_spec((pi - r) + 2 * r));
                }
                let v1: i64 = ring[s1];
                proof {
                    assert(v1 as int == fg_read(line, r, pi - r));
                }
                dif = dif - 4 * v1;
            } else {
                proof {
                    assert(fg_read(line, r, pi - r) == 0);
                }
            }
            if p + 2 * r64 >= 0 {
                let s2: usize = slot_of(p);
                proof {
                    assert(slot_spec(pi) == slot_spec((pi - 2 * r) + 2 * r));
                }
                let v2: i64 = ring[s2];
                proof {
                    assert(v2 as int == fg_read(line, r, pi - 2 * r));
                }
                dif = dif + 6 * v2;
            } else {
                proof {
                    assert(fg_read(line, r, pi - 2 * r) == 0);
                }
            }
            if p + r64 >= 0 {
                let s3: usize = slot_of(p - r64);
                proof {
                    assert(slot_spec(pi - r) == slot_spec((pi - 3 * r) + 2 * r));
                }
                let v3: i64 = ring[s3];
                proof {
                    assert(v3 as int == fg_read(line, r, pi - 3 * r));
                }
                dif = dif - 4 * v3;
            } else {
                proof {
                    assert(fg_read(line, r, pi - 3 * r) == 0);
                }
            }
            proof {
                assert(fg_read(line, r, pi - 4 * r) == 0);
            }
        }
        let t_raw: i64 = p + 2 * r64 - 1;
        let tr: i64 = if t_raw < 0 {
            0
        } else if t_raw > n64 - 1 {
            n64 - 1
        } else {
            t_raw
        };
        proof {
            assert(tr as int == crate::convolution::clampi(pi + 2 * r - 1, 0, n as int - 1));
            crate::convolution::lemma_line_pt_in_bounds(
                base as int,
                step as int,
                tr as int,
                n as int,
                buf@.len() as int,
            );
        }
        let ridx: usize = base + (tr as usize) * step;
        let v: i64 = buf[ridx] as i64;
        proof {
            assert(r * r <= 65536 && r * r * r <= 16777216 && r * r * r * r <= 4294967296)
                by (nonlinear_arith)
                requires
                    1 <= r <= 256,
            ;
            assert(-270000 <= dif && dif <= 270000);
            assert(-34000000 <= der2 && der2 <= 34000000);
            assert(-4300000000 <= der1 && der1 <= 4300000000);
            assert(0 <= sum && sum <= 1100000000000);
        }
        proof {
            if pi < n as int - 1 {
                // the read is ahead of every write, so it sees the prior line
                assert(pi < tr as int || pi < 0);
                assert(buf@[line_pt(base as int, step as int, tr as int)] == old(buf)@[line_pt(
                    base as int,
                    step as int,
                    tr as int,
                )]);
                assert(line[tr as int] == old(buf)@[base as int + tr as int * step as int]
                    as int);
                assert(v as int == fg_read(line, r, pi));
            }
        }
        dif = dif + v;
        der2 = der2 + dif;
        der1 = der1 + der2;
        sum = sum + der1;
        let s_store: usize = slot_of(p + 2 * r64);
        let ghost ring_before = ring@;
        ring.set(s_store, v);
        proof {
            assert forall|q: int|
                pi + 1 - 4 * r <= q <= pi && -4 * r <= q && q <= n as int - 2 implies ring@[
                #[trigger] slot_spec(q + 2 * r)
            ] as int == fg_read(line, r, q) by {
                if q == pi {
                    assert(ring@[slot_spec(pi + 2 * r)] == v);
                } else {
                    lemma_slot_distinct(pi + 2 * r, q + 2 * r);
                    assert(ring@[slot_spec(q + 2 * r)] == ring_before[slot_spec(q + 2 * r)]);
                }
            }
            if pi + 1 < n as int {
                assert(dif as int == fg_dif(line, r, pi));
                assert(der2 as int == fg_der2(line, r, pi));
                assert(der1 as int == fg_der1(line, r, pi));
                assert(sum as int == fg_sum(line, r, pi));
            }
        }
        p = p + 1;
    }
}

/// Vertically blurred sample at `(y, x, l)`: the recurrence run down
/// column `x`, lane `l`.
pub open spec fn fg_v_out(
    s: Seq<u8>,
    stride: int,
    ch: int,
    h: int,
    r: int,
    y: int,
    x: int,
    l: int,
) -> int {
    fg_line_out(crate::convolution::col_line(s, stride, ch, h, x, l), r, y)
}

/// Row `y`, lane `l` of the image after the vertical pass.
pub open spec fn fg_row_after_v(
    s: Seq<u8>,
    stride: int,
    ch: int,
    w: int,
    h: int,
    r: int,
    y: int,
    l: int,
) -> Seq<int> {
    Seq::new(w as nat, |x: int| fg_v_out(s, stride, ch, h, r, y, x, l))
}

/// The approximate blur of sample `(y, x, l)`: the recurrence run along
/// the rows of the vertically blurred image.  Like the exact engine's
/// model this is a function of the source pixels and the geometry alone;
/// the threading policy plays no part in it.
pub open spec fn fast_gaussian_out(
    s: Seq<u8>,
    stride: int,
    ch: int,
    w: int,
    h: int,
    r: int,
    y: int,
    x: int,
    l: int,
) -> int {
    fg_line_out(fg_row_after_v(s, stride, ch, w, h, r, y, l), r, x)
}

/// Position `i` belongs to some pixel of columns `x0 .. x1`.
pub open spec fn cols_written(i: int, stride: int, ch: int, h: int, x0: int, x1: int) -> bool {
    exists|y: int, x: int, l: int|
        0 <= y < h && x0 <= x < x1 && 0 <= l < ch && i == #[trigger] pix_index(stride, ch, y, x, l)
}

/// A pixel position of a column outside `x0 .. x1` is not among the
/// positions those columns occupy.
proof fn lemma_cols_written_needs_col(
    j: int,
    stride: int,
    ch: int,
    w: int,
    h: int,
    x0: int,
    x1: int,
    y: int,
    x: int,
    l: int,
)
    requires
        stride >= w * ch,
        ch >= 1,
        0 <= x0,
        x1 <= w,
        valid_pix(w, h, ch, y, x, l),
        !(x0 <= x < x1),
        j == pix_index(stride, ch, y, x, l),
    ensures
        !cols_written(j, stride, ch, h, x0, x1),
{
    if cols_written(j, stride, ch, h, x0, x1) {
        let (y2, x2, l2) = choose|y2: int, x2: int, l2: int|
            0 <= y2 < h && x0 <= x2 < x1 && 0 <= l2 < ch && j == #[trigger] pix_index(
                stride,
                ch,
                y2,
                x2,
                l2,
            );
        crate::geometry::lemma_pix_index_injective(w, h, ch, stride, y, x, l, y2, x2, l2);
    }
}

/// Vertical pass over the column segment `start_x .. end_x`, in place:
/// every lane of every pixel of those columns becomes the recurrence
/// output over the column's prior contents; everything else is
/// untouched.
pub fn fg_vertical_segment(
    buf: &mut Vec<u8>,
    stride: usize,
    width: usize,
    height: usize,
    ch: usize,
    radius: u32,
    start_x: usize,
    end_x: usize,
)
    requires
        1 <= radius <= 256,
        1 <= width <= 0xffff_ffff,
        1 <= height <= 0xffff_ffff,
        1 <= ch,
        stride >= width * ch,
        old(buf)@.len() >= (height - 1) * stride + width * ch,
        start_x <= end_x <= width,
    ensures
        final(buf)@.len() == old(buf)@.len(),
        forall|y: int, x: int, l: int|
            0 <= y < height && start_x <= x < end_x && 0 <= l < ch ==> final(buf)@[
                #[trigger] pix_index(stride as int, ch as int, y, x, l)
            ] as int == fg_v_out(
                old(buf)@,
                stride as int,
                ch as int,
                height as int,
                radius as int,
                y,
                x,
                l,
            ),
        forall|i: int|
            0 <= i < old(buf)@.len() && !cols_written(
                i,
                stride as int,
                ch as int,
                height as int,
                start_x as int,
                end_x as int,
            ) ==> final(buf)@[i] == old(buf)@[i],
{
    let ghost st = stride as int;
    let ghost chi = ch as int;
    let ghost wi = width as int;
    let ghost hi = height as int;
    let ghost r = radius as int;
    let buf_len: usize = buf.len();
    let mut x: usize = start_x;
    while x < end_x
        invariant
            1 <= radius <= 256,
            1 <= width <= 0xffff_ffff,
            1 <= height <= 0xffff_ffff,
            1 <= ch,
            stride >= width * ch,
            buf@.len() >= (height - 1) * stride + width * ch,
            buf@.len() <= usize::MAX,
            buf@.len() == old(buf)@.len(),
            start_x <= x <= end_x <= width,
            st == stride as int,
            chi == ch as int,
            wi == width as int,
            hi == height as int,
            r == radius as int,
            forall|y: int, xx: int, l: int|
                0 <= y < height && start_x <= xx < x && 0 <= l < ch ==> buf@[
                    #[trigger] pix_index(st, chi, y, xx, l)
                ] as int == fg_v_out(old(buf)@, st, chi, hi, r, y, xx, l),
            forall|i: int|
                0 <= i < buf@.len() && !cols_written(i, st, chi, hi, start_x as int, x as int)
                    ==> buf@[i] == old(buf)@[i],
        decreases end_x - x,
    {
        let mut l: usize = 0;
        while l < ch
            invariant
                1 <= radius <= 256,
                1 <= width <= 0xffff_ffff,
                1 <= height <= 0xffff_ffff,
                1 <= ch,
                stride >= width * ch,
                buf@.len() >= (height - 1) * stride + width * ch,
                buf@.len() <= usize::MAX,
                buf@.len() == old(buf)@.len(),
                start_x <= x < end_x <= width,
                0 <= l <= ch,
                st == stride as int,
                chi == ch as int,
                wi == width as int,
                hi == height as int,
                r == radius as int,
                forall|y: int, xx: int, ll: int|
                    0 <= y < height && start_x <= xx < x && 0 <= ll < ch ==> buf@[
                        #[trigger] pix_index(st, chi, y, xx, ll)
                    ] as int == fg_v_out(old(buf)@, st, chi, hi, r, y, xx, ll),
                forall|y: int, ll: int|
                    0 <= y < height && 0 <= ll < l ==> buf@[
                        #[trigger] pix_index(st, chi, y, x as int, ll)
                    ] as int == fg_v_out(old(buf)@, st, chi, hi, r, y, x as int, ll),
                forall|i: int|
                    0 <= i < buf@.len() && !cols_written(i, st, chi, hi, start_x as int, x as int)
                        && !crate::convolution::col_lanes_written(
                        i,
                        st,
                        chi,
                        0,
                        hi,
                        x as int,
                        l as int,
                    ) ==> buf@[i] == old(buf)@[i],
            decreases ch - l,
        {
            proof {
                crate::geometry::lemma_pix_index_in_bounds(
                    wi,
                    hi,
                    chi,
                    st,
                    buf@.len() as int,
                    hi - 1,
                    x as int,
                    l as int,
                );
                crate::geometry::lemma_offset_below_stride(wi, chi, st, x as int, l as int);
                assert(0 <= (hi - 1) * st) by (nonlinear_arith)
                    requires
                        hi >= 1,
                        st >= 0,
                ;
            }
            let base: usize = x * ch + l;
            let ghost buf_pre = buf@;
            let ghost pre_line = extract_line(buf_pre, base as int, st, hi);
            proof {
                // the column still holds its original samples
                assert forall|y: int| 0 <= y < hi implies pre_line[y]
                    == crate::convolution::col_line(old(buf)@, st, chi, hi, x as int, l as int)[y]
                by {
                    let j = pix_index(st, chi, y, x as int, l as int);
                    crate::geometry::lemma_pix_index_in_bounds(
                        wi,
                        hi,
                        chi,
                        st,
                        buf@.len() as int,
                        y,
                        x as int,
                        l as int,
                    );
                    lemma_cols_written_needs_col(
                        j,
                        st,
                        chi,
                        wi,
                        hi,
                        start_x as int,
                        x as int,
                        y,
                        x as int,
                        l as int,
                    );
                    if crate::convolution::col_lanes_written(j, st, chi, 0, hi, x as int, l as int) {
                        let (y2, l2) = choose|y2: int, l2: int|
                            0 <= y2 < hi && 0 <= l2 < l as int && j == #[trigger] pix_index(
                                st,
                                chi,
                                y2,
                                x as int,
                                l2,
                            );
                        crate::geometry::lemma_pix_index_injective(
                            wi,
                            hi,
                            chi,
                            st,
                            y,
                            x as int,
                            l as int,
                            y2,
                            x as int,
                            l2,
                        );
                    }
                    assert(buf_pre[j] == old(buf)@[j]);
                    assert(j == base as int + y * st);
                }
                assert(pre_line =~= crate::convolution::col_line(
                    old(buf)@,
                    st,
                    chi,
                    hi,
                    x as int,
                    l as int,
                ));
            }
            fg_scanline(buf, base, stride, height, radius);
            proof {
                assert forall|y: int, ll: int|
                    0 <= y < height && 0 <= ll < l + 1 implies buf@[
                        #[trigger] pix_index(st, chi, y, x as int, ll)
                    ] as int == fg_v_out(old(buf)@, st, chi, hi, r, y, x as int, ll) by {
                    if ll == l as int {
                        assert(pix_index(st, chi, y, x as int, ll) == line_pt(base as int, st, y));
                        assert(buf@[line_pt(base as int, st, y)] as int == fg_line_out(
                            pre_line,
                            r,
                            y,
                        ));
                    } else {
                        crate::geometry::lemma_column_line_misses(
                            wi,
                            hi,
                            chi,
                            st,
                            x as int,
                            l as int,
                            y,
                            x as int,
                            ll,
                        );
                        crate::geometry::lemma_pix_index_in_bounds(
                            wi,
                            hi,
                            chi,
                            st,
                            buf@.len() as int,
                            y,
                            x as int,
                            ll,
                        );
                    }
                }
                assert forall|y: int, xx: int, ll: int|
                    0 <= y < height && start_x <= xx < x && 0 <= ll < ch implies buf@[
                        #[trigger] pix_index(st, chi, y, xx, ll)
                    ] as int == fg_v_out(old(buf)@, st, chi, hi, r, y, xx, ll) by {
                    crate::geometry::lemma_column_line_misses(
                        wi,
                        hi,
                        chi,
                        st,
                        x as int,
                        l as int,
                        y,
                        xx,
                        ll,
                    );
                    crate::geometry::lemma_pix_index_in_bounds(
                        wi,
                        hi,
                        chi,
                        st,
                        buf@.len() as int,
                        y,
                        xx,
                        ll,
                    );
                }
                assert forall|i: int|
                    0 <= i < buf@.len() && !cols_written(i, st, chi, hi, start_x as int, x as int)
                        && !crate::convolution::col_lanes_written(
                        i,
                        st,
                        chi,
                        0,
                        hi,
                        x as int,
                        l as int + 1,
                    ) implies buf@[i] == old(buf)@[i] by {
                    assert forall|y: int|
                        0 <= y < hi implies i != #[trigger] line_pt(base as int, st, y) by {
                        if i == line_pt(base as int, st, y) {
                            assert(i == pix_index(st, chi, y, x as int, l as int));
                            assert(crate::convolution::col_lanes_written(
                                i,
                                st,
                                chi,
                                0,
                                hi,
                                x as int,
                                l as int + 1,
                            ));
                        }
                    }
                    assert(!on_line(i, base as int, st, hi));
                    assert(!crate::convolution::col_lanes_written(
                        i,
                        st,
                        chi,
                        0,
                        hi,
                        x as int,
                        l as int,
                    ));
                    assert(buf_pre[i] == old(buf)@[i]);
                }
            }
            l = l + 1;
        }
        proof {
            assert forall|i: int|
                0 <= i < buf@.len() && !cols_written(i, st, chi, hi, start_x as int, x as int + 1)
                implies buf@[i] == old(buf)@[i] by {
                if crate::convolution::col_lanes_written(i, st, chi, 0, hi, x as int, chi) {
                    let (y2, l2) = choose|y2: int, l2: int|
                        0 <= y2 < hi && 0 <= l2 < chi && i == #[trigger] pix_index(
                            st,
                            chi,
                            y2,
                            x as int,
                            l2,
                        );
                    assert(cols_written(i, st, chi, hi, start_x as int, x as int + 1));
                } else {
                    if cols_written(i, st, chi, hi, start_x as int, x as int) {
                        let (y2, x2, l2) = choose|y2: int, x2: int, l2: int|
                            0 <= y2 < hi && start_x <= x2 < x as int && 0 <= l2 < chi && i
                                == #[trigger] pix_index(st, chi, y2, x2, l2);
                        assert(cols_written(i, st, chi, hi, start_x as int, x as int + 1));
                    }
                }
            }
            assert forall|y: int, xx: int, ll: int|
                0 <= y < height && start_x <= xx < x + 1 && 0 <= ll < ch implies buf@[
                    #[trigger] pix_index(st, chi, y, xx, ll)
                ] as int == fg_v_out(old(buf)@, st, chi, hi, r, y, xx, ll) by {
            }
        }
        x = x + 1;
    }
}

/// Horizontal pass over the row segment `start_y .. end_y`, in place:
/// every lane of every pixel of those rows becomes the recurrence output
/// over the row's prior contents; everything else is untouched.
pub fn fg_horizontal_segment(
    buf: &mut Vec<u8>,
    stride: usize,
    width: usize,
    height: usize,
    ch: usize,
    radius: u32,
    start_y: usize,
    end_y: usize,
)
    requires
        1 <= radius <= 256,
        1 <= width <= 0xffff_ffff,
        1 <= height <= 0xffff_ffff,
        1 <= ch,
        stride >= width * ch,
        old(buf)@.len() >= (height - 1) * stride + width * ch,
        start_y <= end_y <= height,
    ensures
        final(buf)@.len() == old(buf)@.len(),
        forall|y: int, x: int, l: int|
            start_y <= y < end_y && 0 <= x < width && 0 <= l < ch ==> final(buf)@[
                #[trigger] pix_index(stride as int, ch as int, y, x, l)
            ] as int == fg_line_out(
                crate::convolution::row_line(old(buf)@, stride as int, ch as int, width as int, y, l),
                radius as int,
                x,
            ),
        forall|i: int|
            0 <= i < old(buf)@.len() && !crate::convolution::rows_written(
                i,
                stride as int,
                ch as int,
                width as int,
                start_y as int,
                end_y as int,
            ) ==> final(buf)@[i] == old(buf)@[i],
{
    let ghost st = stride as int;
    let ghost chi = ch as int;
    let ghost wi = width as int;
    let ghost hi = height as int;
    let ghost r = radius as int;
    let buf_len: usize = buf.len();
    let mut y: usize = start_y;
    while y < end_y
        invariant
            1 <= radius <= 256,
            1 <= width <= 0xffff_ffff,
            1 <= height <= 0xffff_ffff,
            1 <= ch,
            stride >= width * ch,
            buf@.len() >= (height - 1) * stride + width * ch,
            buf@.len() <= usize::MAX,
            buf@.len() == old(buf)@.len(),
            start_y <= y <= end_y <= height,
            st == stride as int,
            chi == ch as int,
            wi == width as int,
            hi == height as int,
            r == radius as int,
            forall|yy: int, x: int, l: int|
                start_y <= yy < y && 0 <= x < width && 0 <= l < ch ==> buf@[
                    #[trigger] pix_index(st, chi, yy, x, l)
                ] as int == fg_line_out(
                    crate::convolution::row_line(old(buf)@, st, chi, wi, yy, l),
                    r,
                    x,
                ),
            forall|i: int|
                0 <= i < buf@.len() && !crate::convolution::rows_written(
                    i,
                    st,
                    chi,
                    wi,
                    start_y as int,
                    y as int,
                ) ==> buf@[i] == old(buf)@[i],
        decreases end_y - y,
    {
        let mut l: usize = 0;
        while l < ch
            invariant
                1 <= radius <= 256,
                1 <= width <= 0xffff_ffff,
                1 <= height <= 0xffff_ffff,
                1 <= ch,
                stride >= width * ch,
                buf@.len() >= (height - 1) * stride + width * ch,
                buf@.len() <= usize::MAX,
                buf@.len() == old(buf)@.len(),
                start_y <= y < end_y <= height,
                0 <= l <= ch,
                st == stride as int,
                chi == ch as int,
                wi == width as int,
                hi == height as int,
                r == radius as int,
                forall|yy: int, x: int, ll: int|
                    start_y <= yy < y && 0 <= x < width && 0 <= ll < ch ==> buf@[
                        #[trigger] pix_index(st, chi, yy, x, ll)
                    ] as int == fg_line_out(
                        crate::convolution::row_line(old(buf)@, st, chi, wi, yy, ll),
                        r,
                        x,
                    ),
                forall|x: int, ll: int|
                    0 <= x < width && 0 <= ll < l ==> buf@[
                        #[trigger] pix_index(st, chi, y as int, x, ll)
                    ] as int == fg_line_out(
                        crate::convolution::row_line(old(buf)@, st, chi, wi, y as int, ll),
                        r,
                        x,
                    ),
                forall|i: int|
                    0 <= i < buf@.len() && !crate::convolution::rows_written(
                        i,
                        st,
                        chi,
                        wi,
                        start_y as int,
                        y as int,
                    ) && !crate::convolution::lanes_written(i, st, chi, wi, y as int, l as int)
                        ==> buf@[i] == old(buf)@[i],
            decreases ch - l,
        {
            proof {
                crate::geometry::lemma_pix_index_in_bounds(
                    wi,
                    hi,
                    chi,
                    st,
                    buf@.len() as int,
                    y as int,
                    wi - 1,
                    l as int,
                );
                crate::geometry::lemma_offset_below_stride(wi, chi, st, 0, l as int);
                assert(0 <= (wi - 1) * chi) by (nonlinear_arith)
                    requires
                        wi >= 1,
                        chi >= 1,
                ;
                assert(y * stride <= (height - 1) * stride) by (nonlinear_arith)
                    requires
                        0 <= y as int <= height as int - 1,
                        stride >= 0,
                ;
            }
            let base: usize = y * stride + l;
            let ghost buf_pre = buf@;
            let ghost pre_line = extract_line(buf_pre, base as int, chi, wi);
            proof {
                // the row still holds the values it had when the pass began
                assert forall|x: int| 0 <= x < wi implies pre_line[x]
                    == crate::convolution::row_line(old(buf)@, st, chi, wi, y as int, l as int)[x]
                by {
                    let j = pix_index(st, chi, y as int, x, l as int);
                    crate::geometry::lemma_pix_index_in_bounds(
                        wi,
                        hi,
                        chi,
                        st,
                        buf@.len() as int,
                        y as int,
                        x,
                        l as int,
                    );
                    crate::convolution::lemma_rows_written_needs_row(
                        j,
                        st,
                        chi,
                        wi,
                        hi,
                        start_y as int,
                        y as int,
                        y as int,
                        x,
                        l as int,
                    );
                    if crate::convolution::lanes_written(j, st, chi, wi, y as int, l as int) {
                        let (x2, l2) = choose|x2: int, l2: int|
                            0 <= x2 < wi && 0 <= l2 < l as int && j == #[trigger] pix_index(
                                st,
                                chi,
                                y as int,
                                x2,
                                l2,
                            );
                        crate::geometry::lemma_pix_index_injective(
                            wi,
                            hi,
                            chi,
                            st,
                            y as int,
                            x,
                            l as int,
                            y as int,
                            x2,
                            l2,
                        );
                    }
                    assert(buf_pre[j] == old(buf)@[j]);
                    assert(j == base as int + x * chi);
                }
                assert(pre_line =~= crate::convolution::row_line(
                    old(buf)@,
                    st,
                    chi,
                    wi,
                    y as int,
                    l as int,
                ));
            }
            fg_scanline(buf, base, ch, width, radius);
            proof {
                assert forall|x: int, ll: int|
                    0 <= x < width && 0 <= ll < l + 1 implies buf@[
                        #[trigger] pix_index(st, chi, y as int, x, ll)
                    ] as int == fg_line_out(
                        crate::convolution::row_line(old(buf)@, st, chi, wi, y as int, ll),
                        r,
                        x,
                    ) by {
                    if ll == l as int {
                        assert(pix_index(st, chi, y as int, x, ll) == line_pt(
                            base as int,
                            chi,
                            x,
                        ));
                        assert(buf@[line_pt(base as int, chi, x)] as int == fg_line_out(
                            pre_line,
                            r,
                            x,
                        ));
                    } else {
                        crate::geometry::lemma_row_line_misses(
                            wi,
                            hi,
                            chi,
                            st,
                            y as int,
                            l as int,
                            y as int,
                            x,
                            ll,
                        );
                        crate::geometry::lemma_pix_index_in_bounds(
                            wi,
                            hi,
                            chi,
                            st,
                            buf@.len() as int,
                            y as int,
                            x,
                            ll,
                        );
                    }
                }
                assert forall|yy: int, x: int, ll: int|
                    start_y <= yy < y && 0 <= x < width && 0 <= ll < ch implies buf@[
                        #[trigger] pix_index(st, chi, yy, x, ll)
                    ] as int == fg_line_out(
                        crate::convolution::row_line(old(buf)@, st, chi, wi, yy, ll),
                        r,
                        x,
                    ) by {
                    crate::geometry::lemma_row_line_misses(
                        wi,
                        hi,
                        chi,
                        st,
                        y as int,
                        l as int,
                        yy,
                        x,
                        ll,
                    );
                    crate::geometry::lemma_pix_index_in_bounds(
                        wi,
                        hi,
                        chi,
                        st,
                        buf@.len() as int,
                        yy,
                        x,
                        ll,
                    );
                }
                assert forall|i: int|
                    0 <= i < buf@.len() && !crate::convolution::rows_written(
                        i,
                        st,
                        chi,
                        wi,
                        start_y as int,
                        y as int,
                    ) && !crate::convolution::lanes_written(
                        i,
                        st,
                        chi,
                        wi,
                        y as int,
                        l as int + 1,
                    ) implies buf@[i] == old(buf)@[i] by {
                    assert forall|x: int|
                        0 <= x < wi implies i != #[trigger] line_pt(base as int, chi, x) by {
                        if i == line_pt(base as int, chi, x) {
                            assert(i == pix_index(st, chi, y as int, x, l as int));
                            assert(crate::convolution::lanes_written(
                                i,
                                st,
                                chi,
                                wi,
                                y as int,
                                l as int + 1,
                            ));
                        }
                    }
                    assert(!on_line(i, base as int, chi, wi));
                    assert(!crate::convolution::lanes_written(i, st, chi, wi, y as int, l as int));
                    assert(buf_pre[i] == old(buf)@[i]);
                }
            }
            l = l + 1;
        }
        proof {
            assert forall|i: int|
                0 <= i < buf@.len() && !crate::convolution::rows_written(
                    i,
                    st,
                    chi,
                    wi,
                    start_y as int,
                    y as int + 1,
                ) implies buf@[i] == old(buf)@[i] by {
                if crate::convolution::lanes_written(i, st, chi, wi, y as int, chi) {
                    let (x2, l2) = choose|x2: int, l2: int|
                        0 <= x2 < wi && 0 <= l2 < chi && i == #[trigger] pix_index(
                            st,
                            chi,
                            y as int,
                            x2,
                            l2,
                        );
                    assert(crate::convolution::rows_written(
                        i,
                        st,
                        chi,
                        wi,
                        start_y as int,
                        y as int + 1,
                    ));
                } else {
                    if crate::convolution::rows_written(i, st, chi, wi, start_y as int, y as int) {
                        let (y2, x2, l2) = choose|y2: int, x2: int, l2: int|
                            start_y <= y2 < y as int && 0 <= x2 < wi && 0 <= l2 < chi && i
                                == #[trigger] pix_index(st, chi, y2, x2, l2);
                        assert(crate::convolution::rows_written(
                            i,
                            st,
                            chi,
                            wi,
                            start_y as int,
                            y as int + 1,
                        ));
                    }
                }
            }
        }
        y = y + 1;
    }
}

/// Merges the unchanged-position accounts of two consecutive column
/// stages.
proof fn lemma_merge_cols(
    mid: Seq<u8>,
    now: Seq<u8>,
    orig: Seq<u8>,
    stride: int,
    ch: int,
    h: int,
    sx: int,
    ex: int,
)
    requires
        mid.len() == now.len(),
        orig.len() == now.len(),
        0 <= sx <= ex,
        forall|j: int|
            0 <= j < mid.len() && !cols_written(j, stride, ch, h, 0, sx) ==> mid[j] == orig[j],
        forall|j: int|
            0 <= j < now.len() && !cols_written(j, stride, ch, h, sx, ex) ==> now[j] == mid[j],
    ensures
        forall|j: int|
            0 <= j < now.len() && !cols_written(j, stride, ch, h, 0, ex) ==> now[j] == orig[j],
{
    assert forall|j: int|
        0 <= j < now.len() && !cols_written(j, stride, ch, h, 0, ex) implies now[j] == orig[j]
        by {
        if cols_written(j, stride, ch, h, 0, sx) {
            let (y2, x2, l2) = choose|y2: int, x2: int, l2: int|
                0 <= y2 < h && 0 <= x2 < sx && 0 <= l2 < ch && j == #[trigger] pix_index(
                    stride,
                    ch,
                    y2,
                    x2,
                    l2,
                );
            assert(cols_written(j, stride, ch, h, 0, ex));
        }
        if cols_written(j, stride, ch, h, sx, ex) {
            let (y2, x2, l2) = choose|y2: int, x2: int, l2: int|
                0 <= y2 < h && sx <= x2 < ex && 0 <= l2 < ch && j == #[trigger] pix_index(
                    stride,
                    ch,
                    y2,
                    x2,
                    l2,
                );
            assert(cols_written(j, stride, ch, h, 0, ex));
        }
    }
}

/// The column form and the row form of "this position belongs to some
/// pixel of the image" agree.
proof fn lemma_pixels_written_forms(i: int, stride: int, ch: int, w: int, h: int)
    ensures
        cols_written(i, stride, ch, h, 0, w) <==> crate::convolution::rows_written(
            i,
            stride,
            ch,
            w,
            0,
            h,
        ),
{
    if cols_written(i, stride, ch, h, 0, w) {
        let (y2, x2, l2) = choose|y2: int, x2: int, l2: int|
            0 <= y2 < h && 0 <= x2 < w && 0 <= l2 < ch && i == #[trigger] pix_index(
                stride,
                ch,
                y2,
                x2,
                l2,
            );
        assert(crate::convolution::rows_written(i, stride, ch, w, 0, h));
    }
    if crate::convolution::rows_written(i, stride, ch, w, 0, h) {
        let (y2, x2, l2) = choose|y2: int, x2: int, l2: int|
            0 <= y2 < h && 0 <= x2 < w && 0 <= l2 < ch && i == #[trigger] pix_index(
                stride,
                ch,
                y2,
                x2,
                l2,
            );
        assert(cols_written(i, stride, ch, h, 0, w));
    }
}

/// Vertical pass over every column, split into `count` contiguous column
/// segments that tile the width.
fn fg_pass_v(
    buf: &mut Vec<u8>,
    stride: usize,
    width: usize,
    height: usize,
    ch: usize,
    radius: u32,
    count: u32,
)
    requires
        1 <= radius <= 256,
        1 <= width <= 0xffff_ffff,
        1 <= height <= 0xffff_ffff,
        1 <= ch,
        stride >= width * ch,
        old(buf)@.len() >= (height - 1) * stride + width * ch,
        1 <= count,
    ensures
        final(buf)@.len() == old(buf)@.len(),
        forall|y: int, x: int, l: int|
            0 <= y < height && 0 <= x < width && 0 <= l < ch ==> final(buf)@[
                #[trigger] pix_index(stride as int, ch as int, y, x, l)
            ] as int == fg_v_out(
                old(buf)@,
                stride as int,
                ch as int,
                height as int,
                radius as int,
                y,
                x,
                l,
            ),
        forall|i: int|
            0 <= i < old(buf)@.len() && !cols_written(
                i,
                stride as int,
                ch as int,
                height as int,
                0,
                width as int,
            ) ==> final(buf)@[i] == old(buf)@[i],
{
    let ghost st = stride as int;
    let ghost chi = ch as int;
    let ghost wi = width as int;
    let ghost hi = height as int;
    let ghost r = radius as int;
    let mut i: u32 = 0;
    proof {
        crate::scheduler::lemma_segments_chain(wi, count as int, 0);
    }
    while i < count
        invariant
            1 <= radius <= 256,
            1 <= width <= 0xffff_ffff,
            1 <= height <= 0xffff_ffff,
            1 <= ch,
            stride >= width * ch,
            buf@.len() >= (height - 1) * stride + width * ch,
            buf@.len() == old(buf)@.len(),
            1 <= count,
            0 <= i <= count,
            st == stride as int,
            chi == ch as int,
            wi == width as int,
            hi == height as int,
            r == radius as int,
            forall|y: int, x: int, l: int|
                0 <= y < height && 0 <= x < crate::convolution::seg_done(wi, count as int, i as int)
                    && 0 <= l < ch ==> buf@[#[trigger] pix_index(st, chi, y, x, l)] as int
                    == fg_v_out(old(buf)@, st, chi, hi, r, y, x, l),
            forall|j: int|
                0 <= j < buf@.len() && !cols_written(
                    j,
                    st,
                    chi,
                    hi,
                    0,
                    crate::convolution::seg_done(wi, count as int, i as int),
                ) ==> buf@[j] == old(buf)@[j],
        decreases count - i,
    {
        proof {
            crate::scheduler::lemma_segment_bounds(wi, count as int, i as int);
            crate::scheduler::lemma_segments_chain(wi, count as int, i as int);
        }
        let (sx, ex) = crate::scheduler::segment_range(width as u32, count, i);
        let ghost buf_seg_entry = buf@;
        proof {
            // columns of this segment still hold what the pass started with
            assert forall|yy: int, xx: int, ll: int|
                sx as int <= xx < ex as int && 0 <= yy < hi && 0 <= ll < chi implies
                crate::convolution::col_line(buf_seg_entry, st, chi, hi, xx, ll)[yy]
                    == crate::convolution::col_line(old(buf)@, st, chi, hi, xx, ll)[yy] by {
                let j = pix_index(st, chi, yy, xx, ll);
                crate::geometry::lemma_pix_index_in_bounds(
                    wi,
                    hi,
                    chi,
                    st,
                    buf@.len() as int,
                    yy,
                    xx,
                    ll,
                );
                lemma_cols_written_needs_col(
                    j,
                    st,
                    chi,
                    wi,
                    hi,
                    0,
                    crate::convolution::seg_done(wi, count as int, i as int),
                    yy,
                    xx,
                    ll,
                );
                assert(j == xx * chi + ll + yy * st);
            }
        }
        fg_vertical_segment(
            buf,
            stride,
            width,
            height,
            ch,
            radius,
            sx as usize,
            ex as usize,
        );
        proof {
            lemma_merge_cols(buf_seg_entry, buf@, old(buf)@, st, chi, hi, sx as int, ex as int);
            assert(crate::convolution::seg_done(wi, count as int, i as int) == sx as int);
            assert(crate::convolution::seg_done(wi, count as int, i as int + 1) == ex as int);
            assert forall|y: int, x: int, l: int|
                0 <= y < height && 0 <= x < ex as int && 0 <= l < ch implies buf@[
                    #[trigger] pix_index(st, chi, y, x, l)
                ] as int == fg_v_out(old(buf)@, st, chi, hi, r, y, x, l) by {
                crate::geometry::lemma_pix_index_in_bounds(
                    wi,
                    hi,
                    chi,
                    st,
                    buf@.len() as int,
                    y,
                    x,
                    l,
                );
                if x < sx as int {
                    lemma_cols_written_needs_col(
                        pix_index(st, chi, y, x, l),
                        st,
                        chi,
                        wi,
                        hi,
                        sx as int,
                        ex as int,
                        y,
                        x,
                        l,
                    );
                } else {
                    assert(crate::convolution::col_line(buf_seg_entry, st, chi, hi, x, l)
                        =~= crate::convolution::col_line(old(buf)@, st, chi, hi, x, l));
                }
            }
        }
        i = i + 1;
    }
    proof {
        assert(crate::convolution::seg_done(wi, count as int, count as int) == wi);
    }
}

/// Horizontal pass over every row, split into `count` contiguous row
/// segments that tile the height.
fn fg_pass_h(
    buf: &mut Vec<u8>,
    stride: usize,
    width: usize,
    height: usize,
    ch: usize,
    radius: u32,
    count: u32,
)
    requires
        1 <= radius <= 256,
        1 <= width <= 0xffff_ffff,
        1 <= height <= 0xffff_ffff,
        1 <= ch,
        stride >= width * ch,
        old(buf)@.len() >= (height - 1) * stride + width * ch,
        1 <= count,
    ensures
        final(buf)@.len() == old(buf)@.len(),
        forall|y: int, x: int, l: int|
            0 <= y < height && 0 <= x < width && 0 <= l < ch ==> final(buf)@[
                #[trigger] pix_index(stride as int, ch as int, y, x, l)
            ] as int == fg_line_out(
                crate::convolution::row_line(old(buf)@, stride as int, ch as int, width as int, y, l),
                radius as int,
                x,
            ),
        forall|i: int|
            0 <= i < old(buf)@.len() && !crate::convolution::rows_written(
                i,
                stride as int,
                ch as int,
                width as int,
                0,
                height as int,
            ) ==> final(buf)@[i] == old(buf)@[i],
{
    let ghost st = stride as int;
    let ghost chi = ch as int;
    let ghost wi = width as int;
    let ghost hi = height as int;
    let ghost r = radius as int;
    let mut i: u32 = 0;
    proof {
        crate::scheduler::lemma_segments_chain(hi, count as int, 0);
    }
    while i < count
        invariant
            1 <= radius <= 256,
            1 <= width <= 0xffff_ffff,
            1 <= height <= 0xffff_ffff,
            1 <= ch,
            stride >= width * ch,
            buf@.len() >= (height - 1) * stride + width * ch,
            buf@.len() == old(buf)@.len(),
            1 <= count,
            0 <= i <= count,
            st == stride as int,
            chi == ch as int,
            wi == width as int,
            hi == height as int,
            r == radius as int,
            forall|y: int, x: int, l: int|
                0 <= y < crate::convolution::seg_done(hi, count as int, i as int) && 0 <= x < width
                    && 0 <= l < ch ==> buf@[#[trigger] pix_index(st, chi, y, x, l)] as int
                    == fg_line_out(
                    crate::convolution::row_line(old(buf)@, st, chi, wi, y, l),
                    r,
                    x,
                ),
            forall|j: int|
                0 <= j < buf@.len() && !crate::convolution::rows_written(
                    j,
                    st,
                    chi,
                    wi,
                    0,
                    crate::convolution::seg_done(hi, count as int, i as int),
                ) ==> buf@[j] == old(buf)@[j],
        decreases count - i,
    {
        proof {
            crate::scheduler::lemma_segment_bounds(hi, count as int, i as int);
            crate::scheduler::lemma_segments_chain(hi, count as int, i as int);
        }
        let (sy, ey) = crate::scheduler::segment_range(height as u32, count, i);
        let ghost buf_seg_entry = buf@;
        proof {
            // rows of this segment still hold what the pass started with
            assert forall|yy: int, x: int, ll: int|
                sy as int <= yy < ey as int && 0 <= x < wi && 0 <= ll < chi implies
                crate::convolution::row_line(buf_seg_entry, st, chi, wi, yy, ll)[x]
                    == crate::convolution::row_line(old(buf)@, st, chi, wi, yy, ll)[x] by {
                let j = pix_index(st, chi, yy, x, ll);
                crate::geometry::lemma_pix_index_in_bounds(
                    wi,
                    hi,
                    chi,
                    st,
                    buf@.len() as int,
                    yy,
                    x,
                    ll,
                );
                crate::convolution::lemma_rows_written_needs_row(
                    j,
                    st,
                    chi,
                    wi,
                    hi,
                    0,
                    crate::convolution::seg_done(hi, count as int, i as int),
                    yy,
                    x,
                    ll,
                );
                assert(j == yy * st + ll + x * chi);
            }
        }
        fg_horizontal_segment(
            buf,
            stride,
            width,
            height,
            ch,
            radius,
            sy as usize,
            ey as usize,
        );
        proof {
            crate::convolution::lemma_merge_rows(
                buf_seg_entry,
                buf@,
                old(buf)@,
                st,
                chi,
                wi,
                hi,
                sy as int,
                ey as int,
            );
            assert(crate::convolution::seg_done(hi, count as int, i as int) == sy as int);
            assert(crate::convolution::seg_done(hi, count as int, i as int + 1) == ey as int);
            assert forall|y: int, x: int, l: int|
                0 <= y < ey as int && 0 <= x < width && 0 <= l < ch implies buf@[
                    #[trigger] pix_index(st, chi, y, x, l)
                ] as int == fg_line_out(
                    crate::convolution::row_line(old(buf)@, st, chi, wi, y, l),
                    r,
                    x,
                ) by {
                crate::geometry::lemma_pix_index_in_bounds(
                    wi,
                    hi,
                    chi,
                    st,
                    buf@.len() as int,
                    y,
                    x,
                    l,
                );
                if y < sy as int {
                    crate::convolution::lemma_rows_written_needs_row(
                        pix_index(st, chi, y, x, l),
                        st,
                        chi,
                        wi,
                        hi,
                        sy as int,
                        ey as int,
                        y,
                        x,
                        l,
                    );
                } else {
                    assert(crate::convolution::row_line(buf_seg_entry, st, chi, wi, y, l)
                        =~= crate::convolution::row_line(old(buf)@, st, chi, wi, y, l));
                }
            }
        }
        i = i + 1;
    }
    proof {
        assert(crate::convolution::seg_done(hi, count as int, count as int) == hi);
    }
}

/// The radius the engine actually runs with: the requested one, silently
/// clamped to the supported cap.
pub open spec fn eff_radius(radius: int) -> int {
    if radius > 256 {
        256
    } else {
        radius
    }
}

/// O(1)-per-pixel approximate Gaussian blur of an eight-bit interleaved
/// buffer, in place: a vertical pass of the cascaded-integrator
/// recurrence over every column, a barrier, then a horizontal pass over
/// every row.  Radii above the cap are silently clamped; radius zero is
/// the degenerate no-op that leaves the buffer untouched.  The threading
/// policy only chooses how each pass's extent is partitioned into
/// segments; the result does not depend on it.
pub fn fast_gaussian_superior(
    bytes: &mut Vec<u8>,
    stride: u32,
    width: u32,
    height: u32,
    radius: u32,
    channels: FastBlurChannels,
    threading_policy: ThreadingPolicy,
)
    requires
        1 <= width,
        1 <= height,
        stride as int >= width as int * channels.count(),
        old(bytes)@.len() >= (height as int - 1) * stride as int + width as int
            * channels.count(),
    ensures
        final(bytes)@.len() == old(bytes)@.len(),
        radius == 0 ==> final(bytes)@ == old(bytes)@,
        radius >= 1 ==> forall|y: int, x: int, l: int|
            0 <= y < height && 0 <= x < width && 0 <= l < channels.count() ==> final(bytes)@[
                #[trigger] pix_index(stride as int, channels.count(), y, x, l)
            ] as int == fast_gaussian_out(
                old(bytes)@,
                stride as int,
                channels.count(),
                width as int,
                height as int,
                eff_radius(radius as int),
                y,
                x,
                l,
            ),
        radius >= 1 ==> forall|i: int|
            0 <= i < old(bytes)@.len() && !crate::convolution::rows_written(
                i,
                stride as int,
                channels.count(),
                width as int,
                0,
                height as int,
            ) ==> final(bytes)@[i] == old(bytes)@[i],
{
    if radius == 0 {
        return ;
    }
    let acq_radius: u32 = if radius > MAX_RADIUS {
        MAX_RADIUS
    } else {
        radius
    };
    let ch: usize = channels.get_channels();
    let w: usize = width as usize;
    let h: usize = height as usize;
    let st: usize = stride as usize;
    let count: u32 = threading_policy.get_threads_count(width, height);
    let ghost orig = bytes@;
    let ghost chi = ch as int;
    let ghost wi = w as int;
    let ghost hi = h as int;
    let ghost r = acq_radius as int;
    fg_pass_v(bytes, st, w, h, ch, acq_radius, count);
    let ghost mid = bytes@;
    fg_pass_h(bytes, st, w, h, ch, acq_radius, count);
    proof {
        assert forall|y: int, x: int, l: int|
            0 <= y < height && 0 <= x < width && 0 <= l < chi implies bytes@[
            #[trigger] pix_index(st as int, chi, y, x, l)
        ] as int == fast_gaussian_out(orig, st as int, chi, wi, hi, r, y, x, l) by {
            assert(crate::convolution::row_line(mid, st as int, chi, wi, y, l)
                =~= fg_row_after_v(orig, st as int, chi, wi, hi, r, y, l)) by {
                assert forall|xx: int|
                    0 <= xx < wi implies crate::convolution::row_line(
                    mid,
                    st as int,
                    chi,
                    wi,
                    y,
                    l,
                )[xx] == fg_v_out(orig, st as int, chi, hi, r, y, xx, l) by {
                    assert(mid[#[trigger] pix_index(st as int, chi, y, xx, l)] as int
                        == fg_v_out(orig, st as int, chi, hi, r, y, xx, l));
                    assert(pix_index(st as int, chi, y, xx, l) == y * st as int + l + xx * chi);
                }
            }
        }
        assert forall|i: int|
            0 <= i < orig.len() && !crate::convolution::rows_written(
                i,
                st as int,
                chi,
                wi,
                0,
                hi,
            ) implies bytes@[i] == orig[i] by {
            lemma_pixels_written_forms(i, st as int, chi, wi, hi);
        }
    }
}

/// On a constant line the cumulative sums are binomial polynomials in
/// the number of steps taken.
proof fn lemma_fg_c_const(line: Seq<int>, r: int, c: int, p: int)
    requires
        r >= 1,
        line.len() >= 1,
        forall|t: int| 0 <= t < line.len() ==> line[t] == c,
        p >= -4 * r - 1,
    ensures
        fg_c1(line, r, p) == c * (p + 4 * r + 1),
        2 * fg_c2(line, r, p) == c * (p + 4 * r + 1) * (p + 4 * r + 2),
        6 * fg_c3(line, r, p) == c * (p + 4 * r + 1) * (p + 4 * r + 2) * (p + 4 * r + 3),
        24 * fg_c4(line, r, p) == c * (p + 4 * r + 1) * (p + 4 * r + 2) * (p + 4 * r + 3) * (p
            + 4 * r + 4),
    decreases p + 4 * r + 1,
{
    let m = p + 4 * r + 1;
    if p == -4 * r - 1 {
        assert(fg_c1(line, r, p) == 0);
        assert(fg_c2(line, r, p) == 0);
        assert(fg_c3(line, r, p) == 0);
        assert(fg_c4(line, r, p) == 0);
        assert(c * 0 == 0) by (nonlinear_arith);
        assert(c * 0 * 1 == 0) by (nonlinear_arith);
        assert(c * 0 * 1 * 2 == 0) by (nonlinear_arith);
        assert(c * 0 * 1 * 2 * 3 == 0) by (nonlinear_arith);
    } else {
        lemma_fg_c_const(line, r, c, p - 1);
        assert(0 <= crate::convolution::clampi(p + 2 * r - 1, 0, line.len() - 1) < line.len());
        assert(fg_read(line, r, p) == c);
        assert(fg_c1(line, r, p) == fg_c1(line, r, p - 1) + c);
        assert(c * (m - 1) + c == c * m) by (nonlinear_arith);
        assert(fg_c2(line, r, p) == fg_c2(line, r, p - 1) + fg_c1(line, r, p));
        assert(c * (m - 1) * m + 2 * (c * m) == c * m * (m + 1)) by (nonlinear_arith);
        assert(fg_c3(line, r, p) == fg_c3(line, r, p - 1) + fg_c2(line, r, p));
        assert(c * (m - 1) * m * (m + 1) + 3 * (c * m * (m + 1)) == c * m * (m + 1) * (m + 2))
            by (nonlinear_arith);
        assert(fg_c4(line, r, p) == fg_c4(line, r, p - 1) + fg_c3(line, r, p));
        assert(c * (m - 1) * m * (m + 1) * (m + 2) + 4 * (c * m * (m + 1) * (m + 2)) == c * m * (
        m + 1) * (m + 2) * (m + 3)) by (nonlinear_arith);
    }
}


/// Pulling the first factor out of a five-way product.
proof fn lemma_mul_reassoc5(a: int, b: int, d: int, e: int, f: int)
    ensures
        a * b * d * e * f == a * (b * d * e * f),
{
    assert(a * b * d * e * f == a * (b * d * e * f)) by (nonlinear_arith);
}

/// Distributing a common factor over the window combination.
proof fn lemma_distribute5(a: int, x1: int, x2: int, x3: int, x4: int)
    ensures
        a * x1 - 4 * (a * x2) + 6 * (a * x3) - 4 * (a * x4) == a * (x1 - 4 * x2 + 6 * x3 - 4
            * x4),
{
    assert(a * x1 - 4 * (a * x2) + 6 * (a * x3) - 4 * (a * x4) == a * (x1 - 4 * x2 + 6 * x3 - 4
        * x4)) by (nonlinear_arith);
}

/// On a constant line the integrator cascade reaches its steady state
/// by the first output step: the three upper integrators vanish and the
/// window sum holds exactly `r^4` times the constant.
proof fn lemma_fg_const_steady(line: Seq<int>, r: int, c: int, p: int)
    requires
        r >= 1,
        line.len() >= 1,
        forall|t: int| 0 <= t < line.len() ==> line[t] == c,
        p >= -1,
    ensures
        fg_dif(line, r, p) == 0,
        fg_der2(line, r, p) == 0,
        fg_der1(line, r, p) == 0,
        fg_sum(line, r, p) == c * (r * r * r * r),
    decreases p + 1,
{
    if p == -1 {
        lemma_fg_c_const(line, r, c, p);
        lemma_fg_c_const(line, r, c, p - r);
        lemma_fg_c_const(line, r, c, p - 2 * r);
        lemma_fg_c_const(line, r, c, p - 3 * r);
        lemma_fg_c_const(line, r, c, p - 4 * r);
        assert(fg_dif(line, r, p) == 0) by {
            assert(c * (4 * r) - 4 * (c * (3 * r)) + 6 * (c * (2 * r)) - 4 * (c * r) + c * 0
                == 0) by (nonlinear_arith);
        }
        assert(2 * fg_der2(line, r, p) == 0) by {
            assert(c * (4 * r) * (4 * r + 1) - 4 * (c * (3 * r) * (3 * r + 1)) + 6 * (c * (2 * r)
                * (2 * r + 1)) - 4 * (c * r * (r + 1)) + c * 0 * 1 == 0) by (nonlinear_arith);
        }
        assert(6 * fg_der1(line, r, p) == 0) by {
            assert(c * (4 * r) * (4 * r + 1) * (4 * r + 2) - 4 * (c * (3 * r) * (3 * r + 1) * (3
                * r + 2)) + 6 * (c * (2 * r) * (2 * r + 1) * (2 * r + 2)) - 4 * (c * r * (r + 1)
                * (r + 2)) + c * 0 * 1 * 2 == 0) by (nonlinear_arith);
        }
        let x1 = (4 * r) * (4 * r + 1) * (4 * r + 2) * (4 * r + 3);
        let x2 = (3 * r) * (3 * r + 1) * (3 * r + 2) * (3 * r + 3);
        let x3 = (2 * r) * (2 * r + 1) * (2 * r + 2) * (2 * r + 3);
        let x4 = r * (r + 1) * (r + 2) * (r + 3);
        lemma_mul_reassoc5(c, 4 * r, 4 * r + 1, 4 * r + 2, 4 * r + 3);
        lemma_mul_reassoc5(c, 3 * r, 3 * r + 1, 3 * r + 2, 3 * r + 3);
        lemma_mul_reassoc5(c, 2 * r, 2 * r + 1, 2 * r + 2, 2 * r + 3);
        lemma_mul_reassoc5(c, r, r + 1, r + 2, r + 3);
        assert((4 * r) * (4 * r + 1) * (4 * r + 2) * (4 * r + 3) == 256 * (r * r * r * r) + 384
            * (r * r * r) + 176 * (r * r) + 24 * r) by (nonlinear_arith);
        assert((3 * r) * (3 * r + 1) * (3 * r + 2) * (3 * r + 3) == 81 * (r * r * r * r) + 162
            * (r * r * r) + 99 * (r * r) + 18 * r) by (nonlinear_arith);
        assert((2 * r) * (2 * r + 1) * (2 * r + 2) * (2 * r + 3) == 16 * (r * r * r * r) + 48 * (
        r * r * r) + 44 * (r * r) + 12 * r) by (nonlinear_arith);
        assert(r * (r + 1) * (r + 2) * (r + 3) == r * r * r * r + 6 * (r * r * r) + 11 * (r * r)
            + 6 * r) by (nonlinear_arith);
        assert(x1 - 4 * x2 + 6 * x3 - 4 * x4 == 24 * (r * r * r * r));
        lemma_distribute5(c, x1, x2, x3, x4);
        assert(c * 0 * 1 * 2 * 3 == 0) by (nonlinear_arith);
        assert(24 * fg_sum(line, r, p) == c * (24 * (r * r * r * r)));
        assert(c * (24 * (r * r * r * r)) == 24 * (c * (r * r * r * r))) by (nonlinear_arith);
    } else {
        lemma_fg_const_steady(line, r, c, p - 1);
        crate::recurrence::lemma_fg_state_step(line, r, p);
        assert(0 <= crate::convolution::clampi(p + 2 * r - 1, 0, line.len() - 1) < line.len());
        assert(fg_read(line, r, p) == c);
        assert(0 <= crate::convolution::clampi(p - r + 2 * r - 1, 0, line.len() - 1)
            < line.len());
        assert(fg_read(line, r, p - r) == c);
        assert(0 <= crate::convolution::clampi(p - 2 * r + 2 * r - 1, 0, line.len() - 1)
            < line.len());
        assert(fg_read(line, r, p - 2 * r) == c);
        assert(0 <= crate::convolution::clampi(p - 3 * r + 2 * r - 1, 0, line.len() - 1)
            < line.len());
        assert(fg_read(line, r, p - 3 * r) == c);
        assert(0 <= crate::convolution::clampi(p - 4 * r + 2 * r - 1, 0, line.len() - 1)
            < line.len());
        assert(fg_read(line, r, p - 4 * r) == c);
    }
}

/// Blurring any position of a constant scanline gives the constant back:
/// on a flat line the box-spline window sums to exactly `r^4` times the
/// constant.
pub proof fn lemma_fg_const_line(line: Seq<int>, r: int, c: int, p: int)
    requires
        r >= 1,
        line.len() >= 1,
        forall|t: int| 0 <= t < line.len() ==> line[t] == c,
        0 <= p < line.len(),
    ensures
        fg_line_out(line, r, p) == c,
{
    lemma_fg_const_steady(line, r, c, p - 1);
    assert(r * r * r * r >= 1) by (nonlinear_arith)
        requires
            r >= 1,
    ;
    let r4 = r * r * r * r;
    vstd::arithmetic::div_mod::lemma_div_multiples_vanish(c, r4);
    assert(r4 * c == c * r4) by (nonlinear_arith);
}

/// Blurring a lane that holds one constant over the whole image leaves
/// every sample of that lane unchanged, for any radius and channel
/// layout: the flat-image invariant of the approximate engine.
pub proof fn lemma_fast_gaussian_flat(
    s: Seq<u8>,
    stride: int,
    ch: int,
    w: int,
    h: int,
    r: int,
    c: int,
    y: int,
    x: int,
    l: int,
)
    requires
        r >= 1,
        w >= 1,
        h >= 1,
        ch >= 1,
        0 <= l < ch,
        0 <= y < h,
        0 <= x < w,
        forall|yy: int, xx: int|
            0 <= yy < h && 0 <= xx < w ==> s[#[trigger] pix_index(stride, ch, yy, xx, l)] as int
                == c,
    ensures
        fast_gaussian_out(s, stride, ch, w, h, r, y, x, l) == c,
{
    assert forall|yy: int, xx: int|
        0 <= yy < h && 0 <= xx < w implies fg_v_out(s, stride, ch, h, r, yy, xx, l) == c by {
        let colv = crate::convolution::col_line(s, stride, ch, h, xx, l);
        assert forall|t: int| 0 <= t < colv.len() implies colv[t] == c by {
            assert(s[#[trigger] pix_index(stride, ch, t, xx, l)] as int == c);
            assert(pix_index(stride, ch, t, xx, l) == xx * ch + l + t * stride);
        }
        lemma_fg_const_line(colv, r, c, yy);
    }
    let rowv = fg_row_after_v(s, stride, ch, w, h, r, y, l);
    assert forall|t: int| 0 <= t < rowv.len() implies rowv[t] == c by {
        assert(fg_v_out(s, stride, ch, h, r, y, t, l) == c);
    }
    lemma_fg_const_line(rowv, r, c, x);
}

/// Two buffers that both satisfy the approximate blur contract for the
/// same source, geometry, radius and prior contents are byte-identical.
/// The contract never mentions the threading policy, so this covers both
/// determinism of repeated runs and the agreement of `Single` and
/// `Adaptive` scheduling.
pub proof fn lemma_fast_gaussian_contract_unique(
    d1: Seq<u8>,
    d2: Seq<u8>,
    orig: Seq<u8>,
    stride: int,
    ch: int,
    w: int,
    h: int,
    r: int,
)
    requires
        d1.len() == orig.len(),
        d2.len() == orig.len(),
        w >= 1,
        h >= 1,
        ch >= 1,
        stride >= w * ch,
        orig.len() >= (h - 1) * stride + w * ch,
        forall|y: int, x: int, l: int|
            0 <= y < h && 0 <= x < w && 0 <= l < ch ==> d1[
                #[trigger] pix_index(stride, ch, y, x, l)
            ] as int == fast_gaussian_out(orig, stride, ch, w, h, r, y, x, l),
        forall|y: int, x: int, l: int|
            0 <= y < h && 0 <= x < w && 0 <= l < ch ==> d2[
                #[trigger] pix_index(stride, ch, y, x, l)
            ] as int == fast_gaussian_out(orig, stride, ch, w, h, r, y, x, l),
        forall|i: int|
            0 <= i < orig.len() && !crate::convolution::rows_written(i, stride, ch, w, 0, h)
                ==> d1[i] == orig[i],
        forall|i: int|
            0 <= i < orig.len() && !crate::convolution::rows_written(i, stride, ch, w, 0, h)
                ==> d2[i] == orig[i],
    ensures
        d1 == d2,
{
    assert forall|i: int| 0 <= i < d1.len() implies d1[i] == d2[i] by {
        if crate::convolution::rows_written(i, stride, ch, w, 0, h) {
            let (y, x, l) = choose|y: int, x: int, l: int|
                0 <= y < h && 0 <= x < w && 0 <= l < ch && i == #[trigger] pix_index(
                    stride,
                    ch,
                    y,
                    x,
                    l,
                );
            assert(d1[i] as int == fast_gaussian_out(orig, stride, ch, w, h, r, y, x, l));
            assert(d2[i] as int == fast_gaussian_out(orig, stride, ch, w, h, r, y, x, l));
        }
    }
    assert(d1 =~= d2);
}

/// A one-pixel image comes back unchanged from the approximate blur,
/// whatever the radius: every read of the cursor is the pixel itself.
pub proof fn lemma_fast_gaussian_one_pixel(
    s: Seq<u8>,
    stride: int,
    ch: int,
    r: int,
    l: int,
)
    requires
        r >= 1,
        ch >= 1,
        0 <= l < ch,
        0 <= l < s.len(),
    ensures
        fast_gaussian_out(s, stride, ch, 1, 1, r, 0, 0, l) == s[l] as int,
{
    assert(pix_index(stride, ch, 0, 0, l) == l);
    lemma_fast_gaussian_flat(s, stride, ch, 1, 1, r, s[l] as int, 0, 0, l);
}

} // verus!
