use vstd::prelude::*;

verus! {

/// Flat position of lane `l` of pixel `(x, y)` in a buffer whose rows are
/// `stride` samples apart and whose pixels are `ch` samples wide.
pub open spec fn pix_index(stride: int, ch: int, y: int, x: int, l: int) -> int {
    y * stride + x * ch + l
}

/// The coordinates lie inside a `w` by `h` image with `ch` lanes.
pub open spec fn valid_pix(w: int, h: int, ch: int, y: int, x: int, l: int) -> bool {
    0 <= y < h && 0 <= x < w && 0 <= l < ch
}

/// Flat position of sample `k` of the arithmetic scanline that starts at
/// `base` and advances by `step`.
pub open spec fn line_pt(base: int, step: int, k: int) -> int {
    base + k * step
}

/// Position `i` is one of the `n` samples of the arithmetic scanline that
/// starts at `base` and advances by `step`.
pub open spec fn on_line(i: int, base: int, step: int, n: int) -> bool {
    exists|k: int| 0 <= k < n && i == #[trigger] line_pt(base, step, k)
}

/// Two decompositions `a1 * s + r1 == a2 * s + r2` with residues below `s`
/// agree on both parts.
pub proof fn lemma_split_unique(a1: int, r1: int, a2: int, r2: int, s: int)
    requires
        s >= 1,
        0 <= r1 < s,
        0 <= r2 < s,
        a1 * s + r1 == a2 * s + r2,
    ensures
        a1 == a2,
        r1 == r2,
{
    assert(a1 == a2 && r1 == r2) by (nonlinear_arith)
        requires
            s >= 1,
            0 <= r1 < s,
            0 <= r2 < s,
            a1 * s + r1 == a2 * s + r2,
    ;
}

/// The in-row offset of a valid pixel is below the stride.
pub proof fn lemma_offset_below_stride(w: int, ch: int, stride: int, x: int, l: int)
    requires
        0 <= x < w,
        0 <= l < ch,
        stride >= w * ch,
    ensures
        0 <= x * ch + l < stride,
    {
    assert(0 <= x * ch + l && x * ch + l < w * ch) by (nonlinear_arith)
        requires
            0 <= x < w,
            0 <= l < ch,
    ;
}

/// Distinct valid pixel coordinates occupy distinct flat positions.
pub proof fn lemma_pix_index_injective(
    w: int, h: int, ch: int, stride: int,
    y1: int, x1: int, l1: int,
    y2: int, x2: int, l2: int,
)
    requires
        stride >= w * ch,
        ch >= 1,
        valid_pix(w, h, ch, y1, x1, l1),
        valid_pix(w, h, ch, y2, x2, l2),
        !(y1 == y2 && x1 == x2 && l1 == l2),
    ensures
        pix_index(stride, ch, y1, x1, l1) != pix_index(stride, ch, y2, x2, l2),
{
    lemma_offset_below_stride(w, ch, stride, x1, l1);
    lemma_offset_below_stride(w, ch, stride, x2, l2);
    if pix_index(stride, ch, y1, x1, l1) == pix_index(stride, ch, y2, x2, l2) {
        lemma_split_unique(y1, x1 * ch + l1, y2, x2 * ch + l2, stride);
        lemma_split_unique(x1, l1, x2, l2, ch);
    }
}

/// Every flat position of a valid pixel lies inside a buffer that holds
/// the image: rows are `stride` apart and the last row still holds
/// `w * ch` samples.
pub proof fn lemma_pix_index_in_bounds(
    w: int, h: int, ch: int, stride: int, len: int,
    y: int, x: int, l: int,
)
    requires
        stride >= w * ch,
        valid_pix(w, h, ch, y, x, l),
        len >= (h - 1) * stride + w * ch,
    ensures
        0 <= pix_index(stride, ch, y, x, l) < len,
{
    lemma_offset_below_stride(w, ch, stride, x, l);
    assert(y * stride <= (h - 1) * stride) by (nonlinear_arith)
        requires
            0 <= y <= h - 1,
            stride >= 0,
    ;
    assert(0 <= y * stride) by (nonlinear_arith)
        requires
            0 <= y,
            stride >= 0,
    ;
    assert(x * ch + l < w * ch) by (nonlinear_arith)
        requires
            0 <= x < w,
            0 <= l < ch,
    ;
}

/// A pixel of another column (or another lane) never lies on the given
/// column scanline.
pub proof fn lemma_column_line_misses(
    w: int, h: int, ch: int, stride: int,
    x0: int, l0: int,
    y: int, x: int, l: int,
)
    requires
        stride >= w * ch,
        ch >= 1,
        0 <= x0 < w,
        0 <= l0 < ch,
        valid_pix(w, h, ch, y, x, l),
        !(x == x0 && l == l0),
    ensures
        !on_line(pix_index(stride, ch, y, x, l), x0 * ch + l0, stride, h),
{
    lemma_offset_below_stride(w, ch, stride, x, l);
    lemma_offset_below_stride(w, ch, stride, x0, l0);
    assert forall|k: int| 0 <= k < h implies
        pix_index(stride, ch, y, x, l) != #[trigger] line_pt(x0 * ch + l0, stride, k)
    by {
        if pix_index(stride, ch, y, x, l) == line_pt(x0 * ch + l0, stride, k) {
            lemma_split_unique(y, x * ch + l, k, x0 * ch + l0, stride);
            lemma_split_unique(x, l, x0, l0, ch);
        }
    }
}

/// A pixel of another row (or another lane) never lies on the given row
/// scanline.
pub proof fn lemma_row_line_misses(
    w: int, h: int, ch: int, stride: int,
    y0: int, l0: int,
    y: int, x: int, l: int,
)
    requires
        stride >= w * ch,
        ch >= 1,
        0 <= y0 < h,
        0 <= l0 < ch,
        valid_pix(w, h, ch, y, x, l),
        !(y == y0 && l == l0),
    ensures
        !on_line(pix_index(stride, ch, y, x, l), y0 * stride + l0, ch, w),
{
    lemma_offset_below_stride(w, ch, stride, x, l);
    assert forall|k: int| 0 <= k < w implies
        pix_index(stride, ch, y, x, l) != #[trigger] line_pt(y0 * stride + l0, ch, k)
    by {
        if pix_index(stride, ch, y, x, l) == line_pt(y0 * stride + l0, ch, k) {
            lemma_offset_below_stride(w, ch, stride, k, l0);
            lemma_split_unique(y, x * ch + l, y0, k * ch + l0, stride);
            lemma_split_unique(x, l, k, l0, ch);
        }
    }
}

} // verus!
