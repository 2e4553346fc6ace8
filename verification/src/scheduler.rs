use vstd::prelude::*;

verus! {

/// First index of segment `i` when an extent is split into `count`
/// contiguous segments by integer division.
pub open spec fn segment_start_spec(extent: int, count: int, i: int) -> int {
    i * (extent / count)
}

/// One-past-last index of segment `i`; the last segment absorbs the
/// division remainder.
pub open spec fn segment_end_spec(extent: int, count: int, i: int) -> int {
    if i == count - 1 {
        extent
    } else {
        (i + 1) * (extent / count)
    }
}

/// Bounds of segment `i` of `extent` split into `count` parts.  The
/// segments are contiguous, ordered and they tile `[0, extent)` exactly,
/// which is what makes one-pass concurrent writes to distinct segments
/// safe.
pub fn segment_range(extent: u32, count: u32, i: u32) -> (r: (u32, u32))
    requires
        1 <= count,
        i < count,
    ensures
        r.0 as int == segment_start_spec(extent as int, count as int, i as int),
        r.1 as int == segment_end_spec(extent as int, count as int, i as int),
        r.0 <= r.1 <= extent,
{
    let seg: u32 = extent / count;
    proof {
        lemma_segment_bounds(extent as int, count as int, i as int);
    }
    let start: u32 = i * seg;
    let end: u32 = if i == count - 1 {
        extent
    } else {
        (i + 1) * seg
    };
    (start, end)
}

/// Each segment sits inside `[0, extent)` and its start does not pass its
/// end.
pub proof fn lemma_segment_bounds(extent: int, count: int, i: int)
    requires
        0 <= extent,
        1 <= count,
        0 <= i < count,
    ensures
        0 <= segment_start_spec(extent, count, i),
        segment_start_spec(extent, count, i) <= segment_end_spec(extent, count, i),
        segment_end_spec(extent, count, i) <= extent,
    {
    let seg = extent / count;
    vstd::arithmetic::div_mod::lemma_div_pos_is_pos(extent, count);
    assert(0 <= i * seg && i * seg <= (i + 1) * seg && (i + 1) * seg <= count * seg)
        by (nonlinear_arith)
        requires
            0 <= i < count,
            seg >= 0,
    ;
    assert(count * seg <= extent) by {
        vstd::arithmetic::div_mod::lemma_fundamental_div_mod(extent, count);
        vstd::arithmetic::div_mod::lemma_mod_bound(extent, count);
    }
    if i < count - 1 {
        assert(segment_end_spec(extent, count, i) == (i + 1) * seg);
    } else {
        assert(i * seg <= count * seg);
    }
}

/// Consecutive segments meet exactly: the end of one is the start of the
/// next, the first starts at zero and the last ends at the extent.  With
/// `lemma_segments_disjoint` this says the segments tile `[0, extent)`.
pub proof fn lemma_segments_chain(extent: int, count: int, i: int)
    requires
        1 <= count,
        0 <= i < count,
    ensures
        segment_start_spec(extent, count, 0) == 0,
        i < count - 1 ==> segment_end_spec(extent, count, i)
            == segment_start_spec(extent, count, i + 1),
        segment_end_spec(extent, count, count - 1) == extent,
{
}

/// Segments with distinct indices never overlap: the earlier one ends at
/// or before the point where the later one starts.  This is the
/// disjoint-region contract under which the per-segment workers of one
/// pass may all write the shared buffer.
pub proof fn lemma_segments_disjoint(extent: int, count: int, i: int, j: int)
    requires
        0 <= extent,
        1 <= count,
        0 <= i < j < count,
    ensures
        segment_end_spec(extent, count, i) <= segment_start_spec(extent, count, j),
{
    let seg = extent / count;
    vstd::arithmetic::div_mod::lemma_div_pos_is_pos(extent, count);
    assert((i + 1) * seg <= j * seg) by (nonlinear_arith)
        requires
            i + 1 <= j,
            seg >= 0,
    ;
}

} // verus!
