use vstd::prelude::*;

verus! {

/// Maps an image size to a worker count.  `Single` always answers one
/// worker; `Adaptive` derives the count from the pixel count, capped at
/// twelve.  Both engines partition their iterated extent into that many
/// contiguous segments, so the policy never changes what is computed,
/// only how the work is split.
#[derive(Debug, Copy, Clone, PartialEq, Eq, Structural)]
pub enum ThreadingPolicy {
    Single,
    Adaptive,
}

/// Worker count that a policy assigns to a `width` by `height` image:
/// one for `Single`, and `width * height / 65536` clamped to `[1, 12]`
/// for `Adaptive`.
pub open spec fn threads_count_spec(p: ThreadingPolicy, width: int, height: int) -> int {
    match p {
        ThreadingPolicy::Single => 1,
        ThreadingPolicy::Adaptive => {
            let t = width * height / 65536;
            if t < 1 {
                1
            } else if t > 12 {
                12
            } else {
                t
            }
        },
    }
}

impl ThreadingPolicy {
    /// Deterministic worker count for the given image size, always at
    /// least one and at most twelve.
    pub fn get_threads_count(&self, width: u32, height: u32) -> (r: u32)
        ensures
            r as int == threads_count_spec(*self, width as int, height as int),
            1 <= r <= 12,
    {
        match self {
            ThreadingPolicy::Single => 1,
            ThreadingPolicy::Adaptive => {
                let w64: u64 = width as u64;
                let h64: u64 = height as u64;
                proof {
                    assert(w64 * h64 <= 0xffff_ffff * 0xffff_ffff) by (nonlinear_arith)
                        requires
                            w64 <= 0xffff_ffff,
                            h64 <= 0xffff_ffff,
                    ;
                }
                let pixels: u64 = w64 * h64;
                let t: u64 = pixels / 65536;
                if t < 1 {
                    1
                } else if t > 12 {
                    12
                } else {
                    t as u32
                }
            },
        }
    }
}

} // verus!
