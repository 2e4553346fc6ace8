use libblur::{
    fast_gaussian_superior, gaussian_blur, get_gaussian_kernel_1d, BlurError, ClaheGridSize,
    EdgeMode, FastBlurChannels, ThreadingPolicy,
};

fn flat_image(width: usize, height: usize, stride: usize, ch: usize, value: u8, pad: u8) -> Vec<u8> {
    let mut buf = vec![pad; stride * height];
    for y in 0..height {
        for x in 0..width {
            for l in 0..ch {
                buf[y * stride + x * ch + l] = value;
            }
        }
    }
    buf
}

fn pattern_image(width: usize, height: usize, stride: usize, ch: usize) -> Vec<u8> {
    let mut buf = vec![0u8; stride * height];
    for y in 0..height {
        for x in 0..width {
            for l in 0..ch {
                buf[y * stride + x * ch + l] = ((x * 7 + y * 13 + l * 29) % 256) as u8;
            }
        }
    }
    buf
}

#[test]
fn kernel_weights_sum_to_q16_one() {
    for (size, sigma) in [(3u32, 65536u32), (5, 98304), (7, 32768), (9, 200000), (31, 65536)] {
        let k = get_gaussian_kernel_1d(size, sigma).unwrap();
        assert_eq!(k.len(), size as usize);
        let total: u64 = k.iter().map(|w| *w as u64).sum();
        assert_eq!(total, 65536, "kernel {}x sigma {}", size, sigma);
        for i in 0..k.len() {
            assert_eq!(k[i], k[k.len() - 1 - i]);
            assert!(k[i] <= 65536);
        }
        assert!(k[(size as usize - 1) / 2] >= 1);
    }
}

#[test]
fn kernel_even_size_rejected() {
    assert_eq!(
        get_gaussian_kernel_1d(4, 65536),
        Err(BlurError::KernelSizeMustBeOdd)
    );
    assert_eq!(
        get_gaussian_kernel_1d(0, 65536),
        Err(BlurError::KernelSizeMustBeOdd)
    );
}

#[test]
fn kernel_zero_sigma_rejected() {
    assert_eq!(
        get_gaussian_kernel_1d(3, 0),
        Err(BlurError::SigmaMustBePositive)
    );
}

#[test]
fn kernel_center_dominates() {
    let k = get_gaussian_kernel_1d(5, 65536).unwrap();
    for i in 0..k.len() {
        assert!(k[2] >= k[i]);
    }
    assert!(k[0] < k[1]);
}

#[test]
fn gaussian_blur_even_kernel_is_error_and_writes_nothing() {
    let src = pattern_image(4, 4, 12, 3);
    let mut dst = vec![7u8; 12 * 4];
    let before = dst.clone();
    let r = gaussian_blur(
        &src,
        12,
        &mut dst,
        12,
        4,
        4,
        6,
        65536,
        FastBlurChannels::Channels3,
        EdgeMode::Clamp,
        ThreadingPolicy::Single,
    );
    assert_eq!(r, Err(BlurError::KernelSizeMustBeOdd));
    assert_eq!(dst, before);
}

#[test]
fn gaussian_blur_flat_image_unchanged() {
    for mode in [EdgeMode::Clamp, EdgeMode::KernelClip] {
        for (ch_enum, ch) in [
            (FastBlurChannels::Channels3, 3usize),
            (FastBlurChannels::Channels4, 4usize),
        ] {
            let stride = 8 * ch + 2;
            let src = flat_image(8, 8, stride, ch, 77, 9);
            let mut dst = vec![9u8; stride * 8];
            gaussian_blur(
                &src,
                stride as u32,
                &mut dst,
                stride as u32,
                8,
                8,
                5,
                98304,
                ch_enum,
                mode,
                ThreadingPolicy::Single,
            )
            .unwrap();
            for y in 0..8 {
                for x in 0..8 {
                    for l in 0..ch {
                        assert_eq!(dst[y * stride + x * ch + l], 77);
                    }
                }
                // row padding is never touched
                for p in 8 * ch..stride {
                    assert_eq!(dst[y * stride + p], 9);
                }
            }
        }
    }
}

#[test]
fn fast_gaussian_flat_image_unchanged() {
    for (ch_enum, ch) in [
        (FastBlurChannels::Channels3, 3usize),
        (FastBlurChannels::Channels4, 4usize),
    ] {
        let stride = 16 * ch;
        let mut buf = flat_image(16, 16, stride, ch, 123, 0);
        let expected = buf.clone();
        fast_gaussian_superior(
            &mut buf,
            stride as u32,
            16,
            16,
            7,
            ch_enum,
            ThreadingPolicy::Single,
        );
        assert_eq!(buf, expected);
    }
}

#[test]
fn single_policy_is_deterministic() {
    let src = pattern_image(32, 24, 100, 3);
    let mut d1 = vec![0u8; 100 * 24];
    let mut d2 = vec![0u8; 100 * 24];
    for d in [&mut d1, &mut d2] {
        gaussian_blur(
            &src,
            100,
            d,
            100,
            32,
            24,
            5,
            65536,
            FastBlurChannels::Channels3,
            EdgeMode::Clamp,
            ThreadingPolicy::Single,
        )
        .unwrap();
    }
    assert_eq!(d1, d2);

    let mut b1 = pattern_image(32, 24, 96, 3);
    let mut b2 = b1.clone();
    for b in [&mut b1, &mut b2] {
        fast_gaussian_superior(b, 96, 32, 24, 5, FastBlurChannels::Channels3, ThreadingPolicy::Single);
    }
    assert_eq!(b1, b2);
}

#[test]
fn adaptive_policy_matches_single_policy() {
    // 512 * 256 pixels put the adaptive policy at two workers
    assert_eq!(
        ThreadingPolicy::Adaptive.get_threads_count(512, 256),
        2
    );
    let src = pattern_image(512, 256, 512 * 3, 3);
    let mut single = vec![0u8; 512 * 3 * 256];
    let mut adaptive = vec![0u8; 512 * 3 * 256];
    gaussian_blur(
        &src,
        512 * 3,
        &mut single,
        512 * 3,
        512,
        256,
        3,
        65536,
        FastBlurChannels::Channels3,
        EdgeMode::Clamp,
        ThreadingPolicy::Single,
    )
    .unwrap();
    gaussian_blur(
        &src,
        512 * 3,
        &mut adaptive,
        512 * 3,
        512,
        256,
        3,
        65536,
        FastBlurChannels::Channels3,
        EdgeMode::Clamp,
        ThreadingPolicy::Adaptive,
    )
    .unwrap();
    assert_eq!(single, adaptive);

    let mut fg_single = pattern_image(512, 256, 512 * 3, 3);
    let mut fg_adaptive = fg_single.clone();
    fast_gaussian_superior(
        &mut fg_single,
        512 * 3,
        512,
        256,
        4,
        FastBlurChannels::Channels3,
        ThreadingPolicy::Single,
    );
    fast_gaussian_superior(
        &mut fg_adaptive,
        512 * 3,
        512,
        256,
        4,
        FastBlurChannels::Channels3,
        ThreadingPolicy::Adaptive,
    );
    assert_eq!(fg_single, fg_adaptive);
}

#[test]
fn one_by_one_image_unchanged_any_radius() {
    let src = vec![41u8, 42, 43];
    let mut dst = vec![0u8; 3];
    gaussian_blur(
        &src,
        3,
        &mut dst,
        3,
        1,
        1,
        9,
        30000,
        FastBlurChannels::Channels3,
        EdgeMode::Clamp,
        ThreadingPolicy::Single,
    )
    .unwrap();
    assert_eq!(dst, src);

    let mut buf = vec![41u8, 42, 43];
    fast_gaussian_superior(&mut buf, 3, 1, 1, 200, FastBlurChannels::Channels3, ThreadingPolicy::Single);
    assert_eq!(buf, vec![41, 42, 43]);
}

#[test]
fn flat_four_lane_scenario_stays_at_100() {
    // 4 x 4, four lanes, stride 16, every sample 100, kernel 3, sigma 1.0
    let src = vec![100u8; 16 * 4];
    let mut dst = vec![0u8; 16 * 4];
    gaussian_blur(
        &src,
        16,
        &mut dst,
        16,
        4,
        4,
        3,
        65536,
        FastBlurChannels::Channels4,
        EdgeMode::Clamp,
        ThreadingPolicy::Single,
    )
    .unwrap();
    assert_eq!(dst, vec![100u8; 16 * 4]);
    // the alpha lane in particular
    for y in 0..4 {
        for x in 0..4 {
            assert_eq!(dst[y * 16 + x * 4 + 3], 100);
        }
    }
}

#[test]
fn fast_gaussian_radius_zero_is_identity() {
    let mut buf = pattern_image(256, 256, 256 * 3, 3);
    let expected = buf.clone();
    fast_gaussian_superior(
        &mut buf,
        256 * 3,
        256,
        256,
        0,
        FastBlurChannels::Channels3,
        ThreadingPolicy::Single,
    );
    assert_eq!(buf, expected);
}

#[test]
fn fast_gaussian_radius_above_cap_is_clamped() {
    let mut capped = pattern_image(8, 8, 24, 3);
    let mut huge = capped.clone();
    fast_gaussian_superior(&mut capped, 24, 8, 8, 256, FastBlurChannels::Channels3, ThreadingPolicy::Single);
    fast_gaussian_superior(&mut huge, 24, 8, 8, 300, FastBlurChannels::Channels3, ThreadingPolicy::Single);
    assert_eq!(capped, huge);
}

#[test]
fn blur_spreads_an_impulse() {
    let mut src = vec![0u8; 5 * 3 * 5];
    src[2 * 15 + 2 * 3] = 255;
    let mut dst = vec![0u8; 5 * 3 * 5];
    gaussian_blur(
        &src,
        15,
        &mut dst,
        15,
        5,
        5,
        3,
        65536,
        FastBlurChannels::Channels3,
        EdgeMode::Clamp,
        ThreadingPolicy::Single,
    )
    .unwrap();
    let center = dst[2 * 15 + 2 * 3];
    let neighbor = dst[2 * 15 + 1 * 3];
    assert!(center < 255);
    assert!(center > 0);
    assert!(neighbor > 0);
    assert!(neighbor < center);
    // the untouched lane stays dark
    assert_eq!(dst[2 * 15 + 2 * 3 + 1], 0);
}

#[test]
fn kernel_clip_brightens_edges_against_dark_padding() {
    // a bright frame-filling image: both modes keep it flat, so compare
    // their treatment of a gradient edge instead
    let mut src = vec![0u8; 4 * 3 * 2];
    for x in 0..4 {
        let v = (x * 60) as u8;
        src[x * 3] = v;
        src[12 + x * 3] = v;
    }
    let mut clamped = vec![0u8; 4 * 3 * 2];
    let mut clipped = vec![0u8; 4 * 3 * 2];
    for (mode, out) in [(EdgeMode::Clamp, &mut clamped), (EdgeMode::KernelClip, &mut clipped)] {
        gaussian_blur(
            &src,
            12,
            out,
            12,
            4,
            2,
            3,
            65536,
            FastBlurChannels::Channels3,
            mode,
            ThreadingPolicy::Single,
        )
        .unwrap();
    }
    // both are deterministic blurs of the same source; interior agrees,
    // and each stays within the sample range
    for v in clamped.iter().chain(clipped.iter()) {
        assert!(*v <= 240);
    }
    assert_eq!(clamped[3], clipped[3]);
}

#[test]
fn threads_count_policy_values() {
    assert_eq!(ThreadingPolicy::Single.get_threads_count(10000, 10000), 1);
    assert_eq!(ThreadingPolicy::Adaptive.get_threads_count(16, 16), 1);
    assert_eq!(ThreadingPolicy::Adaptive.get_threads_count(1024, 1024), 12);
    assert_eq!(ThreadingPolicy::Adaptive.get_threads_count(512, 512), 4);
}

#[test]
fn edge_mode_decoding() {
    assert_eq!(EdgeMode::from(0), EdgeMode::Clamp);
    assert_eq!(EdgeMode::from(1), EdgeMode::KernelClip);
    assert_eq!(EdgeMode::default(), EdgeMode::KernelClip);
}

#[test]
fn clahe_grid_size_holds_dimensions() {
    let g = ClaheGridSize::new(8, 6);
    assert_eq!(g.w, 8);
    assert_eq!(g.h, 6);
}

#[test]
fn error_messages_name_the_rule() {
    assert!(BlurError::KernelSizeMustBeOdd.message().contains("odd"));
    assert!(BlurError::SigmaMustBePositive.message().contains("sigma"));
}

#[test]
fn segment_ranges_tile_the_extent() {
    let mut covered = 0u32;
    for i in 0..3u32 {
        let (s, e) = libblur::scheduler::segment_range(10, 3, i);
        assert_eq!(s, covered);
        covered = e;
        assert!(s <= e && e <= 10);
    }
    assert_eq!(covered, 10);
    assert_eq!(libblur::scheduler::segment_range(10, 3, 2), (6, 10));
    assert_eq!(libblur::scheduler::segment_range(5, 8, 7), (0, 5));
}

#[test]
fn distinct_strides_for_source_and_destination() {
    let src = pattern_image(6, 4, 20, 3);
    let mut dst = vec![200u8; 30 * 4];
    gaussian_blur(
        &src,
        20,
        &mut dst,
        30,
        6,
        4,
        3,
        65536,
        FastBlurChannels::Channels3,
        EdgeMode::Clamp,
        ThreadingPolicy::Single,
    )
    .unwrap();
    // destination padding beyond the pixel rows is untouched
    for y in 0..4 {
        for p in 18..30 {
            assert_eq!(dst[y * 30 + p], 200);
        }
    }
}
