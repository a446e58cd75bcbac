use lumina_core::frame::ImageFrame;
use lumina_core::frame::CoreError;
use lumina_core::generative::{
    apply_generative_expand_cached, fill_order_key, fill_transparent_cached, fill_transparent_heuristic, generative_input_digest,
    has_transparent_pixels, validate_expand_canvas, validate_generative_edit, ExpandRequest, GenerativeCache, GenerativeCacheKey,
    GenerativeCacheStats, GenerativeRole,
};

fn auto_fill_frame() -> ImageFrame {
    let mut pixels = vec![0u8; 3 * 3 * 4];
    let c = 4 * 4;
    pixels[c] = 100;
    pixels[c + 1] = 150;
    pixels[c + 2] = 200;
    pixels[c + 3] = 255;
    ImageFrame::new(3, 3, pixels).unwrap()
}

fn expand_frame() -> ImageFrame {
    let mut pixels = Vec::with_capacity(4 * 4 * 4);
    for i in 0..16u8 {
        pixels.extend_from_slice(&[i.wrapping_mul(7), i.wrapping_mul(3), i, 255]);
    }
    ImageFrame::new(4, 4, pixels).unwrap()
}

#[test]
fn fill_transparent_no_opaque_no_fill() {
    let mut frame = ImageFrame::new(2, 2, vec![0, 0, 0, 0, 0, 0, 0, 0, 0, 0, 0, 0, 0, 0, 0, 0]).unwrap();
    let filled = fill_transparent_heuristic(&mut frame, 0);
    assert!(!filled);
}

#[test]
fn fill_transparent_no_transparent_no_fill() {
    let mut frame = ImageFrame::new(1, 1, vec![10, 20, 30, 255]).unwrap();
    assert!(!fill_transparent_heuristic(&mut frame, 42));
    assert_eq!(frame.pixels, vec![10, 20, 30, 255]);
}

#[test]
fn fill_transparent_fills_border() {
    let mut pixels = vec![0u8; 3 * 3 * 4];
    for i in 0..9 {
        pixels[i * 4 + 3] = 0;
    }
    pixels[4 * 4] = 100;
    pixels[4 * 4 + 1] = 150;
    pixels[4 * 4 + 2] = 200;
    pixels[4 * 4 + 3] = 255;
    let mut frame = ImageFrame::new(3, 3, pixels).unwrap();
    assert!(has_transparent_pixels(&frame));
    let filled = fill_transparent_heuristic(&mut frame, 0);
    assert!(filled);
    assert!(!has_transparent_pixels(&frame));
    for y in 0..3 {
        for x in 0..3 {
            let idx = (y * 3 + x) * 4;
            assert_eq!(&frame.pixels[idx..idx + 3], &[100, 150, 200]);
            assert_eq!(frame.pixels[idx + 3], 255);
        }
    }
}

#[test]
fn fill_transparent_deterministic_seed() {
    let make = || ImageFrame::new(2, 2, vec![10, 10, 10, 255, 0, 0, 0, 0, 0, 0, 0, 0, 20, 20, 20, 255]).unwrap();
    let mut a = make();
    let mut b = make();
    fill_transparent_heuristic(&mut a, 123);
    fill_transparent_heuristic(&mut b, 123);
    assert_eq!(a.pixels, b.pixels);
    let mut c = make();
    fill_transparent_heuristic(&mut c, 999);
    assert!(!has_transparent_pixels(&c));
}

#[test]
fn auto_fill_cache_serves_second_render_without_bfs() {
    let mut cache = GenerativeCache::new(10_000_000);
    let mut first = auto_fill_frame();
    let outcome = fill_transparent_cached(&mut cache, &mut first, 5);
    assert!(outcome.filled);
    assert!(!outcome.cache_hit);
    assert_eq!(cache.stats().bfs_runs, 1);
    assert!(!has_transparent_pixels(&first));
    let mut second = auto_fill_frame();
    let outcome = fill_transparent_cached(&mut cache, &mut second, 5);
    assert!(outcome.filled);
    assert!(outcome.cache_hit, "second render is a cache hit");
    assert_eq!(first.pixels, second.pixels);
    assert_eq!(cache.stats().bfs_runs, 1, "second render must not run BFS");
}

#[test]
fn auto_fill_cache_misses_on_seed_change_without_serving_stale() {
    let mut cache = GenerativeCache::new(10_000_000);
    let mut a = auto_fill_frame();
    fill_transparent_cached(&mut cache, &mut a, 1);
    let mut b = auto_fill_frame();
    let outcome = fill_transparent_cached(&mut cache, &mut b, 2);
    assert!(!outcome.cache_hit, "seed change never serves the stale result");
    assert_eq!(cache.stats().bfs_runs, 2);
}

#[test]
fn cache_key_digest_separates_role_seed_and_canvas() {
    let frame = expand_frame();
    let base = GenerativeCacheKey::expand(&frame, (6, 6, 1, 1), 0);
    let seed = GenerativeCacheKey::expand(&frame, (6, 6, 1, 1), 1);
    let canvas_changed = GenerativeCacheKey::expand(&frame, (6, 6, 0, 0), 0);
    let auto = GenerativeCacheKey::auto_fill(&frame, 0);
    assert_ne!(base.digest(), seed.digest());
    assert_ne!(base.digest(), canvas_changed.digest());
    assert_ne!(base.digest(), auto.digest(), "roles never alias");
    assert_eq!(base.digest(), base.clone().digest(), "stable digest");
    assert_eq!(auto.role, GenerativeRole::AutoFillTransparent);
}

#[test]
fn opaque_black_pixels_are_sources_not_holes() {
    let frame = ImageFrame::new(1, 1, vec![0, 0, 0, 255]).unwrap();
    assert!(!has_transparent_pixels(&frame));
    let translucent = ImageFrame::new(1, 1, vec![0, 0, 1, 254]).unwrap();
    assert!(has_transparent_pixels(&translucent));
    let mut pair = ImageFrame::new(2, 1, vec![10, 20, 30, 255, 0, 0, 0, 255]).unwrap();
    assert!(!fill_transparent_heuristic(&mut pair, 5));
    assert_eq!(pair.pixels, vec![10, 20, 30, 255, 0, 0, 0, 255]);
    let mut holes = ImageFrame::new(3, 1, vec![0, 0, 0, 255, 9, 9, 9, 0, 50, 60, 70, 255]).unwrap();
    assert!(fill_transparent_heuristic(&mut holes, 5));
    assert_eq!(&holes.pixels[0..4], &[0, 0, 0, 255]);
    assert_eq!(holes.pixels[7], 255);
}

#[test]
fn fill_keeps_opaque_pixels_and_uses_their_colors() {
    let mut pixels = vec![0u8; 4 * 1 * 4];
    pixels[0..4].copy_from_slice(&[9, 8, 7, 255]);
    pixels[12..16].copy_from_slice(&[1, 2, 3, 255]);
    let mut frame = ImageFrame::new(4, 1, pixels).unwrap();
    assert!(fill_transparent_heuristic(&mut frame, 7));
    assert_eq!(&frame.pixels[0..4], &[9, 8, 7, 255]);
    assert_eq!(&frame.pixels[12..16], &[1, 2, 3, 255]);
    for x in 1..3 {
        let px = &frame.pixels[x * 4..x * 4 + 4];
        assert!(px == [9, 8, 7, 255] || px == [1, 2, 3, 255]);
    }
}

#[test]
fn each_filled_pixel_takes_the_nearest_source_color() {
    let mut pixels = vec![0u8; 5 * 1 * 4];
    pixels[0..4].copy_from_slice(&[200, 10, 10, 255]);
    pixels[16..20].copy_from_slice(&[10, 10, 200, 255]);
    for seed in [0u64, 1, 42, 9999] {
        let mut frame = ImageFrame::new(5, 1, pixels.clone()).unwrap();
        assert!(fill_transparent_heuristic(&mut frame, seed));
        assert_eq!(&frame.pixels[4..8], &[200, 10, 10, 255]);
        assert_eq!(&frame.pixels[12..16], &[10, 10, 200, 255]);
        let middle = &frame.pixels[8..12];
        assert!(middle == [200, 10, 10, 255] || middle == [10, 10, 200, 255]);
    }
}

#[test]
fn malformed_frame_is_not_filled() {
    let mut frame = ImageFrame { width: 2, height: 2, pixels: vec![0, 0, 0, 0, 9, 9, 9, 255] };
    assert!(!fill_transparent_heuristic(&mut frame, 0));
    assert_eq!(frame.pixels, vec![0, 0, 0, 0, 9, 9, 9, 255]);
}

#[test]
fn generative_cache_is_bounded_and_clearable() {
    let mut cache = GenerativeCache::new(40);
    let frame = expand_frame();
    let key = GenerativeCacheKey::auto_fill(&frame, 0);
    assert!(!cache.insert(&key, frame.clone()), "a 64-byte frame exceeds a 40-byte budget");
    assert!(cache.is_empty());
    let small = ImageFrame::new(2, 2, vec![1; 16]).unwrap();
    let small_key = GenerativeCacheKey::auto_fill(&small, 0);
    assert!(cache.insert(&small_key, small.clone()));
    assert_eq!(cache.used_bytes(), 16);
    assert_eq!(cache.get(&small_key), Some(small.clone()));
    assert_eq!(cache.get(&key), None);
    let stats = cache.stats();
    assert_eq!((stats.hits, stats.misses, stats.entries, stats.used_bytes), (1, 1, 1, 16));
    cache.clear();
    assert!(cache.is_empty());
    assert_eq!(cache.used_bytes(), 0);
    assert_eq!(cache.stats().hits, 1, "counters survive a clear");
    assert_eq!(GenerativeCacheStats::default().bfs_runs, 0);
}

#[test]
fn input_digest_tracks_pixels_and_size() {
    let a = expand_frame();
    let mut b = expand_frame();
    b.pixels[0] ^= 0xFF;
    assert_ne!(generative_input_digest(&a), generative_input_digest(&b));
    assert_eq!(generative_input_digest(&a), generative_input_digest(&expand_frame()));
    let wide = ImageFrame::new(16, 1, a.pixels.clone()).unwrap();
    assert_ne!(generative_input_digest(&a), generative_input_digest(&wide));
}

fn expand_request(seed: u64, canvas: (u32, u32, i32, i32)) -> Option<ExpandRequest> {
    Some(ExpandRequest { expand_beyond_image: true, canvas: Some(canvas), canvas_valid: true, seed: Some(seed) })
}

#[test]
fn expand_cache_serves_second_render_without_bfs() {
    let mut cache = GenerativeCache::new(10_000_000);
    let frame = expand_frame();
    let request = expand_request(0, (6, 6, 1, 1));

    let first = apply_generative_expand_cached(&mut cache, &frame, request).unwrap();
    assert_eq!(cache.stats().bfs_runs, 1);
    assert_eq!(cache.stats().misses, 1);
    assert_eq!(cache.stats().hits, 0);

    let second = apply_generative_expand_cached(&mut cache, &frame, request).unwrap();
    assert_eq!(first.pixels, second.pixels, "cached result is byte-identical");
    assert_eq!((second.width, second.height), (6, 6));
    assert_eq!(cache.stats().bfs_runs, 1, "second render must not run BFS");
    assert_eq!(cache.stats().hits, 1);
}

#[test]
fn expand_cache_misses_on_seed_change() {
    let mut cache = GenerativeCache::new(10_000_000);
    let frame = expand_frame();
    apply_generative_expand_cached(&mut cache, &frame, expand_request(0, (6, 6, 1, 1))).unwrap();
    apply_generative_expand_cached(&mut cache, &frame, expand_request(7, (6, 6, 1, 1))).unwrap();
    assert_eq!(cache.stats().bfs_runs, 2, "a seed change is a loud miss");
    assert_eq!(cache.stats().hits, 0);
}

#[test]
fn expand_cache_misses_on_canvas_change() {
    let mut cache = GenerativeCache::new(10_000_000);
    let frame = expand_frame();
    apply_generative_expand_cached(&mut cache, &frame, expand_request(0, (6, 6, 1, 1))).unwrap();
    apply_generative_expand_cached(&mut cache, &frame, expand_request(0, (6, 6, 0, 0))).unwrap();
    assert_eq!(cache.stats().bfs_runs, 2, "a canvas change is a loud miss");
}

#[test]
fn expand_cache_misses_on_source_change() {
    let mut cache = GenerativeCache::new(10_000_000);
    let request = expand_request(0, (6, 6, 1, 1));
    let mut other = expand_frame();
    other.pixels[0] ^= 0xFF;
    apply_generative_expand_cached(&mut cache, &expand_frame(), request).unwrap();
    apply_generative_expand_cached(&mut cache, &other, request).unwrap();
    assert_eq!(cache.stats().bfs_runs, 2, "changed source pixels are a loud miss");
}

#[test]
fn expand_cache_is_bounded_and_clearable() {
    let mut cache = GenerativeCache::new(10_000_000);
    let request = expand_request(0, (6, 6, 1, 1));
    apply_generative_expand_cached(&mut cache, &expand_frame(), request).unwrap();
    assert!(!cache.is_empty());
    assert!(cache.used_bytes() > 0);
    cache.clear();
    assert!(cache.is_empty());
    assert_eq!(cache.used_bytes(), 0);
}

#[test]
fn expand_composites_source_and_fills_border_from_it() {
    let mut cache = GenerativeCache::new(10_000_000);
    let frame = expand_frame();
    let out = apply_generative_expand_cached(&mut cache, &frame, expand_request(3, (6, 5, 1, 0))).unwrap();
    assert_eq!((out.width, out.height), (6, 5));
    for y in 0..5usize {
        for x in 0..6usize {
            let px = &out.pixels[(y * 6 + x) * 4..(y * 6 + x) * 4 + 4];
            if (1..5).contains(&x) && y < 4 {
                let s = ((y * 4 + (x - 1)) * 4) as usize;
                assert_eq!(px, &frame.pixels[s..s + 4]);
            } else {
                assert_eq!(px[3], 255);
                assert!(frame.pixels.chunks(4).any(|src| src[0..3] == px[0..3]));
            }
        }
    }
    // The corner pixel (0, 4) has a single nearest source pixel, (1, 3).
    let corner = &out.pixels[(4 * 6) * 4..(4 * 6) * 4 + 4];
    let nearest = ((3 * 4) * 4) as usize;
    assert_eq!(&corner[0..3], &frame.pixels[nearest..nearest + 3]);
}

#[test]
fn expand_without_request_returns_the_frame() {
    let mut cache = GenerativeCache::new(10_000_000);
    let frame = expand_frame();
    let out = apply_generative_expand_cached(&mut cache, &frame, None).unwrap();
    assert_eq!(out, frame);
    let off = Some(ExpandRequest { expand_beyond_image: false, canvas: Some((6, 6, 1, 1)), canvas_valid: true, seed: None });
    let out = apply_generative_expand_cached(&mut cache, &frame, off).unwrap();
    assert_eq!(out, frame);
    assert_eq!(cache.stats().bfs_runs, 0);
    assert!(cache.is_empty());
}

#[test]
fn expand_without_canvas_is_refused() {
    let mut cache = GenerativeCache::new(10_000_000);
    let request = Some(ExpandRequest { expand_beyond_image: true, canvas: None, canvas_valid: true, seed: None });
    let err = apply_generative_expand_cached(&mut cache, &expand_frame(), request).unwrap_err();
    assert_eq!(
        err,
        CoreError::InvalidAdjustment { name: "generative_expand.canvas".into(), value: 0, minimum: 1, maximum: 1 }
    );
}

#[test]
fn expand_canvas_checks_refuse_bad_canvases() {
    let frame = expand_frame();
    let canvas_error =
        CoreError::InvalidAdjustment { name: "generative_expand.canvas".into(), value: 0, minimum: 1, maximum: 1 };
    let bounds_error =
        CoreError::InvalidAdjustment { name: "generative_expand.bounds".into(), value: 0, minimum: 0, maximum: 1 };
    assert_eq!(validate_expand_canvas(&frame, (4, 4, 0, 0), true), Err(canvas_error.clone()));
    assert_eq!(validate_expand_canvas(&frame, (8, 8, 0, 0), false), Err(canvas_error));
    assert_eq!(validate_expand_canvas(&frame, (8, 8, -1, 0), true), Err(bounds_error.clone()));
    assert_eq!(validate_expand_canvas(&frame, (8, 8, 5, 0), true), Err(bounds_error.clone()));
    assert_eq!(validate_expand_canvas(&frame, (8, 4, 0, 1), true), Err(bounds_error));
    assert_eq!(validate_expand_canvas(&frame, (8, 4, 4, 0), true), Ok(()));
    let mut cache = GenerativeCache::new(10_000_000);
    let request = Some(ExpandRequest { expand_beyond_image: true, canvas: Some((8, 8, 5, 0)), canvas_valid: true, seed: None });
    assert!(apply_generative_expand_cached(&mut cache, &frame, request).is_err());
    assert_eq!(cache.stats().bfs_runs, 0);
}

#[test]
fn generative_edit_structure_is_checked_in_order() {
    let adj = |name: &str, value: i64, minimum: i64, maximum: i64| CoreError::InvalidAdjustment {
        name: name.to_string(),
        value,
        minimum,
        maximum,
    };
    assert_eq!(validate_generative_edit(2, Some(true), None), Err(adj("generative_edit.version", 2, 1, 1)));
    assert_eq!(validate_generative_edit(1, Some(true), None), Err(adj("generative_edit.canvas", 0, 1, 1)));
    assert_eq!(validate_generative_edit(1, None, Some((8, 8, 0, 0))), Err(adj("generative_edit.canvas", 1, 0, 0)));
    assert_eq!(
        validate_generative_edit(1, Some(true), Some((0, 8, 0, 0))),
        Err(adj("generative_edit.canvas.output", 0, 1, 4294967295))
    );
    assert_eq!(validate_generative_edit(1, Some(true), Some((8, 8, -2, 0))), Ok(()));
    assert_eq!(validate_generative_edit(1, Some(false), None), Ok(()));
    assert_eq!(validate_generative_edit(1, None, None), Ok(()));
}

#[test]
fn filling_twice_changes_nothing_the_second_time() {
    let mut frame = auto_fill_frame();
    assert!(fill_transparent_heuristic(&mut frame, 11));
    let once = frame.clone();
    assert!(!fill_transparent_heuristic(&mut frame, 11));
    assert_eq!(frame, once);
}

#[test]
fn fill_tie_goes_to_the_source_first_in_seed_order() {
    // A hole midway between a red and a blue opaque pixel takes the color of
    // whichever comes first in the seed-shuffled order (row-major on a tie).
    for seed in [0u64, 1, 2, 3, 7, 42, 123, 999, 0xdead_beef] {
        let mut frame = ImageFrame::new(3, 1, vec![255, 0, 0, 255, 0, 0, 0, 0, 0, 0, 255, 255]).unwrap();
        assert!(fill_transparent_heuristic(&mut frame, seed));
        let red_first = fill_order_key(0, 0, seed) <= fill_order_key(2, 0, seed);
        let expected: [u8; 4] = if red_first { [255, 0, 0, 255] } else { [0, 0, 255, 255] };
        assert_eq!(&frame.pixels[4..8], &expected[..]);
        let mut again = ImageFrame::new(3, 1, vec![255, 0, 0, 255, 0, 0, 0, 0, 0, 0, 255, 255]).unwrap();
        fill_transparent_heuristic(&mut again, seed);
        assert_eq!(again.pixels, frame.pixels);
    }
}

#[test]
fn generative_cache_byte_use_is_the_held_sum_within_budget() {
    let mut cache = GenerativeCache::new(40);
    let f1 = ImageFrame::new(2, 2, vec![1u8; 16]).unwrap();
    let f2 = ImageFrame::new(2, 2, vec![2u8; 16]).unwrap();
    let f3 = ImageFrame::new(2, 2, vec![3u8; 16]).unwrap();
    let k1 = GenerativeCacheKey::auto_fill(&f1, 1);
    let k2 = GenerativeCacheKey::auto_fill(&f2, 1);
    let k3 = GenerativeCacheKey::auto_fill(&f3, 1);
    assert!(cache.insert(&k1, f1.clone()));
    assert_eq!(cache.used_bytes(), 16);
    assert!(cache.insert(&k2, f2.clone()));
    assert_eq!(cache.used_bytes(), 32);
    assert!(cache.insert(&k3, f3.clone()));
    assert_eq!(cache.used_bytes(), 32);
    assert!(cache.get(&k1).is_none());
    assert_eq!(cache.get(&k3).unwrap().pixels, f3.pixels);
    let big = ImageFrame::new(4, 4, vec![0u8; 64]).unwrap();
    let kb = GenerativeCacheKey::auto_fill(&big, 1);
    assert!(!cache.insert(&kb, big));
    assert_eq!(cache.used_bytes(), 32);
    assert!(cache.used_bytes() <= 40);
}
