use lumina_core::codec::{decode_webp, encode_webp_lossless};
use lumina_core::frame::ImageFrame;
use lumina_core::memory::MemoryBudget;
use lumina_core::preview_cache::{prefetch_window, LruPreviewCache, PreviewEncode, PreviewKey, PreviewKind};

fn frame(w: u32, h: u32, value: u8) -> ImageFrame {
    ImageFrame::new(w, h, vec![value; (w * h * 4) as usize]).unwrap()
}

fn key_of(content: &str, render: &str) -> PreviewKey {
    PreviewKey {
        source_content_hash: content.into(),
        decode_context: "decode-v1".into(),
        pipeline_version: "pipe-v1".into(),
        virtual_copy_id: "vc-original".into(),
        render_key: render.into(),
        kind: PreviewKind::Screen,
        width: 800,
        height: 600,
        encode: PreviewEncode::default(),
    }
}

#[test]
fn prefetch_window_is_asymmetric_with_priority_order() {
    let slots = prefetch_window(10, 40);
    let indices: Vec<(i64, usize)> = slots.iter().map(|s| (s.offset, s.index)).collect();
    assert_eq!(indices, vec![(1, 11), (2, 12), (-1, 9), (3, 13), (-2, 8), (4, 14)]);
    let prio: Vec<u8> = slots.iter().map(|s| s.priority).collect();
    assert_eq!(prio, vec![0, 1, 2, 3, 4, 5]);
}

#[test]
fn prefetch_window_no_wrap_at_start_and_end() {
    let start = prefetch_window(0, 40);
    assert_eq!(start.iter().map(|s| s.offset).collect::<Vec<_>>(), vec![1, 2, 3, 4]);
    let end = prefetch_window(39, 40);
    assert_eq!(end.iter().map(|s| s.offset).collect::<Vec<_>>(), vec![-1, -2]);
    let near = prefetch_window(0, 2);
    assert_eq!(near.iter().map(|s| s.offset).collect::<Vec<_>>(), vec![1]);
}

#[test]
fn prefetch_window_respects_priority_across_single_edge() {
    let slots = prefetch_window(3, 8);
    let offsets: Vec<i64> = slots.iter().map(|s| s.offset).collect();
    assert_eq!(offsets, vec![1, 2, -1, 3, -2, 4]);
    assert_eq!(slots[0].offset, 1);
    assert_eq!(slots[1].offset, 2);
    assert_eq!(slots[2].offset, -1);
}

#[test]
fn key_digest_differs_on_content_and_render() {
    let a = key_of("content-a", "render-a");
    let a2 = key_of("content-a", "render-a");
    assert_eq!(a.digest(), a2.digest(), "identical keys are a hit");
    assert_ne!(a.digest(), key_of("content-b", "render-a").digest(), "source change -> stale (different key)");
    assert_ne!(a.digest(), key_of("content-a", "render-b").digest(), "recipe/render change -> stale");
    let mut b = key_of("content-a", "render-a");
    b.kind = PreviewKind::OneToOne;
    assert_ne!(a.digest(), b.digest(), "kind/resolution change -> miss");
}

#[test]
fn lru_evicts_least_recently_used() {
    let mut cache = LruPreviewCache::new(3, 10_000);
    cache.insert("a", frame(2, 2, 1));
    cache.insert("b", frame(2, 2, 2));
    cache.insert("c", frame(2, 2, 3));
    assert_eq!(cache.len(), 3);
    assert!(cache.get("a").is_some());
    cache.insert("d", frame(2, 2, 4));
    assert_eq!(cache.len(), 3);
    assert!(!cache.contains("b"), "'b' must be evicted first");
    assert!(cache.contains("a"));
    assert!(cache.contains("c"));
    assert!(cache.contains("d"));
}

#[test]
fn lru_respects_max_slots_and_byte_budget() {
    let mut cache = LruPreviewCache::new(2, 200);
    cache.insert("a", frame(4, 4, 1));
    cache.insert("b", frame(4, 4, 2));
    cache.insert("c", frame(4, 4, 3));
    assert_eq!(cache.len(), 2);
    assert!(!cache.contains("a"));
    assert!(cache.contains("b"));
    assert!(cache.contains("c"));
    assert!(!cache.insert("huge", frame(10, 10, 0)));
    assert_eq!(cache.len(), 2);
}

#[test]
fn active_entry_is_never_evicted() {
    let mut cache = LruPreviewCache::new(2, 100_000);
    cache.insert("active", frame(2, 2, 7));
    cache.insert("n1", frame(2, 2, 8));
    cache.set_active("active");
    cache.insert("n2", frame(2, 2, 9));
    cache.insert("n3", frame(2, 2, 10));
    assert!(cache.contains("active"), "pinned active must survive");
    assert!(cache.is_active("active"));
    assert_eq!(cache.len(), 2, "capacity is 2: active + 1 non-active");
    assert!(!cache.contains("n1"));
    assert!(!cache.contains("n2"));
    assert!(cache.contains("n3"));
}

#[test]
fn replacing_active_key_keeps_it_pinned() {
    let mut cache = LruPreviewCache::new(2, 100_000);
    cache.insert("active", frame(2, 2, 7));
    cache.set_active("active");
    cache.insert("active", frame(2, 2, 99));
    assert!(cache.is_active("active"));
    assert_eq!(cache.get("active").unwrap().pixels[0], 99);
}

#[test]
fn webp_roundtrip_preserves_alpha_semitransparency() {
    let mut pixels = vec![0u8; 4 * 4 * 4];
    for (i, px) in pixels.chunks_exact_mut(4).enumerate() {
        px.copy_from_slice(&[i as u8, (i * 7) as u8, (i * 13) as u8, (i * 3) as u8]);
    }
    let frame = ImageFrame::new(4, 4, pixels).unwrap();
    let webp = encode_webp_lossless(&frame).unwrap();
    let decoded = decode_webp(&webp, &MemoryBudget::default()).unwrap();
    assert_eq!((decoded.width, decoded.height), (4, 4));
    assert_eq!(decoded.pixels, frame.pixels, "alpha channel preserved exactly");
    assert_eq!(decoded.pixels[7], frame.pixels[7]);
}

#[test]
fn decode_webp_rejects_garbage() {
    assert!(decode_webp(b"not a real webp", &MemoryBudget::default()).is_err());
}

#[test]
fn remove_entry_and_clear_release_bytes() {
    let mut cache = LruPreviewCache::new(4, 1_000);
    cache.insert("a", frame(2, 2, 1));
    cache.insert("b", frame(2, 1, 2));
    assert_eq!(cache.used_bytes(), 24);
    cache.remove_entry("a");
    assert_eq!(cache.used_bytes(), 8);
    assert!(!cache.contains("a"));
    cache.clear();
    assert!(cache.is_empty());
    assert_eq!(cache.used_bytes(), 0);
    assert_eq!(cache.max_bytes(), 1_000);
}

#[test]
fn touch_protects_an_entry_from_eviction() {
    let mut cache = LruPreviewCache::new(2, 1_000);
    cache.insert("a", frame(1, 1, 1));
    cache.insert("b", frame(1, 1, 2));
    cache.touch("a");
    cache.insert("c", frame(1, 1, 3));
    assert!(cache.contains("a"));
    assert!(!cache.contains("b"));
}

#[test]
fn default_cache_holds_seven_entries() {
    let mut cache = LruPreviewCache::default();
    for i in 0..8u8 {
        cache.insert(&format!("k{i}"), frame(1, 1, i));
    }
    assert_eq!(cache.len(), 7);
    assert!(!cache.contains("k0"));
    assert_eq!(cache.max_bytes(), 1_500_000_000);
}

#[test]
fn preview_kind_names_are_stable() {
    assert_eq!(PreviewKind::Screen.as_str(), "screen");
    assert_eq!(PreviewKind::OneToOne.as_str(), "1:1");
}

#[test]
fn a_new_active_entry_unpins_the_previous_one() {
    let mut cache = LruPreviewCache::new(2, 1_000_000);
    cache.insert("a", frame(1, 1, 1));
    cache.insert("b", frame(1, 1, 2));
    cache.set_active("a");
    cache.set_active("b");
    assert!(cache.is_active("b"));
    assert!(!cache.is_active("a"));
    cache.set_active("missing");
    assert!(cache.is_active("b"));
    cache.insert("c", frame(1, 1, 3));
    assert!(cache.contains("b"), "the active entry survives");
    assert!(!cache.contains("a"), "the former active entry is evictable");
}

#[test]
fn used_bytes_are_the_bytes_of_the_stored_frames() {
    let mut cache = LruPreviewCache::new(7, 1_000_000);
    cache.insert("a", frame(2, 2, 1));
    cache.insert("b", frame(1, 1, 2));
    assert_eq!(cache.used_bytes(), 16 + 4);
    cache.insert("a", frame(1, 1, 3));
    assert_eq!(cache.used_bytes(), 4 + 4);
    cache.remove_entry("b");
    assert_eq!(cache.used_bytes(), 4);
}
