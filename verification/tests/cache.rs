use lumina_core::cache::{
    preview_cache_key, CacheError, CacheStage, CacheStore, Cancellation, FolderCache, FolderCacheSettings,
    PartialFolderSettings, StaleTracker, merge_settings_chain,
};
use lumina_core::frame::{ExportOptions, ImageFileFormat};
use lumina_core::pipeline::{OutputSpec, RenderKey};

const RECIPE: &[u8] = b"{\"version\":1}";

fn key() -> RenderKey {
    RenderKey::new(
        "s".into(),
        "d".into(),
        "p".into(),
        "vc".into(),
        RECIPE,
        RECIPE,
        vec![],
        OutputSpec { profile: "srgb".into(), width: 1, height: 1, format: "png".into() },
    )
}

#[test]
fn invalidation_keeps_decode_for_mask_changes() {
    let mut cache = CacheStore::new(100);
    let stop = Cancellation::default();
    cache.put(CacheStage::Decode, &key(), vec![1], &stop).unwrap();
    cache.put(CacheStage::Preview, &key(), vec![2], &stop).unwrap();
    cache.invalidate(CacheStage::Mask);
    assert!(cache.get(CacheStage::Decode, &key()).is_some());
    assert!(cache.get(CacheStage::Preview, &key()).is_none());
}

#[test]
fn output_changes_reuse_decode_but_not_preview() {
    let mut cache = CacheStore::new(100);
    let stop = Cancellation::default();
    let first = key();
    let mut second = first.clone();
    second.output.width = 2;
    cache.put(CacheStage::Decode, &first, vec![1], &stop).unwrap();
    cache.put(CacheStage::Preview, &first, vec![2], &stop).unwrap();
    assert_eq!(cache.get(CacheStage::Decode, &second), Some(vec![1]));
    assert_eq!(cache.get(CacheStage::Preview, &second), None);
}

#[test]
fn crop_changes_reuse_decode_and_mask_but_miss_preview() {
    let mut cache = CacheStore::new(100);
    let stop = Cancellation::default();
    let first = key();
    let mut second = first.clone();
    second.recipe_hash = "crop-changed".into();
    cache.put(CacheStage::Decode, &first, vec![1], &stop).unwrap();
    cache.put(CacheStage::Mask, &first, vec![2], &stop).unwrap();
    cache.put(CacheStage::Preview, &first, vec![3], &stop).unwrap();
    assert_eq!(cache.get(CacheStage::Decode, &second), Some(vec![1]));
    assert_eq!(cache.get(CacheStage::Mask, &second), Some(vec![2]));
    assert_eq!(cache.get(CacheStage::Preview, &second), None);
}

#[test]
fn source_or_decode_context_change_misses_decode_and_mask() {
    let mut cache = CacheStore::new(100);
    let stop = Cancellation::default();
    let first = key();
    cache.put(CacheStage::Decode, &first, vec![1], &stop).unwrap();
    cache.put(CacheStage::Mask, &first, vec![2], &stop).unwrap();
    let mut changed = first.clone();
    changed.source_content_hash = "new-source".into();
    assert_eq!(cache.get(CacheStage::Decode, &changed), None);
    assert_eq!(cache.get(CacheStage::Mask, &changed), None);
    cache.put(CacheStage::Decode, &first, vec![1], &stop).unwrap();
    cache.put(CacheStage::Mask, &first, vec![2], &stop).unwrap();
    changed = first.clone();
    changed.decode_version = "new-decoder".into();
    assert_eq!(cache.get(CacheStage::Decode, &changed), None);
    assert_eq!(cache.get(CacheStage::Mask, &changed), None);
}

#[test]
fn mask_artifact_change_misses_mask_and_preview_but_reuses_decode() {
    let mut cache = CacheStore::new(100);
    let stop = Cancellation::default();
    let first = key();
    cache.put(CacheStage::Decode, &first, vec![1], &stop).unwrap();
    cache.put(CacheStage::Mask, &first, vec![2], &stop).unwrap();
    cache.put(CacheStage::Preview, &first, vec![3], &stop).unwrap();
    let mut changed = first.clone();
    changed.mask_artifact_hashes.push("changed".into());
    assert_eq!(cache.get(CacheStage::Decode, &changed), Some(vec![1]));
    assert_eq!(cache.get(CacheStage::Mask, &changed), None);
    assert_eq!(cache.get(CacheStage::Preview, &changed), None);
}

#[test]
fn source_action_artifact_change_misses_preview_but_reuses_decode() {
    let mut cache = CacheStore::new(100);
    let stop = Cancellation::default();
    let first = key().with_source_action_hashes(vec!["blake3:old-artifact".to_owned()]);
    cache.put(CacheStage::Decode, &first, vec![1], &stop).unwrap();
    cache.put(CacheStage::Preview, &first, vec![2], &stop).unwrap();
    let changed = first.with_source_action_hashes(vec!["blake3:new-artifact".to_owned()]);
    assert_eq!(cache.get(CacheStage::Decode, &changed), Some(vec![1]));
    assert_eq!(cache.get(CacheStage::Preview, &changed), None);
}

#[test]
fn export_option_change_misses_preview() {
    let mut cache = CacheStore::new(100);
    let stop = Cancellation::default();
    let first = key().with_export_options(ExportOptions { quality: 90, ..ExportOptions::default() });
    cache.put(CacheStage::Preview, &first, vec![1], &stop).unwrap();
    let changed = first.clone().with_export_options(ExportOptions { quality: 60, ..ExportOptions::default() });
    assert_eq!(cache.get(CacheStage::Preview, &changed), None);
    assert_eq!(cache.get(CacheStage::Preview, &first), Some(vec![1]), "the original entry stays reachable");
}

#[test]
fn output_size_change_misses_histogram_but_reuses_decode() {
    let mut cache = CacheStore::new(200);
    let stop = Cancellation::default();
    let mut first = key();
    first.output.width = 32;
    first.output.height = 32;
    cache.put(CacheStage::Decode, &first, vec![1], &stop).unwrap();
    cache.put(CacheStage::Histogram, &first, vec![2], &stop).unwrap();
    let mut resized = first.clone();
    resized.output.width = 64;
    resized.output.height = 64;
    assert_eq!(cache.get(CacheStage::Decode, &resized), Some(vec![1]));
    assert_eq!(cache.get(CacheStage::Histogram, &resized), None);
}

#[test]
fn newer_job_makes_older_result_stale() {
    let tracker = StaleTracker::default();
    let old = tracker.begin();
    let new = tracker.begin();
    assert!(!tracker.is_current(old));
    assert!(tracker.is_current(new));
}

#[test]
fn cancelled_and_size_limited_writes_are_not_committed() {
    let mut cache = CacheStore::new(2);
    let stop = Cancellation::default();
    stop.cancel();
    assert_eq!(cache.put(CacheStage::Preview, &key(), vec![1], &stop), Err(CacheError::Cancelled));
    let active = Cancellation::default();
    assert_eq!(cache.put(CacheStage::Preview, &key(), vec![1, 2, 3], &active), Err(CacheError::TooLarge));
}

#[test]
fn folder_settings_are_inherited_and_orphans_are_pruned() {
    let settings = FolderCache::effective_settings(&[
        FolderCacheSettings::default(),
        FolderCacheSettings { one_to_one_preview: true, ..Default::default() },
    ]);
    assert!(settings.one_to_one_preview);
    let mut cache = FolderCache::new();
    cache.store("live".into(), vec![1]);
    cache.store("gone".into(), vec![2]);
    cache.prune_orphans(&["live".into()]);
    assert!(cache.get("live").is_some());
    assert!(cache.get("gone").is_none());
}

#[test]
fn least_recently_used_entry_is_evicted_first() {
    let mut cache = CacheStore::new(4);
    let stop = Cancellation::new();
    cache.put(CacheStage::Decode, &key(), vec![1, 1], &stop).unwrap();
    cache.put(CacheStage::Mask, &key(), vec![2, 2], &stop).unwrap();
    assert!(cache.get(CacheStage::Decode, &key()).is_some());
    cache.put(CacheStage::Preview, &key(), vec![3, 3], &stop).unwrap();
    assert_eq!(cache.get(CacheStage::Mask, &key()), None);
    assert_eq!(cache.get(CacheStage::Decode, &key()), Some(vec![1, 1]));
    assert_eq!(cache.get(CacheStage::Preview, &key()), Some(vec![3, 3]));
}

#[test]
fn rewriting_an_entry_replaces_it() {
    let mut cache = CacheStore::new(3);
    let stop = Cancellation::new();
    cache.put(CacheStage::Decode, &key(), vec![1, 2, 3], &stop).unwrap();
    cache.put(CacheStage::Decode, &key(), vec![4, 5, 6], &stop).unwrap();
    assert_eq!(cache.get(CacheStage::Decode, &key()), Some(vec![4, 5, 6]));
}

#[test]
fn decode_change_invalidates_every_stage_and_prune_keeps_live_digests() {
    let mut cache = CacheStore::new(100);
    let stop = Cancellation::new();
    let k = key();
    cache.put(CacheStage::Decode, &k, vec![1], &stop).unwrap();
    cache.put(CacheStage::Mask, &k, vec![2], &stop).unwrap();
    cache.put(CacheStage::Export, &k, vec![3], &stop).unwrap();
    cache.prune(&[k.stage_digest(CacheStage::Decode)]);
    assert_eq!(cache.get(CacheStage::Decode, &k), Some(vec![1]));
    assert_eq!(cache.get(CacheStage::Mask, &k), None);
    cache.invalidate(CacheStage::Decode);
    assert_eq!(cache.get(CacheStage::Decode, &k), None);
}

#[test]
fn settings_chain_inherits_field_by_field() {
    let merged = merge_settings_chain(&[
        PartialFolderSettings { standard_preview: Some(false), one_to_one_preview: None },
        PartialFolderSettings { standard_preview: None, one_to_one_preview: Some(true) },
    ]);
    assert_eq!(merged, FolderCacheSettings { standard_preview: false, one_to_one_preview: true });
    assert_eq!(merge_settings_chain(&[]), FolderCacheSettings::default());
}

#[test]
fn preview_cache_key_separates_source_and_copy() {
    assert_eq!(preview_cache_key("a.jpg", "vc1"), "a.jpg\u{0}vc1");
    assert_ne!(preview_cache_key("ab", "c"), preview_cache_key("a", "bc"));
}

#[test]
fn cache_error_messages_are_stable() {
    assert_eq!(CacheError::TooLarge.message(), "cache entry exceeds configured size limit");
    assert_eq!(CacheError::Cancelled.message(), "cache operation was cancelled");
    assert_eq!(CacheError::Corrupt.message(), "cache checksum mismatch");
}

#[test]
fn folder_cache_store_replaces_bytes() {
    let mut cache = FolderCache::new();
    cache.store("a".into(), vec![1]);
    cache.store("a".into(), vec![2, 3]);
    assert_eq!(cache.get("a"), Some(&[2u8, 3][..]));
    let _ = ImageFileFormat::Png;
}
