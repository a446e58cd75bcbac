use lumina_core::pipeline::{Pipeline, PipelineStage};

#[test]
fn pipeline_order_and_formats_are_explicit() {
    let pipeline = Pipeline::default();
    let stages = pipeline.stages();
    assert_eq!(
        stages.iter().map(|(stage, _, _)| *stage).collect::<Vec<_>>(),
        vec![
            PipelineStage::Decode,
            PipelineStage::SourceActions,
            PipelineStage::AutoAnalysis,
            PipelineStage::Adjustments,
            PipelineStage::Masks,
            PipelineStage::Crop,
            PipelineStage::Output,
        ]
    );
    assert!(pipeline.validate());
}

use lumina_core::cache::CacheStage;
use lumina_core::frame::{ExportOptions, ImageFileFormat};
use lumina_core::pipeline::{OutputSpec, RenderKey};

const EXPOSURE_RECIPE: &[u8] = b"{\"adjustments\":{\"exposure\":1.0}}";
const DEFAULT_RECIPE: &[u8] = b"{}";

fn key_with(recipe: &[u8], masks: Vec<String>, width: u32, height: u32, format: &str) -> RenderKey {
    RenderKey::new(
        "source".into(),
        "decode-1".into(),
        "pipeline-1".into(),
        "vc".into(),
        recipe,
        recipe,
        masks,
        OutputSpec { profile: "sRGB".into(), width, height, format: format.into() },
    )
}

fn base_key() -> RenderKey {
    key_with(DEFAULT_RECIPE, vec![], 100, 100, "png")
}

#[test]
fn key_changes_for_every_render_input() {
    let key = key_with(EXPOSURE_RECIPE, vec!["mask".into()], 10, 20, "png");
    let mut changed = key.clone();
    changed.output.width += 1;
    assert_ne!(key.digest(), changed.digest());
    changed = key.clone();
    changed.mask_artifact_hashes.push("other".into());
    assert_ne!(key.digest(), changed.digest());
    assert_ne!(key.recipe_hash, key_with(DEFAULT_RECIPE, vec!["mask".into()], 10, 20, "png").recipe_hash);
}

#[test]
fn export_options_change_render_but_not_upstream_stage_digests() {
    let options = ExportOptions::default();
    let key = base_key().with_export_options(options);
    assert_ne!(key.digest(), base_key().digest());
    let mut changed = options;
    changed.quality = 42;
    assert_ne!(key.digest(), base_key().with_export_options(changed).digest());
    changed = options;
    changed.dither = !options.dither;
    assert_ne!(key.digest(), base_key().with_export_options(changed).digest());
    changed = options;
    changed.seed = options.seed + 1;
    assert_ne!(key.digest(), base_key().with_export_options(changed).digest());
    changed = options;
    changed.format = ImageFileFormat::Jpeg;
    assert_ne!(key.digest(), base_key().with_export_options(changed).digest());
    assert_eq!(key.stage_digest(CacheStage::Decode), base_key().stage_digest(CacheStage::Decode));
    assert_eq!(key.stage_digest(CacheStage::Mask), base_key().stage_digest(CacheStage::Mask));
    assert_eq!(base_key().export_options, None);
}

#[test]
fn source_action_artifact_hashes_change_every_downstream_digest() {
    let key = base_key().with_source_action_hashes(vec!["blake3:repair-a".to_owned()]);
    let mut changed = key.clone();
    changed.source_action_artifact_hashes = vec!["blake3:repair-b".to_owned()];
    assert_ne!(key.digest(), changed.digest());
    assert_ne!(key.stage_digest(CacheStage::Preview), changed.stage_digest(CacheStage::Preview));
    assert_ne!(key.stage_digest(CacheStage::Histogram), changed.stage_digest(CacheStage::Histogram));
    assert_eq!(key.stage_digest(CacheStage::Decode), changed.stage_digest(CacheStage::Decode));
}

#[test]
fn histogram_digest_distinguishes_output_geometry() {
    let small = RenderKey::new(
        "s".into(),
        "d".into(),
        "p".into(),
        "vc".into(),
        DEFAULT_RECIPE,
        DEFAULT_RECIPE,
        vec![],
        OutputSpec { profile: "sRGB".into(), width: 100, height: 100, format: "rgba8".into() },
    );
    let large = RenderKey::new(
        "s".into(),
        "d".into(),
        "p".into(),
        "vc".into(),
        DEFAULT_RECIPE,
        DEFAULT_RECIPE,
        vec![],
        OutputSpec { profile: "sRGB".into(), width: 200, height: 200, format: "rgba8".into() },
    );
    assert_ne!(small.stage_digest(CacheStage::Histogram), large.stage_digest(CacheStage::Histogram));
    let rec2020 = RenderKey {
        output: OutputSpec { profile: "Rec2020".into(), ..small.output.clone() },
        ..small.clone()
    };
    assert_eq!(small.stage_digest(CacheStage::Histogram), rec2020.stage_digest(CacheStage::Histogram));
}

#[test]
fn local_state_digest_changes_mask_but_not_decode() {
    let key = base_key();
    let with_state = base_key().with_mask_local_state_digest("state-a".into());
    assert_eq!(key.stage_digest(CacheStage::Decode), with_state.stage_digest(CacheStage::Decode));
    assert_ne!(key.stage_digest(CacheStage::Mask), with_state.stage_digest(CacheStage::Mask));
}

#[test]
fn render_digest_is_lowercase_hex_of_fixed_length() {
    let digest = base_key().digest();
    assert_eq!(digest.len(), 64);
    assert!(digest.chars().all(|c| c.is_ascii_hexdigit() && !c.is_ascii_uppercase()));
    assert_eq!(digest, base_key().digest());
}
