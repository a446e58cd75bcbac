use lumina_core::denoise::{
    assemble_denoise_tiles, fail_or_fallback, resolve_active_stage, resolve_denoise_status, DenoiseIdentity,
    DenoiseOutcome, DenoisePolicy, DenoiseRequest, DenoiseRgbArtifact, DenoiseStageInput, DenoiseStageStatus,
    DenoiseTile,
};
use lumina_core::frame::CoreError;

fn artifact(width: u32, height: u32, rgb: [u8; 3]) -> DenoiseRgbArtifact {
    let pixels = rgb.iter().copied().cycle().take(width as usize * height as usize * 3).collect();
    DenoiseRgbArtifact::new(width, height, pixels).unwrap()
}

#[test]
fn tile_assembly_of_constant_tiles_is_seamless_and_deterministic() {
    let tile_a = [40u8, 50, 60].repeat(4 * 2);
    let tile_b = [40u8, 50, 60].repeat(4 * 2);
    let tiles = [
        DenoiseTile { x: 0, y: 0, width: 4, height: 2, pixels: &tile_a },
        DenoiseTile { x: 2, y: 0, width: 4, height: 2, pixels: &tile_b },
    ];
    let assembled = assemble_denoise_tiles(6, 2, &tiles).unwrap();
    assert_eq!(assembled.width, 6);
    assert_eq!(assembled.height, 2);
    assert!(
        assembled.pixels.chunks_exact(3).all(|p| p == [40, 50, 60]),
        "constant tiles must reconstruct a constant, seam-free frame"
    );
    let again = assemble_denoise_tiles(6, 2, &tiles).unwrap();
    assert_eq!(assembled, again);
}

#[test]
fn tile_assembly_crossfades_without_discontinuity() {
    let dark = [0u8; 3].repeat(4);
    let bright = [255u8; 3].repeat(4);
    let tiles = [
        DenoiseTile { x: 0, y: 0, width: 4, height: 1, pixels: &dark },
        DenoiseTile { x: 2, y: 0, width: 4, height: 1, pixels: &bright },
    ];
    let assembled = assemble_denoise_tiles(6, 1, &tiles).unwrap();
    let row: Vec<u8> = assembled.pixels.chunks_exact(3).map(|p| p[0]).collect();
    assert!(row.windows(2).all(|w| w[0] <= w[1]), "row must be monotone");
}

#[test]
fn uncovered_pixels_and_out_of_bounds_tiles_are_loud() {
    let tile = [0u8; 3].repeat(2);
    let missing_coverage = [DenoiseTile { x: 0, y: 0, width: 1, height: 1, pixels: &tile[..3] }];
    let error = assemble_denoise_tiles(2, 2, &missing_coverage).unwrap_err();
    assert!(matches!(error, CoreError::Denoise { ref status, .. } if status == "missing"));
    let out_of_bounds = [DenoiseTile { x: 1, y: 0, width: 2, height: 1, pixels: &tile }];
    let error = assemble_denoise_tiles(2, 2, &out_of_bounds).unwrap_err();
    assert!(matches!(error, CoreError::Denoise { ref status, .. } if status == "corrupt"));
}

#[test]
fn checksum_is_canonical_and_matches_the_sidecar_layout() {
    let artifact = artifact(2, 2, [10, 20, 30]);
    let mut canonical = Vec::new();
    canonical.extend_from_slice(&1u32.to_le_bytes());
    canonical.extend_from_slice(&2u32.to_le_bytes());
    canonical.extend_from_slice(&2u32.to_le_bytes());
    canonical.extend_from_slice(&artifact.pixels);
    assert_eq!(artifact.checksum(), blake3::hash(&canonical).to_hex().to_string());
    assert_eq!(artifact.checksum(), artifact.checksum());
}

#[test]
fn tile_assembly_weights_by_distance_to_the_tile_edge() {
    let left = [0u8; 3].repeat(3 * 3);
    let right = [90u8; 3].repeat(3 * 3);
    let tiles = [
        DenoiseTile { x: 0, y: 0, width: 3, height: 3, pixels: &left },
        DenoiseTile { x: 1, y: 0, width: 3, height: 3, pixels: &right },
    ];
    let assembled = assemble_denoise_tiles(4, 3, &tiles).unwrap();
    let centre_row: Vec<u8> = assembled.pixels[12..24].chunks_exact(3).map(|p| p[0]).collect();
    // x=1: left weight 2, right weight 1 -> 30; x=2: left 1, right 2 -> 60.
    assert_eq!(centre_row, vec![0, 30, 60, 90]);
}

#[test]
fn tile_assembly_rejects_bad_tiles_and_empty_frames() {
    let pixels = [1u8; 5];
    let wrong_length = [DenoiseTile { x: 0, y: 0, width: 1, height: 2, pixels: &pixels }];
    match assemble_denoise_tiles(1, 2, &wrong_length).unwrap_err() {
        CoreError::Denoise { status, reason } => {
            assert_eq!(status, "corrupt");
            assert_eq!(reason, "denoise tile 1x2 needs 6 RGB bytes, got 5");
        },
        other => panic!("unexpected error {other:?}"),
    }
    let zero = [DenoiseTile { x: 0, y: 0, width: 0, height: 2, pixels: &pixels[..0] }];
    assert!(matches!(assemble_denoise_tiles(1, 2, &zero), Err(CoreError::Denoise { .. })));
    assert!(matches!(assemble_denoise_tiles(0, 2, &[]), Err(CoreError::Denoise { .. })));
    match assemble_denoise_tiles(2, 1, &[]).unwrap_err() {
        CoreError::Denoise { status, reason } => {
            assert_eq!(status, "missing");
            assert_eq!(reason, "denoise tiles do not cover pixel (0, 0)");
        },
        other => panic!("unexpected error {other:?}"),
    }
}

#[test]
fn artifact_validation_reports_expected_length() {
    match DenoiseRgbArtifact::new(2, 2, vec![0; 11]).unwrap_err() {
        CoreError::Denoise { status, reason } => {
            assert_eq!(status, "corrupt");
            assert_eq!(reason, "denoise artifact 2x2 needs 12 RGB bytes, got 11");
        },
        other => panic!("unexpected error {other:?}"),
    }
    assert!(DenoiseRgbArtifact::new(2, 2, vec![0; 12]).is_ok());
}

#[test]
fn status_names_are_stable() {
    assert_eq!(DenoiseStageStatus::Inactive.as_str(), "inactive");
    assert_eq!(DenoiseStageStatus::Ready.as_str(), "ready");
    assert_eq!(DenoiseStageStatus::Unavailable.as_str(), "unavailable");
    assert_eq!(DenoiseStageStatus::Stale.as_str(), "stale");
    assert_eq!(DenoiseStageStatus::Missing.as_str(), "missing");
    assert_eq!(DenoiseStageStatus::Corrupt.as_str(), "corrupt");
}

#[test]
fn active_stage_without_resolution_is_unavailable_and_strict_errors() {
    let input = DenoiseStageInput::inactive();
    match resolve_active_stage(&input) {
        Err(CoreError::Denoise { status, reason }) => {
            assert_eq!(status, "unavailable");
            assert_eq!(reason, "no denoise artifact resolved for an active denoise_ai stage");
        },
        other => panic!("unexpected result {other:?}"),
    }
}

#[test]
fn warn_policy_surfaces_every_non_ready_status() {
    for status in [
        DenoiseStageStatus::Unavailable,
        DenoiseStageStatus::Stale,
        DenoiseStageStatus::Missing,
        DenoiseStageStatus::Corrupt,
    ] {
        let input = DenoiseStageInput::non_ready(status, "because").with_policy(DenoisePolicy::Warn);
        assert_eq!(resolve_active_stage(&input).unwrap().unwrap_err(), DenoiseOutcome { applied: false, status });
        let strict = DenoiseStageInput::non_ready(status, "because");
        assert!(matches!(resolve_active_stage(&strict), Err(CoreError::Denoise { ref reason, .. }) if reason == "because"));
    }
}

#[test]
fn ready_input_yields_its_artifact() {
    let ready = artifact(1, 1, [1, 2, 3]);
    let input = DenoiseStageInput::ready(&ready);
    assert_eq!(resolve_active_stage(&input).unwrap().unwrap(), &ready);
    let missing = DenoiseStageInput { artifact: None, ..DenoiseStageInput::ready(&ready) };
    assert!(matches!(resolve_active_stage(&missing), Err(CoreError::Denoise { ref status, .. }) if status == "corrupt"));
    let warn = DenoiseStageInput::default().with_policy(DenoisePolicy::Warn);
    assert_eq!(
        fail_or_fallback(&warn, DenoiseStageStatus::Stale, "x".into()).unwrap(),
        DenoiseOutcome { applied: false, status: DenoiseStageStatus::Stale }
    );
}

fn sha256(fill: u8) -> String {
    format!("sha256:{}", format!("{fill:02x}").repeat(32))
}

/// The model hash that marks a model still pending integration.
const PENDING_MODEL_HASH: &str = "pending-integration";

fn denoise_request() -> DenoiseRequest {
    DenoiseRequest {
        active: true,
        model_name: "fixture-srgb".into(),
        model_version: "1".into(),
        model_hash: sha256(0x11),
        input_spec_digest: sha256(0x22),
        artifact_checksum: Some(artifact(2, 2, [0, 0, 0]).checksum()),
    }
}

#[test]
fn staleness_is_classified_per_identity_field() {
    let recipe = denoise_request();
    let current = DenoiseIdentity {
        source_content_hash: "src".into(),
        decode_fingerprint: "decode".into(),
        model_name: "fixture-srgb".into(),
        model_version: "1".into(),
        model_hash: sha256(0x11),
        input_spec_digest: sha256(0x22),
        artifact_checksum: recipe.artifact_checksum.clone().unwrap(),
    };
    let recorded = current.clone();
    assert_eq!(
        resolve_denoise_status(&recipe, PENDING_MODEL_HASH, &current, &recorded, true),
        DenoiseStageStatus::Ready
    );
    let mutations: [fn(&mut DenoiseIdentity); 6] = [
        |c| c.source_content_hash = "other-source".into(),
        |c| c.decode_fingerprint = "other-decode".into(),
        |c| c.model_name = "other".into(),
        |c| c.model_version = "other".into(),
        |c| c.model_hash = sha256(0x33),
        |c| c.input_spec_digest = sha256(0x44),
    ];
    for mutate in mutations {
        let mut candidate = current.clone();
        mutate(&mut candidate);
        assert_eq!(
            resolve_denoise_status(&recipe, PENDING_MODEL_HASH, &candidate, &recorded, true),
            DenoiseStageStatus::Stale
        );
    }
    for mutate in mutations {
        let mut drift = recorded.clone();
        mutate(&mut drift);
        assert_eq!(
            resolve_denoise_status(&recipe, PENDING_MODEL_HASH, &current, &drift, true),
            DenoiseStageStatus::Stale,
            "a drifted producer provenance must be stale, never silently ready"
        );
    }
    assert_eq!(
        resolve_denoise_status(&recipe, PENDING_MODEL_HASH, &current, &DenoiseIdentity::default(), true),
        DenoiseStageStatus::Stale
    );
    let mut corrupt = current.clone();
    corrupt.artifact_checksum = "00".repeat(32);
    assert_eq!(
        resolve_denoise_status(&recipe, PENDING_MODEL_HASH, &corrupt, &recorded, true),
        DenoiseStageStatus::Corrupt
    );
    assert_eq!(
        resolve_denoise_status(&recipe, PENDING_MODEL_HASH, &current, &recorded, false),
        DenoiseStageStatus::Missing
    );
    let mut pending = recipe.clone();
    pending.model_hash = PENDING_MODEL_HASH.into();
    assert_eq!(
        resolve_denoise_status(&pending, PENDING_MODEL_HASH, &current, &recorded, true),
        DenoiseStageStatus::Unavailable
    );
}

#[test]
fn inactive_stage_and_unrecorded_checksum_are_classified() {
    let mut recipe = denoise_request();
    let current = DenoiseIdentity {
        source_content_hash: "src".into(),
        decode_fingerprint: "decode".into(),
        model_name: "fixture-srgb".into(),
        model_version: "1".into(),
        model_hash: sha256(0x11),
        input_spec_digest: sha256(0x22),
        artifact_checksum: "anything".into(),
    };
    recipe.artifact_checksum = Some(String::new());
    assert_eq!(
        resolve_denoise_status(&recipe, PENDING_MODEL_HASH, &current, &current, true),
        DenoiseStageStatus::Ready
    );
    recipe.artifact_checksum = None;
    assert_eq!(
        resolve_denoise_status(&recipe, PENDING_MODEL_HASH, &current, &current, true),
        DenoiseStageStatus::Ready
    );
    recipe.active = false;
    assert_eq!(
        resolve_denoise_status(&recipe, PENDING_MODEL_HASH, &current, &current, false),
        DenoiseStageStatus::Inactive
    );
}
