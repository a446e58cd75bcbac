use lumina_core::frame::{CoreError, ImageFrame};
use lumina_core::mask_loader::{
    choose_mask_source, reinference_result, MaskChoice,
    model_identity_matches, resolve_mask_planes, ArtifactReference, DecodeFingerprint, MaskDefinition,
    MaskInference, MaskLoadContext, MaskLoadResult, MaskOperation, MaskReference, MaskResolvedFrom, MaskStatus,
    ModelIdentity, VirtualCopy,
};
use lumina_core::masks::MaskPlane;

/// Deterministic backend: `infer` returns a uniform 4x4 plane of `value`.
struct FakeInference {
    available: bool,
    value: u16,
}

impl MaskInference for FakeInference {
    fn is_available(&self) -> bool {
        self.available
    }
    fn infer(&self, _frame: &ImageFrame) -> Result<MaskPlane, CoreError> {
        MaskPlane::new(4, 4, vec![self.value; 16])
            .map_err(|error| CoreError::MaskInference { reason: format!("{error:?}") })
    }
}

/// Backend whose `infer` always fails.
struct FailingInference {
    available: bool,
}

impl MaskInference for FailingInference {
    fn is_available(&self) -> bool {
        self.available
    }
    fn infer(&self, _frame: &ImageFrame) -> Result<MaskPlane, CoreError> {
        Err(CoreError::MaskInference { reason: "simulated re-inference failure".into() })
    }
}

const PERSISTED_VALUE: u16 = 32768;
const INFERRED_VALUE: u16 = 12345;

fn decode_context() -> DecodeFingerprint {
    DecodeFingerprint { decoder: "image".into(), version: "1".into(), parameters: vec![] }
}

fn model_identity() -> ModelIdentity {
    ModelIdentity { name: "BiRefNet".into(), version: "1.0.0".into(), hash: "h".into(), input_spec_digest: None }
}

fn identity_with_digest(digest: Option<&str>) -> ModelIdentity {
    ModelIdentity {
        name: "BiRefNet".into(),
        version: "1.0.0".into(),
        hash: "h".into(),
        input_spec_digest: digest.map(|d| d.to_owned()),
    }
}

fn source_definition(
    id: &str,
    status: MaskStatus,
    source_hash: &str,
    model: ModelIdentity,
    decode: DecodeFingerprint,
    with_artifact: bool,
) -> MaskDefinition {
    MaskDefinition {
        id: id.into(),
        status,
        source_hash: source_hash.into(),
        decode_context: decode,
        model,
        artifact: if with_artifact { Some(ArtifactReference { width: 4, height: 4 }) } else { None },
        operation: MaskOperation::Source,
        references: vec![],
        has_prompt: false,
    }
}

fn copy_with(copy_id: &str, definitions: Vec<MaskDefinition>) -> VirtualCopy {
    VirtualCopy { id: copy_id.into(), mask_library: definitions, mask_layers: vec![] }
}

fn reference(copy_id: &str, mask_id: &str) -> MaskReference {
    MaskReference { copy_id: copy_id.into(), mask_id: mask_id.into() }
}

fn frame() -> ImageFrame {
    ImageFrame::new(4, 4, vec![100; 64]).unwrap()
}

fn key(copy_id: &str, mask_id: &str) -> (String, String) {
    (copy_id.into(), mask_id.into())
}

#[allow(clippy::too_many_arguments)]
fn resolve_single<I: MaskInference>(
    definition: MaskDefinition,
    plane: Option<MaskPlane>,
    inference: Option<&I>,
    model: Option<ModelIdentity>,
    refresh: bool,
    source_hash: &str,
    ctx_decode: DecodeFingerprint,
) -> Result<MaskLoadResult, CoreError> {
    let mut copy = copy_with("vc", vec![definition]);
    copy.mask_layers = vec![reference("vc", "subject")];
    let loaded_planes = plane.map(|p| vec![(key("vc", "subject"), p)]).unwrap_or_default();
    resolve_mask_planes(
        MaskLoadContext {
            copies: vec![copy],
            active_copy_id: "vc",
            source_hash,
            decode_context: &ctx_decode,
            loaded_planes,
            inference,
            model_identity: model.as_ref(),
            refresh,
        },
        &frame(),
    )
}

fn resolve_one<I: MaskInference>(
    definition: MaskDefinition,
    loaded_plane: Option<u16>,
    inference: Option<&I>,
    model: Option<ModelIdentity>,
    refresh: bool,
    source_hash: &str,
) -> Result<MaskLoadResult, CoreError> {
    let plane = loaded_plane.map(|value| MaskPlane::new(4, 4, vec![value; 16]).unwrap());
    resolve_single(definition, plane, inference, model, refresh, source_hash, decode_context())
}

fn resolve_with_plane<I: MaskInference>(
    definition: MaskDefinition,
    plane: Option<MaskPlane>,
    inference: Option<&I>,
    model: Option<ModelIdentity>,
) -> Result<MaskLoadResult, CoreError> {
    resolve_single(definition, plane, inference, model, false, "src", decode_context())
}

fn plane_values(result: &MaskLoadResult, copy_id: &str, mask_id: &str) -> Vec<u16> {
    result
        .planes
        .iter()
        .find(|(k, _)| k.0 == copy_id && k.1 == mask_id)
        .map(|(_, plane)| plane.values.clone())
        .unwrap()
}

fn has_plane(result: &MaskLoadResult, copy_id: &str, mask_id: &str) -> bool {
    result.planes.iter().any(|(k, _)| k.0 == copy_id && k.1 == mask_id)
}

fn persisted_status(result: &MaskLoadResult) -> MaskStatus {
    result
        .copies
        .iter()
        .find(|copy| copy.id == "vc")
        .and_then(|copy| copy.mask_library.iter().find(|mask| mask.id == "subject"))
        .map(|mask| mask.status)
        .unwrap()
}

fn no_backend() -> Option<&'static FakeInference> {
    None
}

fn valid_definition() -> MaskDefinition {
    source_definition("subject", MaskStatus::Valid, "src", model_identity(), decode_context(), true)
}

#[test]
fn valid_persisted_mask_is_preferred_without_reinference() {
    let backend = FakeInference { available: true, value: INFERRED_VALUE };
    let result =
        resolve_one(valid_definition(), Some(PERSISTED_VALUE), Some(&backend), Some(model_identity()), false, "src")
            .unwrap();
    assert_eq!(result.outcomes.len(), 1);
    assert_eq!(result.outcomes[0].from, MaskResolvedFrom::LoadedPersisted);
    assert_eq!(plane_values(&result, "vc", "subject"), vec![PERSISTED_VALUE; 16]);
    assert!(!result.model_unavailable);
    assert!(result.warnings.is_empty());
}

#[test]
fn refresh_forces_reinference_even_when_valid() {
    let backend = FakeInference { available: true, value: INFERRED_VALUE };
    let result =
        resolve_one(valid_definition(), Some(PERSISTED_VALUE), Some(&backend), Some(model_identity()), true, "src")
            .unwrap();
    assert_eq!(result.outcomes[0].from, MaskResolvedFrom::ReInferred);
    assert_eq!(plane_values(&result, "vc", "subject"), vec![INFERRED_VALUE; 16]);
}

#[test]
fn stale_mask_is_reinferred_when_model_available() {
    let definition = source_definition("subject", MaskStatus::Stale, "src", model_identity(), decode_context(), true);
    let backend = FakeInference { available: true, value: INFERRED_VALUE };
    let result =
        resolve_one(definition, Some(PERSISTED_VALUE), Some(&backend), Some(model_identity()), false, "src").unwrap();
    assert_eq!(result.outcomes[0].from, MaskResolvedFrom::ReInferred);
}

#[test]
fn changed_source_is_reinferred_when_model_available() {
    let definition =
        source_definition("subject", MaskStatus::Valid, "OLD-SRC", model_identity(), decode_context(), true);
    let backend = FakeInference { available: true, value: INFERRED_VALUE };
    let result =
        resolve_one(definition, Some(PERSISTED_VALUE), Some(&backend), Some(model_identity()), false, "NEW-SRC")
            .unwrap();
    assert_eq!(result.outcomes[0].from, MaskResolvedFrom::ReInferred);
}

#[test]
fn same_input_spec_digest_matches() {
    assert!(model_identity_matches(
        &identity_with_digest(Some("sha256:aaaa")),
        Some(&identity_with_digest(Some("sha256:aaaa"))),
    ));
}

#[test]
fn changed_input_spec_digest_does_not_match() {
    assert!(!model_identity_matches(
        &identity_with_digest(Some("sha256:aaaa")),
        Some(&identity_with_digest(Some("sha256:bbbb"))),
    ));
}

#[test]
fn digest_present_on_one_side_only() {
    assert!(!model_identity_matches(&identity_with_digest(Some("sha256:aaaa")), Some(&identity_with_digest(None)),));
    assert!(model_identity_matches(&identity_with_digest(None), Some(&identity_with_digest(Some("sha256:aaaa"))),));
}

#[test]
fn legacy_identity_without_digest_still_matches() {
    assert!(model_identity_matches(&identity_with_digest(None), Some(&identity_with_digest(None))));
    assert!(!model_identity_matches(
        &ModelIdentity { name: "Other".into(), version: "1.0.0".into(), hash: "h".into(), input_spec_digest: None },
        Some(&identity_with_digest(None)),
    ));
}

#[test]
fn changed_input_spec_digest_triggers_reinference() {
    let definition = source_definition(
        "subject",
        MaskStatus::Valid,
        "src",
        identity_with_digest(Some("sha256:OLD")),
        decode_context(),
        true,
    );
    let backend = FakeInference { available: true, value: INFERRED_VALUE };
    let result = resolve_one(
        definition,
        Some(PERSISTED_VALUE),
        Some(&backend),
        Some(identity_with_digest(Some("sha256:NEW"))),
        false,
        "src",
    )
    .unwrap();
    assert_eq!(result.outcomes[0].from, MaskResolvedFrom::ReInferred);
}

#[test]
fn same_input_spec_digest_prefers_persisted() {
    let definition = source_definition(
        "subject",
        MaskStatus::Valid,
        "src",
        identity_with_digest(Some("sha256:SAME")),
        decode_context(),
        true,
    );
    let backend = FakeInference { available: true, value: INFERRED_VALUE };
    let result = resolve_one(
        definition,
        Some(PERSISTED_VALUE),
        Some(&backend),
        Some(identity_with_digest(Some("sha256:SAME"))),
        false,
        "src",
    )
    .unwrap();
    assert_eq!(result.outcomes[0].from, MaskResolvedFrom::LoadedPersisted);
}

#[test]
fn changed_model_is_reinferred_when_available() {
    let definition = source_definition(
        "subject",
        MaskStatus::Valid,
        "src",
        ModelIdentity { name: "OldModel".into(), version: "0.9".into(), hash: "old".into(), input_spec_digest: None },
        decode_context(),
        true,
    );
    let backend = FakeInference { available: true, value: INFERRED_VALUE };
    let result =
        resolve_one(definition, Some(PERSISTED_VALUE), Some(&backend), Some(model_identity()), false, "src").unwrap();
    assert_eq!(result.outcomes[0].from, MaskResolvedFrom::ReInferred);
}

#[test]
fn missing_persisted_plane_is_reinferred_when_model_available() {
    let backend = FakeInference { available: true, value: INFERRED_VALUE };
    let result = resolve_one(valid_definition(), None, Some(&backend), Some(model_identity()), false, "src").unwrap();
    assert_eq!(result.outcomes[0].from, MaskResolvedFrom::ReInferred);
}

#[test]
fn model_unavailable_uses_cached_stale_mask_with_warning() {
    let definition = source_definition("subject", MaskStatus::Stale, "src", model_identity(), decode_context(), true);
    let result = resolve_one(definition, Some(PERSISTED_VALUE), no_backend(), None, false, "src").unwrap();
    assert_eq!(result.outcomes[0].from, MaskResolvedFrom::CachedUnavailable);
    assert!(result.model_unavailable);
    assert_eq!(result.warnings.len(), 1);
    assert!(result.warnings[0].contains("model is unavailable"));
    assert!(result.warnings[0].contains("stale"));
    assert_eq!(plane_values(&result, "vc", "subject"), vec![PERSISTED_VALUE; 16]);
}

#[test]
fn unconfirmable_model_identity_is_never_loaded_persisted() {
    let result = resolve_one(valid_definition(), Some(PERSISTED_VALUE), no_backend(), None, false, "src").unwrap();
    assert_eq!(result.outcomes[0].from, MaskResolvedFrom::CachedUnavailable);
    assert!(result.model_unavailable);
    assert_eq!(result.warnings.len(), 1);
    assert!(!result.warnings.is_empty());

    let backend = FakeInference { available: true, value: INFERRED_VALUE };
    let result = resolve_one(valid_definition(), Some(PERSISTED_VALUE), Some(&backend), None, false, "src").unwrap();
    assert_eq!(result.outcomes[0].from, MaskResolvedFrom::ReInferred);
    assert!(!result.model_unavailable);
    assert!(result.warnings.is_empty());
}

#[test]
fn model_unavailable_without_cache_is_a_hard_error() {
    let definition =
        source_definition("subject", MaskStatus::Missing, "src", model_identity(), decode_context(), false);
    let error = resolve_one(definition, None, no_backend(), None, false, "src").unwrap_err();
    assert!(matches!(
        error,
        CoreError::MaskUnavailable {
            ref copy_id,
            ref mask_id,
            ref status,
        } if copy_id == "vc" && mask_id == "subject" && status == "model-unavailable"
    ));
}

#[test]
fn model_unavailable_with_missing_plane_is_a_hard_error_even_if_status_valid() {
    let error = resolve_one(valid_definition(), None, no_backend(), None, false, "src").unwrap_err();
    assert!(matches!(
        error,
        CoreError::MaskUnavailable {
            ref status,
            ..
        } if status == "model-unavailable"
    ));
}

#[test]
fn cross_copy_source_is_resolved() {
    let source = valid_definition();
    let mut copy = copy_with("vc", vec![]);
    copy.mask_layers = vec![reference("other", "subject")];
    let other = copy_with("other", vec![source]);
    let loaded_planes = vec![(key("other", "subject"), MaskPlane::new(4, 4, vec![PERSISTED_VALUE; 16]).unwrap())];
    let backend = FakeInference { available: true, value: INFERRED_VALUE };
    let identity = model_identity();
    let decode = decode_context();
    let result = resolve_mask_planes(
        MaskLoadContext {
            copies: vec![copy, other],
            active_copy_id: "vc",
            source_hash: "src",
            decode_context: &decode,
            loaded_planes,
            inference: Some(&backend),
            model_identity: Some(&identity),
            refresh: false,
        },
        &frame(),
    )
    .unwrap();
    assert_eq!(result.outcomes[0].from, MaskResolvedFrom::LoadedPersisted);
    assert!(has_plane(&result, "other", "subject"));
}

#[test]
fn blessing_pass_resolves_source_and_derived_masks() {
    let source = valid_definition();
    let derived = MaskDefinition {
        id: "inverted".into(),
        status: MaskStatus::Valid,
        source_hash: "src".into(),
        decode_context: decode_context(),
        model: model_identity(),
        artifact: None,
        operation: MaskOperation::Invert,
        references: vec![reference("vc", "subject")],
        has_prompt: false,
    };
    let mut copy = copy_with("vc", vec![source, derived]);
    copy.mask_layers = vec![reference("vc", "subject"), reference("vc", "inverted")];
    let loaded_planes = vec![(key("vc", "subject"), MaskPlane::new(4, 4, vec![PERSISTED_VALUE; 16]).unwrap())];
    let backend = FakeInference { available: true, value: INFERRED_VALUE };
    let identity = model_identity();
    let decode = decode_context();
    let result = resolve_mask_planes(
        MaskLoadContext {
            copies: vec![copy],
            active_copy_id: "vc",
            source_hash: "src",
            decode_context: &decode,
            loaded_planes,
            inference: Some(&backend),
            model_identity: Some(&identity),
            refresh: false,
        },
        &frame(),
    )
    .unwrap();
    assert!(has_plane(&result, "vc", "subject"));
    assert_eq!(plane_values(&result, "vc", "subject"), vec![PERSISTED_VALUE; 16]);
    assert!(result.outcomes.iter().any(|o| o.mask_id == "subject" && o.from == MaskResolvedFrom::LoadedPersisted));
    let blessed = result
        .copies
        .iter()
        .flat_map(|c| c.mask_library.iter())
        .find(|m| m.id == "inverted")
        .expect("derived mask present in result copies");
    assert_eq!(blessed.status, MaskStatus::Valid);
}

#[test]
fn decode_context_change_is_reinferred_when_model_available() {
    let mut ctx_decode = decode_context();
    ctx_decode.version = "2".into();
    let backend = FakeInference { available: true, value: INFERRED_VALUE };
    let plane = MaskPlane::new(4, 4, vec![PERSISTED_VALUE; 16]).unwrap();
    let result = resolve_single(
        valid_definition(),
        Some(plane),
        Some(&backend),
        Some(model_identity()),
        false,
        "src",
        ctx_decode,
    )
    .unwrap();
    assert_eq!(result.outcomes[0].from, MaskResolvedFrom::ReInferred);
    assert_eq!(plane_values(&result, "vc", "subject"), vec![INFERRED_VALUE; 16]);
}

#[test]
fn decode_context_change_falls_back_to_cache_when_model_unavailable() {
    let mut ctx_decode = decode_context();
    ctx_decode.version = "2".into();
    let plane = MaskPlane::new(4, 4, vec![PERSISTED_VALUE; 16]).unwrap();
    let result = resolve_single(valid_definition(), Some(plane), no_backend(), None, false, "src", ctx_decode).unwrap();
    assert_eq!(result.outcomes[0].from, MaskResolvedFrom::CachedUnavailable);
    assert!(result.model_unavailable);
    assert_eq!(result.warnings.len(), 1);
    assert!(result.warnings[0].contains("model is unavailable"));
}

#[test]
fn corrupt_status_is_reinferred_when_model_available() {
    let definition =
        source_definition("subject", MaskStatus::Corrupt, "src", model_identity(), decode_context(), true);
    let backend = FakeInference { available: true, value: INFERRED_VALUE };
    let result =
        resolve_one(definition, Some(PERSISTED_VALUE), Some(&backend), Some(model_identity()), false, "src").unwrap();
    assert_eq!(result.outcomes[0].from, MaskResolvedFrom::ReInferred);
}

#[test]
fn corrupt_status_falls_back_to_cache_when_model_unavailable() {
    let definition =
        source_definition("subject", MaskStatus::Corrupt, "src", model_identity(), decode_context(), true);
    let result = resolve_one(definition, Some(PERSISTED_VALUE), no_backend(), None, false, "src").unwrap();
    assert_eq!(result.outcomes[0].from, MaskResolvedFrom::CachedUnavailable);
    assert!(result.model_unavailable);
    assert!(result.warnings[0].contains("Corrupt"));
}

#[test]
fn inference_failure_is_hard_error_not_silent_fallback() {
    let definition = source_definition("subject", MaskStatus::Stale, "src", model_identity(), decode_context(), true);
    let backend = FailingInference { available: true };
    let error =
        resolve_one(definition, Some(PERSISTED_VALUE), Some(&backend), Some(model_identity()), false, "src")
            .unwrap_err();
    assert!(matches!(error, CoreError::MaskInference { .. }));
}

#[test]
fn inference_failure_without_cache_is_hard_error() {
    let backend = FailingInference { available: true };
    let error = resolve_one(valid_definition(), None, Some(&backend), Some(model_identity()), false, "src").unwrap_err();
    assert!(matches!(error, CoreError::MaskInference { .. }));
}

#[test]
fn matching_dimensions_load_persisted_normally() {
    let result = resolve_with_plane(
        valid_definition(),
        Some(MaskPlane::new(4, 4, vec![PERSISTED_VALUE; 16]).unwrap()),
        no_backend(),
        Some(model_identity()),
    )
    .unwrap();
    assert_eq!(result.outcomes[0].from, MaskResolvedFrom::LoadedPersisted);
    assert_eq!(plane_values(&result, "vc", "subject"), vec![PERSISTED_VALUE; 16]);
    assert!(result.warnings.is_empty());
    assert_eq!(persisted_status(&result), MaskStatus::Valid);
}

#[test]
fn dimension_mismatch_is_reinferred_when_model_available() {
    let backend = FakeInference { available: true, value: INFERRED_VALUE };
    let result = resolve_with_plane(
        valid_definition(),
        Some(MaskPlane::new(2, 8, vec![PERSISTED_VALUE; 16]).unwrap()),
        Some(&backend),
        Some(model_identity()),
    )
    .unwrap();
    assert_eq!(result.outcomes[0].from, MaskResolvedFrom::ReInferred);
    assert_eq!(plane_values(&result, "vc", "subject"), vec![INFERRED_VALUE; 16]);
    assert_eq!(persisted_status(&result), MaskStatus::Valid);
}

#[test]
fn dimension_mismatch_marks_corrupt_when_cached_without_model() {
    let result = resolve_with_plane(
        valid_definition(),
        Some(MaskPlane::new(8, 2, vec![PERSISTED_VALUE; 16]).unwrap()),
        no_backend(),
        Some(model_identity()),
    )
    .unwrap();
    assert_eq!(result.outcomes[0].from, MaskResolvedFrom::CachedUnavailable);
    assert!(result.model_unavailable);
    assert_eq!(plane_values(&result, "vc", "subject"), vec![PERSISTED_VALUE; 16]);
    assert!(result.warnings.iter().any(|warning| {
        warning.contains("8x2")
            && warning.contains("4x4")
            && warning.contains("Corrupt")
            && warning.contains("no silent resample")
    }));
    assert_eq!(persisted_status(&result), MaskStatus::Corrupt);
}

#[test]
fn missing_artifact_reference_keeps_existing_behavior() {
    let definition = source_definition("subject", MaskStatus::Valid, "src", model_identity(), decode_context(), false);
    let result = resolve_with_plane(
        definition,
        Some(MaskPlane::new(4, 4, vec![PERSISTED_VALUE; 16]).unwrap()),
        no_backend(),
        Some(model_identity()),
    )
    .unwrap();
    assert_eq!(result.outcomes[0].from, MaskResolvedFrom::CachedUnavailable);
    assert!(result.model_unavailable);
    assert_eq!(result.warnings.len(), 1);
    assert!(result.warnings[0].contains("model is unavailable"));
    assert_eq!(persisted_status(&result), MaskStatus::Valid);
}

#[test]
fn outcomes_follow_key_order_and_unreachable_masks_are_untouched() {
    // Layers list `vc/zeta` before `vc/alpha`; outcomes come in key order.
    // `vc/orphan` is not reachable and keeps its status.
    let alpha = source_definition("alpha", MaskStatus::Valid, "src", model_identity(), decode_context(), true);
    let zeta = source_definition("zeta", MaskStatus::Valid, "src", model_identity(), decode_context(), true);
    let orphan = source_definition("orphan", MaskStatus::Stale, "src", model_identity(), decode_context(), true);
    let mut copy = copy_with("vc", vec![zeta, orphan, alpha]);
    copy.mask_layers = vec![reference("vc", "zeta"), reference("vc", "alpha")];
    let loaded_planes = vec![
        (key("vc", "zeta"), MaskPlane::new(4, 4, vec![2; 16]).unwrap()),
        (key("vc", "alpha"), MaskPlane::new(4, 4, vec![1; 16]).unwrap()),
    ];
    let identity = model_identity();
    let decode = decode_context();
    let result = resolve_mask_planes(
        MaskLoadContext {
            copies: vec![copy],
            active_copy_id: "vc",
            source_hash: "src",
            decode_context: &decode,
            loaded_planes,
            inference: no_backend(),
            model_identity: Some(&identity),
            refresh: false,
        },
        &frame(),
    )
    .unwrap();
    let order: Vec<&str> = result.outcomes.iter().map(|o| o.mask_id.as_str()).collect();
    assert_eq!(order, vec!["alpha", "zeta"]);
    assert_eq!(result.planes[0].0, key("vc", "alpha"));
    assert_eq!(result.planes[0].1.values, vec![1; 16]);
    let orphan_status = result.copies[0].mask_library.iter().find(|m| m.id == "orphan").unwrap().status;
    assert_eq!(orphan_status, MaskStatus::Stale);
}

#[test]
fn first_failing_mask_in_key_order_is_reported() {
    let a = source_definition("a", MaskStatus::Missing, "src", model_identity(), decode_context(), false);
    let b = source_definition("b", MaskStatus::Missing, "src", model_identity(), decode_context(), false);
    let mut copy = copy_with("vc", vec![b, a]);
    copy.mask_layers = vec![reference("vc", "b"), reference("vc", "a")];
    let decode = decode_context();
    let error = resolve_mask_planes(
        MaskLoadContext {
            copies: vec![copy],
            active_copy_id: "vc",
            source_hash: "src",
            decode_context: &decode,
            loaded_planes: vec![],
            inference: no_backend(),
            model_identity: None,
            refresh: false,
        },
        &frame(),
    )
    .unwrap_err();
    match error {
        CoreError::MaskUnavailable { mask_id, .. } => assert_eq!(mask_id, "a"),
        other => panic!("unexpected error {other:?}"),
    }
}

#[test]
fn inference_failure_reason_names_the_mask_and_the_cause() {
    let backend = FailingInference { available: true };
    let error = resolve_one(valid_definition(), None, Some(&backend), Some(model_identity()), false, "src").unwrap_err();
    match error {
        CoreError::MaskInference { reason } => assert_eq!(
            reason,
            "re-inference of mask `vc/subject` failed: mask re-inference failed: simulated re-inference failure"
        ),
        other => panic!("unexpected error {other:?}"),
    }
}

#[test]
fn derived_mask_referencing_a_missing_mask_is_not_blessed() {
    let derived = MaskDefinition {
        id: "inverted".into(),
        status: MaskStatus::Stale,
        source_hash: "src".into(),
        decode_context: decode_context(),
        model: model_identity(),
        artifact: None,
        operation: MaskOperation::Invert,
        references: vec![reference("vc", "gone")],
        has_prompt: false,
    };
    let mut copy = copy_with("vc", vec![derived]);
    copy.mask_layers = vec![reference("vc", "inverted")];
    let decode = decode_context();
    let result = resolve_mask_planes(
        MaskLoadContext {
            copies: vec![copy],
            active_copy_id: "vc",
            source_hash: "src",
            decode_context: &decode,
            loaded_planes: vec![],
            inference: no_backend(),
            model_identity: None,
            refresh: false,
        },
        &frame(),
    )
    .unwrap();
    assert!(result.outcomes.is_empty());
    assert_eq!(result.copies[0].mask_library[0].status, MaskStatus::Stale);
}

#[test]
fn availability_decides_between_reinference_and_cache() {
    assert_eq!(choose_mask_source(true, true, true), MaskChoice::KeepPersisted);
    assert_eq!(choose_mask_source(true, false, false), MaskChoice::KeepPersisted);
    assert_eq!(choose_mask_source(false, true, true), MaskChoice::ReInfer);
    assert_eq!(choose_mask_source(false, true, false), MaskChoice::ReInfer);
    assert_eq!(choose_mask_source(false, false, true), MaskChoice::UseCached);
    assert_eq!(choose_mask_source(false, false, false), MaskChoice::Unavailable);
}

#[test]
fn reinference_failures_name_the_mask() {
    let key = ("vc".to_string(), "m1".to_string());
    let plane = MaskPlane::new(1, 1, vec![7]).unwrap();
    assert_eq!(reinference_result(&key, Ok(plane.clone())), Ok(plane));
    let failed = reinference_result(&key, Err(CoreError::Decode("boom".into())));
    match failed {
        Err(CoreError::MaskInference { reason }) => {
            assert!(reason.starts_with("re-inference of mask `vc/m1` failed: "));
            assert!(reason.ends_with("boom"));
        },
        other => panic!("unexpected {other:?}"),
    }
}
