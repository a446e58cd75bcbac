//! The KI-Denoise stage: the denoised RGB8 artifact and its checksum, the
//! visible status model, the strict/warn handling of a stage that is not
//! ready, and the seam-free assembly of a full frame from overlapping
//! tiles.
use crate::frame::CoreError;
use crate::mask_loader::same_text;
use crate::hashing::{blake3_hex, blake3_hex_digest, le_u32, push_bytes, push_u32_le};
use crate::raster::{cell, lemma_cell_bounds, lemma_cell_injective};
use crate::text::{decimal, push_decimal};
use vstd::prelude::*;

verus! {

/// Version of the canonical RGB8 payload encoding.
pub const DENOISE_RGB_ENCODING_VERSION: u32 = 1;

/// Visible status of the KI-Denoise stage.
#[derive(Debug, Clone, Copy, PartialEq, Eq, Structural)]
pub enum DenoiseStageStatus {
    /// Absent or a defined identity (disabled, or strength zero).
    Inactive,
    /// A matching, checksum-verified artifact is available.
    Ready,
    /// No usable model or weights.
    Unavailable,
    /// Source, decode, model or input spec changed since the artifact was
    /// produced.
    Stale,
    /// The referenced artifact is absent.
    Missing,
    /// The artifact exists but is unusable (checksum, dimensions, format).
    Corrupt,
}

/// The stable lower-case name of a status.
pub open spec fn status_name(status: DenoiseStageStatus) -> Seq<char> {
    match status {
        DenoiseStageStatus::Inactive => "inactive"@,
        DenoiseStageStatus::Ready => "ready"@,
        DenoiseStageStatus::Unavailable => "unavailable"@,
        DenoiseStageStatus::Stale => "stale"@,
        DenoiseStageStatus::Missing => "missing"@,
        DenoiseStageStatus::Corrupt => "corrupt"@,
    }
}

impl DenoiseStageStatus {
    /// Stable lower-case status name used in errors, logs and reports.
    pub fn as_str(self) -> (name: &'static str)
        ensures
            name@ == status_name(self),
    {
        match self {
            DenoiseStageStatus::Inactive => "inactive",
            DenoiseStageStatus::Ready => "ready",
            DenoiseStageStatus::Unavailable => "unavailable",
            DenoiseStageStatus::Stale => "stale",
            DenoiseStageStatus::Missing => "missing",
            DenoiseStageStatus::Corrupt => "corrupt",
        }
    }
}

/// A denoise error carrying the visible status and an explanation.
pub open spec fn is_denoise_error(error: CoreError, status: DenoiseStageStatus, reason: Seq<char>) -> bool {
    error matches CoreError::Denoise { status: s, reason: r } && s@ == status_name(status) && r@ == reason
}

/// A full-frame denoised RGB8 result (no alpha), row-major,
/// `width * height * 3` bytes.
#[derive(Debug, Clone, PartialEq, Eq)]
pub struct DenoiseRgbArtifact {
    pub width: u32,
    pub height: u32,
    pub pixels: Vec<u8>,
}

/// The byte count an artifact of the given size needs, or zero when that
/// count does not fit in `usize`.
pub open spec fn expected_rgb_len(width: u32, height: u32) -> int {
    if width * height * 3 <= usize::MAX {
        width * height * 3
    } else {
        0
    }
}

/// The explanation of an artifact whose byte count does not match its size.
pub open spec fn artifact_size_text(width: u32, height: u32, length: nat) -> Seq<char> {
    "denoise artifact "@ + decimal(width as nat) + "x"@ + decimal(height as nat) + " needs "@ + decimal(
        expected_rgb_len(width, height) as nat,
    ) + " RGB bytes, got "@ + decimal(length)
}

/// The canonical raw stream of an artifact: encoding version, width,
/// height (each little-endian `u32`), then the RGB bytes.
pub open spec fn artifact_stream(width: u32, height: u32, pixels: Seq<u8>) -> Seq<u8> {
    le_u32(DENOISE_RGB_ENCODING_VERSION) + le_u32(width) + le_u32(height) + pixels
}

impl DenoiseRgbArtifact {
    /// Builds an artifact, refusing one whose byte count is not
    /// `width * height * 3`.
    pub fn new(width: u32, height: u32, pixels: Vec<u8>) -> (result: Result<DenoiseRgbArtifact, CoreError>)
        ensures
            pixels@.len() == width * height * 3 <==> result is Ok,
            result matches Ok(artifact) ==> artifact.width == width && artifact.height == height
                && artifact.pixels@ == pixels@,
            result matches Err(e) ==> is_denoise_error(
                e,
                DenoiseStageStatus::Corrupt,
                artifact_size_text(width, height, pixels@.len()),
            ),
    {
        let artifact = DenoiseRgbArtifact { width, height, pixels };
        match artifact.validate() {
            Ok(()) => Ok(artifact),
            Err(error) => Err(error),
        }
    }

    /// Refuses an artifact whose byte count is not `width * height * 3`.
    pub fn validate(&self) -> (result: Result<(), CoreError>)
        ensures
            self.pixels@.len() == self.width * self.height * 3 <==> result is Ok,
            result matches Err(e) ==> is_denoise_error(
                e,
                DenoiseStageStatus::Corrupt,
                artifact_size_text(self.width, self.height, self.pixels@.len()),
            ),
    {
        let expected = match (self.width as usize).checked_mul(self.height as usize) {
            Some(count) => count.checked_mul(3),
            None => None,
        };
        let (matches, shown) = match expected {
            Some(value) => (value == self.pixels.len(), value),
            None => (false, 0),
        };
        proof {
            if expected is None {
                if self.width * self.height <= usize::MAX {
                    assert(self.width * self.height * 3 > usize::MAX);
                } else {
                    assert(self.width * self.height * 3 > usize::MAX) by (nonlinear_arith)
                        requires
                            self.width * self.height > usize::MAX,
                    ;
                }
            }
            assert(shown == expected_rgb_len(self.width, self.height));
        }
        if !matches {
            let mut reason = String::from_str("denoise artifact ");
            push_decimal(&mut reason, self.width as u64);
            reason.append("x");
            push_decimal(&mut reason, self.height as u64);
            reason.append(" needs ");
            push_decimal(&mut reason, shown as u64);
            reason.append(" RGB bytes, got ");
            push_decimal(&mut reason, self.pixels.len() as u64);
            return Err(CoreError::Denoise { status: String::from_str(DenoiseStageStatus::Corrupt.as_str()), reason });
        }
        Ok(())
    }

    /// The canonical raw stream: encoding version, width, height, RGB bytes.
    fn encode_raw(&self) -> (raw: Vec<u8>)
        ensures
            raw@ == artifact_stream(self.width, self.height, self.pixels@),
    {
        let mut raw: Vec<u8> = Vec::new();
        push_u32_le(&mut raw, DENOISE_RGB_ENCODING_VERSION);
        push_u32_le(&mut raw, self.width);
        push_u32_le(&mut raw, self.height);
        push_bytes(&mut raw, self.pixels.as_slice());
        raw
    }

    /// BLAKE3 hex digest of the canonical uncompressed RGB stream.
    pub fn checksum(&self) -> (digest: String)
        ensures
            digest@ == blake3_hex(artifact_stream(self.width, self.height, self.pixels@)),
    {
        let raw = self.encode_raw();
        blake3_hex_digest(raw.as_slice())
    }
}

/// How an active stage that is not ready is handled.
#[derive(Debug, Clone, Copy, PartialEq, Eq, Structural)]
pub enum DenoisePolicy {
    /// Abort the render with a denoise error.
    Strict,
    /// Fall through visibly to the manual noise reduction (or identity).
    Warn,
}

/// The identity fields compared to decide whether an artifact is current.
#[derive(Debug, Clone, PartialEq, Eq)]
pub struct DenoiseIdentity {
    pub source_content_hash: String,
    pub decode_fingerprint: String,
    pub model_name: String,
    pub model_version: String,
    pub model_hash: String,
    pub input_spec_digest: String,
    pub artifact_checksum: String,
}

impl Default for DenoiseIdentity {
    fn default() -> (identity: Self)
        ensures
            identity.source_content_hash@ == Seq::<char>::empty(),
            identity.decode_fingerprint@ == Seq::<char>::empty(),
            identity.model_name@ == Seq::<char>::empty(),
            identity.model_version@ == Seq::<char>::empty(),
            identity.model_hash@ == Seq::<char>::empty(),
            identity.input_spec_digest@ == Seq::<char>::empty(),
            identity.artifact_checksum@ == Seq::<char>::empty(),
    {
        DenoiseIdentity {
            source_content_hash: String::new(),
            decode_fingerprint: String::new(),
            model_name: String::new(),
            model_version: String::new(),
            model_hash: String::new(),
            input_spec_digest: String::new(),
            artifact_checksum: String::new(),
        }
    }
}

/// What the status classification reads of a recipe's denoise stage.
#[derive(Debug, Clone, PartialEq, Eq)]
pub struct DenoiseRequest {
    /// Whether the stage does anything (enabled, with a non-zero strength).
    pub active: bool,
    /// The requested model's name, version and hash.
    pub model_name: String,
    pub model_version: String,
    pub model_hash: String,
    /// The requested input specification.
    pub input_spec_digest: String,
    /// Checksum of the artifact the recipe refers to, if it refers to one.
    pub artifact_checksum: Option<String>,
}

/// The seven identity fields in order.
pub open spec fn identity_fields(identity: DenoiseIdentity) -> Seq<Seq<char>> {
    seq![
        identity.source_content_hash@,
        identity.decode_fingerprint@,
        identity.model_name@,
        identity.model_version@,
        identity.model_hash@,
        identity.input_spec_digest@,
        identity.artifact_checksum@,
    ]
}

/// Whether the recipe's requested model and input specification are the
/// ones of the live context.
pub open spec fn request_matches(request: DenoiseRequest, current: DenoiseIdentity) -> bool {
    &&& current.model_name@ == request.model_name@
    &&& current.model_version@ == request.model_version@
    &&& current.model_hash@ == request.model_hash@
    &&& current.input_spec_digest@ == request.input_spec_digest@
}

/// The status of a denoise stage, in this order: an inactive stage is
/// inactive; a model still pending integration is unavailable; an absent
/// artifact is missing; a checksum other than the recipe's (when it records
/// one) is corrupt; a request or a recorded producer identity that differs
/// from the live context is stale; otherwise the stage is ready.
pub open spec fn denoise_status(
    request: DenoiseRequest,
    pending_model_hash: Seq<char>,
    current: DenoiseIdentity,
    recorded: DenoiseIdentity,
    artifact_present: bool,
) -> DenoiseStageStatus {
    if !request.active {
        DenoiseStageStatus::Inactive
    } else if request.model_hash@ == pending_model_hash {
        DenoiseStageStatus::Unavailable
    } else if !artifact_present {
        DenoiseStageStatus::Missing
    } else if request.artifact_checksum matches Some(checksum) && checksum@.len() > 0 && current.artifact_checksum@
        != checksum@ {
        DenoiseStageStatus::Corrupt
    } else if !request_matches(request, current) || identity_fields(recorded) != identity_fields(current) {
        DenoiseStageStatus::Stale
    } else {
        DenoiseStageStatus::Ready
    }
}

fn same_identity(a: &DenoiseIdentity, b: &DenoiseIdentity) -> (same: bool)
    ensures
        same == (identity_fields(*a) == identity_fields(*b)),
{
    let same = same_text(a.source_content_hash.as_str(), b.source_content_hash.as_str()) && same_text(
        a.decode_fingerprint.as_str(),
        b.decode_fingerprint.as_str(),
    ) && same_text(a.model_name.as_str(), b.model_name.as_str()) && same_text(a.model_version.as_str(), b.model_version.as_str())
        && same_text(a.model_hash.as_str(), b.model_hash.as_str()) && same_text(
        a.input_spec_digest.as_str(),
        b.input_spec_digest.as_str(),
    ) && same_text(a.artifact_checksum.as_str(), b.artifact_checksum.as_str());
    proof {
        if identity_fields(*a) == identity_fields(*b) {
            assert(identity_fields(*a)[0] == identity_fields(*b)[0]);
            assert(identity_fields(*a)[1] == identity_fields(*b)[1]);
            assert(identity_fields(*a)[2] == identity_fields(*b)[2]);
            assert(identity_fields(*a)[3] == identity_fields(*b)[3]);
            assert(identity_fields(*a)[4] == identity_fields(*b)[4]);
            assert(identity_fields(*a)[5] == identity_fields(*b)[5]);
            assert(identity_fields(*a)[6] == identity_fields(*b)[6]);
        }
        if same {
            assert(identity_fields(*a) =~= identity_fields(*b));
        }
    }
    same
}

/// Classifies an active or inactive denoise stage against the live context
/// `current` and the recorded producer identity `recorded`;
/// `pending_model_hash` is the model hash that marks a model still pending
/// integration, and `artifact_present` whether the artifact exists.
pub fn resolve_denoise_status(
    request: &DenoiseRequest,
    pending_model_hash: &str,
    current: &DenoiseIdentity,
    recorded: &DenoiseIdentity,
    artifact_present: bool,
) -> (status: DenoiseStageStatus)
    ensures
        status == denoise_status(*request, pending_model_hash@, *current, *recorded, artifact_present),
{
    if !request.active {
        return DenoiseStageStatus::Inactive;
    }
    if same_text(request.model_hash.as_str(), pending_model_hash) {
        return DenoiseStageStatus::Unavailable;
    }
    if !artifact_present {
        return DenoiseStageStatus::Missing;
    }
    if let Some(checksum) = &request.artifact_checksum {
        if checksum.unicode_len() > 0 && !same_text(current.artifact_checksum.as_str(), checksum.as_str()) {
            return DenoiseStageStatus::Corrupt;
        }
    }
    let requested_model_matches = same_text(current.model_name.as_str(), request.model_name.as_str()) && same_text(
        current.model_version.as_str(),
        request.model_version.as_str(),
    ) && same_text(current.model_hash.as_str(), request.model_hash.as_str());
    let requested_input_spec_matches = same_text(current.input_spec_digest.as_str(), request.input_spec_digest.as_str());
    let recorded_matches = same_identity(recorded, current);
    if !requested_model_matches || !requested_input_spec_matches || !recorded_matches {
        return DenoiseStageStatus::Stale;
    }
    DenoiseStageStatus::Ready
}

/// A stage is only ever ready with an artifact present, a request that
/// matches the live context, and a recorded producer identity equal to the
/// live context on every field: a drifted or absent provenance is never
/// silently ready.
pub proof fn lemma_ready_needs_matching_provenance(
    request: DenoiseRequest,
    pending_model_hash: Seq<char>,
    current: DenoiseIdentity,
    recorded: DenoiseIdentity,
    artifact_present: bool,
)
    requires
        denoise_status(request, pending_model_hash, current, recorded, artifact_present) == DenoiseStageStatus::Ready,
    ensures
        request.active,
        artifact_present,
        request_matches(request, current),
        identity_fields(recorded) == identity_fields(current),
        request.model_hash@ != pending_model_hash,
{
}

/// Caller-resolved state of the stage: status, an optional matching
/// artifact, an explanation for a status that is not ready, and the policy.
#[derive(Debug, Clone)]
pub struct DenoiseStageInput<'a> {
    pub status: DenoiseStageStatus,
    pub artifact: Option<&'a DenoiseRgbArtifact>,
    /// Explanation for a status that is not ready (empty otherwise).
    pub reason: String,
    pub policy: DenoisePolicy,
}

impl<'a> DenoiseStageInput<'a> {
    /// Nothing resolved by the caller; with an active stage this counts as
    /// unavailable.
    pub fn inactive() -> (input: DenoiseStageInput<'a>)
        ensures
            input.status == DenoiseStageStatus::Inactive,
            input.artifact is None,
            input.reason@ == Seq::<char>::empty(),
            input.policy == DenoisePolicy::Strict,
    {
        DenoiseStageInput { status: DenoiseStageStatus::Inactive, artifact: None, reason: String::new(), policy: DenoisePolicy::Strict }
    }

    /// A matching, verified artifact.
    pub fn ready(artifact: &'a DenoiseRgbArtifact) -> (input: DenoiseStageInput<'a>)
        ensures
            input.status == DenoiseStageStatus::Ready,
            input.artifact == Some(artifact),
            input.reason@ == Seq::<char>::empty(),
            input.policy == DenoisePolicy::Strict,
    {
        DenoiseStageInput { status: DenoiseStageStatus::Ready, artifact: Some(artifact), reason: String::new(), policy: DenoisePolicy::Strict }
    }

    /// A visible state that is not ready, with its explanation.
    pub fn non_ready(status: DenoiseStageStatus, reason: &str) -> (input: DenoiseStageInput<'a>)
        ensures
            input.status == status,
            input.artifact is None,
            input.reason@ == reason@,
            input.policy == DenoisePolicy::Strict,
    {
        DenoiseStageInput { status, artifact: None, reason: String::from_str(reason), policy: DenoisePolicy::Strict }
    }

    /// The same input under `policy`.
    pub fn with_policy(self, policy: DenoisePolicy) -> (input: DenoiseStageInput<'a>)
        ensures
            input.status == self.status,
            input.artifact == self.artifact,
            input.reason == self.reason,
            input.policy == policy,
    {
        DenoiseStageInput { policy, ..self }
    }
}

impl<'a> Default for DenoiseStageInput<'a> {
    fn default() -> (input: Self)
        ensures
            input.status == DenoiseStageStatus::Inactive,
            input.artifact is None,
            input.reason@ == Seq::<char>::empty(),
            input.policy == DenoisePolicy::Strict,
    {
        DenoiseStageInput::inactive()
    }
}

/// Outcome of the stage for status reporting.
#[derive(Debug, Clone, PartialEq, Eq, Structural)]
pub struct DenoiseOutcome {
    /// Whether the artifact was blended into the frame.
    pub applied: bool,
    /// The status the stage resolved to.
    pub status: DenoiseStageStatus,
}

/// Handles an active stage that is not ready: a denoise error under the
/// strict policy, a visible not-applied outcome under the warn policy.
pub fn fail_or_fallback(input: &DenoiseStageInput<'_>, status: DenoiseStageStatus, reason: String) -> (result: Result<
    DenoiseOutcome,
    CoreError,
>)
    ensures
        input.policy == DenoisePolicy::Strict ==> (result matches Err(e) && is_denoise_error(e, status, reason@)),
        input.policy == DenoisePolicy::Warn ==> result == Ok::<DenoiseOutcome, CoreError>(
            DenoiseOutcome { applied: false, status },
        ),
{
    match input.policy {
        DenoisePolicy::Strict => Err(CoreError::Denoise { status: String::from_str(status.as_str()), reason }),
        DenoisePolicy::Warn => Ok(DenoiseOutcome { applied: false, status }),
    }
}

/// The explanation used when an active stage was resolved without one.
pub open spec fn unresolved_reason() -> Seq<char> {
    "no denoise artifact resolved for an active denoise_ai stage"@
}

/// The explanation used when a stage resolved as ready carries no artifact.
pub open spec fn missing_artifact_reason() -> Seq<char> {
    "denoise_ai resolved `ready` but carried no artifact"@
}

/// Resolves an active (enabled, non-zero strength) stage: the artifact to
/// blend when the input is ready and carries one; otherwise the strict
/// error or the visible warn outcome. A caller that resolved nothing counts
/// as unavailable.
pub fn resolve_active_stage<'a>(input: &DenoiseStageInput<'a>) -> (result: Result<
    Result<&'a DenoiseRgbArtifact, DenoiseOutcome>,
    CoreError,
>)
    ensures
        ({
            let status = if input.status == DenoiseStageStatus::Inactive {
                DenoiseStageStatus::Unavailable
            } else {
                input.status
            };
            if status != DenoiseStageStatus::Ready {
                let reason = if input.reason@.len() == 0 { unresolved_reason() } else { input.reason@ };
                &&& input.policy == DenoisePolicy::Strict ==> (result matches Err(e) && is_denoise_error(e, status, reason))
                &&& input.policy == DenoisePolicy::Warn ==> result == Ok::<Result<&'a DenoiseRgbArtifact, DenoiseOutcome>, CoreError>(
                    Err(DenoiseOutcome { applied: false, status }),
                )
            } else {
                match input.artifact {
                    Some(artifact) => result == Ok::<Result<&'a DenoiseRgbArtifact, DenoiseOutcome>, CoreError>(Ok(artifact)),
                    None => {
                        &&& input.policy == DenoisePolicy::Strict ==> (result matches Err(e) && is_denoise_error(
                            e,
                            DenoiseStageStatus::Corrupt,
                            missing_artifact_reason(),
                        ))
                        &&& input.policy == DenoisePolicy::Warn ==> result == Ok::<Result<&'a DenoiseRgbArtifact, DenoiseOutcome>, CoreError>(
                            Err(DenoiseOutcome { applied: false, status: DenoiseStageStatus::Corrupt }),
                        )
                    },
                }
            }
        }),
{
    let status = match input.status {
        DenoiseStageStatus::Inactive => DenoiseStageStatus::Unavailable,
        other => other,
    };
    if !matches!(status, DenoiseStageStatus::Ready) {
        let reason = if input.reason.as_str().is_empty() {
            String::from_str("no denoise artifact resolved for an active denoise_ai stage")
        } else {
            input.reason.clone()
        };
        return match fail_or_fallback(input, status, reason) {
            Ok(outcome) => Ok(Err(outcome)),
            Err(error) => Err(error),
        };
    }
    match input.artifact {
        Some(artifact) => Ok(Ok(artifact)),
        None => match fail_or_fallback(
            input,
            DenoiseStageStatus::Corrupt,
            String::from_str("denoise_ai resolved `ready` but carried no artifact"),
        ) {
            Ok(outcome) => Ok(Err(outcome)),
            Err(error) => Err(error),
        },
    }
}

/// One produced tile of a tiled run: a row-major RGB8 block placed at
/// `(x, y)` in the full frame.
#[derive(Debug, Clone, Copy)]
pub struct DenoiseTile<'a> {
    pub x: u32,
    pub y: u32,
    pub width: u32,
    pub height: u32,
    pub pixels: &'a [u8],
}

/// Whether the tile covers frame pixel `(px, py)`.
pub open spec fn tile_covers(tile: DenoiseTile, px: int, py: int) -> bool {
    tile.x <= px < tile.x + tile.width && tile.y <= py < tile.y + tile.height
}

/// The feather weight of a covering tile at `(px, py)`: the distance to the
/// tile's nearest edge plus one.
pub open spec fn tile_weight(tile: DenoiseTile, px: int, py: int) -> int {
    let tx = px - tile.x;
    let ty = py - tile.y;
    let a = if tx < ty { tx } else { ty };
    let b = if tile.width - 1 - tx < tile.height - 1 - ty { tile.width - 1 - tx } else { tile.height - 1 - ty };
    (if a < b { a } else { b }) + 1
}

/// Channel `c` of the tile's sample for frame pixel `(px, py)`.
pub open spec fn tile_sample(tile: DenoiseTile, px: int, py: int, c: int) -> int {
    tile.pixels@[cell(tile.width as int, 3, px - tile.x, py - tile.y, c)] as int
}

/// The summed weights of the tiles covering `(px, py)`.
pub open spec fn weight_total(tiles: Seq<DenoiseTile>, px: int, py: int) -> int
    decreases tiles.len(),
{
    if tiles.len() == 0 {
        0
    } else {
        weight_total(tiles.drop_last(), px, py) + if tile_covers(tiles.last(), px, py) {
            tile_weight(tiles.last(), px, py)
        } else {
            0
        }
    }
}

/// The weighted sum of channel `c` over the tiles covering `(px, py)`.
pub open spec fn weighted_sum(tiles: Seq<DenoiseTile>, px: int, py: int, c: int) -> int
    decreases tiles.len(),
{
    if tiles.len() == 0 {
        0
    } else {
        weighted_sum(tiles.drop_last(), px, py, c) + if tile_covers(tiles.last(), px, py) {
            tile_weight(tiles.last(), px, py) * tile_sample(tiles.last(), px, py, c)
        } else {
            0
        }
    }
}

/// The assembled channel: the exact weighted mean, rounded half up in
/// integers.
pub open spec fn assembled_value(tiles: Seq<DenoiseTile>, px: int, py: int, c: int) -> int {
    (2 * weighted_sum(tiles, px, py, c) + weight_total(tiles, px, py)) / (2 * weight_total(tiles, px, py))
}

/// Whether a tile is usable in a `w` by `h` frame: non-empty, holding
/// exactly its RGB bytes, and inside the frame.
pub open spec fn tile_ok(tile: DenoiseTile, w: int, h: int) -> bool {
    &&& tile.width > 0 && tile.height > 0
    &&& tile.pixels@.len() == tile.width * tile.height * 3
    &&& tile.x + tile.width <= w && tile.y + tile.height <= h
}

/// The explanation for the first check an unusable tile fails.
pub open spec fn tile_fault_text(tile: DenoiseTile, w: int, h: int) -> Seq<char> {
    if tile.width == 0 || tile.height == 0 {
        "denoise tile has zero dimensions"@
    } else if tile.pixels@.len() != tile.width * tile.height * 3 {
        "denoise tile "@ + decimal(tile.width as nat) + "x"@ + decimal(tile.height as nat) + " needs "@ + decimal(
            (tile.width * tile.height * 3) as nat,
        ) + " RGB bytes, got "@ + decimal(tile.pixels@.len())
    } else {
        "denoise tile "@ + decimal(tile.width as nat) + "x"@ + decimal(tile.height as nat) + " at ("@ + decimal(
            tile.x as nat,
        ) + ", "@ + decimal(tile.y as nat) + ") exceeds frame "@ + decimal(w as nat) + "x"@ + decimal(h as nat)
    }
}

/// The explanation for an uncovered pixel.
pub open spec fn uncovered_text(px: int, py: int) -> Seq<char> {
    "denoise tiles do not cover pixel ("@ + decimal(px as nat) + ", "@ + decimal(py as nat) + ")"@
}

/// The outcome of assembling `tiles` into a `width` by `height` artifact.
pub open spec fn assembly_result(
    width: u32,
    height: u32,
    tiles: Seq<DenoiseTile>,
    result: Result<DenoiseRgbArtifact, CoreError>,
) -> bool {
    let w = width as int;
    let h = height as int;
    if w == 0 || h == 0 {
        result matches Err(e) && is_denoise_error(
            e,
            DenoiseStageStatus::Corrupt,
            "denoise tile assembly needs non-zero frame dimensions"@,
        )
    } else if exists|k: int| 0 <= k < tiles.len() && !#[trigger] tile_ok(tiles[k], w, h) {
        forall|k: int|
            0 <= k < tiles.len() && !#[trigger] tile_ok(tiles[k], w, h) && (forall|j: int| 0 <= j < k ==> tile_ok(tiles[j], w, h))
                ==> (result matches Err(e) && is_denoise_error(e, DenoiseStageStatus::Corrupt, tile_fault_text(tiles[k], w, h)))
    } else if exists|px: int, py: int| 0 <= px < w && 0 <= py < h && #[trigger] weight_total(tiles, px, py) == 0 {
        forall|px: int, py: int|
            0 <= px < w && 0 <= py < h && #[trigger] weight_total(tiles, px, py) == 0 && (forall|qx: int, qy: int|
                0 <= qx < w && 0 <= qy < h && (qy < py || (qy == py && qx < px)) ==> weight_total(tiles, qx, qy) > 0)
                ==> (result matches Err(e) && is_denoise_error(e, DenoiseStageStatus::Missing, uncovered_text(px, py)))
    } else {
        result matches Ok(artifact) && artifact.width == width && artifact.height == height && artifact.pixels@.len()
            == w * h * 3 && forall|px: int, py: int, c: int|
            0 <= px < w && 0 <= py < h && 0 <= c < 3 ==> artifact.pixels@[cell(w, 3, px, py, c)] == #[trigger] assembled_value(
                tiles,
                px,
                py,
                c,
            )
    }
}

proof fn lemma_tile_weight_bounds(tile: DenoiseTile, px: int, py: int)
    requires
        tile_covers(tile, px, py),
    ensures
        1 <= tile_weight(tile, px, py) <= 2147483648,
{
}

proof fn lemma_sum_bounds(tiles: Seq<DenoiseTile>, px: int, py: int, c: int)
    ensures
        0 <= weighted_sum(tiles, px, py, c) <= 255 * weight_total(tiles, px, py),
        0 <= weight_total(tiles, px, py) <= 2147483648 * tiles.len(),
    decreases tiles.len(),
{
    if tiles.len() > 0 {
        lemma_sum_bounds(tiles.drop_last(), px, py, c);
        let t = tiles.last();
        if tile_covers(t, px, py) {
            lemma_tile_weight_bounds(t, px, py);
            let wt = tile_weight(t, px, py);
            let v = tile_sample(t, px, py, c);
            assert(0 <= wt * v <= 255 * wt) by (nonlinear_arith)
                requires
                    0 <= v <= 255,
                    wt >= 1,
            ;
        }
    }
}

proof fn lemma_rounded_mean_fits(acc: int, weight: int)
    requires
        weight > 0,
        0 <= acc <= 255 * weight,
    ensures
        0 <= (2 * acc + weight) / (2 * weight) <= 255,
{
    assert(0 <= (2 * acc + weight) / (2 * weight) <= 255) by (nonlinear_arith)
        requires
            weight > 0,
            0 <= acc <= 255 * weight,
    ;
}

/// Whether the cell `(px, py)` of a tile has already been added while the
/// tile is processed up to row `row` and column `col` (tile coordinates).
spec fn tile_cell_done(tile: DenoiseTile, px: int, py: int, row: int, col: int) -> bool {
    py - tile.y < row || (py - tile.y == row && px - tile.x < col)
}

spec fn tile_part(tile: DenoiseTile, px: int, py: int, c: int, row: int, col: int) -> int {
    if tile_covers(tile, px, py) && tile_cell_done(tile, px, py, row, col) {
        tile_weight(tile, px, py) * tile_sample(tile, px, py, c)
    } else {
        0
    }
}

spec fn tile_weight_part(tile: DenoiseTile, px: int, py: int, row: int, col: int) -> int {
    if tile_covers(tile, px, py) && tile_cell_done(tile, px, py, row, col) {
        tile_weight(tile, px, py)
    } else {
        0
    }
}

proof fn lemma_first_fault(all: Seq<DenoiseTile>, k: int, w: int, h: int)
    requires
        0 <= k < all.len(),
        !tile_ok(all[k], w, h),
        forall|j: int| 0 <= j < k ==> tile_ok(#[trigger] all[j], w, h),
    ensures
        exists|j: int| 0 <= j < all.len() && !#[trigger] tile_ok(all[j], w, h),
        forall|j: int|
            0 <= j < all.len() && !#[trigger] tile_ok(all[j], w, h) && (forall|i: int| 0 <= i < j ==> tile_ok(all[i], w, h)) ==> j
                == k,
{
    assert forall|j: int|
        0 <= j < all.len() && !#[trigger] tile_ok(all[j], w, h) && (forall|i: int| 0 <= i < j ==> tile_ok(all[i], w, h)) implies j
            == k by {
        if j > k {
            assert(tile_ok(all[k], w, h));
        }
    }
}

proof fn lemma_first_uncovered(all: Seq<DenoiseTile>, px: int, py: int, w: int, h: int)
    requires
        0 <= px < w,
        0 <= py < h,
        weight_total(all, px, py) == 0,
        forall|qx: int, qy: int| 0 <= qx < w && 0 <= qy < h && (qy < py || (qy == py && qx < px)) ==> #[trigger] weight_total(all, qx, qy) > 0,
    ensures
        exists|qx: int, qy: int| 0 <= qx < w && 0 <= qy < h && #[trigger] weight_total(all, qx, qy) == 0,
        forall|qx: int, qy: int|
            0 <= qx < w && 0 <= qy < h && #[trigger] weight_total(all, qx, qy) == 0 && (forall|rx: int, ry: int|
                0 <= rx < w && 0 <= ry < h && (ry < qy || (ry == qy && rx < qx)) ==> weight_total(all, rx, ry) > 0) ==> qx == px && qy == py,
{
    assert forall|qx: int, qy: int|
        0 <= qx < w && 0 <= qy < h && #[trigger] weight_total(all, qx, qy) == 0 && (forall|rx: int, ry: int|
            0 <= rx < w && 0 <= ry < h && (ry < qy || (ry == qy && rx < qx)) ==> weight_total(all, rx, ry) > 0) implies qx == px && qy
        == py by {
        if qy < py || (qy == py && qx < px) {
        } else if !(qx == px && qy == py) {
            assert(weight_total(all, px, py) > 0);
        }
    }
}

fn corrupt(reason: String) -> (error: CoreError)
    ensures
        is_denoise_error(error, DenoiseStageStatus::Corrupt, reason@),
{
    CoreError::Denoise { status: String::from_str(DenoiseStageStatus::Corrupt.as_str()), reason }
}

fn zeros_u128(n: usize) -> (v: Vec<u128>)
    ensures
        v@.len() == n,
        forall|i: int| 0 <= i < n ==> #[trigger] v@[i] == 0,
{
    let mut v: Vec<u128> = Vec::new();
    while v.len() < n
        invariant
            v@.len() <= n,
            forall|i: int| 0 <= i < v@.len() ==> #[trigger] v@[i] == 0,
        decreases n - v@.len(),
    {
        v.push(0);
    }
    v
}

/// Assembles a full-frame RGB8 artifact from overlapping tiles. Each pixel
/// is the weighted mean of every covering tile, with a tile's weight the
/// distance to its nearest edge plus one, so constant tiles reconstruct
/// exactly and overlaps crossfade without seams. Tiles must be usable and
/// inside the frame and cover it completely; the first unusable tile, or
/// else the first uncovered pixel, is a denoise error.
///
/// The mean is taken exactly, as the rational weighted sum over the summed
/// weight, and rounded half up in integers (`(2 * sum + total) / (2 *
/// total)`). A single-precision division followed by rounding, as a
/// floating-point implementation would do, can land on the other side of
/// one half where the exact quotient lies within rounding error of it, so
/// such an implementation may differ from this one by one in a channel
/// there; everywhere else the two agree.
pub fn assemble_denoise_tiles(width: u32, height: u32, tiles: &[DenoiseTile<'_>]) -> (result: Result<DenoiseRgbArtifact, CoreError>)
    requires
        width * height * 3 <= usize::MAX,
        forall|k: int| 0 <= k < tiles@.len() ==> (#[trigger] tiles@[k]).width * tiles@[k].height * 3 <= usize::MAX,
    ensures
        assembly_result(width, height, tiles@, result),
{
    if width == 0 || height == 0 {
        return Err(corrupt(String::from_str("denoise tile assembly needs non-zero frame dimensions")));
    }
    let w = width as usize;
    let h = height as usize;
    let ghost wi = w as int;
    let ghost hi = h as int;
    let ghost all = tiles@;
    let mut accum = zeros_u128(w * h * 3);
    let mut weights = zeros_u128(w * h);
    proof {
        assert forall|px: int, py: int, c: int| 0 <= px < wi && 0 <= py < hi && 0 <= c < 3 implies #[trigger] accum@[cell(wi, 3, px, py, c)]
            == weighted_sum(all.subrange(0, 0), px, py, c) by {
            lemma_cell_bounds(wi, hi, 3, px, py, c);
        }
        assert forall|px: int, py: int| 0 <= px < wi && 0 <= py < hi implies #[trigger] weights@[cell(wi, 1, px, py, 0)]
            == weight_total(all.subrange(0, 0), px, py) by {
            lemma_cell_bounds(wi, hi, 1, px, py, 0);
        }
    }
    let tile_count = tiles.len();
    proof {
        assert(all.len() == tile_count);
    }
    let mut k: usize = 0;
    while k < tiles.len()
        invariant
            w == width,
            h == height,
            wi == w,
            hi == h,
            w > 0 && h > 0,
            w * h * 3 <= usize::MAX,
            all == tiles@,
            all.len() <= usize::MAX,
            forall|j: int| 0 <= j < all.len() ==> (#[trigger] all[j]).width * all[j].height * 3 <= usize::MAX,
            k <= all.len(),
            accum@.len() == w * h * 3,
            weights@.len() == w * h,
            forall|j: int| 0 <= j < k ==> tile_ok(#[trigger] all[j], wi, hi),
            forall|px: int, py: int, c: int| 0 <= px < wi && 0 <= py < hi && 0 <= c < 3 ==> #[trigger] accum@[cell(wi, 3, px, py, c)]
                == weighted_sum(all.subrange(0, k as int), px, py, c),
            forall|px: int, py: int| 0 <= px < wi && 0 <= py < hi ==> #[trigger] weights@[cell(wi, 1, px, py, 0)]
                == weight_total(all.subrange(0, k as int), px, py),
        decreases all.len() - k,
    {
        let tile = tiles[k];
        if tile.width == 0 || tile.height == 0 {
            proof {
                lemma_first_fault(all, k as int, wi, hi);
            }
            return Err(corrupt(String::from_str("denoise tile has zero dimensions")));
        }
        let expected = tile.width as usize * tile.height as usize * 3;
        if tile.pixels.len() != expected {
            let mut reason = String::from_str("denoise tile ");
            push_decimal(&mut reason, tile.width as u64);
            reason.append("x");
            push_decimal(&mut reason, tile.height as u64);
            reason.append(" needs ");
            push_decimal(&mut reason, expected as u64);
            reason.append(" RGB bytes, got ");
            push_decimal(&mut reason, tile.pixels.len() as u64);
            proof {
                lemma_first_fault(all, k as int, wi, hi);
            }
            return Err(corrupt(reason));
        }
        if tile.x as u64 + tile.width as u64 > w as u64 || tile.y as u64 + tile.height as u64 > h as u64 {
            let mut reason = String::from_str("denoise tile ");
            push_decimal(&mut reason, tile.width as u64);
            reason.append("x");
            push_decimal(&mut reason, tile.height as u64);
            reason.append(" at (");
            push_decimal(&mut reason, tile.x as u64);
            reason.append(", ");
            push_decimal(&mut reason, tile.y as u64);
            reason.append(") exceeds frame ");
            push_decimal(&mut reason, w as u64);
            reason.append("x");
            push_decimal(&mut reason, h as u64);
            proof {
                lemma_first_fault(all, k as int, wi, hi);
            }
            return Err(corrupt(reason));
        }
        let ghost prefix = all.subrange(0, k as int);
        let ghost t = all[k as int];
        proof {
            assert(tile_ok(t, wi, hi));
            assert(all.subrange(0, k + 1).drop_last() =~= prefix);
            assert(all.subrange(0, k + 1).last() == t);
        }
        let tw = tile.width as usize;
        let th = tile.height as usize;
        let tx0 = tile.x as usize;
        let ty0 = tile.y as usize;
        let mut ty: usize = 0;
        while ty < th
            invariant
                w == width,
                h == height,
                wi == w,
                hi == h,
                w > 0 && h > 0,
                w * h * 3 <= usize::MAX,
                all == tiles@,
                all.len() <= usize::MAX,
                k < all.len(),
                t == all[k as int],
                tile == t,
                prefix == all.subrange(0, k as int),
                tile_ok(t, wi, hi),
                t.width * t.height * 3 <= usize::MAX,
                tw == t.width,
                th == t.height,
                tx0 == t.x,
                ty0 == t.y,
                ty <= th,
                accum@.len() == w * h * 3,
                weights@.len() == w * h,
                forall|px: int, py: int, c: int| 0 <= px < wi && 0 <= py < hi && 0 <= c < 3 ==> #[trigger] accum@[cell(wi, 3, px, py, c)]
                    == weighted_sum(prefix, px, py, c) + tile_part(t, px, py, c, ty as int, 0),
                forall|px: int, py: int| 0 <= px < wi && 0 <= py < hi ==> #[trigger] weights@[cell(wi, 1, px, py, 0)]
                    == weight_total(prefix, px, py) + tile_weight_part(t, px, py, ty as int, 0),
            decreases th - ty,
        {
            let mut tx: usize = 0;
            while tx < tw
                invariant
                    w == width,
                    h == height,
                    wi == w,
                    hi == h,
                    w > 0 && h > 0,
                    w * h * 3 <= usize::MAX,
                    k < all.len(),
                    all.len() <= usize::MAX,
                    t == all[k as int],
                    tile == t,
                    prefix == all.subrange(0, k as int),
                    tile_ok(t, wi, hi),
                    t.width * t.height * 3 <= usize::MAX,
                    tw == t.width,
                    th == t.height,
                    tx0 == t.x,
                    ty0 == t.y,
                    ty < th,
                    tx <= tw,
                    accum@.len() == w * h * 3,
                    weights@.len() == w * h,
                    forall|px: int, py: int, c: int| 0 <= px < wi && 0 <= py < hi && 0 <= c < 3 ==> #[trigger] accum@[cell(wi, 3, px, py, c)]
                        == weighted_sum(prefix, px, py, c) + tile_part(t, px, py, c, ty as int, tx as int),
                    forall|px: int, py: int| 0 <= px < wi && 0 <= py < hi ==> #[trigger] weights@[cell(wi, 1, px, py, 0)]
                        == weight_total(prefix, px, py) + tile_weight_part(t, px, py, ty as int, tx as int),
                decreases tw - tx,
            {
                let px = tx0 + tx;
                let py = ty0 + ty;
                let ghost pxi = px as int;
                let ghost pyi = py as int;
                let a = if tx < ty { tx } else { ty };
                let b = if tw - 1 - tx < th - 1 - ty { tw - 1 - tx } else { th - 1 - ty };
                let edge = if a < b { a } else { b };
                let weight = (edge + 1) as u128;
                proof {
                    assert(tile_covers(t, pxi, pyi));
                    assert(weight == tile_weight(t, pxi, pyi));
                    lemma_tile_weight_bounds(t, pxi, pyi);
                    lemma_cell_bounds(wi, hi, 3, pxi, pyi, 0);
                    lemma_cell_bounds(wi, hi, 3, pxi, pyi, 2);
                    lemma_cell_bounds(wi, hi, 1, pxi, pyi, 0);
                    lemma_cell_bounds(tw as int, th as int, 3, tx as int, ty as int, 0);
                    lemma_cell_bounds(tw as int, th as int, 3, tx as int, ty as int, 2);
                    lemma_sum_bounds(prefix, pxi, pyi, 0);
                    lemma_sum_bounds(prefix, pxi, pyi, 1);
                    lemma_sum_bounds(prefix, pxi, pyi, 2);
                    assert(!tile_cell_done(t, pxi, pyi, ty as int, tx as int));
                    assert(255 * 2147483648 * prefix.len() + 255 * 2147483648 <= u128::MAX) by (nonlinear_arith)
                        requires
                            prefix.len() < usize::MAX,
                    ;
                    assert(255 * weight_total(prefix, pxi, pyi) <= 255 * 2147483648 * prefix.len()) by (nonlinear_arith)
                        requires
                            weight_total(prefix, pxi, pyi) <= 2147483648 * prefix.len(),
                    ;
                }
                let src = (ty * tw + tx) * 3;
                let dst = (py * w + px) * 3;
                let widx = py * w + px;
                let ghost acc0 = accum@;
                let ghost wts0 = weights@;
                let s0 = tile.pixels[src] as u128;
                let s1 = tile.pixels[src + 1] as u128;
                let s2 = tile.pixels[src + 2] as u128;
                proof {
                    assert(s0 == tile_sample(t, pxi, pyi, 0));
                    assert(s1 == tile_sample(t, pxi, pyi, 1));
                    assert(s2 == tile_sample(t, pxi, pyi, 2));
                    assert(weight * s0 <= 255 * 2147483648 && weight * s1 <= 255 * 2147483648 && weight * s2 <= 255
                        * 2147483648) by (nonlinear_arith)
                        requires
                            1 <= weight <= 2147483648,
                            s0 <= 255,
                            s1 <= 255,
                            s2 <= 255,
                    ;
                    assert(accum@[cell(wi, 3, pxi, pyi, 0)] == weighted_sum(prefix, pxi, pyi, 0));
                    assert(accum@[cell(wi, 3, pxi, pyi, 1)] == weighted_sum(prefix, pxi, pyi, 1));
                    assert(accum@[cell(wi, 3, pxi, pyi, 2)] == weighted_sum(prefix, pxi, pyi, 2));
                    assert(weights@[cell(wi, 1, pxi, pyi, 0)] == weight_total(prefix, pxi, pyi));
                }
                let v0 = accum[dst] + weight * s0;
                accum.set(dst, v0);
                let v1 = accum[dst + 1] + weight * s1;
                accum.set(dst + 1, v1);
                let v2 = accum[dst + 2] + weight * s2;
                accum.set(dst + 2, v2);
                let wv = weights[widx] + weight;
                weights.set(widx, wv);
                proof {
                    assert forall|qx: int, qy: int, c: int| 0 <= qx < wi && 0 <= qy < hi && 0 <= c < 3 implies #[trigger] accum@[cell(wi, 3, qx, qy, c)]
                        == weighted_sum(prefix, qx, qy, c) + tile_part(t, qx, qy, c, ty as int, tx + 1) by {
                        lemma_cell_bounds(wi, hi, 3, qx, qy, c);
                        if qx == pxi && qy == pyi {
                            assert(cell(wi, 3, qx, qy, c) == dst + c);
                        } else {
                            if cell(wi, 3, qx, qy, c) == cell(wi, 3, pxi, pyi, 0) {
                                lemma_cell_injective(wi, 3, qx, qy, c, pxi, pyi, 0);
                            }
                            if cell(wi, 3, qx, qy, c) == cell(wi, 3, pxi, pyi, 1) {
                                lemma_cell_injective(wi, 3, qx, qy, c, pxi, pyi, 1);
                            }
                            if cell(wi, 3, qx, qy, c) == cell(wi, 3, pxi, pyi, 2) {
                                lemma_cell_injective(wi, 3, qx, qy, c, pxi, pyi, 2);
                            }
                            assert(accum@[cell(wi, 3, qx, qy, c)] == acc0[cell(wi, 3, qx, qy, c)]);
                        }
                    }
                    assert forall|qx: int, qy: int| 0 <= qx < wi && 0 <= qy < hi implies #[trigger] weights@[cell(wi, 1, qx, qy, 0)]
                        == weight_total(prefix, qx, qy) + tile_weight_part(t, qx, qy, ty as int, tx + 1) by {
                        lemma_cell_bounds(wi, hi, 1, qx, qy, 0);
                        if !(qx == pxi && qy == pyi) {
                            if cell(wi, 1, qx, qy, 0) == cell(wi, 1, pxi, pyi, 0) {
                                lemma_cell_injective(wi, 1, qx, qy, 0, pxi, pyi, 0);
                            }
                            assert(weights@[cell(wi, 1, qx, qy, 0)] == wts0[cell(wi, 1, qx, qy, 0)]);
                        }
                    }
                }
                tx += 1;
            }
            proof {
                assert forall|px: int, py: int, c: int| 0 <= px < wi && 0 <= py < hi && 0 <= c < 3 implies tile_part(t, px, py, c, ty as int, tw as int)
                    == #[trigger] tile_part(t, px, py, c, ty + 1, 0) by {}
                assert forall|px: int, py: int| 0 <= px < wi && 0 <= py < hi implies tile_weight_part(t, px, py, ty as int, tw as int)
                    == #[trigger] tile_weight_part(t, px, py, ty + 1, 0) by {}
            }
            ty += 1;
        }
        proof {
            assert forall|px: int, py: int, c: int| 0 <= px < wi && 0 <= py < hi && 0 <= c < 3 implies #[trigger] accum@[cell(wi, 3, px, py, c)]
                == weighted_sum(all.subrange(0, k + 1), px, py, c) by {
                assert(tile_part(t, px, py, c, th as int, 0) == if tile_covers(t, px, py) {
                    tile_weight(t, px, py) * tile_sample(t, px, py, c)
                } else {
                    0
                });
            }
            assert forall|px: int, py: int| 0 <= px < wi && 0 <= py < hi implies #[trigger] weights@[cell(wi, 1, px, py, 0)]
                == weight_total(all.subrange(0, k + 1), px, py) by {
                assert(tile_weight_part(t, px, py, th as int, 0) == if tile_covers(t, px, py) {
                    tile_weight(t, px, py)
                } else {
                    0
                });
            }
        }
        k += 1;
    }
    proof {
        assert(all.subrange(0, all.len() as int) =~= all);
        assert(forall|j: int| 0 <= j < all.len() ==> tile_ok(#[trigger] all[j], wi, hi));
    }
    let mut pixels: Vec<u8> = Vec::new();
    let mut py: usize = 0;
    while py < h
        invariant
            w == width,
            h == height,
            wi == w,
            hi == h,
            w > 0 && h > 0,
            w * h * 3 <= usize::MAX,
                all.len() <= usize::MAX,
            all == tiles@,
            forall|j: int| 0 <= j < all.len() ==> tile_ok(#[trigger] all[j], wi, hi),
            py <= h,
            accum@.len() == w * h * 3,
            weights@.len() == w * h,
            forall|px: int, qy: int, c: int| 0 <= px < wi && 0 <= qy < hi && 0 <= c < 3 ==> #[trigger] accum@[cell(wi, 3, px, qy, c)]
                == weighted_sum(all, px, qy, c),
            forall|px: int, qy: int| 0 <= px < wi && 0 <= qy < hi ==> #[trigger] weights@[cell(wi, 1, px, qy, 0)] == weight_total(all, px, qy),
            pixels@.len() == py * w * 3,
            forall|qx: int, qy: int| 0 <= qx < wi && 0 <= qy < py ==> #[trigger] weight_total(all, qx, qy) > 0,
            forall|qx: int, qy: int, c: int| 0 <= qx < wi && 0 <= qy < py && 0 <= c < 3 ==> pixels@[cell(wi, 3, qx, qy, c)]
                == #[trigger] assembled_value(all, qx, qy, c),
        decreases h - py,
    {
        let mut px: usize = 0;
        while px < w
            invariant
                w == width,
                h == height,
                wi == w,
                hi == h,
                w > 0 && h > 0,
                w * h * 3 <= usize::MAX,
                all.len() <= usize::MAX,
                all == tiles@,
                forall|j: int| 0 <= j < all.len() ==> tile_ok(#[trigger] all[j], wi, hi),
                py < h,
                px <= w,
                accum@.len() == w * h * 3,
                weights@.len() == w * h,
                forall|qx: int, qy: int, c: int| 0 <= qx < wi && 0 <= qy < hi && 0 <= c < 3 ==> #[trigger] accum@[cell(wi, 3, qx, qy, c)]
                    == weighted_sum(all, qx, qy, c),
                forall|qx: int, qy: int| 0 <= qx < wi && 0 <= qy < hi ==> #[trigger] weights@[cell(wi, 1, qx, qy, 0)] == weight_total(all, qx, qy),
                pixels@.len() == (py * w + px) * 3,
                forall|qx: int, qy: int| 0 <= qx < wi && 0 <= qy < hi && (qy < py || (qy == py && qx < px)) ==> #[trigger] weight_total(all, qx, qy) > 0,
                forall|qx: int, qy: int, c: int| 0 <= qx < wi && 0 <= qy < hi && (qy < py || (qy == py && qx < px)) && 0 <= c < 3 ==> pixels@[cell(wi, 3, qx, qy, c)]
                    == #[trigger] assembled_value(all, qx, qy, c),
            decreases w - px,
        {
            proof {
                lemma_cell_bounds(wi, hi, 1, px as int, py as int, 0);
                lemma_cell_bounds(wi, hi, 3, px as int, py as int, 0);
                lemma_cell_bounds(wi, hi, 3, px as int, py as int, 2);
            }
            let index = py * w + px;
            let weight = weights[index];
            if weight == 0 {
                proof {
                    assert(weight_total(all, px as int, py as int) == 0);
                    lemma_first_uncovered(all, px as int, py as int, wi, hi);
                }
                let mut reason = String::from_str("denoise tiles do not cover pixel (");
                push_decimal(&mut reason, px as u64);
                reason.append(", ");
                push_decimal(&mut reason, py as u64);
                reason.append(")");
                return Err(CoreError::Denoise { status: String::from_str(DenoiseStageStatus::Missing.as_str()), reason });
            }
            let ghost before = pixels@;
            proof {
                assert(cell(wi, 3, px as int, py as int, 2) == index * 3 + 2);
            }
            let mut c: usize = 0;
            while c < 3
                invariant
                    w == width,
                    wi == w,
                    hi == h,
                    py < h,
                    px < w,
                    c <= 3,
                    index == py * w + px,
                    index * 3 + 2 < w * h * 3,
                    w * h * 3 <= usize::MAX,
                all.len() <= usize::MAX,
                    accum@.len() == w * h * 3,
                    weight == weight_total(all, px as int, py as int),
                    weight > 0,
                    forall|qx: int, qy: int, cc: int| 0 <= qx < wi && 0 <= qy < hi && 0 <= cc < 3 ==> #[trigger] accum@[cell(wi, 3, qx, qy, cc)]
                        == weighted_sum(all, qx, qy, cc),
                    pixels@.len() == (py * w + px) * 3 + c,
                    pixels@.subrange(0, before.len() as int) == before,
                    before.len() == (py * w + px) * 3,
                    forall|cc: int| 0 <= cc < c ==> pixels@[before.len() + cc] == #[trigger] assembled_value(all, px as int, py as int, cc),
                decreases 3 - c,
            {
                proof {
                    lemma_cell_bounds(wi, hi, 3, px as int, py as int, c as int);
                    lemma_sum_bounds(all, px as int, py as int, c as int);
                }
                let acc = accum[index * 3 + c];
                proof {
                    assert(acc == weighted_sum(all, px as int, py as int, c as int));
                    lemma_rounded_mean_fits(acc as int, weight as int);
                    assert(2 * acc + weight <= u128::MAX && 2 * weight <= u128::MAX) by (nonlinear_arith)
                        requires
                            acc <= 255 * weight,
                            weight <= 2147483648 * all.len(),
                            all.len() <= usize::MAX,
                    ;
                }
                let value = ((2 * (acc as u128) + weight as u128) / (2 * (weight as u128))) as u8;
                let ghost prior = pixels@;
                pixels.push(value);
                proof {
                    assert(pixels@.subrange(0, before.len() as int) =~= prior.subrange(0, before.len() as int));
                    assert forall|cc: int| 0 <= cc < c + 1 implies pixels@[before.len() + cc] == #[trigger] assembled_value(all, px as int, py as int, cc) by {
                        if cc < c {
                            assert(pixels@[before.len() + cc] == prior[before.len() + cc]);
                        }
                    }
                }
                c += 1;
            }
            proof {
                assert forall|qx: int, qy: int, cc: int| 0 <= qx < wi && 0 <= qy < hi && (qy < py || (qy == py && qx < px + 1)) && 0 <= cc < 3 implies pixels@[cell(wi, 3, qx, qy, cc)]
                    == #[trigger] assembled_value(all, qx, qy, cc) by {
                    lemma_cell_bounds(wi, hi, 3, qx, qy, cc);
                    if qx == px && qy == py {
                        assert(cell(wi, 3, qx, qy, cc) == before.len() + cc);
                    } else {
                        assert(cell(wi, 3, qx, qy, cc) < before.len()) by (nonlinear_arith)
                            requires
                                0 <= qx < wi,
                                0 <= cc < 3,
                                qy < py || (qy == py && qx < px),
                                0 <= qy,
                                before.len() == (py * wi + px) * 3,
                                cell(wi, 3, qx, qy, cc) == (qy * wi + qx) * 3 + cc,
                        ;
                        assert(pixels@[cell(wi, 3, qx, qy, cc)] == pixels@.subrange(0, before.len() as int)[cell(wi, 3, qx, qy, cc)]);
                    }
                }
            }
            px += 1;
        }
        proof {
            assert((py * wi + wi) * 3 == (py + 1) * wi * 3) by (nonlinear_arith);
        }
        py += 1;
    }
    proof {
        assert(pixels@.len() == width * height * 3) by (nonlinear_arith)
            requires
                pixels@.len() == hi * wi * 3,
                wi == width,
                hi == height,
        ;
        assert(!exists|qx: int, qy: int| 0 <= qx < wi && 0 <= qy < hi && #[trigger] weight_total(all, qx, qy) == 0);
    }
    match DenoiseRgbArtifact::new(width, height, pixels) {
        Ok(artifact) => Ok(artifact),
        Err(error) => Err(error),
    }
}

proof fn lemma_sum_between(tiles: Seq<DenoiseTile>, px: int, py: int, c: int, lo: int, hi: int)
    requires
        forall|k: int| 0 <= k < tiles.len() && tile_covers(#[trigger] tiles[k], px, py) ==> lo <= tile_sample(tiles[k], px, py, c) <= hi,
    ensures
        lo * weight_total(tiles, px, py) <= weighted_sum(tiles, px, py, c) <= hi * weight_total(tiles, px, py),
    decreases tiles.len(),
{
    if tiles.len() > 0 {
        let rest = tiles.drop_last();
        assert forall|k: int| 0 <= k < rest.len() && tile_covers(#[trigger] rest[k], px, py) implies lo <= tile_sample(rest[k], px, py, c) <= hi by {
            assert(rest[k] == tiles[k]);
        }
        lemma_sum_between(rest, px, py, c, lo, hi);
        let t = tiles.last();
        if tile_covers(t, px, py) {
            assert(tiles[tiles.len() - 1] == t);
            let wt = tile_weight(t, px, py);
            let v = tile_sample(t, px, py, c);
            lemma_tile_weight_bounds(t, px, py);
            assert(lo * wt <= wt * v <= hi * wt) by (nonlinear_arith)
                requires
                    lo <= v <= hi,
                    wt >= 1,
            ;
            assert(lo * weight_total(tiles, px, py) == lo * weight_total(rest, px, py) + lo * wt) by (nonlinear_arith)
                requires
                    weight_total(tiles, px, py) == weight_total(rest, px, py) + wt,
            ;
            assert(hi * weight_total(tiles, px, py) == hi * weight_total(rest, px, py) + hi * wt) by (nonlinear_arith)
                requires
                    weight_total(tiles, px, py) == weight_total(rest, px, py) + wt,
            ;
        }
    }
}

/// Every assembled channel lies within the range of the covering tiles'
/// samples for that pixel; in particular tiles that agree on a pixel (a
/// constant field) reconstruct it exactly, so overlaps never introduce a
/// seam value outside what the tiles hold.
pub proof fn lemma_assembled_within_samples(tiles: Seq<DenoiseTile>, px: int, py: int, c: int, lo: int, hi: int)
    requires
        weight_total(tiles, px, py) > 0,
        forall|k: int| 0 <= k < tiles.len() && tile_covers(#[trigger] tiles[k], px, py) ==> lo <= tile_sample(tiles[k], px, py, c) <= hi,
    ensures
        lo <= assembled_value(tiles, px, py, c) <= hi,
{
    lemma_sum_between(tiles, px, py, c, lo, hi);
    let s = weighted_sum(tiles, px, py, c);
    let wt = weight_total(tiles, px, py);
    assert(lo <= (2 * s + wt) / (2 * wt) <= hi) by (nonlinear_arith)
        requires
            wt > 0,
            lo * wt <= s <= hi * wt,
    ;
}

} // verus!
