//! The fixed stage order of the render pipeline and the render identity
//! (`RenderKey`) whose per-stage digests decide which cached results can be
//! shared between renders.
use crate::cache::CacheStage;
use crate::frame::{spec_default_extension, BitDepth, ExportOptions};
use crate::hashing::{blake3_hex, blake3_hex_digest, le_u32, le_u64, lemma_le_u32_injective, lemma_middle_equal, lemma_utf8_injective, push_byte, push_bytes, push_str, push_u32_le, push_u64_le, utf8};
use vstd::prelude::*;

verus! {

/// Pixel formats flowing between pipeline stages.
#[derive(Debug, Clone, Copy, PartialEq, Eq, Structural)]
pub enum PipelineFormat {
    EncodedSource,
    LinearProPhotoRgb,
    Rgba8Srgb,
    Output,
}

/// The stages of the render pipeline.
#[derive(Debug, Clone, Copy, PartialEq, Eq, Structural)]
pub enum PipelineStage {
    Decode,
    SourceActions,
    AutoAnalysis,
    Adjustments,
    Masks,
    Crop,
    Output,
}

/// An ordered list of `(stage, input format, output format)`.
#[derive(Debug, Clone, PartialEq, Eq)]
pub struct Pipeline {
    stages: Vec<(PipelineStage, PipelineFormat, PipelineFormat)>,
}

/// The documented stage order with its formats.
pub open spec fn default_stages() -> Seq<(PipelineStage, PipelineFormat, PipelineFormat)> {
    seq![
        (PipelineStage::Decode, PipelineFormat::EncodedSource, PipelineFormat::Rgba8Srgb),
        (PipelineStage::SourceActions, PipelineFormat::Rgba8Srgb, PipelineFormat::Rgba8Srgb),
        (PipelineStage::AutoAnalysis, PipelineFormat::Rgba8Srgb, PipelineFormat::Rgba8Srgb),
        (PipelineStage::Adjustments, PipelineFormat::Rgba8Srgb, PipelineFormat::Rgba8Srgb),
        (PipelineStage::Masks, PipelineFormat::Rgba8Srgb, PipelineFormat::Rgba8Srgb),
        (PipelineStage::Crop, PipelineFormat::Rgba8Srgb, PipelineFormat::Rgba8Srgb),
        (PipelineStage::Output, PipelineFormat::Rgba8Srgb, PipelineFormat::Output),
    ]
}

/// Every stage consumes the format its predecessor produces.
pub open spec fn formats_chain(stages: Seq<(PipelineStage, PipelineFormat, PipelineFormat)>) -> bool {
    forall|i: int| 0 <= i < stages.len() - 1 ==> (#[trigger] stages[i]).2 == stages[i + 1].1
}

impl Pipeline {
    pub closed spec fn spec_stages(&self) -> Seq<(PipelineStage, PipelineFormat, PipelineFormat)> {
        self.stages@
    }

    pub fn stages(&self) -> (stages: &[(PipelineStage, PipelineFormat, PipelineFormat)])
        ensures
            stages@ == self.spec_stages(),
    {
        self.stages.as_slice()
    }

    /// Whether every stage consumes the format its predecessor produces.
    pub fn validate(&self) -> (valid: bool)
        ensures
            valid == formats_chain(self.spec_stages()),
    {
        let n = self.stages.len();
        if n < 2 {
            return true;
        }
        let mut i: usize = 0;
        while i + 1 < n
            invariant
                n == self.stages@.len(),
                n >= 2,
                i + 1 <= n,
                forall|k: int| 0 <= k < i ==> (#[trigger] self.stages@[k]).2 == self.stages@[k + 1].1,
            decreases n - i,
        {
            if self.stages[i].2 != self.stages[i + 1].1 {
                return false;
            }
            i += 1;
        }
        true
    }
}

impl Default for Pipeline {
    fn default() -> (pipeline: Self)
        ensures
            pipeline.spec_stages() == default_stages(),
    {
        let mut stages = Vec::new();
        stages.push((PipelineStage::Decode, PipelineFormat::EncodedSource, PipelineFormat::Rgba8Srgb));
        stages.push((PipelineStage::SourceActions, PipelineFormat::Rgba8Srgb, PipelineFormat::Rgba8Srgb));
        stages.push((PipelineStage::AutoAnalysis, PipelineFormat::Rgba8Srgb, PipelineFormat::Rgba8Srgb));
        stages.push((PipelineStage::Adjustments, PipelineFormat::Rgba8Srgb, PipelineFormat::Rgba8Srgb));
        stages.push((PipelineStage::Masks, PipelineFormat::Rgba8Srgb, PipelineFormat::Rgba8Srgb));
        stages.push((PipelineStage::Crop, PipelineFormat::Rgba8Srgb, PipelineFormat::Rgba8Srgb));
        stages.push((PipelineStage::Output, PipelineFormat::Rgba8Srgb, PipelineFormat::Output));
        proof {
            assert(stages@ =~= default_stages());
        }
        Pipeline { stages }
    }
}

/// The default pipeline's stages chain their formats.
pub proof fn lemma_default_pipeline_is_valid()
    ensures
        formats_chain(default_stages()),
{
}

/// A source action applied right after decode.
#[derive(Debug, Clone, PartialEq, Eq)]
pub enum SourceAction {
    DustRemoval { artifact_hash: String },
    AiReplacement { artifact_hash: String },
}

/// Output parameters that participate in the render identity.
#[derive(Debug, Clone, PartialEq, Eq)]
pub struct OutputSpec {
    pub profile: String,
    pub width: u32,
    pub height: u32,
    pub format: String,
}

/// The identity of one render. Each cache stage is keyed by the digest of
/// the part of the identity that stage depends on.
#[derive(Debug, Clone, PartialEq, Eq)]
pub struct RenderKey {
    pub source_content_hash: String,
    pub decode_version: String,
    pub pipeline_version: String,
    pub virtual_copy_id: String,
    pub recipe_hash: String,
    /// Digest of the recipe without geometry/output fields (the mask identity).
    pub mask_recipe_hash: String,
    pub mask_artifact_hashes: Vec<String>,
    /// Checksums of the resolved source-action artifacts the render applied.
    pub source_action_artifact_hashes: Vec<String>,
    pub output: OutputSpec,
    /// Full encoder parameters; `None` for a plain frame render.
    pub export_options: Option<ExportOptions>,
    /// Canonical digest of the ordered local mask-layer state, if attached.
    pub mask_local_state_digest: Option<String>,
}

/// The digest scopes of a render identity.
#[derive(Debug, Clone, Copy, PartialEq, Eq, Structural)]
pub enum DigestScope {
    Decode,
    Mask,
    Histogram,
    Render,
}

/// The scope that keys a cache stage (preview and export share the render scope).
pub open spec fn scope_of(stage: CacheStage) -> DigestScope {
    match stage {
        CacheStage::Decode => DigestScope::Decode,
        CacheStage::Mask => DigestScope::Mask,
        CacheStage::Histogram => DigestScope::Histogram,
        CacheStage::Preview => DigestScope::Render,
        CacheStage::Export => DigestScope::Render,
    }
}

/// ASCII name of a scope, the first part of its digest message.
pub open spec fn scope_tag(scope: DigestScope) -> Seq<u8> {
    match scope {
        DigestScope::Decode => seq![100u8, 101, 99, 111, 100, 101],
        DigestScope::Mask => seq![109u8, 97, 115, 107],
        DigestScope::Histogram => seq![104u8, 105, 115, 116, 111, 103, 114, 97, 109],
        DigestScope::Render => seq![114u8, 101, 110, 100, 101, 114],
    }
}

/// UTF-8 bytes of `s` followed by a NUL separator.
pub open spec fn nul_terminated(s: Seq<char>) -> Seq<u8> {
    utf8(s) + seq![0u8]
}

/// Each string of `items`, NUL-terminated, in order.
pub open spec fn nul_list(items: Seq<String>) -> Seq<u8>
    decreases items.len(),
{
    if items.len() == 0 {
        Seq::empty()
    } else {
        nul_list(items.drop_last()) + nul_terminated(items.last()@)
    }
}

/// Optional digest: `0` when absent, otherwise `1`, the digest and a NUL.
pub open spec fn optional_part(digest: Option<String>) -> Seq<u8> {
    match digest {
        None => seq![0u8],
        Some(value) => seq![1u8] + nul_terminated(value@),
    }
}

/// The encoder parameters' contribution to the render message.
pub open spec fn export_part(options: Option<ExportOptions>) -> Seq<u8> {
    match options {
        None => seq![0u8],
        Some(o) => seq![1u8] + nul_terminated(spec_default_extension(o.format)) + seq![
            if o.bit_depth == BitDepth::Eight { 8u8 } else { 16u8 },
            o.quality,
            if o.dither { 1u8 } else { 0u8 },
        ] + le_u64(o.seed),
    }
}

impl RenderKey {
    /// The canonical byte message hashed for `scope`.
    pub open spec fn message(&self, scope: DigestScope) -> Seq<u8> {
        scope_tag(scope) + seq![0u8] + nul_terminated(self.source_content_hash@) + nul_terminated(
            self.decode_version@,
        ) + nul_terminated(self.pipeline_version@) + nul_terminated(self.virtual_copy_id@) + (if scope
            != DigestScope::Decode {
            nul_terminated(if scope == DigestScope::Mask { self.mask_recipe_hash@ } else { self.recipe_hash@ })
                + nul_list(self.mask_artifact_hashes@) + nul_list(self.source_action_artifact_hashes@)
                + optional_part(self.mask_local_state_digest)
        } else {
            Seq::empty()
        }) + (if scope == DigestScope::Histogram {
            le_u32(self.output.width) + le_u32(self.output.height)
        } else {
            Seq::empty()
        }) + (if scope == DigestScope::Render {
            nul_terminated(self.output.profile@) + utf8(self.output.format@) + le_u32(self.output.width) + le_u32(
                self.output.height,
            ) + export_part(self.export_options)
        } else {
            Seq::empty()
        })
    }

    pub open spec fn spec_mask_recipe_hash(&self) -> Seq<char> {
        self.mask_recipe_hash@
    }

    pub open spec fn spec_mask_local_state_digest(&self) -> Option<String> {
        self.mask_local_state_digest
    }

    /// A render identity from already-computed recipe digests: `recipe_json`
    /// is the canonical serialized recipe, `mask_recipe_json` the same recipe
    /// with every geometry/output field removed (geometry is downstream of
    /// source-sized masks). Both are hashed with BLAKE3.
    pub fn new(
        source_content_hash: String,
        decode_version: String,
        pipeline_version: String,
        virtual_copy_id: String,
        recipe_json: &[u8],
        mask_recipe_json: &[u8],
        mask_artifact_hashes: Vec<String>,
        output: OutputSpec,
    ) -> (key: RenderKey)
        ensures
            key.source_content_hash == source_content_hash,
            key.decode_version == decode_version,
            key.pipeline_version == pipeline_version,
            key.virtual_copy_id == virtual_copy_id,
            key.recipe_hash@ == blake3_hex(recipe_json@),
            key.spec_mask_recipe_hash() == blake3_hex(mask_recipe_json@),
            key.mask_artifact_hashes == mask_artifact_hashes,
            key.source_action_artifact_hashes@ == Seq::<String>::empty(),
            key.output == output,
            key.export_options == None::<ExportOptions>,
            key.spec_mask_local_state_digest() == None::<String>,
    {
        RenderKey {
            source_content_hash,
            decode_version,
            pipeline_version,
            virtual_copy_id,
            recipe_hash: blake3_hex_digest(recipe_json),
            mask_recipe_hash: blake3_hex_digest(mask_recipe_json),
            mask_artifact_hashes,
            source_action_artifact_hashes: Vec::new(),
            output,
            export_options: None,
            mask_local_state_digest: None,
        }
    }

    /// `self` with encoder parameters attached.
    pub open spec fn spec_with_export_options(self, options: ExportOptions) -> RenderKey {
        RenderKey { export_options: Some(options), ..self }
    }

    /// `self` with source-action artifact checksums attached.
    pub open spec fn spec_with_source_action_hashes(self, hashes: Vec<String>) -> RenderKey {
        RenderKey { source_action_artifact_hashes: hashes, ..self }
    }

    /// `self` with a local mask-layer state digest attached.
    pub open spec fn spec_with_mask_local_state_digest(self, digest: String) -> RenderKey {
        RenderKey { mask_local_state_digest: Some(digest), ..self }
    }

    /// Attaches the full encoder parameters so they participate in the
    /// render-scope digest.
    pub fn with_export_options(self, options: ExportOptions) -> (key: RenderKey)
        ensures
            key == self.spec_with_export_options(options),
            key.export_options == Some(options),
    {
        RenderKey { export_options: Some(options), ..self }
    }

    /// Attaches the checksums of the resolved source-action artifacts.
    pub fn with_source_action_hashes(self, hashes: Vec<String>) -> (key: RenderKey)
        ensures
            key == self.spec_with_source_action_hashes(hashes),
            key.source_action_artifact_hashes == hashes,
    {
        RenderKey { source_action_artifact_hashes: hashes, ..self }
    }

    /// Attaches the canonical ordered mask-layer state; it is part of every
    /// identity downstream of decode.
    pub fn with_mask_local_state_digest(self, digest: String) -> (key: RenderKey)
        ensures
            key == self.spec_with_mask_local_state_digest(digest),
            key.spec_mask_local_state_digest() == Some(digest),
    {
        RenderKey { mask_local_state_digest: Some(digest), ..self }
    }

    /// Digest of the full render identity.
    pub fn digest(&self) -> (digest: String)
        ensures
            digest@ == blake3_hex(self.message(DigestScope::Render)),
    {
        self.digest_for(DigestScope::Render)
    }

    /// Digest keying `stage` in the stage cache.
    pub fn stage_digest(&self, stage: CacheStage) -> (digest: String)
        ensures
            digest@ == blake3_hex(self.message(scope_of(stage))),
    {
        let scope = match stage {
            CacheStage::Decode => DigestScope::Decode,
            CacheStage::Mask => DigestScope::Mask,
            CacheStage::Histogram => DigestScope::Histogram,
            CacheStage::Preview => DigestScope::Render,
            CacheStage::Export => DigestScope::Render,
        };
        self.digest_for(scope)
    }

    fn digest_for(&self, scope: DigestScope) -> (digest: String)
        ensures
            digest@ == blake3_hex(self.message(scope)),
    {
        let mut message: Vec<u8> = Vec::new();
        push_scope_tag(&mut message, scope);
        push_byte(&mut message, 0);
        push_nul_terminated(&mut message, self.source_content_hash.as_str());
        push_nul_terminated(&mut message, self.decode_version.as_str());
        push_nul_terminated(&mut message, self.pipeline_version.as_str());
        push_nul_terminated(&mut message, self.virtual_copy_id.as_str());
        let ghost common = message@;
        let mut tail: Vec<u8> = Vec::new();
        if !matches!(scope, DigestScope::Decode) {
            let recipe_hash = if matches!(scope, DigestScope::Mask) {
                self.mask_recipe_hash.as_str()
            } else {
                self.recipe_hash.as_str()
            };
            push_nul_terminated(&mut tail, recipe_hash);
            push_nul_list(&mut tail, &self.mask_artifact_hashes);
            push_nul_list(&mut tail, &self.source_action_artifact_hashes);
            match &self.mask_local_state_digest {
                None => push_byte(&mut tail, 0),
                Some(value) => {
                    push_byte(&mut tail, 1);
                    push_nul_terminated(&mut tail, value.as_str());
                    proof {
                        assert(tail@ =~= nul_terminated(recipe_hash@) + nul_list(self.mask_artifact_hashes@)
                            + nul_list(self.source_action_artifact_hashes@) + optional_part(self.mask_local_state_digest));
                    }
                },
            }
        }
        let ghost upstream = tail@;
        let mut histogram: Vec<u8> = Vec::new();
        if matches!(scope, DigestScope::Histogram) {
            push_u32_le(&mut histogram, self.output.width);
            push_u32_le(&mut histogram, self.output.height);
        }
        let mut render: Vec<u8> = Vec::new();
        if matches!(scope, DigestScope::Render) {
            push_nul_terminated(&mut render, self.output.profile.as_str());
            push_str(&mut render, self.output.format.as_str());
            push_u32_le(&mut render, self.output.width);
            push_u32_le(&mut render, self.output.height);
            push_export_part(&mut render, &self.export_options);
        }
        push_bytes(&mut message, tail.as_slice());
        push_bytes(&mut message, histogram.as_slice());
        push_bytes(&mut message, render.as_slice());
        proof {
            assert(message@ =~= self.message(scope));
        }
        blake3_hex_digest(message.as_slice())
    }
}

fn push_scope_tag(message: &mut Vec<u8>, scope: DigestScope)
    ensures
        final(message)@ == old(message)@ + scope_tag(scope),
{
    let ghost start = message@;
    match scope {
        DigestScope::Decode => {
            message.push(100);
            message.push(101);
            message.push(99);
            message.push(111);
            message.push(100);
            message.push(101);
        },
        DigestScope::Mask => {
            message.push(109);
            message.push(97);
            message.push(115);
            message.push(107);
        },
        DigestScope::Histogram => {
            message.push(104);
            message.push(105);
            message.push(115);
            message.push(116);
            message.push(111);
            message.push(103);
            message.push(114);
            message.push(97);
            message.push(109);
        },
        DigestScope::Render => {
            message.push(114);
            message.push(101);
            message.push(110);
            message.push(100);
            message.push(101);
            message.push(114);
        },
    }
    proof {
        assert(message@ =~= start + scope_tag(scope));
    }
}

/// Appends the UTF-8 bytes of `s` and a NUL separator.
pub fn push_nul_terminated(message: &mut Vec<u8>, s: &str)
    ensures
        final(message)@ == old(message)@ + nul_terminated(s@),
{
    push_str(message, s);
    push_byte(message, 0);
    proof {
        assert(final(message)@ =~= old(message)@ + nul_terminated(s@));
    }
}

/// Appends every string of `items`, each NUL-terminated.
pub fn push_nul_list(message: &mut Vec<u8>, items: &Vec<String>)
    ensures
        final(message)@ == old(message)@ + nul_list(items@),
{
    let ghost start = message@;
    let mut i: usize = 0;
    while i < items.len()
        invariant
            i <= items@.len(),
            message@ == start + nul_list(items@.subrange(0, i as int)),
        decreases items@.len() - i,
    {
        push_nul_terminated(message, items[i].as_str());
        proof {
            let next = items@.subrange(0, i + 1);
            assert(next.drop_last() =~= items@.subrange(0, i as int));
            assert(message@ =~= start + nul_list(next));
        }
        i += 1;
    }
    proof {
        assert(items@.subrange(0, items@.len() as int) =~= items@);
    }
}

fn push_export_part(message: &mut Vec<u8>, options: &Option<ExportOptions>)
    ensures
        final(message)@ == old(message)@ + export_part(*options),
{
    let ghost start = message@;
    match options {
        None => push_byte(message, 0),
        Some(o) => {
            push_byte(message, 1);
            push_nul_terminated(message, o.format.default_extension());
            push_byte(message, if matches!(o.bit_depth, BitDepth::Eight) { 8 } else { 16 });
            push_byte(message, o.quality);
            push_byte(message, if o.dither { 1 } else { 0 });
            push_u64_le(message, o.seed);
            proof {
                assert(message@ =~= start + export_part(*options));
            }
        },
    }
}

/// Two renders with the same source, decoder, pipeline version and virtual
/// copy share the decode-stage digest, whatever their recipe, masks, source
/// actions, output or encoder options.
pub proof fn lemma_decode_digest_shared(a: RenderKey, b: RenderKey)
    requires
        a.source_content_hash@ == b.source_content_hash@,
        a.decode_version@ == b.decode_version@,
        a.pipeline_version@ == b.pipeline_version@,
        a.virtual_copy_id@ == b.virtual_copy_id@,
    ensures
        a.message(DigestScope::Decode) == b.message(DigestScope::Decode),
        blake3_hex(a.message(scope_of(CacheStage::Decode))) == blake3_hex(b.message(scope_of(CacheStage::Decode))),
{
}

/// The mask-stage digest ignores everything downstream of masks: the full
/// recipe hash (crop, geometry, lens, perspective), the output and the
/// encoder options.
pub proof fn lemma_mask_digest_ignores_downstream(a: RenderKey, b: RenderKey)
    requires
        a.source_content_hash@ == b.source_content_hash@,
        a.decode_version@ == b.decode_version@,
        a.pipeline_version@ == b.pipeline_version@,
        a.virtual_copy_id@ == b.virtual_copy_id@,
        a.mask_recipe_hash@ == b.mask_recipe_hash@,
        a.mask_artifact_hashes@ == b.mask_artifact_hashes@,
        a.source_action_artifact_hashes@ == b.source_action_artifact_hashes@,
        a.mask_local_state_digest == b.mask_local_state_digest,
    ensures
        a.message(DigestScope::Mask) == b.message(DigestScope::Mask),
{
}

/// The histogram digest depends on the output size but not on the output
/// profile, the output format or the encoder options.
pub proof fn lemma_histogram_digest_ignores_profile_format_and_encoder(a: RenderKey, b: RenderKey)
    requires
        a.source_content_hash@ == b.source_content_hash@,
        a.decode_version@ == b.decode_version@,
        a.pipeline_version@ == b.pipeline_version@,
        a.virtual_copy_id@ == b.virtual_copy_id@,
        a.recipe_hash@ == b.recipe_hash@,
        a.mask_artifact_hashes@ == b.mask_artifact_hashes@,
        a.source_action_artifact_hashes@ == b.source_action_artifact_hashes@,
        a.mask_local_state_digest == b.mask_local_state_digest,
        a.output.width == b.output.width,
        a.output.height == b.output.height,
    ensures
        a.message(DigestScope::Histogram) == b.message(DigestScope::Histogram),
{
}

/// Attaching encoder parameters changes no digest but the render digest.
pub proof fn lemma_export_options_only_touch_render(key: RenderKey, options: ExportOptions, scope: DigestScope)
    requires
        scope != DigestScope::Render,
    ensures
        key.spec_with_export_options(options).message(scope) == key.message(scope),
{
}

/// Attaching source-action checksums or a local mask-layer state never
/// changes the decode digest.
pub proof fn lemma_decode_digest_ignores_source_actions_and_local_state(
    key: RenderKey,
    hashes: Vec<String>,
    digest: String,
)
    ensures
        key.spec_with_source_action_hashes(hashes).message(DigestScope::Decode) == key.message(DigestScope::Decode),
        key.spec_with_mask_local_state_digest(digest).message(DigestScope::Decode) == key.message(DigestScope::Decode),
{
}

/// Preview and export are keyed by the render digest: both stage digests
/// are the full render digest.
pub proof fn lemma_render_stages_share_digest(key: RenderKey)
    ensures
        scope_of(CacheStage::Preview) == DigestScope::Render,
        scope_of(CacheStage::Export) == DigestScope::Render,
        blake3_hex(key.message(scope_of(CacheStage::Preview))) == blake3_hex(key.message(DigestScope::Render)),
        blake3_hex(key.message(scope_of(CacheStage::Export))) == blake3_hex(key.message(DigestScope::Render)),
{
}

/// The histogram message tells output sizes apart: two keys that agree on
/// everything the histogram depends on but the output width or height have
/// different histogram messages.
pub proof fn lemma_histogram_message_tracks_output_size(a: RenderKey, b: RenderKey)
    requires
        a.source_content_hash@ == b.source_content_hash@,
        a.decode_version@ == b.decode_version@,
        a.pipeline_version@ == b.pipeline_version@,
        a.virtual_copy_id@ == b.virtual_copy_id@,
        a.recipe_hash@ == b.recipe_hash@,
        a.mask_artifact_hashes@ == b.mask_artifact_hashes@,
        a.source_action_artifact_hashes@ == b.source_action_artifact_hashes@,
        a.mask_local_state_digest == b.mask_local_state_digest,
        a.output.width != b.output.width || a.output.height != b.output.height,
    ensures
        a.message(DigestScope::Histogram) != b.message(DigestScope::Histogram),
{
    let scope = DigestScope::Histogram;
    let p = scope_tag(scope) + seq![0u8] + nul_terminated(a.source_content_hash@) + nul_terminated(a.decode_version@)
        + nul_terminated(a.pipeline_version@) + nul_terminated(a.virtual_copy_id@) + (nul_terminated(a.recipe_hash@)
        + nul_list(a.mask_artifact_hashes@) + nul_list(a.source_action_artifact_hashes@) + optional_part(
        a.mask_local_state_digest,
    ));
    let ma = a.message(scope);
    let mb = b.message(scope);
    assert(ma =~= p + (le_u32(a.output.width) + le_u32(a.output.height)));
    assert(mb =~= p + (le_u32(b.output.width) + le_u32(b.output.height)));
    if ma == mb {
        let n = p.len() as int;
        assert(le_u32(a.output.width) =~= le_u32(b.output.width)) by {
            assert forall|i: int| 0 <= i < 4 implies le_u32(a.output.width)[i] == le_u32(b.output.width)[i] by {
                assert(ma[n + i] == mb[n + i]);
            }
        }
        assert(le_u32(a.output.height) =~= le_u32(b.output.height)) by {
            assert forall|i: int| 0 <= i < 4 implies le_u32(a.output.height)[i] == le_u32(b.output.height)[i] by {
                assert(ma[n + 4 + i] == mb[n + 4 + i]);
            }
        }
        lemma_le_u32_injective(a.output.width, b.output.width);
        lemma_le_u32_injective(a.output.height, b.output.height);
    }
}

/// The part of a render message before the output: the scope, the source
/// identity, the recipe, the masks, the source actions and the local state.
pub open spec fn render_head(k: RenderKey) -> Seq<u8> {
    scope_tag(DigestScope::Render) + seq![0u8] + nul_terminated(k.source_content_hash@) + nul_terminated(k.decode_version@)
        + nul_terminated(k.pipeline_version@) + nul_terminated(k.virtual_copy_id@) + (nul_terminated(k.recipe_hash@)
        + nul_list(k.mask_artifact_hashes@) + nul_list(k.source_action_artifact_hashes@) + optional_part(
        k.mask_local_state_digest,
    ))
}

/// Two keys that agree on everything but the output (and its encoder
/// options agree too) share the head of their render messages.
pub open spec fn same_but_output(a: RenderKey, b: RenderKey) -> bool {
    &&& a.source_content_hash@ == b.source_content_hash@
    &&& a.decode_version@ == b.decode_version@
    &&& a.pipeline_version@ == b.pipeline_version@
    &&& a.virtual_copy_id@ == b.virtual_copy_id@
    &&& a.recipe_hash@ == b.recipe_hash@
    &&& a.mask_artifact_hashes@ == b.mask_artifact_hashes@
    &&& a.source_action_artifact_hashes@ == b.source_action_artifact_hashes@
    &&& a.mask_local_state_digest == b.mask_local_state_digest
    &&& a.export_options == b.export_options
}

proof fn lemma_render_message_shape(k: RenderKey)
    ensures
        k.message(DigestScope::Render) == render_head(k) + nul_terminated(k.output.profile@) + (utf8(k.output.format@)
            + le_u32(k.output.width) + le_u32(k.output.height) + export_part(k.export_options)),
{
    assert(k.message(DigestScope::Render) =~= render_head(k) + nul_terminated(k.output.profile@) + (utf8(k.output.format@)
        + le_u32(k.output.width) + le_u32(k.output.height) + export_part(k.export_options)));
}

/// The render digest is taken over the output profile: two keys that
/// differ only in the output profile have different render messages, so a
/// render for one profile is never served for another.
pub proof fn lemma_render_message_tracks_profile(a: RenderKey, b: RenderKey)
    requires
        same_but_output(a, b),
        a.output.format@ == b.output.format@,
        a.output.width == b.output.width,
        a.output.height == b.output.height,
        a.output.profile@ != b.output.profile@,
    ensures
        a.message(DigestScope::Render) != b.message(DigestScope::Render),
{
    lemma_render_message_shape(a);
    lemma_render_message_shape(b);
    assert(render_head(a) == render_head(b));
    let tail = utf8(a.output.format@) + le_u32(a.output.width) + le_u32(a.output.height) + export_part(a.export_options);
    assert(tail == utf8(b.output.format@) + le_u32(b.output.width) + le_u32(b.output.height) + export_part(b.export_options));
    if a.message(DigestScope::Render) == b.message(DigestScope::Render) {
        lemma_middle_equal(render_head(a), nul_terminated(a.output.profile@), nul_terminated(b.output.profile@), tail);
        assert(utf8(a.output.profile@) =~= nul_terminated(a.output.profile@).drop_last());
        assert(utf8(b.output.profile@) =~= nul_terminated(b.output.profile@).drop_last());
        lemma_utf8_injective(a.output.profile@, b.output.profile@);
    }
}

/// The render digest is taken over the output format: two keys that differ
/// only in the output format have different render messages.
pub proof fn lemma_render_message_tracks_format(a: RenderKey, b: RenderKey)
    requires
        same_but_output(a, b),
        a.output.profile@ == b.output.profile@,
        a.output.width == b.output.width,
        a.output.height == b.output.height,
        a.output.format@ != b.output.format@,
    ensures
        a.message(DigestScope::Render) != b.message(DigestScope::Render),
{
    lemma_render_message_shape(a);
    lemma_render_message_shape(b);
    let head = render_head(a) + nul_terminated(a.output.profile@);
    let tail = le_u32(a.output.width) + le_u32(a.output.height) + export_part(a.export_options);
    assert(a.message(DigestScope::Render) =~= head + utf8(a.output.format@) + tail);
    assert(b.message(DigestScope::Render) =~= head + utf8(b.output.format@) + tail);
    if a.message(DigestScope::Render) == b.message(DigestScope::Render) {
        lemma_middle_equal(head, utf8(a.output.format@), utf8(b.output.format@), tail);
        lemma_utf8_injective(a.output.format@, b.output.format@);
    }
}

/// The render digest is taken over the output size: two keys that differ
/// only in the output width or height have different render messages.
pub proof fn lemma_render_message_tracks_size(a: RenderKey, b: RenderKey)
    requires
        same_but_output(a, b),
        a.output.profile@ == b.output.profile@,
        a.output.format@ == b.output.format@,
        a.output.width != b.output.width || a.output.height != b.output.height,
    ensures
        a.message(DigestScope::Render) != b.message(DigestScope::Render),
{
    lemma_render_message_shape(a);
    lemma_render_message_shape(b);
    let head = render_head(a) + nul_terminated(a.output.profile@) + utf8(a.output.format@);
    let tail = export_part(a.export_options);
    let xa = le_u32(a.output.width) + le_u32(a.output.height);
    let xb = le_u32(b.output.width) + le_u32(b.output.height);
    assert(a.message(DigestScope::Render) =~= head + xa + tail);
    assert(b.message(DigestScope::Render) =~= head + xb + tail);
    if a.message(DigestScope::Render) == b.message(DigestScope::Render) {
        lemma_middle_equal(head, xa, xb, tail);
        assert(le_u32(a.output.width) =~= xa.subrange(0, 4));
        assert(le_u32(b.output.width) =~= xb.subrange(0, 4));
        assert(le_u32(a.output.height) =~= xa.subrange(4, 8));
        assert(le_u32(b.output.height) =~= xb.subrange(4, 8));
        lemma_le_u32_injective(a.output.width, b.output.width);
        lemma_le_u32_injective(a.output.height, b.output.height);
    }
}

/// What follows the four identity strings in the message for `scope`.
pub open spec fn scope_tail(k: RenderKey, scope: DigestScope) -> Seq<u8> {
    (if scope != DigestScope::Decode {
        nul_terminated(if scope == DigestScope::Mask { k.mask_recipe_hash@ } else { k.recipe_hash@ }) + nul_list(
            k.mask_artifact_hashes@,
        ) + nul_list(k.source_action_artifact_hashes@) + optional_part(k.mask_local_state_digest)
    } else {
        Seq::empty()
    }) + (if scope == DigestScope::Histogram {
        le_u32(k.output.width) + le_u32(k.output.height)
    } else {
        Seq::empty()
    }) + (if scope == DigestScope::Render {
        nul_terminated(k.output.profile@) + utf8(k.output.format@) + le_u32(k.output.width) + le_u32(k.output.height)
            + export_part(k.export_options)
    } else {
        Seq::empty()
    })
}

proof fn lemma_message_shape(k: RenderKey, scope: DigestScope)
    ensures
        k.message(scope) == scope_tag(scope) + seq![0u8] + nul_terminated(k.source_content_hash@) + nul_terminated(
            k.decode_version@,
        ) + nul_terminated(k.pipeline_version@) + nul_terminated(k.virtual_copy_id@) + scope_tail(k, scope),
{
    assert(k.message(scope) =~= scope_tag(scope) + seq![0u8] + nul_terminated(k.source_content_hash@) + nul_terminated(
        k.decode_version@,
    ) + nul_terminated(k.pipeline_version@) + nul_terminated(k.virtual_copy_id@) + scope_tail(k, scope));
}

/// A NUL-terminated string between equal parts is told apart.
proof fn lemma_nul_middle(a: Seq<u8>, s1: Seq<char>, s2: Seq<char>, b: Seq<u8>)
    requires
        a + nul_terminated(s1) + b == a + nul_terminated(s2) + b,
    ensures
        s1 == s2,
{
    lemma_middle_equal(a, nul_terminated(s1), nul_terminated(s2), b);
    assert(utf8(s1) =~= nul_terminated(s1).drop_last());
    assert(utf8(s2) =~= nul_terminated(s2).drop_last());
    lemma_utf8_injective(s1, s2);
}

/// The digests of the four stages never share a message: each starts with
/// its own scope name.
pub proof fn lemma_scopes_never_share_a_message(a: RenderKey, b: RenderKey, s1: DigestScope, s2: DigestScope)
    requires
        s1 != s2,
    ensures
        a.message(s1) != b.message(s2),
{
    assert(a.message(s1)[0] == scope_tag(s1)[0]);
    assert(b.message(s2)[0] == scope_tag(s2)[0]);
}

/// Every stage digest is taken over the source content: changing only the
/// source content hash changes the message of every scope.
pub proof fn lemma_message_tracks_source(k: RenderKey, other: String, scope: DigestScope)
    requires
        other@ != k.source_content_hash@,
    ensures
        (RenderKey { source_content_hash: other, ..k }).message(scope) != k.message(scope),
{
    let k2 = RenderKey { source_content_hash: other, ..k };
    lemma_message_shape(k, scope);
    lemma_message_shape(k2, scope);
    let a = scope_tag(scope) + seq![0u8];
    let r = nul_terminated(k.decode_version@) + nul_terminated(k.pipeline_version@) + nul_terminated(k.virtual_copy_id@)
        + scope_tail(k, scope);
    assert(scope_tail(k2, scope) == scope_tail(k, scope));
    assert(k.message(scope) =~= a + nul_terminated(k.source_content_hash@) + r);
    assert(k2.message(scope) =~= a + nul_terminated(other@) + r);
    if k2.message(scope) == k.message(scope) {
        lemma_nul_middle(a, other@, k.source_content_hash@, r);
    }
}

/// Every stage digest is taken over the decoder version.
pub proof fn lemma_message_tracks_decode_version(k: RenderKey, other: String, scope: DigestScope)
    requires
        other@ != k.decode_version@,
    ensures
        (RenderKey { decode_version: other, ..k }).message(scope) != k.message(scope),
{
    let k2 = RenderKey { decode_version: other, ..k };
    lemma_message_shape(k, scope);
    lemma_message_shape(k2, scope);
    let a = scope_tag(scope) + seq![0u8] + nul_terminated(k.source_content_hash@);
    let r = nul_terminated(k.pipeline_version@) + nul_terminated(k.virtual_copy_id@) + scope_tail(k, scope);
    assert(scope_tail(k2, scope) == scope_tail(k, scope));
    assert(k.message(scope) =~= a + nul_terminated(k.decode_version@) + r);
    assert(k2.message(scope) =~= a + nul_terminated(other@) + r);
    if k2.message(scope) == k.message(scope) {
        lemma_nul_middle(a, other@, k.decode_version@, r);
    }
}

/// Every stage digest is taken over the pipeline version.
pub proof fn lemma_message_tracks_pipeline_version(k: RenderKey, other: String, scope: DigestScope)
    requires
        other@ != k.pipeline_version@,
    ensures
        (RenderKey { pipeline_version: other, ..k }).message(scope) != k.message(scope),
{
    let k2 = RenderKey { pipeline_version: other, ..k };
    lemma_message_shape(k, scope);
    lemma_message_shape(k2, scope);
    let a = scope_tag(scope) + seq![0u8] + nul_terminated(k.source_content_hash@) + nul_terminated(k.decode_version@);
    let r = nul_terminated(k.virtual_copy_id@) + scope_tail(k, scope);
    assert(scope_tail(k2, scope) == scope_tail(k, scope));
    assert(k.message(scope) =~= a + nul_terminated(k.pipeline_version@) + r);
    assert(k2.message(scope) =~= a + nul_terminated(other@) + r);
    if k2.message(scope) == k.message(scope) {
        lemma_nul_middle(a, other@, k.pipeline_version@, r);
    }
}

/// Every stage digest is taken over the virtual copy.
pub proof fn lemma_message_tracks_virtual_copy(k: RenderKey, other: String, scope: DigestScope)
    requires
        other@ != k.virtual_copy_id@,
    ensures
        (RenderKey { virtual_copy_id: other, ..k }).message(scope) != k.message(scope),
{
    let k2 = RenderKey { virtual_copy_id: other, ..k };
    lemma_message_shape(k, scope);
    lemma_message_shape(k2, scope);
    let a = scope_tag(scope) + seq![0u8] + nul_terminated(k.source_content_hash@) + nul_terminated(k.decode_version@)
        + nul_terminated(k.pipeline_version@);
    let r = scope_tail(k, scope);
    assert(scope_tail(k2, scope) == scope_tail(k, scope));
    assert(k.message(scope) =~= a + nul_terminated(k.virtual_copy_id@) + r);
    assert(k2.message(scope) =~= a + nul_terminated(other@) + r);
    if k2.message(scope) == k.message(scope) {
        lemma_nul_middle(a, other@, k.virtual_copy_id@, r);
    }
}

/// The histogram and render digests are taken over the full recipe hash.
pub proof fn lemma_message_tracks_recipe(k: RenderKey, other: String, scope: DigestScope)
    requires
        other@ != k.recipe_hash@,
        scope == DigestScope::Histogram || scope == DigestScope::Render,
    ensures
        (RenderKey { recipe_hash: other, ..k }).message(scope) != k.message(scope),
{
    let k2 = RenderKey { recipe_hash: other, ..k };
    lemma_message_shape(k, scope);
    lemma_message_shape(k2, scope);
    let a = scope_tag(scope) + seq![0u8] + nul_terminated(k.source_content_hash@) + nul_terminated(k.decode_version@)
        + nul_terminated(k.pipeline_version@) + nul_terminated(k.virtual_copy_id@);
    let r = nul_list(k.mask_artifact_hashes@) + nul_list(k.source_action_artifact_hashes@) + optional_part(
        k.mask_local_state_digest,
    ) + ((if scope == DigestScope::Histogram {
        le_u32(k.output.width) + le_u32(k.output.height)
    } else {
        Seq::empty()
    }) + (if scope == DigestScope::Render {
        nul_terminated(k.output.profile@) + utf8(k.output.format@) + le_u32(k.output.width) + le_u32(k.output.height)
            + export_part(k.export_options)
    } else {
        Seq::empty()
    }));
    assert(k.message(scope) =~= a + nul_terminated(k.recipe_hash@) + r);
    assert(k2.message(scope) =~= a + nul_terminated(other@) + r);
    if k2.message(scope) == k.message(scope) {
        lemma_nul_middle(a, other@, k.recipe_hash@, r);
    }
}

/// The mask digest is taken over the mask recipe hash.
pub proof fn lemma_message_tracks_mask_recipe(k: RenderKey, other: String)
    requires
        other@ != k.mask_recipe_hash@,
    ensures
        (RenderKey { mask_recipe_hash: other, ..k }).message(DigestScope::Mask) != k.message(DigestScope::Mask),
{
    let scope = DigestScope::Mask;
    let k2 = RenderKey { mask_recipe_hash: other, ..k };
    let a = scope_tag(scope) + seq![0u8] + nul_terminated(k.source_content_hash@) + nul_terminated(k.decode_version@)
        + nul_terminated(k.pipeline_version@) + nul_terminated(k.virtual_copy_id@);
    let r = nul_list(k.mask_artifact_hashes@) + nul_list(k.source_action_artifact_hashes@) + optional_part(
        k.mask_local_state_digest,
    );
    assert(k.message(scope) =~= a + nul_terminated(k.mask_recipe_hash@) + r);
    assert(k2.message(scope) =~= a + nul_terminated(other@) + r);
    if k2.message(scope) == k.message(scope) {
        lemma_nul_middle(a, other@, k.mask_recipe_hash@, r);
    }
}

} // verus!
