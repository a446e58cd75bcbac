//! Render-stage caches: stage identities, the byte-budgeted checksummed
//! stage store, folder preview options and stale-job tracking.
use crate::byte_total::{bytes_total, lemma_bytes_total_insert};
use crate::hashing::{blake3_hex, blake3_hex_digest};
use crate::pipeline::{scope_of, RenderKey};
use std::sync::atomic::{AtomicBool, AtomicU64, Ordering};
use std::sync::Arc;
use vstd::prelude::*;

verus! {

/// The cached stages of a render.
#[derive(Debug, Clone, Copy, PartialEq, Eq, Hash, Structural)]
pub enum CacheStage {
    Decode,
    Preview,
    Histogram,
    Mask,
    Export,
}

/// The two preview resolutions the folder cache may hold per source and
/// virtual copy.
#[derive(Debug, Clone, Copy, PartialEq, Eq, Hash, Structural)]
pub enum PreviewKind {
    Standard,
    OneToOne,
}

impl PreviewKind {
    /// Stable kebab-case name.
    pub fn as_str(self) -> (name: &'static str)
        ensures
            name@ == (match self {
                PreviewKind::Standard => seq!['s', 't', 'a', 'n', 'd', 'a', 'r', 'd'],
                PreviewKind::OneToOne => seq!['o', 'n', 'e', '-', 't', 'o', '-', 'o', 'n', 'e'],
            }),
    {
        match self {
            PreviewKind::Standard => {
                proof {
                    reveal_strlit("standard");
                }
                "standard"
            },
            PreviewKind::OneToOne => {
                proof {
                    reveal_strlit("one-to-one");
                }
                "one-to-one"
            },
        }
    }
}

/// Folder options deciding which preview kinds are cached.
#[derive(Debug, Clone, Copy, PartialEq, Eq, Structural)]
pub struct FolderCacheSettings {
    pub standard_preview: bool,
    pub one_to_one_preview: bool,
}

impl FolderCacheSettings {
    /// Standard previews on, 1:1 previews off.
    pub open spec fn spec_default() -> FolderCacheSettings {
        FolderCacheSettings { standard_preview: true, one_to_one_preview: false }
    }

    /// Whether the effective folder options allow caching `kind`.
    pub open spec fn spec_allows(self, kind: PreviewKind) -> bool {
        match kind {
            PreviewKind::Standard => self.standard_preview,
            PreviewKind::OneToOne => self.one_to_one_preview,
        }
    }

    /// Whether the effective folder options allow caching `kind`.
    pub fn allows(&self, kind: PreviewKind) -> (allowed: bool)
        ensures
            allowed == self.spec_allows(kind),
    {
        match kind {
            PreviewKind::Standard => self.standard_preview,
            PreviewKind::OneToOne => self.one_to_one_preview,
        }
    }
}

impl Default for FolderCacheSettings {
    fn default() -> (settings: Self)
        ensures
            settings == FolderCacheSettings::spec_default(),
    {
        FolderCacheSettings { standard_preview: true, one_to_one_preview: false }
    }
}

/// The default of the `standard_preview` field.
pub fn default_standard_preview() -> (value: bool)
    ensures
        value == FolderCacheSettings::spec_default().standard_preview,
{
    FolderCacheSettings::default().standard_preview
}

/// The default of the `one_to_one_preview` field.
pub fn default_one_to_one_preview() -> (value: bool)
    ensures
        value == FolderCacheSettings::spec_default().one_to_one_preview,
{
    FolderCacheSettings::default().one_to_one_preview
}

/// Folder options read from one settings file: absent fields inherit.
#[derive(Debug, Clone, Copy, PartialEq, Eq, Structural)]
pub struct PartialFolderSettings {
    pub standard_preview: Option<bool>,
    pub one_to_one_preview: Option<bool>,
}

/// The options after merging `chain` (outermost first) over the defaults,
/// field by field.
pub open spec fn merged_settings(chain: Seq<PartialFolderSettings>) -> FolderCacheSettings
    decreases chain.len(),
{
    if chain.len() == 0 {
        FolderCacheSettings::spec_default()
    } else {
        let inherited = merged_settings(chain.drop_last());
        let own = chain.last();
        FolderCacheSettings {
            standard_preview: match own.standard_preview {
                Some(v) => v,
                None => inherited.standard_preview,
            },
            one_to_one_preview: match own.one_to_one_preview {
                Some(v) => v,
                None => inherited.one_to_one_preview,
            },
        }
    }
}

/// Merges the settings files of a folder chain (outermost parent first):
/// a field present in a file overrides the inherited value, an absent field
/// inherits it.
pub fn merge_settings_chain(chain: &[PartialFolderSettings]) -> (settings: FolderCacheSettings)
    ensures
        settings == merged_settings(chain@),
{
    let mut effective = FolderCacheSettings::default();
    let mut i: usize = 0;
    while i < chain.len()
        invariant
            i <= chain@.len(),
            effective == merged_settings(chain@.subrange(0, i as int)),
        decreases chain@.len() - i,
    {
        let own = chain[i];
        if let Some(v) = own.standard_preview {
            effective.standard_preview = v;
        }
        if let Some(v) = own.one_to_one_preview {
            effective.one_to_one_preview = v;
        }
        proof {
            assert(chain@.subrange(0, i + 1).drop_last() =~= chain@.subrange(0, i as int));
        }
        i += 1;
    }
    proof {
        assert(chain@.subrange(0, chain@.len() as int) =~= chain@);
    }
    effective
}

/// Cache identity of one cached preview: source file name, NUL, virtual
/// copy id (NUL cannot occur in a file name, so identities never collide).
pub fn preview_cache_key(source: &str, virtual_copy: &str) -> (key: String)
    ensures
        key@ == source@ + seq!['\0'] + virtual_copy@,
{
    let mut key = String::from_str(source);
    proof {
        reveal_strlit("\0");
    }
    key.append("\0");
    key.append(virtual_copy);
    key
}

/// In-memory folder preview cache keyed by source id.
#[derive(Debug)]
pub struct FolderCache {
    entries: Vec<(String, Vec<u8>)>,
}

/// Keys of a list of entries, in order.
pub open spec fn entry_keys<V>(entries: Seq<(String, V)>) -> Seq<Seq<char>> {
    entries.map_values(|e: (String, V)| e.0@)
}

/// Map view of an entry list whose keys are distinct.
pub open spec fn entries_view(entries: Seq<(String, Vec<u8>)>) -> Map<Seq<char>, Seq<u8>>
    decreases entries.len(),
{
    if entries.len() == 0 {
        Map::empty()
    } else {
        entries_view(entries.drop_last()).insert(entries.last().0@, entries.last().1@)
    }
}

proof fn lemma_entries_view(entries: Seq<(String, Vec<u8>)>)
    requires
        entry_keys(entries).no_duplicates(),
    ensures
        forall|k: Seq<char>| #[trigger] entries_view(entries).contains_key(k) ==> exists|i: int| 0 <= i < entries.len() && entries[i].0@ == k,
        forall|i: int| #![trigger entries[i]] 0 <= i < entries.len() ==> entries_view(entries).contains_key(entries[i].0@) && entries_view(entries)[entries[i].0@] == entries[i].1@,
    decreases entries.len(),
{
    if entries.len() > 0 {
        let prefix = entries.drop_last();
        let last = entries.last();
        assert(entry_keys(prefix) =~= entry_keys(entries).drop_last());
        lemma_entries_view(prefix);
        assert forall|k: Seq<char>| #[trigger] entries_view(entries).contains_key(k) implies exists|i: int| 0 <= i < entries.len() && entries[i].0@ == k by {
            if k == last.0@ {
                assert(entries[entries.len() - 1].0@ == k);
            } else {
                assert(entries_view(prefix).contains_key(k));
                let i = choose|i: int| 0 <= i < prefix.len() && prefix[i].0@ == k;
                assert(prefix[i] == entries[i]);
            }
        }
        assert forall|i: int| #![trigger entries[i]] 0 <= i < entries.len() implies entries_view(entries).contains_key(entries[i].0@) && entries_view(entries)[entries[i].0@] == entries[i].1@ by {
            if i < entries.len() - 1 {
                assert(prefix[i] == entries[i]);
                assert(entry_keys(entries)[i] == entries[i].0@);
                assert(entry_keys(entries)[entries.len() - 1] == last.0@);
            }
        }
    }
}

/// A copy of `bytes`.
pub fn copy_bytes(bytes: &[u8]) -> (copy: Vec<u8>)
    ensures
        copy@ == bytes@,
{
    let mut copy: Vec<u8> = Vec::new();
    let mut i: usize = 0;
    while i < bytes.len()
        invariant
            i <= bytes@.len(),
            copy@ == bytes@.subrange(0, i as int),
        decreases bytes@.len() - i,
    {
        copy.push(bytes[i]);
        proof {
            assert(copy@ =~= bytes@.subrange(0, i + 1));
        }
        i += 1;
    }
    proof {
        assert(bytes@.subrange(0, bytes@.len() as int) =~= bytes@);
    }
    copy
}

/// Whether `ids` lists the string `k`.
pub open spec fn listed(ids: Seq<String>, k: Seq<char>) -> bool {
    exists|i: int| 0 <= i < ids.len() && ids[i]@ == k
}

/// Whether `items` holds a string equal to `s`.
pub fn contains_string(items: &[String], s: &String) -> (found: bool)
    ensures
        found == listed(items@, s@),
{
    let mut i: usize = 0;
    while i < items.len()
        invariant
            i <= items@.len(),
            forall|k: int| 0 <= k < i ==> items@[k]@ != s@,
        decreases items@.len() - i,
    {
        if items[i] == *s {
            return true;
        }
        i += 1;
    }
    false
}

impl FolderCache {
    #[verifier::type_invariant]
    spec fn inv(self) -> bool {
        entry_keys(self.entries@).no_duplicates()
    }

    /// The cached bytes per source id.
    pub closed spec fn view(&self) -> Map<Seq<char>, Seq<u8>> {
        entries_view(self.entries@)
    }

    pub fn new() -> (cache: FolderCache)
        ensures
            cache.view() == Map::<Seq<char>, Seq<u8>>::empty(),
    {
        FolderCache { entries: Vec::new() }
    }

    /// Folder options are inherited from parent folders; a folder that
    /// stores its own settings overrides the inherited record completely.
    /// The chain is ordered from the outermost parent to the folder itself.
    pub fn effective_settings(chain: &[FolderCacheSettings]) -> (settings: FolderCacheSettings)
        ensures
            settings == if chain@.len() == 0 { FolderCacheSettings::spec_default() } else { chain@.last() },
    {
        if chain.len() == 0 {
            FolderCacheSettings::default()
        } else {
            chain[chain.len() - 1]
        }
    }

    fn find(&self, source_id: &String) -> (index: Option<usize>)
        ensures
            index matches Some(i) ==> i < self.entries@.len() && self.entries@[i as int].0@ == source_id@,
            index is None ==> forall|i: int| 0 <= i < self.entries@.len() ==> self.entries@[i].0@ != source_id@,
    {
        let mut i: usize = 0;
        while i < self.entries.len()
            invariant
                i <= self.entries@.len(),
                forall|k: int| 0 <= k < i ==> self.entries@[k].0@ != source_id@,
            decreases self.entries@.len() - i,
        {
            if self.entries[i].0 == *source_id {
                return Some(i);
            }
            i += 1;
        }
        None
    }

    /// Stores (or replaces) the bytes for `source_id`.
    pub fn store(&mut self, source_id: String, bytes: Vec<u8>)
        ensures
            final(self).view() == old(self).view().insert(source_id@, bytes@),
    {
        proof {
            use_type_invariant(&*self);
        }
        let ghost old_view = self.view();
        let ghost key = source_id@;
        let ghost value = bytes@;
        let found = self.find(&source_id);
        let mut entries: Vec<(String, Vec<u8>)> = Vec::new();
        std::mem::swap(&mut entries, &mut self.entries);
        let ghost before = entries@;
        proof {
            lemma_entries_view(before);
        }
        match found {
            Some(i) => {
                entries.set(i, (source_id, bytes));
                proof {
                    assert(entry_keys(entries@) =~= entry_keys(before));
                    lemma_entries_view(entries@);
                    assert forall|k: Seq<char>| #[trigger] entries_view(entries@).contains_key(k) <==> old_view.insert(key, value).contains_key(k) by {
                        if old_view.contains_key(k) {
                            let j = choose|j: int| 0 <= j < before.len() && before[j].0@ == k;
                            assert(entries@[j].0@ == k);
                        }
                        if entries_view(entries@).contains_key(k) {
                            let j = choose|j: int| 0 <= j < entries@.len() && entries@[j].0@ == k;
                            assert(before[j].0@ == k);
                        }
                        if k == key {
                            assert(entries@[i as int].0@ == k);
                        }
                    }
                    assert forall|k: Seq<char>| #[trigger] entries_view(entries@).contains_key(k) implies entries_view(entries@)[k] == old_view.insert(key, value)[k] by {
                        let j = choose|j: int| 0 <= j < entries@.len() && entries@[j].0@ == k;
                        if j != i {
                            assert(entries@[j] == before[j]);
                            assert(entry_keys(before)[j] != entry_keys(before)[i as int]);
                        }
                    }
                    assert(entries_view(entries@) =~= old_view.insert(key, value));
                }
            },
            None => {
                entries.push((source_id, bytes));
                proof {
                    assert(entry_keys(entries@) =~= entry_keys(before).push(key));
                    assert(entries@.drop_last() =~= before);
                    assert(entries_view(entries@) =~= old_view.insert(key, value));
                }
            },
        }
        self.entries = entries;
    }

    /// The bytes stored for `source_id`, if any.
    pub fn get(&self, source_id: &str) -> (bytes: Option<&[u8]>)
        ensures
            bytes is Some <==> self.view().contains_key(source_id@),
            bytes matches Some(b) ==> b@ == self.view()[source_id@],
    {
        proof {
            use_type_invariant(self);
            lemma_entries_view(self.entries@);
        }
        let key = source_id.to_owned();
        match self.find(&key) {
            Some(i) => Some(self.entries[i].1.as_slice()),
            None => None,
        }
    }

    /// Drops every entry whose source id is not in `live_source_ids`.
    pub fn prune_orphans(&mut self, live_source_ids: &[String])
        ensures
            final(self).view() == old(self).view().restrict(
                Set::new(|k: Seq<char>| listed(live_source_ids@, k)),
            ),
    {
        proof {
            use_type_invariant(&*self);
            lemma_entries_view(self.entries@);
        }
        let ghost live = Set::new(|k: Seq<char>| listed(live_source_ids@, k));
        let ghost old_view = self.view();
        let mut kept: Vec<(String, Vec<u8>)> = Vec::new();
        let mut i: usize = 0;
        while i < self.entries.len()
            invariant
                i <= self.entries@.len(),
                entry_keys(self.entries@).no_duplicates(),
                entry_keys(kept@).no_duplicates(),
                live == Set::new(|k: Seq<char>| listed(live_source_ids@, k)),
                forall|k: int| 0 <= k < kept@.len() ==> live.contains(kept@[k].0@) && exists|j: int| 0 <= j < i && kept@[k].0@ == self.entries@[j].0@ && kept@[k].1@ == self.entries@[j].1@,
                forall|j: int| 0 <= j < i && live.contains(self.entries@[j].0@) ==> exists|k: int| 0 <= k < kept@.len() && kept@[k].0@ == self.entries@[j].0@,
            decreases self.entries@.len() - i,
        {
            let keep = contains_string(live_source_ids, &self.entries[i].0);
            proof {
                assert(live.contains(self.entries@[i as int].0@) == keep);
            }
            if keep {
                let key = self.entries[i].0.clone();
                let value = copy_bytes(self.entries[i].1.as_slice());
                proof {
                    assert forall|k: int| 0 <= k < kept@.len() implies kept@[k].0@ != key@ by {
                        let j = choose|j: int| 0 <= j < i && kept@[k].0@ == self.entries@[j].0@ && kept@[k].1@ == self.entries@[j].1@;
                        assert(entry_keys(self.entries@)[j] != entry_keys(self.entries@)[i as int]);
                    }
                }
                let ghost before = kept@;
                kept.push((key, value));
                proof {
                    assert(entry_keys(kept@) =~= entry_keys(before).push(key@));
                    assert forall|k: int| 0 <= k < kept@.len() implies live.contains(kept@[k].0@) && exists|j: int| 0 <= j < i + 1 && kept@[k].0@ == self.entries@[j].0@ && kept@[k].1@ == self.entries@[j].1@ by {
                        if k == before.len() {
                            assert(kept@[k].0@ == self.entries@[i as int].0@);
                        } else {
                            assert(kept@[k] == before[k]);
                        }
                    }
                    assert forall|j: int| 0 <= j < i + 1 && live.contains(self.entries@[j].0@) implies exists|k: int| 0 <= k < kept@.len() && kept@[k].0@ == self.entries@[j].0@ by {
                        if j == i {
                            assert(kept@[before.len() as int].0@ == self.entries@[j].0@);
                        } else {
                            let k = choose|k: int| 0 <= k < before.len() && before[k].0@ == self.entries@[j].0@;
                            assert(kept@[k] == before[k]);
                        }
                    }
                }
            }
            i += 1;
        }
        proof {
            lemma_entries_view(kept@);
            assert(entries_view(kept@) =~= old_view.restrict(live)) by {
                assert forall|k: Seq<char>| #[trigger] entries_view(kept@).contains_key(k) <==> old_view.restrict(live).contains_key(k) by {
                    if old_view.contains_key(k) && live.contains(k) {
                        let j = choose|j: int| 0 <= j < self.entries@.len() && self.entries@[j].0@ == k;
                        let m = choose|m: int| 0 <= m < kept@.len() && kept@[m].0@ == self.entries@[j].0@;
                    }
                    if entries_view(kept@).contains_key(k) {
                        let m = choose|m: int| 0 <= m < kept@.len() && kept@[m].0@ == k;
                        let j = choose|j: int| 0 <= j < self.entries@.len() && kept@[m].0@ == self.entries@[j].0@ && kept@[m].1@ == self.entries@[j].1@;
                    }
                }
                assert forall|k: Seq<char>| #[trigger] entries_view(kept@).contains_key(k) implies entries_view(kept@)[k] == old_view.restrict(live)[k] by {
                    let m = choose|m: int| 0 <= m < kept@.len() && kept@[m].0@ == k;
                    let j = choose|j: int| 0 <= j < self.entries@.len() && kept@[m].0@ == self.entries@[j].0@ && kept@[m].1@ == self.entries@[j].1@;
                }
            }
        }
        self.entries = kept;
    }
}

/// One cached stage result with the checksum of its bytes.
#[derive(Debug, Clone, PartialEq, Eq)]
pub struct CacheEntry {
    pub stage: CacheStage,
    pub key: String,
    pub bytes: Vec<u8>,
    pub checksum: String,
}

/// Why a cache write was refused.
#[derive(Debug, Clone, Copy, PartialEq, Eq, Structural)]
pub enum CacheError {
    /// The entry exceeds the configured size limit.
    TooLarge,
    /// The operation was cancelled.
    Cancelled,
    /// The checksum of the entry does not match its bytes.
    Corrupt,
}

/// The human-readable description of a cache error.
pub open spec fn cache_error_text(error: CacheError) -> Seq<char> {
    match error {
        CacheError::TooLarge => "cache entry exceeds configured size limit"@,
        CacheError::Cancelled => "cache operation was cancelled"@,
        CacheError::Corrupt => "cache checksum mismatch"@,
    }
}

impl CacheError {
    /// Human-readable description of the error.
    pub fn message(&self) -> (text: &'static str)
        ensures
            text@ == cache_error_text(*self),
    {
        match self {
            CacheError::TooLarge => "cache entry exceeds configured size limit",
            CacheError::Cancelled => "cache operation was cancelled",
            CacheError::Corrupt => "cache checksum mismatch",
        }
    }
}

/// The identity of a stored stage result: the stage and its stage digest.
pub type StageId = (CacheStage, Seq<char>);

/// The stage identity under which `key` stores `stage`.
pub open spec fn stage_id(stage: CacheStage, key: RenderKey) -> StageId {
    (stage, blake3_hex(key.message(scope_of(stage))))
}

/// A stored entry with its last-access stamp.
#[derive(Debug)]
struct CacheSlot {
    entry: CacheEntry,
    stamp: u64,
}

spec fn slot_id(slot: CacheSlot) -> StageId {
    (slot.entry.stage, slot.entry.key@)
}

spec fn ids_distinct(slots: Seq<CacheSlot>) -> bool {
    forall|i: int, j: int|
        #![trigger slots[i], slots[j]]
        0 <= i < slots.len() && 0 <= j < slots.len() && i != j ==> slot_id(slots[i]) != slot_id(slots[j])
}

spec fn holds_id(slots: Seq<CacheSlot>, id: StageId) -> bool {
    exists|i: int| 0 <= i < slots.len() && slot_id(#[trigger] slots[i]) == id
}

spec fn slot_of(slots: Seq<CacheSlot>, id: StageId) -> CacheSlot {
    slots[choose|i: int| 0 <= i < slots.len() && slot_id(#[trigger] slots[i]) == id]
}

spec fn bytes_view(slots: Seq<CacheSlot>) -> Map<StageId, Seq<u8>> {
    Map::new(|id: StageId| holds_id(slots, id), |id: StageId| slot_of(slots, id).entry.bytes@)
}

spec fn stamp_view(slots: Seq<CacheSlot>) -> Map<StageId, u64> {
    Map::new(|id: StageId| holds_id(slots, id), |id: StageId| slot_of(slots, id).stamp)
}

spec fn total_bytes(slots: Seq<CacheSlot>) -> nat
    decreases slots.len(),
{
    if slots.len() == 0 {
        0
    } else {
        total_bytes(slots.drop_last()) + slots.last().entry.bytes@.len()
    }
}

spec fn checksums_match(slots: Seq<CacheSlot>) -> bool {
    forall|i: int| 0 <= i < slots.len() ==> #[trigger] slots[i].entry.checksum@ == blake3_hex(slots[i].entry.bytes@)
}

proof fn lemma_slot_of(slots: Seq<CacheSlot>, i: int)
    requires
        ids_distinct(slots),
        0 <= i < slots.len(),
    ensures
        holds_id(slots, slot_id(slots[i])),
        slot_of(slots, slot_id(slots[i])) == slots[i],
        bytes_view(slots).contains_key(slot_id(slots[i])),
        bytes_view(slots)[slot_id(slots[i])] == slots[i].entry.bytes@,
        stamp_view(slots)[slot_id(slots[i])] == slots[i].stamp,
{
    let id = slot_id(slots[i]);
    assert(holds_id(slots, id));
    let j = choose|j: int| 0 <= j < slots.len() && slot_id(#[trigger] slots[j]) == id;
    assert(j == i);
}

proof fn lemma_total_bytes_concat(a: Seq<CacheSlot>, b: Seq<CacheSlot>)
    ensures
        total_bytes(a + b) == total_bytes(a) + total_bytes(b),
    decreases b.len(),
{
    if b.len() == 0 {
        assert(a + b =~= a);
    } else {
        assert((a + b).drop_last() =~= a + b.drop_last());
        lemma_total_bytes_concat(a, b.drop_last());
    }
}

proof fn lemma_total_bytes_remove(slots: Seq<CacheSlot>, i: int)
    requires
        0 <= i < slots.len(),
    ensures
        total_bytes(slots.remove(i)) + slots[i].entry.bytes@.len() == total_bytes(slots),
{
    let pre = slots.subrange(0, i);
    let post = slots.subrange(i + 1, slots.len() as int);
    assert(slots.remove(i) =~= pre + post);
    assert(slots =~= pre + seq![slots[i]] + post);
    lemma_total_bytes_concat(pre, post);
    lemma_total_bytes_concat(pre + seq![slots[i]], post);
    lemma_total_bytes_concat(pre, seq![slots[i]]);
    let single = seq![slots[i]];
    assert(single.drop_last() =~= Seq::<CacheSlot>::empty());
    assert(total_bytes(single) == total_bytes(single.drop_last()) + single.last().entry.bytes@.len());
    assert(total_bytes(single) == slots[i].entry.bytes@.len());
}

proof fn lemma_view_remove(slots: Seq<CacheSlot>, i: int)
    requires
        ids_distinct(slots),
        0 <= i < slots.len(),
    ensures
        ids_distinct(slots.remove(i)),
        checksums_match(slots) ==> checksums_match(slots.remove(i)),
        bytes_view(slots.remove(i)) == bytes_view(slots).remove(slot_id(slots[i])),
        stamp_view(slots.remove(i)) == stamp_view(slots).remove(slot_id(slots[i])),
        total_bytes(slots.remove(i)) + slots[i].entry.bytes@.len() == total_bytes(slots),
{
    let r = slots.remove(i);
    let id = slot_id(slots[i]);
    lemma_total_bytes_remove(slots, i);
    assert forall|k: int| 0 <= k < r.len() implies #[trigger] r[k] == (if k < i { slots[k] } else { slots[k + 1] }) by {}
    assert forall|a: int, b: int| #![trigger r[a], r[b]] 0 <= a < r.len() && 0 <= b < r.len() && a != b implies slot_id(r[a]) != slot_id(r[b]) by {
        let sa = if a < i { a } else { a + 1 };
        let sb = if b < i { b } else { b + 1 };
        assert(slots[sa] == r[a] && slots[sb] == r[b]);
    }
    if checksums_match(slots) {
        assert forall|k: int| 0 <= k < r.len() implies #[trigger] r[k].entry.checksum@ == blake3_hex(r[k].entry.bytes@) by {
            let sk = if k < i { k } else { k + 1 };
            assert(slots[sk] == r[k]);
        }
    }
    assert forall|x: StageId| #[trigger] holds_id(r, x) <==> holds_id(slots, x) && x != id by {
        if holds_id(r, x) {
            let k = choose|k: int| 0 <= k < r.len() && slot_id(#[trigger] r[k]) == x;
            let sk = if k < i { k } else { k + 1 };
            assert(slots[sk] == r[k]);
            assert(sk != i);
        }
        if holds_id(slots, x) && x != id {
            let k = choose|k: int| 0 <= k < slots.len() && slot_id(#[trigger] slots[k]) == x;
            let rk = if k < i { k } else { k - 1 };
            assert(r[rk] == slots[k]);
        }
    }
    assert forall|x: StageId| holds_id(r, x) implies #[trigger] slot_of(r, x) == slot_of(slots, x) by {
        let k = choose|k: int| 0 <= k < r.len() && slot_id(#[trigger] r[k]) == x;
        let sk = if k < i { k } else { k + 1 };
        assert(slots[sk] == r[k]);
        lemma_slot_of(r, k);
        lemma_slot_of(slots, sk);
    }
    assert(bytes_view(r) =~= bytes_view(slots).remove(id));
    assert(stamp_view(r) =~= stamp_view(slots).remove(id));
}

#[verifier::spinoff_prover]
proof fn lemma_view_push(slots: Seq<CacheSlot>, slot: CacheSlot)
    requires
        ids_distinct(slots),
        !holds_id(slots, slot_id(slot)),
    ensures
        ids_distinct(slots.push(slot)),
        checksums_match(slots) && slot.entry.checksum@ == blake3_hex(slot.entry.bytes@) ==> checksums_match(slots.push(slot)),
        bytes_view(slots.push(slot)) == bytes_view(slots).insert(slot_id(slot), slot.entry.bytes@),
        stamp_view(slots.push(slot)) == stamp_view(slots).insert(slot_id(slot), slot.stamp),
        total_bytes(slots.push(slot)) == total_bytes(slots) + slot.entry.bytes@.len(),
{
    let r = slots.push(slot);
    let id = slot_id(slot);
    assert(r.drop_last() =~= slots);
    assert forall|a: int, b: int| #![trigger r[a], r[b]] 0 <= a < r.len() && 0 <= b < r.len() && a != b implies slot_id(r[a]) != slot_id(r[b]) by {
        if a == slots.len() {
            assert(slots[b] == r[b]);
        } else if b == slots.len() {
            assert(slots[a] == r[a]);
        } else {
            assert(slots[a] == r[a] && slots[b] == r[b]);
        }
    }
    if checksums_match(slots) && slot.entry.checksum@ == blake3_hex(slot.entry.bytes@) {
        assert forall|k: int| 0 <= k < r.len() implies #[trigger] r[k].entry.checksum@ == blake3_hex(r[k].entry.bytes@) by {
            if k < slots.len() {
                assert(slots[k] == r[k]);
                assert(slots[k].entry.checksum@ == blake3_hex(slots[k].entry.bytes@));
            } else {
                assert(r[k] == slot);
            }
        }
    }
    assert forall|x: StageId| #[trigger] holds_id(r, x) <==> holds_id(slots, x) || x == id by {
        if holds_id(r, x) && x != id {
            let k = choose|k: int| 0 <= k < r.len() && slot_id(#[trigger] r[k]) == x;
            assert(slots[k] == r[k]);
        }
        if holds_id(slots, x) {
            let k = choose|k: int| 0 <= k < slots.len() && slot_id(#[trigger] slots[k]) == x;
            assert(r[k] == slots[k]);
        }
        if x == id {
            assert(slot_id(r[slots.len() as int]) == x);
        }
    }
    assert forall|x: StageId| holds_id(r, x) implies #[trigger] slot_of(r, x) == (if x == id { slot } else { slot_of(slots, x) }) by {
        let k = choose|k: int| 0 <= k < r.len() && slot_id(#[trigger] r[k]) == x;
        lemma_slot_of(r, k);
        if k < slots.len() {
            assert(slots[k] == r[k]);
            lemma_slot_of(slots, k);
        }
    }
    assert(bytes_view(r) =~= bytes_view(slots).insert(id, slot.entry.bytes@));
    assert(stamp_view(r) =~= stamp_view(slots).insert(id, slot.stamp));
}

#[verifier::spinoff_prover]
proof fn lemma_view_restamp(slots: Seq<CacheSlot>, i: int, stamp: u64)
    requires
        ids_distinct(slots),
        0 <= i < slots.len(),
    ensures
        ({
            let r = slots.update(i, CacheSlot { entry: slots[i].entry, stamp });
            &&& ids_distinct(r)
            &&& checksums_match(slots) ==> checksums_match(r)
            &&& bytes_view(r) == bytes_view(slots)
            &&& stamp_view(r) == stamp_view(slots).insert(slot_id(slots[i]), stamp)
            &&& total_bytes(r) == total_bytes(slots)
        }),
{
    let slot = CacheSlot { entry: slots[i].entry, stamp };
    let r = slots.update(i, slot);
    lemma_view_remove(slots, i);
    assert(r.remove(i) =~= slots.remove(i));
    assert(r[i] == slot);
    assert forall|a: int, b: int| #![trigger r[a], r[b]] 0 <= a < r.len() && 0 <= b < r.len() && a != b implies slot_id(r[a]) != slot_id(r[b]) by {
        assert(slot_id(r[a]) == slot_id(slots[a]));
        assert(slot_id(r[b]) == slot_id(slots[b]));
    }
    lemma_view_remove(r, i);
    lemma_slot_of(r, i);
    lemma_slot_of(slots, i);
    assert(bytes_view(r) =~= bytes_view(r.remove(i)).insert(slot_id(slot), slot.entry.bytes@));
    assert(bytes_view(slots) =~= bytes_view(slots.remove(i)).insert(slot_id(slot), slot.entry.bytes@));
    assert(stamp_view(r) =~= stamp_view(slots).insert(slot_id(slots[i]), stamp));
    lemma_total_bytes_remove(r, i);
    lemma_total_bytes_remove(slots, i);
}

/// The byte total of the slots is that of their view.
proof fn lemma_total_is_view_total(slots: Seq<CacheSlot>)
    requires
        ids_distinct(slots),
    ensures
        bytes_view(slots).dom().finite(),
        total_bytes(slots) == bytes_total(bytes_view(slots)),
    decreases slots.len(),
{
    if slots.len() == 0 {
        assert(bytes_view(slots) =~= Map::<StageId, Seq<u8>>::empty());
    } else {
        let init = slots.drop_last();
        let last = slots.last();
        assert forall|a: int, b: int| #![trigger init[a], init[b]] 0 <= a < init.len() && 0 <= b < init.len() && a != b implies slot_id(init[a]) != slot_id(init[b]) by {
            assert(init[a] == slots[a] && init[b] == slots[b]);
        }
        if holds_id(init, slot_id(last)) {
            let k = choose|k: int| 0 <= k < init.len() && slot_id(#[trigger] init[k]) == slot_id(last);
            assert(slots[k] == init[k]);
            assert(slots[slots.len() - 1] == last);
        }
        lemma_total_is_view_total(init);
        lemma_view_push(init, last);
        assert(init.push(last) =~= slots);
        lemma_bytes_total_insert(bytes_view(init), slot_id(last), last.entry.bytes@);
    }
}

/// The index of the first slot with the smallest access stamp.
fn oldest_slot(slots: &Vec<CacheSlot>) -> (index: usize)
    requires
        slots@.len() > 0,
    ensures
        index < slots@.len(),
        forall|k: int| 0 <= k < slots@.len() ==> slots@[index as int].stamp <= #[trigger] slots@[k].stamp,
{
    let mut best: usize = 0;
    let mut i: usize = 1;
    while i < slots.len()
        invariant
            0 < i <= slots@.len(),
            best < i,
            forall|k: int| 0 <= k < i ==> slots@[best as int].stamp <= #[trigger] slots@[k].stamp,
        decreases slots@.len() - i,
    {
        if slots[i].stamp < slots[best].stamp {
            best = i;
        }
        i += 1;
    }
    best
}

/// Whether `id` was present in `before`, is not `fresh`, and is gone from `after`.
pub open spec fn was_evicted(before: Map<StageId, Seq<u8>>, after: Map<StageId, Seq<u8>>, fresh: StageId, id: StageId) -> bool {
    before.contains_key(id) && id != fresh && !after.contains_key(id)
}

/// A byte-budgeted store of checksummed stage results, evicting the least
/// recently used entries to make room.
#[derive(Debug)]
pub struct CacheStore {
    slots: Vec<CacheSlot>,
    max_bytes: usize,
    used_bytes: usize,
    clock: u64,
}

impl CacheStore {
    #[verifier::type_invariant]
    spec fn inv(self) -> bool {
        &&& ids_distinct(self.slots@)
        &&& checksums_match(self.slots@)
        &&& self.used_bytes == total_bytes(self.slots@)
        &&& self.used_bytes <= self.max_bytes
    }

    /// The cached bytes per stage identity.
    pub closed spec fn view(&self) -> Map<StageId, Seq<u8>> {
        bytes_view(self.slots@)
    }

    /// The access stamp of every cached stage identity.
    pub closed spec fn stamps(&self) -> Map<StageId, u64> {
        stamp_view(self.slots@)
    }

    /// The access clock: the stamp given to the next access minus one.
    pub closed spec fn spec_clock(&self) -> u64 {
        self.clock
    }

    /// The byte budget.
    pub closed spec fn spec_max_bytes(&self) -> nat {
        self.max_bytes as nat
    }

    /// The bytes held, summed over all entries.
    pub closed spec fn spec_used_bytes(&self) -> nat {
        self.used_bytes as nat
    }

    /// An empty store holding at most `max_bytes` bytes.
    pub fn new(max_bytes: usize) -> (store: CacheStore)
        ensures
            store.view() == Map::<StageId, Seq<u8>>::empty(),
            store.stamps() == Map::<StageId, u64>::empty(),
            store.spec_max_bytes() == max_bytes,
            store.spec_used_bytes() == 0,
            store.spec_clock() == 0,
            store.view().dom().finite(),
            store.spec_used_bytes() == bytes_total(store.view()),
    {
        let store = CacheStore { slots: Vec::new(), max_bytes, used_bytes: 0, clock: 0 };
        proof {
            lemma_total_is_view_total(store.slots@);
        }
        assert(store.view() =~= Map::<StageId, Seq<u8>>::empty());
        assert(store.stamps() =~= Map::<StageId, u64>::empty());
        store
    }

    fn position(&self, stage: CacheStage, key: &String) -> (index: Option<usize>)
        ensures
            index matches Some(i) ==> i < self.slots@.len() && slot_id(self.slots@[i as int]) == (stage, key@),
            index is None ==> !holds_id(self.slots@, (stage, key@)),
    {
        let mut i: usize = 0;
        while i < self.slots.len()
            invariant
                i <= self.slots@.len(),
                forall|k: int| 0 <= k < i ==> slot_id(#[trigger] self.slots@[k]) != (stage, key@),
            decreases self.slots@.len() - i,
        {
            if self.slots[i].entry.stage == stage && self.slots[i].entry.key == *key {
                return Some(i);
            }
            i += 1;
        }
        None
    }

    /// Moves the slots, byte count and clock out, leaving an empty store
    /// with the same budget.
    fn take_parts(&mut self) -> (parts: (Vec<CacheSlot>, usize, u64))
        ensures
            parts.0@ == old(self).slots@,
            parts.1 == old(self).used_bytes,
            parts.2 == old(self).clock,
            ids_distinct(parts.0@),
            checksums_match(parts.0@),
            parts.1 == total_bytes(parts.0@),
            parts.1 <= old(self).max_bytes,
            final(self).max_bytes == old(self).max_bytes,
    {
        proof {
            use_type_invariant(&*self);
        }
        let mut taken = CacheStore { slots: Vec::new(), max_bytes: self.max_bytes, used_bytes: 0, clock: self.clock };
        std::mem::swap(self, &mut taken);
        proof {
            use_type_invariant(&taken);
        }
        let CacheStore { slots, max_bytes: _, used_bytes, clock } = taken;
        (slots, used_bytes, clock)
    }

    /// The stored bytes of `stage` for `key`, refreshing the entry's access
    /// stamp. An entry whose checksum no longer matches is dropped.
    pub fn get(&mut self, stage: CacheStage, key: &RenderKey) -> (bytes: Option<Vec<u8>>)
        ensures
            ({
                let id = stage_id(stage, *key);
                &&& bytes is Some <==> old(self).view().contains_key(id)
                &&& (bytes matches Some(b) ==> b@ == old(self).view()[id])
                &&& final(self).view() == old(self).view()
                &&& final(self).spec_max_bytes() == old(self).spec_max_bytes()
                &&& final(self).spec_used_bytes() == old(self).spec_used_bytes()
                &&& if old(self).view().contains_key(id) {
                    &&& final(self).spec_clock() == old(self).spec_clock().wrapping_add(1)
                    &&& final(self).stamps() == old(self).stamps().insert(id, final(self).spec_clock())
                } else {
                    &&& final(self).spec_clock() == old(self).spec_clock()
                    &&& final(self).stamps() == old(self).stamps()
                }
            }),
            final(self).view().dom().finite(),
            final(self).spec_used_bytes() == bytes_total(final(self).view()),
    {
        let bytes = self.get_entry(stage, key);
        proof {
            use_type_invariant(&*self);
            lemma_total_is_view_total(self.slots@);
        }
        bytes
    }

    fn get_entry(&mut self, stage: CacheStage, key: &RenderKey) -> (bytes: Option<Vec<u8>>)
        ensures
            ({
                let id = stage_id(stage, *key);
                &&& bytes is Some <==> old(self).view().contains_key(id)
                &&& (bytes matches Some(b) ==> b@ == old(self).view()[id])
                &&& final(self).view() == old(self).view()
                &&& final(self).spec_max_bytes() == old(self).spec_max_bytes()
                &&& final(self).spec_used_bytes() == old(self).spec_used_bytes()
                &&& if old(self).view().contains_key(id) {
                    &&& final(self).spec_clock() == old(self).spec_clock().wrapping_add(1)
                    &&& final(self).stamps() == old(self).stamps().insert(id, final(self).spec_clock())
                } else {
                    &&& final(self).spec_clock() == old(self).spec_clock()
                    &&& final(self).stamps() == old(self).stamps()
                }
            }),
    {
        proof {
            use_type_invariant(&*self);
        }
        let digest = key.stage_digest(stage);
        let ghost id = (stage, digest@);
        let found = self.position(stage, &digest);
        match found {
            None => None,
            Some(i) => {
                proof {
                    lemma_slot_of(self.slots@, i as int);
                }
                let check = blake3_hex_digest(self.slots[i].entry.bytes.as_slice());
                if check != self.slots[i].entry.checksum {
                    proof {
                        assert(self.slots@[i as int].entry.checksum@ == blake3_hex(self.slots@[i as int].entry.bytes@));
                    }
                    let max_bytes = self.max_bytes;
                    let (mut slots, mut used, clock) = self.take_parts();
                    used = used - slots[i].entry.bytes.len();
                    proof {
                        lemma_view_remove(slots@, i as int);
                    }
                    slots.remove(i);
                    *self = CacheStore { slots, max_bytes, used_bytes: used, clock };
                    return None;
                }
                let copy = copy_bytes(self.slots[i].entry.bytes.as_slice());
                let max_bytes = self.max_bytes;
                let (mut slots, used, clock) = self.take_parts();
                let now = clock.wrapping_add(1);
                let ghost before = slots@;
                let entry = slots.remove(i).entry;
                proof {
                    lemma_view_restamp(before, i as int, now);
                    let r = before.update(i as int, CacheSlot { entry: before[i as int].entry, stamp: now });
                    assert(slots@ =~= before.remove(i as int));
                    assert(r.remove(i as int) =~= before.remove(i as int));
                }
                slots.insert(i, CacheSlot { entry, stamp: now });
                proof {
                    assert(slots@ =~= before.update(i as int, CacheSlot { entry: before[i as int].entry, stamp: now }));
                }
                *self = CacheStore { slots, max_bytes, used_bytes: used, clock: now };
                Some(copy)
            },
        }
    }

    /// What a write of `bytes` under `id` that was not cancelled leaves:
    /// `TooLarge` with nothing changed when the bytes exceed the budget;
    /// otherwise the bytes under `id` with a fresh stamp, and the least
    /// recently used other entries evicted, no more of them than needed to
    /// make room.
    pub open spec fn put_outcome(
        before: &CacheStore,
        after: &CacheStore,
        id: StageId,
        bytes: Seq<u8>,
        result: Result<(), CacheError>,
    ) -> bool {
        &&& after.spec_max_bytes() == before.spec_max_bytes()
        &&& if bytes.len() > before.spec_max_bytes() {
            &&& result == Err::<(), CacheError>(CacheError::TooLarge)
            &&& after.view() == before.view()
            &&& after.stamps() == before.stamps()
            &&& after.spec_clock() == before.spec_clock()
            &&& after.spec_used_bytes() == before.spec_used_bytes()
        } else {
            &&& result == Ok::<(), CacheError>(())
            &&& after.view().contains_key(id)
            &&& after.view()[id] == bytes
            &&& after.spec_clock() == before.spec_clock().wrapping_add(1)
            &&& after.stamps() .contains_key(id)
            &&& after.stamps()[id] == after.spec_clock()
            &&& after.stamps().dom() == after.view().dom()
            &&& after.spec_used_bytes() <= after.spec_max_bytes()
            &&& forall|x: StageId|
                #![trigger after.view().contains_key(x)]
                after.view().contains_key(x) && x != id ==> {
                    &&& before.view().contains_key(x)
                    &&& after.view()[x] == before.view()[x]
                    &&& after.stamps()[x] == before.stamps()[x]
                }
            &&& forall|e: StageId, k: StageId|
                #![trigger was_evicted(before.view(), after.view(), id, e), after.view().contains_key(k)]
                was_evicted(before.view(), after.view(), id, e) && after.view().contains_key(k) && k != id
                    ==> before.stamps()[e] <= before.stamps()[k]
            &&& (exists|e: StageId| #[trigger] was_evicted(before.view(), after.view(), id, e)) ==> exists|e: StageId| {
                &&& #[trigger] was_evicted(before.view(), after.view(), id, e)
                &&& after.spec_used_bytes() + before.view()[e].len() > after.spec_max_bytes()
                &&& forall|f: StageId| #[trigger] was_evicted(before.view(), after.view(), id, f) ==> before.stamps()[f] <= before.stamps()[e]
            }
        }
    }

    /// Writes `bytes` as the result of `stage` for `key` (the write of a job
    /// that was not cancelled).
    pub fn put_active(&mut self, stage: CacheStage, key: &RenderKey, bytes: Vec<u8>) -> (result: Result<(), CacheError>)
        ensures
            CacheStore::put_outcome(old(self), final(self), stage_id(stage, *key), bytes@, result),
            final(self).view().dom().finite(),
            final(self).spec_used_bytes() == bytes_total(final(self).view()),
    {
        let result = self.put_checked(stage, key, bytes);
        proof {
            use_type_invariant(&*self);
            lemma_total_is_view_total(self.slots@);
        }
        result
    }

    fn put_checked(&mut self, stage: CacheStage, key: &RenderKey, bytes: Vec<u8>) -> (result: Result<(), CacheError>)
        ensures
            CacheStore::put_outcome(old(self), final(self), stage_id(stage, *key), bytes@, result),
    {
        proof {
            use_type_invariant(&*self);
        }
        if bytes.len() > self.max_bytes {
            return Err(CacheError::TooLarge);
        }
        let digest = key.stage_digest(stage);
        let ghost id = (stage, digest@);
        let ghost old_view = self.view();
        let ghost old_stamps = self.stamps();
        let max_bytes = self.max_bytes;
        let found = self.position(stage, &digest);
        let (mut slots, mut used, clock) = self.take_parts();
        match found {
            Some(i) => {
                proof {
                    lemma_view_remove(slots@, i as int);
                }
                used = used - slots[i].entry.bytes.len();
                slots.remove(i);
            },
            None => {
                proof {
                    assert(bytes_view(slots@).remove(id) =~= bytes_view(slots@));
                    assert(stamp_view(slots@).remove(id) =~= stamp_view(slots@));
                }
            },
        }
        let ghost base = slots@;
        let ghost mut last: Option<StageId> = None;
        let room = max_bytes - bytes.len();
        while used > room
            invariant
                room == max_bytes - bytes@.len(),
                bytes@.len() <= max_bytes,
                ids_distinct(slots@),
                checksums_match(slots@),
                used == total_bytes(slots@),
                ids_distinct(base),
                bytes_view(base) == old_view.remove(id),
                stamp_view(base) == old_stamps.remove(id),
                !holds_id(slots@, id),
                forall|x: StageId| #[trigger] bytes_view(slots@).contains_key(x) ==> {
                    &&& bytes_view(base).contains_key(x)
                    &&& bytes_view(slots@)[x] == bytes_view(base)[x]
                    &&& stamp_view(slots@)[x] == stamp_view(base)[x]
                },
                forall|e: StageId, k: StageId|
                    #![trigger bytes_view(base).contains_key(e), bytes_view(slots@).contains_key(k)]
                    bytes_view(base).contains_key(e) && !bytes_view(slots@).contains_key(e) && bytes_view(slots@).contains_key(k)
                        ==> stamp_view(base)[e] <= stamp_view(slots@)[k],
                last is None ==> bytes_view(slots@) == bytes_view(base),
                last matches Some(e) ==> {
                    &&& bytes_view(base).contains_key(e)
                    &&& !bytes_view(slots@).contains_key(e)
                    &&& used + bytes_view(base)[e].len() + bytes@.len() > max_bytes
                    &&& forall|f: StageId| #[trigger] bytes_view(base).contains_key(f) && !bytes_view(slots@).contains_key(f) ==> stamp_view(base)[f] <= stamp_view(base)[e]
                },
            decreases slots@.len(),
        {
            proof {
                if slots@.len() == 0 {
                    assert(total_bytes(slots@) == 0);
                }
            }
            let i = oldest_slot(&slots);
            let ghost before = slots@;
            let ghost victim = slot_id(before[i as int]);
            proof {
                lemma_slot_of(before, i as int);
                lemma_view_remove(before, i as int);
                assert forall|k: int| 0 <= k < before.len() implies stamp_view(before)[victim] <= #[trigger] stamp_view(before)[slot_id(before[k])] by {
                    lemma_slot_of(before, k);
                }
            }
            used = used - slots[i].entry.bytes.len();
            slots.remove(i);
            proof {
                let after = slots@;
                assert(bytes_view(base).contains_key(victim));
                assert forall|e: StageId, k: StageId|
                    #![trigger bytes_view(base).contains_key(e), bytes_view(after).contains_key(k)]
                    bytes_view(base).contains_key(e) && !bytes_view(after).contains_key(e) && bytes_view(after).contains_key(k)
                        implies stamp_view(base)[e] <= stamp_view(after)[k] by {
                    assert(bytes_view(before).contains_key(k));
                    let kk = choose|kk: int| 0 <= kk < before.len() && slot_id(#[trigger] before[kk]) == k;
                    lemma_slot_of(before, kk);
                    if e != victim {
                        assert(!bytes_view(before).contains_key(e));
                    }
                }
                assert forall|f: StageId| #[trigger] bytes_view(base).contains_key(f) && !bytes_view(after).contains_key(f) implies stamp_view(base)[f] <= stamp_view(base)[victim] by {
                    if f != victim {
                        assert(!bytes_view(before).contains_key(f));
                    }
                }
                last = Some(victim);
            }
        }
        let checksum = blake3_hex_digest(bytes.as_slice());
        let now = clock.wrapping_add(1);
        let ghost new_bytes = bytes@;
        let slot = CacheSlot { entry: CacheEntry { stage, key: digest, bytes, checksum }, stamp: now };
        proof {
            lemma_view_push(slots@, slot);
        }
        let ghost kept = slots@;
        slots.push(slot);
        used = used + slot_len(&slots);
        *self = CacheStore { slots, max_bytes, used_bytes: used, clock: now };
        proof {
            let after = self.view();
            assert(after == bytes_view(kept).insert(id, new_bytes));
            assert(self.stamps().dom() =~= after.dom());
            assert forall|x: StageId| #![trigger after.contains_key(x)] after.contains_key(x) && x != id implies {
                &&& old_view.contains_key(x)
                &&& after[x] == old_view[x]
                &&& self.stamps()[x] == old_stamps[x]
            } by {
                assert(bytes_view(kept).contains_key(x));
            }
            assert forall|e: StageId| #[trigger] was_evicted(old_view, after, id, e) <==> bytes_view(base).contains_key(e) && !bytes_view(kept).contains_key(e) by {}
            if exists|e: StageId| #[trigger] was_evicted(old_view, after, id, e) {
                let e = choose|e: StageId| #[trigger] was_evicted(old_view, after, id, e);
                assert(bytes_view(base).contains_key(e) && !bytes_view(kept).contains_key(e));
                assert(last is Some);
                let w = last->Some_0;
                assert(was_evicted(old_view, after, id, w));
            }
        }
        Ok(())
    }

    /// Keeps exactly the entries whose flag in `keep` is set; the flags
    /// follow `pred` on the entries' identities.
    fn retain_slots(&mut self, keep: &Vec<bool>, Ghost(pred): Ghost<spec_fn(StageId) -> bool>)
        requires
            keep@.len() == old(self).slots@.len(),
            forall|i: int| 0 <= i < keep@.len() ==> keep@[i] == pred(slot_id(#[trigger] old(self).slots@[i])),
        ensures
            final(self).view() == old(self).view().restrict(Set::new(pred)),
            final(self).stamps() == old(self).stamps().restrict(Set::new(pred)),
            final(self).spec_clock() == old(self).spec_clock(),
            final(self).spec_max_bytes() == old(self).spec_max_bytes(),
    {
        let max_bytes = self.max_bytes;
        let (slots, used, clock) = self.take_parts();
        let ghost all = slots@;
        let mut rest = slots;
        let mut kept: Vec<CacheSlot> = Vec::new();
        let mut kept_used: usize = 0;
        while rest.len() > 0
            invariant
                ids_distinct(all),
                checksums_match(all),
                used == total_bytes(all),
                used <= max_bytes,
                keep@.len() == all.len(),
                forall|i: int| 0 <= i < keep@.len() ==> keep@[i] == pred(slot_id(#[trigger] all[i])),
                rest@.len() <= all.len(),
                rest@ == all.subrange(0, rest@.len() as int),
                ids_distinct(kept@),
                checksums_match(kept@),
                kept_used == total_bytes(kept@),
                kept_used + total_bytes(rest@) <= used,
                forall|x: StageId| #[trigger] holds_id(kept@, x) <==> pred(x) && exists|i: int| rest@.len() <= i < all.len() && slot_id(#[trigger] all[i]) == x,
                forall|x: StageId| #[trigger] holds_id(kept@, x) ==> slot_of(kept@, x) == slot_of(all, x),
            decreases rest@.len(),
        {
            let n = rest.len() - 1;
            let flag = keep[n];
            let ghost before = rest@;
            proof {
                assert(before.drop_last() =~= all.subrange(0, n as int));
                assert(before.last() == all[n as int]);
            }
            match rest.pop() {
                Some(slot) => {
                    proof {
                        assert(rest@ =~= before.drop_last());
                        assert(slot == all[n as int]);
                        lemma_slot_of(all, n as int);
                    }
                    if flag {
                        let ghost kb = kept@;
                        proof {
                            assert(!holds_id(kb, slot_id(slot))) by {
                                if holds_id(kb, slot_id(slot)) {
                                    let i = choose|i: int| rest@.len() < i < all.len() && slot_id(#[trigger] all[i]) == slot_id(slot);
                                    assert(slot_id(all[i]) == slot_id(all[n as int]));
                                }
                            }
                            lemma_view_push(kb, slot);
                            assert(checksums_match(kb.push(slot))) by {
                                assert(all[n as int].entry.checksum@ == blake3_hex(all[n as int].entry.bytes@));
                            }
                        }
                        kept_used = kept_used + slot.entry.bytes.len();
                        kept.push(slot);
                        proof {
                            let kn = kept@;
                            assert(kn == kb.push(slot));
                            assert forall|x: StageId| #[trigger] holds_id(kn, x) <==> pred(x) && exists|i: int| rest@.len() <= i < all.len() && slot_id(#[trigger] all[i]) == x by {
                                if pred(x) && exists|i: int| rest@.len() <= i < all.len() && slot_id(#[trigger] all[i]) == x {
                                    let i = choose|i: int| rest@.len() <= i < all.len() && slot_id(#[trigger] all[i]) == x;
                                    if i != n {
                                        assert(holds_id(kb, x));
                                    }
                                    assert(bytes_view(kn).contains_key(x));
                                }
                                if holds_id(kn, x) && x != slot_id(slot) {
                                    assert(bytes_view(kb).contains_key(x));
                                }
                            }
                            assert forall|x: StageId| #[trigger] holds_id(kn, x) implies slot_of(kn, x) == slot_of(all, x) by {
                                lemma_slot_of(kn, kb.len() as int);
                                if x != slot_id(slot) {
                                    assert(bytes_view(kb).contains_key(x));
                                    let k = choose|k: int| 0 <= k < kb.len() && slot_id(#[trigger] kb[k]) == x;
                                    lemma_slot_of(kb, k);
                                    lemma_slot_of(kn, k);
                                    assert(kn[k] == kb[k]);
                                }
                            }
                        }
                    } else {
                        proof {
                            assert forall|x: StageId| #[trigger] holds_id(kept@, x) <==> pred(x) && exists|i: int| rest@.len() <= i < all.len() && slot_id(#[trigger] all[i]) == x by {
                                if pred(x) && exists|i: int| rest@.len() <= i < all.len() && slot_id(#[trigger] all[i]) == x {
                                    let i = choose|i: int| rest@.len() <= i < all.len() && slot_id(#[trigger] all[i]) == x;
                                    assert(i != n);
                                }
                            }
                        }
                    }
                },
                None => {},
            }
        }
        proof {
            assert forall|x: StageId| #[trigger] holds_id(kept@, x) <==> pred(x) && holds_id(all, x) by {
                if holds_id(all, x) {
                    let i = choose|i: int| 0 <= i < all.len() && slot_id(#[trigger] all[i]) == x;
                }
            }
            assert(bytes_view(kept@) =~= bytes_view(all).restrict(Set::new(pred)));
            assert(stamp_view(kept@) =~= stamp_view(all).restrict(Set::new(pred)));
        }
        *self = CacheStore { slots: kept, max_bytes, used_bytes: kept_used, clock };
    }

    /// Drops every entry of a stage that a change of `changed` invalidates.
    pub fn invalidate(&mut self, changed: CacheStage)
        ensures
            final(self).view() == old(self).view().restrict(Set::new(|id: StageId| !invalidates(changed, id.0))),
            final(self).stamps() == old(self).stamps().restrict(Set::new(|id: StageId| !invalidates(changed, id.0))),
            final(self).spec_clock() == old(self).spec_clock(),
            final(self).spec_max_bytes() == old(self).spec_max_bytes(),
            final(self).view().dom().finite(),
            final(self).spec_used_bytes() == bytes_total(final(self).view()),
    {
        self.invalidate_stages(changed);
        proof {
            use_type_invariant(&*self);
            lemma_total_is_view_total(self.slots@);
        }
    }

    fn invalidate_stages(&mut self, changed: CacheStage)
        ensures
            final(self).view() == old(self).view().restrict(Set::new(|id: StageId| !invalidates(changed, id.0))),
            final(self).stamps() == old(self).stamps().restrict(Set::new(|id: StageId| !invalidates(changed, id.0))),
            final(self).spec_clock() == old(self).spec_clock(),
            final(self).spec_max_bytes() == old(self).spec_max_bytes(),
    {
        let ghost pred = |id: StageId| !invalidates(changed, id.0);
        let mut keep: Vec<bool> = Vec::new();
        let mut i: usize = 0;
        while i < self.slots.len()
            invariant
                i <= self.slots@.len(),
                keep@.len() == i,
                pred == (|id: StageId| !invalidates(changed, id.0)),
                forall|k: int| 0 <= k < i ==> keep@[k] == pred(slot_id(#[trigger] self.slots@[k])),
            decreases self.slots@.len() - i,
        {
            keep.push(!invalidated_by(changed, self.slots[i].entry.stage));
            i += 1;
        }
        self.retain_slots(&keep, Ghost(pred));
    }

    /// Drops every entry whose stage digest is not among `live_keys`.
    pub fn prune(&mut self, live_keys: &[String])
        ensures
            final(self).view() == old(self).view().restrict(Set::new(|id: StageId| listed(live_keys@, id.1))),
            final(self).stamps() == old(self).stamps().restrict(Set::new(|id: StageId| listed(live_keys@, id.1))),
            final(self).spec_clock() == old(self).spec_clock(),
            final(self).spec_max_bytes() == old(self).spec_max_bytes(),
            final(self).view().dom().finite(),
            final(self).spec_used_bytes() == bytes_total(final(self).view()),
    {
        self.prune_keys(live_keys);
        proof {
            use_type_invariant(&*self);
            lemma_total_is_view_total(self.slots@);
        }
    }

    fn prune_keys(&mut self, live_keys: &[String])
        ensures
            final(self).view() == old(self).view().restrict(Set::new(|id: StageId| listed(live_keys@, id.1))),
            final(self).stamps() == old(self).stamps().restrict(Set::new(|id: StageId| listed(live_keys@, id.1))),
            final(self).spec_clock() == old(self).spec_clock(),
            final(self).spec_max_bytes() == old(self).spec_max_bytes(),
    {
        let ghost pred = |id: StageId| listed(live_keys@, id.1);
        let mut keep: Vec<bool> = Vec::new();
        let mut i: usize = 0;
        while i < self.slots.len()
            invariant
                i <= self.slots@.len(),
                keep@.len() == i,
                pred == (|id: StageId| listed(live_keys@, id.1)),
                forall|k: int| 0 <= k < i ==> keep@[k] == pred(slot_id(#[trigger] self.slots@[k])),
            decreases self.slots@.len() - i,
        {
            keep.push(contains_string(live_keys, &self.slots[i].entry.key));
            i += 1;
        }
        self.retain_slots(&keep, Ghost(pred));
    }

    /// Writes `bytes` as the result of `stage` for `key` unless `cancellation`
    /// has been signalled, in which case nothing is committed.
    pub fn put(&mut self, stage: CacheStage, key: &RenderKey, bytes: Vec<u8>, cancellation: &Cancellation) -> (result: Result<(), CacheError>)
        ensures
            result == Err::<(), CacheError>(CacheError::Cancelled) ==> {
                &&& final(self).view() == old(self).view()
                &&& final(self).stamps() == old(self).stamps()
                &&& final(self).spec_clock() == old(self).spec_clock()
                &&& final(self).spec_max_bytes() == old(self).spec_max_bytes()
                &&& final(self).spec_used_bytes() == old(self).spec_used_bytes()
            },
            final(self).view().dom().finite(),
            final(self).spec_used_bytes() == bytes_total(final(self).view()),
            result != Err::<(), CacheError>(CacheError::Cancelled) ==> CacheStore::put_outcome(
                old(self),
                final(self),
                stage_id(stage, *key),
                bytes@,
                result,
            ),
    {
        if cancellation.is_cancelled() {
            proof {
                use_type_invariant(&*self);
                lemma_total_is_view_total(self.slots@);
            }
            return Err(CacheError::Cancelled);
        }
        self.put_active(stage, key, bytes)
    }
}

/// The byte length of the last slot.
fn slot_len(slots: &Vec<CacheSlot>) -> (len: usize)
    requires
        slots@.len() > 0,
    ensures
        len == slots@.last().entry.bytes@.len(),
{
    slots[slots.len() - 1].entry.bytes.len()
}

/// Whether a change of the `changed` stage invalidates cached `candidate`
/// results: a decode change invalidates everything, a mask change every
/// stage after masks; other stages invalidate nothing.
pub open spec fn invalidates(changed: CacheStage, candidate: CacheStage) -> bool {
    match changed {
        CacheStage::Decode => true,
        CacheStage::Mask => candidate == CacheStage::Preview || candidate == CacheStage::Histogram || candidate
            == CacheStage::Export,
        CacheStage::Preview => false,
        CacheStage::Histogram => false,
        CacheStage::Export => false,
    }
}

fn invalidated_by(changed: CacheStage, candidate: CacheStage) -> (invalid: bool)
    ensures
        invalid == invalidates(changed, candidate),
{
    match changed {
        CacheStage::Decode => true,
        CacheStage::Mask => match candidate {
            CacheStage::Preview | CacheStage::Histogram | CacheStage::Export => true,
            CacheStage::Decode | CacheStage::Mask => false,
        },
        CacheStage::Preview => false,
        CacheStage::Histogram => false,
        CacheStage::Export => false,
    }
}

/// A shared cancellation flag: clones observe the same flag.
#[derive(Debug, Clone)]
pub struct Cancellation(Arc<AtomicBool>);

impl Cancellation {
    /// A flag that has not been signalled.
    pub fn new() -> (cancellation: Cancellation) {
        Cancellation(Arc::new(AtomicBool::new(false)))
    }

    /// Signals cancellation to every holder of this flag.
    pub fn cancel(&self) {
        self.0.store(true, Ordering::Release);
    }

    /// Whether cancellation has been signalled. Other holders may signal at
    /// any time, so nothing is promised of the answer.
    pub fn is_cancelled(&self) -> (cancelled: bool) {
        self.0.load(Ordering::Acquire)
    }
}

impl Default for Cancellation {
    fn default() -> (cancellation: Cancellation) {
        Cancellation::new()
    }
}

/// Generation counter telling stale job results from current ones.
#[derive(Debug)]
pub struct StaleTracker {
    generation: AtomicU64,
}

impl StaleTracker {
    /// A tracker at generation zero.
    pub fn new() -> (tracker: StaleTracker) {
        StaleTracker { generation: AtomicU64::new(0) }
    }

    /// Starts a new job: advances the shared generation and returns it.
    pub fn begin(&self) -> (generation: u64) {
        let previous = self.generation.fetch_add(1, Ordering::AcqRel);
        previous.wrapping_add(1)
    }

    /// Whether no job was started after the one holding `generation`.
    pub fn is_current(&self, generation: u64) -> (current: bool) {
        self.generation.load(Ordering::Acquire) == generation
    }
}

impl Default for StaleTracker {
    fn default() -> (tracker: StaleTracker) {
        StaleTracker::new()
    }
}

/// A stage result written under one render identity is read back under
/// every identity whose digest message for that stage is the same: a
/// write that was not refused is visible to the next read of the stage.
pub proof fn lemma_written_stage_is_read_back(
    before: CacheStore,
    after: CacheStore,
    stage: CacheStage,
    written: RenderKey,
    read: RenderKey,
    bytes: Seq<u8>,
)
    requires
        CacheStore::put_outcome(&before, &after, stage_id(stage, written), bytes, Ok(())),
        written.message(scope_of(stage)) == read.message(scope_of(stage)),
    ensures
        after.view().contains_key(stage_id(stage, read)),
        after.view()[stage_id(stage, read)] == bytes,
{
}

/// A write refused by the budget leaves the store as it was.
pub proof fn lemma_refused_write_commits_nothing(
    before: CacheStore,
    after: CacheStore,
    id: StageId,
    bytes: Seq<u8>,
    result: Result<(), CacheError>,
)
    requires
        CacheStore::put_outcome(&before, &after, id, bytes, result),
        result is Err,
    ensures
        after.view() == before.view(),
        after.stamps() == before.stamps(),
        bytes.len() > before.spec_max_bytes(),
{
}

/// Every accepted write leaves the store within its byte budget, and only
/// entries older than every survivor are evicted.
pub proof fn lemma_accepted_write_fits_budget(
    before: CacheStore,
    after: CacheStore,
    id: StageId,
    bytes: Seq<u8>,
    evicted: StageId,
    survivor: StageId,
)
    requires
        CacheStore::put_outcome(&before, &after, id, bytes, Ok(())),
        was_evicted(before.view(), after.view(), id, evicted),
        after.view().contains_key(survivor),
        survivor != id,
    ensures
        after.spec_used_bytes() <= after.spec_max_bytes(),
        before.stamps()[evicted] <= before.stamps()[survivor],
{
    assert(bytes.len() <= before.spec_max_bytes());
}

/// A mask change keeps decoded sources and masks and drops every stage
/// after masks; a decode change drops everything.
pub proof fn lemma_invalidation_by_stage(changed: CacheStage, candidate: CacheStage)
    ensures
        changed == CacheStage::Mask ==> (invalidates(changed, candidate) <==> candidate != CacheStage::Decode
            && candidate != CacheStage::Mask),
        changed == CacheStage::Decode ==> invalidates(changed, candidate),
        changed != CacheStage::Decode && changed != CacheStage::Mask ==> !invalidates(changed, candidate),
{
}

} // verus!
