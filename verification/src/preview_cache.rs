//! Neighbor preview cache: the identity of a cached neighbor preview, the
//! asymmetric prefetch window around the active image, and the RAM LRU of
//! decoded preview frames with the active entry pinned.
use crate::byte_total::{bytes_total, lemma_bytes_total_insert};
use crate::cache::copy_bytes;
use crate::frame::ImageFrame;
use crate::hashing::{blake3_hex, blake3_hex_digest, le_u32, push_byte, push_bytes, push_u32_le, utf8};
use crate::pipeline::{nul_terminated, push_nul_terminated};
use vstd::prelude::*;

verus! {

/// Resolution of a cached neighbor preview.
#[derive(Debug, Clone, Copy, PartialEq, Eq, Hash, Structural)]
pub enum PreviewKind {
    /// Aspect-true panel-fit resolution, the default.
    Screen,
    /// 1:1 preview, an inherited opt-in folder option.
    OneToOne,
}

/// The ASCII bytes of a preview kind's name.
pub open spec fn kind_name(kind: PreviewKind) -> Seq<u8> {
    match kind {
        PreviewKind::Screen => seq![115u8, 99, 114, 101, 101, 110],
        PreviewKind::OneToOne => seq![49u8, 58, 49],
    }
}

impl PreviewKind {
    /// Stable name: `screen` or `1:1`.
    pub fn as_str(self) -> (name: &'static str)
        ensures
            name@ == (match self {
                PreviewKind::Screen => seq!['s', 'c', 'r', 'e', 'e', 'n'],
                PreviewKind::OneToOne => seq!['1', ':', '1'],
            }),
    {
        match self {
            PreviewKind::Screen => {
                proof {
                    reveal_strlit("screen");
                }
                "screen"
            },
            PreviewKind::OneToOne => {
                proof {
                    reveal_strlit("1:1");
                }
                "1:1"
            },
        }
    }
}

/// Encoder parameters that participate in the cache identity.
#[derive(Debug, Clone, Copy, PartialEq, Eq, Hash, Structural)]
pub struct PreviewEncode {
    pub lossless: bool,
    /// Only meaningful when `lossless` is false; 0..=100 (100 is lossless).
    pub quality: u8,
}

impl Default for PreviewEncode {
    fn default() -> (encode: Self)
        ensures
            encode == (PreviewEncode { lossless: true, quality: 100 }),
    {
        PreviewEncode { lossless: true, quality: 100 }
    }
}

/// Full cache identity of one neighbor preview; every field takes part in
/// the digest.
#[derive(Debug, Clone, PartialEq, Eq, Hash)]
pub struct PreviewKey {
    pub source_content_hash: String,
    pub decode_context: String,
    pub pipeline_version: String,
    pub virtual_copy_id: String,
    pub render_key: String,
    pub kind: PreviewKind,
    pub width: u32,
    pub height: u32,
    pub encode: PreviewEncode,
}

impl PreviewKey {
    /// The canonical byte message whose BLAKE3 hash is the key digest:
    /// `preview`, NUL, the five identity strings each NUL-terminated, the
    /// kind name and NUL, width and height little-endian, the lossless flag
    /// and the quality byte.
    pub open spec fn message(&self) -> Seq<u8> {
        seq![112u8, 114, 101, 118, 105, 101, 119, 0] + nul_terminated(self.source_content_hash@) + nul_terminated(
            self.decode_context@,
        ) + nul_terminated(self.pipeline_version@) + nul_terminated(self.virtual_copy_id@) + nul_terminated(
            self.render_key@,
        ) + kind_name(self.kind) + seq![0u8] + le_u32(self.width) + le_u32(self.height) + seq![
            if self.encode.lossless { 1u8 } else { 0u8 },
            self.encode.quality,
        ]
    }

    /// Stable cache-key digest: the lowercase hex BLAKE3 hash of
    /// [`PreviewKey::message`].
    pub fn digest(&self) -> (digest: String)
        ensures
            digest@ == blake3_hex(self.message()),
    {
        let mut message: Vec<u8> = Vec::new();
        message.push(112);
        message.push(114);
        message.push(101);
        message.push(118);
        message.push(105);
        message.push(101);
        message.push(119);
        message.push(0);
        push_nul_terminated(&mut message, self.source_content_hash.as_str());
        push_nul_terminated(&mut message, self.decode_context.as_str());
        push_nul_terminated(&mut message, self.pipeline_version.as_str());
        push_nul_terminated(&mut message, self.virtual_copy_id.as_str());
        push_nul_terminated(&mut message, self.render_key.as_str());
        let ghost before_kind = message@;
        match self.kind {
            PreviewKind::Screen => {
                message.push(115);
                message.push(99);
                message.push(114);
                message.push(101);
                message.push(101);
                message.push(110);
            },
            PreviewKind::OneToOne => {
                message.push(49);
                message.push(58);
                message.push(49);
            },
        }
        proof {
            assert(message@ =~= before_kind + kind_name(self.kind));
        }
        push_byte(&mut message, 0);
        push_u32_le(&mut message, self.width);
        push_u32_le(&mut message, self.height);
        push_byte(&mut message, if self.encode.lossless { 1u8 } else { 0u8 });
        push_byte(&mut message, self.encode.quality);
        proof {
            assert(message@ =~= self.message());
        }
        blake3_hex_digest(message.as_slice())
    }
}

/// One planned neighbor of the prefetch window.
#[derive(Debug, Clone, Copy, PartialEq, Eq, Structural)]
pub struct PrefetchSlot {
    /// Index into the ordered source list, always inside its bounds.
    pub index: usize,
    /// Offset from the active image (negative is backwards).
    pub offset: i64,
    /// Priority rank, 0 the highest.
    pub priority: u8,
}

/// The neighbor offsets with their priority ranks, highest priority first:
/// `+1 > +2 > -1 > +3 > -2 > +4`.
pub open spec fn window_offsets() -> Seq<(i64, u8)> {
    seq![(1i64, 0u8), (2i64, 1u8), (-1i64, 2u8), (3i64, 3u8), (-2i64, 4u8), (4i64, 5u8)]
}

/// The slots of `offsets` around `active` that fall inside `0..count`, in
/// the order of `offsets`.
pub open spec fn window_slots(active: int, count: int, offsets: Seq<(i64, u8)>) -> Seq<PrefetchSlot>
    decreases offsets.len(),
{
    if offsets.len() == 0 {
        Seq::empty()
    } else {
        let earlier = window_slots(active, count, offsets.drop_last());
        let (offset, priority) = offsets.last();
        let index = active + offset;
        if 0 <= index < count {
            earlier.push(PrefetchSlot { index: index as usize, offset, priority })
        } else {
            earlier
        }
    }
}

/// The asymmetric +4 / -2 prefetch window around `active` in a folder of
/// `count` images, highest priority first; neighbors outside the folder are
/// skipped (no wrap-around).
pub fn prefetch_window(active: usize, count: usize) -> (slots: Vec<PrefetchSlot>)
    requires
        active + 4 <= i64::MAX,
    ensures
        slots@ == window_slots(active as int, count as int, window_offsets()),
{
    let offsets: [(i64, u8); 6] = [(1, 0), (2, 1), (-1, 2), (3, 3), (-2, 4), (4, 5)];
    let ghost all = window_offsets();
    proof {
        assert(offsets@ =~= all);
    }
    let mut slots: Vec<PrefetchSlot> = Vec::new();
    let mut k: usize = 0;
    while k < 6
        invariant
            k <= 6,
            offsets@ == all,
            all == window_offsets(),
            active + 4 <= i64::MAX,
            slots@ == window_slots(active as int, count as int, all.subrange(0, k as int)),
        decreases 6 - k,
    {
        let (offset, priority) = offsets[k];
        proof {
            assert(all.subrange(0, k + 1).drop_last() =~= all.subrange(0, k as int));
            assert(all.subrange(0, k + 1).last() == all[k as int]);
        }
        let index: i64 = active as i64 + offset;
        if index >= 0 && (index as u64) < (count as u64) {
            slots.push(PrefetchSlot { index: index as usize, offset, priority });
        }
        k += 1;
    }
    proof {
        assert(all.subrange(0, 6) =~= all);
    }
    slots
}

/// The observable content of a frame: width, height and pixel bytes.
pub open spec fn frame_view(frame: ImageFrame) -> (u32, u32, Seq<u8>) {
    (frame.width, frame.height, frame.pixels@)
}

/// A cached preview frame with its access stamp and pin.
#[derive(Debug)]
struct PreviewSlot {
    key: String,
    frame: ImageFrame,
    stamp: u64,
    active: bool,
}

spec fn pkey(slot: PreviewSlot) -> Seq<char> {
    slot.key@
}

spec fn keys_distinct(slots: Seq<PreviewSlot>) -> bool {
    forall|i: int, j: int|
        #![trigger slots[i], slots[j]]
        0 <= i < slots.len() && 0 <= j < slots.len() && i != j ==> pkey(slots[i]) != pkey(slots[j])
}

spec fn holds_key(slots: Seq<PreviewSlot>, key: Seq<char>) -> bool {
    exists|i: int| 0 <= i < slots.len() && pkey(#[trigger] slots[i]) == key
}

spec fn slot_for(slots: Seq<PreviewSlot>, key: Seq<char>) -> PreviewSlot {
    slots[choose|i: int| 0 <= i < slots.len() && pkey(#[trigger] slots[i]) == key]
}

spec fn frames_of(slots: Seq<PreviewSlot>) -> Map<Seq<char>, (u32, u32, Seq<u8>)> {
    Map::new(|k: Seq<char>| holds_key(slots, k), |k: Seq<char>| frame_view(slot_for(slots, k).frame))
}

spec fn stamps_of(slots: Seq<PreviewSlot>) -> Map<Seq<char>, u64> {
    Map::new(|k: Seq<char>| holds_key(slots, k), |k: Seq<char>| slot_for(slots, k).stamp)
}

spec fn actives_of(slots: Seq<PreviewSlot>) -> Set<Seq<char>> {
    Set::new(|k: Seq<char>| holds_key(slots, k) && slot_for(slots, k).active)
}

spec fn pixel_total(slots: Seq<PreviewSlot>) -> nat
    decreases slots.len(),
{
    if slots.len() == 0 {
        0
    } else {
        pixel_total(slots.drop_last()) + slots.last().frame.pixels@.len()
    }
}

proof fn lemma_slot_for(slots: Seq<PreviewSlot>, i: int)
    requires
        keys_distinct(slots),
        0 <= i < slots.len(),
    ensures
        holds_key(slots, pkey(slots[i])),
        slot_for(slots, pkey(slots[i])) == slots[i],
        frames_of(slots).contains_key(pkey(slots[i])),
        frames_of(slots)[pkey(slots[i])] == frame_view(slots[i].frame),
        stamps_of(slots)[pkey(slots[i])] == slots[i].stamp,
        actives_of(slots).contains(pkey(slots[i])) == slots[i].active,
{
    let k = pkey(slots[i]);
    assert(holds_key(slots, k));
    let j = choose|j: int| 0 <= j < slots.len() && pkey(#[trigger] slots[j]) == k;
    assert(j == i);
}

proof fn lemma_pixel_total_concat(a: Seq<PreviewSlot>, b: Seq<PreviewSlot>)
    ensures
        pixel_total(a + b) == pixel_total(a) + pixel_total(b),
    decreases b.len(),
{
    if b.len() == 0 {
        assert(a + b =~= a);
    } else {
        assert((a + b).drop_last() =~= a + b.drop_last());
        lemma_pixel_total_concat(a, b.drop_last());
    }
}

proof fn lemma_preview_remove(slots: Seq<PreviewSlot>, i: int)
    requires
        keys_distinct(slots),
        0 <= i < slots.len(),
    ensures
        keys_distinct(slots.remove(i)),
        frames_of(slots.remove(i)) == frames_of(slots).remove(pkey(slots[i])),
        stamps_of(slots.remove(i)) == stamps_of(slots).remove(pkey(slots[i])),
        actives_of(slots.remove(i)) == actives_of(slots).remove(pkey(slots[i])),
        pixel_total(slots.remove(i)) + slots[i].frame.pixels@.len() == pixel_total(slots),
{
    let r = slots.remove(i);
    let key = pkey(slots[i]);
    let pre = slots.subrange(0, i);
    let post = slots.subrange(i + 1, slots.len() as int);
    let single = seq![slots[i]];
    assert(r =~= pre + post);
    assert(slots =~= pre + single + post);
    lemma_pixel_total_concat(pre, post);
    lemma_pixel_total_concat(pre + single, post);
    lemma_pixel_total_concat(pre, single);
    assert(single.drop_last() =~= Seq::<PreviewSlot>::empty());
    assert(pixel_total(single) == pixel_total(single.drop_last()) + single.last().frame.pixels@.len());
    assert forall|k: int| 0 <= k < r.len() implies #[trigger] r[k] == (if k < i { slots[k] } else { slots[k + 1] }) by {}
    assert forall|a: int, b: int| #![trigger r[a], r[b]] 0 <= a < r.len() && 0 <= b < r.len() && a != b implies pkey(r[a]) != pkey(r[b]) by {
        let sa = if a < i { a } else { a + 1 };
        let sb = if b < i { b } else { b + 1 };
        assert(slots[sa] == r[a] && slots[sb] == r[b]);
    }
    assert forall|x: Seq<char>| #[trigger] holds_key(r, x) <==> holds_key(slots, x) && x != key by {
        if holds_key(r, x) {
            let k = choose|k: int| 0 <= k < r.len() && pkey(#[trigger] r[k]) == x;
            let sk = if k < i { k } else { k + 1 };
            assert(slots[sk] == r[k]);
        }
        if holds_key(slots, x) && x != key {
            let k = choose|k: int| 0 <= k < slots.len() && pkey(#[trigger] slots[k]) == x;
            let rk = if k < i { k } else { k - 1 };
            assert(r[rk] == slots[k]);
        }
    }
    assert forall|x: Seq<char>| holds_key(r, x) implies #[trigger] slot_for(r, x) == slot_for(slots, x) by {
        let k = choose|k: int| 0 <= k < r.len() && pkey(#[trigger] r[k]) == x;
        let sk = if k < i { k } else { k + 1 };
        assert(slots[sk] == r[k]);
        lemma_slot_for(r, k);
        lemma_slot_for(slots, sk);
    }
    assert(frames_of(r) =~= frames_of(slots).remove(key));
    assert(stamps_of(r) =~= stamps_of(slots).remove(key));
    assert(actives_of(r) =~= actives_of(slots).remove(key));
}

proof fn lemma_preview_push(slots: Seq<PreviewSlot>, slot: PreviewSlot)
    requires
        keys_distinct(slots),
        !holds_key(slots, pkey(slot)),
    ensures
        keys_distinct(slots.push(slot)),
        frames_of(slots.push(slot)) == frames_of(slots).insert(pkey(slot), frame_view(slot.frame)),
        stamps_of(slots.push(slot)) == stamps_of(slots).insert(pkey(slot), slot.stamp),
        actives_of(slots.push(slot)) == (if slot.active { actives_of(slots).insert(pkey(slot)) } else { actives_of(slots) }),
        pixel_total(slots.push(slot)) == pixel_total(slots) + slot.frame.pixels@.len(),
{
    let r = slots.push(slot);
    let key = pkey(slot);
    assert(r.drop_last() =~= slots);
    assert forall|a: int, b: int| #![trigger r[a], r[b]] 0 <= a < r.len() && 0 <= b < r.len() && a != b implies pkey(r[a]) != pkey(r[b]) by {
        if a == slots.len() {
            assert(slots[b] == r[b]);
        } else if b == slots.len() {
            assert(slots[a] == r[a]);
        } else {
            assert(slots[a] == r[a] && slots[b] == r[b]);
        }
    }
    assert forall|x: Seq<char>| #[trigger] holds_key(r, x) <==> holds_key(slots, x) || x == key by {
        if holds_key(r, x) && x != key {
            let k = choose|k: int| 0 <= k < r.len() && pkey(#[trigger] r[k]) == x;
            assert(slots[k] == r[k]);
        }
        if holds_key(slots, x) {
            let k = choose|k: int| 0 <= k < slots.len() && pkey(#[trigger] slots[k]) == x;
            assert(r[k] == slots[k]);
        }
        if x == key {
            assert(pkey(r[slots.len() as int]) == x);
        }
    }
    assert forall|x: Seq<char>| holds_key(r, x) implies #[trigger] slot_for(r, x) == (if x == key { slot } else { slot_for(slots, x) }) by {
        let k = choose|k: int| 0 <= k < r.len() && pkey(#[trigger] r[k]) == x;
        lemma_slot_for(r, k);
        if k < slots.len() {
            assert(slots[k] == r[k]);
            lemma_slot_for(slots, k);
        }
    }
    assert(frames_of(r) =~= frames_of(slots).insert(key, frame_view(slot.frame)));
    assert(stamps_of(r) =~= stamps_of(slots).insert(key, slot.stamp));
    assert(actives_of(r) =~= (if slot.active { actives_of(slots).insert(key) } else { actives_of(slots) }));
}

proof fn lemma_preview_replace(slots: Seq<PreviewSlot>, i: int, slot: PreviewSlot)
    requires
        keys_distinct(slots),
        0 <= i < slots.len(),
        pkey(slot) == pkey(slots[i]),
    ensures
        keys_distinct(slots.update(i, slot)),
        frames_of(slots.update(i, slot)) == frames_of(slots).insert(pkey(slot), frame_view(slot.frame)),
        stamps_of(slots.update(i, slot)) == stamps_of(slots).insert(pkey(slot), slot.stamp),
        actives_of(slots.update(i, slot)) == (if slot.active { actives_of(slots).insert(pkey(slot)) } else { actives_of(slots).remove(pkey(slot)) }),
        pixel_total(slots.update(i, slot)) + slots[i].frame.pixels@.len() == pixel_total(slots) + slot.frame.pixels@.len(),
{
    let r = slots.update(i, slot);
    assert(r.remove(i) =~= slots.remove(i));
    assert forall|a: int, b: int| #![trigger r[a], r[b]] 0 <= a < r.len() && 0 <= b < r.len() && a != b implies pkey(r[a]) != pkey(r[b]) by {
        assert(pkey(r[a]) == pkey(slots[a]));
        assert(pkey(r[b]) == pkey(slots[b]));
    }
    lemma_preview_remove(slots, i);
    lemma_preview_remove(r, i);
    lemma_slot_for(r, i);
    lemma_slot_for(slots, i);
    assert(frames_of(r) =~= frames_of(r.remove(i)).insert(pkey(slot), frame_view(slot.frame)));
    assert(stamps_of(r) =~= stamps_of(r.remove(i)).insert(pkey(slot), slot.stamp));
    assert(actives_of(r) =~= (if slot.active { actives_of(r.remove(i)).insert(pkey(slot)) } else { actives_of(r.remove(i)) }));
    assert(actives_of(slots).remove(pkey(slot)) =~= actives_of(slots.remove(i)));
    assert(actives_of(slots).insert(pkey(slot)) =~= actives_of(slots.remove(i)).insert(pkey(slot)));
}

proof fn lemma_preview_count(slots: Seq<PreviewSlot>)
    requires
        keys_distinct(slots),
    ensures
        frames_of(slots).dom().finite(),
        frames_of(slots).dom().len() == slots.len(),
{
    let keys = slots.map_values(|s: PreviewSlot| pkey(s));
    assert forall|a: int, b: int| 0 <= a < keys.len() && 0 <= b < keys.len() && a != b implies keys[a] != keys[b] by {
        assert(keys[a] == pkey(slots[a]) && keys[b] == pkey(slots[b]));
    }
    assert(keys.no_duplicates());
    keys.unique_seq_to_set();
    vstd::seq_lib::seq_to_set_is_finite(keys);
    assert forall|x: Seq<char>| #[trigger] frames_of(slots).dom().contains(x) <==> keys.to_set().contains(x) by {
        if holds_key(slots, x) {
            let k = choose|k: int| 0 <= k < slots.len() && pkey(#[trigger] slots[k]) == x;
            assert(keys[k] == x);
        }
        if keys.to_set().contains(x) {
            let k = choose|k: int| 0 <= k < keys.len() && keys[k] == x;
            assert(pkey(slots[k]) == x);
        }
    }
    assert(frames_of(slots).dom() =~= keys.to_set());
}

/// The pixel bytes of each cached frame.
pub open spec fn frame_bytes(frames: Map<Seq<char>, (u32, u32, Seq<u8>)>) -> Map<Seq<char>, Seq<u8>> {
    frames.map_values(|f: (u32, u32, Seq<u8>)| f.2)
}

/// The pixel total of the slots is that of their frames.
proof fn lemma_pixels_are_view_total(slots: Seq<PreviewSlot>)
    requires
        keys_distinct(slots),
    ensures
        frames_of(slots).dom().finite(),
        pixel_total(slots) == bytes_total(frame_bytes(frames_of(slots))),
    decreases slots.len(),
{
    if slots.len() == 0 {
        assert(frames_of(slots).dom() =~= Set::<Seq<char>>::empty());
        assert(frame_bytes(frames_of(slots)) =~= Map::<Seq<char>, Seq<u8>>::empty());
    } else {
        let init = slots.drop_last();
        let last = slots.last();
        assert forall|a: int, b: int| #![trigger init[a], init[b]] 0 <= a < init.len() && 0 <= b < init.len() && a != b implies pkey(init[a]) != pkey(init[b]) by {
            assert(init[a] == slots[a] && init[b] == slots[b]);
        }
        if holds_key(init, pkey(last)) {
            let k = choose|k: int| 0 <= k < init.len() && pkey(#[trigger] init[k]) == pkey(last);
            assert(slots[k] == init[k]);
            assert(slots[slots.len() - 1] == last);
        }
        lemma_pixels_are_view_total(init);
        lemma_preview_push(init, last);
        assert(init.push(last) =~= slots);
        assert(frame_bytes(frames_of(slots)) =~= frame_bytes(frames_of(init)).insert(pkey(last), last.frame.pixels@));
        assert(frame_bytes(frames_of(init)).dom() =~= frames_of(init).dom());
        lemma_bytes_total_insert(frame_bytes(frames_of(init)), pkey(last), last.frame.pixels@);
    }
}


/// The index of the least recently used slot that is not pinned, if any;
/// among equal stamps the first.
fn oldest_idle(slots: &Vec<PreviewSlot>) -> (index: Option<usize>)
    ensures
        index is None ==> forall|k: int| 0 <= k < slots@.len() ==> (#[trigger] slots@[k]).active,
        index matches Some(i) ==> {
            &&& i < slots@.len()
            &&& !slots@[i as int].active
            &&& forall|k: int| 0 <= k < slots@.len() && !(#[trigger] slots@[k]).active ==> slots@[i as int].stamp <= slots@[k].stamp
        },
{
    let mut best: Option<usize> = None;
    let mut i: usize = 0;
    while i < slots.len()
        invariant
            i <= slots@.len(),
            best is None ==> forall|k: int| 0 <= k < i ==> (#[trigger] slots@[k]).active,
            best matches Some(b) ==> {
                &&& b < i
                &&& !slots@[b as int].active
                &&& forall|k: int| 0 <= k < i && !(#[trigger] slots@[k]).active ==> slots@[b as int].stamp <= slots@[k].stamp
            },
        decreases slots@.len() - i,
    {
        if !slots[i].active {
            match best {
                None => {
                    best = Some(i);
                },
                Some(b) => {
                    if slots[i].stamp < slots[b].stamp {
                        best = Some(i);
                    }
                },
            }
        }
        i += 1;
    }
    best
}

/// RAM LRU of decoded neighbor preview frames, limited in entries and in
/// pixel bytes. An entry marked active is pinned: eviction never removes
/// it.
#[derive(Debug)]
pub struct LruPreviewCache {
    slots: Vec<PreviewSlot>,
    max_slots: usize,
    max_bytes: usize,
    used_bytes: usize,
    clock: u64,
}

/// Whether `key` was present in `before`, is not the written `fresh` key,
/// and is gone from `after`.
pub open spec fn preview_evicted(
    before: Map<Seq<char>, (u32, u32, Seq<u8>)>,
    after: Map<Seq<char>, (u32, u32, Seq<u8>)>,
    fresh: Seq<char>,
    key: Seq<char>,
) -> bool {
    before.contains_key(key) && key != fresh && !after.contains_key(key)
}

impl LruPreviewCache {
    #[verifier::type_invariant]
    spec fn inv(self) -> bool {
        &&& keys_distinct(self.slots@)
        &&& self.used_bytes == pixel_total(self.slots@)
    }

    /// The cached frames per key.
    pub closed spec fn view(&self) -> Map<Seq<char>, (u32, u32, Seq<u8>)> {
        frames_of(self.slots@)
    }

    /// The access stamp per key.
    pub closed spec fn stamps(&self) -> Map<Seq<char>, u64> {
        stamps_of(self.slots@)
    }

    /// The keys of the pinned (active) entries.
    pub closed spec fn actives(&self) -> Set<Seq<char>> {
        actives_of(self.slots@)
    }

    /// The access clock.
    pub closed spec fn spec_clock(&self) -> u64 {
        self.clock
    }

    /// The entry limit.
    pub closed spec fn spec_max_slots(&self) -> nat {
        self.max_slots as nat
    }

    /// The pixel-byte budget.
    pub closed spec fn spec_max_bytes(&self) -> nat {
        self.max_bytes as nat
    }

    /// The pixel bytes held.
    pub closed spec fn spec_used_bytes(&self) -> nat {
        self.used_bytes as nat
    }

    /// The number of entries.
    pub closed spec fn spec_len(&self) -> nat {
        self.slots@.len()
    }

    /// Entries and their stamps share their keys, and the pinned keys are
    /// among them.
    pub proof fn lemma_shape(&self)
        ensures
            self.stamps().dom() == self.view().dom(),
            self.actives().subset_of(self.view().dom()),
    {
        assert(self.stamps().dom() =~= self.view().dom());
    }

    /// An empty cache with `max_slots` entries and `max_bytes` pixel bytes.
    pub fn new(max_slots: usize, max_bytes: usize) -> (cache: LruPreviewCache)
        ensures
            cache.view() == Map::<Seq<char>, (u32, u32, Seq<u8>)>::empty(),
            cache.actives() == Set::<Seq<char>>::empty(),
            cache.spec_max_slots() == max_slots,
            cache.spec_max_bytes() == max_bytes,
            cache.spec_used_bytes() == 0,
            cache.spec_len() == 0,
            cache.spec_clock() == 0,
            cache.view().dom().finite(),
            cache.spec_used_bytes() == bytes_total(frame_bytes(cache.view())),
    {
        let cache = LruPreviewCache { slots: Vec::new(), max_slots, max_bytes, used_bytes: 0, clock: 0 };
        proof {
            lemma_pixels_are_view_total(cache.slots@);
        }
        assert(cache.view() =~= Map::<Seq<char>, (u32, u32, Seq<u8>)>::empty());
        assert(cache.actives() =~= Set::<Seq<char>>::empty());
        cache
    }

    fn position(&self, key: &String) -> (index: Option<usize>)
        ensures
            index matches Some(i) ==> i < self.slots@.len() && pkey(self.slots@[i as int]) == key@,
            index is None ==> !holds_key(self.slots@, key@),
    {
        let mut i: usize = 0;
        while i < self.slots.len()
            invariant
                i <= self.slots@.len(),
                forall|k: int| 0 <= k < i ==> pkey(#[trigger] self.slots@[k]) != key@,
            decreases self.slots@.len() - i,
        {
            if self.slots[i].key == *key {
                return Some(i);
            }
            i += 1;
        }
        None
    }

    fn take_parts(&mut self) -> (parts: (Vec<PreviewSlot>, usize, u64))
        ensures
            parts.0@ == old(self).slots@,
            parts.1 == old(self).used_bytes,
            parts.2 == old(self).clock,
            keys_distinct(parts.0@),
            parts.1 == pixel_total(parts.0@),
            final(self).max_slots == old(self).max_slots,
            final(self).max_bytes == old(self).max_bytes,
    {
        proof {
            use_type_invariant(&*self);
        }
        let mut taken = LruPreviewCache {
            slots: Vec::new(),
            max_slots: self.max_slots,
            max_bytes: self.max_bytes,
            used_bytes: 0,
            clock: self.clock,
        };
        std::mem::swap(self, &mut taken);
        proof {
            use_type_invariant(&taken);
        }
        let LruPreviewCache { slots, max_slots: _, max_bytes: _, used_bytes, clock } = taken;
        (slots, used_bytes, clock)
    }

    /// Unpins every entry, changing nothing else.
    fn unpin_all(&mut self)
        ensures
            final(self).view() == old(self).view(),
            final(self).stamps() == old(self).stamps(),
            final(self).actives() == Set::<Seq<char>>::empty(),
            final(self).spec_clock() == old(self).spec_clock(),
            final(self).spec_used_bytes() == old(self).spec_used_bytes(),
            final(self).spec_len() == old(self).spec_len(),
            final(self).spec_max_slots() == old(self).spec_max_slots(),
            final(self).spec_max_bytes() == old(self).spec_max_bytes(),
            final(self).slots@.len() == old(self).slots@.len(),
            forall|j: int| 0 <= j < old(self).slots@.len() ==> pkey(#[trigger] final(self).slots@[j]) == pkey(old(self).slots@[j]),
    {
        let max_slots = self.max_slots;
        let max_bytes = self.max_bytes;
        let (mut slots, used, clock) = self.take_parts();
        let ghost start = slots@;
        let mut i: usize = 0;
        while i < slots.len()
            invariant
                i <= slots@.len(),
                slots@.len() == start.len(),
                keys_distinct(slots@),
                used == pixel_total(slots@),
                frames_of(slots@) == frames_of(start),
                stamps_of(slots@) == stamps_of(start),
                forall|j: int| 0 <= j < start.len() ==> pkey(#[trigger] slots@[j]) == pkey(start[j]),
                forall|j: int| 0 <= j < i ==> !(#[trigger] slots@[j]).active,
            decreases slots@.len() - i,
        {
            if slots[i].active {
                let ghost before = slots@;
                let old_slot = slots.remove(i);
                let slot = PreviewSlot { key: old_slot.key, frame: old_slot.frame, stamp: old_slot.stamp, active: false };
                proof {
                    lemma_slot_for(before, i as int);
                    lemma_preview_replace(before, i as int, slot);
                    assert(slots@ =~= before.remove(i as int));
                    assert(frames_of(before).insert(pkey(slot), frame_view(slot.frame)) =~= frames_of(before));
                    assert(stamps_of(before).insert(pkey(slot), slot.stamp) =~= stamps_of(before));
                }
                slots.insert(i, slot);
                proof {
                    assert(slots@ =~= before.update(i as int, slot));
                }
            }
            i += 1;
        }
        proof {
            assert forall|k: Seq<char>| !#[trigger] actives_of(slots@).contains(k) by {
                if holds_key(slots@, k) {
                    let j = choose|j: int| 0 <= j < slots@.len() && pkey(#[trigger] slots@[j]) == k;
                    lemma_slot_for(slots@, j);
                }
            }
            assert(actives_of(slots@) =~= Set::<Seq<char>>::empty());
        }
        *self = LruPreviewCache { slots, max_slots, max_bytes, used_bytes: used, clock };
    }

    /// Marks the entry at `i` most recently used, pinning it when `pin`.
    fn promote(&mut self, i: usize, pin: bool)
        requires
            i < old(self).slots@.len(),
        ensures
            ({
                let key = pkey(old(self).slots@[i as int]);
                &&& final(self).view() == old(self).view()
                &&& final(self).spec_clock() == old(self).spec_clock().wrapping_add(1)
                &&& final(self).stamps() == old(self).stamps().insert(key, final(self).spec_clock())
                &&& final(self).actives() == (if pin { old(self).actives().insert(key) } else { old(self).actives() })
                &&& final(self).spec_used_bytes() == old(self).spec_used_bytes()
                &&& final(self).spec_len() == old(self).spec_len()
                &&& final(self).spec_max_slots() == old(self).spec_max_slots()
                &&& final(self).spec_max_bytes() == old(self).spec_max_bytes()
            }),
    {
        let max_slots = self.max_slots;
        let max_bytes = self.max_bytes;
        let (mut slots, used, clock) = self.take_parts();
        let ghost before = slots@;
        let now = clock.wrapping_add(1);
        let old_slot = slots.remove(i);
        let active = old_slot.active || pin;
        let slot = PreviewSlot { key: old_slot.key, frame: old_slot.frame, stamp: now, active };
        proof {
            lemma_slot_for(before, i as int);
            lemma_preview_replace(before, i as int, slot);
            assert(slots@ =~= before.remove(i as int));
            assert(before.update(i as int, slot).remove(i as int) =~= before.remove(i as int));
            assert(frames_of(before).insert(pkey(slot), frame_view(slot.frame)) =~= frames_of(before));
            if !pin {
                if active {
                    assert(actives_of(before).insert(pkey(slot)) =~= actives_of(before));
                } else {
                    assert(actives_of(before).remove(pkey(slot)) =~= actives_of(before));
                }
            } else {
                assert(actives_of(before).insert(pkey(slot)) =~= actives_of(before).insert(pkey(slot)));
            }
        }
        slots.insert(i, slot);
        proof {
            assert(slots@ =~= before.update(i as int, slot));
        }
        *self = LruPreviewCache { slots, max_slots, max_bytes, used_bytes: used, clock: now };
    }

    /// A private copy of the cached frame for `key`, marking the entry most
    /// recently used; `None` is a miss.
    pub fn get(&mut self, key: &str) -> (frame: Option<ImageFrame>)
        ensures
            frame is Some <==> old(self).view().contains_key(key@),
            frame matches Some(f) ==> frame_view(f) == old(self).view()[key@],
            final(self).view() == old(self).view(),
            final(self).actives() == old(self).actives(),
            final(self).spec_used_bytes() == old(self).spec_used_bytes(),
            final(self).spec_len() == old(self).spec_len(),
            final(self).spec_max_slots() == old(self).spec_max_slots(),
            final(self).spec_max_bytes() == old(self).spec_max_bytes(),
            old(self).view().contains_key(key@) ==> final(self).spec_clock() == old(self).spec_clock().wrapping_add(1)
                && final(self).stamps() == old(self).stamps().insert(key@, final(self).spec_clock()),
            !old(self).view().contains_key(key@) ==> final(self).spec_clock() == old(self).spec_clock()
                && final(self).stamps() == old(self).stamps(),
            final(self).view().dom().finite(),
            final(self).spec_used_bytes() == bytes_total(frame_bytes(final(self).view())),
    {
        let frame = self.get_frame(key);
        proof {
            use_type_invariant(&*self);
            lemma_pixels_are_view_total(self.slots@);
        }
        frame
    }

    fn get_frame(&mut self, key: &str) -> (frame: Option<ImageFrame>)
        ensures
            frame is Some <==> old(self).view().contains_key(key@),
            frame matches Some(f) ==> frame_view(f) == old(self).view()[key@],
            final(self).view() == old(self).view(),
            final(self).actives() == old(self).actives(),
            final(self).spec_used_bytes() == old(self).spec_used_bytes(),
            final(self).spec_len() == old(self).spec_len(),
            final(self).spec_max_slots() == old(self).spec_max_slots(),
            final(self).spec_max_bytes() == old(self).spec_max_bytes(),
            old(self).view().contains_key(key@) ==> final(self).spec_clock() == old(self).spec_clock().wrapping_add(1)
                && final(self).stamps() == old(self).stamps().insert(key@, final(self).spec_clock()),
            !old(self).view().contains_key(key@) ==> final(self).spec_clock() == old(self).spec_clock()
                && final(self).stamps() == old(self).stamps(),
    {
        proof {
            use_type_invariant(&*self);
        }
        let owned = key.to_owned();
        match self.position(&owned) {
            None => None,
            Some(i) => {
                proof {
                    lemma_slot_for(self.slots@, i as int);
                }
                let copy = ImageFrame {
                    width: self.slots[i].frame.width,
                    height: self.slots[i].frame.height,
                    pixels: copy_bytes(self.slots[i].frame.pixels.as_slice()),
                };
                self.promote(i, false);
                Some(copy)
            },
        }
    }

    /// Marks the entry for `key` most recently used without copying it.
    pub fn touch(&mut self, key: &str)
        ensures
            final(self).view() == old(self).view(),
            final(self).actives() == old(self).actives(),
            final(self).spec_used_bytes() == old(self).spec_used_bytes(),
            final(self).spec_len() == old(self).spec_len(),
            final(self).spec_max_slots() == old(self).spec_max_slots(),
            final(self).spec_max_bytes() == old(self).spec_max_bytes(),
            old(self).view().contains_key(key@) ==> final(self).spec_clock() == old(self).spec_clock().wrapping_add(1)
                && final(self).stamps() == old(self).stamps().insert(key@, final(self).spec_clock()),
            !old(self).view().contains_key(key@) ==> final(self).spec_clock() == old(self).spec_clock()
                && final(self).stamps() == old(self).stamps(),
            final(self).view().dom().finite(),
            final(self).spec_used_bytes() == bytes_total(frame_bytes(final(self).view())),
    {
        self.touch_entry(key);
        proof {
            use_type_invariant(&*self);
            lemma_pixels_are_view_total(self.slots@);
        }
    }

    fn touch_entry(&mut self, key: &str)
        ensures
            final(self).view() == old(self).view(),
            final(self).actives() == old(self).actives(),
            final(self).spec_used_bytes() == old(self).spec_used_bytes(),
            final(self).spec_len() == old(self).spec_len(),
            final(self).spec_max_slots() == old(self).spec_max_slots(),
            final(self).spec_max_bytes() == old(self).spec_max_bytes(),
            old(self).view().contains_key(key@) ==> final(self).spec_clock() == old(self).spec_clock().wrapping_add(1)
                && final(self).stamps() == old(self).stamps().insert(key@, final(self).spec_clock()),
            !old(self).view().contains_key(key@) ==> final(self).spec_clock() == old(self).spec_clock()
                && final(self).stamps() == old(self).stamps(),
    {
        proof {
            use_type_invariant(&*self);
        }
        let owned = key.to_owned();
        if let Some(i) = self.position(&owned) {
            proof {
                lemma_slot_for(self.slots@, i as int);
            }
            self.promote(i, false);
        }
    }

    /// Pins the entry for `key` as the active one (unpinning any other) and
    /// marks it most recently used; from then on eviction never removes it.
    pub fn set_active(&mut self, key: &str)
        ensures
            final(self).view() == old(self).view(),
            final(self).spec_used_bytes() == old(self).spec_used_bytes(),
            final(self).spec_len() == old(self).spec_len(),
            final(self).spec_max_slots() == old(self).spec_max_slots(),
            final(self).spec_max_bytes() == old(self).spec_max_bytes(),
            old(self).view().contains_key(key@) ==> final(self).spec_clock() == old(self).spec_clock().wrapping_add(1)
                && final(self).stamps() == old(self).stamps().insert(key@, final(self).spec_clock())
                && final(self).actives() == Set::<Seq<char>>::empty().insert(key@),
            !old(self).view().contains_key(key@) ==> final(self).spec_clock() == old(self).spec_clock()
                && final(self).stamps() == old(self).stamps() && final(self).actives() == old(self).actives(),
            final(self).view().dom().finite(),
            final(self).spec_used_bytes() == bytes_total(frame_bytes(final(self).view())),
    {
        self.set_active_entry(key);
        proof {
            use_type_invariant(&*self);
            lemma_pixels_are_view_total(self.slots@);
        }
    }

    fn set_active_entry(&mut self, key: &str)
        ensures
            final(self).view() == old(self).view(),
            final(self).spec_used_bytes() == old(self).spec_used_bytes(),
            final(self).spec_len() == old(self).spec_len(),
            final(self).spec_max_slots() == old(self).spec_max_slots(),
            final(self).spec_max_bytes() == old(self).spec_max_bytes(),
            old(self).view().contains_key(key@) ==> final(self).spec_clock() == old(self).spec_clock().wrapping_add(1)
                && final(self).stamps() == old(self).stamps().insert(key@, final(self).spec_clock())
                && final(self).actives() == Set::<Seq<char>>::empty().insert(key@),
            !old(self).view().contains_key(key@) ==> final(self).spec_clock() == old(self).spec_clock()
                && final(self).stamps() == old(self).stamps() && final(self).actives() == old(self).actives(),
    {
        proof {
            use_type_invariant(&*self);
        }
        let owned = key.to_owned();
        if let Some(i) = self.position(&owned) {
            proof {
                lemma_slot_for(self.slots@, i as int);
            }
            self.unpin_all();
            self.promote(i, true);
        }
    }

    /// Whether the entry for `key` is pinned as active.
    pub fn is_active(&self, key: &str) -> (active: bool)
        ensures
            active == self.actives().contains(key@),
    {
        proof {
            use_type_invariant(self);
        }
        let owned = key.to_owned();
        match self.position(&owned) {
            None => false,
            Some(i) => {
                proof {
                    lemma_slot_for(self.slots@, i as int);
                }
                self.slots[i].active
            },
        }
    }

    /// What an insert of `frame` under `key` leaves: `false` with nothing
    /// changed when the frame alone exceeds the byte budget; otherwise the
    /// frame under `key` (keeping its pin), with the least recently used
    /// unpinned entries evicted until both budgets fit or only pinned
    /// entries remain, and no more of them than that.
    pub open spec fn insert_outcome(
        before: &LruPreviewCache,
        after: &LruPreviewCache,
        key: Seq<char>,
        frame: (u32, u32, Seq<u8>),
        inserted: bool,
    ) -> bool {
        &&& after.spec_max_slots() == before.spec_max_slots()
        &&& after.spec_max_bytes() == before.spec_max_bytes()
        &&& if frame.2.len() > before.spec_max_bytes() {
            &&& !inserted
            &&& after.view() == before.view()
            &&& after.stamps() == before.stamps()
            &&& after.actives() == before.actives()
            &&& after.spec_clock() == before.spec_clock()
            &&& after.spec_used_bytes() == before.spec_used_bytes()
            &&& after.spec_len() == before.spec_len()
        } else {
            &&& inserted
            &&& after.view().contains_key(key)
            &&& after.view()[key] == frame
            &&& after.spec_clock() == before.spec_clock().wrapping_add(1)
            &&& after.stamps()[key] == after.spec_clock()
            &&& after.actives() == before.actives()
            &&& forall|x: Seq<char>|
                #![trigger after.view().contains_key(x)]
                after.view().contains_key(x) && x != key ==> {
                    &&& before.view().contains_key(x)
                    &&& after.view()[x] == before.view()[x]
                    &&& after.stamps()[x] == before.stamps()[x]
                }
            &&& forall|e: Seq<char>| #[trigger] preview_evicted(before.view(), after.view(), key, e) ==> !before.actives().contains(e)
            &&& forall|e: Seq<char>, k: Seq<char>|
                #![trigger preview_evicted(before.view(), after.view(), key, e), after.view().contains_key(k)]
                preview_evicted(before.view(), after.view(), key, e) && after.view().contains_key(k) && k != key
                    && !after.actives().contains(k) ==> before.stamps()[e] <= before.stamps()[k]
            &&& (after.spec_len() <= after.spec_max_slots() && after.spec_used_bytes() <= after.spec_max_bytes())
                || forall|k: Seq<char>| #[trigger] after.view().contains_key(k) && k != key ==> after.actives().contains(k)
            &&& (exists|e: Seq<char>| #[trigger] preview_evicted(before.view(), after.view(), key, e)) ==> exists|e: Seq<char>| {
                &&& #[trigger] preview_evicted(before.view(), after.view(), key, e)
                &&& after.spec_len() >= after.spec_max_slots() || after.spec_used_bytes() + before.view()[e].2.len() > after.spec_max_bytes()
                &&& forall|f: Seq<char>| #[trigger] preview_evicted(before.view(), after.view(), key, f) ==> before.stamps()[f] <= before.stamps()[e]
            }
        }
    }

    /// Inserts (or replaces) the frame under `key`, keeping the pin of an
    /// active key, evicting least recently used unpinned entries until the
    /// entry and byte budgets fit. Returns `false`, storing nothing, when
    /// the frame alone exceeds the byte budget.
    pub fn insert(&mut self, key: &str, frame: ImageFrame) -> (inserted: bool)
        requires
            old(self).spec_used_bytes() + frame.pixels@.len() <= usize::MAX,
        ensures
            LruPreviewCache::insert_outcome(old(self), final(self), key@, frame_view(frame), inserted),
            final(self).view().dom().finite(),
            final(self).spec_used_bytes() == bytes_total(frame_bytes(final(self).view())),
    {
        let inserted = self.insert_frame(key, frame);
        proof {
            use_type_invariant(&*self);
            lemma_pixels_are_view_total(self.slots@);
        }
        inserted
    }

    #[verifier::spinoff_prover]
    #[verifier::rlimit(60)]
    fn insert_frame(&mut self, key: &str, frame: ImageFrame) -> (inserted: bool)
        requires
            old(self).spec_used_bytes() + frame.pixels@.len() <= usize::MAX,
        ensures
            LruPreviewCache::insert_outcome(old(self), final(self), key@, frame_view(frame), inserted),
    {
        proof {
            use_type_invariant(&*self);
        }
        let bytes = frame.pixels.len();
        if bytes > self.max_bytes {
            return false;
        }
        let owned = key.to_owned();
        let ghost old_view = self.view();
        let ghost old_stamps = self.stamps();
        let ghost old_actives = self.actives();
        let ghost old_used = self.used_bytes;
        let max_slots = self.max_slots;
        let max_bytes = self.max_bytes;
        let found = self.position(&owned);
        let (mut slots, mut used, clock) = self.take_parts();
        let mut was_active = false;
        match found {
            Some(i) => {
                proof {
                    lemma_slot_for(slots@, i as int);
                    lemma_preview_remove(slots@, i as int);
                }
                was_active = slots[i].active;
                used = used - slots[i].frame.pixels.len();
                slots.remove(i);
            },
            None => {
                proof {
                    assert(frames_of(slots@).remove(key@) =~= frames_of(slots@));
                    assert(stamps_of(slots@).remove(key@) =~= stamps_of(slots@));
                    assert(actives_of(slots@).remove(key@) =~= actives_of(slots@));
                }
            },
        }
        let ghost base = slots@;
        let ghost mut last: Option<Seq<char>> = None;
        let now = clock.wrapping_add(1);
        let room = max_bytes - bytes;
        let mut done = false;
        while !done && (slots.len() >= max_slots || used > room)
            invariant
                room == max_bytes - bytes,
                bytes <= max_bytes,
                bytes == frame.pixels@.len(),
                keys_distinct(slots@),
                used == pixel_total(slots@),
                used <= old_used,
                old_used + bytes <= usize::MAX,
                !holds_key(slots@, owned@),
                keys_distinct(base),
                frames_of(base) == old_view.remove(owned@),
                stamps_of(base) == old_stamps.remove(owned@),
                actives_of(base) == old_actives.remove(owned@),
                forall|x: Seq<char>| #[trigger] frames_of(slots@).contains_key(x) ==> {
                    &&& frames_of(base).contains_key(x)
                    &&& frames_of(slots@)[x] == frames_of(base)[x]
                    &&& stamps_of(slots@)[x] == stamps_of(base)[x]
                    &&& actives_of(slots@).contains(x) == actives_of(base).contains(x)
                },
                forall|e: Seq<char>| #[trigger] frames_of(base).contains_key(e) && !frames_of(slots@).contains_key(e) ==> !actives_of(base).contains(e),
                forall|e: Seq<char>, k: Seq<char>|
                    #![trigger frames_of(base).contains_key(e), frames_of(slots@).contains_key(k)]
                    frames_of(base).contains_key(e) && !frames_of(slots@).contains_key(e) && frames_of(slots@).contains_key(k)
                        && !actives_of(slots@).contains(k) ==> stamps_of(base)[e] <= stamps_of(slots@)[k],
                last is None ==> frames_of(slots@) == frames_of(base),
                last matches Some(e) ==> {
                    &&& frames_of(base).contains_key(e)
                    &&& !frames_of(slots@).contains_key(e)
                    &&& slots@.len() + 1 >= max_slots || used + frames_of(base)[e].2.len() + bytes > max_bytes
                    &&& forall|f: Seq<char>| #[trigger] frames_of(base).contains_key(f) && !frames_of(slots@).contains_key(f) ==> stamps_of(base)[f] <= stamps_of(base)[e]
                },
                done ==> forall|k: int| 0 <= k < slots@.len() ==> (#[trigger] slots@[k]).active,
            decreases 2 * slots@.len() + (if done { 0int } else { 1int }),
        {
            match oldest_idle(&slots) {
                None => {
                    done = true;
                },
                Some(i) => {
                    let ghost before = slots@;
                    let ghost victim = pkey(before[i as int]);
                    proof {
                        lemma_slot_for(before, i as int);
                        lemma_preview_remove(before, i as int);
                        assert forall|k: int| 0 <= k < before.len() && !before[k].active implies stamps_of(before)[victim] <= #[trigger] stamps_of(before)[pkey(before[k])] by {
                            lemma_slot_for(before, k);
                        }
                    }
                    used = used - slots[i].frame.pixels.len();
                    slots.remove(i);
                    proof {
                        let after = slots@;
                        assert forall|e: Seq<char>, k: Seq<char>|
                            #![trigger frames_of(base).contains_key(e), frames_of(after).contains_key(k)]
                            frames_of(base).contains_key(e) && !frames_of(after).contains_key(e) && frames_of(after).contains_key(k)
                                && !actives_of(after).contains(k) implies stamps_of(base)[e] <= stamps_of(after)[k] by {
                            assert(frames_of(before).contains_key(k));
                            let kk = choose|kk: int| 0 <= kk < before.len() && pkey(#[trigger] before[kk]) == k;
                            lemma_slot_for(before, kk);
                            if e != victim {
                                assert(!frames_of(before).contains_key(e));
                            }
                        }
                        assert forall|f: Seq<char>| #[trigger] frames_of(base).contains_key(f) && !frames_of(after).contains_key(f) implies stamps_of(base)[f] <= stamps_of(base)[victim] by {
                            if f != victim {
                                assert(!frames_of(before).contains_key(f));
                            }
                        }
                        assert forall|e: Seq<char>| #[trigger] frames_of(base).contains_key(e) && !frames_of(after).contains_key(e) implies !actives_of(base).contains(e) by {
                            if e != victim {
                                assert(!frames_of(before).contains_key(e));
                            }
                        }
                        last = Some(victim);
                    }
                },
            }
        }
        let ghost kept = slots@;
        let slot = PreviewSlot { key: owned, frame, stamp: now, active: was_active };
        proof {
            lemma_preview_push(kept, slot);
        }
        slots.push(slot);
        used = used + bytes;
        *self = LruPreviewCache { slots, max_slots, max_bytes, used_bytes: used, clock: now };
        proof {
            let after = self.view();
            assert(after == frames_of(kept).insert(key@, frame_view(frame)));
            assert(actives_of(kept) =~= old_actives.remove(key@)) by {
                assert forall|x: Seq<char>| #[trigger] actives_of(kept).contains(x) <==> old_actives.remove(key@).contains(x) by {
                    if old_actives.remove(key@).contains(x) {
                        assert(actives_of(base).contains(x));
                        assert(frames_of(base).contains_key(x));
                        assert(frames_of(kept).contains_key(x));
                    }
                    if actives_of(kept).contains(x) {
                        assert(frames_of(kept).contains_key(x));
                    }
                }
            }
            assert(self.actives() =~= old_actives);
            assert forall|x: Seq<char>| #![trigger after.contains_key(x)] after.contains_key(x) && x != key@ implies {
                &&& old_view.contains_key(x)
                &&& after[x] == old_view[x]
                &&& self.stamps()[x] == old_stamps[x]
            } by {
                assert(frames_of(kept).contains_key(x));
            }
            assert forall|e: Seq<char>| #[trigger] preview_evicted(old_view, after, key@, e) <==> frames_of(base).contains_key(e) && !frames_of(kept).contains_key(e) by {}
            assert forall|e: Seq<char>| #[trigger] preview_evicted(old_view, after, key@, e) implies !old_actives.contains(e) by {
                assert(!actives_of(base).contains(e));
            }
            assert forall|e: Seq<char>, k: Seq<char>|
                #![trigger preview_evicted(old_view, after, key@, e), after.contains_key(k)]
                preview_evicted(old_view, after, key@, e) && after.contains_key(k) && k != key@
                    && !self.actives().contains(k) implies old_stamps[e] <= old_stamps[k] by {
                assert(frames_of(kept).contains_key(k));
                assert(!actives_of(kept).contains(k));
            }
            if done {
                assert forall|k: Seq<char>| #[trigger] after.contains_key(k) && k != key@ implies self.actives().contains(k) by {
                    assert(frames_of(kept).contains_key(k));
                    let kk = choose|kk: int| 0 <= kk < kept.len() && pkey(#[trigger] kept[kk]) == k;
                    lemma_slot_for(kept, kk);
                }
            }
            if exists|e: Seq<char>| #[trigger] preview_evicted(old_view, after, key@, e) {
                let e = choose|e: Seq<char>| #[trigger] preview_evicted(old_view, after, key@, e);
                assert(frames_of(base).contains_key(e) && !frames_of(kept).contains_key(e));
                assert(last is Some);
                let w = last->Some_0;
                assert(preview_evicted(old_view, after, key@, w));
            }
        }
        true
    }

    /// Removes the entry for `key`, releasing its bytes; a stale preview is
    /// never served again.
    pub fn remove_entry(&mut self, key: &str)
        ensures
            final(self).view() == old(self).view().remove(key@),
            final(self).stamps() == old(self).stamps().remove(key@),
            final(self).actives() == old(self).actives().remove(key@),
            final(self).spec_clock() == old(self).spec_clock(),
            final(self).spec_max_slots() == old(self).spec_max_slots(),
            final(self).spec_max_bytes() == old(self).spec_max_bytes(),
            old(self).view().contains_key(key@) ==> final(self).spec_used_bytes() + old(self).view()[key@].2.len()
                == old(self).spec_used_bytes(),
            !old(self).view().contains_key(key@) ==> final(self).spec_used_bytes() == old(self).spec_used_bytes(),
            final(self).view().dom().finite(),
            final(self).spec_used_bytes() == bytes_total(frame_bytes(final(self).view())),
    {
        self.remove_key(key);
        proof {
            use_type_invariant(&*self);
            lemma_pixels_are_view_total(self.slots@);
        }
    }

    fn remove_key(&mut self, key: &str)
        ensures
            final(self).view() == old(self).view().remove(key@),
            final(self).stamps() == old(self).stamps().remove(key@),
            final(self).actives() == old(self).actives().remove(key@),
            final(self).spec_clock() == old(self).spec_clock(),
            final(self).spec_max_slots() == old(self).spec_max_slots(),
            final(self).spec_max_bytes() == old(self).spec_max_bytes(),
            old(self).view().contains_key(key@) ==> final(self).spec_used_bytes() + old(self).view()[key@].2.len()
                == old(self).spec_used_bytes(),
            !old(self).view().contains_key(key@) ==> final(self).spec_used_bytes() == old(self).spec_used_bytes(),
    {
        proof {
            use_type_invariant(&*self);
        }
        let owned = key.to_owned();
        match self.position(&owned) {
            None => {
                proof {
                    assert(self.view().remove(key@) =~= self.view());
                    assert(self.stamps().remove(key@) =~= self.stamps());
                    assert(self.actives().remove(key@) =~= self.actives());
                }
            },
            Some(i) => {
                let max_slots = self.max_slots;
                let max_bytes = self.max_bytes;
                let (mut slots, mut used, clock) = self.take_parts();
                proof {
                    lemma_slot_for(slots@, i as int);
                    lemma_preview_remove(slots@, i as int);
                }
                used = used - slots[i].frame.pixels.len();
                slots.remove(i);
                *self = LruPreviewCache { slots, max_slots, max_bytes, used_bytes: used, clock };
            },
        }
    }

    /// The number of entries.
    pub fn len(&self) -> (count: usize)
        ensures
            count == self.spec_len(),
            count == self.view().dom().len(),
    {
        proof {
            use_type_invariant(self);
            lemma_preview_count(self.slots@);
        }
        self.slots.len()
    }

    /// Whether the cache holds no entry.
    pub fn is_empty(&self) -> (empty: bool)
        ensures
            empty == (self.spec_len() == 0),
            empty == (self.view().dom().len() == 0),
    {
        proof {
            use_type_invariant(self);
            lemma_preview_count(self.slots@);
        }
        self.slots.len() == 0
    }

    /// Whether an entry is cached for `key`.
    pub fn contains(&self, key: &str) -> (present: bool)
        ensures
            present == self.view().contains_key(key@),
    {
        proof {
            use_type_invariant(self);
        }
        let owned = key.to_owned();
        match self.position(&owned) {
            None => false,
            Some(i) => {
                proof {
                    lemma_slot_for(self.slots@, i as int);
                }
                true
            },
        }
    }

    /// The pixel bytes held: whatever calls led to this cache, the sum of
    /// the pixel lengths of the frames it holds.
    pub fn used_bytes(&self) -> (used: usize)
        ensures
            used == self.spec_used_bytes(),
            used == bytes_total(frame_bytes(self.view())),
    {
        proof {
            use_type_invariant(self);
            lemma_pixels_are_view_total(self.slots@);
        }
        self.used_bytes
    }

    /// The pixel-byte budget.
    pub fn max_bytes(&self) -> (max: usize)
        ensures
            max == self.spec_max_bytes(),
    {
        self.max_bytes
    }

    /// Drops every entry.
    pub fn clear(&mut self)
        ensures
            final(self).view() == Map::<Seq<char>, (u32, u32, Seq<u8>)>::empty(),
            final(self).actives() == Set::<Seq<char>>::empty(),
            final(self).spec_used_bytes() == 0,
            final(self).spec_len() == 0,
            final(self).spec_clock() == old(self).spec_clock(),
            final(self).spec_max_slots() == old(self).spec_max_slots(),
            final(self).spec_max_bytes() == old(self).spec_max_bytes(),
            final(self).view().dom().finite(),
            final(self).spec_used_bytes() == bytes_total(frame_bytes(final(self).view())),
    {
        self.clear_entries();
        proof {
            use_type_invariant(&*self);
            lemma_pixels_are_view_total(self.slots@);
        }
    }

    fn clear_entries(&mut self)
        ensures
            final(self).view() == Map::<Seq<char>, (u32, u32, Seq<u8>)>::empty(),
            final(self).actives() == Set::<Seq<char>>::empty(),
            final(self).spec_used_bytes() == 0,
            final(self).spec_len() == 0,
            final(self).spec_clock() == old(self).spec_clock(),
            final(self).spec_max_slots() == old(self).spec_max_slots(),
            final(self).spec_max_bytes() == old(self).spec_max_bytes(),
    {
        let max_slots = self.max_slots;
        let max_bytes = self.max_bytes;
        let clock = self.clock;
        *self = LruPreviewCache { slots: Vec::new(), max_slots, max_bytes, used_bytes: 0, clock };
        proof {
            assert(self.view() =~= Map::<Seq<char>, (u32, u32, Seq<u8>)>::empty());
            assert(self.actives() =~= Set::<Seq<char>>::empty());
        }
    }
}

impl Default for LruPreviewCache {
    /// Seven entries (the active image and six neighbors) within 1.5 GB.
    fn default() -> (cache: Self)
        ensures
            cache.view() == Map::<Seq<char>, (u32, u32, Seq<u8>)>::empty(),
            cache.spec_max_slots() == 7,
            cache.spec_max_bytes() == 1_500_000_000,
    {
        LruPreviewCache::new(7, 1_500_000_000)
    }
}

/// A pinned (active) entry is never evicted by an insert, and a pinned key
/// that is replaced stays pinned.
pub proof fn lemma_insert_keeps_pinned_entries(
    before: LruPreviewCache,
    after: LruPreviewCache,
    key: Seq<char>,
    frame: (u32, u32, Seq<u8>),
    pinned: Seq<char>,
)
    requires
        LruPreviewCache::insert_outcome(&before, &after, key, frame, true),
        before.actives().contains(pinned),
    ensures
        after.view().contains_key(pinned),
        after.actives().contains(pinned),
{
    after.lemma_shape();
}

/// An accepted insert is read back: the frame under the key is the one
/// inserted, and it is the most recently used entry.
pub proof fn lemma_insert_then_read(
    before: LruPreviewCache,
    after: LruPreviewCache,
    key: Seq<char>,
    frame: (u32, u32, Seq<u8>),
)
    requires
        LruPreviewCache::insert_outcome(&before, &after, key, frame, true),
    ensures
        after.view().contains_key(key),
        after.view()[key] == frame,
        after.stamps()[key] == after.spec_clock(),
{
}

/// An insert evicts only unpinned entries, and never one that was used
/// more recently than an unpinned entry that survives.
pub proof fn lemma_insert_evicts_least_recent_first(
    before: LruPreviewCache,
    after: LruPreviewCache,
    key: Seq<char>,
    frame: (u32, u32, Seq<u8>),
    evicted: Seq<char>,
    survivor: Seq<char>,
)
    requires
        LruPreviewCache::insert_outcome(&before, &after, key, frame, true),
        preview_evicted(before.view(), after.view(), key, evicted),
        after.view().contains_key(survivor),
        survivor != key,
        !after.actives().contains(survivor),
    ensures
        before.stamps()[evicted] <= before.stamps()[survivor],
        !before.actives().contains(evicted),
{
}

} // verus!
