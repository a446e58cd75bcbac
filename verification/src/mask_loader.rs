//! Mask-loading decision layer: for every source mask reachable from the
//! active copy it decides whether a confirmably valid persisted plane is
//! used, the subject matte is re-inferred, or a cached (possibly stale)
//! plane is served because no model is available. Without a model and
//! without a cached plane the layer fails instead of serving an empty mask.
use crate::frame::{core_error_text, CoreError, ImageFrame};
use crate::generative::{count_false, lemma_count_false_set};
use crate::masks::MaskPlane;
use crate::text::{decimal, push_decimal};
use vstd::prelude::*;

verus! {

// ---------------------------------------------------------------------------
// Key order: `(copy_id, mask_id)` pairs in lexicographic character order,
// the order of a `BTreeSet<(String, String)>`.
// ---------------------------------------------------------------------------

/// The first index from `i` on where `a` and `b` differ or one of them ends.
pub open spec fn diff_index(a: Seq<char>, b: Seq<char>, i: int) -> int
    decreases a.len() - i,
{
    if i < 0 || i >= a.len() || i >= b.len() || a[i] != b[i] {
        i
    } else {
        diff_index(a, b, i + 1)
    }
}

/// `a` sorts strictly before `b`: at the first difference `a` has the
/// smaller character, or `a` is a proper prefix of `b`.
pub open spec fn text_less(a: Seq<char>, b: Seq<char>) -> bool {
    let d = diff_index(a, b, 0);
    (d == a.len() && d < b.len()) || (d < a.len() && d < b.len() && (a[d] as int) < (b[d] as int))
}

/// A mask key: the owning copy's id and the mask's id.
pub type KeyView = (Seq<char>, Seq<char>);

/// `a` sorts strictly before `b` (copy id first, then mask id).
pub open spec fn key_less(a: KeyView, b: KeyView) -> bool {
    text_less(a.0, b.0) || (a.0 == b.0 && text_less(a.1, b.1))
}

proof fn lemma_diff_index(a: Seq<char>, b: Seq<char>, i: int)
    requires
        0 <= i <= a.len(),
        i <= b.len(),
    ensures
        i <= diff_index(a, b, i) <= a.len(),
        diff_index(a, b, i) <= b.len(),
        forall|j: int| i <= j < diff_index(a, b, i) ==> a[j] == b[j],
        diff_index(a, b, i) < a.len() && diff_index(a, b, i) < b.len() ==> a[diff_index(a, b, i)]
            != b[diff_index(a, b, i)],
    decreases a.len() - i,
{
    if i < a.len() && i < b.len() && a[i] == b[i] {
        lemma_diff_index(a, b, i + 1);
    }
}

/// Any index that agrees with the stopping rule is the first difference.
proof fn lemma_diff_index_unique(a: Seq<char>, b: Seq<char>, m: int)
    requires
        0 <= m <= a.len(),
        m <= b.len(),
        forall|j: int| 0 <= j < m ==> a[j] == b[j],
        m == a.len() || m == b.len() || a[m] != b[m],
    ensures
        diff_index(a, b, 0) == m,
{
    lemma_diff_index(a, b, 0);
    let d = diff_index(a, b, 0);
    if d < m {
        assert(a[d] == b[d]);
    } else if m < d {
        assert(a[m] == b[m]);
    }
}

proof fn lemma_diff_index_symmetric(a: Seq<char>, b: Seq<char>)
    ensures
        diff_index(a, b, 0) == diff_index(b, a, 0),
{
    lemma_diff_index(a, b, 0);
    lemma_diff_index_unique(b, a, diff_index(a, b, 0));
}

/// Text order is a strict total order.
pub proof fn lemma_text_order(a: Seq<char>, b: Seq<char>, c: Seq<char>)
    ensures
        !text_less(a, a),
        text_less(a, b) ==> !text_less(b, a),
        a != b ==> text_less(a, b) || text_less(b, a),
        text_less(a, b) && text_less(b, c) ==> text_less(a, c),
{
    lemma_diff_index(a, a, 0);
    lemma_diff_index(a, b, 0);
    lemma_diff_index(b, c, 0);
    lemma_diff_index(a, c, 0);
    lemma_diff_index_symmetric(a, b);
    let p = diff_index(a, b, 0);
    if a != b {
        if p == a.len() && p == b.len() {
            assert(a =~= b);
        } else if p < a.len() && p < b.len() {
            assert(a[p] != b[p]);
            assert((a[p] as int) != (b[p] as int));
        }
    }
    if text_less(a, b) && text_less(b, c) {
        let q = diff_index(b, c, 0);
        let m = if p < q { p } else { q };
        assert forall|j: int| 0 <= j < m implies a[j] == c[j] by {
            assert(a[j] == b[j]);
            assert(b[j] == c[j]);
        }
        if p < q {
            lemma_diff_index_unique(a, c, p);
        } else if q < p {
            lemma_diff_index_unique(a, c, q);
        } else {
            lemma_diff_index_unique(a, c, p);
        }
    }
}

/// Key order is a strict total order.
pub proof fn lemma_key_order(a: KeyView, b: KeyView, c: KeyView)
    ensures
        !key_less(a, a),
        key_less(a, b) ==> !key_less(b, a),
        a != b ==> key_less(a, b) || key_less(b, a),
        key_less(a, b) && key_less(b, c) ==> key_less(a, c),
{
    lemma_text_order(a.0, b.0, c.0);
    lemma_text_order(a.1, b.1, c.1);
    lemma_text_order(b.0, a.0, c.0);
    lemma_text_order(b.1, a.1, c.1);
    lemma_text_order(a.0, c.0, b.0);
    lemma_text_order(a.1, c.1, b.1);
}

/// Whether `a` sorts strictly before `b`.
pub fn text_before(a: &str, b: &str) -> (r: bool)
    ensures
        r == text_less(a@, b@),
{
    let la = a.unicode_len();
    let lb = b.unicode_len();
    let mut i: usize = 0;
    proof {
        lemma_diff_index(a@, b@, 0);
    }
    while i < la && i < lb
        invariant
            la == a@.len(),
            lb == b@.len(),
            0 <= i <= la,
            i <= lb,
            forall|j: int| 0 <= j < i ==> a@[j] == b@[j],
        decreases la - i,
    {
        let ca = a.get_char(i);
        let cb = b.get_char(i);
        if ca != cb {
            proof {
                lemma_diff_index_unique(a@, b@, i as int);
            }
            return ca < cb;
        }
        i += 1;
    }
    proof {
        lemma_diff_index_unique(a@, b@, i as int);
    }
    i == la && i < lb
}

/// Whether `a` and `b` hold the same characters.
pub fn same_text(a: &str, b: &str) -> (r: bool)
    ensures
        r == (a@ == b@),
{
    let la = a.unicode_len();
    let lb = b.unicode_len();
    if la != lb {
        return false;
    }
    let mut i: usize = 0;
    while i < la
        invariant
            la == a@.len(),
            lb == b@.len(),
            la == lb,
            0 <= i <= la,
            forall|j: int| 0 <= j < i ==> a@[j] == b@[j],
        decreases la - i,
    {
        if a.get_char(i) != b.get_char(i) {
            return false;
        }
        i += 1;
    }
    proof {
        assert(a@ =~= b@);
    }
    true
}

/// Whether the key `(ac, am)` sorts strictly before `(bc, bm)`.
pub fn key_before(ac: &str, am: &str, bc: &str, bm: &str) -> (r: bool)
    ensures
        r == key_less((ac@, am@), (bc@, bm@)),
{
    if text_before(ac, bc) {
        return true;
    }
    if text_before(bc, ac) {
        proof {
            lemma_text_order(ac@, bc@, bc@);
        }
        return false;
    }
    proof {
        lemma_text_order(ac@, bc@, bc@);
    }
    text_before(am, bm)
}


// ---------------------------------------------------------------------------
// The records the decision layer reads.
// ---------------------------------------------------------------------------

/// Persisted status of a mask definition.
#[derive(Debug, Clone, Copy, PartialEq, Eq, Structural)]
pub enum MaskStatus {
    Valid,
    Stale,
    Missing,
    Corrupt,
}

/// How a mask definition obtains its plane: `Source` masks carry their own
/// matte, the others combine referenced masks.
#[derive(Debug, Clone, Copy, PartialEq, Eq, Structural)]
pub enum MaskOperation {
    Source,
    Union,
    Intersect,
    Subtract,
    Invert,
}

/// Identity of the model that produced (or would produce) a matte.
#[derive(Debug, Clone)]
pub struct ModelIdentity {
    pub name: String,
    pub version: String,
    pub hash: String,
    /// Digest over the model's input specification, when recorded.
    pub input_spec_digest: Option<String>,
}

/// Decoder identity a mask was computed against; `parameters` in key order.
#[derive(Debug, Clone)]
pub struct DecodeFingerprint {
    pub decoder: String,
    pub version: String,
    pub parameters: Vec<(String, String)>,
}

/// Reference to the mask `mask_id` of the copy `copy_id`.
#[derive(Debug, Clone)]
pub struct MaskReference {
    pub copy_id: String,
    pub mask_id: String,
}

/// Resolution declared by a mask's persisted artifact record.
#[derive(Debug, Clone, Copy, PartialEq, Eq, Structural)]
pub struct ArtifactReference {
    pub width: u32,
    pub height: u32,
}

/// One mask of a copy's library.
#[derive(Debug, Clone)]
pub struct MaskDefinition {
    pub id: String,
    pub status: MaskStatus,
    /// Content hash of the source the mask was computed for.
    pub source_hash: String,
    pub decode_context: DecodeFingerprint,
    pub model: ModelIdentity,
    pub artifact: Option<ArtifactReference>,
    pub operation: MaskOperation,
    pub references: Vec<MaskReference>,
    /// The definition carries a user-guided prompt, whose geometric raster
    /// stands in for a missing loaded plane.
    pub has_prompt: bool,
}

/// A virtual copy: its mask library and the masks its layers use.
#[derive(Debug, Clone)]
pub struct VirtualCopy {
    pub id: String,
    pub mask_library: Vec<MaskDefinition>,
    pub mask_layers: Vec<MaskReference>,
}

/// The key view of a reference.
pub open spec fn ref_key(r: MaskReference) -> KeyView {
    (r.copy_id@, r.mask_id@)
}

/// Index of the first copy with id `id`, if any.
pub open spec fn first_copy(copies: Seq<VirtualCopy>, id: Seq<char>, i: int) -> bool {
    0 <= i < copies.len() && copies[i].id@ == id && forall|j: int| 0 <= j < i ==> copies[j].id@ != id
}

/// Index of the first mask with id `id` in a library, if any.
pub open spec fn first_mask(library: Seq<MaskDefinition>, id: Seq<char>, i: int) -> bool {
    0 <= i < library.len() && library[i].id@ == id && forall|j: int| 0 <= j < i ==> library[j].id@ != id
}

/// The copy that a lookup by `id` finds: the first one with that id.
pub open spec fn copy_of(copies: Seq<VirtualCopy>, id: Seq<char>) -> Option<VirtualCopy> {
    if exists|i: int| first_copy(copies, id, i) {
        Some(copies[choose|i: int| first_copy(copies, id, i)])
    } else {
        None
    }
}

/// The definition that a lookup by `key` finds: the first mask with the key's
/// mask id in the first copy with the key's copy id.
pub open spec fn def_of(copies: Seq<VirtualCopy>, key: KeyView) -> Option<MaskDefinition> {
    match copy_of(copies, key.0) {
        None => None,
        Some(copy) => if exists|i: int| first_mask(copy.mask_library@, key.1, i) {
            Some(copy.mask_library@[choose|i: int| first_mask(copy.mask_library@, key.1, i)])
        } else {
            None
        },
    }
}

proof fn lemma_first_copy_unique(copies: Seq<VirtualCopy>, id: Seq<char>, i: int, k: int)
    requires
        first_copy(copies, id, i),
        first_copy(copies, id, k),
    ensures
        i == k,
{
    if i < k {
        assert(copies[i].id@ != id);
    } else if k < i {
        assert(copies[k].id@ != id);
    }
}

proof fn lemma_first_mask_unique(library: Seq<MaskDefinition>, id: Seq<char>, i: int, k: int)
    requires
        first_mask(library, id, i),
        first_mask(library, id, k),
    ensures
        i == k,
{
    if i < k {
        assert(library[i].id@ != id);
    } else if k < i {
        assert(library[k].id@ != id);
    }
}

/// Index of the first copy with id `id`.
fn find_copy(copies: &Vec<VirtualCopy>, id: &str) -> (found: Option<usize>)
    ensures
        match found {
            Some(i) => first_copy(copies@, id@, i as int) && copy_of(copies@, id@) == Some(copies@[i as int]),
            None => copy_of(copies@, id@) is None,
        },
{
    let mut i: usize = 0;
    while i < copies.len()
        invariant
            i <= copies@.len(),
            forall|j: int| 0 <= j < i ==> copies@[j].id@ != id@,
        decreases copies@.len() - i,
    {
        if same_text(copies[i].id.as_str(), id) {
            proof {
                assert(first_copy(copies@, id@, i as int));
                let c = choose|k: int| first_copy(copies@, id@, k);
                lemma_first_copy_unique(copies@, id@, i as int, c);
            }
            return Some(i);
        }
        i += 1;
    }
    None
}

/// Index of the first mask with id `id` in `library`.
fn find_mask(library: &Vec<MaskDefinition>, id: &str) -> (found: Option<usize>)
    ensures
        match found {
            Some(i) => first_mask(library@, id@, i as int),
            None => !exists|i: int| first_mask(library@, id@, i),
        },
{
    let mut i: usize = 0;
    while i < library.len()
        invariant
            i <= library@.len(),
            forall|j: int| 0 <= j < i ==> library@[j].id@ != id@,
        decreases library@.len() - i,
    {
        if same_text(library[i].id.as_str(), id) {
            return Some(i);
        }
        i += 1;
    }
    None
}

/// Locates the definition that the key `(copy_id, mask_id)` refers to.
fn find_definition(copies: &Vec<VirtualCopy>, copy_id: &str, mask_id: &str) -> (found: Option<(usize, usize)>)
    ensures
        match found {
            Some((c, m)) => c < copies@.len() && m < copies@[c as int].mask_library@.len()
                && def_of(copies@, (copy_id@, mask_id@)) == Some(copies@[c as int].mask_library@[m as int]),
            None => def_of(copies@, (copy_id@, mask_id@)) is None,
        },
{
    match find_copy(copies, copy_id) {
        None => None,
        Some(c) => match find_mask(&copies[c].mask_library, mask_id) {
            None => None,
            Some(m) => {
                proof {
                    let key: KeyView = (copy_id@, mask_id@);
                    let copy = copies@[c as int];
                    let lib = copy.mask_library@;
                    assert(copy_of(copies@, key.0) == Some(copy));
                    assert(first_mask(lib, key.1, m as int));
                    let k = choose|i: int| first_mask(copy.mask_library@, key.1, i);
                    lemma_first_mask_unique(lib, key.1, m as int, k);
                }
                Some((c, m))
            },
        },
    }
}


/// A persisted model identity agrees with the configured one: same name,
/// version and hash, and the input-spec digest matches where the persisted
/// identity records one (a digest that only the configured side carries is
/// not compared).
pub open spec fn identity_agrees(model: ModelIdentity, configured: ModelIdentity) -> bool {
    &&& model.name@ == configured.name@
    &&& model.version@ == configured.version@
    &&& model.hash@ == configured.hash@
    &&& match model.input_spec_digest {
        Some(a) => match configured.input_spec_digest {
            Some(b) => a@ == b@,
            None => false,
        },
        None => true,
    }
}

/// Whether a persisted model identity is confirmed by the configured one.
pub fn model_identity_matches(model: &ModelIdentity, configured: Option<&ModelIdentity>) -> (r: bool)
    ensures
        r == match configured {
            Some(c) => identity_agrees(*model, *c),
            None => false,
        },
{
    match configured {
        None => false,
        Some(configured) => {
            if !(model.name == configured.name && model.version == configured.version
                && model.hash == configured.hash) {
                return false;
            }
            match &model.input_spec_digest {
                Some(a) => match &configured.input_spec_digest {
                    Some(b) => *a == *b,
                    None => false,
                },
                None => true,
            }
        },
    }
}

/// Both parameter lists hold the same entries in the same order.
pub open spec fn same_parameters(a: Seq<(String, String)>, b: Seq<(String, String)>) -> bool {
    a.len() == b.len() && forall|i: int| 0 <= i < a.len() ==> a[i].0@ == b[i].0@ && a[i].1@ == b[i].1@
}

/// A mask's decode context agrees with the current one.
pub open spec fn decode_agrees(actual: DecodeFingerprint, expected: DecodeFingerprint) -> bool {
    &&& actual.decoder@ == expected.decoder@
    &&& actual.version@ == expected.version@
    &&& same_parameters(actual.parameters@, expected.parameters@)
}

/// Whether a mask's decode context agrees with the current one.
pub fn decode_context_matches(actual: &DecodeFingerprint, expected: &DecodeFingerprint) -> (r: bool)
    ensures
        r == decode_agrees(*actual, *expected),
{
    if !(actual.decoder == expected.decoder && actual.version == expected.version) {
        return false;
    }
    if actual.parameters.len() != expected.parameters.len() {
        return false;
    }
    let mut i: usize = 0;
    while i < actual.parameters.len()
        invariant
            actual.parameters@.len() == expected.parameters@.len(),
            i <= actual.parameters@.len(),
            forall|j: int| 0 <= j < i ==> actual.parameters@[j].0@ == expected.parameters@[j].0@
                && actual.parameters@[j].1@ == expected.parameters@[j].1@,
        decreases actual.parameters@.len() - i,
    {
        let a = &actual.parameters[i];
        let b = &expected.parameters[i];
        if !(a.0 == b.0 && a.1 == b.1) {
            return false;
        }
        i += 1;
    }
    true
}


// ---------------------------------------------------------------------------
// Sorted key lists.
// ---------------------------------------------------------------------------

/// The key view of a `(copy_id, mask_id)` pair.
pub open spec fn kv(p: (String, String)) -> KeyView {
    (p.0@, p.1@)
}

/// Strictly ascending in key order (hence free of duplicates).
pub open spec fn keys_sorted(v: Seq<(String, String)>) -> bool {
    forall|i: int, j: int| 0 <= i < j < v.len() ==> key_less(kv(v[i]), kv(v[j]))
}

/// Whether `v` lists the key `k`.
pub open spec fn key_listed(v: Seq<(String, String)>, k: KeyView) -> bool {
    exists|i: int| 0 <= i < v.len() && kv(v[i]) == k
}

/// Inserts `key` into a sorted key list unless it is already there.
pub(crate) fn insert_key(keys: &mut Vec<(String, String)>, key: (String, String))
    requires
        keys_sorted(old(keys)@),
    ensures
        keys_sorted(final(keys)@),
        forall|k: KeyView| key_listed(final(keys)@, k) <==> (key_listed(old(keys)@, k) || k == kv(key)),
{
    let mut i: usize = 0;
    while i < keys.len()
        invariant
            i <= keys@.len(),
            keys@ == old(keys)@,
            keys_sorted(keys@),
            forall|j: int| 0 <= j < i ==> key_less(kv(keys@[j]), kv(key)),
        ensures
            i <= keys@.len(),
            keys@ == old(keys)@,
            forall|j: int| 0 <= j < i ==> key_less(kv(keys@[j]), kv(key)),
            i < keys@.len() ==> !key_less(kv(keys@[i as int]), kv(key)),
        decreases keys@.len() - i,
    {
        if !key_before(keys[i].0.as_str(), keys[i].1.as_str(), key.0.as_str(), key.1.as_str()) {
            break;
        }
        i += 1;
    }
    if i < keys.len() && same_text(keys[i].0.as_str(), key.0.as_str()) && same_text(
        keys[i].1.as_str(),
        key.1.as_str(),
    ) {
        proof {
            assert(kv(keys@[i as int]) == kv(key));
        }
        return;
    }
    let ghost before = keys@;
    proof {
        if i < before.len() {
            lemma_key_order(kv(before[i as int]), kv(key), kv(key));
            assert(key_less(kv(key), kv(before[i as int])));
            assert forall|j: int| i < j < before.len() implies key_less(kv(key), kv(before[j])) by {
                lemma_key_order(kv(key), kv(before[i as int]), kv(before[j]));
            }
        }
    }
    keys.insert(i, key);
    proof {
        let after = keys@;
        assert forall|a: int, b: int| 0 <= a < b < after.len() implies key_less(kv(after[a]), kv(after[b])) by {
            if b < i {
            } else if a < i && b == i {
            } else if a < i && b > i {
                lemma_key_order(kv(before[a]), kv(key), kv(before[b - 1]));
            } else if a == i {
            } else {
            }
        }
        assert forall|k: KeyView| key_listed(after, k) <==> (key_listed(before, k) || k == kv(key)) by {
            if key_listed(before, k) {
                let j = choose|j: int| 0 <= j < before.len() && kv(before[j]) == k;
                if j < i {
                    assert(kv(after[j]) == k);
                } else {
                    assert(kv(after[j + 1]) == k);
                }
            }
            if k == kv(key) {
                assert(kv(after[i as int]) == k);
            }
            if key_listed(after, k) {
                let j = choose|j: int| 0 <= j < after.len() && kv(after[j]) == k;
                if j < i {
                    assert(kv(before[j]) == k);
                } else if j > i {
                    assert(kv(before[j - 1]) == k);
                }
            }
        }
    }
}


/// The key of the mask `m` of copy `c`.
pub open spec fn entry_key(copies: Seq<VirtualCopy>, c: int, m: int) -> KeyView {
    (copies[c].id@, copies[c].mask_library@[m].id@)
}

proof fn lemma_def_entry(copies: Seq<VirtualCopy>, k: KeyView)
    requires
        def_of(copies, k) is Some,
    ensures
        exists|c: int, m: int| 0 <= c < copies.len() && 0 <= m < copies[c].mask_library@.len() && entry_key(copies, c, m) == k,
{
    let c = choose|i: int| first_copy(copies, k.0, i);
    let lib = copies[c].mask_library@;
    let m = choose|i: int| first_mask(lib, k.1, i);
    assert(entry_key(copies, c, m) == k);
}

/// Every key that refers to a definition, in key order.
fn collect_keys(copies: &Vec<VirtualCopy>) -> (keys: Vec<(String, String)>)
    ensures
        keys_sorted(keys@),
        forall|k: KeyView| key_listed(keys@, k) <==> def_of(copies@, k) is Some,
{
    let mut keys: Vec<(String, String)> = Vec::new();
    let mut c: usize = 0;
    while c < copies.len()
        invariant
            c <= copies@.len(),
            keys_sorted(keys@),
            forall|k: KeyView| key_listed(keys@, k) ==> def_of(copies@, k) is Some,
            forall|c2: int, m2: int| 0 <= c2 < c && 0 <= m2 < copies@[c2].mask_library@.len()
                && def_of(copies@, entry_key(copies@, c2, m2)) is Some ==> key_listed(keys@, entry_key(copies@, c2, m2)),
        decreases copies@.len() - c,
    {
        let mut m: usize = 0;
        while m < copies[c].mask_library.len()
            invariant
                c < copies@.len(),
                m <= copies@[c as int].mask_library@.len(),
                keys_sorted(keys@),
                forall|k: KeyView| key_listed(keys@, k) ==> def_of(copies@, k) is Some,
                forall|c2: int, m2: int| 0 <= c2 < c && 0 <= m2 < copies@[c2].mask_library@.len()
                    && def_of(copies@, entry_key(copies@, c2, m2)) is Some ==> key_listed(keys@, entry_key(copies@, c2, m2)),
                forall|m2: int| 0 <= m2 < m && def_of(copies@, entry_key(copies@, c as int, m2)) is Some
                    ==> key_listed(keys@, entry_key(copies@, c as int, m2)),
            decreases copies@[c as int].mask_library@.len() - m,
        {
            let copy_id = copies[c].id.as_str();
            let mask_id = copies[c].mask_library[m].id.as_str();
            if find_definition(copies, copy_id, mask_id).is_some() {
                let key = (copies[c].id.clone(), copies[c].mask_library[m].id.clone());
                proof {
                    assert(kv(key) == entry_key(copies@, c as int, m as int));
                }
                insert_key(&mut keys, key);
            }
            m += 1;
        }
        c += 1;
    }
    proof {
        assert forall|k: KeyView| def_of(copies@, k) is Some implies key_listed(keys@, k) by {
            lemma_def_entry(copies@, k);
            let (c2, m2) = choose|c2: int, m2: int| 0 <= c2 < copies@.len() && 0 <= m2 < copies@[c2].mask_library@.len()
                && entry_key(copies@, c2, m2) == k;
            assert(def_of(copies@, entry_key(copies@, c2, m2)) is Some);
        }
    }
    keys
}


// ---------------------------------------------------------------------------
// Reachability from the active copy's layers.
// ---------------------------------------------------------------------------

/// Whether a layer of the active copy (the first copy with id `active`)
/// uses the key `k`.
pub open spec fn layer_key(copies: Seq<VirtualCopy>, active: Seq<char>, k: KeyView) -> bool {
    match copy_of(copies, active) {
        Some(a) => layers_use(a, k),
        None => false,
    }
}

/// Whether a layer of `copy` uses the key `k`.
pub open spec fn layers_use(copy: VirtualCopy, k: KeyView) -> bool {
    exists|l: int| 0 <= l < copy.mask_layers@.len() && ref_key(copy.mask_layers@[l]) == k
}

/// Whether the definition `d` references the key `k`.
pub open spec fn refers_to(d: MaskDefinition, k: KeyView) -> bool {
    exists|r: int| 0 <= r < d.references@.len() && ref_key(d.references@[r]) == k
}

/// `s` holds every layer key of the active copy that refers to a
/// definition, and every key with a definition that a definition in `s`
/// references.
pub open spec fn reach_closed_set(copies: Seq<VirtualCopy>, active: Seq<char>, s: Set<KeyView>) -> bool {
    &&& forall|k: KeyView| def_of(copies, k) is Some && layer_key(copies, active, k) ==> #[trigger] s.contains(k)
    &&& forall|p: KeyView, k: KeyView|
        #![trigger s.contains(p), refers_to(def_of(copies, p).unwrap(), k)]
        s.contains(p) && def_of(copies, p) is Some && def_of(copies, k) is Some && refers_to(
            def_of(copies, p).unwrap(),
            k,
        ) ==> s.contains(k)
}

/// The definitions reachable from the active copy's layers through
/// references: the keys in every set closed under those two rules.
pub open spec fn reachable(copies: Seq<VirtualCopy>, active: Seq<char>, k: KeyView) -> bool {
    forall|s: Set<KeyView>| #[trigger] reach_closed_set(copies, active, s) ==> s.contains(k)
}

pub proof fn lemma_sorted_distinct(v: Seq<(String, String)>, i: int, j: int)
    requires
        keys_sorted(v),
        0 <= i < v.len(),
        0 <= j < v.len(),
        kv(v[i]) == kv(v[j]),
    ensures
        i == j,
{
    if i < j {
        lemma_key_order(kv(v[i]), kv(v[j]), kv(v[j]));
    } else if j < i {
        lemma_key_order(kv(v[j]), kv(v[i]), kv(v[i]));
    }
}

/// Whether a layer of the active copy (at index `active`) uses `key`.
fn uses_layer(copies: &Vec<VirtualCopy>, active: Option<usize>, key: &(String, String)) -> (r: bool)
    requires
        match active {
            Some(a) => a < copies@.len(),
            None => true,
        },
    ensures
        r == match active {
            Some(a) => layers_use(copies@[a as int], kv(*key)),
            None => false,
        },
{
    match active {
        None => false,
        Some(a) => {
            let layers = &copies[a].mask_layers;
            let mut l: usize = 0;
            while l < layers.len()
                invariant
                    active == Some(a),
                    a < copies@.len(),
                    layers@ == copies@[a as int].mask_layers@,
                    l <= layers@.len(),
                    forall|j: int| 0 <= j < l ==> ref_key(layers@[j]) != kv(*key),
                decreases layers@.len() - l,
            {
                if same_text(layers[l].copy_id.as_str(), key.0.as_str()) && same_text(
                    layers[l].mask_id.as_str(),
                    key.1.as_str(),
                ) {
                    proof {
                        assert(ref_key(copies@[a as int].mask_layers@[l as int]) == kv(*key));
                        assert(layers_use(copies@[a as int], kv(*key)));
                    }
                    return true;
                }
                l += 1;
            }
            false
        },
    }
}

/// Whether `d` references `key`.
fn references_key(d: &MaskDefinition, key: &(String, String)) -> (r: bool)
    ensures
        r == refers_to(*d, kv(*key)),
{
    let mut r: usize = 0;
    while r < d.references.len()
        invariant
            r <= d.references@.len(),
            forall|j: int| 0 <= j < r ==> ref_key(d.references@[j]) != kv(*key),
        decreases d.references@.len() - r,
    {
        if same_text(d.references[r].copy_id.as_str(), key.0.as_str()) && same_text(
            d.references[r].mask_id.as_str(),
            key.1.as_str(),
        ) {
            proof {
                assert(ref_key(d.references@[r as int]) == kv(*key));
            }
            return true;
        }
        r += 1;
    }
    false
}

/// The definition that `keys[j]` refers to.
fn definition_at<'a>(copies: &'a Vec<VirtualCopy>, keys: &Vec<(String, String)>, j: usize) -> (d: &'a MaskDefinition)
    requires
        j < keys@.len(),
        def_of(copies@, kv(keys@[j as int])) is Some,
    ensures
        def_of(copies@, kv(keys@[j as int])) == Some(*d),
{
    match find_definition(copies, keys[j].0.as_str(), keys[j].1.as_str()) {
        Some((c, m)) => &copies[c].mask_library[m],
        None => {
            proof {
                assert(false);
            }
            &copies[0].mask_library[0]
        },
    }
}

/// Whether some marked key's definition references `keys[i]`.
fn referenced_by_marked(copies: &Vec<VirtualCopy>, keys: &Vec<(String, String)>, marks: &Vec<bool>, i: usize) -> (r: bool)
    requires
        i < keys@.len(),
        marks@.len() == keys@.len(),
        forall|j: int| 0 <= j < keys@.len() ==> def_of(copies@, kv(keys@[j])) is Some,
    ensures
        r == exists|j: int| 0 <= j < keys@.len() && marks@[j] && refers_to(def_of(copies@, kv(keys@[j])).unwrap(), kv(keys@[i as int])),
{
    let mut j: usize = 0;
    while j < keys.len()
        invariant
            i < keys@.len(),
            marks@.len() == keys@.len(),
            j <= keys@.len(),
            forall|q: int| 0 <= q < keys@.len() ==> def_of(copies@, kv(keys@[q])) is Some,
            forall|q: int| 0 <= q < j ==> !(marks@[q] && refers_to(def_of(copies@, kv(keys@[q])).unwrap(), kv(keys@[i as int]))),
        decreases keys@.len() - j,
    {
        if marks[j] {
            let d = definition_at(copies, keys, j);
            if references_key(d, &keys[i]) {
                return true;
            }
        }
        j += 1;
    }
    false
}


/// Whether some marked key's definition references `k`.
pub open spec fn marked_refers(copies: Seq<VirtualCopy>, keys: Seq<(String, String)>, marks: Seq<bool>, k: KeyView) -> bool {
    exists|j: int| 0 <= j < keys.len() && marks[j] && refers_to(def_of(copies, kv(keys[j])).unwrap(), k)
}

/// No unmarked key is used by a layer or referenced by a marked key.
pub open spec fn reach_closed(copies: Seq<VirtualCopy>, active: Seq<char>, keys: Seq<(String, String)>, marks: Seq<bool>) -> bool {
    forall|q: int| 0 <= q < keys.len() && !marks[q] ==> !layer_key(copies, active, kv(keys[q]))
        && !marked_refers(copies, keys, marks, kv(keys[q]))
}

/// The keys marked in `marks`.
pub open spec fn marked_set(keys: Seq<(String, String)>, marks: Seq<bool>) -> Set<KeyView> {
    Set::new(|k: KeyView| exists|i: int| 0 <= i < keys.len() && kv(keys[i]) == k && marks[i])
}

proof fn lemma_reach_complete(
    copies: Seq<VirtualCopy>,
    active: Seq<char>,
    keys: Seq<(String, String)>,
    marks: Seq<bool>,
)
    requires
        keys_sorted(keys),
        forall|x: KeyView| key_listed(keys, x) <==> def_of(copies, x) is Some,
        marks.len() == keys.len(),
        reach_closed(copies, active, keys, marks),
    ensures
        reach_closed_set(copies, active, marked_set(keys, marks)),
{
    let m = marked_set(keys, marks);
    assert forall|k: KeyView| def_of(copies, k) is Some && layer_key(copies, active, k) implies #[trigger] m.contains(k) by {
        assert(key_listed(keys, k));
        let i = choose|i: int| 0 <= i < keys.len() && kv(keys[i]) == k;
        assert(marks[i]);
    }
    assert forall|p: KeyView, k: KeyView|
        m.contains(p) && def_of(copies, p) is Some && def_of(copies, k) is Some && refers_to(
            def_of(copies, p).unwrap(),
            k,
        ) implies m.contains(k) by {
        assert(key_listed(keys, k));
        let i = choose|i: int| 0 <= i < keys.len() && kv(keys[i]) == k;
        let j = choose|j: int| 0 <= j < keys.len() && kv(keys[j]) == p && marks[j];
        if !marks[i] {
            assert(marked_refers(copies, keys, marks, kv(keys[i])));
        }
    }
}

/// Marks, for every listed key, whether it is reachable from the active
/// copy's layers.
fn mark_reachable(copies: &Vec<VirtualCopy>, active_copy_id: &str, keys: &Vec<(String, String)>) -> (marks: Vec<bool>)
    requires
        keys_sorted(keys@),
        forall|k: KeyView| key_listed(keys@, k) <==> def_of(copies@, k) is Some,
    ensures
        marks@.len() == keys@.len(),
        forall|i: int| 0 <= i < keys@.len() ==> (marks@[i] <==> reachable(copies@, active_copy_id@, kv(keys@[i]))),
{
    let ghost active_id = active_copy_id@;
    let active = find_copy(copies, active_copy_id);
    proof {
        assert forall|q: int| 0 <= q < keys@.len() implies def_of(copies@, kv(keys@[q])) is Some by {
            assert(key_listed(keys@, kv(keys@[q])));
        }
    }
    let mut marks: Vec<bool> = Vec::new();
    while marks.len() < keys.len()
        invariant
            marks@.len() <= keys@.len(),
            forall|q: int| 0 <= q < marks@.len() ==> !marks@[q],
        decreases keys@.len() - marks@.len(),
    {
        marks.push(false);
    }
    let mut changed = true;
    while changed
        invariant
            marks@.len() == keys@.len(),
            forall|q: int| 0 <= q < keys@.len() ==> def_of(copies@, kv(keys@[q])) is Some,
            match active {
                Some(a) => a < copies@.len() && copy_of(copies@, active_id) == Some(copies@[a as int]),
                None => copy_of(copies@, active_id) is None,
            },
            forall|q: int| 0 <= q < keys@.len() && marks@[q] ==> reachable(copies@, active_id, kv(keys@[q])),
            !changed ==> reach_closed(copies@, active_id, keys@, marks@),
        decreases count_false(marks@) + if changed { 1nat } else { 0nat },
    {
        changed = false;
        let ghost start = marks@;
        let mut i: usize = 0;
        while i < keys.len()
            invariant
                marks@.len() == keys@.len(),
                start.len() == keys@.len(),
                i <= keys@.len(),
                forall|q: int| 0 <= q < keys@.len() ==> def_of(copies@, kv(keys@[q])) is Some,
                match active {
                    Some(a) => a < copies@.len() && copy_of(copies@, active_id) == Some(copies@[a as int]),
                    None => copy_of(copies@, active_id) is None,
                },
                forall|q: int| 0 <= q < keys@.len() && marks@[q] ==> reachable(copies@, active_id, kv(keys@[q])),
                !changed ==> marks@ == start,
                changed ==> count_false(marks@) < count_false(start),
                !changed ==> forall|q: int| 0 <= q < i && !marks@[q] ==> !layer_key(copies@, active_id, kv(keys@[q]))
                    && !marked_refers(copies@, keys@, marks@, kv(keys@[q])),
            decreases keys@.len() - i,
        {
            if !marks[i] {
                let layer = uses_layer(copies, active, &keys[i]);
                let by_reference = if layer { false } else { referenced_by_marked(copies, keys, &marks, i) };
                if layer || by_reference {
                    proof {
                        let k = kv(keys@[i as int]);
                        if layer {
                            assert(layer_key(copies@, active_id, k));
                        } else {
                            let j = choose|j: int| 0 <= j < keys@.len() && marks@[j]
                                && refers_to(def_of(copies@, kv(keys@[j])).unwrap(), k);
                            let p = kv(keys@[j]);
                            assert(reachable(copies@, active_id, p));
                            assert forall|st: Set<KeyView>| #[trigger] reach_closed_set(copies@, active_id, st) implies st.contains(k) by {
                                assert(st.contains(p));
                            }
                        }
                        lemma_count_false_set(marks@, i as int);
                    }
                    marks.set(i, true);
                    changed = true;
                } else {
                    proof {
                        let k = kv(keys@[i as int]);
                        assert(!layer_key(copies@, active_id, k));
                    }
                }
            }
            i += 1;
        }
    }
    proof {
        lemma_reach_complete(copies@, active_id, keys@, marks@);
        let m = marked_set(keys@, marks@);
        assert forall|i: int| 0 <= i < keys@.len() && reachable(copies@, active_id, kv(keys@[i])) implies marks@[i] by {
            assert(m.contains(kv(keys@[i])));
            let i2 = choose|i2: int| 0 <= i2 < keys@.len() && kv(keys@[i2]) == kv(keys@[i]) && marks@[i2];
            lemma_sorted_distinct(keys@, i, i2);
        }
    }
    marks
}


// ---------------------------------------------------------------------------
// Blessing: a derived definition is usable once every mask it references is.
// ---------------------------------------------------------------------------

/// A reachable source definition.
pub open spec fn reachable_source(copies: Seq<VirtualCopy>, active: Seq<char>, k: KeyView) -> bool {
    reachable(copies, active, k) && def_of(copies, k) is Some && def_of(copies, k).unwrap().operation
        == MaskOperation::Source
}

/// Every reference of `d` is in `s`.
pub open spec fn references_in(d: MaskDefinition, s: Set<KeyView>) -> bool {
    forall|r: int| 0 <= r < d.references@.len() ==> #[trigger] s.contains(ref_key(d.references@[r]))
}

/// `s` holds every reachable source definition, and every reachable
/// definition with at least one reference whose references are all in `s`.
pub open spec fn bless_closed_set(copies: Seq<VirtualCopy>, active: Seq<char>, s: Set<KeyView>) -> bool {
    &&& forall|k: KeyView| reachable_source(copies, active, k) ==> #[trigger] s.contains(k)
    &&& forall|k: KeyView|
        #![trigger s.contains(k)]
        reachable(copies, active, k) && def_of(copies, k) is Some && def_of(copies, k).unwrap().references@.len()
            > 0 && references_in(def_of(copies, k).unwrap(), s) ==> s.contains(k)
}

/// The reachable definitions whose whole dependency closure resolves to
/// reachable source masks: the keys in every set closed under those rules.
pub open spec fn blessed(copies: Seq<VirtualCopy>, active: Seq<char>, k: KeyView) -> bool {
    forall|s: Set<KeyView>| #[trigger] bless_closed_set(copies, active, s) ==> s.contains(k)
}

/// Index of the key `(copy_id, mask_id)` in a sorted key list.
pub(crate) fn find_key(keys: &Vec<(String, String)>, copy_id: &str, mask_id: &str) -> (found: Option<usize>)
    ensures
        match found {
            Some(i) => i < keys@.len() && kv(keys@[i as int]) == (copy_id@, mask_id@),
            None => !key_listed(keys@, (copy_id@, mask_id@)),
        },
{
    let mut i: usize = 0;
    while i < keys.len()
        invariant
            i <= keys@.len(),
            forall|j: int| 0 <= j < i ==> kv(keys@[j]) != (copy_id@, mask_id@),
        decreases keys@.len() - i,
    {
        if same_text(keys[i].0.as_str(), copy_id) && same_text(keys[i].1.as_str(), mask_id) {
            return Some(i);
        }
        i += 1;
    }
    None
}

/// Whether every reference of `d` is a marked key.
fn references_marked(d: &MaskDefinition, keys: &Vec<(String, String)>, marks: &Vec<bool>) -> (r: bool)
    requires
        keys_sorted(keys@),
        marks@.len() == keys@.len(),
    ensures
        r == references_in(*d, marked_set(keys@, marks@)),
{
    let ghost m = marked_set(keys@, marks@);
    let mut r: usize = 0;
    while r < d.references.len()
        invariant
            marks@.len() == keys@.len(),
            keys_sorted(keys@),
            m == marked_set(keys@, marks@),
            r <= d.references@.len(),
            forall|q: int| 0 <= q < r ==> #[trigger] m.contains(ref_key(d.references@[q])),
        decreases d.references@.len() - r,
    {
        match find_key(keys, d.references[r].copy_id.as_str(), d.references[r].mask_id.as_str()) {
            Some(i) => {
                if !marks[i] {
                    proof {
                        let k = ref_key(d.references@[r as int]);
                        if m.contains(k) {
                            let i2 = choose|i2: int| 0 <= i2 < keys@.len() && kv(keys@[i2]) == k && marks@[i2];
                            lemma_sorted_distinct(keys@, i as int, i2);
                        }
                        assert(!m.contains(k));
                    }
                    return false;
                }
            },
            None => {
                proof {
                    let k = ref_key(d.references@[r as int]);
                    if m.contains(k) {
                        let i2 = choose|i2: int| 0 <= i2 < keys@.len() && kv(keys@[i2]) == k && marks@[i2];
                        assert(key_listed(keys@, k));
                    }
                }
                return false;
            },
        }
        r += 1;
    }
    true
}


/// Marks, for every listed key, whether it is blessed.
fn mark_blessed(
    copies: &Vec<VirtualCopy>,
    active_copy_id: &str,
    keys: &Vec<(String, String)>,
    reach: &Vec<bool>,
) -> (marks: Vec<bool>)
    requires
        keys_sorted(keys@),
        forall|k: KeyView| key_listed(keys@, k) <==> def_of(copies@, k) is Some,
        reach@.len() == keys@.len(),
        forall|i: int| 0 <= i < keys@.len() ==> (reach@[i] <==> reachable(copies@, active_copy_id@, kv(keys@[i]))),
    ensures
        marks@.len() == keys@.len(),
        forall|i: int| 0 <= i < keys@.len() ==> (marks@[i] <==> blessed(copies@, active_copy_id@, kv(keys@[i]))),
{
    let ghost active = active_copy_id@;
    proof {
        assert forall|q: int| 0 <= q < keys@.len() implies def_of(copies@, kv(keys@[q])) is Some by {
            assert(key_listed(keys@, kv(keys@[q])));
        }
    }
    let mut marks: Vec<bool> = Vec::new();
    while marks.len() < keys.len()
        invariant
            marks@.len() <= keys@.len(),
            reach@.len() == keys@.len(),
            forall|q: int| 0 <= q < keys@.len() ==> (reach@[q] <==> reachable(copies@, active, kv(keys@[q]))),
            forall|q: int| 0 <= q < keys@.len() ==> def_of(copies@, kv(keys@[q])) is Some,
            forall|q: int| 0 <= q < marks@.len() ==> (marks@[q] <==> reachable_source(copies@, active, kv(keys@[q]))),
        decreases keys@.len() - marks@.len(),
    {
        let i = marks.len();
        let d = definition_at(copies, keys, i);
        marks.push(reach[i] && d.operation == MaskOperation::Source);
    }
    proof {
        assert forall|q: int| 0 <= q < keys@.len() && marks@[q] implies blessed(copies@, active, kv(keys@[q])) by {
            assert forall|st: Set<KeyView>| #[trigger] bless_closed_set(copies@, active, st) implies st.contains(kv(keys@[q])) by {
                assert(reachable_source(copies@, active, kv(keys@[q])));
            }
        }
    }
    let mut changed = true;
    while changed
        invariant
            marks@.len() == keys@.len(),
            reach@.len() == keys@.len(),
            keys_sorted(keys@),
            forall|q: int| 0 <= q < keys@.len() ==> def_of(copies@, kv(keys@[q])) is Some,
            forall|q: int| 0 <= q < keys@.len() ==> (reach@[q] <==> reachable(copies@, active, kv(keys@[q]))),
            forall|q: int| 0 <= q < keys@.len() && reachable_source(copies@, active, kv(keys@[q])) ==> marks@[q],
            forall|q: int| 0 <= q < keys@.len() && marks@[q] ==> blessed(copies@, active, kv(keys@[q])),
            !changed ==> forall|q: int| 0 <= q < keys@.len() && !marks@[q] && reach@[q]
                ==> !(def_of(copies@, kv(keys@[q])).unwrap().references@.len() > 0 && references_in(
                def_of(copies@, kv(keys@[q])).unwrap(),
                marked_set(keys@, marks@),
            )),
        decreases count_false(marks@) + if changed { 1nat } else { 0nat },
    {
        changed = false;
        let ghost start = marks@;
        let mut i: usize = 0;
        while i < keys.len()
            invariant
                marks@.len() == keys@.len(),
                reach@.len() == keys@.len(),
                keys_sorted(keys@),
                start.len() == keys@.len(),
                i <= keys@.len(),
                forall|q: int| 0 <= q < keys@.len() ==> def_of(copies@, kv(keys@[q])) is Some,
                forall|q: int| 0 <= q < keys@.len() ==> (reach@[q] <==> reachable(copies@, active, kv(keys@[q]))),
                forall|q: int| 0 <= q < keys@.len() && reachable_source(copies@, active, kv(keys@[q])) ==> marks@[q],
                forall|q: int| 0 <= q < keys@.len() && marks@[q] ==> blessed(copies@, active, kv(keys@[q])),
                !changed ==> marks@ == start,
                changed ==> count_false(marks@) < count_false(start),
                !changed ==> forall|q: int| 0 <= q < i && !marks@[q] && reach@[q]
                    ==> !(def_of(copies@, kv(keys@[q])).unwrap().references@.len() > 0 && references_in(
                    def_of(copies@, kv(keys@[q])).unwrap(),
                    marked_set(keys@, marks@),
                )),
            decreases keys@.len() - i,
        {
            if !marks[i] && reach[i] {
                let d = definition_at(copies, keys, i);
                if d.references.len() > 0 && references_marked(d, keys, &marks) {
                    proof {
                        let k = kv(keys@[i as int]);
                        let ms = marked_set(keys@, marks@);
                        assert forall|st: Set<KeyView>| #[trigger] bless_closed_set(copies@, active, st) implies st.contains(k) by {
                            assert forall|r: int| 0 <= r < d.references@.len() implies #[trigger] st.contains(ref_key(d.references@[r])) by {
                                assert(ms.contains(ref_key(d.references@[r])));
                                let i2 = choose|i2: int| 0 <= i2 < keys@.len() && kv(keys@[i2]) == ref_key(d.references@[r]) && marks@[i2];
                                assert(blessed(copies@, active, kv(keys@[i2])));
                            }
                            assert(references_in(*d, st));
                        }
                        lemma_count_false_set(marks@, i as int);
                    }
                    marks.set(i, true);
                    changed = true;
                }
            }
            i += 1;
        }
    }
    proof {
        let ms = marked_set(keys@, marks@);
        assert forall|k: KeyView| reachable_source(copies@, active, k) implies #[trigger] ms.contains(k) by {
            assert(key_listed(keys@, k));
            let i = choose|i: int| 0 <= i < keys@.len() && kv(keys@[i]) == k;
            assert(marks@[i]);
        }
        assert forall|k: KeyView|
            reachable(copies@, active, k) && def_of(copies@, k) is Some && def_of(copies@, k).unwrap().references@.len() > 0
                && references_in(def_of(copies@, k).unwrap(), ms) implies #[trigger] ms.contains(k) by {
            assert(key_listed(keys@, k));
            let i = choose|i: int| 0 <= i < keys@.len() && kv(keys@[i]) == k;
            assert(reach@[i]);
            assert(marks@[i]);
        }
        assert(bless_closed_set(copies@, active, ms));
        assert forall|i: int| 0 <= i < keys@.len() && blessed(copies@, active, kv(keys@[i])) implies marks@[i] by {
            assert(ms.contains(kv(keys@[i])));
            let i2 = choose|i2: int| 0 <= i2 < keys@.len() && kv(keys@[i2]) == kv(keys@[i]) && marks@[i2];
            lemma_sorted_distinct(keys@, i, i2);
        }
    }
    marks
}


// ---------------------------------------------------------------------------
// The decision layer.
// ---------------------------------------------------------------------------

/// Re-inference backend for a subject matte. The decision layer calls
/// `infer` only when a mask has to be re-inferred.
pub trait MaskInference {
    /// Whether the model weights needed for inference are present.
    fn is_available(&self) -> bool;

    /// Re-infers a subject matte from `frame`.
    fn infer(&self, frame: &ImageFrame) -> Result<MaskPlane, CoreError>;
}

/// How a source mask was resolved.
#[derive(Debug, Clone, Copy, PartialEq, Eq, Structural)]
pub enum MaskResolvedFrom {
    /// A confirmably valid persisted plane was used (no inference).
    LoadedPersisted,
    /// The model was available and the matte was re-inferred.
    ReInferred,
    /// No model was available; a cached (possibly stale) plane was used.
    CachedUnavailable,
}

/// Per-mask resolution outcome.
#[derive(Debug, Clone)]
pub struct MaskLoadOutcome {
    pub copy_id: String,
    pub mask_id: String,
    pub from: MaskResolvedFrom,
}

/// Inputs to the decision layer.
pub struct MaskLoadContext<'a, I> {
    /// All virtual copies; references may cross copies.
    pub copies: Vec<VirtualCopy>,
    /// The copy whose layers decide which masks are reachable.
    pub active_copy_id: &'a str,
    /// Content hash of the current source.
    pub source_hash: &'a str,
    /// Decode fingerprint of the current source.
    pub decode_context: &'a DecodeFingerprint,
    /// Planes already loaded from the tile container, keyed by
    /// `(copy_id, mask_id)`; a lookup finds the first entry with the key.
    pub loaded_planes: Vec<((String, String), MaskPlane)>,
    /// Re-inference backend, if one is wired.
    pub inference: Option<&'a I>,
    /// Identity of the configured model.
    pub model_identity: Option<&'a ModelIdentity>,
    /// Re-infer even where a confirmably valid persisted plane exists.
    pub refresh: bool,
}

/// What the decision layer produced.
#[derive(Debug)]
pub struct MaskLoadResult {
    /// One plane per resolved source mask, in key order.
    pub planes: Vec<((String, String), MaskPlane)>,
    /// The copies with the statuses of resolved and corrupt masks updated.
    pub copies: Vec<VirtualCopy>,
    /// Human-readable warnings (cache fallbacks, corrupt artifacts).
    pub warnings: Vec<String>,
    /// Whether some mask needed the model while it was unavailable.
    pub model_unavailable: bool,
    /// One outcome per resolved source mask, in key order.
    pub outcomes: Vec<MaskLoadOutcome>,
}

/// `i` is the first entry of `planes` with the key `k`.
pub open spec fn first_plane(planes: Seq<((String, String), MaskPlane)>, k: KeyView, i: int) -> bool {
    0 <= i < planes.len() && kv(planes[i].0) == k && forall|j: int| 0 <= j < i ==> kv(planes[j].0) != k
}

/// The loaded plane for `k`: the first entry with that key.
pub open spec fn loaded_plane(planes: Seq<((String, String), MaskPlane)>, k: KeyView) -> Option<MaskPlane> {
    if exists|i: int| first_plane(planes, k, i) {
        Some(planes[choose|i: int| first_plane(planes, k, i)].1)
    } else {
        None
    }
}

/// Two planes hold the same samples.
pub open spec fn same_plane(a: MaskPlane, b: MaskPlane) -> bool {
    a.width == b.width && a.height == b.height && a.values@ == b.values@
}

/// The decoded plane disagrees with the resolution its artifact record
/// declares.
pub open spec fn plane_contradicts(d: MaskDefinition, plane: Option<MaskPlane>) -> bool {
    match plane {
        Some(p) => match d.artifact {
            Some(a) => p.width != a.width || p.height != a.height,
            None => false,
        },
        None => false,
    }
}

/// The persisted plane of `d` is confirmably valid: status `Valid`, plane and
/// artifact record present and in agreement, and source, decode context and
/// model identity unchanged.
pub open spec fn persisted_confirmed(
    d: MaskDefinition,
    plane: Option<MaskPlane>,
    source_hash: Seq<char>,
    decode: DecodeFingerprint,
    model: Option<&ModelIdentity>,
) -> bool {
    &&& d.status == MaskStatus::Valid
    &&& plane is Some
    &&& d.artifact is Some
    &&& !plane_contradicts(d, plane)
    &&& d.source_hash@ == source_hash
    &&& decode_agrees(d.decode_context, decode)
    &&& match model {
        Some(c) => identity_agrees(d.model, *c),
        None => false,
    }
}

/// The debug name of a status.
pub open spec fn status_name(s: MaskStatus) -> Seq<char> {
    match s {
        MaskStatus::Valid => "Valid"@,
        MaskStatus::Stale => "Stale"@,
        MaskStatus::Missing => "Missing"@,
        MaskStatus::Corrupt => "Corrupt"@,
    }
}

/// Warning for a plane whose dimensions contradict its artifact record.
pub open spec fn dims_warning(k: KeyView, p: MaskPlane, a: ArtifactReference) -> Seq<char> {
    "mask `"@ + k.0 + "/"@ + k.1 + "` artifact dimensions "@ + decimal(p.width as nat) + "x"@ + decimal(
        p.height as nat,
    ) + " contradict the declared "@ + decimal(a.width as nat) + "x"@ + decimal(a.height as nat)
        + "; marked Corrupt (no silent resample)"@
}

/// Warning for a plane served from cache because no model is available.
pub open spec fn cache_warning(k: KeyView, status: MaskStatus) -> Seq<char> {
    "mask `"@ + k.0 + "/"@ + k.1 + "` used from cache because the inference model is unavailable (persisted status "@
        + status_name(status) + "); the result may be stale"@
}

/// Prefix of the reason of a failed re-inference.
pub open spec fn inference_failure_prefix(k: KeyView) -> Seq<char> {
    "re-inference of mask `"@ + k.0 + "/"@ + k.1 + "` failed: "@
}

/// The key of an outcome.
pub open spec fn outcome_key(o: MaskLoadOutcome) -> KeyView {
    (o.copy_id@, o.mask_id@)
}

/// The texts of a list of strings.
pub open spec fn texts(v: Seq<String>) -> Seq<Seq<char>> {
    v.map_values(|t: String| t@)
}

impl<'a, I> MaskLoadContext<'a, I> {
    /// The definition a key refers to.
    pub open spec fn def(&self, k: KeyView) -> Option<MaskDefinition> {
        def_of(self.copies@, k)
    }

    /// The loaded plane of a key.
    pub open spec fn plane(&self, k: KeyView) -> Option<MaskPlane> {
        loaded_plane(self.loaded_planes@, k)
    }

    /// A source mask reachable from the active copy.
    pub open spec fn source_key(&self, k: KeyView) -> bool {
        reachable_source(self.copies@, self.active_copy_id@, k)
    }

    /// The persisted plane of `k` is used as it is: confirmably valid and
    /// no refresh requested.
    pub open spec fn keeps_persisted(&self, k: KeyView) -> bool {
        !self.refresh && persisted_confirmed(
            self.def(k).unwrap(),
            self.plane(k),
            self.source_hash@,
            *self.decode_context,
            self.model_identity,
        )
    }

    /// The plane of `k` contradicts its artifact record.
    pub open spec fn contradicts(&self, k: KeyView) -> bool {
        plane_contradicts(self.def(k).unwrap(), self.plane(k))
    }

    /// An outcome that the decision rules allow for its key.
    pub open spec fn outcome_allowed(&self, o: MaskLoadOutcome) -> bool {
        let k = outcome_key(o);
        &&& (o.from == MaskResolvedFrom::LoadedPersisted) == self.keeps_persisted(k)
        &&& o.from == MaskResolvedFrom::CachedUnavailable ==> self.plane(k) is Some
        &&& o.from == MaskResolvedFrom::ReInferred ==> self.inference is Some
    }

    /// The warnings an outcome raises.
    pub open spec fn outcome_warnings(&self, o: MaskLoadOutcome) -> Seq<Seq<char>> {
        let k = outcome_key(o);
        if o.from == MaskResolvedFrom::CachedUnavailable {
            (if self.contradicts(k) {
                seq![dims_warning(k, self.plane(k).unwrap(), self.def(k).unwrap().artifact.unwrap())]
            } else {
                Seq::empty()
            }) + seq![cache_warning(k, self.def(k).unwrap().status)]
        } else {
            Seq::empty()
        }
    }

    /// The warnings of a list of outcomes, in order.
    pub open spec fn warnings_for(&self, outcomes: Seq<MaskLoadOutcome>) -> Seq<Seq<char>>
        decreases outcomes.len(),
    {
        if outcomes.len() == 0 {
            Seq::empty()
        } else {
            self.warnings_for(outcomes.drop_last()) + self.outcome_warnings(outcomes.last())
        }
    }

    /// A source mask without a usable persisted plane and without a cached
    /// plane: only the model can provide it.
    pub open spec fn needs_model_without_cache(&self, k: KeyView) -> bool {
        self.source_key(k) && !self.keeps_persisted(k) && self.plane(k) is None
    }
}


/// The keys of `keys[..n]` selected by `sel`, in order.
pub open spec fn filter_keys(keys: Seq<(String, String)>, sel: Seq<bool>, n: int) -> Seq<KeyView>
    decreases n,
{
    if n <= 0 {
        Seq::empty()
    } else {
        filter_keys(keys, sel, n - 1) + if sel[n - 1] {
            seq![kv(keys[n - 1])]
        } else {
            Seq::empty()
        }
    }
}

/// `k` is the key of a selected entry of `keys[..n]`.
pub open spec fn selected_key(keys: Seq<(String, String)>, sel: Seq<bool>, n: int, k: KeyView) -> bool {
    exists|x: int| 0 <= x < n && sel[x] && kv(keys[x]) == k
}

proof fn lemma_filter_keys(keys: Seq<(String, String)>, sel: Seq<bool>, n: int)
    requires
        keys_sorted(keys),
        0 <= n <= keys.len(),
        sel.len() == keys.len(),
    ensures
        forall|q: int| 0 <= q < filter_keys(keys, sel, n).len() ==> selected_key(keys, sel, n, #[trigger] filter_keys(keys, sel, n)[q]),
        forall|x: int| 0 <= x < n && sel[x] ==> #[trigger] filter_keys(keys, sel, n).contains(kv(keys[x])),
        forall|a: int, b: int| 0 <= a < b < filter_keys(keys, sel, n).len() ==> key_less(filter_keys(keys, sel, n)[a], filter_keys(keys, sel, n)[b]),
    decreases n,
{
    if n > 0 {
        lemma_filter_keys(keys, sel, n - 1);
        let f0 = filter_keys(keys, sel, n - 1);
        let f = filter_keys(keys, sel, n);
        if sel[n - 1] {
            assert(f =~= f0.push(kv(keys[n - 1])));
            assert forall|q: int| 0 <= q < f.len() implies selected_key(keys, sel, n, #[trigger] f[q]) by {
                if q == f0.len() {
                    assert(kv(keys[n - 1]) == f[q]);
                } else {
                    assert(f[q] == f0[q]);
                    assert(selected_key(keys, sel, n - 1, f0[q]));
                }
            }
            assert forall|x: int| 0 <= x < n && sel[x] implies #[trigger] f.contains(kv(keys[x])) by {
                if x == n - 1 {
                    assert(f[f0.len() as int] == kv(keys[x]));
                } else {
                    assert(f0.contains(kv(keys[x])));
                    let q = choose|q: int| 0 <= q < f0.len() && f0[q] == kv(keys[x]);
                    assert(f[q] == kv(keys[x]));
                }
            }
            assert forall|a: int, b: int| 0 <= a < b < f.len() implies key_less(f[a], f[b]) by {
                if b == f0.len() {
                    assert(f[a] == f0[a]);
                    assert(selected_key(keys, sel, n - 1, f0[a]));
                    let x = choose|x: int| 0 <= x < n - 1 && sel[x] && kv(keys[x]) == f0[a];
                    assert(key_less(kv(keys[x]), kv(keys[n - 1])));
                } else {
                    assert(f[a] == f0[a]);
                    assert(f[b] == f0[b]);
                }
            }
        } else {
            assert(f =~= f0);
            assert forall|q: int| 0 <= q < f.len() implies selected_key(keys, sel, n, #[trigger] f[q]) by {
                assert(f[q] == f0[q]);
                assert(selected_key(keys, sel, n - 1, f0[q]));
            }
            assert forall|x: int| 0 <= x < n && sel[x] implies #[trigger] f.contains(kv(keys[x])) by {
                assert(f0.contains(kv(keys[x])));
            }
        }
    }
}

/// Index of the first loaded plane with the key `(copy_id, mask_id)`.
pub(crate) fn find_plane(planes: &Vec<((String, String), MaskPlane)>, copy_id: &str, mask_id: &str) -> (found: Option<usize>)
    ensures
        match found {
            Some(j) => j < planes@.len() && kv(planes@[j as int].0) == (copy_id@, mask_id@)
                && loaded_plane(planes@, (copy_id@, mask_id@)) == Some(planes@[j as int].1),
            None => loaded_plane(planes@, (copy_id@, mask_id@)) is None,
        },
{
    let ghost k: KeyView = (copy_id@, mask_id@);
    let mut j: usize = 0;
    while j < planes.len()
        invariant
            j <= planes@.len(),
            k == (copy_id@, mask_id@),
            forall|q: int| 0 <= q < j ==> kv(planes@[q].0) != k,
        decreases planes@.len() - j,
    {
        if same_text(planes[j].0.0.as_str(), copy_id) && same_text(planes[j].0.1.as_str(), mask_id) {
            proof {
                assert(first_plane(planes@, k, j as int));
                let c = choose|i: int| first_plane(planes@, k, i);
                if c < j {
                    assert(kv(planes@[c].0) != k);
                } else if j < c {
                    assert(kv(planes@[j as int].0) != k);
                }
            }
            return Some(j);
        }
        j += 1;
    }
    proof {
        if exists|i: int| first_plane(planes@, k, i) {
            let c = choose|i: int| first_plane(planes@, k, i);
            assert(kv(planes@[c].0) != k);
        }
    }
    None
}

/// A copy of `p`.
pub(crate) fn copy_plane(p: &MaskPlane) -> (q: MaskPlane)
    ensures
        same_plane(q, *p),
{
    MaskPlane { width: p.width, height: p.height, values: vstd::slice::slice_to_vec(p.values.as_slice()) }
}

fn status_text(s: MaskStatus) -> (t: &'static str)
    ensures
        t@ == status_name(s),
{
    match s {
        MaskStatus::Valid => "Valid",
        MaskStatus::Stale => "Stale",
        MaskStatus::Missing => "Missing",
        MaskStatus::Corrupt => "Corrupt",
    }
}

fn dims_warning_text(key: &(String, String), p: &MaskPlane, a: &ArtifactReference) -> (t: String)
    ensures
        t@ == dims_warning(kv(*key), *p, *a),
{
    let mut t = String::from_str("mask `");
    t.append(key.0.as_str());
    t.append("/");
    t.append(key.1.as_str());
    t.append("` artifact dimensions ");
    push_decimal(&mut t, p.width as u64);
    t.append("x");
    push_decimal(&mut t, p.height as u64);
    t.append(" contradict the declared ");
    push_decimal(&mut t, a.width as u64);
    t.append("x");
    push_decimal(&mut t, a.height as u64);
    t.append("; marked Corrupt (no silent resample)");
    t
}

fn cache_warning_text(key: &(String, String), status: MaskStatus) -> (t: String)
    ensures
        t@ == cache_warning(kv(*key), status),
{
    let mut t = String::from_str("mask `");
    t.append(key.0.as_str());
    t.append("/");
    t.append(key.1.as_str());
    t.append("` used from cache because the inference model is unavailable (persisted status ");
    t.append(status_text(status));
    t.append("); the result may be stale");
    t
}

fn failure_reason(key: &(String, String), e: &CoreError) -> (t: String)
    ensures
        t@ == inference_failure_prefix(kv(*key)) + core_error_text(*e),
{
    let mut t = String::from_str("re-inference of mask `");
    t.append(key.0.as_str());
    t.append("/");
    t.append(key.1.as_str());
    t.append("` failed: ");
    let detail = e.message();
    t.append(detail.as_str());
    t
}


/// Where the plane of a reachable source mask comes from.
#[derive(Debug, Clone, Copy, PartialEq, Eq, Structural)]
pub enum MaskChoice {
    /// The persisted plane is used as it is.
    KeepPersisted,
    /// The model infers the mask anew.
    ReInfer,
    /// The model is unavailable; the loaded plane is served from cache.
    UseCached,
    /// The model is unavailable and no plane is loaded: the mask cannot be
    /// provided.
    Unavailable,
}

/// The choice for a source mask: a persisted plane confirmed valid (and no
/// refresh) is kept; otherwise the model re-infers whenever it reports
/// itself available, and only when it does not, the loaded plane is served
/// from cache if there is one.
pub open spec fn mask_choice(keeps_persisted: bool, model_available: bool, has_cached: bool) -> MaskChoice {
    if keeps_persisted {
        MaskChoice::KeepPersisted
    } else if model_available {
        MaskChoice::ReInfer
    } else if has_cached {
        MaskChoice::UseCached
    } else {
        MaskChoice::Unavailable
    }
}

/// Decides where the plane of a source mask comes from, given whether its
/// persisted plane is used as it is, what the inference backend answered
/// when asked whether it is available, and whether a plane is loaded.
pub fn choose_mask_source(keeps_persisted: bool, model_available: bool, has_cached: bool) -> (choice: MaskChoice)
    ensures
        choice == mask_choice(keeps_persisted, model_available, has_cached),
{
    if keeps_persisted {
        MaskChoice::KeepPersisted
    } else if model_available {
        MaskChoice::ReInfer
    } else if has_cached {
        MaskChoice::UseCached
    } else {
        MaskChoice::Unavailable
    }
}

/// What a re-inference of the mask `key` gives, from the backend's answer:
/// the inferred plane, or an inference error that names the mask and
/// carries the backend's message.
pub fn reinference_result(key: &(String, String), inferred: Result<MaskPlane, CoreError>) -> (result: Result<MaskPlane, CoreError>)
    ensures
        inferred is Ok ==> result == inferred,
        inferred matches Err(e) ==> (result matches Err(CoreError::MaskInference { reason }) && reason@
            == inference_failure_prefix(kv(*key)) + core_error_text(e)),
{
    match inferred {
        Ok(plane) => Ok(plane),
        Err(e) => Err(CoreError::MaskInference { reason: failure_reason(key, &e) }),
    }
}

/// The per-mask decisions: planes, outcomes, warnings and whether the model
/// was missing for some mask.
struct Decisions {
    planes: Vec<((String, String), MaskPlane)>,
    outcomes: Vec<MaskLoadOutcome>,
    warnings: Vec<String>,
    model_unavailable: bool,
    /// Per listed key: its plane contradicts its artifact record and the
    /// mask was not re-inferred.
    corrupt: Vec<bool>,
}

/// Some outcome re-inferred the mask `k`.
pub open spec fn reinferred(outcomes: Seq<MaskLoadOutcome>, k: KeyView) -> bool {
    exists|q: int| 0 <= q < outcomes.len() && outcome_key(#[trigger] outcomes[q]) == k && outcomes[q].from
        == MaskResolvedFrom::ReInferred
}

/// The keys of a list of outcomes.
pub open spec fn outcome_keys(outcomes: Seq<MaskLoadOutcome>) -> Seq<KeyView> {
    outcomes.map_values(|o: MaskLoadOutcome| outcome_key(o))
}

impl<'a, I> MaskLoadContext<'a, I> {
    /// The plane stored for an outcome is the loaded one unless the mask was
    /// re-inferred.
    pub open spec fn planes_match(&self, planes: Seq<((String, String), MaskPlane)>, outcomes: Seq<MaskLoadOutcome>) -> bool {
        &&& planes.len() == outcomes.len()
        &&& forall|q: int| 0 <= q < planes.len() ==> kv(#[trigger] planes[q].0) == outcome_key(outcomes[q])
        &&& forall|q: int|
            0 <= q < planes.len() && #[trigger] outcomes[q].from != MaskResolvedFrom::ReInferred ==> self.plane(
                outcome_key(outcomes[q]),
            ) is Some && same_plane(planes[q].1, self.plane(outcome_key(outcomes[q])).unwrap())
    }

    /// Whether some outcome served a cached plane.
    pub open spec fn any_cached(outcomes: Seq<MaskLoadOutcome>) -> bool {
        exists|q: int| 0 <= q < outcomes.len() && #[trigger] outcomes[q].from == MaskResolvedFrom::CachedUnavailable
    }
}

/// Decides, for every reachable source mask in key order, where its plane
/// comes from.
fn decide_sources<I: MaskInference>(
    ctx: &MaskLoadContext<'_, I>,
    frame: &ImageFrame,
    keys: &Vec<(String, String)>,
    sources: &Vec<bool>,
) -> (result: Result<Decisions, CoreError>)
    requires
        keys_sorted(keys@),
        forall|k: KeyView| key_listed(keys@, k) <==> ctx.def(k) is Some,
        sources@.len() == keys@.len(),
        forall|i: int| 0 <= i < keys@.len() ==> (sources@[i] <==> ctx.source_key(kv(keys@[i]))),
    ensures
        match result {
            Ok(r) => {
                &&& outcome_keys(r.outcomes@) == filter_keys(keys@, sources@, keys@.len() as int)
                &&& forall|q: int| 0 <= q < r.outcomes@.len() ==> ctx.outcome_allowed(#[trigger] r.outcomes@[q])
                &&& ctx.planes_match(r.planes@, r.outcomes@)
                &&& texts(r.warnings@) == ctx.warnings_for(r.outcomes@)
                &&& r.model_unavailable == MaskLoadContext::<I>::any_cached(r.outcomes@)
                &&& ctx.inference is None ==> forall|x: int| 0 <= x < keys@.len() && sources@[x] ==> ctx.keeps_persisted(kv(keys@[x]))
                    || ctx.plane(kv(keys@[x])) is Some
                &&& r.corrupt@.len() == keys@.len()
                &&& forall|x: int| 0 <= x < keys@.len() ==> (r.corrupt@[x] <==> sources@[x] && ctx.contradicts(kv(keys@[x]))
                    && !reinferred(r.outcomes@, kv(keys@[x])))
            },
            Err(e) => match e {
                CoreError::MaskUnavailable { copy_id, mask_id, status } => {
                    &&& status@ == "model-unavailable"@
                    &&& exists|x: int| 0 <= x < keys@.len() && sources@[x] && kv(keys@[x]) == (copy_id@, mask_id@)
                        && ctx.needs_model_without_cache(kv(keys@[x])) && (ctx.inference is None ==> forall|y: int|
                        0 <= y < x && sources@[y] ==> ctx.keeps_persisted(kv(keys@[y])) || ctx.plane(kv(keys@[y])) is Some)
                },
                CoreError::MaskInference { reason } => {
                    &&& ctx.inference is Some
                    &&& exists|x: int, e2: CoreError| 0 <= x < keys@.len() && sources@[x] && !ctx.keeps_persisted(kv(keys@[x]))
                        && reason@ == inference_failure_prefix(kv(keys@[x])) + core_error_text(e2)
                },
                _ => false,
            },
        },
        (forall|x: int| 0 <= x < keys@.len() && sources@[x] ==> ctx.keeps_persisted(kv(keys@[x]))) ==> result is Ok,
{
    proof {
        assert forall|q: int| 0 <= q < keys@.len() implies ctx.def(kv(keys@[q])) is Some by {
            assert(key_listed(keys@, kv(keys@[q])));
        }
    }
    let mut planes: Vec<((String, String), MaskPlane)> = Vec::new();
    let mut outcomes: Vec<MaskLoadOutcome> = Vec::new();
    let mut warnings: Vec<String> = Vec::new();
    let mut unavailable = false;
    let mut corrupt: Vec<bool> = Vec::new();
    let mut i: usize = 0;
    while i < keys.len()
        invariant
            i <= keys@.len(),
            keys_sorted(keys@),
            corrupt@.len() == i,
            forall|x: int| 0 <= x < i ==> (corrupt@[x] <==> sources@[x] && ctx.contradicts(kv(keys@[x]))
                && !reinferred(outcomes@, kv(keys@[x]))),
            sources@.len() == keys@.len(),
            forall|q: int| 0 <= q < keys@.len() ==> ctx.def(kv(keys@[q])) is Some,
            forall|q: int| 0 <= q < keys@.len() ==> (sources@[q] <==> ctx.source_key(kv(keys@[q]))),
            outcome_keys(outcomes@) == filter_keys(keys@, sources@, i as int),
            forall|q: int| 0 <= q < outcomes@.len() ==> ctx.outcome_allowed(#[trigger] outcomes@[q]),
            ctx.planes_match(planes@, outcomes@),
            texts(warnings@) == ctx.warnings_for(outcomes@),
            unavailable == MaskLoadContext::<I>::any_cached(outcomes@),
            ctx.inference is None ==> forall|x: int| 0 <= x < i && sources@[x] ==> ctx.keeps_persisted(kv(keys@[x]))
                || ctx.plane(kv(keys@[x])) is Some,
        decreases keys@.len() - i,
    {
        let ghost before_outcomes = outcomes@;
        let ghost before_planes = planes@;
        let ghost before_warnings = warnings@;
        if sources[i] {
            let key = &keys[i];
            let ghost k = kv(*key);
            let d = definition_at(&ctx.copies, keys, i);
            let found = find_plane(&ctx.loaded_planes, key.0.as_str(), key.1.as_str());
            let contradicts = match found {
                Some(j) => match d.artifact {
                    Some(a) => ctx.loaded_planes[j].1.width != a.width || ctx.loaded_planes[j].1.height != a.height,
                    None => false,
                },
                None => false,
            };
            let confirmed = d.status == MaskStatus::Valid && found.is_some() && d.artifact.is_some() && !contradicts
                && same_text(d.source_hash.as_str(), ctx.source_hash) && decode_context_matches(
                &d.decode_context,
                ctx.decode_context,
            ) && model_identity_matches(&d.model, ctx.model_identity);
            proof {
                assert(contradicts == ctx.contradicts(k));
                assert(confirmed && !ctx.refresh <==> ctx.keeps_persisted(k));
            }
            let keep = confirmed && !ctx.refresh;
            let model_present = if keep {
                false
            } else {
                match ctx.inference {
                    Some(backend) => backend.is_available(),
                    None => false,
                }
            };
            let choice = choose_mask_source(keep, model_present, found.is_some());
            if choice == MaskChoice::KeepPersisted {
                let j = match found {
                    Some(j) => j,
                    None => {
                        proof {
                            assert(false);
                        }
                        0
                    },
                };
                let plane = copy_plane(&ctx.loaded_planes[j].1);
                planes.push(((key.0.clone(), key.1.clone()), plane));
                let o = MaskLoadOutcome {
                    copy_id: key.0.clone(),
                    mask_id: key.1.clone(),
                    from: MaskResolvedFrom::LoadedPersisted,
                };
                proof {
                    assert(outcome_key(o) == k);
                    assert(ctx.outcome_allowed(o));
                }
                outcomes.push(o);
                proof {
                    assert(outcomes@.drop_last() =~= before_outcomes);
                    assert(outcome_keys(outcomes@) =~= outcome_keys(before_outcomes).push(k));
                    assert(filter_keys(keys@, sources@, i + 1) =~= filter_keys(keys@, sources@, i as int).push(k));
                    assert(texts(warnings@) =~= ctx.warnings_for(outcomes@));
                    assert(MaskLoadContext::<I>::any_cached(outcomes@) == MaskLoadContext::<I>::any_cached(before_outcomes)) by {
                        if MaskLoadContext::<I>::any_cached(outcomes@) {
                            let q = choose|q: int| 0 <= q < outcomes@.len() && #[trigger] outcomes@[q].from == MaskResolvedFrom::CachedUnavailable;
                            assert(before_outcomes[q].from == MaskResolvedFrom::CachedUnavailable);
                        }
                        if MaskLoadContext::<I>::any_cached(before_outcomes) {
                            let q = choose|q: int| 0 <= q < before_outcomes.len() && #[trigger] before_outcomes[q].from == MaskResolvedFrom::CachedUnavailable;
                            assert(outcomes@[q].from == MaskResolvedFrom::CachedUnavailable);
                        }
                    }
                }
            } else {
                if choice == MaskChoice::ReInfer {
                    let backend = match ctx.inference {
                        Some(backend) => backend,
                        None => {
                            proof {
                                assert(false);
                            }
                            return Err(CoreError::MaskInference { reason: String::new() });
                        },
                    };
                    match reinference_result(key, backend.infer(frame)) {
                        Ok(plane) => {
                            planes.push(((key.0.clone(), key.1.clone()), plane));
                            let o = MaskLoadOutcome {
                                copy_id: key.0.clone(),
                                mask_id: key.1.clone(),
                                from: MaskResolvedFrom::ReInferred,
                            };
                            proof {
                                assert(outcome_key(o) == k);
                                assert(ctx.outcome_allowed(o));
                            }
                            outcomes.push(o);
                            proof {
                                assert(outcomes@.drop_last() =~= before_outcomes);
                                assert(outcome_keys(outcomes@) =~= outcome_keys(before_outcomes).push(k));
                                assert(filter_keys(keys@, sources@, i + 1) =~= filter_keys(keys@, sources@, i as int).push(k));
                                assert(texts(warnings@) =~= ctx.warnings_for(outcomes@));
                                assert(MaskLoadContext::<I>::any_cached(outcomes@) == MaskLoadContext::<I>::any_cached(before_outcomes)) by {
                                    if MaskLoadContext::<I>::any_cached(outcomes@) {
                                        let q = choose|q: int| 0 <= q < outcomes@.len() && #[trigger] outcomes@[q].from == MaskResolvedFrom::CachedUnavailable;
                                        assert(before_outcomes[q].from == MaskResolvedFrom::CachedUnavailable);
                                    }
                                    if MaskLoadContext::<I>::any_cached(before_outcomes) {
                                        let q = choose|q: int| 0 <= q < before_outcomes.len() && #[trigger] before_outcomes[q].from == MaskResolvedFrom::CachedUnavailable;
                                        assert(outcomes@[q].from == MaskResolvedFrom::CachedUnavailable);
                                    }
                                }
                            }
                        },
                        Err(e) => {
                            return Err(e);
                        },
                    }
                } else {
                    unavailable = true;
                    match found {
                        Some(j) => {
                            if contradicts {
                                let a = match d.artifact {
                                    Some(a) => a,
                                    None => {
                                        proof {
                                            assert(false);
                                        }
                                        ArtifactReference { width: 0, height: 0 }
                                    },
                                };
                                warnings.push(dims_warning_text(key, &ctx.loaded_planes[j].1, &a));
                            }
                            let plane = copy_plane(&ctx.loaded_planes[j].1);
                            planes.push(((key.0.clone(), key.1.clone()), plane));
                            let o = MaskLoadOutcome {
                                copy_id: key.0.clone(),
                                mask_id: key.1.clone(),
                                from: MaskResolvedFrom::CachedUnavailable,
                            };
                            proof {
                                assert(outcome_key(o) == k);
                                assert(ctx.outcome_allowed(o));
                            }
                            outcomes.push(o);
                            warnings.push(cache_warning_text(key, d.status));
                            proof {
                                assert(outcomes@.drop_last() =~= before_outcomes);
                                assert(outcome_keys(outcomes@) =~= outcome_keys(before_outcomes).push(k));
                                assert(filter_keys(keys@, sources@, i + 1) =~= filter_keys(keys@, sources@, i as int).push(k));
                                assert(texts(warnings@) =~= texts(before_warnings) + ctx.outcome_warnings(o));
                                assert(texts(warnings@) =~= ctx.warnings_for(outcomes@));
                                assert(outcomes@[outcomes@.len() - 1].from == MaskResolvedFrom::CachedUnavailable);
                            }
                        },
                        None => {
                            proof {
                                assert(ctx.needs_model_without_cache(k));
                            }
                            return Err(CoreError::MaskUnavailable {
                                copy_id: key.0.clone(),
                                mask_id: key.1.clone(),
                                status: String::from_str("model-unavailable"),
                            });
                        },
                    }
                }
            }
        } else {
            proof {
                assert(filter_keys(keys@, sources@, i + 1) =~= filter_keys(keys@, sources@, i as int));
            }
        }
        let mark = if sources[i] {
            match outcomes.last() {
                Some(o) => {
                    let found = find_plane(&ctx.loaded_planes, keys[i].0.as_str(), keys[i].1.as_str());
                    let d = definition_at(&ctx.copies, keys, i);
                    let contradicts = match found {
                        Some(j) => match d.artifact {
                            Some(a) => ctx.loaded_planes[j].1.width != a.width || ctx.loaded_planes[j].1.height != a.height,
                            None => false,
                        },
                        None => false,
                    };
                    contradicts && o.from != MaskResolvedFrom::ReInferred
                },
                None => false,
            }
        } else {
            false
        };
        proof {
            lemma_filter_keys(keys@, sources@, i as int);
            lemma_filter_keys(keys@, sources@, i + 1);
            let k = kv(keys@[i as int]);
            if sources@[i as int] {
                assert(outcome_keys(outcomes@).len() == outcomes@.len());
                assert(outcomes@.len() > 0);
                let last = outcomes@.len() - 1;
                assert(outcome_key(outcomes@[last]) == outcome_keys(outcomes@)[last]);
                assert(outcome_keys(outcomes@)[last] == k);
                assert forall|q: int| 0 <= q < last implies outcome_key(#[trigger] outcomes@[q]) != k by {
                    assert(outcome_key(outcomes@[q]) == outcome_keys(outcomes@)[q]);
                    assert(selected_key(keys@, sources@, i as int, filter_keys(keys@, sources@, i as int)[q]));
                    let y = choose|y: int| 0 <= y < i && sources@[y] && kv(keys@[y]) == filter_keys(keys@, sources@, i as int)[q];
                    lemma_key_order(kv(keys@[y]), k, k);
                }
                assert(reinferred(outcomes@, k) == (outcomes@[last].from == MaskResolvedFrom::ReInferred));
            } else {
                assert forall|q: int| 0 <= q < outcomes@.len() implies outcome_key(#[trigger] outcomes@[q]) != k by {
                    assert(outcome_key(outcomes@[q]) == outcome_keys(outcomes@)[q]);
                    assert(selected_key(keys@, sources@, i + 1, filter_keys(keys@, sources@, i + 1)[q]));
                    let y = choose|y: int| 0 <= y < i + 1 && sources@[y] && kv(keys@[y]) == filter_keys(keys@, sources@, i + 1)[q];
                    if y < i {
                        lemma_key_order(kv(keys@[y]), k, k);
                    }
                }
            }
            assert forall|x: int| 0 <= x < i implies (reinferred(outcomes@, kv(keys@[x])) == reinferred(before_outcomes, kv(keys@[x]))) by {
                let kx = kv(keys@[x]);
                lemma_key_order(kx, k, k);
                if reinferred(outcomes@, kx) {
                    let q = choose|q: int| 0 <= q < outcomes@.len() && outcome_key(#[trigger] outcomes@[q]) == kx && outcomes@[q].from
                        == MaskResolvedFrom::ReInferred;
                    if q < before_outcomes.len() {
                        assert(before_outcomes[q] == outcomes@[q]);
                    } else {
                        assert(outcome_key(outcomes@[q]) == outcome_keys(outcomes@)[q]);
                    }
                }
                if reinferred(before_outcomes, kx) {
                    let q = choose|q: int| 0 <= q < before_outcomes.len() && outcome_key(#[trigger] before_outcomes[q]) == kx && before_outcomes[q].from
                        == MaskResolvedFrom::ReInferred;
                    assert(outcomes@[q] == before_outcomes[q]);
                }
            }
        }
        corrupt.push(mark);
        i += 1;
    }
    Ok(Decisions { planes, outcomes, warnings, model_unavailable: unavailable, corrupt })
}


/// `d` with its status replaced by `status`.
pub open spec fn with_status(d: MaskDefinition, status: MaskStatus) -> MaskDefinition {
    MaskDefinition { status, ..d }
}

/// The status that the marks of the listed keys give the mask `k`:
/// `Corrupt` when marked corrupt, else `Valid` when reachable and blessed,
/// else unchanged.
pub open spec fn marked_status(
    keys: Seq<(String, String)>,
    reach: Seq<bool>,
    bless: Seq<bool>,
    corrupt: Seq<bool>,
    k: KeyView,
    old: MaskStatus,
) -> MaskStatus {
    if key_listed(keys, k) {
        let i = choose|i: int| 0 <= i < keys.len() && kv(keys[i]) == k;
        if corrupt[i] {
            MaskStatus::Corrupt
        } else if reach[i] && bless[i] {
            MaskStatus::Valid
        } else {
            old
        }
    } else {
        old
    }
}

/// `after` is `before` with every mask's status replaced as `marked_status`
/// says.
pub open spec fn restatused(
    before: Seq<VirtualCopy>,
    after: Seq<VirtualCopy>,
    keys: Seq<(String, String)>,
    reach: Seq<bool>,
    bless: Seq<bool>,
    corrupt: Seq<bool>,
    n: int,
) -> bool {
    &&& forall|c: int| 0 <= c < n ==> #[trigger] after[c].id == before[c].id && after[c].mask_layers == before[c].mask_layers
        && after[c].mask_library@.len() == before[c].mask_library@.len()
    &&& forall|c: int, m: int|
        0 <= c < n && 0 <= m < before[c].mask_library@.len() ==> #[trigger] after[c].mask_library@[m] == with_status(
            before[c].mask_library@[m],
            marked_status(keys, reach, bless, corrupt, entry_key(before, c, m), before[c].mask_library@[m].status),
        )
}

fn status_for(
    keys: &Vec<(String, String)>,
    reach: &Vec<bool>,
    bless: &Vec<bool>,
    corrupt: &Vec<bool>,
    copy_id: &str,
    mask_id: &str,
    old: MaskStatus,
) -> (st: MaskStatus)
    requires
        keys_sorted(keys@),
        reach@.len() == keys@.len(),
        bless@.len() == keys@.len(),
        corrupt@.len() == keys@.len(),
    ensures
        st == marked_status(keys@, reach@, bless@, corrupt@, (copy_id@, mask_id@), old),
{
    match find_key(keys, copy_id, mask_id) {
        Some(i) => {
            proof {
                let k: KeyView = (copy_id@, mask_id@);
                assert(key_listed(keys@, k));
                let c = choose|c: int| 0 <= c < keys@.len() && kv(keys@[c]) == k;
                lemma_sorted_distinct(keys@, i as int, c);
            }
            if corrupt[i] {
                MaskStatus::Corrupt
            } else if reach[i] && bless[i] {
                MaskStatus::Valid
            } else {
                old
            }
        },
        None => old,
    }
}

/// Rewrites the status of every mask of every copy.
fn rewrite_statuses(
    copies: Vec<VirtualCopy>,
    keys: &Vec<(String, String)>,
    reach: &Vec<bool>,
    bless: &Vec<bool>,
    corrupt: &Vec<bool>,
) -> (out: Vec<VirtualCopy>)
    requires
        keys_sorted(keys@),
        reach@.len() == keys@.len(),
        bless@.len() == keys@.len(),
        corrupt@.len() == keys@.len(),
    ensures
        out@.len() == copies@.len(),
        restatused(copies@, out@, keys@, reach@, bless@, corrupt@, copies@.len() as int),
{
    let ghost orig = copies@;
    let mut rest = copies;
    let mut out: Vec<VirtualCopy> = Vec::new();
    while rest.len() > 0
        invariant
            keys_sorted(keys@),
            reach@.len() == keys@.len(),
            bless@.len() == keys@.len(),
            corrupt@.len() == keys@.len(),
            out@.len() + rest@.len() == orig.len(),
            rest@ == orig.subrange(out@.len() as int, orig.len() as int),
            restatused(orig, out@, keys@, reach@, bless@, corrupt@, out@.len() as int),
        decreases rest@.len(),
    {
        let ghost c = out@.len() as int;
        let copy = rest.remove(0);
        proof {
            assert(copy == orig[c]);
            assert(rest@ =~= orig.subrange(c + 1, orig.len() as int));
        }
        let VirtualCopy { id, mask_library, mask_layers } = copy;
        let ghost lib_orig = mask_library@;
        let mut lib_rest = mask_library;
        let mut lib: Vec<MaskDefinition> = Vec::new();
        while lib_rest.len() > 0
            invariant
                keys_sorted(keys@),
                reach@.len() == keys@.len(),
                bless@.len() == keys@.len(),
                corrupt@.len() == keys@.len(),
                lib@.len() + lib_rest@.len() == lib_orig.len(),
                lib_rest@ == lib_orig.subrange(lib@.len() as int, lib_orig.len() as int),
                forall|m: int| 0 <= m < lib@.len() ==> #[trigger] lib@[m] == with_status(
                    lib_orig[m],
                    marked_status(keys@, reach@, bless@, corrupt@, (id@, lib_orig[m].id@), lib_orig[m].status),
                ),
            decreases lib_rest@.len(),
        {
            let ghost m = lib@.len() as int;
            let d = lib_rest.remove(0);
            proof {
                assert(d == lib_orig[m]);
                assert(lib_rest@ =~= lib_orig.subrange(m + 1, lib_orig.len() as int));
            }
            let st = status_for(keys, reach, bless, corrupt, id.as_str(), d.id.as_str(), d.status);
            let MaskDefinition { id: mask_id, status: _, source_hash, decode_context, model, artifact, operation, references, has_prompt } = d;
            lib.push(MaskDefinition {
                id: mask_id,
                status: st,
                source_hash,
                decode_context,
                model,
                artifact,
                operation,
                references,
                has_prompt,
            });
        }
        let rebuilt = VirtualCopy { id, mask_library: lib, mask_layers };
        proof {
            assert(rebuilt.mask_library@.len() == orig[c].mask_library@.len());
            assert forall|m: int| 0 <= m < orig[c].mask_library@.len() implies rebuilt.mask_library@[m] == with_status(
                orig[c].mask_library@[m],
                marked_status(keys@, reach@, bless@, corrupt@, entry_key(orig, c, m), orig[c].mask_library@[m].status),
            ) by {
                assert(entry_key(orig, c, m) == (rebuilt.id@, lib_orig[m].id@));
            }
        }
        let ghost out_before = out@;
        out.push(rebuilt);
        proof {
            assert forall|c2: int, m: int|
                0 <= c2 < out@.len() && 0 <= m < orig[c2].mask_library@.len() implies #[trigger] out@[c2].mask_library@[m] == with_status(
                    orig[c2].mask_library@[m],
                    marked_status(keys@, reach@, bless@, corrupt@, entry_key(orig, c2, m), orig[c2].mask_library@[m].status),
                ) by {
                if c2 < c {
                    assert(out@[c2] == out_before[c2]);
                    assert(out_before[c2].id == orig[c2].id);
                    assert(out_before[c2].mask_library@[m] == with_status(
                        orig[c2].mask_library@[m],
                        marked_status(keys@, reach@, bless@, corrupt@, entry_key(orig, c2, m), orig[c2].mask_library@[m].status),
                    ));
                } else {
                    assert(c2 == c);
                    assert(out@[c2] == rebuilt);
                }
            }
        }
    }
    out
}


impl<'a, I> MaskLoadContext<'a, I> {
    /// The status a mask has after resolution: `Corrupt` for a reachable
    /// source whose plane contradicts its artifact record and which was not
    /// re-inferred, else `Valid` when reachable and blessed, else unchanged.
    pub open spec fn resolved_status(&self, outcomes: Seq<MaskLoadOutcome>, k: KeyView, old: MaskStatus) -> MaskStatus {
        if self.source_key(k) && self.contradicts(k) && !reinferred(outcomes, k) {
            MaskStatus::Corrupt
        } else if reachable(self.copies@, self.active_copy_id@, k) && blessed(self.copies@, self.active_copy_id@, k) {
            MaskStatus::Valid
        } else {
            old
        }
    }

    /// What a successful resolution returns.
    pub open spec fn resolution(&self, r: MaskLoadResult) -> bool {
        &&& forall|a: int, b: int| 0 <= a < b < r.outcomes@.len() ==> key_less(outcome_key(r.outcomes@[a]), outcome_key(r.outcomes@[b]))
        &&& forall|k: KeyView| self.source_key(k) <==> outcome_keys(r.outcomes@).contains(k)
        &&& forall|q: int| 0 <= q < r.outcomes@.len() ==> self.outcome_allowed(#[trigger] r.outcomes@[q])
        &&& self.planes_match(r.planes@, r.outcomes@)
        &&& texts(r.warnings@) == self.warnings_for(r.outcomes@)
        &&& r.model_unavailable == MaskLoadContext::<I>::any_cached(r.outcomes@)
        &&& r.copies@.len() == self.copies@.len()
        &&& forall|c: int| 0 <= c < self.copies@.len() ==> #[trigger] r.copies@[c].id == self.copies@[c].id
            && r.copies@[c].mask_layers == self.copies@[c].mask_layers && r.copies@[c].mask_library@.len()
            == self.copies@[c].mask_library@.len()
        &&& forall|c: int, m: int|
            0 <= c < self.copies@.len() && 0 <= m < self.copies@[c].mask_library@.len() ==> #[trigger] r.copies@[c].mask_library@[m]
                == with_status(
                self.copies@[c].mask_library@[m],
                self.resolved_status(r.outcomes@, entry_key(self.copies@, c, m), self.copies@[c].mask_library@[m].status),
            )
    }

    /// The errors a resolution may fail with.
    pub open spec fn resolution_error(&self, e: CoreError) -> bool {
        match e {
            CoreError::MaskUnavailable { copy_id, mask_id, status } => {
                &&& status@ == "model-unavailable"@
                &&& self.needs_model_without_cache((copy_id@, mask_id@))
                &&& self.inference is None ==> forall|k: KeyView|
                    self.source_key(k) && key_less(k, (copy_id@, mask_id@)) ==> self.keeps_persisted(k) || self.plane(k) is Some
            },
            CoreError::MaskInference { reason } => {
                &&& self.inference is Some
                &&& exists|k: KeyView, e2: CoreError| self.source_key(k) && !self.keeps_persisted(k)
                    && reason@ == inference_failure_prefix(k) + core_error_text(e2)
            },
            _ => false,
        }
    }
}

proof fn lemma_reachable_has_def(copies: Seq<VirtualCopy>, active: Seq<char>, k: KeyView)
    requires
        reachable(copies, active, k),
    ensures
        def_of(copies, k) is Some,
{
    let s = Set::new(|x: KeyView| def_of(copies, x) is Some);
    assert(reach_closed_set(copies, active, s));
    assert(s.contains(k));
}

/// Runs the decision layer: for every source mask reachable from the active
/// copy, in key order, a confirmably valid persisted plane is used unless a
/// refresh is requested; otherwise the matte is re-inferred when the model
/// is available, or else a cached plane is served with a warning; with
/// neither a model nor a cached plane the layer fails. Derived masks whose
/// references all resolve are then marked `Valid`, and planes that
/// contradict their artifact record and were not re-inferred are marked
/// `Corrupt`.
pub fn resolve_mask_planes<I: MaskInference>(ctx: MaskLoadContext<'_, I>, frame: &ImageFrame) -> (result: Result<
    MaskLoadResult,
    CoreError,
>)
    ensures
        match result {
            Ok(r) => ctx.resolution(r),
            Err(e) => ctx.resolution_error(e),
        },
        ctx.inference is None ==> (result is Ok <==> forall|k: KeyView| ctx.source_key(k) ==> ctx.keeps_persisted(k)
            || ctx.plane(k) is Some),
        (forall|k: KeyView| ctx.source_key(k) ==> ctx.keeps_persisted(k)) ==> result is Ok,
{
    let ghost copies0 = ctx.copies@;
    let ghost active = ctx.active_copy_id@;
    let keys = collect_keys(&ctx.copies);
    let reach = mark_reachable(&ctx.copies, ctx.active_copy_id, &keys);
    proof {
        assert forall|q: int| 0 <= q < keys@.len() implies def_of(copies0, kv(keys@[q])) is Some by {
            assert(key_listed(keys@, kv(keys@[q])));
        }
    }
    let mut sources: Vec<bool> = Vec::new();
    while sources.len() < keys.len()
        invariant
            sources@.len() <= keys@.len(),
            reach@.len() == keys@.len(),
            copies0 == ctx.copies@,
            active == ctx.active_copy_id@,
            forall|q: int| 0 <= q < keys@.len() ==> def_of(copies0, kv(keys@[q])) is Some,
            forall|q: int| 0 <= q < keys@.len() ==> (reach@[q] <==> reachable(copies0, active, kv(keys@[q]))),
            forall|q: int| 0 <= q < sources@.len() ==> (sources@[q] <==> ctx.source_key(kv(keys@[q]))),
        decreases keys@.len() - sources@.len(),
    {
        let i = sources.len();
        let d = definition_at(&ctx.copies, &keys, i);
        sources.push(reach[i] && d.operation == MaskOperation::Source);
    }
    let decisions = match decide_sources(&ctx, frame, &keys, &sources) {
        Ok(decisions) => decisions,
        Err(e) => {
            let ghost eg = e;
            proof {
                match eg {
                    CoreError::MaskUnavailable { copy_id, mask_id, status } => {
                        let x = choose|x: int| 0 <= x < keys@.len() && sources@[x] && kv(keys@[x]) == (copy_id@, mask_id@)
                            && ctx.needs_model_without_cache(kv(keys@[x])) && (ctx.inference is None ==> forall|y: int|
                            0 <= y < x && sources@[y] ==> ctx.keeps_persisted(kv(keys@[y])) || ctx.plane(kv(keys@[y])) is Some);
                        if ctx.inference is None {
                            assert forall|k: KeyView| ctx.source_key(k) && key_less(k, (copy_id@, mask_id@)) implies ctx.keeps_persisted(k)
                                || ctx.plane(k) is Some by {
                                lemma_reachable_has_def(copies0, active, k);
                                assert(key_listed(keys@, k));
                                let y = choose|y: int| 0 <= y < keys@.len() && kv(keys@[y]) == k;
                                if y >= x {
                                    if y == x {
                                        lemma_key_order(k, k, k);
                                    } else {
                                        lemma_key_order(kv(keys@[x]), k, k);
                                    }
                                }
                                assert(sources@[y]);
                                assert(ctx.keeps_persisted(kv(keys@[y])) || ctx.plane(kv(keys@[y])) is Some);
                            }
                        }
                    },
                    CoreError::MaskInference { reason } => {
                        let (x, e2) = choose|x: int, e2: CoreError| 0 <= x < keys@.len() && sources@[x] && !ctx.keeps_persisted(kv(keys@[x]))
                            && reason@ == inference_failure_prefix(kv(keys@[x])) + core_error_text(e2);
                        assert(ctx.source_key(kv(keys@[x])));
                    },
                    _ => {},
                }
            }
            return Err(e);
        },
    };
    let bless = mark_blessed(&ctx.copies, ctx.active_copy_id, &keys, &reach);
    proof {
        let n = keys@.len() as int;
        lemma_filter_keys(keys@, sources@, n);
        let f = filter_keys(keys@, sources@, n);
        let ok = outcome_keys(decisions.outcomes@);
        assert(ok == f);
        assert forall|a: int, b: int| 0 <= a < b < decisions.outcomes@.len() implies key_less(
            outcome_key(decisions.outcomes@[a]),
            outcome_key(decisions.outcomes@[b]),
        ) by {
            assert(outcome_key(decisions.outcomes@[a]) == f[a]);
            assert(outcome_key(decisions.outcomes@[b]) == f[b]);
        }
        assert forall|k: KeyView| ctx.source_key(k) <==> ok.contains(k) by {
            if ctx.source_key(k) {
                lemma_reachable_has_def(copies0, active, k);
                assert(key_listed(keys@, k));
                let x = choose|x: int| 0 <= x < keys@.len() && kv(keys@[x]) == k;
                assert(f.contains(kv(keys@[x])));
            }
            if ok.contains(k) {
                let q = choose|q: int| 0 <= q < ok.len() && ok[q] == k;
                assert(selected_key(keys@, sources@, n, f[q]));
            }
        }
        if ctx.inference is None {
            assert forall|k: KeyView| ctx.source_key(k) implies ctx.keeps_persisted(k) || ctx.plane(k) is Some by {
                lemma_reachable_has_def(copies0, active, k);
                assert(key_listed(keys@, k));
                let x = choose|x: int| 0 <= x < keys@.len() && kv(keys@[x]) == k;
                assert(sources@[x]);
                assert(ctx.keeps_persisted(kv(keys@[x])) || ctx.plane(kv(keys@[x])) is Some);
            }
        }
    }
    let Decisions { planes, outcomes, warnings, model_unavailable, corrupt } = decisions;
    let copies = rewrite_statuses(ctx.copies, &keys, &reach, &bless, &corrupt);
    proof {
        assert forall|c: int, m: int|
            0 <= c < copies0.len() && 0 <= m < copies0[c].mask_library@.len() implies marked_status(
                keys@,
                reach@,
                bless@,
                corrupt@,
                entry_key(copies0, c, m),
                copies0[c].mask_library@[m].status,
            ) == ctx.resolved_status(outcomes@, entry_key(copies0, c, m), copies0[c].mask_library@[m].status) by {
            let k = entry_key(copies0, c, m);
            if key_listed(keys@, k) {
                let i = choose|i: int| 0 <= i < keys@.len() && kv(keys@[i]) == k;
                assert(sources@[i] == ctx.source_key(k));
                assert(corrupt@[i] == (sources@[i] && ctx.contradicts(k) && !reinferred(outcomes@, k)));
                assert(reach@[i] == reachable(copies0, active, k));
                assert(bless@[i] == blessed(copies0, active, k));
            } else {
                if reachable(copies0, active, k) {
                    lemma_reachable_has_def(copies0, active, k);
                }
            }
        }
    }
    Ok(MaskLoadResult { planes, copies, warnings, model_unavailable, outcomes })
}


/// A refresh never serves a persisted plane as confirmably valid: every
/// resolved mask is re-inferred or, without a model, served from cache.
pub proof fn lemma_refresh_never_loads_persisted<I>(ctx: MaskLoadContext<'_, I>, r: MaskLoadResult)
    requires
        ctx.refresh,
        ctx.resolution(r),
    ensures
        forall|q: int| 0 <= q < r.outcomes@.len() ==> #[trigger] r.outcomes@[q].from != MaskResolvedFrom::LoadedPersisted,
{
    assert forall|q: int| 0 <= q < r.outcomes@.len() implies #[trigger] r.outcomes@[q].from != MaskResolvedFrom::LoadedPersisted by {
        assert(ctx.outcome_allowed(r.outcomes@[q]));
    }
}

/// A plane whose dimensions contradict its own artifact record is never
/// served as confirmably valid; when it is served from cache, every entry of
/// that mask in the returned copies is marked `Corrupt`.
pub proof fn lemma_contradicting_plane_is_never_confirmed<I>(ctx: MaskLoadContext<'_, I>, r: MaskLoadResult)
    requires
        ctx.resolution(r),
    ensures
        forall|q: int|
            0 <= q < r.outcomes@.len() && ctx.contradicts(outcome_key(#[trigger] r.outcomes@[q])) ==> r.outcomes@[q].from
                != MaskResolvedFrom::LoadedPersisted,
        forall|c: int, m: int|
            0 <= c < ctx.copies@.len() && 0 <= m < ctx.copies@[c].mask_library@.len() && ctx.source_key(entry_key(ctx.copies@, c, m))
                && ctx.contradicts(entry_key(ctx.copies@, c, m)) && !reinferred(r.outcomes@, entry_key(ctx.copies@, c, m))
                ==> #[trigger] r.copies@[c].mask_library@[m].status == MaskStatus::Corrupt,
{
    assert forall|q: int|
        0 <= q < r.outcomes@.len() && ctx.contradicts(outcome_key(#[trigger] r.outcomes@[q])) implies r.outcomes@[q].from
            != MaskResolvedFrom::LoadedPersisted by {
        assert(ctx.outcome_allowed(r.outcomes@[q]));
    }
    assert forall|c: int, m: int|
        0 <= c < ctx.copies@.len() && 0 <= m < ctx.copies@[c].mask_library@.len() && ctx.source_key(entry_key(ctx.copies@, c, m))
            && ctx.contradicts(entry_key(ctx.copies@, c, m)) && !reinferred(r.outcomes@, entry_key(ctx.copies@, c, m))
            implies #[trigger] r.copies@[c].mask_library@[m].status == MaskStatus::Corrupt by {
        assert(r.copies@[c].mask_library@[m] == with_status(
            ctx.copies@[c].mask_library@[m],
            ctx.resolved_status(r.outcomes@, entry_key(ctx.copies@, c, m), ctx.copies@[c].mask_library@[m].status),
        ));
    }
}

/// Without a re-inference backend every resolved mask is either a
/// confirmably valid persisted plane or a cached one, and the model is
/// reported unavailable exactly when some mask had to fall back to cache.
pub proof fn lemma_without_backend_masks_are_persisted_or_cached<I>(ctx: MaskLoadContext<'_, I>, r: MaskLoadResult)
    requires
        ctx.inference is None,
        ctx.resolution(r),
    ensures
        forall|q: int| 0 <= q < r.outcomes@.len() ==> #[trigger] r.outcomes@[q].from == (if ctx.keeps_persisted(
            outcome_key(r.outcomes@[q]),
        ) {
            MaskResolvedFrom::LoadedPersisted
        } else {
            MaskResolvedFrom::CachedUnavailable
        }),
        r.model_unavailable <==> exists|q: int| 0 <= q < r.outcomes@.len() && !ctx.keeps_persisted(outcome_key(#[trigger] r.outcomes@[q])),
{
    assert forall|q: int| 0 <= q < r.outcomes@.len() implies #[trigger] r.outcomes@[q].from == (if ctx.keeps_persisted(
        outcome_key(r.outcomes@[q]),
    ) {
        MaskResolvedFrom::LoadedPersisted
    } else {
        MaskResolvedFrom::CachedUnavailable
    }) by {
        assert(ctx.outcome_allowed(r.outcomes@[q]));
    }
    if r.model_unavailable {
        let q = choose|q: int| 0 <= q < r.outcomes@.len() && #[trigger] r.outcomes@[q].from == MaskResolvedFrom::CachedUnavailable;
        assert(ctx.outcome_allowed(r.outcomes@[q]));
    }
    if exists|q: int| 0 <= q < r.outcomes@.len() && !ctx.keeps_persisted(outcome_key(#[trigger] r.outcomes@[q])) {
        let q = choose|q: int| 0 <= q < r.outcomes@.len() && !ctx.keeps_persisted(outcome_key(#[trigger] r.outcomes@[q]));
        assert(ctx.outcome_allowed(r.outcomes@[q]));
        assert(r.outcomes@[q].from == MaskResolvedFrom::CachedUnavailable);
    }
}

} // verus!
