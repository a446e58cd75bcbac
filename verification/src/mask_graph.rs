//! Evaluation of the mask DAG: source planes, inversion, union,
//! intersection and subtraction of referenced masks, with cycle detection
//! and memoization of every subtree within one evaluation.
use crate::generative::{count_false, lemma_count_false_set};
use crate::mask_loader::{
    copy_plane, entry_key, find_key, find_plane, insert_key, key_listed, keys_sorted, kv, lemma_sorted_distinct,
    loaded_plane, ref_key, KeyView, MaskDefinition, MaskOperation, MaskReference, VirtualCopy,
};
use crate::masks::{MaskError, MaskPlane};
use vstd::prelude::*;

verus! {

/// Some mask of some copy has the key `k`.
pub open spec fn has_entry(copies: Seq<VirtualCopy>, k: KeyView) -> bool {
    exists|c: int, m: int| 0 <= c < copies.len() && 0 <= m < copies[c].mask_library@.len() && entry_key(copies, c, m) == k
}

/// `(c, m)` comes after `(c2, m2)` in copy order, then library order.
pub open spec fn entry_after(c: int, m: int, c2: int, m2: int) -> bool {
    c > c2 || (c == c2 && m > m2)
}

/// `(c, m)` is the last mask with the key `k`: a keyed lookup table filled
/// in copy order keeps the last definition of a key.
pub open spec fn last_entry(copies: Seq<VirtualCopy>, k: KeyView, c: int, m: int) -> bool {
    &&& 0 <= c < copies.len()
    &&& 0 <= m < copies[c].mask_library@.len()
    &&& entry_key(copies, c, m) == k
    &&& forall|c2: int, m2: int|
        0 <= c2 < copies.len() && 0 <= m2 < copies[c2].mask_library@.len() && entry_after(c2, m2, c, m) ==> entry_key(
            copies,
            c2,
            m2,
        ) != k
}

/// The location of the last mask with the key `k`.
fn last_slot(copies: &[VirtualCopy], key: &(String, String)) -> (slot: (usize, usize))
    requires
        has_entry(copies@, kv(*key)),
    ensures
        last_entry(copies@, kv(*key), slot.0 as int, slot.1 as int),
{
    let ghost k = kv(*key);
    let mut best: Option<(usize, usize)> = None;
    let mut c: usize = 0;
    while c < copies.len()
        invariant
            c <= copies@.len(),
            k == kv(*key),
            match best {
                Some(b) => b.0 < c && b.1 < copies@[b.0 as int].mask_library@.len() && entry_key(copies@, b.0 as int, b.1 as int) == k
                    && forall|c2: int, m2: int|
                    0 <= c2 < c && 0 <= m2 < copies@[c2].mask_library@.len() && entry_after(c2, m2, b.0 as int, b.1 as int)
                        ==> entry_key(copies@, c2, m2) != k,
                None => forall|c2: int, m2: int|
                    0 <= c2 < c && 0 <= m2 < copies@[c2].mask_library@.len() ==> entry_key(copies@, c2, m2) != k,
            },
        decreases copies@.len() - c,
    {
        let mut m: usize = 0;
        while m < copies[c].mask_library.len()
            invariant
                c < copies@.len(),
                m <= copies@[c as int].mask_library@.len(),
                k == kv(*key),
                match best {
                    Some(b) => (b.0 < c || (b.0 == c && b.1 < m)) && b.1 < copies@[b.0 as int].mask_library@.len()
                        && entry_key(copies@, b.0 as int, b.1 as int) == k && forall|c2: int, m2: int|
                        0 <= c2 < copies@.len() && 0 <= m2 < copies@[c2].mask_library@.len() && (c2 < c || (c2 == c && m2 < m))
                            && entry_after(c2, m2, b.0 as int, b.1 as int) ==> entry_key(copies@, c2, m2) != k,
                    None => forall|c2: int, m2: int|
                        0 <= c2 < copies@.len() && 0 <= m2 < copies@[c2].mask_library@.len() && (c2 < c || (c2 == c && m2 < m))
                            ==> entry_key(copies@, c2, m2) != k,
                },
            decreases copies@[c as int].mask_library@.len() - m,
        {
            if crate::mask_loader::same_text(copies[c].id.as_str(), key.0.as_str()) && crate::mask_loader::same_text(
                copies[c].mask_library[m].id.as_str(),
                key.1.as_str(),
            ) {
                best = Some((c, m));
            }
            m += 1;
        }
        c += 1;
    }
    match best {
        Some(b) => b,
        None => {
            proof {
                let (c2, m2) = choose|c2: int, m2: int| 0 <= c2 < copies@.len() && 0 <= m2 < copies@[c2].mask_library@.len()
                    && entry_key(copies@, c2, m2) == k;
            }
            (0, 0)
        },
    }
}

/// Every mask key of `copies`, in key order.
fn collect_entry_keys(copies: &[VirtualCopy]) -> (keys: Vec<(String, String)>)
    ensures
        keys_sorted(keys@),
        forall|k: KeyView| key_listed(keys@, k) <==> has_entry(copies@, k),
{
    let mut keys: Vec<(String, String)> = Vec::new();
    let mut c: usize = 0;
    while c < copies.len()
        invariant
            c <= copies@.len(),
            keys_sorted(keys@),
            forall|k: KeyView| key_listed(keys@, k) ==> has_entry(copies@, k),
            forall|c2: int, m2: int| 0 <= c2 < c && 0 <= m2 < copies@[c2].mask_library@.len() ==> key_listed(keys@, entry_key(copies@, c2, m2)),
        decreases copies@.len() - c,
    {
        let mut m: usize = 0;
        while m < copies[c].mask_library.len()
            invariant
                c < copies@.len(),
                m <= copies@[c as int].mask_library@.len(),
                keys_sorted(keys@),
                forall|k: KeyView| key_listed(keys@, k) ==> has_entry(copies@, k),
                forall|c2: int, m2: int| 0 <= c2 < c && 0 <= m2 < copies@[c2].mask_library@.len() ==> key_listed(keys@, entry_key(copies@, c2, m2)),
                forall|m2: int| 0 <= m2 < m ==> key_listed(keys@, entry_key(copies@, c as int, m2)),
            decreases copies@[c as int].mask_library@.len() - m,
        {
            let key = (copies[c].id.clone(), copies[c].mask_library[m].id.clone());
            proof {
                assert(kv(key) == entry_key(copies@, c as int, m as int));
            }
            insert_key(&mut keys, key);
            m += 1;
        }
        c += 1;
    }
    proof {
        assert forall|k: KeyView| has_entry(copies@, k) implies key_listed(keys@, k) by {
            let (c2, m2) = choose|c2: int, m2: int| 0 <= c2 < copies@.len() && 0 <= m2 < copies@[c2].mask_library@.len()
                && entry_key(copies@, c2, m2) == k;
        }
    }
    keys
}


/// The mask DAG of a set of copies, with the loaded source planes and the
/// rasters of prompt sources.
pub struct MaskGraph<'a> {
    copies: &'a [VirtualCopy],
    /// Every mask key, in key order.
    keys: Vec<(String, String)>,
    /// Location of the definition of each key (its last occurrence).
    slots: Vec<(usize, usize)>,
    sources: Vec<((String, String), MaskPlane)>,
    prompt_rasters: Vec<((String, String), Result<MaskPlane, MaskError>)>,
    evaluated_node_count: usize,
}

/// The samples of a plane: width, height and values.
pub type PlaneV = (u32, u32, Seq<u16>);

/// What an evaluation step yields: the plane or error, the memo table and
/// the number of node bodies executed so far.
pub type EvalV = (Result<PlaneV, MaskError>, Seq<Option<PlaneV>>, usize);

/// The samples of `p`.
pub open spec fn pv(p: MaskPlane) -> PlaneV {
    (p.width, p.height, p.values@)
}

/// The samples of a memo table.
pub open spec fn memo_view(memo: Seq<Option<MaskPlane>>) -> Seq<Option<PlaneV>> {
    memo.map_values(
        |o: Option<MaskPlane>|
            match o {
                Some(p) => Some(pv(p)),
                None => None,
            },
    )
}

/// `p` with every sample inverted.
pub open spec fn inverted(p: PlaneV) -> PlaneV {
    (p.0, p.1, Seq::new(p.2.len(), |j: int| (u16::MAX - p.2[j]) as u16))
}

/// Rounded `a * (1 - b)` in `u16` fixed point: `(a (65535 - b) + 32767) / 65535`.
pub open spec fn subtract_value(a: u16, b: u16) -> u16 {
    ((a * (65535 - b) + 32767) / 65535) as u16
}

/// One sample of the combination of two planes.
pub open spec fn combine_value(op: MaskOperation, a: u16, b: u16) -> u16 {
    match op {
        MaskOperation::Union => if a >= b {
            a
        } else {
            b
        },
        MaskOperation::Intersect => if a <= b {
            a
        } else {
            b
        },
        _ => subtract_value(a, b),
    }
}

/// `a` combined sample by sample with `b` where `b` has a sample; the rest
/// of `a` is kept.
pub open spec fn combined(op: MaskOperation, a: PlaneV, b: PlaneV) -> PlaneV {
    (a.0, a.1, Seq::new(a.2.len(), |j: int| if j < b.2.len() { combine_value(op, a.2[j], b.2[j]) } else { a.2[j] }))
}

/// `i` is the first raster entry with the key `k`.
pub open spec fn first_raster(rasters: Seq<((String, String), Result<MaskPlane, MaskError>)>, k: KeyView, i: int) -> bool {
    0 <= i < rasters.len() && kv(rasters[i].0) == k && forall|j: int| 0 <= j < i ==> kv(rasters[j].0) != k
}

/// The raster supplied for the prompt source `k`: the first entry with that
/// key.
pub open spec fn raster_of(rasters: Seq<((String, String), Result<MaskPlane, MaskError>)>, k: KeyView) -> Option<
    Result<MaskPlane, MaskError>,
> {
    if exists|i: int| first_raster(rasters, k, i) {
        Some(rasters[choose|i: int| first_raster(rasters, k, i)].1)
    } else {
        None
    }
}

/// Two errors agree, their texts compared by content.
pub open spec fn same_error(a: MaskError, b: MaskError) -> bool {
    match a {
        MaskError::InvalidPlane { width, height, length } => b == MaskError::InvalidPlane { width, height, length },
        MaskError::MissingSourcePayload { copy_id, mask_id } => match b {
            MaskError::MissingSourcePayload { copy_id: c, mask_id: m } => copy_id@ == c@ && mask_id@ == m@,
            _ => false,
        },
        MaskError::MissingMask { copy_id, mask_id } => match b {
            MaskError::MissingMask { copy_id: c, mask_id: m } => copy_id@ == c@ && mask_id@ == m@,
            _ => false,
        },
        MaskError::Cycle { copy_id, mask_id } => match b {
            MaskError::Cycle { copy_id: c, mask_id: m } => copy_id@ == c@ && mask_id@ == m@,
            _ => false,
        },
        MaskError::InvalidArity { copy_id, mask_id, actual } => match b {
            MaskError::InvalidArity { copy_id: c, mask_id: m, actual: n } => copy_id@ == c@ && mask_id@ == m@ && actual == n,
            _ => false,
        },
        MaskError::DimensionMismatch { expected_width, expected_height, actual_width, actual_height } => b
            == MaskError::DimensionMismatch { expected_width, expected_height, actual_width, actual_height },
        MaskError::MemoryBudgetExceeded { required, limit } => b == MaskError::MemoryBudgetExceeded { required, limit },
        MaskError::InvalidDensity { value } => match b {
            MaskError::InvalidDensity { value: v } => value@ == v@,
            _ => false,
        },
    }
}

/// An executed result agrees with an evaluated one.
pub open spec fn result_matches(r: Result<MaskPlane, MaskError>, v: Result<PlaneV, MaskError>) -> bool {
    match r {
        Ok(p) => v == Ok::<PlaneV, MaskError>(pv(p)),
        Err(e) => match v {
            Err(e2) => same_error(e, e2),
            Ok(_) => false,
        },
    }
}

impl<'a> MaskGraph<'a> {
    /// The copies the graph was built from.
    pub closed spec fn spec_copies(&self) -> Seq<VirtualCopy> {
        self.copies@
    }

    /// Every mask key, in key order.
    pub closed spec fn spec_keys(&self) -> Seq<(String, String)> {
        self.keys@
    }

    /// The loaded source planes.
    pub closed spec fn spec_sources(&self) -> Seq<((String, String), MaskPlane)> {
        self.sources@
    }

    /// The rasters of prompt sources.
    pub closed spec fn spec_rasters(&self) -> Seq<((String, String), Result<MaskPlane, MaskError>)> {
        self.prompt_rasters@
    }

    /// How many node bodies the last evaluation executed.
    pub closed spec fn spec_count(&self) -> usize {
        self.evaluated_node_count
    }

    /// The definition of the key at index `i`: the last mask with that key.
    pub closed spec fn node(&self, i: int) -> MaskDefinition {
        self.copies@[self.slots@[i].0 as int].mask_library@[self.slots@[i].1 as int]
    }

    /// What an evaluation reads of this graph.
    pub closed spec fn graph_view(&self) -> GraphView {
        (self.keys@, Seq::new(self.keys@.len(), |i: int| self.node(i)), self.sources@, self.prompt_rasters@)
    }

    /// The keys are sorted and every key's definition is its last mask.
    pub closed spec fn wf(&self) -> bool {
        &&& keys_sorted(self.keys@)
        &&& forall|k: KeyView| key_listed(self.keys@, k) <==> has_entry(self.copies@, k)
        &&& self.slots@.len() == self.keys@.len()
        &&& forall|i: int|
            0 <= i < self.keys@.len() ==> last_entry(self.copies@, kv(self.keys@[i]), self.slots@[i].0 as int, self.slots@[i].1 as int)
    }

}

/// What an evaluation reads of a graph: every mask key in key order, the
/// definition of each key, the loaded source planes and the prompt rasters.
pub type GraphView = (
    Seq<(String, String)>,
    Seq<MaskDefinition>,
    Seq<((String, String), MaskPlane)>,
    Seq<((String, String), Result<MaskPlane, MaskError>)>,
);

/// Index of the key `r` names, or -1 when no mask has that key.
pub open spec fn ref_index(g: GraphView, r: MaskReference) -> int {
    if key_listed(g.0, ref_key(r)) {
        choose|i: int| 0 <= i < g.0.len() && kv(g.0[i]) == ref_key(r)
    } else {
        -1
    }
}

/// Evaluates the mask `r` names, given the keys on the evaluation stack,
/// the memo table and the number of node bodies executed so far: a
/// memoized key returns its plane; otherwise the count grows by one and
/// an undefined key or a key on the stack fails; else the definition is
/// evaluated with the key on the stack and a successful plane memoized.
pub open spec fn eval_node(g: GraphView, r: MaskReference, stack: Seq<bool>, memo: Seq<Option<PlaneV>>, count: usize) -> EvalV
    decreases count_false(stack), 1nat, 0nat,
{
    let i = ref_index(g, r);
    if 0 <= i < memo.len() && memo[i] is Some {
        (Ok(memo[i].unwrap()), memo, count)
    } else if i < 0 || i >= stack.len() {
        (Err(MaskError::MissingMask { copy_id: r.copy_id, mask_id: r.mask_id }), memo, count.wrapping_add(1))
    } else if stack[i] {
        (Err(MaskError::Cycle { copy_id: r.copy_id, mask_id: r.mask_id }), memo, count.wrapping_add(1))
    } else {
        let inner = stack.update(i, true);
        proof {
            lemma_count_false_set(stack, i);
        }
        let out = eval_body(g, i, inner, memo, count.wrapping_add(1));
        match out.0 {
            Ok(p) => (Ok(p), out.1.update(i, Some(p)), out.2),
            Err(e) => (Err(e), out.1, out.2),
        }
    }
}

/// The arity of a definition fits its operation: none for a source, one
/// for an inversion, two for a subtraction, at least two otherwise.
pub open spec fn arity_ok(d: MaskDefinition) -> bool {
    let n = d.references@.len();
    match d.operation {
        MaskOperation::Source => n == 0,
        MaskOperation::Invert => n == 1,
        MaskOperation::Subtract => n == 2,
        _ => n >= 2,
    }
}

/// The arity error of the key at index `i`.
pub open spec fn arity_error(g: GraphView, i: int) -> MaskError {
    MaskError::InvalidArity { copy_id: g.0[i].0, mask_id: g.0[i].1, actual: g.1[i].references@.len() as usize }
}

/// The plane of the source at index `i`: its loaded plane, else the raster
/// of its prompt, else no payload.
pub open spec fn source_value(g: GraphView, i: int) -> Result<PlaneV, MaskError> {
    let k = kv(g.0[i]);
    match loaded_plane(g.2, k) {
        Some(p) => Ok(pv(p)),
        None => {
            let missing = MaskError::MissingSourcePayload { copy_id: g.0[i].0, mask_id: g.0[i].1 };
            if g.1[i].has_prompt {
                match raster_of(g.3, k) {
                    Some(Ok(p)) => Ok(pv(p)),
                    Some(Err(e)) => Err(e),
                    None => Err(missing),
                }
            } else {
                Err(missing)
            }
        },
    }
}

/// Evaluates the definition of the key at index `i`.
pub open spec fn eval_body(g: GraphView, i: int, stack: Seq<bool>, memo: Seq<Option<PlaneV>>, count: usize) -> EvalV
    decreases count_false(stack), 3nat, 0nat,
{
    let d = g.1[i];
    if !arity_ok(d) {
        (Err(arity_error(g, i)), memo, count)
    } else {
        match d.operation {
            MaskOperation::Source => (source_value(g, i), memo, count),
            MaskOperation::Invert => {
                let out = eval_node(g, d.references@[0], stack, memo, count);
                match out.0 {
                    Ok(p) => (Ok(inverted(p)), out.1, out.2),
                    Err(e) => (Err(e), out.1, out.2),
                }
            },
            _ => {
                let out = eval_node(g, d.references@[0], stack, memo, count);
                match out.0 {
                    Ok(p) => eval_fold(g, d.operation, d.references@, 1, p, stack, out.1, out.2),
                    Err(e) => (Err(e), out.1, out.2),
                }
            },
        }
    }
}

/// Folds the references from index `j` on into `acc`, failing on the
/// first error or dimension mismatch.
pub open spec fn eval_fold(
    g: GraphView,
    op: MaskOperation,
    refs: Seq<MaskReference>,
    j: int,
    acc: PlaneV,
    stack: Seq<bool>,
    memo: Seq<Option<PlaneV>>,
    count: usize,
) -> EvalV
    decreases count_false(stack), 2nat, refs.len() - j,
{
    if j < 0 || j >= refs.len() {
        (Ok(acc), memo, count)
    } else {
        let out = eval_node(g, refs[j], stack, memo, count);
        match out.0 {
            Err(e) => (Err(e), out.1, out.2),
            Ok(p) => if acc.0 != p.0 || acc.1 != p.1 {
                (
                    Err(MaskError::DimensionMismatch {
                        expected_width: acc.0,
                        expected_height: acc.1,
                        actual_width: p.0,
                        actual_height: p.1,
                    }),
                    out.1,
                    out.2,
                )
            } else {
                eval_fold(g, op, refs, j + 1, combined(op, acc, p), stack, out.1, out.2)
            },
        }
    }
}

/// Index of the first raster with the key `(copy_id, mask_id)`.
fn find_raster(rasters: &Vec<((String, String), Result<MaskPlane, MaskError>)>, copy_id: &str, mask_id: &str) -> (found: Option<usize>)
    ensures
        match found {
            Some(j) => j < rasters@.len() && raster_of(rasters@, (copy_id@, mask_id@)) == Some(rasters@[j as int].1),
            None => raster_of(rasters@, (copy_id@, mask_id@)) is None,
        },
{
    let ghost k: KeyView = (copy_id@, mask_id@);
    let mut j: usize = 0;
    while j < rasters.len()
        invariant
            j <= rasters@.len(),
            k == (copy_id@, mask_id@),
            forall|q: int| 0 <= q < j ==> kv(rasters@[q].0) != k,
        decreases rasters@.len() - j,
    {
        if crate::mask_loader::same_text(rasters[j].0.0.as_str(), copy_id) && crate::mask_loader::same_text(
            rasters[j].0.1.as_str(),
            mask_id,
        ) {
            proof {
                assert(first_raster(rasters@, k, j as int));
                let c = choose|i: int| first_raster(rasters@, k, i);
                if c < j {
                    assert(kv(rasters@[c].0) != k);
                } else if j < c {
                    assert(kv(rasters@[j as int].0) != k);
                }
            }
            return Some(j);
        }
        j += 1;
    }
    proof {
        if exists|i: int| first_raster(rasters@, k, i) {
            let c = choose|i: int| first_raster(rasters@, k, i);
            assert(kv(rasters@[c].0) != k);
        }
    }
    None
}

/// A copy of an error.
fn copy_error(e: &MaskError) -> (c: MaskError)
    ensures
        same_error(c, *e),
{
    match e {
        MaskError::InvalidPlane { width, height, length } => MaskError::InvalidPlane {
            width: *width,
            height: *height,
            length: *length,
        },
        MaskError::MissingSourcePayload { copy_id, mask_id } => MaskError::MissingSourcePayload {
            copy_id: copy_id.clone(),
            mask_id: mask_id.clone(),
        },
        MaskError::MissingMask { copy_id, mask_id } => MaskError::MissingMask {
            copy_id: copy_id.clone(),
            mask_id: mask_id.clone(),
        },
        MaskError::Cycle { copy_id, mask_id } => MaskError::Cycle { copy_id: copy_id.clone(), mask_id: mask_id.clone() },
        MaskError::InvalidArity { copy_id, mask_id, actual } => MaskError::InvalidArity {
            copy_id: copy_id.clone(),
            mask_id: mask_id.clone(),
            actual: *actual,
        },
        MaskError::DimensionMismatch { expected_width, expected_height, actual_width, actual_height } => {
            MaskError::DimensionMismatch {
                expected_width: *expected_width,
                expected_height: *expected_height,
                actual_width: *actual_width,
                actual_height: *actual_height,
            }
        },
        MaskError::MemoryBudgetExceeded { required, limit } => MaskError::MemoryBudgetExceeded {
            required: *required,
            limit: *limit,
        },
        MaskError::InvalidDensity { value } => MaskError::InvalidDensity { value: value.clone() },
    }
}

/// Inverts every sample of `p`.
fn invert_plane(p: &mut MaskPlane)
    ensures
        pv(*final(p)) == inverted(pv(*old(p))),
{
    let ghost start = pv(*p);
    let mut j: usize = 0;
    while j < p.values.len()
        invariant
            p.width == start.0,
            p.height == start.1,
            p.values@.len() == start.2.len(),
            j <= p.values@.len(),
            forall|q: int| 0 <= q < j ==> p.values@[q] == (u16::MAX - start.2[q]) as u16,
            forall|q: int| j <= q < p.values@.len() ==> p.values@[q] == start.2[q],
        decreases p.values@.len() - j,
    {
        let v = u16::MAX - p.values[j];
        p.values.set(j, v);
        j += 1;
    }
    proof {
        assert(p.values@ =~= inverted(start).2);
    }
}

/// Combines `acc` sample by sample with `other`.
fn combine_into(op: MaskOperation, acc: &mut MaskPlane, other: &MaskPlane)
    ensures
        pv(*final(acc)) == combined(op, pv(*old(acc)), pv(*other)),
{
    let ghost start = pv(*acc);
    let n = if acc.values.len() < other.values.len() { acc.values.len() } else { other.values.len() };
    let mut j: usize = 0;
    while j < n
        invariant
            acc.width == start.0,
            acc.height == start.1,
            acc.values@.len() == start.2.len(),
            n <= acc.values@.len(),
            n <= other.values@.len(),
            n == acc.values@.len() || n == other.values@.len(),
            j <= n,
            forall|q: int| 0 <= q < j ==> acc.values@[q] == combine_value(op, start.2[q], other.values@[q]),
            forall|q: int| j <= q < acc.values@.len() ==> acc.values@[q] == start.2[q],
        decreases n - j,
    {
        let a = acc.values[j];
        let b = other.values[j];
        let v: u16 = match op {
            MaskOperation::Union => if a >= b {
                a
            } else {
                b
            },
            MaskOperation::Intersect => if a <= b {
                a
            } else {
                b
            },
            _ => {
                let wide_a = a as u32;
                let keep = 65535u32 - b as u32;
                proof {
                    assert(wide_a * keep <= 65535 * 65535) by (nonlinear_arith)
                        requires
                            wide_a <= 65535,
                            keep <= 65535,
                    ;
                    assert((wide_a * keep + 32767) / 65535 <= 65535) by (nonlinear_arith)
                        requires
                            wide_a * keep <= 65535 * 65535,
                    ;
                }
                ((wide_a * keep + 32767) / 65535) as u16
            },
        };
        acc.values.set(j, v);
        j += 1;
    }
    proof {
        assert(acc.values@ =~= combined(op, start, pv(*other)).2);
    }
}


impl<'a> MaskGraph<'a> {
    /// Builds the graph of `copies` with the loaded source planes and the
    /// rasters of prompt sources, keyed by `(copy_id, mask_id)`.
    pub fn new(
        copies: &'a [VirtualCopy],
        sources: Vec<((String, String), MaskPlane)>,
        prompt_rasters: Vec<((String, String), Result<MaskPlane, MaskError>)>,
    ) -> (g: Self)
        ensures
            g.wf(),
            g.spec_copies() == copies@,
            g.spec_sources() == sources@,
            g.spec_rasters() == prompt_rasters@,
            g.spec_count() == 0,
    {
        let keys = collect_entry_keys(copies);
        let mut slots: Vec<(usize, usize)> = Vec::new();
        while slots.len() < keys.len()
            invariant
                slots@.len() <= keys@.len(),
                forall|k: KeyView| key_listed(keys@, k) <==> has_entry(copies@, k),
                forall|q: int| 0 <= q < slots@.len() ==> last_entry(copies@, kv(keys@[q]), slots@[q].0 as int, slots@[q].1 as int),
            decreases keys@.len() - slots@.len(),
        {
            let i = slots.len();
            proof {
                assert(key_listed(keys@, kv(keys@[i as int])));
            }
            let slot = last_slot(copies, &keys[i]);
            slots.push(slot);
        }
        MaskGraph { copies, keys, slots, sources, prompt_rasters, evaluated_node_count: 0 }
    }

    /// How many node bodies the last evaluation executed; shared subtrees
    /// run once per evaluation.
    pub fn last_evaluated_node_count(&self) -> (n: usize)
        ensures
            n == self.spec_count(),
    {
        self.evaluated_node_count
    }

    fn evaluate_node(
        &self,
        r: &MaskReference,
        stack: &mut Vec<bool>,
        memo: &mut Vec<Option<MaskPlane>>,
        count: &mut usize,
    ) -> (res: Result<MaskPlane, MaskError>)
        requires
            self.wf(),
            old(stack)@.len() == self.spec_keys().len(),
            old(memo)@.len() == self.spec_keys().len(),
        ensures
            final(stack)@ == old(stack)@,
            final(memo)@.len() == old(memo)@.len(),
            ({
                let out = eval_node(self.graph_view(), *r, old(stack)@, memo_view(old(memo)@), *old(count));
                &&& result_matches(res, out.0)
                &&& memo_view(final(memo)@) == out.1
                &&& *final(count) == out.2
            }),
        decreases count_false(old(stack)@), 1nat, 0nat,
    {
        let ghost s0 = stack@;
        let ghost m0 = memo_view(memo@);
        let ghost c0 = *count;
        let found = find_key(&self.keys, r.copy_id.as_str(), r.mask_id.as_str());
        proof {
            match found {
                Some(i) => {
                    assert(key_listed(self.spec_keys(), ref_key(*r)));
                    let c = choose|c: int| 0 <= c < self.spec_keys().len() && kv(self.spec_keys()[c]) == ref_key(*r);
                    lemma_sorted_distinct(self.keys@, i as int, c);
                    assert(ref_index(self.graph_view(), *r) == i);
                },
                None => {
                    assert(ref_index(self.graph_view(), *r) == -1);
                },
            }
        }
        if let Some(i) = found {
            match &memo[i] {
                Some(p) => {
                    proof {
                        assert(m0[i as int] == Some(pv(*p)));
                    }
                    return Ok(copy_plane(p));
                },
                None => {},
            }
        }
        *count = count.wrapping_add(1);
        match found {
            None => Err(MaskError::MissingMask { copy_id: r.copy_id.clone(), mask_id: r.mask_id.clone() }),
            Some(i) => {
                proof {
                    assert(m0[i as int] is None);
                }
                if stack[i] {
                    return Err(MaskError::Cycle { copy_id: r.copy_id.clone(), mask_id: r.mask_id.clone() });
                }
                proof {
                    lemma_count_false_set(s0, i as int);
                }
                stack.set(i, true);
                let res = self.evaluate_body(i, stack, memo, count);
                stack.set(i, false);
                proof {
                    assert(stack@ =~= s0);
                }
                match res {
                    Ok(p) => {
                        let ghost before = memo@;
                        memo.set(i, Some(copy_plane(&p)));
                        proof {
                            assert(memo_view(memo@) =~= memo_view(before).update(i as int, Some(pv(p))));
                        }
                        Ok(p)
                    },
                    Err(e) => Err(e),
                }
            },
        }
    }

    fn evaluate_body(
        &self,
        i: usize,
        stack: &mut Vec<bool>,
        memo: &mut Vec<Option<MaskPlane>>,
        count: &mut usize,
    ) -> (res: Result<MaskPlane, MaskError>)
        requires
            self.wf(),
            i < self.spec_keys().len(),
            old(stack)@.len() == self.spec_keys().len(),
            old(memo)@.len() == self.spec_keys().len(),
        ensures
            final(stack)@ == old(stack)@,
            final(memo)@.len() == old(memo)@.len(),
            ({
                let out = eval_body(self.graph_view(), i as int, old(stack)@, memo_view(old(memo)@), *old(count));
                &&& result_matches(res, out.0)
                &&& memo_view(final(memo)@) == out.1
                &&& *final(count) == out.2
            }),
        decreases count_false(old(stack)@), 3nat, 0nat,
    {
        let (c, m) = self.slots[i];
        proof {
            assert(last_entry(self.copies@, kv(self.keys@[i as int]), c as int, m as int));
        }
        let d = &self.copies[c].mask_library[m];
        let key = &self.keys[i];
        proof {
            assert(*d == self.graph_view().1[i as int]);
        }
        let n = d.references.len();
        let arity_fits = match d.operation {
            MaskOperation::Source => n == 0,
            MaskOperation::Invert => n == 1,
            MaskOperation::Subtract => n == 2,
            _ => n >= 2,
        };
        if !arity_fits {
            return Err(MaskError::InvalidArity { copy_id: key.0.clone(), mask_id: key.1.clone(), actual: n });
        }
        match d.operation {
            MaskOperation::Source => match find_plane(&self.sources, key.0.as_str(), key.1.as_str()) {
                Some(j) => Ok(copy_plane(&self.sources[j].1)),
                None => {
                    if d.has_prompt {
                        match find_raster(&self.prompt_rasters, key.0.as_str(), key.1.as_str()) {
                            Some(j) => match &self.prompt_rasters[j].1 {
                                Ok(p) => Ok(copy_plane(p)),
                                Err(e) => Err(copy_error(e)),
                            },
                            None => Err(MaskError::MissingSourcePayload { copy_id: key.0.clone(), mask_id: key.1.clone() }),
                        }
                    } else {
                        Err(MaskError::MissingSourcePayload { copy_id: key.0.clone(), mask_id: key.1.clone() })
                    }
                },
            },
            MaskOperation::Invert => match self.evaluate_node(&d.references[0], stack, memo, count) {
                Ok(p) => {
                    let mut p = p;
                    invert_plane(&mut p);
                    Ok(p)
                },
                Err(e) => Err(e),
            },
            _ => match self.evaluate_node(&d.references[0], stack, memo, count) {
                Ok(first) => self.evaluate_fold(d.operation, &d.references, first, stack, memo, count),
                Err(e) => Err(e),
            },
        }
    }

    fn evaluate_fold(
        &self,
        op: MaskOperation,
        refs: &Vec<MaskReference>,
        first: MaskPlane,
        stack: &mut Vec<bool>,
        memo: &mut Vec<Option<MaskPlane>>,
        count: &mut usize,
    ) -> (res: Result<MaskPlane, MaskError>)
        requires
            self.wf(),
            old(stack)@.len() == self.spec_keys().len(),
            old(memo)@.len() == self.spec_keys().len(),
        ensures
            final(stack)@ == old(stack)@,
            final(memo)@.len() == old(memo)@.len(),
            ({
                let out = eval_fold(self.graph_view(), op, refs@, 1, pv(first), old(stack)@, memo_view(old(memo)@), *old(count));
                &&& result_matches(res, out.0)
                &&& memo_view(final(memo)@) == out.1
                &&& *final(count) == out.2
            }),
        decreases count_false(old(stack)@), 2nat, 0nat,
    {
        let ghost pv0 = pv(first);
        let ghost target = eval_fold(self.graph_view(), op, refs@, 1, pv(first), stack@, memo_view(memo@), *count);
        let ghost s0 = stack@;
        let ghost n0 = memo@.len();
        let mut acc = first;
        let mut j: usize = 1;
        while j < refs.len()
            invariant
                self.wf(),
                stack@ == s0,
                s0 == old(stack)@,
                n0 == old(memo)@.len(),
                memo@.len() == n0,
                n0 == self.spec_keys().len(),
                s0.len() == self.spec_keys().len(),
                1 <= j,
                pv0 == pv(first),
                target == eval_fold(self.graph_view(), op, refs@, 1, pv0, old(stack)@, memo_view(old(memo)@), *old(count)),
                target == eval_fold(self.graph_view(), op, refs@, j as int, pv(acc), s0, memo_view(memo@), *count),
            decreases refs@.len() - j,
        {
            let out = self.evaluate_node(&refs[j], stack, memo, count);
            match out {
                Err(e) => {
                    return Err(e);
                },
                Ok(p) => {
                    if acc.width != p.width || acc.height != p.height {
                        return Err(MaskError::DimensionMismatch {
                            expected_width: acc.width,
                            expected_height: acc.height,
                            actual_width: p.width,
                            actual_height: p.height,
                        });
                    }
                    combine_into(op, &mut acc, &p);
                },
            }
            j += 1;
        }
        Ok(acc)
    }

    /// Evaluates the mask `root` names. Within one evaluation every subtree
    /// runs once and is then served from the memo table; a key met again on
    /// its own evaluation path is a cycle.
    pub fn evaluate(&mut self, root: &MaskReference) -> (res: Result<MaskPlane, MaskError>)
        requires
            old(self).wf(),
        ensures
            final(self).wf(),
            final(self).spec_copies() == old(self).spec_copies(),
            final(self).spec_keys() == old(self).spec_keys(),
            final(self).spec_sources() == old(self).spec_sources(),
            final(self).spec_rasters() == old(self).spec_rasters(),
            final(self).graph_view() == old(self).graph_view(),
            ({
                let n = old(self).spec_keys().len();
                let out = eval_node(
                    old(self).graph_view(),
                    *root,
                    Seq::new(n, |q: int| false),
                    Seq::new(n, |q: int| None::<PlaneV>),
                    0,
                );
                &&& result_matches(res, out.0)
                &&& result_matches(res, value_node(old(self).graph_view(), *root, Seq::new(n, |q: int| false)))
                &&& final(self).spec_count() == out.2
            }),
    {
        let mut stack: Vec<bool> = Vec::new();
        let mut memo: Vec<Option<MaskPlane>> = Vec::new();
        while stack.len() < self.keys.len()
            invariant
                stack@.len() == memo@.len(),
                stack@.len() <= self.keys@.len(),
                forall|q: int| 0 <= q < stack@.len() ==> !stack@[q],
                forall|q: int| 0 <= q < memo@.len() ==> memo@[q] is None,
            decreases self.keys@.len() - stack@.len(),
        {
            stack.push(false);
            memo.push(None);
        }
        let mut count: usize = 0;
        proof {
            let n = self.keys@.len();
            assert(stack@ =~= Seq::new(n, |q: int| false));
            assert(memo_view(memo@) =~= Seq::new(n, |q: int| None::<PlaneV>));
        }
        let res = self.evaluate_node(root, &mut stack, &mut memo, &mut count);
        proof {
            lemma_memoization_is_transparent(self.graph_view(), *root, 0);
        }
        self.evaluated_node_count = count;
        res
    }
}


// ---------------------------------------------------------------------------
// Memoization is transparent: the memo table never changes what an
// evaluation returns.
// ---------------------------------------------------------------------------

/// The value of the mask `r` names, computed without a memo table: an
/// undefined key or a key on the stack fails, else its definition is
/// evaluated with the key on the stack.
pub open spec fn value_node(g: GraphView, r: MaskReference, stack: Seq<bool>) -> Result<PlaneV, MaskError>
    decreases count_false(stack), 1nat, 0nat,
{
    let i = ref_index(g, r);
    if i < 0 || i >= stack.len() {
        Err(MaskError::MissingMask { copy_id: r.copy_id, mask_id: r.mask_id })
    } else if stack[i] {
        Err(MaskError::Cycle { copy_id: r.copy_id, mask_id: r.mask_id })
    } else {
        proof {
            lemma_count_false_set(stack, i);
        }
        value_body(g, i, stack.update(i, true))
    }
}

/// The value of the definition of the key at index `i`, without a memo
/// table.
pub open spec fn value_body(g: GraphView, i: int, stack: Seq<bool>) -> Result<PlaneV, MaskError>
    decreases count_false(stack), 3nat, 0nat,
{
    let d = g.1[i];
    if !arity_ok(d) {
        Err(arity_error(g, i))
    } else {
        match d.operation {
            MaskOperation::Source => source_value(g, i),
            MaskOperation::Invert => match value_node(g, d.references@[0], stack) {
                Ok(p) => Ok(inverted(p)),
                Err(e) => Err(e),
            },
            _ => match value_node(g, d.references@[0], stack) {
                Ok(p) => value_fold(g, d.operation, d.references@, 1, p, stack),
                Err(e) => Err(e),
            },
        }
    }
}

/// Folds the values of the references from index `j` on into `acc`,
/// without a memo table.
pub open spec fn value_fold(
    g: GraphView,
    op: MaskOperation,
    refs: Seq<MaskReference>,
    j: int,
    acc: PlaneV,
    stack: Seq<bool>,
) -> Result<PlaneV, MaskError>
    decreases count_false(stack), 2nat, refs.len() - j,
{
    if j < 0 || j >= refs.len() {
        Ok(acc)
    } else {
        match value_node(g, refs[j], stack) {
            Err(e) => Err(e),
            Ok(p) => if acc.0 != p.0 || acc.1 != p.1 {
                Err(MaskError::DimensionMismatch {
                    expected_width: acc.0,
                    expected_height: acc.1,
                    actual_width: p.0,
                    actual_height: p.1,
                })
            } else {
                value_fold(g, op, refs, j + 1, combined(op, acc, p), stack)
            },
        }
    }
}

/// No memoized key is on the stack.
pub open spec fn avoids(stack: Seq<bool>, memo: Seq<Option<PlaneV>>) -> bool {
    forall|x: int| 0 <= x < memo.len() && #[trigger] memo[x] is Some ==> !stack[x]
}

/// The key `r` names is memoized.
pub open spec fn memoized(g: GraphView, memo: Seq<Option<PlaneV>>, r: MaskReference) -> bool {
    0 <= ref_index(g, r) < memo.len() && memo[ref_index(g, r)] is Some
}

/// The definition at index `x` has a fitting arity and all its references
/// are memoized.
pub open spec fn children_memoized(g: GraphView, memo: Seq<Option<PlaneV>>, x: int) -> bool {
    arity_ok(g.1[x]) && forall|k: int| 0 <= k < g.1[x].references@.len() ==> #[trigger] memoized(g, memo, g.1[x].references@[k])
}

/// Every memoized key has its references memoized.
pub open spec fn memo_closed(g: GraphView, memo: Seq<Option<PlaneV>>) -> bool {
    forall|x: int| 0 <= x < memo.len() && #[trigger] memo[x] is Some ==> children_memoized(g, memo, x)
}

/// The memoized plane of `x` is its value under the stack `t`.
pub open spec fn settled(g: GraphView, memo: Seq<Option<PlaneV>>, x: int, t: Seq<bool>) -> bool {
    value_body(g, x, t.update(x, true)) == Ok::<PlaneV, MaskError>(memo[x].unwrap())
}

/// Every memoized plane is the value of its key under every stack that
/// avoids the memoized keys.
pub open spec fn memo_sound(g: GraphView, memo: Seq<Option<PlaneV>>) -> bool {
    forall|x: int, t: Seq<bool>|
        0 <= x < memo.len() && memo[x] is Some && t.len() == memo.len() && avoids(t, memo) ==> #[trigger] settled(
            g,
            memo,
            x,
            t,
        )
}

/// `m2` keeps every entry of `m1`.
pub open spec fn extends(m2: Seq<Option<PlaneV>>, m1: Seq<Option<PlaneV>>) -> bool {
    m2.len() == m1.len() && forall|x: int| 0 <= x < m1.len() && #[trigger] m1[x] is Some ==> m2[x] == m1[x]
}

/// The invariant of an evaluation state.
pub open spec fn eval_state(g: GraphView, stack: Seq<bool>, memo: Seq<Option<PlaneV>>) -> bool {
    &&& g.1.len() == g.0.len()
    &&& stack.len() == g.0.len()
    &&& memo.len() == g.0.len()
    &&& avoids(stack, memo)
    &&& memo_closed(g, memo)
    &&& memo_sound(g, memo)
}

proof fn lemma_ref_index_range(g: GraphView, r: MaskReference)
    ensures
        -1 <= ref_index(g, r) < g.0.len(),
{
}

/// With every reference memoized, a definition's value does not depend on
/// the stack, as long as the stack avoids the memoized keys.
proof fn lemma_value_body_stable(g: GraphView, memo: Seq<Option<PlaneV>>, i: int, t1: Seq<bool>, t2: Seq<bool>)
    requires
        g.1.len() == g.0.len(),
        memo.len() == g.0.len(),
        0 <= i < g.0.len(),
        t1.len() == g.0.len(),
        t2.len() == g.0.len(),
        avoids(t1, memo),
        avoids(t2, memo),
        memo_sound(g, memo),
        children_memoized(g, memo, i),
    ensures
        value_body(g, i, t1) == value_body(g, i, t2),
{
    let d = g.1[i];
    if arity_ok(d) {
        match d.operation {
            MaskOperation::Source => {},
            MaskOperation::Invert => {
                lemma_value_node_memoized(g, memo, d.references@[0], t1);
                lemma_value_node_memoized(g, memo, d.references@[0], t2);
            },
            _ => {
                assert(memoized(g, memo, d.references@[0]));
                lemma_value_node_memoized(g, memo, d.references@[0], t1);
                lemma_value_node_memoized(g, memo, d.references@[0], t2);
                let first = value_node(g, d.references@[0], t1);
                if first is Ok {
                    lemma_value_fold_stable(g, memo, i, 1, first.unwrap(), t1, t2);
                }
            },
        }
    }
}

/// The value of a memoized key is its memoized plane.
proof fn lemma_value_node_memoized(g: GraphView, memo: Seq<Option<PlaneV>>, r: MaskReference, t: Seq<bool>)
    requires
        memo.len() == g.0.len(),
        t.len() == g.0.len(),
        avoids(t, memo),
        memo_sound(g, memo),
        memoized(g, memo, r),
    ensures
        value_node(g, r, t) == Ok::<PlaneV, MaskError>(memo[ref_index(g, r)].unwrap()),
{
    let x = ref_index(g, r);
    assert(memo[x] is Some);
    assert(!t[x]);
    assert(settled(g, memo, x, t));
}

proof fn lemma_value_fold_stable(
    g: GraphView,
    memo: Seq<Option<PlaneV>>,
    i: int,
    j: int,
    acc: PlaneV,
    t1: Seq<bool>,
    t2: Seq<bool>,
)
    requires
        g.1.len() == g.0.len(),
        memo.len() == g.0.len(),
        0 <= i < g.0.len(),
        t1.len() == g.0.len(),
        t2.len() == g.0.len(),
        avoids(t1, memo),
        avoids(t2, memo),
        memo_sound(g, memo),
        children_memoized(g, memo, i),
        0 <= j,
    ensures
        value_fold(g, g.1[i].operation, g.1[i].references@, j, acc, t1) == value_fold(
            g,
            g.1[i].operation,
            g.1[i].references@,
            j,
            acc,
            t2,
        ),
    decreases g.1[i].references@.len() - j,
{
    let refs = g.1[i].references@;
    if j < refs.len() {
        assert(memoized(g, memo, refs[j]));
        lemma_value_node_memoized(g, memo, refs[j], t1);
        lemma_value_node_memoized(g, memo, refs[j], t2);
        let p = value_node(g, refs[j], t1);
        if p is Ok && !(acc.0 != p.unwrap().0 || acc.1 != p.unwrap().1) {
            lemma_value_fold_stable(g, memo, i, j + 1, combined(g.1[i].operation, acc, p.unwrap()), t1, t2);
        }
    }
}


proof fn lemma_extends_keeps(g: GraphView, m1: Seq<Option<PlaneV>>, m2: Seq<Option<PlaneV>>)
    requires
        extends(m2, m1),
    ensures
        forall|r: MaskReference| #[trigger] memoized(g, m1, r) ==> memoized(g, m2, r),
        forall|x: int| 0 <= x < g.1.len() && #[trigger] children_memoized(g, m1, x) ==> children_memoized(g, m2, x),
{
    assert forall|r: MaskReference| #[trigger] memoized(g, m1, r) implies memoized(g, m2, r) by {
        assert(m1[ref_index(g, r)] is Some);
    }
    assert forall|x: int| 0 <= x < g.1.len() && #[trigger] children_memoized(g, m1, x) implies children_memoized(g, m2, x) by {
        assert forall|k: int| 0 <= k < g.1[x].references@.len() implies #[trigger] memoized(g, m2, g.1[x].references@[k]) by {
            assert(memoized(g, m1, g.1[x].references@[k]));
        }
    }
}

proof fn lemma_eval_node(g: GraphView, r: MaskReference, s: Seq<bool>, m: Seq<Option<PlaneV>>, c: usize)
    requires
        eval_state(g, s, m),
    ensures
        ({
            let out = eval_node(g, r, s, m, c);
            &&& out.0 == value_node(g, r, s)
            &&& extends(out.1, m)
            &&& eval_state(g, s, out.1)
            &&& out.0 is Ok ==> memoized(g, out.1, r) && out.1[ref_index(g, r)] == Some(out.0.unwrap())
        }),
    decreases count_false(s), 1nat, 0nat,
{
    let i = ref_index(g, r);
    lemma_ref_index_range(g, r);
    if 0 <= i < m.len() && m[i] is Some {
        assert(!s[i]);
        assert(settled(g, m, i, s));
    } else if i < 0 || i >= s.len() {
    } else if s[i] {
    } else {
        let inner = s.update(i, true);
        lemma_count_false_set(s, i);
        assert(avoids(inner, m));
        let c1 = c.wrapping_add(1);
        lemma_eval_body(g, i, inner, m, c1);
        let out = eval_body(g, i, inner, m, c1);
        assert(out.1[i] is None) by {
            if out.1[i] is Some {
                assert(!inner[i]);
            }
        }
        match out.0 {
            Ok(p) => {
                let m2 = out.1.update(i, Some(p));
                assert(extends(m2, out.1));
                lemma_extends_keeps(g, out.1, m2);
                assert(avoids(s, m2)) by {
                    assert forall|x: int| 0 <= x < m2.len() && #[trigger] m2[x] is Some implies !s[x] by {
                        if x != i {
                            assert(out.1[x] is Some);
                            assert(!inner[x]);
                        }
                    }
                }
                assert(memo_closed(g, m2)) by {
                    assert forall|x: int| 0 <= x < m2.len() && #[trigger] m2[x] is Some implies children_memoized(g, m2, x) by {
                        if x != i {
                            assert(out.1[x] is Some);
                            assert(children_memoized(g, out.1, x));
                        } else {
                            assert(children_memoized(g, out.1, i));
                        }
                    }
                }
                assert(memo_sound(g, m2)) by {
                    assert forall|x: int, t: Seq<bool>|
                        0 <= x < m2.len() && m2[x] is Some && t.len() == m2.len() && avoids(t, m2) implies #[trigger] settled(
                        g,
                        m2,
                        x,
                        t,
                    ) by {
                        assert(avoids(t, out.1)) by {
                            assert forall|y: int| 0 <= y < out.1.len() && #[trigger] out.1[y] is Some implies !t[y] by {
                                assert(m2[y] is Some);
                            }
                        }
                        if x == i {
                            let ti = t.update(i, true);
                            assert(avoids(ti, out.1)) by {
                                assert forall|y: int| 0 <= y < out.1.len() && #[trigger] out.1[y] is Some implies !ti[y] by {
                                    assert(y != i);
                                }
                            }
                            lemma_value_body_stable(g, out.1, i, ti, inner);
                        } else {
                            assert(out.1[x] is Some);
                            assert(settled(g, out.1, x, t));
                        }
                    }
                }
                assert(extends(m2, m)) by {
                    assert forall|x: int| 0 <= x < m.len() && #[trigger] m[x] is Some implies m2[x] == m[x] by {
                        assert(out.1[x] == m[x]);
                    }
                }
            },
            Err(e) => {},
        }
    }
}

proof fn lemma_eval_body(g: GraphView, i: int, s: Seq<bool>, m: Seq<Option<PlaneV>>, c: usize)
    requires
        eval_state(g, s, m),
        0 <= i < g.0.len(),
        s[i],
    ensures
        ({
            let out = eval_body(g, i, s, m, c);
            &&& out.0 == value_body(g, i, s)
            &&& extends(out.1, m)
            &&& eval_state(g, s, out.1)
            &&& out.0 is Ok ==> children_memoized(g, out.1, i)
        }),
    decreases count_false(s), 3nat, 0nat,
{
    let d = g.1[i];
    if arity_ok(d) {
        match d.operation {
            MaskOperation::Source => {},
            MaskOperation::Invert => {
                lemma_eval_node(g, d.references@[0], s, m, c);
            },
            _ => {
                lemma_eval_node(g, d.references@[0], s, m, c);
                let out1 = eval_node(g, d.references@[0], s, m, c);
                if out1.0 is Ok {
                    lemma_eval_fold(g, i, 1, out1.0.unwrap(), s, out1.1, out1.2);
                    let out = eval_fold(g, d.operation, d.references@, 1, out1.0.unwrap(), s, out1.1, out1.2);
                    lemma_extends_keeps(g, out1.1, out.1);
                    assert(extends(out.1, m)) by {
                        assert forall|x: int| 0 <= x < m.len() && #[trigger] m[x] is Some implies out.1[x] == m[x] by {
                            assert(out1.1[x] == m[x]);
                        }
                    }
                    if out.0 is Ok {
                        assert forall|k: int| 0 <= k < d.references@.len() implies #[trigger] memoized(g, out.1, d.references@[k]) by {
                            if k == 0 {
                                assert(memoized(g, out1.1, d.references@[0]));
                            }
                        }
                    }
                }
            },
        }
    }
}

proof fn lemma_eval_fold(g: GraphView, i: int, j: int, acc: PlaneV, s: Seq<bool>, m: Seq<Option<PlaneV>>, c: usize)
    requires
        eval_state(g, s, m),
        0 <= i < g.0.len(),
        0 <= j,
    ensures
        ({
            let out = eval_fold(g, g.1[i].operation, g.1[i].references@, j, acc, s, m, c);
            &&& out.0 == value_fold(g, g.1[i].operation, g.1[i].references@, j, acc, s)
            &&& extends(out.1, m)
            &&& eval_state(g, s, out.1)
            &&& out.0 is Ok ==> forall|k: int| j <= k < g.1[i].references@.len() ==> #[trigger] memoized(
                g,
                out.1,
                g.1[i].references@[k],
            )
        }),
    decreases count_false(s), 2nat, g.1[i].references@.len() - j,
{
    let op = g.1[i].operation;
    let refs = g.1[i].references@;
    if j < refs.len() {
        lemma_eval_node(g, refs[j], s, m, c);
        let out1 = eval_node(g, refs[j], s, m, c);
        match out1.0 {
            Ok(p) => {
                if !(acc.0 != p.0 || acc.1 != p.1) {
                    let next = combined(op, acc, p);
                    lemma_eval_fold(g, i, j + 1, next, s, out1.1, out1.2);
                    let out = eval_fold(g, op, refs, j + 1, next, s, out1.1, out1.2);
                    lemma_extends_keeps(g, out1.1, out.1);
                    assert(extends(out.1, m)) by {
                        assert forall|x: int| 0 <= x < m.len() && #[trigger] m[x] is Some implies out.1[x] == m[x] by {
                            assert(out1.1[x] == m[x]);
                        }
                    }
                    if out.0 is Ok {
                        assert forall|k: int| j <= k < refs.len() implies #[trigger] memoized(g, out.1, refs[k]) by {
                            if k == j {
                                assert(memoized(g, out1.1, refs[j]));
                            }
                        }
                    }
                }
            },
            Err(e) => {},
        }
    }
}

/// Memoizing subtrees within one evaluation never changes what it returns:
/// the memoized evaluation of a root yields exactly its value computed
/// without a memo table.
pub proof fn lemma_memoization_is_transparent(g: GraphView, root: MaskReference, count: usize)
    requires
        g.1.len() == g.0.len(),
    ensures
        eval_node(
            g,
            root,
            Seq::new(g.0.len(), |q: int| false),
            Seq::new(g.0.len(), |q: int| None::<PlaneV>),
            count,
        ).0 == value_node(g, root, Seq::new(g.0.len(), |q: int| false)),
{
    let s = Seq::new(g.0.len(), |q: int| false);
    let m = Seq::new(g.0.len(), |q: int| None::<PlaneV>);
    assert(eval_state(g, s, m));
    lemma_eval_node(g, root, s, m, count);
}

/// A union sample is the larger of its two operand samples: at least each
/// of them, and one of them.
pub proof fn lemma_union_sample_is_max(a: u16, b: u16)
    ensures
        combine_value(MaskOperation::Union, a, b) >= a,
        combine_value(MaskOperation::Union, a, b) >= b,
        combine_value(MaskOperation::Union, a, b) == a || combine_value(MaskOperation::Union, a, b) == b,
{
}

/// An intersection sample is the smaller of its two operand samples: at
/// most each of them, and one of them.
pub proof fn lemma_intersect_sample_is_min(a: u16, b: u16)
    ensures
        combine_value(MaskOperation::Intersect, a, b) <= a,
        combine_value(MaskOperation::Intersect, a, b) <= b,
        combine_value(MaskOperation::Intersect, a, b) == a || combine_value(MaskOperation::Intersect, a, b) == b,
{
}

/// A subtraction sample is `a (1 - b)` in `u16` fixed point rounded to the
/// nearest code: it never exceeds the sample subtracted from, subtracting
/// nothing keeps it, subtracting a full sample clears it, and nothing stays
/// nothing.
pub proof fn lemma_subtract_sample_bounds(a: u16, b: u16)
    ensures
        combine_value(MaskOperation::Subtract, a, b) <= a,
        b == 0 ==> combine_value(MaskOperation::Subtract, a, b) == a,
        b == 65535 ==> combine_value(MaskOperation::Subtract, a, b) == 0,
        a == 0 ==> combine_value(MaskOperation::Subtract, a, b) == 0,
        -32767 <= 65535 * combine_value(MaskOperation::Subtract, a, b) - a * (65535 - b) <= 32767,
{
    let k = 65535 - b;
    let x = a * k + 32767;
    vstd::arithmetic::div_mod::lemma_fundamental_div_mod(x, 65535);
    vstd::arithmetic::div_mod::lemma_mod_pos_bound(x, 65535);
    assert(a * k <= a * 65535) by (nonlinear_arith)
        requires
            0 <= k <= 65535,
            a >= 0,
    ;
    assert((a * k + 32767) / 65535 <= a) by (nonlinear_arith)
        requires
            a * k <= a * 65535,
            a >= 0,
    ;
    if b == 0 {
        assert((a * 65535 + 32767) / 65535 == a) by (nonlinear_arith)
            requires
                a >= 0,
        ;
    }
    if a == 0 {
        assert(a * k == 0);
    }
    if b == 65535 {
        assert(k == 0);
        assert(a * k == 0) by (nonlinear_arith)
            requires
                k == 0,
        ;
    }
}

/// Inverting a plane maps each sample `v` to `65535 - v`, keeps the size,
/// and inverting twice gives the plane back.
pub proof fn lemma_invert_complements(p: PlaneV)
    ensures
        inverted(p).0 == p.0 && inverted(p).1 == p.1,
        inverted(p).2.len() == p.2.len(),
        forall|j: int| 0 <= j < p.2.len() ==> inverted(p).2[j] + p.2[j] == 65535,
        inverted(inverted(p)) == p,
{
    assert(inverted(inverted(p)).2 =~= p.2);
}

/// The union of two planes covers both: every sample where both have one is
/// at least each operand's sample and equals one of them; the first
/// operand's size is kept.
pub proof fn lemma_union_plane_covers_both(a: PlaneV, b: PlaneV)
    ensures
        combined(MaskOperation::Union, a, b).0 == a.0,
        combined(MaskOperation::Union, a, b).1 == a.1,
        combined(MaskOperation::Union, a, b).2.len() == a.2.len(),
        forall|j: int|
            0 <= j < a.2.len() && j < b.2.len() ==> {
                &&& #[trigger] combined(MaskOperation::Union, a, b).2[j] >= a.2[j]
                &&& combined(MaskOperation::Union, a, b).2[j] >= b.2[j]
                &&& (combined(MaskOperation::Union, a, b).2[j] == a.2[j] || combined(MaskOperation::Union, a, b).2[j] == b.2[j])
            },
{
    assert forall|j: int| 0 <= j < a.2.len() && j < b.2.len() implies {
        &&& #[trigger] combined(MaskOperation::Union, a, b).2[j] >= a.2[j]
        &&& combined(MaskOperation::Union, a, b).2[j] >= b.2[j]
        &&& (combined(MaskOperation::Union, a, b).2[j] == a.2[j] || combined(MaskOperation::Union, a, b).2[j] == b.2[j])
    } by {
        lemma_union_sample_is_max(a.2[j], b.2[j]);
    }
}

/// The intersection of two planes lies under both: every sample where both
/// have one is at most each operand's sample and equals one of them.
pub proof fn lemma_intersect_plane_under_both(a: PlaneV, b: PlaneV)
    ensures
        combined(MaskOperation::Intersect, a, b).2.len() == a.2.len(),
        forall|j: int|
            0 <= j < a.2.len() && j < b.2.len() ==> {
                &&& #[trigger] combined(MaskOperation::Intersect, a, b).2[j] <= a.2[j]
                &&& combined(MaskOperation::Intersect, a, b).2[j] <= b.2[j]
                &&& (combined(MaskOperation::Intersect, a, b).2[j] == a.2[j] || combined(MaskOperation::Intersect, a, b).2[j]
                    == b.2[j])
            },
{
    assert forall|j: int| 0 <= j < a.2.len() && j < b.2.len() implies {
        &&& #[trigger] combined(MaskOperation::Intersect, a, b).2[j] <= a.2[j]
        &&& combined(MaskOperation::Intersect, a, b).2[j] <= b.2[j]
        &&& (combined(MaskOperation::Intersect, a, b).2[j] == a.2[j] || combined(MaskOperation::Intersect, a, b).2[j] == b.2[j])
    } by {
        lemma_intersect_sample_is_min(a.2[j], b.2[j]);
    }
}

} // verus!
