//! The number of bytes held by a finite map of byte strings, and how it
//! changes as entries come and go.
use vstd::prelude::*;

verus! {

/// The bytes held by a finite map of byte strings: the sum of the lengths
/// of its values.
pub open spec fn bytes_total<K>(m: Map<K, Seq<u8>>) -> nat
    decreases m.dom().len(),
{
    if m.dom().finite() && m.dom().len() > 0 {
        let k = m.dom().choose();
        m[k].len() + bytes_total(m.remove(k))
    } else {
        0
    }
}

/// Taking any one entry out of a finite map takes its length out of the
/// total.
pub proof fn lemma_bytes_total_remove<K>(m: Map<K, Seq<u8>>, k: K)
    requires
        m.dom().finite(),
        m.dom().contains(k),
    ensures
        bytes_total(m) == m[k].len() + bytes_total(m.remove(k)),
    decreases m.dom().len(),
{
    let c = m.dom().choose();
    assert(m.dom().len() > 0);
    if c != k {
        let mc = m.remove(c);
        let mk = m.remove(k);
        assert(mc.dom().contains(k));
        assert(mk.dom().contains(c));
        lemma_bytes_total_remove(mc, k);
        lemma_bytes_total_remove(mk, c);
        assert(mc.remove(k) =~= mk.remove(c));
    }
}

/// Adding an entry under a new key adds its length to the total.
pub proof fn lemma_bytes_total_insert<K>(m: Map<K, Seq<u8>>, k: K, v: Seq<u8>)
    requires
        m.dom().finite(),
        !m.dom().contains(k),
    ensures
        m.insert(k, v).dom().finite(),
        bytes_total(m.insert(k, v)) == bytes_total(m) + v.len(),
{
    let n = m.insert(k, v);
    lemma_bytes_total_remove(n, k);
    assert(n.remove(k) =~= m);
}

} // verus!
