//! Sums over finite maps.

use vstd::prelude::*;

verus! {

/// The sum of the values of a finite map.
pub open spec fn total<K>(m: Map<K, u64>) -> int
    decreases m.dom().len(),
    when m.dom().finite()
{
    if m.dom().len() == 0 {
        0
    } else {
        let k = m.dom().choose();
        m[k] + total(m.remove(k))
    }
}

/// Any one entry can be taken out of the sum.
pub proof fn lemma_total_remove<K>(m: Map<K, u64>, k: K)
    requires
        m.dom().finite(),
        m.contains_key(k),
    ensures
        total(m) == m[k] + total(m.remove(k)),
    decreases m.dom().len(),
{
    let c = m.dom().choose();
    if c != k {
        lemma_total_remove(m.remove(c), k);
        assert(m.remove(c).remove(k) =~= m.remove(k).remove(c));
        lemma_total_remove(m.remove(k), c);
    }
}

/// Writing one entry changes the sum by what the entry changes.
pub proof fn lemma_total_insert<K>(m: Map<K, u64>, k: K, v: u64)
    requires
        m.dom().finite(),
    ensures
        total(m.insert(k, v)) == total(m) - (if m.contains_key(k) {
            m[k] as int
        } else {
            0
        }) + v,
{
    let n = m.insert(k, v);
    lemma_total_remove(n, k);
    if m.contains_key(k) {
        lemma_total_remove(m, k);
        assert(n.remove(k) =~= m.remove(k));
    } else {
        assert(n.remove(k) =~= m);
    }
}

/// Sums are not negative.
pub proof fn lemma_total_nonneg<K>(m: Map<K, u64>)
    requires
        m.dom().finite(),
    ensures
        total(m) >= 0,
    decreases m.dom().len(),
{
    if m.dom().len() > 0 {
        lemma_total_nonneg(m.remove(m.dom().choose()));
    }
}

} // verus!
