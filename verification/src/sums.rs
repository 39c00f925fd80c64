//! Sums over the balances of finite maps.

use vstd::prelude::*;
use crate::address::Address;

verus! {

/// The sum of the values of a finite map of balances.
pub open spec fn map_total(m: Map<Address, u64>) -> nat
    decreases m.dom().len(),
{
    if m.dom().finite() && m.dom().len() > 0 {
        let k = m.dom().choose();
        proof {
            assert(m.dom().contains(k));
            assert(m.remove(k).dom() =~= m.dom().remove(k));
        }
        m[k] as nat + map_total(m.remove(k))
    } else {
        0
    }
}

/// Any entry can be taken out first: the sum does not depend on the order.
pub proof fn lemma_map_total_remove(m: Map<Address, u64>, k: Address)
    requires
        m.dom().finite(),
        m.contains_key(k),
    ensures
        map_total(m) == m[k] + map_total(m.remove(k)),
    decreases m.dom().len(),
{
    assert(m.remove(k).dom() =~= m.dom().remove(k));
    let d = m.dom().choose();
    if d != k {
        assert(m.dom().contains(d));
        assert(m.remove(d).dom() =~= m.dom().remove(d));
        lemma_map_total_remove(m.remove(d), k);
        lemma_map_total_remove(m.remove(k), d);
        assert(m.remove(d).remove(k) =~= m.remove(k).remove(d));
    }
}

pub proof fn lemma_map_total_empty()
    ensures
        map_total(Map::<Address, u64>::empty()) == 0,
{
    assert(Map::<Address, u64>::empty().dom() =~= Set::<Address>::empty());
}

/// Setting the balance of `k` to `v` changes the sum by the difference.
pub proof fn lemma_map_total_insert(m: Map<Address, u64>, k: Address, v: u64)
    requires
        m.dom().finite(),
    ensures
        m.insert(k, v).dom().finite(),
        map_total(m.insert(k, v)) == map_total(m) - (if m.contains_key(k) {
            m[k] as int
        } else {
            0
        }) + v,
{
    let n = m.insert(k, v);
    assert(n.dom() =~= m.dom().insert(k));
    lemma_map_total_remove(n, k);
    if m.contains_key(k) {
        lemma_map_total_remove(m, k);
        assert(n.remove(k) =~= m.remove(k));
    } else {
        assert(n.remove(k) =~= m);
    }
}

/// The sum of all balances of all validators in a finite stake map.
pub open spec fn stake_total(m: Map<Address, Map<Address, u64>>) -> nat
    decreases m.dom().len(),
{
    if m.dom().finite() && m.dom().len() > 0 {
        let k = m.dom().choose();
        proof {
            assert(m.dom().contains(k));
            assert(m.remove(k).dom() =~= m.dom().remove(k));
        }
        map_total(m[k]) + stake_total(m.remove(k))
    } else {
        0
    }
}

pub proof fn lemma_stake_total_remove(m: Map<Address, Map<Address, u64>>, k: Address)
    requires
        m.dom().finite(),
        m.contains_key(k),
    ensures
        stake_total(m) == map_total(m[k]) + stake_total(m.remove(k)),
    decreases m.dom().len(),
{
    assert(m.remove(k).dom() =~= m.dom().remove(k));
    let d = m.dom().choose();
    if d != k {
        assert(m.dom().contains(d));
        assert(m.remove(d).dom() =~= m.dom().remove(d));
        lemma_stake_total_remove(m.remove(d), k);
        lemma_stake_total_remove(m.remove(k), d);
        assert(m.remove(d).remove(k) =~= m.remove(k).remove(d));
    }
}

pub proof fn lemma_stake_total_empty()
    ensures
        stake_total(Map::<Address, Map<Address, u64>>::empty()) == 0,
{
    assert(Map::<Address, Map<Address, u64>>::empty().dom() =~= Set::<Address>::empty());
}

pub proof fn lemma_stake_total_insert(
    m: Map<Address, Map<Address, u64>>,
    k: Address,
    v: Map<Address, u64>,
)
    requires
        m.dom().finite(),
    ensures
        m.insert(k, v).dom().finite(),
        stake_total(m.insert(k, v)) == stake_total(m) - (if m.contains_key(k) {
            map_total(m[k]) as int
        } else {
            0
        }) + map_total(v),
{
    let n = m.insert(k, v);
    assert(n.dom() =~= m.dom().insert(k));
    lemma_stake_total_remove(n, k);
    if m.contains_key(k) {
        lemma_stake_total_remove(m, k);
        assert(n.remove(k) =~= m.remove(k));
    } else {
        assert(n.remove(k) =~= m);
    }
}

} // verus!
