//! Association lists keyed by address: the map they denote and the facts
//! about it that the ledgers rely on.

use vstd::prelude::*;
use crate::address::Address;

verus! {

/// No address occurs twice as a key.
pub open spec fn keys_distinct<V>(s: Seq<(Address, V)>) -> bool {
    forall|i: int, j: int| 0 <= i < s.len() && 0 <= j < s.len() && i != j ==> s[i].0 != s[j].0
}

/// The map an association list denotes (later entries win).
pub open spec fn assoc_map<V>(s: Seq<(Address, V)>) -> Map<Address, V>
    decreases s.len(),
{
    if s.len() == 0 {
        Map::empty()
    } else {
        assoc_map(s.drop_last()).insert(s.last().0, s.last().1)
    }
}

pub proof fn lemma_assoc_map_push<V>(s: Seq<(Address, V)>, e: (Address, V))
    ensures
        assoc_map(s.push(e)) == assoc_map(s).insert(e.0, e.1),
{
    assert(s.push(e).drop_last() =~= s);
}

pub proof fn lemma_assoc_map_dom<V>(s: Seq<(Address, V)>, a: Address)
    ensures
        assoc_map(s).contains_key(a) <==> exists|i: int| 0 <= i < s.len() && s[i].0 == a,
    decreases s.len(),
{
    if s.len() > 0 {
        let t = s.drop_last();
        lemma_assoc_map_dom(t, a);
        if s.last().0 == a {
            assert(s[s.len() - 1].0 == a);
        } else if exists|i: int| 0 <= i < s.len() && s[i].0 == a {
            let i = choose|i: int| 0 <= i < s.len() && s[i].0 == a;
            assert(i < s.len() - 1);
            assert(t[i] == s[i]);
        }
        if exists|i: int| 0 <= i < t.len() && t[i].0 == a {
            let i = choose|i: int| 0 <= i < t.len() && t[i].0 == a;
            assert(s[i] == t[i]);
        }
    }
}

pub proof fn lemma_assoc_map_index<V>(s: Seq<(Address, V)>, i: int)
    requires
        keys_distinct(s),
        0 <= i < s.len(),
    ensures
        assoc_map(s).contains_key(s[i].0),
        assoc_map(s)[s[i].0] == s[i].1,
    decreases s.len(),
{
    if i < s.len() - 1 {
        let t = s.drop_last();
        assert(t[i] == s[i]);
        assert(keys_distinct(t));
        lemma_assoc_map_index(t, i);
        assert(s.last().0 != s[i].0);
    }
}

pub proof fn lemma_assoc_map_update<V>(s: Seq<(Address, V)>, i: int, v: V)
    requires
        keys_distinct(s),
        0 <= i < s.len(),
    ensures
        keys_distinct(s.update(i, (s[i].0, v))),
        assoc_map(s.update(i, (s[i].0, v))) == assoc_map(s).insert(s[i].0, v),
    decreases s.len(),
{
    let u = s.update(i, (s[i].0, v));
    assert forall|p: int, q: int| 0 <= p < u.len() && 0 <= q < u.len() && p != q implies u[p].0
        != u[q].0 by {
        assert(u[p].0 == s[p].0);
        assert(u[q].0 == s[q].0);
    }
    let t = s.drop_last();
    if i == s.len() - 1 {
        assert(u.drop_last() =~= t);
    } else {
        assert(keys_distinct(t));
        assert(t[i] == s[i]);
        lemma_assoc_map_update(t, i, v);
        assert(u.drop_last() =~= t.update(i, (s[i].0, v)));
        assert(s.last().0 != s[i].0);
        assert(assoc_map(u) =~= assoc_map(s).insert(s[i].0, v));
    }
}

pub proof fn lemma_assoc_map_insert<V>(s: Seq<(Address, V)>, i: int, e: (Address, V))
    requires
        keys_distinct(s),
        0 <= i <= s.len(),
        !assoc_map(s).contains_key(e.0),
    ensures
        keys_distinct(s.insert(i, e)),
        assoc_map(s.insert(i, e)) == assoc_map(s).insert(e.0, e.1),
    decreases s.len(),
{
    let u = s.insert(i, e);
    assert forall|k: int| 0 <= k < s.len() implies s[k].0 != e.0 by {
        lemma_assoc_map_dom(s, e.0);
    }
    assert forall|p: int, q: int| 0 <= p < u.len() && 0 <= q < u.len() && p != q implies u[p].0
        != u[q].0 by {
        if p < i {
            assert(u[p] == s[p]);
        } else if p > i {
            assert(u[p] == s[p - 1]);
        }
        if q < i {
            assert(u[q] == s[q]);
        } else if q > i {
            assert(u[q] == s[q - 1]);
        }
    }
    if i == s.len() {
        assert(u =~= s.push(e));
        lemma_assoc_map_push(s, e);
    } else {
        let t = s.drop_last();
        assert(keys_distinct(t));
        lemma_assoc_map_dom(t, e.0);
        lemma_assoc_map_dom(s, e.0);
        if assoc_map(t).contains_key(e.0) {
            let k = choose|k: int| 0 <= k < t.len() && t[k].0 == e.0;
            assert(s[k] == t[k]);
        }
        lemma_assoc_map_insert(t, i, e);
        assert(u.drop_last() =~= t.insert(i, e));
        assert(u.last() == s.last());
        assert(s.last().0 != e.0);
        assert(assoc_map(u) =~= assoc_map(s).insert(e.0, e.1));
    }
}

/// Mapping the values of an association list maps the values of its map.
pub proof fn lemma_assoc_map_values<V, W>(
    s: Seq<(Address, V)>,
    t: Seq<(Address, W)>,
    f: spec_fn(V) -> W,
)
    requires
        t.len() == s.len(),
        forall|i: int| 0 <= i < s.len() ==> #[trigger] t[i] == (s[i].0, f(s[i].1)),
    ensures
        assoc_map(t) == assoc_map(s).map_values(f),
    decreases s.len(),
{
    if s.len() > 0 {
        let sd = s.drop_last();
        let td = t.drop_last();
        assert forall|i: int| 0 <= i < sd.len() implies #[trigger] td[i] == (sd[i].0, f(sd[i].1)) by {
            assert(td[i] == t[i]);
            assert(sd[i] == s[i]);
        }
        lemma_assoc_map_values(sd, td, f);
        assert(t.last() == (s.last().0, f(s.last().1)));
        assert(assoc_map(t) =~= assoc_map(s).map_values(f));
    } else {
        assert(assoc_map(t) =~= assoc_map(s).map_values(f));
    }
}

} // verus!
