//! A ledger of coin balances keyed by address.

use vstd::prelude::*;
use crate::address::Address;
use crate::sums::{lemma_map_total_empty, lemma_map_total_insert, map_total};
use crate::assoc::{
    assoc_map, keys_distinct, lemma_assoc_map_dom, lemma_assoc_map_index, lemma_assoc_map_push,
    lemma_assoc_map_update, lemma_assoc_map_values,
};

verus! {

/// Sum of the amounts of an association list.
pub open spec fn amount_sum(s: Seq<(Address, u64)>) -> nat
    decreases s.len(),
{
    if s.len() == 0 {
        0
    } else {
        amount_sum(s.drop_last()) + s.last().1 as nat
    }
}

pub proof fn lemma_amount_sum_update(s: Seq<(Address, u64)>, i: int, e: (Address, u64))
    requires
        0 <= i < s.len(),
    ensures
        amount_sum(s.update(i, e)) == amount_sum(s) - s[i].1 + e.1,
    decreases s.len(),
{
    let u = s.update(i, e);
    if i == s.len() - 1 {
        assert(u.drop_last() =~= s.drop_last());
    } else {
        lemma_amount_sum_update(s.drop_last(), i, e);
        assert(u.drop_last() =~= s.drop_last().update(i, e));
    }
}

pub proof fn lemma_amount_sum_push(s: Seq<(Address, u64)>, e: (Address, u64))
    ensures
        amount_sum(s.push(e)) == amount_sum(s) + e.1,
{
    assert(s.push(e).drop_last() =~= s);
}

/// A prefix sums to no more than the whole; each element is bounded by the sum.
pub proof fn lemma_amount_sum_prefix(s: Seq<(Address, u64)>, i: int)
    requires
        0 <= i <= s.len(),
    ensures
        amount_sum(s.take(i)) <= amount_sum(s),
        i < s.len() ==> amount_sum(s.take(i + 1)) == amount_sum(s.take(i)) + s[i].1,
        i < s.len() ==> s[i].1 <= amount_sum(s),
    decreases s.len(),
{
    if i < s.len() {
        assert(s.take(i + 1).drop_last() =~= s.take(i));
    }
    if s.len() > 0 {
        if i == s.len() {
            assert(s.take(i) =~= s);
        } else {
            lemma_amount_sum_prefix(s.drop_last(), i);
            assert(s.drop_last().take(i) =~= s.take(i));
            if i < s.len() - 1 {
                assert(s.drop_last().take(i + 1) =~= s.take(i + 1));
                lemma_amount_sum_prefix(s.drop_last(), i + 1);
            } else {
                assert(s.take(i + 1) =~= s);
            }
        }
    }
}

/// The amount `d` grows to when `reward` coins are shared pro rata over a
/// pool holding `total`: it gains `floor(reward * d / total)`.
pub open spec fn with_reward(d: u64, reward: u64, total: u64) -> u64 {
    (d + (reward as int * d as int) / (total as int)) as u64
}

proof fn lemma_share_bounds(d: u64, reward: u64, total: u64)
    requires
        0 < total,
        d <= total,
    ensures
        (reward as int * d as int) / (total as int) <= reward,
        total as int * ((reward as int * d as int) / (total as int)) <= reward as int * d as int,
        0 <= (reward as int * d as int) / (total as int),
{
    let p = reward as int * d as int;
    let t = total as int;
    assert(p <= reward as int * t) by (nonlinear_arith)
        requires
            p == reward as int * d as int,
            d <= t,
            0 <= reward,
    ;
    assert(t * (p / t) <= p) by (nonlinear_arith)
        requires
            0 < t,
            0 <= p,
    ;
    assert(p / t <= reward) by (nonlinear_arith)
        requires
            0 < t,
            0 <= p,
            p <= reward as int * t,
    ;
    assert(0 <= p / t) by (nonlinear_arith)
        requires
            0 < t,
            0 <= p,
    ;
}

/// Sharing a reward pro rata raises a list's sum by at most `reward` times
/// its share of the pool.
pub proof fn lemma_amount_sum_reward(
    s: Seq<(Address, u64)>,
    t: Seq<(Address, u64)>,
    reward: u64,
    total: u64,
)
    requires
        0 < total,
        amount_sum(s) <= total,
        t.len() == s.len(),
        forall|i: int|
            0 <= i < s.len() ==> #[trigger] t[i] == (s[i].0, with_reward(s[i].1, reward, total)),
        total + reward <= u64::MAX,
    ensures
        amount_sum(s) <= amount_sum(t),
        total as int * (amount_sum(t) - amount_sum(s)) <= reward as int * amount_sum(s),
    decreases s.len(),
{
    if s.len() > 0 {
        let sd = s.drop_last();
        let td = t.drop_last();
        assert forall|i: int| 0 <= i < sd.len() implies #[trigger] td[i] == (
        sd[i].0,
        with_reward(sd[i].1, reward, total),
        ) by {
            assert(td[i] == t[i]);
            assert(sd[i] == s[i]);
        }
        lemma_amount_sum_reward(sd, td, reward, total);
        let d = s.last().1;
        assert(t.last() == (s.last().0, with_reward(d, reward, total)));
        lemma_share_bounds(d, reward, total);
        let sh = (reward as int * d as int) / (total as int);
        assert(t.last().1 == d + sh);
        let a = amount_sum(td) - amount_sum(sd);
        let b = amount_sum(sd) as int;
        assert(amount_sum(t) == amount_sum(td) + t.last().1);
        assert(amount_sum(s) == amount_sum(sd) + d);
        assert(amount_sum(t) - amount_sum(s) == a + sh);
        assert(total as int * (a + sh) <= reward as int * (b + d)) by (nonlinear_arith)
            requires
                total as int * a <= reward as int * b,
                total as int * sh <= reward as int * d,
        ;
        assert(total as int * (amount_sum(t) - amount_sum(s)) <= reward as int * amount_sum(s));
    } else {
        assert(amount_sum(t) == 0);
        assert(amount_sum(s) == 0);
    }
}

proof fn lemma_amount_sum_is_map_total(s: Seq<(Address, u64)>)
    requires
        keys_distinct(s),
    ensures
        assoc_map(s).dom().finite(),
        amount_sum(s) == map_total(assoc_map(s)),
    decreases s.len(),
{
    if s.len() == 0 {
        assert(assoc_map(s) == Map::<Address, u64>::empty());
        lemma_map_total_empty();
    } else {
        let t = s.drop_last();
        assert(keys_distinct(t));
        lemma_amount_sum_is_map_total(t);
        lemma_assoc_map_dom(t, s.last().0);
        if assoc_map(t).contains_key(s.last().0) {
            let i = choose|i: int| 0 <= i < t.len() && t[i].0 == s.last().0;
            assert(s[i] == t[i]);
            assert(s[s.len() - 1] == s.last());
        }
        lemma_map_total_insert(assoc_map(t), s.last().0, s.last().1);
    }
}

/// Balances held by addresses.
pub struct Ledger {
    entries: Vec<(Address, u64)>,
}

impl View for Ledger {
    type V = Map<Address, u64>;

    closed spec fn view(&self) -> Map<Address, u64> {
        assoc_map(self.entries@)
    }
}

/// The balance an address holds in a balance map (zero when it has no entry).
pub open spec fn balance_in(m: Map<Address, u64>, a: Address) -> nat {
    if m.contains_key(a) {
        m[a] as nat
    } else {
        0
    }
}

impl Ledger {
    /// Well-formedness: each address has at most one entry.
    pub closed spec fn wf(&self) -> bool {
        keys_distinct(self.entries@)
    }

    /// The sum of all balances.
    pub open spec fn total(&self) -> nat {
        map_total(self@)
    }

    /// The balances are finitely many, and their sum is that of the entries.
    proof fn lemma_total(&self)
        requires
            self.wf(),
        ensures
            self@.dom().finite(),
            self.total() == amount_sum(self.entries@),
    {
        lemma_amount_sum_is_map_total(self.entries@);
    }

    pub open spec fn balance_of(&self, a: Address) -> nat {
        balance_in(self@, a)
    }

    /// Every single balance is bounded by the total.
    pub proof fn lemma_balance_le_total(&self, a: Address)
        requires
            self.wf(),
        ensures
            self@.dom().finite(),
            self.balance_of(a) <= self.total(),
    {
        self.lemma_total();
        lemma_assoc_map_dom(self.entries@, a);
        if self@.contains_key(a) {
            let i = choose|i: int| 0 <= i < self.entries@.len() && self.entries@[i].0 == a;
            lemma_assoc_map_index(self.entries@, i);
            lemma_amount_sum_prefix(self.entries@, i);
        }
    }

    pub fn new() -> (l: Ledger)
        ensures
            l.wf(),
            l@ == Map::<Address, u64>::empty(),
            l.total() == 0,
    {
        let l = Ledger { entries: Vec::new() };
        proof {
            l.lemma_total();
        }
        l
    }

    fn find(&self, a: &Address) -> (r: Option<usize>)
        ensures
            match r {
                Some(i) => i < self.entries@.len() && self.entries@[i as int].0 == *a,
                None => forall|i: int| 0 <= i < self.entries@.len() ==> self.entries@[i].0 != *a,
            },
    {
        let mut i: usize = 0;
        while i < self.entries.len()
            invariant
                i <= self.entries@.len(),
                forall|j: int| 0 <= j < i ==> self.entries@[j].0 != *a,
            decreases self.entries@.len() - i,
        {
            if self.entries[i].0.same(a) {
                return Some(i);
            }
            i = i + 1;
        }
        None
    }

    /// Looks up the balance stored for an address.
    pub fn get(&self, a: &Address) -> (r: Option<u64>)
        requires
            self.wf(),
        ensures
            r == self@.get(*a),
    {
        proof {
            lemma_assoc_map_dom(self.entries@, *a);
        }
        match self.find(a) {
            Some(i) => {
                proof {
                    lemma_assoc_map_index(self.entries@, i as int);
                }
                Some(self.entries[i].1)
            },
            None => None,
        }
    }

    /// The balance of an address, zero when it has no entry.
    pub fn balance(&self, a: &Address) -> (r: u64)
        requires
            self.wf(),
        ensures
            r == self.balance_of(*a),
    {
        match self.get(a) {
            Some(v) => v,
            None => 0,
        }
    }

    /// Sets the balance of an address, creating its entry if needed.
    pub fn insert(&mut self, a: Address, v: u64)
        requires
            old(self).wf(),
        ensures
            final(self).wf(),
            final(self)@ == old(self)@.insert(a, v),
            final(self).total() == old(self).total() - old(self).balance_of(a) + v,
    {
        proof {
            lemma_assoc_map_dom(self.entries@, a);
            self.lemma_total();
            lemma_map_total_insert(self@, a, v);
        }
        match self.find(&a) {
            Some(i) => {
                proof {
                    lemma_assoc_map_index(self.entries@, i as int);
                    lemma_assoc_map_update(self.entries@, i as int, v);
                    lemma_amount_sum_update(self.entries@, i as int, (a, v));
                }
                self.entries.set(i, (a, v));
            },
            None => {
                proof {
                    lemma_assoc_map_push(self.entries@, (a, v));
                    lemma_amount_sum_push(self.entries@, (a, v));
                }
                self.entries.push((a, v));
                assert(keys_distinct(self.entries@));
            },
        }
    }

    /// Shares `reward` coins pro rata over a pool holding `total`, of which
    /// this ledger is a part: each balance `d` gains `floor(reward * d / total)`.
    pub fn share_reward(&mut self, reward: u64, total: u64)
        requires
            old(self).wf(),
            0 < total,
            old(self).total() <= total,
            total + reward <= u64::MAX,
        ensures
            final(self).wf(),
            final(self)@ == old(self)@.map_values(|d: u64| with_reward(d, reward, total)),
            old(self).total() <= final(self).total(),
            total as int * (final(self).total() - old(self).total()) <= reward as int * old(
                self,
            ).total(),
    {
        let ghost s0 = self.entries@;
        proof {
            self.lemma_total();
        }
        let mut i: usize = 0;
        while i < self.entries.len()
            invariant
                self.entries@.len() == s0.len(),
                i <= s0.len(),
                forall|j: int|
                    0 <= j < i ==> #[trigger] self.entries@[j] == (
                    s0[j].0,
                    with_reward(s0[j].1, reward, total),
                    ),
                forall|j: int| i <= j < s0.len() ==> #[trigger] self.entries@[j] == s0[j],
                keys_distinct(s0),
                amount_sum(s0) <= total,
                0 < total,
                total + reward <= u64::MAX,
            decreases s0.len() - i,
        {
            let (a, d) = self.entries[i];
            proof {
                lemma_amount_sum_prefix(s0, i as int);
                lemma_share_bounds(d, reward, total);
            }
            assert((reward as u128) * (d as u128) <= u128::MAX) by (nonlinear_arith)
                requires
                    reward <= u64::MAX,
                    d <= u64::MAX,
            ;
            let share = ((reward as u128) * (d as u128) / (total as u128)) as u64;
            self.entries.set(i, (a, d + share));
            i = i + 1;
        }
        let ghost f = |d: u64| with_reward(d, reward, total);
        assert forall|j: int| 0 <= j < s0.len() implies #[trigger] self.entries@[j] == (
        s0[j].0,
        f(s0[j].1),
        ) by {}
        proof {
            lemma_assoc_map_values(s0, self.entries@, f);
            lemma_amount_sum_reward(s0, self.entries@, reward, total);
        }
        assert(keys_distinct(self.entries@)) by {
            assert forall|p: int, q: int|
                0 <= p < self.entries@.len() && 0 <= q < self.entries@.len() && p != q implies self.entries@[p].0
                != self.entries@[q].0 by {
                assert(self.entries@[p].0 == s0[p].0);
                assert(self.entries@[q].0 == s0[q].0);
            }
        }
        proof {
            self.lemma_total();
        }
    }

    /// The sum of all balances, when it fits in a `u64`.
    pub fn total_amount(&self) -> (r: u64)
        requires
            self.wf(),
            self.total() <= u64::MAX,
        ensures
            r == self.total(),
    {
        proof {
            self.lemma_total();
        }
        let mut sum: u64 = 0;
        let mut i: usize = 0;
        while i < self.entries.len()
            invariant
                i <= self.entries@.len(),
                sum == amount_sum(self.entries@.take(i as int)),
                amount_sum(self.entries@) <= u64::MAX,
            decreases self.entries@.len() - i,
        {
            proof {
                lemma_amount_sum_prefix(self.entries@, i as int);
                lemma_amount_sum_prefix(self.entries@, i as int + 1);
            }
            sum = sum + self.entries[i].1;
            i = i + 1;
        }
        assert(self.entries@.take(i as int) =~= self.entries@);
        sum
    }
}

} // verus!
