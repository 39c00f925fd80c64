//! Delegated staking: coins delegated to validators, voting power, and the
//! per-block reward shared among delegators.

use vstd::prelude::*;
use crate::address::{
    lemma_precedes_asymmetric, lemma_precedes_irreflexive, lemma_precedes_transitive, precedes,
    Address, AddressOrder,
};
use crate::assoc::{
    assoc_map, keys_distinct, lemma_assoc_map_dom, lemma_assoc_map_index, lemma_assoc_map_insert,
    lemma_assoc_map_update,
};
use crate::ledger::{balance_in, with_reward, Ledger};
use crate::sums::{lemma_stake_total_empty, lemma_stake_total_insert, map_total, stake_total};

verus! {

/// The validator-set context of a block: the voting-power updates handed to
/// the consensus engine, in the order they were made.
pub struct Validators {
    updates: Vec<(Address, u64)>,
}

impl View for Validators {
    type V = Seq<(Address, u64)>;

    closed spec fn view(&self) -> Seq<(Address, u64)> {
        self.updates@
    }
}

impl Validators {
    pub fn new() -> (v: Validators)
        ensures
            v@ == Seq::<(Address, u64)>::empty(),
    {
        Validators { updates: Vec::new() }
    }

    /// Records that `address` now has voting power `power`.
    pub fn set_voting_power(&mut self, address: Address, power: u64)
        ensures
            final(self)@ == old(self)@.push((address, power)),
    {
        self.updates.push((address, power));
    }

    /// The updates recorded so far.
    pub fn updates(&self) -> (r: Vec<(Address, u64)>)
        ensures
            r@ == self@,
    {
        let mut r: Vec<(Address, u64)> = Vec::new();
        let mut i: usize = 0;
        while i < self.updates.len()
            invariant
                i <= self.updates@.len(),
                r@ == self.updates@.take(i as int),
            decreases self.updates@.len() - i,
        {
            r.push(self.updates[i]);
            i = i + 1;
            assert(r@ =~= self.updates@.take(i as int));
        }
        assert(self.updates@.take(i as int) =~= self.updates@);
        r
    }
}

/// Validators are kept in ascending address order, each with the ledger of
/// the coins delegated to it.
pub open spec fn vals_sorted(s: Seq<(Address, Ledger)>) -> bool {
    forall|i: int, j: int| 0 <= i < j < s.len() ==> precedes(#[trigger] s[i].0, #[trigger] s[j].0)
}

pub open spec fn vals_wf(s: Seq<(Address, Ledger)>) -> bool {
    forall|i: int| 0 <= i < s.len() ==> (#[trigger] s[i]).1.wf()
}

/// All coins staked with the validators of a list.
pub open spec fn staked_sum(s: Seq<(Address, Ledger)>) -> nat
    decreases s.len(),
{
    if s.len() == 0 {
        0
    } else {
        staked_sum(s.drop_last()) + s.last().1.total()
    }
}

proof fn lemma_sorted_distinct(s: Seq<(Address, Ledger)>)
    requires
        vals_sorted(s),
    ensures
        keys_distinct(s),
{
    assert forall|i: int, j: int| 0 <= i < s.len() && 0 <= j < s.len() && i != j implies s[i].0
        != s[j].0 by {
        if i < j {
            lemma_precedes_asymmetric(s[i].0, s[j].0);
        } else {
            lemma_precedes_asymmetric(s[j].0, s[i].0);
        }
    }
}

proof fn lemma_staked_sum_update(s: Seq<(Address, Ledger)>, i: int, e: (Address, Ledger))
    requires
        0 <= i < s.len(),
    ensures
        staked_sum(s.update(i, e)) == staked_sum(s) - s[i].1.total() + e.1.total(),
    decreases s.len(),
{
    let u = s.update(i, e);
    if i == s.len() - 1 {
        assert(u.drop_last() =~= s.drop_last());
    } else {
        lemma_staked_sum_update(s.drop_last(), i, e);
        assert(u.drop_last() =~= s.drop_last().update(i, e));
    }
}

proof fn lemma_staked_sum_insert(s: Seq<(Address, Ledger)>, i: int, e: (Address, Ledger))
    requires
        0 <= i <= s.len(),
    ensures
        staked_sum(s.insert(i, e)) == staked_sum(s) + e.1.total(),
    decreases s.len(),
{
    let u = s.insert(i, e);
    if i == s.len() {
        assert(u.drop_last() =~= s);
    } else {
        lemma_staked_sum_insert(s.drop_last(), i, e);
        assert(u.drop_last() =~= s.drop_last().insert(i, e));
        assert(u.last() == s.last());
    }
}

proof fn lemma_staked_sum_prefix(s: Seq<(Address, Ledger)>, i: int)
    requires
        0 <= i <= s.len(),
    ensures
        staked_sum(s.take(i)) <= staked_sum(s),
        i < s.len() ==> staked_sum(s.take(i + 1)) == staked_sum(s.take(i)) + s[i].1.total(),
        i < s.len() ==> s[i].1.total() <= staked_sum(s),
    decreases s.len(),
{
    if i < s.len() {
        assert(s.take(i + 1).drop_last() =~= s.take(i));
    }
    if s.len() > 0 {
        if i == s.len() {
            assert(s.take(i) =~= s);
        } else {
            lemma_staked_sum_prefix(s.drop_last(), i);
            assert(s.drop_last().take(i) =~= s.take(i));
            if i < s.len() - 1 {
                assert(s.drop_last().take(i + 1) =~= s.take(i + 1));
                lemma_staked_sum_prefix(s.drop_last(), i + 1);
            } else {
                assert(s.take(i + 1) =~= s);
            }
        }
    }
}

/// Sharing a reward in each ledger of a pool raises the pool's sum by at
/// most `reward` times the old sum over `total`.
proof fn lemma_staked_sum_reward(
    s: Seq<(Address, Ledger)>,
    t: Seq<(Address, Ledger)>,
    reward: u64,
    total: u64,
)
    requires
        t.len() == s.len(),
        forall|i: int|
            0 <= i < s.len() ==> #[trigger] s[i].1.total() <= t[i].1.total() && total as int * (
            t[i].1.total() - s[i].1.total()) <= reward as int * s[i].1.total(),
    ensures
        staked_sum(s) <= staked_sum(t),
        total as int * (staked_sum(t) - staked_sum(s)) <= reward as int * staked_sum(s),
    decreases s.len(),
{
    if s.len() > 0 {
        let sd = s.drop_last();
        let td = t.drop_last();
        assert forall|i: int| 0 <= i < sd.len() implies #[trigger] sd[i].1.total() <= td[i].1.total()
            && total as int * (td[i].1.total() - sd[i].1.total()) <= reward as int * sd[i].1.total() by {
            assert(sd[i] == s[i]);
            assert(td[i] == t[i]);
        }
        lemma_staked_sum_reward(sd, td, reward, total);
        let last = s.len() - 1;
        assert(s[last] == s.last());
        assert(t[last] == t.last());
        assert(s[last].1.total() <= t[last].1.total());
        let a = staked_sum(td) - staked_sum(sd);
        let b = staked_sum(sd) as int;
        let x = t.last().1.total() - s.last().1.total();
        let y = s.last().1.total() as int;
        assert(total as int * (a + x) <= reward as int * (b + y)) by (nonlinear_arith)
            requires
                total as int * a <= reward as int * b,
                total as int * x <= reward as int * y,
        ;
        assert(staked_sum(t) - staked_sum(s) == a + x);
        assert(staked_sum(s) == b + y);
        assert(total as int * (staked_sum(t) - staked_sum(s)) <= reward as int * staked_sum(s));
    } else {
        assert(staked_sum(t) == 0);
        assert(staked_sum(s) == 0);
    }
}

proof fn lemma_staked_sum_is_stake_total(s: Seq<(Address, Ledger)>)
    requires
        keys_distinct(s),
    ensures
        assoc_map(s).map_values(|l: Ledger| l@).dom().finite(),
        staked_sum(s) == stake_total(assoc_map(s).map_values(|l: Ledger| l@)),
    decreases s.len(),
{
    let m = assoc_map(s).map_values(|l: Ledger| l@);
    if s.len() == 0 {
        assert(m =~= Map::<Address, Map<Address, u64>>::empty());
        lemma_stake_total_empty();
    } else {
        let t = s.drop_last();
        assert(keys_distinct(t));
        lemma_staked_sum_is_stake_total(t);
        let mt = assoc_map(t).map_values(|l: Ledger| l@);
        lemma_assoc_map_dom(t, s.last().0);
        if assoc_map(t).contains_key(s.last().0) {
            let i = choose|i: int| 0 <= i < t.len() && t[i].0 == s.last().0;
            assert(s[i] == t[i]);
            assert(s[s.len() - 1] == s.last());
        }
        assert(m =~= mt.insert(s.last().0, s.last().1@));
        lemma_stake_total_insert(mt, s.last().0, s.last().1@);
    }
}

/// The stake of the network: how much each delegator has delegated to each
/// validator, and the voting power each staked coin carries.
pub struct Staking {
    vp_per_coin: u64,
    undistributed: u64,
    validators: Vec<(Address, Ledger)>,
}

impl View for Staking {
    /// For each validator, the coins each delegator has delegated to it.
    type V = Map<Address, Map<Address, u64>>;

    closed spec fn view(&self) -> Map<Address, Map<Address, u64>> {
        assoc_map(self.validators@).map_values(|l: Ledger| l@)
    }
}

/// The coins `delegator` has delegated to `validator` in a stake map.
pub open spec fn delegation_in(m: Map<Address, Map<Address, u64>>, validator: Address, delegator: Address) -> nat {
    if m.contains_key(validator) {
        balance_in(m[validator], delegator)
    } else {
        0
    }
}

/// The stakes after `delegator` adds `amount` to what it has delegated to `validator`.
pub open spec fn delegated(
    m: Map<Address, Map<Address, u64>>,
    validator: Address,
    delegator: Address,
    amount: u64,
) -> Map<Address, Map<Address, u64>> {
    let inner = if m.contains_key(validator) {
        m[validator]
    } else {
        Map::empty()
    };
    m.insert(validator, inner.insert(delegator, (balance_in(inner, delegator) + amount) as u64))
}

/// The stakes after `reward` coins are shared pro rata over all `total` staked coins.
pub open spec fn rewarded(m: Map<Address, Map<Address, u64>>, reward: u64, total: u64) -> Map<
    Address,
    Map<Address, u64>,
> {
    m.map_values(|dm: Map<Address, u64>| dm.map_values(|d: u64| with_reward(d, reward, total)))
}

impl Staking {
    /// Validators sorted and distinct, each ledger well formed, and the whole
    /// stake fitting in 64 bits (as the pool's balance does).
    pub closed spec fn wf(&self) -> bool {
        &&& vals_sorted(self.validators@)
        &&& vals_wf(self.validators@)
        &&& staked_sum(self.validators@) + self.undistributed <= u64::MAX
    }

    /// Reward coins held by the pool that no delegation has been credited with yet.
    pub closed spec fn undistributed(&self) -> u64 {
        self.undistributed
    }

    /// The voting power each staked coin carries.
    pub closed spec fn coin_power(&self) -> u64 {
        self.vp_per_coin
    }

    /// The balance of the validator pool: all delegated coins and the reward
    /// coins not yet credited to a delegation.
    pub open spec fn total_staked(&self) -> nat {
        stake_total(self@) + self.undistributed() as nat
    }

    /// The coins staked with `validator`.
    pub open spec fn validator_stake(&self, validator: Address) -> nat {
        if self@.contains_key(validator) {
            map_total(self@[validator])
        } else {
            0
        }
    }

    /// The validators are finitely many, and all they hold is the sum over the list.
    proof fn lemma_total_staked(&self)
        requires
            vals_sorted(self.validators@),
        ensures
            self@.dom().finite(),
            stake_total(self@) == staked_sum(self.validators@),
    {
        lemma_sorted_distinct(self.validators@);
        lemma_staked_sum_is_stake_total(self.validators@);
    }

    /// The coins `delegator` has delegated to `validator`.
    pub open spec fn delegation_of(&self, validator: Address, delegator: Address) -> nat {
        delegation_in(self@, validator, delegator)
    }

    /// A validator's stake is part of the whole stake.
    pub proof fn lemma_validator_stake_le_total(&self, validator: Address)
        requires
            self.wf(),
        ensures
            self.validator_stake(validator) <= self.total_staked(),
    {
        let s = self.validators@;
        self.lemma_total_staked();
        lemma_sorted_distinct(s);
        lemma_assoc_map_dom(s, validator);
        if assoc_map(s).contains_key(validator) {
            let i = choose|i: int| 0 <= i < s.len() && s[i].0 == validator;
            lemma_assoc_map_index(s, i);
            lemma_staked_sum_prefix(s, i);
        }
    }

    /// One delegation is part of its validator's stake, which is part of the
    /// pool; the validators and each validator's delegators are finitely many.
    pub proof fn lemma_delegation_le_stake(&self, validator: Address, delegator: Address)
        requires
            self.wf(),
        ensures
            self@.dom().finite(),
            self@.contains_key(validator) ==> self@[validator].dom().finite(),
            self.delegation_of(validator, delegator) <= self.validator_stake(validator),
            self.validator_stake(validator) <= self.total_staked(),
    {
        let s = self.validators@;
        self.lemma_total_staked();
        self.lemma_validator_stake_le_total(validator);
        lemma_sorted_distinct(s);
        lemma_assoc_map_dom(s, validator);
        if assoc_map(s).contains_key(validator) {
            let i = choose|i: int| 0 <= i < s.len() && s[i].0 == validator;
            lemma_assoc_map_index(s, i);
            assert(s[i].1.wf());
            s[i].1.lemma_balance_le_total(delegator);
        }
    }

    /// A staking state with no validators, in which a coin carries no voting power.
    pub fn new() -> (st: Staking)
        ensures
            st.wf(),
            st@ == Map::<Address, Map<Address, u64>>::empty(),
            st.total_staked() == 0,
            forall|v: Address| st.validator_stake(v) == 0,
            st.coin_power() == 0,
    {
        let st = Staking { vp_per_coin: 0, undistributed: 0, validators: Vec::new() };
        assert(st@ =~= Map::<Address, Map<Address, u64>>::empty());
        st
    }

    /// Where `validator` is kept, or where it would be inserted.
    fn locate(&self, validator: &Address) -> (r: (bool, usize))
        requires
            vals_sorted(self.validators@),
        ensures
            r.1 <= self.validators@.len(),
            r.0 ==> r.1 < self.validators@.len() && self.validators@[r.1 as int].0 == *validator,
            !r.0 ==> forall|j: int| 0 <= j < r.1 ==> precedes(self.validators@[j].0, *validator),
            !r.0 ==> forall|j: int|
                r.1 <= j < self.validators@.len() ==> precedes(*validator, self.validators@[j].0),
            !r.0 ==> !assoc_map(self.validators@).contains_key(*validator),
    {
        let ghost s = self.validators@;
        let mut i: usize = 0;
        while i < self.validators.len()
            invariant
                i <= s.len(),
                s == self.validators@,
                vals_sorted(s),
                forall|j: int| 0 <= j < i ==> precedes(s[j].0, *validator),
            decreases s.len() - i,
        {
            match validator.compare_to(&self.validators[i].0) {
                AddressOrder::Same => {
                    return (true, i);
                },
                AddressOrder::Before => {
                    assert forall|j: int| i <= j < s.len() implies precedes(*validator, s[j].0) by {
                        if j > i {
                            lemma_precedes_transitive(*validator, s[i as int].0, s[j].0);
                        }
                    }
                    proof {
                        self.lemma_absent_between(validator, i as int);
                    }
                    return (false, i);
                },
                AddressOrder::After => {},
            }
            i = i + 1;
        }
        proof {
            self.lemma_absent_between(validator, i as int);
        }
        (false, i)
    }

    proof fn lemma_absent_between(&self, validator: &Address, i: int)
        requires
            0 <= i <= self.validators@.len(),
            forall|j: int| 0 <= j < i ==> precedes(self.validators@[j].0, *validator),
            forall|j: int| i <= j < self.validators@.len() ==> precedes(*validator, self.validators@[j].0),
        ensures
            !assoc_map(self.validators@).contains_key(*validator),
    {
        let s = self.validators@;
        lemma_assoc_map_dom(s, *validator);
        if assoc_map(s).contains_key(*validator) {
            let k = choose|k: int| 0 <= k < s.len() && s[k].0 == *validator;
            lemma_precedes_irreflexive(*validator);
        }
    }

    /// The voting power each staked coin carries.
    pub fn vp_per_coin(&self) -> (r: u64)
        ensures
            r == self.coin_power(),
    {
        self.vp_per_coin
    }

    /// Sets the voting power each staked coin carries.
    pub fn set_vp_per_coin(&mut self, vp_per_coin: u64)
        requires
            old(self).wf(),
        ensures
            final(self).wf(),
            final(self)@ == old(self)@,
            final(self).total_staked() == old(self).total_staked(),
            forall|v: Address| final(self).validator_stake(v) == old(self).validator_stake(v),
            final(self).coin_power() == vp_per_coin,
    {
        self.vp_per_coin = vp_per_coin;
    }

    /// The balance of the validator pool: all delegated coins and the reward
    /// coins not yet credited to a delegation.
    pub fn total(&self) -> (r: u64)
        requires
            self.wf(),
        ensures
            r == self.total_staked(),
    {
        proof {
            self.lemma_total_staked();
        }
        self.delegated_total() + self.undistributed
    }

    /// All coins credited to delegations.
    fn delegated_total(&self) -> (r: u64)
        requires
            vals_wf(self.validators@),
            staked_sum(self.validators@) <= u64::MAX,
        ensures
            r == staked_sum(self.validators@),
    {
        let ghost s = self.validators@;
        let mut sum: u64 = 0;
        let mut i: usize = 0;
        while i < self.validators.len()
            invariant
                i <= s.len(),
                s == self.validators@,
                vals_wf(s),
                staked_sum(s) <= u64::MAX,
                sum == staked_sum(s.take(i as int)),
            decreases s.len() - i,
        {
            proof {
                lemma_staked_sum_prefix(s, i as int);
                lemma_staked_sum_prefix(s, i as int + 1);
                assert(s[i as int].1.wf());
            }
            let t = self.validators[i].1.total_amount();
            sum = sum + t;
            i = i + 1;
        }
        assert(s.take(i as int) =~= s);
        sum
    }
}

/// `list` names, in ascending address order, every validator to which
/// `delegator` has delegated a nonzero amount, each with that amount.
pub open spec fn lists_delegations(
    m: Map<Address, Map<Address, u64>>,
    delegator: Address,
    list: Seq<(Address, u64)>,
) -> bool {
    &&& forall|k: int|
        0 <= k < list.len() ==> {
            &&& m.contains_key(#[trigger] list[k].0)
            &&& list[k].1 == balance_in(m[list[k].0], delegator)
            &&& list[k].1 > 0
        }
    &&& forall|v: Address|
        #[trigger] m.contains_key(v) && balance_in(m[v], delegator) > 0 ==> exists|k: int|
            0 <= k < list.len() && list[k].0 == v
    &&& forall|k: int, l: int|
        0 <= k < l < list.len() ==> precedes(#[trigger] list[k].0, #[trigger] list[l].0)
}

/// Entry `e` is the delegation of `delegator` to one of the first `i` validators of `s`.
spec fn drawn_from(s: Seq<(Address, Ledger)>, i: int, delegator: Address, e: (Address, u64)) -> bool {
    exists|j: int| 0 <= j < i && #[trigger] s[j].0 == e.0 && e.1 == s[j].1.balance_of(delegator)
}

/// Validator `j` of `s` appears in `list`.
spec fn listed(list: Seq<(Address, u64)>, s: Seq<(Address, Ledger)>, j: int) -> bool {
    exists|k: int| 0 <= k < list.len() && #[trigger] list[k].0 == s[j].0
}

impl Staking {
    /// The validators to which `delegator` has delegated a nonzero amount,
    /// in ascending address order, each with that amount.
    pub fn delegations_of(&self, delegator: &Address) -> (r: Vec<(Address, u64)>)
        requires
            self.wf(),
        ensures
            lists_delegations(self@, *delegator, r@),
    {
        let ghost s = self.validators@;
        proof {
            lemma_sorted_distinct(s);
        }
        let mut r: Vec<(Address, u64)> = Vec::new();
        let mut i: usize = 0;
        while i < self.validators.len()
            invariant
                s == self.validators@,
                i <= s.len(),
                vals_sorted(s),
                vals_wf(s),
                forall|k: int|
                    0 <= k < r@.len() ==> drawn_from(s, i as int, *delegator, #[trigger] r@[k])
                        && r@[k].1 > 0,
                forall|k: int, j: int|
                    0 <= k < r@.len() && i <= j < s.len() ==> precedes(
                        #[trigger] r@[k].0,
                        #[trigger] s[j].0,
                    ),
                forall|k: int, l: int|
                    0 <= k < l < r@.len() ==> precedes(#[trigger] r@[k].0, #[trigger] r@[l].0),
                forall|j: int|
                    0 <= j < i ==> (#[trigger] s[j]).1.balance_of(*delegator) > 0 ==> listed(
                        r@,
                        s,
                        j,
                    ),
            decreases s.len() - i,
        {
            proof {
                assert(s[i as int].1.wf());
            }
            let amt = self.validators[i].1.balance(delegator);
            let ghost r0 = r@;
            if amt != 0 {
                r.push((self.validators[i].0, amt));
                proof {
                    assert forall|k: int, l: int| 0 <= k < l < r@.len() implies precedes(
                        #[trigger] r@[k].0,
                        #[trigger] r@[l].0,
                    ) by {
                        if l == r0.len() {
                            assert(r@[k] == r0[k]);
                            assert(precedes(r0[k].0, s[i as int].0));
                        } else {
                            assert(r@[k] == r0[k]);
                            assert(r@[l] == r0[l]);
                        }
                    }
                }
            }
            proof {
                assert forall|k: int| 0 <= k < r@.len() implies drawn_from(
                    s,
                    i + 1,
                    *delegator,
                    #[trigger] r@[k],
                ) && r@[k].1 > 0 by {
                    if k < r0.len() {
                        assert(r@[k] == r0[k]);
                        assert(drawn_from(s, i as int, *delegator, r0[k]));
                        let j = choose|j: int|
                            0 <= j < i && #[trigger] s[j].0 == r0[k].0 && r0[k].1 == s[j].1.balance_of(
                                *delegator,
                            );
                        assert(s[j].0 == r@[k].0);
                    } else {
                        assert(s[i as int].0 == r@[k].0);
                    }
                }
                assert forall|k: int, j: int| 0 <= k < r@.len() && i + 1 <= j < s.len() implies precedes(
                    #[trigger] r@[k].0,
                    #[trigger] s[j].0,
                ) by {
                    if k < r0.len() {
                        assert(r@[k] == r0[k]);
                    } else {
                        assert(precedes(s[i as int].0, s[j].0));
                    }
                }
                assert forall|j: int|
                    0 <= j < i + 1 && (#[trigger] s[j]).1.balance_of(*delegator) > 0 implies listed(
                    r@,
                    s,
                    j,
                ) by {
                    if j < i {
                        assert(listed(r0, s, j));
                        let k = choose|k: int| 0 <= k < r0.len() && #[trigger] r0[k].0 == s[j].0;
                        assert(r@[k] == r0[k]);
                    } else {
                        assert(r@[r0.len() as int].0 == s[j].0);
                    }
                }
            }
            i = i + 1;
        }
        proof {
            let m = self@;
            assert forall|k: int| 0 <= k < r@.len() implies {
                &&& m.contains_key(#[trigger] r@[k].0)
                &&& r@[k].1 == balance_in(m[r@[k].0], *delegator)
                &&& r@[k].1 > 0
            } by {
                assert(drawn_from(s, i as int, *delegator, r@[k]));
                let j = choose|j: int|
                    0 <= j < i && #[trigger] s[j].0 == r@[k].0 && r@[k].1 == s[j].1.balance_of(*delegator);
                lemma_assoc_map_index(s, j);
            }
            assert forall|v: Address| #[trigger] m.contains_key(v) && balance_in(m[v], *delegator)
                > 0 implies exists|k: int| 0 <= k < r@.len() && r@[k].0 == v by {
                lemma_assoc_map_dom(s, v);
                let j = choose|j: int| 0 <= j < s.len() && s[j].0 == v;
                lemma_assoc_map_index(s, j);
                assert(s[j].1.balance_of(*delegator) > 0);
                assert(listed(r@, s, j));
                let k = choose|k: int| 0 <= k < r@.len() && #[trigger] r@[k].0 == s[j].0;
                assert(r@[k].0 == v);
            }
        }
        r
    }

    /// The coins staked with `validator`.
    pub fn stake_of(&self, validator: &Address) -> (r: u64)
        requires
            self.wf(),
        ensures
            r == self.validator_stake(*validator),
    {
        let ghost s = self.validators@;
        proof {
            self.lemma_validator_stake_le_total(*validator);
        }
        let (found, i) = self.locate(validator);
        if found {
            proof {
                lemma_sorted_distinct(s);
                lemma_assoc_map_index(s, i as int);
                assert(s[i as int].1.wf());
                self.lemma_total_staked();
                lemma_staked_sum_prefix(s, i as int);
            }
            self.validators[i].1.total_amount()
        } else {
            0
        }
    }

    /// Adds `amount` to the coins `delegator` has delegated to `validator`,
    /// creating the validator's entry if it has none.
    pub(crate) fn delegate_to(&mut self, validator: Address, delegator: Address, amount: u64)
        requires
            old(self).wf(),
            old(self).total_staked() + amount <= u64::MAX,
        ensures
            final(self).wf(),
            final(self)@ == delegated(old(self)@, validator, delegator, amount),
            final(self).total_staked() == old(self).total_staked() + amount,
            final(self).validator_stake(validator) == old(self).validator_stake(validator)
                + amount,
            final(self).coin_power() == old(self).coin_power(),
    {
        let ghost s = self.validators@;
        let ghost old_view = self@;
        proof {
            lemma_sorted_distinct(s);
            self.lemma_total_staked();
        }
        let (found, i) = self.locate(&validator);
        if found {
            proof {
                lemma_assoc_map_index(s, i as int);
                lemma_staked_sum_prefix(s, i as int);
                assert(s[i as int].1.wf());
            }
            let mut entry = (validator, Ledger::new());
            self.validators.set_and_swap(i, &mut entry);
            assert(entry == s[i as int]);
            let d = entry.1.balance(&delegator);
            proof {
                entry.1.lemma_balance_le_total(delegator);
            }
            let ghost before = entry.1;
            entry.1.insert(delegator, d + amount);
            self.validators.set(i, entry);
            proof {
                lemma_assoc_map_update(s, i as int, entry.1);
                lemma_staked_sum_update(s, i as int, entry);
                assert(self.validators@ =~= s.update(i as int, (s[i as int].0, entry.1)));
                assert(vals_sorted(self.validators@));
                assert(vals_wf(self.validators@));
                assert(old_view.contains_key(validator));
                assert(old_view[validator] == before@);
                assert(self@ =~= delegated(old_view, validator, delegator, amount));
                self.lemma_total_staked();
            }
        } else {
            let mut l = Ledger::new();
            l.insert(delegator, amount);
            let ghost e = (validator, l);
            self.validators.insert(i, (validator, l));
            proof {
                lemma_assoc_map_insert(s, i as int, e);
                lemma_staked_sum_insert(s, i as int, e);
                let u = self.validators@;
                assert(u =~= s.insert(i as int, e));
                assert forall|p: int, q: int| 0 <= p < q < u.len() implies precedes(
                    #[trigger] u[p].0,
                    #[trigger] u[q].0,
                ) by {
                    if q < i {
                    } else if q == i {
                    } else if p < i {
                        assert(u[q] == s[q - 1]);
                        lemma_precedes_transitive(u[p].0, validator, u[q].0);
                    } else if p == i {
                        assert(u[q] == s[q - 1]);
                    } else {
                        assert(u[p] == s[p - 1]);
                        assert(u[q] == s[q - 1]);
                    }
                }
                assert(vals_wf(u));
                assert(!old_view.contains_key(validator));
                assert(l@ =~= Map::<Address, u64>::empty().insert(delegator, amount));
                assert(self@ =~= delegated(old_view, validator, delegator, amount));
                self.lemma_total_staked();
            }
        }
    }

    /// Gives `reward` coins to the pool, whose balance is `total`: each
    /// delegation `d` is credited `floor(reward * d / total)`, and what the
    /// roundings leave stays in the pool undistributed.
    pub(crate) fn share_reward(&mut self, reward: u64, total: u64)
        requires
            old(self).wf(),
            old(self).total_staked() == total,
            0 < total,
            total + reward <= u64::MAX,
        ensures
            final(self).wf(),
            final(self)@ == rewarded(old(self)@, reward, total),
            final(self).total_staked() == old(self).total_staked() + reward,
            stake_total(old(self)@) <= stake_total(final(self)@),
            final(self).coin_power() == old(self).coin_power(),
    {
        let ghost s0 = self.validators@;
        let ghost f = |d: u64| with_reward(d, reward, total);
        proof {
            lemma_sorted_distinct(s0);
            self.lemma_total_staked();
        }
        let mut i: usize = 0;
        while i < self.validators.len()
            invariant
                self.validators@.len() == s0.len(),
                i <= s0.len(),
                self.vp_per_coin == old(self).vp_per_coin,
                s0 == old(self).validators@,
                vals_wf(s0),
                staked_sum(s0) + self.undistributed == total,
                self.undistributed == old(self).undistributed,
                0 < total,
                total + reward <= u64::MAX,
                f == (|d: u64| with_reward(d, reward, total)),
                forall|j: int|
                    0 <= j < i ==> {
                        &&& (#[trigger] self.validators@[j]).0 == s0[j].0
                        &&& self.validators@[j].1.wf()
                        &&& self.validators@[j].1@ == s0[j].1@.map_values(f)
                        &&& s0[j].1.total() <= self.validators@[j].1.total()
                        &&& total as int * (self.validators@[j].1.total() - s0[j].1.total())
                            <= reward as int * s0[j].1.total()
                    },
                forall|j: int| i <= j < s0.len() ==> #[trigger] self.validators@[j] == s0[j],
            decreases s0.len() - i,
        {
            proof {
                lemma_staked_sum_prefix(s0, i as int);
                assert(s0[i as int].1.wf());
            }
            let mut entry = (self.validators[i].0, Ledger::new());
            self.validators.set_and_swap(i, &mut entry);
            entry.1.share_reward(reward, total);
            self.validators.set(i, entry);
            i = i + 1;
        }
        let ghost t = self.validators@;
        proof {
            lemma_staked_sum_reward(s0, t, reward, total);
            let a = staked_sum(t) - staked_sum(s0);
            let o = staked_sum(s0) as int;
            assert(a <= reward) by (nonlinear_arith)
                requires
                    total as int * a <= reward as int * o,
                    0 <= o <= total,
                    0 <= reward,
                    0 < total,
            ;
            assert(vals_sorted(t));
            assert(vals_wf(t));
            lemma_sorted_distinct(t);
            let old_view = assoc_map(s0).map_values(|l: Ledger| l@);
            assert forall|k: Address| #[trigger] self@.contains_key(k) == old_view.contains_key(k) by {
                lemma_assoc_map_dom(s0, k);
                lemma_assoc_map_dom(t, k);
                if exists|j: int| 0 <= j < t.len() && t[j].0 == k {
                    let j = choose|j: int| 0 <= j < t.len() && t[j].0 == k;
                    assert(s0[j].0 == k);
                }
                if exists|j: int| 0 <= j < s0.len() && s0[j].0 == k {
                    let j = choose|j: int| 0 <= j < s0.len() && s0[j].0 == k;
                    assert(t[j].0 == k);
                }
            }
            assert forall|k: Address| #[trigger] self@.contains_key(k) implies self@[k]
                == old_view[k].map_values(f) by {
                lemma_assoc_map_dom(t, k);
                let j = choose|j: int| 0 <= j < t.len() && t[j].0 == k;
                lemma_assoc_map_index(t, j);
                lemma_assoc_map_index(s0, j);
            }
            assert(self@ =~= rewarded(old_view, reward, total));
        }
        let credited = self.delegated_total();
        self.undistributed = (total + reward) - credited;
        proof {
            self.lemma_total_staked();
        }
    }
}

} // verus!
