//! Properties of the ledger that span its operations.

use vstd::prelude::*;
use crate::address::{lemma_precedes_asymmetric, Address};
use crate::net::{delegate_effect, FreshNet};
use crate::staking::Validators;
use crate::error::Error;
use crate::encoding::{lemma_std_encoding_len, parses_to, std_encoding};
use crate::coin::transferred;
use crate::ledger::{balance_in, with_reward};
use crate::staking::{delegated, delegation_in, lists_delegations, rewarded};
use crate::sums::{lemma_map_total_insert, lemma_stake_total_insert, map_total, stake_total};

verus! {

/// A transfer between two different accounts debits the sender by the
/// amount, credits the receiver by the amount, and leaves every other
/// balance as it was.
pub proof fn law_transfer_moves_amount(
    m: Map<Address, u64>,
    from: Address,
    to: Address,
    amount: u64,
    other: Address,
)
    requires
        from != to,
        balance_in(m, from) >= amount,
        balance_in(m, to) + amount <= u64::MAX,
    ensures
        balance_in(transferred(m, from, to, amount), from) == balance_in(m, from) - amount,
        balance_in(transferred(m, from, to, amount), to) == balance_in(m, to) + amount,
        other != from && other != to ==> balance_in(transferred(m, from, to, amount), other)
            == balance_in(m, other),
{
}

/// A transfer neither creates nor destroys coins.
pub proof fn law_transfer_conserves_supply(
    m: Map<Address, u64>,
    from: Address,
    to: Address,
    amount: u64,
)
    requires
        m.dom().finite(),
        balance_in(m, from) >= amount,
        from != to ==> balance_in(m, to) + amount <= u64::MAX,
    ensures
        map_total(transferred(m, from, to, amount)) == map_total(m),
{
    let m1 = m.insert(from, (balance_in(m, from) - amount) as u64);
    lemma_map_total_insert(m, from, (balance_in(m, from) - amount) as u64);
    lemma_map_total_insert(m1, to, (balance_in(m1, to) + amount) as u64);
}

/// Delegating adds exactly the amount to the whole stake.
pub proof fn law_delegation_adds_to_stake(
    m: Map<Address, Map<Address, u64>>,
    validator: Address,
    delegator: Address,
    amount: u64,
)
    requires
        m.dom().finite(),
        m.contains_key(validator) ==> m[validator].dom().finite(),
        delegation_in(m, validator, delegator) + amount <= u64::MAX,
    ensures
        stake_total(delegated(m, validator, delegator, amount)) == stake_total(m) + amount,
{
    let inner = if m.contains_key(validator) {
        m[validator]
    } else {
        Map::empty()
    };
    assert(inner.dom().finite()) by {
        if !m.contains_key(validator) {
            assert(inner.dom() =~= Set::<Address>::empty());
        }
    }
    if !m.contains_key(validator) {
        assert(inner.dom() =~= Set::<Address>::empty());
        assert(map_total(inner) == 0);
    }
    let b = balance_in(inner, delegator);
    lemma_map_total_insert(inner, delegator, (b + amount) as u64);
    lemma_stake_total_insert(m, validator, inner.insert(delegator, (b + amount) as u64));
}

/// A transfer to oneself leaves every balance as it was.
pub proof fn law_self_transfer_changes_no_balance(
    m: Map<Address, u64>,
    a: Address,
    amount: u64,
    other: Address,
)
    requires
        balance_in(m, a) >= amount,
    ensures
        balance_in(transferred(m, a, a, amount), other) == balance_in(m, other),
{
}

/// Sending an amount back undoes a transfer: every balance is as it was.
pub proof fn law_transfer_back_restores_balances(
    m: Map<Address, u64>,
    a: Address,
    b: Address,
    amount: u64,
    other: Address,
)
    requires
        balance_in(m, a) >= amount,
        a != b ==> balance_in(m, b) + amount <= u64::MAX,
    ensures
        balance_in(transferred(transferred(m, a, b, amount), b, a, amount), other) == balance_in(
            m,
            other,
        ),
{
}

/// Delegating adds the amount to that one delegation and to no other.
pub proof fn law_delegation_adds_amount(
    m: Map<Address, Map<Address, u64>>,
    validator: Address,
    delegator: Address,
    amount: u64,
    v: Address,
    d: Address,
)
    requires
        delegation_in(m, validator, delegator) + amount <= u64::MAX,
    ensures
        delegation_in(delegated(m, validator, delegator, amount), v, d) == if v == validator && d
            == delegator {
            delegation_in(m, validator, delegator) + amount
        } else {
            delegation_in(m, v, d) as int
        },
{
}

/// After a nonzero delegation, the delegator's list of delegations names the
/// validator with the delegation's new amount.
pub proof fn law_delegated_validator_is_listed(
    m: Map<Address, Map<Address, u64>>,
    validator: Address,
    delegator: Address,
    amount: u64,
    list: Seq<(Address, u64)>,
)
    requires
        0 < amount,
        delegation_in(m, validator, delegator) + amount <= u64::MAX,
        lists_delegations(delegated(m, validator, delegator, amount), delegator, list),
    ensures
        exists|k: int|
            0 <= k < list.len() && list[k].0 == validator && list[k].1 == delegation_in(
                m,
                validator,
                delegator,
            ) + amount,
{
    let m2 = delegated(m, validator, delegator, amount);
    assert(m2.contains_key(validator));
    let k = choose|k: int| 0 <= k < list.len() && list[k].0 == validator;
    assert(list[k].1 == balance_in(m2[list[k].0], delegator));
}

/// After a successful nonzero delegation, the delegator's list of
/// delegations names the validator exactly once, with its earlier delegation
/// plus the amount.
pub proof fn law_delegate_then_list(
    before: FreshNet,
    after: FreshNet,
    ctx_before: Option<Validators>,
    ctx_after: Option<Validators>,
    delegator: Address,
    validator: Address,
    amount: u64,
    list: Seq<(Address, u64)>,
)
    requires
        before.wf(),
        0 < amount,
        delegate_effect(
            before,
            after,
            ctx_before,
            ctx_after,
            delegator,
            validator,
            amount,
            Ok::<(), Error>(()),
        ),
        lists_delegations(after.stake()@, delegator, list),
    ensures
        exists|k: int|
            0 <= k < list.len() && list[k] == (
            validator,
            (before.stake().delegation_of(validator, delegator) + amount) as u64,
            ),
        forall|k: int, l: int|
            0 <= k < list.len() && 0 <= l < list.len() && list[k].0 == validator && list[l].0
                == validator ==> k == l,
{
    before.stake().lemma_delegation_le_stake(validator, delegator);
    law_delegated_validator_is_listed(before.stake()@, validator, delegator, amount, list);
    let k = choose|k: int|
        0 <= k < list.len() && list[k].0 == validator && list[k].1 == delegation_in(
            before.stake()@,
            validator,
            delegator,
        ) + amount;
    assert(list[k] == (validator, (before.stake().delegation_of(validator, delegator) + amount) as u64));
    assert forall|p: int, q: int|
        0 <= p < list.len() && 0 <= q < list.len() && list[p].0 == validator && list[q].0
            == validator implies p == q by {
        if p < q {
            lemma_precedes_asymmetric(list[p].0, list[q].0);
        } else if q < p {
            lemma_precedes_asymmetric(list[q].0, list[p].0);
        }
    }
}

/// Sharing a block reward never shrinks a delegation, and grows it by no
/// more than the reward.
pub proof fn law_reward_never_shrinks_delegation(
    m: Map<Address, Map<Address, u64>>,
    reward: u64,
    total: u64,
    v: Address,
    d: Address,
)
    requires
        0 < total,
        delegation_in(m, v, d) <= total,
        total + reward <= u64::MAX,
    ensures
        delegation_in(m, v, d) <= delegation_in(rewarded(m, reward, total), v, d),
        delegation_in(rewarded(m, reward, total), v, d) <= delegation_in(m, v, d) + reward,
{
    if m.contains_key(v) && m[v].contains_key(d) {
        let x = m[v][d];
        let p = reward as int * x as int;
        assert(p <= reward as int * total as int) by (nonlinear_arith)
            requires
                p == reward as int * x as int,
                x <= total,
        ;
        assert(p / (total as int) <= reward) by (nonlinear_arith)
            requires
                0 <= p <= reward as int * total as int,
                0 < total,
        ;
        assert(0 <= p / (total as int)) by (nonlinear_arith)
            requires
                0 <= p,
                0 < total,
        ;
    }
}

/// A delegation that holds the whole stake receives the whole reward.
pub proof fn law_sole_delegation_takes_whole_reward(total: u64, reward: u64)
    requires
        0 < total,
        total + reward <= u64::MAX,
    ensures
        with_reward(total, reward, total) == total + reward,
{
    assert((reward as int * total as int) / (total as int) == reward) by (nonlinear_arith)
        requires
            0 < total,
    ;
}

/// Parsing the standard, padded base64 encoding of any 32-byte key (a
/// 44-symbol string over `A`-`Z`, `a`-`z`, `0`-`9`, `+`, `/` and `=`) gives
/// that key back.
pub proof fn law_parse_inverts_standard_encoding(b: Seq<u8>, r: Result<crate::address::Address, Error>)
    requires
        b.len() == 32,
        parses_to(std_encoding(b), r),
    ensures
        std_encoding(b).len() == 44,
        r matches Ok(a) && a.bytes@ == b,
{
    lemma_std_encoding_len(b);
}

} // verus!
