//! The fresh network's state machine: the coin's accounts together with the
//! stake delegated to validators.

use vstd::prelude::*;
use crate::address::Address;
use crate::coin::{allocate, Signer, SimpleCoin};
use crate::error::Error;
use crate::staking::{delegated, lists_delegations, rewarded, Staking, Validators};

verus! {

/// The coins minted at each block and shared among all delegators.
pub const BLOCK_REWARD: u64 = 10;

/// The network state: the accounts of the coin and the staking state.
pub struct FreshNet {
    accounts: SimpleCoin,
    staking: Staking,
}

/// Why a delegate call is refused before it changes anything, if it is.
pub open spec fn delegate_refusal(net: FreshNet, ctx: Option<Signer>, amount: u64) -> Option<Error> {
    match ctx {
        None => Some(Error::NoSignerContext),
        Some(Signer { signer: None }) => Some(Error::DelegateUnsigned),
        Some(Signer { signer: Some(from) }) => if net.coin().balance_of(from) < amount {
            Some(Error::InsufficientFunds)
        } else {
            None
        },
    }
}

/// The voting power of `validator` once `amount` more coins are staked with it.
pub open spec fn power_after_delegation(net: FreshNet, validator: Address, amount: u64) -> int {
    (net.stake().validator_stake(validator) + amount) * net.stake().coin_power()
}

/// What a delegate call from `from`, who holds at least `amount`, leaves
/// behind. The coins are first taken from `from`. Then they are added to its
/// delegation to `validator`, unless the pool's balance would overflow: the
/// call then fails with the coins taken. Then the validator's new voting power
/// is computed; the call fails, with the coins moved, when that power
/// overflows or when there is no validator context; otherwise the power is
/// recorded in the context. (The host discards the state of a failed call.)
pub open spec fn delegate_effect(
    old_net: FreshNet,
    new_net: FreshNet,
    old_ctx: Option<Validators>,
    new_ctx: Option<Validators>,
    from: Address,
    validator: Address,
    amount: u64,
    r: Result<(), Error>,
) -> bool {
    &&& new_net.coin()@ == old_net.coin()@.insert(
        from,
        (old_net.coin().balance_of(from) - amount) as u64,
    )
    &&& new_net.coin().supply() == old_net.coin().supply() - amount
    &&& new_net.stake().coin_power() == old_net.stake().coin_power()
    &&& if old_net.stake().total_staked() + amount > u64::MAX {
        &&& r == Err::<(), Error>(Error::Overflow)
        &&& new_net.stake() == old_net.stake()
        &&& new_ctx == old_ctx
    } else {
        &&& new_net.stake()@ == delegated(old_net.stake()@, validator, from, amount)
        &&& new_net.stake().total_staked() == old_net.stake().total_staked() + amount
        &&& new_net.stake().validator_stake(validator) == old_net.stake().validator_stake(validator)
            + amount
        &&& new_net.all_coins() == old_net.all_coins()
        &&& if power_after_delegation(old_net, validator, amount) > u64::MAX {
            r == Err::<(), Error>(Error::Overflow) && new_ctx == old_ctx
        } else if old_ctx is None {
            r == Err::<(), Error>(Error::NoValidatorContext) && new_ctx == old_ctx
        } else {
            &&& r == Ok::<(), Error>(())
            &&& (old_ctx matches Some(v0) && new_ctx matches Some(v1) && v1@ == v0@.push(
                (validator, power_after_delegation(old_net, validator, amount) as u64),
            ))
        }
    }
}

impl FreshNet {
    pub open spec fn wf(&self) -> bool {
        self.coin().wf() && self.stake().wf()
    }

    /// The accounts of the coin.
    pub closed spec fn coin(&self) -> SimpleCoin {
        self.accounts
    }

    /// The staking state.
    pub closed spec fn stake(&self) -> Staking {
        self.staking
    }

    /// Every coin is either held in an account or staked.
    pub open spec fn all_coins(&self) -> nat {
        self.coin().supply() + self.stake().total_staked()
    }

    pub fn new() -> (n: FreshNet)
        ensures
            n.wf(),
            n.coin()@ == Map::<Address, u64>::empty(),
            n.coin().supply() == 0,
            n.stake()@ == Map::<Address, Map<Address, u64>>::empty(),
            n.stake().total_staked() == 0,
            forall|v: Address| n.stake().validator_stake(v) == 0,
            n.stake().coin_power() == 0,
    {
        FreshNet { accounts: SimpleCoin::new(), staking: Staking::new() }
    }

    pub fn accounts(&self) -> (r: &SimpleCoin)
        ensures
            *r == self.coin(),
    {
        &self.accounts
    }

    pub fn accounts_mut(&mut self) -> (r: &mut SimpleCoin)
        ensures
            *r == old(self).coin(),
            final(self).coin() == *final(r),
            final(self).stake() == old(self).stake(),
    {
        &mut self.accounts
    }

    pub fn staking(&self) -> (r: &Staking)
        ensures
            *r == self.stake(),
    {
        &self.staking
    }

    /// Writes the genesis allocations and lets each staked coin carry one unit
    /// of voting power.
    pub fn init_chain(&mut self, genesis: &Vec<(Address, u64)>)
        requires
            old(self).wf(),
        ensures
            final(self).wf(),
            final(self).coin()@ == allocate(old(self).coin()@, genesis@),
            final(self).stake()@ == old(self).stake()@,
            final(self).stake().total_staked() == old(self).stake().total_staked(),
            forall|v: Address|
                final(self).stake().validator_stake(v) == old(self).stake().validator_stake(v),
            final(self).stake().coin_power() == 1,
    {
        self.accounts.init_chain(genesis);
        self.staking.set_vp_per_coin(1);
    }

    /// Moves `amount` coins of the signer into its delegation to
    /// `validator_addr`, and records the validator's new voting power (its
    /// stake times the voting power per coin) in the validator context.
    ///
    /// Refused with nothing changed for the reasons of `delegate_refusal`;
    /// otherwise the call goes as `delegate_effect` says, where a later
    /// failure leaves the coins already taken or moved.
    pub fn delegate(
        &mut self,
        ctx: Option<Signer>,
        validators: &mut Option<Validators>,
        validator_addr: Address,
        amount: u64,
    ) -> (r: Result<(), Error>)
        requires
            old(self).wf(),
        ensures
            final(self).wf(),
            match delegate_refusal(*old(self), ctx, amount) {
                Some(e) => {
                    &&& r == Err::<(), Error>(e)
                    &&& *final(self) == *old(self)
                    &&& *final(validators) == *old(validators)
                },
                None => ctx matches Some(Signer { signer: Some(from) }) && delegate_effect(
                    *old(self),
                    *final(self),
                    *old(validators),
                    *final(validators),
                    from,
                    validator_addr,
                    amount,
                    r,
                ),
            },
    {
        let from = match ctx {
            None => return Err(Error::NoSignerContext),
            Some(s) => match s.signer {
                None => return Err(Error::DelegateUnsigned),
                Some(a) => a,
            },
        };
        let b = match self.accounts.balance(from) {
            Ok(x) => x,
            Err(e) => return Err(e),
        };
        if b < amount {
            return Err(Error::InsufficientFunds);
        }
        proof {
            self.accounts.lemma_view_is_ledger_view();
        }
        self.accounts.balances_mut().insert(from, b - amount);
        proof {
            self.accounts.lemma_view_is_ledger_view();
        }
        let total = self.staking.total();
        if amount > u64::MAX - total {
            return Err(Error::Overflow);
        }
        let stake = self.staking.stake_of(&validator_addr);
        proof {
            self.staking.lemma_validator_stake_le_total(validator_addr);
        }
        self.staking.delegate_to(validator_addr, from, amount);
        let new_stake = stake + amount;
        let power = match new_stake.checked_mul(self.staking.vp_per_coin()) {
            Some(p) => p,
            None => return Err(Error::Overflow),
        };
        if validators.is_none() {
            return Err(Error::NoValidatorContext);
        }
        match validators {
            Some(v) => v.set_voting_power(validator_addr, power),
            None => {},
        }
        Ok(())
    }

    /// The validators to which `delegator` has delegated a nonzero amount,
    /// in ascending address order, each with that amount.
    pub fn delegations(&self, delegator_address: Address) -> (r: Result<Vec<(Address, u64)>, Error>)
        requires
            self.wf(),
        ensures
            r matches Ok(list) && lists_delegations(self.stake()@, delegator_address, list@),
    {
        Ok(self.staking.delegations_of(&delegator_address))
    }

    /// At the start of each block, when the validator pool holds anything:
    /// mints `BLOCK_REWARD` coins into the pool, credits each delegation `d`
    /// with `floor(BLOCK_REWARD * d / pool)` of them (the rest stays in the
    /// pool undistributed), and divides the voting power per coin by
    /// `(pool + BLOCK_REWARD) / pool`.
    pub fn begin_block(&mut self) -> (r: Result<(), Error>)
        requires
            old(self).wf(),
        ensures
            final(self).wf(),
            old(self).stake().total_staked() == 0 ==> r == Ok::<(), Error>(()) && *final(self)
                == *old(self),
            old(self).stake().total_staked() != 0 && old(self).stake().total_staked() + BLOCK_REWARD
                > u64::MAX ==> r == Err::<(), Error>(Error::Overflow) && *final(self) == *old(self),
            ({
                let t = old(self).stake().total_staked();
                t != 0 && t + BLOCK_REWARD <= u64::MAX ==> {
                    &&& r == Ok::<(), Error>(())
                    &&& final(self).coin() == old(self).coin()
                    &&& final(self).stake().coin_power() == (old(self).stake().coin_power() as int
                        / ((t + BLOCK_REWARD) / (t as int)))
                    &&& final(self).stake()@ == rewarded(old(self).stake()@, BLOCK_REWARD, t as u64)
                    &&& final(self).stake().total_staked() == t + BLOCK_REWARD
                    &&& final(self).all_coins() == old(self).all_coins() + BLOCK_REWARD
                }
            }),
    {
        let balance = self.staking.total();
        if balance != 0 {
            if balance > u64::MAX - BLOCK_REWARD {
                return Err(Error::Overflow);
            }
            let increase = (balance + BLOCK_REWARD) / balance;
            assert(increase >= 1) by (nonlinear_arith)
                requires
                    increase == (balance + BLOCK_REWARD) / (balance as int),
                    balance > 0,
            ;
            let vp = self.staking.vp_per_coin() / increase;
            self.staking.set_vp_per_coin(vp);
            self.staking.share_reward(BLOCK_REWARD, balance);
        }
        Ok(())
    }
}

} // verus!
