//! The coin: balances per address, signed transfers, and genesis allocations.

use vstd::prelude::*;
use crate::address::Address;
use crate::error::Error;
use crate::ledger::{balance_in, Ledger};
use crate::sums::map_total;

verus! {

/// The `EERIE` coin of the eerie test network.
pub struct Eerie;

/// The `FRESH` coin of the fresh test network.
pub struct Fresh;

/// The signer context of a call: who signed it, if anyone did.
#[derive(Clone, Copy, Debug)]
pub struct Signer {
    pub signer: Option<Address>,
}

/// Address `nomic1zgu24fl96sf3epzvrwjr94nzw9yfsvququkxlk6v7wr3nazlzvnsudfdnq` (judd).
pub open spec fn judd_address_bytes() -> Seq<u8> {
    seq![
        18u8, 56, 170, 167, 229, 212, 19, 28, 132, 76, 27, 164, 50, 214, 98, 113, 72, 152, 48, 28,
        7, 44, 111, 219, 76, 243, 135, 25, 244, 95, 19, 39,
    ]
}

/// Address `nomic1cg4t0gpmgn944jpa0dlxa9ke7hz94vajk0qkkasdwhp7e074jx2qktweh2` (matt).
pub open spec fn matt_address_bytes() -> Seq<u8> {
    seq![
        194u8, 42, 183, 160, 59, 68, 203, 90, 200, 61, 123, 126, 110, 150, 217, 245, 196, 90, 179,
        178, 179, 193, 107, 118, 13, 117, 195, 236, 191, 213, 145, 148,
    ]
}

fn judd_address() -> (a: Address)
    ensures
        a.bytes@ == judd_address_bytes(),
{
    let a = Address::new(
        [
            18u8, 56, 170, 167, 229, 212, 19, 28, 132, 76, 27, 164, 50, 214, 98, 113, 72, 152, 48,
            28, 7, 44, 111, 219, 76, 243, 135, 25, 244, 95, 19, 39,
        ],
    );
    assert(a.bytes@ =~= judd_address_bytes());
    a
}

fn matt_address() -> (a: Address)
    ensures
        a.bytes@ == matt_address_bytes(),
{
    let a = Address::new(
        [
            194u8, 42, 183, 160, 59, 68, 203, 90, 200, 61, 123, 126, 110, 150, 217, 245, 196, 90,
            179, 178, 179, 193, 107, 118, 13, 117, 195, 236, 191, 213, 145, 148,
        ],
    );
    assert(a.bytes@ =~= matt_address_bytes());
    a
}

impl Eerie {
    /// The genesis allocations of the eerie network: 1000 coins each to judd and matt.
    pub fn genesis() -> (g: Vec<(Address, u64)>)
        ensures
            g@.len() == 2,
            g@[0].0.bytes@ == judd_address_bytes(),
            g@[0].1 == 1000,
            g@[1].0.bytes@ == matt_address_bytes(),
            g@[1].1 == 1000,
    {
        let mut g: Vec<(Address, u64)> = Vec::new();
        g.push((judd_address(), 1000));
        g.push((matt_address(), 1000));
        g
    }
}

/// The all-zero address.
pub open spec fn zero_address_bytes() -> Seq<u8> {
    Seq::new(32, |i: int| 0u8)
}

impl Eerie {
    /// The first genesis allocation of the eerie coin: 100 coins to the all-zero address.
    pub fn first_genesis() -> (g: Vec<(Address, u64)>)
        ensures
            g@.len() == 1,
            g@[0].0.bytes@ == zero_address_bytes(),
            g@[0].1 == 100,
    {
        let a = Address::new([0u8; 32]);
        assert(a.bytes@ =~= zero_address_bytes());
        let mut g: Vec<(Address, u64)> = Vec::new();
        g.push((a, 100));
        g
    }
}

impl Fresh {
    /// The genesis allocations of the fresh network: 100000 coins to matt.
    pub fn genesis() -> (g: Vec<(Address, u64)>)
        ensures
            g@.len() == 1,
            g@[0].0.bytes@ == matt_address_bytes(),
            g@[0].1 == 100_000,
    {
        let mut g: Vec<(Address, u64)> = Vec::new();
        g.push((matt_address(), 100_000));
        g
    }
}

/// The balances after writing each allocation in turn (a later one for the
/// same address overwrites an earlier one).
pub open spec fn allocate(m: Map<Address, u64>, g: Seq<(Address, u64)>) -> Map<Address, u64>
    decreases g.len(),
{
    if g.len() == 0 {
        m
    } else {
        allocate(m, g.drop_last()).insert(g.last().0, g.last().1)
    }
}

/// The balances after `amount` coins move from `from` to `to`: first the
/// sender's entry is debited, then the receiver's entry is credited.
pub open spec fn transferred(m: Map<Address, u64>, from: Address, to: Address, amount: u64) -> Map<
    Address,
    u64,
> {
    let m1 = m.insert(from, (balance_in(m, from) - amount) as u64);
    m1.insert(to, (balance_in(m1, to) + amount) as u64)
}

/// A signed transfer that the sender can pay does not overflow the receiver.
pub open spec fn transfer_fits(
    m: Map<Address, u64>,
    ctx: Option<Signer>,
    to: Address,
    amount: u64,
) -> bool {
    match ctx {
        Some(Signer { signer: Some(from) }) => balance_in(m, from) >= amount && from != to
            ==> balance_in(m, to) + amount <= u64::MAX,
        _ => true,
    }
}

/// A coin whose balances are kept per address.
pub struct SimpleCoin {
    balances: Ledger,
}

impl View for SimpleCoin {
    type V = Map<Address, u64>;

    closed spec fn view(&self) -> Map<Address, u64> {
        self.balances@
    }
}

impl SimpleCoin {
    pub closed spec fn wf(&self) -> bool {
        self.balances.wf()
    }

    /// The ledger that holds the balances.
    pub closed spec fn ledger(&self) -> Ledger {
        self.balances
    }

    /// All coins in circulation: the sum of all balances.
    pub open spec fn supply(&self) -> nat {
        map_total(self@)
    }

    pub open spec fn balance_of(&self, a: Address) -> nat {
        balance_in(self@, a)
    }

    pub proof fn lemma_view_is_ledger_view(&self)
        ensures
            self@ == self.ledger()@,
            self.wf() == self.ledger().wf(),
            self.supply() == self.ledger().total(),
    {
    }

    /// A coin with no balances.
    pub fn new() -> (c: SimpleCoin)
        ensures
            c.wf(),
            c@ == Map::<Address, u64>::empty(),
            c.supply() == 0,
    {
        SimpleCoin { balances: Ledger::new() }
    }

    /// Writes the genesis allocations into the balances.
    pub fn init_chain(&mut self, genesis: &Vec<(Address, u64)>)
        requires
            old(self).wf(),
        ensures
            final(self).wf(),
            final(self)@ == allocate(old(self)@, genesis@),
    {
        let mut i: usize = 0;
        while i < genesis.len()
            invariant
                i <= genesis@.len(),
                self.wf(),
                self@ == allocate(old(self)@, genesis@.take(i as int)),
            decreases genesis@.len() - i,
        {
            let (a, v) = genesis[i];
            assert(genesis@.take(i + 1).drop_last() =~= genesis@.take(i as int));
            self.balances.insert(a, v);
            i = i + 1;
        }
        assert(genesis@.take(i as int) =~= genesis@);
    }

    /// Moves `amount` coins from the signer of the call to `to`.
    ///
    /// Refused, with the balances unchanged, when there is no signer context,
    /// when the call is unsigned, or when the signer holds fewer than `amount`.
    pub fn transfer(&mut self, ctx: Option<Signer>, to: Address, amount: u64) -> (r: Result<
        (),
        Error,
    >)
        requires
            old(self).wf(),
            transfer_fits(old(self)@, ctx, to, amount),
        ensures
            final(self).wf(),
            match ctx {
                None => r == Err::<(), Error>(Error::NoSignerContext) && final(self)@ == old(
                    self,
                )@,
                Some(Signer { signer: None }) => r == Err::<(), Error>(Error::TransferUnsigned)
                    && final(self)@ == old(self)@,
                Some(Signer { signer: Some(from) }) => if old(self).balance_of(from) < amount {
                    r == Err::<(), Error>(Error::InsufficientFunds) && final(self)@ == old(self)@
                } else {
                    r == Ok::<(), Error>(()) && final(self)@ == transferred(
                        old(self)@,
                        from,
                        to,
                        amount,
                    )
                },
            },
            final(self).supply() == old(self).supply(),
    {
        let from = match ctx {
            None => return Err(Error::NoSignerContext),
            Some(s) => match s.signer {
                None => return Err(Error::TransferUnsigned),
                Some(a) => a,
            },
        };
        let b = self.balances.balance(&from);
        if b < amount {
            return Err(Error::InsufficientFunds);
        }
        self.balances.insert(from, b - amount);
        let bt = self.balances.balance(&to);
        self.balances.insert(to, bt + amount);
        Ok(())
    }

    /// The balance of `address`, zero when it has never held coins.
    pub fn balance(&self, address: Address) -> (r: Result<u64, Error>)
        requires
            self.wf(),
        ensures
            r == Ok::<u64, Error>(self.balance_of(address) as u64),
    {
        Ok(self.balances.balance(&address))
    }

    /// Mutable access to the balances.
    pub fn balances_mut(&mut self) -> (r: &mut Ledger)
        ensures
            *r == old(self).ledger(),
            final(self).ledger() == *final(r),
    {
        &mut self.balances
    }
}

} // verus!
