use fresh::{Address, AddressOrder, Eerie, Error, Fresh, Ledger, Signer, SimpleCoin};

fn addr(b: u8) -> Address {
    Address::new([b; 32])
}

fn signed(a: Address) -> Option<Signer> {
    Some(Signer { signer: Some(a) })
}

fn coin_with(allocations: &[(Address, u64)]) -> SimpleCoin {
    let mut coin = SimpleCoin::new();
    coin.init_chain(&allocations.to_vec());
    coin
}

#[test]
fn address_comparison() {
    let a = addr(1);
    let mut bytes = [1u8; 32];
    bytes[31] = 2;
    let b = Address::new(bytes);
    assert!(a.same(&a));
    assert!(!a.same(&b));
    assert_eq!(a.compare_to(&b), AddressOrder::Before);
    assert_eq!(b.compare_to(&a), AddressOrder::After);
    assert_eq!(a.compare_to(&a), AddressOrder::Same);
    let mut first = [0u8; 32];
    first[0] = 2;
    assert_eq!(Address::new(first).compare_to(&b), AddressOrder::After);
}

#[test]
fn ledger_insert_get_and_total() {
    let mut l = Ledger::new();
    assert_eq!(l.get(&addr(1)), None);
    assert_eq!(l.balance(&addr(1)), 0);
    l.insert(addr(1), 5);
    l.insert(addr(2), 7);
    l.insert(addr(1), 3);
    assert_eq!(l.get(&addr(1)), Some(3));
    assert_eq!(l.get(&addr(2)), Some(7));
    assert_eq!(l.total_amount(), 10);
}

#[test]
fn fresh_genesis_gives_matt_the_supply() {
    let g = Fresh::genesis();
    assert_eq!(g.len(), 1);
    assert_eq!(g[0].0.bytes.to_vec(), vec![
        194u8, 42, 183, 160, 59, 68, 203, 90, 200, 61, 123, 126, 110, 150, 217, 245, 196, 90, 179,
        178, 179, 193, 107, 118, 13, 117, 195, 236, 191, 213, 145, 148,
    ]);
    let coin = coin_with(&g);
    assert_eq!(coin.balance(g[0].0), Ok(100_000));
    assert_eq!(coin.balance(addr(9)), Ok(0));
}

#[test]
fn eerie_genesis_gives_judd_and_matt_a_thousand_each() {
    let g = Eerie::genesis();
    assert_eq!(g.len(), 2);
    assert_eq!(g[0].0.bytes[0], 18);
    assert_eq!(g[1].0.bytes[0], 194);
    let coin = coin_with(&g);
    assert_eq!(coin.balance(g[0].0), Ok(1000));
    assert_eq!(coin.balance(g[1].0), Ok(1000));
}

#[test]
fn later_genesis_allocation_overwrites_earlier() {
    let coin = coin_with(&[(addr(1), 5), (addr(1), 8)]);
    assert_eq!(coin.balance(addr(1)), Ok(8));
}

#[test]
fn transfer_moves_coins() {
    let mut coin = coin_with(&[(addr(1), 100), (addr(2), 5)]);
    assert_eq!(coin.transfer(signed(addr(1)), addr(2), 30), Ok(()));
    assert_eq!(coin.balance(addr(1)), Ok(70));
    assert_eq!(coin.balance(addr(2)), Ok(35));
    assert_eq!(coin.transfer(signed(addr(2)), addr(3), 35), Ok(()));
    assert_eq!(coin.balance(addr(2)), Ok(0));
    assert_eq!(coin.balance(addr(3)), Ok(35));
}

#[test]
fn transfer_of_whole_balance_and_of_nothing() {
    let mut coin = coin_with(&[(addr(1), 100)]);
    assert_eq!(coin.transfer(signed(addr(4)), addr(1), 0), Ok(()));
    assert_eq!(coin.transfer(signed(addr(1)), addr(4), 100), Ok(()));
    assert_eq!(coin.balance(addr(1)), Ok(0));
    assert_eq!(coin.balance(addr(4)), Ok(100));
}

#[test]
fn transfer_to_self_changes_nothing() {
    let mut coin = coin_with(&[(addr(1), 100)]);
    assert_eq!(coin.transfer(signed(addr(1)), addr(1), 60), Ok(()));
    assert_eq!(coin.balance(addr(1)), Ok(100));
}

#[test]
fn transfer_and_back_restores_balances() {
    let mut coin = coin_with(&[(addr(1), 100), (addr(2), 1)]);
    assert_eq!(coin.transfer(signed(addr(1)), addr(2), 40), Ok(()));
    assert_eq!(coin.transfer(signed(addr(2)), addr(1), 40), Ok(()));
    assert_eq!(coin.balance(addr(1)), Ok(100));
    assert_eq!(coin.balance(addr(2)), Ok(1));
}

#[test]
fn transfer_with_insufficient_funds_is_refused() {
    let mut coin = coin_with(&[(addr(1), 10)]);
    assert_eq!(coin.transfer(signed(addr(1)), addr(2), 11), Err(Error::InsufficientFunds));
    assert_eq!(coin.balance(addr(1)), Ok(10));
    assert_eq!(coin.balance(addr(2)), Ok(0));
    assert_eq!(coin.transfer(signed(addr(3)), addr(2), 1), Err(Error::InsufficientFunds));
}

#[test]
fn unsigned_transfer_is_refused() {
    let mut coin = coin_with(&[(addr(1), 10)]);
    assert_eq!(
        coin.transfer(Some(Signer { signer: None }), addr(2), 1),
        Err(Error::TransferUnsigned)
    );
    assert_eq!(coin.transfer(None, addr(2), 1), Err(Error::NoSignerContext));
    assert_eq!(coin.balance(addr(1)), Ok(10));
}

#[test]
fn balances_mut_gives_access_to_the_ledger() {
    let mut coin = coin_with(&[(addr(1), 10)]);
    coin.balances_mut().insert(addr(2), 4);
    assert_eq!(coin.balance(addr(2)), Ok(4));
    assert_eq!(coin.balances_mut().get(&addr(1)), Some(10));
}

#[test]
fn first_eerie_genesis_gives_the_zero_address_a_hundred() {
    let g = Eerie::first_genesis();
    assert_eq!(g.len(), 1);
    assert_eq!(g[0].0.bytes, [0u8; 32]);
    let coin = coin_with(&g);
    assert_eq!(coin.balance(Address::new([0u8; 32])), Ok(100));
}

#[test]
fn refusal_messages() {
    assert_eq!(Error::NoSignerContext.message(), "No signer context available");
    assert_eq!(Error::TransferUnsigned.message(), "Transfer calls must be signed");
    assert_eq!(Error::DelegateUnsigned.message(), "Delegate calls must be signed");
    assert_eq!(Error::NoValidatorContext.message(), "No validator context available");
    assert_eq!(Error::InvalidValidatorAddress.message(), "invalid validator address");
    assert_eq!(Error::InsufficientFunds.message(), "Insufficient funds");
    assert_eq!(Error::Overflow.message(), "Value overflowed");
}

#[test]
fn plural_suffix_of_validator_count() {
    assert_eq!(fresh::plural_suffix(1), "");
    assert_eq!(fresh::plural_suffix(0), "s");
    assert_eq!(fresh::plural_suffix(2), "s");
}
