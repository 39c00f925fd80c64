use fresh::{
    parse_validator_address, validator_address_from_bytes, Address, Error, Fresh, FreshNet,
    Signer, Validators, BLOCK_REWARD,
};

fn addr(b: u8) -> Address {
    Address::new([b; 32])
}

fn signed(a: Address) -> Option<Signer> {
    Some(Signer { signer: Some(a) })
}

fn net_with(allocations: &[(Address, u64)]) -> FreshNet {
    let mut net = FreshNet::new();
    net.init_chain(&allocations.to_vec());
    net
}

fn updates(v: &Option<Validators>) -> Vec<(Address, u64)> {
    v.as_ref().unwrap().updates()
}

#[test]
fn init_chain_sets_one_unit_of_voting_power_per_coin() {
    let net = net_with(&Fresh::genesis());
    assert_eq!(net.staking().vp_per_coin(), 1);
    assert_eq!(net.staking().total(), 0);
    assert_eq!(net.accounts().balance(Fresh::genesis()[0].0), Ok(100_000));
}

#[test]
fn delegate_moves_coins_into_stake_and_sets_voting_power() {
    let mut net = net_with(&[(addr(1), 1000), (addr(2), 500)]);
    let mut ctx = Some(Validators::new());
    assert_eq!(net.delegate(signed(addr(1)), &mut ctx, addr(9), 300), Ok(()));
    assert_eq!(net.accounts().balance(addr(1)), Ok(700));
    assert_eq!(net.staking().stake_of(&addr(9)), 300);
    assert_eq!(updates(&ctx), vec![(addr(9), 300)]);
    assert_eq!(net.delegate(signed(addr(2)), &mut ctx, addr(9), 200), Ok(()));
    assert_eq!(net.staking().stake_of(&addr(9)), 500);
    assert_eq!(net.staking().total(), 500);
    assert_eq!(updates(&ctx), vec![(addr(9), 300), (addr(9), 500)]);
    assert_eq!(net.delegate(signed(addr(1)), &mut ctx, addr(9), 100), Ok(()));
    assert_eq!(net.delegations(addr(1)), Ok(vec![(addr(9), 400)]));
    assert_eq!(net.delegations(addr(2)), Ok(vec![(addr(9), 200)]));
}

#[test]
fn delegate_refusals_change_nothing() {
    let mut net = net_with(&[(addr(1), 100)]);
    let mut ctx = Some(Validators::new());
    assert_eq!(net.delegate(None, &mut ctx, addr(9), 1), Err(Error::NoSignerContext));
    assert_eq!(
        net.delegate(Some(Signer { signer: None }), &mut ctx, addr(9), 1),
        Err(Error::DelegateUnsigned)
    );
    assert_eq!(net.delegate(signed(addr(1)), &mut ctx, addr(9), 101), Err(Error::InsufficientFunds));
    assert_eq!(net.accounts().balance(addr(1)), Ok(100));
    assert_eq!(net.staking().total(), 0);
    assert_eq!(net.delegations(addr(1)), Ok(vec![]));
    assert_eq!(updates(&ctx), vec![]);
}

#[test]
fn delegate_without_validator_context_fails_after_moving_the_coins() {
    let mut net = net_with(&[(addr(1), 100)]);
    let mut none: Option<Validators> = None;
    assert_eq!(net.delegate(signed(addr(1)), &mut none, addr(9), 50), Err(Error::NoValidatorContext));
    assert_eq!(net.accounts().balance(addr(1)), Ok(50));
    assert_eq!(net.staking().total(), 50);
    assert_eq!(net.delegations(addr(1)), Ok(vec![(addr(9), 50)]));
    assert!(none.is_none());
}

#[test]
fn delegate_beyond_u64_stake_overflows() {
    let mut net = net_with(&[(addr(1), u64::MAX), (addr(2), 1)]);
    let mut ctx = Some(Validators::new());
    assert_eq!(net.delegate(signed(addr(1)), &mut ctx, addr(9), u64::MAX), Ok(()));
    assert_eq!(net.delegate(signed(addr(2)), &mut ctx, addr(8), 1), Err(Error::Overflow));
    // the coin was taken before the pool refused it
    assert_eq!(net.accounts().balance(addr(2)), Ok(0));
    assert_eq!(net.staking().total(), u64::MAX);
    assert_eq!(net.delegations(addr(2)), Ok(vec![]));
    assert_eq!(updates(&ctx), vec![(addr(9), u64::MAX)]);
}

#[test]
fn delegations_are_listed_in_address_order_without_zeros() {
    let mut net = net_with(&[(addr(1), 1000)]);
    let mut ctx = Some(Validators::new());
    let mut hi = [5u8; 32];
    hi[0] = 200;
    let v_hi = Address::new(hi);
    assert_eq!(net.delegate(signed(addr(1)), &mut ctx, v_hi, 10), Ok(()));
    assert_eq!(net.delegate(signed(addr(1)), &mut ctx, addr(7), 20), Ok(()));
    assert_eq!(net.delegate(signed(addr(1)), &mut ctx, addr(3), 0), Ok(()));
    assert_eq!(net.delegate(signed(addr(1)), &mut ctx, addr(4), 30), Ok(()));
    assert_eq!(
        net.delegations(addr(1)),
        Ok(vec![(addr(4), 30), (addr(7), 20), (v_hi, 10)])
    );
    assert_eq!(net.delegations(addr(2)), Ok(vec![]));
}

#[test]
fn begin_block_without_stake_does_nothing() {
    let mut net = net_with(&[(addr(1), 1000)]);
    assert_eq!(net.begin_block(), Ok(()));
    assert_eq!(net.staking().total(), 0);
    assert_eq!(net.staking().vp_per_coin(), 1);
    assert_eq!(net.accounts().balance(addr(1)), Ok(1000));
}

#[test]
fn begin_block_shares_the_reward_pro_rata() {
    let mut net = net_with(&[(addr(1), 1000), (addr(2), 1000)]);
    let mut ctx = Some(Validators::new());
    assert_eq!(net.delegate(signed(addr(1)), &mut ctx, addr(9), 300), Ok(()));
    assert_eq!(net.delegate(signed(addr(2)), &mut ctx, addr(8), 700), Ok(()));
    assert_eq!(net.begin_block(), Ok(()));
    // 10 * 300 / 1000 = 3 and 10 * 700 / 1000 = 7.
    assert_eq!(net.delegations(addr(1)), Ok(vec![(addr(9), 303)]));
    assert_eq!(net.delegations(addr(2)), Ok(vec![(addr(8), 707)]));
    assert_eq!(net.staking().total(), 1000 + BLOCK_REWARD);
    // (1000 + 10) / 1000 = 1, so the voting power per coin stays 1.
    assert_eq!(net.staking().vp_per_coin(), 1);
    assert_eq!(net.accounts().balance(addr(1)), Ok(700));
}

#[test]
fn begin_block_rounds_shares_down_and_keeps_the_rest_in_the_pool() {
    let mut net = net_with(&[(addr(1), 1000), (addr(2), 1000), (addr(3), 1000)]);
    let mut ctx = Some(Validators::new());
    for a in [1u8, 2, 3] {
        assert_eq!(net.delegate(signed(addr(a)), &mut ctx, addr(9), 100), Ok(()));
    }
    assert_eq!(net.begin_block(), Ok(()));
    // each gains 10 * 100 / 300 = 3; the tenth coin stays in the pool.
    assert_eq!(net.delegations(addr(1)), Ok(vec![(addr(9), 103)]));
    assert_eq!(net.staking().stake_of(&addr(9)), 309);
    assert_eq!(net.staking().total(), 310);
    assert_eq!(net.begin_block(), Ok(()));
    // each gains 10 * 103 / 310 = 3 again; the pool grows by exactly 10.
    assert_eq!(net.delegations(addr(2)), Ok(vec![(addr(9), 106)]));
    assert_eq!(net.staking().total(), 320);
}

#[test]
fn begin_block_with_small_stake_lowers_voting_power_per_coin() {
    let mut net = net_with(&[(addr(1), 1000)]);
    let mut ctx = Some(Validators::new());
    assert_eq!(net.delegate(signed(addr(1)), &mut ctx, addr(9), 5), Ok(()));
    assert_eq!(net.begin_block(), Ok(()));
    // (5 + 10) / 5 = 3 and 1 / 3 = 0; the sole delegation takes the whole reward.
    assert_eq!(net.staking().vp_per_coin(), 0);
    assert_eq!(net.delegations(addr(1)), Ok(vec![(addr(9), 15)]));
    assert_eq!(net.delegate(signed(addr(1)), &mut ctx, addr(9), 5), Ok(()));
    assert_eq!(updates(&ctx), vec![(addr(9), 5), (addr(9), 0)]);
}

#[test]
fn begin_block_refuses_to_overflow_the_stake() {
    let mut net = net_with(&[(addr(1), u64::MAX)]);
    let mut ctx = Some(Validators::new());
    assert_eq!(net.delegate(signed(addr(1)), &mut ctx, addr(9), u64::MAX - 5), Ok(()));
    assert_eq!(net.begin_block(), Err(Error::Overflow));
    assert_eq!(net.staking().total(), u64::MAX - 5);
    assert_eq!(net.staking().vp_per_coin(), 1);
}

#[test]
fn validator_address_from_base64() {
    let s = "AQEBAQEBAQEBAQEBAQEBAQEBAQEBAQEBAQEBAQEBAQE=";
    assert_eq!(parse_validator_address(s).map(|a| a.bytes), Ok([1u8; 32]));
    assert_eq!(
        parse_validator_address("AQID").map(|a| a.bytes),
        Err(Error::InvalidValidatorAddress)
    );
    assert_eq!(
        parse_validator_address("not base64!").map(|a| a.bytes),
        Err(Error::InvalidValidatorAddress)
    );
}

#[test]
fn validator_address_needs_exactly_32_bytes() {
    assert_eq!(validator_address_from_bytes(&vec![7u8; 32]).map(|a| a.bytes), Ok([7u8; 32]));
    assert_eq!(
        validator_address_from_bytes(&vec![7u8; 31]).map(|a| a.bytes),
        Err(Error::InvalidValidatorAddress)
    );
    assert_eq!(
        validator_address_from_bytes(&vec![7u8; 33]).map(|a| a.bytes),
        Err(Error::InvalidValidatorAddress)
    );
}
