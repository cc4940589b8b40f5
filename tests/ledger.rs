use glow_lotto::admin::{
    execute_epoch_operations, init, query_depositor, query_depositors, query_lottery_info,
    query_state, register_contracts, sponsor, update_config, InitMsg, INITIAL_DEPOSIT_AMOUNT,
};
use glow_lotto::decimal::{Decimal, FRACTIONAL};
use glow_lotto::deposit::{deposit, gift_tickets, single_deposit, Instruction};
use glow_lotto::error::ContractError;
use glow_lotto::prize_strategy::{assign_prize, execute_lottery, handle_prize};
use glow_lotto::state::{Claim, Coin, DrawPhase, Env, Ledger};
use glow_lotto::withdraw::{claim, withdraw};

const OWNER: u64 = 1;
const ALICE: u64 = 10;
const BOB: u64 = 11;
const CAROL: u64 = 12;
const START: u64 = 1_000;
const INTERVAL: u64 = 3_600;
const UNBONDING: u64 = 600;

fn dec(whole: u128) -> Decimal {
    Decimal { atomics: whole * FRACTIONAL }
}

fn permille(x: u128) -> Decimal {
    Decimal { atomics: x * FRACTIONAL / 1000 }
}

fn uusd(amount: u128) -> Vec<Coin> {
    vec![Coin { denom: "uusd".to_string(), amount }]
}

fn env(sender: u64, time: u64, sent_funds: Vec<Coin>) -> Env {
    Env { sender, time, sent_funds }
}

fn no_tax(x: u128) -> u128 {
    x
}

fn setup() -> Ledger {
    let msg = InitMsg {
        owner: OWNER,
        stable_denom: "uusd".to_string(),
        anchor_contract: 2,
        aterra_contract: 3,
        lottery_interval: INTERVAL,
        block_time: 5,
        ticket_price: dec(100),
        prize_distribution: vec![
            Decimal::zero(),
            Decimal::zero(),
            permille(25),
            permille(150),
            permille(300),
            permille(500),
        ],
        reserve_factor: permille(50),
        split_factor: permille(500),
        unbonding_period: UNBONDING,
    };
    init(&env(OWNER, START, uusd(INITIAL_DEPOSIT_AMOUNT)), 99, msg).unwrap()
}

fn tickets(seqs: &[&str]) -> Vec<String> {
    seqs.iter().map(|s| s.to_string()).collect()
}

fn registry_len(l: &Ledger) -> usize {
    l.registry.len()
}

#[test]
fn init_sets_pool_state() {
    let l = setup();
    let s = query_state(&l);
    assert_eq!(s.award_available, dec(INITIAL_DEPOSIT_AMOUNT));
    assert_eq!(s.current_balance, INITIAL_DEPOSIT_AMOUNT);
    assert_eq!(s.next_lottery_time, START + INTERVAL);
    assert_eq!(s.total_tickets, 0);
    assert_eq!(s.phase, DrawPhase::Idle);
}

#[test]
fn init_requires_exact_reserve() {
    let msg = InitMsg {
        owner: OWNER,
        stable_denom: "uusd".to_string(),
        anchor_contract: 2,
        aterra_contract: 3,
        lottery_interval: INTERVAL,
        block_time: 5,
        ticket_price: dec(100),
        prize_distribution: vec![],
        reserve_factor: Decimal::zero(),
        split_factor: permille(500),
        unbonding_period: UNBONDING,
    };
    let r = init(&env(OWNER, START, uusd(5)), 99, msg);
    assert_eq!(r.err(), Some(ContractError::InvalidInitialDeposit));
}

#[test]
fn init_rejects_split_above_one() {
    let msg = InitMsg {
        owner: OWNER,
        stable_denom: "uusd".to_string(),
        anchor_contract: 2,
        aterra_contract: 3,
        lottery_interval: INTERVAL,
        block_time: 5,
        ticket_price: dec(100),
        prize_distribution: vec![],
        reserve_factor: Decimal::zero(),
        split_factor: dec(2),
        unbonding_period: UNBONDING,
    };
    let r = init(&env(OWNER, START, uusd(INITIAL_DEPOSIT_AMOUNT)), 99, msg);
    assert_eq!(r.err(), Some(ContractError::InvalidConfig));
}

#[test]
fn single_deposit_mints_shares() {
    let mut l = setup();
    let r = single_deposit(&mut l, &env(ALICE, START, uusd(100)), "12345".to_string(), dec(1), |x| x - 1);
    assert_eq!(r, Ok(Instruction::DepositToVault { amount: 99 }));
    let d = query_depositor(&l, ALICE).unwrap();
    assert_eq!(d.deposit_amount, 100);
    assert_eq!(d.shares, dec(99));
    assert_eq!(d.tickets, vec!["12345".to_string()]);
    let s = query_state(&l);
    assert_eq!(s.total_tickets, 1);
    assert_eq!(s.shares_supply, dec(99));
    assert_eq!(s.lottery_deposits, dec(50));
    assert_eq!(s.lottery_shares, Decimal { atomics: 99 * FRACTIONAL / 2 });
    assert_eq!(s.deposit_shares, Decimal { atomics: 99 * FRACTIONAL / 2 });
    assert_eq!(registry_len(&l), 1);
}

#[test]
fn single_deposit_requires_exact_price() {
    let mut l = setup();
    let r = single_deposit(&mut l, &env(ALICE, START, uusd(150)), "12345".to_string(), dec(1), no_tax);
    assert_eq!(r, Err(ContractError::WrongDepositAmount));
    assert!(query_depositor(&l, ALICE).is_none());
}

#[test]
fn deposit_of_nothing_is_refused() {
    let mut l = setup();
    let r = deposit(&mut l, &env(ALICE, START, vec![]), tickets(&["12345"]), dec(1), no_tax);
    assert_eq!(r, Err(ContractError::ZeroDeposit));
    let r = deposit(
        &mut l,
        &env(ALICE, START, vec![Coin { denom: "uluna".to_string(), amount: 500 }]),
        tickets(&["12345"]),
        dec(1),
        no_tax,
    );
    assert_eq!(r, Err(ContractError::ZeroDeposit));
}

#[test]
fn batch_deposit_absorbs_excess() {
    // ticket price 100, two tickets, 250 sent: accepted, shares for all 250
    let mut l = setup();
    let r = deposit(&mut l, &env(ALICE, START, uusd(250)), tickets(&["11111", "22222"]), dec(1), no_tax);
    assert_eq!(r, Ok(Instruction::DepositToVault { amount: 250 }));
    let d = query_depositor(&l, ALICE).unwrap();
    assert_eq!(d.shares, dec(250));
    assert_eq!(d.deposit_amount, 250);
    assert_eq!(d.tickets.len(), 2);
    assert_eq!(query_state(&l).total_tickets, 2);
}

#[test]
fn batch_deposit_shares_net_of_tax() {
    let mut l = setup();
    let r = deposit(&mut l, &env(ALICE, START, uusd(250)), tickets(&["11111", "22222"]), dec(2), |x| x - 10);
    assert_eq!(r, Ok(Instruction::DepositToVault { amount: 240 }));
    assert_eq!(query_depositor(&l, ALICE).unwrap().shares, dec(120));
}

#[test]
fn batch_deposit_must_cover_tickets() {
    let mut l = setup();
    let r = deposit(&mut l, &env(ALICE, START, uusd(199)), tickets(&["11111", "22222"]), dec(1), no_tax);
    assert_eq!(r, Err(ContractError::InsufficientDeposit));
}

#[test]
fn deposit_rejects_malformed_sequence() {
    let mut l = setup();
    for bad in ["1234", "123456", "12a45", "1234é"] {
        let r = deposit(&mut l, &env(ALICE, START, uusd(100)), tickets(&[bad]), dec(1), no_tax);
        assert_eq!(r, Err(ContractError::InvalidSequence));
    }
    assert_eq!(query_state(&l).total_tickets, 0);
}

#[test]
fn deposit_closed_when_draw_due() {
    let mut l = setup();
    let r = deposit(&mut l, &env(ALICE, START + INTERVAL, uusd(100)), tickets(&["12345"]), dec(1), no_tax);
    assert_eq!(r, Err(ContractError::LotteryAboutToStart));
}

#[test]
fn deposit_rejects_zero_rate() {
    let mut l = setup();
    let r = deposit(&mut l, &env(ALICE, START, uusd(100)), tickets(&["12345"]), Decimal::zero(), no_tax);
    assert_eq!(r, Err(ContractError::ZeroExchangeRate));
    assert!(query_depositor(&l, ALICE).is_none());
}

#[test]
fn deposit_overflow_is_refused() {
    let mut l = setup();
    let r = deposit(&mut l, &env(ALICE, START, uusd(u128::MAX)), tickets(&["12345"]), dec(1), no_tax);
    assert_eq!(r, Err(ContractError::Overflow));
}

#[test]
fn gift_credits_recipient() {
    let mut l = setup();
    let r = gift_tickets(&mut l, &env(ALICE, START, uusd(200)), tickets(&["11111", "22222"]), BOB, dec(1), no_tax);
    assert_eq!(r, Ok(Instruction::DepositToVault { amount: 200 }));
    assert!(query_depositor(&l, ALICE).is_none());
    assert_eq!(query_depositor(&l, BOB).unwrap().tickets.len(), 2);
}

#[test]
fn gift_to_self_is_refused() {
    let mut l = setup();
    let r = gift_tickets(&mut l, &env(ALICE, START, uusd(100)), tickets(&["11111"]), ALICE, dec(1), no_tax);
    assert_eq!(r, Err(ContractError::SelfGift));
}

#[test]
fn gift_requires_exact_amount() {
    let mut l = setup();
    let r = gift_tickets(&mut l, &env(ALICE, START, uusd(250)), tickets(&["11111", "22222"]), BOB, dec(1), no_tax);
    assert_eq!(r, Err(ContractError::WrongDepositAmount));
}

#[test]
fn withdraw_without_shares_is_refused() {
    let mut l = setup();
    let r = withdraw(&mut l, &env(ALICE, START, vec![]), 1_000, dec(1), no_tax);
    assert_eq!(r, Err(ContractError::NoDeposits));
    assert!(query_depositor(&l, ALICE).is_none());
    assert_eq!(query_state(&l).shares_supply, Decimal::zero());
}

#[test]
fn withdraw_moves_funds_to_unbonding() {
    let mut l = setup();
    deposit(&mut l, &env(ALICE, START, uusd(300)), tickets(&["11111", "22222", "11111"]), dec(1), no_tax).unwrap();
    deposit(&mut l, &env(BOB, START, uusd(100)), tickets(&["11111"]), dec(1), no_tax).unwrap();
    // the contract holds 400 yield-source tokens; the rate has grown to 1.1
    let r = withdraw(&mut l, &env(ALICE, START + 10, vec![]), 400, permille(1100), |x| x - 5);
    assert_eq!(r, Ok(Instruction::RedeemFromVault { amount: 300 }));
    let d = query_depositor(&l, ALICE).unwrap();
    assert_eq!(d.shares, Decimal::zero());
    assert_eq!(d.deposit_amount, 0);
    assert!(d.tickets.is_empty());
    assert_eq!(d.unbonding, vec![Claim { amount: 325, release_at: START + 10 + UNBONDING }]);
    let s = query_state(&l);
    assert_eq!(s.total_tickets, 1);
    assert_eq!(s.shares_supply, dec(100));
    assert_eq!(s.deposit_shares, dec(50));
    assert_eq!(s.lottery_shares, dec(50));
    assert_eq!(s.lottery_deposits, dec(50));
    assert_eq!(registry_len(&l), 1);
    assert_eq!(l.registry[0].holder, BOB);
    assert_eq!(l.registry[0].sequence, "11111");
}

#[test]
fn round_trip_returns_deposit_less_tax() {
    let mut l = setup();
    deposit(&mut l, &env(ALICE, START, uusd(1_000)), tickets(&["12345"]), dec(1), no_tax).unwrap();
    withdraw(&mut l, &env(ALICE, START, vec![]), 1_000, dec(1), |x| x - 3).unwrap();
    assert_eq!(query_depositor(&l, ALICE).unwrap().unbonding[0].amount, 997);
}

#[test]
fn round_trip_value_grows_with_rate() {
    let mut values = vec![];
    for rate in [1000, 1050, 1200] {
        let mut l = setup();
        deposit(&mut l, &env(ALICE, START, uusd(1_000)), tickets(&["12345"]), dec(1), no_tax).unwrap();
        withdraw(&mut l, &env(ALICE, START, vec![]), 1_000, permille(rate), no_tax).unwrap();
        values.push(query_depositor(&l, ALICE).unwrap().unbonding[0].amount);
    }
    assert_eq!(values, vec![1_000, 1_050, 1_200]);
}

#[test]
fn claim_pays_only_matured_entries() {
    let mut l = setup();
    deposit(&mut l, &env(ALICE, START, uusd(100)), tickets(&["12345"]), dec(1), no_tax).unwrap();
    l.depositors[0].unbonding = vec![
        Claim { amount: 300, release_at: START + 5 },
        Claim { amount: 400, release_at: START + 50 },
    ];
    let r = claim(&mut l, &env(ALICE, START + 10, vec![]), None, 10_000, no_tax);
    assert_eq!(r, Ok(Instruction::Pay { recipient: ALICE, amount: 300 }));
    assert_eq!(
        query_depositor(&l, ALICE).unwrap().unbonding,
        vec![Claim { amount: 400, release_at: START + 50 }]
    );
}

#[test]
fn claim_adds_prizes_and_clears_them() {
    let mut l = setup();
    deposit(&mut l, &env(ALICE, START, uusd(100)), tickets(&["12345"]), dec(1), no_tax).unwrap();
    l.depositors[0].redeemable = permille(42_500);
    l.depositors[0].unbonding = vec![Claim { amount: 8, release_at: START }];
    let r = claim(&mut l, &env(ALICE, START, vec![]), Some(10), 10_000, |x| x - 1);
    assert_eq!(r, Ok(Instruction::Pay { recipient: ALICE, amount: 49 }));
    let d = query_depositor(&l, ALICE).unwrap();
    assert_eq!(d.redeemable, Decimal::zero());
    assert!(d.unbonding.is_empty());
}

#[test]
fn claim_errors() {
    let mut l = setup();
    assert_eq!(claim(&mut l, &env(ALICE, START, vec![]), Some(0), 10, no_tax), Err(ContractError::ZeroClaimAmount));
    assert_eq!(claim(&mut l, &env(ALICE, START, vec![]), None, 10, no_tax), Err(ContractError::NothingToClaim));
    deposit(&mut l, &env(ALICE, START, uusd(100)), tickets(&["12345"]), dec(1), no_tax).unwrap();
    assert_eq!(claim(&mut l, &env(ALICE, START, vec![]), None, 10, no_tax), Err(ContractError::NothingToClaim));
    l.depositors[0].unbonding = vec![Claim { amount: 300, release_at: START }];
    assert_eq!(claim(&mut l, &env(ALICE, START, vec![]), None, 299, no_tax), Err(ContractError::InsufficientFunds));
    assert_eq!(query_depositor(&l, ALICE).unwrap().unbonding.len(), 1);
}

#[test]
fn draw_before_due_time_is_refused() {
    let mut l = setup();
    deposit(&mut l, &env(ALICE, START, uusd(100)), tickets(&["12345"]), dec(1), no_tax).unwrap();
    let before = query_state(&l);
    let r = execute_lottery(&mut l, &env(BOB, START + INTERVAL - 1, vec![]));
    assert_eq!(r, Err(ContractError::LotteryNotDue));
    assert_eq!(query_state(&l), before);
    assert!(l.rounds.is_empty());
}

#[test]
fn draw_with_funds_is_refused() {
    let mut l = setup();
    let r = execute_lottery(&mut l, &env(BOB, START + INTERVAL, uusd(1)));
    assert_eq!(r, Err(ContractError::FundsAttached));
}

#[test]
fn draw_redeems_lottery_shares_then_assigns() {
    let mut l = setup();
    deposit(&mut l, &env(ALICE, START, uusd(200)), tickets(&["12345", "54321"]), dec(1), no_tax).unwrap();
    let r = execute_lottery(&mut l, &env(BOB, START + INTERVAL, vec![]));
    assert_eq!(r, Ok(vec![Instruction::RedeemFromVault { amount: 100 }, Instruction::AssignPrizes]));
    assert_eq!(query_state(&l).phase, DrawPhase::Drawing);
    let again = execute_lottery(&mut l, &env(BOB, START + INTERVAL + 1, vec![]));
    assert_eq!(again, Err(ContractError::DrawInProgress));
}

#[test]
fn prize_assignment_outside_draw_is_refused() {
    let mut l = setup();
    assert_eq!(handle_prize(&mut l, "12345".to_string()), Err(ContractError::NotDrawing));
    assert!(l.rounds.is_empty());
}

#[test]
fn prize_assignment_rejects_bad_sequence() {
    let mut l = setup();
    execute_lottery(&mut l, &env(BOB, START + INTERVAL, vec![])).unwrap();
    assert_eq!(handle_prize(&mut l, "12x45".to_string()), Err(ContractError::InvalidSequence));
}

#[test]
fn tier_split_is_even_among_ties() {
    assert_eq!(assign_prize(dec(1000), 2, permille(500)), Some(dec(250)));
    assert_eq!(assign_prize(dec(1000), 1, permille(500)), Some(dec(500)));
    assert_eq!(assign_prize(dec(1000), 0, permille(500)), None);
}

#[test]
fn five_match_winners_share_half_the_pool() {
    let mut l = setup();
    l.state.award_available = dec(1000);
    deposit(&mut l, &env(ALICE, START, uusd(100)), tickets(&["34280"]), dec(1), no_tax).unwrap();
    deposit(&mut l, &env(BOB, START, uusd(100)), tickets(&["34280"]), dec(1), no_tax).unwrap();
    execute_lottery(&mut l, &env(CAROL, START + INTERVAL, vec![])).unwrap();
    handle_prize(&mut l, "34280".to_string()).unwrap();
    assert_eq!(query_depositor(&l, ALICE).unwrap().redeemable, dec(250));
    assert_eq!(query_depositor(&l, BOB).unwrap().redeemable, dec(250));
    let (id, round) = query_lottery_info(&l, Some(0));
    assert_eq!(id, 0);
    let round = round.unwrap();
    assert!(round.awarded);
    assert_eq!(round.total_prizes, dec(500));
    assert_eq!(round.winners, vec![(5, ALICE), (5, BOB)]);
    let s = query_state(&l);
    assert_eq!(s.award_available, dec(500));
    assert_eq!(s.current_lottery, 1);
    assert_eq!(s.next_lottery_time, START + 2 * INTERVAL);
    assert_eq!(s.phase, DrawPhase::Idle);
}

#[test]
fn lone_winner_takes_whole_tier() {
    let mut l = setup();
    l.state.award_available = dec(1000);
    deposit(&mut l, &env(ALICE, START, uusd(200)), tickets(&["34280", "34299"]), dec(1), no_tax).unwrap();
    deposit(&mut l, &env(BOB, START, uusd(100)), tickets(&["34200"]), dec(1), no_tax).unwrap();
    deposit(&mut l, &env(CAROL, START, uusd(100)), tickets(&["99999"]), dec(1), no_tax).unwrap();
    execute_lottery(&mut l, &env(CAROL, START + INTERVAL, vec![])).unwrap();
    handle_prize(&mut l, "34280".to_string()).unwrap();
    // ALICE: alone with 5 matches (500) and alone with 3 (150); BOB: alone with 4 (300)
    assert_eq!(query_depositor(&l, ALICE).unwrap().redeemable, dec(650));
    assert_eq!(query_depositor(&l, BOB).unwrap().redeemable, dec(300));
    assert_eq!(query_depositor(&l, CAROL).unwrap().redeemable, Decimal::zero());
    let (_, round) = query_lottery_info(&l, Some(0));
    let round = round.unwrap();
    assert_eq!(round.winners, vec![(5, ALICE), (3, ALICE), (4, BOB)]);
    assert_eq!(round.total_prizes, dec(950));
    assert_eq!(query_state(&l).award_available, dec(50));
}

#[test]
fn update_config_without_fields_keeps_config() {
    let mut l = setup();
    let before = (l.config.owner, l.config.lottery_interval, l.config.block_time, l.config.ticket_price,
        l.config.prize_distribution.clone(), l.config.reserve_factor, l.config.split_factor, l.config.unbonding_period);
    update_config(&mut l, &env(OWNER, START, vec![]), None, None, None, None, None, None, None, None).unwrap();
    let after = (l.config.owner, l.config.lottery_interval, l.config.block_time, l.config.ticket_price,
        l.config.prize_distribution.clone(), l.config.reserve_factor, l.config.split_factor, l.config.unbonding_period);
    assert_eq!(before, after);
}

#[test]
fn update_config_checks_owner_and_split() {
    let mut l = setup();
    let r = update_config(&mut l, &env(ALICE, START, vec![]), Some(ALICE), None, None, None, None, None, None, None);
    assert_eq!(r, Err(ContractError::Unauthorized));
    let r = update_config(&mut l, &env(OWNER, START, vec![]), None, None, None, None, None, None, Some(dec(2)), None);
    assert_eq!(r, Err(ContractError::InvalidConfig));
    update_config(&mut l, &env(OWNER, START, vec![]), Some(ALICE), Some(7), None, Some(dec(5)), None, None, None, None).unwrap();
    assert_eq!(l.config.owner, ALICE);
    assert_eq!(l.config.lottery_interval, 7);
    assert_eq!(l.config.ticket_price, dec(5));
}

#[test]
fn register_contracts_once_by_owner() {
    let mut l = setup();
    assert_eq!(register_contracts(&mut l, &env(ALICE, START, vec![]), 50, 51), Err(ContractError::Unauthorized));
    register_contracts(&mut l, &env(OWNER, START, vec![]), 50, 51).unwrap();
    assert_eq!(l.config.collector_contract, Some(50));
    assert_eq!(register_contracts(&mut l, &env(OWNER, START, vec![]), 52, 53), Err(ContractError::AlreadyRegistered));
}

#[test]
fn sponsor_to_award_or_lottery() {
    let mut l = setup();
    assert_eq!(sponsor(&mut l, &env(ALICE, START, vec![]), None, dec(1), no_tax), Err(ContractError::ZeroDeposit));
    assert_eq!(sponsor(&mut l, &env(ALICE, START, uusd(500)), Some(true), dec(1), no_tax), Ok(None));
    assert_eq!(query_state(&l).award_available, dec(INITIAL_DEPOSIT_AMOUNT + 500));
    let r = sponsor(&mut l, &env(ALICE, START, uusd(400)), None, dec(2), |x| x - 4);
    assert_eq!(r, Ok(Some(Instruction::DepositToVault { amount: 396 })));
    let s = query_state(&l);
    assert_eq!(s.shares_supply, Decimal::zero());
    assert_eq!(s.sponsored_shares, dec(200));
    assert_eq!(s.lottery_shares, Decimal::zero());
    assert_eq!(s.lottery_deposits, dec(400));
}

#[test]
fn epoch_sweeps_whole_reserve() {
    let mut l = setup();
    assert_eq!(execute_epoch_operations(&mut l, no_tax), Ok(None));
    l.state.total_reserve = permille(12_250);
    assert_eq!(execute_epoch_operations(&mut l, no_tax), Err(ContractError::NotRegistered));
    register_contracts(&mut l, &env(OWNER, START, vec![]), 50, 51).unwrap();
    let r = execute_epoch_operations(&mut l, |x| x - 2);
    assert_eq!(r, Ok(Some(Instruction::Pay { recipient: 50, amount: 10 })));
    assert_eq!(query_state(&l).total_reserve, Decimal::zero());
}

#[test]
fn accounting_holds_after_mixed_operations() {
    let mut l = setup();
    deposit(&mut l, &env(ALICE, START, uusd(300)), tickets(&["11111", "22222", "33333"]), dec(1), no_tax).unwrap();
    deposit(&mut l, &env(BOB, START, uusd(200)), tickets(&["11111", "44444"]), permille(1250), no_tax).unwrap();
    gift_tickets(&mut l, &env(CAROL, START, uusd(100)), tickets(&["55555"]), ALICE, dec(1), no_tax).unwrap();
    withdraw(&mut l, &env(BOB, START, vec![]), 1_000, dec(1), no_tax).unwrap();
    let s = query_state(&l);
    let shares: u128 = l.depositors.iter().map(|d| d.shares.atomics).sum();
    let held: usize = l.depositors.iter().map(|d| d.tickets.len()).sum();
    assert_eq!(s.shares_supply.atomics, s.deposit_shares.atomics + s.lottery_shares.atomics);
    assert_eq!(s.shares_supply.atomics, shares);
    assert_eq!(s.total_tickets as usize, held);
    assert_eq!(s.total_tickets as usize, l.registry.len());
    assert_eq!(l.registry.iter().filter(|r| r.holder == ALICE).count(), 4);
}

#[test]
fn depositors_page_in_table_order() {
    let mut l = setup();
    for who in [ALICE, BOB, CAROL] {
        deposit(&mut l, &env(who, START, uusd(100)), tickets(&["12345"]), dec(1), no_tax).unwrap();
    }
    assert_eq!(query_depositors(&l, None, None), vec![ALICE, BOB, CAROL]);
    assert_eq!(query_depositors(&l, Some(ALICE), Some(1)), vec![BOB]);
    assert_eq!(query_depositors(&l, Some(CAROL), None), Vec::<u64>::new());
}

#[test]
fn fresh_deposit_and_withdraw_leave_pool_as_before() {
    let mut l = setup();
    deposit(&mut l, &env(ALICE, START, uusd(300)), tickets(&["11111", "22222", "33333"]), dec(1), no_tax).unwrap();
    let before = query_state(&l);
    let registry: Vec<(String, u64)> = l.registry.iter().map(|r| (r.sequence.clone(), r.holder)).collect();
    deposit(&mut l, &env(BOB, START, uusd(777)), tickets(&["22222", "12121"]), permille(1_070), |x| x - 7).unwrap();
    withdraw(&mut l, &env(BOB, START + 1, vec![]), 1_000, permille(1_080), no_tax).unwrap();
    let after = query_state(&l);
    assert_eq!(after.shares_supply, before.shares_supply);
    assert_eq!(after.deposit_shares, before.deposit_shares);
    assert_eq!(after.lottery_shares, before.lottery_shares);
    assert_eq!(after.lottery_deposits, before.lottery_deposits);
    assert_eq!(after.total_tickets, before.total_tickets);
    let now: Vec<(String, u64)> = l.registry.iter().map(|r| (r.sequence.clone(), r.holder)).collect();
    assert_eq!(now, registry);
}

#[test]
fn withdraw_overflow_is_refused() {
    let mut l = setup();
    deposit(&mut l, &env(ALICE, START, uusd(100)), tickets(&["12345"]), dec(1), no_tax).unwrap();
    let r = withdraw(&mut l, &env(ALICE, START, vec![]), u128::MAX, dec(1), no_tax);
    assert_eq!(r, Err(ContractError::Overflow));
    assert_eq!(query_depositor(&l, ALICE).unwrap().shares, dec(100));
    assert_eq!(registry_len(&l), 1);
}

#[test]
fn claim_overflow_is_refused() {
    let mut l = setup();
    deposit(&mut l, &env(ALICE, START, uusd(100)), tickets(&["12345"]), dec(1), no_tax).unwrap();
    l.depositors[0].unbonding = vec![
        Claim { amount: u128::MAX, release_at: START },
        Claim { amount: 1, release_at: START },
    ];
    let r = claim(&mut l, &env(ALICE, START, vec![]), None, u128::MAX, no_tax);
    assert_eq!(r, Err(ContractError::Overflow));
    assert_eq!(query_depositor(&l, ALICE).unwrap().unbonding.len(), 2);
}

#[test]
fn sponsor_with_zero_rate_is_refused() {
    let mut l = setup();
    let r = sponsor(&mut l, &env(ALICE, START, uusd(100)), Some(false), Decimal::zero(), no_tax);
    assert_eq!(r, Err(ContractError::ZeroExchangeRate));
    assert_eq!(query_state(&l).shares_supply, Decimal::zero());
}

#[test]
fn prize_overflow_is_refused() {
    let mut l = setup();
    l.state.award_available = Decimal { atomics: u128::MAX };
    l.config.prize_distribution = vec![Decimal::zero(), Decimal::zero(), Decimal::zero(), Decimal::zero(), Decimal::zero(), dec(1)];
    deposit(&mut l, &env(ALICE, START, uusd(100)), tickets(&["34280"]), dec(1), no_tax).unwrap();
    execute_lottery(&mut l, &env(CAROL, START + INTERVAL, vec![])).unwrap();
    assert_eq!(handle_prize(&mut l, "34280".to_string()), Err(ContractError::Overflow));
}

#[test]
fn draw_without_winners_keeps_pool() {
    let mut l = setup();
    deposit(&mut l, &env(ALICE, START, uusd(100)), tickets(&["11111"]), dec(1), no_tax).unwrap();
    execute_lottery(&mut l, &env(CAROL, START + INTERVAL, vec![])).unwrap();
    handle_prize(&mut l, "22222".to_string()).unwrap();
    let (_, round) = query_lottery_info(&l, Some(0));
    let round = round.unwrap();
    assert!(round.winners.is_empty());
    assert_eq!(round.total_prizes, Decimal::zero());
    assert_eq!(query_state(&l).award_available, dec(INITIAL_DEPOSIT_AMOUNT));
    let (id, current) = query_lottery_info(&l, None);
    assert_eq!(id, 1);
    assert!(current.is_none());
}

#[test]
fn withdraw_uses_current_split_factor() {
    let mut l = setup();
    deposit(&mut l, &env(ALICE, START, uusd(400)), tickets(&["11111"]), dec(1), no_tax).unwrap();
    deposit(&mut l, &env(BOB, START, uusd(400)), tickets(&["22222"]), dec(1), no_tax).unwrap();
    // both deposits split in half; now the split factor falls to a quarter
    update_config(&mut l, &env(OWNER, START, vec![]), None, None, None, None, None, None, Some(permille(250)), None).unwrap();
    withdraw(&mut l, &env(ALICE, START, vec![]), 800, dec(1), no_tax).unwrap();
    let s = query_state(&l);
    // lottery deposits 400 - 400 x 0.25; deposit shares 400 - (400 - 100); lottery shares 400 - 100
    assert_eq!(s.lottery_deposits, dec(300));
    assert_eq!(s.shares_supply, dec(400));
    assert_eq!(s.deposit_shares, dec(100));
    assert_eq!(s.lottery_shares, dec(300));
}

#[test]
fn withdraw_shortfall_moves_to_other_part() {
    let mut l = setup();
    deposit(&mut l, &env(ALICE, START, uusd(400)), tickets(&["11111"]), dec(1), no_tax).unwrap();
    update_config(&mut l, &env(OWNER, START, vec![]), None, None, None, None, None, None, Some(permille(0)), None).unwrap();
    withdraw(&mut l, &env(ALICE, START, vec![]), 400, dec(1), no_tax).unwrap();
    let s = query_state(&l);
    assert_eq!(s.shares_supply, Decimal::zero());
    assert_eq!(s.deposit_shares, Decimal::zero());
    assert_eq!(s.lottery_shares, Decimal::zero());
    assert_eq!(s.lottery_deposits, dec(200));
}

#[test]
fn sponsored_shares_dilute_withdrawals() {
    let mut l = setup();
    deposit(&mut l, &env(ALICE, START, uusd(300)), tickets(&["11111"]), dec(1), no_tax).unwrap();
    sponsor(&mut l, &env(BOB, START, uusd(100)), None, dec(1), no_tax).unwrap();
    assert_eq!(query_state(&l).shares_supply, dec(300));
    // 400 tokens held for 300 depositor shares and 100 sponsored ones
    let r = withdraw(&mut l, &env(ALICE, START, vec![]), 400, dec(1), no_tax);
    assert_eq!(r, Ok(Instruction::RedeemFromVault { amount: 300 }));
    assert_eq!(query_depositor(&l, ALICE).unwrap().unbonding[0].amount, 300);
}

#[test]
fn prize_fractions_above_one_are_refused() {
    let mut l = setup();
    let r = update_config(&mut l, &env(OWNER, START, vec![]), None, None, None, None,
        Some(vec![permille(600), permille(500)]), None, None, None);
    assert_eq!(r, Err(ContractError::InvalidConfig));
    update_config(&mut l, &env(OWNER, START, vec![]), None, None, None, None,
        Some(vec![permille(600), permille(400)]), None, None, None).unwrap();
    assert_eq!(l.config.prize_distribution, vec![permille(600), permille(400)]);
}

#[test]
fn init_refuses_prize_fractions_above_one() {
    let msg = InitMsg {
        owner: OWNER,
        stable_denom: "uusd".to_string(),
        anchor_contract: 2,
        aterra_contract: 3,
        lottery_interval: INTERVAL,
        block_time: 5,
        ticket_price: dec(100),
        prize_distribution: vec![permille(700), permille(301)],
        reserve_factor: Decimal::zero(),
        split_factor: permille(500),
        unbonding_period: UNBONDING,
    };
    let r = init(&env(OWNER, START, uusd(INITIAL_DEPOSIT_AMOUNT)), 99, msg);
    assert_eq!(r.err(), Some(ContractError::InvalidConfig));
}
