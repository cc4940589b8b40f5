//! Creation, configuration, sponsorship, reserve sweeps and queries.
use vstd::prelude::*;
use crate::decimal::{Decimal, FRACTIONAL, div_spec, from_amount_spec};
use crate::deposit::{Instruction, find_depositor, funds_view, sent_amount, stable_amount};
use crate::error::ContractError;
use crate::state::{
    Addr, Config, ConfigView, Depositor, DepositorView, DrawPhase, Env, Ledger, LedgerView,
    LotteryRound, PoolState, config_ok, fraction_total, holder_count, index_of, lemma_fraction_prefix,
    lemma_index_of, wf,
};

verus! {

/// The reserve the owner must fund the pool with at creation.
pub const INITIAL_DEPOSIT_AMOUNT: u128 = 100_000_000;

pub struct InitMsg {
    pub owner: Addr,
    pub stable_denom: String,
    pub anchor_contract: Addr,
    pub aterra_contract: Addr,
    pub lottery_interval: u64,
    pub block_time: u64,
    pub ticket_price: Decimal,
    pub prize_distribution: Vec<Decimal>,
    pub reserve_factor: Decimal,
    pub split_factor: Decimal,
    pub unbonding_period: u64,
}

/// Why creation is refused.
pub open spec fn init_check(now: u64, sent: u128, msg: &InitMsg) -> Option<ContractError> {
    if sent != INITIAL_DEPOSIT_AMOUNT {
        Some(ContractError::InvalidInitialDeposit)
    } else if msg.split_factor.atomics > FRACTIONAL {
        Some(ContractError::InvalidConfig)
    } else if fraction_total(msg.prize_distribution@) > FRACTIONAL {
        Some(ContractError::InvalidConfig)
    } else if now + msg.lottery_interval > u64::MAX {
        Some(ContractError::Overflow)
    } else {
        None
    }
}

/// Whether the prize fractions sum to at most one.
pub fn fractions_within_one(ds: &Vec<Decimal>) -> (r: bool)
    ensures
        r == (fraction_total(ds@) <= FRACTIONAL),
{
    let mut total: u128 = 0;
    let mut j: usize = 0;
    assert(ds@.take(0) =~= Seq::<Decimal>::empty());
    while j < ds.len()
        invariant
            j <= ds.len(),
            total == fraction_total(ds@.take(j as int)),
            total <= FRACTIONAL,
        decreases ds.len() - j,
    {
        assert(ds@.take(j + 1).drop_last() =~= ds@.take(j as int));
        if ds[j].atomics > FRACTIONAL - total {
            proof {
                lemma_fraction_prefix(ds@, j + 1);
            }
            return false;
        }
        total = total + ds[j].atomics;
        j = j + 1;
    }
    assert(ds@.take(j as int) =~= ds@);
    true
}

/// Creates the ledger. The owner funds the prize pool with exactly the
/// initial reserve; the first draw is due one interval from now.
pub fn init(env: &Env, contract_addr: Addr, msg: InitMsg) -> (r: Result<Ledger, ContractError>)
    ensures
        match init_check(env.time, sent_amount(funds_view(env.sent_funds@), msg.stable_denom@), &msg) {
            Some(e) => r is Err && r->Err_0 == e,
            None => r is Ok && ({
                let l = r->Ok_0@;
                &&& wf(l)
                &&& l.config == (ConfigView {
                    contract_addr,
                    owner: msg.owner,
                    stable_denom: msg.stable_denom@,
                    a_terra_contract: msg.aterra_contract,
                    anchor_contract: msg.anchor_contract,
                    collector_contract: None,
                    distributor_contract: None,
                    lottery_interval: msg.lottery_interval,
                    block_time: msg.block_time,
                    ticket_price: msg.ticket_price,
                    prize_distribution: msg.prize_distribution@,
                    reserve_factor: msg.reserve_factor,
                    split_factor: msg.split_factor,
                    unbonding_period: msg.unbonding_period,
                })
                &&& l.state.award_available.atomics == INITIAL_DEPOSIT_AMOUNT * FRACTIONAL
                &&& l.state.current_balance == INITIAL_DEPOSIT_AMOUNT
                &&& l.state.next_lottery_time == env.time + msg.lottery_interval
                &&& l.state.total_tickets == 0
                &&& l.state.shares_supply.atomics == 0
                &&& l.state.deposit_shares.atomics == 0
                &&& l.state.lottery_shares.atomics == 0
                &&& l.state.sponsored_shares.atomics == 0
                &&& l.state.total_reserve.atomics == 0
                &&& l.state.lottery_deposits.atomics == 0
                &&& l.state.current_lottery == 0
                &&& l.state.phase == DrawPhase::Idle
                &&& l.depositors.len() == 0
                &&& l.registry.len() == 0
                &&& l.rounds.len() == 0
            }),
        },
{
    let sent = stable_amount(&env.sent_funds, &msg.stable_denom);
    if sent != INITIAL_DEPOSIT_AMOUNT {
        return Err(ContractError::InvalidInitialDeposit);
    }
    if msg.split_factor.atomics > FRACTIONAL {
        return Err(ContractError::InvalidConfig);
    }
    if !fractions_within_one(&msg.prize_distribution) {
        return Err(ContractError::InvalidConfig);
    }
    let next = match env.time.checked_add(msg.lottery_interval) {
        Some(t) => t,
        None => return Err(ContractError::Overflow),
    };
    let zero = Decimal::zero();
    let ledger = Ledger {
        config: Config {
            contract_addr,
            owner: msg.owner,
            stable_denom: msg.stable_denom,
            a_terra_contract: msg.aterra_contract,
            anchor_contract: msg.anchor_contract,
            collector_contract: None,
            distributor_contract: None,
            lottery_interval: msg.lottery_interval,
            block_time: msg.block_time,
            ticket_price: msg.ticket_price,
            prize_distribution: msg.prize_distribution,
            reserve_factor: msg.reserve_factor,
            split_factor: msg.split_factor,
            unbonding_period: msg.unbonding_period,
        },
        state: PoolState {
            total_tickets: 0,
            total_reserve: zero,
            lottery_deposits: zero,
            shares_supply: zero,
            deposit_shares: zero,
            lottery_shares: zero,
            sponsored_shares: zero,
            award_available: Decimal { atomics: INITIAL_DEPOSIT_AMOUNT * FRACTIONAL },
            current_balance: INITIAL_DEPOSIT_AMOUNT,
            current_lottery: 0,
            next_lottery_time: next,
            phase: DrawPhase::Idle,
        },
        depositors: Vec::new(),
        registry: Vec::new(),
        rounds: Vec::new(),
    };
    proof {
        let l = ledger@;
        assert(l.registry.len() == 0);
        assert forall|a: Addr| #[trigger] holder_count(l.registry, a) == 0 by {}
    }
    Ok(ledger)
}

/// Registers the fee collector and the distributor, once, by the owner.
pub fn register_contracts(ledger: &mut Ledger, env: &Env, collector_contract: Addr, distributor_contract: Addr) -> (r:
    Result<(), ContractError>)
    requires
        wf(old(ledger)@),
    ensures
        wf(final(ledger)@),
        env.sender != old(ledger).config.owner ==> r == Err::<(), ContractError>(ContractError::Unauthorized)
            && final(ledger)@ == old(ledger)@,
        env.sender == old(ledger).config.owner && (old(ledger).config.collector_contract is Some
            || old(ledger).config.distributor_contract is Some) ==> r == Err::<(), ContractError>(
            ContractError::AlreadyRegistered,
        ) && final(ledger)@ == old(ledger)@,
        env.sender == old(ledger).config.owner && old(ledger).config.collector_contract is None
            && old(ledger).config.distributor_contract is None ==> r is Ok && final(ledger)@ == (
        LedgerView {
            config: ConfigView {
                collector_contract: Some(collector_contract),
                distributor_contract: Some(distributor_contract),
                ..old(ledger)@.config
            },
            ..old(ledger)@
        }),
{
    if env.sender != ledger.config.owner {
        return Err(ContractError::Unauthorized);
    }
    if ledger.config.collector_contract.is_some() || ledger.config.distributor_contract.is_some() {
        return Err(ContractError::AlreadyRegistered);
    }
    ledger.config.collector_contract = Some(collector_contract);
    ledger.config.distributor_contract = Some(distributor_contract);
    Ok(())
}

proof fn lemma_wf_config(l: LedgerView, c: ConfigView)
    requires
        wf(l),
        config_ok(c),
    ensures
        wf(LedgerView { config: c, ..l }),
{
    let l2 = LedgerView { config: c, ..l };
    assert(l2.depositors == l.depositors);
    assert(l2.registry == l.registry);
}

/// The configuration with each given field replaced.
pub open spec fn updated_config(
    c: ConfigView,
    owner: Option<Addr>,
    lottery_interval: Option<u64>,
    block_time: Option<u64>,
    ticket_price: Option<Decimal>,
    prize_distribution: Option<Seq<Decimal>>,
    reserve_factor: Option<Decimal>,
    split_factor: Option<Decimal>,
    unbonding_period: Option<u64>,
) -> ConfigView {
    ConfigView {
        owner: if owner is Some { owner->0 } else { c.owner },
        lottery_interval: if lottery_interval is Some { lottery_interval->0 } else { c.lottery_interval },
        block_time: if block_time is Some { block_time->0 } else { c.block_time },
        ticket_price: if ticket_price is Some { ticket_price->0 } else { c.ticket_price },
        prize_distribution: if prize_distribution is Some {
            prize_distribution->0
        } else {
            c.prize_distribution
        },
        reserve_factor: if reserve_factor is Some { reserve_factor->0 } else { c.reserve_factor },
        split_factor: if split_factor is Some { split_factor->0 } else { c.split_factor },
        unbonding_period: if unbonding_period is Some { unbonding_period->0 } else { c.unbonding_period },
        ..c
    }
}

/// Whether an update sets a fraction above one: the split factor, or prize
/// fractions that sum above one.
pub open spec fn fractions_refused(split_factor: Option<Decimal>, prize_distribution: Option<Seq<Decimal>>) -> bool {
    (split_factor is Some && split_factor->0.atomics > FRACTIONAL) || (prize_distribution is Some
        && fraction_total(prize_distribution->0) > FRACTIONAL)
}

pub open spec fn opt_view(v: Option<Vec<Decimal>>) -> Option<Seq<Decimal>> {
    match v {
        Some(x) => Some(x@),
        None => None,
    }
}

/// Replaces the given configuration fields; only the owner may. A split
/// factor above one, or prize fractions that sum above one, are refused.
pub fn update_config(
    ledger: &mut Ledger,
    env: &Env,
    owner: Option<Addr>,
    lottery_interval: Option<u64>,
    block_time: Option<u64>,
    ticket_price: Option<Decimal>,
    prize_distribution: Option<Vec<Decimal>>,
    reserve_factor: Option<Decimal>,
    split_factor: Option<Decimal>,
    unbonding_period: Option<u64>,
) -> (r: Result<(), ContractError>)
    requires
        wf(old(ledger)@),
    ensures
        wf(final(ledger)@),
        env.sender != old(ledger).config.owner ==> r == Err::<(), ContractError>(ContractError::Unauthorized)
            && final(ledger)@ == old(ledger)@,
        env.sender == old(ledger).config.owner && fractions_refused(
            split_factor,
            opt_view(prize_distribution),
        ) ==> r == Err::<(), ContractError>(ContractError::InvalidConfig) && final(ledger)@ == old(
            ledger,
        )@,
        env.sender == old(ledger).config.owner && !fractions_refused(
            split_factor,
            opt_view(prize_distribution),
        ) ==> r is Ok && final(ledger)@ == (LedgerView {
            config: updated_config(
                old(ledger)@.config,
                owner,
                lottery_interval,
                block_time,
                ticket_price,
                opt_view(prize_distribution),
                reserve_factor,
                split_factor,
                unbonding_period,
            ),
            ..old(ledger)@
        }),
{
    if env.sender != ledger.config.owner {
        return Err(ContractError::Unauthorized);
    }
    match split_factor {
        Some(s) => {
            if s.atomics > FRACTIONAL {
                return Err(ContractError::InvalidConfig);
            }
        },
        None => {},
    }
    match &prize_distribution {
        Some(v) => {
            if !fractions_within_one(v) {
                return Err(ContractError::InvalidConfig);
            }
        },
        None => {},
    }
    match owner {
        Some(o) => ledger.config.owner = o,
        None => {},
    }
    match lottery_interval {
        Some(x) => ledger.config.lottery_interval = x,
        None => {},
    }
    match block_time {
        Some(x) => ledger.config.block_time = x,
        None => {},
    }
    match ticket_price {
        Some(x) => ledger.config.ticket_price = x,
        None => {},
    }
    match prize_distribution {
        Some(x) => ledger.config.prize_distribution = x,
        None => {},
    }
    match reserve_factor {
        Some(x) => ledger.config.reserve_factor = x,
        None => {},
    }
    match split_factor {
        Some(x) => ledger.config.split_factor = x,
        None => {},
    }
    match unbonding_period {
        Some(x) => ledger.config.unbonding_period = x,
        None => {},
    }
    assert(ledger@ == (LedgerView { config: ledger@.config, ..old(ledger)@ }));
    proof {
        lemma_wf_config(old(ledger)@, ledger@.config);
    }
    Ok(())
}

/// The ledger after a sponsorship of `amount`: with `award` set, straight
/// into the prize pool; otherwise minted as sponsored shares, which no
/// depositor owns and which stay outside the share supply.
pub open spec fn sponsor_effect(l: LedgerView, amount: u128, award: Option<bool>, rate: Decimal) -> Result<
    LedgerView,
    ContractError,
> {
    let s = l.state;
    if amount == 0 {
        Err(ContractError::ZeroDeposit)
    } else if award == Some(true) {
        match from_amount_spec(amount) {
            None => Err(ContractError::Overflow),
            Some(a) => if s.award_available.atomics + a.atomics > u128::MAX {
                Err(ContractError::Overflow)
            } else {
                Ok(
                    LedgerView {
                        state: PoolState {
                            award_available: Decimal {
                                atomics: (s.award_available.atomics + a.atomics) as u128,
                            },
                            ..s
                        },
                        ..l
                    },
                )
            },
        }
    } else if rate.atomics == 0 {
        Err(ContractError::ZeroExchangeRate)
    } else {
        match from_amount_spec(amount) {
            None => Err(ContractError::Overflow),
            Some(g) => match div_spec(g, rate) {
                None => Err(ContractError::Overflow),
                Some(m) => if s.sponsored_shares.atomics + m.atomics > u128::MAX
                    || s.lottery_deposits.atomics + g.atomics > u128::MAX {
                    Err(ContractError::Overflow)
                } else {
                    Ok(
                        LedgerView {
                            state: PoolState {
                                sponsored_shares: Decimal {
                                    atomics: (s.sponsored_shares.atomics + m.atomics) as u128,
                                },
                                lottery_deposits: Decimal {
                                    atomics: (s.lottery_deposits.atomics + g.atomics) as u128,
                                },
                                ..s
                            },
                            ..l
                        },
                    )
                },
            },
        }
    }
}

/// Donates the stable funds sent: to the prize pool when `award` is
/// `Some(true)`, otherwise to the lottery-exposed deposits, the net amount
/// after the transfer tax `net_of` going to the yield source.
pub fn sponsor<F: Fn(u128) -> u128>(
    ledger: &mut Ledger,
    env: &Env,
    award: Option<bool>,
    exchange_rate: Decimal,
    net_of: F,
) -> (r: Result<Option<Instruction>, ContractError>)
    requires
        wf(old(ledger)@),
        forall|x: u128| net_of.requires((x,)),
    ensures
        wf(final(ledger)@),
        ({
            let amount = sent_amount(funds_view(env.sent_funds@), old(ledger).config.stable_denom@);
            match sponsor_effect(old(ledger)@, amount, award, exchange_rate) {
                Err(e) => r == Err::<Option<Instruction>, ContractError>(e) && final(ledger)@
                    == old(ledger)@,
                Ok(l) => final(ledger)@ == l && r is Ok && if award == Some(true) {
                    r->Ok_0 is None
                } else {
                    r->Ok_0 is Some && r->Ok_0->0 is DepositToVault && net_of.ensures(
                        (amount,),
                        r->Ok_0->0->DepositToVault_amount,
                    )
                },
            }
        }),
{
    let amount = stable_amount(&env.sent_funds, &ledger.config.stable_denom);
    if amount == 0 {
        return Err(ContractError::ZeroDeposit);
    }
    let s = ledger.state;
    if award == Some(true) {
        let a = match Decimal::from_amount(amount) {
            Some(a) => a,
            None => return Err(ContractError::Overflow),
        };
        if s.award_available.atomics > u128::MAX - a.atomics {
            return Err(ContractError::Overflow);
        }
        ledger.state = PoolState {
            award_available: Decimal { atomics: s.award_available.atomics + a.atomics },
            ..s
        };
        return Ok(None);
    }
    if exchange_rate.atomics == 0 {
        return Err(ContractError::ZeroExchangeRate);
    }
    let g = match Decimal::from_amount(amount) {
        Some(g) => g,
        None => return Err(ContractError::Overflow),
    };
    let m = match g.checked_div(exchange_rate) {
        Some(m) => m,
        None => return Err(ContractError::Overflow),
    };
    if s.sponsored_shares.atomics > u128::MAX - m.atomics || s.lottery_deposits.atomics
        > u128::MAX - g.atomics {
        return Err(ContractError::Overflow);
    }
    ledger.state = PoolState {
        sponsored_shares: Decimal { atomics: s.sponsored_shares.atomics + m.atomics },
        lottery_deposits: Decimal { atomics: s.lottery_deposits.atomics + g.atomics },
        ..s
    };
    let net = net_of(amount);
    Ok(Some(Instruction::DepositToVault { amount: net }))
}

/// Why the reserve sweep is refused.
pub open spec fn epoch_check(l: LedgerView) -> Option<ContractError> {
    if l.state.total_reserve.atomics / FRACTIONAL != 0 && l.config.collector_contract is None {
        Some(ContractError::NotRegistered)
    } else {
        None
    }
}

/// Sweeps the accrued reserve to the fee collector: its whole part, net of
/// the transfer tax `net_of`, is paid, and the counter is zeroed.
pub fn execute_epoch_operations<F: Fn(u128) -> u128>(ledger: &mut Ledger, net_of: F) -> (r: Result<
    Option<Instruction>,
    ContractError,
>)
    requires
        wf(old(ledger)@),
        forall|x: u128| net_of.requires((x,)),
    ensures
        wf(final(ledger)@),
        match epoch_check(old(ledger)@) {
            Some(e) => r == Err::<Option<Instruction>, ContractError>(e) && final(ledger)@
                == old(ledger)@,
            None => {
                let reserves = old(ledger).state.total_reserve.atomics / FRACTIONAL;
                &&& r is Ok
                &&& final(ledger)@ == (LedgerView {
                    state: PoolState {
                        total_reserve: Decimal { atomics: 0 },
                        ..old(ledger)@.state
                    },
                    ..old(ledger)@
                })
                &&& reserves == 0 ==> r->Ok_0 is None
                &&& reserves != 0 ==> r->Ok_0 is Some && r->Ok_0->0 is Pay
                    && r->Ok_0->0->Pay_recipient == old(ledger).config.collector_contract->0
                    && net_of.ensures((reserves as u128,), r->Ok_0->0->Pay_amount)
            },
        },
{
    let reserves = ledger.state.total_reserve.to_amount();
    let s = ledger.state;
    if reserves == 0 {
        ledger.state = PoolState { total_reserve: Decimal::zero(), ..s };
        return Ok(None);
    }
    let collector = match ledger.config.collector_contract {
        Some(c) => c,
        None => return Err(ContractError::NotRegistered),
    };
    let net = net_of(reserves);
    ledger.state = PoolState {
        total_reserve: Decimal::zero(),
        ..s
    };
    Ok(Some(Instruction::Pay { recipient: collector, amount: net }))
}

/// The configuration.
pub fn query_config(ledger: &Ledger) -> (r: &Config)
    ensures
        r@ == ledger@.config,
{
    &ledger.config
}

/// The pool state.
pub fn query_state(ledger: &Ledger) -> (r: PoolState)
    ensures
        r == ledger.state,
{
    ledger.state
}

/// The round `lottery_id`, by default the current one, with its record if
/// it has been drawn.
pub fn query_lottery_info(ledger: &Ledger, lottery_id: Option<u64>) -> (r: (u64, Option<&LotteryRound>))
    ensures
        r.0 == (if lottery_id is Some { lottery_id->0 } else { ledger.state.current_lottery }),
        r.0 < ledger.rounds.len() ==> r.1 is Some && r.1->0@ == ledger@.rounds[r.0 as int],
        r.0 >= ledger.rounds.len() ==> r.1 is None,
{
    let id = match lottery_id {
        Some(id) => id,
        None => ledger.state.current_lottery,
    };
    if id <= usize::MAX as u64 && (id as usize) < ledger.rounds.len() {
        (id, Some(&ledger.rounds[id as usize]))
    } else {
        (id, None)
    }
}

/// The record of `addr`, if they ever deposited.
pub fn query_depositor(ledger: &Ledger, addr: Addr) -> (r: Option<&Depositor>)
    requires
        wf(ledger@),
    ensures
        r is Some <==> index_of(ledger@.depositors, addr) >= 0,
        r is Some ==> r->0@ == ledger@.depositors[index_of(ledger@.depositors, addr)],
{
    match find_depositor(&ledger.depositors, addr) {
        Some(i) => {
            proof {
                assert(ledger@.depositors[i as int] == ledger.depositors@[i as int]@);
                lemma_index_of(ledger@.depositors, addr, i as int);
            }
            Some(&ledger.depositors[i])
        },
        None => {
            proof {
                if exists|j: int| 0 <= j < ledger@.depositors.len() && ledger@.depositors[j].address == addr {
                    let j = choose|j: int| 0 <= j < ledger@.depositors.len() && ledger@.depositors[j].address == addr;
                    assert(ledger@.depositors[j] == ledger.depositors@[j]@);
                }
            }
            None
        },
    }
}

/// Default and largest page size of `query_depositors`.
pub const DEFAULT_LIMIT: u32 = 10;
pub const MAX_LIMIT: u32 = 30;

/// Depositor addresses in table order, one page: those after
/// `start_after` (from the first when it is absent or unknown), at most
/// `limit` of them (by default 10, never more than 30).
pub fn query_depositors(ledger: &Ledger, start_after: Option<Addr>, limit: Option<u32>) -> (r: Vec<Addr>)
    requires
        wf(ledger@),
    ensures
        ({
            let deps = ledger@.depositors;
            let start = if start_after is Some && index_of(deps, start_after->0) >= 0 {
                index_of(deps, start_after->0) + 1
            } else {
                0
            };
            let lim = if limit is Some {
                if limit->0 > MAX_LIMIT { MAX_LIMIT } else { limit->0 }
            } else {
                DEFAULT_LIMIT
            };
            let end = if start + lim > deps.len() { deps.len() as int } else { start + lim };
            r@ == deps.subrange(start, end).map_values(|d: DepositorView| d.address)
        }),
{
    let ghost deps = ledger@.depositors;
    let start: usize = match start_after {
        Some(a) => match find_depositor(&ledger.depositors, a) {
            Some(i) => {
                proof {
                    assert(deps[i as int] == ledger.depositors@[i as int]@);
                    lemma_index_of(deps, a, i as int);
                }
                i + 1
            },
            None => {
                proof {
                    if exists|j: int| 0 <= j < deps.len() && deps[j].address == a {
                        let j = choose|j: int| 0 <= j < deps.len() && deps[j].address == a;
                        assert(deps[j] == ledger.depositors@[j]@);
                    }
                }
                0
            },
        },
        None => 0,
    };
    let lim: usize = match limit {
        Some(l) => if l > MAX_LIMIT { MAX_LIMIT as usize } else { l as usize },
        None => DEFAULT_LIMIT as usize,
    };
    let end: usize = if lim > ledger.depositors.len() - start { ledger.depositors.len() } else { start + lim };
    let mut out: Vec<Addr> = Vec::new();
    let mut i: usize = start;
    while i < end
        invariant
            start <= i <= end,
            end <= ledger.depositors.len(),
            deps == ledger@.depositors,
            out@ == deps.subrange(start as int, i as int).map_values(|d: DepositorView| d.address),
        decreases end - i,
    {
        assert(deps[i as int] == ledger.depositors@[i as int]@);
        out.push(ledger.depositors[i].address);
        assert(deps.subrange(start as int, i + 1).map_values(|d: DepositorView| d.address) =~= deps.subrange(start as int, i as int).map_values(|d: DepositorView| d.address).push(deps[i as int].address));
        i = i + 1;
    }
    out
}

} // verus!
