//! Deposits: minting shares for stable funds and registering tickets.
use vstd::prelude::*;
use crate::decimal::{Decimal, FRACTIONAL, from_amount_spec, div_spec, mul_spec, lemma_mul_by_fraction};
use crate::error::ContractError;
use crate::sequence::{is_valid_sequence, valid_sequence, SEQUENCE_DIGITS};
use crate::state::{
    Addr, Coin, Depositor, DepositorView, Env, Ledger, LedgerView, PoolState, Registration,
    held_by, holder_count, index_of, lemma_held_by_len, lemma_index_of, lemma_sum_nonneg_le,
    lemma_sum_push, lemma_sum_update, lemma_unique_push, lemma_unique_update, shares_fn,
    tickets_fn, total_shares, total_ticket_count, wf,
};

verus! {

/// An instruction for the host to carry out after the call commits.
#[derive(Clone, Copy, Debug, PartialEq, Eq, Structural)]
pub enum Instruction {
    /// Deposit stable funds into the yield source.
    DepositToVault { amount: u128 },
    /// Redeem yield-source tokens for stable funds.
    RedeemFromVault { amount: u128 },
    /// Pay stable funds to an account.
    Pay { recipient: Addr, amount: u128 },
    /// Run prize assignment, once the redemption has settled.
    AssignPrizes,
}

pub open spec fn funds_view(funds: Seq<Coin>) -> Seq<(Seq<char>, u128)> {
    funds.map_values(|c: Coin| (c.denom@, c.amount))
}

/// Amount of the first coin of `denom`, or zero.
pub open spec fn sent_amount(funds: Seq<(Seq<char>, u128)>, denom: Seq<char>) -> u128
    decreases funds.len(),
{
    if funds.len() == 0 {
        0
    } else if funds[0].0 == denom {
        funds[0].1
    } else {
        sent_amount(funds.drop_first(), denom)
    }
}

pub open spec fn strings_view(v: Seq<String>) -> Seq<Seq<char>> {
    v.map_values(|s: String| s@)
}

pub open spec fn all_valid(cs: Seq<Seq<char>>) -> bool {
    forall|i: int| 0 <= i < cs.len() ==> valid_sequence(#[trigger] cs[i], SEQUENCE_DIGITS as nat)
}

/// Registry entries for tickets `cs` held by `to`.
pub open spec fn entries_for(cs: Seq<Seq<char>>, to: Addr) -> Seq<(Seq<char>, Addr)> {
    cs.map_values(|c: Seq<char>| (c, to))
}

pub open spec fn empty_depositor(a: Addr) -> DepositorView {
    DepositorView {
        address: a,
        deposit_amount: 0,
        shares: Decimal { atomics: 0 },
        redeemable: Decimal { atomics: 0 },
        tickets: Seq::empty(),
        unbonding: Seq::empty(),
    }
}

/// The record of `a`; a fresh one where there is none.
pub open spec fn record_of(deps: Seq<DepositorView>, a: Addr) -> DepositorView {
    let i = index_of(deps, a);
    if i >= 0 {
        deps[i]
    } else {
        empty_depositor(a)
    }
}

/// The table with the record of `a` replaced by `d`, or `d` appended.
pub open spec fn with_record(deps: Seq<DepositorView>, a: Addr, d: DepositorView) -> Seq<
    DepositorView,
> {
    let i = index_of(deps, a);
    if i >= 0 {
        deps.update(i, d)
    } else {
        deps.push(d)
    }
}

/// Shares minted for `net` at `rate`, their lottery-exposed part, and the
/// lottery-exposed part of the gross `amount`.
pub open spec fn mint_spec(amount: u128, net: u128, rate: Decimal, split: Decimal) -> Option<
    (Decimal, Decimal, Decimal),
> {
    match from_amount_spec(net) {
        None => None,
        Some(n) => match div_spec(n, rate) {
            None => None,
            Some(minted) => match mul_spec(minted, split) {
                None => None,
                Some(lp) => match from_amount_spec(amount) {
                    None => None,
                    Some(g) => match mul_spec(g, split) {
                        None => None,
                        Some(ld) => Some((minted, lp, ld)),
                    },
                },
            },
        },
    }
}

/// The ledger after `to` is credited a deposit of `amount` (gross), of which
/// `net` reached the yield source, for the tickets `cs`.
pub open spec fn deposit_effect(
    l: LedgerView,
    to: Addr,
    amount: u128,
    cs: Seq<Seq<char>>,
    rate: Decimal,
    net: u128,
) -> Result<LedgerView, ContractError> {
    if rate.atomics == 0 {
        Err(ContractError::ZeroExchangeRate)
    } else {
        match mint_spec(amount, net, rate, l.config.split_factor) {
            None => Err(ContractError::Overflow),
            Some((minted, lp, ld)) => {
                let d = record_of(l.depositors, to);
                let s = l.state;
                if d.deposit_amount + amount > u128::MAX || s.total_tickets + cs.len() > u64::MAX
                    || s.shares_supply.atomics + minted.atomics > u128::MAX
                    || s.lottery_deposits.atomics + ld.atomics > u128::MAX {
                    Err(ContractError::Overflow)
                } else {
                    let nd = DepositorView {
                        deposit_amount: (d.deposit_amount + amount) as u128,
                        shares: Decimal { atomics: (d.shares.atomics + minted.atomics) as u128 },
                        tickets: d.tickets + cs,
                        ..d
                    };
                    let ns = PoolState {
                        total_tickets: (s.total_tickets + cs.len()) as u64,
                        shares_supply: Decimal {
                            atomics: (s.shares_supply.atomics + minted.atomics) as u128,
                        },
                        deposit_shares: Decimal {
                            atomics: (s.deposit_shares.atomics + minted.atomics
                                - lp.atomics) as u128,
                        },
                        lottery_shares: Decimal {
                            atomics: (s.lottery_shares.atomics + lp.atomics) as u128,
                        },
                        lottery_deposits: Decimal {
                            atomics: (s.lottery_deposits.atomics + ld.atomics) as u128,
                        },
                        ..s
                    };
                    Ok(
                        LedgerView {
                            state: ns,
                            depositors: with_record(l.depositors, to, nd),
                            registry: l.registry + entries_for(cs, to),
                            ..l
                        },
                    )
                }
            },
        }
    }
}

/// Amount sent in `denom`: that of the first coin of that denomination.
pub fn stable_amount(funds: &Vec<Coin>, denom: &String) -> (r: u128)
    ensures
        r == sent_amount(funds_view(funds@), denom@),
{
    let ghost fv = funds_view(funds@);
    let mut i: usize = 0;
    assert(fv.skip(0) =~= fv);
    while i < funds.len()
        invariant
            i <= funds.len(),
            fv == funds_view(funds@),
            sent_amount(fv, denom@) == sent_amount(fv.skip(i as int), denom@),
        decreases funds.len() - i,
    {
        assert(fv.skip(i as int)[0] == fv[i as int]);
        if funds[i].denom == *denom {
            return funds[i].amount;
        }
        assert(fv.skip(i as int).drop_first() =~= fv.skip(i + 1));
        i = i + 1;
    }
    assert(fv.skip(i as int).len() == 0);
    0
}

/// Whether every sequence is well-formed.
pub fn all_valid_sequences(cs: &Vec<String>) -> (r: bool)
    ensures
        r == all_valid(strings_view(cs@)),
{
    let mut i: usize = 0;
    while i < cs.len()
        invariant
            i <= cs.len(),
            forall|j: int| 0 <= j < i ==> valid_sequence(#[trigger] cs@[j]@, SEQUENCE_DIGITS as nat),
        decreases cs.len() - i,
    {
        if !is_valid_sequence(cs[i].as_str(), SEQUENCE_DIGITS) {
            assert(strings_view(cs@)[i as int] == cs@[i as int]@);
            return false;
        }
        i = i + 1;
    }
    assert forall|j: int| 0 <= j < cs.len() implies valid_sequence(
        #[trigger] strings_view(cs@)[j],
        SEQUENCE_DIGITS as nat,
    ) by {
        assert(strings_view(cs@)[j] == cs@[j]@);
    }
    true
}

/// Position of the record of `a`.
pub fn find_depositor(deps: &Vec<Depositor>, a: Addr) -> (r: Option<usize>)
    ensures
        match r {
            Some(i) => i < deps.len() && deps@[i as int].address == a,
            None => forall|j: int| 0 <= j < deps.len() ==> (#[trigger] deps@[j]).address != a,
        },
{
    let mut i: usize = 0;
    while i < deps.len()
        invariant
            i <= deps.len(),
            forall|j: int| 0 <= j < i ==> (#[trigger] deps@[j]).address != a,
        decreases deps.len() - i,
    {
        if deps[i].address == a {
            return Some(i);
        }
        i = i + 1;
    }
    None
}

pub proof fn lemma_holder_count_append(
    reg: Seq<(Seq<char>, Addr)>,
    cs: Seq<Seq<char>>,
    to: Addr,
    a: Addr,
)
    ensures
        holder_count(reg + entries_for(cs, to), a) == holder_count(reg, a) + if a == to {
            cs.len()
        } else {
            0
        },
    decreases cs.len(),
{
    if cs.len() == 0 {
        assert(reg + entries_for(cs, to) =~= reg);
    } else {
        lemma_holder_count_append(reg, cs.drop_last(), to, a);
        assert((reg + entries_for(cs, to)).drop_last() =~= reg + entries_for(cs.drop_last(), to));
    }
}

pub proof fn lemma_held_by_append(
    reg: Seq<(Seq<char>, Addr)>,
    cs: Seq<Seq<char>>,
    to: Addr,
    a: Addr,
)
    ensures
        held_by(reg + entries_for(cs, to), a) == held_by(reg, a) + if a == to {
            cs
        } else {
            Seq::<Seq<char>>::empty()
        },
    decreases cs.len(),
{
    if cs.len() == 0 {
        assert(reg + entries_for(cs, to) =~= reg);
        assert(held_by(reg, a) + Seq::<Seq<char>>::empty() =~= held_by(reg, a));
        assert(held_by(reg, a) + cs =~= held_by(reg, a));
    } else {
        lemma_held_by_append(reg, cs.drop_last(), to, a);
        assert((reg + entries_for(cs, to)).drop_last() =~= reg + entries_for(cs.drop_last(), to));
        if a == to {
            assert((held_by(reg, a) + cs.drop_last()).push(cs.last()) =~= held_by(reg, a) + cs);
        }
    }
}

/// Records the tickets `cs` for `holder`, in the holder's list and in the registry.
fn push_tickets(
    registry: &mut Vec<Registration>,
    tickets: &mut Vec<String>,
    cs: &Vec<String>,
    holder: Addr,
)
    ensures
        final(registry)@.map_values(|r: Registration| r@) == old(registry)@.map_values(
            |r: Registration| r@,
        ) + entries_for(strings_view(cs@), holder),
        strings_view(final(tickets)@) == strings_view(old(tickets)@) + strings_view(cs@),
{
    let ghost reg0 = registry@.map_values(|r: Registration| r@);
    let ghost t0 = strings_view(tickets@);
    let ghost csv = strings_view(cs@);
    let mut j: usize = 0;
    while j < cs.len()
        invariant
            j <= cs.len(),
            csv == strings_view(cs@),
            registry@.map_values(|r: Registration| r@) == reg0 + entries_for(csv.take(j as int), holder),
            strings_view(tickets@) == t0 + csv.take(j as int),
        decreases cs.len() - j,
    {
        let ghost rv = registry@.map_values(|r: Registration| r@);
        let ghost tv = strings_view(tickets@);
        registry.push(Registration { sequence: cs[j].clone(), holder });
        tickets.push(cs[j].clone());
        assert(registry@.map_values(|r: Registration| r@) =~= rv.push((csv[j as int], holder)));
        assert(strings_view(tickets@) =~= tv.push(csv[j as int]));
        assert(csv.take(j + 1) =~= csv.take(j as int).push(csv[j as int]));
        assert(entries_for(csv.take(j + 1), holder) =~= entries_for(csv.take(j as int), holder).push(
            (csv[j as int], holder),
        ));
        j = j + 1;
    }
    assert(csv.take(j as int) =~= csv);
}

/// Amount that pays for `k` tickets at `price`, rounded down.
pub open spec fn required_amount(price: Decimal, k: nat) -> Option<u128> {
    if k > u128::MAX {
        None
    } else {
        match from_amount_spec(k as u128) {
            None => None,
            Some(kd) => match mul_spec(kd, price) {
                None => None,
                Some(p) => Some((p.atomics / FRACTIONAL) as u128),
            },
        }
    }
}

/// Why a deposit of `amount` for the tickets `cs` is refused before any
/// funds move: `exact` asks the amount to pay exactly for the tickets,
/// otherwise to cover them.
pub open spec fn deposit_check(
    l: LedgerView,
    now: u64,
    amount: u128,
    cs: Seq<Seq<char>>,
    exact: bool,
) -> Option<ContractError> {
    if amount == 0 {
        Some(ContractError::ZeroDeposit)
    } else {
        match required_amount(l.config.ticket_price, cs.len()) {
            None => Some(ContractError::Overflow),
            Some(req) => if exact && amount != req {
                Some(ContractError::WrongDepositAmount)
            } else if !exact && amount < req {
                Some(ContractError::InsufficientDeposit)
            } else if now >= l.state.next_lottery_time {
                Some(ContractError::LotteryAboutToStart)
            } else if !all_valid(cs) {
                Some(ContractError::InvalidSequence)
            } else {
                None
            },
        }
    }
}

/// What a deposit call returns and leaves: refused before any funds move,
/// or credited with the net amount that `net_of` gave, or refused after.
pub open spec fn deposit_outcome<F: Fn(u128) -> u128>(
    pre: LedgerView,
    post: LedgerView,
    to: Addr,
    amount: u128,
    cs: Seq<Seq<char>>,
    exact: bool,
    now: u64,
    rate: Decimal,
    net_of: F,
    r: Result<Instruction, ContractError>,
) -> bool {
    match deposit_check(pre, now, amount, cs, exact) {
        Some(e) => r == Err::<Instruction, ContractError>(e) && post == pre,
        None => match r {
            Ok(Instruction::DepositToVault { amount: n }) => net_of.ensures((amount,), n)
                && deposit_effect(pre, to, amount, cs, rate, n) == Ok::<
                LedgerView,
                ContractError,
            >(post),
            Ok(_) => false,
            Err(e) => post == pre && exists|n: u128|
                net_of.ensures((amount,), n) && deposit_effect(pre, to, amount, cs, rate, n)
                    == Err::<LedgerView, ContractError>(e),
        },
    }
}

fn check_deposit(ledger: &Ledger, now: u64, amount: u128, cs: &Vec<String>, exact: bool) -> (r:
    Option<ContractError>)
    ensures
        r == deposit_check(ledger@, now, amount, strings_view(cs@), exact),
{
    if amount == 0 {
        return Some(ContractError::ZeroDeposit);
    }
    let k = cs.len() as u128;
    let req = match Decimal::from_amount(k) {
        None => return Some(ContractError::Overflow),
        Some(kd) => match kd.checked_mul(ledger.config.ticket_price) {
            None => return Some(ContractError::Overflow),
            Some(p) => p.to_amount(),
        },
    };
    if exact && amount != req {
        return Some(ContractError::WrongDepositAmount);
    }
    if !exact && amount < req {
        return Some(ContractError::InsufficientDeposit);
    }
    if now >= ledger.state.next_lottery_time {
        return Some(ContractError::LotteryAboutToStart);
    }
    if !all_valid_sequences(cs) {
        return Some(ContractError::InvalidSequence);
    }
    None
}

/// Credits `to` with a deposit of `amount`, of which `net` reached the
/// yield source, for the tickets `cs`.
fn credit_deposit(
    ledger: &mut Ledger,
    to: Addr,
    amount: u128,
    cs: &Vec<String>,
    rate: Decimal,
    net: u128,
) -> (r: Result<(), ContractError>)
    requires
        wf(old(ledger)@),
        all_valid(strings_view(cs@)),
    ensures
        wf(final(ledger)@),
        match deposit_effect(old(ledger)@, to, amount, strings_view(cs@), rate, net) {
            Ok(l) => r is Ok && final(ledger)@ == l,
            Err(e) => r == Err::<(), ContractError>(e) && final(ledger)@ == old(ledger)@,
        },
{
    let ghost l0 = ledger@;
    let ghost csv = strings_view(cs@);
    if rate.atomics == 0 {
        return Err(ContractError::ZeroExchangeRate);
    }
    let split = ledger.config.split_factor;
    let n = match Decimal::from_amount(net) {
        Some(n) => n,
        None => return Err(ContractError::Overflow),
    };
    let minted = match n.checked_div(rate) {
        Some(m) => m,
        None => return Err(ContractError::Overflow),
    };
    let lp = match minted.checked_mul(split) {
        Some(x) => x,
        None => return Err(ContractError::Overflow),
    };
    let g = match Decimal::from_amount(amount) {
        Some(x) => x,
        None => return Err(ContractError::Overflow),
    };
    let ld = match g.checked_mul(split) {
        Some(x) => x,
        None => return Err(ContractError::Overflow),
    };
    let idx = find_depositor(&ledger.depositors, to);
    let ghost d0 = record_of(l0.depositors, to);
    proof {
        match idx {
            Some(i) => {
                assert(l0.depositors[i as int] == ledger.depositors@[i as int]@);
                lemma_index_of(l0.depositors, to, i as int);
            },
            None => {
                assert(!exists|j: int| 0 <= j < l0.depositors.len() && l0.depositors[j].address == to) by {
                    assert forall|j: int| 0 <= j < l0.depositors.len() implies l0.depositors[j].address != to by {
                        assert(l0.depositors[j] == ledger.depositors@[j]@);
                    }
                }
            },
        }
    }
    let cur = match idx {
        Some(i) => ledger.depositors[i].deposit_amount,
        None => 0,
    };
    assert(cur == d0.deposit_amount);
    if cur > u128::MAX - amount || cs.len() as u128 > (u64::MAX - ledger.state.total_tickets) as u128
        || ledger.state.shares_supply.atomics > u128::MAX - minted.atomics
        || ledger.state.lottery_deposits.atomics > u128::MAX - ld.atomics {
        return Err(ContractError::Overflow);
    }
    proof {
        lemma_mul_by_fraction(minted.atomics as int, split.atomics as int);
        if idx is Some {
            let i = index_of(l0.depositors, to);
            lemma_sum_nonneg_le(l0.depositors, i, shares_fn());
        }
    }
    let mut d = match idx {
        Some(i) => ledger.depositors.remove(i),
        None => Depositor {
            address: to,
            deposit_amount: 0,
            shares: Decimal::zero(),
            redeemable: Decimal::zero(),
            tickets: Vec::new(),
            unbonding: Vec::new(),
        },
    };
    assert(d@.tickets =~= d0.tickets);
    assert(d@ == d0);
    d.deposit_amount = d.deposit_amount + amount;
    d.shares = Decimal { atomics: d.shares.atomics + minted.atomics };
    push_tickets(&mut ledger.registry, &mut d.tickets, cs, to);
    let ghost nd = d@;
    match idx {
        Some(i) => {
            ledger.depositors.insert(i, d);
        },
        None => {
            ledger.depositors.push(d);
        },
    }
    let k = cs.len() as u64;
    let s = ledger.state;
    ledger.state = PoolState {
        total_tickets: s.total_tickets + k,
        shares_supply: Decimal { atomics: s.shares_supply.atomics + minted.atomics },
        deposit_shares: Decimal { atomics: s.deposit_shares.atomics + (minted.atomics - lp.atomics) },
        lottery_shares: Decimal { atomics: s.lottery_shares.atomics + lp.atomics },
        lottery_deposits: Decimal { atomics: s.lottery_deposits.atomics + ld.atomics },
        ..s
    };
    proof {
        let deps1 = with_record(l0.depositors, to, nd);
        assert(ledger@.depositors =~= deps1) by {
            match idx {
                Some(i) => {
                    assert forall|j: int| 0 <= j < deps1.len() implies ledger@.depositors[j] == deps1[j] by {
                        if j != i {
                            assert(ledger.depositors@[j] == old(ledger).depositors@[j]);
                        }
                    }
                },
                None => {
                    assert forall|j: int| 0 <= j < deps1.len() implies ledger@.depositors[j] == deps1[j] by {
                        if j < l0.depositors.len() {
                            assert(ledger.depositors@[j] == old(ledger).depositors@[j]);
                        }
                    }
                },
            }
        }
        assert(ledger@.rounds =~= l0.rounds);
        assert(ledger@ == deposit_effect(l0, to, amount, csv, rate, net)->Ok_0);
        lemma_credit_wf(l0, to, csv, minted, lp, ld, amount, ledger@);
    }
    Ok(())
}

proof fn lemma_credit_wf(
    l0: LedgerView,
    to: Addr,
    cs: Seq<Seq<char>>,
    minted: Decimal,
    lp: Decimal,
    ld: Decimal,
    amount: u128,
    l1: LedgerView,
)
    requires
        wf(l0),
        all_valid(cs),
        lp.atomics <= minted.atomics,
        ({
            let d = record_of(l0.depositors, to);
            let s = l0.state;
            &&& d.deposit_amount + amount <= u128::MAX
            &&& s.total_tickets + cs.len() <= u64::MAX
            &&& s.shares_supply.atomics + minted.atomics <= u128::MAX
            &&& s.lottery_deposits.atomics + ld.atomics <= u128::MAX
            &&& l1.config == l0.config
            &&& l1.rounds == l0.rounds
            &&& l1.registry == l0.registry + entries_for(cs, to)
            &&& l1.depositors == with_record(
                l0.depositors,
                to,
                DepositorView {
                    deposit_amount: (d.deposit_amount + amount) as u128,
                    shares: Decimal { atomics: (d.shares.atomics + minted.atomics) as u128 },
                    tickets: d.tickets + cs,
                    ..d
                },
            )
            &&& l1.state == PoolState {
                total_tickets: (s.total_tickets + cs.len()) as u64,
                shares_supply: Decimal {
                    atomics: (s.shares_supply.atomics + minted.atomics) as u128,
                },
                deposit_shares: Decimal {
                    atomics: (s.deposit_shares.atomics + minted.atomics - lp.atomics) as u128,
                },
                lottery_shares: Decimal { atomics: (s.lottery_shares.atomics + lp.atomics) as u128 },
                lottery_deposits: Decimal {
                    atomics: (s.lottery_deposits.atomics + ld.atomics) as u128,
                },
                ..s
            }
        }),
    ensures
        wf(l1),
{
    let deps = l0.depositors;
    let d = record_of(deps, to);
    let i = index_of(deps, to);
    let nd = l1.depositors[if i >= 0 { i } else { deps.len() as int }];
    assert forall|a: Addr| #[trigger] holder_count(l1.registry, a) == holder_count(l0.registry, a)
        + if a == to { cs.len() } else { 0 } by {
        lemma_holder_count_append(l0.registry, cs, to, a);
    }
    if i >= 0 {
        lemma_sum_nonneg_le(deps, i, shares_fn());
        assert(d.shares.atomics + minted.atomics <= u128::MAX);
        lemma_sum_update(deps, i, nd, shares_fn());
        lemma_unique_update(deps, i, nd);
        lemma_sum_update(deps, i, nd, tickets_fn());
        assert forall|j: int| 0 <= j < l1.depositors.len() implies holder_count(
            l1.registry,
            #[trigger] l1.depositors[j].address,
        ) == l1.depositors[j].tickets.len() by {
            if j != i {
                assert(deps[j].address != to);
            }
        }
    } else {
        lemma_sum_push(deps, nd, shares_fn());
        lemma_unique_push(deps, nd);
        lemma_sum_push(deps, nd, tickets_fn());
        assert(holder_count(l0.registry, to) == 0);
        assert forall|j: int| 0 <= j < l1.depositors.len() implies holder_count(
            l1.registry,
            #[trigger] l1.depositors[j].address,
        ) == l1.depositors[j].tickets.len() by {
            if j < deps.len() {
                assert(deps[j].address != to);
            }
        }
    }
    assert forall|j: int| 0 <= j < l1.depositors.len() implies held_by(
        l1.registry,
        #[trigger] l1.depositors[j].address,
    ).to_multiset() == l1.depositors[j].tickets.to_multiset() by {
        let a = l1.depositors[j].address;
        lemma_held_by_append(l0.registry, cs, to, a);
        let w = if i >= 0 { i } else { deps.len() as int };
        if j == w {
            vstd::seq_lib::lemma_multiset_commutative(held_by(l0.registry, to), cs);
            vstd::seq_lib::lemma_multiset_commutative(d.tickets, cs);
            if i < 0 {
                lemma_held_by_len(l0.registry, to);
                assert(held_by(l0.registry, to) =~= d.tickets);
            } else {
                assert(deps[i].address == to);
            }
        } else {
            assert(l1.depositors[j] == deps[j]);
            assert(deps[j].address != to);
            assert(held_by(l0.registry, a) + Seq::<Seq<char>>::empty() =~= held_by(l0.registry, a));
        }
    }
    assert forall|a: Addr| #[trigger] holder_count(l1.registry, a) > 0 implies exists|j: int|
        0 <= j < l1.depositors.len() && l1.depositors[j].address == a by {
        if a == to {
            let w = if i >= 0 { i } else { deps.len() as int };
            assert(l1.depositors[w].address == a);
        } else {
            assert(holder_count(l0.registry, a) > 0);
            let j = choose|j: int| 0 <= j < deps.len() && deps[j].address == a;
            assert(l1.depositors[j].address == a);
        }
    }
    assert forall|j: int| 0 <= j < l1.registry.len() implies valid_sequence(
        #[trigger] l1.registry[j].0,
        SEQUENCE_DIGITS as nat,
    ) by {
        if j >= l0.registry.len() {
            assert(l1.registry[j].0 == cs[j - l0.registry.len()]);
        }
    }
    assert(l1.state.shares_supply.atomics == total_shares(l1.depositors));
    assert(l1.state.total_tickets == total_ticket_count(l1.depositors));
    assert(l1.state.total_tickets == l1.registry.len());
}

fn deposit_for<F: Fn(u128) -> u128>(
    ledger: &mut Ledger,
    to: Addr,
    now: u64,
    amount: u128,
    cs: &Vec<String>,
    exact: bool,
    exchange_rate: Decimal,
    net_of: F,
) -> (r: Result<Instruction, ContractError>)
    requires
        wf(old(ledger)@),
        forall|x: u128| net_of.requires((x,)),
    ensures
        wf(final(ledger)@),
        deposit_outcome(
            old(ledger)@,
            final(ledger)@,
            to,
            amount,
            strings_view(cs@),
            exact,
            now,
            exchange_rate,
            net_of,
            r,
        ),
{
    match check_deposit(ledger, now, amount, cs, exact) {
        Some(e) => {
            return Err(e);
        },
        None => {},
    }
    let net = net_of(amount);
    match credit_deposit(ledger, to, amount, cs, exchange_rate, net) {
        Ok(()) => Ok(Instruction::DepositToVault { amount: net }),
        Err(e) => Err(e),
    }
}

/// Buys one ticket for the sender. The stable funds sent must pay exactly
/// for it; the shares minted are the net amount over the exchange rate.
pub fn single_deposit<F: Fn(u128) -> u128>(
    ledger: &mut Ledger,
    env: &Env,
    combination: String,
    exchange_rate: Decimal,
    net_of: F,
) -> (r: Result<Instruction, ContractError>)
    requires
        wf(old(ledger)@),
        forall|x: u128| net_of.requires((x,)),
    ensures
        wf(final(ledger)@),
        deposit_outcome(
            old(ledger)@,
            final(ledger)@,
            env.sender,
            sent_amount(funds_view(env.sent_funds@), old(ledger).config.stable_denom@),
            seq![combination@],
            true,
            env.time,
            exchange_rate,
            net_of,
            r,
        ),
{
    let amount = stable_amount(&env.sent_funds, &ledger.config.stable_denom);
    let ghost c = combination@;
    let cs = vec![combination];
    assert(strings_view(cs@) =~= seq![c]);
    deposit_for(ledger, env.sender, env.time, amount, &cs, true, exchange_rate, net_of)
}

/// Buys tickets for the sender. The stable funds sent must cover them; an
/// excess is deposited too.
pub fn deposit<F: Fn(u128) -> u128>(
    ledger: &mut Ledger,
    env: &Env,
    combinations: Vec<String>,
    exchange_rate: Decimal,
    net_of: F,
) -> (r: Result<Instruction, ContractError>)
    requires
        wf(old(ledger)@),
        forall|x: u128| net_of.requires((x,)),
    ensures
        wf(final(ledger)@),
        deposit_outcome(
            old(ledger)@,
            final(ledger)@,
            env.sender,
            sent_amount(funds_view(env.sent_funds@), old(ledger).config.stable_denom@),
            strings_view(combinations@),
            false,
            env.time,
            exchange_rate,
            net_of,
            r,
        ),
{
    let amount = stable_amount(&env.sent_funds, &ledger.config.stable_denom);
    deposit_for(ledger, env.sender, env.time, amount, &combinations, false, exchange_rate, net_of)
}

/// Buys tickets for `recipient`, paid by the sender, who may not be the
/// recipient. The stable funds sent must pay exactly for the tickets.
pub fn gift_tickets<F: Fn(u128) -> u128>(
    ledger: &mut Ledger,
    env: &Env,
    combinations: Vec<String>,
    recipient: Addr,
    exchange_rate: Decimal,
    net_of: F,
) -> (r: Result<Instruction, ContractError>)
    requires
        wf(old(ledger)@),
        forall|x: u128| net_of.requires((x,)),
    ensures
        wf(final(ledger)@),
        recipient == env.sender ==> r == Err::<Instruction, ContractError>(ContractError::SelfGift)
            && final(ledger)@ == old(ledger)@,
        recipient != env.sender ==> deposit_outcome(
            old(ledger)@,
            final(ledger)@,
            recipient,
            sent_amount(funds_view(env.sent_funds@), old(ledger).config.stable_denom@),
            strings_view(combinations@),
            true,
            env.time,
            exchange_rate,
            net_of,
            r,
        ),
{
    if recipient == env.sender {
        return Err(ContractError::SelfGift);
    }
    let amount = stable_amount(&env.sent_funds, &ledger.config.stable_denom);
    deposit_for(ledger, recipient, env.time, amount, &combinations, true, exchange_rate, net_of)
}

} // verus!
