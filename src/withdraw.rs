//! Withdrawal into the unbonding queue, and claims of matured funds and prizes.
use vstd::prelude::*;
use crate::decimal::{Decimal, FRACTIONAL, div_spec, from_amount_spec, lemma_mul_by_fraction, mul_spec};
use crate::deposit::{Instruction, find_depositor, record_of};
use crate::error::ContractError;
use crate::sequence::{valid_sequence, SEQUENCE_DIGITS};
use crate::state::{
    Addr, Claim, DepositorView, Env, Ledger, LedgerView, PoolState, Registration, held_by,
    holder_count, lemma_held_by_filter,
    index_of, lemma_holder_count_filter, lemma_index_of, lemma_sum_nonneg_le, lemma_sum_update,
    lemma_unique_update, not_held_by, shares_fn, tickets_fn, wf,
};

verus! {

/// The registry without the entries of `h`.
pub open spec fn without_holder(reg: Seq<(Seq<char>, Addr)>, h: Addr) -> Seq<(Seq<char>, Addr)> {
    reg.filter(not_held_by(h))
}

/// For a withdrawal of `shares` out of `supply`: the yield-source tokens to
/// redeem (that fraction of the contract's balance `a_balance`) and their
/// stable value at `rate`, rounded down.
pub open spec fn redeem_spec(shares: Decimal, supply: Decimal, a_balance: u128, rate: Decimal) -> Option<
    (Decimal, u128),
> {
    match div_spec(shares, supply) {
        None => None,
        Some(ratio) => match from_amount_spec(a_balance) {
            None => None,
            Some(ab) => match mul_spec(ratio, ab) {
                None => None,
                Some(redeem) => match mul_spec(redeem, rate) {
                    None => None,
                    Some(stable) => Some((redeem, (stable.atomics / FRACTIONAL) as u128)),
                },
            },
        },
    }
}

/// Why a withdrawal by `who` is refused.
pub open spec fn withdraw_check(l: LedgerView, who: Addr, now: u64, a_balance: u128, rate: Decimal) -> Option<
    ContractError,
> {
    let d = record_of(l.depositors, who);
    if d.shares.atomics == 0 {
        Some(ContractError::NoDeposits)
    } else if now + l.config.unbonding_period > u64::MAX {
        Some(ContractError::Overflow)
    } else if pool_shares(l.state) > u128::MAX {
        Some(ContractError::Overflow)
    } else if redeem_spec(
        d.shares,
        Decimal { atomics: pool_shares(l.state) as u128 },
        a_balance,
        rate,
    ) is None {
        Some(ContractError::Overflow)
    } else if withdraw_parts(d.shares, d.deposit_amount, l.config.split_factor) is None {
        Some(ContractError::Overflow)
    } else {
        None
    }
}

/// Shares that the yield-source balance is divided among: the depositors'
/// and the sponsors'.
pub open spec fn pool_shares(s: PoolState) -> int {
    s.shares_supply.atomics + s.sponsored_shares.atomics
}

/// The lottery-exposed parts of a withdrawal, at the current split factor:
/// of the `shares` (`shares × split`) and of the gross deposits
/// (`amount × split`).
pub open spec fn withdraw_parts(shares: Decimal, amount: u128, split: Decimal) -> Option<
    (Decimal, Decimal),
> {
    match mul_spec(shares, split) {
        None => None,
        Some(lp) => match from_amount_spec(amount) {
            None => None,
            Some(g) => match mul_spec(g, split) {
                None => None,
                Some(ld) => Some((lp, ld)),
            },
        },
    }
}

/// Principal-only shares left after `shares` leave the pool, of which `lp`
/// were lottery-exposed: `deposit_shares` lowered by `shares - lp`, kept
/// between zero and the remaining supply, so that the lottery-exposed shares
/// (the rest of the supply) take any shortfall.
pub open spec fn remaining_deposit_shares(s: PoolState, shares: Decimal, lp: Decimal) -> int {
    let rest = s.shares_supply.atomics - shares.atomics;
    let want = s.deposit_shares.atomics - (shares.atomics - lp.atomics);
    if want < 0 {
        0
    } else if want > rest {
        rest
    } else {
        want
    }
}

/// The ledger after `who` withdraws everything, `net` going to the unbonding queue.
/// The lottery-exposed deposits fall by `deposit_amount × split`, down to
/// zero at most.
pub open spec fn withdraw_effect(l: LedgerView, who: Addr, now: u64, net: u128) -> LedgerView {
    let d = record_of(l.depositors, who);
    let s = l.state;
    let (lp, ld) = withdraw_parts(d.shares, d.deposit_amount, l.config.split_factor).unwrap();
    let rest = s.shares_supply.atomics - d.shares.atomics;
    let nds = remaining_deposit_shares(s, d.shares, lp);
    let nd = DepositorView {
        deposit_amount: 0,
        shares: Decimal { atomics: 0 },
        tickets: Seq::empty(),
        unbonding: d.unbonding.push(
            Claim { amount: net, release_at: (now + l.config.unbonding_period) as u64 },
        ),
        ..d
    };
    let ns = PoolState {
        total_tickets: (s.total_tickets - d.tickets.len()) as u64,
        shares_supply: Decimal { atomics: (s.shares_supply.atomics - d.shares.atomics) as u128 },
        deposit_shares: Decimal { atomics: nds as u128 },
        lottery_shares: Decimal { atomics: (rest - nds) as u128 },
        lottery_deposits: Decimal {
            atomics: if ld.atomics <= s.lottery_deposits.atomics {
                (s.lottery_deposits.atomics - ld.atomics) as u128
            } else {
                0
            },
        },
        ..s
    };
    LedgerView {
        state: ns,
        depositors: l.depositors.update(index_of(l.depositors, who), nd),
        registry: without_holder(l.registry, who),
        ..l
    }
}

fn remove_holder(registry: &mut Vec<Registration>, h: Addr)
    ensures
        final(registry)@.map_values(|r: Registration| r@) == without_holder(
            old(registry)@.map_values(|r: Registration| r@),
            h,
        ),
{
    let ghost rv = registry@.map_values(|r: Registration| r@);
    let ghost p = not_held_by(h);
    let mut kept: Vec<Registration> = Vec::new();
    let mut j: usize = 0;
    assert(rv.take(0).filter(p) =~= Seq::<(Seq<char>, Addr)>::empty()) by {
        reveal_with_fuel(Seq::filter, 1);
    }
    while j < registry.len()
        invariant
            j <= registry.len(),
            rv == registry@.map_values(|r: Registration| r@),
            p == not_held_by(h),
            kept@.map_values(|r: Registration| r@) == rv.take(j as int).filter(p),
        decreases registry.len() - j,
    {
        let ghost kv = kept@.map_values(|r: Registration| r@);
        assert(rv.take(j + 1).drop_last() =~= rv.take(j as int));
        reveal_with_fuel(Seq::filter, 1);
        if registry[j].holder != h {
            kept.push(Registration { sequence: registry[j].sequence.clone(), holder: registry[j].holder });
            assert(kept@.map_values(|r: Registration| r@) =~= kv.push(rv[j as int]));
        }
        j = j + 1;
    }
    assert(rv.take(j as int) =~= rv);
    *registry = kept;
}

/// Withdraws all of the sender's deposit. The sender's tickets leave the
/// registry and their record; their share of the contract's yield-source
/// balance `a_balance`, valued at `exchange_rate` and net of the transfer tax
/// `net_of`, joins their unbonding queue until the unbonding period has passed.
pub fn withdraw<F: Fn(u128) -> u128>(
    ledger: &mut Ledger,
    env: &Env,
    a_balance: u128,
    exchange_rate: Decimal,
    net_of: F,
) -> (r: Result<Instruction, ContractError>)
    requires
        wf(old(ledger)@),
        forall|x: u128| net_of.requires((x,)),
    ensures
        wf(final(ledger)@),
        match withdraw_check(old(ledger)@, env.sender, env.time, a_balance, exchange_rate) {
            Some(e) => r == Err::<Instruction, ContractError>(e) && final(ledger)@ == old(ledger)@,
            None => {
                let d = record_of(old(ledger)@.depositors, env.sender);
                let (redeem, gross) = redeem_spec(
                    d.shares,
                    Decimal { atomics: pool_shares(old(ledger)@.state) as u128 },
                    a_balance,
                    exchange_rate,
                )->0;
                &&& r == Ok::<Instruction, ContractError>(
                    Instruction::RedeemFromVault { amount: (redeem.atomics / FRACTIONAL) as u128 },
                )
                &&& exists|n: u128|
                    net_of.ensures((gross,), n) && final(ledger)@ == withdraw_effect(
                        old(ledger)@,
                        env.sender,
                        env.time,
                        n,
                    )
            },
        },
{
    let ghost l0 = ledger@;
    let who = env.sender;
    let i = match find_depositor(&ledger.depositors, who) {
        Some(i) => i,
        None => {
            proof {
                assert(!exists|j: int| 0 <= j < l0.depositors.len() && l0.depositors[j].address == who) by {
                    assert forall|j: int| 0 <= j < l0.depositors.len() implies l0.depositors[j].address != who by {
                        assert(l0.depositors[j] == ledger.depositors@[j]@);
                    }
                }
            }
            return Err(ContractError::NoDeposits);
        },
    };
    proof {
        assert(l0.depositors[i as int] == ledger.depositors@[i as int]@);
        lemma_index_of(l0.depositors, who, i as int);
    }
    let shares = ledger.depositors[i].shares;
    if shares.atomics == 0 {
        return Err(ContractError::NoDeposits);
    }
    let release_at = match env.time.checked_add(ledger.config.unbonding_period) {
        Some(t) => t,
        None => return Err(ContractError::Overflow),
    };
    let s = ledger.state;
    if s.shares_supply.atomics > u128::MAX - s.sponsored_shares.atomics {
        return Err(ContractError::Overflow);
    }
    let pool = Decimal { atomics: s.shares_supply.atomics + s.sponsored_shares.atomics };
    let ratio = match shares.checked_div(pool) {
        Some(x) => x,
        None => return Err(ContractError::Overflow),
    };
    let ab = match Decimal::from_amount(a_balance) {
        Some(x) => x,
        None => return Err(ContractError::Overflow),
    };
    let redeem = match ratio.checked_mul(ab) {
        Some(x) => x,
        None => return Err(ContractError::Overflow),
    };
    let stable = match redeem.checked_mul(exchange_rate) {
        Some(x) => x,
        None => return Err(ContractError::Overflow),
    };
    let split = ledger.config.split_factor;
    let lp = match shares.checked_mul(split) {
        Some(x) => x,
        None => return Err(ContractError::Overflow),
    };
    let g = match Decimal::from_amount(ledger.depositors[i].deposit_amount) {
        Some(x) => x,
        None => return Err(ContractError::Overflow),
    };
    let ld = match g.checked_mul(split) {
        Some(x) => x,
        None => return Err(ContractError::Overflow),
    };
    let gross = stable.to_amount();
    let net = net_of(gross);
    proof {
        lemma_sum_nonneg_le(l0.depositors, i as int, shares_fn());
        lemma_sum_nonneg_le(l0.depositors, i as int, tickets_fn());
        lemma_holder_count_filter(l0.registry, who, who);
        lemma_mul_by_fraction(shares.atomics as int, split.atomics as int);
    }
    let rest = s.shares_supply.atomics - shares.atomics;
    let principal = shares.atomics - lp.atomics;
    let nds = if s.deposit_shares.atomics < principal {
        0
    } else if s.deposit_shares.atomics - principal > rest {
        rest
    } else {
        s.deposit_shares.atomics - principal
    };
    let nld = if ld.atomics <= s.lottery_deposits.atomics {
        s.lottery_deposits.atomics - ld.atomics
    } else {
        0
    };
    remove_holder(&mut ledger.registry, who);
    let mut d = ledger.depositors.remove(i);
    ledger.state = PoolState {
        total_tickets: s.total_tickets - d.tickets.len() as u64,
        shares_supply: Decimal { atomics: rest },
        deposit_shares: Decimal { atomics: nds },
        lottery_shares: Decimal { atomics: rest - nds },
        lottery_deposits: Decimal { atomics: nld },
        ..s
    };
    d.tickets = Vec::new();
    d.deposit_amount = 0;
    d.shares = Decimal::zero();
    d.unbonding.push(Claim { amount: net, release_at });
    let ghost nd = d@;
    ledger.depositors.insert(i, d);
    proof {
        let l1 = withdraw_effect(l0, who, env.time, net);
        assert(nd.tickets =~= Seq::<Seq<char>>::empty());
        assert(ledger@.depositors =~= l1.depositors) by {
            assert forall|j: int| 0 <= j < l1.depositors.len() implies ledger@.depositors[j] == l1.depositors[j] by {
                if j != i {
                    assert(ledger.depositors@[j] == old(ledger).depositors@[j]);
                }
            }
        }
        assert(ledger@.rounds =~= l0.rounds);
        assert(ledger@ == l1);
        lemma_withdraw_wf(l0, who, i as int, l1);
    }
    Ok(Instruction::RedeemFromVault { amount: redeem.to_amount() })
}

proof fn lemma_withdraw_wf(l0: LedgerView, who: Addr, i: int, l1: LedgerView)
    requires
        wf(l0),
        0 <= i < l0.depositors.len(),
        l0.depositors[i].address == who,
        exists|n: u128, now: u64| l1 == withdraw_effect(l0, who, now, n),
    ensures
        wf(l1),
{
    let deps = l0.depositors;
    let d = deps[i];
    lemma_index_of(deps, who, i);
    let nd = l1.depositors[i];
    lemma_sum_nonneg_le(deps, i, shares_fn());
    lemma_sum_nonneg_le(deps, i, tickets_fn());
    lemma_sum_update(deps, i, nd, shares_fn());
    lemma_sum_update(deps, i, nd, tickets_fn());
    lemma_unique_update(deps, i, nd);
    lemma_holder_count_filter(l0.registry, who, who);
    assert forall|a: Addr| #[trigger] holder_count(l1.registry, a) == if a == who {
        0
    } else {
        holder_count(l0.registry, a)
    } by {
        lemma_holder_count_filter(l0.registry, who, a);
    }
    assert forall|j: int| 0 <= j < l1.depositors.len() implies holder_count(
        l1.registry,
        #[trigger] l1.depositors[j].address,
    ) == l1.depositors[j].tickets.len() by {
        if j != i {
            assert(deps[j].address != who);
        }
    }
    assert forall|j: int| 0 <= j < l1.depositors.len() implies held_by(
        l1.registry,
        #[trigger] l1.depositors[j].address,
    ).to_multiset() == l1.depositors[j].tickets.to_multiset() by {
        lemma_held_by_filter(l0.registry, who, l1.depositors[j].address);
        if j != i {
            assert(deps[j].address != who);
        } else {
            assert(l1.depositors[j].tickets =~= Seq::<Seq<char>>::empty());
        }
    }
    assert forall|a: Addr| #[trigger] holder_count(l1.registry, a) > 0 implies exists|j: int|
        0 <= j < l1.depositors.len() && l1.depositors[j].address == a by {
        assert(holder_count(l0.registry, a) > 0);
        let j = choose|j: int| 0 <= j < deps.len() && deps[j].address == a;
        assert(l1.depositors[j].address == a);
    }
    let p = not_held_by(who);
    assert forall|j: int| 0 <= j < l1.registry.len() implies valid_sequence(
        #[trigger] l1.registry[j].0,
        SEQUENCE_DIGITS as nat,
    ) by {
        assert(l1.registry.contains(l1.registry[j]));
        l0.registry.lemma_filter_contains_rev(p, l1.registry[j]);
    }
}

/// Sum of the claims in `cs` that have matured at `now`.
pub open spec fn matured_total(cs: Seq<Claim>, now: u64) -> int
    decreases cs.len(),
{
    if cs.len() == 0 {
        0
    } else {
        matured_total(cs.drop_last(), now) + if cs.last().release_at <= now {
            cs.last().amount as int
        } else {
            0
        }
    }
}

/// Claims still locked at `now`.
pub open spec fn is_pending(now: u64) -> spec_fn(Claim) -> bool {
    |c: Claim| c.release_at > now
}

/// Gross amount that `who` can claim at `now`: matured claims and prizes.
pub open spec fn claimable(l: LedgerView, who: Addr, now: u64) -> int {
    let d = record_of(l.depositors, who);
    matured_total(d.unbonding, now) + (d.redeemable.atomics / FRACTIONAL) as int
}

/// Why a claim is refused before its amount is known.
pub open spec fn claim_check(l: LedgerView, who: Addr, now: u64, amount: Option<u128>) -> Option<
    ContractError,
> {
    if amount == Some(0u128) {
        Some(ContractError::ZeroClaimAmount)
    } else if index_of(l.depositors, who) < 0 {
        Some(ContractError::NothingToClaim)
    } else if claimable(l, who, now) > u128::MAX {
        Some(ContractError::Overflow)
    } else {
        None
    }
}

/// The ledger after `who` is paid `net`: matured claims leave the queue and
/// the prize balance is cleared. Refused when `net` is zero or above the
/// contract's liquid `balance`.
pub open spec fn claim_effect(l: LedgerView, who: Addr, now: u64, balance: u128, net: u128) -> Result<
    LedgerView,
    ContractError,
> {
    if net == 0 {
        Err(ContractError::NothingToClaim)
    } else if net > balance {
        Err(ContractError::InsufficientFunds)
    } else {
        let i = index_of(l.depositors, who);
        let d = l.depositors[i];
        Ok(
            LedgerView {
                depositors: l.depositors.update(
                    i,
                    DepositorView {
                        redeemable: Decimal { atomics: 0 },
                        unbonding: d.unbonding.filter(is_pending(now)),
                        ..d
                    },
                ),
                ..l
            },
        )
    }
}

proof fn lemma_matured_prefix(cs: Seq<Claim>, j: int, now: u64)
    requires
        0 <= j <= cs.len(),
    ensures
        0 <= matured_total(cs.take(j), now) <= matured_total(cs, now),
    decreases cs.len(),
{
    if j == cs.len() {
        assert(cs.take(j) =~= cs);
        if cs.len() > 0 {
            lemma_matured_prefix(cs.drop_last(), j - 1, now);
        }
    } else {
        assert(cs.take(j) =~= cs.drop_last().take(j));
        lemma_matured_prefix(cs.drop_last(), j, now);
    }
}

/// Pays the sender their matured unbonding claims and their prizes, net of
/// the transfer tax `net_of`, provided the contract's liquid `balance`
/// covers it. A requested `amount` must not be zero.
pub fn claim<F: Fn(u128) -> u128>(
    ledger: &mut Ledger,
    env: &Env,
    amount: Option<u128>,
    balance: u128,
    net_of: F,
) -> (r: Result<Instruction, ContractError>)
    requires
        wf(old(ledger)@),
        forall|x: u128| net_of.requires((x,)),
    ensures
        wf(final(ledger)@),
        match claim_check(old(ledger)@, env.sender, env.time, amount) {
            Some(e) => r == Err::<Instruction, ContractError>(e) && final(ledger)@ == old(ledger)@,
            None => {
                let gross = claimable(old(ledger)@, env.sender, env.time) as u128;
                match r {
                    Ok(Instruction::Pay { recipient, amount: n }) => recipient == env.sender
                        && net_of.ensures((gross,), n) && claim_effect(
                        old(ledger)@,
                        env.sender,
                        env.time,
                        balance,
                        n,
                    ) == Ok::<LedgerView, ContractError>(final(ledger)@),
                    Ok(_) => false,
                    Err(e) => final(ledger)@ == old(ledger)@ && exists|n: u128|
                        net_of.ensures((gross,), n) && claim_effect(
                            old(ledger)@,
                            env.sender,
                            env.time,
                            balance,
                            n,
                        ) == Err::<LedgerView, ContractError>(e),
                }
            },
        },
{
    let ghost l0 = ledger@;
    let who = env.sender;
    let now = env.time;
    match amount {
        Some(a) => {
            if a == 0 {
                return Err(ContractError::ZeroClaimAmount);
            }
        },
        None => {},
    }
    let i = match find_depositor(&ledger.depositors, who) {
        Some(i) => i,
        None => {
            proof {
                assert(!exists|j: int| 0 <= j < l0.depositors.len() && l0.depositors[j].address == who) by {
                    assert forall|j: int| 0 <= j < l0.depositors.len() implies l0.depositors[j].address != who by {
                        assert(l0.depositors[j] == ledger.depositors@[j]@);
                    }
                }
            }
            return Err(ContractError::NothingToClaim);
        },
    };
    proof {
        assert(l0.depositors[i as int] == ledger.depositors@[i as int]@);
        lemma_index_of(l0.depositors, who, i as int);
    }
    let ghost cs = ledger.depositors@[i as int].unbonding@;
    let mut total: u128 = 0;
    let mut kept: Vec<Claim> = Vec::new();
    let mut j: usize = 0;
    assert(cs.take(0).filter(is_pending(now)) =~= Seq::<Claim>::empty()) by {
        reveal_with_fuel(Seq::filter, 1);
    }
    while j < ledger.depositors[i].unbonding.len()
        invariant
            i < ledger.depositors.len(),
            wf(l0),
            l0 == old(ledger)@,
            l0.depositors[i as int] == record_of(l0.depositors, who),
            index_of(l0.depositors, who) == i,
            amount != Some(0u128),
            who == env.sender,
            now == env.time,
            ledger@ == l0,
            ledger.depositors@ == old(ledger).depositors@,
            cs == ledger.depositors@[i as int].unbonding@,
            j <= cs.len(),
            total == matured_total(cs.take(j as int), now),
            kept@ == cs.take(j as int).filter(is_pending(now)),
        decreases cs.len() - j,
    {
        let c = ledger.depositors[i].unbonding[j];
        assert(cs.take(j + 1).drop_last() =~= cs.take(j as int));
        reveal_with_fuel(Seq::filter, 1);
        if c.release_at <= now {
            match total.checked_add(c.amount) {
                Some(t) => {
                    total = t;
                },
                None => {
                    proof {
                        lemma_matured_prefix(cs, j + 1, now);
                        assert(l0.depositors[i as int] == ledger.depositors@[i as int]@);
                        assert(cs.take(j + 1).last() == c);
                        assert(matured_total(cs.take(j + 1), now) > u128::MAX);
                        assert(record_of(l0.depositors, who).unbonding == cs);
                    }
                    return Err(ContractError::Overflow);
                },
            }
        } else {
            kept.push(c);
        }
        j = j + 1;
    }
    assert(cs.take(j as int) =~= cs);
    let prize = ledger.depositors[i].redeemable.to_amount();
    let gross = match total.checked_add(prize) {
        Some(g) => g,
        None => return Err(ContractError::Overflow),
    };
    let net = net_of(gross);
    if net == 0 {
        return Err(ContractError::NothingToClaim);
    }
    if net > balance {
        return Err(ContractError::InsufficientFunds);
    }
    let mut d = ledger.depositors.remove(i);
    d.redeemable = Decimal::zero();
    d.unbonding = kept;
    let ghost nd = d@;
    ledger.depositors.insert(i, d);
    proof {
        let l1 = claim_effect(l0, who, now, balance, net)->Ok_0;
        assert(ledger@.depositors =~= l1.depositors) by {
            assert forall|k: int| 0 <= k < l1.depositors.len() implies ledger@.depositors[k] == l1.depositors[k] by {
                if k != i {
                    assert(ledger.depositors@[k] == old(ledger).depositors@[k]);
                }
            }
        }
        assert(ledger@.registry =~= l0.registry);
        assert(ledger@.rounds =~= l0.rounds);
        assert(ledger@ == l1);
        let deps = l0.depositors;
        lemma_sum_update(deps, i as int, nd, shares_fn());
        lemma_sum_update(deps, i as int, nd, tickets_fn());
        lemma_unique_update(deps, i as int, nd);
        assert forall|a: Addr| #[trigger] holder_count(l1.registry, a) > 0 implies exists|k: int|
            0 <= k < l1.depositors.len() && l1.depositors[k].address == a by {
            let k = choose|k: int| 0 <= k < deps.len() && deps[k].address == a;
            assert(l1.depositors[k].address == a);
        }
        assert forall|k: int| 0 <= k < l1.depositors.len() implies holder_count(
            l1.registry,
            #[trigger] l1.depositors[k].address,
        ) == l1.depositors[k].tickets.len() by {
            assert(l1.depositors[k].address == deps[k].address);
        }
    }
    Ok(Instruction::Pay { recipient: who, amount: net })
}

} // verus!
