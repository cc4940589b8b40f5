//! The two-step draw: redemption of the lottery-exposed funds, then prize
//! assignment against the winning sequence.
use vstd::prelude::*;
use std::collections::HashMap;
use itertools::Itertools;
use crate::decimal::{Decimal, FRACTIONAL, div_spec, from_amount_spec, mul_spec, mul_value};
use crate::deposit::{Instruction, find_depositor};
use crate::error::ContractError;
use crate::sequence::{count_seq_matches, is_valid_sequence, seq_matches, valid_sequence, SEQUENCE_DIGITS};
use crate::state::{
    Addr, DepositorView, DrawPhase, Env, Ledger, LedgerView, LotteryRound, LotteryRoundView,
    PoolState, Registration, fraction_total, holder_count, index_of, lemma_index_of, lemma_sum_update,
    lemma_unique_update, shares_fn, tickets_fn, wf,
};

verus! {

broadcast use vstd::std_specs::hash::group_hash_axioms;

/// Why a draw cannot start.
pub open spec fn lottery_check(l: LedgerView, funds_attached: bool, now: u64) -> Option<ContractError> {
    if funds_attached {
        Some(ContractError::FundsAttached)
    } else if l.state.phase == DrawPhase::Drawing {
        Some(ContractError::DrawInProgress)
    } else if now < l.state.next_lottery_time {
        Some(ContractError::LotteryNotDue)
    } else {
        None
    }
}

/// Starts the draw once it is due: the lottery-exposed shares are redeemed
/// from the yield source, and prize assignment follows as a second step.
/// No funds may be attached.
pub fn execute_lottery(ledger: &mut Ledger, env: &Env) -> (r: Result<Vec<Instruction>, ContractError>)
    requires
        wf(old(ledger)@),
    ensures
        wf(final(ledger)@),
        match lottery_check(old(ledger)@, env.sent_funds@.len() > 0, env.time) {
            Some(e) => r == Err::<Vec<Instruction>, ContractError>(e) && final(ledger)@
                == old(ledger)@,
            None => r is Ok && r->Ok_0@ == seq![
                Instruction::RedeemFromVault {
                    amount: (old(ledger).state.lottery_shares.atomics / FRACTIONAL) as u128,
                },
                Instruction::AssignPrizes,
            ] && final(ledger)@ == (LedgerView {
                state: PoolState { phase: DrawPhase::Drawing, ..old(ledger)@.state },
                ..old(ledger)@
            }),
        },
{
    if env.sent_funds.len() > 0 {
        return Err(ContractError::FundsAttached);
    }
    if ledger.state.phase == DrawPhase::Drawing {
        return Err(ContractError::DrawInProgress);
    }
    if env.time < ledger.state.next_lottery_time {
        return Err(ContractError::LotteryNotDue);
    }
    ledger.state.phase = DrawPhase::Drawing;
    let amount = ledger.state.lottery_shares.to_amount();
    Ok(vec![Instruction::RedeemFromVault { amount }, Instruction::AssignPrizes])
}

/// (matching digits, holder) for each registry entry with at least one
/// digit matching the winning sequence `w`, in registry order.
pub open spec fn winners_of(reg: Seq<(Seq<char>, Addr)>, w: Seq<char>) -> Seq<(u8, Addr)>
    decreases reg.len(),
{
    if reg.len() == 0 {
        Seq::empty()
    } else {
        let rest = winners_of(reg.drop_last(), w);
        let m = seq_matches(reg.last().0, w);
        if m > 0 {
            rest.push((m as u8, reg.last().1))
        } else {
            rest
        }
    }
}

pub open spec fn in_tier(t: u8) -> spec_fn((u8, Addr)) -> bool {
    |w: (u8, Addr)| w.0 == t
}

/// Holders of the winning tickets of tier `t`, in order.
pub open spec fn tier_holders(ws: Seq<(u8, Addr)>, t: u8) -> Seq<Addr> {
    ws.filter(in_tier(t)).map_values(|w: (u8, Addr)| w.1)
}

/// Whether some winning ticket is in tier `t`.
pub open spec fn has_tier(ws: Seq<(u8, Addr)>, t: u8) -> bool {
    exists|i: int| 0 <= i < ws.len() && #[trigger] ws[i].0 == t
}

/// Number of winning tickets in tier `t`.
pub open spec fn tier_count(ws: Seq<(u8, Addr)>, t: u8) -> nat {
    ws.filter(in_tier(t)).len()
}

/// Each winner's share of a tier: `prize × distribution / winners`.
pub open spec fn prize_share(prize: Decimal, winners: u128, distribution: Decimal) -> Option<Decimal> {
    match mul_spec(prize, distribution) {
        None => None,
        Some(x) => match from_amount_spec(winners) {
            None => None,
            Some(n) => div_spec(x, n),
        },
    }
}

/// The credit for one winning ticket of tier `t`; nothing for a tier without
/// a configured fraction.
pub open spec fn tier_prize(prize: Decimal, dist: Seq<Decimal>, all: Seq<(u8, Addr)>, t: u8) -> Option<
    Decimal,
> {
    if t as int >= dist.len() {
        Some(Decimal { atomics: 0 })
    } else {
        prize_share(prize, tier_count(all, t) as u128, dist[t as int])
    }
}

/// The table with `p` added to the prize balance of `a`.
pub open spec fn credit_one(deps: Seq<DepositorView>, a: Addr, p: Decimal) -> Option<Seq<DepositorView>> {
    let i = index_of(deps, a);
    if i < 0 {
        Some(deps)
    } else if deps[i].redeemable.atomics + p.atomics > u128::MAX {
        None
    } else {
        Some(
            deps.update(
                i,
                DepositorView {
                    redeemable: Decimal { atomics: (deps[i].redeemable.atomics + p.atomics) as u128 },
                    ..deps[i]
                },
            ),
        )
    }
}

/// The table after the winning tickets `ws` (a prefix of `all`) are
/// credited in order, and the total credited.
pub open spec fn credit_winners(
    deps: Seq<DepositorView>,
    ws: Seq<(u8, Addr)>,
    all: Seq<(u8, Addr)>,
    prize: Decimal,
    dist: Seq<Decimal>,
) -> Option<(Seq<DepositorView>, int)>
    decreases ws.len(),
{
    if ws.len() == 0 {
        Some((deps, 0))
    } else {
        match credit_winners(deps, ws.drop_last(), all, prize, dist) {
            None => None,
            Some((d2, total)) => match tier_prize(prize, dist, all, ws.last().0) {
                None => None,
                Some(p) => if total + p.atomics > u128::MAX {
                    None
                } else {
                    match credit_one(d2, ws.last().1, p) {
                        None => None,
                        Some(d3) => Some((d3, total + p.atomics)),
                    }
                },
            },
        }
    }
}

/// What one winning ticket of tier `t` is credited, as an integer: zero for
/// a tier that nobody won or that has no fraction.
pub open spec fn share_value(prize: Decimal, dist: Seq<Decimal>, all: Seq<(u8, Addr)>, t: u8) -> int {
    if t as int >= dist.len() || tier_count(all, t) == 0 {
        0
    } else {
        match tier_prize(prize, dist, all, t) {
            Some(p) => p.atomics as int,
            None => 0,
        }
    }
}

/// Sum of the credits of the winning tickets `ws`, ticket by ticket.
pub open spec fn prefix_credit(ws: Seq<(u8, Addr)>, prize: Decimal, dist: Seq<Decimal>, all: Seq<(u8, Addr)>) -> int
    decreases ws.len(),
{
    if ws.len() == 0 {
        0
    } else {
        prefix_credit(ws.drop_last(), prize, dist, all) + share_value(prize, dist, all, ws.last().0)
    }
}

/// Sum of the credits of the winning tickets `ws`, tier by tier, over the
/// tiers below `d`.
pub open spec fn tier_sum(ws: Seq<(u8, Addr)>, prize: Decimal, dist: Seq<Decimal>, all: Seq<(u8, Addr)>, d: nat) -> int
    decreases d,
{
    if d == 0 {
        0
    } else {
        tier_sum(ws, prize, dist, all, (d - 1) as nat) + tier_count(ws, (d - 1) as u8) * share_value(
            prize,
            dist,
            all,
            (d - 1) as u8,
        )
    }
}

/// Each tier's fraction of the prize pool, rounded down, summed below `d`.
pub open spec fn tier_pool_sum(prize: Decimal, dist: Seq<Decimal>, d: nat) -> int
    decreases d,
{
    if d == 0 {
        0
    } else {
        tier_pool_sum(prize, dist, (d - 1) as nat) + if d - 1 < dist.len() {
            mul_value(prize.atomics as int, dist[d - 1].atomics as int)
        } else {
            0
        }
    }
}

/// The prize fractions summed below `d`.
pub open spec fn fraction_sum_below(dist: Seq<Decimal>, d: nat) -> int
    decreases d,
{
    if d == 0 {
        0
    } else {
        fraction_sum_below(dist, (d - 1) as nat) + if d - 1 < dist.len() {
            dist[d - 1].atomics as int
        } else {
            0
        }
    }
}

proof fn lemma_tier_count_push(ws: Seq<(u8, Addr)>, w: (u8, Addr), t: u8)
    ensures
        tier_count(ws.push(w), t) == tier_count(ws, t) + if w.0 == t { 1int } else { 0int },
{
    reveal_with_fuel(Seq::filter, 1);
    assert(ws.push(w).drop_last() =~= ws);
}

proof fn lemma_share_value_nonneg(prize: Decimal, dist: Seq<Decimal>, all: Seq<(u8, Addr)>, t: u8)
    ensures
        share_value(prize, dist, all, t) >= 0,
{
}

proof fn lemma_tier_sum_push(
    ws: Seq<(u8, Addr)>,
    w: (u8, Addr),
    prize: Decimal,
    dist: Seq<Decimal>,
    all: Seq<(u8, Addr)>,
    d: nat,
)
    requires
        d <= 256,
    ensures
        tier_sum(ws.push(w), prize, dist, all, d) == tier_sum(ws, prize, dist, all, d) + if (w.0 as int)
            < d {
            share_value(prize, dist, all, w.0)
        } else {
            0
        },
    decreases d,
{
    if d > 0 {
        let t = (d - 1) as u8;
        lemma_tier_sum_push(ws, w, prize, dist, all, (d - 1) as nat);
        lemma_tier_count_push(ws, w, t);
        let sv = share_value(prize, dist, all, t);
        assert(tier_count(ws.push(w), t) * sv == tier_count(ws, t) * sv + if w.0 == t { sv } else { 0 }) by (nonlinear_arith)
            requires
                tier_count(ws.push(w), t) == tier_count(ws, t) + if w.0 == t { 1int } else { 0int },
        ;
    }
}

proof fn lemma_prefix_is_tier_sum(ws: Seq<(u8, Addr)>, prize: Decimal, dist: Seq<Decimal>, all: Seq<(u8, Addr)>)
    ensures
        prefix_credit(ws, prize, dist, all) == tier_sum(ws, prize, dist, all, 256),
    decreases ws.len(),
{
    if ws.len() == 0 {
        lemma_tier_sum_empty(ws, prize, dist, all, 256);
    } else {
        lemma_prefix_is_tier_sum(ws.drop_last(), prize, dist, all);
        lemma_tier_sum_push(ws.drop_last(), ws.last(), prize, dist, all, 256);
        assert(ws.drop_last().push(ws.last()) =~= ws);
    }
}

proof fn lemma_tier_sum_empty(ws: Seq<(u8, Addr)>, prize: Decimal, dist: Seq<Decimal>, all: Seq<(u8, Addr)>, d: nat)
    requires
        ws.len() == 0,
    ensures
        tier_sum(ws, prize, dist, all, d) == 0,
    decreases d,
{
    if d > 0 {
        lemma_tier_sum_empty(ws, prize, dist, all, (d - 1) as nat);
        assert(ws.filter(in_tier((d - 1) as u8)) =~= ws) by {
            reveal_with_fuel(Seq::filter, 1);
        }
    }
}

proof fn lemma_tier_sum_le(
    ws: Seq<(u8, Addr)>,
    prize: Decimal,
    dist: Seq<Decimal>,
    all: Seq<(u8, Addr)>,
    d: nat,
)
    requires
        d <= 256,
        forall|t: u8| tier_count(ws, t) <= #[trigger] tier_count(all, t),
    ensures
        tier_sum(ws, prize, dist, all, d) <= tier_sum(all, prize, dist, all, d),
    decreases d,
{
    if d > 0 {
        let t = (d - 1) as u8;
        lemma_tier_sum_le(ws, prize, dist, all, (d - 1) as nat);
        let sv = share_value(prize, dist, all, t);
        lemma_share_value_nonneg(prize, dist, all, t);
        let c1 = tier_count(ws, t) as int;
        let c2 = tier_count(all, t) as int;
        assert(c1 <= c2);
        assert(c1 * sv <= c2 * sv) by (nonlinear_arith)
            requires
                c1 <= c2,
                sv >= 0,
        ;
    }
}

proof fn lemma_tier_sum_pool(prize: Decimal, dist: Seq<Decimal>, all: Seq<(u8, Addr)>, d: nat)
    requires
        d <= 256,
        all.len() <= u64::MAX,
    ensures
        tier_sum(all, prize, dist, all, d) <= tier_pool_sum(prize, dist, d),
    decreases d,
{
    if d > 0 {
        let t = (d - 1) as u8;
        lemma_tier_sum_pool(prize, dist, all, (d - 1) as nat);
        let n = tier_count(all, t) as int;
        let f = FRACTIONAL as int;
        if (t as int) < dist.len() && n > 0 {
            let x = mul_value(prize.atomics as int, dist[t as int].atomics as int);
            assert(x >= 0) by {
                assert(prize.atomics * dist[t as int].atomics >= 0) by (nonlinear_arith);
            }
            match tier_prize(prize, dist, all, t) {
                Some(p) => {
                    let xd = mul_spec(prize, dist[t as int]).unwrap();
                    crate::decimal::lemma_mul_fits(prize.atomics as int, dist[t as int].atomics as int);
                    assert(xd.atomics == x);
                    all.filter_lemma(in_tier(t));
                    let nd = from_amount_spec(n as u128).unwrap();
                    assert(nd.atomics == n * f);
                    crate::decimal::lemma_div_fits(x, n * f);
                    assert(p.atomics == x * f / (n * f));
                    vstd::arithmetic::div_mod::lemma_fundamental_div_mod(x * f, n * f);
                    assert(n * f * p.atomics <= x * f) by {
                        assert((x * f) % (n * f) >= 0) by {
                            vstd::arithmetic::div_mod::lemma_mod_pos_bound(x * f, n * f);
                        }
                    }
                    assert(n * p.atomics <= x) by (nonlinear_arith)
                        requires
                            n * f * p.atomics <= x * f,
                            f > 0,
                    ;
                },
                None => {},
            }
        } else {
            assert(n * share_value(prize, dist, all, t) == 0) by (nonlinear_arith)
                requires
                    share_value(prize, dist, all, t) == 0,
            ;
            if (t as int) < dist.len() {
                assert(prize.atomics * dist[t as int].atomics >= 0) by (nonlinear_arith);
            }
        }
    }
}

proof fn lemma_tier_pool_bound(prize: Decimal, dist: Seq<Decimal>, d: nat)
    ensures
        tier_pool_sum(prize, dist, d) * FRACTIONAL <= prize.atomics * fraction_sum_below(dist, d),
    decreases d,
{
    if d > 0 {
        lemma_tier_pool_bound(prize, dist, (d - 1) as nat);
        let p = prize.atomics as int;
        let f = FRACTIONAL as int;
        if d - 1 < dist.len() {
            let g = dist[d - 1].atomics as int;
            vstd::arithmetic::div_mod::lemma_fundamental_div_mod(p * g, f);
            assert(p * g >= 0) by (nonlinear_arith)
                requires
                    p >= 0,
                    g >= 0,
            ;
            vstd::arithmetic::div_mod::lemma_mod_pos_bound(p * g, f);
            let a = tier_pool_sum(prize, dist, (d - 1) as nat);
            let b = fraction_sum_below(dist, (d - 1) as nat);
            assert((a + (p * g) / f) * f <= p * (b + g)) by (nonlinear_arith)
                requires
                    a * f <= p * b,
                    f * ((p * g) / f) <= p * g,
            ;
        }
    }
}

proof fn lemma_fraction_sum_below(dist: Seq<Decimal>, d: nat)
    ensures
        fraction_sum_below(dist, d) <= fraction_total(dist),
        fraction_sum_below(dist, d) >= 0,
    decreases d,
{
    lemma_fraction_sum_take(dist, d);
    let k = if d < dist.len() { d as int } else { dist.len() as int };
    crate::state::lemma_fraction_prefix(dist, k);
}

proof fn lemma_fraction_sum_take(dist: Seq<Decimal>, d: nat)
    ensures
        fraction_sum_below(dist, d) == fraction_total(
            dist.take(if d < dist.len() { d as int } else { dist.len() as int }),
        ),
    decreases d,
{
    if d == 0 {
        assert(dist.take(0) =~= Seq::<Decimal>::empty());
    } else {
        lemma_fraction_sum_take(dist, (d - 1) as nat);
        if d - 1 < dist.len() {
            assert(dist.take(d as int).drop_last() =~= dist.take(d - 1));
        }
    }
}

proof fn lemma_credit_total(
    deps: Seq<DepositorView>,
    ws: Seq<(u8, Addr)>,
    all: Seq<(u8, Addr)>,
    prize: Decimal,
    dist: Seq<Decimal>,
)
    requires
        credit_winners(deps, ws, all, prize, dist) is Some,
        forall|i: int| 0 <= i < ws.len() ==> tier_count(all, (#[trigger] ws[i]).0) > 0,
    ensures
        credit_winners(deps, ws, all, prize, dist).unwrap().1 == prefix_credit(ws, prize, dist, all),
    decreases ws.len(),
{
    if ws.len() > 0 {
        assert forall|i: int| 0 <= i < ws.drop_last().len() implies tier_count(
            all,
            (#[trigger] ws.drop_last()[i]).0,
        ) > 0 by {
            assert(ws.drop_last()[i] == ws[i]);
        }
        lemma_credit_total(deps, ws.drop_last(), all, prize, dist);
        assert(tier_count(all, ws[ws.len() - 1].0) > 0);
    }
}

/// The prizes credited in a draw never exceed the prize pool, when the
/// prize fractions sum to at most one.
pub proof fn lemma_credits_within_pool(
    deps: Seq<DepositorView>,
    all: Seq<(u8, Addr)>,
    prize: Decimal,
    dist: Seq<Decimal>,
)
    requires
        fraction_total(dist) <= FRACTIONAL,
        all.len() <= u64::MAX,
        credit_winners(deps, all, all, prize, dist) is Some,
    ensures
        credit_winners(deps, all, all, prize, dist).unwrap().1 <= prize.atomics,
{
    assert forall|i: int| 0 <= i < all.len() implies tier_count(all, (#[trigger] all[i]).0) > 0 by {
        let p = in_tier(all[i].0);
        assert(p(all[i]));
        all.filter_lemma(p);
        assert(all.filter(p).contains(all[i]));
    }
    lemma_credit_total(deps, all, all, prize, dist);
    lemma_prefix_is_tier_sum(all, prize, dist, all);
    lemma_tier_sum_pool(prize, dist, all, 256);
    lemma_tier_pool_bound(prize, dist, 256);
    lemma_fraction_sum_below(dist, 256);
    let a = tier_pool_sum(prize, dist, 256);
    let p = prize.atomics as int;
    let fs = fraction_sum_below(dist, 256);
    let f = FRACTIONAL as int;
    assert(a <= p) by (nonlinear_arith)
        requires
            a * f <= p * fs,
            fs <= f,
            fs >= 0,
            p >= 0,
            f > 0,
    ;
}

/// Why prize assignment is refused before any prize is credited.
pub open spec fn prize_check(l: LedgerView, w: Seq<char>) -> Option<ContractError> {
    if l.state.phase != DrawPhase::Drawing {
        Some(ContractError::NotDrawing)
    } else if !valid_sequence(w, SEQUENCE_DIGITS as nat) {
        Some(ContractError::InvalidSequence)
    } else if l.state.next_lottery_time + l.config.lottery_interval > u64::MAX
        || l.state.current_lottery + 1 > u64::MAX {
        Some(ContractError::Overflow)
    } else {
        None
    }
}

/// The ledger after the draw with winning sequence `w` is settled: winners
/// credited, the round recorded, the prize pool reduced by what was awarded
/// (never more than the pool: see `lemma_credits_within_pool`), the next draw scheduled and the round counter advanced.
pub open spec fn prize_effect(l: LedgerView, w: Seq<char>) -> Result<LedgerView, ContractError> {
    match prize_check(l, w) {
        Some(e) => Err(e),
        None => {
            let ws = winners_of(l.registry, w);
            let s = l.state;
            match credit_winners(l.depositors, ws, ws, s.award_available, l.config.prize_distribution) {
                None => Err(ContractError::Overflow),
                Some((deps, total)) => Ok(
                    LedgerView {
                        depositors: deps,
                        rounds: l.rounds.push(
                            LotteryRoundView {
                                sequence: w,
                                awarded: true,
                                total_prizes: Decimal { atomics: total as u128 },
                                winners: ws,
                            },
                        ),
                        state: PoolState {
                            award_available: Decimal {
                                atomics: (s.award_available.atomics - total) as u128,
                            },
                            next_lottery_time: (s.next_lottery_time
                                + l.config.lottery_interval) as u64,
                            current_lottery: (s.current_lottery + 1) as u64,
                            phase: DrawPhase::Idle,
                            ..s
                        },
                        ..l
                    },
                ),
            }
        },
    }
}

/// The winning tickets of the registry against the winning sequence: one
/// (matching digits, holder) pair for each entry with at least one match,
/// in registry order.
pub fn match_winners(registry: &Vec<Registration>, winning_sequence: &str) -> (r: Vec<(u8, Addr)>)
    requires
        forall|i: int|
            0 <= i < registry@.len() ==> valid_sequence(
                #[trigger] registry@[i].sequence@,
                SEQUENCE_DIGITS as nat,
            ),
        valid_sequence(winning_sequence@, SEQUENCE_DIGITS as nat),
    ensures
        r@ == winners_of(registry@.map_values(|r: Registration| r@), winning_sequence@),
{
    let ghost reg = registry@.map_values(|r: Registration| r@);
    let ghost w = winning_sequence@;
    let mut winners: Vec<(u8, Addr)> = Vec::new();
    let mut j: usize = 0;
    assert(reg.take(0) =~= Seq::<(Seq<char>, Addr)>::empty());
    while j < registry.len()
        invariant
            reg == registry@.map_values(|r: Registration| r@),
            w == winning_sequence@,
            valid_sequence(w, SEQUENCE_DIGITS as nat),
            forall|i: int|
                0 <= i < registry@.len() ==> valid_sequence(
                    #[trigger] registry@[i].sequence@,
                    SEQUENCE_DIGITS as nat,
                ),
            j <= reg.len(),
            winners@ == winners_of(reg.take(j as int), w),
        decreases reg.len() - j,
    {
        assert(reg[j as int] == registry@[j as int]@);
        assert(valid_sequence(registry@[j as int].sequence@, SEQUENCE_DIGITS as nat));
        let m = count_seq_matches(registry[j].sequence.as_str(), winning_sequence);
        proof {
            crate::sequence::lemma_seq_matches_bound(reg[j as int].0, w);
            assert(reg.take(j + 1).drop_last() =~= reg.take(j as int));
        }
        if m > 0 {
            winners.push((m, registry[j].holder));
        }
        j = j + 1;
    }
    assert(reg.take(j as int) =~= reg);
    winners
}

/// Relies on itertools' `Itertools::into_group_map`: each key maps to the
/// values paired with it, in input order, and only keys that occur are present.
#[verifier::external_body]
fn group_by_tier(pairs: &Vec<(u8, Addr)>) -> (r: HashMap<u8, Vec<Addr>>)
    ensures
        forall|t: u8| #[trigger] r@.contains_key(t) == has_tier(pairs@, t),
        forall|t: u8| #[trigger] r@.contains_key(t) ==> r@[t]@ == tier_holders(pairs@, t),
{
    pairs.iter().copied().into_group_map()
}

/// Each winner's share of a tier's fraction `distribution` of the prize pool.
pub fn assign_prize(awardable_prize: Decimal, winners: u128, distribution: Decimal) -> (r: Option<Decimal>)
    ensures
        r == prize_share(awardable_prize, winners, distribution),
{
    match awardable_prize.checked_mul(distribution) {
        None => None,
        Some(x) => match Decimal::from_amount(winners) {
            None => None,
            Some(n) => x.checked_div(n),
        },
    }
}

proof fn lemma_credit_none_extends(
    deps: Seq<DepositorView>,
    ws: Seq<(u8, Addr)>,
    all: Seq<(u8, Addr)>,
    prize: Decimal,
    dist: Seq<Decimal>,
    k: int,
)
    requires
        0 <= k <= ws.len(),
        credit_winners(deps, ws.take(k), all, prize, dist) is None,
    ensures
        credit_winners(deps, ws, all, prize, dist) is None,
    decreases ws.len() - k,
{
    if k == ws.len() {
        assert(ws.take(k) =~= ws);
    } else {
        assert(ws.drop_last().take(k) =~= ws.take(k));
        lemma_credit_none_extends(deps, ws.drop_last(), all, prize, dist, k);
    }
}

/// Crediting a prize balance keeps the invariant.
proof fn lemma_credit_one_wf(l: LedgerView, a: Addr, p: Decimal)
    requires
        wf(l),
        credit_one(l.depositors, a, p) is Some,
    ensures
        wf(LedgerView { depositors: credit_one(l.depositors, a, p)->0, ..l }),
{
    let deps = l.depositors;
    let i = index_of(deps, a);
    let l2 = LedgerView { depositors: credit_one(deps, a, p)->0, ..l };
    if i >= 0 {
        assert(0 <= i < deps.len() && deps[i].address == a) by {
            let j = choose|j: int| 0 <= j < deps.len() && deps[j].address == a;
        }
        let nd = l2.depositors[i];
        lemma_sum_update(deps, i, nd, shares_fn());
        lemma_sum_update(deps, i, nd, tickets_fn());
        lemma_unique_update(deps, i, nd);
        assert forall|x: Addr| #[trigger] holder_count(l2.registry, x) > 0 implies exists|j: int|
            0 <= j < l2.depositors.len() && l2.depositors[j].address == x by {
            let j = choose|j: int| 0 <= j < deps.len() && deps[j].address == x;
            assert(l2.depositors[j].address == x);
        }
        assert forall|j: int| 0 <= j < l2.depositors.len() implies holder_count(
            l2.registry,
            #[trigger] l2.depositors[j].address,
        ) == l2.depositors[j].tickets.len() by {
            assert(l2.depositors[j].address == deps[j].address);
        }
    } else {
        assert(l2 == l);
    }
}

/// Settles a draw under way with the winning sequence: each ticket with at
/// least one matching digit wins its tier's fraction of the prize pool,
/// shared evenly among that tier's tickets; the round is recorded and the
/// next draw scheduled. Refused outside a draw. Where a credit overflows,
/// the error is returned with the credits made so far, which the host
/// discards with the rest of the call.
pub fn handle_prize(ledger: &mut Ledger, winning_sequence: String) -> (r: Result<(), ContractError>)
    requires
        wf(old(ledger)@),
    ensures
        wf(final(ledger)@),
        match prize_effect(old(ledger)@, winning_sequence@) {
            Ok(l) => r is Ok && final(ledger)@ == l,
            Err(e) => r == Err::<(), ContractError>(e),
        },
        prize_check(old(ledger)@, winning_sequence@) is Some ==> final(ledger)@ == old(ledger)@,
{
    let ghost l0 = ledger@;
    let ghost w = winning_sequence@;
    if ledger.state.phase != DrawPhase::Drawing {
        return Err(ContractError::NotDrawing);
    }
    if !is_valid_sequence(winning_sequence.as_str(), SEQUENCE_DIGITS) {
        return Err(ContractError::InvalidSequence);
    }
    let next = match ledger.state.next_lottery_time.checked_add(ledger.config.lottery_interval) {
        Some(t) => t,
        None => return Err(ContractError::Overflow),
    };
    let round = match ledger.state.current_lottery.checked_add(1) {
        Some(n) => n,
        None => return Err(ContractError::Overflow),
    };
    assert forall|i: int| 0 <= i < ledger.registry@.len() implies valid_sequence(
        #[trigger] ledger.registry@[i].sequence@,
        SEQUENCE_DIGITS as nat,
    ) by {
        assert(l0.registry[i] == ledger.registry@[i]@);
        assert(valid_sequence(l0.registry[i].0, SEQUENCE_DIGITS as nat));
    }
    let winners = match_winners(&ledger.registry, winning_sequence.as_str());
    assert(ledger.registry@.map_values(|r: Registration| r@) == l0.registry);
    let ghost ws = winners@;
    let groups = group_by_tier(&winners);
    let prize = ledger.state.award_available;
    let ghost dist = l0.config.prize_distribution;
    let mut total: u128 = 0;
    let mut k: usize = 0;
    assert(ws.take(0) =~= Seq::<(u8, Addr)>::empty());
    while k < winners.len()
        invariant
            wf(ledger@),
            ledger@ == (LedgerView { depositors: ledger@.depositors, ..l0 }),
            ws == winners@,
            prize == l0.state.award_available,
            dist == l0.config.prize_distribution,
            k <= ws.len(),
            forall|t: u8| #[trigger] groups@.contains_key(t) == has_tier(ws, t),
            forall|t: u8| #[trigger] groups@.contains_key(t) ==> groups@[t]@ == tier_holders(ws, t),
            credit_winners(l0.depositors, ws.take(k as int), ws, prize, dist) == Some(
                (ledger@.depositors, total as int),
            ),
            prize_check(l0, w) is None,
            ws == winners_of(l0.registry, w),
            w == winning_sequence@,
            l0 == old(ledger)@,
        decreases ws.len() - k,
    {
        let t = winners[k].0;
        let a = winners[k].1;
        let ghost before = ledger@;
        let ghost before_vec = ledger.depositors@;
        proof {
            assert(ws.take(k + 1).drop_last() =~= ws.take(k as int));
            assert(ws.take(k + 1).last() == ws[k as int]);
            assert(groups@.contains_key(t));
        }
        let count: usize = match groups.get(&t) {
            Some(v) => v.len(),
            None => 0,
        };
        assert(count == tier_count(ws, t));
        let p = if (t as usize) < ledger.config.prize_distribution.len() {
            match assign_prize(prize, count as u128, ledger.config.prize_distribution[t as usize]) {
                Some(p) => p,
                None => {
                    proof {
                        assert(tier_prize(prize, dist, ws, t) is None);
                        assert(credit_winners(l0.depositors, ws.take(k + 1), ws, prize, dist) is None);
                        lemma_credit_none_extends(l0.depositors, ws, ws, prize, dist, k + 1);
                    }
                    return Err(ContractError::Overflow);
                },
            }
        } else {
            Decimal::zero()
        };
        assert(tier_prize(prize, dist, ws, t) == Some(p));
        if total > u128::MAX - p.atomics {
            proof {
                assert(credit_winners(l0.depositors, ws.take(k + 1), ws, prize, dist) is None);
                lemma_credit_none_extends(l0.depositors, ws, ws, prize, dist, k + 1);
            }
            return Err(ContractError::Overflow);
        }
        match find_depositor(&ledger.depositors, a) {
            Some(i) => {
                proof {
                    assert(before.depositors[i as int] == ledger.depositors@[i as int]@);
                    lemma_index_of(before.depositors, a, i as int);
                }
                if ledger.depositors[i].redeemable.atomics > u128::MAX - p.atomics {
                    proof {
                        assert(before.depositors[i as int] == ledger.depositors@[i as int]@);
                        assert(credit_one(before.depositors, a, p) is None);
                        assert(credit_winners(l0.depositors, ws.take(k + 1), ws, prize, dist) is None);
                        lemma_credit_none_extends(l0.depositors, ws, ws, prize, dist, k + 1);
                    }
                    return Err(ContractError::Overflow);
                }
                let mut d = ledger.depositors.remove(i);
                d.redeemable = Decimal { atomics: d.redeemable.atomics + p.atomics };
                ledger.depositors.insert(i, d);
                proof {
                    let nds = credit_one(before.depositors, a, p)->0;
                    assert(ledger@.depositors =~= nds) by {
                        assert forall|x: int| 0 <= x < nds.len() implies ledger@.depositors[x] == nds[x] by {
                            if x != i {
                                assert(ledger.depositors@[x] == before_vec[x]);
                            }
                        }
                    }
                }
            },
            None => {
                proof {
                    assert(index_of(before.depositors, a) < 0) by {
                        if exists|x: int| 0 <= x < before.depositors.len() && before.depositors[x].address == a {
                            let x = choose|x: int| 0 <= x < before.depositors.len() && before.depositors[x].address == a;
                            assert(before.depositors[x] == ledger.depositors@[x]@);
                        }
                    }
                }
            },
        }
        proof {
            lemma_credit_one_wf(before, a, p);
            assert(ledger@ == (LedgerView { depositors: credit_one(before.depositors, a, p)->0, ..before }));
        }
        total = total + p.atomics;
        k = k + 1;
    }
    assert(ws.take(k as int) =~= ws);
    proof {
        lemma_credits_within_pool(l0.depositors, ws, prize, dist);
    }
    let award = prize.atomics - total;
    ledger.rounds.push(
        LotteryRound {
            sequence: winning_sequence,
            awarded: true,
            total_prizes: Decimal { atomics: total },
            winners,
        },
    );
    let s = ledger.state;
    ledger.state = PoolState {
        award_available: Decimal { atomics: award },
        next_lottery_time: next,
        current_lottery: round,
        phase: DrawPhase::Idle,
        ..s
    };
    proof {
        let l1 = prize_effect(l0, w)->Ok_0;
        assert(ledger@.rounds =~= l1.rounds);
        assert(ledger@ == l1);
    }
    Ok(())
}

} // verus!
