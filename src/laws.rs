//! Properties of the ledger that hold across operations.
use vstd::prelude::*;
use crate::admin::updated_config;
use crate::decimal::{Decimal, lemma_mul_monotonic};
use crate::state::{
    ConfigView, LedgerView, holder_count, total_shares, total_ticket_count, wf,
};
use crate::deposit::{
    all_valid, deposit_effect, empty_depositor, entries_for, lemma_holder_count_append, mint_spec,
    record_of,
};
use crate::state::{
    Addr, held_by, index_of, lemma_filter_absent, lemma_held_by_filter, lemma_holder_count_filter,
    not_held_by,
};
use crate::withdraw::{redeem_spec, withdraw_effect};

verus! {

/// In every well-formed ledger (the state `init` creates, kept by every
/// operation) the share supply is split exactly between principal-only and
/// lottery-exposed shares, and equals the sum of the depositors' shares.
pub proof fn share_supply_is_accounted(l: LedgerView)
    requires
        wf(l),
    ensures
        l.state.shares_supply.atomics == l.state.deposit_shares.atomics
            + l.state.lottery_shares.atomics,
        l.state.shares_supply.atomics == total_shares(l.depositors),
{
}

/// In every well-formed ledger the ticket count equals the tickets held
/// across all depositor records and the number of holder entries in the
/// registry, and each depositor holds as many registry entries as tickets:
/// the same sequences, counted with repetition.
pub proof fn tickets_are_accounted(l: LedgerView)
    requires
        wf(l),
    ensures
        l.state.total_tickets == total_ticket_count(l.depositors),
        l.state.total_tickets == l.registry.len(),
        forall|i: int|
            0 <= i < l.depositors.len() ==> holder_count(l.registry, #[trigger] l.depositors[i].address)
                == l.depositors[i].tickets.len(),
        forall|i: int|
            0 <= i < l.depositors.len() ==> held_by(l.registry, #[trigger] l.depositors[i].address).to_multiset()
                == l.depositors[i].tickets.to_multiset(),
{
}

/// The stable value of a withdrawal never falls as the exchange rate of the
/// yield source rises: at a higher rate it is computed wherever it is at the
/// lower one, and it is at least as large.
pub proof fn withdrawal_value_grows_with_rate(
    shares: Decimal,
    supply: Decimal,
    a_balance: u128,
    low: Decimal,
    high: Decimal,
)
    requires
        low.atomics <= high.atomics,
    ensures
        redeem_spec(shares, supply, a_balance, high) is Some ==> redeem_spec(
            shares,
            supply,
            a_balance,
            low,
        ) is Some,
        redeem_spec(shares, supply, a_balance, high) is Some ==> redeem_spec(
            shares,
            supply,
            a_balance,
            low,
        ).unwrap().1 <= redeem_spec(shares, supply, a_balance, high).unwrap().1,
{
    if redeem_spec(shares, supply, a_balance, high) is Some {
        let redeem = redeem_spec(shares, supply, a_balance, high).unwrap().0;
        lemma_mul_monotonic(redeem, low, high);
        let a = crate::decimal::mul_spec(redeem, low)->0.atomics as int;
        let b = crate::decimal::mul_spec(redeem, high)->0.atomics as int;
        vstd::arithmetic::div_mod::lemma_div_is_ordered(a, b, crate::decimal::FRACTIONAL as int);
    }
}

/// A deposit by an account without a record, followed at once by its
/// withdrawal, leaves the pool's shares, lottery-exposed deposits, ticket
/// count and ticket registry exactly as they were: what the depositor gets
/// back is decided by the redemption alone, not by drift in the accounting.
pub proof fn deposit_then_withdraw_restores_pool(
    l: LedgerView,
    to: Addr,
    amount: u128,
    cs: Seq<Seq<char>>,
    rate: Decimal,
    net: u128,
    now: u64,
    claimed: u128,
)
    requires
        wf(l),
        all_valid(cs),
        index_of(l.depositors, to) < 0,
        deposit_effect(l, to, amount, cs, rate, net) is Ok,
    ensures
        ({
            let after = withdraw_effect(
                deposit_effect(l, to, amount, cs, rate, net)->Ok_0,
                to,
                now,
                claimed,
            );
            &&& after.state.shares_supply == l.state.shares_supply
            &&& after.state.deposit_shares == l.state.deposit_shares
            &&& after.state.lottery_shares == l.state.lottery_shares
            &&& after.state.lottery_deposits == l.state.lottery_deposits
            &&& after.state.total_tickets == l.state.total_tickets
            &&& after.registry == l.registry
        }),
{
    let l1 = deposit_effect(l, to, amount, cs, rate, net)->Ok_0;
    let n = l.depositors.len() as int;
    let (minted, lp, ld) = mint_spec(amount, net, rate, l.config.split_factor)->0;
    crate::decimal::lemma_mul_by_fraction(minted.atomics as int, l.config.split_factor.atomics as int);
    assert(record_of(l.depositors, to) == empty_depositor(to));
    assert(l1.depositors.len() == n + 1);
    assert(l1.depositors[n].address == to);
    assert(index_of(l1.depositors, to) == n) by {
        assert forall|j: int| 0 <= j < n implies l1.depositors[j].address != to by {
            assert(l1.depositors[j] == l.depositors[j]);
        }
    }
    assert(record_of(l1.depositors, to) == l1.depositors[n]);
    // the registry: the new entries all belong to `to`, who held none before
    assert(holder_count(l.registry, to) == 0);
    lemma_filter_absent(l.registry, to);
    lemma_holder_count_append(Seq::empty(), cs, to, to);
    assert(Seq::<(Seq<char>, Addr)>::empty() + entries_for(cs, to) =~= entries_for(cs, to));
    lemma_holder_count_filter(entries_for(cs, to), to, to);
    assert(entries_for(cs, to).filter(not_held_by(to)) =~= Seq::<(Seq<char>, Addr)>::empty());
    Seq::filter_distributes_over_add(l.registry, entries_for(cs, to), not_held_by(to));
    assert(l1.registry.filter(not_held_by(to)) =~= l.registry);
    let after = withdraw_effect(l1, to, now, claimed);
    assert(l1.depositors[n].shares == minted);
    assert(l1.depositors[n].deposit_amount == amount);
    assert(crate::withdraw::withdraw_parts(minted, amount, l.config.split_factor) == Some((lp, ld)));
    assert(l1.depositors[n].tickets =~= cs);
    assert(after.state.shares_supply == l.state.shares_supply);
    assert(after.state.deposit_shares == l.state.deposit_shares);
    assert(after.state.lottery_shares == l.state.lottery_shares);
    assert(after.state.lottery_deposits == l.state.lottery_deposits);
    assert(after.state.total_tickets == l.state.total_tickets);
}

/// A withdrawal takes out of the registry exactly the withdrawing account's
/// tickets, sequence by sequence, and leaves every other holder's entries,
/// in order.
pub proof fn withdrawal_unregisters_exactly_the_tickets(l: LedgerView, who: Addr, now: u64, claimed: u128, g: Addr)
    requires
        wf(l),
        index_of(l.depositors, who) >= 0,
    ensures
        held_by(l.registry, who).to_multiset() == record_of(l.depositors, who).tickets.to_multiset(),
        held_by(withdraw_effect(l, who, now, claimed).registry, who).len() == 0,
        g != who ==> held_by(withdraw_effect(l, who, now, claimed).registry, g) == held_by(l.registry, g),
{
    let i = index_of(l.depositors, who);
    assert(l.depositors[i].address == who);
    lemma_held_by_filter(l.registry, who, who);
    lemma_held_by_filter(l.registry, who, g);
}

/// An update that sets no field leaves the configuration as it was.
pub proof fn empty_update_keeps_config(c: ConfigView)
    ensures
        updated_config(c, None, None, None, None, None, None, None, None) == c,
{
}

} // verus!
