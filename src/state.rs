//! The ledger's records, their mathematical models, and the invariant that
//! every operation keeps.
use vstd::prelude::*;
use crate::decimal::{Decimal, FRACTIONAL};
use crate::sequence::{valid_sequence, SEQUENCE_DIGITS};

verus! {

/// An account, as the host numbers it.
pub type Addr = u64;

/// Funds of one denomination attached to a call.
pub struct Coin {
    pub denom: String,
    pub amount: u128,
}

/// What the host tells an operation about the call.
pub struct Env {
    pub sender: Addr,
    /// Current time, in seconds.
    pub time: u64,
    pub sent_funds: Vec<Coin>,
}

/// A withdrawn amount, claimable once `release_at` has passed.
#[derive(Clone, Copy, Debug, PartialEq, Eq, Structural)]
pub struct Claim {
    pub amount: u128,
    pub release_at: u64,
}

/// Phase of the two-step draw.
#[derive(Clone, Copy, Debug, PartialEq, Eq, Structural)]
pub enum DrawPhase {
    Idle,
    /// The lottery-exposed funds are being redeemed; prizes come next.
    Drawing,
}

pub struct Config {
    pub contract_addr: Addr,
    pub owner: Addr,
    pub stable_denom: String,
    pub a_terra_contract: Addr,
    pub anchor_contract: Addr,
    pub collector_contract: Option<Addr>,
    pub distributor_contract: Option<Addr>,
    pub lottery_interval: u64,
    pub block_time: u64,
    pub ticket_price: Decimal,
    /// Fraction of the prize pool for each number of matching digits.
    pub prize_distribution: Vec<Decimal>,
    pub reserve_factor: Decimal,
    /// Fraction of each deposit that takes part in the lottery.
    pub split_factor: Decimal,
    pub unbonding_period: u64,
}

pub struct ConfigView {
    pub contract_addr: Addr,
    pub owner: Addr,
    pub stable_denom: Seq<char>,
    pub a_terra_contract: Addr,
    pub anchor_contract: Addr,
    pub collector_contract: Option<Addr>,
    pub distributor_contract: Option<Addr>,
    pub lottery_interval: u64,
    pub block_time: u64,
    pub ticket_price: Decimal,
    pub prize_distribution: Seq<Decimal>,
    pub reserve_factor: Decimal,
    pub split_factor: Decimal,
    pub unbonding_period: u64,
}

impl View for Config {
    type V = ConfigView;

    open spec fn view(&self) -> ConfigView {
        ConfigView {
            contract_addr: self.contract_addr,
            owner: self.owner,
            stable_denom: self.stable_denom@,
            a_terra_contract: self.a_terra_contract,
            anchor_contract: self.anchor_contract,
            collector_contract: self.collector_contract,
            distributor_contract: self.distributor_contract,
            lottery_interval: self.lottery_interval,
            block_time: self.block_time,
            ticket_price: self.ticket_price,
            prize_distribution: self.prize_distribution@,
            reserve_factor: self.reserve_factor,
            split_factor: self.split_factor,
            unbonding_period: self.unbonding_period,
        }
    }
}

#[derive(Clone, Copy, Debug, PartialEq, Eq, Structural)]
pub struct PoolState {
    pub total_tickets: u64,
    /// Reserve accrued for the fee collector.
    pub total_reserve: Decimal,
    /// Deposits exposed to the lottery.
    pub lottery_deposits: Decimal,
    pub shares_supply: Decimal,
    /// Shares that only earn principal.
    pub deposit_shares: Decimal,
    /// Shares exposed to the lottery.
    pub lottery_shares: Decimal,
    /// Shares minted for sponsors: owned by no depositor, and kept apart
    /// from `shares_supply`.
    pub sponsored_shares: Decimal,
    /// Prize pool carried into the next draw.
    pub award_available: Decimal,
    pub current_balance: u128,
    pub current_lottery: u64,
    pub next_lottery_time: u64,
    pub phase: DrawPhase,
}

pub struct Depositor {
    pub address: Addr,
    /// Gross amount deposited, before transfer tax.
    pub deposit_amount: u128,
    pub shares: Decimal,
    /// Prizes won and not yet claimed.
    pub redeemable: Decimal,
    pub tickets: Vec<String>,
    pub unbonding: Vec<Claim>,
}

pub struct DepositorView {
    pub address: Addr,
    pub deposit_amount: u128,
    pub shares: Decimal,
    pub redeemable: Decimal,
    pub tickets: Seq<Seq<char>>,
    pub unbonding: Seq<Claim>,
}

impl View for Depositor {
    type V = DepositorView;

    open spec fn view(&self) -> DepositorView {
        DepositorView {
            address: self.address,
            deposit_amount: self.deposit_amount,
            shares: self.shares,
            redeemable: self.redeemable,
            tickets: self.tickets@.map_values(|t: String| t@),
            unbonding: self.unbonding@,
        }
    }
}

/// One ticket: a sequence and the account holding it.
pub struct Registration {
    pub sequence: String,
    pub holder: Addr,
}

impl View for Registration {
    type V = (Seq<char>, Addr);

    open spec fn view(&self) -> (Seq<char>, Addr) {
        (self.sequence@, self.holder)
    }
}

/// The record of one executed draw.
pub struct LotteryRound {
    pub sequence: String,
    pub awarded: bool,
    pub total_prizes: Decimal,
    /// (matching digits, holder) for each ticket with at least one match.
    pub winners: Vec<(u8, Addr)>,
}

pub struct LotteryRoundView {
    pub sequence: Seq<char>,
    pub awarded: bool,
    pub total_prizes: Decimal,
    pub winners: Seq<(u8, Addr)>,
}

impl View for LotteryRound {
    type V = LotteryRoundView;

    open spec fn view(&self) -> LotteryRoundView {
        LotteryRoundView {
            sequence: self.sequence@,
            awarded: self.awarded,
            total_prizes: self.total_prizes,
            winners: self.winners@,
        }
    }
}

/// The whole store: configuration, pool state, depositor table, ticket
/// registry (one entry per held ticket, in order of registration; the
/// holders of a sequence are its entries' holders, in that order) and the
/// table of rounds, indexed by round id.
pub struct Ledger {
    pub config: Config,
    pub state: PoolState,
    pub depositors: Vec<Depositor>,
    pub registry: Vec<Registration>,
    pub rounds: Vec<LotteryRound>,
}

pub struct LedgerView {
    pub config: ConfigView,
    pub state: PoolState,
    pub depositors: Seq<DepositorView>,
    pub registry: Seq<(Seq<char>, Addr)>,
    pub rounds: Seq<LotteryRoundView>,
}

impl View for Ledger {
    type V = LedgerView;

    open spec fn view(&self) -> LedgerView {
        LedgerView {
            config: self.config@,
            state: self.state,
            depositors: self.depositors@.map_values(|d: Depositor| d@),
            registry: self.registry@.map_values(|r: Registration| r@),
            rounds: self.rounds@.map_values(|r: LotteryRound| r@),
        }
    }
}

/// Sum of `f` over a sequence of depositor records.
pub open spec fn sum_of(s: Seq<DepositorView>, f: spec_fn(DepositorView) -> int) -> int
    decreases s.len(),
{
    if s.len() == 0 {
        0
    } else {
        sum_of(s.drop_last(), f) + f(s.last())
    }
}

pub open spec fn shares_fn() -> spec_fn(DepositorView) -> int {
    |d: DepositorView| d.shares.atomics as int
}

pub open spec fn tickets_fn() -> spec_fn(DepositorView) -> int {
    |d: DepositorView| d.tickets.len() as int
}

/// Registry entries that `h` does not hold.
pub open spec fn not_held_by(h: Addr) -> spec_fn((Seq<char>, Addr)) -> bool {
    |r: (Seq<char>, Addr)| r.1 != h
}

pub open spec fn total_shares(s: Seq<DepositorView>) -> int {
    sum_of(s, shares_fn())
}

pub open spec fn total_ticket_count(s: Seq<DepositorView>) -> int {
    sum_of(s, tickets_fn())
}

/// Number of registry entries held by `h`.
pub open spec fn holder_count(reg: Seq<(Seq<char>, Addr)>, h: Addr) -> nat
    decreases reg.len(),
{
    if reg.len() == 0 {
        0
    } else {
        holder_count(reg.drop_last(), h) + if reg.last().1 == h {
            1nat
        } else {
            0nat
        }
    }
}

/// The sequences of the registry entries held by `h`, in order.
pub open spec fn held_by(reg: Seq<(Seq<char>, Addr)>, h: Addr) -> Seq<Seq<char>>
    decreases reg.len(),
{
    if reg.len() == 0 {
        Seq::empty()
    } else {
        let rest = held_by(reg.drop_last(), h);
        if reg.last().1 == h {
            rest.push(reg.last().0)
        } else {
            rest
        }
    }
}

pub open spec fn unique_addresses(s: Seq<DepositorView>) -> bool {
    forall|i: int, j: int|
        0 <= i < s.len() && 0 <= j < s.len() && i != j ==> #[trigger] s[i].address
            != #[trigger] s[j].address
}

/// Position of the record of `a`, or -1.
pub open spec fn index_of(s: Seq<DepositorView>, a: Addr) -> int {
    if exists|i: int| 0 <= i < s.len() && s[i].address == a {
        choose|i: int| 0 <= i < s.len() && s[i].address == a
    } else {
        -1
    }
}

/// Sum of the prize fractions, in atomics.
pub open spec fn fraction_total(ds: Seq<Decimal>) -> int
    decreases ds.len(),
{
    if ds.len() == 0 {
        0
    } else {
        fraction_total(ds.drop_last()) + ds.last().atomics
    }
}

/// The fractions of the configuration are at most one: the split factor,
/// and the prize fractions together.
pub open spec fn config_ok(c: ConfigView) -> bool {
    &&& c.split_factor.atomics <= FRACTIONAL
    &&& fraction_total(c.prize_distribution) <= FRACTIONAL
}

/// The invariant of the ledger.
pub open spec fn wf(l: LedgerView) -> bool {
    &&& config_ok(l.config)
    &&& l.rounds.len() == l.state.current_lottery
    &&& unique_addresses(l.depositors)
    &&& l.state.total_tickets == l.registry.len()
    &&& l.state.total_tickets == total_ticket_count(l.depositors)
    &&& forall|i: int|
        0 <= i < l.depositors.len() ==> holder_count(l.registry, #[trigger] l.depositors[i].address)
            == l.depositors[i].tickets.len()
    &&& forall|i: int|
        0 <= i < l.depositors.len() ==> held_by(l.registry, #[trigger] l.depositors[i].address).to_multiset()
            == l.depositors[i].tickets.to_multiset()
    &&& forall|a: Addr|
        #[trigger] holder_count(l.registry, a) > 0 ==> exists|i: int|
            0 <= i < l.depositors.len() && l.depositors[i].address == a
    &&& forall|i: int|
        0 <= i < l.registry.len() ==> valid_sequence(
            #[trigger] l.registry[i].0,
            SEQUENCE_DIGITS as nat,
        )
    &&& l.state.shares_supply.atomics == l.state.deposit_shares.atomics
        + l.state.lottery_shares.atomics
    &&& l.state.shares_supply.atomics == total_shares(l.depositors)
}

pub proof fn lemma_sum_push(s: Seq<DepositorView>, d: DepositorView, f: spec_fn(DepositorView) -> int)
    ensures
        sum_of(s.push(d), f) == sum_of(s, f) + f(d),
{
    assert(s.push(d).drop_last() =~= s);
}

pub proof fn lemma_sum_update(
    s: Seq<DepositorView>,
    i: int,
    d: DepositorView,
    f: spec_fn(DepositorView) -> int,
)
    requires
        0 <= i < s.len(),
    ensures
        sum_of(s.update(i, d), f) == sum_of(s, f) - f(s[i]) + f(d),
    decreases s.len(),
{
    let t = s.update(i, d);
    if i == s.len() - 1 {
        assert(t.drop_last() =~= s.drop_last());
    } else {
        lemma_sum_update(s.drop_last(), i, d, f);
        assert(t.drop_last() =~= s.drop_last().update(i, d));
    }
}

pub proof fn lemma_sum_nonneg_le(s: Seq<DepositorView>, i: int, f: spec_fn(DepositorView) -> int)
    requires
        0 <= i < s.len(),
        forall|j: int| 0 <= j < s.len() ==> f(#[trigger] s[j]) >= 0,
    ensures
        f(s[i]) <= sum_of(s, f),
        sum_of(s, f) >= 0,
    decreases s.len(),
{
    lemma_sum_nonneg(s.drop_last(), f);
    if i < s.len() - 1 {
        lemma_sum_nonneg_le(s.drop_last(), i, f);
    }
}

pub proof fn lemma_sum_nonneg(s: Seq<DepositorView>, f: spec_fn(DepositorView) -> int)
    requires
        forall|j: int| 0 <= j < s.len() ==> f(#[trigger] s[j]) >= 0,
    ensures
        sum_of(s, f) >= 0,
    decreases s.len(),
{
    if s.len() > 0 {
        lemma_sum_nonneg(s.drop_last(), f);
    }
}

pub proof fn lemma_holder_count_push(reg: Seq<(Seq<char>, Addr)>, r: (Seq<char>, Addr), h: Addr)
    ensures
        holder_count(reg.push(r), h) == holder_count(reg, h) + if r.1 == h {
            1nat
        } else {
            0nat
        },
{
    assert(reg.push(r).drop_last() =~= reg);
}

/// Dropping every entry of `h` removes `holder_count(reg, h)` entries and
/// leaves the counts of other holders as they were.
pub proof fn lemma_holder_count_filter(reg: Seq<(Seq<char>, Addr)>, h: Addr, g: Addr)
    ensures
        holder_count(reg.filter(not_held_by(h)), g) == if g == h {
            0
        } else {
            holder_count(reg, g)
        },
        reg.filter(not_held_by(h)).len() == reg.len() - holder_count(reg, h),
    decreases reg.len(),
{
    let p = not_held_by(h);
    reveal_with_fuel(Seq::filter, 1);
    if reg.len() > 0 {
        lemma_holder_count_filter(reg.drop_last(), h, g);
        let f0 = reg.drop_last().filter(p);
        if p(reg.last()) {
            assert(reg.filter(p) == f0.push(reg.last()));
            lemma_holder_count_push(f0, reg.last(), g);
        } else {
            assert(reg.filter(p) == f0);
        }
    } else {
        assert(reg.filter(p) =~= reg);
    }
}

/// A holder's sequences are as many as their entries.
pub proof fn lemma_held_by_len(reg: Seq<(Seq<char>, Addr)>, h: Addr)
    ensures
        held_by(reg, h).len() == holder_count(reg, h),
    decreases reg.len(),
{
    if reg.len() > 0 {
        lemma_held_by_len(reg.drop_last(), h);
    }
}

/// Dropping every entry of `h` leaves `h` no sequences and the others theirs.
pub proof fn lemma_held_by_filter(reg: Seq<(Seq<char>, Addr)>, h: Addr, g: Addr)
    ensures
        held_by(reg.filter(not_held_by(h)), g) == if g == h {
            Seq::<Seq<char>>::empty()
        } else {
            held_by(reg, g)
        },
    decreases reg.len(),
{
    let p = not_held_by(h);
    reveal_with_fuel(Seq::filter, 1);
    if reg.len() > 0 {
        lemma_held_by_filter(reg.drop_last(), h, g);
        let f0 = reg.drop_last().filter(p);
        if p(reg.last()) {
            assert(reg.filter(p) == f0.push(reg.last()));
            assert(f0.push(reg.last()).drop_last() =~= f0);
        } else {
            assert(reg.filter(p) == f0);
        }
    } else {
        assert(reg.filter(p) =~= reg);
    }
}

/// Dropping the entries of a holder who has none leaves the registry as it is.
pub proof fn lemma_filter_absent(reg: Seq<(Seq<char>, Addr)>, h: Addr)
    requires
        holder_count(reg, h) == 0,
    ensures
        reg.filter(not_held_by(h)) == reg,
    decreases reg.len(),
{
    reveal_with_fuel(Seq::filter, 1);
    if reg.len() == 0 {
        assert(reg.filter(not_held_by(h)) =~= reg);
    } else {
        lemma_filter_absent(reg.drop_last(), h);
        assert(reg.drop_last().push(reg.last()) =~= reg);
    }
}

/// A prefix of the prize fractions sums to at most all of them.
pub proof fn lemma_fraction_prefix(ds: Seq<Decimal>, j: int)
    requires
        0 <= j <= ds.len(),
    ensures
        0 <= fraction_total(ds.take(j)) <= fraction_total(ds),
    decreases ds.len(),
{
    if j == ds.len() {
        assert(ds.take(j) =~= ds);
        if ds.len() > 0 {
            lemma_fraction_prefix(ds.drop_last(), j - 1);
        }
    } else {
        assert(ds.take(j) =~= ds.drop_last().take(j));
        lemma_fraction_prefix(ds.drop_last(), j);
    }
}

/// Changing one record without changing its address keeps addresses unique.
pub proof fn lemma_unique_update(s: Seq<DepositorView>, i: int, d: DepositorView)
    requires
        unique_addresses(s),
        0 <= i < s.len(),
        d.address == s[i].address,
    ensures
        unique_addresses(s.update(i, d)),
{
    let t = s.update(i, d);
    assert forall|a: int, b: int| 0 <= a < t.len() && 0 <= b < t.len() && a != b implies
        #[trigger] t[a].address != #[trigger] t[b].address by {
        assert(s[a].address != s[b].address);
    }
}

/// Appending a record with a new address keeps addresses unique.
pub proof fn lemma_unique_push(s: Seq<DepositorView>, d: DepositorView)
    requires
        unique_addresses(s),
        forall|j: int| 0 <= j < s.len() ==> (#[trigger] s[j]).address != d.address,
    ensures
        unique_addresses(s.push(d)),
{
    let t = s.push(d);
    assert forall|a: int, b: int| 0 <= a < t.len() && 0 <= b < t.len() && a != b implies
        #[trigger] t[a].address != #[trigger] t[b].address by {
        if a < s.len() && b < s.len() {
        } else if a < s.len() {
            assert(t[a] == s[a]);
        } else {
            assert(t[b] == s[b]);
        }
    }
}

/// Every index found for a unique address is the one `index_of` gives.
pub proof fn lemma_index_of(s: Seq<DepositorView>, a: Addr, i: int)
    requires
        unique_addresses(s),
        0 <= i < s.len(),
        s[i].address == a,
    ensures
        index_of(s, a) == i,
{
}

} // verus!
