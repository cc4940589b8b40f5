//! Why an operation is refused.
use vstd::prelude::*;

verus! {

#[derive(Clone, Copy, Debug, PartialEq, Eq, Structural)]
pub enum ContractError {
    /// The caller may not perform this operation.
    Unauthorized,
    /// The initial reserve deposit is not the required amount.
    InvalidInitialDeposit,
    /// The collaborator contracts were registered already.
    AlreadyRegistered,
    /// The fee collector has not been registered.
    NotRegistered,
    /// A fraction in the configuration exceeds one.
    InvalidConfig,
    /// No funds of the stable denomination were sent.
    ZeroDeposit,
    /// The deposit does not pay exactly for the tickets.
    WrongDepositAmount,
    /// The deposit does not cover the tickets.
    InsufficientDeposit,
    /// The next draw is due: deposits wait for it.
    LotteryAboutToStart,
    /// A ticket sequence is not made of the required number of digits.
    InvalidSequence,
    /// Tickets cannot be gifted to oneself.
    SelfGift,
    /// The exchange rate of the yield source is zero.
    ZeroExchangeRate,
    /// A value does not fit the ledger's number types.
    Overflow,
    /// The caller holds no shares.
    NoDeposits,
    /// A requested claim amount is zero.
    ZeroClaimAmount,
    /// Nothing is claimable.
    NothingToClaim,
    /// The contract's liquid balance cannot pay the claim.
    InsufficientFunds,
    /// Funds were attached to a draw.
    FundsAttached,
    /// The draw is not due yet.
    LotteryNotDue,
    /// A draw is under way already.
    DrawInProgress,
    /// Prize assignment was asked for outside a draw.
    NotDrawing,
}

} // verus!
