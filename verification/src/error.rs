use vstd::prelude::*;

verus! {

/// Every way an escrow operation can abort. An error is terminal for the
/// call: the caller observes the stored state unchanged.
#[derive(Clone, Copy, Debug, PartialEq, Eq, Structural)]
pub enum ContractError {
    /// The registry holds no escrow under the requested id.
    NotFound,
    /// A manager is already set and the caller is not that manager.
    Unauthorized,
    /// Approve was attempted before the escrow left the funding state or
    /// before the start time was reached.
    NotStarted,
    /// The first approval belongs to the client alone.
    NotClient,
    /// The second approval, and removal, belong to the manager alone.
    NotManager,
    /// Both payouts have already been made.
    NotLeft,
    /// Removal was attempted before both payouts were made.
    NotFinished,
    /// Refund was attempted after the work already started.
    AlreadyStarted,
    /// Refund was attempted before the start time was reached.
    WorkNotExpired,
    /// Refund was attempted on an escrow with an empty stake ledger.
    NobodyStaked,
    /// The caller asked for a refund but holds no stake record.
    DidntStaked,
    /// The caller's stake record is still inside its eligibility window.
    AccountNotExpired,
    /// A token deposit used a token that the escrow does not accept.
    NotInWhitelist,
    /// A create or top-up carried no funds.
    EmptyBalance,
    /// A top-up arrived after staking already finished.
    StakeFinished,
    /// The requested escrow id is already registered.
    AlreadyInUse,
    /// A payout would exceed the tracked-token balance.
    InsufficientBalance,
    /// A configured rate lies outside the range 0 to 100.
    InvalidRate,
}

} // verus!
