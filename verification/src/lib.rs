//! A verified escrow core: a balance ledger merged per key, a delimited
//! stake-ledger codec, a guarded lifecycle state machine with a two-tier
//! payout split, and an id-keyed registry, each with a proved contract.

pub mod balance;
pub mod codec;
pub mod contract;
pub mod error;
pub mod msg;
pub mod numeric;
pub mod payout;
pub mod state;
