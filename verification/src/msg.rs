use vstd::prelude::*;
use vstd::string::StringSliceAdditionalSpecFns;
use crate::balance::Cw20Coin;
use crate::state::clone_strings;

verus! {

/// Instantiation carries nothing: the initial configuration is fixed.
pub struct InstantiateMsg {}

/// The payload of a create command.
#[derive(Debug, PartialEq, Eq)]
pub struct CreateMsg {
    /// A human-readable name for the escrow, 3 to 20 bytes.
    pub id: String,
    pub client: String,
    pub cw20_whitelist: Option<Vec<String>>,
    pub work_title: String,
    pub work_desc: String,
    pub work_url: String,
    pub start_time: Option<u64>,
    pub account_min_stake_amount: u64,
    pub stake_amount: u64,
    pub image_url: String,
}

impl CreateMsg {
    /// The whitelist the message asks for; none means an empty one.
    pub open spec fn spec_whitelist(&self) -> Seq<Seq<char>> {
        match self.cw20_whitelist {
            Some(v) => v@.map_values(|s: String| s@),
            None => Seq::empty(),
        }
    }

    pub fn addr_whitelist(&self) -> (r: Vec<String>)
        ensures
            r@.map_values(|s: String| s@) == self.spec_whitelist(),
    {
        match &self.cw20_whitelist {
            Some(v) => clone_strings(v),
            None => {
                let r = Vec::new();
                proof {
                    assert(r@.map_values(|s: String| s@) =~= Seq::<Seq<char>>::empty());
                }
                r
            },
        }
    }
}

/// The payload of a top-up command: the target escrow and the eligibility
/// window of the new stake record.
#[derive(Debug, PartialEq, Eq)]
pub struct TopUpMsg {
    pub id: String,
    pub start_time: u64,
    pub end_time: u64,
}

/// The payload of a set-constant command: the whole configuration at once.
#[derive(Debug, PartialEq, Eq)]
pub struct ConstantMsg {
    pub manager_addr: String,
    pub min_stake: u64,
    pub rate_client: u64,
    pub rate_manager: u64,
}

/// The mutating commands. A token transfer arrives from outside as a
/// wrapped create or top-up (`ReceiveMsg`) and is dispatched as the same
/// command with token funds.
#[derive(Debug, PartialEq, Eq)]
pub enum ExecuteMsg {
    Create(CreateMsg),
    /// Adds the sent funds to the escrow's balance.
    TopUp(TopUpMsg),
    /// The two-step release: by the client at state 1, by the manager at
    /// state 2.
    Approve { id: String },
    /// Returns an expired staker's deposit.
    Refund { id: String },
    /// Deletes a finished escrow.
    Remove { id: String },
    /// Overwrites the configuration.
    SetConstant(ConstantMsg),
}

/// What a wrapped token transfer may carry.
#[derive(Debug, PartialEq, Eq)]
pub enum ReceiveMsg {
    Create(CreateMsg),
    /// Adds the sent tokens to the escrow's balance.
    TopUp(TopUpMsg),
}

/// The read-only queries.
#[derive(Debug, PartialEq, Eq)]
pub enum QueryMsg {
    /// All registered escrow ids.
    List {},
    /// Every escrow's details, redacted for the viewing identity.
    DetailsAll { addr: String },
    /// The configuration.
    Constants {},
    /// Whether an identity administers the contract.
    IsAdmin { addr: String },
}

/// An id is acceptable when it is 3 to 20 bytes of text.
pub fn is_valid_name(name: &str) -> (r: bool)
    ensures
        r == (3 <= name.spec_bytes().len() <= 20),
{
    let bytes = name.as_bytes();
    if bytes.len() < 3 || bytes.len() > 20 {
        return false;
    }
    true
}

/// All registered ids.
#[derive(Debug, PartialEq, Eq)]
pub struct ListResponse {
    pub escrows: Vec<String>,
}

/// One escrow's details as shown to one viewer. The work URL, the token
/// balance and the stake ledger are redacted unless the viewer is entitled
/// to them.
#[derive(Debug, PartialEq, Eq)]
pub struct DetailsResponse {
    pub id: String,
    pub client: String,
    pub work_title: String,
    pub work_desc: String,
    pub work_url: String,
    pub start_time: Option<u64>,
    pub account_min_stake_amount: u64,
    pub stake_amount: u64,
    pub cw20_balance: Vec<Cw20Coin>,
    pub account_info: String,
    pub state: u8,
    pub my_staked: String,
    pub expired: bool,
    pub timestamp: String,
    pub image_url: String,
}

/// Every escrow's details.
#[derive(Debug, PartialEq, Eq)]
pub struct DetailsAllResponse {
    pub escrows: Vec<DetailsResponse>,
}

/// Whether an identity administers the contract: true while no manager is
/// set, and for the manager afterwards.
#[derive(Debug, PartialEq, Eq)]
pub struct IsAdminResponse {
    pub isadmin: bool,
}

/// What a query returns.
#[derive(Debug, PartialEq, Eq)]
pub enum QueryAnswer {
    List(ListResponse),
    DetailsAll(DetailsAllResponse),
    Constants(ConstantMsg),
    IsAdmin(IsAdminResponse),
}

} // verus!
