use vstd::prelude::*;

verus! {

/// The client share of the required stake, as a mathematical value:
/// `floor(stake_amount * (100 - manager_rate) / 100)`. The client rate is
/// always derived from the manager rate, never read from the stored
/// client-rate field.
pub open spec fn spec_client_payout(stake_amount: u64, manager_rate: u64) -> int {
    (stake_amount * (100 - manager_rate)) / 100
}

/// Client share of the required stake. The manager's later payout is
/// whatever remains of the tracked-token balance, so only the client share
/// is rate-derived.
pub fn client_payout_amount(stake_amount: u64, manager_rate: u64) -> (r: u128)
    requires
        manager_rate <= 100,
    ensures
        r == spec_client_payout(stake_amount, manager_rate),
        r <= stake_amount,
{
    let rate_client: u128 = 100 - manager_rate as u128;
    proof {
        assert((stake_amount as u128) * rate_client <= u64::MAX * 100) by (nonlinear_arith)
            requires
                rate_client <= 100,
                stake_amount <= u64::MAX,
        ;
        assert((stake_amount * (100 - manager_rate)) / 100 <= stake_amount) by (nonlinear_arith)
            requires
                manager_rate <= 100,
        ;
    }
    let amount: u128 = (stake_amount as u128) * rate_client;
    amount / 100
}

} // verus!
