use vstd::prelude::*;
use crate::balance::{
    add_entries, add_entry, cw20_delta, entries_bounded, lemma_add_entries_unique,
    lemma_add_entry_first, lemma_add_entry_keys, lemma_sub_entries_single, lemma_sub_entry_found,
    native_delta, sub_entries, sub_entry, Balance, Cw20Coin, Entry, GenericBalance,
    GenericBalanceV,
};
use crate::codec::{append_record, spec_append};
use crate::error::ContractError;
use crate::msg::{ConstantMsg, CreateMsg, DetailsAllResponse, DetailsResponse, ExecuteMsg, IsAdminResponse, ListResponse, QueryAnswer, QueryMsg, TopUpMsg};
use crate::state::{
    lemma_store_get_wf, lemma_store_save_get, lemma_store_save_ids, lemma_store_save_wf, store_get, store_ids,
    store_wf, str_eq, whitelist_contains, AccountInfoV, Config, ConfigV, Escrow, EscrowStore,
    EscrowV,
};

verus! {

// ---------------------------------------------------------------------------
// The whole contract state and the state machine entry points. Every
// operation validates its guards against the current state and issues a
// single write-back; a failed call leaves the state exactly as it was.
// ---------------------------------------------------------------------------

/// Everything the contract persists: the escrow registry and the
/// configuration.
pub struct ContractState {
    pub escrows: EscrowStore,
    pub constants: Config,
}

impl ContractState {
    /// The registry has unique ids and well-formed records, and the
    /// configured rates are percentages.
    pub open spec fn wf(&self) -> bool {
        store_wf(self.escrows@) && self.constants@.wf()
    }
}

/// One transfer the caller must carry out after a successful operation.
#[derive(Debug, PartialEq, Eq)]
pub struct Payment {
    pub to: String,
    pub balance: GenericBalance,
}

/// The fresh configuration: no manager, and ten for the minimum stake and
/// both rates.
pub fn instantiate() -> (r: ContractState)
    ensures
        r.escrows@ == Seq::<(Seq<char>, EscrowV)>::empty(),
        r.constants@ == (ConfigV {
            manager_addr: Seq::<char>::empty(),
            min_stake: 10u64,
            rate_client: 10u64,
            rate_manager: 10u64,
        }),
        r.wf(),
{
    let constants = Config {
        manager_addr: String::new(),
        min_stake: 10,
        rate_client: 10,
        rate_manager: 10,
    };
    let r = ContractState { escrows: EscrowStore::new(), constants };
    proof {
        assert(r.constants@.manager_addr =~= Seq::<char>::empty());
    }
    r
}

/// Overwrite the configuration. Anyone may set the first manager; after
/// that only the current manager may write, and rates beyond 100 are
/// rejected.
pub fn execute_setconstant(state: &mut ContractState, sender: &str, msg: ConstantMsg) -> (r:
    Result<(), ContractError>)
    requires
        old(state).wf(),
    ensures
        (r == Err::<(), ContractError>(ContractError::Unauthorized)) == (old(
            state,
        ).constants@.manager_set() && sender@ != old(state).constants@.manager_addr),
        (r == Err::<(), ContractError>(ContractError::InvalidRate)) == (!(old(
            state,
        ).constants@.manager_set() && sender@ != old(state).constants@.manager_addr) && (
        msg.rate_client > 100 || msg.rate_manager > 100)),
        r is Ok == (!(old(state).constants@.manager_set() && sender@ != old(
            state,
        ).constants@.manager_addr) && msg.rate_client <= 100 && msg.rate_manager <= 100),
        r is Ok ==> final(state).constants@ == (ConfigV {
            manager_addr: msg.manager_addr@,
            min_stake: msg.min_stake,
            rate_client: msg.rate_client,
            rate_manager: msg.rate_manager,
        }),
        r is Err ==> final(state).constants@ == old(state).constants@,
        final(state).escrows@ == old(state).escrows@,
        final(state).wf(),
{
    if !state.constants.manager_addr.as_str().is_empty() && !str_eq(
        state.constants.manager_addr.as_str(),
        sender,
    ) {
        proof {
            assert(state.constants@.manager_addr.len() > 0);
        }
        return Err(ContractError::Unauthorized);
    }
    if msg.rate_client > 100 || msg.rate_manager > 100 {
        return Err(ContractError::InvalidRate);
    }
    state.constants = Config {
        manager_addr: msg.manager_addr,
        min_stake: msg.min_stake,
        rate_client: msg.rate_client,
        rate_manager: msg.rate_manager,
    };
    Ok(())
}

/// The record a create command stores: metadata from the message, the
/// sender as client, the sent funds as opening balance, the funding state,
/// and — for a token deposit — the deposited token whitelisted.
pub open spec fn spec_create_escrow(msg: CreateMsg, balance: Balance, sender: Seq<char>) -> EscrowV {
    EscrowV {
        client: sender,
        account_info: Seq::empty(),
        work_title: msg.work_title@,
        work_desc: msg.work_desc@,
        work_url: msg.work_url@,
        start_time: msg.start_time,
        account_min_stake_amount: msg.account_min_stake_amount,
        stake_amount: msg.stake_amount,
        balance: GenericBalanceV {
            native: add_entries(Seq::empty(), native_delta(balance)),
            cw20: add_entries(Seq::empty(), cw20_delta(balance)),
        },
        cw20_whitelist: match balance {
            Balance::Native(_) => msg.spec_whitelist(),
            Balance::Cw20(token) => if crate::state::spec_contains_str(
                msg.spec_whitelist(),
                token.address@,
            ) {
                msg.spec_whitelist()
            } else {
                msg.spec_whitelist().push(token.address@)
            },
        },
        state: 0,
        image_url: msg.image_url@,
    }
}

/// Register a new escrow under a fresh id, funded by the sent balance.
pub fn execute_create(state: &mut ContractState, msg: CreateMsg, balance: Balance, sender: &str)
    -> (r: Result<(), ContractError>)
    requires
        old(state).wf(),
        entries_bounded(add_entries(Seq::empty(), native_delta(balance))),
    ensures
        (r == Err::<(), ContractError>(ContractError::EmptyBalance)) == balance.spec_is_empty(),
        (r == Err::<(), ContractError>(ContractError::AlreadyInUse)) == (!balance.spec_is_empty()
            && store_get(old(state).escrows@, msg.id@) is Some),
        r is Ok == (!balance.spec_is_empty() && store_get(old(state).escrows@, msg.id@) is None),
        r is Err ==> final(state).escrows@ == old(state).escrows@,
        r is Ok ==> store_get(final(state).escrows@, msg.id@) == Some(
            spec_create_escrow(msg, balance, sender@),
        ),
        r is Ok ==> forall|k: Seq<char>|
            k != msg.id@ ==> store_get(final(state).escrows@, k) == store_get(
                old(state).escrows@,
                k,
            ),
        r is Ok ==> store_ids(final(state).escrows@) == store_ids(old(state).escrows@).push(
            msg.id@,
        ),
        final(state).constants@ == old(state).constants@,
        final(state).wf(),
{
    let ghost bal = balance;
    let ghost msgv = msg;
    if balance.is_empty() {
        return Err(ContractError::EmptyBalance);
    }
    match state.escrows.get(msg.id.as_str()) {
        Some(_) => {
            return Err(ContractError::AlreadyInUse);
        },
        None => {},
    }
    let ghost old_store = state.escrows@;
    let mut cw20_whitelist = msg.addr_whitelist();
    if let Balance::Cw20(token) = &balance {
        if !whitelist_contains(&cw20_whitelist, token.address.as_str()) {
            cw20_whitelist.push(token.address.clone());
            proof {
                assert(cw20_whitelist@.map_values(|s: String| s@) =~= msg.spec_whitelist().push(
                    token.address@,
                ));
            }
        }
    }
    let mut escrow_balance = GenericBalance::new();
    proof {
        match bal {
            Balance::Native(_) => {
                assert(cw20_delta(bal) =~= Seq::<Entry>::empty());
                assert(entries_bounded(add_entries(Seq::<Entry>::empty(), cw20_delta(bal))));
            },
            Balance::Cw20(token) => {
                assert(cw20_delta(bal) == seq![token@]);
                assert(add_entries(Seq::<Entry>::empty(), cw20_delta(bal)) == add_entries(
                    add_entry(Seq::empty(), token@),
                    seq![token@].skip(1),
                ));
                assert(seq![token@].skip(1) =~= Seq::<Entry>::empty());
                assert(add_entry(Seq::<Entry>::empty(), token@) == seq![token@]);
                assert(entries_bounded(seq![token@])) by {
                    assert(seq![token@][0].amount <= u128::MAX);
                }
            },
        }
    }
    escrow_balance.add_tokens(balance);
    let escrow = Escrow {
        client: sender.to_owned(),
        account_info: String::new(),
        work_title: msg.work_title,
        work_desc: msg.work_desc,
        work_url: msg.work_url,
        start_time: msg.start_time,
        account_min_stake_amount: msg.account_min_stake_amount,
        stake_amount: msg.stake_amount,
        balance: escrow_balance,
        cw20_whitelist,
        state: 0,
        image_url: msg.image_url,
    };
    let ghost ev = escrow@;
    proof {
        assert(ev == spec_create_escrow(msgv, bal, sender@));
        assert(ev.wf()) by {
            lemma_add_entries_unique(Seq::empty(), native_delta(bal));
            lemma_add_entries_unique(Seq::empty(), cw20_delta(bal));
            match bal {
                Balance::Native(_) => {
                    assert(cw20_delta(bal) =~= Seq::<Entry>::empty());
                    assert(ev.balance.cw20 =~= Seq::<Entry>::empty());
                },
                Balance::Cw20(token) => {
                    assert(cw20_delta(bal) == seq![token@]);
                    assert(ev.balance.cw20 == add_entries(
                        add_entry(Seq::empty(), token@),
                        seq![token@].skip(1),
                    ));
                    assert(seq![token@].skip(1) =~= Seq::<Entry>::empty());
                    assert(add_entry(Seq::<Entry>::empty(), token@) == seq![token@]);
                    assert(ev.balance.cw20 =~= seq![token@]);
                    assert(ev.in_whitelist(token.address@)) by {
                        if crate::state::spec_contains_str(msgv.spec_whitelist(), token.address@) {
                        } else {
                            let wl = ev.cw20_whitelist;
                            assert(wl.last() == token.address@);
                            assert(wl[wl.len() - 1] == token.address@);
                        }
                    }
                },
            }
        }
        lemma_store_save_get(old_store, msg.id@, ev, msg.id@);
        lemma_store_save_ids(old_store, msg.id@, ev);
        lemma_store_save_wf(old_store, msg.id@, ev);
    }
    state.escrows.save(msg.id.as_str(), escrow);
    proof {
        assert forall|k: Seq<char>| k != msg.id@ implies store_get(state.escrows@, k) == store_get(
            old_store,
            k,
        ) by {
            lemma_store_save_get(old_store, msg.id@, ev, k);
        }
    }
    Ok(())
}

/// The token amount a funds value deposits: the one token amount, or zero
/// for native funds.
pub open spec fn spec_cwval(balance: Balance) -> u128 {
    match balance {
        Balance::Native(_) => 0u128,
        Balance::Cw20(token) => token.amount,
    }
}

/// The record a top-up leaves behind: the new stake record appended to the
/// ledger, the funds merged into the balance, and — for an escrow still in
/// the funding state — state 1 as soon as the tracked-token balance covers
/// the required stake. A started escrow keeps its state.
pub open spec fn spec_top_up_escrow(
    e: EscrowV,
    balance: Balance,
    sender: Seq<char>,
    start_time: u64,
    end_time: u64,
) -> EscrowV {
    let new_balance = GenericBalanceV {
        native: add_entries(e.balance.native, native_delta(balance)),
        cw20: add_entries(e.balance.cw20, cw20_delta(balance)),
    };
    EscrowV {
        account_info: spec_append(
            e.account_info,
            AccountInfoV { addr: sender, amount: spec_cwval(balance), start_time, end_time },
        ),
        balance: new_balance,
        state: if e.state == 0 && new_balance.cw20.len() > 0 && new_balance.cw20[0].amount
            >= e.stake_amount {
            1
        } else {
            e.state
        },
        ..e
    }
}

/// Add funds and a stake record to an existing escrow.
pub fn execute_top_up(
    state: &mut ContractState,
    block_time: u64,
    msg: TopUpMsg,
    balance: Balance,
    sender: &str,
) -> (r: Result<(), ContractError>)
    requires
        old(state).wf(),
        store_get(old(state).escrows@, msg.id@) matches Some(e) ==> entries_bounded(
            add_entries(e.balance.native, native_delta(balance)),
        ) && entries_bounded(add_entries(e.balance.cw20, cw20_delta(balance))),
    ensures
        (r == Err::<(), ContractError>(ContractError::EmptyBalance)) == balance.spec_is_empty(),
        (r == Err::<(), ContractError>(ContractError::NotFound)) == (!balance.spec_is_empty()
            && store_get(old(state).escrows@, msg.id@) is None),
        (r == Err::<(), ContractError>(ContractError::StakeFinished)) == (!balance.spec_is_empty()
            && (store_get(old(state).escrows@, msg.id@) matches Some(e) && e.spec_is_expired(
            block_time,
        ) && e.state > 0)),
        (r == Err::<(), ContractError>(ContractError::NotInWhitelist)) == (
        !balance.spec_is_empty() && (store_get(old(state).escrows@, msg.id@) matches Some(e) && !(
        e.spec_is_expired(block_time) && e.state > 0) && (balance matches Balance::Cw20(token)
            && !e.in_whitelist(token.address@)))),
        r is Ok == (!balance.spec_is_empty() && (store_get(old(state).escrows@, msg.id@) matches Some(
            e,
        ) && !(e.spec_is_expired(block_time) && e.state > 0) && (balance matches Balance::Cw20(
            token,
        ) ==> e.in_whitelist(token.address@)))),
        r is Err ==> final(state).escrows@ == old(state).escrows@,
        r is Ok ==> store_get(final(state).escrows@, msg.id@) == Some(
            spec_top_up_escrow(
                store_get(old(state).escrows@, msg.id@)->Some_0,
                balance,
                sender@,
                msg.start_time,
                msg.end_time,
            ),
        ),
        r is Ok ==> forall|k: Seq<char>|
            k != msg.id@ ==> store_get(final(state).escrows@, k) == store_get(
                old(state).escrows@,
                k,
            ),
        r is Ok ==> store_ids(final(state).escrows@) == store_ids(old(state).escrows@),
        final(state).constants@ == old(state).constants@,
        final(state).wf(),
{
    let ghost bal = balance;
    if balance.is_empty() {
        return Err(ContractError::EmptyBalance);
    }
    let ghost old_store = state.escrows@;
    let escrow = match state.escrows.get(msg.id.as_str()) {
        Some(e) => e,
        None => {
            return Err(ContractError::NotFound);
        },
    };
    let ghost ev = escrow@;
    proof {
        lemma_store_get_wf(old_store, msg.id@);
        assert(ev.wf());
    }
    if escrow.is_expired(block_time) && escrow.state > 0 {
        return Err(ContractError::StakeFinished);
    }
    let cwval: u128 = match &balance {
        Balance::Cw20(token) => {
            if !whitelist_contains(&escrow.cw20_whitelist, token.address.as_str()) {
                return Err(ContractError::NotInWhitelist);
            }
            token.amount
        },
        Balance::Native(_) => 0,
    };
    proof {
        assert(cwval == spec_cwval(balance));
    }
    let new_ledger = append_record(
        escrow.account_info.as_str(),
        sender,
        cwval,
        msg.start_time,
        msg.end_time,
    );
    let mut new_escrow = escrow.clone();
    new_escrow.account_info = new_ledger;
    new_escrow.balance.add_tokens(balance);
    if new_escrow.state == 0 && new_escrow.balance.cw20.len() > 0 {
        let first_amount = new_escrow.balance.cw20[0].amount;
        if first_amount >= new_escrow.stake_amount as u128 {
            new_escrow.state = 1;
        }
    }
    let ghost nv = new_escrow@;
    proof {
        assert(nv == spec_top_up_escrow(ev, bal, sender@, msg.start_time, msg.end_time));
        assert(nv.wf()) by {
            lemma_add_entries_unique(ev.balance.native, native_delta(bal));
            lemma_add_entries_unique(ev.balance.cw20, cw20_delta(bal));
            match bal {
                Balance::Native(_) => {
                    assert(cw20_delta(bal) =~= Seq::<Entry>::empty());
                    assert(add_entries(ev.balance.cw20, cw20_delta(bal)) == ev.balance.cw20);
                    assert(nv.balance.cw20 == ev.balance.cw20);
                },
                Balance::Cw20(token) => {
                    assert(cw20_delta(bal) == seq![token@]);
                    assert(nv.balance.cw20 == add_entries(
                        add_entry(ev.balance.cw20, token@),
                        seq![token@].skip(1),
                    ));
                    assert(seq![token@].skip(1) =~= Seq::<Entry>::empty());
                    assert(nv.balance.cw20 == add_entry(ev.balance.cw20, token@));
                    lemma_add_entry_keys(ev.balance.cw20, token@);
                    if ev.balance.cw20.len() > 0 {
                        lemma_add_entry_first(ev.balance.cw20, token@);
                    }
                    assert forall|i: int| 0 <= i < nv.balance.cw20.len() implies nv.in_whitelist(
                        (#[trigger] nv.balance.cw20[i]).key,
                    ) by {
                        assert(nv.balance.cw20[i].key == token@.key || crate::balance::has_key(
                            ev.balance.cw20,
                            nv.balance.cw20[i].key,
                        ));
                        if crate::balance::has_key(ev.balance.cw20, nv.balance.cw20[i].key) {
                            let w = choose|w: int|
                                0 <= w < ev.balance.cw20.len() && ev.balance.cw20[w].key
                                    == nv.balance.cw20[i].key;
                            assert(ev.in_whitelist(ev.balance.cw20[w].key));
                        }
                    }
                },
            }
            if nv.state == ev.state && ev.state >= 1 {
                match bal {
                    Balance::Native(_) => {
                        assert(nv.balance.cw20 == ev.balance.cw20);
                    },
                    Balance::Cw20(token) => {
                        lemma_add_entry_first(ev.balance.cw20, token@);
                    },
                }
            }
        }
        lemma_store_save_get(old_store, msg.id@, nv, msg.id@);
        lemma_store_save_ids(old_store, msg.id@, nv);
        lemma_store_save_wf(old_store, msg.id@, nv);
    }
    state.escrows.save(msg.id.as_str(), new_escrow);
    proof {
        assert forall|k: Seq<char>| k != msg.id@ implies store_get(state.escrows@, k) == store_get(
            old_store,
            k,
        ) by {
            lemma_store_save_get(old_store, msg.id@, nv, k);
        }
    }
    Ok(())
}

/// What an approval pays out: the rate-derived client share at state 1, the
/// whole remaining tracked-token balance at state 2.
pub open spec fn spec_approve_payout(e: EscrowV, config: ConfigV) -> int {
    if e.state == 1 {
        crate::payout::spec_client_payout(e.stake_amount, config.rate_manager)
    } else {
        e.tracked_balance()
    }
}

/// The record an approval leaves behind: the payout gone from the tracked
/// token, the state advanced by one.
pub open spec fn spec_approve_escrow(e: EscrowV, payout: int) -> EscrowV {
    EscrowV {
        balance: GenericBalanceV {
            native: e.balance.native,
            cw20: e.balance.cw20.update(
                0,
                Entry { key: e.tracked_token(), amount: e.tracked_balance() - payout },
            ),
        },
        state: (e.state + 1) as u8,
        ..e
    }
}

/// The two-step release: the client approves at state 1 and receives the
/// rate-derived share of the stake; the manager approves at state 2 and
/// receives everything the tracked token still holds.
pub fn execute_approve(state: &mut ContractState, block_time: u64, sender: &str, id: &str) -> (r:
    Result<Vec<Payment>, ContractError>)
    requires
        old(state).wf(),
    ensures
        (r == Err::<Vec<Payment>, ContractError>(ContractError::NotFound)) == (store_get(
            old(state).escrows@,
            id@,
        ) is None),
        (r == Err::<Vec<Payment>, ContractError>(ContractError::NotStarted)) == (store_get(
            old(state).escrows@,
            id@,
        ) matches Some(e) && (e.state == 0 || !e.spec_is_expired(block_time))),
        (r == Err::<Vec<Payment>, ContractError>(ContractError::NotClient)) == (store_get(
            old(state).escrows@,
            id@,
        ) matches Some(e) && !(e.state == 0 || !e.spec_is_expired(block_time)) && e.state == 1
            && sender@ != e.client),
        (r == Err::<Vec<Payment>, ContractError>(ContractError::NotManager)) == (store_get(
            old(state).escrows@,
            id@,
        ) matches Some(e) && !(e.state == 0 || !e.spec_is_expired(block_time)) && !(e.state == 1
            && sender@ != e.client) && e.state == 2 && sender@ != old(
            state,
        ).constants@.manager_addr),
        (r == Err::<Vec<Payment>, ContractError>(ContractError::NotLeft)) == (store_get(
            old(state).escrows@,
            id@,
        ) matches Some(e) && e.spec_is_expired(block_time) && e.state == 3),
        r is Ok == (store_get(old(state).escrows@, id@) matches Some(e) && e.spec_is_expired(
            block_time,
        ) && ((e.state == 1 && sender@ == e.client) || (e.state == 2 && sender@ == old(
            state,
        ).constants@.manager_addr))),
        r matches Ok(payments) ==> ({
            let e = store_get(old(state).escrows@, id@)->Some_0;
            let payout = spec_approve_payout(e, old(state).constants@);
            &&& payments@.len() == 1
            &&& payments@[0].to@ == sender@
            &&& payments@[0].balance@.native == Seq::<Entry>::empty()
            &&& payments@[0].balance@.cw20 == seq![
                Entry { key: e.tracked_token(), amount: payout },
            ]
            &&& store_get(final(state).escrows@, id@) == Some(spec_approve_escrow(e, payout))
            &&& forall|k: Seq<char>|
                k != id@ ==> store_get(final(state).escrows@, k) == store_get(
                    old(state).escrows@,
                    k,
                )
            &&& store_ids(final(state).escrows@) == store_ids(old(state).escrows@)
        }),
        r is Err ==> final(state).escrows@ == old(state).escrows@,
        final(state).constants@ == old(state).constants@,
        final(state).wf(),
{
    let ghost old_store = state.escrows@;
    let escrow = match state.escrows.get(id) {
        Some(e) => e,
        None => {
            return Err(ContractError::NotFound);
        },
    };
    let ghost ev = escrow@;
    proof {
        lemma_store_get_wf(old_store, id@);
        assert(ev.wf());
    }
    let expired = escrow.is_expired(block_time);
    if escrow.state == 0 || !expired {
        return Err(ContractError::NotStarted);
    }
    if escrow.state == 1 && !str_eq(sender, escrow.client.as_str()) {
        return Err(ContractError::NotClient);
    }
    if escrow.state == 2 && !str_eq(sender, state.constants.manager_addr.as_str()) {
        return Err(ContractError::NotManager);
    }
    if escrow.state == 3 {
        return Err(ContractError::NotLeft);
    }
    proof {
        assert(ev.state == 1 || ev.state == 2);
        assert(ev.has_tracked());
    }
    let token_addr = escrow.balance.cw20[0].address.clone();
    let amount: u128 = if escrow.state == 1 {
        crate::payout::client_payout_amount(escrow.stake_amount, state.constants.rate_manager)
    } else {
        escrow.balance.cw20[0].amount
    };
    proof {
        assert(amount == spec_approve_payout(ev, state.constants@));
        assert(amount <= ev.tracked_balance());
    }
    let mut new_escrow = escrow.clone();
    let ghost delta = Entry { key: token_addr@, amount: amount as int };
    proof {
        assert(token_addr@ == ev.tracked_token());
        lemma_sub_entry_found(ev.balance.cw20, delta, 0);
        lemma_sub_entries_single(ev.balance.cw20, delta);
        assert(native_delta(
            Balance::Cw20(Cw20Coin { address: token_addr, amount }),
        ) =~= Seq::<Entry>::empty());
        assert(entries_bounded(
            sub_entries(ev.balance.cw20, seq![delta]),
        )) by {
            let t = ev.balance.cw20.update(
                0,
                Entry { key: ev.balance.cw20[0].key, amount: ev.balance.cw20[0].amount - delta.amount },
            );
            assert forall|i: int| 0 <= i < t.len() implies 0 <= #[trigger] t[i].amount
                <= u128::MAX by {
                if i != 0 {
                    assert(t[i] == ev.balance.cw20[i]);
                }
            }
        }
    }
    new_escrow.balance.sub_tokens(
        Balance::Cw20(Cw20Coin { address: token_addr.clone(), amount }),
    );
    new_escrow.state = new_escrow.state + 1;
    let ghost nv = new_escrow@;
    proof {
        assert(nv == spec_approve_escrow(ev, delta.amount));
        assert(nv.wf()) by {
            let t = nv.balance.cw20;
            let s = ev.balance.cw20;
            assert(t == s.update(0, Entry { key: s[0].key, amount: s[0].amount - delta.amount }));
            assert forall|i: int, j: int| 0 <= i < j < t.len() implies t[i].key != t[j].key by {
                assert(t[i].key == s[i].key);
                assert(t[j].key == s[j].key);
            }
            assert forall|i: int| 0 <= i < t.len() implies nv.in_whitelist(
                (#[trigger] t[i]).key,
            ) by {
                assert(t[i].key == s[i].key);
                assert(ev.in_whitelist(s[i].key));
            }
            assert forall|i: int| 0 <= i < t.len() implies 0 <= #[trigger] t[i].amount
                <= u128::MAX by {
                if i != 0 {
                    assert(t[i] == s[i]);
                }
            }
        }
        lemma_store_save_get(old_store, id@, nv, id@);
        lemma_store_save_ids(old_store, id@, nv);
        lemma_store_save_wf(old_store, id@, nv);
    }
    state.escrows.save(id, new_escrow);
    proof {
        assert forall|k: Seq<char>| k != id@ implies store_get(state.escrows@, k) == store_get(
            old_store,
            k,
        ) by {
            lemma_store_save_get(old_store, id@, nv, k);
        }
    }
    let payment_balance = GenericBalance {
        native: Vec::new(),
        cw20: vec![Cw20Coin { address: token_addr, amount }],
    };
    proof {
        assert(payment_balance@.native =~= Seq::<Entry>::empty());
        assert(payment_balance@.cw20 =~= seq![delta]);
    }
    let payments = vec![Payment { to: sender.to_owned(), balance: payment_balance }];
    proof {
        assert(payments@.len() == 1);
    }
    Ok(payments)
}

/// Delete a finished escrow: only the manager, and only at state 3. Nothing
/// is ever partially deleted.
pub fn execute_remove(state: &mut ContractState, sender: &str, id: &str) -> (r: Result<
    (),
    ContractError,
>)
    requires
        old(state).wf(),
    ensures
        (r == Err::<(), ContractError>(ContractError::NotFound)) == (store_get(
            old(state).escrows@,
            id@,
        ) is None),
        (r == Err::<(), ContractError>(ContractError::NotFinished)) == (store_get(
            old(state).escrows@,
            id@,
        ) matches Some(e) && e.state != 3),
        (r == Err::<(), ContractError>(ContractError::NotManager)) == (store_get(
            old(state).escrows@,
            id@,
        ) matches Some(e) && e.state == 3 && sender@ != old(state).constants@.manager_addr),
        r is Ok == (store_get(old(state).escrows@, id@) matches Some(e) && e.state == 3
            && sender@ == old(state).constants@.manager_addr),
        r is Err ==> final(state).escrows@ == old(state).escrows@,
        r is Ok ==> store_get(final(state).escrows@, id@) is None,
        r is Ok ==> forall|k: Seq<char>|
            k != id@ ==> store_get(final(state).escrows@, k) == store_get(
                old(state).escrows@,
                k,
            ),
        r is Ok ==> store_ids(final(state).escrows@) == store_ids(
            old(state).escrows@,
        ).remove_value(id@),
        final(state).constants@ == old(state).constants@,
        final(state).wf(),
{
    let ghost old_store = state.escrows@;
    let escrow = match state.escrows.get(id) {
        Some(e) => e,
        None => {
            return Err(ContractError::NotFound);
        },
    };
    if escrow.state != 3 {
        return Err(ContractError::NotFinished);
    }
    if !str_eq(sender, state.constants.manager_addr.as_str()) {
        return Err(ContractError::NotManager);
    }
    proof {
        crate::state::lemma_store_remove_get(old_store, id@, id@);
        crate::state::lemma_store_remove_ids(old_store, id@);
        crate::state::lemma_store_remove_wf(old_store, id@);
    }
    state.escrows.remove(id);
    proof {
        assert forall|k: Seq<char>| k != id@ implies store_get(state.escrows@, k) == store_get(
            old_store,
            k,
        ) by {
            crate::state::lemma_store_remove_get(old_store, id@, k);
        }
    }
    Ok(())
}


/// The caller's records in a ledger, in ledger order.
pub open spec fn spec_mine(ledger: Seq<char>, addr: Seq<char>) -> Seq<AccountInfoV> {
    crate::codec::spec_decode(ledger).filter(|rec: AccountInfoV| rec.addr == addr)
}

/// Everyone else's records in a ledger, in ledger order.
pub open spec fn spec_others(ledger: Seq<char>, addr: Seq<char>) -> Seq<AccountInfoV> {
    crate::codec::spec_decode(ledger).filter(|rec: AccountInfoV| rec.addr != addr)
}

/// Is the given moment strictly inside some record's eligibility window?
pub open spec fn spec_inside_window(rs: Seq<AccountInfoV>, t: u64) -> bool {
    exists|i: int|
        0 <= i < rs.len() && (#[trigger] rs[i]).start_time < t && t < rs[i].end_time
}

/// The total amount a record list stakes.
pub open spec fn sum_amounts(rs: Seq<AccountInfoV>) -> int
    decreases rs.len(),
{
    if rs.len() == 0 {
        0
    } else {
        sum_amounts(rs.drop_last()) + rs.last().amount
    }
}

/// A record list stakes at least what any prefix of it stakes.
pub proof fn lemma_sum_amounts_prefix(rs: Seq<AccountInfoV>, j: int)
    requires
        0 <= j <= rs.len(),
    ensures
        sum_amounts(rs.take(j)) <= sum_amounts(rs),
        sum_amounts(rs.take(j)) >= 0,
    decreases rs.len() - j,
{
    lemma_sum_amounts_nonneg(rs.take(j));
    if j == rs.len() {
        assert(rs.take(j) =~= rs);
    } else {
        assert(rs.take(j + 1).drop_last() =~= rs.take(j));
        assert(rs.take(j + 1).last() == rs[j]);
        assert(sum_amounts(rs.take(j + 1)) == sum_amounts(rs.take(j)) + rs[j].amount);
        lemma_sum_amounts_prefix(rs, j + 1);
    }
}

pub proof fn lemma_sum_amounts_nonneg(rs: Seq<AccountInfoV>)
    ensures
        sum_amounts(rs) >= 0,
    decreases rs.len(),
{
    if rs.len() > 0 {
        lemma_sum_amounts_nonneg(rs.drop_last());
    }
}

/// The record a refund leaves behind: the caller's records gone from the
/// re-encoded ledger, their total gone from the tracked token, and the
/// state recomputed from what is left.
pub open spec fn spec_refund_escrow(e: EscrowV, addr: Seq<char>) -> EscrowV {
    let total = sum_amounts(spec_mine(e.account_info, addr));
    EscrowV {
        account_info: crate::codec::spec_encode(spec_others(e.account_info, addr)),
        balance: GenericBalanceV {
            native: e.balance.native,
            cw20: e.balance.cw20.update(
                0,
                Entry { key: e.tracked_token(), amount: e.tracked_balance() - total },
            ),
        },
        state: if e.tracked_balance() - total >= e.stake_amount {
            1
        } else {
            0
        },
        ..e
    }
}

/// Return an expired staker's deposits. A refund runs only while the escrow
/// is still in the funding state and past its start time; it pays the
/// caller every record of theirs whose window is over, drops those records
/// from the ledger, and leaves every other staker's record in place.
#[verifier::rlimit(60)]
#[verifier::loop_isolation(false)]
pub fn execute_refund(state: &mut ContractState, block_time: u64, sender: &str, id: &str) -> (r:
    Result<Vec<Payment>, ContractError>)
    requires
        old(state).wf(),
    ensures
        (r == Err::<Vec<Payment>, ContractError>(ContractError::NotFound)) == (store_get(
            old(state).escrows@,
            id@,
        ) is None),
        (r == Err::<Vec<Payment>, ContractError>(ContractError::AlreadyStarted)) == (store_get(
            old(state).escrows@,
            id@,
        ) matches Some(e) && e.state > 0 && e.spec_is_expired(block_time)),
        (r == Err::<Vec<Payment>, ContractError>(ContractError::WorkNotExpired)) == (store_get(
            old(state).escrows@,
            id@,
        ) matches Some(e) && !(e.state > 0 && e.spec_is_expired(block_time))
            && !e.spec_is_expired(block_time)),
        (r == Err::<Vec<Payment>, ContractError>(ContractError::NobodyStaked)) == (store_get(
            old(state).escrows@,
            id@,
        ) matches Some(e) && e.state == 0 && e.spec_is_expired(block_time)
            && e.account_info.len() == 0),
        (r == Err::<Vec<Payment>, ContractError>(ContractError::DidntStaked)) == (store_get(
            old(state).escrows@,
            id@,
        ) matches Some(e) && e.state == 0 && e.spec_is_expired(block_time)
            && e.account_info.len() > 0 && spec_mine(e.account_info, sender@).len() == 0),
        (r == Err::<Vec<Payment>, ContractError>(ContractError::AccountNotExpired)) == (store_get(
            old(state).escrows@,
            id@,
        ) matches Some(e) && e.state == 0 && e.spec_is_expired(block_time)
            && e.account_info.len() > 0 && spec_inside_window(
            spec_mine(e.account_info, sender@),
            block_time,
        )),
        (r == Err::<Vec<Payment>, ContractError>(ContractError::EmptyBalance)) == (store_get(
            old(state).escrows@,
            id@,
        ) matches Some(e) && e.state == 0 && e.spec_is_expired(block_time)
            && e.account_info.len() > 0 && spec_mine(e.account_info, sender@).len() > 0
            && !spec_inside_window(spec_mine(e.account_info, sender@), block_time)
            && !e.has_tracked()),
        (r == Err::<Vec<Payment>, ContractError>(ContractError::InsufficientBalance)) == (
        store_get(old(state).escrows@, id@) matches Some(e) && e.state == 0 && e.spec_is_expired(
            block_time,
        ) && e.account_info.len() > 0 && spec_mine(e.account_info, sender@).len() > 0
            && !spec_inside_window(spec_mine(e.account_info, sender@), block_time)
            && e.has_tracked() && sum_amounts(spec_mine(e.account_info, sender@))
            > e.tracked_balance()),
        r is Ok == (store_get(old(state).escrows@, id@) matches Some(e) && e.state == 0
            && e.spec_is_expired(block_time) && e.account_info.len() > 0 && spec_mine(
            e.account_info,
            sender@,
        ).len() > 0 && !spec_inside_window(spec_mine(e.account_info, sender@), block_time)
            && e.has_tracked() && sum_amounts(spec_mine(e.account_info, sender@))
            <= e.tracked_balance()),
        r matches Ok(payments) ==> ({
            let e = store_get(old(state).escrows@, id@)->Some_0;
            let mine = spec_mine(e.account_info, sender@);
            &&& payments@.len() == mine.len()
            &&& forall|i: int|
                0 <= i < mine.len() ==> (#[trigger] payments@[i]).to@ == sender@
                    && payments@[i].balance@.native == Seq::<Entry>::empty()
                    && payments@[i].balance@.cw20 == seq![
                    Entry { key: e.tracked_token(), amount: mine[i].amount as int },
                ]
            &&& store_get(final(state).escrows@, id@) == Some(spec_refund_escrow(e, sender@))
            &&& forall|k: Seq<char>|
                k != id@ ==> store_get(final(state).escrows@, k) == store_get(
                    old(state).escrows@,
                    k,
                )
            &&& store_ids(final(state).escrows@) == store_ids(old(state).escrows@)
        }),
        r is Err ==> final(state).escrows@ == old(state).escrows@,
        final(state).constants@ == old(state).constants@,
        final(state).wf(),
{
    let ghost old_store = state.escrows@;
    let escrow = match state.escrows.get(id) {
        Some(e) => e,
        None => {
            return Err(ContractError::NotFound);
        },
    };
    let ghost ev = escrow@;
    proof {
        lemma_store_get_wf(old_store, id@);
        assert(ev.wf());
    }
    let expired = escrow.is_expired(block_time);
    if escrow.state > 0 && expired {
        return Err(ContractError::AlreadyStarted);
    }
    if !expired {
        return Err(ContractError::WorkNotExpired);
    }
    proof {
        assert(ev.state == 0);
    }
    if escrow.account_info.as_str().is_empty() {
        return Err(ContractError::NobodyStaked);
    }
    let records = crate::codec::decode_ledger(escrow.account_info.as_str());
    let ghost decoded = crate::codec::spec_decode(ev.account_info);
    let ghost mine_v = spec_mine(ev.account_info, sender@);
    let ghost others_v = spec_others(ev.account_info, sender@);
    let mut mine: Vec<crate::state::AccountInfo> = Vec::new();
    let mut others: Vec<crate::state::AccountInfo> = Vec::new();
    let mut k: usize = 0;
    let n = records.len();
    proof {
        reveal(Seq::<AccountInfoV>::filter);
        assert(decoded.take(0) =~= Seq::<AccountInfoV>::empty());
        assert(mine@.map_values(|a: crate::state::AccountInfo| a@) =~= decoded.take(0).filter(
            |rec: AccountInfoV| rec.addr == sender@,
        ));
        assert(others@.map_values(|a: crate::state::AccountInfo| a@) =~= decoded.take(0).filter(
            |rec: AccountInfoV| rec.addr != sender@,
        ));
    }
    while k < n
        invariant
            0 <= k <= n,
            n == records.len(),
            decoded == records@.map_values(|a: crate::state::AccountInfo| a@),
            mine_v == decoded.filter(|rec: AccountInfoV| rec.addr == sender@),
            others_v == decoded.filter(|rec: AccountInfoV| rec.addr != sender@),
            mine@.len() <= k,
            others@.len() <= k,
            mine@.map_values(|a: crate::state::AccountInfo| a@) == decoded.take(k as int).filter(
                |rec: AccountInfoV| rec.addr == sender@,
            ),
            others@.map_values(|a: crate::state::AccountInfo| a@) == decoded.take(
                k as int,
            ).filter(|rec: AccountInfoV| rec.addr != sender@),
            forall|i: int|
                0 <= i < mine@.len() ==> !((#[trigger] mine@[i])@.start_time < block_time
                    && block_time < mine@[i]@.end_time),
        decreases n - k,
    {
        let rec = &records[k];
        proof {
            reveal(Seq::<AccountInfoV>::filter);
            assert(rec@ == decoded[k as int]);
            assert(decoded.take(k as int + 1).drop_last() =~= decoded.take(k as int));
            assert(decoded.take(k as int + 1).last() == decoded[k as int]);
            assert(mine@.map_values(|a: crate::state::AccountInfo| a@).len() == mine@.len());
            assert(others@.map_values(|a: crate::state::AccountInfo| a@).len() == others@.len());
        }
        if str_eq(rec.addr.as_str(), sender) {
            if rec.start_time < block_time && block_time < rec.end_time {
                proof {
                    decoded.lemma_filter_contains(|rec: AccountInfoV| rec.addr == sender@, k as int);
                    let w = choose|w: int|
                        0 <= w < mine_v.len() && mine_v[w] == decoded[k as int];
                    assert(mine_v[w].start_time < block_time && block_time < mine_v[w].end_time);
                    assert(spec_inside_window(mine_v, block_time));
                }
                return Err(ContractError::AccountNotExpired);
            }
            mine.push(rec.clone());
            proof {
                reveal(Seq::<AccountInfoV>::filter);
                assert(mine@.map_values(|a: crate::state::AccountInfo| a@).len() == mine@.len());
                assert(mine@.map_values(|a: crate::state::AccountInfo| a@) =~= decoded.take(
                    k as int + 1,
                ).filter(|rec: AccountInfoV| rec.addr == sender@));
                assert(others@.map_values(|a: crate::state::AccountInfo| a@) =~= decoded.take(
                    k as int + 1,
                ).filter(|rec: AccountInfoV| rec.addr != sender@));
            }
        } else {
            others.push(rec.clone());
            proof {
                reveal(Seq::<AccountInfoV>::filter);
                assert(others@.map_values(|a: crate::state::AccountInfo| a@).len() == others@.len());
                assert(mine@.map_values(|a: crate::state::AccountInfo| a@) =~= decoded.take(
                    k as int + 1,
                ).filter(|rec: AccountInfoV| rec.addr == sender@));
                assert(others@.map_values(|a: crate::state::AccountInfo| a@) =~= decoded.take(
                    k as int + 1,
                ).filter(|rec: AccountInfoV| rec.addr != sender@));
            }
        }
        k += 1;
    }
    proof {
        assert(decoded.take(n as int) =~= decoded);
    }
    if mine.len() == 0 {
        proof {
            assert(mine@.map_values(|a: crate::state::AccountInfo| a@).len() == 0);
            assert(mine_v.len() == 0);
        }
        return Err(ContractError::DidntStaked);
    }
    proof {
        assert(mine@.map_values(|a: crate::state::AccountInfo| a@).len() == mine@.len());
        assert(mine_v.len() == mine@.len());
        assert(!spec_inside_window(mine_v, block_time)) by {
            assert forall|i: int| 0 <= i < mine_v.len() implies !((#[trigger] mine_v[i]).start_time
                < block_time && block_time < mine_v[i].end_time) by {
                assert(mine_v[i] == mine@[i]@);
            }
        }
    }
    if escrow.balance.cw20.len() == 0 {
        return Err(ContractError::EmptyBalance);
    }
    let tracked_bal = escrow.balance.cw20[0].amount;
    let token_addr = escrow.balance.cw20[0].address.clone();
    let mut acc: u128 = 0;
    let mut j: usize = 0;
    let m = mine.len();
    proof {
        assert(mine_v.take(0) =~= Seq::<AccountInfoV>::empty());
    }
    while j < m
        invariant
            0 <= j <= m,
            m == mine.len(),
            mine_v == mine@.map_values(|a: crate::state::AccountInfo| a@),
            mine_v.len() == m,
            tracked_bal == ev.tracked_balance(),
            acc == sum_amounts(mine_v.take(j as int)),
            acc <= tracked_bal,
        decreases m - j,
    {
        let a = mine[j].amount;
        proof {
            assert(mine@[j as int]@ == mine_v[j as int]);
            assert(mine_v.take(j as int + 1).drop_last() =~= mine_v.take(j as int));
            assert(mine_v.take(j as int + 1).last() == mine_v[j as int]);
            assert(sum_amounts(mine_v.take(j as int + 1)) == acc + a);
        }
        if a > tracked_bal - acc {
            proof {
                lemma_sum_amounts_prefix(mine_v, j as int + 1);
                assert(sum_amounts(mine_v) > tracked_bal);
            }
            return Err(ContractError::InsufficientBalance);
        }
        acc = acc + a;
        j += 1;
    }
    proof {
        assert(mine_v.take(m as int) =~= mine_v);
        assert(acc == sum_amounts(mine_v));
    }
    let new_ledger = crate::codec::encode_records(&others);
    let mut new_escrow = escrow.clone();
    new_escrow.account_info = new_ledger;
    let ghost delta = Entry { key: token_addr@, amount: acc as int };
    proof {
        assert(token_addr@ == ev.tracked_token());
        lemma_sub_entry_found(ev.balance.cw20, delta, 0);
        lemma_sub_entries_single(ev.balance.cw20, delta);
        assert(native_delta(
            Balance::Cw20(Cw20Coin { address: token_addr, amount: acc }),
        ) =~= Seq::<Entry>::empty());
        assert(entries_bounded(sub_entries(ev.balance.cw20, seq![delta]))) by {
            let t = ev.balance.cw20.update(
                0,
                Entry {
                    key: ev.balance.cw20[0].key,
                    amount: ev.balance.cw20[0].amount - delta.amount,
                },
            );
            assert forall|i: int| 0 <= i < t.len() implies 0 <= #[trigger] t[i].amount
                <= u128::MAX by {
                if i != 0 {
                    assert(t[i] == ev.balance.cw20[i]);
                }
            }
        }
    }
    let sub_coin = Cw20Coin { address: token_addr.clone(), amount: acc };
    let sub_bal = Balance::Cw20(sub_coin);
    let ghost sub_v = sub_bal;
    proof {
        assert(cw20_delta(sub_v) == seq![delta]);
        assert(native_delta(sub_v) =~= Seq::<Entry>::empty());
        assert(entries_bounded(sub_entries(ev.balance.native, native_delta(sub_v)))) by {
            assert(sub_entries(ev.balance.native, Seq::<Entry>::empty()) == ev.balance.native);
            assert forall|i: int| 0 <= i < ev.balance.native.len() implies 0
                <= #[trigger] ev.balance.native[i].amount <= u128::MAX by {}
        }
    }
    new_escrow.balance.sub_tokens(sub_bal);
    proof {
        assert(new_escrow.balance@.cw20 == sub_entry(ev.balance.cw20, delta));
        assert(new_escrow.balance@.native == ev.balance.native);
        assert(new_escrow.balance.cw20@.len() == new_escrow.balance@.cw20.len());
        assert(new_escrow.balance.cw20@[0]@ == new_escrow.balance@.cw20[0]);
        assert(new_escrow.balance.cw20@[0]@.amount == ev.tracked_balance() - acc);
        assert(new_escrow.stake_amount == ev.stake_amount);
    }
    if new_escrow.balance.cw20.len() > 0 && new_escrow.balance.cw20[0].amount
        >= new_escrow.stake_amount as u128 {
        new_escrow.state = 1;
    } else {
        new_escrow.state = 0;
    }
    let ghost nv = new_escrow@;
    proof {
        assert(others@.map_values(|a: crate::state::AccountInfo| a@) == others_v);
        assert(nv == spec_refund_escrow(ev, sender@));
        assert(nv.wf()) by {
            let t = nv.balance.cw20;
            let s = ev.balance.cw20;
            assert(t == s.update(0, Entry { key: s[0].key, amount: s[0].amount - delta.amount }));
            assert forall|i: int, j2: int| 0 <= i < j2 < t.len() implies t[i].key != t[j2].key by {
                assert(t[i].key == s[i].key);
                assert(t[j2].key == s[j2].key);
            }
            assert forall|i: int| 0 <= i < t.len() implies nv.in_whitelist(
                (#[trigger] t[i]).key,
            ) by {
                assert(t[i].key == s[i].key);
                assert(ev.in_whitelist(s[i].key));
            }
            assert forall|i: int| 0 <= i < t.len() implies 0 <= #[trigger] t[i].amount
                <= u128::MAX by {
                if i != 0 {
                    assert(t[i] == s[i]);
                }
            }
        }
        lemma_store_save_get(old_store, id@, nv, id@);
        lemma_store_save_ids(old_store, id@, nv);
        lemma_store_save_wf(old_store, id@, nv);
    }
    state.escrows.save(id, new_escrow);
    proof {
        assert forall|k2: Seq<char>| k2 != id@ implies store_get(state.escrows@, k2) == store_get(
            old_store,
            k2,
        ) by {
            lemma_store_save_get(old_store, id@, nv, k2);
        }
    }
    let mut payments: Vec<Payment> = Vec::new();
    let mut p: usize = 0;
    while p < mine.len()
        invariant
            0 <= p <= mine.len(),
            mine_v == mine@.map_values(|a: crate::state::AccountInfo| a@),
            mine_v.len() == mine@.len(),
            token_addr@ == ev.tracked_token(),
            payments@.len() == p,
            forall|i: int|
                0 <= i < p ==> (#[trigger] payments@[i]).to@ == sender@
                    && payments@[i].balance@.native == Seq::<Entry>::empty()
                    && payments@[i].balance@.cw20 == seq![
                    Entry { key: ev.tracked_token(), amount: mine_v[i].amount as int },
                ],
        decreases mine.len() - p,
    {
        let pay_balance = GenericBalance {
            native: Vec::new(),
            cw20: vec![Cw20Coin { address: token_addr.clone(), amount: mine[p].amount }],
        };
        proof {
            assert(mine@[p as int]@ == mine_v[p as int]);
            assert(pay_balance@.native =~= Seq::<Entry>::empty());
            assert(pay_balance@.cw20 =~= seq![
                Entry { key: ev.tracked_token(), amount: mine_v[p as int].amount as int },
            ]);
        }
        payments.push(Payment { to: sender.to_owned(), balance: pay_balance });
        p += 1;
    }
    Ok(payments)
}


/// The single state-machine entry point: one command, one guarded
/// transition, one atomic write-back. A failed command leaves the whole
/// state untouched.
pub fn execute(
    state: &mut ContractState,
    block_time: u64,
    sender: &str,
    funds: Balance,
    msg: ExecuteMsg,
) -> (r: Result<Vec<Payment>, ContractError>)
    requires
        old(state).wf(),
        msg matches ExecuteMsg::Create(m) ==> entries_bounded(
            add_entries(Seq::empty(), native_delta(funds)),
        ),
        msg matches ExecuteMsg::TopUp(m) ==> (store_get(old(state).escrows@, m.id@) matches Some(e)
            ==> entries_bounded(add_entries(e.balance.native, native_delta(funds)))
            && entries_bounded(add_entries(e.balance.cw20, cw20_delta(funds)))),
    ensures
        r is Err ==> final(state).escrows@ == old(state).escrows@ && final(state).constants@ == old(
            state,
        ).constants@,
        final(state).wf(),
        msg matches ExecuteMsg::Create(m) ==> (r is Ok == (!funds.spec_is_empty() && store_get(
            old(state).escrows@,
            m.id@,
        ) is None)) && (r matches Ok(p) ==> p@.len() == 0 && store_get(
            final(state).escrows@,
            m.id@,
        ) == Some(spec_create_escrow(m, funds, sender@))),
        msg matches ExecuteMsg::TopUp(m) ==> (r is Ok == (!funds.spec_is_empty() && (store_get(
            old(state).escrows@,
            m.id@,
        ) matches Some(e) && !(e.spec_is_expired(block_time) && e.state > 0) && (
        funds matches Balance::Cw20(token) ==> e.in_whitelist(token.address@))))) && (
        r matches Ok(p) ==> p@.len() == 0 && store_get(final(state).escrows@, m.id@) == Some(
            spec_top_up_escrow(
                store_get(old(state).escrows@, m.id@)->Some_0,
                funds,
                sender@,
                m.start_time,
                m.end_time,
            ),
        )),
        msg matches ExecuteMsg::Approve { id } ==> (r is Ok == (store_get(
            old(state).escrows@,
            id@,
        ) matches Some(e) && e.spec_is_expired(block_time) && ((e.state == 1 && sender@
            == e.client) || (e.state == 2 && sender@ == old(state).constants@.manager_addr))))
            && (r matches Ok(p) ==> ({
            let e = store_get(old(state).escrows@, id@)->Some_0;
            let payout = spec_approve_payout(e, old(state).constants@);
            &&& p@.len() == 1
            &&& p@[0].to@ == sender@
            &&& p@[0].balance@.native == Seq::<Entry>::empty()
            &&& p@[0].balance@.cw20 == seq![Entry { key: e.tracked_token(), amount: payout }]
            &&& store_get(final(state).escrows@, id@) == Some(spec_approve_escrow(e, payout))
        })),
        msg matches ExecuteMsg::Refund { id } ==> (r is Ok == (store_get(
            old(state).escrows@,
            id@,
        ) matches Some(e) && e.state == 0 && e.spec_is_expired(block_time)
            && e.account_info.len() > 0 && spec_mine(e.account_info, sender@).len() > 0
            && !spec_inside_window(spec_mine(e.account_info, sender@), block_time)
            && e.has_tracked() && sum_amounts(spec_mine(e.account_info, sender@))
            <= e.tracked_balance())) && (r matches Ok(p) ==> ({
            let e = store_get(old(state).escrows@, id@)->Some_0;
            let mine = spec_mine(e.account_info, sender@);
            &&& p@.len() == mine.len()
            &&& forall|i: int|
                0 <= i < mine.len() ==> (#[trigger] p@[i]).to@ == sender@
                    && p@[i].balance@.native == Seq::<Entry>::empty() && p@[i].balance@.cw20
                    == seq![Entry { key: e.tracked_token(), amount: mine[i].amount as int }]
            &&& store_get(final(state).escrows@, id@) == Some(spec_refund_escrow(e, sender@))
        })),
        msg matches ExecuteMsg::Remove { id } ==> (r is Ok == (store_get(
            old(state).escrows@,
            id@,
        ) matches Some(e) && e.state == 3 && sender@ == old(state).constants@.manager_addr)) && (
        r is Ok ==> store_get(final(state).escrows@, id@) is None),
        msg matches ExecuteMsg::SetConstant(m) ==> (r is Ok == (!(old(
            state,
        ).constants@.manager_set() && sender@ != old(state).constants@.manager_addr)
            && m.rate_client <= 100 && m.rate_manager <= 100)) && (r is Ok
            ==> final(state).constants@ == (ConfigV {
            manager_addr: m.manager_addr@,
            min_stake: m.min_stake,
            rate_client: m.rate_client,
            rate_manager: m.rate_manager,
        })),
{
    match msg {
        ExecuteMsg::Create(m) => {
            match execute_create(state, m, funds, sender) {
                Ok(()) => Ok(Vec::new()),
                Err(e) => Err(e),
            }
        },
        ExecuteMsg::TopUp(m) => {
            match execute_top_up(state, block_time, m, funds, sender) {
                Ok(()) => Ok(Vec::new()),
                Err(e) => Err(e),
            }
        },
        ExecuteMsg::Approve { id } => execute_approve(state, block_time, sender, id.as_str()),
        ExecuteMsg::Refund { id } => execute_refund(state, block_time, sender, id.as_str()),
        ExecuteMsg::Remove { id } => {
            match execute_remove(state, sender, id.as_str()) {
                Ok(()) => Ok(Vec::new()),
                Err(e) => Err(e),
            }
        },
        ExecuteMsg::SetConstant(m) => {
            match execute_setconstant(state, sender, m) {
                Ok(()) => Ok(Vec::new()),
                Err(e) => Err(e),
            }
        },
    }
}

/// Does one ledger piece have four fields with the given first field?
pub open spec fn piece_matches(p: Seq<char>, addr: Seq<char>) -> bool {
    crate::codec::spec_split(p, ':').len() == 4 && crate::codec::spec_split(p, ':')[0] == addr
}

/// The first matching piece of a piece list, with its amount field; empty
/// strings when none matches.
pub open spec fn staked_in_pieces(ps: Seq<Seq<char>>, addr: Seq<char>) -> (Seq<char>, Seq<char>)
    decreases ps.len(),
{
    if ps.len() == 0 {
        (Seq::<char>::empty(), Seq::<char>::empty())
    } else if piece_matches(ps[0], addr) {
        (ps[0], crate::codec::spec_split(ps[0], ':')[1])
    } else {
        staked_in_pieces(ps.skip(1), addr)
    }
}

/// The caller's raw ledger piece and its amount field: what the detail
/// query shows a non-admin viewer of their own stake.
pub open spec fn spec_account_staked(ledger: Seq<char>, addr: Seq<char>) -> (Seq<char>, Seq<char>) {
    staked_in_pieces(crate::codec::spec_split(ledger, ';'), addr)
}

proof fn lemma_staked_found(ps: Seq<Seq<char>>, addr: Seq<char>, i: int)
    requires
        0 <= i < ps.len(),
        piece_matches(ps[i], addr),
        forall|j: int| 0 <= j < i ==> !piece_matches(#[trigger] ps[j], addr),
    ensures
        staked_in_pieces(ps, addr) == (ps[i], crate::codec::spec_split(ps[i], ':')[1]),
    decreases i,
{
    if i == 0 {
    } else {
        assert(forall|j: int| 0 <= j < i - 1 ==> !piece_matches(#[trigger] ps.skip(1)[j], addr));
        lemma_staked_found(ps.skip(1), addr, i - 1);
    }
}

proof fn lemma_staked_missing(ps: Seq<Seq<char>>, addr: Seq<char>)
    requires
        forall|j: int| 0 <= j < ps.len() ==> !piece_matches(#[trigger] ps[j], addr),
    ensures
        staked_in_pieces(ps, addr) == (Seq::<char>::empty(), Seq::<char>::empty()),
    decreases ps.len(),
{
    if ps.len() > 0 {
        assert forall|j: int| 0 <= j < ps.skip(1).len() implies !piece_matches(
            #[trigger] ps.skip(1)[j],
            addr,
        ) by {
            assert(ps.skip(1)[j] == ps[j + 1]);
        }
        lemma_staked_missing(ps.skip(1), addr);
    }
}

/// The raw ledger piece of the first record with exactly four fields whose
/// staker equals `addr`, with its amount field; two empty strings when no
/// record matches.
#[allow(non_snake_case)]
#[verifier::loop_isolation(false)]
pub fn accountStaked(account_info: &str, addr: &str) -> (r: (String, String))
    ensures
        r.0@ == spec_account_staked(account_info@, addr@).0,
        r.1@ == spec_account_staked(account_info@, addr@).1,
{
    let pieces = crate::codec::split_str(account_info, ';');
    let ghost ps = pieces@.map_values(|p: String| p@);
    let mut i: usize = 0;
    let n = pieces.len();
    while i < n
        invariant
            0 <= i <= n,
            n == pieces.len(),
            forall|j: int| 0 <= j < i ==> !piece_matches(#[trigger] ps[j], addr@),
        decreases n - i,
    {
        let fields = crate::codec::split_str(pieces[i].as_str(), ':');
        proof {
            assert(ps[i as int] == pieces@[i as int]@);
        }
        if fields.len() == 4 && str_eq(fields[0].as_str(), addr) {
            proof {
                assert(fields@.map_values(|p: String| p@).len() == 4);
                assert(fields@.map_values(|p: String| p@)[0] == addr@);
                assert(piece_matches(ps[i as int], addr@));
                lemma_staked_found(ps, addr@, i as int);
                assert(fields@.map_values(|p: String| p@)[1] == crate::codec::spec_split(
                    ps[i as int],
                    ':',
                )[1]);
            }
            return (pieces[i].clone(), fields[1].clone());
        }
        proof {
            if crate::codec::spec_split(ps[i as int], ':').len() == 4 {
                assert(fields@.map_values(|p: String| p@).len() == 4);
                if crate::codec::spec_split(ps[i as int], ':')[0] == addr@ {
                    assert(fields@.map_values(|p: String| p@)[0] == addr@);
                    assert(fields@[0]@ == addr@);
                }
            }
            assert(!piece_matches(ps[i as int], addr@));
        }
        i += 1;
    }
    proof {
        lemma_staked_missing(ps, addr@);
    }
    (String::new(), String::new())
}


/// Clone a token holding list element by element, keeping the view.
fn clone_cw20s(v: &Vec<Cw20Coin>) -> (r: Vec<Cw20Coin>)
    ensures
        r@.map_values(|c: Cw20Coin| c@) == v@.map_values(|c: Cw20Coin| c@),
{
    let mut r: Vec<Cw20Coin> = Vec::new();
    let mut i: usize = 0;
    proof {
        assert(r@.map_values(|c: Cw20Coin| c@) =~= v@.map_values(|c: Cw20Coin| c@).take(0));
    }
    while i < v.len()
        invariant
            i <= v.len(),
            r@.len() == i,
            r@.map_values(|c: Cw20Coin| c@) == v@.map_values(|c: Cw20Coin| c@).take(i as int),
        decreases v.len() - i,
    {
        r.push(v[i].clone());
        proof {
            assert(r@.map_values(|c: Cw20Coin| c@) =~= v@.map_values(|c: Cw20Coin| c@).take(
                i as int + 1,
            ));
        }
        i += 1;
    }
    proof {
        assert(v@.map_values(|c: Cw20Coin| c@).take(v.len() as int) =~= v@.map_values(
            |c: Cw20Coin| c@,
        ));
    }
    r
}

/// All registered escrow ids, in order of registration. A host that
/// persists the records under sorted keys and rebuilds the store from them
/// lists the ids in key order instead.
pub fn query_list(state: &ContractState) -> (r: ListResponse)
    ensures
        r.escrows@.map_values(|s: String| s@) == store_ids(state.escrows@),
{
    ListResponse { escrows: crate::state::all_escrow_ids(&state.escrows) }
}

/// The configuration as a message.
pub fn query_constants(state: &ContractState) -> (r: ConstantMsg)
    ensures
        r.manager_addr@ == state.constants@.manager_addr,
        r.min_stake == state.constants@.min_stake,
        r.rate_client == state.constants@.rate_client,
        r.rate_manager == state.constants@.rate_manager,
{
    ConstantMsg {
        manager_addr: state.constants.manager_addr.clone(),
        min_stake: state.constants.min_stake,
        rate_client: state.constants.rate_client,
        rate_manager: state.constants.rate_manager,
    }
}

/// Whether `addr` administers the contract: yes while no manager is set,
/// and for the manager afterwards.
pub fn query_isadmin(state: &ContractState, addr: &str) -> (r: IsAdminResponse)
    ensures
        r.isadmin == (state.constants@.manager_addr.len() == 0 || state.constants@.manager_addr
            == addr@),
{
    let empty = state.constants.manager_addr.as_str().is_empty();
    let same = str_eq(state.constants.manager_addr.as_str(), addr);
    IsAdminResponse { isadmin: empty || same }
}

/// Is this viewer an admin: the manager, or anyone while none is set.
pub open spec fn spec_is_admin(config: ConfigV, viewer: Seq<char>) -> bool {
    config.manager_addr == viewer || config.manager_addr.len() == 0
}

/// What one detail row shows the viewer: the work URL only to the admin,
/// the client, or an in-window staker after the start; the token balance
/// only to the admin; the stake ledger in full to the admin and reduced to
/// the viewer's own record otherwise.
pub open spec fn spec_details_row(
    id: Seq<char>,
    e: EscrowV,
    config: ConfigV,
    viewer: Seq<char>,
    block_time: u64,
    row: DetailsResponse,
) -> bool {
    let isadmin = spec_is_admin(config, viewer);
    let expired = e.spec_is_expired(block_time);
    let mine = spec_account_staked(e.account_info, viewer);
    &&& row.id@ == id
    &&& row.client@ == e.client
    &&& row.work_title@ == e.work_title
    &&& row.work_desc@ == e.work_desc
    &&& row.work_url@ == if isadmin || (e.state > 0 && mine.1.len() > 0 && expired) || e.client
        == viewer {
        e.work_url
    } else {
        Seq::<char>::empty()
    }
    &&& row.start_time == e.start_time
    &&& row.account_min_stake_amount == e.account_min_stake_amount
    &&& row.stake_amount == e.stake_amount
    &&& row.cw20_balance@.map_values(|c: Cw20Coin| c@) == if isadmin {
        e.balance.cw20
    } else {
        Seq::<Entry>::empty()
    }
    &&& row.account_info@ == if isadmin {
        e.account_info
    } else {
        mine.0
    }
    &&& row.state == e.state
    &&& row.my_staked@ == mine.1
    &&& row.expired == expired
    &&& row.timestamp@ == crate::numeric::dec_digits(block_time as nat)
    &&& row.image_url@ == e.image_url
}

/// Every escrow's details, row by row in registration order, redacted for
/// the viewing identity.
#[verifier::loop_isolation(false)]
pub fn query_detailsall(state: &ContractState, block_time: u64, addr: &str) -> (r:
    DetailsAllResponse)
    ensures
        r.escrows@.len() == state.escrows@.len(),
        forall|i: int|
            0 <= i < r.escrows@.len() ==> spec_details_row(
                state.escrows@[i].0,
                state.escrows@[i].1,
                state.constants@,
                addr@,
                block_time,
                #[trigger] r.escrows@[i],
            ),
{
    let isadmin = {
        let empty = state.constants.manager_addr.as_str().is_empty();
        let same = str_eq(state.constants.manager_addr.as_str(), addr);
        empty || same
    };
    proof {
        assert(isadmin == spec_is_admin(state.constants@, addr@));
    }
    let mut rows: Vec<DetailsResponse> = Vec::new();
    let mut i: usize = 0;
    let n = state.escrows.escrow_count();
    let timestamp = crate::numeric::u64_to_dec(block_time);
    while i < n
        invariant
            0 <= i <= n,
            rows@.len() == i,
            forall|k: int|
                0 <= k < i ==> spec_details_row(
                    state.escrows@[k].0,
                    state.escrows@[k].1,
                    state.constants@,
                    addr@,
                    block_time,
                    #[trigger] rows@[k],
                ),
        decreases n - i,
    {
        let id = state.escrows.id_at(i);
        let escrow = state.escrows.escrow_at(i);
        let expired = escrow.is_expired(block_time);
        let staked = accountStaked(escrow.account_info.as_str(), addr);
        let my_staked_all = staked.0;
        let my_staked = staked.1;
        let account_info = if isadmin {
            escrow.account_info.clone()
        } else {
            my_staked_all
        };
        let work_url = if isadmin || (escrow.state > 0 && !my_staked.as_str().is_empty()
            && expired) || str_eq(escrow.client.as_str(), addr) {
            escrow.work_url.clone()
        } else {
            String::new()
        };
        let cw20_balance = if isadmin {
            clone_cw20s(&escrow.balance.cw20)
        } else {
            let empty_list: Vec<Cw20Coin> = Vec::new();
            proof {
                assert(empty_list@.map_values(|c: Cw20Coin| c@) =~= Seq::<Entry>::empty());
            }
            empty_list
        };
        let row = DetailsResponse {
            id,
            client: escrow.client.clone(),
            work_title: escrow.work_title.clone(),
            work_desc: escrow.work_desc.clone(),
            work_url,
            start_time: escrow.start_time,
            account_min_stake_amount: escrow.account_min_stake_amount,
            stake_amount: escrow.stake_amount,
            cw20_balance,
            account_info,
            state: escrow.state,
            my_staked,
            expired,
            timestamp: timestamp.clone(),
            image_url: escrow.image_url.clone(),
        };
        rows.push(row);
        i += 1;
    }
    DetailsAllResponse { escrows: rows }
}

/// The read-only entry point.
pub fn query(state: &ContractState, block_time: u64, msg: QueryMsg) -> (r: QueryAnswer)
    ensures
        msg matches QueryMsg::List {  } ==> (r matches QueryAnswer::List(l) && l.escrows@.map_values(
            |s: String| s@,
        ) == store_ids(state.escrows@)),
        msg matches QueryMsg::DetailsAll { addr } ==> (r matches QueryAnswer::DetailsAll(d)
            && d.escrows@.len() == state.escrows@.len() && forall|i: int|
            0 <= i < d.escrows@.len() ==> spec_details_row(
                state.escrows@[i].0,
                state.escrows@[i].1,
                state.constants@,
                addr@,
                block_time,
                #[trigger] d.escrows@[i],
            )),
        msg matches QueryMsg::Constants {  } ==> (r matches QueryAnswer::Constants(c)
            && c.manager_addr@ == state.constants@.manager_addr && c.min_stake
            == state.constants@.min_stake && c.rate_client == state.constants@.rate_client
            && c.rate_manager == state.constants@.rate_manager),
        msg matches QueryMsg::IsAdmin { addr } ==> (r matches QueryAnswer::IsAdmin(a) && a.isadmin
            == (state.constants@.manager_addr.len() == 0 || state.constants@.manager_addr
            == addr@)),
{
    match msg {
        QueryMsg::List {  } => QueryAnswer::List(query_list(state)),
        QueryMsg::DetailsAll { addr } => QueryAnswer::DetailsAll(
            query_detailsall(state, block_time, addr.as_str()),
        ),
        QueryMsg::Constants {  } => QueryAnswer::Constants(query_constants(state)),
        QueryMsg::IsAdmin { addr } => QueryAnswer::IsAdmin(query_isadmin(state, addr.as_str())),
    }
}


} // verus!
