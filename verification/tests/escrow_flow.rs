use cw20_escrow::balance::{Balance, Coin, Cw20Coin, GenericBalance};
use cw20_escrow::contract::{
    execute, execute_approve, execute_create, execute_refund, execute_remove,
    execute_setconstant, execute_top_up, instantiate, query, query_detailsall, query_isadmin,
    query_list, ContractState, Payment,
};
use cw20_escrow::error::ContractError;
use cw20_escrow::msg::{
    is_valid_name, ConstantMsg, CreateMsg, ExecuteMsg, QueryAnswer, QueryMsg, TopUpMsg,
};
use cw20_escrow::payout::client_payout_amount;

fn coin(amount: u128, denom: &str) -> Coin {
    Coin {
        denom: denom.to_string(),
        amount,
    }
}

fn cw20(amount: u128, address: &str) -> Balance {
    Balance::Cw20(Cw20Coin {
        address: address.to_string(),
        amount,
    })
}

fn create_msg(id: &str, start_time: Option<u64>, whitelist: &[&str]) -> CreateMsg {
    CreateMsg {
        id: id.to_string(),
        client: String::from("arbitrate"),
        cw20_whitelist: Some(whitelist.iter().map(|s| s.to_string()).collect()),
        work_title: String::from("title"),
        work_desc: String::from("desc"),
        work_url: String::from("url"),
        start_time,
        account_min_stake_amount: 10,
        stake_amount: 100,
        image_url: String::from("image"),
    }
}

fn top_up_msg(id: &str, start_time: u64, end_time: u64) -> TopUpMsg {
    TopUpMsg {
        id: id.to_string(),
        start_time,
        end_time,
    }
}

fn one_cw20_payment(to: &str, amount: u128, address: &str) -> Payment {
    Payment {
        to: to.to_string(),
        balance: GenericBalance {
            native: vec![],
            cw20: vec![Cw20Coin {
                address: address.to_string(),
                amount,
            }],
        },
    }
}

/// An escrow created through a wrapped token transfer sits in the funding
/// state, so an immediate approval is refused as not started, whoever
/// calls it.
#[test]
fn happy_path_cw20() {
    let mut state = instantiate();
    let create = create_msg("foobar", Some(123456), &["other-token"]);
    let res = execute(
        &mut state,
        1571797419,
        "source",
        cw20(100, "my-cw20-token"),
        ExecuteMsg::Create(create),
    );
    assert_eq!(res, Ok(vec![]));

    // The deposited token joins the whitelist alongside the declared one.
    let details = query_detailsall(&state, 1571797419, "");
    assert_eq!(details.escrows.len(), 1);
    assert_eq!(details.escrows[0].state, 0);
    assert_eq!(
        details.escrows[0].cw20_balance,
        vec![Cw20Coin {
            address: String::from("my-cw20-token"),
            amount: 100,
        }]
    );

    // Approval at the funding state always fails, for the client too.
    let err = execute(
        &mut state,
        1571797419,
        "arbitrate",
        Balance::Native(vec![]),
        ExecuteMsg::Approve {
            id: "foobar".to_string(),
        },
    );
    assert_eq!(err, Err(ContractError::NotStarted));
}

/// Native funds open the escrow and more native funds top it up; with no
/// token deposited there is no tracked token, so no payout and no
/// auto-advance.
#[test]
fn top_up_mixed_tokens() {
    let mut state = instantiate();
    let create = create_msg("foobar", None, &["bar_token", "foo_token"]);
    let res = execute(
        &mut state,
        0,
        "source",
        Balance::Native(vec![coin(100, "fee"), coin(200, "stake")]),
        ExecuteMsg::Create(create),
    );
    assert_eq!(res, Ok(vec![]));

    let res = execute(
        &mut state,
        0,
        "source",
        Balance::Native(vec![coin(100, "fee"), coin(200, "stake")]),
        ExecuteMsg::TopUp(top_up_msg("foobar", 123456, 123456)),
    );
    assert_eq!(res, Ok(vec![]));

    let details = query_detailsall(&state, 0, "");
    assert_eq!(details.escrows[0].state, 0);
    assert_eq!(details.escrows[0].account_info, ";source:0:123456:123456");
}

#[test]
fn create_rejects_empty_and_duplicate() {
    let mut state = instantiate();
    let err = execute_create(
        &mut state,
        create_msg("work", None, &[]),
        Balance::Native(vec![]),
        "alice",
    );
    assert_eq!(err, Err(ContractError::EmptyBalance));
    let err = execute_create(
        &mut state,
        create_msg("work", None, &[]),
        Balance::Native(vec![coin(0, "atom")]),
        "alice",
    );
    assert_eq!(err, Err(ContractError::EmptyBalance));
    assert_eq!(
        execute_create(
            &mut state,
            create_msg("work", None, &[]),
            Balance::Native(vec![coin(1, "atom")]),
            "alice"
        ),
        Ok(())
    );
    let err = execute_create(
        &mut state,
        create_msg("work", None, &[]),
        Balance::Native(vec![coin(1, "atom")]),
        "bob",
    );
    assert_eq!(err, Err(ContractError::AlreadyInUse));
}

#[test]
fn top_up_guards() {
    let mut state = instantiate();
    let err = execute_top_up(
        &mut state,
        0,
        top_up_msg("missing", 0, 9),
        cw20(5, "tok"),
        "staker",
    );
    assert_eq!(err, Err(ContractError::NotFound));

    // An escrow started at time 10; a deposit of an unlisted token is
    // refused, and after the start time a started escrow takes no more.
    execute_create(
        &mut state,
        create_msg("work", Some(10), &["tok"]),
        cw20(100, "tok"),
        "alice",
    )
    .unwrap();
    let err = execute_top_up(
        &mut state,
        5,
        top_up_msg("work", 0, 9),
        cw20(5, "other"),
        "staker",
    );
    assert_eq!(err, Err(ContractError::NotInWhitelist));
    assert_eq!(
        execute_top_up(
            &mut state,
            5,
            top_up_msg("work", 0, 9),
            cw20(100, "tok"),
            "staker"
        ),
        Ok(())
    );
    // Fully staked now: state 1; a top-up after the start time is refused.
    let err = execute_top_up(
        &mut state,
        11,
        top_up_msg("work", 0, 9),
        cw20(5, "tok"),
        "staker",
    );
    assert_eq!(err, Err(ContractError::StakeFinished));
}

/// A top-up advances to the staked state exactly when the tracked-token
/// balance first reaches the required stake.
#[test]
fn top_up_auto_advances_at_threshold() {
    let mut state = instantiate();
    execute_create(
        &mut state,
        create_msg("work", Some(1000), &["tok"]),
        cw20(40, "tok"),
        "alice",
    )
    .unwrap();
    assert_eq!(query_detailsall(&state, 0, "").escrows[0].state, 0);

    // 40 + 59 = 99 < 100: still funding.
    execute_top_up(&mut state, 0, top_up_msg("work", 0, 9), cw20(59, "tok"), "s1").unwrap();
    assert_eq!(query_detailsall(&state, 0, "").escrows[0].state, 0);

    // 99 + 1 = 100: fully staked.
    execute_top_up(&mut state, 0, top_up_msg("work", 0, 9), cw20(1, "tok"), "s2").unwrap();
    assert_eq!(query_detailsall(&state, 0, "").escrows[0].state, 1);
}

#[test]
fn approve_guard_table() {
    let mut state = instantiate();
    execute_setconstant(
        &mut state,
        "anyone",
        ConstantMsg {
            manager_addr: String::from("manager"),
            min_stake: 10,
            rate_client: 80,
            rate_manager: 20,
        },
    )
    .unwrap();
    assert_eq!(
        execute_approve(&mut state, 50, "alice", "missing"),
        Err(ContractError::NotFound)
    );

    execute_create(
        &mut state,
        create_msg("work", Some(10), &["tok"]),
        cw20(100, "tok"),
        "alice",
    )
    .unwrap();
    // State 0 always refuses, whoever calls.
    assert_eq!(
        execute_approve(&mut state, 50, "alice", "work"),
        Err(ContractError::NotStarted)
    );
    assert_eq!(
        execute_approve(&mut state, 50, "manager", "work"),
        Err(ContractError::NotStarted)
    );

    execute_top_up(&mut state, 5, top_up_msg("work", 0, 9), cw20(100, "tok"), "s1").unwrap();
    // State 1 before the start time still refuses.
    assert_eq!(
        execute_approve(&mut state, 10, "alice", "work"),
        Err(ContractError::NotStarted)
    );
    // State 1 is the client's turn alone.
    assert_eq!(
        execute_approve(&mut state, 50, "manager", "work"),
        Err(ContractError::NotClient)
    );
    // The client share is rate-derived from the required stake, not from
    // the balance: floor(100 * 80 / 100).
    let payments = execute_approve(&mut state, 50, "alice", "work").unwrap();
    assert_eq!(payments, vec![one_cw20_payment("alice", 80, "tok")]);

    // State 2 is the manager's turn alone, and the manager receives the
    // whole remaining tracked-token balance: over-deposits accrue to the
    // manager.
    assert_eq!(
        execute_approve(&mut state, 50, "alice", "work"),
        Err(ContractError::NotManager)
    );
    let payments = execute_approve(&mut state, 50, "manager", "work").unwrap();
    assert_eq!(payments, vec![one_cw20_payment("manager", 120, "tok")]);

    // State 3 has nothing left to approve.
    assert_eq!(
        execute_approve(&mut state, 50, "manager", "work"),
        Err(ContractError::NotLeft)
    );
}

#[test]
fn refund_guard_table() {
    let mut state = instantiate();
    assert_eq!(
        execute_refund(&mut state, 50, "s1", "missing"),
        Err(ContractError::NotFound)
    );

    execute_create(
        &mut state,
        create_msg("work", Some(10), &["tok"]),
        cw20(10, "tok"),
        "alice",
    )
    .unwrap();
    // Before the start time nothing can be refunded.
    assert_eq!(
        execute_refund(&mut state, 5, "s1", "work"),
        Err(ContractError::WorkNotExpired)
    );
    // Past the start time with an empty ledger there is nobody to refund.
    assert_eq!(
        execute_refund(&mut state, 50, "s1", "work"),
        Err(ContractError::NobodyStaked)
    );

    execute_top_up(&mut state, 5, top_up_msg("work", 20, 80), cw20(30, "tok"), "s1").unwrap();
    // A caller without a record gets nothing.
    assert_eq!(
        execute_refund(&mut state, 50, "s2", "work"),
        Err(ContractError::DidntStaked)
    );
    // A record still inside its window cannot be refunded.
    assert_eq!(
        execute_refund(&mut state, 50, "s1", "work"),
        Err(ContractError::AccountNotExpired)
    );
    // Outside the window the refund pays that record and removes exactly it.
    execute_top_up(&mut state, 5, top_up_msg("work", 20, 80), cw20(7, "tok"), "s3").unwrap();
    let payments = execute_refund(&mut state, 90, "s1", "work").unwrap();
    assert_eq!(payments, vec![one_cw20_payment("s1", 30, "tok")]);
    let details = query_detailsall(&state, 90, "");
    assert_eq!(details.escrows[0].account_info, ";s3:7:20:80");
    assert_eq!(details.escrows[0].cw20_balance[0].amount, 17);

    // A started escrow past its start time cannot be refunded.
    let mut started = instantiate();
    execute_create(
        &mut started,
        create_msg("work", Some(10), &["tok"]),
        cw20(100, "tok"),
        "alice",
    )
    .unwrap();
    execute_top_up(&mut started, 5, top_up_msg("work", 20, 80), cw20(100, "tok"), "s1").unwrap();
    assert_eq!(
        execute_refund(&mut started, 50, "s1", "work"),
        Err(ContractError::AlreadyStarted)
    );
}

/// A refund recomputes the state from what is left; a refundable escrow is
/// still funding, so it stays in the funding state, and a second refund by
/// the same staker finds no record any more.
#[test]
fn refund_recomputes_state() {
    let mut state = instantiate();
    execute_create(
        &mut state,
        create_msg("work", Some(10), &["tok"]),
        cw20(60, "tok"),
        "alice",
    )
    .unwrap();
    execute_top_up(&mut state, 5, top_up_msg("work", 20, 30), cw20(39, "tok"), "s1").unwrap();
    assert_eq!(query_detailsall(&state, 0, "").escrows[0].state, 0);
    execute_refund(&mut state, 50, "s1", "work").unwrap();
    let details = query_detailsall(&state, 50, "");
    assert_eq!(details.escrows[0].state, 0);
    assert_eq!(details.escrows[0].cw20_balance[0].amount, 60);
    assert_eq!(details.escrows[0].account_info, "");
    assert_eq!(
        execute_refund(&mut state, 50, "s1", "work"),
        Err(ContractError::NobodyStaked)
    );
}

#[test]
fn remove_guard_table() {
    let mut state = instantiate();
    execute_setconstant(
        &mut state,
        "anyone",
        ConstantMsg {
            manager_addr: String::from("manager"),
            min_stake: 10,
            rate_client: 80,
            rate_manager: 20,
        },
    )
    .unwrap();
    assert_eq!(
        execute_remove(&mut state, "manager", "missing"),
        Err(ContractError::NotFound)
    );

    execute_create(
        &mut state,
        create_msg("work", Some(10), &["tok"]),
        cw20(100, "tok"),
        "alice",
    )
    .unwrap();
    // Unfinished escrows cannot be removed, not even by the manager.
    assert_eq!(
        execute_remove(&mut state, "manager", "work"),
        Err(ContractError::NotFinished)
    );

    execute_top_up(&mut state, 5, top_up_msg("work", 0, 9), cw20(100, "tok"), "s1").unwrap();
    execute_approve(&mut state, 50, "alice", "work").unwrap();
    execute_approve(&mut state, 50, "manager", "work").unwrap();
    // Finished, but only the manager may remove.
    assert_eq!(
        execute_remove(&mut state, "alice", "work"),
        Err(ContractError::NotManager)
    );
    assert_eq!(query_list(&state).escrows, vec!["work".to_string()]);
    assert_eq!(execute_remove(&mut state, "manager", "work"), Ok(()));
    assert_eq!(query_list(&state).escrows, Vec::<String>::new());
}

#[test]
fn setconstant_guards() {
    let mut state = instantiate();
    // Anyone may set the first manager.
    assert_eq!(
        execute_setconstant(
            &mut state,
            "anyone",
            ConstantMsg {
                manager_addr: String::from("manager"),
                min_stake: 5,
                rate_client: 70,
                rate_manager: 30,
            }
        ),
        Ok(())
    );
    // Afterwards only the manager may write.
    assert_eq!(
        execute_setconstant(
            &mut state,
            "anyone",
            ConstantMsg {
                manager_addr: String::from("intruder"),
                min_stake: 5,
                rate_client: 70,
                rate_manager: 30,
            }
        ),
        Err(ContractError::Unauthorized)
    );
    // Rates beyond 100 are rejected at configuration time.
    assert_eq!(
        execute_setconstant(
            &mut state,
            "manager",
            ConstantMsg {
                manager_addr: String::from("manager"),
                min_stake: 5,
                rate_client: 70,
                rate_manager: 101,
            }
        ),
        Err(ContractError::InvalidRate)
    );
    assert!(query_isadmin(&state, "manager").isadmin);
    assert!(!query_isadmin(&state, "anyone").isadmin);
}

#[test]
fn fresh_contract_treats_everyone_as_admin() {
    let state = instantiate();
    assert!(query_isadmin(&state, "anyone").isadmin);
    match query(
        &state,
        0,
        QueryMsg::Constants {},
    ) {
        QueryAnswer::Constants(c) => {
            assert_eq!(c.manager_addr, "");
            assert_eq!(c.min_stake, 10);
            assert_eq!(c.rate_client, 10);
            assert_eq!(c.rate_manager, 10);
        }
        _ => panic!("constants expected"),
    }
}

#[test]
fn payout_split_is_floored() {
    // stake 100 at manager rate 30: the client share is floor(100*70/100).
    assert_eq!(client_payout_amount(100, 30), 70);
    assert_eq!(client_payout_amount(1, 30), 0);
    assert_eq!(client_payout_amount(101, 30), 70);
    assert_eq!(client_payout_amount(100, 0), 100);
    assert_eq!(client_payout_amount(100, 100), 0);
}

#[test]
fn id_length_bounds() {
    assert!(!is_valid_name("ab"));
    assert!(is_valid_name("abc"));
    assert!(is_valid_name("a2345678901234567890"));
    assert!(!is_valid_name("a23456789012345678901"));
}

/// The whole lifecycle: create, stake to the threshold, the two approvals
/// with a 20 percent manager rate, and the final removal.
#[test]
fn end_to_end_lifecycle() {
    let mut state = instantiate();
    execute_setconstant(
        &mut state,
        "anyone",
        ConstantMsg {
            manager_addr: String::from("manager"),
            min_stake: 10,
            rate_client: 80,
            rate_manager: 20,
        },
    )
    .unwrap();

    let create = CreateMsg {
        id: String::from("w1"),
        client: String::from("client"),
        cw20_whitelist: Some(vec![String::from("tok")]),
        work_title: String::from("title"),
        work_desc: String::from("desc"),
        work_url: String::from("url"),
        start_time: Some(1000),
        account_min_stake_amount: 10,
        stake_amount: 100,
        image_url: String::from("image"),
    };
    execute(
        &mut state,
        500,
        "client",
        Balance::Native(vec![coin(1, "fee")]),
        ExecuteMsg::Create(create),
    )
    .unwrap();
    assert_eq!(query_detailsall(&state, 500, "").escrows[0].state, 0);

    // One staker covers the full stake: the escrow advances to state 1.
    execute(
        &mut state,
        500,
        "staker",
        cw20(100, "tok"),
        ExecuteMsg::TopUp(top_up_msg("w1", 400, 600)),
    )
    .unwrap();
    assert_eq!(query_detailsall(&state, 500, "").escrows[0].state, 1);

    // The client approves after the start time and receives 80.
    let payments = execute(
        &mut state,
        2000,
        "client",
        Balance::Native(vec![]),
        ExecuteMsg::Approve {
            id: String::from("w1"),
        },
    )
    .unwrap();
    assert_eq!(payments, vec![one_cw20_payment("client", 80, "tok")]);
    assert_eq!(query_detailsall(&state, 2000, "").escrows[0].state, 2);

    // The manager approves and receives the remaining 20.
    let payments = execute(
        &mut state,
        2000,
        "manager",
        Balance::Native(vec![]),
        ExecuteMsg::Remove {
            id: String::from("missing"),
        },
    );
    assert_eq!(payments, Err(ContractError::NotFound));
    let payments = execute(
        &mut state,
        2000,
        "manager",
        Balance::Native(vec![]),
        ExecuteMsg::Approve {
            id: String::from("w1"),
        },
    )
    .unwrap();
    assert_eq!(payments, vec![one_cw20_payment("manager", 20, "tok")]);
    assert_eq!(query_detailsall(&state, 2000, "").escrows[0].state, 3);

    // The manager removes the finished escrow; nothing of it remains.
    execute(
        &mut state,
        2000,
        "manager",
        Balance::Native(vec![]),
        ExecuteMsg::Remove {
            id: String::from("w1"),
        },
    )
    .unwrap();
    assert_eq!(query_list(&state).escrows, Vec::<String>::new());
    assert_eq!(query_detailsall(&state, 2000, "manager").escrows.len(), 0);
}

/// The detail query redacts by viewer: the admin sees everything, a staker
/// in window sees the work URL and their own record, a stranger sees
/// neither.
#[test]
fn details_redaction() {
    let mut state = instantiate();
    execute_setconstant(
        &mut state,
        "anyone",
        ConstantMsg {
            manager_addr: String::from("manager"),
            min_stake: 10,
            rate_client: 80,
            rate_manager: 20,
        },
    )
    .unwrap();
    execute_create(
        &mut state,
        create_msg("work", Some(10), &["tok"]),
        cw20(100, "tok"),
        "alice",
    )
    .unwrap();
    execute_top_up(&mut state, 5, top_up_msg("work", 20, 80), cw20(100, "tok"), "s1").unwrap();

    let admin_view = &query_detailsall(&state, 50, "manager").escrows[0];
    assert_eq!(admin_view.work_url, "url");
    assert_eq!(admin_view.account_info, ";s1:100:20:80");
    assert_eq!(admin_view.cw20_balance.len(), 1);
    assert_eq!(admin_view.timestamp, "50");

    let staker_view = &query_detailsall(&state, 50, "s1").escrows[0];
    assert_eq!(staker_view.work_url, "url");
    assert_eq!(staker_view.account_info, "s1:100:20:80");
    assert_eq!(staker_view.my_staked, "100");
    assert_eq!(staker_view.cw20_balance.len(), 0);

    let stranger_view = &query_detailsall(&state, 50, "nobody").escrows[0];
    assert_eq!(stranger_view.work_url, "");
    assert_eq!(stranger_view.account_info, "");
    assert_eq!(stranger_view.my_staked, "");
    assert_eq!(stranger_view.cw20_balance.len(), 0);

    let client_view = &query_detailsall(&state, 50, "alice").escrows[0];
    assert_eq!(client_view.work_url, "url");
}

/// A stake recorded in one token cannot be refunded out of a smaller
/// tracked-token balance.
#[test]
fn refund_cannot_exceed_tracked_balance() {
    let mut state = instantiate();
    execute_create(
        &mut state,
        create_msg("work", Some(10), &["a_tok", "b_tok"]),
        cw20(10, "a_tok"),
        "alice",
    )
    .unwrap();
    // A 50-token deposit of the second listed token: recorded with amount
    // 50, but the tracked token is still the first deposit's.
    execute_top_up(&mut state, 5, top_up_msg("work", 20, 30), cw20(50, "b_tok"), "s1").unwrap();
    assert_eq!(
        execute_refund(&mut state, 50, "s1", "work"),
        Err(ContractError::InsufficientBalance)
    );
}

/// A purely native escrow has no tracked token, so a recorded staker still
/// cannot be paid anything back.
#[test]
fn refund_without_tracked_token() {
    let mut state = instantiate();
    execute_create(
        &mut state,
        create_msg("work", Some(10), &[]),
        Balance::Native(vec![coin(5, "atom")]),
        "alice",
    )
    .unwrap();
    execute_top_up(
        &mut state,
        5,
        top_up_msg("work", 20, 30),
        Balance::Native(vec![coin(5, "atom")]),
        "s1",
    )
    .unwrap();
    assert_eq!(
        execute_refund(&mut state, 50, "s1", "work"),
        Err(ContractError::EmptyBalance)
    );
}

/// A top-up can advance only a funding-state escrow: one that already
/// started keeps its state, so a later deposit can never reopen the
/// client's payout tier.
#[test]
fn top_up_never_reopens_a_started_escrow() {
    let mut state = instantiate();
    execute_setconstant(
        &mut state,
        "anyone",
        ConstantMsg {
            manager_addr: String::from("manager"),
            min_stake: 10,
            rate_client: 80,
            rate_manager: 20,
        },
    )
    .unwrap();
    execute_create(
        &mut state,
        create_msg("work", Some(10), &["tok"]),
        cw20(100, "tok"),
        "alice",
    )
    .unwrap();
    execute_top_up(&mut state, 5, top_up_msg("work", 0, 9), cw20(100, "tok"), "s1").unwrap();
    execute_approve(&mut state, 50, "alice", "work").unwrap();
    assert_eq!(query_detailsall(&state, 50, "manager").escrows[0].state, 2);

    // Before the start time a deposit is still accepted, but the escrow
    // stays at state 2: the tracked balance covering the stake again does
    // not reset it.
    execute_top_up(&mut state, 5, top_up_msg("work", 0, 9), cw20(100, "tok"), "s2").unwrap();
    let details = query_detailsall(&state, 50, "manager");
    assert_eq!(details.escrows[0].state, 2);
    assert_eq!(details.escrows[0].cw20_balance[0].amount, 220);
}
