use cw20_escrow::balance::{Balance, Coin, Cw20Coin, GenericBalance};
use cw20_escrow::state::{AccountInfo, GenericAccount};

fn coin(amount: u128, denom: &str) -> Coin {
    Coin { denom: denom.to_string(), amount }
}

#[test]
fn add_tokens_proper() {
    let mut tokens = GenericBalance::default();
    tokens.add_tokens(Balance::Native(vec![coin(123, "atom"), coin(789, "eth")]));
    tokens.add_tokens(Balance::Native(vec![coin(456, "atom"), coin(12, "btc")]));
    assert_eq!(
        tokens.native,
        vec![coin(579, "atom"), coin(789, "eth"), coin(12, "btc")]
    );
}

#[test]
fn add_cw_tokens_proper() {
    let mut tokens = GenericBalance::default();
    let bar_token = String::from("bar_token");
    let foo_token = String::from("foo_token");
    tokens.add_tokens(Balance::Cw20(Cw20Coin {
        address: foo_token.clone(),
        amount: 12345,
    }));
    tokens.add_tokens(Balance::Cw20(Cw20Coin {
        address: bar_token.clone(),
        amount: 777,
    }));
    tokens.add_tokens(Balance::Cw20(Cw20Coin {
        address: foo_token.clone(),
        amount: 23400,
    }));
    assert_eq!(
        tokens.cw20,
        vec![
            Cw20Coin {
                address: foo_token,
                amount: 35745,
            },
            Cw20Coin {
                address: bar_token,
                amount: 777,
            }
        ]
    );
}

#[test]
fn merge_same_key_collapses() {
    // Adding {A:5} then {A:3} equals adding {A:8} once.
    let mut split = GenericBalance::new();
    split.add_tokens(Balance::Native(vec![coin(5, "a")]));
    split.add_tokens(Balance::Native(vec![coin(3, "a")]));
    let mut once = GenericBalance::new();
    once.add_tokens(Balance::Native(vec![coin(8, "a")]));
    assert_eq!(split, once);
}

#[test]
fn merge_order_keeps_totals() {
    // Two deltas merged in either order leave each key the same total;
    // only the order of first appearance differs.
    let mut ab = GenericBalance::new();
    ab.add_tokens(Balance::Native(vec![coin(5, "a"), coin(2, "b")]));
    ab.add_tokens(Balance::Native(vec![coin(7, "b")]));
    let mut ba = GenericBalance::new();
    ba.add_tokens(Balance::Native(vec![coin(7, "b")]));
    ba.add_tokens(Balance::Native(vec![coin(5, "a"), coin(2, "b")]));
    assert_eq!(ab.native, vec![coin(5, "a"), coin(9, "b")]);
    assert_eq!(ba.native, vec![coin(9, "b"), coin(5, "a")]);
}

#[test]
fn sub_missing_key_appends() {
    // The legacy defect, preserved deliberately: subtracting a key the
    // ledger does not hold appends the delta as if it were new money.
    let mut tokens = GenericBalance::new();
    tokens.add_tokens(Balance::Native(vec![coin(10, "atom")]));
    tokens.sub_tokens(Balance::Native(vec![coin(4, "eth")]));
    assert_eq!(tokens.native, vec![coin(10, "atom"), coin(4, "eth")]);
}

#[test]
fn sub_existing_key_decrements() {
    let mut tokens = GenericBalance::new();
    tokens.add_tokens(Balance::Cw20(Cw20Coin {
        address: String::from("tok"),
        amount: 10,
    }));
    tokens.sub_tokens(Balance::Cw20(Cw20Coin {
        address: String::from("tok"),
        amount: 4,
    }));
    assert_eq!(
        tokens.cw20,
        vec![Cw20Coin {
            address: String::from("tok"),
            amount: 6,
        }]
    );
}

#[test]
fn zero_entry_never_pruned() {
    let mut tokens = GenericBalance::new();
    tokens.add_tokens(Balance::Native(vec![coin(5, "atom")]));
    tokens.sub_tokens(Balance::Native(vec![coin(5, "atom")]));
    assert_eq!(tokens.native, vec![coin(0, "atom")]);
}

#[test]
fn balance_emptiness() {
    assert!(Balance::Native(vec![]).is_empty());
    assert!(Balance::Native(vec![coin(0, "atom")]).is_empty());
    assert!(!Balance::Native(vec![coin(1, "atom")]).is_empty());
    assert!(Balance::Cw20(Cw20Coin {
        address: String::from("tok"),
        amount: 0,
    })
    .is_empty());
    assert!(!Balance::Cw20(Cw20Coin {
        address: String::from("tok"),
        amount: 1,
    })
    .is_empty());
}

fn rec(addr: &str, amount: u128, start_time: u64, end_time: u64) -> AccountInfo {
    AccountInfo {
        addr: addr.to_string(),
        amount,
        start_time,
        end_time,
    }
}

#[test]
fn add_account_merges_by_staker() {
    let mut ledger = GenericAccount { account: vec![] };
    ledger.add_account(rec("alice", 5, 1, 2));
    ledger.add_account(rec("bob", 7, 3, 4));
    // A second deposit by the same staker is credited to the existing
    // record; its window stays as first recorded.
    ledger.add_account(rec("alice", 3, 9, 9));
    assert_eq!(
        ledger.account,
        vec![rec("alice", 8, 1, 2), rec("bob", 7, 3, 4)]
    );
}
