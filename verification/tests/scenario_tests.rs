use dexter_claim::component::{
    AccountCredential, DexterClaimComponent, FundsContainer, OrderCredential,
};
use dexter_claim::decimal::Decimal;
use dexter_claim::errors::ClaimError;
use dexter_claim::parser::parse_decimal_exec;
use dexter_claim::text::string_to_chars;

fn dec(s: &str) -> Decimal {
    parse_decimal_exec(&string_to_chars(s)).unwrap()
}

fn bucket(token: &str, amount: &str) -> FundsContainer {
    FundsContainer { token: token.to_string(), amount: dec(amount) }
}

fn account_reward(
    c: &DexterClaimComponent,
    account: &str,
    category: &str,
    token: &str,
) -> Decimal {
    match c.get_account_rewards(&account.to_string()) {
        None => Decimal::zero(),
        Some(data) => {
            for (cat, tokens) in data.rewards {
                if cat == *category {
                    for (t, amt) in tokens {
                        if t == *token {
                            return amt;
                        }
                    }
                }
            }
            Decimal::zero()
        },
    }
}

fn acct_cred(account: &str) -> AccountCredential {
    AccountCredential { issuer: "issuer".to_string(), account_id: account.to_string() }
}

fn new_component() -> DexterClaimComponent {
    DexterClaimComponent::new("T".to_string(), "issuer".to_string())
}

#[test]
fn grant_two_categories_then_claim() {
    // grant acc1 "Liquidity"/"T" 123.34 and "Trading"/"T" 234.45, then claim
    let mut c = new_component();
    let b = bucket("T", "123.34");
    let r = c
        .add_account_rewards(
            "Liquidity".to_string(),
            "T".to_string(),
            vec![("acc1".to_string(), dec("123.34"))],
            b,
        )
        .unwrap();
    assert_eq!(r.amount, Decimal::zero());
    let b2 = bucket("T", "234.45");
    c.add_account_rewards(
        "Trading".to_string(),
        "T".to_string(),
        vec![("acc1".to_string(), dec("234.45"))],
        b2,
    )
        .unwrap();
    let payouts = c.claim_rewards(vec![acct_cred("acc1")], vec![]).unwrap();
    assert_eq!(payouts.len(), 1);
    assert_eq!(payouts[0].token, "T".to_string());
    assert_eq!(payouts[0].amount, dec("357.79"));
}

#[test]
fn grant_order_batch_then_claim_one_order() {
    // grant [("P1", [(1, 123.45), (2, 234.56)])], claim order 1 only
    let mut c = new_component();
    let batch = "[{'pair_receipt_address':'P1','pair_rewards':[[1,'123.45'],[2,'234.56']]}]";
    let b = bucket("T", "358.01");
    let r = c.add_orders_rewards("T".to_string(), batch.to_string(), b).unwrap();
    assert_eq!(r.amount, Decimal::zero());
    let cred = OrderCredential { receipt_address: "P1".to_string(), order_ids: vec![1] };
    let payouts = c.claim_rewards(vec![], vec![cred]).unwrap();
    assert_eq!(payouts.len(), 1);
    assert_eq!(payouts[0].token, "T".to_string());
    assert_eq!(payouts[0].amount, dec("123.45"));
    // the ledger keeps order 2 untouched
    assert_eq!(c.get_order_reward("P1", 2), dec("234.56"));
    assert_eq!(c.get_order_reward("P1", 1), Decimal::zero());
}

#[test]
fn remove_more_than_balance_clamps_to_zero() {
    // grant 500, remove 800: the balance floors at zero and custody releases
    // only the 500 that were really there
    let mut c = new_component();
    let b = bucket("T", "500");
    c.add_account_rewards(
        "Liquidity".to_string(),
        "T".to_string(),
        vec![("acc1".to_string(), dec("500"))],
        b,
    )
        .unwrap();
    let out = c
        .remove_account_rewards(
            "Liquidity".to_string(),
            "T".to_string(),
            vec![("acc1".to_string(), dec("800"))],
        )
        .unwrap();
    assert_eq!(out.amount, dec("500"));
    assert_eq!(account_reward(&c, "acc1", "Liquidity", "T"), Decimal::zero());
    assert_eq!(c.vault_amount(&"T".to_string()), Decimal::zero());
}

#[test]
fn insufficient_funds_leaves_no_trace() {
    // the container holds 100 while the grant needs 150: the call fails and
    // neither the ledger nor custody retains anything
    let mut c = new_component();
    let b = bucket("T", "100");
    let r = c.add_account_rewards(
        "Liquidity".to_string(),
        "T".to_string(),
        vec![("acc1".to_string(), dec("150"))],
        b,
    );
    assert_eq!(r.unwrap_err(), ClaimError::InsufficientFunds);
    assert!(c.get_account_rewards(&"acc1".to_string()).is_none());
    assert_eq!(c.vault_amount(&"T".to_string()), Decimal::zero());
}

#[test]
fn grant_then_remove_restores_prior_state() {
    // net-zero merge: adding an amount and removing it again leaves the
    // prior balances, and the freshly created row stays behind empty
    let mut c = new_component();
    let b = bucket("T", "77.5");
    c.add_account_rewards(
        "Liquidity".to_string(),
        "T".to_string(),
        vec![("acc1".to_string(), dec("77.5"))],
        b,
    )
        .unwrap();
    let out = c
        .remove_account_rewards(
            "Liquidity".to_string(),
            "T".to_string(),
            vec![("acc1".to_string(), dec("77.5"))],
        )
        .unwrap();
    assert_eq!(out.amount, dec("77.5"));
    let row = c.get_account_rewards(&"acc1".to_string()).unwrap();
    assert!(row.rewards.is_empty());
    assert_eq!(c.vault_amount(&"T".to_string()), Decimal::zero());
}

#[test]
fn claim_same_credential_twice_pays_once() {
    // the first claim zeroes the row; the second one yields nothing
    let mut c = new_component();
    let b = bucket("T", "10");
    c.add_account_rewards(
        "Liquidity".to_string(),
        "T".to_string(),
        vec![("acc1".to_string(), dec("10"))],
        b,
    )
        .unwrap();
    let payouts = c.claim_rewards(vec![acct_cred("acc1")], vec![]).unwrap();
    assert_eq!(payouts.len(), 1);
    assert_eq!(payouts[0].amount, dec("10"));
    let payouts2 = c.claim_rewards(vec![acct_cred("acc1")], vec![]).unwrap();
    assert!(payouts2.is_empty());
}

#[test]
fn claim_same_order_twice_pays_once() {
    // the first claim deletes the entry; the second one finds it absent
    let mut c = new_component();
    let batch = "[{'pair_receipt_address':'P1','pair_rewards':[[7,'4.5']]}]";
    let b = bucket("T", "4.5");
    c.add_orders_rewards("T".to_string(), batch.to_string(), b).unwrap();
    let cred = || OrderCredential { receipt_address: "P1".to_string(), order_ids: vec![7] };
    let payouts = c.claim_rewards(vec![], vec![cred()]).unwrap();
    assert_eq!(payouts.len(), 1);
    assert_eq!(payouts[0].amount, dec("4.5"));
    let payouts2 = c.claim_rewards(vec![], vec![cred()]).unwrap();
    assert!(payouts2.is_empty());
}

#[test]
fn duplicate_credential_in_one_call_pays_once() {
    let mut c = new_component();
    let b = bucket("T", "10");
    c.add_account_rewards(
        "Liquidity".to_string(),
        "T".to_string(),
        vec![("acc1".to_string(), dec("10"))],
        b,
    )
        .unwrap();
    let payouts = c
        .claim_rewards(vec![acct_cred("acc1"), acct_cred("acc1")], vec![])
        .unwrap();
    let mut total = Decimal::zero();
    for p in payouts {
        total = total.checked_add(p.amount).unwrap();
    }
    assert_eq!(total, dec("10"));
}

#[test]
fn wrong_issuer_is_rejected() {
    let mut c = new_component();
    let cred = AccountCredential {
        issuer: "someone_else".to_string(),
        account_id: "acc1".to_string(),
    };
    let r = c.claim_rewards(vec![cred], vec![]);
    assert_eq!(r.unwrap_err(), ClaimError::WrongCredential);
}

#[test]
fn token_mismatch_is_rejected() {
    let mut c = new_component();
    let b = bucket("OTHER", "10");
    let r = c.add_account_rewards(
        "Liquidity".to_string(),
        "T".to_string(),
        vec![("acc1".to_string(), dec("10"))],
        b,
    );
    assert_eq!(r.unwrap_err(), ClaimError::TokenMismatch);
    // an orders grant must use the designated order-reward token
    let b2 = bucket("OTHER", "10");
    let batch = "[{'pair_receipt_address':'P1','pair_rewards':[[1,'1']]}]";
    let r2 = c.add_orders_rewards("OTHER".to_string(), batch.to_string(), b2);
    assert_eq!(r2.unwrap_err(), ClaimError::TokenMismatch);
}

#[test]
fn negative_amount_is_rejected() {
    let mut c = new_component();
    let b = bucket("T", "10");
    let r = c.add_account_rewards(
        "Liquidity".to_string(),
        "T".to_string(),
        vec![("acc1".to_string(), dec("-5"))],
        b,
    );
    assert_eq!(r.unwrap_err(), ClaimError::NegativeAmount);
}

#[test]
fn regrant_of_order_is_a_set_with_delta_accounting() {
    // re-granting an order overwrites its amount; custody moves by the
    // difference, and a lower re-grant refunds the excess
    let mut c = new_component();
    let batch1 = "[{'pair_receipt_address':'P1','pair_rewards':[[1,'100']]}]";
    let b1 = bucket("T", "100");
    let r1 = c.add_orders_rewards("T".to_string(), batch1.to_string(), b1).unwrap();
    assert_eq!(r1.amount, Decimal::zero());
    assert_eq!(c.vault_amount(&"T".to_string()), dec("100"));
    let batch2 = "[{'pair_receipt_address':'P1','pair_rewards':[[1,'40']]}]";
    let b2 = bucket("T", "0");
    let r2 = c.add_orders_rewards("T".to_string(), batch2.to_string(), b2).unwrap();
    // sixty tokens come back out of custody
    assert_eq!(r2.amount, dec("60"));
    assert_eq!(c.vault_amount(&"T".to_string()), dec("40"));
    assert_eq!(c.get_order_reward("P1", 1), dec("40"));
}

#[test]
fn remove_order_reports_stored_amount() {
    let mut c = new_component();
    let batch = "[{'pair_receipt_address':'P1','pair_rewards':[[1,'25.5']]}]";
    let b = bucket("T", "25.5");
    c.add_orders_rewards("T".to_string(), batch.to_string(), b).unwrap();
    // the removal batch names a different amount; the stored one is released
    let batch2 = "[{'pair_receipt_address':'P1','pair_rewards':[[1,'999']]}]";
    let out = c.remove_orders_rewards("T".to_string(), batch2.to_string()).unwrap();
    assert_eq!(out.amount, dec("25.5"));
    assert_eq!(c.get_order_reward("P1", 1), Decimal::zero());
    // removing an absent order releases nothing
    let out2 = c.remove_orders_rewards("T".to_string(), batch2.to_string()).unwrap();
    assert_eq!(out2.amount, Decimal::zero());
}
