use dexter_claim::component::{AccountCredential, DexterClaimComponent, FundsContainer};
use dexter_claim::decimal::Decimal;
use dexter_claim::parser::parse_decimal_exec;
use dexter_claim::text::string_to_chars;

fn dec(s: &str) -> Decimal {
    parse_decimal_exec(&string_to_chars(s)).unwrap()
}

fn bucket(token: &str, amount: &str) -> FundsContainer {
    FundsContainer { token: token.to_string(), amount: dec(amount) }
}

fn account_reward(
    c: &DexterClaimComponent,
    account: &str,
    category: &str,
    token: &str,
) -> Decimal {
    match c.get_account_rewards(&account.to_string()) {
        None => Decimal::zero(),
        Some(data) => {
            for (cat, tokens) in data.rewards {
                if cat == *category {
                    for (t, amt) in tokens {
                        if t == *token {
                            return amt;
                        }
                    }
                }
            }
            Decimal::zero()
        },
    }
}

fn setup_component() -> DexterClaimComponent {
    DexterClaimComponent::new("XRD".to_string(), "claim_nft".to_string())
}

fn build_orders_test_str() -> String {
    let rewards_string = String::from(
        "[{'pair_receipt_address':'pair1_address','pair_rewards':[[1,'123.45'],[2,'234.56']]},\
         {'pair_receipt_address':'pair2_address','pair_rewards':[[1,'345.67'],[2,'456.78']]}]",
    );
    rewards_string.replace("\n", "").replace("\r", "").replace(" ", "")
}

#[test]
fn setup_component_test() {
    let c = setup_component();
    assert_eq!(c.vault_amount(&"XRD".to_string()), Decimal::zero());
    assert!(c.get_account_rewards(&"account1".to_string()).is_none());
}

#[test]
fn add_accounts_rewards_test() {
    let mut c = setup_component();
    let dextr_bucket = bucket("XRD", "2000");
    let dextr_bucket2 = c
        .add_account_rewards(
            String::from("Liquidity Rewards"),
            "XRD".to_string(),
            vec![
                ("account1".to_string(), dec("123.34")),
                ("account2".to_string(), dec("345.67")),
            ],
            dextr_bucket,
        )
        .unwrap();
    let remainder = c
        .add_account_rewards(
            String::from("Trading Rewards"),
            "XRD".to_string(),
            vec![
                ("account1".to_string(), dec("234.45")),
                ("account2".to_string(), dec("456")),
            ],
            dextr_bucket2,
        )
        .unwrap();
    assert_eq!(account_reward(&c, "account1", "Liquidity Rewards", "XRD"), dec("123.34"));
    assert_eq!(account_reward(&c, "account1", "Trading Rewards", "XRD"), dec("234.45"));
    assert_eq!(account_reward(&c, "account2", "Liquidity Rewards", "XRD"), dec("345.67"));
    assert_eq!(account_reward(&c, "account2", "Trading Rewards", "XRD"), dec("456"));
    // the main account held 10000, sent 2000 and got the remainder back
    let account_balance = dec("8000").checked_add(remainder.amount).unwrap();
    assert!(
        account_balance == dec("8840.54"),
        "Expected Account Balance of 8840.54, but found {:?}",
        account_balance
    );
}

#[test]
fn add_orders_rewards_test() {
    let mut c = setup_component();
    let test_str = build_orders_test_str();
    println!("Test string: {:?}", test_str);
    let dextr_bucket = bucket("XRD", "2000");
    let remainder = c
        .add_orders_rewards("XRD".to_string(), test_str, dextr_bucket)
        .unwrap();
    let account_balance = dec("8000").checked_add(remainder.amount).unwrap();
    println!("Account balance: {:?}", account_balance);
    assert!(
        account_balance == dec("8839.54"),
        "Expected Account Balance of 8839.54, but found {:?}",
        account_balance
    );
}

#[test]
fn add_liquidity_and_then_trading_rewards_test() {
    let mut c = setup_component();
    let dextr_bucket = bucket("XRD", "2000");
    let remainder = c
        .add_rewards(
            String::from("Liquidity Rewards"),
            "XRD".to_string(),
            vec![
                ("account1".to_string(), dec("123.34")),
                ("account2".to_string(), dec("345.67")),
            ],
            String::from(""),
            dextr_bucket,
        )
        .unwrap();
    assert_eq!(account_reward(&c, "account1", "Liquidity Rewards", "XRD"), dec("123.34"));
    assert_eq!(account_reward(&c, "account1", "Trading Rewards", "XRD"), dec("0"));
    assert_eq!(account_reward(&c, "account2", "Liquidity Rewards", "XRD"), dec("345.67"));
    assert_eq!(account_reward(&c, "account2", "Trading Rewards", "XRD"), dec("0"));
    let account_balance = dec("8000").checked_add(remainder.amount).unwrap();
    assert!(
        account_balance == dec("9530.99"),
        "Expected Account Balance of 9530.99, but found {:?}",
        account_balance
    );
    let test_str = build_orders_test_str();
    println!("Test string: {:?}", test_str);
    let dextr_bucket = bucket("XRD", "2000");
    let remainder2 = c
        .add_rewards(
            String::from("Trading Rewards"),
            "XRD".to_string(),
            vec![
                ("account1".to_string(), dec("234.45")),
                ("account2".to_string(), dec("456")),
            ],
            test_str,
            dextr_bucket,
        )
        .unwrap();
    assert_eq!(account_reward(&c, "account1", "Liquidity Rewards", "XRD"), dec("123.34"));
    assert_eq!(account_reward(&c, "account1", "Trading Rewards", "XRD"), dec("234.45"));
    assert_eq!(account_reward(&c, "account2", "Liquidity Rewards", "XRD"), dec("345.67"));
    assert_eq!(account_reward(&c, "account2", "Trading Rewards", "XRD"), dec("456"));
    let account_balance = account_balance
        .checked_sub(dec("2000"))
        .unwrap()
        .checked_add(remainder2.amount)
        .unwrap();
    assert!(
        account_balance == dec("7680.08"),
        "Expected Account Balance of 7680.08, but found {:?}",
        account_balance
    );
}

#[test]
fn claim_accounts_rewards_test() {
    let mut c = setup_component();
    let dextr_bucket = bucket("XRD", "2000");
    let dextr_bucket2 = c
        .add_account_rewards(
            String::from("Liquidity Rewards"),
            "XRD".to_string(),
            vec![
                ("account1".to_string(), dec("123.34")),
                ("account2".to_string(), dec("345.67")),
            ],
            dextr_bucket,
        )
        .unwrap();
    let remainder = c
        .add_account_rewards(
            String::from("Trading Rewards"),
            "XRD".to_string(),
            vec![
                ("account1".to_string(), dec("234.45")),
                ("account2".to_string(), dec("456")),
            ],
            dextr_bucket2,
        )
        .unwrap();
    println!("After adding rewards...");
    assert_eq!(account_reward(&c, "account1", "Liquidity Rewards", "XRD"), dec("123.34"));
    println!("After checking acount reward1");
    assert_eq!(account_reward(&c, "account1", "Trading Rewards", "XRD"), dec("234.45"));
    assert_eq!(account_reward(&c, "account2", "Liquidity Rewards", "XRD"), dec("345.67"));
    assert_eq!(account_reward(&c, "account2", "Trading Rewards", "XRD"), dec("456"));
    let account_balance = dec("8000").checked_add(remainder.amount).unwrap();
    assert!(
        account_balance == dec("8840.54"),
        "Expected Account Balance of 8840.54, but found {:?}",
        account_balance
    );
    // account2 presents its credential and claims its rewards
    let payouts = c
        .claim_rewards(
            vec![AccountCredential {
                issuer: "claim_nft".to_string(),
                account_id: "account2".to_string(),
            }],
            vec![],
        )
        .unwrap();
    let mut claimed = Decimal::zero();
    for p in payouts {
        assert_eq!(p.token, "XRD".to_string());
        claimed = claimed.checked_add(p.amount).unwrap();
    }
    let test_account_balance = dec("10000").checked_add(claimed).unwrap();
    assert!(
        test_account_balance == dec("10801.67"),
        "Expected Account Balance of {:?}, but found {:?}",
        dec("10801.67"),
        test_account_balance
    );
}

#[test]
fn claim_accounts_with_two_nfts_test() {
    let mut c = setup_component();
    let dextr_bucket = bucket("XRD", "2000");
    let dextr_bucket2 = c
        .add_account_rewards(
            String::from("Liquidity Rewards"),
            "XRD".to_string(),
            vec![
                ("account1".to_string(), dec("123.34")),
                ("account2".to_string(), dec("345.67")),
            ],
            dextr_bucket,
        )
        .unwrap();
    let remainder = c
        .add_account_rewards(
            String::from("Trading Rewards"),
            "XRD".to_string(),
            vec![
                ("account1".to_string(), dec("234.45")),
                ("account2".to_string(), dec("456")),
            ],
            dextr_bucket2,
        )
        .unwrap();
    println!("After adding rewards...");
    let account_balance = dec("8000").checked_add(remainder.amount).unwrap();
    assert!(
        account_balance == dec("8840.54"),
        "Expected Account Balance of 8840.54, but found {:?}",
        account_balance
    );
    // both credentials are presented in one claim call
    let payouts = c
        .claim_rewards(
            vec![
                AccountCredential {
                    issuer: "claim_nft".to_string(),
                    account_id: "account1".to_string(),
                },
                AccountCredential {
                    issuer: "claim_nft".to_string(),
                    account_id: "account2".to_string(),
                },
            ],
            vec![],
        )
        .unwrap();
    let mut claimed = Decimal::zero();
    for p in payouts {
        claimed = claimed.checked_add(p.amount).unwrap();
    }
    let test_account_balance = dec("10000").checked_add(claimed).unwrap();
    assert!(
        test_account_balance == dec("11159.46"),
        "Expected Account Balance of {:?}, but found {:?}",
        dec("11159.46"),
        test_account_balance
    );
}

#[test]
fn remove_accounts_rewards_test() {
    let mut c = setup_component();
    let dextr_bucket = bucket("XRD", "2000");
    let dextr_bucket2 = c
        .add_account_rewards(
            String::from("Liquidity Rewards"),
            "XRD".to_string(),
            vec![
                ("account1".to_string(), dec("123.34")),
                ("account2".to_string(), dec("345.67")),
            ],
            dextr_bucket,
        )
        .unwrap();
    let remainder = c
        .add_account_rewards(
            String::from("Trading Rewards"),
            "XRD".to_string(),
            vec![
                ("account1".to_string(), dec("234.45")),
                ("account2".to_string(), dec("456")),
            ],
            dextr_bucket2,
        )
        .unwrap();
    let account_balance = dec("8000").checked_add(remainder.amount).unwrap();
    assert!(
        account_balance == dec("8840.54"),
        "Expected Account Balance of 8840.54, but found {:?}",
        account_balance
    );
    let removed1 = c
        .remove_account_rewards(
            String::from("Liquidity Rewards"),
            "XRD".to_string(),
            vec![
                ("account1".to_string(), dec("123.34")),
                ("account2".to_string(), dec("145.67")),
            ],
        )
        .unwrap();
    let removed2 = c
        .remove_account_rewards(
            String::from("Trading Rewards"),
            "XRD".to_string(),
            vec![
                ("account1".to_string(), dec("134.45")),
                ("account2".to_string(), dec("456")),
            ],
        )
        .unwrap();
    assert_eq!(account_reward(&c, "account1", "Liquidity Rewards", "XRD"), dec("0"));
    assert_eq!(account_reward(&c, "account1", "Trading Rewards", "XRD"), dec("100"));
    assert_eq!(account_reward(&c, "account2", "Liquidity Rewards", "XRD"), dec("200"));
    assert_eq!(account_reward(&c, "account2", "Trading Rewards", "XRD"), dec("0"));
    let main_account_balance = account_balance
        .checked_add(removed1.amount)
        .unwrap()
        .checked_add(removed2.amount)
        .unwrap();
    println!("Main Account balance: {:?}", main_account_balance);
    assert!(
        main_account_balance == dec("9700"),
        "Expected Main Account Balance of 9700, but found {:?}",
        main_account_balance
    );
}

#[test]
fn remove_accounts_rewards_overflow_test() {
    let mut c = setup_component();
    let dextr_bucket = bucket("XRD", "2000");
    let dextr_bucket2 = c
        .add_account_rewards(
            String::from("Liquidity Rewards"),
            "XRD".to_string(),
            vec![
                ("account1".to_string(), dec("123.34")),
                ("account2".to_string(), dec("345.67")),
            ],
            dextr_bucket,
        )
        .unwrap();
    let remainder = c
        .add_account_rewards(
            String::from("Trading Rewards"),
            "XRD".to_string(),
            vec![
                ("account1".to_string(), dec("234.45")),
                ("account2".to_string(), dec("456")),
            ],
            dextr_bucket2,
        )
        .unwrap();
    let account_balance = dec("8000").checked_add(remainder.amount).unwrap();
    assert!(
        account_balance == dec("8840.54"),
        "Expected Account Balance of 8840.54, but found {:?}",
        account_balance
    );
    // account2 claims everything it is owed first
    let payouts = c
        .claim_rewards(
            vec![AccountCredential {
                issuer: "claim_nft".to_string(),
                account_id: "account2".to_string(),
            }],
            vec![],
        )
        .unwrap();
    let mut claimed = Decimal::zero();
    for p in payouts {
        claimed = claimed.checked_add(p.amount).unwrap();
    }
    let claimed_account_balance = dec("10000").checked_add(claimed).unwrap();
    println!("Claimed Account Balance: {:?}", claimed_account_balance);
    assert!(
        claimed_account_balance == dec("10801.67"),
        "Expected Account Balance of {:?}, but found {:?}",
        dec("10801.67"),
        claimed_account_balance
    );
    // removals against the emptied rows clamp to zero instead of failing
    let removed1 = c
        .remove_rewards(
            String::from("Liquidity Rewards"),
            "XRD".to_string(),
            vec![
                ("account1".to_string(), dec("123.34")),
                ("account2".to_string(), dec("145.67")),
            ],
            String::from(""),
        )
        .unwrap();
    let removed2 = c
        .remove_rewards(
            String::from("Trading Rewards"),
            "XRD".to_string(),
            vec![
                ("account1".to_string(), dec("134.45")),
                ("account2".to_string(), dec("456")),
            ],
            String::from(""),
        )
        .unwrap();
    assert_eq!(account_reward(&c, "account1", "Liquidity Rewards", "XRD"), dec("0"));
    assert_eq!(account_reward(&c, "account1", "Trading Rewards", "XRD"), dec("100"));
    assert_eq!(account_reward(&c, "account2", "Liquidity Rewards", "XRD"), dec("0"));
    assert_eq!(account_reward(&c, "account2", "Trading Rewards", "XRD"), dec("0"));
    let main_account_balance = account_balance
        .checked_add(removed1.amount)
        .unwrap()
        .checked_add(removed2.amount)
        .unwrap();
    println!("Main Account balance: {:?}", main_account_balance);
    assert!(
        main_account_balance == dec("9098.33"),
        "Expected Main Account Balance of 9098.33, but found {:?}",
        main_account_balance
    );
}
