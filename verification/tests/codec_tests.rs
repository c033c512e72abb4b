use dexter_claim::decimal::Decimal;
use dexter_claim::errors::ParseError;
use dexter_claim::orders::JsonPairOrderRewards;
use dexter_claim::parser::{
    parse_decimal_exec, parse_orders_rewards_data, serialize_orders_rewards_data,
};
use dexter_claim::text::string_to_chars;

fn dec(s: &str) -> Decimal {
    parse_decimal_exec(&string_to_chars(s)).unwrap()
}

fn batches_equal(a: &Vec<JsonPairOrderRewards>, b: &Vec<JsonPairOrderRewards>) -> bool {
    if a.len() != b.len() {
        return false;
    }
    for i in 0..a.len() {
        if a[i].pair_receipt_address != b[i].pair_receipt_address {
            return false;
        }
        if a[i].pair_rewards != b[i].pair_rewards {
            return false;
        }
    }
    true
}

#[test]
fn parses_single_quoted_batch() {
    let s = "[{'pair_receipt_address':'pair1_address','pair_rewards':[[1,'123.45'],[2,'234.56']]}]";
    let batch = parse_orders_rewards_data(s).unwrap();
    assert_eq!(batch.len(), 1);
    assert_eq!(batch[0].pair_receipt_address, "pair1_address".to_string());
    assert_eq!(batch[0].pair_rewards, vec![(1u64, dec("123.45")), (2u64, dec("234.56"))]);
}

#[test]
fn parses_double_quotes_whitespace_and_string_ids() {
    let s = " [ { \"pair_rewards\" : [ [ \"10\" , \"5\" ] ] , \"pair_receipt_address\" : \"P\" } ] ";
    let batch = parse_orders_rewards_data(s).unwrap();
    assert_eq!(batch.len(), 1);
    assert_eq!(batch[0].pair_receipt_address, "P".to_string());
    assert_eq!(batch[0].pair_rewards, vec![(10u64, dec("5"))]);
}

#[test]
fn parses_empty_batch() {
    let batch = parse_orders_rewards_data("[]").unwrap();
    assert!(batch.is_empty());
}

#[test]
fn rejects_malformed_batches() {
    assert_eq!(parse_orders_rewards_data("{}").unwrap_err(), ParseError::NotAnArray);
    assert_eq!(parse_orders_rewards_data("[1]").unwrap_err(), ParseError::PairNotAnObject);
    assert_eq!(
        parse_orders_rewards_data("[{'pair_rewards':[]}]").unwrap_err(),
        ParseError::MissingReceipt
    );
    assert_eq!(
        parse_orders_rewards_data("[{'pair_receipt_address':''}]").unwrap_err(),
        ParseError::MissingReceipt
    );
    assert_eq!(
        parse_orders_rewards_data("[{'other_field':'x'}]").unwrap_err(),
        ParseError::UnknownField
    );
    assert_eq!(
        parse_orders_rewards_data("[{'pair_receipt_address':1}]").unwrap_err(),
        ParseError::ReceiptNotAString
    );
    assert_eq!(
        parse_orders_rewards_data("[{'pair_receipt_address':'P','pair_rewards':1}]").unwrap_err(),
        ParseError::RewardsNotAnArray
    );
    assert_eq!(
        parse_orders_rewards_data("[{'pair_receipt_address':'P','pair_rewards':[[1,2]]}]")
            .unwrap_err(),
        ParseError::BadAmount
    );
    assert_eq!(
        parse_orders_rewards_data("[{'pair_receipt_address':'P','pair_rewards':[['x','1']]}]")
            .unwrap_err(),
        ParseError::BadOrderId
    );
    assert_eq!(
        parse_orders_rewards_data("[{'pair_receipt_address':'P','pair_rewards':[[1,'-1']]}]")
            .unwrap_err(),
        ParseError::NegativeAmount
    );
    assert_eq!(parse_orders_rewards_data("[").unwrap_err(), ParseError::UnexpectedEnd);
    assert_eq!(parse_orders_rewards_data("[]x").unwrap_err(), ParseError::TrailingText);
}

#[test]
fn round_trips_a_batch_through_the_canonical_encoding() {
    let s = "[{'pair_receipt_address':'pair1_address','pair_rewards':[[1,'123.45'],[2,'234.56']]},\
             {'pair_receipt_address':'pair2_address','pair_rewards':[[1,'345.67'],[2,'0.000000000000000001']]}]";
    let batch = parse_orders_rewards_data(s).unwrap();
    let encoded = serialize_orders_rewards_data(&batch);
    let batch2 = parse_orders_rewards_data(encoded.as_str()).unwrap();
    assert!(batches_equal(&batch, &batch2));
    // encoding is a fixed point: encoding again yields the same text
    let encoded2 = serialize_orders_rewards_data(&batch2);
    assert_eq!(encoded, encoded2);
}

#[test]
fn canonical_encoding_shape() {
    let batch = vec![JsonPairOrderRewards {
        pair_receipt_address: "P".to_string(),
        pair_rewards: vec![(1u64, dec("2.5"))],
    }];
    let encoded = serialize_orders_rewards_data(&batch);
    assert_eq!(
        encoded,
        "[{\"pair_receipt_address\":\"P\",\"pair_rewards\":[[1,\"2.500000000000000000\"]]}]"
            .to_string()
    );
}

#[test]
fn decimal_text_forms() {
    assert_eq!(dec("123.45").atto(), 123_450_000_000_000_000_000i128);
    assert_eq!(dec("0").atto(), 0i128);
    assert_eq!(dec("-1.5").atto(), -1_500_000_000_000_000_000i128);
    assert_eq!(dec("0.000000000000000001").atto(), 1i128);
    // too many fractional digits, a bare point, or empty text all fail
    assert!(parse_decimal_exec(&string_to_chars("1.0000000000000000001")).is_err());
    assert!(parse_decimal_exec(&string_to_chars("1.")).is_err());
    assert!(parse_decimal_exec(&string_to_chars("")).is_err());
    assert!(parse_decimal_exec(&string_to_chars(".5")).is_err());
    assert!(parse_decimal_exec(&string_to_chars("1a")).is_err());
}
