use lower::record::{DateTime, LendingRates, LoanType, RateError};
use lower::codec::{deserialize_rates, serialize_rates};

fn sample(lender: Option<&str>, rate: u32) -> LendingRates {
    LendingRates {
        lender: lender.map(|s| s.to_string()),
        term: 30,
        apr: 4179,
        discount_points: 1750,
        current_as_of_date: DateTime { year: 2022, month: 3, day: 16, hour: 15, minute: 40, second: 9 },
        loan_type: LoanType::Purchase,
        rate,
    }
}

#[test]
fn test_serialize_exact_text() {
    let records = vec![sample(Some("lower"), 3990)];
    let text = serialize_rates(&records);
    let expected = "[{\"lender\":\"lower\",\"term\":30,\"apr\":4.179,\"discountPoints\":1.750,\"currentAsOfDate\":\"2022-03-16T15:40:09\",\"loanType\":\"purchase\",\"rate\":3.990}]";
    assert_eq!(String::from_utf8(text).unwrap(), expected);
}

#[test]
fn test_serialize_empty_store() {
    let records: Vec<LendingRates> = Vec::new();
    assert_eq!(serialize_rates(&records), "[]".as_bytes().to_vec());
    assert_eq!(deserialize_rates("[]".as_bytes()), Ok(Vec::new()));
}

#[test]
fn test_round_trip() {
    let mut r2 = sample(None, 4125);
    r2.term = 15;
    r2.loan_type = LoanType::Refinance;
    r2.current_as_of_date = DateTime { year: 2023, month: 12, day: 1, hour: 0, minute: 0, second: 0 };
    let records = vec![sample(Some("lower"), 3990), r2, sample(Some("opendoor"), 4000)];
    let text = serialize_rates(&records);
    let reloaded = deserialize_rates(&text).unwrap();
    assert_eq!(reloaded, records);
    // The date text is reconstructed exactly.
    let text2 = serialize_rates(&reloaded);
    assert_eq!(text2, text);
    assert!(String::from_utf8(text).unwrap().contains("\"2022-03-16T15:40:09\""));
}

#[test]
fn test_deserialize_reads_lender_characters() {
    // The reloaded lender name must be rebuilt from the stored bytes.
    let text = "[{\"lender\":\"opendoor\",\"term\":20,\"apr\":4.179,\"discountPoints\":1.750,\"currentAsOfDate\":\"2022-03-16T15:40:09\",\"loanType\":\"refinance\",\"rate\":3.990}]";
    let records = deserialize_rates(text.as_bytes()).unwrap();
    assert_eq!(records.len(), 1);
    assert_eq!(records[0].lender, Some("opendoor".to_string()));
    assert_eq!(records[0].term, 20);
    assert_eq!(records[0].loan_type, LoanType::Refinance);
    assert_eq!(records[0].rate, 3990);
}

#[test]
fn test_deserialize_corrupt_store() {
    assert_eq!(deserialize_rates("".as_bytes()), Err(RateError::CorruptStore));
    assert_eq!(deserialize_rates("not json".as_bytes()), Err(RateError::CorruptStore));
    assert_eq!(deserialize_rates("[".as_bytes()), Err(RateError::CorruptStore));
    assert_eq!(deserialize_rates("[]x".as_bytes()), Err(RateError::CorruptStore));
    // A malformed date inside a record corrupts the store file.
    let bad = "[{\"lender\":null,\"term\":30,\"apr\":4.179,\"discountPoints\":1.750,\"currentAsOfDate\":\"2022-13-16T15:40:09\",\"loanType\":\"purchase\",\"rate\":3.990}]";
    assert_eq!(deserialize_rates(bad.as_bytes()), Err(RateError::CorruptStore));
}
