use lower::record::{DateTime, LendingRates, LoanType, RateError, ValueField};
use lower::store::ingest;
use lower::series::extract;
use lower::bounds::{compute_bounds, min_max, AxisBounds};
use lower::codec::{format_date, parse_date};

fn dt(year: u16, month: u8, day: u8, hour: u8, minute: u8, second: u8) -> DateTime {
    DateTime { year, month, day, hour, minute, second }
}

fn rec(lender: Option<&str>, term: u8, loan_type: LoanType, rate: u32, date: DateTime) -> LendingRates {
    LendingRates {
        lender: lender.map(|s| s.to_string()),
        term,
        apr: rate + 100,
        discount_points: 1750,
        current_as_of_date: date,
        loan_type,
        rate,
    }
}

#[test]
fn test_date_parsing() {
    let d = parse_date("2022-03-16T15:40:09".as_bytes());
    assert_eq!(d, Ok(dt(2022, 03, 16, 15, 40, 09)));
}

#[test]
fn test_date_format_round_trip() {
    let d = dt(2022, 3, 16, 15, 40, 9);
    let text = format_date(&d);
    assert_eq!(text, "2022-03-16T15:40:09".as_bytes().to_vec());
    assert_eq!(parse_date(&text), Ok(d));
}

#[test]
fn test_date_malformed() {
    assert_eq!(parse_date("2022-03-16".as_bytes()), Err(RateError::MalformedDate));
    assert_eq!(parse_date("2022-03-16 15:40:09".as_bytes()), Err(RateError::MalformedDate));
    assert_eq!(parse_date("2022-02-30T00:00:00".as_bytes()), Err(RateError::MalformedDate));
    assert_eq!(parse_date("".as_bytes()), Err(RateError::MalformedDate));
}

#[test]
fn test_ingest_empty_store_then_idempotent() {
    // Store empty; one batch dated 2022-03-16 from lender "x", rate 4.0.
    let batch = vec![rec(Some("x"), 30, LoanType::Purchase, 4000, dt(2022, 3, 16, 15, 40, 9))];
    let filter = String::from("x");
    let (store, appended) = ingest(Vec::new(), batch.clone(), &filter);
    assert!(appended);
    assert_eq!(store.len(), 1);
    assert_eq!(store[0].rate, 4000);
    // The same batch again: nothing appended, still one record.
    let (store, appended) = ingest(store, batch, &filter);
    assert!(!appended);
    assert_eq!(store.len(), 1);
}

#[test]
fn test_ingest_empty_batch() {
    let existing = vec![rec(Some("x"), 30, LoanType::Purchase, 4000, dt(2022, 3, 16, 0, 0, 0))];
    let filter = String::from("x");
    let (store, appended) = ingest(existing.clone(), Vec::new(), &filter);
    assert!(!appended);
    assert_eq!(store, existing);
}

#[test]
fn test_ingest_preserves_existing_on_duplicate_date() {
    let existing = vec![rec(Some("x"), 30, LoanType::Purchase, 4000, dt(2022, 3, 16, 9, 0, 0))];
    // Same calendar date, different time of day: the batch is discarded whole.
    let batch = vec![
        rec(Some("x"), 30, LoanType::Purchase, 4125, dt(2022, 3, 16, 18, 0, 0)),
        rec(Some("x"), 15, LoanType::Purchase, 3125, dt(2022, 3, 16, 18, 0, 0)),
    ];
    let filter = String::from("x");
    let (store, appended) = ingest(existing.clone(), batch, &filter);
    assert!(!appended);
    assert_eq!(store, existing);
}

#[test]
fn test_ingest_filters_by_lender_and_appends_whole_batch() {
    let existing = vec![rec(Some("x"), 30, LoanType::Purchase, 4000, dt(2022, 3, 15, 0, 0, 0))];
    let batch = vec![
        rec(Some("x"), 30, LoanType::Purchase, 4125, dt(2022, 3, 16, 0, 0, 0)),
        rec(Some("y"), 30, LoanType::Purchase, 4250, dt(2022, 3, 16, 0, 0, 0)),
        rec(None, 30, LoanType::Purchase, 4375, dt(2022, 3, 16, 0, 0, 0)),
        rec(Some("x"), 15, LoanType::Refinance, 3125, dt(2022, 3, 16, 0, 0, 0)),
    ];
    let filter = String::from("x");
    let (store, appended) = ingest(existing, batch, &filter);
    assert!(appended);
    // Both lender-x records of the batch, in batch order, after the existing one.
    assert_eq!(store.len(), 3);
    assert_eq!(store[1].rate, 4125);
    assert_eq!(store[2].rate, 3125);
}

#[test]
fn test_extract_by_term() {
    // Two records: term 30 Purchase rate 3.5, term 15 Purchase rate 3.0.
    let records = vec![
        rec(Some("x"), 30, LoanType::Purchase, 3500, dt(2022, 3, 16, 0, 0, 0)),
        rec(Some("x"), 15, LoanType::Purchase, 3000, dt(2022, 3, 16, 0, 0, 0)),
    ];
    let series = extract(&records, 30, LoanType::Purchase, ValueField::Rate);
    assert_eq!(series.len(), 1);
    assert_eq!(series[0].1, 3500);
    assert_eq!(series[0].0.day, 16);
}

#[test]
fn test_extract_no_match_is_empty() {
    let records = vec![rec(Some("x"), 30, LoanType::Purchase, 3500, dt(2022, 3, 16, 0, 0, 0))];
    let series = extract(&records, 20, LoanType::Refinance, ValueField::Apr);
    assert!(series.is_empty());
}

#[test]
fn test_extract_apr_field_and_order() {
    let records = vec![
        rec(Some("x"), 30, LoanType::Refinance, 3500, dt(2022, 3, 16, 0, 0, 0)),
        rec(Some("x"), 30, LoanType::Purchase, 3600, dt(2022, 3, 17, 0, 0, 0)),
        rec(Some("x"), 30, LoanType::Refinance, 3700, dt(2022, 3, 18, 0, 0, 0)),
    ];
    let series = extract(&records, 30, LoanType::Refinance, ValueField::Apr);
    assert_eq!(series.len(), 2);
    assert_eq!(series[0].1, 3600);
    assert_eq!(series[1].1, 3800);
    assert_eq!(series[0].0.day, 16);
    assert_eq!(series[1].0.day, 18);
}

#[test]
fn test_min_max() {
    let d = lower::record::Date { year: 2022, month: 3, day: 16 };
    let series = vec![(d, 4875u32), (d, 3125u32), (d, 4000u32)];
    assert_eq!(min_max(&series), (3125, 4875));
}

#[test]
fn test_compute_bounds_eighths() {
    // Values 3.125 and 4.875 at granularity 8: floor(3.125) * 8 = 24,
    // ceil(4.875) * 8 = 40, so ticks run from 3.0 to 5.0 in 0.125 steps.
    let d = lower::record::Date { year: 2022, month: 3, day: 16 };
    let series = vec![vec![(d, 3125u32)], vec![(d, 4875u32)]];
    let b = compute_bounds(&series, 8).unwrap();
    assert_eq!(b, AxisBounds { min: 24, max: 40, granularity: 8 });
}

#[test]
fn test_compute_bounds_quarters_exact_top() {
    // A whole-number maximum stays on its own tick: ceil(5.000) * 4 = 20.
    let d = lower::record::Date { year: 2022, month: 3, day: 16 };
    let series = vec![vec![(d, 5000u32), (d, 3250u32)]];
    let b = compute_bounds(&series, 4).unwrap();
    assert_eq!(b, AxisBounds { min: 12, max: 20, granularity: 4 });
}

#[test]
fn test_compute_bounds_empty_domain() {
    let series: Vec<Vec<(lower::record::Date, u32)>> = vec![Vec::new(), Vec::new()];
    assert_eq!(compute_bounds(&series, 8), Err(RateError::EmptyDomain));
    let none: Vec<Vec<(lower::record::Date, u32)>> = Vec::new();
    assert_eq!(compute_bounds(&none, 8), Err(RateError::EmptyDomain));
}
