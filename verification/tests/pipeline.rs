use travel_time_analysis::anomaly_detector::{detect_anomalies, percentile};
use travel_time_analysis::data_processor::{
    aggregate_daily, clean_data, parse_data, parse_i32, process_data, sort_by_date, CleanSample,
    DailyAggregate, Date, RawRecord, Timestamp,
};
use travel_time_analysis::errors::AppError;
use travel_time_analysis::ratio::Ratio;

fn date(year: i32, month: u32, day: u32) -> Date {
    Date { year, month, day }
}

fn ts(year: i32, month: u32, day: u32, hour: u32) -> Timestamp {
    Timestamp { year, month, day, hour, minute: 0, second: 0 }
}

fn agg(d: Date, value_sum: i128, sample_count: usize) -> DailyAggregate {
    DailyAggregate { date: d, value_sum, sample_count }
}

#[test]
fn parse_i32_accepts_plain_integers() {
    assert_eq!(parse_i32("0"), Some(0));
    assert_eq!(parse_i32("123"), Some(123));
    assert_eq!(parse_i32("+7"), Some(7));
    assert_eq!(parse_i32("-42"), Some(-42));
    assert_eq!(parse_i32("2147483647"), Some(i32::MAX));
    assert_eq!(parse_i32("-2147483648"), Some(i32::MIN));
}

#[test]
fn parse_i32_rejects_malformed_and_out_of_range() {
    assert_eq!(parse_i32(""), None);
    assert_eq!(parse_i32("+"), None);
    assert_eq!(parse_i32("-"), None);
    assert_eq!(parse_i32("1.5"), None);
    assert_eq!(parse_i32(" 1"), None);
    assert_eq!(parse_i32("abc"), None);
    assert_eq!(parse_i32("12x"), None);
    assert_eq!(parse_i32("2147483648"), None);
    assert_eq!(parse_i32("-2147483649"), None);
    assert_eq!(parse_i32("99999999999999999999"), None);
}

#[test]
fn clean_data_keeps_well_formed_rows_and_counts_drops() {
    let records = vec![
        RawRecord { timestamp: "2023-01-01 10:00:00".to_string(), value: Some(10) },
        RawRecord { timestamp: "not a date".to_string(), value: Some(5) },
        RawRecord { timestamp: "2023-01-01 11:00:00".to_string(), value: None },
        RawRecord { timestamp: "2023-01-02 09:30:15".to_string(), value: Some(7) },
    ];
    let n = records.len();
    let (cleaned, dropped) = clean_data(records);
    assert_eq!(cleaned.len(), 2);
    assert_eq!(dropped, 2);
    assert_eq!(cleaned.len() + dropped, n);
    assert_eq!(cleaned[0].timestamp.date(), date(2023, 1, 1));
    assert_eq!(cleaned[0].value, 10);
    assert_eq!(cleaned[1].timestamp, Timestamp {
        year: 2023,
        month: 1,
        day: 2,
        hour: 9,
        minute: 30,
        second: 15,
    });
    assert_eq!(cleaned[1].value, 7);
}

#[test]
fn aggregate_daily_empty_input_yields_empty_output() {
    let empty: Vec<CleanSample> = Vec::new();
    let out = aggregate_daily(&empty);
    assert!(out.is_empty());
}

#[test]
fn aggregate_daily_single_sample_day_keeps_its_value() {
    let samples = vec![CleanSample { timestamp: ts(2023, 5, 4, 12), value: 37 }];
    let out = aggregate_daily(&samples);
    assert_eq!(out.len(), 1);
    assert_eq!(out[0], agg(date(2023, 5, 4), 37, 1));
}

#[test]
fn aggregate_daily_sums_and_counts_per_date() {
    let samples = vec![
        CleanSample { timestamp: ts(2023, 1, 1, 8), value: 10 },
        CleanSample { timestamp: ts(2023, 1, 2, 9), value: 1000 },
        CleanSample { timestamp: ts(2023, 1, 1, 17), value: 20 },
    ];
    let mut out = aggregate_daily(&samples);
    sort_by_date(&mut out);
    assert_eq!(out, vec![agg(date(2023, 1, 1), 30, 2), agg(date(2023, 1, 2), 1000, 1)]);
    // avg_value * count == sum of contributing values, exactly.
    assert_eq!(out[0].value_sum as f64 / out[0].sample_count as f64 * 2.0, 30.0);
}

#[test]
fn sort_by_date_orders_chronologically() {
    let mut data = vec![
        agg(date(2024, 2, 1), 5, 1),
        agg(date(2023, 12, 31), 4, 1),
        agg(date(2024, 1, 15), 3, 1),
    ];
    sort_by_date(&mut data);
    assert_eq!(data[0].date, date(2023, 12, 31));
    assert_eq!(data[1].date, date(2024, 1, 15));
    assert_eq!(data[2].date, date(2024, 2, 1));
}

#[test]
fn percentile_empty_input_is_an_explicit_error() {
    let empty: Vec<Ratio> = Vec::new();
    let r = percentile(&empty, 1, 4);
    assert!(matches!(r, Err(AppError::DataProcessingError(_))));
}

#[test]
fn percentile_picks_nearest_rank_element() {
    let values: Vec<Ratio> = [15, 1000, 12, 8].iter().map(|&n| Ratio::new(n, 1)).collect();
    // floor(0.25 * 3) = 0 and floor(0.75 * 3) = 2, over the order given.
    assert_eq!(percentile(&values, 1, 4).unwrap(), Ratio::new(15, 1));
    assert_eq!(percentile(&values, 3, 4).unwrap(), Ratio::new(12, 1));
    // A single element is every quantile.
    let one = vec![Ratio::new(99, 1)];
    assert_eq!(percentile(&one, 3, 4).unwrap(), Ratio::new(99, 1));
}

#[test]
fn detect_anomalies_empty_input_is_an_explicit_error() {
    let empty: Vec<DailyAggregate> = Vec::new();
    let r = detect_anomalies(&empty, Ratio::new(3, 2));
    assert!(matches!(r, Err(AppError::DataProcessingError(_))));
}

#[test]
fn detect_anomalies_end_to_end_example() {
    // Averages 15, 1000, 12, 8 in date order; with k = 3/2 the quartiles are
    // q1 = 15 and q3 = 12, so the fence is [19.5, 7.5] and every single day
    // falls outside it.
    let mut data = vec![
        agg(date(2023, 1, 2), 1000, 1),
        agg(date(2023, 1, 1), 30, 2),
        agg(date(2023, 1, 4), 8, 1),
        agg(date(2023, 1, 3), 12, 1),
    ];
    sort_by_date(&mut data);
    let anomalies = detect_anomalies(&data, Ratio::new(3, 2)).unwrap();
    assert_eq!(anomalies.len(), 4);
    assert_eq!(anomalies[0].date, date(2023, 1, 1));
    assert_eq!(anomalies[1].date, date(2023, 1, 2));
    assert_eq!(anomalies[2].date, date(2023, 1, 3));
    assert_eq!(anomalies[3].date, date(2023, 1, 4));
}

#[test]
fn detect_anomalies_flags_only_outliers_and_keeps_order() {
    // Averages 10, 10, 10, 10, 1000: q1 = 10, q3 = 10, fence collapses to
    // [10, 10], so only the last day is anomalous.
    let data = vec![
        agg(date(2023, 3, 1), 10, 1),
        agg(date(2023, 3, 2), 10, 1),
        agg(date(2023, 3, 3), 10, 1),
        agg(date(2023, 3, 4), 10, 1),
        agg(date(2023, 3, 5), 1000, 1),
    ];
    let anomalies = detect_anomalies(&data, Ratio::new(3, 2)).unwrap();
    assert_eq!(anomalies.len(), 1);
    assert_eq!(anomalies[0], agg(date(2023, 3, 5), 1000, 1));
}

#[test]
fn detect_anomalies_is_deterministic() {
    let data = vec![
        agg(date(2023, 1, 1), 30, 2),
        agg(date(2023, 1, 2), 1000, 1),
        agg(date(2023, 1, 3), 12, 1),
    ];
    let first = detect_anomalies(&data, Ratio::new(3, 2)).unwrap();
    let second = detect_anomalies(&data, Ratio::new(3, 2)).unwrap();
    assert_eq!(first, second);
}

#[test]
fn parse_data_reads_header_and_rows() {
    let text = "timestamp,value\n2023-01-01 10:00:00,10\n2023-01-01 11:00:00,\n";
    let records = parse_data(text).unwrap();
    assert_eq!(records.len(), 2);
    assert_eq!(records[0].timestamp, "2023-01-01 10:00:00");
    assert_eq!(records[0].value, Some(10));
    assert_eq!(records[1].value, None);
}

#[test]
fn parse_data_respects_header_column_order() {
    let text = "value,timestamp\n10,2023-01-01 10:00:00\n";
    let records = parse_data(text).unwrap();
    assert_eq!(records.len(), 1);
    assert_eq!(records[0].timestamp, "2023-01-01 10:00:00");
    assert_eq!(records[0].value, Some(10));
}

#[test]
fn parse_data_empty_input_yields_no_records() {
    assert_eq!(parse_data("").unwrap().len(), 0);
    assert_eq!(parse_data("timestamp,value\n").unwrap().len(), 0);
}

#[test]
fn parse_data_rejects_missing_column() {
    let text = "time,value\n2023-01-01 10:00:00,10\n";
    assert!(matches!(parse_data(text), Err(AppError::CsvError(_))));
}

#[test]
fn parse_data_rejects_duplicated_column() {
    let text = "timestamp,timestamp,value\n2023-01-01 10:00:00,2023-01-01 11:00:00,10\n";
    assert!(matches!(parse_data(text), Err(AppError::CsvError(_))));
}

#[test]
fn parse_data_rejects_unparsable_value_field() {
    let text = "timestamp,value\n2023-01-01 10:00:00,ten\n";
    assert!(matches!(parse_data(text), Err(AppError::CsvError(_))));
}

#[test]
fn process_data_rejects_ragged_rows() {
    let text = "timestamp,value\n2023-01-01 10:00:00,10,extra\n";
    assert!(matches!(process_data(text), Err(AppError::CsvError(_))));
}

#[test]
fn process_data_aggregates_and_reports_drops() {
    let text = "timestamp,value\n2023-01-01 08:00:00,10\n2023-01-01 20:00:00,20\nyesterday,5\n2023-01-02 12:00:00,\n2023-01-02 12:30:00,1000\n";
    let (mut aggregates, dropped) = process_data(text).unwrap();
    assert_eq!(dropped, 2);
    sort_by_date(&mut aggregates);
    assert_eq!(aggregates, vec![agg(date(2023, 1, 1), 30, 2), agg(date(2023, 1, 2), 1000, 1)]);
}

#[test]
fn process_data_full_run_matches_hand_computed_fence() {
    let text = "timestamp,value\n2023-01-01 08:00:00,10\n2023-01-01 20:00:00,20\n2023-01-02 12:00:00,1000\n2023-01-03 12:00:00,12\n2023-01-04 12:00:00,8\n";
    let (mut aggregates, dropped) = process_data(text).unwrap();
    assert_eq!(dropped, 0);
    sort_by_date(&mut aggregates);
    let averages: Vec<f64> = aggregates
        .iter()
        .map(|a| a.value_sum as f64 / a.sample_count as f64)
        .collect();
    assert_eq!(averages, vec![15.0, 1000.0, 12.0, 8.0]);
    let anomalies = detect_anomalies(&aggregates, Ratio::new(3, 2)).unwrap();
    assert_eq!(anomalies.len(), 4);
}

#[test]
fn date_string_is_zero_padded() {
    assert_eq!(date(2023, 1, 1).date_string(), "2023-01-01");
    assert_eq!(date(987, 11, 30).date_string(), "0987-11-30");
    assert_eq!(date(0, 2, 9).date_string(), "0000-02-09");
}

#[test]
fn app_error_messages_carry_their_text() {
    let e = AppError::DataProcessingError("no rows".to_string());
    assert_eq!(e.message(), "no rows");
}
