use urtrends::churn::{
    api_churn, api_country_stats, do_narrowed_totals_fit, does_total_fit, Churn, Volatility,
};
use urtrends::models::{Failure, HistoryPoint};

fn history(counts: &[i32]) -> Vec<HistoryPoint> {
    let mut points = Vec::new();
    for (i, count) in counts.iter().enumerate() {
        points.push(HistoryPoint { timestamp: format!("t{}", i), provider_count: *count });
    }
    points
}

fn churn(volatility: Volatility, total_change: i32, intervals: usize) -> Churn {
    Churn { volatility, total_change, intervals }
}

#[test]
fn statistics_need_two_points() {
    let none = churn(Volatility::NotAvailable, 0, 0);
    assert_eq!(api_country_stats(None), none);
    assert_eq!(api_country_stats(Some(history(&[]))), none);
    assert_eq!(api_country_stats(Some(history(&[7]))), none);
}

#[test]
fn statistics_add_up_changes() {
    assert_eq!(
        api_country_stats(Some(history(&[10, 13, 3, 3]))),
        churn(Volatility::Low, 13, 3)
    );
}

#[test]
fn volatility_goes_by_the_standard_deviation() {
    let level = |counts: &[i32]| api_country_stats(Some(history(counts))).volatility;
    assert_eq!(level(&[0, 50, 0]), Volatility::Low);
    assert_eq!(level(&[0, 51, 0]), Volatility::Medium);
    assert_eq!(level(&[0, -100, 0]), Volatility::Medium);
    assert_eq!(level(&[0, -101, 0]), Volatility::High);
    assert_eq!(level(&[0, 0, 200]), Volatility::Medium);
    assert_eq!(level(&[0, 0, 202]), Volatility::High);
    assert_eq!(level(&[7, 7, 7, 7, 107]), Volatility::Low);
    assert_eq!(level(&[7, 7, 7, 7, 127]), Volatility::Medium);
}

#[test]
fn a_steady_change_is_not_volatile() {
    let level = |counts: &[i32]| api_country_stats(Some(history(counts))).volatility;
    assert_eq!(level(&[0, 200, 400, 600]), Volatility::Low);
    assert_eq!(level(&[5, 5, 5, 5]), Volatility::Low);
    assert_eq!(level(&[900_000, 600_000, 300_000, 0]), Volatility::Low);
    assert_eq!(level(&[0, 1_000_000]), Volatility::Low);
}

#[test]
fn the_churn_rate_is_per_hour() {
    let stats = api_country_stats(Some(history(&[10, 13, 3, 3])));
    assert_eq!(stats.hourly_rate(), (52, 3));
    assert_eq!(api_churn(Some(history(&[0, 1, 1, 1]))).unwrap().churn.hourly_rate(), (4, 3));
    assert_eq!(api_country_stats(None).hourly_rate(), (0, 0));
    assert_eq!(churn(Volatility::Low, i32::MAX, 1).hourly_rate(), (8_589_934_588, 1));
}

#[test]
fn volatility_has_names() {
    assert_eq!(Volatility::NotAvailable.label(), "N/A");
    assert_eq!(Volatility::Low.label(), "low");
    assert_eq!(Volatility::Medium.label(), "medium");
    assert_eq!(Volatility::High.label(), "high");
}

#[test]
fn churn_shows_its_points() {
    let answer = api_churn(Some(history(&[5, 205]))).unwrap();
    assert_eq!(answer.churn, churn(Volatility::Low, 200, 1));
    assert_eq!(answer.data, history(&[5, 205]));
    let short = api_churn(Some(history(&[5]))).unwrap();
    assert_eq!(short.churn, churn(Volatility::NotAvailable, 0, 0));
    assert_eq!(short.data, history(&[5]));
    assert_eq!(api_churn(None), Err(Failure::Database));
}

#[test]
fn churn_and_statistics_agree() {
    for counts in [&[0, 1000, 3][..], &[4, 4, 4, 4], &[-9, 60, -70, 1], &[i32::MAX, 0], &[], &[1]] {
        let stats = api_country_stats(Some(history(counts)));
        assert_eq!(api_churn(Some(history(counts))).unwrap().churn, stats);
    }
}

#[test]
fn notices_sums_of_changes_that_do_not_fit() {
    assert!(does_total_fit(&history(&[i32::MAX, 0])));
    assert!(!does_total_fit(&history(&[i32::MAX, 0, 1])));
    assert!(!does_total_fit(&history(&[i32::MAX, -1])));
    assert!(does_total_fit(&history(&[])));
    assert!(do_narrowed_totals_fit(&history(&[i32::MAX, 0])));
    assert!(!do_narrowed_totals_fit(&history(&[i32::MAX, 0, 1])));
    assert!(do_narrowed_totals_fit(&history(&[i32::MAX, -1])));
}

#[test]
fn a_churn_change_keeps_its_low_bits() {
    let answer = api_churn(Some(history(&[i32::MAX, -1]))).unwrap();
    assert_eq!(answer.churn, churn(Volatility::Low, i32::MIN, 1));
    let answer = api_churn(Some(history(&[i32::MAX, i32::MIN]))).unwrap();
    assert_eq!(answer.churn, churn(Volatility::Low, -1, 1));
    let answer = api_churn(Some(history(&[i32::MAX, i32::MIN, i32::MAX]))).unwrap();
    assert_eq!(answer.churn, churn(Volatility::High, -2, 2));
}
