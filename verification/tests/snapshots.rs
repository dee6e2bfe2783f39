use urtrends::countries::{api_comparison, api_country, api_top_countries, labelled_history};
use urtrends::models::{CountryCount, Failure, HistoryPoint};
use urtrends::regions::api_regions;
use urtrends::risk::api_at_risk;

fn row(code: &str, count: i32) -> CountryCount {
    CountryCount {
        country_code: code.to_string(),
        country_name: format!("Name of {}", code),
        provider_count: count,
    }
}

fn point(timestamp: &str, count: i32) -> HistoryPoint {
    HistoryPoint { timestamp: timestamp.to_string(), provider_count: count }
}

fn latest() -> Option<String> {
    Some("2026-05-24 22:15:00".to_string())
}

fn far() -> Option<String> {
    Some("-262143-01-01 00:00:00".to_string())
}

#[test]
fn finds_countries_at_risk() {
    let asked = api_at_risk(latest()).unwrap();
    assert_eq!(asked.latest, "2026-05-24 22:15:00");
    assert_eq!(asked.day_ago, "2026-05-23 22:15:00");
    let asked = asked
        .with_current(Some(vec![
            row("AA", 0),
            row("BB", 0),
            row("CC", 5),
            row("DD", 6),
            row("EE", 3),
            row("FF", 1),
            row("GG", 0),
            row("HH", -1),
        ]))
        .unwrap();
    assert_eq!(asked.day_ago, "2026-05-23 22:15:00");
    let answer = asked.finish(Some(vec![
        row("AA", 4),
        row("BB", 0),
        row("CC", 9),
        row("DD", 90),
        row("EE", 3),
        row("FF", 2),
        row("HH", 5),
    ]));
    assert_eq!(answer.disappeared, vec![row("AA", 0)]);
    assert_eq!(answer.near_zero, vec![row("CC", 5), row("FF", 1)]);
}

#[test]
fn none_is_at_risk_without_a_past() {
    let asked = api_at_risk(latest()).unwrap().with_current(Some(vec![row("AA", 0)])).unwrap();
    let answer = asked.finish(None);
    assert!(answer.disappeared.is_empty() && answer.near_zero.is_empty());
}

#[test]
fn the_last_row_of_a_code_counts() {
    let asked = api_at_risk(latest()).unwrap().with_current(Some(vec![row("AA", 0)])).unwrap();
    let answer = asked.finish(Some(vec![row("AA", 0), row("AA", 3)]));
    assert_eq!(answer.disappeared, vec![row("AA", 0)]);
}

#[test]
fn at_risk_fails_with_the_store() {
    assert_eq!(api_at_risk(None), Err(Failure::Database));
    assert_eq!(api_at_risk(far()), Err(Failure::ClockRange));
    assert_eq!(api_at_risk(latest()).unwrap().with_current(None), Err(Failure::Database));
}

#[test]
fn adds_up_regions() {
    let asked = api_regions(latest()).unwrap();
    assert_eq!(asked.day_ago, "2026-05-23 22:15:00");
    let asked = asked
        .with_current(Some(vec![row("DE", 40), row("US", 70), row("FR", 50), row("BR", 5)]))
        .unwrap();
    let asked = asked.with_nearest(Some("2026-05-23 22:00:00".to_string())).unwrap();
    assert_eq!(asked.past_at, "2026-05-23 22:00:00");
    let regions: Vec<String> = ["Europe", "North America", "Europe", "South America"]
        .iter()
        .map(|r| r.to_string())
        .collect();
    let past = vec![row("DE", 30), row("US", 100), row("FR", 45), row("XX", 9)];
    assert!(asked.sums_fit(&regions, &past));
    let answer = asked.finish(regions, Some(past)).unwrap();
    let shown: Vec<(&str, i32, i32)> =
        answer.iter().map(|r| (r.region.as_str(), r.total, r.delta_24h)).collect();
    assert_eq!(
        shown,
        vec![("Europe", 90, 15), ("North America", 70, -30), ("South America", 5, 0)]
    );
    assert_eq!(answer.iter().map(|r| r.total).sum::<i32>(), 40 + 70 + 50 + 5);
}

#[test]
fn regions_with_equal_totals_keep_their_order() {
    let asked = api_regions(latest()).unwrap().with_current(Some(vec![row("A", 3), row("B", 3)]));
    let asked = asked.unwrap().with_nearest(Some(String::new())).unwrap();
    let regions = vec!["South".to_string(), "North".to_string()];
    let answer = asked.finish(regions, Some(vec![])).unwrap();
    assert_eq!(answer[0].region, "South");
    assert_eq!(answer[1].region, "North");
}

#[test]
fn notices_sums_that_do_not_fit() {
    let current = vec![row("A", i32::MAX), row("B", 1)];
    let asked = api_regions(latest()).unwrap().with_current(Some(current)).unwrap();
    let asked = asked.with_nearest(Some(String::new())).unwrap();
    let one = vec!["R".to_string(), "R".to_string()];
    let two = vec!["R".to_string(), "S".to_string()];
    assert!(!asked.sums_fit(&one, &vec![]));
    assert!(asked.sums_fit(&two, &vec![]));
    assert!(!asked.sums_fit(&two, &vec![row("A", -1)]));
}

#[test]
fn regions_fail_with_the_store() {
    assert_eq!(api_regions(None), Err(Failure::Database));
    assert_eq!(api_regions(far()), Err(Failure::ClockRange));
    assert_eq!(api_regions(latest()).unwrap().with_current(None), Err(Failure::Database));
    let asked = api_regions(latest()).unwrap().with_current(Some(vec![])).unwrap();
    assert_eq!(asked.with_nearest(None), Err(Failure::Database));
    let asked = api_regions(latest()).unwrap().with_current(Some(vec![])).unwrap();
    let asked = asked.with_nearest(Some(String::new())).unwrap();
    assert_eq!(asked.finish(vec![], None), Err(Failure::Database));
}

#[test]
fn shows_the_five_largest_countries() {
    let asked = api_top_countries(latest()).unwrap();
    assert_eq!(asked.latest, "2026-05-24 22:15:00");
    let rows = vec![
        row("A", 5),
        row("B", 9),
        row("C", 5),
        row("D", 1),
        row("E", 9),
        row("F", 5),
        row("G", 7),
    ];
    let top = asked.finish(Some(rows)).unwrap();
    assert_eq!(top, vec![row("B", 9), row("E", 9), row("G", 7), row("A", 5), row("C", 5)]);
}

#[test]
fn shows_fewer_where_there_are_fewer() {
    let top = api_top_countries(latest()).unwrap().finish(Some(vec![row("A", -2), row("B", 0)]));
    assert_eq!(top, Ok(vec![row("B", 0), row("A", -2)]));
}

#[test]
fn top_countries_fail_with_the_store() {
    assert_eq!(api_top_countries(None), Err(Failure::Database));
    assert_eq!(api_top_countries(latest()).unwrap().finish(None), Err(Failure::Database));
}

#[test]
fn shows_a_history() {
    assert_eq!(api_country(Some(vec![point("t", 4)])), Ok(vec![point("t", 4)]));
    assert_eq!(api_country(None), Err(Failure::Database));
}

#[test]
fn compares_two_countries_in_upper_case() {
    let answer = api_comparison(
        "us",
        Some(vec![point("t1", 4), point("t2", 6)]),
        "stra\u{df}e",
        Some(vec![point("t3", 1)]),
    );
    let first: Vec<(&str, &str, i32)> =
        answer.data1.iter().map(|p| (p.timestamp.as_str(), p.code.as_str(), p.count)).collect();
    assert_eq!(first, vec![("t1", "US", 4), ("t2", "US", 6)]);
    assert_eq!(answer.data2.len(), 1);
    assert_eq!(answer.data2[0].code, "STRASSE");
}

#[test]
fn compares_with_nothing_where_a_query_failed() {
    let answer = api_comparison("us", None, "De", Some(vec![point("t", 2)]));
    assert!(answer.data1.is_empty());
    assert_eq!(answer.data2[0].code, "DE");
}

#[test]
fn labels_a_history() {
    let points = labelled_history("x", Some(vec![point("t", 2)]));
    assert_eq!(points.len(), 1);
    assert_eq!((points[0].timestamp.as_str(), points[0].count), ("t", 2));
    assert_eq!(points[0].code, "x");
    assert!(labelled_history("x", None).is_empty());
}
