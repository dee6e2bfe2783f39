use urtrends::changes::{api_anomalies, api_movers};
use urtrends::growth::{
    api_growth_projection, plan_growth, GrowthPlan, GrowthProjection, GrowthRate, GrowthReplies,
    WeightedGrowth,
};
use urtrends::live::{api_live_total, LiveTotal};
use urtrends::models::{CountryCount, Failure};
use urtrends::summary::{
    api_summary, AthAtl, SummaryCache, SummaryReplies, SummaryResponse, LARGEST_COUNTRIES,
};

fn latest() -> Option<String> {
    Some("2026-05-24 22:15:00".to_string())
}

fn far() -> Option<String> {
    Some("-262143-01-01 00:30:00".to_string())
}

fn no_replies() -> SummaryReplies {
    SummaryReplies {
        current_total: None,
        hour_ago_total: None,
        day_ago_total: None,
        week_ago_total: None,
        two_week_ago_total: None,
        top_10: None,
        hour_range: None,
        day_range: None,
        week_range: None,
        two_week_range: None,
        month_range: None,
        ath_atl: None,
    }
}

#[test]
fn the_summary_asks_for_five_times() {
    let asked = api_summary(latest()).unwrap();
    assert_eq!(asked.latest, "2026-05-24 22:15:00");
    assert_eq!(asked.hour_ago, "2026-05-24 21:15:00");
    assert_eq!(asked.day_ago, "2026-05-23 22:15:00");
    assert_eq!(asked.week_ago, "2026-05-17 22:15:00");
    assert_eq!(asked.two_week_ago, "2026-05-10 22:15:00");
    assert_eq!(asked.month_ago, "2026-04-24 22:15:00");
    assert_eq!(LARGEST_COUNTRIES, 10);
}

#[test]
fn the_summary_shows_changes_ranges_and_extremes() {
    let us = CountryCount {
        country_code: "US".to_string(),
        country_name: "United States".to_string(),
        provider_count: 22000,
    };
    let replies = SummaryReplies {
        current_total: Some(Some(65459)),
        hour_ago_total: Some(Some(65339)),
        day_ago_total: Some(Some(67459)),
        week_ago_total: Some(None),
        two_week_ago_total: None,
        top_10: Some(vec![us.clone()]),
        hour_range: Some((65500, 65300)),
        day_range: Some((67500, 65000)),
        week_range: None,
        two_week_range: Some((70000, 60000)),
        month_range: Some((71000, 59000)),
        ath_atl: Some(((80000, "a".to_string()), (100, "b".to_string()))),
    };
    assert!(replies.do_changes_fit());
    let answer = api_summary(latest()).unwrap().finish(replies);
    assert_eq!(
        answer,
        SummaryResponse {
            timestamp: "2026-05-24 22:15:00".to_string(),
            total: 65459,
            hour_delta: 120,
            day_delta: -2000,
            week_delta: 0,
            two_week_delta: 0,
            top_10: vec![us],
            hour_range: (65300, 65500),
            day_range: (65000, 67500),
            week_range: (0, 0),
            two_week_range: (60000, 70000),
            month_range: (59000, 71000),
            ath: AthAtl { value: 80000, timestamp: "a".to_string() },
            atl: AthAtl { value: 100, timestamp: "b".to_string() },
        }
    );
}

#[test]
fn the_summary_of_timestamps_with_a_t() {
    let asked = api_summary(Some("2026-05-24T22:15:00".to_string())).unwrap();
    assert_eq!(asked.hour_ago, "2026-05-24T21:15:00");
    assert_eq!(asked.day_ago, "2026-05-23T22:15:00");
    let total_at = |time: &str| match time {
        "2026-05-24T22:15:00" => Some(65459),
        "2026-05-24T21:15:00" => Some(65339),
        "2026-05-23T22:15:00" => Some(67459),
        _ => None,
    };
    let mut replies = no_replies();
    replies.current_total = Some(total_at(&asked.latest));
    replies.hour_ago_total = Some(total_at(&asked.hour_ago));
    replies.day_ago_total = Some(total_at(&asked.day_ago));
    let answer = asked.finish(replies);
    assert_eq!(answer.timestamp, "2026-05-24T22:15:00");
    assert_eq!((answer.total, answer.hour_delta, answer.day_delta), (65459, 120, -2000));
}

#[test]
fn the_summary_of_failed_queries() {
    let answer = api_summary(latest()).unwrap().finish(no_replies());
    assert_eq!(answer.total, 0);
    assert_eq!((answer.hour_delta, answer.two_week_delta), (0, 0));
    assert!(answer.top_10.is_empty());
    assert_eq!(answer.ath, AthAtl { value: 0, timestamp: "2026-05-24 22:15:00".to_string() });
    assert_eq!(answer.atl, answer.ath);
}

#[test]
fn an_earlier_total_without_a_current_one() {
    let mut replies = no_replies();
    replies.day_ago_total = Some(Some(12));
    assert_eq!(api_summary(latest()).unwrap().finish(replies).day_delta, -12);
}

#[test]
fn notices_summary_changes_that_do_not_fit() {
    let mut replies = no_replies();
    replies.current_total = Some(Some(i32::MAX));
    assert!(replies.do_changes_fit());
    replies.week_ago_total = Some(Some(-1));
    assert!(!replies.do_changes_fit());
}

#[test]
fn the_summary_fails_with_the_store() {
    assert_eq!(api_summary(None), Err(Failure::Database));
    assert_eq!(api_summary(far()), Err(Failure::ClockRange));
}

#[test]
fn a_summary_is_kept_for_thirty_seconds() {
    let answer = || api_summary(latest()).unwrap().finish(no_replies());
    let mut cache = SummaryCache::new();
    assert_eq!(cache.lookup(0), None);
    cache.store(1_000_000_000, answer());
    assert_eq!(cache.lookup(1_000_000_000), Some(&answer()));
    assert_eq!(cache.lookup(30_999_999_999), Some(&answer()));
    assert_eq!(cache.lookup(31_000_000_000), None);
    cache.store(31_000_000_000, answer());
    assert_eq!(cache.lookup(31_000_000_000), Some(&answer()));
}

fn totals(
    current: Option<i32>,
    past_1d: Option<i32>,
    past_3d: Option<i32>,
    past_7d: Option<i32>,
) -> GrowthReplies {
    GrowthReplies {
        current: Some(current),
        past_1d: Some(past_1d),
        past_3d: Some(past_3d),
        past_7d: Some(past_7d),
    }
}

fn linear(replies: GrowthReplies) -> GrowthProjection {
    assert!(replies.do_fit());
    match plan_growth(replies) {
        GrowthPlan::Linear(projection) => projection,
        GrowthPlan::Weighted(_) => panic!("weighted"),
    }
}

#[test]
fn the_projection_asks_for_three_times() {
    let asked = api_growth_projection(latest()).unwrap();
    assert_eq!(asked.latest, "2026-05-24 22:15:00");
    assert_eq!(asked.day_ago, "2026-05-23 22:15:00");
    assert_eq!(asked.three_days_ago, "2026-05-21 22:15:00");
    assert_eq!(asked.week_ago, "2026-05-17 22:15:00");
    assert_eq!(api_growth_projection(None), Err(Failure::Database));
    assert_eq!(api_growth_projection(far()), Err(Failure::ClockRange));
}

#[test]
fn projects_linearly_without_older_totals() {
    let p = linear(totals(Some(100), Some(90), None, Some(80)));
    assert_eq!(
        p,
        GrowthProjection {
            current: 100,
            daily_growth: 10,
            growth_rate: GrowthRate::Ratio { numerator: 10, denominator: 90 },
            projected_7d: 170,
            projected_14d: 240,
            projected_30d: 400,
            projected_90d: 1000,
            model: "linear-1d-fallback".to_string(),
        }
    );
    assert_eq!(linear(totals(Some(100), Some(90), Some(0), Some(80))), p);
    assert_eq!(linear(totals(Some(100), Some(90), Some(70), Some(0))), p);
    let failed = GrowthReplies {
        current: Some(Some(100)),
        past_1d: Some(Some(90)),
        past_3d: Some(Some(3)),
        past_7d: None,
    };
    assert_eq!(linear(failed), p);
}

#[test]
fn a_projection_never_falls_below_zero() {
    let p = linear(totals(Some(100), Some(110), None, None));
    assert_eq!((p.projected_7d, p.projected_14d, p.projected_30d, p.projected_90d), (30, 0, 0, 0));
    assert_eq!(p.growth_rate, GrowthRate::Ratio { numerator: -10, denominator: 110 });
}

#[test]
fn a_growth_rate_is_bounded() {
    let doubled = linear(totals(Some(100), Some(10), None, None));
    assert_eq!(doubled.growth_rate, GrowthRate::Ratio { numerator: 1, denominator: 1 });
    let gone = linear(totals(Some(-50), Some(10), None, None));
    assert_eq!(gone.growth_rate, GrowthRate::Ratio { numerator: -1, denominator: 1 });
    let from_none = linear(totals(Some(100), Some(0), None, None));
    assert_eq!(from_none.growth_rate, GrowthRate::Ratio { numerator: 0, denominator: 1 });
    assert_eq!(from_none.daily_growth, 100);
}

#[test]
fn no_growth_without_a_total_a_day_ago() {
    let p = linear(totals(Some(100), None, None, None));
    assert_eq!((p.daily_growth, p.projected_7d, p.projected_90d), (0, 100, 100));
    let empty = GrowthReplies { current: None, past_1d: None, past_3d: None, past_7d: None };
    let empty = linear(empty);
    assert_eq!((empty.current, empty.projected_90d), (0, 0));
}

#[test]
fn projects_with_weights_where_it_can() {
    let replies = totals(Some(100), Some(90), Some(80), Some(70));
    let expected = WeightedGrowth { current: 100, past_3d: 80, past_7d: 70, daily_growth: 10 };
    assert_eq!(plan_growth(replies), GrowthPlan::Weighted(expected));
    let p = expected.finish(140, 200, -3, 0);
    assert_eq!(
        p,
        GrowthProjection {
            current: 100,
            daily_growth: 10,
            growth_rate: GrowthRate::Weighted,
            projected_7d: 140,
            projected_14d: 200,
            projected_30d: 0,
            projected_90d: 0,
            model: "weighted-exponential".to_string(),
        }
    );
    let none_now = totals(Some(0), None, Some(80), Some(70));
    assert!(matches!(plan_growth(none_now), GrowthPlan::Linear(_)));
}

#[test]
fn notices_projections_that_do_not_fit() {
    assert!(!totals(Some(i32::MAX), Some(-1), Some(1), Some(1)).do_fit());
    assert!(totals(Some(i32::MAX), Some(0), Some(1), Some(1)).do_fit());
    assert!(!totals(Some(i32::MAX), Some(0), None, Some(1)).do_fit());
    assert!(!totals(Some(30_000_000), Some(0), None, None).do_fit());
    assert!(totals(Some(20_000_000), Some(0), None, None).do_fit());
}

#[test]
fn shows_the_live_total() {
    let live = |timestamp: &str, total: i32| {
        Ok(LiveTotal { timestamp: timestamp.to_string(), total })
    };
    assert_eq!(api_live_total(Some(Some(("t".to_string(), Some(5))))), live("t", 5));
    assert_eq!(api_live_total(Some(Some(("t".to_string(), None)))), live("t", 0));
    assert_eq!(api_live_total(Some(None)), live("", 0));
    assert_eq!(api_live_total(None), Err(Failure::Database));
}

#[test]
fn shows_gains_before_losses() {
    let asked = api_anomalies(latest()).unwrap();
    assert_eq!(asked.latest, "2026-05-24 22:15:00");
    assert_eq!(asked.hour_ago, "2026-05-24 21:15:00");
    assert_eq!(asked.finish(Some((vec![3, 1], vec![2]))), Ok(vec![3, 1, 2]));
    let asked = api_anomalies(latest()).unwrap();
    assert_eq!(asked.finish::<i32>(None), Err(Failure::Database));
    assert_eq!(api_anomalies(None), Err(Failure::Database));
    assert_eq!(api_anomalies(far()), Err(Failure::ClockRange));
}

#[test]
fn shows_movers_of_three_spans() {
    let asked = api_movers(latest()).unwrap();
    assert_eq!(asked.hour_ago, "2026-05-24 21:15:00");
    assert_eq!(asked.day_ago, "2026-05-23 22:15:00");
    assert_eq!(asked.week_ago, "2026-05-17 22:15:00");
    let answer = asked.finish(Some((vec![1], vec![2])), None, Some((vec![], vec![3, 4])));
    assert_eq!((answer.hour.gainers, answer.hour.losers), (vec![1], vec![2]));
    assert!(answer.day.gainers.is_empty() && answer.day.losers.is_empty());
    assert_eq!((answer.week.gainers, answer.week.losers), (vec![], vec![3, 4]));
    assert_eq!(api_movers(None), Err(Failure::Database));
    assert_eq!(api_movers(far()), Err(Failure::ClockRange));
}
