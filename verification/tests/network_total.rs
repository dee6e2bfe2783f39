use urtrends::models::Failure;
use urtrends::network::{api_network_total, quantize_max_points, NetworkCache, MOST_KEYS};

const SECOND: u64 = 1_000_000_000;

#[test]
fn quantizes_to_the_largest_bucket_below() {
    for (v, q) in [
        (i64::MIN, 500),
        (100, 500),
        (499, 500),
        (500, 500),
        (999, 500),
        (1000, 1000),
        (1499, 1000),
        (1500, 1500),
        (2000, 2000),
        (2999, 2000),
        (3000, 3000),
        (4999, 3000),
        (5000, 5000),
        (i64::MAX, 5000),
    ] {
        assert_eq!(quantize_max_points(v), q);
    }
}

#[test]
fn asks_for_thirty_days_by_default() {
    let query = api_network_total(None, None);
    assert_eq!(query.limit, Some(2880));
    assert_eq!(query.max_points, 2000);
    assert_eq!(query.cache_key, "30|2000");
    assert_eq!(api_network_total(Some("30"), Some("2000")), query);
    assert_eq!(api_network_total(Some("31"), Some("many")), query);
}

#[test]
fn asks_for_seven_days_or_all() {
    let week = api_network_total(Some("7"), Some("1234"));
    assert_eq!((week.limit, week.max_points), (Some(672), 1000));
    assert_eq!(week.cache_key, "7|1000");
    let all = api_network_total(Some("all"), Some("999999999999"));
    assert_eq!((all.limit, all.max_points), (None, 5000));
    assert_eq!(all.cache_key, "all|5000");
}

#[test]
fn bounds_the_number_of_points() {
    assert_eq!(api_network_total(None, Some("-5")).max_points, 500);
    assert_eq!(api_network_total(None, Some("")).max_points, 2000);
    assert_eq!(api_network_total(None, Some("9223372036854775808")).max_points, 2000);
    assert_eq!(api_network_total(None, Some("+3000")).max_points, 3000);
}

#[test]
fn gives_a_kept_answer_for_thirty_seconds() {
    let mut cache: NetworkCache<u32> = NetworkCache::new();
    let query = api_network_total(None, None);
    assert_eq!(cache.lookup(&query, 0), None);
    assert_eq!(cache.finish(api_network_total(None, None), 5 * SECOND, Some(7)), Ok(()));
    assert_eq!(cache.lookup(&query, 5 * SECOND), Some(&7));
    assert_eq!(cache.lookup(&query, 35 * SECOND - 1), Some(&7));
    assert_eq!(cache.lookup(&query, 35 * SECOND), None);
    assert_eq!(cache.lookup(&api_network_total(Some("7"), None), 5 * SECOND), None);
    assert_eq!(cache.finish(api_network_total(None, None), 40 * SECOND, Some(8)), Ok(()));
    assert_eq!(cache.lookup(&query, 40 * SECOND), Some(&8));
    assert_eq!(cache.len(), 1);
}

#[test]
fn a_failed_query_leaves_the_cache() {
    let mut cache: NetworkCache<u32> = NetworkCache::new();
    let query = api_network_total(None, None);
    assert_eq!(cache.finish(api_network_total(None, None), 0, Some(7)), Ok(()));
    assert_eq!(cache.finish(api_network_total(None, None), SECOND, None), Err(Failure::Database));
    assert_eq!(cache.lookup(&query, SECOND), Some(&7));
}

#[test]
fn keeps_few_answers_whatever_is_asked() {
    let mut cache: NetworkCache<usize> = NetworkCache::new();
    let ranges = ["7", "30", "all", "1", "365", "", "ALL", " 7"];
    for (i, range) in ranges.iter().enumerate() {
        for points in (0..6000).step_by(50) {
            let query = api_network_total(Some(range), Some(&points.to_string()));
            assert_eq!(cache.finish(query, 0, Some(i)), Ok(()));
        }
    }
    assert_eq!(cache.len(), MOST_KEYS);
}

#[test]
fn equal_keys_mean_equal_queries() {
    let mut queries = Vec::new();
    for range in [None, Some("7"), Some("all"), Some("x")] {
        for points in [None, Some("1"), Some("1700"), Some("1999"), Some("5000")] {
            queries.push(api_network_total(range, points));
        }
    }
    for a in &queries {
        for b in &queries {
            assert_eq!(a.cache_key == b.cache_key, a == b);
        }
    }
}
