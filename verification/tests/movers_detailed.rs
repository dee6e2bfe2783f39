use urtrends::models::{CountryCount, Failure};
use urtrends::movers::{
    api_movers_detailed, windows, Mover, MoversDetailedPast, DAY_WINDOW, LIST_LENGTH,
};

fn row(code: &str, count: i32) -> CountryCount {
    CountryCount {
        country_code: code.to_string(),
        country_name: format!("Name of {}", code),
        provider_count: count,
    }
}

fn ask(current: Vec<CountryCount>, fallback: Option<Vec<CountryCount>>) -> MoversDetailedPast {
    let asked = api_movers_detailed(Some("2026-05-24 22:15:00".to_string())).unwrap();
    asked.with_current(Some(current)).unwrap().with_fallback(fallback).unwrap()
}

fn day_ago(rows: Vec<CountryCount>) -> Vec<Option<Vec<CountryCount>>> {
    let mut past: Vec<Option<Vec<CountryCount>>> = (0..15).map(|_| None).collect();
    past[DAY_WINDOW] = Some(rows);
    past
}

fn codes(list: &[Mover]) -> Vec<&str> {
    list.iter().map(|m| m.code.as_str()).collect()
}

#[test]
fn has_fifteen_windows() {
    let table: Vec<(String, i32)> = windows().into_iter().map(|w| (w.name, w.minutes)).collect();
    let expected = [
        ("15m", 15),
        ("1h", 60),
        ("2h", 120),
        ("3h", 180),
        ("6h", 360),
        ("12h", 720),
        ("24h", 1440),
        ("2d", 2880),
        ("3d", 4320),
        ("4d", 5760),
        ("5d", 7200),
        ("6d", 8640),
        ("7d", 10080),
        ("14d", 20160),
        ("30d", 43200),
    ];
    assert_eq!(table.len(), expected.len());
    for (w, (name, minutes)) in table.iter().zip(expected) {
        assert_eq!((w.0.as_str(), w.1), (name, minutes));
    }
    assert_eq!(table[DAY_WINDOW].0, "24h");
}

#[test]
fn asks_for_the_start_of_each_window() {
    let asked = ask(vec![row("US", 1)], None);
    assert_eq!(asked.past_times.len(), 15);
    assert_eq!(asked.past_times[0], "2026-05-24 22:00:00");
    assert_eq!(asked.past_times[DAY_WINDOW], "2026-05-23 22:15:00");
    assert_eq!(asked.past_times[14], "2026-04-24 22:15:00");
}

#[test]
fn ranks_by_the_change_over_a_day_and_then_by_code() {
    let current =
        vec![row("US", 10), row("DE", 30), row("FR", 7), row("BR", 7), row("AR", 5), row("IT", 2)];
    let past = vec![row("US", 14), row("DE", 10), row("FR", 2), row("BR", 2), row("AR", 5)];
    let asked = ask(current, None);
    assert!(asked.deltas_fit(&day_ago(past.clone())));
    let answer = asked.finish(day_ago(past));
    assert_eq!(codes(&answer.gainers), vec!["DE", "BR", "FR", "AR", "IT", "US"]);
    assert_eq!(codes(&answer.losers), vec!["US", "AR", "IT", "BR", "FR", "DE"]);
    let de = &answer.gainers[0];
    assert_eq!((de.name.as_str(), de.current), ("Name of DE", 30));
    assert_eq!(de.deltas.len(), 15);
    assert_eq!(de.deltas[DAY_WINDOW], Some(20));
    assert_eq!(de.deltas[0], None);
    assert_eq!(answer.gainers[4].deltas[DAY_WINDOW], None);
    assert_eq!(de.day_delta(), 20);
    assert_eq!(answer.gainers[4].day_delta(), 0);
}

#[test]
fn the_order_of_the_rows_does_not_matter() {
    let mut current: Vec<CountryCount> = Vec::new();
    let mut past: Vec<CountryCount> = Vec::new();
    for i in 0..70 {
        current.push(row(&format!("C{:02}", i), 100 + (i * 37) % 11));
        past.push(row(&format!("C{:02}", i), 100));
    }
    let mut reversed = current.clone();
    reversed.reverse();
    let one = ask(current, None).finish(day_ago(past.clone()));
    let other = ask(reversed, None).finish(day_ago(past));
    assert_eq!(one, other);
    assert_eq!(one.gainers.len(), LIST_LENGTH);
    assert_eq!(one.losers.len(), LIST_LENGTH);
    let shown_last = one.gainers[LIST_LENGTH - 1].day_delta();
    let left_out = one.losers.iter().filter(|m| !codes(&one.gainers).contains(&m.code.as_str()));
    for m in left_out {
        assert!(m.day_delta() <= shown_last);
    }
}

#[test]
fn the_order_of_all_snapshots_does_not_matter() {
    let current = || vec![row("US", 5), row("DE", 9), row("FR", 5)];
    let fallback = || vec![row("IT", 4), row("US", 70), row("AR", 4), row("BR", 1)];
    let past = || vec![row("BR", 2), row("US", 2), row("DE", 6), row("IT", 8), row("AR", 8)];
    let turned = |mut rows: Vec<CountryCount>| {
        rows.reverse();
        rows
    };
    let one = ask(current(), Some(fallback())).finish(day_ago(past()));
    let other = ask(turned(current()), Some(turned(fallback()))).finish(day_ago(turned(past())));
    assert_eq!(one, other);
    assert_eq!(codes(&one.gainers), vec!["DE", "US", "FR", "BR", "AR", "IT"]);
}

#[test]
fn shows_each_code_once_with_its_last_row() {
    let answer = ask(vec![row("US", 1), row("DE", 2), row("US", 9)], None)
        .finish(day_ago(vec![row("US", 1)]));
    assert_eq!(codes(&answer.gainers), vec!["US", "DE"]);
    assert_eq!(answer.gainers[0].current, 9);
    assert_eq!(answer.gainers[0].deltas[DAY_WINDOW], Some(8));
}

#[test]
fn fills_an_incomplete_snapshot_up() {
    let asked = api_movers_detailed(Some("2026-05-24 22:15:00".to_string())).unwrap();
    let asked = asked.with_current(Some(vec![row("US", 1)])).unwrap();
    assert!(asked.wants_fallback());
    let asked = asked
        .with_fallback(Some(vec![row("US", 8), row("DE", 2), row("FR", 3), row("DE", 4)]))
        .unwrap();
    assert_eq!(asked.current, vec![row("US", 1), row("DE", 2), row("FR", 3), row("DE", 4)]);
}

#[test]
fn leaves_a_complete_snapshot_alone() {
    let rows: Vec<CountryCount> = (0..80).map(|i| row(&format!("C{}", i), i)).collect();
    let asked = api_movers_detailed(Some("2026-05-24 22:15:00".to_string())).unwrap();
    let asked = asked.with_current(Some(rows.clone())).unwrap();
    assert!(!asked.wants_fallback());
    assert_eq!(asked.with_fallback(Some(vec![row("US", 8)])).unwrap().current, rows);
}

#[test]
fn notices_changes_that_do_not_fit() {
    let asked = ask(vec![row("US", i32::MAX)], None);
    assert!(!asked.deltas_fit(&day_ago(vec![row("US", -1)])));
    assert!(asked.deltas_fit(&day_ago(vec![row("US", 0)])));
    assert!(asked.deltas_fit(&day_ago(vec![row("DE", -1)])));
}

#[test]
fn detailed_movers_fail_with_the_store() {
    assert_eq!(api_movers_detailed(None), Err(Failure::Database));
    let asked = api_movers_detailed(Some("2026-05-24 22:15:00".to_string())).unwrap();
    assert_eq!(asked.with_current(None), Err(Failure::Database));
    let asked = api_movers_detailed(Some("-262143-01-15 00:00:00".to_string())).unwrap();
    let asked = asked.with_current(Some(vec![])).unwrap();
    assert_eq!(asked.with_fallback(None), Err(Failure::ClockRange));
}
