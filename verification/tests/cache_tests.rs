use trexanh::cache::Cache;
use trexanh::models::{ContributionCalendar, ContributionDay, Week};

fn day(date: &str, count: u32) -> ContributionDay {
    ContributionDay { date: date.to_string(), contribution_count: count }
}

fn one_week_calendar(date: &str, count: u32) -> ContributionCalendar {
    ContributionCalendar { weeks: vec![Week { contribution_days: vec![day(date, count)] }] }
}

#[test]
fn insert_twice_then_get_yields_last() {
    let mut cache = Cache::new();
    let cal = one_week_calendar("2024-01-01", 5);
    cache.insert_at("alice".to_string(), cal.clone(), "2024-05-01T10:00:00+00:00".to_string());
    cache.insert_at("alice".to_string(), cal.clone(), "2024-05-01T11:00:00+00:00".to_string());
    assert_eq!(cache.data.len(), 1);
    let got = cache.get("alice");
    assert_eq!(got, Some(cal));
    assert_eq!(cache.data[0].1.fetched_at, "2024-05-01T11:00:00+00:00");
}

#[test]
fn get_missing_returns_none() {
    let cache = Cache::new();
    assert_eq!(cache.get("nobody"), None);
}

#[test]
fn insert_overwrites_in_place_and_keeps_others() {
    let mut cache = Cache::new();
    let a1 = one_week_calendar("2024-01-01", 1);
    let a2 = one_week_calendar("2024-02-01", 9);
    let b = one_week_calendar("2024-03-01", 3);
    cache.insert_at("alice".to_string(), a1, "t1".to_string());
    cache.insert_at("bob".to_string(), b.clone(), "t2".to_string());
    cache.insert_at("alice".to_string(), a2.clone(), "t3".to_string());
    assert_eq!(cache.data.len(), 2);
    assert_eq!(cache.data[0].0, "alice");
    assert_eq!(cache.data[1].0, "bob");
    assert_eq!(cache.get("alice"), Some(a2));
    assert_eq!(cache.get("bob"), Some(b));
}

#[test]
fn insert_stamps_with_the_clock() {
    let mut cache = Cache::new();
    let cal = one_week_calendar("2024-01-01", 2);
    cache.insert("alice".to_string(), cal.clone());
    assert_eq!(cache.get("alice"), Some(cal));
    assert_eq!(cache.data.len(), 1);
    assert!(!cache.data[0].1.fetched_at.is_empty());
}
