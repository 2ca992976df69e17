use trexanh::cache::Cache;
use trexanh::codec::CacheError;
use trexanh::models::{ContributionCalendar, ContributionDay, Week};

fn day(date: &str, count: u32) -> ContributionDay {
    ContributionDay { date: date.to_string(), contribution_count: count }
}

fn small_store() -> Cache {
    let mut cache = Cache::new();
    let cal = ContributionCalendar {
        weeks: vec![Week { contribution_days: vec![day("2024-01-01", 5)] }],
    };
    cache.insert_at("alice".to_string(), cal, "2024-05-01T10:00:00+00:00".to_string());
    cache
}

#[test]
fn save_empty_store_golden() {
    let cache = Cache::new();
    assert_eq!(cache.save(), "{\"entries\":{}}");
}

#[test]
fn save_one_entry_golden() {
    let cache = small_store();
    let expected = "{\"entries\":{\"alice\":{\"calendar\":{\"weeks\":[{\"contributionDays\":[{\"date\":\"2024-01-01\",\"contributionCount\":5}]}]},\"fetched_at\":\"2024-05-01T10:00:00+00:00\"}}}";
    assert_eq!(cache.save(), expected);
}

#[test]
fn load_save_round_trip_one_entry() {
    let cache = small_store();
    let text = cache.save();
    let loaded = Cache::load(Some(&text)).unwrap();
    assert_eq!(loaded.data, cache.data);
}

#[test]
fn load_save_round_trip_many_entries() {
    let mut cache = Cache::new();
    let cal1 = ContributionCalendar {
        weeks: vec![
            Week { contribution_days: vec![day("2023-12-31", 0), day("2024-01-01", 4294967295)] },
            Week { contribution_days: vec![] },
        ],
    };
    let cal2 = ContributionCalendar { weeks: vec![] };
    cache.insert_at("alice".to_string(), cal1, "2024-05-01T10:00:00+00:00".to_string());
    cache.insert_at("bob".to_string(), cal2, "2024-05-02T11:30:00+00:00".to_string());
    let text = cache.save();
    let loaded = Cache::load(Some(&text)).unwrap();
    assert_eq!(loaded.data, cache.data);
}

#[test]
fn load_save_round_trip_with_escapes() {
    let mut cache = Cache::new();
    let cal = ContributionCalendar { weeks: vec![] };
    cache.insert_at("a\"b\\c".to_string(), cal, "t\"s\\".to_string());
    let text = cache.save();
    let loaded = Cache::load(Some(&text)).unwrap();
    assert_eq!(loaded.data, cache.data);
    assert_eq!(loaded.data[0].0, "a\"b\\c");
}

#[test]
fn load_missing_file_yields_empty_store() {
    let loaded = Cache::load(None).unwrap();
    assert!(loaded.data.is_empty());
}

#[test]
fn load_rejects_garbage() {
    assert_eq!(Cache::load(Some("not a store")), Err(CacheError::CorruptCache));
}

#[test]
fn load_rejects_trailing_text() {
    assert_eq!(Cache::load(Some("{\"entries\":{}}x")), Err(CacheError::CorruptCache));
}

#[test]
fn load_rejects_truncated_document() {
    let cache = small_store();
    let text = cache.save();
    let cut = &text[..text.len() - 1];
    assert_eq!(Cache::load(Some(cut)), Err(CacheError::CorruptCache));
}

#[test]
fn load_rejects_duplicate_identities() {
    let text = "{\"entries\":{\"alice\":{\"calendar\":{\"weeks\":[]},\"fetched_at\":\"t1\"},\"alice\":{\"calendar\":{\"weeks\":[]},\"fetched_at\":\"t2\"}}}";
    assert_eq!(Cache::load(Some(text)), Err(CacheError::CorruptCache));
}

#[test]
fn load_rejects_count_above_u32() {
    let text = "{\"entries\":{\"alice\":{\"calendar\":{\"weeks\":[{\"contributionDays\":[{\"date\":\"2024-01-01\",\"contributionCount\":4294967296}]}]},\"fetched_at\":\"t\"}}}";
    assert_eq!(Cache::load(Some(text)), Err(CacheError::CorruptCache));
}

#[test]
fn load_reads_a_handwritten_document() {
    let text = "{\"entries\":{\"carol\":{\"calendar\":{\"weeks\":[{\"contributionDays\":[{\"date\":\"2024-02-29\",\"contributionCount\":12}]}]},\"fetched_at\":\"2024-03-01T00:00:00+00:00\"}}}";
    let loaded = Cache::load(Some(text)).unwrap();
    assert_eq!(loaded.data.len(), 1);
    assert_eq!(loaded.data[0].0, "carol");
    let entry = &loaded.data[0].1;
    assert_eq!(entry.fetched_at, "2024-03-01T00:00:00+00:00");
    assert_eq!(entry.calendar.weeks.len(), 1);
    let d = &entry.calendar.weeks[0].contribution_days[0];
    assert_eq!(d.date, "2024-02-29");
    assert_eq!(d.contribution_count, 12);
}
