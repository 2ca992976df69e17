use trexanh::background::refresh_command_args;
use trexanh::watch::{RefreshPolicy, WatchAction, WatchState, Watcher};

fn policy(threshold: u64) -> RefreshPolicy {
    RefreshPolicy { interval_secs: 60, staleness_threshold_secs: threshold }
}

#[test]
fn first_tick_refreshes_when_cached_data_is_stale() {
    // fetched ten minutes ago, stale after five: the first tick fetches
    let now: u64 = 1_000_000;
    let mut w = Watcher::new(policy(300), Some(now - 600));
    assert_eq!(w.on_tick(now), WatchAction::StartFetch);
    assert_eq!(w.state, WatchState::Refreshing);
}

#[test]
fn first_tick_waits_when_cached_data_is_fresh() {
    // fetched ten minutes ago, stale only after fifteen: no fetch
    let now: u64 = 1_000_000;
    let mut w = Watcher::new(policy(900), Some(now - 600));
    assert_eq!(w.on_tick(now), WatchAction::Nothing);
    assert_eq!(w.state, WatchState::Idle);
}

#[test]
fn tick_fetches_when_nothing_was_ever_fetched() {
    let mut w = Watcher::new(policy(900), None);
    assert_eq!(w.on_tick(5), WatchAction::StartFetch);
}

#[test]
fn tick_does_nothing_while_a_fetch_is_running() {
    let now: u64 = 1_000_000;
    let mut w = Watcher::new(policy(300), None);
    assert_eq!(w.on_tick(now), WatchAction::StartFetch);
    assert_eq!(w.on_tick(now + 1), WatchAction::Nothing);
    assert_eq!(w.state, WatchState::Refreshing);
}

#[test]
fn successful_fetch_updates_and_redraws() {
    let now: u64 = 1_000_000;
    let mut w = Watcher::new(policy(300), None);
    w.on_tick(now);
    assert_eq!(w.on_fetch_result(true, now + 2), WatchAction::Redraw);
    assert_eq!(w.state, WatchState::Idle);
    assert_eq!(w.last_update, Some(now + 2));
    // right after a successful fetch the data is fresh again
    assert_eq!(w.on_tick(now + 3), WatchAction::Nothing);
}

#[test]
fn failed_fetch_keeps_prior_state_and_stays_quiet() {
    let now: u64 = 1_000_000;
    let mut w = Watcher::new(policy(300), Some(now - 600));
    w.on_tick(now);
    assert_eq!(w.on_fetch_result(false, now + 2), WatchAction::Nothing);
    assert_eq!(w.state, WatchState::Idle);
    assert_eq!(w.last_update, Some(now - 600));
}

#[test]
fn resize_redraws_and_quit_exits() {
    let w = Watcher::new(policy(300), None);
    assert_eq!(w.on_resize(), WatchAction::Redraw);
    assert_eq!(w.on_quit(), WatchAction::Exit);
}

#[test]
fn cached_entry_age_drives_the_first_tick() {
    // a cache entry for alice fetched ten minutes before `now`; its stamp
    // seeds the controller the way the watch loop is started
    let mut cache = trexanh::cache::Cache::new();
    let cal = trexanh::models::ContributionCalendar { weeks: vec![] };
    cache.insert_at("alice".to_string(), cal, "2024-05-01T10:00:00+00:00".to_string());
    let stamp = chrono::DateTime::parse_from_rfc3339(&cache.data[0].1.fetched_at)
        .unwrap()
        .timestamp() as u64;
    let now = stamp + 600;
    let mut fast = Watcher::new(policy(300), Some(stamp));
    assert_eq!(fast.on_tick(now), WatchAction::StartFetch);
    let mut slow = Watcher::new(policy(900), Some(stamp));
    assert_eq!(slow.on_tick(now), WatchAction::Nothing);
}

#[test]
fn refresher_arguments_name_the_hidden_flag_and_identity() {
    let args = refresh_command_args("alice");
    assert_eq!(args.len(), 2);
    assert_eq!(args[0], "--update-cache");
    assert_eq!(args[1], "alice");
}
