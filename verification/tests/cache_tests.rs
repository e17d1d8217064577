use nice_hand_core::api::cache::{AnalysisCache, StateSignature};
use nice_hand_core::api::web_api::WebGameState;

fn signature(pot: u32) -> StateSignature {
    let web_state = WebGameState {
        hole_cards: [0, 1],
        board: vec![],
        street: 0,
        pot,
        stacks: vec![1000, 1000],
        alive_players: vec![0, 1],
        street_investments: vec![50, 100],
        to_call: 100,
        player_to_act: 0,
        hero_position: 0,
        betting_history: vec![],
    };
    StateSignature::from_web_state(&web_state)
}

#[test]
fn stored_result_is_read_back() {
    let mut cache: AnalysisCache<String> = AnalysisCache::new(10, 100, 50, 0);
    let a = signature(150);
    assert_eq!(cache.lookup(&a, 5), None);
    cache.cache_result(a, "first".to_string(), 10);
    assert_eq!(cache.lookup(&a, 20), Some("first".to_string()));
    assert_eq!(cache.access_count(&a), Some(2));
    assert_eq!(cache.get_stats(), (1, 2));
    assert_eq!(cache.lookup(&signature(151), 20), None);
    assert_eq!(cache.len(), 1);
}

#[test]
fn expired_entry_is_dropped_on_read() {
    let mut cache: AnalysisCache<String> = AnalysisCache::new(10, 100, 50, 0);
    let a = signature(150);
    cache.cache_result(a, "old".to_string(), 10);
    // Exactly the maximum age is still fresh.
    assert_eq!(cache.lookup(&a, 110), Some("old".to_string()));
    assert_eq!(cache.lookup(&a, 111), None);
    assert_eq!(cache.len(), 0);
}

#[test]
fn full_cache_evicts_least_recently_read() {
    let mut cache: AnalysisCache<String> = AnalysisCache::new(2, 1000, 500, 0);
    let (a, b, c) = (signature(1), signature(2), signature(3));
    cache.cache_result(a, "a".to_string(), 10);
    cache.cache_result(b, "b".to_string(), 20);
    assert_eq!(cache.lookup(&a, 30), Some("a".to_string()));
    cache.cache_result(c, "c".to_string(), 40);
    assert_eq!(cache.len(), 2);
    assert_eq!(cache.access_count(&b), None);
    assert_eq!(cache.lookup(&a, 50), Some("a".to_string()));
    assert_eq!(cache.lookup(&c, 50), Some("c".to_string()));
}

#[test]
fn storing_again_replaces_the_entry() {
    let mut cache: AnalysisCache<String> = AnalysisCache::new(5, 1000, 500, 0);
    let a = signature(1);
    cache.cache_result(a, "one".to_string(), 10);
    cache.cache_result(a, "two".to_string(), 20);
    assert_eq!(cache.len(), 1);
    assert_eq!(cache.access_count(&a), Some(1));
    assert_eq!(cache.lookup(&a, 30), Some("two".to_string()));
}

#[test]
fn sweep_runs_after_the_interval() {
    let mut cache: AnalysisCache<String> = AnalysisCache::new(10, 100, 50, 0);
    cache.cache_result(signature(1), "a".to_string(), 10);
    cache.cache_result(signature(2), "b".to_string(), 100);
    // 40 ticks since the last sweep: nothing happens.
    cache.maybe_cleanup(40);
    assert_eq!(cache.len(), 2);
    // 160 ticks: the entry stored at 10 is past its age, the other is not.
    cache.maybe_cleanup(160);
    assert_eq!(cache.len(), 1);
    assert_eq!(cache.access_count(&signature(2)), Some(1));
    // The sweep at 160 is the last one now: at 200 nothing happens.
    cache.maybe_cleanup(200);
    assert_eq!(cache.len(), 1);
    cache.clear();
    assert_eq!(cache.len(), 0);
    assert_eq!(cache.get_stats(), (0, 0));
}
