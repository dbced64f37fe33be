use skillbasin::cache::SearchCache;
use skillbasin::search::{OnlineSkillResult, CACHE_CAPACITY, CACHE_TTL_SECS};

#[test]
fn cache_returns_stored_results_without_a_second_request() {
    let mut cache = SearchCache::default();
    let hits = vec![OnlineSkillResult {
        name: "cached".to_string(),
        installs: 1,
        source: "a/b".to_string(),
        source_url: "https://github.com/a/b".to_string(),
        license: None,
    }];

    assert!(cache.get("react", 20, 100).is_none());
    cache.put("react", 20, hits.clone(), 100);

    let cached = cache.get("react", 20, 150).expect("still fresh");
    assert_eq!(cached[0].name, "cached");
    // Same query, different limit is a different request.
    assert!(cache.get("react", 5, 150).is_none());
}

#[test]
fn cache_entry_expires_after_its_ttl() {
    let mut cache = SearchCache::default();
    cache.put("react", 20, Vec::new(), 100);

    assert!(cache.get("react", 20, 100 + CACHE_TTL_SECS - 1).is_some());
    assert!(cache.get("react", 20, 100 + CACHE_TTL_SECS).is_none());
}

#[test]
fn cache_evicts_the_oldest_entry_when_full() {
    let mut cache = SearchCache::default();
    for i in 0..CACHE_CAPACITY {
        cache.put(&format!("q{i}"), 20, Vec::new(), 100 + i as u64);
    }
    assert!(cache.get("q0", 20, 100).is_some());

    cache.put("overflow", 20, Vec::new(), 999);
    assert!(cache.get("q0", 20, 100).is_none(), "oldest evicted");
    assert!(cache.get("overflow", 20, 999).is_some());
}

#[test]
fn cache_put_replaces_an_answer_for_the_same_key() {
    let mut cache = SearchCache::default();
    cache.put("q", 1, Vec::new(), 10);
    let hit = OnlineSkillResult {
        name: "n".to_string(),
        installs: 2,
        source: "s/t".to_string(),
        source_url: "https://github.com/s/t".to_string(),
        license: Some("MIT".to_string()),
    };
    cache.put("q", 1, vec![hit.clone()], 20);
    let got = cache.get("q", 1, 21).unwrap();
    assert_eq!(got, vec![hit]);
    // A clock that went backwards still counts the answer as fresh.
    assert!(cache.get("q", 1, 5).is_some());
}

#[test]
fn an_answer_survives_other_traffic_until_its_ttl_runs_out() {
    let mut cache = SearchCache::default();
    let hit = OnlineSkillResult {
        name: "kept".to_string(),
        installs: 3,
        source: "a/b".to_string(),
        source_url: "https://github.com/a/b".to_string(),
        license: None,
    };
    cache.put("react", 20, vec![hit], 100);
    cache.put("vue", 20, Vec::new(), 150);
    assert!(cache.get("svelte", 20, 200).is_none());
    cache.put("react", 5, Vec::new(), 250);
    assert!(cache.get("vue", 20, 300).is_some());
    let still = cache.get("react", 20, 100 + CACHE_TTL_SECS - 1).expect("fresh");
    assert_eq!(still[0].name, "kept");
    assert!(cache.get("react", 20, 100 + CACHE_TTL_SECS).is_none());
    cache.put("vue", 20, Vec::new(), 500);
    assert!(cache.get("react", 20, 100).is_none(), "a dropped answer stays gone");
}
