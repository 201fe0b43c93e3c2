use exchange_rates::cache::TtlCache;

#[test]
fn test_cache_hit_within_ttl() {
    let mut cache: TtlCache<u32> = TtlCache::new(3600);
    assert!(cache.get("rates:EUR", 1000).is_none());

    cache.put("rates:EUR".to_string(), 42, 1000);

    assert_eq!(cache.get("rates:EUR", 1000), Some(&42));
    assert_eq!(cache.get("rates:EUR", 4599), Some(&42)); // one second before expiry
    assert!(cache.get("rates:EUR", 4600).is_none()); // expired
    assert!(cache.get("rates:CHF", 1000).is_none()); // another key
}

#[test]
fn test_cache_hit_suppresses_upstream_calls() {
    // two lookups of the same key within the time-to-live window: the
    // upstream is consulted once, the second answer comes from the cache
    let mut cache: TtlCache<&str> = TtlCache::new(3600);
    let mut upstream_calls: u32 = 0;

    for now in [1000u64, 2000] {
        if cache.get("symbols", now).is_none() {
            upstream_calls += 1;
            cache.put("symbols".to_string(), "answer", now);
        }
    }

    assert_eq!(upstream_calls, 1);
}

#[test]
fn test_cache_recomputes_after_expiry() {
    let mut cache: TtlCache<&str> = TtlCache::new(3600);
    let mut upstream_calls: u32 = 0;

    for now in [0u64, 3600, 3601] {
        if cache.get("symbols", now).is_none() {
            upstream_calls += 1;
            cache.put("symbols".to_string(), "answer", now);
        }
    }

    // the second lookup fell exactly on expiry and refetched; the third hit
    assert_eq!(upstream_calls, 2);
}

#[test]
fn test_cache_overwrite_refreshes() {
    let mut cache: TtlCache<u32> = TtlCache::new(100);
    cache.put("k".to_string(), 1, 0);
    cache.put("k".to_string(), 2, 50);
    assert_eq!(cache.get("k", 120), Some(&2)); // alive from the second store
    assert!(cache.get("k", 150).is_none());
}
