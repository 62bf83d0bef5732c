use near_dns::cache::{CacheConfig, DnsCache};
use near_dns::records::DnsRecord;
use std::time::{Duration, Instant};

fn record(rt: &str, value: &str, ttl: u32) -> DnsRecord {
    DnsRecord { record_type: rt.to_string(), value: value.to_string(), ttl, priority: None }
}

fn spin_for(d: Duration) {
    let start = Instant::now();
    while start.elapsed() < d {}
}

#[test]
fn record_cache_round_trip_within_ttl() {
    let mut cache = DnsCache::new();
    let stored = vec![record("A", "10.0.0.1", 60), record("A", "10.0.0.2", 61)];
    cache.insert_records(
        "dns.frol.near".to_string(),
        "@".to_string(),
        "A".to_string(),
        stored,
    );
    let got = cache.get_records("dns.frol.near", "@", "A").expect("hit within TTL");
    assert_eq!(got.len(), 2);
    assert_eq!(got[0].value, "10.0.0.1");
    assert_eq!(got[1].value, "10.0.0.2");
    assert_eq!(got[1].ttl, 61);
}

#[test]
fn record_cache_entry_expires_after_ttl() {
    let mut cache = DnsCache::with_config(CacheConfig {
        contract_ttl_secs: 1,
        record_ttl_secs: 1,
        max_entries: 16,
    });
    cache.insert_records(
        "dns.frol.near".to_string(),
        "@".to_string(),
        "A".to_string(),
        vec![record("A", "10.0.0.1", 60)],
    );
    assert!(cache.get_records("dns.frol.near", "@", "A").is_some());
    spin_for(Duration::from_millis(1500));
    assert!(cache.get_records("dns.frol.near", "@", "A").is_none());
}

#[test]
fn empty_set_is_a_cached_negative_not_absent() {
    let mut cache = DnsCache::new();
    cache.insert_records(
        "dns.frol.near".to_string(),
        "www".to_string(),
        "A".to_string(),
        Vec::new(),
    );
    let got = cache.get_records("dns.frol.near", "www", "A");
    assert_eq!(got.map(|v| v.len()), Some(0));
    // A key never stored stays absent.
    assert!(cache.get_records("dns.frol.near", "mail", "A").is_none());
}

#[test]
fn existence_cache_round_trip_and_overwrite() {
    let mut cache = DnsCache::new();
    assert_eq!(cache.get_contract("dns.frol.near"), None);
    cache.insert_contract("dns.frol.near".to_string(), false);
    assert_eq!(cache.get_contract("dns.frol.near"), Some(false));
    cache.insert_contract("dns.frol.near".to_string(), true);
    assert_eq!(cache.get_contract("dns.frol.near"), Some(true));
}

#[test]
fn record_insert_replaces_previous_set() {
    let mut cache = DnsCache::new();
    cache.insert_records(
        "dns.frol.near".to_string(),
        "@".to_string(),
        "A".to_string(),
        vec![record("A", "10.0.0.1", 60)],
    );
    cache.insert_records(
        "dns.frol.near".to_string(),
        "@".to_string(),
        "A".to_string(),
        vec![record("A", "10.0.0.9", 61)],
    );
    let got = cache.get_records("dns.frol.near", "@", "A").unwrap();
    assert_eq!(got.len(), 1);
    assert_eq!(got[0].value, "10.0.0.9");
}

#[test]
fn default_config_values() {
    let c = CacheConfig::default();
    assert_eq!(c.contract_ttl_secs, 300);
    assert_eq!(c.record_ttl_secs, 300);
    assert_eq!(c.max_entries, 10000);
}
