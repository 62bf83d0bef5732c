use near_dns::authority::{classify_near_result, classify_upstream_result, extract_tld, Disposition};
use near_dns::cache::DnsCache;
use near_dns::records::{DnsRecord, WireData, WireRecord};
use near_dns::resolver::{check_account_id, NearResolver, ResolverError};
use near_dns::upstream::{upstream_records, UpstreamError};

fn resolver() -> NearResolver {
    NearResolver::new("https://rpc.testnet.near.org", DnsCache::new()).unwrap()
}

fn record(rt: &str, value: &str, ttl: u32) -> DnsRecord {
    DnsRecord { record_type: rt.to_string(), value: value.to_string(), ttl, priority: None }
}

#[test]
fn whitelisted_tlds_are_chain_governed() {
    let r = resolver();
    for tld in ["near", "testnet", "aurora", "tg", "sweat", "kaiching", "sharddog"] {
        assert!(r.is_near_tld(tld), "{tld} should be chain-governed");
    }
}

#[test]
fn tld_classification_folds_case() {
    let r = resolver();
    assert!(r.is_near_tld("NEAR"));
    assert!(r.is_near_tld("Near"));
    assert_eq!(r.is_near_tld("NEAR"), r.is_near_tld("near"));
}

#[test]
fn foreign_tlds_are_refused() {
    let r = resolver();
    for tld in ["com", "org", "dev", "io", "nearx", "ne", ""] {
        assert!(!r.is_near_tld(tld), "{tld} should not be chain-governed");
    }
}

#[test]
fn tld_extraction_takes_the_last_label() {
    assert_eq!(extract_tld("www.frol.near.").unwrap(), "near");
    assert_eq!(extract_tld("example.com").unwrap(), "com");
    assert_eq!(extract_tld("localhost").unwrap(), "localhost");
}

#[test]
fn account_id_validation_matches_the_chain_rules() {
    assert!(check_account_id("dns.frol.near"));
    assert!(check_account_id("a2.b-c_d.near"));
    assert!(!check_account_id("a"));
    assert!(!check_account_id("Bad.near"));
    assert!(!check_account_id(".near"));
    assert!(!check_account_id("near."));
    assert!(!check_account_id("a..b"));
    assert!(!check_account_id("a__b.near"));
    assert!(!check_account_id("a_-b.near"));
    let too_long = "a".repeat(65);
    assert!(!check_account_id(&too_long));
}

#[test]
fn near_outcome_becomes_an_answer_when_conversion_succeeds() {
    let outcome = Ok(vec![record("A", "10.0.0.1", 60)]);
    match classify_near_result(outcome, "frol.near", "frol.near") {
        Disposition::Answer(w) => {
            assert_eq!(w.len(), 1);
            assert_eq!(w[0].name, "frol.near");
            assert!(matches!(w[0].data, WireData::A(_)));
        }
        _ => panic!("expected an answer"),
    }
}

#[test]
fn near_outcome_with_nothing_convertible_is_nxdomain() {
    let outcome = Ok(vec![record("A", "not-an-ip", 60)]);
    assert!(matches!(
        classify_near_result(outcome, "frol.near", "frol.near"),
        Disposition::Nxdomain
    ));
    assert!(matches!(
        classify_near_result(Err(ResolverError::NotFound), "frol.near", "frol.near"),
        Disposition::Nxdomain
    ));
}

#[test]
fn near_failures_map_to_servfail() {
    assert!(matches!(
        classify_near_result(
            Err(ResolverError::RpcError("boom".to_string())),
            "frol.near",
            "frol.near"
        ),
        Disposition::ServFail
    ));
    // A query the chain resolver refused as not chain-governed was
    // misrouted: a structural error, not an occasion to forward upstream.
    assert!(matches!(
        classify_near_result(Err(ResolverError::NotNearTld), "example.com", "example.com"),
        Disposition::ServFail
    ));
}

#[test]
fn upstream_answers_get_the_fixed_ttl() {
    let payloads = vec![
        WireData::Cname("a.example.com.".to_string()),
        WireData::Cname("b.example.com.".to_string()),
    ];
    let records = upstream_records("example.com", payloads).unwrap();
    assert_eq!(records.len(), 2);
    for w in &records {
        assert_eq!(w.name, "example.com");
        assert_eq!(w.ttl, 300);
    }
}

#[test]
fn empty_upstream_answer_is_the_no_records_signal() {
    let e = upstream_records("example.com", Vec::new()).unwrap_err();
    assert!(matches!(e, UpstreamError::NotFound));
    assert_eq!(e.describe(), "No records found");
}

#[test]
fn upstream_outcomes_map_to_dispositions() {
    let ok: Result<Vec<WireRecord>, UpstreamError> = Ok(Vec::new());
    assert!(matches!(classify_upstream_result(ok), Disposition::Answer(_)));
    assert!(matches!(
        classify_upstream_result(Err(UpstreamError::NotFound)),
        Disposition::Nxdomain
    ));
    assert!(matches!(
        classify_upstream_result(Err(UpstreamError::ResolutionFailed("x".to_string()))),
        Disposition::ServFail
    ));
}
