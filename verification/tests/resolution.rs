use near_dns::cache::DnsCache;
use near_dns::records::DnsRecord;
use near_dns::resolver::{
    NearResolver, ProbeDirective, ResolveAction, ResolverError,
};

fn resolver() -> NearResolver {
    NearResolver::new("https://rpc.testnet.near.org", DnsCache::new()).unwrap()
}

fn record(rt: &str, value: &str, ttl: u32) -> DnsRecord {
    DnsRecord { record_type: rt.to_string(), value: value.to_string(), ttl, priority: None }
}

#[test]
fn new_rejects_an_invalid_rpc_url() {
    match NearResolver::new("not a url", DnsCache::new()) {
        Err(ResolverError::RpcError(_)) => {}
        Err(_) => panic!("expected an RPC error about the URL"),
        Ok(_) => panic!("a malformed URL must be rejected"),
    }
    assert!(NearResolver::new("https://rpc.mainnet.near.org", DnsCache::new()).is_ok());
}

#[test]
fn single_label_domain_is_invalid() {
    let mut r = resolver();
    let (_s, action) = r.resolve_start("near", "A");
    match action {
        ResolveAction::Finished(Err(ResolverError::InvalidDomain)) => {}
        _ => panic!("expected InvalidDomain"),
    }
}

#[test]
fn foreign_tld_is_not_probed() {
    // example.com is not chain-governed; the chain caches stay untouched.
    let mut r = resolver();
    let (_s, action) = r.resolve_start("example.com", "A");
    match action {
        ResolveAction::Finished(Err(ResolverError::NotNearTld)) => {}
        _ => panic!("expected NotNearTld"),
    }
    assert!(r.cache.get_contract("dns.example.com").is_none());
    assert!(r.cache.get_records("dns.example.com", "@", "A").is_none());
}

#[test]
fn simple_domain_resolves_via_single_probe() {
    // frol.near, type A: one probe, and the contract answers.
    let mut r = resolver();
    let (mut s, action) = r.resolve_start("frol.near", "A");
    let action = match action {
        ResolveAction::CheckExistence(cid) => {
            assert_eq!(cid, "dns.frol.near");
            r.resolve_on_existence(&mut s, true)
        }
        other => panic!("expected an existence check, got {:?}", action_name(&other)),
    };
    let action = match action {
        ResolveAction::QueryRecords(cid, name, rt) => {
            assert_eq!((cid.as_str(), name.as_str(), rt.as_str()), ("dns.frol.near", "@", "A"));
            r.resolve_on_records(&mut s, Ok(Some(vec![record("A", "192.168.1.1", 300)])))
        }
        other => panic!("expected a record query, got {:?}", action_name(&other)),
    };
    match action {
        ResolveAction::Finished(Ok(records)) => {
            assert_eq!(records.len(), 1);
            assert_eq!(records[0].value, "192.168.1.1");
            assert_eq!(records[0].ttl, 300);
        }
        other => panic!("expected an answer, got {:?}", action_name(&other)),
    }
}

fn action_name(a: &ResolveAction) -> &'static str {
    match a {
        ResolveAction::CheckExistence(_) => "CheckExistence",
        ResolveAction::QueryRecords(_, _, _) => "QueryRecords",
        ResolveAction::Finished(Ok(_)) => "Finished(Ok)",
        ResolveAction::Finished(Err(_)) => "Finished(Err)",
    }
}

#[test]
fn subdomain_falls_back_to_parent_contract() {
    // www.frol.near: dns.www.frol.near is absent, dns.frol.near answers
    // the exact sub-label probe.
    let mut r = resolver();
    let (mut s, action) = r.resolve_start("www.frol.near", "A");
    let action = match action {
        ResolveAction::CheckExistence(cid) => {
            assert_eq!(cid, "dns.www.frol.near");
            r.resolve_on_existence(&mut s, false)
        }
        _ => panic!("expected an existence check for the deepest contract"),
    };
    let action = match action {
        ResolveAction::CheckExistence(cid) => {
            assert_eq!(cid, "dns.frol.near");
            r.resolve_on_existence(&mut s, true)
        }
        _ => panic!("expected an existence check for the parent contract"),
    };
    let action = match action {
        ResolveAction::QueryRecords(cid, name, rt) => {
            assert_eq!(
                (cid.as_str(), name.as_str(), rt.as_str()),
                ("dns.frol.near", "www", "A")
            );
            r.resolve_on_records(&mut s, Ok(Some(vec![record("A", "10.0.0.1", 60)])))
        }
        _ => panic!("expected the exact sub-label query"),
    };
    match action {
        ResolveAction::Finished(Ok(records)) => {
            assert_eq!(records.len(), 1);
            assert_eq!(records[0].value, "10.0.0.1");
            assert_eq!(records[0].ttl, 60);
        }
        _ => panic!("expected an answer"),
    }
    // The absent contract was remembered.
    assert_eq!(r.cache.get_contract("dns.www.frol.near"), Some(false));
}

#[test]
fn wildcard_at_shallower_contract_wins_after_deeper_misses() {
    // deep.sub.frol.near with only ("dns.frol.near", "*") populated.
    let mut r = resolver();
    let (mut s, action) = r.resolve_start("deep.sub.frol.near", "A");
    // dns.deep.sub.frol.near does not exist.
    let action = match action {
        ResolveAction::CheckExistence(cid) => {
            assert_eq!(cid, "dns.deep.sub.frol.near");
            r.resolve_on_existence(&mut s, false)
        }
        _ => panic!("expected the deepest existence check"),
    };
    // dns.sub.frol.near exists but answers nothing for "deep" nor "*".
    let action = match action {
        ResolveAction::CheckExistence(cid) => {
            assert_eq!(cid, "dns.sub.frol.near");
            r.resolve_on_existence(&mut s, true)
        }
        _ => panic!("expected the middle existence check"),
    };
    let action = match action {
        ResolveAction::QueryRecords(cid, name, _) => {
            assert_eq!((cid.as_str(), name.as_str()), ("dns.sub.frol.near", "deep"));
            r.resolve_on_records(&mut s, Ok(None))
        }
        _ => panic!("expected the exact probe on the middle contract"),
    };
    let action = match action {
        ResolveAction::QueryRecords(cid, name, _) => {
            assert_eq!((cid.as_str(), name.as_str()), ("dns.sub.frol.near", "*"));
            r.resolve_on_records(&mut s, Ok(None))
        }
        _ => panic!("expected the wildcard probe on the middle contract"),
    };
    // dns.frol.near exists; "deep.sub" misses, "*.sub" misses, "*" hits.
    let action = match action {
        ResolveAction::CheckExistence(cid) => {
            assert_eq!(cid, "dns.frol.near");
            r.resolve_on_existence(&mut s, true)
        }
        _ => panic!("expected the shallow existence check"),
    };
    let action = match action {
        ResolveAction::QueryRecords(cid, name, _) => {
            assert_eq!((cid.as_str(), name.as_str()), ("dns.frol.near", "deep.sub"));
            r.resolve_on_records(&mut s, Ok(None))
        }
        _ => panic!("expected the exact probe on the shallow contract"),
    };
    let action = match action {
        ResolveAction::QueryRecords(cid, name, _) => {
            assert_eq!((cid.as_str(), name.as_str()), ("dns.frol.near", "*.sub"));
            r.resolve_on_records(&mut s, Ok(None))
        }
        _ => panic!("expected the specific wildcard probe"),
    };
    let action = match action {
        ResolveAction::QueryRecords(cid, name, _) => {
            assert_eq!((cid.as_str(), name.as_str()), ("dns.frol.near", "*"));
            r.resolve_on_records(&mut s, Ok(Some(vec![record("A", "10.0.0.2", 60)])))
        }
        _ => panic!("expected the catch-all wildcard probe"),
    };
    match action {
        ResolveAction::Finished(Ok(records)) => {
            assert_eq!(records.len(), 1);
            assert_eq!(records[0].value, "10.0.0.2");
        }
        _ => panic!("expected an answer from the catch-all wildcard"),
    }
}

#[test]
fn absent_code_error_is_negative_and_exhaustion_is_not_found() {
    // frol.near where the only probe's record query fails with an
    // absent-code signal: iteration continues, ends in NotFound, and the
    // existence cache records the absent contract.
    let mut r = resolver();
    let (mut s, action) = r.resolve_start("frol.near", "A");
    let action = match action {
        ResolveAction::CheckExistence(_) => r.resolve_on_existence(&mut s, true),
        _ => panic!("expected an existence check"),
    };
    let action = match action {
        ResolveAction::QueryRecords(_, _, _) => r.resolve_on_records(
            &mut s,
            Err("wasm execution failed: CodeDoesNotExist".to_string()),
        ),
        _ => panic!("expected a record query"),
    };
    match action {
        ResolveAction::Finished(Err(ResolverError::NotFound)) => {}
        _ => panic!("expected NXDOMAIN"),
    }
    assert_eq!(r.cache.get_contract("dns.frol.near"), Some(false));
}

#[test]
fn absent_contract_is_remembered_in_the_existence_cache() {
    let mut r = resolver();
    let (mut s, action) = r.resolve_start("frol.near", "A");
    let action = match action {
        ResolveAction::CheckExistence(cid) => {
            assert_eq!(cid, "dns.frol.near");
            r.resolve_on_existence(&mut s, false)
        }
        _ => panic!("expected an existence check"),
    };
    match action {
        ResolveAction::Finished(Err(ResolverError::NotFound)) => {}
        _ => panic!("expected NXDOMAIN"),
    }
    assert_eq!(r.cache.get_contract("dns.frol.near"), Some(false));
}

#[test]
fn transient_failure_of_every_probe_surfaces_the_rpc_error() {
    let mut r = resolver();
    let (mut s, action) = r.resolve_start("frol.near", "A");
    let action = match action {
        ResolveAction::CheckExistence(_) => r.resolve_on_existence(&mut s, true),
        _ => panic!("expected an existence check"),
    };
    let action = match action {
        ResolveAction::QueryRecords(_, _, _) => {
            r.resolve_on_records(&mut s, Err("connection refused".to_string()))
        }
        _ => panic!("expected a record query"),
    };
    match action {
        ResolveAction::Finished(Err(ResolverError::RpcError(m))) => {
            assert_eq!(m, "connection refused");
        }
        _ => panic!("expected the transient error to surface"),
    }
}

#[test]
fn empty_cached_set_skips_without_ending_the_query() {
    // A cached negative for the first probe moves straight to the second.
    let mut r = resolver();
    r.cache.insert_records(
        "dns.www.frol.near".to_string(),
        "@".to_string(),
        "A".to_string(),
        Vec::new(),
    );
    let (_s, action) = r.resolve_start("www.frol.near", "A");
    match action {
        ResolveAction::CheckExistence(cid) => assert_eq!(cid, "dns.frol.near"),
        _ => panic!("the cached negative should skip to the second probe"),
    }
}

#[test]
fn cached_answer_short_circuits_without_chain_calls() {
    let mut r = resolver();
    r.cache.insert_records(
        "dns.frol.near".to_string(),
        "@".to_string(),
        "A".to_string(),
        vec![record("A", "192.168.1.1", 300)],
    );
    let (_s, action) = r.resolve_start("frol.near", "A");
    match action {
        ResolveAction::Finished(Ok(records)) => {
            assert_eq!(records.len(), 1);
            assert_eq!(records[0].value, "192.168.1.1");
        }
        _ => panic!("expected a cached answer"),
    }
}

#[test]
fn answers_are_filtered_to_the_queried_type() {
    // A stored set that mixes types yields only records of the queried
    // type, whatever the contract stored.
    let mut r = resolver();
    let mixed = vec![
        record("A", "192.168.1.1", 300),
        record("TXT", "hello", 300),
        record("a", "192.168.1.2", 300),
    ];
    let (mut s, action) = r.resolve_start("frol.near", "A");
    let action = match action {
        ResolveAction::CheckExistence(_) => r.resolve_on_existence(&mut s, true),
        _ => panic!("expected an existence check"),
    };
    let action = match action {
        ResolveAction::QueryRecords(_, _, _) => r.resolve_on_records(&mut s, Ok(Some(mixed))),
        _ => panic!("expected a record query"),
    };
    match action {
        ResolveAction::Finished(Ok(records)) => {
            assert_eq!(records.len(), 2);
            assert!(records.iter().all(|x| x.record_type.eq_ignore_ascii_case("A")));
        }
        _ => panic!("expected a filtered answer"),
    }
}

#[test]
fn query_contract_start_reports_malformed_identifiers() {
    let mut r = resolver();
    // An existence verdict planted for a malformed identifier: the probe
    // is rejected rather than queried.
    r.cache.insert_contract("Bad..Id".to_string(), true);
    match r.query_contract_start("Bad..Id", "@", "A") {
        ProbeDirective::Done(Err(ResolverError::InvalidAccountId(id))) => {
            assert_eq!(id, "Bad..Id");
        }
        _ => panic!("expected InvalidAccountId"),
    }
    // With no verdict, the malformed identifier is remembered as absent.
    let mut r2 = resolver();
    match r2.query_contract_start("Bad..Id", "@", "A") {
        ProbeDirective::Done(Ok(None)) => {}
        _ => panic!("expected a negative"),
    }
    assert_eq!(r2.cache.get_contract("Bad..Id"), Some(false));
}

#[test]
fn trailing_dot_is_trimmed_before_classification() {
    let mut r = resolver();
    let (s, action) = r.resolve_start("frol.near.", "A");
    match action {
        ResolveAction::CheckExistence(cid) => assert_eq!(cid, "dns.frol.near"),
        _ => panic!("expected an existence check"),
    }
    assert_eq!(s.probes, vec![("dns.frol.near".to_string(), "@".to_string())]);
}

#[test]
fn error_descriptions_are_stable() {
    assert_eq!(ResolverError::InvalidDomain.describe(), "Invalid domain format");
    assert_eq!(ResolverError::NotNearTld.describe(), "Not a NEAR TLD");
    assert_eq!(ResolverError::NotFound.describe(), "Domain not found (NXDOMAIN)");
}
