use near_dns::contract_store::DnsContract;
use near_dns::records::DnsRecord;

fn record(rt: &str, value: &str, ttl: u32) -> DnsRecord {
    DnsRecord { record_type: rt.to_string(), value: value.to_string(), ttl, priority: None }
}

#[test]
fn test_initialization() {
    let contract = DnsContract::new("alice.testnet".to_string());
    assert_eq!(contract.get_owner().as_str(), "alice.testnet");
}

#[test]
fn test_dns_update_and_query() {
    let mut contract = DnsContract::new("alice.testnet".to_string());

    // Update A record
    let records = vec![record("A", "192.168.1.1", 300)];
    contract.dns_update("alice.testnet", "@".to_string(), records);

    // Query should return the record
    let result = contract.dns_query("@".to_string(), "A".to_string());
    assert!(result.is_some());
    assert_eq!(result.unwrap().len(), 1);
}

#[test]
fn test_dns_add() {
    let mut contract = DnsContract::new("alice.testnet".to_string());

    // Add first A record
    contract.dns_add("alice.testnet", "@".to_string(), record("A", "192.168.1.1", 300));

    // Add second A record
    contract.dns_add("alice.testnet", "@".to_string(), record("A", "192.168.1.2", 300));

    // Should have 2 records
    let result = contract.dns_query("@".to_string(), "A".to_string());
    assert_eq!(result.unwrap().len(), 2);
}

#[test]
fn test_dns_delete() {
    let mut contract = DnsContract::new("alice.testnet".to_string());

    // Add records
    contract.dns_add("alice.testnet", "@".to_string(), record("A", "192.168.1.1", 300));
    contract.dns_add("alice.testnet", "@".to_string(), record("TXT", "Hello", 300));

    // Delete only A records
    contract.dns_delete("alice.testnet", "@".to_string(), Some("A".to_string()));

    // A should be gone, TXT should remain
    assert!(contract.dns_query("@".to_string(), "A".to_string()).is_none());
    assert!(contract.dns_query("@".to_string(), "TXT".to_string()).is_some());
}

#[test]
fn test_wildcard_records() {
    let mut contract = DnsContract::new("alice.testnet".to_string());

    // Add wildcard A record
    contract.dns_add("alice.testnet", "*".to_string(), record("A", "192.168.1.1", 300));

    // Query wildcard
    let result = contract.dns_query("*".to_string(), "A".to_string());
    assert!(result.is_some());
}

#[test]
fn test_dns_list_names() {
    let mut contract = DnsContract::new("alice.testnet".to_string());

    // Add records for different names
    contract.dns_add("alice.testnet", "@".to_string(), record("A", "192.168.1.1", 300));
    contract.dns_add("alice.testnet", "www".to_string(), record("A", "192.168.1.2", 300));
    contract.dns_add("alice.testnet", "@".to_string(), record("TXT", "test", 300));

    let names = contract.dns_list_names();
    assert_eq!(names.len(), 2); // "@" and "www"
    assert!(names.contains(&"@".to_string()));
    assert!(names.contains(&"www".to_string()));
}

#[test]
fn keys_fold_case_on_both_sides() {
    let mut contract = DnsContract::new("alice.testnet".to_string());
    contract.dns_add("alice.testnet", "WWW".to_string(), record("a", "192.168.1.1", 300));
    let result = contract.dns_query("www".to_string(), "A".to_string());
    assert_eq!(result.unwrap().len(), 1);
}

#[test]
fn update_replaces_and_delete_all_clears_every_type() {
    let mut contract = DnsContract::new("alice.testnet".to_string());
    contract.dns_add("alice.testnet", "@".to_string(), record("A", "192.168.1.1", 300));
    contract.dns_update(
        "alice.testnet",
        "@".to_string(),
        vec![record("A", "10.0.0.1", 60)],
    );
    let got = contract.dns_query("@".to_string(), "A".to_string()).unwrap();
    assert_eq!(got.len(), 1);
    assert_eq!(got[0].value, "10.0.0.1");

    contract.dns_add("alice.testnet", "@".to_string(), record("TXT", "hi", 300));
    contract.dns_delete("alice.testnet", "@".to_string(), None);
    assert!(contract.dns_query("@".to_string(), "A".to_string()).is_none());
    assert!(contract.dns_query("@".to_string(), "TXT".to_string()).is_none());
}

#[test]
fn query_all_gathers_every_type_in_order() {
    let mut contract = DnsContract::new("alice.testnet".to_string());
    contract.dns_add("alice.testnet", "@".to_string(), record("TXT", "hi", 300));
    contract.dns_add("alice.testnet", "@".to_string(), record("A", "10.0.0.1", 60));
    let all = contract.dns_query_all("@".to_string());
    assert_eq!(all.len(), 2);
    // The recognized-type order puts A before TXT.
    assert_eq!(all[0].record_type, "A");
    assert_eq!(all[1].record_type, "TXT");
}

#[test]
fn list_all_returns_keys_and_sets() {
    let mut contract = DnsContract::new("alice.testnet".to_string());
    contract.dns_add("alice.testnet", "www".to_string(), record("A", "10.0.0.1", 60));
    let all = contract.dns_list_all();
    assert_eq!(all.len(), 1);
    assert_eq!(all[0].0, "www:A");
    assert_eq!(all[0].1.len(), 1);
}

#[test]
fn ownership_transfer_changes_the_owner() {
    let mut contract = DnsContract::new("alice.testnet".to_string());
    contract.transfer_ownership("alice.testnet", "bob.testnet".to_string());
    assert_eq!(contract.get_owner().as_str(), "bob.testnet");
}
