use near_dns::cache::DnsCache;
use near_dns::resolver::NearResolver;

fn create_test_resolver() -> NearResolver {
    let cache = DnsCache::new();
    NearResolver::new("https://rpc.testnet.near.org", cache).unwrap()
}

fn parts(labels: &[&str]) -> Vec<String> {
    labels.iter().map(|s| s.to_string()).collect()
}

fn pair(a: &str, b: &str) -> (String, String) {
    (a.to_string(), b.to_string())
}

#[test]
fn test_resolution_order_simple() {
    let resolver = create_test_resolver();

    // For "frol.near"
    let order = resolver.resolution_order(&parts(&["frol"]), "near");
    assert_eq!(order, vec![("dns.frol.near".to_string(), "@".to_string())]);
}

#[test]
fn test_resolution_order_subdomain() {
    let resolver = create_test_resolver();

    // For "www.frol.near"
    let order = resolver.resolution_order(&parts(&["www", "frol"]), "near");

    // Should try:
    // 1. dns.www.frol.near with "@"
    // 2. dns.frol.near with "www"
    // 3. dns.frol.near with "*"
    assert!(order.contains(&("dns.www.frol.near".to_string(), "@".to_string())));
    assert!(order.contains(&("dns.frol.near".to_string(), "www".to_string())));
    assert!(order.contains(&("dns.frol.near".to_string(), "*".to_string())));
}

#[test]
fn test_resolution_order_deep_subdomain() {
    let resolver = create_test_resolver();

    // For "deep.sub.frol.near"
    let order = resolver.resolution_order(&parts(&["deep", "sub", "frol"]), "near");

    // Should include hierarchical lookups with wildcards
    assert!(order.contains(&("dns.deep.sub.frol.near".to_string(), "@".to_string())));
    assert!(order.contains(&("dns.sub.frol.near".to_string(), "deep".to_string())));
    assert!(order.contains(&("dns.sub.frol.near".to_string(), "*".to_string())));
    assert!(order.contains(&("dns.frol.near".to_string(), "deep.sub".to_string())));
    assert!(order.contains(&("dns.frol.near".to_string(), "*".to_string())));
}

#[test]
fn subdomain_order_is_exact() {
    let resolver = create_test_resolver();
    let order = resolver.resolution_order(&parts(&["www", "frol"]), "near");
    assert_eq!(
        order,
        vec![
            pair("dns.www.frol.near", "@"),
            pair("dns.frol.near", "www"),
            pair("dns.frol.near", "*"),
        ]
    );
}

#[test]
fn deep_subdomain_order_is_exact_and_specific_first() {
    let resolver = create_test_resolver();
    let order = resolver.resolution_order(&parts(&["deep", "sub", "frol"]), "near");
    assert_eq!(
        order,
        vec![
            pair("dns.deep.sub.frol.near", "@"),
            pair("dns.sub.frol.near", "deep"),
            pair("dns.sub.frol.near", "*"),
            pair("dns.frol.near", "deep.sub"),
            pair("dns.frol.near", "*.sub"),
            pair("dns.frol.near", "*"),
        ]
    );
}

#[test]
fn order_is_deterministic_and_duplicate_free() {
    let resolver = create_test_resolver();
    let a = resolver.resolution_order(&parts(&["a", "b", "c", "d"]), "near");
    let b = resolver.resolution_order(&parts(&["a", "b", "c", "d"]), "near");
    assert_eq!(a, b);
    for i in 0..a.len() {
        for j in (i + 1)..a.len() {
            assert_ne!(a[i], a[j], "probe list repeats an entry");
        }
    }
}

#[test]
fn literal_star_label_is_not_probed_twice() {
    // A queried label that is literally `*` collides with the wildcard
    // probe of its depth; the duplicate is skipped.
    let resolver = create_test_resolver();
    let order = resolver.resolution_order(&parts(&["*", "frol"]), "near");
    assert_eq!(
        order,
        vec![pair("dns.*.frol.near", "@"), pair("dns.frol.near", "*")]
    );
}

#[test]
fn exact_probe_precedes_every_wildcard_of_its_depth() {
    let resolver = create_test_resolver();
    let order = resolver.resolution_order(&parts(&["x", "y", "z"]), "near");
    let exact = pair("dns.z.near", "x.y");
    let wild_specific = pair("dns.z.near", "*.y");
    let wild_all = pair("dns.z.near", "*");
    let p = order.iter().position(|e| *e == exact).unwrap();
    let q = order.iter().position(|e| *e == wild_specific).unwrap();
    let r = order.iter().position(|e| *e == wild_all).unwrap();
    assert!(p < q);
    assert!(q < r);
}
