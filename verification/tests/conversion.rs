use near_dns::records::{DnsRecord, RecordConversionError, RecordKind, WireData};
use near_dns::records::{convert_records, record_type_to_string};

fn record(rt: &str, value: &str, ttl: u32, priority: Option<u16>) -> DnsRecord {
    DnsRecord { record_type: rt.to_string(), value: value.to_string(), ttl, priority }
}

#[test]
fn test_a_record_conversion() {
    let record = record("A", "192.168.1.1", 300, None);
    let rdata = record.to_rdata("example.near.").unwrap();
    assert!(matches!(rdata, WireData::A(_)));
}

#[test]
fn test_txt_record_conversion() {
    let record = record("TXT", "Hello from NEAR!", 300, None);
    let rdata = record.to_rdata("example.near.").unwrap();
    assert!(matches!(rdata, WireData::Txt(_)));
}

#[test]
fn test_mx_record_conversion() {
    let record = record("MX", "mail.example.com.", 300, Some(10));
    let rdata = record.to_rdata("example.near.").unwrap();
    assert!(matches!(rdata, WireData::Mx { .. }));
}

#[test]
fn a_record_octets_exact() {
    let r = record("A", "192.168.1.1", 300, None);
    match r.to_rdata("frol.near.").unwrap() {
        WireData::A(ip) => assert_eq!(ip.octets, vec![192, 168, 1, 1]),
        _ => panic!("expected an A payload"),
    }
}

#[test]
fn a_record_rejects_bad_quad() {
    let r = record("A", "192.168.1", 300, None);
    assert!(matches!(
        r.to_rdata("frol.near.").unwrap_err(),
        RecordConversionError::InvalidIpv4(_)
    ));
    let r = record("A", "256.0.0.1", 300, None);
    assert!(matches!(
        r.to_rdata("frol.near.").unwrap_err(),
        RecordConversionError::InvalidIpv4(_)
    ));
    let r = record("A", "01.2.3.4", 300, None);
    assert!(matches!(
        r.to_rdata("frol.near.").unwrap_err(),
        RecordConversionError::InvalidIpv4(_)
    ));
}

#[test]
fn aaaa_record_groups_exact() {
    let r = record("AAAA", "2001:db8::1", 300, None);
    match r.to_rdata("frol.near.").unwrap() {
        WireData::Aaaa(ip) => {
            assert_eq!(ip.groups, vec![0x2001, 0x0db8, 0, 0, 0, 0, 0, 1]);
        }
        _ => panic!("expected an AAAA payload"),
    }
}

#[test]
fn aaaa_accepts_embedded_ipv4_and_full_form() {
    let r = record("AAAA", "::ffff:192.0.2.1", 300, None);
    match r.to_rdata("frol.near.").unwrap() {
        WireData::Aaaa(ip) => {
            assert_eq!(ip.groups, vec![0, 0, 0, 0, 0, 0xffff, 0xc000, 0x0201]);
        }
        _ => panic!("expected an AAAA payload"),
    }
    let r = record("AAAA", "1:2:3:4:5:6:7:8", 300, None);
    match r.to_rdata("frol.near.").unwrap() {
        WireData::Aaaa(ip) => assert_eq!(ip.groups, vec![1, 2, 3, 4, 5, 6, 7, 8]),
        _ => panic!("expected an AAAA payload"),
    }
}

#[test]
fn aaaa_rejects_bad_literals() {
    for bad in ["1::2::3", "1:2:3:4:5:6:7:8:9", ":::", "12345::", "notanip"] {
        let r = record("AAAA", bad, 300, None);
        assert!(
            matches!(
                r.to_rdata("frol.near.").unwrap_err(),
                RecordConversionError::InvalidIpv6(_)
            ),
            "{bad} should be rejected"
        );
    }
}

#[test]
fn cname_relative_name_gets_origin_appended() {
    let r = record("cname", "www", 60, None);
    match r.to_rdata("frol.near").unwrap() {
        WireData::Cname(n) => assert_eq!(n, "www.frol.near"),
        _ => panic!("expected a CNAME payload"),
    }
}

#[test]
fn cname_at_sentinel_is_origin() {
    let r = record("CNAME", "@", 60, None);
    match r.to_rdata("frol.near").unwrap() {
        WireData::Cname(n) => assert_eq!(n, "frol.near"),
        _ => panic!("expected a CNAME payload"),
    }
}

#[test]
fn domain_with_empty_label_is_rejected() {
    let r = record("NS", "bad..name", 60, None);
    assert!(matches!(
        r.to_rdata("frol.near").unwrap_err(),
        RecordConversionError::InvalidDomainName(_)
    ));
}

#[test]
fn mx_fully_qualified_exchange_keeps_trailing_dot() {
    // A fully qualified value bypasses origin appending.
    let r = record("MX", "mail.example.com.", 3600, Some(20));
    match r.to_rdata("frol.near").unwrap() {
        WireData::Mx { preference, exchange } => {
            assert_eq!(preference, 20);
            assert_eq!(exchange, "mail.example.com.");
        }
        _ => panic!("expected an MX payload"),
    }
}

#[test]
fn mx_priority_defaults_to_ten() {
    let r = record("MX", "mail", 3600, None);
    match r.to_rdata("frol.near").unwrap() {
        WireData::Mx { preference, exchange } => {
            assert_eq!(preference, 10);
            assert_eq!(exchange, "mail.frol.near");
        }
        _ => panic!("expected an MX payload"),
    }
}

#[test]
fn srv_parses_weight_port_target() {
    let r = record("SRV", "5 8080 service.frol.near.", 120, Some(1));
    match r.to_rdata("frol.near").unwrap() {
        WireData::Srv { priority, weight, port, target } => {
            assert_eq!(priority, 1);
            assert_eq!(weight, 5);
            assert_eq!(port, 8080);
            assert_eq!(target, "service.frol.near.");
        }
        _ => panic!("expected an SRV payload"),
    }
}

#[test]
fn srv_rejects_bad_shapes() {
    let r = record("SRV", "5 8080", 120, None);
    assert!(matches!(
        r.to_rdata("frol.near").unwrap_err(),
        RecordConversionError::InvalidFormat(_, _)
    ));
    let r = record("SRV", "x 8080 target", 120, None);
    assert!(matches!(
        r.to_rdata("frol.near").unwrap_err(),
        RecordConversionError::InvalidFormat(_, _)
    ));
    let r = record("SRV", "5 70000 target", 120, None);
    assert!(matches!(
        r.to_rdata("frol.near").unwrap_err(),
        RecordConversionError::InvalidFormat(_, _)
    ));
}

#[test]
fn numeric_tokens_accept_one_leading_plus_sign() {
    let r = record("SRV", "+5 +8080 service", 120, None);
    match r.to_rdata("frol.near").unwrap() {
        WireData::Srv { weight, port, .. } => {
            assert_eq!(weight, 5);
            assert_eq!(port, 8080);
        }
        _ => panic!("expected an SRV payload"),
    }
    let r = record("SOA", "ns1 admin +7 +7200 -3600 +1209600 300", 300, None);
    match r.to_rdata("frol.near").unwrap() {
        WireData::Soa { serial, refresh, retry, expire, .. } => {
            assert_eq!(serial, 7);
            assert_eq!(refresh, 7200);
            assert_eq!(retry, -3600);
            assert_eq!(expire, 1209600);
        }
        _ => panic!("expected an SOA payload"),
    }
    // Only one sign, and only at the front.
    let r = record("SRV", "++5 8080 service", 120, None);
    assert!(matches!(
        r.to_rdata("frol.near").unwrap_err(),
        RecordConversionError::InvalidFormat(_, _)
    ));
    let r = record("SOA", "ns1 admin 7 +-7200 3600 1209600 300", 300, None);
    assert!(matches!(
        r.to_rdata("frol.near").unwrap_err(),
        RecordConversionError::InvalidFormat(_, _)
    ));
}

#[test]
fn soa_parses_all_seven_fields() {
    let r = record("SOA", "ns1 admin 2024010101 7200 -3600 1209600 300", 300, None);
    match r.to_rdata("frol.near").unwrap() {
        WireData::Soa { mname, rname, serial, refresh, retry, expire, minimum } => {
            assert_eq!(mname, "ns1.frol.near");
            assert_eq!(rname, "admin.frol.near");
            assert_eq!(serial, 2024010101);
            assert_eq!(refresh, 7200);
            assert_eq!(retry, -3600);
            assert_eq!(expire, 1209600);
            assert_eq!(minimum, 300);
        }
        _ => panic!("expected an SOA payload"),
    }
}

#[test]
fn caa_and_unknown_types_are_unsupported() {
    let r = record("CAA", "0 issue \"ca.example\"", 300, None);
    assert!(matches!(
        r.to_rdata("frol.near").unwrap_err(),
        RecordConversionError::UnsupportedType(_)
    ));
    let r = record("WEIRD", "x", 300, None);
    assert!(matches!(
        r.to_rdata("frol.near").unwrap_err(),
        RecordConversionError::UnsupportedType(_)
    ));
}

#[test]
fn conversion_is_pure_and_type_case_insensitive() {
    // Identical inputs convert identically, and the type label folds.
    let a = record("a", "10.0.0.1", 60, None);
    let b = record("A", "10.0.0.1", 60, None);
    let wa = a.to_rdata("x.near").unwrap();
    let wb = b.to_rdata("x.near").unwrap();
    let wa2 = a.to_rdata("x.near").unwrap();
    match (&wa, &wb, &wa2) {
        (WireData::A(x), WireData::A(y), WireData::A(z)) => {
            assert_eq!(x.octets, y.octets);
            assert_eq!(x.octets, z.octets);
        }
        _ => panic!("expected A payloads"),
    }
}

#[test]
fn to_dns_record_carries_name_and_ttl() {
    let r = record("A", "10.0.0.1", 60, None);
    let w = r.to_dns_record("www.frol.near", "frol.near").unwrap();
    assert_eq!(w.name, "www.frol.near");
    assert_eq!(w.ttl, 60);
    assert!(matches!(w.data, WireData::A(_)));
}

#[test]
fn convert_records_drops_failing_records() {
    let rs = vec![
        record("A", "10.0.0.1", 60, None),
        record("A", "not-an-ip", 60, None),
        record("A", "10.0.0.2", 61, None),
    ];
    let out = convert_records(&rs, "frol.near", "frol.near");
    assert_eq!(out.len(), 2);
    assert_eq!(out[0].ttl, 60);
    assert_eq!(out[1].ttl, 61);
}

#[test]
fn record_type_names_round_out() {
    assert_eq!(record_type_to_string(RecordKind::A), "A");
    assert_eq!(record_type_to_string(RecordKind::Aaaa), "AAAA");
    assert_eq!(record_type_to_string(RecordKind::Mx), "MX");
    assert_eq!(record_type_to_string(RecordKind::Caa), "CAA");
    assert_eq!(record_type_to_string(RecordKind::Unknown), "UNKNOWN");
}
