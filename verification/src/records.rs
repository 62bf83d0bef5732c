//! The stored record shape and its conversion to wire-format resource
//! records.
//!
//! A stored record carries a textual `record_type`, a textual `value`, a TTL
//! and an optional priority.  Conversion interprets the value according to
//! the type: IPv4 and IPv6 literals for `A`/`AAAA`, domain names qualified
//! against an origin for `CNAME`/`NS`/`PTR`/`MX` (and inside `SRV`/`SOA`),
//! literal text for `TXT`.  Numeric fields are plain decimal with one
//! optional leading plus sign; a minus sign is permitted only for the three
//! signed `SOA` fields.  Domain
//! names are accepted when every label is one to 63 characters; the sentinel
//! `"@"` stands for the origin itself and a trailing dot marks a name as
//! fully qualified, bypassing origin qualification.

use vstd::prelude::*;

use crate::ip::{ipv4_octets, ipv6_group_vals, is_ipv4_text, is_ipv6_text, Ipv4, Ipv6};
use crate::text::{
    all_digits, dec_i32_val, dec_val, is_dec_i32, plus_stripped, split_char, split_ws, upper_seq,
};

verus! {

/// A DNS record as stored by a naming contract.
#[derive(Debug)]
pub struct DnsRecord {
    pub record_type: String,
    pub value: String,
    pub ttl: u32,
    pub priority: Option<u16>,
}

/// The mathematical shape of a stored record.
pub struct RecordView {
    pub record_type: Seq<char>,
    pub value: Seq<char>,
    pub ttl: u32,
    pub priority: Option<u16>,
}

impl View for DnsRecord {
    type V = RecordView;

    open spec fn view(&self) -> RecordView {
        RecordView {
            record_type: self.record_type@,
            value: self.value@,
            ttl: self.ttl,
            priority: self.priority,
        }
    }
}

impl Clone for DnsRecord {
    fn clone(&self) -> (r: Self)
        ensures
            r@ == self@,
    {
        DnsRecord {
            record_type: self.record_type.clone(),
            value: self.value.clone(),
            ttl: self.ttl,
            priority: self.priority,
        }
    }
}

/// The views of a sequence of stored records.
pub open spec fn records_view(s: Seq<DnsRecord>) -> Seq<RecordView> {
    s.map_values(|r: DnsRecord| r@)
}

/// Why one stored record failed to convert.
#[derive(Debug)]
pub enum RecordConversionError {
    InvalidIpv4(String),
    InvalidIpv6(String),
    InvalidDomainName(String),
    InvalidFormat(String, String),
    UnsupportedType(String),
}

/// The mathematical shape of a conversion error.
pub enum ConversionErrorView {
    InvalidIpv4(Seq<char>),
    InvalidIpv6(Seq<char>),
    InvalidDomainName(Seq<char>),
    InvalidFormat(Seq<char>, Seq<char>),
    UnsupportedType(Seq<char>),
}

impl View for RecordConversionError {
    type V = ConversionErrorView;

    open spec fn view(&self) -> ConversionErrorView {
        match self {
            RecordConversionError::InvalidIpv4(s) => ConversionErrorView::InvalidIpv4(s@),
            RecordConversionError::InvalidIpv6(s) => ConversionErrorView::InvalidIpv6(s@),
            RecordConversionError::InvalidDomainName(s) => ConversionErrorView::InvalidDomainName(
                s@,
            ),
            RecordConversionError::InvalidFormat(t, m) => ConversionErrorView::InvalidFormat(
                t@,
                m@,
            ),
            RecordConversionError::UnsupportedType(s) => ConversionErrorView::UnsupportedType(s@),
        }
    }
}

impl RecordConversionError {
    /// A short description of the error.
    pub fn describe(&self) -> (r: String)
        ensures
            r@ == match self@ {
                ConversionErrorView::InvalidIpv4(_) => "invalid IPv4 address"@,
                ConversionErrorView::InvalidIpv6(_) => "invalid IPv6 address"@,
                ConversionErrorView::InvalidDomainName(_) => "invalid domain name"@,
                ConversionErrorView::InvalidFormat(_, _) => "invalid record format"@,
                ConversionErrorView::UnsupportedType(_) => "unsupported record type"@,
            },
    {
        match self {
            RecordConversionError::InvalidIpv4(_) => String::from_str("invalid IPv4 address"),
            RecordConversionError::InvalidIpv6(_) => String::from_str("invalid IPv6 address"),
            RecordConversionError::InvalidDomainName(_) => String::from_str("invalid domain name"),
            RecordConversionError::InvalidFormat(_, _) => String::from_str(
                "invalid record format",
            ),
            RecordConversionError::UnsupportedType(_) => String::from_str(
                "unsupported record type",
            ),
        }
    }
}

/// The type-specific payload of a wire-format resource record.
#[derive(Debug)]
pub enum WireData {
    A(Ipv4),
    Aaaa(Ipv6),
    Cname(String),
    Ns(String),
    Ptr(String),
    Mx { preference: u16, exchange: String },
    Txt(Vec<String>),
    Srv { priority: u16, weight: u16, port: u16, target: String },
    Soa {
        mname: String,
        rname: String,
        serial: u32,
        refresh: i32,
        retry: i32,
        expire: i32,
        minimum: u32,
    },
}

/// The mathematical shape of a wire payload.
pub enum WireDataView {
    A(Seq<u8>),
    Aaaa(Seq<u16>),
    Cname(Seq<char>),
    Ns(Seq<char>),
    Ptr(Seq<char>),
    Mx { preference: u16, exchange: Seq<char> },
    Txt(Seq<Seq<char>>),
    Srv { priority: u16, weight: u16, port: u16, target: Seq<char> },
    Soa {
        mname: Seq<char>,
        rname: Seq<char>,
        serial: u32,
        refresh: i32,
        retry: i32,
        expire: i32,
        minimum: u32,
    },
}

impl View for WireData {
    type V = WireDataView;

    open spec fn view(&self) -> WireDataView {
        match self {
            WireData::A(ip) => WireDataView::A(ip@),
            WireData::Aaaa(ip) => WireDataView::Aaaa(ip@),
            WireData::Cname(n) => WireDataView::Cname(n@),
            WireData::Ns(n) => WireDataView::Ns(n@),
            WireData::Ptr(n) => WireDataView::Ptr(n@),
            WireData::Mx { preference, exchange } => WireDataView::Mx {
                preference: *preference,
                exchange: exchange@,
            },
            WireData::Txt(ts) => WireDataView::Txt(ts@.map_values(|t: String| t@)),
            WireData::Srv { priority, weight, port, target } => WireDataView::Srv {
                priority: *priority,
                weight: *weight,
                port: *port,
                target: target@,
            },
            WireData::Soa { mname, rname, serial, refresh, retry, expire, minimum } => (
            WireDataView::Soa {
                mname: mname@,
                rname: rname@,
                serial: *serial,
                refresh: *refresh,
                retry: *retry,
                expire: *expire,
                minimum: *minimum,
            }),
        }
    }
}

/// A wire-format resource record: owner name, TTL and payload.
#[derive(Debug)]
pub struct WireRecord {
    pub name: String,
    pub ttl: u32,
    pub data: WireData,
}

/// The mathematical shape of a wire record.
pub struct WireRecordView {
    pub name: Seq<char>,
    pub ttl: u32,
    pub data: WireDataView,
}

impl View for WireRecord {
    type V = WireRecordView;

    open spec fn view(&self) -> WireRecordView {
        WireRecordView { name: self.name@, ttl: self.ttl, data: self.data@ }
    }
}

/// A domain-name text is accepted when it is the bare root `"."` or when
/// each of its dot-separated labels (a single trailing dot ignored) has one
/// to 63 characters.
/// The text whose labels are checked: a single trailing dot is dropped.
pub open spec fn domain_body(s: Seq<char>) -> Seq<char> {
    if s.len() > 0 && s[s.len() - 1] == '.' {
        s.drop_last()
    } else {
        s
    }
}

pub open spec fn is_valid_domain(s: Seq<char>) -> bool {
    if s == "."@ {
        true
    } else {
        domain_body(s).len() >= 1 && {
            let labels = split_char(domain_body(s), '.');
            forall|i: int| 0 <= i < labels.len() ==> 1 <= (#[trigger] labels[i]).len() <= 63
        }
    }
}

/// Origin qualification: `"@"` is the origin itself, a name with a trailing
/// dot is already fully qualified, anything else has the origin appended.
pub open spec fn qualified_name(name: Seq<char>, origin: Seq<char>) -> Seq<char> {
    if name == "@"@ {
        origin
    } else if name.len() > 0 && name[name.len() - 1] == '.' {
        name
    } else {
        name + "."@ + origin
    }
}

/// Whether origin qualification of `name` succeeds: the origin sentinel is
/// always accepted, anything else must qualify to a valid domain text.
pub open spec fn qualifies(name: Seq<char>, origin: Seq<char>) -> bool {
    name == "@"@ || is_valid_domain(qualified_name(name, origin))
}

/// What a whole-record conversion yields, as a function of the record view
/// and the origin.
pub open spec fn to_rdata_spec(rec: RecordView, origin: Seq<char>) -> Result<
    WireDataView,
    ConversionErrorView,
> {
    let rt = upper_seq(rec.record_type);
    if rt == "A"@ {
        if is_ipv4_text(rec.value) {
            Ok(WireDataView::A(ipv4_octets(rec.value)))
        } else {
            Err(ConversionErrorView::InvalidIpv4(rec.value))
        }
    } else if rt == "AAAA"@ {
        if is_ipv6_text(rec.value) {
            Ok(WireDataView::Aaaa(ipv6_group_vals(rec.value).unwrap()))
        } else {
            Err(ConversionErrorView::InvalidIpv6(rec.value))
        }
    } else if rt == "CNAME"@ {
        if qualifies(rec.value, origin) {
            Ok(WireDataView::Cname(qualified_name(rec.value, origin)))
        } else {
            Err(ConversionErrorView::InvalidDomainName(qualified_name(rec.value, origin)))
        }
    } else if rt == "NS"@ {
        if qualifies(rec.value, origin) {
            Ok(WireDataView::Ns(qualified_name(rec.value, origin)))
        } else {
            Err(ConversionErrorView::InvalidDomainName(qualified_name(rec.value, origin)))
        }
    } else if rt == "PTR"@ {
        if qualifies(rec.value, origin) {
            Ok(WireDataView::Ptr(qualified_name(rec.value, origin)))
        } else {
            Err(ConversionErrorView::InvalidDomainName(qualified_name(rec.value, origin)))
        }
    } else if rt == "MX"@ {
        if qualifies(rec.value, origin) {
            Ok(
                WireDataView::Mx {
                    preference: priority_or_default(rec.priority),
                    exchange: qualified_name(rec.value, origin),
                },
            )
        } else {
            Err(ConversionErrorView::InvalidDomainName(qualified_name(rec.value, origin)))
        }
    } else if rt == "TXT"@ {
        Ok(WireDataView::Txt(seq![rec.value]))
    } else if rt == "SRV"@ {
        srv_spec(rec, origin)
    } else if rt == "SOA"@ {
        soa_spec(rec, origin)
    } else {
        Err(ConversionErrorView::UnsupportedType(rec.record_type))
    }
}

/// The preference used when a record carries no priority.
pub open spec fn priority_or_default(p: Option<u16>) -> u16 {
    match p {
        Some(v) => v,
        None => 10,
    }
}

/// Whether a token is an unsigned decimal, one optional leading plus sign
/// allowed, that fits `u16`.
pub open spec fn is_dec_u16(s: Seq<char>) -> bool {
    let t = plus_stripped(s);
    t.len() >= 1 && all_digits(t) && dec_val(t) <= 0xffff
}

/// Whether a token is an unsigned decimal, one optional leading plus sign
/// allowed, that fits `u32`.
pub open spec fn is_dec_u32(s: Seq<char>) -> bool {
    let t = plus_stripped(s);
    t.len() >= 1 && all_digits(t) && dec_val(t) <= 0xffff_ffff
}

/// `SRV` conversion: the value must be `weight port target`.
pub open spec fn srv_spec(rec: RecordView, origin: Seq<char>) -> Result<
    WireDataView,
    ConversionErrorView,
> {
    let toks = split_ws(rec.value);
    if toks.len() != 3 {
        Err(ConversionErrorView::InvalidFormat("SRV"@, "expected 'weight port target'"@))
    } else if !is_dec_u16(toks[0]) {
        Err(ConversionErrorView::InvalidFormat("SRV"@, "invalid weight"@))
    } else if !is_dec_u16(toks[1]) {
        Err(ConversionErrorView::InvalidFormat("SRV"@, "invalid port"@))
    } else if !qualifies(toks[2], origin) {
        Err(ConversionErrorView::InvalidDomainName(qualified_name(toks[2], origin)))
    } else {
        Ok(
            WireDataView::Srv {
                priority: priority_or_default(rec.priority),
                weight: dec_val(plus_stripped(toks[0])) as u16,
                port: dec_val(plus_stripped(toks[1])) as u16,
                target: qualified_name(toks[2], origin),
            },
        )
    }
}

/// `SOA` conversion: the value must be
/// `mname rname serial refresh retry expire minimum`.
pub open spec fn soa_spec(rec: RecordView, origin: Seq<char>) -> Result<
    WireDataView,
    ConversionErrorView,
> {
    let toks = split_ws(rec.value);
    if toks.len() != 7 {
        Err(
            ConversionErrorView::InvalidFormat(
                "SOA"@,
                "expected 'mname rname serial refresh retry expire minimum'"@,
            ),
        )
    } else if !qualifies(toks[0], origin) {
        Err(ConversionErrorView::InvalidDomainName(qualified_name(toks[0], origin)))
    } else if !qualifies(toks[1], origin) {
        Err(ConversionErrorView::InvalidDomainName(qualified_name(toks[1], origin)))
    } else if !is_dec_u32(toks[2]) {
        Err(ConversionErrorView::InvalidFormat("SOA"@, "invalid serial"@))
    } else if !is_dec_i32(toks[3]) {
        Err(ConversionErrorView::InvalidFormat("SOA"@, "invalid refresh"@))
    } else if !is_dec_i32(toks[4]) {
        Err(ConversionErrorView::InvalidFormat("SOA"@, "invalid retry"@))
    } else if !is_dec_i32(toks[5]) {
        Err(ConversionErrorView::InvalidFormat("SOA"@, "invalid expire"@))
    } else if !is_dec_u32(toks[6]) {
        Err(ConversionErrorView::InvalidFormat("SOA"@, "invalid minimum"@))
    } else {
        Ok(
            WireDataView::Soa {
                mname: qualified_name(toks[0], origin),
                rname: qualified_name(toks[1], origin),
                serial: dec_val(plus_stripped(toks[2])) as u32,
                refresh: dec_i32_val(toks[3]) as i32,
                retry: dec_i32_val(toks[4]) as i32,
                expire: dec_i32_val(toks[5]) as i32,
                minimum: dec_val(plus_stripped(toks[6])) as u32,
            },
        )
    }
}

/// Checks a domain-name text against [`is_valid_domain`].
fn check_domain(s: &str) -> (r: bool)
    ensures
        r == is_valid_domain(s@),
{
    if crate::text::str_eq(s, ".") {
        return true;
    }
    let n = s.unicode_len();
    let body: &str = if n > 0 && s.get_char(n - 1) == '.' {
        s.substring_char(0, n - 1)
    } else {
        s
    };
    proof {
        if n > 0 && s@[n - 1] == '.' {
            assert(body@ =~= s@.drop_last());
        }
        assert(body@ == domain_body(s@));
    }
    let m = body.unicode_len();
    if m == 0 {
        return false;
    }
    let labels = crate::text::split_on(body, '.');
    let mut i: usize = 0;
    let k = labels.len();
    proof {
        assert(crate::text::str_views(labels@).len() == k);
    }
    while i < k
        invariant
            s@ != "."@,
            body@ == domain_body(s@),
            body@.len() >= 1,
            crate::text::str_views(labels@) == split_char(body@, '.'),
            labels@.len() == k,
            i <= k,
            forall|j: int|
                0 <= j < i ==> 1 <= (#[trigger] split_char(body@, '.')[j]).len() <= 63,
        decreases k - i,
    {
        proof {
            assert(crate::text::str_views(labels@)[i as int] == labels@[i as int]@);
        }
        let len = labels[i].as_str().unicode_len();
        if len == 0 || len > 63 {
            proof {
                assert(split_char(body@, '.')[i as int] == labels@[i as int]@);
                assert(!(1 <= (split_char(domain_body(s@), '.')[i as int]).len() <= 63));
                assert(!is_valid_domain(s@));
            }
            return false;
        }
        i = i + 1;
    }
    proof {
        assert(forall|j: int|
            0 <= j < split_char(domain_body(s@), '.').len() ==> 1 <= (#[trigger] split_char(
                domain_body(s@),
                '.',
            )[j]).len() <= 63);
    }
    true
}

/// The recognized type labels are pairwise distinct texts.
proof fn lemma_rt_distinct()
    ensures
        "SRV"@ != "A"@,
        "SRV"@ != "AAAA"@,
        "SRV"@ != "CNAME"@,
        "SRV"@ != "NS"@,
        "SRV"@ != "PTR"@,
        "SRV"@ != "MX"@,
        "SRV"@ != "TXT"@,
        "SOA"@ != "A"@,
        "SOA"@ != "AAAA"@,
        "SOA"@ != "CNAME"@,
        "SOA"@ != "NS"@,
        "SOA"@ != "PTR"@,
        "SOA"@ != "MX"@,
        "SOA"@ != "TXT"@,
        "SOA"@ != "SRV"@,
{
    reveal_strlit("A");
    reveal_strlit("AAAA");
    reveal_strlit("CNAME");
    reveal_strlit("NS");
    reveal_strlit("PTR");
    reveal_strlit("MX");
    reveal_strlit("TXT");
    reveal_strlit("SRV");
    reveal_strlit("SOA");
    assert("A"@.len() == 1);
    assert("AAAA"@.len() == 4);
    assert("CNAME"@.len() == 5);
    assert("NS"@.len() == 2);
    assert("MX"@.len() == 2);
    assert("PTR"@.len() == 3);
    assert("TXT"@.len() == 3);
    assert("SRV"@.len() == 3);
    assert("SOA"@.len() == 3);
    assert("SRV"@[0] == 'S');
    assert("SOA"@[0] == 'S');
    assert("PTR"@[0] == 'P');
    assert("TXT"@[0] == 'T');
    assert("SRV"@[1] == 'R');
    assert("SOA"@[1] == 'O');
}

/// Origin-qualifies a name: `"@"` becomes the origin, a trailing dot is kept
/// as is, anything else gets the origin appended; the outcome (except for
/// `"@"`) must be a valid domain text.
pub fn qualify_domain(name: &str, origin: &str) -> (r: Result<String, RecordConversionError>)
    ensures
        r matches Ok(q) ==> qualifies(name@, origin@) && q@ == qualified_name(name@, origin@),
        r matches Err(e) ==> !qualifies(name@, origin@) && e@
            == ConversionErrorView::InvalidDomainName(qualified_name(name@, origin@)),
{
    if crate::text::str_eq(name, "@") {
        return Ok(String::from_str(origin));
    }
    let n = name.unicode_len();
    let full: String = if n > 0 && name.get_char(n - 1) == '.' {
        String::from_str(name)
    } else {
        let mut f = String::from_str(name);
        f.append(".");
        f.append(origin);
        f
    };
    proof {
        assert(full@ == qualified_name(name@, origin@));
    }
    if check_domain(full.as_str()) {
        Ok(full)
    } else {
        Err(RecordConversionError::InvalidDomainName(full))
    }
}

impl DnsRecord {
    /// Converts the record's value into a wire payload interpreted against
    /// `origin`, exactly as [`to_rdata_spec`] states.
    pub fn to_rdata(&self, origin: &str) -> (r: Result<WireData, RecordConversionError>)
        ensures
            r matches Ok(d) ==> to_rdata_spec(self@, origin@) == Ok::<
                WireDataView,
                ConversionErrorView,
            >(d@),
            r matches Err(e) ==> to_rdata_spec(self@, origin@) == Err::<
                WireDataView,
                ConversionErrorView,
            >(e@),
    {
        let rt = crate::text::to_upper(self.record_type.as_str());
        if crate::text::str_eq(rt.as_str(), "A") {
            match crate::ip::parse_ipv4(self.value.as_str()) {
                Some(ip) => Ok(WireData::A(ip)),
                None => Err(RecordConversionError::InvalidIpv4(self.value.clone())),
            }
        } else if crate::text::str_eq(rt.as_str(), "AAAA") {
            match crate::ip::parse_ipv6(self.value.as_str()) {
                Some(ip) => Ok(WireData::Aaaa(ip)),
                None => Err(RecordConversionError::InvalidIpv6(self.value.clone())),
            }
        } else if crate::text::str_eq(rt.as_str(), "CNAME") {
            match qualify_domain(self.value.as_str(), origin) {
                Ok(q) => Ok(WireData::Cname(q)),
                Err(e) => Err(e),
            }
        } else if crate::text::str_eq(rt.as_str(), "NS") {
            match qualify_domain(self.value.as_str(), origin) {
                Ok(q) => Ok(WireData::Ns(q)),
                Err(e) => Err(e),
            }
        } else if crate::text::str_eq(rt.as_str(), "PTR") {
            match qualify_domain(self.value.as_str(), origin) {
                Ok(q) => Ok(WireData::Ptr(q)),
                Err(e) => Err(e),
            }
        } else if crate::text::str_eq(rt.as_str(), "MX") {
            match qualify_domain(self.value.as_str(), origin) {
                Ok(q) => Ok(
                    WireData::Mx { preference: priority_value(&self.priority), exchange: q },
                ),
                Err(e) => Err(e),
            }
        } else if crate::text::str_eq(rt.as_str(), "TXT") {
            let mut ts: Vec<String> = Vec::new();
            ts.push(self.value.clone());
            proof {
                assert(ts@.map_values(|t: String| t@) =~= seq![self.value@]);
            }
            Ok(WireData::Txt(ts))
        } else if crate::text::str_eq(rt.as_str(), "SRV") {
            self.to_srv(origin)
        } else if crate::text::str_eq(rt.as_str(), "SOA") {
            self.to_soa(origin)
        } else {
            Err(RecordConversionError::UnsupportedType(self.record_type.clone()))
        }
    }

    fn to_srv(&self, origin: &str) -> (r: Result<WireData, RecordConversionError>)
        requires
            upper_seq(self@.record_type) == "SRV"@,
        ensures
            r matches Ok(d) ==> to_rdata_spec(self@, origin@) == Ok::<
                WireDataView,
                ConversionErrorView,
            >(d@),
            r matches Err(e) ==> to_rdata_spec(self@, origin@) == Err::<
                WireDataView,
                ConversionErrorView,
            >(e@),
    {
        proof {
            lemma_rt_distinct();
            assert(to_rdata_spec(self@, origin@) == srv_spec(self@, origin@));
        }
        let toks = crate::text::split_blank(self.value.as_str());
        proof {
            assert(crate::text::str_views(toks@).len() == toks@.len());
        }
        if toks.len() != 3 {
            return Err(
                RecordConversionError::InvalidFormat(
                    String::from_str("SRV"),
                    String::from_str("expected 'weight port target'"),
                ),
            );
        }
        proof {
            assert(crate::text::str_views(toks@)[0] == toks@[0]@);
            assert(crate::text::str_views(toks@)[1] == toks@[1]@);
            assert(crate::text::str_views(toks@)[2] == toks@[2]@);
        }
        let weight = match crate::text::parse_u16_token(toks[0].as_str()) {
            Some(w) => w,
            None => {
                return Err(
                    RecordConversionError::InvalidFormat(
                        String::from_str("SRV"),
                        String::from_str("invalid weight"),
                    ),
                );
            },
        };
        let port = match crate::text::parse_u16_token(toks[1].as_str()) {
            Some(p) => p,
            None => {
                return Err(
                    RecordConversionError::InvalidFormat(
                        String::from_str("SRV"),
                        String::from_str("invalid port"),
                    ),
                );
            },
        };
        match qualify_domain(toks[2].as_str(), origin) {
            Ok(target) => Ok(
                WireData::Srv { priority: priority_value(&self.priority), weight, port, target },
            ),
            Err(e) => Err(e),
        }
    }

    fn to_soa(&self, origin: &str) -> (r: Result<WireData, RecordConversionError>)
        requires
            upper_seq(self@.record_type) == "SOA"@,
        ensures
            r matches Ok(d) ==> to_rdata_spec(self@, origin@) == Ok::<
                WireDataView,
                ConversionErrorView,
            >(d@),
            r matches Err(e) ==> to_rdata_spec(self@, origin@) == Err::<
                WireDataView,
                ConversionErrorView,
            >(e@),
    {
        proof {
            lemma_rt_distinct();
            assert(to_rdata_spec(self@, origin@) == soa_spec(self@, origin@));
        }
        let toks = crate::text::split_blank(self.value.as_str());
        proof {
            assert(crate::text::str_views(toks@).len() == toks@.len());
        }
        if toks.len() != 7 {
            return Err(
                RecordConversionError::InvalidFormat(
                    String::from_str("SOA"),
                    String::from_str("expected 'mname rname serial refresh retry expire minimum'"),
                ),
            );
        }
        proof {
            assert forall|j: int| 0 <= j < 7 implies #[trigger] crate::text::str_views(toks@)[j]
                == toks@[j]@ by {}
        }
        let mname = match qualify_domain(toks[0].as_str(), origin) {
            Ok(q) => q,
            Err(e) => {
                return Err(e);
            },
        };
        let rname = match qualify_domain(toks[1].as_str(), origin) {
            Ok(q) => q,
            Err(e) => {
                return Err(e);
            },
        };
        let serial = match crate::text::parse_u32_token(toks[2].as_str()) {
            Some(v) => v,
            None => {
                return Err(
                    RecordConversionError::InvalidFormat(
                        String::from_str("SOA"),
                        String::from_str("invalid serial"),
                    ),
                );
            },
        };
        let refresh = match crate::text::parse_i32(toks[3].as_str()) {
            Some(v) => v,
            None => {
                return Err(
                    RecordConversionError::InvalidFormat(
                        String::from_str("SOA"),
                        String::from_str("invalid refresh"),
                    ),
                );
            },
        };
        let retry = match crate::text::parse_i32(toks[4].as_str()) {
            Some(v) => v,
            None => {
                return Err(
                    RecordConversionError::InvalidFormat(
                        String::from_str("SOA"),
                        String::from_str("invalid retry"),
                    ),
                );
            },
        };
        let expire = match crate::text::parse_i32(toks[5].as_str()) {
            Some(v) => v,
            None => {
                return Err(
                    RecordConversionError::InvalidFormat(
                        String::from_str("SOA"),
                        String::from_str("invalid expire"),
                    ),
                );
            },
        };
        let minimum = match crate::text::parse_u32_token(toks[6].as_str()) {
            Some(v) => v,
            None => {
                return Err(
                    RecordConversionError::InvalidFormat(
                        String::from_str("SOA"),
                        String::from_str("invalid minimum"),
                    ),
                );
            },
        };
        Ok(WireData::Soa { mname, rname, serial, refresh, retry, expire, minimum })
    }

    /// Converts to a full wire record owned by `name`, the value interpreted
    /// against `origin`.
    pub fn to_dns_record(&self, name: &str, origin: &str) -> (r: Result<
        WireRecord,
        RecordConversionError,
    >)
        ensures
            r matches Ok(w) ==> to_rdata_spec(self@, origin@) matches Ok(d) && w@
                == (WireRecordView { name: name@, ttl: self@.ttl, data: d }),
            r matches Err(e) ==> to_rdata_spec(self@, origin@) == Err::<
                WireDataView,
                ConversionErrorView,
            >(e@),
    {
        match self.to_rdata(origin) {
            Ok(data) => Ok(WireRecord { name: String::from_str(name), ttl: self.ttl, data }),
            Err(e) => Err(e),
        }
    }
}

/// Conversion is pure: it is a function of the record and the origin alone,
/// so two conversions of equal inputs are equal, and no run can differ from
/// another.
pub proof fn lemma_conversion_pure(
    a: RecordView,
    b: RecordView,
    origin_a: Seq<char>,
    origin_b: Seq<char>,
)
    requires
        a == b,
        origin_a == origin_b,
    ensures
        to_rdata_spec(a, origin_a) == to_rdata_spec(b, origin_b),
{
}

fn priority_value(p: &Option<u16>) -> (r: u16)
    ensures
        r == priority_or_default(*p),
{
    match p {
        Some(v) => *v,
        None => 10,
    }
}

/// What converting a whole answer set yields: records that fail are dropped,
/// the others are kept in order.
pub open spec fn convert_records_spec(
    rs: Seq<RecordView>,
    name: Seq<char>,
    origin: Seq<char>,
) -> Seq<WireRecordView>
    decreases rs.len(),
{
    if rs.len() == 0 {
        Seq::empty()
    } else {
        convert_records_spec(rs.drop_last(), name, origin) + match to_rdata_spec(
            rs.last(),
            origin,
        ) {
            Ok(d) => seq![WireRecordView { name, ttl: rs.last().ttl, data: d }],
            Err(_) => Seq::empty(),
        }
    }
}

/// Converts an answer set, dropping records that do not convert.
pub fn convert_records(records: &Vec<DnsRecord>, name: &str, origin: &str) -> (r: Vec<WireRecord>)
    ensures
        r@.map_values(|w: WireRecord| w@) == convert_records_spec(
            records_view(records@),
            name@,
            origin@,
        ),
{
    let mut out: Vec<WireRecord> = Vec::new();
    let mut i: usize = 0;
    let n = records.len();
    proof {
        assert(records_view(records@).take(0) =~= Seq::<RecordView>::empty());
        assert(out@.map_values(|w: WireRecord| w@) =~= Seq::<WireRecordView>::empty());
    }
    while i < n
        invariant
            n == records@.len(),
            i <= n,
            out@.map_values(|w: WireRecord| w@) == convert_records_spec(
                records_view(records@).take(i as int),
                name@,
                origin@,
            ),
        decreases n - i,
    {
        let ghost pre = records_view(records@).take(i as int);
        proof {
            assert(records_view(records@).take(i + 1).drop_last() =~= pre);
            assert(records_view(records@).take(i + 1).last() == records@[i as int]@);
        }
        match records[i].to_dns_record(name, origin) {
            Ok(w) => {
                proof {
                    assert(out@.push(w).map_values(|x: WireRecord| x@) =~= out@.map_values(
                        |x: WireRecord| x@,
                    ).push(w@));
                }
                out.push(w);
            },
            Err(_) => {
                proof {
                    assert(convert_records_spec(records_view(records@).take(i + 1), name@, origin@)
                        =~= convert_records_spec(pre, name@, origin@));
                }
            },
        }
        i = i + 1;
    }
    proof {
        assert(records_view(records@).take(n as int) =~= records_view(records@));
    }
    out
}

/// The textual name of a query type, `"UNKNOWN"` for anything outside the
/// recognized vocabulary.
#[derive(Debug)]
pub enum RecordKind {
    A,
    Aaaa,
    Cname,
    Mx,
    Ns,
    Ptr,
    Soa,
    Srv,
    Txt,
    Caa,
    Unknown,
}

pub open spec fn record_kind_text(rt: RecordKind) -> Seq<char> {
    match rt {
        RecordKind::A => "A"@,
        RecordKind::Aaaa => "AAAA"@,
        RecordKind::Cname => "CNAME"@,
        RecordKind::Mx => "MX"@,
        RecordKind::Ns => "NS"@,
        RecordKind::Ptr => "PTR"@,
        RecordKind::Soa => "SOA"@,
        RecordKind::Srv => "SRV"@,
        RecordKind::Txt => "TXT"@,
        RecordKind::Caa => "CAA"@,
        RecordKind::Unknown => "UNKNOWN"@,
    }
}

/// The upper-case type label sent to naming contracts for a query type.
pub fn record_type_to_string(rt: RecordKind) -> (r: String)
    ensures
        r@ == record_kind_text(rt),
{
    match rt {
        RecordKind::A => String::from_str("A"),
        RecordKind::Aaaa => String::from_str("AAAA"),
        RecordKind::Cname => String::from_str("CNAME"),
        RecordKind::Mx => String::from_str("MX"),
        RecordKind::Ns => String::from_str("NS"),
        RecordKind::Ptr => String::from_str("PTR"),
        RecordKind::Soa => String::from_str("SOA"),
        RecordKind::Srv => String::from_str("SRV"),
        RecordKind::Txt => String::from_str("TXT"),
        RecordKind::Caa => String::from_str("CAA"),
        RecordKind::Unknown => String::from_str("UNKNOWN"),
    }
}

/// Copies a record set; the copy views the same.
pub fn clone_records(records: &Vec<DnsRecord>) -> (r: Vec<DnsRecord>)
    ensures
        records_view(r@) == records_view(records@),
{
    let mut out: Vec<DnsRecord> = Vec::new();
    let mut i: usize = 0;
    let n = records.len();
    while i < n
        invariant
            n == records@.len(),
            i <= n,
            out@.len() == i,
            forall|k: int| 0 <= k < i ==> #[trigger] out@[k]@ == records@[k]@,
        decreases n - i,
    {
        out.push(records[i].clone());
        i = i + 1;
    }
    proof {
        assert(records_view(out@) =~= records_view(records@));
    }
    out
}

/// The recognized record-type vocabulary, in its fixed order.
pub open spec fn type_names_ok(s: Seq<String>) -> bool {
    &&& s.len() == 10
    &&& s[0]@ == "A"@
    &&& s[1]@ == "AAAA"@
    &&& s[2]@ == "CNAME"@
    &&& s[3]@ == "MX"@
    &&& s[4]@ == "NS"@
    &&& s[5]@ == "TXT"@
    &&& s[6]@ == "SRV"@
    &&& s[7]@ == "SOA"@
    &&& s[8]@ == "PTR"@
    &&& s[9]@ == "CAA"@
}

/// The recognized record types, in the order bulk operations visit them.
pub fn known_type_names() -> (r: Vec<String>)
    ensures
        type_names_ok(r@),
{
    let mut v: Vec<String> = Vec::new();
    v.push(String::from_str("A"));
    v.push(String::from_str("AAAA"));
    v.push(String::from_str("CNAME"));
    v.push(String::from_str("MX"));
    v.push(String::from_str("NS"));
    v.push(String::from_str("TXT"));
    v.push(String::from_str("SRV"));
    v.push(String::from_str("SOA"));
    v.push(String::from_str("PTR"));
    v.push(String::from_str("CAA"));
    v
}

} // verus!
