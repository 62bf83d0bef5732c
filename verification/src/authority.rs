//! The authority adapter's decisions: which resolver a query goes to, and
//! how each resolver's outcome becomes a DNS response disposition.
//!
//! The surrounding DNS server owns the sockets and the framework types; it
//! asks these functions what to do.  A chain-governed query is resolved on
//! chain and its record set converted against the queried domain as origin;
//! everything else is delegated upstream.  Negative outcomes — not found,
//! empty after conversion, upstream "no records" — become `NXDomain`;
//! structural failures (a misrouted query included) and transient failures
//! become `ServFail`.

use vstd::prelude::*;

use crate::records::{
    convert_records, convert_records_spec, records_view, DnsRecord, WireRecord,
};
use crate::resolver::{ResolverError, ResolverErrorView};
use crate::text::{split_char, trim_dots};
use crate::upstream::UpstreamError;

verus! {

/// What the server should answer.
pub enum Disposition {
    /// Answer with these records.
    Answer(Vec<WireRecord>),
    /// Answer name-does-not-exist.
    Nxdomain,
    /// Answer server-failure.
    ServFail,
}

/// The last label of a domain, trailing dots ignored.
pub open spec fn tld_of(s: Seq<char>) -> Seq<char> {
    split_char(trim_dots(s), '.').last()
}

/// Extracts the TLD of a queried name: its last label after trailing dots
/// are trimmed.  Splitting always yields at least one (possibly empty)
/// label, so this never comes back empty-handed.
pub fn extract_tld(name: &str) -> (r: Option<String>)
    ensures
        r matches Some(t) && t@ == tld_of(name@),
{
    let trimmed = crate::text::trim_trailing_dots(name);
    let labels = crate::text::split_on(trimmed.as_str(), '.');
    proof {
        crate::text::lemma_split_char_len(trimmed@, '.');
        assert(crate::text::str_views(labels@).len() == labels@.len());
        assert(crate::text::str_views(labels@)[labels@.len() - 1] == labels@[labels@.len() - 1]@);
    }
    let last = labels.len() - 1;
    Some(labels[last].clone())
}

/// Turns a chain resolution outcome into a disposition: a non-empty answer
/// is converted — the queried name is both owner and origin — and answered
/// when anything survives conversion; nothing surviving, or nothing found,
/// is `NXDomain`.  Everything else is a server failure: a query the chain
/// resolver refused as not chain-governed was misrouted, a programmer
/// error, and must not fall back to upstream.
pub fn classify_near_result(
    outcome: Result<Vec<DnsRecord>, ResolverError>,
    name: &str,
    origin: &str,
) -> (r: Disposition)
    ensures
        outcome matches Ok(recs) ==> {
            let conv = convert_records_spec(records_view(recs@), name@, origin@);
            &&& (conv.len() > 0 ==> (r matches Disposition::Answer(w) && w@.map_values(
                |x: WireRecord| x@,
            ) == conv))
            &&& (conv.len() == 0 ==> r is Nxdomain)
        },
        outcome matches Err(e) ==> match e@ {
            ResolverErrorView::NotFound => r is Nxdomain,
            _ => r is ServFail,
        },
{
    match outcome {
        Ok(recs) => {
            let converted = convert_records(&recs, name, origin);
            if converted.len() > 0 {
                Disposition::Answer(converted)
            } else {
                Disposition::Nxdomain
            }
        },
        Err(e) => {
            match e {
                ResolverError::NotFound => Disposition::Nxdomain,
                _ => Disposition::ServFail,
            }
        },
    }
}

/// Turns an upstream outcome into a disposition: answers pass through, the
/// "no records" signal is `NXDomain`, any other failure is a server
/// failure.
pub fn classify_upstream_result(outcome: Result<Vec<WireRecord>, UpstreamError>) -> (r:
    Disposition)
    ensures
        outcome matches Ok(v) ==> (r matches Disposition::Answer(w) && w@ == v@),
        outcome matches Err(e) ==> match e@ {
            crate::upstream::UpstreamErrorView::NotFound => r is Nxdomain,
            crate::upstream::UpstreamErrorView::ResolutionFailed(_) => r is ServFail,
        },
{
    match outcome {
        Ok(v) => Disposition::Answer(v),
        Err(e) => {
            match e {
                UpstreamError::NotFound => Disposition::Nxdomain,
                UpstreamError::ResolutionFailed(_) => Disposition::ServFail,
            }
        },
    }
}

} // verus!
