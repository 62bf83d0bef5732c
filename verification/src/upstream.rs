//! The upstream side: how answers fetched from conventional DNS become wire
//! records, and how its failures are classified.
//!
//! The lookup itself is network work done by the caller; this module fixes
//! the policy: upstream answers carry a fixed TTL of 300 seconds, and an
//! empty answer set is the "no records" signal.

use vstd::prelude::*;

use crate::records::{WireData, WireDataView, WireRecord, WireRecordView};

verus! {

/// Why an upstream lookup failed.
#[derive(Debug)]
pub enum UpstreamError {
    ResolutionFailed(String),
    NotFound,
}

/// The mathematical shape of an upstream failure.
pub enum UpstreamErrorView {
    ResolutionFailed(Seq<char>),
    NotFound,
}

impl View for UpstreamError {
    type V = UpstreamErrorView;

    open spec fn view(&self) -> UpstreamErrorView {
        match self {
            UpstreamError::ResolutionFailed(m) => UpstreamErrorView::ResolutionFailed(m@),
            UpstreamError::NotFound => UpstreamErrorView::NotFound,
        }
    }
}

impl UpstreamError {
    /// A short description of the error.
    pub fn describe(&self) -> (r: String)
        ensures
            r@ == match self@ {
                UpstreamErrorView::ResolutionFailed(_) => "Resolution failed"@,
                UpstreamErrorView::NotFound => "No records found"@,
            },
    {
        match self {
            UpstreamError::ResolutionFailed(_) => String::from_str("Resolution failed"),
            UpstreamError::NotFound => String::from_str("No records found"),
        }
    }
}

/// The TTL given to every upstream answer.
pub open spec fn upstream_ttl() -> u32 {
    300
}

/// What an upstream answer set becomes: one wire record per payload, all
/// owned by the queried name, with the fixed upstream TTL.
pub open spec fn upstream_wire(name: Seq<char>, payloads: Seq<WireDataView>) -> Seq<
    WireRecordView,
> {
    Seq::new(payloads.len(), |k: int| WireRecordView { name, ttl: upstream_ttl(), data: payloads[k] })
}

/// Wraps the payloads an upstream lookup produced into wire records for the
/// queried name; an empty set is the "no records" signal.
pub fn upstream_records(name: &str, payloads: Vec<WireData>) -> (r: Result<
    Vec<WireRecord>,
    UpstreamError,
>)
    ensures
        payloads@.len() == 0 ==> (r matches Err(e) && e@ is NotFound),
        payloads@.len() > 0 ==> (r matches Ok(v) && v@.map_values(|w: WireRecord| w@)
            == upstream_wire(name@, payloads@.map_values(|d: WireData| d@))),
{
    if payloads.len() == 0 {
        return Err(UpstreamError::NotFound);
    }
    let mut out: Vec<WireRecord> = Vec::new();
    let n = payloads.len();
    let mut payloads = payloads;
    let ghost pv = payloads@.map_values(|d: WireData| d@);
    // Consume from the front so each payload is moved, not cloned.
    let mut i: usize = 0;
    proof {
        assert(payloads@.map_values(|d: WireData| d@) =~= pv.skip(0));
    }
    while i < n
        invariant
            i <= n,
            n == pv.len(),
            payloads@.map_values(|d: WireData| d@) == pv.skip(i as int),
            payloads@.len() == n - i,
            out@.len() == i,
            forall|k: int|
                0 <= k < i ==> #[trigger] out@[k]@ == (WireRecordView {
                    name: name@,
                    ttl: upstream_ttl(),
                    data: pv[k],
                }),
        decreases n - i,
    {
        let ghost pre = payloads@;
        let data = payloads.remove(0);
        proof {
            assert(data == pre[0]);
            assert(data@ == pre.map_values(|d: WireData| d@)[0]);
            assert(pv.skip(i as int)[0] == pv[i as int]);
            assert(data@ == pv[i as int]);
            assert(payloads@ =~= pre.drop_first());
            assert forall|k: int| 0 <= k < payloads@.len() implies payloads@.map_values(
                |d: WireData| d@,
            )[k] == #[trigger] pv.skip(i + 1)[k] by {
                assert(payloads@[k] == pre[k + 1]);
                assert(pre.map_values(|d: WireData| d@)[k + 1] == pre[k + 1]@);
                assert(pv.skip(i as int)[k + 1] == pv[i + 1 + k]);
            }
            assert(payloads@.map_values(|d: WireData| d@) =~= pv.skip(i + 1));
        }
        out.push(WireRecord { name: String::from_str(name), ttl: 300, data });
        i = i + 1;
    }
    proof {
        assert(out@.map_values(|w: WireRecord| w@) =~= upstream_wire(name@, pv));
    }
    Ok(out)
}

} // verus!
