//! The chain resolver: classifies a query's TLD against the chain whitelist,
//! derives the probe list, and walks it probe by probe.
//!
//! Network calls are not made here.  A resolution is a session: starting it
//! consumes every probe the caches can answer and then either finishes or
//! asks the caller to perform one chain call — an existence check or a
//! record query — whose outcome is handed back to continue the walk.  Probes
//! are strictly sequential and the first non-empty answer wins.
//!
//! Answer sets are filtered to the queried record type before they are
//! cached or returned, so an answer can never mix record types, whatever a
//! contract stored.

use vstd::prelude::*;

use crate::cache::DnsCache;
use crate::probes::{pair_views, probe_list};
use crate::records::{records_view, DnsRecord, RecordView};
use crate::text::{contains_sub, lower_char, lower_seq, split_char, str_views, trim_dots, upper_seq};

verus! {

/// Why a resolution failed.
#[derive(Debug)]
pub enum ResolverError {
    InvalidDomain,
    NotNearTld,
    NotFound,
    RpcError(String),
    InvalidAccountId(String),
}

/// The mathematical shape of a resolution failure.
pub enum ResolverErrorView {
    InvalidDomain,
    NotNearTld,
    NotFound,
    RpcError(Seq<char>),
    InvalidAccountId(Seq<char>),
}

impl View for ResolverError {
    type V = ResolverErrorView;

    open spec fn view(&self) -> ResolverErrorView {
        match self {
            ResolverError::InvalidDomain => ResolverErrorView::InvalidDomain,
            ResolverError::NotNearTld => ResolverErrorView::NotNearTld,
            ResolverError::NotFound => ResolverErrorView::NotFound,
            ResolverError::RpcError(m) => ResolverErrorView::RpcError(m@),
            ResolverError::InvalidAccountId(m) => ResolverErrorView::InvalidAccountId(m@),
        }
    }
}

impl ResolverError {
    /// A short description of the error.
    pub fn describe(&self) -> (r: String)
        ensures
            r@ == match self@ {
                ResolverErrorView::InvalidDomain => "Invalid domain format"@,
                ResolverErrorView::NotNearTld => "Not a NEAR TLD"@,
                ResolverErrorView::NotFound => "Domain not found (NXDOMAIN)"@,
                ResolverErrorView::RpcError(_) => "RPC error"@,
                ResolverErrorView::InvalidAccountId(_) => "Invalid account ID"@,
            },
    {
        match self {
            ResolverError::InvalidDomain => String::from_str("Invalid domain format"),
            ResolverError::NotNearTld => String::from_str("Not a NEAR TLD"),
            ResolverError::NotFound => String::from_str("Domain not found (NXDOMAIN)"),
            ResolverError::RpcError(_) => String::from_str("RPC error"),
            ResolverError::InvalidAccountId(_) => String::from_str("Invalid account ID"),
        }
    }
}

/// Whether a TLD is chain-governed: its ASCII-lower-cased text is on the
/// compile-time whitelist.
pub open spec fn chain_tld(tld: Seq<char>) -> bool {
    let l = lower_seq(tld);
    ||| l == "near"@
    ||| l == "testnet"@
    ||| l == "aurora"@
    ||| l == "tg"@
    ||| l == "sweat"@
    ||| l == "kaiching"@
    ||| l == "sharddog"@
}

/// ASCII case folding twice folds once.
pub proof fn lemma_lower_idempotent(s: Seq<char>)
    ensures
        lower_seq(lower_seq(s)) == lower_seq(s),
{
    assert(lower_seq(lower_seq(s)) =~= lower_seq(s)) by {
        assert(forall|i: int|
            0 <= i < s.len() ==> lower_char(#[trigger] lower_char(s[i])) == lower_char(s[i]));
    }
}

/// Two spellings with the same ASCII case folding get the same verdict; in
/// particular a TLD and its lower-cased form always agree, so folding is
/// consistent and membership depends on the folded text alone.
pub proof fn lemma_chain_tld_case_insensitive(a: Seq<char>, b: Seq<char>)
    requires
        lower_seq(a) == lower_seq(b),
    ensures
        chain_tld(a) == chain_tld(b),
{
}

/// A TLD agrees with its own folded spelling.
pub proof fn lemma_chain_tld_folds(a: Seq<char>)
    ensures
        chain_tld(lower_seq(a)) == chain_tld(a),
{
    lemma_lower_idempotent(a);
    lemma_chain_tld_case_insensitive(lower_seq(a), a);
}

/// A chain account-identifier character: lower-case ASCII alphanumeric or
/// one of the three separators.
pub open spec fn is_account_char(c: char) -> bool {
    (97 <= c as u32 <= 122) || (48 <= c as u32 <= 57) || is_account_separator(c)
}

pub open spec fn is_account_separator(c: char) -> bool {
    c == '-' || c == '_' || c == '.'
}

/// A valid chain account identifier: 2 to 64 characters, all from the
/// account alphabet, neither starting nor ending with a separator, and with
/// no two adjacent separators.
pub open spec fn valid_account_id(s: Seq<char>) -> bool {
    &&& 2 <= s.len() <= 64
    &&& forall|i: int| 0 <= i < s.len() ==> is_account_char(#[trigger] s[i])
    &&& !is_account_separator(s[0])
    &&& !is_account_separator(s[s.len() - 1])
    &&& forall|i: int|
        0 <= i < s.len() - 1 ==> !(is_account_separator(#[trigger] s[i]) && is_account_separator(
            s[i + 1],
        ))
}

fn account_char_kind(c: char) -> (r: (bool, bool))
    ensures
        r.0 == is_account_char(c),
        r.1 == is_account_separator(c),
{
    let sep = c == '-' || c == '_' || c == '.';
    let cu = c as u32;
    ((97 <= cu && cu <= 122) || (48 <= cu && cu <= 57) || sep, sep)
}

/// Checks a contract identifier against [`valid_account_id`].
pub fn check_account_id(s: &str) -> (r: bool)
    ensures
        r == valid_account_id(s@),
{
    let n = s.unicode_len();
    if n < 2 || n > 64 {
        return false;
    }
    let mut i: usize = 0;
    let mut prev_sep = false;
    while i < n
        invariant
            n == s@.len(),
            2 <= n <= 64,
            i <= n,
            forall|k: int| 0 <= k < i ==> is_account_char(#[trigger] s@[k]),
            i > 0 ==> !is_account_separator(s@[0]),
            i > 0 ==> prev_sep == is_account_separator(s@[i - 1]),
            forall|k: int|
                0 <= k < i - 1 ==> !(is_account_separator(#[trigger] s@[k])
                    && is_account_separator(s@[k + 1])),
        decreases n - i,
    {
        let (ok, sep) = account_char_kind(s.get_char(i));
        if !ok {
            return false;
        }
        if sep && (i == 0 || prev_sep) {
            return false;
        }
        prev_sep = sep;
        i = i + 1;
    }
    if prev_sep {
        return false;
    }
    true
}

/// Whether an RPC failure text is one of the known absent-contract signals,
/// to be treated as a negative answer rather than a failure.
pub open spec fn is_negative_rpc_error(msg: Seq<char>) -> bool {
    ||| contains_sub(msg, "MethodNotFound"@)
    ||| contains_sub(msg, "AccountDoesNotExist"@)
    ||| contains_sub(msg, "does not exist"@)
    ||| contains_sub(msg, "CodeDoesNotExist"@)
}

/// Classifies an RPC failure text against the absent-contract signals.
pub fn negative_rpc_error(msg: &str) -> (r: bool)
    ensures
        r == is_negative_rpc_error(msg@),
{
    crate::text::contains_str(msg, "MethodNotFound") || crate::text::contains_str(
        msg,
        "AccountDoesNotExist",
    ) || crate::text::contains_str(msg, "does not exist") || crate::text::contains_str(
        msg,
        "CodeDoesNotExist",
    )
}

/// Whether a record bears the queried type, after upper-case normalization.
pub open spec fn type_matches(r: RecordView, record_type: Seq<char>) -> bool {
    upper_seq(r.record_type) == upper_seq(record_type)
}

/// The records of the queried type, in order.
pub open spec fn filter_by_type(rs: Seq<RecordView>, record_type: Seq<char>) -> Seq<RecordView>
    decreases rs.len(),
{
    if rs.len() == 0 {
        Seq::empty()
    } else {
        filter_by_type(rs.drop_last(), record_type) + if type_matches(rs.last(), record_type) {
            seq![rs.last()]
        } else {
            Seq::empty()
        }
    }
}

/// Every record of a filtered set bears the queried type: an answer set can
/// hold records of exactly one normalized type.
pub proof fn lemma_filtered_uniform_type(rs: Seq<RecordView>, record_type: Seq<char>)
    ensures
        forall|k: int|
            0 <= k < filter_by_type(rs, record_type).len() ==> type_matches(
                #[trigger] filter_by_type(rs, record_type)[k],
                record_type,
            ),
    decreases rs.len(),
{
    if rs.len() > 0 {
        lemma_filtered_uniform_type(rs.drop_last(), record_type);
        let f = filter_by_type(rs, record_type);
        let fd = filter_by_type(rs.drop_last(), record_type);
        assert(forall|k: int| 0 <= k < fd.len() ==> #[trigger] f[k] == fd[k]);
        assert forall|k: int| 0 <= k < f.len() implies type_matches(f[k], record_type) by {
            if k >= fd.len() {
                assert(type_matches(rs.last(), record_type));
                assert(f[k] == rs.last());
            }
        }
    }
}

/// The views of an optional record set; absent is the empty set.
pub open spec fn opt_records_view(o: Option<Vec<DnsRecord>>) -> Seq<RecordView> {
    match o {
        Some(v) => records_view(v@),
        None => Seq::empty(),
    }
}

/// Filtering keeps a set whose records all match unchanged.
pub proof fn lemma_filter_all_match(rs: Seq<RecordView>, record_type: Seq<char>)
    requires
        forall|k: int| 0 <= k < rs.len() ==> type_matches(#[trigger] rs[k], record_type),
    ensures
        filter_by_type(rs, record_type) == rs,
    decreases rs.len(),
{
    if rs.len() > 0 {
        assert(forall|k: int|
            0 <= k < rs.drop_last().len() ==> type_matches(
                #[trigger] rs.drop_last()[k],
                record_type,
            ));
        lemma_filter_all_match(rs.drop_last(), record_type);
        assert(type_matches(rs.last(), record_type));
        assert(filter_by_type(rs, record_type) =~= rs.drop_last().push(rs.last()));
        assert(rs.drop_last().push(rs.last()) =~= rs);
    }
}

/// Filtering twice filters once.
pub proof fn lemma_filter_idempotent(rs: Seq<RecordView>, record_type: Seq<char>)
    ensures
        filter_by_type(filter_by_type(rs, record_type), record_type) == filter_by_type(
            rs,
            record_type,
        ),
{
    lemma_filtered_uniform_type(rs, record_type);
    lemma_filter_all_match(filter_by_type(rs, record_type), record_type);
}

/// Keeps the records whose type matches the queried one.
pub fn filter_records_by_type(records: Vec<DnsRecord>, record_type: &str) -> (r: Vec<DnsRecord>)
    ensures
        records_view(r@) == filter_by_type(records_view(records@), record_type@),
{
    let rt_upper = crate::text::to_upper(record_type);
    let mut out: Vec<DnsRecord> = Vec::new();
    let mut i: usize = 0;
    let n = records.len();
    proof {
        assert(records_view(records@).take(0) =~= Seq::<RecordView>::empty());
        assert(records_view(out@) =~= Seq::<RecordView>::empty());
        assert(filter_by_type(records_view(records@).take(0), record_type@) =~= Seq::<
            RecordView,
        >::empty());
    }
    while i < n
        invariant
            n == records@.len(),
            i <= n,
            rt_upper@ == upper_seq(record_type@),
            records_view(out@) == filter_by_type(
                records_view(records@).take(i as int),
                record_type@,
            ),
        decreases n - i,
    {
        proof {
            assert(records_view(records@).take(i + 1).drop_last() =~= records_view(
                records@,
            ).take(i as int));
            assert(records_view(records@).take(i + 1).last() == records@[i as int]@);
        }
        let this_upper = crate::text::to_upper(records[i].record_type.as_str());
        if crate::text::str_eq(this_upper.as_str(), rt_upper.as_str()) {
            let copied = records[i].clone();
            proof {
                assert(records_view(out@.push(copied)) =~= records_view(out@).push(copied@));
                assert(copied@ == records@[i as int]@);
            }
            out.push(copied);
        }
        i = i + 1;
    }
    proof {
        assert(records_view(records@).take(n as int) =~= records_view(records@));
    }
    out
}

/// Whether a URL text parses; the verdict depends on the text alone.
pub uninterp spec fn url_parse_ok(s: Seq<char>) -> bool;

/// Relies on `url::Url::parse`: parsing succeeds or fails on the text
/// alone; on failure the parse error's description is returned.
#[verifier::external_body]
fn check_rpc_url(s: &str) -> (r: Option<String>)
    ensures
        r is None <==> url_parse_ok(s@),
{
    match url::Url::parse(s) {
        Ok(_) => None,
        Err(e) => Some(e.to_string()),
    }
}

/// The chain resolver: the shared two-tier cache and the RPC endpoint the
/// caller is to direct chain calls at.
pub struct NearResolver {
    pub cache: DnsCache,
    pub rpc_url: String,
}

/// What a probe needs next, before any chain call has been made for it.
pub enum ProbeDirective {
    /// The caches decided the probe: a non-empty answer, a negative, or a
    /// malformed contract identifier.
    Done(Result<Option<Vec<DnsRecord>>, ResolverError>),
    /// The contract's existence must be checked on chain.
    NeedExistence,
    /// The contract exists; its records must be queried on chain.
    NeedRecords,
}

/// One in-flight resolution: the probe list, the position reached, the
/// queried type, and what the transient failures so far amount to.
pub struct ResolveSession {
    pub probes: Vec<(String, String)>,
    pub idx: usize,
    pub record_type: String,
    /// Whether every probe consumed so far failed with a transient error.
    pub all_rpc_failed: bool,
    /// The latest transient failure text, if any.
    pub last_rpc_error: Option<String>,
}

/// What the caller must do next to move a resolution forward.
pub enum ResolveAction {
    /// Perform the chain existence check for this contract account.
    CheckExistence(String),
    /// Perform the chain record query `(contract, name, type)`.
    QueryRecords(String, String, String),
    /// The resolution is over.
    Finished(Result<Vec<DnsRecord>, ResolverError>),
}

pub open spec fn session_wf(s: ResolveSession) -> bool {
    s.idx <= s.probes@.len()
}

pub open spec fn session_probes(s: ResolveSession) -> Seq<(Seq<char>, Seq<char>)> {
    pair_views(s.probes@)
}

/// A probe the caches allow the resolver to pass over: its record entry is
/// a remembered negative for the queried type, its contract is remembered
/// absent, or its contract identifier is malformed.
pub open spec fn skippable(c: DnsCache, p: (Seq<char>, Seq<char>), record_type: Seq<char>) -> bool {
    ||| (c.records_view().contains_key((p.0, p.1, record_type)) && filter_by_type(
        c.records_view()[(p.0, p.1, record_type)],
        record_type,
    ).len() == 0)
    ||| (c.existence_view().contains_key(p.0) && c.existence_view()[p.0] == false)
    ||| !valid_account_id(p.0)
}

/// Every probe between `from` and the session's position was skippable.
pub open spec fn skipped_ok(c: DnsCache, s: ResolveSession, from: int) -> bool {
    forall|k: int|
        from <= k < s.idx ==> skippable(c, #[trigger] session_probes(s)[k], s.record_type@)
}

/// How the existence tier may change while the resolver walks probes: no
/// entry vanishes, and no "exists" verdict appears out of nowhere — the
/// walk only records absences, for malformed identifiers and for contracts
/// the chain refuted.
pub open spec fn existence_weakens_only(c0: DnsCache, c1: DnsCache) -> bool {
    &&& forall|id: Seq<char>|
        c0.existence_view().contains_key(id) ==> #[trigger] c1.existence_view().contains_key(id)
    &&& forall|id: Seq<char>|
        #[trigger] c1.existence_view().contains_key(id) ==> (c0.existence_view().contains_key(id)
            && c1.existence_view()[id] == c0.existence_view()[id]) || c1.existence_view()[id]
            == false
}

proof fn lemma_weakens_only_trans(c0: DnsCache, c1: DnsCache, c2: DnsCache)
    requires
        existence_weakens_only(c0, c1),
        existence_weakens_only(c1, c2),
    ensures
        existence_weakens_only(c0, c2),
{
}

proof fn lemma_skippable_preserved(
    c1: DnsCache,
    c2: DnsCache,
    p: (Seq<char>, Seq<char>),
    record_type: Seq<char>,
)
    requires
        skippable(c1, p, record_type),
        existence_weakens_only(c1, c2),
        c2.records_view() == c1.records_view(),
    ensures
        skippable(c2, p, record_type),
{
}

/// What an action promises about the session and caches it was produced
/// from.
pub open spec fn action_ok(c: DnsCache, s: ResolveSession, r: ResolveAction) -> bool {
    match r {
        ResolveAction::CheckExistence(cid) => {
            &&& s.idx < s.probes@.len()
            &&& cid@ == session_probes(s)[s.idx as int].0
            &&& valid_account_id(cid@)
        },
        ResolveAction::QueryRecords(cid, nm, rt) => {
            &&& s.idx < s.probes@.len()
            &&& cid@ == session_probes(s)[s.idx as int].0
            &&& nm@ == session_probes(s)[s.idx as int].1
            &&& rt@ == s.record_type@
            &&& valid_account_id(cid@)
            &&& c.existence_view().contains_key(cid@)
            &&& c.existence_view()[cid@] == true
        },
        ResolveAction::Finished(res) => match res {
            Ok(recs) => {
                &&& s.idx < s.probes@.len()
                &&& c.records_view().contains_key(
                    (
                        session_probes(s)[s.idx as int].0,
                        session_probes(s)[s.idx as int].1,
                        s.record_type@,
                    ),
                )
                &&& records_view(recs@) == filter_by_type(
                    c.records_view()[
                        (
                            session_probes(s)[s.idx as int].0,
                            session_probes(s)[s.idx as int].1,
                            s.record_type@,
                        )],
                    s.record_type@,
                )
                &&& records_view(recs@).len() > 0
            },
            Err(e) => match e@ {
                ResolverErrorView::NotFound => s.idx == s.probes@.len() && !(s.all_rpc_failed
                    && s.last_rpc_error is Some),
                ResolverErrorView::RpcError(m) => {
                    &&& s.idx == s.probes@.len()
                    &&& s.all_rpc_failed
                    &&& (s.last_rpc_error matches Some(lm) && m == lm@)
                },
                _ => false,
            },
        },
    }
}

impl NearResolver {
    /// Builds a resolver over the given cache, rejecting an endpoint text
    /// that does not parse as a URL.
    pub fn new(rpc_url: &str, cache: DnsCache) -> (r: Result<NearResolver, ResolverError>)
        ensures
            r is Ok <==> url_parse_ok(rpc_url@),
            r matches Ok(res) ==> res.rpc_url@ == rpc_url@ && res.cache == cache,
            r matches Err(e) ==> e@ is RpcError,
    {
        match check_rpc_url(rpc_url) {
            None => Ok(NearResolver { cache, rpc_url: String::from_str(rpc_url) }),
            Some(detail) => {
                let mut msg = String::from_str("Invalid RPC URL: ");
                msg.append(detail.as_str());
                Err(ResolverError::RpcError(msg))
            },
        }
    }

    /// Whether a TLD is chain-governed, case-insensitively.
    pub fn is_near_tld(&self, tld: &str) -> (r: bool)
        ensures
            r == chain_tld(tld@),
    {
        let l = crate::text::to_lower(tld);
        crate::text::str_eq(l.as_str(), "near") || crate::text::str_eq(l.as_str(), "testnet")
            || crate::text::str_eq(l.as_str(), "aurora") || crate::text::str_eq(l.as_str(), "tg")
            || crate::text::str_eq(l.as_str(), "sweat") || crate::text::str_eq(
            l.as_str(),
            "kaiching",
        ) || crate::text::str_eq(l.as_str(), "sharddog")
    }

    /// The hierarchical probe order for the given labels and TLD.
    pub fn resolution_order(&self, parts: &Vec<String>, tld: &str) -> (r: Vec<(String, String)>)
        ensures
            pair_views(r@) == probe_list(str_views(parts@), tld@),
    {
        crate::probes::resolution_order(parts, tld)
    }

    /// Decides a probe from the caches alone: a remembered answer or
    /// negative ends it, a remembered absence or malformed identifier skips
    /// it, anything else names the chain call that must come next.
    pub fn query_contract_start(
        &mut self,
        contract_id: &str,
        dns_name: &str,
        record_type: &str,
    ) -> (r: ProbeDirective)
        ensures
            final(self).rpc_url == old(self).rpc_url,
            final(self).cache.records_view() == old(self).cache.records_view(),
            existence_weakens_only(old(self).cache, final(self).cache),
            r matches ProbeDirective::Done(res) ==> match res {
                Ok(found) => match found {
                    Some(v) => old(self).cache.records_view().contains_key(
                        (contract_id@, dns_name@, record_type@),
                    ) && records_view(v@) == filter_by_type(
                        old(self).cache.records_view()[(contract_id@, dns_name@, record_type@)],
                        record_type@,
                    ) && records_view(v@).len() > 0 && final(self).cache == old(self).cache,
                    None => skippable(
                        final(self).cache,
                        (contract_id@, dns_name@),
                        record_type@,
                    ),
                },
                Err(e) => e@ == ResolverErrorView::InvalidAccountId(contract_id@)
                    && !valid_account_id(contract_id@) && final(self).cache == old(self).cache,
            },
            r is NeedExistence ==> valid_account_id(contract_id@) && final(self).cache
                == old(self).cache,
            r is NeedRecords ==> valid_account_id(contract_id@) && final(self).cache
                == old(self).cache && final(self).cache.existence_view().contains_key(contract_id@)
                && final(self).cache.existence_view()[contract_id@] == true,
    {
        match self.cache.get_records(contract_id, dns_name, record_type) {
            Some(cached) => {
                let found = filter_records_by_type(cached, record_type);
                if found.len() > 0 {
                    ProbeDirective::Done(Ok(Some(found)))
                } else {
                    ProbeDirective::Done(Ok(None))
                }
            },
            None => {
                match self.cache.get_contract(contract_id) {
                    Some(exists) => {
                        if !exists {
                            ProbeDirective::Done(Ok(None))
                        } else if check_account_id(contract_id) {
                            ProbeDirective::NeedRecords
                        } else {
                            ProbeDirective::Done(
                                Err(
                                    ResolverError::InvalidAccountId(
                                        String::from_str(contract_id),
                                    ),
                                ),
                            )
                        }
                    },
                    None => {
                        if check_account_id(contract_id) {
                            ProbeDirective::NeedExistence
                        } else {
                            // A malformed identifier can never exist; cache
                            // the verdict and treat the probe as negative.
                            self.cache.insert_contract(String::from_str(contract_id), false);
                            ProbeDirective::Done(Ok(None))
                        }
                    },
                }
            },
        }
    }

    /// Records a chain existence verdict and decides the probe: an absent
    /// contract is a negative, an existing one must be queried.
    pub fn query_contract_on_existence(&mut self, contract_id: &str, exists: bool) -> (r:
        ProbeDirective)
        ensures
            final(self).rpc_url == old(self).rpc_url,
            final(self).cache.records_view() == old(self).cache.records_view(),
            final(self).cache.existence_view() == old(self).cache.existence_view().insert(
                contract_id@,
                exists,
            ),
            exists ==> r is NeedRecords,
            !exists ==> r == ProbeDirective::Done(Ok(None)),
    {
        self.cache.insert_contract(String::from_str(contract_id), exists);
        if exists {
            ProbeDirective::NeedRecords
        } else {
            ProbeDirective::Done(Ok(None))
        }
    }

    /// Ingests a chain record-query outcome.  A returned set is filtered to
    /// the queried type and cached, an empty result included, so the cache
    /// remembers negatives.  A failure bearing an absent-contract signal is
    /// a negative that refutes the contract's existence: the existence tier
    /// records the contract as absent, so later resolutions stop probing it
    /// within the cache horizon.  Any other failure is a transient error
    /// and leaves the caches untouched.
    pub fn query_contract_on_result(
        &mut self,
        contract_id: &str,
        dns_name: &str,
        record_type: &str,
        outcome: Result<Option<Vec<DnsRecord>>, String>,
    ) -> (r: Result<Option<Vec<DnsRecord>>, ResolverError>)
        ensures
            final(self).rpc_url == old(self).rpc_url,
            outcome matches Ok(opt) ==> {
                let found = filter_by_type(opt_records_view(opt), record_type@);
                &&& final(self).cache.existence_view() == old(self).cache.existence_view()
                &&& final(self).cache.records_view() == old(self).cache.records_view().insert(
                    (contract_id@, dns_name@, record_type@),
                    found,
                )
                &&& (found.len() > 0 ==> (r matches Ok(rv) && rv matches Some(v)
                    && records_view(v@) == found))
                &&& (found.len() == 0 ==> (r matches Ok(rv) && rv is None))
            },
            outcome matches Err(m) ==> {
                &&& final(self).cache.records_view() == old(self).cache.records_view()
                &&& (is_negative_rpc_error(m@) ==> (r matches Ok(rv) && rv is None)
                    && final(self).cache.existence_view()
                    == old(self).cache.existence_view().insert(contract_id@, false))
                &&& (!is_negative_rpc_error(m@) ==> (r matches Err(e) && e@
                    == ResolverErrorView::RpcError(m@)) && final(self).cache == old(self).cache)
            },
    {
        match outcome {
            Ok(opt) => {
                let raw = match opt {
                    Some(v) => v,
                    None => Vec::new(),
                };
                let found = filter_records_by_type(raw, record_type);
                let stored = crate::records::clone_records(&found);
                self.cache.insert_records(
                    String::from_str(contract_id),
                    String::from_str(dns_name),
                    String::from_str(record_type),
                    stored,
                );
                if found.len() > 0 {
                    Ok(Some(found))
                } else {
                    Ok(None)
                }
            },
            Err(m) => {
                if negative_rpc_error(m.as_str()) {
                    // The chain said the contract is not there to answer:
                    // remember the absence.
                    self.cache.insert_contract(String::from_str(contract_id), false);
                    Ok(None)
                } else {
                    Err(ResolverError::RpcError(m))
                }
            },
        }
    }

    /// Walks probes from the session's position, consuming every probe the
    /// caches can decide, until a non-empty answer is found, a chain call
    /// is needed, or the probes are exhausted — then `NotFound`, or the
    /// last transient failure when every probe failed with one.
    fn advance(&mut self, s: &mut ResolveSession) -> (r: ResolveAction)
        requires
            session_wf(*old(s)),
        ensures
            final(self).rpc_url == old(self).rpc_url,
            final(self).cache.records_view() == old(self).cache.records_view(),
            existence_weakens_only(old(self).cache, final(self).cache),
            session_wf(*final(s)),
            final(s).probes == old(s).probes,
            final(s).record_type == old(s).record_type,
            final(s).last_rpc_error == old(s).last_rpc_error,
            old(s).idx <= final(s).idx,
            final(s).idx > old(s).idx ==> final(s).all_rpc_failed == false,
            final(s).idx == old(s).idx ==> final(s).all_rpc_failed == old(s).all_rpc_failed,
            skipped_ok(final(self).cache, *final(s), old(s).idx as int),
            action_ok(final(self).cache, *final(s), r),
    {
        while s.idx < s.probes.len()
            invariant
                session_wf(*s),
                s.probes == old(s).probes,
                s.record_type == old(s).record_type,
                s.last_rpc_error == old(s).last_rpc_error,
                old(s).idx <= s.idx,
                s.idx > old(s).idx ==> s.all_rpc_failed == false,
                s.idx == old(s).idx ==> s.all_rpc_failed == old(s).all_rpc_failed,
                skipped_ok(self.cache, *s, old(s).idx as int),
                self.cache.records_view() == old(self).cache.records_view(),
                existence_weakens_only(old(self).cache, self.cache),
                self.rpc_url == old(self).rpc_url,
            decreases s.probes@.len() - s.idx,
        {
            let contract_id = s.probes[s.idx].0.clone();
            let dns_name = s.probes[s.idx].1.clone();
            let ghost cache_before = self.cache;
            let d = self.query_contract_start(
                contract_id.as_str(),
                dns_name.as_str(),
                s.record_type.as_str(),
            );
            proof {
                lemma_weakens_only_trans(old(self).cache, cache_before, self.cache);
                assert forall|k: int|
                    old(s).idx <= k < s.idx implies skippable(
                    self.cache,
                    #[trigger] session_probes(*s)[k],
                    s.record_type@,
                ) by {
                    lemma_skippable_preserved(
                        cache_before,
                        self.cache,
                        session_probes(*s)[k],
                        s.record_type@,
                    );
                }
            }
            match d {
                ProbeDirective::Done(res) => {
                    match res {
                        Ok(found) => {
                            match found {
                                Some(v) => {
                                    return ResolveAction::Finished(Ok(v));
                                },
                                None => {
                                    s.all_rpc_failed = false;
                                    s.idx = s.idx + 1;
                                },
                            }
                        },
                        Err(_malformed) => {
                            // A malformed contract identifier skips its
                            // probe.
                            s.all_rpc_failed = false;
                            s.idx = s.idx + 1;
                        },
                    }
                },
                ProbeDirective::NeedExistence => {
                    return ResolveAction::CheckExistence(contract_id);
                },
                ProbeDirective::NeedRecords => {
                    return ResolveAction::QueryRecords(
                        contract_id,
                        dns_name,
                        s.record_type.clone(),
                    );
                },
            }
        }
        if s.all_rpc_failed {
            match &s.last_rpc_error {
                Some(m) => ResolveAction::Finished(Err(ResolverError::RpcError(m.clone()))),
                None => ResolveAction::Finished(Err(ResolverError::NotFound)),
            }
        } else {
            ResolveAction::Finished(Err(ResolverError::NotFound))
        }
    }

    /// Begins resolving a domain for one record type: trailing dots are
    /// trimmed, a domain of fewer than two labels or one whose TLD is not
    /// chain-governed is rejected without probing; otherwise the probe list
    /// is derived and walked as far as the caches allow.
    pub fn resolve_start(&mut self, domain: &str, record_type: &str) -> (r: (
        ResolveSession,
        ResolveAction,
    ))
        ensures
            final(self).rpc_url == old(self).rpc_url,
            final(self).cache.records_view() == old(self).cache.records_view(),
            existence_weakens_only(old(self).cache, final(self).cache),
            session_wf(r.0),
            ({
                let labels = split_char(trim_dots(domain@), '.');
                &&& (labels.len() < 2 ==> (r.1 matches ResolveAction::Finished(res)
                    && res matches Err(e) && e@ is InvalidDomain && final(self).cache == old(
                    self,
                ).cache))
                &&& (labels.len() >= 2 && !chain_tld(labels.last()) ==> (r.1
                    matches ResolveAction::Finished(res) && res matches Err(e) && e@
                    is NotNearTld && final(self).cache == old(self).cache))
                &&& (labels.len() >= 2 && chain_tld(labels.last()) ==> {
                    &&& session_probes(r.0) == probe_list(labels.drop_last(), labels.last())
                    &&& r.0.record_type@ == record_type@
                    &&& skipped_ok(final(self).cache, r.0, 0)
                    &&& action_ok(final(self).cache, r.0, r.1)
                })
            }),
    {
        let trimmed = crate::text::trim_trailing_dots(domain);
        let mut labels = crate::text::split_on(trimmed.as_str(), '.');
        let ghost labels0 = str_views(labels@);
        if labels.len() < 2 {
            return (
                ResolveSession {
                    probes: Vec::new(),
                    idx: 0,
                    record_type: String::from_str(record_type),
                    all_rpc_failed: true,
                    last_rpc_error: None,
                },
                ResolveAction::Finished(Err(ResolverError::InvalidDomain)),
            );
        }
        let tld = match labels.pop() {
            Some(t) => t,
            None => {
                proof {
                    assert(false);
                }
                String::new()
            },
        };
        proof {
            assert(tld@ == labels0.last());
            assert(str_views(labels@) =~= labels0.drop_last());
        }
        if !self.is_near_tld(tld.as_str()) {
            return (
                ResolveSession {
                    probes: Vec::new(),
                    idx: 0,
                    record_type: String::from_str(record_type),
                    all_rpc_failed: true,
                    last_rpc_error: None,
                },
                ResolveAction::Finished(Err(ResolverError::NotNearTld)),
            );
        }
        let probes = crate::probes::resolution_order(&labels, tld.as_str());
        let mut session = ResolveSession {
            probes,
            idx: 0,
            record_type: String::from_str(record_type),
            all_rpc_failed: true,
            last_rpc_error: None,
        };
        let action = self.advance(&mut session);
        (session, action)
    }

    /// Resumes a resolution with the outcome of the existence check that
    /// was asked for: the verdict is cached; an absent contract skips its
    /// probe — the remembered absence justifies the skip — and the walk
    /// goes on; an existing one must be queried next.
    pub fn resolve_on_existence(&mut self, s: &mut ResolveSession, exists: bool) -> (r:
        ResolveAction)
        requires
            session_wf(*old(s)),
            old(s).idx < old(s).probes@.len(),
            valid_account_id(session_probes(*old(s))[old(s).idx as int].0),
        ensures
            final(self).rpc_url == old(self).rpc_url,
            final(self).cache.records_view() == old(self).cache.records_view(),
            session_wf(*final(s)),
            final(s).probes == old(s).probes,
            final(s).record_type == old(s).record_type,
            final(s).last_rpc_error == old(s).last_rpc_error,
            old(s).idx <= final(s).idx,
            !exists ==> final(self).cache.existence_view().contains_key(
                session_probes(*old(s))[old(s).idx as int].0,
            ) && final(self).cache.existence_view()[session_probes(*old(s))[old(s).idx as int].0]
                == false,
            exists ==> final(s).idx == old(s).idx && final(s).all_rpc_failed
                == old(s).all_rpc_failed,
            !exists ==> final(s).idx > old(s).idx && final(s).all_rpc_failed == false,
            skipped_ok(final(self).cache, *final(s), old(s).idx as int),
            action_ok(final(self).cache, *final(s), r),
    {
        let plen = s.probes.len();
        let contract_id = s.probes[s.idx].0.clone();
        let dns_name = s.probes[s.idx].1.clone();
        proof {
            assert(contract_id@ == session_probes(*s)[s.idx as int].0);
        }
        let d = self.query_contract_on_existence(contract_id.as_str(), exists);
        match d {
            ProbeDirective::NeedRecords => {
                proof {
                    if !exists {
                        assert(false);
                    }
                }
                ResolveAction::QueryRecords(contract_id, dns_name, s.record_type.clone())
            },
            _ => {
                let ghost cache_mid = self.cache;
                s.all_rpc_failed = false;
                s.idx = s.idx + 1;
                let ghost s_mid = *s;
                let r = self.advance(s);
                proof {
                    assert(!exists);
                    assert(cache_mid.existence_view()[contract_id@] == false);
                    assert(self.cache.existence_view().contains_key(contract_id@));
                    assert(self.cache.existence_view()[contract_id@] == false);
                    assert(skippable(
                        cache_mid,
                        session_probes(s_mid)[old(s).idx as int],
                        s_mid.record_type@,
                    ));
                    assert forall|k: int|
                        old(s).idx <= k < s.idx implies skippable(
                        self.cache,
                        #[trigger] session_probes(*s)[k],
                        s.record_type@,
                    ) by {
                        if k == old(s).idx {
                            lemma_skippable_preserved(
                                cache_mid,
                                self.cache,
                                session_probes(*s)[k],
                                s.record_type@,
                            );
                        }
                    }
                }
                r
            },
        }
    }

    /// Resumes a resolution with the outcome of the record query that was
    /// asked for.  A non-empty answer of the queried type finishes the
    /// resolution; an empty one — a cached negative from here on — and an
    /// absent-contract failure skip the probe; any other failure is
    /// remembered and skips the probe without clearing the all-failed mark.
    pub fn resolve_on_records(
        &mut self,
        s: &mut ResolveSession,
        outcome: Result<Option<Vec<DnsRecord>>, String>,
    ) -> (r: ResolveAction)
        requires
            session_wf(*old(s)),
            old(s).idx < old(s).probes@.len(),
        ensures
            final(self).rpc_url == old(self).rpc_url,
            existence_weakens_only(old(self).cache, final(self).cache),
            session_wf(*final(s)),
            final(s).probes == old(s).probes,
            final(s).record_type == old(s).record_type,
            old(s).idx <= final(s).idx,
            outcome matches Ok(opt) ==> {
                let key = (
                    session_probes(*old(s))[old(s).idx as int].0,
                    session_probes(*old(s))[old(s).idx as int].1,
                    old(s).record_type@,
                );
                let found = filter_by_type(opt_records_view(opt), old(s).record_type@);
                &&& final(self).cache.records_view() == old(self).cache.records_view().insert(
                    key,
                    found,
                )
                &&& (found.len() > 0 ==> (r matches ResolveAction::Finished(res)
                    && res matches Ok(recs) && records_view(recs@) == found
                    && final(s).idx == old(s).idx))
                &&& (found.len() == 0 ==> final(s).idx > old(s).idx && final(s).all_rpc_failed
                    == false)
                &&& final(s).last_rpc_error == old(s).last_rpc_error
            },
            outcome matches Err(m) ==> {
                &&& final(self).cache.records_view() == old(self).cache.records_view()
                &&& final(s).idx > old(s).idx
                &&& (is_negative_rpc_error(m@) ==> final(s).all_rpc_failed == false
                    && final(s).last_rpc_error == old(s).last_rpc_error
                    && final(self).cache.existence_view().contains_key(
                        session_probes(*old(s))[old(s).idx as int].0,
                    ) && final(self).cache.existence_view()[session_probes(*old(s))[old(
                        s,
                    ).idx as int].0] == false)
                &&& (!is_negative_rpc_error(m@) ==> (final(s).last_rpc_error matches Some(lm)
                    && lm@ == m@) && (final(s).idx == old(s).idx + 1 ==> final(s).all_rpc_failed
                    == old(s).all_rpc_failed))
            },
            action_ok(final(self).cache, *final(s), r),
    {
        let plen = s.probes.len();
        let ghost outcome0 = outcome;
        let contract_id = s.probes[s.idx].0.clone();
        let dns_name = s.probes[s.idx].1.clone();
        let rt = s.record_type.clone();
        proof {
            assert(contract_id@ == session_probes(*s)[s.idx as int].0);
        }
        let res = self.query_contract_on_result(
            contract_id.as_str(),
            dns_name.as_str(),
            rt.as_str(),
            outcome,
        );
        match res {
            Ok(found) => {
                match found {
                    Some(v) => {
                        proof {
                            match outcome0 {
                                Ok(opt) => {
                                    lemma_filter_idempotent(
                                        opt_records_view(opt),
                                        s.record_type@,
                                    );
                                },
                                Err(_) => {},
                            }
                        }
                        ResolveAction::Finished(Ok(v))
                    },
                    None => {
                        let ghost cache_mid = self.cache;
                        s.all_rpc_failed = false;
                        s.idx = s.idx + 1;
                        let r = self.advance(s);
                        proof {
                            assert forall|k: int|
                                old(s).idx + 1 <= k < s.idx implies skippable(
                                self.cache,
                                #[trigger] session_probes(*s)[k],
                                s.record_type@,
                            ) by {}
                            match outcome0 {
                                Err(m) => {
                                    if is_negative_rpc_error(m@) {
                                        // The absence recorded before the
                                        // walk resumed can only stay an
                                        // absence.
                                        assert(cache_mid.existence_view()[contract_id@] == false);
                                        assert(self.cache.existence_view().contains_key(
                                            contract_id@,
                                        ));
                                        assert(self.cache.existence_view()[contract_id@] == false);
                                    }
                                },
                                Ok(_) => {},
                            }
                        }
                        r
                    },
                }
            },
            Err(e) => {
                match e {
                    ResolverError::RpcError(m) => {
                        s.last_rpc_error = Some(m);
                        s.idx = s.idx + 1;
                        self.advance(s)
                    },
                    _ => {
                        proof {
                            assert(false);
                        }
                        ResolveAction::Finished(Err(e))
                    },
                }
            },
        }
    }
}

} // verus!
