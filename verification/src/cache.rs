//! The two-tier cache: contract-existence verdicts and per-(contract, name,
//! type) record sets, each with a configured time to live and a bounded
//! capacity with LRU-approximate eviction.
//!
//! The backing store is `moka`'s synchronous cache.  Its contents are
//! modelled as a map from key to the most recently inserted value: an
//! insertion updates the model exactly, while a lookup either misses (the
//! entry was never stored, has expired, or was evicted) or returns precisely
//! the modelled value.  An empty stored record set is a remembered negative
//! answer, distinct from an absent entry.
//!
//! The cache deliberately ignores the TTL carried inside stored records:
//! record TTLs govern downstream DNS clients, cache TTLs govern upstream
//! RPC amplification.
//!
//! The model has no clock, so it pins what a hit returns, never when a hit
//! occurs: that a fresh entry is found within its time to live, and gone
//! after it, is the backing store's timing behaviour, exercised by this
//! crate's tests.  The model is per handle; nothing here clones the backing
//! stores, and the fields stay private so no outside alias can be made.

use vstd::prelude::*;

use crate::records::{records_view, DnsRecord, RecordView};

verus! {

#[verifier::external_type_specification]
#[verifier::external_body]
#[verifier::reject_recursive_types(K)]
#[verifier::reject_recursive_types(V)]
#[verifier::reject_recursive_types(S)]
pub struct ExMokaCache<K, V, S>(moka::sync::Cache<K, V, S>);

/// The backing store of the existence tier.
pub type ExistenceStore = moka::sync::Cache<String, bool>;

/// The backing store of the record tier.
pub type RecordStore = moka::sync::Cache<(String, String, String), Vec<DnsRecord>>;

/// The contract-existence entries of a cache: each cached contract account
/// mapped to the verdict most recently stored for it.
pub uninterp spec fn existence_entries(c: ExistenceStore) -> Map<Seq<char>, bool>;

/// The record entries of a cache: each cached (contract, name, type) triple
/// mapped to the record set most recently stored for it.
pub uninterp spec fn record_entries(c: RecordStore) -> Map<
    (Seq<char>, Seq<char>, Seq<char>),
    Seq<RecordView>,
>;

/// The model of a cache tier with nothing stored.
pub open spec fn no_existence_entries() -> Map<Seq<char>, bool> {
    Map::empty()
}

/// The model of a record tier with nothing stored.
pub open spec fn no_record_entries() -> Map<(Seq<char>, Seq<char>, Seq<char>), Seq<RecordView>> {
    Map::empty()
}

/// The longest time to live the backing store accepts: 1000 years of
/// 365 days, in seconds.  Beyond it the builder panics.
pub const MAX_TTL_SECS: u64 = 31_536_000_000;

/// Relies on `moka::sync::CacheBuilder` (`time_to_live`, `max_capacity`,
/// `build`): a freshly built cache holds no entries.
#[verifier::external_body]
fn new_existence_cache(ttl_secs: u64, max_entries: u64) -> (r: ExistenceStore)
    requires
        ttl_secs <= MAX_TTL_SECS,
    ensures
        existence_entries(r) == no_existence_entries(),
{
    moka::sync::Cache::builder().time_to_live(core::time::Duration::from_secs(ttl_secs))
        .max_capacity(max_entries)
        .build()
}

/// Relies on `moka::sync::CacheBuilder` (`time_to_live`, `max_capacity`,
/// `build`): a freshly built cache holds no entries.
#[verifier::external_body]
fn new_record_cache(ttl_secs: u64, max_entries: u64) -> (r: RecordStore)
    requires
        ttl_secs <= MAX_TTL_SECS,
    ensures
        record_entries(r) == no_record_entries(),
{
    moka::sync::Cache::builder().time_to_live(core::time::Duration::from_secs(ttl_secs))
        .max_capacity(max_entries)
        .build()
}

/// Relies on `moka::sync::Cache::get`: a hit returns a clone of the most
/// recently inserted value for the key; a miss (never stored, expired, or
/// evicted) returns nothing.
#[verifier::external_body]
fn existence_get(c: &ExistenceStore, key: &str) -> (r: Option<bool>)
    ensures
        r matches Some(b) ==> existence_entries(*c).contains_key(key@) && existence_entries(*c)[
            key@] == b,
{
    c.get(key)
}

/// Relies on `moka::sync::Cache::insert`: stores the value for the key,
/// replacing any previous one and restarting its time to live.
#[verifier::external_body]
fn existence_insert(c: &mut ExistenceStore, key: String, value: bool)
    ensures
        existence_entries(*final(c)) == existence_entries(*old(c)).insert(key@, value),
{
    c.insert(key, value);
}

/// Relies on `moka::sync::Cache::get`: a hit returns a clone of the most
/// recently inserted value for the key; a miss (never stored, expired, or
/// evicted) returns nothing.
#[verifier::external_body]
fn records_get(
    c: &RecordStore,
    contract_id: &str,
    dns_name: &str,
    record_type: &str,
) -> (r: Option<Vec<DnsRecord>>)
    ensures
        r matches Some(v) ==> record_entries(*c).contains_key(
            (contract_id@, dns_name@, record_type@),
        ) && records_view(v@) == record_entries(*c)[(contract_id@, dns_name@, record_type@)],
{
    let key = (contract_id.to_owned(), dns_name.to_owned(), record_type.to_owned());
    c.get(&key)
}

/// Relies on `moka::sync::Cache::insert`: stores the value for the key,
/// replacing any previous one and restarting its time to live.
#[verifier::external_body]
fn records_insert(
    c: &mut RecordStore,
    contract_id: String,
    dns_name: String,
    record_type: String,
    records: Vec<DnsRecord>,
)
    ensures
        record_entries(*final(c)) == record_entries(*old(c)).insert(
            (contract_id@, dns_name@, record_type@),
            records_view(records@),
        ),
{
    c.insert((contract_id, dns_name, record_type), records);
}

/// Cache construction parameters: times to live in seconds — at most
/// [`MAX_TTL_SECS`] each — and the maximum entry count of each tier.
pub struct CacheConfig {
    pub contract_ttl_secs: u64,
    pub record_ttl_secs: u64,
    pub max_entries: u64,
}

impl Default for CacheConfig {
    /// Five minutes for both tiers, ten thousand entries each.
    fn default() -> (r: Self)
        ensures
            r.contract_ttl_secs == 300,
            r.record_ttl_secs == 300,
            r.max_entries == 10000,
    {
        CacheConfig { contract_ttl_secs: 300, record_ttl_secs: 300, max_entries: 10000 }
    }
}

/// The two-tier cache handle.  The backing stores stay private: the
/// modelled contents are per handle, and an aliasing second handle would
/// step outside the model.
pub struct DnsCache {
    contract: ExistenceStore,
    records: RecordStore,
}

impl DnsCache {
    /// The modelled contract-existence entries.
    pub closed spec fn existence_view(&self) -> Map<Seq<char>, bool> {
        existence_entries(self.contract)
    }

    /// The modelled record entries.
    pub closed spec fn records_view(&self) -> Map<
        (Seq<char>, Seq<char>, Seq<char>),
        Seq<RecordView>,
    > {
        record_entries(self.records)
    }

    /// A cache with the default configuration.
    pub fn new() -> (r: Self)
        ensures
            r.existence_view() == Map::<Seq<char>, bool>::empty(),
            r.records_view() == Map::<(Seq<char>, Seq<char>, Seq<char>), Seq<RecordView>>::empty(),
    {
        Self::with_config(CacheConfig::default())
    }

    /// A cache with the given configuration; both tiers start empty.  The
    /// times to live must stay within what the backing store accepts.
    pub fn with_config(config: CacheConfig) -> (r: Self)
        requires
            config.contract_ttl_secs <= MAX_TTL_SECS,
            config.record_ttl_secs <= MAX_TTL_SECS,
        ensures
            r.existence_view() == Map::<Seq<char>, bool>::empty(),
            r.records_view() == Map::<(Seq<char>, Seq<char>, Seq<char>), Seq<RecordView>>::empty(),
    {
        DnsCache {
            contract: new_existence_cache(config.contract_ttl_secs, config.max_entries),
            records: new_record_cache(config.record_ttl_secs, config.max_entries),
        }
    }

    /// Looks up a cached existence verdict; absent means "unknown, must
    /// probe", and a hit is exactly the verdict last stored.
    pub fn get_contract(&self, contract_id: &str) -> (r: Option<bool>)
        ensures
            r matches Some(b) ==> self.existence_view().contains_key(contract_id@)
                && self.existence_view()[contract_id@] == b,
    {
        existence_get(&self.contract, contract_id)
    }

    /// Stores an existence verdict, restarting its time to live.
    pub fn insert_contract(&mut self, contract_id: String, exists: bool)
        ensures
            final(self).existence_view() == old(self).existence_view().insert(
                contract_id@,
                exists,
            ),
            final(self).records_view() == old(self).records_view(),
    {
        existence_insert(&mut self.contract, contract_id, exists);
    }

    /// Looks up a cached record set; absent means "uncached", an empty hit
    /// is a remembered negative answer.
    pub fn get_records(&self, contract_id: &str, dns_name: &str, record_type: &str) -> (r: Option<
        Vec<DnsRecord>,
    >)
        ensures
            r matches Some(v) ==> self.records_view().contains_key(
                (contract_id@, dns_name@, record_type@),
            ) && records_view(v@) == self.records_view()[(contract_id@, dns_name@, record_type@)],
    {
        records_get(&self.records, contract_id, dns_name, record_type)
    }

    /// Stores a record set (an empty one included), restarting its time to
    /// live.
    pub fn insert_records(
        &mut self,
        contract_id: String,
        dns_name: String,
        record_type: String,
        records: Vec<DnsRecord>,
    )
        ensures
            final(self).records_view() == old(self).records_view().insert(
                (contract_id@, dns_name@, record_type@),
                records_view(records@),
            ),
            final(self).existence_view() == old(self).existence_view(),
    {
        records_insert(&mut self.records, contract_id, dns_name, record_type, records);
    }
}

impl Default for DnsCache {
    /// A cache with the default configuration.
    fn default() -> (r: Self)
        ensures
            r.existence_view() == Map::<Seq<char>, bool>::empty(),
            r.records_view() == Map::<(Seq<char>, Seq<char>, Seq<char>), Seq<RecordView>>::empty(),
    {
        DnsCache::new()
    }
}

/// After a record set is stored under a key, the cache models exactly that
/// set for the key — an empty set included, which is how a remembered
/// negative differs from an absent entry — and any later hit on the key can
/// return only that set, until it is overwritten, expires or is evicted.
pub proof fn lemma_record_store_round_trip(
    c0: DnsCache,
    c1: DnsCache,
    contract_id: Seq<char>,
    dns_name: Seq<char>,
    record_type: Seq<char>,
    stored: Seq<RecordView>,
)
    requires
        c1.records_view() == c0.records_view().insert(
            (contract_id, dns_name, record_type),
            stored,
        ),
    ensures
        c1.records_view().contains_key((contract_id, dns_name, record_type)),
        c1.records_view()[(contract_id, dns_name, record_type)] == stored,
{
}

} // verus!
