//! The naming contract's record store, modelled as a map from
//! `name:TYPE` keys to record sets.
//!
//! Keys are the lower-cased name joined to the upper-cased type by a colon.
//! Updates replace a key's whole set, additions append one record to it,
//! and deletions drop one type's set or every recognized type's set for a
//! name.  Only the owner may change the store; the chain runtime that
//! enforces who is calling lives outside, so changing methods take the
//! caller and require it to be the owner.

use vstd::prelude::*;

use crate::records::{records_view, DnsRecord, RecordView};
use crate::text::{lower_seq, split_char, upper_seq};

verus! {

/// The storage key for a name and record type.
pub open spec fn key_of(name: Seq<char>, record_type: Seq<char>) -> Seq<char> {
    lower_seq(name) + ":"@ + upper_seq(record_type)
}

/// The map modelled by an association list, later entries winning (they
/// never conflict under the uniqueness invariant).
pub open spec fn assoc_view(entries: Seq<(String, Vec<DnsRecord>)>) -> Map<
    Seq<char>,
    Seq<RecordView>,
>
    decreases entries.len(),
{
    if entries.len() == 0 {
        Map::empty()
    } else {
        assoc_view(entries.drop_last()).insert(
            entries.last().0@,
            records_view(entries.last().1@),
        )
    }
}

/// No two entries share a key.
pub open spec fn keys_unique(entries: Seq<(String, Vec<DnsRecord>)>) -> bool {
    forall|i: int, j: int|
        0 <= i < j < entries.len() ==> (#[trigger] entries[i]).0@ != (#[trigger] entries[j]).0@
}

proof fn lemma_assoc_found(entries: Seq<(String, Vec<DnsRecord>)>, i: int)
    requires
        keys_unique(entries),
        0 <= i < entries.len(),
    ensures
        assoc_view(entries).contains_key(entries[i].0@),
        assoc_view(entries)[entries[i].0@] == records_view(entries[i].1@),
    decreases entries.len(),
{
    if i < entries.len() - 1 {
        assert(keys_unique(entries.drop_last())) by {
            assert(forall|a: int, b: int|
                0 <= a < b < entries.drop_last().len() ==> (#[trigger] entries.drop_last()[a]).0@
                    != (#[trigger] entries.drop_last()[b]).0@) by {
                assert(forall|a: int|
                    0 <= a < entries.drop_last().len() ==> #[trigger] entries.drop_last()[a]
                        == entries[a]);
            }
        }
        lemma_assoc_found(entries.drop_last(), i);
        assert(entries.drop_last()[i] == entries[i]);
        assert(entries[i].0@ != entries.last().0@);
    }
}

proof fn lemma_assoc_absent(entries: Seq<(String, Vec<DnsRecord>)>, k: Seq<char>)
    requires
        forall|i: int| 0 <= i < entries.len() ==> (#[trigger] entries[i]).0@ != k,
    ensures
        !assoc_view(entries).contains_key(k),
    decreases entries.len(),
{
    if entries.len() > 0 {
        assert(forall|i: int|
            0 <= i < entries.drop_last().len() ==> (#[trigger] entries.drop_last()[i]).0@ != k)
            by {
            assert(forall|i: int|
                0 <= i < entries.drop_last().len() ==> #[trigger] entries.drop_last()[i]
                    == entries[i]);
        }
        lemma_assoc_absent(entries.drop_last(), k);
        assert(entries.last().0@ != k) by {
            assert(entries[entries.len() - 1].0@ != k);
        }
    }
}

proof fn lemma_assoc_update(
    entries: Seq<(String, Vec<DnsRecord>)>,
    i: int,
    k2: String,
    v: Vec<DnsRecord>,
)
    requires
        keys_unique(entries),
        0 <= i < entries.len(),
        k2@ == entries[i].0@,
    ensures
        assoc_view(entries.update(i, (k2, v))) == assoc_view(entries).insert(
            k2@,
            records_view(v@),
        ),
        keys_unique(entries.update(i, (k2, v))),
    decreases entries.len(),
{
    let upd = entries.update(i, (k2, v));
    assert(keys_unique(upd)) by {
        assert(forall|a: int| 0 <= a < upd.len() ==> (#[trigger] upd[a]).0@ == entries[a].0@);
    }
    if i == entries.len() - 1 {
        assert(upd.drop_last() =~= entries.drop_last());
        assert(upd.last() == (k2, v));
        assert(assoc_view(upd) =~= assoc_view(entries).insert(k2@, records_view(v@))) by {
            assert(assoc_view(upd) == assoc_view(entries.drop_last()).insert(
                k2@,
                records_view(v@),
            ));
            assert(assoc_view(entries) == assoc_view(entries.drop_last()).insert(
                entries[i].0@,
                records_view(entries[i].1@),
            ));
        }
    } else {
        assert(keys_unique(entries.drop_last())) by {
            assert(forall|a: int|
                0 <= a < entries.drop_last().len() ==> #[trigger] entries.drop_last()[a]
                    == entries[a]);
        }
        lemma_assoc_update(entries.drop_last(), i, k2, v);
        assert(upd.drop_last() =~= entries.drop_last().update(i, (k2, v)));
        assert(upd.last() == entries.last());
        assert(entries[i].0@ != entries.last().0@);
        assert(assoc_view(upd) =~= assoc_view(entries).insert(k2@, records_view(v@)));
    }
}

proof fn lemma_assoc_remove(entries: Seq<(String, Vec<DnsRecord>)>, i: int)
    requires
        keys_unique(entries),
        0 <= i < entries.len(),
    ensures
        assoc_view(entries.remove(i)) == assoc_view(entries).remove(entries[i].0@),
        keys_unique(entries.remove(i)),
    decreases entries.len(),
{
    let rem = entries.remove(i);
    assert(keys_unique(rem)) by {
        assert(forall|a: int|
            0 <= a < rem.len() ==> (#[trigger] rem[a]) == (if a < i {
                entries[a]
            } else {
                entries[a + 1]
            }));
    }
    if i == entries.len() - 1 {
        assert(rem =~= entries.drop_last());
        assert(forall|a: int|
            0 <= a < entries.drop_last().len() ==> (#[trigger] entries.drop_last()[a]).0@
                != entries[i].0@);
        lemma_assoc_absent(entries.drop_last(), entries[i].0@);
        assert(assoc_view(entries.remove(i)) =~= assoc_view(entries).remove(entries[i].0@));
    } else {
        assert(keys_unique(entries.drop_last())) by {
            assert(forall|a: int|
                0 <= a < entries.drop_last().len() ==> #[trigger] entries.drop_last()[a]
                    == entries[a]);
        }
        lemma_assoc_remove(entries.drop_last(), i);
        assert(rem.drop_last() =~= entries.drop_last().remove(i));
        assert(rem.last() == entries.last());
        assert(entries[i].0@ != entries.last().0@);
        assert(assoc_view(rem) =~= assoc_view(entries).remove(entries[i].0@));
    }
}

/// A per-account DNS record store, as the naming contract keeps it.
pub struct DnsContract {
    pub records: Vec<(String, Vec<DnsRecord>)>,
    pub owner: String,
}

impl DnsContract {
    /// The store's well-formedness: no key occurs twice.
    pub open spec fn wf(&self) -> bool {
        keys_unique(self.records@)
    }

    /// The stored map, key text to record set.
    pub open spec fn store_view(&self) -> Map<Seq<char>, Seq<RecordView>> {
        assoc_view(self.records@)
    }

    /// An empty store owned by the given account.
    pub fn new(owner: String) -> (r: Self)
        ensures
            r.wf(),
            r.store_view() == Map::<Seq<char>, Seq<RecordView>>::empty(),
            r.owner@ == owner@,
    {
        let r = DnsContract { records: Vec::new(), owner };
        proof {
            assert(r.records@.len() == 0);
            assert(r.store_view() =~= Map::<Seq<char>, Seq<RecordView>>::empty());
        }
        r
    }

    /// The owner account.
    pub fn get_owner(&self) -> (r: String)
        ensures
            r@ == self.owner@,
    {
        self.owner.clone()
    }

    /// Hands the store to a new owner; only the owner may.
    pub fn transfer_ownership(&mut self, caller: &str, new_owner: String)
        requires
            caller@ == old(self).owner@,
        ensures
            final(self).owner@ == new_owner@,
            final(self).records == old(self).records,
    {
        self.owner = new_owner;
    }

    fn make_key(name: &str, record_type: &str) -> (r: String)
        ensures
            r@ == key_of(name@, record_type@),
    {
        let mut k = crate::text::to_lower(name);
        k.append(":");
        let upper = crate::text::to_upper(record_type);
        k.append(upper.as_str());
        k
    }

    /// Finds the position of a key, if present.
    fn find_key(&self, key: &str) -> (r: Option<usize>)
        ensures
            r matches Some(i) ==> i < self.records@.len() && self.records@[i as int].0@ == key@,
            r is None ==> forall|i: int|
                0 <= i < self.records@.len() ==> (#[trigger] self.records@[i]).0@ != key@,
    {
        let n = self.records.len();
        let mut i: usize = 0;
        while i < n
            invariant
                n == self.records@.len(),
                i <= n,
                forall|k: int| 0 <= k < i ==> (#[trigger] self.records@[k]).0@ != key@,
            decreases n - i,
        {
            if crate::text::str_eq(self.records[i].0.as_str(), key) {
                return Some(i);
            }
            i = i + 1;
        }
        None
    }

    /// Stores a record set under a key, replacing any set already there.
    fn upsert(&mut self, key: String, records: Vec<DnsRecord>)
        requires
            old(self).wf(),
        ensures
            final(self).wf(),
            final(self).store_view() == old(self).store_view().insert(
                key@,
                records_view(records@),
            ),
            final(self).owner == old(self).owner,
    {
        let ghost entries = self.records@;
        let ghost key0 = key;
        let ghost recs0 = records;
        match self.find_key(key.as_str()) {
            Some(i) => {
                proof {
                    lemma_assoc_update(entries, i as int, key0, recs0);
                }
                self.records.set(i, (key, records));
                proof {
                    assert(self.records@ =~= entries.update(i as int, (key0, recs0)));
                }
            },
            None => {
                proof {
                    assert(entries.push((key, records)).drop_last() =~= entries);
                }
                self.records.push((key, records));
                proof {
                    assert(keys_unique(self.records@)) by {
                        assert(forall|a: int|
                            0 <= a < entries.len() ==> #[trigger] self.records@[a] == entries[a]);
                        assert(self.records@[entries.len() as int].0@ == key@);
                    }
                }
            },
        }
    }

    /// The records stored for a name and type, the key compared after case
    /// normalization; nothing when the key was never stored.
    pub fn dns_query(&self, name: String, record_type: String) -> (r: Option<Vec<DnsRecord>>)
        requires
            self.wf(),
        ensures
            r matches Some(v) ==> self.store_view().contains_key(key_of(name@, record_type@))
                && records_view(v@) == self.store_view()[key_of(name@, record_type@)],
            r is None ==> !self.store_view().contains_key(key_of(name@, record_type@)),
    {
        let key = Self::make_key(name.as_str(), record_type.as_str());
        match self.find_key(key.as_str()) {
            Some(i) => {
                proof {
                    lemma_assoc_found(self.records@, i as int);
                }
                let entry = &self.records[i];
                Some(crate::records::clone_records(&entry.1))
            },
            None => {
                proof {
                    lemma_assoc_absent(self.records@, key@);
                }
                None
            },
        }
    }

    /// Replaces the record set for a name; the records must be non-empty
    /// and of a single type, which names the key.  Only the owner may.
    pub fn dns_update(&mut self, caller: &str, name: String, records: Vec<DnsRecord>)
        requires
            old(self).wf(),
            caller@ == old(self).owner@,
            records@.len() >= 1,
            forall|i: int|
                0 <= i < records@.len() ==> upper_seq((#[trigger] records@[i])@.record_type)
                    == upper_seq(records@[0]@.record_type),
        ensures
            final(self).wf(),
            final(self).store_view() == old(self).store_view().insert(
                key_of(name@, records@[0]@.record_type),
                records_view(records@),
            ),
            final(self).owner == old(self).owner,
    {
        let rt = records[0].record_type.clone();
        let key = Self::make_key(name.as_str(), rt.as_str());
        self.upsert(key, records);
    }

    /// Appends one record to the set stored for its name and type,
    /// creating the set if the key is new.  Only the owner may.
    pub fn dns_add(&mut self, caller: &str, name: String, record: DnsRecord)
        requires
            old(self).wf(),
            caller@ == old(self).owner@,
        ensures
            final(self).wf(),
            final(self).store_view() == old(self).store_view().insert(
                key_of(name@, record@.record_type),
                prior_records(old(self).store_view(), key_of(name@, record@.record_type)).push(
                    record@,
                ),
            ),
            final(self).owner == old(self).owner,
    {
        let key = Self::make_key(name.as_str(), record.record_type.as_str());
        let ghost k = key@;
        let mut existing: Vec<DnsRecord> = match self.find_key(key.as_str()) {
            Some(i) => {
                proof {
                    lemma_assoc_found(self.records@, i as int);
                }
                crate::records::clone_records(&self.records[i].1)
            },
            None => {
                proof {
                    lemma_assoc_absent(self.records@, k);
                }
                Vec::new()
            },
        };
        proof {
            assert(records_view(existing@) == prior_records(self.store_view(), k));
        }
        existing.push(record);
        proof {
            assert(records_view(existing@) =~= prior_records(self.store_view(), k).push(
                existing@[existing@.len() - 1]@,
            ));
        }
        self.upsert(key, existing);
    }

    /// Deletes the set stored for a name and one type, or — when no type
    /// is given — the sets of every recognized type for the name.  Only
    /// the owner may.
    pub fn dns_delete(&mut self, caller: &str, name: String, record_type: Option<String>)
        requires
            old(self).wf(),
            caller@ == old(self).owner@,
        ensures
            final(self).wf(),
            final(self).owner == old(self).owner,
            record_type matches Some(rt) ==> final(self).store_view() == old(
                self,
            ).store_view().remove(key_of(name@, rt@)),
            record_type is None ==> final(self).store_view() == all_types_removed(
                old(self).store_view(),
                name@,
            ),
    {
        match record_type {
            Some(rt) => {
                let key = Self::make_key(name.as_str(), rt.as_str());
                self.remove_key(key.as_str());
            },
            None => {
                let kinds = crate::records::known_type_names();
                let mut i: usize = 0;
                let ghost m0 = self.store_view();
                while i < kinds.len()
                    invariant
                        old(self).wf(),
                        self.wf(),
                        self.owner == old(self).owner,
                        i <= kinds@.len(),
                        kinds@.len() == 10,
                        crate::records::type_names_ok(kinds@),
                        m0 == old(self).store_view(),
                        self.store_view() == removed_upto(m0, name@, kinds@, i as int),
                    decreases kinds@.len() - i,
                {
                    let key = Self::make_key(name.as_str(), kinds[i].as_str());
                    self.remove_key(key.as_str());
                    i = i + 1;
                }
                proof {
                    let nm = name@;
                    let ks = kinds@;
                    assert(removed_upto(m0, nm, ks, 0) == m0);
                    assert(removed_upto(m0, nm, ks, 1) == removed_upto(m0, nm, ks, 0).remove(
                        key_of(nm, ks[0]@),
                    ));
                    assert(removed_upto(m0, nm, ks, 2) == removed_upto(m0, nm, ks, 1).remove(
                        key_of(nm, ks[1]@),
                    ));
                    assert(removed_upto(m0, nm, ks, 3) == removed_upto(m0, nm, ks, 2).remove(
                        key_of(nm, ks[2]@),
                    ));
                    assert(removed_upto(m0, nm, ks, 4) == removed_upto(m0, nm, ks, 3).remove(
                        key_of(nm, ks[3]@),
                    ));
                    assert(removed_upto(m0, nm, ks, 5) == removed_upto(m0, nm, ks, 4).remove(
                        key_of(nm, ks[4]@),
                    ));
                    assert(removed_upto(m0, nm, ks, 6) == removed_upto(m0, nm, ks, 5).remove(
                        key_of(nm, ks[5]@),
                    ));
                    assert(removed_upto(m0, nm, ks, 7) == removed_upto(m0, nm, ks, 6).remove(
                        key_of(nm, ks[6]@),
                    ));
                    assert(removed_upto(m0, nm, ks, 8) == removed_upto(m0, nm, ks, 7).remove(
                        key_of(nm, ks[7]@),
                    ));
                    assert(removed_upto(m0, nm, ks, 9) == removed_upto(m0, nm, ks, 8).remove(
                        key_of(nm, ks[8]@),
                    ));
                    assert(removed_upto(m0, nm, ks, 10) == removed_upto(m0, nm, ks, 9).remove(
                        key_of(nm, ks[9]@),
                    ));
                    assert(self.store_view() == all_types_removed(m0, nm));
                }
            },
        }
    }

    /// Appends the set stored for one name and type, if any, to `out`.
    fn append_for_type(&self, out: &mut Vec<DnsRecord>, name: &str, record_type: &str)
        requires
            self.wf(),
        ensures
            records_view(final(out)@) == records_view(old(out)@) + prior_records(
                self.store_view(),
                key_of(name@, record_type@),
            ),
    {
        let key = Self::make_key(name, record_type);
        match self.find_key(key.as_str()) {
            Some(i) => {
                proof {
                    lemma_assoc_found(self.records@, i as int);
                }
                let mut extra = crate::records::clone_records(&self.records[i].1);
                let ghost before = out@;
                let ghost extra0 = extra@;
                out.append(&mut extra);
                proof {
                    assert(records_view(before + extra0) =~= records_view(before) + records_view(
                        extra0,
                    ));
                }
            },
            None => {
                proof {
                    lemma_assoc_absent(self.records@, key@);
                    assert(records_view(out@) =~= records_view(out@) + prior_records(
                        self.store_view(),
                        key@,
                    ));
                }
            },
        }
    }

    /// All records stored for a name, every recognized type in its fixed
    /// order.
    pub fn dns_query_all(&self, name: String) -> (r: Vec<DnsRecord>)
        requires
            self.wf(),
        ensures
            records_view(r@) == query_all_view(self.store_view(), name@),
    {
        let mut out: Vec<DnsRecord> = Vec::new();
        proof {
            assert(records_view(out@) =~= Seq::<RecordView>::empty());
        }
        self.append_for_type(&mut out, name.as_str(), "A");
        proof {
            assert(records_view(out@) =~= prior_records(
                self.store_view(),
                key_of(name@, "A"@),
            ));
        }
        self.append_for_type(&mut out, name.as_str(), "AAAA");
        self.append_for_type(&mut out, name.as_str(), "CNAME");
        self.append_for_type(&mut out, name.as_str(), "MX");
        self.append_for_type(&mut out, name.as_str(), "NS");
        self.append_for_type(&mut out, name.as_str(), "TXT");
        self.append_for_type(&mut out, name.as_str(), "SRV");
        self.append_for_type(&mut out, name.as_str(), "SOA");
        self.append_for_type(&mut out, name.as_str(), "PTR");
        self.append_for_type(&mut out, name.as_str(), "CAA");
        out
    }

    /// The distinct names with records, first occurrences in storage
    /// order.
    pub fn dns_list_names(&self) -> (r: Vec<String>)
        ensures
            crate::text::str_views(r@) == crate::probes::dedup(entry_names(self.records@)),
    {
        let mut out: Vec<String> = Vec::new();
        let n = self.records.len();
        let mut i: usize = 0;
        proof {
            assert(entry_names(self.records@).take(0) =~= Seq::<Seq<char>>::empty());
            assert(crate::text::str_views(out@) =~= Seq::<Seq<char>>::empty());
            assert(crate::probes::dedup(Seq::<Seq<char>>::empty()) =~= Seq::<Seq<char>>::empty());
        }
        while i < n
            invariant
                self.records@.len() == n,
                i <= n,
                crate::text::str_views(out@) == crate::probes::dedup(
                    entry_names(self.records@).take(i as int),
                ),
            decreases n - i,
        {
            let fields = crate::text::split_on(self.records[i].0.as_str(), ':');
            proof {
                crate::text::lemma_split_char_len(self.records@[i as int].0@, ':');
                assert(crate::text::str_views(fields@)[0] == fields@[0]@);
            }
            let nm = fields[0].clone();
            let ghost names = entry_names(self.records@);
            proof {
                assert(names[i as int] == name_of_key(self.records@[i as int].0@));
                assert(nm@ == names[i as int]);
                assert(names.take(i + 1).drop_last() =~= names.take(i as int));
                assert(names.take(i + 1).last() == names[i as int]);
                crate::probes::lemma_dedup_contains(names.take(i as int), names[i as int]);
            }
            let dup = contains_string(&out, nm.as_str());
            if !dup {
                proof {
                    assert(crate::text::str_views(out@.push(nm)) =~= crate::text::str_views(
                        out@,
                    ).push(nm@));
                }
                out.push(nm);
            }
            i = i + 1;
        }
        proof {
            assert(entry_names(self.records@).take(n as int) =~= entry_names(self.records@));
        }
        out
    }

    /// Every stored entry, key and record set.
    pub fn dns_list_all(&self) -> (r: Vec<(String, Vec<DnsRecord>)>)
        ensures
            entries_view(r@) == entries_view(self.records@),
    {
        let mut out: Vec<(String, Vec<DnsRecord>)> = Vec::new();
        let n = self.records.len();
        let mut i: usize = 0;
        while i < n
            invariant
                self.records@.len() == n,
                i <= n,
                out@.len() == i,
                forall|k: int|
                    0 <= k < i ==> #[trigger] entries_view(out@)[k] == entries_view(
                        self.records@,
                    )[k],
            decreases n - i,
        {
            let key = self.records[i].0.clone();
            let recs = crate::records::clone_records(&self.records[i].1);
            let ghost out0 = out@;
            let ghost key0 = key;
            let ghost recs0 = recs;
            out.push((key, recs));
            proof {
                assert forall|k: int| 0 <= k < i + 1 implies #[trigger] entries_view(out@)[k]
                    == entries_view(self.records@)[k] by {
                    assert(entries_view(out@)[k] == (out@[k].0@, records_view(out@[k].1@)));
                    assert(entries_view(self.records@)[k] == (
                        self.records@[k].0@,
                        records_view(self.records@[k].1@),
                    ));
                    if k < i {
                        assert(out@[k] == out0[k]);
                        assert(entries_view(out0)[k] == (out0[k].0@, records_view(out0[k].1@)));
                    } else {
                        assert(out@[k] == (key0, recs0));
                        assert(key0@ == self.records@[k].0@);
                        assert(records_view(recs0@) == records_view(self.records@[k].1@));
                    }
                }
            }
            i = i + 1;
        }
        proof {
            assert(entries_view(out@) =~= entries_view(self.records@));
        }
        out
    }

    /// Removes one key's entry, if present.
    fn remove_key(&mut self, key: &str)
        requires
            old(self).wf(),
        ensures
            final(self).wf(),
            final(self).store_view() == old(self).store_view().remove(key@),
            final(self).owner == old(self).owner,
    {
        let ghost entries = self.records@;
        match self.find_key(key) {
            Some(i) => {
                proof {
                    lemma_assoc_remove(entries, i as int);
                }
                let _removed = self.records.remove(i);
                proof {
                    assert(self.records@ =~= entries.remove(i as int));
                    assert(entries[i as int].0@ == key@);
                }
            },
            None => {
                proof {
                    lemma_assoc_absent(entries, key@);
                    assert(self.store_view() =~= self.store_view().remove(key@));
                }
            },
        }
    }
}

/// Whether one of the strings reads `a`.
fn contains_string(v: &Vec<String>, a: &str) -> (r: bool)
    ensures
        r == crate::text::str_views(v@).contains(a@),
{
    let n = v.len();
    let mut i: usize = 0;
    while i < n
        invariant
            n == v@.len(),
            i <= n,
            forall|k: int| 0 <= k < i ==> #[trigger] crate::text::str_views(v@)[k] != a@,
        decreases n - i,
    {
        if crate::text::str_eq(v[i].as_str(), a) {
            proof {
                assert(crate::text::str_views(v@)[i as int] == a@);
            }
            return true;
        }
        proof {
            assert(crate::text::str_views(v@)[i as int] == v@[i as int]@);
        }
        i = i + 1;
    }
    false
}

/// The name half of a storage key: what stands before the first colon.
pub open spec fn name_of_key(k: Seq<char>) -> Seq<char> {
    split_char(k, ':')[0]
}

/// The names of the stored entries, in storage order.
pub open spec fn entry_names(entries: Seq<(String, Vec<DnsRecord>)>) -> Seq<Seq<char>> {
    entries.map_values(|e: (String, Vec<DnsRecord>)| name_of_key(e.0@))
}

/// The keys and record sets of the stored entries, in storage order.
pub open spec fn entries_view(entries: Seq<(String, Vec<DnsRecord>)>) -> Seq<
    (Seq<char>, Seq<RecordView>),
> {
    entries.map_values(|e: (String, Vec<DnsRecord>)| (e.0@, records_view(e.1@)))
}

/// All records stored for a name: the sets of every recognized type, in
/// the fixed order, concatenated.
pub open spec fn query_all_view(m: Map<Seq<char>, Seq<RecordView>>, name: Seq<char>) -> Seq<
    RecordView,
> {
    prior_records(m, key_of(name, "A"@)) + prior_records(m, key_of(name, "AAAA"@)) + prior_records(
        m,
        key_of(name, "CNAME"@),
    ) + prior_records(m, key_of(name, "MX"@)) + prior_records(m, key_of(name, "NS"@))
        + prior_records(m, key_of(name, "TXT"@)) + prior_records(m, key_of(name, "SRV"@))
        + prior_records(m, key_of(name, "SOA"@)) + prior_records(m, key_of(name, "PTR"@))
        + prior_records(m, key_of(name, "CAA"@))
}

/// The set already stored under a key, empty when the key is new.
pub open spec fn prior_records(m: Map<Seq<char>, Seq<RecordView>>, k: Seq<char>) -> Seq<
    RecordView,
> {
    if m.contains_key(k) {
        m[k]
    } else {
        Seq::empty()
    }
}

/// The store after the keys of the first `n` recognized types of a name
/// are removed.
pub open spec fn removed_upto(
    m: Map<Seq<char>, Seq<RecordView>>,
    name: Seq<char>,
    kinds: Seq<String>,
    n: int,
) -> Map<Seq<char>, Seq<RecordView>>
    decreases n,
{
    if n <= 0 {
        m
    } else {
        removed_upto(m, name, kinds, n - 1).remove(key_of(name, kinds[n - 1]@))
    }
}

/// The store after every recognized type's key for a name is removed.
pub open spec fn all_types_removed(
    m: Map<Seq<char>, Seq<RecordView>>,
    name: Seq<char>,
) -> Map<Seq<char>, Seq<RecordView>> {
    m.remove(key_of(name, "A"@)).remove(key_of(name, "AAAA"@)).remove(
        key_of(name, "CNAME"@),
    ).remove(key_of(name, "MX"@)).remove(key_of(name, "NS"@)).remove(key_of(name, "TXT"@)).remove(
        key_of(name, "SRV"@),
    ).remove(key_of(name, "SOA"@)).remove(key_of(name, "PTR"@)).remove(key_of(name, "CAA"@))
}

} // verus!
