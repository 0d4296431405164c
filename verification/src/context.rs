//! A simplified state of natural keys and typed values, layered over a raw
//! byte store through an [`Addresser`].
//!
//! Every operation computes the radix address and normalized key of the
//! natural keys it was given, works on the record bucket stored at that
//! address, and writes the whole bucket back (or deletes the address when
//! its last record goes). The batch forms group keys by address, read each
//! distinct address once, merge in memory, and write each address once.

use vstd::prelude::*;

use core::marker::PhantomData;

use crate::addresser::Addresser;
use crate::codec::{encodable, encodable_entry, spec_decode, spec_encode};
use crate::error::SimpleStateError;
use crate::protocol::{clone_entries, clone_values, StateEntry, StateEntryBuilder, StateEntryList,
    StateEntryListBuilder, StateEntryV, StateEntryValue, StateEntryValueV};
use crate::store::{delete_all, filter_present, update_all, TransactionContext};

verus! {

/// Keeping exactly the records not filed under `nkey`.
pub open spec fn entry_differs(nkey: Seq<char>) -> spec_fn(StateEntryV) -> bool {
    |e: StateEntryV| e.normalized_key != nkey
}

/// Whether some record of the bucket is filed under `nkey`.
pub open spec fn bucket_contains(b: Seq<StateEntryV>, nkey: Seq<char>) -> bool {
    exists|i: int| 0 <= i < b.len() && (#[trigger] b[i]).normalized_key == nkey
}

/// The values of the first record of the bucket filed under `nkey`.
pub open spec fn bucket_get(b: Seq<StateEntryV>, nkey: Seq<char>) -> Seq<StateEntryValueV>
    decreases b.len(),
{
    if b.len() == 0 {
        Seq::empty()
    } else if b[0].normalized_key == nkey {
        b[0].values
    } else {
        bucket_get(b.drop_first(), nkey)
    }
}

/// The bucket without the records filed under `nkey`.
pub open spec fn bucket_remove(b: Seq<StateEntryV>, nkey: Seq<char>) -> Seq<StateEntryV> {
    b.filter(entry_differs(nkey))
}

/// The bucket after a record is set: any record under the same normalized
/// key is replaced, and the new record goes to the end.
pub open spec fn bucket_set(b: Seq<StateEntryV>, e: StateEntryV) -> Seq<StateEntryV> {
    bucket_remove(b, e.normalized_key).push(e)
}

/// The bucket at one address: the empty bucket when the address is absent,
/// and nothing when the stored bytes are malformed.
pub open spec fn stored_bucket(store: Map<Seq<char>, Seq<u8>>, addr: Seq<char>) -> Option<
    Seq<StateEntryV>,
> {
    if store.contains_key(addr) {
        spec_decode(store[addr])
    } else {
        Some(Seq::empty())
    }
}

/// What a get of one normalized key at one address returns: the values of
/// its record, `None` when no record is filed under it, and an error when
/// the stored bytes are malformed.
pub open spec fn spec_get_entry(
    store: Map<Seq<char>, Seq<u8>>,
    addr: Seq<char>,
    nkey: Seq<char>,
) -> Result<Option<Seq<StateEntryValueV>>, ()> {
    match stored_bucket(store, addr) {
        None => Err(()),
        Some(b) => if bucket_contains(b, nkey) {
            Ok(Some(bucket_get(b, nkey)))
        } else {
            Ok(None)
        },
    }
}

/// The store after a set of one record at one address: the bucket there is
/// replaced wholesale by the bucket with the record set.
pub open spec fn spec_set_entry(
    store: Map<Seq<char>, Seq<u8>>,
    addr: Seq<char>,
    e: StateEntryV,
) -> Result<Map<Seq<char>, Seq<u8>>, ()> {
    match stored_bucket(store, addr) {
        None => Err(()),
        Some(b) => Ok(store.insert(addr, spec_encode(bucket_set(b, e)))),
    }
}

/// The store after a delete of one normalized key at one address, paired
/// with the normalized key when its record was present and removed. A
/// bucket whose last record goes is deleted from the store, not stored
/// empty.
pub open spec fn spec_delete_entry(
    store: Map<Seq<char>, Seq<u8>>,
    addr: Seq<char>,
    nkey: Seq<char>,
) -> Result<(Map<Seq<char>, Seq<u8>>, Option<Seq<char>>), ()> {
    match stored_bucket(store, addr) {
        None => Err(()),
        Some(b) => if bucket_contains(b, nkey) {
            let filtered = bucket_remove(b, nkey);
            if filtered.len() == 0 {
                Ok((store.remove(addr), Some(nkey)))
            } else {
                Ok((store.insert(addr, spec_encode(filtered)), Some(nkey)))
            }
        } else {
            Ok((store, None))
        },
    }
}

/// Whether no two records of a bucket share a normalized key: the
/// invariant of every stored bucket.
pub open spec fn bucket_well_formed(b: Seq<StateEntryV>) -> bool {
    forall|i: int, j: int|
        0 <= i < j < b.len() ==> (#[trigger] b[i]).normalized_key != (
        #[trigger] b[j]).normalized_key
}

/// Removing a key keeps the remaining normalized keys unique.
proof fn lemma_bucket_remove_well_formed(b: Seq<StateEntryV>, k: Seq<char>)
    requires
        bucket_well_formed(b),
    ensures
        bucket_well_formed(bucket_remove(b, k)),
    decreases b.len(),
{
    reveal(Seq::filter);
    if b.len() > 0 {
        assert(forall|i: int| 0 <= i < b.len() - 1 ==> b.drop_last()[i] == #[trigger] b[i]);
        assert(bucket_well_formed(b.drop_last()));
        lemma_bucket_remove_well_formed(b.drop_last(), k);
        let f = bucket_remove(b, k);
        let pf = bucket_remove(b.drop_last(), k);
        if entry_differs(k)(b.last()) {
            assert(f == pf.push(b.last()));
            lemma_bucket_remove_props(b.drop_last(), k);
            assert forall|i: int, j: int| 0 <= i < j < f.len() implies (
            #[trigger] f[i]).normalized_key != (#[trigger] f[j]).normalized_key by {
                if j == f.len() - 1 {
                    assert(f[i] == pf[i]);
                    let m = choose|m: int|
                        0 <= m < b.drop_last().len() && pf[i] == b.drop_last()[m];
                    assert(pf[i] == b[m]);
                    assert(f[j] == b[b.len() - 1]);
                    assert(b[m].normalized_key != b[b.len() - 1].normalized_key);
                } else {
                    assert(f[i] == pf[i] && f[j] == pf[j]);
                }
            }
        } else {
            assert(f == pf);
        }
    }
}

/// Law: the stored buckets' invariants are preserved. Setting a record
/// into a well-formed bucket keeps its normalized keys unique and leaves
/// it non-empty, and removing a key keeps uniqueness. An empty bucket is
/// never stored: `spec_set_entry` stores `bucket_set`, which ends with the
/// new record, and `spec_delete_entry` deletes the address outright
/// whenever `bucket_remove` empties the bucket.
pub proof fn lemma_bucket_invariants(b: Seq<StateEntryV>, e: StateEntryV, nkey: Seq<char>)
    requires
        bucket_well_formed(b),
    ensures
        bucket_well_formed(bucket_set(b, e)),
        bucket_set(b, e).len() > 0,
        bucket_well_formed(bucket_remove(b, nkey)),
{
    lemma_bucket_remove_well_formed(b, nkey);
    lemma_bucket_remove_well_formed(b, e.normalized_key);
    lemma_bucket_remove_props(b, e.normalized_key);
    let f = bucket_remove(b, e.normalized_key);
    let s2 = bucket_set(b, e);
    assert(s2 == f.push(e));
    assert forall|i: int, j: int| 0 <= i < j < s2.len() implies (
    #[trigger] s2[i]).normalized_key != (#[trigger] s2[j]).normalized_key by {
        if j == s2.len() - 1 {
            assert(s2[i] == f[i]);
            assert(f[i].normalized_key != e.normalized_key);
            assert(s2[j] == e);
        } else {
            assert(s2[i] == f[i] && s2[j] == f[j]);
        }
    }
}

/// The first record filed under `nkey` has the values `bucket_get` names.
proof fn lemma_bucket_get_first(b: Seq<StateEntryV>, nkey: Seq<char>, i: int)
    requires
        0 <= i < b.len(),
        b[i].normalized_key == nkey,
        forall|j: int| 0 <= j < i ==> (#[trigger] b[j]).normalized_key != nkey,
    ensures
        bucket_get(b, nkey) == b[i].values,
    decreases i,
{
    if i > 0 {
        assert(forall|j: int|
            0 <= j < i - 1 ==> (#[trigger] b.drop_first()[j]).normalized_key != nkey);
        assert(b.drop_first()[i - 1] == b[i]);
        lemma_bucket_get_first(b.drop_first(), nkey, i - 1);
    }
}

/// A simplified state of natural keys and typed values, implemented over a
/// raw transaction context through an addresser for the key type `K`.
pub struct KeyValueTransactionContext<A, K, C> {
    pub context: C,
    pub addresser: A,
    pub _key: PhantomData<K>,
}

impl<A: Addresser<K>, K, C: TransactionContext> KeyValueTransactionContext<A, K, C> {
    /// Creates a new simplified state over the given raw context and
    /// addresser.
    pub fn new(context: C, addresser: A) -> (r: KeyValueTransactionContext<A, K, C>)
        ensures
            r.context == context,
            r.addresser == addresser,
    {
        KeyValueTransactionContext { context, addresser, _key: PhantomData }
    }

    /// The raw store as this simplified state sees it.
    pub open spec fn store(&self) -> Map<Seq<char>, Seq<u8>> {
        self.context.store()
    }

    /// Fetches and deserializes the record bucket at one address; an absent
    /// address holds the empty bucket.
    fn fetch_bucket(&self, address: &String) -> (r: Result<Vec<StateEntry>, SimpleStateError>)
        ensures
            match r {
                Ok(es) => stored_bucket(self.store(), address@) == Some(es.deep_view()),
                Err(e) => match e {
                    SimpleStateError::SerializationError(_) => stored_bucket(
                        self.store(),
                        address@,
                    ) is None,
                    SimpleStateError::SdkError(_) => true,
                    _ => false,
                },
            },
    {
        let addrs = vec![address.clone()];
        let pairs = match self.context.get_state_entries(&addrs) {
            Ok(p) => p,
            Err(e) => {
                return Err(e);
            },
        };
        proof {
            assert(addrs.deep_view() =~= seq![address@]);
            assert(addrs.deep_view().drop_last() =~= Seq::<Seq<char>>::empty());
            assert(addrs.deep_view().last() == address@);
            assert(filter_present(self.store(), Seq::<Seq<char>>::empty())
                =~= Seq::<(Seq<char>, Seq<u8>)>::empty());
        }
        if pairs.is_empty() {
            proof {
                assert(pairs.deep_view().len() == 0);
                assert(!self.store().contains_key(address@));
            }
            let empty: Vec<StateEntry> = Vec::new();
            proof {
                assert(empty.deep_view() =~= Seq::<StateEntryV>::empty());
            }
            return Ok(empty);
        }
        proof {
            assert(pairs.deep_view().len() > 0);
            assert(self.store().contains_key(address@));
            assert(pairs.deep_view()[0] == (address@, self.store()[address@]));
            assert(pairs.deep_view()[0] == pairs@[0].deep_view());
            assert(pairs@[0].1.deep_view() =~= pairs@[0].1@);
            assert(self.store()[address@] == pairs@[0].1@);
        }
        let list = match StateEntryList::from_bytes(pairs[0].1.as_slice()) {
            Ok(l) => l,
            Err(e) => {
                return Err(e);
            },
        };
        Ok(clone_entries(list.entries()))
    }

    /// The given records without those filed under `nkey`.
    fn remove_entries_with_key(entries: &Vec<StateEntry>, nkey: &String) -> (r: Vec<StateEntry>)
        ensures
            r.deep_view() == bucket_remove(entries.deep_view(), nkey@),
    {
        let mut filtered: Vec<StateEntry> = Vec::new();
        let mut i: usize = 0;
        proof {
            reveal(Seq::filter);
            assert(filtered.deep_view() =~= entries.deep_view().take(0).filter(
                entry_differs(nkey@),
            ));
        }
        while i < entries.len()
            invariant
                i <= entries.len(),
                entries.deep_view().len() == entries.len(),
                filtered.deep_view() == entries.deep_view().take(i as int).filter(
                    entry_differs(nkey@),
                ),
            decreases entries.len() - i,
        {
            let ghost prefix = entries.deep_view().take(i as int);
            let ghost longer = entries.deep_view().take(i as int + 1);
            proof {
                reveal(Seq::filter);
                assert(longer.drop_last() =~= prefix);
                assert(longer.last() == entries.deep_view()[i as int]);
            }
            if !(*entries[i].normalized_key() == *nkey) {
                let e = entries[i].clone();
                proof {
                    assert(e.deep_view() == entries.deep_view()[i as int]);
                }
                filtered.push(e);
                proof {
                    reveal(Seq::filter);
                    assert(filtered.deep_view() =~= prefix.filter(entry_differs(nkey@)).push(
                        longer.last(),
                    ));
                    assert(entry_differs(nkey@)(longer.last()) == (longer.last().normalized_key
                        != nkey@));
                    assert(longer.drop_last().filter(entry_differs(nkey@)) == prefix.filter(
                        entry_differs(nkey@),
                    ));
                    assert(longer.filter(entry_differs(nkey@)) == prefix.filter(
                        entry_differs(nkey@),
                    ).push(longer.last()));
                }
            } else {
                proof {
                    reveal(Seq::filter);
                    assert(entry_differs(nkey@)(longer.last()) == (longer.last().normalized_key
                        != nkey@));
                    assert(longer.drop_last().filter(entry_differs(nkey@)) == prefix.filter(
                        entry_differs(nkey@),
                    ));
                    assert(longer.filter(entry_differs(nkey@)) == prefix.filter(
                        entry_differs(nkey@),
                    ));
                }
            }
            i += 1;
        }
        proof {
            assert(entries.deep_view().take(entries.len() as int) =~= entries.deep_view());
        }
        filtered
    }

    /// The values of the first record filed under `nkey`, if any record is.
    fn find_values(bucket: &Vec<StateEntry>, nkey: &String) -> (r: Option<Vec<StateEntryValue>>)
        ensures
            match r {
                Some(vs) => bucket_contains(bucket.deep_view(), nkey@) && vs.deep_view()
                    == bucket_get(bucket.deep_view(), nkey@),
                None => !bucket_contains(bucket.deep_view(), nkey@),
            },
    {
        let mut i: usize = 0;
        while i < bucket.len()
            invariant
                i <= bucket.len(),
                bucket.deep_view().len() == bucket.len(),
                forall|j: int|
                    0 <= j < i ==> (#[trigger] bucket.deep_view()[j]).normalized_key != nkey@,
            decreases bucket.len() - i,
        {
            if *bucket[i].normalized_key() == *nkey {
                let values = clone_values(bucket[i].state_entry_values());
                proof {
                    assert((bucket.deep_view()[i as int]).normalized_key == nkey@);
                    lemma_bucket_get_first(bucket.deep_view(), nkey@, i as int);
                }
                return Some(values);
            }
            i += 1;
        }
        None
    }

    /// Whether any record of the bucket is filed under `nkey`.
    fn bucket_has_key(bucket: &Vec<StateEntry>, nkey: &String) -> (r: bool)
        ensures
            r == bucket_contains(bucket.deep_view(), nkey@),
    {
        let mut i: usize = 0;
        while i < bucket.len()
            invariant
                i <= bucket.len(),
                bucket.deep_view().len() == bucket.len(),
                forall|j: int|
                    0 <= j < i ==> (#[trigger] bucket.deep_view()[j]).normalized_key != nkey@,
            decreases bucket.len() - i,
        {
            if *bucket[i].normalized_key() == *nkey {
                proof {
                    assert((bucket.deep_view()[i as int]).normalized_key == nkey@);
                }
                return true;
            }
            i += 1;
        }
        false
    }

    /// Creates a singular record from the provided key and values, filed
    /// under the key's normalized form.
    pub fn create_state_entry(&self, key: &K, values: Vec<StateEntryValue>) -> (r: Result<
        StateEntry,
        SimpleStateError,
    >)
        ensures
            match r {
                Ok(e) => e@ == (StateEntryV {
                    normalized_key: self.addresser.spec_normalize(key),
                    values: values.deep_view(),
                }),
                Err(_) => false,
            },
    {
        let nkey = self.addresser.normalize(key);
        match StateEntryBuilder::new().with_normalized_key(nkey).with_state_entry_values(
            values,
        ).build() {
            Ok(e) => Ok(e),
            Err(e) => Err(SimpleStateError::ProtocolBuildError(e)),
        }
    }

    /// Fetches the value mapping stored under one natural key, or `None`
    /// when no record is filed under it.
    pub fn get_state_entry(&self, key: &K) -> (r: Result<
        Option<Vec<StateEntryValue>>,
        SimpleStateError,
    >)
        ensures
            self.addresser.spec_compute(key) is None ==> r matches Err(
                SimpleStateError::AddresserError(_),
            ),
            ({
                let addr_opt = self.addresser.spec_compute(key);
                let nkey = self.addresser.spec_normalize(key);
                match r {
                    Ok(opt) => {
                        &&& addr_opt is Some
                        &&& spec_get_entry(self.store(), addr_opt->Some_0, nkey) == Ok::<
                            Option<Seq<StateEntryValueV>>,
                            (),
                        >(match opt {
                            Some(vs) => Some(vs.deep_view()),
                            None => None,
                        })
                    },
                    Err(e) => match e {
                        SimpleStateError::AddresserError(_) => addr_opt is None,
                        SimpleStateError::SerializationError(_) => addr_opt is Some
                            && spec_get_entry(self.store(), addr_opt->Some_0, nkey) is Err,
                        SimpleStateError::SdkError(_) => true,
                        _ => false,
                    },
                }
            }),
    {
        let address = match self.addresser.compute(key) {
            Ok(a) => a,
            Err(e) => {
                return Err(e);
            },
        };
        let nkey = self.addresser.normalize(key);
        let bucket = match self.fetch_bucket(&address) {
            Ok(b) => b,
            Err(e) => {
                return Err(e);
            },
        };
        Ok(Self::find_values(&bucket, &nkey))
    }

    /// Stores the given value mapping under one natural key, replacing any
    /// record already filed under the key's normalized form.
    pub fn set_state_entry(&mut self, key: &K, values: Vec<StateEntryValue>) -> (r: Result<
        (),
        SimpleStateError,
    >)
        ensures
            final (self).addresser == old(self).addresser,
            old(self).addresser.spec_compute(key) is None ==> (r matches Err(
                SimpleStateError::AddresserError(_),
            ) && final (self).store() == old(self).store()),
            ({
                let addr_opt = old(self).addresser.spec_compute(key);
                let nkey = old(self).addresser.spec_normalize(key);
                let entry = StateEntryV { normalized_key: nkey, values: values.deep_view() };
                match r {
                    Ok(_) => {
                        &&& addr_opt is Some
                        &&& spec_set_entry(old(self).store(), addr_opt->Some_0, entry) == Ok::<
                            Map<Seq<char>, Seq<u8>>,
                            (),
                        >(final (self).store())
                    },
                    Err(e) => match e {
                        SimpleStateError::AddresserError(_) => addr_opt is None && final (
                        self).store() == old(self).store(),
                        SimpleStateError::SerializationError(_) => addr_opt is Some
                            && stored_bucket(old(self).store(), addr_opt->Some_0) is None
                            && final (self).store() == old(self).store(),
                        SimpleStateError::SdkError(_) => true,
                        _ => false,
                    },
                }
            }),
    {
        let address = match self.addresser.compute(key) {
            Ok(a) => a,
            Err(e) => {
                return Err(e);
            },
        };
        let nkey = self.addresser.normalize(key);
        let bucket = match self.fetch_bucket(&address) {
            Ok(b) => b,
            Err(e) => {
                return Err(e);
            },
        };
        let mut filtered = Self::remove_entries_with_key(&bucket, &nkey);
        let entry = match self.create_state_entry(key, values) {
            Ok(e) => e,
            Err(e) => {
                return Err(e);
            },
        };
        let ghost entryv = entry@;
        filtered.push(entry);
        proof {
            assert(filtered.deep_view() =~= bucket_set(bucket.deep_view(), entryv));
        }
        let list = match StateEntryListBuilder::new().with_state_entries(filtered).build() {
            Ok(l) => l,
            Err(e) => {
                return Err(SimpleStateError::ProtocolBuildError(e));
            },
        };
        let bytes = match list.into_bytes() {
            Ok(b) => b,
            Err(e) => {
                return Err(e);
            },
        };
        let ghost addrv = address@;
        let ghost bytesv = bytes@;
        let updates = vec![(address, bytes)];
        let ghost store_before = self.store();
        match self.context.set_state_entries(updates) {
            Ok(_) => {},
            Err(e) => {
                return Err(e);
            },
        }
        proof {
            let dv = updates.deep_view();
            assert(updates@[0].1.deep_view() =~= bytesv);
            assert(dv[0] == (addrv, bytesv));
            assert(dv =~= seq![(addrv, bytesv)]);
            assert(dv.drop_last() =~= Seq::<(Seq<char>, Seq<u8>)>::empty());
            assert(dv.last() == (addrv, bytesv));
            assert(update_all(store_before, Seq::<(Seq<char>, Seq<u8>)>::empty())
                == store_before);
            assert(self.store() == store_before.insert(addrv, bytesv));
        }
        Ok(())
    }

    /// Deletes the record filed under one natural key's normalized form.
    /// Returns the normalized key when a record was present and removed,
    /// and `None` otherwise; the address itself is deleted when its last
    /// record goes.
    pub fn delete_state_entry(&mut self, key: K) -> (r: Result<Option<String>, SimpleStateError>)
        ensures
            final (self).addresser == old(self).addresser,
            old(self).addresser.spec_compute(&key) is None ==> (r matches Err(
                SimpleStateError::AddresserError(_),
            ) && final (self).store() == old(self).store()),
            ({
                let addr_opt = old(self).addresser.spec_compute(&key);
                let nkey = old(self).addresser.spec_normalize(&key);
                match r {
                    Ok(opt) => {
                        &&& addr_opt is Some
                        &&& spec_delete_entry(old(self).store(), addr_opt->Some_0, nkey) == Ok::<
                            (Map<Seq<char>, Seq<u8>>, Option<Seq<char>>),
                            (),
                        >(
                            (
                                final (self).store(),
                                match opt {
                                    Some(s) => Some(s@),
                                    None => None,
                                },
                            ),
                        )
                    },
                    Err(e) => match e {
                        SimpleStateError::AddresserError(_) => addr_opt is None && final (
                        self).store() == old(self).store(),
                        SimpleStateError::SerializationError(_) => addr_opt is Some
                            && stored_bucket(old(self).store(), addr_opt->Some_0) is None
                            && final (self).store() == old(self).store(),
                        SimpleStateError::SdkError(_) => true,
                        _ => false,
                    },
                }
            }),
    {
        let address = match self.addresser.compute(&key) {
            Ok(a) => a,
            Err(e) => {
                return Err(e);
            },
        };
        let nkey = self.addresser.normalize(&key);
        let bucket = match self.fetch_bucket(&address) {
            Ok(b) => b,
            Err(e) => {
                return Err(e);
            },
        };
        let found = Self::bucket_has_key(&bucket, &nkey);
        if !found {
            return Ok(None);
        }
        let filtered = Self::remove_entries_with_key(&bucket, &nkey);
        if filtered.is_empty() {
            let ghost store_before = self.store();
            let ghost addrv = address@;
            let delete_addrs = vec![address];
            let addr_slice = delete_addrs.as_slice();
            match self.context.delete_state_entries(addr_slice) {
                Ok(_) => {},
                Err(e) => {
                    return Err(e);
                },
            }
            proof {
                assert(filtered.deep_view().len() == 0);
                let dv = addr_slice.deep_view();
                assert(dv =~= seq![addrv]);
                assert(dv.drop_last() =~= Seq::<Seq<char>>::empty());
                assert(dv.last() == addrv);
                assert(delete_all(store_before, Seq::<Seq<char>>::empty()) == (
                store_before,
                Seq::<Seq<char>>::empty(),
                ));
                if !store_before.contains_key(addrv) {
                    assert(stored_bucket(store_before, addrv) == Some(
                        Seq::<StateEntryV>::empty(),
                    ));
                    assert(bucket.deep_view() =~= Seq::<StateEntryV>::empty());
                    assert(false);
                }
                assert(self.store() == store_before.remove(addrv));
            }
            return Ok(Some(nkey));
        }
        let list = match StateEntryListBuilder::new().with_state_entries(filtered).build() {
            Ok(l) => l,
            Err(e) => {
                return Err(SimpleStateError::ProtocolBuildError(e));
            },
        };
        let bytes = match list.into_bytes() {
            Ok(b) => b,
            Err(e) => {
                return Err(e);
            },
        };
        let ghost addrv = address@;
        let ghost bytesv = bytes@;
        let updates = vec![(address, bytes)];
        let ghost store_before = self.store();
        match self.context.set_state_entries(updates) {
            Ok(_) => {},
            Err(e) => {
                return Err(e);
            },
        }
        proof {
            let dv = updates.deep_view();
            assert(updates@[0].1.deep_view() =~= bytesv);
            assert(dv[0] == (addrv, bytesv));
            assert(dv =~= seq![(addrv, bytesv)]);
            assert(dv.drop_last() =~= Seq::<(Seq<char>, Seq<u8>)>::empty());
            assert(dv.last() == (addrv, bytesv));
            assert(update_all(store_before, Seq::<(Seq<char>, Seq<u8>)>::empty())
                == store_before);
            assert(self.store() == store_before.insert(addrv, bytesv));
        }
        Ok(Some(nkey))
    }
}


// ---------------------------------------------------------------------
// Laws of the single-key operations, stated over the mathematical model
// that their contracts use.
// ---------------------------------------------------------------------

/// What removing a key leaves in a bucket: at most as many records, none
/// of them under the removed key, and each of them a record of the
/// original bucket.
proof fn lemma_bucket_remove_props(b: Seq<StateEntryV>, k: Seq<char>)
    ensures
        bucket_remove(b, k).len() <= b.len(),
        forall|i: int|
            0 <= i < bucket_remove(b, k).len() ==> (#[trigger] bucket_remove(b, k)[i]).normalized_key
                != k,
        forall|i: int|
            0 <= i < bucket_remove(b, k).len() ==> exists|j: int|
                0 <= j < b.len() && #[trigger] bucket_remove(b, k)[i] == b[j],
    decreases b.len(),
{
    reveal(Seq::filter);
    if b.len() == 0 {
    } else {
        lemma_bucket_remove_props(b.drop_last(), k);
        let f = bucket_remove(b, k);
        let pf = bucket_remove(b.drop_last(), k);
        assert(forall|j: int| 0 <= j < b.len() - 1 ==> b.drop_last()[j] == #[trigger] b[j]);
        if entry_differs(k)(b.last()) {
            assert(f == pf.push(b.last()));
            assert forall|i: int| 0 <= i < f.len() implies exists|j: int|
                0 <= j < b.len() && #[trigger] f[i] == b[j] by {
                if i < pf.len() {
                    assert(f[i] == pf[i]);
                    let j = choose|j: int| 0 <= j < b.drop_last().len() && pf[i]
                        == b.drop_last()[j];
                    assert(f[i] == b[j]);
                } else {
                    assert(f[i] == b[b.len() - 1]);
                }
            }
        } else {
            assert(f == pf);
            assert forall|i: int| 0 <= i < f.len() implies exists|j: int|
                0 <= j < b.len() && #[trigger] f[i] == b[j] by {
                let j = choose|j: int| 0 <= j < b.drop_last().len() && pf[i] == b.drop_last()[j];
                assert(f[i] == b[j]);
            }
        }
    }
}

/// Removing a key from a bucket keeps every record encodable.
proof fn lemma_bucket_remove_encodable(b: Seq<StateEntryV>, k: Seq<char>)
    requires
        forall|i: int| 0 <= i < b.len() ==> encodable_entry(#[trigger] b[i]),
    ensures
        forall|i: int|
            0 <= i < bucket_remove(b, k).len() ==> encodable_entry(
                #[trigger] bucket_remove(b, k)[i],
            ),
{
    lemma_bucket_remove_props(b, k);
    assert forall|i: int| 0 <= i < bucket_remove(b, k).len() implies encodable_entry(
        bucket_remove(b, k)[i],
    ) by {
        let j = choose|j: int| 0 <= j < b.len() && bucket_remove(b, k)[i] == b[j];
        assert(encodable_entry(b[j]));
    }
}

/// The bucket stored at any address has encodable records and a count that
/// fits the wire format.
proof fn lemma_stored_bucket_encodable(store: Map<Seq<char>, Seq<u8>>, addr: Seq<char>)
    ensures
        stored_bucket(store, addr) matches Some(b) ==> encodable(b),
{
    if store.contains_key(addr) {
        crate::codec::lemma_decode_encodable(store[addr]);
    }
}

/// Setting a record makes its bucket contain it, as the last record, with
/// nothing else under its key.
proof fn lemma_bucket_set_props(b: Seq<StateEntryV>, e: StateEntryV)
    ensures
        bucket_contains(bucket_set(b, e), e.normalized_key),
        bucket_get(bucket_set(b, e), e.normalized_key) == e.values,
        !bucket_contains(bucket_remove(b, e.normalized_key), e.normalized_key),
{
    let k = e.normalized_key;
    let b2 = bucket_set(b, e);
    lemma_bucket_remove_props(b, k);
    assert(b2[b2.len() - 1] == e);
    assert(forall|j: int| 0 <= j < b2.len() - 1 ==> b2[j] == #[trigger] bucket_remove(b, k)[j]);
    lemma_bucket_get_first(b2, k, b2.len() - 1);
}

/// Law: a round trip through the store. Setting a record and then getting
/// its normalized key returns exactly the values that were set, on any
/// store whose bucket at that address is readable and has room for one
/// more record.
pub proof fn lemma_set_then_get(store: Map<Seq<char>, Seq<u8>>, addr: Seq<char>, e: StateEntryV)
    requires
        stored_bucket(store, addr) matches Some(b) && b.len() < u64::MAX,
        encodable_entry(e),
    ensures
        spec_set_entry(store, addr, e) matches Ok(store2) && spec_get_entry(
            store2,
            addr,
            e.normalized_key,
        ) == Ok::<Option<Seq<StateEntryValueV>>, ()>(Some(e.values)),
{
    let b = stored_bucket(store, addr)->Some_0;
    let k = e.normalized_key;
    let b2 = bucket_set(b, e);
    lemma_stored_bucket_encodable(store, addr);
    lemma_bucket_remove_props(b, k);
    lemma_bucket_remove_encodable(b, k);
    assert(forall|j: int| 0 <= j < b2.len() - 1 ==> b2[j] == #[trigger] bucket_remove(b, k)[j]);
    assert(b2[b2.len() - 1] == e);
    assert(encodable(b2));
    crate::codec::lemma_decode_encode(b2);
    let store2 = spec_set_entry(store, addr, e)->Ok_0;
    assert(stored_bucket(store2, addr) == Some(b2));
    lemma_bucket_set_props(b, e);
}

/// Law: deletes are idempotent. After a delete of one normalized key, a
/// second delete of it returns `None`, and a get of it returns `None`,
/// whatever the first delete found.
pub proof fn lemma_delete_idempotent(
    store: Map<Seq<char>, Seq<u8>>,
    addr: Seq<char>,
    nkey: Seq<char>,
)
    requires
        stored_bucket(store, addr) is Some,
    ensures
        spec_delete_entry(store, addr, nkey) matches Ok(r1) && spec_delete_entry(
            r1.0,
            addr,
            nkey,
        ) == Ok::<(Map<Seq<char>, Seq<u8>>, Option<Seq<char>>), ()>((r1.0, None::<Seq<char>>))
            && spec_get_entry(r1.0, addr, nkey) == Ok::<Option<Seq<StateEntryValueV>>, ()>(
            None::<Seq<StateEntryValueV>>,
        ),
{
    let b = stored_bucket(store, addr)->Some_0;
    lemma_stored_bucket_encodable(store, addr);
    lemma_bucket_remove_props(b, nkey);
    lemma_bucket_remove_encodable(b, nkey);
    if bucket_contains(b, nkey) {
        let filtered = bucket_remove(b, nkey);
        if filtered.len() == 0 {
            let store2 = store.remove(addr);
            assert(stored_bucket(store2, addr) == Some(Seq::<StateEntryV>::empty()));
        } else {
            assert(encodable(filtered));
            crate::codec::lemma_decode_encode(filtered);
            let store2 = store.insert(addr, spec_encode(filtered));
            assert(stored_bucket(store2, addr) == Some(filtered));
        }
    }
}

/// Law: records that collide at one address coexist. Two records under
/// different normalized keys can both be set at one address; each is then
/// independently retrievable, and deleting the first leaves the second
/// retrievable while the first is gone.
pub proof fn lemma_collision_coexistence(
    store: Map<Seq<char>, Seq<u8>>,
    addr: Seq<char>,
    e1: StateEntryV,
    e2: StateEntryV,
)
    requires
        stored_bucket(store, addr) matches Some(b) && b.len() + 2 <= u64::MAX,
        encodable_entry(e1),
        encodable_entry(e2),
        e1.normalized_key != e2.normalized_key,
    ensures
        spec_set_entry(store, addr, e1) matches Ok(s1) && spec_set_entry(s1, addr, e2) matches Ok(
            s2,
        ) && {
            &&& spec_get_entry(s2, addr, e1.normalized_key) == Ok::<
                Option<Seq<StateEntryValueV>>,
                (),
            >(Some(e1.values))
            &&& spec_get_entry(s2, addr, e2.normalized_key) == Ok::<
                Option<Seq<StateEntryValueV>>,
                (),
            >(Some(e2.values))
            &&& spec_delete_entry(s2, addr, e1.normalized_key) matches Ok(r3) && r3.1 == Some(
                e1.normalized_key,
            ) && spec_get_entry(r3.0, addr, e1.normalized_key) == Ok::<
                Option<Seq<StateEntryValueV>>,
                (),
            >(None::<Seq<StateEntryValueV>>) && spec_get_entry(r3.0, addr, e2.normalized_key)
                == Ok::<Option<Seq<StateEntryValueV>>, ()>(Some(e2.values))
        },
{
    reveal(Seq::filter);
    let b = stored_bucket(store, addr)->Some_0;
    let k1 = e1.normalized_key;
    let k2 = e2.normalized_key;
    lemma_stored_bucket_encodable(store, addr);
    lemma_bucket_remove_props(b, k1);
    lemma_bucket_remove_encodable(b, k1);
    let b1 = bucket_set(b, e1);
    assert(forall|j: int| 0 <= j < b1.len() - 1 ==> b1[j] == #[trigger] bucket_remove(b, k1)[j]);
    assert(b1[b1.len() - 1] == e1);
    assert(encodable(b1));
    crate::codec::lemma_decode_encode(b1);
    let s1 = store.insert(addr, spec_encode(b1));
    assert(stored_bucket(s1, addr) == Some(b1));
    lemma_bucket_remove_props(b1, k2);
    lemma_bucket_remove_encodable(b1, k2);
    let b2 = bucket_set(b1, e2);
    assert(forall|j: int| 0 <= j < b2.len() - 1 ==> b2[j] == #[trigger] bucket_remove(b1, k2)[j]);
    assert(b2[b2.len() - 1] == e2);
    assert(encodable(b2));
    crate::codec::lemma_decode_encode(b2);
    let s2 = s1.insert(addr, spec_encode(b2));
    assert(stored_bucket(s2, addr) == Some(b2));
    // e2 is retrievable: it stands last, above records that are not under
    // its key.
    lemma_bucket_set_props(b1, e2);
    // e1 is retrievable: it survives the removal that set e2, and nothing
    // below it is under its key.
    let keep1 = bucket_remove(b1, k2);
    assert(keep1 == bucket_remove(b1.drop_last(), k2).push(e1)) by {
        assert(b1.drop_last() =~= bucket_remove(b, k1));
        assert(b1.last() == e1);
        assert(entry_differs(k2)(e1));
    }
    let i1 = keep1.len() - 1;
    assert(keep1[i1] == e1);
    lemma_bucket_remove_props(b1.drop_last(), k2);
    assert forall|j: int| 0 <= j < i1 implies (#[trigger] b2[j]).normalized_key != k1 by {
        assert(b2[j] == keep1[j]);
        assert(keep1[j] == bucket_remove(b1.drop_last(), k2)[j]);
        let m = choose|m: int|
            0 <= m < b1.drop_last().len() && bucket_remove(b1.drop_last(), k2)[j]
                == b1.drop_last()[m];
        assert(b1.drop_last()[m] == bucket_remove(b, k1)[m]);
    }
    assert(b2[i1] == e1);
    lemma_bucket_get_first(b2, k1, i1);
    assert(bucket_contains(b2, k1));
    assert(spec_get_entry(s2, addr, k1) == Ok::<Option<Seq<StateEntryValueV>>, ()>(
        Some(e1.values),
    ));
    // Deleting e1 leaves exactly the records not under its key, e2 last
    // among them.
    lemma_bucket_remove_props(b2, k1);
    lemma_bucket_remove_encodable(b2, k1);
    let b3 = bucket_remove(b2, k1);
    assert(b3 == bucket_remove(b2.drop_last(), k1).push(e2)) by {
        assert(b2.drop_last() =~= keep1);
        assert(b2.last() == e2);
        assert(entry_differs(k1)(e2));
    }
    assert(b3.len() > 0);
    assert(encodable(b3));
    crate::codec::lemma_decode_encode(b3);
    let s3 = s2.insert(addr, spec_encode(b3));
    assert(spec_delete_entry(s2, addr, k1) == Ok::<
        (Map<Seq<char>, Seq<u8>>, Option<Seq<char>>),
        (),
    >((s3, Some(k1))));
    assert(stored_bucket(s3, addr) == Some(b3));
    assert(!bucket_contains(b3, k1));
    let i2 = b3.len() - 1;
    assert(b3[i2] == e2);
    assert forall|j: int| 0 <= j < i2 implies (#[trigger] b3[j]).normalized_key != k2 by {
        assert(b3[j] == bucket_remove(b2.drop_last(), k1)[j]);
        lemma_bucket_remove_props(b2.drop_last(), k1);
        let m = choose|m: int|
            0 <= m < b2.drop_last().len() && bucket_remove(b2.drop_last(), k1)[j]
                == b2.drop_last()[m];
        assert(b2.drop_last()[m] == keep1[m]);
        lemma_bucket_remove_props(b1, k2);
    }
    lemma_bucket_get_first(b3, k2, i2);
}



// ---------------------------------------------------------------------
// The batch operations' mathematical model. Keys are grouped by the
// address they map to; each distinct address is read once, its bucket is
// brought up to date in memory against every operation aimed at it, and
// each address is written (or deleted) once.
// ---------------------------------------------------------------------

/// One write of a batch set: a record bound for an address.
pub struct SetOpV {
    pub addr: Seq<char>,
    pub entry: StateEntryV,
}

/// One key of a batch get or delete: a normalized key at an address.
pub struct KeyOpV {
    pub addr: Seq<char>,
    pub nkey: Seq<char>,
}

/// The addresses a batch of set operations is aimed at, in order.
pub open spec fn set_op_addrs(ops: Seq<SetOpV>) -> Seq<Seq<char>> {
    Seq::new(ops.len(), |i: int| ops[i].addr)
}

/// The addresses a batch of keyed operations is aimed at, in order.
pub open spec fn key_op_addrs(ops: Seq<KeyOpV>) -> Seq<Seq<char>> {
    Seq::new(ops.len(), |i: int| ops[i].addr)
}

/// The records of a batch of set operations aimed at one address, in order.
pub open spec fn set_entries_at(ops: Seq<SetOpV>, a: Seq<char>) -> Seq<StateEntryV>
    decreases ops.len(),
{
    if ops.len() == 0 {
        Seq::empty()
    } else {
        let init = set_entries_at(ops.drop_last(), a);
        if ops.last().addr == a {
            init.push(ops.last().entry)
        } else {
            init
        }
    }
}

/// The normalized keys of a batch of keyed operations aimed at one
/// address, in order.
pub open spec fn nkeys_at(ops: Seq<KeyOpV>, a: Seq<char>) -> Seq<Seq<char>>
    decreases ops.len(),
{
    if ops.len() == 0 {
        Seq::empty()
    } else {
        let init = nkeys_at(ops.drop_last(), a);
        if ops.last().addr == a {
            init.push(ops.last().nkey)
        } else {
            init
        }
    }
}

/// A bucket after a run of records is set into it, in order.
pub open spec fn apply_set_ops(b: Seq<StateEntryV>, es: Seq<StateEntryV>) -> Seq<StateEntryV>
    decreases es.len(),
{
    if es.len() == 0 {
        b
    } else {
        bucket_set(apply_set_ops(b, es.drop_last()), es.last())
    }
}

/// A bucket after a run of normalized keys is deleted from it, in order,
/// paired with the keys whose records were actually present and removed.
pub open spec fn apply_delete_ops(b: Seq<StateEntryV>, nkeys: Seq<Seq<char>>) -> (
    Seq<StateEntryV>,
    Seq<Seq<char>>,
)
    decreases nkeys.len(),
{
    if nkeys.len() == 0 {
        (b, Seq::empty())
    } else {
        let (b1, d1) = apply_delete_ops(b, nkeys.drop_last());
        if bucket_contains(b1, nkeys.last()) {
            (bucket_remove(b1, nkeys.last()), d1.push(nkeys.last()))
        } else {
            (b1, d1)
        }
    }
}

/// Keeping exactly the keys some record of `b` is filed under.
pub open spec fn contained_in(b: Seq<StateEntryV>) -> spec_fn(Seq<char>) -> bool {
    |k: Seq<char>| bucket_contains(b, k)
}

/// Removing one key leaves every other key's presence unchanged.
proof fn lemma_bucket_remove_other(b: Seq<StateEntryV>, removed: Seq<char>, k: Seq<char>)
    requires
        k != removed,
    ensures
        bucket_contains(bucket_remove(b, removed), k) == bucket_contains(b, k),
    decreases b.len(),
{
    reveal(Seq::filter);
    if b.len() == 0 {
        assert(bucket_remove(b, removed) =~= b);
    } else {
        lemma_bucket_remove_other(b.drop_last(), removed, k);
        assert(forall|i: int| 0 <= i < b.len() - 1 ==> b.drop_last()[i] == #[trigger] b[i]);
        let f = bucket_remove(b, removed);
        let pf = bucket_remove(b.drop_last(), removed);
        assert(bucket_contains(b, k) == (bucket_contains(b.drop_last(), k)
            || b.last().normalized_key == k)) by {
            if bucket_contains(b, k) {
                let i = choose|i: int|
                    0 <= i < b.len() && (#[trigger] b[i]).normalized_key == k;
                if i < b.len() - 1 {
                    assert(b.drop_last()[i].normalized_key == k);
                }
            }
            if bucket_contains(b.drop_last(), k) {
                let i = choose|i: int|
                    0 <= i < b.drop_last().len() && (#[trigger] b.drop_last()[i]).normalized_key
                        == k;
                assert(b[i].normalized_key == k);
            }
            if b.last().normalized_key == k {
                assert(b[b.len() - 1].normalized_key == k);
            }
        }
        if entry_differs(removed)(b.last()) {
            assert(f == pf.push(b.last()));
            assert(bucket_contains(f, k) == (bucket_contains(pf, k) || b.last().normalized_key
                == k)) by {
                if bucket_contains(f, k) {
                    let i = choose|i: int|
                        0 <= i < f.len() && (#[trigger] f[i]).normalized_key == k;
                    if i < pf.len() {
                        assert(pf[i].normalized_key == k);
                    }
                }
                if bucket_contains(pf, k) {
                    let i = choose|i: int|
                        0 <= i < pf.len() && (#[trigger] pf[i]).normalized_key == k;
                    assert(f[i].normalized_key == k);
                }
                if b.last().normalized_key == k {
                    assert(f[f.len() - 1].normalized_key == k);
                }
            }
        } else {
            assert(f == pf);
            assert(b.last().normalized_key != k);
        }
    }
}

/// Law: deleting a run of pairwise-distinct normalized keys from one bucket
/// removes exactly those among them that had a record, reports each once in
/// the order requested, and leaves every key outside the run as it was.
pub proof fn lemma_apply_delete_distinct(b: Seq<StateEntryV>, nkeys: Seq<Seq<char>>)
    requires
        forall|i: int, j: int| 0 <= i < j < nkeys.len() ==> nkeys[i] != nkeys[j],
    ensures
        apply_delete_ops(b, nkeys).1 == nkeys.filter(contained_in(b)),
        forall|k: Seq<char>|
            !nkeys.contains(k) ==> bucket_contains(apply_delete_ops(b, nkeys).0, k)
                == bucket_contains(b, k),
    decreases nkeys.len(),
{
    reveal(Seq::filter);
    if nkeys.len() == 0 {
        assert(apply_delete_ops(b, nkeys).1 =~= nkeys.filter(contained_in(b)));
    } else {
        let init = nkeys.drop_last();
        let last = nkeys.last();
        assert(forall|i: int| 0 <= i < nkeys.len() - 1 ==> init[i] == #[trigger] nkeys[i]);
        lemma_apply_delete_distinct(b, init);
        let (b1, d1) = apply_delete_ops(b, init);
        assert(!init.contains(last)) by {
            if init.contains(last) {
                let i = choose|i: int| 0 <= i < init.len() && init[i] == last;
                assert(nkeys[i] == nkeys[nkeys.len() - 1]);
            }
        }
        assert(bucket_contains(b1, last) == bucket_contains(b, last));
        assert(contained_in(b)(last) == bucket_contains(b, last));
        assert(nkeys.filter(contained_in(b)) == if contained_in(b)(last) {
            init.filter(contained_in(b)).push(last)
        } else {
            init.filter(contained_in(b))
        });
        if bucket_contains(b, last) {
            assert(apply_delete_ops(b, nkeys).1 == d1.push(last));
        } else {
            assert(apply_delete_ops(b, nkeys).1 == d1);
        }
        assert forall|k: Seq<char>| !nkeys.contains(k) implies bucket_contains(
            apply_delete_ops(b, nkeys).0,
            k,
        ) == bucket_contains(b, k) by {
            assert(!init.contains(k)) by {
                if init.contains(k) {
                    let i = choose|i: int| 0 <= i < init.len() && init[i] == k;
                    assert(nkeys[i] == k);
                    assert(nkeys.contains(k));
                }
            }
            assert(k != last) by {
                if k == last {
                    assert(nkeys[nkeys.len() - 1] == k);
                    assert(nkeys.contains(k));
                }
            }
            if bucket_contains(b1, last) {
                lemma_bucket_remove_other(b1, last, k);
            }
        }
    }
}

/// The distinct addresses of a batch, each at its first occurrence.
pub open spec fn spec_distinct(s: Seq<Seq<char>>) -> Seq<Seq<char>>
    decreases s.len(),
{
    if s.len() == 0 {
        Seq::empty()
    } else {
        let init = spec_distinct(s.drop_last());
        if init.contains(s.last()) {
            init
        } else {
            init.push(s.last())
        }
    }
}

/// The distinct addresses are exactly the addresses of the batch.
proof fn lemma_distinct_elements(s: Seq<Seq<char>>)
    ensures
        forall|x: Seq<char>| spec_distinct(s).contains(x) <==> s.contains(x),
    decreases s.len(),
{
    if s.len() > 0 {
        lemma_distinct_elements(s.drop_last());
        assert(forall|j: int| 0 <= j < s.len() - 1 ==> s.drop_last()[j] == #[trigger] s[j]);
        assert(s.last() == s[s.len() - 1]);
        let init = spec_distinct(s.drop_last());
        assert forall|x: Seq<char>| s.contains(x) implies spec_distinct(s).contains(x) by {
            let j = choose|j: int| 0 <= j < s.len() && s[j] == x;
            if j < s.len() - 1 {
                assert(s.drop_last()[j] == x);
                assert(s.drop_last().contains(x));
                assert(init.contains(x));
                if !init.contains(s.last()) {
                    let m = choose|m: int| 0 <= m < init.len() && init[m] == x;
                    assert(init.push(s.last())[m] == x);
                }
            } else {
                if init.contains(s.last()) {
                } else {
                    assert(init.push(s.last()).last() == x);
                }
            }
        }
        assert forall|x: Seq<char>| spec_distinct(s).contains(x) implies s.contains(x) by {
            let m = choose|m: int|
                0 <= m < spec_distinct(s).len() && spec_distinct(s)[m] == x;
            if init.contains(s.last()) {
                assert(s.drop_last().contains(x));
                let j = choose|j: int| 0 <= j < s.drop_last().len() && s.drop_last()[j] == x;
                assert(s[j] == x);
            } else {
                if m < init.len() {
                    assert(init[m] == x);
                    assert(s.drop_last().contains(x));
                    let j = choose|j: int| 0 <= j < s.drop_last().len() && s.drop_last()[j] == x;
                    assert(s[j] == x);
                } else {
                    assert(x == s.last());
                }
            }
        }
    }
}

/// Every bucket a batch touches is readable out of the store.
pub open spec fn all_readable(store: Map<Seq<char>, Seq<u8>>, addrs: Seq<Seq<char>>) -> bool {
    forall|i: int| 0 <= i < addrs.len() ==> stored_bucket(store, #[trigger] addrs[i]) is Some
}

/// The pairs a fetch of the addresses of `addrs` holds for one address.
proof fn lemma_filter_present_lookup(
    store: Map<Seq<char>, Seq<u8>>,
    addrs: Seq<Seq<char>>,
    a: Seq<char>,
)
    requires
        addrs.contains(a),
    ensures
        store.contains_key(a) ==> exists|i: int|
            0 <= i < filter_present(store, addrs).len() && (#[trigger] filter_present(
                store,
                addrs,
            )[i]).0 == a,
        forall|i: int|
            0 <= i < filter_present(store, addrs).len() && (#[trigger] filter_present(
                store,
                addrs,
            )[i]).0 == a ==> store.contains_key(a) && filter_present(store, addrs)[i].1
                == store[a],
    decreases addrs.len(),
{
    if addrs.len() > 0 {
        let fp = filter_present(store, addrs);
        let pf = filter_present(store, addrs.drop_last());
        assert(forall|j: int|
            0 <= j < addrs.len() - 1 ==> addrs.drop_last()[j] == #[trigger] addrs[j]);
        if addrs.drop_last().contains(a) {
            lemma_filter_present_lookup(store, addrs.drop_last(), a);
            if store.contains_key(a) {
                let i = choose|i: int| 0 <= i < pf.len() && (#[trigger] pf[i]).0 == a;
                assert(fp[i] == pf[i]);
            }
        } else {
            assert(a == addrs.last());
            assert forall|i: int|
                0 <= i < pf.len() implies (#[trigger] pf[i]).0 != a by {
                lemma_filter_present_members(store, addrs.drop_last(), i);
            }
            if store.contains_key(a) {
                assert(fp[fp.len() - 1] == (a, store[a]));
            }
        }
    }
}

/// Each fetched pair carries an address that was asked for.
proof fn lemma_filter_present_members(
    store: Map<Seq<char>, Seq<u8>>,
    addrs: Seq<Seq<char>>,
    i: int,
)
    requires
        0 <= i < filter_present(store, addrs).len(),
    ensures
        addrs.contains(filter_present(store, addrs)[i].0),
    decreases addrs.len(),
{
    if addrs.len() > 0 {
        let fp = filter_present(store, addrs);
        let pf = filter_present(store, addrs.drop_last());
        assert(forall|j: int|
            0 <= j < addrs.len() - 1 ==> addrs.drop_last()[j] == #[trigger] addrs[j]);
        if i < pf.len() {
            lemma_filter_present_members(store, addrs.drop_last(), i);
            let j = choose|j: int| 0 <= j < addrs.drop_last().len() && addrs.drop_last()[j]
                == pf[i].0;
            assert(addrs[j] == fp[i].0);
        } else {
            assert(fp[i].0 == addrs.last());
            assert(addrs[addrs.len() - 1] == addrs.last());
        }
    }
}

/// Whether the given vector holds the given string.
fn contains_string(v: &Vec<String>, s: &String) -> (r: bool)
    ensures
        r == v.deep_view().contains(s@),
{
    let mut i: usize = 0;
    while i < v.len()
        invariant
            i <= v.len(),
            v.deep_view().len() == v.len(),
            forall|j: int| 0 <= j < i ==> v.deep_view()[j] != s@,
        decreases v.len() - i,
    {
        if v[i] == *s {
            proof {
                assert(v.deep_view()[i as int] == s@);
            }
            return true;
        }
        i += 1;
    }
    proof {
        if v.deep_view().contains(s@) {
            let j = choose|j: int| 0 <= j < v.deep_view().len() && v.deep_view()[j] == s@;
        }
    }
    false
}



/// The batch updates a set writes: for each address, in order, the bucket
/// there brought up to date against every record aimed at it.
pub open spec fn batch_set_updates(
    store: Map<Seq<char>, Seq<u8>>,
    ops: Seq<SetOpV>,
    addrs: Seq<Seq<char>>,
) -> Seq<(Seq<char>, Seq<u8>)>
    decreases addrs.len(),
{
    if addrs.len() == 0 {
        Seq::empty()
    } else {
        batch_set_updates(store, ops, addrs.drop_last()).push(
            (
                addrs.last(),
                spec_encode(
                    apply_set_ops(
                        stored_bucket(store, addrs.last())->Some_0,
                        set_entries_at(ops, addrs.last()),
                    ),
                ),
            ),
        )
    }
}

impl<A: Addresser<K>, K, C: TransactionContext> KeyValueTransactionContext<A, K, C> {
    /// Whether every key of a batch of writes has an address.
    pub open spec fn computable_set(&self, entries: Seq<(&K, Vec<StateEntryValue>)>) -> bool {
        forall|i: int|
            0 <= i < entries.len() ==> self.addresser.spec_compute(
                #[trigger] entries[i].0,
            ) is Some
    }

    /// The writes a batch of entries stands for: each key's address and the
    /// record to file under its normalized key.
    pub open spec fn set_ops_of(&self, entries: Seq<(&K, Vec<StateEntryValue>)>) -> Seq<SetOpV> {
        Seq::new(
            entries.len(),
            |i: int|
                SetOpV {
                    addr: self.addresser.spec_compute(entries[i].0)->Some_0,
                    entry: StateEntryV {
                        normalized_key: self.addresser.spec_normalize(entries[i].0),
                        values: entries[i].1.deep_view(),
                    },
                },
        )
    }

    /// The bucket at one address, out of the pairs one raw fetch returned.
    fn bucket_from_pairs(
        pairs: &Vec<(String, Vec<u8>)>,
        addr: &String,
        Ghost(store): Ghost<Map<Seq<char>, Seq<u8>>>,
        Ghost(requested): Ghost<Seq<Seq<char>>>,
    ) -> (r: Result<Vec<StateEntry>, SimpleStateError>)
        requires
            pairs.deep_view() == filter_present(store, requested),
            requested.contains(addr@),
        ensures
            match r {
                Ok(es) => stored_bucket(store, addr@) == Some(es.deep_view()),
                Err(e) => {
                    &&& e matches SimpleStateError::SerializationError(_)
                    &&& stored_bucket(store, addr@) is None
                },
            },
    {
        let mut i: usize = 0;
        while i < pairs.len()
            invariant
                i <= pairs.len(),
                pairs.deep_view().len() == pairs.len(),
                pairs.deep_view() == filter_present(store, requested),
                requested.contains(addr@),
                forall|j: int| 0 <= j < i ==> (#[trigger] pairs.deep_view()[j]).0 != addr@,
            decreases pairs.len() - i,
        {
            if pairs[i].0 == *addr {
                proof {
                    lemma_filter_present_lookup(store, requested, addr@);
                    assert(pairs.deep_view()[i as int] == pairs@[i as int].deep_view());
                    assert((pairs.deep_view()[i as int]).0 == addr@);
                    assert(pairs@[i as int].1.deep_view() =~= pairs@[i as int].1@);
                    assert(store[addr@] == pairs@[i as int].1@);
                }
                let list = match StateEntryList::from_bytes(pairs[i].1.as_slice()) {
                    Ok(l) => l,
                    Err(e) => {
                        return Err(e);
                    },
                };
                return Ok(clone_entries(list.entries()));
            }
            proof {
                assert(pairs.deep_view()[i as int] == pairs@[i as int].deep_view());
            }
            i += 1;
        }
        proof {
            lemma_filter_present_lookup(store, requested, addr@);
            if store.contains_key(addr@) {
                let j = choose|j: int|
                    0 <= j < pairs.deep_view().len() && (#[trigger] pairs.deep_view()[j]).0
                        == addr@;
                assert(false);
            }
        }
        let empty: Vec<StateEntry> = Vec::new();
        proof {
            assert(empty.deep_view() =~= Seq::<StateEntryV>::empty());
        }
        Ok(empty)
    }

    /// Stores every given value mapping under its natural key. Keys are
    /// grouped by the address they map to: each distinct address is read
    /// once, every record bound for it is merged into its bucket in memory,
    /// and each address is written once.
    #[verifier::rlimit(50)]
    pub fn set_state_entries(&mut self, entries: Vec<(&K, Vec<StateEntryValue>)>) -> (r: Result<
        (),
        SimpleStateError,
    >)
        ensures
            final (self).addresser == old(self).addresser,
            !old(self).computable_set(entries@) ==> (r matches Err(
                SimpleStateError::AddresserError(_),
            ) && final (self).store() == old(self).store()),
            ({
                let ops = old(self).set_ops_of(entries@);
                let da = spec_distinct(set_op_addrs(ops));
                match r {
                    Ok(_) => {
                        &&& old(self).computable_set(entries@)
                        &&& all_readable(old(self).store(), da)
                        &&& final (self).store() == update_all(
                            old(self).store(),
                            batch_set_updates(old(self).store(), ops, da),
                        )
                    },
                    Err(e) => match e {
                        SimpleStateError::AddresserError(_) => !old(self).computable_set(entries@)
                            && final (self).store() == old(self).store(),
                        SimpleStateError::SerializationError(_) => !all_readable(
                            old(self).store(),
                            da,
                        ) && final (self).store() == old(self).store(),
                        SimpleStateError::SdkError(_) => true,
                        _ => false,
                    },
                }
            }),
    {
        let ghost opsv = old(self).set_ops_of(entries@);
        let mut ops: Vec<(String, StateEntry)> = Vec::new();
        let mut i: usize = 0;
        while i < entries.len()
            invariant
                i <= entries.len(),
                entries@.len() == entries.len(),
                *self == *old(self),
                opsv == old(self).set_ops_of(entries@),
                opsv.len() == entries@.len(),
                ops@.len() == i,
                forall|j: int|
                    0 <= j < i ==> old(self).addresser.spec_compute(
                        #[trigger] entries@[j].0,
                    ) is Some,
                forall|j: int|
                    0 <= j < i ==> (#[trigger] ops@[j]).0@ == opsv[j].addr && ops@[j].1@
                        == opsv[j].entry,
            decreases entries.len() - i,
        {
            let addr = match self.addresser.compute(entries[i].0) {
                Ok(a) => a,
                Err(e) => {
                    proof {
                        assert(old(self).addresser.spec_compute(entries@[i as int].0) is None);
                    }
                    return Err(e);
                },
            };
            let record = match self.create_state_entry(entries[i].0, clone_values(&entries[i].1)) {
                Ok(e) => e,
                Err(e) => {
                    return Err(e);
                },
            };
            proof {
                assert(record@ == opsv[i as int].entry);
            }
            ops.push((addr, record));
            i += 1;
        }
        proof {
            assert(old(self).computable_set(entries@));
        }
        let mut distinct: Vec<String> = Vec::new();
        let mut j: usize = 0;
        proof {
            assert(distinct.deep_view() =~= spec_distinct(set_op_addrs(opsv).take(0)));
        }
        while j < ops.len()
            invariant
                j <= ops.len(),
                ops@.len() == set_op_addrs(opsv).len(),
                forall|m: int|
                    0 <= m < ops@.len() ==> (#[trigger] ops@[m]).0@ == opsv[m].addr && ops@[m].1@
                        == opsv[m].entry,
                distinct.deep_view() == spec_distinct(set_op_addrs(opsv).take(j as int)),
            decreases ops.len() - j,
        {
            let ghost prefix = set_op_addrs(opsv).take(j as int);
            let ghost longer = set_op_addrs(opsv).take(j as int + 1);
            proof {
                assert(longer.drop_last() =~= prefix);
                assert(longer.last() == opsv[j as int].addr);
            }
            if !contains_string(&distinct, &ops[j].0) {
                distinct.push(ops[j].0.clone());
                proof {
                    assert(distinct.deep_view() =~= spec_distinct(prefix).push(longer.last()));
                }
            }
            j += 1;
        }
        let ghost da = spec_distinct(set_op_addrs(opsv));
        proof {
            assert(set_op_addrs(opsv).take(set_op_addrs(opsv).len() as int)
                =~= set_op_addrs(opsv));
            assert(distinct.deep_view() == da);
        }
        let pairs = match self.context.get_state_entries(&distinct) {
            Ok(p) => p,
            Err(e) => {
                return Err(e);
            },
        };
        let mut updates: Vec<(String, Vec<u8>)> = Vec::new();
        let mut d: usize = 0;
        proof {
            assert(updates.deep_view() =~= batch_set_updates(old(self).store(), opsv, da.take(0)));
        }
        while d < distinct.len()
            invariant
                d <= distinct.len(),
                *self == *old(self),
                old(self).computable_set(entries@),
                opsv == old(self).set_ops_of(entries@),
                distinct.deep_view().len() == distinct.len(),
                distinct.deep_view() == da,
                da == spec_distinct(set_op_addrs(opsv)),
                pairs.deep_view() == filter_present(old(self).store(), da),
                ops@.len() == set_op_addrs(opsv).len(),
                opsv.len() == set_op_addrs(opsv).len(),
                forall|m: int|
                    0 <= m < ops@.len() ==> (#[trigger] ops@[m]).0@ == opsv[m].addr && ops@[m].1@
                        == opsv[m].entry,
                forall|m: int|
                    0 <= m < d ==> stored_bucket(old(self).store(), #[trigger] da[m]) is Some,
                updates.deep_view() == batch_set_updates(old(self).store(), opsv, da.take(d as int)),
            decreases distinct.len() - d,
        {
            let addr = &distinct[d];
            proof {
                assert(addr@ == da[d as int]);
            }
            let bucket = match Self::bucket_from_pairs(
                &pairs,
                addr,
                Ghost(old(self).store()),
                Ghost(da),
            ) {
                Ok(b) => b,
                Err(e) => {
                    proof {
                        assert(stored_bucket(old(self).store(), da[d as int]) is None);
                        assert(!all_readable(old(self).store(), da));
                    }
                    return Err(e);
                },
            };
            let ghost bucket0 = bucket.deep_view();
            let mut b = bucket;
            let mut t: usize = 0;
            proof {
                assert(set_entries_at(opsv.take(0), addr@) =~= Seq::<StateEntryV>::empty());
                assert(b.deep_view() == apply_set_ops(bucket0, set_entries_at(opsv.take(0), addr@)));
            }
            while t < ops.len()
                invariant
                    t <= ops.len(),
                    ops@.len() == opsv.len(),
                    forall|m: int|
                        0 <= m < ops@.len() ==> (#[trigger] ops@[m]).0@ == opsv[m].addr
                            && ops@[m].1@ == opsv[m].entry,
                    b.deep_view() == apply_set_ops(
                        bucket0,
                        set_entries_at(opsv.take(t as int), addr@),
                    ),
                decreases ops.len() - t,
            {
                let ghost sprefix = opsv.take(t as int);
                let ghost slonger = opsv.take(t as int + 1);
                proof {
                    assert(slonger.drop_last() =~= sprefix);
                    assert(slonger.last() == opsv[t as int]);
                }
                if ops[t].0 == *addr {
                    let mut filtered = Self::remove_entries_with_key(&b, ops[t].1.normalized_key());
                    let record = ops[t].1.clone();
                    proof {
                        assert(record@ == opsv[t as int].entry);
                    }
                    filtered.push(record);
                    proof {
                        assert(filtered.deep_view() =~= bucket_set(b.deep_view(), opsv[t as int].entry));
                        assert(set_entries_at(slonger, addr@) == set_entries_at(sprefix, addr@).push(
                            opsv[t as int].entry,
                        ));
                        let grown = set_entries_at(sprefix, addr@).push(opsv[t as int].entry);
                        assert(grown.drop_last() =~= set_entries_at(sprefix, addr@));
                        assert(grown.last() == opsv[t as int].entry);
                        assert(apply_set_ops(bucket0, grown) == bucket_set(
                            apply_set_ops(bucket0, set_entries_at(sprefix, addr@)),
                            opsv[t as int].entry,
                        ));
                    }
                    b = filtered;
                } else {
                    proof {
                        assert(set_entries_at(slonger, addr@) == set_entries_at(sprefix, addr@));
                    }
                }
                t += 1;
            }
            proof {
                assert(opsv.take(opsv.len() as int) =~= opsv);
            }
            let list = match StateEntryListBuilder::new().with_state_entries(b).build() {
                Ok(l) => l,
                Err(e) => {
                    return Err(SimpleStateError::ProtocolBuildError(e));
                },
            };
            let bytes = match list.into_bytes() {
                Ok(bs) => bs,
                Err(e) => {
                    return Err(e);
                },
            };
            let ghost bytesv = bytes@;
            let ghost dprefix = da.take(d as int);
            let ghost dlonger = da.take(d as int + 1);
            updates.push((addr.clone(), bytes));
            proof {
                assert(dlonger.drop_last() =~= dprefix);
                assert(dlonger.last() == da[d as int]);
                assert(updates@[updates@.len() - 1].deep_view() == (addr@, bytesv));
                assert(updates.deep_view() =~= batch_set_updates(old(self).store(), opsv, dprefix)
                    .push((addr@, bytesv)));
            }
            d += 1;
        }
        proof {
            assert(da.take(distinct.len() as int) =~= da);
        }
        let ghost store_before = self.store();
        let ghost updatesv = updates.deep_view();
        match self.context.set_state_entries(updates) {
            Ok(_) => {},
            Err(e) => {
                return Err(e);
            },
        }
        proof {
            assert(self.store() == update_all(store_before, updatesv));
        }
        Ok(())
    }
}



/// Whether a batch get's accumulated result already holds a normalized key.
pub open spec fn result_contains_key(
    acc: Seq<(Seq<char>, Seq<StateEntryValueV>)>,
    k: Seq<char>,
) -> bool {
    exists|i: int| 0 <= i < acc.len() && (#[trigger] acc[i]).0 == k
}

/// What a batch get returns: for each key in order, the values of its
/// record when one is filed under its normalized key at its address, each
/// normalized key reported once.
pub open spec fn spec_collect(store: Map<Seq<char>, Seq<u8>>, ops: Seq<KeyOpV>) -> Seq<
    (Seq<char>, Seq<StateEntryValueV>),
>
    decreases ops.len(),
{
    if ops.len() == 0 {
        Seq::empty()
    } else {
        let acc = spec_collect(store, ops.drop_last());
        let op = ops.last();
        let b = stored_bucket(store, op.addr)->Some_0;
        if bucket_contains(b, op.nkey) && !result_contains_key(acc, op.nkey) {
            acc.push((op.nkey, bucket_get(b, op.nkey)))
        } else {
            acc
        }
    }
}

impl<A: Addresser<K>, K, C: TransactionContext> KeyValueTransactionContext<A, K, C> {
    /// Whether every key of a batch has an address.
    pub open spec fn computable_keys(&self, keys: Seq<&K>) -> bool {
        forall|i: int|
            0 <= i < keys.len() ==> self.addresser.spec_compute(#[trigger] keys[i]) is Some
    }

    /// The keyed operations a batch of natural keys stands for.
    pub open spec fn key_ops_of(&self, keys: Seq<&K>) -> Seq<KeyOpV> {
        Seq::new(
            keys.len(),
            |i: int|
                KeyOpV {
                    addr: self.addresser.spec_compute(keys[i])->Some_0,
                    nkey: self.addresser.spec_normalize(keys[i]),
                },
        )
    }

    /// Whether the accumulated result already reports a normalized key.
    fn out_contains_key(out: &Vec<(String, Vec<StateEntryValue>)>, k: &String) -> (r: bool)
        ensures
            r == result_contains_key(out.deep_view(), k@),
    {
        let mut i: usize = 0;
        while i < out.len()
            invariant
                i <= out.len(),
                out.deep_view().len() == out.len(),
                forall|j: int| 0 <= j < i ==> (#[trigger] out.deep_view()[j]).0 != k@,
            decreases out.len() - i,
        {
            if out[i].0 == *k {
                proof {
                    assert((out.deep_view()[i as int]).0 == k@);
                }
                return true;
            }
            proof {
                assert(out.deep_view()[i as int] == out@[i as int].deep_view());
            }
            i += 1;
        }
        false
    }

    /// Fetches the value mappings stored under the given natural keys,
    /// keyed by normalized key. Keys are grouped by the address they map
    /// to, and each distinct address is read once; a key with no record
    /// under it is omitted.
    #[verifier::rlimit(50)]
    pub fn get_state_entries(&self, keys: Vec<&K>) -> (r: Result<
        Vec<(String, Vec<StateEntryValue>)>,
        SimpleStateError,
    >)
        ensures
            !self.computable_keys(keys@) ==> r matches Err(SimpleStateError::AddresserError(_)),
            ({
                let ops = self.key_ops_of(keys@);
                let da = spec_distinct(key_op_addrs(ops));
                match r {
                    Ok(out) => {
                        &&& self.computable_keys(keys@)
                        &&& all_readable(self.store(), da)
                        &&& out.deep_view() == spec_collect(self.store(), ops)
                    },
                    Err(e) => match e {
                        SimpleStateError::AddresserError(_) => !self.computable_keys(keys@),
                        SimpleStateError::SerializationError(_) => !all_readable(
                            self.store(),
                            da,
                        ),
                        SimpleStateError::SdkError(_) => true,
                        _ => false,
                    },
                }
            }),
    {
        let ghost opsv = self.key_ops_of(keys@);
        let mut kops: Vec<(String, String)> = Vec::new();
        let mut i: usize = 0;
        while i < keys.len()
            invariant
                i <= keys.len(),
                keys@.len() == keys.len(),
                opsv == self.key_ops_of(keys@),
                opsv.len() == keys@.len(),
                kops@.len() == i,
                forall|j: int|
                    0 <= j < i ==> self.addresser.spec_compute(#[trigger] keys@[j]) is Some,
                forall|j: int|
                    0 <= j < i ==> (#[trigger] kops@[j]).0@ == opsv[j].addr && kops@[j].1@
                        == opsv[j].nkey,
            decreases keys.len() - i,
        {
            let addr = match self.addresser.compute(keys[i]) {
                Ok(a) => a,
                Err(e) => {
                    proof {
                        assert(self.addresser.spec_compute(keys@[i as int]) is None);
                    }
                    return Err(e);
                },
            };
            let nkey = self.addresser.normalize(keys[i]);
            kops.push((addr, nkey));
            i += 1;
        }
        proof {
            assert(self.computable_keys(keys@));
        }
        let mut distinct: Vec<String> = Vec::new();
        let mut j: usize = 0;
        proof {
            assert(distinct.deep_view() =~= spec_distinct(key_op_addrs(opsv).take(0)));
        }
        while j < kops.len()
            invariant
                j <= kops.len(),
                kops@.len() == key_op_addrs(opsv).len(),
                forall|m: int|
                    0 <= m < kops@.len() ==> (#[trigger] kops@[m]).0@ == opsv[m].addr
                        && kops@[m].1@ == opsv[m].nkey,
                distinct.deep_view() == spec_distinct(key_op_addrs(opsv).take(j as int)),
            decreases kops.len() - j,
        {
            let ghost prefix = key_op_addrs(opsv).take(j as int);
            let ghost longer = key_op_addrs(opsv).take(j as int + 1);
            proof {
                assert(longer.drop_last() =~= prefix);
                assert(longer.last() == opsv[j as int].addr);
            }
            if !contains_string(&distinct, &kops[j].0) {
                distinct.push(kops[j].0.clone());
                proof {
                    assert(distinct.deep_view() =~= spec_distinct(prefix).push(longer.last()));
                }
            }
            j += 1;
        }
        let ghost da = spec_distinct(key_op_addrs(opsv));
        proof {
            assert(key_op_addrs(opsv).take(key_op_addrs(opsv).len() as int)
                =~= key_op_addrs(opsv));
            assert(distinct.deep_view() == da);
        }
        let pairs = match self.context.get_state_entries(&distinct) {
            Ok(p) => p,
            Err(e) => {
                return Err(e);
            },
        };
        let mut out: Vec<(String, Vec<StateEntryValue>)> = Vec::new();
        let mut t: usize = 0;
        proof {
            assert(out.deep_view() =~= spec_collect(self.store(), opsv.take(0)));
        }
        while t < kops.len()
            invariant
                t <= kops.len(),
                self.computable_keys(keys@),
                opsv == self.key_ops_of(keys@),
                da == spec_distinct(key_op_addrs(opsv)),
                pairs.deep_view() == filter_present(self.store(), da),
                kops@.len() == opsv.len(),
                forall|m: int|
                    0 <= m < kops@.len() ==> (#[trigger] kops@[m]).0@ == opsv[m].addr
                        && kops@[m].1@ == opsv[m].nkey,
                forall|m: int|
                    0 <= m < t ==> stored_bucket(self.store(), (#[trigger] opsv[m]).addr) is Some,
                out.deep_view() == spec_collect(self.store(), opsv.take(t as int)),
            decreases kops.len() - t,
        {
            let ghost sprefix = opsv.take(t as int);
            let ghost slonger = opsv.take(t as int + 1);
            proof {
                assert(slonger.drop_last() =~= sprefix);
                assert(slonger.last() == opsv[t as int]);
                lemma_distinct_elements(key_op_addrs(opsv));
                assert(key_op_addrs(opsv)[t as int] == opsv[t as int].addr);
                assert(key_op_addrs(opsv).contains(opsv[t as int].addr));
                assert(da.contains(kops@[t as int].0@));
            }
            let addr = &kops[t].0;
            let nkey = &kops[t].1;
            let bucket = match Self::bucket_from_pairs(&pairs, addr, Ghost(self.store()), Ghost(da))
                {
                Ok(b) => b,
                Err(e) => {
                    proof {
                        assert(stored_bucket(self.store(), opsv[t as int].addr) is None);
                        let m = choose|m: int| 0 <= m < da.len() && da[m] == opsv[t as int].addr;
                        assert(!all_readable(self.store(), da));
                    }
                    return Err(e);
                },
            };
            match Self::find_values(&bucket, nkey) {
                Some(values) => {
                    if !Self::out_contains_key(&out, nkey) {
                        let pair = (nkey.clone(), values);
                        proof {
                            assert(pair.deep_view() == (opsv[t as int].nkey, pair.1.deep_view()));
                        }
                        out.push(pair);
                        proof {
                            assert(out.deep_view() =~= spec_collect(self.store(), sprefix).push(
                                (
                                    opsv[t as int].nkey,
                                    bucket_get(
                                        stored_bucket(self.store(), opsv[t as int].addr)->Some_0,
                                        opsv[t as int].nkey,
                                    ),
                                ),
                            ));
                        }
                    }
                },
                None => {},
            }
            t += 1;
        }
        proof {
            assert(opsv.take(opsv.len() as int) =~= opsv);
            assert forall|m: int| 0 <= m < da.len() implies stored_bucket(
                self.store(),
                #[trigger] da[m],
            ) is Some by {
                lemma_distinct_elements(key_op_addrs(opsv));
                assert(da.contains(da[m]));
                assert(key_op_addrs(opsv).contains(da[m]));
                let x = choose|x: int|
                    0 <= x < key_op_addrs(opsv).len() && key_op_addrs(opsv)[x] == da[m];
                assert(opsv[x].addr == da[m]);
            }
        }
        Ok(out)
    }
}



/// The bucket at one address after every delete aimed at it, paired with
/// the normalized keys actually removed there.
pub open spec fn delete_outcome(
    store: Map<Seq<char>, Seq<u8>>,
    ops: Seq<KeyOpV>,
    a: Seq<char>,
) -> (Seq<StateEntryV>, Seq<Seq<char>>) {
    apply_delete_ops(stored_bucket(store, a)->Some_0, nkeys_at(ops, a))
}

/// The normalized keys a batch delete removes, grouped by address in
/// first-occurrence order.
pub open spec fn batch_deleted(
    store: Map<Seq<char>, Seq<u8>>,
    ops: Seq<KeyOpV>,
    addrs: Seq<Seq<char>>,
) -> Seq<Seq<char>>
    decreases addrs.len(),
{
    if addrs.len() == 0 {
        Seq::empty()
    } else {
        batch_deleted(store, ops, addrs.drop_last()) + delete_outcome(store, ops, addrs.last()).1
    }
}

/// The addresses a batch delete removes outright: those whose bucket lost
/// records and ended empty.
pub open spec fn batch_delete_removals(
    store: Map<Seq<char>, Seq<u8>>,
    ops: Seq<KeyOpV>,
    addrs: Seq<Seq<char>>,
) -> Seq<Seq<char>>
    decreases addrs.len(),
{
    if addrs.len() == 0 {
        Seq::empty()
    } else {
        let init = batch_delete_removals(store, ops, addrs.drop_last());
        let (b1, dl) = delete_outcome(store, ops, addrs.last());
        if dl.len() > 0 && b1.len() == 0 {
            init.push(addrs.last())
        } else {
            init
        }
    }
}

/// The buckets a batch delete writes back: those that lost records but kept
/// some.
pub open spec fn batch_delete_updates(
    store: Map<Seq<char>, Seq<u8>>,
    ops: Seq<KeyOpV>,
    addrs: Seq<Seq<char>>,
) -> Seq<(Seq<char>, Seq<u8>)>
    decreases addrs.len(),
{
    if addrs.len() == 0 {
        Seq::empty()
    } else {
        let init = batch_delete_updates(store, ops, addrs.drop_last());
        let (b1, dl) = delete_outcome(store, ops, addrs.last());
        if dl.len() > 0 && b1.len() > 0 {
            init.push((addrs.last(), spec_encode(b1)))
        } else {
            init
        }
    }
}

impl<A: Addresser<K>, K, C: TransactionContext> KeyValueTransactionContext<A, K, C> {
    /// Whether every key of a batch of deletes has an address.
    pub open spec fn computable_owned_keys(&self, keys: Seq<K>) -> bool {
        forall|i: int|
            0 <= i < keys.len() ==> self.addresser.spec_compute(&#[trigger] keys[i]) is Some
    }

    /// The keyed operations a batch of owned natural keys stands for.
    pub open spec fn owned_key_ops_of(&self, keys: Seq<K>) -> Seq<KeyOpV> {
        Seq::new(
            keys.len(),
            |i: int|
                KeyOpV {
                    addr: self.addresser.spec_compute(&keys[i])->Some_0,
                    nkey: self.addresser.spec_normalize(&keys[i]),
                },
        )
    }

    /// Deletes the records filed under the given natural keys and returns
    /// the normalized keys actually removed, grouped by address. Keys are
    /// grouped by the address they map to: each distinct address is read
    /// once, every delete aimed at it is applied in memory, and each
    /// changed address is written back once or, when its last record went,
    /// deleted.
    #[verifier::rlimit(50)]
    pub fn delete_state_entries(&mut self, keys: Vec<K>) -> (r: Result<
        Vec<String>,
        SimpleStateError,
    >)
        ensures
            final (self).addresser == old(self).addresser,
            !old(self).computable_owned_keys(keys@) ==> (r matches Err(
                SimpleStateError::AddresserError(_),
            ) && final (self).store() == old(self).store()),
            ({
                let ops = old(self).owned_key_ops_of(keys@);
                let da = spec_distinct(key_op_addrs(ops));
                match r {
                    Ok(deleted) => {
                        &&& old(self).computable_owned_keys(keys@)
                        &&& all_readable(old(self).store(), da)
                        &&& deleted.deep_view() == batch_deleted(old(self).store(), ops, da)
                        &&& final (self).store() == update_all(
                            delete_all(
                                old(self).store(),
                                batch_delete_removals(old(self).store(), ops, da),
                            ).0,
                            batch_delete_updates(old(self).store(), ops, da),
                        )
                    },
                    Err(e) => match e {
                        SimpleStateError::AddresserError(_) => !old(self).computable_owned_keys(
                            keys@,
                        ) && final (self).store() == old(self).store(),
                        SimpleStateError::SerializationError(_) => !all_readable(
                            old(self).store(),
                            da,
                        ) && final (self).store() == old(self).store(),
                        SimpleStateError::SdkError(_) => true,
                        _ => false,
                    },
                }
            }),
    {
        let ghost opsv = old(self).owned_key_ops_of(keys@);
        let mut kops: Vec<(String, String)> = Vec::new();
        let mut i: usize = 0;
        while i < keys.len()
            invariant
                i <= keys.len(),
                keys@.len() == keys.len(),
                *self == *old(self),
                opsv == old(self).owned_key_ops_of(keys@),
                opsv.len() == keys@.len(),
                kops@.len() == i,
                forall|j: int|
                    0 <= j < i ==> old(self).addresser.spec_compute(
                        &#[trigger] keys@[j],
                    ) is Some,
                forall|j: int|
                    0 <= j < i ==> (#[trigger] kops@[j]).0@ == opsv[j].addr && kops@[j].1@
                        == opsv[j].nkey,
            decreases keys.len() - i,
        {
            let addr = match self.addresser.compute(&keys[i]) {
                Ok(a) => a,
                Err(e) => {
                    proof {
                        assert(old(self).addresser.spec_compute(&keys@[i as int]) is None);
                    }
                    return Err(e);
                },
            };
            let nkey = self.addresser.normalize(&keys[i]);
            kops.push((addr, nkey));
            i += 1;
        }
        proof {
            assert(old(self).computable_owned_keys(keys@));
        }
        let mut distinct: Vec<String> = Vec::new();
        let mut j: usize = 0;
        proof {
            assert(distinct.deep_view() =~= spec_distinct(key_op_addrs(opsv).take(0)));
        }
        while j < kops.len()
            invariant
                j <= kops.len(),
                kops@.len() == key_op_addrs(opsv).len(),
                forall|m: int|
                    0 <= m < kops@.len() ==> (#[trigger] kops@[m]).0@ == opsv[m].addr
                        && kops@[m].1@ == opsv[m].nkey,
                distinct.deep_view() == spec_distinct(key_op_addrs(opsv).take(j as int)),
            decreases kops.len() - j,
        {
            let ghost prefix = key_op_addrs(opsv).take(j as int);
            let ghost longer = key_op_addrs(opsv).take(j as int + 1);
            proof {
                assert(longer.drop_last() =~= prefix);
                assert(longer.last() == opsv[j as int].addr);
            }
            if !contains_string(&distinct, &kops[j].0) {
                distinct.push(kops[j].0.clone());
                proof {
                    assert(distinct.deep_view() =~= spec_distinct(prefix).push(longer.last()));
                }
            }
            j += 1;
        }
        let ghost da = spec_distinct(key_op_addrs(opsv));
        proof {
            assert(key_op_addrs(opsv).take(key_op_addrs(opsv).len() as int)
                =~= key_op_addrs(opsv));
            assert(distinct.deep_view() == da);
        }
        let pairs = match self.context.get_state_entries(&distinct) {
            Ok(p) => p,
            Err(e) => {
                return Err(e);
            },
        };
        let mut deleted: Vec<String> = Vec::new();
        let mut removals: Vec<String> = Vec::new();
        let mut updates: Vec<(String, Vec<u8>)> = Vec::new();
        let mut d: usize = 0;
        proof {
            assert(deleted.deep_view() =~= batch_deleted(old(self).store(), opsv, da.take(0)));
            assert(removals.deep_view() =~= batch_delete_removals(
                old(self).store(),
                opsv,
                da.take(0),
            ));
            assert(updates.deep_view() =~= batch_delete_updates(
                old(self).store(),
                opsv,
                da.take(0),
            ));
        }
        while d < distinct.len()
            invariant
                d <= distinct.len(),
                *self == *old(self),
                old(self).computable_owned_keys(keys@),
                opsv == old(self).owned_key_ops_of(keys@),
                distinct.deep_view().len() == distinct.len(),
                distinct.deep_view() == da,
                da == spec_distinct(key_op_addrs(opsv)),
                pairs.deep_view() == filter_present(old(self).store(), da),
                kops@.len() == opsv.len(),
                forall|m: int|
                    0 <= m < kops@.len() ==> (#[trigger] kops@[m]).0@ == opsv[m].addr
                        && kops@[m].1@ == opsv[m].nkey,
                forall|m: int|
                    0 <= m < d ==> stored_bucket(old(self).store(), #[trigger] da[m]) is Some,
                deleted.deep_view() == batch_deleted(old(self).store(), opsv, da.take(d as int)),
                removals.deep_view() == batch_delete_removals(
                    old(self).store(),
                    opsv,
                    da.take(d as int),
                ),
                updates.deep_view() == batch_delete_updates(
                    old(self).store(),
                    opsv,
                    da.take(d as int),
                ),
            decreases distinct.len() - d,
        {
            let addr = &distinct[d];
            proof {
                assert(addr@ == da[d as int]);
            }
            let bucket = match Self::bucket_from_pairs(
                &pairs,
                addr,
                Ghost(old(self).store()),
                Ghost(da),
            ) {
                Ok(b) => b,
                Err(e) => {
                    proof {
                        assert(stored_bucket(old(self).store(), da[d as int]) is None);
                        assert(!all_readable(old(self).store(), da));
                    }
                    return Err(e);
                },
            };
            let ghost bucket0 = bucket.deep_view();
            let ghost deleted_before = deleted.deep_view();
            let mut b = bucket;
            let mut changed = false;
            let mut t: usize = 0;
            proof {
                assert(nkeys_at(opsv.take(0), addr@) =~= Seq::<Seq<char>>::empty());
                assert((b.deep_view(), deleted.deep_view()) == (
                apply_delete_ops(bucket0, nkeys_at(opsv.take(0), addr@)).0,
                deleted_before + apply_delete_ops(bucket0, nkeys_at(opsv.take(0), addr@)).1,
                ));
            }
            while t < kops.len()
                invariant
                    t <= kops.len(),
                    kops@.len() == opsv.len(),
                    forall|m: int|
                        0 <= m < kops@.len() ==> (#[trigger] kops@[m]).0@ == opsv[m].addr
                            && kops@[m].1@ == opsv[m].nkey,
                    b.deep_view() == apply_delete_ops(
                        bucket0,
                        nkeys_at(opsv.take(t as int), addr@),
                    ).0,
                    deleted.deep_view() == deleted_before + apply_delete_ops(
                        bucket0,
                        nkeys_at(opsv.take(t as int), addr@),
                    ).1,
                    changed == (apply_delete_ops(
                        bucket0,
                        nkeys_at(opsv.take(t as int), addr@),
                    ).1.len() > 0),
                decreases kops.len() - t,
            {
                let ghost sprefix = opsv.take(t as int);
                let ghost slonger = opsv.take(t as int + 1);
                proof {
                    assert(slonger.drop_last() =~= sprefix);
                    assert(slonger.last() == opsv[t as int]);
                }
                if kops[t].0 == *addr {
                    proof {
                        assert(nkeys_at(slonger, addr@) == nkeys_at(sprefix, addr@).push(
                            opsv[t as int].nkey,
                        ));
                        let grown = nkeys_at(sprefix, addr@).push(opsv[t as int].nkey);
                        assert(grown.drop_last() =~= nkeys_at(sprefix, addr@));
                        assert(grown.last() == opsv[t as int].nkey);
                    }
                    if Self::bucket_has_key(&b, &kops[t].1) {
                        let filtered = Self::remove_entries_with_key(&b, &kops[t].1);
                        b = filtered;
                        deleted.push(kops[t].1.clone());
                        changed = true;
                        proof {
                            assert(deleted.deep_view() =~= (deleted_before + apply_delete_ops(
                                bucket0,
                                nkeys_at(sprefix, addr@),
                            ).1).push(opsv[t as int].nkey));
                            assert(deleted_before + apply_delete_ops(
                                bucket0,
                                nkeys_at(slonger, addr@),
                            ).1 =~= (deleted_before + apply_delete_ops(
                                bucket0,
                                nkeys_at(sprefix, addr@),
                            ).1).push(opsv[t as int].nkey));
                        }
                    }
                } else {
                    proof {
                        assert(nkeys_at(slonger, addr@) == nkeys_at(sprefix, addr@));
                    }
                }
                t += 1;
            }
            proof {
                assert(opsv.take(opsv.len() as int) =~= opsv);
            }
            let ghost dprefix = da.take(d as int);
            let ghost dlonger = da.take(d as int + 1);
            proof {
                assert(dlonger.drop_last() =~= dprefix);
                assert(dlonger.last() == da[d as int]);
            }
            if changed {
                if b.is_empty() {
                    removals.push(addr.clone());
                    proof {
                        assert(removals.deep_view() =~= batch_delete_removals(
                            old(self).store(),
                            opsv,
                            dprefix,
                        ).push(addr@));
                        assert(b.deep_view() =~= Seq::<StateEntryV>::empty());
                    }
                } else {
                    let list = match StateEntryListBuilder::new().with_state_entries(b).build() {
                        Ok(l) => l,
                        Err(e) => {
                            return Err(SimpleStateError::ProtocolBuildError(e));
                        },
                    };
                    let bytes = match list.into_bytes() {
                        Ok(bs) => bs,
                        Err(e) => {
                            return Err(e);
                        },
                    };
                    let ghost bytesv = bytes@;
                    updates.push((addr.clone(), bytes));
                    proof {
                        assert(updates@[updates@.len() - 1].deep_view() == (addr@, bytesv));
                        assert(updates.deep_view() =~= batch_delete_updates(
                            old(self).store(),
                            opsv,
                            dprefix,
                        ).push((addr@, bytesv)));
                    }
                }
            }
            proof {
                assert(deleted.deep_view() =~= batch_deleted(old(self).store(), opsv, dprefix)
                    + delete_outcome(old(self).store(), opsv, da[d as int]).1);
            }
            d += 1;
        }
        proof {
            assert(da.take(distinct.len() as int) =~= da);
        }
        let ghost store_before = self.store();
        let ghost removalsv = removals.deep_view();
        let ghost updatesv = updates.deep_view();
        let removals_slice = removals.as_slice();
        proof {
            assert(removals_slice.deep_view() =~= removalsv);
        }
        match self.context.delete_state_entries(removals_slice) {
            Ok(_) => {},
            Err(e) => {
                return Err(e);
            },
        }
        match self.context.set_state_entries(updates) {
            Ok(_) => {},
            Err(e) => {
                return Err(e);
            },
        }
        proof {
            assert(self.store() == update_all(delete_all(store_before, removalsv).0, updatesv));
        }
        Ok(deleted)
    }
}



/// The two-key batch law, when both keys collide at one address.
#[verifier::rlimit(100)]
#[verifier::spinoff_prover]
proof fn lemma_batch_pair_same_addr(store: Map<Seq<char>, Seq<u8>>, op1: SetOpV, op2: SetOpV)
    requires
        stored_bucket(store, op1.addr) matches Some(b1) && b1.len() + 2 <= u64::MAX,
        encodable_entry(op1.entry),
        encodable_entry(op2.entry),
        op1.entry.normalized_key != op2.entry.normalized_key,
        op1.addr == op2.addr,
    ensures
        ({
            let ops = seq![op1, op2];
            let da = spec_distinct(set_op_addrs(ops));
            let batched = update_all(store, batch_set_updates(store, ops, da));
            &&& spec_set_entry(store, op1.addr, op1.entry) matches Ok(s1) && spec_set_entry(
                s1,
                op2.addr,
                op2.entry,
            ) matches Ok(s2) && batched == s2
            &&& spec_collect(
                batched,
                seq![
                    KeyOpV { addr: op1.addr, nkey: op1.entry.normalized_key },
                    KeyOpV { addr: op2.addr, nkey: op2.entry.normalized_key },
                ],
            ) == seq![
                (op1.entry.normalized_key, op1.entry.values),
                (op2.entry.normalized_key, op2.entry.values),
            ]
        }),
{
    let ops = seq![op1, op2];
    let gops = seq![
        KeyOpV { addr: op1.addr, nkey: op1.entry.normalized_key },
        KeyOpV { addr: op2.addr, nkey: op2.entry.normalized_key },
    ];
    let a = op1.addr;
    let k1 = op1.entry.normalized_key;
    let k2 = op2.entry.normalized_key;
    let b01 = stored_bucket(store, a)->Some_0;
    let inter = bucket_set(b01, op1.entry);
    let merged = bucket_set(inter, op2.entry);
    let batched = update_all(store, batch_set_updates(store, ops, spec_distinct(set_op_addrs(ops))));
    assert(batched == store.insert(a, spec_encode(merged))) by {
        let addrs = set_op_addrs(ops);
        assert(addrs.len() == 2 && addrs[0] == a && addrs[1] == a);
        assert(addrs.drop_last() =~= seq![a]);
        assert(seq![a].drop_last() =~= Seq::<Seq<char>>::empty());
        assert(seq![a].last() == a);
        assert(spec_distinct(Seq::<Seq<char>>::empty()) =~= Seq::<Seq<char>>::empty());
        assert(!Seq::<Seq<char>>::empty().contains(a));
        assert(spec_distinct(seq![a]) =~= seq![a]);
        let da = spec_distinct(addrs);
        assert(da =~= seq![a]);
        assert(ops.drop_last() =~= seq![op1]);
        assert(seq![op1].drop_last() =~= Seq::<SetOpV>::empty());
        assert(seq![op1].last() == op1);
        assert(ops.last() == op2);
        assert(set_entries_at(Seq::<SetOpV>::empty(), a) =~= Seq::<StateEntryV>::empty());
        assert(set_entries_at(seq![op1], a) =~= seq![op1.entry]);
        assert(set_entries_at(ops, a) =~= seq![op1.entry, op2.entry]);
        assert(seq![op1.entry, op2.entry].drop_last() =~= seq![op1.entry]);
        assert(seq![op1.entry].drop_last() =~= Seq::<StateEntryV>::empty());
        assert(seq![op1.entry, op2.entry].last() == op2.entry);
        assert(seq![op1.entry].last() == op1.entry);
        assert(apply_set_ops(b01, Seq::<StateEntryV>::empty()) == b01);
        assert(apply_set_ops(b01, seq![op1.entry]) == inter);
        assert(apply_set_ops(b01, set_entries_at(ops, a)) == merged);
        assert(da.last() == a);
        assert(da.drop_last() =~= Seq::<Seq<char>>::empty());
        assert(batch_set_updates(store, ops, Seq::<Seq<char>>::empty()) =~= Seq::<
            (Seq<char>, Seq<u8>),
        >::empty());
        assert(batch_set_updates(store, ops, da) =~= seq![(a, spec_encode(merged))]);
        assert(seq![(a, spec_encode(merged))].drop_last() =~= Seq::<
            (Seq<char>, Seq<u8>),
        >::empty());
        assert(seq![(a, spec_encode(merged))].last() == (a, spec_encode(merged)));
        assert(update_all(store, Seq::<(Seq<char>, Seq<u8>)>::empty()) == store);
        assert(update_all(store, seq![(a, spec_encode(merged))]) == store.insert(
            a,
            spec_encode(merged),
        ));
    }
    lemma_collision_coexistence(store, a, op1.entry, op2.entry);
    let s1 = store.insert(a, spec_encode(inter));
    assert(spec_set_entry(store, a, op1.entry) == Ok::<Map<Seq<char>, Seq<u8>>, ()>(s1));
    assert(stored_bucket(s1, a) == Some(inter)) by {
        lemma_stored_bucket_encodable(store, a);
        lemma_bucket_remove_props(b01, k1);
        lemma_bucket_remove_encodable(b01, k1);
        assert(forall|j: int|
            0 <= j < inter.len() - 1 ==> inter[j] == #[trigger] bucket_remove(b01, k1)[j]);
        assert(inter[inter.len() - 1] == op1.entry);
        assert(encodable(inter));
        crate::codec::lemma_decode_encode(inter);
    }
    let s2 = s1.insert(a, spec_encode(merged));
    assert(spec_set_entry(s1, a, op2.entry) == Ok::<Map<Seq<char>, Seq<u8>>, ()>(s2));
    assert(batched =~= s2);
    assert(stored_bucket(batched, a) == Some(merged)) by {
        assert(spec_get_entry(s2, a, k1) == Ok::<Option<Seq<StateEntryValueV>>, ()>(
            Some(op1.entry.values),
        ));
        assert(s2.contains_key(a) && s2[a] == spec_encode(merged));
        assert(bucket_round_trips(merged)) by {
            lemma_stored_bucket_encodable(store, a);
            lemma_bucket_remove_props(b01, k1);
            lemma_bucket_remove_encodable(b01, k1);
            assert(forall|j: int|
                0 <= j < inter.len() - 1 ==> inter[j] == #[trigger] bucket_remove(b01, k1)[j]);
            assert(inter[inter.len() - 1] == op1.entry);
            lemma_bucket_remove_props(inter, k2);
            lemma_bucket_remove_encodable(inter, k2);
            assert(forall|j: int|
                0 <= j < merged.len() - 1 ==> merged[j] == #[trigger] bucket_remove(inter, k2)[j]);
            assert(merged[merged.len() - 1] == op2.entry);
            assert(encodable(merged));
            crate::codec::lemma_decode_encode(merged);
        }
    }
    assert(spec_collect(batched, gops) == seq![(k1, op1.entry.values), (k2, op2.entry.values)])
        by {
        assert(spec_get_entry(s2, a, k1) == Ok::<Option<Seq<StateEntryValueV>>, ()>(
            Some(op1.entry.values),
        ));
        assert(spec_get_entry(s2, a, k2) == Ok::<Option<Seq<StateEntryValueV>>, ()>(
            Some(op2.entry.values),
        ));
        assert(bucket_contains(merged, k1) && bucket_get(merged, k1) == op1.entry.values);
        assert(bucket_contains(merged, k2) && bucket_get(merged, k2) == op2.entry.values);
        assert(gops.drop_last() =~= seq![gops[0]]);
        assert(seq![gops[0]].drop_last() =~= Seq::<KeyOpV>::empty());
        assert(seq![gops[0]].last() == gops[0]);
        assert(gops.last() == gops[1]);
        let acc1 = spec_collect(batched, seq![gops[0]]);
        assert(spec_collect(batched, Seq::<KeyOpV>::empty()) =~= Seq::<
            (Seq<char>, Seq<StateEntryValueV>),
        >::empty());
        assert(acc1 =~= seq![(k1, op1.entry.values)]);
        assert(!result_contains_key(acc1, k2));
        assert(spec_collect(batched, gops) =~= seq![
            (k1, op1.entry.values),
            (k2, op2.entry.values),
        ]);
    }
}

/// Whether a bucket decodes back from its encoding.
pub open spec fn bucket_round_trips(b: Seq<StateEntryV>) -> bool {
    spec_decode(spec_encode(b)) == Some(b)
}

/// The two-key batch law, when the keys map to two different addresses.
#[verifier::rlimit(100)]
#[verifier::spinoff_prover]
proof fn lemma_batch_pair_distinct_addr(store: Map<Seq<char>, Seq<u8>>, op1: SetOpV, op2: SetOpV)
    requires
        stored_bucket(store, op1.addr) matches Some(b1) && b1.len() + 2 <= u64::MAX,
        stored_bucket(store, op2.addr) matches Some(b2) && b2.len() + 2 <= u64::MAX,
        encodable_entry(op1.entry),
        encodable_entry(op2.entry),
        op1.entry.normalized_key != op2.entry.normalized_key,
        op1.addr != op2.addr,
    ensures
        ({
            let ops = seq![op1, op2];
            let da = spec_distinct(set_op_addrs(ops));
            let batched = update_all(store, batch_set_updates(store, ops, da));
            &&& spec_set_entry(store, op1.addr, op1.entry) matches Ok(s1) && spec_set_entry(
                s1,
                op2.addr,
                op2.entry,
            ) matches Ok(s2) && batched == s2
            &&& spec_collect(
                batched,
                seq![
                    KeyOpV { addr: op1.addr, nkey: op1.entry.normalized_key },
                    KeyOpV { addr: op2.addr, nkey: op2.entry.normalized_key },
                ],
            ) == seq![
                (op1.entry.normalized_key, op1.entry.values),
                (op2.entry.normalized_key, op2.entry.values),
            ]
        }),
{
    let ops = seq![op1, op2];
    let gops = seq![
        KeyOpV { addr: op1.addr, nkey: op1.entry.normalized_key },
        KeyOpV { addr: op2.addr, nkey: op2.entry.normalized_key },
    ];
    let k1 = op1.entry.normalized_key;
    let k2 = op2.entry.normalized_key;
    let b01 = stored_bucket(store, op1.addr)->Some_0;
    let b02 = stored_bucket(store, op2.addr)->Some_0;
    let n1 = bucket_set(b01, op1.entry);
    let n2 = bucket_set(b02, op2.entry);
    let batched = update_all(
        store,
        batch_set_updates(store, ops, spec_distinct(set_op_addrs(ops))),
    );
    assert(batched == store.insert(op1.addr, spec_encode(n1)).insert(op2.addr, spec_encode(n2)))
        by {
        let addrs = set_op_addrs(ops);
        assert(addrs.len() == 2 && addrs[0] == op1.addr && addrs[1] == op2.addr);
        assert(addrs.drop_last() =~= seq![op1.addr]);
        assert(seq![op1.addr].drop_last() =~= Seq::<Seq<char>>::empty());
        assert(seq![op1.addr].last() == op1.addr);
        assert(spec_distinct(Seq::<Seq<char>>::empty()) =~= Seq::<Seq<char>>::empty());
        assert(!Seq::<Seq<char>>::empty().contains(op1.addr));
        assert(spec_distinct(seq![op1.addr]) =~= seq![op1.addr]);
        let da = spec_distinct(addrs);
        assert(da =~= seq![op1.addr, op2.addr]);
        assert(ops.drop_last() =~= seq![op1]);
        assert(seq![op1].drop_last() =~= Seq::<SetOpV>::empty());
        assert(seq![op1].last() == op1);
        assert(ops.last() == op2);
        assert(set_entries_at(Seq::<SetOpV>::empty(), op1.addr) =~= Seq::<StateEntryV>::empty());
        assert(set_entries_at(Seq::<SetOpV>::empty(), op2.addr) =~= Seq::<StateEntryV>::empty());
        assert(set_entries_at(seq![op1], op1.addr) =~= seq![op1.entry]);
        assert(set_entries_at(ops, op1.addr) =~= seq![op1.entry]);
        assert(set_entries_at(seq![op1], op2.addr) =~= Seq::<StateEntryV>::empty());
        assert(set_entries_at(ops, op2.addr) =~= seq![op2.entry]);
        assert(seq![op1.entry].drop_last() =~= Seq::<StateEntryV>::empty());
        assert(seq![op2.entry].drop_last() =~= Seq::<StateEntryV>::empty());
        assert(seq![op1.entry].last() == op1.entry);
        assert(seq![op2.entry].last() == op2.entry);
        assert(apply_set_ops(b01, Seq::<StateEntryV>::empty()) == b01);
        assert(apply_set_ops(b02, Seq::<StateEntryV>::empty()) == b02);
        assert(apply_set_ops(b01, seq![op1.entry]) == n1);
        assert(apply_set_ops(b02, seq![op2.entry]) == n2);
        assert(apply_set_ops(b01, set_entries_at(ops, op1.addr)) == n1);
        assert(apply_set_ops(b02, set_entries_at(ops, op2.addr)) == n2);
        assert(da.drop_last() =~= seq![op1.addr]);
        assert(da.last() == op2.addr);
        assert(batch_set_updates(store, ops, Seq::<Seq<char>>::empty()) =~= Seq::<
            (Seq<char>, Seq<u8>),
        >::empty());
        assert(batch_set_updates(store, ops, seq![op1.addr]) =~= seq![
            (op1.addr, spec_encode(n1)),
        ]);
        let ups = batch_set_updates(store, ops, da);
        assert(ups =~= seq![(op1.addr, spec_encode(n1)), (op2.addr, spec_encode(n2))]);
        assert(ups.drop_last() =~= seq![(op1.addr, spec_encode(n1))]);
        assert(seq![(op1.addr, spec_encode(n1))].drop_last() =~= Seq::<
            (Seq<char>, Seq<u8>),
        >::empty());
        assert(ups.last() == (op2.addr, spec_encode(n2)));
        assert(seq![(op1.addr, spec_encode(n1))].last() == (op1.addr, spec_encode(n1)));
        assert(update_all(store, Seq::<(Seq<char>, Seq<u8>)>::empty()) == store);
        assert(update_all(store, seq![(op1.addr, spec_encode(n1))]) == store.insert(
            op1.addr,
            spec_encode(n1),
        ));
    }
    assert(bucket_round_trips(n1)) by {
        lemma_stored_bucket_encodable(store, op1.addr);
        lemma_bucket_remove_props(b01, k1);
        lemma_bucket_remove_encodable(b01, k1);
        assert(forall|j: int|
            0 <= j < n1.len() - 1 ==> n1[j] == #[trigger] bucket_remove(b01, k1)[j]);
        assert(n1[n1.len() - 1] == op1.entry);
        assert(encodable(n1));
        crate::codec::lemma_decode_encode(n1);
    }
    assert(bucket_round_trips(n2)) by {
        lemma_stored_bucket_encodable(store, op2.addr);
        lemma_bucket_remove_props(b02, k2);
        lemma_bucket_remove_encodable(b02, k2);
        assert(forall|j: int|
            0 <= j < n2.len() - 1 ==> n2[j] == #[trigger] bucket_remove(b02, k2)[j]);
        assert(n2[n2.len() - 1] == op2.entry);
        assert(encodable(n2));
        crate::codec::lemma_decode_encode(n2);
    }
    let s1 = store.insert(op1.addr, spec_encode(n1));
    assert(spec_set_entry(store, op1.addr, op1.entry) == Ok::<Map<Seq<char>, Seq<u8>>, ()>(s1));
    assert(stored_bucket(s1, op2.addr) == Some(b02));
    let s2 = s1.insert(op2.addr, spec_encode(n2));
    assert(spec_set_entry(s1, op2.addr, op2.entry) == Ok::<Map<Seq<char>, Seq<u8>>, ()>(s2));
    assert(batched =~= s2);
    assert(stored_bucket(batched, op1.addr) == Some(n1));
    assert(stored_bucket(batched, op2.addr) == Some(n2));
    lemma_bucket_set_props(b01, op1.entry);
    lemma_bucket_set_props(b02, op2.entry);
    assert(spec_collect(batched, gops) == seq![(k1, op1.entry.values), (k2, op2.entry.values)])
        by {
        assert(gops.drop_last() =~= seq![gops[0]]);
        assert(seq![gops[0]].drop_last() =~= Seq::<KeyOpV>::empty());
        assert(seq![gops[0]].last() == gops[0]);
        assert(gops.last() == gops[1]);
        let acc1 = spec_collect(batched, seq![gops[0]]);
        assert(spec_collect(batched, Seq::<KeyOpV>::empty()) =~= Seq::<
            (Seq<char>, Seq<StateEntryValueV>),
        >::empty());
        assert(acc1 =~= seq![(k1, op1.entry.values)]);
        assert(!result_contains_key(acc1, k2));
        assert(spec_collect(batched, gops) =~= seq![
            (k1, op1.entry.values),
            (k2, op2.entry.values),
        ]);
    }
}

/// Law: a batch set of two keys is equivalent to setting them one after
/// the other, and a batch get of both keys then yields both value
/// mappings. This holds whether or not the two keys collide at one
/// address, as long as their normalized keys differ.
pub proof fn lemma_batch_set_get_equivalent(
    store: Map<Seq<char>, Seq<u8>>,
    op1: SetOpV,
    op2: SetOpV,
)
    requires
        stored_bucket(store, op1.addr) matches Some(b1) && b1.len() + 2 <= u64::MAX,
        stored_bucket(store, op2.addr) matches Some(b2) && b2.len() + 2 <= u64::MAX,
        encodable_entry(op1.entry),
        encodable_entry(op2.entry),
        op1.entry.normalized_key != op2.entry.normalized_key,
    ensures
        ({
            let ops = seq![op1, op2];
            let da = spec_distinct(set_op_addrs(ops));
            let batched = update_all(store, batch_set_updates(store, ops, da));
            &&& spec_set_entry(store, op1.addr, op1.entry) matches Ok(s1) && spec_set_entry(
                s1,
                op2.addr,
                op2.entry,
            ) matches Ok(s2) && batched == s2
            &&& spec_collect(
                batched,
                seq![
                    KeyOpV { addr: op1.addr, nkey: op1.entry.normalized_key },
                    KeyOpV { addr: op2.addr, nkey: op2.entry.normalized_key },
                ],
            ) == seq![
                (op1.entry.normalized_key, op1.entry.values),
                (op2.entry.normalized_key, op2.entry.values),
            ]
        }),
{
    if op1.addr == op2.addr {
        lemma_batch_pair_same_addr(store, op1, op2);
    } else {
        lemma_batch_pair_distinct_addr(store, op1, op2);
    }
}

} // verus!
