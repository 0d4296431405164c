//! The raw store capability the record store is layered on: byte payloads
//! at 70-character addresses, fetched, replaced and deleted wholesale.
//!
//! [`TransactionContext`] is the interface a ledger exposes to one
//! executing transaction; [`MemoryTransactionContext`] is an in-memory
//! implementation of it, suitable for tests and local runs.

use vstd::prelude::*;

use crate::error::SimpleStateError;

verus! {

/// The map an association list of address/payload pairs spells, with later
/// pairs overriding earlier ones.
pub open spec fn map_of(s: Seq<(Seq<char>, Seq<u8>)>) -> Map<Seq<char>, Seq<u8>>
    decreases s.len(),
{
    if s.len() == 0 {
        Map::empty()
    } else {
        map_of(s.drop_last()).insert(s.last().0, s.last().1)
    }
}

/// The address/payload pairs that a fetch of `addrs` returns out of
/// `store`: the addresses that exist, in the order requested, each with its
/// payload.
pub open spec fn filter_present(store: Map<Seq<char>, Seq<u8>>, addrs: Seq<Seq<char>>) -> Seq<
    (Seq<char>, Seq<u8>),
>
    decreases addrs.len(),
{
    if addrs.len() == 0 {
        Seq::empty()
    } else {
        let init = filter_present(store, addrs.drop_last());
        if store.contains_key(addrs.last()) {
            init.push((addrs.last(), store[addrs.last()]))
        } else {
            init
        }
    }
}

/// The store after writing every pair of `entries` in order; a later pair
/// at the same address wins.
pub open spec fn update_all(
    store: Map<Seq<char>, Seq<u8>>,
    entries: Seq<(Seq<char>, Seq<u8>)>,
) -> Map<Seq<char>, Seq<u8>>
    decreases entries.len(),
{
    if entries.len() == 0 {
        store
    } else {
        update_all(store, entries.drop_last()).insert(entries.last().0, entries.last().1)
    }
}

/// The store after deleting every address of `addrs` in order, paired with
/// the addresses that were actually present and removed; a repeated address
/// is reported only on its first occurrence.
pub open spec fn delete_all(store: Map<Seq<char>, Seq<u8>>, addrs: Seq<Seq<char>>) -> (
    Map<Seq<char>, Seq<u8>>,
    Seq<Seq<char>>,
)
    decreases addrs.len(),
{
    if addrs.len() == 0 {
        (store, Seq::empty())
    } else {
        let (m, d) = delete_all(store, addrs.drop_last());
        if m.contains_key(addrs.last()) {
            (m.remove(addrs.last()), d.push(addrs.last()))
        } else {
            (m, d)
        }
    }
}

/// The raw store as one executing transaction sees it. An implementation
/// that fails reports the failure as [`SimpleStateError::SdkError`] and is
/// free to leave the store in any state; the contracts here say what a
/// successful call did.
pub trait TransactionContext {
    /// The bytes stored at each address.
    spec fn store(&self) -> Map<Seq<char>, Seq<u8>>;

    /// Fetches the payloads at the given addresses. Exactly the addresses
    /// that exist come back, in the order requested, each with its payload;
    /// the rest are omitted.
    fn get_state_entries(&self, addresses: &Vec<String>) -> (r: Result<
        Vec<(String, Vec<u8>)>,
        SimpleStateError,
    >)
        ensures
            match r {
                Ok(pairs) => pairs.deep_view() == filter_present(
                    self.store(),
                    addresses.deep_view(),
                ),
                Err(e) => e matches SimpleStateError::SdkError(_),
            },
    ;

    /// Replaces the payload at each given address wholesale, in order.
    fn set_state_entries(&mut self, entries: Vec<(String, Vec<u8>)>) -> (r: Result<
        (),
        SimpleStateError,
    >)
        ensures
            match r {
                Ok(()) => final (self).store() == update_all(
                    old(self).store(),
                    entries.deep_view(),
                ),
                Err(e) => e matches SimpleStateError::SdkError(_),
            },
    ;

    /// Deletes the payloads at the given addresses and returns the subset
    /// of addresses actually removed, in the order requested.
    fn delete_state_entries(&mut self, addresses: &[String]) -> (r: Result<
        Vec<String>,
        SimpleStateError,
    >)
        ensures
            match r {
                Ok(deleted) => (final (self).store(), deleted.deep_view()) == delete_all(
                    old(self).store(),
                    addresses.deep_view(),
                ),
                Err(e) => e matches SimpleStateError::SdkError(_),
            },
    ;
}

/// An in-memory raw store: an association list of address/payload pairs
/// that never holds two pairs for one address.
pub struct MemoryTransactionContext {
    state: Vec<(String, Vec<u8>)>,
}

/// Keeping exactly the pairs not filed under `k`.
pub open spec fn key_differs(k: Seq<char>) -> spec_fn((Seq<char>, Seq<u8>)) -> bool {
    |p: (Seq<char>, Seq<u8>)| p.0 != k
}

/// Removing every pair filed under one address takes that address out of
/// the spelled map.
proof fn lemma_map_of_filter(s: Seq<(Seq<char>, Seq<u8>)>, k: Seq<char>)
    ensures
        map_of(s.filter(key_differs(k))) == map_of(s).remove(k),
    decreases s.len(),
{
    reveal(Seq::filter);
    let pred = key_differs(k);
    if s.len() == 0 {
        assert(map_of(s.filter(pred)) =~= map_of(s).remove(k));
    } else {
        lemma_map_of_filter(s.drop_last(), k);
        let f = s.filter(pred);
        if pred(s.last()) {
            assert(f == s.drop_last().filter(pred).push(s.last()));
            assert(f.drop_last() =~= s.drop_last().filter(pred));
            assert(f.last() == s.last());
            assert(map_of(f) == map_of(s.drop_last().filter(pred)).insert(
                s.last().0,
                s.last().1,
            ));
            assert(map_of(s.drop_last()).remove(k).insert(s.last().0, s.last().1)
                =~= map_of(s.drop_last()).insert(s.last().0, s.last().1).remove(k));
        } else {
            assert(f == s.drop_last().filter(pred));
            assert(map_of(s.drop_last()).remove(k) =~= map_of(s.drop_last()).insert(
                s.last().0,
                s.last().1,
            ).remove(k));
        }
    }
}

/// The spelled map holds an address exactly when some pair is filed under
/// it, and the value is the one of the last such pair.
proof fn lemma_map_of_index(s: Seq<(Seq<char>, Seq<u8>)>, a: Seq<char>)
    ensures
        map_of(s).contains_key(a) <==> exists|i: int| 0 <= i < s.len() && (#[trigger] s[i]).0 == a,
        forall|i: int|
            0 <= i < s.len() && (#[trigger] s[i]).0 == a && (forall|j: int|
                i < j < s.len() ==> (#[trigger] s[j]).0 != a) ==> map_of(s).contains_key(a)
                && map_of(s)[a] == s[i].1,
    decreases s.len(),
{
    if s.len() == 0 {
    } else {
        lemma_map_of_index(s.drop_last(), a);
        assert(s.last() == s[s.len() - 1]);
        assert(forall|i: int| 0 <= i < s.len() - 1 ==> s.drop_last()[i] == #[trigger] s[i]);
        if map_of(s).contains_key(a) && s.last().0 != a {
            assert(map_of(s.drop_last()).contains_key(a));
        }
    }
}

impl MemoryTransactionContext {
    /// An empty in-memory store.
    pub fn new() -> (r: MemoryTransactionContext)
        ensures
            r.store() == Map::<Seq<char>, Seq<u8>>::empty(),
    {
        MemoryTransactionContext { state: Vec::new() }
    }

    /// Whether any payload is stored at the given address.
    fn contains_addr(&self, addr: &String) -> (r: bool)
        ensures
            r == self.store().contains_key(addr@),
    {
        let mut i: usize = 0;
        while i < self.state.len()
            invariant
                self.state.deep_view().len() == self.state.len(),
                forall|j: int|
                    0 <= j < i ==> (#[trigger] self.state.deep_view()[j]).0 != addr@,
            decreases self.state.len() - i,
        {
            if self.state[i].0 == *addr {
                proof {
                    lemma_map_of_index(self.state.deep_view(), addr@);
                    assert((self.state.deep_view()[i as int]).0 == addr@);
                }
                return true;
            }
            i += 1;
        }
        proof {
            lemma_map_of_index(self.state.deep_view(), addr@);
        }
        false
    }

    /// The payload stored at the given address, if any.
    fn lookup(&self, addr: &String) -> (r: Option<&Vec<u8>>)
        ensures
            match r {
                Some(v) => self.store().contains_key(addr@) && v@ == self.store()[addr@],
                None => !self.store().contains_key(addr@),
            },
    {
        let mut i: usize = self.state.len();
        while i > 0
            invariant
                i <= self.state.len(),
                self.state.deep_view().len() == self.state.len(),
                forall|j: int|
                    i <= j < self.state.len() ==> (#[trigger] self.state.deep_view()[j]).0
                        != addr@,
            decreases i,
        {
            i = i - 1;
            if self.state[i].0 == *addr {
                proof {
                    lemma_map_of_index(self.state.deep_view(), addr@);
                    assert((self.state.deep_view()[i as int]).0 == addr@);
                    assert(self.store()[addr@] == self.state.deep_view()[i as int].1);
                }
                return Some(&self.state[i].1);
            }
        }
        proof {
            lemma_map_of_index(self.state.deep_view(), addr@);
        }
        None
    }

    /// Removes every pair filed under the given address.
    fn remove_addr(&mut self, addr: &String)
        ensures
            final (self).store() == old(self).store().remove(addr@),
    {
        let mut filtered: Vec<(String, Vec<u8>)> = Vec::new();
        let mut i: usize = 0;
        proof {
            reveal(Seq::filter);
            assert(filtered.deep_view() =~= self.state.deep_view().take(0).filter(key_differs(addr@)));
        }
        while i < self.state.len()
            invariant
                i <= self.state.len(),
                self.state.deep_view().len() == self.state.len(),
                filtered.deep_view() == self.state.deep_view().take(i as int).filter(key_differs(addr@)),
            decreases self.state.len() - i,
        {
            let ghost prefix = self.state.deep_view().take(i as int);
            let ghost longer = self.state.deep_view().take(i as int + 1);
            proof {
                reveal(Seq::filter);
                assert(longer.drop_last() =~= prefix);
                assert(longer.last() == self.state.deep_view()[i as int]);
            }
            if !(self.state[i].0 == *addr) {
                let pair = (self.state[i].0.clone(), self.state[i].1.clone());
                proof {
                    assert(pair.deep_view() == self.state.deep_view()[i as int]);
                }
                filtered.push(pair);
                proof {
                    reveal(Seq::filter);
                    assert(filtered.deep_view() =~= prefix.filter(key_differs(addr@)).push(longer.last()));
                    assert(key_differs(addr@)(longer.last()) == (longer.last().0 != addr@));
                    assert(longer.last().0 == self.state@[i as int].0@);
                    assert(key_differs(addr@)(longer.last()));
                    assert(longer.drop_last().filter(key_differs(addr@)) == prefix.filter(key_differs(addr@)));
                    assert(longer.filter(key_differs(addr@)) == prefix.filter(key_differs(addr@)).push(longer.last()));
                }
            } else {
                proof {
                    reveal(Seq::filter);
                    assert(key_differs(addr@)(longer.last()) == (longer.last().0 != addr@));
                    assert(longer.last().0 == self.state@[i as int].0@);
                    assert(!key_differs(addr@)(longer.last()));
                    assert(longer.drop_last().filter(key_differs(addr@)) == prefix.filter(key_differs(addr@)));
                    assert(longer.filter(key_differs(addr@)) == prefix.filter(key_differs(addr@)));
                }
            }
            i += 1;
        }
        proof {
            assert(self.state.deep_view().take(self.state.len() as int)
                =~= self.state.deep_view());
            lemma_map_of_filter(self.state.deep_view(), addr@);
        }
        self.state = filtered;
    }
}

impl TransactionContext for MemoryTransactionContext {
    closed spec fn store(&self) -> Map<Seq<char>, Seq<u8>> {
        map_of(self.state.deep_view())
    }

    fn get_state_entries(&self, addresses: &Vec<String>) -> (r: Result<
        Vec<(String, Vec<u8>)>,
        SimpleStateError,
    >) {
        let mut out: Vec<(String, Vec<u8>)> = Vec::new();
        let mut i: usize = 0;
        proof {
            assert(out.deep_view() =~= filter_present(
                self.store(),
                addresses.deep_view().take(0),
            ));
        }
        while i < addresses.len()
            invariant
                i <= addresses.len(),
                addresses.deep_view().len() == addresses.len(),
                out.deep_view() == filter_present(
                    self.store(),
                    addresses.deep_view().take(i as int),
                ),
            decreases addresses.len() - i,
        {
            let ghost prefix = addresses.deep_view().take(i as int);
            let ghost longer = addresses.deep_view().take(i as int + 1);
            proof {
                assert(longer.drop_last() =~= prefix);
                assert(longer.last() == addresses.deep_view()[i as int]);
            }
            match self.lookup(&addresses[i]) {
                Some(v) => {
                    let pair = (addresses[i].clone(), v.clone());
                    proof {
                        assert(pair.deep_view() == (addresses.deep_view()[i as int],
                        self.store()[addresses.deep_view()[i as int]]));
                    }
                    out.push(pair);
                    proof {
                        assert(out.deep_view() =~= filter_present(self.store(), prefix).push(
                            (longer.last(), self.store()[longer.last()]),
                        ));
                    }
                },
                None => {},
            }
            i += 1;
        }
        proof {
            assert(addresses.deep_view().take(addresses.len() as int)
                =~= addresses.deep_view());
        }
        Ok(out)
    }

    fn set_state_entries(&mut self, entries: Vec<(String, Vec<u8>)>) -> (r: Result<
        (),
        SimpleStateError,
    >) {
        let mut i: usize = 0;
        while i < entries.len()
            invariant
                i <= entries.len(),
                entries.deep_view().len() == entries.len(),
                self.store() == update_all(
                    old(self).store(),
                    entries.deep_view().take(i as int),
                ),
            decreases entries.len() - i,
        {
            let ghost prefix = entries.deep_view().take(i as int);
            let ghost longer = entries.deep_view().take(i as int + 1);
            proof {
                assert(longer.drop_last() =~= prefix);
                assert(longer.last() == entries.deep_view()[i as int]);
            }
            let addr = entries[i].0.clone();
            let payload = entries[i].1.clone();
            self.remove_addr(&addr);
            let pair = (addr, payload);
            proof {
                assert(pair.deep_view() == entries.deep_view()[i as int]);
                assert(self.state.deep_view().push(pair.deep_view()).drop_last()
                    =~= self.state.deep_view());
            }
            let ghost store_before = self.store();
            let ghost state_before = self.state.deep_view();
            self.state.push(pair);
            proof {
                assert(self.state.deep_view() =~= state_before.push(pair.deep_view()));
                assert(self.state.deep_view().drop_last() =~= state_before);
                assert(self.state.deep_view().last() == pair.deep_view());
                assert(self.store() == store_before.insert(longer.last().0, longer.last().1));
            }
            i += 1;
        }
        proof {
            assert(entries.deep_view().take(entries.len() as int) =~= entries.deep_view());
        }
        Ok(())
    }

    fn delete_state_entries(&mut self, addresses: &[String]) -> (r: Result<
        Vec<String>,
        SimpleStateError,
    >) {
        let mut deleted: Vec<String> = Vec::new();
        let mut i: usize = 0;
        proof {
            assert(deleted.deep_view() =~= Seq::<Seq<char>>::empty());
        }
        while i < addresses.len()
            invariant
                i <= addresses.len(),
                addresses.deep_view().len() == addresses@.len(),
                addresses@.len() == addresses.len(),
                (self.store(), deleted.deep_view()) == delete_all(
                    old(self).store(),
                    addresses.deep_view().take(i as int),
                ),
            decreases addresses.len() - i,
        {
            let ghost prefix = addresses.deep_view().take(i as int);
            let ghost longer = addresses.deep_view().take(i as int + 1);
            proof {
                assert(longer.drop_last() =~= prefix);
                assert(longer.last() == addresses.deep_view()[i as int]);
            }
            let addr = &addresses[i];
            if self.contains_addr(addr) {
                self.remove_addr(addr);
                deleted.push(addr.clone());
                proof {
                    assert(deleted.deep_view() =~= delete_all(
                        old(self).store(),
                        prefix,
                    ).1.push(longer.last()));
                }
            }
            i += 1;
        }
        proof {
            assert(addresses.deep_view().take(addresses@.len() as int)
                =~= addresses.deep_view());
        }
        Ok(deleted)
    }
}

} // verus!
