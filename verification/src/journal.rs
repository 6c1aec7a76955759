use vstd::prelude::*;

use crate::address::{Address, Owner, bytes32_eq, derive_entry_address, entry_address_for};
use crate::counter::{
    JournalId, counter_of, counters_unique, lemma_counter_of_absent, lemma_counter_of_present,
    lemma_counter_of_push, lemma_counter_of_update,
};
use crate::errors::CrudError;
use crate::index::{
    JournalIndex, has_addr, index_of, indexes_unique, lemma_index_of_absent,
    lemma_index_of_position, lemma_index_of_present, lemma_index_of_push, lemma_index_of_remove,
};
use crate::store::{
    EntryStore, JournalEntryState, StoredEntry, entry_of, lemma_entry_of_present,
    lemma_entry_of_push, lemma_live_count_absent, lemma_live_count_pos, lemma_live_count_push,
    live_count,
};
use crate::{ENTRY_SPACE, INDEX_CAPACITY, INDEX_SPACE, MESSAGE_MAX, TITLE_MAX};

verus! {

/// Storage space handed back to an owner when a record is destroyed.
#[derive(Clone, Copy, Debug)]
pub struct Reclaim {
    pub owner: Owner,
    pub bytes: u64,
}

/// The id the next successful create for `o` will mint: the owner's counter
/// value, or 0 before the owner has a counter.
pub open spec fn cur_id(cs: Seq<JournalId>, o: Seq<u8>) -> u64 {
    match counter_of(cs, o) {
        None => 0,
        Some(v) => v,
    }
}

/// How many addresses the owner's index lists, or 0 before the owner has one.
pub open spec fn index_len(ixs: Seq<JournalIndex>, o: Seq<u8>) -> nat {
    match index_of(ixs, o) {
        None => 0,
        Some(ix) => ix.entries@.len(),
    }
}

/// What a create by `owner` returns in state `j`: the derived address of the
/// new entry, or the failure that stops it — a full index, no viable derived
/// address, an occupied address, or an exhausted id counter, checked in that
/// order before anything is written.
pub open spec fn create_outcome(j: Journal, owner: Owner) -> Result<Seq<u8>, CrudError> {
    let o = owner@;
    let id = cur_id(j.counters@, o);
    if index_len(j.indexes@, o) >= INDEX_CAPACITY {
        Err(CrudError::IndexFull)
    } else {
        match entry_address_for(o, id) {
            None => Err(CrudError::AddressUnavailable),
            Some(a) => if entry_of(j.store.entries@, a) is Some {
                Err(CrudError::AlreadyExists)
            } else if id == u64::MAX {
                Err(CrudError::IdOverflow)
            } else {
                Ok(a)
            },
        }
    }
}

/// The whole journal state: every owner's id counter, every owner's index,
/// and the store of live entries. The well-formedness invariant ties the
/// three together: each owner appears at most once per collection, every
/// indexed address resolves to a live entry of that owner, index lengths
/// equal live counts, and every live entry is indexed, counted below its
/// owner's counter, and stored at its derived address.
pub struct Journal {
    pub counters: Vec<JournalId>,
    pub indexes: Vec<JournalIndex>,
    pub store: EntryStore,
}

impl Journal {
    /// The cross-collection invariant that every operation preserves.
    pub open spec fn wf(self) -> bool {
        &&& counters_unique(self.counters@)
        &&& indexes_unique(self.indexes@)
        &&& self.store.wf()
        &&& forall|i: int| 0 <= i < self.indexes@.len() ==> (#[trigger] self.indexes@[i]).wf()
        &&& forall|i: int, k: int|
            0 <= i < self.indexes@.len() && 0 <= k < self.indexes@[i].entries@.len() ==> (
            entry_of(
                self.store.entries@,
                (#[trigger] self.indexes@[i].entries@[k])@,
            ) matches Some(e) && e.owner@ == self.indexes@[i].owner@)
        &&& forall|i: int|
            0 <= i < self.indexes@.len() ==> (#[trigger] self.indexes@[i]).entries@.len()
                == live_count(self.store.entries@, self.indexes@[i].owner@)
        &&& forall|j: int|
            0 <= j < self.store.entries@.len() ==> {
                let se = #[trigger] self.store.entries@[j];
                &&& index_of(self.indexes@, se.state.owner@) matches Some(ix) && has_addr(
                    ix.entries@,
                    se.address@,
                )
                &&& counter_of(self.counters@, se.state.owner@) matches Some(c) && se.state.id < c
                &&& entry_address_for(se.state.owner@, se.state.id) == Some(se.address@)
            }
    }

    /// A journal with no owners, no indexes and no entries.
    pub fn new() -> (r: Journal)
        ensures
            r.wf(),
            r.counters@.len() == 0,
            r.indexes@.len() == 0,
            r.store.entries@.len() == 0,
    {
        Journal { counters: Vec::new(), indexes: Vec::new(), store: EntryStore::new() }
    }

    /// The position of the owner's counter, if the owner has one.
    #[verifier::loop_isolation(false)]
    fn find_counter_pos(&self, owner: &Owner) -> (r: Option<usize>)
        requires
            counters_unique(self.counters@),
        ensures
            match r {
                Some(i) => i < self.counters@.len() && self.counters@[i as int].owner@ == owner@
                    && counter_of(self.counters@, owner@) == Some(
                    self.counters@[i as int].next_id,
                ),
                None => counter_of(self.counters@, owner@) is None,
            },
    {
        let mut i: usize = 0;
        while i < self.counters.len()
            invariant
                0 <= i <= self.counters@.len(),
                forall|k: int| 0 <= k < i ==> self.counters@[k].owner@ != owner@,
            decreases self.counters@.len() - i,
        {
            if bytes32_eq(&self.counters[i].owner.bytes, &owner.bytes) {
                proof {
                    lemma_counter_of_present(self.counters@, i as int);
                }
                return Some(i);
            }
            i = i + 1;
        }
        proof {
            lemma_counter_of_absent(self.counters@, owner@);
        }
        None
    }

    /// The position of the owner's index, if the owner has one.
    #[verifier::loop_isolation(false)]
    fn find_index_pos(&self, owner: &Owner) -> (r: Option<usize>)
        requires
            indexes_unique(self.indexes@),
        ensures
            match r {
                Some(i) => i < self.indexes@.len() && self.indexes@[i as int].owner@ == owner@
                    && index_of(self.indexes@, owner@) == Some(self.indexes@[i as int]),
                None => index_of(self.indexes@, owner@) is None,
            },
    {
        let mut i: usize = 0;
        while i < self.indexes.len()
            invariant
                0 <= i <= self.indexes@.len(),
                forall|k: int| 0 <= k < i ==> self.indexes@[k].owner@ != owner@,
            decreases self.indexes@.len() - i,
        {
            if bytes32_eq(&self.indexes[i].owner.bytes, &owner.bytes) {
                proof {
                    lemma_index_of_present(self.indexes@, i as int);
                }
                return Some(i);
            }
            i = i + 1;
        }
        proof {
            lemma_index_of_absent(self.indexes@, owner@);
        }
        None
    }

    /// The owner's next entry id, if the owner has a counter.
    pub fn counter_next_id(&self, owner: &Owner) -> (r: Option<u64>)
        requires
            self.wf(),
        ensures
            r == counter_of(self.counters@, owner@),
    {
        match self.find_counter_pos(owner) {
            Some(i) => Some(self.counters[i].next_id),
            None => None,
        }
    }

    /// Whether the owner currently has an index.
    pub fn has_index(&self, owner: &Owner) -> (r: bool)
        requires
            self.wf(),
        ensures
            r == (index_of(self.indexes@, owner@) is Some),
    {
        self.find_index_pos(owner).is_some()
    }

    /// How many addresses the owner's index lists, if the owner has one.
    pub fn index_entry_count(&self, owner: &Owner) -> (r: Option<usize>)
        requires
            self.wf(),
        ensures
            match r {
                Some(n) => index_of(self.indexes@, owner@) matches Some(ix) && n
                    == ix.entries@.len(),
                None => index_of(self.indexes@, owner@) is None,
            },
    {
        match self.find_index_pos(owner) {
            Some(i) => Some(self.indexes[i].len()),
            None => None,
        }
    }

    /// Whether the owner's index lists the given address.
    pub fn index_contains(&self, owner: &Owner, address: &Address) -> (r: bool)
        requires
            self.wf(),
        ensures
            r == (index_of(self.indexes@, owner@) matches Some(ix) && has_addr(
                ix.entries@,
                address@,
            )),
    {
        match self.find_index_pos(owner) {
            Some(i) => self.indexes[i].contains(address),
            None => false,
        }
    }

    /// The live entry at the given address, if any.
    pub fn get_entry(&self, address: &Address) -> (r: Option<&JournalEntryState>)
        requires
            self.wf(),
        ensures
            match r {
                Some(e) => entry_of(self.store.entries@, address@) == Some(*e),
                None => entry_of(self.store.entries@, address@) is None,
            },
    {
        self.store.get(address)
    }

    /// Creates a journal entry for `owner`: mints the owner's next id, derives
    /// the entry's address from it, stores the record there, appends the
    /// address to the owner's index (claiming a fresh index on first use) and
    /// advances the counter — or fails with the outcome's error before
    /// anything at all is written.
    #[verifier::rlimit(80)]
    pub fn create_journal_entry(&mut self, owner: Owner, title: String, message: String) -> (r:
        Result<Address, CrudError>)
        requires
            old(self).wf(),
            title@.len() <= TITLE_MAX,
            message@.len() <= MESSAGE_MAX,
        ensures
            final(self).wf(),
            r is Err ==> *final(self) == *old(self),
            match r {
                Ok(a) => create_outcome(*old(self), owner) == Ok::<Seq<u8>, CrudError>(a@),
                Err(e) => create_outcome(*old(self), owner) == Err::<Seq<u8>, CrudError>(e),
            },
            r matches Ok(a) ==> ({
                let o = owner@;
                let id = cur_id(old(self).counters@, o);
                &&& entry_address_for(o, id) == Some(a@)
                &&& entry_of(final(self).store.entries@, a@) == Some(
                    JournalEntryState { owner, id, title, message },
                )
                &&& forall|a2: Seq<u8>|
                    a2 != a@ ==> entry_of(final(self).store.entries@, a2) == entry_of(
                        old(self).store.entries@,
                        a2,
                    )
                &&& counter_of(final(self).counters@, o) == Some((id + 1) as u64)
                &&& forall|o2: Seq<u8>|
                    o2 != o ==> counter_of(final(self).counters@, o2) == counter_of(
                        old(self).counters@,
                        o2,
                    )
                &&& index_of(final(self).indexes@, o) matches Some(ix) && ix.owner@ == o
                    && ix.entries@ == (match index_of(old(self).indexes@, o) {
                    None => Seq::<Address>::empty(),
                    Some(oix) => oix.entries@,
                }).push(a)
                &&& forall|o2: Seq<u8>|
                    o2 != o ==> index_of(final(self).indexes@, o2) == index_of(
                        old(self).indexes@,
                        o2,
                    )
            }),
    {
        let ghost o = owner@;
        let idx_pos = self.find_index_pos(&owner);
        let cur_len: usize = match idx_pos {
            Some(i) => self.indexes[i].len(),
            None => 0,
        };
        if cur_len >= INDEX_CAPACITY {
            return Err(CrudError::IndexFull);
        }
        let cnt_pos = self.find_counter_pos(&owner);
        let id: u64 = match cnt_pos {
            Some(i) => self.counters[i].next_id,
            None => 0,
        };
        proof {
            assert(id == cur_id(self.counters@, o));
            assert(cur_len == index_len(self.indexes@, o));
        }
        let addr = match derive_entry_address(&owner, id) {
            Some(a) => a,
            None => {
                return Err(CrudError::AddressUnavailable);
            },
        };
        if self.store.get(&addr).is_some() {
            return Err(CrudError::AlreadyExists);
        }
        if id == u64::MAX {
            return Err(CrudError::IdOverflow);
        }

        // Everything is validated; from here on nothing can fail.
        let ghost old_store = self.store.entries@;
        let ghost old_counters = self.counters@;
        let ghost old_indexes = self.indexes@;
        let ghost se = StoredEntry {
            address: addr,
            state: JournalEntryState { owner, id, title, message },
        };
        proof {
            assert forall|p: int| 0 <= p < old_store.len() implies old_store[p].address@
                != addr@ by {
                if old_store[p].address@ == addr@ {
                    lemma_entry_of_present(old_store, p);
                }
            }
        }
        let _ = self.store.create(addr, owner, id, title, message);
        proof {
            assert(self.store.entries@ == old_store.push(se));
            assert forall|a2: Seq<u8>| true implies #[trigger] entry_of(self.store.entries@, a2)
                == (if a2 == addr@ {
                Some(se.state)
            } else {
                entry_of(old_store, a2)
            }) by {
                lemma_entry_of_push(old_store, se, a2);
            }
            assert forall|o2: Seq<u8>| true implies #[trigger] live_count(self.store.entries@, o2)
                == live_count(old_store, o2) + (if o2 == o {
                1nat
            } else {
                0nat
            }) by {
                lemma_live_count_push(old_store, se, o2);
            }
        }

        // Index: append the new address, claiming a fresh index on first use.
        let ghost mid_indexes: Seq<JournalIndex>;
        match idx_pos {
            Some(i) => {
                let mut ix = self.indexes.remove(i);
                proof {
                    mid_indexes = old_indexes.remove(i as int);
                    assert(ix == old_indexes[i as int]);
                    assert(ix.wf());
                    assert forall|k: int| 0 <= k < ix.entries@.len() implies ix.entries@[k]@
                        != addr@ by {
                        assert(entry_of(old_store, (old_indexes[i as int].entries@[k])@) matches
                            Some(_e));
                    }
                    assert(!has_addr(ix.entries@, addr@));
                }
                let _ = ix.add(addr);
                self.indexes.push(ix);
            },
            None => {
                let mut ix = JournalIndex::new();
                let _ = ix.ensure_owner(&owner);
                let _ = ix.add(addr);
                proof {
                    mid_indexes = old_indexes;
                    assert(ix.owner == owner);
                    assert(ix.entries@ =~= Seq::<Address>::empty().push(addr));
                }
                self.indexes.push(ix);
            },
        }
        proof {
            // In both cases the new index list is `mid_indexes` — which holds
            // no index of `o` — with the owner's updated index appended.
            let ixs2 = self.indexes@;
            let ix2 = ixs2.last();
            assert(ix2.owner@ == o);
            assert(ix2.wf());
            assert(ixs2 == mid_indexes.push(ix2));
            assert(ix2.entries@ == (match index_of(old_indexes, o) {
                None => Seq::<Address>::empty(),
                Some(oix) => oix.entries@,
            }).push(addr));
            if idx_pos is Some {
                let i = idx_pos->Some_0 as int;
                assert forall|p: int, q: int|
                    0 <= p < q < mid_indexes.len() implies mid_indexes[p].owner@
                    != mid_indexes[q].owner@ by {
                    let p0: int = if p < i {
                        p
                    } else {
                        p + 1
                    };
                    let q0: int = if q < i {
                        q
                    } else {
                        q + 1
                    };
                    assert(mid_indexes[p] == old_indexes[p0]);
                    assert(mid_indexes[q] == old_indexes[q0]);
                }
                assert forall|p: int| 0 <= p < mid_indexes.len() implies mid_indexes[p].owner@
                    != o by {
                    let p0: int = if p < i {
                        p
                    } else {
                        p + 1
                    };
                    assert(mid_indexes[p] == old_indexes[p0]);
                    assert(old_indexes[i].owner@ == o);
                }
                assert forall|o2: Seq<u8>| true implies #[trigger] index_of(mid_indexes, o2) == (
                if o2 == o {
                    None
                } else {
                    index_of(old_indexes, o2)
                }) by {
                    lemma_index_of_remove(old_indexes, i, o2);
                }
            } else {
                assert forall|p: int| 0 <= p < mid_indexes.len() implies mid_indexes[p].owner@
                    != o by {
                    if mid_indexes[p].owner@ == o {
                        lemma_index_of_present(old_indexes, p);
                    }
                }
                assert forall|o2: Seq<u8>| true implies #[trigger] index_of(mid_indexes, o2) == (
                if o2 == o {
                    None::<JournalIndex>
                } else {
                    index_of(old_indexes, o2)
                }) by {
                    if o2 == o {
                    }
                }
            }
            assert(indexes_unique(mid_indexes));
            assert(indexes_unique(ixs2));
            assert forall|o2: Seq<u8>| true implies #[trigger] index_of(ixs2, o2) == (if o2 == o {
                Some(ix2)
            } else {
                index_of(old_indexes, o2)
            }) by {
                lemma_index_of_push(mid_indexes, ix2, o2);
            }
        }

        // Counter: advance, creating it at zero on first use.
        match cnt_pos {
            Some(i) => {
                let mut c = self.counters[i];
                let _ = c.mint(&owner);
                self.counters[i] = c;
                proof {
                    assert(self.counters@ == old_counters.update(i as int, c));
                    assert forall|o2: Seq<u8>| true implies #[trigger] counter_of(
                        self.counters@,
                        o2,
                    ) == (if o2 == o {
                        Some((id + 1) as u64)
                    } else {
                        counter_of(old_counters, o2)
                    }) by {
                        lemma_counter_of_update(old_counters, i as int, c, o2);
                    }
                    assert forall|p: int, q: int|
                        0 <= p < q < self.counters@.len() implies self.counters@[p].owner@
                        != self.counters@[q].owner@ by {
                        assert(self.counters@[p] == if p == i as int {
                            c
                        } else {
                            old_counters[p]
                        });
                        assert(self.counters@[q] == if q == i as int {
                            c
                        } else {
                            old_counters[q]
                        });
                    }
                }
            },
            None => {
                let mut c = JournalId::new(owner);
                let _ = c.mint(&owner);
                self.counters.push(c);
                proof {
                    assert(self.counters@ == old_counters.push(c));
                    assert forall|p: int| 0 <= p < old_counters.len() implies
                        old_counters[p].owner@ != o by {
                        if old_counters[p].owner@ == o {
                            lemma_counter_of_present(old_counters, p);
                        }
                    }
                    assert forall|o2: Seq<u8>| true implies #[trigger] counter_of(
                        self.counters@,
                        o2,
                    ) == (if o2 == o {
                        Some((id + 1) as u64)
                    } else {
                        counter_of(old_counters, o2)
                    }) by {
                        lemma_counter_of_push(old_counters, c, o2);
                        if o2 != o && counter_of(old_counters, o2) is None {
                        }
                    }
                    assert(counters_unique(self.counters@));
                }
            },
        }

        // The invariant holds again for the new state.
        proof {
            let st2 = self.store.entries@;
            let ixs2 = self.indexes@;
            let cs2 = self.counters@;
            let ix2 = ixs2.last();
            let n2 = ixs2.len() as int;
            assert forall|p: int| 0 <= p < n2 implies (#[trigger] ixs2[p]).wf() by {
                if p < n2 - 1 {
                    if idx_pos is Some {
                        let i = idx_pos->Some_0 as int;
                        let p0: int = if p < i {
                            p
                        } else {
                            p + 1
                        };
                        assert(ixs2[p] == old_indexes[p0]);
                    } else {
                        assert(ixs2[p] == old_indexes[p]);
                    }
                }
            }
            // Old index lists never mention the fresh address.
            assert forall|p: int, k: int|
                0 <= p < old_indexes.len() && 0 <= k < old_indexes[p].entries@.len() implies (
            #[trigger] old_indexes[p].entries@[k])@ != addr@ by {
                assert(entry_of(old_store, (old_indexes[p].entries@[k])@) matches Some(_e));
            }
            assert forall|p: int, k: int|
                0 <= p < n2 && 0 <= k < ixs2[p].entries@.len() implies entry_of(
                st2,
                (#[trigger] ixs2[p].entries@[k])@,
            ) matches Some(e) && e.owner@ == ixs2[p].owner@ by {
                if p < n2 - 1 {
                    if idx_pos is Some {
                        let i = idx_pos->Some_0 as int;
                        let p0: int = if p < i {
                            p
                        } else {
                            p + 1
                        };
                        assert(ixs2[p] == old_indexes[p0]);
                        assert(entry_of(old_store, (old_indexes[p0].entries@[k])@) matches
                            Some(_e0));
                    } else {
                        assert(ixs2[p] == old_indexes[p]);
                        assert(entry_of(old_store, (old_indexes[p].entries@[k])@) matches
                            Some(_e0));
                    }
                } else {
                    assert(ixs2[p] == ix2);
                    if k < ix2.entries@.len() - 1 {
                        if idx_pos is Some {
                            let i = idx_pos->Some_0 as int;
                            assert(ix2.entries@[k] == old_indexes[i].entries@[k]);
                            assert(entry_of(old_store, (old_indexes[i].entries@[k])@) matches
                                Some(_e0));
                        }
                    } else {
                        assert(ix2.entries@[k] == addr);
                    }
                }
            }
            // Index lengths still equal live counts.
            assert forall|p: int| 0 <= p < n2 implies (#[trigger] ixs2[p]).entries@.len()
                == live_count(st2, ixs2[p].owner@) by {
                if p < n2 - 1 {
                    if idx_pos is Some {
                        let i = idx_pos->Some_0 as int;
                        let p0: int = if p < i {
                            p
                        } else {
                            p + 1
                        };
                        assert(ixs2[p] == old_indexes[p0]);
                        assert(ixs2[p].owner@ != o);
                    } else {
                        assert(ixs2[p] == old_indexes[p]);
                        assert(ixs2[p].owner@ != o);
                    }
                } else {
                    assert(ixs2[p] == ix2);
                    if idx_pos is Some {
                        let i = idx_pos->Some_0 as int;
                        assert(old_indexes[i].entries@.len() == live_count(old_store, o));
                    } else {
                        assert forall|j: int| 0 <= j < old_store.len() implies
                            old_store[j].state.owner@ != o by {
                            if old_store[j].state.owner@ == o {
                                assert(index_of(old_indexes, o) matches Some(_ix0));
                            }
                        }
                        lemma_live_count_absent(old_store, o);
                    }
                }
            }
            // Every stored record is indexed, counted and derived.
            assert forall|j: int| 0 <= j < st2.len() implies ({
                let se2 = #[trigger] st2[j];
                &&& index_of(ixs2, se2.state.owner@) matches Some(ix) && has_addr(
                    ix.entries@,
                    se2.address@,
                )
                &&& counter_of(cs2, se2.state.owner@) matches Some(cc) && se2.state.id < cc
                &&& entry_address_for(se2.state.owner@, se2.state.id) == Some(se2.address@)
            }) by {
                if j < old_store.len() {
                    let se2 = old_store[j];
                    assert(st2[j] == se2);
                    if se2.state.owner@ == o {
                        assert(counter_of(old_counters, o) matches Some(c0) && se2.state.id < c0);
                        assert(counter_of(old_counters, o) == Some(id));
                        assert(index_of(old_indexes, o) matches Some(oix) && has_addr(
                            oix.entries@,
                            se2.address@,
                        ));
                        if idx_pos is Some {
                            let i = idx_pos->Some_0 as int;
                            assert(index_of(old_indexes, o) == Some(old_indexes[i]));
                            let k = choose|k: int|
                                0 <= k < old_indexes[i].entries@.len()
                                    && old_indexes[i].entries@[k]@ == se2.address@;
                            assert(ix2.entries@[k] == old_indexes[i].entries@[k]);
                            assert(has_addr(ix2.entries@, se2.address@));
                        }
                    } else {
                        assert(index_of(ixs2, se2.state.owner@) == index_of(
                            old_indexes,
                            se2.state.owner@,
                        ));
                        assert(counter_of(cs2, se2.state.owner@) == counter_of(
                            old_counters,
                            se2.state.owner@,
                        ));
                    }
                } else {
                    assert(st2[j] == se);
                    assert(ix2.entries@.last() == addr);
                    assert(has_addr(ix2.entries@, addr@));
                }
            }
            assert(self.wf());
        }
        Ok(addr)
    }

    /// Replaces the message of the entry at `address`, owner, id and title
    /// untouched. Fails `NotFound` when no entry lives there and
    /// `OwnerMismatch` when the caller does not own it; either failure
    /// changes nothing at all.
    pub fn update_journal_entry(&mut self, caller: Owner, address: Address, message: String) -> (r:
        Result<(), CrudError>)
        requires
            old(self).wf(),
            message@.len() <= MESSAGE_MAX,
        ensures
            final(self).wf(),
            final(self).counters == old(self).counters,
            final(self).indexes == old(self).indexes,
            match entry_of(old(self).store.entries@, address@) {
                None => r == Err::<(), CrudError>(CrudError::NotFound) && *final(self) == *old(
                    self,
                ),
                Some(e) => if e.owner@ != caller@ {
                    r == Err::<(), CrudError>(CrudError::OwnerMismatch) && *final(self) == *old(
                        self,
                    )
                } else {
                    r == Ok::<(), CrudError>(()) && entry_of(final(self).store.entries@, address@)
                        == Some(
                        JournalEntryState { owner: e.owner, id: e.id, title: e.title, message },
                    ) && (forall|a2: Seq<u8>|
                        a2 != address@ ==> entry_of(final(self).store.entries@, a2) == entry_of(
                            old(self).store.entries@,
                            a2,
                        ))
                },
            },
    {
        let r = self.store.update(&address, &caller, message);
        proof {
            let old_store = old(self).store.entries@;
            if entry_of(old_store, address@) is Some && entry_of(old_store, address@)->Some_0.owner@
                == caller@ {
                let e = entry_of(old_store, address@)->Some_0;
                let st2 = self.store.entries@;
                let p = choose|p: int|
                    0 <= p < old_store.len() && old_store[p].state == e && old_store[p].address@
                        == address@ && st2 == old_store.update(
                        p,
                        StoredEntry {
                            address: old_store[p].address,
                            state: JournalEntryState {
                                owner: e.owner,
                                id: e.id,
                                title: e.title,
                                message,
                            },
                        },
                    );
                assert forall|i: int, k: int|
                    0 <= i < self.indexes@.len() && 0 <= k < self.indexes@[i].entries@.len()
                        implies entry_of(
                    st2,
                    (#[trigger] self.indexes@[i].entries@[k])@,
                ) matches Some(e2) && e2.owner@ == self.indexes@[i].owner@ by {
                    let x = (self.indexes@[i].entries@[k])@;
                    assert(entry_of(old_store, x) matches Some(_e0));
                    if x == address@ {
                    }
                }
                assert forall|j: int| 0 <= j < st2.len() implies ({
                    let se2 = #[trigger] st2[j];
                    &&& index_of(self.indexes@, se2.state.owner@) matches Some(ix) && has_addr(
                        ix.entries@,
                        se2.address@,
                    )
                    &&& counter_of(self.counters@, se2.state.owner@) matches Some(c) && se2.state.id
                        < c
                    &&& entry_address_for(se2.state.owner@, se2.state.id) == Some(se2.address@)
                }) by {
                    if j != p {
                        assert(st2[j] == old_store[j]);
                    } else {
                        assert(old_store[p].state == e);
                        assert(st2[p].state.owner == e.owner && st2[p].state.id == e.id);
                        assert(st2[p].address == old_store[p].address);
                    }
                }
                assert(self.wf());
            }
        }
        r
    }

    /// Destroys the entry at `address` and takes its address out of the
    /// caller's index; when that leaves the index empty the index itself is
    /// destroyed. The freed storage is credited to the caller in the returned
    /// `Reclaim`; the caller's id counter survives untouched. Fails
    /// `NotFound` when no entry lives there and `OwnerMismatch` when the
    /// caller does not own it; either failure changes nothing at all.
    #[verifier::rlimit(80)]
    pub fn delete_journal_entry(&mut self, caller: Owner, address: Address) -> (r: Result<
        Reclaim,
        CrudError,
    >)
        requires
            old(self).wf(),
        ensures
            final(self).wf(),
            final(self).counters == old(self).counters,
            r is Err ==> *final(self) == *old(self),
            match entry_of(old(self).store.entries@, address@) {
                None => r == Err::<Reclaim, CrudError>(CrudError::NotFound),
                Some(e) => if e.owner@ != caller@ {
                    r == Err::<Reclaim, CrudError>(CrudError::OwnerMismatch)
                } else {
                    &&& entry_of(final(self).store.entries@, address@) is None
                    &&& forall|a2: Seq<u8>|
                        a2 != address@ ==> entry_of(final(self).store.entries@, a2) == entry_of(
                            old(self).store.entries@,
                            a2,
                        )
                    &&& live_count(final(self).store.entries@, caller@) + 1 == live_count(
                        old(self).store.entries@,
                        caller@,
                    )
                    &&& (if live_count(old(self).store.entries@, caller@) == 1 {
                        index_of(final(self).indexes@, caller@) is None && r == Ok::<
                            Reclaim,
                            CrudError,
                        >(Reclaim { owner: caller, bytes: (ENTRY_SPACE + INDEX_SPACE) as u64 })
                    } else {
                        (index_of(final(self).indexes@, caller@) matches Some(ix) && ix.owner@
                            == caller@ && ix.entries@.len() + 1 == index_len(
                            old(self).indexes@,
                            caller@,
                        ) && !has_addr(ix.entries@, address@)) && r == Ok::<Reclaim, CrudError>(
                            Reclaim { owner: caller, bytes: ENTRY_SPACE },
                        )
                    })
                    &&& forall|o2: Seq<u8>|
                        o2 != caller@ ==> index_of(final(self).indexes@, o2) == index_of(
                            old(self).indexes@,
                            o2,
                        )
                },
            },
    {
        let ghost o = caller@;
        let ghost old_store = self.store.entries@;
        let ghost old_indexes = self.indexes@;
        match self.store.delete(&address, &caller) {
            Err(e) => {
                return Err(e);
            },
            Ok(_) => {},
        }
        let ghost e = entry_of(old_store, address@)->Some_0;
        let ghost p = choose|p: int|
            0 <= p < old_store.len() && old_store[p].address@ == address@ && self.store.entries@
                == old_store.remove(p);
        proof {
            lemma_entry_of_present(old_store, p);
            assert(old_store[p].state == e);
            assert(e.owner@ == o);
            assert(index_of(old_indexes, o) matches Some(_ix0));
        }
        let idx_pos = self.find_index_pos(&caller);
        let i: usize = match idx_pos {
            Some(i) => i,
            None => {
                proof {
                    assert(false);
                }
                0
            },
        };
        let ghost old_ix = old_indexes[i as int];
        let mut ix = self.indexes.remove(i);
        proof {
            assert(ix == old_ix);
            assert(ix.wf());
            assert(index_of(old_indexes, o) == Some(old_ix));
            assert(has_addr(old_ix.entries@, address@));
            assert(old_ix.entries@.len() == live_count(old_store, o));
        }
        ix.remove(&address);
        let ghost mid_indexes = old_indexes.remove(i as int);
        proof {
            assert forall|pp: int, qq: int|
                0 <= pp < qq < mid_indexes.len() implies mid_indexes[pp].owner@
                != mid_indexes[qq].owner@ by {
                let p0: int = if pp < i as int {
                    pp
                } else {
                    pp + 1
                };
                let q0: int = if qq < i as int {
                    qq
                } else {
                    qq + 1
                };
                assert(mid_indexes[pp] == old_indexes[p0]);
                assert(mid_indexes[qq] == old_indexes[q0]);
            }
            assert forall|pp: int| 0 <= pp < mid_indexes.len() implies mid_indexes[pp].owner@
                != o by {
                let p0: int = if pp < i as int {
                    pp
                } else {
                    pp + 1
                };
                assert(mid_indexes[pp] == old_indexes[p0]);
            }
            assert(indexes_unique(mid_indexes));
            assert forall|o2: Seq<u8>| true implies #[trigger] index_of(mid_indexes, o2) == (if o2
                == o {
                None
            } else {
                index_of(old_indexes, o2)
            }) by {
                lemma_index_of_remove(old_indexes, i as int, o2);
            }
            // The other owners' records are untouched by the store removal.
            assert forall|a2: Seq<u8>| a2 != address@ implies #[trigger] entry_of(
                self.store.entries@,
                a2,
            ) == entry_of(old_store, a2) by {}
        }
        let destroyed = ix.is_empty();
        let reclaim: Reclaim;
        if destroyed {
            reclaim = Reclaim { owner: caller, bytes: ENTRY_SPACE + INDEX_SPACE };
        } else {
            self.indexes.push(ix);
            reclaim = Reclaim { owner: caller, bytes: ENTRY_SPACE };
        }
        proof {
            let st2 = self.store.entries@;
            let ixs2 = self.indexes@;
            // How each owner's index looks afterwards.
            if destroyed {
                assert(ixs2 == mid_indexes);
            } else {
                assert(ixs2 == mid_indexes.push(ix));
                assert(ix.owner@ == o);
                assert forall|o2: Seq<u8>| true implies #[trigger] index_of(ixs2, o2) == (if o2
                    == o {
                    Some(ix)
                } else {
                    index_of(old_indexes, o2)
                }) by {
                    lemma_index_of_push(mid_indexes, ix, o2);
                }
                assert(indexes_unique(ixs2));
            }
            // Old index lists of other owners never listed the freed address.
            assert forall|pp: int, k: int|
                0 <= pp < old_indexes.len() && 0 <= k < old_indexes[pp].entries@.len() && pp
                    != i as int implies (#[trigger] old_indexes[pp].entries@[k])@ != address@ by {
                assert(entry_of(old_store, (old_indexes[pp].entries@[k])@) matches Some(e0)
                    && e0.owner@ == old_indexes[pp].owner@);
                assert(old_indexes[pp].owner@ != o);
            }
            assert forall|pp: int| 0 <= pp < ixs2.len() implies (#[trigger] ixs2[pp]).wf() by {
                if pp < mid_indexes.len() {
                    let p0: int = if pp < i as int {
                        pp
                    } else {
                        pp + 1
                    };
                    assert(ixs2[pp] == old_indexes[p0]);
                }
            }
            assert forall|pp: int, k: int|
                0 <= pp < ixs2.len() && 0 <= k < ixs2[pp].entries@.len() implies entry_of(
                st2,
                (#[trigger] ixs2[pp].entries@[k])@,
            ) matches Some(e2) && e2.owner@ == ixs2[pp].owner@ by {
                if pp < mid_indexes.len() {
                    let p0: int = if pp < i as int {
                        pp
                    } else {
                        pp + 1
                    };
                    assert(ixs2[pp] == old_indexes[p0]);
                    let x = (old_indexes[p0].entries@[k])@;
                    assert(entry_of(old_store, x) matches Some(_e0));
                    assert(x != address@);
                } else {
                    assert(ixs2[pp] == ix);
                    let x = (ix.entries@[k])@;
                    assert(has_addr(ix.entries@, x));
                    assert(has_addr(old_ix.entries@, x) && x != address@);
                    let k0 = choose|k0: int|
                        0 <= k0 < old_ix.entries@.len() && old_ix.entries@[k0]@ == x;
                    assert(entry_of(old_store, x) matches Some(_e0));
                }
            }
            assert forall|pp: int| 0 <= pp < ixs2.len() implies (#[trigger] ixs2[pp]).entries@.len()
                == live_count(st2, ixs2[pp].owner@) by {
                if pp < mid_indexes.len() {
                    let p0: int = if pp < i as int {
                        pp
                    } else {
                        pp + 1
                    };
                    assert(ixs2[pp] == old_indexes[p0]);
                    assert(ixs2[pp].owner@ != o);
                    assert(live_count(st2, ixs2[pp].owner@) == live_count(
                        old_store,
                        ixs2[pp].owner@,
                    ));
                } else {
                    assert(ixs2[pp] == ix);
                    assert(ix.entries@.len() + 1 == old_ix.entries@.len());
                    assert(live_count(st2, o) + 1 == live_count(old_store, o));
                }
            }
            assert forall|j: int| 0 <= j < st2.len() implies ({
                let se2 = #[trigger] st2[j];
                &&& index_of(ixs2, se2.state.owner@) matches Some(ixj) && has_addr(
                    ixj.entries@,
                    se2.address@,
                )
                &&& counter_of(self.counters@, se2.state.owner@) matches Some(c) && se2.state.id
                    < c
                &&& entry_address_for(se2.state.owner@, se2.state.id) == Some(se2.address@)
            }) by {
                let j0: int = if j < p {
                    j
                } else {
                    j + 1
                };
                let se2 = old_store[j0];
                assert(st2[j] == se2);
                assert(j0 != p);
                assert(se2.address@ != address@);
                if se2.state.owner@ == o {
                    if destroyed {
                        lemma_live_count_pos(st2, j, o);
                        assert(live_count(st2, o) == 0);
                        assert(false);
                    } else {
                        assert(index_of(ixs2, o) == Some(ix));
                        assert(has_addr(old_ix.entries@, se2.address@));
                        assert(has_addr(ix.entries@, se2.address@));
                    }
                } else {
                    assert(index_of(ixs2, se2.state.owner@) == index_of(
                        old_indexes,
                        se2.state.owner@,
                    ));
                }
            }
            if destroyed {
                assert(live_count(old_store, o) == 1);
            } else {
                assert(live_count(old_store, o) != 1);
            }
            assert(self.wf());
        }
        Ok(reclaim)
    }
}

/// For every owner, the index — when it exists — lists exactly as many
/// addresses as the owner has live entries, and every listed address resolves
/// to a live entry of that owner; an owner without an index has no live
/// entries at all.
pub proof fn lemma_index_matches_store(j: Journal, o: Seq<u8>)
    requires
        j.wf(),
    ensures
        match index_of(j.indexes@, o) {
            Some(ix) => ix.owner@ == o && ix.entries@.len() == live_count(j.store.entries@, o)
                && forall|k: int|
                0 <= k < ix.entries@.len() ==> (entry_of(
                    j.store.entries@,
                    (#[trigger] ix.entries@[k])@,
                ) matches Some(e) && e.owner@ == o),
            None => live_count(j.store.entries@, o) == 0,
        },
{
    if index_of(j.indexes@, o) is Some {
        lemma_index_of_position(j.indexes@, o);
        let i = choose|i: int|
            0 <= i < j.indexes@.len() && j.indexes@[i] == index_of(j.indexes@, o)->Some_0
                && j.indexes@[i].owner@ == o;
        assert(j.indexes@[i].entries@.len() == live_count(j.store.entries@, j.indexes@[i].owner@));
    } else {
        assert forall|k: int| 0 <= k < j.store.entries@.len() implies
            j.store.entries@[k].state.owner@ != o by {
            if j.store.entries@[k].state.owner@ == o {
                assert(index_of(j.indexes@, o) matches Some(_ix));
            }
        }
        lemma_live_count_absent(j.store.entries@, o);
    }
}

/// Ids are minted in strictly increasing order with no gaps and no reuse: a
/// successful create hands out exactly the owner's counter value and leaves
/// the counter one higher, and deletes and updates never touch a counter, so
/// the id of an owner's next successful create — wherever it happens — is one
/// more than the id of the last.
pub proof fn lemma_id_monotonicity(
    pre1: Seq<JournalId>,
    id1: u64,
    post1: Seq<JournalId>,
    pre2: Seq<JournalId>,
    id2: u64,
    o: Seq<u8>,
)
    requires
        id1 == cur_id(pre1, o),
        id1 < u64::MAX,
        counter_of(post1, o) == Some((id1 + 1) as u64),
        counter_of(pre2, o) == counter_of(post1, o),
        id2 == cur_id(pre2, o),
    ensures
        id2 == id1 + 1,
{
}

} // verus!
