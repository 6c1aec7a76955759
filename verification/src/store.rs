use vstd::prelude::*;

use crate::address::{Address, Owner, bytes32_eq};
use crate::errors::CrudError;
use crate::{MESSAGE_MAX, TITLE_MAX};

verus! {

/// One journal entry: who owns it, the id it was minted under, and its
/// bounded title and message. Only the message ever changes after creation.
#[derive(Clone, Debug)]
pub struct JournalEntryState {
    pub owner: Owner,
    pub id: u64,
    pub title: String,
    pub message: String,
}

/// A live record in the store: an entry together with the derived address it
/// lives at.
#[derive(Clone, Debug)]
pub struct StoredEntry {
    pub address: Address,
    pub state: JournalEntryState,
}

/// The entry of `s` living at address `a`, if any.
pub open spec fn entry_of(s: Seq<StoredEntry>, a: Seq<u8>) -> Option<JournalEntryState>
    decreases s.len(),
{
    if s.len() == 0 {
        None
    } else if s[0].address@ == a {
        Some(s[0].state)
    } else {
        entry_of(s.drop_first(), a)
    }
}

/// No two records of `s` live at the same address.
pub open spec fn store_addrs_unique(s: Seq<StoredEntry>) -> bool {
    forall|i: int, j: int| 0 <= i < j < s.len() ==> s[i].address@ != s[j].address@
}

/// How many records of `s` belong to owner `o`.
pub open spec fn live_count(s: Seq<StoredEntry>, o: Seq<u8>) -> nat
    decreases s.len(),
{
    if s.len() == 0 {
        0
    } else {
        (if s[0].state.owner@ == o {
            1nat
        } else {
            0nat
        }) + live_count(s.drop_first(), o)
    }
}

/// Under uniqueness, the record at position `i` is the one `entry_of` finds
/// at its address.
pub proof fn lemma_entry_of_present(s: Seq<StoredEntry>, i: int)
    requires
        store_addrs_unique(s),
        0 <= i < s.len(),
    ensures
        entry_of(s, s[i].address@) == Some(s[i].state),
    decreases s.len(),
{
    if i == 0 {
    } else {
        assert(s[0].address@ != s[i].address@);
        assert(s.drop_first()[i - 1] == s[i]);
        lemma_entry_of_present(s.drop_first(), i - 1);
    }
}

/// An address that no record lives at has no entry.
pub proof fn lemma_entry_of_absent(s: Seq<StoredEntry>, a: Seq<u8>)
    requires
        forall|i: int| 0 <= i < s.len() ==> s[i].address@ != a,
    ensures
        entry_of(s, a) is None,
    decreases s.len(),
{
    if s.len() > 0 {
        assert(forall|i: int|
            0 <= i < s.drop_first().len() ==> s.drop_first()[i].address@ != a);
        lemma_entry_of_absent(s.drop_first(), a);
    }
}

/// Appending a record changes `entry_of` only at its address, and only when
/// that address was free.
pub proof fn lemma_entry_of_push(s: Seq<StoredEntry>, e: StoredEntry, a: Seq<u8>)
    ensures
        entry_of(s.push(e), a) == (if entry_of(s, a) is Some {
            entry_of(s, a)
        } else if e.address@ == a {
            Some(e.state)
        } else {
            None
        }),
    decreases s.len(),
{
    if s.len() == 0 {
        assert(s.push(e)[0] == e);
        assert(s.push(e).drop_first() =~= Seq::<StoredEntry>::empty());
        assert(entry_of(Seq::<StoredEntry>::empty(), a) is None);
    } else {
        assert(s.push(e)[0] == s[0]);
        assert(s.push(e).drop_first() =~= s.drop_first().push(e));
        lemma_entry_of_push(s.drop_first(), e, a);
        if s[0].address@ == a {
            assert(entry_of(s.push(e), a) == Some(s[0].state));
        } else {
            assert(entry_of(s, a) == entry_of(s.drop_first(), a));
            assert(entry_of(s.push(e), a) == entry_of(s.drop_first().push(e), a));
        }
    }
}

/// Removing the record at position `i` frees its address and leaves every
/// other address untouched.
pub proof fn lemma_entry_of_remove(s: Seq<StoredEntry>, i: int, a: Seq<u8>)
    requires
        store_addrs_unique(s),
        0 <= i < s.len(),
    ensures
        entry_of(s.remove(i), a) == (if s[i].address@ == a {
            None
        } else {
            entry_of(s, a)
        }),
    decreases s.len(),
{
    if i == 0 {
        assert(s.remove(0) =~= s.drop_first());
        if s[0].address@ == a {
            assert(forall|k: int|
                0 <= k < s.drop_first().len() ==> s.drop_first()[k].address@ != a);
            lemma_entry_of_absent(s.drop_first(), a);
        }
    } else {
        assert(s.remove(i)[0] == s[0]);
        assert(s.remove(i).drop_first() =~= s.drop_first().remove(i - 1));
        assert(s.drop_first()[i - 1] == s[i]);
        lemma_entry_of_remove(s.drop_first(), i - 1, a);
        if s[0].address@ == a {
            assert(s[0].address@ != s[i].address@);
            assert(entry_of(s.remove(i), a) == Some(s[0].state));
        }
    }
}

/// Replacing the record at position `i` with one at the same address changes
/// `entry_of` only at that address.
pub proof fn lemma_entry_of_update(s: Seq<StoredEntry>, i: int, e: StoredEntry, a: Seq<u8>)
    requires
        store_addrs_unique(s),
        0 <= i < s.len(),
        s[i].address@ == e.address@,
    ensures
        entry_of(s.update(i, e), a) == (if e.address@ == a {
            Some(e.state)
        } else {
            entry_of(s, a)
        }),
    decreases s.len(),
{
    if i == 0 {
        assert(s.update(i, e)[0] == e);
        if e.address@ == a {
        } else {
            assert(s.update(i, e).drop_first() =~= s.drop_first());
        }
    } else {
        assert(s.update(i, e)[0] == s[0]);
        assert(s.update(i, e).drop_first() =~= s.drop_first().update(i - 1, e));
        assert(s.drop_first()[i - 1] == s[i]);
        lemma_entry_of_update(s.drop_first(), i - 1, e, a);
        if s[0].address@ == a {
            assert(s[0].address@ != s[i].address@);
        }
    }
}

/// Appending a record raises its owner's live count by one and no other's.
pub proof fn lemma_live_count_push(s: Seq<StoredEntry>, e: StoredEntry, o: Seq<u8>)
    ensures
        live_count(s.push(e), o) == live_count(s, o) + (if e.state.owner@ == o {
            1nat
        } else {
            0nat
        }),
    decreases s.len(),
{
    if s.len() == 0 {
        assert(s.push(e)[0] == e);
        assert(s.push(e).drop_first() =~= Seq::<StoredEntry>::empty());
        assert(live_count(Seq::<StoredEntry>::empty(), o) == 0);
        assert(live_count(s, o) == 0);
    } else {
        assert(s.push(e)[0] == s[0]);
        assert(s.push(e).drop_first() =~= s.drop_first().push(e));
        lemma_live_count_push(s.drop_first(), e, o);
    }
}

/// Removing the record at position `i` lowers its owner's live count by one
/// and no other's.
pub proof fn lemma_live_count_remove(s: Seq<StoredEntry>, i: int, o: Seq<u8>)
    requires
        0 <= i < s.len(),
    ensures
        live_count(s.remove(i), o) + (if s[i].state.owner@ == o {
            1nat
        } else {
            0nat
        }) == live_count(s, o),
    decreases s.len(),
{
    if i == 0 {
        assert(s.remove(0) =~= s.drop_first());
    } else {
        assert(s.remove(i)[0] == s[0]);
        assert(s.remove(i).drop_first() =~= s.drop_first().remove(i - 1));
        assert(s.drop_first()[i - 1] == s[i]);
        lemma_live_count_remove(s.drop_first(), i - 1, o);
    }
}

/// Replacing the record at position `i` with one of the same owner leaves
/// every live count as it was.
pub proof fn lemma_live_count_update(s: Seq<StoredEntry>, i: int, e: StoredEntry, o: Seq<u8>)
    requires
        0 <= i < s.len(),
        s[i].state.owner@ == e.state.owner@,
    ensures
        live_count(s.update(i, e), o) == live_count(s, o),
    decreases s.len(),
{
    if i == 0 {
        assert(s.update(i, e)[0] == e);
        assert(s.update(i, e).drop_first() =~= s.drop_first());
    } else {
        assert(s.update(i, e)[0] == s[0]);
        assert(s.update(i, e).drop_first() =~= s.drop_first().update(i - 1, e));
        lemma_live_count_update(s.drop_first(), i - 1, e, o);
    }
}

/// An owner with a record at position `i` has a positive live count.
pub proof fn lemma_live_count_pos(s: Seq<StoredEntry>, i: int, o: Seq<u8>)
    requires
        0 <= i < s.len(),
        s[i].state.owner@ == o,
    ensures
        live_count(s, o) >= 1,
    decreases s.len(),
{
    if i == 0 {
    } else {
        assert(s.drop_first()[i - 1] == s[i]);
        lemma_live_count_pos(s.drop_first(), i - 1, o);
    }
}

/// An owner with no record in the store has a live count of zero.
pub proof fn lemma_live_count_absent(s: Seq<StoredEntry>, o: Seq<u8>)
    requires
        forall|i: int| 0 <= i < s.len() ==> s[i].state.owner@ != o,
    ensures
        live_count(s, o) == 0,
    decreases s.len(),
{
    if s.len() > 0 {
        assert(forall|i: int|
            0 <= i < s.drop_first().len() ==> s.drop_first()[i].state.owner@ != o);
        lemma_live_count_absent(s.drop_first(), o);
    }
}

/// The entry store: one record per occupied derived address. Creation fails
/// on an occupied address; update and delete demand the caller be the
/// record's owner, and deletion frees the address for good.
#[derive(Debug)]
pub struct EntryStore {
    pub entries: Vec<StoredEntry>,
}

impl EntryStore {
    /// The store's invariant: addresses are unique and every record's strings
    /// stay within their bounds.
    pub open spec fn wf(self) -> bool {
        &&& store_addrs_unique(self.entries@)
        &&& forall|i: int|
            0 <= i < self.entries@.len() ==> (#[trigger] self.entries@[i]).state.title@.len()
                <= TITLE_MAX && self.entries@[i].state.message@.len() <= MESSAGE_MAX
    }

    /// An empty store.
    pub fn new() -> (r: EntryStore)
        ensures
            r.entries@.len() == 0,
            r.wf(),
    {
        EntryStore { entries: Vec::new() }
    }

    /// The position of the record at `address`, if one lives there.
    #[verifier::loop_isolation(false)]
    fn find_pos(&self, address: &Address) -> (r: Option<usize>)
        requires
            self.wf(),
        ensures
            match r {
                Some(i) => i < self.entries@.len() && self.entries@[i as int].address@ == address@
                    && entry_of(self.entries@, address@) == Some(
                    self.entries@[i as int].state,
                ),
                None => entry_of(self.entries@, address@) is None,
            },
    {
        let mut i: usize = 0;
        while i < self.entries.len()
            invariant
                0 <= i <= self.entries@.len(),
                forall|k: int| 0 <= k < i ==> self.entries@[k].address@ != address@,
            decreases self.entries@.len() - i,
        {
            if bytes32_eq(&self.entries[i].address.bytes, &address.bytes) {
                proof {
                    lemma_entry_of_present(self.entries@, i as int);
                }
                return Some(i);
            }
            i = i + 1;
        }
        proof {
            lemma_entry_of_absent(self.entries@, address@);
        }
        None
    }

    /// The record at `address`, if any.
    pub fn get(&self, address: &Address) -> (r: Option<&JournalEntryState>)
        requires
            self.wf(),
        ensures
            match r {
                Some(e) => entry_of(self.entries@, address@) == Some(*e),
                None => entry_of(self.entries@, address@) is None,
            },
    {
        match self.find_pos(address) {
            Some(i) => Some(&self.entries[i].state),
            None => None,
        }
    }

    /// Stores a new record at `address`. Fails `AlreadyExists`, and changes
    /// nothing, when the address is occupied.
    pub fn create(
        &mut self,
        address: Address,
        owner: Owner,
        id: u64,
        title: String,
        message: String,
    ) -> (r: Result<(), CrudError>)
        requires
            old(self).wf(),
            title@.len() <= TITLE_MAX,
            message@.len() <= MESSAGE_MAX,
        ensures
            final(self).wf(),
            entry_of(old(self).entries@, address@) is Some ==> r == Err::<(), CrudError>(
                CrudError::AlreadyExists,
            ) && *final(self) == *old(self),
            entry_of(old(self).entries@, address@) is None ==> r == Ok::<(), CrudError>(())
                && final(self).entries@ == old(self).entries@.push(
                StoredEntry {
                    address,
                    state: JournalEntryState { owner, id, title, message },
                },
            ),
    {
        if self.find_pos(&address).is_some() {
            return Err(CrudError::AlreadyExists);
        }
        let ghost s = self.entries@;
        let entry = StoredEntry { address, state: JournalEntryState { owner, id, title, message } };
        proof {
            assert forall|i: int| 0 <= i < s.len() implies s[i].address@ != address@ by {
                if s[i].address@ == address@ {
                    lemma_entry_of_present(s, i);
                }
            }
        }
        self.entries.push(entry);
        proof {
            let t = self.entries@;
            assert forall|i: int, j: int|
                0 <= i < j < t.len() implies t[i].address@ != t[j].address@ by {
                if j < s.len() {
                } else {
                    assert(t[j] == t[s.len() as int]);
                    assert(t[i] == s[i]);
                }
            }
        }
        Ok(())
    }

    /// Replaces the message of the record at `address`, leaving its owner,
    /// id and title as they were. Fails `NotFound` when the address is free
    /// and `OwnerMismatch` when the caller is not the record's owner; either
    /// failure changes nothing.
    pub fn update(&mut self, address: &Address, caller: &Owner, message: String) -> (r: Result<
        (),
        CrudError,
    >)
        requires
            old(self).wf(),
            message@.len() <= MESSAGE_MAX,
        ensures
            final(self).wf(),
            final(self).entries@.len() == old(self).entries@.len(),
            match entry_of(old(self).entries@, address@) {
                None => r == Err::<(), CrudError>(CrudError::NotFound) && *final(self) == *old(
                    self,
                ),
                Some(e) => if e.owner@ != caller@ {
                    r == Err::<(), CrudError>(CrudError::OwnerMismatch) && *final(self) == *old(
                        self,
                    )
                } else {
                    r == Ok::<(), CrudError>(()) && entry_of(final(self).entries@, address@)
                        == Some(
                        JournalEntryState { owner: e.owner, id: e.id, title: e.title, message },
                    ) && (forall|a2: Seq<u8>|
                        a2 != address@ ==> entry_of(final(self).entries@, a2) == entry_of(
                            old(self).entries@,
                            a2,
                        )) && (forall|o: Seq<u8>|
                        live_count(final(self).entries@, o) == live_count(
                            old(self).entries@,
                            o,
                        )) && (exists|p: int|
                        0 <= p < old(self).entries@.len() && old(self).entries@[p].state == e
                            && old(self).entries@[p].address@ == address@ && final(self).entries@
                            == old(self).entries@.update(
                            p,
                            StoredEntry {
                                address: old(self).entries@[p].address,
                                state: JournalEntryState {
                                    owner: e.owner,
                                    id: e.id,
                                    title: e.title,
                                    message,
                                },
                            },
                        ))
                },
            },
    {
        let pos = match self.find_pos(address) {
            Some(i) => i,
            None => {
                return Err(CrudError::NotFound);
            },
        };
        if !bytes32_eq(&self.entries[pos].state.owner.bytes, &caller.bytes) {
            return Err(CrudError::OwnerMismatch);
        }
        let ghost s = self.entries@;
        let old_entry = self.entries.remove(pos);
        let updated = StoredEntry {
            address: old_entry.address,
            state: JournalEntryState {
                owner: old_entry.state.owner,
                id: old_entry.state.id,
                title: old_entry.state.title,
                message,
            },
        };
        let ghost u = updated;
        self.entries.insert(pos, updated);
        proof {
            let t = self.entries@;
            assert(t =~= s.update(pos as int, u));
            assert forall|a2: Seq<u8>| true implies #[trigger] entry_of(t, a2) == (if a2
                == address@ {
                Some(u.state)
            } else {
                entry_of(s, a2)
            }) by {
                lemma_entry_of_update(s, pos as int, u, a2);
            }
            assert forall|o: Seq<u8>| true implies #[trigger] live_count(t, o) == live_count(
                s,
                o,
            ) by {
                lemma_live_count_update(s, pos as int, u, o);
            }
            assert forall|i: int, j: int|
                0 <= i < j < t.len() implies t[i].address@ != t[j].address@ by {
                assert(t[i] == if i == pos as int {
                    u
                } else {
                    s[i]
                });
                assert(t[j] == if j == pos as int {
                    u
                } else {
                    s[j]
                });
            }
        }
        Ok(())
    }

    /// Destroys the record at `address`, freeing the address. Fails
    /// `NotFound` when the address is free and `OwnerMismatch` when the
    /// caller is not the record's owner; either failure changes nothing.
    pub fn delete(&mut self, address: &Address, caller: &Owner) -> (r: Result<(), CrudError>)
        requires
            old(self).wf(),
        ensures
            final(self).wf(),
            match entry_of(old(self).entries@, address@) {
                None => r == Err::<(), CrudError>(CrudError::NotFound) && *final(self) == *old(
                    self,
                ),
                Some(e) => if e.owner@ != caller@ {
                    r == Err::<(), CrudError>(CrudError::OwnerMismatch) && *final(self) == *old(
                        self,
                    )
                } else {
                    r == Ok::<(), CrudError>(()) && final(self).entries@.len() == old(
                        self,
                    ).entries@.len() - 1 && entry_of(final(self).entries@, address@) is None && (
                    forall|a2: Seq<u8>|
                        a2 != address@ ==> entry_of(final(self).entries@, a2) == entry_of(
                            old(self).entries@,
                            a2,
                        )) && (forall|o: Seq<u8>|
                        live_count(final(self).entries@, o) + (if e.owner@ == o {
                            1nat
                        } else {
                            0nat
                        }) == live_count(old(self).entries@, o)) && (exists|p: int|
                        0 <= p < old(self).entries@.len() && old(self).entries@[p].address@
                            == address@ && final(self).entries@ == old(self).entries@.remove(p))
                },
            },
    {
        let pos = match self.find_pos(address) {
            Some(i) => i,
            None => {
                return Err(CrudError::NotFound);
            },
        };
        if !bytes32_eq(&self.entries[pos].state.owner.bytes, &caller.bytes) {
            return Err(CrudError::OwnerMismatch);
        }
        let ghost s = self.entries@;
        self.entries.remove(pos);
        proof {
            let t = self.entries@;
            assert(t =~= s.remove(pos as int));
            assert forall|a2: Seq<u8>| true implies #[trigger] entry_of(t, a2) == (if a2
                == address@ {
                None
            } else {
                entry_of(s, a2)
            }) by {
                lemma_entry_of_remove(s, pos as int, a2);
            }
            assert forall|o: Seq<u8>| true implies #[trigger] live_count(t, o) + (if s[pos as int].state.owner@
                == o {
                1nat
            } else {
                0nat
            }) == live_count(s, o) by {
                lemma_live_count_remove(s, pos as int, o);
            }
            assert forall|i: int, j: int|
                0 <= i < j < t.len() implies t[i].address@ != t[j].address@ by {
                let i0: int = if i < pos as int {
                    i
                } else {
                    i + 1
                };
                let j0: int = if j < pos as int {
                    j
                } else {
                    j + 1
                };
                assert(t[i] == s[i0]);
                assert(t[j] == s[j0]);
                assert(s[i0].address@ != s[j0].address@);
            }
        }
        Ok(())
    }
}

} // verus!
