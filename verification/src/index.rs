use vstd::prelude::*;

use crate::address::{Address, Owner, bytes32_eq};
use crate::errors::CrudError;
use crate::INDEX_CAPACITY;

verus! {

/// The per-owner index: the bounded list of addresses of the owner's live
/// entries. A fresh index starts with the unset owner key and is claimed by
/// the first creator; it never holds a duplicate address and never grows past
/// the capacity ceiling.
#[derive(Clone, Debug)]
pub struct JournalIndex {
    pub owner: Owner,
    pub entries: Vec<Address>,
}

/// The all-zero key: the sentinel an index starts with before a creator
/// claims it.
pub open spec fn unset_key() -> Seq<u8> {
    Seq::<u8>::new(32, |i: int| 0u8)
}

/// Whether some address in `s` has the byte view `x`.
pub open spec fn has_addr(s: Seq<Address>, x: Seq<u8>) -> bool {
    exists|i: int| 0 <= i < s.len() && s[i]@ == x
}

/// No two addresses in `s` are the same.
pub open spec fn no_dup_addrs(s: Seq<Address>) -> bool {
    forall|i: int, j: int| 0 <= i < j < s.len() ==> s[i]@ != s[j]@
}

/// The first index in `ixs` that belongs to `o`, if any.
pub open spec fn index_of(ixs: Seq<JournalIndex>, o: Seq<u8>) -> Option<JournalIndex>
    decreases ixs.len(),
{
    if ixs.len() == 0 {
        None
    } else if ixs[0].owner@ == o {
        Some(ixs[0])
    } else {
        index_of(ixs.drop_first(), o)
    }
}

/// No two indexes in `ixs` belong to the same owner.
pub open spec fn indexes_unique(ixs: Seq<JournalIndex>) -> bool {
    forall|i: int, j: int| 0 <= i < j < ixs.len() ==> ixs[i].owner@ != ixs[j].owner@
}

/// Under uniqueness, the index at position `i` is the one `index_of` finds
/// for its owner.
pub proof fn lemma_index_of_present(ixs: Seq<JournalIndex>, i: int)
    requires
        indexes_unique(ixs),
        0 <= i < ixs.len(),
    ensures
        index_of(ixs, ixs[i].owner@) == Some(ixs[i]),
    decreases ixs.len(),
{
    if i == 0 {
    } else {
        assert(ixs[0].owner@ != ixs[i].owner@);
        assert(ixs.drop_first()[i - 1] == ixs[i]);
        lemma_index_of_present(ixs.drop_first(), i - 1);
    }
}

/// An owner that no index belongs to has no index.
pub proof fn lemma_index_of_absent(ixs: Seq<JournalIndex>, o: Seq<u8>)
    requires
        forall|i: int| 0 <= i < ixs.len() ==> ixs[i].owner@ != o,
    ensures
        index_of(ixs, o) is None,
    decreases ixs.len(),
{
    if ixs.len() > 0 {
        assert(forall|i: int|
            0 <= i < ixs.drop_first().len() ==> ixs.drop_first()[i].owner@ != o);
        lemma_index_of_absent(ixs.drop_first(), o);
    }
}

/// Appending an index changes `index_of` only for its owner, and only when
/// that owner had no index yet.
pub proof fn lemma_index_of_push(ixs: Seq<JournalIndex>, ix: JournalIndex, o: Seq<u8>)
    ensures
        index_of(ixs.push(ix), o) == (if index_of(ixs, o) is Some {
            index_of(ixs, o)
        } else if ix.owner@ == o {
            Some(ix)
        } else {
            None
        }),
    decreases ixs.len(),
{
    if ixs.len() == 0 {
        assert(ixs.push(ix)[0] == ix);
        assert(ixs.push(ix).drop_first() =~= Seq::<JournalIndex>::empty());
        assert(index_of(Seq::<JournalIndex>::empty(), o) is None);
    } else {
        assert(ixs.push(ix)[0] == ixs[0]);
        assert(ixs.push(ix).drop_first() =~= ixs.drop_first().push(ix));
        lemma_index_of_push(ixs.drop_first(), ix, o);
        if ixs[0].owner@ == o {
            assert(index_of(ixs.push(ix), o) == Some(ixs[0]));
        } else {
            assert(index_of(ixs, o) == index_of(ixs.drop_first(), o));
            assert(index_of(ixs.push(ix), o) == index_of(ixs.drop_first().push(ix), o));
        }
    }
}

/// An index that `index_of` finds stands at some position in the sequence.
pub proof fn lemma_index_of_position(ixs: Seq<JournalIndex>, o: Seq<u8>)
    requires
        index_of(ixs, o) is Some,
    ensures
        exists|i: int|
            0 <= i < ixs.len() && ixs[i] == index_of(ixs, o)->Some_0 && ixs[i].owner@ == o,
    decreases ixs.len(),
{
    if ixs.len() > 0 && ixs[0].owner@ == o {
        assert(ixs[0] == index_of(ixs, o)->Some_0);
    } else {
        lemma_index_of_position(ixs.drop_first(), o);
        let i = choose|i: int|
            0 <= i < ixs.drop_first().len() && ixs.drop_first()[i] == index_of(
                ixs.drop_first(),
                o,
            )->Some_0 && ixs.drop_first()[i].owner@ == o;
        assert(ixs[i + 1] == ixs.drop_first()[i]);
    }
}

/// Removing the index at position `i` takes away its owner's index and leaves
/// every other owner's untouched.
pub proof fn lemma_index_of_remove(ixs: Seq<JournalIndex>, i: int, o: Seq<u8>)
    requires
        indexes_unique(ixs),
        0 <= i < ixs.len(),
    ensures
        index_of(ixs.remove(i), o) == (if ixs[i].owner@ == o {
            None
        } else {
            index_of(ixs, o)
        }),
    decreases ixs.len(),
{
    if i == 0 {
        assert(ixs.remove(0) =~= ixs.drop_first());
        if ixs[0].owner@ == o {
            assert(forall|k: int|
                0 <= k < ixs.drop_first().len() ==> ixs.drop_first()[k].owner@ != o);
            lemma_index_of_absent(ixs.drop_first(), o);
        }
    } else {
        assert(ixs.remove(i)[0] == ixs[0]);
        assert(ixs.remove(i).drop_first() =~= ixs.drop_first().remove(i - 1));
        assert(ixs.drop_first()[i - 1] == ixs[i]);
        lemma_index_of_remove(ixs.drop_first(), i - 1, o);
        if ixs[0].owner@ == o {
            assert(ixs[0].owner@ != ixs[i].owner@);
            assert(index_of(ixs.remove(i), o) == Some(ixs[0]));
        }
    }
}

impl JournalIndex {
    /// The index's own invariant: no duplicate addresses, and never more of
    /// them than the capacity allows.
    pub open spec fn wf(self) -> bool {
        &&& no_dup_addrs(self.entries@)
        &&& self.entries@.len() <= INDEX_CAPACITY
    }

    /// A fresh, unclaimed, empty index.
    pub fn new() -> (r: JournalIndex)
        ensures
            r.owner@ == unset_key(),
            r.entries@.len() == 0,
            r.wf(),
    {
        let owner = Owner { bytes: [0u8; 32] };
        proof {
            assert(owner@ =~= unset_key());
        }
        JournalIndex { owner, entries: Vec::new() }
    }

    /// Claims a fresh index for `caller`, or checks that a claimed one already
    /// belongs to it; a claimed index never changes hands, so any other caller
    /// fails `InvalidOwner`. The entries are never touched.
    pub fn ensure_owner(&mut self, caller: &Owner) -> (r: Result<(), CrudError>)
        ensures
            final(self).entries == old(self).entries,
            old(self).owner@ == unset_key() ==> r == Ok::<(), CrudError>(()) && final(self).owner
                == *caller,
            old(self).owner@ != unset_key() && old(self).owner@ == caller@ ==> r == Ok::<
                (),
                CrudError,
            >(()) && *final(self) == *old(self),
            old(self).owner@ != unset_key() && old(self).owner@ != caller@ ==> r == Err::<
                (),
                CrudError,
            >(CrudError::InvalidOwner) && *final(self) == *old(self),
    {
        let zero: [u8; 32] = [0u8; 32];
        proof {
            assert(zero@ =~= unset_key());
        }
        if bytes32_eq(&self.owner.bytes, &zero) {
            self.owner = *caller;
            Ok(())
        } else if bytes32_eq(&self.owner.bytes, &caller.bytes) {
            Ok(())
        } else {
            Err(CrudError::InvalidOwner)
        }
    }

    /// Whether `a` is already listed.
    pub fn contains(&self, a: &Address) -> (r: bool)
        ensures
            r == has_addr(self.entries@, a@),
    {
        let mut i: usize = 0;
        while i < self.entries.len()
            invariant
                0 <= i <= self.entries@.len(),
                forall|k: int| 0 <= k < i ==> self.entries@[k]@ != a@,
            decreases self.entries@.len() - i,
        {
            if bytes32_eq(&self.entries[i].bytes, &a.bytes) {
                assert(self.entries@[i as int]@ == a@);
                return true;
            }
            i = i + 1;
        }
        false
    }

    /// How many entries are listed.
    pub fn len(&self) -> (r: usize)
        ensures
            r == self.entries@.len(),
    {
        self.entries.len()
    }

    /// True exactly when nothing is listed.
    pub fn is_empty(&self) -> (r: bool)
        ensures
            r == (self.entries@.len() == 0),
    {
        self.entries.len() == 0
    }

    /// Appends an address. An address already listed is tolerated and the
    /// index left as it is; a full index fails `IndexFull` and is left as it
    /// is; otherwise the address goes to the end of the list.
    pub fn add(&mut self, a: Address) -> (r: Result<(), CrudError>)
        requires
            old(self).wf(),
        ensures
            final(self).wf(),
            final(self).owner == old(self).owner,
            has_addr(old(self).entries@, a@) ==> r == Ok::<(), CrudError>(()) && *final(self)
                == *old(self),
            !has_addr(old(self).entries@, a@) && old(self).entries@.len() >= INDEX_CAPACITY ==> r
                == Err::<(), CrudError>(CrudError::IndexFull) && *final(self) == *old(self),
            !has_addr(old(self).entries@, a@) && old(self).entries@.len() < INDEX_CAPACITY ==> r
                == Ok::<(), CrudError>(()) && final(self).entries@ == old(self).entries@.push(a),
    {
        if self.contains(&a) {
            return Ok(());
        }
        if self.entries.len() >= INDEX_CAPACITY {
            return Err(CrudError::IndexFull);
        }
        self.entries.push(a);
        proof {
            let s = old(self).entries@;
            assert forall|i: int, j: int|
                0 <= i < j < s.push(a).len() implies s.push(a)[i]@ != s.push(a)[j]@ by {
                if j < s.len() {
                } else {
                    assert(s.push(a)[j] == a);
                    assert(!has_addr(s, a@));
                    assert(s.push(a)[i] == s[i]);
                }
            }
        }
        Ok(())
    }

    /// Takes an address out of the list, filling its slot with the last
    /// element. An address that is not listed is a no-op, not an error; in
    /// either case every other address stays listed.
    #[verifier::loop_isolation(false)]
    pub fn remove(&mut self, a: &Address)
        requires
            old(self).wf(),
        ensures
            final(self).wf(),
            final(self).owner == old(self).owner,
            !has_addr(old(self).entries@, a@) ==> *final(self) == *old(self),
            has_addr(old(self).entries@, a@) ==> final(self).entries@.len() == old(
                self,
            ).entries@.len() - 1,
            forall|x: Seq<u8>|
                #[trigger] has_addr(final(self).entries@, x) <==> (has_addr(
                    old(self).entries@,
                    x,
                ) && x != a@),
    {
        let ghost s = self.entries@;
        let mut i: usize = 0;
        while i < self.entries.len()
            invariant
                0 <= i <= s.len(),
                *self == *old(self),
                s == self.entries@,
                forall|k: int| 0 <= k < i ==> s[k]@ != a@,
            decreases s.len() - i,
        {
            if bytes32_eq(&self.entries[i].bytes, &a.bytes) {
                proof {
                    assert(s[i as int]@ == a@);
                }
                self.entries.swap_remove(i);
                proof {
                    let t = self.entries@;
                    let pos = i as int;
                    let n = s.len() as int;
                    assert(no_dup_addrs(s));
                    assert(forall|p: int, q: int| 0 <= p < q < n ==> s[p]@ != s[q]@);
                    assert(t =~= s.update(pos, s.last()).drop_last());
                    assert(t.len() == n - 1);
                    // Every surviving slot holds an element of the old list
                    // from a position other than `pos`.
                    assert forall|p: int, q: int| 0 <= p < q < t.len() implies t[p]@ != t[q]@ by {
                        let p0: int = if p == pos { n - 1 } else { p };
                        let q0: int = if q == pos { n - 1 } else { q };
                        assert(t[p] == s[p0]);
                        assert(t[q] == s[q0]);
                        if p0 < q0 {
                            assert(s[p0]@ != s[q0]@);
                        } else {
                            assert(s[q0]@ != s[p0]@);
                        }
                    }
                    assert forall|x: Seq<u8>|
                        #[trigger] has_addr(t, x) implies (has_addr(s, x) && x != a@) by {
                        let k = choose|k: int| 0 <= k < t.len() && t[k]@ == x;
                        let k0: int = if k == pos { n - 1 } else { k };
                        assert(t[k] == s[k0]);
                        assert(0 <= k0 < n && s[k0]@ == x);
                        assert(k0 != pos);
                        if k0 < pos {
                            assert(s[k0]@ != s[pos]@);
                        } else {
                            assert(s[pos]@ != s[k0]@);
                        }
                    }
                    assert forall|x: Seq<u8>| has_addr(s, x) && x != a@ implies #[trigger] has_addr(
                        t,
                        x,
                    ) by {
                        let k = choose|k: int| 0 <= k < s.len() && s[k]@ == x;
                        assert(k != pos);
                        if k == n - 1 {
                            assert(pos < n - 1);
                            assert(t[pos] == s[n - 1]);
                        } else {
                            assert(t[k] == s[k]);
                        }
                    }
                    assert(has_addr(s, a@));
                }
                return ;
            }
            i = i + 1;
        }
        proof {
            assert(!has_addr(s, a@));
            assert forall|x: Seq<u8>|
                #[trigger] has_addr(self.entries@, x) <==> (has_addr(s, x) && x != a@) by {
                if x == a@ {
                    assert(!has_addr(s, x));
                }
            }
        }
    }
}

} // verus!
