use vstd::prelude::*;

use crate::address::Owner;
use crate::errors::CrudError;

verus! {

/// The per-owner id counter: mints the discriminator for each new entry.
/// It is created on the owner's first create, only ever counts upward, and is
/// never destroyed, so an id handed out once is never handed out again.
#[derive(Clone, Copy, Debug)]
pub struct JournalId {
    pub owner: Owner,
    pub next_id: u64,
}

/// The value of the first counter in `cs` that belongs to `o`, if any.
pub open spec fn counter_of(cs: Seq<JournalId>, o: Seq<u8>) -> Option<u64>
    decreases cs.len(),
{
    if cs.len() == 0 {
        None
    } else if cs[0].owner@ == o {
        Some(cs[0].next_id)
    } else {
        counter_of(cs.drop_first(), o)
    }
}

/// No two counters in `cs` belong to the same owner.
pub open spec fn counters_unique(cs: Seq<JournalId>) -> bool {
    forall|i: int, j: int| 0 <= i < j < cs.len() ==> cs[i].owner@ != cs[j].owner@
}

/// Under uniqueness, the counter at position `i` is the one `counter_of` finds
/// for its owner.
pub proof fn lemma_counter_of_present(cs: Seq<JournalId>, i: int)
    requires
        counters_unique(cs),
        0 <= i < cs.len(),
    ensures
        counter_of(cs, cs[i].owner@) == Some(cs[i].next_id),
    decreases cs.len(),
{
    if i == 0 {
    } else {
        assert(cs[0].owner@ != cs[i].owner@);
        assert(cs.drop_first()[i - 1] == cs[i]);
        lemma_counter_of_present(cs.drop_first(), i - 1);
    }
}

/// An owner that no counter belongs to has no counter value.
pub proof fn lemma_counter_of_absent(cs: Seq<JournalId>, o: Seq<u8>)
    requires
        forall|i: int| 0 <= i < cs.len() ==> cs[i].owner@ != o,
    ensures
        counter_of(cs, o) is None,
    decreases cs.len(),
{
    if cs.len() > 0 {
        assert(forall|i: int|
            0 <= i < cs.drop_first().len() ==> cs.drop_first()[i].owner@ != o);
        lemma_counter_of_absent(cs.drop_first(), o);
    }
}

/// Appending a counter changes `counter_of` only for its owner, and only when
/// that owner had no counter yet.
pub proof fn lemma_counter_of_push(cs: Seq<JournalId>, c: JournalId, o: Seq<u8>)
    ensures
        counter_of(cs.push(c), o) == (if counter_of(cs, o) is Some {
            counter_of(cs, o)
        } else if c.owner@ == o {
            Some(c.next_id)
        } else {
            None
        }),
    decreases cs.len(),
{
    if cs.len() == 0 {
        assert(cs.push(c)[0] == c);
        assert(cs.push(c).drop_first() =~= Seq::<JournalId>::empty());
        assert(counter_of(Seq::<JournalId>::empty(), o) is None);
        if c.owner@ == o {
            assert(counter_of(cs.push(c), o) == Some(c.next_id));
        } else {
            assert(counter_of(cs.push(c), o) == counter_of(cs.push(c).drop_first(), o));
        }
    } else {
        assert(cs.push(c)[0] == cs[0]);
        assert(cs.push(c).drop_first() =~= cs.drop_first().push(c));
        lemma_counter_of_push(cs.drop_first(), c, o);
        if cs[0].owner@ == o {
            assert(counter_of(cs, o) == Some(cs[0].next_id));
            assert(counter_of(cs.push(c), o) == Some(cs[0].next_id));
        } else {
            assert(counter_of(cs, o) == counter_of(cs.drop_first(), o));
            assert(counter_of(cs.push(c), o) == counter_of(cs.drop_first().push(c), o));
        }
    }
}

/// Replacing the counter at position `i` with one of the same owner changes
/// `counter_of` only for that owner.
pub proof fn lemma_counter_of_update(cs: Seq<JournalId>, i: int, c: JournalId, o: Seq<u8>)
    requires
        counters_unique(cs),
        0 <= i < cs.len(),
        cs[i].owner@ == c.owner@,
    ensures
        counter_of(cs.update(i, c), o) == (if c.owner@ == o {
            Some(c.next_id)
        } else {
            counter_of(cs, o)
        }),
    decreases cs.len(),
{
    if i == 0 {
        assert(cs.update(i, c)[0] == c);
        if c.owner@ == o {
        } else {
            assert(cs.update(i, c).drop_first() =~= cs.drop_first());
        }
    } else {
        assert(cs.update(i, c)[0] == cs[0]);
        assert(cs.update(i, c).drop_first() =~= cs.drop_first().update(i - 1, c));
        assert(cs.drop_first()[i - 1] == cs[i]);
        lemma_counter_of_update(cs.drop_first(), i - 1, c, o);
        if cs[0].owner@ == o {
            assert(cs[0].owner@ != cs[i].owner@);
        }
    }
}

impl JournalId {
    /// A fresh counter, claimed by `owner` and starting at id 0.
    pub fn new(owner: Owner) -> (r: JournalId)
        ensures
            r.owner == owner,
            r.next_id == 0,
    {
        JournalId { owner, next_id: 0 }
    }

    /// Hands out the current id and advances by one. Fails `InvalidOwner` when
    /// the caller is not the counter's owner and `IdOverflow` when the counter
    /// has no id left to mint; either failure leaves the counter unchanged.
    pub fn mint(&mut self, caller: &Owner) -> (r: Result<u64, CrudError>)
        ensures
            old(self).owner@ != caller@ ==> r == Err::<u64, CrudError>(CrudError::InvalidOwner)
                && *final(self) == *old(self),
            old(self).owner@ == caller@ && old(self).next_id == u64::MAX ==> r == Err::<
                u64,
                CrudError,
            >(CrudError::IdOverflow) && *final(self) == *old(self),
            old(self).owner@ == caller@ && old(self).next_id < u64::MAX ==> r == Ok::<
                u64,
                CrudError,
            >(old(self).next_id) && final(self).owner == old(self).owner && final(self).next_id
                == old(self).next_id + 1,
    {
        if !crate::address::bytes32_eq(&self.owner.bytes, &caller.bytes) {
            return Err(CrudError::InvalidOwner);
        }
        if self.next_id == u64::MAX {
            return Err(CrudError::IdOverflow);
        }
        let id = self.next_id;
        self.next_id = id + 1;
        Ok(id)
    }
}

} // verus!
