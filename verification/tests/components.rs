use crud_app::address::{derive_entry_address, Address, Owner};
use crud_app::counter::JournalId;
use crud_app::errors::CrudError;
use crud_app::index::JournalIndex;
use crud_app::{COUNTER_SPACE, ENTRY_SPACE, INDEX_CAPACITY, INDEX_SPACE};

fn owner(tag: u8) -> Owner {
    Owner { bytes: [tag; 32] }
}

fn addr(tag: u8) -> Address {
    Address { bytes: [tag; 32] }
}

#[test]
fn record_sizes_match_their_layout() {
    // header + owner + id + (len + title) + (len + message)
    assert_eq!(ENTRY_SPACE, 1156);
    // header + owner + len + capacity * address
    assert_eq!(INDEX_SPACE, 6444);
    // header + owner + counter
    assert_eq!(COUNTER_SPACE, 48);
    assert_eq!(INDEX_CAPACITY, 200);
}

#[test]
fn derivation_is_deterministic_and_discriminating() {
    let a = owner(1);
    let b = owner(2);
    let a0 = derive_entry_address(&a, 0).unwrap();
    let a0_again = derive_entry_address(&a, 0).unwrap();
    assert_eq!(a0.bytes, a0_again.bytes);

    let a1 = derive_entry_address(&a, 1).unwrap();
    let b0 = derive_entry_address(&b, 0).unwrap();
    assert!(a0.bytes != a1.bytes);
    assert!(a0.bytes != b0.bytes);
    // The derived address is a hash, not the owner's key handed back.
    assert!(a0.bytes != a.bytes);
}

#[test]
fn counter_mints_in_order_and_overflows_hard() {
    let a = owner(3);
    let mut c = JournalId::new(a);
    assert_eq!(c.next_id, 0);
    assert_eq!(c.mint(&a).unwrap(), 0);
    assert_eq!(c.mint(&a).unwrap(), 1);
    assert_eq!(c.next_id, 2);

    let b = owner(4);
    assert_eq!(c.mint(&b).unwrap_err(), CrudError::InvalidOwner);
    assert_eq!(c.next_id, 2);

    let mut exhausted = JournalId { owner: a, next_id: u64::MAX };
    assert_eq!(exhausted.mint(&a).unwrap_err(), CrudError::IdOverflow);
    assert_eq!(exhausted.next_id, u64::MAX);
}

#[test]
fn index_claim_is_exclusive() {
    let a = owner(5);
    let b = owner(6);
    let mut ix = JournalIndex::new();
    assert!(ix.ensure_owner(&a).is_ok());
    assert!(ix.ensure_owner(&a).is_ok());
    assert_eq!(ix.ensure_owner(&b).unwrap_err(), CrudError::InvalidOwner);
    assert_eq!(ix.owner.bytes, a.bytes);
}

#[test]
fn index_tolerates_duplicates_and_absent_removals() {
    let a = owner(7);
    let mut ix = JournalIndex::new();
    ix.ensure_owner(&a).unwrap();
    ix.add(addr(1)).unwrap();
    // A duplicate add is tolerated without growing the list.
    ix.add(addr(1)).unwrap();
    assert_eq!(ix.len(), 1);
    // Removing an address that is not listed is a no-op, not an error.
    ix.remove(&addr(2));
    assert_eq!(ix.len(), 1);
    assert!(ix.contains(&addr(1)));
    ix.remove(&addr(1));
    assert!(ix.is_empty());
}

#[test]
fn index_enforces_the_capacity_ceiling() {
    let a = owner(8);
    let mut ix = JournalIndex::new();
    ix.ensure_owner(&a).unwrap();
    for i in 0..INDEX_CAPACITY {
        let mut bytes = [0u8; 32];
        bytes[0] = (i % 256) as u8;
        bytes[1] = (i / 256) as u8;
        ix.add(Address { bytes }).unwrap();
    }
    assert_eq!(ix.len(), INDEX_CAPACITY);
    let mut bytes = [0u8; 32];
    bytes[2] = 1;
    assert_eq!(
        ix.add(Address { bytes }).unwrap_err(),
        CrudError::IndexFull
    );
    assert_eq!(ix.len(), INDEX_CAPACITY);
}
