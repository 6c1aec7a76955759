use crud_app::address::derive_entry_address;
use crud_app::address::Owner;
use crud_app::errors::CrudError;
use crud_app::journal::Journal;
use crud_app::{ENTRY_SPACE, INDEX_CAPACITY, INDEX_SPACE};

fn owner(tag: u8) -> Owner {
    Owner { bytes: [tag; 32] }
}

#[test]
fn end_to_end_create_delete_reclaim() {
    let mut j = Journal::new();
    let a = owner(1);

    let a1 = j
        .create_journal_entry(a, "t1".to_string(), "m1".to_string())
        .unwrap();
    let a2 = j
        .create_journal_entry(a, "t2".to_string(), "m2".to_string())
        .unwrap();
    let a3 = j
        .create_journal_entry(a, "t3".to_string(), "m3".to_string())
        .unwrap();

    assert_eq!(j.index_entry_count(&a), Some(3));
    assert_eq!(j.counter_next_id(&a), Some(3));
    assert!(a1.bytes != a2.bytes && a2.bytes != a3.bytes && a1.bytes != a3.bytes);

    // Delete the middle entry: two addresses remain, neither is t2's, and
    // the counter stays at 3.
    let r = j.delete_journal_entry(a, a2).unwrap();
    assert_eq!(r.bytes, ENTRY_SPACE);
    assert_eq!(r.owner.bytes, a.bytes);
    assert_eq!(j.index_entry_count(&a), Some(2));
    assert!(!j.index_contains(&a, &a2));
    assert!(j.index_contains(&a, &a1));
    assert!(j.index_contains(&a, &a3));
    assert!(j.get_entry(&a2).is_none());
    assert_eq!(j.counter_next_id(&a), Some(3));

    // Delete the remaining two: the last delete destroys the index and
    // credits its storage too; the counter survives untouched.
    let r = j.delete_journal_entry(a, a1).unwrap();
    assert_eq!(r.bytes, ENTRY_SPACE);
    let r = j.delete_journal_entry(a, a3).unwrap();
    assert_eq!(r.bytes, ENTRY_SPACE + INDEX_SPACE);
    assert!(!j.has_index(&a));
    assert_eq!(j.counter_next_id(&a), Some(3));
}

#[test]
fn capacity_ceiling() {
    let mut j = Journal::new();
    let a = owner(2);
    for i in 0..INDEX_CAPACITY {
        let r = j.create_journal_entry(a, format!("t{}", i), "m".to_string());
        assert!(r.is_ok(), "create {} should succeed", i);
    }
    assert_eq!(j.index_entry_count(&a), Some(INDEX_CAPACITY));
    let r = j.create_journal_entry(a, "one too many".to_string(), "m".to_string());
    assert_eq!(r.unwrap_err(), CrudError::IndexFull);
    assert_eq!(j.index_entry_count(&a), Some(INDEX_CAPACITY));
}

#[test]
fn double_delete_reports_not_found() {
    let mut j = Journal::new();
    let a = owner(3);
    let a1 = j
        .create_journal_entry(a, "keep".to_string(), "m".to_string())
        .unwrap();
    let a2 = j
        .create_journal_entry(a, "gone".to_string(), "m".to_string())
        .unwrap();

    j.delete_journal_entry(a, a2).unwrap();
    // The second delete of the same address fails at the store layer and the
    // index is unaffected.
    assert_eq!(
        j.delete_journal_entry(a, a2).unwrap_err(),
        CrudError::NotFound
    );
    assert_eq!(j.index_entry_count(&a), Some(1));
    assert!(j.index_contains(&a, &a1));
}

#[test]
fn reclamation_destroys_index_keeps_counter() {
    let mut j = Journal::new();
    let a = owner(4);
    let a0 = j
        .create_journal_entry(a, "only".to_string(), "m".to_string())
        .unwrap();
    let r = j.delete_journal_entry(a, a0).unwrap();
    assert_eq!(r.bytes, ENTRY_SPACE + INDEX_SPACE);
    assert!(!j.has_index(&a));
    assert_eq!(j.index_entry_count(&a), None);
    assert_eq!(j.counter_next_id(&a), Some(1));

    // A later create claims a fresh index and keeps counting upward.
    let a1 = j
        .create_journal_entry(a, "again".to_string(), "m".to_string())
        .unwrap();
    assert_eq!(j.index_entry_count(&a), Some(1));
    assert_eq!(j.counter_next_id(&a), Some(2));
    assert_eq!(j.get_entry(&a1).unwrap().id, 1);
}

#[test]
fn ownership_isolation() {
    let mut j = Journal::new();
    let a = owner(5);
    let b = owner(6);
    let addr = j
        .create_journal_entry(a, "mine".to_string(), "original".to_string())
        .unwrap();

    assert_eq!(
        j.update_journal_entry(b, addr, "stolen".to_string())
            .unwrap_err(),
        CrudError::OwnerMismatch
    );
    assert_eq!(
        j.delete_journal_entry(b, addr).unwrap_err(),
        CrudError::OwnerMismatch
    );
    let e = j.get_entry(&addr).unwrap();
    assert_eq!(e.message, "original");
    assert_eq!(e.owner.bytes, a.bytes);
    assert_eq!(j.index_entry_count(&a), Some(1));

    // B's own creates live in B's index and never touch A's.
    j.create_journal_entry(b, "theirs".to_string(), "m".to_string())
        .unwrap();
    assert_eq!(j.index_entry_count(&a), Some(1));
    assert_eq!(j.index_entry_count(&b), Some(1));
    assert_eq!(j.counter_next_id(&a), Some(1));
}

#[test]
fn update_replaces_message_only() {
    let mut j = Journal::new();
    let a = owner(7);
    let addr = j
        .create_journal_entry(a, "title".to_string(), "before".to_string())
        .unwrap();
    j.update_journal_entry(a, addr, "after".to_string()).unwrap();
    let e = j.get_entry(&addr).unwrap();
    assert_eq!(e.message, "after");
    assert_eq!(e.title, "title");
    assert_eq!(e.id, 0);
    assert_eq!(e.owner.bytes, a.bytes);
    assert_eq!(j.index_entry_count(&a), Some(1));
}

#[test]
fn update_missing_entry_reports_not_found() {
    let mut j = Journal::new();
    let a = owner(8);
    let addr = derive_entry_address(&a, 7).unwrap();
    assert_eq!(
        j.update_journal_entry(a, addr, "m".to_string()).unwrap_err(),
        CrudError::NotFound
    );
    assert!(!j.has_index(&a));
    assert_eq!(j.counter_next_id(&a), None);
}

#[test]
fn ids_stay_monotonic_across_deletes() {
    let mut j = Journal::new();
    let a = owner(9);
    let a0 = j
        .create_journal_entry(a, "first".to_string(), "m".to_string())
        .unwrap();
    assert_eq!(j.get_entry(&a0).unwrap().id, 0);
    j.delete_journal_entry(a, a0).unwrap();

    // The freed id is never handed out again.
    let a1 = j
        .create_journal_entry(a, "second".to_string(), "m".to_string())
        .unwrap();
    assert_eq!(j.get_entry(&a1).unwrap().id, 1);
    assert!(a1.bytes != a0.bytes);
    let a2 = j
        .create_journal_entry(a, "third".to_string(), "m".to_string())
        .unwrap();
    assert_eq!(j.get_entry(&a2).unwrap().id, 2);
    assert_eq!(j.counter_next_id(&a), Some(3));
}
