use syncmap::entry::Entry;

#[test]
fn entry_load_and_remove() {
    let mut e = Entry::new(Some(5u64));
    assert_eq!(e.load(), Some(&5));
    assert_eq!(e.remove(), Some(5));
    assert_eq!(e.load(), None);
    assert_eq!(e.remove(), None);
}

#[test]
fn entry_expunge_lifecycle() {
    let mut e = Entry::<u64>::new(None);
    // Empty -> Expunged during an overlay rebuild.
    assert!(e.try_unexpunge_locked());
    assert_eq!(e.load(), None);
    assert_eq!(e.remove(), None);
    // Expunged -> Empty under the lock; a second call finds nothing to
    // undo.
    assert!(e.unexpunge_locked());
    assert!(!e.unexpunge_locked());
}

#[test]
fn live_entry_resists_expunge() {
    let mut e = Entry::new(Some(1u64));
    assert!(!e.try_unexpunge_locked());
    assert_eq!(e.load(), Some(&1));
    assert!(!e.unexpunge_locked());
    assert_eq!(e.load(), Some(&1));
}
