use editor::table::{LockError, Table, TableState};

#[test]
fn lock_and_release_full_read() {
    let mut s = TableState::Unshared;
    assert_eq!(s.lock_full(), Ok(()));
    assert!(matches!(s, TableState::Shared((1, 0))));
    assert_eq!(s.lock_full(), Ok(()));
    s.drop_full();
    s.drop_full();
    assert!(matches!(s, TableState::Unshared));
}

#[test]
fn write_lock_excludes_read_lock() {
    let mut s = TableState::Unshared;
    assert_eq!(s.lock_full_mut(), Ok(()));
    assert_eq!(s.lock_full(), Err(LockError::FailedLock));
    assert_eq!(s.lock_full_mut(), Err(LockError::FailedLock));
    s.drop_full_mut();
    assert!(matches!(s, TableState::SharedMuts((0, 0))));
    assert_eq!(s.lock_full(), Ok(()));
    assert_eq!(s.lock_full_mut(), Err(LockError::FailedLock));
}

#[test]
fn item_locks() {
    let mut s = TableState::Unshared;
    s.lock_single();
    assert!(matches!(s, TableState::SharedMuts((1, 0))));
    assert_eq!(s.lock_single_mut(), Ok(()));
    assert_eq!(s.lock_full(), Err(LockError::FailedLock));
    s.drop_single_mut();
    s.drop_single();
    assert!(matches!(s, TableState::SharedMuts((0, 0))));
    let mut shared = TableState::Shared((1, 0));
    assert_eq!(shared.lock_single_mut(), Err(LockError::FailedLock));
}

#[test]
fn table_reorders_items() {
    let mut t = Table::from_vec(vec!['a', 'b', 'c']);
    let writer = t.write_full().unwrap();
    let key = t.insert(1, 'x');
    assert_eq!(t.position_of(key), Some(1));
    t.move_item(0, 3);
    t.release_writer(writer);
    let items: Vec<char> = t.elements().iter().map(|e| *e.read()).collect();
    assert_eq!(items, vec!['x', 'b', 'c', 'a']);
    assert_eq!(t.replace(0, 'y'), 'x');
    assert_eq!(t.len(), 4);
    assert_eq!(*t.get(0).read(), 'y');
}

#[test]
fn item_writes_wait_for_full_reads() {
    let mut t = Table::from_vec(vec!['a', 'b']);
    let reader = t.read_full().unwrap();
    assert!(matches!(t.write_item(0), Err(LockError::FailedLock)));
    assert!(matches!(t.state(), TableState::Shared((1, 0))));
    t.release_reader(reader);
    let writer = t.write_item(1).unwrap();
    assert!(matches!(t.read_full(), Err(LockError::FailedLock)));
    assert_eq!(writer.write(&mut t, 'z'), 'b');
    t.release_item_writer(writer);
    let r = t.read_item(1);
    assert_eq!(*r.read(&t), 'z');
    t.release_item_reader(r);
    let mut state = TableState::Shared((1, 0));
    let mut e = editor::table::InnerTable::new('q', 7);
    assert!(matches!(e.write(&mut state, 'w'), Err(LockError::FailedLock)));
    let mut free = TableState::Unshared;
    assert_eq!(e.write(&mut free, 'w'), Ok('q'));
    assert_eq!(*e.read(), 'w');
}
