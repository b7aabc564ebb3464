use lib::ComponentTable;

#[test]
fn table_starts_at_one_and_counts_up() {
    let mut t: ComponentTable<u32> = ComponentTable::new();
    assert_eq!(t.peek_next_id(), 1);
    assert_eq!(t.reserve_id(), 1);
    assert_eq!(t.reserve_id(), 2);
    assert_eq!(t.peek_next_id(), 3);
}

#[test]
fn table_insert_records_parent_and_handle() {
    let mut t: ComponentTable<u32> = ComponentTable::new();
    let a = t.reserve_id();
    let b = t.reserve_id();
    assert_eq!(t.insert(a, None, 10), a);
    assert_eq!(t.insert(b, Some(a), 20), b);
    assert_eq!(t.parent_of(b), Some(a));
    assert_eq!(t.parent_of(a), None);
    assert_eq!(t.parent_of(7), None);
    assert_eq!(t.get(b), Some(&20));
    assert_eq!(t.insert(b, Some(a), 21), b);
    assert_eq!(t.get(b), Some(&21));
}

#[test]
fn table_dirty_marks() {
    let mut t: ComponentTable<u32> = ComponentTable::new();
    assert!(t.is_clean());
    t.mark_dirty(4);
    t.mark_dirty(2);
    t.mark_dirty(4);
    assert!(!t.is_clean());
    let mut ids = t.dirty_ids();
    ids.sort();
    assert_eq!(ids, vec![2, 4]);
    t.destroy(4);
    assert_eq!(t.dirty_ids(), vec![2]);
    t.clear_dirty();
    assert!(t.is_clean());
    assert!(t.dirty_ids().is_empty());
}

#[test]
fn table_destroy_forgets_component() {
    let mut t: ComponentTable<u32> = ComponentTable::new();
    let a = t.reserve_id();
    t.insert(a, None, 1);
    t.mark_dirty(a);
    t.destroy(a);
    assert_eq!(t.get(a), None);
    assert_eq!(t.parent_of(a), None);
    assert!(t.is_clean());
    // Identifiers are not reused.
    assert_eq!(t.reserve_id(), 2);
}
