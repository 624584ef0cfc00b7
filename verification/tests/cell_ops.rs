use auxlist::cell::Cell;
use auxlist::errors::Error;

#[test]
fn test_cell_tags() {
    let data: Cell<u32> = Cell::new_data(9, 4);
    let aux: Cell<u32> = Cell::new_aux(4);
    let head: Cell<u32> = Cell::new_first(4);
    let tail: Cell<u32> = Cell::new_last();

    assert!(data.is_data_cell() && data.is_normal_cell() && !data.is_last());
    assert!(!aux.is_data_cell() && !aux.is_normal_cell() && !aux.is_last());
    assert!(!head.is_data_cell() && head.is_normal_cell() && !head.is_last());
    assert!(!tail.is_data_cell() && tail.is_normal_cell() && tail.is_last());

    assert_eq!(data.val(), Some(&9));
    assert_eq!(aux.val(), None);
    assert_eq!(head.val(), None);
    assert_eq!(tail.val(), None);
}

#[test]
fn test_swap_in_next_compares_by_identity() {
    let mut aux: Cell<u32> = Cell::new_aux(5);

    // The slot holds 5, so an expectation of 3 must be refused untouched.
    assert!(matches!(aux.swap_in_next(3, Some(7)), Err(Error::CasMismatch)));
    assert_eq!(aux.next_dup(), Some(5));

    // A matching expectation installs the new handle and evicts the old.
    assert_eq!(aux.swap_in_next(5, Some(7)).unwrap(), 5);
    assert_eq!(aux.next_dup(), Some(7));
}

#[test]
fn test_swap_in_next_on_tail_is_fatal() {
    let mut tail: Cell<u32> = Cell::new_last();
    assert!(matches!(tail.swap_in_next(0, Some(1)), Err(Error::Fatal)));
    assert_eq!(tail.next_dup(), None);
}

#[test]
fn test_next_cmp() {
    let aux: Cell<u32> = Cell::new_aux(5);
    assert!(aux.next_cmp(5));
    assert!(!aux.next_cmp(6));
    let tail: Cell<u32> = Cell::new_last();
    assert!(!tail.next_cmp(5));
}

#[test]
fn test_store_next_replaces_slot() {
    let mut aux: Cell<u32> = Cell::new_aux(5);
    aux.store_next(Some(8));
    assert_eq!(aux.next_dup(), Some(8));
    aux.store_next(None);
    assert_eq!(aux.next_dup(), None);
}

#[test]
fn test_backlink_only_on_data_cells() {
    let mut data: Cell<u32> = Cell::new_data(1, 2);
    assert_eq!(data.backlink_dup(), None);
    data.store_backlink(Some(6));
    assert_eq!(data.backlink_dup(), Some(6));
    data.store_backlink(None);
    assert_eq!(data.backlink_dup(), None);

    let mut aux: Cell<u32> = Cell::new_aux(2);
    aux.store_backlink(Some(6));
    assert_eq!(aux.backlink_dup(), None);
}

#[test]
fn test_drop_links_drains_slots() {
    let mut data: Cell<u32> = Cell::new_data(1, 2);
    data.store_backlink(Some(6));
    data.drop_links();
    assert_eq!(data.next_dup(), None);
    assert_eq!(data.backlink_dup(), None);
    // Payload survives the drain.
    assert_eq!(data.val(), Some(&1));

    // The backlink is drained even when the next slot is already empty, so
    // a repeat call is a no-op.
    let mut again: Cell<u32> = Cell::new_data(1, 2);
    again.store_next(None);
    again.store_backlink(Some(6));
    again.drop_links();
    assert_eq!(again.next_dup(), None);
    assert_eq!(again.backlink_dup(), None);
    again.drop_links();
    assert_eq!(again.next_dup(), None);
    assert_eq!(again.backlink_dup(), None);
}
