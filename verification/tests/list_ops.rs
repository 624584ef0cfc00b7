use auxlist::errors::Error;
use auxlist::errors::NeedsUpdate;
use auxlist::list::List;

#[test]
fn test_new() {
    let mut list: List<u32> = List::new();

    let cursor = list.first().unwrap();

    assert_eq!(cursor.target, Some(list.last));

    drop(cursor);
}

#[test]
fn test_try_insert() {
    let mut list: List<u32> = List::new();

    let mut cursor = list.first().unwrap();

    cursor.try_insert(&mut list, 42).unwrap();

    assert!(cursor.try_insert(&mut list, 42).is_err());
    assert!(matches!(
        cursor.try_insert(&mut list, 42).unwrap_err(),
        Error::Stale(NeedsUpdate)
    ));

    cursor.update(&mut list).unwrap();

    cursor.try_insert(&mut list, 84).unwrap();
    drop(cursor);

    let f_aux = list.cells[list.first].next_dup().unwrap();
    let f_val = list.cells[f_aux].next_dup().unwrap();

    assert_eq!(list.cells[f_val].val(), Some(&84));

    let s_aux = list.cells[f_val].next_dup().unwrap();
    let s_val = list.cells[s_aux].next_dup().unwrap();

    assert_eq!(list.cells[s_val].val(), Some(&42));
}

const ITER: usize = 1000;

#[test]
fn test_next() {
    let mut list: List<u32> = List::new();
    let mut cursor = list.first().unwrap();

    for _ in 0..ITER {
        cursor.try_insert(&mut list, 42).unwrap();
        cursor.update(&mut list).unwrap();
    }
    let mut count = 0;
    while cursor.next(&mut list).unwrap() {
        count += 1;
    }
    assert_eq!(count, ITER);
}

#[test]
fn test_set_backlink() {
    let mut list: List<u32> = List::new();

    let mut cursor = list.first().unwrap();

    cursor.try_insert(&mut list, 42).unwrap();
    cursor.update(&mut list).unwrap();

    let target = cursor.target.unwrap();
    let head = list.first;
    list.cells[target].store_backlink(Some(head));

    let backlink = list.cells[target].backlink_dup();

    assert_eq!(backlink, Some(head));

    drop(cursor);
}

#[test]
fn test_try_delete() {
    let mut list: List<u32> = List::new();

    let mut cursor = list.first().unwrap();

    for i in (0..=10).rev() {
        cursor.try_insert(&mut list, i).unwrap();
        cursor.update(&mut list).unwrap();
    }
    {
        let mut cursor = list.first().unwrap();
        cursor.try_delete(&mut list).unwrap();

        match cursor.try_delete(&mut list) {
            Err(e) => {
                assert!(matches!(e, Error::Stale(NeedsUpdate)));
            }
            Ok(_) => assert!(false),
        }
    }

    for i in 1..=10 {
        let mut cursor = list.first().unwrap();
        let element = cursor.try_delete(&mut list).unwrap();
        assert_eq!(list.cells[element].val().unwrap(), &i);
        drop(cursor);
    }
}

#[test]
fn test_insert_retries_after_stale_cursor() {
    let mut list: List<u32> = List::new();
    let mut cursor = list.first().unwrap();

    // The retrying wrapper re-syncs on its own: no update between calls.
    cursor.insert(&mut list, 1).unwrap();
    cursor.insert(&mut list, 2).unwrap();
    cursor.insert(&mut list, 3).unwrap();

    let mut seen = Vec::new();
    let mut walker = list.first().unwrap();
    while let Some(t) = walker.target {
        if list.cells[t].is_last() {
            break;
        }
        seen.push(*list.cells[t].val().unwrap());
        walker.next(&mut list).unwrap();
    }
    assert_eq!(seen, vec![3, 2, 1]);
}

#[test]
fn test_delete_on_empty_list_is_fatal() {
    let mut list: List<u32> = List::new();
    let cursor = list.first().unwrap();

    // The cursor of an empty list stands before the tail: nothing to
    // delete.
    assert!(matches!(cursor.delete(&mut list), Err(Error::Fatal)));
}

#[test]
fn test_update_is_idempotent() {
    let mut list: List<u32> = List::new();
    let mut cursor = list.first().unwrap();
    cursor.insert(&mut list, 5).unwrap();
    cursor.update(&mut list).unwrap();

    let snapshot = (cursor.pre_cell, cursor.pre_aux, cursor.target);
    cursor.update(&mut list).unwrap();
    assert_eq!((cursor.pre_cell, cursor.pre_aux, cursor.target), snapshot);
    cursor.update(&mut list).unwrap();
    assert_eq!((cursor.pre_cell, cursor.pre_aux, cursor.target), snapshot);
}

#[test]
fn test_churn_conserves_remaining_values() {
    let mut list: List<u32> = List::new();

    // Eight inserts, three deletes: exactly five data cells remain, and
    // iteration visits each exactly once.
    for i in 0..8 {
        let mut cursor = list.first().unwrap();
        cursor.insert(&mut list, i).unwrap();
    }
    let mut removed = Vec::new();
    for _ in 0..3 {
        let cursor = list.first().unwrap();
        removed.push(cursor.delete(&mut list).unwrap());
    }
    assert_eq!(removed.len(), 3);

    let mut count = 0;
    let mut cursor = list.first().unwrap();
    while cursor.next(&mut list).unwrap() {
        count += 1;
    }
    assert_eq!(count, 5);
}

#[test]
fn test_delete_returns_each_cell_once() {
    let mut list: List<u32> = List::new();
    for i in 0..6 {
        let mut cursor = list.first().unwrap();
        cursor.insert(&mut list, i).unwrap();
    }
    let mut handles = Vec::new();
    for _ in 0..6 {
        let cursor = list.first().unwrap();
        handles.push(cursor.delete(&mut list).unwrap());
    }
    for i in 0..handles.len() {
        for j in (i + 1)..handles.len() {
            assert_ne!(handles[i], handles[j]);
        }
    }
}

#[test]
fn test_insert_then_delete_round_trip() {
    let mut list: List<u32> = List::new();
    let cursor = list.first().unwrap();
    cursor.try_insert(&mut list, 7).unwrap();

    // Re-seek from the head, then delete: the removed cell carries the
    // value that was inserted.
    let mut cursor = list.first().unwrap();
    let element = cursor.try_delete(&mut list).unwrap();
    assert_eq!(list.cells[element].val(), Some(&7));

    let mut cursor = list.first().unwrap();
    assert!(!cursor.next(&mut list).unwrap());
}

#[test]
fn test_structural_alternation_on_spine() {
    let mut list: List<u32> = List::new();
    for i in 0..4 {
        let mut cursor = list.first().unwrap();
        cursor.insert(&mut list, i).unwrap();
    }
    {
        let cursor = list.first().unwrap();
        cursor.delete(&mut list).unwrap();
    }

    // Walk the raw spine: head, then (aux, data) pairs, then aux, tail;
    // never two adjacent auxiliary cells, never a missing next link.
    let mut tags = Vec::new();
    let mut i = list.first;
    loop {
        let cell = &list.cells[i];
        if cell.is_last() {
            tags.push('t');
            break;
        }
        if cell.is_data_cell() {
            tags.push('d');
        } else if cell.is_normal_cell() {
            tags.push('h');
        } else {
            tags.push('a');
        }
        // No live null on the spine.
        let next = cell.next_dup();
        assert!(next.is_some());
        i = next.unwrap();
    }
    let shape: String = tags.into_iter().collect();
    assert_eq!(shape, "hadadadat");
    assert!(!shape.contains("aa"));
}

#[test]
fn test_delete_retries_after_stale_cursor() {
    let mut list: List<u32> = List::new();
    let mut cursor = list.first().unwrap();
    cursor.insert(&mut list, 1).unwrap();
    cursor.update(&mut list).unwrap();

    // A further insert through the same cursor leaves its resolved target
    // stale; the retrying delete re-syncs on its own and removes the cell
    // now standing at the cursor position.
    cursor.try_insert(&mut list, 2).unwrap();
    let element = cursor.delete(&mut list).unwrap();
    assert_eq!(list.cells[element].val(), Some(&2));
}

#[test]
fn test_delete_publishes_backlink() {
    let mut list: List<u32> = List::new();
    let cursor = list.first().unwrap();
    cursor.try_insert(&mut list, 9).unwrap();

    // The removed cell carries a backlink to the stable predecessor — here
    // the head sentinel — for concurrent deleters to resynchronise from.
    let mut cursor = list.first().unwrap();
    let element = cursor.try_delete(&mut list).unwrap();
    assert_eq!(list.cells[element].backlink_dup(), Some(list.first));
}
