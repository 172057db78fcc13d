use conc_linklists::arena::Arena;
use conc_linklists::error::Error;
use conc_linklists::list::cursor::delete::DeleteLoopCondition;
use conc_linklists::list::cursor::DeleteStage;
use conc_linklists::list::List;

const ITER: usize = 10;
const DELETED: usize = 4;

/// Walks the `next` links from the head and counts the cells in front of the tail.
fn debug_print_list(list: &List<u32>) -> usize {
    let arena: &Arena<u32> = list.arena();
    let mut cnt = 0;
    let mut p = list.first_cell();
    while !arena.get(p).is_last() {
        println!("{} {:?} {}", cnt, arena.get(p), p);
        cnt += 1;
        p = arena.get(p).next().unwrap();
    }
    println!("{} {:?} {}", cnt, arena.get(p), p);
    cnt
}

/// The elements in list order, read with a cursor of its own.
fn collect(list: &mut List<u32>) -> Vec<u32> {
    let mut out = vec![];
    let mut cursor = list.first();
    while let Some(v) = cursor.value(list) {
        out.push(*v);
        assert_eq!(cursor.next(list), Ok(true));
    }
    assert_eq!(cursor.next(list), Ok(false));
    cursor.discard(list);
    out
}

/// Takes a deletion that has unlinked its target through its other steps.
fn finish(cursor: &mut conc_linklists::list::cursor::Cursor, list: &mut List<u32>) -> DeleteLoopCondition {
    cursor.calculate_delete_start(list);
    cursor.advance_delete_end(list);
    cursor.delete_csw_chain(list)
}

#[test]
fn mod_test_new() {
    let mut list: List<u32> = List::new();

    let cursor = list.first();

    assert_eq!(cursor.target_cell(), Some(list.last_cell()));

    cursor.discard(&mut list);
}

#[test]
fn mod_test_try_insert() {
    let mut list: List<u32> = List::new();

    let mut cursor = list.first();

    assert!(cursor.try_insert(&mut list, 42).is_ok());

    assert!(cursor.try_insert(&mut list, 84).is_err());
    assert_eq!(cursor.try_insert(&mut list, 84), Err(Error::Conflict));

    cursor.update(&mut list);

    assert!(cursor.try_insert(&mut list, 84).is_ok());
    cursor.discard(&mut list);

    let arena = list.arena();
    let f_aux = arena.get(list.first_cell()).next().unwrap();
    let f_val = arena.get(f_aux).next().unwrap();

    assert_eq!(arena.get(f_val).val(), Some(&84));

    let s_aux = arena.get(f_val).next().unwrap();
    let s_val = arena.get(s_aux).next().unwrap();

    assert_eq!(arena.get(s_val).val(), Some(&42));
}

#[test]
fn test_insert() {
    let mut list: List<u32> = List::new();

    let mut cursor = list.first();

    cursor.insert(&mut list, 42);
    cursor.insert(&mut list, 84);
    cursor.discard(&mut list);

    let arena = list.arena();
    let f_aux = arena.get(list.first_cell()).next().unwrap();
    let f_val = arena.get(f_aux).next().unwrap();

    assert_eq!(arena.get(f_val).val(), Some(&84));

    let s_aux = arena.get(f_val).next().unwrap();
    let s_val = arena.get(s_aux).next().unwrap();

    assert_eq!(arena.get(s_val).val(), Some(&42));
}

#[test]
fn test_insert_delete() {
    let mut list: List<u32> = List::new();

    let mut cursor = list.first();

    for _ in 0..ITER {
        cursor.insert(&mut list, 42);
    }
    cursor.discard(&mut list);

    let mut cnt = 0;
    for _ in 0..DELETED {
        let mut cursor = list.first();
        let r = cursor.try_delete(&mut list);
        debug_print_list(&list);
        if let Ok(()) = r {
            cnt += 1;
        }
        println!("drop cnt: {} {:?}", cnt, r);
        cursor.discard(&mut list);
    }
    assert_eq!(cnt, DELETED);

    let mut cursor = list.first();
    let mut count = 0;
    while cursor.next(&mut list) == Ok(true) {
        count += 1;
    }
    assert_eq!(count, ITER - DELETED);
    cursor.discard(&mut list);
}

#[test]
fn test_try_delete1() {
    let mut list: List<u32> = List::new();
    debug_print_list(&list);

    let mut cursor = list.first();

    cursor.insert(&mut list, 42);
    cursor.insert(&mut list, 84);

    cursor.update(&mut list);

    debug_print_list(&list);

    let mut r = cursor.try_delete(&mut list);
    assert_eq!(r, Ok(()));
    // the deleted cell went with the cursor's target; the marker cell that
    // the cursor still stands on stays until the cursor is given up
    assert_eq!(list.arena().reclaimed(), 1);

    r = cursor.try_delete(&mut list);
    assert_eq!(r, Err(Error::NeedsUpdate));
    assert_eq!(list.arena().reclaimed(), 1);
    r = cursor.try_delete(&mut list);
    assert_eq!(r, Err(Error::NeedsUpdate));
    assert_eq!(list.arena().reclaimed(), 1);

    cursor.discard(&mut list);
    assert_eq!(list.arena().reclaimed(), 2);
    debug_print_list(&list);

    let before = list.arena().reclaimed();
    let mut cursor = list.first();
    r = cursor.try_delete(&mut list);
    assert_eq!(r, Ok(()));
    assert_eq!(list.arena().reclaimed() - before, 1);
    r = cursor.try_delete(&mut list);
    assert_eq!(r, Err(Error::NeedsUpdate));
    assert_eq!(list.arena().reclaimed() - before, 1);

    cursor.discard(&mut list);
    assert_eq!(list.arena().reclaimed() - before, 2);
}

#[test]
fn test_try_delete2() {
    let mut list: List<u32> = List::new();

    let mut cursor = list.first();

    cursor.insert(&mut list, 42);
    cursor.insert(&mut list, 84);

    cursor.update(&mut list);

    let mut r = cursor.try_delete(&mut list);
    assert_eq!(r, Ok(()));

    assert_eq!(debug_print_list(&list), 4);

    {
        let arena = list.arena();
        let f_aux = arena.get(list.first_cell()).next().unwrap();
        let f_val = arena.get(f_aux).next().unwrap();

        assert_eq!(arena.get(f_val).val(), Some(&42));

        let s_aux = arena.get(f_val).next().unwrap();
        let s_val = arena.get(s_aux).next().unwrap();

        assert!(arena.get(s_val).is_last());
    }
    cursor.discard(&mut list);

    let mut cursor = list.first();
    r = cursor.try_delete(&mut list);

    assert_eq!(r, Ok(()));

    assert_eq!(debug_print_list(&list), 2);

    {
        let arena = list.arena();
        let f_aux = arena.get(list.first_cell()).next().unwrap();
        let f_val = arena.get(f_aux).next().unwrap();

        assert!(arena.get(f_val).is_last());
    }
    cursor.discard(&mut list);
}

#[test]
fn mod_test_next() {
    let mut list: List<u32> = List::new();

    let mut cursor = list.first();

    for _ in 0..ITER {
        cursor.insert(&mut list, 42);
    }

    let mut count = 0;
    while cursor.next(&mut list) == Ok(true) {
        count += 1;
    }
    assert_eq!(count, ITER);
    cursor.discard(&mut list);
}

#[test]
fn test_next_after_try_insert_and_update() {
    const MANY: usize = 1000;
    let mut list: List<u32> = List::new();
    let mut cursor = list.first();

    for _ in 0..MANY {
        cursor.try_insert(&mut list, 42).unwrap();
        cursor.update(&mut list);
    }
    let mut count = 0;
    while cursor.next(&mut list).unwrap() {
        count += 1;
    }
    assert_eq!(count, MANY);
    cursor.discard(&mut list);
}

#[test]
fn inserts_at_one_position_come_out_in_reverse() {
    let mut list: List<u32> = List::new();
    let mut cursor = list.first();
    for v in 1..=5 {
        cursor.insert(&mut list, v);
    }
    cursor.discard(&mut list);
    assert_eq!(collect(&mut list), vec![5, 4, 3, 2, 1]);
}

#[test]
fn inserts_behind_an_advanced_cursor() {
    let mut list: List<u32> = List::new();
    let mut cursor = list.first();
    cursor.insert(&mut list, 1);
    assert_eq!(cursor.next(&mut list), Ok(true));
    cursor.insert(&mut list, 2);
    assert_eq!(cursor.next(&mut list), Ok(true));
    cursor.insert(&mut list, 3);
    cursor.discard(&mut list);
    assert_eq!(collect(&mut list), vec![1, 2, 3]);
}

#[test]
fn count_after_n_inserts_is_n() {
    for n in [0usize, 1, 2, 7, 64] {
        let mut list: List<u32> = List::new();
        let mut cursor = list.first();
        for i in 0..n {
            cursor.insert(&mut list, i as u32);
        }
        cursor.discard(&mut list);
        assert_eq!(collect(&mut list).len(), n);
    }
}

#[test]
fn delete_of_fresh_insert_restores_the_list() {
    let mut list: List<u32> = List::new();
    let mut cursor = list.first();
    cursor.insert(&mut list, 1);
    cursor.insert(&mut list, 2);
    assert_eq!(cursor.next(&mut list), Ok(true));
    cursor.insert(&mut list, 99);
    assert_eq!(cursor.value(&list), Some(&99));
    assert_eq!(cursor.try_delete(&mut list), Ok(()));
    cursor.discard(&mut list);
    assert_eq!(collect(&mut list), vec![2, 1]);
}

#[test]
fn deletes_interleaved_with_next() {
    let mut list: List<u32> = List::new();
    let mut cursor = list.first();
    for v in [5u32, 4, 3, 2, 1] {
        cursor.insert(&mut list, v);
    }
    // the list is 1 2 3 4 5; delete every other element
    assert_eq!(cursor.delete(&mut list), Ok(()));
    cursor.update(&mut list);
    assert_eq!(cursor.value(&list), Some(&2));
    assert_eq!(cursor.next(&mut list), Ok(true));
    assert_eq!(cursor.delete(&mut list), Ok(()));
    cursor.update(&mut list);
    assert_eq!(cursor.next(&mut list), Ok(true));
    assert_eq!(cursor.delete(&mut list), Ok(()));
    assert_eq!(cursor.delete(&mut list), Err(Error::TargetIsTail));
    cursor.discard(&mut list);
    assert_eq!(collect(&mut list), vec![2, 4]);
}

#[test]
fn errors_of_a_cursor() {
    let mut list: List<u32> = List::new();
    let mut cursor = list.first();
    // at the tail
    assert_eq!(cursor.try_delete(&mut list), Err(Error::TargetIsTail));
    assert_eq!(cursor.get_target_not_last(&list), Err(Error::TargetIsTail));
    assert_eq!(cursor.next(&mut list), Ok(false));
    cursor.insert(&mut list, 7);
    assert_eq!(cursor.get_target_not_last(&list), Ok(cursor.target_cell().unwrap()));
    // after a deletion the cursor has no target
    assert_eq!(cursor.try_delete(&mut list), Ok(()));
    assert_eq!(cursor.target_cell(), None);
    assert_eq!(cursor.try_insert(&mut list, 1), Err(Error::NeedsUpdate));
    assert_eq!(cursor.try_delete(&mut list), Err(Error::NeedsUpdate));
    assert_eq!(cursor.next(&mut list), Err(Error::NeedsUpdate));
    assert_eq!(cursor.get_target_not_last(&list), Err(Error::NeedsUpdate));
    assert_eq!(cursor.value(&list), None);
    assert!(!cursor.is_synced(&list));
    cursor.update(&mut list);
    assert!(cursor.is_synced(&list));
    // a second cursor makes the first one stale
    let mut other = list.first();
    other.insert(&mut list, 8);
    assert_eq!(cursor.try_insert(&mut list, 9), Err(Error::Conflict));
    assert_eq!(cursor.try_delete(&mut list), Err(Error::TargetIsTail));
    cursor.discard(&mut list);
    other.discard(&mut list);
    assert_eq!(collect(&mut list), vec![8]);
}

#[test]
fn several_cursors_insert_in_turn() {
    const CURSORS: usize = 8;
    const EACH: usize = 25;
    let mut list: List<u32> = List::new();
    let mut cursors = vec![];
    for _ in 0..CURSORS {
        cursors.push(list.first());
    }
    for round in 0..EACH {
        for (c, cursor) in cursors.iter_mut().enumerate() {
            cursor.insert(&mut list, (c * EACH + round) as u32);
        }
    }
    for cursor in cursors {
        cursor.discard(&mut list);
    }
    let mut got = collect(&mut list);
    assert_eq!(got.len(), CURSORS * EACH);
    got.sort();
    got.dedup();
    assert_eq!(got.len(), CURSORS * EACH);
}

#[test]
fn several_cursors_insert_and_delete_in_turn() {
    const CURSORS: usize = 6;
    const EACH: usize = 20;
    let mut list: List<u32> = List::new();
    let mut inserters = vec![];
    let mut deleters = vec![];
    for _ in 0..CURSORS {
        inserters.push(list.first());
        deleters.push(list.first());
    }
    let mut deleted = 0;
    for round in 0..EACH {
        for (c, cursor) in inserters.iter_mut().enumerate() {
            cursor.insert(&mut list, (c * EACH + round) as u32);
        }
        for cursor in deleters.iter_mut() {
            if cursor.delete(&mut list).is_ok() {
                deleted += 1;
            }
        }
    }
    assert_eq!(deleted, CURSORS * EACH);
    for cursor in inserters {
        cursor.discard(&mut list);
    }
    for cursor in deleters {
        cursor.discard(&mut list);
    }
    assert_eq!(collect(&mut list), Vec::<u32>::new());
    // nothing but the three cells of the empty list is left
    let arena = list.arena();
    assert_eq!(arena.slots() - arena.reclaimed(), 3);
}

#[test]
fn a_stale_cursor_on_deleted_cells_finds_its_way() {
    let mut list: List<u32> = List::new();
    let mut a = list.first();
    for v in [3u32, 2, 1] {
        a.insert(&mut list, v);
    }
    // a stands on 1; b walks to 2
    let mut b = list.first();
    assert_eq!(b.next(&mut list), Ok(true));
    assert_eq!(b.value(&list), Some(&2));
    // a deletes 1 and 2 under b's feet
    assert_eq!(a.delete(&mut list), Ok(()));
    assert_eq!(a.delete(&mut list), Ok(()));
    assert_eq!(b.try_delete(&mut list), Err(Error::Conflict));
    b.update(&mut list);
    assert_eq!(b.value(&list), Some(&3));
    b.insert(&mut list, 10);
    a.discard(&mut list);
    b.discard(&mut list);
    assert_eq!(collect(&mut list), vec![10, 3]);
    let arena = list.arena();
    assert_eq!(arena.slots() - arena.reclaimed(), 3 + 2 * 2);
}

#[test]
fn a_deletion_step_by_step() {
    let mut list: List<u32> = List::new();
    let mut cursor = list.first();
    cursor.insert(&mut list, 2);
    cursor.insert(&mut list, 1);
    assert_eq!(cursor.delete_stage(), DeleteStage::Idle);

    assert_eq!(cursor.outlink_target(&mut list), Ok(()));
    assert_eq!(cursor.delete_stage(), DeleteStage::Unlinked);
    assert_eq!(cursor.target_cell(), None);
    // the element is gone, the marker cell in front of it is still in the list
    assert_eq!(debug_print_list(&list), 5);

    cursor.calculate_delete_start(&mut list);
    assert_eq!(cursor.delete_stage(), DeleteStage::Located);
    cursor.advance_delete_end(&mut list);
    assert_eq!(cursor.delete_stage(), DeleteStage::Aimed);
    assert_eq!(debug_print_list(&list), 5);

    assert_eq!(cursor.delete_csw_chain(&mut list), DeleteLoopCondition::Success);
    assert_eq!(cursor.delete_stage(), DeleteStage::Idle);
    assert_eq!(debug_print_list(&list), 4);
    cursor.discard(&mut list);
    assert_eq!(collect(&mut list), vec![2]);
    let arena = list.arena();
    assert_eq!(arena.slots() - arena.reclaimed(), 5);
}

#[test]
fn outlink_target_refuses_what_try_delete_refuses() {
    let mut list: List<u32> = List::new();
    let mut cursor = list.first();
    assert_eq!(cursor.outlink_target(&mut list), Err(Error::TargetIsTail));
    cursor.insert(&mut list, 1);
    let mut other = list.first();
    other.insert(&mut list, 2);
    assert_eq!(cursor.outlink_target(&mut list), Err(Error::Conflict));
    assert_eq!(cursor.delete_stage(), DeleteStage::Idle);
    cursor.update(&mut list);
    assert_eq!(cursor.outlink_target(&mut list), Ok(()));
    assert_eq!(finish(&mut cursor, &mut list), DeleteLoopCondition::Success);
    assert_eq!(cursor.try_delete(&mut list), Err(Error::NeedsUpdate));
    cursor.discard(&mut list);
    other.discard(&mut list);
    assert_eq!(collect(&mut list), vec![1]);
}

#[test]
fn the_cut_is_tried_again_when_the_link_has_moved() {
    let mut list: List<u32> = List::new();
    let mut a = list.first();
    a.insert(&mut list, 2);
    a.insert(&mut list, 1);
    assert_eq!(a.next(&mut list), Ok(true));
    // a deletes 2 up to the last step
    assert_eq!(a.outlink_target(&mut list), Ok(()));
    a.calculate_delete_start(&mut list);
    a.advance_delete_end(&mut list);
    assert_eq!(debug_print_list(&list), 5);
    // b walks over 1; its update cuts the marker cell out that a aims to cut
    let mut b = list.first();
    assert_eq!(b.next(&mut list), Ok(true));
    assert_eq!(debug_print_list(&list), 4);
    // a finds the link moved, reads it again and has nothing left to cut
    assert_eq!(a.delete_csw_chain(&mut list), DeleteLoopCondition::Success);
    assert_eq!(debug_print_list(&list), 4);
    a.discard(&mut list);
    b.discard(&mut list);
    assert_eq!(collect(&mut list), vec![1]);
    let arena = list.arena();
    assert_eq!(arena.slots() - arena.reclaimed(), 5);
}

#[test]
fn a_deletion_behind_takes_the_cut_over() {
    let mut list: List<u32> = List::new();
    let mut a = list.first();
    for v in [3u32, 2, 1] {
        a.insert(&mut list, v);
    }
    assert_eq!(a.next(&mut list), Ok(true));
    // a deletes 2 up to the last step
    assert_eq!(a.outlink_target(&mut list), Ok(()));
    a.calculate_delete_start(&mut list);
    a.advance_delete_end(&mut list);
    // b walks over 1 and deletes 3: the run behind 1 grows, and b cuts it out
    let mut b = list.first();
    assert_eq!(b.next(&mut list), Ok(true));
    assert_eq!(b.value(&list), Some(&3));
    assert_eq!(b.try_delete(&mut list), Ok(()));
    assert_eq!(debug_print_list(&list), 4);
    // a finds that its marker cell is no longer the last one of the run
    assert_eq!(a.delete_csw_chain(&mut list), DeleteLoopCondition::ConcurrentDelForward);
    assert_eq!(debug_print_list(&list), 4);
    a.discard(&mut list);
    b.discard(&mut list);
    assert_eq!(collect(&mut list), vec![1]);
    let arena = list.arena();
    assert_eq!(arena.slots() - arena.reclaimed(), 5);
}

#[test]
fn a_deletion_in_front_takes_the_cut_over() {
    let mut list: List<u32> = List::new();
    let mut a = list.first();
    a.insert(&mut list, 2);
    a.insert(&mut list, 1);
    assert_eq!(a.next(&mut list), Ok(true));
    // a deletes 2 up to the last step
    assert_eq!(a.outlink_target(&mut list), Ok(()));
    a.calculate_delete_start(&mut list);
    a.advance_delete_end(&mut list);
    // b walks over 1, which moves the link of 1 on
    let mut b = list.first();
    assert_eq!(b.next(&mut list), Ok(true));
    b.discard(&mut list);
    // c deletes 1
    let mut c = list.first();
    assert_eq!(c.value(&list), Some(&1));
    assert_eq!(c.try_delete(&mut list), Ok(()));
    assert_eq!(debug_print_list(&list), 2);
    // a finds the cell in front of its run deleted
    assert_eq!(a.delete_csw_chain(&mut list), DeleteLoopCondition::ConcurrentDelPrev);
    assert_eq!(debug_print_list(&list), 2);
    a.discard(&mut list);
    c.discard(&mut list);
    assert_eq!(collect(&mut list), Vec::<u32>::new());
    let arena = list.arena();
    assert_eq!(arena.slots() - arena.reclaimed(), 3);
}

#[test]
fn two_deletions_side_by_side() {
    let mut list: List<u32> = List::new();
    let mut a = list.first();
    for v in [4u32, 3, 2, 1] {
        a.insert(&mut list, v);
    }
    assert_eq!(a.next(&mut list), Ok(true));
    let mut b = list.first();
    assert_eq!(b.next(&mut list), Ok(true));
    assert_eq!(b.next(&mut list), Ok(true));
    // a deletes 2 and b deletes 3, step for step in turn
    assert_eq!(a.value(&list), Some(&2));
    assert_eq!(b.value(&list), Some(&3));
    assert_eq!(a.outlink_target(&mut list), Ok(()));
    assert_eq!(b.outlink_target(&mut list), Ok(()));
    a.calculate_delete_start(&mut list);
    b.calculate_delete_start(&mut list);
    a.advance_delete_end(&mut list);
    b.advance_delete_end(&mut list);
    let first = a.delete_csw_chain(&mut list);
    let second = b.delete_csw_chain(&mut list);
    assert_eq!(first, DeleteLoopCondition::Success);
    assert_eq!(second, DeleteLoopCondition::Success);
    a.discard(&mut list);
    b.discard(&mut list);
    assert_eq!(collect(&mut list), vec![1, 4]);
    assert_eq!(debug_print_list(&list), 6);
    let arena = list.arena();
    assert_eq!(arena.slots() - arena.reclaimed(), 7);
}

#[test]
fn a_cursor_given_up_in_the_middle_of_a_deletion() {
    let mut list: List<u32> = List::new();
    let mut a = list.first();
    a.insert(&mut list, 2);
    a.insert(&mut list, 1);
    assert_eq!(a.outlink_target(&mut list), Ok(()));
    a.calculate_delete_start(&mut list);
    a.discard(&mut list);
    // the marker cells that the deletion left are cut out by the next walk
    assert_eq!(debug_print_list(&list), 5);
    assert_eq!(collect(&mut list), vec![2]);
    assert_eq!(debug_print_list(&list), 4);
    let arena = list.arena();
    assert_eq!(arena.slots() - arena.reclaimed(), 5);
}

#[test]
fn a_long_list_is_dropped_without_deep_recursion() {
    const MANY: usize = 200_000;
    let mut list: List<u32> = List::new();
    let mut cursor = list.first();
    for i in 0..MANY {
        cursor.insert(&mut list, i as u32);
    }
    cursor.discard(&mut list);
    assert_eq!(list.arena().slots(), 3 + 2 * MANY);
    drop(list);
}

#[test]
fn a_long_run_of_unlinked_cells_is_reclaimed_in_one_release() {
    const MANY: usize = 50_000;
    let mut list: List<u32> = List::new();
    let mut pinning = list.first();
    for i in 0..MANY {
        pinning.insert(&mut list, i as u32);
    }
    // the cursor stands on the first element and keeps it, and with it
    // every marker cell that the deletions behind it leave
    assert_eq!(pinning.next(&mut list), Ok(true));
    let mut deleting = list.first();
    for _ in 0..MANY {
        assert_eq!(deleting.delete(&mut list), Ok(()));
    }
    deleting.discard(&mut list);
    assert_eq!(collect(&mut list), Vec::<u32>::new());
    let held = list.arena().slots() - list.arena().reclaimed();
    assert!(held > MANY);
    pinning.discard(&mut list);
    let arena = list.arena();
    assert_eq!(arena.slots() - arena.reclaimed(), 3);
}

#[test]
fn discard_gives_every_handle_of_the_cursor_up() {
    let mut list: List<u32> = List::new();
    let head = list.first_cell();
    let marker = list.arena().get(head).next().unwrap();
    assert_eq!(list.arena().get(head).ref_count(), 1);
    assert_eq!(list.arena().get(marker).ref_count(), 1);

    let mut cursor = list.first();
    assert_eq!(list.arena().get(head).ref_count(), 2);
    assert_eq!(list.arena().get(marker).ref_count(), 2);
    cursor.insert(&mut list, 5);
    let element = cursor.target_cell().unwrap();
    assert_eq!(list.arena().get(element).ref_count(), 2);

    cursor.discard(&mut list);
    assert_eq!(list.arena().get(head).ref_count(), 1);
    assert_eq!(list.arena().get(marker).ref_count(), 1);
    assert_eq!(list.arena().get(element).ref_count(), 1);
    assert_eq!(list.arena().reclaimed(), 0);

    // a cell that only the cursor refers to goes with the cursor
    let cursor = list.first();
    assert_eq!(cursor.target_cell(), Some(element));
    let mut other = list.first();
    assert_eq!(other.try_delete(&mut list), Ok(()));
    other.discard(&mut list);
    assert!(list.arena().is_live(element));
    assert_eq!(list.arena().get(element).ref_count(), 1);
    cursor.discard(&mut list);
    assert!(!list.arena().is_live(element));
    let arena = list.arena();
    assert_eq!(arena.slots() - arena.reclaimed(), 3);
}
