use conc_linklists::arena::{release, release_opt, safe_read, safe_read_backlink, safe_read_ptr, Arena};
use conc_linklists::cell::Cell;
use conc_linklists::error::Error;

/// tail, marker cell, data cell, marker cell, head: the cells of a list of one element
fn sample() -> (Arena<u32>, [usize; 5]) {
    let mut arena: Arena<u32> = Arena::new();
    let last = arena.allocate(Cell::new_last());
    let aux2 = arena.allocate(Cell::new_aux(last));
    let data = arena.allocate(Cell::new_data(42, aux2));
    let aux1 = arena.allocate(Cell::new_aux(data));
    let first = arena.allocate(Cell::new_first(aux1));
    (arena, [first, aux1, data, aux2, last])
}

#[test]
fn allocate_fills_fresh_slots() {
    let (arena, [first, aux1, data, aux2, last]) = sample();
    assert_eq!(arena.slots(), 5);
    assert_eq!(arena.reclaimed(), 0);
    assert_eq!([last, aux2, data, aux1, first], [0, 1, 2, 3, 4]);
    assert!(arena.is_live(first));
    assert!(!arena.is_live(5));
    assert_eq!(arena.get(data).val(), Some(&42));
    assert_eq!(arena.get(first).next(), Some(aux1));
}

#[test]
fn safe_read_takes_a_handle_and_release_gives_it_up() {
    let (mut arena, [first, aux1, data, _aux2, last]) = sample();
    assert_eq!(safe_read(&mut arena, first), aux1);
    assert_eq!(arena.get(aux1).ref_count(), 2);
    assert_eq!(safe_read_ptr(&mut arena, data), data);
    assert_eq!(arena.get(data).ref_count(), 2);
    release(&mut arena, aux1);
    assert_eq!(arena.get(aux1).ref_count(), 1);
    release_opt(&mut arena, Some(data));
    assert_eq!(arena.get(data).ref_count(), 1);
    release_opt(&mut arena, None);
    assert_eq!(arena.reclaimed(), 0);
    // the tail has no counter
    assert_eq!(safe_read_ptr(&mut arena, last), last);
    release(&mut arena, last);
    assert!(arena.is_live(last));
    assert_eq!(safe_read_backlink(&mut arena, data), None);
}

#[test]
fn the_last_release_reclaims_a_cell_and_what_it_alone_referred_to() {
    let mut arena: Arena<u32> = Arena::new();
    let last = arena.allocate(Cell::new_last());
    let aux = arena.allocate(Cell::new_aux(last));
    let kept = safe_read_ptr(&mut arena, aux);
    let data = arena.allocate(Cell::new_data(1, kept));
    // an unlinked pair: the data cell is held once, the marker cell by its link alone
    let aux2 = arena.allocate(Cell::new_aux(last));
    let data2 = arena.allocate(Cell::new_data(2, aux2));
    release(&mut arena, data2);
    assert!(!arena.is_live(data2));
    assert!(!arena.is_live(aux2));
    assert_eq!(arena.reclaimed(), 2);
    // the data cell goes, the marker cell stays: a handle is still out
    release(&mut arena, data);
    assert!(!arena.is_live(data));
    assert!(arena.is_live(aux));
    assert_eq!(arena.get(aux).ref_count(), 1);
    release(&mut arena, aux);
    assert!(!arena.is_live(aux));
    assert!(arena.is_live(last));
    assert_eq!(arena.reclaimed(), 4);
}

#[test]
fn the_head_is_never_reclaimed() {
    let (mut arena, [first, aux1, ..]) = sample();
    release(&mut arena, first);
    assert!(arena.is_live(first));
    assert_eq!(arena.get(first).ref_count(), 0);
    assert!(arena.is_live(aux1));
    assert_eq!(arena.reclaimed(), 0);
}

#[test]
fn swap_in_next_moves_a_link() {
    let (mut arena, [first, aux1, data, aux2, _last]) = sample();
    let h = safe_read_ptr(&mut arena, aux2);
    assert_eq!(arena.swap_in_next(first, data, h), Err(Error::Conflict));
    assert_eq!(arena.get(first).next(), Some(aux1));
    assert_eq!(arena.swap_in_next(first, aux1, h), Ok(aux1));
    assert_eq!(arena.get(first).next(), Some(aux2));
    // the link's reference to the old occupant is now the caller's handle
    release(&mut arena, aux1);
    assert!(!arena.is_live(aux1));
    assert!(!arena.is_live(data));
    assert!(arena.is_live(aux2));
    assert_eq!(arena.get(aux2).ref_count(), 1);
}

#[test]
fn test_set_backlink() {
    let (mut arena, [first, _aux1, data, ..]) = sample();
    let h = safe_read_ptr(&mut arena, first);
    assert!(arena.store_backlink(data, h));

    let backlink = safe_read_backlink(&mut arena, data);

    assert_eq!(backlink, Some(first));
    assert_eq!(arena.get(first).ref_count(), 3);
    // a second back link is refused
    let h = safe_read_ptr(&mut arena, first);
    assert!(!arena.store_backlink(data, h));
    assert_eq!(arena.get(data).backlink(), Some(first));
}

#[test]
fn a_counter_at_the_limit_pins_its_cell() {
    let mut arena: Arena<u32> = Arena::new();
    let last = arena.allocate(Cell::new_last());
    let aux = arena.allocate(Cell::aux(usize::MAX - 1, Some(last)));
    assert_eq!(safe_read_ptr(&mut arena, aux), aux);
    assert_eq!(arena.get(aux).ref_count(), usize::MAX);
    assert_eq!(safe_read_ptr(&mut arena, aux), aux);
    assert_eq!(arena.get(aux).ref_count(), usize::MAX);
    release(&mut arena, aux);
    release(&mut arena, aux);
    release(&mut arena, aux);
    assert_eq!(arena.get(aux).ref_count(), usize::MAX);
    assert!(arena.is_live(aux));
    assert_eq!(arena.reclaimed(), 0);
}

#[test]
fn a_release_that_is_not_the_last_only_counts_down() {
    let (mut arena, [first, aux1, data, aux2, last]) = sample();
    let h = safe_read(&mut arena, aux1);
    assert_eq!(h, data);
    release(&mut arena, h);
    for cell in [first, aux1, data, aux2, last] {
        assert!(arena.is_live(cell));
    }
    assert_eq!(arena.get(data).ref_count(), 1);
    assert_eq!(arena.get(aux2).ref_count(), 1);
    assert_eq!(arena.get(first).ref_count(), 1);
}
