use conc_linklists::cell::{Cell, Dummy, Links, GREATER_THAN_ONE};
use conc_linklists::error::Error;

#[test]
fn variants_are_told_apart() {
    let data: Cell<u32> = Cell::data(5, 1, Some(2));
    let aux: Cell<u32> = Cell::aux(1, Some(3));
    let first: Cell<u32> = Cell::first(1, Some(1));
    let last: Cell<u32> = Cell::new_last();

    assert!(data.is_data_cell() && !data.is_aux() && !data.is_last() && !data.is_first());
    assert!(!aux.is_data_cell() && aux.is_aux() && !aux.is_last() && !aux.is_first());
    assert!(!first.is_data_cell() && !first.is_aux() && !first.is_last() && first.is_first());
    assert!(!last.is_data_cell() && !last.is_aux() && last.is_last() && !last.is_first());

    assert!(data.is_after_aux());
    assert!(last.is_after_aux());
    assert!(!aux.is_after_aux());
    assert!(!first.is_after_aux());
}

#[test]
fn accessors_read_the_links() {
    let data: Cell<u32> = Cell::new_data(5, 2);
    assert_eq!(data.next(), Some(2));
    assert_eq!(data.backlink(), None);
    assert_eq!(data.val(), Some(&5));
    assert_eq!(data.ref_count(), 1);

    let aux: Cell<u32> = Cell::new_aux(7);
    assert_eq!(aux.next(), Some(7));
    assert_eq!(aux.val(), None);

    let first: Cell<u32> = Cell::new_first(1);
    assert_eq!(first.next(), Some(1));
    assert_eq!(first.val(), None);

    let last: Cell<u32> = Cell::Dummy(Dummy::Last);
    assert_eq!(last.next(), None);
    assert_eq!(last.backlink(), None);
    assert_eq!(last.val(), None);
    assert_eq!(last.ref_count(), 0);

    let links = Links::new(3, None);
    assert_eq!(links.next, None);
    assert_eq!(links.back_link, None);
    assert_eq!(links.ref_counter, 3);
    assert!(!links.claimed);
}

#[test]
fn setters_store_unless_the_cell_is_the_tail() {
    let mut aux: Cell<u32> = Cell::aux(1, None);
    assert!(aux.set_next(Some(4)));
    assert_eq!(aux.next(), Some(4));
    assert!(aux.set_backlink(Some(9)));
    assert_eq!(aux.backlink(), Some(9));

    let mut last: Cell<u32> = Cell::new_last();
    assert!(!last.set_next(Some(4)));
    assert!(!last.set_backlink(Some(4)));
    assert_eq!(last.next(), None);
}

#[test]
fn swap_in_next_is_a_compare_and_swap() {
    let mut aux: Cell<u32> = Cell::new_aux(4);
    assert!(aux.next_cmp(4));
    assert!(!aux.next_cmp(5));
    assert_eq!(aux.swap_in_next(5, 6), Err(Error::Conflict));
    assert_eq!(aux.next(), Some(4));
    assert_eq!(aux.swap_in_next(4, 6), Ok(4));
    assert_eq!(aux.next(), Some(6));
    assert!(aux.next_cmp(6));

    let mut last: Cell<u32> = Cell::new_last();
    assert_eq!(last.swap_in_next(4, 6), Err(Error::TargetIsTail));
    assert!(!last.next_cmp(4));
}

#[test]
fn store_backlink_works_once_and_on_data_only() {
    let mut data: Cell<u32> = Cell::new_data(1, 2);
    assert!(data.store_backlink(7));
    assert_eq!(data.backlink(), Some(7));
    assert!(!data.store_backlink(8));
    assert_eq!(data.backlink(), Some(7));

    let mut aux: Cell<u32> = Cell::new_aux(2);
    assert!(!aux.store_backlink(7));
    assert_eq!(aux.backlink(), None);
    let mut first: Cell<u32> = Cell::new_first(2);
    assert!(!first.store_backlink(7));
    let mut last: Cell<u32> = Cell::new_last();
    assert!(!last.store_backlink(7));
}

#[test]
fn drop_links_hands_the_links_out() {
    let mut data: Cell<u32> = Cell::new_data(1, 2);
    assert!(data.store_backlink(7));
    assert_eq!(data.drop_links(), (Some(2), Some(7)));
    assert_eq!(data.next(), None);
    assert_eq!(data.backlink(), None);
    assert_eq!(data.drop_links(), (None, None));

    let mut last: Cell<u32> = Cell::new_last();
    assert_eq!(last.drop_links(), (None, None));
}

#[test]
fn counters_go_up_and_down() {
    let mut aux: Cell<u32> = Cell::aux(1, Some(0));
    aux.retain();
    assert_eq!(aux.ref_count(), 2);
    assert_eq!(aux.dismiss(), 2);
    assert_eq!(aux.ref_count(), 1);
    assert_eq!(aux.dismiss(), 1);
    assert_eq!(aux.ref_count(), 0);
    assert_eq!(aux.dismiss(), 0);
    assert_eq!(aux.ref_count(), 0);

    let mut pinned: Cell<u32> = Cell::aux(usize::MAX - 1, Some(0));
    pinned.retain();
    assert_eq!(pinned.ref_count(), usize::MAX);
    pinned.retain();
    assert_eq!(pinned.ref_count(), usize::MAX);
    assert_eq!(pinned.dismiss(), usize::MAX);
    assert_eq!(pinned.ref_count(), usize::MAX);

    let mut last: Cell<u32> = Cell::new_last();
    last.retain();
    assert_eq!(last.dismiss(), GREATER_THAN_ONE);
    assert_eq!(last.ref_count(), 0);
}

#[test]
fn claim_is_won_once() {
    let mut data: Cell<u32> = Cell::new_data(1, 2);
    assert!(!data.claim());
    assert!(data.claim());
    let mut aux: Cell<u32> = Cell::new_aux(2);
    assert!(!aux.claim());
    assert!(aux.claim());
    let mut first: Cell<u32> = Cell::new_first(2);
    assert!(first.claim());
    let mut last: Cell<u32> = Cell::new_last();
    assert!(last.claim());
}
