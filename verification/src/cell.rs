//! The cells of a list: data cells, the marker cells between them, and the
//! two sentinels.
use vstd::prelude::*;
use crate::error::Error;

verus! {

/// What the tail sentinel, which has no counter, reports as its count.
pub const GREATER_THAN_ONE: usize = 10;

/// The link fields and the reclamation control block of a cell.
#[derive(Debug)]
pub struct Links {
    /// The following cell.
    pub next: Option<usize>,
    /// Empty until the cell is logically deleted; then its predecessor at that time.
    pub back_link: Option<usize>,
    /// How many links and handles refer to the cell.
    pub ref_counter: usize,
    /// Set by the one release that reclaims the cell.
    pub claimed: bool,
}

/// The two sentinels.
#[derive(Debug)]
pub enum Dummy {
    /// The head: it has a `next` link and no data.
    First(Links),
    /// The tail: terminal, without links.
    Last,
}

/// A node of the list.
#[derive(Debug)]
pub enum Cell<T> {
    /// One element.
    Data { links: Links, data: T },
    /// The marker that follows every data cell.
    Aux { links: Links },
    /// The head or the tail.
    Dummy(Dummy),
}

impl Links {
    /// Fresh links: no back link, not claimed.
    pub fn new(ref_counter: usize, next: Option<usize>) -> (links: Links)
        ensures
            links.next == next,
            links.back_link.is_none(),
            links.ref_counter == ref_counter,
            !links.claimed,
    {
        Links { next, back_link: None, ref_counter, claimed: false }
    }
}

impl<T> Cell<T> {
    pub open spec fn spec_is_first(&self) -> bool {
        self matches Cell::Dummy(Dummy::First(_))
    }

    pub open spec fn spec_is_data_cell(&self) -> bool {
        self is Data
    }

    pub open spec fn spec_is_aux(&self) -> bool {
        self is Aux
    }

    pub open spec fn spec_is_last(&self) -> bool {
        self matches Cell::Dummy(Dummy::Last)
    }

    pub open spec fn spec_is_after_aux(&self) -> bool {
        self.spec_is_data_cell() || self.spec_is_last()
    }

    /// A head or a data cell: what a marker cell follows.
    pub open spec fn is_normal(&self) -> bool {
        self.spec_is_first() || self.spec_is_data_cell()
    }

    /// The links of the cell, if it has any (the tail has none).
    pub open spec fn links(&self) -> Option<Links> {
        match self {
            Cell::Data { links, .. } => Some(*links),
            Cell::Aux { links } => Some(*links),
            Cell::Dummy(Dummy::First(links)) => Some(*links),
            Cell::Dummy(Dummy::Last) => None,
        }
    }

    pub open spec fn spec_next(&self) -> Option<usize> {
        match self.links() {
            Some(links) => links.next,
            None => None,
        }
    }

    pub open spec fn spec_backlink(&self) -> Option<usize> {
        match self.links() {
            Some(links) => links.back_link,
            None => None,
        }
    }

    /// The reference count; the tail, which is never reclaimed, counts as zero.
    pub open spec fn count(&self) -> usize {
        match self.links() {
            Some(links) => links.ref_counter,
            None => 0,
        }
    }

    pub open spec fn is_claimed(&self) -> bool {
        match self.links() {
            Some(links) => links.claimed,
            None => false,
        }
    }

    pub open spec fn spec_val(&self) -> Option<T> {
        match self {
            Cell::Data { data, .. } => Some(*data),
            _ => None,
        }
    }

    /// The same cell with other links (the tail stays as it is).
    pub open spec fn with_links(self, l: Links) -> Cell<T> {
        match self {
            Cell::Data { links, data } => Cell::Data { links: l, data },
            Cell::Aux { links } => Cell::Aux { links: l },
            Cell::Dummy(Dummy::First(links)) => Cell::Dummy(Dummy::First(l)),
            Cell::Dummy(Dummy::Last) => Cell::Dummy(Dummy::Last),
        }
    }

    /// The cell after one more reference was counted.
    pub open spec fn retained(self) -> Cell<T> {
        match self.links() {
            Some(links) => self.with_links(
                Links {
                    ref_counter: if links.ref_counter < usize::MAX {
                        (links.ref_counter + 1) as usize
                    } else {
                        usize::MAX
                    },
                    ..links
                },
            ),
            None => self,
        }
    }

    /// The cell after one reference was given up.
    pub open spec fn dismissed(self) -> Cell<T> {
        match self.links() {
            Some(links) => self.with_links(
                Links {
                    ref_counter: if 0 < links.ref_counter < usize::MAX {
                        (links.ref_counter - 1) as usize
                    } else {
                        links.ref_counter
                    },
                    ..links
                },
            ),
            None => self,
        }
    }

    /// Same variant and same payload: the two cells differ in their links at most.
    pub open spec fn same_payload(&self, other: &Cell<T>) -> bool {
        match (*self, *other) {
            (Cell::Data { data: a, .. }, Cell::Data { data: b, .. }) => a == b,
            (Cell::Aux { .. }, Cell::Aux { .. }) => true,
            (Cell::Dummy(Dummy::First(_)), Cell::Dummy(Dummy::First(_))) => true,
            (Cell::Dummy(Dummy::Last), Cell::Dummy(Dummy::Last)) => true,
            _ => false,
        }
    }

    /// A data cell holding `val`.
    pub fn data(val: T, ref_counter: usize, next: Option<usize>) -> (cell: Cell<T>)
        ensures
            cell == (Cell::Data { links: Links { next, back_link: None, ref_counter, claimed: false }, data: val }),
    {
        Cell::Data { data: val, links: Links::new(ref_counter, next) }
    }

    /// A marker cell.
    pub fn aux(ref_counter: usize, next: Option<usize>) -> (cell: Cell<T>)
        ensures
            cell == (Cell::<T>::Aux { links: Links { next, back_link: None, ref_counter, claimed: false } }),
    {
        Cell::Aux { links: Links::new(ref_counter, next) }
    }

    /// A head sentinel.
    pub fn first(ref_counter: usize, next: Option<usize>) -> (cell: Cell<T>)
        ensures
            cell == Cell::<T>::Dummy(Dummy::First(Links { next, back_link: None, ref_counter, claimed: false })),
    {
        Cell::Dummy(Dummy::First(Links::new(ref_counter, next)))
    }

    /// A marker cell in front of `next`, counted once for the handle its maker holds.
    pub fn new_aux(next: usize) -> (cell: Cell<T>)
        ensures
            cell == (Cell::<T>::Aux { links: Links { next: Some(next), back_link: None, ref_counter: 1, claimed: false } }),
    {
        Cell::aux(1, Some(next))
    }

    /// A data cell in front of `next`, counted once for the handle its maker holds.
    pub fn new_data(data: T, next: usize) -> (cell: Cell<T>)
        ensures
            cell == (Cell::Data { links: Links { next: Some(next), back_link: None, ref_counter: 1, claimed: false }, data }),
    {
        Cell::data(data, 1, Some(next))
    }

    /// The tail sentinel.
    pub fn new_last() -> (cell: Cell<T>)
        ensures
            cell == Cell::<T>::Dummy(Dummy::Last),
    {
        Cell::Dummy(Dummy::Last)
    }

    /// A head sentinel in front of `next`, counted once for the handle its maker holds.
    pub fn new_first(next: usize) -> (cell: Cell<T>)
        ensures
            cell == Cell::<T>::Dummy(Dummy::First(Links { next: Some(next), back_link: None, ref_counter: 1, claimed: false })),
    {
        Cell::first(1, Some(next))
    }

    /// Loads the `next` link.
    pub fn next(&self) -> (next: Option<usize>)
        ensures
            next == self.spec_next(),
    {
        match self {
            Cell::Data { links, .. } => links.next,
            Cell::Aux { links } => links.next,
            Cell::Dummy(Dummy::First(links)) => links.next,
            Cell::Dummy(Dummy::Last) => None,
        }
    }

    /// Loads the back link.
    pub fn backlink(&self) -> (back: Option<usize>)
        ensures
            back == self.spec_backlink(),
    {
        match self {
            Cell::Data { links, .. } => links.back_link,
            Cell::Aux { links } => links.back_link,
            Cell::Dummy(Dummy::First(links)) => links.back_link,
            Cell::Dummy(Dummy::Last) => None,
        }
    }

    /// Loads the reference count.
    pub fn ref_count(&self) -> (count: usize)
        ensures
            count == self.count(),
    {
        match self {
            Cell::Data { links, .. } => links.ref_counter,
            Cell::Aux { links } => links.ref_counter,
            Cell::Dummy(Dummy::First(links)) => links.ref_counter,
            Cell::Dummy(Dummy::Last) => 0,
        }
    }

    /// Stores `back` as the back link of any cell that has links.
    pub fn set_backlink(&mut self, back: Option<usize>) -> (stored: bool)
        ensures
            stored == !old(self).spec_is_last(),
            stored ==> *final(self) == old(self).with_links(
                Links { back_link: back, ..old(self).links().unwrap() },
            ),
            !stored ==> *final(self) == *old(self),
    {
        match self {
            Cell::Data { links, .. } => {
                links.back_link = back;
                true
            },
            Cell::Aux { links } => {
                links.back_link = back;
                true
            },
            Cell::Dummy(Dummy::First(links)) => {
                links.back_link = back;
                true
            },
            Cell::Dummy(Dummy::Last) => false,
        }
    }

    /// The payload of a data cell.
    pub fn val(&self) -> (val: Option<&T>)
        ensures
            val.is_some() == self.spec_is_data_cell(),
            val matches Some(v) ==> self.spec_val() == Some(*v),
    {
        match self {
            Cell::Data { data, .. } => Some(data),
            Cell::Aux { .. } => None,
            Cell::Dummy(Dummy::First(_)) => None,
            Cell::Dummy(Dummy::Last) => None,
        }
    }

    /// Stores `next` as the `next` link of any cell that has links.
    pub fn set_next(&mut self, next: Option<usize>) -> (stored: bool)
        ensures
            stored == !old(self).spec_is_last(),
            stored ==> *final(self) == old(self).with_links(
                Links { next, ..old(self).links().unwrap() },
            ),
            !stored ==> *final(self) == *old(self),
    {
        match self {
            Cell::Data { links, .. } => {
                links.next = next;
                true
            },
            Cell::Aux { links } => {
                links.next = next;
                true
            },
            Cell::Dummy(Dummy::First(links)) => {
                links.next = next;
                true
            },
            Cell::Dummy(Dummy::Last) => false,
        }
    }

    #[verifier::when_used_as_spec(spec_is_first)]
    pub fn is_first(&self) -> (b: bool)
        ensures
            b == self.spec_is_first(),
    {
        match self {
            Cell::Data { .. } => false,
            Cell::Aux { .. } => false,
            Cell::Dummy(Dummy::First(_)) => true,
            Cell::Dummy(Dummy::Last) => false,
        }
    }

    #[verifier::when_used_as_spec(spec_is_data_cell)]
    pub fn is_data_cell(&self) -> (b: bool)
        ensures
            b == self.spec_is_data_cell(),
    {
        match self {
            Cell::Data { .. } => true,
            Cell::Aux { .. } => false,
            Cell::Dummy(Dummy::First(_)) => false,
            Cell::Dummy(Dummy::Last) => false,
        }
    }

    #[verifier::when_used_as_spec(spec_is_aux)]
    pub fn is_aux(&self) -> (b: bool)
        ensures
            b == self.spec_is_aux(),
    {
        match self {
            Cell::Data { .. } => false,
            Cell::Aux { .. } => true,
            Cell::Dummy(Dummy::First(_)) => false,
            Cell::Dummy(Dummy::Last) => false,
        }
    }

    #[verifier::when_used_as_spec(spec_is_last)]
    pub fn is_last(&self) -> (b: bool)
        ensures
            b == self.spec_is_last(),
    {
        match self {
            Cell::Data { .. } => false,
            Cell::Aux { .. } => false,
            Cell::Dummy(Dummy::First(_)) => false,
            Cell::Dummy(Dummy::Last) => true,
        }
    }

    /// A data cell or the tail: what may follow a marker cell as its target.
    #[verifier::when_used_as_spec(spec_is_after_aux)]
    pub fn is_after_aux(&self) -> (b: bool)
        ensures
            b == self.spec_is_after_aux(),
    {
        match self {
            Cell::Data { .. } => true,
            Cell::Aux { .. } => false,
            Cell::Dummy(Dummy::First(_)) => false,
            Cell::Dummy(Dummy::Last) => true,
        }
    }

    /// Sets the back link of a data cell, once: a second call, or a call on
    /// another variant, changes nothing and says so.
    pub fn store_backlink(&mut self, backlink: usize) -> (stored: bool)
        ensures
            stored == (old(self).spec_is_data_cell() && old(self).spec_backlink().is_none()),
            stored ==> *final(self) == old(self).with_links(
                Links { back_link: Some(backlink), ..old(self).links().unwrap() },
            ),
            !stored ==> *final(self) == *old(self),
    {
        match self {
            Cell::Data { links, .. } => {
                if links.back_link.is_none() {
                    links.back_link = Some(backlink);
                    true
                } else {
                    false
                }
            },
            Cell::Aux { .. } => false,
            Cell::Dummy(Dummy::First(_)) => false,
            Cell::Dummy(Dummy::Last) => false,
        }
    }

    /// Takes both links out of the cell and hands them to the caller, who
    /// releases them.
    pub fn drop_links(&mut self) -> (taken: (Option<usize>, Option<usize>))
        ensures
            taken == (old(self).spec_next(), old(self).spec_backlink()),
            !old(self).spec_is_last() ==> *final(self) == old(self).with_links(
                Links { next: None, back_link: None, ..old(self).links().unwrap() },
            ),
            old(self).spec_is_last() ==> *final(self) == *old(self),
    {
        match self {
            Cell::Data { links, .. } => {
                let next = links.next.take();
                let back = links.back_link.take();
                (next, back)
            },
            Cell::Aux { links } => {
                let next = links.next.take();
                let back = links.back_link.take();
                (next, back)
            },
            Cell::Dummy(Dummy::First(links)) => {
                let next = links.next.take();
                let back = links.back_link.take();
                (next, back)
            },
            Cell::Dummy(Dummy::Last) => (None, None),
        }
    }

    /// Compare-and-swap on the `next` link: if it holds `p`, it is replaced
    /// by `n` and the previous occupant is returned; otherwise nothing changes.
    pub fn swap_in_next(&mut self, p: usize, n: usize) -> (swapped: Result<usize, Error>)
        ensures
            old(self).spec_is_last() ==> swapped == Err::<usize, Error>(Error::TargetIsTail),
            !old(self).spec_is_last() && old(self).spec_next() != Some(p) ==> swapped == Err::<
                usize,
                Error,
            >(Error::Conflict),
            !old(self).spec_is_last() && old(self).spec_next() == Some(p) ==> swapped == Ok::<
                usize,
                Error,
            >(p),
            swapped.is_ok() ==> *final(self) == old(self).with_links(
                Links { next: Some(n), ..old(self).links().unwrap() },
            ),
            swapped.is_err() ==> *final(self) == *old(self),
    {
        match self {
            Cell::Data { links, .. } => {
                if links.next == Some(p) {
                    links.next = Some(n);
                    Ok(p)
                } else {
                    Err(Error::Conflict)
                }
            },
            Cell::Aux { links } => {
                if links.next == Some(p) {
                    links.next = Some(n);
                    Ok(p)
                } else {
                    Err(Error::Conflict)
                }
            },
            Cell::Dummy(Dummy::First(links)) => {
                if links.next == Some(p) {
                    links.next = Some(n);
                    Ok(p)
                } else {
                    Err(Error::Conflict)
                }
            },
            Cell::Dummy(Dummy::Last) => Err(Error::TargetIsTail),
        }
    }

    /// Whether the `next` link holds `target`.
    pub fn next_cmp(&self, target: usize) -> (same: bool)
        ensures
            same == (self.spec_next() == Some(target)),
    {
        match self {
            Cell::Data { links, .. } => links.next == Some(target),
            Cell::Aux { links } => links.next == Some(target),
            Cell::Dummy(Dummy::First(links)) => links.next == Some(target),
            Cell::Dummy(Dummy::Last) => false,
        }
    }

    /// Counts one more reference.  A counter at the machine limit stays
    /// there: such a cell is never reclaimed.
    pub fn retain(&mut self)
        ensures
            *final(self) == old(self).retained(),
    {
        match self {
            Cell::Data { links, .. } => {
                if links.ref_counter < usize::MAX {
                    links.ref_counter = links.ref_counter + 1;
                }
            },
            Cell::Aux { links } => {
                if links.ref_counter < usize::MAX {
                    links.ref_counter = links.ref_counter + 1;
                }
            },
            Cell::Dummy(Dummy::First(links)) => {
                if links.ref_counter < usize::MAX {
                    links.ref_counter = links.ref_counter + 1;
                }
            },
            Cell::Dummy(Dummy::Last) => {},
        }
    }

    /// Gives up one reference and returns the count as it was before.  The
    /// tail, which is never reclaimed, answers with a count above one; a
    /// counter at the machine limit, or at zero, stays where it is.
    pub fn dismiss(&mut self) -> (before: usize)
        ensures
            *final(self) == old(self).dismissed(),
            before == if old(self).spec_is_last() {
                GREATER_THAN_ONE
            } else {
                old(self).count()
            },
    {
        match self {
            Cell::Data { links, .. } => {
                let before = links.ref_counter;
                if 0 < before && before < usize::MAX {
                    links.ref_counter = before - 1;
                }
                before
            },
            Cell::Aux { links } => {
                let before = links.ref_counter;
                if 0 < before && before < usize::MAX {
                    links.ref_counter = before - 1;
                }
                before
            },
            Cell::Dummy(Dummy::First(links)) => {
                let before = links.ref_counter;
                if 0 < before && before < usize::MAX {
                    links.ref_counter = before - 1;
                }
                before
            },
            Cell::Dummy(Dummy::Last) => GREATER_THAN_ONE,
        }
    }

    /// Sets the claimed flag of a data or marker cell and returns what it
    /// was before.  The sentinels always answer `true`: nobody may reclaim them.
    pub fn claim(&mut self) -> (before: bool)
        ensures
            before == (old(self).is_claimed() || old(self).spec_is_first()
                || old(self).spec_is_last()),
            old(self).spec_is_data_cell() || old(self).spec_is_aux() ==> *final(self)
                == old(self).with_links(Links { claimed: true, ..old(self).links().unwrap() }),
            old(self).spec_is_first() || old(self).spec_is_last() ==> *final(self) == *old(self),
    {
        match self {
            Cell::Data { links, .. } => {
                let before = links.claimed;
                links.claimed = true;
                before
            },
            Cell::Aux { links } => {
                let before = links.claimed;
                links.claimed = true;
                before
            },
            Cell::Dummy(Dummy::First(_)) => true,
            Cell::Dummy(Dummy::Last) => true,
        }
    }
}

} // verus!
