//! The memory that cells live in, and the protocol by which handles on
//! cells are taken and given up.
//!
//! Every cell counts the references to it: the links that lead to it and the
//! handles that cursors hold on it.  A cell is reclaimed by the release that
//! takes its count to zero, and the links that it held are released in turn.
use vstd::prelude::*;
use crate::cell::Cell;
use crate::error::Error;

verus! {

/// The memory that the cells of a list live in.
///
/// A pointer to a cell is the index of its slot.  A slot is emptied when its
/// cell is reclaimed, and is never filled again, so an index names one cell for
/// good.
pub struct Arena<T> {
    cells: Vec<Option<Cell<T>>>,
}

/// How many of the links of the cell in `slot` refer to `i`.
spec fn refs_from<T>(slot: Option<Cell<T>>, i: usize) -> nat {
    match slot {
        None => 0,
        Some(c) => (if c.spec_next() == Some(i) {
            1nat
        } else {
            0nat
        }) + (if c.spec_backlink() == Some(i) {
            1nat
        } else {
            0nat
        }),
    }
}

/// How many links in `s` refer to `i`.
pub closed spec fn inlinks<T>(s: Seq<Option<Cell<T>>>, i: usize) -> nat
    decreases s.len(),
{
    if s.len() == 0 {
        0
    } else {
        inlinks(s.drop_last(), i) + refs_from(s.last(), i)
    }
}

/// How many slots of `s` are filled.
pub closed spec fn filled<T>(s: Seq<Option<Cell<T>>>) -> nat
    decreases s.len(),
{
    if s.len() == 0 {
        0
    } else {
        filled(s.drop_last()) + if s.last().is_some() {
            1nat
        } else {
            0nat
        }
    }
}

/// How often `x` occurs in `s`.
spec fn occurrences(s: Seq<usize>, x: usize) -> nat
    decreases s.len(),
{
    if s.len() == 0 {
        0
    } else {
        occurrences(s.drop_last(), x) + if s.last() == x {
            1nat
        } else {
            0nat
        }
    }
}

proof fn lemma_inlinks_update<T>(s: Seq<Option<Cell<T>>>, p: int, slot: Option<Cell<T>>, i: usize)
    requires
        0 <= p < s.len(),
    ensures
        inlinks(s.update(p, slot), i) + refs_from(s[p], i) == inlinks(s, i) + refs_from(slot, i),
    decreases s.len(),
{
    let t = s.update(p, slot);
    if p == s.len() - 1 {
        assert(t.drop_last() =~= s.drop_last());
    } else {
        assert(t.drop_last() =~= s.drop_last().update(p, slot));
        lemma_inlinks_update(s.drop_last(), p, slot, i);
    }
}

proof fn lemma_inlinks_push<T>(s: Seq<Option<Cell<T>>>, slot: Option<Cell<T>>, i: usize)
    ensures
        inlinks(s.push(slot), i) == inlinks(s, i) + refs_from(slot, i),
{
    assert(s.push(slot).drop_last() =~= s);
}

proof fn lemma_inlinks_bound<T>(s: Seq<Option<Cell<T>>>, p: int, i: usize)
    requires
        0 <= p < s.len(),
    ensures
        refs_from(s[p], i) <= inlinks(s, i),
    decreases s.len(),
{
    if p < s.len() - 1 {
        lemma_inlinks_bound(s.drop_last(), p, i);
    }
}

proof fn lemma_inlinks_none<T>(s: Seq<Option<Cell<T>>>, i: usize)
    requires
        forall|p: int| 0 <= p < s.len() ==> refs_from(#[trigger] s[p], i) == 0,
    ensures
        inlinks(s, i) == 0,
    decreases s.len(),
{
    if s.len() > 0 {
        lemma_inlinks_none(s.drop_last(), i);
    }
}

proof fn lemma_filled_update<T>(s: Seq<Option<Cell<T>>>, p: int)
    requires
        0 <= p < s.len(),
        s[p].is_some(),
    ensures
        filled(s.update(p, None)) + 1 == filled(s),
    decreases s.len(),
{
    let t = s.update(p, None);
    if p == s.len() - 1 {
        assert(t.drop_last() =~= s.drop_last());
    } else {
        assert(t.drop_last() =~= s.drop_last().update(p, None));
        lemma_filled_update(s.drop_last(), p);
    }
}

proof fn lemma_filled_all<T>(s: Seq<Option<Cell<T>>>)
    requires
        forall|p: int| 0 <= p < s.len() ==> (#[trigger] s[p]).is_some(),
    ensures
        filled(s) == s.len(),
    decreases s.len(),
{
    if s.len() > 0 {
        lemma_filled_all(s.drop_last());
    }
}

proof fn lemma_filled_same<T>(s: Seq<Option<Cell<T>>>, t: Seq<Option<Cell<T>>>)
    requires
        s.len() == t.len(),
        forall|p: int| 0 <= p < s.len() ==> s[p].is_some() == t[p].is_some(),
    ensures
        filled(s) == filled(t),
    decreases s.len(),
{
    if s.len() > 0 {
        lemma_filled_same(s.drop_last(), t.drop_last());
    }
}

proof fn lemma_occurrences_push(s: Seq<usize>, y: usize, x: usize)
    ensures
        occurrences(s.push(y), x) == occurrences(s, x) + if y == x {
            1nat
        } else {
            0nat
        },
{
    assert(s.push(y).drop_last() =~= s);
}

proof fn lemma_occurrences_at(s: Seq<usize>, k: int)
    requires
        0 <= k < s.len(),
    ensures
        occurrences(s, s[k]) >= 1,
    decreases s.len(),
{
    if k < s.len() - 1 {
        lemma_occurrences_at(s.drop_last(), k);
    }
}

impl<T> View for Arena<T> {
    type V = Seq<Option<Cell<T>>>;

    /// The slots, in order: `None` where a cell was reclaimed.
    closed spec fn view(&self) -> Seq<Option<Cell<T>>> {
        self.cells@
    }
}

impl<T> Arena<T> {
    /// The number of slots, filled or emptied.
    pub open spec fn capacity(&self) -> nat {
        self@.len()
    }

    /// The number of cells in the arena.
    pub open spec fn population(&self) -> nat {
        filled(self@)
    }

    /// Slot `i` holds a cell: it was allocated and has not been reclaimed.
    pub open spec fn live(&self, i: usize) -> bool {
        i < self@.len() && self@[i as int].is_some()
    }

    /// The cell in slot `i`.
    pub open spec fn cell(&self, i: usize) -> Cell<T> {
        if self.live(i) {
            self@[i as int].unwrap()
        } else {
            arbitrary()
        }
    }

    /// How many handles on cell `i` are out: its count less the links that
    /// refer to it.
    pub open spec fn held(&self, i: usize) -> int {
        self.cell(i).count() - inlinks(self@, i)
    }

    /// Cell `i` is never reclaimed: it is the tail, or its counter has
    /// reached the machine limit.
    pub open spec fn immortal(&self, i: usize) -> bool {
        self.cell(i).spec_is_last() || self.cell(i).count() == usize::MAX
    }

    /// Cell `i` is there, and `k` handles on it can be given up safely.
    pub open spec fn covered(&self, i: usize, k: int) -> bool {
        self.live(i) && (self.immortal(i) || self.held(i) >= k)
    }

    /// What the arena's invariant says of cell `i`.
    pub open spec fn sound(&self, i: usize) -> bool {
        let c = self.cell(i);
        &&& !c.is_claimed()
        &&& c.spec_is_data_cell() || c.spec_is_aux() ==> c.count() >= 1
        &&& !c.spec_is_last() ==> {
            &&& c.spec_next().is_some()
            &&& self.live(c.spec_next().unwrap())
            &&& c.is_normal() ==> self.cell(c.spec_next().unwrap()).spec_is_aux()
            &&& c.spec_is_aux() ==> !self.cell(c.spec_next().unwrap()).spec_is_first()
        }
        &&& c.spec_backlink().is_some() ==> {
            &&& c.spec_is_data_cell()
            &&& self.live(c.spec_backlink().unwrap())
            &&& self.cell(c.spec_backlink().unwrap()).is_normal()
        }
        &&& self.immortal(i) || self.held(i) >= 0
    }

    /// The invariant: links are typed and lead to live cells, and no counter
    /// is below the number of links that refer to its cell.
    pub open spec fn wf(&self) -> bool {
        forall|i: usize| self.live(i) ==> #[trigger] self.sound(i)
    }

    /// `cell` may be put into the arena: it is counted at least once, it is
    /// not deleted, and its `next` link is a handle that the caller gives up.
    pub open spec fn accepts(&self, cell: Cell<T>) -> bool {
        &&& !cell.is_claimed()
        &&& cell.spec_backlink().is_none()
        &&& !cell.spec_is_last() ==> {
            &&& cell.count() >= 1
            &&& cell.spec_next().is_some()
            &&& self.covered(cell.spec_next().unwrap(), 1)
            &&& cell.is_normal() ==> self.cell(cell.spec_next().unwrap()).spec_is_aux()
            &&& cell.spec_is_aux() ==> !self.cell(cell.spec_next().unwrap()).spec_is_first()
        }
    }

    /// No slot is filled twice: a cell that was reclaimed in `before` is not
    /// there in this arena either, and new cells stand in new slots.
    pub open spec fn succeeds(&self, before: &Arena<T>) -> bool {
        &&& before.capacity() <= self.capacity()
        &&& forall|i: usize| i < before.capacity() && !before.live(i) ==> !#[trigger] self.live(i)
    }

    /// This arena is `before` after one more handle on `q` was taken.
    pub open spec fn acquired(&self, before: &Arena<T>, q: usize) -> bool {
        &&& self.capacity() == before.capacity()
        &&& forall|i: usize| #[trigger] self.live(i) == before.live(i)
        &&& forall|i: usize| i != q ==> #[trigger] self.cell(i) == before.cell(i)
        &&& forall|i: usize| i != q ==> #[trigger] self.held(i) == before.held(i)
        &&& self.cell(q) == before.cell(q).retained()
        &&& !self.immortal(q) ==> self.held(q) == before.held(q) + 1
    }

    /// The invariant speaks of the slots alone.
    pub proof fn lemma_wf_by_view(&self, other: &Arena<T>)
        requires
            other.wf(),
            self@ == other@,
        ensures
            self.wf(),
    {
        assert forall|i: usize| self.live(i) implies #[trigger] self.sound(i) by {
            assert(other.live(i));
            assert(other.sound(i));
        }
    }

    /// A cell that no live cell links to is held as often as it is counted.
    pub proof fn lemma_unreferenced(&self, i: usize)
        requires
            forall|j: usize| #[trigger]
                self.live(j) ==> self.cell(j).spec_next() != Some(i) && self.cell(
                    j,
                ).spec_backlink() != Some(i),
        ensures
            self.held(i) == self.cell(i).count(),
    {
        let s = self.cells@;
        assert(s.len() == self.cells.len());
        assert forall|p: int| 0 <= p < s.len() implies refs_from(#[trigger] s[p], i) == 0 by {
            if s[p].is_some() {
                assert(self.live(p as usize));
            }
        }
        lemma_inlinks_none(s, i);
    }

    /// Handles that were covered stay covered when one more is taken.
    pub proof fn lemma_acquired_keeps(&self, before: &Arena<T>, q: usize, i: usize, k: int)
        requires
            self.acquired(before, q),
            before.covered(i, k),
        ensures
            self.covered(i, if i == q { k + 1 } else { k }),
    {
        assert(self.live(i) == before.live(i));
        if i != q {
            assert(self.cell(i) == before.cell(i));
            assert(self.held(i) == before.held(i));
        }
    }

    /// Handles that were covered stay covered when another is given up.
    pub proof fn lemma_released_keeps(&self, before: &Arena<T>, p: usize, i: usize, k: int)
        requires
            self.released(before, p),
            before.covered(i, if i == p { k + 1 } else { k }),
            k >= 1,
        ensures
            self.covered(i, k),
    {
        if !self.live(i) {
            assert(before.live(i) && !self.live(i));
        }
        assert(self.live(i));
    }

    /// Handles that were covered stay covered over a swap of a link.
    pub proof fn lemma_swapped_keeps(
        &self,
        before: &Arena<T>,
        at: usize,
        expected: usize,
        new: usize,
        i: usize,
        k: int,
    )
        requires
            self.swapped(before, at, expected, new),
            before.live(at),
            !before.cell(at).spec_is_last(),
            before.covered(i, k),
        ensures
            self.covered(
                i,
                k + (if i == expected { 1int } else { 0int }) - (if i == new { 1int } else { 0int }),
            ),
    {
        assert(self.live(i) == before.live(i));
        if i != at {
            assert(self.cell(i) == before.cell(i));
        }
        assert(self.held(i) == before.held(i) + (if i == expected { 1int } else { 0int }) - (if i
            == new { 1int } else { 0int }));
    }

    /// Handles that were covered stay covered when a back link is set.
    pub proof fn lemma_backlinked_keeps(&self, before: &Arena<T>, at: usize, back: usize, i: usize, k: int)
        requires
            self.backlinked(before, at, back),
            before.live(at),
            before.cell(at).spec_is_data_cell(),
            before.covered(i, k),
        ensures
            self.covered(i, k - (if i == back { 1int } else { 0int })),
    {
        assert(self.live(i) == before.live(i));
        if i != at {
            assert(self.cell(i) == before.cell(i));
        }
        assert(self.held(i) == before.held(i) - (if i == back { 1int } else { 0int }));
    }

    /// No cell whose counter is at zero is left in the arena, but for the
    /// head sentinel, which is never reclaimed.
    pub proof fn law_counted_while_there(&self, i: usize)
        requires
            self.wf(),
            self.live(i),
            self.cell(i).spec_is_data_cell() || self.cell(i).spec_is_aux(),
        ensures
            self.cell(i).count() >= 1,
            !self.cell(i).is_claimed(),
    {
        assert(self.sound(i));
    }

    /// A cell is reclaimed once: through whatever steps an arena goes, a
    /// slot that was emptied stays empty.
    pub proof fn law_reclaimed_once(&self, mid: &Arena<T>, before: &Arena<T>)
        requires
            self.succeeds(mid),
            mid.succeeds(before),
        ensures
            self.succeeds(before),
    {
        assert forall|i: usize| i < before.capacity() && !before.live(i) implies !#[trigger] self.live(
            i,
        ) by {
            assert(!mid.live(i));
        }
    }

    /// In an arena without emptied slots there are as many cells as slots.
    pub proof fn lemma_population_full(&self)
        requires
            forall|i: usize| i < self.capacity() ==> #[trigger] self.live(i),
        ensures
            self.population() == self.capacity(),
    {
        let s = self.cells@;
        assert(s.len() == self.cells.len());
        assert forall|p: int| 0 <= p < s.len() implies (#[trigger] s[p]).is_some() by {
            assert(self.live(p as usize));
        }
        lemma_filled_all(s);
    }

    /// A cell that a live cell links to is counted more often than it is held.
    pub proof fn lemma_referenced(&self, j: usize, i: usize)
        requires
            self.live(j),
            self.cell(j).spec_next() == Some(i) || self.cell(j).spec_backlink() == Some(i),
        ensures
            self.held(i) < self.cell(i).count(),
    {
        lemma_inlinks_bound(self.cells@, j as int, i);
    }

    /// An arena without cells.
    pub fn new() -> (arena: Arena<T>)
        ensures
            arena.wf(),
            arena.capacity() == 0,
            forall|i: usize| !arena.live(i),
    {
        Arena { cells: Vec::new() }
    }

    /// Puts `cell` into a fresh slot and returns the slot's index.  The
    /// handle on the cell's successor, which the caller held, becomes the link.
    pub fn allocate(&mut self, cell: Cell<T>) -> (at: usize)
        requires
            old(self).wf(),
            old(self).accepts(cell),
        ensures
            final(self).wf(),
            final(self).succeeds(old(self)),
            at == old(self).capacity(),
            final(self).capacity() == old(self).capacity() + 1,
            !old(self).live(at),
            final(self).live(at),
            final(self).cell(at) == cell,
            final(self).held(at) == cell.count(),
            forall|i: usize| i != at ==> #[trigger] final(self).live(i) == old(self).live(i),
            forall|i: usize| i != at ==> #[trigger] final(self).cell(i) == old(self).cell(i),
            forall|i: usize|
                i != at ==> #[trigger] final(self).held(i) == old(self).held(i) - if cell.spec_next()
                    == Some(i) {
                    1int
                } else {
                    0int
                },
    {
        let at = self.cells.len();
        proof {
            let s = self.cells@;
            assert forall|i: usize| i != at implies inlinks(s.push(Some(cell)), i) == inlinks(s, i)
                + if cell.spec_next() == Some(i) {
                1nat
            } else {
                0nat
            } by {
                lemma_inlinks_push(s, Some(cell), i);
            }
            assert forall|p: int| 0 <= p < s.len() implies refs_from(#[trigger] s[p], at) == 0 by {
                if s[p].is_some() {
                    assert(self.live(p as usize));
                    assert(self.sound(p as usize));
                }
            }
            lemma_inlinks_none(s, at);
            lemma_inlinks_push(s, Some(cell), at);
        }
        self.cells.push(Some(cell));
        proof {
            assert forall|i: usize| self.live(i) implies #[trigger] self.sound(i) by {
                if i != at {
                    assert(old(self).live(i));
                    assert(old(self).sound(i));
                }
            }
        }
        at
    }

    /// The cell in slot `at`.
    pub fn get(&self, at: usize) -> (cell: &Cell<T>)
        requires
            self.live(at),
        ensures
            *cell == self.cell(at),
    {
        self.cells[at].as_ref().unwrap()
    }

    /// The number of slots.
    pub fn slots(&self) -> (n: usize)
        ensures
            n == self.capacity(),
    {
        self.cells.len()
    }

    /// Whether slot `at` holds a cell.
    pub fn is_live(&self, at: usize) -> (live: bool)
        ensures
            live == self.live(at),
    {
        at < self.cells.len() && self.cells[at].is_some()
    }

    /// How many cells have been reclaimed so far.
    pub fn reclaimed(&self) -> (n: usize)
        ensures
            n == self.capacity() - self.population(),
    {
        let mut n: usize = 0;
        let mut i: usize = 0;
        while i < self.cells.len()
            invariant
                i <= self.cells@.len(),
                n + filled(self.cells@.take(i as int)) == i,
            decreases self.cells@.len() - i,
        {
            proof {
                assert(self.cells@.take(i + 1).drop_last() =~= self.cells@.take(i as int));
            }
            if self.cells[i].is_none() {
                n = n + 1;
            }
            i = i + 1;
        }
        proof {
            assert(self.cells@.take(i as int) =~= self.cells@);
        }
        n
    }
}

impl<T> Arena<T> {
    /// This arena is `before` after the `next` link of `at` went from
    /// `expected` to `new`: the handle on `new` became the link, and the link
    /// to `expected` became a handle.
    pub open spec fn swapped(&self, before: &Arena<T>, at: usize, expected: usize, new: usize) -> bool {
        &&& self.capacity() == before.capacity()
        &&& forall|i: usize| #[trigger] self.live(i) == before.live(i)
        &&& forall|i: usize| i != at ==> #[trigger] self.cell(i) == before.cell(i)
        &&& self.cell(at) == before.cell(at).with_links(
            crate::cell::Links { next: Some(new), ..before.cell(at).links().unwrap() },
        )
        &&& forall|i: usize| #[trigger]
            self.held(i) == before.held(i) + (if i == expected {
                1int
            } else {
                0int
            }) - (if i == new {
                1int
            } else {
                0int
            })
    }

    /// This arena is `before` after `back` became the back link of `at`: the
    /// handle on `back` became the link.
    pub open spec fn backlinked(&self, before: &Arena<T>, at: usize, back: usize) -> bool {
        &&& self.capacity() == before.capacity()
        &&& forall|i: usize| #[trigger] self.live(i) == before.live(i)
        &&& forall|i: usize| i != at ==> #[trigger] self.cell(i) == before.cell(i)
        &&& self.cell(at) == before.cell(at).with_links(
            crate::cell::Links { back_link: Some(back), ..before.cell(at).links().unwrap() },
        )
        &&& forall|i: usize| #[trigger]
            self.held(i) == before.held(i) - (if i == back {
                1int
            } else {
                0int
            })
    }

    /// This arena is `before` after cells that nobody held were reclaimed:
    /// every other cell is held as often as it was.
    pub open spec fn settled(&self, before: &Arena<T>) -> bool {
        &&& forall|i: usize| #[trigger]
            self.live(i) && before.live(i) ==> {
                &&& self.cell(i).same_payload(&before.cell(i))
                &&& self.cell(i).spec_backlink() == before.cell(i).spec_backlink()
                &&& before.immortal(i) ==> self.immortal(i)
                &&& !self.immortal(i) ==> self.held(i) == before.held(i)
            }
        &&& forall|i: usize|
            before.live(i) && !#[trigger] self.live(i) ==> {
                &&& !before.immortal(i)
                &&& before.cell(i).spec_is_data_cell() || before.cell(i).spec_is_aux()
                &&& before.held(i) == 0
            }
    }

    /// Compare-and-swap on the `next` link of cell `at`.  On success the
    /// caller's handle on `new` is taken over by the link, and the caller gets
    /// the previous occupant as a handle to release.
    pub fn swap_in_next(&mut self, at: usize, expected: usize, new: usize) -> (swapped: Result<
        usize,
        Error,
    >)
        requires
            old(self).wf(),
            old(self).live(at),
            old(self).covered(new, 1),
            old(self).cell(at).is_normal() ==> old(self).cell(new).spec_is_aux(),
            old(self).cell(at).spec_is_aux() ==> !old(self).cell(new).spec_is_first(),
        ensures
            final(self).wf(),
            old(self).cell(at).spec_is_last() ==> swapped == Err::<usize, Error>(
                Error::TargetIsTail,
            ),
            !old(self).cell(at).spec_is_last() && old(self).cell(at).spec_next() != Some(expected)
                ==> swapped == Err::<usize, Error>(Error::Conflict),
            !old(self).cell(at).spec_is_last() && old(self).cell(at).spec_next() == Some(expected)
                ==> swapped == Ok::<usize, Error>(expected),
            swapped.is_err() ==> final(self)@ == old(self)@,
            swapped.is_ok() ==> final(self).swapped(old(self), at, expected, new),
            final(self).succeeds(old(self)),
    {
        let ghost s = self.cells@;
        proof {
            assert(self.sound(at));
        }
        let swapped = match &mut self.cells[at] {
            Some(cell) => cell.swap_in_next(expected, new),
            None => Err(Error::Conflict),
        };
        proof {
            let t = self.cells@;
            if swapped.is_ok() {
                assert(t =~= s.update(at as int, t[at as int]));
                assert forall|i: usize|
                    inlinks(t, i) + refs_from(s[at as int], i) == inlinks(s, i) + refs_from(
                        t[at as int],
                        i,
                    ) by {
                    lemma_inlinks_update(s, at as int, t[at as int], i);
                }
                assert forall|i: usize| self.live(i) implies #[trigger] self.sound(i) by {
                    assert(old(self).live(i));
                    assert(old(self).sound(i));
                }
            } else {
                assert(t =~= s);
                assert(self@ == old(self)@);
                self.lemma_wf_by_view(old(self));
            }
        }
        swapped
    }

    /// Sets the back link of the data cell `at`, once.  When it is set, the
    /// caller's handle on `back` is taken over by the link; otherwise nothing
    /// changes and the caller keeps the handle.
    pub fn store_backlink(&mut self, at: usize, back: usize) -> (stored: bool)
        requires
            old(self).wf(),
            old(self).live(at),
            old(self).covered(back, 1),
            old(self).cell(back).is_normal(),
        ensures
            final(self).wf(),
            stored == (old(self).cell(at).spec_is_data_cell() && old(self).cell(
                at,
            ).spec_backlink().is_none()),
            !stored ==> final(self)@ == old(self)@,
            stored ==> final(self).backlinked(old(self), at, back),
            final(self).succeeds(old(self)),
    {
        let ghost s = self.cells@;
        proof {
            assert(self.sound(at));
        }
        let stored = match &mut self.cells[at] {
            Some(cell) => cell.store_backlink(back),
            None => false,
        };
        proof {
            let t = self.cells@;
            if stored {
                assert(t =~= s.update(at as int, t[at as int]));
                assert forall|i: usize|
                    inlinks(t, i) + refs_from(s[at as int], i) == inlinks(s, i) + refs_from(
                        t[at as int],
                        i,
                    ) by {
                    lemma_inlinks_update(s, at as int, t[at as int], i);
                }
                assert forall|i: usize| self.live(i) implies #[trigger] self.sound(i) by {
                    assert(old(self).live(i));
                    assert(old(self).sound(i));
                }
            } else {
                assert(t =~= s);
                assert(self@ == old(self)@);
                self.lemma_wf_by_view(old(self));
            }
        }
        stored
    }
}

/// Takes a handle on cell `q`: its counter goes up by one.
pub fn safe_read_ptr<T>(arena: &mut Arena<T>, q: usize) -> (handle: usize)
    requires
        old(arena).wf(),
        old(arena).live(q),
    ensures
        handle == q,
        final(arena).wf(),
        final(arena).acquired(old(arena), q),
        final(arena).succeeds(old(arena)),
{
    proof {
        assert(arena.sound(q));
    }
    let ghost s = arena.cells@;
    match &mut arena.cells[q] {
        Some(cell) => {
            cell.retain();
        },
        None => {},
    }
    proof {
        let t = arena.cells@;
        assert(t =~= s.update(q as int, Some(s[q as int].unwrap().retained())));
        assert forall|i: usize| inlinks(t, i) == inlinks(s, i) by {
            lemma_inlinks_update(s, q as int, t[q as int], i);
        }
        assert forall|i: usize| arena.live(i) implies #[trigger] arena.sound(i) by {
            assert(old(arena).live(i));
            assert(old(arena).sound(i));
        }
    }
    q
}

/// Reads the `next` link of cell `at` and takes a handle on the cell it
/// leads to.  The link is loaded, the counter raised and the link loaded
/// again: had it changed in between, the stale handle would be released and
/// the read repeated.
pub fn safe_read<T>(arena: &mut Arena<T>, at: usize) -> (handle: usize)
    requires
        old(arena).wf(),
        old(arena).live(at),
        !old(arena).cell(at).spec_is_last(),
    ensures
        Some(handle) == old(arena).cell(at).spec_next(),
        final(arena).wf(),
        final(arena).acquired(old(arena), handle),
        final(arena).succeeds(old(arena)),
{
    let ghost before = *arena;
    loop
        invariant
            arena@ == before@,
            before == *old(arena),
            arena.wf(),
            arena.live(at),
            !arena.cell(at).spec_is_last(),
        decreases 0int,
    {
        proof {
            assert(arena.sound(at));
        }
        let q = arena.get(at).next().unwrap();
        safe_read_ptr(arena, q);
        if arena.get(at).next_cmp(q) {
            return q;
        } else {
            release(arena, q);
        }
    }
}

/// Reads the back link of cell `at` and, if there is one, takes a handle on
/// the cell it leads to.
pub fn safe_read_backlink<T>(arena: &mut Arena<T>, at: usize) -> (handle: Option<usize>)
    requires
        old(arena).wf(),
        old(arena).live(at),
    ensures
        handle == old(arena).cell(at).spec_backlink(),
        final(arena).wf(),
        handle.is_none() ==> final(arena)@ == old(arena)@,
        handle.is_some() ==> final(arena).acquired(old(arena), handle.unwrap()),
        final(arena).succeeds(old(arena)),
{
    let ghost before = *arena;
    loop
        invariant
            arena@ == before@,
            before == *old(arena),
            arena.wf(),
            arena.live(at),
        decreases 0int,
    {
        proof {
            assert(arena.sound(at));
        }
        match arena.get(at).backlink() {
            None => {
                return None;
            },
            Some(q) => {
                safe_read_ptr(arena, q);
                if arena.get(at).backlink() == Some(q) {
                    return Some(q);
                } else {
                    release(arena, q);
                }
            },
        }
    }
}

/// Gives up the handle `p`, if there is one.
pub fn release_opt<T>(arena: &mut Arena<T>, p: Option<usize>)
    requires
        old(arena).wf(),
        p.is_some() ==> old(arena).covered(p.unwrap(), 1),
    ensures
        final(arena).wf(),
        p.is_none() ==> final(arena)@ == old(arena)@,
        p.is_some() ==> final(arena).released(old(arena), p.unwrap()) && final(arena).settles(
            old(arena),
            p.unwrap(),
        ),
        final(arena).succeeds(old(arena)),
{
    match p {
        None => {},
        Some(p) => release(arena, p),
    }
}

impl<T> Arena<T> {
    /// What giving up the handle `p` does to its own cell.  A sentinel or a
    /// cell with a counter at the machine limit stays as it is.  A cell that
    /// is referred to otherwise is counted down, and nothing else happens.
    /// A data or marker cell whose last reference this was is reclaimed.
    pub open spec fn settles(&self, before: &Arena<T>, p: usize) -> bool {
        if before.immortal(p) {
            self@ == before@
        } else if before.cell(p).count() >= 2 || before.cell(p).spec_is_first() {
            self@ == before@.update(p as int, Some(before.cell(p).dismissed()))
        } else {
            !self.live(p)
        }
    }

    /// This arena is `before` after the handle `p` was given up: the cells
    /// that were reclaimed are those that nobody refers to any more.
    pub open spec fn released(&self, before: &Arena<T>, p: usize) -> bool {
        &&& self.capacity() == before.capacity()
        &&& forall|i: usize| #[trigger]
            self.live(i) ==> {
                &&& before.live(i)
                &&& self.cell(i).same_payload(&before.cell(i))
                &&& self.cell(i).spec_next() == before.cell(i).spec_next()
                &&& self.cell(i).spec_backlink() == before.cell(i).spec_backlink()
                &&& self.immortal(i) == before.immortal(i)
                &&& !self.immortal(i) ==> self.held(i) == before.held(i) - if i == p {
                    1int
                } else {
                    0int
                }
            }
        &&& forall|i: usize|
            before.live(i) && !#[trigger] self.live(i) ==> {
                &&& !before.immortal(i)
                &&& before.cell(i).spec_is_data_cell() || before.cell(i).spec_is_aux()
                &&& before.held(i) == if i == p {
                    1int
                } else {
                    0int
                }
            }
    }
}

/// Empties slot `p` and hands out the links that its cell held.
fn reclaim<T>(arena: &mut Arena<T>, p: usize) -> (links: (Option<usize>, Option<usize>))
    requires
        p < old(arena).cells@.len(),
    ensures
        final(arena).cells@ == old(arena).cells@.update(p as int, None),
        old(arena).cells@[p as int] matches Some(c) ==> links == (c.spec_next(), c.spec_backlink()),
        old(arena).cells@[p as int].is_none() ==> links == (None::<usize>, None::<usize>),
{
    let cell = arena.cells[p].take();
    match cell {
        Some(mut c) => c.drop_links(),
        None => (None, None),
    }
}

/// Gives up the handle `p`: the counter of its cell goes down by one.  When
/// that was the last reference, the cell is claimed and reclaimed, and the
/// links it held are released in turn, one after the other.
#[verifier::rlimit(50)]
pub fn release<T>(arena: &mut Arena<T>, p: usize)
    requires
        old(arena).wf(),
        old(arena).covered(p, 1),
    ensures
        final(arena).wf(),
        final(arena).released(old(arena), p),
        final(arena).settles(old(arena), p),
        final(arena).succeeds(old(arena)),
{
    let ghost before = *arena;
    let ghost mut begun = false;
    let mut pending: Vec<usize> = Vec::new();
    pending.push(p);
    proof {
        lemma_occurrences_push(Seq::<usize>::empty(), p, p);
        assert(pending@ =~= Seq::<usize>::empty().push(p));
        assert forall|i: usize| occurrences(pending@, i) == if i == p { 1nat } else { 0nat } by {
            lemma_occurrences_push(Seq::<usize>::empty(), p, i);
        }
        assert forall|i: usize| arena.live(i) implies arena.cell(i).same_payload(&before.cell(i)) by {}
    }
    while pending.len() > 0
        invariant
            before == *old(arena),
            before.wf(),
            before.covered(p, 1),
            !begun ==> arena@ == before@ && pending@ =~= Seq::<usize>::empty().push(p),
            begun ==> arena.settles(&before, p),
            begun && (before.immortal(p) || before.cell(p).count() >= 2 || before.cell(
                p,
            ).spec_is_first()) ==> pending@.len() == 0,
            arena.wf(),
            arena.cells@.len() == before.cells@.len(),
            forall|k: int| 0 <= k < pending@.len() ==> arena.live(#[trigger] pending@[k]),
            forall|i: usize| #[trigger]
                arena.live(i) ==> {
                    &&& before.live(i)
                    &&& arena.cell(i).same_payload(&before.cell(i))
                    &&& arena.cell(i).spec_next() == before.cell(i).spec_next()
                    &&& arena.cell(i).spec_backlink() == before.cell(i).spec_backlink()
                    &&& arena.immortal(i) == before.immortal(i)
                    &&& !arena.immortal(i) ==> arena.held(i) == before.held(i) - (if i == p {
                        1int
                    } else {
                        0int
                    }) + occurrences(pending@, i)
                },
            forall|i: usize|
                before.live(i) && !#[trigger] arena.live(i) ==> {
                    &&& !before.immortal(i)
                    &&& before.cell(i).spec_is_data_cell() || before.cell(i).spec_is_aux()
                    &&& before.held(i) == if i == p {
                        1int
                    } else {
                        0int
                    }
                },
        decreases filled(arena.cells@), pending@.len(),
    {
        let ghost s = arena.cells@;
        let ghost w = pending@;
        let ghost mid = *arena;
        let q = pending.pop().unwrap();
        proof {
            assert(w.drop_last() =~= pending@);
            assert(q == w[w.len() - 1]);
            assert(arena.live(q));
            assert(arena.sound(q));
            assert(before.sound(q));
            lemma_occurrences_at(w, w.len() - 1);
        }
        proof {
            assert(!begun ==> q == p);
            assert(before.sound(p));
        }
        let gone = match &mut arena.cells[q] {
            Some(cell) => {
                let count = cell.dismiss();
                if count > 1 {
                    false
                } else {
                    !cell.claim()
                }
            },
            None => false,
        };
        if gone {
            let links = reclaim(arena, q);
            proof {
                let c = s[q as int].unwrap();
                let t = arena.cells@;
                assert(t =~= s.update(q as int, None));
                assert(c.count() == 1);
                assert(inlinks(s, q) == 0);
                assert forall|i: usize| inlinks(t, i) + refs_from(s[q as int], i) == inlinks(s, i) by {
                    lemma_inlinks_update(s, q as int, None, i);
                }
                assert forall|j: int| 0 <= j < s.len() implies refs_from(#[trigger] s[j], q) == 0 by {
                    lemma_inlinks_bound(s, j, q);
                }
                lemma_filled_update(s, q as int);
                assert forall|i: usize| arena.live(i) implies #[trigger] arena.sound(i) by {
                    assert(mid.live(i));
                    assert(mid.sound(i));
                    assert(refs_from(s[i as int], q) == 0);
                }
            }
            let ghost w1 = pending@;
            match links.0 {
                Some(n) => {
                    pending.push(n);
                },
                None => {},
            }
            let ghost w2 = pending@;
            match links.1 {
                Some(b) => {
                    pending.push(b);
                },
                None => {},
            }
            proof {
                let c = s[q as int].unwrap();
                let w3 = pending@;
                assert forall|i: usize| occurrences(w3, i) == occurrences(w1, i) + refs_from(
                    Some(c),
                    i,
                ) by {
                    if c.spec_next().is_some() {
                        lemma_occurrences_push(w1, c.spec_next().unwrap(), i);
                    }
                    if c.spec_backlink().is_some() {
                        lemma_occurrences_push(w2, c.spec_backlink().unwrap(), i);
                    }
                }
                assert forall|i: usize| occurrences(w, i) == occurrences(w1, i) + if i == q {
                    1nat
                } else {
                    0nat
                } by {}
                assert(mid.held(q) == 1);
                assert(before.immortal(q) || before.held(q) >= 0);
                assert(occurrences(w1, q) == 0);
                lemma_no_occurrence(w1, q);
                assert forall|k: int| 0 <= k < w3.len() implies arena.live(#[trigger] w3[k]) by {
                    if k < w1.len() {
                        assert(w3[k] == w1[k]);
                        assert(w1[k] == w[k]);
                        assert(mid.live(w[k]));
                    } else {
                        assert(mid.sound(q));
                    }
                }
                assert forall|i: usize| #[trigger] arena.live(i) implies {
                    &&& before.live(i)
                    &&& arena.cell(i).same_payload(&before.cell(i))
                    &&& arena.cell(i).spec_next() == before.cell(i).spec_next()
                    &&& arena.cell(i).spec_backlink() == before.cell(i).spec_backlink()
                    &&& arena.immortal(i) == before.immortal(i)
                    &&& !arena.immortal(i) ==> arena.held(i) == before.held(i) - (if i == p {
                        1int
                    } else {
                        0int
                    }) + occurrences(w3, i)
                } by {
                    assert(mid.live(i));
                    assert(i != q);
                    assert(arena.cell(i) == mid.cell(i));
                    assert(arena.held(i) == mid.held(i) + refs_from(Some(c), i));
                }
                assert forall|i: usize| before.live(i) && !#[trigger] arena.live(i) implies {
                    &&& !before.immortal(i)
                    &&& before.cell(i).spec_is_data_cell() || before.cell(i).spec_is_aux()
                    &&& before.held(i) == if i == p {
                        1int
                    } else {
                        0int
                    }
                } by {
                    if i != q {
                        assert(!mid.live(i));
                    }
                }
                if begun {
                    assert(!mid.live(p));
                    assert(!arena.live(p));
                }
                begun = true;
            }
        } else {
            proof {
                let t = arena.cells@;
                assert(t =~= s.update(q as int, t[q as int]));
                assert forall|i: usize| inlinks(t, i) == inlinks(s, i) by {
                    lemma_inlinks_update(s, q as int, t[q as int], i);
                }
                lemma_filled_same(s, t);
                assert forall|i: usize| arena.live(i) implies #[trigger] arena.sound(i) by {
                    assert(mid.live(i));
                    assert(mid.sound(i));
                }
                let w1 = pending@;
                assert forall|i: usize| occurrences(w, i) == occurrences(w1, i) + if i == q {
                    1nat
                } else {
                    0nat
                } by {}
                assert forall|k: int| 0 <= k < w1.len() implies arena.live(#[trigger] w1[k]) by {
                    assert(w1[k] == w[k]);
                    assert(mid.live(w[k]));
                }
                assert forall|i: usize| #[trigger] arena.live(i) implies {
                    &&& before.live(i)
                    &&& arena.cell(i).same_payload(&before.cell(i))
                    &&& arena.cell(i).spec_next() == before.cell(i).spec_next()
                    &&& arena.cell(i).spec_backlink() == before.cell(i).spec_backlink()
                    &&& arena.immortal(i) == before.immortal(i)
                    &&& !arena.immortal(i) ==> arena.held(i) == before.held(i) - (if i == p {
                        1int
                    } else {
                        0int
                    }) + occurrences(w1, i)
                } by {
                    assert(mid.live(i));
                    if i != q {
                        assert(arena.cell(i) == mid.cell(i));
                    }
                }
                assert forall|i: usize| before.live(i) && !#[trigger] arena.live(i) implies {
                    &&& !before.immortal(i)
                    &&& before.cell(i).spec_is_data_cell() || before.cell(i).spec_is_aux()
                    &&& before.held(i) == if i == p {
                        1int
                    } else {
                        0int
                    }
                } by {
                    assert(!mid.live(i));
                }
                if begun {
                    assert(!mid.live(p));
                    assert(!arena.live(p));
                } else {
                    if before.immortal(p) {
                        assert(t =~= s);
                    } else {
                        assert(t =~= s.update(p as int, Some(before.cell(p).dismissed())));
                    }
                }
                begun = true;
            }
        }
    }
    proof {
        assert forall|i: usize| occurrences(pending@, i) == 0 by {}
    }
}

proof fn lemma_no_occurrence(s: Seq<usize>, x: usize)
    requires
        occurrences(s, x) == 0,
    ensures
        forall|k: int| 0 <= k < s.len() ==> #[trigger] s[k] != x,
    decreases s.len(),
{
    if s.len() > 0 {
        lemma_no_occurrence(s.drop_last(), x);
        assert forall|k: int| 0 <= k < s.len() implies #[trigger] s[k] != x by {
            if k < s.len() - 1 {
                assert(s.drop_last()[k] == s[k]);
            }
        }
    }
}

} // verus!
