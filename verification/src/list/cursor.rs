//! Cursors: the windows through which a list is read and changed.
use vstd::prelude::*;
use crate::error::Error;
use crate::list::List;

pub mod delete;
pub mod laws;

verus! {

/// On cell `i`, the counters of `list` account for `k` handles of others and
/// for `mine` of the cursor at work, besides the list's own.
spec fn cov<T>(list: &List<T>, i: usize, k: int, mine: int) -> bool {
    list.mem().covered(i, k + mine + list.own(i))
}

/// While a cursor that started as `c0` on the list `l0` is at work and holds
/// `h(i)` handles on every cell `i`, whatever others held at the start is
/// still accounted for, and so is what the cursor holds now.
spec fn tracks<T>(
    list: &List<T>,
    h: spec_fn(usize) -> int,
    c0: &Cursor,
    l0: &List<T>,
) -> bool {
    &&& list.evolved(l0)
    &&& forall|i: usize, k: int|
        k >= 0 && cov(l0, i, k, c0.holds(i)) && k + h(i) + list.own(i) >= 1 ==> #[trigger] cov(
            list,
            i,
            k,
            h(i),
        )
}

/// One if the two are the same cell.
spec fn one_if(a: Option<usize>, i: usize) -> int {
    if a == Some(i) {
        1
    } else {
        0
    }
}

/// How many handles are held on each cell when one is held on each of the six given.
spec fn hands6(
    a: Option<usize>,
    b: Option<usize>,
    c: Option<usize>,
    d: Option<usize>,
    e: Option<usize>,
    f: Option<usize>,
) -> spec_fn(usize) -> int {
    |i: usize| one_if(a, i) + one_if(b, i) + one_if(c, i) + one_if(d, i) + one_if(e, i) + one_if(f, i)
}

/// The handles of a cursor at work: those in its three places, and those
/// that it holds in passing as `p`, `s` and `n`.
spec fn hands(c: Cursor, p: Option<usize>, s: Option<usize>, n: Option<usize>) -> spec_fn(
    usize,
) -> int {
    hands6(Some(c.pre_cell), Some(c.pre_aux), c.target, p, s, n)
}

/// The cursor with the given cells in its three places.
spec fn placed(pre_cell: usize, pre_aux: usize, target: Option<usize>) -> Cursor {
    Cursor { target, pre_aux, pre_cell, start: None, behind: None, end: None, aimed: false }
}

/// How many handles are held on each cell when one is held on each of the seven given.
spec fn hands7(
    a: Option<usize>,
    b: Option<usize>,
    c: Option<usize>,
    d: Option<usize>,
    e: Option<usize>,
    f: Option<usize>,
    g: Option<usize>,
) -> spec_fn(usize) -> int {
    |i: usize|
        one_if(a, i) + one_if(b, i) + one_if(c, i) + one_if(d, i) + one_if(e, i) + one_if(f, i)
            + one_if(g, i)
}

/// All the handles of a cursor, and one more on `q`.
spec fn hands_and(c: Cursor, q: Option<usize>) -> spec_fn(usize) -> int {
    hands7(Some(c.pre_cell), Some(c.pre_aux), c.target, c.start, c.behind, c.end, q)
}

/// At the start the cursor holds what it holds.
proof fn lemma_track_start<T>(c0: &Cursor, l0: &List<T>)
    ensures
        tracks(l0, hands(*c0, c0.start, c0.behind, c0.end), c0, l0),
        tracks(l0, hands_and(*c0, None), c0, l0),
{
    l0.lemma_evolved_refl();
    let h = hands(*c0, c0.start, c0.behind, c0.end);
    let g = hands_and(*c0, None);
    assert forall|i: usize, k: int|
        k >= 0 && cov(l0, i, k, c0.holds(i)) && k + h(i) + l0.own(i) >= 1 implies #[trigger] cov(
        l0,
        i,
        k,
        h(i),
    ) by {
        assert(h(i) == c0.holds(i));
    }
    assert forall|i: usize, k: int|
        k >= 0 && cov(l0, i, k, c0.holds(i)) && k + g(i) + l0.own(i) >= 1 implies #[trigger] cov(
        l0,
        i,
        k,
        g(i),
    ) by {
        assert(g(i) == c0.holds(i));
    }
}

/// The same handles, written in another way.
proof fn lemma_track_same<T>(
    list: &List<T>,
    h1: spec_fn(usize) -> int,
    h: spec_fn(usize) -> int,
    c0: &Cursor,
    l0: &List<T>,
)
    requires
        tracks(list, h, c0, l0),
        forall|i: usize| #[trigger] h1(i) == h(i),
    ensures
        tracks(list, h1, c0, l0),
{
    assert forall|i: usize, k: int|
        k >= 0 && cov(l0, i, k, c0.holds(i)) && k + h1(i) + list.own(i) >= 1 implies #[trigger] cov(
        list,
        i,
        k,
        h1(i),
    ) by {
        assert(h1(i) == h(i));
        assert(cov(list, i, k, h(i)));
    }
}

/// What the work of a cursor leaves to the others.
proof fn lemma_track_end<T>(list: &List<T>, c: &Cursor, c0: &Cursor, l0: &List<T>)
    requires
        tracks(list, hands(*c, c.start, c.behind, c.end), c0, l0),
    ensures
        list.evolved(l0),
        forall|i: usize, k: int|
            k >= 1 && c0.spares(l0, i, k) ==> #[trigger] c.spares(list, i, k),
{
    assert forall|i: usize, k: int| k >= 1 && c0.spares(l0, i, k) implies #[trigger] c.spares(
        list,
        i,
        k,
    ) by {
        let h = hands(*c, c.start, c.behind, c.end);
        assert(h(i) == c.holds(i));
        assert(c.holds(i) >= 0);
        assert(list.own(i) >= 0);
        assert(cov(list, i, k, h(i)));
    }
}

/// One step of the work: every cell `i` loses `delta(i)` handles of the cursor.
proof fn lemma_track<T>(
    l1: &List<T>,
    l: &List<T>,
    h1: spec_fn(usize) -> int,
    h: spec_fn(usize) -> int,
    delta: spec_fn(usize) -> int,
    c0: &Cursor,
    l0: &List<T>,
)
    requires
        tracks(l, h, c0, l0),
        l.inv(),
        l1.evolved(l),
        forall|i: usize, k: int|
            k >= 1 && l.arena.covered(i, k + delta(i)) ==> #[trigger] l1.arena.covered(i, k),
        forall|i: usize| #[trigger] h1(i) == h(i) - delta(i),
        forall|i: usize| #[trigger] delta(i) < 0 ==> l.arena.live(i),
    ensures
        tracks(l1, h1, c0, l0),
{
    l1.lemma_evolved_trans(l, l0);
    assert forall|i: usize, k: int|
        k >= 0 && cov(l0, i, k, c0.holds(i)) && k + h1(i) + l1.own(i) >= 1 implies #[trigger] cov(
        l1,
        i,
        k,
        h1(i),
    ) by {
        let big = k + h1(i) + l1.own(i);
        assert(h1(i) == h(i) - delta(i));
        assert(l.own(i) == l1.own(i));
        if k + h(i) + l.own(i) >= 1 {
            assert(cov(l, i, k, h(i)));
        } else {
            assert(delta(i) < 0);
            assert(l.arena.live(i));
            assert(l.arena.sound(i));
        }
        assert(l.arena.covered(i, big + delta(i)));
        assert(l1.arena.covered(i, big));
    }
}

/// A window of three cells that slides over a list: the last head or data
/// cell that was passed, a marker cell after it, and the data cell (or the
/// tail) that the marker cell led to when the cursor was last updated.
///
/// A cursor holds a handle on each of its cells.  It is made by
/// `List::first` and given back with `discard`.
pub struct Cursor {
    target: Option<usize>,
    pre_aux: usize,
    pre_cell: usize,
    /// While a deletion is under way: the cell in front of the run to cut,
    start: Option<usize>,
    /// the marker cell that was found behind it,
    behind: Option<usize>,
    /// and the marker cell that the run is cut up to.
    end: Option<usize>,
    /// Whether `end` is known to be the last marker cell of the run.
    aimed: bool,
}

/// How far the deletion of a cursor's target has come.
#[derive(Clone, Copy, Debug, PartialEq, Eq, Structural)]
pub enum DeleteStage {
    /// No deletion is under way.
    Idle,
    /// The target is unlinked and has its back link.
    Unlinked,
    /// The cell in front of the run of marker cells is found.
    Located,
    /// The last marker cell of the run is found.
    Aimed,
}

impl Cursor {
    /// How many handles on cell `i` the cursor holds.
    pub closed spec fn holds(&self, i: usize) -> int {
        one_if(Some(self.pre_cell), i) + one_if(Some(self.pre_aux), i) + one_if(self.target, i)
            + one_if(self.start, i) + one_if(self.behind, i) + one_if(self.end, i)
    }

    /// How far the deletion of the cursor's target has come.
    pub closed spec fn stage(&self) -> DeleteStage {
        if self.start.is_some() {
            if self.aimed {
                DeleteStage::Aimed
            } else {
                DeleteStage::Located
            }
        } else if self.end.is_some() {
            DeleteStage::Unlinked
        } else {
            DeleteStage::Idle
        }
    }

    /// No deletion is under way.
    pub closed spec fn idle(&self) -> bool {
        self.start.is_none() && self.behind.is_none() && self.end.is_none() && !self.aimed
    }

    /// A cursor of a list is idle when it is at no stage of a deletion.
    pub proof fn lemma_idle<T>(&self, list: &List<T>)
        requires
            self.wf(list),
        ensures
            self.idle() <==> self.stage() == DeleteStage::Idle,
    {
    }

    /// What the cursor knows of a deletion under way.
    spec fn busy<T>(&self, list: &List<T>) -> bool {
        let m = list.mem();
        match (self.start, self.behind, self.end) {
            (None, None, None) => !self.aimed,
            (None, None, Some(n)) => {
                &&& !self.aimed
                &&& self.target.is_none()
                &&& m.live(n)
                &&& m.cell(n).spec_is_aux()
                &&& list.anc(n) == list.anc(self.pre_cell)
                &&& list.rk(n) < list.rk(self.pre_cell)
                &&& m.covered(n, self.holds(n))
            },
            (Some(p), Some(s), Some(n)) => {
                &&& self.target.is_none()
                &&& list.located(p, s, n)
                &&& self.aimed ==> list.aimed(p, s, n)
                &&& m.covered(p, self.holds(p) + list.own(p))
                &&& m.covered(s, self.holds(s))
                &&& m.covered(n, self.holds(n))
            },
            _ => false,
        }
    }

    /// The head or data cell that the cursor passed last.
    pub closed spec fn pre_cell(&self) -> usize {
        self.pre_cell
    }

    /// The marker cell that the cursor stands on.
    pub closed spec fn pre_aux(&self) -> usize {
        self.pre_aux
    }

    /// The cell that the cursor points at, once it was updated.
    pub closed spec fn target(&self) -> Option<usize> {
        self.target
    }

    /// The cursor's cells are cells of `list` of the right variants, and the
    /// list's counters account for the cursor's handles.
    pub closed spec fn wf<T>(&self, list: &List<T>) -> bool {
        let m = list.mem();
        &&& m.live(self.pre_cell)
        &&& m.cell(self.pre_cell).is_normal()
        &&& m.live(self.pre_aux)
        &&& m.cell(self.pre_aux).spec_is_aux()
        &&& list.rk(self.pre_cell) > list.rk(self.pre_aux)
        &&& list.anc(self.pre_aux) == list.anc(self.pre_cell)
        &&& m.covered(self.pre_aux, 1)
        &&& m.covered(self.pre_cell, self.holds(self.pre_cell) + list.own(self.pre_cell))
        &&& self.target matches Some(t) ==> {
            &&& m.live(t)
            &&& m.cell(t).spec_is_after_aux()
            &&& m.covered(t, self.holds(t))
        }
        &&& self.busy(list)
    }

    /// On cell `i`, the counters of `list` account for `k` handles besides
    /// those of this cursor and the list's own.
    pub closed spec fn spares<T>(&self, list: &List<T>, i: usize, k: int) -> bool {
        cov(list, i, k, self.holds(i))
    }

    /// What a step that has taken a cursor from `before` on the list `was`
    /// to `self` on the list `now` leaves to the other cursors of the list.
    /// No cell that another cursor holds is gone, and the counters account
    /// for the handles of the others as they did; the cells stand in the
    /// order and in the runs in which they stood; and their places are what
    /// they were, but that those behind index `at` have moved by `by`.
    pub open spec fn stepped<T>(
        &self,
        now: &List<T>,
        before: &Cursor,
        was: &List<T>,
        at: int,
        by: int,
    ) -> bool {
        &&& now.evolved(was)
        &&& now.shifted(was, at, by)
        &&& forall|i: usize, k: int|
            k >= 1 && before.spares(was, i, k) ==> #[trigger] self.spares(now, i, k)
    }

    /// The list `now` is the list `was` after this cursor gave up all its
    /// handles.  Every cell that is still there holds what it held and leads
    /// where it led, and it is held less often by the number of handles that
    /// the cursor had on it, unless its counter is at the machine limit.
    /// Every cell that is gone was a data or marker cell that nothing but the
    /// cursor held.  And a data or marker cell to which nothing but the
    /// cursor's handles referred is gone.
    pub open spec fn given_up<T>(&self, now: &List<T>, was: &List<T>) -> bool {
        &&& forall|i: usize| #[trigger]
            now.mem().live(i) ==> {
                &&& was.mem().live(i)
                &&& now.mem().cell(i).same_payload(&was.mem().cell(i))
                &&& now.mem().cell(i).spec_next() == was.mem().cell(i).spec_next()
                &&& now.mem().cell(i).spec_backlink() == was.mem().cell(i).spec_backlink()
                &&& now.mem().immortal(i) == was.mem().immortal(i)
                &&& !now.mem().immortal(i) ==> now.mem().held(i) == was.mem().held(i) - self.holds(
                    i,
                )
            }
        &&& forall|i: usize|
            was.mem().live(i) && !#[trigger] now.mem().live(i) ==> {
                &&& !was.mem().immortal(i)
                &&& was.mem().cell(i).spec_is_data_cell() || was.mem().cell(i).spec_is_aux()
                &&& was.mem().held(i) == self.holds(i)
            }
        &&& forall|i: usize|
            #![trigger now.mem().live(i), self.holds(i)]
            was.mem().live(i) && (was.mem().cell(i).spec_is_data_cell() || was.mem().cell(
                i,
            ).spec_is_aux()) && !was.mem().immortal(i) && self.holds(i) >= 1 && was.mem().cell(
                i,
            ).count() == self.holds(i) ==> !now.mem().live(i)
    }

    /// The position of the cursor: the index in the list at which an
    /// inserted element would stand.
    pub closed spec fn slot<T>(&self, list: &List<T>) -> int {
        list.slot_after(self.pre_cell)
    }

    /// The position that the cursor moves to when it steps over its target.
    pub closed spec fn next_slot<T>(&self, list: &List<T>) -> int {
        list.slot_after(self.target.unwrap())
    }

    /// The cursor has a target, and its marker cell still leads to it:
    /// an insertion or a deletion through the cursor will succeed.
    pub closed spec fn synced<T>(&self, list: &List<T>) -> bool {
        &&& self.target.is_some()
        &&& list.mem().cell(self.pre_aux).spec_next() == self.target
    }

    /// The cursor points at the tail: there is no element at its position.
    pub closed spec fn at_end<T>(&self, list: &List<T>) -> bool {
        self.target == Some(list.tail())
    }

    /// The cursor holds a handle on each of its cells, and no more than six
    /// handles on any one cell.
    pub proof fn lemma_holds(&self, i: usize)
        ensures
            0 <= self.holds(i) <= 6,
            self.holds(self.pre_cell()) >= 1,
            self.holds(self.pre_aux()) >= 1,
            self.target() matches Some(t) ==> self.holds(t) >= 1,
    {
    }

    /// The counters of the list account for what the cursor holds.
    pub proof fn lemma_covered<T>(&self, list: &List<T>, i: usize)
        requires
            list.inv(),
            self.wf(list),
            self.holds(i) >= 1,
        ensures
            list.keeps(i, self.holds(i)),
    {
        list.lemma_sentinels();
    }

    /// What a synced cursor points at.
    pub proof fn lemma_synced<T>(&self, list: &List<T>)
        requires
            list.inv(),
            self.wf(list),
            self.synced(list),
        ensures
            0 <= self.slot(list) <= list@.len(),
            self.at_end(list) <==> self.slot(list) == list@.len(),
            !self.at_end(list) ==> list.mem().cell(self.target().unwrap()).spec_val() == Some(
                list@[self.slot(list)],
            ),
            !self.at_end(list) ==> self.next_slot(list) == self.slot(list) + 1,
    {
        let a = self.pre_aux;
        let t = self.target.unwrap();
        list.lemma_link_positions(a, t);
        list.lemma_target_value(a, t);
    }

    /// A cursor on the cells `pre_cell` and `pre_aux`, without a target:
    /// the caller's handles on the two cells pass to the cursor.
    pub fn new(pre_cell: usize, pre_aux: usize) -> (cursor: Cursor)
        ensures
            cursor.target().is_none(),
            cursor.pre_cell() == pre_cell,
            cursor.pre_aux() == pre_aux,
            cursor.idle(),
    {
        Cursor { target: None, pre_cell, pre_aux, start: None, behind: None, end: None, aimed: false }
    }

    /// The target, if it is an element.
    pub fn get_target_not_last<T>(&self, list: &List<T>) -> (target: Result<usize, Error>)
        requires
            list.inv(),
            self.wf(list),
        ensures
            self.target().is_none() ==> target == Err::<usize, Error>(Error::NeedsUpdate),
            self.at_end(list) ==> target == Err::<usize, Error>(Error::TargetIsTail),
            self.target().is_some() && !self.at_end(list) ==> target == Ok::<usize, Error>(
                self.target().unwrap(),
            ) && list.mem().cell(self.target().unwrap()).spec_is_data_cell(),
    {
        proof {
            list.lemma_sentinels();
        }
        match self.target {
            None => Err(Error::NeedsUpdate),
            Some(target) => {
                if target == list.last {
                    return Err(Error::TargetIsTail);
                }
                Ok(target)
            },
        }
    }

    /// Brings the cursor up to date: its marker cell becomes the last one of
    /// the run it stands in, and its target the data cell (or the tail) behind
    /// that run.  Marker cells that the walk passes are cut out of the `next`
    /// link of the cursor's data cell on the way.
    #[verifier::rlimit(50)]
    pub fn update<T>(&mut self, list: &mut List<T>)
        requires
            old(list).inv(),
            old(self).wf(old(list)),
            old(self).idle(),
        ensures
            final(self).idle(),
            final(list).inv(),
            final(self).wf(final(list)),
            final(self).synced(final(list)),
            final(list)@ == old(list)@,
            final(self).slot(final(list)) == old(self).slot(old(list)),
            final(self).pre_cell() == old(self).pre_cell(),
            old(self).synced(old(list)) ==> *final(self) == *old(self) && final(list).mem()@ == old(list).mem()@,
            final(self).stepped(final(list), old(self), old(list), 0, 0),
    {
        let ghost c0 = *self;
        let ghost l0 = *list;
        proof {
            list.lemma_sentinels();
            lemma_track_start(&c0, &l0);
            l0.lemma_kept();
        }
        match self.target {
            None => {},
            Some(target) => {
                if list.arena.get(self.pre_aux).next_cmp(target) {
                    proof {
                        lemma_track_end(list, self, &c0, &l0);
                    }
                    return;
                }
            },
        }
        let ghost start = *list;
        let pre_cell = self.pre_cell;
        let mut p = self.pre_aux;
        proof {
            assert(list.arena.sound(p));
            assert(list.ranked_at(p));
        }
        proof {
            let n0 = list.arena.cell(p).spec_next().unwrap();
            assert(list.arena.sound(n0));
            assert(list.arena.covered(n0, 0));
        }
        let mut n = list.acquire_next(p);
        proof {
            assert(list.arena.covered(p, 1));
            assert(list.arena.covered(pre_cell, self.holds(pre_cell) + list.own(pre_cell)));
            assert(list.arena.covered(n, 1 + self.holds(n)));
            lemma_track(
                list,
                &l0,
                hands(c0, None, None, Some(n)),
                hands(c0, None, None, None),
                |i: usize| -one_if(Some(n), i),
                &c0,
                &l0,
            );
            list.lemma_shift_then_keep(&l0, &l0, 0, 0);
        }
        let ghost l1 = *list;
        match self.target {
            None => {
                proof {
                    lemma_track_same(
                        list,
                        hands(placed(pre_cell, p, None), None, None, Some(n)),
                        hands(c0, None, None, Some(n)),
                        &c0,
                        &l0,
                    );
                }
            },
            Some(target) => {
                proof {
                    assert(list.arena.covered(target, self.holds(target)));
                }
                list.let_go(target);
                proof {
                    lemma_track(
                        list,
                        &l1,
                        hands(placed(pre_cell, p, None), None, None, Some(n)),
                        hands(c0, None, None, Some(n)),
                        |i: usize| one_if(Some(target), i),
                        &c0,
                        &l0,
                    );
                    list.lemma_shift_then_keep(&l1, &l0, 0, 0);
                }
            },
        }
        self.target = None;
        proof {
            assert(list.arena.covered(p, 1));
            assert(list.arena.covered(pre_cell, 1 + list.own(pre_cell)));
            assert(list.arena.covered(n, 1));
        }
        loop
            invariant
                list.inv(),
                list.first == start.first,
                list.last == start.last,
                list.rank@ == start.rank@,
                list.anchor@ == start.anchor@,
                list@ == start@,
                list.slot_after(pre_cell) == start.slot_after(pre_cell),
                pre_cell == self.pre_cell,
                self.target.is_none(),
                list.arena.live(pre_cell),
                list.arena.cell(pre_cell).is_normal(),
                list.arena.covered(pre_cell, 1 + list.own(pre_cell)),
                list.arena.live(p),
                list.arena.cell(p).spec_is_aux(),
                list.arena.covered(p, 1),
                list.arena.cell(p).spec_next() == Some(n),
                list.arena.live(n),
                list.arena.covered(n, 1),
                list.rk(pre_cell) > list.rk(p),
                list.rk(p) > list.rk(n),
                list.anc(p) == list.anc(pre_cell),
                tracks(list, hands(placed(pre_cell, p, None), None, None, Some(n)), &c0, &l0),
                list.shifted(&l0, 0, 0),
            ensures
                tracks(list, hands(placed(pre_cell, p, None), None, None, Some(n)), &c0, &l0),
                list.shifted(&l0, 0, 0),
                list.inv(),
                list@ == start@,
                list.slot_after(pre_cell) == start.slot_after(pre_cell),
                pre_cell == self.pre_cell,
                self.target.is_none(),
                list.arena.live(pre_cell),
                list.arena.cell(pre_cell).is_normal(),
                list.arena.covered(pre_cell, 1 + list.own(pre_cell)),
                list.arena.live(p),
                list.arena.cell(p).spec_is_aux(),
                list.arena.covered(p, 1),
                list.arena.cell(p).spec_next() == Some(n),
                list.arena.live(n),
                list.arena.cell(n).spec_is_after_aux(),
                list.arena.covered(n, 1),
                list.rk(pre_cell) > list.rk(p),
                list.rk(p) > list.rk(n),
                list.anc(p) == list.anc(pre_cell),
            decreases list.rk(n),
        {
            if list.arena.get(n).is_after_aux() {
                break;
            }
            proof {
                assert(list.arena.sound(p));
                assert(list.arena.sound(n));
                assert(list.anchored_at(p));
                assert(list.ranked_at(n));
                list.lemma_sentinels();
                list.lemma_next_on_chain(pre_cell, p, n);
            }
            let ghost h_a = hands(placed(pre_cell, p, None), None, None, Some(n));
            let ghost h_b = hands(placed(pre_cell, p, None), None, Some(n), Some(n));
            let ghost h_c = hands(placed(pre_cell, n, None), None, None, None);
            let ghost m0 = *list;
            list.acquire(n);
            let ghost m1 = *list;
            proof {
                assert(list.arena.covered(p, 1));
                assert(list.arena.covered(pre_cell, 1 + list.own(pre_cell)));
                assert(list.arena.covered(n, 2));
                lemma_track(list, &m0, h_b, h_a, |i: usize| -one_if(Some(n), i), &c0, &l0);
                list.lemma_shift_then_keep(&m0, &l0, 0, 0);
            }
            match list.splice(pre_cell, p, n) {
                Ok(was) => {
                    let ghost m2 = *list;
                    proof {
                        assert(list.arena.covered(p, 2));
                        assert(list.arena.covered(pre_cell, 1 + list.own(pre_cell)));
                        assert(list.arena.covered(n, 1));
                        lemma_track(
                            list,
                            &m1,
                            hands(placed(pre_cell, p, None), None, Some(p), Some(n)),
                            h_b,
                            |i: usize| one_if(Some(n), i) - one_if(Some(p), i),
                            &c0,
                            &l0,
                        );
                        list.lemma_shift_then_keep(&m1, &l0, 0, 0);
                    }
                    list.let_go(was);
                    proof {
                        lemma_track(
                            list,
                            &m2,
                            h_a,
                            hands(placed(pre_cell, p, None), None, Some(p), Some(n)),
                            |i: usize| one_if(Some(p), i),
                            &c0,
                            &l0,
                        );
                        list.lemma_shift_then_keep(&m2, &l0, 0, 0);
                    }
                },
                Err(_) => {
                    proof {
                        assert(list.arena.covered(p, 1));
                        assert(list.arena.covered(pre_cell, 1 + list.own(pre_cell)));
                        assert(list.arena.covered(n, 2));
                    }
                    list.let_go(n);
                    proof {
                        lemma_track(list, &m1, h_a, h_b, |i: usize| one_if(Some(n), i), &c0, &l0);
                        list.lemma_shift_then_keep(&m1, &l0, 0, 0);
                    }
                },
            }
            let ghost m3 = *list;
            proof {
                assert(list.arena.covered(p, 1));
                assert(list.arena.covered(pre_cell, 1 + list.own(pre_cell)));
                assert(list.arena.covered(n, 1));
            }
            list.let_go(p);
            let ghost m4 = *list;
            proof {
                lemma_track(list, &m3, h_c, h_a, |i: usize| one_if(Some(p), i), &c0, &l0);
                list.lemma_shift_then_keep(&m3, &l0, 0, 0);
                assert(list.arena.covered(pre_cell, 1 + list.own(pre_cell)));
                assert(list.arena.covered(n, 1));
                assert(list.arena.sound(n));
                assert(list.ranked_at(n));
                let n1 = list.arena.cell(n).spec_next().unwrap();
                assert(list.arena.sound(n1));
                assert(list.arena.covered(n1, 0));
            }
            p = n;
            n = list.acquire_next(p);
            proof {
                lemma_track(
                    list,
                    &m4,
                    hands(placed(pre_cell, p, None), None, None, Some(n)),
                    h_c,
                    |i: usize| -one_if(Some(n), i),
                    &c0,
                    &l0,
                );
                list.lemma_shift_then_keep(&m4, &l0, 0, 0);
                assert(list.arena.covered(p, 1));
                assert(list.arena.covered(pre_cell, 1 + list.own(pre_cell)));
                assert(list.arena.covered(n, 1));
            }
        }
        self.pre_aux = p;
        self.target = Some(n);
        proof {
            lemma_track_same(
                list,
                hands(*self, None, None, None),
                hands(placed(pre_cell, p, None), None, None, Some(n)),
                &c0,
                &l0,
            );
            lemma_track_end(list, self, &c0, &l0);
        }
    }

    /// Steps over the target.  `Ok(true)`: the target was an element, the
    /// cursor now stands behind it and is up to date.  `Ok(false)`: the target
    /// is the tail, and the cursor stays where it is.
    #[verifier::rlimit(50)]
    pub fn next<T>(&mut self, list: &mut List<T>) -> (moved: Result<bool, Error>)
        requires
            old(list).inv(),
            old(self).wf(old(list)),
            old(self).idle(),
        ensures
            final(self).idle(),
            final(list).inv(),
            final(self).wf(final(list)),
            final(list)@ == old(list)@,
            old(self).target().is_none() ==> moved == Err::<bool, Error>(Error::NeedsUpdate),
            old(self).at_end(old(list)) ==> moved == Ok::<bool, Error>(false),
            old(self).target().is_some() && !old(self).at_end(old(list)) ==> moved == Ok::<
                bool,
                Error,
            >(true),
            moved != Ok::<bool, Error>(true) ==> *final(self) == *old(self) && final(self).slot(
                final(list),
            ) == old(self).slot(old(list)) && final(self).synced(final(list)) == old(self).synced(
                old(list),
            ),
            moved == Ok::<bool, Error>(true) ==> final(self).synced(final(list)) && final(self).slot(final(list)) == old(self).next_slot(old(list)),
            old(self).synced(old(list)) ==> {
                &&& 0 <= old(self).slot(old(list)) <= old(list)@.len()
                &&& moved == Ok::<bool, Error>(old(self).slot(old(list)) < old(list)@.len())
                &&& moved == Ok::<bool, Error>(true) ==> final(self).slot(final(list)) == old(self).slot(old(list)) + 1
            },
            final(self).stepped(final(list), old(self), old(list), 0, 0),
    {
        let ghost c0 = *self;
        let ghost l0 = *list;
        proof {
            lemma_track_start(&c0, &l0);
            lemma_track_end(list, self, &c0, &l0);
            l0.lemma_kept();
            if self.synced(list) {
                self.lemma_synced(list);
            }
        }
        let target = match self.get_target_not_last(list) {
            Ok(target) => target,
            Err(e) => {
                match e {
                    Error::NeedsUpdate => {
                        return Err(Error::NeedsUpdate);
                    },
                    Error::TargetIsTail => {
                        return Ok(false);
                    },
                    Error::Conflict => {
                        return Ok(false);
                    },
                }
            },
        };
        let ghost start = *list;
        proof {
            list.lemma_sentinels();
            assert(list.arena.covered(self.pre_cell, self.holds(self.pre_cell) + list.own(self.pre_cell)));
            assert(list.arena.covered(target, self.holds(target)));
            assert(list.arena.covered(self.pre_aux, 1));
        }
        let ghost pc = self.pre_cell;
        let ghost pa = self.pre_aux;
        let ghost t = Some(target);
        list.let_go(self.pre_cell);
        let ghost l1 = *list;
        proof {
            assert(list.arena.covered(target, 1));
            assert(list.arena.covered(self.pre_aux, 1));
            lemma_track(
                list,
                &l0,
                hands6(None, Some(pa), t, None, None, None),
                hands(c0, None, None, None),
                |i: usize| one_if(Some(pc), i),
                &c0,
                &l0,
            );
            list.lemma_shift_then_keep(&l0, &l0, 0, 0);
        }
        list.acquire(target);
        let ghost l2 = *list;
        self.pre_cell = target;
        proof {
            assert(list.arena.covered(target, 2));
            assert(list.arena.covered(self.pre_aux, 1));
            list.lemma_sentinels();
            lemma_track(
                list,
                &l1,
                hands6(t, Some(pa), t, None, None, None),
                hands6(None, Some(pa), t, None, None, None),
                |i: usize| -one_if(t, i),
                &c0,
                &l0,
            );
            list.lemma_shift_then_keep(&l1, &l0, 0, 0);
        }
        list.let_go(self.pre_aux);
        let ghost l3 = *list;
        proof {
            lemma_track(
                list,
                &l2,
                hands6(t, None, t, None, None, None),
                hands6(t, Some(pa), t, None, None, None),
                |i: usize| one_if(Some(pa), i),
                &c0,
                &l0,
            );
            list.lemma_shift_then_keep(&l2, &l0, 0, 0);
            assert(list.arena.covered(target, 2));
            assert(list.arena.sound(target));
            assert(list.ranked_at(target));
            assert(list.anchored_at(target));
            let n0 = list.arena.cell(target).spec_next().unwrap();
            assert(list.arena.sound(n0));
            assert(list.arena.covered(n0, 0));
        }
        self.pre_aux = list.acquire_next(target);
        proof {
            lemma_track(
                list,
                &l3,
                hands(*self, None, None, None),
                hands6(t, None, t, None, None, None),
                |i: usize| -one_if(Some(self.pre_aux), i),
                &c0,
                &l0,
            );
            list.lemma_shift_then_keep(&l3, &l0, 0, 0);
            lemma_track_end(list, self, &c0, &l0);
            assert(list.arena.covered(target, 2));
            assert(list.arena.covered(self.pre_aux, 1));
            list.lemma_sentinels();
            assert(self.wf(list));
        }
        let ghost l4 = *list;
        self.update(list);
        proof {
            list.lemma_evolved_trans(&l4, &l0);
            list.lemma_shift_then_keep(&l4, &l0, 0, 0);
        }
        Ok(true)
    }

    /// Puts `data` into the list at the cursor's position, by one
    /// compare-and-swap.  The cursor itself is left as it is: when the
    /// insertion succeeds, its target is out of date.
    #[verifier::rlimit(50)]
    pub fn try_insert<T>(&self, list: &mut List<T>, data: T) -> (done: Result<(), Error>)
        requires
            old(list).inv(),
            self.wf(old(list)),
            self.idle(),
        ensures
            final(list).inv(),
            self.wf(final(list)),
            self.slot(final(list)) == self.slot(old(list)),
            self.target().is_none() ==> done == Err::<(), Error>(Error::NeedsUpdate),
            self.target().is_some() && !self.synced(old(list)) ==> done == Err::<(), Error>(
                Error::Conflict,
            ),
            self.synced(old(list)) ==> done == Ok::<(), Error>(()),
            done.is_err() ==> final(list)@ == old(list)@ && self.synced(final(list)) == self.synced(
                old(list),
            ),
            done.is_ok() ==> {
                &&& 0 <= self.slot(old(list)) <= old(list)@.len()
                &&& final(list)@ == old(list)@.insert(self.slot(old(list)), data)
                &&& !self.synced(final(list))
                &&& final(list).pair_behind(self.pre_aux(), data, self.target().unwrap())
            },
            self.stepped(final(list), self, old(list), self.slot(old(list)), if done.is_ok() { 1int } else { 0int }),
    {
        proof {
            list.lemma_evolved_refl();
            list.lemma_kept();
        }
        let target = match self.target {
            None => {
                return Err(Error::NeedsUpdate);
            },
            Some(target) => target,
        };
        let ghost start = *list;
        proof {
            assert(list.arena.covered(target, self.holds(target)));
            assert(list.arena.covered(self.pre_cell, self.holds(self.pre_cell) + list.own(self.pre_cell)));
            assert(list.arena.covered(self.pre_aux, 1));
            assert(list.anchored_at(self.pre_cell));
            list.lemma_sentinels();
        }
        let done = list.link_in(self.pre_aux, target, data);
        proof {
            let a1 = start.arena;
            let a2 = list.arena;
            assert(a2.covered(target, self.holds(target))) by {
                if !a2.live(target) {
                    assert(a1.live(target) && !a2.live(target));
                }
                assert(a2.live(target) && a1.live(target));
            }
            assert(a2.covered(self.pre_aux, 1)) by {
                if !a2.live(self.pre_aux) {
                    assert(a1.live(self.pre_aux) && !a2.live(self.pre_aux));
                }
                assert(a2.live(self.pre_aux) && a1.live(self.pre_aux));
            }
            assert(a2.covered(self.pre_cell, self.holds(self.pre_cell) + list.own(self.pre_cell))) by {
                if !a2.live(self.pre_cell) {
                    assert(a1.live(self.pre_cell) && !a2.live(self.pre_cell));
                }
                assert(a2.live(self.pre_cell) && a1.live(self.pre_cell));
            }
        }
        done
    }

    /// Puts `data` into the list at the cursor's position: tries, and
    /// updates the cursor, until an attempt succeeds.  The cursor ends up to
    /// date, with the new element as its target.
    pub fn insert<T: Copy>(&mut self, list: &mut List<T>, data: T)
        requires
            old(list).inv(),
            old(self).wf(old(list)),
            old(self).idle(),
        ensures
            final(self).idle(),
            final(list).inv(),
            final(self).wf(final(list)),
            final(self).synced(final(list)),
            0 <= old(self).slot(old(list)) <= old(list)@.len(),
            final(list)@ == old(list)@.insert(old(self).slot(old(list)), data),
            final(self).slot(final(list)) == old(self).slot(old(list)),
            final(self).stepped(final(list), old(self), old(list), old(self).slot(old(list)), 1),
    {
        proof {
            list.lemma_evolved_refl();
            list.lemma_kept();
        }
        loop
            invariant_except_break
                list.inv(),
                self.wf(list),
                self.idle(),
                list@ == old(list)@,
                self.slot(list) == old(self).slot(old(list)),
                list.shifted(old(list), 0, 0),
            invariant
                list.evolved(old(list)),
                forall|i: usize, k: int|
                    k >= 1 && old(self).spares(old(list), i, k) ==> #[trigger] self.spares(
                        list,
                        i,
                        k,
                    ),
            ensures
                list.shifted(old(list), old(self).slot(old(list)), 1),
                list.inv(),
                self.wf(list),
                self.idle(),
                self.synced(list),
                0 <= old(self).slot(old(list)) <= old(list)@.len(),
                list@ == old(list)@.insert(old(self).slot(old(list)), data),
                self.slot(list) == old(self).slot(old(list)),
            decreases
                    (if self.synced(list) {
                        0int
                    } else {
                        1int
                    }),
        {
            let ghost l1 = *list;
            let res = self.try_insert(list, data);
            let ghost l2 = *list;
            self.update(list);
            proof {
                l2.lemma_evolved_trans(&l1, old(list));
                list.lemma_evolved_trans(&l2, old(list));
                if res.is_ok() {
                    l2.lemma_keep_then_shift(&l1, old(list), old(self).slot(old(list)), 1);
                    list.lemma_shift_then_keep(&l2, old(list), old(self).slot(old(list)), 1);
                } else {
                    l2.lemma_shift_same(&l1, old(self).slot(old(list)));
                    l2.lemma_shift_then_keep(&l1, old(list), 0, 0);
                    list.lemma_shift_then_keep(&l2, old(list), 0, 0);
                }
            }
            if res.is_ok() {
                break;
            }
        }
    }

    /// Gives the cursor up: its handles are released.  A deletion that is
    /// under way is left as it is: the target is out of the list, and the
    /// marker cells that it left behind stay until another deletion or an
    /// update cuts them out.
    #[verifier::rlimit(50)]
    pub fn discard<T>(self, list: &mut List<T>)
        requires
            old(list).inv(),
            self.wf(old(list)),
        ensures
            final(list).inv(),
            final(list)@ == old(list)@,
            final(list).evolved(old(list)),
            final(list).shifted(old(list), 0, 0),
            forall|i: usize, k: int|
                k >= 1 && self.spares(old(list), i, k) ==> #[trigger] final(list).keeps(i, k),
            self.given_up(final(list), old(list)),
    {
        let ghost l0 = *list;
        let ghost spc = Some(self.pre_cell);
        let ghost spa = Some(self.pre_aux);
        let ghost a = self.target;
        let ghost b = self.start;
        let ghost c = self.behind;
        let ghost d = self.end;
        proof {
            list.lemma_sentinels();
            lemma_track_start(&self, &l0);
            l0.lemma_kept();
        }
        let ghost mut h = hands_and(self, None);
        let ghost mut prev = *list;
        proof {
            self.lemma_hold(list, h, &l0, a);
            assert forall|i: usize| #[trigger] h(i) == self.holds(i) by {}
            assert(lowered(list, h, &self, &l0));
        }
        release_one(list, self.target, Ghost(h), Ghost(hands7(spc, spa, None, b, c, d, None)), Ghost(self), Ghost(l0));
        proof {
            h = hands7(spc, spa, None, b, c, d, None);
            self.lemma_hold(list, h, &l0, b);
        }
        release_one(list, self.start, Ghost(h), Ghost(hands7(spc, spa, None, None, c, d, None)), Ghost(self), Ghost(l0));
        proof {
            h = hands7(spc, spa, None, None, c, d, None);
            self.lemma_hold(list, h, &l0, c);
        }
        release_one(list, self.behind, Ghost(h), Ghost(hands7(spc, spa, None, None, None, d, None)), Ghost(self), Ghost(l0));
        proof {
            h = hands7(spc, spa, None, None, None, d, None);
            self.lemma_hold(list, h, &l0, d);
        }
        release_one(list, self.end, Ghost(h), Ghost(hands7(spc, spa, None, None, None, None, None)), Ghost(self), Ghost(l0));
        proof {
            h = hands7(spc, spa, None, None, None, None, None);
            self.lemma_hold(list, h, &l0, spa);
        }
        release_one(list, Some(self.pre_aux), Ghost(h), Ghost(hands7(spc, None, None, None, None, None, None)), Ghost(self), Ghost(l0));
        proof {
            h = hands7(spc, None, None, None, None, None, None);
            self.lemma_hold(list, h, &l0, spc);
        }
        release_one(list, Some(self.pre_cell), Ghost(h), Ghost(hands7(None, None, None, None, None, None, None)), Ghost(self), Ghost(l0));
        proof {
            let h = hands7(None, None, None, None, None, None, None);
            assert forall|i: usize, k: int|
                k >= 1 && self.spares(&l0, i, k) implies #[trigger] list.keeps(i, k) by {
                assert(h(i) == 0);
                assert(cov(list, i, k, h(i)));
            }
            assert forall|i: usize| #[trigger] h(i) == 0 by {}
            assert forall|i: usize|
                #![trigger list.mem().live(i), self.holds(i)]
                l0.arena.live(i) && (l0.arena.cell(i).spec_is_data_cell() || l0.arena.cell(
                    i,
                ).spec_is_aux()) && !l0.arena.immortal(i) && self.holds(i) >= 1 && l0.arena.cell(
                    i,
                ).count() == self.holds(i) implies !list.arena.live(i) by {
                self.lemma_covered(&l0, i);
                l0.lemma_sentinels();
                if list.arena.live(i) {
                    assert(h(i) == 0);
                    assert forall|j: usize| #[trigger] list.arena.live(j) implies list.arena.cell(
                        j,
                    ).spec_next() != Some(i) && list.arena.cell(j).spec_backlink() != Some(i) by {
                        assert(l0.arena.live(j));
                        if l0.arena.cell(j).spec_next() == Some(i) || l0.arena.cell(
                            j,
                        ).spec_backlink() == Some(i) {
                            l0.arena.lemma_referenced(j, i);
                        }
                    }
                    list.arena.lemma_unreferenced(i);
                    list.arena.law_counted_while_there(i);
                }
            }
            assert(self.given_up(list, &l0));
        }
    }

    /// While the handles of a cursor at work are tracked, the list's
    /// counters account for those that it holds on a cell that was there at the start.
    proof fn lemma_hold<T>(
        &self,
        list: &List<T>,
        h: spec_fn(usize) -> int,
        l0: &List<T>,
        x: Option<usize>,
    )
        requires
            l0.inv(),
            self.wf(l0),
            tracks(list, h, self, l0),
            x matches Some(i) ==> l0.arena.live(i) && h(i) + list.own(i) >= 1,
        ensures
            x matches Some(i) ==> list.arena.covered(i, h(i) + list.own(i)),
    {
        match x {
            Some(i) => {
                l0.lemma_sentinels();
                assert(l0.arena.sound(i));
                assert(l0.arena.sound(l0.first));
                assert(cov(l0, i, 0, self.holds(i)));
                assert(cov(list, i, 0, h(i)));
            },
            None => {},
        }
    }

    /// The cell that the cursor points at, if it has a target.
    pub fn target_cell(&self) -> (target: Option<usize>)
        ensures
            target == self.target(),
    {
        self.target
    }

    /// How far the deletion of the cursor's target has come.
    pub fn delete_stage(&self) -> (stage: DeleteStage)
        ensures
            stage == self.stage(),
    {
        if self.start.is_some() {
            if self.aimed {
                DeleteStage::Aimed
            } else {
                DeleteStage::Located
            }
        } else if self.end.is_some() {
            DeleteStage::Unlinked
        } else {
            DeleteStage::Idle
        }
    }

    /// Whether the cursor is up to date: it has a target, and its marker
    /// cell still leads to it.
    pub fn is_synced<T>(&self, list: &List<T>) -> (synced: bool)
        requires
            list.inv(),
            self.wf(list),
        ensures
            synced == self.synced(list),
    {
        match self.target {
            None => false,
            Some(target) => list.arena.get(self.pre_aux).next_cmp(target),
        }
    }

    /// The element that the cursor points at.
    pub fn value<'a, T>(&self, list: &'a List<T>) -> (val: Option<&'a T>)
        requires
            list.inv(),
            self.wf(list),
        ensures
            self.synced(list) ==> (val.is_none() <==> self.at_end(list)),
            self.synced(list) && val.is_some() ==> *val.unwrap() == list@[self.slot(list)],
            self.target().is_none() ==> val.is_none(),
            self.target() matches Some(t) ==> (val matches Some(v) ==> list.mem().cell(
                t,
            ).spec_val() == Some(*v)) && val.is_some() == list.mem().cell(t).spec_is_data_cell(),
    {
        proof {
            list.lemma_sentinels();
            if self.synced(list) {
                self.lemma_synced(list);
            }
        }
        match self.target {
            None => None,
            Some(target) => list.arena.get(target).val(),
        }
    }
}

/// While the cursor that started as `c0` on the list `l0` gives its handles
/// up and still holds `h(i)` of them on every cell `i`: the cells that are
/// there are held less often by what was given up, and the cells that are
/// gone were held by nothing but what was given up.
spec fn lowered<T>(list: &List<T>, h: spec_fn(usize) -> int, c0: &Cursor, l0: &List<T>) -> bool {
    &&& forall|i: usize| #[trigger]
        list.arena.live(i) ==> {
            &&& l0.arena.live(i)
            &&& list.arena.cell(i).same_payload(&l0.arena.cell(i))
            &&& list.arena.cell(i).spec_next() == l0.arena.cell(i).spec_next()
            &&& list.arena.cell(i).spec_backlink() == l0.arena.cell(i).spec_backlink()
            &&& list.arena.immortal(i) == l0.arena.immortal(i)
            &&& !list.arena.immortal(i) ==> list.arena.held(i) == l0.arena.held(i) - (c0.holds(i)
                - h(i))
        }
    &&& forall|i: usize|
        l0.arena.live(i) && !#[trigger] list.arena.live(i) ==> {
            &&& !l0.arena.immortal(i)
            &&& l0.arena.cell(i).spec_is_data_cell() || l0.arena.cell(i).spec_is_aux()
            &&& l0.arena.held(i) == c0.holds(i) - h(i)
        }
}

/// Gives up the handle `x`, if there is one, while the handles of a cursor are tracked.
fn release_one<T>(
    list: &mut List<T>,
    x: Option<usize>,
    Ghost(h): Ghost<spec_fn(usize) -> int>,
    Ghost(h1): Ghost<spec_fn(usize) -> int>,
    Ghost(c0): Ghost<Cursor>,
    Ghost(l0): Ghost<List<T>>,
)
    requires
        old(list).inv(),
        tracks(old(list), h, &c0, &l0),
        old(list).shifted(&l0, 0, 0),
        old(list)@ == l0@,
        x matches Some(i) ==> old(list).arena.covered(i, h(i) + old(list).own(i)) && h(i) >= 1,
        forall|i: usize| #[trigger] h1(i) == h(i) - one_if(x, i),
        lowered(old(list), h, &c0, &l0),
    ensures
        final(list).inv(),
        tracks(final(list), h1, &c0, &l0),
        final(list).shifted(&l0, 0, 0),
        final(list)@ == l0@,
        lowered(final(list), h1, &c0, &l0),
{
    let ghost prev = *list;
    match x {
        None => {
            proof {
                lemma_track_same(list, h1, h, &c0, &l0);
                assert forall|i: usize| #[trigger] list.arena.live(i) implies !list.arena.immortal(i)
                    ==> list.arena.held(i) == l0.arena.held(i) - (c0.holds(i) - h1(i)) by {
                    assert(h1(i) == h(i));
                }
                assert forall|i: usize|
                    l0.arena.live(i) && !#[trigger] list.arena.live(i) implies l0.arena.held(i)
                    == c0.holds(i) - h1(i) by {
                    assert(h1(i) == h(i));
                }
            }
        },
        Some(x0) => {
            list.let_go(x0);
            proof {
                lemma_track(list, &prev, h1, h, |j: usize| one_if(x, j), &c0, &l0);
                list.lemma_shift_then_keep(&prev, &l0, 0, 0);
                assert forall|i: usize| #[trigger] list.arena.live(i) implies {
                    &&& l0.arena.live(i)
                    &&& list.arena.cell(i).same_payload(&l0.arena.cell(i))
                    &&& list.arena.cell(i).spec_next() == l0.arena.cell(i).spec_next()
                    &&& list.arena.cell(i).spec_backlink() == l0.arena.cell(i).spec_backlink()
                    &&& list.arena.immortal(i) == l0.arena.immortal(i)
                    &&& !list.arena.immortal(i) ==> list.arena.held(i) == l0.arena.held(i) - (
                    c0.holds(i) - h1(i))
                } by {
                    assert(prev.arena.live(i));
                    assert(h1(i) == h(i) - one_if(x, i));
                }
                assert forall|i: usize| l0.arena.live(i) && !#[trigger] list.arena.live(i) implies {
                    &&& !l0.arena.immortal(i)
                    &&& l0.arena.cell(i).spec_is_data_cell() || l0.arena.cell(i).spec_is_aux()
                    &&& l0.arena.held(i) == c0.holds(i) - h1(i)
                } by {
                    assert(h1(i) == h(i) - one_if(x, i));
                    if prev.arena.live(i) {
                        assert(prev.arena.live(i) && !list.arena.live(i));
                    } else {
                        assert(prev.arena.live(x0));
                        assert(i != x0);
                    }
                }
            }
        },
    }
}

impl<T> List<T> {
    /// A cursor in front of the first element, up to date.
    pub fn first(&mut self) -> (cursor: Cursor)
        requires
            old(self).inv(),
        ensures
            final(self).inv(),
            final(self)@ == old(self)@,
            cursor.wf(final(self)),
            cursor.idle(),
            cursor.synced(final(self)),
            cursor.slot(final(self)) == 0,
            final(self).evolved(old(self)),
            final(self).shifted(old(self), 0, 0),
            forall|i: usize, k: int|
                k >= 1 && old(self).keeps(i, k) ==> #[trigger] cursor.spares(final(self), i, k),
    {
        let ghost l0 = *self;
        proof {
            self.lemma_sentinels();
            self.lemma_head_slot();
            assert(self.arena.sound(self.first));
            assert(self.ranked_at(self.first));
            assert(self.anchored_at(self.first));
            let n0 = self.arena.cell(self.first).spec_next().unwrap();
            assert(self.arena.sound(n0));
            assert(self.arena.covered(n0, 0));
            assert(self.arena.covered(self.first, 1));
        }
        let first = self.first;
        self.acquire(first);
        let ghost l1 = *self;
        let pre_aux = self.acquire_next(first);
        let mut cursor = Cursor::new(first, pre_aux);
        let ghost l2 = *self;
        let ghost c2 = cursor;
        proof {
            self.lemma_sentinels();
            assert(self.arena.covered(first, 2));
            assert(self.arena.covered(pre_aux, 1));
            assert(cursor.wf(self));
            l2.lemma_evolved_trans(&l1, &l0);
            l2.lemma_shift_then_keep(&l1, &l0, 0, 0);
            assert forall|i: usize, k: int| k >= 1 && l0.keeps(i, k) implies #[trigger] c2.spares(
                &l2,
                i,
                k,
            ) by {
                let big = k + c2.holds(i) + l2.own(i);
                assert(l1.arena.covered(i, big - one_if(Some(pre_aux), i)));
                assert(l2.arena.covered(i, big));
            }
        }
        cursor.update(self);
        proof {
            self.lemma_evolved_trans(&l2, &l0);
            self.lemma_shift_then_keep(&l2, &l0, 0, 0);
        }
        cursor
    }
}

} // verus!
