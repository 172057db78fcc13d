//! Deleting the target of a cursor, in four steps: the target is unlinked,
//! the cell in front of the run of marker cells that this leaves is found,
//! the last marker cell of the run is found, and the run is cut out by one
//! compare-and-swap.  Other cursors may take steps in between; deletions of
//! neighbouring elements then share the cutting.
use vstd::prelude::*;
use super::{hands, hands7, hands_and, lemma_track, lemma_track_end, lemma_track_start, one_if, tracks};
use crate::error::Error;
use crate::list::cursor::{Cursor, DeleteStage};
use crate::list::List;

verus! {

/// How one attempt to cut a run of marker cells out of the list ended.
#[derive(Clone, Copy, Debug, PartialEq, Eq, Structural)]
pub enum DeleteLoopCondition {
    /// The compare-and-swap went through.
    Success,
    /// It did not, and nothing else happened: try again.
    Failure,
    /// The run grew at its far end meanwhile: another deletion will cut it out.
    ConcurrentDelForward,
    /// The cell in front of the run was deleted meanwhile: its deletion will cut the run out.
    ConcurrentDelPrev,
}

impl DeleteLoopCondition {
    /// What to make of an attempt that swapped the `next` link of `p` towards
    /// the marker cell `n`, and of which `res` says whether it went through.
    pub fn new<T>(list: &List<T>, res: bool, p: usize, n: usize) -> (cond: DeleteLoopCondition)
        requires
            list.inv(),
            list.mem().live(p),
            list.mem().live(n),
            list.mem().cell(n).spec_is_aux(),
        ensures
            cond == if res {
                DeleteLoopCondition::Success
            } else if list.mem().cell(p).spec_backlink().is_some() {
                DeleteLoopCondition::ConcurrentDelPrev
            } else if !list.mem().cell(
                list.mem().cell(n).spec_next().unwrap(),
            ).spec_is_after_aux() {
                DeleteLoopCondition::ConcurrentDelForward
            } else {
                DeleteLoopCondition::Failure
            },
    {
        if res {
            return DeleteLoopCondition::Success;
        }
        if list.arena.get(p).backlink().is_some() {
            return DeleteLoopCondition::ConcurrentDelPrev;
        }
        if !Cursor::n_is_last_aux(list, n) {
            return DeleteLoopCondition::ConcurrentDelForward;
        }
        DeleteLoopCondition::Failure
    }
}

impl Cursor {
    /// Whether the marker cell `n` is the last one of its run: what follows
    /// it is a data cell or the tail.
    pub fn n_is_last_aux<T>(list: &List<T>, n: usize) -> (last: bool)
        requires
            list.inv(),
            list.mem().live(n),
            list.mem().cell(n).spec_is_aux(),
        ensures
            last == list.mem().cell(list.mem().cell(n).spec_next().unwrap()).spec_is_after_aux(),
    {
        proof {
            assert(list.arena.sound(n));
        }
        let n_next = list.arena.get(n).next().unwrap();
        list.arena.get(n_next).is_after_aux()
    }

    /// The first step of a deletion: the target is unlinked by one
    /// compare-and-swap on the `next` link of the cursor's marker cell, it is
    /// given the cursor's data cell as its back link, and the cursor lets go
    /// of it.  The cursor keeps a handle on the marker cell that followed the
    /// target: from there the run that the deletion left behind is cut out later.
    #[verifier::rlimit(50)]
    pub fn outlink_target<T>(&mut self, list: &mut List<T>) -> (out: Result<(), Error>)
        requires
            old(list).inv(),
            old(self).wf(old(list)),
            old(self).idle(),
        ensures
            final(list).inv(),
            final(self).wf(final(list)),
            final(self).pre_cell() == old(self).pre_cell(),
            final(self).pre_aux() == old(self).pre_aux(),
            final(self).slot(final(list)) == old(self).slot(old(list)),
            old(self).target().is_none() ==> out == Err::<(), Error>(Error::NeedsUpdate),
            old(self).at_end(old(list)) ==> out == Err::<(), Error>(Error::TargetIsTail),
            old(self).target().is_some() && !old(self).at_end(old(list)) && !old(self).synced(
                old(list),
            ) ==> out == Err::<(), Error>(Error::Conflict),
            old(self).synced(old(list)) && !old(self).at_end(old(list)) ==> out == Ok::<(), Error>(
                (),
            ),
            old(self).synced(old(list)) ==> {
                &&& 0 <= old(self).slot(old(list)) <= old(list)@.len()
                &&& out.is_ok() <==> old(self).slot(old(list)) < old(list)@.len()
            },
            out.is_err() ==> {
                &&& final(list)@ == old(list)@
                &&& *final(self) == *old(self)
                &&& final(self).synced(final(list)) == old(self).synced(old(list))
            },
            out.is_ok() ==> {
                &&& 0 <= old(self).slot(old(list)) < old(list)@.len()
                &&& final(list)@ == old(list)@.remove(old(self).slot(old(list)))
                &&& final(self).target().is_none()
                &&& final(self).stage() == DeleteStage::Unlinked
                &&& final(list).mem().cell(final(self).pre_aux()).spec_next() != old(self).target()
                &&& final(list).mem().live(old(self).target().unwrap()) ==> final(list).mem().cell(
                    old(self).target().unwrap(),
                ).spec_backlink() == Some(old(self).pre_cell())
            },
            final(self).stepped(final(list), old(self), old(list), old(self).slot(old(list)), if out.is_ok() { -1int } else { 0int }),
    {
        let ghost c0 = *self;
        let ghost l0 = *list;
        proof {
            lemma_track_start(&c0, &l0);
            lemma_track_end(list, self, &c0, &l0);
            list.lemma_kept();
            if self.synced(list) {
                self.lemma_synced(list);
            }
        }
        let d = match self.get_target_not_last(list) {
            Ok(d) => d,
            Err(e) => {
                return Err(e);
            },
        };
        let pre_cell = self.pre_cell;
        let pre_aux = self.pre_aux;
        let ghost spc = Some(pre_cell);
        let ghost spa = Some(pre_aux);
        let ghost sd = Some(d);
        proof {
            list.lemma_sentinels();
            assert(list.arena.sound(d));
            assert(list.ranked_at(d));
        }
        let n = list.acquire_next(d);
        let ghost sn = Some(n);
        let ghost l1 = *list;
        proof {
            lemma_track(
                list,
                &l0,
                hands7(spc, spa, sd, None, None, None, sn),
                hands_and(c0, None),
                |i: usize| -one_if(sn, i),
                &c0,
                &l0,
            );
            list.lemma_shift_then_keep(&l0, &l0, 0, 0);
        }
        list.acquire(pre_cell);
        let ghost l2 = *list;
        proof {
            lemma_track(
                list,
                &l1,
                hands7(spc, spa, sd, spc, None, None, sn),
                hands7(spc, spa, sd, None, None, None, sn),
                |i: usize| -one_if(spc, i),
                &c0,
                &l0,
            );
            list.lemma_shift_then_keep(&l1, &l0, 0, 0);
            c0.lemma_hold(list, hands7(spc, spa, sd, spc, None, None, sn), &l0, spc);
            c0.lemma_hold(list, hands7(spc, spa, sd, spc, None, None, sn), &l0, sn);
            list.lemma_sentinels();
            assert(list.ranked_at(d));
        }
        match list.unlink(pre_cell, pre_aux, d, n) {
            Err(_) => {
                let ghost l3 = *list;
                proof {
                    lemma_track(
                        list,
                        &l2,
                        hands7(spc, spa, sd, spc, None, None, sn),
                        hands7(spc, spa, sd, spc, None, None, sn),
                        |i: usize| 0int,
                        &c0,
                        &l0,
                    );
                    list.lemma_shift_same(&l2, l2.slot_after(pre_cell));
                    list.lemma_shift_then_keep(&l2, &l0, 0, 0);
                    c0.lemma_hold(list, hands7(spc, spa, sd, spc, None, None, sn), &l0, sn);
                    list.lemma_sentinels();
                }
                list.let_go(n);
                let ghost l4 = *list;
                proof {
                    lemma_track(
                        list,
                        &l3,
                        hands7(spc, spa, sd, spc, None, None, None),
                        hands7(spc, spa, sd, spc, None, None, sn),
                        |i: usize| one_if(sn, i),
                        &c0,
                        &l0,
                    );
                    list.lemma_shift_then_keep(&l3, &l0, 0, 0);
                    c0.lemma_hold(list, hands7(spc, spa, sd, spc, None, None, None), &l0, spc);
                }
                list.let_go(pre_cell);
                proof {
                    lemma_track(
                        list,
                        &l4,
                        hands(*self, self.start, self.behind, self.end),
                        hands7(spc, spa, sd, spc, None, None, None),
                        |i: usize| one_if(spc, i),
                        &c0,
                        &l0,
                    );
                    list.lemma_shift_then_keep(&l4, &l0, 0, 0);
                    lemma_track_end(list, self, &c0, &l0);
                    let h = hands(*self, self.start, self.behind, self.end);
                    c0.lemma_hold(list, h, &l0, spc);
                    c0.lemma_hold(list, h, &l0, spa);
                    c0.lemma_hold(list, h, &l0, sd);
                    list.lemma_sentinels();
                }
                Err(Error::Conflict)
            },
            Ok(was) => {
                let ghost l3 = *list;
                let ghost k = c0.slot(&l0);
                proof {
                    assert(pre_cell != d);
                    lemma_track(
                        list,
                        &l2,
                        hands7(spc, spa, sd, sd, None, None, None),
                        hands7(spc, spa, sd, spc, None, None, sn),
                        |i: usize| one_if(sn, i) + one_if(spc, i) - one_if(sd, i),
                        &c0,
                        &l0,
                    );
                    list.lemma_keep_then_shift(&l2, &l0, k, -1);
                    assert(list.arena.live(n));
                }
                list.acquire(n);
                let ghost l4 = *list;
                proof {
                    lemma_track(
                        list,
                        &l3,
                        hands7(spc, spa, sd, sd, None, None, sn),
                        hands7(spc, spa, sd, sd, None, None, None),
                        |i: usize| -one_if(sn, i),
                        &c0,
                        &l0,
                    );
                    list.lemma_shift_then_keep(&l3, &l0, k, -1);
                    c0.lemma_hold(list, hands7(spc, spa, sd, sd, None, None, sn), &l0, sd);
                    list.lemma_sentinels();
                }
                list.let_go(was);
                let ghost l5 = *list;
                proof {
                    lemma_track(
                        list,
                        &l4,
                        hands7(spc, spa, sd, None, None, None, sn),
                        hands7(spc, spa, sd, sd, None, None, sn),
                        |i: usize| one_if(sd, i),
                        &c0,
                        &l0,
                    );
                    list.lemma_shift_then_keep(&l4, &l0, k, -1);
                    c0.lemma_hold(list, hands7(spc, spa, sd, None, None, None, sn), &l0, sd);
                    list.lemma_sentinels();
                }
                list.let_go(d);
                self.target = None;
                self.end = Some(n);
                proof {
                    let h = hands(*self, self.start, self.behind, self.end);
                    lemma_track(
                        list,
                        &l5,
                        h,
                        hands7(spc, spa, sd, None, None, None, sn),
                        |i: usize| one_if(sd, i),
                        &c0,
                        &l0,
                    );
                    list.lemma_shift_then_keep(&l5, &l0, k, -1);
                    lemma_track_end(list, self, &c0, &l0);
                    c0.lemma_hold(list, h, &l0, spc);
                    c0.lemma_hold(list, h, &l0, spa);
                    c0.lemma_hold(list, h, &l0, sn);
                    list.lemma_sentinels();
                    assert(n != pre_aux);
                    assert(self.wf(list));
                }
                Ok(())
            },
        }
    }

    /// The second step: walks the back links from the cursor's data cell to
    /// the first cell that is not deleted itself, and reads its `next` link.
    /// The cursor keeps a handle on each of the two cells.
    #[verifier::rlimit(50)]
    pub fn calculate_delete_start<T>(&mut self, list: &mut List<T>)
        requires
            old(list).inv(),
            old(self).wf(old(list)),
            old(self).stage() == DeleteStage::Unlinked,
        ensures
            final(list).inv(),
            final(self).wf(final(list)),
            final(self).stage() == DeleteStage::Located,
            final(self).cut_to() == old(self).cut_to(),
            final(self).cut_from() matches Some(p) && {
                &&& final(list).mem().live(p)
                &&& final(list).mem().cell(p).is_normal()
                &&& final(list).mem().cell(p).spec_backlink().is_none()
                &&& final(list).mem().cell(p).spec_next() == final(self).cut_behind()
            },
            final(self).pre_cell() == old(self).pre_cell(),
            final(self).pre_aux() == old(self).pre_aux(),
            final(self).target() == old(self).target(),
            final(self).slot(final(list)) == old(self).slot(old(list)),
            final(list)@ == old(list)@,
            final(self).stepped(final(list), old(self), old(list), 0, 0),
    {
        let ghost c0 = *self;
        let ghost l0 = *list;
        let ghost spc = Some(self.pre_cell);
        let ghost spa = Some(self.pre_aux);
        let ghost sn = self.end;
        let ghost n = self.end.unwrap();
        let mut p = self.pre_cell;
        proof {
            lemma_track_start(&c0, &l0);
            list.lemma_kept();
            list.lemma_sentinels();
        }
        list.acquire(p);
        proof {
            lemma_track(
                list,
                &l0,
                hands7(spc, spa, None, Some(p), None, sn, None),
                hands_and(c0, None),
                |i: usize| -one_if(Some(p), i),
                &c0,
                &l0,
            );
            list.lemma_shift_then_keep(&l0, &l0, 0, 0);
        }
        loop
            invariant
                list.inv(),
                l0.inv(),
                c0.wf(&l0),
                *self == c0,
                spc == Some(self.pre_cell),
                spa == Some(self.pre_aux),
                sn == self.end,
                sn == Some(n),
                self.start.is_none() && self.behind.is_none() && self.target.is_none(),
                list@ == l0@,
                list.first == l0.first,
                list.rank@ == l0.rank@,
                list.anchor@ == l0.anchor@,
                list.arena.capacity() == l0.arena.capacity(),
                list.slot_after(self.pre_cell) == l0.slot_after(self.pre_cell),
                list.shifted(&l0, 0, 0),
                list.arena.live(p),
                list.arena.cell(p).is_normal(),
                list.anc(p) == list.anc(self.pre_cell),
                tracks(list, hands7(spc, spa, None, Some(p), None, sn, None), &c0, &l0),
            ensures
                list.inv(),
                *self == c0,
                list@ == l0@,
                list.first == l0.first,
                list.rank@ == l0.rank@,
                list.anchor@ == l0.anchor@,
                list.arena.capacity() == l0.arena.capacity(),
                list.slot_after(self.pre_cell) == l0.slot_after(self.pre_cell),
                list.shifted(&l0, 0, 0),
                list.arena.live(p),
                list.arena.cell(p).is_normal(),
                list.arena.cell(p).spec_backlink().is_none(),
                list.anc(p) == list.anc(self.pre_cell),
                tracks(list, hands7(spc, spa, None, Some(p), None, sn, None), &c0, &l0),
            decreases list.rk(list.first) - list.rk(p),
        {
            let ghost l1 = *list;
            proof {
                assert(list.arena.sound(p));
                assert(list.ranked_at(p));
                assert(list.anchored_at(p));
                list.lemma_sentinels();
            }
            match list.acquire_back(p) {
                None => {
                    proof {
                        lemma_track(
                            list,
                            &l1,
                            hands7(spc, spa, None, Some(p), None, sn, None),
                            hands7(spc, spa, None, Some(p), None, sn, None),
                            |i: usize| 0int,
                            &c0,
                            &l0,
                        );
                        list.lemma_shift_then_keep(&l1, &l0, 0, 0);
                    }
                    break;
                },
                Some(q) => {
                    let ghost l2 = *list;
                    proof {
                        assert(l1.arena.live(q));
                        assert(l1.ranked_at(q));
                        lemma_track(
                            list,
                            &l1,
                            hands7(spc, spa, None, Some(p), None, sn, Some(q)),
                            hands7(spc, spa, None, Some(p), None, sn, None),
                            |i: usize| -one_if(Some(q), i),
                            &c0,
                            &l0,
                        );
                        list.lemma_shift_then_keep(&l1, &l0, 0, 0);
                        assert(l0.arena.live(p));
                        c0.lemma_hold(
                            list,
                            hands7(spc, spa, None, Some(p), None, sn, Some(q)),
                            &l0,
                            Some(p),
                        );
                        list.lemma_sentinels();
                    }
                    list.let_go(p);
                    proof {
                        lemma_track(
                            list,
                            &l2,
                            hands7(spc, spa, None, Some(q), None, sn, None),
                            hands7(spc, spa, None, Some(p), None, sn, Some(q)),
                            |i: usize| one_if(Some(p), i),
                            &c0,
                            &l0,
                        );
                        list.lemma_shift_then_keep(&l2, &l0, 0, 0);
                        assert(l0.arena.live(q));
                        c0.lemma_hold(
                            list,
                            hands7(spc, spa, None, Some(q), None, sn, None),
                            &l0,
                            Some(q),
                        );
                    }
                    p = q;
                },
            }
        }
        let ghost l3 = *list;
        proof {
            assert(list.arena.sound(p));
            assert(list.anchored_at(p));
            assert(list.ranked_at(p));
        }
        let s = list.acquire_next(p);
        self.start = Some(p);
        self.behind = Some(s);
        proof {
            let h = hands(*self, self.start, self.behind, self.end);
            lemma_track(
                list,
                &l3,
                h,
                hands7(spc, spa, None, Some(p), None, sn, None),
                |i: usize| -one_if(Some(s), i),
                &c0,
                &l0,
            );
            list.lemma_shift_then_keep(&l3, &l0, 0, 0);
            lemma_track_end(list, self, &c0, &l0);
            assert(l0.arena.live(p) && l0.arena.live(s) && l0.arena.live(n));
            c0.lemma_hold(list, h, &l0, spc);
            c0.lemma_hold(list, h, &l0, spa);
            c0.lemma_hold(list, h, &l0, Some(p));
            c0.lemma_hold(list, h, &l0, Some(s));
            c0.lemma_hold(list, h, &l0, sn);
            list.lemma_sentinels();
            assert(list.anchored_at(n));
            assert(list.standing(p));
            assert(list.located(p, s, n));
            assert(self.wf(list));
        }
    }

    /// The third step: walks from the marker cell that followed the target
    /// to the last marker cell of its run, and takes the cursor's handle along.
    #[verifier::rlimit(50)]
    pub fn advance_delete_end<T>(&mut self, list: &mut List<T>)
        requires
            old(list).inv(),
            old(self).wf(old(list)),
            old(self).stage() == DeleteStage::Located,
        ensures
            final(list).inv(),
            final(self).wf(final(list)),
            final(self).stage() == DeleteStage::Aimed,
            final(self).cut_from() == old(self).cut_from(),
            final(self).cut_behind() == old(self).cut_behind(),
            final(self).cut_to() matches Some(n) && {
                &&& final(list).mem().live(n)
                &&& final(list).mem().cell(n).spec_is_aux()
                &&& final(list).mem().cell(
                    final(list).mem().cell(n).spec_next().unwrap(),
                ).spec_is_after_aux()
            },
            final(self).pre_cell() == old(self).pre_cell(),
            final(self).pre_aux() == old(self).pre_aux(),
            final(self).target() == old(self).target(),
            final(self).slot(final(list)) == old(self).slot(old(list)),
            final(list)@ == old(list)@,
            final(self).stepped(final(list), old(self), old(list), 0, 0),
    {
        let ghost c0 = *self;
        let ghost l0 = *list;
        let ghost spc = Some(self.pre_cell);
        let ghost spa = Some(self.pre_aux);
        let ghost sp = self.start;
        let ghost ss = self.behind;
        let ghost p = self.start.unwrap();
        let ghost s = self.behind.unwrap();
        let ghost n0 = self.end.unwrap();
        let mut n = self.end.unwrap();
        proof {
            lemma_track_start(&c0, &l0);
            list.lemma_kept();
            list.lemma_sentinels();
            list.lemma_carried_refl();
        }
        loop
            invariant
                list.carried(&l0),
                list.inv(),
                l0.inv(),
                c0.wf(&l0),
                *self == c0,
                spc == Some(self.pre_cell),
                spa == Some(self.pre_aux),
                sp == self.start,
                ss == self.behind,
                sp == Some(p),
                ss == Some(s),
                self.target.is_none(),
                list@ == l0@,
                list.first == l0.first,
                list.rank@ == l0.rank@,
                list.anchor@ == l0.anchor@,
                list.arena.capacity() == l0.arena.capacity(),
                list.slot_after(self.pre_cell) == l0.slot_after(self.pre_cell),
                list.shifted(&l0, 0, 0),
                list.arena.live(n),
                list.arena.cell(n).spec_is_aux(),
                list.anc(n) == l0.anc(n0),
                list.rk(n) <= l0.rk(n0),
                tracks(list, hands7(spc, spa, None, sp, ss, Some(n), None), &c0, &l0),
            ensures
                list.carried(&l0),
                list.inv(),
                *self == c0,
                list@ == l0@,
                list.first == l0.first,
                list.rank@ == l0.rank@,
                list.anchor@ == l0.anchor@,
                list.arena.capacity() == l0.arena.capacity(),
                list.slot_after(self.pre_cell) == l0.slot_after(self.pre_cell),
                list.shifted(&l0, 0, 0),
                list.terminal(n),
                list.anc(n) == l0.anc(n0),
                list.rk(n) <= l0.rk(n0),
                tracks(list, hands7(spc, spa, None, sp, ss, Some(n), None), &c0, &l0),
            decreases list.rk(n),
        {
            proof {
                assert(list.arena.sound(n));
            }
            if Cursor::n_is_last_aux(list, n) {
                break;
            }
            let ghost l1 = *list;
            proof {
                assert(list.ranked_at(n));
                assert(list.anchored_at(n));
                list.lemma_sentinels();
            }
            let q = list.acquire_next(n);
            let ghost l2 = *list;
            proof {
                lemma_track(
                    list,
                    &l1,
                    hands7(spc, spa, None, sp, ss, Some(n), Some(q)),
                    hands7(spc, spa, None, sp, ss, Some(n), None),
                    |i: usize| -one_if(Some(q), i),
                    &c0,
                    &l0,
                );
                list.lemma_shift_then_keep(&l1, &l0, 0, 0);
                list.lemma_carried_trans(&l1, &l0);
                assert(l0.arena.live(n));
                c0.lemma_hold(list, hands7(spc, spa, None, sp, ss, Some(n), Some(q)), &l0, Some(n));
                list.lemma_sentinels();
            }
            list.let_go(n);
            proof {
                lemma_track(
                    list,
                    &l2,
                    hands7(spc, spa, None, sp, ss, Some(q), None),
                    hands7(spc, spa, None, sp, ss, Some(n), Some(q)),
                    |i: usize| one_if(Some(n), i),
                    &c0,
                    &l0,
                );
                list.lemma_shift_then_keep(&l2, &l0, 0, 0);
                list.lemma_carried_trans(&l2, &l0);
                assert(l0.arena.live(q));
                c0.lemma_hold(list, hands7(spc, spa, None, sp, ss, Some(q), None), &l0, Some(q));
            }
            n = q;
        }
        self.end = Some(n);
        self.aimed = true;
        proof {
            let h = hands(*self, self.start, self.behind, self.end);
            crate::list::cursor::lemma_track_same(
                list,
                h,
                hands7(spc, spa, None, sp, ss, Some(n), None),
                &c0,
                &l0,
            );
            lemma_track_end(list, self, &c0, &l0);
            assert(l0.located(p, s, n0));
            assert(l0.arena.live(p) && l0.arena.live(s) && l0.arena.live(n));
            c0.lemma_hold(list, h, &l0, spc);
            c0.lemma_hold(list, h, &l0, spa);
            c0.lemma_hold(list, h, &l0, sp);
            c0.lemma_hold(list, h, &l0, ss);
            c0.lemma_hold(list, h, &l0, Some(n));
            list.lemma_sentinels();
            assert(list.arena.live(p) && list.arena.live(s));
            list.lemma_located_carried(&l0, p, s, n0, n);
            assert(list.chain@.contains(n));
            if list.standing(p) {
                assert(list.anchored_at(p));
                list.lemma_run_rank(p, n);
            }
            assert(list.aimed(p, s, n));
            assert(self.wf(list));
        }
    }

    /// The head or data cell in front of the run that a deletion under way is going to cut.
    pub closed spec fn cut_from(&self) -> Option<usize> {
        self.start
    }

    /// The marker cell that the deletion found behind that cell.
    pub closed spec fn cut_behind(&self) -> Option<usize> {
        self.behind
    }

    /// The marker cell that the deletion is going to cut up to.
    pub closed spec fn cut_to(&self) -> Option<usize> {
        self.end
    }

    /// How the last step of the deletion will end on `list` as it is: with
    /// the cut if the cell in front of the run still leads to the marker cell
    /// that was found behind it, or if nothing but that link has changed; with
    /// no cut if another deletion has taken the cell in front of the run, or
    /// the data cell behind it, in the meantime.
    pub open spec fn outcome<T>(&self, list: &List<T>) -> DeleteLoopCondition {
        let p = self.cut_from().unwrap();
        let n = self.cut_to().unwrap();
        let m = list.mem();
        if m.cell(p).spec_next() == self.cut_behind() {
            DeleteLoopCondition::Success
        } else if m.cell(p).spec_backlink().is_some() {
            DeleteLoopCondition::ConcurrentDelPrev
        } else if !m.cell(m.cell(n).spec_next().unwrap()).spec_is_after_aux() {
            DeleteLoopCondition::ConcurrentDelForward
        } else {
            DeleteLoopCondition::Success
        }
    }

    /// The last step: one compare-and-swap moves the `next` link of the cell
    /// in front of the run to the last marker cell of the run, and so cuts
    /// the run out of the list.  If the link has changed since it was read,
    /// it is read again and the swap is tried once more, unless another
    /// deletion has stepped in: then that deletion does the cutting.  In the
    /// end the handles of the deletion are released.
    #[verifier::rlimit(100)]
    pub fn delete_csw_chain<T>(&mut self, list: &mut List<T>) -> (cond: DeleteLoopCondition)
        requires
            old(list).inv(),
            old(self).wf(old(list)),
            old(self).stage() == DeleteStage::Aimed,
        ensures
            final(list).inv(),
            final(self).wf(final(list)),
            final(self).idle(),
            final(self).pre_cell() == old(self).pre_cell(),
            final(self).pre_aux() == old(self).pre_aux(),
            final(self).target() == old(self).target(),
            final(self).slot(final(list)) == old(self).slot(old(list)),
            final(list)@ == old(list)@,
            cond == old(self).outcome(old(list)),
            cond != DeleteLoopCondition::Failure,
            cond == DeleteLoopCondition::Success && final(list).mem().live(
                old(self).cut_from().unwrap(),
            ) ==> final(list).mem().cell(old(self).cut_from().unwrap()).spec_next() == old(
                self,
            ).cut_to(),
            final(self).stepped(final(list), old(self), old(list), 0, 0),
    {
        let ghost c0 = *self;
        let ghost l0 = *list;
        let ghost spc = Some(self.pre_cell);
        let ghost spa = Some(self.pre_aux);
        let ghost s0 = self.behind.unwrap();
        let p = self.start.unwrap();
        let n = self.end.unwrap();
        let mut s = self.behind.unwrap();
        let ghost sp = Some(p);
        let ghost sn = Some(n);
        let ghost mut again = false;
        let mut cond = DeleteLoopCondition::Failure;
        proof {
            lemma_track_start(&c0, &l0);
            list.lemma_kept();
            list.lemma_sentinels();
            list.lemma_carried_refl();
        }
        loop
            invariant_except_break
                list.aimed(p, s, n),
                !again ==> list.carried(&l0) && s == s0,
                again ==> list.arena.cell(p).spec_next() == Some(s) && c0.outcome(&l0)
                    == DeleteLoopCondition::Success,
            invariant
                list.inv(),
                l0.inv(),
                c0.wf(&l0),
                c0.start == sp && c0.end == sn && c0.behind == Some(s0),
                sp == Some(p),
                sn == Some(n),
                self.pre_cell == c0.pre_cell,
                self.pre_aux == c0.pre_aux,
                self.target == c0.target,
                self.target.is_none(),
                self.start == sp,
                self.end == sn,
                self.behind == Some(s),
                spc == Some(self.pre_cell),
                spa == Some(self.pre_aux),
                list@ == l0@,
                list.first == l0.first,
                list.arena.capacity() == l0.arena.capacity(),
                list.slot_after(self.pre_cell) == l0.slot_after(self.pre_cell),
                list.shifted(&l0, 0, 0),
                list.arena.live(p) && list.arena.live(s) && list.arena.live(n),
                list.arena.live(self.pre_cell),
                list.arena.cell(self.pre_cell).is_normal(),
                list.arena.cell(p).is_normal(),
                list.arena.cell(s).spec_is_aux(),
                list.arena.cell(n).spec_is_aux(),
                tracks(list, hands7(spc, spa, None, sp, Some(s), sn, None), &c0, &l0),
            ensures
                cond == c0.outcome(&l0),
                cond != DeleteLoopCondition::Failure,
                cond == DeleteLoopCondition::Success ==> list.arena.cell(p).spec_next() == Some(n),
            decreases
                    (if list.arena.cell(p).spec_next() == Some(s) {
                        0int
                    } else {
                        1int
                    }),
        {
            let ghost l1 = *list;
            let ghost ss = Some(s);
            let ghost s1 = s;
            proof {
                list.lemma_sentinels();
                assert(list.arena.sound(p));
                assert(list.arena.sound(n));
            }
            list.acquire(n);
            let ghost l2 = *list;
            proof {
                lemma_track(
                    list,
                    &l1,
                    hands7(spc, spa, None, sp, ss, sn, sn),
                    hands7(spc, spa, None, sp, ss, sn, None),
                    |i: usize| -one_if(sn, i),
                    &c0,
                    &l0,
                );
                list.lemma_shift_then_keep(&l1, &l0, 0, 0);
                assert(l0.arena.live(n) && l0.arena.live(p) && l0.arena.live(s));
                c0.lemma_hold(list, hands7(spc, spa, None, sp, ss, sn, sn), &l0, sn);
                assert(list.aimed(p, s, n));
            }
            let res = list.splice(p, s, n);
            let ghost l3 = *list;
            match res {
                Ok(was) => {
                    proof {
                        lemma_track(
                            list,
                            &l2,
                            hands7(spc, spa, None, sp, ss, sn, ss),
                            hands7(spc, spa, None, sp, ss, sn, sn),
                            |i: usize| one_if(sn, i) - one_if(ss, i),
                            &c0,
                            &l0,
                        );
                        list.lemma_shift_then_keep(&l2, &l0, 0, 0);
                        c0.lemma_hold(list, hands7(spc, spa, None, sp, ss, sn, ss), &l0, ss);
                        list.lemma_sentinels();
                    }
                    list.let_go(was);
                    proof {
                        lemma_track(
                            list,
                            &l3,
                            hands7(spc, spa, None, sp, ss, sn, None),
                            hands7(spc, spa, None, sp, ss, sn, ss),
                            |i: usize| one_if(ss, i),
                            &c0,
                            &l0,
                        );
                        list.lemma_shift_then_keep(&l3, &l0, 0, 0);
                        let h = hands7(spc, spa, None, sp, ss, sn, None);
                        c0.lemma_hold(list, h, &l0, sp);
                        c0.lemma_hold(list, h, &l0, ss);
                        c0.lemma_hold(list, h, &l0, sn);
                        c0.lemma_hold(list, h, &l0, spc);
                        if !again {
                            l2.lemma_carried_trans(&l1, &l0);
                            assert(l0.arena.cell(p).spec_next() == Some(s0));
                        }
                        assert(l3.arena.cell(p).spec_next() == Some(n));
                        assert(list.arena.cell(p).spec_next() == Some(n));
                    }
                },
                Err(_) => {
                    proof {
                        lemma_track(
                            list,
                            &l2,
                            hands7(spc, spa, None, sp, ss, sn, sn),
                            hands7(spc, spa, None, sp, ss, sn, sn),
                            |i: usize| 0int,
                            &c0,
                            &l0,
                        );
                        list.lemma_shift_then_keep(&l2, &l0, 0, 0);
                        list.lemma_carried_trans(&l2, &l1);
                        c0.lemma_hold(list, hands7(spc, spa, None, sp, ss, sn, sn), &l0, sn);
                        list.lemma_sentinels();
                    }
                    list.let_go(n);
                    let ghost l4 = *list;
                    proof {
                        lemma_track(
                            list,
                            &l3,
                            hands7(spc, spa, None, sp, ss, sn, None),
                            hands7(spc, spa, None, sp, ss, sn, sn),
                            |i: usize| one_if(sn, i),
                            &c0,
                            &l0,
                        );
                        list.lemma_shift_then_keep(&l3, &l0, 0, 0);
                        list.lemma_carried_trans(&l3, &l1);
                        let h = hands7(spc, spa, None, sp, ss, sn, None);
                        c0.lemma_hold(list, h, &l0, sp);
                        c0.lemma_hold(list, h, &l0, ss);
                        c0.lemma_hold(list, h, &l0, sn);
                        assert(list.arena.sound(p));
                    }
                    // the link has changed: read it again
                    let s2 = list.acquire_next(p);
                    let ghost l5 = *list;
                    let ghost ss2 = Some(s2);
                    proof {
                        lemma_track(
                            list,
                            &l4,
                            hands7(spc, spa, None, sp, ss, sn, ss2),
                            hands7(spc, spa, None, sp, ss, sn, None),
                            |i: usize| -one_if(ss2, i),
                            &c0,
                            &l0,
                        );
                        list.lemma_shift_then_keep(&l4, &l0, 0, 0);
                        list.lemma_carried_trans(&l4, &l1);
                        c0.lemma_hold(list, hands7(spc, spa, None, sp, ss, sn, ss2), &l0, ss);
                        list.lemma_sentinels();
                    }
                    list.let_go(s);
                    s = s2;
                    self.behind = Some(s2);
                    proof {
                        lemma_track(
                            list,
                            &l5,
                            hands7(spc, spa, None, sp, ss2, sn, None),
                            hands7(spc, spa, None, sp, ss, sn, ss2),
                            |i: usize| one_if(ss, i),
                            &c0,
                            &l0,
                        );
                        list.lemma_shift_then_keep(&l5, &l0, 0, 0);
                        list.lemma_carried_trans(&l5, &l1);
                        assert(l0.arena.live(s2));
                        let h = hands7(spc, spa, None, sp, ss2, sn, None);
                        c0.lemma_hold(list, h, &l0, sp);
                        c0.lemma_hold(list, h, &l0, ss2);
                        c0.lemma_hold(list, h, &l0, sn);
                        c0.lemma_hold(list, h, &l0, spc);
                        if !again {
                            list.lemma_carried_trans(&l1, &l0);
                            l2.lemma_carried_trans(&l1, &l0);
                            assert(l2.arena.cell(p).spec_next() != Some(s1));
                            assert(l0.arena.cell(p).spec_next() != Some(s0));
                            assert(list.arena.sound(n));
                            let nn = list.arena.cell(n).spec_next().unwrap();
                            assert(list.arena.live(nn));
                            assert(l0.arena.live(nn));
                        }
                    }
                },
            }
            cond = DeleteLoopCondition::new(list, res.is_ok(), p, n);
            match cond {
                DeleteLoopCondition::Failure => {
                    proof {
                        // nobody has taken `p` or the cell behind `n`: the run is still
                        // the run of `p`, and `n` its last marker cell
                        list.lemma_sentinels();
                        assert(list.arena.sound(p));
                        assert(list.arena.sound(n));
                        assert(list.standing(p));
                        assert(list.terminal(n));
                        assert(list.anchored_at(p));
                        assert(l1.aimed(p, ss.unwrap(), n));
                        assert(list.anc(n) == list.anc(p));
                        list.lemma_run_rank(p, n);
                        assert(list.aimed(p, s, n));
                        again = true;
                    }
                },
                DeleteLoopCondition::Success => {
                    break;
                },
                DeleteLoopCondition::ConcurrentDelForward => {
                    break;
                },
                DeleteLoopCondition::ConcurrentDelPrev => {
                    break;
                },
            }
        }
        let ghost ss = Some(s);
        let ghost l6 = *list;
        proof {
            c0.lemma_hold(list, hands7(spc, spa, None, sp, ss, sn, None), &l0, sp);
            list.lemma_sentinels();
        }
        list.let_go(p);
        self.start = None;
        let ghost l7 = *list;
        proof {
            list.lemma_carried_refl();
            lemma_track(
                list,
                &l6,
                hands7(spc, spa, None, None, ss, sn, None),
                hands7(spc, spa, None, sp, ss, sn, None),
                |i: usize| one_if(sp, i),
                &c0,
                &l0,
            );
            list.lemma_shift_then_keep(&l6, &l0, 0, 0);
            c0.lemma_hold(list, hands7(spc, spa, None, None, ss, sn, None), &l0, ss);
        }
        list.let_go(s);
        self.behind = None;
        let ghost l8 = *list;
        proof {
            l8.lemma_carried_trans(&l7, &l6);
            lemma_track(
                list,
                &l7,
                hands7(spc, spa, None, None, None, sn, None),
                hands7(spc, spa, None, None, ss, sn, None),
                |i: usize| one_if(ss, i),
                &c0,
                &l0,
            );
            list.lemma_shift_then_keep(&l7, &l0, 0, 0);
            c0.lemma_hold(list, hands7(spc, spa, None, None, None, sn, None), &l0, sn);
        }
        list.let_go(n);
        self.end = None;
        self.aimed = false;
        proof {
            list.lemma_carried_trans(&l8, &l6);
            if list.arena.live(p) {
                assert(list.arena.cell(p).spec_next() == l6.arena.cell(p).spec_next());
            }
            let h = hands(*self, self.start, self.behind, self.end);
            lemma_track(
                list,
                &l8,
                h,
                hands7(spc, spa, None, None, None, sn, None),
                |i: usize| one_if(sn, i),
                &c0,
                &l0,
            );
            list.lemma_shift_then_keep(&l8, &l0, 0, 0);
            lemma_track_end(list, self, &c0, &l0);
            c0.lemma_hold(list, h, &l0, spc);
            c0.lemma_hold(list, h, &l0, spa);
            list.lemma_sentinels();
            assert(self.wf(list));
        }
        cond
    }

    /// Removes the cursor's target from the list.  One compare-and-swap
    /// unlinks it; the marker cells that this leaves behind are then cut out.
    /// The cursor keeps its position and has no target afterwards.
    pub fn try_delete<T>(&mut self, list: &mut List<T>) -> (done: Result<(), Error>)
        requires
            old(list).inv(),
            old(self).wf(old(list)),
            old(self).idle(),
        ensures
            final(list).inv(),
            final(self).wf(final(list)),
            final(self).idle(),
            final(self).slot(final(list)) == old(self).slot(old(list)),
            old(self).target().is_none() ==> done == Err::<(), Error>(Error::NeedsUpdate),
            old(self).at_end(old(list)) ==> done == Err::<(), Error>(Error::TargetIsTail),
            old(self).target().is_some() && !old(self).at_end(old(list)) && !old(self).synced(
                old(list),
            ) ==> done == Err::<(), Error>(Error::Conflict),
            old(self).synced(old(list)) && !old(self).at_end(old(list)) ==> done == Ok::<
                (),
                Error,
            >(()),
            old(self).synced(old(list)) ==> {
                &&& 0 <= old(self).slot(old(list)) <= old(list)@.len()
                &&& done.is_ok() <==> old(self).slot(old(list)) < old(list)@.len()
            },
            done.is_err() ==> {
                &&& final(list)@ == old(list)@
                &&& *final(self) == *old(self)
                &&& final(self).synced(final(list)) == old(self).synced(old(list))
            },
            done.is_ok() ==> {
                &&& 0 <= old(self).slot(old(list)) < old(list)@.len()
                &&& final(list)@ == old(list)@.remove(old(self).slot(old(list)))
                &&& final(self).target().is_none()
            },
            final(self).stepped(final(list), old(self), old(list), old(self).slot(old(list)), if done.is_ok() { -1int } else { 0int }),
    {
        let ghost c0 = *self;
        let ghost l0 = *list;
        match self.outlink_target(list) {
            Ok(()) => {},
            Err(e) => {
                return Err(e);
            },
        }
        let ghost c1 = *self;
        let ghost l1 = *list;
        self.calculate_delete_start(list);
        let ghost c2 = *self;
        let ghost l2 = *list;
        self.advance_delete_end(list);
        let ghost c3 = *self;
        let ghost l3 = *list;
        self.delete_csw_chain(list);
        proof {
            let k = c0.slot(&l0);
            l2.lemma_evolved_trans(&l1, &l0);
            l3.lemma_evolved_trans(&l2, &l0);
            list.lemma_evolved_trans(&l3, &l0);
            l2.lemma_shift_then_keep(&l1, &l0, k, -1);
            l3.lemma_shift_then_keep(&l2, &l0, k, -1);
            list.lemma_shift_then_keep(&l3, &l0, k, -1);
            assert forall|i: usize, j: int| j >= 1 && c0.spares(&l0, i, j) implies #[trigger] self.spares(
                list,
                i,
                j,
            ) by {
                assert(c1.spares(&l1, i, j));
                assert(c2.spares(&l2, i, j));
                assert(c3.spares(&l3, i, j));
            }
        }
        Ok(())
    }

    /// Removes the element at the cursor's position: tries, and updates the
    /// cursor, until an attempt succeeds or the cursor is found at the end
    /// of the list.
    pub fn delete<T>(&mut self, list: &mut List<T>) -> (done: Result<(), Error>)
        requires
            old(list).inv(),
            old(self).wf(old(list)),
            old(self).idle(),
        ensures
            final(list).inv(),
            final(self).wf(final(list)),
            final(self).idle(),
            final(self).slot(final(list)) == old(self).slot(old(list)),
            0 <= old(self).slot(old(list)) <= old(list)@.len(),
            old(self).slot(old(list)) < old(list)@.len() ==> done == Ok::<(), Error>(())
                && final(list)@ == old(list)@.remove(old(self).slot(old(list))),
            old(self).slot(old(list)) == old(list)@.len() ==> done == Err::<(), Error>(
                Error::TargetIsTail,
            ) && final(list)@ == old(list)@,
            final(self).stepped(final(list), old(self), old(list), old(self).slot(old(list)), if done.is_ok() { -1int } else { 0int }),
    {
        proof {
            list.lemma_evolved_refl();
            list.lemma_kept();
        }
        loop
            invariant
                list.shifted(old(list), 0, 0),
                list.inv(),
                self.wf(list),
                self.idle(),
                list@ == old(list)@,
                self.slot(list) == old(self).slot(old(list)),
                list.evolved(old(list)),
                forall|i: usize, k: int|
                    k >= 1 && old(self).spares(old(list), i, k) ==> #[trigger] self.spares(
                        list,
                        i,
                        k,
                    ),
            decreases
                    (if self.synced(list) {
                        0int
                    } else {
                        1int
                    }),
        {
            proof {
                if self.synced(list) {
                    self.lemma_synced(list);
                }
            }
            let ghost l1 = *list;
            let res = self.try_delete(list);
            let ghost l2 = *list;
            proof {
                l2.lemma_evolved_trans(&l1, old(list));
                if res.is_ok() {
                    l2.lemma_keep_then_shift(&l1, old(list), old(self).slot(old(list)), -1);
                } else {
                    l2.lemma_shift_same(&l1, old(self).slot(old(list)));
                    l2.lemma_shift_then_keep(&l1, old(list), 0, 0);
                }
            }
            match res {
                Ok(()) => {
                    return Ok(());
                },
                Err(e) => {
                    match e {
                        Error::TargetIsTail => {
                            if self.is_synced(list) {
                                return Err(Error::TargetIsTail);
                            }
                        },
                        Error::NeedsUpdate => {},
                        Error::Conflict => {},
                    }
                },
            }
            self.update(list);
            proof {
                list.lemma_evolved_trans(&l2, old(list));
                list.lemma_shift_then_keep(&l2, old(list), 0, 0);
            }
        }
    }
}

} // verus!
