//! What a step of one cursor leaves to the other cursors of the list.
use vstd::prelude::*;
use crate::list::cursor::Cursor;
use crate::list::List;

verus! {

/// How many handles on cell `i` the cursors of `all` hold together.
pub open spec fn crowd(all: Seq<Cursor>, i: usize) -> int
    decreases all.len(),
{
    if all.len() == 0 {
        0
    } else {
        crowd(all.drop_last(), i) + all.last().holds(i)
    }
}

/// The cursors of `all` work on `list` side by side: each is a cursor of the
/// list, and the list's counters account for the handles of all of them.
pub open spec fn together<T>(list: &List<T>, all: Seq<Cursor>) -> bool {
    &&& forall|j: int| 0 <= j < all.len() ==> (#[trigger] all[j]).wf(list)
    &&& forall|i: usize| #[trigger] crowd(all, i) >= 1 ==> list.keeps(i, crowd(all, i))
}

/// A cursor holds no more than all cursors together.
pub proof fn lemma_crowd_at(all: Seq<Cursor>, j: int, i: usize)
    requires
        0 <= j < all.len(),
    ensures
        crowd(all, i) >= all[j].holds(i),
        crowd(all, i) >= 0,
    decreases all.len(),
{
    lemma_crowd_nonnegative(all.drop_last(), i);
    if j < all.len() - 1 {
        lemma_crowd_at(all.drop_last(), j, i);
    }
}

/// Nobody holds a negative number of handles.
pub proof fn lemma_crowd_nonnegative(all: Seq<Cursor>, i: usize)
    ensures
        crowd(all, i) >= 0,
    decreases all.len(),
{
    if all.len() > 0 {
        lemma_crowd_nonnegative(all.drop_last(), i);
    }
}

/// What changes in the crowd when one cursor is replaced by another.
pub proof fn lemma_crowd_update(all: Seq<Cursor>, j: int, c: Cursor, i: usize)
    requires
        0 <= j < all.len(),
    ensures
        crowd(all.update(j, c), i) == crowd(all, i) - all[j].holds(i) + c.holds(i),
    decreases all.len(),
{
    if j == all.len() - 1 {
        assert(all.update(j, c).drop_last() =~= all.drop_last());
    } else {
        assert(all.update(j, c).drop_last() =~= all.drop_last().update(j, c));
        lemma_crowd_update(all.drop_last(), j, c, i);
    }
}

/// What changes in the crowd when one cursor leaves.
pub proof fn lemma_crowd_remove(all: Seq<Cursor>, j: int, i: usize)
    requires
        0 <= j < all.len(),
    ensures
        crowd(all.remove(j), i) == crowd(all, i) - all[j].holds(i),
    decreases all.len(),
{
    if j == all.len() - 1 {
        assert(all.remove(j) =~= all.drop_last());
    } else {
        assert(all.remove(j).drop_last() =~= all.drop_last().remove(j));
        assert(all.remove(j).last() == all.last());
        lemma_crowd_remove(all.drop_last(), j, i);
    }
}

/// A cursor of a list is a cursor of what the list evolved into, as long as
/// the counters still account for its handles.
proof fn lemma_stays<T>(c: &Cursor, before: &List<T>, after: &List<T>)
    requires
        before.inv(),
        after.inv(),
        c.wf(before),
        after.evolved(before),
        forall|i: usize| #[trigger] c.holds(i) >= 1 ==> after.keeps(i, c.holds(i)),
    ensures
        c.wf(after),
{
    before.lemma_sentinels();
    after.lemma_sentinels();
    let pc = c.pre_cell;
    let pa = c.pre_aux;
    assert(c.holds(pc) >= 1);
    assert(c.holds(pa) >= 1);
    assert(after.keeps(pc, c.holds(pc)));
    assert(after.keeps(pa, c.holds(pa)));
    assert(after.arena.live(pc));
    assert(after.arena.live(pa));
    assert(after.rk(pc) > after.rk(pa));
    assert(after.anc(pa) == after.anc(pc));
    match c.target {
        Some(t) => {
            assert(c.holds(t) >= 1);
            assert(after.keeps(t, c.holds(t)));
            assert(after.arena.live(t));
        },
        None => {},
    }
}

/// Where a cursor stands after a step of another.  An insertion at index
/// `k` moves the cursors behind `k` one place on (`d` is 1), a deletion of
/// the element at `k` moves them one place back (`d` is -1), and any other
/// step leaves every cursor where it is (`d` is 0).
pub proof fn law_positions_of_others<T>(
    before: &List<T>,
    after: &List<T>,
    other: &Cursor,
    k: int,
    d: int,
)
    requires
        before.inv(),
        after.inv(),
        other.wf(before),
        other.wf(after),
        after.shifted(before, k, d),
    ensures
        other.slot(after) == other.slot(before) + if other.slot(before) > k {
            d
        } else {
            0
        },
{
    before.lemma_sentinels();
    let pc = other.pre_cell;
    assert(before.arena.live(pc) && after.arena.live(pc));
    assert(after.slot_after(pc) == before.slot_after(pc) + if before.slot_after(pc) > k {
        d
    } else {
        0
    });
}

/// Any number of cursors may work on one list in turn.  When the cursors of
/// `all` stand side by side on a list and the one at `j` does a step of its
/// own (an update, a move, an insertion, a deletion), then afterwards they
/// still stand side by side: every other cursor is as valid as it was, no
/// cell that one of them holds was reclaimed, and each of them stands where
/// it stood, but for the one place that an insertion or a deletion in front
/// of it moves it by.
pub proof fn law_cursors_take_turns<T>(
    before: &List<T>,
    after: &List<T>,
    all: Seq<Cursor>,
    j: int,
    moved: Cursor,
    at: int,
    by: int,
)
    requires
        0 <= j < all.len(),
        before.inv(),
        after.inv(),
        together(before, all),
        moved.wf(after),
        moved.stepped(after, &all[j], before, at, by),
    ensures
        together(after, all.update(j, moved)),
        forall|x: int|
            0 <= x < all.len() && x != j ==> (#[trigger] all[x]).slot(after) == all[x].slot(before)
                + if all[x].slot(before) > at {
                by
            } else {
                0
            },
{
    let now = all.update(j, moved);
    before.lemma_sentinels();
    after.lemma_sentinels();
    assert forall|i: usize| #[trigger] crowd(now, i) >= 1 implies after.keeps(i, crowd(now, i)) by {
        lemma_crowd_update(all, j, moved, i);
        lemma_crowd_at(all, j, i);
        let k = crowd(all, i) - all[j].holds(i);
        if k >= 1 {
            assert(before.keeps(i, crowd(all, i)));
            assert(all[j].spares(before, i, k));
            assert(moved.spares(after, i, k));
        } else {
            assert(crowd(now, i) == moved.holds(i));
            moved.lemma_covered(after, i);
        }
    }
    assert forall|x: int| 0 <= x < now.len() implies (#[trigger] now[x]).wf(after) by {
        if x != j {
            let c = all[x];
            assert(c.wf(before));
            assert forall|i: usize| #[trigger] c.holds(i) >= 1 implies after.keeps(
                i,
                c.holds(i),
            ) by {
                lemma_crowd_at(now, x, i);
                assert(now[x] == c);
                assert(crowd(now, i) >= 1);
                assert(after.keeps(i, crowd(now, i)));
            }
            lemma_stays(&c, before, after);
        }
    }
    assert forall|x: int| 0 <= x < all.len() && x != j implies (#[trigger] all[x]).slot(after)
        == all[x].slot(before) + if all[x].slot(before) > at {
        by
    } else {
        0
    } by {
        assert(now[x] == all[x]);
        assert(now[x].wf(after));
        law_positions_of_others(before, after, &all[x], at, by);
    }
}

/// A cursor that `List::first` makes joins the cursors that are at work: the
/// others stay where they are.
pub proof fn law_cursor_joins<T>(before: &List<T>, after: &List<T>, all: Seq<Cursor>, fresh: Cursor)
    requires
        before.inv(),
        after.inv(),
        together(before, all),
        fresh.wf(after),
        after.evolved(before),
        after.shifted(before, 0, 0),
        forall|i: usize, k: int| k >= 1 && before.keeps(i, k) ==> #[trigger] fresh.spares(after, i, k),
    ensures
        together(after, all.push(fresh)),
        forall|x: int|
            0 <= x < all.len() ==> (#[trigger] all[x]).slot(after) == all[x].slot(before),
{
    let now = all.push(fresh);
    before.lemma_sentinels();
    after.lemma_sentinels();
    assert(now.drop_last() =~= all);
    assert forall|i: usize| #[trigger] crowd(now, i) >= 1 implies after.keeps(i, crowd(now, i)) by {
        lemma_crowd_nonnegative(all, i);
        let k = crowd(all, i);
        if k >= 1 {
            assert(before.keeps(i, k));
            assert(fresh.spares(after, i, k));
        } else {
            fresh.lemma_covered(after, i);
        }
    }
    assert forall|x: int| 0 <= x < now.len() implies (#[trigger] now[x]).wf(after) by {
        if x < all.len() {
            let c = all[x];
            assert(c.wf(before));
            assert forall|i: usize| #[trigger] c.holds(i) >= 1 implies after.keeps(
                i,
                c.holds(i),
            ) by {
                lemma_crowd_at(now, x, i);
                assert(now[x] == c);
                assert(crowd(now, i) >= 1);
                assert(after.keeps(i, crowd(now, i)));
            }
            lemma_stays(&c, before, after);
        }
    }
    assert forall|x: int| 0 <= x < all.len() implies (#[trigger] all[x]).slot(after)
        == all[x].slot(before) by {
        assert(now[x] == all[x]);
        assert(now[x].wf(after));
        law_positions_of_others(before, after, &all[x], 0, 0);
    }
}

/// A cursor that is given up with `discard` leaves the others at work, each
/// where it is.
pub proof fn law_cursor_leaves<T>(before: &List<T>, after: &List<T>, all: Seq<Cursor>, j: int)
    requires
        0 <= j < all.len(),
        before.inv(),
        after.inv(),
        together(before, all),
        after.evolved(before),
        after.shifted(before, 0, 0),
        forall|i: usize, k: int|
            k >= 1 && all[j].spares(before, i, k) ==> #[trigger] after.keeps(i, k),
    ensures
        together(after, all.remove(j)),
        forall|x: int|
            0 <= x < all.len() && x != j ==> (#[trigger] all[x]).slot(after) == all[x].slot(before),
{
    let now = all.remove(j);
    before.lemma_sentinels();
    after.lemma_sentinels();
    assert forall|i: usize| #[trigger] crowd(now, i) >= 1 implies after.keeps(i, crowd(now, i)) by {
        lemma_crowd_remove(all, j, i);
        lemma_crowd_at(all, j, i);
        let k = crowd(now, i);
        assert(before.keeps(i, crowd(all, i)));
        assert(all[j].spares(before, i, k));
    }
    assert forall|x: int| 0 <= x < now.len() implies (#[trigger] now[x]).wf(after) by {
        let c = now[x];
        assert(c == all[if x < j { x } else { x + 1 }]);
        assert(c.wf(before));
        assert forall|i: usize| #[trigger] c.holds(i) >= 1 implies after.keeps(i, c.holds(i)) by {
            lemma_crowd_at(now, x, i);
            assert(crowd(now, i) >= 1);
            assert(after.keeps(i, crowd(now, i)));
        }
        lemma_stays(&c, before, after);
    }
    assert forall|x: int| 0 <= x < all.len() && x != j implies (#[trigger] all[x]).slot(after)
        == all[x].slot(before) by {
        let y = if x < j {
            x
        } else {
            x - 1
        };
        assert(now[y] == all[x]);
        assert(now[y].wf(after));
        law_positions_of_others(before, after, &all[x], 0, 0);
    }
}

} // verus!
