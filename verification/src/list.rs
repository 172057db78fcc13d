//! The list: two sentinels, the chain of cells between them, and the steps
//! that change the chain.
//!
//! Three steps change links: a new element is linked in behind a marker
//! cell, a data cell is unlinked from behind a marker cell, and the `next`
//! link of a head or data cell is moved on along its run of marker cells.
//! Each is one compare-and-swap, and each keeps the invariant of the list.
use vstd::prelude::*;
use crate::arena::{release, safe_read, safe_read_backlink, safe_read_ptr, Arena};
use crate::cell::Cell;

pub mod cursor;

verus! {

/// A list of elements between a head and a tail sentinel.
///
/// Read from the head along the `next` links, the list holds at least one
/// marker cell between any two data cells.  Cells that were unlinked stay in
/// the arena for as long as somebody holds a handle on them.
pub struct List<T> {
    arena: Arena<T>,
    first: usize,
    last: usize,
    /// The cells from the head to the tail.
    chain: Ghost<Seq<usize>>,
    /// A measure that goes down along every `next` link and up along every back link.
    rank: Ghost<spec_fn(usize) -> nat>,
    /// For every cell the head or undeleted data cell whose run of marker
    /// cells it belongs to.
    anchor: Ghost<spec_fn(usize) -> usize>,
}

/// The payloads of the data cells among `chain`, in order.
pub closed spec fn values<T>(arena: Arena<T>, chain: Seq<usize>) -> Seq<T>
    decreases chain.len(),
{
    if chain.len() == 0 {
        Seq::empty()
    } else {
        let rest = values(arena, chain.drop_last());
        match arena.cell(chain.last()).spec_val() {
            Some(v) => rest.push(v),
            None => rest,
        }
    }
}

/// `values` depends on the payloads alone.
proof fn lemma_values_same<T>(a: Arena<T>, b: Arena<T>, chain: Seq<usize>)
    requires
        forall|k: int|
            0 <= k < chain.len() ==> a.cell(#[trigger] chain[k]).spec_val() == b.cell(
                chain[k],
            ).spec_val(),
    ensures
        values(a, chain) == values(b, chain),
    decreases chain.len(),
{
    if chain.len() > 0 {
        let rest = chain.drop_last();
        assert forall|k: int| 0 <= k < rest.len() implies a.cell(#[trigger] rest[k]).spec_val()
            == b.cell(rest[k]).spec_val() by {
            assert(rest[k] == chain[k]);
        }
        lemma_values_same(a, b, rest);
        assert(chain.last() == chain[chain.len() - 1]);
    }
}

/// `values` distributes over concatenation.
proof fn lemma_values_concat<T>(a: Arena<T>, s: Seq<usize>, t: Seq<usize>)
    ensures
        values(a, s + t) == values(a, s) + values(a, t),
    decreases t.len(),
{
    if t.len() == 0 {
        assert(s + t =~= s);
        assert(values(a, s) + values(a, t) =~= values(a, s));
    } else {
        assert((s + t).drop_last() =~= s + t.drop_last());
        assert((s + t).last() == t.last());
        lemma_values_concat(a, s, t.drop_last());
        let r = values(a, t.drop_last());
        match a.cell(t.last()).spec_val() {
            Some(v) => {
                assert((values(a, s) + r).push(v) =~= values(a, s) + r.push(v));
            },
            None => {},
        }
    }
}

/// A longer prefix has no fewer values.
proof fn lemma_values_prefix<T>(a: Arena<T>, s: Seq<usize>, j: int, k: int)
    requires
        0 <= j <= k <= s.len(),
    ensures
        values(a, s.take(j)).len() <= values(a, s.take(k)).len(),
{
    assert(s.take(k) =~= s.take(j) + s.subrange(j, k));
    lemma_values_concat(a, s.take(j), s.subrange(j, k));
}

/// A prefix that ends in a data cell has a value more than the prefix in front of that cell.
proof fn lemma_values_step<T>(a: Arena<T>, s: Seq<usize>, j: int)
    requires
        0 <= j < s.len(),
    ensures
        values(a, s.take(j + 1)).len() == values(a, s.take(j)).len() + if a.cell(
            s[j],
        ).spec_val().is_some() {
            1int
        } else {
            0int
        },
{
    assert(s.take(j + 1).drop_last() =~= s.take(j));
    assert(s.take(j + 1).last() == s[j]);
}

/// A stretch without data cells has no values.
proof fn lemma_values_none<T>(a: Arena<T>, s: Seq<usize>)
    requires
        forall|k: int| 0 <= k < s.len() ==> a.cell(#[trigger] s[k]).spec_val().is_none(),
    ensures
        values(a, s) == Seq::<T>::empty(),
    decreases s.len(),
{
    if s.len() > 0 {
        let rest = s.drop_last();
        assert forall|k: int| 0 <= k < rest.len() implies a.cell(
            #[trigger] rest[k],
        ).spec_val().is_none() by {
            assert(rest[k] == s[k]);
        }
        lemma_values_none(a, rest);
        assert(s.last() == s[s.len() - 1]);
    }
}

impl<T> View for List<T> {
    type V = Seq<T>;

    /// The elements in list order.
    closed spec fn view(&self) -> Seq<T> {
        values(self.arena, self.chain@)
    }
}

impl<T> List<T> {
    /// The memory that the cells live in.
    pub closed spec fn mem(&self) -> Arena<T> {
        self.arena
    }

    /// The head sentinel.
    pub closed spec fn head(&self) -> usize {
        self.first
    }

    /// The tail sentinel.
    pub closed spec fn tail(&self) -> usize {
        self.last
    }

    spec fn rk(&self, i: usize) -> nat {
        (self.rank@)(i)
    }

    spec fn anc(&self, i: usize) -> usize {
        (self.anchor@)(i)
    }

    /// A head, or a data cell that has not been deleted.
    spec fn standing(&self, i: usize) -> bool {
        &&& self.arena.live(i)
        &&& self.arena.cell(i).is_normal()
        &&& self.arena.cell(i).spec_backlink().is_none()
    }

    /// A marker cell in front of a data cell or of the tail.
    spec fn terminal(&self, i: usize) -> bool {
        &&& self.arena.live(i)
        &&& self.arena.cell(i).spec_is_aux()
        &&& self.arena.cell(i).spec_next().is_some()
        &&& self.arena.cell(self.arena.cell(i).spec_next().unwrap()).spec_is_after_aux()
    }

    spec fn sentinels(&self) -> bool {
        &&& self.arena.live(self.first)
        &&& self.arena.cell(self.first).spec_is_first()
        &&& self.arena.live(self.last)
        &&& self.arena.cell(self.last).spec_is_last()
        &&& self.arena.covered(self.first, 1)
        &&& forall|i: usize| #[trigger]
            self.arena.live(i) ==> {
                &&& self.arena.cell(i).spec_is_first() ==> i == self.first
                &&& self.arena.cell(i).spec_is_last() ==> i == self.last
            }
    }

    spec fn ranked_at(&self, i: usize) -> bool {
        let c = self.arena.cell(i);
        &&& self.rk(i) <= self.rk(self.first)
        &&& c.spec_next().is_some() ==> self.rk(c.spec_next().unwrap()) < self.rk(i)
        &&& c.spec_backlink().is_some() ==> self.rk(c.spec_backlink().unwrap()) > self.rk(i)
    }

    spec fn ranked(&self) -> bool {
        forall|i: usize| self.arena.live(i) ==> #[trigger] self.ranked_at(i)
    }

    /// The cell at position `k` of the chain leads to the one at `k + 1`.
    spec fn linked(&self, k: int) -> bool {
        self.arena.cell(self.chain@[k]).spec_next() == Some(self.chain@[k + 1])
    }

    spec fn chained(&self) -> bool {
        let ch = self.chain@;
        &&& ch.len() >= 2
        &&& ch[0] == self.first
        &&& ch[ch.len() - 1] == self.last
        &&& forall|k: int| 0 <= k < ch.len() ==> self.arena.live(#[trigger] ch[k])
        &&& forall|k: int| 0 <= k < ch.len() - 1 ==> #[trigger] self.linked(k)
        &&& forall|k: int|
            0 <= k < ch.len() ==> self.arena.cell(#[trigger] ch[k]).spec_backlink().is_none()
        &&& forall|i: usize| #[trigger] self.standing(i) ==> ch.contains(i)
        &&& forall|i: usize| #[trigger] self.terminal(i) ==> ch.contains(i)
    }

    spec fn anchored_at(&self, i: usize) -> bool {
        let c = self.arena.cell(i);
        &&& self.standing(self.anc(i))
        &&& self.standing(i) ==> self.anc(i) == i
        &&& self.standing(i) || self.rk(self.anc(i)) > self.rk(i)
        &&& c.spec_backlink().is_some() ==> self.anc(i) == self.anc(c.spec_backlink().unwrap())
        &&& c.is_normal() ==> self.anc(c.spec_next().unwrap()) == self.anc(i)
        &&& c.spec_is_aux() && self.arena.cell(c.spec_next().unwrap()).spec_is_aux() ==> self.anc(
            c.spec_next().unwrap(),
        ) == self.anc(i)
    }

    spec fn anchored(&self) -> bool {
        forall|i: usize|
            self.arena.live(i) && !self.arena.cell(i).spec_is_last() ==> #[trigger] self.anchored_at(
                i,
            )
    }

    /// The invariant of the list.
    pub closed spec fn inv(&self) -> bool {
        &&& self.arena.wf()
        &&& self.sentinels()
        &&& self.ranked()
        &&& self.chained()
        &&& self.anchored()
    }

    /// `self` is `before` up to counters and to cells that were reclaimed.
    spec fn carried(&self, before: &List<T>) -> bool {
        &&& self.first == before.first
        &&& self.last == before.last
        &&& self.chain@ == before.chain@
        &&& self.rank@ == before.rank@
        &&& self.anchor@ == before.anchor@
        &&& forall|i: usize| #[trigger]
            self.arena.live(i) ==> {
                &&& before.arena.live(i)
                &&& self.arena.cell(i).same_payload(&before.arena.cell(i))
                &&& self.arena.cell(i).spec_next() == before.arena.cell(i).spec_next()
                &&& self.arena.cell(i).spec_backlink() == before.arena.cell(i).spec_backlink()
            }
    }

    /// The position of cell `i` on the chain.
    spec fn at(&self, i: usize) -> int {
        choose|k: int| 0 <= k < self.chain@.len() && self.chain@[k] == i
    }

    /// The position of the last cell at or before `k` that is no marker cell.
    spec fn run_start(&self, k: int) -> int
        decreases k,
    {
        if k <= 0 {
            0
        } else if self.arena.cell(self.chain@[k]).spec_is_aux() {
            self.run_start(k - 1)
        } else {
            k
        }
    }

    /// How many elements stand before the end of the run that cell `i`
    /// belongs to: the index at which an element inserted there would be.
    spec fn slot_after(&self, i: usize) -> int {
        let k = self.at(self.anc(i));
        if 0 <= k < self.chain@.len() {
            values(self.arena, self.chain@.take(k + 1)).len() as int
        } else {
            0
        }
    }

    proof fn lemma_chain_alive(&self, before: &List<T>, k: int)
        requires
            before.inv(),
            self.arena.wf(),
            self.carried(before),
            self.arena.live(self.first),
            0 <= k < self.chain@.len(),
        ensures
            self.arena.live(self.chain@[k]),
        decreases k,
    {
        if k > 0 {
            self.lemma_chain_alive(before, k - 1);
            let j = self.chain@[k - 1];
            assert(self.arena.sound(j));
            assert(before.linked(k - 1));
        }
    }

    /// The invariant survives any change that touches counters only and
    /// reclaims cells while leaving the links of the others in good order.
    proof fn lemma_carried(&self, before: &List<T>)
        requires
            before.inv(),
            self.arena.wf(),
            self.carried(before),
            self.arena.covered(self.first, 1),
        ensures
            self.inv(),
            self@ == before@,
            forall|k: int| 0 <= k < self.chain@.len() ==> self.arena.live(#[trigger] self.chain@[k]),
            forall|i: usize| self.slot_after(i) == before.slot_after(i),
    {
        let ch = self.chain@;
        assert forall|k: int| 0 <= k < ch.len() implies self.arena.live(#[trigger] ch[k]) by {
            self.lemma_chain_alive(before, k);
        }
        assert(self.sentinels()) by {
            assert(ch[ch.len() - 1] == self.last);
            assert(before.arena.live(self.first));
        }
        assert forall|i: usize| self.arena.live(i) implies #[trigger] self.ranked_at(i) by {
            assert(before.ranked_at(i));
        }
        assert forall|i: usize| #[trigger] self.standing(i) implies ch.contains(i) by {
            assert(before.standing(i));
        }
        assert forall|i: usize| #[trigger] self.terminal(i) implies ch.contains(i) by {
            assert(self.arena.sound(i));
            assert(self.arena.live(self.arena.cell(i).spec_next().unwrap()));
            assert(before.terminal(i));
        }
        assert forall|k: int| 0 <= k < ch.len() - 1 implies #[trigger] self.linked(k) by {
            assert(before.linked(k));
            assert(self.arena.live(ch[k]));
        }
        assert(self.chained());
        assert forall|i: usize|
            self.arena.live(i) && !self.arena.cell(
                i,
            ).spec_is_last() implies #[trigger] self.anchored_at(i) by {
            assert(before.anchored_at(i));
            let a = self.anc(i);
            assert(before.standing(a));
            assert(ch.contains(a));
            let k = choose|k: int| 0 <= k < ch.len() && ch[k] == a;
            assert(self.arena.live(ch[k]));
            assert(self.arena.sound(i));
            assert(self.arena.live(self.arena.cell(i).spec_next().unwrap()));
        }
        lemma_values_same(self.arena, before.arena, ch);
        assert forall|i: usize| self.slot_after(i) == before.slot_after(i) by {
            let t = ch.take(self.at(self.anc(i)) + 1);
            assert(self.at(self.anc(i)) == before.at(before.anc(i)));
            assert forall|k: int|
                0 <= self.at(self.anc(i)) < ch.len() && 0 <= k < t.len() implies self.arena.cell(
                #[trigger] t[k],
            ).spec_val() == before.arena.cell(t[k]).spec_val() by {
                assert(t[k] == ch[k]);
                assert(self.arena.live(ch[k]));
            }
            if 0 <= self.at(self.anc(i)) < ch.len() {
                lemma_values_same(self.arena, before.arena, t);
            }
        }
    }

    /// Ranks fall along the chain.
    proof fn lemma_chain_rank(&self, j: int, k: int)
        requires
            self.inv(),
            0 <= j < k < self.chain@.len(),
        ensures
            self.rk(self.chain@[j]) > self.rk(self.chain@[k]),
        decreases k - j,
    {
        assert(self.ranked_at(self.chain@[j]));
        assert(self.linked(j));
        if j + 1 < k {
            self.lemma_chain_rank(j + 1, k);
        }
    }

    /// A cell stands on the chain once.
    proof fn lemma_chain_at(&self, k: int)
        requires
            self.inv(),
            0 <= k < self.chain@.len(),
        ensures
            self.at(self.chain@[k]) == k,
    {
        let j = self.at(self.chain@[k]);
        if j < k {
            self.lemma_chain_rank(j, k);
        } else if k < j {
            self.lemma_chain_rank(k, j);
        }
    }

    /// What the anchor of a cell on the chain is: the start of its run.
    proof fn lemma_run(&self, k: int)
        requires
            self.inv(),
            0 <= k < self.chain@.len() - 1,
        ensures
            0 <= self.run_start(k) <= k,
            self.anc(self.chain@[k]) == self.chain@[self.run_start(k)],
            self.standing(self.chain@[self.run_start(k)]),
            forall|j: int| self.run_start(k) < j <= k ==> self.arena.cell(#[trigger] self.chain@[j]).spec_is_aux(),
            self.arena.cell(self.chain@[k]).spec_is_aux() ==> self.run_start(k) < k,
            values(self.arena, self.chain@.take(k + 1)) == values(
                self.arena,
                self.chain@.take(self.run_start(k) + 1),
            ),
            self.slot_after(self.chain@[k]) == values(self.arena, self.chain@.take(k + 1)).len(),
        decreases k,
    {
        let ch = self.chain@;
        let c = self.arena.cell(ch[k]);
        assert(self.arena.live(ch[k]));
        assert(self.arena.sound(ch[k]));
        assert(self.linked(k));
        assert(self.anchored_at(ch[k]));
        if k == 0 {
            assert(self.standing(ch[0]));
        } else if c.spec_is_aux() {
            let p = ch[k - 1];
            self.lemma_run(k - 1);
            assert(self.arena.live(p));
            assert(self.arena.sound(p));
            assert(self.anchored_at(p));
            assert(self.linked(k - 1));
            assert(ch.take(k + 1).drop_last() =~= ch.take(k));
        } else {
            assert(self.standing(ch[k]));
        }
        let r = self.run_start(k);
        self.lemma_chain_at(r);
    }
}

impl<T> List<T> {
    /// The chain after the cells strictly between positions `k` and `m` were cut out.
    spec fn cut(chain: Seq<usize>, k: int, m: int) -> Seq<usize> {
        chain.take(k + 1) + chain.skip(m)
    }

    /// Cutting marker cells out of the chain leaves the values of every
    /// prefix that ends outside the cut as they were.
    proof fn lemma_cut_values(&self, k: int, m: int, j: int)
        requires
            0 <= k < m < self.chain@.len(),
            forall|x: int| k < x < m ==> self.arena.cell(#[trigger] self.chain@[x]).spec_is_aux(),
            m <= j <= self.chain@.len(),
        ensures
            values(self.arena, Self::cut(self.chain@, k, m).take(j - (m - k - 1))) == values(
                self.arena,
                self.chain@.take(j),
            ),
    {
        let ch = self.chain@;
        let mid = ch.subrange(k + 1, m);
        assert(Self::cut(ch, k, m).take(j - (m - k - 1)) =~= ch.take(k + 1) + ch.subrange(m, j));
        assert(ch.take(j) =~= (ch.take(k + 1) + mid) + ch.subrange(m, j));
        lemma_values_concat(self.arena, ch.take(k + 1), ch.subrange(m, j));
        lemma_values_concat(self.arena, ch.take(k + 1) + mid, ch.subrange(m, j));
        lemma_values_concat(self.arena, ch.take(k + 1), mid);
        assert forall|x: int| 0 <= x < mid.len() implies self.arena.cell(
            #[trigger] mid[x],
        ).spec_val().is_none() by {
            assert(mid[x] == ch[k + 1 + x]);
        }
        lemma_values_none(self.arena, mid);
        assert(values(self.arena, ch.take(k + 1)) + Seq::<T>::empty() =~= values(
            self.arena,
            ch.take(k + 1),
        ));
    }

    /// `self` is `before` after the `next` link of the head or data cell `at`
    /// was swapped to the marker cell `newc` further along its own run.
    spec fn splice_step(&self, before: &List<T>, at: usize, expected: usize, newc: usize) -> bool {
        &&& before.inv()
        &&& self.arena.wf()
        &&& self.arena.swapped(&before.arena, at, expected, newc)
        &&& before.arena.live(at)
        &&& before.arena.cell(at).is_normal()
        &&& before.arena.cell(at).spec_next() == Some(expected)
        &&& before.arena.live(newc)
        &&& before.arena.cell(newc).spec_is_aux()
        &&& before.rk(newc) < before.rk(at)
        &&& before.anc(newc) == before.anc(at)
        &&& before.standing(at) ==> before.chain@.contains(newc)
        &&& self.first == before.first
        &&& self.last == before.last
        &&& self.rank@ == before.rank@
        &&& self.anchor@ == before.anchor@
        &&& self.chain@ == if before.standing(at) {
            Self::cut(before.chain@, before.at(at), before.at(newc))
        } else {
            before.chain@
        }
    }

    /// The two arenas hold the same cells, which differ in the `next` link of `at` at most.
    spec fn same_but_next(&self, before: &List<T>, at: usize) -> bool {
        &&& forall|i: usize| #[trigger] self.arena.live(i) == before.arena.live(i)
        &&& forall|i: usize| #[trigger]
            self.arena.live(i) ==> {
                &&& self.arena.cell(i).same_payload(&before.arena.cell(i))
                &&& self.arena.cell(i).spec_backlink() == before.arena.cell(i).spec_backlink()
                &&& i != at ==> self.arena.cell(i).spec_next() == before.arena.cell(i).spec_next()
            }
        &&& forall|i: usize| #[trigger] self.standing(i) == before.standing(i)
    }

    #[verifier::rlimit(50)]
    proof fn lemma_spliced_local(&self, before: &List<T>, at: usize, expected: usize, newc: usize)
        requires
            self.splice_step(before, at, expected, newc),
        ensures
            self.same_but_next(before, at),
            self.arena.cell(at).spec_next() == Some(newc),
            self.sentinels(),
            self.ranked(),
            self.anchored(),
    {
        let a1 = before.arena;
        let a2 = self.arena;
        assert(a1.sound(at));
        assert(a1.sound(before.first));
        assert forall|i: usize| #[trigger] a2.live(i) implies a2.cell(i).same_payload(&a1.cell(i))
            && a2.cell(i).spec_backlink() == a1.cell(i).spec_backlink() && (i != at ==> a2.cell(
            i,
        ).spec_next() == a1.cell(i).spec_next()) by {
            assert(a1.live(i));
        }
        assert forall|i: usize| #[trigger] self.standing(i) == before.standing(i) by {
            if a2.live(i) {
                assert(a1.live(i));
            }
            if a1.live(i) {
                assert(a2.live(i));
            }
        }
        assert(self.sentinels()) by {
            assert(a2.live(self.first));
            assert(a2.live(self.last));
            assert(a2.held(self.first) == a1.held(self.first));
        }
        assert forall|i: usize| a2.live(i) implies #[trigger] self.ranked_at(i) by {
            assert(a1.live(i));
            assert(before.ranked_at(i));
        }
        assert forall|i: usize|
            a2.live(i) && !a2.cell(i).spec_is_last() implies #[trigger] self.anchored_at(i) by {
            assert(a1.live(i));
            assert(before.anchored_at(i));
            assert(a1.sound(i));
            assert(a2.sound(i));
            assert(a2.live(a2.cell(i).spec_next().unwrap()));
            assert(self.standing(self.anc(i)) == before.standing(before.anc(i)));
            assert(self.standing(i) == before.standing(i));
        }
    }

    /// Where the cells of the chain stand after a cut.
    proof fn lemma_cut_positions(&self, at: usize, newc: usize)
        requires
            self.inv(),
            self.standing(at),
            self.arena.live(newc),
            self.arena.cell(newc).spec_is_aux(),
            self.anc(newc) == self.anc(at),
            self.chain@.contains(newc),
        ensures
            0 <= self.at(at) < self.at(newc) < self.chain@.len() - 1,
            self.chain@[self.at(at)] == at,
            self.chain@[self.at(newc)] == newc,
            forall|x: int|
                self.at(at) < x <= self.at(newc) ==> self.arena.cell(
                    #[trigger] self.chain@[x],
                ).spec_is_aux(),
    {
        let ch = self.chain@;
        let k = self.at(at);
        let m = self.at(newc);
        assert(ch.contains(at));
        assert(0 <= k < ch.len() && ch[k] == at);
        assert(0 <= m < ch.len() && ch[m] == newc);
        assert(self.arena.live(ch[ch.len() - 1]));
        assert(m < ch.len() - 1);
        self.lemma_run(m);
        assert(self.anchored_at(at));
        self.lemma_chain_at(k);
        self.lemma_chain_at(self.run_start(m));
    }

    #[verifier::rlimit(50)]
    proof fn lemma_spliced_chain(&self, before: &List<T>, at: usize, expected: usize, newc: usize)
        requires
            self.splice_step(before, at, expected, newc),
            before.standing(at),
            self.same_but_next(before, at),
            self.arena.cell(at).spec_next() == Some(newc),
        ensures
            self.chained(),
    {
        let ch = before.chain@;
        let ch2 = self.chain@;
        let a1 = before.arena;
        let a2 = self.arena;
        let k = before.at(at);
        let m = before.at(newc);
        before.lemma_cut_positions(at, newc);
        let d = m - k - 1;
        assert(ch2.len() == ch.len() - d);
        assert forall|j: int| 0 <= j < ch2.len() implies #[trigger] ch2[j] == if j <= k {
            ch[j]
        } else {
            ch[j + d]
        } by {}
        assert forall|j: int| 0 <= j < ch2.len() implies a2.live(#[trigger] ch2[j]) by {
            if j <= k {
                assert(a1.live(ch[j]));
            } else {
                assert(a1.live(ch[j + d]));
            }
        }
        assert forall|j: int| 0 <= j < ch2.len() - 1 implies #[trigger] self.linked(j) by {
            if j < k {
                before.lemma_chain_at(j);
                assert(before.linked(j));
                assert(a2.live(ch2[j]));
            } else if j == k {
            } else {
                before.lemma_chain_at(j + d);
                assert(before.linked(j + d));
                assert(a2.live(ch2[j]));
            }
        }
        assert forall|j: int| 0 <= j < ch2.len() implies a2.cell(
            #[trigger] ch2[j],
        ).spec_backlink().is_none() by {
            assert(a2.live(ch2[j]));
            if j <= k {
                assert(a1.cell(ch[j]).spec_backlink().is_none());
            } else {
                assert(a1.cell(ch[j + d]).spec_backlink().is_none());
            }
        }
        assert forall|i: usize| #[trigger] self.standing(i) implies ch2.contains(i) by {
            assert(before.standing(i));
            assert(ch.contains(i));
            let j = before.at(i);
            assert(ch[j] == i);
            if j <= k {
                assert(ch2[j] == i);
            } else {
                assert(j >= m);
                assert(ch2[j - d] == i);
            }
        }
        assert forall|i: usize| #[trigger] self.terminal(i) implies ch2.contains(i) by {
            assert(a1.live(i));
            assert(a2.sound(i));
            assert(a2.live(a2.cell(i).spec_next().unwrap()));
            assert(before.terminal(i));
            assert(ch.contains(i));
            let j = before.at(i);
            assert(ch[j] == i);
            if j <= k {
                assert(ch2[j] == i);
            } else if j < m {
                assert(before.linked(j));
                assert(a1.cell(ch[j + 1]).spec_is_aux());
            } else {
                assert(ch2[j - d] == i);
            }
        }
    }

    proof fn lemma_spliced_aside(&self, before: &List<T>, at: usize, expected: usize, newc: usize)
        requires
            self.splice_step(before, at, expected, newc),
            !before.standing(at),
            self.same_but_next(before, at),
        ensures
            self.chained(),
    {
        let ch = before.chain@;
        let ch2 = self.chain@;
        let a1 = before.arena;
        let a2 = self.arena;
        assert forall|i: usize| #[trigger] self.terminal(i) implies ch2.contains(i) by {
            assert(a1.live(i));
            assert(a2.sound(i));
            assert(a2.live(a2.cell(i).spec_next().unwrap()));
            assert(before.terminal(i));
        }
        assert forall|i: usize| #[trigger] self.standing(i) implies ch2.contains(i) by {
            assert(before.standing(i));
        }
        assert forall|j: int| 0 <= j < ch2.len() implies a2.live(#[trigger] ch2[j]) by {
            assert(a1.live(ch[j]));
        }
        assert forall|j: int| 0 <= j < ch2.len() - 1 implies #[trigger] self.linked(j) by {
            assert(a2.live(ch2[j]));
            assert(before.linked(j));
            assert(a1.cell(ch[j]).spec_backlink().is_none());
            if ch[j] == at {
                assert(a1.live(at));
                assert(before.standing(at));
            }
        }
        assert forall|j: int| 0 <= j < ch2.len() implies a2.cell(
            #[trigger] ch2[j],
        ).spec_backlink().is_none() by {
            assert(a2.live(ch2[j]));
            assert(a1.cell(ch[j]).spec_backlink().is_none());
        }
    }

    #[verifier::rlimit(50)]
    proof fn lemma_spliced_values(&self, before: &List<T>, at: usize, expected: usize, newc: usize)
        requires
            self.splice_step(before, at, expected, newc),
            self.same_but_next(before, at),
            self.inv(),
        ensures
            self@ == before@,
            forall|i: usize|
                before.arena.live(i) && !before.arena.cell(i).spec_is_last() ==> self.slot_after(i)
                    == before.slot_after(i),
    {
        let ch = before.chain@;
        let ch2 = self.chain@;
        let a1 = before.arena;
        let a2 = self.arena;
        assert forall|s: Seq<usize>|
            (forall|x: int| 0 <= x < s.len() ==> a1.live(#[trigger] s[x])) implies #[trigger] values(
            a2,
            s,
        ) == values(a1, s) by {
            assert forall|x: int| 0 <= x < s.len() implies a2.cell(#[trigger] s[x]).spec_val()
                == a1.cell(s[x]).spec_val() by {
                assert(a2.live(s[x]));
            }
            lemma_values_same(a2, a1, s);
        }
        if before.standing(at) {
            let k = before.at(at);
            let m = before.at(newc);
            before.lemma_cut_positions(at, newc);
            let d = m - k - 1;
            assert forall|j: int| 0 <= j < ch2.len() implies #[trigger] ch2[j] == if j <= k {
                ch[j]
            } else {
                ch[j + d]
            } by {}
            assert(ch2.take(ch.len() - d) =~= ch2);
            assert(ch.take(ch.len() as int) =~= ch);
            before.lemma_cut_values(k, m, ch.len() as int);
            assert forall|x: int| 0 <= x < ch2.len() implies a1.live(#[trigger] ch2[x]) by {
                assert(a2.live(ch2[x]));
            }
            assert(values(a2, ch2) == values(a1, ch2));
            assert forall|i: usize|
                a1.live(i) && !a1.cell(i).spec_is_last() implies self.slot_after(i)
                == before.slot_after(i) by {
                assert(before.anchored_at(i));
                let q = before.anc(i);
                assert(before.standing(q));
                assert(ch.contains(q));
                let j = before.at(q);
                assert(ch[j] == q);
                if j <= k {
                    assert(ch2[j] == q);
                    self.lemma_chain_at(j);
                    assert(ch2.take(j + 1) =~= ch.take(j + 1));
                    let t = ch2.take(j + 1);
                    assert forall|x: int| 0 <= x < t.len() implies a1.live(#[trigger] t[x]) by {
                        assert(t[x] == ch[x]);
                        assert(a1.live(ch[x]));
                    }
                    assert(values(a2, t) == values(a1, t));
                } else {
                    assert(a1.cell(ch[j]).is_normal());
                    assert(j >= m);
                    assert(ch2[j - d] == q);
                    self.lemma_chain_at(j - d);
                    before.lemma_cut_values(k, m, j + 1);
                    let t = ch2.take(j - d + 1);
                    assert forall|x: int| 0 <= x < t.len() implies a1.live(#[trigger] t[x]) by {
                        assert(t[x] == ch2[x]);
                        assert(a2.live(ch2[x]));
                    }
                    assert(values(a2, t) == values(a1, t));
                }
            }
        } else {
            assert forall|x: int| 0 <= x < ch.len() implies a1.live(#[trigger] ch[x]) by {}
            assert(values(a2, ch) == values(a1, ch));
            assert forall|i: usize|
                a1.live(i) && !a1.cell(i).spec_is_last() implies self.slot_after(i)
                == before.slot_after(i) by {
                let j = before.at(before.anc(i));
                if 0 <= j < ch.len() {
                    let t = ch.take(j + 1);
                    assert forall|x: int| 0 <= x < t.len() implies a1.live(#[trigger] t[x]) by {
                        assert(t[x] == ch[x]);
                        assert(a1.live(ch[x]));
                    }
                    assert(values(a2, t) == values(a1, t));
                }
            }
        }
    }

    /// The invariant survives a swap of the `next` link of a head or data
    /// cell to a marker cell further along its own run.
    proof fn lemma_spliced(&self, before: &List<T>, at: usize, expected: usize, newc: usize)
        requires
            self.splice_step(before, at, expected, newc),
        ensures
            self.inv(),
            self@ == before@,
            forall|i: usize|
                before.arena.live(i) && !before.arena.cell(i).spec_is_last() ==> self.slot_after(i)
                    == before.slot_after(i),
    {
        self.lemma_spliced_local(before, at, expected, newc);
        if before.standing(at) {
            self.lemma_spliced_chain(before, at, expected, newc);
        } else {
            self.lemma_spliced_aside(before, at, expected, newc);
        }
        self.lemma_spliced_values(before, at, expected, newc);
    }

    /// What deletions under way know survives a swap that moves the `next`
    /// link of a head or data cell on.
    #[verifier::rlimit(50)]
    proof fn lemma_steady_spliced(&self, before: &List<T>, at: usize, expected: usize, newc: usize)
        requires
            self.splice_step(before, at, expected, newc),
            self.same_but_next(before, at),
            self.arena.cell(at).spec_next() == Some(newc),
            before.standing(at) ==> before.rk(newc) <= before.rk(expected),
        ensures
            self.steady(before),
    {
        let ch = before.chain@;
        let ch2 = self.chain@;
        let a1 = before.arena;
        let a2 = self.arena;
        assert forall|p: usize, s: usize, n: usize| #[trigger]
            before.located(p, s, n) && a2.live(p) && a2.live(s) && a2.live(n) implies self.located(
            p,
            s,
            n,
        ) by {
            assert(self.standing(p) == before.standing(p));
        }
        assert forall|p: usize, s: usize, n: usize| #[trigger]
            before.aimed(p, s, n) && a2.live(p) && a2.live(s) && a2.live(n) implies self.aimed(
            p,
            s,
            n,
        ) by {
            assert(self.standing(p) == before.standing(p));
            assert(before.located(p, s, n));
            assert(self.located(p, s, n));
            if self.standing(p) && a2.cell(p).spec_next() == Some(s) {
                assert(before.anchored_at(p));
                if before.standing(at) {
                    let k = before.at(at);
                    let m = before.at(newc);
                    before.lemma_cut_positions(at, newc);
                    assert(before.linked(k));
                    if p == at {
                        if m > k + 1 {
                            before.lemma_chain_rank(k + 1, m);
                        }
                        assert(m == k + 1);
                        assert(ch2 =~= ch);
                    } else {
                        assert(ch.contains(n));
                        let j = before.at(n);
                        assert(0 <= j < ch.len() && ch[j] == n);
                        if k < j < m {
                            before.lemma_run_at(j, k);
                            before.lemma_chain_at(k);
                            assert(false);
                        }
                        let d = m - k - 1;
                        assert forall|x: int| 0 <= x < ch2.len() implies #[trigger] ch2[x] == if x
                            <= k {
                            ch[x]
                        } else {
                            ch[x + d]
                        } by {}
                        if j <= k {
                            assert(ch2[j] == n);
                        } else {
                            assert(ch2[j - d] == n);
                        }
                    }
                } else {
                    assert(p != at);
                }
            }
        }
    }

    /// Changes of counters, one after the other.
    proof fn lemma_carried_trans(&self, mid: &List<T>, before: &List<T>)
        requires
            self.carried(mid),
            mid.carried(before),
        ensures
            self.carried(before),
    {
        assert forall|i: usize| #[trigger] self.arena.live(i) implies {
            &&& before.arena.live(i)
            &&& self.arena.cell(i).same_payload(&before.arena.cell(i))
            &&& self.arena.cell(i).spec_next() == before.arena.cell(i).spec_next()
            &&& self.arena.cell(i).spec_backlink() == before.arena.cell(i).spec_backlink()
        } by {
            assert(mid.arena.live(i));
        }
    }

    /// Nothing has changed in a list as it is.
    proof fn lemma_carried_refl(&self)
        ensures
            self.carried(self),
    {
    }

    /// What a deletion knows of its cells still holds after steps that
    /// changed counters only, also of a marker cell further along the run.
    proof fn lemma_located_carried(&self, before: &List<T>, p: usize, s: usize, n0: usize, n: usize)
        requires
            before.located(p, s, n0),
            self.carried(before),
            self.arena.live(p),
            self.arena.live(s),
            self.arena.live(n),
            self.arena.cell(n).spec_is_aux(),
            self.anc(n) == before.anc(n0),
            self.rk(n) <= before.rk(n0),
        ensures
            self.located(p, s, n),
    {
        assert(self.standing(p) ==> before.standing(p));
    }

    /// A marker cell in the list does not stand in front of the first marker
    /// cell of its run.
    proof fn lemma_run_rank(&self, q: usize, x: usize)
        requires
            self.inv(),
            self.standing(q),
            self.arena.live(x),
            self.arena.cell(x).spec_is_aux(),
            self.anc(x) == q,
            self.chain@.contains(x),
        ensures
            self.arena.cell(q).spec_next().is_some(),
            self.rk(x) <= self.rk(self.arena.cell(q).spec_next().unwrap()),
    {
        assert(self.anchored_at(q));
        self.lemma_cut_positions(q, x);
        let k = self.at(q);
        let m = self.at(x);
        assert(self.linked(k));
        if m > k + 1 {
            self.lemma_chain_rank(k + 1, m);
        }
    }

    /// A marker cell in the run that the cell at position `k` starts has that cell as its anchor.
    proof fn lemma_run_at(&self, j: int, k: int)
        requires
            self.inv(),
            0 <= k < j < self.chain@.len() - 1,
            self.arena.cell(self.chain@[k]).is_normal(),
            forall|x: int| k < x <= j ==> self.arena.cell(#[trigger] self.chain@[x]).spec_is_aux(),
        ensures
            self.anc(self.chain@[j]) == self.chain@[k],
        decreases j - k,
    {
        self.lemma_run(j);
        let r = self.run_start(j);
        assert(self.arena.cell(self.chain@[r]).is_normal());
        if r < k {
            assert(self.arena.cell(self.chain@[k]).spec_is_aux());
        }
    }

    /// Compare-and-swap on the `next` link of the head or data cell `at`,
    /// towards a marker cell of the run that `at` starts or started.
    #[verifier::rlimit(50)]
    fn splice(&mut self, at: usize, expected: usize, newc: usize) -> (swapped: Result<
        usize,
        crate::error::Error,
    >)
        requires
            old(self).inv(),
            old(self).mem().live(at),
            old(self).mem().cell(at).is_normal(),
            old(self).mem().live(newc),
            old(self).mem().cell(newc).spec_is_aux(),
            old(self).mem().covered(newc, 1),
            old(self).rk(newc) < old(self).rk(at),
            old(self).anc(newc) == old(self).anc(at),
            old(self).standing(at) && old(self).mem().cell(at).spec_next() == Some(expected)
                ==> old(self).chain@.contains(newc) && old(self).rk(newc) <= old(self).rk(expected),
        ensures
            final(self).inv(),
            final(self)@ == old(self)@,
            final(self).first == old(self).first,
            final(self).last == old(self).last,
            final(self).rank@ == old(self).rank@,
            final(self).anchor@ == old(self).anchor@,
            old(self).mem().cell(at).spec_next() != Some(expected) ==> swapped == Err::<
                usize,
                crate::error::Error,
            >(crate::error::Error::Conflict),
            old(self).mem().cell(at).spec_next() == Some(expected) ==> swapped == Ok::<
                usize,
                crate::error::Error,
            >(expected),
            swapped.is_err() ==> final(self).carried(old(self)) && final(self).mem()@ == old(self).mem()@,
            swapped.is_ok() ==> final(self).mem().swapped(&old(self).mem(), at, expected, newc),
            final(self).evolved(old(self)),
            final(self).shifted(old(self), 0, 0),
            forall|i: usize|
                old(self).mem().live(i) && !old(self).mem().cell(i).spec_is_last()
                    ==> final(self).slot_after(i) == old(self).slot_after(i),
            forall|i: usize, k: int|
                old(self).arena.covered(
                    i,
                    if swapped.is_ok() {
                        k - (if i == expected { 1int } else { 0int }) + (if i == newc {
                            1int
                        } else {
                            0int
                        })
                    } else {
                        k
                    },
                ) ==> #[trigger] final(self).arena.covered(i, k),
    {
        let ghost before = *self;
        let swapped = self.arena.swap_in_next(at, expected, newc);
        proof {
            assert(before.arena.sound(before.first));
            if swapped.is_ok() {
                if before.standing(at) {
                    self.chain@ = Self::cut(before.chain@, before.at(at), before.at(newc));
                }
                self.lemma_spliced(&before, at, expected, newc);
                assert forall|i: usize, k: int|
                    before.arena.covered(
                        i,
                        k - (if i == expected { 1int } else { 0int }) + (if i == newc {
                            1int
                        } else {
                            0int
                        }),
                    ) implies #[trigger] self.arena.covered(i, k) by {
                    self.arena.lemma_swapped_keeps(
                        &before.arena,
                        at,
                        expected,
                        newc,
                        i,
                        k - (if i == expected { 1int } else { 0int }) + (if i == newc {
                            1int
                        } else {
                            0int
                        }),
                    );
                }
                self.lemma_spliced_local(&before, at, expected, newc);
                self.lemma_steady_spliced(&before, at, expected, newc);
                assert(self.evolved(&before));
            } else {
                self.lemma_carried(&before);
                self.lemma_carried_evolved(&before);
            }
        }
        swapped
    }

    /// `self` is `before` after the data cell `d` behind the marker cell `a`
    /// was unlinked and given the back link `p`.
    spec fn unlink_step(&self, before: &List<T>, p: usize, a: usize, d: usize, n: usize) -> bool {
        &&& before.inv()
        &&& self.arena.wf()
        &&& before.arena.live(p)
        &&& before.arena.cell(p).is_normal()
        &&& before.arena.covered(p, if p == before.first { 2int } else { 1int })
        &&& before.arena.live(a)
        &&& before.arena.cell(a).spec_is_aux()
        &&& before.arena.cell(a).spec_next() == Some(d)
        &&& before.arena.live(d)
        &&& before.arena.cell(d).spec_is_data_cell()
        &&& before.arena.cell(d).spec_next() == Some(n)
        &&& before.rk(p) > before.rk(a)
        &&& before.anc(a) == before.anc(p)
        &&& self.arena.capacity() == before.arena.capacity()
        &&& forall|i: usize| #[trigger] self.arena.live(i) == before.arena.live(i)
        &&& forall|i: usize|
            i != a && i != d ==> #[trigger] self.arena.cell(i) == before.arena.cell(i)
        &&& self.arena.cell(a) == before.arena.cell(a).with_links(
            crate::cell::Links { next: Some(n), ..before.arena.cell(a).links().unwrap() },
        )
        &&& self.arena.cell(d) == before.arena.cell(d).with_links(
            crate::cell::Links { back_link: Some(p), ..before.arena.cell(d).links().unwrap() },
        )
        &&& forall|i: usize| #[trigger]
            self.arena.held(i) == before.arena.held(i) + (if i == d {
                1int
            } else {
                0int
            }) - (if i == n {
                1int
            } else {
                0int
            }) - (if i == p {
                1int
            } else {
                0int
            })
        &&& self.first == before.first
        &&& self.last == before.last
        &&& self.rank@ == before.rank@
        &&& forall|i: usize| #[trigger]
            self.anc(i) == if before.anc(i) == d {
                before.anc(p)
            } else {
                before.anc(i)
            }
        &&& self.chain@ == Self::cut(before.chain@, before.at(a), before.at(a) + 2)
    }

    /// Where the cells of an unlink stand on the chain.
    proof fn lemma_unlink_positions(&self, p: usize, a: usize, d: usize, n: usize)
        requires
            self.inv(),
            self.arena.live(p),
            self.arena.cell(p).is_normal(),
            self.arena.live(a),
            self.arena.cell(a).spec_is_aux(),
            self.arena.cell(a).spec_next() == Some(d),
            self.arena.live(d),
            self.arena.cell(d).spec_is_data_cell(),
            self.arena.cell(d).spec_next() == Some(n),
            self.anc(a) == self.anc(p),
        ensures
            0 <= self.at(a) < self.chain@.len() - 3,
            self.chain@[self.at(a)] == a,
            self.chain@[self.at(a) + 1] == d,
            self.chain@[self.at(a) + 2] == n,
            self.arena.cell(n).spec_is_aux(),
            self.standing(d),
            self.anc(d) == d,
            self.anc(n) == d,
            self.anc(p) != d,
            self.standing(self.anc(p)),
            0 <= self.at(self.anc(p)) < self.at(a),
            self.chain@[self.at(self.anc(p))] == self.anc(p),
            self.slot_after(p) == values(self.arena, self.chain@.take(self.at(a) + 1)).len(),
    {
        let ch = self.chain@;
        assert(self.terminal(a));
        assert(ch.contains(a));
        let k = self.at(a);
        assert(0 <= k < ch.len() && ch[k] == a);
        assert(self.arena.live(ch[ch.len() - 1]));
        assert(k < ch.len() - 1);
        assert(self.linked(k));
        assert(ch[k + 1] == d);
        assert(k + 1 < ch.len() - 1);
        assert(self.linked(k + 1));
        assert(self.arena.sound(d));
        assert(self.arena.live(n));
        assert(k + 2 < ch.len() - 1);
        assert(self.standing(d));
        assert(self.anchored_at(d));
        self.lemma_run(k);
        let r = self.run_start(k);
        self.lemma_chain_at(r);
        self.lemma_chain_at(k + 1);
        self.lemma_chain_at(k);
    }

    #[verifier::rlimit(50)]
    proof fn lemma_unlinked_local(&self, before: &List<T>, p: usize, a: usize, d: usize, n: usize)
        requires
            self.unlink_step(before, p, a, d, n),
        ensures
            self.sentinels(),
            self.ranked(),
            self.anchored(),
            forall|i: usize| i != d ==> #[trigger] self.standing(i) == before.standing(i),
            !self.standing(d),
    {
        let a1 = before.arena;
        let a2 = self.arena;
        before.lemma_unlink_positions(p, a, d, n);
        assert(a1.sound(before.first));
        assert(a1.sound(a));
        assert(a1.sound(d));
        assert(before.ranked_at(a));
        assert(before.ranked_at(d));
        assert(self.sentinels()) by {
            assert(a2.live(self.first));
            assert(a2.live(self.last));
            assert forall|i: usize| #[trigger] a2.live(i) implies (a2.cell(i).spec_is_first() ==> i
                == self.first) && (a2.cell(i).spec_is_last() ==> i == self.last) by {
                assert(a1.live(i));
            }
        }
        assert forall|i: usize| i != d implies #[trigger] self.standing(i) == before.standing(i) by {
            if a2.live(i) {
                assert(a1.live(i));
            }
            if a1.live(i) {
                assert(a2.live(i));
            }
        }
        assert forall|i: usize| a2.live(i) implies #[trigger] self.ranked_at(i) by {
            assert(a1.live(i));
            assert(before.ranked_at(i));
        }
        assert forall|i: usize|
            a2.live(i) && !a2.cell(i).spec_is_last() implies #[trigger] self.anchored_at(i) by {
            assert(a1.live(i));
            assert(before.anchored_at(i));
            assert(a1.sound(i));
            assert(a2.sound(i));
            let nx = a2.cell(i).spec_next().unwrap();
            assert(a2.live(nx));
            assert(before.anchored_at(p));
            assert(before.anchored_at(d));
            assert(self.standing(self.anc(i)));
            if a1.cell(i).spec_backlink().is_some() {
                assert(a1.live(a1.cell(i).spec_backlink().unwrap()));
            }
        }
    }

    #[verifier::rlimit(50)]
    proof fn lemma_unlinked_chain(&self, before: &List<T>, p: usize, a: usize, d: usize, n: usize)
        requires
            self.unlink_step(before, p, a, d, n),
            forall|i: usize| i != d ==> #[trigger] self.standing(i) == before.standing(i),
            !self.standing(d),
        ensures
            self.chained(),
    {
        let ch = before.chain@;
        let ch2 = self.chain@;
        let a1 = before.arena;
        let a2 = self.arena;
        let k = before.at(a);
        before.lemma_unlink_positions(p, a, d, n);
        assert(ch2.len() == ch.len() - 1);
        assert forall|j: int| 0 <= j < ch2.len() implies #[trigger] ch2[j] == if j <= k {
            ch[j]
        } else {
            ch[j + 1]
        } by {}
        assert forall|j: int| 0 <= j < ch2.len() implies a2.live(#[trigger] ch2[j]) by {
            if j <= k {
                assert(a1.live(ch[j]));
            } else {
                assert(a1.live(ch[j + 1]));
            }
        }
        assert forall|j: int| 0 <= j < ch2.len() - 1 implies #[trigger] self.linked(j) by {
            if j < k {
                before.lemma_chain_at(j);
                before.lemma_chain_at(k);
                before.lemma_chain_at(k + 1);
                assert(before.linked(j));
            } else if j == k {
            } else {
                before.lemma_chain_at(j + 1);
                before.lemma_chain_at(k);
                before.lemma_chain_at(k + 1);
                assert(before.linked(j + 1));
            }
        }
        assert forall|j: int| 0 <= j < ch2.len() implies a2.cell(
            #[trigger] ch2[j],
        ).spec_backlink().is_none() by {
            before.lemma_chain_at(k + 1);
            if j <= k {
                before.lemma_chain_at(j);
                assert(a1.cell(ch[j]).spec_backlink().is_none());
            } else {
                before.lemma_chain_at(j + 1);
                assert(a1.cell(ch[j + 1]).spec_backlink().is_none());
            }
        }
        assert forall|i: usize| #[trigger] self.standing(i) implies ch2.contains(i) by {
            assert(before.standing(i));
            assert(ch.contains(i));
            let j = before.at(i);
            assert(ch[j] == i);
            if j <= k {
                assert(ch2[j] == i);
            } else {
                assert(ch2[j - 1] == i);
            }
        }
        assert forall|i: usize| #[trigger] self.terminal(i) implies ch2.contains(i) by {
            assert(a1.live(i));
            assert(a2.sound(i));
            assert(a2.live(a2.cell(i).spec_next().unwrap()));
            assert(a1.live(a2.cell(i).spec_next().unwrap()));
            assert(before.terminal(i));
            assert(ch.contains(i));
            let j = before.at(i);
            assert(ch[j] == i);
            if j <= k {
                assert(ch2[j] == i);
            } else {
                assert(ch2[j - 1] == i);
            }
        }
    }

    #[verifier::rlimit(50)]
    proof fn lemma_unlinked_values(&self, before: &List<T>, p: usize, a: usize, d: usize, n: usize)
        requires
            self.unlink_step(before, p, a, d, n),
            self.inv(),
        ensures
            0 <= before.slot_after(p) < before@.len(),
            Some(before@[before.slot_after(p)]) == before.arena.cell(d).spec_val(),
            self@ == before@.remove(before.slot_after(p)),
            self.slot_after(p) == before.slot_after(p),
    {
        let ch = before.chain@;
        let ch2 = self.chain@;
        let a1 = before.arena;
        let a2 = self.arena;
        let k = before.at(a);
        before.lemma_unlink_positions(p, a, d, n);
        assert forall|x: int| 0 <= x < ch2.len() implies a2.cell(#[trigger] ch2[x]).spec_val()
            == a1.cell(ch2[x]).spec_val() by {
            assert(a2.live(ch2[x]));
            assert(a1.live(ch2[x]));
        }
        lemma_values_same(a2, a1, ch2);
        let head = ch.take(k + 1);
        let one = ch.subrange(k + 1, k + 2);
        let rest = ch.skip(k + 2);
        assert(ch =~= (head + one) + rest);
        assert(ch2 =~= head + rest);
        lemma_values_concat(a1, head + one, rest);
        lemma_values_concat(a1, head, one);
        lemma_values_concat(a1, head, rest);
        let v = a1.cell(d).spec_val().unwrap();
        assert(values(a1, one) =~= Seq::<T>::empty().push(v)) by {
            assert(one.drop_last() =~= Seq::<usize>::empty());
            assert(one.last() == d);
            reveal_with_fuel(values, 2);
        }
        let vh = values(a1, head);
        let vr = values(a1, rest);
        assert(((vh + Seq::<T>::empty().push(v)) + vr).remove(vh.len() as int) =~= vh + vr);
        assert(((vh + Seq::<T>::empty().push(v)) + vr)[vh.len() as int] == v);
        // the slot of the cursor after the unlink
        let q = before.anc(p);
        let r = before.at(q);
        assert(ch2[r] == q);
        self.lemma_chain_at(r);
        assert(self.anc(p) == q);
        assert(ch2.take(r + 1) =~= ch.take(r + 1));
        let t = ch.take(r + 1);
        assert forall|x: int| 0 <= x < t.len() implies a2.cell(#[trigger] t[x]).spec_val()
            == a1.cell(t[x]).spec_val() by {
            assert(t[x] == ch2[x]);
            assert(a2.live(ch2[x]));
        }
        lemma_values_same(a2, a1, t);
    }

    /// What deletions under way know survives an unlink.
    #[verifier::rlimit(50)]
    proof fn lemma_steady_unlinked(&self, before: &List<T>, p0: usize, a: usize, d: usize, n0: usize)
        requires
            self.unlink_step(before, p0, a, d, n0),
            forall|i: usize| i != d ==> #[trigger] self.standing(i) == before.standing(i),
            !self.standing(d),
        ensures
            self.steady(before),
    {
        let ch = before.chain@;
        let ch2 = self.chain@;
        let a1 = before.arena;
        let a2 = self.arena;
        let kpos = before.at(a);
        before.lemma_unlink_positions(p0, a, d, n0);
        assert forall|j: int| 0 <= j < ch2.len() implies #[trigger] ch2[j] == if j <= kpos {
            ch[j]
        } else {
            ch[j + 1]
        } by {}
        assert forall|p: usize, s: usize, n: usize| #[trigger]
            before.located(p, s, n) && a2.live(p) && a2.live(s) && a2.live(n) implies self.located(
            p,
            s,
            n,
        ) by {
            if p != d {
                assert(self.standing(p) == before.standing(p));
            }
        }
        assert forall|p: usize, s: usize, n: usize| #[trigger]
            before.aimed(p, s, n) && a2.live(p) && a2.live(s) && a2.live(n) implies self.aimed(
            p,
            s,
            n,
        ) by {
            assert(before.located(p, s, n));
            assert(self.located(p, s, n));
            if self.standing(p) && a2.cell(p).spec_next() == Some(s) {
                assert(p != d);
                assert(self.standing(p) == before.standing(p));
                assert(ch.contains(n));
                let j = before.at(n);
                assert(0 <= j < ch.len() && ch[j] == n);
                if j <= kpos {
                    assert(ch2[j] == n);
                } else {
                    assert(ch2[j - 1] == n);
                }
            }
        }
    }

    /// After an unlink the places behind the deleted element are one lower.
    #[verifier::rlimit(50)]
    proof fn lemma_unlinked_places(&self, before: &List<T>, p: usize, a: usize, d: usize, n: usize)
        requires
            self.unlink_step(before, p, a, d, n),
            self.inv(),
            self.slot_after(p) == before.slot_after(p),
        ensures
            self.shifted(before, before.slot_after(p), -1),
    {
        let ch = before.chain@;
        let ch2 = self.chain@;
        let a1 = before.arena;
        let a2 = self.arena;
        let kpos = before.at(a);
        before.lemma_unlink_positions(p, a, d, n);
        let k = before.slot_after(p);
        assert forall|j: int| 0 <= j < ch2.len() implies #[trigger] ch2[j] == if j <= kpos {
            ch[j]
        } else {
            ch[j + 1]
        } by {}
        assert forall|x: int| 0 <= x < ch2.len() implies a2.cell(#[trigger] ch2[x]).spec_val()
            == a1.cell(ch2[x]).spec_val() by {
            assert(a2.live(ch2[x]));
            assert(a1.live(ch2[x]));
        }
        lemma_values_step(a1, ch, kpos + 1);
        assert forall|i: usize|
            a1.live(i) && !a1.cell(i).spec_is_last() && a2.live(
                i,
            ) implies #[trigger] self.slot_after(i) == before.slot_after(i) + if before.slot_after(i)
            > k {
            -1int
        } else {
            0int
        } by {
            assert(before.anchored_at(i));
            let q = before.anc(i);
            assert(before.standing(q));
            assert(ch.contains(q));
            let j = before.at(q);
            assert(0 <= j < ch.len() && ch[j] == q);
            before.lemma_chain_at(kpos + 1);
            if q == d {
                assert(j == kpos + 1);
                assert(self.anc(i) == before.anc(p));
                assert(self.anc(p) == before.anc(p));
            } else {
                assert(self.anc(i) == q);
                if j <= kpos {
                    assert(ch2[j] == q);
                    self.lemma_chain_at(j);
                    let t = ch.take(j + 1);
                    assert(ch2.take(j + 1) =~= t);
                    assert forall|x: int| 0 <= x < t.len() implies a2.cell(
                        #[trigger] t[x],
                    ).spec_val() == a1.cell(t[x]).spec_val() by {
                        assert(t[x] == ch2[x]);
                    }
                    lemma_values_same(a2, a1, t);
                    lemma_values_prefix(a1, ch, j + 1, kpos + 1);
                } else {
                    assert(j >= kpos + 2);
                    assert(ch2[j - 1] == q);
                    self.lemma_chain_at(j - 1);
                    let head = ch.take(kpos + 1);
                    let mid = ch.subrange(kpos + 2, j + 1);
                    let t2 = ch2.take(j);
                    assert(t2 =~= head + mid);
                    assert(ch.take(j + 1) =~= ch.take(kpos + 2) + mid);
                    lemma_values_concat(a1, head, mid);
                    lemma_values_concat(a1, ch.take(kpos + 2), mid);
                    assert forall|x: int| 0 <= x < t2.len() implies a2.cell(
                        #[trigger] t2[x],
                    ).spec_val() == a1.cell(t2[x]).spec_val() by {
                        assert(t2[x] == ch2[x]);
                    }
                    lemma_values_same(a2, a1, t2);
                }
            }
        }
    }

    /// Unlinks the data cell `d` that follows the marker cell `a`: one
    /// compare-and-swap moves the `next` link of `a` from `d` to `n`, the
    /// successor of `d`, and `d` is given `p` as its back link.  The caller
    /// gives up a handle on `n` and one on `p`, and gets the link's handle on `d`.
    #[verifier::rlimit(50)]
    fn unlink(&mut self, p: usize, a: usize, d: usize, n: usize) -> (unlinked: Result<
        usize,
        crate::error::Error,
    >)
        requires
            old(self).inv(),
            old(self).mem().live(p),
            old(self).mem().cell(p).is_normal(),
            old(self).mem().covered(p, if p == old(self).head() { 2int } else { 1int }),
            old(self).mem().live(a),
            old(self).mem().cell(a).spec_is_aux(),
            old(self).mem().live(d),
            old(self).mem().cell(d).spec_is_data_cell(),
            old(self).mem().cell(d).spec_next() == Some(n),
            old(self).mem().covered(n, 1),
            old(self).rk(p) > old(self).rk(a),
            old(self).anc(a) == old(self).anc(p),
        ensures
            final(self).inv(),
            final(self).first == old(self).first,
            final(self).last == old(self).last,
            final(self).rank@ == old(self).rank@,
            old(self).mem().cell(a).spec_next() != Some(d) ==> unlinked == Err::<
                usize,
                crate::error::Error,
            >(crate::error::Error::Conflict),
            old(self).mem().cell(a).spec_next() == Some(d) ==> unlinked == Ok::<
                usize,
                crate::error::Error,
            >(d),
            unlinked.is_err() ==> final(self).carried(old(self)) && final(self).mem()@ == old(self).mem()@ && final(self)@ == old(self)@,
            unlinked.is_err() ==> forall|i: usize| final(self).slot_after(i) == old(self).slot_after(i),
            unlinked.is_ok() ==> final(self).unlink_step(old(self), p, a, d, n),
            final(self).evolved(old(self)),
            final(self).shifted(
                old(self),
                old(self).slot_after(p),
                if unlinked.is_ok() {
                    -1int
                } else {
                    0int
                },
            ),
            unlinked.is_ok() ==> {
                &&& 0 <= old(self).slot_after(p) < old(self)@.len()
                &&& Some(old(self)@[old(self).slot_after(p)]) == old(self).mem().cell(d).spec_val()
                &&& final(self)@ == old(self)@.remove(old(self).slot_after(p))
                &&& final(self).slot_after(p) == old(self).slot_after(p)
                &&& final(self).anc(n) == final(self).anc(p)
                &&& final(self).anc(a) == final(self).anc(p)
                &&& old(self).rk(a) > old(self).rk(d)
            },
            forall|i: usize, k: int|
                old(self).arena.covered(
                    i,
                    if unlinked.is_ok() {
                        k - (if i == d { 1int } else { 0int }) + (if i == n {
                            1int
                        } else {
                            0int
                        }) + (if i == p {
                            1int
                        } else {
                            0int
                        })
                    } else {
                        k
                    },
                ) ==> #[trigger] final(self).arena.covered(i, k),
    {
        let ghost before = *self;
        proof {
            assert(before.arena.sound(d));
            assert(before.arena.sound(before.first));
        }
        let swapped = self.arena.swap_in_next(a, d, n);
        match swapped {
            Err(_) => {
                proof {
                    self.lemma_carried(&before);
                    self.lemma_carried_evolved(&before);
                }
                Err(crate::error::Error::Conflict)
            },
            Ok(was) => {
                let ghost mid = self.arena;
                proof {
                    before.lemma_unlink_positions(p, a, d, n);
                    assert(mid.live(d));
                    assert(mid.cell(d) == before.arena.cell(d));
                }
                let stored = self.arena.store_backlink(d, p);
                proof {
                    assert(stored);
                    let k = before.at(a);
                    self.chain@ = Self::cut(before.chain@, k, k + 2);
                    let old_anchor = before.anchor@;
                    let to = before.anc(p);
                    self.anchor@ = |i: usize|
                        if old_anchor(i) == d {
                            to
                        } else {
                            old_anchor(i)
                        };
                    assert forall|i: usize| i != a && i != d implies #[trigger] self.arena.cell(i)
                        == before.arena.cell(i) by {
                        assert(self.arena.cell(i) == mid.cell(i));
                    }
                    assert forall|i: usize| #[trigger]
                        self.arena.held(i) == before.arena.held(i) + (if i == d {
                            1int
                        } else {
                            0int
                        }) - (if i == n {
                            1int
                        } else {
                            0int
                        }) - (if i == p {
                            1int
                        } else {
                            0int
                        }) by {
                        assert(self.arena.held(i) == mid.held(i) - (if i == p {
                            1int
                        } else {
                            0int
                        }));
                    }
                    assert(self.unlink_step(&before, p, a, d, n));
                    self.lemma_unlinked_local(&before, p, a, d, n);
                    self.lemma_unlinked_chain(&before, p, a, d, n);
                    self.lemma_unlinked_values(&before, p, a, d, n);
                    self.lemma_unlinked_places(&before, p, a, d, n);
                    assert(before.ranked_at(a));
                    self.lemma_steady_unlinked(&before, p, a, d, n);
                    assert(self.evolved(&before)) by {
                        assert forall|i: usize| #[trigger]
                            self.arena.live(i) && before.arena.live(i) implies self.arena.cell(
                            i,
                        ).same_payload(&before.arena.cell(i)) by {}
                    }
                    assert forall|i: usize, k: int|
                        before.arena.covered(
                            i,
                            k - (if i == d { 1int } else { 0int }) + (if i == n {
                                1int
                            } else {
                                0int
                            }) + (if i == p {
                                1int
                            } else {
                                0int
                            }),
                        ) implies #[trigger] self.arena.covered(i, k) by {
                        let k0 = k - (if i == d { 1int } else { 0int }) + (if i == n {
                            1int
                        } else {
                            0int
                        }) + (if i == p {
                            1int
                        } else {
                            0int
                        });
                        mid.lemma_swapped_keeps(&before.arena, a, d, n, i, k0);
                        self.arena.lemma_backlinked_keeps(
                            &mid,
                            d,
                            p,
                            i,
                            k0 + (if i == d { 1int } else { 0int }) - (if i == n {
                                1int
                            } else {
                                0int
                            }),
                        );
                    }
                }
                Ok(was)
            },
        }
    }

    /// Behind the marker cell `a` stands a data cell with the payload `val`,
    /// behind that a marker cell, and behind that the cell `t`.
    pub open spec fn pair_behind(&self, a: usize, val: T, t: usize) -> bool {
        let m = self.mem();
        &&& m.live(a)
        &&& m.cell(a).spec_next().is_some()
        &&& m.live(m.cell(a).spec_next().unwrap())
        &&& m.cell(m.cell(a).spec_next().unwrap()).spec_val() == Some(val)
        &&& m.cell(m.cell(a).spec_next().unwrap()).spec_next().is_some()
        &&& m.live(m.cell(m.cell(a).spec_next().unwrap()).spec_next().unwrap())
        &&& m.cell(m.cell(m.cell(a).spec_next().unwrap()).spec_next().unwrap()).spec_is_aux()
        &&& m.cell(m.cell(m.cell(a).spec_next().unwrap()).spec_next().unwrap()).spec_next() == Some(
            t,
        )
    }

    /// The chain after `d` and `x` were put in behind position `k`.
    spec fn widened(chain: Seq<usize>, k: int, d: usize, x: usize) -> Seq<usize> {
        (chain.take(k + 1) + Seq::<usize>::empty().push(d).push(x)) + chain.skip(k + 1)
    }

    /// `self` is `before` after the fresh data cell `d`, followed by the
    /// fresh marker cell `x`, was linked in between the marker cell `a` and `t`.
    spec fn link_step(&self, before: &List<T>, a: usize, t: usize, x: usize, d: usize) -> bool {
        &&& before.inv()
        &&& self.arena.wf()
        &&& before.arena.live(a)
        &&& before.arena.cell(a).spec_is_aux()
        &&& before.arena.cell(a).spec_next() == Some(t)
        &&& before.arena.live(t)
        &&& before.arena.cell(t).spec_is_after_aux()
        &&& x == before.arena.capacity()
        &&& d == before.arena.capacity() + 1
        &&& forall|i: usize| #[trigger] self.arena.live(i) == (before.arena.live(i) || i == x || i == d)
        &&& forall|i: usize|
            i != a && i != x && i != d ==> #[trigger] self.arena.cell(i) == before.arena.cell(i)
        &&& self.arena.cell(a) == before.arena.cell(a).with_links(
            crate::cell::Links { next: Some(d), ..before.arena.cell(a).links().unwrap() },
        )
        &&& self.arena.cell(x).spec_is_aux()
        &&& self.arena.cell(x).spec_next() == Some(t)
        &&& self.arena.cell(x).spec_backlink().is_none()
        &&& self.arena.cell(d).spec_is_data_cell()
        &&& self.arena.cell(d).spec_next() == Some(x)
        &&& self.arena.cell(d).spec_backlink().is_none()
        &&& self.arena.held(before.first) == before.arena.held(before.first)
        &&& self.first == before.first
        &&& self.last == before.last
        &&& forall|i: usize| #[trigger]
            self.rk(i) == if i == d {
                3 * before.rk(t) + 2
            } else if i == x {
                3 * before.rk(t) + 1
            } else {
                3 * before.rk(i)
            }
        &&& forall|i: usize| #[trigger]
            self.anc(i) == if i == d || i == x {
                d
            } else {
                before.anc(i)
            }
        &&& self.chain@ == Self::widened(before.chain@, before.at(a), d, x)
    }

    /// Where the cells of a link-in stand on the chain.
    proof fn lemma_link_positions(&self, a: usize, t: usize)
        requires
            self.inv(),
            self.arena.live(a),
            self.arena.cell(a).spec_is_aux(),
            self.arena.cell(a).spec_next() == Some(t),
            self.arena.live(t),
            self.arena.cell(t).spec_is_after_aux(),
        ensures
            0 <= self.at(a) < self.chain@.len() - 1,
            self.chain@[self.at(a)] == a,
            self.chain@[self.at(a) + 1] == t,
            self.standing(self.anc(a)),
            0 <= self.at(self.anc(a)) < self.at(a),
            self.chain@[self.at(self.anc(a))] == self.anc(a),
            self.slot_after(a) == values(self.arena, self.chain@.take(self.at(a) + 1)).len(),
            forall|j: int| 0 <= j < self.chain@.len() ==> (#[trigger] self.chain@[j]) < self.arena.capacity(),
    {
        let ch = self.chain@;
        assert(self.terminal(a));
        assert(ch.contains(a));
        let k = self.at(a);
        assert(0 <= k < ch.len() && ch[k] == a);
        assert(self.arena.live(ch[ch.len() - 1]));
        assert(k < ch.len() - 1);
        assert(self.linked(k));
        self.lemma_run(k);
        let r = self.run_start(k);
        self.lemma_chain_at(r);
        self.lemma_chain_at(k);
        assert forall|j: int| 0 <= j < ch.len() implies (#[trigger] ch[j]) < self.arena.capacity() by {
            assert(self.arena.live(ch[j]));
        }
    }

    #[verifier::rlimit(50)]
    proof fn lemma_linked_local(&self, before: &List<T>, a: usize, t: usize, x: usize, d: usize)
        requires
            self.link_step(before, a, t, x, d),
        ensures
            self.sentinels(),
            self.ranked(),
            self.anchored(),
            forall|i: usize| #[trigger] self.standing(i) == (before.standing(i) || i == d),
    {
        let a1 = before.arena;
        let a2 = self.arena;
        before.lemma_link_positions(a, t);
        assert(a1.sound(before.first));
        assert(a1.sound(a));
        assert(before.ranked_at(a));
        assert(before.ranked_at(t));
        assert(!a1.live(x) && !a1.live(d));
        assert(self.sentinels()) by {
            assert(a2.live(self.first));
            assert(a2.live(self.last));
            assert forall|i: usize| #[trigger] a2.live(i) implies (a2.cell(i).spec_is_first() ==> i
                == self.first) && (a2.cell(i).spec_is_last() ==> i == self.last) by {
                if i != x && i != d {
                    assert(a1.live(i));
                }
            }
        }
        assert forall|i: usize| #[trigger] self.standing(i) == (before.standing(i) || i == d) by {
            if a2.live(i) && i != x && i != d {
                assert(a1.live(i));
            }
            if a1.live(i) {
                assert(a2.live(i));
            }
        }
        assert forall|i: usize| a2.live(i) implies #[trigger] self.ranked_at(i) by {
            if i != x && i != d {
                assert(a1.live(i));
                assert(before.ranked_at(i));
                assert(a1.sound(i));
                if a1.cell(i).spec_backlink().is_some() {
                    assert(a1.live(a1.cell(i).spec_backlink().unwrap()));
                }
                if a1.cell(i).spec_next().is_some() {
                    assert(a1.live(a1.cell(i).spec_next().unwrap()));
                }
            }
        }
        assert forall|i: usize|
            a2.live(i) && !a2.cell(i).spec_is_last() implies #[trigger] self.anchored_at(i) by {
            if i != x && i != d {
                assert(a1.live(i));
                assert(before.anchored_at(i));
                assert(a1.sound(i));
                assert(a1.live(a1.cell(i).spec_next().unwrap()));
                assert(before.standing(before.anc(i)));
                assert(a1.live(before.anc(i)));
                if a1.cell(i).spec_backlink().is_some() {
                    assert(a1.live(a1.cell(i).spec_backlink().unwrap()));
                }
            } else {
                assert(self.standing(d));
            }
        }
    }

    #[verifier::rlimit(50)]
    proof fn lemma_linked_chain(&self, before: &List<T>, a: usize, t: usize, x: usize, d: usize)
        requires
            self.link_step(before, a, t, x, d),
            forall|i: usize| #[trigger] self.standing(i) == (before.standing(i) || i == d),
        ensures
            self.chained(),
    {
        let ch = before.chain@;
        let ch2 = self.chain@;
        let a1 = before.arena;
        let a2 = self.arena;
        let k = before.at(a);
        before.lemma_link_positions(a, t);
        assert(!a1.live(x) && !a1.live(d));
        assert(ch2.len() == ch.len() + 2);
        assert forall|j: int| 0 <= j < ch2.len() implies #[trigger] ch2[j] == if j <= k {
            ch[j]
        } else if j == k + 1 {
            d
        } else if j == k + 2 {
            x
        } else {
            ch[j - 2]
        } by {}
        assert forall|j: int| 0 <= j < ch2.len() implies a2.live(#[trigger] ch2[j]) by {
            if j <= k {
                assert(a1.live(ch[j]));
            } else if j > k + 2 {
                assert(a1.live(ch[j - 2]));
            }
        }
        assert forall|j: int| 0 <= j < ch2.len() - 1 implies #[trigger] self.linked(j) by {
            if j < k {
                before.lemma_chain_at(j);
                before.lemma_chain_at(k);
                assert(before.linked(j));
                assert(a1.live(ch[j]));
            } else if j <= k + 2 {
            } else {
                before.lemma_chain_at(j - 2);
                before.lemma_chain_at(k);
                assert(before.linked(j - 2));
                assert(a1.live(ch[j - 2]));
            }
        }
        assert forall|j: int| 0 <= j < ch2.len() implies a2.cell(
            #[trigger] ch2[j],
        ).spec_backlink().is_none() by {
            if j <= k {
                assert(a1.live(ch[j]));
                assert(a1.cell(ch[j]).spec_backlink().is_none());
            } else if j > k + 2 {
                assert(a1.live(ch[j - 2]));
                assert(a1.cell(ch[j - 2]).spec_backlink().is_none());
            }
        }
        assert forall|i: usize| #[trigger] self.standing(i) implies ch2.contains(i) by {
            if i == d {
                assert(ch2[k + 1] == d);
            } else {
                assert(before.standing(i));
                assert(ch.contains(i));
                let j = before.at(i);
                assert(ch[j] == i);
                if j <= k {
                    assert(ch2[j] == i);
                } else {
                    assert(ch2[j + 2] == i);
                }
            }
        }
        assert forall|i: usize| #[trigger] self.terminal(i) implies ch2.contains(i) by {
            if i == x {
                assert(ch2[k + 2] == x);
            } else if i == a {
                assert(ch2[k] == a);
            } else {
                assert(i != d);
                assert(a1.live(i));
                assert(a1.sound(i));
                assert(a1.live(a1.cell(i).spec_next().unwrap()));
                assert(before.terminal(i));
                assert(ch.contains(i));
                let j = before.at(i);
                assert(ch[j] == i);
                if j <= k {
                    assert(ch2[j] == i);
                } else {
                    assert(ch2[j + 2] == i);
                }
            }
        }
    }

    #[verifier::rlimit(50)]
    proof fn lemma_linked_values(&self, before: &List<T>, a: usize, t: usize, x: usize, d: usize)
        requires
            self.link_step(before, a, t, x, d),
            self.inv(),
        ensures
            0 <= before.slot_after(a) <= before@.len(),
            self@ == before@.insert(before.slot_after(a), self.arena.cell(d).spec_val().unwrap()),
            forall|i: usize|
                before.arena.live(i) && !before.arena.cell(i).spec_is_last() && before.anc(i)
                    == before.anc(a) ==> self.slot_after(i) == before.slot_after(i),
    {
        let ch = before.chain@;
        let ch2 = self.chain@;
        let a1 = before.arena;
        let a2 = self.arena;
        let k = before.at(a);
        before.lemma_link_positions(a, t);
        assert(!a1.live(x) && !a1.live(d));
        let head = ch.take(k + 1);
        let two = Seq::<usize>::empty().push(d).push(x);
        let rest = ch.skip(k + 1);
        assert(ch =~= head + rest);
        assert(ch2 == (head + two) + rest);
        lemma_values_concat(a2, head + two, rest);
        lemma_values_concat(a2, head, two);
        lemma_values_concat(a1, head, rest);
        assert forall|j: int| 0 <= j < head.len() implies a2.cell(#[trigger] head[j]).spec_val()
            == a1.cell(head[j]).spec_val() by {
            assert(head[j] == ch[j]);
            assert(a1.live(ch[j]));
        }
        lemma_values_same(a2, a1, head);
        assert forall|j: int| 0 <= j < rest.len() implies a2.cell(#[trigger] rest[j]).spec_val()
            == a1.cell(rest[j]).spec_val() by {
            assert(rest[j] == ch[j + k + 1]);
            assert(a1.live(ch[j + k + 1]));
        }
        lemma_values_same(a2, a1, rest);
        let v = a2.cell(d).spec_val().unwrap();
        assert(values(a2, two) =~= Seq::<T>::empty().push(v)) by {
            assert(two.drop_last() =~= Seq::<usize>::empty().push(d));
            assert(two.drop_last().drop_last() =~= Seq::<usize>::empty());
            assert(two.last() == x);
            assert(two.drop_last().last() == d);
            reveal_with_fuel(values, 3);
        }
        let vh = values(a1, head);
        let vr = values(a1, rest);
        assert((vh + vr).insert(vh.len() as int, v) =~= (vh + Seq::<T>::empty().push(v)) + vr);
        assert forall|i: usize|
            a1.live(i) && !a1.cell(i).spec_is_last() && before.anc(i) == before.anc(
                a,
            ) implies self.slot_after(i) == before.slot_after(i) by {
            let q = before.anc(a);
            let r = before.at(q);
            assert(ch2[r] == q);
            self.lemma_chain_at(r);
            assert(self.anc(i) == q);
            assert(ch2.take(r + 1) =~= ch.take(r + 1));
            let tk = ch.take(r + 1);
            assert forall|j: int| 0 <= j < tk.len() implies a2.cell(#[trigger] tk[j]).spec_val()
                == a1.cell(tk[j]).spec_val() by {
                assert(tk[j] == ch[j]);
                assert(a1.live(ch[j]));
            }
            lemma_values_same(a2, a1, tk);
        }
    }

    /// What deletions under way know survives a link-in.
    #[verifier::rlimit(50)]
    proof fn lemma_steady_linked(&self, before: &List<T>, a: usize, t: usize, x: usize, d: usize)
        requires
            self.link_step(before, a, t, x, d),
            forall|i: usize| #[trigger] self.standing(i) == (before.standing(i) || i == d),
        ensures
            self.steady(before),
    {
        let ch = before.chain@;
        let ch2 = self.chain@;
        let a1 = before.arena;
        let a2 = self.arena;
        let kpos = before.at(a);
        before.lemma_link_positions(a, t);
        assert(!a1.live(x) && !a1.live(d));
        assert forall|j: int| 0 <= j < ch2.len() implies #[trigger] ch2[j] == if j <= kpos {
            ch[j]
        } else if j == kpos + 1 {
            d
        } else if j == kpos + 2 {
            x
        } else {
            ch[j - 2]
        } by {}
        assert forall|p: usize, s: usize, n: usize| #[trigger]
            before.located(p, s, n) && a2.live(p) && a2.live(s) && a2.live(n) implies self.located(
            p,
            s,
            n,
        ) by {
            assert(self.standing(p) == (before.standing(p) || p == d));
            assert(a1.sound(p));
            assert(a1.live(a1.cell(p).spec_next().unwrap()));
        }
        assert forall|p: usize, s: usize, n: usize| #[trigger]
            before.aimed(p, s, n) && a2.live(p) && a2.live(s) && a2.live(n) implies self.aimed(
            p,
            s,
            n,
        ) by {
            assert(before.located(p, s, n));
            assert(self.located(p, s, n));
            assert(self.standing(p) == (before.standing(p) || p == d));
            if self.standing(p) && a2.cell(p).spec_next() == Some(s) {
                assert(ch.contains(n));
                let j = before.at(n);
                assert(0 <= j < ch.len() && ch[j] == n);
                if j <= kpos {
                    assert(ch2[j] == n);
                } else {
                    assert(ch2[j + 2] == n);
                }
            }
        }
    }

    /// After a link-in the places behind the new element are one higher.
    #[verifier::rlimit(50)]
    proof fn lemma_linked_places(&self, before: &List<T>, a: usize, t: usize, x: usize, d: usize)
        requires
            self.link_step(before, a, t, x, d),
            self.inv(),
        ensures
            self.shifted(before, before.slot_after(a), 1),
    {
        let ch = before.chain@;
        let ch2 = self.chain@;
        let a1 = before.arena;
        let a2 = self.arena;
        let kpos = before.at(a);
        before.lemma_link_positions(a, t);
        before.lemma_sentinels();
        let k = before.slot_after(a);
        assert(!a1.live(x) && !a1.live(d));
        assert forall|j: int| 0 <= j < ch2.len() implies #[trigger] ch2[j] == if j <= kpos {
            ch[j]
        } else if j == kpos + 1 {
            d
        } else if j == kpos + 2 {
            x
        } else {
            ch[j - 2]
        } by {}
        assert forall|i: usize|
            a1.live(i) && !a1.cell(i).spec_is_last() && a2.live(
                i,
            ) implies #[trigger] self.slot_after(i) == before.slot_after(i) + if before.slot_after(i)
            > k {
            1int
        } else {
            0int
        } by {
            assert(before.anchored_at(i));
            let q = before.anc(i);
            assert(before.standing(q));
            assert(ch.contains(q));
            let j = before.at(q);
            assert(0 <= j < ch.len() && ch[j] == q);
            assert(self.anc(i) == q);
            if j <= kpos {
                assert(ch2[j] == q);
                self.lemma_chain_at(j);
                let tk = ch.take(j + 1);
                assert(ch2.take(j + 1) =~= tk);
                assert forall|y: int| 0 <= y < tk.len() implies a2.cell(
                    #[trigger] tk[y],
                ).spec_val() == a1.cell(tk[y]).spec_val() by {
                    assert(tk[y] == ch[y]);
                    assert(a1.live(ch[y]));
                }
                lemma_values_same(a2, a1, tk);
                lemma_values_prefix(a1, ch, j + 1, kpos + 1);
            } else {
                assert(ch2[j + 2] == q);
                self.lemma_chain_at(j + 2);
                let head = ch.take(kpos + 1);
                let two = Seq::<usize>::empty().push(d).push(x);
                let mid = ch.subrange(kpos + 1, j + 1);
                let t2 = ch2.take(j + 3);
                assert(t2 =~= (head + two) + mid);
                assert(ch.take(j + 1) =~= head + mid);
                lemma_values_concat(a2, head + two, mid);
                lemma_values_concat(a2, head, two);
                lemma_values_concat(a1, head, mid);
                assert forall|y: int| 0 <= y < head.len() implies a2.cell(
                    #[trigger] head[y],
                ).spec_val() == a1.cell(head[y]).spec_val() by {
                    assert(head[y] == ch[y]);
                    assert(a1.live(ch[y]));
                }
                lemma_values_same(a2, a1, head);
                assert forall|y: int| 0 <= y < mid.len() implies a2.cell(
                    #[trigger] mid[y],
                ).spec_val() == a1.cell(mid[y]).spec_val() by {
                    assert(mid[y] == ch[y + kpos + 1]);
                    assert(a1.live(ch[y + kpos + 1]));
                }
                lemma_values_same(a2, a1, mid);
                let v = a2.cell(d).spec_val().unwrap();
                assert(values(a2, two) =~= Seq::<T>::empty().push(v)) by {
                    assert(two.drop_last() =~= Seq::<usize>::empty().push(d));
                    assert(two.drop_last().drop_last() =~= Seq::<usize>::empty());
                    assert(two.last() == x);
                    assert(two.drop_last().last() == d);
                    reveal_with_fuel(values, 3);
                }
                // the anchor is a data cell behind the new element: it counts itself
                assert(a1.cell(q).spec_is_data_cell()) by {
                    before.lemma_chain_at(0);
                }
                lemma_values_step(a1, ch, j);
                lemma_values_prefix(a1, ch, kpos + 1, j);
            }
        }
    }

    /// Links a new element in between the marker cell `a` and `t`: a fresh
    /// data cell that leads to a fresh marker cell that leads to `t`, put in
    /// by one compare-and-swap on the `next` link of `a`.  If `a` no longer
    /// leads to `t`, the fresh pair is torn down again.
    #[verifier::rlimit(50)]
    fn link_in(&mut self, a: usize, t: usize, val: T) -> (linked: Result<(), crate::error::Error>)
        requires
            old(self).inv(),
            old(self).mem().live(a),
            old(self).mem().cell(a).spec_is_aux(),
            old(self).mem().live(t),
            old(self).mem().cell(t).spec_is_after_aux(),
            old(self).mem().covered(t, 1),
        ensures
            final(self).inv(),
            final(self).first == old(self).first,
            final(self).last == old(self).last,
            linked == if old(self).mem().cell(a).spec_next() == Some(t) {
                Ok::<(), crate::error::Error>(())
            } else {
                Err::<(), crate::error::Error>(crate::error::Error::Conflict)
            },
            linked.is_err() ==> {
                &&& final(self).carried(old(self))
                &&& final(self)@ == old(self)@
                &&& forall|i: usize| final(self).slot_after(i) == old(self).slot_after(i)
            },
            linked.is_ok() ==> {
                &&& 0 <= old(self).slot_after(a) <= old(self)@.len()
                &&& final(self)@ == old(self)@.insert(old(self).slot_after(a), val)
                &&& forall|i: usize|
                    old(self).mem().live(i) && !old(self).mem().cell(i).spec_is_last() && old(self).anc(i) == old(self).anc(a) ==> final(self).slot_after(i) == old(self).slot_after(i)
                &&& forall|i: usize|
                    old(self).mem().live(i) ==> #[trigger] final(self).anc(i) == old(self).anc(i)
                &&& forall|i: usize, j: usize|
                    old(self).mem().live(i) && old(self).mem().live(j) && old(self).rk(i) < old(self).rk(j) ==> #[trigger] final(self).rk(i) < #[trigger] final(self).rk(j)
                &&& final(self).mem().cell(a).spec_next() != Some(t)
                &&& final(self).pair_behind(a, val, t)
                &&& forall|i: usize| #[trigger]
                    final(self).mem().live(i) && old(self).mem().live(i) && i != a ==> final(self).mem().cell(i).spec_next() == old(self).mem().cell(i).spec_next()
            },
            final(self).mem().settled(&old(self).mem()),
            final(self).evolved(old(self)),
            final(self).shifted(
                old(self),
                old(self).slot_after(a),
                if linked.is_ok() {
                    1int
                } else {
                    0int
                },
            ),
            forall|i: usize|
                !old(self).mem().live(i) && #[trigger] final(self).mem().live(i) ==> final(self).mem().held(i) == 0,
            forall|i: usize, k: int|
                k >= 1 && old(self).arena.covered(i, k) ==> #[trigger] final(self).arena.covered(
                    i,
                    k,
                ),
    {
        let ghost start = *self;
        self.acquire(t);
        let ghost before = *self;
        proof {
            assert(before.arena.sound(a));
            assert(before.arena.sound(t));
            assert(before.arena.sound(before.first));
        }
        let x = self.arena.allocate(Cell::new_aux(t));
        let ghost a2 = self.arena;
        let d = self.arena.allocate(Cell::new_data(val, x));
        let ghost a3 = self.arena;
        let swapped = self.arena.swap_in_next(a, t, d);
        match swapped {
            Ok(was) => {
                proof {
                    let k = before.at(a);
                    self.chain@ = Self::widened(before.chain@, k, d, x);
                    let old_rank = before.rank@;
                    let old_anchor = before.anchor@;
                    self.rank@ = |i: usize|
                        if i == d {
                            3 * old_rank(t) + 2
                        } else if i == x {
                            3 * old_rank(t) + 1
                        } else {
                            3 * old_rank(i)
                        };
                    self.anchor@ = |i: usize|
                        if i == d || i == x {
                            d
                        } else {
                            old_anchor(i)
                        };
                    assert(self.link_step(&before, a, t, x, d));
                    self.lemma_linked_local(&before, a, t, x, d);
                    self.lemma_linked_chain(&before, a, t, x, d);
                    self.lemma_linked_values(&before, a, t, x, d);
                    self.lemma_linked_places(&before, a, t, x, d);
                    self.lemma_steady_linked(&before, a, t, x, d);
                    before.lemma_link_positions(a, t);
                    assert(self.evolved(&before)) by {
                        assert forall|i: usize| #[trigger]
                            self.arena.live(i) && before.arena.live(i) implies self.arena.cell(
                            i,
                        ).same_payload(&before.arena.cell(i)) by {}
                    }
                    self.lemma_evolved_trans(&before, &start);
                }
                let ghost linked_now = *self;
                let ghost a5 = self.arena;
                self.let_go(was);
                proof {
                    let a6 = self.arena;
                    assert forall|i: usize, j: usize|
                        start.arena.live(i) && start.arena.live(j) && start.rk(i) < start.rk(
                            j,
                        ) implies #[trigger] self.rk(i) < #[trigger] self.rk(j) by {}
                    assert forall|i: usize| start.arena.live(i) implies #[trigger] self.anc(i)
                        == start.anc(i) by {}
                    assert forall|i: usize| #[trigger] a5.live(i) && start.arena.live(i) implies {
                        &&& a5.cell(i).same_payload(&start.arena.cell(i))
                        &&& a5.cell(i).spec_backlink() == start.arena.cell(i).spec_backlink()
                        &&& i != a ==> a5.cell(i).spec_next() == start.arena.cell(i).spec_next()
                        &&& start.arena.immortal(i) ==> a5.immortal(i)
                        &&& !a5.immortal(i) ==> a5.held(i) == start.arena.held(i) + if i == t {
                            1int
                        } else {
                            0int
                        }
                    } by {
                        assert(before.arena.live(i));
                        assert(a2.cell(i) == before.arena.cell(i));
                        assert(a3.cell(i) == a2.cell(i));
                        assert(a2.held(i) == before.arena.held(i) - if i == t {
                            1int
                        } else {
                            0int
                        });
                        assert(a3.held(i) == a2.held(i));
                        assert(a5.held(i) == a3.held(i) + if i == t {
                            1int
                        } else {
                            0int
                        });
                        if i != t {
                            assert(before.arena.cell(i) == start.arena.cell(i));
                            assert(before.arena.held(i) == start.arena.held(i));
                        }
                    }
                    assert(a5.held(d) == 0 && a5.held(x) == 0) by {
                        assert(a3.held(x) == a2.held(x) - 1);
                        assert(a5.held(d) == a3.held(d) - 1);
                        assert(a5.held(x) == a3.held(x));
                    }
                    assert forall|i: usize| #[trigger] a6.live(i) && start.arena.live(i) implies {
                        &&& a6.cell(i).same_payload(&start.arena.cell(i))
                        &&& a6.cell(i).spec_backlink() == start.arena.cell(i).spec_backlink()
                        &&& start.arena.immortal(i) ==> a6.immortal(i)
                        &&& !a6.immortal(i) ==> a6.held(i) == start.arena.held(i)
                    } by {
                        assert(a5.live(i));
                    }
                    assert forall|i: usize|
                        start.arena.live(i) && !#[trigger] a6.live(i) implies {
                        &&& !start.arena.immortal(i)
                        &&& start.arena.cell(i).spec_is_data_cell() || start.arena.cell(
                            i,
                        ).spec_is_aux()
                        &&& start.arena.held(i) == 0
                    } by {
                        assert(a5.live(i));
                    }
                    assert forall|i: usize|
                        !start.arena.live(i) && #[trigger] a6.live(i) implies a6.held(i) == 0 by {
                        assert(a5.live(i));
                        assert(i == x || i == d);
                    }
                    assert forall|i: usize| #[trigger]
                        a6.live(i) && start.arena.live(i) && i != a implies a6.cell(i).spec_next()
                        == start.arena.cell(i).spec_next() by {
                        assert(a5.live(i));
                    }
                    assert(a6.live(a)) by {
                        assert(a5.live(self.chain@[before.at(a)]));
                    }
                    assert(val == a5.cell(d).spec_val().unwrap()) by {
                        assert(a5.cell(d) == a3.cell(d));
                    }
                    assert(self.pair_behind(a, val, t)) by {
                        let k = before.at(a);
                        assert(linked_now.chain@[k] == a);
                        assert(linked_now.chain@[k + 1] == d);
                        assert(linked_now.chain@[k + 2] == x);
                        assert(a6.live(linked_now.chain@[k]));
                        assert(a6.live(linked_now.chain@[k + 1]));
                        assert(a6.live(linked_now.chain@[k + 2]));
                        assert(a5.cell(x) == a3.cell(x));
                        assert(a3.cell(x) == a2.cell(x));
                    }
                    assert(start.slot_after(a) == before.slot_after(a));
                    linked_now.lemma_keep_then_shift(&before, &start, start.slot_after(a), 1);
                    self.lemma_shift_then_keep(&linked_now, &start, start.slot_after(a), 1);
                    self.lemma_evolved_trans(&linked_now, &start);
                }
                Ok(())
            },
            Err(_) => {
                let ghost a3b = self.arena;
                release(&mut self.arena, d);
                proof {
                    let a4 = self.arena;
                    assert(a3b@ == a3@);
                    assert forall|j: usize| a3.live(j) implies #[trigger] a3.cell(j).spec_next()
                        != Some(d) && a3.cell(j).spec_backlink() != Some(d) && (j != d
                        ==> a3.cell(j).spec_next() != Some(x)) && a3.cell(j).spec_backlink()
                        != Some(x) by {
                        if j != x && j != d {
                            assert(a2.live(j));
                            assert(before.arena.live(j));
                            assert(before.arena.sound(j));
                            assert(a2.cell(j) == before.arena.cell(j));
                            assert(a3.cell(j) == a2.cell(j));
                            let c = before.arena.cell(j);
                            if c.spec_next().is_some() {
                                assert(before.arena.live(c.spec_next().unwrap()));
                            }
                            if c.spec_backlink().is_some() {
                                assert(before.arena.live(c.spec_backlink().unwrap()));
                            }
                        } else if j == x {
                            assert(a3.cell(x) == a2.cell(x));
                        }
                    }
                    assert forall|j: usize| #[trigger] a4.live(j) implies a4.cell(j).spec_next()
                        != Some(d) && a4.cell(j).spec_backlink() != Some(d) by {
                        assert(a3b.live(j));
                        assert(a3.live(j));
                        assert(a3b.cell(j) == a3.cell(j));
                    }
                    a4.lemma_unreferenced(d);
                    if a4.live(d) {
                        assert(a4.sound(d));
                        assert(a3b.cell(d) == a3.cell(d));
                    }
                    assert(!a4.live(d));
                    assert forall|j: usize| #[trigger] a4.live(j) implies a4.cell(j).spec_next()
                        != Some(x) && a4.cell(j).spec_backlink() != Some(x) by {
                        assert(a3b.live(j));
                        assert(a3.live(j));
                        assert(a3b.cell(j) == a3.cell(j));
                    }
                    a4.lemma_unreferenced(x);
                    if a4.live(x) {
                        assert(a4.sound(x));
                        assert(a3b.cell(x) == a3.cell(x));
                        assert(a3.cell(x) == a2.cell(x));
                        assert(a3b.held(x) == a3.held(x));
                        assert(a3.held(x) == a2.held(x) - 1);
                    }
                    assert(!a4.live(x));
                    assert forall|i: usize| #[trigger] a4.live(i) implies before.arena.live(i)
                        && a4.cell(i).same_payload(&before.arena.cell(i)) && a4.cell(i).spec_next()
                        == before.arena.cell(i).spec_next() && a4.cell(i).spec_backlink()
                        == before.arena.cell(i).spec_backlink() by {
                        assert(a3b.live(i));
                        assert(a3.live(i));
                        assert(a3b.cell(i) == a3.cell(i));
                        assert(a2.live(i));
                        assert(a3.cell(i) == a2.cell(i));
                        assert(a2.cell(i) == before.arena.cell(i));
                    }
                    assert(self.carried(&before));
                    self.lemma_carried_evolved(&before);
                    self.lemma_evolved_trans(&before, &start);
                    assert forall|i: usize| #[trigger] a4.live(i) && start.arena.live(i) implies {
                        &&& start.arena.immortal(i) ==> a4.immortal(i)
                        &&& !a4.immortal(i) ==> a4.held(i) == start.arena.held(i)
                    } by {
                        assert(a3b.live(i));
                        assert(a3b.cell(i) == a3.cell(i));
                        assert(a3b.held(i) == a3.held(i));
                        assert(a3.cell(i) == a2.cell(i));
                        assert(a2.cell(i) == before.arena.cell(i));
                        assert(a3.held(i) == a2.held(i));
                        assert(a2.held(i) == before.arena.held(i) - if i == t {
                            1int
                        } else {
                            0int
                        });
                        if i != t {
                            assert(before.arena.cell(i) == start.arena.cell(i));
                            assert(before.arena.held(i) == start.arena.held(i));
                        }
                    }
                    assert forall|i: usize|
                        start.arena.live(i) && !#[trigger] a4.live(i) implies {
                        &&& !start.arena.immortal(i)
                        &&& start.arena.cell(i).spec_is_data_cell() || start.arena.cell(
                            i,
                        ).spec_is_aux()
                        &&& start.arena.held(i) == 0
                    } by {
                        assert(a3.live(i));
                        assert(a3b.live(i));
                        assert(a3b.cell(i) == a3.cell(i));
                        assert(a3b.held(i) == a3.held(i));
                        assert(a3.cell(i) == a2.cell(i));
                        assert(a2.cell(i) == before.arena.cell(i));
                        assert(a3.held(i) == a2.held(i));
                        assert(a2.held(i) == before.arena.held(i) - if i == t {
                            1int
                        } else {
                            0int
                        });
                        if i != t {
                            assert(before.arena.cell(i) == start.arena.cell(i));
                            assert(before.arena.held(i) == start.arena.held(i));
                        }
                    }
                    assert(a4.covered(self.first, 1)) by {
                        assert(a4.live(self.first));
                        assert(start.arena.sound(start.first));
                    }
                    self.lemma_carried(&before);
                }
                Err(crate::error::Error::Conflict)
            },
        }
    }

    /// How many handles on cell `i` are the list's own: one on the head.
    pub closed spec fn own(&self, i: usize) -> int {
        if i == self.first {
            1
        } else {
            0
        }
    }

    /// On cell `i`, the counters account for `k` handles besides the list's own.
    pub closed spec fn keeps(&self, i: usize, k: int) -> bool {
        self.arena.covered(i, k + self.own(i))
    }

    /// What the sentinels are.
    proof fn lemma_sentinels(&self)
        requires
            self.inv(),
        ensures
            self.arena.live(self.first),
            self.arena.live(self.last),
            self.arena.cell(self.first).spec_is_first(),
            self.arena.cell(self.last).spec_is_last(),
            forall|i: usize| #[trigger]
                self.arena.live(i) ==> {
                    &&& self.arena.cell(i).spec_is_first() <==> i == self.first
                    &&& self.arena.cell(i).spec_is_last() <==> i == self.last
                },
    {
    }

    /// What follows a marker cell that leads to a data cell or to the tail.
    proof fn lemma_target_value(&self, a: usize, t: usize)
        requires
            self.inv(),
            self.arena.live(a),
            self.arena.cell(a).spec_is_aux(),
            self.arena.cell(a).spec_next() == Some(t),
            self.arena.live(t),
            self.arena.cell(t).spec_is_after_aux(),
        ensures
            0 <= self.slot_after(a) <= self@.len(),
            t == self.last <==> self.slot_after(a) == self@.len(),
            t != self.last ==> self.arena.cell(t).spec_val() == Some(self@[self.slot_after(a)]),
            t != self.last ==> self.slot_after(t) == self.slot_after(a) + 1,
    {
        let ch = self.chain@;
        let k = self.at(a);
        self.lemma_link_positions(a, t);
        self.lemma_sentinels();
        let head = ch.take(k + 1);
        let rest = ch.skip(k + 1);
        assert(ch =~= head + rest);
        lemma_values_concat(self.arena, head, rest);
        if t == self.last {
            self.lemma_chain_at(k + 1);
            self.lemma_chain_at(ch.len() - 1);
            assert(rest.len() == 1);
            assert forall|j: int| 0 <= j < rest.len() implies self.arena.cell(
                #[trigger] rest[j],
            ).spec_val().is_none() by {}
            lemma_values_none(self.arena, rest);
        } else {
            let one = ch.subrange(k + 1, k + 2);
            let tail = ch.skip(k + 2);
            assert(rest =~= one + tail);
            lemma_values_concat(self.arena, one, tail);
            let v = self.arena.cell(t).spec_val().unwrap();
            assert(values(self.arena, one) =~= Seq::<T>::empty().push(v)) by {
                assert(one.drop_last() =~= Seq::<usize>::empty());
                assert(one.last() == t);
                reveal_with_fuel(values, 2);
            }
            assert(self.standing(t)) by {
                assert(self.arena.cell(ch[k + 1]).spec_backlink().is_none());
            }
            assert(self.anchored_at(t));
            self.lemma_chain_at(k + 1);
            assert(ch.take(k + 2) =~= head + one);
            lemma_values_concat(self.arena, head, one);
        }
    }

    /// The marker cell behind the first marker cell of a run is on the chain.
    proof fn lemma_next_on_chain(&self, at: usize, p: usize, n: usize)
        requires
            self.inv(),
            self.arena.live(at),
            self.arena.cell(at).is_normal(),
            self.arena.live(p),
            self.arena.cell(p).spec_is_aux(),
            self.arena.cell(p).spec_next() == Some(n),
        ensures
            self.standing(at) && self.arena.cell(at).spec_next() == Some(p) ==> self.chain@.contains(
                n,
            ),
    {
        if self.standing(at) && self.arena.cell(at).spec_next() == Some(p) {
            let ch = self.chain@;
            assert(ch.contains(at));
            let k = self.at(at);
            assert(0 <= k < ch.len() && ch[k] == at);
            assert(self.arena.live(ch[ch.len() - 1]));
            self.lemma_sentinels();
            assert(k < ch.len() - 1);
            assert(self.linked(k));
            assert(ch[k + 1] == p);
            assert(k + 1 < ch.len() - 1);
            assert(self.linked(k + 1));
            assert(ch[k + 2] == n);
        }
    }

    /// No element stands before the position behind the head.
    proof fn lemma_head_slot(&self)
        requires
            self.inv(),
        ensures
            self.slot_after(self.first) == 0,
    {
        let ch = self.chain@;
        self.lemma_sentinels();
        assert(self.standing(self.first));
        assert(self.anchored_at(self.first));
        self.lemma_chain_at(0);
        let t = ch.take(1);
        assert forall|j: int| 0 <= j < t.len() implies self.arena.cell(
            #[trigger] t[j],
        ).spec_val().is_none() by {}
        lemma_values_none(self.arena, t);
    }

    /// Where the cells that are in both lists stand.  The place of a cell is
    /// the index at which an element inserted behind its run would stand: for
    /// the data cell or head that a cursor has passed last, that is the
    /// cursor's position.  The places behind index `k` have moved by `d`, the
    /// others are what they were.
    pub closed spec fn shifted(&self, before: &List<T>, k: int, d: int) -> bool {
        forall|i: usize|
            before.arena.live(i) && !before.arena.cell(i).spec_is_last() && self.arena.live(i)
                ==> #[trigger] self.slot_after(i) == before.slot_after(i) + if before.slot_after(i)
                > k {
                d
            } else {
                0
            }
    }

    /// Nothing has moved in a list as it is.
    pub proof fn lemma_kept(&self)
        ensures
            self.shifted(self, 0, 0),
    {
    }

    /// A shift by nothing keeps every place.
    pub proof fn lemma_shift_same(&self, before: &List<T>, k: int)
        requires
            self.shifted(before, k, 0),
        ensures
            self.shifted(before, 0, 0),
    {
    }

    /// A shift, followed by steps that keep every place.
    pub proof fn lemma_shift_then_keep(&self, mid: &List<T>, before: &List<T>, k: int, d: int)
        requires
            mid.shifted(before, k, d),
            self.shifted(mid, 0, 0),
            self.evolved(mid),
            mid.evolved(before),
        ensures
            self.shifted(before, k, d),
    {
        assert forall|i: usize|
            before.arena.live(i) && !before.arena.cell(i).spec_is_last() && self.arena.live(
                i,
            ) implies #[trigger] self.slot_after(i) == before.slot_after(i) + if before.slot_after(i)
            > k {
            d
        } else {
            0
        } by {
            assert(mid.arena.live(i));
            assert(mid.slot_after(i) == before.slot_after(i) + if before.slot_after(i) > k {
                d
            } else {
                0
            });
        }
    }

    /// Steps that keep every place, followed by a shift.
    pub proof fn lemma_keep_then_shift(&self, mid: &List<T>, before: &List<T>, k: int, d: int)
        requires
            mid.shifted(before, 0, 0),
            self.shifted(mid, k, d),
            self.evolved(mid),
            mid.evolved(before),
        ensures
            self.shifted(before, k, d),
    {
        assert forall|i: usize|
            before.arena.live(i) && !before.arena.cell(i).spec_is_last() && self.arena.live(
                i,
            ) implies #[trigger] self.slot_after(i) == before.slot_after(i) + if before.slot_after(i)
            > k {
            d
        } else {
            0
        } by {
            assert(mid.arena.live(i));
            assert(mid.slot_after(i) == before.slot_after(i));
        }
    }

    /// What a deletion that is under way knows of the cell `p` in front of the
    /// run that it is going to cut, of the marker cell `s` that it found
    /// behind `p`, and of the marker cell `n` that it is going to cut up to:
    /// they belong to one run, and the `next` link of `p` has not gone back
    /// behind `s`.
    spec fn located(&self, p: usize, s: usize, n: usize) -> bool {
        &&& self.arena.live(p)
        &&& self.arena.cell(p).is_normal()
        &&& self.arena.live(s)
        &&& self.arena.cell(s).spec_is_aux()
        &&& self.arena.live(n)
        &&& self.arena.cell(n).spec_is_aux()
        &&& self.anc(n) == self.anc(p)
        &&& self.rk(n) < self.rk(p)
        &&& self.standing(p) ==> self.rk(self.arena.cell(p).spec_next().unwrap()) <= self.rk(s)
    }

    /// What it knows once it has found the last marker cell of the run: as
    /// long as `p` still leads to `s`, the cell `n` is in the list, at `s` or behind it.
    spec fn aimed(&self, p: usize, s: usize, n: usize) -> bool {
        &&& self.located(p, s, n)
        &&& self.standing(p) && self.arena.cell(p).spec_next() == Some(s) ==> self.chain@.contains(n)
            && self.rk(n) <= self.rk(s)
    }

    /// What deletions under way know stays true.
    spec fn steady(&self, before: &List<T>) -> bool {
        &&& forall|p: usize, s: usize, n: usize| #[trigger]
            before.located(p, s, n) && self.arena.live(p) && self.arena.live(s) && self.arena.live(
                n,
            ) ==> self.located(p, s, n)
        &&& forall|p: usize, s: usize, n: usize| #[trigger]
            before.aimed(p, s, n) && self.arena.live(p) && self.arena.live(s) && self.arena.live(n)
                ==> self.aimed(p, s, n)
    }

    /// `self` came out of `before` by operations of cursors: no cell came
    /// back after it was reclaimed, the cells that are still there hold what
    /// they held, and they stand in the same order and in the same runs
    /// relative to each other.
    pub closed spec fn evolved(&self, before: &List<T>) -> bool {
        &&& self.first == before.first
        &&& self.last == before.last
        &&& before.arena.capacity() <= self.arena.capacity()
        &&& forall|i: usize| #[trigger]
            self.arena.live(i) && i < before.arena.capacity() ==> before.arena.live(i)
        &&& forall|i: usize| #[trigger]
            self.arena.live(i) && before.arena.live(i) ==> self.arena.cell(i).same_payload(
                &before.arena.cell(i),
            )
        &&& forall|i: usize, j: usize|
            #![trigger self.rk(i), self.rk(j)]
            self.arena.live(i) && self.arena.live(j) && before.arena.live(i) && before.arena.live(j)
                && before.rk(i) > before.rk(j) ==> self.rk(i) > self.rk(j)
        &&& forall|i: usize, j: usize|
            #![trigger self.anc(i), self.anc(j)]
            self.arena.live(i) && self.arena.live(j) && before.arena.live(i) && before.arena.live(j)
                && before.anc(i) == before.anc(j) ==> self.anc(i) == self.anc(j)
        &&& self.steady(before)
    }

    /// A list has evolved from itself.
    pub proof fn lemma_evolved_refl(&self)
        ensures
            self.evolved(self),
    {
    }

    /// What evolved from a list that evolved from `before` evolved from `before`.
    pub proof fn lemma_evolved_trans(&self, mid: &List<T>, before: &List<T>)
        requires
            self.evolved(mid),
            mid.evolved(before),
        ensures
            self.evolved(before),
    {
        assert forall|i: usize| #[trigger]
            self.arena.live(i) && i < before.arena.capacity() implies before.arena.live(i) by {
            assert(mid.arena.live(i));
        }
        assert forall|i: usize| #[trigger]
            self.arena.live(i) && before.arena.live(i) implies self.arena.cell(i).same_payload(
            &before.arena.cell(i),
        ) by {
            assert(mid.arena.live(i));
        }
        assert forall|i: usize, j: usize|
            #![trigger self.rk(i), self.rk(j)]
            self.arena.live(i) && self.arena.live(j) && before.arena.live(i) && before.arena.live(j)
                && before.rk(i) > before.rk(j) implies self.rk(i) > self.rk(j) by {
            assert(mid.arena.live(i) && mid.arena.live(j));
            assert(mid.rk(i) > mid.rk(j));
        }
        assert forall|i: usize, j: usize|
            #![trigger self.anc(i), self.anc(j)]
            self.arena.live(i) && self.arena.live(j) && before.arena.live(i) && before.arena.live(j)
                && before.anc(i) == before.anc(j) implies self.anc(i) == self.anc(j) by {
            assert(mid.arena.live(i) && mid.arena.live(j));
            assert(mid.anc(i) == mid.anc(j));
        }
        assert forall|p: usize, s: usize, n: usize| #[trigger]
            before.located(p, s, n) && self.arena.live(p) && self.arena.live(s) && self.arena.live(
                n,
            ) implies self.located(p, s, n) by {
            assert(mid.arena.live(p) && mid.arena.live(s) && mid.arena.live(n));
            assert(mid.located(p, s, n));
        }
        assert forall|p: usize, s: usize, n: usize| #[trigger]
            before.aimed(p, s, n) && self.arena.live(p) && self.arena.live(s) && self.arena.live(
                n,
            ) implies self.aimed(p, s, n) by {
            assert(mid.arena.live(p) && mid.arena.live(s) && mid.arena.live(n));
            assert(mid.aimed(p, s, n));
        }
    }

    /// A change of counters, with or without reclaiming, is an evolution.
    proof fn lemma_carried_evolved(&self, before: &List<T>)
        requires
            self.carried(before),
            self.arena.capacity() >= before.arena.capacity(),
        ensures
            self.evolved(before),
    {
        assert forall|p: usize, s: usize, n: usize| #[trigger]
            before.located(p, s, n) && self.arena.live(p) && self.arena.live(s) && self.arena.live(
                n,
            ) implies self.located(p, s, n) by {
            assert(self.standing(p) ==> before.standing(p));
        }
        assert forall|p: usize, s: usize, n: usize| #[trigger]
            before.aimed(p, s, n) && self.arena.live(p) && self.arena.live(s) && self.arena.live(
                n,
            ) implies self.aimed(p, s, n) by {
            assert(self.standing(p) ==> before.standing(p));
            assert(before.located(p, s, n));
        }
    }

    /// Takes a handle on cell `q`.
    fn acquire(&mut self, q: usize)
        requires
            old(self).inv(),
            old(self).arena.live(q),
        ensures
            final(self).inv(),
            final(self).carried(old(self)),
            final(self)@ == old(self)@,
            final(self).arena.acquired(&old(self).arena, q),
            final(self).evolved(old(self)),
            final(self).shifted(old(self), 0, 0),
            forall|i: usize| final(self).slot_after(i) == old(self).slot_after(i),
            forall|i: usize, k: int|
                old(self).arena.covered(i, if i == q { k - 1 } else { k })
                    ==> #[trigger] final(self).arena.covered(i, k),
    {
        let ghost before = *self;
        safe_read_ptr(&mut self.arena, q);
        proof {
            assert(before.arena.sound(before.first));
            self.lemma_carried(&before);
            self.lemma_carried_evolved(&before);
            assert forall|i: usize, k: int|
                before.arena.covered(i, if i == q { k - 1 } else { k })
                implies #[trigger] self.arena.covered(i, k) by {
                self.arena.lemma_acquired_keeps(&before.arena, q, i, if i == q { k - 1 } else { k });
            }
        }
    }

    /// Takes a handle on the cell that follows cell `at`.
    fn acquire_next(&mut self, at: usize) -> (q: usize)
        requires
            old(self).inv(),
            old(self).arena.live(at),
            !old(self).arena.cell(at).spec_is_last(),
        ensures
            Some(q) == old(self).arena.cell(at).spec_next(),
            final(self).inv(),
            final(self).carried(old(self)),
            final(self)@ == old(self)@,
            final(self).arena.acquired(&old(self).arena, q),
            final(self).evolved(old(self)),
            final(self).shifted(old(self), 0, 0),
            forall|i: usize| final(self).slot_after(i) == old(self).slot_after(i),
            forall|i: usize, k: int|
                old(self).arena.covered(i, if i == q { k - 1 } else { k })
                    ==> #[trigger] final(self).arena.covered(i, k),
    {
        let ghost before = *self;
        let q = safe_read(&mut self.arena, at);
        proof {
            assert(before.arena.sound(before.first));
            self.lemma_carried(&before);
            self.lemma_carried_evolved(&before);
            assert forall|i: usize, k: int|
                before.arena.covered(i, if i == q { k - 1 } else { k })
                implies #[trigger] self.arena.covered(i, k) by {
                self.arena.lemma_acquired_keeps(&before.arena, q, i, if i == q { k - 1 } else { k });
            }
        }
        q
    }

    /// Takes a handle on the cell that the back link of cell `at` leads to, if any.
    fn acquire_back(&mut self, at: usize) -> (q: Option<usize>)
        requires
            old(self).inv(),
            old(self).arena.live(at),
        ensures
            q == old(self).arena.cell(at).spec_backlink(),
            final(self).inv(),
            final(self).arena.capacity() == old(self).arena.capacity(),
            final(self).carried(old(self)),
            final(self).evolved(old(self)),
            final(self).shifted(old(self), 0, 0),
            final(self)@ == old(self)@,
            forall|i: usize| final(self).slot_after(i) == old(self).slot_after(i),
            forall|i: usize, k: int|
                old(self).arena.covered(i, if Some(i) == q { k - 1 } else { k })
                    ==> #[trigger] final(self).arena.covered(i, k),
    {
        let ghost before = *self;
        let q = safe_read_backlink(&mut self.arena, at);
        proof {
            assert(before.arena.sound(before.first));
            if q.is_some() {
                self.lemma_carried(&before);
                self.lemma_carried_evolved(&before);
                assert forall|i: usize, k: int|
                    before.arena.covered(i, if Some(i) == q { k - 1 } else { k })
                    implies #[trigger] self.arena.covered(i, k) by {
                    self.arena.lemma_acquired_keeps(
                        &before.arena,
                        q.unwrap(),
                        i,
                        if Some(i) == q { k - 1 } else { k },
                    );
                }
            } else {
                self.arena.lemma_wf_by_view(&before.arena);
                self.lemma_carried(&before);
                self.lemma_carried_evolved(&before);
            }
        }
        q
    }

    /// Gives up the handle `p`, which is not the list's own handle on its head.
    fn let_go(&mut self, p: usize)
        requires
            old(self).inv(),
            old(self).arena.covered(p, 1 + old(self).own(p)),
        ensures
            final(self).inv(),
            final(self).carried(old(self)),
            final(self)@ == old(self)@,
            final(self).arena.released(&old(self).arena, p),
            final(self).evolved(old(self)),
            final(self).shifted(old(self), 0, 0),
            forall|i: usize| final(self).slot_after(i) == old(self).slot_after(i),
            forall|i: usize, k: int|
                k >= 1 && old(self).arena.covered(i, if i == p { k + 1 } else { k })
                    ==> #[trigger] final(self).arena.covered(i, k),
    {
        let ghost before = *self;
        release(&mut self.arena, p);
        proof {
            assert(before.arena.sound(before.first));
            assert(self.arena.live(self.first));
            self.lemma_carried(&before);
            self.lemma_carried_evolved(&before);
            assert forall|i: usize, k: int|
                k >= 1 && before.arena.covered(i, if i == p { k + 1 } else { k })
                implies #[trigger] self.arena.covered(i, k) by {
                self.arena.lemma_released_keeps(&before.arena, p, i, k);
            }
        }
    }

    /// The memory that the cells live in.
    pub fn arena(&self) -> (arena: &Arena<T>)
        ensures
            *arena == self.mem(),
    {
        &self.arena
    }

    /// The head sentinel.
    pub fn first_cell(&self) -> (first: usize)
        ensures
            first == self.head(),
    {
        self.first
    }

    /// The tail sentinel.
    pub fn last_cell(&self) -> (last: usize)
        ensures
            last == self.tail(),
    {
        self.last
    }

    /// The sentinels are built tail first: the tail, a marker cell in front
    /// of it, and the head in front of the marker cell.
    pub fn new() -> (list: List<T>)
        ensures
            list.inv(),
            list@ == Seq::<T>::empty(),
            list.mem().capacity() == 3,
            list.mem().population() == 3,
            list.mem().cell(list.head()) == Cell::<T>::Dummy(
                crate::cell::Dummy::First(
                    crate::cell::Links {
                        next: Some(1usize),
                        back_link: None,
                        ref_counter: 1,
                        claimed: false,
                    },
                ),
            ),
            list.mem().cell(1usize) == (Cell::<T>::Aux {
                links: crate::cell::Links {
                    next: Some(list.tail()),
                    back_link: None,
                    ref_counter: 1,
                    claimed: false,
                },
            }),
            list.mem().cell(list.tail()) == Cell::<T>::Dummy(crate::cell::Dummy::Last),
            list.tail() == 0,
            list.head() == 2,
    {
        let mut arena: Arena<T> = Arena::new();
        let last = arena.allocate(Cell::new_last());
        let aux = arena.allocate(Cell::new_aux(last));
        let first = arena.allocate(Cell::new_first(aux));
        let chain: Ghost<Seq<usize>> = Ghost(Seq::empty().push(first).push(aux).push(last));
        let rank: Ghost<spec_fn(usize) -> nat> = Ghost(
            |i: usize|
                if i == first {
                    2nat
                } else if i == aux {
                    1nat
                } else {
                    0nat
                },
        );
        let anchor: Ghost<spec_fn(usize) -> usize> = Ghost(|i: usize| first);
        let list = List { arena, first, last, chain, rank, anchor };
        proof {
            let ch = list.chain@;
            assert(ch[0] == first && ch[1] == aux && ch[2] == last);
            assert(list.arena.live(first) && list.arena.live(aux) && list.arena.live(last));
            assert forall|i: usize| list.arena.live(i) implies #[trigger] list.ranked_at(i) by {}
            assert forall|i: usize| #[trigger] list.standing(i) implies ch.contains(i) by {
                assert(i == first);
            }
            assert forall|i: usize| #[trigger] list.terminal(i) implies ch.contains(i) by {
                assert(i == aux);
            }
            assert(list.standing(first));
            assert(list.linked(0) && list.linked(1));
            assert forall|i: usize|
                list.arena.live(i) && !list.arena.cell(
                    i,
                ).spec_is_last() implies #[trigger] list.anchored_at(i) by {}
            assert(list.chained());
            list.arena.lemma_population_full();
            reveal_with_fuel(values, 4);
            assert(ch.drop_last() =~= Seq::empty().push(first).push(aux));
            assert(ch.drop_last().drop_last() =~= Seq::empty().push(first));
            assert(ch.drop_last().drop_last().drop_last() =~= Seq::<usize>::empty());
        }
        list
    }
}

} // verus!
