//! What insertions and deletions at a position do to the sequence of elements.
use vstd::prelude::*;

verus! {

/// The sequence `s` after the elements of `vs` were inserted at index `k`,
/// one after the other.
pub open spec fn inserted<T>(s: Seq<T>, k: int, vs: Seq<T>) -> Seq<T>
    decreases vs.len(),
{
    if vs.len() == 0 {
        s
    } else {
        inserted(s, k, vs.drop_last()).insert(k, vs.last())
    }
}

/// Elements that are inserted at one position stand there in the reverse
/// order of their insertion, between what stood before that position and
/// what stood behind it.
pub proof fn law_inserts_at_one_position<T>(s: Seq<T>, k: int, vs: Seq<T>)
    requires
        0 <= k <= s.len(),
    ensures
        inserted(s, k, vs) == s.take(k) + vs.reverse() + s.skip(k),
    decreases vs.len(),
{
    if vs.len() == 0 {
        assert(vs.reverse() =~= Seq::<T>::empty());
        assert(s.take(k) + vs.reverse() + s.skip(k) =~= s);
    } else {
        let init = vs.drop_last();
        law_inserts_at_one_position(s, k, init);
        let before = s.take(k) + init.reverse() + s.skip(k);
        let after = s.take(k) + vs.reverse() + s.skip(k);
        assert(before.insert(k, vs.last()) =~= after);
    }
}

/// Every insertion adds one element: after the elements of `vs` were
/// inserted, the list is longer by their number.
pub proof fn law_count_after_inserts<T>(s: Seq<T>, k: int, vs: Seq<T>)
    requires
        0 <= k <= s.len(),
    ensures
        inserted(s, k, vs).len() == s.len() + vs.len(),
{
    law_inserts_at_one_position(s, k, vs);
}

/// Two insertions at one position: the second element stands in front of the first.
pub proof fn law_second_insert_comes_first<T>(s: Seq<T>, k: int, first: T, second: T)
    requires
        0 <= k <= s.len(),
    ensures
        s.insert(k, first).insert(k, second)[k] == second,
        s.insert(k, first).insert(k, second)[k + 1] == first,
{
}

/// Deleting an element that was just inserted gives back the list as it was.
pub proof fn law_delete_undoes_insert<T>(s: Seq<T>, k: int, v: T)
    requires
        0 <= k <= s.len(),
    ensures
        s.insert(k, v)[k] == v,
        s.insert(k, v).remove(k) == s,
{
    assert(s.insert(k, v).remove(k) =~= s);
}

/// A deletion takes one element out and leaves the others in their order.
pub proof fn law_delete_keeps_the_rest<T>(s: Seq<T>, k: int, j: int)
    requires
        0 <= k < s.len(),
        0 <= j < s.len() - 1,
    ensures
        s.remove(k).len() == s.len() - 1,
        s.remove(k)[j] == if j < k {
            s[j]
        } else {
            s[j + 1]
        },
{
}

} // verus!
