//! Sorting by index, and facts about sorted sequences.
use vstd::prelude::*;

verus! {

/// A value with a rank: its view is compared by a total preorder.
pub trait Ranked: View + Sized {
    /// Whether `a` may stand before `b`.
    spec fn ranks_at_most(a: Self::V, b: Self::V) -> bool;

    /// The relation is total and transitive.
    proof fn lemma_ranks(a: Self::V, b: Self::V, c: Self::V)
        ensures
            Self::ranks_at_most(a, b) || Self::ranks_at_most(b, a),
            Self::ranks_at_most(a, b) && Self::ranks_at_most(b, c) ==> Self::ranks_at_most(a, c),
    ;

    /// Tells whether `self` may stand before `other`.
    fn may_precede(&self, other: &Self) -> (r: bool)
        ensures
            r == Self::ranks_at_most(self@, other@),
    ;
}

/// The views of a sequence of values.
pub open spec fn views<T: View>(items: Seq<T>) -> Seq<T::V> {
    items.map_values(|item: T| item@)
}

/// The elements of `items` at the positions `order`.
pub open spec fn picked<A>(items: Seq<A>, order: Seq<usize>) -> Seq<A> {
    order.map_values(|i: usize| items[i as int])
}

/// Whether `order` names positions of `items`, none twice, such that the elements there are
/// sorted.
pub open spec fn is_sorted_order<T: Ranked>(items: Seq<T::V>, order: Seq<usize>) -> bool {
    &&& forall|k: int| 0 <= k < order.len() ==> #[trigger] order[k] < items.len()
    &&& order.no_duplicates()
    &&& forall|j: int, k: int|
        0 <= j < k < order.len() ==> T::ranks_at_most(
            items[#[trigger] order[j] as int],
            items[#[trigger] order[k] as int],
        )
}

/// The positions of all `items`, in sorted order.
pub fn sorted_order<T: Ranked>(items: &[T]) -> (order: Vec<usize>)
    ensures
        order@.len() == items@.len(),
        is_sorted_order::<T>(views(items@), order@),
        picked(views(items@), order@).to_multiset() == views(items@).to_multiset(),
{
    let ghost all = views(items@);
    let mut order: Vec<usize> = Vec::new();
    let mut i: usize = 0;
    assert(picked(all, order@) =~= all.take(0));
    while i < items.len()
        invariant
            all == views(items@),
            i <= items@.len(),
            order@.len() == i,
            forall|k: int| 0 <= k < order@.len() ==> #[trigger] order@[k] < i,
            is_sorted_order::<T>(all, order@),
            picked(all, order@).to_multiset() == all.take(i as int).to_multiset(),
        decreases items@.len() - i,
    {
        let mut k: usize = i;
        while k > 0 && !items[order[k - 1]].may_precede(&items[i])
            invariant
                all == views(items@),
                k <= i < items@.len(),
                order@.len() == i,
                forall|j: int| 0 <= j < order@.len() ==> #[trigger] order@[j] < i,
                is_sorted_order::<T>(all, order@),
                forall|j: int|
                    k <= j < i ==> T::ranks_at_most(
                        all[i as int],
                        all[#[trigger] order@[j] as int],
                    ),
            decreases k,
        {
            proof {
                T::lemma_ranks(all[order@[k - 1] as int], all[i as int], all[i as int]);
            }
            k -= 1;
        }
        let ghost before = order@;
        order.insert(k, i);
        proof {
            assert forall|j: int, l: int| 0 <= j < l < order@.len() implies T::ranks_at_most(
                all[#[trigger] order@[j] as int],
                all[#[trigger] order@[l] as int],
            ) by {
                if l == k {
                    if j < k - 1 {
                        assert(order@[j] == before[j]);
                        assert(T::ranks_at_most(all[before[j] as int], all[before[k - 1] as int]));
                        T::lemma_ranks(
                            all[before[j] as int],
                            all[before[k - 1] as int],
                            all[i as int],
                        );
                    }
                } else if j == k {
                    assert(order@[l] == before[l - 1]);
                } else {
                    let bj = if j < k { j } else { j - 1 };
                    let bl = if l < k { l } else { l - 1 };
                    assert(order@[j] == before[bj] && order@[l] == before[bl]);
                }
            }
            assert(picked(all, order@) =~= picked(all, before).insert(k as int, all[i as int]));
            vstd::seq_lib::to_multiset_insert(picked(all, before), k as int, all[i as int]);
            assert(all.take(i as int).push(all[i as int]) =~= all.take(i + 1));
            vstd::seq_lib::to_multiset_build(all.take(i as int), all[i as int]);
        }
        i += 1;
    }
    assert(all.take(all.len() as int) =~= all);
    order
}

/// Two sequences that are strictly sorted by the same asymmetric relation and hold the same
/// elements are equal.
pub proof fn lemma_strictly_sorted_equal<A>(s: Seq<A>, t: Seq<A>, before: spec_fn(A, A) -> bool)
    requires
        forall|x: A, y: A| !(#[trigger] before(x, y) && before(y, x)),
        forall|i: int, j: int| 0 <= i < j < s.len() ==> before(s[i], s[j]),
        forall|i: int, j: int| 0 <= i < j < t.len() ==> before(t[i], t[j]),
        forall|x: A| #[trigger] s.contains(x) <==> t.contains(x),
    ensures
        s == t,
    decreases s.len(),
{
    if s.len() == 0 {
        if t.len() > 0 {
            assert(t.contains(t[0]));
            assert(s.contains(t[0]));
        }
        assert(s =~= t);
    } else {
        assert(s.contains(s.last()));
        assert(t.contains(s.last()));
        assert(t.contains(t.last()));
        assert(s.contains(t.last()));
        let j = choose|j: int| 0 <= j < t.len() && t[j] == s.last();
        let i = choose|i: int| 0 <= i < s.len() && s[i] == t.last();
        if s.last() != t.last() {
            assert(before(s[i], s[s.len() - 1]));
            assert(before(t[j], t[t.len() - 1]));
        }
        let (s1, t1) = (s.drop_last(), t.drop_last());
        assert forall|x: A| #[trigger] s1.contains(x) <==> t1.contains(x) by {
            if s1.contains(x) {
                let a = choose|a: int| 0 <= a < s1.len() && s1[a] == x;
                assert(s[a] == x);
                assert(s.contains(x));
                assert(before(s[a], s[s.len() - 1]));
                let b = choose|b: int| 0 <= b < t.len() && t[b] == x;
                assert(b != t.len() - 1);
                assert(t1[b] == x);
            }
            if t1.contains(x) {
                let a = choose|a: int| 0 <= a < t1.len() && t1[a] == x;
                assert(t[a] == x);
                assert(t.contains(x));
                assert(s.contains(x));
                assert(before(t[a], t[t.len() - 1]));
                assert(x != t.last()) by {
                    if x == t.last() {
                        assert(before(x, x) && !(before(x, x) && before(x, x)));
                    }
                }
                let b = choose|b: int| 0 <= b < s.len() && s[b] == x;
                assert(b != s.len() - 1);
                assert(s1[b] == x);
            }
        }
        lemma_strictly_sorted_equal(s1, t1, before);
        assert(s =~= s1.push(s.last()));
        assert(t =~= t1.push(t.last()));
    }
}

} // verus!
