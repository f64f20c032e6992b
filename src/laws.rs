//! Laws that relate the operations of the hash set to one another, stated
//! over the views that the operations' contracts use.

use vstd::prelude::*;
use vstd::seq_lib::to_multiset_contains;
use vstd::set_lib::lemma_len_union;

verus! {

/// The view of a set into which the items of `xs` were inserted, in order,
/// starting from the view `s`: what `insert` leaves behind, call after call.
pub open spec fn insert_all<T>(s: Set<T>, xs: Seq<T>) -> Set<T>
    decreases xs.len(),
{
    if xs.len() == 0 {
        s
    } else {
        insert_all(s, xs.drop_last()).insert(xs.last())
    }
}

/// After inserting the items of `xs` into an empty set, one by one, the set
/// holds exactly the distinct items of `xs`; so its length is their number,
/// and inserting the same items in any other order gives the same set.
pub proof fn lemma_inserts_keep_distinct<T>(xs: Seq<T>, ys: Seq<T>)
    requires
        ys.to_multiset() == xs.to_multiset(),
    ensures
        insert_all(Set::empty(), xs) == xs.to_set(),
        insert_all(Set::empty(), xs).finite(),
        insert_all(Set::empty(), xs).len() == xs.to_set().len(),
        xs.to_set().len() <= xs.len(),
        insert_all(Set::empty(), ys) == insert_all(Set::empty(), xs),
{
    lemma_insert_all_to_set(xs);
    lemma_insert_all_to_set(ys);
    xs.lemma_cardinality_of_set();
    assert(ys.to_set() =~= xs.to_set()) by {
        assert forall|a: T| #[trigger] ys.to_set().contains(a) <==> xs.to_set().contains(a) by {
            to_multiset_contains(ys, a);
            to_multiset_contains(xs, a);
            assert(ys.to_multiset().count(a) == xs.to_multiset().count(a));
            assert(ys.to_set().contains(a) == ys.contains(a));
            assert(xs.to_set().contains(a) == xs.contains(a));
        }
    }
}

proof fn lemma_insert_all_to_set<T>(xs: Seq<T>)
    ensures
        insert_all(Set::empty(), xs) == xs.to_set(),
        xs.to_set().finite(),
    decreases xs.len(),
{
    if xs.len() == 0 {
        assert(xs.to_set() =~= Set::<T>::empty());
    } else {
        lemma_insert_all_to_set(xs.drop_last());
        assert(xs.drop_last().push(xs.last()) =~= xs);
        xs.drop_last().lemma_push_to_set_commute(xs.last());
    }
}

/// An item that was just inserted is contained.
pub proof fn lemma_insert_then_contains<T>(s: Set<T>, x: T)
    ensures
        s.insert(x).contains(x),
{
}

/// A union, listed without repeats, holds exactly the items of either
/// operand and is no longer than the two operands together.
pub proof fn lemma_union_law<T>(a: Set<T>, b: Set<T>, v: Seq<T>)
    requires
        a.finite(),
        b.finite(),
        v.no_duplicates(),
        v.to_set() == a.union(b),
    ensures
        forall|x: T| #[trigger] v.contains(x) <==> a.contains(x) || b.contains(x),
        v.len() <= a.len() + b.len(),
{
    assert forall|x: T| #[trigger] v.contains(x) <==> a.contains(x) || b.contains(x) by {
        assert(v.to_set().contains(x) == v.contains(x));
    }
    v.unique_seq_to_set();
    lemma_len_union(a, b);
}

/// An intersection lies within both operands.
pub proof fn lemma_intersection_within_both<T>(a: Set<T>, b: Set<T>, v: Seq<T>)
    requires
        v.to_set() == a.intersect(b),
    ensures
        v.to_set().subset_of(a),
        v.to_set().subset_of(b),
        forall|x: T| #[trigger] v.contains(x) ==> a.contains(x) && b.contains(x),
{
    assert forall|x: T| #[trigger] v.contains(x) implies a.contains(x) && b.contains(x) by {
        assert(v.to_set().contains(x));
    }
}

/// The difference `a - b` and the intersection of `a` and `b` split `a`:
/// each item of `a` is in exactly one of them, and they hold nothing else.
pub proof fn lemma_difference_intersection_split<T>(a: Set<T>, b: Set<T>, d: Seq<T>, i: Seq<T>)
    requires
        d.to_set() == a.difference(b),
        i.to_set() == a.intersect(b),
    ensures
        forall|x: T| a.contains(x) ==> (#[trigger] d.contains(x) != #[trigger] i.contains(x)),
        forall|x: T| #[trigger] d.contains(x) ==> a.contains(x),
        forall|x: T| #[trigger] i.contains(x) ==> a.contains(x),
{
    assert forall|x: T| a.contains(x) implies (#[trigger] d.contains(x) != #[trigger] i.contains(x)) by {
        assert(d.to_set().contains(x) == d.contains(x));
        assert(i.to_set().contains(x) == i.contains(x));
    }
    assert forall|x: T| #[trigger] d.contains(x) implies a.contains(x) by {
        assert(d.to_set().contains(x));
    }
    assert forall|x: T| #[trigger] i.contains(x) implies a.contains(x) by {
        assert(i.to_set().contains(x));
    }
}

} // verus!
