use vstd::laws_cmp::*;
use vstd::laws_eq::*;
use vstd::prelude::*;
use vstd::seq_lib::*;
use vstd::std_specs::cmp::{OrdSpec, PartialEqSpec, PartialOrdSpec};
use core::cmp::Ordering;

verus! {

/// `a` may stand before `b` in ascending order: `a > b` is false.
pub open spec fn in_order<T: PartialOrd>(a: T, b: T) -> bool {
    a.partial_cmp_spec(&b) != Some(Ordering::Greater)
}

/// Every pair of positions in `lo..hi` is in ascending order.
pub open spec fn sorted_between<T: PartialOrd>(s: Seq<T>, lo: int, hi: int) -> bool {
    forall|k: int, l: int| lo <= k < l < hi ==> #[trigger] in_order(s[k], s[l])
}

/// The whole sequence is in ascending order.
pub open spec fn is_sorted<T: PartialOrd>(s: Seq<T>) -> bool {
    sorted_between(s, 0, s.len() as int)
}

/// What each sort promises of its input `before` and its output `after`: the
/// output is a rearrangement of the input in ascending order, and an input
/// already in order is left exactly as it was.
pub open spec fn sorts<T: PartialOrd>(before: Seq<T>, after: Seq<T>) -> bool {
    &&& after.to_multiset() == before.to_multiset()
    &&& is_sorted(after)
    &&& is_sorted(before) ==> after == before
}

/// Sorting twice gives what sorting once gave: a sort of `a` yields `b`, and a
/// sort of that `b` yields `b` again.
pub proof fn lemma_sort_idempotent<T: PartialOrd>(a: Seq<T>, b: Seq<T>, c: Seq<T>)
    requires
        sorts(a, b),
        sorts(b, c),
    ensures
        c == b,
{
}

/// A lawful `Ord` makes `in_order` a total preorder that the `>` operator decides.
pub proof fn lemma_total_order<T: Ord>()
    requires
        obeys_cmp::<T>(),
    ensures
        T::obeys_partial_cmp_spec(),
        forall|a: T| #[trigger] in_order(a, a),
        forall|a: T, b: T|
            #[trigger] a.partial_cmp_spec(&b) == Some(Ordering::Less) <==> !in_order(b, a),
        forall|a: T, b: T| #[trigger] in_order(a, b) || #[trigger] in_order(b, a),
        forall|a: T, b: T, c: T|
            #[trigger] in_order(a, b) && #[trigger] in_order(b, c) ==> in_order(a, c),
{
    reveal(obeys_cmp_partial_ord);
    reveal(obeys_cmp_ord);
    reveal(obeys_partial_cmp_spec_properties);
    reveal(obeys_eq_spec_properties);
    assert forall|a: T, b: T| #[trigger] in_order(a, b) || #[trigger] in_order(b, a) by {
        assert(a.partial_cmp_spec(&b) == Some(a.cmp_spec(&b)));
        assert(b.partial_cmp_spec(&a) == Some(b.cmp_spec(&a)));
    }
    assert forall|a: T, b: T, c: T|
        #[trigger] in_order(a, b) && #[trigger] in_order(b, c) implies in_order(a, c) by {
        assert(a.partial_cmp_spec(&b) == Some(a.cmp_spec(&b)));
        assert(b.partial_cmp_spec(&c) == Some(b.cmp_spec(&c)));
        assert(a.partial_cmp_spec(&c) == Some(a.cmp_spec(&c)));
        assert(c.partial_cmp_spec(&a) == Some(c.cmp_spec(&a)));
        assert(c.partial_cmp_spec(&b) == Some(c.cmp_spec(&b)));
        assert(b.partial_cmp_spec(&a) == Some(b.cmp_spec(&a)));
    }
}

/// Exchanging two positions keeps the multiset of elements.
proof fn lemma_swap_multiset<T>(s: Seq<T>, i: int, j: int)
    requires
        0 <= i < s.len(),
        0 <= j < s.len(),
    ensures
        s.update(i, s[j]).update(j, s[i]).to_multiset() == s.to_multiset(),
{
    broadcast use group_to_multiset_ensures;
    broadcast use vstd::multiset::group_multiset_axioms;
    to_multiset_update(s, i, s[j]);
    to_multiset_update(s.update(i, s[j]), j, s[i]);
    assert(s.update(i, s[j]).update(j, s[i]).to_multiset() =~= s.to_multiset());
}

/// Exchanges the elements at `i` and `j`.
fn swap_at<T: Copy>(vec: &mut Vec<T>, i: usize, j: usize)
    requires
        i < old(vec)@.len(),
        j < old(vec)@.len(),
    ensures
        final(vec)@ == old(vec)@.update(i as int, old(vec)@[j as int]).update(
            j as int,
            old(vec)@[i as int],
        ),
        final(vec)@.to_multiset() == old(vec)@.to_multiset(),
{
    proof {
        lemma_swap_multiset(vec@, i as int, j as int);
    }
    let a = vec[i];
    let b = vec[j];
    vec.set(i, b);
    vec.set(j, a);
}

/// Bubble sort: passes of adjacent exchanges over a shrinking unsorted prefix,
/// until a pass exchanges nothing.
pub fn bubble<T: Copy + Ord + PartialOrd>(vec: &mut Vec<T>)
    requires
        obeys_cmp::<T>(),
    ensures
        sorts(old(vec)@, final(vec)@),
{
    proof {
        lemma_total_order::<T>();
    }
    if vec.len() <= 1 {
        return;
    }
    let ghost orig = vec@;
    let n: usize = vec.len();
    let mut sorted = false;
    let mut unsorted_until: usize = n - 1;
    while !sorted && unsorted_until > 0
        invariant
            obeys_cmp::<T>(),
            vec@.len() == n,
            n >= 2,
            unsorted_until < n,
            vec@.to_multiset() == orig.to_multiset(),
            sorted_between(vec@, unsorted_until as int, n as int),
            forall|k: int, l: int|
                0 <= k <= unsorted_until < l < n ==> #[trigger] in_order(vec@[k], vec@[l]),
            sorted ==> is_sorted(vec@),
            is_sorted(orig) ==> vec@ == orig,
        decreases unsorted_until,
    {
        proof {
            lemma_total_order::<T>();
        }
        sorted = true;
        let mut i: usize = 0;
        while i < unsorted_until
            invariant
                obeys_cmp::<T>(),
                vec@.len() == n,
                0 < unsorted_until < n,
                i <= unsorted_until,
                vec@.to_multiset() == orig.to_multiset(),
                sorted_between(vec@, unsorted_until as int, n as int),
                forall|k: int, l: int|
                    0 <= k <= unsorted_until < l < n ==> #[trigger] in_order(vec@[k], vec@[l]),
                forall|k: int| 0 <= k < i ==> #[trigger] in_order(vec@[k], vec@[i as int]),
                sorted ==> sorted_between(vec@, 0, i + 1),
                is_sorted(orig) ==> vec@ == orig,
            decreases unsorted_until - i,
        {
            let a = vec[i];
            let b = vec[i + 1];
            proof {
                lemma_total_order::<T>();
                if is_sorted(orig) {
                    assert(in_order(orig[i as int], orig[i + 1]));
                }
            }
            if a > b {
                swap_at(vec, i, i + 1);
                sorted = false;
                assert(!in_order(a, b));
                assert(in_order(b, a));
            } else {
                assert(in_order(vec@[i as int], vec@[i + 1]));
                assert forall|k: int| 0 <= k < i + 1 implies #[trigger] in_order(
                    vec@[k],
                    vec@[i + 1],
                ) by {
                    if k < i {
                        assert(in_order(vec@[k], vec@[i as int]));
                    }
                }
            }
            i = i + 1;
        }
        assert(forall|k: int|
            0 <= k <= unsorted_until - 1 ==> #[trigger] in_order(vec@[k], vec@[unsorted_until as int]));
        unsorted_until = unsorted_until - 1;
    }
}

/// Selection sort: each pass finds the least element of the unsorted suffix
/// and exchanges it into the first position of that suffix.
pub fn selection<T: Copy + Ord + PartialOrd>(vec: &mut Vec<T>)
    requires
        obeys_cmp::<T>(),
    ensures
        sorts(old(vec)@, final(vec)@),
{
    proof {
        lemma_total_order::<T>();
    }
    if vec.len() <= 1 {
        return;
    }
    let ghost orig = vec@;
    let n: usize = vec.len();
    let mut start: usize = 0;
    while start < n - 1
        invariant
            obeys_cmp::<T>(),
            vec@.len() == n,
            n >= 2,
            start <= n - 1,
            vec@.to_multiset() == orig.to_multiset(),
            sorted_between(vec@, 0, start as int),
            forall|k: int, l: int|
                0 <= k < start <= l < n ==> #[trigger] in_order(vec@[k], vec@[l]),
            is_sorted(orig) ==> vec@ == orig,
        decreases n - start,
    {
        proof {
            lemma_total_order::<T>();
        }
        let mut smallest: usize = start;
        let mut i: usize = start + 1;
        while i < n
            invariant
                obeys_cmp::<T>(),
                vec@.len() == n,
                start < i <= n,
                start <= smallest < i,
                forall|l: int| start <= l < i ==> #[trigger] in_order(vec@[smallest as int], vec@[l]),
                is_sorted(orig) ==> vec@ == orig && smallest == start,
            decreases n - i,
        {
            proof {
                lemma_total_order::<T>();
                if is_sorted(orig) {
                    assert(in_order(orig[start as int], orig[i as int]));
                }
            }
            if vec[i] < vec[smallest] {
                assert(in_order(vec@[i as int], vec@[smallest as int]));
                assert forall|l: int| start <= l < i + 1 implies #[trigger] in_order(
                    vec@[i as int],
                    vec@[l],
                ) by {
                    if l < i {
                        assert(in_order(vec@[smallest as int], vec@[l]));
                    }
                }
                smallest = i;
            } else {
                assert(in_order(vec@[smallest as int], vec@[i as int]));
            }
            i = i + 1;
        }
        let ghost before = vec@;
        if start != smallest {
            swap_at(vec, start, smallest);
        }
        assert forall|k: int, l: int| 0 <= k < start + 1 <= l < n implies #[trigger] in_order(
            vec@[k],
            vec@[l],
        ) by {
            let from = if k == start { smallest as int } else { k };
            if l == smallest {
                assert(in_order(before[from], before[start as int]));
            } else {
                assert(in_order(before[from], before[l]));
            }
        }
        assert forall|k: int, l: int| 0 <= k < l < start + 1 implies #[trigger] in_order(
            vec@[k],
            vec@[l],
        ) by {
            if l == start {
                assert(in_order(before[k], before[smallest as int]));
            } else {
                assert(in_order(before[k], before[l]));
            }
        }
        start = start + 1;
    }
}

/// Insertion sort: each element in turn moves left past the larger elements
/// before it, by adjacent exchanges.
pub fn insertion<T: Copy + Ord + PartialOrd>(vec: &mut Vec<T>)
    requires
        obeys_cmp::<T>(),
    ensures
        sorts(old(vec)@, final(vec)@),
{
    let ghost orig = vec@;
    let n: usize = vec.len();
    let mut i: usize = 1;
    while i < n
        invariant
            obeys_cmp::<T>(),
            vec@.len() == n,
            1 <= i,
            i <= n || n == 0,
            vec@.to_multiset() == orig.to_multiset(),
            sorted_between(vec@, 0, i as int),
            is_sorted(orig) ==> vec@ == orig,
        decreases n - i,
    {
        proof {
            lemma_total_order::<T>();
        }
        let mut gap: usize = i;
        while gap > 0 && vec[gap - 1] > vec[gap]
            invariant
                obeys_cmp::<T>(),
                vec@.len() == n,
                i < n,
                gap <= i,
                vec@.to_multiset() == orig.to_multiset(),
                sorted_between(vec@, 0, gap as int),
                sorted_between(vec@, gap + 1, i + 1),
                forall|k: int, l: int|
                    0 <= k < gap < l <= i ==> #[trigger] in_order(vec@[k], vec@[l]),
                forall|l: int| gap < l <= i ==> #[trigger] in_order(vec@[gap as int], vec@[l]),
                is_sorted(orig) ==> vec@ == orig && gap == i,
            decreases gap,
        {
            proof {
                lemma_total_order::<T>();
                if is_sorted(orig) {
                    assert(in_order(orig[gap - 1], orig[gap as int]));
                }
            }
            let ghost before = vec@;
            assert(in_order(before[gap as int], before[gap - 1]));
            swap_at(vec, gap - 1, gap);
            assert forall|l: int| gap - 1 < l <= i implies #[trigger] in_order(
                vec@[gap - 1],
                vec@[l],
            ) by {
                if l > gap {
                    assert(in_order(before[gap as int], before[l]));
                }
            }
            assert forall|k: int, l: int| 0 <= k < gap - 1 < l <= i implies #[trigger] in_order(
                vec@[k],
                vec@[l],
            ) by {
                if l == gap {
                    assert(in_order(before[k], before[gap - 1]));
                } else {
                    assert(in_order(before[k], before[l]));
                }
            }
            assert forall|k: int, l: int| gap <= k < l < i + 1 implies #[trigger] in_order(
                vec@[k],
                vec@[l],
            ) by {
                if k == gap {
                    assert(in_order(before[gap - 1], before[l]));
                } else {
                    assert(in_order(before[k], before[l]));
                }
            }
            gap = gap - 1;
        }
        proof {
            lemma_total_order::<T>();
            assert forall|k: int, l: int| 0 <= k < l < i + 1 implies #[trigger] in_order(
                vec@[k],
                vec@[l],
            ) by {
                if l == gap && k < gap - 1 {
                    assert(in_order(vec@[k], vec@[gap - 1]));
                    assert(in_order(vec@[gap - 1], vec@[gap as int]));
                }
            }
        }
        i = i + 1;
    }
}

} // verus!
