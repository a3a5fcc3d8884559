//! Sorting a slice in place, five ways.

use crate::order::{
    exceeds, lemma_precedes_reflexive, lemma_precedes_total, lemma_precedes_transitive, precedes,
    sorted, total_order,
};
use vstd::prelude::*;

verus! {

/// Calls `slice::swap`, which exchanges the elements at two places of a
/// slice and leaves the others alone. It panics on a place outside the
/// slice, which the precondition excludes.
#[verifier::external_body]
fn swap_places<T>(slice: &mut [T], a: usize, b: usize)
    requires
        a < old(slice)@.len(),
        b < old(slice)@.len(),
    ensures
        final(slice)@ == swapped(old(slice)@, a as int, b as int),
{
    slice.swap(a, b)
}

/// The sequence with the elements at places `a` and `b` exchanged.
pub open spec fn swapped<T>(s: Seq<T>, a: int, b: int) -> Seq<T> {
    s.update(a, s[b]).update(b, s[a])
}

/// Whether `after` holds the elements of `before`, each as often, in some order.
pub open spec fn rearranged<T>(before: Seq<T>, after: Seq<T>) -> bool {
    after.to_multiset() == before.to_multiset()
}

/// Exchanging two elements rearranges a sequence.
pub proof fn lemma_swapped_rearranged<T>(s: Seq<T>, a: int, b: int)
    requires
        0 <= a < s.len(),
        0 <= b < s.len(),
    ensures
        rearranged(s, swapped(s, a, b)),
        swapped(s, a, b).len() == s.len(),
{
    broadcast use vstd::seq_lib::group_to_multiset_ensures;

    let t = s.update(a, s[b]);
    assert(t =~= s.remove(a).insert(a, s[b]));
    vstd::seq_lib::to_multiset_remove(s, a);
    vstd::seq_lib::to_multiset_insert(s.remove(a), a, s[b]);
    let u = t.update(b, s[a]);
    assert(u =~= t.remove(b).insert(b, s[a]));
    vstd::seq_lib::to_multiset_remove(t, b);
    vstd::seq_lib::to_multiset_insert(t.remove(b), b, s[a]);
    assert(s.to_multiset().count(s[a]) > 0);
    assert(u.to_multiset() =~= s.to_multiset());
}

/// A way of sorting.
pub trait Sorter {
    /// Sorts `slice` in place: afterwards it holds the same elements, each
    /// preceding all that follow it.
    fn sort<T>(&self, slice: &mut [T]) where T: Ord
        requires
            total_order::<T>(),
        ensures
            rearranged(old(slice)@, final(slice)@),
            sorted(final(slice)@),
    ;
}

/// Sorts by inserting each element into the sorted run before it.
pub struct InsertionSort {
    /// Whether the place of an element is found by binary search rather than
    /// by stepping down the run.
    pub smart: bool,
}

/// Whether the first `n` elements but the one at `hole` are sorted among
/// themselves, and the one at `hole` precedes those after it.
pub open spec fn sorted_around<T: Ord>(s: Seq<T>, hole: int, n: int) -> bool {
    &&& forall|i: int, j: int|
        0 <= i < j < n && i != hole && j != hole ==> precedes(#[trigger] s[i], #[trigger] s[j])
    &&& forall|j: int| hole < j < n ==> precedes(s[hole], #[trigger] s[j])
}

/// Moves the element at `at` down into its place among the sorted elements before it.
fn sink<T: Ord>(slice: &mut [T], at: usize)
    requires
        total_order::<T>(),
        at < old(slice)@.len(),
        sorted(old(slice)@.subrange(0, at as int)),
    ensures
        rearranged(old(slice)@, final(slice)@),
        final(slice)@.len() == old(slice)@.len(),
        sorted(final(slice)@.subrange(0, at + 1)),
        final(slice)@.subrange(at + 1, old(slice)@.len() as int) == old(slice)@.subrange(
            at + 1,
            old(slice)@.len() as int,
        ),
        at == 0 || precedes(old(slice)@[at - 1], old(slice)@[at as int]) ==> final(slice)@ == old(
            slice,
        )@,
{
    let ghost start = slice@;
    let ghost mut moved = false;
    let mut i: usize = at;
    proof {
        assert forall|a: int, b: int| 0 <= a < b < at + 1 && a != at && b != at implies precedes(
            #[trigger] start[a],
            #[trigger] start[b],
        ) by {
            assert(start.subrange(0, at as int)[a] == start[a]);
            assert(start.subrange(0, at as int)[b] == start[b]);
        }
    }
    while i > 0 && exceeds(&slice[i - 1], &slice[i])
        invariant
            total_order::<T>(),
            i <= at < slice@.len(),
            slice@.len() == start.len(),
            rearranged(start, slice@),
            sorted_around(slice@, i as int, at + 1),
            forall|k: int| at < k < start.len() ==> slice@[k] == start[k],
            !moved ==> i == at && slice@ == start,
            moved ==> at > 0 && !precedes(start[at - 1], start[at as int]),
        decreases i,
    {
        let ghost before = slice@;
        swap_places(slice, i - 1, i);
        proof {
            moved = true;
            lemma_swapped_rearranged(before, i - 1, i as int);
            let after = slice@;
            assert forall|a: int, b: int|
                0 <= a < b < at + 1 && a != i - 1 && b != i - 1 implies precedes(
                #[trigger] after[a],
                #[trigger] after[b],
            ) by {
                if b == i {
                    assert(after[b] == before[i - 1]);
                    assert(after[a] == before[a]);
                } else if a == i {
                    assert(after[a] == before[i - 1]);
                    assert(after[b] == before[b]);
                } else {
                    assert(after[a] == before[a]);
                    assert(after[b] == before[b]);
                }
            }
            assert forall|b: int| i - 1 < b < at + 1 implies precedes(
                after[i - 1],
                #[trigger] after[b],
            ) by {
                assert(after[i - 1] == before[i as int]);
                if b == i {
                    lemma_precedes_total(before[i - 1], before[i as int]);
                } else {
                    assert(after[b] == before[b]);
                }
            }
        }
        i -= 1;
    }
    proof {
        let s = slice@;
        assert forall|a: int, b: int| 0 <= a < b < at + 1 implies precedes(s[a], s[b]) by {
            if b == i {
                if a == i - 1 {
                } else {
                    lemma_precedes_transitive(s[a], s[i - 1], s[i as int]);
                }
            }
        }
        assert(sorted(s.subrange(0, at + 1)));
        assert(s.subrange(at + 1, start.len() as int) =~= start.subrange(
            at + 1,
            start.len() as int,
        ));
    }
}

/// Joining two sequences joins their elements.
pub proof fn lemma_rearranged_parts<T>(a1: Seq<T>, b1: Seq<T>, a2: Seq<T>, b2: Seq<T>)
    requires
        rearranged(a1, a2),
        rearranged(b1, b2),
    ensures
        rearranged(a1 + b1, a2 + b2),
{
    vstd::seq_lib::lemma_multiset_commutative(a1, b1);
    vstd::seq_lib::lemma_multiset_commutative(a2, b2);
}

/// A rearrangement holds an element exactly if the sequence it came from does.
pub proof fn lemma_rearranged_contains<T>(before: Seq<T>, after: Seq<T>, x: T)
    requires
        rearranged(before, after),
    ensures
        after.contains(x) <==> before.contains(x),
        after.len() == before.len(),
{
    vstd::seq_lib::to_multiset_contains(before, x);
    vstd::seq_lib::to_multiset_contains(after, x);
    vstd::seq_lib::to_multiset_len(before);
    vstd::seq_lib::to_multiset_len(after);
}

/// Whether `after` is `before` in sorted order with equal elements kept in
/// the order they had: some way of matching the places of `after` to the
/// places of `before`, one to one, matches equal elements in rising order.
pub open spec fn stably_sorted<T: Ord>(before: Seq<T>, after: Seq<T>) -> bool {
    exists|from: Seq<int>|
        {
            &&& from.len() == after.len()
            &&& after.len() == before.len()
            &&& forall|i: int|
                0 <= i < after.len() ==> 0 <= #[trigger] from[i] < before.len() && after[i]
                    == before[from[i]]
            &&& forall|i: int, j: int|
                0 <= i < j < after.len() ==> #[trigger] from[i] != #[trigger] from[j]
            &&& forall|i: int, j: int|
                0 <= i < j < after.len() && precedes(after[j], after[i]) ==> #[trigger] from[i]
                    < #[trigger] from[j]
        }
}

/// Calls `slice::sort`, which puts a slice in ascending order and keeps equal
/// elements in the order they had. The standard library allows it to panic
/// where `Ord` is no total order, which the precondition excludes.
#[verifier::external_body]
fn sort_in_place<T: Ord>(slice: &mut [T])
    requires
        total_order::<T>(),
    ensures
        rearranged(old(slice)@, final(slice)@),
        sorted(final(slice)@),
        stably_sorted(old(slice)@, final(slice)@),
{
    slice.sort()
}

/// Calls `slice::binary_search` on the first `len` elements, which are
/// sorted, looking for the element at place `len`. `Ok` holds the place of an
/// element equal to it, `Err` the place where it could be inserted with the
/// run staying sorted.
#[verifier::external_body]
fn search_run<T: Ord>(slice: &[T], len: usize) -> (r: Result<usize, usize>)
    requires
        total_order::<T>(),
        len < slice@.len(),
        sorted(slice@.subrange(0, len as int)),
    ensures
        match r {
            Ok(i) => i < len && precedes(slice@[i as int], slice@[len as int]) && precedes(
                slice@[len as int],
                slice@[i as int],
            ),
            Err(i) => {
                &&& i <= len
                &&& forall|j: int| 0 <= j < i ==> precedes(#[trigger] slice@[j], slice@[len as int])
                &&& forall|j: int|
                    i <= j < len ==> precedes(slice@[len as int], #[trigger] slice@[j])
            },
        },
{
    slice[..len].binary_search(&slice[len])
}

/// The sequence with the element at place `to` moved to place `from`, the
/// elements between moving up by one.
pub open spec fn moved_down<T>(s: Seq<T>, from: int, to: int) -> Seq<T> {
    s.subrange(0, from).push(s[to]) + s.subrange(from, to) + s.subrange(to + 1, s.len() as int)
}

/// Calls `slice::rotate_right`, by one place, on the elements from `from` to
/// `to`, both included: the last of them becomes the first.
#[verifier::external_body]
fn rotate_into<T>(slice: &mut [T], from: usize, to: usize)
    requires
        from <= to < old(slice)@.len(),
    ensures
        final(slice)@ == moved_down(old(slice)@, from as int, to as int),
{
    slice[from..=to].rotate_right(1)
}

/// Moving an element down rearranges a sequence.
pub proof fn lemma_moved_down_rearranged<T>(s: Seq<T>, from: int, to: int)
    requires
        0 <= from <= to < s.len(),
    ensures
        rearranged(s, moved_down(s, from, to)),
        moved_down(s, from, to).len() == s.len(),
{
    let a = s.subrange(0, from);
    let b = s.subrange(from, to);
    let c = s.subrange(to + 1, s.len() as int);
    let x = seq![s[to]];
    assert(s =~= a + b + x + c);
    assert(moved_down(s, from, to) =~= a + x + b + c);
    vstd::seq_lib::lemma_multiset_commutative(a + b + x, c);
    vstd::seq_lib::lemma_multiset_commutative(a + b, x);
    vstd::seq_lib::lemma_multiset_commutative(a, b);
    vstd::seq_lib::lemma_multiset_commutative(a + x + b, c);
    vstd::seq_lib::lemma_multiset_commutative(a + x, b);
    vstd::seq_lib::lemma_multiset_commutative(a, x);
    assert((a + b + x + c).to_multiset() =~= (a + x + b + c).to_multiset());
}

/// Moves the element at `at` into its place among the sorted elements before
/// it, which a binary search finds.
fn slot<T: Ord>(slice: &mut [T], at: usize)
    requires
        total_order::<T>(),
        at < old(slice)@.len(),
        sorted(old(slice)@.subrange(0, at as int)),
    ensures
        rearranged(old(slice)@, final(slice)@),
        final(slice)@.len() == old(slice)@.len(),
        sorted(final(slice)@.subrange(0, at + 1)),
{
    let ghost start = slice@;
    let i = match search_run(slice, at) {
        Ok(i) => i,
        Err(i) => i,
    };
    rotate_into(slice, i, at);
    proof {
        lemma_moved_down_rearranged(start, i as int, at as int);
        let run = start.subrange(0, at as int);
        let key = start[at as int];
        let s = slice@;
        assert forall|j: int| 0 <= j < i implies precedes(start[j], key) by {
            if i < at && precedes(start[i as int], key) && precedes(key, start[i as int]) {
                assert(run[j] == start[j] && run[i as int] == start[i as int]);
                lemma_precedes_transitive(start[j], start[i as int], key);
            }
        }
        assert forall|j: int| i <= j < at implies precedes(key, start[j]) by {
            if i < at && precedes(start[i as int], key) && precedes(key, start[i as int]) {
                assert(run[j] == start[j] && run[i as int] == start[i as int]);
                if j > i {
                    lemma_precedes_transitive(key, start[i as int], start[j]);
                }
            }
        }
        let t = s.subrange(0, at + 1);
        assert forall|a: int, b: int| 0 <= a < b < t.len() implies precedes(t[a], t[b]) by {
            if b < i {
                assert(t[a] == run[a] && t[b] == run[b]);
            } else if b == i {
                assert(t[a] == start[a] && t[b] == key);
            } else if a < i {
                assert(t[a] == run[a] && t[b] == run[b - 1]);
            } else if a == i {
                assert(t[a] == key && t[b] == start[b - 1]);
            } else {
                assert(t[a] == run[a - 1] && t[b] == run[b - 1]);
            }
        }
    }
}

impl Sorter for InsertionSort {
    /// Stepping down the run makes no exchange in a slice that is sorted
    /// already: it is left as it is, place by place.
    fn sort<T>(&self, slice: &mut [T]) where T: Ord
        ensures
            !self.smart && sorted(old(slice)@) ==> final(slice)@ == old(slice)@,
    {
        let n = slice.len();
        let mut unsorted: usize = 1;
        proof {
            vstd::seq_lib::to_multiset_len(slice@);
        }
        while unsorted < n
            invariant
                total_order::<T>(),
                1 <= unsorted,
                n == slice@.len(),
                n == old(slice)@.len(),
                unsorted <= n || n == 0,
                rearranged(old(slice)@, slice@),
                n > 0 ==> sorted(slice@.subrange(0, unsorted as int)),
                !self.smart && sorted(old(slice)@) ==> slice@ == old(slice)@,
            decreases n - unsorted,
        {
            if !self.smart {
                sink(slice, unsorted);
            } else {
                slot(slice, unsorted);
            }
            unsorted += 1;
        }
        proof {
            if n > 0 {
                assert(slice@.subrange(0, unsorted as int) =~= slice@);
            }
        }
    }
}

/// Sorts with the sort of the standard library.
pub struct StdSorter;

impl Sorter for StdSorter {
    /// Elements that compare equal keep the order they had.
    fn sort<T>(&self, slice: &mut [T]) where T: Ord
        ensures
            stably_sorted(old(slice)@, final(slice)@),
    {
        sort_in_place(slice);
    }
}

/// Whether the last `passes` elements are in their final places: each is
/// preceded by every element before it.
pub open spec fn settled<T: Ord>(s: Seq<T>, passes: int) -> bool {
    forall|i: int, j: int|
        0 <= i < j < s.len() && j >= s.len() - passes ==> precedes(#[trigger] s[i], #[trigger] s[j])
}

/// Sorts by exchanging neighbours that are out of order, pass after pass,
/// until a pass finds none.
pub struct BubbleSort;

impl Sorter for BubbleSort {
    /// No exchange is made in a slice that is sorted already: it is left as
    /// it is, place by place.
    fn sort<T>(&self, slice: &mut [T]) where T: Ord
        ensures
            sorted(old(slice)@) ==> final(slice)@ == old(slice)@,
    {
        let n = slice.len();
        let mut swapped = true;
        let ghost mut passes: int = 0;
        while swapped
            invariant
                total_order::<T>(),
                n == slice@.len(),
                passes >= 0,
                rearranged(old(slice)@, slice@),
                sorted(old(slice)@) ==> slice@ == old(slice)@,
                settled(slice@, passes),
                !swapped ==> sorted(slice@),
                swapped ==> passes < n || passes == 0,
            decreases n + 1 - passes,
        {
            swapped = false;
            let ghost pass_start = slice@;
            let ghost border = n - passes - 1;
            let mut i: usize = 1;
            proof {
                if n > 0 {
                    lemma_precedes_reflexive(slice@[0]);
                }
            }
            while i < n
                invariant
                    total_order::<T>(),
                    1 <= i,
                    i <= n || n == 0,
                    n == slice@.len(),
                    n == pass_start.len(),
                    passes >= 0,
                    border == n - passes - 1,
                    rearranged(old(slice)@, slice@),
                    settled(slice@, passes),
                    n > 0 ==> forall|k: int| 0 <= k < i ==> precedes(#[trigger] slice@[k], slice@[i - 1]),
                    !swapped ==> slice@ == pass_start,
                    sorted(old(slice)@) ==> pass_start == old(slice)@,
                    !swapped ==> forall|a: int, b: int|
                        0 <= a < b < i ==> precedes(#[trigger] slice@[a], #[trigger] slice@[b]),
                    sorted(pass_start) ==> !swapped,
                    0 <= border < i ==> forall|k: int|
                        0 <= k < border ==> precedes(#[trigger] slice@[k], slice@[border]),
                decreases n - i,
            {
                let ghost before = slice@;
                if exceeds(&slice[i - 1], &slice[i]) {
                    swap_places(slice, i - 1, i);
                    swapped = true;
                    proof {
                        lemma_swapped_rearranged(before, i - 1, i as int);
                        let after = slice@;
                        assert(i < n - passes) by {
                            if i >= n - passes {
                                assert(precedes(before[i - 1], before[i as int]));
                            }
                        }
                        assert forall|a: int, b: int|
                            0 <= a < b < n && b >= n - passes implies precedes(
                            #[trigger] after[a],
                            #[trigger] after[b],
                        ) by {
                            assert(after[b] == before[b]);
                            if a == i - 1 {
                                assert(precedes(before[i as int], before[b]));
                            } else if a == i {
                                assert(precedes(before[i - 1], before[b]));
                            } else {
                                assert(after[a] == before[a]);
                                assert(precedes(before[a], before[b]));
                            }
                        }
                        lemma_precedes_total(before[i as int], before[i - 1]);
                        assert forall|k: int| 0 <= k < i + 1 implies precedes(
                            #[trigger] after[k],
                            after[i as int],
                        ) by {
                            assert(after[i as int] == before[i - 1]);
                            if k == i {
                                lemma_precedes_reflexive(after[i as int]);
                            } else if k == i - 1 {
                            } else {
                                assert(after[k] == before[k]);
                            }
                        }
                        assert(!sorted(pass_start)) by {
                            if sorted(pass_start) {
                                assert(before == pass_start);
                                assert(precedes(before[i - 1], before[i as int]));
                            }
                        }
                    }
                } else {
                    proof {
                        assert forall|k: int| 0 <= k < i + 1 implies precedes(
                            #[trigger] before[k],
                            before[i as int],
                        ) by {
                            if k == i {
                                lemma_precedes_reflexive(before[i as int]);
                            } else {
                                lemma_precedes_transitive(
                                    before[k],
                                    before[i - 1],
                                    before[i as int],
                                );
                            }
                        }
                    }
                }
                i += 1;
            }
            proof {
                let s = slice@;
                assert forall|a: int, b: int|
                    0 <= a < b < n && b >= n - (passes + 1) implies precedes(
                    #[trigger] s[a],
                    #[trigger] s[b],
                ) by {
                    if b >= n - passes {
                    } else {
                        assert(b == border);
                    }
                }
                if swapped {
                    if passes >= n - 1 {
                        assert forall|a: int, b: int| 0 <= a < b < n implies precedes(
                            pass_start[a],
                            pass_start[b],
                        ) by {}
                        assert(sorted(pass_start));
                    }
                }
                passes = passes + 1;
            }
        }
    }
}

/// The place of the smallest element from `from` on; of several smallest, the first.
fn least_from<T: Ord>(slice: &[T], from: usize) -> (at: usize)
    requires
        total_order::<T>(),
        from < slice@.len(),
    ensures
        from <= at < slice@.len(),
        forall|j: int| from <= j < slice@.len() ==> precedes(slice@[at as int], #[trigger] slice@[j]),
        forall|j: int| from <= j < at ==> !precedes(#[trigger] slice@[j], slice@[at as int]),
{
    let n = slice.len();
    let mut at: usize = from;
    let mut i: usize = from + 1;
    proof {
        lemma_precedes_reflexive(slice@[from as int]);
    }
    while i < n
        invariant
            total_order::<T>(),
            n == slice@.len(),
            from <= at < i <= slice@.len(),
            forall|j: int| from <= j < i ==> precedes(slice@[at as int], #[trigger] slice@[j]),
            forall|j: int| from <= j < at ==> !precedes(#[trigger] slice@[j], slice@[at as int]),
        decreases slice@.len() - i,
    {
        if exceeds(&slice[at], &slice[i]) {
            proof {
                let s = slice@;
                lemma_precedes_total(s[i as int], s[at as int]);
                lemma_precedes_reflexive(s[i as int]);
                assert forall|j: int| from <= j < i + 1 implies precedes(
                    s[i as int],
                    #[trigger] s[j],
                ) by {
                    if j < i {
                        lemma_precedes_transitive(s[i as int], s[at as int], s[j]);
                    }
                }
                assert forall|j: int| from <= j < i implies !precedes(
                    #[trigger] s[j],
                    s[i as int],
                ) by {
                    if precedes(s[j], s[i as int]) {
                        lemma_precedes_transitive(s[at as int], s[j], s[i as int]);
                    }
                }
            }
            at = i;
        }
        i += 1;
    }
    at
}

/// Sorts by bringing the smallest of the elements not yet placed to the front of them.
pub struct SelectionSort;

impl Sorter for SelectionSort {
    /// No exchange is made in a slice that is sorted already: it is left as
    /// it is, place by place.
    fn sort<T>(&self, slice: &mut [T]) where T: Ord
        ensures
            sorted(old(slice)@) ==> final(slice)@ == old(slice)@,
    {
        let n = slice.len();
        let mut unsorted: usize = 0;
        while unsorted < n
            invariant
                total_order::<T>(),
                unsorted <= n,
                n == slice@.len(),
                rearranged(old(slice)@, slice@),
                sorted(old(slice)@) ==> slice@ == old(slice)@,
                forall|a: int, b: int|
                    0 <= a < unsorted && a < b < n ==> precedes(
                        #[trigger] slice@[a],
                        #[trigger] slice@[b],
                    ),
            decreases n - unsorted,
        {
            let smallest_in_rest = least_from(slice, unsorted);
            let ghost before = slice@;
            if unsorted != smallest_in_rest {
                swap_places(slice, unsorted, smallest_in_rest);
                proof {
                    lemma_swapped_rearranged(before, unsorted as int, smallest_in_rest as int);
                }
            }
            proof {
                let after = slice@;
                assert forall|a: int, b: int|
                    0 <= a < unsorted + 1 && a < b < n implies precedes(
                    #[trigger] after[a],
                    #[trigger] after[b],
                ) by {
                    if a < unsorted {
                        assert(after[a] == before[a]);
                        if b == unsorted {
                            assert(after[b] == before[smallest_in_rest as int]);
                        } else if b == smallest_in_rest {
                            assert(after[b] == before[unsorted as int]);
                        } else {
                            assert(after[b] == before[b]);
                        }
                    } else {
                        assert(after[a] == before[smallest_in_rest as int]);
                        if b == smallest_in_rest {
                            assert(after[b] == before[unsorted as int]);
                        } else {
                            assert(after[b] == before[b]);
                        }
                    }
                }
            }
            unsorted += 1;
        }
    }
}

/// Whether the element at place 0, the pivot, stands between the `low`
/// elements that follow it, which all precede it, and the rest, which do not.
pub open spec fn parted<T: Ord>(s: Seq<T>, low: int) -> bool {
    &&& forall|k: int| 1 <= k <= low ==> precedes(#[trigger] s[k], s[0])
    &&& forall|k: int| low < k < s.len() ==> !precedes(#[trigger] s[k], s[0])
}

/// Sorts `slice` in place by partitioning it around its first element and
/// sorting the two parts in the same way.
pub fn quicksort<T>(slice: &mut [T]) where T: Ord
    requires
        total_order::<T>(),
    ensures
        rearranged(old(slice)@, final(slice)@),
        sorted(final(slice)@),
    decreases old(slice)@.len(),
{
    let n = slice.len();
    if n <= 1 {
        return ;
    }
    if n == 2 {
        let ghost before = slice@;
        if exceeds(&slice[0], &slice[1]) {
            swap_places(slice, 0, 1);
            proof {
                lemma_swapped_rearranged(before, 0, 1);
                lemma_precedes_total(before[1], before[0]);
            }
        }
        return ;
    }
    let ghost start = slice@;
    // The pivot is the element at place 0; `left` and `right` are places in the rest.
    let mut left: usize = 0;
    let mut right: usize = n - 2;
    while left <= right
        invariant_except_break
            left <= right + 1,
        invariant
            total_order::<T>(),
            n == slice@.len(),
            n >= 3,
            right <= n - 2,
            left <= n - 1,
            slice@[0] == start[0],
            rearranged(start, slice@),
            forall|k: int| 1 <= k <= left ==> precedes(#[trigger] slice@[k], slice@[0]),
            forall|k: int| right + 1 < k < n ==> !precedes(#[trigger] slice@[k], slice@[0]),
        ensures
            parted(slice@, left as int),
        decreases right + 1 - left,
    {
        let ghost before = slice@;
        if !exceeds(&slice[left + 1], &slice[0]) {
            // already on the correct side
            left += 1;
        } else if exceeds(&slice[right + 1], &slice[0]) {
            // already on the correct side; avoid swapping back and forth
            if right == 0 {
                break ;
            }
            right -= 1;
        } else {
            // `left` holds an element for the right and `right` one for the left
            swap_places(slice, left + 1, right + 1);
            proof {
                lemma_swapped_rearranged(before, left + 1, right + 1);
                assert(left != right);
                assert forall|k: int| 1 <= k <= left + 1 implies precedes(
                    #[trigger] slice@[k],
                    slice@[0],
                ) by {
                    if k <= left {
                        assert(slice@[k] == before[k]);
                    }
                }
                assert forall|k: int| right < k < n implies !precedes(
                    #[trigger] slice@[k],
                    slice@[0],
                ) by {
                    if k > right + 1 {
                        assert(slice@[k] == before[k]);
                    }
                }
            }
            left += 1;
            right -= 1;
        }
    }
    // place the pivot at its final location
    let ghost parts = slice@;
    swap_places(slice, 0, left);
    let ghost placed = slice@;
    proof {
        lemma_swapped_rearranged(parts, 0, left as int);
        lemma_precedes_reflexive(parts[0]);
    }
    let mid = left;
    let (low, rest) = slice.split_at_mut(mid);
    let (pivot, high) = rest.split_at_mut(1);
    let ghost low_before = low@;
    let ghost high_before = high@;
    assert(placed =~= low_before + pivot@ + high_before);
    quicksort(low);
    quicksort(high);
    proof {
        let done = slice@;
        let p = placed[mid as int];
        assert(pivot@ =~= seq![p]);
        assert(done =~= low@ + pivot@ + high@);
        lemma_rearranged_parts(low_before, pivot@, low@, pivot@);
        lemma_rearranged_parts(low_before + pivot@, high_before, low@ + pivot@, high@);
        assert forall|i: int, j: int| 0 <= i < j < done.len() implies precedes(done[i], done[j]) by {
            lemma_rearranged_contains(low_before, low@, done[i]);
            lemma_rearranged_contains(low_before, low@, done[j]);
            lemma_rearranged_contains(high_before, high@, done[i]);
            lemma_rearranged_contains(high_before, high@, done[j]);
            if j < mid {
                assert(done[i] == low@[i] && done[j] == low@[j]);
            } else if i > mid {
                assert(done[i] == high@[i - mid - 1] && done[j] == high@[j - mid - 1]);
            } else {
                if i < mid {
                    assert(done[i] == low@[i]);
                    assert(low@.contains(done[i]));
                    let k = choose|k: int| 0 <= k < low_before.len() && low_before[k] == done[i];
                    assert(placed[k] == done[i]);
                    assert(precedes(done[i], p)) by {
                        if k == 0 {
                            assert(placed[0] == parts[mid as int]);
                        } else {
                            assert(placed[k] == parts[k]);
                        }
                    }
                } else {
                    lemma_precedes_reflexive(p);
                }
                if j > mid {
                    assert(done[j] == high@[j - mid - 1]);
                    assert(high@.contains(done[j]));
                    let k = choose|k: int| 0 <= k < high_before.len() && high_before[k] == done[j];
                    assert(placed[mid + 1 + k] == done[j]);
                    assert(placed[mid + 1 + k] == parts[mid + 1 + k]);
                    lemma_precedes_total(p, done[j]);
                } else {
                    lemma_precedes_reflexive(p);
                }
                lemma_precedes_transitive(done[i], p, done[j]);
            }
        }
    }
}

/// Sorts by partitioning around a pivot.
pub struct QuickSort;

impl Sorter for QuickSort {
    fn sort<T>(&self, slice: &mut [T]) where T: Ord {
        quicksort(slice)
    }
}

} // verus!
