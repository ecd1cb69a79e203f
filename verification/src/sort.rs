//! A stable merge sort.

use std::collections::VecDeque;
use vstd::prelude::*;

verus! {

/// A total preorder on the models of what is sorted.
pub trait Ranked: Sized {
    /// Whether `self` ranks before `other` or ties with it.
    spec fn rank_le(self, other: Self) -> bool;

    proof fn rank_total(a: Self, b: Self)
        ensures
            a.rank_le(b) || b.rank_le(a),
    ;

    proof fn rank_transitive(a: Self, b: Self, c: Self)
        requires
            a.rank_le(b),
            b.rank_le(c),
        ensures
            a.rank_le(c),
    ;
}

/// A type whose values are sorted by the rank of their models.
pub trait Sortable: View<V: Ranked> + Sized {
    fn ranks_le(&self, other: &Self) -> (r: bool)
        ensures
            r == self@.rank_le(other@),
    ;
}

/// The models of a sequence of values.
pub open spec fn views<T: View>(items: Seq<T>) -> Seq<T::V> {
    Seq::new(items.len(), |i: int| items[i]@)
}

/// Whether `a`, found at `i`, goes before `b`, found at `j`: by rank, then by place.
pub open spec fn goes_before<A: Ranked>(a: A, i: int, b: A, j: int) -> bool {
    a.rank_le(b) && (b.rank_le(a) ==> i < j)
}

/// Whether `output` is `input` stably sorted, where `origin[k]` is the place in `input` of
/// what stands at `k` in `output`.
pub open spec fn sorts_stably<A: Ranked>(
    input: Seq<A>,
    output: Seq<A>,
    origin: Seq<int>,
) -> bool {
    &&& output.len() == input.len()
    &&& origin.len() == input.len()
    &&& origin.no_duplicates()
    &&& forall|k: int|
        0 <= k < origin.len() ==> 0 <= #[trigger] origin[k] < input.len() && output[k]
            == input[origin[k]]
    &&& forall|j: int, k: int|
        0 <= j < k < origin.len() ==> #[trigger] goes_before(
            output[j],
            origin[j],
            output[k],
            origin[k],
        )
}

/// Whether `output` holds the elements of `input` by rank, those that tie in the order in
/// which `input` holds them.
pub open spec fn is_stable_sort<A: Ranked>(input: Seq<A>, output: Seq<A>) -> bool {
    exists|origin: Seq<int>| sorts_stably(input, output, origin)
}

/// Distinct places below `n`, `n` of them, leave none out.
pub(crate) proof fn lemma_every_place_is_taken(origin: Seq<int>, place: int) -> (k: int)
    requires
        origin.no_duplicates(),
        forall|k: int| 0 <= k < origin.len() ==> 0 <= #[trigger] origin[k] < origin.len(),
        0 <= place < origin.len(),
    ensures
        0 <= k < origin.len(),
        origin[k] == place,
{
    let n = origin.len() as int;
    vstd::seq_lib::seq_to_set_is_finite(origin);
    origin.unique_seq_to_set();
    vstd::set_lib::lemma_int_range(0, n);
    assert(origin.to_set().subset_of(vstd::set_lib::set_int_range(0, n)));
    vstd::set_lib::lemma_subset_equality(
        origin.to_set(),
        vstd::set_lib::set_int_range(0, n),
    );
    assert(origin.to_set().contains(place));
    choose|k: int| 0 <= k < origin.len() && origin[k] == place
}

/// A sequence has only one stable sort.
pub proof fn stable_sort_is_unique<A: Ranked>(input: Seq<A>, first: Seq<A>, second: Seq<A>)
    requires
        is_stable_sort(input, first),
        is_stable_sort(input, second),
    ensures
        first == second,
{
    let o1 = choose|origin: Seq<int>| sorts_stably(input, first, origin);
    let o2 = choose|origin: Seq<int>| sorts_stably(input, second, origin);
    assert forall|k: int| 0 <= k < input.len() implies o1[k] == o2[k] by {
        lemma_same_origin(input, first, second, o1, o2, k);
    }
    assert(first =~= second) by {
        assert forall|k: int| 0 <= k < input.len() implies first[k] == second[k] by {
            assert(o1[k] == o2[k]);
        }
    }
}

proof fn lemma_same_origin<A: Ranked>(
    input: Seq<A>,
    first: Seq<A>,
    second: Seq<A>,
    o1: Seq<int>,
    o2: Seq<int>,
    k: int,
)
    requires
        sorts_stably(input, first, o1),
        sorts_stably(input, second, o2),
        0 <= k < input.len(),
    ensures
        o1[k] == o2[k],
    decreases k,
{
    assert forall|i: int| 0 <= i < k implies o1[i] == o2[i] by {
        lemma_same_origin(input, first, second, o1, o2, i);
    }
    if o1[k] != o2[k] {
        let m1 = lemma_every_place_is_taken(o1, o2[k]);
        let m2 = lemma_every_place_is_taken(o2, o1[k]);
        if m1 < k {
            assert(o2[m1] == o2[k]);
        }
        if m2 < k {
            assert(o1[m2] == o1[k]);
        }
        assert(goes_before(first[k], o1[k], first[m1], o1[m1]));
        assert(goes_before(second[k], o2[k], second[m2], o2[m2]));
    }
}

/// Sorting neither adds, drops nor repeats an element.
pub proof fn stable_sort_keeps_elements<A: Ranked>(input: Seq<A>, output: Seq<A>)
    requires
        is_stable_sort(input, output),
    ensures
        output.to_multiset() == input.to_multiset(),
{
    let origin = choose|origin: Seq<int>| sorts_stably(input, output, origin);
    lemma_rearranged(input, output, origin);
}

proof fn lemma_rearranged<A>(input: Seq<A>, output: Seq<A>, origin: Seq<int>)
    requires
        output.len() == input.len() == origin.len(),
        origin.no_duplicates(),
        forall|k: int|
            0 <= k < origin.len() ==> 0 <= #[trigger] origin[k] < input.len() && output[k]
                == input[origin[k]],
    ensures
        output.to_multiset() == input.to_multiset(),
    decreases input.len(),
{
    if input.len() == 0 {
        assert(output == input);
    } else {
        let last = input.len() - 1;
        let k = lemma_every_place_is_taken(origin, last);
        let rest = input.remove(last);
        let rest_out = output.remove(k);
        let rest_origin = origin.remove(k);
        assert forall|m: int| 0 <= m < rest_origin.len() implies 0 <= #[trigger] rest_origin[m]
            < rest.len() && rest_out[m] == rest[rest_origin[m]] by {
            let l = if m < k { m } else { m + 1 };
            assert(rest_origin[m] == origin[l]);
            assert(origin[l] != origin[k]);
        }
        assert(rest_origin.no_duplicates());
        lemma_rearranged(rest, rest_out, rest_origin);
        input.to_multiset_ensures();
        output.to_multiset_ensures();
        assert(input.to_multiset().remove(input[last]) == output.to_multiset().remove(output[k]));
        assert(input.to_multiset().count(input[last]) > 0);
        assert(output.to_multiset().count(input[last]) > 0);
        assert(output.to_multiset() =~= input.to_multiset()) by {
            let x = input[last];
            assert(input.to_multiset() =~= input.to_multiset().remove(x).insert(x));
            assert(output.to_multiset() =~= output.to_multiset().remove(x).insert(x));
        }
    }
}

/// The first `i` elements of `left` and the first `j` of `right`, merged into `out`: each has
/// its place in `left + right`, they are in order, and they go before all that is left.
spec fn merged_so_far<A: Ranked>(
    input: Seq<A>,
    left: Seq<A>,
    left_origin: Seq<int>,
    right: Seq<A>,
    right_origin: Seq<int>,
    out: Seq<A>,
    origin: Seq<int>,
    i: int,
    j: int,
) -> bool {
    &&& input.len() == left.len() + right.len()
    &&& 0 <= i <= left.len() == left_origin.len()
    &&& 0 <= j <= right.len() == right_origin.len()
    &&& out.len() == origin.len() == i + j
    &&& forall|k: int|
        0 <= k < origin.len() ==> 0 <= #[trigger] origin[k] < input.len() && out[k]
            == input[origin[k]]
    &&& forall|k: int, l: int|
        0 <= k < l < origin.len() ==> #[trigger] goes_before(out[k], origin[k], out[l], origin[l])
    &&& forall|k: int, l: int|
        0 <= k < origin.len() && i <= l < left.len() ==> #[trigger] goes_before(
            out[k],
            origin[k],
            left[l],
            left_origin[l],
        )
    &&& forall|k: int, l: int|
        0 <= k < origin.len() && j <= l < right.len() ==> #[trigger] goes_before(
            out[k],
            origin[k],
            right[l],
            left.len() + right_origin[l],
        )
}

proof fn merge_step_left<A: Ranked>(
    left: Seq<A>,
    left_origin: Seq<int>,
    right: Seq<A>,
    right_origin: Seq<int>,
    out: Seq<A>,
    origin: Seq<int>,
    i: int,
    j: int,
    left_input: Seq<A>,
    right_input: Seq<A>,
)
    requires
        merged_so_far(
            left_input + right_input,
            left,
            left_origin,
            right,
            right_origin,
            out,
            origin,
            i,
            j,
        ),
        sorts_stably(left_input, left, left_origin),
        sorts_stably(right_input, right, right_origin),
        i < left.len(),
        j < right.len() ==> left[i].rank_le(right[j]),
    ensures
        merged_so_far(
            left_input + right_input,
            left,
            left_origin,
            right,
            right_origin,
            out.push(left[i]),
            origin.push(left_origin[i]),
            i + 1,
            j,
        ),
{
    let out2 = out.push(left[i]);
    let origin2 = origin.push(left_origin[i]);
    assert(0 <= left_origin[i] < left.len());
    assert forall|k: int, l: int| 0 <= k < l < origin2.len() implies #[trigger] goes_before(
        out2[k],
        origin2[k],
        out2[l],
        origin2[l],
    ) by {
        if l < origin.len() {
            assert(goes_before(out[k], origin[k], out[l], origin[l]));
        } else {
            assert(goes_before(out[k], origin[k], left[i], left_origin[i]));
        }
    }
    assert forall|k: int, l: int|
        0 <= k < origin2.len() && i + 1 <= l < left.len() implies #[trigger] goes_before(
        out2[k],
        origin2[k],
        left[l],
        left_origin[l],
    ) by {
        if k < origin.len() {
            assert(goes_before(out[k], origin[k], left[l], left_origin[l]));
        } else {
            assert(goes_before(left[i], left_origin[i], left[l], left_origin[l]));
        }
    }
    assert forall|k: int, l: int|
        0 <= k < origin2.len() && j <= l < right.len() implies #[trigger] goes_before(
        out2[k],
        origin2[k],
        right[l],
        left.len() + right_origin[l],
    ) by {
        if k < origin.len() {
            assert(goes_before(out[k], origin[k], right[l], left.len() + right_origin[l]));
        } else {
            assert(0 <= right_origin[l]);
            if j < l {
                assert(goes_before(right[j], right_origin[j], right[l], right_origin[l]));
                A::rank_transitive(left[i], right[j], right[l]);
            }
        }
    }
}

proof fn merge_step_right<A: Ranked>(
    left: Seq<A>,
    left_origin: Seq<int>,
    right: Seq<A>,
    right_origin: Seq<int>,
    out: Seq<A>,
    origin: Seq<int>,
    i: int,
    j: int,
    left_input: Seq<A>,
    right_input: Seq<A>,
)
    requires
        merged_so_far(
            left_input + right_input,
            left,
            left_origin,
            right,
            right_origin,
            out,
            origin,
            i,
            j,
        ),
        sorts_stably(left_input, left, left_origin),
        sorts_stably(right_input, right, right_origin),
        j < right.len(),
        i < left.len() ==> !left[i].rank_le(right[j]),
    ensures
        merged_so_far(
            left_input + right_input,
            left,
            left_origin,
            right,
            right_origin,
            out.push(right[j]),
            origin.push(left.len() + right_origin[j]),
            i,
            j + 1,
        ),
{
    let out2 = out.push(right[j]);
    let origin2 = origin.push(left.len() + right_origin[j]);
    assert(0 <= right_origin[j] < right.len());
    assert forall|k: int, l: int| 0 <= k < l < origin2.len() implies #[trigger] goes_before(
        out2[k],
        origin2[k],
        out2[l],
        origin2[l],
    ) by {
        if l < origin.len() {
            assert(goes_before(out[k], origin[k], out[l], origin[l]));
        } else {
            assert(goes_before(out[k], origin[k], right[j], left.len() + right_origin[j]));
        }
    }
    assert forall|k: int, l: int|
        0 <= k < origin2.len() && j + 1 <= l < right.len() implies #[trigger] goes_before(
        out2[k],
        origin2[k],
        right[l],
        left.len() + right_origin[l],
    ) by {
        if k < origin.len() {
            assert(goes_before(out[k], origin[k], right[l], left.len() + right_origin[l]));
        } else {
            assert(goes_before(right[j], right_origin[j], right[l], right_origin[l]));
        }
    }
    assert forall|k: int, l: int|
        0 <= k < origin2.len() && i <= l < left.len() implies #[trigger] goes_before(
        out2[k],
        origin2[k],
        left[l],
        left_origin[l],
    ) by {
        if k < origin.len() {
            assert(goes_before(out[k], origin[k], left[l], left_origin[l]));
        } else {
            A::rank_total(left[i], right[j]);
            if i < l {
                assert(goes_before(left[i], left_origin[i], left[l], left_origin[l]));
                A::rank_transitive(right[j], left[i], left[l]);
                if left[l].rank_le(right[j]) {
                    A::rank_transitive(left[i], left[l], right[j]);
                }
            }
        }
    }
}

/// Merges two sorted runs; where an element of each ties, that of `left` goes first.
fn merge<T: Sortable>(
    mut left: VecDeque<T>,
    mut right: VecDeque<T>,
    Ghost(left_input): Ghost<Seq<T::V>>,
    Ghost(right_input): Ghost<Seq<T::V>>,
) -> (out: VecDeque<T>)
    requires
        is_stable_sort(left_input, views(left@)),
        is_stable_sort(right_input, views(right@)),
        left@.len() + right@.len() <= usize::MAX,
    ensures
        is_stable_sort(left_input + right_input, views(out@)),
{
    let ghost input = left_input + right_input;
    let ghost lv = views(left@);
    let ghost rv = views(right@);
    let ghost lo = choose|origin: Seq<int>| sorts_stably(left_input, lv, origin);
    let ghost ro = choose|origin: Seq<int>| sorts_stably(right_input, rv, origin);
    let mut out: VecDeque<T> = VecDeque::with_capacity(left.len() + right.len());
    let ghost mut origin: Seq<int> = Seq::empty();
    let ghost mut i: int = 0;
    let ghost mut j: int = 0;
    while left.len() > 0 || right.len() > 0
        invariant
            input == left_input + right_input,
            sorts_stably(left_input, lv, lo),
            sorts_stably(right_input, rv, ro),
            merged_so_far(input, lv, lo, rv, ro, views(out@), origin, i, j),
            left@.len() == lv.len() - i,
            right@.len() == rv.len() - j,
            forall|k: int| 0 <= k < left@.len() ==> (#[trigger] left@[k])@ == lv[i + k],
            forall|k: int| 0 <= k < right@.len() ==> (#[trigger] right@[k])@ == rv[j + k],
        decreases left@.len() + right@.len(),
    {
        let ghost before = out@;
        let take_left: bool = if left.len() == 0 {
            false
        } else if right.len() == 0 {
            true
        } else {
            left[0].ranks_le(&right[0])
        };
        if take_left {
            proof {
                merge_step_left(
                    lv,
                    lo,
                    rv,
                    ro,
                    views(out@),
                    origin,
                    i,
                    j,
                    left_input,
                    right_input,
                );
                origin = origin.push(lo[i]);
                i = i + 1;
            }
            match left.pop_front() {
                Some(item) => out.push_back(item),
                None => {},
            }
            assert(views(out@) == views(before).push(lv[i - 1]));
        } else {
            proof {
                merge_step_right(
                    lv,
                    lo,
                    rv,
                    ro,
                    views(out@),
                    origin,
                    i,
                    j,
                    left_input,
                    right_input,
                );
                origin = origin.push(lv.len() + ro[j]);
                j = j + 1;
            }
            match right.pop_front() {
                Some(item) => out.push_back(item),
                None => {},
            }
            assert(views(out@) == views(before).push(rv[j - 1]));
        }
    }
    assert(sorts_stably(input, views(out@), origin)) by {
        assert forall|k: int, l: int|
            0 <= k < origin.len() && 0 <= l < origin.len() && k != l implies origin[k]
            != origin[l] by {
            T::V::rank_total(views(out@)[k], views(out@)[k]);
            if k < l {
                assert(goes_before(views(out@)[k], origin[k], views(out@)[l], origin[l]));
            } else {
                assert(goes_before(views(out@)[l], origin[l], views(out@)[k], origin[k]));
            }
        }
    }
    out
}

/// Takes the last `n` elements off `items` and sorts them.
fn sort_run<T: Sortable>(items: &mut Vec<T>, n: usize) -> (out: VecDeque<T>)
    requires
        n <= old(items)@.len(),
    ensures
        final(items)@ == old(items)@.take(old(items)@.len() - n),
        is_stable_sort(views(old(items)@.skip(old(items)@.len() - n)), views(out@)),
    decreases n,
{
    let ghost start = items@.len() - n;
    let ghost all = items@;
    if n <= 1 {
        let mut out: VecDeque<T> = VecDeque::new();
        if n == 1 {
            match items.pop() {
                Some(item) => out.push_back(item),
                None => {},
            }
        }
        proof {
            let input = views(all.skip(start));
            let origin = Seq::new(n as nat, |k: int| k);
            assert(views(out@) == input);
            assert(sorts_stably(input, views(out@), origin));
        }
        return out;
    }
    let half: usize = n / 2;
    let right = sort_run(items, half);
    let left = sort_run(items, n - half);
    proof {
        let mid = all.len() - half;
        assert(all.take(mid).skip(start) == all.subrange(start, mid));
        assert(all.take(mid).take(start) == all.take(start));
        assert(views(all.subrange(start, mid)) + views(all.skip(mid)) == views(all.skip(start)));
        lemma_same_length(views(all.skip(mid)), views(right@));
        lemma_same_length(views(all.subrange(start, mid)), views(left@));
    }
    merge(
        left,
        right,
        Ghost(views(all.subrange(start, all.len() - half))),
        Ghost(views(all.skip(all.len() - half))),
    )
}

proof fn lemma_same_length<A: Ranked>(input: Seq<A>, output: Seq<A>)
    requires
        is_stable_sort(input, output),
    ensures
        output.len() == input.len(),
{
}

/// Sorts by rank, and keeps those that tie in the order in which they came.
pub fn stable_sort<T: Sortable>(mut items: Vec<T>) -> (sorted: Vec<T>)
    ensures
        is_stable_sort(views(items@), views(sorted@)),
{
    let n: usize = items.len();
    let ghost input = items@;
    assert(input.skip(0) == input);
    let mut run = sort_run(&mut items, n);
    let ghost all = run@;
    let mut sorted: Vec<T> = Vec::with_capacity(n);
    while run.len() > 0
        invariant
            sorted@ + run@ == all,
        decreases run@.len(),
    {
        match run.pop_front() {
            Some(item) => sorted.push(item),
            None => {},
        }
    }
    assert(sorted@ == all);
    sorted
}

} // verus!
