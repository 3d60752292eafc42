//! Stable sorting, stated over sequences.
//!
//! A sort is stable when items that the order does not tell apart keep the
//! sequence they had in the input. A stable sort of a sequence is unique,
//! and two stable sorts in a row sort by the second order first and by the
//! first order among its ties.

use vstd::prelude::*;
use vstd::set_lib::{lemma_int_range, lemma_subset_equality, set_int_range};

verus! {

/// `order` lists each of the positions `0 .. n` exactly once.
pub open spec fn is_arrangement(order: Seq<int>, n: nat) -> bool {
    &&& order.len() == n
    &&& forall|i: int| 0 <= i < n ==> 0 <= #[trigger] order[i] < n
    &&& forall|i: int, j: int| 0 <= i < j < n ==> #[trigger] order[i] != #[trigger] order[j]
}

/// `output` is `input` sorted stably by `le`, and `order[i]` is the position
/// in `input` of the item that stands at `i` in `output`:
/// the items are those of `input`, each once; they ascend by `le`; and of
/// two items that `le` ranks alike, the one that came first in `input`
/// comes first.
pub open spec fn stably_sorted_by<T>(
    input: Seq<T>,
    output: Seq<T>,
    order: Seq<int>,
    le: spec_fn(T, T) -> bool,
) -> bool {
    &&& is_arrangement(order, input.len())
    &&& output.len() == input.len()
    &&& forall|i: int| 0 <= i < output.len() ==> #[trigger] output[i] == input[order[i]]
    &&& forall|i: int, j: int|
        0 <= i < j < output.len() ==> le(#[trigger] output[i], #[trigger] output[j])
    &&& forall|i: int, j: int|
        0 <= i < j < output.len() && le(output[j], output[i]) ==> #[trigger] order[i]
            < #[trigger] order[j]
}

/// `output` is `input` sorted stably by `le`.
pub open spec fn is_stable_sort<T>(
    input: Seq<T>,
    output: Seq<T>,
    le: spec_fn(T, T) -> bool,
) -> bool {
    exists|order: Seq<int>| stably_sorted_by(input, output, order, le)
}

/// The order that ranks by `major` and, among the items that `major` ranks
/// alike, by `minor`.
pub open spec fn then_by<T>(major: spec_fn(T, T) -> bool, minor: spec_fn(T, T) -> bool) -> spec_fn(
    T,
    T,
) -> bool {
    |a: T, b: T| major(a, b) && (major(b, a) ==> minor(a, b))
}

/// An arrangement of `0 .. n` reaches every position below `n`.
pub proof fn lemma_arrangement_covers(order: Seq<int>, n: nat, k: int)
    requires
        is_arrangement(order, n),
        0 <= k < n,
    ensures
        exists|i: int| 0 <= i < n && order[i] == k,
{
    let range = set_int_range(0, n as int);
    lemma_int_range(0, n as int);
    assert(order.no_duplicates());
    order.unique_seq_to_set();
    assert(order.to_set().subset_of(range)) by {
        assert forall|v: int| order.to_set().contains(v) implies range.contains(v) by {
            let i = choose|i: int| 0 <= i < order.len() && order[i] == v;
            assert(0 <= order[i] < n);
        }
    }
    vstd::set_lib::lemma_len_subset(order.to_set(), range);
    lemma_subset_equality(order.to_set(), range);
    assert(range.contains(k));
    assert(order.to_set().contains(k));
    assert(order.contains(k));
}

/// Items taken from `input` in the sequence of an arrangement are the items
/// of `input`, each as often as it occurs there.
pub proof fn lemma_arranged_items<T>(input: Seq<T>, output: Seq<T>, order: Seq<int>)
    requires
        is_arrangement(order, input.len()),
        output.len() == input.len(),
        forall|i: int| 0 <= i < output.len() ==> #[trigger] output[i] == input[order[i]],
    ensures
        output.to_multiset() == input.to_multiset(),
    decreases input.len(),
{
    broadcast use vstd::multiset::group_multiset_axioms;

    let n = input.len() as int;
    if n == 0 {
        assert(output =~= input);
    } else {
        // Take the last item of `output` out of both sequences.
        let k = order[n - 1];
        let fewer = input.remove(k);
        let front = output.drop_last();
        let shifted = Seq::new(
            (n - 1) as nat,
            |i: int|
                if order[i] > k {
                    order[i] - 1
                } else {
                    order[i]
                },
        );
        assert forall|i: int| 0 <= i < n - 1 implies 0 <= #[trigger] shifted[i] < n - 1 by {
            assert(order[i] != order[n - 1]);
        }
        assert forall|i: int, j: int| 0 <= i < j < n - 1 implies #[trigger] shifted[i]
            != #[trigger] shifted[j] by {
            assert(order[i] != order[j]);
            assert(order[i] != order[n - 1]);
            assert(order[j] != order[n - 1]);
        }
        assert forall|i: int| 0 <= i < front.len() implies #[trigger] front[i]
            == fewer[shifted[i]] by {
            assert(front[i] == output[i]);
            assert(order[i] != order[n - 1]);
        }
        lemma_arranged_items(fewer, front, shifted);
        vstd::seq_lib::to_multiset_remove(input, k);
        vstd::seq_lib::to_multiset_build(front, output.last());
        vstd::seq_lib::to_multiset_contains(input, input[k]);
        assert(output =~= front.push(output.last()));
        assert(output.last() == input[k]);
        assert(input.to_multiset().count(input[k]) > 0);
        assert(input.to_multiset().remove(input[k]).insert(input[k]) =~= input.to_multiset());
    }
}

/// A stable sort keeps the items: each occurs in the output as often as in
/// the input.
pub proof fn lemma_stable_sort_keeps_items<T>(
    input: Seq<T>,
    output: Seq<T>,
    le: spec_fn(T, T) -> bool,
)
    requires
        is_stable_sort(input, output, le),
    ensures
        output.len() == input.len(),
        output.to_multiset() == input.to_multiset(),
{
    let order = choose|order: Seq<int>| stably_sorted_by(input, output, order, le);
    lemma_arranged_items(input, output, order);
}

/// Two stable sorts of one input place the items in the same sequence of
/// input positions, up to any position `upto`.
proof fn lemma_orders_agree<T>(
    input: Seq<T>,
    a: Seq<T>,
    p: Seq<int>,
    b: Seq<T>,
    q: Seq<int>,
    le: spec_fn(T, T) -> bool,
    upto: int,
)
    requires
        stably_sorted_by(input, a, p, le),
        stably_sorted_by(input, b, q, le),
        0 <= upto <= input.len(),
    ensures
        forall|i: int| 0 <= i < upto ==> p[i] == q[i],
    decreases upto,
{
    if upto > 0 {
        let n = input.len();
        let i = upto - 1;
        lemma_orders_agree(input, a, p, b, q, le, i);
        if p[i] != q[i] {
            // The item that `q` places at `i` stands behind `i` in `a` ...
            lemma_arrangement_covers(p, n, q[i]);
            let j = choose|j: int| 0 <= j < n && p[j] == q[i];
            if j < i {
                assert(q[j] == p[j]);
                assert(q[j] != q[i]);
            }
            assert(i < j);
            // ... and the one that `p` places at `i` stands behind `i` in `b`.
            lemma_arrangement_covers(q, n, p[i]);
            let l = choose|l: int| 0 <= l < n && q[l] == p[i];
            if l < i {
                assert(p[l] == q[l]);
                assert(p[l] != p[i]);
            }
            assert(i < l);
            // Each of the two would have to come before the other.
            assert(a[i] == input[p[i]] && a[j] == input[p[j]]);
            assert(b[i] == input[q[i]] && b[l] == input[q[l]]);
            assert(le(a[i], a[j]));
            assert(le(b[i], b[l]));
            assert(le(a[j], a[i]));
            assert(p[i] < p[j]);
            assert(q[i] < q[l]);
            assert(false);
        }
    }
}

/// A sequence has one stable sort by a given order.
pub proof fn lemma_stable_sort_unique<T>(
    input: Seq<T>,
    a: Seq<T>,
    b: Seq<T>,
    le: spec_fn(T, T) -> bool,
)
    requires
        is_stable_sort(input, a, le),
        is_stable_sort(input, b, le),
    ensures
        a == b,
{
    let p = choose|p: Seq<int>| stably_sorted_by(input, a, p, le);
    let q = choose|q: Seq<int>| stably_sorted_by(input, b, q, le);
    lemma_orders_agree(input, a, p, b, q, le, input.len() as int);
    assert(a =~= b);
}

/// Sorting stably by `minor` and then stably by `major` sorts stably by
/// `major` and, among its ties, by `minor`.
pub proof fn lemma_two_passes<T>(
    input: Seq<T>,
    middle: Seq<T>,
    output: Seq<T>,
    minor: spec_fn(T, T) -> bool,
    major: spec_fn(T, T) -> bool,
)
    requires
        is_stable_sort(input, middle, minor),
        is_stable_sort(middle, output, major),
    ensures
        is_stable_sort(input, output, then_by(major, minor)),
{
    let p = choose|p: Seq<int>| stably_sorted_by(input, middle, p, minor);
    let q = choose|q: Seq<int>| stably_sorted_by(middle, output, q, major);
    let n = input.len();
    let r = Seq::new(n, |i: int| p[q[i]]);
    let le = then_by(major, minor);
    assert forall|i: int, j: int| 0 <= i < j < n implies r[i] != r[j] by {
        assert(q[i] != q[j]);
        if q[i] < q[j] {
            assert(p[q[i]] != p[q[j]]);
        } else {
            assert(p[q[j]] != p[q[i]]);
        }
    }
    assert forall|i: int| 0 <= i < n implies #[trigger] output[i] == input[r[i]] by {
        assert(output[i] == middle[q[i]]);
        assert(middle[q[i]] == input[p[q[i]]]);
    }
    assert forall|i: int, j: int| 0 <= i < j < n implies le(
        #[trigger] output[i],
        #[trigger] output[j],
    ) by {
        assert(major(output[i], output[j]));
        if major(output[j], output[i]) {
            assert(q[i] < q[j]);
            assert(output[i] == middle[q[i]] && output[j] == middle[q[j]]);
            assert(minor(middle[q[i]], middle[q[j]]));
        }
    }
    assert forall|i: int, j: int| 0 <= i < j < n && le(output[j], output[i]) implies #[trigger] r[i]
        < #[trigger] r[j] by {
        assert(major(output[j], output[i]));
        assert(q[i] < q[j]);
        assert(output[i] == middle[q[i]] && output[j] == middle[q[j]]);
        assert(minor(middle[q[j]], middle[q[i]]));
        assert(p[q[i]] < p[q[j]]);
    }
    assert(stably_sorted_by(input, output, r, le));
}

} // verus!
