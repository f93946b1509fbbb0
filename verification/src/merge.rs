//! A merge sort of positions by the keys that stand at them.

use crate::natural_sort::HumanString;
use crate::token::{
    comparable, follows, lemma_follows_converse, lemma_precedes_or_follows,
    lemma_precedes_transitive, precedes, Token,
};
use vstd::prelude::*;
use vstd::multiset::group_multiset_axioms;
use vstd::seq_lib::{
    lemma_multiset_commutative, to_multiset_build, to_multiset_contains, to_multiset_len,
    to_multiset_remove,
};

verus! {

/// The token sequences that the keys stand for.
pub open spec fn views(keys: Seq<HumanString>) -> Seq<Seq<Token>> {
    Seq::new(keys.len(), |i: int| keys[i]@)
}

/// The items that stand at the positions `order`, in that order.
pub open spec fn picked<T>(items: Seq<T>, order: Seq<usize>) -> Seq<T> {
    Seq::new(order.len(), |k: int| items[order[k] as int])
}

/// Whether every position in `order` lies below `len`.
pub open spec fn within(order: Seq<usize>, len: nat) -> bool {
    forall|k: int| 0 <= k < order.len() ==> (#[trigger] order[k]) < len
}

/// Whether no element of `keys` comes after a later one.
pub open spec fn ascending(keys: Seq<Seq<Token>>) -> bool {
    forall|p: int, q: int| 0 <= p < q < keys.len() ==> precedes(keys[p], keys[q])
}

/// Whether any two elements of `keys` have an order.
pub open spec fn all_comparable(keys: Seq<Seq<Token>>) -> bool {
    forall|p: int, q: int|
        0 <= p < keys.len() && 0 <= q < keys.len() ==> comparable(keys[p], keys[q])
}

/// The positions from `lo` up to `hi`, `hi` left out.
pub open spec fn span(lo: usize, hi: usize) -> Seq<usize> {
    Seq::new((hi - lo) as nat, |i: int| (lo + i) as usize)
}

/// Picking along two arrangements of the same positions gives the same
/// items, each as often as the other.
pub proof fn lemma_picked_rearranged<T>(items: Seq<T>, a: Seq<usize>, b: Seq<usize>)
    requires
        a.to_multiset() == b.to_multiset(),
    ensures
        picked(items, a).to_multiset() == picked(items, b).to_multiset(),
    decreases a.len(),
{
    broadcast use group_multiset_axioms;

    to_multiset_len(a);
    to_multiset_len(b);
    if a.len() == 0 {
        assert(picked(items, a) =~= picked(items, b));
    } else {
        let x = a.last();
        let front = a.drop_last();
        assert(a =~= front.push(x));
        to_multiset_build(front, x);
        to_multiset_contains(b, x);
        let i = choose|i: int| 0 <= i < b.len() && b[i] == x;
        let rest = b.remove(i);
        to_multiset_remove(b, i);
        assert(front.to_multiset() =~= rest.to_multiset());
        lemma_picked_rearranged(items, front, rest);
        let item = items[x as int];
        assert(picked(items, a) =~= picked(items, front).push(item));
        to_multiset_build(picked(items, front), item);
        assert(picked(items, b).remove(i) =~= picked(items, rest));
        to_multiset_remove(picked(items, b), i);
        to_multiset_contains(picked(items, b), item);
    }
}

/// Picking along the positions in their own order gives back the items.
pub proof fn lemma_picked_span<T>(items: Seq<T>)
    requires
        items.len() <= usize::MAX,
    ensures
        picked(items, span(0, items.len() as usize)) == items,
{
}

/// Whether the element at position `x` comes after the one at `y`.
fn comes_after(keys: &Vec<HumanString>, x: usize, y: usize) -> (r: bool)
    requires
        x < keys.len(),
        y < keys.len(),
    ensures
        r == follows(keys[x as int]@, keys[y as int]@),
{
    keys[x] > keys[y]
}

/// Merges two ascending runs of positions into one.
fn merge(keys: &Vec<HumanString>, left: &Vec<usize>, right: &Vec<usize>) -> (out: Vec<usize>)
    requires
        all_comparable(views(keys@)),
        within(left@, keys@.len()),
        within(right@, keys@.len()),
        ascending(picked(views(keys@), left@)),
        ascending(picked(views(keys@), right@)),
    ensures
        out@.to_multiset() == left@.to_multiset().add(right@.to_multiset()),
        within(out@, keys@.len()),
        ascending(picked(views(keys@), out@)),
{
    broadcast use group_multiset_axioms;

    let ghost kv = views(keys@);
    let ghost l = picked(kv, left@);
    let ghost r = picked(kv, right@);
    let mut out: Vec<usize> = Vec::new();
    let mut i: usize = 0;
    let mut j: usize = 0;
    proof {
        let none = Seq::<usize>::empty();
        assert(left@.take(0) =~= none);
        assert(right@.take(0) =~= none);
        lemma_multiset_commutative(none, none);
    }
    while i < left.len() || j < right.len()
        invariant
            kv == views(keys@),
            l == picked(kv, left@),
            r == picked(kv, right@),
            all_comparable(kv),
            within(left@, keys@.len()),
            within(right@, keys@.len()),
            ascending(l),
            ascending(r),
            i <= left.len(),
            j <= right.len(),
            out@.len() == i + j,
            out@.to_multiset() == left@.take(i as int).to_multiset().add(
                right@.take(j as int).to_multiset(),
            ),
            within(out@, keys@.len()),
            ascending(picked(kv, out@)),
            forall|p: int, q: int|
                0 <= p < out@.len() && i <= q < left@.len() ==> precedes(
                    #[trigger] picked(kv, out@)[p],
                    #[trigger] l[q],
                ),
            forall|p: int, q: int|
                0 <= p < out@.len() && j <= q < right@.len() ==> precedes(
                    #[trigger] picked(kv, out@)[p],
                    #[trigger] r[q],
                ),
        decreases left.len() - i + right.len() - j,
    {
        let ghost before = picked(kv, out@);
        let ghost merged = out@;
        let ghost taken_left = left@.take(i as int);
        let ghost taken_right = right@.take(j as int);
        let take_right = if i == left.len() {
            true
        } else if j == right.len() {
            false
        } else {
            comes_after(keys, left[i], right[j])
        };
        if take_right {
            let y = right[j];
            proof {
                assert(r[j as int] == kv[y as int]);
                if i < left.len() {
                    lemma_follows_converse(l[i as int], r[j as int]);
                    assert forall|q: int| i <= q < left@.len() implies precedes(
                        r[j as int],
                        #[trigger] l[q],
                    ) by {
                        if q > i {
                            lemma_precedes_transitive(r[j as int], l[i as int], l[q]);
                        }
                    }
                }
            }
            out.push(y);
            j = j + 1;
            proof {
                let after = picked(kv, out@);
                assert(after =~= before.push(kv[y as int]));
                assert(right@.take(j as int) == taken_right.push(y));
                to_multiset_build(merged, y);
                to_multiset_build(taken_right, y);
            }
        } else {
            let x = left[i];
            proof {
                assert(l[i as int] == kv[x as int]);
                if j < right.len() {
                    lemma_precedes_or_follows(l[i as int], r[j as int]);
                    assert forall|q: int| j <= q < right@.len() implies precedes(
                        l[i as int],
                        #[trigger] r[q],
                    ) by {
                        if q > j {
                            lemma_precedes_transitive(l[i as int], r[j as int], r[q]);
                        }
                    }
                }
            }
            out.push(x);
            i = i + 1;
            proof {
                let after = picked(kv, out@);
                assert(after =~= before.push(kv[x as int]));
                assert(left@.take(i as int) == taken_left.push(x));
                to_multiset_build(merged, x);
                to_multiset_build(taken_left, x);
            }
        }
    }
    proof {
        assert(left@.take(left@.len() as int) =~= left@);
        assert(right@.take(right@.len() as int) =~= right@);
    }
    out
}

/// The positions from `lo` up to `hi`, arranged so that the keys at them
/// ascend.
pub fn sort_span(keys: &Vec<HumanString>, lo: usize, hi: usize) -> (order: Vec<usize>)
    requires
        lo <= hi <= keys@.len(),
        all_comparable(views(keys@)),
    ensures
        order@.to_multiset() == span(lo, hi).to_multiset(),
        within(order@, keys@.len()),
        ascending(picked(views(keys@), order@)),
    decreases hi - lo,
{
    if hi - lo < 2 {
        let mut order: Vec<usize> = Vec::new();
        if lo < hi {
            order.push(lo);
        }
        proof {
            assert(order@ =~= span(lo, hi));
        }
        order
    } else {
        let mid = lo + (hi - lo) / 2;
        let left = sort_span(keys, lo, mid);
        let right = sort_span(keys, mid, hi);
        proof {
            assert(span(lo, hi) =~= span(lo, mid) + span(mid, hi));
            lemma_multiset_commutative(span(lo, mid), span(mid, hi));
        }
        merge(keys, &left, &right)
    }
}

} // verus!
