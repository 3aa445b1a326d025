//! The order in which items are packed: largest first, by a comparison that
//! the caller supplies, and in their given order where it finds no
//! difference.

use crate::layout::{total_height, total_width};
use vstd::prelude::*;

verus! {

/// A comparison of two sizes: whether the first is less than the second.
pub type Less = spec_fn((usize, usize), (usize, usize)) -> bool;

/// Where an item of `size` goes into `order`, a list of indices into `sizes`:
/// in front of the first item that is less than it, or else at the end.
pub open spec fn slot(
    sizes: Seq<(usize, usize)>,
    less: Less,
    order: Seq<usize>,
    size: (usize, usize),
) -> int
    decreases order.len(),
{
    if order.len() == 0 || less(sizes[order[0] as int], size) {
        0
    } else {
        1 + slot(sizes, less, order.drop_first(), size)
    }
}

/// The indices of the first `n` of `sizes` in packing order: each item goes
/// in front of the first that is less than it, so that of two items with no
/// difference the earlier stays in front.
pub open spec fn descending(sizes: Seq<(usize, usize)>, less: Less, n: nat) -> Seq<usize>
    decreases n,
{
    if n == 0 {
        Seq::empty()
    } else {
        let order = descending(sizes, less, (n - 1) as nat);
        order.insert(slot(sizes, less, order, sizes[n - 1]), (n - 1) as usize)
    }
}

/// The items that `order` points at, in the order of `order`.
pub open spec fn arranged<T>(items: Seq<T>, order: Seq<usize>) -> Seq<T> {
    Seq::new(order.len(), |j: int| items[order[j] as int])
}

/// A slot lies inside the list or at its end; what stands in front of it is
/// not less than the item, and what stands at it is.
pub proof fn lemma_slot(
    sizes: Seq<(usize, usize)>,
    less: Less,
    order: Seq<usize>,
    size: (usize, usize),
)
    ensures
        0 <= slot(sizes, less, order, size) <= order.len(),
        forall|k: int|
            0 <= k < slot(sizes, less, order, size) ==> !less(sizes[#[trigger] order[k] as int], size),
        slot(sizes, less, order, size) < order.len() ==> less(
            sizes[order[slot(sizes, less, order, size)] as int],
            size,
        ),
    decreases order.len(),
{
    if !(order.len() == 0 || less(sizes[order[0] as int], size)) {
        let rest = order.drop_first();
        lemma_slot(sizes, less, rest, size);
        assert forall|k: int| 0 <= k < slot(sizes, less, order, size) implies !less(
            sizes[#[trigger] order[k] as int],
            size,
        ) by {
            if k > 0 {
                assert(order[k] == rest[k - 1]);
            }
        }
        let at = slot(sizes, less, rest, size);
        if at < rest.len() {
            assert(order[at + 1] == rest[at]);
        }
    }
}

/// The packing order of `n` items holds each of their indices once, and
/// nothing else.
pub proof fn lemma_descending_indices(sizes: Seq<(usize, usize)>, less: Less, n: nat)
    requires
        n <= sizes.len(),
        n <= usize::MAX,
    ensures
        descending(sizes, less, n).len() == n,
        forall|j: int| 0 <= j < n ==> #[trigger] descending(sizes, less, n)[j] < n,
        forall|i: usize| i < n ==> #[trigger] descending(sizes, less, n).contains(i),
        forall|j: int, k: int|
            0 <= j < k < n ==> #[trigger] descending(sizes, less, n)[j] != #[trigger] descending(
                sizes,
                less,
                n,
            )[k],
    decreases n,
{
    if n > 0 {
        let m = (n - 1) as nat;
        let order = descending(sizes, less, m);
        let at = slot(sizes, less, order, sizes[m as int]);
        let next = descending(sizes, less, n);
        lemma_descending_indices(sizes, less, m);
        lemma_slot(sizes, less, order, sizes[m as int]);
        assert(next == order.insert(at, m as usize));
        assert forall|j: int, k: int| 0 <= j < k < n implies #[trigger] next[j]
            != #[trigger] next[k] by {
            let from = |at_new: int| if at_new < at { at_new } else { at_new - 1 };
            if j != at && k != at {
                assert(next[j] == order[from(j)]);
                assert(next[k] == order[from(k)]);
            } else if j == at {
                assert(next[k] == order[from(k)]);
            } else {
                assert(next[j] == order[from(j)]);
            }
        }
        assert forall|i: usize| i < n implies #[trigger] next.contains(i) by {
            if i < m {
                assert(order.contains(i));
                let k = choose|k: int| 0 <= k < order.len() && order[k] == i;
                if k < at {
                    assert(next[k] == i);
                } else {
                    assert(next[k + 1] == i);
                }
            } else {
                assert(next[at] == i);
            }
        }
    }
}

/// Whether `compare` answers `yes` for exactly the pairs of sizes of which
/// `less` holds.
pub open spec fn conforms<O, F: Fn(&(usize, usize), &(usize, usize)) -> O>(
    compare: F,
    yes: O,
    less: Less,
) -> bool {
    forall|a: (usize, usize), b: (usize, usize), out: O|
        call_ensures(compare, (&a, &b), out) ==> ((out == yes) <==> less(a, b))
}

/// Whether `order` lists each of the indices below `n` once, and nothing
/// else.
pub open spec fn lists_all(order: Seq<usize>, n: nat) -> bool {
    &&& order.len() == n
    &&& forall|j: int| 0 <= j < n ==> #[trigger] order[j] < n
    &&& forall|i: usize| i < n ==> #[trigger] order.contains(i)
    &&& forall|j: int, k: int| 0 <= j < k < n ==> #[trigger] order[j] != #[trigger] order[k]
}

/// Puts the indices of `sizes` in packing order: for every comparison that
/// `is_less` computes, the descending order by it.
pub fn sort_order<F: Fn(&(usize, usize), &(usize, usize)) -> bool>(
    sizes: &Vec<(usize, usize)>,
    is_less: F,
) -> (order: Vec<usize>)
    requires
        forall|a: (usize, usize), b: (usize, usize)| call_requires(is_less, (&a, &b)),
    ensures
        lists_all(order@, sizes@.len()),
        forall|less: Less| #[trigger]
            conforms(is_less, true, less) ==> order@ == descending(sizes@, less, sizes@.len()),
{
    let mut order: Vec<usize> = Vec::with_capacity(sizes.len());
    let mut i: usize = 0;
    while i < sizes.len()
        invariant
            i <= sizes@.len(),
            lists_all(order@, i as nat),
            forall|less: Less| #[trigger]
                conforms(is_less, true, less) ==> order@ == descending(sizes@, less, i as nat),
            forall|a: (usize, usize), b: (usize, usize)| call_requires(is_less, (&a, &b)),
        decreases sizes@.len() - i,
    {
        let mut at: usize = 0;
        let mut found = false;
        assert(order@.skip(0) == order@);
        while at < order.len() && !found
            invariant
                i < sizes@.len(),
                at <= order@.len(),
                lists_all(order@, i as nat),
                forall|less: Less| #[trigger]
                    conforms(is_less, true, less) ==> slot(sizes@, less, order@, sizes@[i as int])
                        == at + slot(sizes@, less, order@.skip(at as int), sizes@[i as int]),
                found ==> at < order@.len(),
                found ==> forall|less: Less| #[trigger]
                    conforms(is_less, true, less) ==> less(
                        sizes@[order@[at as int] as int],
                        sizes@[i as int],
                    ),
                forall|a: (usize, usize), b: (usize, usize)| call_requires(is_less, (&a, &b)),
            decreases order@.len() - at + if found { 0int } else { 1int },
        {
            let ghost rest = order@.skip(at as int);
            assert(rest[0] == order@[at as int]);
            if is_less(&sizes[order[at]], &sizes[i]) {
                found = true;
            } else {
                assert(rest.drop_first() == order@.skip(at + 1));
                at += 1;
            }
        }
        let ghost before = order@;
        order.insert(at, i);
        proof {
            let rest = before.skip(at as int);
            if found {
                assert(rest[0] == before[at as int]);
            }
            assert forall|less: Less| #[trigger] conforms(is_less, true, less) implies order@
                == descending(sizes@, less, (i + 1) as nat) by {
                assert(slot(sizes@, less, rest, sizes@[i as int]) == 0);
            }
            assert forall|j: int, k: int| 0 <= j < k < i + 1 implies #[trigger] order@[j]
                != #[trigger] order@[k] by {
                let from = |at_new: int| if at_new < at { at_new } else { at_new - 1 };
                if j != at && k != at {
                    assert(order@[j] == before[from(j)]);
                    assert(order@[k] == before[from(k)]);
                } else if j == at {
                    assert(order@[k] == before[from(k)]);
                } else {
                    assert(order@[j] == before[from(j)]);
                }
            }
            assert forall|k: usize| k < i + 1 implies #[trigger] order@.contains(k) by {
                if k < i {
                    assert(before.contains(k));
                    let j = choose|j: int| 0 <= j < before.len() && before[j] == k;
                    if j < at {
                        assert(order@[j] == k);
                    } else {
                        assert(order@[j + 1] == k);
                    }
                } else {
                    assert(order@[at as int] == k);
                }
            }
        }
        i += 1;
    }
    order
}

/// Whether `less` is a strict order: never both ways between two sizes, and
/// passed on along a chain.
pub open spec fn strict(less: Less) -> bool {
    &&& forall|a: (usize, usize), b: (usize, usize)| #[trigger] less(a, b) ==> !less(b, a)
    &&& forall|a: (usize, usize), b: (usize, usize), c: (usize, usize)|
        #[trigger] less(a, b) && #[trigger] less(b, c) ==> less(a, c)
}

/// By a strict order the packing order is descending: no item is less than
/// one that stands behind it.
pub proof fn lemma_descending_sorted(sizes: Seq<(usize, usize)>, less: Less, n: nat)
    requires
        n <= sizes.len(),
        n <= usize::MAX,
        strict(less),
    ensures
        forall|j: int, k: int|
            0 <= j < k < n ==> !less(
                sizes[#[trigger] descending(sizes, less, n)[j] as int],
                sizes[#[trigger] descending(sizes, less, n)[k] as int],
            ),
    decreases n,
{
    if n > 0 {
        let m = (n - 1) as nat;
        let order = descending(sizes, less, m);
        let size = sizes[m as int];
        let at = slot(sizes, less, order, size);
        let next = descending(sizes, less, n);
        lemma_descending_sorted(sizes, less, m);
        lemma_descending_indices(sizes, less, m);
        lemma_slot(sizes, less, order, size);
        assert(next == order.insert(at, m as usize));
        assert forall|j: int, k: int| 0 <= j < k < n implies !less(
            sizes[#[trigger] next[j] as int],
            sizes[#[trigger] next[k] as int],
        ) by {
            if k < at {
                assert(next[j] == order[j] && next[k] == order[k]);
            } else if k == at {
                assert(next[j] == order[j]);
            } else if j < at {
                assert(next[j] == order[j] && next[k] == order[k - 1]);
            } else if j == at {
                let first = sizes[order[at] as int];
                let other = sizes[order[k - 1] as int];
                assert(next[k] == order[k - 1]);
                assert(less(first, size));
                if at < k - 1 {
                    assert(!less(sizes[order[at] as int], sizes[order[k - 1] as int]));
                }
                if less(size, other) {
                    assert(less(first, other));
                }
            } else {
                assert(next[j] == order[j - 1] && next[k] == order[k - 1]);
            }
        }
    }
}

/// Putting one more size into a list adds its sides to the sums.
pub proof fn lemma_totals_insert(sizes: Seq<(usize, usize)>, at: int, size: (usize, usize))
    requires
        0 <= at <= sizes.len(),
    ensures
        total_width(sizes.insert(at, size)) == total_width(sizes) + size.0,
        total_height(sizes.insert(at, size)) == total_height(sizes) + size.1,
    decreases sizes.len(),
{
    let longer = sizes.insert(at, size);
    if at == sizes.len() {
        assert(longer.drop_last() == sizes);
    } else {
        lemma_totals_insert(sizes.drop_last(), at, size);
        assert(longer.drop_last() == sizes.drop_last().insert(at, size));
    }
}

/// The sums of the sides do not depend on the order: in packing order the
/// first `n` sizes add up to what they add up to as given.
pub proof fn lemma_arranged_totals(sizes: Seq<(usize, usize)>, less: Less, n: nat)
    requires
        n <= sizes.len(),
        n <= usize::MAX,
    ensures
        total_width(arranged(sizes, descending(sizes, less, n))) == total_width(
            sizes.take(n as int),
        ),
        total_height(arranged(sizes, descending(sizes, less, n))) == total_height(
            sizes.take(n as int),
        ),
    decreases n,
{
    if n > 0 {
        let m = (n - 1) as nat;
        let order = descending(sizes, less, m);
        let at = slot(sizes, less, order, sizes[m as int]);
        lemma_arranged_totals(sizes, less, m);
        lemma_descending_indices(sizes, less, m);
        lemma_slot(sizes, less, order, sizes[m as int]);
        lemma_totals_insert(arranged(sizes, order), at, sizes[m as int]);
        assert(arranged(sizes, order.insert(at, m as usize)) == arranged(sizes, order).insert(
            at,
            sizes[m as int],
        ));
        assert(sizes.take(n as int).drop_last() == sizes.take(m as int));
    } else {
        assert(arranged(sizes, descending(sizes, less, 0)) == Seq::<(usize, usize)>::empty());
    }
}

} // verus!
