//! What the packing of a list of sizes comes to, and what holds of it: every
//! item lies on the canvas, no two items overlap, and the canvas is no larger
//! than all items side by side and on top of each other.

use crate::arrange::{arranged, descending, Less};
use crate::pack::{lemma_found, lemma_place_wf, Node, Packer, Rect};
use vstd::prelude::*;

verus! {

/// A rectangle that does not overlap the area of a sound tree overlaps none
/// of its free regions.
pub proof fn lemma_clear_outside(root: Node, rect: Rect)
    requires
        root.wf(),
        !rect.overlaps(root.area()),
    ensures
        root.clear_of(rect),
    decreases root,
{
    if root.occupied {
        lemma_clear_outside(*root.down->0, rect);
        lemma_clear_outside(*root.right->0, rect);
    }
}

/// A rectangle that overlaps no free region still overlaps none after an
/// item was placed, and does not overlap the region that took the item.
pub proof fn lemma_place_keeps_clear(root: Node, w: usize, h: usize, rect: Rect)
    requires
        root.wf(),
        root.find(w, h) is Some,
        root.clear_of(rect),
    ensures
        root.place(w, h).clear_of(rect),
        !rect.overlaps(root.find(w, h)->0.area()),
    decreases root,
{
    if root.occupied {
        if root.right->0.find(w, h) is Some {
            lemma_place_keeps_clear(*root.right->0, w, h, rect);
        } else {
            lemma_place_keeps_clear(*root.down->0, w, h, rect);
        }
    } else {
        let by = root.split(w, h);
        assert(by.down->0.clear_of(rect));
        assert(by.right->0.clear_of(rect));
    }
}

/// After an item was placed no free region overlaps it.
pub proof fn lemma_place_clears_spot(root: Node, w: usize, h: usize)
    requires
        root.wf(),
        root.find(w, h) is Some,
    ensures
        root.place(w, h).clear_of(Packer::spot(root, w, h)),
    decreases root,
{
    let spot = Packer::spot(root, w, h);
    if root.occupied {
        let right = *root.right->0;
        let down = *root.down->0;
        if right.find(w, h) is Some {
            lemma_place_clears_spot(right, w, h);
            lemma_found(right, w, h);
            assert(spot == Packer::spot(right, w, h));
            lemma_clear_outside(down, spot);
        } else {
            lemma_place_clears_spot(down, w, h);
            lemma_found(down, w, h);
            assert(spot == Packer::spot(down, w, h));
            lemma_clear_outside(right, spot);
        }
    } else {
        let by = root.split(w, h);
        assert(by.down->0.clear_of(spot));
        assert(by.right->0.clear_of(spot));
    }
}

/// The canvas before any item is fitted: a free region of the size of the
/// first item, or without area where there is no item.
pub open spec fn first_canvas(sizes: Seq<(usize, usize)>) -> Node {
    if sizes.len() == 0 {
        Node::free(0, 0, 0, 0)
    } else {
        Node::free(0, 0, sizes[0].0, sizes[0].1)
    }
}

/// The tree after the first `n` of `sizes` were fitted in, in their order.
pub open spec fn packed(sizes: Seq<(usize, usize)>, n: nat) -> Node
    decreases n,
{
    if n == 0 {
        first_canvas(sizes)
    } else {
        Packer::fitted(packed(sizes, (n - 1) as nat), sizes[n - 1].0, sizes[n - 1].1)
    }
}

/// Where the item with index `i` of `sizes` is put.
pub open spec fn spot_of(sizes: Seq<(usize, usize)>, i: int) -> Rect {
    Packer::spot(packed(sizes, i as nat), sizes[i].0, sizes[i].1)
}

/// Where each of `sizes` is put, in their order.
pub open spec fn spots(sizes: Seq<(usize, usize)>) -> Seq<Rect> {
    Seq::new(sizes.len(), |i: int| spot_of(sizes, i))
}

/// The canvas that holds all of `sizes`.
pub open spec fn canvas(sizes: Seq<(usize, usize)>) -> Rect {
    packed(sizes, sizes.len()).area()
}

/// Whether the first `n` of `sizes` can be fitted in one after the other.
pub open spec fn packable_upto(sizes: Seq<(usize, usize)>, n: nat) -> bool {
    forall|i: int|
        0 <= i < n ==> Packer::can_fit(#[trigger] packed(sizes, i as nat), sizes[i].0, sizes[i].1)
}

/// Whether all of `sizes` can be fitted in one after the other: no item finds
/// the canvas unable to grow for it, and the canvas stays inside the range of
/// `usize`.
pub open spec fn packable(sizes: Seq<(usize, usize)>) -> bool {
    packable_upto(sizes, sizes.len())
}

/// The sum of the widths of `sizes`.
pub open spec fn total_width(sizes: Seq<(usize, usize)>) -> nat
    decreases sizes.len(),
{
    if sizes.len() == 0 {
        0
    } else {
        total_width(sizes.drop_last()) + sizes.last().0 as nat
    }
}

/// The sum of the heights of `sizes`.
pub open spec fn total_height(sizes: Seq<(usize, usize)>) -> nat
    decreases sizes.len(),
{
    if sizes.len() == 0 {
        0
    } else {
        total_height(sizes.drop_last()) + sizes.last().1 as nat
    }
}

/// What holds after `n` items: the tree is sound and starts at the origin,
/// each item lies on the canvas and clear of the free regions, no two items
/// overlap, and the canvas is no smaller than at first and no larger than
/// the sums of the items' sides.
pub open spec fn orderly(sizes: Seq<(usize, usize)>, n: nat) -> bool {
    let root = packed(sizes, n);
    &&& root.wf()
    &&& root.x == 0
    &&& root.y == 0
    &&& first_canvas(sizes).width <= root.width
    &&& first_canvas(sizes).height <= root.height
    &&& n > 0 ==> root.width <= total_width(sizes.take(n as int))
    &&& n > 0 ==> root.height <= total_height(sizes.take(n as int))
    &&& forall|i: int|
        0 <= i < n ==> (#[trigger] spot_of(sizes, i)).within(root.area()) && root.clear_of(
            spot_of(sizes, i),
        )
    &&& forall|i: int, j: int|
        0 <= i < j < n ==> !(#[trigger] spot_of(sizes, i)).overlaps(#[trigger] spot_of(sizes, j))
}

/// Fitting an item in keeps the tree sound and at the origin, puts the item
/// on the canvas and clear of the free regions, and lets the canvas grow by
/// no more than the item's width or height.
pub proof fn lemma_fit_sound(root: Node, w: usize, h: usize)
    requires
        root.wf(),
        root.x == 0,
        root.y == 0,
        Packer::can_fit(root, w, h),
    ensures
        ({
            let next = Packer::fitted(root, w, h);
            let spot = Packer::spot(root, w, h);
            &&& next.wf()
            &&& next.x == 0
            &&& next.y == 0
            &&& spot.within(next.area())
            &&& next.clear_of(spot)
            &&& root.width <= next.width <= root.width + w
            &&& root.height <= next.height <= root.height + h
            &&& root.find(w, h) is Some ==> next.area() == root.area()
        }),
{
    let next = Packer::fitted(root, w, h);
    let spot = Packer::spot(root, w, h);
    if root.find(w, h) is Some {
        lemma_found(root, w, h);
        lemma_place_wf(root, w, h);
        lemma_place_clears_spot(root, w, h);
    } else if Packer::grows_right(root, w, h) {
        let taken = Node::free(root.width, 0, w, root.height).split(w, h);
        assert(taken.down->0.wf());
        assert(taken.right->0.wf());
        assert(taken.wf());
        assert(next.wf());
        lemma_clear_outside(root, spot);
        assert(taken.down->0.clear_of(spot));
        assert(taken.right->0.clear_of(spot));
        assert(taken.clear_of(spot));
        assert(next.down->0.clear_of(spot));
        assert(next.right->0.clear_of(spot));
    } else {
        let taken = Node::free(0, root.height, root.width, h).split(w, h);
        assert(taken.down->0.wf());
        assert(taken.right->0.wf());
        assert(taken.wf());
        assert(next.wf());
        lemma_clear_outside(root, spot);
        assert(taken.down->0.clear_of(spot));
        assert(taken.right->0.clear_of(spot));
        assert(taken.clear_of(spot));
        assert(next.down->0.clear_of(spot));
        assert(next.right->0.clear_of(spot));
    }
}

/// A rectangle on the canvas that is clear of the free regions stays so when
/// an item is fitted in, and the item does not overlap it.
pub proof fn lemma_fit_keeps(root: Node, w: usize, h: usize, rect: Rect)
    requires
        root.wf(),
        root.x == 0,
        root.y == 0,
        Packer::can_fit(root, w, h),
        rect.within(root.area()),
        root.clear_of(rect),
    ensures
        rect.within(Packer::fitted(root, w, h).area()),
        Packer::fitted(root, w, h).clear_of(rect),
        !rect.overlaps(Packer::spot(root, w, h)),
{
    let next = Packer::fitted(root, w, h);
    if root.find(w, h) is Some {
        lemma_found(root, w, h);
        lemma_place_wf(root, w, h);
        lemma_place_keeps_clear(root, w, h, rect);
    } else if Packer::grows_right(root, w, h) {
        let taken = Node::free(root.width, 0, w, root.height).split(w, h);
        assert(taken.down->0.clear_of(rect));
        assert(taken.right->0.clear_of(rect));
        assert(taken.clear_of(rect));
        assert(next.down->0.clear_of(rect));
        assert(next.right->0.clear_of(rect));
    } else {
        let taken = Node::free(0, root.height, root.width, h).split(w, h);
        assert(taken.down->0.clear_of(rect));
        assert(taken.right->0.clear_of(rect));
        assert(taken.clear_of(rect));
        assert(next.down->0.clear_of(rect));
        assert(next.right->0.clear_of(rect));
    }
}

/// Fitting items in keeps the packing orderly.
pub proof fn lemma_orderly(sizes: Seq<(usize, usize)>, n: nat)
    requires
        n <= sizes.len(),
        packable_upto(sizes, n),
    ensures
        orderly(sizes, n),
    decreases n,
{
    if n == 0 {
        assert(first_canvas(sizes).wf());
    } else {
        let m = (n - 1) as nat;
        lemma_orderly(sizes, m);
        let root = packed(sizes, m);
        let (w, h) = sizes[m as int];
        let next = packed(sizes, n);
        let spot = spot_of(sizes, m as int);
        assert(Packer::can_fit(root, w, h));
        assert(next == Packer::fitted(root, w, h));
        assert(sizes.take(n as int).drop_last() == sizes.take(m as int));
        assert(sizes.take(n as int).last() == sizes[m as int]);
        lemma_fit_sound(root, w, h);
        assert forall|i: int| 0 <= i < m implies (#[trigger] spot_of(sizes, i)).within(next.area())
            && next.clear_of(spot_of(sizes, i)) && !spot_of(sizes, i).overlaps(spot) by {
            lemma_fit_keeps(root, w, h, spot_of(sizes, i));
        }
        if m == 0 {
            assert(root.find(w, h) == Some(root));
        }
    }
}

/// The sums over the first items are no larger than the sums over all.
pub proof fn lemma_totals_grow(sizes: Seq<(usize, usize)>, n: nat)
    requires
        n <= sizes.len(),
    ensures
        total_width(sizes.take(n as int)) <= total_width(sizes),
        total_height(sizes.take(n as int)) <= total_height(sizes),
    decreases sizes.len(),
{
    if n < sizes.len() {
        lemma_totals_grow(sizes.drop_last(), n);
        assert(sizes.drop_last().take(n as int) == sizes.take(n as int));
    } else {
        assert(sizes.take(n as int) == sizes);
    }
}

/// Every item is put on the canvas with its own size, and no two items
/// overlap.
pub proof fn lemma_spots_apart(sizes: Seq<(usize, usize)>)
    requires
        packable(sizes),
    ensures
        spots(sizes).len() == sizes.len(),
        forall|i: int|
            0 <= i < sizes.len() ==> {
                let spot = #[trigger] spots(sizes)[i];
                &&& spot.width == sizes[i].0
                &&& spot.height == sizes[i].1
                &&& spot.within(canvas(sizes))
            },
        forall|i: int, j: int|
            0 <= i < sizes.len() && 0 <= j < sizes.len() && i != j ==> !(#[trigger] spots(
                sizes,
            )[i]).overlaps(#[trigger] spots(sizes)[j]),
{
    lemma_orderly(sizes, sizes.len());
    assert forall|i: int, j: int|
        0 <= i < sizes.len() && 0 <= j < sizes.len() && i != j implies !(#[trigger] spots(
        sizes,
    )[i]).overlaps(#[trigger] spots(sizes)[j]) by {
        if i < j {
            assert(!spot_of(sizes, i).overlaps(spot_of(sizes, j)));
        } else {
            assert(!spot_of(sizes, j).overlaps(spot_of(sizes, i)));
        }
    }
}

/// The canvas starts at the origin, is no wider than all items side by side
/// and no higher than all items on top of each other, and no narrower or
/// lower than any one item.
pub proof fn lemma_canvas_bounds(sizes: Seq<(usize, usize)>)
    requires
        packable(sizes),
    ensures
        canvas(sizes).x == 0,
        canvas(sizes).y == 0,
        canvas(sizes).width <= total_width(sizes),
        canvas(sizes).height <= total_height(sizes),
        forall|i: int|
            0 <= i < sizes.len() ==> (#[trigger] sizes[i]).0 <= canvas(sizes).width && sizes[i].1
                <= canvas(sizes).height,
{
    lemma_orderly(sizes, sizes.len());
    assert(sizes.take(sizes.len() as int) == sizes);
    assert forall|i: int| 0 <= i < sizes.len() implies (#[trigger] sizes[i]).0 <= canvas(
        sizes,
    ).width && sizes[i].1 <= canvas(sizes).height by {
        assert(spot_of(sizes, i).within(canvas(sizes)));
    }
}

/// The longer side of a size.
pub open spec fn longer_side(size: (usize, usize)) -> usize {
    if size.0 >= size.1 {
        size.0
    } else {
        size.1
    }
}

/// Items can be fitted in one after the other if none has a longer side than
/// the first, and all side by side, and all on top of each other, stay
/// inside the range of `usize`.
pub proof fn lemma_packable(sizes: Seq<(usize, usize)>, n: nat)
    requires
        n <= sizes.len(),
        forall|i: int| 0 <= i < sizes.len() ==> longer_side(#[trigger] sizes[i]) <= longer_side(sizes[0]),
        total_width(sizes) <= usize::MAX,
        total_height(sizes) <= usize::MAX,
    ensures
        packable_upto(sizes, n),
    decreases n,
{
    if n > 0 {
        let m = (n - 1) as nat;
        lemma_packable(sizes, m);
        lemma_orderly(sizes, m);
        lemma_totals_grow(sizes, m);
        lemma_totals_grow(sizes, n);
        let root = packed(sizes, m);
        let (w, h) = sizes[m as int];
        assert(sizes.take(n as int).drop_last() == sizes.take(m as int));
        assert(sizes.take(n as int).last() == sizes[m as int]);
        if m == 0 {
            assert(root.find(w, h) == Some(root));
        }
        assert(longer_side(sizes[m as int]) <= longer_side(sizes[0]));
        assert(Packer::can_fit(root, w, h));
        assert forall|i: int| 0 <= i < n implies Packer::can_fit(
            #[trigger] packed(sizes, i as nat),
            sizes[i].0,
            sizes[i].1,
        ) by {
            if i < m {
                assert(Packer::can_fit(packed(sizes, i as nat), sizes[i].0, sizes[i].1));
            }
        }
    }
}

/// The comparison of two sizes by their longer sides.
pub open spec fn by_longer_side() -> Less {
    |a: (usize, usize), b: (usize, usize)| longer_side(a) < longer_side(b)
}

/// In descending order by their longer sides items can be fitted in one
/// after the other, if all side by side, and all on top of each other, stay
/// inside the range of `usize`.
pub proof fn lemma_sorted_packable(sizes: Seq<(usize, usize)>)
    requires
        sizes.len() <= usize::MAX,
        total_width(sizes) <= usize::MAX,
        total_height(sizes) <= usize::MAX,
    ensures
        packable(arranged(sizes, descending(sizes, by_longer_side(), sizes.len()))),
{
    let less = by_longer_side();
    let order = descending(sizes, less, sizes.len());
    let sorted = arranged(sizes, order);
    crate::arrange::lemma_descending_indices(sizes, less, sizes.len());
    crate::arrange::lemma_descending_sorted(sizes, less, sizes.len());
    crate::arrange::lemma_arranged_totals(sizes, less, sizes.len());
    assert(sizes.take(sizes.len() as int) == sizes);
    assert forall|i: int| 0 <= i < sorted.len() implies longer_side(#[trigger] sorted[i])
        <= longer_side(sorted[0]) by {
        if i > 0 {
            assert(!less(sizes[order[0] as int], sizes[order[i] as int]));
        }
    }
    lemma_packable(sorted, sorted.len());
}

} // verus!
