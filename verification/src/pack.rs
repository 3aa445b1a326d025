//! Packing rectangles into a small enclosing rectangle.
//!
//! The packer keeps a binary tree of regions. A free region that is large
//! enough takes the next item in its upper-left corner and is split into the
//! strip below the item and the strip to its right. When no free region is
//! large enough the canvas grows by a strip to the right or below.

use crate::arrange::{arranged, conforms, descending, lists_all, sort_order, Less};
use crate::layout::{
    canvas, lemma_canvas_bounds, lemma_spots_apart, longer_side, packable, packed, spots,
    total_height, total_width,
};
use std::cmp::Ordering;
use std::collections::HashMap;
use std::hash::Hash;
use vstd::prelude::*;
use vstd::std_specs::hash::obeys_key_model;

verus! {

broadcast use vstd::std_specs::hash::group_hash_axioms;

/// A placed rectangle. `x`, `y` is its upper-left corner; `y` grows downward.
#[derive(Debug, Clone, Copy, PartialEq, Eq)]
pub struct Rect {
    pub x: usize,
    pub y: usize,
    pub width: usize,
    pub height: usize,
}

impl Rect {
    /// Whether this rectangle lies inside `outer`.
    pub open spec fn within(self, outer: Rect) -> bool {
        &&& outer.x <= self.x
        &&& self.x + self.width <= outer.x + outer.width
        &&& outer.y <= self.y
        &&& self.y + self.height <= outer.y + outer.height
    }

    /// Whether the two rectangles overlap: neither lies wholly left of,
    /// right of, above or below the other. Of two rectangles with area this
    /// says that they share a point.
    pub open spec fn overlaps(self, other: Rect) -> bool {
        &&& self.x < other.x + other.width
        &&& other.x < self.x + self.width
        &&& self.y < other.y + other.height
        &&& other.y < self.y + self.height
    }
}

/// A region of the canvas. A free region has no children; an occupied one has
/// two, which lie inside it and share no point.
pub struct Node {
    pub occupied: bool,
    pub x: usize,
    pub y: usize,
    pub width: usize,
    pub height: usize,
    pub down: Option<Box<Node>>,
    pub right: Option<Box<Node>>,
}

impl Node {
    /// The free region with the given corner and size.
    pub open spec fn free(x: usize, y: usize, width: usize, height: usize) -> Node {
        Node { occupied: false, x, y, width, height, down: None, right: None }
    }

    /// The rectangle that the region covers.
    pub open spec fn area(self) -> Rect {
        Rect { x: self.x, y: self.y, width: self.width, height: self.height }
    }

    /// Whether the tree is sound: every region ends inside the range of
    /// `usize`, a free region is a leaf, and the two children of an occupied
    /// region lie inside it and share no point.
    pub open spec fn wf(self) -> bool
        decreases self,
    {
        &&& self.x + self.width <= usize::MAX
        &&& self.y + self.height <= usize::MAX
        &&& if self.occupied {
            &&& self.down is Some
            &&& self.right is Some
            &&& self.down->0.wf()
            &&& self.right->0.wf()
            &&& self.down->0.area().within(self.area())
            &&& self.right->0.area().within(self.area())
            &&& !self.down->0.area().overlaps(self.right->0.area())
        } else {
            self.down is None && self.right is None
        }
    }

    /// Whether no free region of the tree overlaps `rect`.
    pub open spec fn clear_of(self, rect: Rect) -> bool
        decreases self,
    {
        if self.occupied {
            self.down is Some && self.right is Some ==> self.down->0.clear_of(rect)
                && self.right->0.clear_of(rect)
        } else {
            !rect.overlaps(self.area())
        }
    }

    /// The first free region that can take an item of `w` by `h`: the tree
    /// right of an occupied region is searched before the tree below it.
    pub open spec fn find(self, w: usize, h: usize) -> Option<Node>
        decreases self,
    {
        if self.occupied {
            if self.right is Some && self.down is Some {
                match self.right->0.find(w, h) {
                    Some(node) => Some(node),
                    None => self.down->0.find(w, h),
                }
            } else {
                None
            }
        } else if w <= self.width && h <= self.height {
            Some(self)
        } else {
            None
        }
    }

    /// The tree with the region that `find` gives replaced by `by`.
    pub open spec fn replace_found(self, w: usize, h: usize, by: Node) -> Node
        decreases self,
    {
        if self.occupied {
            if self.right is Some && self.down is Some {
                if self.right->0.find(w, h) is Some {
                    Node { right: Some(Box::new(self.right->0.replace_found(w, h, by))), ..self }
                } else {
                    Node { down: Some(Box::new(self.down->0.replace_found(w, h, by))), ..self }
                }
            } else {
                self
            }
        } else if w <= self.width && h <= self.height {
            by
        } else {
            self
        }
    }

    /// The region once an item of `w` by `h` sits in its upper-left corner:
    /// occupied, with the strip below the item over the full width as `down`
    /// and the strip right of the item, as high as the item, as `right`.
    pub open spec fn split(self, w: usize, h: usize) -> Node {
        Node {
            occupied: true,
            x: self.x,
            y: self.y,
            width: self.width,
            height: self.height,
            down: Some(
                Box::new(
                    Node::free(
                        self.x,
                        (self.y + h) as usize,
                        self.width,
                        (self.height - h) as usize,
                    ),
                ),
            ),
            right: Some(
                Box::new(
                    Node::free((self.x + w) as usize, self.y, (self.width - w) as usize, h),
                ),
            ),
        }
    }

    /// The tree once the item of `w` by `h` sits in the region that `find`
    /// gives.
    pub open spec fn place(self, w: usize, h: usize) -> Node {
        self.replace_found(w, h, self.find(w, h)->0.split(w, h))
    }

    /// A free region with the given corner and size.
    pub fn new(x: usize, y: usize, width: usize, height: usize) -> (node: Node)
        ensures
            node == Node::free(x, y, width, height),
    {
        Node { occupied: false, x, y, width, height, down: None, right: None }
    }
}

/// What `find` gives is a sound free region that can take the item.
pub proof fn lemma_found(root: Node, w: usize, h: usize)
    requires
        root.wf(),
        root.find(w, h) is Some,
    ensures
        ({
            let node = root.find(w, h)->0;
            &&& node.wf()
            &&& !node.occupied
            &&& w <= node.width
            &&& h <= node.height
            &&& node.area().within(root.area())
        }),
    decreases root,
{
    if root.occupied {
        if root.right->0.find(w, h) is Some {
            lemma_found(*root.right->0, w, h);
        } else {
            lemma_found(*root.down->0, w, h);
        }
    }
}

/// The backing structure of the packing: the tree of regions, whose root
/// covers the whole canvas.
pub struct Packer {
    pub root: Node,
}

impl Packer {
    /// Whether the tree is sound and the canvas starts at the origin.
    pub open spec fn wf(self) -> bool {
        self.root.wf() && self.root.x == 0 && self.root.y == 0
    }

    /// A packer whose canvas is one free region of `w` by `h`.
    pub fn new(w: usize, h: usize) -> (packer: Packer)
        ensures
            packer.root == Node::free(0, 0, w, h),
            packer.wf(),
    {
        Packer { root: Node::new(0, 0, w, h) }
    }

    /// Finds the first free region that can take an item of `w` by `h`.
    pub fn find_node<'a>(root: &'a mut Node, w: usize, h: usize) -> (found: Option<&'a mut Node>)
        requires
            old(root).wf(),
        ensures
            match found {
                Some(node) => old(root).find(w, h) == Some(*node) && *final(root) == old(
                    root,
                ).replace_found(w, h, *final(node)),
                None => old(root).find(w, h) is None && *final(root) == *old(root),
            },
        decreases *old(root),
    {
        if root.occupied {
            let found = Self::find_node(root.right.as_mut().unwrap(), w, h);
            if found.is_some() {
                return found;
            }
            Self::find_node(root.down.as_mut().unwrap(), w, h)
        } else if w <= root.width && h <= root.height {
            Some(root)
        } else {
            None
        }
    }

    /// Puts an item of `w` by `h` into the upper-left corner of a free
    /// region and splits the rest of the region in two.
    pub fn split_node(node: &mut Node, w: usize, h: usize)
        requires
            old(node).wf(),
            !old(node).occupied,
            w <= old(node).width,
            h <= old(node).height,
        ensures
            *final(node) == old(node).split(w, h),
            final(node).wf(),
    {
        node.occupied = true;
        node.down = Some(Box::new(Node::new(node.x, node.y + h, node.width, node.height - h)));
        node.right = Some(Box::new(Node::new(node.x + w, node.y, node.width - w, h)));
        assert(node.down->0.wf());
        assert(node.right->0.wf());
    }

    /// Whether a canvas that cannot take the item as it is grows to the
    /// right: it does if the item is no higher than the canvas and either
    /// the canvas is higher than it would then be wide, or it is not the
    /// case that the item is no wider than the canvas and the canvas wider
    /// than it would be high after growing down.
    pub open spec fn grows_right(root: Node, w: usize, h: usize) -> bool {
        let can_right = h <= root.height;
        let can_down = w <= root.width;
        let should_right = can_right && root.height > root.width + w;
        let should_down = can_down && root.width > root.height + h;
        should_right || (!should_down && can_right)
    }

    /// Whether a canvas that cannot take the item as it is grows downward:
    /// it does if it does not grow to the right and the item is no wider
    /// than the canvas.
    pub open spec fn grows_down(root: Node, w: usize, h: usize) -> bool {
        !Self::grows_right(root, w, h) && w <= root.width
    }

    /// The tree after growing to the right for an item of `w` by `h`: a new
    /// root, wider by `w`, with the old tree as `down` and the new strip,
    /// which holds the item, as `right`.
    pub open spec fn grown_right(root: Node, w: usize, h: usize) -> Node {
        Node {
            occupied: true,
            x: 0,
            y: 0,
            width: (root.width + w) as usize,
            height: root.height,
            down: Some(Box::new(root)),
            right: Some(Box::new(Node::free(root.width, 0, w, root.height).split(w, h))),
        }
    }

    /// The tree after growing downward for an item of `w` by `h`: a new
    /// root, higher by `h`, with the old tree as `right` and the new strip,
    /// which holds the item, as `down`.
    pub open spec fn grown_down(root: Node, w: usize, h: usize) -> Node {
        Node {
            occupied: true,
            x: 0,
            y: 0,
            width: root.width,
            height: (root.height + h) as usize,
            down: Some(Box::new(Node::free(0, root.height, root.width, h).split(w, h))),
            right: Some(Box::new(root)),
        }
    }

    /// Whether the canvas can take an item of `w` by `h`: a free region is
    /// large enough, or the canvas can grow in the direction it chooses
    /// without leaving the range of `usize`.
    pub open spec fn can_fit(root: Node, w: usize, h: usize) -> bool {
        ||| root.find(w, h) is Some
        ||| Self::grows_right(root, w, h) && root.width + w <= usize::MAX
        ||| Self::grows_down(root, w, h) && root.height + h <= usize::MAX
    }

    /// The tree after an item of `w` by `h` was fitted in.
    pub open spec fn fitted(root: Node, w: usize, h: usize) -> Node {
        if root.find(w, h) is Some {
            root.place(w, h)
        } else if Self::grows_right(root, w, h) {
            Self::grown_right(root, w, h)
        } else {
            Self::grown_down(root, w, h)
        }
    }

    /// Where an item of `w` by `h` is put: in the upper-left corner of the
    /// first free region that can take it, or else of the strip by which the
    /// canvas grows.
    pub open spec fn spot(root: Node, w: usize, h: usize) -> Rect {
        if root.find(w, h) is Some {
            Rect { x: root.find(w, h)->0.x, y: root.find(w, h)->0.y, width: w, height: h }
        } else if Self::grows_right(root, w, h) {
            Rect { x: root.width, y: 0, width: w, height: h }
        } else {
            Rect { x: 0, y: root.height, width: w, height: h }
        }
    }

    /// Fits an item of `w` by `h` into the canvas and says where it lies:
    /// in the first free region that can take it, or else in a strip by
    /// which the canvas grows. The canvas must be able to take the item.
    pub fn fit(&mut self, w: usize, h: usize) -> (rect: Rect)
        requires
            old(self).wf(),
            Self::can_fit(old(self).root, w, h),
        ensures
            final(self).root == Self::fitted(old(self).root, w, h),
            rect == Self::spot(old(self).root, w, h),
            final(self).wf(),
    {
        proof {
            if self.root.find(w, h) is Some {
                lemma_found(self.root, w, h);
                lemma_place_wf(self.root, w, h);
            }
        }
        match Self::find_node(&mut self.root, w, h) {
            Some(node) => {
                let rect = Rect { x: node.x, y: node.y, width: w, height: h };
                Self::split_node(node, w, h);
                rect
            },
            None => self.grow_node(w, h),
        }
    }

    /// Grows the canvas for an item that no free region can take, to the
    /// right or downward, so that it stays close to a square.
    pub fn grow_node(&mut self, w: usize, h: usize) -> (rect: Rect)
        requires
            old(self).wf(),
            old(self).root.find(w, h) is None,
            Self::can_fit(old(self).root, w, h),
        ensures
            final(self).root == Self::fitted(old(self).root, w, h),
            rect == Self::spot(old(self).root, w, h),
            final(self).wf(),
    {
        let root_w = self.root.width;
        let root_h = self.root.height;

        let can_down = w <= root_w;
        let can_right = h <= root_h;

        let should_right = can_right && root_h > root_w && root_h - root_w > w;
        let should_down = can_down && root_w > root_h && root_w - root_h > h;

        if should_right {
            self.grow_right(w, h)
        } else if should_down {
            self.grow_down(w, h)
        } else if can_right {
            self.grow_right(w, h)
        } else {
            self.grow_down(w, h)
        }
    }

    /// Grows the canvas to the right by the width of the item and puts the
    /// item into the new strip.
    pub fn grow_right(&mut self, w: usize, h: usize) -> (rect: Rect)
        requires
            old(self).wf(),
            h <= old(self).root.height,
            old(self).root.width + w <= usize::MAX,
        ensures
            final(self).root == Self::grown_right(old(self).root, w, h),
            rect == (Rect { x: old(self).root.width, y: 0, width: w, height: h }),
            final(self).wf(),
    {
        let root_w = self.root.width;
        let root_h = self.root.height;

        let mut below = Node::new(0, 0, 0, 0);
        std::mem::swap(&mut self.root, &mut below);
        let mut root = Node::new(0, 0, root_w + w, root_h);
        root.occupied = true;
        root.down = Some(Box::new(below));
        root.right = Some(Box::new(Node::new(root_w, 0, w, root_h)));
        self.root = root;
        let ghost grown = self.root;
        let ghost strip = Node::free(root_w, 0, w, root_h);
        proof {
            assert(strip.wf());
            assert(strip.find(w, h) == Some(strip));
            assert(grown.wf());
            assert(grown.find(w, h) == Some(strip));
            assert(strip.replace_found(w, h, strip.split(w, h)) == strip.split(w, h));
            assert(grown.replace_found(w, h, strip.split(w, h)) == Self::grown_right(
                old(self).root,
                w,
                h,
            ));
        }

        let node = Self::find_node(&mut self.root, w, h).unwrap();
        let rect = Rect { x: node.x, y: node.y, width: w, height: h };
        Self::split_node(node, w, h);
        rect
    }

    /// Grows the canvas downward by the height of the item and puts the item
    /// into the new strip.
    pub fn grow_down(&mut self, w: usize, h: usize) -> (rect: Rect)
        requires
            old(self).wf(),
            old(self).root.find(w, h) is None,
            w <= old(self).root.width,
            old(self).root.height + h <= usize::MAX,
        ensures
            final(self).root == Self::grown_down(old(self).root, w, h),
            rect == (Rect { x: 0, y: old(self).root.height, width: w, height: h }),
            final(self).wf(),
    {
        let root_w = self.root.width;
        let root_h = self.root.height;

        let mut beside = Node::new(0, 0, 0, 0);
        std::mem::swap(&mut self.root, &mut beside);
        let mut root = Node::new(0, 0, root_w, root_h + h);
        root.occupied = true;
        root.right = Some(Box::new(beside));
        root.down = Some(Box::new(Node::new(0, root_h, root_w, h)));
        self.root = root;
        let ghost grown = self.root;
        let ghost strip = Node::free(0, root_h, root_w, h);
        proof {
            assert(strip.wf());
            assert(strip.find(w, h) == Some(strip));
            assert(grown.wf());
            assert(grown.find(w, h) == Some(strip));
            assert(strip.replace_found(w, h, strip.split(w, h)) == strip.split(w, h));
            assert(grown.replace_found(w, h, strip.split(w, h)) == Self::grown_down(
                old(self).root,
                w,
                h,
            ));
        }

        let node = Self::find_node(&mut self.root, w, h).unwrap();
        let rect = Rect { x: node.x, y: node.y, width: w, height: h };
        Self::split_node(node, w, h);
        rect
    }
}

/// Placing an item keeps a sound tree sound and leaves the root's area as it
/// was.
pub proof fn lemma_place_wf(root: Node, w: usize, h: usize)
    requires
        root.wf(),
        root.find(w, h) is Some,
    ensures
        root.place(w, h).wf(),
        root.place(w, h).area() == root.area(),
    decreases root,
{
    let by = root.find(w, h)->0.split(w, h);
    if root.occupied {
        if root.right->0.find(w, h) is Some {
            lemma_place_wf(*root.right->0, w, h);
        } else {
            lemma_place_wf(*root.down->0, w, h);
        }
    } else {
        assert(by.down->0.wf());
        assert(by.right->0.wf());
    }
}

/// What a packing comes to: the size of the canvas, and where on it each
/// item lies, by the item's key.
pub struct PackResult<K> {
    pub width: usize,
    pub height: usize,
    pub items: HashMap<K, Rect>,
}

/// A packing before it is filed by key: the size of the canvas, and the keys
/// and the rectangles of the items in packing order.
pub struct Placements<K> {
    pub width: usize,
    pub height: usize,
    pub keys: Vec<K>,
    pub rects: Vec<Rect>,
}

/// The map that takes each of `keys` to the rectangle at the same index. Of
/// two equal keys the later counts.
pub open spec fn placed<K>(keys: Seq<K>, rects: Seq<Rect>) -> Map<K, Rect>
    decreases keys.len(),
{
    if keys.len() == 0 || rects.len() == 0 {
        Map::empty()
    } else {
        placed(keys.drop_last(), rects.drop_last()).insert(keys.last(), rects.last())
    }
}

impl<K> PackResult<K> {
    /// The canvas: a rectangle at the origin.
    pub open spec fn canvas(self) -> Rect {
        Rect { x: 0, y: 0, width: self.width, height: self.height }
    }

    /// Whether every rectangle lies on the canvas and no two overlap.
    pub open spec fn sound(self) -> bool {
        &&& forall|key: K|
            self.items@.contains_key(key) ==> (#[trigger] self.items@[key]).within(self.canvas())
        &&& forall|a: K, b: K|
            self.items@.contains_key(a) && self.items@.contains_key(b) && a != b ==> !(
            #[trigger] self.items@[a]).overlaps(#[trigger] self.items@[b])
    }

    /// Whether this is what fitting `sizes` in, in their order, comes to,
    /// with `keys[j]` the key of the item of `sizes[j]`.
    pub open spec fn is_packing(self, sizes: Seq<(usize, usize)>, keys: Seq<K>) -> bool {
        &&& self.width == canvas(sizes).width
        &&& self.height == canvas(sizes).height
        &&& self.items@ == placed(keys, spots(sizes))
    }
}

impl<K> Placements<K> {
    /// Whether these are the places of `sizes` fitted in, in their order.
    pub open spec fn is_layout(self, sizes: Seq<(usize, usize)>) -> bool {
        &&& self.width == canvas(sizes).width
        &&& self.height == canvas(sizes).height
        &&& self.rects@ == spots(sizes)
        &&& self.keys@.len() == sizes.len()
    }
}

/// Whether `read` can be asked about each of `items`.
pub open spec fn accepts<T, R, F: Fn(&T) -> R>(read: F, items: Seq<T>) -> bool {
    forall|i: int| 0 <= i < items.len() ==> call_requires(read, (&#[trigger] items[i],))
}

/// Whether `answers` holds, for each of `items`, what `read` returned for it.
pub open spec fn answers<T, R, F: Fn(&T) -> R>(read: F, items: Seq<T>, answers: Seq<R>) -> bool {
    &&& answers.len() == items.len()
    &&& forall|i: int|
        0 <= i < items.len() ==> call_ensures(read, (&items[i],), #[trigger] answers[i])
}

/// Whether `order` is the packing order of `sizes` by `compare`, which
/// answers `yes` where the first size is less than the second: `order` lists
/// every index once, and for each comparison that `compare` computes it is
/// the descending order by that comparison.
pub open spec fn orders<O, F: Fn(&(usize, usize), &(usize, usize)) -> O>(
    compare: F,
    yes: O,
    sizes: Seq<(usize, usize)>,
    order: Seq<usize>,
) -> bool {
    &&& lists_all(order, sizes.len())
    &&& forall|less: Less| #[trigger]
        conforms(compare, yes, less) ==> order == descending(sizes, less, sizes.len())
}

/// Whether the items can be packed whatever `size_f` and `ordering_f`
/// answer: in every order that they allow, the sizes can be fitted in one
/// after the other.
pub open spec fn can_pack<T, O, FS, FO>(to_pack: Seq<T>, size_f: FS, ordering_f: FO, yes: O) -> bool where
    FS: Fn(&T) -> (usize, usize),
    FO: Fn(&(usize, usize), &(usize, usize)) -> O,
 {
    forall|sizes: Seq<(usize, usize)>, order: Seq<usize>|
        answers(size_f, to_pack, sizes) && orders(ordering_f, yes, sizes, order) ==> packable(
            #[trigger] arranged(sizes, order),
        )
}

/// Whether `placements` lays out `to_pack` with `sizes` the sizes of the
/// items as `size_f` gave them and `order` their packing order by
/// `ordering_f`: the keys are what `key_f` gave for the items in that order,
/// and the rectangles are where the sizes in that order are put.
pub open spec fn lays_out<T, K, O, FS, FO, FK>(
    to_pack: Seq<T>,
    size_f: FS,
    ordering_f: FO,
    yes: O,
    key_f: FK,
    sizes: Seq<(usize, usize)>,
    order: Seq<usize>,
    placements: Placements<K>,
) -> bool where
    FS: Fn(&T) -> (usize, usize),
    FO: Fn(&(usize, usize), &(usize, usize)) -> O,
    FK: Fn(&T) -> K,
 {
    &&& answers(size_f, to_pack, sizes)
    &&& orders(ordering_f, yes, sizes, order)
    &&& packable(arranged(sizes, order))
    &&& answers(key_f, arranged(to_pack, order), placements.keys@)
    &&& placements.is_layout(arranged(sizes, order))
}

/// Whether `result` is a packing of `to_pack` with `sizes` the sizes of the
/// items as `size_f` gave them, `order` their packing order by
/// `ordering_f`, and `keys` the keys of the items in that order as `key_f`
/// gave them. What the map holds is said where the key type hashes as
/// `obeys_key_model` asks.
pub open spec fn packs<T, K, O, FS, FO, FK>(
    to_pack: Seq<T>,
    size_f: FS,
    ordering_f: FO,
    yes: O,
    key_f: FK,
    sizes: Seq<(usize, usize)>,
    order: Seq<usize>,
    keys: Seq<K>,
    result: PackResult<K>,
) -> bool where
    FS: Fn(&T) -> (usize, usize),
    FO: Fn(&(usize, usize), &(usize, usize)) -> O,
    FK: Fn(&T) -> K,
 {
    &&& answers(size_f, to_pack, sizes)
    &&& orders(ordering_f, yes, sizes, order)
    &&& packable(arranged(sizes, order))
    &&& answers(key_f, arranged(to_pack, order), keys)
    &&& result.width == canvas(arranged(sizes, order)).width
    &&& result.height == canvas(arranged(sizes, order)).height
    &&& obeys_key_model::<K>() ==> result.items@ == placed(keys, spots(arranged(sizes, order)))
}

/// The longer side of a size.
pub fn longer(size: &(usize, usize)) -> (side: usize)
    ensures
        side == longer_side(*size),
{
    if size.0 >= size.1 {
        size.0
    } else {
        size.1
    }
}

/// Asks `size_f` for the size of each item.
fn measure<T, FS: Fn(&T) -> (usize, usize)>(to_pack: &Vec<T>, size_f: &FS) -> (sizes: Vec<
    (usize, usize),
>)
    requires
        accepts(*size_f, to_pack@),
    ensures
        answers(*size_f, to_pack@, sizes@),
{
    let mut sizes: Vec<(usize, usize)> = Vec::with_capacity(to_pack.len());
    let mut i: usize = 0;
    while i < to_pack.len()
        invariant
            i <= to_pack@.len(),
            accepts(*size_f, to_pack@),
            answers(*size_f, to_pack@.take(i as int), sizes@),
        decreases to_pack@.len() - i,
    {
        let size = size_f(&to_pack[i]);
        sizes.push(size);
        i += 1;
    }
    assert(to_pack@.take(i as int) == to_pack@);
    sizes
}

/// Fits the items in, in the order of `order`, and lists the key of each as
/// `key_f` gives it and the rectangle where it lies.
fn place_all<T, K, FK: Fn(&T) -> K>(
    to_pack: &Vec<T>,
    sizes: &Vec<(usize, usize)>,
    order: &Vec<usize>,
    key_f: &FK,
) -> (placements: Placements<K>)
    requires
        sizes@.len() == to_pack@.len(),
        lists_all(order@, to_pack@.len()),
        accepts(*key_f, to_pack@),
        packable(arranged(sizes@, order@)),
    ensures
        answers(*key_f, arranged(to_pack@, order@), placements.keys@),
        placements.is_layout(arranged(sizes@, order@)),
{
    let ghost sorted = arranged(sizes@, order@);
    let (w, h) = if order.len() > 0 {
        sizes[order[0]]
    } else {
        (0, 0)
    };
    let mut packer = Packer::new(w, h);
    let mut keys: Vec<K> = Vec::with_capacity(order.len());
    let mut rects: Vec<Rect> = Vec::with_capacity(order.len());
    let mut j: usize = 0;
    while j < order.len()
        invariant
            j <= order@.len(),
            sizes@.len() == to_pack@.len(),
            lists_all(order@, to_pack@.len()),
            accepts(*key_f, to_pack@),
            sorted == arranged(sizes@, order@),
            packable(sorted),
            packer.wf(),
            packer.root == packed(sorted, j as nat),
            answers(*key_f, arranged(to_pack@, order@).take(j as int), keys@),
            rects@ == spots(sorted).take(j as int),
        decreases order@.len() - j,
    {
        let i = order[j];
        let (w, h) = sizes[i];
        let key = key_f(&to_pack[i]);
        proof {
            let at = j as int;
            assert(packed(sorted, at as nat) == packed(sorted, j as nat));
            assert(Packer::can_fit(packed(sorted, at as nat), sorted[at].0, sorted[at].1));
        }
        let rect = packer.fit(w, h);
        keys.push(key);
        rects.push(rect);
        assert(rect == spots(sorted)[j as int]);
        j += 1;
    }
    proof {
        assert(arranged(to_pack@, order@).take(j as int) == arranged(to_pack@, order@));
        assert(spots(sorted).take(j as int) == spots(sorted));
    }
    Placements { width: packer.root.width, height: packer.root.height, keys, rects }
}

/// Packs the items and lists them in packing order: asks `size_f` for the
/// size of each, puts them in descending order by `ordering_f`, those
/// between which it finds no difference in their given order, fits them in
/// one after the other, and lists for each the key that `key_f` gives and
/// the rectangle where it lies.
pub fn pack_items<T, K, FS, FO, FK>(to_pack: Vec<T>, size_f: FS, ordering_f: FO, key_f: FK) -> (placements:
    Placements<K>) where
    FS: Fn(&T) -> (usize, usize),
    FO: Fn(&(usize, usize), &(usize, usize)) -> Ordering,
    FK: Fn(&T) -> K,

    requires
        accepts(size_f, to_pack@),
        accepts(key_f, to_pack@),
        forall|a: (usize, usize), b: (usize, usize)| call_requires(ordering_f, (&a, &b)),
        can_pack(to_pack@, size_f, ordering_f, Ordering::Less),
    ensures
        exists|sizes: Seq<(usize, usize)>, order: Seq<usize>| #[trigger]
            lays_out(to_pack@, size_f, ordering_f, Ordering::Less, key_f, sizes, order, placements),
        to_pack@.len() == 0 ==> placements.width == 0 && placements.height == 0
            && placements.keys@.len() == 0 && placements.rects@.len() == 0,
{
    let sizes = measure(&to_pack, &size_f);
    let compare = &ordering_f;
    let is_less = |a: &(usize, usize), b: &(usize, usize)| -> (out: bool)
        ensures
            forall|less: Less| #[trigger]
                conforms(*compare, Ordering::Less, less) ==> out == less(*a, *b),
        {
            match compare(a, b) {
                Ordering::Less => true,
                _ => false,
            }
        };
    let order = sort_order(&sizes, is_less);
    proof {
        assert forall|less: Less| #[trigger]
            conforms(ordering_f, Ordering::Less, less) implies conforms(is_less, true, less) by {}
        assert(orders(ordering_f, Ordering::Less, sizes@, order@));
        assert(packable(arranged(sizes@, order@)));
    }
    let placements = place_all(&to_pack, &sizes, &order, &key_f);
    proof {
        assert(lays_out(
            to_pack@,
            size_f,
            ordering_f,
            Ordering::Less,
            key_f,
            sizes@,
            order@,
            placements,
        ));
    }
    placements
}

/// Files each rectangle under its key. Of two items with one key the one
/// packed later stays.
fn file_all<K: Eq + Hash>(placements: Placements<K>) -> (result: PackResult<K>)
    requires
        placements.keys@.len() == placements.rects@.len(),
    ensures
        result.width == placements.width,
        result.height == placements.height,
        placements.keys@.len() == 0 ==> result.items@ == Map::<K, Rect>::empty(),
        obeys_key_model::<K>() ==> result.items@ == placed(placements.keys@, placements.rects@),
{
    let Placements { width, height, keys, rects } = placements;
    let ghost all = keys@;
    let count = keys.len();
    let mut items: HashMap<K, Rect> = HashMap::with_capacity(count);
    let mut j: usize = 0;
    for key in it: keys
        invariant
            it.seq() == all,
            j == it.index(),
            all.len() == count,
            all.len() == rects@.len(),
            j == 0 ==> items@ == Map::<K, Rect>::empty(),
            obeys_key_model::<K>() ==> items@ == placed(
                all.take(j as int),
                rects@.take(j as int),
            ),
    {
        assert(all.take(j + 1).drop_last() == all.take(j as int));
        assert(rects@.take(j + 1).drop_last() == rects@.take(j as int));
        items.insert(key, rects[j]);
        j += 1;
    }
    assert(all.take(j as int) == all);
    assert(rects@.take(j as int) == rects@);
    PackResult { width, height, items }
}

/// Packs the items: asks `size_f` for the size of each, puts them in
/// descending order by `ordering_f`, those between which it finds no
/// difference in their given order, fits them in one after the other, and
/// files where each lies under the key that `key_f` gives for it.
pub fn bin_pack<T, K, FS, FO, FK>(to_pack: Vec<T>, size_f: FS, ordering_f: FO, key_f: FK) -> (result:
    PackResult<K>) where
    K: Eq + Hash,
    FS: Fn(&T) -> (usize, usize),
    FO: Fn(&(usize, usize), &(usize, usize)) -> Ordering,
    FK: Fn(&T) -> K,

    requires
        accepts(size_f, to_pack@),
        accepts(key_f, to_pack@),
        forall|a: (usize, usize), b: (usize, usize)| call_requires(ordering_f, (&a, &b)),
        can_pack(to_pack@, size_f, ordering_f, Ordering::Less),
    ensures
        exists|sizes: Seq<(usize, usize)>, order: Seq<usize>, keys: Seq<K>| #[trigger]
            packs(
                to_pack@,
                size_f,
                ordering_f,
                Ordering::Less,
                key_f,
                sizes,
                order,
                keys,
                result,
            ),
        to_pack@.len() == 0 ==> result.width == 0 && result.height == 0 && result.items@
            == Map::<K, Rect>::empty(),
        obeys_key_model::<K>() ==> result.sound(),
{
    let ghost given = to_pack@;
    let placements = pack_items(to_pack, size_f, ordering_f, key_f);
    let result = file_all(placements);
    proof {
        lemma_packs(given, size_f, ordering_f, Ordering::Less, key_f, placements, result);
    }
    result
}

/// A layout filed by key is a packing, and a sound one.
proof fn lemma_packs<T, K, O, FS, FO, FK>(
    to_pack: Seq<T>,
    size_f: FS,
    ordering_f: FO,
    yes: O,
    key_f: FK,
    placements: Placements<K>,
    result: PackResult<K>,
) where
    FS: Fn(&T) -> (usize, usize),
    FO: Fn(&(usize, usize), &(usize, usize)) -> O,
    FK: Fn(&T) -> K,

    requires
        exists|sizes: Seq<(usize, usize)>, order: Seq<usize>| #[trigger]
            lays_out(to_pack, size_f, ordering_f, yes, key_f, sizes, order, placements),
        result.width == placements.width,
        result.height == placements.height,
        obeys_key_model::<K>() ==> result.items@ == placed(placements.keys@, placements.rects@),
    ensures
        exists|sizes: Seq<(usize, usize)>, order: Seq<usize>, keys: Seq<K>| #[trigger]
            packs(to_pack, size_f, ordering_f, yes, key_f, sizes, order, keys, result),
        obeys_key_model::<K>() ==> result.sound(),
{
    let (sizes, order) = choose|sizes: Seq<(usize, usize)>, order: Seq<usize>| #[trigger]
        lays_out(to_pack, size_f, ordering_f, yes, key_f, sizes, order, placements);
    assert(packs(to_pack, size_f, ordering_f, yes, key_f, sizes, order, placements.keys@, result));
    if obeys_key_model::<K>() {
        lemma_packing_sound(result, arranged(sizes, order), placements.keys@);
    }
}

/// Where the answers of `size_f` and `ordering_f` are known, so is whether
/// the items can be packed.
pub proof fn lemma_can_pack<T, O, FS, FO>(
    to_pack: Seq<T>,
    size_f: FS,
    ordering_f: FO,
    yes: O,
    sizes: Seq<(usize, usize)>,
    less: Less,
) where FS: Fn(&T) -> (usize, usize), FO: Fn(&(usize, usize), &(usize, usize)) -> O
    requires
        sizes.len() == to_pack.len(),
        forall|i: int, size: (usize, usize)|
            0 <= i < to_pack.len() && #[trigger] call_ensures(size_f, (&to_pack[i],), size)
                ==> size == sizes[i],
        conforms(ordering_f, yes, less),
        packable(arranged(sizes, descending(sizes, less, sizes.len()))),
    ensures
        can_pack(to_pack, size_f, ordering_f, yes),
{
    assert forall|given: Seq<(usize, usize)>, order: Seq<usize>|
        answers(size_f, to_pack, given) && orders(ordering_f, yes, given, order) implies packable(
        #[trigger] arranged(given, order),
    ) by {
        assert(given =~= sizes);
    }
}

/// Where the answers of `size_f`, `ordering_f` and `key_f` are known, so is
/// the layout.
pub proof fn lemma_lays_out<T, K, O, FS, FO, FK>(
    to_pack: Seq<T>,
    size_f: FS,
    ordering_f: FO,
    yes: O,
    key_f: FK,
    placements: Placements<K>,
    sizes: Seq<(usize, usize)>,
    less: Less,
    keys: Seq<K>,
) where
    FS: Fn(&T) -> (usize, usize),
    FO: Fn(&(usize, usize), &(usize, usize)) -> O,
    FK: Fn(&T) -> K,

    requires
        exists|given: Seq<(usize, usize)>, order: Seq<usize>| #[trigger]
            lays_out(to_pack, size_f, ordering_f, yes, key_f, given, order, placements),
        sizes.len() == to_pack.len(),
        keys.len() == to_pack.len(),
        forall|i: int, size: (usize, usize)|
            0 <= i < to_pack.len() && #[trigger] call_ensures(size_f, (&to_pack[i],), size)
                ==> size == sizes[i],
        forall|i: int, key: K|
            0 <= i < to_pack.len() && #[trigger] call_ensures(key_f, (&to_pack[i],), key) ==> key
                == keys[i],
        conforms(ordering_f, yes, less),
    ensures
        placements.is_layout(arranged(sizes, descending(sizes, less, sizes.len()))),
        placements.keys@ == arranged(keys, descending(sizes, less, sizes.len())),
        packable(arranged(sizes, descending(sizes, less, sizes.len()))),
{
    let (given, order) = choose|given: Seq<(usize, usize)>, order: Seq<usize>| #[trigger]
        lays_out(to_pack, size_f, ordering_f, yes, key_f, given, order, placements);
    assert(given =~= sizes);
    assert(order == descending(sizes, less, sizes.len()));
    let along = arranged(to_pack, order);
    let filed = placements.keys@;
    assert forall|j: int| 0 <= j < filed.len() implies filed[j] == arranged(keys, order)[j] by {
        assert(call_ensures(key_f, (&along[j],), filed[j]));
        assert(along[j] == to_pack[order[j] as int]);
    }
    assert(filed =~= arranged(keys, order));
}

/// What `placed` holds: a key is there if it is among `keys`, and it is
/// taken to the rectangle of the last index at which it stands.
pub proof fn lemma_placed<K>(keys: Seq<K>, rects: Seq<Rect>, key: K)
    requires
        keys.len() == rects.len(),
    ensures
        placed(keys, rects).contains_key(key) <==> keys.contains(key),
        keys.contains(key) ==> exists|j: int|
            {
                &&& 0 <= j < keys.len()
                &&& #[trigger] keys[j] == key
                &&& placed(keys, rects)[key] == rects[j]
                &&& forall|k: int| j < k < keys.len() ==> keys[k] != key
            },
    decreases keys.len(),
{
    if keys.len() > 0 {
        let last = keys.len() - 1;
        lemma_placed(keys.drop_last(), rects.drop_last(), key);
        if keys[last] == key {
            assert(keys.contains(key));
        } else if keys.drop_last().contains(key) {
            let j = choose|j: int|
                {
                    &&& 0 <= j < keys.drop_last().len()
                    &&& #[trigger] keys.drop_last()[j] == key
                    &&& placed(keys.drop_last(), rects.drop_last())[key] == rects.drop_last()[j]
                    &&& forall|k: int| j < k < keys.drop_last().len() ==> keys.drop_last()[k] != key
                };
            assert(keys[j] == key);
            assert forall|k: int| j < k < keys.len() implies keys[k] != key by {
                if k < last {
                    assert(keys.drop_last()[k] == keys[k]);
                }
            }
        } else {
            if keys.contains(key) {
                let j = choose|j: int| 0 <= j < keys.len() && keys[j] == key;
                assert(keys.drop_last()[j] == key);
            }
        }
    }
}

/// A packing files every item under its key, puts every rectangle on the
/// canvas and no two so that they overlap, keeps the canvas no wider than
/// all items side by side and no higher than all on top of each other, and,
/// where no two items share a key, gives each item a rectangle of its size.
pub proof fn lemma_packing_sound<K>(result: PackResult<K>, sizes: Seq<(usize, usize)>, keys: Seq<K>)
    requires
        result.width == canvas(sizes).width,
        result.height == canvas(sizes).height,
        result.items@ == placed(keys, spots(sizes)),
        packable(sizes),
        keys.len() == sizes.len(),
    ensures
        result.sound(),
        result.width <= total_width(sizes),
        result.height <= total_height(sizes),
        forall|j: int|
            0 <= j < sizes.len() ==> {
                &&& result.items@.contains_key(#[trigger] keys[j])
                &&& sizes[j].0 <= result.width
                &&& sizes[j].1 <= result.height
            },
        keys.no_duplicates() ==> forall|j: int|
            0 <= j < sizes.len() ==> {
                &&& (#[trigger] result.items@[keys[j]]).width == sizes[j].0
                &&& result.items@[keys[j]].height == sizes[j].1
            },
{
    let rects = spots(sizes);
    lemma_spots_apart(sizes);
    lemma_canvas_bounds(sizes);
    assert(result.canvas() == canvas(sizes));
    assert forall|key: K| result.items@.contains_key(key) implies (#[trigger] result.items@[key]).within(
        result.canvas(),
    ) by {
        lemma_placed(keys, rects, key);
    }
    assert forall|a: K, b: K|
        result.items@.contains_key(a) && result.items@.contains_key(b) && a != b implies !(
    #[trigger] result.items@[a]).overlaps(#[trigger] result.items@[b]) by {
        lemma_placed(keys, rects, a);
        lemma_placed(keys, rects, b);
    }
    assert forall|j: int| 0 <= j < sizes.len() implies result.items@.contains_key(
        #[trigger] keys[j],
    ) by {
        lemma_placed(keys, rects, keys[j]);
    }
    if keys.no_duplicates() {
        assert forall|j: int| 0 <= j < sizes.len() implies (#[trigger] result.items@[keys[j]]).width
            == sizes[j].0 && result.items@[keys[j]].height == sizes[j].1 by {
            lemma_placed(keys, rects, keys[j]);
        }
    }
}

} // verus!
