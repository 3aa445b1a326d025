use rust_text::arrange::sort_order;
use rust_text::pack::{bin_pack, longer, pack_items, Node, PackResult, Packer, Rect};
use rust_text::{pack_glyphs, RasterizedGlyph};
use std::cmp::{max, Ordering};

fn rect(x: usize, y: usize, width: usize, height: usize) -> Rect {
    Rect { x, y, width, height }
}

fn by_longer_side(a: &(usize, usize), b: &(usize, usize)) -> Ordering {
    max(a.0, a.1).cmp(&max(b.0, b.1))
}

fn pack(items: &[(char, usize, usize)]) -> PackResult<char> {
    bin_pack(items.to_vec(), |e| (e.1, e.2), by_longer_side, |e| e.0)
}

fn pack_numbered(sizes: &[(usize, usize)]) -> PackResult<usize> {
    let items: Vec<(usize, (usize, usize))> = sizes.iter().cloned().enumerate().collect();
    bin_pack(items, |e| e.1, by_longer_side, |e| e.0)
}

fn share_a_point(a: &Rect, b: &Rect) -> bool {
    a.x < b.x + b.width && b.x < a.x + a.width && a.y < b.y + b.height && b.y < a.y + a.height
}

fn check_packing(sizes: &[(usize, usize)]) {
    let result = pack_numbered(sizes);
    assert_eq!(result.items.len(), sizes.len());
    for (i, size) in sizes.iter().enumerate() {
        let at = &result.items[&i];
        assert_eq!((at.width, at.height), *size);
        assert!(at.x + at.width <= result.width, "item {} of {:?}", i, sizes);
        assert!(at.y + at.height <= result.height, "item {} of {:?}", i, sizes);
        assert!(size.0 <= result.width && size.1 <= result.height);
        for j in 0..i {
            assert!(!share_a_point(at, &result.items[&j]), "items {} and {} of {:?}", j, i, sizes);
        }
    }
    let total_width: usize = sizes.iter().map(|s| s.0).sum();
    let total_height: usize = sizes.iter().map(|s| s.1).sum();
    assert!(result.width <= total_width);
    assert!(result.height <= total_height);
}

fn glyph(character: char, width: usize, height: usize) -> RasterizedGlyph {
    RasterizedGlyph {
        character,
        x_offset: 0,
        y_offset: 0,
        width,
        height,
        data: vec![0u8; width * height].into_boxed_slice(),
    }
}

#[test]
fn empty_input_gives_empty_canvas() {
    let result = pack(&[]);
    assert_eq!(result.width, 0);
    assert_eq!(result.height, 0);
    assert!(result.items.is_empty());
}

#[test]
fn three_items_by_longer_side() {
    let result = pack(&[('A', 10, 20), ('B', 15, 15), ('C', 5, 30)]);
    assert_eq!((result.width, result.height), (30, 30));
    assert_eq!(result.items.len(), 3);
    assert_eq!(result.items[&'C'], rect(0, 0, 5, 30));
    assert_eq!(result.items[&'A'], rect(5, 0, 10, 20));
    assert_eq!(result.items[&'B'], rect(15, 0, 15, 15));
}

#[test]
fn three_items_lie_apart_on_the_canvas() {
    check_packing(&[(10, 20), (15, 15), (5, 30)]);
}

#[test]
fn one_item_is_the_canvas() {
    let result = pack(&[('x', 7, 3)]);
    assert_eq!((result.width, result.height), (7, 3));
    assert_eq!(result.items[&'x'], rect(0, 0, 7, 3));
}

#[test]
fn canvas_grows_downward_when_it_is_wide() {
    let result = pack(&[('a', 40, 10), ('b', 10, 10)]);
    assert_eq!((result.width, result.height), (40, 20));
    assert_eq!(result.items[&'a'], rect(0, 0, 40, 10));
    assert_eq!(result.items[&'b'], rect(0, 10, 10, 10));
}

#[test]
fn canvas_grows_to_the_right_when_it_is_high() {
    let result = pack(&[('a', 10, 40), ('b', 10, 10)]);
    assert_eq!((result.width, result.height), (20, 40));
    assert_eq!(result.items[&'a'], rect(0, 0, 10, 40));
    assert_eq!(result.items[&'b'], rect(10, 0, 10, 10));
}

#[test]
fn square_canvas_grows_to_the_right() {
    let result = pack(&[('a', 10, 10), ('b', 5, 5), ('c', 5, 5), ('d', 5, 5)]);
    assert_eq!((result.width, result.height), (20, 10));
    assert_eq!(result.items[&'a'], rect(0, 0, 10, 10));
    assert_eq!(result.items[&'b'], rect(10, 0, 5, 5));
    assert_eq!(result.items[&'c'], rect(10, 5, 5, 5));
    assert_eq!(result.items[&'d'], rect(15, 0, 5, 5));
}

#[test]
fn canvas_grows_the_only_way_it_can() {
    let result = pack(&[('a', 30, 5), ('b', 20, 10), ('c', 10, 10)]);
    assert_eq!((result.width, result.height), (30, 15));
    assert_eq!(result.items[&'a'], rect(0, 0, 30, 5));
    assert_eq!(result.items[&'b'], rect(0, 5, 20, 10));
    assert_eq!(result.items[&'c'], rect(20, 5, 10, 10));
}

#[test]
fn free_region_to_the_right_is_taken_before_the_one_below() {
    // After 'a' and 'b' the region right of 'b' and the region below 'b' are
    // both free and large enough for 'c'.
    let result = pack(&[('a', 10, 40), ('b', 4, 10), ('c', 3, 3)]);
    assert_eq!(result.items[&'a'], rect(0, 0, 10, 40));
    assert_eq!(result.items[&'b'], rect(10, 0, 4, 10));
    assert_eq!(result.items[&'c'], rect(10, 10, 3, 3));
    assert_eq!((result.width, result.height), (14, 40));
}

#[test]
fn items_with_equal_longer_sides_keep_their_order() {
    let result = pack(&[('A', 10, 5), ('B', 5, 10), ('C', 10, 10)]);
    assert_eq!((result.width, result.height), (20, 15));
    assert_eq!(result.items[&'A'], rect(0, 0, 10, 5));
    assert_eq!(result.items[&'B'], rect(0, 5, 5, 10));
    assert_eq!(result.items[&'C'], rect(10, 0, 10, 10));

    let result = pack(&[('C', 10, 10), ('B', 5, 10), ('A', 10, 5)]);
    assert_eq!((result.width, result.height), (25, 10));
    assert_eq!(result.items[&'C'], rect(0, 0, 10, 10));
    assert_eq!(result.items[&'B'], rect(10, 0, 5, 10));
    assert_eq!(result.items[&'A'], rect(15, 0, 10, 5));
}

#[test]
fn items_without_area_are_placed_too() {
    let result = pack(&[('a', 4, 4), ('z', 0, 0), ('w', 0, 3), ('h', 2, 0)]);
    assert_eq!(result.items.len(), 4);
    assert_eq!((result.width, result.height), (4, 4));
    assert_eq!(result.items[&'a'], rect(0, 0, 4, 4));
    assert_eq!((result.items[&'z'].width, result.items[&'z'].height), (0, 0));
    assert_eq!((result.items[&'w'].width, result.items[&'w'].height), (0, 3));
    assert_eq!((result.items[&'h'].width, result.items[&'h'].height), (2, 0));
    check_packing(&[(4, 4), (0, 0), (0, 3), (2, 0)]);
    check_packing(&[(0, 0)]);
    check_packing(&[(0, 0), (0, 0), (0, 0)]);
    check_packing(&[(0, 5), (5, 0)]);
}

#[test]
fn only_items_without_area() {
    let result = pack(&[('a', 0, 0), ('b', 0, 0)]);
    assert_eq!((result.width, result.height), (0, 0));
    assert_eq!(result.items[&'a'], rect(0, 0, 0, 0));
    assert_eq!(result.items[&'b'], rect(0, 0, 0, 0));
}

#[test]
fn every_item_lies_on_the_canvas_apart_from_the_others() {
    let mut state: u64 = 0x2545_F491_4F6C_DD1D;
    let mut next = move |limit: u64| {
        state ^= state << 13;
        state ^= state >> 7;
        state ^= state << 17;
        (state % limit) as usize
    };
    for round in 0..200 {
        let count = 1 + next(24);
        let limit = if round % 3 == 0 { 4 } else { 64 };
        let least = if round % 5 == 0 { 0 } else { 1 };
        let sizes: Vec<(usize, usize)> =
            (0..count).map(|_| (least + next(limit), least + next(limit))).collect();
        check_packing(&sizes);
    }
}

#[test]
fn equal_squares() {
    let sizes = vec![(8usize, 8usize); 4];
    check_packing(&sizes);
    let result = pack_numbered(&sizes);
    assert_eq!((result.width, result.height), (24, 16));
    assert_eq!(result.items[&0], rect(0, 0, 8, 8));
    assert_eq!(result.items[&1], rect(8, 0, 8, 8));
    assert_eq!(result.items[&2], rect(16, 0, 8, 8));
    assert_eq!(result.items[&3], rect(0, 8, 8, 8));
    check_packing(&vec![(8usize, 8usize); 16]);
}

#[test]
fn canvas_is_no_larger_than_the_sums_and_no_smaller_than_an_item() {
    let result = pack(&[('a', 3, 9), ('b', 9, 3), ('c', 5, 5), ('d', 1, 1)]);
    assert!(result.width <= 3 + 9 + 5 + 1);
    assert!(result.height <= 9 + 3 + 5 + 1);
    assert!(result.width >= 9);
    assert!(result.height >= 9);
}

#[test]
fn later_item_of_two_with_one_key_is_kept() {
    let result = pack(&[('a', 10, 10), ('a', 5, 5)]);
    assert_eq!(result.items.len(), 1);
    assert_eq!(result.items[&'a'], rect(10, 0, 5, 5));
    assert_eq!((result.width, result.height), (15, 10));
}

#[test]
fn other_orders_are_followed_too() {
    // By width alone: the widest first.
    let items = vec![('a', 2usize, 9usize), ('b', 8, 1), ('c', 5, 5)];
    let result = bin_pack(items, |e| (e.1, e.2), |a, b| a.0.cmp(&b.0), |e| e.0);
    assert_eq!((result.width, result.height), (8, 15));
    assert_eq!(result.items[&'b'], rect(0, 0, 8, 1));
    assert_eq!(result.items[&'c'], rect(0, 1, 5, 5));
    assert_eq!(result.items[&'a'], rect(0, 6, 2, 9));
    assert_eq!(result.items.len(), 3);
}

#[test]
fn pack_items_lists_the_items_in_packing_order() {
    let items = vec![('A', 10usize, 20usize), ('B', 15, 15), ('C', 5, 30)];
    let placements = pack_items(items, |e| (e.1, e.2), by_longer_side, |e| e.0);
    assert_eq!((placements.width, placements.height), (30, 30));
    assert_eq!(placements.keys, vec!['C', 'A', 'B']);
    assert_eq!(
        placements.rects,
        vec![rect(0, 0, 5, 30), rect(5, 0, 10, 20), rect(15, 0, 15, 15)]
    );

    let none: Vec<(char, usize, usize)> = Vec::new();
    let placements = pack_items(none, |e| (e.1, e.2), by_longer_side, |e| e.0);
    assert_eq!((placements.width, placements.height), (0, 0));
    assert!(placements.keys.is_empty());
    assert!(placements.rects.is_empty());
}

#[test]
fn pack_items_lists_both_items_of_one_key() {
    let items = vec![('a', 10usize, 10usize), ('a', 5, 5)];
    let placements = pack_items(items, |e| (e.1, e.2), by_longer_side, |e| e.0);
    assert_eq!(placements.keys, vec!['a', 'a']);
    assert_eq!(placements.rects, vec![rect(0, 0, 10, 10), rect(10, 0, 5, 5)]);
}

#[test]
fn later_glyph_of_two_with_one_character_is_kept() {
    let first = glyph('a', 10, 10);
    let second = glyph('a', 5, 5);
    let result = pack_glyphs(vec![&first, &second]);
    assert_eq!(result.items.len(), 1);
    assert_eq!(result.items[&'a'], rect(10, 0, 5, 5));
    assert_eq!((result.width, result.height), (15, 10));
}

#[test]
fn sort_order_is_descending_and_keeps_ties_in_order() {
    let less = |a: &(usize, usize), b: &(usize, usize)| max(a.0, a.1) < max(b.0, b.1);
    assert_eq!(sort_order(&vec![], less), Vec::<usize>::new());
    assert_eq!(sort_order(&vec![(1, 1)], less), vec![0]);
    assert_eq!(sort_order(&vec![(10, 20), (15, 15), (5, 30)], less), vec![2, 0, 1]);
    assert_eq!(sort_order(&vec![(1, 1), (2, 2), (3, 3), (4, 4)], less), vec![3, 2, 1, 0]);
    assert_eq!(sort_order(&vec![(4, 4), (3, 3), (2, 2), (1, 1)], less), vec![0, 1, 2, 3]);
    assert_eq!(sort_order(&vec![(5, 1), (1, 5), (9, 9), (5, 5), (0, 9)], less), vec![2, 4, 0, 1, 3]);
    assert_eq!(sort_order(&vec![(3, 3); 5], less), vec![0, 1, 2, 3, 4]);
}

#[test]
fn sort_order_agrees_with_a_stable_sort() {
    let less = |a: &(usize, usize), b: &(usize, usize)| max(a.0, a.1) < max(b.0, b.1);
    let mut state: u32 = 12345;
    for _ in 0..50 {
        let mut sizes = Vec::new();
        for _ in 0..17 {
            state = state.wrapping_mul(1664525).wrapping_add(1013904223);
            let w = (state >> 16) as usize % 6;
            state = state.wrapping_mul(1664525).wrapping_add(1013904223);
            let h = (state >> 16) as usize % 6;
            sizes.push((w, h));
        }
        let mut expected: Vec<usize> = (0..sizes.len()).collect();
        expected.sort_by(|&i, &j| by_longer_side(&sizes[i], &sizes[j]).reverse());
        assert_eq!(sort_order(&sizes, less), expected);
    }
}

#[test]
fn longer_is_the_longer_side() {
    assert_eq!(longer(&(3, 7)), 7);
    assert_eq!(longer(&(7, 3)), 7);
    assert_eq!(longer(&(5, 5)), 5);
    assert_eq!(longer(&(0, 0)), 0);
}

#[test]
fn new_node_is_free() {
    let node = Node::new(1, 2, 3, 4);
    assert!(!node.occupied);
    assert_eq!((node.x, node.y, node.width, node.height), (1, 2, 3, 4));
    assert!(node.down.is_none());
    assert!(node.right.is_none());
}

#[test]
fn split_node_leaves_the_strips_below_and_to_the_right() {
    let mut node = Node::new(10, 20, 8, 6);
    Packer::split_node(&mut node, 3, 2);
    assert!(node.occupied);
    assert_eq!((node.x, node.y, node.width, node.height), (10, 20, 8, 6));
    let down = node.down.as_ref().unwrap();
    assert!(!down.occupied);
    assert_eq!((down.x, down.y, down.width, down.height), (10, 22, 8, 4));
    let right = node.right.as_ref().unwrap();
    assert!(!right.occupied);
    assert_eq!((right.x, right.y, right.width, right.height), (13, 20, 5, 2));
}

#[test]
fn find_node_searches_right_before_down() {
    let mut root = Node::new(0, 0, 10, 10);
    assert!(Packer::find_node(&mut root, 11, 1).is_none());
    assert!(Packer::find_node(&mut root, 1, 11).is_none());
    {
        let found = Packer::find_node(&mut root, 10, 10).unwrap();
        assert_eq!((found.x, found.y), (0, 0));
    }
    Packer::split_node(&mut root, 4, 4);
    {
        let found = Packer::find_node(&mut root, 4, 4).unwrap();
        assert_eq!((found.x, found.y, found.width, found.height), (4, 0, 6, 4));
    }
    {
        let found = Packer::find_node(&mut root, 4, 5).unwrap();
        assert_eq!((found.x, found.y, found.width, found.height), (0, 4, 10, 6));
    }
    assert!(Packer::find_node(&mut root, 4, 7).is_none());
    assert!(Packer::find_node(&mut root, 11, 1).is_none());
}

#[test]
fn packer_fits_items_one_after_the_other() {
    let mut packer = Packer::new(5, 30);
    assert_eq!((packer.root.width, packer.root.height), (5, 30));
    assert!(!packer.root.occupied);
    assert_eq!(packer.fit(5, 30), rect(0, 0, 5, 30));
    assert!(packer.root.occupied);
    assert_eq!((packer.root.width, packer.root.height), (5, 30));
    assert_eq!(packer.fit(10, 20), rect(5, 0, 10, 20));
    assert_eq!((packer.root.width, packer.root.height), (15, 30));
    assert_eq!(packer.fit(15, 15), rect(15, 0, 15, 15));
    assert_eq!((packer.root.width, packer.root.height), (30, 30));
    // The region below the third item is free, and so is the one below the
    // second; the one in the strip added last is found first.
    assert_eq!(packer.fit(10, 10), rect(15, 15, 10, 10));
    assert_eq!((packer.root.width, packer.root.height), (30, 30));
    assert_eq!(packer.fit(5, 5), rect(25, 15, 5, 5));
    assert_eq!(packer.fit(10, 10), rect(5, 20, 10, 10));
    assert_eq!((packer.root.width, packer.root.height), (30, 30));
    assert_eq!(packer.fit(15, 15), rect(30, 0, 15, 15));
    assert_eq!((packer.root.width, packer.root.height), (45, 30));
}

#[test]
fn grow_right_adds_a_strip_of_the_items_width() {
    let mut packer = Packer::new(6, 6);
    assert_eq!(packer.fit(6, 6), rect(0, 0, 6, 6));
    assert_eq!(packer.grow_right(2, 3), rect(6, 0, 2, 3));
    assert_eq!((packer.root.x, packer.root.y, packer.root.width, packer.root.height), (0, 0, 8, 6));
    assert!(packer.root.occupied);
    let strip = packer.root.right.as_ref().unwrap();
    assert!(strip.occupied);
    assert_eq!((strip.x, strip.y, strip.width, strip.height), (6, 0, 2, 6));
    let old = packer.root.down.as_ref().unwrap();
    assert_eq!((old.x, old.y, old.width, old.height), (0, 0, 6, 6));
    // The rest of the strip is free.
    assert_eq!(packer.fit(2, 3), rect(6, 3, 2, 3));
}

#[test]
fn grow_down_adds_a_strip_of_the_items_height() {
    let mut packer = Packer::new(6, 6);
    assert_eq!(packer.fit(6, 6), rect(0, 0, 6, 6));
    assert_eq!(packer.grow_down(4, 2), rect(0, 6, 4, 2));
    assert_eq!((packer.root.x, packer.root.y, packer.root.width, packer.root.height), (0, 0, 6, 8));
    let strip = packer.root.down.as_ref().unwrap();
    assert!(strip.occupied);
    assert_eq!((strip.x, strip.y, strip.width, strip.height), (0, 6, 6, 2));
    let old = packer.root.right.as_ref().unwrap();
    assert_eq!((old.x, old.y, old.width, old.height), (0, 0, 6, 6));
    assert_eq!(packer.fit(2, 2), rect(4, 6, 2, 2));
}

#[test]
fn grow_node_keeps_the_canvas_close_to_a_square() {
    // Higher than wide by more than the item's width: to the right.
    let mut packer = Packer::new(4, 10);
    packer.fit(4, 10);
    assert_eq!(packer.grow_node(4, 4), rect(4, 0, 4, 4));
    // Wider than high by more than the item's height: downward.
    let mut packer = Packer::new(10, 4);
    packer.fit(10, 4);
    assert_eq!(packer.grow_node(4, 4), rect(0, 4, 4, 4));
    // Neither: to the right where the item is no higher than the canvas.
    let mut packer = Packer::new(10, 8);
    packer.fit(10, 8);
    assert_eq!(packer.grow_node(4, 4), rect(10, 0, 4, 4));
    // Higher than wide by exactly the item's width: not by more.
    let mut packer = Packer::new(6, 10);
    packer.fit(6, 10);
    assert_eq!(packer.grow_node(4, 11 - 1), rect(6, 0, 4, 10));
    // Too high for the canvas: downward.
    let mut packer = Packer::new(10, 4);
    packer.fit(10, 4);
    assert_eq!(packer.grow_node(10, 5), rect(0, 4, 10, 5));
    // Wider than high by exactly the item's height, item as high as the canvas: to the right.
    let mut packer = Packer::new(8, 4);
    packer.fit(8, 4);
    assert_eq!(packer.grow_node(4, 4), rect(8, 0, 4, 4));
}

#[test]
fn glyphs_are_packed_by_their_characters() {
    let a = glyph('A', 10, 20);
    let b = glyph('B', 15, 15);
    let c = glyph('C', 5, 30);
    let result = pack_glyphs(vec![&a, &b, &c]);
    assert_eq!((result.width, result.height), (30, 30));
    assert_eq!(result.items.len(), 3);
    assert_eq!(result.items[&'C'], rect(0, 0, 5, 30));
    assert_eq!(result.items[&'A'], rect(5, 0, 10, 20));
    assert_eq!(result.items[&'B'], rect(15, 0, 15, 15));
}

#[test]
fn no_glyphs_give_an_empty_canvas() {
    let result = pack_glyphs(Vec::new());
    assert_eq!((result.width, result.height), (0, 0));
    assert!(result.items.is_empty());
}

#[test]
fn glyphs_lie_apart_on_the_canvas() {
    let text = "Hello, World!";
    let glyphs: Vec<RasterizedGlyph> = text
        .chars()
        .enumerate()
        .map(|(i, c)| glyph(c, 3 + (i * 7) % 11, 5 + (i * 5) % 13))
        .collect();
    let result = pack_glyphs(glyphs.iter().collect());
    let mut seen: Vec<(char, Rect)> = Vec::new();
    for (character, at) in &result.items {
        assert!(text.contains(*character));
        assert!(at.x + at.width <= result.width);
        assert!(at.y + at.height <= result.height);
        for (_, other) in &seen {
            assert!(!share_a_point(at, other));
        }
        seen.push((*character, *at));
    }
    for c in text.chars() {
        assert!(result.items.contains_key(&c));
    }
}
