use rust_text::raster::{
    column_is_blank, crop, cut_glyph, flip_rows, row_is_blank, tightest_bounds, Bounds,
};

const INK: u32 = 0x00FF_FFFF;

fn canvas(rows: &[&str]) -> (Vec<u32>, usize, usize) {
    let height = rows.len();
    let width = if height == 0 { 0 } else { rows[0].len() };
    let mut pixels = Vec::new();
    for row in rows {
        assert_eq!(row.len(), width);
        for c in row.chars() {
            pixels.push(match c {
                '.' => 0,
                '#' => INK,
                digit => 0x0100_0000 + digit.to_digit(16).unwrap(),
            });
        }
    }
    (pixels, width, height)
}

fn bounds(left: usize, top: usize, right: usize, bottom: usize) -> Bounds {
    Bounds { left, top, right, bottom }
}

#[test]
fn blank_columns_and_rows_are_told_apart() {
    let (pixels, w, h) = canvas(&["....", ".#..", "...."]);
    assert!(column_is_blank(&pixels, w, h, 0));
    assert!(!column_is_blank(&pixels, w, h, 1));
    assert!(column_is_blank(&pixels, w, h, 2));
    assert!(column_is_blank(&pixels, w, h, 3));
    assert!(row_is_blank(&pixels, w, h, 0));
    assert!(!row_is_blank(&pixels, w, h, 1));
    assert!(row_is_blank(&pixels, w, h, 2));
}

#[test]
fn bounds_enclose_what_is_drawn() {
    let (pixels, w, h) = canvas(&["......", "..#...", "...##.", "......", "......"]);
    assert_eq!(tightest_bounds(&pixels, w, h), bounds(2, 1, 5, 3));
}

#[test]
fn bounds_of_one_pixel() {
    let (pixels, w, h) = canvas(&["...", "...", "..#"]);
    assert_eq!(tightest_bounds(&pixels, w, h), bounds(2, 2, 3, 3));
    let (pixels, w, h) = canvas(&["#..", "...", "..."]);
    assert_eq!(tightest_bounds(&pixels, w, h), bounds(0, 0, 1, 1));
}

#[test]
fn bounds_of_a_full_canvas() {
    let (pixels, w, h) = canvas(&["##", "##"]);
    assert_eq!(tightest_bounds(&pixels, w, h), bounds(0, 0, 2, 2));
}

#[test]
fn bounds_of_opposite_corners() {
    let (pixels, w, h) = canvas(&["#...", "....", "...#"]);
    assert_eq!(tightest_bounds(&pixels, w, h), bounds(0, 0, 4, 3));
}

#[test]
fn bounds_of_a_blank_canvas() {
    let (pixels, w, h) = canvas(&["....", "....", "...."]);
    assert_eq!(tightest_bounds(&pixels, w, h), bounds(4, 3, 0, 0));
    assert_eq!(tightest_bounds(&[], 0, 0), bounds(0, 0, 0, 0));
    assert_eq!(tightest_bounds(&[], 0, 3), bounds(0, 3, 0, 0));
    assert_eq!(tightest_bounds(&[], 3, 0), bounds(3, 0, 0, 0));
}

#[test]
fn any_bit_of_a_pixel_is_ink() {
    let pixels = [0u32, 0xFF00_0000, 0, 0];
    assert_eq!(tightest_bounds(&pixels, 2, 2), bounds(1, 0, 2, 1));
}

#[test]
fn flip_rows_turns_the_canvas_upside_down() {
    let mut pixels = vec![1, 2, 3, 4, 5, 6];
    flip_rows(&mut pixels, 2, 3);
    assert_eq!(pixels, vec![5, 6, 3, 4, 1, 2]);
    flip_rows(&mut pixels, 2, 3);
    assert_eq!(pixels, vec![1, 2, 3, 4, 5, 6]);
    flip_rows(&mut pixels, 3, 2);
    assert_eq!(pixels, vec![4, 5, 6, 1, 2, 3]);
    flip_rows(&mut pixels, 6, 1);
    assert_eq!(pixels, vec![4, 5, 6, 1, 2, 3]);
    flip_rows(&mut pixels, 1, 6);
    assert_eq!(pixels, vec![3, 2, 1, 6, 5, 4]);
    let mut none: Vec<u32> = Vec::new();
    flip_rows(&mut none, 0, 0);
    flip_rows(&mut none, 0, 5);
    flip_rows(&mut none, 5, 0);
    assert!(none.is_empty());
    let mut four = vec![1, 2, 3, 4, 5, 6, 7, 8];
    flip_rows(&mut four, 2, 4);
    assert_eq!(four, vec![7, 8, 5, 6, 3, 4, 1, 2]);
}

#[test]
fn crop_copies_the_lowest_bytes_inside_the_frame() {
    let (pixels, w, h) = canvas(&["0123", "4567", "89ab"]);
    assert_eq!(crop(&pixels, w, h, &bounds(1, 1, 3, 3)), vec![5, 6, 9, 10]);
    assert_eq!(crop(&pixels, w, h, &bounds(0, 0, 4, 3)), vec![0, 1, 2, 3, 4, 5, 6, 7, 8, 9, 10, 11]);
    assert_eq!(crop(&pixels, w, h, &bounds(3, 2, 4, 3)), vec![11]);
    assert_eq!(crop(&pixels, w, h, &bounds(2, 0, 2, 3)), Vec::<u8>::new());
    assert_eq!(crop(&pixels, w, h, &bounds(0, 1, 4, 1)), Vec::<u8>::new());
    assert_eq!(crop(&[0x1234_5678, 0xFFFF_FF00], 2, 1, &bounds(0, 0, 2, 1)), vec![0x78, 0x00]);
}

#[test]
fn cut_glyph_cuts_out_what_is_drawn() {
    // The canvas holds the bottom row first.
    let (mut pixels, w, h) = canvas(&[".....", "..34.", ".12..", "....."]);
    let glyph = cut_glyph('x', &mut pixels, w, h);
    assert_eq!(glyph.character, 'x');
    assert_eq!((glyph.x_offset, glyph.y_offset), (1, 1));
    assert_eq!((glyph.width, glyph.height), (3, 2));
    assert_eq!(&glyph.data[..], &[1, 2, 0, 0, 3, 4]);
    let (turned, _, _) = canvas(&[".....", ".12..", "..34.", "....."]);
    assert_eq!(pixels, turned);
}

#[test]
fn cut_glyph_of_a_blank_canvas_has_no_area() {
    let (mut pixels, w, h) = canvas(&["...", "..."]);
    let glyph = cut_glyph(' ', &mut pixels, w, h);
    assert_eq!(glyph.character, ' ');
    assert_eq!((glyph.x_offset, glyph.y_offset), (0, 0));
    assert_eq!((glyph.width, glyph.height), (0, 0));
    assert!(glyph.data.is_empty());

    let mut none: Vec<u32> = Vec::new();
    let glyph = cut_glyph('a', &mut none, 0, 0);
    assert_eq!((glyph.x_offset, glyph.y_offset, glyph.width, glyph.height), (0, 0, 0, 0));
    assert!(glyph.data.is_empty());
    let glyph = cut_glyph('a', &mut none, 7, 0);
    assert_eq!((glyph.x_offset, glyph.y_offset, glyph.width, glyph.height), (0, 0, 0, 0));
    assert!(glyph.data.is_empty());
}

#[test]
fn cut_glyph_of_a_full_canvas_is_the_canvas() {
    let (mut pixels, w, h) = canvas(&["12", "34", "56"]);
    let glyph = cut_glyph('#', &mut pixels, w, h);
    assert_eq!((glyph.x_offset, glyph.y_offset, glyph.width, glyph.height), (0, 0, 2, 3));
    assert_eq!(&glyph.data[..], &[5, 6, 3, 4, 1, 2]);
}

#[test]
fn cut_glyph_keeps_blank_pixels_inside_the_frame() {
    let (mut pixels, w, h) = canvas(&["#..", "...", "..#"]);
    let glyph = cut_glyph('\\', &mut pixels, w, h);
    assert_eq!((glyph.x_offset, glyph.y_offset, glyph.width, glyph.height), (0, 0, 3, 3));
    assert_eq!(&glyph.data[..], &[0, 0, 255, 0, 0, 0, 255, 0, 0]);
}
