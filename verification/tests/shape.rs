use rust_text::shape::{at_pen, place_text};
use rust_text::GlyphPositioning;

fn chars(text: &str) -> Vec<char> {
    text.chars().collect()
}

fn places(placed: &[GlyphPositioning]) -> Vec<(char, usize, i32, i32, i32, i32)> {
    placed.iter().map(|p| (p.character, p.index, p.x, p.y, p.caret_x, p.caret_y)).collect()
}

#[test]
fn at_pen_puts_the_caret_at_the_pen() {
    let place = at_pen('q', 3, -4, 20);
    assert_eq!(places(&[place]), vec![('q', 3, -4, 20, -4, 20)]);
}

#[test]
fn pen_moves_by_each_advance() {
    let (placed, size) = place_text(&chars("abc"), &vec![5, 6, 7], 10).unwrap();
    assert_eq!(
        places(&placed),
        vec![('a', 0, 0, 0, 0, 0), ('b', 1, 5, 0, 5, 0), ('c', 2, 11, 0, 11, 0)]
    );
    assert_eq!(size, (18, 10));
}

#[test]
fn line_feed_starts_a_new_line() {
    let (placed, size) = place_text(&chars("ab\ncd"), &vec![5, 6, 3, 7, 8], 10).unwrap();
    assert_eq!(
        places(&placed),
        vec![
            ('a', 0, 0, 0, 0, 0),
            ('b', 1, 5, 0, 5, 0),
            ('\n', 2, 11, 0, 11, 0),
            ('c', 3, 0, 10, 0, 10),
            ('d', 4, 7, 10, 7, 10),
        ]
    );
    assert_eq!(size, (15, 20));
}

#[test]
fn widest_line_counts() {
    let (_, size) = place_text(&chars("abcd\ne\n"), &vec![4, 4, 4, 4, 0, 9, 0], 7).unwrap();
    assert_eq!(size, (16, 21));
}

#[test]
fn no_advance_places_no_character() {
    let (placed, size) = place_text(&chars("abc"), &vec![], 10).unwrap();
    assert!(placed.is_empty());
    assert_eq!(size, (0, 0));
    let (placed, size) = place_text(&chars(""), &vec![], 10).unwrap();
    assert!(placed.is_empty());
    assert_eq!(size, (0, 0));
}

#[test]
fn characters_beyond_the_advances_are_left_out() {
    let (placed, size) = place_text(&chars("abc"), &vec![5, 6], 10).unwrap();
    assert_eq!(places(&placed), vec![('a', 0, 0, 0, 0, 0), ('b', 1, 5, 0, 5, 0)]);
    assert_eq!(size, (11, 10));
}

#[test]
fn advances_beyond_the_text_cannot_be_placed() {
    assert!(place_text(&chars("ab"), &vec![5, 6, 7], 10).is_none());
    assert!(place_text(&chars(""), &vec![1], 10).is_none());
}

#[test]
fn pen_may_move_to_the_left() {
    let (placed, size) = place_text(&chars("abc"), &vec![5, -8, 2], 10).unwrap();
    assert_eq!(
        places(&placed),
        vec![('a', 0, 0, 0, 0, 0), ('b', 1, 5, 0, 5, 0), ('c', 2, -3, 0, -3, 0)]
    );
    assert_eq!(size, (5, 10));
}

#[test]
fn lines_may_have_no_height() {
    let (placed, size) = place_text(&chars("a\nb"), &vec![3, 0, 4], 0).unwrap();
    assert_eq!(
        places(&placed),
        vec![('a', 0, 0, 0, 0, 0), ('\n', 1, 3, 0, 3, 0), ('b', 2, 0, 0, 0, 0)]
    );
    assert_eq!(size, (4, 0));
}

#[test]
fn pen_beyond_the_range_cannot_be_placed() {
    assert!(place_text(&chars("ab"), &vec![i32::MAX, 1], 10).is_none());
    assert!(place_text(&chars("ab"), &vec![i32::MAX, 0], 10).is_some());
    assert!(place_text(&chars("ab"), &vec![i32::MIN, -1], 10).is_none());
    assert!(place_text(&chars("\n\n"), &vec![0, 0], i32::MAX).is_none());
    assert!(place_text(&chars("\n"), &vec![0], i32::MAX / 2).is_some());
    assert!(place_text(&chars("\na"), &vec![0, 0], i32::MAX / 2 + 1).is_none());
}
