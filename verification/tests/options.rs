use rust_text::ShapeOptions;

#[test]
fn default_is_no_option() {
    assert_eq!(ShapeOptions::default(), ShapeOptions(0));
    assert!(!ShapeOptions::default().contains(ShapeOptions::use_kerning()));
    assert!(ShapeOptions::default().contains(ShapeOptions::default()));
}

#[test]
fn use_kerning_is_the_lowest_bit() {
    assert_eq!(ShapeOptions::use_kerning(), ShapeOptions(1));
    assert!(ShapeOptions::use_kerning().contains(ShapeOptions::use_kerning()));
}

#[test]
fn contains_asks_for_every_bit() {
    assert!(ShapeOptions(0b0111).contains(ShapeOptions(0b0101)));
    assert!(!ShapeOptions(0b0101).contains(ShapeOptions(0b0111)));
    assert!(ShapeOptions(0b0101).contains(ShapeOptions(0)));
    assert!(!ShapeOptions(0).contains(ShapeOptions(0b1000)));
}

#[test]
fn operators_work_bit_by_bit() {
    let a = ShapeOptions(0b1100);
    let b = ShapeOptions(0b1010);
    assert_eq!(a | b, ShapeOptions(0b1110));
    assert_eq!(a & b, ShapeOptions(0b1000));
    assert_eq!(a ^ b, ShapeOptions(0b0110));
    assert_eq!(!a, ShapeOptions(0b1111_0011));
    let mut c = a;
    c |= b;
    assert_eq!(c, ShapeOptions(0b1110));
    let mut c = a;
    c &= b;
    assert_eq!(c, ShapeOptions(0b1000));
    let mut c = a;
    c ^= b;
    assert_eq!(c, ShapeOptions(0b0110));
}
