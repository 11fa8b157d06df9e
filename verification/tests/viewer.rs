use pdf_view::content::graphics::ClippingRule;
use pdf_view::viewer::alpha_bitmap_to_rgba;

#[test]
fn coverage_becomes_coloured_pixels() {
    let rgba = alpha_bitmap_to_rgba(&[0, 128, 255], [10, 20, 30]);
    assert_eq!(rgba, vec![10, 20, 30, 0, 10, 20, 30, 128, 10, 20, 30, 255]);
    assert_eq!(alpha_bitmap_to_rgba(&[], [1, 2, 3]), Vec::<u8>::new());
}

#[test]
fn clipping_rules_are_distinct() {
    assert_ne!(ClippingRule::Winding, ClippingRule::EvenOdd);
    let r = ClippingRule::EvenOdd;
    let copy = r;
    assert_eq!(copy, ClippingRule::EvenOdd);
}
