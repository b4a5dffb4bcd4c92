use intuit_empire::color::Color;
use intuit_empire::geom::{Rect, Vec2};
use intuit_empire::num::format_fixed;
use intuit_empire::size::Size;

#[test]
fn color_channels_round_trip() {
    let c = Color::from_rgb(35, 108, 255);
    assert_eq!(c.r(), 35);
    assert_eq!(c.g(), 108);
    assert_eq!(c.b(), 255);
}

#[test]
fn color_from_word() {
    let c = Color::from_u32(0xffffff);
    assert_eq!(c.r(), 255);
    assert_eq!(c.g(), 255);
    assert_eq!(c.b(), 255);
    let d = Color::from_u32(0x236cff);
    assert_eq!(d.r(), 0x23);
    assert_eq!(d.g(), 0x6c);
    assert_eq!(d.b(), 0xff);
}

#[test]
fn format_fixed_examples() {
    assert_eq!(format_fixed(0), "0.000000");
    assert_eq!(format_fixed(1), "0.000001");
    assert_eq!(format_fixed(1_234_567), "1.234567");
    assert_eq!(format_fixed(-1_234_567), "-1.234567");
    assert_eq!(format_fixed(10_000_000), "10.000000");
    assert_eq!(format_fixed(-300_000_040), "-300.000040");
}

#[test]
fn rect_extents() {
    let r = Rect::new(
        Vec2 { x: -2_000_000, y: 1_000_000 },
        Vec2 { x: 4_000_000, y: 9_000_000 },
    );
    assert_eq!(r.width(), 6_000_000);
    assert_eq!(r.height(), 8_000_000);
    assert_eq!(r.top_left(), Vec2 { x: -2_000_000, y: 1_000_000 });
    assert_eq!(r.bottom_right(), Vec2 { x: 4_000_000, y: 9_000_000 });
}

#[test]
fn rect_scale_by_fixed_point_factors() {
    let r = Rect::new(
        Vec2 { x: -10_000_000, y: 0 },
        Vec2 { x: 10_000_000, y: 20_000_000 },
    );
    // factors 1.2 and 0.8, in micro-units
    let s = r.scale(1_200_000, 800_000);
    assert_eq!(s.top_left(), Vec2 { x: -12_000_000, y: 0 });
    assert_eq!(s.bottom_right(), Vec2 { x: 12_000_000, y: 16_000_000 });
}

#[test]
fn size_parses_width_and_height() {
    let s = Size::from_arg("3456x2234").unwrap();
    assert_eq!(s.width, 3456);
    assert_eq!(s.height, 2234);
    let n = Size::from_arg("-5x7").unwrap();
    assert_eq!(n.width, -5);
    assert_eq!(n.height, 7);
}

#[test]
fn size_rejects_malformed_arguments() {
    assert_eq!(
        Size::from_arg("nope").unwrap_err(),
        "invalid size: nope".to_string()
    );
    assert_eq!(
        Size::from_arg("12x").unwrap_err(),
        "invalid size: 12x".to_string()
    );
    assert_eq!(
        Size::from_arg("x12").unwrap_err(),
        "invalid size: x12".to_string()
    );
    assert_eq!(
        Size::from_arg("99999999999x1").unwrap_err(),
        "invalid size: 99999999999x1".to_string()
    );
}

#[test]
fn size_new_keeps_fields() {
    let s = Size::new(3456, 2234);
    assert_eq!(s.width, 3456);
    assert_eq!(s.height, 2234);
}
