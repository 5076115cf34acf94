use entropic::draw::Color;
use entropic::state::{Dimension, Layer, Picture, Pixel};

fn px(r: u8, g: u8, b: u8, a: u8) -> Pixel {
    Pixel { r, g, b, a }
}

#[test]
fn half_white_over_black_is_mid_gray() {
    let result = Pixel::blend(px(0, 0, 0, 255), px(255, 255, 255, 128));
    assert_eq!(result, px(128, 128, 128, 255));
}

#[test]
fn blend_is_close_to_the_formula_in_fractions() {
    let bg = px(10, 200, 30, 77);
    let fg = px(250, 20, 130, 140);
    let result = Pixel::blend(bg, fg);
    let (fa, ba) = (fg.a as f64 / 255.0, bg.a as f64 / 255.0);
    let a = 1.0 - (1.0 - fa) * (1.0 - ba);
    let mix = |f: u8, b: u8| {
        ((f as f64 / 255.0) * fa / a + (b as f64 / 255.0) * ba * (1.0 - fa) / a) * 255.0
    };
    assert!((result.r as f64 - mix(fg.r, bg.r)).abs() <= 1.0);
    assert!((result.g as f64 - mix(fg.g, bg.g)).abs() <= 1.0);
    assert!((result.b as f64 - mix(fg.b, bg.b)).abs() <= 1.0);
    assert!((result.a as f64 - a * 255.0).abs() <= 1.0);
}

#[test]
fn blend_rounds_down() {
    // coverage = 255 * 100 + 50 * 155 = 33250
    // red = (200 * 25500 + 100 * 7750) / 33250 = 5875000 / 33250 = 176.69...
    // alpha = 33250 / 255 = 130.39...
    assert_eq!(Pixel::blend(px(100, 0, 255, 50), px(200, 0, 255, 100)), px(176, 0, 255, 130));
}

#[test]
fn two_transparent_pixels_blend_to_the_default() {
    assert_eq!(Pixel::blend(px(1, 2, 3, 0), px(4, 5, 6, 0)), Pixel::default());
    assert_eq!(Pixel::default(), px(0, 0, 0, 0));
}

#[test]
fn an_opaque_foreground_hides_the_background() {
    assert_eq!(Pixel::blend(px(1, 2, 3, 200), px(40, 50, 60, 255)), px(40, 50, 60, 255));
    assert_eq!(Pixel::blend(px(1, 2, 3, 0), px(40, 50, 60, 255)), px(40, 50, 60, 255));
}

#[test]
fn a_transparent_foreground_shows_the_background() {
    assert_eq!(Pixel::blend(px(1, 2, 3, 200), px(40, 50, 60, 0)), px(1, 2, 3, 200));
    assert_eq!(Pixel::blend(px(63, 63, 63, 255), px(0, 0, 0, 0)), px(63, 63, 63, 255));
}

#[test]
fn a_foreground_over_nothing_stays_as_it_is() {
    assert_eq!(Pixel::blend(px(9, 9, 9, 0), px(40, 50, 60, 77)), px(40, 50, 60, 77));
}

#[test]
fn a_mixed_channel_lies_between_its_two_sources() {
    for fa in [1u8, 17, 128, 254] {
        for ba in [1u8, 90, 255] {
            let result = Pixel::blend(px(10, 200, 77, ba), px(250, 20, 77, fa));
            assert!(10 <= result.r && result.r <= 250);
            assert!(20 <= result.g && result.g <= 200);
            assert_eq!(result.b, 77);
            assert!(result.a >= fa && result.a >= ba);
        }
    }
}

#[test]
fn colour_of_a_pixel_drops_the_opacity() {
    assert_eq!(Color::from(px(1, 2, 3, 4)), Color { r: 1, g: 2, b: 3 });
}

fn picture(layers: Vec<Vec<Pixel>>) -> Picture {
    Picture {
        size: Dimension { width: 2, height: 1 },
        layers: layers.into_iter().map(|pixels| Layer { pixels }).collect(),
    }
}

#[test]
fn layers_are_laid_over_each_other_from_the_back() {
    let pic = picture(vec![
        vec![px(0, 0, 0, 255), px(63, 63, 63, 255)],
        vec![px(255, 255, 255, 128), px(0, 0, 0, 0)],
    ]);
    assert_eq!(pic.composite(0), px(128, 128, 128, 255));
    assert_eq!(pic.composite(1), px(63, 63, 63, 255));
}

#[test]
fn the_order_of_the_layers_matters() {
    let pic = picture(vec![
        vec![px(255, 255, 255, 128), px(0, 0, 0, 0)],
        vec![px(0, 0, 0, 255), px(63, 63, 63, 255)],
    ]);
    assert_eq!(pic.composite(0), px(0, 0, 0, 255));
}

#[test]
fn a_picture_without_layers_shows_nothing() {
    let pic = picture(vec![]);
    assert_eq!(pic.composite(0), Pixel::default());
    assert_eq!(pic.composite(1), Pixel::default());
}

#[test]
fn a_stack_of_transparent_layers_shows_nothing() {
    let pic = picture(vec![vec![px(5, 5, 5, 0); 2], vec![px(9, 9, 9, 0); 2]]);
    assert_eq!(pic.composite(0), Pixel::default());
}

#[test]
fn three_layers_blend_in_turn() {
    let pic = picture(vec![
        vec![px(0, 0, 0, 255); 2],
        vec![px(255, 255, 255, 128); 2],
        vec![px(255, 0, 0, 255); 2],
    ]);
    let by_hand = Pixel::blend(
        Pixel::blend(Pixel::blend(Pixel::default(), px(0, 0, 0, 255)), px(255, 255, 255, 128)),
        px(255, 0, 0, 255),
    );
    assert_eq!(pic.composite(0), by_hand);
    assert_eq!(by_hand, px(255, 0, 0, 255));
}
