use pallette::color::{ColorUtil, Rgb};
use pallette::hsv::{Ratio, HSV};

fn valid_hsv(hsv: &HSV) {
    assert!((hsv.h.num as f64) / (hsv.h.den as f64) < 360.);
    assert!((hsv.s.num as f64) / (hsv.s.den as f64) <= 1.);
    assert!((hsv.v.num as f64) / (hsv.v.den as f64) <= 1.);
}

fn rgb_test(rgb: Rgb<u8>) {
    let h = HSV::from_rgb_u(rgb);
    valid_hsv(&h);
    let rgb_out = HSV::hsv_to_rgb(h);
    assert_eq!(rgb, rgb_out);
}

#[test]
fn rgb_hsv_teal() {
    let rgb = Rgb([100, 192, 154]);
    let hsv = HSV::from_rgb_u(rgb);
    valid_hsv(&hsv);
    let rgb_out = HSV::hsv_to_rgb(hsv);
    assert_eq!(rgb, rgb_out);
}

#[test]
fn rgb_hsv_grey() {
    let rgb = Rgb([136, 136, 136]);
    let h = HSV::from_rgb_u(rgb);
    valid_hsv(&h);
    let rgb_out = HSV::hsv_to_rgb(h);
    assert_eq!(rgb, rgb_out);
}

#[test]
fn rgb_hsv_5() {
    rgb_test(Rgb([255, 129, 0]));
}

#[test]
fn rgb_hsv_6() {
    rgb_test(Rgb([55, 0, 255]));
}

#[test]
fn it_adds_two() {
    let rgb = Rgb([100, 192, 154]);
    let h = HSV::from_rgb_u(rgb);
    let rgb_out = HSV::to_rgb(h.h, h.s, h.v);
    assert_eq!(rgb, rgb_out);
}

#[test]
fn hsv_of_teal_is_exact() {
    let hsv = HSV::from_rgb_u(Rgb([100, 192, 154]));
    assert_eq!(hsv.h, Ratio { num: 14280, den: 92 });
    assert_eq!(hsv.s, Ratio { num: 92, den: 192 });
    assert_eq!(hsv.v, Ratio { num: 192, den: 255 });
}

#[test]
fn hsv_of_grey_and_black() {
    let grey = HSV::from_rgb_u(Rgb([136, 136, 136]));
    assert_eq!(grey.h, Ratio { num: 0, den: 1 });
    assert_eq!(grey.s, Ratio { num: 0, den: 136 });
    assert_eq!(grey.v, Ratio { num: 136, den: 255 });
    let black = HSV::from_rgb_u(Rgb([0, 0, 0]));
    assert_eq!(black.s, Ratio { num: 0, den: 1 });
    assert_eq!(HSV::hsv_to_rgb(black), Rgb([0, 0, 0]));
}

#[test]
fn hue_wraps_below_zero_into_range() {
    // red largest, green below blue: the hue lies in the last sector
    let hsv = HSV::from_rgb_u(Rgb([55, 0, 255]));
    assert_eq!(hsv.h, Ratio { num: 64500, den: 255 });
    let hsv = HSV::from_rgb_u(Rgb([255, 0, 4]));
    assert!(hsv.h.num as u64 >= 300 * hsv.h.den as u64);
    assert!((hsv.h.num as u64) < 360 * hsv.h.den as u64);
}

#[test]
fn round_trip_on_a_grid_of_colors() {
    let mut r: u16 = 0;
    while r < 256 {
        let mut g: u16 = 0;
        while g < 256 {
            let mut b: u16 = 0;
            while b < 256 {
                let c = Rgb([r as u8, g as u8, b as u8]);
                assert_eq!(HSV::hsv_to_rgb(HSV::from_rgb_u(c)), c);
                b += 5;
            }
            g += 5;
        }
        r += 5;
    }
}

#[test]
fn to_rgb_rounds_to_nearest() {
    let one = Ratio { num: 1, den: 1 };
    assert_eq!(HSV::to_rgb(Ratio { num: 210, den: 1 }, one, one), Rgb([0, 128, 255]));
    assert_eq!(HSV::to_rgb(Ratio { num: 150, den: 1 }, one, one), Rgb([0, 255, 128]));
    assert_eq!(HSV::to_rgb(Ratio { num: 60, den: 1 }, one, one), Rgb([255, 255, 0]));
    assert_eq!(HSV::to_rgb(Ratio { num: 359, den: 1 }, one, one), Rgb([255, 0, 4]));
    assert_eq!(
        HSV::to_rgb(Ratio { num: 30, den: 1 }, Ratio { num: 1, den: 2 }, Ratio { num: 3, den: 4 }),
        Rgb([191, 143, 96])
    );
}

#[test]
fn saturation_zero_gives_grey() {
    let c = HSV::to_rgb(
        Ratio { num: 123, den: 1 },
        Ratio { num: 0, den: 7 },
        Ratio { num: 1, den: 2 },
    );
    assert_eq!(c, Rgb([128, 128, 128]));
}

#[test]
fn new_takes_only_what_is_in_range() {
    let one = Ratio { num: 1, den: 1 };
    assert!(HSV::new(Ratio { num: 359, den: 1 }, one, one).is_some());
    assert!(HSV::new(Ratio { num: 360, den: 1 }, one, one).is_none());
    assert!(HSV::new(Ratio { num: 0, den: 0 }, one, one).is_none());
    assert!(HSV::new(Ratio { num: 0, den: 1 }, Ratio { num: 3, den: 2 }, one).is_none());
    assert!(HSV::new(Ratio { num: 0, den: 1 }, one, Ratio { num: 2, den: 1 }).is_none());
    assert!(HSV::new(Ratio { num: 0, den: 11_930_465 }, one, one).is_none());
    let hsv = HSV::new(Ratio { num: 719, den: 2 }, one, one).unwrap();
    assert!(hsv.is_valid());
}

#[test]
fn rotated_turns_the_hue_and_wraps() {
    let hsv = HSV::from_rgb_u(Rgb([100, 192, 154]));
    let turned = hsv.rotated(210);
    assert_eq!(turned.h, Ratio { num: 480, den: 92 });
    assert_eq!(turned.s, hsv.s);
    assert_eq!(turned.v, hsv.v);
    assert_eq!(hsv.rotated(360).h, hsv.h);
    assert_eq!(hsv.rotated(570).h, turned.h);
}

#[test]
fn split_complement_of_red() {
    let red = HSV::from_rgb_u(Rgb([255, 0, 0]));
    assert_eq!(red.h.num, 0);
    let (first, second) = ColorUtil::split_complement(&red);
    assert_eq!(first, Rgb([0, 128, 255]));
    assert_eq!(second, Rgb([0, 255, 128]));
    let h1 = HSV::from_rgb_u(first);
    let h2 = HSV::from_rgb_u(second);
    let deg1 = h1.h.num as f64 / h1.h.den as f64;
    let deg2 = h2.h.num as f64 / h2.h.den as f64;
    assert!((deg1 - 210.).abs() < 0.5);
    assert!((deg2 - 150.).abs() < 0.5);
}

#[test]
fn split_complement_of_teal() {
    let teal = HSV::from_rgb_u(Rgb([100, 192, 154]));
    let pair = ColorUtil::split_complement(&teal);
    assert_eq!(pair, (Rgb([192, 108, 100]), Rgb([192, 100, 184])));
}
