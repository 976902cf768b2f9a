use pallette::color::{contains_color, ColorUtil, Rgb, MAX_MEASURE, MIN_DISTANCE};
use pallette::pallette::MIN_MEASURE;
use rand::rngs::StdRng;
use rand::SeedableRng;

#[test]
fn complement_of_a_color() {
    assert_eq!(ColorUtil::get_compliment(Rgb([10, 20, 30])), Rgb([245, 235, 225]));
    assert_eq!(ColorUtil::get_compliment(Rgb([0, 255, 128])), Rgb([255, 0, 127]));
}

#[test]
fn complement_twice_is_the_color() {
    let mut v: u16 = 0;
    while v < 256 {
        let c = Rgb([v as u8, (255 - v) as u8, ((v * 7) % 256) as u8]);
        assert_eq!(ColorUtil::get_compliment(ColorUtil::get_compliment(c)), c);
        v += 1;
    }
}

#[test]
fn hex_notation() {
    assert_eq!(ColorUtil::rgb_to_hex(Rgb([100, 192, 154])), "#64C09A");
    assert_eq!(ColorUtil::rgb_to_hex(Rgb([0, 0, 0])), "#000000");
    assert_eq!(ColorUtil::rgb_to_hex(Rgb([255, 255, 255])), "#FFFFFF");
    assert_eq!(ColorUtil::rgb_to_hex(Rgb([1, 10, 171])), "#010AAB");
}

#[test]
fn distance_has_exact_measures() {
    assert_eq!(ColorUtil::color_distance(Rgb([10, 20, 30]), Rgb([200, 100, 5])), 58_483_350);
    assert_eq!(ColorUtil::color_distance(Rgb([0, 0, 0]), Rgb([0, 10, 0])), 204_800);
    assert_eq!(
        ColorUtil::color_distance(Rgb([0, 0, 0]), Rgb([255, 255, 255])),
        MAX_MEASURE
    );
    assert_eq!(ColorUtil::color_distance(Rgb([255, 0, 0]), Rgb([0, 255, 255])), MAX_MEASURE);
}

#[test]
fn measure_is_512_times_the_squared_redmean_distance() {
    let a = Rgb([10u8, 20, 30]);
    let b = Rgb([200u8, 100, 5]);
    let ar = 0.5 * (10. + 200.);
    let (dr, dg, db) = (10. - 200., 20. - 100., 30. - 5.);
    let squared: f64 =
        (2. + ar / 256.) * dr * dr + 4. * dg * dg + (2. + (256. - ar) / 256.) * db * db;
    let measure = ColorUtil::color_distance(a, b) as f64;
    assert!((measure / 512. - squared).abs() < 1e-6);
}

#[test]
fn distance_is_symmetric_and_zero_on_equal() {
    let colors = [
        Rgb([0u8, 0, 0]),
        Rgb([255, 255, 255]),
        Rgb([10, 200, 30]),
        Rgb([63, 100, 100]),
        Rgb([255, 0, 4]),
    ];
    for a in colors {
        for b in colors {
            assert_eq!(ColorUtil::color_distance(a, b), ColorUtil::color_distance(b, a));
            assert_eq!(ColorUtil::color_distance(a, b) == 0, a == b);
        }
    }
}

#[test]
fn threshold_is_the_measure_of_a_distance() {
    assert_eq!(ColorUtil::threshold(0), 0);
    assert_eq!(ColorUtil::threshold(20), 204_800);
    assert_eq!(ColorUtil::threshold(MIN_DISTANCE as u16), MIN_MEASURE as u64);
    assert_eq!(ColorUtil::threshold(65535), 512 * 65535 * 65535);
}

#[test]
fn key_and_same() {
    assert_eq!(Rgb([0x12u8, 0x34, 0x56]).key(), 0x123456);
    assert!(Rgb([1u8, 2, 3]).same(Rgb([1, 2, 3])));
    assert!(!Rgb([1u8, 2, 3]).same(Rgb([1, 2, 4])));
    let colors = vec![Rgb([1u8, 2, 3]), Rgb([4, 5, 6])];
    assert!(contains_color(&colors, Rgb([4, 5, 6])));
    assert!(!contains_color(&colors, Rgb([4, 5, 7])));
}

#[test]
fn rand_color_follows_the_seed() {
    let mut one = StdRng::seed_from_u64(11);
    let mut two = StdRng::seed_from_u64(11);
    let a = ColorUtil::rand_color(&mut one);
    let b = ColorUtil::rand_color(&mut two);
    assert_eq!(a, b);
    let mut seen = vec![a];
    for _ in 0..20 {
        seen.push(ColorUtil::rand_color(&mut one));
    }
    assert!(seen.iter().any(|c| *c != a));
}
