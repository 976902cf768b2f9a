use pallette::color::{ColorUtil, Rgb};
use pallette::pallette::{Pallette, DEFAULT_SIZE, MIN_MEASURE};
use rand::rngs::StdRng;
use rand::SeedableRng;

fn entries_of(colors: &[[u8; 3]]) -> Vec<(Rgb<u8>, usize)> {
    let n = colors.len();
    colors.iter().enumerate().map(|(i, c)| (Rgb(*c), n - i)).collect()
}

fn buffer_of(pixels: &[[u8; 3]]) -> Vec<u8> {
    pixels.iter().flat_map(|p| p.iter().copied()).collect()
}

fn loaded() -> Pallette {
    // (0,0,0) x3, (0,5,0) x2 (near black), (200,0,0) x2, (0,200,0) x1, (0,0,200) x1
    let pixels = [
        [0, 0, 0],
        [0, 5, 0],
        [200, 0, 0],
        [0, 0, 0],
        [0, 200, 0],
        [0, 5, 0],
        [0, 0, 0],
        [200, 0, 0],
        [0, 0, 200],
    ];
    let mut p = Pallette::new();
    assert!(p.update("image.png", &buffer_of(&pixels), 3, 3));
    p
}

#[test]
fn a_new_pallette_is_blank() {
    let p = Pallette::new();
    assert!(p.top_rgb.is_empty());
    assert!(p.top_hex.is_empty());
    assert!(p.current_path.is_none());
    assert!(p.all_entries.is_empty());
    assert_eq!(p.pallette_size, DEFAULT_SIZE);
    assert_eq!(p.pallette_size, 16);
    assert!(p.is_wf());
    let d = Pallette::default();
    assert_eq!(d.pallette_size, 16);
}

#[test]
fn select_top_takes_no_more_than_asked() {
    let entries = entries_of(&[[0, 0, 0], [100, 0, 0], [0, 100, 0], [0, 0, 100], [100, 100, 0]]);
    for n in 0..8 {
        let (rgb, hex) = Pallette::get_top_colors(&entries, n);
        assert_eq!(rgb.len(), n.min(5));
        assert_eq!(hex.len(), rgb.len());
        assert_eq!(rgb, entries.iter().take(n).map(|e| e.0).collect::<Vec<_>>());
    }
}

#[test]
fn select_top_skips_what_is_too_near() {
    let entries = entries_of(&[[0, 0, 0], [0, 9, 0], [0, 10, 0], [0, 15, 0], [0, 20, 0]]);
    let (rgb, hex) = Pallette::get_top_colors(&entries, 5);
    // (0,10,0) is at distance 20 from black and is taken; (0,15,0) is at 10 from it
    assert_eq!(rgb, vec![Rgb([0, 0, 0]), Rgb([0, 10, 0]), Rgb([0, 20, 0])]);
    assert_eq!(hex, vec!["#000000", "#000A00", "#001400"]);
    for a in 0..rgb.len() {
        for b in 0..rgb.len() {
            if a != b {
                assert!(ColorUtil::color_distance(rgb[a], rgb[b]) >= MIN_MEASURE);
            }
        }
    }
}

#[test]
fn select_top_may_miss_a_larger_separated_set() {
    // the second and third colour are far from each other but both near the first
    let entries = entries_of(&[[0, 8, 0], [0, 0, 0], [0, 16, 0]]);
    let (rgb, _) = Pallette::get_top_colors(&entries, 2);
    assert_eq!(rgb, vec![Rgb([0, 8, 0])]);
    assert!(ColorUtil::color_distance(Rgb([0, 0, 0]), Rgb([0, 16, 0])) >= MIN_MEASURE);
}

#[test]
fn select_top_of_nothing_is_empty() {
    let (rgb, hex) = Pallette::get_top_colors(&vec![], 4);
    assert!(rgb.is_empty());
    assert!(hex.is_empty());
    let (rgb, _) = Pallette::select_top(&entries_of(&[[1, 2, 3]]), 0, MIN_MEASURE);
    assert!(rgb.is_empty());
}

#[test]
fn select_top_with_another_least_measure() {
    let entries = entries_of(&[[0, 0, 0], [0, 9, 0], [0, 10, 0]]);
    let (rgb, _) = Pallette::select_top(&entries, 3, 0);
    assert_eq!(rgb.len(), 3);
    let (rgb, _) = Pallette::select_top(&entries, 3, ColorUtil::threshold(18) as u32);
    assert_eq!(rgb, vec![Rgb([0, 0, 0]), Rgb([0, 9, 0])]);
    let (rgb, _) = Pallette::select_top(&entries, 3, u32::MAX);
    assert_eq!(rgb, vec![Rgb([0, 0, 0])]);
}

#[test]
fn update_makes_the_pallette_of_an_image() {
    let p = loaded();
    assert_eq!(p.current_path.as_deref(), Some("image.png"));
    assert_eq!(
        p.all_entries,
        vec![
            (Rgb([0, 0, 0]), 3),
            (Rgb([0, 5, 0]), 2),
            (Rgb([200, 0, 0]), 2),
            (Rgb([0, 200, 0]), 1),
            (Rgb([0, 0, 200]), 1),
        ]
    );
    assert_eq!(
        p.top_rgb,
        vec![Rgb([0, 0, 0]), Rgb([200, 0, 0]), Rgb([0, 200, 0]), Rgb([0, 0, 200])]
    );
    assert_eq!(p.top_hex, vec!["#000000", "#C80000", "#00C800", "#0000C8"]);
    assert_eq!(p.pallette_size, 4);
    assert!(p.is_wf());
}

#[test]
fn update_does_nothing_for_the_same_path_or_a_bad_buffer() {
    let mut p = loaded();
    assert!(p.is_current("image.png"));
    assert!(!p.is_current("other.png"));
    assert!(!p.update("image.png", &[1, 2, 3], 1, 1));
    assert_eq!(p.all_entries.len(), 5);
    assert!(!p.update("other.png", &[1, 2, 3], 2, 1));
    assert_eq!(p.current_path.as_deref(), Some("image.png"));
    assert_eq!(p.all_entries.len(), 5);
    assert!(p.update("other.png", &[1, 2, 3], 1, 1));
    assert_eq!(p.top_rgb, vec![Rgb([1, 2, 3])]);
    assert_eq!(p.pallette_size, 1);
}

#[test]
fn shrinking_cuts_and_growing_selects_anew() {
    let mut p = loaded();
    p.decrement_pallette_size();
    assert_eq!(p.top_rgb, vec![Rgb([0, 0, 0]), Rgb([200, 0, 0]), Rgb([0, 200, 0])]);
    assert_eq!(p.top_hex.len(), 3);
    assert_eq!(p.pallette_size, 3);
    p.resize(1);
    assert_eq!(p.top_rgb, vec![Rgb([0, 0, 0])]);
    p.decrement_pallette_size();
    assert_eq!(p.pallette_size, 1);
    assert_eq!(p.top_rgb.len(), 1);
    p.resize(0);
    assert_eq!(p.top_rgb.len(), 1);
    p.resize(6);
    assert_eq!(p.top_rgb.len(), 1);
    p.increment_pallette_size();
    assert_eq!(p.top_rgb, vec![Rgb([0, 0, 0]), Rgb([200, 0, 0])]);
    p.resize(5);
    assert_eq!(p.top_rgb.len(), 4);
    assert_eq!(p.pallette_size, 4);
    assert!(p.is_wf());
}

#[test]
fn growing_forgets_swaps_and_shrinking_keeps_them() {
    let mut p = loaded();
    p.resize(2);
    p.update_color(Rgb([200, 0, 0]), Rgb([9, 9, 9]));
    p.resize(1);
    p.add_new_color(Rgb([7, 7, 7]));
    assert_eq!(p.top_rgb, vec![Rgb([0, 0, 0]), Rgb([7, 7, 7])]);
    p.resize(1);
    assert_eq!(p.top_rgb, vec![Rgb([0, 0, 0])]);
    p.update_color(Rgb([0, 0, 0]), Rgb([9, 9, 9]));
    p.resize(3);
    assert_eq!(p.top_rgb, vec![Rgb([0, 0, 0]), Rgb([200, 0, 0]), Rgb([0, 200, 0])]);
}

#[test]
fn swap_keeps_the_size_and_takes_an_unused_color() {
    for seed in 0..50u64 {
        let mut rng = StdRng::seed_from_u64(seed);
        let mut p = loaded();
        p.resize(3);
        let before = p.top_rgb.clone();
        p.swap_top_color(1, &mut rng);
        assert_eq!(p.top_rgb.len(), 3);
        assert_eq!(p.top_hex.len(), 3);
        assert_eq!(p.top_rgb[0], before[0]);
        assert_eq!(p.top_rgb[2], before[2]);
        assert!(!before.contains(&p.top_rgb[1]));
        assert!(p.all_entries.iter().any(|e| e.0 == p.top_rgb[1]));
        assert_eq!(p.top_hex[1], ColorUtil::rgb_to_hex(p.top_rgb[1]));
        assert!(p.is_wf());
    }
}

#[test]
fn swap_follows_the_seed_and_reaches_every_unused_color() {
    let mut seen = Vec::new();
    for seed in 0..200u64 {
        let mut one = loaded();
        let mut two = loaded();
        one.resize(3);
        two.resize(3);
        one.swap_top_color(0, &mut StdRng::seed_from_u64(seed));
        two.swap_top_color(0, &mut StdRng::seed_from_u64(seed));
        assert_eq!(one.top_rgb, two.top_rgb);
        if !seen.contains(&one.top_rgb[0]) {
            seen.push(one.top_rgb[0]);
        }
    }
    seen.sort_by_key(|c| c.0);
    assert_eq!(seen, vec![Rgb([0, 0, 200]), Rgb([0, 5, 0])]);
}

#[test]
fn swap_does_nothing_without_a_place_or_an_unused_color() {
    let mut rng = StdRng::seed_from_u64(3);
    let mut p = loaded();
    let before = p.top_rgb.clone();
    p.swap_top_color(4, &mut rng);
    assert_eq!(p.top_rgb, before);
    p.add_new_color(Rgb([0, 5, 0]));
    let before = p.top_rgb.clone();
    p.swap_top_color(0, &mut rng);
    assert_eq!(p.top_rgb, before);
    assert!(p.get_unused_entry(&mut rng).is_none());
    let mut blank = Pallette::new();
    blank.swap_top_color(0, &mut rng);
    assert!(blank.top_rgb.is_empty());
    assert!(blank.get_unused_entry(&mut rng).is_none());
}

#[test]
fn pick_unused_takes_the_first_fitting_position() {
    let p = {
        let mut p = loaded();
        p.resize(2);
        p
    };
    assert_eq!(p.pick_unused(&vec![0, 2, 4, 3]), Some(Rgb([0, 0, 200])));
    assert_eq!(p.pick_unused(&vec![9, 0, 1, 3]), Some(Rgb([0, 5, 0])));
    assert_eq!(p.pick_unused(&vec![0, 2, 7]), None);
    assert_eq!(p.pick_unused(&vec![]), None);
}

#[test]
fn update_color_replaces_every_occurrence() {
    let mut p = loaded();
    p.add_new_color(Rgb([200, 0, 0]));
    p.update_color(Rgb([200, 0, 0]), Rgb([1, 2, 3]));
    assert_eq!(
        p.top_rgb,
        vec![Rgb([0, 0, 0]), Rgb([1, 2, 3]), Rgb([0, 200, 0]), Rgb([0, 0, 200]), Rgb([1, 2, 3])]
    );
    assert_eq!(p.top_hex[1], "#010203");
    assert_eq!(p.top_hex[4], "#010203");
    let before = p.top_rgb.clone();
    p.update_color(Rgb([77, 77, 77]), Rgb([5, 5, 5]));
    assert_eq!(p.top_rgb, before);
    assert!(p.is_wf());
}

#[test]
fn adding_colors_bypasses_the_rules() {
    let mut p = loaded();
    p.add_new_color(Rgb([0, 0, 0]));
    p.add_complementary(Rgb([10, 20, 30]));
    assert_eq!(p.top_rgb.len(), 6);
    assert_eq!(p.pallette_size, 6);
    assert_eq!(p.top_rgb[4], Rgb([0, 0, 0]));
    assert_eq!(p.top_rgb[5], Rgb([245, 235, 225]));
    assert_eq!(p.top_hex[5], "#F5EBE1");
}

#[test]
fn reset_makes_the_pallette_blank() {
    let mut p = loaded();
    p.reset();
    assert!(p.top_rgb.is_empty());
    assert!(p.top_hex.is_empty());
    assert!(p.current_path.is_none());
    assert!(p.all_entries.is_empty());
    assert_eq!(p.pallette_size, 16);
}

#[test]
fn is_wf_sees_a_stale_hex() {
    let mut p = loaded();
    assert!(p.is_wf());
    p.top_hex[0] = String::from("#123456");
    assert!(!p.is_wf());
    p.top_hex.pop();
    assert!(!p.is_wf());
}

#[test]
fn update_top_colors_selects_as_many_as_asked() {
    let mut p = loaded();
    p.pallette_size = 2;
    p.update_top_colors();
    assert_eq!(p.top_rgb, vec![Rgb([0, 0, 0]), Rgb([200, 0, 0])]);
    assert_eq!(p.pallette_size, 2);
    p.pallette_size = 40;
    p.update_top_colors();
    assert_eq!(p.pallette_size, 4);
}
