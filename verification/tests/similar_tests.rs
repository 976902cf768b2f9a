use pallette::color::{ColorUtil, Rgb};
use pallette::similar::Similar;

#[test]
fn similar_colors_come_farthest_first() {
    let target = Rgb([63u8, 100, 100]);
    let at_5 = Rgb([65u8, 98, 100]);
    let at_15 = Rgb([58u8, 95, 95]);
    let at_40 = Rgb([63u8, 80, 100]);
    assert_eq!(ColorUtil::color_distance(target, at_5), 512 * 5 * 5);
    assert_eq!(ColorUtil::color_distance(target, at_15), 512 * 15 * 15);
    assert_eq!(ColorUtil::color_distance(target, at_40), 512 * 40 * 40);
    let all = vec![(at_5, 3usize), (at_40, 1), (at_15, 2)];
    let similar = Similar::new_similar(target, &all, 10, ColorUtil::threshold(50));
    assert_eq!(similar.color, target);
    assert_eq!(
        similar.similar_colors,
        vec![(at_40, 1, 512 * 1600), (at_15, 2, 512 * 225), (at_5, 3, 512 * 25)]
    );
}

#[test]
fn the_threshold_is_strict() {
    let target = Rgb([63u8, 100, 100]);
    let at_40 = Rgb([63u8, 80, 100]);
    let all = vec![(at_40, 1usize), (target, 9)];
    let similar = Similar::new_similar(target, &all, 10, ColorUtil::threshold(40));
    assert_eq!(similar.similar_colors, vec![(target, 9, 0)]);
    let similar = Similar::new_similar(target, &all, 10, ColorUtil::threshold(40) + 1);
    assert_eq!(similar.similar_colors.len(), 2);
    let similar = Similar::new_similar(target, &all, 10, 0);
    assert!(similar.similar_colors.is_empty());
}

#[test]
fn no_more_than_count_are_kept_and_ties_keep_their_order() {
    let target = Rgb([0u8, 0, 0]);
    let all = vec![
        (Rgb([0u8, 1, 0]), 1usize),
        (Rgb([0, 3, 0]), 2),
        (Rgb([0, 1, 0]), 3),
        (Rgb([0, 2, 0]), 4),
        (Rgb([0, 3, 0]), 5),
    ];
    let similar = Similar::new_similar(target, &all, 3, ColorUtil::threshold(80));
    let counts: Vec<usize> = similar.similar_colors.iter().map(|m| m.1).collect();
    assert_eq!(counts, vec![2, 5, 4]);
    let similar = Similar::new_similar(target, &all, 0, ColorUtil::threshold(80));
    assert!(similar.similar_colors.is_empty());
    let similar = Similar::new_similar(target, &vec![], 3, ColorUtil::threshold(80));
    assert!(similar.similar_colors.is_empty());
}
