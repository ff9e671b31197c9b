use raster_skeleton::pixel::{commit, foreground_of, has_marker, mark};
use raster_skeleton::thin::thinning_zs;
use raster_skeleton::tiled::thinning_zs_tiled;
use raster_skeleton::window::{thinning_zs_iteration, thinning_zs_post};

fn image(rows: &[&str]) -> Vec<u8> {
    let mut im = Vec::new();
    for row in rows {
        for c in row.chars() {
            im.push(if c == '#' { 1u8 } else { 0u8 });
        }
    }
    im
}

const BLOCK: [&str; 5] = [".....", ".###.", ".###.", ".###.", "....."];

#[test]
fn codec_reads_and_writes_two_bits() {
    assert_eq!(foreground_of(0), 0);
    assert_eq!(foreground_of(1), 1);
    assert_eq!(foreground_of(2), 0);
    assert_eq!(foreground_of(3), 1);
    assert_eq!(foreground_of(0xfe), 0);
    assert!(!has_marker(1));
    assert!(has_marker(2));
    assert!(has_marker(3));
    assert_eq!(mark(1), 3);
    assert_eq!(mark(0), 2);
    assert_eq!(mark(3), 3);
    assert_eq!(commit(0), 0);
    assert_eq!(commit(1), 1);
    assert_eq!(commit(2), 0);
    assert_eq!(commit(3), 0);
    assert_eq!(commit(4), 0);
    assert_eq!(commit(5), 1);
    assert_eq!(commit(7), 0);
    assert_eq!(commit(0xfd), 1);
}

#[test]
fn first_sub_iteration_marks_south_east_border() {
    let mut im = image(&BLOCK);
    let diff = thinning_zs_iteration(&mut im, 0, 0, 5, 5, 5, 5, 0);
    assert!(diff);
    assert_eq!(
        im,
        vec![0, 0, 0, 0, 0, 0, 3, 1, 3, 0, 0, 1, 1, 3, 0, 0, 3, 3, 3, 0, 0, 0, 0, 0, 0]
    );
}

#[test]
fn second_sub_iteration_marks_north_west_border() {
    let mut im = image(&BLOCK);
    let diff = thinning_zs_iteration(&mut im, 0, 0, 5, 5, 5, 5, 1);
    assert!(diff);
    assert_eq!(
        im,
        vec![0, 0, 0, 0, 0, 0, 3, 3, 3, 0, 0, 3, 1, 1, 0, 0, 3, 1, 3, 0, 0, 0, 0, 0, 0]
    );
}

#[test]
fn any_non_zero_selector_is_the_second_sub_iteration() {
    let mut a = image(&BLOCK);
    let mut b = image(&BLOCK);
    thinning_zs_iteration(&mut a, 0, 0, 5, 5, 5, 5, 1);
    thinning_zs_iteration(&mut b, 0, 0, 5, 5, 5, 5, -7);
    assert_eq!(a, b);
}

#[test]
fn marking_again_sets_nothing_new() {
    let mut im = image(&BLOCK);
    assert!(thinning_zs_iteration(&mut im, 0, 0, 5, 5, 5, 5, 0));
    let marked = im.clone();
    assert!(!thinning_zs_iteration(&mut im, 0, 0, 5, 5, 5, 5, 0));
    assert_eq!(im, marked);
}

#[test]
fn marking_stays_inside_the_window() {
    let mut im = image(&BLOCK);
    assert!(thinning_zs_iteration(&mut im, 2, 2, 3, 3, 5, 5, 0));
    assert_eq!(
        im,
        vec![0, 0, 0, 0, 0, 0, 1, 1, 1, 0, 0, 1, 1, 3, 0, 0, 1, 3, 3, 0, 0, 0, 0, 0, 0]
    );
    let mut im = image(&BLOCK);
    assert!(thinning_zs_iteration(&mut im, 0, 0, 2, 2, 5, 5, 0));
    assert_eq!(
        im,
        vec![0, 0, 0, 0, 0, 0, 3, 1, 1, 0, 0, 1, 1, 1, 0, 0, 1, 1, 1, 0, 0, 0, 0, 0, 0]
    );
}

#[test]
fn background_is_never_marked() {
    let mut im = vec![0u8; 25];
    assert!(!thinning_zs_iteration(&mut im, 0, 0, 5, 5, 5, 5, 0));
    assert!(!thinning_zs_iteration(&mut im, 0, 0, 5, 5, 5, 5, 1));
    assert_eq!(im, vec![0u8; 25]);
}

#[test]
fn border_of_the_image_is_never_marked() {
    let mut im = vec![1u8; 9];
    im[4] = 0;
    assert!(!thinning_zs_iteration(&mut im, 0, 0, 3, 3, 3, 3, 0));
    assert_eq!(im, vec![1, 1, 1, 1, 0, 1, 1, 1, 1]);
}

#[test]
fn empty_image_is_left_alone() {
    let mut im: Vec<u8> = Vec::new();
    assert!(!thinning_zs_iteration(&mut im, 0, 0, 0, 0, 0, 0, 0));
    thinning_zs_post(&mut im, 0, 0, 0, 0, 0);
    thinning_zs(&mut im, 0, 0);
    thinning_zs_tiled(&mut im, 0, 0, 4, 4);
    assert!(im.is_empty());
}

#[test]
fn post_pass_applies_markers() {
    let mut im = image(&BLOCK);
    thinning_zs_iteration(&mut im, 0, 0, 5, 5, 5, 5, 0);
    thinning_zs_post(&mut im, 0, 0, 5, 5, 5);
    assert_eq!(
        im,
        vec![0, 0, 0, 0, 0, 0, 0, 1, 0, 0, 0, 1, 1, 0, 0, 0, 0, 0, 0, 0, 0, 0, 0, 0, 0]
    );
}

#[test]
fn post_pass_clears_upper_bits_in_its_window_only() {
    let mut im = vec![7u8, 5, 4, 3, 2, 1, 0xff, 0xfd, 9];
    thinning_zs_post(&mut im, 0, 0, 2, 3, 3);
    assert_eq!(im, vec![0, 1, 4, 0, 0, 1, 0, 1, 9]);
}

#[test]
fn post_pass_is_idempotent() {
    let mut im = vec![7u8, 5, 4, 3, 2, 1, 0xff, 0xfd, 9];
    thinning_zs_post(&mut im, 0, 0, 3, 3, 3);
    let once = im.clone();
    thinning_zs_post(&mut im, 0, 0, 3, 3, 3);
    assert_eq!(im, once);
    assert_eq!(once, vec![0, 1, 0, 0, 0, 1, 0, 1, 1]);
}

#[test]
fn block_thins_to_its_centre() {
    let mut a = image(&BLOCK);
    thinning_zs(&mut a, 5, 5);
    let mut expected = vec![0u8; 25];
    expected[12] = 1;
    assert_eq!(a, expected);
    let mut b = image(&BLOCK);
    thinning_zs_tiled(&mut b, 5, 5, 3, 3);
    assert_eq!(b, expected);
}

#[test]
fn single_pixel_survives() {
    let mut im = image(&["...", ".#.", "..."]);
    thinning_zs_tiled(&mut im, 3, 3, 3, 3);
    assert_eq!(im, vec![0, 0, 0, 0, 1, 0, 0, 0, 0]);
}

#[test]
fn thin_line_is_unchanged() {
    let line = image(&[".......", ".#####.", "......."]);
    let mut a = line.clone();
    thinning_zs_tiled(&mut a, 7, 3, 4, 4);
    assert_eq!(a, line);
    let mut b = line.clone();
    thinning_zs(&mut b, 7, 3);
    assert_eq!(b, line);
}

#[test]
fn solid_square_thins_to_one_pixel() {
    let mut im = vec![0u8; 81];
    for y in 2..7 {
        for x in 2..7 {
            im[y * 9 + x] = 1;
        }
    }
    let mut expected = vec![0u8; 81];
    expected[4 * 9 + 4] = 1;
    let mut a = im.clone();
    thinning_zs_tiled(&mut a, 9, 9, 4, 4);
    assert_eq!(a, expected);
    let mut b = im.clone();
    thinning_zs(&mut b, 9, 9);
    assert_eq!(b, expected);
}

#[test]
fn thin_l_shape_is_unchanged() {
    let shape = image(&[
        ".......", ".#####.", ".#.....", ".#.....", ".#.....", ".#.....", ".......",
    ]);
    let mut a = shape.clone();
    thinning_zs_tiled(&mut a, 7, 7, 4, 4);
    assert_eq!(a, shape);
}

#[test]
fn two_by_two_square_vanishes() {
    let mut im = image(&["....", ".##.", ".##.", "...."]);
    thinning_zs_tiled(&mut im, 4, 4, 4, 4);
    assert_eq!(im, vec![0u8; 16]);
}

#[test]
fn diagonal_stroke_across_tiles_matches_single_window() {
    let w = 512usize;
    let mut im = vec![0u8; w * w];
    for i in 2..510usize {
        for j in (i - 1)..=(i + 1) {
            im[i * w + j] = 1;
        }
    }
    let mut tiled = im.clone();
    thinning_zs_tiled(&mut tiled, w, w, 256, 256);
    let mut plain = im.clone();
    thinning_zs(&mut plain, w, w);
    assert_eq!(tiled, plain);
    let mut expected = vec![0u8; w * w];
    for i in 2..510usize {
        expected[i * w + i] = 1;
    }
    assert_eq!(tiled, expected);
}

#[test]
fn output_is_binary_for_binary_input() {
    let mut im = image(&[
        "........", ".###..#.", ".####.#.", ".#.###..", ".######.", ".######.", ".######.",
        ".#.####.", "..#####.", "........",
    ]);
    let before = im.clone();
    thinning_zs_tiled(&mut im, 8, 10, 3, 3);
    assert!(im.iter().all(|b| *b <= 1));
    assert!(im.iter().zip(before.iter()).all(|(a, b)| a <= b));
}

#[test]
fn tiles_may_end_on_another_skeleton_than_one_window() {
    let im = image(&[".......", "..##.#.", "...##..", "......."]);
    let mut plain = im.clone();
    thinning_zs(&mut plain, 7, 4);
    assert_eq!(plain, image(&[".......", ".....#.", "...##..", "......."]));
    let mut tiled = im.clone();
    thinning_zs_tiled(&mut tiled, 7, 4, 3, 4);
    assert_eq!(tiled, image(&[".......", "...#.#.", "...##..", "......."]));
    thinning_zs_tiled(&mut tiled, 7, 4, 3, 4);
    assert_eq!(tiled, plain);
}

#[test]
fn one_tile_is_one_window() {
    let im = image(&[".......", "..##.#.", "...##..", "......."]);
    let mut plain = im.clone();
    thinning_zs(&mut plain, 7, 4);
    let mut tiled = im.clone();
    thinning_zs_tiled(&mut tiled, 7, 4, 7, 4);
    assert_eq!(tiled, plain);
    let mut larger = im.clone();
    thinning_zs_tiled(&mut larger, 7, 4, 100, 9);
    assert_eq!(larger, plain);
}

#[test]
fn settled_image_is_a_fixed_point() {
    let mut im = image(&[".......", ".....#.", "...##..", "......."]);
    let before = im.clone();
    assert!(!thinning_zs_iteration(&mut im, 0, 0, 7, 4, 7, 4, 0));
    thinning_zs_tiled(&mut im, 7, 4, 3, 3);
    assert_eq!(im, before);
}

#[test]
fn stray_bits_outlast_tiles_but_not_one_window() {
    let mut a = vec![0u8, 0, 0, 0, 4, 0, 0, 0, 0];
    thinning_zs_tiled(&mut a, 3, 3, 3, 3);
    assert_eq!(a, vec![0, 0, 0, 0, 4, 0, 0, 0, 0]);
    let mut b = vec![0u8, 0, 0, 0, 4, 0, 0, 0, 0];
    thinning_zs(&mut b, 3, 3);
    assert_eq!(b, vec![0u8; 9]);
}

#[test]
fn border_pixels_keep_their_ink() {
    let mut im = vec![1u8; 25];
    thinning_zs_tiled(&mut im, 5, 5, 2, 2);
    for i in 0..5usize {
        assert_eq!(im[i], 1);
        assert_eq!(im[20 + i], 1);
        assert_eq!(im[i * 5], 1);
        assert_eq!(im[i * 5 + 4], 1);
    }
}
