use raster_skeleton::chunk::chunk_to_frags;
use raster_skeleton::fragment::{copy_line, dist_of, join_lines};
use raster_skeleton::merge::{merge_frags, merge_impl, HORIZONTAL, VERTICAL};
use raster_skeleton::tiled::thinning_zs_tiled;
use raster_skeleton::trace::{not_empty, trace_skeleton};

type Frags = Vec<Vec<[usize; 2]>>;

fn image(rows: &[&str]) -> Vec<u8> {
    let mut im = Vec::new();
    for row in rows {
        for c in row.chars() {
            im.push(if c == '#' { 1u8 } else { 0u8 });
        }
    }
    im
}

#[test]
fn distance_is_symmetric() {
    assert_eq!(dist_of(3, 10), 7);
    assert_eq!(dist_of(10, 3), 7);
    assert_eq!(dist_of(4, 4), 0);
    assert_eq!(dist_of(0, usize::MAX), usize::MAX);
}

#[test]
fn fragments_copy_and_join() {
    let f = vec![[1usize, 2], [3, 4], [5, 6]];
    assert_eq!(copy_line(&f, false), f);
    assert_eq!(copy_line(&f, true), vec![[5, 6], [3, 4], [1, 2]]);
    let g = vec![[7usize, 8]];
    assert_eq!(join_lines(&f, &g), vec![[1, 2], [3, 4], [5, 6], [7, 8]]);
    assert_eq!(join_lines(&g, &f), vec![[7, 8], [1, 2], [3, 4], [5, 6]]);
}

#[test]
fn region_scan_finds_ink() {
    let im = image(&["....", "..#.", "....", "...."]);
    assert!(not_empty(&im, 4, 4, 0, 0, 4, 4));
    assert!(not_empty(&im, 4, 4, 2, 1, 1, 1));
    assert!(!not_empty(&im, 4, 4, 0, 0, 2, 4));
    assert!(!not_empty(&im, 4, 4, 0, 2, 4, 2));
    assert!(!not_empty(&im, 4, 4, 2, 1, 0, 1));
    assert!(!not_empty(&im, 4, 4, 3, 0, 1, 4));
}

#[test]
fn region_scan_counts_any_non_zero_byte() {
    let im = vec![0u8, 0, 0, 2];
    assert!(not_empty(&im, 2, 2, 0, 0, 2, 2));
    assert!(!not_empty(&im, 2, 2, 0, 0, 2, 1));
}

#[test]
fn mode_one_appends() {
    let mut c0: Frags = vec![vec![[0, 5], [9, 5]]];
    let mut c1: Frags = vec![vec![[10, 6], [15, 6]]];
    assert!(merge_impl(&mut c0, &mut c1, 0, 10, false, 1));
    assert_eq!(c0, vec![vec![[0, 5], [9, 5], [10, 6], [15, 6]]]);
    assert!(c1.is_empty());
}

#[test]
fn mode_three_reverses_then_appends() {
    let mut c0: Frags = vec![vec![[0, 5], [9, 5]]];
    let mut c1: Frags = vec![vec![[15, 6], [10, 6]]];
    assert!(merge_impl(&mut c0, &mut c1, 0, 10, false, 3));
    assert_eq!(c0, vec![vec![[0, 5], [9, 5], [10, 6], [15, 6]]]);
    assert!(c1.is_empty());
}

#[test]
fn mode_zero_prepends() {
    let mut c0: Frags = vec![vec![[9, 5], [0, 5]]];
    let mut c1: Frags = vec![vec![[10, 6], [15, 6]]];
    assert!(merge_impl(&mut c0, &mut c1, 0, 10, false, 0));
    assert_eq!(c0, vec![vec![[10, 6], [15, 6], [9, 5], [0, 5]]]);
    assert!(c1.is_empty());
}

#[test]
fn mode_two_reverses_then_prepends() {
    let mut c0: Frags = vec![vec![[9, 5], [0, 5]]];
    let mut c1: Frags = vec![vec![[15, 6], [10, 6]]];
    assert!(merge_impl(&mut c0, &mut c1, 0, 10, false, 2));
    assert_eq!(c0, vec![vec![[10, 6], [15, 6], [9, 5], [0, 5]]]);
    assert!(c1.is_empty());
}

#[test]
fn wrong_end_does_not_match() {
    let mut c0: Frags = vec![vec![[0, 5], [9, 5]]];
    let mut c1: Frags = vec![vec![[15, 6], [10, 6]]];
    assert!(!merge_impl(&mut c0, &mut c1, 0, 10, false, 1));
    assert!(!merge_impl(&mut c0, &mut c1, 0, 10, false, 0));
    assert_eq!(c0, vec![vec![[0, 5], [9, 5]]]);
    assert_eq!(c1, vec![vec![[15, 6], [10, 6]]]);
}

#[test]
fn four_pixels_apart_is_too_far() {
    let mut c0: Frags = vec![vec![[0, 5], [9, 5]]];
    let mut c1: Frags = vec![vec![[10, 9], [15, 6]]];
    assert!(!merge_impl(&mut c0, &mut c1, 0, 10, false, 1));
    let mut c1: Frags = vec![vec![[10, 8], [15, 6]]];
    assert!(merge_impl(&mut c0, &mut c1, 0, 10, false, 1));
    assert_eq!(c0, vec![vec![[0, 5], [9, 5], [10, 8], [15, 6]]]);
}

#[test]
fn end_must_lie_on_the_seam() {
    let mut c0: Frags = vec![vec![[0, 5], [9, 5]]];
    let mut c1: Frags = vec![vec![[11, 5], [15, 6]]];
    assert!(!merge_impl(&mut c0, &mut c1, 0, 10, false, 1));
    assert_eq!(c1.len(), 1);
}

#[test]
fn partner_must_lie_within_one_pixel_of_the_seam() {
    let mut c0: Frags = vec![vec![[0, 5], [8, 5]]];
    let mut c1: Frags = vec![vec![[10, 5], [15, 6]]];
    assert!(!merge_impl(&mut c0, &mut c1, 0, 10, false, 1));
    let mut c0: Frags = vec![vec![[0, 5], [11, 5]]];
    assert!(merge_impl(&mut c0, &mut c1, 0, 10, false, 1));
    assert_eq!(c0, vec![vec![[0, 5], [11, 5], [10, 5], [15, 6]]]);
}

#[test]
fn nearest_partner_wins_and_the_first_of_equals() {
    let mut c0: Frags = vec![
        vec![[0, 2], [9, 2]],
        vec![[0, 8], [9, 8]],
        vec![[0, 6], [9, 6]],
        vec![[0, 4], [9, 4]],
    ];
    let mut c1: Frags = vec![vec![[10, 5], [15, 5]]];
    assert!(merge_impl(&mut c0, &mut c1, 0, 10, false, 1));
    assert_eq!(
        c0,
        vec![
            vec![[0, 2], [9, 2]],
            vec![[0, 8], [9, 8]],
            vec![[0, 6], [9, 6], [10, 5], [15, 5]],
            vec![[0, 4], [9, 4]],
        ]
    );
}

#[test]
fn row_seam_matches_by_y() {
    let mut c0: Frags = vec![vec![[5, 0], [5, 9]]];
    let mut c1: Frags = vec![vec![[7, 10], [7, 15]]];
    assert!(merge_impl(&mut c0, &mut c1, 0, 10, true, 1));
    assert_eq!(c0, vec![vec![[5, 0], [5, 9], [7, 10], [7, 15]]]);
}

#[test]
fn merging_joins_what_meets_and_keeps_the_rest() {
    let mut c0: Frags = vec![vec![[0, 5], [9, 5]]];
    let mut c1: Frags = vec![
        vec![[10, 5], [15, 5]],
        vec![[3, 3], [4, 4]],
        vec![[15, 7], [10, 7]],
    ];
    merge_frags(&mut c0, &mut c1, 10, HORIZONTAL);
    assert_eq!(
        c0,
        vec![
            vec![[0, 5], [9, 5], [10, 7], [15, 7]],
            vec![[10, 5], [15, 5]],
            vec![[3, 3], [4, 4]],
        ]
    );
    assert!(c1.is_empty());
}

#[test]
fn merging_into_nothing_moves_everything() {
    let mut c0: Frags = Vec::new();
    let mut c1: Frags = vec![vec![[10, 5], [15, 5]]];
    merge_frags(&mut c0, &mut c1, 10, HORIZONTAL);
    assert_eq!(c0, vec![vec![[10, 5], [15, 5]]]);
    assert!(c1.is_empty());
}

#[test]
fn merging_nothing_changes_nothing() {
    let mut c0: Frags = vec![vec![[0, 5], [9, 5]]];
    let mut c1: Frags = Vec::new();
    merge_frags(&mut c0, &mut c1, 10, VERTICAL);
    assert_eq!(c0, vec![vec![[0, 5], [9, 5]]]);
}

#[test]
fn direction_decides_the_axis() {
    let mut c0: Frags = vec![vec![[0, 5], [9, 5]]];
    let mut c1: Frags = vec![vec![[10, 5], [15, 5]]];
    merge_frags(&mut c0, &mut c1, 10, VERTICAL);
    assert_eq!(c0, vec![vec![[0, 5], [9, 5]], vec![[10, 5], [15, 5]]]);
    let mut c0: Frags = vec![vec![[5, 0], [5, 9]]];
    let mut c1: Frags = vec![vec![[5, 10], [5, 15]]];
    merge_frags(&mut c0, &mut c1, 10, VERTICAL);
    assert_eq!(c0, vec![vec![[5, 0], [5, 9], [5, 10], [5, 15]]]);
}

#[test]
fn unknown_direction_joins_nothing() {
    let mut c0: Frags = vec![vec![[0, 5], [9, 5]]];
    let mut c1: Frags = vec![vec![[10, 5], [15, 5]]];
    merge_frags(&mut c0, &mut c1, 10, 0);
    assert_eq!(c0, vec![vec![[0, 5], [9, 5]], vec![[10, 5], [15, 5]]]);
    assert!(c1.is_empty());
}

#[test]
fn stroke_through_a_chunk_is_one_fragment() {
    let im = image(&[".....", ".....", "#####", ".....", "....."]);
    assert_eq!(chunk_to_frags(&im, 5, 5, 0, 0, 5, 5), vec![vec![[4, 2], [0, 2]]]);
}

#[test]
fn stroke_round_a_corner_is_one_fragment() {
    let im = image(&["..#..", "..#..", "###..", ".....", "....."]);
    assert_eq!(chunk_to_frags(&im, 5, 5, 0, 0, 5, 5), vec![vec![[2, 0], [0, 2]]]);
}

#[test]
fn crossing_meets_in_the_brightest_spot() {
    let im = image(&["..#..", "..#..", "#####", "..#..", "..#.."]);
    assert_eq!(
        chunk_to_frags(&im, 5, 5, 0, 0, 5, 5),
        vec![
            vec![[2, 0], [2, 2]],
            vec![[4, 2], [2, 2]],
            vec![[2, 4], [2, 2]],
            vec![[0, 2], [2, 2]],
        ]
    );
}

#[test]
fn stroke_that_ends_inside_runs_to_the_centre() {
    let im = image(&["#....", ".#...", "..#..", ".....", "....."]);
    assert_eq!(chunk_to_frags(&im, 5, 5, 0, 0, 5, 5), vec![vec![[0, 0], [2, 2]]]);
}

#[test]
fn chunk_inside_a_larger_image() {
    let im = image(&[".....", "..#..", ".###.", "..#..", "....."]);
    assert!(chunk_to_frags(&im, 5, 5, 0, 0, 5, 5).is_empty());
    assert_eq!(
        chunk_to_frags(&im, 5, 5, 1, 1, 3, 3),
        vec![
            vec![[2, 1], [2, 2]],
            vec![[3, 2], [2, 2]],
            vec![[2, 3], [2, 2]],
            vec![[1, 2], [2, 2]],
        ]
    );
}

#[test]
fn narrow_chunk_has_no_fragments() {
    let im = vec![1u8; 25];
    assert!(chunk_to_frags(&im, 5, 5, 0, 0, 2, 5).is_empty());
    assert!(chunk_to_frags(&im, 5, 5, 0, 0, 5, 2).is_empty());
    assert!(chunk_to_frags(&im, 5, 5, 0, 0, 0, 0).is_empty());
    assert!(chunk_to_frags(&im, 5, 5, 1, 1, 1, 1).is_empty());
}

#[test]
fn chunk_fragments_have_two_points() {
    let im = image(&["#.#.#", ".....", "#.#.#", ".....", "#.#.#"]);
    let frags = chunk_to_frags(&im, 5, 5, 0, 0, 5, 5);
    assert_eq!(frags.len(), 8);
    assert!(frags.iter().all(|f| f.len() == 2));
}

#[test]
fn isolated_pixel_gives_no_fragment() {
    let mut im = image(&["...", ".#.", "..."]);
    thinning_zs_tiled(&mut im, 3, 3, 3, 3);
    assert!(trace_skeleton(&im, 3, 3, 0, 0, 3, 3, 3, 999).is_empty());
}

#[test]
fn line_off_the_border_gives_no_fragment() {
    let mut im = image(&[".......", ".#####.", "......."]);
    thinning_zs_tiled(&mut im, 7, 3, 4, 4);
    assert!(trace_skeleton(&im, 7, 3, 0, 0, 7, 3, 10, 999).is_empty());
}

#[test]
fn line_from_border_to_border_in_one_leaf() {
    let im = image(&[".......", "#######", "......."]);
    assert_eq!(
        trace_skeleton(&im, 7, 3, 0, 0, 7, 3, 10, 999),
        vec![vec![[6, 1], [0, 1]]]
    );
}

#[test]
fn l_shape_is_traced_as_one_fragment() {
    let mut im = image(&[
        ".......", ".#####.", ".#.....", ".#.....", ".#.....", ".#.....", ".......",
    ]);
    thinning_zs_tiled(&mut im, 7, 7, 4, 4);
    assert_eq!(
        trace_skeleton(&im, 7, 7, 0, 0, 7, 7, 3, 999),
        vec![vec![[3, 1], [5, 1], [2, 1], [1, 2], [1, 3], [1, 5]]]
    );
}

#[test]
fn bent_stroke_is_followed_across_seams() {
    let im = image(&[
        "..#.....", "..#.....", "..###...", "....#...", "....####", "........",
    ]);
    assert_eq!(
        trace_skeleton(&im, 8, 6, 0, 0, 8, 6, 3, 999),
        vec![vec![[2, 0], [3, 2], [4, 3], [7, 4]]]
    );
    assert_eq!(
        trace_skeleton(&im, 8, 6, 0, 0, 8, 6, 10, 999),
        vec![vec![[2, 0], [7, 4]]]
    );
}

#[test]
fn parallel_lines_stay_apart_along_their_length() {
    let mut rows = vec!["............"; 12];
    rows[4] = "############";
    rows[6] = "############";
    let im = image(&rows);
    let frags = trace_skeleton(&im, 12, 12, 0, 0, 12, 12, 3, 999);
    assert_eq!(
        frags,
        vec![
            vec![[6, 4], [9, 5], [5, 4], [3, 5]],
            vec![[6, 6], [9, 5], [5, 6], [3, 5]],
            vec![[0, 6], [3, 5]],
            vec![[0, 4], [3, 5]],
            vec![[11, 4], [9, 5]],
            vec![[11, 6], [9, 5]],
        ]
    );
}

#[test]
fn depth_bound_cuts_the_trace_short() {
    let mut rows = vec!["................"; 8];
    rows[3] = "################";
    let im = image(&rows);
    assert_eq!(
        trace_skeleton(&im, 16, 8, 0, 0, 16, 8, 4, 999),
        vec![
            vec![[4, 3], [7, 3], [3, 3], [0, 3]],
            vec![[12, 3], [15, 3], [11, 3], [8, 3]],
        ]
    );
    assert!(trace_skeleton(&im, 16, 8, 0, 0, 16, 8, 4, 0).is_empty());
    assert!(trace_skeleton(&im, 16, 8, 0, 0, 16, 8, 4, 1).is_empty());
    assert!(trace_skeleton(&im, 16, 8, 0, 0, 16, 8, 4, 2).is_empty());
}

#[test]
fn blank_region_gives_no_fragment() {
    let im = vec![0u8; 400];
    assert!(trace_skeleton(&im, 20, 20, 0, 0, 20, 20, 3, 999).is_empty());
    let mut im = vec![0u8; 400];
    im[0] = 1;
    assert!(trace_skeleton(&im, 20, 20, 5, 5, 15, 15, 3, 999).is_empty());
}

#[test]
fn traced_fragments_have_at_least_two_points() {
    let im = image(&[
        "..#.....", "..#.....", "..###...", "....#...", "....####", "........",
    ]);
    let frags = trace_skeleton(&im, 8, 6, 0, 0, 8, 6, 3, 999);
    assert!(!frags.is_empty());
    assert!(frags.iter().all(|f| f.len() >= 2));
}
