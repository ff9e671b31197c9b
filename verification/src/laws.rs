//! Laws that relate several functions of the library.

use vstd::prelude::*;
use crate::pixel::{all_binary, is_binary, lemma_codec};
use crate::thin::{ink_count, lemma_quiet_window, thin_whole, whole};
use crate::tiled::{
    all_flagged, grid, lemma_mark_pass, mark_pass, round_changes, thin_tiled, tiled_run, Grid,
};
use crate::window::{candidate, commit_window, lemma_index_pixel, window_changes, Rect};

verus! {

/// Applying the markers of a window twice gives what applying them once
/// gives.
pub proof fn law_commit_idempotent(im: Seq<u8>, win: Rect, w: int)
    ensures
        commit_window(commit_window(im, win, w), win, w) == commit_window(im, win, w),
{
    let once = commit_window(im, win, w);
    let twice = commit_window(once, win, w);
    assert forall|k: int| 0 <= k < im.len() implies #[trigger] twice[k] == once[k] by {
        lemma_codec(im[k]);
    }
    assert(twice =~= once);
}

/// Applying the markers of a window leaves every byte of the window 0 or 1.
pub proof fn law_commit_is_binary(im: Seq<u8>, win: Rect, w: int, k: int)
    requires
        0 <= k < im.len(),
        win.contains(k / w, k % w),
    ensures
        is_binary(commit_window(im, win, w)[k]),
{
    lemma_codec(im[k]);
}

/// Thinning with a single window leaves every byte 0 or 1, whatever the
/// image held before.
pub proof fn law_thin_whole_is_binary(im: Seq<u8>, w: int, h: int)
    requires
        0 <= w,
        0 <= h,
        im.len() == w * h,
    ensures
        all_binary(thin_whole(im, w, h)),
        thin_whole(im, w, h).len() == im.len(),
    decreases ink_count(im),
{
    let all = whole(w, h);
    lemma_commit_whole_is_binary(im, w, h);
    if window_changes(im, all, w, h, 0) {
        let a = commit_window(crate::window::mark_window(im, all, w, h, 0), all, w);
        let n = crate::window::mark_window(a, all, w, h, 1);
        lemma_commit_whole_is_binary(n, w, h);
        if window_changes(a, all, w, h, 1) {
            crate::thin::lemma_step_shrinks(im, w, h, 0);
            crate::thin::lemma_step_shrinks(a, w, h, 1);
            law_thin_whole_is_binary(commit_window(n, all, w), w, h);
        }
    }
}

/// An image in which sub-iteration 0 finds no new pixel to mark is left as
/// it is by tiled thinning, whatever the size of the tiles.
pub proof fn law_settled_image_is_fixed(im: Seq<u8>, w: int, h: int, tw: int, th: int)
    requires
        0 <= w,
        0 <= h,
        0 < tw,
        0 < th,
        !window_changes(im, whole(w, h), w, h, 0),
    ensures
        thin_tiled(im, w, h, tw, th) == im,
{
    let g = grid(w, h, tw, th);
    let flags = all_flagged(g);
    crate::tiled::lemma_pieces(w, tw);
    crate::tiled::lemma_pieces(h, th);
    assert(0 <= g.cols() * g.rows()) by (nonlinear_arith)
        requires
            0 <= g.cols(),
            0 <= g.rows(),
    ;
    lemma_no_tile_changes(im, flags, g, g.tiles() as nat);
}

/// Where the whole image offers sub-iteration `sub` nothing new to mark, no
/// tile does, so that a marking pass changes nothing.
proof fn lemma_no_tile_changes(im: Seq<u8>, flags: Seq<bool>, g: Grid, n: nat)
    requires
        !window_changes(im, whole(g.w, g.h), g.w, g.h, 0),
    ensures
        mark_pass(im, flags, g, 0, n).im == im,
        !mark_pass(im, flags, g, 0, n).diff,
    decreases n,
{
    if n > 0 {
        lemma_no_tile_changes(im, flags, g, (n - 1) as nat);
        let win = g.window(n - 1);
        if window_changes(im, win, g.w, g.h, 0) {
            let k = choose|k: int|
                0 <= k < im.len() && #[trigger] candidate(im, win, g.w, g.h, 0, k)
                    && crate::pixel::marker(im[k]) == 0;
            assert(candidate(im, whole(g.w, g.h), g.w, g.h, 0, k));
        }
        lemma_quiet_window(im, win, g.w, g.h, 0);
    }
}

/// On the border of a chunk without ink the walk finds no fragment.
proof fn lemma_blank_walk(im: Seq<u8>, ww: int, r: Rect, n: nat)
    requires
        !crate::trace::has_ink(im, ww, r),
        r.w >= 3,
        r.h >= 3,
        n <= crate::chunk::perimeter(r),
    ensures
        crate::chunk::walk(im, ww, r, n).lines.len() == 0,
        !crate::chunk::walk(im, ww, r, n).on,
    decreases n,
{
    if n > 0 {
        lemma_blank_walk(im, ww, r, (n - 1) as nat);
        crate::chunk::lemma_boundary(r, n - 1);
        let here = crate::chunk::boundary(r, n - 1);
        assert(r.contains(here.0, here.1));
        assert(crate::window::px(im, ww, here.0, here.1) == 0);
    }
}

/// A chunk that holds no ink has no fragments.
pub proof fn law_blank_chunk_has_no_fragments(
    im: Seq<u8>,
    ww: int,
    hh: int,
    r: Rect,
    cs: int,
    depth: nat,
)
    requires
        !crate::trace::has_ink(im, ww, r),
    ensures
        crate::trace::trace(im, ww, hh, r, cs, depth).len() == 0,
{
    let none = crate::trace::Seam { score: ww + hh, row: None, col: None };
    if r.w >= 3 && r.h >= 3 {
        lemma_blank_walk(im, ww, r, crate::chunk::perimeter(r) as nat);
    }
    let rows = if r.h > cs {
        crate::trace::scan_rows(im, ww, r, none, crate::trace::seam_range(r.h))
    } else {
        none
    };
    if r.h > cs {
        crate::trace::lemma_scan_rows(im, ww, r, none, crate::trace::seam_range(r.h));
    }
    if r.w > cs {
        crate::trace::lemma_scan_cols(im, ww, r, rows, crate::trace::seam_range(r.w));
    }
    let s = crate::trace::best_seam(im, ww, hh, r, cs);
    match (s.row, s.col) {
        (Some(i), _) => {
            lemma_part_is_blank(im, ww, r, crate::trace::above(r, i));
            lemma_part_is_blank(im, ww, r, crate::trace::below(r, i));
            crate::trace::lemma_merged_empty(Seq::empty(), i, crate::merge::VERTICAL);
        },
        (None, Some(j)) => {
            lemma_part_is_blank(im, ww, r, crate::trace::left_of(r, j));
            lemma_part_is_blank(im, ww, r, crate::trace::right_of(r, j));
            crate::trace::lemma_merged_empty(Seq::empty(), j, crate::merge::HORIZONTAL);
        },
        (None, None) => {},
    }
}

/// A part of a chunk without ink holds no ink.
proof fn lemma_part_is_blank(im: Seq<u8>, ww: int, r: Rect, part: Rect)
    requires
        !crate::trace::has_ink(im, ww, r),
        forall|i: int, j: int| part.contains(i, j) ==> r.contains(i, j),
    ensures
        !crate::trace::has_ink(im, ww, part),
{
    if crate::trace::has_ink(im, ww, part) {
        let (i, j) = choose|i: int, j: int|
            part.contains(i, j) && #[trigger] crate::window::px(im, ww, i, j) != 0;
        assert(r.contains(i, j));
    }
}

/// Applying markers to an image whose bytes are all 0 or 1 changes nothing.
proof fn lemma_commit_binary(im: Seq<u8>, win: Rect, w: int)
    requires
        all_binary(im),
    ensures
        commit_window(im, win, w) == im,
{
    assert forall|k: int| 0 <= k < im.len() implies #[trigger] commit_window(im, win, w)[k]
        == im[k] by {
        assert(is_binary(im[k]));
        lemma_codec(im[k]);
    }
    assert(commit_window(im, win, w) =~= im);
}

/// A run over a grid of one tile, with the flag of the tile set, does what
/// thinning with a single window does.
proof fn lemma_single_tile_run(im: Seq<u8>, g: Grid)
    requires
        0 < g.w <= g.tw,
        0 < g.h <= g.th,
        im.len() == g.w * g.h,
        all_binary(im),
    ensures
        tiled_run(im, seq![true], g) == thin_whole(im, g.w, g.h),
    decreases ink_count(im),
{
    let w = g.w;
    let h = g.h;
    let all = whole(w, h);
    let flags = seq![true];
    crate::tiled::lemma_pieces(w, g.tw);
    crate::tiled::lemma_pieces(h, g.th);
    assert(g.cols() == 1 && g.rows() == 1) by {
        assert((g.cols() - 1) * g.tw < w && (g.rows() - 1) * g.th < h);
        assert(g.cols() <= 1) by (nonlinear_arith)
            requires
                (g.cols() - 1) * g.tw < w,
                0 < w <= g.tw,
        ;
        assert(g.rows() <= 1) by (nonlinear_arith)
            requires
                (g.rows() - 1) * g.th < h,
                0 < h <= g.th,
        ;
        assert(g.cols() * g.tw >= w && g.rows() * g.th >= h);
    }
    assert(g.tiles() == 1);
    assert(g.window(0) == all);
    reveal_with_fuel(mark_pass, 2);
    reveal_with_fuel(crate::tiled::commit_pass, 2);
    assert(!crate::tiled::quiet(flags, g, 0));
    lemma_commit_binary(im, all, w);
    if window_changes(im, all, w, h, 0) {
        let m = crate::window::mark_window(im, all, w, h, 0);
        let a = commit_window(m, all, w);
        assert(flags.update(0, true) =~= flags);
        assert(crate::tiled::round_image(im, flags, g, 0) == a);
        assert(crate::tiled::round_flags(im, flags, g, 0) == flags);
        crate::tiled::lemma_round(im, flags, g, 0);
        lemma_commit_binary(a, all, w);
        if window_changes(a, all, w, h, 1) {
            let b = commit_window(crate::window::mark_window(a, all, w, h, 1), all, w);
            assert(crate::tiled::round_image(a, flags, g, 1) == b);
            assert(crate::tiled::round_flags(a, flags, g, 1) == flags);
            crate::tiled::lemma_round(a, flags, g, 1);
            crate::thin::lemma_ink_monotone(a, b);
            lemma_single_tile_run(b, g);
        } else {
            lemma_quiet_window(a, all, w, h, 1);
        }
    }
}

/// Where one tile covers the whole image, tiled thinning of an image whose
/// bytes are all 0 or 1 gives what thinning with a single window gives.
pub proof fn law_single_tile_is_whole(im: Seq<u8>, w: int, h: int, tw: int, th: int)
    requires
        0 < w <= tw,
        0 < h <= th,
        im.len() == w * h,
        all_binary(im),
    ensures
        thin_tiled(im, w, h, tw, th) == thin_whole(im, w, h),
{
    let g = grid(w, h, tw, th);
    crate::tiled::lemma_pieces(w, tw);
    crate::tiled::lemma_pieces(h, th);
    assert(g.cols() <= 1) by (nonlinear_arith)
        requires
            (g.cols() - 1) * tw < w,
            0 < w <= tw,
    ;
    assert(g.rows() <= 1) by (nonlinear_arith)
        requires
            (g.rows() - 1) * th < h,
            0 < h <= th,
    ;
    assert(g.cols() == 1 && g.rows() == 1);
    assert(all_flagged(g) =~= seq![true]);
    lemma_single_tile_run(im, g);
}

/// Every pixel of the image lies in a tile of the grid.
pub proof fn lemma_tile_cover(g: Grid, i: int, j: int) -> (t: int)
    requires
        g.wf(),
        0 <= i < g.h,
        0 <= j < g.w,
    ensures
        0 <= t < g.tiles(),
        g.window(t).contains(i, j),
{
    let tx = j / g.tw;
    let ty = i / g.th;
    crate::window::lemma_row_col(g.tw, j);
    crate::window::lemma_row_col(g.th, i);
    crate::tiled::lemma_pieces(g.w, g.tw);
    crate::tiled::lemma_pieces(g.h, g.th);
    let cols = g.cols();
    let rows = g.rows();
    assert(tx < cols) by (nonlinear_arith)
        requires
            tx * g.tw <= j,
            j < g.w,
            g.w <= cols * g.tw,
            0 < g.tw,
    ;
    assert(ty < rows) by (nonlinear_arith)
        requires
            ty * g.th <= i,
            i < g.h,
            g.h <= rows * g.th,
            0 < g.th,
    ;
    crate::window::lemma_pixel_index(cols, rows, ty, tx);
    let t = ty * cols + tx;
    assert(cols * rows == g.tiles());
    assert(t % cols == tx && t / cols == ty);
    t
}

/// Pixel `k` is a candidate in one of the first `n` tiles.
pub open spec fn candidate_in_tiles(im: Seq<u8>, g: Grid, sub: int, n: nat, k: int) -> bool {
    exists|t: int| 0 <= t < n && #[trigger] candidate(im, g.window(t), g.w, g.h, sub, k)
}

/// One of the first `n` tiles holds a candidate without a marker.
pub open spec fn change_in_tiles(im: Seq<u8>, g: Grid, sub: int, n: nat) -> bool {
    exists|t: int| 0 <= t < n && #[trigger] window_changes(im, g.window(t), g.w, g.h, sub)
}

/// While every tile carries its flag, a marking pass skips none: after the
/// first `n` tiles exactly their candidates are marked, and a new marker is
/// reported exactly if one of them held a candidate without a marker.
proof fn lemma_full_pass(im: Seq<u8>, g: Grid, sub: int, n: nat)
    requires
        g.wf(),
        im.len() == g.w * g.h,
        n <= g.tiles(),
    ensures
        ({
            let s = mark_pass(im, all_flagged(g), g, sub, n);
            &&& s.im.len() == im.len()
            &&& forall|k: int|
                0 <= k < im.len() ==> #[trigger] s.im[k] == (if candidate_in_tiles(
                    im,
                    g,
                    sub,
                    n,
                    k,
                ) {
                    crate::pixel::marked(im[k])
                } else {
                    im[k]
                })
            &&& s.diff == change_in_tiles(im, g, sub, n)
        }),
    decreases n,
{
    let flags = all_flagged(g);
    lemma_mark_pass(im, flags, g, sub, n);
    if n > 0 {
        let p = mark_pass(im, flags, g, sub, (n - 1) as nat);
        let s = mark_pass(im, flags, g, sub, n);
        let t = n - 1;
        let win = g.window(t);
        lemma_full_pass(im, g, sub, (n - 1) as nat);
        lemma_mark_pass(im, flags, g, sub, (n - 1) as nat);
        assert(p.flags[t] == flags[t]);
        assert(!crate::tiled::quiet(p.flags, g, t));
        assert forall|k: int| 0 <= k < im.len() implies crate::pixel::foreground(
            #[trigger] p.im[k],
        ) == crate::pixel::foreground(im[k]) by {
            lemma_codec(im[k]);
        }
        assert forall|k: int| 0 <= k < im.len() implies candidate(p.im, win, g.w, g.h, sub, k)
            == candidate(im, win, g.w, g.h, sub, k) by {
            if crate::window::interior(g.w, g.h, k / g.w, k % g.w) {
                crate::window::lemma_removable_reads_ink(
                    p.im,
                    im,
                    g.w,
                    g.h,
                    k / g.w,
                    k % g.w,
                    sub,
                );
            }
        }
        assert forall|k: int| 0 <= k < im.len() implies #[trigger] s.im[k] == (
        if candidate_in_tiles(im, g, sub, n, k) {
            crate::pixel::marked(im[k])
        } else {
            im[k]
        }) by {
            lemma_codec(im[k]);
            if candidate_in_tiles(im, g, sub, (n - 1) as nat, k) {
                let u = choose|u: int|
                    0 <= u < n - 1 && #[trigger] candidate(im, g.window(u), g.w, g.h, sub, k);
                assert(candidate(im, g.window(u), g.w, g.h, sub, k));
            }
            if candidate(im, win, g.w, g.h, sub, k) {
                assert(candidate_in_tiles(im, g, sub, n, k));
            }
        }
        let d = window_changes(p.im, win, g.w, g.h, sub);
        if d {
            let k = choose|k: int|
                0 <= k < p.im.len() && #[trigger] candidate(p.im, win, g.w, g.h, sub, k)
                    && crate::pixel::marker(p.im[k]) == 0;
            lemma_codec(im[k]);
            assert(candidate(im, win, g.w, g.h, sub, k));
            assert(window_changes(im, win, g.w, g.h, sub));
        }
        if window_changes(im, win, g.w, g.h, sub) && !p.diff {
            assert(p.im == im);
        }
        if change_in_tiles(im, g, sub, (n - 1) as nat) {
            let u = choose|u: int|
                0 <= u < n - 1 && #[trigger] window_changes(im, g.window(u), g.w, g.h, sub);
            assert(window_changes(im, g.window(u), g.w, g.h, sub));
        }
        if s.diff {
            if p.diff {
                assert(change_in_tiles(im, g, sub, n));
            } else {
                assert(window_changes(im, g.window(t), g.w, g.h, sub));
            }
        }
    }
}

/// While every tile carries its flag, as at the start of a run, a marking
/// pass over the tiles does to the image what a marking pass over the whole
/// image as one window does, and reports a new marker exactly if that one
/// does.
pub proof fn law_full_pass_is_whole_window(im: Seq<u8>, w: int, h: int, tw: int, th: int, sub: int)
    requires
        0 <= w,
        0 <= h,
        0 < tw,
        0 < th,
        im.len() == w * h,
    ensures
        mark_pass(
            im,
            all_flagged(grid(w, h, tw, th)),
            grid(w, h, tw, th),
            sub,
            grid(w, h, tw, th).tiles() as nat,
        ).im == crate::window::mark_window(im, whole(w, h), w, h, sub),
        round_changes(im, all_flagged(grid(w, h, tw, th)), grid(w, h, tw, th), sub)
            == window_changes(im, whole(w, h), w, h, sub),
{
    let g = grid(w, h, tw, th);
    let all = whole(w, h);
    crate::tiled::lemma_pieces(w, tw);
    crate::tiled::lemma_pieces(h, th);
    assert(0 <= g.cols() * g.rows()) by (nonlinear_arith)
        requires
            0 <= g.cols(),
            0 <= g.rows(),
    ;
    let n = g.tiles() as nat;
    let s = mark_pass(im, all_flagged(g), g, sub, n);
    lemma_full_pass(im, g, sub, n);
    assert forall|k: int| 0 <= k < im.len() implies candidate_in_tiles(im, g, sub, n, k)
        == candidate(im, all, w, h, sub, k) by {
        lemma_index_pixel(w, h, k);
        if candidate(im, all, w, h, sub, k) {
            let t = lemma_tile_cover(g, k / w, k % w);
            assert(candidate(im, g.window(t), w, h, sub, k));
        }
    }
    assert(s.im =~= crate::window::mark_window(im, all, w, h, sub));
    if window_changes(im, all, w, h, sub) {
        let k = choose|k: int|
            0 <= k < im.len() && #[trigger] candidate(im, all, w, h, sub, k)
                && crate::pixel::marker(im[k]) == 0;
        lemma_index_pixel(w, h, k);
        let t = lemma_tile_cover(g, k / w, k % w);
        assert(candidate(im, g.window(t), w, h, sub, k));
        assert(window_changes(im, g.window(t), w, h, sub));
    }
    if change_in_tiles(im, g, sub, n) {
        let t = choose|t: int|
            0 <= t < n && #[trigger] window_changes(im, g.window(t), g.w, g.h, sub);
        let k = choose|k: int|
            0 <= k < im.len() && #[trigger] candidate(im, g.window(t), w, h, sub, k)
                && crate::pixel::marker(im[k]) == 0;
        assert(candidate(im, all, w, h, sub, k));
    }
}

/// Applying the markers over the whole image leaves every byte 0 or 1.
proof fn lemma_commit_whole_is_binary(a: Seq<u8>, w: int, h: int)
    requires
        0 <= w,
        0 <= h,
        a.len() == w * h,
    ensures
        all_binary(commit_window(a, whole(w, h), w)),
{
    let c = commit_window(a, whole(w, h), w);
    assert forall|k: int| 0 <= k < c.len() implies is_binary(#[trigger] c[k]) by {
        lemma_index_pixel(w, h, k);
        lemma_codec(a[k]);
    }
}

/// Thinning an image whose bytes are all 0 or 1 with a single window ends
/// on an image in which one of the two sub-iterations finds nothing to mark.
pub proof fn law_thin_whole_settles(im: Seq<u8>, w: int, h: int)
    requires
        0 <= w,
        0 <= h,
        im.len() == w * h,
        all_binary(im),
    ensures
        !window_changes(thin_whole(im, w, h), whole(w, h), w, h, 0) || !window_changes(
            thin_whole(im, w, h),
            whole(w, h),
            w,
            h,
            1,
        ),
    decreases ink_count(im),
{
    let all = whole(w, h);
    lemma_commit_binary(im, all, w);
    if window_changes(im, all, w, h, 0) {
        let m = crate::window::mark_window(im, all, w, h, 0);
        let a = commit_window(m, all, w);
        lemma_commit_whole_is_binary(m, w, h);
        lemma_commit_binary(a, all, w);
        let n = crate::window::mark_window(a, all, w, h, 1);
        let b = commit_window(n, all, w);
        if window_changes(a, all, w, h, 1) {
            lemma_commit_whole_is_binary(n, w, h);
            crate::thin::lemma_step_shrinks(im, w, h, 0);
            crate::thin::lemma_step_shrinks(a, w, h, 1);
            law_thin_whole_settles(b, w, h);
        } else {
            lemma_quiet_window(a, all, w, h, 1);
        }
    }
}

/// Marking and applying leaves a pixel on the border of a binary image as
/// it is.
proof fn lemma_round_keeps_border(im: Seq<u8>, flags: Seq<bool>, g: Grid, sub: int, k: int)
    requires
        flags.len() == g.tiles(),
        all_binary(im),
        0 <= k < im.len(),
        !crate::window::interior(g.w, g.h, k / g.w, k % g.w),
    ensures
        crate::tiled::round_image(im, flags, g, sub)[k] == im[k],
{
    let n = g.tiles() as nat;
    let m = mark_pass(im, flags, g, sub, n);
    lemma_mark_pass(im, flags, g, sub, n);
    crate::tiled::lemma_commit_pass(m.im, m.flags, g, n);
    assert(m.im[k] == im[k]);
    assert(is_binary(im[k]));
    lemma_codec(im[k]);
}

/// A tiled run leaves a pixel on the border of a binary image as it is.
proof fn lemma_run_keeps_border(im: Seq<u8>, flags: Seq<bool>, g: Grid, k: int)
    requires
        flags.len() == g.tiles(),
        all_binary(im),
        0 <= k < im.len(),
        !crate::window::interior(g.w, g.h, k / g.w, k % g.w),
    ensures
        tiled_run(im, flags, g)[k] == im[k],
    decreases ink_count(im),
{
    if round_changes(im, flags, g, 0) {
        let a = crate::tiled::round_image(im, flags, g, 0);
        let fa = crate::tiled::round_flags(im, flags, g, 0);
        crate::tiled::lemma_round(im, flags, g, 0);
        crate::tiled::lemma_round(a, fa, g, 1);
        lemma_round_keeps_border(im, flags, g, 0, k);
        if round_changes(a, fa, g, 1) {
            let b = crate::tiled::round_image(a, fa, g, 1);
            let fb = crate::tiled::round_flags(a, fa, g, 1);
            lemma_round_keeps_border(a, fa, g, 1, k);
            crate::thin::lemma_ink_monotone(a, b);
            lemma_run_keeps_border(b, fb, g, k);
        }
    }
}

/// Tiled thinning of an image whose bytes are all 0 or 1 never changes a
/// pixel on the one-pixel border of the image.
pub proof fn law_border_is_kept(im: Seq<u8>, w: int, h: int, tw: int, th: int, k: int)
    requires
        0 <= w,
        0 <= h,
        0 < tw,
        0 < th,
        all_binary(im),
        0 <= k < im.len(),
        !crate::window::interior(w, h, k / w, k % w),
    ensures
        thin_tiled(im, w, h, tw, th)[k] == im[k],
{
    let g = grid(w, h, tw, th);
    crate::tiled::lemma_pieces(w, tw);
    crate::tiled::lemma_pieces(h, th);
    assert(0 <= g.cols() * g.rows()) by (nonlinear_arith)
        requires
            0 <= g.cols(),
            0 <= g.rows(),
    ;
    lemma_run_keeps_border(im, all_flagged(g), g, k);
}

/// The images that tiled thinning leaves as they are, are exactly those in
/// which sub-iteration 0 finds no new pixel to mark. In particular a second
/// run changes the outcome of a first one exactly if the first one ended on
/// an image in which sub-iteration 0 finds something to mark.
pub proof fn law_fixed_points(im: Seq<u8>, w: int, h: int, tw: int, th: int)
    requires
        0 <= w,
        0 <= h,
        0 < tw,
        0 < th,
        im.len() == w * h,
    ensures
        (thin_tiled(im, w, h, tw, th) == im) == !window_changes(im, whole(w, h), w, h, 0),
{
    let g = grid(w, h, tw, th);
    let flags = all_flagged(g);
    if window_changes(im, whole(w, h), w, h, 0) {
        crate::tiled::lemma_pieces(w, tw);
        crate::tiled::lemma_pieces(h, th);
        assert(0 <= g.cols() * g.rows()) by (nonlinear_arith)
            requires
                0 <= g.cols(),
                0 <= g.rows(),
        ;
        law_full_pass_is_whole_window(im, w, h, tw, th, 0);
        let a = crate::tiled::round_image(im, flags, g, 0);
        let fa = crate::tiled::round_flags(im, flags, g, 0);
        crate::tiled::lemma_round(im, flags, g, 0);
        crate::tiled::lemma_round(a, fa, g, 1);
        if round_changes(a, fa, g, 1) {
            let b = crate::tiled::round_image(a, fa, g, 1);
            let fb = crate::tiled::round_flags(a, fa, g, 1);
            crate::thin::lemma_ink_monotone(a, b);
            crate::tiled::lemma_tiled_run(b, fb, g);
            crate::thin::lemma_ink_monotone(b, tiled_run(b, fb, g));
        }
        assert(ink_count(thin_tiled(im, w, h, tw, th)) < ink_count(im));
    } else {
        law_settled_image_is_fixed(im, w, h, tw, th);
    }
}

/// A second run of tiled thinning changes nothing, provided the first run
/// ended on an image in which sub-iteration 0 finds no new pixel to mark;
/// where it finds one, the second run does change the image.
pub proof fn law_second_run_changes_nothing(im: Seq<u8>, w: int, h: int, tw: int, th: int)
    requires
        0 <= w,
        0 <= h,
        0 < tw,
        0 < th,
        im.len() == w * h,
    ensures
        !window_changes(thin_tiled(im, w, h, tw, th), whole(w, h), w, h, 0) ==> thin_tiled(
            thin_tiled(im, w, h, tw, th),
            w,
            h,
            tw,
            th,
        ) == thin_tiled(im, w, h, tw, th),
        window_changes(thin_tiled(im, w, h, tw, th), whole(w, h), w, h, 0) ==> thin_tiled(
            thin_tiled(im, w, h, tw, th),
            w,
            h,
            tw,
            th,
        ) != thin_tiled(im, w, h, tw, th),
{
    let g = grid(w, h, tw, th);
    crate::tiled::lemma_pieces(w, tw);
    crate::tiled::lemma_pieces(h, th);
    assert(0 <= g.cols() * g.rows()) by (nonlinear_arith)
        requires
            0 <= g.cols(),
            0 <= g.rows(),
    ;
    crate::tiled::lemma_tiled_run(im, all_flagged(g), g);
    law_fixed_points(thin_tiled(im, w, h, tw, th), w, h, tw, th);
}

} // verus!
