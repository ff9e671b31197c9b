//! One Zhang-Suen sub-iteration over a rectangular window, and the pass that
//! applies the markers it leaves behind.
//!
//! An image is a row-major `Seq<u8>` of `w * h` pixel bytes. Marking reads
//! foreground bits only and writes marker bits only, so the order in which
//! pixels (or windows) are visited has no influence on the outcome.

use vstd::prelude::*;
use vstd::arithmetic::div_mod::lemma_fundamental_div_mod_converse;
use crate::pixel::{
    commit, committed, foreground, foreground_of, has_marker, lemma_codec, mark, marked, marker,
};

verus! {

/// A rectangle of pixels: columns `x .. x + w`, rows `y .. y + h`.
pub struct Rect {
    pub x: int,
    pub y: int,
    pub w: int,
    pub h: int,
}

/// The rectangle with its top-left pixel at column `x`, row `y`.
pub open spec fn rect(x: int, y: int, w: int, h: int) -> Rect {
    Rect { x, y, w, h }
}

impl Rect {
    /// The pixel in row `i`, column `j` lies in the rectangle.
    pub open spec fn contains(self, i: int, j: int) -> bool {
        self.y <= i < self.y + self.h && self.x <= j < self.x + self.w
    }
}

/// The byte of the pixel in row `i`, column `j` of an image `w` pixels wide.
pub open spec fn px(im: Seq<u8>, w: int, i: int, j: int) -> u8 {
    im[i * w + j]
}

/// The foreground bit, as a number, of the pixel in row `i`, column `j`.
pub open spec fn ink(im: Seq<u8>, w: int, i: int, j: int) -> int {
    foreground(px(im, w, i, j)) as int
}

/// The pixel is not on the one-pixel border of the image, so that all of
/// its eight neighbours exist.
pub open spec fn interior(w: int, h: int, i: int, j: int) -> bool {
    1 <= i < h - 1 && 1 <= j < w - 1
}

/// 1 where the walk around a pixel steps from background onto ink.
pub open spec fn rise(a: int, b: int) -> int {
    if a == 0 && b == 1 {
        1
    } else {
        0
    }
}

/// The foreground bits of the eight neighbours of a pixel.
pub struct Ring {
    pub north: int,
    pub north_east: int,
    pub east: int,
    pub south_east: int,
    pub south: int,
    pub south_west: int,
    pub west: int,
    pub north_west: int,
}

/// The foreground bits around the pixel in row `i`, column `j`.
pub open spec fn ring(im: Seq<u8>, w: int, i: int, j: int) -> Ring {
    Ring {
        north: ink(im, w, i - 1, j),
        north_east: ink(im, w, i - 1, j + 1),
        east: ink(im, w, i, j + 1),
        south_east: ink(im, w, i + 1, j + 1),
        south: ink(im, w, i + 1, j),
        south_west: ink(im, w, i + 1, j - 1),
        west: ink(im, w, i, j - 1),
        north_west: ink(im, w, i - 1, j - 1),
    }
}

impl Ring {
    /// The number of steps from background onto ink on one turn around the
    /// pixel.
    pub open spec fn transitions(self) -> int {
        rise(self.north, self.north_east) + rise(self.north_east, self.east)
            + rise(self.east, self.south_east) + rise(self.south_east, self.south)
            + rise(self.south, self.south_west) + rise(self.south_west, self.west)
            + rise(self.west, self.north_west) + rise(self.north_west, self.north)
    }

    /// The number of neighbours that are ink.
    pub open spec fn count(self) -> int {
        self.north + self.north_east + self.east + self.south_east + self.south
            + self.south_west + self.west + self.north_west
    }

    /// The first of the two products that must vanish in sub-iteration `sub`.
    pub open spec fn first_product(self, sub: int) -> int {
        if sub == 0 {
            self.north * self.east * self.south
        } else {
            self.north * self.east * self.west
        }
    }

    /// The second of the two products that must vanish in sub-iteration `sub`.
    pub open spec fn second_product(self, sub: int) -> int {
        if sub == 0 {
            self.east * self.south * self.west
        } else {
            self.north * self.south * self.west
        }
    }
}

/// The Zhang-Suen rule: the pixel in row `i`, column `j` is ink that
/// sub-iteration `sub` may take away. Sub-iteration 0 is selected by
/// `sub == 0`, the other one by any other value.
pub open spec fn removable(im: Seq<u8>, w: int, i: int, j: int, sub: int) -> bool {
    let r = ring(im, w, i, j);
    &&& ink(im, w, i, j) == 1
    &&& r.transitions() == 1
    &&& 2 <= r.count() <= 6
    &&& r.first_product(sub) == 0
    &&& r.second_product(sub) == 0
}

/// The pixel with index `k` is one that a marking pass over window `win`
/// marks: it lies in the window, off the border of the image, and the rule
/// of sub-iteration `sub` holds for it.
pub open spec fn candidate(im: Seq<u8>, win: Rect, w: int, h: int, sub: int, k: int) -> bool {
    let i = k / w;
    let j = k % w;
    win.contains(i, j) && interior(w, h, i, j) && removable(im, w, i, j, sub)
}

/// The image after a marking pass of sub-iteration `sub` over window `win`:
/// every candidate has its marker set, and nothing else has changed.
pub open spec fn mark_window(im: Seq<u8>, win: Rect, w: int, h: int, sub: int) -> Seq<u8> {
    Seq::new(
        im.len(),
        |k: int|
            if candidate(im, win, w, h, sub, k) {
                marked(im[k])
            } else {
                im[k]
            },
    )
}

/// A marking pass of sub-iteration `sub` over window `win` sets at least one
/// marker that was not set before.
pub open spec fn window_changes(im: Seq<u8>, win: Rect, w: int, h: int, sub: int) -> bool {
    exists|k: int|
        0 <= k < im.len() && #[trigger] candidate(im, win, w, h, sub, k) && marker(im[k]) == 0
}

/// The image after the markers in window `win` have been applied.
pub open spec fn commit_window(im: Seq<u8>, win: Rect, w: int) -> Seq<u8> {
    Seq::new(
        im.len(),
        |k: int|
            if win.contains(k / w, k % w) {
                committed(im[k])
            } else {
                im[k]
            },
    )
}

/// The pixel in row `i`, column `j` has index `i * w + j`, and the index
/// gives row and column back.
pub proof fn lemma_pixel_index(w: int, h: int, i: int, j: int)
    requires
        0 <= i < h,
        0 <= j < w,
    ensures
        0 <= i * w <= i * w + j < w * h,
        (i * w + j) / w == i,
        (i * w + j) % w == j,
{
    assert(0 <= i * w && (i + 1) * w <= h * w && (i + 1) * w == i * w + w && h * w == w * h)
        by (nonlinear_arith)
        requires
            0 <= i < h,
            0 < w,
    ;
    lemma_fundamental_div_mod_converse(i * w + j, w, i, j);
}

/// Every index of an image is the index of the pixel in its row and column.
pub proof fn lemma_index_pixel(w: int, h: int, k: int)
    requires
        0 <= k < w * h,
        0 <= w,
        0 <= h,
    ensures
        0 <= k / w < h,
        0 <= k % w < w,
        k == (k / w) * w + k % w,
{
    assert(w > 0) by (nonlinear_arith)
        requires
            0 <= k < w * h,
            0 <= w,
    ;
    vstd::arithmetic::div_mod::lemma_fundamental_div_mod(k, w);
    vstd::arithmetic::div_mod::lemma_mod_bound(k, w);
    let q = k / w;
    assert(q * w == w * q) by (nonlinear_arith);
    assert(0 <= q < h) by (nonlinear_arith)
        requires
            0 <= k < w * h,
            0 < w,
            k == w * q + k % w,
            0 <= k % w < w,
    ;
}

/// The rule looks at foreground bits only: two images that agree on them
/// agree on which pixels are removable.
pub proof fn lemma_removable_reads_ink(
    a: Seq<u8>,
    b: Seq<u8>,
    w: int,
    h: int,
    i: int,
    j: int,
    sub: int,
)
    requires
        a.len() == w * h,
        b.len() == w * h,
        interior(w, h, i, j),
        forall|k: int| 0 <= k < a.len() ==> foreground(#[trigger] a[k]) == foreground(b[k]),
    ensures
        removable(a, w, i, j, sub) == removable(b, w, i, j, sub),
        ring(a, w, i, j) == ring(b, w, i, j),
        ink(a, w, i, j) == ink(b, w, i, j),
{
    lemma_pixel_index(w, h, i - 1, j - 1);
    lemma_pixel_index(w, h, i - 1, j);
    lemma_pixel_index(w, h, i - 1, j + 1);
    lemma_pixel_index(w, h, i, j - 1);
    lemma_pixel_index(w, h, i, j);
    lemma_pixel_index(w, h, i, j + 1);
    lemma_pixel_index(w, h, i + 1, j - 1);
    lemma_pixel_index(w, h, i + 1, j);
    lemma_pixel_index(w, h, i + 1, j + 1);
}

/// The products of the rule vanish exactly where one factor is background.
proof fn lemma_products(a: int, b: int, c: int)
    requires
        0 <= a <= 1,
        0 <= b <= 1,
        0 <= c <= 1,
    ensures
        0 <= a * b <= 1,
        0 <= a * b * c <= 1,
        (a * b * c == 0) == (a == 0 || b == 0 || c == 0),
{
    assert(0 <= a * b <= 1 && 0 <= a * b * c <= 1 && ((a * b * c == 0) == (a == 0 || b == 0 || c
        == 0))) by (nonlinear_arith)
        requires
            0 <= a <= 1,
            0 <= b <= 1,
            0 <= c <= 1,
    ;
}

/// 1 where the walk around a pixel steps from background onto ink.
fn rise_of(a: u8, b: u8) -> (r: u8)
    requires
        a <= 1,
        b <= 1,
    ensures
        r == rise(a as int, b as int),
        r <= 1,
{
    if a == 0 && b == 1 {
        1
    } else {
        0
    }
}

/// Decides the rule of sub-iteration `iter` for the pixel in row `i`,
/// column `j`, which must not lie on the border of the image.
fn is_removable(im: &[u8], w: usize, h: usize, i: usize, j: usize, iter: i32) -> (r: bool)
    requires
        im@.len() == w * h,
        interior(w as int, h as int, i as int, j as int),
    ensures
        r == removable(im@, w as int, i as int, j as int, iter as int),
{
    proof {
        assert(im@.len() == im.len());
        lemma_pixel_index(w as int, h as int, i - 1, j - 1);
        lemma_pixel_index(w as int, h as int, i - 1, j as int);
        lemma_pixel_index(w as int, h as int, i - 1, j + 1);
        lemma_pixel_index(w as int, h as int, i as int, j - 1);
        lemma_pixel_index(w as int, h as int, i as int, j as int);
        lemma_pixel_index(w as int, h as int, i as int, j + 1);
        lemma_pixel_index(w as int, h as int, i + 1, j - 1);
        lemma_pixel_index(w as int, h as int, i + 1, j as int);
        lemma_pixel_index(w as int, h as int, i + 1, j + 1);
    }
    let centre: u8 = foreground_of(im[i * w + j]);
    let north: u8 = foreground_of(im[(i - 1) * w + j]);
    let north_east: u8 = foreground_of(im[(i - 1) * w + j + 1]);
    let east: u8 = foreground_of(im[i * w + j + 1]);
    let south_east: u8 = foreground_of(im[(i + 1) * w + j + 1]);
    let south: u8 = foreground_of(im[(i + 1) * w + j]);
    let south_west: u8 = foreground_of(im[(i + 1) * w + j - 1]);
    let west: u8 = foreground_of(im[i * w + j - 1]);
    let north_west: u8 = foreground_of(im[(i - 1) * w + j - 1]);
    let a: u8 = rise_of(north, north_east) + rise_of(north_east, east)
        + rise_of(east, south_east) + rise_of(south_east, south)
        + rise_of(south, south_west) + rise_of(south_west, west)
        + rise_of(west, north_west) + rise_of(north_west, north);
    let b: u8 = north + north_east + east + south_east + south + south_west + west + north_west;
    proof {
        lemma_products(north as int, east as int, south as int);
        lemma_products(north as int, east as int, west as int);
        lemma_products(east as int, south as int, west as int);
        lemma_products(north as int, south as int, west as int);
    }
    let m1: u8 = if iter == 0 {
        north * east * south
    } else {
        north * east * west
    };
    let m2: u8 = if iter == 0 {
        east * south * west
    } else {
        north * south * west
    };
    centre == 1 && a == 1 && (b >= 2 && b <= 6) && m1 == 0 && m2 == 0
}

/// Runs one Zhang-Suen sub-iteration over the window whose top-left pixel is
/// at column `win_x`, row `win_y`: sets the marker of every pixel of the
/// window that lies off the border of the image and that the rule of the
/// sub-iteration takes away, and leaves everything else as it is. `iter`
/// selects the sub-iteration: 0 for the first, any other value for the
/// second. The result tells whether a marker was set that was not set before.
pub fn thinning_zs_iteration(
    im: &mut [u8],
    win_x: usize,
    win_y: usize,
    win_w: usize,
    win_h: usize,
    w: usize,
    h: usize,
    iter: i32,
) -> (diff: bool)
    requires
        old(im)@.len() == w * h,
        win_x + win_w <= w,
        win_y + win_h <= h,
    ensures
        final(im)@ == mark_window(
            old(im)@,
            rect(win_x as int, win_y as int, win_w as int, win_h as int),
            w as int,
            h as int,
            iter as int,
        ),
        diff == window_changes(
            old(im)@,
            rect(win_x as int, win_y as int, win_w as int, win_h as int),
            w as int,
            h as int,
            iter as int,
        ),
{
    let ghost orig = im@;
    let ghost win = rect(win_x as int, win_y as int, win_w as int, win_h as int);
    let ghost sub = iter as int;
    let mut diff: bool = false;
    let min_x: usize = if win_x == 0 {
        1
    } else {
        win_x
    };
    let max_x: usize = if win_x + win_w == w {
        if w == 0 {
            0
        } else {
            w - 1
        }
    } else {
        win_x + win_w
    };
    let min_y: usize = if win_y == 0 {
        1
    } else {
        win_y
    };
    let max_y: usize = if win_y + win_h == h {
        if h == 0 {
            0
        } else {
            h - 1
        }
    } else {
        win_y + win_h
    };
    proof {
        assert forall|k: int| 0 <= k < orig.len() && k / (w as int) < min_y implies !candidate(
            orig,
            win,
            w as int,
            h as int,
            sub,
            k,
        ) by {}
    }
    let mut i: usize = min_y;
    while i < max_y
        invariant
            min_y <= i,
            min_y >= 1,
            min_x >= 1,
            max_y < h || max_y == 0,
            max_x < w || max_x == 0,
            min_y == (if win_y == 0 { 1 } else { win_y as int }),
            min_x == (if win_x == 0 { 1 } else { win_x as int }),
            max_y == (if win_y + win_h == h { if h == 0 { 0 } else { h - 1 } } else { win_y + win_h }),
            max_x == (if win_x + win_w == w { if w == 0 { 0 } else { w - 1 } } else { win_x + win_w }),
            win == rect(win_x as int, win_y as int, win_w as int, win_h as int),
            sub == iter as int,
            orig.len() == w * h,
            im@.len() == orig.len(),
            forall|k: int|
                0 <= k < orig.len() ==> #[trigger] im@[k] == (if k / (w as int) < i && candidate(
                    orig,
                    win,
                    w as int,
                    h as int,
                    sub,
                    k,
                ) {
                    marked(orig[k])
                } else {
                    orig[k]
                }),
            diff == exists|k: int|
                0 <= k < orig.len() && k / (w as int) < i && #[trigger] candidate(
                    orig,
                    win,
                    w as int,
                    h as int,
                    sub,
                    k,
                ) && marker(orig[k]) == 0,
        decreases max_y - i,
    {
        let mut j: usize = min_x;
        while j < max_x
            invariant
                min_y <= i < max_y,
                min_x <= j,
                min_y >= 1,
                min_x >= 1,
                max_y < h,
                max_x < w || max_x == 0,
                min_x == (if win_x == 0 { 1 } else { win_x as int }),
                min_y == (if win_y == 0 { 1 } else { win_y as int }),
                max_y == (if win_y + win_h == h { if h == 0 { 0 } else { h - 1 } } else { win_y + win_h }),
                max_x == (if win_x + win_w == w { if w == 0 { 0 } else { w - 1 } } else { win_x + win_w }),
                win == rect(win_x as int, win_y as int, win_w as int, win_h as int),
                sub == iter as int,
                orig.len() == w * h,
                im@.len() == orig.len(),
                forall|k: int|
                    0 <= k < orig.len() ==> #[trigger] im@[k] == (if (k / (w as int) < i || (k / (
                    w as int) == i && k % (w as int) < j)) && candidate(
                        orig,
                        win,
                        w as int,
                        h as int,
                        sub,
                        k,
                    ) {
                        marked(orig[k])
                    } else {
                        orig[k]
                    }),
                diff == exists|k: int|
                    0 <= k < orig.len() && (k / (w as int) < i || (k / (w as int) == i && k % (
                    w as int) < j)) && #[trigger] candidate(orig, win, w as int, h as int, sub, k)
                        && marker(orig[k]) == 0,
            decreases max_x - j,
        {
            let ghost before = im@;
            let ghost idx = i * w + j;
            proof {
                assert(im@.len() == im.len());
                lemma_pixel_index(w as int, h as int, i as int, j as int);
                assert forall|k: int| 0 <= k < orig.len() implies foreground(#[trigger] im@[k])
                    == foreground(orig[k]) by {
                    lemma_codec(orig[k]);
                }
                lemma_removable_reads_ink(im@, orig, w as int, h as int, i as int, j as int, sub);
            }
            let hit: bool = is_removable(im, w, h, i, j, iter);
            assert(hit == candidate(orig, win, w as int, h as int, sub, idx));
            assert(im@[idx] == orig[idx]);
            if hit {
                let b: u8 = im[i * w + j];
                if !has_marker(b) {
                    diff = true;
                    im[i * w + j] = mark(b);
                } else {
                    proof {
                        lemma_codec(b);
                    }
                }
            }
            proof {
                lemma_codec(orig[idx]);
                assert forall|k: int| 0 <= k < orig.len() implies #[trigger] im@[k] == (if (k / (
                w as int) < i || (k / (w as int) == i && k % (w as int) < j + 1)) && candidate(
                    orig,
                    win,
                    w as int,
                    h as int,
                    sub,
                    k,
                ) {
                    marked(orig[k])
                } else {
                    orig[k]
                }) by {
                    lemma_index_pixel(w as int, h as int, k);
                    assert(before[k] == (if (k / (w as int) < i || (k / (w as int) == i && k % (
                    w as int) < j)) && candidate(orig, win, w as int, h as int, sub, k) {
                        marked(orig[k])
                    } else {
                        orig[k]
                    }));
                }
                let before_any = exists|k: int|
                    0 <= k < orig.len() && (k / (w as int) < i || (k / (w as int) == i && k % (
                    w as int) < j)) && #[trigger] candidate(orig, win, w as int, h as int, sub, k)
                        && marker(orig[k]) == 0;
                let after_any = exists|k: int|
                    0 <= k < orig.len() && (k / (w as int) < i || (k / (w as int) == i && k % (
                    w as int) < j + 1)) && #[trigger] candidate(
                        orig,
                        win,
                        w as int,
                        h as int,
                        sub,
                        k,
                    ) && marker(orig[k]) == 0;
                if hit && marker(orig[idx]) == 0 {
                    assert(candidate(orig, win, w as int, h as int, sub, idx));
                    assert(after_any);
                } else if after_any {
                    let k = choose|k: int|
                        0 <= k < orig.len() && (k / (w as int) < i || (k / (w as int) == i && k % (
                        w as int) < j + 1)) && #[trigger] candidate(
                            orig,
                            win,
                            w as int,
                            h as int,
                            sub,
                            k,
                        ) && marker(orig[k]) == 0;
                    lemma_index_pixel(w as int, h as int, k);
                    assert(k != idx);
                    assert(before_any);
                }
                if before_any {
                    assert(after_any);
                }
            }
            j = j + 1;
        }
        proof {
            assert forall|k: int|
                0 <= k < orig.len() && k / (w as int) == i && k % (w as int) >= j implies !candidate(
                orig,
                win,
                w as int,
                h as int,
                sub,
                k,
            ) by {}
        }
        i = i + 1;
    }
    proof {
        assert forall|k: int| 0 <= k < orig.len() && k / (w as int) >= i implies !candidate(
            orig,
            win,
            w as int,
            h as int,
            sub,
            k,
        ) by {}
        assert(im@ =~= mark_window(orig, win, w as int, h as int, sub));
    }
    diff
}

/// An index splits into a row and a column of an image `w` pixels wide.
pub proof fn lemma_row_col(w: int, k: int)
    requires
        0 <= k,
        0 < w,
    ensures
        0 <= k / w,
        0 <= k % w < w,
        k == (k / w) * w + k % w,
{
    vstd::arithmetic::div_mod::lemma_fundamental_div_mod(k, w);
    vstd::arithmetic::div_mod::lemma_mod_bound(k, w);
    let q = k / w;
    assert(q * w == w * q) by (nonlinear_arith);
    assert(0 <= q) by (nonlinear_arith)
        requires
            0 <= k,
            0 < w,
            k == w * q + k % w,
            0 <= k % w < w,
    ;
}

/// Applies the markers in the window whose top-left pixel is at column
/// `win_x`, row `win_y`: every byte of the window becomes 1 where it was ink
/// without a marker and 0 elsewhere, and every byte outside the window stays
/// as it is.
pub fn thinning_zs_post(
    im: &mut [u8],
    win_x: usize,
    win_y: usize,
    win_w: usize,
    win_h: usize,
    w: usize,
)
    requires
        win_x + win_w <= w,
        (win_y + win_h) * w <= old(im)@.len(),
    ensures
        final(im)@ == commit_window(
            old(im)@,
            rect(win_x as int, win_y as int, win_w as int, win_h as int),
            w as int,
        ),
{
    let ghost orig = im@;
    let ghost win = rect(win_x as int, win_y as int, win_w as int, win_h as int);
    let ghost rows = win_y + win_h;
    if win_w == 0 {
        assert(im@ =~= commit_window(orig, win, w as int));
        return ;
    }
    proof {
        assert(im@.len() == im.len());
        assert(rows <= rows * w) by (nonlinear_arith)
            requires
                0 <= rows,
                1 <= w,
        ;
    }
    let end_y: usize = win_y + win_h;
    let end_x: usize = win_x + win_w;
    let mut i: usize = win_y;
    while i < end_y
        invariant
            win_y <= i <= win_y + win_h,
            end_y == win_y + win_h,
            end_x == win_x + win_w,
            win_x + win_w <= w,
            win_w > 0,
            rows == win_y + win_h,
            rows * w <= orig.len(),
            win == rect(win_x as int, win_y as int, win_w as int, win_h as int),
            im@.len() == orig.len(),
            forall|k: int|
                0 <= k < orig.len() ==> #[trigger] im@[k] == (if k / (w as int) < i && win.contains(
                    k / (w as int),
                    k % (w as int),
                ) {
                    committed(orig[k])
                } else {
                    orig[k]
                }),
        decreases win_y + win_h - i,
    {
        let mut j: usize = win_x;
        while j < end_x
            invariant
                end_x == win_x + win_w,
                win_y <= i < win_y + win_h,
                win_x <= j <= win_x + win_w,
                win_x + win_w <= w,
                rows == win_y + win_h,
                rows * w <= orig.len(),
                win == rect(win_x as int, win_y as int, win_w as int, win_h as int),
                im@.len() == orig.len(),
                forall|k: int|
                    0 <= k < orig.len() ==> #[trigger] im@[k] == (if (k / (w as int) < i || (k / (
                    w as int) == i && k % (w as int) < j)) && win.contains(
                        k / (w as int),
                        k % (w as int),
                    ) {
                        committed(orig[k])
                    } else {
                        orig[k]
                    }),
            decreases win_x + win_w - j,
        {
            let ghost before = im@;
            let ghost idx = i * w + j;
            proof {
                assert(im@.len() == im.len());
                lemma_pixel_index(w as int, rows as int, i as int, j as int);
                assert(w * rows == rows * w) by (nonlinear_arith);
            }
            let b: u8 = im[i * w + j];
            im[i * w + j] = commit(b);
            proof {
                assert forall|k: int| 0 <= k < orig.len() implies #[trigger] im@[k] == (if (k / (
                w as int) < i || (k / (w as int) == i && k % (w as int) < j + 1)) && win.contains(
                    k / (w as int),
                    k % (w as int),
                ) {
                    committed(orig[k])
                } else {
                    orig[k]
                }) by {
                    lemma_row_col(w as int, k);
                    assert(before[k] == (if (k / (w as int) < i || (k / (w as int) == i && k % (
                    w as int) < j)) && win.contains(k / (w as int), k % (w as int)) {
                        committed(orig[k])
                    } else {
                        orig[k]
                    }));
                }
            }
            j = j + 1;
        }
        i = i + 1;
    }
    proof {
        assert(im@ =~= commit_window(orig, win, w as int));
    }
}

} // verus!
