//! The leaf of the tracer: turning one small chunk of a thinned image into
//! fragments.
//!
//! The border of the chunk is walked clockwise from its top-left pixel. Each
//! run of ink on the border is a stroke that leaves the chunk; it gives a
//! fragment from the middle of the run to the centre of the chunk. Two
//! strokes are taken to be one stroke that passes through; with three or
//! more, the fragments meet in the brightest spot of the chunk.

use vstd::prelude::*;
use crate::fragment::{dist, dist_of, line_of, lines_of, point_of, proper, Point, Polyline};
use crate::pixel::{all_binary, is_binary};
use crate::window::{lemma_pixel_index, px, rect, Rect};

verus! {

/// The number of pixels on the border of a chunk.
pub open spec fn perimeter(r: Rect) -> int {
    2 * r.w + 2 * r.h - 4
}

/// Row and column of the `k`-th pixel on the border of a chunk, clockwise
/// from the top-left pixel: the top row from left to right, the right column
/// downwards, the bottom row from right to left, the left column upwards.
pub open spec fn boundary(r: Rect, k: int) -> (int, int) {
    if k < r.w {
        (r.y, r.x + k)
    } else if k < r.w + r.h - 1 {
        (r.y + k - r.w + 1, r.x + r.w - 1)
    } else if k < r.w + r.h + r.w - 2 {
        (r.y + r.h - 1, r.x + r.w - (k - r.w - r.h + 3))
    } else {
        (r.y + r.h - (k - r.w - r.h - r.w + 4), r.x)
    }
}

/// The centre of a chunk.
pub open spec fn center(r: Rect) -> Point {
    (r.x + r.w / 2, r.y + r.h / 2)
}

/// The point half-way between `p` and the pixel in row `i`, column `j`.
pub open spec fn midpoint(p: Point, i: int, j: int) -> Point {
    ((p.0 + j) / 2, (p.1 + i) / 2)
}

/// The fragments found so far on a walk along the border, and whether the
/// walk stands on ink.
pub struct Walk {
    pub lines: Seq<Polyline>,
    pub on: bool,
}

/// The walk after the first `n` pixels of the border. Stepping onto ink
/// starts a fragment from that pixel to the centre of the chunk. Stepping
/// off ink moves the start of the last fragment half-way towards the last
/// ink pixel, into the middle of the stroke.
pub open spec fn walk(im: Seq<u8>, ww: int, r: Rect, n: nat) -> Walk
    decreases n,
{
    if n == 0 {
        Walk { lines: Seq::empty(), on: false }
    } else {
        let s = walk(im, ww, r, (n - 1) as nat);
        let here = boundary(r, n - 1);
        if px(im, ww, here.0, here.1) != 0 {
            if s.on {
                s
            } else {
                Walk { lines: s.lines.push(seq![(here.1, here.0), center(r)]), on: true }
            }
        } else {
            if s.on {
                let before = boundary(r, n - 2);
                let last = s.lines[s.lines.len() - 1];
                Walk {
                    lines: s.lines.update(
                        s.lines.len() - 1,
                        last.update(0, midpoint(last[0], before.0, before.1)),
                    ),
                    on: false,
                }
            } else {
                s
            }
        }
    }
}

/// The sum of the bytes of the pixel in row `i`, column `j` and of its
/// eight neighbours.
pub open spec fn box_sum(im: Seq<u8>, ww: int, i: int, j: int) -> int {
    px(im, ww, i - 1, j - 1) + px(im, ww, i - 1, j) + px(im, ww, i - 1, j + 1) + px(
        im,
        ww,
        i,
        j - 1,
    ) + px(im, ww, i, j) + px(im, ww, i, j + 1) + px(im, ww, i + 1, j - 1) + px(im, ww, i + 1, j)
        + px(im, ww, i + 1, j + 1)
}

/// The pixel in row `i`, column `j` lies in the chunk and off its border.
pub open spec fn inner(r: Rect, i: int, j: int) -> bool {
    r.y + 1 <= i < r.y + r.h - 1 && r.x + 1 <= j < r.x + r.w - 1
}

/// The city-block distance of a pixel from the centre of the chunk.
pub open spec fn spread(r: Rect, i: int, j: int) -> int {
    dist(j, r.x + r.w / 2) + dist(i, r.y + r.h / 2)
}

/// Pixel `a` is at least as good a meeting point as pixel `b`: it is
/// brighter, or as bright and nearer to the centre, or as bright and as near
/// and not behind `b` in row-major order. Both are given as (row, column).
pub open spec fn outranks(im: Seq<u8>, ww: int, r: Rect, a: (int, int), b: (int, int)) -> bool {
    let sa = box_sum(im, ww, a.0, a.1);
    let sb = box_sum(im, ww, b.0, b.1);
    let da = spread(r, a.0, a.1);
    let db = spread(r, b.0, b.1);
    sa > sb || (sa == sb && (da < db || (da == db && (a.0 < b.0 || (a.0 == b.0 && a.1 <= b.1)))))
}

/// Pixel `c`, given as (row, column), is the meeting point of the chunk: an
/// inner pixel that outranks every inner pixel.
pub open spec fn is_centroid(im: Seq<u8>, ww: int, r: Rect, c: (int, int)) -> bool {
    inner(r, c.0, c.1) && forall|i: int, j: int| #[trigger]
        inner(r, i, j) ==> outranks(im, ww, r, c, (i, j))
}

/// The meeting point of the chunk, as (row, column).
pub open spec fn centroid(im: Seq<u8>, ww: int, r: Rect) -> (int, int) {
    choose|c: (int, int)| is_centroid(im, ww, r, c)
}

/// A chunk has one meeting point at most.
pub proof fn lemma_centroid_unique(im: Seq<u8>, ww: int, r: Rect, c: (int, int))
    requires
        is_centroid(im, ww, r, c),
    ensures
        centroid(im, ww, r) == c,
{
    let d = centroid(im, ww, r);
    assert(is_centroid(im, ww, r, d));
    assert(inner(r, c.0, c.1) && inner(r, d.0, d.1));
    assert(outranks(im, ww, r, c, (d.0, d.1)));
    assert(outranks(im, ww, r, d, (c.0, c.1)));
}

/// The fragments of a chunk. A chunk less than three pixels wide or high
/// has none. Two fragments from the walk become one, from the start of the
/// first to the start of the second. With three or more, each fragment ends
/// in the meeting point of the chunk instead of its centre.
pub open spec fn chunk_lines(im: Seq<u8>, ww: int, r: Rect) -> Seq<Polyline> {
    if r.w <= 2 || r.h <= 2 {
        Seq::empty()
    } else {
        let ls = walk(im, ww, r, perimeter(r) as nat).lines;
        if ls.len() == 2 {
            seq![seq![ls[0][0], ls[1][0]]]
        } else if ls.len() > 2 {
            let c = centroid(im, ww, r);
            Seq::new(ls.len(), |q: int| ls[q].update(1, (c.1, c.0)))
        } else {
            ls
        }
    }
}

/// A point lies in a chunk.
pub open spec fn point_in(r: Rect, p: Point) -> bool {
    r.contains(p.1, p.0)
}

/// The border pixels lie in the chunk.
pub proof fn lemma_boundary(r: Rect, k: int)
    requires
        r.w >= 3,
        r.h >= 3,
        0 <= k < perimeter(r),
    ensures
        r.contains(boundary(r, k).0, boundary(r, k).1),
{
}

/// On a walk, every fragment has two points, both in the chunk; there is a
/// fragment whenever the walk stands on ink, and no more fragments than
/// steps.
pub proof fn lemma_walk(im: Seq<u8>, ww: int, r: Rect, n: nat)
    requires
        r.w >= 3,
        r.h >= 3,
        n <= perimeter(r),
    ensures
        ({
            let s = walk(im, ww, r, n);
            &&& s.lines.len() <= n
            &&& s.on ==> s.lines.len() >= 1 && n >= 1
            &&& forall|q: int|
                0 <= q < s.lines.len() ==> (#[trigger] s.lines[q]).len() == 2 && point_in(
                    r,
                    s.lines[q][0],
                ) && point_in(r, s.lines[q][1])
        }),
    decreases n,
{
    if n > 0 {
        lemma_walk(im, ww, r, (n - 1) as nat);
        lemma_boundary(r, n - 1);
        let s = walk(im, ww, r, (n - 1) as nat);
        if s.on {
            lemma_boundary(r, n - 2);
        }
    }
}

/// In an image that holds a chunk at least three pixels wide and high, the
/// sums that the walk and the seam search form fit into a machine word.
pub proof fn lemma_sizes(ww: int, hh: int)
    requires
        3 <= ww,
        3 <= hh,
    ensures
        2 * ww + 2 * hh - 4 <= ww * hh,
        2 * ww <= ww * hh,
        2 * hh <= ww * hh,
{
    assert(2 * ww + 2 * hh - 4 <= ww * hh && 2 * ww <= ww * hh && 2 * hh <= ww * hh)
        by (nonlinear_arith)
        requires
            3 <= ww,
            3 <= hh,
    ;
}

/// Row and column of the `k`-th pixel on the border of a chunk.
fn border_pixel(x: usize, y: usize, w: usize, h: usize, k: usize) -> (p: (usize, usize))
    requires
        w >= 3,
        h >= 3,
        k < 2 * w + 2 * h - 4,
        2 * w + 2 * h - 4 <= usize::MAX,
        x + w <= usize::MAX,
        y + h <= usize::MAX,
    ensures
        (p.0 as int, p.1 as int) == boundary(rect(x as int, y as int, w as int, h as int), k as int),
{
    if k < w {
        (y, x + k)
    } else if k < w + h - 1 {
        (y + (k - w) + 1, x + w - 1)
    } else if k < w + h + w - 2 {
        (y + h - 1, x + w - 2 - (k - (w + h - 1)))
    } else {
        (y + h - 2 - (k - (w + h + w - 2)), x)
    }
}

/// The sum of the bytes of a pixel off the border of the image and of its
/// eight neighbours.
fn box_sum_of(im: &[u8], ww: usize, hh: usize, i: usize, j: usize) -> (s: u8)
    requires
        im@.len() == ww * hh,
        all_binary(im@),
        1 <= i < hh - 1,
        1 <= j < ww - 1,
    ensures
        s == box_sum(im@, ww as int, i as int, j as int),
        s <= 9,
{
    proof {
        assert(im@.len() == im.len());
        lemma_pixel_index(ww as int, hh as int, i - 1, j - 1);
        lemma_pixel_index(ww as int, hh as int, i - 1, j as int);
        lemma_pixel_index(ww as int, hh as int, i - 1, j + 1);
        lemma_pixel_index(ww as int, hh as int, i as int, j - 1);
        lemma_pixel_index(ww as int, hh as int, i as int, j as int);
        lemma_pixel_index(ww as int, hh as int, i as int, j + 1);
        lemma_pixel_index(ww as int, hh as int, i + 1, j - 1);
        lemma_pixel_index(ww as int, hh as int, i + 1, j as int);
        lemma_pixel_index(ww as int, hh as int, i + 1, j + 1);
    }
    let a: u8 = im[(i - 1) * ww + j - 1];
    let b: u8 = im[(i - 1) * ww + j];
    let c: u8 = im[(i - 1) * ww + j + 1];
    let d: u8 = im[i * ww + j - 1];
    let e: u8 = im[i * ww + j];
    let f: u8 = im[i * ww + j + 1];
    let g: u8 = im[(i + 1) * ww + j - 1];
    let m: u8 = im[(i + 1) * ww + j];
    let n: u8 = im[(i + 1) * ww + j + 1];
    proof {
        assert(is_binary(a) && is_binary(b) && is_binary(c) && is_binary(d) && is_binary(e)
            && is_binary(f) && is_binary(g) && is_binary(m) && is_binary(n));
    }
    a + b + c + d + e + f + g + m + n
}

/// Finds the meeting point of a chunk, as (row, column).
fn find_centroid(im: &[u8], ww: usize, hh: usize, x: usize, y: usize, w: usize, h: usize) -> (c: (
    usize,
    usize,
))
    requires
        im@.len() == ww * hh,
        all_binary(im@),
        x + w <= ww,
        y + h <= hh,
        w >= 3,
        h >= 3,
    ensures
        is_centroid(
            im@,
            ww as int,
            rect(x as int, y as int, w as int, h as int),
            (c.0 as int, c.1 as int),
        ),
{
    let ghost r = rect(x as int, y as int, w as int, h as int);
    let cx: usize = x + w / 2;
    let cy: usize = y + h / 2;
    let mut bi: usize = y + 1;
    let mut bj: usize = x + 1;
    let mut bs: u8 = box_sum_of(im, ww, hh, bi, bj);
    let mut bd: usize = dist_of(bj, cx) + dist_of(bi, cy);
    let mut i: usize = y + 1;
    while i < y + h - 1
        invariant
            y + 1 <= i <= y + h - 1,
            r == rect(x as int, y as int, w as int, h as int),
            im@.len() == ww * hh,
            all_binary(im@),
            x + w <= ww,
            y + h <= hh,
            w >= 3,
            h >= 3,
            cx == x + w / 2,
            cy == y + h / 2,
            inner(r, bi as int, bj as int),
            bi < i || (bi == y + 1 && bj == x + 1),
            bs == box_sum(im@, ww as int, bi as int, bj as int),
            bd == spread(r, bi as int, bj as int),
            forall|p: int, q: int| #[trigger]
                inner(r, p, q) && p < i ==> outranks(im@, ww as int, r, (bi as int, bj as int), (
                    p,
                    q,
                )),
        decreases y + h - 1 - i,
    {
        let mut j: usize = x + 1;
        while j < x + w - 1
            invariant
                y + 1 <= i < y + h - 1,
                x + 1 <= j <= x + w - 1,
                r == rect(x as int, y as int, w as int, h as int),
                im@.len() == ww * hh,
                all_binary(im@),
                x + w <= ww,
                y + h <= hh,
                w >= 3,
                h >= 3,
                cx == x + w / 2,
                cy == y + h / 2,
                inner(r, bi as int, bj as int),
                bi < i || (bi == i && bj < j) || (bi == y + 1 && bj == x + 1),
                bs == box_sum(im@, ww as int, bi as int, bj as int),
                bd == spread(r, bi as int, bj as int),
                forall|p: int, q: int| #[trigger]
                    inner(r, p, q) && (p < i || (p == i && q < j)) ==> outranks(
                        im@,
                        ww as int,
                        r,
                        (bi as int, bj as int),
                        (p, q),
                    ),
            decreases x + w - 1 - j,
        {
            let s: u8 = box_sum_of(im, ww, hh, i, j);
            let d: usize = dist_of(j, cx) + dist_of(i, cy);
            if s > bs || (s == bs && d < bd) {
                bi = i;
                bj = j;
                bs = s;
                bd = d;
            }
            j = j + 1;
        }
        i = i + 1;
    }
    (bi, bj)
}

/// Turns the chunk that is `w` pixels wide and `h` pixels high and has its
/// top-left pixel at column `x`, row `y` into fragments. Each fragment has
/// two points. A chunk less than three pixels wide or high gives none. The
/// image is one of `ww` by `hh` bytes that are all 0 or 1, and the chunk
/// lies inside it.
pub fn chunk_to_frags(im: &[u8], ww: usize, hh: usize, x: usize, y: usize, w: usize, h: usize) -> (frags:
    Vec<Vec<[usize; 2]>>)
    requires
        im@.len() == ww * hh,
        all_binary(im@),
        x + w <= ww,
        y + h <= hh,
    ensures
        lines_of(frags@) == chunk_lines(
            im@,
            ww as int,
            rect(x as int, y as int, w as int, h as int),
        ),
        forall|q: int| 0 <= q < frags@.len() ==> (#[trigger] frags@[q])@.len() == 2,
        proper(lines_of(frags@)),
{
    let ghost r = rect(x as int, y as int, w as int, h as int);
    let mut frags: Vec<Vec<[usize; 2]>> = Vec::new();
    if w <= 2 || h <= 2 {
        assert(lines_of(frags@) =~= Seq::empty());
        return frags;
    }
    proof {
        assert(im@.len() == im.len());
        lemma_sizes(ww as int, hh as int);
    }
    let cx: usize = x + w / 2;
    let cy: usize = y + h / 2;
    let mut on: bool = false;
    let mut li: usize = 0;
    let mut lj: usize = 0;
    let total: usize = (w - 1) * 2 + (h - 1) * 2;
    let mut k: usize = 0;
    while k < total
        invariant
            k <= total,
            total == perimeter(r),
            r == rect(x as int, y as int, w as int, h as int),
            im@.len() == ww * hh,
            ww * hh <= usize::MAX,
            2 * ww + 2 * hh - 4 <= ww * hh,
            2 * ww <= ww * hh,
            2 * hh <= ww * hh,
            x + w <= ww,
            y + h <= hh,
            w >= 3,
            h >= 3,
            cx == x + w / 2,
            cy == y + h / 2,
            lines_of(frags@) == walk(im@, ww as int, r, k as nat).lines,
            on == walk(im@, ww as int, r, k as nat).on,
            k >= 1 ==> (li as int, lj as int) == boundary(r, k - 1),
        decreases total - k,
    {
        let ghost before = lines_of(frags@);
        proof {
            lemma_walk(im@, ww as int, r, k as nat);
            lemma_boundary(r, k as int);
            if k >= 1 {
                lemma_boundary(r, k - 1);
            }
        }
        let here: (usize, usize) = border_pixel(x, y, w, h, k);
        let i: usize = here.0;
        let j: usize = here.1;
        proof {
            lemma_pixel_index(ww as int, hh as int, i as int, j as int);
        }
        if im[i * ww + j] != 0 {
            if !on {
                on = true;
                let mut f: Vec<[usize; 2]> = Vec::new();
                f.push([j, i]);
                f.push([cx, cy]);
                proof {
                    assert(line_of(f@) =~= seq![(j as int, i as int), center(r)]);
                }
                frags.push(f);
                proof {
                    assert(lines_of(frags@) =~= before.push(seq![(j as int, i as int), center(r)]));
                }
            }
        } else {
            if on {
                let l: usize = frags.len();
                assert(before[l - 1] == line_of(frags@[l - 1]@));
                assert(before[l - 1].len() == 2);
                assert(point_in(r, before[l - 1][0]));
                let first: [usize; 2] = frags[l - 1][0];
                assert(point_of(first) == before[l - 1][0]);
                let nx: usize = (first[0] + lj) / 2;
                let ny: usize = (first[1] + li) / 2;
                frags[l - 1][0] = [nx, ny];
                on = false;
                proof {
                    let moved = before[l - 1].update(
                        0,
                        midpoint(before[l - 1][0], li as int, lj as int),
                    );
                    assert(line_of(frags@[l - 1]@) =~= moved);
                    assert(lines_of(frags@) =~= before.update(l - 1, moved));
                }
            }
        }
        li = i;
        lj = j;
        k = k + 1;
    }
    proof {
        lemma_walk(im@, ww as int, r, total as nat);
    }
    let ghost ls = lines_of(frags@);
    if frags.len() == 2 {
        assert(ls[0] == line_of(frags@[0]@));
        assert(ls[1] == line_of(frags@[1]@));
        let mut f: Vec<[usize; 2]> = Vec::new();
        f.push(frags[0][0]);
        f.push(frags[1][0]);
        let mut single: Vec<Vec<[usize; 2]>> = Vec::new();
        proof {
            assert(line_of(f@) =~= seq![ls[0][0], ls[1][0]]);
        }
        single.push(f);
        proof {
            assert(lines_of(single@) =~= seq![seq![ls[0][0], ls[1][0]]]);
        }
        return single;
    } else if frags.len() > 2 {
        let c: (usize, usize) = find_centroid(im, ww, hh, x, y, w, h);
        proof {
            lemma_centroid_unique(im@, ww as int, r, (c.0 as int, c.1 as int));
        }
        let n: usize = frags.len();
        let mut q: usize = 0;
        while q < n
            invariant
                q <= n,
                n == frags@.len(),
                n == ls.len(),
                forall|t: int| 0 <= t < n ==> (#[trigger] ls[t]).len() == 2,
                forall|t: int| 0 <= t < q ==> #[trigger] lines_of(frags@)[t] == ls[t].update(
                    1,
                    (c.1 as int, c.0 as int),
                ),
                forall|t: int| q <= t < n ==> #[trigger] lines_of(frags@)[t] == ls[t],
            decreases n - q,
        {
            let ghost before = lines_of(frags@);
            let ghost raw = frags@;
            assert(before[q as int] == line_of(frags@[q as int]@));
            assert(ls[q as int].len() == 2);
            frags[q][1] = [c.1, c.0];
            proof {
                assert(line_of(frags@[q as int]@) =~= ls[q as int].update(
                    1,
                    (c.1 as int, c.0 as int),
                ));
                assert forall|t: int| 0 <= t < n && t != q implies #[trigger] lines_of(frags@)[t]
                    == before[t] by {
                    assert(frags@[t] == raw[t]);
                }
            }
            q = q + 1;
        }
        proof {
            assert(lines_of(frags@) =~= Seq::new(
                ls.len(),
                |t: int| ls[t].update(1, (c.1 as int, c.0 as int)),
            ));
        }
    }
    proof {
        assert forall|t: int| 0 <= t < frags@.len() implies (#[trigger] frags@[t])@.len() == 2 by {
            assert(lines_of(frags@)[t] == line_of(frags@[t]@));
        }
    }
    frags
}

} // verus!
