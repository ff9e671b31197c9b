//! The tracer: from a thinned image to polyline fragments, by divide and
//! conquer.
//!
//! A chunk that is small enough is handed to the leaf. A larger chunk is cut
//! in two along the row or the column that crosses the least ink, both parts
//! are traced, and their fragments are merged across the seam. A part
//! without ink is not traced at all.

use vstd::prelude::*;
use crate::chunk::{chunk_lines, chunk_to_frags};
use crate::fragment::{dist, dist_of, lines_of, proper, Polyline};
use crate::merge::{merge_frags, merged, offer_down, HORIZONTAL, VERTICAL};
use crate::pixel::{all_binary, is_binary};
use crate::window::{lemma_pixel_index, px, rect, Rect};

verus! {

/// The chunk holds a pixel that is not background.
pub open spec fn has_ink(im: Seq<u8>, ww: int, r: Rect) -> bool {
    exists|i: int, j: int| r.contains(i, j) && #[trigger] px(im, ww, i, j) != 0
}

/// Tells whether the chunk that is `w` pixels wide and `h` pixels high and
/// has its top-left pixel at column `x`, row `y` holds a pixel that is not
/// background.
pub fn not_empty(im: &[u8], ww: usize, hh: usize, x: usize, y: usize, w: usize, h: usize) -> (r:
    bool)
    requires
        im@.len() == ww * hh,
        x + w <= ww,
        y + h <= hh,
    ensures
        r == has_ink(im@, ww as int, rect(x as int, y as int, w as int, h as int)),
{
    let ghost area = rect(x as int, y as int, w as int, h as int);
    let mut i: usize = y;
    while i < y + h
        invariant
            y <= i <= y + h,
            area == rect(x as int, y as int, w as int, h as int),
            im@.len() == ww * hh,
            x + w <= ww,
            y + h <= hh,
            forall|p: int, q: int| area.contains(p, q) && p < i ==> #[trigger] px(im@, ww as int, p, q) == 0,
        decreases y + h - i,
    {
        let mut j: usize = x;
        while j < x + w
            invariant
                y <= i < y + h,
                x <= j <= x + w,
                area == rect(x as int, y as int, w as int, h as int),
                im@.len() == ww * hh,
                x + w <= ww,
                y + h <= hh,
                forall|p: int, q: int|
                    area.contains(p, q) && (p < i || (p == i && q < j)) ==> #[trigger] px(
                        im@,
                        ww as int,
                        p,
                        q,
                    ) == 0,
            decreases x + w - j,
        {
            proof {
                assert(im@.len() == im.len());
                lemma_pixel_index(ww as int, hh as int, i as int, j as int);
            }
            if im[i * ww + j] != 0 {
                assert(area.contains(i as int, j as int) && px(im@, ww as int, i as int, j as int) != 0);
                return true;
            }
            j = j + 1;
        }
        i = i + 1;
    }
    false
}

/// The four pixels where rows `i - 1` and `i` meet the left and the right
/// edge of the chunk are background, so that a cut above row `i` severs no
/// stroke that runs along the border.
pub open spec fn row_clear(im: Seq<u8>, ww: int, r: Rect, i: int) -> bool {
    &&& px(im, ww, i, r.x) == 0
    &&& px(im, ww, i - 1, r.x) == 0
    &&& px(im, ww, i, r.x + r.w - 1) == 0
    &&& px(im, ww, i - 1, r.x + r.w - 1) == 0
}

/// The four pixels where columns `j - 1` and `j` meet the top and the
/// bottom edge of the chunk are background.
pub open spec fn col_clear(im: Seq<u8>, ww: int, r: Rect, j: int) -> bool {
    &&& px(im, ww, r.y, j) == 0
    &&& px(im, ww, r.y + r.h - 1, j) == 0
    &&& px(im, ww, r.y, j - 1) == 0
    &&& px(im, ww, r.y + r.h - 1, j - 1) == 0
}

/// The sum of the bytes in rows `i - 1` and `i` over the first `n` columns
/// of the chunk.
pub open spec fn row_score(im: Seq<u8>, ww: int, r: Rect, i: int, n: nat) -> int
    decreases n,
{
    if n == 0 {
        0
    } else {
        row_score(im, ww, r, i, (n - 1) as nat) + px(im, ww, i, r.x + n - 1) + px(
            im,
            ww,
            i - 1,
            r.x + n - 1,
        )
    }
}

/// The sum of the bytes in columns `j - 1` and `j` over the first `n` rows
/// of the chunk.
pub open spec fn col_score(im: Seq<u8>, ww: int, r: Rect, j: int, n: nat) -> int
    decreases n,
{
    if n == 0 {
        0
    } else {
        col_score(im, ww, r, j, (n - 1) as nat) + px(im, ww, r.y + n - 1, j) + px(
            im,
            ww,
            r.y + n - 1,
            j - 1,
        )
    }
}

/// The best seam found so far: its score, and the row or the column it
/// runs along.
pub struct Seam {
    pub score: int,
    pub row: Option<int>,
    pub col: Option<int>,
}

/// How far a seam is from the centre line `c`; no seam counts as one that
/// lies at -1.
pub open spec fn off_center(at: Option<int>, c: int) -> int {
    match at {
        Some(v) => dist(v, c),
        None => c + 1,
    }
}

/// The number of rows, or columns, of a chunk of extent `len` that may
/// carry a seam: those that keep three pixels away from both ends.
pub open spec fn seam_range(len: int) -> nat {
    if len > 6 {
        (len - 6) as nat
    } else {
        0
    }
}

/// The best seam after the first `n` candidate rows, from row `y + 3` on. A
/// row displaces the best seam if it is clear and its score is lower, or
/// equal while the row lies nearer to the middle row of the chunk.
pub open spec fn scan_rows(im: Seq<u8>, ww: int, r: Rect, start: Seam, n: nat) -> Seam
    decreases n,
{
    if n == 0 {
        start
    } else {
        let s = scan_rows(im, ww, r, start, (n - 1) as nat);
        let i = r.y + 3 + (n - 1);
        let v = row_score(im, ww, r, i, r.w as nat);
        let mid = r.y + r.h / 2;
        if row_clear(im, ww, r, i) && (v < s.score || (v == s.score && dist(i, mid) < off_center(
            s.row,
            mid,
        ))) {
            Seam { score: v, row: Some(i), col: s.col }
        } else {
            s
        }
    }
}

/// The best seam after the first `n` candidate columns, from column `x + 3`
/// on. A column displaces the best seam, be it a row or a column, if it is
/// clear and its score is lower, or equal while the column lies nearer to
/// the middle column of the chunk than the best column so far.
pub open spec fn scan_cols(im: Seq<u8>, ww: int, r: Rect, start: Seam, n: nat) -> Seam
    decreases n,
{
    if n == 0 {
        start
    } else {
        let s = scan_cols(im, ww, r, start, (n - 1) as nat);
        let j = r.x + 3 + (n - 1);
        let v = col_score(im, ww, r, j, r.h as nat);
        let mid = r.x + r.w / 2;
        if col_clear(im, ww, r, j) && (v < s.score || (v == s.score && dist(j, mid) < off_center(
            s.col,
            mid,
        ))) {
            Seam { score: v, row: None, col: Some(j) }
        } else {
            s
        }
    }
}

/// The seam along which a chunk is cut. The search starts from the bound
/// `ww + hh`, which no seam may reach, looks at the rows if the chunk is
/// higher than `cs`, and then at the columns if it is wider than `cs`.
pub open spec fn best_seam(im: Seq<u8>, ww: int, hh: int, r: Rect, cs: int) -> Seam {
    let none = Seam { score: ww + hh, row: None, col: None };
    let rows = if r.h > cs {
        scan_rows(im, ww, r, none, seam_range(r.h))
    } else {
        none
    };
    if r.w > cs {
        scan_cols(im, ww, r, rows, seam_range(r.w))
    } else {
        rows
    }
}

/// The part of the chunk above row `i`.
pub open spec fn above(r: Rect, i: int) -> Rect {
    rect(r.x, r.y, r.w, i - r.y)
}

/// The part of the chunk from row `i` down.
pub open spec fn below(r: Rect, i: int) -> Rect {
    rect(r.x, i, r.w, r.y + r.h - i)
}

/// The part of the chunk left of column `j`.
pub open spec fn left_of(r: Rect, j: int) -> Rect {
    rect(r.x, r.y, j - r.x, r.h)
}

/// The part of the chunk from column `j` to the right.
pub open spec fn right_of(r: Rect, j: int) -> Rect {
    rect(j, r.y, r.x + r.w - j, r.h)
}

/// The fragments of a chunk of the image, with chunks of up to `cs` by `cs`
/// pixels as leaves and at most `depth` levels of cuts. With no depth left,
/// and in a chunk without pixels, there are no fragments. A chunk that fits
/// into a leaf, or that has no seam, gets the fragments of the leaf.
/// Otherwise the chunk is cut along its best seam, each part that holds ink
/// is traced with one level less, and the fragments of the second part are
/// merged into those of the first.
pub open spec fn trace(im: Seq<u8>, ww: int, hh: int, r: Rect, cs: int, depth: nat) -> Seq<
    Polyline,
>
    decreases depth,
{
    if depth == 0 || r.w <= 0 || r.h <= 0 {
        Seq::empty()
    } else if r.w <= cs && r.h <= cs {
        chunk_lines(im, ww, r)
    } else {
        let s = best_seam(im, ww, hh, r, cs);
        match (s.row, s.col) {
            (Some(i), _) => {
                let a = if has_ink(im, ww, above(r, i)) {
                    trace(im, ww, hh, above(r, i), cs, (depth - 1) as nat)
                } else {
                    Seq::empty()
                };
                let b = if has_ink(im, ww, below(r, i)) {
                    trace(im, ww, hh, below(r, i), cs, (depth - 1) as nat)
                } else {
                    Seq::empty()
                };
                merged(a, b, i, VERTICAL)
            },
            (None, Some(j)) => {
                let a = if has_ink(im, ww, left_of(r, j)) {
                    trace(im, ww, hh, left_of(r, j), cs, (depth - 1) as nat)
                } else {
                    Seq::empty()
                };
                let b = if has_ink(im, ww, right_of(r, j)) {
                    trace(im, ww, hh, right_of(r, j), cs, (depth - 1) as nat)
                } else {
                    Seq::empty()
                };
                merged(a, b, j, HORIZONTAL)
            },
            (None, None) => chunk_lines(im, ww, r),
        }
    }
}

/// A seam that the search over the rows finds keeps three pixels away from
/// the top and the bottom of the chunk, and its score does not exceed the
/// bound that the search started from.
pub proof fn lemma_scan_rows(im: Seq<u8>, ww: int, r: Rect, start: Seam, n: nat)
    requires
        n <= seam_range(r.h),
        start.row is None,
    ensures
        ({
            let s = scan_rows(im, ww, r, start, n);
            &&& s.col == start.col
            &&& s.score <= start.score
            &&& s.row is None ==> s == start
            &&& s.row matches Some(i) ==> r.y + 3 <= i < r.y + r.h - 3
        }),
    decreases n,
{
    if n > 0 {
        lemma_scan_rows(im, ww, r, start, (n - 1) as nat);
    }
}

/// A seam that the search over the columns finds keeps three pixels away
/// from the left and the right of the chunk; where it finds none, the seam
/// that the search started from stands.
pub proof fn lemma_scan_cols(im: Seq<u8>, ww: int, r: Rect, start: Seam, n: nat)
    requires
        n <= seam_range(r.w),
        start.col is None,
    ensures
        ({
            let s = scan_cols(im, ww, r, start, n);
            &&& s.score <= start.score
            &&& s.col is None ==> s == start
            &&& s.col matches Some(j) ==> r.x + 3 <= j < r.x + r.w - 3 && s.row is None
        }),
    decreases n,
{
    if n > 0 {
        lemma_scan_cols(im, ww, r, start, (n - 1) as nat);
    }
}

/// Merging with an empty list of fragments changes nothing.
pub proof fn lemma_merged_empty(a: Seq<Polyline>, sx: int, dr: u8)
    ensures
        merged(Seq::empty(), a, sx, dr) == a,
        merged(a, Seq::empty(), sx, dr) == a,
{
    let e = Seq::<Polyline>::empty();
    assert(offer_down(a, e, sx, dr == VERTICAL, 0) == (a, e));
    assert(a + e =~= a);
}

/// The rows and columns of a chunk as executable code sees them.
pub open spec fn seam_of(ms: usize, mi: Option<usize>, mj: Option<usize>) -> Seam {
    Seam {
        score: ms as int,
        row: match mi {
            Some(v) => Some(v as int),
            None => None,
        },
        col: match mj {
            Some(v) => Some(v as int),
            None => None,
        },
    }
}

/// How far a seam is from the centre line `c`.
fn off_center_of(at: Option<usize>, c: usize) -> (d: usize)
    requires
        c < usize::MAX,
    ensures
        d == off_center(
            match at {
                Some(v) => Some(v as int),
                None => None,
            },
            c as int,
        ),
{
    match at {
        Some(v) => dist_of(v, c),
        None => c + 1,
    }
}

/// Tells whether a cut above row `i` is clear at both edges of the chunk.
fn row_is_clear(
    im: &[u8],
    ww: usize,
    hh: usize,
    x: usize,
    w: usize,
    i: usize,
    Ghost(r): Ghost<Rect>,
) -> (c: bool)
    requires
        im@.len() == ww * hh,
        x + w <= ww,
        w >= 1,
        1 <= i < hh,
        r.x == x,
        r.w == w,
    ensures
        c == row_clear(im@, ww as int, r, i as int),
{
    proof {
        assert(im@.len() == im.len());
        lemma_pixel_index(ww as int, hh as int, i as int, x as int);
        lemma_pixel_index(ww as int, hh as int, i - 1, x as int);
        lemma_pixel_index(ww as int, hh as int, i as int, x + w - 1);
        lemma_pixel_index(ww as int, hh as int, i - 1, x + w - 1);
    }
    im[i * ww + x] == 0 && im[(i - 1) * ww + x] == 0 && im[i * ww + x + w - 1] == 0 && im[(i - 1)
        * ww + x + w - 1] == 0
}

/// Tells whether a cut left of column `j` is clear at both edges of the
/// chunk.
fn col_is_clear(
    im: &[u8],
    ww: usize,
    hh: usize,
    y: usize,
    h: usize,
    j: usize,
    Ghost(r): Ghost<Rect>,
) -> (c: bool)
    requires
        im@.len() == ww * hh,
        y + h <= hh,
        h >= 1,
        1 <= j < ww,
        r.y == y,
        r.h == h,
    ensures
        c == col_clear(im@, ww as int, r, j as int),
{
    proof {
        assert(im@.len() == im.len());
        lemma_pixel_index(ww as int, hh as int, y as int, j as int);
        lemma_pixel_index(ww as int, hh as int, y as int, j - 1);
        lemma_pixel_index(ww as int, hh as int, y + h - 1, j as int);
        lemma_pixel_index(ww as int, hh as int, y + h - 1, j - 1);
    }
    im[y * ww + j] == 0 && im[(y + h - 1) * ww + j] == 0 && im[y * ww + j - 1] == 0 && im[(y + h
        - 1) * ww + j - 1] == 0
}

/// Sums the bytes of rows `i - 1` and `i` over the columns of the chunk.
fn row_score_of(
    im: &[u8],
    ww: usize,
    hh: usize,
    x: usize,
    w: usize,
    i: usize,
    Ghost(r): Ghost<Rect>,
) -> (s: usize)
    requires
        im@.len() == ww * hh,
        all_binary(im@),
        x + w <= ww,
        1 <= i < hh,
        r.x == x,
        r.w == w,
    ensures
        s == row_score(im@, ww as int, r, i as int, w as nat),
        s <= 2 * w,
{
    proof {
        assert(im@.len() == im.len());
        assert(2 * ww <= ww * hh) by (nonlinear_arith)
            requires
                2 <= hh,
                0 <= ww,
        ;
    }
    let mut s: usize = 0;
    let mut n: usize = 0;
    while n < w
        invariant
            n <= w,
            r.x == x,
            im@.len() == ww * hh,
            all_binary(im@),
            x + w <= ww,
            1 <= i < hh,
            2 * ww <= usize::MAX,
            ww * hh <= usize::MAX,
            s == row_score(im@, ww as int, r, i as int, n as nat),
            s <= 2 * n,
        decreases w - n,
    {
        proof {
            lemma_pixel_index(ww as int, hh as int, i as int, x + n);
            lemma_pixel_index(ww as int, hh as int, i - 1, x + n);
        }
        let a: u8 = im[i * ww + x + n];
        let b: u8 = im[(i - 1) * ww + x + n];
        assert(is_binary(a) && is_binary(b));
        s = s + a as usize;
        s = s + b as usize;
        n = n + 1;
    }
    s
}

/// Sums the bytes of columns `j - 1` and `j` over the rows of the chunk.
fn col_score_of(
    im: &[u8],
    ww: usize,
    hh: usize,
    y: usize,
    h: usize,
    j: usize,
    Ghost(r): Ghost<Rect>,
) -> (s: usize)
    requires
        im@.len() == ww * hh,
        all_binary(im@),
        y + h <= hh,
        1 <= j < ww,
        r.y == y,
        r.h == h,
    ensures
        s == col_score(im@, ww as int, r, j as int, h as nat),
        s <= 2 * h,
{
    proof {
        assert(im@.len() == im.len());
        assert(2 * hh <= ww * hh) by (nonlinear_arith)
            requires
                2 <= ww,
                0 <= hh,
        ;
    }
    let mut s: usize = 0;
    let mut n: usize = 0;
    while n < h
        invariant
            n <= h,
            r.y == y,
            im@.len() == ww * hh,
            all_binary(im@),
            y + h <= hh,
            1 <= j < ww,
            2 * hh <= usize::MAX,
            ww * hh <= usize::MAX,
            s == col_score(im@, ww as int, r, j as int, n as nat),
            s <= 2 * n,
        decreases h - n,
    {
        proof {
            lemma_pixel_index(ww as int, hh as int, y + n, j as int);
            lemma_pixel_index(ww as int, hh as int, y + n, j - 1);
        }
        let a: u8 = im[(y + n) * ww + j];
        let b: u8 = im[(y + n) * ww + j - 1];
        assert(is_binary(a) && is_binary(b));
        s = s + a as usize;
        s = s + b as usize;
        n = n + 1;
    }
    s
}

/// Searches the rows and then the columns of a chunk for the seam to cut
/// along. The result is the score of the best seam and its row or column.
fn find_seam(
    im: &[u8],
    ww: usize,
    hh: usize,
    x: usize,
    y: usize,
    w: usize,
    h: usize,
    chunk_size: usize,
) -> (r: (usize, Option<usize>, Option<usize>))
    requires
        im@.len() == ww * hh,
        all_binary(im@),
        x + w <= ww,
        y + h <= hh,
        w >= 1,
        h >= 1,
        chunk_size >= 3,
        ww + hh <= usize::MAX,
    ensures
        seam_of(r.0, r.1, r.2) == best_seam(
            im@,
            ww as int,
            hh as int,
            rect(x as int, y as int, w as int, h as int),
            chunk_size as int,
        ),
{
    let ghost area = rect(x as int, y as int, w as int, h as int);
    let ghost none = Seam { score: ww + hh, row: None, col: None };
    let mut ms: usize = ww + hh;
    let mut mi: Option<usize> = None;
    let mut mj: Option<usize> = None;
    if h > chunk_size {
        let rows: usize = if h > 6 {
            h - 6
        } else {
            0
        };
        let mid: usize = y + h / 2;
        let mut n: usize = 0;
        while n < rows
            invariant
                n <= rows,
                rows == seam_range(h as int),
                area == rect(x as int, y as int, w as int, h as int),
                none == (Seam { score: ww + hh, row: None, col: None }),
                im@.len() == ww * hh,
                all_binary(im@),
                x + w <= ww,
                y + h <= hh,
                w >= 1,
                mid == y + h / 2,
                mj is None,
                seam_of(ms, mi, mj) == scan_rows(im@, ww as int, area, none, n as nat),
            decreases rows - n,
        {
            let i: usize = y + 3 + n;
            if row_is_clear(im, ww, hh, x, w, i, Ghost(area)) {
                let v: usize = row_score_of(im, ww, hh, x, w, i, Ghost(area));
                if v < ms || (v == ms && dist_of(i, mid) < off_center_of(mi, mid)) {
                    ms = v;
                    mi = Some(i);
                }
            }
            n = n + 1;
        }
    }
    let ghost after_rows = seam_of(ms, mi, mj);
    if w > chunk_size {
        let cols: usize = if w > 6 {
            w - 6
        } else {
            0
        };
        let mid: usize = x + w / 2;
        let mut n: usize = 0;
        while n < cols
            invariant
                n <= cols,
                cols == seam_range(w as int),
                area == rect(x as int, y as int, w as int, h as int),
                im@.len() == ww * hh,
                all_binary(im@),
                x + w <= ww,
                y + h <= hh,
                h >= 1,
                mid == x + w / 2,
                seam_of(ms, mi, mj) == scan_cols(im@, ww as int, area, after_rows, n as nat),
            decreases cols - n,
        {
            let j: usize = x + 3 + n;
            if col_is_clear(im, ww, hh, y, h, j, Ghost(area)) {
                let v: usize = col_score_of(im, ww, hh, y, h, j, Ghost(area));
                if v < ms || (v == ms && dist_of(j, mid) < off_center_of(mj, mid)) {
                    ms = v;
                    mi = None;
                    mj = Some(j);
                }
            }
            n = n + 1;
        }
    }
    (ms, mi, mj)
}

/// Traces the chunk that is `w` pixels wide and `h` pixels high and has
/// its top-left pixel at column `x`, row `y` of a thinned image of `ww` by
/// `hh` pixels. Chunks of up to `chunk_size` by `chunk_size` pixels are
/// leaves, and `max_iter` bounds the number of nested cuts. Every fragment
/// that comes back has at least two points, and a chunk without ink gives no
/// fragment. The bytes of the image are all 0 or 1, the chunk lies inside
/// the image, a leaf is at least three pixels wide, and `ww + hh`, the bound
/// that the seam search starts from, fits into a machine word.
pub fn trace_skeleton(
    im: &[u8],
    ww: usize,
    hh: usize,
    x: usize,
    y: usize,
    w: usize,
    h: usize,
    chunk_size: usize,
    max_iter: usize,
) -> (frags: Vec<Vec<[usize; 2]>>)
    requires
        im@.len() == ww * hh,
        all_binary(im@),
        x + w <= ww,
        y + h <= hh,
        chunk_size >= 3,
        ww + hh <= usize::MAX,
    ensures
        lines_of(frags@) == trace(
            im@,
            ww as int,
            hh as int,
            rect(x as int, y as int, w as int, h as int),
            chunk_size as int,
            max_iter as nat,
        ),
        proper(lines_of(frags@)),
        !has_ink(im@, ww as int, rect(x as int, y as int, w as int, h as int)) ==> frags@.len()
            == 0,
    decreases max_iter,
{
    let ghost area = rect(x as int, y as int, w as int, h as int);
    proof {
        if !has_ink(im@, ww as int, area) {
            crate::laws::law_blank_chunk_has_no_fragments(
                im@,
                ww as int,
                hh as int,
                area,
                chunk_size as int,
                max_iter as nat,
            );
        }
    }
    let mut frags: Vec<Vec<[usize; 2]>> = Vec::new();
    if max_iter == 0 || w == 0 || h == 0 {
        assert(lines_of(frags@) =~= Seq::empty());
        return frags;
    }
    if w <= chunk_size && h <= chunk_size {
        return chunk_to_frags(im, ww, hh, x, y, w, h);
    }
    let seam: (usize, Option<usize>, Option<usize>) = find_seam(im, ww, hh, x, y, w, h, chunk_size);
    let ghost none = Seam { score: ww + hh, row: None, col: None };
    proof {
        let rows = if h > chunk_size {
            scan_rows(im@, ww as int, area, none, seam_range(h as int))
        } else {
            none
        };
        if h > chunk_size {
            lemma_scan_rows(im@, ww as int, area, none, seam_range(h as int));
        }
        if w > chunk_size {
            lemma_scan_cols(im@, ww as int, area, rows, seam_range(w as int));
        }
        assert(lines_of(frags@) =~= Seq::empty());
    }
    match seam.1 {
        Some(i) => {
            if not_empty(im, ww, hh, x, y, w, i - y) {
                let mut part: Vec<Vec<[usize; 2]>> = trace_skeleton(
                    im,
                    ww,
                    hh,
                    x,
                    y,
                    w,
                    i - y,
                    chunk_size,
                    max_iter - 1,
                );
                proof {
                    lemma_merged_empty(lines_of(part@), i as int, VERTICAL);
                }
                merge_frags(&mut frags, &mut part, i, VERTICAL);
            }
            let ghost first = lines_of(frags@);
            if not_empty(im, ww, hh, x, i, w, y + h - i) {
                let mut part: Vec<Vec<[usize; 2]>> = trace_skeleton(
                    im,
                    ww,
                    hh,
                    x,
                    i,
                    w,
                    y + h - i,
                    chunk_size,
                    max_iter - 1,
                );
                merge_frags(&mut frags, &mut part, i, VERTICAL);
            } else {
                proof {
                    lemma_merged_empty(first, i as int, VERTICAL);
                }
            }
            frags
        },
        None => {
            match seam.2 {
                Some(j) => {
                    if not_empty(im, ww, hh, x, y, j - x, h) {
                        let mut part: Vec<Vec<[usize; 2]>> = trace_skeleton(
                            im,
                            ww,
                            hh,
                            x,
                            y,
                            j - x,
                            h,
                            chunk_size,
                            max_iter - 1,
                        );
                        proof {
                            lemma_merged_empty(lines_of(part@), j as int, HORIZONTAL);
                        }
                        merge_frags(&mut frags, &mut part, j, HORIZONTAL);
                    }
                    let ghost first = lines_of(frags@);
                    if not_empty(im, ww, hh, j, y, x + w - j, h) {
                        let mut part: Vec<Vec<[usize; 2]>> = trace_skeleton(
                            im,
                            ww,
                            hh,
                            j,
                            y,
                            x + w - j,
                            h,
                            chunk_size,
                            max_iter - 1,
                        );
                        merge_frags(&mut frags, &mut part, j, HORIZONTAL);
                    } else {
                        proof {
                            lemma_merged_empty(first, j as int, HORIZONTAL);
                        }
                    }
                    frags
                },
                None => chunk_to_frags(im, ww, hh, x, y, w, h),
            }
        },
    }
}

} // verus!
