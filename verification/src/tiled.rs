//! Thinning tile by tile.
//!
//! The image is cut into a grid of fixed-size tiles, each with a flag that
//! records whether the last marking pass that visited the tile set a new
//! marker in it. A marking pass skips a tile when neither the tile nor one
//! of its four neighbours carries the flag: nothing near it has changed, so
//! it holds nothing to mark. The markers are then applied in every flagged
//! tile. The run ends with the first marking pass that sets no new marker.

use vstd::prelude::*;
use vstd::arithmetic::div_mod::{lemma_div_plus_one, lemma_fundamental_div_mod, lemma_mod_bound};
use crate::pixel::{all_binary, committed, foreground, is_binary, lemma_codec, marked, marker};
use crate::thin::{
    ink_count, ink_within, lemma_candidate_is_ink, lemma_ink_monotone, lemma_ink_shrinks,
    lemma_quiet_window,
};
use crate::window::{
    candidate, commit_window, interior, lemma_index_pixel, lemma_pixel_index, mark_window, rect,
    thinning_zs_iteration, thinning_zs_post, window_changes, Rect,
};

verus! {

/// An image of `w` by `h` pixels cut into tiles of `tw` by `th` pixels; the
/// tiles in the last column and the last row may be smaller.
pub struct Grid {
    pub w: int,
    pub h: int,
    pub tw: int,
    pub th: int,
}

/// The grid of tiles of `tw` by `th` pixels over an image of `w` by `h`.
pub open spec fn grid(w: int, h: int, tw: int, th: int) -> Grid {
    Grid { w, h, tw, th }
}

/// The number of pieces of length `piece` that it takes to cover `len`.
pub open spec fn pieces(len: int, piece: int) -> int {
    (len + piece - 1) / piece
}

/// The smaller of two numbers.
pub open spec fn least(a: int, b: int) -> int {
    if a <= b {
        a
    } else {
        b
    }
}

impl Grid {
    /// The image has a size and the tiles are not empty.
    pub open spec fn wf(self) -> bool {
        0 <= self.w && 0 <= self.h && 0 < self.tw && 0 < self.th
    }

    /// The number of tiles in a row of the grid.
    pub open spec fn cols(self) -> int {
        pieces(self.w, self.tw)
    }

    /// The number of rows of the grid.
    pub open spec fn rows(self) -> int {
        pieces(self.h, self.th)
    }

    /// The number of tiles. Tile `t` stands in row `t / cols`, column
    /// `t % cols` of the grid.
    pub open spec fn tiles(self) -> int {
        self.cols() * self.rows()
    }

    /// The pixels of tile `t`.
    pub open spec fn window(self, t: int) -> Rect {
        let x = (t % self.cols()) * self.tw;
        let y = (t / self.cols()) * self.th;
        rect(x, y, least(self.tw, self.w - x), least(self.th, self.h - y))
    }
}

/// Neither tile `t` nor one of its neighbours to the west, north, east and
/// south carries a flag.
pub open spec fn quiet(flags: Seq<bool>, g: Grid, t: int) -> bool {
    let tx = t % g.cols();
    let ty = t / g.cols();
    &&& !flags[t]
    &&& (tx == 0 || !flags[t - 1])
    &&& (ty == 0 || !flags[t - g.cols()])
    &&& (tx == g.cols() - 1 || !flags[t + 1])
    &&& (ty == g.rows() - 1 || !flags[t + g.cols()])
}

/// An image, the flags of its tiles, and whether a marker has been newly set.
pub struct Pass {
    pub im: Seq<u8>,
    pub flags: Seq<bool>,
    pub diff: bool,
}

/// The state after a marking pass of sub-iteration `sub` has dealt with the
/// first `n` tiles, in row-major order. A quiet tile is skipped and keeps its
/// flag. Any other tile is marked as a window of its own, and its flag then
/// tells whether that set a new marker. The flags are updated on the way, so
/// a tile sees the new flags of its western and northern neighbours and the
/// old flags of the eastern and southern ones.
pub open spec fn mark_pass(im: Seq<u8>, flags: Seq<bool>, g: Grid, sub: int, n: nat) -> Pass
    decreases n,
{
    if n == 0 {
        Pass { im, flags, diff: false }
    } else {
        let s = mark_pass(im, flags, g, sub, (n - 1) as nat);
        let t = n - 1;
        if quiet(s.flags, g, t) {
            s
        } else {
            let d = window_changes(s.im, g.window(t), g.w, g.h, sub);
            Pass {
                im: mark_window(s.im, g.window(t), g.w, g.h, sub),
                flags: s.flags.update(t, d),
                diff: s.diff || d,
            }
        }
    }
}

/// The image after the markers have been applied in those of the first `n`
/// tiles that carry a flag.
pub open spec fn commit_pass(im: Seq<u8>, flags: Seq<bool>, g: Grid, n: nat) -> Seq<u8>
    decreases n,
{
    if n == 0 {
        im
    } else {
        let a = commit_pass(im, flags, g, (n - 1) as nat);
        if flags[n - 1] {
            commit_window(a, g.window(n - 1), g.w)
        } else {
            a
        }
    }
}

/// Pixel `k` lies in one of the first `n` tiles, and that tile carries a flag.
pub open spec fn covered(flags: Seq<bool>, g: Grid, n: nat, k: int) -> bool {
    exists|t: int| 0 <= t < n && #[trigger] flags[t] && g.window(t).contains(k / g.w, k % g.w)
}

/// What a marking pass does to an image: it keeps the size, sets markers and
/// touches nothing else, and every byte that it changes lies off the border
/// of the image, in a tile that is flagged afterwards. If it reports a new marker, that marker sits on an
/// ink pixel of a flagged tile; if it reports none, the image is unchanged.
pub proof fn lemma_mark_pass(im: Seq<u8>, flags: Seq<bool>, g: Grid, sub: int, n: nat)
    requires
        n <= flags.len(),
    ensures
        ({
            let s = mark_pass(im, flags, g, sub, n);
            &&& s.im.len() == im.len()
            &&& s.flags.len() == flags.len()
            &&& forall|k: int|
                0 <= k < im.len() ==> #[trigger] s.im[k] == im[k] || s.im[k] == marked(im[k])
            &&& forall|k: int|
                0 <= k < im.len() && #[trigger] s.im[k] != im[k] ==> covered(s.flags, g, n, k)
                    && interior(g.w, g.h, k / g.w, k % g.w)
            &&& s.diff ==> exists|k: int|
                0 <= k < im.len() && foreground(im[k]) == 1 && marker(#[trigger] s.im[k]) == 1
                    && covered(s.flags, g, n, k)
            &&& !s.diff ==> s.im == im
            &&& forall|t: int| n <= t < flags.len() ==> #[trigger] s.flags[t] == flags[t]
        }),
    decreases n,
{
    if n > 0 {
        let p = mark_pass(im, flags, g, sub, (n - 1) as nat);
        let s = mark_pass(im, flags, g, sub, n);
        let t = n - 1;
        lemma_mark_pass(im, flags, g, sub, (n - 1) as nat);
        assert forall|k: int| 0 <= k < im.len() && covered(p.flags, g, (n - 1) as nat, k) implies covered(
            s.flags,
            g,
            n,
            k,
        ) by {
            let u = choose|u: int|
                0 <= u < n - 1 && #[trigger] p.flags[u] && g.window(u).contains(k / g.w, k % g.w);
            assert(s.flags[u]);
        }
        if quiet(p.flags, g, t) {
            if s.diff {
                let k = choose|k: int|
                    0 <= k < im.len() && foreground(im[k]) == 1 && marker(#[trigger] p.im[k]) == 1
                        && covered(p.flags, g, (n - 1) as nat, k);
                assert(marker(s.im[k]) == 1);
            }
        } else {
            let win = g.window(t);
            let d = window_changes(p.im, win, g.w, g.h, sub);
            assert forall|k: int| 0 <= k < im.len() implies (#[trigger] s.im[k] == im[k] || s.im[k]
                == marked(im[k])) && (s.im[k] != im[k] ==> covered(s.flags, g, n, k) && interior(
                g.w,
                g.h,
                k / g.w,
                k % g.w,
            )) by {
                lemma_codec(im[k]);
                lemma_codec(p.im[k]);
                if s.im[k] != im[k] {
                    if p.im[k] != im[k] {
                        assert(covered(p.flags, g, (n - 1) as nat, k));
                    } else {
                        assert(candidate(p.im, win, g.w, g.h, sub, k));
                        assert(marker(p.im[k]) == 0);
                        lemma_candidate_is_ink(p.im, win, g.w, g.h, sub, k);
                        assert(d);
                        assert(s.flags[t]);
                    }
                }
            }
            if d {
                let k = choose|k: int|
                    0 <= k < p.im.len() && #[trigger] candidate(p.im, win, g.w, g.h, sub, k)
                        && marker(p.im[k]) == 0;
                lemma_candidate_is_ink(p.im, win, g.w, g.h, sub, k);
                lemma_codec(im[k]);
                lemma_codec(p.im[k]);
                assert(s.flags[t]);
                assert(covered(s.flags, g, n, k));
                assert(marker(s.im[k]) == 1);
            } else {
                lemma_quiet_window(p.im, win, g.w, g.h, sub);
                if p.diff {
                    let k = choose|k: int|
                        0 <= k < im.len() && foreground(im[k]) == 1 && marker(#[trigger] p.im[k])
                            == 1 && covered(p.flags, g, (n - 1) as nat, k);
                    assert(marker(s.im[k]) == 1);
                }
            }
        }
    }
}

/// What applying the markers tile by tile does to an image: it keeps the
/// size, every byte is either untouched or has its marker applied, and in a
/// flagged tile it is the latter.
pub proof fn lemma_commit_pass(im: Seq<u8>, flags: Seq<bool>, g: Grid, n: nat)
    ensures
        ({
            let c = commit_pass(im, flags, g, n);
            &&& c.len() == im.len()
            &&& forall|k: int|
                0 <= k < im.len() ==> #[trigger] c[k] == im[k] || c[k] == committed(im[k])
            &&& forall|k: int|
                0 <= k < im.len() && covered(flags, g, n, k) ==> #[trigger] c[k] == committed(
                    im[k],
                )
        }),
    decreases n,
{
    if n > 0 {
        let p = commit_pass(im, flags, g, (n - 1) as nat);
        let c = commit_pass(im, flags, g, n);
        lemma_commit_pass(im, flags, g, (n - 1) as nat);
        assert forall|k: int| 0 <= k < im.len() implies (#[trigger] c[k] == im[k] || c[k]
            == committed(im[k])) && (covered(flags, g, n, k) ==> c[k] == committed(im[k])) by {
            lemma_codec(im[k]);
            if covered(flags, g, n, k) {
                let u = choose|u: int|
                    0 <= u < n && #[trigger] flags[u] && g.window(u).contains(k / g.w, k % g.w);
                if u < n - 1 {
                    assert(covered(flags, g, (n - 1) as nat, k));
                }
            }
        }
    }
}

/// The image after a marking pass over all tiles and the pass that applies
/// its markers.
pub open spec fn round_image(im: Seq<u8>, flags: Seq<bool>, g: Grid, sub: int) -> Seq<u8> {
    let m = mark_pass(im, flags, g, sub, g.tiles() as nat);
    commit_pass(m.im, m.flags, g, g.tiles() as nat)
}

/// The flags after a marking pass over all tiles.
pub open spec fn round_flags(im: Seq<u8>, flags: Seq<bool>, g: Grid, sub: int) -> Seq<bool> {
    mark_pass(im, flags, g, sub, g.tiles() as nat).flags
}

/// A marking pass over all tiles sets a new marker.
pub open spec fn round_changes(im: Seq<u8>, flags: Seq<bool>, g: Grid, sub: int) -> bool {
    mark_pass(im, flags, g, sub, g.tiles() as nat).diff
}

/// Every byte of `b` is the byte of `a`, or it is 0 or 1.
pub open spec fn kept_or_binary(b: Seq<u8>, a: Seq<u8>) -> bool {
    &&& b.len() == a.len()
    &&& forall|k: int| 0 <= k < a.len() ==> #[trigger] b[k] == a[k] || is_binary(b[k])
}

/// Marking and applying adds no ink, and every byte that it changes is 0 or
/// 1 afterwards, so that a binary image stays binary; where the marking pass
/// sets a new marker, ink is lost.
pub proof fn lemma_round(im: Seq<u8>, flags: Seq<bool>, g: Grid, sub: int)
    requires
        flags.len() == g.tiles(),
    ensures
        ink_within(round_image(im, flags, g, sub), im),
        round_flags(im, flags, g, sub).len() == flags.len(),
        kept_or_binary(round_image(im, flags, g, sub), im),
        all_binary(im) ==> all_binary(round_image(im, flags, g, sub)),
        round_changes(im, flags, g, sub) ==> ink_count(round_image(im, flags, g, sub)) < ink_count(
            im,
        ),
        !round_changes(im, flags, g, sub) ==> mark_pass(im, flags, g, sub, g.tiles() as nat).im
            == im,
{
    let n = g.tiles() as nat;
    let m = mark_pass(im, flags, g, sub, n);
    let c = commit_pass(m.im, m.flags, g, n);
    lemma_mark_pass(im, flags, g, sub, n);
    lemma_commit_pass(m.im, m.flags, g, n);
    assert forall|k: int| 0 <= k < im.len() implies foreground(#[trigger] c[k]) <= foreground(
        im[k],
    ) by {
        lemma_codec(im[k]);
        lemma_codec(m.im[k]);
        lemma_codec(committed(m.im[k]));
        assert(m.im[k] == im[k] || m.im[k] == marked(im[k]));
        assert(c[k] == m.im[k] || c[k] == committed(m.im[k]));
    }
    assert forall|k: int| 0 <= k < im.len() implies #[trigger] c[k] == im[k] || is_binary(
        c[k],
    ) by {
        lemma_codec(m.im[k]);
        assert(c[k] == m.im[k] || c[k] == committed(m.im[k]));
        if m.im[k] != im[k] {
            assert(covered(m.flags, g, n, k));
        }
    }
    if all_binary(im) {
        assert forall|k: int| 0 <= k < c.len() implies is_binary(#[trigger] c[k]) by {
            assert(is_binary(im[k]));
            assert(c[k] == im[k] || is_binary(c[k]));
        }
    }
    if m.diff {
        let k = choose|k: int|
            0 <= k < im.len() && foreground(im[k]) == 1 && marker(#[trigger] m.im[k]) == 1
                && covered(m.flags, g, n, k);
        lemma_codec(m.im[k]);
        assert(c[k] == committed(m.im[k]));
        assert(foreground(0u8) == 0) by (bit_vector);
        lemma_ink_shrinks(im, c, k);
    }
}

/// The image that the tiled run arrives at from an image and the flags of
/// its tiles. Sub-iteration 0 marks; if that sets no new marker the run ends
/// with the image as it is. Otherwise the markers are applied and
/// sub-iteration 1 marks; if that sets no new marker the run ends, otherwise
/// its markers are applied and the run starts over with the flags as they
/// are then.
pub open spec fn tiled_run(im: Seq<u8>, flags: Seq<bool>, g: Grid) -> Seq<u8>
    decreases ink_count(im),
    when flags.len() == g.tiles()
    via tiled_run_terminates
{
    if !round_changes(im, flags, g, 0) {
        im
    } else {
        let a = round_image(im, flags, g, 0);
        let fa = round_flags(im, flags, g, 0);
        if !round_changes(a, fa, g, 1) {
            a
        } else {
            tiled_run(round_image(a, fa, g, 1), round_flags(a, fa, g, 1), g)
        }
    }
}

#[via_fn]
proof fn tiled_run_terminates(im: Seq<u8>, flags: Seq<bool>, g: Grid) {
    if round_changes(im, flags, g, 0) {
        let a = round_image(im, flags, g, 0);
        let fa = round_flags(im, flags, g, 0);
        lemma_round(im, flags, g, 0);
        lemma_round(a, fa, g, 1);
        lemma_ink_monotone(a, round_image(a, fa, g, 1));
    }
}

/// The flags with which a run starts: every tile is taken to have changed.
pub open spec fn all_flagged(g: Grid) -> Seq<bool> {
    Seq::new(g.tiles() as nat, |t: int| true)
}

/// The image that tiled thinning arrives at.
pub open spec fn thin_tiled(im: Seq<u8>, w: int, h: int, tw: int, th: int) -> Seq<u8> {
    tiled_run(im, all_flagged(grid(w, h, tw, th)), grid(w, h, tw, th))
}

/// A tiled run adds no ink, and every byte that it changes is 0 or 1
/// afterwards, so that a binary image stays binary.
pub proof fn lemma_tiled_run(im: Seq<u8>, flags: Seq<bool>, g: Grid)
    requires
        flags.len() == g.tiles(),
    ensures
        ink_within(tiled_run(im, flags, g), im),
        kept_or_binary(tiled_run(im, flags, g), im),
        all_binary(im) ==> all_binary(tiled_run(im, flags, g)),
    decreases ink_count(im),
{
    if round_changes(im, flags, g, 0) {
        let a = round_image(im, flags, g, 0);
        let fa = round_flags(im, flags, g, 0);
        lemma_round(im, flags, g, 0);
        lemma_round(a, fa, g, 1);
        if round_changes(a, fa, g, 1) {
            let b = round_image(a, fa, g, 1);
            let fb = round_flags(a, fa, g, 1);
            lemma_ink_monotone(a, b);
            lemma_tiled_run(b, fb, g);
            let r = tiled_run(b, fb, g);
            assert forall|k: int| 0 <= k < im.len() implies foreground(#[trigger] r[k])
                <= foreground(im[k]) by {
                assert(foreground(r[k]) <= foreground(b[k]));
                assert(foreground(b[k]) <= foreground(a[k]));
                assert(foreground(a[k]) <= foreground(im[k]));
            }
            assert forall|k: int| 0 <= k < im.len() implies #[trigger] r[k] == im[k] || is_binary(
                r[k],
            ) by {
                assert(r[k] == b[k] || is_binary(r[k]));
                assert(b[k] == a[k] || is_binary(b[k]));
                assert(a[k] == im[k] || is_binary(a[k]));
            }
        }
    }
    if all_binary(im) {
        let r = tiled_run(im, flags, g);
        assert forall|k: int| 0 <= k < r.len() implies is_binary(#[trigger] r[k]) by {
            assert(is_binary(im[k]));
            assert(r[k] == im[k] || is_binary(r[k]));
        }
    }
}

/// Covering `len` takes at most `len` pieces, and the last piece is needed.
pub proof fn lemma_pieces(len: int, piece: int)
    requires
        0 <= len,
        0 < piece,
    ensures
        0 <= pieces(len, piece) <= len,
        len <= pieces(len, piece) * piece,
        len > 0 ==> (pieces(len, piece) - 1) * piece < len,
        len > 0 ==> pieces(len, piece) == (len - 1) / piece + 1,
{
    let n = pieces(len, piece);
    let x = len + piece - 1;
    lemma_fundamental_div_mod(x, piece);
    lemma_mod_bound(x, piece);
    let r = x % piece;
    assert(x == piece * n + r);
    assert(0 <= n <= len && len <= n * piece && (n - 1) * piece == n * piece - piece) by (nonlinear_arith)
        requires
            0 <= len,
            0 < piece,
            len + piece - 1 == piece * n + r,
            0 <= r < piece,
    ;
    if len > 0 {
        lemma_div_plus_one(len - 1, piece);
    }
}

/// Counts the pieces of length `piece` that it takes to cover `len`.
fn piece_count(len: usize, piece: usize) -> (n: usize)
    requires
        piece > 0,
    ensures
        n == pieces(len as int, piece as int),
{
    proof {
        lemma_pieces(len as int, piece as int);
    }
    if len == 0 {
        0
    } else {
        (len - 1) / piece + 1
    }
}

/// Tells whether tile `t` and its four neighbours are all without a flag.
fn is_quiet(flags: &Vec<bool>, ntx: usize, nty: usize, t: usize, Ghost(g): Ghost<Grid>) -> (q: bool)
    requires
        ntx == g.cols(),
        nty == g.rows(),
        ntx * nty <= usize::MAX,
        flags@.len() == ntx * nty,
        t < flags@.len(),
    ensures
        q == quiet(flags@, g, t as int),
{
    proof {
        lemma_index_pixel(ntx as int, nty as int, t as int);
    }
    let tx: usize = t % ntx;
    let ty: usize = t / ntx;
    proof {
        if ty + 1 < nty {
            lemma_pixel_index(ntx as int, nty as int, ty + 1, tx as int);
            assert((ty + 1) * ntx == ty * ntx + ntx) by (nonlinear_arith);
        }
        if tx + 1 < ntx {
            lemma_pixel_index(ntx as int, nty as int, ty as int, tx + 1);
        }
        if ty > 0 {
            assert((ty - 1) * ntx == ty * ntx - ntx && (ty - 1) * ntx >= 0) by (nonlinear_arith)
                requires
                    ty > 0,
                    ntx >= 0,
            ;
        }
    }
    !flags[t] && (tx == 0 || !flags[t - 1]) && (ty == 0 || !flags[t - ntx]) && (tx == ntx - 1
        || !flags[t + 1]) && (ty == nty - 1 || !flags[t + ntx])
}

/// The window of tile `t`, as column, row, width and height.
fn tile_window(
    width: usize,
    height: usize,
    tile_width: usize,
    tile_height: usize,
    ntx: usize,
    nty: usize,
    t: usize,
    Ghost(g): Ghost<Grid>,
) -> (r: (usize, usize, usize, usize))
    requires
        g == grid(width as int, height as int, tile_width as int, tile_height as int),
        g.wf(),
        ntx == g.cols(),
        nty == g.rows(),
        t < ntx * nty,
    ensures
        g.window(t as int) == rect(r.0 as int, r.1 as int, r.2 as int, r.3 as int),
        r.0 + r.2 <= width,
        r.1 + r.3 <= height,
{
    proof {
        lemma_index_pixel(ntx as int, nty as int, t as int);
        lemma_pieces(width as int, tile_width as int);
        lemma_pieces(height as int, tile_height as int);
    }
    let tx: usize = t % ntx;
    let ty: usize = t / ntx;
    proof {
        assert(0 <= tx * tile_width <= (ntx - 1) * tile_width) by (nonlinear_arith)
            requires
                0 <= tx <= ntx - 1,
                0 < tile_width,
        ;
        assert(0 <= ty * tile_height <= (nty - 1) * tile_height) by (nonlinear_arith)
            requires
                0 <= ty <= nty - 1,
                0 < tile_height,
        ;
    }
    let win_x: usize = tx * tile_width;
    let win_y: usize = ty * tile_height;
    let win_w: usize = if tile_width <= width - win_x {
        tile_width
    } else {
        width - win_x
    };
    let win_h: usize = if tile_height <= height - win_y {
        tile_height
    } else {
        height - win_y
    };
    (win_x, win_y, win_w, win_h)
}

/// Runs one marking pass of sub-iteration `iter` over the tiles that are not
/// quiet, and sets the flag of every tile it visits.
fn mark_tiles(
    im: &mut [u8],
    flags: &mut Vec<bool>,
    width: usize,
    height: usize,
    tile_width: usize,
    tile_height: usize,
    ntx: usize,
    nty: usize,
    iter: i32,
    Ghost(g): Ghost<Grid>,
) -> (diff: bool)
    requires
        g == grid(width as int, height as int, tile_width as int, tile_height as int),
        g.wf(),
        ntx == g.cols(),
        nty == g.rows(),
        ntx * nty <= usize::MAX,
        old(im)@.len() == width * height,
        old(flags)@.len() == g.tiles(),
    ensures
        final(im)@ == mark_pass(old(im)@, old(flags)@, g, iter as int, g.tiles() as nat).im,
        final(flags)@ == round_flags(old(im)@, old(flags)@, g, iter as int),
        diff == round_changes(old(im)@, old(flags)@, g, iter as int),
        final(im)@.len() == old(im)@.len(),
        final(flags)@.len() == old(flags)@.len(),
{
    let ghost im0 = im@;
    let ghost flags0 = flags@;
    let total: usize = ntx * nty;
    let mut diff: bool = false;
    let mut t: usize = 0;
    while t < total
        invariant
            t <= total,
            total == ntx * nty,
            g == grid(width as int, height as int, tile_width as int, tile_height as int),
            g.wf(),
            ntx == g.cols(),
            nty == g.rows(),
            flags0.len() == g.tiles(),
            im@.len() == width * height,
            im0.len() == width * height,
            im@ == mark_pass(im0, flags0, g, iter as int, t as nat).im,
            flags@ == mark_pass(im0, flags0, g, iter as int, t as nat).flags,
            diff == mark_pass(im0, flags0, g, iter as int, t as nat).diff,
        decreases total - t,
    {
        proof {
            lemma_mark_pass(im0, flags0, g, iter as int, t as nat);
        }
        if !is_quiet(flags, ntx, nty, t, Ghost(g)) {
            let win: (usize, usize, usize, usize) = tile_window(
                width,
                height,
                tile_width,
                tile_height,
                ntx,
                nty,
                t,
                Ghost(g),
            );
            if thinning_zs_iteration(im, win.0, win.1, win.2, win.3, width, height, iter) {
                flags[t] = true;
                diff = true;
            } else {
                flags[t] = false;
            }
        }
        t = t + 1;
    }
    proof {
        lemma_mark_pass(im0, flags0, g, iter as int, total as nat);
    }
    diff
}

/// Applies the markers in every tile that carries a flag.
fn commit_tiles(
    im: &mut [u8],
    flags: &Vec<bool>,
    width: usize,
    height: usize,
    tile_width: usize,
    tile_height: usize,
    ntx: usize,
    nty: usize,
    Ghost(g): Ghost<Grid>,
)
    requires
        g == grid(width as int, height as int, tile_width as int, tile_height as int),
        g.wf(),
        ntx == g.cols(),
        nty == g.rows(),
        ntx * nty <= usize::MAX,
        old(im)@.len() == width * height,
        flags@.len() == g.tiles(),
    ensures
        final(im)@ == commit_pass(old(im)@, flags@, g, g.tiles() as nat),
{
    let ghost im0 = im@;
    let total: usize = ntx * nty;
    let mut t: usize = 0;
    while t < total
        invariant
            t <= total,
            total == ntx * nty,
            g == grid(width as int, height as int, tile_width as int, tile_height as int),
            g.wf(),
            ntx == g.cols(),
            nty == g.rows(),
            flags@.len() == g.tiles(),
            im@.len() == width * height,
            im0.len() == width * height,
            im@ == commit_pass(im0, flags@, g, t as nat),
        decreases total - t,
    {
        proof {
            lemma_commit_pass(im0, flags@, g, (t + 1) as nat);
        }
        if flags[t] {
            let win: (usize, usize, usize, usize) = tile_window(
                width,
                height,
                tile_width,
                tile_height,
                ntx,
                nty,
                t,
                Ghost(g),
            );
            proof {
                assert((win.1 + win.3) * width <= height * width) by (nonlinear_arith)
                    requires
                        win.1 + win.3 <= height,
                        0 <= width,
                ;
                assert(height * width == width * height) by (nonlinear_arith);
            }
            thinning_zs_post(im, win.0, win.1, win.2, win.3, width);
        }
        t = t + 1;
    }
}

/// Thins the image in place, tile by tile, until a marking pass sets no new
/// marker. Ink is only ever taken away, and every byte that changes is 0 or
/// 1 afterwards, so that an image whose bytes are all 0 or 1 comes back with
/// bytes that are all 0 or 1.
pub fn thinning_zs_tiled(
    im: &mut [u8],
    width: usize,
    height: usize,
    tile_width: usize,
    tile_height: usize,
)
    requires
        old(im)@.len() == width * height,
        tile_width > 0,
        tile_height > 0,
    ensures
        final(im)@ == thin_tiled(
            old(im)@,
            width as int,
            height as int,
            tile_width as int,
            tile_height as int,
        ),
        ink_within(final(im)@, old(im)@),
        kept_or_binary(final(im)@, old(im)@),
        all_binary(old(im)@) ==> all_binary(final(im)@),
{
    let ghost im0 = im@;
    let ghost g = grid(width as int, height as int, tile_width as int, tile_height as int);
    let ntx: usize = piece_count(width, tile_width);
    let nty: usize = piece_count(height, tile_height);
    proof {
        lemma_pieces(width as int, tile_width as int);
        lemma_pieces(height as int, tile_height as int);
        assert(im@.len() == im.len());
        assert(0 <= ntx * nty <= width * height) by (nonlinear_arith)
            requires
                0 <= ntx <= width,
                0 <= nty <= height,
        ;
        lemma_tiled_run(im0, all_flagged(g), g);
    }
    let total: usize = ntx * nty;
    let mut flags: Vec<bool> = Vec::new();
    while flags.len() < total
        invariant
            flags@.len() <= total,
            forall|t: int| 0 <= t < flags@.len() ==> flags@[t],
        decreases total - flags@.len(),
    {
        flags.push(true);
    }
    assert(flags@ =~= all_flagged(g));
    loop
        invariant_except_break
            tiled_run(im@, flags@, g) == tiled_run(im0, all_flagged(g), g),
        invariant
            g == grid(width as int, height as int, tile_width as int, tile_height as int),
            g.wf(),
            ntx == g.cols(),
            nty == g.rows(),
            ntx * nty <= usize::MAX,
            im@.len() == width * height,
            flags@.len() == g.tiles(),
        ensures
            im@ == tiled_run(im0, all_flagged(g), g),
        decreases ink_count(im@),
    {
        let ghost start = im@;
        let ghost start_flags = flags@;
        proof {
            lemma_round(start, start_flags, g, 0);
        }
        if !mark_tiles(
            im,
            &mut flags,
            width,
            height,
            tile_width,
            tile_height,
            ntx,
            nty,
            0,
            Ghost(g),
        ) {
            break ;
        }
        commit_tiles(im, &flags, width, height, tile_width, tile_height, ntx, nty, Ghost(g));
        let ghost mid = im@;
        let ghost mid_flags = flags@;
        proof {
            lemma_round(mid, mid_flags, g, 1);
        }
        if !mark_tiles(
            im,
            &mut flags,
            width,
            height,
            tile_width,
            tile_height,
            ntx,
            nty,
            1,
            Ghost(g),
        ) {
            break ;
        }
        commit_tiles(im, &flags, width, height, tile_width, tile_height, ntx, nty, Ghost(g));
        proof {
            lemma_ink_monotone(mid, im@);
        }
    }
}

} // verus!
