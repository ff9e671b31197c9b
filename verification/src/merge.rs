//! Joining the fragments of two neighbouring chunks across their seam.
//!
//! A fragment of the second chunk takes part with one of its ends if that
//! end lies on the seam. It is joined to the fragment of the first chunk
//! whose end lies within one pixel of the seam and nearest along the seam,
//! less than four pixels away. Four pairings of ends are tried in turn.

use vstd::prelude::*;
use crate::fragment::{
    copy_line, dist, dist_of, end_point, join_lines, line_of, lines_of, proper, Point, Polyline,
};

verus! {

/// The merge direction of a seam that is a column: ends are matched by `x`.
pub const HORIZONTAL: u8 = 1;

/// The merge direction of a seam that is a row: ends are matched by `y`.
pub const VERTICAL: u8 = 2;

/// The coordinate of a point across the seam: `y` for a seam that is a row
/// (`isv`), `x` for one that is a column.
pub open spec fn across(p: Point, isv: bool) -> int {
    if isv {
        p.1
    } else {
        p.0
    }
}

/// The coordinate of a point along the seam.
pub open spec fn along(p: Point, isv: bool) -> int {
    if isv {
        p.0
    } else {
        p.1
    }
}

/// Modes 1 and 3 match the last point of the fragment of the first chunk,
/// modes 0 and 2 its first point.
pub open spec fn first_uses_last(mode: u8) -> bool {
    mode % 2 == 1
}

/// Modes 2 and 3 match the last point of the fragment of the second chunk,
/// modes 0 and 1 its first point.
pub open spec fn second_uses_last(mode: u8) -> bool {
    (mode / 2) % 2 == 1
}

/// The end of `f` lies within one pixel of the seam at `sx`.
pub open spec fn near_seam(f: Polyline, sx: int, isv: bool, last: bool) -> bool {
    dist(across(end_point(f, last), isv), sx) <= 1
}

/// How far the end of `f` is from the point `p` along the seam.
pub open spec fn gap(f: Polyline, p: Point, isv: bool, last: bool) -> int {
    dist(along(end_point(f, last), isv), along(p, isv))
}

/// The best partner for `p` among the first `n` fragments of `c0`: the
/// first of those that lie near the seam and nearest to `p`, less than four
/// pixels away.
pub open spec fn best_match(c0: Seq<Polyline>, p: Point, sx: int, isv: bool, last: bool, n: nat)
    -> Option<int>
    decreases n,
{
    if n == 0 {
        None
    } else {
        let prev = best_match(c0, p, sx, isv, last, (n - 1) as nat);
        let j = n - 1;
        let bound = match prev {
            Some(b) => gap(c0[b], p, isv, last),
            None => 4,
        };
        if near_seam(c0[j], sx, isv, last) && gap(c0[j], p, isv, last) < bound {
            Some(j)
        } else {
            prev
        }
    }
}

/// The fragment of `c0` that fragment `i` of `c1` is joined to in the given
/// mode, if there is one.
pub open spec fn merge_target(
    c0: Seq<Polyline>,
    c1: Seq<Polyline>,
    i: int,
    sx: int,
    isv: bool,
    mode: u8,
) -> Option<int> {
    let p = end_point(c1[i], second_uses_last(mode));
    if across(p, isv) != sx {
        None
    } else {
        best_match(c0, p, sx, isv, first_uses_last(mode), c0.len())
    }
}

/// The polyline that joining `g` to `f` gives: `g` is turned round if it was
/// matched by its last point, and it goes behind `f` if `f` was matched by
/// its last point, in front of it otherwise.
pub open spec fn joined(f: Polyline, g: Polyline, mode: u8) -> Polyline {
    let piece = if second_uses_last(mode) {
        g.reverse()
    } else {
        g
    };
    if first_uses_last(mode) {
        f + piece
    } else {
        piece + f
    }
}

/// The two lists of fragments after fragment `i` of `c1` has been offered to
/// `c0` in the given mode: where it finds a partner it is joined to it and
/// leaves `c1`, otherwise both lists stay as they are.
pub open spec fn merge_one(
    c0: Seq<Polyline>,
    c1: Seq<Polyline>,
    i: int,
    sx: int,
    isv: bool,
    mode: u8,
) -> (Seq<Polyline>, Seq<Polyline>) {
    match merge_target(c0, c1, i, sx, isv, mode) {
        Some(j) => (c0.update(j, joined(c0[j], c1[i], mode)), c1.remove(i)),
        None => (c0, c1),
    }
}

/// What `best_match` finds is the nearest fragment that qualifies, and the
/// first of several that are equally near; it finds none only where none
/// qualifies.
pub proof fn law_nearest_partner_is_chosen(
    c0: Seq<Polyline>,
    p: Point,
    sx: int,
    isv: bool,
    last: bool,
    n: nat,
)
    requires
        n <= c0.len(),
    ensures
        match best_match(c0, p, sx, isv, last, n) {
            Some(j) => {
                &&& 0 <= j < n
                &&& near_seam(c0[j], sx, isv, last)
                &&& gap(c0[j], p, isv, last) < 4
                &&& forall|q: int|
                    0 <= q < n && near_seam(#[trigger] c0[q], sx, isv, last) ==> gap(
                        c0[j],
                        p,
                        isv,
                        last,
                    ) <= gap(c0[q], p, isv, last)
                &&& forall|q: int|
                    0 <= q < j && near_seam(#[trigger] c0[q], sx, isv, last) ==> gap(
                        c0[j],
                        p,
                        isv,
                        last,
                    ) < gap(c0[q], p, isv, last)
            },
            None => forall|q: int|
                0 <= q < n && near_seam(#[trigger] c0[q], sx, isv, last) ==> gap(
                    c0[q],
                    p,
                    isv,
                    last,
                ) >= 4,
        },
    decreases n,
{
    if n > 0 {
        law_nearest_partner_is_chosen(c0, p, sx, isv, last, (n - 1) as nat);
    }
}

/// The coordinate of `[x, y]` across the seam.
fn across_of(p: [usize; 2], isv: bool) -> (r: usize)
    ensures
        r == across(crate::fragment::point_of(p), isv),
{
    if isv {
        p[1]
    } else {
        p[0]
    }
}

/// The coordinate of `[x, y]` along the seam.
fn along_of(p: [usize; 2], isv: bool) -> (r: usize)
    ensures
        r == along(crate::fragment::point_of(p), isv),
{
    if isv {
        p[0]
    } else {
        p[1]
    }
}

/// The first or the last point of a fragment.
fn end_of(f: &Vec<[usize; 2]>, last: bool) -> (p: [usize; 2])
    requires
        f@.len() >= 1,
    ensures
        crate::fragment::point_of(p) == end_point(line_of(f@), last),
{
    if last {
        f[f.len() - 1]
    } else {
        f[0]
    }
}

/// Offers fragment `i` of `c1` to the fragments of `c0`, with the ends that
/// `mode` selects: mode 1 matches the last point of a fragment of `c0` with
/// the first point of the offered one, mode 3 last with last, mode 0 first
/// with first, mode 2 first with last; of a larger `mode` only the two low
/// bits count. `sx` is the coordinate of the seam, and `isv` tells that the
/// seam is a row, so that ends are matched by `y`.
/// Where a partner is found, the offered fragment is joined to it and
/// removed from `c1`, and the result is `true`.
pub fn merge_impl(
    c0: &mut Vec<Vec<[usize; 2]>>,
    c1: &mut Vec<Vec<[usize; 2]>>,
    i: usize,
    sx: usize,
    isv: bool,
    mode: u8,
) -> (merged: bool)
    requires
        i < old(c1)@.len(),
        proper(lines_of(old(c0)@)),
        proper(lines_of(old(c1)@)),
    ensures
        merged == merge_target(
            lines_of(old(c0)@),
            lines_of(old(c1)@),
            i as int,
            sx as int,
            isv,
            mode,
        ).is_some(),
        lines_of(final(c0)@) == merge_one(
            lines_of(old(c0)@),
            lines_of(old(c1)@),
            i as int,
            sx as int,
            isv,
            mode,
        ).0,
        lines_of(final(c1)@) == merge_one(
            lines_of(old(c0)@),
            lines_of(old(c1)@),
            i as int,
            sx as int,
            isv,
            mode,
        ).1,
        proper(lines_of(final(c0)@)),
        proper(lines_of(final(c1)@)),
        final(c0)@.len() == old(c0)@.len(),
        final(c1)@.len() == old(c1)@.len() - (if merged { 1int } else { 0int }),
{
    let ghost l0 = lines_of(c0@);
    let ghost l1 = lines_of(c1@);
    let first_last: bool = mode % 2 == 1;
    let second_last: bool = (mode / 2) % 2 == 1;
    assert(l1[i as int].len() >= 2);
    assert(l1[i as int] == line_of(c1@[i as int]@));
    let theirs: [usize; 2] = end_of(&c1[i], second_last);
    let ghost pt = crate::fragment::point_of(theirs);
    if across_of(theirs, isv) != sx {
        return false;
    }
    let mut found: bool = false;
    let mut mj: usize = 0;
    let mut md: usize = 4;
    let mut j: usize = 0;
    while j < c0.len()
        invariant
            j <= c0@.len(),
            l0 == lines_of(c0@),
            proper(l0),
            pt == crate::fragment::point_of(theirs),
            first_last == first_uses_last(mode),
            found == best_match(l0, pt, sx as int, isv, first_last, j as nat).is_some(),
            found ==> best_match(l0, pt, sx as int, isv, first_last, j as nat) == Some(mj as int)
                && md == gap(l0[mj as int], pt, isv, first_last) && mj < j,
            !found ==> md == 4,
        decreases c0@.len() - j,
    {
        assert(l0[j as int].len() >= 2);
        assert(l0[j as int] == line_of(c0@[j as int]@));
        let ours: [usize; 2] = end_of(&c0[j], first_last);
        if dist_of(across_of(ours, isv), sx) <= 1 {
            let d: usize = dist_of(along_of(ours, isv), along_of(theirs, isv));
            if d < md {
                found = true;
                mj = j;
                md = d;
            }
        }
        j = j + 1;
    }
    if !found {
        return false;
    }
    assert(l0[mj as int] == line_of(c0@[mj as int]@));
    let piece: Vec<[usize; 2]> = copy_line(&c1[i], second_last);
    let whole: Vec<[usize; 2]> = if first_last {
        join_lines(&c0[mj], &piece)
    } else {
        join_lines(&piece, &c0[mj])
    };
    assert(line_of(whole@) == joined(l0[mj as int], l1[i as int], mode));
    c0[mj] = whole;
    c1.remove(i);
    proof {
        assert(lines_of(c0@) =~= l0.update(mj as int, joined(l0[mj as int], l1[i as int], mode)));
        assert(lines_of(c1@) =~= l1.remove(i as int));
        assert(joined(l0[mj as int], l1[i as int], mode).len() >= 2);
    }
    true
}

/// The two lists after fragment `i` of `c1` has been offered to `c0` in
/// modes 1, 3, 0 and 2, in this order, up to the first that joins it.
pub open spec fn offer(c0: Seq<Polyline>, c1: Seq<Polyline>, i: int, sx: int, isv: bool) -> (
    Seq<Polyline>,
    Seq<Polyline>,
) {
    if merge_target(c0, c1, i, sx, isv, 1).is_some() {
        merge_one(c0, c1, i, sx, isv, 1)
    } else if merge_target(c0, c1, i, sx, isv, 3).is_some() {
        merge_one(c0, c1, i, sx, isv, 3)
    } else if merge_target(c0, c1, i, sx, isv, 0).is_some() {
        merge_one(c0, c1, i, sx, isv, 0)
    } else {
        merge_one(c0, c1, i, sx, isv, 2)
    }
}

/// The two lists after the fragments `n - 1`, `n - 2`, down to 0 of `c1`
/// have been offered to `c0`, one after the other.
pub open spec fn offer_down(c0: Seq<Polyline>, c1: Seq<Polyline>, sx: int, isv: bool, n: nat) -> (
    Seq<Polyline>,
    Seq<Polyline>,
)
    decreases n,
{
    if n == 0 {
        (c0, c1)
    } else {
        let next = offer(c0, c1, n - 1, sx, isv);
        offer_down(next.0, next.1, sx, isv, (n - 1) as nat)
    }
}

/// The fragments of two chunks merged across their seam. An empty `c0`
/// takes `c1` over as it is. Otherwise every fragment of `c1` is offered to
/// `c0`, the last one first, and what finds no partner is put behind `c0`.
/// A direction other than `HORIZONTAL` and `VERTICAL` joins nothing.
pub open spec fn merged(c0: Seq<Polyline>, c1: Seq<Polyline>, sx: int, dr: u8) -> Seq<Polyline> {
    if c0.len() == 0 {
        c1
    } else if dr == HORIZONTAL || dr == VERTICAL {
        let r = offer_down(c0, c1, sx, dr == VERTICAL, c1.len());
        r.0 + r.1
    } else {
        c0 + c1
    }
}

/// Moves every fragment of `c1` to the end of `c0`.
fn move_all(c0: &mut Vec<Vec<[usize; 2]>>, c1: &mut Vec<Vec<[usize; 2]>>)
    ensures
        lines_of(final(c0)@) == lines_of(old(c0)@) + lines_of(old(c1)@),
        final(c1)@.len() == 0,
{
    let ghost l0 = lines_of(c0@);
    let ghost l1 = lines_of(c1@);
    c0.append(c1);
    proof {
        assert(lines_of(c0@) =~= l0 + l1);
    }
}

/// Merges the fragments of the second chunk, `c1`, into those of the first,
/// `c0`, across the seam at coordinate `sx`, and leaves `c1` empty. `dr` is
/// `HORIZONTAL` where the seam is a column and `VERTICAL` where it is a row.
pub fn merge_frags(c0: &mut Vec<Vec<[usize; 2]>>, c1: &mut Vec<Vec<[usize; 2]>>, sx: usize, dr: u8)
    requires
        proper(lines_of(old(c0)@)),
        proper(lines_of(old(c1)@)),
    ensures
        lines_of(final(c0)@) == merged(lines_of(old(c0)@), lines_of(old(c1)@), sx as int, dr),
        final(c1)@.len() == 0,
        proper(lines_of(final(c0)@)),
{
    let ghost l0 = lines_of(c0@);
    let ghost l1 = lines_of(c1@);
    if c0.len() == 0 {
        move_all(c0, c1);
        assert(lines_of(c0@) =~= l1);
        return ;
    }
    if c1.len() == 0 {
        proof {
            assert(l0 + l1 =~= l0);
            assert(offer_down(l0, l1, sx as int, dr == VERTICAL, 0) == (l0, l1));
        }
        c1.clear();
        return ;
    }
    if dr == HORIZONTAL || dr == VERTICAL {
        let isv: bool = dr == VERTICAL;
        let mut i: usize = c1.len();
        while i > 0
            invariant
                i <= c1@.len(),
                isv == (dr == VERTICAL),
                proper(lines_of(c0@)),
                proper(lines_of(c1@)),
                offer_down(lines_of(c0@), lines_of(c1@), sx as int, isv, i as nat) == offer_down(
                    l0,
                    l1,
                    sx as int,
                    isv,
                    l1.len(),
                ),
            decreases i,
        {
            i = i - 1;
            if !merge_impl(c0, c1, i, sx, isv, 1) {
                if !merge_impl(c0, c1, i, sx, isv, 3) {
                    if !merge_impl(c0, c1, i, sx, isv, 0) {
                        merge_impl(c0, c1, i, sx, isv, 2);
                    }
                }
            }
        }
    }
    move_all(c0, c1);
}

} // verus!
