//! Polyline fragments: ordered sequences of integer pixel coordinates.
//!
//! In executable code a point is `[x, y]` and a fragment a `Vec` of points.
//! The contracts speak of their mathematical counterparts: a point is a pair
//! `(x, y)` of integers, a polyline a sequence of points.

use vstd::prelude::*;

verus! {

/// A pixel coordinate `(x, y)`: column first, row second.
pub type Point = (int, int);

/// An ordered sequence of points.
pub type Polyline = Seq<(int, int)>;

/// The point that `[x, y]` stands for.
pub open spec fn point_of(p: [usize; 2]) -> Point {
    (p[0] as int, p[1] as int)
}

/// The polyline that a sequence of `[x, y]` stands for.
pub open spec fn line_of(f: Seq<[usize; 2]>) -> Polyline {
    Seq::new(f.len(), |k: int| point_of(f[k]))
}

/// The polylines that a list of fragments stands for.
pub open spec fn lines_of(fs: Seq<Vec<[usize; 2]>>) -> Seq<Polyline> {
    Seq::new(fs.len(), |j: int| line_of(fs[j]@))
}

/// Every polyline has at least two points.
pub open spec fn proper(ls: Seq<Polyline>) -> bool {
    forall|j: int| 0 <= j < ls.len() ==> (#[trigger] ls[j]).len() >= 2
}

/// The distance between two numbers.
pub open spec fn dist(a: int, b: int) -> int {
    if a >= b {
        a - b
    } else {
        b - a
    }
}

/// The first or the last point of a polyline.
pub open spec fn end_point(f: Polyline, last: bool) -> Point {
    if last {
        f[f.len() - 1]
    } else {
        f[0]
    }
}

/// The distance between two numbers.
pub fn dist_of(a: usize, b: usize) -> (d: usize)
    ensures
        d == dist(a as int, b as int),
{
    if a >= b {
        a - b
    } else {
        b - a
    }
}

/// Copies a fragment, back to front if `reversed` is set.
pub fn copy_line(f: &Vec<[usize; 2]>, reversed: bool) -> (r: Vec<[usize; 2]>)
    ensures
        line_of(r@) == (if reversed {
            line_of(f@).reverse()
        } else {
            line_of(f@)
        }),
        r@.len() == f@.len(),
{
    let n: usize = f.len();
    let mut r: Vec<[usize; 2]> = Vec::new();
    let mut k: usize = 0;
    while k < n
        invariant
            k <= n,
            n == f@.len(),
            r@.len() == k,
            forall|q: int| 0 <= q < k ==> r@[q] == (if reversed {
                f@[n - 1 - q]
            } else {
                f@[q]
            }),
        decreases n - k,
    {
        let p: [usize; 2] = if reversed {
            f[n - 1 - k]
        } else {
            f[k]
        };
        r.push(p);
        k = k + 1;
    }
    proof {
        if reversed {
            assert(line_of(r@) =~= line_of(f@).reverse());
        } else {
            assert(line_of(r@) =~= line_of(f@));
        }
    }
    r
}

/// Joins two fragments into one, the points of `a` first.
pub fn join_lines(a: &Vec<[usize; 2]>, b: &Vec<[usize; 2]>) -> (r: Vec<[usize; 2]>)
    ensures
        line_of(r@) == line_of(a@) + line_of(b@),
{
    let mut r: Vec<[usize; 2]> = Vec::new();
    let mut k: usize = 0;
    while k < a.len()
        invariant
            k <= a@.len(),
            r@.len() == k,
            forall|q: int| 0 <= q < k ==> r@[q] == a@[q],
        decreases a@.len() - k,
    {
        r.push(a[k]);
        k = k + 1;
    }
    let mut m: usize = 0;
    while m < b.len()
        invariant
            m <= b@.len(),
            r@.len() == a@.len() + m,
            forall|q: int| 0 <= q < a@.len() ==> r@[q] == a@[q],
            forall|q: int| 0 <= q < m ==> r@[a@.len() + q] == b@[q],
        decreases b@.len() - m,
    {
        r.push(b[m]);
        m = m + 1;
    }
    proof {
        assert(line_of(r@) =~= line_of(a@) + line_of(b@));
    }
    r
}

} // verus!
