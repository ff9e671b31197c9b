//! Thinning to a fixed point: the plain driver, which treats the whole image
//! as one window, and its mathematical model.
//!
//! A step marks with sub-iteration 0 and applies the markers, then does the
//! same with sub-iteration 1. The run ends as soon as a marking pass sets no
//! new marker. Every marker that is applied takes ink away, so the amount of
//! ink in the image bounds the number of steps.

use vstd::prelude::*;
use vstd::set_lib::{lemma_int_range, lemma_len_subset, set_int_range};
use crate::pixel::{committed, foreground, lemma_codec, marked, marker};
use crate::window::{
    candidate, commit_window, interior, lemma_row_col, mark_window, rect,
    thinning_zs_iteration, thinning_zs_post, window_changes, Rect,
};

verus! {

/// The window that covers an image of `w` by `h` pixels.
pub open spec fn whole(w: int, h: int) -> Rect {
    rect(0, 0, w, h)
}

/// The indices of the pixels that are ink.
pub open spec fn ink_set(im: Seq<u8>) -> Set<int> {
    Set::new(|k: int| 0 <= k < im.len() && foreground(im[k]) == 1)
}

/// The number of pixels that are ink.
pub open spec fn ink_count(im: Seq<u8>) -> nat {
    ink_set(im).len()
}

/// No pixel of `b` is ink that is not ink in `a`.
pub open spec fn ink_within(b: Seq<u8>, a: Seq<u8>) -> bool {
    &&& b.len() == a.len()
    &&& forall|k: int| 0 <= k < a.len() ==> foreground(#[trigger] b[k]) <= foreground(a[k])
}

/// An image has finitely many ink pixels.
pub proof fn lemma_ink_finite(im: Seq<u8>)
    ensures
        ink_set(im).finite(),
        ink_count(im) <= im.len(),
{
    lemma_int_range(0, im.len() as int);
    assert(ink_set(im).subset_of(set_int_range(0, im.len() as int)));
    lemma_len_subset(ink_set(im), set_int_range(0, im.len() as int));
}

/// Taking ink away never raises the ink count.
pub proof fn lemma_ink_monotone(a: Seq<u8>, b: Seq<u8>)
    requires
        ink_within(b, a),
    ensures
        ink_count(b) <= ink_count(a),
{
    lemma_ink_finite(a);
    assert forall|k: int| ink_set(b).contains(k) implies ink_set(a).contains(k) by {
        lemma_codec(a[k]);
        assert(foreground(b[k]) <= foreground(a[k]));
    }
    lemma_len_subset(ink_set(b), ink_set(a));
}

/// Taking ink away at pixel `k`, and adding none, lowers the ink count.
pub proof fn lemma_ink_shrinks(a: Seq<u8>, b: Seq<u8>, k: int)
    requires
        ink_within(b, a),
        0 <= k < a.len(),
        foreground(a[k]) == 1,
        foreground(b[k]) == 0,
    ensures
        ink_count(b) < ink_count(a),
{
    lemma_ink_finite(a);
    assert forall|j: int| ink_set(b).contains(j) implies ink_set(a).contains(j) by {
        lemma_codec(a[j]);
        assert(foreground(b[j]) <= foreground(a[j]));
    }
    ink_set(b).lemma_subset_not_in_lt(ink_set(a), k);
}

/// Marking a window keeps every foreground bit, and applying markers adds no
/// ink.
pub proof fn lemma_window_ops_keep_ink(im: Seq<u8>, win: Rect, w: int, h: int, sub: int)
    ensures
        ink_within(mark_window(im, win, w, h, sub), im),
        ink_within(im, mark_window(im, win, w, h, sub)),
        ink_within(commit_window(im, win, w), im),
{
    assert forall|k: int| 0 <= k < im.len() implies foreground(
        #[trigger] mark_window(im, win, w, h, sub)[k],
    ) == foreground(im[k]) by {
        lemma_codec(im[k]);
    }
    assert forall|k: int| 0 <= k < im.len() implies foreground(
        #[trigger] commit_window(im, win, w)[k],
    ) <= foreground(im[k]) by {
        lemma_codec(im[k]);
        lemma_codec(committed(im[k]));
    }
}

/// A marking pass that sets no new marker leaves the image as it is.
pub proof fn lemma_quiet_window(im: Seq<u8>, win: Rect, w: int, h: int, sub: int)
    requires
        !window_changes(im, win, w, h, sub),
    ensures
        mark_window(im, win, w, h, sub) == im,
{
    assert forall|k: int| 0 <= k < im.len() implies #[trigger] mark_window(im, win, w, h, sub)[k]
        == im[k] by {
        lemma_codec(im[k]);
        if candidate(im, win, w, h, sub, k) {
            assert(marker(im[k]) != 0);
        }
    }
    assert(mark_window(im, win, w, h, sub) =~= im);
}

/// A candidate is ink, and it is background once its marker has been set and
/// applied.
pub proof fn lemma_candidate_is_ink(im: Seq<u8>, win: Rect, w: int, h: int, sub: int, k: int)
    requires
        0 <= k < im.len(),
        candidate(im, win, w, h, sub, k),
    ensures
        foreground(im[k]) == 1,
        committed(marked(im[k])) == 0,
        win.contains(k / w, k % w),
        interior(w, h, k / w, k % w),
{
    lemma_row_col(w, k);
    lemma_codec(im[k]);
    lemma_codec(marked(im[k]));
}

/// Marking the whole image and applying the markers lowers the ink count
/// whenever the marking pass sets a new marker.
pub proof fn lemma_step_shrinks(im: Seq<u8>, w: int, h: int, sub: int)
    requires
        window_changes(im, whole(w, h), w, h, sub),
    ensures
        ink_count(commit_window(mark_window(im, whole(w, h), w, h, sub), whole(w, h), w))
            < ink_count(im),
{
    let all = whole(w, h);
    let m = mark_window(im, all, w, h, sub);
    let c = commit_window(m, all, w);
    let k = choose|k: int|
        0 <= k < im.len() && #[trigger] candidate(im, all, w, h, sub, k) && marker(im[k]) == 0;
    lemma_candidate_is_ink(im, all, w, h, sub, k);
    lemma_window_ops_keep_ink(im, all, w, h, sub);
    lemma_window_ops_keep_ink(m, all, w, h, sub);
    assert(c[k] == committed(marked(im[k])));
    assert(foreground(0u8) == 0) by (bit_vector);
    assert forall|j: int| 0 <= j < im.len() implies foreground(#[trigger] c[j]) <= foreground(
        im[j],
    ) by {
        assert(foreground(c[j]) <= foreground(m[j]));
        assert(foreground(m[j]) <= foreground(im[j]));
    }
    lemma_ink_shrinks(im, c, k);
}

/// The image that thinning with a single window arrives at. A step marks
/// with sub-iteration 0; if that sets no new marker, the markers that the
/// image came with are applied and the run ends. Otherwise the markers are
/// applied, sub-iteration 1 marks, its markers are applied, and the run goes
/// on exactly if sub-iteration 1 set a new marker.
pub open spec fn thin_whole(im: Seq<u8>, w: int, h: int) -> Seq<u8>
    decreases ink_count(im),
    via thin_whole_terminates
{
    let all = whole(w, h);
    if !window_changes(im, all, w, h, 0) {
        commit_window(im, all, w)
    } else {
        let a = commit_window(mark_window(im, all, w, h, 0), all, w);
        let b = commit_window(mark_window(a, all, w, h, 1), all, w);
        if !window_changes(a, all, w, h, 1) {
            b
        } else {
            thin_whole(b, w, h)
        }
    }
}

#[via_fn]
proof fn thin_whole_terminates(im: Seq<u8>, w: int, h: int) {
    let all = whole(w, h);
    if window_changes(im, all, w, h, 0) {
        let a = commit_window(mark_window(im, all, w, h, 0), all, w);
        let b = commit_window(mark_window(a, all, w, h, 1), all, w);
        lemma_step_shrinks(im, w, h, 0);
        lemma_window_ops_keep_ink(a, all, w, h, 1);
        lemma_window_ops_keep_ink(mark_window(a, all, w, h, 1), all, w, h, 1);
        assert forall|k: int| 0 <= k < a.len() implies foreground(#[trigger] b[k]) <= foreground(
            a[k],
        ) by {
            assert(foreground(b[k]) <= foreground(mark_window(a, all, w, h, 1)[k]));
            assert(foreground(mark_window(a, all, w, h, 1)[k]) <= foreground(a[k]));
        }
        lemma_ink_monotone(a, b);
    }
}

/// Thins the image in place with the whole image as the only window, until
/// a marking pass sets no new marker. Every byte is 0 or 1 afterwards.
pub fn thinning_zs(im: &mut [u8], w: usize, h: usize)
    requires
        old(im)@.len() == w * h,
    ensures
        final(im)@ == thin_whole(old(im)@, w as int, h as int),
        crate::pixel::all_binary(final(im)@),
{
    let ghost orig = im@;
    let ghost all = whole(w as int, h as int);
    loop
        invariant_except_break
            im@.len() == w * h,
            thin_whole(im@, w as int, h as int) == thin_whole(orig, w as int, h as int),
        invariant
            all == whole(w as int, h as int),
        ensures
            im@ == thin_whole(orig, w as int, h as int),
        decreases ink_count(im@),
    {
        let ghost start = im@;
        assert((0 + h) * w == w * h) by (nonlinear_arith);
        let diff: bool;
        if thinning_zs_iteration(im, 0, 0, w, h, w, h, 0) {
            thinning_zs_post(im, 0, 0, w, h, w);
            diff = thinning_zs_iteration(im, 0, 0, w, h, w, h, 1);
        } else {
            proof {
                lemma_quiet_window(start, all, w as int, h as int, 0);
            }
            diff = false;
        }
        thinning_zs_post(im, 0, 0, w, h, w);
        if !diff {
            break ;
        }
        proof {
            lemma_step_shrinks(start, w as int, h as int, 0);
            let a = commit_window(mark_window(start, all, w as int, h as int, 0), all, w as int);
            lemma_window_ops_keep_ink(a, all, w as int, h as int, 1);
            lemma_window_ops_keep_ink(
                mark_window(a, all, w as int, h as int, 1),
                all,
                w as int,
                h as int,
                1,
            );
            assert forall|k: int| 0 <= k < a.len() implies foreground(#[trigger] im@[k])
                <= foreground(a[k]) by {
                assert(foreground(im@[k]) <= foreground(
                    mark_window(a, all, w as int, h as int, 1)[k],
                ));
                assert(foreground(mark_window(a, all, w as int, h as int, 1)[k]) <= foreground(
                    a[k],
                ));
            }
            lemma_ink_monotone(a, im@);
        }
    }
    proof {
        crate::laws::law_thin_whole_is_binary(orig, w as int, h as int);
    }
}

} // verus!
