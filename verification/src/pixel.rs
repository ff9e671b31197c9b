//! The per-byte pixel encoding: bit 0 is the foreground mask, bit 1 the
//! removal marker. No other bit is ever consulted.

use vstd::prelude::*;

verus! {

/// The foreground mask of a pixel byte: 1 for ink, 0 for background.
pub open spec fn foreground(b: u8) -> u8 {
    b & 1
}

/// The removal marker of a pixel byte.
pub open spec fn marker(b: u8) -> u8 {
    (b >> 1) & 1
}

/// The byte with its removal marker set.
pub open spec fn marked(b: u8) -> u8 {
    b | 2
}

/// The byte after its marker has been applied: ink survives only where no
/// marker was set, and the marker and all upper bits are cleared.
pub open spec fn committed(b: u8) -> u8 {
    (b & 1) & !((b >> 1) & 1)
}

/// A byte that holds nothing but a foreground mask.
pub open spec fn is_binary(b: u8) -> bool {
    b <= 1
}

/// Every byte of the image is 0 or 1.
pub open spec fn all_binary(im: Seq<u8>) -> bool {
    forall|k: int| 0 <= k < im.len() ==> is_binary(#[trigger] im[k])
}

/// The facts about the encoding that the rest of the library builds on.
pub proof fn lemma_codec(b: u8)
    ensures
        foreground(b) == 0 || foreground(b) == 1,
        marker(b) == 0 || marker(b) == 1,
        (marker(b) == 0) == (b & 2 == 0),
        foreground(marked(b)) == foreground(b),
        marker(marked(b)) == 1,
        marked(marked(b)) == marked(b),
        b & 2 != 0 ==> marked(b) == b,
        committed(b) == (if foreground(b) == 1 && marker(b) == 0 { 1u8 } else { 0u8 }),
        committed(b) <= foreground(b),
        committed(committed(b)) == committed(b),
        is_binary(b) ==> committed(b) == b && marker(b) == 0 && foreground(b) == b,
        is_binary(b) ==> committed(marked(b)) == 0,
{
    assert(b & 1 == 0 || b & 1 == 1) by (bit_vector);
    assert((b >> 1) & 1 == 0 || (b >> 1) & 1 == 1) by (bit_vector);
    assert(((b >> 1) & 1 == 0) == (b & 2 == 0)) by (bit_vector);
    assert((b | 2) & 1 == b & 1) by (bit_vector);
    assert(((b | 2) >> 1) & 1 == 1) by (bit_vector);
    assert((b | 2) | 2 == b | 2) by (bit_vector);
    assert(b & 2 != 0 ==> b | 2 == b) by (bit_vector);
    assert((b & 1) & !((b >> 1) & 1) == (if b & 1 == 1 && (b >> 1) & 1 == 0 {
        1u8
    } else {
        0u8
    })) by (bit_vector);
    let c = committed(b);
    assert((c & 1) & !((c >> 1) & 1) == c) by (bit_vector)
        requires
            c == 0 || c == 1,
    ;
    assert(b <= 1 ==> (b & 1) & !((b >> 1) & 1) == b && (b >> 1) & 1 == 0 && b & 1 == b)
        by (bit_vector);
    assert(b <= 1 ==> ((b | 2) & 1) & !(((b | 2) >> 1) & 1) == 0) by (bit_vector);
}

/// Reads the foreground mask of a pixel byte.
pub fn foreground_of(b: u8) -> (p: u8)
    ensures
        p == foreground(b),
        p <= 1,
{
    proof {
        lemma_codec(b);
    }
    b & 1
}

/// Tells whether the removal marker of a pixel byte is set.
pub fn has_marker(b: u8) -> (m: bool)
    ensures
        m == (marker(b) == 1),
{
    proof {
        lemma_codec(b);
    }
    b & 2 != 0
}

/// Sets the removal marker of a pixel byte.
pub fn mark(b: u8) -> (r: u8)
    ensures
        r == marked(b),
{
    b | 2
}

/// Applies the removal marker of a pixel byte and clears it.
pub fn commit(b: u8) -> (r: u8)
    ensures
        r == committed(b),
        r <= 1,
{
    proof {
        lemma_codec(b);
    }
    (b & 1) & !((b >> 1) & 1)
}

} // verus!
