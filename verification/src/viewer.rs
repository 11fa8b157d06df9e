//! Pixel work of the viewer that needs no floating point.

use vstd::prelude::*;

verus! {

/// A glyph's coverage bitmap coloured: each coverage byte `a` becomes the
/// four bytes `r, g, b, a`.
pub fn alpha_bitmap_to_rgba(bitmap: &[u8], rgb8: [u8; 3]) -> (r: Vec<u8>)
    ensures
        r@.len() == 4 * bitmap@.len(),
        forall|i: int|
            0 <= i < bitmap@.len() ==> #[trigger] r@[4 * i + 3] == bitmap@[i] && r@[4 * i]
                == rgb8@[0] && r@[4 * i + 1] == rgb8@[1] && r@[4 * i + 2] == rgb8@[2],
{
    let mut out: Vec<u8> = Vec::new();
    let mut i: usize = 0;
    while i < bitmap.len()
        invariant
            i <= bitmap@.len(),
            out@.len() == 4 * i,
            forall|j: int|
                0 <= j < i ==> #[trigger] out@[4 * j + 3] == bitmap@[j] && out@[4 * j]
                    == rgb8@[0] && out@[4 * j + 1] == rgb8@[1] && out@[4 * j + 2] == rgb8@[2],
        decreases bitmap.len() - i,
    {
        out.push(rgb8[0]);
        out.push(rgb8[1]);
        out.push(rgb8[2]);
        out.push(bitmap[i]);
        i = i + 1;
    }
    out
}

} // verus!
