//! The grayscale encoding of an escape classification.
use vstd::prelude::*;

verus! {

/// The fixed iteration budget of every renderer.
pub const MAX_ITERATIONS: usize = 255;

/// The byte of a pixel: `0` for a point that stayed bounded, `255 - i` for a
/// point that escaped at iteration `i`.
pub open spec fn shade_of(escape: Option<usize>) -> u8 {
    match escape {
        Some(i) => (255 - i) as u8,
        None => 0,
    }
}

/// An escape classification that the renderers can produce: an escape count
/// lies within the iteration budget.
pub open spec fn within_budget(escape: Option<usize>) -> bool {
    match escape {
        Some(i) => i < MAX_ITERATIONS,
        None => true,
    }
}

/// Encodes an escape classification as a grayscale byte.
pub fn shade(escape: Option<usize>) -> (r: u8)
    requires
        within_budget(escape),
    ensures
        r == shade_of(escape),
        escape is None ==> r == 0,
        forall|i: usize| escape == Some(i) ==> r as int == 255 - i,
{
    match escape {
        None => 0,
        Some(count) => 255 - (count as u8),
    }
}

/// A byte is black exactly when its point did not escape within the budget.
pub proof fn lemma_black_iff_bounded(escape: Option<usize>)
    requires
        within_budget(escape),
    ensures
        shade_of(escape) == 0 <==> escape is None,
        1 <= shade_of(escape) <= 255 <==> escape is Some,
{
}

} // verus!
