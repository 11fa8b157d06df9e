//! Drawing state shared by the content interpreter and the viewer.

use vstd::prelude::*;

verus! {

/// Which points a path encloses: by the non-zero winding number, or by the
/// even-odd rule.
#[derive(Clone, Debug, Copy, PartialEq, Eq, Structural)]
pub enum ClippingRule {
    Winding,
    EvenOdd,
}

} // verus!
