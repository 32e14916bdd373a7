//! Why no code table could be made.

use vstd::prelude::*;

verus! {

/// The two ways in which a list of instructions is refused.
#[derive(Clone, Copy, Debug, PartialEq, Eq, Structural)]
pub enum HuffmanError {
    /// Some instruction declares a length that has no weight: it is not
    /// positive, or it is greater than 127.
    InvalidInput,
    /// There is no instruction at all.
    EmptyInput,
}

} // verus!
