//! Why a render can fail.

use vstd::prelude::*;

verus! {

/// A failed render. No partial image is ever handed out.
#[derive(Clone, Copy, Debug, PartialEq, Eq, Structural)]
pub enum RenderError {
    /// A selected band is not one of the dataset's bands, which count from 1.
    BandOutOfRange { band: usize },
    /// The bands do not each hold one sample per pixel of the output.
    SampleCountMismatch,
    /// An image of the requested size cannot be held in memory.
    ImageTooLarge,
}

} // verus!
