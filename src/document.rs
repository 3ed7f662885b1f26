//! The input record of one rendered page.
use vstd::prelude::*;

verus! {

/// One rendered page: its name, its extracted text, and the path of its screenshot.
pub struct Document {
    pub filename: String,
    pub text: String,
    pub screenshot: String,
}

} // verus!
