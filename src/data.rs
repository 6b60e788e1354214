//! The datum that dataization produces.

use vstd::prelude::*;

verus! {

/// A signed 16-bit datum.
pub type Data = i16;

} // verus!
