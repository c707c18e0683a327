//! Errors that carry the place in the source where they arose.

use crate::common::Position;
use vstd::prelude::*;

verus! {

/// An error of kind `K` together with the position at which it was found.
#[derive(Debug)]
pub struct ErrorWithPosition<K> {
    pub kind: K,
    pub position: Position,
}

} // verus!
