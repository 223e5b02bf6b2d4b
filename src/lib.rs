//! Persistence of a keyed collection as one file per key inside a directory.
use vstd::prelude::*;

pub mod dir;
pub mod storable;

verus! {

} // verus!
