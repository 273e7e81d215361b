//! Bump allocation of short-lived text, and a buffer that gathers text
//! fragments in an arena and joins them once at the end.
use vstd::prelude::*;

pub mod arena;
pub mod buffer;
pub mod text;

verus! {

} // verus!
