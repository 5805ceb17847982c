//! A tiny key-value worker protocol: length-prefixed values that may hold
//! any bytes, the command and response frames built on them, a reader that
//! finds where a frame ends in a byte stream, and the store that serves one
//! request at a time.
use vstd::prelude::*;

pub mod bytes;
pub mod command;
pub mod decimal;
pub mod frame;
pub mod response;
pub mod store;
pub mod value;

verus! {

} // verus!
