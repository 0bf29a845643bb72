//! A one-field error type for the REST fetch: the text of what went wrong.

use vstd::prelude::*;

verus! {

pub struct Error(pub String);

pub type Result<T> = std::result::Result<T, Error>;

} // verus!
