use vstd::prelude::*;

pub mod handlers;
pub mod json_schema;
pub mod pattern;
pub mod text;
pub mod unicode;
pub mod user_filters;

verus! {
} // verus!
