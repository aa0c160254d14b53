use vstd::prelude::*;

pub mod engine;
pub mod laws;
pub mod splitter;
pub mod table;
pub mod text;
pub mod triton;

verus! {
}
