use vstd::prelude::*;

pub mod canon;
pub mod load;
pub mod names;
pub mod order;
pub mod parse;
pub mod query;
pub mod segments;
pub mod text;
pub mod types;
pub mod web;
