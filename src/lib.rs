use vstd::prelude::*;

pub mod primitives;
pub mod segments;
pub mod multirange;
pub mod bidspath;
pub mod standards;
pub mod builder;
pub mod template;
pub mod entity_table;
pub mod description;
pub mod roots;
pub mod filetree;
pub mod layout;
pub mod layout_builder;
pub mod metadata;
pub mod laws;
pub mod cache;

verus! {

} // verus!
