//! Size-reducing rewrites of a vector-graphics document: gradient transform
//! baking, gradient chain merging and path segment canonicalization, each
//! stated and proved over a model of the document.

pub mod fuzzy;
pub mod dom;
pub mod bake;
pub mod merge;
pub mod path;
pub mod docgen;
