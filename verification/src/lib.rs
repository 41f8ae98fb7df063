//! An ordered map built on a top-down splay tree, together with an
//! interval-partition structure ("exclusions") for placing rectangular
//! obstacles against the margins of a fixed horizontal extent.

pub mod exclusions;
pub mod map;
