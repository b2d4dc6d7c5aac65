//! A family tree: the people of one family, the chart that places them on a
//! canvas, and the pieces a renderer draws from that chart.
//!
//! - [`data`]: people and the database that holds them, keyed by id.
//! - [`layout`]: the chart around the focus person (grandparents, parents,
//!   the focus with siblings, the focus's children), computed on an exact
//!   sub-pixel grid.
//! - [`scene`]: connector paths, marriage lines, cards and the side panel,
//!   derived from a database and its layout.
use vstd::prelude::*;

pub mod data;
pub mod layout;
pub mod scene;

pub use data::{Database, Person};
pub use layout::{Position, PositionMap};


verus! {

} // verus!
