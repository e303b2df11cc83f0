//! The treemap: which tiles it has, how rows of tiles fill a rectangle, and where it is zoomed to.

pub mod colors;
pub mod drawing;
pub mod partition;
pub mod plan;
pub mod queue;
pub mod rows;
pub mod viewport;
