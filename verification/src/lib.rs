//! Multi-dimensional half-open integer ranges with exact, bidirectional,
//! splittable iteration in row-major order.

pub mod coord;
pub mod iter;
pub mod laws;
pub mod order;
pub mod types;

pub use coord::Coord;
pub use iter::{into_iter_from_state, IntoIter, IntoParIter, IterProducer, IterState};
pub use types::{NdRange, Range1, Range2, Range3, Range4, Range5};
