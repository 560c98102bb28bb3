//! An immutable-style ordered map with a movable cursor, verified with Verus.
pub mod bulk;
pub mod display;
pub mod equality;
pub mod iter;
pub mod keys;
pub mod laws;
pub mod linked_map;
pub mod model;
pub mod ranges;
pub mod traversal;

pub use iter::{Iter, Values};
pub use linked_map::LinkedMap;
pub use model::LinkedMapView;
