pub mod aabb;
pub mod bulk_load;
pub mod debug;
pub mod heap;
pub mod insertion;
pub mod laws;
pub mod nearest_neighbor;
pub mod node;
pub mod object;
pub mod params;
pub mod point;
pub mod primitives;
pub mod removal;
pub mod rtree;
pub mod selection;
pub mod selection_mut;
pub mod seq_sum;
pub mod sort;

pub use aabb::AABB;
pub use nearest_neighbor::NearestNeighborIterator;
pub use node::{ParentNodeData, RTreeNode};
pub use object::{ObjectEq, PointDistance, RTreeObject};
pub use params::{ParamsError, RTreeParams};
pub use point::Point;
pub use rtree::{
    LocateAllAtPoint, LocateInEnvelope, LocateInEnvelopeIntersecting, RTree, RTreeIterator,
};
pub use selection::{SelectionFunction, SelectionIterator};
