//! Merging of planar navigation meshes: neighbouring convex polygons are
//! fused into fewer, larger convex polygons, with every step proved.

pub mod compact;
pub mod geometry;
pub mod load;
pub mod merger;
pub mod round_trip;
pub mod mesh;
pub mod text;
pub mod triangulate;
pub mod union_find;
pub mod write;

pub use geometry::Point;
pub use load::{LoadError, LoadFailure};
pub use mesh::{getc, ImpossibleMergeInfo, MergeInfo, MeshMerger, Polygon, Vertex};
pub use triangulate::{triangulate, TriangleMesh};
pub use union_find::UnionFind;
