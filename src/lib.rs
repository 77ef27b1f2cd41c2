//! Combinatorial core of a bounded Voronoi tessellation.
//!
//! The geometry of a cell (its vertex coordinates, plane distances, volumes)
//! is floating-point work done by the caller. Everything that decides the
//! shape of a cell's structure once the side of each vertex relative to a
//! clipping plane is known lives here and is verified: the face-indexed and
//! polygon clippers, the adjacency-graph clipper and its face walk, the
//! neighbour labels of the domain box and walls, the bookkeeping of the
//! uniform grid index, the compaction of rejected generators and the
//! fields of the generator import format.
pub mod bounds;
pub mod clip;
pub mod polygon;
pub mod faces;
pub mod grid;
pub mod edges;
pub mod generators;
pub mod records;
