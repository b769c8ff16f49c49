//! Exact incremental construction of the edges of a planar Voronoi diagram.
//!
//! Sites arrive one at a time ([`graph::VoronoiGraph::add_source_point`]).
//! Each edge is the part of the perpendicular bisector of two sites that no
//! third site is strictly nearer to, bounded by exact rational parameters.
pub mod edge;
pub mod geometry;
pub mod graph;
pub mod order;
pub mod rational;
