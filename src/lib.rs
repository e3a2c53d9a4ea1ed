//! Minimum spanning forests by Kruskal's algorithm over a disjoint-set forest
//! with union by rank and path compression.
pub mod edge;
pub mod union_find;
pub mod kruskal;
pub mod optimality;
