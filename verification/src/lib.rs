//! An algorithms laboratory: graph algorithms (Dijkstra shortest paths,
//! Prim and Kruskal minimum spanning trees) over pluggable graph
//! representations and priority-queue strategies, a disjoint-set-union
//! structure with three interchangeable strategies, and a family of
//! sorting and searching routines.

pub mod convert;
pub mod dijkstra;
pub mod frontier;
pub mod graph;
pub mod heap_sort;
pub mod kruskal;
pub mod lcs;
pub mod min_max_search;
pub mod insertion_merge;
pub mod insertion_sort;
pub mod merge_sort;
pub mod prims;
pub mod quicksort;
pub mod test_utils;
pub mod union_find;
