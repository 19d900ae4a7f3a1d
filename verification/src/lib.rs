//! Verified implementations of classic data structures and algorithms:
//! array-backed binary heaps, an adjacency-list graph with breadth-first,
//! depth-first and cheapest-path queries, a bucket-chained hash map, singly
//! linked lists, a fixed-capacity ring buffer, and searching and sorting
//! routines.

pub mod algorithms;
pub mod errordsa;
pub mod graph;
pub mod hashmap;
pub mod heap;
pub mod linkedlist;
pub mod linkedlist2;
pub mod order;
pub mod perm;
pub mod ringbuffer;
