//! Small data-structure library: a directed graph reached through handles,
//! with cycle detection over user-assembled subgraphs, a singly linked list,
//! a two's-complement big integer and a capacity-bounded file store.

pub mod graph;
pub mod linked_list;
pub mod mock_storage;
pub mod bigint;
