//! HTML parsing into a DOM tree, CSS selector matching, and breadth-first
//! and depth-first searches over the tree.

pub mod text;
pub mod domnode;
pub mod tree;
pub mod lca;
pub mod selector;
pub mod parser;
pub mod search;
pub mod clock;
pub mod bfs;
pub mod dfs;
pub mod p;
pub mod service;
