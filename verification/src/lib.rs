//! A minimal HTTP request dispatcher built around a compressed prefix trie.
//!
//! Routes are stored in a radix-tree-style table: each node owns a string
//! segment, an optional handler, and the children that share its prefix.
//! `route_node` holds the trie itself.

pub mod headers;
pub mod route_node;
pub mod route_parser;
pub mod router;
