//! Two in-memory ordered-set indexes with the same capability: a fixed-fanout
//! B-tree and a left-leaning red-black tree.

pub mod btree;
pub mod int_set;
pub mod key;
pub mod rbtree;
