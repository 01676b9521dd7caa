//! Storage engine core: on-disk layouts and the rules that keep them.

pub mod bits;
pub mod budget;
pub mod bytes;
pub mod catalog;
pub mod checksum;
pub mod encodings;
pub mod error;
pub mod free_pages;
pub mod groups;
pub mod json;
pub mod keys;
pub mod names;
pub mod node_table;
pub mod order;
pub mod overlay;
pub mod pack;
pub mod pager;
pub mod picked;
pub mod rel_table;
pub mod saturating;
pub mod schema;
pub mod shared;
pub mod sorted;
pub mod stats;
pub mod superblock;
pub mod tally;
pub mod text;
pub mod txn_log;
pub mod types;
pub mod vector_encoding;
