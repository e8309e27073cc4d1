//! Records in versions: what differs between them, how differences are applied
//! and undone, and how versions are kept.
pub mod change;
pub mod collections;
pub mod crc;
pub mod dataset;
pub mod delta;
pub mod entries;
pub mod event;
pub mod fault;
pub mod first;
pub mod frame;
pub mod input;
pub mod journal;
pub mod json;
pub mod laws;
pub mod names;
pub mod number;
pub mod numeral;
pub mod persist;
pub mod pointer;
pub mod replay;
pub mod rows;
pub mod sorted_map;
pub mod text;
pub mod tree;
pub mod value;
