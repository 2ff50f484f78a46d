//! Typed model of Stormworks microcontrollers and the exact attribute-tree
//! transformations that move it to and from the game's document format,
//! plus a decoder for the game's binary mesh format.
//!
//! - [`tree`]: the ordered attribute tree (duplicate keys, significant order).
//! - [`text`]: string comparison and canonical decimal numbers.
//! - [`types`]: signal types and IO directions.
//! - [`catalog`]: the slots of each node kind.
//! - [`quirks`]: the per-kind corrections between catalog and document shape.
//! - [`components`]: connection slots and nodes, with their tree forms.
//! - [`nodes`]: whole nodes to and from their `c` elements.
//! - [`microcontroller`]: the aggregate, id allocation, validation, and the
//!   whole document.
//! - [`mesh`]: the binary mesh decoder.

pub mod text;
pub mod types;
pub mod catalog;
pub mod tree;
pub mod quirks;
pub mod components;
pub mod microcontroller;
pub mod mesh;
pub mod nodes;
