//! Reorders the top-level sections of a parsed TOML document, and the
//! key/value entries inside one section, while leaving every byte of
//! formatting that is not explicitly reordered untouched.
//!
//! The document itself is parsed and printed by taplo; this crate works on
//! taplo's lossless syntax tree through a small trusted boundary
//! ([`syn`]), and all ordering decisions are made on a plain model of the
//! tree's children ([`elem::Elem`]), where they are verified.

pub mod elem;
pub mod entries;
pub mod keys;
pub mod order;
pub mod segment;
pub mod syn;
pub mod tables;

pub use elem::{Elem, ElemKind};
pub use entries::{for_entries, reorder_table_keys};
pub use keys::get_key;
pub use order::calculate_order;
pub use syn::{node_children, node_text, parse_mutable, El, Node};
pub use tables::{get_table_name, TableError, Tables};
