//! A self-describing binary serialization library for tree-shaped data.
//!
//! Values are modelled as leaf trees: n-ary trees whose only data is a single
//! byte at each leaf. A family of codecs turns such a tree into a flat byte
//! sequence and back; the most interesting codec detects repeated subtrees and
//! replaces later occurrences with back-references into a dictionary that the
//! encoder and decoder maintain in lock-step.
//!
//! Higher-level typed value trees (interior nodes carry a type id and group
//! children under field ids, leaves carry a type id and a byte payload) are
//! flattened into leaf trees by a reversible adapter, so the same codecs serve
//! both layers.

pub mod basic_encoding;
pub mod encoding;
pub mod into_typed_value_tree;
pub mod leaf_tree;
pub mod leaf_tree_template;
pub mod prefix_encoding;
pub mod test_data;
pub mod type_to_leaf;
pub mod typed_value_tree;
