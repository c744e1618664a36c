//! A slotted B-tree leaf page: an ordered map from `u64` keys to byte strings,
//! packed into one fixed-size buffer.

pub mod btree;
