//! Early-boot building blocks for a bare-metal kernel: a double-ended
//! bootstrap region allocator, an FNV-1a hasher, and a fixed-bucket chained
//! map from text keys to integers.

pub mod align;
pub mod bump;
pub mod bump_laws;
pub mod console;
pub mod hash;
pub mod hashmap;
pub mod hashmap_laws;
