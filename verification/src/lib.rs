//! Cache-sensitive skip list: an immutable, bulk-built ordered index over
//! `u32` keys, supporting point lookup (`find`) and inclusive range lookup
//! (`find_range`) over a linearized hierarchy of fast lanes.

pub mod skiplist;
pub mod sorting;
