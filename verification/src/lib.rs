//! A fixed-capacity, allocation-free map of physical memory regions for
//! early boot, kept sorted by start address with unused slots at the tail.

pub mod descriptor;
pub mod order;
pub mod region_map;
pub mod theorems;
mod seq_facts;
