//! A family-lineage graph with validated insertion, vital-status tracking,
//! and a fixed-priority succession query.

pub mod laws;
pub mod lineage;
pub mod names;
pub mod person;
pub mod relations;
pub mod succession;

pub use lineage::{ConstructionError, KillError, Lineage, ParentChildInfo};
pub use person::{Person, Sex};
