//! Process-wide typed storages with a verified multi-resource reader/writer
//! arbitration protocol, a sorted-merge AND-join over entity-keyed component
//! tables, a monotonic entity id allocator, and a dependency-ranked system
//! scheduler that partitions independent work into conflict-free stages.

pub mod component;
pub mod entity;
pub mod resource;
pub mod static_storage;
pub mod system;
