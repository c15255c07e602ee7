//! Layered timeline storage: the core of a branchable, log-structured page
//! store. A repository holds timelines; each timeline keeps its recent page
//! versions in an open in-memory layer and its older ones in immutable
//! delta and image layers, and reads fall through to the timeline it was
//! branched from.

pub mod checkpoint;
pub mod crc;
pub mod filename;
pub mod gc;
pub mod guarantees;
pub mod isolation;
pub mod layer;
pub mod layer_file;
pub mod layer_map;
pub mod list;
pub mod load;
pub mod lsn;
pub mod manage;
pub mod metadata;
pub mod page;
pub mod read;
pub mod readback;
pub mod relish;
pub mod repository;
pub mod retention;
pub mod size_cache;
pub mod timeline;
pub mod write;
