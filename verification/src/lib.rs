//! Verified core of an asset-tree indexing and entity-template generation
//! library: an incremental prefab index with deletion handling, a three-tier
//! socket-name resolver, and brace-depth-aware text generators for entity
//! templates and destructible-zone presets.
pub mod dstgen;
pub mod etgen;
pub mod ident;
pub mod index;
pub mod meta;
pub mod paths;
pub mod resolver;
pub mod scan;
pub mod strconv;
pub mod strmap;
pub mod text;
