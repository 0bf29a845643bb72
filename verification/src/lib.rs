pub mod text;
pub mod ingest;
pub mod footprint;
pub mod bar_core;
pub mod closer;
pub mod policy;
pub mod map_entry;
pub mod directory;
pub mod shard;
pub mod spsc;
pub mod worker;
pub mod hub;
pub mod exchange;
pub mod stream;
pub mod gateway;
