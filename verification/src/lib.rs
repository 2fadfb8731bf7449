//! A caching reverse proxy for package mirrors: the verified core.

pub mod cache;
pub mod decimal;
pub mod lru;
pub mod models;
pub mod settings;
pub mod size;
pub mod storage;
pub mod task;
pub mod text;
pub mod util;
