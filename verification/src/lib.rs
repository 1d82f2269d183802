
pub mod audit;
pub mod dirscan;
pub mod kvmap;
pub mod laws;
pub mod query;
pub mod record;
pub mod stats;
pub mod store;
pub mod summary;
pub mod strutil;
pub mod timefmt;


