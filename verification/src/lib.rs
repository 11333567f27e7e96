pub mod api;
pub mod binder;
pub mod bytes;
pub mod config;
pub mod hashes;
pub mod db;
pub mod lnd;
pub mod lsat;
pub mod upstream;
