//! The logic of a local streaming server: disc images, archives, the files
//! on this machine, and the rules the server runs by.
pub mod addr;
pub mod archives;
pub mod auth;
pub mod cache_budget;
pub mod cache_cleaner;
pub mod config;
pub mod devices;
pub mod diagnostics;
pub mod encoding;
pub mod https;
pub mod images;
pub mod lan_media;
pub mod lifecycle;
pub mod local_addon;
pub mod numbers;
pub mod order;
pub mod paths;
pub mod server;
pub mod text;
pub mod trackers;
pub mod traffic;
