//! The add-on that serves the files on this machine.
pub mod parser;
pub mod sha1;
pub mod streams;
pub mod torrent;
pub mod written;
