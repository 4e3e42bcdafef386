//! A sans-IO HTTP/2 server codec over the `h2` crate.
pub mod buffer;
pub mod call_laws;
pub mod connection;
pub mod connection_laws;
pub mod drive_laws;
pub mod error;
pub mod event;
pub mod flush_laws;
pub mod head;
pub mod history_laws;
pub mod model;
pub mod outside;
pub mod past;
pub mod receiving;
pub mod sending;
pub mod stream_laws;
pub mod text;
pub mod value_laws;
