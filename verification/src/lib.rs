//! An HTTP/1.1 request parser built on raw bytes, with the response
//! framing that an HTTP server writes back.

pub mod error;
pub mod handler;
pub mod headers;
pub mod lines;
pub mod request;
pub mod server;
pub mod text;
