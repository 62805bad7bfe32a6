//! A minimal synchronous HTTP/1.1 request parser and response serializer.

pub mod fields;
pub mod server;
pub mod text;
