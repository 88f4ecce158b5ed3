//! Server-side HTTP/1.1 message framing: request parsing, content-encoding
//! negotiation, body compression and response serialization.
pub mod body;
pub mod text;
pub mod number;
pub mod headers;
pub mod status;
pub mod request;
pub mod encoding;
pub mod response;
pub mod routes;
