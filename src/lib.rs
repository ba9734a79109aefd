//! A small static-file HTTP server core: request-line parsing, request
//! validation, document-root resolution decisions, response assembly and
//! log-record formatting.
pub mod log;
pub mod request;
pub mod resolve;
pub mod response;
pub mod text;
pub mod validate;
