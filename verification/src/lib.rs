//! A client-side implementation of the XML-RPC protocol: a typed value
//! model with a verified two-way XML codec, a fault record, and a request
//! abstraction over a pluggable transport.

pub mod b64;
pub mod bytes;
pub mod datetime;
pub mod dbl;
pub mod encode;
pub mod error;
pub mod escape;
pub mod ext;
pub mod fault;
pub mod numtext;
pub mod parser;
pub mod request;
pub mod transport;
pub mod value;

pub use error::{Error, ParseError};
pub use fault::Fault;
pub use parser::{parse_response, Parser, Response};
pub use request::Request;
pub use transport::Transport;
pub use value::{Date, DateTime, Time, Value};
