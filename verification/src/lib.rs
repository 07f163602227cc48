//! An embeddable HTTP/1.1 server engine: a verified request parser, router
//! with path-parameter extraction, traversal-safe static-file path checks,
//! and response serialization, all over plain bytes. Listening, reading and
//! writing sockets, threads and the filesystem live outside this crate and
//! hand the engine byte vectors.
pub mod bytes;
pub mod conn;
pub mod files;
pub mod handler;
pub mod laws;
pub mod params;
pub mod request;
pub mod routes;
pub mod wire;
pub mod request_type;
pub mod response;
pub mod status_code;

pub use conn::{handle_conn, ConnStep};
pub use files::{get_content_type_quick, secure_path};
pub use handler::{DemoHandler, Handler};
pub use params::ParamMap;
pub use request::{handle_request, Request, RouteOutcome};
pub use routes::{RequestHandler, Rh, RouteTable};
pub use request_type::{RequestType, Rt};
pub use response::Response;
pub use status_code::StatusCode;
