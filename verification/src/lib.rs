use vstd::prelude::*;

pub mod client;
pub mod dev;
pub mod error;
pub mod head;
pub mod laws;
pub mod limits;
pub mod num;
pub mod pem;
pub mod pem_laws;
pub mod request;
pub mod response;
pub mod server;
pub mod text;
pub mod unicode;
pub mod url;
pub mod url_laws;
pub mod wire;

pub use client::ClientError;
pub use error::ProtocolError;
pub use request::Request;
pub use response::{Response, Status};
pub use url::{canonicalize_path, decode_path, encode_path, SonionUrl};

verus! {

/// Default TCP port of the protocol.
pub const DEFAULT_PORT: u16 = 6767;

/// The ALPN protocol name negotiated over TLS.
pub const ALPN: &'static str = "sonion/1";

} // verus!
