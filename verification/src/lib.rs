//! Core of a small diagnostic service that reports how a client is seen on
//! the wire: the address and port to report for a request — the transport
//! peer's own, unless a reverse proxy forwarded the real client's in the
//! `X-Real-IP` and `X-Real-Port` headers — together with the reverse-DNS
//! hostname of that address, degraded to an empty string when no name can
//! be found, all serialized as a three-field JSON object.

pub mod endpoint;
pub mod handler;
pub mod headers;
pub mod hostname;
pub mod ip;
pub mod response;
