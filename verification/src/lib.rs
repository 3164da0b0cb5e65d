//! A small library that resolves a client's IP address from common proxy
//! headers, falling back to the transport peer address when no header is
//! usable.
//!
//! Design note: the resolver trusts any client-supplied header without
//! checking that the immediate peer is a trusted reverse proxy. That is the
//! intended, documented policy of this service, and a known weakness: a
//! client can spoof these headers freely.

pub mod bytes;
pub mod ip;
pub mod laws;
pub mod parse;
pub mod render;
pub mod resolve;

pub use ip::IpAddress;
pub use parse::parse_ip_bytes;
pub use render::ip_to_text;
pub use render::lemma_ip_text_nonempty;
pub use resolve::client_ip_body;
pub use resolve::livez_body;
pub use resolve::resolve;
pub use resolve::HeaderEntry;
pub use resolve::Headers;
