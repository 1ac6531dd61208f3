//! SIP transport logic: addressing, target selection, STUN keep-alives, capture redaction,
//! counters, timers and RFC 3263 resolution, each with its contract stated and proved.

pub mod addr;
pub mod addr_text;
pub mod capture;
pub mod counters;
pub mod destination;
pub mod dns;
pub mod endpoint;
pub mod error;
pub mod nat_traversal;
pub mod overload;
pub mod policy;
pub mod quic;
pub mod redact;
pub mod resolution;
pub mod resolve;
pub mod sip;
pub mod sort;
pub mod stun;
pub mod target;
pub mod tcp;
pub mod text;
pub mod timers;
pub mod tls;
pub mod ws;
