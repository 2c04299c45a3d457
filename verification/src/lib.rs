//! A DNS/mDNS wire-protocol codec and an mDNS service responder.
//!
//! The codec turns raw UDP payload bytes into structured DNS messages
//! (header, questions, resource records) and back, honoring DNS name
//! compression.  The responder layer holds an authoritative table of
//! resource records, matches queries against it, and synthesizes replies
//! with SRV-to-address enrichment and unicast/multicast reply routing.

pub mod errors;
pub mod header;
pub mod name;
pub mod packet;
pub mod question;
pub mod resource_record;
pub mod responder;
pub mod store;
pub mod types;
pub mod wire;

use vstd::prelude::*;

verus! {

/// The well-known mDNS IPv4 multicast group, as its four octets.
pub const MULTICAST_ADDR_OCTETS: (u8, u8, u8, u8) = (224, 0, 0, 251);

/// The well-known mDNS UDP port.
pub const MULTICAST_PORT: u16 = 5353;

} // verus!
