//! Data plane of a named-data packet forwarder: the TLV wire codec, the
//! dispatcher that assigns packets to shards, the pending interest table with
//! its dead nonce list, and the Interest/Data pipeline built on them.

pub mod dispatch;
pub mod face;
pub mod hash;
pub mod mgmt;
pub mod pipeline;
pub mod table;
pub mod tlv;
