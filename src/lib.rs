//! DNS wire-format codec: resource records, record headers, EDNS options
//! and domain-name compression, with their encodings proved exact.

pub mod octets;
pub mod opt;
pub mod base16;
pub mod name;
pub mod compress;
pub mod iana;
pub mod rdata;
pub mod record;
