//! A verified subset of the DNS wire protocol: the fixed 12-byte header,
//! domain names with label compression, resource-record framing, whole
//! messages, and the pure decision logic of a forwarding proxy that splits
//! multi-question queries and merges the answers.

pub mod utils;
pub mod dns_header;
pub mod dns_record;
pub mod dns_msg;
pub mod proxy;
