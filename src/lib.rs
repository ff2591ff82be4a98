//! A recursive DNS resolver core: the wire-format codec for DNS messages and
//! the iterative resolution state machine that walks delegations from a root
//! name server toward an authoritative answer.
pub mod addr;
pub mod error;
pub mod header;
pub mod name;
pub mod packet;
pub mod packet_buffer;
pub mod query;
pub mod query_type;
pub mod resolver;
pub mod resource_record;
pub mod return_code;
pub mod round_trip;
