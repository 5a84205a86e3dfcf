//! Verified core of the pipestream durable-work protocol.
#![allow(unused_imports)]

pub mod addresses;
pub mod cbor;
pub mod declarations;
pub mod hashing;
pub mod ipv6;
pub mod spelling;
pub mod text;
pub mod v2;
pub mod work_set;
