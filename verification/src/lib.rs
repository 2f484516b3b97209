//! A small network service protocol: length-prefixed JSON headers followed
//! by AES-128 encrypted custom data, with the byte-level logic verified.

pub mod frame;
pub mod crypto;
pub mod net_service;
