//! Operators as the exchange format defines them.

pub mod slice;
