//! A small in-memory key-value server core: the RESP wire codec, the RDB
//! snapshot decoder, command classification and an expiring store.
use vstd::prelude::*;

pub mod config;
pub mod decimal;
pub mod message;
pub mod rdb;
pub mod resp;
pub mod server;
pub mod store;


verus! {

} // verus!
