//! A caching, forwarding DNS resolver: the wire codec and the decisions of
//! the resolution pipeline, with their contracts.
use vstd::prelude::*;

pub mod cache;
pub mod dns;
pub mod resolver;
pub mod settings;
pub mod upstreams;

verus! {

} // verus!
