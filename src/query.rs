//! The bodies of the requests that create parts and change children.

use vstd::prelude::*;

verus! {

/// A request to create the part `name`.
#[derive(Debug)]
pub struct NewPart {
    pub name: String,
}

/// The children that an update request links, unlinks or puts in place.
#[derive(Debug)]
pub struct UpdateChildren {
    pub children: Vec<u128>,
}

} // verus!
