//! A small plain message, used to exercise a transport.

use vstd::prelude::*;

verus! {

#[derive(Clone, Debug)]
pub struct Message {
    pub x: u32,
    pub s: String,
}

} // verus!
