//! The playback devices a client asks for, of which there are none.
//!
//! The list stays because a client reads it: an empty one is the right
//! answer from a server that cannot cast.
use vstd::prelude::*;

verus! {

/// One playback device.
#[derive(Debug, Clone)]
pub struct Device {
    pub id: String,
    pub name: String,
    pub address: String,
    pub port: u16,
    pub device_type: String,
    pub model: Option<String>,
}

} // verus!
