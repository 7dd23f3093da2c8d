//! Network identity helpers.
use vstd::prelude::*;

verus! {

/// The numeric device id formed from the last three octets of a MAC
/// address, read as a 24-bit big-endian value.
pub fn mac_id(mac: &[u8]) -> (id: u32)
    requires
        mac@.len() == 6,
    ensures
        id == mac@[3] * 0x10000 + mac@[4] * 0x100 + mac@[5],
        id < 0x100_0000,
{
    (mac[3] as u32) * 0x10000 + (mac[4] as u32) * 0x100 + (mac[5] as u32)
}

} // verus!
