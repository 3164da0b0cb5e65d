//! The resolved-address type: a parsed IPv4 or IPv6 address held as plain
//! integers, immutable once produced.

use vstd::prelude::*;

verus! {

/// A parsed network address. IPv4 addresses carry their four octets; IPv6
/// addresses carry their eight 16-bit groups in order.
#[derive(Clone, Copy, Debug, PartialEq, Eq, Structural)]
pub enum IpAddress {
    V4(u8, u8, u8, u8),
    V6(u16, u16, u16, u16, u16, u16, u16, u16),
}

} // verus!
