//! Socket addresses as the library models them.
//!
//! The daemon listens and dials on IPv4 addresses, written `a.b.c.d:port` on
//! the wire.  The library keeps the four octets and the port as plain
//! integers; the process that owns the sockets converts to and from the
//! operating system's address type.

use vstd::prelude::*;

verus! {

#[derive(Debug, PartialEq, Eq, Structural, Clone, Copy, Hash)]
pub struct Addr {
    pub ip0: u8,
    pub ip1: u8,
    pub ip2: u8,
    pub ip3: u8,
    pub port: u16,
}

impl Addr {
    pub fn new(ip0: u8, ip1: u8, ip2: u8, ip3: u8, port: u16) -> (a: Addr)
        ensures
            a == (Addr { ip0, ip1, ip2, ip3, port }),
    {
        Addr { ip0, ip1, ip2, ip3, port }
    }

    /// The loopback address on the given port.
    pub fn loopback(port: u16) -> (a: Addr)
        ensures
            a == (Addr { ip0: 127, ip1: 0, ip2: 0, ip3: 0, port }),
    {
        Addr { ip0: 127, ip1: 0, ip2: 0, ip3: 0, port }
    }
}

} // verus!
