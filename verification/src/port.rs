//! Automatic assignment of ports.

use vstd::prelude::*;

verus! {

/// The port at which automatic assignment starts unless another is asked for.
pub const DEFAULT_BASE: u16 = 5000;

/// A counter that hands out ports in increasing order, one group of sockets
/// to a counter. Once it has handed out 65535 it is exhausted.
#[derive(Clone, Copy, Debug, PartialEq, Eq, Structural)]
pub struct PortCursor {
    /// The port that comes next; none once the counter is exhausted.
    pub upcoming: Option<u16>,
}

impl View for PortCursor {
    type V = int;

    /// The port that comes next; 65536 once the counter is exhausted.
    open spec fn view(&self) -> int {
        match self.upcoming {
            Some(p) => p as int,
            None => 65536,
        }
    }
}

impl PortCursor {
    /// A counter whose first port is `base`.
    pub fn new(base: u16) -> (cursor: PortCursor)
        ensures
            cursor@ == base,
    {
        PortCursor { upcoming: Some(base) }
    }

    /// Whether every port has been handed out.
    pub fn exhausted(&self) -> (b: bool)
        ensures
            b == (self@ == 65536),
    {
        self.upcoming.is_none()
    }

    /// Hands out the next port.
    pub fn next(&mut self) -> (port: u16)
        requires
            old(self)@ < 65536,
        ensures
            port == old(self)@,
            final(self)@ == old(self)@ + 1,
    {
        let port = match self.upcoming {
            Some(p) => p,
            None => 0,
        };
        self.upcoming = port.checked_add(1);
        port
    }
}

} // verus!
