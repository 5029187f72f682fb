//! The kinds of socket: a transport protocol in an address family.

use vstd::prelude::*;

verus! {

/// Transport protocol of a socket.
#[derive(Clone, Copy, Debug, PartialEq, Eq, Structural)]
pub enum Protocol {
    Raw,
    Tcp,
    Udp,
}

/// Address family of a socket.
#[derive(Clone, Copy, Debug, PartialEq, Eq, Structural)]
pub enum Family {
    V4,
    V6,
}

/// A protocol in a family: one of six groups of sockets.
#[derive(Clone, Copy, Debug, PartialEq, Eq, Structural)]
pub struct SocketKind {
    pub protocol: Protocol,
    pub family: Family,
}

/// What the system is asked for when a socket of some kind is created.
#[derive(Clone, Copy, Debug, PartialEq, Eq, Structural)]
pub enum Transport {
    /// A connection-oriented byte stream.
    Stream,
    /// Single datagrams.
    Datagram,
    /// Raw IP packets, under the fixed raw-IP protocol number.
    RawIp,
}

/// The protocol number under which every raw socket is created.
pub const RAW_IP_PROTOCOL: i32 = 255;

/// The backlog of every listening socket: one pending connection.
pub const BACKLOG: i32 = 1;

/// The number of kinds.
pub const KINDS: u8 = 6;

/// Place of a kind in the order in which groups are opened.
pub open spec fn rank_of(kind: SocketKind) -> int {
    2 * (match kind.protocol {
        Protocol::Raw => 0int,
        Protocol::Tcp => 1int,
        Protocol::Udp => 2int,
    }) + (match kind.family {
        Family::V4 => 0int,
        Family::V6 => 1int,
    })
}

/// The name of a kind, as it is written on a command line and in reports.
pub open spec fn label_of(kind: SocketKind) -> Seq<char> {
    let stem = match kind.protocol {
        Protocol::Raw => seq!['r', 'a', 'w'],
        Protocol::Tcp => seq!['t', 'c', 'p'],
        Protocol::Udp => seq!['u', 'd', 'p'],
    };
    match kind.family {
        Family::V4 => stem,
        Family::V6 => stem.push('6'),
    }
}

/// The kind that a name stands for.
pub open spec fn kind_of_label(s: Seq<char>) -> Option<SocketKind> {
    if s == seq!['r', 'a', 'w'] {
        Some(SocketKind { protocol: Protocol::Raw, family: Family::V4 })
    } else if s == seq!['r', 'a', 'w', '6'] {
        Some(SocketKind { protocol: Protocol::Raw, family: Family::V6 })
    } else if s == seq!['t', 'c', 'p'] {
        Some(SocketKind { protocol: Protocol::Tcp, family: Family::V4 })
    } else if s == seq!['t', 'c', 'p', '6'] {
        Some(SocketKind { protocol: Protocol::Tcp, family: Family::V6 })
    } else if s == seq!['u', 'd', 'p'] {
        Some(SocketKind { protocol: Protocol::Udp, family: Family::V4 })
    } else if s == seq!['u', 'd', 'p', '6'] {
        Some(SocketKind { protocol: Protocol::Udp, family: Family::V6 })
    } else {
        None
    }
}

/// `a` comes before `b` in dictionary order, or is equal to it.
pub open spec fn lex_le(a: Seq<char>, b: Seq<char>) -> bool
    decreases a.len(),
{
    if a.len() == 0 {
        true
    } else if b.len() == 0 {
        false
    } else if a[0] != b[0] {
        a[0] < b[0]
    } else {
        lex_le(a.drop_first(), b.drop_first())
    }
}

impl SocketKind {
    /// The kind of a protocol in a family.
    pub fn new(protocol: Protocol, family: Family) -> (k: SocketKind)
        ensures
            k == (SocketKind { protocol, family }),
    {
        SocketKind { protocol, family }
    }

    /// Place of this kind in the order in which groups are opened: raw
    /// before TCP before UDP, and IPv4 before IPv6 within each.
    pub fn rank(&self) -> (r: u8)
        ensures
            r == rank_of(*self),
            r < KINDS,
    {
        let p: u8 = match self.protocol {
            Protocol::Raw => 0,
            Protocol::Tcp => 1,
            Protocol::Udp => 2,
        };
        let f: u8 = match self.family {
            Family::V4 => 0,
            Family::V6 => 1,
        };
        2 * p + f
    }

    /// The kind at a place of the opening order.
    pub fn of_rank(r: u8) -> (k: Option<SocketKind>)
        ensures
            k is Some <==> r < KINDS,
            k matches Some(kind) ==> rank_of(kind) == r,
    {
        let family = if r % 2 == 0 {
            Family::V4
        } else {
            Family::V6
        };
        if r < 2 {
            Some(SocketKind { protocol: Protocol::Raw, family })
        } else if r < 4 {
            Some(SocketKind { protocol: Protocol::Tcp, family })
        } else if r < 6 {
            Some(SocketKind { protocol: Protocol::Udp, family })
        } else {
            None
        }
    }

    /// The name of this kind.
    pub fn label(&self) -> (s: &'static str)
        ensures
            s@ == label_of(*self),
    {
        proof {
            reveal_strlit("raw");
            reveal_strlit("raw6");
            reveal_strlit("tcp");
            reveal_strlit("tcp6");
            reveal_strlit("udp");
            reveal_strlit("udp6");
        }
        let s = match (self.protocol, self.family) {
            (Protocol::Raw, Family::V4) => "raw",
            (Protocol::Raw, Family::V6) => "raw6",
            (Protocol::Tcp, Family::V4) => "tcp",
            (Protocol::Tcp, Family::V6) => "tcp6",
            (Protocol::Udp, Family::V4) => "udp",
            (Protocol::Udp, Family::V6) => "udp6",
        };
        assert(s@ =~= label_of(*self));
        s
    }

    /// What kind of transport the system is asked for.
    pub fn transport(&self) -> (t: Transport)
        ensures
            t == (match self.protocol {
                Protocol::Raw => Transport::RawIp,
                Protocol::Tcp => Transport::Stream,
                Protocol::Udp => Transport::Datagram,
            }),
    {
        match self.protocol {
            Protocol::Raw => Transport::RawIp,
            Protocol::Tcp => Transport::Stream,
            Protocol::Udp => Transport::Datagram,
        }
    }

    /// Whether a socket of this kind is bound to its address: all but raw
    /// sockets are.
    pub fn binds(&self) -> (b: bool)
        ensures
            b == (self.protocol != Protocol::Raw),
    {
        match self.protocol {
            Protocol::Raw => false,
            _ => true,
        }
    }

    /// Whether a socket of this kind is made to listen: TCP sockets are.
    pub fn listens(&self) -> (b: bool)
        ensures
            b == (self.protocol == Protocol::Tcp),
    {
        match self.protocol {
            Protocol::Tcp => true,
            _ => false,
        }
    }
}

/// A name stands for the kind that it is the name of, and for no other.
pub proof fn lemma_label_names_kind(kind: SocketKind, s: Seq<char>)
    ensures
        kind_of_label(label_of(kind)) == Some(kind),
        kind_of_label(s) == Some(kind) ==> s == label_of(kind),
{
    let l = label_of(kind);
    assert(l.len() == 3 || l.len() == 4);
    assert(seq!['r', 'a', 'w'][0] == 'r');
    assert(seq!['r', 'a', 'w', '6'][0] == 'r');
    assert(seq!['t', 'c', 'p'][0] == 't');
    assert(seq!['t', 'c', 'p', '6'][0] == 't');
    assert(seq!['u', 'd', 'p'][0] == 'u');
    assert(seq!['u', 'd', 'p', '6'][0] == 'u');
    assert(seq!['r', 'a', 'w'].len() == 3);
    assert(seq!['r', 'a', 'w', '6'].len() == 4);
    assert(seq!['t', 'c', 'p'].len() == 3);
    assert(seq!['t', 'c', 'p', '6'].len() == 4);
    assert(seq!['u', 'd', 'p'].len() == 3);
    assert(seq!['u', 'd', 'p', '6'].len() == 4);
    assert(seq!['r', 'a', 'w'].push('6') =~= seq!['r', 'a', 'w', '6']);
    assert(seq!['t', 'c', 'p'].push('6') =~= seq!['t', 'c', 'p', '6']);
    assert(seq!['u', 'd', 'p'].push('6') =~= seq!['u', 'd', 'p', '6']);
}

/// Two kinds with one rank are one kind.
pub proof fn lemma_rank_injective(a: SocketKind, b: SocketKind)
    requires
        rank_of(a) == rank_of(b),
    ensures
        a == b,
{
}

/// The opening order of the kinds is the dictionary order of their names.
pub proof fn lemma_rank_is_label_order(a: SocketKind, b: SocketKind)
    ensures
        rank_of(a) <= rank_of(b) <==> lex_le(label_of(a), label_of(b)),
{
    reveal_with_fuel(lex_le, 5);
    let la = label_of(a);
    let lb = label_of(b);
    assert(la.drop_first().drop_first().drop_first().len() <= 1);
    if a.protocol == b.protocol {
        assert(la[0] == lb[0] && la[1] == lb[1] && la[2] == lb[2]);
        let ra = la.drop_first().drop_first().drop_first();
        let rb = lb.drop_first().drop_first().drop_first();
        assert(lex_le(la, lb) == lex_le(ra, rb));
        if a.family == Family::V6 {
            assert(ra.len() == 1);
            assert(ra.drop_first().len() == 0);
        }
    } else {
        assert(la[0] != lb[0]);
    }
}

} // verus!
