//! Socket descriptions: the text that asks for one socket, and the target
//! that it stands for.
//!
//! A description is read by three rules, the first that fits:
//! 1. `auto` and `:` ask for the loopback address and an automatic port.
//! 2. A colon and a port ask for the loopback address and that port.
//! 3. A host, or a host, a colon and a port. The host is an IPv4 literal, an
//!    IPv6 literal in square brackets, or a host name. Without a port the
//!    description asks for an automatic one.

use crate::addr::{
    address_text, family_of, host_end, host_end_in, ip_host_of, lemma_address_text,
    lemma_numeral_free, loopback_of, octet_of, port_of, read_ip_host, read_port, Address,
    IpAddress,
};
use crate::kind::{kind_of_label, Family, Protocol, SocketKind};
use crate::port::PortCursor;
use crate::text::{
    chars_of, decimal_text, digits_in, equal_in, find, find_in, is_digit, is_digits,
    lemma_decimal_text, lemma_find, lemma_find_is, lemma_split, split, split_in,
};
use vstd::prelude::*;

verus! {

/// Where a socket is to be bound: an address, or a name that stands for one.
#[derive(Clone, Debug, PartialEq, Eq)]
pub enum Host {
    Ip(IpAddress),
    Name(String),
}

/// A host, with the name as a sequence of characters.
pub enum HostView {
    Ip(IpAddress),
    Name(Seq<char>),
}

impl View for Host {
    type V = HostView;

    open spec fn view(&self) -> HostView {
        match self {
            Host::Ip(ip) => HostView::Ip(*ip),
            Host::Name(name) => HostView::Name(name@),
        }
    }
}

/// What one description asks for. An absent host stands for the loopback
/// address of the family, an absent port for an automatic one.
#[derive(Clone, Debug, PartialEq, Eq)]
pub struct SocketSpec {
    pub kind: SocketKind,
    pub host: Option<Host>,
    pub port: Option<u16>,
}

/// A `SocketSpec`, with the host by its view.
pub struct SocketSpecView {
    pub kind: SocketKind,
    pub host: Option<HostView>,
    pub port: Option<u16>,
}

impl View for SocketSpec {
    type V = SocketSpecView;

    open spec fn view(&self) -> SocketSpecView {
        SocketSpecView {
            kind: self.kind,
            host: match self.host {
                Some(h) => Some(h@),
                None => None,
            },
            port: self.port,
        }
    }
}

/// A host and a port: what a description stands for once its gaps are
/// filled.
#[derive(Clone, Debug, PartialEq, Eq)]
pub struct Endpoint {
    pub host: Host,
    pub port: u16,
}

/// An `Endpoint`, with the host by its view.
pub struct EndpointView {
    pub host: HostView,
    pub port: u16,
}

impl View for Endpoint {
    type V = EndpointView;

    open spec fn view(&self) -> EndpointView {
        EndpointView { host: self.host@, port: self.port }
    }
}

/// Why a description was rejected.
#[derive(Clone, Copy, Debug, PartialEq, Eq, Structural)]
pub enum ParseError {
    /// The description is no host, or its address is of the other family.
    InvalidAddress,
    /// The port is no number, or none that fits in sixteen bits.
    InvalidPort,
}

/// `c` may stand in a label of a host name.
pub open spec fn is_label_char(c: char) -> bool {
    is_digit(c) || ('a' <= c && c <= 'z') || ('A' <= c && c <= 'Z') || c == '-'
}

/// `s` is a label of a host name: up to 63 letters, digits and hyphens, the
/// first and the last no hyphen.
pub open spec fn is_label(s: Seq<char>) -> bool {
    &&& 1 <= s.len() <= 63
    &&& s[0] != '-'
    &&& s.last() != '-'
    &&& forall|i: int| 0 <= i < s.len() ==> is_label_char(#[trigger] s[i])
}

/// `s` is a host name: up to 253 characters, labels between dots, the last
/// label not a number.
pub open spec fn is_hostname(s: Seq<char>) -> bool {
    &&& 1 <= s.len() <= 253
    &&& !is_digits(split(s, '.').last())
    &&& forall|i: int| 0 <= i < split(s, '.').len() ==> is_label(#[trigger] split(s, '.')[i])
}

/// The host that `s` writes.
pub open spec fn host_of(s: Seq<char>) -> Option<HostView> {
    match ip_host_of(s) {
        Some(ip) => Some(HostView::Ip(ip)),
        None => if is_hostname(s) {
            Some(HostView::Name(s))
        } else {
            None
        },
    }
}

/// Whether a host may stand in a description of the family: a name may, an
/// address of the family may.
pub open spec fn host_fits(host: HostView, family: Family) -> bool {
    match host {
        HostView::Ip(ip) => family_of(ip) == family,
        HostView::Name(_) => true,
    }
}

/// The description `auto`.
pub open spec fn auto_text() -> Seq<char> {
    seq!['a', 'u', 't', 'o']
}

/// What a host with or without a port asks for: the third rule.
pub open spec fn hosted_of(s: Seq<char>, kind: SocketKind) -> Result<SocketSpecView, ParseError> {
    let end = host_end(s);
    let host = host_of(s.take(end));
    let port = if end == s.len() {
        Some(None)
    } else if s[end] == ':' && port_of(s.skip(end + 1)) is Some {
        Some(port_of(s.skip(end + 1)))
    } else {
        None
    };
    match (host, port) {
        (Some(h), Some(p)) => if host_fits(h, kind.family) {
            Ok(SocketSpecView { kind, host: Some(h), port: p })
        } else {
            Err(ParseError::InvalidAddress)
        },
        _ => Err(ParseError::InvalidAddress),
    }
}

/// What the description `s` asks for, as a socket of the given kind.
#[verifier::opaque]
pub open spec fn spec_of(s: Seq<char>, kind: SocketKind) -> Result<SocketSpecView, ParseError> {
    if s == auto_text() || s == seq![':'] {
        Ok(SocketSpecView { kind, host: None, port: None })
    } else if s.len() > 0 && s[0] == ':' {
        match port_of(s.skip(1)) {
            Some(p) => Ok(SocketSpecView { kind, host: None, port: Some(p) }),
            None => Err(ParseError::InvalidPort),
        }
    } else {
        hosted_of(s, kind)
    }
}

/// Where the description proper starts in a description that names its kind
/// itself: behind the name of a kind and `://`. None where `s` does not
/// start so.
pub open spec fn tag_of(s: Seq<char>) -> Option<(SocketKind, int)> {
    let k = find(s, ':');
    if k + 2 < s.len() && s[k + 1] == '/' && s[k + 2] == '/' && kind_of_label(s.take(k)) is Some {
        Some((kind_of_label(s.take(k))->0, k + 3))
    } else {
        None
    }
}

/// What the description `s` asks for, where it names its kind itself: the
/// name of a kind, `://`, and the description proper.
pub open spec fn tagged_of(s: Seq<char>) -> Result<SocketSpecView, ParseError> {
    match tag_of(s) {
        Some((kind, start)) => spec_of(s.skip(start), kind),
        None => Err(ParseError::InvalidAddress),
    }
}

/// The endpoint that a description stands for when the next automatic port
/// is `upcoming`. Without a port of its own it takes that one; when there is
/// none left, no port fits.
pub open spec fn endpoint_of(spec: SocketSpecView, upcoming: int) -> Result<
    EndpointView,
    ParseError,
> {
    let host = match spec.host {
        Some(h) => h,
        None => HostView::Ip(loopback_of(spec.kind.family)),
    };
    match spec.port {
        Some(p) => Ok(EndpointView { host, port: p }),
        None => if 0 <= upcoming < 65536 {
            Ok(EndpointView { host, port: upcoming as u16 })
        } else {
            Err(ParseError::InvalidPort)
        },
    }
}

/// Whether a description takes a port from the counter.
pub open spec fn takes_port(spec: SocketSpecView, upcoming: int) -> bool {
    spec.port is None && 0 <= upcoming < 65536
}

/// The endpoint that the description `s` stands for.
pub open spec fn parse_of(s: Seq<char>, kind: SocketKind, upcoming: int) -> Result<
    EndpointView,
    ParseError,
> {
    match spec_of(s, kind) {
        Ok(spec) => endpoint_of(spec, upcoming),
        Err(e) => Err(e),
    }
}

/// The counter after the description `s` has been read.
pub open spec fn upcoming_after(s: Seq<char>, kind: SocketKind, upcoming: int) -> int {
    match spec_of(s, kind) {
        Ok(spec) => if takes_port(spec, upcoming) {
            upcoming + 1
        } else {
            upcoming
        },
        Err(_) => upcoming,
    }
}

/// The first address of the family among the candidates.
pub open spec fn first_of_family(candidates: Seq<IpAddress>, family: Family) -> Option<IpAddress>
    decreases candidates.len(),
{
    if candidates.len() == 0 {
        None
    } else if family_of(candidates[0]) == family {
        Some(candidates[0])
    } else {
        first_of_family(candidates.drop_first(), family)
    }
}

/// Whether `s[from..to]` is a label of a host name.
fn label_in(s: &Vec<char>, from: usize, to: usize) -> (b: bool)
    requires
        from <= to <= s.len(),
    ensures
        b == is_label(s@.subrange(from as int, to as int)),
{
    let ghost w = s@.subrange(from as int, to as int);
    let n: usize = to - from;
    if n < 1 || n > 63 {
        return false;
    }
    proof {
        assert(w[0] == s@[from as int]);
        assert(w.last() == s@[to - 1]);
    }
    if s[from] == '-' || s[to - 1] == '-' {
        return false;
    }
    let mut i: usize = from;
    while i < to
        invariant
            from <= i <= to <= s.len(),
            w == s@.subrange(from as int, to as int),
            forall|j: int| 0 <= j < i - from ==> is_label_char(#[trigger] w[j]),
        decreases to - i,
    {
        let c = s[i];
        proof {
            assert(w[i - from] == s@[i as int]);
        }
        let fits = (c >= '0' && c <= '9') || (c >= 'a' && c <= 'z') || (c >= 'A' && c <= 'Z') || c
            == '-';
        if !fits {
            return false;
        }
        i = i + 1;
    }
    true
}

/// Whether `s[from..to]` is a host name.
fn hostname_in(s: &Vec<char>, from: usize, to: usize) -> (b: bool)
    requires
        from <= to <= s.len(),
    ensures
        b == is_hostname(s@.subrange(from as int, to as int)),
{
    let ghost w = s@.subrange(from as int, to as int);
    let ghost f = split(w, '.');
    let n: usize = to - from;
    if n < 1 || n > 253 {
        return false;
    }
    let fields = split_in(s, from, to, '.');
    proof {
        lemma_split(w, '.');
    }
    let last: usize = fields.len() - 1;
    if digits_in(s, fields[last].0, fields[last].1) {
        return false;
    }
    let mut i: usize = 0;
    while i < fields.len()
        invariant
            i <= fields@.len(),
            fields@.len() == f.len(),
            f == split(s@.subrange(from as int, to as int), '.'),
            to <= s.len(),
            forall|j: int|
                0 <= j < fields@.len() ==> from <= (#[trigger] fields@[j]).0 <= fields@[j].1 <= to,
            forall|j: int|
                0 <= j < fields@.len() ==> s@.subrange(
                    (#[trigger] fields@[j]).0 as int,
                    fields@[j].1 as int,
                ) == f[j],
            forall|j: int| 0 <= j < i ==> is_label(#[trigger] f[j]),
        decreases fields.len() - i,
    {
        if !label_in(s, fields[i].0, fields[i].1) {
            proof {
                assert(!is_label(f[i as int]));
            }
            return false;
        }
        i = i + 1;
    }
    true
}

/// Reads `s[from..to]` as a host. `s` holds the characters of `text`.
fn read_host(text: &str, s: &Vec<char>, from: usize, to: usize) -> (r: Option<Host>)
    requires
        s@ == text@,
        from <= to <= s.len(),
    ensures
        r is Some <==> host_of(s@.subrange(from as int, to as int)) is Some,
        r matches Some(h) ==> host_of(s@.subrange(from as int, to as int)) == Some(h@),
{
    match read_ip_host(s, from, to) {
        Some(ip) => Some(Host::Ip(ip)),
        None => {
            if hostname_in(s, from, to) {
                let name = text.substring_char(from, to);
                Some(Host::Name(String::from_str(name)))
            } else {
                None
            }
        },
    }
}

/// Whether a host may stand in a description of the family.
fn fits(host: &Host, family: Family) -> (b: bool)
    ensures
        b == host_fits(host@, family),
{
    match host {
        Host::Ip(ip) => ip.family() == family,
        Host::Name(_) => true,
    }
}

/// Reads `s[from..]` by the third rule. `s` holds the characters of `text`.
fn read_hosted(text: &str, s: &Vec<char>, from: usize, kind: SocketKind) -> (r: Result<
    SocketSpec,
    ParseError,
>)
    requires
        s@ == text@,
        from <= s.len(),
    ensures
        r matches Ok(spec) ==> hosted_of(s@.skip(from as int), kind) == Ok::<
            SocketSpecView,
            ParseError,
        >(spec@),
        r matches Err(e) ==> hosted_of(s@.skip(from as int), kind) == Err::<
            SocketSpecView,
            ParseError,
        >(e),
{
    let ghost w = s@.skip(from as int);
    let n: usize = s.len();
    let end = host_end_in(s, from);
    proof {
        assert(w.take(end - from) == s@.subrange(from as int, end as int));
    }
    let host = read_host(text, s, from, end);
    let port: Option<Option<u16>> = if end == n {
        Some(None)
    } else if s[end] == ':' {
        proof {
            assert(w[end - from] == s@[end as int]);
            assert(w.skip(end - from + 1) == s@.subrange(end + 1, n as int));
        }
        match read_port(s, end + 1, n) {
            Some(p) => Some(Some(p)),
            None => None,
        }
    } else {
        proof {
            assert(w[end - from] == s@[end as int]);
        }
        None
    };
    match (host, port) {
        (Some(h), Some(p)) => {
            if fits(&h, kind.family) {
                Ok(SocketSpec { kind, host: Some(h), port: p })
            } else {
                Err(ParseError::InvalidAddress)
            }
        },
        _ => Err(ParseError::InvalidAddress),
    }
}

/// Reads `s[from..]` by the three rules. `s` holds the characters of `text`.
fn read_spec(text: &str, s: &Vec<char>, from: usize, kind: SocketKind) -> (r: Result<
    SocketSpec,
    ParseError,
>)
    requires
        s@ == text@,
        from <= s.len(),
    ensures
        r matches Ok(spec) ==> spec_of(s@.skip(from as int), kind) == Ok::<
            SocketSpecView,
            ParseError,
        >(spec@),
        r matches Err(e) ==> spec_of(s@.skip(from as int), kind) == Err::<
            SocketSpecView,
            ParseError,
        >(e),
{
    let ghost w = s@.skip(from as int);
    let n: usize = s.len();
    proof {
        reveal(spec_of);
        assert(w == s@.subrange(from as int, n as int));
        reveal_strlit("auto");
        reveal_strlit(":");
        assert("auto"@ =~= auto_text());
        assert(":"@ =~= seq![':']);
    }
    if equal_in(s, from, n, "auto") || equal_in(s, from, n, ":") {
        Ok(SocketSpec { kind, host: None, port: None })
    } else if from < n && s[from] == ':' {
        proof {
            assert(w.skip(1) == s@.subrange(from + 1, n as int));
        }
        match read_port(s, from + 1, n) {
            Some(p) => Ok(SocketSpec { kind, host: None, port: Some(p) }),
            None => Err(ParseError::InvalidPort),
        }
    } else {
        read_hosted(text, s, from, kind)
    }
}

/// The kind whose name is `s[from..to]`.
fn read_kind(s: &Vec<char>, from: usize, to: usize) -> (r: Option<SocketKind>)
    requires
        from <= to <= s.len(),
    ensures
        r == kind_of_label(s@.subrange(from as int, to as int)),
{
    proof {
        reveal_strlit("raw");
        reveal_strlit("raw6");
        reveal_strlit("tcp");
        reveal_strlit("tcp6");
        reveal_strlit("udp");
        reveal_strlit("udp6");
        assert("raw"@ =~= seq!['r', 'a', 'w']);
        assert("raw6"@ =~= seq!['r', 'a', 'w', '6']);
        assert("tcp"@ =~= seq!['t', 'c', 'p']);
        assert("tcp6"@ =~= seq!['t', 'c', 'p', '6']);
        assert("udp"@ =~= seq!['u', 'd', 'p']);
        assert("udp6"@ =~= seq!['u', 'd', 'p', '6']);
    }
    if equal_in(s, from, to, "raw") {
        Some(SocketKind { protocol: Protocol::Raw, family: Family::V4 })
    } else if equal_in(s, from, to, "raw6") {
        Some(SocketKind { protocol: Protocol::Raw, family: Family::V6 })
    } else if equal_in(s, from, to, "tcp") {
        Some(SocketKind { protocol: Protocol::Tcp, family: Family::V4 })
    } else if equal_in(s, from, to, "tcp6") {
        Some(SocketKind { protocol: Protocol::Tcp, family: Family::V6 })
    } else if equal_in(s, from, to, "udp") {
        Some(SocketKind { protocol: Protocol::Udp, family: Family::V4 })
    } else if equal_in(s, from, to, "udp6") {
        Some(SocketKind { protocol: Protocol::Udp, family: Family::V6 })
    } else {
        None
    }
}

/// The kind that a description names itself, and where the description
/// proper starts.
pub(crate) fn read_tag(s: &Vec<char>) -> (r: Option<(SocketKind, usize)>)
    ensures
        r is Some <==> tag_of(s@) is Some,
        r matches Some((kind, start)) ==> tag_of(s@) == Some((kind, start as int)) && start
            <= s@.len(),
{
    let n: usize = s.len();
    let k = find_in(s, 0, n, ':');
    proof {
        assert(s@.subrange(0, n as int) == s@);
        assert(s@.take(k as int) == s@.subrange(0, k as int));
    }
    if n - k < 3 || s[k + 1] != '/' || s[k + 2] != '/' {
        return None;
    }
    match read_kind(s, 0, k) {
        Some(kind) => Some((kind, k + 3)),
        None => None,
    }
}

impl SocketSpec {
    /// Reads a description of a socket of the given kind.
    pub fn from_text(text: &str, kind: SocketKind) -> (r: Result<SocketSpec, ParseError>)
        ensures
            r matches Ok(spec) ==> spec_of(text@, kind) == Ok::<SocketSpecView, ParseError>(spec@),
            r matches Err(e) ==> spec_of(text@, kind) == Err::<SocketSpecView, ParseError>(e),
    {
        let s = chars_of(text);
        proof {
            assert(s@.skip(0) == s@);
        }
        read_spec(text, &s, 0, kind)
    }

    /// Reads a description that names its kind itself, such as
    /// `tcp6://[::1]:8080`.
    pub fn from_tagged(text: &str) -> (r: Result<SocketSpec, ParseError>)
        ensures
            r matches Ok(spec) ==> tagged_of(text@) == Ok::<SocketSpecView, ParseError>(spec@),
            r matches Err(e) ==> tagged_of(text@) == Err::<SocketSpecView, ParseError>(e),
    {
        let s = chars_of(text);
        match read_tag(&s) {
            Some((kind, start)) => read_spec(text, &s, start, kind),
            None => Err(ParseError::InvalidAddress),
        }
    }

    /// Fills the gaps of a description: the loopback address for an absent
    /// host, the next port of the counter for an absent port.
    pub fn assign(self, cursor: &mut PortCursor) -> (r: Result<Endpoint, ParseError>)
        ensures
            r matches Ok(e) ==> endpoint_of(self@, old(cursor)@) == Ok::<EndpointView, ParseError>(
                e@,
            ),
            r matches Err(e) ==> endpoint_of(self@, old(cursor)@) == Err::<
                EndpointView,
                ParseError,
            >(e),
            final(cursor)@ == if takes_port(self@, old(cursor)@) {
                old(cursor)@ + 1
            } else {
                old(cursor)@
            },
    {
        let host = match self.host {
            Some(h) => h,
            None => Host::Ip(IpAddress::loopback(self.kind.family)),
        };
        match self.port {
            Some(p) => Ok(Endpoint { host, port: p }),
            None => {
                if cursor.exhausted() {
                    Err(ParseError::InvalidPort)
                } else {
                    let p = cursor.next();
                    Ok(Endpoint { host, port: p })
                }
            },
        }
    }
}

/// Reads a description of a socket of the given kind and fills its gaps: the
/// endpoint that it stands for, with a port taken from the counter where it
/// names none.
pub fn parse(text: &str, kind: SocketKind, cursor: &mut PortCursor) -> (r: Result<
    Endpoint,
    ParseError,
>)
    ensures
        r matches Ok(e) ==> parse_of(text@, kind, old(cursor)@) == Ok::<EndpointView, ParseError>(
            e@,
        ),
        r matches Err(e) ==> parse_of(text@, kind, old(cursor)@) == Err::<
            EndpointView,
            ParseError,
        >(e),
        final(cursor)@ == upcoming_after(text@, kind, old(cursor)@),
{
    match SocketSpec::from_text(text, kind) {
        Ok(spec) => spec.assign(cursor),
        Err(e) => Err(e),
    }
}

/// The first address of the family among the candidates that a name
/// resolved to.
pub fn pick_address(candidates: &Vec<IpAddress>, family: Family) -> (r: Option<IpAddress>)
    ensures
        r == first_of_family(candidates@, family),
{
    let mut i: usize = 0;
    proof {
        assert(candidates@.skip(0) == candidates@);
    }
    while i < candidates.len()
        invariant
            i <= candidates@.len(),
            first_of_family(candidates@, family) == first_of_family(
                candidates@.skip(i as int),
                family,
            ),
        decreases candidates.len() - i,
    {
        let ghost rest = candidates@.skip(i as int);
        proof {
            assert(rest[0] == candidates@[i as int]);
            assert(rest.drop_first() == candidates@.skip(i + 1));
        }
        if candidates[i].family() == family {
            return Some(candidates[i]);
        }
        i = i + 1;
    }
    proof {
        assert(candidates@.skip(i as int).len() == 0);
    }
    None
}

/// A description with a port of its own stands for one endpoint whatever the
/// counter holds, and leaves the counter as it is. One without stands for
/// the port that the counter holds, so two counters that differ give two
/// endpoints.
pub proof fn lemma_parse_twice(s: Seq<char>, kind: SocketKind, first: int, second: int)
    requires
        spec_of(s, kind) is Ok,
        0 <= first < 65536,
        0 <= second < 65536,
    ensures
        spec_of(s, kind)->Ok_0.port is Some ==> parse_of(s, kind, first) == parse_of(
            s,
            kind,
            second,
        ) && upcoming_after(s, kind, first) == first,
        spec_of(s, kind)->Ok_0.port is None ==> parse_of(s, kind, first)->Ok_0.port == first
            && parse_of(s, kind, second)->Ok_0.port == second && upcoming_after(s, kind, first)
            == first + 1,
{
}

/// `first_of_family` is the candidate of the family before which no other
/// candidate of the family stands, and there is none only if no candidate is
/// of the family.
pub proof fn lemma_first_of_family(candidates: Seq<IpAddress>, family: Family)
    ensures
        first_of_family(candidates, family) is None <==> forall|i: int|
            0 <= i < candidates.len() ==> family_of(#[trigger] candidates[i]) != family,
        first_of_family(candidates, family) matches Some(ip) ==> exists|i: int|
            0 <= i < candidates.len() && #[trigger] candidates[i] == ip && family_of(ip) == family
                && forall|j: int| 0 <= j < i ==> family_of(#[trigger] candidates[j]) != family,
    decreases candidates.len(),
{
    if candidates.len() == 0 {
    } else if family_of(candidates[0]) == family {
        assert(candidates[0] == candidates[0]);
    } else {
        let rest = candidates.drop_first();
        lemma_first_of_family(rest, family);
        assert forall|i: int| 0 <= i < rest.len() implies rest[i] == candidates[i + 1] by {}
        if first_of_family(rest, family) is None {
            assert forall|i: int| 0 <= i < candidates.len() implies family_of(
                #[trigger] candidates[i],
            ) != family by {
                if i > 0 {
                    assert(rest[i - 1] == candidates[i]);
                }
            }
        } else {
            let ip = first_of_family(rest, family)->0;
            let i = choose|i: int|
                0 <= i < rest.len() && #[trigger] rest[i] == ip && family_of(ip) == family
                    && forall|j: int| 0 <= j < i ==> family_of(#[trigger] rest[j]) != family;
            assert(candidates[i + 1] == ip);
            assert forall|j: int| 0 <= j < i + 1 implies family_of(#[trigger] candidates[j])
                != family by {
                if j > 0 {
                    assert(rest[j - 1] == candidates[j]);
                }
            }
        }
    }
}

/// What is wrong with a description, in words.
pub open spec fn complaint_of(error: ParseError) -> Seq<char> {
    match error {
        ParseError::InvalidAddress => "invalid address"@,
        ParseError::InvalidPort => "invalid port"@,
    }
}

impl ParseError {
    /// What is wrong, in words.
    pub fn complaint(&self) -> (s: &'static str)
        ensures
            s@ == complaint_of(*self),
    {
        match self {
            ParseError::InvalidAddress => "invalid address",
            ParseError::InvalidPort => "invalid port",
        }
    }
}

/// Whether a description can be read as one of a socket of the family, and
/// if not, what is wrong with it.
pub open spec fn checked(s: Seq<char>, family: Family) -> Result<(), Seq<char>> {
    match spec_of(s, SocketKind { protocol: Protocol::Tcp, family }) {
        Ok(_) => Ok(()),
        Err(e) => Err(complaint_of(e)),
    }
}

/// Checks that a description can be read as one of a socket of the family.
fn check_socket(text: &str, family: Family) -> (r: Result<(), String>)
    ensures
        r is Ok <==> checked(text@, family) is Ok,
        r matches Err(m) ==> checked(text@, family) == Err::<(), Seq<char>>(m@),
{
    match SocketSpec::from_text(text, SocketKind { protocol: Protocol::Tcp, family }) {
        Ok(_) => Ok(()),
        Err(e) => Err(String::from_str(e.complaint())),
    }
}

/// Checks that a description can be read as one of an IPv4 socket; if not,
/// says what is wrong with it.
pub fn check_socket_v4(text: String) -> (r: Result<(), String>)
    ensures
        r is Ok <==> checked(text@, Family::V4) is Ok,
        r matches Err(m) ==> checked(text@, Family::V4) == Err::<(), Seq<char>>(m@),
{
    check_socket(text.as_str(), Family::V4)
}

/// Checks that a description can be read as one of an IPv6 socket; if not,
/// says what is wrong with it.
pub fn check_socket_v6(text: String) -> (r: Result<(), String>)
    ensures
        r is Ok <==> checked(text@, Family::V6) is Ok,
        r matches Err(m) ==> checked(text@, Family::V6) == Err::<(), Seq<char>>(m@),
{
    check_socket(text.as_str(), Family::V6)
}

/// How a description is read depends on the family of the kind and not on
/// its protocol: two kinds of one family read it alike.
pub proof fn lemma_protocol_free(s: Seq<char>, a: SocketKind, b: SocketKind)
    requires
        a.family == b.family,
    ensures
        spec_of(s, a) is Ok <==> spec_of(s, b) is Ok,
        spec_of(s, a) matches Ok(spec) ==> spec_of(s, b) == Ok::<SocketSpecView, ParseError>(
            SocketSpecView { kind: b, ..spec },
        ),
        spec_of(s, a) matches Err(e) ==> spec_of(s, b) == Err::<SocketSpecView, ParseError>(e),
{
    reveal(spec_of);
}

/// The text of a socket address is a description: it asks for that address
/// and that port, as a socket of any kind of the family of the address.
pub proof fn lemma_address_is_description(address: Address, kind: SocketKind)
    requires
        family_of(address.ip) == kind.family,
    ensures
        spec_of(address_text(address), kind) == Ok::<SocketSpecView, ParseError>(
            SocketSpecView {
                kind,
                host: Some(HostView::Ip(address.ip)),
                port: Some(address.port),
            },
        ),
{
    reveal(spec_of);
    lemma_address_text(address);
    let text = address_text(address);
    assert(auto_text()[0] == 'a');
    assert(seq![':'][0] == ':');
}

/// A sequence that starts with an opening bracket and does not end with a
/// closing one is no host.
proof fn lemma_open_bracket(s: Seq<char>)
    requires
        s.len() > 0,
        s[0] == '[',
        s.last() != ']',
    ensures
        host_of(s) is None,
{
    let f = split(s, '.');
    lemma_find(s, '.');
    lemma_split(s, '.');
    let k = find(s, '.');
    assert(f[0] == if k < s.len() {
        s.take(k)
    } else {
        s
    });
    if f[0].len() > 0 {
        assert(f[0][0] == '[');
        assert(!is_digit(f[0][0]));
        assert(!is_label_char(f[0][0]));
    }
    assert(octet_of(f[0]) is None);
    assert(!is_label(f[0]));
}

/// Writing a port behind a description adds nothing to what can be read. A
/// host without a port is read with the port as if it had been given none
/// and then that port; and behind a description that has a port, or what
/// stands for one, a second port is never read.
pub proof fn lemma_port_appended(s: Seq<char>, kind: SocketKind, port: u16)
    ensures
        hosted_of(s + seq![':'] + decimal_text(port as nat), kind) == if host_end(s) == s.len() {
            match hosted_of(s, kind) {
                Ok(spec) => Ok::<SocketSpecView, ParseError>(
                    SocketSpecView { port: Some(port), ..spec },
                ),
                Err(e) => Err(e),
            }
        } else {
            Err(ParseError::InvalidAddress)
        },
{
    let digits = decimal_text(port as nat);
    let t = s + seq![':'] + digits;
    let n = s.len() as int;
    lemma_decimal_text(port as nat);
    lemma_numeral_free(digits, ']');
    lemma_numeral_free(digits, ':');
    lemma_find(s, ']');
    lemma_find(s, ':');
    assert(t[n] == ':');
    assert(t.take(n) =~= s);
    assert(t.skip(n + 1) =~= digits);
    assert forall|j: int| 0 <= j < n implies t[j] == s[j] by {}
    assert forall|j: int| n < j < t.len() implies t[j] == digits[j - n - 1] by {}
    let end = host_end(s);
    if s.len() > 0 && s[0] == '[' {
        let close = find(s, ']');
        if close < n {
            lemma_find_is(t, ']', close);
            assert(host_end(t) == end);
        } else {
            assert forall|j: int| 0 <= j < t.len() implies t[j] != ']' by {
                if j < n {
                    assert(t[j] == s[j]);
                } else if j > n {
                    assert(t[j] == digits[j - n - 1]);
                }
            }
            lemma_find_is(t, ']', t.len() as int);
            assert(host_end(t) == t.len());
            assert(t.take(t.len() as int) =~= t);
            assert(s.take(n) =~= s);
            assert(t.last() == digits.last());
            assert(is_digit(digits.last()));
            lemma_open_bracket(t);
            lemma_open_bracket(s);
        }
    } else {
        let colon = find(s, ':');
        assert(t[0] != '[');
        lemma_find_is(t, ':', colon);
        assert(host_end(t) == end);
    }
    if end < n {
        assert(host_end(t) == end);
        assert(t[end] == s[end]);
        let rest = t.skip(end + 1);
        assert(rest[n - end - 1] == ':');
        assert(!is_digits(rest)) by {
            assert(!is_digit(rest[n - end - 1]));
        }
    } else if !(s.len() > 0 && s[0] == '[' && find(s, ']') >= n) {
        assert(host_end(t) == n);
        assert(s.take(n) =~= s);
    }
}

} // verus!
