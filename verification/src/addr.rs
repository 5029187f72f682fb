//! IP addresses, their literals, and socket addresses.
//!
//! An IPv4 literal is four decimal octets between dots, none with a leading
//! zero. An IPv6 literal is eight groups of one to four hexadecimal digits
//! between colons; one run of zero groups may be written `::`, and the last
//! two groups may be written as an IPv4 literal.

use crate::kind::Family;
use crate::text::{
    chars_of, decimal_text, find, find_in, free_of, hex_text, is_digit, is_digits, is_hex_digit,
    is_hex_digits, joined, lemma_decimal_text, lemma_find, lemma_find_is, lemma_hex_text,
    lemma_joined_first,
    lemma_joined_free, lemma_joined_no_pair, lemma_split, lemma_split_joined, numeral_value,
    numerals_of, pair_at, push_decimal, push_numerals, read_numeral, split, split_in,
};
use vstd::prelude::*;

verus! {

/// An IP address: four octets, or eight groups of sixteen bits.
#[derive(Clone, Copy, Debug, PartialEq, Eq, Structural)]
pub enum IpAddress {
    V4(u8, u8, u8, u8),
    V6(u16, u16, u16, u16, u16, u16, u16, u16),
}

/// An IP address and a port.
#[derive(Clone, Copy, Debug, PartialEq, Eq, Structural)]
pub struct Address {
    pub ip: IpAddress,
    pub port: u16,
}

/// The family that an address belongs to.
pub open spec fn family_of(ip: IpAddress) -> Family {
    match ip {
        IpAddress::V4(..) => Family::V4,
        IpAddress::V6(..) => Family::V6,
    }
}

/// The loopback address of a family: `127.0.0.1` or `::1`.
pub open spec fn loopback_of(family: Family) -> IpAddress {
    match family {
        Family::V4 => IpAddress::V4(127, 0, 0, 1),
        Family::V6 => IpAddress::V6(0, 0, 0, 0, 0, 0, 0, 1),
    }
}

impl IpAddress {
    /// Reads an IP literal: an IPv4 literal such as `192.0.2.1`, or an IPv6
    /// literal such as `2001:db8::1`.
    pub fn from_text(text: &str) -> (r: Option<IpAddress>)
        ensures
            r == ip_of(text@),
    {
        let s = chars_of(text);
        proof {
            assert(s@.subrange(0, s@.len() as int) == s@);
        }
        match read_ipv4(&s, 0, s.len()) {
            Some(ip) => Some(ip),
            None => read_ipv6(&s, 0, s.len()),
        }
    }

    /// The family that this address belongs to.
    pub fn family(&self) -> (f: Family)
        ensures
            f == family_of(*self),
    {
        match self {
            IpAddress::V4(..) => Family::V4,
            IpAddress::V6(..) => Family::V6,
        }
    }

    /// The loopback address of a family.
    pub fn loopback(family: Family) -> (ip: IpAddress)
        ensures
            ip == loopback_of(family),
    {
        match family {
            Family::V4 => IpAddress::V4(127, 0, 0, 1),
            Family::V6 => IpAddress::V6(0, 0, 0, 0, 0, 0, 0, 1),
        }
    }
}

/// The octet that `s` writes: one to three decimal digits, no leading zero,
/// at most 255.
pub open spec fn octet_of(s: Seq<char>) -> Option<u8> {
    if 1 <= s.len() <= 3 && is_digits(s) && (s.len() == 1 || s[0] != '0') && numeral_value(s, 10)
        <= 255 {
        Some(numeral_value(s, 10) as u8)
    } else {
        None
    }
}

/// The IPv4 address that `s` writes: four octets between dots.
pub open spec fn ipv4_of(s: Seq<char>) -> Option<IpAddress> {
    let f = split(s, '.');
    if f.len() == 4 && octet_of(f[0]) is Some && octet_of(f[1]) is Some && octet_of(f[2]) is Some
        && octet_of(f[3]) is Some {
        Some(
            IpAddress::V4(
                octet_of(f[0])->0,
                octet_of(f[1])->0,
                octet_of(f[2])->0,
                octet_of(f[3])->0,
            ),
        )
    } else {
        None
    }
}

/// The group that `s` writes: one to four hexadecimal digits.
pub open spec fn group_of(s: Seq<char>) -> Option<u16> {
    if 1 <= s.len() <= 4 && is_hex_digits(s) {
        Some(numeral_value(s, 16) as u16)
    } else {
        None
    }
}

/// The groups that the fields write, if each field writes one.
pub open spec fn hex_groups(f: Seq<Seq<char>>) -> Option<Seq<u16>> {
    if forall|i: int| 0 <= i < f.len() ==> (#[trigger] group_of(f[i])) is Some {
        Some(Seq::new(f.len(), |i: int| group_of(f[i])->0))
    } else {
        None
    }
}

/// The two groups that hold an IPv4 address.
pub open spec fn dotted_groups(ip: IpAddress) -> Seq<u16> {
    match ip {
        IpAddress::V4(a, b, c, d) => seq![(a * 256 + b) as u16, (c * 256 + d) as u16],
        IpAddress::V6(..) => Seq::empty(),
    }
}

/// The groups that `s` writes between colons; none for the empty sequence.
/// Where `dotted` is set, the last field may be an IPv4 literal, which
/// stands for two groups.
pub open spec fn groups_of(s: Seq<char>, dotted: bool) -> Option<Seq<u16>> {
    let f = split(s, ':');
    if s.len() == 0 {
        Some(Seq::empty())
    } else if dotted && ipv4_of(f.last()) is Some {
        match hex_groups(f.drop_last()) {
            Some(g) => Some(g + dotted_groups(ipv4_of(f.last())->0)),
            None => None,
        }
    } else {
        hex_groups(f)
    }
}

/// Index of the first place where `c` stands twice in a row; `s.len()` when
/// there is none.
pub open spec fn find_pair(s: Seq<char>, c: char) -> int
    decreases s.len(),
{
    if s.len() < 2 {
        s.len() as int
    } else if s[0] == c && s[1] == c {
        0
    } else {
        1 + find_pair(s.drop_first(), c)
    }
}

/// The IPv6 address of eight groups.
pub open spec fn v6_of_groups(g: Seq<u16>) -> IpAddress {
    IpAddress::V6(g[0], g[1], g[2], g[3], g[4], g[5], g[6], g[7])
}

/// A run of `n` zero groups.
pub open spec fn zero_groups(n: int) -> Seq<u16> {
    Seq::new(n as nat, |i: int| 0u16)
}

/// The IPv6 address that `s` writes. Without `::` the literal holds all eight
/// groups; with it, the groups before and after, at most seven, and zeros
/// between them.
pub open spec fn ipv6_of(s: Seq<char>) -> Option<IpAddress> {
    let gap = find_pair(s, ':');
    if gap >= s.len() {
        match groups_of(s, true) {
            Some(g) => if g.len() == 8 {
                Some(v6_of_groups(g))
            } else {
                None
            },
            None => None,
        }
    } else {
        match (groups_of(s.take(gap), false), groups_of(s.skip(gap + 2), true)) {
            (Some(head), Some(tail)) => if head.len() + tail.len() <= 7 {
                Some(v6_of_groups(head + zero_groups(8 - head.len() - tail.len()) + tail))
            } else {
                None
            },
            _ => None,
        }
    }
}

/// The port that `s` writes: decimal digits with a value of at most 65535.
pub open spec fn port_of(s: Seq<char>) -> Option<u16> {
    if s.len() >= 1 && is_digits(s) && numeral_value(s, 10) <= 65535 {
        Some(numeral_value(s, 10) as u16)
    } else {
        None
    }
}

/// The address that `s` writes as a host: an IPv4 literal, or an IPv6 literal
/// in square brackets.
pub open spec fn ip_host_of(s: Seq<char>) -> Option<IpAddress> {
    if s.len() >= 2 && s[0] == '[' && s.last() == ']' {
        ipv6_of(s.subrange(1, s.len() - 1))
    } else {
        ipv4_of(s)
    }
}

/// The address that `s` writes: an IPv4 literal, or an IPv6 literal without
/// brackets.
pub open spec fn ip_of(s: Seq<char>) -> Option<IpAddress> {
    match ipv4_of(s) {
        Some(ip) => Some(ip),
        None => ipv6_of(s),
    }
}

/// Where the host of a description ends: after the closing bracket where it
/// starts with an opening one, before the first colon otherwise.
pub open spec fn host_end(s: Seq<char>) -> int {
    if s.len() > 0 && s[0] == '[' {
        if find(s, ']') < s.len() {
            find(s, ']') + 1
        } else {
            s.len() as int
        }
    } else {
        find(s, ':')
    }
}

/// The socket address that `s` writes: an address as a host, a colon, and a
/// port.
pub open spec fn address_of(s: Seq<char>) -> Option<Address> {
    let end = host_end(s);
    if end < s.len() && s[end] == ':' && ip_host_of(s.take(end)) is Some && port_of(
        s.skip(end + 1),
    ) is Some {
        Some(Address { ip: ip_host_of(s.take(end))->0, port: port_of(s.skip(end + 1))->0 })
    } else {
        None
    }
}

/// A numeral of up to four hexadecimal digits is below 65536.
pub proof fn lemma_group_bound(s: Seq<char>)
    requires
        s.len() <= 4,
        is_hex_digits(s),
    ensures
        numeral_value(s, 16) <= 0xffff,
{
    lemma_hex_below(s);
    reveal_with_fuel(sixteen_to, 5);
}

/// Sixteen to the power `n`.
pub open spec fn sixteen_to(n: nat) -> nat
    decreases n,
{
    if n == 0 {
        1
    } else {
        16 * sixteen_to((n - 1) as nat)
    }
}

/// A hexadecimal numeral of `n` digits is below sixteen to the `n`.
pub proof fn lemma_hex_below(s: Seq<char>)
    requires
        is_hex_digits(s),
    ensures
        numeral_value(s, 16) < sixteen_to(s.len()),
    decreases s.len(),
{
    if s.len() > 0 {
        let t = s.drop_last();
        assert forall|i: int| 0 <= i < t.len() implies is_hex_digit(
            #[trigger] t[i],
        ) by {
            assert(t[i] == s[i]);
        }
        lemma_hex_below(t);
        assert(is_hex_digit(s[s.len() - 1]));
    }
}

/// `find_pair` is in range, no pair stands before it, and it points at a
/// pair unless it is the length.
pub proof fn lemma_find_pair(s: Seq<char>, c: char)
    ensures
        0 <= find_pair(s, c) <= s.len(),
        forall|j: int| 0 <= j < find_pair(s, c) ==> !pair_at(s, c, j),
        find_pair(s, c) < s.len() ==> pair_at(s, c, find_pair(s, c)),
    decreases s.len(),
{
    if s.len() < 2 {
    } else if s[0] == c && s[1] == c {
    } else {
        let t = s.drop_first();
        lemma_find_pair(t, c);
        assert forall|j: int| 0 <= j < find_pair(s, c) implies !pair_at(s, c, j) by {
            if j > 0 && j + 1 < s.len() {
                assert(!pair_at(t, c, j - 1));
                assert(s[j] == t[j - 1]);
                assert(s[j + 1] == t[j]);
            }
        }
        if find_pair(t, c) < t.len() {
            assert(pair_at(t, c, find_pair(t, c)));
            assert(t[find_pair(t, c)] == s[find_pair(s, c)]);
            assert(t[find_pair(t, c) + 1] == s[find_pair(s, c) + 1]);
        }
    }
}

/// The only index with the properties of `lemma_find_pair` is `find_pair`
/// itself.
pub proof fn lemma_find_pair_is(s: Seq<char>, c: char, k: int)
    requires
        0 <= k <= s.len(),
        forall|j: int| 0 <= j < k ==> !pair_at(s, c, j),
        k < s.len() ==> pair_at(s, c, k),
    ensures
        find_pair(s, c) == k,
{
    lemma_find_pair(s, c);
    let f = find_pair(s, c);
    if f < k {
        assert(!pair_at(s, c, f));
    } else if k < f {
        assert(!pair_at(s, c, k));
    }
}

/// Position of the first pair of `c` in `s[from..to]`, as an index into `s`;
/// `to` when there is none.
pub(crate) fn find_pair_in(s: &Vec<char>, from: usize, to: usize, c: char) -> (k: usize)
    requires
        from <= to <= s.len(),
    ensures
        from <= k <= to,
        k < to ==> k + 1 < to,
        k == from + find_pair(s@.subrange(from as int, to as int), c),
{
    let ghost w = s@.subrange(from as int, to as int);
    let mut k: usize = from;
    while to - k >= 2 && !(s[k] == c && s[k + 1] == c)
        invariant
            from <= k <= to <= s.len(),
            w == s@.subrange(from as int, to as int),
            forall|j: int| 0 <= j < k - from ==> !pair_at(w, c, j),
        decreases to - k,
    {
        k = k + 1;
    }
    if to - k >= 2 {
        proof {
            assert(w[k - from] == s@[k as int]);
            assert(w[k - from + 1] == s@[k + 1]);
            lemma_find_pair_is(w, c, k - from);
        }
        k
    } else {
        proof {
            lemma_find_pair_is(w, c, to - from);
        }
        to
    }
}

/// Reads `s[from..to]` as an octet.
pub(crate) fn read_octet(s: &Vec<char>, from: usize, to: usize) -> (r: Option<u8>)
    requires
        from <= to <= s.len(),
    ensures
        r == octet_of(s@.subrange(from as int, to as int)),
{
    let n: usize = to - from;
    if n < 1 || n > 3 {
        return None;
    }
    if n > 1 && s[from] == '0' {
        return None;
    }
    match read_numeral(s, from, to, 10, 255) {
        Some(v) => Some(v as u8),
        None => None,
    }
}

/// Reads `s[from..to]` as an IPv4 literal.
pub(crate) fn read_ipv4(s: &Vec<char>, from: usize, to: usize) -> (r: Option<IpAddress>)
    requires
        from <= to <= s.len(),
    ensures
        r == ipv4_of(s@.subrange(from as int, to as int)),
{
    let fields = split_in(s, from, to, '.');
    if fields.len() != 4 {
        return None;
    }
    let a = read_octet(s, fields[0].0, fields[0].1);
    let b = read_octet(s, fields[1].0, fields[1].1);
    let c = read_octet(s, fields[2].0, fields[2].1);
    let d = read_octet(s, fields[3].0, fields[3].1);
    match (a, b, c, d) {
        (Some(a), Some(b), Some(c), Some(d)) => Some(IpAddress::V4(a, b, c, d)),
        _ => None,
    }
}

/// Reads `s[from..to]` as a group.
pub(crate) fn read_group(s: &Vec<char>, from: usize, to: usize) -> (r: Option<u16>)
    requires
        from <= to <= s.len(),
    ensures
        r == group_of(s@.subrange(from as int, to as int)),
{
    let n: usize = to - from;
    if n < 1 || n > 4 {
        return None;
    }
    let r = read_numeral(s, from, to, 16, 0xffff);
    proof {
        if is_hex_digits(s@.subrange(from as int, to as int)) {
            lemma_group_bound(s@.subrange(from as int, to as int));
        }
    }
    match r {
        Some(v) => Some(v as u16),
        None => None,
    }
}

/// Reads `s[from..to]` as groups between colons.
pub(crate) fn read_groups(s: &Vec<char>, from: usize, to: usize, dotted: bool) -> (r: Option<
    Vec<u16>,
>)
    requires
        from <= to <= s.len(),
    ensures
        r is Some <==> groups_of(s@.subrange(from as int, to as int), dotted) is Some,
        r matches Some(v) ==> groups_of(s@.subrange(from as int, to as int), dotted) == Some(v@),
{
    let ghost w = s@.subrange(from as int, to as int);
    let ghost f = split(w, ':');
    let mut groups: Vec<u16> = Vec::new();
    if from == to {
        return Some(groups);
    }
    let fields = split_in(s, from, to, ':');
    proof {
        lemma_split(w, ':');
    }
    let last: usize = fields.len() - 1;
    let mut i: usize = 0;
    while i < last
        invariant
            i <= last,
            last + 1 == fields@.len(),
            fields@.len() == f.len(),
            from < to,
            f == split(s@.subrange(from as int, to as int), ':'),
            forall|j: int|
                0 <= j < fields@.len() ==> from <= (#[trigger] fields@[j]).0 <= fields@[j].1 <= to,
            forall|j: int|
                0 <= j < fields@.len() ==> s@.subrange(
                    (#[trigger] fields@[j]).0 as int,
                    fields@[j].1 as int,
                ) == f[j],
            to <= s.len(),
            groups@.len() == i,
            forall|j: int| 0 <= j < i ==> group_of(f[j]) == Some(#[trigger] groups@[j]),
        decreases last - i,
    {
        match read_group(s, fields[i].0, fields[i].1) {
            Some(g) => {
                groups.push(g);
            },
            None => {
                proof {
                    assert(group_of(f[i as int]) is None);
                    assert(f.drop_last()[i as int] == f[i as int]);
                    assert(group_of(f.drop_last()[i as int]) is None);
                }
                return None;
            },
        }
        i = i + 1;
    }
    proof {
        assert(f.last() == f[last as int]);
        assert(f.drop_last().len() == last);
        assert forall|j: int| 0 <= j < last implies (#[trigger] group_of(f.drop_last()[j]))
            == Some(groups@[j]) by {
            assert(f.drop_last()[j] == f[j]);
        }
        assert(hex_groups(f.drop_last()) == Some(groups@));
    }
    let ghost before = groups@;
    if dotted {
        match read_ipv4(s, fields[last].0, fields[last].1) {
            Some(IpAddress::V4(a, b, c, d)) => {
                groups.push(a as u16 * 256 + b as u16);
                groups.push(c as u16 * 256 + d as u16);
                proof {
                    assert(groups@ == before + dotted_groups(IpAddress::V4(a, b, c, d)));
                }
                return Some(groups);
            },
            _ => {
                proof {
                    lemma_ipv4_is_v4(f.last());
                }
            },
        }
    }
    match read_group(s, fields[last].0, fields[last].1) {
        Some(g) => {
            groups.push(g);
            proof {
                assert forall|j: int| 0 <= j < f.len() implies (#[trigger] group_of(f[j]))
                    is Some by {
                    if j < last {
                        assert(group_of(f[j]) == Some(before[j]));
                    }
                }
                assert(groups@ == Seq::new(f.len(), |j: int| group_of(f[j])->0));
            }
            Some(groups)
        },
        None => {
            proof {
                assert(group_of(f[last as int]) is None);
            }
            None
        },
    }
}

/// An IPv4 literal writes an address of the IPv4 variant.
pub proof fn lemma_ipv4_is_v4(s: Seq<char>)
    ensures
        ipv4_of(s) matches Some(ip) ==> ip is V4,
{
}

/// The address of eight groups.
fn v6_from(g: &Vec<u16>) -> (ip: IpAddress)
    requires
        g@.len() == 8,
    ensures
        ip == v6_of_groups(g@),
{
    IpAddress::V6(g[0], g[1], g[2], g[3], g[4], g[5], g[6], g[7])
}

/// Eight groups: `head`, then zeros, then `tail`.
fn spread(head: &Vec<u16>, tail: &Vec<u16>) -> (g: Vec<u16>)
    requires
        head@.len() + tail@.len() <= 8,
    ensures
        g@ == head@ + zero_groups(8 - head@.len() - tail@.len()) + tail@,
{
    let mut g: Vec<u16> = Vec::new();
    let mut i: usize = 0;
    while i < head.len()
        invariant
            i <= head.len(),
            g@ == head@.take(i as int),
        decreases head.len() - i,
    {
        g.push(head[i]);
        i = i + 1;
    }
    let fill: usize = 8 - head.len() - tail.len();
    i = 0;
    while i < fill
        invariant
            i <= fill,
            g@ == head@ + zero_groups(i as int),
        decreases fill - i,
    {
        g.push(0);
        i = i + 1;
    }
    i = 0;
    while i < tail.len()
        invariant
            i <= tail.len(),
            g@ == head@ + zero_groups(fill as int) + tail@.take(i as int),
        decreases tail.len() - i,
    {
        g.push(tail[i]);
        i = i + 1;
    }
    g
}

/// Reads `s[from..to]` as an IPv6 literal.
pub(crate) fn read_ipv6(s: &Vec<char>, from: usize, to: usize) -> (r: Option<IpAddress>)
    requires
        from <= to <= s.len(),
    ensures
        r == ipv6_of(s@.subrange(from as int, to as int)),
{
    let ghost w = s@.subrange(from as int, to as int);
    let gap = find_pair_in(s, from, to, ':');
    if gap >= to {
        match read_groups(s, from, to, true) {
            Some(g) => {
                if g.len() == 8 {
                    Some(v6_from(&g))
                } else {
                    None
                }
            },
            None => None,
        }
    } else {
        proof {
            assert(w.take(gap - from) == s@.subrange(from as int, gap as int));
            assert(w.skip(gap - from + 2) == s@.subrange(gap + 2, to as int));
        }
        let head = read_groups(s, from, gap, false);
        let tail = read_groups(s, gap + 2, to, true);
        match (head, tail) {
            (Some(head), Some(tail)) => {
                if head.len() <= 7 && tail.len() <= 7 - head.len() {
                    let g = spread(&head, &tail);
                    Some(v6_from(&g))
                } else {
                    None
                }
            },
            _ => None,
        }
    }
}

/// Reads `s[from..to]` as a port.
pub(crate) fn read_port(s: &Vec<char>, from: usize, to: usize) -> (r: Option<u16>)
    requires
        from <= to <= s.len(),
    ensures
        r == port_of(s@.subrange(from as int, to as int)),
{
    if from == to {
        return None;
    }
    match read_numeral(s, from, to, 10, 65535) {
        Some(v) => Some(v as u16),
        None => None,
    }
}

/// Reads `s[from..to]` as an IP address in the place of a host.
pub(crate) fn read_ip_host(s: &Vec<char>, from: usize, to: usize) -> (r: Option<IpAddress>)
    requires
        from <= to <= s.len(),
    ensures
        r == ip_host_of(s@.subrange(from as int, to as int)),
{
    if to - from >= 2 && s[from] == '[' && s[to - 1] == ']' {
        proof {
            let w = s@.subrange(from as int, to as int);
            assert(w.subrange(1, w.len() - 1) == s@.subrange(from + 1, to - 1));
        }
        read_ipv6(s, from + 1, to - 1)
    } else {
        read_ipv4(s, from, to)
    }
}

/// The numbers that an address is made of: four octets, or eight groups.
pub open spec fn parts_of(ip: IpAddress) -> Seq<u16> {
    match ip {
        IpAddress::V4(a, b, c, d) => seq![a as u16, b as u16, c as u16, d as u16],
        IpAddress::V6(a, b, c, d, e, f, g, h) => seq![a, b, c, d, e, f, g, h],
    }
}

/// The literal of an IP address: decimal octets between dots, or eight
/// hexadecimal groups between colons, in lower case, none left out.
pub open spec fn ip_text(ip: IpAddress) -> Seq<char> {
    match ip {
        IpAddress::V4(..) => joined(numerals_of(parts_of(ip), false), seq!['.']),
        IpAddress::V6(..) => joined(numerals_of(parts_of(ip), true), seq![':']),
    }
}

/// An IP address as a host: the literal, in square brackets for IPv6.
pub open spec fn host_text(ip: IpAddress) -> Seq<char> {
    match ip {
        IpAddress::V4(..) => ip_text(ip),
        IpAddress::V6(..) => seq!['['] + ip_text(ip) + seq![']'],
    }
}

/// A socket address as text: the host, a colon, and the port.
pub open spec fn address_text(address: Address) -> Seq<char> {
    host_text(address.ip) + seq![':'] + decimal_text(address.port as nat)
}

impl IpAddress {
    /// The numbers that the address is made of.
    pub fn parts(&self) -> (v: Vec<u16>)
        ensures
            v@ == parts_of(*self),
    {
        let mut v: Vec<u16> = Vec::new();
        match self {
            IpAddress::V4(a, b, c, d) => {
                v.push(*a as u16);
                v.push(*b as u16);
                v.push(*c as u16);
                v.push(*d as u16);
            },
            IpAddress::V6(a, b, c, d, e, f, g, h) => {
                v.push(*a);
                v.push(*b);
                v.push(*c);
                v.push(*d);
                v.push(*e);
                v.push(*f);
                v.push(*g);
                v.push(*h);
            },
        }
        proof {
            assert(v@ =~= parts_of(*self));
        }
        v
    }
}

/// Appends an IP address as a host.
pub(crate) fn push_host(s: &mut String, ip: IpAddress)
    ensures
        final(s)@ == old(s)@ + host_text(ip),
{
    proof {
        reveal_strlit(".");
        reveal_strlit(":");
        reveal_strlit("[");
        reveal_strlit("]");
        assert("."@ =~= seq!['.']);
        assert(":"@ =~= seq![':']);
        assert("["@ =~= seq!['[']);
        assert("]"@ =~= seq![']']);
    }
    let parts = ip.parts();
    match ip {
        IpAddress::V4(..) => {
            push_numerals(s, &parts, false, ".");
        },
        IpAddress::V6(..) => {
            s.append("[");
            push_numerals(s, &parts, true, ":");
            s.append("]");
            proof {
                assert(final(s)@ =~= old(s)@ + host_text(ip));
            }
        },
    }
}

/// Appends a socket address.
pub(crate) fn push_address(s: &mut String, address: Address)
    ensures
        final(s)@ == old(s)@ + address_text(address),
{
    proof {
        reveal_strlit(":");
        assert(":"@ =~= seq![':']);
    }
    push_host(s, address.ip);
    s.append(":");
    push_decimal(s, address.port as u64);
    proof {
        assert(final(s)@ =~= old(s)@ + address_text(address));
    }
}

/// Where the host of `s[from..]` ends, as an index into `s`.
pub(crate) fn host_end_in(s: &Vec<char>, from: usize) -> (end: usize)
    requires
        from <= s.len(),
    ensures
        from <= end <= s.len(),
        end - from == host_end(s@.skip(from as int)),
{
    let n: usize = s.len();
    proof {
        assert(s@.skip(from as int) == s@.subrange(from as int, n as int));
    }
    if from < n && s[from] == '[' {
        let close = find_in(s, from, n, ']');
        if close < n {
            close + 1
        } else {
            n
        }
    } else {
        find_in(s, from, n, ':')
    }
}

impl Address {
    /// Reads a socket address: an IPv4 literal, or an IPv6 literal in
    /// square brackets, then a colon and a port, such as `192.0.2.1:80` or
    /// `[2001:db8::1]:80`.
    pub fn from_text(text: &str) -> (r: Option<Address>)
        ensures
            r == address_of(text@),
    {
        let s = chars_of(text);
        let n: usize = s.len();
        let end = host_end_in(&s, 0);
        proof {
            assert(s@.skip(0) == s@);
            assert(s@.take(end as int) == s@.subrange(0, end as int));
        }
        if end >= n || s[end] != ':' {
            return None;
        }
        proof {
            assert(s@.skip(end + 1) == s@.subrange(end + 1, n as int));
        }
        match (read_ip_host(&s, 0, end), read_port(&s, end + 1, n)) {
            (Some(ip), Some(port)) => Some(Address { ip, port }),
            _ => None,
        }
    }

    /// The address as text, such as `127.0.0.1:5000` or
    /// `[0:0:0:0:0:0:0:1]:5000`.
    pub fn to_text(&self) -> (s: String)
        ensures
            s@ == address_text(*self),
    {
        let mut s = String::new();
        push_address(&mut s, *self);
        proof {
            assert(Seq::<char>::empty() + address_text(*self) =~= address_text(*self));
        }
        s
    }
}

/// A character that is no hexadecimal digit occurs in no numeral.
pub proof fn lemma_numeral_free(s: Seq<char>, c: char)
    requires
        is_digits(s) || is_hex_digits(s),
        !is_hex_digit(c),
    ensures
        free_of(s, c),
{
    assert forall|j: int| 0 <= j < s.len() implies s[j] != c by {
        if is_digits(s) {
            assert(is_digit(s[j]));
        } else {
            assert(is_hex_digit(s[j]));
        }
    }
}

/// The decimal numeral of an octet is read as that octet.
pub proof fn lemma_octet_text(a: u8)
    ensures
        octet_of(decimal_text(a as nat)) == Some(a),
{
    lemma_decimal_text(a as nat);
    reveal_with_fuel(decimal_text, 3);
}

/// The hexadecimal numeral of a group is read as that group.
pub proof fn lemma_group_text(g: u16)
    ensures
        group_of(hex_text(g as nat)) == Some(g),
{
    lemma_hex_text(g as nat);
}

/// A sequence without a dot is no IPv4 literal.
proof fn lemma_dotless(s: Seq<char>)
    requires
        free_of(s, '.'),
    ensures
        ipv4_of(s) is None,
{
    lemma_find_is(s, '.', s.len() as int);
}

/// The numerals of an address: each is read as the number that it was
/// written for, and none holds a character that is no hexadecimal digit.
proof fn lemma_parts_text(ip: IpAddress, c: char)
    requires
        !is_hex_digit(c),
    ensures
        ({
            let items = numerals_of(parts_of(ip), ip is V6);
            &&& items.len() == parts_of(ip).len()
            &&& forall|i: int|
                0 <= i < items.len() ==> {
                    &&& (#[trigger] items[i]).len() > 0
                    &&& free_of(items[i], c)
                    &&& ip is V4 ==> octet_of(items[i]) == Some(parts_of(ip)[i] as u8)
                    &&& ip is V6 ==> group_of(items[i]) == Some(parts_of(ip)[i])
                }
        }),
{
    let parts = parts_of(ip);
    let items = numerals_of(parts, ip is V6);
    assert forall|i: int| 0 <= i < items.len() implies {
        &&& (#[trigger] items[i]).len() > 0
        &&& free_of(items[i], c)
        &&& ip is V4 ==> octet_of(items[i]) == Some(parts[i] as u8)
        &&& ip is V6 ==> group_of(items[i]) == Some(parts[i])
    } by {
        if ip is V6 {
            lemma_hex_text(parts[i] as nat);
            lemma_group_text(parts[i]);
        } else {
            lemma_decimal_text(parts[i] as nat);
            lemma_octet_text(parts[i] as u8);
        }
        lemma_numeral_free(items[i], c);
    }
}

/// The literal of an address is read as that address, by itself and as a
/// host.
pub proof fn lemma_ip_text(ip: IpAddress)
    ensures
        ip_of(ip_text(ip)) == Some(ip),
        ip_host_of(host_text(ip)) == Some(ip),
{
    let parts = parts_of(ip);
    let text = ip_text(ip);
    match ip {
        IpAddress::V4(a, b, c, d) => {
            let items = numerals_of(parts, false);
            lemma_parts_text(ip, '.');
            lemma_split_joined(items, '.');
            lemma_joined_no_pair(items, '.');
            assert(split(text, '.') == items);
            assert(octet_of(items[0]) == Some(a));
            assert(octet_of(items[1]) == Some(b));
            assert(octet_of(items[2]) == Some(c));
            assert(octet_of(items[3]) == Some(d));
            assert(ipv4_of(text) == Some(ip));
            lemma_parts_text(ip, '[');
            lemma_joined_free(items, seq!['.'], '[');
            assert(text[0] != '[');
        },
        IpAddress::V6(..) => {
            let items = numerals_of(parts, true);
            lemma_parts_text(ip, ':');
            lemma_split_joined(items, ':');
            lemma_joined_no_pair(items, ':');
            lemma_find_pair_is(text, ':', text.len() as int);
            lemma_parts_text(ip, '.');
            lemma_joined_free(items, seq![':'], '.');
            lemma_dotless(text);
            let f = split(text, ':');
            assert(f == items);
            assert(free_of(f.last(), '.'));
            lemma_dotless(f.last());
            assert forall|i: int| 0 <= i < f.len() implies (#[trigger] group_of(f[i])) is Some by {
                assert(group_of(items[i]) == Some(parts[i]));
            }
            let g = Seq::new(f.len(), |i: int| group_of(f[i])->0);
            assert(g =~= parts) by {
                assert forall|i: int| 0 <= i < g.len() implies g[i] == parts[i] by {
                    assert(group_of(items[i]) == Some(parts[i]));
                }
            }
            assert(groups_of(text, true) == Some(parts));
            assert(v6_of_groups(parts) == ip);
            assert(ipv6_of(text) == Some(ip));
            let host = host_text(ip);
            assert(host.subrange(1, host.len() - 1) =~= text);
        },
    }
}

/// How an address looks as a host. It starts with a digit or an opening
/// bracket. An IPv4 address holds no colon; an IPv6 address stands between
/// brackets, and no closing bracket stands before the last.
proof fn lemma_host_text(ip: IpAddress)
    ensures
        host_text(ip).len() > 0,
        is_digit(host_text(ip)[0]) || host_text(ip)[0] == '[',
        ip is V4 ==> free_of(host_text(ip), ':') && host_text(ip)[0] != '[',
        ip is V6 ==> host_text(ip)[0] == '[' && find(host_text(ip), ']') == host_text(ip).len()
            - 1,
{
    let host = host_text(ip);
    let inner = ip_text(ip);
    match ip {
        IpAddress::V4(..) => {
            let items = numerals_of(parts_of(ip), false);
            lemma_parts_text(ip, ':');
            lemma_joined_free(items, seq!['.'], ':');
            lemma_parts_text(ip, '.');
            lemma_joined_no_pair(items, '.');
            lemma_joined_first(items, seq!['.']);
            lemma_decimal_text(parts_of(ip)[0] as nat);
            assert(host[0] == items[0][0]);
            assert(is_digit(items[0][0]));
        },
        IpAddress::V6(..) => {
            let items = numerals_of(parts_of(ip), true);
            lemma_parts_text(ip, ']');
            lemma_joined_free(items, seq![':'], ']');
            assert(host == seq!['['] + inner + seq![']']);
            assert(host[0] == '[');
            let k = host.len() as int;
            assert(host[k - 1] == ']');
            assert forall|j: int| 0 <= j < k - 1 implies host[j] != ']' by {
                if j > 0 {
                    assert(host[j] == inner[j - 1]);
                }
            }
            lemma_find_is(host, ']', k - 1);
        },
    }
}

/// The text of a socket address is read as that address.
pub proof fn lemma_address_text(address: Address)
    ensures
        address_of(address_text(address)) == Some(address),
        host_end(address_text(address)) == host_text(address.ip).len(),
        address_text(address).len() > host_text(address.ip).len() > 0,
        address_text(address)[0] != ':',
        address_text(address)[0] != 'a',
{
    let ip = address.ip;
    let host = host_text(ip);
    let port = decimal_text(address.port as nat);
    let text = address_text(address);
    let k = host.len() as int;
    lemma_ip_text(ip);
    lemma_host_text(ip);
    lemma_decimal_text(address.port as nat);
    assert(text == host + seq![':'] + port);
    assert(text[k] == ':');
    assert(text[0] == host[0]);
    assert(text.take(k) =~= host);
    assert(text.skip(k + 1) =~= port);
    assert forall|j: int| 0 <= j < k implies text[j] == host[j] by {}
    match ip {
        IpAddress::V4(..) => {
            lemma_find_is(text, ':', k);
        },
        IpAddress::V6(..) => {
            lemma_find(host, ']');
            lemma_find_is(text, ']', k - 1);
        },
    }
}

} // verus!
