//! Addresses and networks, in both families.

use vstd::arithmetic::power2::{lemma_pow2_adds, lemma_pow2_pos, lemma_pow2_strictly_increases, pow2};
use vstd::prelude::*;

use crate::text::{decimal, decimal_text};

verus! {

/// An address.
#[derive(Debug, Clone, Copy, PartialEq, Eq, Structural)]
pub enum IpAddr {
    V4(u32),
    V6(u128),
}

/// An address with a port.
#[derive(Debug, Clone, Copy, PartialEq, Eq, Structural)]
pub struct SocketAddr {
    pub ip: IpAddr,
    pub port: u16,
}

/// A network: an address in it, and how many leading bits its addresses share. A prefix longer
/// than the address counts as the whole address.
#[allow(inconsistent_fields)]
#[derive(Debug, Clone, Copy, PartialEq, Eq, Structural)]
pub enum Cidr {
    V4 { addr: u32, prefix: u8 },
    V6 { addr: u128, prefix: u8 },
}

/// `addr` rounded down to a multiple of `2^bits`.
pub open spec fn block_start(addr: nat, bits: nat) -> nat {
    (addr - addr % pow2(bits)) as nat
}

/// The last number of the block of `2^bits` that `addr` lies in.
pub open spec fn block_end(addr: nat, bits: nat) -> nat {
    (block_start(addr, bits) + pow2(bits) - 1) as nat
}

impl IpAddr {
    /// The family is IPv4.
    pub open spec fn is_v4(self) -> bool {
        self is V4
    }

    /// The address as a number.
    pub open spec fn number(self) -> nat {
        match self {
            IpAddr::V4(n) => n as nat,
            IpAddr::V6(n) => n as nat,
        }
    }
}

impl Cidr {
    /// The family is IPv4.
    pub open spec fn is_v4(self) -> bool {
        self is V4
    }

    /// The prefix is no longer than the address.
    pub open spec fn wf(self) -> bool {
        match self {
            Cidr::V4 { prefix, .. } => prefix <= 32,
            Cidr::V6 { prefix, .. } => prefix <= 128,
        }
    }

    /// The address that the network is written with, as a number.
    pub open spec fn number(self) -> nat {
        match self {
            Cidr::V4 { addr, .. } => addr as nat,
            Cidr::V6 { addr, .. } => addr as nat,
        }
    }

    /// The prefix length.
    pub open spec fn bits(self) -> u8 {
        match self {
            Cidr::V4 { prefix, .. } => prefix,
            Cidr::V6 { prefix, .. } => prefix,
        }
    }

    /// How many bits the addresses of the network differ in.
    pub open spec fn host_bits(self) -> nat {
        match self {
            Cidr::V4 { prefix, .. } => if prefix <= 32 {
                (32 - prefix) as nat
            } else {
                0
            },
            Cidr::V6 { prefix, .. } => if prefix <= 128 {
                (128 - prefix) as nat
            } else {
                0
            },
        }
    }

    /// The first address of the network.
    pub open spec fn first(self) -> nat {
        block_start(self.number(), self.host_bits())
    }

    /// The last address of the network.
    pub open spec fn last(self) -> nat {
        block_end(self.number(), self.host_bits())
    }

    /// The address lies in the network.
    pub open spec fn covers(self, ip: IpAddr) -> bool {
        self.is_v4() == ip.is_v4() && self.first() <= ip.number() <= self.last()
    }

    /// All addresses of `inner` lie in the network.
    pub open spec fn encloses(self, inner: Cidr) -> bool {
        self.is_v4() == inner.is_v4() && self.first() <= inner.first() && inner.last()
            <= self.last()
    }

    /// Some address lies in both networks.
    pub open spec fn meets(self, other: Cidr) -> bool {
        self.is_v4() == other.is_v4() && self.first() <= other.last() && other.first()
            <= self.last()
    }

    /// The same network, written with its first address.
    pub open spec fn canonical(self) -> Cidr {
        match self {
            Cidr::V4 { prefix, .. } => Cidr::V4 {
                addr: self.first() as u32,
                prefix: if prefix <= 32 {
                    prefix
                } else {
                    32
                },
            },
            Cidr::V6 { prefix, .. } => Cidr::V6 {
                addr: self.first() as u128,
                prefix: if prefix <= 128 {
                    prefix
                } else {
                    128
                },
            },
        }
    }
}

/// A block lies around its address, and ends before the next multiple of its size.
pub proof fn lemma_block(addr: nat, bits: nat)
    ensures
        block_start(addr, bits) <= addr <= block_end(addr, bits),
        block_start(addr, bits) % pow2(bits) == 0,
        pow2(bits) > 0,
{
    lemma_pow2_pos(bits);
    let size = pow2(bits) as int;
    vstd::arithmetic::div_mod::lemma_fundamental_div_mod(addr as int, size);
    vstd::arithmetic::div_mod::lemma_mod_bound(addr as int, size);
    assert(block_start(addr, bits) == size * (addr as int / size));
    vstd::arithmetic::div_mod::lemma_mod_multiples_basic(addr as int / size, size);
    assert(size * (addr as int / size) == (addr as int / size) * size) by (nonlinear_arith);
}

/// A number of `width` bits has its blocks within `width` bits.
pub proof fn lemma_block_width(addr: nat, bits: nat, width: nat)
    requires
        addr < pow2(width),
        bits <= width,
    ensures
        block_end(addr, bits) < pow2(width),
{
    lemma_block(addr, bits);
    let size = pow2(bits) as int;
    let q = addr as int / size;
    vstd::arithmetic::div_mod::lemma_fundamental_div_mod(addr as int, size);
    vstd::arithmetic::div_mod::lemma_mod_bound(addr as int, size);
    lemma_pow2_adds(bits, (width - bits) as nat);
    let m = pow2((width - bits) as nat) as int;
    assert(pow2(width) == size * m);
    assert(q < m) by (nonlinear_arith)
        requires
            size * q <= addr as int,
            (addr as int) < size * m,
            size > 0,
    ;
    assert(size * q + size <= size * m) by (nonlinear_arith)
        requires
            q < m,
            size > 0,
    ;
}

/// Of two blocks that share a number, the one of the smaller size lies in the other.
pub proof fn lemma_blocks_nest(a: nat, b: nat, bits: nat, wider: nat)
    requires
        bits <= wider,
        block_start(a, wider) <= b <= block_end(a, wider),
    ensures
        block_start(a, wider) <= block_start(b, bits),
        block_end(b, bits) <= block_end(a, wider),
        block_start(b, wider) == block_start(a, wider),
{
    lemma_block(a, wider);
    lemma_block(b, bits);
    lemma_block(b, wider);
    lemma_pow2_adds(bits, (wider - bits) as nat);
    lemma_pow2_pos((wider - bits) as nat);
    let s = pow2(bits) as int;
    let k = pow2((wider - bits) as nat) as int;
    let w = pow2(wider) as int;
    assert(w == s * k);
    vstd::arithmetic::div_mod::lemma_fundamental_div_mod(a as int, w);
    vstd::arithmetic::div_mod::lemma_fundamental_div_mod(b as int, s);
    let qa = a as int / w;
    let qb = b as int / s;
    assert(block_start(a, wider) == w * qa);
    assert(block_start(b, bits) == s * qb);
    vstd::arithmetic::div_mod::lemma_mod_bound(b as int, s);
    assert(w * qa == s * (k * qa)) by (nonlinear_arith)
        requires
            w == s * k,
    ;
    assert(k * qa <= qb) by (nonlinear_arith)
        requires
            s * (k * qa) <= b as int,
            (b as int) < s * qb + s,
            s > 0,
    ;
    assert(s * (k * qa) <= s * qb) by (nonlinear_arith)
        requires
            k * qa <= qb,
            s > 0,
    ;
    assert(w * qa + w == s * (k * qa + k)) by (nonlinear_arith)
        requires
            w == s * k,
    ;
    assert(qb < k * qa + k) by (nonlinear_arith)
        requires
            s * qb <= b as int,
            (b as int) < s * (k * qa + k),
            s > 0,
    ;
    assert(s * qb + s <= s * (k * qa + k)) by (nonlinear_arith)
        requires
            qb < k * qa + k,
            s > 0,
    ;
    assert(w * qa == qa * w) by (nonlinear_arith);
    vstd::arithmetic::div_mod::lemma_fundamental_div_mod_converse(
        b as int,
        w,
        qa,
        b as int - qa * w,
    );
}

/// A network has its addresses within its family.
pub proof fn lemma_cidr_bounds(c: Cidr)
    ensures
        c.first() <= c.number() <= c.last(),
        c.is_v4() ==> c.last() <= u32::MAX,
        !c.is_v4() ==> c.last() <= u128::MAX,
        c.canonical().first() == c.first(),
        c.canonical().last() == c.last(),
        c.canonical().wf(),
        c.canonical().canonical() == c.canonical(),
        c.canonical().is_v4() == c.is_v4(),
{
    lemma_block(c.number(), c.host_bits());
    vstd::arithmetic::power2::lemma2_to64();
    vstd::arithmetic::power2::lemma2_to64_rest();
    assert(pow2(128) == 0x1_0000_0000_0000_0000_0000_0000_0000_0000) by {
        lemma_pow2_adds(64, 64);
    }
    match c {
        Cidr::V4 { addr, prefix } => {
            lemma_block_width(addr as nat, c.host_bits(), 32);
        },
        Cidr::V6 { addr, prefix } => {
            lemma_block_width(addr as nat, c.host_bits(), 128);
        },
    }
    lemma_blocks_nest(c.number(), c.first(), c.host_bits(), c.host_bits());
}

/// Calls `ipnet::Ipv4Net::network`. It clears the host bits of the address: it rounds the address
/// down to a multiple of the network's size.
#[verifier::external_body]
fn ipnet_v4_network(addr: u32, prefix: u8) -> (r: u32)
    requires
        prefix <= 32,
    ensures
        r as nat == block_start(addr as nat, (32 - prefix) as nat),
{
    u32::from(ipnet::Ipv4Net::new_assert(addr.into(), prefix).network())
}

/// Calls `ipnet::Ipv4Net::broadcast`. It sets the host bits of the address: the result is the last
/// address of the network.
#[verifier::external_body]
fn ipnet_v4_broadcast(addr: u32, prefix: u8) -> (r: u32)
    requires
        prefix <= 32,
    ensures
        r as nat == block_end(addr as nat, (32 - prefix) as nat),
{
    u32::from(ipnet::Ipv4Net::new_assert(addr.into(), prefix).broadcast())
}

/// Calls `ipnet::Ipv6Net::network`. It clears the host bits of the address: it rounds the address
/// down to a multiple of the network's size.
#[verifier::external_body]
fn ipnet_v6_network(addr: u128, prefix: u8) -> (r: u128)
    requires
        prefix <= 128,
    ensures
        r as nat == block_start(addr as nat, (128 - prefix) as nat),
{
    u128::from(ipnet::Ipv6Net::new_assert(addr.into(), prefix).network())
}

/// Calls `ipnet::Ipv6Net::broadcast`. It sets the host bits of the address: the result is the last
/// address of the network.
#[verifier::external_body]
fn ipnet_v6_broadcast(addr: u128, prefix: u8) -> (r: u128)
    requires
        prefix <= 128,
    ensures
        r as nat == block_end(addr as nat, (128 - prefix) as nat),
{
    u128::from(ipnet::Ipv6Net::new_assert(addr.into(), prefix).broadcast())
}

fn v4_prefix(prefix: u8) -> (r: u8)
    ensures
        r <= 32,
        r == (if prefix <= 32 { prefix } else { 32 }),
{
    if prefix <= 32 {
        prefix
    } else {
        32
    }
}

fn v6_prefix(prefix: u8) -> (r: u8)
    ensures
        r <= 128,
        r == (if prefix <= 128 { prefix } else { 128 }),
{
    if prefix <= 128 {
        prefix
    } else {
        128
    }
}

impl Cidr {
    /// The prefix length.
    pub fn prefix_len(&self) -> (r: u8)
        ensures
            r == self.bits(),
    {
        match *self {
            Cidr::V4 { addr: _, prefix } => prefix,
            Cidr::V6 { addr: _, prefix } => prefix,
        }
    }

    /// The address that the network is written with.
    pub fn addr(&self) -> (r: IpAddr)
        ensures
            r.is_v4() == self.is_v4(),
            r.number() == self.number(),
    {
        match *self {
            Cidr::V4 { addr, prefix: _ } => IpAddr::V4(addr),
            Cidr::V6 { addr, prefix: _ } => IpAddr::V6(addr),
        }
    }

    /// The first address of the network.
    pub fn network(&self) -> (r: IpAddr)
        ensures
            r.is_v4() == self.is_v4(),
            r.number() == self.first(),
    {
        match *self {
            Cidr::V4 { addr, prefix } => IpAddr::V4(ipnet_v4_network(addr, v4_prefix(prefix))),
            Cidr::V6 { addr, prefix } => IpAddr::V6(ipnet_v6_network(addr, v6_prefix(prefix))),
        }
    }

    /// The last address of the network.
    pub fn broadcast(&self) -> (r: IpAddr)
        ensures
            r.is_v4() == self.is_v4(),
            r.number() == self.last(),
    {
        match *self {
            Cidr::V4 { addr, prefix } => IpAddr::V4(ipnet_v4_broadcast(addr, v4_prefix(prefix))),
            Cidr::V6 { addr, prefix } => IpAddr::V6(ipnet_v6_broadcast(addr, v6_prefix(prefix))),
        }
    }

    /// The same network, written with its first address.
    pub fn trunc(&self) -> (r: Cidr)
        ensures
            r == self.canonical(),
    {
        proof {
            lemma_cidr_bounds(*self);
        }
        match *self {
            Cidr::V4 { addr, prefix } => Cidr::V4 {
                addr: ipnet_v4_network(addr, v4_prefix(prefix)),
                prefix: v4_prefix(prefix),
            },
            Cidr::V6 { addr, prefix } => Cidr::V6 {
                addr: ipnet_v6_network(addr, v6_prefix(prefix)),
                prefix: v6_prefix(prefix),
            },
        }
    }

    /// Whether an address lies in the network.
    pub fn contains(&self, ip: &IpAddr) -> (r: bool)
        ensures
            r == self.covers(*ip),
    {
        match (*ip, self.network(), self.broadcast()) {
            (IpAddr::V4(n), IpAddr::V4(first), IpAddr::V4(last)) => first <= n && n <= last,
            (IpAddr::V6(n), IpAddr::V6(first), IpAddr::V6(last)) => first <= n && n <= last,
            _ => false,
        }
    }

    /// Whether all addresses of another network lie in the network.
    pub fn contains_net(&self, inner: &Cidr) -> (r: bool)
        ensures
            r == self.encloses(*inner),
    {
        proof {
            lemma_cidr_bounds(*inner);
            lemma_cidr_bounds(*self);
        }
        let first = inner.network();
        let last = inner.broadcast();
        self.contains(&first) && self.contains(&last)
    }
}

/// Whether all addresses of `inner` lie in `outer`: the prefix of `outer` is no longer than that of
/// `inner`, and the address that `inner` is written with lies in `outer`.
pub fn ipnet_contains(outer: &Cidr, inner: &Cidr) -> (r: bool)
    ensures
        r == outer.encloses(*inner),
{
    proof {
        lemma_encloses_by_prefix(*outer, *inner);
    }
    let prefixes_allow = match (*outer, *inner) {
        (Cidr::V4 { addr: _, prefix: wide }, Cidr::V4 { addr: _, prefix: narrow }) => v4_prefix(wide)
            <= v4_prefix(narrow),
        (Cidr::V6 { addr: _, prefix: wide }, Cidr::V6 { addr: _, prefix: narrow }) => v6_prefix(wide)
            <= v6_prefix(narrow),
        _ => false,
    };
    prefixes_allow && outer.contains(&inner.addr())
}

/// Enclosure is a matter of prefix lengths and one address.
pub proof fn lemma_encloses_by_prefix(outer: Cidr, inner: Cidr)
    ensures
        outer.encloses(inner) <==> outer.is_v4() == inner.is_v4() && outer.host_bits()
            >= inner.host_bits() && outer.first() <= inner.number() <= outer.last(),
{
    lemma_cidr_bounds(outer);
    lemma_cidr_bounds(inner);
    lemma_pow2_pos(outer.host_bits());
    lemma_pow2_pos(inner.host_bits());
    if outer.is_v4() == inner.is_v4() {
        if outer.host_bits() >= inner.host_bits() {
            if outer.first() <= inner.number() <= outer.last() {
                lemma_blocks_nest(
                    outer.number(),
                    inner.number(),
                    inner.host_bits(),
                    outer.host_bits(),
                );
            }
        } else {
            lemma_pow2_strictly_increases(outer.host_bits(), inner.host_bits());
        }
    }
}

/// Whether one of two networks encloses the other.
pub fn ipnets_overlap(left: &Cidr, right: &Cidr) -> (r: bool)
    ensures
        r == left.meets(*right),
        r == (left.encloses(*right) || right.encloses(*left)),
{
    proof {
        law_networks_nest_or_are_disjoint(*left, *right);
    }
    ipnet_contains(left, right) || ipnet_contains(right, left)
}

/// Two networks either have no address in common, or one encloses the other.
pub proof fn law_networks_nest_or_are_disjoint(a: Cidr, b: Cidr)
    ensures
        a.meets(b) <==> a.encloses(b) || b.encloses(a),
{
    lemma_cidr_bounds(a);
    lemma_cidr_bounds(b);
    if a.meets(b) {
        if a.host_bits() >= b.host_bits() {
            let p = if a.first() >= b.first() { a.first() } else { b.first() };
            lemma_blocks_nest(a.number(), p, b.host_bits(), a.host_bits());
            lemma_blocks_nest(b.number(), p, b.host_bits(), b.host_bits());
        } else {
            let p = if a.first() >= b.first() { a.first() } else { b.first() };
            lemma_blocks_nest(b.number(), p, a.host_bits(), b.host_bits());
            lemma_blocks_nest(a.number(), p, a.host_bits(), a.host_bits());
        }
    }
}

/// Overlap does not depend on the order of the two networks.
pub proof fn law_overlap_is_symmetric(a: Cidr, b: Cidr)
    ensures
        a.meets(b) == b.meets(a),
{
}

/// Two networks overlap exactly where some address lies in both.
pub proof fn law_overlap_is_a_common_address(a: Cidr, b: Cidr)
    ensures
        a.meets(b) <==> exists|ip: IpAddr| a.covers(ip) && b.covers(ip),
{
    lemma_cidr_bounds(a);
    lemma_cidr_bounds(b);
    if a.meets(b) {
        let p = if a.first() >= b.first() { a.first() } else { b.first() };
        let ip = if a.is_v4() { IpAddr::V4(p as u32) } else { IpAddr::V6(p as u128) };
        assert(a.covers(ip) && b.covers(ip));
    }
}

/// Enclosure is transitive.
pub proof fn law_enclosure_is_transitive(a: Cidr, b: Cidr, c: Cidr)
    requires
        a.encloses(b),
        b.encloses(c),
    ensures
        a.encloses(c),
{
}

/// An IPv4 address in dotted decimal.
pub open spec fn ipv4_display(addr: u32) -> Seq<char> {
    decimal((addr / 0x100_0000) as nat) + "."@ + decimal((addr / 0x1_0000 % 0x100) as nat) + "."@
        + decimal((addr / 0x100 % 0x100) as nat) + "."@ + decimal((addr % 0x100) as nat)
}

/// What std writes for an IPv6 address.
pub uninterp spec fn ipv6_display(addr: u128) -> Seq<char>;

/// Calls `ipnet::Ipv6Net::addr` and the `Display` of its result. The text is a function of the
/// address alone; which text it is, the contract does not say.
#[verifier::external_body]
fn ipv6_display_text(addr: u128) -> (r: String)
    ensures
        r@ == ipv6_display(addr),
{
    ipnet::Ipv6Net::new_assert(addr.into(), 128).addr().to_string()
}

impl IpAddr {
    /// The text of the address.
    pub open spec fn display(self) -> Seq<char> {
        match self {
            IpAddr::V4(n) => ipv4_display(n),
            IpAddr::V6(n) => ipv6_display(n),
        }
    }

    /// The text of the address.
    pub fn to_text(&self) -> (r: String)
        ensures
            r@ == self.display(),
    {
        match *self {
            IpAddr::V4(n) => decimal_text((n / 0x100_0000) as u64).concat(".").concat(
                decimal_text((n / 0x1_0000 % 0x100) as u64).as_str(),
            ).concat(".").concat(decimal_text((n / 0x100 % 0x100) as u64).as_str()).concat(
                ".",
            ).concat(decimal_text((n % 0x100) as u64).as_str()),
            IpAddr::V6(n) => ipv6_display_text(n),
        }
    }
}

impl SocketAddr {
    /// The text of the address and its port.
    pub open spec fn display(self) -> Seq<char> {
        if self.ip.is_v4() {
            self.ip.display() + ":"@ + decimal(self.port as nat)
        } else {
            "["@ + self.ip.display() + "]:"@ + decimal(self.port as nat)
        }
    }

    /// The text of the address and its port.
    pub fn to_text(&self) -> (r: String)
        ensures
            r@ == self.display(),
    {
        let port = decimal_text(self.port as u64);
        match self.ip {
            IpAddr::V4(_) => self.ip.to_text().concat(":").concat(port.as_str()),
            IpAddr::V6(_) => "[".to_owned().concat(self.ip.to_text().as_str()).concat("]:").concat(
                port.as_str(),
            ),
        }
    }
}

impl Cidr {
    /// The text of the network: its address and its prefix length.
    pub open spec fn display(self) -> Seq<char> {
        match self {
            Cidr::V4 { addr, prefix } => IpAddr::V4(addr).display() + "/"@ + decimal(prefix as nat),
            Cidr::V6 { addr, prefix } => IpAddr::V6(addr).display() + "/"@ + decimal(prefix as nat),
        }
    }

    /// The text of the network.
    pub fn to_text(&self) -> (r: String)
        ensures
            r@ == self.display(),
    {
        self.addr().to_text().concat("/").concat(decimal_text(self.prefix_len() as u64).as_str())
    }
}

/// Some network of the list covers the address.
pub open spec fn some_covers(nets: Seq<Cidr>, ip: IpAddr) -> bool {
    exists|i: int| 0 <= i < nets.len() && (#[trigger] nets[i]).covers(ip)
}

impl Cidr {
    /// All addresses of the network come before those of `other`, IPv4 ones before IPv6 ones.
    pub open spec fn comes_before(self, other: Cidr) -> bool {
        if self.is_v4() == other.is_v4() {
            self.last() < other.first()
        } else {
            self.is_v4()
        }
    }

    /// The network and `other` are the lower and the upper half of one larger network.
    pub open spec fn is_half_with(self, other: Cidr) -> bool {
        &&& self.is_v4() == other.is_v4()
        &&& self.host_bits() == other.host_bits()
        &&& other.first() == self.last() + 1
        &&& self.first() % pow2(self.host_bits() + 1) == 0
    }
}

/// The networks are written with their first address, ascend without a common address, and no two
/// of them are the halves of one larger network.
pub open spec fn tidy(nets: Seq<Cidr>) -> bool {
    &&& forall|i: int| 0 <= i < nets.len() ==> (#[trigger] nets[i]).canonical() == nets[i]
    &&& forall|i: int, j: int|
        0 <= i < j < nets.len() ==> (#[trigger] nets[i]).comes_before(#[trigger] nets[j])
    &&& forall|i: int, j: int|
        0 <= i < j < nets.len() ==> !(#[trigger] nets[i]).is_half_with(#[trigger] nets[j])
}

/// Two lists of networks cover the same addresses.
pub open spec fn cover_alike(a: Seq<Cidr>, b: Seq<Cidr>) -> bool {
    forall|ip: IpAddr| #![trigger some_covers(a, ip)] some_covers(a, ip) == some_covers(b, ip)
}

/// The first address of a network.
pub open spec fn first_address(net: Cidr) -> IpAddr {
    if net.is_v4() {
        IpAddr::V4(net.first() as u32)
    } else {
        IpAddr::V6(net.first() as u128)
    }
}

proof fn lemma_tidy_apart(nets: Seq<Cidr>, i: int, j: int)
    requires
        tidy(nets),
        0 <= i < nets.len(),
        0 <= j < nets.len(),
        nets[i].meets(nets[j]),
    ensures
        i == j,
{
    if i < j {
        assert(nets[i].comes_before(nets[j]));
    } else if j < i {
        assert(nets[j].comes_before(nets[i]));
    }
}

/// Among the networks that lie in another one, one is the least, where there is one at all.
proof fn lemma_least_within(nets: Seq<Cidr>, outer: Cidr, n: nat) -> (least: int)
    requires
        n <= nets.len(),
        exists|i: int| 0 <= i < n && outer.encloses(#[trigger] nets[i]),
    ensures
        0 <= least < n,
        outer.encloses(nets[least]),
        forall|i: int|
            0 <= i < n && outer.encloses(#[trigger] nets[i]) ==> nets[least].host_bits()
                <= nets[i].host_bits(),
    decreases n,
{
    if exists|i: int| 0 <= i < n - 1 && outer.encloses(#[trigger] nets[i]) {
        let before = lemma_least_within(nets, outer, (n - 1) as nat);
        if outer.encloses(nets[n - 1]) && nets[n - 1].host_bits() < nets[before].host_bits() {
            n - 1
        } else {
            before
        }
    } else {
        n - 1
    }
}

/// The other half of the block of twice the size that an aligned block lies in.
proof fn lemma_other_half(start: nat, bits: nat) -> (other: nat)
    requires
        start % pow2(bits) == 0,
    ensures
        other % pow2(bits) == 0,
        block_start(other, bits) == other,
        block_start(start, bits + 1) <= other,
        other + pow2(bits) - 1 <= block_end(start, bits + 1),
        start % pow2(bits + 1) == 0 ==> other == start + pow2(bits),
        start % pow2(bits + 1) != 0 ==> start == other + pow2(bits) && other % pow2(bits + 1) == 0,
{
    lemma_block(start, bits + 1);
    lemma_pow2_adds(1, bits);
    vstd::arithmetic::power2::lemma2_to64();
    lemma_pow2_pos(bits);
    let s = pow2(bits) as int;
    let w = pow2(bits + 1) as int;
    assert(w == 2 * s);
    let q = start as int / s;
    vstd::arithmetic::div_mod::lemma_fundamental_div_mod(start as int, s);
    assert(start == s * q);
    let half = q / 2;
    let low = w * half;
    assert(low == s * (2 * half)) by (nonlinear_arith)
        requires
            low == w * half,
            w == 2 * s,
    ;
    assert(q == 2 * half || q == 2 * half + 1);
    assert(start == low || start == low + s) by (nonlinear_arith)
        requires
            start == s * q,
            q == 2 * half || q == 2 * half + 1,
            low == s * (2 * half),
    ;
    assert(half >= 0);
    assert(low >= 0) by (nonlinear_arith)
        requires
            low == w * half,
            w == 2 * s,
            s > 0,
            half >= 0,
    ;
    assert(low == half * w) by (nonlinear_arith)
        requires
            low == w * half,
    ;
    vstd::arithmetic::div_mod::lemma_fundamental_div_mod_converse(
        start as int,
        w,
        half,
        start - low,
    );
    vstd::arithmetic::div_mod::lemma_fundamental_div_mod_converse(low, w, half, 0);
    let other = if start == low {
        low + s
    } else {
        low
    };
    let p = if start == low {
        2 * half + 1
    } else {
        2 * half
    };
    assert(other == p * s) by (nonlinear_arith)
        requires
            low == s * (2 * half),
            (other == low + s && p == 2 * half + 1) || (other == low && p == 2 * half),
    ;
    vstd::arithmetic::div_mod::lemma_fundamental_div_mod_converse(other, s, p, 0);
    other as nat
}

/// A network whose addresses are all covered by a tidy list lies in one network of the list.
proof fn lemma_tidy_encloses(nets: Seq<Cidr>, inner: Cidr) -> (at: int)
    requires
        tidy(nets),
        forall|ip: IpAddr| #![trigger some_covers(nets, ip)] inner.covers(ip) ==> some_covers(nets, ip),
    ensures
        0 <= at < nets.len(),
        nets[at].encloses(inner),
{
    lemma_cidr_bounds(inner);
    let ip = first_address(inner);
    assert(inner.covers(ip));
    assert(some_covers(nets, ip));
    let i = choose|i: int| 0 <= i < nets.len() && (#[trigger] nets[i]).covers(ip);
    law_networks_nest_or_are_disjoint(nets[i], inner);
    if exists|k: int| 0 <= k < nets.len() && (#[trigger] nets[k]).encloses(inner) {
        choose|k: int| 0 <= k < nets.len() && (#[trigger] nets[k]).encloses(inner)
    } else {
        assert(inner.encloses(nets[i]));
        let j = lemma_least_within(nets, inner, nets.len());
        let net = nets[j];
        let bits = net.host_bits();
        lemma_cidr_bounds(net);
        lemma_block(net.number(), bits);
        lemma_encloses_by_prefix(inner, net);
        lemma_encloses_by_prefix(net, inner);
        if bits == inner.host_bits() {
            lemma_blocks_nest(inner.number(), net.number(), bits, bits);
            assert(net.encloses(inner));
        }
        assert(bits < inner.host_bits());
        let start = net.first();
        let other = lemma_other_half(start, bits);
        lemma_blocks_nest(inner.number(), start, bits + 1, inner.host_bits());
        let across = if inner.is_v4() {
            IpAddr::V4(other as u32)
        } else {
            IpAddr::V6(other as u128)
        };
        lemma_pow2_pos(bits);
        assert(inner.covers(across));
        assert(some_covers(nets, across));
        let k = choose|k: int| 0 <= k < nets.len() && (#[trigger] nets[k]).covers(across);
        let sibling = nets[k];
        lemma_cidr_bounds(sibling);
        law_networks_nest_or_are_disjoint(sibling, inner);
        assert(sibling.meets(inner));
        assert(inner.encloses(sibling));
        assert(bits <= sibling.host_bits());
        if bits < sibling.host_bits() {
            lemma_blocks_nest(sibling.number(), other, bits + 1, sibling.host_bits());
            lemma_block(start, bits + 1);
            lemma_blocks_nest(start, other, bits, bits + 1);
            assert(sibling.meets(net));
            lemma_tidy_apart(nets, k, j);
            assert(false);
        } else {
            lemma_blocks_nest(sibling.number(), other, bits, bits);
            assert(sibling.first() == other);
            assert(k != j);
            if start % pow2(bits + 1) == 0 {
                assert(net.is_half_with(sibling));
                if k < j {
                    assert(sibling.comes_before(net));
                }
            } else {
                assert(sibling.is_half_with(net));
                if j < k {
                    assert(net.comes_before(sibling));
                }
            }
            assert(false);
        }
        i
    }
}

/// No list of networks covers the same addresses as a tidy one with fewer networks.
pub proof fn law_tidy_list_is_shortest(nets: Seq<Cidr>, others: Seq<Cidr>)
    requires
        tidy(nets),
        cover_alike(nets, others),
    ensures
        nets.len() <= others.len(),
{
    let first = |i: int| first_address(nets[i]);
    let found = Seq::new(
        nets.len(),
        |i: int| choose|k: int| 0 <= k < others.len() && (#[trigger] others[k]).covers(first(i)),
    );
    assert forall|i: int| 0 <= i < nets.len() implies 0 <= #[trigger] found[i] < others.len()
        && others[found[i]].covers(first(i)) && nets[i].encloses(others[found[i]]) by {
        lemma_cidr_bounds(nets[i]);
        assert(nets[i].covers(first(i)));
        assert(some_covers(nets, first(i)));
        assert(some_covers(others, first(i)));
        let k = choose|k: int| 0 <= k < others.len() && (#[trigger] others[k]).covers(first(i));
        assert(found[i] == k);
        assert forall|ip: IpAddr|
            #![trigger some_covers(nets, ip)]
            others[k].covers(ip) implies some_covers(nets, ip) by {
            assert(some_covers(others, ip));
        }
        let at = lemma_tidy_encloses(nets, others[k]);
        assert(nets[at].meets(nets[i]));
        lemma_tidy_apart(nets, at, i);
    }
    assert forall|i: int, j: int| 0 <= i < j < found.len() implies found[i] != found[j] by {
        if found[i] == found[j] {
            lemma_cidr_bounds(nets[j]);
            assert(nets[i].encloses(others[found[i]]));
            assert(others[found[j]].covers(first(j)));
            assert(nets[i].meets(nets[j]));
            lemma_tidy_apart(nets, i, j);
        }
    }
    assert(found.no_duplicates());
    found.unique_seq_to_set();
    let positions = vstd::set_lib::set_int_range(0, others.len() as int);
    vstd::set_lib::lemma_int_range(0, others.len() as int);
    assert(found.to_set().subset_of(positions)) by {
        assert forall|p: int| found.to_set().contains(p) implies positions.contains(p) by {
            let i = choose|i: int| 0 <= i < found.len() && found[i] == p;
            assert(0 <= found[i] < others.len());
        }
    }
    vstd::set_lib::lemma_len_subset(found.to_set(), positions);
}

/// The networks that ipnet aggregates a list of networks to.
pub uninterp spec fn ipnet_aggregate(nets: Seq<Cidr>) -> Seq<Cidr>;

/// Calls `ipnet::IpNet::aggregate`. The result is a function of the list alone. Beside that the
/// contract says that the result covers exactly the addresses that the list covers, that its
/// networks are written with their first address, that they ascend without a common address, IPv4
/// ones before IPv6 ones, and that no two of them are the halves of one larger network.
#[verifier::external_body]
pub(crate) fn aggregate(nets: &Vec<Cidr>) -> (r: Vec<Cidr>)
    requires
        forall|i: int| 0 <= i < nets@.len() ==> (#[trigger] nets@[i]).wf(),
    ensures
        r@ == ipnet_aggregate(nets@),
        cover_alike(r@, nets@),
        tidy(r@),
{
    let list = nets.iter().map(|c| match *c {
        Cidr::V4 { addr, prefix } => ipnet::IpNet::V4(ipnet::Ipv4Net::new_assert(addr.into(), prefix)),
        Cidr::V6 { addr, prefix } => ipnet::IpNet::V6(ipnet::Ipv6Net::new_assert(addr.into(), prefix)),
    }).collect::<Vec<_>>();
    ipnet::IpNet::aggregate(&list).into_iter().map(|n| match n {
        ipnet::IpNet::V4(n) => Cidr::V4 { addr: u32::from(n.addr()), prefix: n.prefix_len() },
        ipnet::IpNet::V6(n) => Cidr::V6 { addr: u128::from(n.addr()), prefix: n.prefix_len() },
    }).collect()
}

/// An address lies in a network exactly where it is of the same family and agrees with the address
/// of the network in the leading bits that the prefix counts.
pub proof fn law_covered_address_shares_the_leading_bits(net: Cidr, ip: IpAddr)
    requires
        net.wf(),
    ensures
        net.covers(ip) <==> match (net, ip) {
            (Cidr::V4 { addr, prefix }, IpAddr::V4(n)) => n as nat / pow2((32 - prefix) as nat)
                == addr as nat / pow2((32 - prefix) as nat),
            (Cidr::V6 { addr, prefix }, IpAddr::V6(n)) => n as nat / pow2((128 - prefix) as nat)
                == addr as nat / pow2((128 - prefix) as nat),
            _ => false,
        },
{
    let bits = net.host_bits();
    lemma_pow2_pos(bits);
    let size = pow2(bits) as int;
    let a = net.number() as int;
    let n = ip.number() as int;
    vstd::arithmetic::div_mod::lemma_fundamental_div_mod(a, size);
    vstd::arithmetic::div_mod::lemma_fundamental_div_mod(n, size);
    vstd::arithmetic::div_mod::lemma_mod_bound(a, size);
    vstd::arithmetic::div_mod::lemma_mod_bound(n, size);
    let p = a / size;
    let q = n / size;
    assert(net.first() == size * p);
    if net.first() <= n <= net.last() {
        assert(p == q) by (nonlinear_arith)
            requires
                size * p <= n,
                n <= size * p + size - 1,
                size * q <= n,
                n < size * q + size,
                size > 0,
        ;
    }
}

/// Each address of one network lies in the other.
pub open spec fn has_all_of(outer: Cidr, inner: Cidr) -> bool {
    forall|ip: IpAddr| inner.covers(ip) ==> #[trigger] outer.covers(ip)
}

/// Some address lies in both networks.
pub open spec fn has_some_of(one: Cidr, other: Cidr) -> bool {
    exists|ip: IpAddr| one.covers(ip) && #[trigger] other.covers(ip)
}

/// A network encloses another one exactly where it has all of its addresses.
pub proof fn law_enclosure_is_of_all_addresses(outer: Cidr, inner: Cidr)
    ensures
        outer.encloses(inner) <==> has_all_of(outer, inner),
{
    lemma_cidr_bounds(outer);
    lemma_cidr_bounds(inner);
    let low = first_address(inner);
    let high = if inner.is_v4() {
        IpAddr::V4(inner.last() as u32)
    } else {
        IpAddr::V6(inner.last() as u128)
    };
    assert(inner.covers(low) && inner.covers(high));
    if has_all_of(outer, inner) {
        assert(outer.covers(low) && outer.covers(high));
    }
}

/// The canonical form of a network has the same addresses and prefix, and is written with the least
/// of these addresses.
pub proof fn law_canonical_network_is_the_same(net: Cidr, ip: IpAddr)
    requires
        net.wf(),
    ensures
        net.canonical().covers(ip) == net.covers(ip),
        net.canonical().bits() == net.bits(),
        net.canonical().is_v4() == net.is_v4(),
        net.covers(ip) ==> net.canonical().number() <= ip.number(),
        net.canonical().covers(net.canonical().addr_of()),
{
    lemma_cidr_bounds(net);
}

impl Cidr {
    /// The address that the network is written with.
    pub open spec fn addr_of(self) -> IpAddr {
        match self {
            Cidr::V4 { addr, .. } => IpAddr::V4(addr),
            Cidr::V6 { addr, .. } => IpAddr::V6(addr),
        }
    }
}

} // verus!
