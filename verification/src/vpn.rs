//! The pool of VPN addresses.

use vstd::prelude::*;

use crate::error::ControlPlaneError;
use crate::lists::gathered;
use crate::net::{Cidr, IpAddr};
use crate::types::{views, NodeRecord, NodeRecordView};

verus! {

/// The first address of a pool, which no node gets.
pub open spec fn pool_first(pool: Cidr) -> nat {
    if pool.is_v4() {
        pool.first()
    } else {
        0
    }
}

/// The last address of a pool, which no node gets.
pub open spec fn pool_last(pool: Cidr) -> nat {
    if pool.is_v4() {
        pool.last()
    } else {
        0
    }
}

/// The address lies in the pool, and is neither its first nor its last.
pub open spec fn usable_host(pool: Cidr, ip: u32) -> bool {
    pool_first(pool) < ip < pool_last(pool)
}

/// The first address from a position on that lies in the pool and is not reserved.
pub open spec fn allocation(pool: Cidr, position: int, reserved: Seq<u32>, ip: u32) -> bool {
    &&& position <= ip < pool_last(pool)
    &&& !reserved.contains(ip)
    &&& forall|x: u32| position <= x < ip ==> reserved.contains(x)
}

fn pool_bounds(pool: &Cidr) -> (r: (u32, u32))
    ensures
        r.0 == pool_first(*pool),
        r.1 == pool_last(*pool),
        r.0 <= r.1,
{
    proof {
        crate::net::lemma_cidr_bounds(*pool);
    }
    match (pool.network(), pool.broadcast()) {
        (IpAddr::V4(first), IpAddr::V4(last)) => (first, last),
        _ => (0, 0),
    }
}

/// Gives out the addresses of a pool in ascending order.
#[derive(Debug, Clone, Copy, PartialEq, Eq, Structural)]
pub struct VpnAllocator {
    /// The IPv4 network that addresses are taken from.
    pub pool: Cidr,
    /// How far from the beginning of the pool the next address is looked for.
    pub next_host_offset: u32,
}

impl VpnAllocator {
    /// An allocator that has given out nothing.
    pub fn new(pool: Cidr) -> (r: Self)
        ensures
            r.pool == pool,
            r.next_host_offset == 1,
    {
        VpnAllocator { pool, next_host_offset: 1 }
    }

    /// The first address that the allocator still considers.
    pub open spec fn position(&self) -> int {
        pool_first(self.pool) + self.next_host_offset
    }

    /// The next address of the pool that is not reserved, where there is one.
    pub open spec fn next_address(self, reserved: Seq<u32>) -> Option<u32> {
        if exists|ip: u32| allocation(self.pool, self.position(), reserved, ip) {
            Some(choose|ip: u32| allocation(self.pool, self.position(), reserved, ip))
        } else {
            None
        }
    }

    /// The allocator after it was asked for an address: it considers only higher ones from then on.
    pub open spec fn after_allocation(self, reserved: Seq<u32>) -> VpnAllocator {
        let next = match self.next_address(reserved) {
            Some(ip) => ip + 1,
            None => if self.position() < pool_last(self.pool) {
                pool_last(self.pool) as int
            } else {
                self.position()
            },
        };
        VpnAllocator {
            pool: self.pool,
            next_host_offset: (next - pool_first(self.pool)) as u32,
        }
    }

    /// There is at most one next address.
    pub proof fn lemma_next_address(self, reserved: Seq<u32>, ip: u32)
        requires
            allocation(self.pool, self.position(), reserved, ip),
        ensures
            self.next_address(reserved) == Some(ip),
    {
        let chosen = choose|ip: u32| allocation(self.pool, self.position(), reserved, ip);
        assert(allocation(self.pool, self.position(), reserved, chosen));
    }

    /// The next address of the pool that is not reserved.
    pub fn allocate_next(&mut self, reserved: &Vec<u32>) -> (r: Result<IpAddr, ControlPlaneError>)
        ensures
            *final(self) == old(self).after_allocation(reserved@),
            old(self).next_address(reserved@) is Some == r is Ok,
            r matches Ok(ip) ==> ip == IpAddr::V4(old(self).next_address(reserved@)->0),
            final(self).pool == old(self).pool,
            match r {
                Ok(ip) => {
                    &&& ip matches IpAddr::V4(c) && allocation(
                        old(self).pool,
                        old(self).position(),
                        reserved@,
                        c,
                    ) && final(self).position() == c + 1
                },
                Err(error) => {
                    &&& error is VpnPoolExhausted
                    &&& forall|x: u32|
                        old(self).position() <= x < pool_last(old(self).pool)
                            ==> reserved@.contains(x)
                    &&& final(self).position() == (if old(self).position() < pool_last(
                        old(self).pool,
                    ) {
                        pool_last(old(self).pool) as int
                    } else {
                        old(self).position()
                    })
                },
            },
    {
        let (first, last) = pool_bounds(&self.pool);
        let ghost start = self.position();
        while self.next_host_offset < last - first
            invariant
                first <= last,
                first == pool_first(self.pool),
                last == pool_last(self.pool),
                self.pool == old(self).pool,
                start == old(self).position(),
                start <= self.position(),
                start < last ==> self.position() <= last,
                start >= last ==> self.position() == start,
                forall|x: u32| start <= x < self.position() && x < last ==> reserved@.contains(x),
            decreases last - first - self.next_host_offset,
        {
            let candidate: u32 = first + self.next_host_offset;
            self.next_host_offset = self.next_host_offset + 1;
            if !list_has(reserved, candidate) {
                proof {
                    old(self).lemma_next_address(reserved@, candidate);
                }
                return Ok(IpAddr::V4(candidate));
            }
        }
        Err(ControlPlaneError::VpnPoolExhausted)
    }
}

fn list_has(list: &Vec<u32>, value: u32) -> (r: bool)
    ensures
        r == list@.contains(value),
{
    let mut i: usize = 0;
    while i < list.len()
        invariant
            i <= list@.len(),
            forall|k: int| 0 <= k < i ==> list@[k] != value,
        decreases list@.len() - i,
    {
        if list[i] == value {
            return true;
        }
        i = i + 1;
    }
    false
}

/// The IPv4 address of a node.
pub open spec fn assigned_ipv4(node: NodeRecordView) -> Option<u32> {
    match node.vpn_ip {
        IpAddr::V4(ip) => Some(ip),
        IpAddr::V6(_) => None,
    }
}

/// The IPv4 addresses of nodes.
pub open spec fn assigned_addresses(nodes: Seq<NodeRecordView>) -> Seq<u32> {
    gathered(nodes, |node: NodeRecordView| assigned_ipv4(node), nodes.len())
}

/// The IPv4 addresses of nodes, in their order.
pub fn assigned_ipv4_vpn_ips(nodes: &Vec<NodeRecord>) -> (r: Vec<u32>)
    ensures
        r@ == assigned_addresses(views(nodes@)),
{
    let ghost all = views(nodes@);
    let ghost f = |node: NodeRecordView| assigned_ipv4(node);
    let mut r: Vec<u32> = Vec::new();
    let mut i: usize = 0;
    while i < nodes.len()
        invariant
            i <= nodes@.len(),
            all == views(nodes@),
            f == (|node: NodeRecordView| assigned_ipv4(node)),
            r@ == gathered(all, f, i as nat),
        decreases nodes@.len() - i,
    {
        assert(all[i as int] == nodes@[i as int]@);
        match nodes[i].vpn_ip {
            IpAddr::V4(ip) => {
                r.push(ip);
            },
            IpAddr::V6(_) => {},
        }
        i = i + 1;
    }
    r
}

/// How many addresses of a pool nodes can get.
pub fn vpn_pool_usable_host_count(pool: &Cidr) -> (r: u64)
    ensures
        r == (if pool_first(*pool) < pool_last(*pool) {
            pool_last(*pool) - pool_first(*pool) - 1
        } else {
            0
        }),
{
    let (first, last) = pool_bounds(pool);
    if first < last {
        (last - first - 1) as u64
    } else {
        0
    }
}

/// Whether a node can get the address.
pub fn vpn_pool_contains_usable_host(pool: &Cidr, ip: u32) -> (r: bool)
    ensures
        r == usable_host(*pool, ip),
{
    let (first, last) = pool_bounds(pool);
    ip > first && ip < last
}

/// Of two addresses that an allocator gives out one after the other, the second is the higher one,
/// whatever was reserved: no address is given out twice. Both are addresses that nodes can get, and
/// neither was reserved.
pub proof fn law_allocations_differ(
    allocator: VpnAllocator,
    reserved: Seq<u32>,
    first: u32,
    reserved_later: Seq<u32>,
    second: u32,
)
    requires
        allocator.next_host_offset >= 1,
        allocation(allocator.pool, allocator.position(), reserved, first),
        allocation(allocator.pool, first + 1, reserved_later, second),
    ensures
        first < second,
        usable_host(allocator.pool, first),
        usable_host(allocator.pool, second),
        !reserved.contains(first),
        !reserved_later.contains(second),
{
}

/// An allocator gives out the lowest address from where it stands on that is not reserved and that is
/// neither the first nor the last of the pool; it gives out none exactly where all of these are
/// reserved.
pub proof fn law_lowest_free_address_is_allocated(allocator: VpnAllocator, reserved: Seq<u32>)
    requires
        allocator.pool.is_v4(),
        allocator.next_host_offset >= 1,
    ensures
        allocator.next_address(reserved) matches Some(ip) ==> {
            &&& allocator.pool.first() < ip < allocator.pool.last()
            &&& !reserved.contains(ip)
            &&& forall|x: u32|
                allocator.pool.first() + allocator.next_host_offset <= x < ip
                    ==> #[trigger] reserved.contains(x)
        },
        allocator.next_address(reserved) is None ==> forall|x: u32|
            allocator.pool.first() + allocator.next_host_offset <= x < allocator.pool.last()
                ==> #[trigger] reserved.contains(x),
{
    if allocator.next_address(reserved) is None {
        assert forall|x: u32|
            allocator.position() <= x < pool_last(
                allocator.pool,
            ) implies #[trigger] reserved.contains(x) by {
            lemma_free_or_reserved(allocator, reserved, x);
        }
    }
}

proof fn lemma_free_or_reserved(allocator: VpnAllocator, reserved: Seq<u32>, x: u32)
    requires
        allocator.next_address(reserved) is None,
        allocator.position() <= x < pool_last(allocator.pool),
    ensures
        reserved.contains(x),
    decreases x,
{
    assert forall|y: u32| allocator.position() <= y < x implies reserved.contains(y) by {
        lemma_free_or_reserved(allocator, reserved, y);
    }
    if !reserved.contains(x) {
        assert(allocation(allocator.pool, allocator.position(), reserved, x));
    }
}

/// The addresses that are assigned are exactly the IPv4 ones that nodes hold.
pub proof fn law_assigned_addresses_are_held(nodes: Seq<NodeRecordView>, ip: u32)
    ensures
        assigned_addresses(nodes).contains(ip) <==> exists|i: int|
            0 <= i < nodes.len() && (#[trigger] nodes[i]).vpn_ip == IpAddr::V4(ip),
{
    let f = |node: NodeRecordView| assigned_ipv4(node);
    crate::lists::lemma_gathered_members(nodes, f);
    if assigned_addresses(nodes).contains(ip) {
        let i = choose|i: int| 0 <= i < nodes.len() && f(#[trigger] nodes[i]) == Some(ip);
        assert(nodes[i].vpn_ip == IpAddr::V4(ip));
    }
    if exists|i: int| 0 <= i < nodes.len() && (#[trigger] nodes[i]).vpn_ip == IpAddr::V4(ip) {
        let i = choose|i: int|
            0 <= i < nodes.len() && (#[trigger] nodes[i]).vpn_ip == IpAddr::V4(ip);
        assert(f(nodes[i]) == Some(ip));
    }
}

/// An address can be given to a node exactly where it lies in the pool and is neither its first nor
/// its last one.
pub proof fn law_hosts_lie_strictly_within_the_pool(pool: Cidr, ip: u32)
    ensures
        usable_host(pool, ip) <==> pool.is_v4() && pool.first() < ip && ip < pool.last(),
{
}

} // verus!
