//! Advertised routes: their shape, where they may lie, and the catalog of all of them.

use vstd::prelude::*;
use vstd::utf8::*;

use crate::digest::{epoch_of, overlay_epoch_digest};
use crate::error::{reason_of, ControlPlaneError};
use crate::ids::{sorted_names, ClusterId, NodeId};
use crate::net::{
    aggregate, cover_alike, ipnet_aggregate, ipnet_contains, ipnets_overlap,
    law_tidy_list_is_shortest, tidy, Cidr,
};
use crate::order::{
    key_view, keys_view, law_stable_order, pick, sort_positions, stable_order, KeyPart, KeyPartView, KeyView,
};
use crate::lists::{first_in, kept, lemma_first_in_extends};
use crate::text::{
    byte_len, byte_length, decimal, decimal_text, identifier_text, is_identifier_text, text_same,
};
use crate::types::{
    views, ClusterPolicy, NodeRecord, NodeRecordView, Record, Route, RouteView, TokenPolicy,
    TokenPolicyView,
};

verus! {

/// How many routes a node may advertise.
pub const MAX_OVERLAY_NODE_ROUTES: usize = 256;

/// How many networks may be captured for the overlay.
pub const MAX_OVERLAY_ROUTE_SCOPES: usize = 64;

/// The longest route identifier, in bytes.
pub const MAX_ROUTE_ID_BYTES: usize = 128;

/// Why a route identifier is not accepted.
pub open spec fn route_id_fault(id: Seq<char>) -> Option<Seq<char>> {
    if id.len() == 0 {
        Some("route ID cannot be empty"@)
    } else if byte_len(id) > MAX_ROUTE_ID_BYTES {
        Some("route ID exceeds 128 bytes"@)
    } else if id == "."@ || id == ".."@ {
        Some("route ID must not be '.' or '..'"@)
    } else if !identifier_text(id, true) {
        Some("route ID must contain only ASCII letters, digits, '.', '_', ':' or '-'"@)
    } else {
        None
    }
}

/// Checks a route identifier.
pub fn validate_advertised_route_id(id: &str) -> (r: Result<(), String>)
    ensures
        reason_of(r) == route_id_fault(id@),
{
    if id.is_empty() {
        return Err("route ID cannot be empty".to_owned());
    }
    if byte_length(id) > MAX_ROUTE_ID_BYTES {
        return Err("route ID exceeds 128 bytes".to_owned());
    }
    if text_same(id, ".") || text_same(id, "..") {
        return Err("route ID must not be '.' or '..'".to_owned());
    }
    if !is_identifier_text(id, true) {
        return Err(
            "route ID must contain only ASCII letters, digits, '.', '_', ':' or '-'".to_owned(),
        );
    }
    Ok(())
}

/// An IPv4 network.
pub open spec fn v4_net(addr: u32, prefix: u8) -> Cidr {
    Cidr::V4 { addr, prefix }
}

/// An IPv6 network.
pub open spec fn v6_net(addr: u128, prefix: u8) -> Cidr {
    Cidr::V6 { addr, prefix }
}

/// Which restricted addresses a network has, where it has some.
pub open spec fn restricted_kind(cidr: Cidr) -> Option<Seq<char>> {
    if cidr.bits() == 0 {
        Some("unrestricted"@)
    } else if cidr.is_v4() {
        if cidr.meets(v4_net(0, 8)) {
            Some("unspecified"@)
        } else if cidr.meets(v4_net(0x7f00_0000, 8)) {
            Some("loopback"@)
        } else if cidr.meets(v4_net(0xa9fe_0000, 16)) {
            Some("link-local"@)
        } else if cidr.meets(v4_net(0xe000_0000, 4)) {
            Some("multicast"@)
        } else if cidr.meets(v4_net(0xffff_ffff, 32)) {
            Some("broadcast"@)
        } else {
            None
        }
    } else {
        if cidr.meets(v6_net(0, 128)) {
            Some("unspecified"@)
        } else if cidr.meets(v6_net(1, 128)) {
            Some("loopback"@)
        } else if cidr.meets(v6_net(0xfe80_0000_0000_0000_0000_0000_0000_0000, 10)) {
            Some("link-local"@)
        } else if cidr.meets(v6_net(0xff00_0000_0000_0000_0000_0000_0000_0000, 8)) {
            Some("multicast"@)
        } else {
            None
        }
    }
}

/// Whether an end of one network lies in the other.
fn cidrs_overlap(left: &Cidr, right: &Cidr) -> (r: bool)
    ensures
        r == left.meets(*right),
{
    proof {
        crate::net::lemma_cidr_bounds(*left);
        crate::net::lemma_cidr_bounds(*right);
    }
    left.contains(&right.network()) || left.contains(&right.broadcast()) || right.contains(
        &left.network(),
    ) || right.contains(&left.broadcast())
}

/// Which restricted addresses a network has, where it has some.
pub fn restricted_advertised_route_cidr_reason(cidr: &Cidr) -> (r: Option<&'static str>)
    ensures
        match r {
            Some(kind) => restricted_kind(*cidr) == Some(kind@),
            None => restricted_kind(*cidr) is None,
        },
{
    if cidr.prefix_len() == 0 {
        return Some("unrestricted");
    }
    match cidr {
        Cidr::V4 { addr: _, prefix: _ } => {
            if cidrs_overlap(cidr, &Cidr::V4 { addr: 0, prefix: 8 }) {
                Some("unspecified")
            } else if cidrs_overlap(cidr, &Cidr::V4 { addr: 0x7f00_0000, prefix: 8 }) {
                Some("loopback")
            } else if cidrs_overlap(cidr, &Cidr::V4 { addr: 0xa9fe_0000, prefix: 16 }) {
                Some("link-local")
            } else if cidrs_overlap(cidr, &Cidr::V4 { addr: 0xe000_0000, prefix: 4 }) {
                Some("multicast")
            } else if cidrs_overlap(cidr, &Cidr::V4 { addr: 0xffff_ffff, prefix: 32 }) {
                Some("broadcast")
            } else {
                None
            }
        },
        Cidr::V6 { addr: _, prefix: _ } => {
            if cidrs_overlap(cidr, &Cidr::V6 { addr: 0, prefix: 128 }) {
                Some("unspecified")
            } else if cidrs_overlap(cidr, &Cidr::V6 { addr: 1, prefix: 128 }) {
                Some("loopback")
            } else if cidrs_overlap(
                cidr,
                &Cidr::V6 { addr: 0xfe80_0000_0000_0000_0000_0000_0000_0000, prefix: 10 },
            ) {
                Some("link-local")
            } else if cidrs_overlap(
                cidr,
                &Cidr::V6 { addr: 0xff00_0000_0000_0000_0000_0000_0000_0000, prefix: 8 },
            ) {
                Some("multicast")
            } else {
                None
            }
        },
    }
}

/// Why the route at position `i` of a list is not accepted.
pub open spec fn route_fault(node_id: Seq<char>, routes: Seq<RouteView>, i: int) -> Option<Seq<char>> {
    let route = routes[i];
    if route_id_fault(route.id) is Some {
        route_id_fault(route.id)
    } else if exists|j: int| 0 <= j < i && (#[trigger] routes[j]).id == route.id {
        Some("route list must not repeat route ID "@ + route.id)
    } else if route.metric == 0 {
        Some("route "@ + route.id + " metric must be greater than zero"@)
    } else if restricted_kind(route.cidr) is Some {
        Some(
            "route "@ + route.id + " must not include "@ + restricted_kind(route.cidr)->0 + " CIDR "@
                + route.cidr.display(),
        )
    } else if route.cidr != route.cidr.canonical() {
        Some(
            "route "@ + route.id + " must use canonical CIDR "@ + route.cidr.canonical().display()
                + ", not "@ + route.cidr.display(),
        )
    } else if exists|j: int| 0 <= j < i && (#[trigger] routes[j]).cidr == route.cidr {
        Some(
            "route list for node "@ + node_id + " must not repeat CIDR "@ + route.cidr.display(),
        )
    } else {
        None
    }
}

/// Why one of the first `n` routes is not accepted.
pub open spec fn first_route_fault(
    node_id: Seq<char>,
    routes: Seq<RouteView>,
    n: nat,
) -> Option<Seq<char>> {
    first_in(n, |i: int| route_fault(node_id, routes, i))
}

/// Why a list of advertised routes is not accepted.
pub open spec fn routes_shape_fault(node_id: Seq<char>, routes: Seq<RouteView>) -> Option<Seq<char>> {
    if routes.len() > MAX_OVERLAY_NODE_ROUTES {
        Some(
            "route list for node "@ + node_id + " contains "@ + decimal(routes.len())
                + " routes; maximum is "@ + decimal(MAX_OVERLAY_NODE_ROUTES as nat),
        )
    } else {
        first_route_fault(node_id, routes, routes.len())
    }
}

fn repeats_route_id(routes: &Vec<Route>, i: usize) -> (r: bool)
    requires
        i < routes@.len(),
    ensures
        r == exists|j: int|
            0 <= j < i && (#[trigger] views(routes@)[j]).id == views(routes@)[i as int].id,
{
    let mut j: usize = 0;
    while j < i
        invariant
            j <= i,
            i < routes@.len(),
            forall|k: int| 0 <= k < j ==> (#[trigger] views(routes@)[k]).id != views(routes@)[i as int].id,
        decreases i - j,
    {
        if routes[j].id == routes[i].id {
            assert(views(routes@)[j as int].id == views(routes@)[i as int].id);
            return true;
        }
        j = j + 1;
    }
    false
}

fn repeats_route_cidr(routes: &Vec<Route>, i: usize) -> (r: bool)
    requires
        i < routes@.len(),
    ensures
        r == exists|j: int|
            0 <= j < i && (#[trigger] views(routes@)[j]).cidr == views(routes@)[i as int].cidr,
{
    let mut j: usize = 0;
    while j < i
        invariant
            j <= i,
            i < routes@.len(),
            forall|k: int|
                0 <= k < j ==> (#[trigger] views(routes@)[k]).cidr != views(routes@)[i as int].cidr,
        decreases i - j,
    {
        if routes[j].cidr == routes[i].cidr {
            assert(views(routes@)[j as int].cidr == views(routes@)[i as int].cidr);
            return true;
        }
        j = j + 1;
    }
    false
}

fn check_route(node_id: &NodeId, routes: &Vec<Route>, i: usize) -> (r: Result<(), String>)
    requires
        i < routes@.len(),
    ensures
        reason_of(r) == route_fault(node_id@, views(routes@), i as int),
{
    let route = &routes[i];
    assert(views(routes@)[i as int] == route@);
    validate_advertised_route_id(route.id.as_str())?;
    if repeats_route_id(routes, i) {
        return Err("route list must not repeat route ID ".to_owned().concat(route.id.as_str()));
    }
    if route.metric == 0 {
        return Err(
            "route ".to_owned().concat(route.id.as_str()).concat(
                " metric must be greater than zero",
            ),
        );
    }
    if let Some(kind) = restricted_advertised_route_cidr_reason(&route.cidr) {
        return Err(
            "route ".to_owned().concat(route.id.as_str()).concat(" must not include ").concat(
                kind,
            ).concat(" CIDR ").concat(route.cidr.to_text().as_str()),
        );
    }
    let canonical = route.cidr.trunc();
    if route.cidr != canonical {
        return Err(
            "route ".to_owned().concat(route.id.as_str()).concat(
                " must use canonical CIDR ",
            ).concat(canonical.to_text().as_str()).concat(", not ").concat(
                route.cidr.to_text().as_str(),
            ),
        );
    }
    if repeats_route_cidr(routes, i) {
        return Err(
            "route list for node ".to_owned().concat(node_id.as_str()).concat(
                " must not repeat CIDR ",
            ).concat(route.cidr.to_text().as_str()),
        );
    }
    Ok(())
}

/// Checks a list of advertised routes.
pub fn validate_advertised_routes_shape(node_id: &NodeId, routes: &Vec<Route>) -> (r: Result<
    (),
    String,
>)
    ensures
        reason_of(r) == routes_shape_fault(node_id@, views(routes@)),
{
    let ghost all = views(routes@);
    if routes.len() > MAX_OVERLAY_NODE_ROUTES {
        return Err(
            "route list for node ".to_owned().concat(node_id.as_str()).concat(" contains ").concat(
                decimal_text(routes.len() as u64).as_str(),
            ).concat(" routes; maximum is ").concat(
                decimal_text(MAX_OVERLAY_NODE_ROUTES as u64).as_str(),
            ),
        );
    }
    let mut i: usize = 0;
    while i < routes.len()
        invariant
            i <= routes@.len(),
            routes@.len() <= MAX_OVERLAY_NODE_ROUTES,
            all == views(routes@),
            first_route_fault(node_id@, all, i as nat) is None,
        decreases routes@.len() - i,
    {
        let checked = check_route(node_id, routes, i);
        if checked.is_err() {
            proof {
                lemma_first_in_extends(
                    (i + 1) as nat,
                    all.len(),
                    |k: int| route_fault(node_id@, all, k),
                );
            }
            return checked;
        }
        i = i + 1;
    }
    Ok(())
}

/// Some scope of the list encloses the network.
pub open spec fn some_encloses(scopes: Seq<Cidr>, cidr: Cidr) -> bool {
    exists|i: int| 0 <= i < scopes.len() && (#[trigger] scopes[i]).encloses(cidr)
}

fn any_encloses(scopes: &Vec<Cidr>, cidr: &Cidr) -> (r: bool)
    ensures
        r == some_encloses(scopes@, *cidr),
{
    let mut i: usize = 0;
    while i < scopes.len()
        invariant
            i <= scopes@.len(),
            forall|k: int| 0 <= k < i ==> !(#[trigger] scopes@[k]).encloses(*cidr),
        decreases scopes@.len() - i,
    {
        if ipnet_contains(&scopes[i], cidr) {
            return true;
        }
        i = i + 1;
    }
    false
}

/// Why a route lies outside of the overlay.
pub open spec fn unscoped_fault(route: RouteView, scopes: Seq<Cidr>) -> Option<Seq<char>> {
    if some_encloses(scopes, route.cidr) {
        None
    } else {
        Some(
            "route "@ + route.id + " CIDR "@ + route.cidr.display()
                + " is not fully contained in any configured overlay route scope"@,
        )
    }
}

/// Why one of the first `n` routes lies outside of the overlay.
pub open spec fn first_unscoped_route(
    routes: Seq<RouteView>,
    scopes: Seq<Cidr>,
    n: nat,
) -> Option<Seq<char>> {
    first_in(n, |i: int| unscoped_fault(routes[i], scopes))
}

/// Why a list of routes lies outside of the overlay. Without scopes, none does.
pub open spec fn scope_fault(routes: Seq<RouteView>, scopes: Seq<Cidr>) -> Option<Seq<char>> {
    if scopes.len() == 0 {
        None
    } else {
        first_unscoped_route(routes, scopes, routes.len())
    }
}

/// Checks that each route lies in a scope of the overlay.
pub fn validate_routes_within_overlay_scopes(routes: &Vec<Route>, policy: &ClusterPolicy) -> (r: Result<
    (),
    String,
>)
    ensures
        reason_of(r) == scope_fault(views(routes@), policy@.overlay_route_scopes),
{
    let ghost all = views(routes@);
    let ghost scopes = policy.overlay_route_scopes@;
    if policy.overlay_route_scopes.len() == 0 {
        return Ok(());
    }
    let mut i: usize = 0;
    while i < routes.len()
        invariant
            i <= routes@.len(),
            all == views(routes@),
            scopes == policy.overlay_route_scopes@,
            scopes.len() > 0,
            first_unscoped_route(all, scopes, i as nat) is None,
        decreases routes@.len() - i,
    {
        if !any_encloses(&policy.overlay_route_scopes, &routes[i].cidr) {
            proof {
                lemma_first_in_extends(
                    (i + 1) as nat,
                    all.len(),
                    |k: int| unscoped_fault(all[k], scopes),
                );
            }
            return Err(
                "route ".to_owned().concat(routes[i].id.as_str()).concat(" CIDR ").concat(
                    routes[i].cidr.to_text().as_str(),
                ).concat(" is not fully contained in any configured overlay route scope"),
            );
        }
        i = i + 1;
    }
    Ok(())
}

/// Why a route is not accepted beside the VPN pool.
pub open spec fn pool_overlap_fault(route: RouteView, vpn_pool: Cidr) -> Option<Seq<char>> {
    if route.cidr.meets(vpn_pool) {
        Some(
            "route "@ + route.id + " CIDR "@ + route.cidr.display() + " overlaps VPN pool "@
                + vpn_pool.display(),
        )
    } else {
        None
    }
}

/// Why one of the first `n` routes is not accepted beside the VPN pool.
pub open spec fn first_pool_overlap(
    routes: Seq<RouteView>,
    vpn_pool: Cidr,
    n: nat,
) -> Option<Seq<char>> {
    first_in(n, |i: int| pool_overlap_fault(routes[i], vpn_pool))
}

/// Checks that no route overlaps the VPN pool.
pub fn validate_routes_against_vpn_pool(routes: &Vec<Route>, vpn_pool: Cidr) -> (r: Result<
    (),
    String,
>)
    ensures
        reason_of(r) == first_pool_overlap(views(routes@), vpn_pool, routes@.len()),
{
    let ghost all = views(routes@);
    let mut i: usize = 0;
    while i < routes.len()
        invariant
            i <= routes@.len(),
            all == views(routes@),
            first_pool_overlap(all, vpn_pool, i as nat) is None,
        decreases routes@.len() - i,
    {
        if ipnets_overlap(&routes[i].cidr, &vpn_pool) {
            proof {
                lemma_first_in_extends(
                    (i + 1) as nat,
                    all.len(),
                    |k: int| pool_overlap_fault(all[k], vpn_pool),
                );
            }
            return Err(
                "route ".to_owned().concat(routes[i].id.as_str()).concat(" CIDR ").concat(
                    routes[i].cidr.to_text().as_str(),
                ).concat(" overlaps VPN pool ").concat(vpn_pool.to_text().as_str()),
            );
        }
        i = i + 1;
    }
    Ok(())
}

/// The token policy permits the route.
pub open spec fn route_permitted(route: RouteView, policy: TokenPolicyView) -> bool {
    some_encloses(policy.allowed_routes, route.cidr)
}

/// Whether the token policy permits a route.
pub fn route_allowed_by_policy(route: &Route, policy: &TokenPolicy) -> (r: bool)
    ensures
        r == route_permitted(route@, policy@),
{
    let mut i: usize = 0;
    while i < policy.allowed_routes.len()
        invariant
            i <= policy.allowed_routes@.len(),
            forall|k: int|
                0 <= k < i ==> !(#[trigger] policy.allowed_routes@[k]).encloses(route.cidr),
        decreases policy.allowed_routes@.len() - i,
    {
        if policy.allowed_routes[i].contains_net(&route.cidr) {
            return true;
        }
        i = i + 1;
    }
    false
}

/// The node itself advertises the route, and no other node is to be passed on the way.
pub open spec fn self_owned(node_id: Seq<char>, route: RouteView) -> bool {
    route.advertised_by == node_id && (route.via matches Some(via) ==> via == node_id)
}

/// Whether the node itself advertises a route.
pub fn route_is_self_owned(node_id: &NodeId, route: &Route) -> (r: bool)
    ensures
        r == self_owned(node_id@, route@),
{
    route.advertised_by == *node_id && match &route.via {
        Some(via) => *via == *node_id,
        None => true,
    }
}

/// Whether a node advertises one of its routes itself.
pub fn overlay_route_is_self_owned(node: &NodeRecord, route: &Route) -> (r: bool)
    ensures
        r == self_owned(node@.node_id, route@),
{
    route_is_self_owned(&node.node_id, route)
}

/// The canonical networks of those of the first `n` routes that the node owns.
pub open spec fn owned_networks(
    node_id: Seq<char>,
    routes: Seq<RouteView>,
    n: nat,
) -> Seq<Cidr>
    decreases n,
{
    if n == 0 {
        Seq::empty()
    } else {
        let before = owned_networks(node_id, routes, (n - 1) as nat);
        if self_owned(node_id, routes[n - 1]) {
            before.push(routes[n - 1].cidr.canonical())
        } else {
            before
        }
    }
}

/// The canonical networks that the first `n` nodes own, node by node.
pub open spec fn catalog_networks(nodes: Seq<NodeRecordView>, n: nat) -> Seq<Cidr>
    decreases n,
{
    if n == 0 {
        Seq::empty()
    } else {
        catalog_networks(nodes, (n - 1) as nat) + owned_networks(
            nodes[n - 1].node_id,
            nodes[n - 1].routes,
            nodes[n - 1].routes.len(),
        )
    }
}

/// All networks of the list are canonical.
pub open spec fn all_canonical(nets: Seq<Cidr>) -> bool {
    forall|i: int| 0 <= i < nets.len() ==> (#[trigger] nets[i]).canonical() == nets[i] && nets[i].wf()
}

fn push_owned_networks(nets: &mut Vec<Cidr>, node_id: &NodeId, routes: &Vec<Route>)
    requires
        all_canonical(old(nets)@),
    ensures
        final(nets)@ == old(nets)@ + owned_networks(node_id@, views(routes@), routes@.len()),
        all_canonical(final(nets)@),
{
    let ghost before = nets@;
    let ghost all = views(routes@);
    let mut i: usize = 0;
    while i < routes.len()
        invariant
            i <= routes@.len(),
            all == views(routes@),
            nets@ == before + owned_networks(node_id@, all, i as nat),
            all_canonical(nets@),
        decreases routes@.len() - i,
    {
        if route_is_self_owned(node_id, &routes[i]) {
            proof {
                crate::net::lemma_cidr_bounds(routes@[i as int].cidr);
            }
            nets.push(routes[i].cidr.trunc());
        }
        i = i + 1;
        assert(nets@ =~= before + owned_networks(node_id@, all, i as nat));
    }
}

/// A network that captures traffic for the overlay.
#[derive(Debug, Clone, Copy, PartialEq, Eq, Structural)]
pub struct AggregateOverlayRoute {
    pub cidr: Cidr,
}

/// The networks of a list of captured routes.
pub open spec fn captured(routes: Seq<AggregateOverlayRoute>) -> Seq<Cidr> {
    Seq::new(routes.len(), |i: int| routes[i].cidr)
}

/// The networks that all routes of the nodes together make up, in ascending order: no shorter list
/// covers the same addresses.
pub fn aggregate_overlay_routes(nodes: &Vec<NodeRecord>) -> (r: Vec<AggregateOverlayRoute>)
    ensures
        captured(r@) == ipnet_aggregate(catalog_networks(views(nodes@), nodes@.len())),
        cover_alike(captured(r@), catalog_networks(views(nodes@), nodes@.len())),
        tidy(captured(r@)),
        forall|others: Seq<Cidr>|
            #![trigger cover_alike(captured(r@), others)]
            cover_alike(captured(r@), others) ==> r@.len() <= others.len(),
{
    let ghost all = views(nodes@);
    let mut nets: Vec<Cidr> = Vec::new();
    let mut i: usize = 0;
    while i < nodes.len()
        invariant
            i <= nodes@.len(),
            all == views(nodes@),
            nets@ == catalog_networks(all, i as nat),
            all_canonical(nets@),
        decreases nodes@.len() - i,
    {
        push_owned_networks(&mut nets, &nodes[i].node_id, &nodes[i].routes);
        i = i + 1;
    }
    let merged = aggregate(&nets);
    let mut r: Vec<AggregateOverlayRoute> = Vec::new();
    let mut k: usize = 0;
    while k < merged.len()
        invariant
            k <= merged@.len(),
            r@.len() == k,
            forall|m: int| 0 <= m < k ==> (#[trigger] r@[m]).cidr == merged@[m],
        decreases merged@.len() - k,
    {
        r.push(AggregateOverlayRoute { cidr: merged[k] });
        k = k + 1;
    }
    proof {
        assert(captured(r@) =~= merged@);
        assert forall|others: Seq<Cidr>| #[trigger] cover_alike(captured(r@), others) implies r@.len()
            <= others.len() by {
            law_tidy_list_is_shortest(captured(r@), others);
        }
    }
    r
}

/// What the fields of a list hold, each under its name.
pub open spec fn fields_view(fields: Seq<(String, String)>) -> Seq<(Seq<char>, Seq<char>)> {
    Seq::new(fields.len(), |i: int| (fields[i].0@, fields[i].1@))
}

/// A route as it stands in the catalog: its fields in their order, each with its name. Identifier,
/// network and owner are texts; the gateway, the metric and the tags follow.
pub type CatalogRoute = (
    Vec<(String, String)>,
    (String, Option<String>),
    (String, u32),
    (String, Vec<String>),
);

/// A node as it stands in the catalog: identifier, VPN address, role, tags, key and routes.
pub type CatalogNode = (String, String, String, Vec<String>, String, Vec<CatalogRoute>);

/// What a [`CatalogRoute`] holds.
pub type CatalogRouteView = (
    Seq<(Seq<char>, Seq<char>)>,
    (Seq<char>, Option<Seq<char>>),
    (Seq<char>, u32),
    (Seq<char>, Seq<Seq<char>>),
);

/// What a [`CatalogNode`] holds.
pub type CatalogNodeView = (
    Seq<char>,
    Seq<char>,
    Seq<char>,
    Seq<Seq<char>>,
    Seq<char>,
    Seq<CatalogRouteView>,
);

/// What a [`CatalogRoute`] holds.
pub open spec fn catalog_route_view(route: CatalogRoute) -> CatalogRouteView {
    let (texts, (via_name, via), (metric_name, metric), (tags_name, tags)) = route;
    (
        fields_view(texts@),
        (via_name@, crate::types::opt_view(via)),
        (metric_name@, metric),
        (tags_name@, views(tags@)),
    )
}

/// What a [`CatalogNode`] holds.
pub open spec fn catalog_node_view(node: CatalogNode) -> CatalogNodeView {
    (
        node.0@,
        node.1@,
        node.2@,
        views(node.3@),
        node.4@,
        Seq::new(node.5@.len(), |i: int| catalog_route_view(node.5@[i])),
    )
}

/// What a catalog holds.
pub open spec fn catalog_view(nodes: Seq<CatalogNode>) -> Seq<CatalogNodeView> {
    Seq::new(nodes.len(), |i: int| catalog_node_view(nodes[i]))
}

/// What the catalog says of a route.
pub open spec fn route_material(route: RouteView) -> CatalogRouteView {
    (
        seq![
            ("id"@, route.id),
            ("cidr"@, route.cidr.display()),
            ("advertised_by"@, route.advertised_by),
        ],
        ("via"@, route.via),
        ("metric"@, route.metric),
        ("tags"@, sorted_names(route.tags)),
    )
}

/// What the catalog says of a node.
pub open spec fn node_material(node: NodeRecordView) -> CatalogNodeView {
    (
        node.node_id,
        node.vpn_ip.display(),
        node.role,
        sorted_names(node.tags),
        node.wireguard_public_key,
        Seq::new(node.routes.len(), |i: int| route_material(node.routes[i])),
    )
}

/// The sort key of a text.
pub open spec fn text_key(text: Seq<char>) -> KeyView {
    seq![KeyPartView::Bytes(encode_utf8(text))]
}

/// The sort keys of a list of nodes: their identifiers.
pub open spec fn node_id_keys(nodes: Seq<NodeRecordView>) -> Seq<KeyView> {
    Seq::new(nodes.len(), |i: int| text_key(nodes[i].node_id))
}

/// The positions of a list of nodes in the order of their identifiers.
pub open spec fn node_id_order(nodes: Seq<NodeRecordView>) -> Seq<int> {
    stable_order(node_id_keys(nodes), nodes.len())
}

/// What the catalog says of a list of nodes, in the order of their identifiers.
pub open spec fn catalog_material(nodes: Seq<NodeRecordView>) -> Seq<CatalogNodeView> {
    let ordered = pick(nodes, node_id_order(nodes));
    Seq::new(ordered.len(), |i: int| node_material(ordered[i]))
}

/// What serde_json writes for a catalog, with its nodes as lists and their routes as objects.
pub uninterp spec fn catalog_json(catalog: Seq<CatalogNodeView>) -> Seq<u8>;

/// Calls `serde_json::to_vec` on the nodes, each with its routes as a `serde_json::Map` of the named
/// fields, in their order, and the `Display` of its error. It fails only where a value refuses to be
/// encoded or a map has keys that are no texts; texts, numbers, lists, tuples, objects and what may
/// be absent never do, so there is no error. The bytes are a function of what the catalog holds;
/// which bytes they are, the contract does not say.
#[verifier::external_body]
fn catalog_to_json(catalog: &Vec<CatalogNode>) -> (r: Result<Vec<u8>, String>)
    ensures
        r is Ok,
        r->Ok_0@ == catalog_json(catalog_view(catalog@)),
{
    let nodes: Vec<_> = catalog.iter().map(|(id, ip, role, tags, key, routes)| {
        let routes: Vec<serde_json::Map<_, _>> = routes.iter().cloned().map(
            |(texts, via, metric, tags)| texts.into_iter().map(|(name, text)| (name, text.into()))
                .chain([(via.0, via.1.into()), (metric.0, metric.1.into()), (tags.0, tags.1.into())])
                .collect(),
        ).collect();
        (id, ip, role, tags, key, routes)
    }).collect();
    serde_json::to_vec(&nodes).map_err(|error| error.to_string())
}

fn route_entry(route: &Route) -> (r: CatalogRoute)
    ensures
        catalog_route_view(r) == route_material(route@),
{
    let via = match &route.via {
        Some(via) => Some(via.value.clone()),
        None => None,
    };
    let mut texts: Vec<(String, String)> = Vec::new();
    texts.push(("id".to_owned(), route.id.clone()));
    texts.push(("cidr".to_owned(), route.cidr.to_text()));
    texts.push(("advertised_by".to_owned(), route.advertised_by.value.clone()));
    assert(fields_view(texts@) =~= route_material(route@).0);
    (
        texts,
        ("via".to_owned(), via),
        ("metric".to_owned(), route.metric),
        ("tags".to_owned(), route.tags.sorted()),
    )
}

fn node_entry(node: &NodeRecord) -> (r: CatalogNode)
    ensures
        catalog_node_view(r) == node_material(node@),
{
    let mut routes: Vec<CatalogRoute> = Vec::new();
    let mut i: usize = 0;
    while i < node.routes.len()
        invariant
            i <= node.routes@.len(),
            routes@.len() == i,
            forall|k: int|
                0 <= k < i ==> catalog_route_view(#[trigger] routes@[k]) == route_material(
                    node.routes@[k]@,
                ),
        decreases node.routes@.len() - i,
    {
        routes.push(route_entry(&node.routes[i]));
        i = i + 1;
    }
    let r = (
        node.node_id.value.clone(),
        node.vpn_ip.to_text(),
        node.role.value.clone(),
        node.tags.sorted(),
        node.wireguard_public_key.clone(),
        routes,
    );
    assert(catalog_node_view(r).5 =~= node_material(node@).5);
    r
}

/// The sort key of a text.
pub fn text_sort_key(text: &str) -> (r: Vec<KeyPart>)
    ensures
        key_view(r@) == text_key(text@),
{
    let mut bytes: Vec<u8> = Vec::new();
    crate::digest::push_bytes(&mut bytes, text.as_bytes());
    let mut r: Vec<KeyPart> = Vec::new();
    assert(bytes@ =~= encode_utf8(text@));
    r.push(KeyPart::Bytes(bytes));
    assert(key_view(r@) =~= text_key(text@));
    r
}

/// The positions of a list of nodes in the order of their identifiers.
pub fn sort_by_node_id(nodes: &Vec<NodeRecord>) -> (r: Vec<usize>)
    ensures
        r@.map_values(|p: usize| p as int) == node_id_order(views(nodes@)),
        r@.len() == nodes@.len(),
        forall|i: int| 0 <= i < r@.len() ==> (#[trigger] r@[i]) < nodes@.len(),
{
    let mut keys: Vec<Vec<KeyPart>> = Vec::new();
    let mut i: usize = 0;
    while i < nodes.len()
        invariant
            i <= nodes@.len(),
            keys@.len() == i,
            forall|k: int|
                0 <= k < i ==> key_view((#[trigger] keys@[k])@) == text_key(nodes@[k]@.node_id),
        decreases nodes@.len() - i,
    {
        keys.push(text_sort_key(nodes[i].node_id.as_str()));
        i = i + 1;
    }
    assert(keys_view(keys@) =~= node_id_keys(views(nodes@)));
    sort_positions(&keys)
}

/// The domain of the epochs of the route catalog.
pub open spec fn catalog_domain() -> Seq<u8> {
    encode_utf8("HeteroNetwork overlay route catalog v1"@)
}

/// The epoch of the route catalog of a list of nodes.
pub open spec fn catalog_epoch(nodes: Seq<NodeRecordView>) -> u64 {
    epoch_of(catalog_domain(), catalog_json(catalog_material(nodes)))
}

/// The epoch of the route catalog of a list of nodes. It stands for the identifiers, VPN addresses,
/// roles, tags, keys and routes of the nodes, and for nothing else of them. Each node is written as
/// a JSON list and each of its routes as a JSON object, as [`node_material`] and [`route_material`]
/// have them: the number says something only where it is held against one that was made from the
/// same writing of routes, and not against one of a build that writes them otherwise.
pub fn overlay_route_catalog_epoch(nodes: &Vec<NodeRecord>) -> (r: Result<u64, ControlPlaneError>)
    ensures
        r matches Ok(epoch) && epoch == catalog_epoch(views(nodes@)),
{
    let ghost all = views(nodes@);
    let order = sort_by_node_id(nodes);
    let mut catalog: Vec<CatalogNode> = Vec::new();
    let mut i: usize = 0;
    while i < order.len()
        invariant
            i <= order@.len(),
            order@.len() == nodes@.len(),
            all == views(nodes@),
            order@.map_values(|p: usize| p as int) == node_id_order(all),
            forall|k: int| 0 <= k < order@.len() ==> (#[trigger] order@[k]) < nodes@.len(),
            catalog@.len() == i,
            forall|k: int|
                0 <= k < i ==> catalog_node_view(#[trigger] catalog@[k]) == node_material(
                    all[node_id_order(all)[k]],
                ),
        decreases order@.len() - i,
    {
        proof {
            assert(node_id_order(all)[i as int] == order@[i as int]);
        }
        catalog.push(node_entry(&nodes[order[i]]));
        i = i + 1;
    }
    proof {
        assert(node_id_order(all).len() == order@.len());
        assert(catalog_view(catalog@) =~= catalog_material(all));
    }
    match catalog_to_json(&catalog) {
        Ok(bytes) => Ok(
            overlay_epoch_digest(
                "HeteroNetwork overlay route catalog v1".as_bytes(),
                bytes.as_slice(),
            ),
        ),
        Err(reason) => Err(
            ControlPlaneError::Store {
                reason: "failed to encode overlay route catalog: ".to_owned().concat(
                    reason.as_str(),
                ),
            },
        ),
    }
}

/// The node is one of the cluster's, and no client.
pub open spec fn in_backbone(node: NodeRecordView, cluster_id: Seq<char>) -> bool {
    node.cluster_id == cluster_id && !crate::ids::role_is_client(node.role)
}

/// Those of the nodes that are the cluster's and no clients.
pub open spec fn backbone(nodes: Seq<NodeRecordView>, cluster_id: Seq<char>) -> Seq<NodeRecordView> {
    kept(nodes, |node: NodeRecordView| in_backbone(node, cluster_id), nodes.len())
}

/// Those of the nodes that are the cluster's and no clients.
pub fn backbone_nodes(nodes: &Vec<NodeRecord>, cluster_id: &ClusterId) -> (r: Vec<NodeRecord>)
    ensures
        views(r@) == backbone(views(nodes@), cluster_id@),
{
    let ghost all = views(nodes@);
    let ghost keep = |node: NodeRecordView| in_backbone(node, cluster_id@);
    let mut r: Vec<NodeRecord> = Vec::new();
    let mut i: usize = 0;
    assert(views(r@) =~= kept(all, keep, 0));
    while i < nodes.len()
        invariant
            i <= nodes@.len(),
            all == views(nodes@),
            keep == (|node: NodeRecordView| in_backbone(node, cluster_id@)),
            views(r@) == kept(all, keep, i as nat),
        decreases nodes@.len() - i,
    {
        broadcast use crate::types::lemma_views_push;

        assert(all[i as int] == nodes@[i as int]@);
        if nodes[i].cluster_id == *cluster_id && !nodes[i].role.is_client() {
            r.push(nodes[i].duplicate());
        }
        i = i + 1;
    }
    r
}

/// The canonical networks that the first `n` nodes other than `node_id` own, node by node.
pub open spec fn networks_of_others(
    nodes: Seq<NodeRecordView>,
    node_id: Seq<char>,
    n: nat,
) -> Seq<Cidr>
    decreases n,
{
    if n == 0 {
        Seq::empty()
    } else {
        let before = networks_of_others(nodes, node_id, (n - 1) as nat);
        if nodes[n - 1].node_id != node_id {
            before + owned_networks(
                nodes[n - 1].node_id,
                nodes[n - 1].routes,
                nodes[n - 1].routes.len(),
            )
        } else {
            before
        }
    }
}

/// The networks that nodes would own if the node advertised these routes.
pub open spec fn networks_with_update(
    nodes: Seq<NodeRecordView>,
    node_id: Seq<char>,
    routes: Seq<RouteView>,
) -> Seq<Cidr> {
    networks_of_others(nodes, node_id, nodes.len()) + owned_networks(node_id, routes, routes.len())
}

/// The networks that the overlay would have to capture if the node advertised these routes.
pub open spec fn networks_after_update(
    nodes: Seq<NodeRecordView>,
    node_id: Seq<char>,
    routes: Seq<RouteView>,
) -> Seq<Cidr> {
    ipnet_aggregate(networks_with_update(nodes, node_id, routes))
}

/// Why an update of a node's routes is not accepted, and the epoch of the catalog that was looked
/// at, where it was.
pub open spec fn route_update_outcome(
    node_id: Seq<char>,
    routes: Seq<RouteView>,
    scopes: Seq<Cidr>,
    vpn_pool: Cidr,
    cluster_id: Seq<char>,
    listed: Seq<NodeRecordView>,
) -> (Option<Seq<char>>, Option<u64>) {
    if first_pool_overlap(routes, vpn_pool, routes.len()) is Some {
        (first_pool_overlap(routes, vpn_pool, routes.len()), None)
    } else if scopes.len() > 0 || routes.len() == 0 {
        (None, None)
    } else {
        let nodes = backbone(listed, cluster_id);
        let count = networks_after_update(nodes, node_id, routes).len();
        let epoch = Some(catalog_epoch(nodes));
        if count > MAX_OVERLAY_ROUTE_SCOPES {
            (
                Some(
                    "advertised routes would require "@ + decimal(count)
                        + " aggregate capture scopes, exceeding the maximum "@ + decimal(
                        MAX_OVERLAY_ROUTE_SCOPES as nat,
                    ) + "; configure overlay_route_scopes before advertising fragmented routes"@,
                ),
                epoch,
            )
        } else {
            (None, epoch)
        }
    }
}

/// Checks an update of a node's routes against the VPN pool and, where the policy sets no scopes,
/// against the routes of the nodes that are listed. What is counted then is the shortest list of
/// networks that covers all of these routes.
pub fn overlay_route_catalog_update_validation(
    node_id: &NodeId,
    routes: &Vec<Route>,
    policy: &ClusterPolicy,
    vpn_pool: Cidr,
    cluster_id: &ClusterId,
    listed: &Vec<NodeRecord>,
) -> (r: Result<(Option<String>, Option<u64>), ControlPlaneError>)
    ensures
        r matches Ok((fault, epoch)) && (crate::types::opt_view(fault), epoch)
            == route_update_outcome(
            node_id@,
            views(routes@),
            policy@.overlay_route_scopes,
            vpn_pool,
            cluster_id@,
            views(listed@),
        ),
        r->Ok_0.1 is Some ==> {
            let nodes = backbone(views(listed@), cluster_id@);
            let counted = networks_after_update(nodes, node_id@, views(routes@));
            let needed = networks_with_update(nodes, node_id@, views(routes@));
            &&& cover_alike(counted, needed)
            &&& tidy(counted)
        },
{
    if let Err(reason) = validate_routes_against_vpn_pool(routes, vpn_pool) {
        return Ok((Some(reason), None));
    }
    if policy.overlay_route_scopes.len() > 0 || routes.len() == 0 {
        return Ok((None, None));
    }
    let nodes = backbone_nodes(listed, cluster_id);
    let ghost all = views(nodes@);
    let epoch = match overlay_route_catalog_epoch(&nodes) {
        Ok(epoch) => epoch,
        Err(e) => return Err(e),
    };
    let mut nets: Vec<Cidr> = Vec::new();
    let mut i: usize = 0;
    while i < nodes.len()
        invariant
            i <= nodes@.len(),
            all == views(nodes@),
            nets@ == networks_of_others(all, node_id@, i as nat),
            all_canonical(nets@),
        decreases nodes@.len() - i,
    {
        assert(all[i as int] == nodes@[i as int]@);
        if nodes[i].node_id != *node_id {
            push_owned_networks(&mut nets, &nodes[i].node_id, &nodes[i].routes);
        }
        i = i + 1;
    }
    push_owned_networks(&mut nets, node_id, routes);
    let merged = aggregate(&nets);
    if merged.len() > MAX_OVERLAY_ROUTE_SCOPES {
        let reason = "advertised routes would require ".to_owned().concat(
            decimal_text(merged.len() as u64).as_str(),
        ).concat(" aggregate capture scopes, exceeding the maximum ").concat(
            decimal_text(MAX_OVERLAY_ROUTE_SCOPES as u64).as_str(),
        ).concat("; configure overlay_route_scopes before advertising fragmented routes");
        return Ok((Some(reason), Some(epoch)));
    }
    Ok((None, Some(epoch)))
}

/// Two lists of nodes of which the catalog says the same have the same catalog epoch. In
/// particular candidates, health and capabilities do not count.
pub proof fn law_catalog_counts_its_material_only(
    nodes: Seq<NodeRecordView>,
    others: Seq<NodeRecordView>,
)
    requires
        nodes.len() == others.len(),
        forall|i: int|
            0 <= i < nodes.len() ==> node_material(#[trigger] nodes[i]) == node_material(others[i]),
    ensures
        catalog_epoch(nodes) == catalog_epoch(others),
{
    assert forall|i: int| 0 <= i < nodes.len() implies #[trigger] node_id_keys(nodes)[i]
        == node_id_keys(others)[i] by {
        assert(node_material(nodes[i]).0 == node_material(others[i]).0);
    }
    assert(node_id_keys(nodes) =~= node_id_keys(others));
    let order = node_id_order(nodes);
    crate::order::law_stable_order(node_id_keys(nodes), nodes.len());
    assert forall|i: int| 0 <= i < order.len() implies #[trigger] catalog_material(nodes)[i]
        == catalog_material(others)[i] by {
        assert(0 <= order[i] < nodes.len());
        assert(node_material(nodes[order[i]]) == node_material(others[order[i]]));
    }
    assert(catalog_material(nodes) =~= catalog_material(others));
}

/// What the catalog says of nodes, as they are listed.
pub open spec fn materials(nodes: Seq<NodeRecordView>) -> Seq<CatalogNodeView> {
    Seq::new(nodes.len(), |i: int| node_material(nodes[i]))
}

proof fn lemma_catalog_sorts_materials(nodes: Seq<NodeRecordView>)
    ensures
        catalog_material(nodes) == crate::order::sorted_by(
            materials(nodes),
            |entry: CatalogNodeView| text_key(entry.0),
        ),
{
    let key = |entry: CatalogNodeView| text_key(entry.0);
    let all = materials(nodes);
    assert(crate::order::keys_of(all, key) =~= node_id_keys(nodes));
    crate::order::law_stable_order(node_id_keys(nodes), nodes.len());
    assert forall|i: int| 0 <= i < catalog_material(nodes).len() implies #[trigger] catalog_material(
        nodes,
    )[i] == crate::order::sorted_by(all, key)[i] by {
        assert(0 <= node_id_order(nodes)[i] < nodes.len());
    }
    assert(catalog_material(nodes) =~= crate::order::sorted_by(all, key));
}

/// Two lists of nodes, each with identifiers of their own, have the same catalog epoch where the
/// catalog says the same of the nodes of the one and of those of the other, whatever the order in
/// which they are listed and whatever else is known of them.
pub proof fn law_catalog_forgets_the_order(
    nodes: Seq<NodeRecordView>,
    others: Seq<NodeRecordView>,
)
    requires
        forall|i: int, j: int|
            0 <= i < j < nodes.len() ==> (#[trigger] nodes[i]).node_id != (
            #[trigger] nodes[j]).node_id,
        forall|i: int, j: int|
            0 <= i < j < others.len() ==> (#[trigger] others[i]).node_id != (
            #[trigger] others[j]).node_id,
        forall|i: int|
            0 <= i < nodes.len() ==> materials(others).contains(
                node_material(#[trigger] nodes[i]),
            ),
        forall|i: int|
            0 <= i < others.len() ==> materials(nodes).contains(
                node_material(#[trigger] others[i]),
            ),
    ensures
        catalog_epoch(nodes) == catalog_epoch(others),
{
    let key = |entry: CatalogNodeView| text_key(entry.0);
    let a = materials(nodes);
    let b = materials(others);
    lemma_catalog_sorts_materials(nodes);
    lemma_catalog_sorts_materials(others);
    assert forall|i: int, j: int| 0 <= i < j < a.len() implies key(#[trigger] a[i]) != key(
        #[trigger] a[j],
    ) by {
        lemma_text_key_injective(nodes[i].node_id, nodes[j].node_id);
    }
    assert forall|i: int, j: int| 0 <= i < j < b.len() implies key(#[trigger] b[i]) != key(
        #[trigger] b[j],
    ) by {
        lemma_text_key_injective(others[i].node_id, others[j].node_id);
    }
    assert forall|entry: CatalogNodeView| a.contains(entry) <==> b.contains(entry) by {
        if a.contains(entry) {
            let i = choose|i: int| 0 <= i < a.len() && a[i] == entry;
            assert(b.contains(node_material(nodes[i])));
        }
        if b.contains(entry) {
            let i = choose|i: int| 0 <= i < b.len() && b[i] == entry;
            assert(a.contains(node_material(others[i])));
        }
    }
    crate::order::law_sorting_forgets_the_order(a, b, key);
}

proof fn lemma_text_key_injective(a: Seq<char>, b: Seq<char>)
    ensures
        text_key(a) == text_key(b) ==> a == b,
{
    if text_key(a) == text_key(b) {
        assert(text_key(a)[0] == text_key(b)[0]);
        encode_utf8_decode_utf8(a);
        encode_utf8_decode_utf8(b);
    }
}

/// Networks that nodes may not advertise are those with all addresses, and those that have an address
/// in common with one that is set aside.
pub proof fn law_restricted_networks(cidr: Cidr)
    ensures
        restricted_kind(cidr) is None <==> {
            &&& cidr.bits() != 0
            &&& cidr.is_v4() ==> !cidr.meets(Cidr::V4 { addr: 0, prefix: 8 }) && !cidr.meets(
                Cidr::V4 { addr: 0x7f00_0000, prefix: 8 },
            ) && !cidr.meets(Cidr::V4 { addr: 0xa9fe_0000, prefix: 16 }) && !cidr.meets(
                Cidr::V4 { addr: 0xe000_0000, prefix: 4 },
            ) && !cidr.meets(Cidr::V4 { addr: 0xffff_ffff, prefix: 32 })
            &&& !cidr.is_v4() ==> !cidr.meets(Cidr::V6 { addr: 0, prefix: 128 }) && !cidr.meets(
                Cidr::V6 { addr: 1, prefix: 128 },
            ) && !cidr.meets(
                Cidr::V6 { addr: 0xfe80_0000_0000_0000_0000_0000_0000_0000, prefix: 10 },
            ) && !cidr.meets(
                Cidr::V6 { addr: 0xff00_0000_0000_0000_0000_0000_0000_0000, prefix: 8 },
            )
        },
{
}

/// The shape of advertised routes is accepted exactly where there are not too many, each has a sound
/// identifier that no other has, a metric above zero, and a canonical network that is not restricted
/// and that no other has.
pub proof fn law_sound_routes(node_id: Seq<char>, routes: Seq<RouteView>)
    ensures
        routes_shape_fault(node_id, routes) is None <==> {
            &&& routes.len() <= MAX_OVERLAY_NODE_ROUTES
            &&& forall|i: int|
                0 <= i < routes.len() ==> (#[trigger] routes[i]).id.len() > 0 && byte_len(
                    routes[i].id,
                ) <= 128 && routes[i].id != "."@ && routes[i].id != ".."@ && identifier_text(
                    routes[i].id,
                    true,
                ) && routes[i].metric > 0 && restricted_kind(routes[i].cidr) is None
                    && routes[i].cidr.canonical() == routes[i].cidr
            &&& forall|i: int, j: int|
                0 <= j < i < routes.len() ==> (#[trigger] routes[j]).id != (
                #[trigger] routes[i]).id && routes[j].cidr != routes[i].cidr
        },
{
    let f = |i: int| route_fault(node_id, routes, i);
    crate::lists::lemma_first_in_none(routes.len(), f);
    if first_route_fault(node_id, routes, routes.len()) is None {
        assert forall|i: int| 0 <= i < routes.len() implies (#[trigger] routes[i]).id.len() > 0
            && byte_len(routes[i].id) <= 128 && routes[i].id != "."@ && routes[i].id != ".."@
            && identifier_text(routes[i].id, true) && routes[i].metric > 0 && restricted_kind(
            routes[i].cidr,
        ) is None && routes[i].cidr.canonical() == routes[i].cidr by {
            assert(f(i) is None);
        }
        assert forall|i: int, j: int| 0 <= j < i < routes.len() implies (
        #[trigger] routes[j]).id != (#[trigger] routes[i]).id && routes[j].cidr
            != routes[i].cidr by {
            assert(f(i) is None);
        }
    }
}

/// Routes are within the scopes exactly where there are none or where each route has all its
/// addresses in one of them, and they stay out of the pool exactly where none has an address of it.
/// A token permits a route exactly where one of its networks has all addresses of the route.
pub proof fn law_routes_keep_within_bounds(
    routes: Seq<RouteView>,
    scopes: Seq<Cidr>,
    vpn_pool: Cidr,
    route: RouteView,
    policy: TokenPolicyView,
)
    ensures
        scope_fault(routes, scopes) is None <==> scopes.len() == 0 || forall|i: int|
            0 <= i < routes.len() ==> exists|k: int|
                0 <= k < scopes.len() && crate::net::has_all_of(
                    #[trigger] scopes[k],
                    (#[trigger] routes[i]).cidr,
                ),
        first_pool_overlap(routes, vpn_pool, routes.len()) is None <==> forall|i: int|
            0 <= i < routes.len() ==> !(#[trigger] routes[i]).cidr.meets(vpn_pool),
        route_permitted(route, policy) <==> exists|k: int|
            0 <= k < policy.allowed_routes.len() && crate::net::has_all_of(
                #[trigger] policy.allowed_routes[k],
                route.cidr,
            ),
{
    let f = |i: int| unscoped_fault(routes[i], scopes);
    let g = |i: int| pool_overlap_fault(routes[i], vpn_pool);
    crate::lists::lemma_first_in_none(routes.len(), f);
    crate::lists::lemma_first_in_none(routes.len(), g);
    assert forall|nets: Seq<Cidr>, cidr: Cidr| #[trigger] some_encloses(nets, cidr) <==> exists|
        k: int,
    |
        0 <= k < nets.len() && crate::net::has_all_of(#[trigger] nets[k], cidr) by {
        if some_encloses(nets, cidr) {
            let k = choose|k: int| 0 <= k < nets.len() && (#[trigger] nets[k]).encloses(cidr);
            crate::net::law_enclosure_is_of_all_addresses(nets[k], cidr);
        }
        if exists|k: int| 0 <= k < nets.len() && crate::net::has_all_of(#[trigger] nets[k], cidr) {
            let k = choose|k: int|
                0 <= k < nets.len() && crate::net::has_all_of(#[trigger] nets[k], cidr);
            crate::net::law_enclosure_is_of_all_addresses(nets[k], cidr);
            assert(nets[k].encloses(cidr));
        }
    }
    if first_pool_overlap(routes, vpn_pool, routes.len()) is None {
        assert forall|i: int| 0 <= i < routes.len() implies !(#[trigger] routes[i]).cidr.meets(
            vpn_pool,
        ) by {
            assert(g(i) is None);
        }
    }
    if scopes.len() > 0 && scope_fault(routes, scopes) is None {
        assert forall|i: int| 0 <= i < routes.len() implies exists|k: int|
            0 <= k < scopes.len() && crate::net::has_all_of(
                #[trigger] scopes[k],
                (#[trigger] routes[i]).cidr,
            ) by {
            assert(f(i) is None);
            assert(some_encloses(scopes, routes[i].cidr));
        }
    }
    if scopes.len() > 0 && forall|i: int|
        0 <= i < routes.len() ==> exists|k: int|
            0 <= k < scopes.len() && crate::net::has_all_of(
                #[trigger] scopes[k],
                (#[trigger] routes[i]).cidr,
            ) {
        assert forall|i: int| 0 <= i < routes.len() implies (#[trigger] f(i)) is None by {
            assert(routes[i].cidr == routes[i].cidr);
            assert(some_encloses(scopes, routes[i].cidr));
        }
    }
}

/// A network is that of a route that a node advertises as its own and that goes over no other.
pub open spec fn advertises_network(node_id: Seq<char>, routes: Seq<RouteView>, cidr: Cidr) -> bool {
    exists|i: int|
        0 <= i < routes.len() && (#[trigger] routes[i]).advertised_by == node_id && (routes[i].via
            is None || routes[i].via == Some(node_id)) && routes[i].cidr.canonical() == cidr
}

proof fn lemma_owned(node_id: Seq<char>, routes: Seq<RouteView>, n: nat, cidr: Cidr)
    requires
        n <= routes.len(),
    ensures
        owned_networks(node_id, routes, n).contains(cidr) <==> exists|i: int|
            0 <= i < n && (#[trigger] routes[i]).advertised_by == node_id && (routes[i].via is None
                || routes[i].via == Some(node_id)) && routes[i].cidr.canonical() == cidr,
    decreases n,
{
    if n > 0 {
        lemma_owned(node_id, routes, (n - 1) as nat, cidr);
        let before = owned_networks(node_id, routes, (n - 1) as nat);
        let all = owned_networks(node_id, routes, n);
        if all.contains(cidr) {
            let k = choose|k: int| 0 <= k < all.len() && all[k] == cidr;
            if k < before.len() {
                assert(before[k] == cidr);
                assert(before.contains(cidr));
                let i = choose|i: int|
                    0 <= i < n - 1 && (#[trigger] routes[i]).advertised_by == node_id && (
                    routes[i].via is None || routes[i].via == Some(node_id))
                        && routes[i].cidr.canonical() == cidr;
                assert(routes[i].advertised_by == node_id);
            } else {
                assert(routes[n - 1].advertised_by == node_id);
            }
        }
        if exists|i: int|
            0 <= i < n && (#[trigger] routes[i]).advertised_by == node_id && (routes[i].via is None
                || routes[i].via == Some(node_id)) && routes[i].cidr.canonical() == cidr {
            let i = choose|i: int|
                0 <= i < n && (#[trigger] routes[i]).advertised_by == node_id && (routes[i].via
                    is None || routes[i].via == Some(node_id)) && routes[i].cidr.canonical()
                    == cidr;
            if i < n - 1 {
                assert(routes[i].advertised_by == node_id);
                assert(before.contains(cidr));
                let k = choose|k: int| 0 <= k < before.len() && before[k] == cidr;
                assert(all[k] == cidr);
            } else {
                assert(all[before.len() as int] == cidr);
            }
        }
    }
}

proof fn lemma_networks_of_others(
    nodes: Seq<NodeRecordView>,
    node_id: Seq<char>,
    n: nat,
    cidr: Cidr,
)
    requires
        n <= nodes.len(),
    ensures
        networks_of_others(nodes, node_id, n).contains(cidr) <==> exists|i: int|
            0 <= i < n && (#[trigger] nodes[i]).node_id != node_id && advertises_network(
                nodes[i].node_id,
                nodes[i].routes,
                cidr,
            ),
        catalog_networks(nodes, n).contains(cidr) <==> exists|i: int|
            0 <= i < n && advertises_network(
                (#[trigger] nodes[i]).node_id,
                nodes[i].routes,
                cidr,
            ),
    decreases n,
{
    if n > 0 {
        let m = (n - 1) as nat;
        lemma_networks_of_others(nodes, node_id, m, cidr);
        let last = nodes[n - 1];
        let own = owned_networks(last.node_id, last.routes, last.routes.len());
        lemma_owned(last.node_id, last.routes, last.routes.len(), cidr);
        assert(own.contains(cidr) == advertises_network(last.node_id, last.routes, cidr));
        lemma_either(networks_of_others(nodes, node_id, m), own, cidr);
        lemma_either(catalog_networks(nodes, m), own, cidr);
        if networks_of_others(nodes, node_id, m).contains(cidr) {
            let i = choose|i: int|
                0 <= i < m && (#[trigger] nodes[i]).node_id != node_id && advertises_network(
                    nodes[i].node_id,
                    nodes[i].routes,
                    cidr,
                );
            assert(nodes[i].node_id != node_id);
        }
        if catalog_networks(nodes, m).contains(cidr) {
            let i = choose|i: int|
                0 <= i < m && advertises_network(
                    (#[trigger] nodes[i]).node_id,
                    nodes[i].routes,
                    cidr,
                );
            assert(advertises_network(nodes[i].node_id, nodes[i].routes, cidr));
        }
        if advertises_network(last.node_id, last.routes, cidr) {
            assert(advertises_network(nodes[n - 1].node_id, nodes[n - 1].routes, cidr));
        }
        if exists|i: int|
            0 <= i < n && (#[trigger] nodes[i]).node_id != node_id && advertises_network(
                nodes[i].node_id,
                nodes[i].routes,
                cidr,
            ) {
            let i = choose|i: int|
                0 <= i < n && (#[trigger] nodes[i]).node_id != node_id && advertises_network(
                    nodes[i].node_id,
                    nodes[i].routes,
                    cidr,
                );
            if i < m {
                assert(nodes[i].node_id != node_id);
            }
        }
        if exists|i: int|
            0 <= i < n && advertises_network(
                (#[trigger] nodes[i]).node_id,
                nodes[i].routes,
                cidr,
            ) {
            let i = choose|i: int|
                0 <= i < n && advertises_network(
                    (#[trigger] nodes[i]).node_id,
                    nodes[i].routes,
                    cidr,
                );
            if i < m {
                assert(advertises_network(nodes[i].node_id, nodes[i].routes, cidr));
            }
        }
    }
}

proof fn lemma_either(a: Seq<Cidr>, b: Seq<Cidr>, cidr: Cidr)
    ensures
        (a + b).contains(cidr) <==> a.contains(cidr) || b.contains(cidr),
{
    if a.contains(cidr) {
        let k = choose|k: int| 0 <= k < a.len() && a[k] == cidr;
        assert((a + b)[k] == cidr);
    }
    if b.contains(cidr) {
        let k = choose|k: int| 0 <= k < b.len() && b[k] == cidr;
        assert((a + b)[a.len() + k] == cidr);
    }
}

/// The networks of the overlay are those that its nodes advertise as their own; after an update they
/// are those of the other nodes and those that the node now advertises.
pub proof fn law_catalog_is_of_advertised_networks(
    nodes: Seq<NodeRecordView>,
    node_id: Seq<char>,
    routes: Seq<RouteView>,
    cidr: Cidr,
)
    ensures
        catalog_networks(nodes, nodes.len()).contains(cidr) <==> exists|i: int|
            0 <= i < nodes.len() && advertises_network(
                (#[trigger] nodes[i]).node_id,
                nodes[i].routes,
                cidr,
            ),
        networks_with_update(nodes, node_id, routes).contains(cidr) <==> advertises_network(
            node_id,
            routes,
            cidr,
        ) || exists|i: int|
            0 <= i < nodes.len() && (#[trigger] nodes[i]).node_id != node_id && advertises_network(
                nodes[i].node_id,
                nodes[i].routes,
                cidr,
            ),
{
    lemma_networks_of_others(nodes, node_id, nodes.len(), cidr);
    lemma_owned(node_id, routes, routes.len(), cidr);
    lemma_either(
        networks_of_others(nodes, node_id, nodes.len()),
        owned_networks(node_id, routes, routes.len()),
        cidr,
    );
}

/// The backbone is of the nodes of the cluster that are no clients.
pub proof fn law_backbone_is_of_the_nodes(
    nodes: Seq<NodeRecordView>,
    cluster_id: Seq<char>,
    node: NodeRecordView,
)
    ensures
        backbone(nodes, cluster_id).contains(node) <==> nodes.contains(node) && node.cluster_id
            == cluster_id && node.role != "client"@,
{
    let keep = |node: NodeRecordView| in_backbone(node, cluster_id);
    crate::lists::lemma_kept_members(nodes, keep);
    assert(backbone(nodes, cluster_id).contains(node) <==> nodes.contains(node) && keep(node));
}

/// An update of routes is accepted exactly where they stay out of the pool and, where no scopes are
/// set and there are routes, the networks of the overlay can still be captured by few scopes. The
/// state of the catalog is given exactly where it was looked at.
pub proof fn law_route_updates_stay_capturable(
    node_id: Seq<char>,
    routes: Seq<RouteView>,
    scopes: Seq<Cidr>,
    vpn_pool: Cidr,
    cluster_id: Seq<char>,
    listed: Seq<NodeRecordView>,
)
    ensures
        ({
            let outcome = route_update_outcome(
                node_id,
                routes,
                scopes,
                vpn_pool,
                cluster_id,
                listed,
            );
            let inside = forall|i: int|
                0 <= i < routes.len() ==> !(#[trigger] routes[i]).cidr.meets(vpn_pool);
            let looked = inside && scopes.len() == 0 && routes.len() > 0;
            &&& outcome.0 is None <==> inside && (looked ==> ipnet_aggregate(
                networks_with_update(backbone(listed, cluster_id), node_id, routes),
            ).len() <= 64)
            &&& outcome.1 == if looked {
                Some(catalog_epoch(backbone(listed, cluster_id)))
            } else {
                None
            }
        }),
{
    let f = |i: int| pool_overlap_fault(routes[i], vpn_pool);
    crate::lists::lemma_first_in_none(routes.len(), f);
    if first_pool_overlap(routes, vpn_pool, routes.len()) is None {
        assert forall|i: int| 0 <= i < routes.len() implies !(#[trigger] routes[i]).cidr.meets(
            vpn_pool,
        ) by {
            assert(f(i) is None);
        }
    }
}

/// What counts of a node for the catalog tells nodes apart: two that count alike have the same
/// identifier, role, key and tags, and the same routes, each with the same identifier, the same way
/// and the same metric.
pub proof fn law_node_material_tells_nodes_apart(a: NodeRecordView, b: NodeRecordView)
    requires
        a.tags.finite() && b.tags.finite(),
        node_material(a) == node_material(b),
    ensures
        a.node_id == b.node_id,
        a.vpn_ip.display() == b.vpn_ip.display(),
        a.role == b.role,
        a.tags == b.tags,
        a.wireguard_public_key == b.wireguard_public_key,
        a.routes.len() == b.routes.len(),
        forall|i: int|
            0 <= i < a.routes.len() ==> (#[trigger] a.routes[i]).id == b.routes[i].id
                && a.routes[i].cidr.display() == b.routes[i].cidr.display()
                && a.routes[i].advertised_by == b.routes[i].advertised_by && a.routes[i].via
                == b.routes[i].via && a.routes[i].metric == b.routes[i].metric,
{
    crate::ids::lemma_sorted_names_members(a.tags);
    crate::ids::lemma_sorted_names_members(b.tags);
    assert forall|n: Seq<char>| a.tags.contains(n) <==> b.tags.contains(n) by {
        assert(sorted_names(a.tags).contains(n) <==> a.tags.contains(n));
    }
    assert(a.tags =~= b.tags);
    let s = node_material(a).5;
    let t = node_material(b).5;
    assert(s.len() == a.routes.len() && t.len() == b.routes.len());
    assert forall|i: int| 0 <= i < a.routes.len() implies (#[trigger] a.routes[i]).id
        == b.routes[i].id && a.routes[i].cidr.display() == b.routes[i].cidr.display()
        && a.routes[i].advertised_by == b.routes[i].advertised_by && a.routes[i].via
        == b.routes[i].via && a.routes[i].metric == b.routes[i].metric by {
        assert(s[i] == t[i]);
        assert(route_material(a.routes[i]) == route_material(b.routes[i]));
        assert(s[i].0[0] == t[i].0[0] && s[i].0[1] == t[i].0[1] && s[i].0[2] == t[i].0[2]);
    }
}

} // verus!
