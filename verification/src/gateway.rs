//! Clients and their gateways: which nodes serve clients, and what each side is shown.

use vstd::prelude::*;
use vstd::utf8::*;

use crate::acl::{acl_filter_peer, visible_peer};
use crate::error::{refusal, ControlPlaneError, ControlPlaneErrorView};
use crate::ids::{role_is_client, NodeId};
use crate::lists::{
    first_in, gathered, kept, lemma_first_in_extends, lemma_first_in_found, lemma_first_in_none,
    lemma_gathered_members, lemma_kept, lemma_kept_members,
};
use crate::map::{held, OrderedMap};
use crate::net::{Cidr, IpAddr};
use crate::nodes::{endpoint_candidate_is_fresh, entry_of, find_entry};
use crate::order::{
    key_lt, key_precedes, key_view, keys_of, keys_view, lemma_sorted_by, sort_records, sorted_by,
    KeyPart, KeyPartView, KeyView,
};
use crate::route_table::{
    build_table, by_network, host_network, insert_preferred_gateway_route,
    insert_preferred_routes, law_better_route_is_preferred,
    law_listing_by_network_keeps_the_routes, law_preferred_routes_are_collected,
    law_table_has_one_route_per_network, law_table_is_of_its_routes, lemma_serves_carries,
    list_by_network, one_per_network, serves_as_well, table_of, vpn_host_cidr,
    with_preferred_route, with_preferred_routes,
};
use crate::routes::{text_key, text_sort_key};
use crate::store::at_most;
use crate::text::text_same;
use crate::time::{fresh, timestamp_is_fresh, Timestamp};
use crate::types::{
    lemma_views_push, ref_view, views, ClientGatewaySelection, ClientGatewaySelectionView,
    ClusterPolicy, ClusterPolicyView, EndpointCandidate, EndpointCandidateKind,
    EndpointCandidateView, HealthState, NodeHealth, NodeHealthView, NodeRecord, NodeRecordView,
    Record, Route, RouteView,
};

verus! {

/// How many gateways a client is offered at most.
pub const MAX_CLIENT_GATEWAYS: usize = 4;

/// The metric of the route to a single host behind a gateway.
pub const GATEWAY_HOST_ROUTE_METRIC: u32 = 10;

/// A node in this state of health may serve clients.
pub open spec fn health_lets_serve(
    health: Option<NodeHealthView>,
    now: Timestamp,
    policy: ClusterPolicyView,
) -> bool {
    match health {
        None => true,
        Some(health) => health.state == HealthState::Healthy && fresh(
            health.last_seen_at,
            now,
            policy.relay_health_ttl_seconds,
        ),
    }
}

/// Whether a node in this state of health may serve clients. One that did not report yet may.
pub fn client_gateway_health_allows(
    health: Option<&NodeHealth>,
    now: Timestamp,
    policy: &ClusterPolicy,
) -> (r: bool)
    ensures
        r == health_lets_serve(ref_view(health), now, policy@),
{
    match health {
        None => true,
        Some(health) => health.state == HealthState::Healthy && timestamp_is_fresh(
            health.last_seen_at,
            now,
            policy.relay_health_ttl_seconds,
        ),
    }
}

/// A node is part of the overlay: it is not unhealthy, and was heard of recently.
pub open spec fn part_of_overlay(
    node: NodeRecordView,
    health: Option<NodeHealthView>,
    now: Timestamp,
    ttl_seconds: u64,
) -> bool {
    match health {
        Some(health) => health.state != HealthState::Unhealthy && fresh(
            health.last_seen_at,
            now,
            ttl_seconds,
        ),
        None => fresh(node.registered_at, now, ttl_seconds),
    }
}

/// Whether a node is part of the overlay: it is not unhealthy, and was heard of recently.
pub fn overlay_node_health_allows(
    node: &NodeRecord,
    health: Option<&NodeHealth>,
    now: Timestamp,
    ttl_seconds: u64,
) -> (r: bool)
    ensures
        r == part_of_overlay(node@, ref_view(health), now, ttl_seconds),
{
    match health {
        Some(health) => health.state != HealthState::Unhealthy && timestamp_is_fresh(
            health.last_seen_at,
            now,
            ttl_seconds,
        ),
        None => timestamp_is_fresh(node.registered_at, now, ttl_seconds),
    }
}

/// The kind of candidate that clients can use, by preference.
pub open spec fn client_rank(kind: EndpointCandidateKind, allow_ipv6_direct: bool) -> Option<int> {
    match kind {
        EndpointCandidateKind::Ipv6 => if allow_ipv6_direct {
            Some(0)
        } else {
            None
        },
        EndpointCandidateKind::PublicUdp => Some(1),
        _ => None,
    }
}

/// Clients can reach the node at the candidate.
pub open spec fn client_candidate(
    candidate: EndpointCandidateView,
    node_id: Seq<char>,
    now: Timestamp,
    policy: ClusterPolicyView,
) -> bool {
    &&& client_rank(candidate.kind, policy.allow_ipv6_direct) is Some
    &&& candidate.node_id == node_id
    &&& candidate.kind_fault is None
    &&& candidate.endpoint.globally_routable
    &&& fresh(candidate.observed_at, now, policy.endpoint_candidate_ttl_seconds)
}

/// How good a candidate is for clients: kind, cost, priority, address. The least is the best.
pub open spec fn candidate_score(candidate: EndpointCandidateView, allow_ipv6_direct: bool) -> KeyView {
    seq![
        KeyPartView::Number(client_rank(candidate.kind, allow_ipv6_direct)->0),
        KeyPartView::Number(candidate.cost as int),
        KeyPartView::Number(0xffff - candidate.priority),
        KeyPartView::Bytes(encode_utf8(candidate.endpoint.addr.display())),
    ]
}

/// The best score of the first `n` candidates that clients can reach the node at.
pub open spec fn best_score(
    node: NodeRecordView,
    now: Timestamp,
    policy: ClusterPolicyView,
    n: nat,
) -> Option<KeyView>
    decreases n,
{
    if n == 0 {
        None
    } else {
        let before = best_score(node, now, policy, (n - 1) as nat);
        let candidate = node.endpoint_candidates[n - 1];
        let score = candidate_score(candidate, policy.allow_ipv6_direct);
        if client_candidate(candidate, node.node_id, now, policy) && candidate.endpoint.usable && (
        before is None || key_lt(score, before->0)) {
            Some(score)
        } else {
            before
        }
    }
}

/// The key by which gateways are preferred: dedicated ones, then by the best score of their
/// candidates, then by identifier.
pub open spec fn gateway_key(node: NodeRecordView, now: Timestamp, policy: ClusterPolicyView) -> KeyView {
    seq![
        KeyPartView::Number(
            if node.role == "gateway"@ {
                0
            } else {
                1
            },
        ),
    ] + best_score(node, now, policy, node.endpoint_candidates.len())->0 + text_key(node.node_id)
}

/// The node can serve clients.
pub open spec fn can_serve(
    node: NodeRecordView,
    health: Map<Seq<Seq<char>>, NodeHealthView>,
    now: Timestamp,
    policy: ClusterPolicyView,
) -> bool {
    &&& !role_is_client(node.role)
    &&& health_lets_serve(entry_of(health, node.node_id), now, policy)
    &&& best_score(node, now, policy, node.endpoint_candidates.len()) is Some
}

/// The gateways that clients are offered: the preferred ones of the nodes that can serve them.
pub open spec fn offered_gateways(
    nodes: Seq<NodeRecordView>,
    health: Map<Seq<Seq<char>>, NodeHealthView>,
    now: Timestamp,
    policy: ClusterPolicyView,
) -> Seq<NodeRecordView> {
    at_most(
        sorted_by(
            kept(
                nodes,
                |node: NodeRecordView| can_serve(node, health, now, policy),
                nodes.len(),
            ),
            |node: NodeRecordView| gateway_key(node, now, policy),
        ),
        MAX_CLIENT_GATEWAYS as nat,
    )
}

fn is_client_candidate(
    candidate: &EndpointCandidate,
    node_id: &NodeId,
    now: Timestamp,
    policy: &ClusterPolicy,
) -> (r: bool)
    ensures
        r == client_candidate(candidate@, node_id@, now, policy@),
{
    let kind_fits = match candidate.kind {
        EndpointCandidateKind::Ipv6 => policy.allow_ipv6_direct,
        EndpointCandidateKind::PublicUdp => true,
        _ => false,
    };
    kind_fits && candidate.node_id == *node_id && candidate.kind_fault.is_none()
        && candidate.endpoint.globally_routable && endpoint_candidate_is_fresh(
        candidate,
        now,
        policy.endpoint_candidate_ttl_seconds,
    )
}

fn score_of(candidate: &EndpointCandidate, allow_ipv6_direct: bool) -> (r: Vec<KeyPart>)
    requires
        client_rank(candidate@.kind, allow_ipv6_direct) is Some,
    ensures
        key_view(r@) == candidate_score(candidate@, allow_ipv6_direct),
{
    let mut address: Vec<u8> = Vec::new();
    let text = candidate.endpoint.addr.to_text();
    crate::digest::push_bytes(&mut address, text.as_str().as_bytes());
    assert(address@ =~= encode_utf8(candidate@.endpoint.addr.display()));
    let rank: i128 = match candidate.kind {
        EndpointCandidateKind::Ipv6 => 0,
        _ => 1,
    };
    let mut r: Vec<KeyPart> = Vec::new();
    r.push(KeyPart::Number(rank));
    r.push(KeyPart::Number(candidate.cost as i128));
    r.push(KeyPart::Number(0xffff - candidate.priority as i128));
    r.push(KeyPart::Bytes(address));
    assert(key_view(r@) =~= candidate_score(candidate@, allow_ipv6_direct));
    r
}

/// The best score of the candidates that clients can reach a node at.
pub fn client_gateway_candidate_score(node: &NodeRecord, now: Timestamp, policy: &ClusterPolicy) -> (r:
    Option<Vec<KeyPart>>)
    ensures
        match r {
            Some(score) => best_score(node@, now, policy@, node@.endpoint_candidates.len()) == Some(
                key_view(score@),
            ),
            None => best_score(node@, now, policy@, node@.endpoint_candidates.len()) is None,
        },
{
    let ghost all = views(node.endpoint_candidates@);
    let mut best: Option<Vec<KeyPart>> = None;
    let mut i: usize = 0;
    while i < node.endpoint_candidates.len()
        invariant
            i <= node.endpoint_candidates@.len(),
            all == views(node.endpoint_candidates@),
            all == node@.endpoint_candidates,
            match best {
                Some(score) => best_score(node@, now, policy@, i as nat) == Some(key_view(score@)),
                None => best_score(node@, now, policy@, i as nat) is None,
            },
        decreases node.endpoint_candidates@.len() - i,
    {
        let candidate = &node.endpoint_candidates[i];
        assert(all[i as int] == candidate@);
        if is_client_candidate(candidate, &node.node_id, now, policy) && candidate.endpoint.usable {
            let score = score_of(candidate, policy.allow_ipv6_direct);
            let better = match &best {
                Some(current) => key_precedes(&score, current),
                None => true,
            };
            if better {
                best = Some(score);
            }
        }
        i = i + 1;
    }
    best
}

fn gateway_sort_key(node: &NodeRecord, score: Vec<KeyPart>, Ghost(key): Ghost<KeyView>) -> (r: Vec<
    KeyPart,
>)
    requires
        key == seq![
            KeyPartView::Number(
                if node@.role == "gateway"@ {
                    0
                } else {
                    1
                },
            ),
        ] + key_view(score@) + text_key(node@.node_id),
    ensures
        key_view(r@) == key,
{
    let ghost parts = score@;
    let mut r: Vec<KeyPart> = Vec::new();
    r.push(
        KeyPart::Number(
            if text_same(node.role.as_str(), "gateway") {
                0
            } else {
                1
            },
        ),
    );
    let mut score = score;
    r.append(&mut score);
    let mut id = text_sort_key(node.node_id.as_str());
    r.append(&mut id);
    assert(key_view(r@) =~= key);
    r
}

/// The gateways that clients are offered: the preferred ones of the nodes that can serve them.
pub fn select_client_gateways(
    nodes: &Vec<NodeRecord>,
    health_by_node: &OrderedMap<NodeId, NodeHealth>,
    now: Timestamp,
    policy: &ClusterPolicy,
) -> (r: Vec<NodeRecord>)
    requires
        health_by_node.wf(),
    ensures
        views(r@) == offered_gateways(views(nodes@), held(health_by_node@), now, policy@),
        r@.len() <= MAX_CLIENT_GATEWAYS,
{
    let ghost all = views(nodes@);
    let ghost keep = |node: NodeRecordView| can_serve(node, held(health_by_node@), now, policy@);
    let ghost key = |node: NodeRecordView| gateway_key(node, now, policy@);
    let mut able: Vec<NodeRecord> = Vec::new();
    let mut keys: Vec<Vec<KeyPart>> = Vec::new();
    let mut i: usize = 0;
    while i < nodes.len()
        invariant
            health_by_node.wf(),
            i <= nodes@.len(),
            all == views(nodes@),
            keep == (|node: NodeRecordView| can_serve(node, held(health_by_node@), now, policy@)),
            views(able@) == kept(all, keep, i as nat),
            keys@.len() == able@.len(),
            forall|k: int|
                0 <= k < able@.len() ==> key_view((#[trigger] keys@[k])@) == gateway_key(
                    able@[k]@,
                    now,
                    policy@,
                ),
        decreases nodes@.len() - i,
    {
        broadcast use lemma_views_push;

        let node = &nodes[i];
        assert(all[i as int] == node@);
        if !node.role.is_client() && client_gateway_health_allows(
            find_entry(health_by_node, &node.node_id),
            now,
            policy,
        ) {
            if let Some(score) = client_gateway_candidate_score(node, now, policy) {
                keys.push(gateway_sort_key(node, score, Ghost(gateway_key(node@, now, policy@))));
                able.push(node.duplicate());
            }
        }
        i = i + 1;
    }
    assert(keys_view(keys@) =~= keys_of(views(able@), key));
    let mut gateways = sort_records(&able, &keys);
    let ghost ranked = views(gateways@);
    if gateways.len() > MAX_CLIENT_GATEWAYS {
        gateways.truncate(MAX_CLIENT_GATEWAYS);
        assert(views(gateways@) =~= ranked.take(MAX_CLIENT_GATEWAYS as int));
    }
    gateways
}

/// The gateway that serves a client, where there is one.
pub fn require_client_gateway(
    nodes: &Vec<NodeRecord>,
    health_by_node: &OrderedMap<NodeId, NodeHealth>,
    now: Timestamp,
    policy: &ClusterPolicy,
) -> (r: Result<NodeRecord, ControlPlaneError>)
    requires
        health_by_node.wf(),
    ensures
        ({
            let gateways = offered_gateways(views(nodes@), held(health_by_node@), now, policy@);
            &&& refusal(r) == (if gateways.len() == 0 {
                Some(
                    ControlPlaneErrorView::Store {
                        reason: "no reachable client gateway is registered"@,
                    },
                )
            } else {
                None
            })
            &&& r matches Ok(gateway) ==> gateway@ == gateways[0]
        }),
{
    let gateways = select_client_gateways(nodes, health_by_node, now, policy);
    if gateways.len() == 0 {
        return Err(
            ControlPlaneError::Store {
                reason: "no reachable client gateway is registered".to_owned(),
            },
        );
    }
    assert(views(gateways@)[0] == gateways@[0]@);
    Ok(gateways[0].duplicate())
}

/// The gateway as clients are shown it: only with candidates that they can use, and no relay.
pub open spec fn gateway_for_clients(
    node: NodeRecordView,
    now: Timestamp,
    policy: ClusterPolicyView,
) -> NodeRecordView {
    NodeRecordView {
        endpoint_candidates: kept(
            node.endpoint_candidates,
            |candidate: EndpointCandidateView|
                client_candidate(candidate, node.node_id, now, policy),
            node.endpoint_candidates.len(),
        ),
        relay_capability: None,
        ..node
    }
}

/// The gateway as clients are shown it: only with candidates that they can use, and no relay.
pub fn filter_client_gateway_endpoint_candidates(
    node: NodeRecord,
    now: Timestamp,
    policy: &ClusterPolicy,
) -> (r: NodeRecord)
    ensures
        r@ == gateway_for_clients(node@, now, policy@),
{
    let ghost all = views(node.endpoint_candidates@);
    let ghost keep = |candidate: EndpointCandidateView|
        client_candidate(candidate, node@.node_id, now, policy@);
    let mut candidates: Vec<EndpointCandidate> = Vec::new();
    let mut i: usize = 0;
    while i < node.endpoint_candidates.len()
        invariant
            i <= node.endpoint_candidates@.len(),
            all == views(node.endpoint_candidates@),
            keep == (|candidate: EndpointCandidateView|
                client_candidate(candidate, node@.node_id, now, policy@)),
            views(candidates@) == kept(all, keep, i as nat),
        decreases node.endpoint_candidates@.len() - i,
    {
        broadcast use lemma_views_push;

        let candidate = &node.endpoint_candidates[i];
        assert(all[i as int] == candidate@);
        if is_client_candidate(candidate, &node.node_id, now, policy) {
            candidates.push(candidate.duplicate());
        }
        i = i + 1;
    }
    let mut shown = node;
    shown.endpoint_candidates = candidates;
    shown.relay_capability = None;
    shown
}

/// The route through a gateway to a node behind it.
pub open spec fn host_route(gateway_id: Seq<char>, target: NodeRecordView) -> RouteView {
    RouteView {
        id: "client-via-"@ + target.node_id,
        cidr: host_network(target.vpn_ip),
        advertised_by: gateway_id,
        via: Some(gateway_id),
        metric: GATEWAY_HOST_ROUTE_METRIC,
        tags: target.tags,
    }
}

/// The route through a gateway to a client that it serves.
pub open spec fn client_route(gateway_id: Seq<char>, client: NodeRecordView) -> RouteView {
    RouteView {
        id: "client-"@ + client.node_id,
        cidr: host_network(client.vpn_ip),
        advertised_by: gateway_id,
        via: Some(gateway_id),
        metric: GATEWAY_HOST_ROUTE_METRIC,
        tags: client.tags,
    }
}

/// The route through a gateway to a network behind another node.
pub open spec fn forwarded_route(
    gateway_id: Seq<char>,
    node_id: Seq<char>,
    route: RouteView,
) -> RouteView {
    RouteView {
        id: "client-via-"@ + node_id + "-"@ + route.id,
        cidr: route.cidr,
        advertised_by: gateway_id,
        via: Some(gateway_id),
        metric: route.metric,
        tags: route.tags,
    }
}

/// The routes through a gateway to the networks behind another node.
pub open spec fn forwarded_routes(gateway_id: Seq<char>, node: NodeRecordView) -> Seq<RouteView> {
    Seq::new(node.routes.len(), |i: int| forwarded_route(gateway_id, node.node_id, node.routes[i]))
}

/// A table with the routes through a gateway to the first `n` nodes and the networks behind them.
pub open spec fn with_routes_behind(
    table: Seq<RouteView>,
    gateway_id: Seq<char>,
    nodes: Seq<NodeRecordView>,
    n: nat,
) -> Seq<RouteView>
    decreases n,
{
    if n == 0 {
        table
    } else {
        let before = with_routes_behind(table, gateway_id, nodes, (n - 1) as nat);
        let node = nodes[n - 1];
        if node.node_id == gateway_id {
            before
        } else {
            with_preferred_routes(
                with_preferred_route(before, host_route(gateway_id, node)),
                forwarded_routes(gateway_id, node),
                node.routes.len(),
            )
        }
    }
}

/// A gateway as a client is shown it: with the routes to all that the client may see.
pub open spec fn projected_gateway(
    gateway: NodeRecordView,
    visible: Seq<NodeRecordView>,
    now: Timestamp,
    policy: ClusterPolicyView,
) -> NodeRecordView {
    let own = table_of(gateway.routes, gateway.routes.len());
    gateway_for_clients(
        NodeRecordView {
            routes: by_network(with_routes_behind(own, gateway.node_id, visible, visible.len())),
            ..gateway
        },
        now,
        policy,
    )
}

fn route_to_host(gateway_id: &NodeId, target: &NodeRecord) -> (r: Route)
    ensures
        r@ == host_route(gateway_id@, target@),
{
    Route {
        id: "client-via-".to_owned().concat(target.node_id.as_str()),
        cidr: vpn_host_cidr(&target.vpn_ip),
        advertised_by: gateway_id.clone(),
        via: Some(gateway_id.clone()),
        metric: GATEWAY_HOST_ROUTE_METRIC,
        tags: target.tags.clone(),
    }
}

/// The route through a gateway to a client that it serves.
pub fn gateway_route_for_client(gateway_id: &NodeId, client: &NodeRecord) -> (r: Route)
    ensures
        r@ == client_route(gateway_id@, client@),
{
    Route {
        id: "client-".to_owned().concat(client.node_id.as_str()),
        cidr: vpn_host_cidr(&client.vpn_ip),
        advertised_by: gateway_id.clone(),
        via: Some(gateway_id.clone()),
        metric: GATEWAY_HOST_ROUTE_METRIC,
        tags: client.tags.clone(),
    }
}

fn forward_routes(gateway_id: &NodeId, node: &NodeRecord) -> (r: Vec<Route>)
    ensures
        views(r@) == forwarded_routes(gateway_id@, node@),
{
    let mut r: Vec<Route> = Vec::new();
    let mut i: usize = 0;
    while i < node.routes.len()
        invariant
            i <= node.routes@.len(),
            r@.len() == i,
            forall|k: int|
                0 <= k < i ==> (#[trigger] r@[k])@ == forwarded_route(
                    gateway_id@,
                    node@.node_id,
                    node.routes@[k]@,
                ),
        decreases node.routes@.len() - i,
    {
        let route = &node.routes[i];
        r.push(
            Route {
                id: "client-via-".to_owned().concat(node.node_id.as_str()).concat("-").concat(
                    route.id.as_str(),
                ),
                cidr: route.cidr,
                advertised_by: gateway_id.clone(),
                via: Some(gateway_id.clone()),
                metric: route.metric,
                tags: route.tags.clone(),
            },
        );
        i = i + 1;
    }
    assert(views(r@) =~= forwarded_routes(gateway_id@, node@));
    r
}

/// A gateway as a client is shown it: with the routes to all that the client may see.
pub fn project_client_gateway(
    gateway: &NodeRecord,
    visible_nodes: &Vec<NodeRecord>,
    generated_at: Timestamp,
    policy: &ClusterPolicy,
) -> (r: NodeRecord)
    ensures
        r@ == projected_gateway(gateway@, views(visible_nodes@), generated_at, policy@),
{
    let ghost all = views(visible_nodes@);
    let mut table = build_table(&gateway.routes);
    let ghost own = views(table@);
    let mut i: usize = 0;
    while i < visible_nodes.len()
        invariant
            i <= visible_nodes@.len(),
            all == views(visible_nodes@),
            views(table@) == with_routes_behind(own, gateway@.node_id, all, i as nat),
        decreases visible_nodes@.len() - i,
    {
        let node = &visible_nodes[i];
        assert(all[i as int] == node@);
        if node.node_id != gateway.node_id {
            insert_preferred_gateway_route(&mut table, route_to_host(&gateway.node_id, node));
            let forwarded = forward_routes(&gateway.node_id, node);
            assert(views(forwarded@).len() == node@.routes.len());
            insert_preferred_routes(&mut table, &forwarded);
        }
        i = i + 1;
    }
    let mut projected = gateway.duplicate();
    projected.routes = list_by_network(&table);
    filter_client_gateway_endpoint_candidates(projected, generated_at, policy)
}

/// The nodes that a client may see.
pub open spec fn seen_by_client(
    client: NodeRecordView,
    peers: Seq<NodeRecordView>,
    policy: ClusterPolicyView,
) -> Seq<NodeRecordView> {
    gathered(
        peers,
        |peer: NodeRecordView|
            if peer.node_id != client.node_id && !role_is_client(peer.role) {
                visible_peer(client, peer, policy.acl_rules)
            } else {
                None
            },
        peers.len(),
    )
}

/// The nodes that a client may see.
pub fn nodes_seen_by_client(
    client: &NodeRecord,
    peers: &Vec<NodeRecord>,
    policy: &ClusterPolicy,
) -> (r: Vec<NodeRecord>)
    ensures
        views(r@) == seen_by_client(client@, views(peers@), policy@),
{
    let ghost all = views(peers@);
    let ghost f = |peer: NodeRecordView|
        if peer.node_id != client@.node_id && !role_is_client(peer.role) {
            visible_peer(client@, peer, policy@.acl_rules)
        } else {
            None
        };
    let mut r: Vec<NodeRecord> = Vec::new();
    let mut i: usize = 0;
    while i < peers.len()
        invariant
            i <= peers@.len(),
            all == views(peers@),
            f == (|peer: NodeRecordView|
                if peer.node_id != client@.node_id && !role_is_client(peer.role) {
                    visible_peer(client@, peer, policy@.acl_rules)
                } else {
                    None
                }),
            views(r@) == gathered(all, f, i as nat),
        decreases peers@.len() - i,
    {
        broadcast use lemma_views_push;

        assert(all[i as int] == peers@[i as int]@);
        if peers[i].node_id != client.node_id && !peers[i].role.is_client() {
            if let Some(visible) = acl_filter_peer(client, &peers[i], policy) {
                r.push(visible);
            }
        }
        i = i + 1;
    }
    r
}

/// The position of the first node with an identifier.
pub open spec fn node_position(nodes: Seq<NodeRecordView>, id: Seq<char>, n: nat) -> Option<int> {
    first_in(
        n,
        |i: int|
            if nodes[i].node_id == id {
                Some(i)
            } else {
                None
            },
    )
}

/// The nodes with the given one first, the order of all going round.
pub open spec fn rotated_to(nodes: Seq<NodeRecordView>, id: Option<Seq<char>>) -> Seq<
    NodeRecordView,
> {
    match id {
        Some(id) => match node_position(nodes, id, nodes.len()) {
            Some(i) => nodes.skip(i) + nodes.take(i),
            None => nodes,
        },
        None => nodes,
    }
}

/// The gateway that a client has chosen.
pub open spec fn chosen_by(
    selections: Map<Seq<Seq<char>>, ClientGatewaySelectionView>,
    client_id: Seq<char>,
) -> Option<Seq<char>> {
    match entry_of(selections, client_id) {
        Some(selection) => Some(selection.gateway_node_id),
        None => None,
    }
}

/// What a client is shown: its gateways, the chosen one first.
pub open spec fn client_view(
    client: NodeRecordView,
    peers: Seq<NodeRecordView>,
    health: Map<Seq<Seq<char>>, NodeHealthView>,
    selections: Map<Seq<Seq<char>>, ClientGatewaySelectionView>,
    policy: ClusterPolicyView,
    now: Timestamp,
) -> Seq<NodeRecordView> {
    let visible = seen_by_client(client, peers, policy);
    let gateways = rotated_to(
        offered_gateways(visible, health, now, policy),
        chosen_by(selections, client.node_id),
    );
    Seq::new(gateways.len(), |i: int| projected_gateway(gateways[i], visible, now, policy))
}

fn find_position(nodes: &Vec<NodeRecord>, id: &NodeId) -> (r: Option<usize>)
    ensures
        match r {
            Some(i) => i < nodes@.len() && node_position(views(nodes@), id@, nodes@.len()) == Some(
                i as int,
            ),
            None => node_position(views(nodes@), id@, nodes@.len()) is None,
        },
{
    let ghost all = views(nodes@);
    let ghost f = |i: int|
        if all[i].node_id == id@ {
            Some(i)
        } else {
            None
        };
    let mut i: usize = 0;
    while i < nodes.len()
        invariant
            i <= nodes@.len(),
            all == views(nodes@),
            f == (|i: int|
                if all[i].node_id == id@ {
                    Some(i)
                } else {
                    None
                }),
            first_in(i as nat, f) is None,
        decreases nodes@.len() - i,
    {
        assert(all[i as int] == nodes@[i as int]@);
        if nodes[i].node_id == *id {
            proof {
                lemma_first_in_extends((i + 1) as nat, all.len(), f);
            }
            return Some(i);
        }
        i = i + 1;
    }
    None
}

/// What a client is shown: its gateways, the chosen one first.
pub fn client_gateway_peer_map(
    source: &NodeRecord,
    peers: &Vec<NodeRecord>,
    health_by_node: &OrderedMap<NodeId, NodeHealth>,
    selections: &OrderedMap<NodeId, ClientGatewaySelection>,
    policy: &ClusterPolicy,
    generated_at: Timestamp,
) -> (r: Vec<NodeRecord>)
    requires
        health_by_node.wf(),
        selections.wf(),
    ensures
        views(r@) == client_view(
            source@,
            views(peers@),
            held(health_by_node@),
            held(selections@),
            policy@,
            generated_at,
        ),
{
    let visible = nodes_seen_by_client(source, peers, policy);
    let gateways = select_client_gateways(&visible, health_by_node, generated_at, policy);
    let ghost offered = views(gateways@);
    let start: usize = match find_entry(selections, &source.node_id) {
        Some(selection) => match find_position(&gateways, &selection.gateway_node_id) {
            Some(i) => i,
            None => 0,
        },
        None => 0,
    };
    let ghost rotated = rotated_to(offered, chosen_by(held(selections@), source@.node_id));
    proof {
        assert(offered.skip(0) + offered.take(0) =~= offered);
        assert(rotated == offered.skip(start as int) + offered.take(start as int));
    }
    let mut r: Vec<NodeRecord> = Vec::new();
    let mut i: usize = 0;
    while i < gateways.len()
        invariant
            i <= gateways@.len(),
            start <= gateways@.len(),
            gateways@.len() > 0 ==> start < gateways@.len(),
            gateways@.len() <= MAX_CLIENT_GATEWAYS,
            offered == views(gateways@),
            rotated == offered.skip(start as int) + offered.take(start as int),
            r@.len() == i,
            forall|k: int|
                0 <= k < i ==> (#[trigger] r@[k])@ == projected_gateway(
                    rotated[k],
                    views(visible@),
                    generated_at,
                    policy@,
                ),
        decreases gateways@.len() - i,
    {
        let at: usize = if i < gateways.len() - start {
            start + i
        } else {
            i - (gateways.len() - start)
        };
        assert(rotated[i as int] == offered[at as int]);
        assert(offered[at as int] == gateways@[at as int]@);
        r.push(project_client_gateway(&gateways[at], &visible, generated_at, policy));
        i = i + 1;
    }
    assert(views(r@) =~= client_view(
        source@,
        views(peers@),
        held(health_by_node@),
        held(selections@),
        policy@,
        generated_at,
    ));
    r
}

/// A client is offered only nodes that can serve it, and no more than the limit.
pub proof fn law_offered_gateways_can_serve(
    nodes: Seq<NodeRecordView>,
    health: Map<Seq<Seq<char>>, NodeHealthView>,
    now: Timestamp,
    policy: ClusterPolicyView,
    i: int,
)
    ensures
        offered_gateways(nodes, health, now, policy).len() <= MAX_CLIENT_GATEWAYS,
        0 <= i < offered_gateways(nodes, health, now, policy).len() ==> {
            let gateway = offered_gateways(nodes, health, now, policy)[i];
            nodes.contains(gateway) && can_serve(gateway, health, now, policy)
        },
{
    let keep = |node: NodeRecordView| can_serve(node, health, now, policy);
    let key = |node: NodeRecordView| gateway_key(node, now, policy);
    let able = kept(nodes, keep, nodes.len());
    let sorted = sorted_by(able, key);
    lemma_kept(nodes, keep, nodes.len());
    lemma_sorted_by(able, key);
    let offered = offered_gateways(nodes, health, now, policy);
    if 0 <= i < offered.len() {
        assert(sorted[i] == offered[i]);
        assert(sorted.contains(offered[i]));
        assert(able.contains(offered[i]));
        let k = choose|k: int| 0 <= k < able.len() && able[k] == offered[i];
        assert(keep(able[k]));
    }
}

/// A dedicated gateway that can serve is passed over only for other dedicated ones.
pub proof fn law_dedicated_gateways_come_first(
    nodes: Seq<NodeRecordView>,
    health: Map<Seq<Seq<char>>, NodeHealthView>,
    now: Timestamp,
    policy: ClusterPolicyView,
    gateway: NodeRecordView,
    i: int,
)
    requires
        nodes.contains(gateway),
        gateway.role == "gateway"@,
        can_serve(gateway, health, now, policy),
        !offered_gateways(nodes, health, now, policy).contains(gateway),
        0 <= i < offered_gateways(nodes, health, now, policy).len(),
    ensures
        offered_gateways(nodes, health, now, policy)[i].role == "gateway"@,
{
    let keep = |node: NodeRecordView| can_serve(node, health, now, policy);
    let key = |node: NodeRecordView| gateway_key(node, now, policy);
    let able = kept(nodes, keep, nodes.len());
    let sorted = sorted_by(able, key);
    lemma_kept(nodes, keep, nodes.len());
    lemma_sorted_by(able, key);
    let offered = offered_gateways(nodes, health, now, policy);
    let p = choose|p: int| 0 <= p < nodes.len() && nodes[p] == gateway;
    assert(keep(nodes[p]));
    let k = choose|k: int| 0 <= k < able.len() && able[k] == nodes[p];
    assert(able.contains(gateway));
    assert(sorted.contains(gateway));
    let q = choose|q: int| 0 <= q < sorted.len() && sorted[q] == gateway;
    if q < offered.len() {
        assert(offered[q] == gateway);
    }
    assert(sorted[i] == offered[i]);
    if offered[i].role != "gateway"@ {
        let a = key(sorted[q]);
        let b = key(sorted[i]);
        assert(a[0] == KeyPartView::Number(0));
        assert(b[0] == KeyPartView::Number(1));
        assert(key_lt(a, b));
    }
}

/// A client is shown no relay, and only candidates of the gateway that it can use.
pub proof fn law_gateway_is_shown_without_relay(
    node: NodeRecordView,
    now: Timestamp,
    policy: ClusterPolicyView,
    i: int,
)
    ensures
        gateway_for_clients(node, now, policy).relay_capability is None,
        0 <= i < gateway_for_clients(node, now, policy).endpoint_candidates.len()
            ==> client_candidate(
            gateway_for_clients(node, now, policy).endpoint_candidates[i],
            node.node_id,
            now,
            policy,
        ),
{
    let keep = |candidate: EndpointCandidateView|
        client_candidate(candidate, node.node_id, now, policy);
    lemma_kept(node.endpoint_candidates, keep, node.endpoint_candidates.len());
    let shown = kept(node.endpoint_candidates, keep, node.endpoint_candidates.len());
    if 0 <= i < shown.len() {
        assert(keep(shown[i]));
    }
}

/// A route through a gateway leads to a node behind it, or to a network behind that node.
pub open spec fn leads_behind(
    gateway_id: Seq<char>,
    visible: Seq<NodeRecordView>,
    route: RouteView,
    n: nat,
) -> bool {
    &&& route.advertised_by == gateway_id
    &&& route.via == Some(gateway_id)
    &&& exists|i: int|
        0 <= i < n && (#[trigger] visible[i]).node_id != gateway_id && ((route.cidr == (match visible[i].vpn_ip {
            IpAddr::V4(addr) => Cidr::V4 { addr, prefix: 32 },
            IpAddr::V6(addr) => Cidr::V6 { addr, prefix: 128 },
        }) && route.metric == 10 && route.tags == visible[i].tags && route.id == "client-via-"@
            + visible[i].node_id) || exists|r: int|
            0 <= r < visible[i].routes.len() && (#[trigger] visible[i].routes[r]).cidr == route.cidr
                && visible[i].routes[r].metric == route.metric && visible[i].routes[r].tags
                == route.tags && route.id == "client-via-"@ + visible[i].node_id + "-"@
                + visible[i].routes[r].id)
}

/// A table has a route for a network with no higher a metric.
pub open spec fn reaches_within(table: Seq<RouteView>, cidr: Cidr, metric: u32) -> bool {
    exists|i: int|
        0 <= i < table.len() && (#[trigger] table[i]).cidr == cidr && table[i].metric <= metric
}

proof fn lemma_reaches(table: Seq<RouteView>, route: RouteView)
    requires
        serves_as_well(table, route),
    ensures
        reaches_within(table, route.cidr, route.metric),
{
    let i = choose|i: int|
        0 <= i < table.len() && (#[trigger] table[i]).cidr == route.cidr && (table[i].metric
            < route.metric || (table[i].metric == route.metric && !crate::text::text_lt(
            route.id,
            table[i].id,
        )));
    assert(table[i].cidr == route.cidr && table[i].metric <= route.metric);
}

proof fn lemma_routes_behind(
    table: Seq<RouteView>,
    gateway_id: Seq<char>,
    nodes: Seq<NodeRecordView>,
    n: nat,
)
    requires
        one_per_network(table),
        n <= nodes.len(),
    ensures
        one_per_network(with_routes_behind(table, gateway_id, nodes, n)),
        forall|x: RouteView| #[trigger]
            with_routes_behind(table, gateway_id, nodes, n).contains(x) ==> table.contains(x)
                || leads_behind(gateway_id, nodes, x, n),
        forall|x: RouteView|
            table.contains(x) ==> #[trigger] serves_as_well(
                with_routes_behind(table, gateway_id, nodes, n),
                x,
            ),
        forall|i: int|
            0 <= i < n && (#[trigger] nodes[i]).node_id != gateway_id ==> serves_as_well(
                with_routes_behind(table, gateway_id, nodes, n),
                host_route(gateway_id, nodes[i]),
            ),
        forall|i: int, r: int|
            0 <= i < n && nodes[i].node_id != gateway_id && 0 <= r < nodes[i].routes.len()
                ==> serves_as_well(
                with_routes_behind(table, gateway_id, nodes, n),
                forwarded_route(gateway_id, nodes[i].node_id, #[trigger] nodes[i].routes[r]),
            ),
    decreases n,
{
    if n == 0 {
        law_preferred_routes_are_collected(table, Seq::empty(), 0);
    } else {
        lemma_routes_behind(table, gateway_id, nodes, (n - 1) as nat);
        let before = with_routes_behind(table, gateway_id, nodes, (n - 1) as nat);
        let node = nodes[n - 1];
        let after = with_routes_behind(table, gateway_id, nodes, n);
        assert forall|x: RouteView| leads_behind(gateway_id, nodes, x, (n - 1) as nat) implies #[trigger] leads_behind(
            gateway_id,
            nodes,
            x,
            n,
        ) by {}
        if node.node_id != gateway_id {
            let host = host_route(gateway_id, node);
            let mid = with_preferred_route(before, host);
            let added = forwarded_routes(gateway_id, node);
            law_better_route_is_preferred(before, host);
            law_table_has_one_route_per_network(before, host);
            law_preferred_routes_are_collected(mid, added, node.routes.len());
            assert(after == with_preferred_routes(mid, added, node.routes.len()));
            assert forall|x: RouteView| before.contains(x) implies #[trigger] serves_as_well(
                after,
                x,
            ) by {
                lemma_serves_carries(mid, after, x);
            }
            assert forall|x: RouteView| table.contains(x) implies #[trigger] serves_as_well(
                after,
                x,
            ) by {
                lemma_serves_carries(before, after, x);
            }
            lemma_serves_carries(mid, after, host);
            assert forall|i: int|
                0 <= i < n && (#[trigger] nodes[i]).node_id != gateway_id implies serves_as_well(
                after,
                host_route(gateway_id, nodes[i]),
            ) by {
                if i < n - 1 {
                    lemma_serves_carries(before, after, host_route(gateway_id, nodes[i]));
                }
            }
            assert forall|i: int, r: int|
                0 <= i < n && nodes[i].node_id != gateway_id && 0 <= r
                    < nodes[i].routes.len() implies serves_as_well(
                after,
                forwarded_route(gateway_id, nodes[i].node_id, #[trigger] nodes[i].routes[r]),
            ) by {
                let forwarded = forwarded_route(gateway_id, nodes[i].node_id, nodes[i].routes[r]);
                if i < n - 1 {
                    lemma_serves_carries(before, after, forwarded);
                } else {
                    assert(added[r] == forwarded);
                }
            }
            assert forall|x: RouteView| #[trigger] after.contains(x) implies table.contains(x)
                || leads_behind(gateway_id, nodes, x, n) by {
                if mid.contains(x) {
                    if x == host {
                        assert(nodes[n - 1].node_id != gateway_id);
                        assert(leads_behind(gateway_id, nodes, x, n));
                    } else {
                        assert(before.contains(x));
                        if !table.contains(x) {
                            assert(leads_behind(gateway_id, nodes, x, (n - 1) as nat));
                        }
                    }
                } else {
                    let r = choose|r: int| 0 <= r < node.routes.len() && #[trigger] added[r] == x;
                    assert(nodes[n - 1].routes[r].cidr == x.cidr);
                    assert(leads_behind(gateway_id, nodes, x, n));
                }
            }
        } else {
            assert forall|x: RouteView| #[trigger] after.contains(x) implies table.contains(x)
                || leads_behind(gateway_id, nodes, x, n) by {
                assert(before.contains(x));
                if !table.contains(x) {
                    assert(leads_behind(gateway_id, nodes, x, (n - 1) as nat));
                }
            }
        }
    }
}

/// A gateway as a client is shown it leads to all that the client may see, and through itself. Each
/// of its routes is one of its own, or goes via the gateway to a node behind it or to a network
/// behind that node. To each node behind it there is a route for the address of the node alone, to
/// each network behind such a node there is a route that is no longer than that of the node, and for
/// each network there is one route only.
pub proof fn law_client_goes_through_the_gateway(
    gateway: NodeRecordView,
    visible: Seq<NodeRecordView>,
    now: Timestamp,
    policy: ClusterPolicyView,
)
    ensures
        ({
            let shown = projected_gateway(gateway, visible, now, policy);
            let id = gateway.node_id;
            &&& shown.node_id == id
            &&& shown.vpn_ip == gateway.vpn_ip
            &&& shown.wireguard_public_key == gateway.wireguard_public_key
            &&& forall|route: RouteView| #[trigger]
                shown.routes.contains(route) ==> gateway.routes.contains(route) || leads_behind(
                    id,
                    visible,
                    route,
                    visible.len(),
                )
            &&& forall|i: int|
                0 <= i < visible.len() && (#[trigger] visible[i]).node_id != id ==> reaches_within(
                    shown.routes,
                    match visible[i].vpn_ip {
                        IpAddr::V4(addr) => Cidr::V4 { addr, prefix: 32 },
                        IpAddr::V6(addr) => Cidr::V6 { addr, prefix: 128 },
                    },
                    10,
                )
            &&& forall|i: int, r: int|
                0 <= i < visible.len() && visible[i].node_id != id && 0 <= r
                    < visible[i].routes.len() ==> reaches_within(
                    shown.routes,
                    (#[trigger] visible[i].routes[r]).cidr,
                    visible[i].routes[r].metric,
                )
            &&& forall|r: int|
                0 <= r < gateway.routes.len() ==> reaches_within(
                    shown.routes,
                    (#[trigger] gateway.routes[r]).cidr,
                    u32::MAX,
                )
            &&& forall|a: int, b: int|
                0 <= a < b < shown.routes.len() ==> (#[trigger] shown.routes[a]).cidr != (
                #[trigger] shown.routes[b]).cidr
        }),
{
    let id = gateway.node_id;
    let own = table_of(gateway.routes, gateway.routes.len());
    let table = with_routes_behind(own, id, visible, visible.len());
    let shown = projected_gateway(gateway, visible, now, policy);
    law_table_is_of_its_routes(gateway.routes, gateway.routes.len());
    lemma_routes_behind(own, id, visible, visible.len());
    law_listing_by_network_keeps_the_routes(table);
    assert(shown.routes == by_network(table));
    assert forall|cidr: Cidr, metric: u32| reaches_within(
        table,
        cidr,
        metric,
    ) implies #[trigger] reaches_within(shown.routes, cidr, metric) by {
        let i = choose|i: int|
            0 <= i < table.len() && (#[trigger] table[i]).cidr == cidr && table[i].metric
                <= metric;
        assert(table.contains(table[i]));
        assert(shown.routes.contains(table[i]));
        let k = choose|k: int| 0 <= k < shown.routes.len() && shown.routes[k] == table[i];
        assert(shown.routes[k].cidr == cidr);
    }
    assert forall|i: int| 0 <= i < visible.len() && (
    #[trigger] visible[i]).node_id != id implies reaches_within(
        shown.routes,
        match visible[i].vpn_ip {
            IpAddr::V4(addr) => Cidr::V4 { addr, prefix: 32 },
            IpAddr::V6(addr) => Cidr::V6 { addr, prefix: 128 },
        },
        10,
    ) by {
        lemma_reaches(table, host_route(id, visible[i]));
    }
    assert forall|i: int, r: int|
        0 <= i < visible.len() && visible[i].node_id != id && 0 <= r
            < visible[i].routes.len() implies reaches_within(
        shown.routes,
        (#[trigger] visible[i].routes[r]).cidr,
        visible[i].routes[r].metric,
    ) by {
        lemma_reaches(table, forwarded_route(id, visible[i].node_id, visible[i].routes[r]));
    }
    assert forall|r: int| 0 <= r < gateway.routes.len() implies reaches_within(
        shown.routes,
        (#[trigger] gateway.routes[r]).cidr,
        u32::MAX,
    ) by {
        let k = choose|k: int|
            0 <= k < own.len() && (#[trigger] own[k]).cidr == gateway.routes[r].cidr;
        assert(own.contains(own[k]));
        lemma_reaches(table, own[k]);
        assert(reaches_within(table, own[k].cidr, own[k].metric));
        let i = choose|i: int|
            0 <= i < table.len() && (#[trigger] table[i]).cidr == own[k].cidr && table[i].metric
                <= own[k].metric;
        assert(table[i].cidr == gateway.routes[r].cidr);
        assert(reaches_within(table, gateway.routes[r].cidr, u32::MAX));
    }
    assert forall|route: RouteView| #[trigger] shown.routes.contains(
        route,
    ) implies gateway.routes.contains(route) || leads_behind(id, visible, route, visible.len()) by {
        assert(table.contains(route));
        if own.contains(route) {
            let i = choose|i: int|
                0 <= i < gateway.routes.len() && #[trigger] gateway.routes[i] == route;
            assert(gateway.routes[i] == route);
        }
    }
    lemma_listing_one_per_network(table);
}

proof fn lemma_listing_one_per_network(table: Seq<RouteView>)
    requires
        one_per_network(table),
    ensures
        one_per_network(by_network(table)),
{
    let key = |route: RouteView| crate::route_table::cidr_key(route.cidr);
    let keys = keys_of(table, key);
    let order = crate::order::stable_order(keys, table.len());
    crate::order::law_stable_order(keys, table.len());
    let list = by_network(table);
    assert(list == crate::order::pick(table, order));
    assert forall|a: int, b: int| 0 <= a < b < list.len() implies (#[trigger] list[a]).cidr != (
    #[trigger] list[b]).cidr by {
        assert(list[a] == table[order[a]] && list[b] == table[order[b]]);
        assert(order[a] != order[b]);
    }
}

/// Clients can reach a node at a candidate exactly where it is a public UDP address, or an IPv6 one
/// where these are allowed, of the node itself, without a fault, globally routable, and observed no
/// longer ago than candidates last.
pub proof fn law_client_candidates_are_public_and_fresh(
    candidate: EndpointCandidateView,
    node_id: Seq<char>,
    now: Timestamp,
    policy: ClusterPolicyView,
)
    ensures
        client_candidate(candidate, node_id, now, policy) <==> {
            &&& candidate.kind == EndpointCandidateKind::PublicUdp || (candidate.kind
                == EndpointCandidateKind::Ipv6 && policy.allow_ipv6_direct)
            &&& candidate.node_id == node_id
            &&& candidate.kind_fault is None
            &&& candidate.endpoint.globally_routable
            &&& now.at() <= candidate.observed_at.at() + policy.endpoint_candidate_ttl_seconds
                * 1_000_000_000
        },
{
}

/// One candidate is better for clients than another one: it is an IPv6 one and the other is not, or
/// of the same kind and cheaper, or as cheap and of higher priority, or else earlier by the text of
/// its address.
pub open spec fn better_candidate(a: EndpointCandidateView, b: EndpointCandidateView) -> bool {
    if a.kind != b.kind {
        a.kind == EndpointCandidateKind::Ipv6
    } else if a.cost != b.cost {
        a.cost < b.cost
    } else if a.priority != b.priority {
        a.priority > b.priority
    } else {
        crate::text::text_lt(a.endpoint.addr.display(), b.endpoint.addr.display())
    }
}

/// The score of candidates that clients can use goes by which of them is better.
pub proof fn law_better_candidate_scores_less(
    a: EndpointCandidateView,
    b: EndpointCandidateView,
    node_id: Seq<char>,
    other_id: Seq<char>,
    now: Timestamp,
    policy: ClusterPolicyView,
)
    requires
        client_candidate(a, node_id, now, policy),
        client_candidate(b, other_id, now, policy),
    ensures
        key_lt(
            candidate_score(a, policy.allow_ipv6_direct),
            candidate_score(b, policy.allow_ipv6_direct),
        ) <==> better_candidate(a, b),
{
    let x = candidate_score(a, policy.allow_ipv6_direct);
    let y = candidate_score(b, policy.allow_ipv6_direct);
    reveal_with_fuel(key_lt, 5);
    assert(x.skip(1)[0] == x[1] && y.skip(1)[0] == y[1]);
    assert(x.skip(1).skip(1)[0] == x[2] && y.skip(1).skip(1)[0] == y[2]);
    assert(x.skip(1).skip(1).skip(1)[0] == x[3] && y.skip(1).skip(1).skip(1)[0] == y[3]);
    assert(x.skip(1).skip(1).skip(1).skip(1).len() == 0);
    crate::text::lemma_bytes_lt_irreflexive(encode_utf8(a.endpoint.addr.display()));
}

/// The best score of a node is that of one of its usable client candidates, and there is none that
/// is better; where it has no such candidate, it has no score.
pub proof fn law_best_score_is_of_the_best_candidate(
    node: NodeRecordView,
    now: Timestamp,
    policy: ClusterPolicyView,
    n: nat,
)
    requires
        n <= node.endpoint_candidates.len(),
    ensures
        best_score(node, now, policy, n) is Some <==> exists|i: int|
            0 <= i < n && client_candidate(
                #[trigger] node.endpoint_candidates[i],
                node.node_id,
                now,
                policy,
            ) && node.endpoint_candidates[i].endpoint.usable,
        best_score(node, now, policy, n) matches Some(score) ==> {
            &&& exists|i: int|
                0 <= i < n && client_candidate(
                    #[trigger] node.endpoint_candidates[i],
                    node.node_id,
                    now,
                    policy,
                ) && node.endpoint_candidates[i].endpoint.usable && score == candidate_score(
                    node.endpoint_candidates[i],
                    policy.allow_ipv6_direct,
                )
            &&& forall|i: int|
                0 <= i < n && client_candidate(
                    #[trigger] node.endpoint_candidates[i],
                    node.node_id,
                    now,
                    policy,
                ) && node.endpoint_candidates[i].endpoint.usable ==> !key_lt(
                    candidate_score(node.endpoint_candidates[i], policy.allow_ipv6_direct),
                    score,
                )
        },
    decreases n,
{
    if n > 0 {
        law_best_score_is_of_the_best_candidate(node, now, policy, (n - 1) as nat);
        let before = best_score(node, now, policy, (n - 1) as nat);
        let candidate = node.endpoint_candidates[n - 1];
        let score = candidate_score(candidate, policy.allow_ipv6_direct);
        let usable = client_candidate(candidate, node.node_id, now, policy)
            && candidate.endpoint.usable;
        let after = best_score(node, now, policy, n);
        crate::order::lemma_key_lt_irreflexive(score);
        if usable {
            assert(client_candidate(
                node.endpoint_candidates[n - 1],
                node.node_id,
                now,
                policy,
            ));
            if after != before {
                assert forall|i: int|
                    0 <= i < n && client_candidate(
                        #[trigger] node.endpoint_candidates[i],
                        node.node_id,
                        now,
                        policy,
                    ) && node.endpoint_candidates[i].endpoint.usable implies !key_lt(
                    candidate_score(node.endpoint_candidates[i], policy.allow_ipv6_direct),
                    score,
                ) by {
                    let other = candidate_score(
                        node.endpoint_candidates[i],
                        policy.allow_ipv6_direct,
                    );
                    if i < n - 1 && key_lt(other, score) {
                        crate::order::lemma_key_lt_transitive(other, score, before->0);
                    }
                }
            }
        }
    }
}

/// A node can serve clients exactly where it is no client, did not report that it is anything but
/// healthy nor report too long ago, and has a usable candidate that clients can reach it at.
pub proof fn law_gateways_are_healthy_and_reachable(
    node: NodeRecordView,
    health: Map<Seq<Seq<char>>, NodeHealthView>,
    now: Timestamp,
    policy: ClusterPolicyView,
)
    ensures
        can_serve(node, health, now, policy) <==> {
            &&& node.role != "client"@
            &&& health.dom().contains(seq![node.node_id]) ==> health[seq![node.node_id]].state
                == HealthState::Healthy && now.at()
                <= health[seq![node.node_id]].last_seen_at.at() + policy.relay_health_ttl_seconds
                * 1_000_000_000
            &&& exists|i: int|
                0 <= i < node.endpoint_candidates.len() && client_candidate(
                    #[trigger] node.endpoint_candidates[i],
                    node.node_id,
                    now,
                    policy,
                ) && node.endpoint_candidates[i].endpoint.usable
        },
{
    law_best_score_is_of_the_best_candidate(node, now, policy, node.endpoint_candidates.len());
}

/// A gateway is ranked before another one exactly where it is dedicated and the other is not, or else
/// where it has a better best candidate, or else where its identifier comes first.
pub open spec fn ranked_before(
    a: NodeRecordView,
    b: NodeRecordView,
    now: Timestamp,
    policy: ClusterPolicyView,
    best_of_a: EndpointCandidateView,
    best_of_b: EndpointCandidateView,
) -> bool {
    if (a.role == "gateway"@) != (b.role == "gateway"@) {
        a.role == "gateway"@
    } else {
        better_candidate(best_of_a, best_of_b)
    }
}

proof fn lemma_key_lt_prefix(a: KeyView, b: KeyView, x: KeyView, y: KeyView)
    requires
        a.len() == b.len(),
        key_lt(a, b),
    ensures
        key_lt(a + x, b + y),
    decreases a.len(),
{
    let p = a + x;
    let q = b + y;
    assert(p[0] == a[0] && q[0] == b[0]);
    if a[0] == b[0] {
        lemma_key_lt_prefix(a.skip(1), b.skip(1), x, y);
        assert(p.skip(1) =~= a.skip(1) + x);
        assert(q.skip(1) =~= b.skip(1) + y);
    }
}

/// Clients are offered the best of those that can serve them. Of two nodes that can serve, one that
/// is offered is never ranked behind one that comes later or is not offered: a dedicated gateway goes
/// before others, and within these the one with the better best candidate goes first. Up to the
/// limit, all that can serve are offered.
pub proof fn law_best_gateways_are_offered(
    nodes: Seq<NodeRecordView>,
    health: Map<Seq<Seq<char>>, NodeHealthView>,
    now: Timestamp,
    policy: ClusterPolicyView,
    i: int,
    other: NodeRecordView,
    best: EndpointCandidateView,
    best_of_other: EndpointCandidateView,
)
    requires
        0 <= i < offered_gateways(nodes, health, now, policy).len(),
        nodes.contains(other),
        can_serve(other, health, now, policy),
        !offered_gateways(nodes, health, now, policy).contains(other) || exists|j: int|
            i < j < offered_gateways(nodes, health, now, policy).len()
                && #[trigger] offered_gateways(nodes, health, now, policy)[j] == other,
        is_best_candidate(offered_gateways(nodes, health, now, policy)[i], best, now, policy),
        is_best_candidate(other, best_of_other, now, policy),
    ensures
        !ranked_before(
            other,
            offered_gateways(nodes, health, now, policy)[i],
            now,
            policy,
            best_of_other,
            best,
        ),
{
    let keep = |node: NodeRecordView| can_serve(node, health, now, policy);
    let key = |node: NodeRecordView| gateway_key(node, now, policy);
    let able = kept(nodes, keep, nodes.len());
    let sorted = sorted_by(able, key);
    let offered = offered_gateways(nodes, health, now, policy);
    lemma_kept_members(nodes, keep);
    lemma_sorted_by(able, key);
    let gateway = offered[i];
    assert(sorted[i] == gateway);
    assert(able.contains(other));
    assert(sorted.contains(other));
    let q = if offered.contains(other) {
        choose|j: int| i < j < offered.len() && #[trigger] offered[j] == other
    } else {
        choose|q: int| 0 <= q < sorted.len() && sorted[q] == other
    };
    if !offered.contains(other) && q < offered.len() {
        assert(offered[q] == other);
    }
    assert(q > i && sorted[q] == other);
    let a = key(sorted[q]);
    let b = key(sorted[i]);
    assert(!key_lt(a, b));
    lemma_best_is_score(gateway, best, now, policy);
    lemma_best_is_score(other, best_of_other, now, policy);
    law_better_candidate_scores_less(
        best_of_other,
        best,
        other.node_id,
        gateway.node_id,
        now,
        policy,
    );
    if ranked_before(other, gateway, now, policy, best_of_other, best) {
        let x = candidate_score(best_of_other, policy.allow_ipv6_direct);
        let y = candidate_score(best, policy.allow_ipv6_direct);
        if (other.role == "gateway"@) == (gateway.role == "gateway"@) {
            lemma_key_lt_prefix(x, y, text_key(other.node_id), text_key(gateway.node_id));
            assert(a.skip(1) =~= x + text_key(other.node_id));
            assert(b.skip(1) =~= y + text_key(gateway.node_id));
        }
        assert(key_lt(a, b));
    }
}

/// A candidate of a node is one that clients can use and that no other such candidate is better than.
pub open spec fn is_best_candidate(
    node: NodeRecordView,
    candidate: EndpointCandidateView,
    now: Timestamp,
    policy: ClusterPolicyView,
) -> bool {
    &&& node.endpoint_candidates.contains(candidate)
    &&& client_candidate(candidate, node.node_id, now, policy) && candidate.endpoint.usable
    &&& forall|i: int|
        0 <= i < node.endpoint_candidates.len() && client_candidate(
            #[trigger] node.endpoint_candidates[i],
            node.node_id,
            now,
            policy,
        ) && node.endpoint_candidates[i].endpoint.usable ==> !better_candidate(
            node.endpoint_candidates[i],
            candidate,
        )
}

proof fn lemma_best_is_score(
    node: NodeRecordView,
    candidate: EndpointCandidateView,
    now: Timestamp,
    policy: ClusterPolicyView,
)
    requires
        is_best_candidate(node, candidate, now, policy),
    ensures
        best_score(node, now, policy, node.endpoint_candidates.len()) == Some(
            candidate_score(candidate, policy.allow_ipv6_direct),
        ),
{
    let n = node.endpoint_candidates.len();
    law_best_score_is_of_the_best_candidate(node, now, policy, n);
    let k = choose|k: int| 0 <= k < n && node.endpoint_candidates[k] == candidate;
    assert(client_candidate(node.endpoint_candidates[k], node.node_id, now, policy));
    let best = best_score(node, now, policy, n)->0;
    let i = choose|i: int|
        0 <= i < n && client_candidate(
            #[trigger] node.endpoint_candidates[i],
            node.node_id,
            now,
            policy,
        ) && node.endpoint_candidates[i].endpoint.usable && best == candidate_score(
            node.endpoint_candidates[i],
            policy.allow_ipv6_direct,
        );
    law_better_candidate_scores_less(
        node.endpoint_candidates[i],
        candidate,
        node.node_id,
        node.node_id,
        now,
        policy,
    );
    crate::order::lemma_key_lt_total(best, candidate_score(candidate, policy.allow_ipv6_direct));
}

/// As long as there is room, each node that can serve clients is offered, and no other.
pub proof fn law_all_able_gateways_are_offered(
    nodes: Seq<NodeRecordView>,
    health: Map<Seq<Seq<char>>, NodeHealthView>,
    now: Timestamp,
    policy: ClusterPolicyView,
    node: NodeRecordView,
)
    requires
        offered_gateways(nodes, health, now, policy).len() < 4,
    ensures
        offered_gateways(nodes, health, now, policy).contains(node) <==> nodes.contains(node)
            && can_serve(node, health, now, policy),
{
    let keep = |node: NodeRecordView| can_serve(node, health, now, policy);
    let key = |node: NodeRecordView| gateway_key(node, now, policy);
    let able = kept(nodes, keep, nodes.len());
    lemma_kept_members(nodes, keep);
    lemma_sorted_by(able, key);
    assert(offered_gateways(nodes, health, now, policy) =~= sorted_by(able, key));
    assert(able.contains(node) <==> nodes.contains(node) && keep(node));
}

/// A client may see a node exactly where it is another one, is no client, and the access rules let
/// the client see it; it is then seen as the rules say.
pub proof fn law_client_sees_permitted_nodes(
    client: NodeRecordView,
    peers: Seq<NodeRecordView>,
    policy: ClusterPolicyView,
    seen: NodeRecordView,
)
    ensures
        seen_by_client(client, peers, policy).contains(seen) <==> exists|i: int|
            0 <= i < peers.len() && (#[trigger] peers[i]).node_id != client.node_id
                && peers[i].role != "client"@ && visible_peer(client, peers[i], policy.acl_rules)
                == Some(seen),
{
    let f = |peer: NodeRecordView|
        if peer.node_id != client.node_id && !role_is_client(peer.role) {
            visible_peer(client, peer, policy.acl_rules)
        } else {
            None
        };
    lemma_gathered_members(peers, f);
    if seen_by_client(client, peers, policy).contains(seen) {
        let i = choose|i: int| 0 <= i < peers.len() && f(#[trigger] peers[i]) == Some(seen);
        assert(peers[i].node_id != client.node_id);
    }
    if exists|i: int|
        0 <= i < peers.len() && (#[trigger] peers[i]).node_id != client.node_id && peers[i].role
            != "client"@ && visible_peer(client, peers[i], policy.acl_rules) == Some(seen) {
        let i = choose|i: int|
            0 <= i < peers.len() && (#[trigger] peers[i]).node_id != client.node_id
                && peers[i].role != "client"@ && visible_peer(client, peers[i], policy.acl_rules)
                == Some(seen);
        assert(f(peers[i]) == Some(seen));
    }
}

/// A client is shown the gateways that it is offered, all of them and each in its place: the one that
/// it has chosen comes first where it is among them, and the others follow in their order, going
/// round. Where it has chosen none of them, they come in the order in which they are offered.
pub proof fn law_chosen_gateway_comes_first(
    client: NodeRecordView,
    peers: Seq<NodeRecordView>,
    health: Map<Seq<Seq<char>>, NodeHealthView>,
    selections: Map<Seq<Seq<char>>, ClientGatewaySelectionView>,
    policy: ClusterPolicyView,
    now: Timestamp,
)
    ensures
        ({
            let visible = seen_by_client(client, peers, policy);
            let offered = offered_gateways(visible, health, now, policy);
            let shown = client_view(client, peers, health, selections, policy, now);
            let chosen = seq![client.node_id];
            let n = offered.len() as int;
            &&& shown.len() == offered.len()
            &&& !selections.dom().contains(chosen) ==> forall|i: int|
                0 <= i < n ==> (#[trigger] shown[i]) == projected_gateway(
                    offered[i],
                    visible,
                    now,
                    policy,
                )
            &&& selections.dom().contains(chosen) ==> {
                let id = selections[chosen].gateway_node_id;
                &&& (forall|k: int| 0 <= k < n ==> (#[trigger] offered[k]).node_id != id)
                    ==> forall|i: int|
                    0 <= i < n ==> (#[trigger] shown[i]) == projected_gateway(
                        offered[i],
                        visible,
                        now,
                        policy,
                    )
                &&& forall|k: int|
                    0 <= k < n && (#[trigger] offered[k]).node_id == id && (forall|j: int|
                        0 <= j < k ==> (#[trigger] offered[j]).node_id != id) ==> {
                        &&& shown[0].node_id == id
                        &&& forall|i: int|
                            0 <= i < n ==> (#[trigger] shown[i]) == projected_gateway(
                                offered[if i + k < n {
                                    i + k
                                } else {
                                    i + k - n
                                }],
                                visible,
                                now,
                                policy,
                            )
                    }
            }
        }),
{
    let visible = seen_by_client(client, peers, policy);
    let offered = offered_gateways(visible, health, now, policy);
    let shown = client_view(client, peers, health, selections, policy, now);
    let chosen = seq![client.node_id];
    let n = offered.len();
    if selections.dom().contains(chosen) {
        let id = selections[chosen].gateway_node_id;
        let f = |i: int|
            if offered[i].node_id == id {
                Some(i)
            } else {
                None
            };
        lemma_first_in_none(n, f);
        if first_in(n, f) is Some {
            let at = lemma_first_in_found(n, f);
            assert(offered[at].node_id == id);
            assert forall|k: int|
                0 <= k < n && (#[trigger] offered[k]).node_id == id && (forall|j: int|
                    0 <= j < k ==> (#[trigger] offered[j]).node_id != id) implies k == at by {
                if at < k {
                    assert(offered[at].node_id != id);
                } else if k < at {
                    assert(f(k) is None);
                }
            }
        } else {
            assert forall|k: int| 0 <= k < n implies (#[trigger] offered[k]).node_id != id by {
                assert(f(k) is None);
            }
        }
    }
}

/// Whatever a client is shown, it goes there through a gateway. Each gateway that it is shown is one
/// of those that it may see. Each route of that gateway is the gateway's own or is advertised by it
/// and goes via it. To each other node that the client may see, there is a route for the address of
/// that node alone.
pub proof fn law_clients_reach_all_through_their_gateways(
    client: NodeRecordView,
    peers: Seq<NodeRecordView>,
    health: Map<Seq<Seq<char>>, NodeHealthView>,
    selections: Map<Seq<Seq<char>>, ClientGatewaySelectionView>,
    policy: ClusterPolicyView,
    now: Timestamp,
    i: int,
)
    requires
        0 <= i < client_view(client, peers, health, selections, policy, now).len(),
    ensures
        ({
            let visible = seen_by_client(client, peers, policy);
            let shown = client_view(client, peers, health, selections, policy, now)[i];
            exists|g: int|
                0 <= g < visible.len() && (#[trigger] visible[g]).node_id == shown.node_id && {
                    &&& forall|route: RouteView| #[trigger]
                        shown.routes.contains(route) ==> visible[g].routes.contains(route) || (
                        route.via == Some(shown.node_id) && route.advertised_by == shown.node_id)
                    &&& forall|n: int|
                        0 <= n < visible.len() && (#[trigger] visible[n]).node_id != shown.node_id
                            ==> reaches_within(
                            shown.routes,
                            match visible[n].vpn_ip {
                                IpAddr::V4(addr) => Cidr::V4 { addr, prefix: 32 },
                                IpAddr::V6(addr) => Cidr::V6 { addr, prefix: 128 },
                            },
                            10,
                        )
                }
        }),
{
    let visible = seen_by_client(client, peers, policy);
    let offered = offered_gateways(visible, health, now, policy);
    let view = client_view(client, peers, health, selections, policy, now);
    law_chosen_gateway_comes_first(client, peers, health, selections, policy, now);
    let k = lemma_shown_gateway(client, peers, health, selections, policy, now, i);
    law_offered_gateways_can_serve(visible, health, now, policy, k);
    law_client_goes_through_the_gateway(offered[k], visible, now, policy);
    assert(visible.contains(offered[k]));
    let g = choose|g: int| 0 <= g < visible.len() && visible[g] == offered[k];
    let shown = view[i];
    assert(shown == projected_gateway(offered[k], visible, now, policy));
    assert(visible[g].node_id == shown.node_id);
    assert forall|route: RouteView| #[trigger] shown.routes.contains(
        route,
    ) implies visible[g].routes.contains(route) || (route.via == Some(shown.node_id)
        && route.advertised_by == shown.node_id) by {}
}

proof fn lemma_shown_gateway(
    client: NodeRecordView,
    peers: Seq<NodeRecordView>,
    health: Map<Seq<Seq<char>>, NodeHealthView>,
    selections: Map<Seq<Seq<char>>, ClientGatewaySelectionView>,
    policy: ClusterPolicyView,
    now: Timestamp,
    i: int,
) -> (k: int)
    requires
        0 <= i < client_view(client, peers, health, selections, policy, now).len(),
    ensures
        ({
            let visible = seen_by_client(client, peers, policy);
            let offered = offered_gateways(visible, health, now, policy);
            &&& 0 <= k < offered.len()
            &&& client_view(client, peers, health, selections, policy, now)[i]
                == projected_gateway(offered[k], visible, now, policy)
        }),
{
    let visible = seen_by_client(client, peers, policy);
    let offered = offered_gateways(visible, health, now, policy);
    law_chosen_gateway_comes_first(client, peers, health, selections, policy, now);
    let view = client_view(client, peers, health, selections, policy, now);
    let chosen = seq![client.node_id];
    let n = offered.len() as int;
    if !selections.dom().contains(chosen) {
        assert(view[i] == projected_gateway(offered[i], visible, now, policy));
        i
    } else {
        let id = selections[chosen].gateway_node_id;
        if forall|k: int| 0 <= k < n ==> (#[trigger] offered[k]).node_id != id {
            assert(view[i] == projected_gateway(offered[i], visible, now, policy));
            i
        } else {
            let f = |i: int|
                if offered[i].node_id == id {
                    Some(i)
                } else {
                    None
                };
            lemma_first_in_none(offered.len(), f);
            let some = choose|k: int| 0 <= k < n && (#[trigger] offered[k]).node_id == id;
            assert(f(some) is Some);
            let at = lemma_first_in_found(offered.len(), f);
            assert(offered[at].node_id == id);
            assert forall|j: int| 0 <= j < at implies (#[trigger] offered[j]).node_id != id by {
                assert(f(j) is None);
            }
            let k = if i + at < n {
                i + at
            } else {
                i + at - n
            };
            assert(view[i] == projected_gateway(offered[k], visible, now, policy));
            k
        }
    }
}

} // verus!
