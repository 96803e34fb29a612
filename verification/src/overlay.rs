//! The overlay as it stands: its nodes, who is a neighbor of whom, and the paths between them.

use vstd::prelude::*;

use crate::client_routes::{client_projection, gather_ids, id_set, node_client_route_projection};
use crate::epochs::{membership_epoch, overlay_membership_epoch};
use crate::error::{refusal, ControlPlaneError, ControlPlaneErrorView};
use crate::gateway::{overlay_node_health_allows, part_of_overlay};
use crate::ids::{role_is_client, sorted_names, ClusterId, NameSet, NodeId};
use crate::lists::{first_in, kept, lemma_first_in_extends};
use crate::map::{held, lemma_key_position, OrderedMap, TextKey};
use crate::net::{cover_alike, ipnet_aggregate, tidy, Cidr, IpAddr};
use crate::nodes::{
    entry_of, filter_served_endpoint_candidates, find_entry, find_node, named, served_node,
};
use crate::route_index::{destination_node, OverlayRouteIndex};
use crate::routes::{
    aggregate_overlay_routes, backbone, backbone_nodes, captured, catalog_networks,
    AggregateOverlayRoute, MAX_OVERLAY_ROUTE_SCOPES,
};
use crate::text::{decimal, decimal_text};
use crate::time::{Span, Timestamp};
use crate::types::{
    lemma_views_push, opt_views, views, BootstrapEndpoint, BootstrapEndpointView,
    ClientGatewaySelection, ClientGatewaySelectionView, ClusterPolicy, ClusterPolicyView,
    NodeHealth, NodeHealthView, NodeRecord, NodeRecordView, Record,
};

verus! {

/// How long a snapshot of the overlay may be used, in seconds.
pub const OVERLAY_NODE_SNAPSHOT_CACHE_TTL_SECONDS: u64 = 1;

/// How many topologies are kept.
pub const MAX_OVERLAY_TOPOLOGY_CACHE_ENTRIES: usize = 4;

/// What a topology depends on.
#[derive(Debug)]
pub struct OverlayTopologyCacheKey {
    pub membership_epoch: u64,
    pub node_count: usize,
    pub block_size: u16,
    pub max_degree: u16,
    pub permutation_seed: String,
}

/// What an [`OverlayTopologyCacheKey`] holds.
#[verifier::ext_equal]
pub struct OverlayTopologyCacheKeyView {
    pub membership_epoch: u64,
    pub node_count: usize,
    pub block_size: u16,
    pub max_degree: u16,
    pub permutation_seed: Seq<char>,
}

impl View for OverlayTopologyCacheKey {
    type V = OverlayTopologyCacheKeyView;

    open spec fn view(&self) -> OverlayTopologyCacheKeyView {
        OverlayTopologyCacheKeyView {
            membership_epoch: self.membership_epoch,
            node_count: self.node_count,
            block_size: self.block_size,
            max_degree: self.max_degree,
            permutation_seed: self.permutation_seed@,
        }
    }
}

impl Record for OverlayTopologyCacheKey {
    fn duplicate(&self) -> (r: Self) {
        OverlayTopologyCacheKey {
            membership_epoch: self.membership_epoch,
            node_count: self.node_count,
            block_size: self.block_size,
            max_degree: self.max_degree,
            permutation_seed: self.permutation_seed.clone(),
        }
    }

    fn alike(&self, other: &Self) -> (r: bool) {
        self.membership_epoch == other.membership_epoch && self.node_count == other.node_count
            && self.block_size == other.block_size && self.max_degree == other.max_degree
            && self.permutation_seed == other.permutation_seed
    }
}

/// The nodes of the overlay at one time, and what follows from them.
pub struct OverlayNodeSnapshot {
    pub generated_at: Timestamp,
    /// The nodes of the cluster that are no clients.
    pub nodes: Vec<NodeRecord>,
    pub clients: Vec<NodeRecord>,
    /// The health of those nodes that reported it.
    pub health_by_node: OrderedMap<NodeId, NodeHealth>,
    /// The nodes whose health makes them part of the overlay.
    pub active_nodes: Vec<NodeRecord>,
    pub health_ttl_seconds: u64,
    pub topology_cache_key: OverlayTopologyCacheKey,
    pub aggregate_routes: Vec<AggregateOverlayRoute>,
    pub route_index: OverlayRouteIndex,
    pub routing_epoch: u64,
}

/// Those of the listed that are clients of the cluster.
pub open spec fn clients_among(listed: Seq<NodeRecordView>, cluster_id: Seq<char>) -> Seq<
    NodeRecordView,
> {
    kept(
        listed,
        |node: NodeRecordView| node.cluster_id == cluster_id && role_is_client(node.role),
        listed.len(),
    )
}

/// What is known of the health of some nodes.
pub open spec fn health_among(health: Map<Seq<Seq<char>>, NodeHealthView>, ids: Set<Seq<char>>) -> Map<
    Seq<Seq<char>>,
    NodeHealthView,
> {
    Map::new(
        |key: Seq<Seq<char>>| health.dom().contains(key) && ids.contains(key[0]),
        |key: Seq<Seq<char>>| health[key],
    )
}

/// Those of the nodes that are part of the overlay.
pub open spec fn active_among(
    nodes: Seq<NodeRecordView>,
    health: Map<Seq<Seq<char>>, NodeHealthView>,
    now: Timestamp,
    ttl_seconds: u64,
) -> Seq<NodeRecordView> {
    kept(
        nodes,
        |node: NodeRecordView|
            part_of_overlay(node, entry_of(health, node.node_id), now, ttl_seconds),
        nodes.len(),
    )
}

/// What the topology of some nodes depends on.
pub open spec fn topology_key(
    nodes: Seq<NodeRecordView>,
    cluster_id: Seq<char>,
    policy: ClusterPolicyView,
) -> OverlayTopologyCacheKeyView {
    OverlayTopologyCacheKeyView {
        membership_epoch: membership_epoch(sorted_names(id_set(nodes, nodes.len()))),
        node_count: nodes.len() as usize,
        block_size: policy.overlay_block_size,
        max_degree: policy.overlay_max_degree,
        permutation_seed: cluster_id,
    }
}

impl OverlayNodeSnapshot {
    /// The parts of the snapshot fit together.
    pub open spec fn wf(&self) -> bool {
        let nodes = views(self.nodes@);
        &&& self.health_by_node.wf()
        &&& views(self.active_nodes@) == active_among(
            nodes,
            held(self.health_by_node@),
            self.generated_at,
            self.health_ttl_seconds,
        )
        &&& captured(self.aggregate_routes@) == ipnet_aggregate(
            catalog_networks(nodes, nodes.len()),
        )
        &&& cover_alike(captured(self.aggregate_routes@), catalog_networks(nodes, nodes.len()))
        &&& tidy(captured(self.aggregate_routes@))
        &&& self.route_index.wf()
        &&& self.route_index.nodes@ == nodes
    }
}

fn list_clients(listed: &Vec<NodeRecord>, cluster_id: &ClusterId) -> (r: Vec<NodeRecord>)
    ensures
        views(r@) == clients_among(views(listed@), cluster_id@),
{
    let ghost all = views(listed@);
    let ghost keep = |node: NodeRecordView|
        node.cluster_id == cluster_id@ && role_is_client(node.role);
    let mut r: Vec<NodeRecord> = Vec::new();
    let mut i: usize = 0;
    assert(views(r@) =~= kept(all, keep, 0));
    while i < listed.len()
        invariant
            i <= listed@.len(),
            all == views(listed@),
            keep == (|node: NodeRecordView|
                node.cluster_id == cluster_id@ && role_is_client(node.role)),
            views(r@) == kept(all, keep, i as nat),
        decreases listed@.len() - i,
    {
        broadcast use lemma_views_push;

        assert(all[i as int] == listed@[i as int]@);
        if listed[i].cluster_id == *cluster_id && listed[i].role.is_client() {
            r.push(listed[i].duplicate());
        }
        i = i + 1;
    }
    r
}

fn keep_health(health: OrderedMap<NodeId, NodeHealth>, ids: &NameSet) -> (r: OrderedMap<
    NodeId,
    NodeHealth,
>)
    requires
        health.wf(),
    ensures
        r.wf(),
        held(r@) == health_among(held(health@), ids@),
{
    let ghost before = health@;
    let mut map = health;
    let mut i: usize = 0;
    while i < map.entries.len()
        invariant
            map.wf(),
            i <= map.entries@.len(),
            forall|key: Seq<Seq<char>>| #[trigger]
                map@.dom().contains(key) ==> before.dom().contains(key) && map@[key]
                    == before[key],
            forall|key: Seq<Seq<char>>|
                #![trigger before.dom().contains(key)]
                before.dom().contains(key) && !map@.dom().contains(key) ==> !ids@.contains(key[0]),
            forall|k: int|
                0 <= k < i ==> ids@.contains((#[trigger] map.entries@[k]).key.parts()[0]),
        decreases map.entries@.len() - i,
    {
        let ghost listed = map.entries@;
        let ghost gone = map.entries@[i as int];
        let ghost now = map@;
        proof {
            lemma_key_position(map.entries@, i as int);
        }
        assert(now.dom().contains(gone.key.parts()) && now[gone.key.parts()] == gone.value);
        if ids.contains(map.entries[i].key.as_str()) {
            i = i + 1;
        } else {
            let removed = map.remove_at(i);
            assert forall|key: Seq<Seq<char>>| #[trigger] map@.dom().contains(key) implies
                before.dom().contains(key) && map@[key] == before[key] by {
                assert(now.dom().contains(key) && now[key] == map@[key]);
            }
            assert forall|key: Seq<Seq<char>>|
                #![trigger before.dom().contains(key)]
                before.dom().contains(key) && !map@.dom().contains(key) implies !ids@.contains(
                key[0],
            ) by {
                if now.dom().contains(key) {
                    assert(key == gone.key.parts());
                }
            }
            assert forall|k: int| 0 <= k < i implies ids@.contains(
                (#[trigger] map.entries@[k]).key.parts()[0],
            ) by {
                assert(map.entries@[k] == listed[k]);
            }
        }
    }
    assert forall|key: Seq<Seq<char>>| map@.dom().contains(key) implies ids@.contains(key[0]) by {
        let k = crate::map::key_position(map.entries@, key);
        assert(map.entries@[k].key.parts() == key);
    }
    assert(held(map@) =~= health_among(held(before), ids@));
    map
}

fn list_active(
    nodes: &Vec<NodeRecord>,
    health: &OrderedMap<NodeId, NodeHealth>,
    now: Timestamp,
    ttl_seconds: u64,
) -> (r: Vec<NodeRecord>)
    requires
        health.wf(),
    ensures
        views(r@) == active_among(views(nodes@), held(health@), now, ttl_seconds),
{
    let ghost all = views(nodes@);
    let ghost keep = |node: NodeRecordView|
        part_of_overlay(node, entry_of(held(health@), node.node_id), now, ttl_seconds);
    let mut r: Vec<NodeRecord> = Vec::new();
    let mut i: usize = 0;
    assert(views(r@) =~= kept(all, keep, 0));
    while i < nodes.len()
        invariant
            health.wf(),
            i <= nodes@.len(),
            all == views(nodes@),
            keep == (|node: NodeRecordView|
                part_of_overlay(node, entry_of(held(health@), node.node_id), now, ttl_seconds)),
            views(r@) == kept(all, keep, i as nat),
        decreases nodes@.len() - i,
    {
        broadcast use lemma_views_push;

        assert(all[i as int] == nodes@[i as int]@);
        let known = find_entry(health, &nodes[i].node_id);
        if overlay_node_health_allows(&nodes[i], known, now, ttl_seconds) {
            r.push(nodes[i].duplicate());
        }
        i = i + 1;
    }
    r
}

/// The overlay as the listed nodes and their health make it up.
pub fn overlay_node_snapshot(
    cluster_id: &ClusterId,
    listed: &Vec<NodeRecord>,
    health: OrderedMap<NodeId, NodeHealth>,
    policy: &ClusterPolicy,
    routing_epoch: u64,
    generated_at: Timestamp,
) -> (r: OverlayNodeSnapshot)
    requires
        health.wf(),
    ensures
        r.wf(),
        r.generated_at == generated_at,
        r.routing_epoch == routing_epoch,
        r.health_ttl_seconds == policy.relay_health_ttl_seconds,
        views(r.nodes@) == backbone(views(listed@), cluster_id@),
        views(r.clients@) == clients_among(views(listed@), cluster_id@),
        held(r.health_by_node@) == health_among(held(health@), id_set(views(r.nodes@), r.nodes@.len())),
        r.topology_cache_key@ == topology_key(views(r.nodes@), cluster_id@, policy@),
{
    let nodes = backbone_nodes(listed, cluster_id);
    let clients = list_clients(listed, cluster_id);
    let ids = gather_ids(&nodes);
    let health_by_node = keep_health(health, &ids);
    let active_nodes = list_active(
        &nodes,
        &health_by_node,
        generated_at,
        policy.relay_health_ttl_seconds,
    );
    let members = ids.sorted();
    let topology_cache_key = OverlayTopologyCacheKey {
        membership_epoch: overlay_membership_epoch(&members),
        node_count: nodes.len(),
        block_size: policy.overlay_block_size,
        max_degree: policy.overlay_max_degree,
        permutation_seed: cluster_id.as_str().to_owned(),
    };
    let aggregate_routes = aggregate_overlay_routes(&nodes);
    let route_index = OverlayRouteIndex::build(&nodes);
    OverlayNodeSnapshot {
        generated_at,
        nodes,
        clients,
        health_by_node,
        active_nodes,
        health_ttl_seconds: policy.relay_health_ttl_seconds,
        topology_cache_key,
        aggregate_routes,
        route_index,
        routing_epoch,
    }
}

/// Whether a snapshot of this age can still be used: it is recent, and was made under the same
/// settings and for the same routing epoch.
pub fn snapshot_is_current(
    snapshot: &OverlayNodeSnapshot,
    age: Span,
    policy: &ClusterPolicy,
    routing_epoch: u64,
) -> (r: bool)
    ensures
        r == (age.len() <= OVERLAY_NODE_SNAPSHOT_CACHE_TTL_SECONDS * 1_000_000_000
            && snapshot.health_ttl_seconds == policy.relay_health_ttl_seconds
            && snapshot.topology_cache_key.block_size == policy.overlay_block_size
            && snapshot.topology_cache_key.max_degree == policy.overlay_max_degree
            && snapshot.routing_epoch == routing_epoch),
{
    age.total_nanos() <= Span::from_secs(OVERLAY_NODE_SNAPSHOT_CACHE_TTL_SECONDS).total_nanos()
        && snapshot.health_ttl_seconds == policy.relay_health_ttl_seconds
        && snapshot.topology_cache_key.block_size == policy.overlay_block_size
        && snapshot.topology_cache_key.max_degree == policy.overlay_max_degree
        && snapshot.routing_epoch == routing_epoch
}

/// Holds what was read for one routing epoch to the epoch that stands now.
pub fn ensure_routing_epoch(current: u64, expected: u64) -> (r: Result<(), ControlPlaneError>)
    ensures
        refusal(r) == (if current != expected {
            Some(ControlPlaneErrorView::OverlayRouteCatalogChanged)
        } else {
            None
        }),
{
    if current != expected {
        Err(ControlPlaneError::OverlayRouteCatalogChanged)
    } else {
        Ok(())
    }
}

/// How a neighbor is used.
#[derive(Debug, Clone, Copy, PartialEq, Eq, Structural)]
pub enum OverlayNeighborKind {
    BackbonePrimary,
    BackboneSecondary,
}

/// A neighbor of a node in the overlay.
#[derive(Debug)]
pub struct OverlayNeighbor {
    pub node: NodeRecord,
    pub kind: OverlayNeighborKind,
}

/// What an [`OverlayNeighbor`] holds.
#[verifier::ext_equal]
pub struct OverlayNeighborView {
    pub node: NodeRecordView,
    pub kind: OverlayNeighborKind,
}

impl View for OverlayNeighbor {
    type V = OverlayNeighborView;

    open spec fn view(&self) -> OverlayNeighborView {
        OverlayNeighborView { node: self.node@, kind: self.kind }
    }
}

/// How many of the neighbors are primary ones: the first half of them, rounded up.
pub open spec fn primary_count(n: nat) -> nat {
    (n + 1) / 2
}

/// A neighbor as a node is shown it: with what can be sent to, and without any routes.
pub open spec fn shown_neighbor(
    neighbor: NodeRecordView,
    position: nat,
    count: nat,
    policy: ClusterPolicyView,
    now: Timestamp,
) -> OverlayNeighborView {
    OverlayNeighborView {
        node: NodeRecordView { routes: Seq::empty(), ..served_node(neighbor, now, policy) },
        kind: if position < primary_count(count) {
            OverlayNeighborKind::BackbonePrimary
        } else {
            OverlayNeighborKind::BackboneSecondary
        },
    }
}

/// The first `n` of the neighbors, without those that are no nodes of the overlay.
pub open spec fn shown_neighbors(
    nodes: Seq<NodeRecordView>,
    neighbor_ids: Seq<Seq<char>>,
    policy: ClusterPolicyView,
    now: Timestamp,
    n: nat,
) -> Seq<OverlayNeighborView>
    decreases n,
{
    if n == 0 {
        Seq::empty()
    } else {
        let before = shown_neighbors(nodes, neighbor_ids, policy, now, (n - 1) as nat);
        match named(nodes, neighbor_ids[n - 1]) {
            Some(neighbor) => before.push(
                shown_neighbor(neighbor, (n - 1) as nat, neighbor_ids.len(), policy, now),
            ),
            None => before,
        }
    }
}

fn list_neighbors(
    nodes: &Vec<NodeRecord>,
    neighbor_ids: &Vec<NodeId>,
    policy: &ClusterPolicy,
    now: Timestamp,
) -> (r: Vec<OverlayNeighbor>)
    ensures
        views(r@) == shown_neighbors(
            views(nodes@),
            views(neighbor_ids@),
            policy@,
            now,
            neighbor_ids@.len(),
        ),
{
    let ghost all = views(nodes@);
    let ghost ids = views(neighbor_ids@);
    let primary: usize = neighbor_ids.len() / 2 + neighbor_ids.len() % 2;
    let mut r: Vec<OverlayNeighbor> = Vec::new();
    let mut i: usize = 0;
    assert(views(r@) =~= Seq::empty());
    while i < neighbor_ids.len()
        invariant
            i <= neighbor_ids@.len(),
            all == views(nodes@),
            ids == views(neighbor_ids@),
            primary == primary_count(neighbor_ids@.len()),
            views(r@) == shown_neighbors(all, ids, policy@, now, i as nat),
        decreases neighbor_ids@.len() - i,
    {
        broadcast use lemma_views_push;

        assert(ids[i as int] == neighbor_ids@[i as int]@);
        if let Some(neighbor) = find_node(nodes, &neighbor_ids[i]) {
            let mut node = filter_served_endpoint_candidates(neighbor.duplicate(), now, policy);
            node.routes = Vec::new();
            assert(views(node.routes@) =~= Seq::empty());
            let kind = if i < primary {
                OverlayNeighborKind::BackbonePrimary
            } else {
                OverlayNeighborKind::BackboneSecondary
            };
            let shown = OverlayNeighbor { node, kind };
            assert(shown@ =~= shown_neighbor(
                neighbor@,
                i as nat,
                neighbor_ids@.len(),
                policy@,
                now,
            ));
            r.push(shown);
        }
        i = i + 1;
    }
    r
}

/// The networks that are captured for the overlay: the route scopes of the policy where it has
/// any, else what the advertised routes make up.
pub open spec fn captured_networks(policy: ClusterPolicyView, aggregated: Seq<Cidr>) -> Seq<Cidr> {
    if policy.overlay_route_scopes.len() > 0 {
        policy.overlay_route_scopes
    } else {
        aggregated
    }
}

fn list_captured(policy: &ClusterPolicy, aggregated: &Vec<AggregateOverlayRoute>) -> (r: Vec<
    AggregateOverlayRoute,
>)
    ensures
        captured(r@) == captured_networks(policy@, captured(aggregated@)),
        r@.len() == captured(r@).len(),
{
    let mut r: Vec<AggregateOverlayRoute> = Vec::new();
    let mut i: usize = 0;
    if policy.overlay_route_scopes.len() > 0 {
        while i < policy.overlay_route_scopes.len()
            invariant
                i <= policy.overlay_route_scopes@.len(),
                r@.len() == i,
                forall|k: int|
                    0 <= k < i ==> (#[trigger] r@[k]).cidr == policy.overlay_route_scopes@[k],
            decreases policy.overlay_route_scopes@.len() - i,
        {
            r.push(AggregateOverlayRoute { cidr: policy.overlay_route_scopes[i] });
            i = i + 1;
        }
        assert(captured(r@) =~= policy@.overlay_route_scopes);
    } else {
        while i < aggregated.len()
            invariant
                i <= aggregated@.len(),
                r@.len() == i,
                forall|k: int| 0 <= k < i ==> (#[trigger] r@[k]).cidr == aggregated@[k].cidr,
            decreases aggregated@.len() - i,
        {
            r.push(AggregateOverlayRoute { cidr: aggregated[i].cidr });
            i = i + 1;
        }
        assert(captured(r@) =~= captured(aggregated@));
    }
    r
}

/// What the topology says of a node: its epoch, and the neighbors of the node where it is in it.
#[derive(Debug)]
pub struct TopologyNeighbors {
    pub topology_epoch: u64,
    pub neighbor_ids: Option<Vec<NodeId>>,
}

/// The part of the overlay that a node needs: its neighbors, and what is captured.
#[derive(Debug)]
pub struct NeighborMap {
    pub cluster_id: ClusterId,
    pub node_id: NodeId,
    pub topology_epoch: u64,
    pub routing_epoch: u64,
    pub max_degree: u16,
    pub on_demand_peer_limit: u16,
    pub vpn_cidr: Cidr,
    pub neighbors: Vec<OverlayNeighbor>,
    pub aggregate_routes: Vec<AggregateOverlayRoute>,
    pub client_route_peers: Vec<NodeRecord>,
    pub bootstrap_endpoints: Vec<BootstrapEndpoint>,
    pub generated_at: Timestamp,
}

/// The topology could not be built, or does not serve.
pub open spec fn topology_failure(reason: Seq<char>) -> Option<ControlPlaneErrorView> {
    Some(ControlPlaneErrorView::BoundedTopology { reason })
}

/// Why a node gets no neighbor map: it is not in the overlay, there is more to capture than a map
/// can hold, or the topology does not serve.
pub open spec fn neighbor_map_refusal(
    nodes: Seq<NodeRecordView>,
    aggregated: Seq<Cidr>,
    policy: ClusterPolicyView,
    node_id: Seq<char>,
    topology: Result<TopologyNeighbors, String>,
) -> Option<ControlPlaneErrorView> {
    let count = captured_networks(policy, aggregated).len();
    match named(nodes, node_id) {
        None => Some(ControlPlaneErrorView::NodeNotFound { node_id }),
        Some(source) => if role_is_client(source.role) {
            Some(
                ControlPlaneErrorView::NodeUpdateRejected {
                    node_id,
                    reason: "clients cannot join the bounded overlay backbone"@,
                },
            )
        } else if count > MAX_OVERLAY_ROUTE_SCOPES {
            topology_failure(
                "exact aggregate overlay route count "@ + decimal(count)
                    + " exceeds the neighbor-map limit "@ + decimal(MAX_OVERLAY_ROUTE_SCOPES as nat)
                    + "; configure route scopes instead of widening advertised networks"@,
            )
        } else {
            match topology {
                Err(reason) => topology_failure(reason@),
                Ok(neighbors) => if neighbors.neighbor_ids is None {
                    topology_failure("source node "@ + node_id + " is absent from topology"@)
                } else {
                    None
                },
            }
        },
    }
}

/// What a node is told of its neighbors.
pub open spec fn neighbor_map_says(
    map: NeighborMap,
    cluster_id: Seq<char>,
    vpn_pool: Cidr,
    snapshot: OverlayNodeSnapshot,
    policy: ClusterPolicyView,
    node_id: Seq<char>,
    topology: Result<TopologyNeighbors, String>,
    selections: Map<Seq<Seq<char>>, ClientGatewaySelectionView>,
    endpoints: Seq<BootstrapEndpointView>,
    now: Timestamp,
) -> bool {
    &&& map.cluster_id@ == cluster_id
    &&& map.node_id@ == node_id
    &&& map.topology_epoch == topology->Ok_0.topology_epoch
    &&& map.routing_epoch == snapshot.routing_epoch
    &&& map.max_degree == policy.overlay_max_degree
    &&& map.on_demand_peer_limit == policy.overlay_on_demand_peer_limit
    &&& map.vpn_cidr == vpn_pool
    &&& views(map.neighbors@) == shown_neighbors(
        views(snapshot.nodes@),
        opt_views(topology->Ok_0.neighbor_ids)->0,
        policy,
        now,
        opt_views(topology->Ok_0.neighbor_ids)->0.len(),
    )
    &&& captured(map.aggregate_routes@) == captured_networks(
        policy,
        captured(snapshot.aggregate_routes@),
    )
    &&& views(map.client_route_peers@) == client_projection(
        named(views(snapshot.nodes@), node_id)->0,
        views(snapshot.nodes@),
        views(snapshot.clients@),
        held(snapshot.health_by_node@),
        selections,
        policy,
        now,
    )
    &&& views(map.bootstrap_endpoints@) == endpoints
    &&& map.generated_at == snapshot.generated_at
}

/// The part of the overlay that a node needs.
pub fn neighbor_map_for(
    cluster_id: &ClusterId,
    vpn_pool: Cidr,
    snapshot: &OverlayNodeSnapshot,
    policy: &ClusterPolicy,
    node_id: &NodeId,
    topology: &Result<TopologyNeighbors, String>,
    selections: &OrderedMap<NodeId, ClientGatewaySelection>,
    bootstrap_endpoints: Vec<BootstrapEndpoint>,
    now: Timestamp,
) -> (r: Result<NeighborMap, ControlPlaneError>)
    requires
        snapshot.wf(),
        selections.wf(),
    ensures
        refusal(r) == neighbor_map_refusal(
            views(snapshot.nodes@),
            captured(snapshot.aggregate_routes@),
            policy@,
            node_id@,
            *topology,
        ),
        r matches Ok(map) ==> neighbor_map_says(
            map,
            cluster_id@,
            vpn_pool,
            *snapshot,
            policy@,
            node_id@,
            *topology,
            held(selections@),
            views(bootstrap_endpoints@),
            now,
        ),
{
    let source = match find_node(&snapshot.nodes, node_id) {
        Some(source) => source,
        None => return Err(ControlPlaneError::NodeNotFound { node_id: node_id.clone() }),
    };
    proof {
        crate::nodes::lemma_node_named(
            views(snapshot.nodes@),
            node_id@,
            views(snapshot.nodes@).len(),
        );
    }
    if source.role.is_client() {
        return Err(
            ControlPlaneError::NodeUpdateRejected {
                node_id: node_id.clone(),
                reason: "clients cannot join the bounded overlay backbone".to_owned(),
            },
        );
    }
    let aggregate_routes = list_captured(policy, &snapshot.aggregate_routes);
    if aggregate_routes.len() > MAX_OVERLAY_ROUTE_SCOPES {
        return Err(
            ControlPlaneError::BoundedTopology {
                reason: "exact aggregate overlay route count ".to_owned().concat(
                    decimal_text(aggregate_routes.len() as u64).as_str(),
                ).concat(" exceeds the neighbor-map limit ").concat(
                    decimal_text(MAX_OVERLAY_ROUTE_SCOPES as u64).as_str(),
                ).concat("; configure route scopes instead of widening advertised networks"),
            },
        );
    }
    let neighbors = match topology {
        Ok(neighbors) => neighbors,
        Err(reason) => {
            return Err(ControlPlaneError::BoundedTopology { reason: reason.clone() });
        },
    };
    let neighbor_ids = match &neighbors.neighbor_ids {
        Some(ids) => ids,
        None => {
            return Err(
                ControlPlaneError::BoundedTopology {
                    reason: "source node ".to_owned().concat(node_id.as_str()).concat(
                        " is absent from topology",
                    ),
                },
            );
        },
    };
    let shown = list_neighbors(&snapshot.nodes, neighbor_ids, policy, now);
    let client_route_peers = node_client_route_projection(
        source,
        &snapshot.nodes,
        &snapshot.clients,
        &snapshot.health_by_node,
        selections,
        policy,
        now,
    );
    Ok(
        NeighborMap {
            cluster_id: cluster_id.clone(),
            node_id: source.node_id.clone(),
            topology_epoch: neighbors.topology_epoch,
            routing_epoch: snapshot.routing_epoch,
            max_degree: policy.overlay_max_degree,
            on_demand_peer_limit: policy.overlay_on_demand_peer_limit,
            vpn_cidr: vpn_pool,
            neighbors: shown,
            aggregate_routes,
            client_route_peers,
            bootstrap_endpoints,
            generated_at: snapshot.generated_at,
        },
    )
}

/// The two ends of a path through the overlay.
#[derive(Debug)]
pub struct OverlayPathEnds {
    pub source: NodeRecord,
    pub target: NodeRecord,
}

/// The node that a source reaches a destination through. A source that is not part of the overlay
/// is not found.
pub fn overlay_path_ends(
    snapshot: &OverlayNodeSnapshot,
    policy: &ClusterPolicy,
    source: &NodeId,
    destination: IpAddr,
) -> (r: Result<OverlayPathEnds, ControlPlaneError>)
    requires
        snapshot.wf(),
    ensures
        match named(views(snapshot.active_nodes@), source@) {
            None => refusal(r) == Some(
                ControlPlaneErrorView::NodeNotFound { node_id: source@ },
            ),
            Some(from) => match destination_node(
                from,
                views(snapshot.nodes@),
                views(snapshot.active_nodes@),
                destination,
                policy@,
            ) {
                None => refusal(r) == Some(
                    ControlPlaneErrorView::OverlayDestinationNotFound { destination },
                ),
                Some(target) => r is Ok && r->Ok_0.source@ == from && r->Ok_0.target@ == target,
            },
        },
{
    let from = match find_node(&snapshot.active_nodes, source) {
        Some(from) => from,
        None => return Err(ControlPlaneError::NodeNotFound { node_id: source.clone() }),
    };
    match snapshot.route_index.resolve_destination(
        from,
        &snapshot.active_nodes,
        destination,
        policy,
    ) {
        Some(target) => Ok(OverlayPathEnds { source: from.duplicate(), target }),
        None => Err(ControlPlaneError::OverlayDestinationNotFound { destination }),
    }
}

/// The identifiers of the nodes that a path must avoid: those that are not part of the overlay.
pub open spec fn unavailable(
    nodes: Seq<NodeRecordView>,
    active: Seq<NodeRecordView>,
    id: Seq<char>,
) -> bool {
    named(nodes, id) is Some && named(active, id) is None
}

/// The identifiers of the nodes that a path must avoid, in ascending order.
pub fn unavailable_nodes(snapshot: &OverlayNodeSnapshot) -> (r: Vec<String>)
    ensures
        crate::ids::ascending_texts(views(r@)),
        forall|id: Seq<char>|
            views(r@).contains(id) <==> unavailable(
                views(snapshot.nodes@),
                views(snapshot.active_nodes@),
                id,
            ),
{
    let ghost all = views(snapshot.nodes@);
    let ghost active = views(snapshot.active_nodes@);
    let mut ids = NameSet::new();
    let mut i: usize = 0;
    while i < snapshot.nodes.len()
        invariant
            i <= snapshot.nodes@.len(),
            all == views(snapshot.nodes@),
            active == views(snapshot.active_nodes@),
            forall|id: Seq<char>| #[trigger]
                ids@.contains(id) <==> (exists|k: int|
                    0 <= k < i && (#[trigger] all[k]).node_id == id) && named(active, id) is None,
        decreases snapshot.nodes@.len() - i,
    {
        let ghost before = ids@;
        let ghost here = all[i as int].node_id;
        assert(here == snapshot.nodes@[i as int]@.node_id);
        let missing = find_node(&snapshot.active_nodes, &snapshot.nodes[i].node_id).is_none();
        if missing {
            ids.insert(snapshot.nodes[i].node_id.value.clone());
        }
        assert forall|id: Seq<char>| #[trigger] ids@.contains(id) <==> (exists|k: int|
            0 <= k < i + 1 && (#[trigger] all[k]).node_id == id) && named(active, id) is None by {
            if before.contains(id) {
                let k = choose|k: int| 0 <= k < i && (#[trigger] all[k]).node_id == id;
                assert(0 <= k < i + 1 && all[k].node_id == id);
            }
            if exists|k: int| 0 <= k < i + 1 && (#[trigger] all[k]).node_id == id {
                let k = choose|k: int| 0 <= k < i + 1 && (#[trigger] all[k]).node_id == id;
                if k < i {
                    assert(0 <= k < i && all[k].node_id == id);
                } else {
                    assert(id == here);
                }
            }
            if id == here {
                assert(0 <= i < i + 1 && all[i as int].node_id == id);
            }
        }
        i = i + 1;
    }
    proof {
        assert forall|id: Seq<char>| ids@.contains(id) <==> unavailable(all, active, id) by {
            crate::nodes::lemma_node_named(all, id, all.len());
            if named(all, id) is Some {
                let node = named(all, id)->0;
                let k = choose|k: int| 0 <= k < all.len() && all[k] == node;
                assert(0 <= k < all.len() && all[k].node_id == id);
            }
        }
    }
    ids.sorted()
}

/// What the topology says of the ways between two nodes.
#[derive(Debug)]
pub struct TopologyPaths {
    pub topology_epoch: u64,
    pub primary: Vec<NodeId>,
    pub secondary: Option<Vec<NodeId>>,
}

/// A path through the overlay.
#[derive(Debug)]
pub struct OverlayPath {
    pub topology_epoch: u64,
    pub routing_epoch: u64,
    pub source: NodeId,
    pub destination: IpAddr,
    pub target: NodeRecord,
    pub ordered_nodes: Vec<NodeId>,
    pub secondary_ordered_nodes: Option<Vec<NodeId>>,
    pub generated_at: Timestamp,
}

/// Why a source gets no path to a destination: it is not part of the overlay, no node that is part
/// of it has the destination, the topology could not be built, or it has no way that avoids the
/// nodes that are not available.
pub open spec fn overlay_path_refusal(
    nodes: Seq<NodeRecordView>,
    active: Seq<NodeRecordView>,
    policy: ClusterPolicyView,
    source: Seq<char>,
    destination: IpAddr,
    topology: Result<Option<TopologyPaths>, String>,
) -> Option<ControlPlaneErrorView> {
    match named(active, source) {
        None => Some(ControlPlaneErrorView::NodeNotFound { node_id: source }),
        Some(from) => match destination_node(from, nodes, active, destination, policy) {
            None => Some(ControlPlaneErrorView::OverlayDestinationNotFound { destination }),
            Some(target) => match topology {
                Err(reason) => topology_failure(reason@),
                Ok(None) => Some(
                    ControlPlaneErrorView::OverlayPathUnavailable {
                        source_node: from.node_id,
                        destination_node: target.node_id,
                    },
                ),
                Ok(Some(_)) => None,
            },
        },
    }
}

/// The path between two ends. `paths` is what the topology says, and nothing where it has no way
/// that avoids the nodes that are not available.
pub fn overlay_path_for(
    snapshot: &OverlayNodeSnapshot,
    policy: &ClusterPolicy,
    ends: OverlayPathEnds,
    destination: IpAddr,
    paths: Option<TopologyPaths>,
    now: Timestamp,
) -> (r: Result<OverlayPath, ControlPlaneError>)
    ensures
        refusal(r) == (if paths is None {
            Some(
                ControlPlaneErrorView::OverlayPathUnavailable {
                    source_node: ends.source@.node_id,
                    destination_node: ends.target@.node_id,
                },
            )
        } else {
            None
        }),
        r matches Ok(path) ==> {
            &&& path.topology_epoch == paths->0.topology_epoch
            &&& path.routing_epoch == snapshot.routing_epoch
            &&& path.source@ == ends.source@.node_id
            &&& path.destination == destination
            &&& path.target@ == served_node(ends.target@, now, policy@)
            &&& path.ordered_nodes == paths->0.primary
            &&& path.secondary_ordered_nodes == paths->0.secondary
            &&& path.generated_at == snapshot.generated_at
        },
{
    match paths {
        None => Err(
            ControlPlaneError::OverlayPathUnavailable {
                source_node: ends.source.node_id.clone(),
                destination_node: ends.target.node_id.clone(),
            },
        ),
        Some(paths) => Ok(
            OverlayPath {
                topology_epoch: paths.topology_epoch,
                routing_epoch: snapshot.routing_epoch,
                source: ends.source.node_id.clone(),
                destination,
                target: filter_served_endpoint_candidates(ends.target, now, policy),
                ordered_nodes: paths.primary,
                secondary_ordered_nodes: paths.secondary,
                generated_at: snapshot.generated_at,
            },
        ),
    }
}

/// The last step before a neighbor map or a path is handed out. `fault` is what the check of the
/// finished answer found wrong, where it found something: the answer is then withheld.
pub fn checked_answer<T>(answer: T, fault: Option<String>) -> (r: Result<T, ControlPlaneError>)
    ensures
        refusal(r) == match fault {
            None => None,
            Some(reason) => topology_failure(reason@),
        },
        r matches Ok(given) ==> given == answer,
{
    match fault {
        None => Ok(answer),
        Some(reason) => Err(ControlPlaneError::BoundedTopology { reason }),
    }
}

/// A topology that is kept, and whether it has been built.
#[derive(Debug)]
pub struct CachedTopology {
    pub key: OverlayTopologyCacheKey,
    pub initialized: bool,
}

/// The keys of the topologies that are built, and of the one that is wanted.
pub open spec fn worth_keeping(
    cached: Seq<CachedTopology>,
    wanted: OverlayTopologyCacheKeyView,
    n: nat,
) -> Seq<OverlayTopologyCacheKeyView>
    decreases n,
{
    if n == 0 {
        Seq::empty()
    } else {
        let before = worth_keeping(cached, wanted, (n - 1) as nat);
        if cached[n - 1].key@ == wanted || cached[n - 1].initialized {
            before.push(cached[n - 1].key@)
        } else {
            before
        }
    }
}

/// The position, where the key there is not the wanted one.
pub open spec fn other_at(
    keys: Seq<OverlayTopologyCacheKeyView>,
    wanted: OverlayTopologyCacheKeyView,
    i: int,
) -> Option<int> {
    if keys[i] != wanted {
        Some(i)
    } else {
        None
    }
}

/// The position of the first key that is not the wanted one.
pub open spec fn first_other(
    keys: Seq<OverlayTopologyCacheKeyView>,
    wanted: OverlayTopologyCacheKeyView,
) -> Option<int> {
    first_in(keys.len(), |i: int| other_at(keys, wanted, i))
}

/// The keys that stay: the first ones go until there is room for the wanted one, which stays where
/// it is among them.
pub open spec fn kept_topologies(
    keys: Seq<OverlayTopologyCacheKeyView>,
    wanted: OverlayTopologyCacheKeyView,
) -> Seq<OverlayTopologyCacheKeyView>
    decreases keys.len(),
{
    if !keys.contains(wanted) && keys.len() >= MAX_OVERLAY_TOPOLOGY_CACHE_ENTRIES {
        kept_topologies(keys.remove(0), wanted)
    } else if keys.len() > MAX_OVERLAY_TOPOLOGY_CACHE_ENTRIES && first_other(keys, wanted) is Some
        && 0 <= first_other(keys, wanted)->0 < keys.len() {
        kept_topologies(keys.remove(first_other(keys, wanted)->0), wanted)
    } else {
        keys
    }
}

fn find_key(keys: &Vec<OverlayTopologyCacheKey>, wanted: &OverlayTopologyCacheKey) -> (r: bool)
    ensures
        r == views(keys@).contains(wanted@),
{
    let ghost all = views(keys@);
    let mut i: usize = 0;
    while i < keys.len()
        invariant
            i <= keys@.len(),
            all == views(keys@),
            forall|k: int| 0 <= k < i ==> #[trigger] all[k] != wanted@,
        decreases keys@.len() - i,
    {
        assert(all[i as int] == keys@[i as int]@);
        if keys[i].alike(wanted) {
            return true;
        }
        i = i + 1;
    }
    false
}

fn find_other(keys: &Vec<OverlayTopologyCacheKey>, wanted: &OverlayTopologyCacheKey) -> (r: Option<
    usize,
>)
    ensures
        match r {
            Some(i) => first_other(views(keys@), wanted@) == Some(i as int) && i < keys@.len(),
            None => first_other(views(keys@), wanted@) is None,
        },
{
    let ghost all = views(keys@);
    let ghost f = |i: int| other_at(all, wanted@, i);
    let mut i: usize = 0;
    while i < keys.len()
        invariant
            i <= keys@.len(),
            all == views(keys@),
            f == (|i: int| other_at(all, wanted@, i)),
            first_in(i as nat, f) is None,
        decreases keys@.len() - i,
    {
        assert(all[i as int] == keys@[i as int]@);
        if !keys[i].alike(wanted) {
            proof {
                lemma_first_in_extends((i + 1) as nat, all.len(), f);
            }
            return Some(i);
        }
        i = i + 1;
    }
    None
}

/// The keys of the topologies that are kept when one is wanted. `cached` lists what is held in
/// ascending order of the keys.
pub fn topologies_to_keep(cached: &Vec<CachedTopology>, wanted: &OverlayTopologyCacheKey) -> (r: Vec<
    OverlayTopologyCacheKey,
>)
    ensures
        views(r@) == kept_topologies(worth_keeping(cached@, wanted@, cached@.len()), wanted@),
{
    let mut keys: Vec<OverlayTopologyCacheKey> = Vec::new();
    let mut i: usize = 0;
    assert(views(keys@) =~= Seq::empty());
    while i < cached.len()
        invariant
            i <= cached@.len(),
            views(keys@) == worth_keeping(cached@, wanted@, i as nat),
        decreases cached@.len() - i,
    {
        broadcast use lemma_views_push;

        if cached[i].key.alike(wanted) || cached[i].initialized {
            keys.push(cached[i].key.duplicate());
        }
        i = i + 1;
    }
    let ghost goal = kept_topologies(views(keys@), wanted@);
    while keys.len() >= MAX_OVERLAY_TOPOLOGY_CACHE_ENTRIES && !find_key(&keys, wanted)
        invariant
            kept_topologies(views(keys@), wanted@) == goal,
        decreases keys@.len(),
    {
        let ghost before = keys@;
        let gone = keys.remove(0);
        assert(views(keys@) =~= views(before).remove(0));
    }
    while keys.len() > MAX_OVERLAY_TOPOLOGY_CACHE_ENTRIES
        invariant
            kept_topologies(views(keys@), wanted@) == goal,
            keys@.len() < MAX_OVERLAY_TOPOLOGY_CACHE_ENTRIES || views(keys@).contains(wanted@),
        ensures
            views(keys@) == goal,
        decreases keys@.len(),
    {
        match find_other(&keys, wanted) {
            Some(k) => {
                let ghost before = views(keys@);
                let gone = keys.remove(k);
                assert(views(keys@) =~= before.remove(k as int));
                proof {
                    lemma_other_is_other(before, wanted@);
                    lemma_removal_keeps(before, wanted@, k as int);
                }
            },
            None => {
                break;
            },
        }
    }
    keys
}

proof fn lemma_other_is_other(
    keys: Seq<OverlayTopologyCacheKeyView>,
    wanted: OverlayTopologyCacheKeyView,
)
    ensures
        first_other(keys, wanted) matches Some(i) ==> 0 <= i < keys.len() && keys[i] != wanted,
        first_other(keys, wanted) is None ==> forall|i: int|
            0 <= i < keys.len() ==> #[trigger] keys[i] == wanted,
{
    let f = |i: int| other_at(keys, wanted, i);
    if first_in(keys.len(), f) is Some {
        let at = crate::lists::lemma_first_in_found(keys.len(), f);
    } else {
        crate::lists::lemma_first_in_none(keys.len(), f);
        assert forall|i: int| 0 <= i < keys.len() implies #[trigger] keys[i] == wanted by {
            assert(f(i) is None);
        }
    }
}

proof fn lemma_removal_keeps(
    keys: Seq<OverlayTopologyCacheKeyView>,
    wanted: OverlayTopologyCacheKeyView,
    at: int,
)
    requires
        keys.contains(wanted),
        0 <= at < keys.len(),
        keys[at] != wanted,
    ensures
        keys.remove(at).contains(wanted),
{
    let i = choose|i: int| 0 <= i < keys.len() && keys[i] == wanted;
    let j = if i < at { i } else { i - 1 };
    assert(keys.remove(at)[j] == wanted);
}

/// No two keys of the list are the same.
pub open spec fn keys_distinct(keys: Seq<OverlayTopologyCacheKeyView>) -> bool {
    forall|i: int, j: int| 0 <= i < j < keys.len() ==> #[trigger] keys[i] != #[trigger] keys[j]
}

/// However many topologies were kept, the wanted one stays, or there is room for it: with it, no
/// more are kept than there may be.
pub proof fn law_topology_cache_is_bounded(
    keys: Seq<OverlayTopologyCacheKeyView>,
    wanted: OverlayTopologyCacheKeyView,
)
    requires
        keys_distinct(keys),
    ensures
        kept_topologies(keys, wanted).contains(wanted) == keys.contains(wanted),
        kept_topologies(keys, wanted).len() + if keys.contains(wanted) { 0int } else { 1int }
            <= MAX_OVERLAY_TOPOLOGY_CACHE_ENTRIES,
    decreases keys.len(),
{
    lemma_other_is_other(keys, wanted);
    if !keys.contains(wanted) && keys.len() >= MAX_OVERLAY_TOPOLOGY_CACHE_ENTRIES {
        let rest = keys.remove(0);
        assert forall|i: int| 0 <= i < rest.len() implies rest[i] == keys[i + 1] by {}
        assert(!rest.contains(wanted)) by {
            if rest.contains(wanted) {
                let i = choose|i: int| 0 <= i < rest.len() && rest[i] == wanted;
                assert(keys[i + 1] == wanted);
            }
        }
        assert(keys_distinct(rest));
        law_topology_cache_is_bounded(rest, wanted);
    } else if keys.len() > MAX_OVERLAY_TOPOLOGY_CACHE_ENTRIES {
        if first_other(keys, wanted) is None {
            assert(keys[0] == wanted && keys[1] == wanted);
            assert(false);
        }
        let at = first_other(keys, wanted)->0;
        let rest = keys.remove(at);
        lemma_removal_keeps(keys, wanted, at);
        assert forall|i: int, j: int| 0 <= i < j < rest.len() implies #[trigger] rest[i]
            != #[trigger] rest[j] by {
            let x = if i < at { i } else { i + 1 };
            let y = if j < at { j } else { j + 1 };
            assert(rest[i] == keys[x] && rest[j] == keys[y]);
        }
        law_topology_cache_is_bounded(rest, wanted);
    }
}

/// The neighbors of a node are shown without any routes of theirs.
pub proof fn law_neighbors_bring_no_routes(
    nodes: Seq<NodeRecordView>,
    neighbor_ids: Seq<Seq<char>>,
    policy: ClusterPolicyView,
    now: Timestamp,
    n: nat,
)
    requires
        n <= neighbor_ids.len(),
    ensures
        shown_neighbors(nodes, neighbor_ids, policy, now, n).len() <= n,
        forall|i: int|
            0 <= i < shown_neighbors(nodes, neighbor_ids, policy, now, n).len() ==> (
            #[trigger] shown_neighbors(nodes, neighbor_ids, policy, now, n)[i]).node.routes.len()
                == 0,
    decreases n,
{
    if n > 0 {
        law_neighbors_bring_no_routes(nodes, neighbor_ids, policy, now, (n - 1) as nat);
    }
}

/// One of the nodes has the identifier.
pub open spec fn is_member(nodes: Seq<NodeRecordView>, id: Seq<char>) -> bool {
    exists|i: int| 0 <= i < nodes.len() && (#[trigger] nodes[i]).node_id == id
}

proof fn lemma_id_set(nodes: Seq<NodeRecordView>, n: nat, id: Seq<char>)
    requires
        n <= nodes.len(),
    ensures
        id_set(nodes, n).contains(id) <==> exists|i: int|
            0 <= i < n && (#[trigger] nodes[i]).node_id == id,
    decreases n,
{
    if n > 0 {
        lemma_id_set(nodes, (n - 1) as nat, id);
        assert(nodes[n - 1] == nodes[n - 1]);
    }
}

/// What the topology depends on is the set of the nodes, not the order in which they are listed,
/// and nothing else of the nodes than their identifiers.
pub proof fn law_topology_depends_on_the_members(
    nodes: Seq<NodeRecordView>,
    others: Seq<NodeRecordView>,
    cluster_id: Seq<char>,
    policy: ClusterPolicyView,
)
    requires
        nodes.len() == others.len(),
        forall|id: Seq<char>| #[trigger] is_member(nodes, id) <==> is_member(others, id),
    ensures
        topology_key(nodes, cluster_id, policy) == topology_key(others, cluster_id, policy),
{
    assert forall|id: Seq<char>|
        id_set(nodes, nodes.len()).contains(id) == id_set(others, others.len()).contains(id) by {
        lemma_id_set(nodes, nodes.len(), id);
        lemma_id_set(others, others.len(), id);
        assert(is_member(nodes, id) <==> is_member(others, id));
    }
    assert(id_set(nodes, nodes.len()) =~= id_set(others, others.len()));
}

/// A path is only ever given between two nodes that are part of the overlay, and never from a node
/// to itself.
pub proof fn law_path_ends_are_active(
    source: NodeRecordView,
    nodes: Seq<NodeRecordView>,
    active: Seq<NodeRecordView>,
    destination: IpAddr,
    policy: ClusterPolicyView,
)
    requires
        destination_node(source, nodes, active, destination, policy) is Some,
    ensures
        destination_node(source, nodes, active, destination, policy)->0.node_id != source.node_id,
        named(
            active,
            destination_node(source, nodes, active, destination, policy)->0.node_id,
        ) is Some,
{
    let ordered = crate::route_index::nodes_in_order(nodes);
    match crate::route_index::address_owner(ordered, destination, ordered.len()) {
        Some(owner) => {
            crate::nodes::lemma_node_named(active, owner, active.len());
        },
        None => {
            let routes = crate::route_index::indexed_routes(nodes);
            let f = |i: int|
                crate::route_index::reached_through(source, active, routes[i], destination, policy);
            let at = crate::lists::lemma_first_in_found(routes.len(), f);
            crate::nodes::lemma_node_named(active, routes[at].node_id, active.len());
        },
    }
}

/// Where a registered node stands among its neighbors decides what it is. The neighbors of a node are
/// those that the topology names, in its order, without routes: the i-th of `k` is a primary one
/// exactly where `2 * i < k`, so that the first half, rounded up, are primary and the others
/// secondary.
pub proof fn law_first_half_of_the_neighbors_is_primary(
    map: NeighborMap,
    cluster_id: Seq<char>,
    vpn_pool: Cidr,
    snapshot: OverlayNodeSnapshot,
    policy: ClusterPolicyView,
    node_id: Seq<char>,
    topology: Result<TopologyNeighbors, String>,
    selections: Map<Seq<Seq<char>>, ClientGatewaySelectionView>,
    endpoints: Seq<BootstrapEndpointView>,
    now: Timestamp,
)
    requires
        neighbor_map_says(
            map,
            cluster_id,
            vpn_pool,
            snapshot,
            policy,
            node_id,
            topology,
            selections,
            endpoints,
            now,
        ),
        topology is Ok,
        topology->Ok_0.neighbor_ids is Some,
        forall|i: int|
            0 <= i < topology->Ok_0.neighbor_ids->0@.len() ==> is_member(
                views(snapshot.nodes@),
                (#[trigger] topology->Ok_0.neighbor_ids->0@[i])@,
            ),
    ensures
        ({
            let ids = topology->Ok_0.neighbor_ids->0@;
            let k = ids.len();
            &&& map.neighbors@.len() == k
            &&& forall|i: int|
                0 <= i < k ==> (#[trigger] map.neighbors@[i])@.node.node_id == ids[i]@
                    && map.neighbors@[i]@.node.routes.len() == 0 && (map.neighbors@[i]@.kind
                    == OverlayNeighborKind::BackbonePrimary <==> 2 * i < k) && (
                map.neighbors@[i]@.kind == OverlayNeighborKind::BackboneSecondary <==> 2 * i >= k)
        }),
{
    let nodes = views(snapshot.nodes@);
    let ids = topology->Ok_0.neighbor_ids->0@;
    let names = opt_views(topology->Ok_0.neighbor_ids)->0;
    assert(names.len() == ids.len());
    assert forall|i: int| 0 <= i < names.len() implies is_member(nodes, #[trigger] names[i]) by {
        assert(names[i] == ids[i]@);
    }
    lemma_neighbors_in_order(nodes, names, policy, now, names.len());
    let shown = shown_neighbors(nodes, names, policy, now, names.len());
    assert(views(map.neighbors@).len() == map.neighbors@.len());
    assert forall|i: int| 0 <= i < ids.len() implies (#[trigger] map.neighbors@[i])@ == shown[i]
        && names[i] == ids[i]@ by {
        assert(views(map.neighbors@)[i] == map.neighbors@[i]@);
    }
}

proof fn lemma_neighbors_in_order(
    nodes: Seq<NodeRecordView>,
    ids: Seq<Seq<char>>,
    policy: ClusterPolicyView,
    now: Timestamp,
    n: nat,
)
    requires
        n <= ids.len(),
        forall|i: int| 0 <= i < ids.len() ==> is_member(nodes, #[trigger] ids[i]),
    ensures
        shown_neighbors(nodes, ids, policy, now, n).len() == n,
        forall|i: int|
            0 <= i < n ==> {
                let neighbor = #[trigger] shown_neighbors(nodes, ids, policy, now, n)[i];
                &&& neighbor.node.node_id == ids[i]
                &&& neighbor.node.routes.len() == 0
                &&& neighbor.kind == OverlayNeighborKind::BackbonePrimary <==> 2 * i < ids.len()
                &&& neighbor.kind == OverlayNeighborKind::BackboneSecondary <==> 2 * i
                    >= ids.len()
            },
    decreases n,
{
    if n > 0 {
        lemma_neighbors_in_order(nodes, ids, policy, now, (n - 1) as nat);
        assert(is_member(nodes, ids[n - 1]));
        lemma_named(nodes, ids[n - 1], nodes.len());
    }
}

proof fn lemma_named(nodes: Seq<NodeRecordView>, id: Seq<char>, n: nat)
    requires
        n <= nodes.len(),
    ensures
        crate::nodes::node_named(nodes, id, n) is Some <==> exists|i: int|
            0 <= i < n && (#[trigger] nodes[i]).node_id == id,
        crate::nodes::node_named(nodes, id, n) matches Some(node) ==> node.node_id == id
            && nodes.contains(node),
    decreases n,
{
    if n > 0 {
        lemma_named(nodes, id, (n - 1) as nat);
        assert(nodes.contains(nodes[n - 1]));
    }
}

/// Each neighbor that is shown is a registered one that the topology names, as it is registered but
/// without routes and with only those endpoint candidates that may be served; each one that is named
/// and registered is shown. Which kind it is goes by where the topology names it, also where others
/// that it names are not registered.
pub proof fn law_neighbors_are_those_of_the_topology(
    nodes: Seq<NodeRecordView>,
    ids: Seq<Seq<char>>,
    policy: ClusterPolicyView,
    now: Timestamp,
    n: nat,
)
    requires
        n <= ids.len(),
    ensures
        forall|i: int|
            0 <= i < shown_neighbors(nodes, ids, policy, now, n).len() ==> neighbor_within(
                nodes,
                ids,
                policy,
                now,
                n,
                #[trigger] shown_neighbors(nodes, ids, policy, now, n)[i],
            ),
        forall|p: int|
            0 <= p < n && is_member(nodes, #[trigger] ids[p]) ==> exists|i: int|
                0 <= i < shown_neighbors(nodes, ids, policy, now, n).len() && neighbor_at(
                    nodes,
                    ids,
                    policy,
                    now,
                    p,
                    #[trigger] shown_neighbors(nodes, ids, policy, now, n)[i],
                ),
    decreases n,
{
    if n > 0 {
        law_neighbors_are_those_of_the_topology(nodes, ids, policy, now, (n - 1) as nat);
        let before = shown_neighbors(nodes, ids, policy, now, (n - 1) as nat);
        let shown = shown_neighbors(nodes, ids, policy, now, n);
        lemma_named(nodes, ids[n - 1], nodes.len());
        if named(nodes, ids[n - 1]) is Some {
            lemma_neighbor_at(nodes, ids, policy, now, (n - 1) as nat);
            let last = shown[before.len() as int];
            assert(neighbor_at(nodes, ids, policy, now, n - 1, last));
        }
        assert forall|i: int| 0 <= i < shown.len() implies neighbor_within(
            nodes,
            ids,
            policy,
            now,
            n,
            #[trigger] shown[i],
        ) by {
            if i < before.len() {
                assert(before[i] == shown[i]);
                assert(neighbor_within(nodes, ids, policy, now, (n - 1) as nat, before[i]));
                let p = choose|p: int|
                    0 <= p < n - 1 && #[trigger] neighbor_at(nodes, ids, policy, now, p, before[i]);
                assert(neighbor_at(nodes, ids, policy, now, p, shown[i]));
            } else {
                assert(neighbor_at(nodes, ids, policy, now, n - 1, shown[i]));
            }
        }
        assert forall|p: int| 0 <= p < n && is_member(nodes, #[trigger] ids[p]) implies exists|
            i: int,
        |
            0 <= i < shown.len() && neighbor_at(
                nodes,
                ids,
                policy,
                now,
                p,
                #[trigger] shown[i],
            ) by {
            if p < n - 1 {
                let i = choose|i: int|
                    0 <= i < before.len() && neighbor_at(
                        nodes,
                        ids,
                        policy,
                        now,
                        p,
                        #[trigger] before[i],
                    );
                assert(shown[i] == before[i]);
            } else {
                assert(neighbor_at(
                    nodes,
                    ids,
                    policy,
                    now,
                    p,
                    shown[before.len() as int],
                ));
            }
        }
    }
}

/// A neighbor is the registered node as it may be served, without routes.
pub open spec fn is_registered_neighbor(
    nodes: Seq<NodeRecordView>,
    policy: ClusterPolicyView,
    now: Timestamp,
    node: NodeRecordView,
    neighbor: OverlayNeighborView,
) -> bool {
    &&& nodes.contains(node)
    &&& neighbor.node == NodeRecordView {
        routes: Seq::empty(),
        endpoint_candidates: neighbor.node.endpoint_candidates,
        ..node
    }
    &&& forall|c: crate::types::EndpointCandidateView| #[trigger]
        neighbor.node.endpoint_candidates.contains(c) <==> node.endpoint_candidates.contains(c)
            && c.endpoint.usable && now.at() <= c.observed_at.at()
            + policy.endpoint_candidate_ttl_seconds * 1_000_000_000
}

/// A neighbor is the one that the topology names at a position.
#[verifier::opaque]
pub open spec fn neighbor_at(
    nodes: Seq<NodeRecordView>,
    ids: Seq<Seq<char>>,
    policy: ClusterPolicyView,
    now: Timestamp,
    p: int,
    neighbor: OverlayNeighborView,
) -> bool {
    &&& neighbor.node.node_id == ids[p]
    &&& exists|node: NodeRecordView|
        is_registered_neighbor(nodes, policy, now, node, neighbor)
    &&& neighbor.kind == if 2 * p < ids.len() {
        OverlayNeighborKind::BackbonePrimary
    } else {
        OverlayNeighborKind::BackboneSecondary
    }
}

/// A neighbor is one of the first `n` that the topology names.
pub open spec fn neighbor_within(
    nodes: Seq<NodeRecordView>,
    ids: Seq<Seq<char>>,
    policy: ClusterPolicyView,
    now: Timestamp,
    n: nat,
    neighbor: OverlayNeighborView,
) -> bool {
    exists|p: int| 0 <= p < n && #[trigger] neighbor_at(nodes, ids, policy, now, p, neighbor)
}

proof fn lemma_neighbor_at(
    nodes: Seq<NodeRecordView>,
    ids: Seq<Seq<char>>,
    policy: ClusterPolicyView,
    now: Timestamp,
    p: nat,
)
    requires
        p < ids.len(),
        named(nodes, ids[p as int]) is Some,
    ensures
        neighbor_at(
            nodes,
            ids,
            policy,
            now,
            p as int,
            shown_neighbor(named(nodes, ids[p as int])->0, p, ids.len(), policy, now),
        ),
{
    reveal(neighbor_at);
    let node = named(nodes, ids[p as int])->0;
    let neighbor = shown_neighbor(node, p, ids.len(), policy, now);
    lemma_named(nodes, ids[p as int], nodes.len());
    let keep = |c: crate::types::EndpointCandidateView|
        crate::nodes::served_candidate(c, now, policy);
    crate::lists::lemma_kept_members(node.endpoint_candidates, keep);
    assert forall|c: crate::types::EndpointCandidateView| #[trigger]
        neighbor.node.endpoint_candidates.contains(c) <==> node.endpoint_candidates.contains(c)
            && c.endpoint.usable && now.at() <= c.observed_at.at()
            + policy.endpoint_candidate_ttl_seconds * 1_000_000_000 by {
        assert(neighbor.node.endpoint_candidates.contains(c) <==> node.endpoint_candidates.contains(
            c,
        ) && keep(c));
    }
    assert(is_registered_neighbor(nodes, policy, now, node, neighbor));
}

/// A node takes part in the overlay exactly where it did not report to be unhealthy nor report too
/// long ago; one that never reported takes part until the same time after it registered.
pub proof fn law_active_nodes_are_not_known_to_be_down(
    nodes: Seq<NodeRecordView>,
    health: Map<Seq<Seq<char>>, NodeHealthView>,
    now: Timestamp,
    ttl_seconds: u64,
    node: NodeRecordView,
)
    ensures
        active_among(nodes, health, now, ttl_seconds).contains(node) <==> nodes.contains(node) && (
        health.dom().contains(seq![node.node_id]) ==> health[seq![node.node_id]].state
            != crate::types::HealthState::Unhealthy && now.at()
            <= health[seq![node.node_id]].last_seen_at.at() + ttl_seconds * 1_000_000_000) && (
        !health.dom().contains(seq![node.node_id]) ==> now.at() <= node.registered_at.at()
            + ttl_seconds * 1_000_000_000),
{
    let keep = |node: NodeRecordView|
        part_of_overlay(node, entry_of(health, node.node_id), now, ttl_seconds);
    crate::lists::lemma_kept_members(nodes, keep);
    assert(active_among(nodes, health, now, ttl_seconds).contains(node) <==> nodes.contains(node)
        && keep(node));
}

/// The clients of a snapshot are those of the cluster, and the health of a snapshot is that of its
/// nodes as they reported it.
pub proof fn law_snapshot_is_of_the_cluster(
    listed: Seq<NodeRecordView>,
    cluster_id: Seq<char>,
    health: Map<Seq<Seq<char>>, NodeHealthView>,
    ids: Set<Seq<char>>,
    node: NodeRecordView,
)
    ensures
        clients_among(listed, cluster_id).contains(node) <==> listed.contains(node)
            && node.cluster_id == cluster_id && node.role == "client"@,
        health_among(health, ids).dom().contains(seq![node.node_id]) <==> health.dom().contains(
            seq![node.node_id],
        ) && ids.contains(node.node_id),
        health_among(health, ids).dom().contains(seq![node.node_id]) ==> health_among(
            health,
            ids,
        )[seq![node.node_id]] == health[seq![node.node_id]],
{
    let keep = |node: NodeRecordView| node.cluster_id == cluster_id && role_is_client(node.role);
    crate::lists::lemma_kept_members(listed, keep);
    assert(clients_among(listed, cluster_id).contains(node) <==> listed.contains(node) && keep(
        node,
    ));
}

/// The networks that the overlay captures are the configured scopes where there are any, and else
/// those that its nodes advertise.
pub proof fn law_configured_scopes_are_captured(policy: ClusterPolicyView, aggregated: Seq<Cidr>)
    ensures
        policy.overlay_route_scopes.len() > 0 ==> captured_networks(policy, aggregated)
            == policy.overlay_route_scopes,
        policy.overlay_route_scopes.len() == 0 ==> captured_networks(policy, aggregated)
            == aggregated,
{
}

/// Neighbors are told exactly to a registered node, where the networks can be captured and the
/// topology has the node.
pub proof fn law_neighbors_are_told_to_nodes(
    nodes: Seq<NodeRecordView>,
    aggregated: Seq<Cidr>,
    policy: ClusterPolicyView,
    node_id: Seq<char>,
    topology: Result<TopologyNeighbors, String>,
)
    ensures
        neighbor_map_refusal(nodes, aggregated, policy, node_id, topology) is None <==> {
            &&& named(nodes, node_id) is Some
            &&& named(nodes, node_id)->0.role != "client"@
            &&& if policy.overlay_route_scopes.len() > 0 {
                policy.overlay_route_scopes.len() <= 64
            } else {
                aggregated.len() <= 64
            }
            &&& topology is Ok
            &&& topology->Ok_0.neighbor_ids is Some
        },
        named(nodes, node_id) is None ==> neighbor_map_refusal(
            nodes,
            aggregated,
            policy,
            node_id,
            topology,
        ) == Some(ControlPlaneErrorView::NodeNotFound { node_id }),
{
}

/// A path is given exactly from an active node to a destination that it can reach, where the topology
/// has a path to it; nodes are left out of paths exactly where they are registered but not active.
pub proof fn law_paths_are_given_to_reachable_destinations(
    nodes: Seq<NodeRecordView>,
    active: Seq<NodeRecordView>,
    policy: ClusterPolicyView,
    source: Seq<char>,
    destination: IpAddr,
    topology: Result<Option<TopologyPaths>, String>,
    id: Seq<char>,
)
    ensures
        overlay_path_refusal(nodes, active, policy, source, destination, topology) is None <==> {
            &&& named(active, source) is Some
            &&& destination_node(
                named(active, source)->0,
                nodes,
                active,
                destination,
                policy,
            ) is Some
            &&& topology is Ok
            &&& topology->Ok_0 is Some
        },
        unavailable(nodes, active, id) <==> is_member(nodes, id) && !is_member(active, id),
{
    lemma_named(nodes, id, nodes.len());
    lemma_named(active, id, active.len());
}

/// A topology is worth keeping exactly where it is built or is the one that is wanted.
pub proof fn law_built_topologies_are_worth_keeping(
    cached: Seq<CachedTopology>,
    wanted: OverlayTopologyCacheKeyView,
    n: nat,
    key: OverlayTopologyCacheKeyView,
)
    requires
        n <= cached.len(),
    ensures
        worth_keeping(cached, wanted, n).contains(key) <==> exists|i: int|
            0 <= i < n && (#[trigger] cached[i]).key@ == key && (key == wanted
                || cached[i].initialized),
    decreases n,
{
    if n > 0 {
        let m = (n - 1) as nat;
        law_built_topologies_are_worth_keeping(cached, wanted, m, key);
        let before = worth_keeping(cached, wanted, m);
        let all = worth_keeping(cached, wanted, n);
        if all.contains(key) {
            let k = choose|k: int| 0 <= k < all.len() && all[k] == key;
            if k < before.len() {
                assert(before[k] == key);
                assert(before.contains(key));
                let i = choose|i: int|
                    0 <= i < m && (#[trigger] cached[i]).key@ == key && (key == wanted
                        || cached[i].initialized);
                assert(cached[i].key@ == key);
            } else {
                assert(cached[n - 1].key@ == key);
            }
        }
        if exists|i: int|
            0 <= i < n && (#[trigger] cached[i]).key@ == key && (key == wanted
                || cached[i].initialized) {
            let i = choose|i: int|
                0 <= i < n && (#[trigger] cached[i]).key@ == key && (key == wanted
                    || cached[i].initialized);
            if i < m {
                assert(cached[i].key@ == key);
                assert(before.contains(key));
                let k = choose|k: int| 0 <= k < before.len() && before[k] == key;
                assert(all[k] == key);
            } else {
                assert(all[before.len() as int] == key);
            }
        }
    }
}

/// Where there is room for the wanted topology, none is given up; where there is not, the ones that
/// were kept longest go first, and no more of them than needed.
pub proof fn law_oldest_topologies_are_given_up(
    keys: Seq<OverlayTopologyCacheKeyView>,
    wanted: OverlayTopologyCacheKeyView,
)
    ensures
        keys.contains(wanted) && keys.len() <= 4 ==> kept_topologies(keys, wanted) == keys,
        !keys.contains(wanted) && keys.len() < 4 ==> kept_topologies(keys, wanted) == keys,
        !keys.contains(wanted) && keys.len() >= 4 ==> kept_topologies(keys, wanted) == keys.skip(
            keys.len() - 3,
        ),
    decreases keys.len(),
{
    if !keys.contains(wanted) && keys.len() >= 4 {
        let fewer = keys.remove(0);
        assert(fewer =~= keys.skip(1));
        if fewer.contains(wanted) {
            let k = choose|k: int| 0 <= k < fewer.len() && fewer[k] == wanted;
            assert(keys[k + 1] == wanted);
        }
        law_oldest_topologies_are_given_up(fewer, wanted);
        if fewer.len() >= 4 {
            assert(fewer.skip(fewer.len() - 3) =~= keys.skip(keys.len() - 3));
        } else {
            assert(fewer =~= keys.skip(keys.len() - 3));
        }
    }
}

/// A topology is told apart by its members, by how many they are, by the block size and the degree of
/// the policy, and by the cluster that it is for.
pub proof fn law_topologies_are_told_apart_by_policy_and_cluster(
    nodes: Seq<NodeRecordView>,
    cluster_id: Seq<char>,
    policy: ClusterPolicyView,
)
    requires
        nodes.len() <= usize::MAX,
    ensures
        topology_key(nodes, cluster_id, policy).permutation_seed == cluster_id,
        topology_key(nodes, cluster_id, policy).block_size == policy.overlay_block_size,
        topology_key(nodes, cluster_id, policy).max_degree == policy.overlay_max_degree,
        topology_key(nodes, cluster_id, policy).node_count == nodes.len(),
        topology_key(nodes, cluster_id, policy).membership_epoch == membership_epoch(
            sorted_names(id_set(nodes, nodes.len())),
        ),
{
}

} // verus!
