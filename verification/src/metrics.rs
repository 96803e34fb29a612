//! What the control plane counts.

use vstd::prelude::*;

use crate::acl::{acl_allows_peer, acl_allows_route, peer_allowed, route_allowed};
use crate::config::ControlPlaneConfig;
use crate::directory::{
    full_owners, full_service_owner_node_count, law_owners_offer_what_their_services_have, owners,
    owners_offering,
    service_instance_kind_count, service_owner_count, ServiceDirectory,
};
use crate::ids::{role_is_client, ClusterId, NodeId, ScopedName};
use crate::lists::{
    added, how_many, lemma_gathered_members, lemma_how_many, lemma_how_many_alike,
    lemma_how_many_all, lemma_how_many_kept, lemma_how_many_places, lemma_how_many_split,
    lemma_kept_len, lemma_sizes_add_up, places, tagged,
};
use crate::map::{
    held, lemma_held_insert, lemma_listing, listed, sorted_keys, value_list, OrderedMap, TextKey,
};
use crate::net::{Cidr, IpAddr};
use crate::nodes::{
    endpoint_candidate_is_fresh, entry_of, find_entry, may_relay, relay_candidate_allowed,
};
use crate::peer_maps::{list_nodes, workers};
use crate::store::two;
use crate::time::{fresh, timestamp_is_fresh, Timestamp};
use crate::topology::{all_states, path_is_fresh};
use crate::types::{
    views, AclRuleView, BootstrapEndpointKind, ClusterPolicy, ClusterPolicyView,
    EndpointCandidateView, HealthState, NatClassification, NatClassificationView, NodeHealth,
    NodeHealthView, NodeRecord, NodeRecordView, PathRecord, PathRecordView, PathState, Record,
    RouteView, ServiceInstanceView,
};
use crate::vpn::{
    assigned_addresses, assigned_ipv4_vpn_ips, pool_first, pool_last, usable_host,
    vpn_pool_contains_usable_host, vpn_pool_usable_host_count,
};

verus! {

/// How often keys were rotated and nodes removed, with and without success. The counts start anew
/// after the highest number.
#[derive(Debug, Clone, Copy, PartialEq, Eq, Structural)]
pub struct ControlPlaneOperationMetrics {
    pub wireguard_key_rotation_success_count: u64,
    pub wireguard_key_rotation_failure_count: u64,
    pub node_removal_success_count: u64,
    pub node_removal_failure_count: u64,
}

/// The count after one more.
pub open spec fn one_more(count: u64) -> u64 {
    if count == u64::MAX {
        0
    } else {
        (count + 1) as u64
    }
}

fn count_up(count: u64) -> (r: u64)
    ensures
        r == one_more(count),
{
    count.wrapping_add(1)
}

impl ControlPlaneOperationMetrics {
    /// Nothing counted yet.
    pub fn new() -> (r: Self)
        ensures
            r.wireguard_key_rotation_success_count == 0,
            r.wireguard_key_rotation_failure_count == 0,
            r.node_removal_success_count == 0,
            r.node_removal_failure_count == 0,
    {
        ControlPlaneOperationMetrics {
            wireguard_key_rotation_success_count: 0,
            wireguard_key_rotation_failure_count: 0,
            node_removal_success_count: 0,
            node_removal_failure_count: 0,
        }
    }

    /// Counts a rotation of a key.
    pub fn record_wireguard_key_rotation(&mut self, success: bool)
        ensures
            *final(self) == (ControlPlaneOperationMetrics {
                wireguard_key_rotation_success_count: if success {
                    one_more(old(self).wireguard_key_rotation_success_count)
                } else {
                    old(self).wireguard_key_rotation_success_count
                },
                wireguard_key_rotation_failure_count: if success {
                    old(self).wireguard_key_rotation_failure_count
                } else {
                    one_more(old(self).wireguard_key_rotation_failure_count)
                },
                ..*old(self)
            }),
    {
        if success {
            self.wireguard_key_rotation_success_count = count_up(
                self.wireguard_key_rotation_success_count,
            );
        } else {
            self.wireguard_key_rotation_failure_count = count_up(
                self.wireguard_key_rotation_failure_count,
            );
        }
    }

    /// Counts a removal of a node.
    pub fn record_node_removal(&mut self, success: bool)
        ensures
            *final(self) == (ControlPlaneOperationMetrics {
                node_removal_success_count: if success {
                    one_more(old(self).node_removal_success_count)
                } else {
                    old(self).node_removal_success_count
                },
                node_removal_failure_count: if success {
                    old(self).node_removal_failure_count
                } else {
                    one_more(old(self).node_removal_failure_count)
                },
                ..*old(self)
            }),
    {
        if success {
            self.node_removal_success_count = count_up(self.node_removal_success_count);
        } else {
            self.node_removal_failure_count = count_up(self.node_removal_failure_count);
        }
    }

    /// The counts as they stand.
    pub fn snapshot(&self) -> (r: ControlPlaneOperationMetrics)
        ensures
            r == *self,
    {
        *self
    }
}

/// How many peers and routes nodes could see, and how many they may.
#[derive(Debug, Clone, Copy, PartialEq, Eq, Structural)]
pub struct PeerMapVisibilityMetrics {
    pub peer_candidates: usize,
    pub visible_peers: usize,
    pub acl_denied_peers: usize,
    pub route_candidates: usize,
    pub visible_routes: usize,
    pub acl_denied_routes: usize,
}

/// What [`PeerMapVisibilityMetrics`] count, without a limit.
pub struct VisibilityTally {
    pub peer_candidates: nat,
    pub visible_peers: nat,
    pub acl_denied_peers: nat,
    pub route_candidates: nat,
    pub visible_routes: nat,
    pub acl_denied_routes: nat,
}

impl VisibilityTally {
    /// Nothing counted.
    pub open spec fn zero() -> VisibilityTally {
        VisibilityTally {
            peer_candidates: 0,
            visible_peers: 0,
            acl_denied_peers: 0,
            route_candidates: 0,
            visible_routes: 0,
            acl_denied_routes: 0,
        }
    }

    /// Two tallies together.
    pub open spec fn plus(self, other: VisibilityTally) -> VisibilityTally {
        VisibilityTally {
            peer_candidates: self.peer_candidates + other.peer_candidates,
            visible_peers: self.visible_peers + other.visible_peers,
            acl_denied_peers: self.acl_denied_peers + other.acl_denied_peers,
            route_candidates: self.route_candidates + other.route_candidates,
            visible_routes: self.visible_routes + other.visible_routes,
            acl_denied_routes: self.acl_denied_routes + other.acl_denied_routes,
        }
    }

    /// Each candidate is either visible or denied.
    pub open spec fn balanced(self) -> bool {
        self.visible_peers + self.acl_denied_peers == self.peer_candidates && self.visible_routes
            + self.acl_denied_routes == self.route_candidates
    }
}

impl View for PeerMapVisibilityMetrics {
    type V = VisibilityTally;

    open spec fn view(&self) -> VisibilityTally {
        VisibilityTally {
            peer_candidates: self.peer_candidates as nat,
            visible_peers: self.visible_peers as nat,
            acl_denied_peers: self.acl_denied_peers as nat,
            route_candidates: self.route_candidates as nat,
            visible_routes: self.visible_routes as nat,
            acl_denied_routes: self.acl_denied_routes as nat,
        }
    }
}

/// How many routes of the target the source may use.
pub open spec fn usable_routes(
    source: NodeRecordView,
    target: NodeRecordView,
    rules: Seq<AclRuleView>,
    n: nat,
) -> nat {
    how_many(target.routes, |route: RouteView| route_allowed(source, target, route, rules), n)
}

/// What one node could see of another.
pub open spec fn pair_tally(
    source: NodeRecordView,
    target: NodeRecordView,
    rules: Seq<AclRuleView>,
) -> VisibilityTally {
    let routes = target.routes.len();
    let usable = usable_routes(source, target, rules, routes);
    if source.node_id == target.node_id {
        VisibilityTally::zero()
    } else if rules.len() == 0 {
        VisibilityTally {
            peer_candidates: 1,
            visible_peers: 1,
            acl_denied_peers: 0,
            route_candidates: routes,
            visible_routes: routes,
            acl_denied_routes: 0,
        }
    } else {
        let visible = peer_allowed(source, target, rules) || usable > 0;
        VisibilityTally {
            peer_candidates: 1,
            visible_peers: if visible { 1 } else { 0 },
            acl_denied_peers: if visible { 0 } else { 1 },
            route_candidates: routes,
            visible_routes: usable,
            acl_denied_routes: (routes - usable) as nat,
        }
    }
}

/// What a node could see of the first `m` of the nodes.
pub open spec fn row_tally(
    source: NodeRecordView,
    nodes: Seq<NodeRecordView>,
    rules: Seq<AclRuleView>,
    m: nat,
) -> VisibilityTally
    decreases m,
{
    if m == 0 {
        VisibilityTally::zero()
    } else {
        row_tally(source, nodes, rules, (m - 1) as nat).plus(
            pair_tally(source, nodes[m - 1], rules),
        )
    }
}

/// What the first `n` of the nodes could see of all of them.
pub open spec fn visibility_tally(
    nodes: Seq<NodeRecordView>,
    rules: Seq<AclRuleView>,
    n: nat,
) -> VisibilityTally
    decreases n,
{
    if n == 0 {
        VisibilityTally::zero()
    } else {
        visibility_tally(nodes, rules, (n - 1) as nat).plus(
            row_tally(nodes[n - 1], nodes, rules, nodes.len()),
        )
    }
}

proof fn lemma_row(
    source: NodeRecordView,
    nodes: Seq<NodeRecordView>,
    rules: Seq<AclRuleView>,
    m: nat,
    n: nat,
)
    requires
        m <= n,
    ensures
        row_tally(source, nodes, rules, m).balanced(),
        row_tally(source, nodes, rules, n).balanced(),
        row_tally(source, nodes, rules, m).peer_candidates <= row_tally(
            source,
            nodes,
            rules,
            n,
        ).peer_candidates,
        row_tally(source, nodes, rules, m).route_candidates <= row_tally(
            source,
            nodes,
            rules,
            n,
        ).route_candidates,
    decreases n,
{
    if n > 0 {
        lemma_pair(source, nodes[n - 1], rules);
        if m < n {
            lemma_row(source, nodes, rules, m, (n - 1) as nat);
        } else {
            lemma_row(source, nodes, rules, (n - 1) as nat, (n - 1) as nat);
        }
    }
}

proof fn lemma_pair(source: NodeRecordView, target: NodeRecordView, rules: Seq<AclRuleView>)
    ensures
        pair_tally(source, target, rules).balanced(),
{
    lemma_how_many(
        target.routes,
        |route: RouteView| route_allowed(source, target, route, rules),
        target.routes.len(),
    );
}

proof fn lemma_total(nodes: Seq<NodeRecordView>, rules: Seq<AclRuleView>, m: nat, n: nat)
    requires
        m <= n,
    ensures
        visibility_tally(nodes, rules, m).balanced(),
        visibility_tally(nodes, rules, n).balanced(),
        visibility_tally(nodes, rules, m).peer_candidates <= visibility_tally(
            nodes,
            rules,
            n,
        ).peer_candidates,
        visibility_tally(nodes, rules, m).route_candidates <= visibility_tally(
            nodes,
            rules,
            n,
        ).route_candidates,
    decreases n,
{
    if n > 0 {
        lemma_row(nodes[n - 1], nodes, rules, nodes.len(), nodes.len());
        if m < n {
            lemma_total(nodes, rules, m, (n - 1) as nat);
        } else {
            lemma_total(nodes, rules, (n - 1) as nat, (n - 1) as nat);
        }
    }
}

fn count_usable_routes(source: &NodeRecord, target: &NodeRecord, policy: &ClusterPolicy) -> (r:
    usize)
    ensures
        r == usable_routes(source@, target@, policy@.acl_rules, target@.routes.len()),
        r <= target@.routes.len(),
{
    let ghost all = target@.routes;
    let ghost f = |route: RouteView| route_allowed(source@, target@, route, policy@.acl_rules);
    let mut count: usize = 0;
    let mut i: usize = 0;
    while i < target.routes.len()
        invariant
            i <= target.routes@.len(),
            all == views(target.routes@),
            f == (|route: RouteView| route_allowed(source@, target@, route, policy@.acl_rules)),
            count == how_many(all, f, i as nat),
            count <= i,
        decreases target.routes@.len() - i,
    {
        assert(all[i as int] == target.routes@[i as int]@);
        if acl_allows_route(source, target, &target.routes[i], policy) {
            count = count + 1;
        }
        i = i + 1;
    }
    count
}

fn count_pair(source: &NodeRecord, target: &NodeRecord, policy: &ClusterPolicy) -> (r:
    PeerMapVisibilityMetrics)
    ensures
        r@ == pair_tally(source@, target@, policy@.acl_rules),
{
    let routes = target.routes.len();
    assert(routes == target@.routes.len());
    if source.node_id == target.node_id {
        return PeerMapVisibilityMetrics {
            peer_candidates: 0,
            visible_peers: 0,
            acl_denied_peers: 0,
            route_candidates: 0,
            visible_routes: 0,
            acl_denied_routes: 0,
        };
    }
    assert(policy.acl_rules@.len() == policy@.acl_rules.len());
    if policy.acl_rules.len() == 0 {
        return PeerMapVisibilityMetrics {
            peer_candidates: 1,
            visible_peers: 1,
            acl_denied_peers: 0,
            route_candidates: routes,
            visible_routes: routes,
            acl_denied_routes: 0,
        };
    }
    let usable = count_usable_routes(source, target, policy);
    let visible = acl_allows_peer(source, target, policy) || usable > 0;
    PeerMapVisibilityMetrics {
        peer_candidates: 1,
        visible_peers: if visible {
            1
        } else {
            0
        },
        acl_denied_peers: if visible {
            0
        } else {
            1
        },
        route_candidates: routes,
        visible_routes: usable,
        acl_denied_routes: routes - usable,
    }
}

/// How many peers and routes the nodes could see of each other, and how many they may.
pub fn peer_map_visibility_metrics(nodes: &Vec<NodeRecord>, policy: &ClusterPolicy) -> (r:
    PeerMapVisibilityMetrics)
    requires
        visibility_tally(views(nodes@), policy@.acl_rules, nodes@.len()).peer_candidates
            <= usize::MAX,
        visibility_tally(views(nodes@), policy@.acl_rules, nodes@.len()).route_candidates
            <= usize::MAX,
    ensures
        r@ == visibility_tally(views(nodes@), policy@.acl_rules, nodes@.len()),
{
    let ghost all = views(nodes@);
    let ghost rules = policy@.acl_rules;
    let mut total = PeerMapVisibilityMetrics {
        peer_candidates: 0,
        visible_peers: 0,
        acl_denied_peers: 0,
        route_candidates: 0,
        visible_routes: 0,
        acl_denied_routes: 0,
    };
    let mut i: usize = 0;
    while i < nodes.len()
        invariant
            i <= nodes@.len(),
            all == views(nodes@),
            rules == policy@.acl_rules,
            visibility_tally(all, rules, all.len()).peer_candidates <= usize::MAX,
            visibility_tally(all, rules, all.len()).route_candidates <= usize::MAX,
            total@ == visibility_tally(all, rules, i as nat),
        decreases nodes@.len() - i,
    {
        let ghost before = total@;
        let mut j: usize = 0;
        assert(before == before.plus(VisibilityTally::zero()));
        while j < nodes.len()
            invariant
                i < nodes@.len(),
                j <= nodes@.len(),
                all == views(nodes@),
                rules == policy@.acl_rules,
                visibility_tally(all, rules, all.len()).peer_candidates <= usize::MAX,
                visibility_tally(all, rules, all.len()).route_candidates <= usize::MAX,
                before == visibility_tally(all, rules, i as nat),
                total@ == before.plus(row_tally(all[i as int], all, rules, j as nat)),
            decreases nodes@.len() - j,
        {
            assert(all[i as int] == nodes@[i as int]@);
            assert(all[j as int] == nodes@[j as int]@);
            let pair = count_pair(&nodes[i], &nodes[j], policy);
            proof {
                lemma_row(all[i as int], all, rules, j as nat, all.len());
                lemma_row(all[i as int], all, rules, (j + 1) as nat, all.len());
                lemma_total(all, rules, i as nat, all.len());
                lemma_total(all, rules, (i + 1) as nat, all.len());
                lemma_pair(all[i as int], all[j as int], rules);
            }
            total = PeerMapVisibilityMetrics {
                peer_candidates: total.peer_candidates + pair.peer_candidates,
                visible_peers: total.visible_peers + pair.visible_peers,
                acl_denied_peers: total.acl_denied_peers + pair.acl_denied_peers,
                route_candidates: total.route_candidates + pair.route_candidates,
                visible_routes: total.visible_routes + pair.visible_routes,
                acl_denied_routes: total.acl_denied_routes + pair.acl_denied_routes,
            };
            j = j + 1;
        }
        i = i + 1;
    }
    total
}

/// Each peer and each route that a node could see counts either as visible or as denied.
pub proof fn law_visibility_is_balanced(nodes: Seq<NodeRecordView>, rules: Seq<AclRuleView>)
    ensures
        visibility_tally(nodes, rules, nodes.len()).balanced(),
{
    lemma_total(nodes, rules, nodes.len(), nodes.len());
}

/// Without access rules nothing is denied.
pub proof fn law_nothing_is_denied_without_rules(nodes: Seq<NodeRecordView>, n: nat)
    requires
        n <= nodes.len(),
    ensures
        visibility_tally(nodes, Seq::empty(), n).acl_denied_peers == 0,
        visibility_tally(nodes, Seq::empty(), n).acl_denied_routes == 0,
    decreases n,
{
    if n > 0 {
        law_nothing_is_denied_without_rules(nodes, (n - 1) as nat);
        lemma_open_row(nodes[n - 1], nodes, nodes.len());
    }
}

proof fn lemma_open_row(source: NodeRecordView, nodes: Seq<NodeRecordView>, m: nat)
    ensures
        row_tally(source, nodes, Seq::empty(), m).acl_denied_peers == 0,
        row_tally(source, nodes, Seq::empty(), m).acl_denied_routes == 0,
    decreases m,
{
    if m > 0 {
        lemma_open_row(source, nodes, (m - 1) as nat);
    }
}

/// How many paths are in a state.
#[derive(Debug, Clone, Copy, PartialEq, Eq, Structural)]
pub struct PathStateCount {
    pub state: PathState,
    pub count: usize,
}

/// What the control plane counts.
#[derive(Debug)]
pub struct ControlPlaneMetricsResponse {
    pub cluster_id: ClusterId,
    pub node_count: usize,
    pub client_count: usize,
    pub relay_candidate_count: usize,
    pub active_service_instance_count: usize,
    pub active_service_host_count: usize,
    pub active_control_plane_count: usize,
    pub active_signal_count: usize,
    pub active_stun_count: usize,
    pub active_relay_count: usize,
    pub active_web_ui_count: usize,
    pub ha_ready: bool,
    pub healthy_node_count: usize,
    pub degraded_node_count: usize,
    pub unhealthy_node_count: usize,
    pub stale_endpoint_candidate_count: usize,
    pub vpn_pool_total_count: u64,
    pub vpn_pool_allocated_count: u64,
    pub vpn_pool_available_count: u64,
    pub token_ledger_issued_count: usize,
    pub token_ledger_active_count: usize,
    pub token_ledger_revoked_count: usize,
    pub token_ledger_expired_count: usize,
    pub token_ledger_exhausted_count: usize,
    pub token_ledger_use_count: u64,
    pub operations: ControlPlaneOperationMetrics,
    pub visibility: PeerMapVisibilityMetrics,
    pub stale_path_count: usize,
    pub path_count: usize,
    pub path_state_counts: Vec<PathStateCount>,
    pub endpoint_candidate_ttl_seconds: u64,
    pub path_state_ttl_seconds: u64,
    pub generated_at: Timestamp,
}

/// How many of the listed are clients.
pub open spec fn client_count(listed: Seq<NodeRecordView>, n: nat) -> nat {
    how_many(listed, |node: NodeRecordView| role_is_client(node.role), n)
}

fn count_clients(listed: &Vec<NodeRecord>) -> (r: usize)
    ensures
        r == client_count(views(listed@), listed@.len()),
{
    let ghost all = views(listed@);
    let mut count: usize = 0;
    let mut i: usize = 0;
    while i < listed.len()
        invariant
            i <= listed@.len(),
            all == views(listed@),
            count == client_count(all, i as nat),
            count <= i,
        decreases listed@.len() - i,
    {
        assert(all[i as int] == listed@[i as int]@);
        if listed[i].role.is_client() {
            count = count + 1;
        }
        i = i + 1;
    }
    count
}

/// How many of the nodes can relay for others.
pub open spec fn relay_count(
    nodes: Seq<NodeRecordView>,
    health: Map<Seq<Seq<char>>, NodeHealthView>,
    policy: ClusterPolicyView,
    now: Timestamp,
    n: nat,
) -> nat {
    how_many(
        nodes,
        |node: NodeRecordView| may_relay(node, entry_of(health, node.node_id), now, policy),
        n,
    )
}

fn count_relays(
    nodes: &Vec<NodeRecord>,
    health: &OrderedMap<NodeId, NodeHealth>,
    policy: &ClusterPolicy,
    now: Timestamp,
) -> (r: usize)
    requires
        health.wf(),
    ensures
        r == relay_count(views(nodes@), held(health@), policy@, now, nodes@.len()),
{
    let ghost all = views(nodes@);
    let mut count: usize = 0;
    let mut i: usize = 0;
    while i < nodes.len()
        invariant
            health.wf(),
            i <= nodes@.len(),
            all == views(nodes@),
            count == relay_count(all, held(health@), policy@, now, i as nat),
            count <= i,
        decreases nodes@.len() - i,
    {
        assert(all[i as int] == nodes@[i as int]@);
        let known = find_entry(health, &nodes[i].node_id);
        if relay_candidate_allowed(&nodes[i], known, now, policy) {
            count = count + 1;
        }
        i = i + 1;
    }
    count
}

/// How many of the nodes report a state of health.
pub open spec fn health_count(
    nodes: Seq<NodeRecordView>,
    health: Map<Seq<Seq<char>>, NodeHealthView>,
    state: HealthState,
    n: nat,
) -> nat {
    how_many(
        nodes,
        |node: NodeRecordView|
            entry_of(health, node.node_id) matches Some(known) && known.state == state,
        n,
    )
}

fn count_health(
    nodes: &Vec<NodeRecord>,
    health: &OrderedMap<NodeId, NodeHealth>,
    state: HealthState,
) -> (r: usize)
    requires
        health.wf(),
    ensures
        r == health_count(views(nodes@), held(health@), state, nodes@.len()),
{
    let ghost all = views(nodes@);
    let mut count: usize = 0;
    let mut i: usize = 0;
    while i < nodes.len()
        invariant
            health.wf(),
            i <= nodes@.len(),
            all == views(nodes@),
            count == health_count(all, held(health@), state, i as nat),
            count <= i,
        decreases nodes@.len() - i,
    {
        assert(all[i as int] == nodes@[i as int]@);
        if let Some(known) = find_entry(health, &nodes[i].node_id) {
            if known.state == state {
                count = count + 1;
            }
        }
        i = i + 1;
    }
    count
}

/// How many candidates of a node are stale.
pub open spec fn stale_candidates(node: NodeRecordView, now: Timestamp, ttl_seconds: u64, n: nat) -> nat {
    how_many(
        node.endpoint_candidates,
        |candidate: EndpointCandidateView| !fresh(candidate.observed_at, now, ttl_seconds),
        n,
    )
}

/// How many candidates of the first `n` nodes are stale.
pub open spec fn all_stale_candidates(
    nodes: Seq<NodeRecordView>,
    now: Timestamp,
    ttl_seconds: u64,
    n: nat,
) -> nat
    decreases n,
{
    if n == 0 {
        0
    } else {
        all_stale_candidates(nodes, now, ttl_seconds, (n - 1) as nat) + stale_candidates(
            nodes[n - 1],
            now,
            ttl_seconds,
            nodes[n - 1].endpoint_candidates.len(),
        )
    }
}

proof fn lemma_stale_grows(
    nodes: Seq<NodeRecordView>,
    now: Timestamp,
    ttl_seconds: u64,
    m: nat,
    n: nat,
)
    requires
        m <= n,
    ensures
        all_stale_candidates(nodes, now, ttl_seconds, m) <= all_stale_candidates(
            nodes,
            now,
            ttl_seconds,
            n,
        ),
    decreases n,
{
    if m < n {
        lemma_stale_grows(nodes, now, ttl_seconds, m, (n - 1) as nat);
    }
}

fn count_stale_candidates(node: &NodeRecord, now: Timestamp, ttl_seconds: u64) -> (r: usize)
    ensures
        r == stale_candidates(node@, now, ttl_seconds, node@.endpoint_candidates.len()),
{
    let ghost all = node@.endpoint_candidates;
    let mut count: usize = 0;
    let mut i: usize = 0;
    while i < node.endpoint_candidates.len()
        invariant
            i <= node.endpoint_candidates@.len(),
            all == views(node.endpoint_candidates@),
            all == node@.endpoint_candidates,
            count == stale_candidates(node@, now, ttl_seconds, i as nat),
            count <= i,
        decreases node.endpoint_candidates@.len() - i,
    {
        assert(all[i as int] == node.endpoint_candidates@[i as int]@);
        if !endpoint_candidate_is_fresh(&node.endpoint_candidates[i], now, ttl_seconds) {
            count = count + 1;
        }
        i = i + 1;
    }
    count
}

fn count_all_stale_candidates(nodes: &Vec<NodeRecord>, now: Timestamp, ttl_seconds: u64) -> (r:
    usize)
    requires
        all_stale_candidates(views(nodes@), now, ttl_seconds, nodes@.len()) <= usize::MAX,
    ensures
        r == all_stale_candidates(views(nodes@), now, ttl_seconds, nodes@.len()),
{
    let ghost all = views(nodes@);
    let mut count: usize = 0;
    let mut i: usize = 0;
    while i < nodes.len()
        invariant
            i <= nodes@.len(),
            all == views(nodes@),
            all_stale_candidates(all, now, ttl_seconds, all.len()) <= usize::MAX,
            count == all_stale_candidates(all, now, ttl_seconds, i as nat),
        decreases nodes@.len() - i,
    {
        assert(all[i as int] == nodes@[i as int]@);
        let stale = count_stale_candidates(&nodes[i], now, ttl_seconds);
        proof {
            lemma_stale_grows(all, now, ttl_seconds, (i + 1) as nat, all.len());
        }
        count = count + stale;
        i = i + 1;
    }
    count
}

/// How many different ones of the first `n` addresses nodes can get from the pool.
pub open spec fn distinct_usable(addresses: Seq<u32>, pool: Cidr, n: nat) -> nat
    decreases n,
{
    if n == 0 {
        0
    } else {
        distinct_usable(addresses, pool, (n - 1) as nat) + if usable_host(pool, addresses[n - 1])
            && !addresses.take(n - 1).contains(addresses[n - 1]) {
            1nat
        } else {
            0nat
        }
    }
}

fn stands_before(addresses: &Vec<u32>, n: usize) -> (r: bool)
    requires
        n < addresses@.len(),
    ensures
        r == addresses@.take(n as int).contains(addresses@[n as int]),
{
    let ghost before = addresses@.take(n as int);
    let mut i: usize = 0;
    while i < n
        invariant
            i <= n,
            n < addresses@.len(),
            before == addresses@.take(n as int),
            forall|k: int| 0 <= k < i ==> before[k] != addresses@[n as int],
        decreases n - i,
    {
        assert(before[i as int] == addresses@[i as int]);
        if addresses[i] == addresses[n] {
            return true;
        }
        i = i + 1;
    }
    false
}

fn count_distinct_usable(addresses: &Vec<u32>, pool: &Cidr) -> (r: usize)
    ensures
        r == distinct_usable(addresses@, *pool, addresses@.len()),
{
    let mut count: usize = 0;
    let mut i: usize = 0;
    while i < addresses.len()
        invariant
            i <= addresses@.len(),
            count == distinct_usable(addresses@, *pool, i as nat),
            count <= i,
        decreases addresses@.len() - i,
    {
        if vpn_pool_contains_usable_host(pool, addresses[i]) && !stands_before(addresses, i) {
            count = count + 1;
        }
        i = i + 1;
    }
    count
}

/// The last of the first `n` paths for each pair of ends.
pub open spec fn paths_by_ends(paths: Seq<PathRecordView>, n: nat) -> Map<
    Seq<Seq<char>>,
    PathRecordView,
>
    decreases n,
{
    if n == 0 {
        Map::empty()
    } else {
        paths_by_ends(paths, (n - 1) as nat).insert(
            two(paths[n - 1].key.local, paths[n - 1].key.remote),
            paths[n - 1],
        )
    }
}

fn gather_paths(paths: &Vec<PathRecord>) -> (r: Vec<PathRecord>)
    ensures
        views(r@) == listed(paths_by_ends(views(paths@), paths@.len())),
{
    let ghost all = views(paths@);
    let mut map: OrderedMap<ScopedName, PathRecord> = OrderedMap::new();
    let mut i: usize = 0;
    assert(held(map@) =~= Map::empty());
    while i < paths.len()
        invariant
            map.wf(),
            i <= paths@.len(),
            all == views(paths@),
            held(map@) == paths_by_ends(all, i as nat),
        decreases paths@.len() - i,
    {
        broadcast use lemma_held_insert;

        assert(all[i as int] == paths@[i as int]@);
        let key = ScopedName {
            scope: paths[i].key.local.value.clone(),
            name: paths[i].key.remote.value.clone(),
        };
        assert(key.parts() =~= two(all[i as int].key.local, all[i as int].key.remote));
        let earlier = map.insert(key, paths[i].duplicate());
        i = i + 1;
    }
    value_list(&map)
}

/// How many of the paths are stale.
pub open spec fn stale_paths(paths: Seq<PathRecordView>, now: Timestamp, ttl_seconds: u64, n: nat) -> nat {
    how_many(paths, |path: PathRecordView| !fresh(path.updated_at, now, ttl_seconds), n)
}

/// How many of the paths are current and in a state.
pub open spec fn current_paths(
    paths: Seq<PathRecordView>,
    state: PathState,
    now: Timestamp,
    ttl_seconds: u64,
    n: nat,
) -> nat {
    how_many(
        paths,
        |path: PathRecordView|
            fresh(path.updated_at, now, ttl_seconds) && path.selected_state == state,
        n,
    )
}

fn count_stale_paths(paths: &Vec<PathRecord>, now: Timestamp, ttl_seconds: u64) -> (r: usize)
    ensures
        r == stale_paths(views(paths@), now, ttl_seconds, paths@.len()),
        r <= paths@.len(),
{
    let ghost all = views(paths@);
    let mut count: usize = 0;
    let mut i: usize = 0;
    while i < paths.len()
        invariant
            i <= paths@.len(),
            all == views(paths@),
            count == stale_paths(all, now, ttl_seconds, i as nat),
            count <= i,
        decreases paths@.len() - i,
    {
        assert(all[i as int] == paths@[i as int]@);
        if !path_is_fresh(&paths[i], now, ttl_seconds) {
            count = count + 1;
        }
        i = i + 1;
    }
    count
}

fn count_current_paths(
    paths: &Vec<PathRecord>,
    state: PathState,
    now: Timestamp,
    ttl_seconds: u64,
) -> (r: usize)
    ensures
        r == current_paths(views(paths@), state, now, ttl_seconds, paths@.len()),
{
    let ghost all = views(paths@);
    let mut count: usize = 0;
    let mut i: usize = 0;
    while i < paths.len()
        invariant
            i <= paths@.len(),
            all == views(paths@),
            count == current_paths(all, state, now, ttl_seconds, i as nat),
            count <= i,
        decreases paths@.len() - i,
    {
        assert(all[i as int] == paths@[i as int]@);
        if path_is_fresh(&paths[i], now, ttl_seconds) && paths[i].selected_state == state {
            count = count + 1;
        }
        i = i + 1;
    }
    count
}

/// How many of the paths are current in each state, in the order of the states.
pub open spec fn state_counts(
    paths: Seq<PathRecordView>,
    now: Timestamp,
    ttl_seconds: u64,
) -> Seq<(PathState, nat)> {
    Seq::new(
        all_states().len(),
        |i: int|
            (
                all_states()[i],
                current_paths(paths, all_states()[i], now, ttl_seconds, paths.len()),
            ),
    )
}

/// What counts of paths hold.
pub open spec fn counts_view(counts: Seq<PathStateCount>) -> Seq<(PathState, nat)> {
    Seq::new(counts.len(), |i: int| (counts[i].state, counts[i].count as nat))
}

fn count_states(paths: &Vec<PathRecord>, now: Timestamp, ttl_seconds: u64) -> (r: Vec<
    PathStateCount,
>)
    ensures
        counts_view(r@) == state_counts(views(paths@), now, ttl_seconds),
{
    let states: Vec<PathState> = vec![
        PathState::DirectPublic,
        PathState::DirectIpv6,
        PathState::DirectNatTraversal,
        PathState::Relay,
        PathState::Unreachable,
    ];
    assert(states@ =~= all_states());
    let ghost all = views(paths@);
    let mut r: Vec<PathStateCount> = Vec::new();
    let mut i: usize = 0;
    while i < states.len()
        invariant
            i <= states@.len(),
            states@ == all_states(),
            all == views(paths@),
            r@.len() == i,
            forall|k: int|
                0 <= k < i ==> (#[trigger] r@[k]).state == all_states()[k] && r@[k].count
                    == current_paths(all, all_states()[k], now, ttl_seconds, all.len()),
        decreases states@.len() - i,
    {
        let count = count_current_paths(paths, states[i], now, ttl_seconds);
        r.push(PathStateCount { state: states[i], count });
        i = i + 1;
    }
    assert(counts_view(r@) =~= state_counts(all, now, ttl_seconds));
    r
}

/// The sums that the metrics of a control plane are made of can be counted.
pub open spec fn countable(
    participants: Seq<NodeRecordView>,
    policy: ClusterPolicyView,
    now: Timestamp,
) -> bool {
    let nodes = workers(participants);
    let n = nodes.len();
    &&& visibility_tally(nodes, policy.acl_rules, n).peer_candidates <= usize::MAX
    &&& visibility_tally(nodes, policy.acl_rules, n).route_candidates <= usize::MAX
    &&& all_stale_candidates(nodes, now, policy.endpoint_candidate_ttl_seconds, n) <= usize::MAX
}

/// What the metrics of a control plane say.
pub open spec fn metrics_say(
    r: ControlPlaneMetricsResponse,
    config: ControlPlaneConfig,
    participants: Seq<NodeRecordView>,
    health: Map<Seq<Seq<char>>, NodeHealthView>,
    instances: Seq<ServiceInstanceView>,
    policy: ClusterPolicyView,
    paths: Seq<PathRecordView>,
    operations: ControlPlaneOperationMetrics,
    now: Timestamp,
) -> bool {
    let all = participants;
    let nodes = workers(all);
    let n = nodes.len();
    let reported = listed(paths_by_ends(paths, paths.len()));
    let ttl = policy.path_state_ttl_seconds;
    let addresses = assigned_addresses(all);
    &&& r.cluster_id@ == config.cluster_id@
    &&& r.node_count == n
    &&& r.client_count == client_count(all, all.len())
    &&& r.relay_candidate_count == relay_count(nodes, health, policy, now, n)
    &&& r.active_service_instance_count == instances.len()
    &&& r.active_service_host_count == owners(instances, instances.len()).len()
    &&& r.active_control_plane_count == owners_offering(
        instances,
        BootstrapEndpointKind::ControlPlane,
        instances.len(),
    ).len()
    &&& r.active_signal_count == owners_offering(
        instances,
        BootstrapEndpointKind::Signal,
        instances.len(),
    ).len()
    &&& r.active_stun_count == owners_offering(
        instances,
        BootstrapEndpointKind::Stun,
        instances.len(),
    ).len()
    &&& r.active_relay_count == owners_offering(
        instances,
        BootstrapEndpointKind::Relay,
        instances.len(),
    ).len()
    &&& r.active_web_ui_count == owners_offering(
        instances,
        BootstrapEndpointKind::WebUi,
        instances.len(),
    ).len()
    &&& r.ha_ready == (config.service_ha_replica_count > 0 && full_owners(instances).len()
        >= config.service_ha_replica_count)
    &&& r.healthy_node_count == health_count(nodes, health, HealthState::Healthy, n)
    &&& r.degraded_node_count == health_count(nodes, health, HealthState::Degraded, n)
    &&& r.unhealthy_node_count == health_count(nodes, health, HealthState::Unhealthy, n)
    &&& r.stale_endpoint_candidate_count == all_stale_candidates(
        nodes,
        now,
        policy.endpoint_candidate_ttl_seconds,
        n,
    )
    &&& r.vpn_pool_total_count == usable_total(config.vpn_pool)
    &&& r.vpn_pool_allocated_count == distinct_usable(
        addresses,
        config.vpn_pool,
        addresses.len(),
    )
    &&& r.vpn_pool_available_count == (if r.vpn_pool_total_count
        >= r.vpn_pool_allocated_count {
        r.vpn_pool_total_count - r.vpn_pool_allocated_count
    } else {
        0
    })
    &&& r.token_ledger_issued_count == 0
    &&& r.token_ledger_active_count == 0
    &&& r.token_ledger_revoked_count == 0
    &&& r.token_ledger_expired_count == 0
    &&& r.token_ledger_exhausted_count == 0
    &&& r.token_ledger_use_count == 0
    &&& r.operations == operations
    &&& r.visibility@ == visibility_tally(nodes, policy.acl_rules, n)
    &&& r.stale_path_count == stale_paths(reported, now, ttl, reported.len())
    &&& r.path_count + r.stale_path_count == reported.len()
    &&& counts_view(r.path_state_counts@) == state_counts(reported, now, ttl)
    &&& r.endpoint_candidate_ttl_seconds == policy.endpoint_candidate_ttl_seconds
    &&& r.path_state_ttl_seconds == policy.path_state_ttl_seconds
    &&& r.generated_at == now
}

/// What the control plane counts. `participants` are all that are registered, and `paths` lists
/// the paths of those that are no clients.
pub fn control_plane_metrics(
    config: &ControlPlaneConfig,
    participants: &Vec<NodeRecord>,
    health: &OrderedMap<NodeId, NodeHealth>,
    directory: &ServiceDirectory,
    policy: &ClusterPolicy,
    paths: &Vec<PathRecord>,
    operations: &ControlPlaneOperationMetrics,
    now: Timestamp,
) -> (r: ControlPlaneMetricsResponse)
    requires
        health.wf(),
        countable(views(participants@), policy@, now),
    ensures
        metrics_say(
            r,
            *config,
            views(participants@),
            held(health@),
            views(directory.instances@),
            policy@,
            views(paths@),
            *operations,
            now,
        ),
{
    let nodes = list_nodes(participants);
    assert(nodes@.len() == views(nodes@).len());
    let instances = &directory.instances;
    assert(instances@.len() == views(instances@).len());
    let full = full_service_owner_node_count(instances);
    let addresses = assigned_ipv4_vpn_ips(participants);
    let total = vpn_pool_usable_host_count(&config.vpn_pool);
    let allocated = count_distinct_usable(&addresses, &config.vpn_pool) as u64;
    let available = if total >= allocated {
        total - allocated
    } else {
        0
    };
    let current = gather_paths(paths);
    assert(current@.len() == views(current@).len());
    let stale_path_count = count_stale_paths(&current, now, policy.path_state_ttl_seconds);
    ControlPlaneMetricsResponse {
        cluster_id: config.cluster_id.clone(),
        node_count: nodes.len(),
        client_count: count_clients(participants),
        relay_candidate_count: count_relays(&nodes, health, policy, now),
        active_service_instance_count: instances.len(),
        active_service_host_count: service_owner_count(instances),
        active_control_plane_count: service_instance_kind_count(
            instances,
            BootstrapEndpointKind::ControlPlane,
        ),
        active_signal_count: service_instance_kind_count(instances, BootstrapEndpointKind::Signal),
        active_stun_count: service_instance_kind_count(instances, BootstrapEndpointKind::Stun),
        active_relay_count: service_instance_kind_count(instances, BootstrapEndpointKind::Relay),
        active_web_ui_count: service_instance_kind_count(instances, BootstrapEndpointKind::WebUi),
        ha_ready: config.service_ha_replica_count > 0 && full >= config.service_ha_replica_count,
        healthy_node_count: count_health(&nodes, health, HealthState::Healthy),
        degraded_node_count: count_health(&nodes, health, HealthState::Degraded),
        unhealthy_node_count: count_health(&nodes, health, HealthState::Unhealthy),
        stale_endpoint_candidate_count: count_all_stale_candidates(
            &nodes,
            now,
            policy.endpoint_candidate_ttl_seconds,
        ),
        vpn_pool_total_count: total,
        vpn_pool_allocated_count: allocated,
        vpn_pool_available_count: available,
        token_ledger_issued_count: 0,
        token_ledger_active_count: 0,
        token_ledger_revoked_count: 0,
        token_ledger_expired_count: 0,
        token_ledger_exhausted_count: 0,
        token_ledger_use_count: 0,
        operations: operations.snapshot(),
        visibility: peer_map_visibility_metrics(&nodes, policy),
        stale_path_count,
        path_count: current.len() - stale_path_count,
        path_state_counts: count_states(&current, now, policy.path_state_ttl_seconds),
        endpoint_candidate_ttl_seconds: policy.endpoint_candidate_ttl_seconds,
        path_state_ttl_seconds: policy.path_state_ttl_seconds,
        generated_at: now,
    }
}

/// How many addresses of a pool nodes can get.
pub open spec fn usable_total(pool: Cidr) -> int {
    if pool_first(pool) < pool_last(pool) {
        pool_last(pool) - pool_first(pool) - 1
    } else {
        0
    }
}

/// What is known of the NATs in front of the nodes.
#[derive(Debug)]
pub struct ControlPlaneNatDiscoveryOverview {
    pub nat_classification_count: usize,
    pub stale_nat_classification_count: usize,
    pub fresh_low_confidence_nat_classification_count: usize,
    /// How many current classifications have each strategy, in the order of the strategies.
    pub fresh_nat_classification_strategy_counts: Vec<usize>,
    pub nat_classification_ttl_seconds: u64,
    pub nat_classification_min_confidence_percent: u8,
}

/// The confidence, as a percentage, is below a minimum. Nothing is below it that is no number.
pub open spec fn low_confidence(classification: NatClassificationView, percent: u8) -> bool {
    !classification.confidence.nan() && !(classification.confidence_percent matches Some(reached)
        && reached >= percent)
}

/// How many of the classifications are stale.
pub open spec fn stale_nats(
    classifications: Seq<NatClassificationView>,
    now: Timestamp,
    ttl_seconds: u64,
    n: nat,
) -> nat {
    how_many(
        classifications,
        |c: NatClassificationView| !fresh(c.assessed_at, now, ttl_seconds),
        n,
    )
}

/// How many of the classifications are current, but of low confidence.
pub open spec fn doubtful_nats(
    classifications: Seq<NatClassificationView>,
    now: Timestamp,
    ttl_seconds: u64,
    percent: u8,
    n: nat,
) -> nat {
    how_many(
        classifications,
        |c: NatClassificationView|
            fresh(c.assessed_at, now, ttl_seconds) && low_confidence(c, percent),
        n,
    )
}

/// How many of the classifications are current and have a strategy.
pub open spec fn nats_with_strategy(
    classifications: Seq<NatClassificationView>,
    now: Timestamp,
    ttl_seconds: u64,
    strategy: int,
    n: nat,
) -> nat {
    how_many(
        classifications,
        |c: NatClassificationView|
            fresh(c.assessed_at, now, ttl_seconds) && c.strategy == strategy,
        n,
    )
}

/// Whether what is known of a NAT is recent.
pub fn nat_classification_is_fresh(
    classification: &NatClassification,
    now: Timestamp,
    ttl_seconds: u64,
) -> (r: bool)
    ensures
        r == fresh(classification@.assessed_at, now, ttl_seconds),
{
    timestamp_is_fresh(classification.assessed_at, now, ttl_seconds)
}

fn is_doubtful(classification: &NatClassification, percent: u8) -> (r: bool)
    ensures
        r == low_confidence(classification@, percent),
{
    let reached = match classification.confidence_percent {
        Some(reached) => reached >= percent,
        None => false,
    };
    !classification.confidence.is_nan() && !reached
}

fn count_strategy(
    classifications: &Vec<NatClassification>,
    now: Timestamp,
    ttl_seconds: u64,
    strategy: usize,
) -> (r: usize)
    ensures
        r == nats_with_strategy(
            views(classifications@),
            now,
            ttl_seconds,
            strategy as int,
            classifications@.len(),
        ),
{
    let ghost all = views(classifications@);
    let mut count: usize = 0;
    let mut i: usize = 0;
    while i < classifications.len()
        invariant
            i <= classifications@.len(),
            all == views(classifications@),
            count == nats_with_strategy(all, now, ttl_seconds, strategy as int, i as nat),
            count <= i,
        decreases classifications@.len() - i,
    {
        assert(all[i as int] == classifications@[i as int]@);
        if nat_classification_is_fresh(&classifications[i], now, ttl_seconds)
            && classifications[i].strategy as usize == strategy {
            count = count + 1;
        }
        i = i + 1;
    }
    count
}

/// What the overview of how nodes reach the network says.
pub open spec fn nat_overview_says(
    r: ControlPlaneNatDiscoveryOverview,
    nats: Map<Seq<Seq<char>>, NatClassificationView>,
    policy: ClusterPolicyView,
    strategies: usize,
    now: Timestamp,
) -> bool {
    let all = listed(nats);
    let ttl = policy.nat_classification_ttl_seconds;
    &&& r.nat_classification_count == all.len()
    &&& r.stale_nat_classification_count == stale_nats(all, now, ttl, all.len())
    &&& r.fresh_low_confidence_nat_classification_count == doubtful_nats(
        all,
        now,
        ttl,
        policy.nat_classification_min_confidence_percent,
        all.len(),
    )
    &&& r.fresh_nat_classification_strategy_counts@.len() == strategies
    &&& forall|k: int|
        0 <= k < strategies ==> (
        #[trigger] r.fresh_nat_classification_strategy_counts@[k]) == nats_with_strategy(
            all,
            now,
            ttl,
            k,
            all.len(),
        )
    &&& r.nat_classification_ttl_seconds == policy.nat_classification_ttl_seconds
    &&& r.nat_classification_min_confidence_percent
        == policy.nat_classification_min_confidence_percent
}

/// What is known of the NATs in front of the nodes. There are `strategies` ways to get past one.
pub fn nat_discovery_overview(
    by_node: &OrderedMap<NodeId, NatClassification>,
    policy: &ClusterPolicy,
    strategies: usize,
    now: Timestamp,
) -> (r: ControlPlaneNatDiscoveryOverview)
    requires
        by_node.wf(),
    ensures
        nat_overview_says(r, held(by_node@), policy@, strategies, now),
{
    let classifications = value_list(by_node);
    let ghost all = views(classifications@);
    let ttl_seconds = policy.nat_classification_ttl_seconds;
    let percent = policy.nat_classification_min_confidence_percent;
    let mut stale: usize = 0;
    let mut doubtful: usize = 0;
    let mut i: usize = 0;
    while i < classifications.len()
        invariant
            i <= classifications@.len(),
            all == views(classifications@),
            stale == stale_nats(all, now, ttl_seconds, i as nat),
            doubtful == doubtful_nats(all, now, ttl_seconds, percent, i as nat),
            stale <= i,
            doubtful <= i,
        decreases classifications@.len() - i,
    {
        assert(all[i as int] == classifications@[i as int]@);
        if !nat_classification_is_fresh(&classifications[i], now, ttl_seconds) {
            stale = stale + 1;
        } else if is_doubtful(&classifications[i], percent) {
            doubtful = doubtful + 1;
        }
        i = i + 1;
    }
    let mut counts: Vec<usize> = Vec::new();
    let mut k: usize = 0;
    while k < strategies
        invariant
            k <= strategies,
            all == views(classifications@),
            counts@.len() == k,
            forall|m: int|
                0 <= m < k ==> (#[trigger] counts@[m]) == nats_with_strategy(
                    all,
                    now,
                    ttl_seconds,
                    m,
                    all.len(),
                ),
        decreases strategies - k,
    {
        counts.push(count_strategy(&classifications, now, ttl_seconds, k));
        k = k + 1;
    }
    ControlPlaneNatDiscoveryOverview {
        nat_classification_count: classifications.len(),
        stale_nat_classification_count: stale,
        fresh_low_confidence_nat_classification_count: doubtful,
        fresh_nat_classification_strategy_counts: counts,
        nat_classification_ttl_seconds: ttl_seconds,
        nat_classification_min_confidence_percent: percent,
    }
}

/// The current paths are those that are counted in one of the states.
pub proof fn law_states_count_every_current_path(
    paths: Seq<PathRecordView>,
    now: Timestamp,
    ttl_seconds: u64,
    n: nat,
)
    requires
        n <= paths.len(),
    ensures
        stale_paths(paths, now, ttl_seconds, n) + current_paths(
            paths,
            PathState::DirectPublic,
            now,
            ttl_seconds,
            n,
        ) + current_paths(paths, PathState::DirectIpv6, now, ttl_seconds, n) + current_paths(
            paths,
            PathState::DirectNatTraversal,
            now,
            ttl_seconds,
            n,
        ) + current_paths(paths, PathState::Relay, now, ttl_seconds, n) + current_paths(
            paths,
            PathState::Unreachable,
            now,
            ttl_seconds,
            n,
        ) == n,
    decreases n,
{
    if n > 0 {
        law_states_count_every_current_path(paths, now, ttl_seconds, (n - 1) as nat);
    }
}

/// A participant that is no client reported its health.
pub open spec fn reports_health(
    node: NodeRecordView,
    health: Map<Seq<Seq<char>>, NodeHealthView>,
) -> bool {
    node.role != "client"@ && health.dom().contains(seq![node.node_id])
}

proof fn lemma_health_count(
    participants: Seq<NodeRecordView>,
    health: Map<Seq<Seq<char>>, NodeHealthView>,
    state: HealthState,
)
    ensures
        health_count(workers(participants), health, state, workers(participants).len())
            == how_many(
            participants,
            |node: NodeRecordView|
                reports_health(node, health) && health[seq![node.node_id]].state == state,
            participants.len(),
        ),
{
    lemma_how_many_kept(
        participants,
        |node: NodeRecordView| !role_is_client(node.role),
        |node: NodeRecordView|
            entry_of(health, node.node_id) matches Some(known) && known.state == state,
        |node: NodeRecordView|
            reports_health(node, health) && health[seq![node.node_id]].state == state,
        participants.len(),
    );
}

/// The healthy, the degraded and the unhealthy nodes are together those that reported their health,
/// and each is counted by the state that it reported. Where all that reported are in one state, that
/// state counts them all and the others none.
pub proof fn law_health_counts_add_up(
    r: ControlPlaneMetricsResponse,
    config: ControlPlaneConfig,
    participants: Seq<NodeRecordView>,
    health: Map<Seq<Seq<char>>, NodeHealthView>,
    instances: Seq<ServiceInstanceView>,
    policy: ClusterPolicyView,
    paths: Seq<PathRecordView>,
    operations: ControlPlaneOperationMetrics,
    now: Timestamp,
)
    requires
        metrics_say(
            r,
            config,
            participants,
            health,
            instances,
            policy,
            paths,
            operations,
            now,
        ),
    ensures
        ({
            let n = participants.len();
            let reporting = places(
                participants,
                |node: NodeRecordView| reports_health(node, health),
                n,
            ).len();
            &&& r.healthy_node_count + r.degraded_node_count + r.unhealthy_node_count == reporting
            &&& r.healthy_node_count == places(
                participants,
                |node: NodeRecordView|
                    reports_health(node, health) && health[seq![node.node_id]].state
                        == HealthState::Healthy,
                n,
            ).len()
            &&& r.degraded_node_count == places(
                participants,
                |node: NodeRecordView|
                    reports_health(node, health) && health[seq![node.node_id]].state
                        == HealthState::Degraded,
                n,
            ).len()
            &&& r.unhealthy_node_count == places(
                participants,
                |node: NodeRecordView|
                    reports_health(node, health) && health[seq![node.node_id]].state
                        == HealthState::Unhealthy,
                n,
            ).len()
            &&& forall|state: HealthState| #[trigger]
                all_report(participants, health, state) ==> r.healthy_node_count == (if state
                    == HealthState::Healthy {
                    reporting
                } else {
                    0
                }) && r.degraded_node_count == (if state == HealthState::Degraded {
                    reporting
                } else {
                    0
                }) && r.unhealthy_node_count == (if state == HealthState::Unhealthy {
                    reporting
                } else {
                    0
                })
        }),
{
    let n = participants.len();
    let reporting = |node: NodeRecordView| reports_health(node, health);
    let in_state = |state: HealthState|
        |node: NodeRecordView|
            reports_health(node, health) && health[seq![node.node_id]].state == state;
    let healthy = |node: NodeRecordView|
        reports_health(node, health) && health[seq![node.node_id]].state == HealthState::Healthy;
    let degraded = |node: NodeRecordView|
        reports_health(node, health) && health[seq![node.node_id]].state == HealthState::Degraded;
    let unhealthy = |node: NodeRecordView|
        reports_health(node, health) && health[seq![node.node_id]].state == HealthState::Unhealthy;
    let up = |node: NodeRecordView| healthy(node) || degraded(node);
    lemma_health_count(participants, health, HealthState::Healthy);
    lemma_health_count(participants, health, HealthState::Degraded);
    lemma_health_count(participants, health, HealthState::Unhealthy);
    lemma_how_many_alike(participants, in_state(HealthState::Healthy), healthy, n);
    lemma_how_many_alike(participants, in_state(HealthState::Degraded), degraded, n);
    lemma_how_many_alike(participants, in_state(HealthState::Unhealthy), unhealthy, n);
    lemma_how_many_split(participants, healthy, degraded, up, n);
    lemma_how_many_split(participants, up, unhealthy, reporting, n);
    lemma_how_many_places(participants, reporting, n);
    lemma_how_many_places(participants, healthy, n);
    lemma_how_many_places(participants, degraded, n);
    lemma_how_many_places(participants, unhealthy, n);
    lemma_how_many_all(participants, healthy, n);
    lemma_how_many_all(participants, degraded, n);
    lemma_how_many_all(participants, unhealthy, n);
    assert(r.healthy_node_count == how_many(participants, healthy, n));
    assert(r.degraded_node_count == how_many(participants, degraded, n));
    assert(r.unhealthy_node_count == how_many(participants, unhealthy, n));
}

/// All that reported their health reported the same state.
pub open spec fn all_report(
    participants: Seq<NodeRecordView>,
    health: Map<Seq<Seq<char>>, NodeHealthView>,
    state: HealthState,
) -> bool {
    forall|i: int|
        0 <= i < participants.len() && reports_health(#[trigger] participants[i], health)
            ==> health[seq![participants[i].node_id]].state == state
}

/// Each participant is counted once, as a client or as a node. The nodes that may relay are those
/// with a relay that is enabled and ready and that reported to be healthy not too long ago.
pub proof fn law_participants_are_clients_or_nodes(
    r: ControlPlaneMetricsResponse,
    config: ControlPlaneConfig,
    participants: Seq<NodeRecordView>,
    health: Map<Seq<Seq<char>>, NodeHealthView>,
    instances: Seq<ServiceInstanceView>,
    policy: ClusterPolicyView,
    paths: Seq<PathRecordView>,
    operations: ControlPlaneOperationMetrics,
    now: Timestamp,
)
    requires
        metrics_say(
            r,
            config,
            participants,
            health,
            instances,
            policy,
            paths,
            operations,
            now,
        ),
    ensures
        r.node_count + r.client_count == participants.len(),
        r.client_count == places(
            participants,
            |node: NodeRecordView| node.role == "client"@,
            participants.len(),
        ).len(),
        r.relay_candidate_count == places(
            participants,
            |node: NodeRecordView|
                reports_health(node, health) && health[seq![node.node_id]].state
                    == HealthState::Healthy && now.at()
                    <= health[seq![node.node_id]].last_seen_at.at()
                    + policy.relay_health_ttl_seconds * 1_000_000_000 && (
                node.relay_capability matches Some(capability) && capability.enabled_by_policy
                    && capability.ready_to_relay),
            participants.len(),
        ).len(),
        r.relay_candidate_count <= r.healthy_node_count,
{
    let n = participants.len();
    let client = |node: NodeRecordView| node.role == "client"@;
    let worker = |node: NodeRecordView| !role_is_client(node.role);
    let anyone = |node: NodeRecordView| true;
    let relay = |node: NodeRecordView|
        reports_health(node, health) && health[seq![node.node_id]].state == HealthState::Healthy
            && now.at() <= health[seq![node.node_id]].last_seen_at.at()
            + policy.relay_health_ttl_seconds * 1_000_000_000 && (
        node.relay_capability matches Some(capability) && capability.enabled_by_policy
            && capability.ready_to_relay);
    let spare = |node: NodeRecordView|
        reports_health(node, health) && health[seq![node.node_id]].state == HealthState::Healthy
            && !relay(node);
    let healthy = |node: NodeRecordView|
        reports_health(node, health) && health[seq![node.node_id]].state == HealthState::Healthy;
    let may = |node: NodeRecordView|
        may_relay(node, entry_of(health, node.node_id), now, policy);
    lemma_kept_len(participants, worker, n);
    lemma_how_many_split(participants, client, worker, anyone, n);
    lemma_how_many_all(participants, anyone, n);
    lemma_how_many_alike(
        participants,
        |node: NodeRecordView| role_is_client(node.role),
        client,
        n,
    );
    lemma_how_many_places(participants, client, n);
    lemma_how_many_kept(participants, worker, may, relay, n);
    lemma_how_many_places(participants, relay, n);
    lemma_how_many_split(participants, relay, spare, healthy, n);
    lemma_health_count(participants, health, HealthState::Healthy);
    lemma_how_many_alike(
        participants,
        |node: NodeRecordView|
            reports_health(node, health) && health[seq![node.node_id]].state
                == HealthState::Healthy,
        healthy,
        n,
    );
}

/// The positions of the candidates of a node that were observed too long ago.
pub open spec fn outdated_candidates(
    node: NodeRecordView,
    now: Timestamp,
    ttl_seconds: u64,
) -> Set<int> {
    Set::new(
        |j: int|
            0 <= j < node.endpoint_candidates.len()
                && node.endpoint_candidates[j].observed_at.at() + ttl_seconds * 1_000_000_000
                < now.at(),
    )
}

proof fn lemma_stale_added(nodes: Seq<NodeRecordView>, now: Timestamp, ttl_seconds: u64, n: nat)
    ensures
        all_stale_candidates(nodes, now, ttl_seconds, n) == added(
            |i: int|
                stale_candidates(
                    nodes[i],
                    now,
                    ttl_seconds,
                    nodes[i].endpoint_candidates.len(),
                ),
            n,
        ),
    decreases n,
{
    if n > 0 {
        lemma_stale_added(nodes, now, ttl_seconds, (n - 1) as nat);
    }
}

/// Stale are the candidates of the nodes that were observed longer ago than candidates last, and no
/// others.
pub proof fn law_stale_candidates_are_outdated(
    r: ControlPlaneMetricsResponse,
    config: ControlPlaneConfig,
    participants: Seq<NodeRecordView>,
    health: Map<Seq<Seq<char>>, NodeHealthView>,
    instances: Seq<ServiceInstanceView>,
    policy: ClusterPolicyView,
    paths: Seq<PathRecordView>,
    operations: ControlPlaneOperationMetrics,
    now: Timestamp,
)
    requires
        metrics_say(
            r,
            config,
            participants,
            health,
            instances,
            policy,
            paths,
            operations,
            now,
        ),
    ensures
        r.stale_endpoint_candidate_count == tagged(
            |i: int|
                outdated_candidates(
                    workers(participants)[i],
                    now,
                    policy.endpoint_candidate_ttl_seconds,
                ),
            workers(participants).len(),
        ).len(),
{
    let nodes = workers(participants);
    let ttl = policy.endpoint_candidate_ttl_seconds;
    let sets = |i: int| outdated_candidates(nodes[i], now, ttl);
    let sizes = |i: int|
        stale_candidates(nodes[i], now, ttl, nodes[i].endpoint_candidates.len());
    lemma_stale_added(nodes, now, ttl, nodes.len());
    assert forall|i: int| 0 <= i < nodes.len() implies (#[trigger] sets(i)).finite()
        && sets(i).len() == sizes(i) by {
        let all = nodes[i].endpoint_candidates;
        let stale = |candidate: EndpointCandidateView| !fresh(candidate.observed_at, now, ttl);
        lemma_how_many_places(all, stale, all.len());
        assert(places(all, stale, all.len()) =~= sets(i));
    }
    lemma_sizes_add_up(sets, sizes, nodes.len());
}

/// The addresses of the pool that participants hold.
pub open spec fn held_addresses(participants: Seq<NodeRecordView>, pool: Cidr) -> Set<u32> {
    Set::new(
        |ip: u32|
            pool.is_v4() && pool.first() < ip < pool.last() && exists|i: int|
                0 <= i < participants.len() && (#[trigger] participants[i]).vpn_ip == IpAddr::V4(
                    ip,
                ),
    )
}

proof fn lemma_distinct_usable(addresses: Seq<u32>, pool: Cidr, n: nat)
    requires
        n <= addresses.len(),
    ensures
        Set::new(|ip: u32| usable_host(pool, ip) && addresses.take(n as int).contains(ip)).finite(),
        Set::new(|ip: u32| usable_host(pool, ip) && addresses.take(n as int).contains(ip)).len()
            == distinct_usable(addresses, pool, n),
    decreases n,
{
    let all = Set::new(|ip: u32| usable_host(pool, ip) && addresses.take(n as int).contains(ip));
    if n == 0 {
        assert(all =~= Set::empty());
    } else {
        lemma_distinct_usable(addresses, pool, (n - 1) as nat);
        let last = addresses[n - 1];
        let before = Set::new(
            |ip: u32| usable_host(pool, ip) && addresses.take(n - 1).contains(ip),
        );
        assert(addresses.take(n as int) =~= addresses.take(n - 1).push(last));
        assert forall|ip: u32| addresses.take(n as int).contains(ip) <==> addresses.take(
            n - 1,
        ).contains(ip) || ip == last by {
            let more = addresses.take(n - 1).push(last);
            assert(more[n - 1] == last);
            if addresses.take(n - 1).contains(ip) {
                let k = choose|k: int|
                    0 <= k < addresses.take(n - 1).len() && #[trigger] addresses.take(
                        n - 1,
                    )[k] == ip;
                assert(more[k] == ip);
            }
        }
        if usable_host(pool, last) {
            assert(all =~= before.insert(last));
        } else {
            assert(all =~= before);
        }
    }
}

/// Of the addresses strictly between the first and the last one of the pool, those are allocated that
/// some participant holds, each counted once however many hold it; the others are available.
pub proof fn law_allocated_addresses_are_held(
    r: ControlPlaneMetricsResponse,
    config: ControlPlaneConfig,
    participants: Seq<NodeRecordView>,
    health: Map<Seq<Seq<char>>, NodeHealthView>,
    instances: Seq<ServiceInstanceView>,
    policy: ClusterPolicyView,
    paths: Seq<PathRecordView>,
    operations: ControlPlaneOperationMetrics,
    now: Timestamp,
)
    requires
        metrics_say(
            r,
            config,
            participants,
            health,
            instances,
            policy,
            paths,
            operations,
            now,
        ),
    ensures
        r.vpn_pool_allocated_count == held_addresses(participants, config.vpn_pool).len(),
        config.vpn_pool.is_v4() && config.vpn_pool.first() + 1 < config.vpn_pool.last()
            ==> r.vpn_pool_total_count == config.vpn_pool.last() - config.vpn_pool.first() - 1,
        !(config.vpn_pool.is_v4() && config.vpn_pool.first() + 1 < config.vpn_pool.last())
            ==> r.vpn_pool_total_count == 0,
        r.vpn_pool_allocated_count + r.vpn_pool_available_count == r.vpn_pool_total_count
            || r.vpn_pool_available_count == 0,
{
    let addresses = assigned_addresses(participants);
    let pool = config.vpn_pool;
    let all = Set::new(
        |ip: u32|
            usable_host(pool, ip) && addresses.take(addresses.len() as int).contains(ip),
    );
    lemma_distinct_usable(addresses, pool, addresses.len());
    assert(addresses.take(addresses.len() as int) =~= addresses);
    let f = |node: NodeRecordView| crate::vpn::assigned_ipv4(node);
    lemma_gathered_members(participants, f);
    assert forall|ip: u32| addresses.contains(ip) <==> exists|i: int|
        0 <= i < participants.len() && (#[trigger] participants[i]).vpn_ip == IpAddr::V4(ip) by {
        if addresses.contains(ip) {
            let i = choose|i: int|
                0 <= i < participants.len() && f(#[trigger] participants[i]) == Some(ip);
            assert(participants[i].vpn_ip == IpAddr::V4(ip));
        }
        if exists|i: int|
            0 <= i < participants.len() && (#[trigger] participants[i]).vpn_ip == IpAddr::V4(ip) {
            let i = choose|i: int|
                0 <= i < participants.len() && (#[trigger] participants[i]).vpn_ip == IpAddr::V4(
                    ip,
                );
            assert(f(participants[i]) == Some(ip));
        }
    }
    assert(all =~= held_addresses(participants, pool));
}

/// The last report on a path between two ends.
pub open spec fn last_report(paths: Seq<PathRecordView>, ends: Seq<Seq<char>>, i: int) -> bool {
    &&& 0 <= i < paths.len()
    &&& ends == seq![paths[i].key.local, paths[i].key.remote]
    &&& forall|j: int|
        i < j < paths.len() ==> ends != seq![
            (#[trigger] paths[j]).key.local,
            paths[j].key.remote,
        ]
}

proof fn lemma_paths_by_ends(paths: Seq<PathRecordView>, n: nat)
    requires
        n <= paths.len(),
    ensures
        paths_by_ends(paths, n).dom().finite(),
        forall|ends: Seq<Seq<char>>| #[trigger]
            paths_by_ends(paths, n).dom().contains(ends) ==> exists|i: int|
                #[trigger] last_report(paths.take(n as int), ends, i) && paths_by_ends(paths, n)[ends]
                    == paths[i],
        forall|ends: Seq<Seq<char>>, i: int| #[trigger]
            last_report(paths.take(n as int), ends, i) ==> paths_by_ends(paths, n).dom().contains(
                ends,
            ) && paths_by_ends(paths, n)[ends] == paths[i],
    decreases n,
{
    let all = paths_by_ends(paths, n);
    let now = paths.take(n as int);
    if n > 0 {
        lemma_paths_by_ends(paths, (n - 1) as nat);
        let before = paths_by_ends(paths, (n - 1) as nat);
        let old = paths.take(n - 1);
        let last = two(paths[n - 1].key.local, paths[n - 1].key.remote);
        assert forall|ends: Seq<Seq<char>>| #[trigger] all.dom().contains(ends) implies exists|
            i: int,
        | #[trigger]
            last_report(now, ends, i) && all[ends] == paths[i] by {
            if ends == last {
                assert(last_report(now, ends, n - 1));
            } else {
                assert(before.dom().contains(ends));
                let i = choose|i: int| #[trigger]
                    last_report(old, ends, i) && before[ends] == paths[i];
                assert forall|j: int| i < j < now.len() implies ends != seq![
                    (#[trigger] now[j]).key.local,
                    now[j].key.remote,
                ] by {
                    if j < n - 1 {
                        assert(old[j] == now[j]);
                    }
                }
                assert(old[i] == now[i]);
                assert(last_report(now, ends, i));
            }
        }
        assert forall|ends: Seq<Seq<char>>, i: int| #[trigger]
            last_report(now, ends, i) implies all.dom().contains(ends) && all[ends] == paths[i] by {
            if i < n - 1 {
                assert(now[n - 1] == paths[n - 1]);
                assert(ends != last);
                assert(old[i] == now[i]);
                assert forall|j: int| i < j < old.len() implies ends != seq![
                    (#[trigger] old[j]).key.local,
                    old[j].key.remote,
                ] by {
                    assert(old[j] == now[j]);
                }
                assert(last_report(old, ends, i));
            }
        }
    }
}

/// The ends between which the last report on the path is of some kind.
pub open spec fn ends_with(
    paths: Seq<PathRecordView>,
    holds: spec_fn(PathRecordView) -> bool,
) -> Set<Seq<Seq<char>>> {
    Set::new(
        |ends: Seq<Seq<char>>|
            exists|i: int| #[trigger] last_report(paths, ends, i) && holds(paths[i]),
    )
}

proof fn lemma_keys_counted<V>(
    map: Map<Seq<Seq<char>>, V>,
    keys: Seq<Seq<Seq<char>>>,
    holds: spec_fn(V) -> bool,
    n: nat,
)
    requires
        n <= keys.len(),
        forall|i: int, j: int| 0 <= i < j < keys.len() ==> #[trigger] keys[i] != #[trigger] keys[j],
    ensures
        Set::new(
            |key: Seq<Seq<char>>| holds(map[key]) && keys.take(n as int).contains(key),
        ).finite(),
        Set::new(
            |key: Seq<Seq<char>>| holds(map[key]) && keys.take(n as int).contains(key),
        ).len() == how_many(Seq::new(keys.len(), |i: int| map[keys[i]]), holds, n),
    decreases n,
{
    let all = Set::new(
        |key: Seq<Seq<char>>| holds(map[key]) && keys.take(n as int).contains(key),
    );
    if n == 0 {
        assert(all =~= Set::empty());
    } else {
        lemma_keys_counted(map, keys, holds, (n - 1) as nat);
        let before = Set::new(
            |key: Seq<Seq<char>>| holds(map[key]) && keys.take(n - 1).contains(key),
        );
        let last = keys[n - 1];
        assert forall|key: Seq<Seq<char>>| keys.take(n as int).contains(key) <==> keys.take(
            n - 1,
        ).contains(key) || key == last by {
            assert(keys.take(n as int)[n - 1] == last);
            if keys.take(n - 1).contains(key) {
                let k = choose|k: int|
                    0 <= k < keys.take(n - 1).len() && #[trigger] keys.take(n - 1)[k] == key;
                assert(keys.take(n as int)[k] == key);
            }
            if keys.take(n as int).contains(key) && key != last {
                let k = choose|k: int|
                    0 <= k < keys.take(n as int).len() && #[trigger] keys.take(n as int)[k] == key;
                assert(keys.take(n - 1)[k] == key);
            }
        }
        if keys.take(n - 1).contains(last) {
            let k = choose|k: int| 0 <= k < keys.take(n - 1).len() && #[trigger] keys.take(n - 1)[k] == last;
            assert(keys[k] == last);
        }
        if holds(map[last]) {
            assert(all =~= before.insert(last));
        } else {
            assert(all =~= before);
        }
    }
}

proof fn lemma_reported_counted(
    paths: Seq<PathRecordView>,
    holds: spec_fn(PathRecordView) -> bool,
)
    ensures
        how_many(
            listed(paths_by_ends(paths, paths.len())),
            holds,
            listed(paths_by_ends(paths, paths.len())).len(),
        ) == ends_with(paths, holds).len(),
{
    let map = paths_by_ends(paths, paths.len());
    let keys = sorted_keys(map.dom());
    lemma_paths_by_ends(paths, paths.len());
    assert(paths.take(paths.len() as int) =~= paths);
    lemma_listing(map);
    assert forall|i: int, j: int| 0 <= i < j < keys.len() implies #[trigger] keys[i]
        != #[trigger] keys[j] by {
        crate::text::lemma_parts_lt_irreflexive(keys[i]);
    }
    lemma_keys_counted(map, keys, holds, keys.len());
    assert(keys.take(keys.len() as int) =~= keys);
    let all = Set::new(
        |key: Seq<Seq<char>>| holds(map[key]) && keys.take(keys.len() as int).contains(key),
    );
    assert forall|key: Seq<Seq<char>>| keys.contains(key) == map.dom().contains(key) by {}
    assert forall|key: Seq<Seq<char>>| all.contains(key) <==> ends_with(paths, holds).contains(
        key,
    ) by {
        if all.contains(key) {
            assert(map.dom().contains(key));
            let i = choose|i: int| #[trigger] last_report(paths, key, i) && map[key] == paths[i];
            assert(last_report(paths, key, i) && holds(paths[i]));
        }
        if ends_with(paths, holds).contains(key) {
            let i = choose|i: int| #[trigger] last_report(paths, key, i) && holds(paths[i]);
            assert(map.dom().contains(key) && map[key] == paths[i]);
        }
    }
    assert(all =~= ends_with(paths, holds));
}

/// One of the counts is that of a state.
pub open spec fn counts_state(counts: Seq<PathStateCount>, state: PathState) -> bool {
    exists|k: int| 0 <= k < counts.len() && (#[trigger] counts[k]).state == state
}

/// Paths are counted by what was last reported on them: a path whose last report is older than path
/// states last is stale, and each other path counts for the state that was last reported. There is
/// one count for each state.
pub proof fn law_paths_count_by_the_last_report(
    r: ControlPlaneMetricsResponse,
    config: ControlPlaneConfig,
    participants: Seq<NodeRecordView>,
    health: Map<Seq<Seq<char>>, NodeHealthView>,
    instances: Seq<ServiceInstanceView>,
    policy: ClusterPolicyView,
    paths: Seq<PathRecordView>,
    operations: ControlPlaneOperationMetrics,
    now: Timestamp,
)
    requires
        metrics_say(
            r,
            config,
            participants,
            health,
            instances,
            policy,
            paths,
            operations,
            now,
        ),
    ensures
        r.stale_path_count == ends_with(
            paths,
            |path: PathRecordView|
                path.updated_at.at() + policy.path_state_ttl_seconds * 1_000_000_000 < now.at(),
        ).len(),
        r.path_count == ends_with(
            paths,
            |path: PathRecordView|
                now.at() <= path.updated_at.at() + policy.path_state_ttl_seconds * 1_000_000_000,
        ).len(),
        r.path_state_counts@.len() == 5,
        forall|k: int|
            0 <= k < 5 ==> (#[trigger] r.path_state_counts@[k]).count == ends_with(
                paths,
                |path: PathRecordView|
                    now.at() <= path.updated_at.at() + policy.path_state_ttl_seconds
                        * 1_000_000_000 && path.selected_state == r.path_state_counts@[k].state,
            ).len(),
        forall|state: PathState| #[trigger] counts_state(r.path_state_counts@, state),
{
    let reported = listed(paths_by_ends(paths, paths.len()));
    let n = reported.len();
    let ttl = policy.path_state_ttl_seconds;
    let stale = |path: PathRecordView| !fresh(path.updated_at, now, ttl);
    let old = |path: PathRecordView| path.updated_at.at() + ttl * 1_000_000_000 < now.at();
    let new = |path: PathRecordView| now.at() <= path.updated_at.at() + ttl * 1_000_000_000;
    let any = |path: PathRecordView| true;
    lemma_how_many_alike(reported, stale, old, n);
    lemma_how_many_split(reported, old, new, any, n);
    lemma_how_many_all(reported, any, n);
    lemma_reported_counted(paths, old);
    lemma_reported_counted(paths, new);
    let counts = r.path_state_counts@;
    assert(counts_view(counts).len() == 5);
    assert forall|k: int| 0 <= k < 5 implies (#[trigger] counts[k]).count == ends_with(
        paths,
        |path: PathRecordView|
            now.at() <= path.updated_at.at() + policy.path_state_ttl_seconds * 1_000_000_000
                && path.selected_state == counts[k].state,
    ).len() by {
        let state = counts[k].state;
        assert(counts_view(counts)[k] == (state, counts[k].count as nat));
        let a = |path: PathRecordView|
            fresh(path.updated_at, now, ttl) && path.selected_state == state;
        let b = |path: PathRecordView|
            now.at() <= path.updated_at.at() + policy.path_state_ttl_seconds * 1_000_000_000
                && path.selected_state == counts[k].state;
        lemma_how_many_alike(reported, a, b, n);
        lemma_reported_counted(paths, b);
        assert(state_counts(reported, now, ttl)[k].0 == state);
    }
    assert forall|state: PathState| #[trigger] counts_state(counts, state) by {
        assert forall|k: int| 0 <= k < 5 implies (#[trigger] counts[k]).state == all_states()[k] by {
            assert(counts_view(counts)[k] == (counts[k].state, counts[k].count as nat));
        }
        match state {
            PathState::DirectPublic => {
                assert(counts[0].state == state);
            },
            PathState::DirectIpv6 => {
                assert(counts[1].state == state);
            },
            PathState::DirectNatTraversal => {
                assert(counts[2].state == state);
            },
            PathState::Relay => {
                assert(counts[3].state == state);
            },
            PathState::Unreachable => {
                assert(counts[4].state == state);
            },
        }
    }
}

/// Between two nodes, the one counts as visible to the other exactly where it is seen, and its routes
/// exactly as far as they are shown.
pub proof fn law_pairs_count_what_is_seen(
    source: NodeRecordView,
    target: NodeRecordView,
    rules: Seq<AclRuleView>,
)
    requires
        source.node_id != target.node_id,
    ensures
        ({
            let tally = pair_tally(source, target, rules);
            let seen = crate::acl::visible_peer(source, target, rules);
            &&& tally.peer_candidates == 1
            &&& tally.visible_peers == if seen is Some { 1nat } else { 0nat }
            &&& tally.acl_denied_peers == if seen is Some { 0nat } else { 1nat }
            &&& tally.route_candidates == target.routes.len()
            &&& tally.visible_routes == if seen is Some { seen->0.routes.len() } else { 0nat }
            &&& tally.visible_routes + tally.acl_denied_routes == target.routes.len()
        }),
{
    let keep = |route: RouteView| route_allowed(source, target, route, rules);
    lemma_kept_len(target.routes, keep, target.routes.len());
    lemma_pair(source, target, rules);
    if rules.len() > 0 {
        assert(crate::lists::kept(target.routes, keep, target.routes.len()).len()
            == usable_routes(source, target, rules, target.routes.len()));
    }
}

/// The pairs of different nodes of which the first sees the second.
pub open spec fn seeing_pairs(
    nodes: Seq<NodeRecordView>,
    rules: Seq<AclRuleView>,
) -> Set<(int, int)> {
    Set::new(
        |p: (int, int)|
            0 <= p.0 < nodes.len() && 0 <= p.1 < nodes.len() && nodes[p.0].node_id
                != nodes[p.1].node_id && crate::acl::visible_peer(
                nodes[p.0],
                nodes[p.1],
                rules,
            ) is Some,
    )
}

/// The pairs of different nodes.
pub open spec fn different_pairs(nodes: Seq<NodeRecordView>) -> Set<(int, int)> {
    Set::new(
        |p: (int, int)|
            0 <= p.0 < nodes.len() && 0 <= p.1 < nodes.len() && nodes[p.0].node_id
                != nodes[p.1].node_id,
    )
}

proof fn lemma_row_places(
    source: NodeRecordView,
    nodes: Seq<NodeRecordView>,
    rules: Seq<AclRuleView>,
    m: nat,
)
    requires
        m <= nodes.len(),
    ensures
        row_tally(source, nodes, rules, m).visible_peers == how_many(
            nodes,
            |target: NodeRecordView|
                source.node_id != target.node_id && crate::acl::visible_peer(
                    source,
                    target,
                    rules,
                ) is Some,
            m,
        ),
        row_tally(source, nodes, rules, m).peer_candidates == how_many(
            nodes,
            |target: NodeRecordView| source.node_id != target.node_id,
            m,
        ),
    decreases m,
{
    if m > 0 {
        lemma_row_places(source, nodes, rules, (m - 1) as nat);
        if source.node_id != nodes[m - 1].node_id {
            law_pairs_count_what_is_seen(source, nodes[m - 1], rules);
        }
    }
}

proof fn lemma_rows_added(nodes: Seq<NodeRecordView>, rules: Seq<AclRuleView>, n: nat)
    ensures
        visibility_tally(nodes, rules, n).visible_peers == added(
            |i: int| row_tally(nodes[i], nodes, rules, nodes.len()).visible_peers,
            n,
        ),
        visibility_tally(nodes, rules, n).peer_candidates == added(
            |i: int| row_tally(nodes[i], nodes, rules, nodes.len()).peer_candidates,
            n,
        ),
    decreases n,
{
    if n > 0 {
        lemma_rows_added(nodes, rules, (n - 1) as nat);
    }
}

/// Each ordered pair of different nodes counts once, and as visible exactly where the first node sees
/// the second one.
pub proof fn law_visibility_counts_seeing_pairs(
    r: ControlPlaneMetricsResponse,
    config: ControlPlaneConfig,
    participants: Seq<NodeRecordView>,
    health: Map<Seq<Seq<char>>, NodeHealthView>,
    instances: Seq<ServiceInstanceView>,
    policy: ClusterPolicyView,
    paths: Seq<PathRecordView>,
    operations: ControlPlaneOperationMetrics,
    now: Timestamp,
)
    requires
        metrics_say(
            r,
            config,
            participants,
            health,
            instances,
            policy,
            paths,
            operations,
            now,
        ),
    ensures
        r.visibility@.peer_candidates == different_pairs(workers(participants)).len(),
        r.visibility@.visible_peers == seeing_pairs(
            workers(participants),
            policy.acl_rules,
        ).len(),
        r.visibility@.visible_peers + r.visibility@.acl_denied_peers
            == r.visibility@.peer_candidates,
{
    let nodes = workers(participants);
    let rules = policy.acl_rules;
    let n = nodes.len();
    let sees = |i: int|
        places(
            nodes,
            |target: NodeRecordView|
                nodes[i].node_id != target.node_id && crate::acl::visible_peer(
                    nodes[i],
                    target,
                    rules,
                ) is Some,
            n,
        );
    let differs = |i: int|
        places(nodes, |target: NodeRecordView| nodes[i].node_id != target.node_id, n);
    let a = |i: int| row_tally(nodes[i], nodes, rules, nodes.len()).visible_peers;
    let b = |i: int| row_tally(nodes[i], nodes, rules, nodes.len()).peer_candidates;
    lemma_rows_added(nodes, rules, n);
    assert forall|i: int| 0 <= i < n implies (#[trigger] sees(i)).finite() && sees(i).len() == a(
        i,
    ) by {
        lemma_row_places(nodes[i], nodes, rules, n);
        lemma_how_many_places(
            nodes,
            |target: NodeRecordView|
                nodes[i].node_id != target.node_id && crate::acl::visible_peer(
                    nodes[i],
                    target,
                    rules,
                ) is Some,
            n,
        );
    }
    assert forall|i: int| 0 <= i < n implies (#[trigger] differs(i)).finite() && differs(i).len()
        == b(i) by {
        lemma_row_places(nodes[i], nodes, rules, n);
        lemma_how_many_places(
            nodes,
            |target: NodeRecordView| nodes[i].node_id != target.node_id,
            n,
        );
    }
    lemma_sizes_add_up(sees, a, n);
    lemma_sizes_add_up(differs, b, n);
    assert(tagged(sees, n) =~= seeing_pairs(nodes, rules));
    assert(tagged(differs, n) =~= different_pairs(nodes));
    law_visibility_is_balanced(nodes, rules);
}

/// The services that are counted are the active ones; a host counts once, however many services it
/// has, for each kind that it offers; and the cluster counts as highly available exactly where enough
/// hosts offer all kinds.
pub proof fn law_hosts_count_once_per_kind(
    r: ControlPlaneMetricsResponse,
    config: ControlPlaneConfig,
    participants: Seq<NodeRecordView>,
    health: Map<Seq<Seq<char>>, NodeHealthView>,
    instances: Seq<ServiceInstanceView>,
    policy: ClusterPolicyView,
    paths: Seq<PathRecordView>,
    operations: ControlPlaneOperationMetrics,
    now: Timestamp,
)
    requires
        metrics_say(
            r,
            config,
            participants,
            health,
            instances,
            policy,
            paths,
            operations,
            now,
        ),
    ensures
        r.active_service_instance_count == instances.len(),
        r.active_service_host_count == hosts(
            instances,
            |instance: ServiceInstanceView| true,
        ).len(),
        r.active_control_plane_count == hosts(
            instances,
            |instance: ServiceInstanceView|
                crate::service::has_kind(instance.endpoints, BootstrapEndpointKind::ControlPlane),
        ).len(),
        r.active_signal_count == hosts(
            instances,
            |instance: ServiceInstanceView|
                crate::service::has_kind(instance.endpoints, BootstrapEndpointKind::Signal),
        ).len(),
        r.active_stun_count == hosts(
            instances,
            |instance: ServiceInstanceView|
                crate::service::has_kind(instance.endpoints, BootstrapEndpointKind::Stun),
        ).len(),
        r.active_relay_count == hosts(
            instances,
            |instance: ServiceInstanceView|
                crate::service::has_kind(instance.endpoints, BootstrapEndpointKind::Relay),
        ).len(),
        r.active_web_ui_count == hosts(
            instances,
            |instance: ServiceInstanceView|
                crate::service::has_kind(instance.endpoints, BootstrapEndpointKind::WebUi),
        ).len(),
        r.ha_ready ==> config.service_ha_replica_count > 0 && r.active_control_plane_count
            >= config.service_ha_replica_count && r.active_signal_count
            >= config.service_ha_replica_count && r.active_stun_count
            >= config.service_ha_replica_count && r.active_relay_count
            >= config.service_ha_replica_count && r.active_web_ui_count
            >= config.service_ha_replica_count,
{
    let n = instances.len();
    lemma_hosts(instances);
    assert forall|kind: BootstrapEndpointKind| #[trigger] owners_offering(
        instances,
        kind,
        n,
    ) == hosts(
        instances,
        |instance: ServiceInstanceView| crate::service::has_kind(instance.endpoints, kind),
    ) by {
        lemma_hosts_of_kind(instances, kind);
    }
    lemma_hosts_of_kind(instances, BootstrapEndpointKind::ControlPlane);
    lemma_hosts_of_kind(instances, BootstrapEndpointKind::Signal);
    lemma_hosts_of_kind(instances, BootstrapEndpointKind::Stun);
    lemma_hosts_of_kind(instances, BootstrapEndpointKind::Relay);
    lemma_hosts_of_kind(instances, BootstrapEndpointKind::WebUi);
    let full = full_owners(instances);
    vstd::set_lib::lemma_len_subset(
        full,
        owners_offering(instances, BootstrapEndpointKind::ControlPlane, n),
    );
    vstd::set_lib::lemma_len_subset(
        full,
        owners_offering(instances, BootstrapEndpointKind::Signal, n),
    );
    vstd::set_lib::lemma_len_subset(
        full,
        owners_offering(instances, BootstrapEndpointKind::Stun, n),
    );
    vstd::set_lib::lemma_len_subset(
        full,
        owners_offering(instances, BootstrapEndpointKind::Relay, n),
    );
    vstd::set_lib::lemma_len_subset(
        full,
        owners_offering(instances, BootstrapEndpointKind::WebUi, n),
    );
}

/// The hosts that own a service of which something holds.
pub open spec fn hosts(
    instances: Seq<ServiceInstanceView>,
    holds: spec_fn(ServiceInstanceView) -> bool,
) -> Set<Seq<char>> {
    Set::new(
        |owner: Seq<char>|
            exists|i: int|
                0 <= i < instances.len() && (#[trigger] instances[i]).owner_host_id == owner
                    && instances[i].owner_node_id == Some(owner) && holds(instances[i]),
    )
}

proof fn lemma_hosts(instances: Seq<ServiceInstanceView>)
    ensures
        owners(instances, instances.len()) == hosts(
            instances,
            |instance: ServiceInstanceView| true,
        ),
{
    let n = instances.len();
    let all = hosts(instances, |instance: ServiceInstanceView| true);
    assert forall|owner: Seq<char>| owners(instances, n).contains(owner) <==> all.contains(
        owner,
    ) by {
        law_owners_offer_what_their_services_have(
            instances,
            BootstrapEndpointKind::Signal,
            n,
            owner,
        );
        if owners(instances, n).contains(owner) {
            let i = choose|i: int|
                0 <= i < n && (#[trigger] instances[i]).owner_host_id == owner
                    && instances[i].owner_node_id == Some(owner);
            assert(instances[i].owner_host_id == owner);
        }
    }
    assert(owners(instances, n) =~= all);
}

proof fn lemma_hosts_of_kind(instances: Seq<ServiceInstanceView>, kind: BootstrapEndpointKind)
    ensures
        owners_offering(instances, kind, instances.len()) == hosts(
            instances,
            |instance: ServiceInstanceView| crate::service::has_kind(instance.endpoints, kind),
        ),
        owners_offering(instances, kind, instances.len()).finite(),
{
    let n = instances.len();
    let holds = |instance: ServiceInstanceView|
        crate::service::has_kind(instance.endpoints, kind);
    let all = hosts(instances, holds);
    assert forall|owner: Seq<char>|
        owners_offering(instances, kind, n).contains(owner) <==> all.contains(owner) by {
        law_owners_offer_what_their_services_have(instances, kind, n, owner);
        if owners_offering(instances, kind, n).contains(owner) {
            let i = choose|i: int|
                0 <= i < n && (#[trigger] instances[i]).owner_host_id == owner
                    && instances[i].owner_node_id == Some(owner) && crate::service::has_kind(
                    instances[i].endpoints,
                    kind,
                );
            assert(instances[i].owner_host_id == owner && holds(instances[i]));
        }
    }
    assert(owners_offering(instances, kind, n) =~= all);
    law_owners_offer_what_their_services_have(instances, kind, n, Seq::empty());
}

/// The classifications that are kept are counted as stale where they were assessed longer ago than
/// they last. Of the others each counts under its strategy, and those count as doubtful that do not
/// have the confidence that policy asks for.
pub proof fn law_classifications_count_while_they_last(
    r: ControlPlaneNatDiscoveryOverview,
    nats: Map<Seq<Seq<char>>, NatClassificationView>,
    policy: ClusterPolicyView,
    strategies: usize,
    now: Timestamp,
)
    requires
        nat_overview_says(r, nats, policy, strategies, now),
    ensures
        ({
            let all = listed(nats);
            let ttl = policy.nat_classification_ttl_seconds * 1_000_000_000;
            &&& r.nat_classification_count == all.len()
            &&& r.stale_nat_classification_count == places(
                all,
                |c: NatClassificationView| c.assessed_at.at() + ttl < now.at(),
                all.len(),
            ).len()
            &&& r.fresh_low_confidence_nat_classification_count
                + r.stale_nat_classification_count <= r.nat_classification_count
            &&& r.fresh_low_confidence_nat_classification_count == places(
                all,
                |c: NatClassificationView|
                    now.at() <= c.assessed_at.at() + ttl && !c.confidence.nan() && (
                    c.confidence_percent is Some ==> c.confidence_percent->0
                        < policy.nat_classification_min_confidence_percent),
                all.len(),
            ).len()
            &&& forall|k: int|
                0 <= k < strategies ==> (
                #[trigger] r.fresh_nat_classification_strategy_counts@[k]) == places(
                    all,
                    |c: NatClassificationView|
                        now.at() <= c.assessed_at.at() + ttl && c.strategy == k,
                    all.len(),
                ).len()
        }),
{
    let all = listed(nats);
    let n = all.len();
    let seconds = policy.nat_classification_ttl_seconds;
    let percent = policy.nat_classification_min_confidence_percent;
    let ttl = policy.nat_classification_ttl_seconds * 1_000_000_000;
    let old = |c: NatClassificationView| c.assessed_at.at() + ttl < now.at();
    let low = |c: NatClassificationView|
        now.at() <= c.assessed_at.at() + ttl && !c.confidence.nan() && (
        c.confidence_percent is Some ==> c.confidence_percent->0
            < policy.nat_classification_min_confidence_percent);
    let either = |c: NatClassificationView| old(c) || low(c);
    lemma_how_many_alike(
        all,
        |c: NatClassificationView| !fresh(c.assessed_at, now, seconds),
        old,
        n,
    );
    lemma_how_many_alike(
        all,
        |c: NatClassificationView|
            fresh(c.assessed_at, now, seconds) && low_confidence(c, percent),
        low,
        n,
    );
    lemma_how_many_split(all, old, low, either, n);
    lemma_how_many_all(all, either, n);
    lemma_how_many_places(all, old, n);
    lemma_how_many_places(all, low, n);
    assert forall|k: int| 0 <= k < strategies implies (
    #[trigger] r.fresh_nat_classification_strategy_counts@[k]) == places(
        all,
        |c: NatClassificationView| now.at() <= c.assessed_at.at() + ttl && c.strategy == k,
        all.len(),
    ).len() by {
        let a = |c: NatClassificationView|
            fresh(c.assessed_at, now, seconds) && c.strategy == k;
        let b = |c: NatClassificationView|
            now.at() <= c.assessed_at.at() + ttl && c.strategy == k;
        lemma_how_many_alike(all, a, b, n);
        lemma_how_many_places(all, b, n);
    }
}

} // verus!
