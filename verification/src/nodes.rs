//! Lists of nodes: finding a node, its health, and what others are served of it.

use vstd::prelude::*;

use crate::ids::NodeId;
use crate::lists::kept;
use crate::map::{held, OrderedMap};
use crate::time::{fresh, timestamp_is_fresh, Timestamp};
use crate::types::{
    lemma_views_push, ref_view, views, ClusterPolicy, ClusterPolicyView, EndpointCandidate,
    EndpointCandidateView, HealthState, NodeHealth, NodeHealthView, NodeRecord, NodeRecordView,
    Record,
};

verus! {

/// The last of the first `n` nodes that has the identifier.
pub open spec fn node_named(nodes: Seq<NodeRecordView>, id: Seq<char>, n: nat) -> Option<
    NodeRecordView,
>
    decreases n,
{
    if n == 0 {
        None
    } else if nodes[n - 1].node_id == id {
        Some(nodes[n - 1])
    } else {
        node_named(nodes, id, (n - 1) as nat)
    }
}

/// The node with an identifier. Where several have it, the last of them.
pub open spec fn named(nodes: Seq<NodeRecordView>, id: Seq<char>) -> Option<NodeRecordView> {
    node_named(nodes, id, nodes.len())
}

/// The node that is named is one of the list, and has the name.
pub proof fn lemma_node_named(nodes: Seq<NodeRecordView>, id: Seq<char>, n: nat)
    requires
        n <= nodes.len(),
    ensures
        node_named(nodes, id, n) matches Some(node) ==> node.node_id == id && nodes.contains(node),
        node_named(nodes, id, n) is None ==> forall|i: int|
            0 <= i < n ==> (#[trigger] nodes[i]).node_id != id,
    decreases n,
{
    if n > 0 && nodes[n - 1].node_id != id {
        lemma_node_named(nodes, id, (n - 1) as nat);
    }
}

/// The position of the node with an identifier. Where several have it, that of the last of them.
pub fn find_node_position(nodes: &Vec<NodeRecord>, id: &NodeId) -> (r: Option<usize>)
    ensures
        match r {
            Some(i) => i < nodes@.len() && named(views(nodes@), id@) == Some(nodes@[i as int]@),
            None => named(views(nodes@), id@) is None,
        },
{
    let ghost all = views(nodes@);
    let mut n: usize = nodes.len();
    while n > 0
        invariant
            n <= nodes@.len(),
            all == views(nodes@),
            node_named(all, id@, all.len()) == node_named(all, id@, n as nat),
        decreases n,
    {
        assert(all[n - 1] == nodes@[n - 1]@);
        if nodes[n - 1].node_id == *id {
            return Some(n - 1);
        }
        n = n - 1;
    }
    None
}

/// The node with an identifier. Where several have it, the last of them.
pub fn find_node<'a>(nodes: &'a Vec<NodeRecord>, id: &NodeId) -> (r: Option<&'a NodeRecord>)
    ensures
        match r {
            Some(node) => named(views(nodes@), id@) == Some(node@),
            None => named(views(nodes@), id@) is None,
        },
{
    match find_node_position(nodes, id) {
        Some(i) => Some(&nodes[i]),
        None => None,
    }
}

/// What a map holds for a node.
pub open spec fn entry_of<V>(map: Map<Seq<Seq<char>>, V>, id: Seq<char>) -> Option<V> {
    if map.dom().contains(seq![id]) {
        Some(map[seq![id]])
    } else {
        None
    }
}

/// What a map holds for a node.
pub fn find_entry<'a, V: View>(map: &'a OrderedMap<NodeId, V>, id: &NodeId) -> (r: Option<&'a V>)
    requires
        map.wf(),
    ensures
        match r {
            Some(value) => entry_of(held(map@), id@) == Some(value@),
            None => entry_of(held(map@), id@) is None,
        },
{
    map.get(id)
}

/// A node in this state of health may relay.
pub open spec fn health_lets_relay(
    health: Option<NodeHealthView>,
    now: Timestamp,
    ttl_seconds: u64,
) -> bool {
    match health {
        None => false,
        Some(health) => health.state == HealthState::Healthy && fresh(
            health.last_seen_at,
            now,
            ttl_seconds,
        ),
    }
}

/// Whether a node in this state of health may relay.
pub fn relay_health_allows(health: Option<&NodeHealth>, now: Timestamp, ttl_seconds: u64) -> (r: bool)
    ensures
        r == health_lets_relay(
            ref_view(health),
            now,
            ttl_seconds,
        ),
{
    match health {
        None => false,
        Some(health) => health.state == HealthState::Healthy && timestamp_is_fresh(
            health.last_seen_at,
            now,
            ttl_seconds,
        ),
    }
}

/// The node can relay for others, and its health lets it.
pub open spec fn may_relay(
    node: NodeRecordView,
    health: Option<NodeHealthView>,
    now: Timestamp,
    policy: ClusterPolicyView,
) -> bool {
    &&& node.relay_capability matches Some(capability) && capability.enabled_by_policy
        && capability.ready_to_relay
    &&& health_lets_relay(health, now, policy.relay_health_ttl_seconds)
}

/// Whether the node can relay for others, and its health lets it.
pub fn relay_candidate_allowed(
    node: &NodeRecord,
    health: Option<&NodeHealth>,
    now: Timestamp,
    policy: &ClusterPolicy,
) -> (r: bool)
    ensures
        r == may_relay(
            node@,
            ref_view(health),
            now,
            policy@,
        ),
{
    match &node.relay_capability {
        Some(capability) => capability.enabled_by_policy && capability.ready_to_relay
            && relay_health_allows(health, now, policy.relay_health_ttl_seconds),
        None => false,
    }
}

/// The candidate was seen recently and can be sent to.
pub open spec fn served_candidate(
    candidate: EndpointCandidateView,
    now: Timestamp,
    policy: ClusterPolicyView,
) -> bool {
    fresh(candidate.observed_at, now, policy.endpoint_candidate_ttl_seconds)
        && candidate.endpoint.usable
}

/// Whether a candidate was seen recently.
pub fn endpoint_candidate_is_fresh(
    candidate: &EndpointCandidate,
    now: Timestamp,
    ttl_seconds: u64,
) -> (r: bool)
    ensures
        r == fresh(candidate@.observed_at, now, ttl_seconds),
{
    timestamp_is_fresh(candidate.observed_at, now, ttl_seconds)
}

/// The node as others are served it: without stale or unusable candidates.
pub open spec fn served_node(
    node: NodeRecordView,
    now: Timestamp,
    policy: ClusterPolicyView,
) -> NodeRecordView {
    NodeRecordView {
        endpoint_candidates: kept(
            node.endpoint_candidates,
            |c: EndpointCandidateView| served_candidate(c, now, policy),
            node.endpoint_candidates.len(),
        ),
        ..node
    }
}

/// The node as others are served it: without stale or unusable candidates.
pub fn filter_served_endpoint_candidates(
    node: NodeRecord,
    now: Timestamp,
    policy: &ClusterPolicy,
) -> (r: NodeRecord)
    ensures
        r@ == served_node(node@, now, policy@),
{
    let ghost keep = |c: EndpointCandidateView| served_candidate(c, now, policy@);
    let ghost all = views(node.endpoint_candidates@);
    let mut candidates: Vec<EndpointCandidate> = Vec::new();
    let mut i: usize = 0;
    while i < node.endpoint_candidates.len()
        invariant
            i <= node.endpoint_candidates@.len(),
            all == views(node.endpoint_candidates@),
            keep == (|c: EndpointCandidateView| served_candidate(c, now, policy@)),
            views(candidates@) == kept(all, keep, i as nat),
        decreases node.endpoint_candidates@.len() - i,
    {
        broadcast use lemma_views_push;

        let candidate = &node.endpoint_candidates[i];
        assert(all[i as int] == candidate@);
        if endpoint_candidate_is_fresh(candidate, now, policy.endpoint_candidate_ttl_seconds)
            && candidate.endpoint.usable {
            candidates.push(candidate.duplicate());
        }
        i = i + 1;
    }
    let mut served = node;
    served.endpoint_candidates = candidates;
    served
}

/// A node may relay exactly where it has a relay that policy enables and that is ready, and where it
/// reported to be healthy and not longer ago than health lasts.
pub proof fn law_relays_are_ready_and_healthy(
    node: NodeRecordView,
    health: Option<NodeHealthView>,
    now: Timestamp,
    policy: ClusterPolicyView,
)
    ensures
        may_relay(node, health, now, policy) <==> node.relay_capability is Some
            && node.relay_capability->0.enabled_by_policy && node.relay_capability->0.ready_to_relay
            && health is Some && health->0.state == HealthState::Healthy && now.at()
            <= health->0.last_seen_at.at() + policy.relay_health_ttl_seconds * 1_000_000_000,
{
}

/// Of a node all is served but those of its candidates that cannot be used or were observed longer
/// ago than candidates last.
pub proof fn law_current_candidates_are_served(
    node: NodeRecordView,
    now: Timestamp,
    policy: ClusterPolicyView,
)
    ensures
        served_node(node, now, policy) == (NodeRecordView {
            endpoint_candidates: served_node(node, now, policy).endpoint_candidates,
            ..node
        }),
        forall|c: EndpointCandidateView| #[trigger]
            served_node(node, now, policy).endpoint_candidates.contains(c)
                <==> node.endpoint_candidates.contains(c) && c.endpoint.usable && now.at()
                <= c.observed_at.at() + policy.endpoint_candidate_ttl_seconds * 1_000_000_000,
        (forall|i: int|
            0 <= i < node.endpoint_candidates.len() ==> (
            #[trigger] node.endpoint_candidates[i]).endpoint.usable && now.at()
                <= node.endpoint_candidates[i].observed_at.at()
                + policy.endpoint_candidate_ttl_seconds * 1_000_000_000) ==> served_node(
            node,
            now,
            policy,
        ) == node,
{
    let keep = |c: EndpointCandidateView| served_candidate(c, now, policy);
    let all = node.endpoint_candidates;
    crate::lists::lemma_kept_members(all, keep);
    assert forall|c: EndpointCandidateView| #[trigger]
        served_node(node, now, policy).endpoint_candidates.contains(c) <==> all.contains(c)
            && c.endpoint.usable && now.at() <= c.observed_at.at()
            + policy.endpoint_candidate_ttl_seconds * 1_000_000_000 by {
        assert(kept(all, keep, all.len()).contains(c) <==> all.contains(c) && keep(c));
    }
    if forall|i: int|
        0 <= i < all.len() ==> (#[trigger] all[i]).endpoint.usable && now.at()
            <= all[i].observed_at.at() + policy.endpoint_candidate_ttl_seconds * 1_000_000_000 {
        crate::lists::lemma_kept_all(all, keep, all.len());
    }
}

/// A node is found by its identifier exactly where one is registered under it.
pub proof fn law_nodes_are_found_by_identifier(nodes: Seq<NodeRecordView>, id: Seq<char>)
    ensures
        named(nodes, id) is Some <==> exists|i: int|
            0 <= i < nodes.len() && (#[trigger] nodes[i]).node_id == id,
        named(nodes, id) matches Some(node) ==> node.node_id == id && nodes.contains(node),
{
    lemma_node_named(nodes, id, nodes.len());
    if named(nodes, id) is Some {
        let i = choose|i: int| 0 <= i < nodes.len() && nodes[i] == named(nodes, id)->0;
        assert(nodes[i].node_id == id);
    }
}

} // verus!
