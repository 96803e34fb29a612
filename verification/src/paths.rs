//! The paths of a heartbeat among the nodes of the cluster: relays and visible peers.

use vstd::prelude::*;

use crate::acl::{acl_filter_peer, visible_peer};
use crate::error::{refusal, ControlPlaneError};
use crate::heartbeat::{path_label, path_name, update_rejection};
use crate::ids::NodeId;
use crate::lists::{first_in, lemma_first_in_extends};
use crate::map::{held, OrderedMap};
use crate::nodes::{
    entry_of, find_entry, find_node, may_relay, named, relay_candidate_allowed,
};
use crate::time::Timestamp;
use crate::types::{
    views, ClusterPolicy, ClusterPolicyView, HeartbeatRequest, NodeHealth, NodeHealthView,
    NodeRecord, NodeRecordView, PathRecord, PathRecordView, PathState,
};

verus! {

/// Why the relay and the candidate of a path do not go with its state.
pub open spec fn relay_shape_fault(path: PathRecordView) -> Option<Seq<char>> {
    let relayed = path.selected_state == PathState::Relay;
    if relayed && path.selected_candidate is Some {
        Some("relay "@ + path_name(path.key) + " must not carry a direct selected candidate"@)
    } else if path.selected_state == PathState::Unreachable && path.selected_candidate is Some {
        Some("unreachable "@ + path_name(path.key) + " must not carry a selected candidate"@)
    } else {
        match path.relay_node {
            Some(relay) => if relayed {
                if relay == path.key.local || relay == path.key.remote {
                    Some(
                        "relay "@ + path_name(path.key) + " uses endpoint "@ + relay
                            + " as relay"@,
                    )
                } else {
                    None
                }
            } else {
                Some("non-relay "@ + path_name(path.key) + " carries relay node "@ + relay)
            },
            None => if relayed {
                Some("relay "@ + path_name(path.key) + " is missing relay node"@)
            } else {
                None
            },
        }
    }
}

fn check_relay_shape(path: &PathRecord) -> (r: Option<String>)
    ensures
        crate::types::opt_view(r) == relay_shape_fault(path@),
{
    let relayed = path.selected_state == PathState::Relay;
    let label = path_label(&path.key);
    if relayed && path.selected_candidate.is_some() {
        return Some(
            "relay ".to_owned().concat(label.as_str()).concat(
                " must not carry a direct selected candidate",
            ),
        );
    }
    if path.selected_state == PathState::Unreachable && path.selected_candidate.is_some() {
        return Some(
            "unreachable ".to_owned().concat(label.as_str()).concat(
                " must not carry a selected candidate",
            ),
        );
    }
    match &path.relay_node {
        Some(relay) => {
            if relayed {
                if *relay == path.key.local || *relay == path.key.remote {
                    return Some(
                        "relay ".to_owned().concat(label.as_str()).concat(" uses endpoint ").concat(
                            relay.as_str(),
                        ).concat(" as relay"),
                    );
                }
                None
            } else {
                Some(
                    "non-relay ".to_owned().concat(label.as_str()).concat(
                        " carries relay node ",
                    ).concat(relay.as_str()),
                )
            }
        },
        None => {
            if relayed {
                return Some(
                    "relay ".to_owned().concat(label.as_str()).concat(" is missing relay node"),
                );
            }
            None
        },
    }
}

/// Why the relay or the candidate of one of the first `n` paths does not go with its state.
pub open spec fn first_relay_shape_fault(paths: Seq<PathRecordView>, n: nat) -> Option<Seq<char>> {
    first_in(n, |i: int| relay_shape_fault(paths[i]))
}

/// Checks that the relay and the candidate of each path go with its state.
pub fn validate_heartbeat_path_relay_shape(request: &HeartbeatRequest) -> (r: Result<
    (),
    ControlPlaneError,
>)
    ensures
        refusal(r) == update_rejection(
            request@.node_id,
            first_relay_shape_fault(request@.path_state, request@.path_state.len()),
        ),
{
    let ghost all = views(request.path_state@);
    let mut i: usize = 0;
    while i < request.path_state.len()
        invariant
            i <= request.path_state@.len(),
            all == views(request.path_state@),
            first_relay_shape_fault(all, i as nat) is None,
        decreases request.path_state@.len() - i,
    {
        assert(all[i as int] == request.path_state@[i as int]@);
        if let Some(reason) = check_relay_shape(&request.path_state[i]) {
            proof {
                lemma_first_in_extends(
                    (i + 1) as nat,
                    all.len(),
                    |k: int| relay_shape_fault(all[k]),
                );
            }
            return Err(
                ControlPlaneError::NodeUpdateRejected { node_id: request.node_id.clone(), reason },
            );
        }
        i = i + 1;
    }
    Ok(())
}

/// Why the peer of a path is not one that the reporter sees.
pub open spec fn peer_fault(
    path: PathRecordView,
    reporter: NodeRecordView,
    nodes: Seq<NodeRecordView>,
    policy: ClusterPolicyView,
) -> Option<Seq<char>> {
    match named(nodes, path.key.remote) {
        None => Some(path_name(path.key) + " remote node is not registered"@),
        Some(remote) => if visible_peer(reporter, remote, policy.acl_rules) is None {
            Some(path_name(path.key) + " remote node is not visible to reporting node"@)
        } else {
            None
        },
    }
}

/// Why the peer of one of the first `n` paths is not one that the reporter sees.
pub open spec fn first_peer_fault(
    paths: Seq<PathRecordView>,
    reporter: NodeRecordView,
    nodes: Seq<NodeRecordView>,
    policy: ClusterPolicyView,
    n: nat,
) -> Option<Seq<char>> {
    first_in(n, |i: int| peer_fault(paths[i], reporter, nodes, policy))
}

fn check_peer(
    path: &PathRecord,
    reporter: &NodeRecord,
    nodes: &Vec<NodeRecord>,
    policy: &ClusterPolicy,
) -> (r: Option<String>)
    ensures
        crate::types::opt_view(r) == peer_fault(path@, reporter@, views(nodes@), policy@),
{
    match find_node(nodes, &path.key.remote) {
        None => Some(path_label(&path.key).concat(" remote node is not registered")),
        Some(remote) => {
            if acl_filter_peer(reporter, remote, policy).is_none() {
                return Some(
                    path_label(&path.key).concat(" remote node is not visible to reporting node"),
                );
            }
            None
        },
    }
}

/// Checks that the reporter sees the peer of each path.
pub fn validate_heartbeat_path_peers_visible(
    request: &HeartbeatRequest,
    reporter: &NodeRecord,
    nodes: &Vec<NodeRecord>,
    policy: &ClusterPolicy,
) -> (r: Result<(), ControlPlaneError>)
    ensures
        refusal(r) == update_rejection(
            request@.node_id,
            first_peer_fault(
                request@.path_state,
                reporter@,
                views(nodes@),
                policy@,
                request@.path_state.len(),
            ),
        ),
{
    let ghost all = views(request.path_state@);
    let mut i: usize = 0;
    while i < request.path_state.len()
        invariant
            i <= request.path_state@.len(),
            all == views(request.path_state@),
            first_peer_fault(all, reporter@, views(nodes@), policy@, i as nat) is None,
        decreases request.path_state@.len() - i,
    {
        assert(all[i as int] == request.path_state@[i as int]@);
        if let Some(reason) = check_peer(&request.path_state[i], reporter, nodes, policy) {
            proof {
                lemma_first_in_extends(
                    (i + 1) as nat,
                    all.len(),
                    |k: int| peer_fault(all[k], reporter@, views(nodes@), policy@),
                );
            }
            return Err(
                ControlPlaneError::NodeUpdateRejected { node_id: request.node_id.clone(), reason },
            );
        }
        i = i + 1;
    }
    Ok(())
}

/// Why the relay of a path may not be used.
pub open spec fn relay_fault(
    path: PathRecordView,
    reporter: NodeRecordView,
    nodes: Seq<NodeRecordView>,
    health: Map<Seq<Seq<char>>, NodeHealthView>,
    now: Timestamp,
    policy: ClusterPolicyView,
) -> Option<Seq<char>> {
    if path.selected_state != PathState::Relay || path.relay_node is None {
        None
    } else {
        let relay_id = path.relay_node->0;
        match named(nodes, relay_id) {
            None => Some("relay node "@ + relay_id + " is not registered"@),
            Some(relay) => if !may_relay(relay, entry_of(health, relay_id), now, policy) {
                Some("relay node "@ + relay_id + " is not an eligible relay candidate"@)
            } else if visible_peer(reporter, relay, policy.acl_rules) is None {
                Some("relay node "@ + relay_id + " is not visible to reporting node"@)
            } else {
                None
            },
        }
    }
}

/// Why the relay of one of the first `n` paths may not be used.
pub open spec fn first_relay_fault(
    paths: Seq<PathRecordView>,
    reporter: NodeRecordView,
    nodes: Seq<NodeRecordView>,
    health: Map<Seq<Seq<char>>, NodeHealthView>,
    now: Timestamp,
    policy: ClusterPolicyView,
    n: nat,
) -> Option<Seq<char>> {
    first_in(n, |i: int| relay_fault(paths[i], reporter, nodes, health, now, policy))
}

fn check_relay(
    path: &PathRecord,
    reporter: &NodeRecord,
    nodes: &Vec<NodeRecord>,
    health_by_node: &OrderedMap<NodeId, NodeHealth>,
    now: Timestamp,
    policy: &ClusterPolicy,
) -> (r: Option<String>)
    requires
        health_by_node.wf(),
    ensures
        crate::types::opt_view(r) == relay_fault(
            path@,
            reporter@,
            views(nodes@),
            held(health_by_node@),
            now,
            policy@,
        ),
{
    if path.selected_state != PathState::Relay {
        return None;
    }
    let relay_id = match &path.relay_node {
        Some(relay_id) => relay_id,
        None => return None,
    };
    let relay = match find_node(nodes, relay_id) {
        Some(relay) => relay,
        None => return Some(
            "relay node ".to_owned().concat(relay_id.as_str()).concat(" is not registered"),
        ),
    };
    if !relay_candidate_allowed(relay, find_entry(health_by_node, relay_id), now, policy) {
        return Some(
            "relay node ".to_owned().concat(relay_id.as_str()).concat(
                " is not an eligible relay candidate",
            ),
        );
    }
    if acl_filter_peer(reporter, relay, policy).is_none() {
        return Some(
            "relay node ".to_owned().concat(relay_id.as_str()).concat(
                " is not visible to reporting node",
            ),
        );
    }
    None
}

/// Checks that the relay of each relayed path may be used.
pub fn validate_heartbeat_path_relay_eligibility(
    request: &HeartbeatRequest,
    reporter: &NodeRecord,
    nodes: &Vec<NodeRecord>,
    health_by_node: &OrderedMap<NodeId, NodeHealth>,
    now: Timestamp,
    policy: &ClusterPolicy,
) -> (r: Result<(), ControlPlaneError>)
    requires
        health_by_node.wf(),
    ensures
        refusal(r) == update_rejection(
            request@.node_id,
            first_relay_fault(
                request@.path_state,
                reporter@,
                views(nodes@),
                held(health_by_node@),
                now,
                policy@,
                request@.path_state.len(),
            ),
        ),
{
    let ghost all = views(request.path_state@);
    let ghost others = views(nodes@);
    let mut i: usize = 0;
    while i < request.path_state.len()
        invariant
            health_by_node.wf(),
            i <= request.path_state@.len(),
            all == views(request.path_state@),
            others == views(nodes@),
            first_relay_fault(all, reporter@, others, held(health_by_node@), now, policy@, i as nat)
                is None,
        decreases request.path_state@.len() - i,
    {
        assert(all[i as int] == request.path_state@[i as int]@);
        let fault = check_relay(
            &request.path_state[i],
            reporter,
            nodes,
            health_by_node,
            now,
            policy,
        );
        if let Some(reason) = fault {
            proof {
                lemma_first_in_extends(
                    (i + 1) as nat,
                    all.len(),
                    |k: int|
                        relay_fault(all[k], reporter@, others, held(health_by_node@), now, policy@),
                );
            }
            return Err(
                ControlPlaneError::NodeUpdateRejected { node_id: request.node_id.clone(), reason },
            );
        }
        i = i + 1;
    }
    Ok(())
}

/// The shape of a path is sound exactly where a relayed one names a relay that is neither of its ends
/// and has no direct candidate, where no other one names a relay, and where an unreachable one has no
/// candidate.
pub proof fn law_sound_path_shapes(path: PathRecordView)
    ensures
        relay_shape_fault(path) is None <==> {
            &&& path.relay_node is Some <==> path.selected_state == PathState::Relay
            &&& path.relay_node is Some ==> path.relay_node->0 != path.key.local
                && path.relay_node->0 != path.key.remote
            &&& path.selected_candidate is Some ==> path.selected_state != PathState::Relay
                && path.selected_state != PathState::Unreachable
        },
{
}

/// Reported paths are accepted, as far as the ends and relays go, exactly where each leads to a
/// registered node that the reporter may see and each relayed one goes over a registered node that
/// may relay and that the reporter may see.
pub proof fn law_reported_paths_lead_to_seen_nodes(
    paths: Seq<PathRecordView>,
    reporter: NodeRecordView,
    nodes: Seq<NodeRecordView>,
    health: Map<Seq<Seq<char>>, NodeHealthView>,
    now: Timestamp,
    policy: ClusterPolicyView,
)
    ensures
        first_relay_shape_fault(paths, paths.len()) is None <==> forall|i: int|
            0 <= i < paths.len() ==> relay_shape_fault(#[trigger] paths[i]) is None,
        first_peer_fault(paths, reporter, nodes, policy, paths.len()) is None <==> forall|i: int|
            0 <= i < paths.len() ==> (named(
                nodes,
                (#[trigger] paths[i]).key.remote,
            ) matches Some(remote) && visible_peer(reporter, remote, policy.acl_rules) is Some),
        first_relay_fault(paths, reporter, nodes, health, now, policy, paths.len()) is None
            <==> forall|i: int|
            0 <= i < paths.len() && (#[trigger] paths[i]).selected_state == PathState::Relay
                && paths[i].relay_node is Some ==> (named(
                nodes,
                paths[i].relay_node->0,
            ) matches Some(relay) && visible_peer(reporter, relay, policy.acl_rules) is Some
                && may_relay(relay, entry_of(health, paths[i].relay_node->0), now, policy)),
{
    let n = paths.len();
    let f = |i: int| relay_shape_fault(paths[i]);
    let g = |i: int| peer_fault(paths[i], reporter, nodes, policy);
    let h = |i: int| relay_fault(paths[i], reporter, nodes, health, now, policy);
    crate::lists::lemma_first_in_none(n, f);
    crate::lists::lemma_first_in_none(n, g);
    crate::lists::lemma_first_in_none(n, h);
    if first_relay_shape_fault(paths, n) is None {
        assert forall|i: int| 0 <= i < n implies relay_shape_fault(
            #[trigger] paths[i],
        ) is None by {
            assert(f(i) is None);
        }
    }
    if first_peer_fault(paths, reporter, nodes, policy, n) is None {
        assert forall|i: int| 0 <= i < n implies (named(
            nodes,
            (#[trigger] paths[i]).key.remote,
        ) matches Some(remote) && visible_peer(reporter, remote, policy.acl_rules) is Some) by {
            assert(g(i) is None);
        }
    }
    if first_relay_fault(paths, reporter, nodes, health, now, policy, n) is None {
        assert forall|i: int|
            0 <= i < n && (#[trigger] paths[i]).selected_state == PathState::Relay
                && paths[i].relay_node is Some implies (named(
            nodes,
            paths[i].relay_node->0,
        ) matches Some(relay) && visible_peer(reporter, relay, policy.acl_rules) is Some
            && may_relay(relay, entry_of(health, paths[i].relay_node->0), now, policy)) by {
            assert(h(i) is None);
        }
    }
}

} // verus!
