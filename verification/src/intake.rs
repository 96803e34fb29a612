//! What an accepted heartbeat, registration or policy changes, and why it is not accepted.

use vstd::prelude::*;

use crate::config::{ControlPlaneConfig, ProtocolLimits};
use crate::error::{refusal, ControlPlaneError, ControlPlaneErrorView};
use crate::heartbeat::{heartbeat_refusal, update_rejection, validate_heartbeat_request};
use crate::ids::{ascending_texts, role_is_client, ClusterId, NodeId};
use crate::intents::{connection_intent_targets, wanted_by, PeerConnectionIntent};
use crate::lists::{first_in, lemma_first_in_extends};
use crate::map::{held, listed, OrderedMap};
use crate::net::Cidr;
use crate::paths::{
    first_peer_fault, first_relay_fault, first_relay_shape_fault,
    validate_heartbeat_path_peers_visible, validate_heartbeat_path_relay_eligibility,
    validate_heartbeat_path_relay_shape,
};
use crate::pins::{with_pins, AdminPathPins};
use crate::policy::{
    first_scope_pool_fault, policy_fault, policy_rejection, validate_cluster_policy,
    validate_overlay_route_scopes_against_vpn_pool,
};
use crate::registration::{
    enabled_capability, registration_rejection, relay_capability_fault,
    validate_relay_capability_shape,
};
use crate::routes::{
    backbone, backbone_nodes, catalog_epoch, overlay_route_catalog_epoch,
    overlay_route_catalog_update_validation, route_update_outcome, scope_fault,
    validate_routes_within_overlay_scopes,
};
use crate::service::{
    advertised_instance, advertisement_fault, heartbeat_service_instance,
    HEARTBEAT_SERVICE_LEASE_SECONDS,
};
use crate::store::{
    at, generation_refusal, late_refusal, node_after_heartbeat, one, StoreView,
};
use crate::time::Timestamp;
use crate::types::{
    alike_all, alike_option, duplicate_option, opt_view, ref_view, views, BootstrapEndpoint,
    ClusterPolicy, ClusterPolicyView, HeartbeatRequest, HeartbeatRequestView, HeartbeatStoreUpdate,
    HeartbeatStoreUpdateView, NodeHealth, NodeHealthView, NodeRecord, NodeRecordView, Record,
    RelayCapability, Route, RouteView, ServiceInstance,
};

verus! {

/// What was found out about a heartbeat beforehand.
#[derive(Debug)]
pub struct HeartbeatFindings {
    /// Why the signature does not verify, where it does not.
    pub signature_fault: Option<String>,
    /// What is wrong with the endpoints that are advertised, where something is.
    pub endpoints_fault: Option<String>,
    /// Whether the host name that is advertised is one.
    pub hostname_valid: bool,
}

/// What an accepted heartbeat leads to.
#[derive(Debug)]
pub struct AdmittedHeartbeat {
    /// What changes in the store.
    pub update: HeartbeatStoreUpdate,
    /// The services that the node advertises.
    pub service_instance: Option<ServiceInstance>,
    /// The nodes that the sender has recent traffic for.
    pub intent_targets: Vec<String>,
    /// Whether the overlay as it was known is no longer current.
    pub changes_overlay: bool,
}

/// The host name that a heartbeat advertises.
pub open spec fn advertised_hostname(request: HeartbeatRequestView) -> Option<Seq<char>> {
    match request.service_advertisement {
        Some(advertisement) => advertisement.hostname,
        None => None,
    }
}

/// The heartbeat brings routes, and these are not those that the node has.
pub open spec fn brings_new_routes(request: HeartbeatRequestView, node: NodeRecordView) -> bool {
    request.routes is Some && request.routes->0 != node.routes
}

/// Why the sender of a heartbeat is not accepted.
pub open spec fn heartbeat_sender_refusal(
    node_id: Seq<char>,
    node: Option<NodeRecordView>,
    cluster_id: Seq<char>,
) -> Option<ControlPlaneErrorView> {
    match node {
        None => Some(ControlPlaneErrorView::NodeNotFound { node_id }),
        Some(node) => if node.cluster_id != cluster_id {
            Some(ControlPlaneErrorView::NodeNotFound { node_id })
        } else if role_is_client(node.role) {
            update_rejection(node_id, Some("clients cannot submit node heartbeats"@))
        } else {
            None
        },
    }
}

/// Why the routes that a heartbeat brings are not accepted.
pub open spec fn new_routes_refusal(
    request: HeartbeatRequestView,
    node: NodeRecordView,
    policy: ClusterPolicyView,
    vpn_pool: Cidr,
    cluster_id: Seq<char>,
    listed: Seq<NodeRecordView>,
) -> Option<ControlPlaneErrorView> {
    if !brings_new_routes(request, node) {
        None
    } else {
        update_rejection(
            request.node_id,
            route_update_outcome(
                request.node_id,
                request.routes->0,
                policy.overlay_route_scopes,
                vpn_pool,
                cluster_id,
                listed,
            ).0,
        )
    }
}

/// The epoch of the route catalog that new routes were held against.
pub open spec fn new_routes_epoch(
    request: HeartbeatRequestView,
    node: NodeRecordView,
    policy: ClusterPolicyView,
    vpn_pool: Cidr,
    cluster_id: Seq<char>,
    listed: Seq<NodeRecordView>,
) -> Option<u64> {
    if !brings_new_routes(request, node) {
        None
    } else {
        route_update_outcome(
            request.node_id,
            request.routes->0,
            policy.overlay_route_scopes,
            vpn_pool,
            cluster_id,
            listed,
        ).1
    }
}

/// Why the paths that a heartbeat reports are not accepted by what is known of the other nodes.
pub open spec fn reported_paths_refusal(
    request: HeartbeatRequestView,
    node: NodeRecordView,
    listed: Seq<NodeRecordView>,
    health: Map<Seq<Seq<char>>, NodeHealthView>,
    policy: ClusterPolicyView,
    now: Timestamp,
) -> Option<ControlPlaneErrorView> {
    let paths = request.path_state;
    let n = paths.len();
    if first_relay_shape_fault(paths, n) is Some {
        update_rejection(request.node_id, first_relay_shape_fault(paths, n))
    } else if first_peer_fault(paths, node, listed, policy, n) is Some {
        update_rejection(request.node_id, first_peer_fault(paths, node, listed, policy, n))
    } else {
        update_rejection(
            request.node_id,
            first_relay_fault(paths, node, listed, health, now, policy, n),
        )
    }
}

/// Why the capability to relay that a heartbeat reports is not accepted.
pub open spec fn reported_relay_refusal(
    request: HeartbeatRequestView,
    node: NodeRecordView,
) -> Option<ControlPlaneErrorView> {
    match request.relay_capability {
        None => None,
        Some(capability) => if !node.token_policy.allow_relay {
            Some(ControlPlaneErrorView::RelayDenied)
        } else {
            update_rejection(
                request.node_id,
                relay_capability_fault(enabled_capability(capability)),
            )
        },
    }
}

/// Why a heartbeat is not accepted, all in all: its sender, its shape and signature, the services
/// that it advertises, its routes, its paths, its host name and its capability to relay are held to
/// their terms in this order.
pub open spec fn admission_of_heartbeat_refusal(
    config: ControlPlaneConfig,
    limits: ProtocolLimits,
    request: HeartbeatRequestView,
    node: Option<NodeRecordView>,
    policy: ClusterPolicyView,
    findings: HeartbeatFindings,
    previous_signature_at: Option<Timestamp>,
    listed: Seq<NodeRecordView>,
    health: Map<Seq<Seq<char>>, NodeHealthView>,
    now: Timestamp,
) -> Option<ControlPlaneErrorView> {
    let id = request.node_id;
    let sender = heartbeat_sender_refusal(id, node, config.cluster_id@);
    let shape = heartbeat_refusal(
        config,
        limits,
        request,
        node->0.token_policy,
        policy,
        opt_view(findings.signature_fault),
        previous_signature_at,
        now,
    );
    let services = update_rejection(
        id,
        advertisement_fault(request, node->0.vpn_ip, opt_view(findings.endpoints_fault)),
    );
    let routes = new_routes_refusal(
        request,
        node->0,
        policy,
        config.vpn_pool,
        config.cluster_id@,
        listed,
    );
    let paths = reported_paths_refusal(request, node->0, listed, health, policy, now);
    if sender is Some {
        sender
    } else if shape is Some {
        shape
    } else if services is Some {
        services
    } else if routes is Some {
        routes
    } else if paths is Some {
        paths
    } else if advertised_hostname(request) is Some && !findings.hostname_valid {
        update_rejection(
            id,
            Some("hostname must be 1 to 253 ASCII letters, digits, '.', '_' or '-'"@),
        )
    } else {
        reported_relay_refusal(request, node->0)
    }
}

/// What an accepted heartbeat changes in the store.
pub open spec fn heartbeat_update(
    config: ControlPlaneConfig,
    request: HeartbeatRequestView,
    node: NodeRecordView,
    policy: ClusterPolicyView,
    persisted_policy: Option<ClusterPolicyView>,
    listed: Seq<NodeRecordView>,
    pins: Map<Seq<Seq<char>>, bool>,
    now: Timestamp,
) -> HeartbeatStoreUpdateView {
    HeartbeatStoreUpdateView {
        cluster_id: config.cluster_id@,
        expected_cluster_policy: persisted_policy,
        expected_route_catalog_epoch: new_routes_epoch(
            request,
            node,
            policy,
            config.vpn_pool,
            config.cluster_id@,
            listed,
        ),
        node_id: request.node_id,
        expected_identity_public_key: node.identity_public_key,
        expected_registered_at: node.registered_at,
        accepted_signature_at: request.signed_at,
        hostname: advertised_hostname(request),
        candidates: request.candidates,
        nat_classification: request.nat_classification,
        relay_capability: match request.relay_capability {
            Some(capability) => Some(enabled_capability(capability)),
            None => None,
        },
        routes: if brings_new_routes(request, node) {
            request.routes
        } else {
            None
        },
        health: NodeHealthView { last_seen_at: now, ..request.health },
        paths: with_pins(request.path_state, pins),
    }
}

fn reject(node_id: &NodeId, reason: &str) -> (r: ControlPlaneError)
    ensures
        Some(r@) == update_rejection(node_id@, Some(reason@)),
{
    ControlPlaneError::NodeUpdateRejected { node_id: node_id.clone(), reason: reason.to_owned() }
}

/// The sender of a heartbeat, where it is a node of the cluster and no client.
pub fn check_heartbeat_sender<'a>(
    node_id: &NodeId,
    node: Option<&'a NodeRecord>,
    cluster_id: &ClusterId,
) -> (r: Result<&'a NodeRecord, ControlPlaneError>)
    ensures
        refusal(r) == heartbeat_sender_refusal(node_id@, ref_view(node), cluster_id@),
        r matches Ok(found) ==> node == Some(found),
{
    let found = match node {
        Some(found) => found,
        None => return Err(ControlPlaneError::NodeNotFound { node_id: node_id.clone() }),
    };
    if found.cluster_id != *cluster_id {
        return Err(ControlPlaneError::NodeNotFound { node_id: node_id.clone() });
    }
    if found.role.is_client() {
        return Err(reject(node_id, "clients cannot submit node heartbeats"));
    }
    Ok(found)
}

fn check_new_routes(
    config: &ControlPlaneConfig,
    request: &HeartbeatRequest,
    node: &NodeRecord,
    policy: &ClusterPolicy,
    listed: &Vec<NodeRecord>,
) -> (r: Result<(bool, Option<u64>), ControlPlaneError>)
    ensures
        refusal(r) == new_routes_refusal(
            request@,
            node@,
            policy@,
            config.vpn_pool,
            config.cluster_id@,
            views(listed@),
        ),
        r matches Ok((changed, epoch)) ==> changed == brings_new_routes(request@, node@) && epoch
            == new_routes_epoch(
            request@,
            node@,
            policy@,
            config.vpn_pool,
            config.cluster_id@,
            views(listed@),
        ),
{
    let routes = match &request.routes {
        Some(routes) => routes,
        None => return Ok((false, None)),
    };
    if alike_all(routes, &node.routes) {
        return Ok((false, None));
    }
    match overlay_route_catalog_update_validation(
        &request.node_id,
        routes,
        policy,
        config.vpn_pool,
        &config.cluster_id,
        listed,
    ) {
        Ok((Some(reason), _)) => Err(
            ControlPlaneError::NodeUpdateRejected { node_id: request.node_id.clone(), reason },
        ),
        Ok((None, epoch)) => Ok((true, epoch)),
        Err(error) => Err(error),
    }
}

fn check_reported_relay(request: &HeartbeatRequest, node: &NodeRecord) -> (r: Result<
    Option<RelayCapability>,
    ControlPlaneError,
>)
    ensures
        refusal(r) == reported_relay_refusal(request@, node@),
        r matches Ok(granted) ==> opt_view(granted) == (match request@.relay_capability {
            Some(capability) => Some(enabled_capability(capability)),
            None => None,
        }),
{
    let capability = match &request.relay_capability {
        Some(capability) => capability,
        None => return Ok(None),
    };
    if !node.token_policy.allow_relay {
        return Err(ControlPlaneError::RelayDenied);
    }
    let mut enabled = capability.duplicate();
    enabled.enabled_by_policy = true;
    assert(enabled@ == enabled_capability(capability@));
    match validate_relay_capability_shape(&enabled) {
        Ok(()) => Ok(Some(enabled)),
        Err(reason) => Err(
            ControlPlaneError::NodeUpdateRejected { node_id: request.node_id.clone(), reason },
        ),
    }
}

/// Checks a heartbeat against all that is known, and gives what it leads to. `node` is what is
/// registered under the identifier, `listed` are the nodes that are registered, and
/// `persisted_policy` is the policy as it is stored.
pub fn admit_heartbeat(
    config: &ControlPlaneConfig,
    limits: &ProtocolLimits,
    request: &HeartbeatRequest,
    node: Option<&NodeRecord>,
    policy: &ClusterPolicy,
    persisted_policy: &Option<ClusterPolicy>,
    findings: &HeartbeatFindings,
    previous_signature_at: Option<Timestamp>,
    listed: &Vec<NodeRecord>,
    health: &OrderedMap<NodeId, NodeHealth>,
    pins: &AdminPathPins,
    now: Timestamp,
) -> (r: Result<AdmittedHeartbeat, ControlPlaneError>)
    requires
        health.wf(),
        pins.wf(),
        now.seconds <= i64::MAX - HEARTBEAT_SERVICE_LEASE_SECONDS,
    ensures
        refusal(r) == admission_of_heartbeat_refusal(
            *config,
            *limits,
            request@,
            ref_view(node),
            policy@,
            *findings,
            previous_signature_at,
            views(listed@),
            held(health@),
            now,
        ),
        r matches Ok(admitted) ==> {
            &&& admitted.update@ == heartbeat_update(
                *config,
                request@,
                node->0@,
                policy@,
                opt_view(*persisted_policy),
                views(listed@),
                pins@,
                now,
            )
            &&& opt_view(admitted.service_instance) == advertised_instance(
                request@,
                config.cluster_id@,
                now,
            )
            &&& ascending_texts(views(admitted.intent_targets@))
            &&& forall|id: Seq<char>|
                views(admitted.intent_targets@).contains(id) <==> wanted_by(
                    request@.path_state,
                    limits.lazy_connect_prefix@,
                    now,
                    policy.idle_timeout_seconds,
                    id,
                    request@.path_state.len(),
                )
            &&& admitted.changes_overlay == (brings_new_routes(request@, node->0@) || (
            advertised_hostname(request@) is Some && advertised_hostname(request@)
                != node->0@.hostname))
        },
{
    let node = check_heartbeat_sender(&request.node_id, node, &config.cluster_id)?;
    validate_heartbeat_request(
        config,
        limits,
        request,
        node,
        policy,
        &findings.signature_fault,
        previous_signature_at,
        now,
    )?;
    let service_instance = match heartbeat_service_instance(
        request,
        node,
        &config.cluster_id,
        &findings.endpoints_fault,
        now,
    ) {
        Ok(instance) => instance,
        Err(error) => return Err(error),
    };
    let (changed, epoch) = match check_new_routes(config, request, node, policy, listed) {
        Ok(outcome) => outcome,
        Err(error) => return Err(error),
    };
    validate_heartbeat_path_relay_shape(request)?;
    validate_heartbeat_path_peers_visible(request, node, listed, policy)?;
    validate_heartbeat_path_relay_eligibility(request, node, listed, health, now, policy)?;
    let hostname: Option<String> = match &request.service_advertisement {
        Some(advertisement) => duplicate_option(&advertisement.hostname),
        None => None,
    };
    assert(opt_view(hostname) == advertised_hostname(request@));
    if hostname.is_some() && !findings.hostname_valid {
        return Err(
            reject(
                &request.node_id,
                "hostname must be 1 to 253 ASCII letters, digits, '.', '_' or '-'",
            ),
        );
    }
    let relay_capability = match check_reported_relay(request, node) {
        Ok(granted) => granted,
        Err(error) => return Err(error),
    };
    let renamed = hostname.is_some() && !alike_option(&hostname, &node.hostname);
    let mut paths = crate::types::duplicate_all(&request.path_state);
    pins.apply_admin_path_pins(&mut paths);
    let mut reported = request.health.duplicate();
    reported.last_seen_at = now;
    let routes = if changed {
        crate::types::duplicate_option_all(&request.routes)
    } else {
        None
    };
    let intent_targets = connection_intent_targets(
        &request.path_state,
        limits.lazy_connect_prefix.as_str(),
        now,
        policy.idle_timeout_seconds,
    );
    let update = HeartbeatStoreUpdate {
        cluster_id: config.cluster_id.clone(),
        expected_cluster_policy: duplicate_option(persisted_policy),
        expected_route_catalog_epoch: epoch,
        node_id: request.node_id.clone(),
        expected_identity_public_key: node.identity_public_key.clone(),
        expected_registered_at: node.registered_at,
        accepted_signature_at: request.signed_at,
        hostname,
        candidates: crate::types::duplicate_all(&request.candidates),
        nat_classification: duplicate_option(&request.nat_classification),
        relay_capability,
        routes,
        health: reported,
        paths,
    };
    Ok(
        AdmittedHeartbeat {
            update,
            service_instance,
            intent_targets,
            changes_overlay: changed || renamed,
        },
    )
}

/// The answer to a heartbeat.
#[derive(Debug)]
pub struct HeartbeatResponse {
    pub accepted: bool,
    pub policy_version: u64,
    pub peer_delta_available: bool,
    pub bootstrap_endpoints: Vec<BootstrapEndpoint>,
    pub connection_intents: Vec<PeerConnectionIntent>,
}

/// Why the routes of a registration are not accepted by the cluster as it is: they lie outside of
/// the route scopes, or do not go with the routes of the other nodes.
pub open spec fn registration_routes_refusal(
    node_id: Seq<char>,
    routes: Seq<RouteView>,
    policy: ClusterPolicyView,
    vpn_pool: Cidr,
    cluster_id: Seq<char>,
    listed: Seq<NodeRecordView>,
) -> Option<ControlPlaneErrorView> {
    let outside = scope_fault(routes, policy.overlay_route_scopes);
    if outside is Some {
        registration_rejection(node_id, outside)
    } else if routes.len() == 0 {
        None
    } else {
        registration_rejection(
            node_id,
            route_update_outcome(
                node_id,
                routes,
                policy.overlay_route_scopes,
                vpn_pool,
                cluster_id,
                listed,
            ).0,
        )
    }
}

/// Checks the routes of a registration against the cluster as it is, and gives the epoch of the
/// route catalog that they were held against.
pub fn admit_registration_routes(
    config: &ControlPlaneConfig,
    node_id: &NodeId,
    routes: &Vec<Route>,
    policy: &ClusterPolicy,
    listed: &Vec<NodeRecord>,
) -> (r: Result<Option<u64>, ControlPlaneError>)
    ensures
        refusal(r) == registration_routes_refusal(
            node_id@,
            views(routes@),
            policy@,
            config.vpn_pool,
            config.cluster_id@,
            views(listed@),
        ),
        r matches Ok(epoch) ==> epoch == (if routes@.len() == 0 {
            None
        } else {
            route_update_outcome(
                node_id@,
                views(routes@),
                policy@.overlay_route_scopes,
                config.vpn_pool,
                config.cluster_id@,
                views(listed@),
            ).1
        }),
{
    if let Err(reason) = validate_routes_within_overlay_scopes(routes, policy) {
        return Err(
            ControlPlaneError::NodeRegistrationRejected { node_id: node_id.clone(), reason },
        );
    }
    if routes.len() == 0 {
        return Ok(None);
    }
    match overlay_route_catalog_update_validation(
        node_id,
        routes,
        policy,
        config.vpn_pool,
        &config.cluster_id,
        listed,
    ) {
        Ok((Some(reason), _)) => Err(
            ControlPlaneError::NodeRegistrationRejected { node_id: node_id.clone(), reason },
        ),
        Ok((None, epoch)) => Ok(epoch),
        Err(error) => Err(error),
    }
}

/// Why a policy is not accepted, whatever the nodes are.
pub open spec fn policy_refusal(
    policy: ClusterPolicyView,
    limits: ProtocolLimits,
    vpn_pool: Cidr,
) -> Option<ControlPlaneErrorView> {
    let scopes = policy.overlay_route_scopes;
    if policy_fault(policy, limits) is Some {
        policy_rejection(policy_fault(policy, limits))
    } else {
        policy_rejection(first_scope_pool_fault(scopes, vpn_pool, scopes.len()))
    }
}

/// Checks a policy, whatever the nodes are.
pub fn check_policy(policy: &ClusterPolicy, limits: &ProtocolLimits, vpn_pool: Cidr) -> (r: Result<
    (),
    ControlPlaneError,
>)
    ensures
        refusal(r) == policy_refusal(policy@, *limits, vpn_pool),
{
    validate_cluster_policy(policy, limits)?;
    validate_overlay_route_scopes_against_vpn_pool(policy, vpn_pool)
}

/// Why a node stands against the route scopes of a policy.
pub open spec fn node_outside_scopes(node: NodeRecordView, scopes: Seq<Cidr>) -> Option<Seq<char>> {
    match scope_fault(node.routes, scopes) {
        Some(reason) => Some(
            "node "@ + node.node_id
                + " has an advertised route outside overlay_route_scopes: "@ + reason,
        ),
        None => None,
    }
}

/// Why one of the first `n` nodes stands against the route scopes of a policy.
pub open spec fn first_node_outside_scopes(
    nodes: Seq<NodeRecordView>,
    scopes: Seq<Cidr>,
    n: nat,
) -> Option<Seq<char>> {
    first_in(n, |i: int| node_outside_scopes(nodes[i], scopes))
}

/// Why a policy cannot take the place of the one that stands.
pub open spec fn policy_change_refusal(
    policy: ClusterPolicyView,
    limits: ProtocolLimits,
    vpn_pool: Cidr,
    cluster_id: Seq<char>,
    listed: Seq<NodeRecordView>,
) -> Option<ControlPlaneErrorView> {
    let nodes = backbone(listed, cluster_id);
    let outside = first_node_outside_scopes(nodes, policy.overlay_route_scopes, nodes.len());
    if policy_refusal(policy, limits, vpn_pool) is Some {
        policy_refusal(policy, limits, vpn_pool)
    } else if outside is Some {
        policy_rejection(outside)
    } else {
        None
    }
}

/// Checks whether a policy can take the place of the one that stands, and gives the epoch of the
/// route catalog that it was held against.
pub fn admit_policy(
    config: &ControlPlaneConfig,
    limits: &ProtocolLimits,
    policy: &ClusterPolicy,
    listed: &Vec<NodeRecord>,
) -> (r: Result<u64, ControlPlaneError>)
    ensures
        refusal(r) == policy_change_refusal(
            policy@,
            *limits,
            config.vpn_pool,
            config.cluster_id@,
            views(listed@),
        ),
        r matches Ok(epoch) ==> epoch == catalog_epoch(
            backbone(views(listed@), config.cluster_id@),
        ),
{
    match check_policy(policy, limits, config.vpn_pool) {
        Ok(()) => {},
        Err(error) => return Err(error),
    }
    let nodes = backbone_nodes(listed, &config.cluster_id);
    let ghost all = views(nodes@);
    let ghost scopes = policy@.overlay_route_scopes;
    let mut i: usize = 0;
    while i < nodes.len()
        invariant
            i <= nodes@.len(),
            all == views(nodes@),
            all == backbone(views(listed@), config.cluster_id@),
            scopes == policy@.overlay_route_scopes,
            policy_refusal(policy@, *limits, config.vpn_pool) is None,
            first_node_outside_scopes(all, scopes, i as nat) is None,
        decreases nodes@.len() - i,
    {
        assert(all[i as int] == nodes@[i as int]@);
        if let Err(reason) = validate_routes_within_overlay_scopes(&nodes[i].routes, policy) {
            proof {
                lemma_first_in_extends(
                    (i + 1) as nat,
                    all.len(),
                    |k: int| node_outside_scopes(all[k], scopes),
                );
            }
            return Err(
                ControlPlaneError::InvalidClusterPolicy {
                    reason: "node ".to_owned().concat(nodes[i].node_id.as_str()).concat(
                        " has an advertised route outside overlay_route_scopes: ",
                    ).concat(reason.as_str()),
                },
            );
        }
        i = i + 1;
    }
    overlay_route_catalog_epoch(&nodes)
}

/// A heartbeat that brings no new routes does not touch the routes of the node, and rests on no
/// route catalog.
pub proof fn law_heartbeat_without_new_routes_leaves_the_catalog(
    config: ControlPlaneConfig,
    request: HeartbeatRequestView,
    node: NodeRecordView,
    policy: ClusterPolicyView,
    persisted_policy: Option<ClusterPolicyView>,
    listed: Seq<NodeRecordView>,
    pins: Map<Seq<Seq<char>>, bool>,
    now: Timestamp,
)
    requires
        !brings_new_routes(request, node),
    ensures
        ({
            let update = heartbeat_update(
                config,
                request,
                node,
                policy,
                persisted_policy,
                listed,
                pins,
                now,
            );
            &&& update.routes is None
            &&& update.expected_route_catalog_epoch is None
            &&& node_after_heartbeat(node, update).routes == node.routes
        }),
{
}

/// A signed heartbeat that is accepted is stored, where the store is as it was when the heartbeat
/// was checked.
pub proof fn law_admitted_heartbeat_is_stored(
    store: StoreView,
    config: ControlPlaneConfig,
    limits: ProtocolLimits,
    request: HeartbeatRequestView,
    policy: ClusterPolicyView,
    findings: HeartbeatFindings,
    health: Map<Seq<Seq<char>>, NodeHealthView>,
    pins: Map<Seq<Seq<char>>, bool>,
    now: Timestamp,
)
    requires
        store.keyed(),
        store.exhaustion(config.cluster_id@) is None,
        request.signed_at is Some,
        admission_of_heartbeat_refusal(
            config,
            limits,
            request,
            store.node(request.node_id),
            policy,
            findings,
            at(store.signatures, one(request.node_id)),
            listed(store.nodes),
            health,
            now,
        ) is None,
    ensures
        store.heartbeat_refusal(
            heartbeat_update(
                config,
                request,
                store.node(request.node_id)->0,
                policy,
                store.policy(config.cluster_id@),
                listed(store.nodes),
                pins,
                now,
            ),
        ) is None,
{
    let id = request.node_id;
    let cluster_id = config.cluster_id@;
    let node = store.node(id)->0;
    let update = heartbeat_update(
        config,
        request,
        node,
        policy,
        store.policy(cluster_id),
        listed(store.nodes),
        pins,
        now,
    );
    assert(store.nodes.dom().contains(one(id)));
    assert(one(id)[0] == one(node.node_id)[0]);
    assert(generation_refusal(update, node) is None);
    assert(store.cluster_change(
        cluster_id,
        update.expected_cluster_policy,
        update.expected_route_catalog_epoch,
    ) is None);
    assert(late_refusal(
        update,
        at(store.signatures, one(id)),
        at(store.health, one(id)),
    ) is None);
}

/// A policy that is accepted leaves no node of the cluster with a route outside of its route
/// scopes.
pub proof fn law_admitted_policy_covers_all_routes(
    policy: ClusterPolicyView,
    limits: ProtocolLimits,
    vpn_pool: Cidr,
    cluster_id: Seq<char>,
    listed: Seq<NodeRecordView>,
    i: int,
)
    requires
        policy_change_refusal(policy, limits, vpn_pool, cluster_id, listed) is None,
        0 <= i < backbone(listed, cluster_id).len(),
    ensures
        scope_fault(backbone(listed, cluster_id)[i].routes, policy.overlay_route_scopes) is None,
{
    let nodes = backbone(listed, cluster_id);
    let scopes = policy.overlay_route_scopes;
    let f = |k: int| node_outside_scopes(nodes[k], scopes);
    crate::lists::lemma_first_in_none(nodes.len(), f);
    assert(f(i) is None);
}

/// Heartbeats are taken from the registered nodes of the cluster, and from nobody else.
pub proof fn law_heartbeats_are_from_nodes(
    node_id: Seq<char>,
    node: Option<NodeRecordView>,
    cluster_id: Seq<char>,
)
    ensures
        heartbeat_sender_refusal(node_id, node, cluster_id) is None <==> node is Some
            && node->0.cluster_id == cluster_id && node->0.role != "client"@,
        node is None || node->0.cluster_id != cluster_id ==> heartbeat_sender_refusal(
            node_id,
            node,
            cluster_id,
        ) == Some(ControlPlaneErrorView::NodeNotFound { node_id }),
{
}

/// A heartbeat is admitted exactly where its sender, its contents, its services, its new routes, its
/// paths, its name and its relay are. The relay must be permitted by the token of the node, and the
/// routes are looked at exactly where they are not those that the node has.
pub proof fn law_admitted_heartbeats_are_sound(
    config: ControlPlaneConfig,
    limits: ProtocolLimits,
    request: HeartbeatRequestView,
    node: NodeRecordView,
    policy: ClusterPolicyView,
    findings: HeartbeatFindings,
    previous_signature_at: Option<Timestamp>,
    listed: Seq<NodeRecordView>,
    health: Map<Seq<Seq<char>>, NodeHealthView>,
    now: Timestamp,
)
    ensures
        admission_of_heartbeat_refusal(
            config,
            limits,
            request,
            Some(node),
            policy,
            findings,
            previous_signature_at,
            listed,
            health,
            now,
        ) is None <==> {
            let paths = request.path_state;
            let n = paths.len();
            &&& node.cluster_id == config.cluster_id@ && node.role != "client"@
            &&& heartbeat_refusal(
                config,
                limits,
                request,
                node.token_policy,
                policy,
                opt_view(findings.signature_fault),
                previous_signature_at,
                now,
            ) is None
            &&& advertisement_fault(
                request,
                node.vpn_ip,
                opt_view(findings.endpoints_fault),
            ) is None
            &&& request.routes is Some && request.routes->0 != node.routes ==> route_update_outcome(
                request.node_id,
                request.routes->0,
                policy.overlay_route_scopes,
                config.vpn_pool,
                config.cluster_id@,
                listed,
            ).0 is None
            &&& first_relay_shape_fault(paths, n) is None
            &&& first_peer_fault(paths, node, listed, policy, n) is None
            &&& first_relay_fault(paths, node, listed, health, now, policy, n) is None
            &&& request.service_advertisement is Some
                && request.service_advertisement->0.hostname is Some ==> findings.hostname_valid
            &&& request.relay_capability is Some ==> node.token_policy.allow_relay
                && relay_capability_fault(request.relay_capability->0) is None
        },
{
    if request.relay_capability is Some {
        crate::registration::law_sound_relays(request.relay_capability->0);
    }
}

/// What is stored of a heartbeat is what it says: under the node that sent it, as seen now, with its
/// relay enabled and its paths pinned as they are set to be, and its routes exactly where they are
/// new.
pub proof fn law_heartbeats_are_stored_as_said(
    config: ControlPlaneConfig,
    request: HeartbeatRequestView,
    node: NodeRecordView,
    policy: ClusterPolicyView,
    persisted_policy: Option<ClusterPolicyView>,
    listed: Seq<NodeRecordView>,
    pins: Map<Seq<Seq<char>>, bool>,
    now: Timestamp,
)
    ensures
        ({
            let update = heartbeat_update(
                config,
                request,
                node,
                policy,
                persisted_policy,
                listed,
                pins,
                now,
            );
            let fresh_routes = request.routes is Some && request.routes->0 != node.routes;
            &&& update.node_id == request.node_id
            &&& update.cluster_id == config.cluster_id@
            &&& update.expected_cluster_policy == persisted_policy
            &&& update.expected_identity_public_key == node.identity_public_key
            &&& update.expected_registered_at == node.registered_at
            &&& update.accepted_signature_at == request.signed_at
            &&& update.candidates == request.candidates
            &&& update.nat_classification == request.nat_classification
            &&& update.health.last_seen_at == now
            &&& update.health == NodeHealthView { last_seen_at: now, ..request.health }
            &&& fresh_routes ==> update.routes == request.routes
            &&& !fresh_routes ==> update.routes is None
                && update.expected_route_catalog_epoch is None
            &&& update.relay_capability is Some <==> request.relay_capability is Some
            &&& update.relay_capability is Some ==> update.relay_capability->0.enabled_by_policy
            &&& update.paths.len() == request.path_state.len()
            &&& forall|i: int|
                0 <= i < update.paths.len() ==> (#[trigger] update.paths[i]).key
                    == request.path_state[i].key && update.paths[i].selected_state
                    == request.path_state[i].selected_state
        }),
{
}

/// A policy is taken exactly where it is sound, its scopes stay out of the pool, and each route that a
/// node of the cluster has is within them.
pub proof fn law_taken_policies_fit_the_cluster(
    policy: ClusterPolicyView,
    limits: ProtocolLimits,
    vpn_pool: Cidr,
    cluster_id: Seq<char>,
    listed: Seq<NodeRecordView>,
)
    ensures
        policy_change_refusal(policy, limits, vpn_pool, cluster_id, listed) is None <==> {
            let nodes = backbone(listed, cluster_id);
            let scopes = policy.overlay_route_scopes;
            &&& policy_fault(policy, limits) is None
            &&& forall|i: int| 0 <= i < scopes.len() ==> !(#[trigger] scopes[i]).meets(vpn_pool)
            &&& forall|i: int|
                0 <= i < nodes.len() ==> scope_fault((#[trigger] nodes[i]).routes, scopes) is None
        },
{
    let nodes = backbone(listed, cluster_id);
    let scopes = policy.overlay_route_scopes;
    let f = |i: int| node_outside_scopes(nodes[i], scopes);
    crate::lists::lemma_first_in_none(nodes.len(), f);
    crate::policy::law_scopes_stay_out_of_the_pool(scopes, vpn_pool);
    if first_node_outside_scopes(nodes, scopes, nodes.len()) is None {
        assert forall|i: int| 0 <= i < nodes.len() implies scope_fault(
            (#[trigger] nodes[i]).routes,
            scopes,
        ) is None by {
            assert(f(i) is None);
        }
    }
}

/// The routes that a node registers with are accepted exactly where they are within the scopes and
/// can be taken into the overlay.
pub proof fn law_registered_routes_fit_the_overlay(
    node_id: Seq<char>,
    routes: Seq<RouteView>,
    policy: ClusterPolicyView,
    vpn_pool: Cidr,
    cluster_id: Seq<char>,
    listed: Seq<NodeRecordView>,
)
    ensures
        registration_routes_refusal(node_id, routes, policy, vpn_pool, cluster_id, listed) is None
            <==> {
            &&& scope_fault(routes, policy.overlay_route_scopes) is None
            &&& routes.len() > 0 ==> route_update_outcome(
                node_id,
                routes,
                policy.overlay_route_scopes,
                vpn_pool,
                cluster_id,
                listed,
            ).0 is None
        },
{
}

} // verus!
