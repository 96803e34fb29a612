#![allow(dead_code, unused_imports)]

use ipars_control_plane::config::ProtocolLimits;
use ipars_control_plane::error::ControlPlaneError;
use ipars_control_plane::float::Float32;
use ipars_control_plane::ids::{ClusterId, NameSet, NodeId, Role};
use ipars_control_plane::map::OrderedMap;
use ipars_control_plane::net::{Cidr, IpAddr, SocketAddr};
use ipars_control_plane::time::{Span, Timestamp};
use ipars_control_plane::types::{
    AclAction, AclRule, BootstrapEndpointKind, CandidateSource, ClientGatewaySelection,
    ClusterPolicy, Endpoint, EndpointCandidate, EndpointCandidateKind, HealthState,
    KeycloakCandidateLease, NatClassification, NatProbeObservation, NodeHealth, NodeRecord,
    PathRecord, PathScore, PathState, PeerPathKey, RelayCapability, Route, TokenPolicy,
    TransportProtocol,
};

const NOW: Timestamp = Timestamp { seconds: 1_750_000_000, nanos: 0 };
const PREFIX: &str = "lazy-connect-local-activity-ms=";

fn after(seconds: i64) -> Timestamp {
    Timestamp { seconds: NOW.seconds + seconds, nanos: NOW.nanos }
}

fn id(name: &str) -> NodeId {
    NodeId::from_string(name.to_string())
}

fn cluster(name: &str) -> ClusterId {
    ClusterId::from_string(name.to_string())
}

fn role(name: &str) -> Role {
    Role::from_string(name.to_string())
}

fn names(list: &[&str]) -> NameSet {
    let mut set = NameSet::new();
    for name in list {
        set.insert(name.to_string());
    }
    set
}

fn cidr(text: &str) -> Cidr {
    match text.parse::<ipnet::IpNet>() {
        Ok(ipnet::IpNet::V4(net)) => Cidr::V4 { addr: u32::from(net.addr()), prefix: net.prefix_len() },
        Ok(ipnet::IpNet::V6(net)) => Cidr::V6 { addr: u128::from(net.addr()), prefix: net.prefix_len() },
        Err(_) => panic!("not a network: {text}"),
    }
}

fn ip(text: &str) -> IpAddr {
    let bits = if text.contains(':') { 128 } else { 32 };
    match cidr(&format!("{text}/{bits}")) {
        Cidr::V4 { addr, .. } => IpAddr::V4(addr),
        Cidr::V6 { addr, .. } => IpAddr::V6(addr),
    }
}

fn public(text: &str, port: u16) -> Endpoint {
    Endpoint { addr: SocketAddr { ip: ip(text), port }, usable: true, globally_routable: true }
}

fn private(text: &str, port: u16) -> Endpoint {
    Endpoint { addr: SocketAddr { ip: ip(text), port }, usable: true, globally_routable: false }
}

fn float(value: f32) -> Float32 {
    Float32 { bits: value.to_bits() }
}

fn limits() -> ProtocolLimits {
    ProtocolLimits {
        lazy_connect_prefix: PREFIX.to_string(),
        max_path_score_reasons: 16,
        min_overlay_block_size: 4,
        max_overlay_block_size: 64,
        supported_max_degrees: vec![4, 6, 8],
        max_overlay_degree: 64,
        core_service_kinds: vec![
            BootstrapEndpointKind::ControlPlane,
            BootstrapEndpointKind::Signal,
            BootstrapEndpointKind::Stun,
        ],
        max_bootstrap_endpoints: 64,
        max_bootstrap_endpoints_per_kind: 16,
        max_join_token_ttl_seconds: 86_400,
        join_token_not_before_skew_seconds: 30,
        client_registration_schema_version: 1,
        max_client_registration_validity_seconds: 900,
    }
}

fn policy() -> ClusterPolicy {
    ClusterPolicy {
        acl_rules: Vec::new(),
        overlay_route_scopes: Vec::new(),
        overlay_block_size: 8,
        overlay_max_degree: 6,
        overlay_direct_shortcut_limit: 0,
        overlay_on_demand_peer_limit: 16,
        idle_timeout_seconds: 300,
        relay_health_ttl_seconds: 90,
        endpoint_candidate_ttl_seconds: 30,
        path_state_ttl_seconds: 30,
        path_quality_observation_ttl_seconds: 30,
        nat_classification_ttl_seconds: 300,
        nat_classification_min_confidence_percent: 50,
        allow_ipv6_direct: true,
    }
}

fn token_policy() -> TokenPolicy {
    TokenPolicy {
        allow_join: true,
        allow_relay: false,
        allowed_routes: Vec::new(),
        allowed_tags: NameSet::new(),
        max_token_uses: Some(1),
    }
}

fn node_record(name: &str) -> NodeRecord {
    NodeRecord {
        node_id: id(name),
        hostname: None,
        cluster_id: cluster("cluster-a"),
        vpn_ip: ip("100.64.0.2"),
        identity_public_key: format!("identity-{name}"),
        wireguard_public_key: format!("wg-{name}"),
        role: role("edge"),
        tags: NameSet::new(),
        endpoint_candidates: Vec::new(),
        relay_capability: None,
        token_policy: token_policy(),
        routes: Vec::new(),
        registered_at: NOW,
    }
}

fn route(route_id: &str, network: &str, advertised_by: &str) -> Route {
    Route {
        id: route_id.to_string(),
        cidr: cidr(network),
        advertised_by: id(advertised_by),
        via: None,
        metric: 100,
        tags: NameSet::new(),
    }
}

fn rule(rule_id: &str, action: AclAction) -> AclRule {
    AclRule {
        id: rule_id.to_string(),
        from_roles: NameSet::new(),
        from_tags: NameSet::new(),
        to_roles: NameSet::new(),
        to_tags: NameSet::new(),
        routes: Vec::new(),
        protocol: TransportProtocol::Any,
        action,
    }
}

fn candidate(name: &str) -> EndpointCandidate {
    EndpointCandidate {
        node_id: id(name),
        kind: EndpointCandidateKind::StunReflexive,
        endpoint: private("203.0.113.10", 51820),
        kind_fault: None,
        observed_at: NOW,
        priority: 100,
        cost: 10,
        source: CandidateSource::StunProbe,
    }
}

fn stale_candidate(name: &str) -> EndpointCandidate {
    EndpointCandidate { observed_at: after(-60), ..candidate(name) }
}

fn health(state: HealthState, last_seen_at: Timestamp) -> NodeHealth {
    NodeHealth { state, last_seen_at, latency_ms: Some(float(1.0)), relay_load: None, message: None }
}

fn path(local: &str, remote: &str) -> PathRecord {
    PathRecord {
        key: PeerPathKey { local: id(local), remote: id(remote) },
        selected_state: PathState::DirectNatTraversal,
        selected_candidate: None,
        selected_kind_allowed: true,
        relay_node: None,
        score: PathScore { value: float(0.5), reasons: Vec::new() },
        updated_at: NOW,
        pinned: false,
    }
}

fn relay_path(local: &str, remote: &str, relay: Option<&str>) -> PathRecord {
    PathRecord {
        selected_state: PathState::Relay,
        relay_node: relay.map(id),
        ..path(local, remote)
    }
}

fn relay_capability() -> RelayCapability {
    RelayCapability {
        enabled_by_policy: false,
        public_endpoint: Some(private("203.0.113.10", 51820)),
        admission_url: Some("http://203.0.113.10:9580".to_string()),
        admission_url_usable: true,
        max_sessions: 100,
        active_sessions: 0,
        max_mbps: 1000,
        e2e_only: true,
        ready_to_relay: true,
    }
}

fn text(node_id: &NodeId) -> &str {
    node_id.as_str()
}

use ipars_control_plane::client_routes::node_client_route_projection;
use ipars_control_plane::epochs::overlay_routing_epoch;
use ipars_control_plane::gateway::{
    client_gateway_candidate_score, filter_client_gateway_endpoint_candidates,
};
use ipars_control_plane::heartbeat::{
    lazy_connect_local_activity_at, validate_nat_classification_shape,
};
use ipars_control_plane::keycloak::select_keycloak_candidates;
use ipars_control_plane::policy::validate_cluster_policy;
use ipars_control_plane::route_index::OverlayRouteIndex;
use ipars_control_plane::routes::{
    aggregate_overlay_routes, overlay_route_catalog_epoch, AggregateOverlayRoute,
    MAX_OVERLAY_ROUTE_SCOPES,
};
use ipars_control_plane::time::timestamp_from_millis;
use ipars_control_plane::topology::{topology_edge_observation, ControlPlaneTopologyEdgeStatus};

#[test]
fn keycloak_placement_is_bounded_stable_and_replaces_only_failed_replica() {
    let cluster_id = cluster("cluster-keycloak");
    let candidates = (1..=6u8)
        .map(|index| KeycloakCandidateLease {
            cluster_id: cluster_id.clone(),
            node_id: id(&format!("keycloak-{index}")),
            vpn_ip: ip(&format!("10.250.0.{index}")),
            version: "26.6.4".to_string(),
            ready: index <= 3,
            eligible: true,
            generation: i64::from(index),
            lease_expires_at: after(45),
            updated_at: NOW,
        })
        .collect::<Vec<_>>();
    let first = select_keycloak_candidates(&cluster_id, &candidates, 3);
    assert_eq!(first.replicas.len(), 3);
    assert_eq!(first.replicas.iter().filter(|candidate| candidate.ready).count(), 3);

    let mut reversed = candidates.clone();
    reversed.reverse();
    let reordered = select_keycloak_candidates(&cluster_id, &reversed, 3);
    assert_eq!(reordered.placement_id, first.placement_id);
    assert_eq!(
        reordered.replicas.iter().map(|c| text(&c.node_id)).collect::<Vec<_>>(),
        first.replicas.iter().map(|c| text(&c.node_id)).collect::<Vec<_>>()
    );

    let failed = first.replicas[0].node_id.clone();
    let after_failure = select_keycloak_candidates(
        &cluster_id,
        &candidates.into_iter().filter(|candidate| candidate.node_id != failed).collect(),
        3,
    );
    assert_eq!(after_failure.replicas.len(), 3);
    assert_eq!(
        first
            .replicas
            .iter()
            .filter(|candidate| after_failure
                .replicas
                .iter()
                .any(|replacement| replacement.node_id == candidate.node_id))
            .count(),
        2
    );
    assert_ne!(after_failure.placement_id, first.placement_id);
}

#[test]
fn aggregate_overlay_routes_collapses_1024_contiguous_pod_cidrs() {
    let mut provider = node_record("aggregate-provider");
    for index in 0..1_024_u32 {
        provider.routes.push(route(
            &format!("pod-cidr-{index:04}"),
            &format!("10.{}.{}.0/24", index >> 8, index & 255),
            "aggregate-provider",
        ));
    }
    let mut covered = route("covered-noncanonical-route", "10.0.0.1/25", "aggregate-provider");
    covered.metric = 1;
    provider.routes.push(covered);

    assert_eq!(
        aggregate_overlay_routes(&vec![provider]),
        vec![AggregateOverlayRoute { cidr: cidr("10.0.0.0/14") }]
    );
}

#[test]
fn overlay_routing_epoch_tracks_route_catalog_and_acl_changes() {
    let mut provider = node_record("routing-epoch-provider");
    provider.routes = vec![route("routing-epoch-route", "10.42.0.0/16", "routing-epoch-provider")];
    let base_catalog = overlay_route_catalog_epoch(&vec![provider.clone()]).unwrap();
    let base_policy = policy();
    let base_epoch = overlay_routing_epoch(base_catalog, &base_policy).unwrap();

    provider.endpoint_candidates.push(candidate("routing-epoch-provider"));
    assert_eq!(overlay_route_catalog_epoch(&vec![provider.clone()]).unwrap(), base_catalog);

    provider.routes[0].metric += 1;
    let changed_catalog = overlay_route_catalog_epoch(&vec![provider]).unwrap();
    assert_ne!(changed_catalog, base_catalog);
    assert_ne!(overlay_routing_epoch(changed_catalog, &base_policy).unwrap(), base_epoch);

    let mut acl_policy = base_policy.clone();
    let mut deny = rule("routing-epoch-deny", AclAction::Deny);
    deny.routes = vec![cidr("10.42.1.0/24")];
    acl_policy.acl_rules.push(deny);
    assert_ne!(overlay_routing_epoch(base_catalog, &acl_policy).unwrap(), base_epoch);

    let mut timeout_policy = base_policy.clone();
    timeout_policy.idle_timeout_seconds += 1;
    assert_eq!(overlay_routing_epoch(base_catalog, &timeout_policy).unwrap(), base_epoch);
}

#[test]
fn cluster_policy_rejects_protocol_acl_without_dataplane_enforcement() {
    let mut checked = policy();
    checked.acl_rules.push(AclRule {
        protocol: TransportProtocol::Tcp,
        ..rule("tcp-only", AclAction::Allow)
    });
    assert!(matches!(
        validate_cluster_policy(&checked, &limits()),
        Err(ControlPlaneError::InvalidClusterPolicy { reason })
            if reason.contains("only protocol=any")
    ));
}

#[test]
fn cluster_policy_validates_overlay_route_scope_shape() {
    let mut checked = ClusterPolicy {
        overlay_route_scopes: (0..MAX_OVERLAY_ROUTE_SCOPES)
            .map(|index| cidr(&format!("10.{index}.0.0/16")))
            .collect(),
        ..policy()
    };
    assert!(validate_cluster_policy(&checked, &limits()).is_ok());

    checked.overlay_route_scopes.push(cidr("10.64.0.0/16"));
    assert!(matches!(
        validate_cluster_policy(&checked, &limits()),
        Err(ControlPlaneError::InvalidClusterPolicy { reason }) if reason.contains("at most 64")
    ));

    checked.overlay_route_scopes = vec![cidr("10.42.0.1/16")];
    assert!(matches!(
        validate_cluster_policy(&checked, &limits()),
        Err(ControlPlaneError::InvalidClusterPolicy { reason })
            if reason.contains("must be canonical")
    ));

    checked.overlay_route_scopes = vec![cidr("10.42.0.0/16"), cidr("10.42.1.0/24")];
    assert!(matches!(
        validate_cluster_policy(&checked, &limits()),
        Err(ControlPlaneError::InvalidClusterPolicy { reason }) if reason.contains("overlaps")
    ));

    checked.overlay_route_scopes = vec![cidr("::/0")];
    assert!(matches!(
        validate_cluster_policy(&checked, &limits()),
        Err(ControlPlaneError::InvalidClusterPolicy { reason }) if reason.contains("unrestricted")
    ));

    checked.overlay_route_scopes = vec![cidr("fe80::/10")];
    assert!(matches!(
        validate_cluster_policy(&checked, &limits()),
        Err(ControlPlaneError::InvalidClusterPolicy { reason }) if reason.contains("link-local")
    ));
}

#[test]
fn overlay_route_index_prefers_longest_prefix_then_metric_node_and_route_id() {
    let source = node_record("indexed-source");
    let mut broad = node_record("indexed-broad");
    let mut broad_route = route("broad", "10.42.0.0/16", "indexed-broad");
    broad_route.metric = 0;
    broad.routes = vec![broad_route];

    let mut exact = vec![node_record("indexed-exact-a"), node_record("indexed-exact-b")];
    for node in &mut exact {
        let owner = node.node_id.as_str().to_string();
        node.routes = ["z-route", "a-route"]
            .into_iter()
            .map(|route_id| Route { metric: 10, ..route(route_id, "10.42.1.0/24", &owner) })
            .collect();
    }
    let expected_node_id = exact[0].node_id.clone();

    let mut worse_metric = node_record("indexed-worse-metric");
    let mut worse_route = route("lower-priority-exact", "10.42.1.0/24", "indexed-worse-metric");
    worse_route.metric = 50;
    worse_metric.routes = vec![worse_route];

    let mut nodes = vec![source.clone(), broad, worse_metric];
    nodes.extend(exact);
    let index = OverlayRouteIndex::build(&nodes);
    let target = index.resolve_destination(&source, &nodes, ip("10.42.1.99"), &policy()).unwrap();

    assert_eq!(text(&target.node_id), text(&expected_node_id));
    assert_eq!(target.routes.len(), 1);
    assert_eq!(target.routes[0].id, "a-route");
    assert_eq!(target.routes[0].cidr, cidr("10.42.1.0/24"));
}

#[test]
fn overlay_route_index_uses_acl_allowed_less_specific_fallback() {
    let source = node_record("acl-index-source");
    let mut denied = node_record("acl-index-denied");
    denied.tags.insert("blocked".to_string());
    let mut denied_route = route("denied-specific", "10.42.1.0/24", "acl-index-denied");
    denied_route.metric = 1;
    denied.routes = vec![denied_route];

    let mut allowed = node_record("acl-index-allowed");
    allowed.tags.insert("allowed".to_string());
    allowed.routes = vec![route("allowed-fallback", "10.42.0.0/16", "acl-index-allowed")];

    let nodes = vec![source.clone(), denied, allowed.clone()];
    let index = OverlayRouteIndex::build(&nodes);
    let mut deny = rule("deny-blocked", AclAction::Deny);
    deny.to_tags = names(&["blocked"]);
    let mut allow = rule("allow-route-provider", AclAction::Allow);
    allow.to_tags = names(&["allowed"]);
    allow.routes = vec![cidr("10.42.0.0/16")];
    let ruled = ClusterPolicy { acl_rules: vec![deny, allow], ..policy() };

    let target = index.resolve_destination(&source, &nodes, ip("10.42.1.99"), &ruled).unwrap();
    assert_eq!(text(&target.node_id), text(&allowed.node_id));
    assert_eq!(target.routes.len(), 1);
    assert_eq!(target.routes[0].id, "overlay-v4-0a2a0163");
    assert_eq!(target.routes[0].cidr, cidr("10.42.1.99/32"));
    assert_eq!(text(&target.routes[0].advertised_by), text(&allowed.node_id));
}

#[test]
fn overlay_route_index_does_not_bypass_specific_deny_with_broad_allow() {
    let source = node_record("acl-prefix-source");
    let mut provider = node_record("acl-prefix-provider");
    provider.routes = vec![route("broad-provider-route", "10.42.0.0/16", "acl-prefix-provider")];
    let nodes = vec![source.clone(), provider.clone()];
    let index = OverlayRouteIndex::build(&nodes);
    let mut allow = rule("allow-broad", AclAction::Allow);
    allow.routes = vec![cidr("10.42.0.0/16")];
    let mut deny = rule("deny-specific", AclAction::Deny);
    deny.routes = vec![cidr("10.42.1.0/24")];
    let ruled = ClusterPolicy { acl_rules: vec![allow, deny], ..policy() };

    assert!(index.resolve_destination(&source, &nodes, ip("10.42.1.99"), &ruled).is_none());
    let target = index.resolve_destination(&source, &nodes, ip("10.42.2.99"), &ruled).unwrap();
    assert_eq!(text(&target.node_id), text(&provider.node_id));
    assert_eq!(target.routes[0].cidr, cidr("10.42.2.99/32"));
}

#[test]
fn client_route_projection_does_not_return_the_full_worker_directory() {
    let mut gateway_a = node_record("projection-gateway-a");
    gateway_a.role = role("gateway");
    gateway_a.vpn_ip = ip("100.64.0.10");
    gateway_a.endpoint_candidates = vec![EndpointCandidate {
        kind: EndpointCandidateKind::PublicUdp,
        endpoint: public("1.1.1.1", 51820),
        ..candidate("projection-gateway-a")
    }];
    let mut gateway_b = node_record("projection-gateway-b");
    gateway_b.role = role("gateway");
    gateway_b.vpn_ip = ip("100.64.0.11");
    gateway_b.endpoint_candidates = vec![EndpointCandidate {
        kind: EndpointCandidateKind::PublicUdp,
        endpoint: public("8.8.8.8", 51820),
        ..candidate("projection-gateway-b")
    }];

    let mut backbone_nodes = vec![gateway_a.clone(), gateway_b.clone()];
    let mut worker_ids = Vec::new();
    for index in 0..998 {
        let worker = node_record(&format!("projection-worker-{index:04}"));
        worker_ids.push(worker.node_id.as_str().to_string());
        backbone_nodes.push(worker);
    }

    let mut direct_client = node_record("projection-client-direct");
    direct_client.role = role("client");
    direct_client.vpn_ip = ip("100.64.1.10");
    let mut remote_client = node_record("projection-client-remote");
    remote_client.role = role("client");
    remote_client.vpn_ip = ip("100.64.1.11");
    let clients = vec![direct_client.clone(), remote_client.clone()];
    let mut selections = OrderedMap::new();
    for (client, gateway) in [(&direct_client, &gateway_a), (&remote_client, &gateway_b)] {
        selections.insert(
            client.node_id.clone(),
            ClientGatewaySelection {
                client_id: client.node_id.clone(),
                gateway_node_id: gateway.node_id.clone(),
                selected_at: NOW,
            },
        );
    }

    let projection = node_client_route_projection(
        &gateway_a,
        &backbone_nodes,
        &clients,
        &OrderedMap::new(),
        &selections,
        &policy(),
        NOW,
    );

    assert_eq!(projection.len(), 2);
    assert!(projection
        .iter()
        .any(|peer| peer.node_id == direct_client.node_id && peer.role.is_client()));
    let projected_gateway =
        projection.iter().find(|peer| peer.node_id == gateway_b.node_id).unwrap();
    assert_eq!(projected_gateway.routes.len(), 1);
    assert_eq!(projected_gateway.routes[0].cidr, cidr("100.64.1.11/32"));
    assert!(projection
        .iter()
        .all(|peer| !worker_ids.contains(&peer.node_id.as_str().to_string())));
}

#[test]
fn nat_classification_shape_rejects_forged_private_public_state() {
    let private_addr = private("100.100.20.30", 51_820);
    let classification = NatClassification {
        public_state_supported: false,
        publicly_reachable_ip: None,
        reachable_ip_is_global: false,
        strategy: 0,
        observed_endpoint: Some(private_addr),
        assessed_at: NOW,
        confidence: float(0.9),
        confidence_percent: Some(90),
        observations: vec![NatProbeObservation {
            local_addr: private_addr.addr,
            stun_server: private("100.100.20.40", 3478),
            reflexive_addr: private_addr,
            observed_at: NOW,
        }],
        filtering_observations: Vec::new(),
    };
    assert!(matches!(
        validate_nat_classification_shape(&classification, NOW, Span::from_secs(5)),
        Err(error) if error.contains(
            "requires matching globally routable direct or explicitly mapped observations"
        )
    ));
}

#[test]
fn topology_edge_observation_distinguishes_live_partial_and_stale_paths() {
    let forward = path("node-a", "node-b");
    let reverse = path("node-b", "node-a");
    assert_eq!(
        topology_edge_observation(&vec![], NOW, 30).0,
        ControlPlaneTopologyEdgeStatus::Unknown
    );
    assert_eq!(
        topology_edge_observation(&vec![forward.clone()], NOW, 30).0,
        ControlPlaneTopologyEdgeStatus::Partial
    );
    let both = topology_edge_observation(&vec![forward.clone(), reverse], NOW, 30);
    assert_eq!(both.0, ControlPlaneTopologyEdgeStatus::Connected);
    assert_eq!(both.1, vec![PathState::DirectNatTraversal]);
    assert_eq!(both.2, Some(NOW));

    let unreachable = PathRecord { selected_state: PathState::Unreachable, ..forward.clone() };
    assert_eq!(
        topology_edge_observation(&vec![unreachable], NOW, 30).0,
        ControlPlaneTopologyEdgeStatus::Unreachable
    );

    let stale = PathRecord { updated_at: after(-31), ..forward };
    assert_eq!(
        topology_edge_observation(&vec![stale], NOW, 30).0,
        ControlPlaneTopologyEdgeStatus::Stale
    );
}

#[test]
fn client_gateway_rejects_non_global_ipv6_candidates() {
    let mut node = node_record("ula-gateway");
    node.endpoint_candidates = vec![EndpointCandidate {
        node_id: node.node_id.clone(),
        kind: EndpointCandidateKind::Ipv6,
        endpoint: private("fd00::1", 51820),
        kind_fault: None,
        observed_at: NOW,
        priority: 100,
        cost: 1,
        source: CandidateSource::InterfaceScan,
    }];
    assert!(client_gateway_candidate_score(&node, NOW, &policy()).is_none());

    node.endpoint_candidates[0].endpoint = public("2606:4700:4700::1111", 51820);
    assert!(client_gateway_candidate_score(&node, NOW, &policy()).is_some());
    node.relay_capability = Some(RelayCapability {
        enabled_by_policy: true,
        public_endpoint: Some(public("8.8.8.8", 51820)),
        admission_url: Some("https://8.8.8.8:18447".to_string()),
        ..relay_capability()
    });
    let ipv6_disabled = ClusterPolicy { allow_ipv6_direct: false, ..policy() };
    assert!(client_gateway_candidate_score(&node, NOW, &ipv6_disabled).is_none());
    let projected = filter_client_gateway_endpoint_candidates(node, NOW, &ipv6_disabled);
    assert!(projected.endpoint_candidates.is_empty());
    assert_eq!(projected.relay_capability, None);
}

#[test]
fn lazy_connect_activity_reason_requires_one_valid_timestamp() {
    let mut record = path("source", "target");
    assert_eq!(lazy_connect_local_activity_at(&record, PREFIX), Ok(None));

    record.score.reasons.push(format!("{PREFIX}invalid"));
    assert!(lazy_connect_local_activity_at(&record, PREFIX).is_err());

    let observed_at = timestamp_from_millis(1_700_000_000_123).unwrap();
    assert_eq!(observed_at, Timestamp { seconds: 1_700_000_000, nanos: 123_000_000 });
    record.score.reasons.clear();
    record.score.reasons.push(format!("{PREFIX}{}", 1_700_000_000_123_i64));
    assert_eq!(lazy_connect_local_activity_at(&record, PREFIX), Ok(Some(observed_at)));

    record.score.reasons.push(format!("{PREFIX}{}", 1_700_000_000_123_i64));
    assert!(lazy_connect_local_activity_at(&record, PREFIX).is_err());
}
