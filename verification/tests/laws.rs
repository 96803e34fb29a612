#![allow(dead_code, unused_imports)]

use ipars_control_plane::config::{ControlPlaneConfig, ProtocolLimits};
use ipars_control_plane::error::{ControlPlaneError, TokenStatus};
use ipars_control_plane::float::Float32;
use ipars_control_plane::ids::{ClusterId, KeyId, NameSet, NodeId, Role};
use ipars_control_plane::map::OrderedMap;
use ipars_control_plane::net::{Cidr, IpAddr, SocketAddr};
use ipars_control_plane::time::{Span, Timestamp};
use ipars_control_plane::types::{
    AclAction, AclRule, BootstrapEndpoint, BootstrapEndpointKind, CandidateSource,
    ClientGatewaySelection, ClusterPolicy, Endpoint, EndpointCandidate, EndpointCandidateKind,
    HealthState, HeartbeatStoreUpdate, JoinTokenClaims, KeycloakCandidateLease, NatClassification,
    NodeHealth, NodeRecord, PathRecord, PathScore, PathState, PeerPathKey, RegisterNodeRequest,
    RejoinNodeStoreUpdate, RelayCapability, Route, ServiceInstance, TokenPolicy,
    TokenRevocationRecord, TransportProtocol,
};

const NOW: Timestamp = Timestamp { seconds: 1_750_000_000, nanos: 0 };
const PREFIX: &str = "lazy-connect-local-activity-ms=";

fn after(seconds: i64) -> Timestamp {
    Timestamp { seconds: NOW.seconds + seconds, nanos: NOW.nanos }
}

fn id(name: &str) -> NodeId {
    NodeId::from_string(name.to_string())
}

fn cluster(name: &str) -> ClusterId {
    ClusterId::from_string(name.to_string())
}

fn role(name: &str) -> Role {
    Role::from_string(name.to_string())
}

fn names(list: &[&str]) -> NameSet {
    let mut set = NameSet::new();
    for name in list {
        set.insert(name.to_string());
    }
    set
}

fn cidr(text: &str) -> Cidr {
    match text.parse::<ipnet::IpNet>() {
        Ok(ipnet::IpNet::V4(net)) => Cidr::V4 { addr: u32::from(net.addr()), prefix: net.prefix_len() },
        Ok(ipnet::IpNet::V6(net)) => Cidr::V6 { addr: u128::from(net.addr()), prefix: net.prefix_len() },
        Err(_) => panic!("not a network: {text}"),
    }
}

fn ip(text: &str) -> IpAddr {
    let bits = if text.contains(':') { 128 } else { 32 };
    match cidr(&format!("{text}/{bits}")) {
        Cidr::V4 { addr, .. } => IpAddr::V4(addr),
        Cidr::V6 { addr, .. } => IpAddr::V6(addr),
    }
}

fn public(text: &str, port: u16) -> Endpoint {
    Endpoint { addr: SocketAddr { ip: ip(text), port }, usable: true, globally_routable: true }
}

fn private(text: &str, port: u16) -> Endpoint {
    Endpoint { addr: SocketAddr { ip: ip(text), port }, usable: true, globally_routable: false }
}

fn float(value: f32) -> Float32 {
    Float32 { bits: value.to_bits() }
}

fn limits() -> ProtocolLimits {
    ProtocolLimits {
        lazy_connect_prefix: PREFIX.to_string(),
        max_path_score_reasons: 16,
        min_overlay_block_size: 4,
        max_overlay_block_size: 64,
        supported_max_degrees: vec![4, 6, 8],
        max_overlay_degree: 64,
        core_service_kinds: vec![
            BootstrapEndpointKind::ControlPlane,
            BootstrapEndpointKind::Signal,
            BootstrapEndpointKind::Stun,
        ],
        max_bootstrap_endpoints: 64,
        max_bootstrap_endpoints_per_kind: 16,
        max_join_token_ttl_seconds: 86_400,
        join_token_not_before_skew_seconds: 30,
        client_registration_schema_version: 1,
        max_client_registration_validity_seconds: 900,
    }
}

fn policy() -> ClusterPolicy {
    ClusterPolicy {
        acl_rules: Vec::new(),
        overlay_route_scopes: Vec::new(),
        overlay_block_size: 8,
        overlay_max_degree: 6,
        overlay_direct_shortcut_limit: 0,
        overlay_on_demand_peer_limit: 16,
        idle_timeout_seconds: 300,
        relay_health_ttl_seconds: 90,
        endpoint_candidate_ttl_seconds: 30,
        path_state_ttl_seconds: 30,
        path_quality_observation_ttl_seconds: 30,
        nat_classification_ttl_seconds: 300,
        nat_classification_min_confidence_percent: 50,
        allow_ipv6_direct: true,
    }
}

fn token_policy() -> TokenPolicy {
    TokenPolicy {
        allow_join: true,
        allow_relay: false,
        allowed_routes: Vec::new(),
        allowed_tags: NameSet::new(),
        max_token_uses: Some(1),
    }
}

fn node_record(name: &str) -> NodeRecord {
    NodeRecord {
        node_id: id(name),
        hostname: None,
        cluster_id: cluster("cluster-a"),
        vpn_ip: ip("100.64.0.2"),
        identity_public_key: format!("identity-{name}"),
        wireguard_public_key: format!("wg-{name}"),
        role: role("edge"),
        tags: NameSet::new(),
        endpoint_candidates: Vec::new(),
        relay_capability: None,
        token_policy: token_policy(),
        routes: Vec::new(),
        registered_at: NOW,
    }
}

fn route(route_id: &str, network: &str, advertised_by: &str) -> Route {
    Route {
        id: route_id.to_string(),
        cidr: cidr(network),
        advertised_by: id(advertised_by),
        via: None,
        metric: 100,
        tags: NameSet::new(),
    }
}

fn rule(rule_id: &str, action: AclAction) -> AclRule {
    AclRule {
        id: rule_id.to_string(),
        from_roles: NameSet::new(),
        from_tags: NameSet::new(),
        to_roles: NameSet::new(),
        to_tags: NameSet::new(),
        routes: Vec::new(),
        protocol: TransportProtocol::Any,
        action,
    }
}

fn candidate(name: &str) -> EndpointCandidate {
    EndpointCandidate {
        node_id: id(name),
        kind: EndpointCandidateKind::StunReflexive,
        endpoint: private("203.0.113.10", 51820),
        kind_fault: None,
        observed_at: NOW,
        priority: 100,
        cost: 10,
        source: CandidateSource::StunProbe,
    }
}

fn stale_candidate(name: &str) -> EndpointCandidate {
    EndpointCandidate { observed_at: after(-60), ..candidate(name) }
}

fn health(state: HealthState, last_seen_at: Timestamp) -> NodeHealth {
    NodeHealth { state, last_seen_at, latency_ms: Some(float(1.0)), relay_load: None, message: None }
}

fn path(local: &str, remote: &str) -> PathRecord {
    PathRecord {
        key: PeerPathKey { local: id(local), remote: id(remote) },
        selected_state: PathState::DirectNatTraversal,
        selected_candidate: None,
        selected_kind_allowed: true,
        relay_node: None,
        score: PathScore { value: float(0.5), reasons: Vec::new() },
        updated_at: NOW,
        pinned: false,
    }
}

fn relay_path(local: &str, remote: &str, relay: Option<&str>) -> PathRecord {
    PathRecord {
        selected_state: PathState::Relay,
        relay_node: relay.map(id),
        ..path(local, remote)
    }
}

fn relay_capability() -> RelayCapability {
    RelayCapability {
        enabled_by_policy: false,
        public_endpoint: Some(private("203.0.113.10", 51820)),
        admission_url: Some("http://203.0.113.10:9580".to_string()),
        admission_url_usable: true,
        max_sessions: 100,
        active_sessions: 0,
        max_mbps: 1000,
        e2e_only: true,
        ready_to_relay: true,
    }
}

fn text(node_id: &NodeId) -> &str {
    node_id.as_str()
}

use ipars_control_plane::acl::{
    acl_allows_peer, acl_allows_route, acl_allows_route_destination, acl_decision, acl_filter_peer,
    acl_rule_matches, acl_rule_matches_destination, acl_rule_matches_node_selectors,
};
use ipars_control_plane::auth::{
    authenticate_client_request, authenticate_node_query, authenticate_overlay_path_query,
    authenticate_signal_node_upsert, AcceptedNonces, ClientRequestKind, RequestSignature,
};
use ipars_control_plane::client_routes::{
    node_peer_map_with_clients, update_client_gateway_selection, SelectionChange,
};
use ipars_control_plane::digest::overlay_epoch_digest;
use ipars_control_plane::directory::{
    build_service_directory, enrollment_lease_cutoff, full_service_owner_node_count,
    list_directory_endpoints,
    service_instance_kind_count, service_instance_owner_node_id, service_owner_count,
};
use ipars_control_plane::epochs::{overlay_membership_epoch, overlay_routing_epoch};
use ipars_control_plane::gateway::{
    client_gateway_candidate_score, client_gateway_health_allows,
    filter_client_gateway_endpoint_candidates, overlay_node_health_allows, require_client_gateway,
    select_client_gateways,
};
use ipars_control_plane::heartbeat::{validate_nat_classification_shape, validate_path_score_shape};
use ipars_control_plane::intake::admit_policy;
use ipars_control_plane::intents::{
    client_gateway_selection_changed_recently, connection_intents_for, has_to_wait,
    step_after_look, waiting_pause, PeerConnectionIntent, WaitStep,
};
use ipars_control_plane::keycloak::{
    accept_candidacy, default_keycloak_candidate_eligible, select_keycloak_candidates,
    validate_placement_request, KeycloakCandidacy,
};
use ipars_control_plane::metrics::{
    nat_classification_is_fresh, nat_discovery_overview, peer_map_visibility_metrics,
    ControlPlaneOperationMetrics,
};
use ipars_control_plane::net::{ipnet_contains, ipnets_overlap};
use ipars_control_plane::nodes::relay_candidate_allowed;
use ipars_control_plane::overlay::{
    checked_answer, ensure_routing_epoch, neighbor_map_for, overlay_node_snapshot,
    overlay_path_ends, overlay_path_for, unavailable_nodes, TopologyNeighbors,
};
use ipars_control_plane::peer_maps::filtered_relay_map_for_node;
use ipars_control_plane::pins::{list_paths, AdminPathPins};
use ipars_control_plane::policy::validate_cluster_policy;
use ipars_control_plane::registration::{
    claims_for_sponsored_client, client_claims_are_control_only, enrollment_role_is_allowed,
    ensure_same_participant, node_enrollment_role_is_allowed, step_after_attempt,
    validate_client_registration_bundle, validate_client_sponsor, AttemptStep,
    ClientRegistrationBundle, RegisterClientRequest,
};
use ipars_control_plane::retries::{
    step_after_policy_update, step_after_routing_state, step_after_snapshot, RetryStep,
};
use ipars_control_plane::route_index::OverlayRouteIndex;
use ipars_control_plane::route_table::{build_table, insert_preferred_gateway_route, insert_route};
use ipars_control_plane::routes::{
    aggregate_overlay_routes, overlay_route_catalog_epoch, restricted_advertised_route_cidr_reason,
    route_allowed_by_policy, validate_advertised_route_id,
};
use ipars_control_plane::service::valid_service_instance_identifier;
use ipars_control_plane::store::InMemoryStore;
use ipars_control_plane::time::{
    timestamp_from_millis, timestamp_is_fresh, timestamp_not_after_skew, timestamp_text,
    timestamp_within_skew, MAX_TIMESTAMP_SECONDS, MIN_TIMESTAMP_SECONDS,
};
use ipars_control_plane::token::{InMemoryTokenLedger, TokenAdmission};
use ipars_control_plane::topology::{
    groups_are_rooted, observed_path_pairs, overlay_topology_snapshot, topology_edge_observation,
    ControlPlaneTopologyEdgeKind, ControlPlaneTopologyEdgeStatus, EdgePlacement,
    GroupRepresentative, PlacedEdge, Topology, TopologyEdgeKind, TopologyGroup,
};
use ipars_control_plane::vpn::{
    assigned_ipv4_vpn_ips, vpn_pool_contains_usable_host, vpn_pool_usable_host_count, VpnAllocator,
};

fn claims(nonce: &str) -> JoinTokenClaims {
    JoinTokenClaims {
        cluster_id: cluster("cluster-a"),
        bootstrap_endpoints: Vec::new(),
        expires_at: after(300),
        not_before: after(-1),
        role: role("edge"),
        tags: names(&["edge"]),
        issuer: id("issuer"),
        key_id: KeyId::from_string("root".to_string()),
        policy: token_policy(),
        nonce: nonce.to_string(),
    }
}

fn to_tag(rule_id: &str, tag: &str, action: AclAction) -> AclRule {
    AclRule { to_tags: names(&[tag]), ..rule(rule_id, action) }
}

fn to_routes(rule_id: &str, network: &str, action: AclAction) -> AclRule {
    AclRule { routes: vec![cidr(network)], ..rule(rule_id, action) }
}

fn ruled(acl_rules: Vec<AclRule>) -> ClusterPolicy {
    ClusterPolicy { acl_rules, ..policy() }
}

fn tagged(name: &str, tags: &[&str]) -> NodeRecord {
    NodeRecord { tags: names(tags), ..node_record(name) }
}

#[test]
fn denial_wins_whatever_the_order() {
    let source = node_record("source");
    let target = tagged("target", &["app", "blocked"]);
    let allow = to_tag("allow", "app", AclAction::Allow);
    let deny = to_tag("deny", "blocked", AclAction::Deny);
    for rules in [vec![allow.clone(), deny.clone()], vec![deny.clone(), allow.clone()]] {
        assert_eq!(acl_decision(&source, &target, None, &ruled(rules.clone())), Some(false));
        assert!(!acl_allows_peer(&source, &target, &ruled(rules)));
    }
    assert_eq!(acl_decision(&source, &target, None, &ruled(vec![allow])), Some(true));
}

#[test]
fn nothing_is_permitted_by_default_once_there_are_rules() {
    let source = node_record("source");
    let target = tagged("target", &["app"]);
    let rules = ruled(vec![to_tag("allow", "other", AclAction::Allow)]);
    assert_eq!(acl_decision(&source, &target, None, &rules), None);
    assert!(acl_filter_peer(&source, &target, &rules).is_none());
    assert!(acl_filter_peer(&source, &target, &policy()).is_some());
}

#[test]
fn denying_rule_only_narrows() {
    let source = node_record("source");
    let target = tagged("target", &["app"]);
    let allow = to_tag("allow", "app", AclAction::Allow);
    let deny = to_tag("deny", "other", AclAction::Deny);
    assert!(acl_allows_peer(&source, &target, &ruled(vec![allow.clone(), deny])));
    assert!(acl_allows_peer(&source, &target, &ruled(vec![allow])));
}

#[test]
fn rule_selects_by_role_and_tag_and_network() {
    let source = tagged("source", &["a"]);
    let target = tagged("target", &["b"]);
    let mut checked = to_routes("r", "10.42.0.0/16", AclAction::Allow);
    checked.from_roles = names(&["edge"]);
    checked.from_tags = names(&["a"]);
    checked.to_roles = names(&["edge"]);
    checked.to_tags = names(&["b"]);
    assert!(acl_rule_matches_node_selectors(&checked, &source, &target));
    assert!(!acl_rule_matches_node_selectors(&checked, &target, &source));
    let inside = route("in", "10.42.1.0/24", "target");
    let outside = route("out", "10.43.0.0/16", "target");
    assert!(acl_rule_matches(&checked, &source, &target, Some(&inside)));
    assert!(!acl_rule_matches(&checked, &source, &target, Some(&outside)));
    assert!(!acl_rule_matches(&checked, &source, &target, None));
    assert!(acl_rule_matches_destination(&checked, &source, &target, ip("10.42.9.9")));
    assert!(!acl_rule_matches_destination(&checked, &source, &target, ip("10.43.9.9")));
    assert!(acl_allows_route(&source, &target, &inside, &ruled(vec![checked])));
}

#[test]
fn specific_denial_is_not_bypassed() {
    let source = node_record("source");
    let target = node_record("target");
    let rules = ruled(vec![
        to_routes("allow", "10.42.0.0/16", AclAction::Allow),
        to_routes("deny", "10.42.1.0/24", AclAction::Deny),
    ]);
    assert!(!acl_allows_route_destination(&source, &target, ip("10.42.1.1"), &rules));
    assert!(acl_allows_route_destination(&source, &target, ip("10.42.2.1"), &rules));
}

#[test]
fn visible_peer_shows_permitted_routes_only() {
    let source = node_record("source");
    let mut target = node_record("target");
    target.routes =
        vec![route("in", "10.42.1.0/24", "target"), route("out", "10.99.0.0/16", "target")];
    let rules = ruled(vec![to_routes("allow", "10.42.0.0/16", AclAction::Allow)]);
    let seen = acl_filter_peer(&source, &target, &rules).unwrap();
    assert_eq!(seen, NodeRecord { routes: vec![target.routes[0].clone()], ..target });
}

fn signed(nonce: &str, signed_at: Timestamp) -> Option<RequestSignature> {
    Some(RequestSignature { signed_at, nonce: nonce.to_string() })
}

#[test]
fn request_is_accepted_once() {
    let max_age = Span::from_secs(300);
    let node = node_record("node-a");
    let mut nonces = AcceptedNonces::new();
    let mut ask = |nonce: &str, signed_at: Timestamp, now: Timestamp| {
        authenticate_node_query(
            &mut nonces,
            &node.node_id,
            &signed(nonce, signed_at),
            Some(&node),
            &None,
            now,
            max_age,
        )
    };
    assert!(ask("one", NOW, NOW).is_ok());
    assert!(ask("two", NOW, after(10)).is_ok());
    for later in [0, 10, 299, 300] {
        assert!(matches!(
            ask("one", NOW, after(later)),
            Err(ControlPlaneError::NodeRequestReplay { .. })
        ));
    }
    assert!(matches!(
        ask("one", NOW, after(301)),
        Err(ControlPlaneError::NodeSignatureRejected { .. })
    ));
    assert!(ask("ahead", after(1_100), after(1_000)).is_ok());
    for later in [1_000, 1_100, 1_300] {
        assert!(matches!(
            ask("ahead", after(1_100), after(later)),
            Err(ControlPlaneError::NodeRequestReplay { node_id }) if text(&node_id) == "node-a"
        ));
    }
}

#[test]
fn late_request_leaves_no_nonce() {
    let max_age = Span::from_secs(300);
    let mut nonces = AcceptedNonces::new();
    assert!(matches!(
        nonces.accept_node_query_nonce(&id("node-a"), after(-301), "one", NOW, max_age),
        Err(ControlPlaneError::NodeSignatureRejected { reason, .. })
            if reason.contains("is outside the allowed 300s window")
    ));
    assert_eq!(nonces.entries.len(), 0);
    nonces.accept_node_query_nonce(&id("node-a"), NOW, "one", NOW, max_age).unwrap();
    assert_eq!(nonces.entries.len(), 1);
    nonces.accept_node_query_nonce(&id("node-a"), after(301), "two", after(301), max_age).unwrap();
    assert_eq!(nonces.entries.len(), 1);
}

#[test]
fn senders_use_the_interface_that_is_theirs() {
    let max_age = Span::from_secs(300);
    let mut nonces = AcceptedNonces::new();
    let node = node_record("node-a");
    let client = NodeRecord { role: role("client"), ..node_record("client-a") };
    let node_query = |nonces: &mut AcceptedNonces, found: Option<&NodeRecord>, fault: Option<&str>| {
        authenticate_node_query(
            nonces,
            &id("node-a"),
            &signed("n", NOW),
            found,
            &fault.map(str::to_string),
            NOW,
            max_age,
        )
    };
    assert!(matches!(
        node_query(&mut nonces, None, None),
        Err(ControlPlaneError::NodeNotFound { .. })
    ));
    assert!(matches!(
        node_query(&mut nonces, Some(&client), None),
        Err(ControlPlaneError::NodeSignatureRejected { reason, .. })
            if reason == "client identities must use the client control API"
    ));
    assert!(matches!(
        node_query(&mut nonces, Some(&node), Some("bad signature")),
        Err(ControlPlaneError::NodeSignatureRejected { reason, .. }) if reason == "bad signature"
    ));
    assert!(matches!(
        authenticate_node_query(
            &mut nonces,
            &id("node-a"),
            &None,
            Some(&node),
            &None,
            NOW,
            max_age
        ),
        Err(ControlPlaneError::NodeSignatureRequired { .. })
    ));

    let client_request = |nonces: &mut AcceptedNonces, kind, gateway: Option<NodeId>, found| {
        authenticate_client_request(
            nonces,
            &id("client-a"),
            kind,
            &gateway,
            &signed("c", NOW),
            found,
            &None,
            NOW,
            max_age,
        )
    };
    assert!(matches!(
        client_request(&mut nonces, ClientRequestKind::Remove, Some(id("g")), Some(&client)),
        Err(ControlPlaneError::NodeUpdateRejected { .. })
    ));
    assert!(matches!(
        client_request(&mut nonces, ClientRequestKind::PeerMap, None, Some(&node)),
        Err(ControlPlaneError::NodeSignatureRejected { reason, .. })
            if reason == "node identities cannot use the client control API"
    ));
    assert!(client_request(&mut nonces, ClientRequestKind::PeerMap, Some(id("g")), Some(&client))
        .is_ok());

    let path_query = |nonces: &mut AcceptedNonces, fault: Option<&str>, found| {
        authenticate_overlay_path_query(
            nonces,
            &id("node-a"),
            &fault.map(str::to_string),
            &RequestSignature { signed_at: NOW, nonce: "p".to_string() },
            found,
            &None,
            NOW,
            max_age,
        )
    };
    assert!(matches!(
        path_query(&mut nonces, Some("bad query"), Some(&node)),
        Err(ControlPlaneError::NodeSignatureRejected { reason, .. }) if reason == "bad query"
    ));
    assert!(path_query(&mut nonces, None, Some(&node)).is_ok());
    assert!(matches!(
        path_query(&mut nonces, None, Some(&node)),
        Err(ControlPlaneError::NodeRequestReplay { .. })
    ));

    let upsert = |found, signed_at| {
        authenticate_signal_node_upsert(&id("node-a"), found, signed_at, &None, NOW, max_age)
    };
    assert!(upsert(Some(&node), Some(after(-300))).is_ok());
    assert!(matches!(
        upsert(Some(&client), Some(NOW)),
        Err(ControlPlaneError::NodeUpdateRejected { reason, .. })
            if reason == "clients cannot register with Signal"
    ));
    assert!(matches!(
        upsert(Some(&node), None),
        Err(ControlPlaneError::NodeSignatureRequired { .. })
    ));
    assert!(matches!(
        upsert(Some(&node), Some(after(301))),
        Err(ControlPlaneError::NodeSignatureRejected { .. })
    ));
}

fn gateway_node(name: &str, address: &str, cost: u32) -> NodeRecord {
    let mut node = node_record(name);
    node.role = role("gateway");
    node.endpoint_candidates = vec![EndpointCandidate {
        kind: EndpointCandidateKind::PublicUdp,
        endpoint: public(address, 51820),
        cost,
        ..candidate(name)
    }];
    node
}

fn client_node(name: &str) -> NodeRecord {
    NodeRecord { role: role("client"), vpn_ip: ip("100.64.1.1"), ..node_record(name) }
}

#[test]
fn selection_settles() {
    let client = client_node("client");
    let peers = vec![
        client.clone(),
        gateway_node("gateway-a", "8.8.8.8", 1),
        gateway_node("gateway-b", "8.8.4.4", 5),
    ];
    let health_by_node = OrderedMap::new();
    let mut selections = OrderedMap::new();
    let change = |selections: &OrderedMap<NodeId, ClientGatewaySelection>,
                  requested: Option<&NodeId>,
                  listed: &Vec<NodeRecord>| {
        update_client_gateway_selection(
            &client,
            requested,
            listed,
            &health_by_node,
            selections,
            &policy(),
            NOW,
        )
    };
    let wanted = id("gateway-b");
    let selected = match change(&selections, Some(&wanted), &peers) {
        SelectionChange::Select(selection) => selection,
        _ => panic!("a gateway is selected"),
    };
    assert_eq!(text(&selected.gateway_node_id), "gateway-b");
    selections.insert(client.node_id.clone(), selected);
    assert!(matches!(change(&selections, Some(&wanted), &peers), SelectionChange::Keep));
    assert!(matches!(
        change(&selections, Some(&id("unknown")), &peers),
        SelectionChange::Select(selection) if text(&selection.gateway_node_id) == "gateway-a"
    ));
    assert!(matches!(change(&selections, None, &vec![client.clone()]), SelectionChange::Forget));
}

#[test]
fn client_is_shown_by_its_gateway_only() {
    let client = client_node("client");
    let gateway_a = gateway_node("gateway-a", "8.8.8.8", 1);
    let gateway_b = gateway_node("gateway-b", "8.8.4.4", 5);
    let peers = vec![client.clone(), gateway_a.clone(), gateway_b.clone(), node_record("worker")];
    let mut selections = OrderedMap::new();
    selections.insert(
        client.node_id.clone(),
        ClientGatewaySelection {
            client_id: client.node_id.clone(),
            gateway_node_id: gateway_b.node_id.clone(),
            selected_at: NOW,
        },
    );
    for source in [gateway_a, gateway_b, node_record("worker")] {
        let shown = node_peer_map_with_clients(
            &source,
            &peers,
            &OrderedMap::new(),
            &selections,
            &policy(),
            NOW,
        );
        assert_eq!(
            shown.iter().any(|peer| text(&peer.node_id) == "client"),
            text(&source.node_id) == "gateway-b"
        );
    }
}

#[test]
fn epochs_are_digests_of_framed_material() {
    assert_eq!(overlay_epoch_digest(b"domain", b"material"), 6_656_994_495_542_518_733);
    assert_ne!(
        overlay_epoch_digest(b"domainm", b"aterial"),
        overlay_epoch_digest(b"domain", b"material")
    );
    assert_eq!(
        overlay_membership_epoch(&vec!["node-a".to_string(), "node-b".to_string()]),
        6_127_189_972_951_018_948
    );
    assert_ne!(
        overlay_membership_epoch(&vec!["node-anode-b".to_string()]),
        overlay_membership_epoch(&vec!["node-a".to_string(), "node-b".to_string()])
    );

    let mut node = tagged("node-a", &["red", "blue"]);
    node.routes = vec![route("route-a", "10.42.0.0/16", "node-a")];
    assert_eq!(
        overlay_route_catalog_epoch(&vec![node.clone()]).unwrap(),
        15_296_900_350_604_429_842
    );

    let mut deny = to_tag("deny", "x", AclAction::Deny);
    deny.routes = vec![cidr("10.42.1.0/24"), cidr("fe80::/10")];
    let mut scoped = ruled(vec![deny]);
    scoped.overlay_route_scopes = vec![cidr("10.0.0.0/8")];
    assert_eq!(overlay_routing_epoch(7, &scoped).unwrap(), 750_651_928_480_846_621);
}

#[test]
fn catalog_forgets_the_order_and_what_is_not_in_it() {
    let mut a = node_record("node-a");
    a.routes = vec![route("route-a", "10.42.0.0/16", "node-a")];
    let b = node_record("node-b");
    let epoch = overlay_route_catalog_epoch(&vec![a.clone(), b.clone()]).unwrap();
    assert_eq!(overlay_route_catalog_epoch(&vec![b.clone(), a.clone()]).unwrap(), epoch);
    a.endpoint_candidates = vec![candidate("node-a")];
    a.relay_capability = Some(relay_capability());
    assert_eq!(overlay_route_catalog_epoch(&vec![a.clone(), b.clone()]).unwrap(), epoch);
    a.hostname = Some("host".to_string());
    a.identity_public_key = "id-other".to_string();
    a.registered_at = after(5);
    assert_eq!(overlay_route_catalog_epoch(&vec![b.clone(), a.clone()]).unwrap(), epoch);
    assert!(overlay_route_catalog_epoch(&Vec::new()).is_ok());
    a.wireguard_public_key = "wg-other".to_string();
    assert_ne!(overlay_route_catalog_epoch(&vec![a, b]).unwrap(), epoch);
}

#[test]
fn catalog_and_rules_are_written_as_named_fields() {
    let mut node = node_record("node-a");
    node.role = role("edge");
    node.tags = names(&["site-b", "site-a"]);
    let mut one = route("route-a", "10.42.0.0/16", "node-a");
    one.metric = 7;
    one.tags = names(&["x"]);
    node.routes = vec![Route { via: None, ..one.clone() }, Route { via: Some(id("node-a")), ..one }];
    let fields = "\"id\":\"route-a\",\"cidr\":\"10.42.0.0/16\",\"advertised_by\":\"node-a\"";
    let written = format!(
        "[[\"node-a\",\"{}\",\"edge\",[\"site-a\",\"site-b\"],\"{}\",\
         [{{{fields},\"via\":null,\"metric\":7,\"tags\":[\"x\"]}},\
         {{{fields},\"via\":\"node-a\",\"metric\":7,\"tags\":[\"x\"]}}]]]",
        node.vpn_ip.to_text(),
        node.wireguard_public_key,
    );
    assert_eq!(
        overlay_route_catalog_epoch(&vec![node]).unwrap(),
        overlay_epoch_digest(b"HeteroNetwork overlay route catalog v1", written.as_bytes())
    );

    let policy = ruled(vec![to_routes("allow", "10.9.0.0/16", AclAction::Allow)]);
    let mut material = 5u64.to_be_bytes().to_vec();
    material.extend_from_slice(
        b"[[{\"id\":\"allow\",\"from_roles\":[],\"from_tags\":[],\"to_roles\":[],\"to_tags\":[],\
          \"routes\":[\"10.9.0.0/16\"],\"protocol\":\"Any\",\"action\":\"Allow\"}],[]]",
    );
    assert_eq!(
        overlay_routing_epoch(5, &policy).unwrap(),
        overlay_epoch_digest(b"HeteroNetwork overlay routing epoch v1", &material)
    );
}

#[test]
fn aggregated_routes_are_the_fewest() {
    let mut node = node_record("node-a");
    node.routes = [
        "fd00::/65", "10.0.2.0/24", "10.0.1.0/24", "10.0.0.0/24", "10.0.3.0/25", "fd00:0:0:0:8000::/65",
        "10.0.1.128/25", "255.255.255.255/32", "255.255.255.254/32",
    ]
    .iter()
    .map(|network| route(network, network, "node-a"))
    .collect();
    let found: Vec<String> =
        aggregate_overlay_routes(&vec![node]).iter().map(|route| route.cidr.to_text()).collect();
    assert_eq!(
        found,
        vec!["10.0.0.0/23", "10.0.2.0/24", "10.0.3.0/25", "255.255.255.254/31", "fd00::/64"]
    );
}

#[test]
fn attempts_to_see_the_cluster_at_rest_are_bounded() {
    let changed = || Err(ControlPlaneError::ClusterPolicyChanged);
    assert!(matches!(step_after_snapshot(9, Ok(7)), RetryStep::Done { value: 7 }));
    for earlier in 0..7 {
        assert!(matches!(step_after_snapshot::<u8>(earlier, changed()), RetryStep::Again));
        assert!(matches!(step_after_routing_state(earlier, (), 1, 2), RetryStep::Again));
    }
    assert!(matches!(
        step_after_snapshot::<u8>(7, changed()),
        RetryStep::Failed { error: ControlPlaneError::OverlayRouteCatalogChanged }
    ));
    assert!(matches!(
        step_after_snapshot::<u8>(0, Err(ControlPlaneError::JoinDenied)),
        RetryStep::Failed { error: ControlPlaneError::JoinDenied }
    ));
    assert!(matches!(
        step_after_routing_state(7, (), 1, 2),
        RetryStep::Failed { error: ControlPlaneError::ClusterPolicyChanged }
    ));
    assert!(matches!(
        step_after_routing_state(7, 'p', 2, 2),
        RetryStep::Done { value: ('p', 2) }
    ));
    assert!(matches!(step_after_policy_update(1, 'p', false), RetryStep::Again));
    assert!(matches!(step_after_policy_update(2, 'p', true), RetryStep::Done { value: 'p' }));
    assert!(matches!(
        step_after_policy_update(2, 'p', false),
        RetryStep::Failed { error: ControlPlaneError::ClusterPolicyChanged }
    ));
}

fn endpoint(kind: BootstrapEndpointKind, url: &str) -> BootstrapEndpoint {
    BootstrapEndpoint {
        kind,
        kind_label: format!("{kind:?}"),
        url: url.to_string(),
        canonical_url: Some(url.to_string()),
        literal_http: None,
        literal_udp: None,
    }
}

fn instance(name: &str, owner: &str, signer: bool, kinds: &[BootstrapEndpointKind]) -> ServiceInstance {
    ServiceInstance {
        cluster_id: cluster("cluster-a"),
        instance_id: name.to_string(),
        owner_host_id: owner.to_string(),
        owner_node_id: Some(id(owner)),
        enrollment_signer: signer,
        endpoints: kinds
            .iter()
            .map(|kind| endpoint(*kind, &format!("https://{name}.example/{kind:?}")))
            .collect(),
        lease_expires_at: after(30),
        updated_at: NOW,
    }
}

const CORE: [BootstrapEndpointKind; 3] = [
    BootstrapEndpointKind::ControlPlane,
    BootstrapEndpointKind::Signal,
    BootstrapEndpointKind::Stun,
];

#[test]
fn listed_endpoints_are_bounded_and_distinct() {
    let mut few = limits();
    few.max_bootstrap_endpoints = 4;
    few.max_bootstrap_endpoints_per_kind = 2;
    let instances = (0..4).map(|i| instance(&format!("i{i}"), "owner", false, &CORE)).collect();
    let listed = list_directory_endpoints(&instances, &few);
    assert_eq!(listed.len(), 4);
    for kind in CORE {
        assert!(listed.iter().filter(|e| e.kind == kind).count() <= 2);
    }
    let twice = vec![instance("same", "owner", false, &CORE), instance("same", "owner", false, &CORE)];
    assert_eq!(list_directory_endpoints(&twice, &limits()).len(), 3);
}

#[test]
fn directory_serves_active_instances_and_signers_first() {
    let mut expired = instance("expired", "owner", true, &CORE);
    expired.lease_expires_at = NOW;
    let mut instances = vec![expired, instance("foreign", "stranger", true, &CORE)];
    for index in 0..70 {
        instances.push(instance(&format!("plain-{index:02}"), "owner", false, &CORE));
    }
    instances.push(instance("signer", "owner", true, &CORE));
    let directory = build_service_directory(
        &cluster("cluster-a"),
        &instances,
        &names(&["owner"]),
        &limits(),
        NOW,
        NOW,
    );
    assert_eq!(directory.instances.len(), 64);
    assert!(directory.instances.iter().any(|i| i.instance_id == "signer"));
    assert!(directory.instances.iter().all(|i| i.owner_host_id == "owner"));
    assert!(directory.instances.iter().all(|i| i.instance_id != "expired"));
}

#[test]
fn service_owners_are_counted_by_host() {
    let all = [
        BootstrapEndpointKind::ControlPlane,
        BootstrapEndpointKind::Signal,
        BootstrapEndpointKind::Stun,
        BootstrapEndpointKind::Relay,
        BootstrapEndpointKind::WebUi,
    ];
    let instances = vec![
        instance("a", "host-a", false, &all),
        instance("a2", "host-a", false, &CORE),
        instance("b", "host-b", false, &CORE),
    ];
    assert_eq!(service_owner_count(&instances), 2);
    assert_eq!(service_instance_kind_count(&instances, BootstrapEndpointKind::Signal), 2);
    assert_eq!(service_instance_kind_count(&instances, BootstrapEndpointKind::WebUi), 1);
    assert_eq!(full_service_owner_node_count(&instances), 1);
    assert_eq!(service_instance_owner_node_id(&instances[2]).map(text), Some("host-b"));
}

#[test]
fn offered_gateways_can_serve_and_dedicated_ones_come_first() {
    let mut worker = gateway_node("worker", "1.1.1.1", 0);
    worker.role = role("edge");
    let mut nodes = vec![worker, node_record("hidden"), client_node("client")];
    for index in 0..5 {
        nodes.push(gateway_node(&format!("gateway-{index}"), "8.8.8.8", 50 - index));
    }
    let offered = select_client_gateways(&nodes, &OrderedMap::new(), NOW, &policy());
    assert_eq!(offered.len(), 4);
    assert!(offered.iter().all(|node| node.role.as_str() == "gateway"));
    assert_eq!(text(&offered[0].node_id), "gateway-4");
    assert!(matches!(
        require_client_gateway(&vec![client_node("client")], &OrderedMap::new(), NOW, &policy()),
        Err(ControlPlaneError::Store { reason })
            if reason == "no reachable client gateway is registered"
    ));
    assert_eq!(
        text(&require_client_gateway(&nodes, &OrderedMap::new(), NOW, &policy()).unwrap().node_id),
        "gateway-4"
    );
}

#[test]
fn gateway_is_shown_without_relay() {
    let mut node = gateway_node("gateway", "8.8.8.8", 1);
    node.relay_capability = Some(relay_capability());
    node.endpoint_candidates.push(candidate("gateway"));
    let shown = filter_client_gateway_endpoint_candidates(node, NOW, &policy());
    assert_eq!(shown.relay_capability, None);
    assert_eq!(shown.endpoint_candidates.len(), 1);
    assert!(client_gateway_candidate_score(&shown, NOW, &policy()).is_some());
}

#[test]
fn health_decides_who_takes_part() {
    let fresh = health(HealthState::Healthy, after(-90));
    let stale = health(HealthState::Healthy, after(-91));
    let sick = health(HealthState::Unhealthy, NOW);
    assert!(client_gateway_health_allows(None, NOW, &policy()));
    assert!(client_gateway_health_allows(Some(&fresh), NOW, &policy()));
    assert!(!client_gateway_health_allows(Some(&stale), NOW, &policy()));
    assert!(!client_gateway_health_allows(Some(&sick), NOW, &policy()));
    let newcomer = NodeRecord { registered_at: NOW, ..node_record("newcomer") };
    assert!(overlay_node_health_allows(&newcomer, None, NOW, 90));
    assert!(overlay_node_health_allows(&newcomer, Some(&fresh), NOW, 90));
    assert!(!overlay_node_health_allows(&newcomer, Some(&stale), NOW, 90));
    let relay = NodeRecord {
        relay_capability: Some(RelayCapability { enabled_by_policy: true, ..relay_capability() }),
        ..node_record("relay")
    };
    assert!(relay_candidate_allowed(&relay, Some(&fresh), NOW, &policy()));
    assert!(!relay_candidate_allowed(&relay, None, NOW, &policy()));
    assert!(!relay_candidate_allowed(&node_record("plain"), Some(&fresh), NOW, &policy()));
}

#[test]
fn shown_relays_can_relay() {
    let relay = |name: &str| NodeRecord {
        relay_capability: Some(RelayCapability { enabled_by_policy: true, ..relay_capability() }),
        ..node_record(name)
    };
    let peers = vec![relay("fresh"), relay("stale"), node_record("plain"), node_record("source")];
    let mut health_by_node = OrderedMap::new();
    health_by_node.insert(id("fresh"), health(HealthState::Healthy, NOW));
    health_by_node.insert(id("stale"), health(HealthState::Healthy, after(-91)));
    health_by_node.insert(id("plain"), health(HealthState::Healthy, NOW));
    let shown = filtered_relay_map_for_node(
        &cluster("cluster-a"),
        &node_record("source"),
        &peers,
        &health_by_node,
        &policy(),
        NOW,
    );
    assert_eq!(shown.relays.iter().map(|r| text(&r.node_id)).collect::<Vec<_>>(), vec!["fresh"]);
}

#[test]
fn admitted_policy_covers_all_routes() {
    let config =
        ControlPlaneConfig::new(cluster("cluster-a"), cidr("100.64.0.0/24"), policy());
    let mut node = node_record("node-a");
    node.routes = vec![route("route-a", "10.42.1.0/24", "node-a")];
    let listed = vec![node];
    let scoped =
        |network: &str| ClusterPolicy { overlay_route_scopes: vec![cidr(network)], ..policy() };
    assert!(admit_policy(&config, &limits(), &scoped("10.43.0.0/16"), &listed).is_err());
    assert_eq!(
        admit_policy(&config, &limits(), &scoped("10.42.0.0/16"), &listed).unwrap(),
        overlay_route_catalog_epoch(&listed).unwrap()
    );
}

#[test]
fn each_peer_is_named_once() {
    let target = node_record("target");
    let listed = vec![target.clone(), node_record("peer-b"), node_record("peer-a")];
    let active = |local: &str, seconds: i64| {
        let mut reported = path(local, "target");
        reported.score.reasons = vec![format!("{PREFIX}{}", (NOW.seconds + seconds) * 1_000)];
        reported
    };
    let paths = vec![active("peer-b", 0), active("peer-a", 0), active("peer-b", -1)];
    let intents = connection_intents_for(
        &target.node_id,
        Some(&target),
        &cluster("cluster-a"),
        &paths,
        &listed,
        &policy(),
        PREFIX,
        NOW,
    )
    .unwrap();
    assert_eq!(intents.iter().map(|i| text(&i.peer)).collect::<Vec<_>>(), vec!["peer-a", "peer-b"]);
    assert!(matches!(
        connection_intents_for(
            &target.node_id,
            Some(&target),
            &cluster("cluster-b"),
            &paths,
            &listed,
            &policy(),
            PREFIX,
            NOW,
        ),
        Err(ControlPlaneError::NodeNotFound { .. })
    ));
}

#[test]
fn waiting_ends_with_news_or_with_the_deadline() {
    let intent = || PeerConnectionIntent { peer: id("p"), peer_vpn_ip: ip("100.64.0.3"), observed_at: NOW };
    assert!(has_to_wait(Span::from_secs(1), false, &vec![]));
    assert!(!has_to_wait(Span::from_secs(0), false, &vec![]));
    assert!(!has_to_wait(Span::from_secs(1), true, &vec![]));
    assert!(!has_to_wait(Span::from_secs(1), false, &vec![intent()]));
    assert_eq!(waiting_pause(Span::from_secs(5)).total_nanos(), 1_000_000_000);
    assert_eq!(waiting_pause(Span { seconds: 0, nanos: 7 }).total_nanos(), 7);
    assert_eq!(step_after_look(None, None, &vec![]), WaitStep::Wait);
    assert_eq!(step_after_look(Some(NOW), Some(NOW), &vec![]), WaitStep::Wait);
    assert_eq!(step_after_look(Some(NOW), Some(after(1)), &vec![]), WaitStep::AnswerWithPeerDelta);
    assert_eq!(step_after_look(Some(NOW), Some(NOW), &vec![intent()]), WaitStep::AnswerWithIntents);
    assert!(client_gateway_selection_changed_recently(Some(after(-60)), NOW));
    assert!(!client_gateway_selection_changed_recently(Some(after(-61)), NOW));
    assert!(!client_gateway_selection_changed_recently(None, NOW));
}

fn lease(name: &str, ready: bool) -> KeycloakCandidateLease {
    KeycloakCandidateLease {
        cluster_id: cluster("cluster-a"),
        node_id: id(name),
        vpn_ip: ip("100.64.0.9"),
        version: "1.0".to_string(),
        ready,
        eligible: true,
        generation: 1,
        lease_expires_at: after(45),
        updated_at: NOW,
    }
}

#[test]
fn placement_is_bounded_and_keeps_the_others() {
    let cluster_id = cluster("cluster-a");
    let all = (0..6).map(|i| lease(&format!("k{i}"), true)).collect::<Vec<_>>();
    assert_eq!(select_keycloak_candidates(&cluster_id, &all, 9).replicas.len(), 6);
    let placed = select_keycloak_candidates(&cluster_id, &all, 3);
    assert_eq!(placed.replicas.len(), 3);
    assert_eq!(placed.placement_id.len(), 64);
    assert!(default_keycloak_candidate_eligible());
    for lost in 0..6 {
        let remaining =
            all.iter().enumerate().filter(|(i, _)| *i != lost).map(|(_, c)| c.clone()).collect();
        let again = select_keycloak_candidates(&cluster_id, &remaining, 3);
        for kept in &placed.replicas {
            if text(&kept.node_id) != format!("k{lost}") {
                assert!(again.replicas.iter().any(|r| r.node_id == kept.node_id));
            }
        }
    }
}

#[test]
fn placement_requests_are_checked() {
    let check = |version: &str, generation: i64, ttl: u64, desired: usize, max: usize| {
        validate_placement_request(version, generation, Span::from_secs(ttl), desired, max)
    };
    assert!(check("26.6.4", 1, 15, 1, 1).is_ok());
    assert!(check("26.6.4", 1, 300, 9, 64).is_ok());
    for refused in [
        check("26.6.4", 1, 15, 0, 1),
        check("26.6.4", 1, 15, 10, 64),
        check("26.6.4", 1, 15, 3, 2),
        check("26.6.4", 1, 15, 3, 65),
        check("26.6.4", 0, 15, 1, 1),
        check("26.6.4", 1, 14, 1, 1),
        check("26.6.4", 1, 301, 1, 1),
        check("", 1, 15, 1, 1),
        check("26 6", 1, 15, 1, 1),
        check(&"1".repeat(65), 1, 15, 1, 1),
    ] {
        assert!(matches!(refused, Err(ControlPlaneError::InvalidClusterPolicy { .. })));
    }

    let candidacy = |name: &str, address: &str, eligible: bool| KeycloakCandidacy {
        node_id: id(name),
        vpn_ip: ip(address),
        version: "1.0".to_string(),
        eligible,
        ready: true,
        generation: 4,
        lease_ttl: Span::from_secs(45),
    };
    let nodes = vec![node_record("node-a"), client_node("client")];
    let mut health_by_node = OrderedMap::new();
    let accept = |candidacy: &KeycloakCandidacy, health: &OrderedMap<NodeId, NodeHealth>| {
        accept_candidacy(candidacy, &cluster("cluster-a"), &nodes, health, &policy(), NOW)
    };
    assert!(matches!(
        accept(&candidacy("unknown", "100.64.0.2", false), &health_by_node),
        Err(ControlPlaneError::NodeNotFound { .. })
    ));
    assert!(matches!(
        accept(&candidacy("node-a", "100.64.0.3", false), &health_by_node),
        Err(ControlPlaneError::NodeUpdateRejected { .. })
    ));
    assert!(matches!(
        accept(&candidacy("client", "100.64.1.1", false), &health_by_node),
        Err(ControlPlaneError::NodeUpdateRejected { .. })
    ));
    assert!(matches!(
        accept(&candidacy("node-a", "100.64.0.2", true), &health_by_node),
        Err(ControlPlaneError::NodeUpdateRejected { .. })
    ));
    health_by_node.insert(id("node-a"), health(HealthState::Healthy, NOW));
    let accepted = accept(&candidacy("node-a", "100.64.0.2", true), &health_by_node).unwrap();
    assert_eq!(accepted.lease_expires_at, after(45));
    assert_eq!(accepted.generation, 4);

    let mut store = InMemoryStore::new();
    assert!(store.upsert_keycloak_candidate(accepted.clone()));
    assert!(!store
        .upsert_keycloak_candidate(KeycloakCandidateLease { generation: 3, ..accepted }));
}

#[test]
fn visibility_is_balanced() {
    let mut provider = tagged("provider", &["app"]);
    provider.routes = vec![route("r", "10.42.1.0/24", "provider")];
    let nodes = vec![provider, tagged("blocked", &["blocked"]), node_record("plain")];
    let open = peer_map_visibility_metrics(&nodes, &policy());
    assert_eq!((open.peer_candidates, open.visible_peers, open.acl_denied_peers), (6, 6, 0));
    assert_eq!((open.route_candidates, open.visible_routes, open.acl_denied_routes), (2, 2, 0));
    let closed =
        peer_map_visibility_metrics(&nodes, &ruled(vec![to_tag("a", "app", AclAction::Allow)]));
    assert_eq!((closed.peer_candidates, closed.visible_peers, closed.acl_denied_peers), (6, 2, 4));
    assert_eq!(closed.visible_routes + closed.acl_denied_routes, closed.route_candidates);
}

#[test]
fn operations_are_counted() {
    let mut operations = ControlPlaneOperationMetrics::new();
    operations.record_wireguard_key_rotation(true);
    operations.record_wireguard_key_rotation(false);
    operations.record_node_removal(false);
    operations.record_node_removal(false);
    let counted = operations.snapshot();
    assert_eq!(counted.wireguard_key_rotation_success_count, 1);
    assert_eq!(counted.wireguard_key_rotation_failure_count, 1);
    assert_eq!(counted.node_removal_success_count, 0);
    assert_eq!(counted.node_removal_failure_count, 2);
}

fn classification(strategy: u8, percent: u8, assessed_at: Timestamp) -> NatClassification {
    NatClassification {
        public_state_supported: true,
        publicly_reachable_ip: None,
        reachable_ip_is_global: false,
        strategy,
        observed_endpoint: None,
        assessed_at,
        confidence: float(f32::from(percent) / 100.0),
        confidence_percent: Some(percent),
        observations: Vec::new(),
        filtering_observations: Vec::new(),
    }
}

#[test]
fn nat_classifications_are_counted_by_strategy() {
    let mut by_node = OrderedMap::new();
    by_node.insert(id("a"), classification(0, 90, NOW));
    by_node.insert(id("b"), classification(2, 40, NOW));
    by_node.insert(id("c"), classification(2, 50, after(-300)));
    by_node.insert(id("d"), classification(1, 90, after(-301)));
    let overview = nat_discovery_overview(&by_node, &policy(), 4, NOW);
    assert_eq!(overview.nat_classification_count, 4);
    assert_eq!(overview.stale_nat_classification_count, 1);
    assert_eq!(overview.fresh_low_confidence_nat_classification_count, 1);
    assert_eq!(overview.fresh_nat_classification_strategy_counts, vec![1, 0, 2, 0]);
    assert!(nat_classification_is_fresh(&classification(0, 90, after(-300)), NOW, 300));
    assert!(!nat_classification_is_fresh(&classification(0, 90, after(-301)), NOW, 300));
    assert!(validate_nat_classification_shape(
        &classification(0, 90, after(6)),
        NOW,
        Span::from_secs(5)
    )
    .is_err());
}

#[test]
fn networks_nest_or_are_disjoint() {
    let outer = cidr("10.42.0.0/16");
    let inner = cidr("10.42.1.0/24");
    let innermost = cidr("10.42.1.7/32");
    let other = cidr("10.43.0.0/16");
    assert!(ipnet_contains(&outer, &inner) && ipnet_contains(&inner, &innermost));
    assert!(ipnet_contains(&outer, &innermost));
    assert!(ipnets_overlap(&outer, &inner) && ipnets_overlap(&inner, &outer));
    assert!(!ipnets_overlap(&outer, &other) && !ipnets_overlap(&other, &outer));
    assert!(!ipnets_overlap(&outer, &cidr("fd00::/8")));
    assert!(ipnets_overlap(&cidr("fd00::/8"), &cidr("fd00:1::/32")));
}

#[test]
fn networks_have_their_first_and_last_address() {
    let v4 = cidr("10.42.1.77/20");
    assert_eq!(v4.network(), ip("10.42.0.0"));
    assert_eq!(v4.broadcast(), ip("10.42.15.255"));
    assert_eq!(v4.trunc(), cidr("10.42.0.0/20"));
    assert!(v4.contains(&ip("10.42.15.255")) && !v4.contains(&ip("10.42.16.0")));
    let v6 = cidr("2001:db8::ff/120");
    assert_eq!(v6.network(), ip("2001:db8::"));
    assert_eq!(v6.broadcast(), ip("2001:db8::ff"));
    assert_eq!(v6.trunc().to_text(), "2001:db8::/120");
    assert_eq!(ip("2001:db8::1").to_text(), "2001:db8::1");
    assert_eq!(SocketAddr { ip: ip("203.0.113.10"), port: 443 }.to_text(), "203.0.113.10:443");
}

#[test]
fn instants_follow_the_calendar() {
    assert_eq!(timestamp_from_millis(-1), Some(Timestamp { seconds: -1, nanos: 999_000_000 }));
    assert_eq!(timestamp_from_millis(i64::MAX), None);
    assert_eq!(
        timestamp_from_millis(-8_334_601_228_800_000),
        Some(Timestamp { seconds: MIN_TIMESTAMP_SECONDS, nanos: 0 })
    );
    assert_eq!(timestamp_from_millis(-8_334_601_228_800_001), None);
    assert_eq!(
        timestamp_from_millis(8_210_266_876_799_999),
        Some(Timestamp { seconds: MAX_TIMESTAMP_SECONDS, nanos: 999_000_000 })
    );
    assert_eq!(timestamp_from_millis(8_210_266_876_800_000), None);
    assert_eq!(
        timestamp_text(Timestamp { seconds: MIN_TIMESTAMP_SECONDS, nanos: 0 }),
        "-262143-01-01 00:00:00 UTC"
    );
    let first = Timestamp { seconds: MIN_TIMESTAMP_SECONDS + 60, nanos: 0 };
    let cutoff = enrollment_lease_cutoff(Span::from_secs(60), first, &limits()).unwrap();
    assert_eq!(cutoff, Timestamp { seconds: MIN_TIMESTAMP_SECONDS, nanos: 0 });
    assert!(matches!(
        enrollment_lease_cutoff(Span { seconds: 60, nanos: 1 }, first, &limits()),
        Err(ControlPlaneError::Store { reason })
            if reason == "enrollment service staleness is out of range"
    ));
    assert_eq!(
        timestamp_text(Timestamp { seconds: 1_700_000_000, nanos: 0 }),
        "2023-11-14 22:13:20 UTC"
    );
    assert!(timestamp_is_fresh(after(-30), NOW, 30) && timestamp_is_fresh(after(-30), NOW, 31));
    assert!(!timestamp_is_fresh(after(-31), NOW, 30));
    assert!(timestamp_is_fresh(after(1_000), NOW, 30));
    let skew = Span::from_secs(5);
    assert!(timestamp_within_skew(after(5), NOW, skew) && timestamp_not_after_skew(after(5), NOW, skew));
    assert!(timestamp_within_skew(after(-5), NOW, skew));
    assert!(!timestamp_within_skew(after(-6), NOW, skew));
    assert!(timestamp_not_after_skew(after(-6), NOW, skew));
    assert!(!timestamp_not_after_skew(after(6), NOW, skew));
}

#[test]
fn neighbors_bring_no_routes() {
    let mut far = node_record("far");
    far.vpn_ip = ip("100.64.0.3");
    far.routes = vec![route("r", "10.42.1.0/24", "far")];
    let listed = vec![far, node_record("near")];
    let snapshot = overlay_node_snapshot(
        &cluster("cluster-a"),
        &listed,
        OrderedMap::new(),
        &policy(),
        5,
        NOW,
    );
    let ask = |node_id: &str, topology: Result<TopologyNeighbors, String>| {
        neighbor_map_for(
            &cluster("cluster-a"),
            cidr("100.64.0.0/24"),
            &snapshot,
            &policy(),
            &id(node_id),
            &topology,
            &OrderedMap::new(),
            Vec::new(),
            NOW,
        )
    };
    let around = |ids: Option<Vec<NodeId>>| {
        Ok(TopologyNeighbors { topology_epoch: 9, neighbor_ids: ids })
    };
    let map = ask("near", around(Some(vec![id("far"), id("gone")]))).unwrap();
    assert_eq!(map.neighbors.len(), 1);
    assert!(map.neighbors[0].node.routes.is_empty());
    assert_eq!((map.topology_epoch, map.routing_epoch), (9, 5));
    assert!(matches!(
        ask("unknown", around(Some(vec![]))),
        Err(ControlPlaneError::NodeNotFound { .. })
    ));
    assert!(matches!(
        ask("near", around(None)),
        Err(ControlPlaneError::BoundedTopology { reason })
            if reason == "source node near is absent from topology"
    ));
    assert!(matches!(
        ask("near", Err("no topology".to_string())),
        Err(ControlPlaneError::BoundedTopology { reason }) if reason == "no topology"
    ));
    assert!(ensure_routing_epoch(5, 5).is_ok());
    assert!(matches!(
        ensure_routing_epoch(6, 5),
        Err(ControlPlaneError::OverlayRouteCatalogChanged)
    ));
}

#[test]
fn path_ends_are_active() {
    let mut sick = node_record("sick");
    sick.vpn_ip = ip("100.64.0.3");
    let listed = vec![node_record("near"), sick];
    let mut health_by_node = OrderedMap::new();
    health_by_node.insert(id("sick"), health(HealthState::Healthy, after(-91)));
    let snapshot = overlay_node_snapshot(
        &cluster("cluster-a"),
        &listed,
        health_by_node,
        &policy(),
        0,
        NOW,
    );
    assert_eq!(unavailable_nodes(&snapshot), vec!["sick".to_string()]);
    assert!(matches!(
        overlay_path_ends(&snapshot, &policy(), &id("near"), ip("100.64.0.3")),
        Err(ControlPlaneError::OverlayDestinationNotFound { .. })
    ));
    assert!(matches!(
        overlay_path_ends(&snapshot, &policy(), &id("sick"), ip("100.64.0.2")),
        Err(ControlPlaneError::NodeNotFound { .. })
    ));

    let mut well = node_record("well");
    well.vpn_ip = ip("100.64.0.4");
    let listed = vec![node_record("near"), well];
    let snapshot = overlay_node_snapshot(
        &cluster("cluster-a"),
        &listed,
        OrderedMap::new(),
        &policy(),
        0,
        NOW,
    );
    let ends = overlay_path_ends(&snapshot, &policy(), &id("near"), ip("100.64.0.4")).unwrap();
    assert_eq!(text(&ends.target.node_id), "well");
    assert!(matches!(
        overlay_path_for(&snapshot, &policy(), ends, ip("100.64.0.4"), None, NOW),
        Err(ControlPlaneError::OverlayPathUnavailable { .. })
    ));
}

#[test]
fn topology_depends_on_the_members() {
    let key_of = |listed: Vec<NodeRecord>| {
        overlay_node_snapshot(
            &cluster("cluster-a"),
            &listed,
            OrderedMap::new(),
            &policy(),
            0,
            NOW,
        )
        .topology_cache_key
    };
    let a = key_of(vec![node_record("a"), node_record("b")]);
    let mut changed = node_record("a");
    changed.endpoint_candidates = vec![candidate("a")];
    let b = key_of(vec![node_record("b"), changed]);
    assert_eq!(a.membership_epoch, b.membership_epoch);
    assert_eq!(a.node_count, b.node_count);
    let c = key_of(vec![node_record("a"), node_record("c")]);
    assert_ne!(a.membership_epoch, c.membership_epoch);
}

#[test]
fn pin_is_shown_until_its_node_is_forgotten() {
    let mut pins = AdminPathPins::new();
    let paths = vec![path("b", "a"), path("a", "b")];
    let pinned = pins
        .set_admin_path_pin(&id("a"), &id("b"), true, true, &paths, true)
        .unwrap();
    assert!(pinned.pinned);
    let shown = list_paths(&paths, &pins);
    assert_eq!(text(&shown[0].key.local), "a");
    assert_eq!(shown.iter().map(|p| p.pinned).collect::<Vec<_>>(), vec![true, false]);
    assert!(matches!(
        pins.set_admin_path_pin(&id("a"), &id("c"), true, true, &paths, true),
        Err(ControlPlaneError::PathNotFound { .. })
    ));
    assert!(matches!(
        pins.set_admin_path_pin(&id("a"), &id("b"), true, false, &paths, true),
        Err(ControlPlaneError::NodeNotFound { .. })
    ));
    pins.forget_node(&id("b"));
    assert!(list_paths(&paths, &pins).iter().all(|p| !p.pinned));
}

#[test]
fn accepted_policies_tell_rules_and_scopes_apart() {
    let refused = |changed: ClusterPolicy, part: &str| {
        matches!(
            validate_cluster_policy(&changed, &limits()),
            Err(ControlPlaneError::InvalidClusterPolicy { reason }) if reason.contains(part)
        )
    };
    assert!(validate_cluster_policy(&policy(), &limits()).is_ok());
    let same = rule("same", AclAction::Allow);
    assert!(refused(ruled(vec![same.clone(), same]), "same"));
    assert!(refused(ruled(vec![rule("bad id", AclAction::Allow)]), "bad id"));
    assert!(refused(
        ClusterPolicy {
            overlay_route_scopes: vec![cidr("10.42.0.0/16"), cidr("10.0.0.0/8")],
            ..policy()
        },
        "overlaps"
    ));
    assert!(refused(ClusterPolicy { overlay_max_degree: 5, ..policy() }, "4"));
    assert!(refused(ClusterPolicy { overlay_block_size: 3, ..policy() }, "block"));
}

#[test]
fn attempts_are_bounded() {
    let conflict: Result<(), ControlPlaneError> = Err(ControlPlaneError::ClusterPolicyChanged);
    assert_eq!(step_after_attempt(0, &conflict), AttemptStep::Again);
    assert_eq!(step_after_attempt(6, &conflict), AttemptStep::Again);
    assert_eq!(step_after_attempt(7, &conflict), AttemptStep::Failed);
    let refused: Result<(), ControlPlaneError> = Err(ControlPlaneError::JoinDenied);
    assert_eq!(step_after_attempt(0, &refused), AttemptStep::Failed);
    assert_eq!(step_after_attempt(0, &Ok(())), AttemptStep::Done);
    let moved: Result<(), ControlPlaneError> =
        Err(ControlPlaneError::NodeStateChanged { node_id: id("a") });
    assert_eq!(step_after_attempt(0, &moved), AttemptStep::Again);
}

fn bundle(issued_at: Timestamp, expires_at: Timestamp) -> ClientRegistrationBundle {
    ClientRegistrationBundle {
        schema_version: 1,
        issued_at,
        expires_at,
        nonce: "nonce".to_string(),
        registration: RegisterClientRequest {
            client_id: id("client"),
            identity_public_key: "identity-client".to_string(),
            wireguard_public_key: "wg-client".to_string(),
        },
    }
}

#[test]
fn sponsored_claims_are_control_only() {
    let claims = claims_for_sponsored_client(
        &cluster("cluster-a"),
        &id("sponsor"),
        &bundle(NOW, after(900)),
    );
    assert!(client_claims_are_control_only(&claims));
    assert!(claims.role.is_client());
    assert_eq!(claims.policy.max_token_uses, Some(1));
    assert_eq!(text(&claims.issuer), "sponsor");
    assert_eq!(claims.key_id.as_str(), "ssh-client-registration");
}

#[test]
fn client_bundles_are_checked_in_turn() {
    let check = |bundle: &ClientRegistrationBundle, nonce: Option<&str>, proof: Option<&str>| {
        match validate_client_registration_bundle(
            bundle,
            NOW,
            Span::from_secs(300),
            &limits(),
            &nonce.map(str::to_string),
            &proof.map(str::to_string),
        ) {
            Ok(()) => "".to_string(),
            Err(error) => error.to_text(),
        }
    };
    assert_eq!(check(&bundle(NOW, after(900)), None, None), "");
    let old_schema = ClientRegistrationBundle { schema_version: 2, ..bundle(NOW, after(900)) };
    assert!(check(&old_schema, None, None).contains("schema version 2"));
    assert!(check(&bundle(NOW, after(901)), None, None).contains("between 1 and 900 seconds"));
    assert!(check(&bundle(NOW, NOW), None, None).contains("between 1 and 900 seconds"));
    assert!(check(&bundle(after(-20), after(-10)), None, None).contains("has expired"));
    assert!(check(&bundle(after(301), after(400)), None, None).contains("issued in the future"));
    assert!(check(&bundle(NOW, after(900)), Some("short"), None).contains("nonce is invalid: short"));
    assert!(check(&bundle(NOW, after(900)), None, Some("forged")).contains("proof is invalid: forged"));

    let sponsor = node_record("sponsor");
    let check = |signed: bool, sponsor: Option<&NodeRecord>, fault: Option<&str>| {
        validate_client_sponsor(&id("sponsor"), signed, sponsor, &fault.map(str::to_string))
    };
    assert!(check(true, Some(&sponsor), None).is_ok());
    assert!(matches!(
        check(false, Some(&sponsor), None),
        Err(ControlPlaneError::NodeSignatureRequired { .. })
    ));
    assert!(matches!(check(true, None, None), Err(ControlPlaneError::NodeNotFound { .. })));
    assert!(matches!(
        check(true, Some(&client_node("sponsor")), None),
        Err(ControlPlaneError::NodeSignatureRejected { .. })
    ));
    assert!(matches!(
        check(true, Some(&sponsor), Some("forged")),
        Err(ControlPlaneError::NodeSignatureRejected { reason, .. }) if reason == "forged"
    ));
}

#[test]
fn roles_are_let_in_by_name() {
    for (name, as_node, at_all) in [
        ("edge", true, true),
        ("gateway", true, true),
        ("client", false, true),
        ("control-plane", false, false),
    ] {
        assert_eq!(node_enrollment_role_is_allowed(&role(name)), as_node, "{name}");
        assert_eq!(enrollment_role_is_allowed(&role(name)), at_all, "{name}");
    }
}

#[test]
fn destination_is_another_node_and_longest_prefix_is_used() {
    let mut source = node_record("source");
    source.routes = vec![route("own", "10.42.1.0/24", "source")];
    let mut broad = node_record("broad");
    broad.vpn_ip = ip("100.64.0.3");
    broad.routes = vec![Route { metric: 1, ..route("broad", "10.0.0.0/8", "broad") }];
    let mut narrow = node_record("narrow");
    narrow.vpn_ip = ip("100.64.0.4");
    narrow.routes = vec![route("narrow", "10.42.0.0/16", "narrow")];
    let nodes = vec![source.clone(), broad, narrow];
    let index = OverlayRouteIndex::build(&nodes);
    let find = |address: &str, policy: &ClusterPolicy| {
        index
            .resolve_destination(&source, &nodes, ip(address), policy)
            .map(|node| (text(&node.node_id).to_string(), node.routes.len()))
    };
    assert_eq!(find("10.42.1.1", &policy()), Some(("narrow".to_string(), 1)));
    assert_eq!(find("10.42.2.1", &policy()), Some(("narrow".to_string(), 1)));
    assert_eq!(find("10.9.9.9", &policy()), Some(("broad".to_string(), 1)));
    assert_eq!(find("100.64.0.2", &policy()), None);
    let rules = ruled(vec![to_routes("allow", "10.9.0.0/16", AclAction::Allow)]);
    let found = index.resolve_destination(&source, &nodes, ip("10.9.9.9"), &rules).unwrap();
    assert_eq!(found.routes[0].cidr, cidr("10.9.9.9/32"));
    assert_eq!(find("10.8.8.8", &rules), None);

    let owner = |name: &str, routes: Vec<Route>| {
        let mut node = node_record(name);
        node.vpn_ip = ip("100.64.0.9");
        node.routes = routes;
        node
    };
    let nodes = vec![
        source.clone(),
        owner("b", vec![route("a", "10.50.0.0/16", "b")]),
        owner("a", vec![route("z", "10.50.0.0/16", "a"), route("y", "10.50.0.0/16", "a")]),
        owner("c", vec![Route { metric: 101, ..route("0", "10.50.0.0/16", "c") }]),
    ];
    let index = OverlayRouteIndex::build(&nodes);
    let found = index.resolve_destination(&source, &nodes, ip("10.50.0.1"), &policy()).unwrap();
    assert_eq!((text(&found.node_id), found.routes[0].id.as_str()), ("a", "y"));
}

#[test]
fn table_has_one_route_per_network() {
    let mut table = build_table(&vec![
        route("a", "10.42.0.0/16", "x"),
        route("b", "10.42.0.0/16", "y"),
        route("c", "10.43.0.0/16", "z"),
    ]);
    assert_eq!(table.len(), 2);
    insert_route(&mut table, route("d", "10.42.0.0/16", "w"));
    insert_preferred_gateway_route(
        &mut table,
        Route { metric: 1, ..route("e", "10.43.0.0/16", "v") },
    );
    assert_eq!(table.len(), 2);
    assert!(table.iter().any(|route| route.id == "d"));
    assert!(table.iter().any(|route| route.id == "e"));
}

#[test]
fn routes_are_checked_by_shape() {
    assert!(validate_advertised_route_id("route-a.b_c:1").is_ok());
    assert!(validate_advertised_route_id("").is_err());
    assert!(validate_advertised_route_id("a b").is_err());
    assert!(validate_advertised_route_id(&"x".repeat(129)).is_err());
    for (network, reason) in [
        ("0.0.0.0/0", Some("unrestricted")),
        ("127.0.0.0/8", Some("loopback")),
        ("169.254.1.0/24", Some("link-local")),
        ("224.0.0.0/4", Some("multicast")),
        ("::1/128", Some("loopback")),
        ("fe80::/10", Some("link-local")),
        ("ff00::/8", Some("multicast")),
        ("10.0.0.0/8", None),
        ("fd00::/8", None),
    ] {
        assert_eq!(restricted_advertised_route_cidr_reason(&cidr(network)), reason, "{network}");
    }
    let mut permitted = token_policy();
    permitted.allowed_routes = vec![cidr("10.42.0.0/16")];
    assert!(route_allowed_by_policy(&route("a", "10.42.1.0/24", "n"), &permitted));
    assert!(!route_allowed_by_policy(&route("a", "10.0.0.0/8", "n"), &permitted));
}

fn update_of(node: &NodeRecord, signed_at: Option<Timestamp>) -> HeartbeatStoreUpdate {
    HeartbeatStoreUpdate {
        cluster_id: node.cluster_id.clone(),
        expected_cluster_policy: None,
        expected_route_catalog_epoch: None,
        node_id: node.node_id.clone(),
        expected_identity_public_key: node.identity_public_key.clone(),
        expected_registered_at: node.registered_at,
        accepted_signature_at: signed_at,
        hostname: Some("host".to_string()),
        candidates: vec![candidate(text(&node.node_id))],
        nat_classification: None,
        relay_capability: None,
        routes: None,
        health: health(HealthState::Healthy, NOW),
        paths: vec![path(text(&node.node_id), "other")],
    }
}

#[test]
fn heartbeat_changes_its_own_node_only() {
    let mut store = InMemoryStore::new();
    let node = node_record("node-a");
    let other = node_record("other");
    store.insert_node(node.clone()).unwrap();
    store.insert_node(other.clone()).unwrap();
    store.upsert_path(path("other", "node-a"));
    let epoch = store.get_overlay_routing_epoch(&cluster("cluster-a"));
    store.apply_heartbeat(update_of(&node, Some(NOW))).unwrap();

    let stored = store.get_node(&node.node_id).unwrap();
    assert_eq!(stored.identity_public_key, node.identity_public_key);
    assert_eq!(stored.vpn_ip, node.vpn_ip);
    assert_eq!(stored.token_policy, node.token_policy);
    assert_eq!(stored.hostname.as_deref(), Some("host"));
    assert_eq!(store.get_node(&other.node_id), Some(other));
    assert_eq!(store.list_paths_for(&id("other")).len(), 2);
    assert_eq!(store.get_overlay_routing_epoch(&cluster("cluster-a")), epoch);

    let mut routed = update_of(&stored, Some(after(1)));
    routed.routes = Some(vec![route("r", "10.42.0.0/16", "node-a")]);
    store.apply_heartbeat(routed).unwrap();
    assert_eq!(store.get_overlay_routing_epoch(&cluster("cluster-a")), epoch + 1);
    assert_eq!(store.get_overlay_routing_epoch(&cluster("cluster-b")), 0);
}

#[test]
fn signature_only_moves_on() {
    let mut store = InMemoryStore::new();
    let node = node_record("node-a");
    store.insert_node(node.clone()).unwrap();
    store.apply_heartbeat(update_of(&node, Some(NOW))).unwrap();
    for earlier in [NOW, after(-1)] {
        assert!(matches!(
            store.apply_heartbeat(update_of(&node, Some(earlier))),
            Err(ControlPlaneError::NodeSignatureRejected { .. })
        ));
        assert_eq!(store.get_heartbeat_signature_timestamp(&node.node_id), Some(NOW));
    }
    store.apply_heartbeat(update_of(&node, Some(after(1)))).unwrap();
    assert_eq!(store.get_heartbeat_signature_timestamp(&node.node_id), Some(after(1)));
}

#[test]
fn removal_leaves_no_trace_and_spares_the_others() {
    let mut store = InMemoryStore::new();
    let node = node_record("node-a");
    store.insert_node(node.clone()).unwrap();
    store.insert_node(node_record("other")).unwrap();
    store.apply_heartbeat(update_of(&node, Some(NOW))).unwrap();
    store.upsert_nat_classification(id("node-a"), classification(0, 90, NOW));
    store.upsert_path(path("other", "third"));
    store.upsert_health(id("other"), health(HealthState::Healthy, NOW));
    let removed = store.remove_node(&id("node-a")).unwrap();
    assert_eq!(removed.removed_path_count, 1);
    assert!(removed.removed_health);
    assert_eq!(store.get_node(&id("node-a")), None);
    assert_eq!(store.get_health(&id("node-a")), None);
    assert_eq!(store.get_heartbeat_signature_timestamp(&id("node-a")), None);
    assert_eq!(store.get_nat_classification(&id("node-a")), None);
    assert!(store.list_paths_for(&id("node-a")).is_empty());
    assert!(store.get_node(&id("other")).is_some());
    assert!(store.get_health(&id("other")).is_some());
    assert_eq!(store.list_all_paths().len(), 1);
    assert!(matches!(
        store.remove_node(&id("node-a")),
        Err(ControlPlaneError::NodeNotFound { .. })
    ));
}

#[test]
fn stale_expectations_are_refused() {
    let mut store = InMemoryStore::new();
    store.upsert_cluster_policy(&cluster("cluster-a"), policy()).unwrap();
    let outdated = ClusterPolicy { idle_timeout_seconds: 1, ..policy() };
    assert!(matches!(
        store.insert_node_if_cluster_policy(node_record("node-a"), Some(outdated.clone()), None),
        Err(ControlPlaneError::ClusterPolicyChanged)
    ));
    assert!(matches!(
        store.insert_node_if_cluster_policy(node_record("node-a"), Some(policy()), Some(1)),
        Err(ControlPlaneError::OverlayRouteCatalogChanged)
    ));
    store.insert_node_if_cluster_policy(node_record("node-a"), Some(policy()), None).unwrap();
    assert!(matches!(
        store.insert_node(node_record("node-a")),
        Err(ControlPlaneError::NodeAlreadyExists { .. })
    ));
    let mut update = update_of(&node_record("node-a"), Some(NOW));
    update.expected_cluster_policy = Some(outdated);
    assert!(matches!(
        store.apply_heartbeat(update),
        Err(ControlPlaneError::ClusterPolicyChanged)
    ));
    let mut moved = node_record("node-a");
    moved.hostname = Some("elsewhere".to_string());
    assert!(matches!(
        store.rejoin_node_if_cluster_policy(RejoinNodeStoreUpdate {
            cluster_id: cluster("cluster-a"),
            expected_cluster_policy: Some(policy()),
            expected_route_catalog_epoch: None,
            expected_node: moved,
            candidates: Vec::new(),
            relay_capability: None,
            routes: Vec::new(),
        }),
        Err(ControlPlaneError::NodeStateChanged { .. })
    ));
    assert!(ensure_same_participant(
        Some(&tagged("node-a", &["edge"])),
        &claims("n"),
        &RegisterNodeRequest {
            node_id: id("node-a"),
            identity_public_key: "identity-node-a".to_string(),
            wireguard_public_key: "wg-node-a".to_string(),
            candidates: Vec::new(),
            nat_classification: None,
            relay_capability: None,
            requested_routes: Vec::new(),
        },
    )
    .is_ok());
}

#[test]
fn admissions_are_counted_and_bounded() {
    let mut admission = TokenAdmission::new(InMemoryTokenLedger::new());
    let mut twice = claims("twice");
    twice.policy.max_token_uses = Some(2);
    assert!(matches!(
        admission.validate_issued_token(&twice, NOW),
        Err(ControlPlaneError::TokenNotFound { .. })
    ));
    assert_eq!(admission.admit_join(&twice, NOW).unwrap().uses, 1);
    assert_eq!(admission.issue_from_claims(&twice, after(1)).unwrap().uses, 1);
    assert_eq!(admission.admit_join(&twice, NOW).unwrap().uses, 2);
    assert!(matches!(
        admission.admit_join(&twice, NOW),
        Err(ControlPlaneError::TokenRejected { status: TokenStatus::Exhausted, .. })
    ));
    assert!(matches!(
        admission.admit_join(&claims("late"), after(300)),
        Err(ControlPlaneError::TokenRejected { status: TokenStatus::Expired, .. })
    ));

    let mut other = twice.clone();
    other.tags = NameSet::new();
    assert!(matches!(
        admission.issue_from_claims(&other, NOW),
        Err(ControlPlaneError::TokenVerification { .. })
    ));
    assert!(admission.validate_issued_token(&twice, NOW).is_err());
}

#[test]
fn revoked_token_stays_revoked() {
    let mut admission = TokenAdmission::new(InMemoryTokenLedger::new());
    let token = claims("token");
    let revocation = |revoked_at: Timestamp| TokenRevocationRecord {
        cluster_id: token.cluster_id.clone(),
        nonce: token.nonce.clone(),
        issuer: token.issuer.clone(),
        key_id: token.key_id.clone(),
        revoked_at,
    };
    assert!(admission.revoke_token(revocation(NOW)).record.is_none());
    let metrics = admission.token_metrics(&token.cluster_id, NOW);
    assert_eq!(metrics.revocation_tombstones, 1);
    let issued = admission.issue_from_claims(&token, NOW).unwrap();
    assert_eq!(issued.status(NOW), TokenStatus::Revoked);
    assert_eq!(admission.revoke_token(revocation(after(5))).revocation.revoked_at, NOW);
    assert!(matches!(
        admission.admit_join(&token, NOW),
        Err(ControlPlaneError::TokenRejected { status: TokenStatus::Revoked, .. })
    ));
    let metrics = admission.token_metrics(&token.cluster_id, NOW);
    assert_eq!((metrics.active, metrics.revoked, metrics.revocation_tombstones), (0, 1, 0));
}

#[test]
fn faulty_answers_are_withheld() {
    assert_eq!(checked_answer(7, None).ok(), Some(7));
    assert!(matches!(
        checked_answer(7, Some("too many neighbors".to_string())),
        Err(ControlPlaneError::BoundedTopology { reason }) if reason == "too many neighbors"
    ));
}

fn small_topology() -> Topology {
    let group = |name: &str, depth: usize, parent: Option<&str>, nodes: &[&str]| TopologyGroup {
        group_id: name.to_string(),
        depth,
        parent_group_id: parent.map(str::to_string),
        child_group_ids: Vec::new(),
        node_ids: nodes.iter().map(|node| id(node)).collect(),
        leaf: depth == 1,
        representatives: nodes
            .iter()
            .enumerate()
            .map(|(plane, node)| GroupRepresentative { node_id: id(node), plane })
            .collect(),
    };
    let mut degrees = OrderedMap::new();
    degrees.insert(id("a"), 1_usize);
    degrees.insert(id("b"), 1_usize);
    Topology {
        topology_epoch: 77,
        algorithm: "ring".to_string(),
        groups: vec![group("root", 0, None, &["a"]), group("leaf", 1, Some("root"), &["a", "b"])],
        edges: vec![PlacedEdge {
            first: id("a"),
            second: id("b"),
            placements: vec![EdgePlacement {
                group_id: "leaf".to_string(),
                level: 1,
                plane: 0,
                kind: TopologyEdgeKind::HierarchyLink,
            }],
        }],
        degrees,
        node_count: 2,
        edge_count: 1,
        max_observed_degree: 1,
        diameter_lower_bound: 1,
    }
}

#[test]
fn topology_is_shown_with_its_lines_and_edges() {
    let topology = small_topology();
    assert!(groups_are_rooted(&topology.groups));
    let pairs = observed_path_pairs(&topology.edges);
    assert!(pairs.iter().any(|(x, y)| text(x) == "a" && text(y) == "b"));
    assert!(pairs.iter().any(|(x, y)| text(x) == "b" && text(y) == "a"));
    let mut health_by_node = OrderedMap::new();
    health_by_node.insert(id("b"), health(HealthState::Healthy, after(-91)));
    let shown = overlay_topology_snapshot(
        &cluster("cluster-a"),
        &topology,
        &vec![node_record("b"), node_record("a")],
        &health_by_node,
        &vec![path("a", "b"), path("b", "a")],
        &policy(),
        NOW,
    )
    .unwrap();
    assert_eq!(shown.topology_epoch, "77");
    assert_eq!(shown.root_group_id.as_deref(), Some("root"));
    assert_eq!((shown.group_count, shown.level_count, shown.node_count), (2, 2, 2));
    assert_eq!(shown.direct_shortcut_limit, 0);
    assert_eq!(text(&shown.nodes[0].node_id), "a");
    assert_eq!(shown.nodes[0].ancestry, vec!["root".to_string(), "leaf".to_string()]);
    assert_eq!(shown.nodes[0].representative_for.len(), 2);
    assert_eq!(shown.nodes[0].representative_for[0].group_id, "root");
    assert_eq!(shown.nodes[1].health_state, Some(HealthState::Unhealthy));
    assert_eq!(shown.groups[1].representatives[1].role, "secondary");
    assert_eq!(shown.edges[0].observed_status, ControlPlaneTopologyEdgeStatus::Connected);
    assert_eq!(
        shown.edges[0].placements[0].kind,
        ControlPlaneTopologyEdgeKind::SiblingCycle
    );
    assert!(matches!(
        overlay_topology_snapshot(
            &cluster("cluster-a"),
            &topology,
            &vec![node_record("stranger")],
            &OrderedMap::new(),
            &Vec::new(),
            &policy(),
            NOW,
        ),
        Err(ControlPlaneError::BoundedTopology { reason })
            if reason == "node stranger has no topology leaf group"
    ));
    let mut unrooted = small_topology();
    unrooted.groups[0].parent_group_id = Some("leaf".to_string());
    assert!(!groups_are_rooted(&unrooted.groups));
}

#[test]
fn connected_edges_are_reported_from_both_ends() {
    let twice = vec![path("a", "b"), path("a", "b")];
    assert_eq!(
        topology_edge_observation(&twice, NOW, 30).0,
        ControlPlaneTopologyEdgeStatus::Partial
    );
}

#[test]
fn allocations_differ_and_end() {
    let pool = cidr("100.64.0.0/29");
    assert_eq!(vpn_pool_usable_host_count(&pool), 6);
    assert!(vpn_pool_contains_usable_host(&pool, u32::from_be_bytes([100, 64, 0, 6])));
    assert!(!vpn_pool_contains_usable_host(&pool, u32::from_be_bytes([100, 64, 0, 7])));
    let mut allocator = VpnAllocator::new(pool);
    let reserved = assigned_ipv4_vpn_ips(&vec![node_record("taken")]);
    let mut given = Vec::new();
    while let Ok(address) = allocator.allocate_next(&reserved) {
        given.push(address.to_text());
    }
    assert_eq!(given, vec!["100.64.0.1", "100.64.0.3", "100.64.0.4", "100.64.0.5", "100.64.0.6"]);
    assert!(matches!(
        allocator.allocate_next(&reserved),
        Err(ControlPlaneError::VpnPoolExhausted)
    ));
}

#[test]
fn identifiers_of_services_are_plain() {
    assert!(valid_service_instance_identifier("agent-services-node_1.a"));
    assert!(!valid_service_instance_identifier("agent:services"));
    assert!(!valid_service_instance_identifier(""));
    assert!(!valid_service_instance_identifier("with space"));
    let mut reported = path("a", "b");
    reported.score.value = float(f32::NAN);
    assert!(validate_path_score_shape(&reported, 16).is_err());
    reported.score.value = float(0.25);
    assert!(validate_path_score_shape(&reported, 16).is_ok());
}

#[test]
fn errors_say_what_is_wrong() {
    let node_id = || id("n");
    let reason = || "r".to_string();
    let cases = vec![
        (ControlPlaneError::JoinDenied, "join token does not allow node registration"),
        (ControlPlaneError::NodeAlreadyExists { node_id: node_id() }, "node n already exists"),
        (
            ControlPlaneError::VpnIpAlreadyAllocated { vpn_ip: ip("100.64.0.1") },
            "VPN IP 100.64.0.1 is already allocated",
        ),
        (
            ControlPlaneError::NodeSignatureRequired { node_id: node_id() },
            "node n request signature is required",
        ),
        (
            ControlPlaneError::NodeSignatureRejected { node_id: node_id(), reason: reason() },
            "node n request signature rejected: r",
        ),
        (
            ControlPlaneError::NodeRequestReplay { node_id: node_id() },
            "node n request nonce was already accepted",
        ),
        (
            ControlPlaneError::NodeRequestAuthenticationCapacity,
            "control-plane node request replay cache is full",
        ),
        (
            ControlPlaneError::NodeUpdateRejected { node_id: node_id(), reason: reason() },
            "node n heartbeat update rejected: r",
        ),
        (
            ControlPlaneError::NodeRegistrationRejected { node_id: node_id(), reason: reason() },
            "node n registration rejected: r",
        ),
        (ControlPlaneError::NodeNotFound { node_id: node_id() }, "node not found: n"),
        (
            ControlPlaneError::PathNotFound { local: node_id(), remote: id("m") },
            "path not found: n -> m",
        ),
        (
            ControlPlaneError::OverlayDestinationNotFound { destination: ip("10.0.0.1") },
            "overlay destination not found or denied: 10.0.0.1",
        ),
        (
            ControlPlaneError::OverlayPathUnavailable {
                source_node: node_id(),
                destination_node: id("m"),
            },
            "overlay path is unavailable: n -> m",
        ),
        (
            ControlPlaneError::BoundedTopology { reason: reason() },
            "bounded overlay topology failed: r",
        ),
        (ControlPlaneError::InvalidClusterPolicy { reason: reason() }, "cluster policy rejected: r"),
        (
            ControlPlaneError::ClusterPolicyChanged,
            "cluster policy changed while validating a route update",
        ),
        (
            ControlPlaneError::OverlayRouteCatalogChanged,
            "overlay route catalog changed while validating a route update",
        ),
        (
            ControlPlaneError::NodeStateChanged { node_id: node_id() },
            "node n changed while applying a registration update",
        ),
        (
            ControlPlaneError::KeycloakCandidateGenerationConflict {
                node_id: node_id(),
                generation: -3,
            },
            "Keycloak candidate n generation -3 is stale",
        ),
        (ControlPlaneError::VpnPoolExhausted, "no available VPN IP in pool"),
        (
            ControlPlaneError::RouteDenied { route_id: reason() },
            "route r is not permitted by token policy",
        ),
        (
            ControlPlaneError::RelayDenied,
            "relay capability is not permitted by token policy",
        ),
        (ControlPlaneError::TokenNotFound { nonce: reason() }, "token not found: r"),
        (
            ControlPlaneError::IssuerKeyNotFound {
                issuer: node_id(),
                key_id: KeyId::from_string("k".to_string()),
            },
            "issuer key not found for issuer n key k",
        ),
        (
            ControlPlaneError::TokenVerification { reason: reason() },
            "token verification failed: r",
        ),
        (ControlPlaneError::Store { reason: reason() }, "store error: r"),
    ];
    for (error, expected) in cases {
        assert_eq!(error.to_text(), expected);
    }
    let rejected =
        ControlPlaneError::TokenRejected { nonce: reason(), status: TokenStatus::Revoked };
    assert!(rejected.to_text().starts_with("token r rejected with status "));
}
