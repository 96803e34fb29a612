#![allow(dead_code, unused_imports)]

use ipars_control_plane::config::{ControlPlaneConfig, ProtocolLimits};
use ipars_control_plane::error::{ControlPlaneError, TokenStatus};
use ipars_control_plane::float::Float32;
use ipars_control_plane::ids::{ClusterId, KeyId, NameSet, NodeId, Role};
use ipars_control_plane::map::OrderedMap;
use ipars_control_plane::net::{Cidr, IpAddr, SocketAddr};
use ipars_control_plane::time::{Span, Timestamp};
use ipars_control_plane::types::{
    AclAction, AclRule, BootstrapEndpoint, BootstrapEndpointKind, CandidateSource, ClusterPolicy,
    Endpoint, EndpointCandidate, EndpointCandidateKind, HealthState, HeartbeatRequest,
    HeartbeatStoreUpdate, JoinTokenClaims, KeycloakCandidateLease, NatClassification,
    NatProbeObservation, NodeHealth, NodeRecord, NodeServiceAdvertisement, PathRecord, PathScore,
    PathState, PeerPathKey, RegisterNodeRequest, RejoinNodeStoreUpdate, RelayCapability, Route,
    ServiceInstance, TokenPolicy, TokenRevocationRecord, TransportProtocol,
};

const NOW: Timestamp = Timestamp { seconds: 1_750_000_000, nanos: 0 };
const PREFIX: &str = "lazy-connect-local-activity-ms=";

fn after(seconds: i64) -> Timestamp {
    Timestamp { seconds: NOW.seconds + seconds, nanos: NOW.nanos }
}

fn id(name: &str) -> NodeId {
    NodeId::from_string(name.to_string())
}

fn cluster(name: &str) -> ClusterId {
    ClusterId::from_string(name.to_string())
}

fn role(name: &str) -> Role {
    Role::from_string(name.to_string())
}

fn names(list: &[&str]) -> NameSet {
    let mut set = NameSet::new();
    for name in list {
        set.insert(name.to_string());
    }
    set
}

fn cidr(text: &str) -> Cidr {
    match text.parse::<ipnet::IpNet>() {
        Ok(ipnet::IpNet::V4(net)) => Cidr::V4 { addr: u32::from(net.addr()), prefix: net.prefix_len() },
        Ok(ipnet::IpNet::V6(net)) => Cidr::V6 { addr: u128::from(net.addr()), prefix: net.prefix_len() },
        Err(_) => panic!("not a network: {text}"),
    }
}

fn ip(text: &str) -> IpAddr {
    let bits = if text.contains(':') { 128 } else { 32 };
    match cidr(&format!("{text}/{bits}")) {
        Cidr::V4 { addr, .. } => IpAddr::V4(addr),
        Cidr::V6 { addr, .. } => IpAddr::V6(addr),
    }
}

fn public(text: &str, port: u16) -> Endpoint {
    Endpoint { addr: SocketAddr { ip: ip(text), port }, usable: true, globally_routable: true }
}

fn private(text: &str, port: u16) -> Endpoint {
    Endpoint { addr: SocketAddr { ip: ip(text), port }, usable: true, globally_routable: false }
}

fn float(value: f32) -> Float32 {
    Float32 { bits: value.to_bits() }
}

fn limits() -> ProtocolLimits {
    ProtocolLimits {
        lazy_connect_prefix: PREFIX.to_string(),
        max_path_score_reasons: 16,
        min_overlay_block_size: 4,
        max_overlay_block_size: 64,
        supported_max_degrees: vec![4, 6, 8],
        max_overlay_degree: 64,
        core_service_kinds: vec![
            BootstrapEndpointKind::ControlPlane,
            BootstrapEndpointKind::Signal,
            BootstrapEndpointKind::Stun,
        ],
        max_bootstrap_endpoints: 64,
        max_bootstrap_endpoints_per_kind: 16,
        max_join_token_ttl_seconds: 86_400,
        join_token_not_before_skew_seconds: 30,
        client_registration_schema_version: 1,
        max_client_registration_validity_seconds: 900,
    }
}

fn policy() -> ClusterPolicy {
    ClusterPolicy {
        acl_rules: Vec::new(),
        overlay_route_scopes: Vec::new(),
        overlay_block_size: 8,
        overlay_max_degree: 6,
        overlay_direct_shortcut_limit: 0,
        overlay_on_demand_peer_limit: 16,
        idle_timeout_seconds: 300,
        relay_health_ttl_seconds: 90,
        endpoint_candidate_ttl_seconds: 30,
        path_state_ttl_seconds: 30,
        path_quality_observation_ttl_seconds: 30,
        nat_classification_ttl_seconds: 300,
        nat_classification_min_confidence_percent: 50,
        allow_ipv6_direct: true,
    }
}

fn token_policy() -> TokenPolicy {
    TokenPolicy {
        allow_join: true,
        allow_relay: false,
        allowed_routes: Vec::new(),
        allowed_tags: NameSet::new(),
        max_token_uses: Some(1),
    }
}

fn node_record(name: &str) -> NodeRecord {
    NodeRecord {
        node_id: id(name),
        hostname: None,
        cluster_id: cluster("cluster-a"),
        vpn_ip: ip("100.64.0.2"),
        identity_public_key: format!("identity-{name}"),
        wireguard_public_key: format!("wg-{name}"),
        role: role("edge"),
        tags: NameSet::new(),
        endpoint_candidates: Vec::new(),
        relay_capability: None,
        token_policy: token_policy(),
        routes: Vec::new(),
        registered_at: NOW,
    }
}

fn route(route_id: &str, network: &str, advertised_by: &str) -> Route {
    Route {
        id: route_id.to_string(),
        cidr: cidr(network),
        advertised_by: id(advertised_by),
        via: None,
        metric: 100,
        tags: NameSet::new(),
    }
}

fn rule(rule_id: &str, action: AclAction) -> AclRule {
    AclRule {
        id: rule_id.to_string(),
        from_roles: NameSet::new(),
        from_tags: NameSet::new(),
        to_roles: NameSet::new(),
        to_tags: NameSet::new(),
        routes: Vec::new(),
        protocol: TransportProtocol::Any,
        action,
    }
}

fn candidate(name: &str) -> EndpointCandidate {
    EndpointCandidate {
        node_id: id(name),
        kind: EndpointCandidateKind::StunReflexive,
        endpoint: private("203.0.113.10", 51820),
        kind_fault: None,
        observed_at: NOW,
        priority: 100,
        cost: 10,
        source: CandidateSource::StunProbe,
    }
}

fn stale_candidate(name: &str) -> EndpointCandidate {
    EndpointCandidate { observed_at: after(-60), ..candidate(name) }
}

fn health(state: HealthState, last_seen_at: Timestamp) -> NodeHealth {
    NodeHealth { state, last_seen_at, latency_ms: Some(float(1.0)), relay_load: None, message: None }
}

fn path(local: &str, remote: &str) -> PathRecord {
    PathRecord {
        key: PeerPathKey { local: id(local), remote: id(remote) },
        selected_state: PathState::DirectNatTraversal,
        selected_candidate: None,
        selected_kind_allowed: true,
        relay_node: None,
        score: PathScore { value: float(0.5), reasons: Vec::new() },
        updated_at: NOW,
        pinned: false,
    }
}

fn relay_path(local: &str, remote: &str, relay: Option<&str>) -> PathRecord {
    PathRecord {
        selected_state: PathState::Relay,
        relay_node: relay.map(id),
        ..path(local, remote)
    }
}

fn relay_capability() -> RelayCapability {
    RelayCapability {
        enabled_by_policy: false,
        public_endpoint: Some(private("203.0.113.10", 51820)),
        admission_url: Some("http://203.0.113.10:9580".to_string()),
        admission_url_usable: true,
        max_sessions: 100,
        active_sessions: 0,
        max_mbps: 1000,
        e2e_only: true,
        ready_to_relay: true,
    }
}

fn text(node_id: &NodeId) -> &str {
    node_id.as_str()
}

use ipars_control_plane::auth::{ClientRequestKind, RequestSignature, RotateWireGuardKeyRequest};
use ipars_control_plane::control_plane::ControlPlane;
use ipars_control_plane::directory::{
    bootstrap_endpoints_include_core_services, ServiceDirectory,
};
use ipars_control_plane::enrollment::RegisterNodeResponse;
use ipars_control_plane::heartbeat::{MAX_HEARTBEAT_PATH_STATES, MAX_PATH_SCORE_REASON_BYTES};
use ipars_control_plane::intake::{HeartbeatFindings, HeartbeatResponse};
use ipars_control_plane::intents::{
    has_to_wait, step_after_look, PeerConnectionIntent, WaitStep,
};
use ipars_control_plane::join::{ControlPlaneJoinService, TokenFindings};
use ipars_control_plane::keycloak::{KeycloakCandidacy, KeycloakPlacement};
use ipars_control_plane::membership::{
    ClientControlRequest, RemoveNodeRequest, RemoveNodeResponse, RotateWireGuardKeyResponse,
    RotationFindings,
};
use ipars_control_plane::metrics::ControlPlaneMetricsResponse;
use ipars_control_plane::overlay::{
    overlay_node_snapshot, overlay_path_ends, overlay_path_for, snapshot_is_current,
    topologies_to_keep, CachedTopology, NeighborMap, OverlayNodeSnapshot, OverlayPath,
    OverlayTopologyCacheKey, TopologyNeighbors, TopologyPaths,
    MAX_OVERLAY_TOPOLOGY_CACHE_ENTRIES,
};
use ipars_control_plane::paths::{
    validate_heartbeat_path_peers_visible, validate_heartbeat_path_relay_eligibility,
};
use ipars_control_plane::peer_maps::{ControlPlanePathsResponse, PeerMap, RelayMap};
use ipars_control_plane::registration::{
    ClientRegistrationBundle, KeyFindings, RegisterClientRequest,
};
use ipars_control_plane::routes::{
    overlay_route_catalog_epoch, AggregateOverlayRoute, MAX_OVERLAY_NODE_ROUTES,
    MAX_OVERLAY_ROUTE_SCOPES,
};
use ipars_control_plane::service::{
    heartbeat_service_instance_id, MAX_ACTIVE_SERVICE_INSTANCES,
};
use ipars_control_plane::sponsorship::{
    SponsoredClientRegistrationRequest, SponsorshipFindings,
};
use ipars_control_plane::store::InMemoryStore;
use ipars_control_plane::token::{
    InMemoryTokenLedger, IssuerKeyRing, RevokeTokenRequest, TokenAdmission,
};
use ipars_control_plane::topology::{
    ControlPlaneTopologyEdgeStatus, EdgePlacement, PlacedEdge, Topology, TopologyEdgeKind,
    TopologyGroup,
};
use ipars_control_plane::vpn::assigned_ipv4_vpn_ips;

type Outcome<T> = Result<T, ControlPlaneError>;

/// A control plane at one moment.
struct Plane {
    plane: ControlPlane,
    now: Timestamp,
}

impl std::ops::Deref for Plane {
    type Target = ControlPlane;

    fn deref(&self) -> &ControlPlane {
        &self.plane
    }
}

impl std::ops::DerefMut for Plane {
    fn deref_mut(&mut self) -> &mut ControlPlane {
        &mut self.plane
    }
}

struct Registered {
    node: NodeRecord,
    peer_map: PeerMap,
    relay_map: RelayMap,
}

fn no_findings() -> HeartbeatFindings {
    HeartbeatFindings { signature_fault: None, endpoints_fault: None, hostname_valid: true }
}

fn key_findings(identity_key: &str, wireguard_key: &str) -> KeyFindings {
    KeyFindings {
        derived_node_id: match identity_key.strip_prefix("identity-") {
            Some(name) => Ok(id(name)),
            None => Err("not a public key".to_string()),
        },
        wireguard_key_fault: if wireguard_key.starts_with("wg-") {
            None
        } else {
            Some("not a public key".to_string())
        },
    }
}

impl Plane {
    fn new(cluster_id: &str, pool: &str) -> Plane {
        Plane::with_policy(cluster_id, pool, policy())
    }

    fn with_policy(cluster_id: &str, pool: &str, cluster_policy: ClusterPolicy) -> Plane {
        let config = ControlPlaneConfig::new(cluster(cluster_id), cidr(pool), cluster_policy);
        Plane { plane: ControlPlane::new(config, limits(), InMemoryStore::new()), now: NOW }
    }

    fn current_policy(&mut self) -> Outcome<ClusterPolicy> {
        self.plane.current_cluster_policy()
    }

    fn service_directory(&mut self) -> Outcome<ServiceDirectory> {
        self.plane.service_directory(self.now)
    }

    fn enrollment_service_directory(&mut self, staleness: u64) -> Outcome<ServiceDirectory> {
        self.plane.enrollment_service_directory(Span::from_secs(staleness), self.now)
    }

    fn advertise_service_instance(&mut self, instance: ServiceInstance) -> Outcome<()> {
        self.plane.advertise_service_instance(instance, &None, self.now)
    }

    fn metrics(&mut self) -> Outcome<ControlPlaneMetricsResponse> {
        self.plane.metrics(self.now)
    }

    fn register_with_claims(
        &mut self,
        claims: JoinTokenClaims,
        request: RegisterNodeRequest,
    ) -> Outcome<RegisterNodeResponse> {
        let findings =
            key_findings(&request.identity_public_key, &request.wireguard_public_key);
        self.plane.register_with_claims(&claims, &request, &findings, self.now)
    }

    fn register_client_with_claims(
        &mut self,
        claims: JoinTokenClaims,
        request: RegisterClientRequest,
    ) -> Outcome<Registered> {
        let findings =
            key_findings(&request.identity_public_key, &request.wireguard_public_key);
        let response =
            self.plane.register_client_with_claims(&claims, &request, &findings, self.now)?;
        Ok(Registered {
            node: response.client,
            peer_map: response.peer_map,
            relay_map: RelayMap {
                cluster_id: self.config.cluster_id.clone(),
                relays: Vec::new(),
                generated_at: self.now,
            },
        })
    }

    fn heartbeat(&mut self, request: HeartbeatRequest) -> Outcome<HeartbeatResponse> {
        self.heartbeat_found(request, no_findings())
    }

    fn heartbeat_found(
        &mut self,
        request: HeartbeatRequest,
        findings: HeartbeatFindings,
    ) -> Outcome<HeartbeatResponse> {
        Ok(self.plane.heartbeat(&request, &findings, self.now)?.response)
    }

    fn connection_intents_for(&mut self, node_id: &NodeId) -> Outcome<Vec<PeerConnectionIntent>> {
        self.plane.connection_intents_for(node_id, self.now)
    }

    fn peer_map_for(&mut self, node_id: &NodeId) -> Outcome<PeerMap> {
        self.plane.peer_map_for(node_id, self.now)
    }

    fn paths_for(&mut self, node_id: &NodeId) -> Outcome<ControlPlanePathsResponse> {
        self.plane.paths_for(node_id, self.now)
    }

    fn remove_node(
        &mut self,
        name: &str,
        signed_at: Option<Timestamp>,
        signature_fault: Option<&str>,
    ) -> Outcome<RemoveNodeResponse> {
        self.plane.remove_node(
            &RemoveNodeRequest { node_id: id(name), signed_at },
            &signature_fault.map(str::to_string),
            self.now,
        )
    }

    fn rotate_wireguard_key(
        &mut self,
        request: RotateWireGuardKeyRequest,
        signature_fault: Option<&str>,
    ) -> Outcome<RotateWireGuardKeyResponse> {
        let findings = RotationFindings {
            previous_key_fault: None,
            next_key_fault: None,
            signature_fault: signature_fault.map(str::to_string),
        };
        self.plane.rotate_wireguard_key(&request, &findings, self.now)
    }

    fn authenticate_client(
        &mut self,
        client_id: &NodeId,
        kind: ClientRequestKind,
        active_gateway: &Option<NodeId>,
        nonce: &str,
    ) -> Outcome<NodeRecord> {
        let request = ClientControlRequest {
            client_id: client_id.clone(),
            active_gateway_node_id: active_gateway.clone(),
            request_signature: Some(RequestSignature {
                signed_at: self.now,
                nonce: nonce.to_string(),
            }),
        };
        self.plane.authenticate_client_request(&request, kind, &None, self.now)
    }

    fn update_gateway_selection(
        &mut self,
        client: &NodeRecord,
        requested: Option<&NodeId>,
    ) -> Outcome<()> {
        self.plane.update_client_gateway_selection(client, requested, self.now)?;
        Ok(())
    }

    fn register_sponsored_client(
        &mut self,
        sponsor: &str,
        bundle: &ClientRegistrationBundle,
        nonce: &str,
        proof_fault: Option<&str>,
    ) -> Outcome<Registered> {
        let registration = RegisterClientRequest {
            client_id: bundle.registration.client_id.clone(),
            identity_public_key: bundle.registration.identity_public_key.clone(),
            wireguard_public_key: bundle.registration.wireguard_public_key.clone(),
        };
        let findings = key_findings(
            &registration.identity_public_key,
            &registration.wireguard_public_key,
        );
        let request = SponsoredClientRegistrationRequest {
            sponsor_node_id: id(sponsor),
            bundle: ClientRegistrationBundle {
                schema_version: bundle.schema_version,
                issued_at: bundle.issued_at,
                expires_at: bundle.expires_at,
                nonce: bundle.nonce.clone(),
                registration,
            },
            request_signature: Some(RequestSignature {
                signed_at: self.now,
                nonce: nonce.to_string(),
            }),
        };
        let sponsorship = SponsorshipFindings {
            nonce_fault: None,
            proof_fault: proof_fault.map(str::to_string),
            signature_fault: None,
        };
        let response =
            self.plane.register_sponsored_client(&request, &sponsorship, &findings, self.now)?;
        Ok(Registered {
            node: response.client,
            peer_map: response.peer_map,
            relay_map: RelayMap {
                cluster_id: self.config.cluster_id.clone(),
                relays: Vec::new(),
                generated_at: self.now,
            },
        })
    }

    fn snapshot(&mut self) -> Outcome<(ClusterPolicy, OverlayNodeSnapshot)> {
        let current = self.plane.current_cluster_policy()?;
        let snapshot = overlay_node_snapshot(
            &self.config.cluster_id,
            &self.store.list_nodes(),
            self.store.list_health(),
            &current,
            self.store.get_overlay_routing_epoch(&self.config.cluster_id),
            self.now,
        );
        Ok((current, snapshot))
    }

    /// The neighbor map of a node in a topology in which all nodes are neighbors.
    fn neighbor_map_for(&mut self, node_id: &NodeId) -> Outcome<NeighborMap> {
        self.plane.current_overlay_snapshot(Span::from_secs(3_600), self.now)?;
        let neighbor_ids = match &self.plane.overlay {
            Some(snapshot) => snapshot
                .nodes
                .iter()
                .map(|node| node.node_id.clone())
                .filter(|other| other != node_id)
                .collect(),
            None => Vec::new(),
        };
        let topology =
            Ok(TopologyNeighbors { topology_epoch: 1, neighbor_ids: Some(neighbor_ids) });
        self.plane.neighbor_map_for(node_id, &topology, self.now)
    }

    /// The path to a destination in a topology in which all nodes are neighbors.
    fn overlay_path_for(&mut self, source: &NodeId, destination: IpAddr) -> Outcome<OverlayPath> {
        self.plane.current_overlay_snapshot(Span::from_secs(3_600), self.now)?;
        let current = self.plane.current_cluster_policy()?;
        let ends = match &self.plane.overlay {
            Some(snapshot) => overlay_path_ends(snapshot, &current, source, destination).ok(),
            None => None,
        };
        let topology = Ok(ends.map(|ends| TopologyPaths {
            topology_epoch: 1,
            primary: vec![ends.source.node_id, ends.target.node_id],
            secondary: None,
        }));
        self.plane.overlay_path_for(source, destination, topology, self.now)
    }

    fn keycloak_placement(
        &mut self,
        version: &str,
        desired_replicas: usize,
        max_candidates: usize,
    ) -> Outcome<KeycloakPlacement> {
        self.plane.keycloak_placement(
            version,
            desired_replicas,
            max_candidates,
            Span::from_secs(3_600),
            self.now,
        )
    }
}

fn claims(cluster_id: &str) -> JoinTokenClaims {
    JoinTokenClaims {
        cluster_id: cluster(cluster_id),
        bootstrap_endpoints: vec![endpoint(
            BootstrapEndpointKind::ControlPlane,
            "https://203.0.113.10:8443",
        )],
        expires_at: after(300),
        not_before: after(-1),
        role: role("edge"),
        tags: names(&["edge"]),
        issuer: id("issuer"),
        key_id: KeyId::from_string("root".to_string()),
        policy: token_policy(),
        nonce: "test".to_string(),
    }
}

fn endpoint(kind: BootstrapEndpointKind, url: &str) -> BootstrapEndpoint {
    BootstrapEndpoint {
        kind,
        kind_label: format!("{kind:?}"),
        url: url.to_string(),
        canonical_url: Some(url.to_string()),
        literal_http: None,
        literal_udp: None,
    }
}

fn registration_request(name: &str) -> RegisterNodeRequest {
    RegisterNodeRequest {
        node_id: id(name),
        identity_public_key: format!("identity-{name}"),
        wireguard_public_key: format!("wg-{name}"),
        candidates: Vec::new(),
        nat_classification: None,
        relay_capability: None,
        requested_routes: Vec::new(),
    }
}

fn client_request(name: &str) -> RegisterClientRequest {
    RegisterClientRequest {
        client_id: id(name),
        identity_public_key: format!("identity-{name}"),
        wireguard_public_key: format!("wg-{name}"),
    }
}

fn heartbeat_at(name: &str, signed_at: Timestamp) -> HeartbeatRequest {
    HeartbeatRequest {
        node_id: id(name),
        health: NodeHealth {
            state: HealthState::Healthy,
            last_seen_at: signed_at,
            latency_ms: None,
            relay_load: None,
            message: None,
        },
        candidates: Vec::new(),
        nat_classification: None,
        relay_capability: None,
        routes: None,
        service_advertisement: None,
        path_state: Vec::new(),
        signed_at: Some(signed_at),
    }
}

fn heartbeat_of(name: &str) -> HeartbeatRequest {
    heartbeat_at(name, NOW)
}

fn candidate_at(name: &str, address: &str, port: u16, usable: bool) -> EndpointCandidate {
    EndpointCandidate {
        endpoint: Endpoint {
            addr: SocketAddr { ip: ip(address), port },
            usable,
            globally_routable: false,
        },
        ..candidate(name)
    }
}

fn public_candidate(name: &str, address: &str, cost: u32) -> EndpointCandidate {
    EndpointCandidate {
        kind: EndpointCandidateKind::PublicUdp,
        endpoint: public(address, 51820),
        cost,
        ..candidate(name)
    }
}

fn invalid_ipv6_candidate(name: &str) -> EndpointCandidate {
    EndpointCandidate {
        kind: EndpointCandidateKind::Ipv6,
        kind_fault: Some("IPv6 candidates must use an IPv6 address".to_string()),
        ..candidate(name)
    }
}

fn classification(local: &str, reflexive: &str, reachable: Option<&str>) -> NatClassification {
    NatClassification {
        public_state_supported: true,
        publicly_reachable_ip: reachable.map(ip),
        reachable_ip_is_global: reachable.is_some(),
        strategy: 0,
        observed_endpoint: Some(public(reflexive, 51_820)),
        assessed_at: NOW,
        confidence: float(0.9),
        confidence_percent: Some(90),
        observations: vec![NatProbeObservation {
            local_addr: SocketAddr { ip: ip(local), port: 51_820 },
            stun_server: public("1.1.1.1", 3478),
            reflexive_addr: public(reflexive, 51_820),
            observed_at: NOW,
        }],
        filtering_observations: Vec::new(),
    }
}

fn service_instance(
    cluster_id: &str,
    instance_id: &str,
    host: &str,
    updated_at: Timestamp,
    lease_expires_at: Timestamp,
) -> ServiceInstance {
    ServiceInstance {
        cluster_id: cluster(cluster_id),
        instance_id: instance_id.to_string(),
        owner_host_id: instance_id.to_string(),
        owner_node_id: Some(id(instance_id)),
        enrollment_signer: false,
        endpoints: vec![
            endpoint(BootstrapEndpointKind::ControlPlane, &format!("https://{host}:8443")),
            endpoint(BootstrapEndpointKind::Signal, &format!("https://{host}:9443")),
            endpoint(BootstrapEndpointKind::Stun, &format!("udp://{host}:3478")),
            endpoint(BootstrapEndpointKind::Relay, &format!("udp://{host}:51820")),
            endpoint(BootstrapEndpointKind::WebUi, &format!("https://{host}")),
        ],
        lease_expires_at,
        updated_at,
    }
}

fn insert_eligible_service_node(plane: &mut Plane, name: &str, address: &str) -> NodeId {
    let mut node = node_record(name);
    node.cluster_id = plane.config.cluster_id.clone();
    node.endpoint_candidates = vec![EndpointCandidate {
        priority: 80,
        ..public_candidate(name, address, 20)
    }];
    let node_id = node.node_id.clone();
    plane.store.insert_node(node).unwrap();
    plane.store.upsert_health(
        node_id.clone(),
        NodeHealth { latency_ms: None, ..health(HealthState::Healthy, NOW) },
    );
    plane.store.upsert_nat_classification(
        node_id.clone(),
        classification(address, address, Some(address)),
    );
    node_id
}

fn update_rejected<T>(result: &Outcome<T>, parts: &[&str]) -> bool {
    matches!(result, Err(ControlPlaneError::NodeUpdateRejected { reason, .. })
        if parts.iter().all(|part| reason.contains(part)))
}

fn registration_rejected<T>(result: &Outcome<T>, parts: &[&str]) -> bool {
    matches!(result, Err(ControlPlaneError::NodeRegistrationRejected { reason, .. })
        if parts.iter().all(|part| reason.contains(part)))
}

fn policy_rejected<T>(result: &Outcome<T>, part: &str) -> bool {
    matches!(result, Err(ControlPlaneError::InvalidClusterPolicy { reason })
        if reason.contains(part))
}

fn epoch_exhausted<T>(result: Outcome<T>) -> bool {
    matches!(result, Err(ControlPlaneError::Store { reason })
        if reason == "overlay routing epoch exhausted for cluster cluster-a")
}

#[test]
fn keycloak_placement_scans_past_full_invalid_page() {
    let mut plane = Plane::new("cluster-keycloak-pages", "100.64.0.0/24");
    let lease = |node_id: NodeId, vpn_ip: IpAddr, version: &str| KeycloakCandidateLease {
        cluster_id: cluster("cluster-keycloak-pages"),
        node_id,
        vpn_ip,
        version: version.to_string(),
        ready: true,
        eligible: true,
        generation: 1,
        lease_expires_at: after(45),
        updated_at: NOW,
    };
    for index in 0..64_u8 {
        assert!(plane.store.upsert_keycloak_candidate(lease(
            id(&format!("000-invalid-{index:02}")),
            ip(&format!("100.64.1.{}", index + 1)),
            "wrong-version",
        )));
    }

    let mut expected = Vec::new();
    for index in 0..3 {
        let node = plane
            .register_with_claims(
                claims("cluster-keycloak-pages"),
                registration_request(&format!("valid-keycloak-{index}")),
            )
            .unwrap()
            .node;
        plane.store.upsert_health(
            node.node_id.clone(),
            NodeHealth { relay_load: Some(float(0.0)), ..health(HealthState::Healthy, NOW) },
        );
        assert!(plane
            .store
            .upsert_keycloak_candidate(lease(node.node_id.clone(), node.vpn_ip, "26.6.4")));
        expected.push(text(&node.node_id).to_string());
    }
    expected.sort();

    let placement = plane.keycloak_placement("26.6.4", 3, 64).unwrap();
    let mut placed =
        placement.replicas.iter().map(|c| text(&c.node_id).to_string()).collect::<Vec<_>>();
    placed.sort();
    assert_eq!(placed, expected);
}

#[test]
fn overlay_node_snapshot_is_reused_across_a_thousand_pollers() {
    let mut plane = Plane::new("cluster-a", "100.64.0.0/24");
    for index in 0..1_000 {
        plane.store.insert_node(node_record(&format!("snapshot-node-{index:04}"))).unwrap();
    }
    let mut client = node_record("snapshot-client");
    client.role = role("client");
    plane.store.insert_node(client).unwrap();
    let mut foreign = node_record("snapshot-foreign");
    foreign.cluster_id = cluster("cluster-b");
    plane.store.insert_node(foreign).unwrap();

    let (current, first) = plane.snapshot().unwrap();
    assert_eq!(first.nodes.len(), 1_000);
    assert_eq!(first.clients.len(), 1);
    assert_eq!(first.topology_cache_key.node_count, 1_000);
    let routing_epoch = plane.store.get_overlay_routing_epoch(&plane.config.cluster_id);
    for _ in 0..1_000 {
        assert!(snapshot_is_current(&first, Span::from_secs(1), &current, routing_epoch));
    }
    assert!(!snapshot_is_current(&first, Span::from_secs(2), &current, routing_epoch));
    assert!(!snapshot_is_current(&first, Span::from_secs(0), &current, routing_epoch + 1));
}

#[test]
fn shared_routing_epoch_invalidates_another_replicas_cached_map_and_path() {
    let mut plane = Plane::new("cluster-shared-routing-epoch", "100.64.0.0/24");
    let mut source = node_record("routing-epoch-source");
    source.cluster_id = plane.config.cluster_id.clone();
    let mut target = node_record("routing-epoch-target");
    target.cluster_id = plane.config.cluster_id.clone();
    target.vpn_ip = ip("100.64.0.3");
    target.token_policy.allowed_routes = vec![cidr("10.0.0.0/8")];
    target.routes = vec![route("old-route", "10.42.1.0/24", "routing-epoch-target")];
    plane.store.insert_node(source.clone()).unwrap();
    plane.store.insert_node(target.clone()).unwrap();

    let (_, old_snapshot) = plane.snapshot().unwrap();
    let old_map = plane.neighbor_map_for(&source.node_id).unwrap();
    let old_epoch = old_map.routing_epoch;
    assert_eq!(
        old_map.aggregate_routes,
        vec![AggregateOverlayRoute { cidr: cidr("10.42.1.0/24") }]
    );
    let old_path = plane.overlay_path_for(&source.node_id, ip("10.42.1.10")).unwrap();
    assert_eq!(old_path.routing_epoch, old_epoch);

    let mut request = heartbeat_of("routing-epoch-target");
    request.routes = Some(vec![route("new-route", "10.43.1.0/24", "routing-epoch-target")]);
    plane.heartbeat(request).unwrap();
    let shared_epoch = plane.store.get_overlay_routing_epoch(&target.cluster_id);
    assert!(shared_epoch > old_epoch);

    let current = plane.current_policy().unwrap();
    assert!(!snapshot_is_current(&old_snapshot, Span::from_secs(0), &current, shared_epoch));

    let refreshed_map = plane.neighbor_map_for(&source.node_id).unwrap();
    assert_eq!(refreshed_map.routing_epoch, shared_epoch);
    assert_eq!(
        refreshed_map.aggregate_routes,
        vec![AggregateOverlayRoute { cidr: cidr("10.43.1.0/24") }]
    );
    assert!(matches!(
        plane.overlay_path_for(&source.node_id, ip("10.42.1.10")),
        Err(ControlPlaneError::OverlayDestinationNotFound { .. })
    ));
    let refreshed_path = plane.overlay_path_for(&source.node_id, ip("10.43.1.10")).unwrap();
    assert_eq!(refreshed_path.routing_epoch, shared_epoch);
    assert_eq!(text(&refreshed_path.target.node_id), text(&target.node_id));
}

#[test]
fn setting_overlay_route_scopes_rejects_vpn_overlap_and_uncovered_existing_routes() {
    let mut plane = Plane::new("cluster-a", "100.64.0.0/24");
    let mut provider = node_record("scope-existing-provider");
    provider.routes = vec![route("existing-pod-cidr", "10.43.1.0/24", "scope-existing-provider")];
    plane.store.insert_node(provider).unwrap();

    let scoped =
        |network: &str| ClusterPolicy { overlay_route_scopes: vec![cidr(network)], ..policy() };
    assert!(policy_rejected(
        &plane.set_cluster_policy(scoped("100.64.0.0/25")),
        "overlaps VPN pool"
    ));
    assert!(policy_rejected(
        &plane.set_cluster_policy(scoped("10.42.0.0/16")),
        "existing-pod-cidr"
    ));
    assert_eq!(plane.set_cluster_policy(scoped("10.0.0.0/8")).unwrap(), scoped("10.0.0.0/8"));
}

#[test]
fn registration_rejects_routes_outside_configured_overlay_scopes() {
    let mut plane = Plane::with_policy(
        "cluster-a",
        "100.64.0.0/24",
        ClusterPolicy { overlay_route_scopes: vec![cidr("10.42.0.0/16")], ..policy() },
    );
    let mut token_claims = claims("cluster-a");
    token_claims.policy.allowed_routes = vec![cidr("10.0.0.0/8")];
    let mut request = registration_request("scoped-registration");
    request.requested_routes = vec![route("outside-scope", "10.43.1.0/24", "scoped-registration")];
    assert!(registration_rejected(
        &plane.register_with_claims(token_claims.clone(), request.clone()),
        &["not fully contained"]
    ));

    request.requested_routes = vec![route("inside-scope", "10.42.1.0/24", "scoped-registration")];
    let registered = plane.register_with_claims(token_claims, request).unwrap();
    assert_eq!(registered.node.routes[0].id, "inside-scope");
}

#[test]
fn registration_rejects_vpn_overlap_and_excess_automatic_route_scopes() {
    let mut plane = Plane::new("cluster-a", "100.64.0.0/24");
    let mut request = registration_request("bounded-route-registration");
    request.requested_routes =
        vec![route("vpn-overlap", "100.64.0.0/25", "bounded-route-registration")];
    let mut token_claims = claims("cluster-a");
    token_claims.policy.allowed_routes = vec![cidr("100.64.0.0/10")];
    assert!(registration_rejected(
        &plane.register_with_claims(token_claims, request.clone()),
        &["overlaps VPN pool"]
    ));

    request.requested_routes = (0..=MAX_OVERLAY_ROUTE_SCOPES)
        .map(|index| {
            route(
                &format!("fragmented-route-{index:02}"),
                &format!("10.0.0.{}/32", 1 + index * 2),
                "bounded-route-registration",
            )
        })
        .collect();
    let mut token_claims = claims("cluster-a");
    token_claims.policy.allowed_routes = vec![cidr("10.0.0.0/8")];
    assert!(registration_rejected(
        &plane.register_with_claims(token_claims, request),
        &["65 aggregate capture scopes"]
    ));
}

#[test]
fn neighbor_map_uses_configured_acl_independent_route_scopes() {
    let mut plane = Plane::with_policy(
        "cluster-a",
        "100.64.0.0/24",
        ClusterPolicy {
            overlay_route_scopes: vec![cidr("10.0.0.0/8")],
            acl_rules: vec![rule("deny-all", AclAction::Deny)],
            ..policy()
        },
    );
    let source = node_record("aggregate-source");
    let mut provider = node_record("aggregate-denied-provider");
    provider.vpn_ip = ip("100.64.0.3");
    provider.routes = vec![route("denied-pod-cidr", "10.42.1.0/24", "aggregate-denied-provider")];
    plane.store.insert_node(source.clone()).unwrap();
    plane.store.insert_node(provider).unwrap();

    let neighbor_map = plane.neighbor_map_for(&source.node_id).unwrap();
    assert_eq!(neighbor_map.neighbors.len(), 1);
    assert!(neighbor_map.neighbors.iter().all(|neighbor| neighbor.node.routes.is_empty()));
    assert_eq!(
        neighbor_map.aggregate_routes,
        vec![AggregateOverlayRoute { cidr: cidr("10.0.0.0/8") }]
    );
    assert!(matches!(
        plane.overlay_path_for(&source.node_id, ip("10.42.1.10")),
        Err(ControlPlaneError::OverlayDestinationNotFound { .. })
    ));
}

#[test]
fn neighbor_map_rejects_more_than_64_exact_aggregates_without_widening() {
    let mut plane = Plane::new("cluster-a", "100.64.0.0/24");
    let source = node_record("aggregate-limit-source");
    let mut provider = node_record("aggregate-limit-provider");
    provider.vpn_ip = ip("100.64.0.3");
    for index in 0..65_u32 {
        provider.routes.push(route(
            &format!("disjoint-route-{index:02}"),
            &format!("10.0.0.{}/32", index * 2),
            "aggregate-limit-provider",
        ));
    }
    plane.store.insert_node(source.clone()).unwrap();
    plane.store.insert_node(provider).unwrap();

    let (_, snapshot) = plane.snapshot().unwrap();
    assert_eq!(snapshot.aggregate_routes.len(), 65);
    assert!(snapshot
        .aggregate_routes
        .iter()
        .all(|route| matches!(route.cidr, Cidr::V4 { prefix: 32, .. })));

    assert!(matches!(
        plane.neighbor_map_for(&source.node_id),
        Err(ControlPlaneError::BoundedTopology { reason })
            if reason.contains("count 65") && reason.contains("limit 64")
    ));
}

#[test]
fn overlay_topology_cache_prunes_abandoned_cells_and_stays_bounded() {
    let key = |membership_epoch: u64, node_count: usize| OverlayTopologyCacheKey {
        membership_epoch,
        node_count,
        block_size: 8,
        max_degree: 6,
        permutation_seed: "cluster-a".to_string(),
    };
    let abandoned = (0..32)
        .map(|index| CachedTopology { key: key(index, 1), initialized: false })
        .collect::<Vec<_>>();
    let mut kept = topologies_to_keep(&abandoned, &key(100, 12));
    assert!(kept.is_empty());

    kept.push(key(100, 12));
    for retained in 4..=12 {
        let wanted = key(200 + retained, retained as usize);
        let cached = kept
            .into_iter()
            .map(|key| CachedTopology { key, initialized: true })
            .collect::<Vec<_>>();
        kept = topologies_to_keep(&cached, &wanted);
        if kept.iter().all(|cached| cached.membership_epoch != wanted.membership_epoch) {
            kept.push(wanted);
        }
        assert!(kept.len() <= MAX_OVERLAY_TOPOLOGY_CACHE_ENTRIES);
    }
    assert_eq!(kept.len(), MAX_OVERLAY_TOPOLOGY_CACHE_ENTRIES);
}

#[test]
fn service_directory_expires_members_and_requires_two_complete_public_nodes_for_ha() {
    let mut plane = Plane::new("cluster-ha", "100.64.0.0/29");
    insert_eligible_service_node(&mut plane, "public-a", "8.8.8.10");
    insert_eligible_service_node(&mut plane, "public-b", "8.8.8.11");
    insert_eligible_service_node(&mut plane, "expired-public", "8.8.8.12");
    let current = |name: &str, host: &str| service_instance("cluster-ha", name, host, NOW, after(30));

    plane.advertise_service_instance(current("public-a", "public-a.example")).unwrap();
    plane.advertise_service_instance(current("public-b", "public-b.example")).unwrap();
    plane
        .advertise_service_instance(service_instance(
            "cluster-ha",
            "expired-public",
            "expired.example",
            after(-60),
            after(-30),
        ))
        .unwrap();

    let directory = plane.service_directory().unwrap();
    assert_eq!(
        directory.instances.iter().map(|i| i.instance_id.as_str()).collect::<Vec<_>>(),
        vec!["public-a", "public-b"]
    );
    assert_eq!(directory.bootstrap_endpoints.len(), 10);
    assert!(directory.bootstrap_endpoints.iter().all(|e| !e.url.contains("expired")));

    let metrics = plane.metrics().unwrap();
    assert_eq!(metrics.active_service_instance_count, 2);
    assert_eq!(metrics.active_service_host_count, 2);
    assert_eq!(metrics.active_control_plane_count, 2);
    assert_eq!(metrics.active_signal_count, 2);
    assert_eq!(metrics.active_stun_count, 2);
    assert_eq!(metrics.active_relay_count, 2);
    assert_eq!(metrics.active_web_ui_count, 2);
    assert!(metrics.ha_ready);

    let mut colocated = current("public-b", "public-b.example");
    colocated.owner_host_id = "public-a".to_string();
    colocated.owner_node_id = Some(id("public-a"));
    plane.advertise_service_instance(colocated).unwrap();
    let metrics = plane.metrics().unwrap();
    assert_eq!(metrics.active_service_host_count, 1);
    assert_eq!(metrics.active_control_plane_count, 1);
    assert!(!metrics.ha_ready);
    plane.advertise_service_instance(current("public-b", "public-b.example")).unwrap();

    let mut duplicate_kind = current("invalid-public", "invalid.example");
    let repeated = duplicate_kind.endpoints[0].clone();
    duplicate_kind.endpoints.push(repeated);
    assert!(plane.advertise_service_instance(duplicate_kind).is_err());

    let mut invalid_owner = current("invalid-owner", "invalid-owner.example");
    invalid_owner.owner_node_id = Some(id("invalid owner"));
    assert!(plane.advertise_service_instance(invalid_owner).is_err());

    let mut missing_owner = current("missing-owner", "missing-owner.example");
    missing_owner.owner_node_id = None;
    assert!(plane.advertise_service_instance(missing_owner).is_err());

    let mut mismatched_owner = current("mismatched-owner", "mismatched-owner.example");
    mismatched_owner.owner_node_id = Some(id("different-node"));
    assert!(plane.advertise_service_instance(mismatched_owner).is_err());

    let mut invalid_host = current("invalid-host", "invalid-host.example");
    invalid_host.owner_host_id = "invalid host".to_string();
    assert!(plane.advertise_service_instance(invalid_host).is_err());

    let mut signer = current("invalid-signer", "invalid-signer.example");
    signer.enrollment_signer = true;
    signer.endpoints.retain(|e| e.kind != BootstrapEndpointKind::ControlPlane);
    assert!(matches!(
        plane.advertise_service_instance(signer),
        Err(ControlPlaneError::Store { reason })
            if reason == "enrollment signer service instance invalid-signer must advertise a control-plane endpoint"
    ));

    let mut duplicate_urls = current("public-b", "public-b.example");
    duplicate_urls.endpoints = current("public-a-copy", "public-a.example").endpoints;
    plane.advertise_service_instance(duplicate_urls).unwrap();
    let metrics = plane.metrics().unwrap();
    assert_eq!(metrics.active_control_plane_count, 2);
    assert!(metrics.ha_ready);

    let mut degraded = current("public-b", "public-b.example");
    degraded.endpoints.retain(|e| e.kind == BootstrapEndpointKind::ControlPlane);
    plane.advertise_service_instance(degraded).unwrap();
    let metrics = plane.metrics().unwrap();
    assert_eq!(metrics.active_control_plane_count, 2);
    assert_eq!(metrics.active_signal_count, 1);
    assert!(!metrics.ha_ready);
}

#[test]
fn split_service_owners_do_not_satisfy_ha() {
    let mut plane = Plane::new("cluster-split-service-ha", "100.64.0.0/29");
    for (index, label) in ["core-a", "core-b", "edge-a", "edge-b"].into_iter().enumerate() {
        insert_eligible_service_node(&mut plane, label, &format!("8.8.4.{}", 10 + index));
        let mut instance = service_instance(
            "cluster-split-service-ha",
            label,
            &format!("{label}.example"),
            NOW,
            after(30),
        );
        let core = label.starts_with("core");
        instance.endpoints.retain(|endpoint| {
            core == matches!(
                endpoint.kind,
                BootstrapEndpointKind::ControlPlane
                    | BootstrapEndpointKind::Signal
                    | BootstrapEndpointKind::Stun
            )
        });
        plane.advertise_service_instance(instance).unwrap();
    }

    let metrics = plane.metrics().unwrap();
    assert_eq!(metrics.active_control_plane_count, 2);
    assert_eq!(metrics.active_signal_count, 2);
    assert_eq!(metrics.active_stun_count, 2);
    assert_eq!(metrics.active_relay_count, 2);
    assert_eq!(metrics.active_web_ui_count, 2);
    assert!(!metrics.ha_ready);
}

#[test]
fn unregistered_and_foreign_service_owners_are_ignored() {
    let mut plane = Plane::new("cluster-service-owner", "100.64.0.0/29");
    plane
        .advertise_service_instance(service_instance(
            "cluster-service-owner",
            "unregistered",
            "unregistered.example",
            NOW,
            after(30),
        ))
        .unwrap();
    assert!(plane.service_directory().unwrap().instances.is_empty());
    assert_eq!(plane.metrics().unwrap().active_service_instance_count, 0);

    let mut foreign = node_record("foreign-owner");
    foreign.cluster_id = cluster("other-cluster");
    plane.store.insert_node(foreign).unwrap();
    plane
        .advertise_service_instance(service_instance(
            "cluster-service-owner",
            "foreign-owner",
            "foreign.example",
            NOW,
            after(30),
        ))
        .unwrap();
    assert!(plane.service_directory().unwrap().instances.is_empty());
    assert_eq!(plane.metrics().unwrap().active_service_instance_count, 0);
}

#[test]
fn stale_or_unreachable_service_owners_are_excluded() {
    let mut plane = Plane::new("cluster-service-eligibility", "100.64.0.0/29");
    insert_eligible_service_node(&mut plane, "eligible", "8.8.4.20");
    let stale = insert_eligible_service_node(&mut plane, "stale", "8.8.4.21");
    let unreachable = insert_eligible_service_node(&mut plane, "unreachable", "8.8.4.22");
    plane.store.upsert_health(
        stale,
        NodeHealth { latency_ms: None, ..health(HealthState::Healthy, after(-91)) },
    );
    plane
        .store
        .upsert_nat_classification(unreachable, classification("192.168.1.20", "8.8.4.22", None));
    for label in ["eligible", "stale", "unreachable"] {
        plane
            .advertise_service_instance(service_instance(
                "cluster-service-eligibility",
                label,
                &format!("{label}.example"),
                NOW,
                after(30),
            ))
            .unwrap();
    }

    let directory = plane.service_directory().unwrap();
    assert_eq!(directory.instances.len(), 1);
    assert_eq!(directory.instances[0].instance_id, "eligible");
    let metrics = plane.metrics().unwrap();
    assert_eq!(metrics.active_service_host_count, 1);
    assert_eq!(metrics.active_control_plane_count, 1);
    assert!(!metrics.ha_ready);
}

#[test]
fn explicitly_mapped_public_service_owner_is_eligible() {
    let mut plane = Plane::new("cluster-mapped-service-owner", "100.64.0.0/29");
    insert_eligible_service_node(&mut plane, "mapped-owner", "8.8.4.40");
    let mut mapped = classification("10.10.10.103", "8.8.4.40", Some("8.8.4.40"));
    mapped.observations.push(NatProbeObservation {
        stun_server: public("8.8.8.8", 3478),
        ..mapped.observations[0].clone()
    });
    plane.store.upsert_nat_classification(id("mapped-owner"), mapped);
    plane
        .advertise_service_instance(service_instance(
            "cluster-mapped-service-owner",
            "mapped-owner",
            "mapped.example",
            NOW,
            after(30),
        ))
        .unwrap();

    let directory = plane.service_directory().unwrap();
    assert_eq!(directory.instances.len(), 1);
    assert_eq!(directory.instances[0].instance_id, "mapped-owner");
}

#[test]
fn ha_respects_configured_full_service_replica_count() {
    let mut plane = Plane::new("cluster-configured-service-ha", "100.64.0.0/29");
    plane.config.service_ha_replica_count = 3;
    for (index, label) in ["public-a", "public-b", "public-c"].into_iter().enumerate() {
        insert_eligible_service_node(&mut plane, label, &format!("8.8.4.{}", 30 + index));
        plane
            .advertise_service_instance(service_instance(
                "cluster-configured-service-ha",
                label,
                &format!("{label}.example"),
                NOW,
                after(30),
            ))
            .unwrap();
        assert_eq!(plane.metrics().unwrap().ha_ready, index == 2);
    }
}

#[test]
fn service_instance_withdrawal_removes_active_endpoint_immediately() {
    let mut plane = Plane::new("cluster-withdrawal", "100.64.0.0/29");
    insert_eligible_service_node(&mut plane, "dynamic-web", "8.8.8.20");
    let mut dynamic_web =
        service_instance("cluster-withdrawal", "dynamic-web", "public.example", NOW, after(45));
    dynamic_web.endpoints.retain(|e| e.kind == BootstrapEndpointKind::WebUi);
    plane.advertise_service_instance(dynamic_web).unwrap();
    let partial = plane.service_directory().unwrap();
    assert_eq!(partial.instances.len(), 1);
    assert!(partial.bootstrap_endpoints.is_empty());
    assert!(plane.withdraw_service_instance("dynamic-web"));
    assert!(!plane.withdraw_service_instance("dynamic-web"));
    assert!(plane.service_directory().unwrap().instances.is_empty());
}

#[test]
fn service_directory_retains_core_instance_when_web_leases_exceed_limit() {
    let mut plane = Plane::new("cluster-core-retention", "100.64.0.0/29");
    let core = insert_eligible_service_node(&mut plane, "core-a", "8.8.8.21");
    plane
        .advertise_service_instance(service_instance(
            "cluster-core-retention",
            "core-a",
            "core-a.example",
            after(-30),
            after(30),
        ))
        .unwrap();
    for index in 0..=MAX_ACTIVE_SERVICE_INSTANCES {
        let mut dynamic_web = service_instance(
            "cluster-core-retention",
            &format!("dynamic-web-{index:03}"),
            &format!("web-{index:03}.example"),
            NOW,
            after(45),
        );
        dynamic_web.endpoints.retain(|e| e.kind == BootstrapEndpointKind::WebUi);
        dynamic_web.owner_host_id = text(&core).to_string();
        dynamic_web.owner_node_id = Some(core.clone());
        plane.advertise_service_instance(dynamic_web).unwrap();
    }

    let directory = plane.service_directory().unwrap();
    assert_eq!(directory.instances.len(), MAX_ACTIVE_SERVICE_INSTANCES);
    assert!(directory.instances.iter().any(|i| i.instance_id == "core-a"));
    assert!(bootstrap_endpoints_include_core_services(
        &directory.bootstrap_endpoints,
        &plane.limits.core_service_kinds
    ));
    for kind in [
        BootstrapEndpointKind::ControlPlane,
        BootstrapEndpointKind::Signal,
        BootstrapEndpointKind::Stun,
    ] {
        assert!(directory
            .bootstrap_endpoints
            .iter()
            .any(|e| e.kind == kind && e.url.contains("core-a.example")));
    }
}

#[test]
fn service_directory_prioritizes_signers_across_instance_and_endpoint_limits() {
    let mut plane = Plane::new("cluster-signer-retention", "100.64.0.0/29");
    let owner = insert_eligible_service_node(&mut plane, "shared-owner", "8.8.8.24");
    for index in 0..996 {
        let instance_id = format!("instance-{index:04}");
        let mut instance = service_instance(
            "cluster-signer-retention",
            &instance_id,
            &format!("{instance_id}.example"),
            NOW,
            after(30),
        );
        instance.owner_host_id = text(&owner).to_string();
        instance.owner_node_id = Some(owner.clone());
        plane.advertise_service_instance(instance).unwrap();
    }
    for index in 0..4 {
        let instance_id = format!("signer-{index:04}");
        let mut signer = service_instance(
            "cluster-signer-retention",
            &instance_id,
            &format!("{instance_id}.example"),
            after(-30),
            after(30),
        );
        signer.owner_host_id = text(&owner).to_string();
        signer.owner_node_id = Some(owner.clone());
        signer.enrollment_signer = true;
        plane.advertise_service_instance(signer).unwrap();
    }

    let directory = plane.service_directory().unwrap();
    assert_eq!(directory.instances.len(), MAX_ACTIVE_SERVICE_INSTANCES);
    assert_eq!(
        directory
            .instances
            .iter()
            .filter(|i| i.enrollment_signer)
            .map(|i| i.instance_id.as_str())
            .collect::<Vec<_>>(),
        vec!["signer-0000", "signer-0001", "signer-0002", "signer-0003"]
    );
    let control_plane_urls = directory
        .bootstrap_endpoints
        .iter()
        .filter(|e| e.kind == BootstrapEndpointKind::ControlPlane)
        .map(|e| e.url.as_str())
        .collect::<Vec<_>>();
    assert_eq!(control_plane_urls.len(), plane.limits.max_bootstrap_endpoints_per_kind);
    assert_eq!(
        &control_plane_urls[..4],
        [
            "https://signer-0000.example:8443",
            "https://signer-0001.example:8443",
            "https://signer-0002.example:8443",
            "https://signer-0003.example:8443",
        ]
    );
}

#[test]
fn enrollment_service_directory_keeps_only_recently_expired_instances() {
    let mut plane = Plane::new("cluster-enrollment-directory", "100.64.0.0/29");
    insert_eligible_service_node(&mut plane, "public-a", "8.8.8.22");
    insert_eligible_service_node(&mut plane, "public-b", "8.8.8.23");
    plane
        .advertise_service_instance(service_instance(
            "cluster-enrollment-directory",
            "public-a",
            "public-a.example",
            after(-90),
            after(-60),
        ))
        .unwrap();
    plane
        .advertise_service_instance(service_instance(
            "cluster-enrollment-directory",
            "public-b",
            "public-b.example",
            NOW,
            after(30),
        ))
        .unwrap();

    let active = plane.service_directory().unwrap();
    assert_eq!(active.instances.len(), 1);
    assert_eq!(active.instances[0].instance_id, "public-b");

    let enrollment = plane.enrollment_service_directory(5 * 60).unwrap();
    assert_eq!(
        enrollment.instances.iter().map(|i| i.instance_id.as_str()).collect::<Vec<_>>(),
        vec!["public-a", "public-b"]
    );
    assert_eq!(enrollment.bootstrap_endpoints.len(), 10);

    let expired = plane.enrollment_service_directory(30).unwrap();
    assert_eq!(expired.instances.len(), 1);
    assert_eq!(expired.instances[0].instance_id, "public-b");

    let too_stale = plane.limits.max_join_token_ttl_seconds + 1;
    assert!(plane.enrollment_service_directory(too_stale).is_err());
}

#[test]
fn in_memory_service_instances_are_isolated_by_cluster() {
    let mut store = InMemoryStore::new();
    for name in ["cluster-a", "cluster-b"] {
        store.upsert_service_instance(service_instance(
            name,
            "public-a",
            &format!("{name}.example"),
            NOW,
            after(30),
        ));
    }
    for name in ["cluster-a", "cluster-b"] {
        let instances = store.list_service_instances(&cluster(name));
        assert_eq!(instances.len(), 1);
        assert_eq!(instances[0].cluster_id.as_str(), name);
    }
}

#[test]
fn registration_allocates_vpn_ip_and_returns_relay_map() {
    let mut plane = Plane::new("cluster-r", "100.64.0.0/30");
    let mut request = registration_request("node-a");
    request.relay_capability = Some(relay_capability());
    let mut claims = claims("cluster-r");
    claims.policy.allow_relay = true;

    let response = plane.register_with_claims(claims, request).unwrap();
    assert_eq!(response.node.vpn_ip, ip("100.64.0.1"));
    assert_eq!(response.node.relay_capability.map(|c| c.enabled_by_policy), Some(true));
    assert!(response.relay_map.relays.is_empty());
    let metrics = plane.metrics().unwrap();
    assert_eq!(metrics.vpn_pool_total_count, 2);
    assert_eq!(metrics.vpn_pool_allocated_count, 1);
    assert_eq!(metrics.vpn_pool_available_count, 1);
}

#[test]
fn relay_map_and_metrics_require_fresh_healthy_relay() {
    let mut plane = Plane::new("cluster-r", "100.64.0.0/29");
    let mut relay_claims = claims("cluster-r");
    relay_claims.policy.allow_relay = true;
    let mut relay_request = registration_request("relay-a");
    relay_request.relay_capability = Some(relay_capability());

    let registered = plane.register_with_claims(relay_claims, relay_request).unwrap();
    assert!(registered.relay_map.relays.is_empty());
    assert_eq!(plane.metrics().unwrap().relay_candidate_count, 0);

    let mut heartbeat = heartbeat_of("relay-a");
    heartbeat.health.latency_ms = Some(float(1.0));
    heartbeat.health.relay_load = Some(float(0.10));
    heartbeat.relay_capability = Some(relay_capability());
    plane.heartbeat(heartbeat).unwrap();
    assert_eq!(plane.metrics().unwrap().relay_candidate_count, 1);

    let source =
        plane.register_with_claims(claims("cluster-r"), registration_request("node-a")).unwrap();
    assert_eq!(source.relay_map.relays.len(), 1);
    assert_eq!(text(&source.relay_map.relays[0].node_id), "relay-a");

    plane.store.upsert_health(id("relay-a"), health(HealthState::Healthy, after(-120)));
    assert_eq!(plane.metrics().unwrap().relay_candidate_count, 0);

    plane.store.upsert_health(
        id("relay-a"),
        NodeHealth {
            message: Some("overloaded".to_string()),
            ..health(HealthState::Unhealthy, NOW)
        },
    );
    let late =
        plane.register_with_claims(claims("cluster-r"), registration_request("node-b")).unwrap();
    assert!(late.relay_map.relays.is_empty());
}

#[test]
fn concurrent_heartbeats_commit_only_monotonic_complete_snapshots() {
    for newest_first in [false, true] {
        let mut plane = Plane::new("cluster-r", "100.64.0.0/29");
        for name in ["node-a", "node-b"] {
            plane.register_with_claims(claims("cluster-r"), registration_request(name)).unwrap();
        }
        let new_at = Timestamp { seconds: NOW.seconds, nanos: 1_000_000 };
        plane.now = new_at;
        let heartbeat = |signed_at: Timestamp, marker: &str, host: &str| {
            let mut request = heartbeat_at("node-a", signed_at);
            request.health.message = Some(marker.to_string());
            request.candidates = vec![candidate_at("node-a", host, 51820, true)];
            request.path_state =
                vec![PathRecord { updated_at: signed_at, ..path("node-a", "node-b") }];
            request
        };
        let old = heartbeat(NOW, "old", "203.0.113.10");
        let newest = heartbeat(new_at, "new", "203.0.113.11");
        let (old_result, new_result) = if newest_first {
            let new_result = plane.heartbeat(newest);
            (plane.heartbeat(old), new_result)
        } else {
            let old_result = plane.heartbeat(old);
            (old_result, plane.heartbeat(newest))
        };
        assert!(new_result.is_ok());
        assert_eq!(
            matches!(old_result, Err(ControlPlaneError::NodeSignatureRejected { .. })),
            newest_first
        );

        let stored = plane.store.get_node(&id("node-a")).unwrap();
        assert_eq!(stored.endpoint_candidates[0].endpoint.addr.ip, ip("203.0.113.11"));
        let health = plane.store.get_health(&id("node-a")).unwrap();
        assert_eq!(health.message.as_deref(), Some("new"));
        assert_eq!(
            plane.store.get_heartbeat_signature_timestamp(&id("node-a")),
            Some(new_at)
        );
        let paths = plane.store.list_paths_for(&id("node-a"));
        assert_eq!(paths.len(), 1);
        assert_eq!(paths[0].updated_at, new_at);
    }
}

fn heartbeat_store_update(node: &NodeRecord, accepted_at: Timestamp) -> HeartbeatStoreUpdate {
    HeartbeatStoreUpdate {
        cluster_id: node.cluster_id.clone(),
        expected_cluster_policy: None,
        expected_route_catalog_epoch: None,
        node_id: node.node_id.clone(),
        expected_identity_public_key: node.identity_public_key.clone(),
        expected_registered_at: node.registered_at,
        accepted_signature_at: Some(accepted_at),
        hostname: None,
        candidates: vec![EndpointCandidate {
            observed_at: accepted_at,
            ..candidate_at(text(&node.node_id), "203.0.113.42", 51820, true)
        }],
        nat_classification: None,
        relay_capability: None,
        routes: None,
        health: NodeHealth {
            message: Some("generation-cas".to_string()),
            ..health(HealthState::Healthy, accepted_at)
        },
        paths: Vec::new(),
    }
}

#[test]
fn in_memory_heartbeat_generation_cas_rejects_aba_replacements() {
    let mut store = InMemoryStore::new();
    let original = node_record("node-a");
    store.insert_node(original.clone()).unwrap();

    store.remove_node(&original.node_id).unwrap();
    let newer = NodeRecord { registered_at: after(1), ..original.clone() };
    store.insert_node(newer.clone()).unwrap();
    assert!(update_rejected(
        &store.apply_heartbeat(heartbeat_store_update(&original, NOW)),
        &["node generation changed"]
    ));
    assert_eq!(store.get_node(&original.node_id), Some(newer));
    assert_eq!(store.get_health(&original.node_id), None);

    store.remove_node(&original.node_id).unwrap();
    let replaced = NodeRecord {
        identity_public_key: "identity-replacement-identity".to_string(),
        ..original.clone()
    };
    store.insert_node(replaced.clone()).unwrap();
    assert!(update_rejected(
        &store.apply_heartbeat(heartbeat_store_update(&original, NOW)),
        &["node generation changed"]
    ));
    assert_eq!(store.get_node(&original.node_id), Some(replaced));
    assert_eq!(store.get_health(&original.node_id), None);
    assert!(store.list_paths_for(&original.node_id).is_empty());
}

#[test]
fn in_memory_routing_epoch_advances_only_for_effective_routing_changes() {
    let cluster_id = cluster("cluster-a");
    let mut store = InMemoryStore::new();
    let base_policy = policy();
    assert_eq!(store.get_overlay_routing_epoch(&cluster_id), 0);
    assert_eq!(
        store.initialize_cluster_policy_if_absent(&cluster_id, base_policy.clone()).unwrap(),
        base_policy
    );
    assert_eq!(store.get_overlay_routing_epoch(&cluster_id), 1);
    store.upsert_cluster_policy(&cluster_id, base_policy.clone()).unwrap();
    assert_eq!(store.get_overlay_routing_epoch(&cluster_id), 1);

    let mut policy = base_policy;
    policy.idle_timeout_seconds += 1;
    store.upsert_cluster_policy(&cluster_id, policy.clone()).unwrap();
    assert_eq!(store.get_overlay_routing_epoch(&cluster_id), 2);
    store.upsert_cluster_policy(&cluster_id, policy.clone()).unwrap();
    assert_eq!(store.get_overlay_routing_epoch(&cluster_id), 2);

    let mut node = node_record("node-a");
    node.routes = vec![route("route-a", "10.42.1.0/24", "node-a")];
    store.insert_node(node.clone()).unwrap();
    assert_eq!(store.get_overlay_routing_epoch(&cluster_id), 3);
    let catalog_epoch = overlay_route_catalog_epoch(&vec![node.clone()]).unwrap();
    assert!(store
        .upsert_cluster_policy_if_route_catalog_epoch(&cluster_id, policy.clone(), catalog_epoch)
        .unwrap());
    assert_eq!(store.get_overlay_routing_epoch(&cluster_id), 3);

    store.update_node_routes(&node.node_id, node.routes.clone()).unwrap();
    assert_eq!(store.get_overlay_routing_epoch(&cluster_id), 3);
    let route_b = route("route-b", "10.43.1.0/24", "node-a");
    store.update_node_routes(&node.node_id, vec![route_b.clone()]).unwrap();
    assert_eq!(store.get_overlay_routing_epoch(&cluster_id), 4);
    let catalog_epoch = overlay_route_catalog_epoch(&store.list_nodes()).unwrap();
    store
        .update_node_routes_if_cluster_policy(
            &cluster_id,
            &node.node_id,
            vec![route_b.clone()],
            Some(policy.clone()),
            Some(catalog_epoch),
        )
        .unwrap();
    assert_eq!(store.get_overlay_routing_epoch(&cluster_id), 4);

    let previous_key = node.wireguard_public_key.clone();
    let next_key = "wg-node-a-next-key".to_string();
    store
        .rotate_node_wireguard_public_key(&node.node_id, &previous_key, next_key.clone())
        .unwrap();
    assert_eq!(store.get_overlay_routing_epoch(&cluster_id), 5);
    store.rotate_node_wireguard_public_key(&node.node_id, &next_key, next_key.clone()).unwrap();
    assert_eq!(store.get_overlay_routing_epoch(&cluster_id), 5);

    let expected_node = store.get_node(&node.node_id).unwrap();
    let catalog_epoch = overlay_route_catalog_epoch(&vec![expected_node.clone()]).unwrap();
    let rejoined = store
        .rejoin_node_if_cluster_policy(RejoinNodeStoreUpdate {
            cluster_id: cluster_id.clone(),
            expected_cluster_policy: Some(policy.clone()),
            expected_route_catalog_epoch: Some(catalog_epoch),
            expected_node,
            candidates: vec![candidate("node-a")],
            relay_capability: None,
            routes: vec![route_b],
        })
        .unwrap();
    assert_eq!(store.get_overlay_routing_epoch(&cluster_id), 5);

    let mut same_routes = heartbeat_store_update(&rejoined, NOW);
    same_routes.expected_cluster_policy = Some(policy.clone());
    same_routes.expected_route_catalog_epoch =
        Some(overlay_route_catalog_epoch(&vec![rejoined.clone()]).unwrap());
    same_routes.routes = Some(rejoined.routes.clone());
    store.apply_heartbeat(same_routes).unwrap();
    assert_eq!(store.get_overlay_routing_epoch(&cluster_id), 5);

    let current = store.get_node(&node.node_id).unwrap();
    let route_c = route("route-c", "10.44.1.0/24", "node-a");
    let mut changed_routes = heartbeat_store_update(&current, after(1));
    changed_routes.expected_cluster_policy = Some(policy.clone());
    changed_routes.expected_route_catalog_epoch =
        Some(overlay_route_catalog_epoch(&vec![current]).unwrap());
    changed_routes.routes = Some(vec![route_c.clone()]);
    store.apply_heartbeat(changed_routes).unwrap();
    assert_eq!(store.get_overlay_routing_epoch(&cluster_id), 6);

    store.restore_overlay_routing_epoch(&cluster_id, u64::MAX);
    store.upsert_cluster_policy(&cluster_id, policy.clone()).unwrap();
    let current = store.get_node(&node.node_id).unwrap();
    store.update_node_routes(&node.node_id, current.routes.clone()).unwrap();
    store
        .rotate_node_wireguard_public_key(
            &node.node_id,
            &current.wireguard_public_key,
            current.wireguard_public_key.clone(),
        )
        .unwrap();
    let mut last = heartbeat_store_update(&current, after(2));
    last.expected_cluster_policy = Some(policy);
    last.expected_route_catalog_epoch = Some(overlay_route_catalog_epoch(&vec![current]).unwrap());
    last.routes = Some(vec![route_c]);
    store.apply_heartbeat(last).unwrap();
    assert_eq!(store.get_overlay_routing_epoch(&cluster_id), u64::MAX);
}

#[test]
fn in_memory_routing_epoch_overflow_preserves_policies_and_insertions() {
    let cluster_id = cluster("cluster-a");
    let mut changed_policy = policy();
    changed_policy.idle_timeout_seconds += 1;

    let mut store = InMemoryStore::new();
    store.restore_overlay_routing_epoch(&cluster_id, u64::MAX);
    assert!(epoch_exhausted(store.initialize_cluster_policy_if_absent(&cluster_id, policy())));
    assert_eq!(store.get_cluster_policy(&cluster_id), None);
    assert_eq!(store.get_overlay_routing_epoch(&cluster_id), u64::MAX);

    let mut store = InMemoryStore::new();
    store.initialize_cluster_policy_if_absent(&cluster_id, policy()).unwrap();
    store.restore_overlay_routing_epoch(&cluster_id, u64::MAX);
    assert!(epoch_exhausted(store.upsert_cluster_policy(&cluster_id, changed_policy.clone())));
    assert_eq!(store.get_cluster_policy(&cluster_id), Some(policy()));

    let empty_epoch = overlay_route_catalog_epoch(&Vec::new()).unwrap();
    let mut store = InMemoryStore::new();
    store.initialize_cluster_policy_if_absent(&cluster_id, policy()).unwrap();
    store.restore_overlay_routing_epoch(&cluster_id, u64::MAX);
    assert!(epoch_exhausted(store.upsert_cluster_policy_if_route_catalog_epoch(
        &cluster_id,
        changed_policy,
        empty_epoch,
    )));
    assert_eq!(store.get_cluster_policy(&cluster_id), Some(policy()));

    let mut store = InMemoryStore::new();
    let node = node_record("overflow-direct-insert");
    store.restore_overlay_routing_epoch(&cluster_id, u64::MAX);
    assert!(epoch_exhausted(store.insert_node(node.clone())));
    assert_eq!(store.get_node(&node.node_id), None);

    let mut store = InMemoryStore::new();
    let node = node_record("overflow-guarded-insert");
    store.restore_overlay_routing_epoch(&cluster_id, u64::MAX);
    assert!(epoch_exhausted(store.insert_node_if_cluster_policy(
        node.clone(),
        None,
        Some(empty_epoch),
    )));
    assert_eq!(store.get_node(&node.node_id), None);
}

#[test]
fn in_memory_routing_epoch_overflow_preserves_node_mutations() {
    let cluster_id = cluster("cluster-a");
    let routed = |name: &str| NodeRecord {
        routes: vec![route("route-a", "10.42.1.0/24", name)],
        ..node_record(name)
    };
    let exhausted = |node: &NodeRecord| {
        let mut store = InMemoryStore::new();
        store.insert_node(node.clone()).unwrap();
        store.restore_overlay_routing_epoch(&cluster("cluster-a"), u64::MAX);
        store
    };

    let node = routed("overflow-direct-routes");
    let mut store = exhausted(&node);
    assert!(epoch_exhausted(store.update_node_routes(
        &node.node_id,
        vec![route("route-b", "10.43.1.0/24", "overflow-direct-routes")],
    )));
    assert_eq!(store.get_node(&node.node_id), Some(node));

    let node = routed("overflow-guarded-routes");
    let catalog_epoch = overlay_route_catalog_epoch(&vec![node.clone()]).unwrap();
    let mut store = exhausted(&node);
    assert!(epoch_exhausted(store.update_node_routes_if_cluster_policy(
        &cluster_id,
        &node.node_id,
        vec![route("route-b", "10.43.1.0/24", "overflow-guarded-routes")],
        None,
        Some(catalog_epoch),
    )));
    assert_eq!(store.get_node(&node.node_id), Some(node));

    let node = node_record("overflow-remove");
    let kept = NodeHealth {
        message: Some("preserve".to_string()),
        ..health(HealthState::Healthy, NOW)
    };
    let observed = path("overflow-remove", "overflow-remove-peer");
    let mut store = exhausted(&node);
    store.upsert_health(node.node_id.clone(), kept.clone());
    store.upsert_path(observed.clone());
    assert!(epoch_exhausted(store.remove_node(&node.node_id)));
    assert_eq!(store.get_node(&node.node_id), Some(node.clone()));
    assert_eq!(store.get_health(&node.node_id), Some(kept));
    assert_eq!(store.list_paths_for(&node.node_id), vec![observed]);

    let node = routed("overflow-rejoin");
    let catalog_epoch = overlay_route_catalog_epoch(&vec![node.clone()]).unwrap();
    let mut store = exhausted(&node);
    assert!(epoch_exhausted(store.rejoin_node_if_cluster_policy(RejoinNodeStoreUpdate {
        cluster_id: cluster_id.clone(),
        expected_cluster_policy: None,
        expected_route_catalog_epoch: Some(catalog_epoch),
        expected_node: node.clone(),
        candidates: vec![candidate("overflow-rejoin")],
        relay_capability: Some(relay_capability()),
        routes: vec![route("route-b", "10.43.1.0/24", "overflow-rejoin")],
    })));
    assert_eq!(store.get_node(&node.node_id), Some(node));

    let node = node_record("overflow-key");
    let mut store = exhausted(&node);
    assert!(epoch_exhausted(store.rotate_node_wireguard_public_key(
        &node.node_id,
        &node.wireguard_public_key,
        "wg-overflow-next-key".to_string(),
    )));
    assert_eq!(store.get_node(&node.node_id), Some(node));
}

#[test]
fn in_memory_routing_epoch_overflow_preserves_complete_heartbeat_state() {
    let cluster_id = cluster("cluster-a");
    let mut store = InMemoryStore::new();
    let mut node = node_record("overflow-heartbeat");
    node.routes = vec![route("route-a", "10.42.1.0/24", "overflow-heartbeat")];
    store.insert_node(node.clone()).unwrap();
    store.restore_overlay_routing_epoch(&cluster_id, u64::MAX);

    let mut update = heartbeat_store_update(&node, NOW);
    update.routes = Some(vec![route("route-b", "10.43.1.0/24", "overflow-heartbeat")]);
    update.paths = vec![path("overflow-heartbeat", "overflow-heartbeat-peer")];
    assert!(epoch_exhausted(store.apply_heartbeat(update)));

    assert_eq!(store.get_node(&node.node_id), Some(node.clone()));
    assert_eq!(store.get_health(&node.node_id), None);
    assert_eq!(store.get_heartbeat_signature_timestamp(&node.node_id), None);
    assert_eq!(store.get_nat_classification(&node.node_id), None);
    assert!(store.list_paths_for(&node.node_id).is_empty());
    assert_eq!(store.get_overlay_routing_epoch(&cluster_id), u64::MAX);
}

#[test]
fn in_memory_cluster_boundary_rejects_heartbeat_and_route_mutation() {
    let mut plane = Plane::new("cluster-a", "100.64.0.0/29");
    let mut foreign = node_record("node-a");
    foreign.cluster_id = cluster("cluster-b");
    plane.store.insert_node(foreign.clone()).unwrap();

    let mut update = heartbeat_store_update(&foreign, NOW);
    update.cluster_id = cluster("cluster-a");
    assert!(matches!(
        plane.store.apply_heartbeat(update),
        Err(ControlPlaneError::NodeNotFound { node_id }) if node_id == foreign.node_id
    ));
    assert!(matches!(
        plane.store.update_node_routes_if_cluster_policy(
            &cluster("cluster-a"),
            &foreign.node_id,
            vec![route("foreign-route", "10.42.0.0/16", "node-a")],
            None,
            None,
        ),
        Err(ControlPlaneError::NodeNotFound { node_id }) if node_id == foreign.node_id
    ));
    assert_eq!(plane.store.get_node(&foreign.node_id), Some(foreign.clone()));
    assert_eq!(plane.store.get_health(&foreign.node_id), None);

    assert!(matches!(
        plane.heartbeat(heartbeat_of("node-a")),
        Err(ControlPlaneError::NodeNotFound { node_id }) if node_id == foreign.node_id
    ));
}

#[test]
fn registration_skips_vpn_ips_already_present_in_store() {
    let mut plane = Plane::new("cluster-r", "100.64.0.0/29");
    let mut existing = node_record("node-existing");
    existing.cluster_id = cluster("cluster-r");
    existing.vpn_ip = ip("100.64.0.1");
    plane.store.insert_node(existing).unwrap();

    let response =
        plane.register_with_claims(claims("cluster-r"), registration_request("node-a")).unwrap();
    assert_eq!(response.node.vpn_ip, ip("100.64.0.2"));
}

#[test]
fn node_removal_reclaims_vpn_ip_and_clears_runtime_state() {
    let mut plane = Plane::new("cluster-r", "100.64.0.0/29");
    let first =
        plane.register_with_claims(claims("cluster-r"), registration_request("node-a")).unwrap();
    let second =
        plane.register_with_claims(claims("cluster-r"), registration_request("node-b")).unwrap();
    assert_eq!(first.node.vpn_ip, ip("100.64.0.1"));
    assert_eq!(second.node.vpn_ip, ip("100.64.0.2"));

    plane.store.upsert_health(id("node-a"), health(HealthState::Healthy, NOW));
    plane.store.upsert_path(path("node-a", "node-b"));
    plane.store.upsert_path(path("node-b", "node-a"));

    assert!(matches!(
        plane.remove_node("node-a", None, None),
        Err(ControlPlaneError::NodeSignatureRequired { .. })
    ));
    assert!(matches!(
        plane.remove_node("node-b", Some(NOW), Some("signature mismatch")),
        Err(ControlPlaneError::NodeSignatureRejected { .. })
    ));

    let removed = plane.remove_node("node-a", Some(NOW), None).unwrap();
    assert_eq!(text(&removed.node.node_id), "node-a");
    assert_eq!(removed.removed_path_count, 2);
    assert!(removed.removed_health);
    assert!(matches!(
        plane.peer_map_for(&id("node-a")),
        Err(ControlPlaneError::NodeNotFound { .. })
    ));
    assert!(plane.paths_for(&id("node-b")).unwrap().paths.is_empty());
    let metrics = plane.metrics().unwrap();
    assert_eq!(metrics.node_count, 1);
    assert_eq!(metrics.path_count, 0);
    assert_eq!(metrics.vpn_pool_allocated_count, 1);
    assert_eq!(metrics.vpn_pool_available_count, 5);
    assert_eq!(metrics.operations.node_removal_success_count, 1);
    assert_eq!(metrics.operations.node_removal_failure_count, 2);
    assert_eq!(metrics.operations.wireguard_key_rotation_success_count, 0);
    assert_eq!(metrics.operations.wireguard_key_rotation_failure_count, 0);

    let replacement =
        plane.register_with_claims(claims("cluster-r"), registration_request("node-c")).unwrap();
    assert_eq!(replacement.node.vpn_ip, first.node.vpn_ip);
}

#[test]
fn registration_is_idempotent_for_same_node_identity() {
    let mut plane = Plane::new("cluster-r", "100.64.0.0/29");
    let mut request = registration_request("node-a");
    request.candidates = vec![EndpointCandidate {
        priority: 80,
        cost: 20,
        ..candidate_at("node-a", "198.51.100.10", 40000, true)
    }];
    let first = plane.register_with_claims(claims("cluster-r"), request.clone()).unwrap();
    request.candidates[0].endpoint.addr.port = 40001;
    let second = plane.register_with_claims(claims("cluster-r"), request.clone()).unwrap();

    assert_eq!(text(&second.node.node_id), text(&first.node.node_id));
    assert_eq!(second.node.vpn_ip, first.node.vpn_ip);
    assert_eq!(second.node.endpoint_candidates, request.candidates);
    assert_eq!(plane.peer_map_for(&request.node_id).unwrap().peers.len(), 0);
}

#[test]
fn sponsored_client_registration_requires_both_signatures_and_is_retryable() {
    let mut plane = Plane::new("cluster-sponsored-client", "10.250.0.0/29");
    let mut sponsor_claims = claims("cluster-sponsored-client");
    sponsor_claims.role = role("gateway");
    let mut sponsor_registration = registration_request("ssh-sponsor");
    sponsor_registration.candidates = vec![public_candidate("ssh-sponsor", "8.8.8.8", 1)];
    plane.register_with_claims(sponsor_claims, sponsor_registration).unwrap();

    plane.limits.max_client_registration_validity_seconds = 3_600;
    let bundle = |expires_at: Timestamp| ClientRegistrationBundle {
        schema_version: 1,
        registration: client_request("desktop-client"),
        issued_at: NOW,
        expires_at,
        nonce: "AwMDAwMDAwMDAwMDAwMDAwMDAwMDAwMD".to_string(),
    };

    let fractional = bundle(Timestamp { seconds: NOW.seconds + 3_600, nanos: 1 });
    assert!(registration_rejected(
        &plane.register_sponsored_client("ssh-sponsor", &fractional, "nonce-0", None),
        &["whole-second precision"]
    ));

    let whole = bundle(after(3_600));
    let first =
        plane.register_sponsored_client("ssh-sponsor", &whole, "nonce-1", None).unwrap();
    assert_eq!(text(&first.node.node_id), "desktop-client");
    assert_eq!(first.peer_map.peers.len(), 1);
    assert!(first.peer_map.peers[0].endpoint_candidates.iter().all(|candidate| {
        matches!(candidate.kind, EndpointCandidateKind::PublicUdp | EndpointCandidateKind::Ipv6)
            && candidate.endpoint.globally_routable
    }));
    assert!(matches!(
        plane.register_sponsored_client("ssh-sponsor", &whole, "nonce-1", None),
        Err(ControlPlaneError::NodeRequestReplay { .. })
    ));

    let retried =
        plane.register_sponsored_client("ssh-sponsor", &whole, "nonce-2", None).unwrap();
    assert_eq!(retried.node.vpn_ip, first.node.vpn_ip);

    assert!(registration_rejected(
        &plane.register_sponsored_client(
            "ssh-sponsor",
            &whole,
            "nonce-3",
            Some("signature mismatch")
        ),
        &["ownership proof is invalid"]
    ));
}

fn leads_to(map: &PeerMap, gateway: &str, network: Cidr) -> bool {
    map.peers.iter().any(|peer| {
        text(&peer.node_id) == gateway
            && peer.routes.iter().any(|route| {
                route.cidr == network
                    && text(&route.advertised_by) == gateway
                    && route.via.as_ref().map(text) == Some(gateway)
            })
    })
}

fn shows(map: &PeerMap, name: &str) -> bool {
    map.peers.iter().any(|peer| text(&peer.node_id) == name)
}

fn host_network(address: IpAddr) -> Cidr {
    match address {
        IpAddr::V4(addr) => Cidr::V4 { addr, prefix: 32 },
        IpAddr::V6(addr) => Cidr::V6 { addr, prefix: 128 },
    }
}

#[test]
fn control_client_receives_ready_gateway_failover_without_joining_the_mesh() {
    let mut plane = Plane::new("cluster-client", "100.96.0.0/29");
    let gateway = |plane: &mut Plane, name: &str, address: &str, cost: u32| {
        let mut gateway_claims = claims("cluster-client");
        gateway_claims.role = role("gateway");
        let mut registration = registration_request(name);
        registration.candidates = vec![public_candidate(name, address, cost)];
        plane.register_with_claims(gateway_claims, registration).unwrap();
    };
    gateway(&mut plane, "client-gateway", "8.8.8.8", 1);
    gateway(&mut plane, "client-gateway-backup", "8.8.4.4", 20);
    let worker = plane
        .register_with_claims(claims("cluster-client"), registration_request("client-worker"))
        .unwrap()
        .node;

    let mut client_claims = claims("cluster-client");
    client_claims.role = role("client");
    client_claims.tags = NameSet::new();
    client_claims.policy.max_token_uses = Some(1);

    let mut reusable_claims = client_claims.clone();
    reusable_claims.policy.max_token_uses = Some(2);
    assert!(matches!(
        plane.register_client_with_claims(reusable_claims, client_request("reusable-mac-client")),
        Err(ControlPlaneError::JoinDenied)
    ));
    let mut tagged_claims = client_claims.clone();
    tagged_claims.tags = names(&["privileged"]);
    tagged_claims.policy.allowed_tags = names(&["privileged"]);
    assert!(matches!(
        plane.register_client_with_claims(tagged_claims, client_request("tagged-mac-client")),
        Err(ControlPlaneError::JoinDenied)
    ));

    let registration = plane
        .register_client_with_claims(client_claims, client_request("mac-client"))
        .unwrap();
    let client = registration.node;
    let worker_network = host_network(worker.vpn_ip);
    let client_network = host_network(client.vpn_ip);

    assert_eq!(registration.peer_map.peers.len(), 2);
    assert_eq!(text(&registration.peer_map.peers[0].node_id), "client-gateway");
    assert!(registration
        .peer_map
        .peers
        .iter()
        .all(|gateway| gateway.routes.iter().any(|route| route.cidr == worker_network)));

    let listed = plane.list_nodes();
    assert_eq!(listed.len(), 3);
    assert!(listed.iter().all(|node| !node.role.is_client()));
    let metrics = plane.metrics().unwrap();
    assert_eq!(metrics.node_count, 3);
    assert_eq!(metrics.client_count, 1);
    assert_eq!(metrics.vpn_pool_allocated_count, 4);

    let gateway_map = plane.peer_map_for(&id("client-gateway")).unwrap();
    assert!(shows(&gateway_map, "mac-client"));
    let backup_map = plane.peer_map_for(&id("client-gateway-backup")).unwrap();
    assert!(!shows(&backup_map, "mac-client"));
    assert!(leads_to(&backup_map, "client-gateway", client_network));
    let worker_map = plane.peer_map_for(&worker.node_id).unwrap();
    assert!(!shows(&worker_map, "mac-client"));
    assert!(leads_to(&worker_map, "client-gateway", client_network));

    let wanted = Some(id("client-gateway-backup"));
    plane
        .authenticate_client(&client.node_id, ClientRequestKind::PeerMap, &wanted, "query")
        .unwrap();
    let baseline = plane.store.latest_client_gateway_selection_at();
    assert!(has_to_wait(Span::from_secs(2), false, &Vec::new()));
    plane.update_gateway_selection(&client, wanted.as_ref()).unwrap();
    assert_eq!(
        step_after_look(
            baseline,
            plane.store.latest_client_gateway_selection_at(),
            &Vec::new()
        ),
        WaitStep::AnswerWithPeerDelta
    );

    let selected = plane.peer_map_for(&client.node_id).unwrap();
    assert_eq!(text(&selected.peers[0].node_id), "client-gateway-backup");
    let primary_map = plane.peer_map_for(&id("client-gateway")).unwrap();
    assert!(!shows(&primary_map, "mac-client"));
    assert!(leads_to(&primary_map, "client-gateway-backup", client_network));
    let backup_map = plane.peer_map_for(&id("client-gateway-backup")).unwrap();
    assert!(shows(&backup_map, "mac-client"));
    let worker_map = plane.peer_map_for(&worker.node_id).unwrap();
    assert!(leads_to(&worker_map, "client-gateway-backup", client_network));
    assert!(worker_map.peers.iter().all(|peer| text(&peer.node_id) != "client-gateway"
        || peer.routes.iter().all(|route| route.cidr != client_network)));

    plane.store.upsert_health(
        id("client-gateway"),
        NodeHealth {
            message: Some("test failure".to_string()),
            ..health(HealthState::Unhealthy, NOW)
        },
    );
    let failed_over = plane.peer_map_for(&client.node_id).unwrap();
    assert_eq!(failed_over.peers.len(), 1);
    assert_eq!(text(&failed_over.peers[0].node_id), "client-gateway-backup");

    assert!(update_rejected(&plane.paths_for(&client.node_id), &[]));
    assert!(update_rejected(
        &plane.rotate_wireguard_key(
            RotateWireGuardKeyRequest {
                node_id: client.node_id.clone(),
                previous_wireguard_public_key: client.wireguard_public_key.clone(),
                next_wireguard_public_key: "wg-mac-client-rotated".to_string(),
                signed_at: Some(NOW),
            },
            None,
        ),
        &[]
    ));
    assert!(matches!(
        plane.authenticate_client(&client.node_id, ClientRequestKind::PeerMap, &wanted, "query"),
        Err(ControlPlaneError::NodeRequestReplay { .. })
    ));

    plane
        .authenticate_client(&client.node_id, ClientRequestKind::Remove, &None, "removal")
        .unwrap();
    let removed = plane.store.remove_node(&client.node_id).unwrap();
    assert_eq!(text(&removed.node.node_id), "mac-client");
    let metrics = plane.metrics().unwrap();
    assert_eq!(metrics.node_count, 3);
    assert_eq!(metrics.client_count, 0);
    assert_eq!(metrics.vpn_pool_allocated_count, 3);
}

#[test]
fn registration_rejoin_updates_routes_within_token_policy() {
    let mut plane = Plane::new("cluster-r", "100.64.0.0/29");
    let mut token_claims = claims("cluster-r");
    token_claims.policy.allowed_routes = vec![cidr("10.96.0.0/12")];
    let mut request = registration_request("node-a");
    let initial = route("service-a", "10.96.10.0/24", "node-a");
    request.requested_routes = vec![initial.clone()];
    plane.register_with_claims(token_claims.clone(), request.clone()).unwrap();
    let replacement = route("service-b", "10.96.20.0/24", "node-a");
    request.requested_routes = vec![replacement.clone()];

    let response = plane.register_with_claims(token_claims, request).unwrap();
    assert_eq!(response.node.routes, vec![replacement.clone()]);
    assert_eq!(plane.store.get_node(&id("node-a")).unwrap().routes, vec![replacement]);
    assert_ne!(response.node.routes, vec![initial]);
}

#[test]
fn registration_rejects_existing_node_with_different_wireguard_key() {
    let mut plane = Plane::new("cluster-r", "100.64.0.0/29");
    let mut request = registration_request("node-a");
    plane.register_with_claims(claims("cluster-r"), request.clone()).unwrap();
    request.wireguard_public_key = "wg-node-a-replacement".to_string();
    assert!(matches!(
        plane.register_with_claims(claims("cluster-r"), request),
        Err(ControlPlaneError::NodeAlreadyExists { .. })
    ));
}

#[test]
fn registration_retries_after_vpn_ip_insert_race() {
    let mut plane = Plane::new("cluster-r", "100.64.0.0/29");
    let mut rival = node_record("node-racing-peer");
    rival.cluster_id = cluster("cluster-r");
    let reserved = assigned_ipv4_vpn_ips(&plane.store.list_nodes());
    rival.vpn_ip = plane.allocator.allocate_next(&reserved).unwrap();
    plane.store.insert_node(rival).unwrap();

    let response =
        plane.register_with_claims(claims("cluster-r"), registration_request("node-a")).unwrap();
    assert_eq!(response.node.vpn_ip, ip("100.64.0.2"));
    let nodes = plane.store.list_nodes();
    assert_eq!(nodes.len(), 2);
    assert!(nodes.iter().any(|node| text(&node.node_id) == "node-racing-peer"
        && node.vpn_ip == ip("100.64.0.1")));
}

#[test]
fn registration_allows_routes_within_token_route_policy() {
    let mut plane = Plane::new("cluster-r", "100.64.0.0/30");
    let mut request = registration_request("node-a");
    request.requested_routes = vec![route("route-a", "10.42.1.0/24", "node-a")];
    let mut claims = claims("cluster-r");
    claims.policy.allowed_routes = vec![cidr("10.42.0.0/16")];
    let response = plane.register_with_claims(claims, request).unwrap();
    assert_eq!(response.node.routes.len(), 1);
    assert_eq!(response.node.routes[0].cidr, cidr("10.42.1.0/24"));
}

#[test]
fn registration_rejects_routes_outside_token_route_policy() {
    let mut plane = Plane::new("cluster-r", "100.64.0.0/30");
    let mut request = registration_request("node-a");
    request.requested_routes = vec![route("route-a", "10.43.0.0/16", "node-a")];
    let mut claims = claims("cluster-r");
    claims.policy.allowed_routes = vec![cidr("10.42.0.0/16")];
    assert!(matches!(
        plane.register_with_claims(claims, request),
        Err(ControlPlaneError::RouteDenied { route_id }) if route_id == "route-a"
    ));
}

#[test]
fn registration_rejects_unowned_candidates_and_routes() {
    let mut plane = Plane::new("cluster-r", "100.64.0.0/30");
    let mut request = registration_request("node-a");
    request.candidates = vec![candidate("node-b")];
    assert!(registration_rejected(
        &plane.register_with_claims(claims("cluster-r"), request),
        &[]
    ));

    let mut request = registration_request("node-a");
    request.requested_routes = vec![route("route-b", "10.42.1.0/24", "node-b")];
    let mut route_claims = claims("cluster-r");
    route_claims.policy.allowed_routes = vec![cidr("10.42.0.0/16")];
    assert!(registration_rejected(&plane.register_with_claims(route_claims, request), &[]));
}

#[test]
fn registration_rejects_future_endpoint_candidate_before_persistence() {
    let mut plane = Plane::new("cluster-r", "100.64.0.0/30");
    let mut request = registration_request("node-a");
    request.candidates =
        vec![EndpointCandidate { observed_at: after(301), ..candidate("node-a") }];
    assert!(registration_rejected(
        &plane.register_with_claims(claims("cluster-r"), request),
        &["observed_at", "too far in the future"]
    ));
    assert!(plane.store.list_nodes().is_empty());
}

#[test]
fn registration_rejects_invalid_route_shape() {
    let mut plane = Plane::new("cluster-r", "100.64.0.0/30");
    let mut claims = claims("cluster-r");
    claims.policy.allowed_routes = vec![cidr("10.42.0.0/16")];
    let single = |route_id: &str, network: &str| vec![route(route_id, network, "node-a")];
    let cases = vec![
        (single("", "10.42.1.0/24"), "route ID cannot be empty"),
        (single("bad/route", "10.42.1.0/24"), "route ID must contain only ASCII letters"),
        (
            vec![
                route("route-a", "10.42.1.0/24", "node-a"),
                route("route-a", "10.42.2.0/24", "node-a"),
            ],
            "must not repeat route ID route-a",
        ),
        (
            vec![
                route("route-a", "10.42.1.0/24", "node-a"),
                route("route-b", "10.42.1.0/24", "node-a"),
            ],
            "must not repeat CIDR 10.42.1.0/24",
        ),
        (single("route-noncanonical", "10.42.1.1/24"), "must use canonical CIDR 10.42.1.0/24"),
        (single("route-unrestricted", "0.0.0.0/0"), "must not include unrestricted CIDR 0.0.0.0/0"),
        (single("route-loopback", "127.0.0.0/8"), "must not include loopback CIDR 127.0.0.0/8"),
        (single("route-ipv6-link-local", "fe80::/10"), "must not include link-local CIDR fe80::/10"),
        (
            vec![Route { metric: 0, ..route("route-zero-metric", "10.42.1.0/24", "node-a") }],
            "route route-zero-metric metric must be greater than zero",
        ),
        (
            (0..=MAX_OVERLAY_NODE_ROUTES)
                .map(|index| {
                    route(
                        &format!("route-{index}"),
                        &format!("10.42.{}.{}/32", index / 256, index % 256),
                        "node-a",
                    )
                })
                .collect(),
            "maximum is 256",
        ),
    ];
    for (routes, expected) in cases {
        let mut request = registration_request("node-a");
        request.requested_routes = routes;
        let result = plane.register_with_claims(claims.clone(), request);
        assert!(registration_rejected(&result, &[expected]), "expected {expected}");
    }
}

#[test]
fn registration_rejects_invalid_candidate_kind_addresses() {
    let mut plane = Plane::new("cluster-r", "100.64.0.0/30");
    let mut request = registration_request("node-a");
    request.candidates = vec![invalid_ipv6_candidate("node-a")];
    let result = plane.register_with_claims(claims("cluster-r"), request);
    assert!(registration_rejected(&result, &["IPv6 candidates must use"]));
    assert!(matches!(result, Err(error) if error.to_text().contains("IPv6 candidates must use")));
}

#[test]
fn registration_rejects_invalid_identity_public_key() {
    let mut plane = Plane::new("cluster-r", "100.64.0.0/30");
    let mut request = registration_request("node-a");
    request.identity_public_key = "not-valid-base64".to_string();
    assert!(registration_rejected(
        &plane.register_with_claims(claims("cluster-r"), request),
        &["identity public key is invalid"]
    ));

    let mut mismatched = registration_request("node-a");
    mismatched.node_id = id("node-b");
    assert!(registration_rejected(
        &plane.register_with_claims(claims("cluster-r"), mismatched),
        &["identity public key derives node ID node-a"]
    ));
}

#[test]
fn registration_rejects_invalid_wireguard_public_key() {
    let mut plane = Plane::new("cluster-r", "100.64.0.0/30");
    for (name, key) in [("node-a", "not-valid-base64"), ("node-b", "AQID")] {
        let mut request = registration_request(name);
        request.wireguard_public_key = key.to_string();
        assert!(registration_rejected(
            &plane.register_with_claims(claims("cluster-r"), request),
            &["wireguard"]
        ));
    }
}

#[test]
fn signed_wireguard_key_rotation_updates_registered_node() {
    let mut plane = Plane::new("cluster-r", "100.64.0.0/30");
    let registration =
        plane.register_with_claims(claims("cluster-r"), registration_request("node-a")).unwrap();
    let previous = registration.node.wireguard_public_key;
    let rotation = |previous: &str, next: &str, signed_at: Option<Timestamp>| {
        RotateWireGuardKeyRequest {
            node_id: id("node-a"),
            previous_wireguard_public_key: previous.to_string(),
            next_wireguard_public_key: next.to_string(),
            signed_at,
        }
    };

    let response = plane
        .rotate_wireguard_key(rotation(&previous, "wg-node-a-rotated", Some(NOW)), None)
        .unwrap();
    assert_eq!(text(&response.node.node_id), "node-a");
    assert_eq!(response.node.wireguard_public_key, "wg-node-a-rotated");
    assert!(response.peer_map.peers.is_empty());

    assert!(update_rejected(
        &plane.rotate_wireguard_key(rotation(&previous, "wg-node-a-rotated", Some(NOW)), None),
        &[]
    ));
    assert!(matches!(
        plane.rotate_wireguard_key(
            rotation("wg-node-a-rotated", "wg-node-a-tampered", Some(NOW)),
            Some("signature mismatch"),
        ),
        Err(ControlPlaneError::NodeSignatureRejected { .. })
    ));
    assert!(matches!(
        plane.rotate_wireguard_key(rotation("wg-node-a-rotated", "wg-node-a-next", None), None),
        Err(ControlPlaneError::NodeSignatureRequired { .. })
    ));
    let metrics = plane.metrics().unwrap();
    assert_eq!(metrics.operations.wireguard_key_rotation_success_count, 1);
    assert_eq!(metrics.operations.wireguard_key_rotation_failure_count, 3);
    assert_eq!(metrics.operations.node_removal_success_count, 0);
    assert_eq!(metrics.operations.node_removal_failure_count, 0);
}

#[test]
fn registration_rejects_relay_capability_when_token_policy_denies_relay() {
    let mut plane = Plane::new("cluster-r", "100.64.0.0/30");
    let mut request = registration_request("node-a");
    request.relay_capability = Some(relay_capability());
    assert!(matches!(
        plane.register_with_claims(claims("cluster-r"), request),
        Err(ControlPlaneError::RelayDenied)
    ));
}

#[test]
fn registration_rejects_invalid_relay_capability_shape() {
    let mut plane = Plane::new("cluster-r", "100.64.0.0/29");
    let mut relay_claims = claims("cluster-r");
    relay_claims.policy.allow_relay = true;

    let mut bad_endpoint = relay_capability();
    bad_endpoint.public_endpoint = Some(Endpoint { usable: false, ..private("0.0.0.0", 51820) });
    let mut bad_scheme = relay_capability();
    bad_scheme.admission_url = Some("udp://203.0.113.10:9580".to_string());
    bad_scheme.admission_url_usable = false;
    let mut bad_host = relay_capability();
    bad_host.admission_url = Some("http://0.0.0.0:9580".to_string());
    bad_host.admission_url_usable = false;
    for (name, capability, expected) in [
        ("node-a", bad_endpoint, "relay public endpoint"),
        ("node-b", bad_scheme, "relay admission URL"),
        ("node-c", bad_host, "relay admission URL"),
    ] {
        let mut request = registration_request(name);
        request.relay_capability = Some(capability);
        assert!(registration_rejected(
            &plane.register_with_claims(relay_claims.clone(), request),
            &[expected]
        ));
    }
}

#[test]
fn overlay_path_rejects_a_source_owned_destination() {
    let mut plane = Plane::new("cluster-r", "100.64.0.0/29");
    let source = plane
        .register_with_claims(claims("cluster-r"), registration_request("node-a"))
        .unwrap()
        .node;
    let target = plane
        .register_with_claims(claims("cluster-r"), registration_request("node-b"))
        .unwrap()
        .node;
    assert!(matches!(
        plane.overlay_path_for(&source.node_id, source.vpn_ip),
        Err(ControlPlaneError::OverlayDestinationNotFound { destination })
            if destination == source.vpn_ip
    ));
    let found = plane.overlay_path_for(&source.node_id, target.vpn_ip).unwrap();
    assert_eq!(text(&found.source), text(&source.node_id));
    assert_eq!(text(&found.target.node_id), text(&target.node_id));
    assert_eq!(found.ordered_nodes.len(), 2);
}

#[test]
fn overlay_path_says_why_there_is_none() {
    let mut plane = Plane::new("cluster-r", "100.64.0.0/29");
    let source = plane
        .register_with_claims(claims("cluster-r"), registration_request("node-a"))
        .unwrap()
        .node;
    let target = plane
        .register_with_claims(claims("cluster-r"), registration_request("node-b"))
        .unwrap()
        .node;
    plane.overlay_path_for(&source.node_id, target.vpn_ip).unwrap();
    let at = plane.now;
    assert!(matches!(
        plane.plane.overlay_path_for(&id("stranger"), target.vpn_ip, Ok(None), at),
        Err(ControlPlaneError::NodeNotFound { .. })
    ));
    assert!(matches!(
        plane.plane.overlay_path_for(&source.node_id, ip("192.0.2.1"), Ok(None), at),
        Err(ControlPlaneError::OverlayDestinationNotFound { .. })
    ));
    assert!(matches!(
        plane.plane.overlay_path_for(&source.node_id, target.vpn_ip, Ok(None), at),
        Err(ControlPlaneError::OverlayPathUnavailable { source_node, destination_node })
            if text(&source_node) == "node-a" && text(&destination_node) == "node-b"
    ));
    assert!(matches!(
        plane.plane.overlay_path_for(&source.node_id, target.vpn_ip, Err("torn".to_string()), at),
        Err(ControlPlaneError::BoundedTopology { reason }) if reason == "torn"
    ));
}

#[test]
fn peer_map_applies_acl_roles_tags_and_routes() {
    let mut edge_to_app = rule("edge-to-app", AclAction::Allow);
    edge_to_app.from_roles = names(&["edge"]);
    edge_to_app.to_tags = names(&["app"]);
    let mut deny_blocked = rule("deny-blocked", AclAction::Deny);
    deny_blocked.to_tags = names(&["blocked"]);
    let mut allow_route = rule("allow-route", AclAction::Allow);
    allow_route.routes = vec![cidr("10.42.0.0/16")];
    let mut plane = Plane::with_policy(
        "cluster-a",
        "100.64.0.0/29",
        ClusterPolicy { acl_rules: vec![edge_to_app, deny_blocked, allow_route], ..policy() },
    );
    let mut source = node_record("source");
    source.tags = names(&["client"]);
    let mut allowed = node_record("allowed");
    allowed.tags = names(&["app"]);
    let mut denied = node_record("denied");
    denied.tags = names(&["app", "blocked"]);
    let mut provider = node_record("route-provider");
    provider.routes = vec![
        route("allowed-route", "10.42.1.0/24", "route-provider"),
        route("denied-route", "10.99.0.0/16", "route-provider"),
    ];
    for node in [source, allowed, denied, provider] {
        plane.store.insert_node(node).unwrap();
    }

    let peer_map = plane.peer_map_for(&id("source")).unwrap();
    assert_eq!(peer_map.peers.len(), 2);
    let allowed = peer_map.peers.iter().find(|peer| text(&peer.node_id) == "allowed").unwrap();
    assert!(allowed.routes.is_empty());
    let provider =
        peer_map.peers.iter().find(|peer| text(&peer.node_id) == "route-provider").unwrap();
    assert_eq!(provider.routes.len(), 1);
    assert_eq!(provider.routes[0].id, "allowed-route");
    assert!(!shows(&peer_map, "denied"));
    plane.store.upsert_path(path("source", "allowed"));
    plane.store.upsert_path(path("source", "denied"));
    plane.store.upsert_path(path("route-provider", "source"));

    let paths = plane.paths_for(&id("source")).unwrap();
    assert_eq!(text(&paths.node_id), "source");
    assert_eq!(paths.paths.len(), 2);
    assert!(paths.paths.iter().any(|found| text(&found.key.local) == "source"
        && text(&found.key.remote) == "allowed"));
    assert!(paths.paths.iter().any(|found| text(&found.key.local) == "route-provider"
        && text(&found.key.remote) == "source"));
    assert!(paths.paths.iter().all(|found| text(&found.key.remote) != "denied"));

    let visibility = plane.metrics().unwrap().visibility;
    assert_eq!(visibility.peer_candidates, 12);
    assert_eq!(visibility.visible_peers, 6);
    assert_eq!(visibility.acl_denied_peers, 6);
    assert_eq!(visibility.route_candidates, 6);
    assert_eq!(visibility.visible_routes, 3);
    assert_eq!(visibility.acl_denied_routes, 3);
}

#[test]
fn connection_intents_include_only_fresh_incoming_local_activity() {
    let mut plane = Plane::with_policy(
        "cluster-a",
        "100.64.0.0/29",
        ClusterPolicy { idle_timeout_seconds: 10, ..policy() },
    );
    for name in ["source", "target", "stale-source", "remote-only-source"] {
        plane.store.insert_node(node_record(name)).unwrap();
    }
    let active = |local: &str, at: Timestamp| {
        let mut reported = path(local, "target");
        reported.score.reasons.push(format!("{PREFIX}{}", at.seconds * 1_000));
        reported
    };
    plane.store.upsert_path(active("source", NOW));
    plane.store.upsert_path(active("stale-source", after(-11)));
    plane.store.upsert_path(path("remote-only-source", "target"));

    let intents = plane.connection_intents_for(&id("target")).unwrap();
    let source_vpn_ip = plane.store.get_node(&id("source")).unwrap().vpn_ip;
    assert_eq!(
        intents,
        vec![PeerConnectionIntent {
            peer: id("source"),
            peer_vpn_ip: source_vpn_ip,
            observed_at: NOW,
        }]
    );
}

#[test]
fn waiting_heartbeat_wakes_when_peer_reports_local_activity() {
    let mut plane = Plane::with_policy(
        "cluster-r",
        "100.64.0.0/29",
        ClusterPolicy { idle_timeout_seconds: 10, ..policy() },
    );
    for name in ["source", "target"] {
        plane.register_with_claims(claims("cluster-r"), registration_request(name)).unwrap();
    }
    let waiting = plane.heartbeat(heartbeat_of("target")).unwrap();
    assert!(has_to_wait(
        Span::from_secs(2),
        waiting.peer_delta_available,
        &waiting.connection_intents
    ));

    let mut source = heartbeat_of("source");
    let mut reported = path("source", "target");
    reported.score.reasons.push(format!("{PREFIX}{}", NOW.seconds * 1_000));
    source.path_state = vec![reported];
    plane.heartbeat(source).unwrap();

    let intents = plane.connection_intents_for(&id("target")).unwrap();
    assert_eq!(step_after_look(None, None, &intents), WaitStep::AnswerWithIntents);
    assert_eq!(intents.len(), 1);
    assert_eq!(text(&intents[0].peer), "source");
}

#[test]
fn peer_map_filters_stale_endpoint_candidates() {
    let mut plane = Plane::with_policy(
        "cluster-a",
        "100.64.0.0/29",
        ClusterPolicy { endpoint_candidate_ttl_seconds: 30, ..policy() },
    );
    let mut peer = node_record("peer-a");
    peer.endpoint_candidates = vec![stale_candidate("peer-a"), candidate("peer-a")];
    let mut relay = node_record("relay-a");
    relay.endpoint_candidates = vec![stale_candidate("relay-a"), candidate("relay-a")];
    relay.relay_capability =
        Some(RelayCapability { enabled_by_policy: true, ..relay_capability() });
    for node in [node_record("source"), peer, relay] {
        plane.store.insert_node(node).unwrap();
    }
    plane.store.upsert_health(id("relay-a"), health(HealthState::Healthy, NOW));

    let peer_map = plane.peer_map_for(&id("source")).unwrap();
    let peer = peer_map.peers.iter().find(|peer| text(&peer.node_id) == "peer-a").unwrap();
    assert_eq!(peer.endpoint_candidates.len(), 1);
    assert_eq!(peer.endpoint_candidates[0].observed_at, NOW);

    let registered =
        plane.register_with_claims(claims("cluster-a"), registration_request("node-b")).unwrap();
    let relay = registered
        .relay_map
        .relays
        .iter()
        .find(|relay| text(&relay.node_id) == "relay-a")
        .unwrap();
    assert_eq!(relay.endpoint_candidates.len(), 1);

    let metrics = plane.metrics().unwrap();
    assert_eq!(metrics.stale_endpoint_candidate_count, 2);
    assert_eq!(metrics.endpoint_candidate_ttl_seconds, 30);
}

#[test]
fn peer_map_filters_unusable_endpoint_candidates() {
    let mut plane = Plane::new("cluster-a", "100.64.0.0/29");
    let mut peer = node_record("peer-a");
    peer.endpoint_candidates = vec![
        candidate_at("peer-a", "203.0.113.10", 0, false),
        candidate_at("peer-a", "0.0.0.0", 51820, false),
        candidate_at("peer-a", "224.0.0.1", 51820, false),
        candidate_at("peer-a", "255.255.255.255", 51820, false),
        candidate_at("peer-a", "198.51.100.20", 51820, true),
    ];
    let mut relay = node_record("relay-a");
    relay.endpoint_candidates = vec![
        candidate_at("relay-a", "::", 51820, false),
        candidate_at("relay-a", "ff02::1", 51820, false),
        candidate_at("relay-a", "198.51.100.30", 51820, true),
    ];
    relay.relay_capability =
        Some(RelayCapability { enabled_by_policy: true, ..relay_capability() });
    for node in [node_record("source"), peer, relay] {
        plane.store.insert_node(node).unwrap();
    }
    plane.store.upsert_health(id("relay-a"), health(HealthState::Healthy, NOW));

    let addresses = |node: &NodeRecord| {
        node.endpoint_candidates.iter().map(|c| c.endpoint.addr).collect::<Vec<_>>()
    };
    let peer_map = plane.peer_map_for(&id("source")).unwrap();
    let peer = peer_map.peers.iter().find(|peer| text(&peer.node_id) == "peer-a").unwrap();
    assert_eq!(addresses(peer), vec![SocketAddr { ip: ip("198.51.100.20"), port: 51820 }]);

    let registered =
        plane.register_with_claims(claims("cluster-a"), registration_request("node-b")).unwrap();
    let relay = registered
        .relay_map
        .relays
        .iter()
        .find(|relay| text(&relay.node_id) == "relay-a")
        .unwrap();
    assert_eq!(addresses(relay), vec![SocketAddr { ip: ip("198.51.100.30"), port: 51820 }]);
}

#[test]
fn path_status_and_metrics_filter_stale_path_state() {
    let mut plane = Plane::with_policy(
        "cluster-a",
        "100.64.0.0/29",
        ClusterPolicy { path_state_ttl_seconds: 30, ..policy() },
    );
    for name in ["source", "fresh-peer", "stale-peer"] {
        plane.store.insert_node(node_record(name)).unwrap();
    }
    plane.store.upsert_path(path("source", "fresh-peer"));
    plane
        .store
        .upsert_path(PathRecord { updated_at: after(-31), ..path("source", "stale-peer") });

    let paths = plane.paths_for(&id("source")).unwrap();
    assert_eq!(paths.paths.len(), 1);
    assert_eq!(text(&paths.paths[0].key.remote), "fresh-peer");
    assert_eq!(paths.stale_path_count, 1);
    assert_eq!(paths.path_state_ttl_seconds, 30);

    let metrics = plane.metrics().unwrap();
    assert_eq!(metrics.path_count, 1);
    assert_eq!(metrics.stale_path_count, 1);
    assert_eq!(metrics.path_state_ttl_seconds, 30);
    assert_eq!(metrics.path_state_counts.len(), 5);
    let count = |state: PathState| {
        metrics.path_state_counts.iter().find(|c| c.state == state).map(|c| c.count)
    };
    assert_eq!(count(PathState::DirectNatTraversal), Some(1));
    assert_eq!(count(PathState::Relay), Some(0));
}

fn plane_with(registered: &[&str]) -> Plane {
    let mut plane = Plane::new("cluster-h", "100.64.0.0/29");
    for name in registered {
        plane.register_with_claims(claims("cluster-h"), registration_request(name)).unwrap();
    }
    plane
}

fn reporting(name: &str, paths: Vec<PathRecord>) -> HeartbeatRequest {
    HeartbeatRequest { path_state: paths, ..heartbeat_of(name) }
}

fn register_relay(plane: &mut Plane, tags: &[&str]) {
    let mut relay_claims = claims("cluster-h");
    relay_claims.policy.allow_relay = true;
    for tag in tags {
        relay_claims.tags.insert(tag.to_string());
    }
    let mut request = registration_request("relay-a");
    request.relay_capability = Some(relay_capability());
    plane.register_with_claims(relay_claims, request).unwrap();
}

fn relay_heartbeat(signed_at: Timestamp) -> HeartbeatRequest {
    let mut request = heartbeat_at("relay-a", signed_at);
    request.health.latency_ms = Some(float(1.0));
    request.health.relay_load = Some(float(0.1));
    request.relay_capability = Some(relay_capability());
    request
}

#[test]
fn heartbeat_records_health_candidates_and_paths() {
    let mut plane = plane_with(&["node-a", "node-b"]);
    let mut first = reporting("node-a", vec![path("node-a", "node-b")]);
    first.health.latency_ms = Some(float(12.0));
    first.health.message = Some("ok".to_string());
    first.candidates = vec![candidate("node-a")];
    assert!(plane.heartbeat(first).unwrap().accepted);
    assert_eq!(plane.store.get_node(&id("node-a")).unwrap().endpoint_candidates.len(), 1);
    let stored = plane.store.get_health(&id("node-a")).unwrap();
    assert_eq!(stored.state, HealthState::Healthy);
    assert_eq!(stored.latency_ms, Some(float(12.0)));
    assert_eq!(stored.message.as_deref(), Some("ok"));
    assert_eq!(stored.last_seen_at, NOW);
    assert_eq!(plane.store.get_heartbeat_signature_timestamp(&id("node-a")), Some(NOW));
    assert_eq!(plane.store.list_paths_for(&id("node-a")).len(), 1);

    let mut second = heartbeat_at("node-a", after(1));
    second.health.latency_ms = Some(float(9.0));
    second.health.message = Some("idle".to_string());
    assert!(plane.heartbeat(second).unwrap().accepted);
    let stored = plane.store.get_health(&id("node-a")).unwrap();
    assert_eq!(stored.latency_ms, Some(float(9.0)));
    assert_eq!(stored.message.as_deref(), Some("idle"));
    assert_eq!(plane.store.get_heartbeat_signature_timestamp(&id("node-a")), Some(after(1)));
    assert!(plane.store.list_paths_for(&id("node-a")).is_empty());
}

#[test]
fn heartbeat_publishes_signed_node_service_lease() {
    let mut plane = Plane::new("cluster-h", "100.64.0.0/29");
    let mut relay_claims = claims("cluster-h");
    relay_claims.policy.allow_relay = true;
    plane.register_with_claims(relay_claims, registration_request("service-node")).unwrap();

    let literal = |kind: BootstrapEndpointKind, scheme: &str, address: &str, port: u16| {
        let addr = SocketAddr { ip: ip(address), port };
        BootstrapEndpoint {
            literal_http: if scheme == "http" { Some(addr) } else { None },
            literal_udp: if scheme == "udp" { Some(addr) } else { None },
            ..endpoint(kind, &format!("{scheme}://{address}:{port}"))
        }
    };
    let relay = RelayCapability {
        public_endpoint: Some(public("8.8.8.8", 18_445)),
        admission_url: Some("http://100.64.0.1:18447".to_string()),
        ..relay_capability()
    };
    let offering = |signed_at: Timestamp, hostname: Option<&str>, endpoints: Vec<BootstrapEndpoint>| {
        let mut request = heartbeat_at("service-node", signed_at);
        request.health.last_seen_at = NOW;
        request.health.latency_ms = Some(float(1.0));
        request.health.relay_load = Some(float(0.0));
        request.candidates =
            vec![EndpointCandidate { priority: 100, ..public_candidate("service-node", "8.8.8.8", 10) }];
        request.nat_classification = Some(classification("8.8.8.8", "8.8.8.8", Some("8.8.8.8")));
        request.relay_capability = Some(relay.clone());
        request.service_advertisement = Some(NodeServiceAdvertisement {
            hostname: hostname.map(str::to_string),
            endpoints,
        });
        request
    };
    plane
        .heartbeat(offering(
            NOW,
            Some("service-host"),
            vec![
                literal(BootstrapEndpointKind::Signal, "http", "100.64.0.1", 19443),
                literal(BootstrapEndpointKind::Stun, "udp", "8.8.8.8", 19444),
                literal(BootstrapEndpointKind::Relay, "udp", "8.8.8.8", 18445),
            ],
        ))
        .unwrap();

    let directory = plane.service_directory().unwrap();
    assert_eq!(directory.instances.len(), 1);
    assert_eq!(
        directory.instances[0].instance_id,
        heartbeat_service_instance_id(&id("service-node"))
    );
    assert_eq!(directory.instances[0].endpoints.len(), 3);
    assert_eq!(
        plane.list_nodes()
            .into_iter()
            .find(|node| text(&node.node_id) == "service-node")
            .and_then(|node| node.hostname),
        Some("service-host".to_string())
    );

    let rejected_signal = plane.heartbeat(offering(
        Timestamp { seconds: NOW.seconds, nanos: 1_000_000 },
        None,
        vec![literal(BootstrapEndpointKind::Signal, "http", "100.64.0.2", 19443)],
    ));
    assert!(update_rejected(&rejected_signal, &["does not match node VPN IP"]));

    let mut stun = offering(
        Timestamp { seconds: NOW.seconds, nanos: 2_000_000 },
        None,
        vec![literal(BootstrapEndpointKind::Stun, "udp", "1.1.1.1", 19444)],
    );
    stun.relay_capability = None;
    assert!(update_rejected(&plane.heartbeat(stun), &["does not match classified public IP"]));
}

#[test]
fn heartbeat_rejects_invalid_health_before_persistence() {
    let mut plane = plane_with(&["node-a"]);
    let base = heartbeat_of("node-a").health;
    let cases = [
        (NodeHealth { last_seen_at: after(301), ..base.clone() }, "last_seen_at"),
        (NodeHealth { latency_ms: Some(float(-1.0)), ..base.clone() }, "latency_ms"),
        (NodeHealth { relay_load: Some(float(1.1)), ..base }, "relay_load"),
    ];
    for (health, expected) in cases {
        let request = HeartbeatRequest { health, ..heartbeat_of("node-a") };
        assert!(update_rejected(&plane.heartbeat(request), &[expected]));
        assert!(plane.store.get_health(&id("node-a")).is_none());
    }
}

fn routed_plane() -> Plane {
    let mut plane = Plane::new("cluster-h", "100.64.0.0/29");
    let mut claims = claims("cluster-h");
    claims.policy.allowed_routes = vec![cidr("10.42.0.0/16")];
    plane.register_with_claims(claims, registration_request("node-a")).unwrap();
    plane
}

fn announcing(routes: Vec<Route>) -> HeartbeatRequest {
    HeartbeatRequest { routes: Some(routes), ..heartbeat_of("node-a") }
}

#[test]
fn heartbeat_updates_routes_when_policy_allows() {
    let mut plane = routed_plane();
    let announced = route("route-a", "10.42.1.0/24", "node-a");
    plane.heartbeat(announcing(vec![announced.clone()])).unwrap();
    assert_eq!(plane.store.get_node(&id("node-a")).unwrap().routes, vec![announced.clone()]);

    plane.heartbeat(heartbeat_at("node-a", after(1))).unwrap();
    assert_eq!(plane.store.get_node(&id("node-a")).unwrap().routes, vec![announced]);
}

#[test]
fn heartbeat_rejects_routes_outside_configured_overlay_scopes() {
    let mut plane = Plane::with_policy(
        "cluster-h",
        "100.64.0.0/29",
        ClusterPolicy { overlay_route_scopes: vec![cidr("10.42.0.0/16")], ..policy() },
    );
    let mut claims = claims("cluster-h");
    claims.policy.allowed_routes = vec![cidr("10.0.0.0/8")];
    plane.register_with_claims(claims, registration_request("node-a")).unwrap();
    assert!(update_rejected(
        &plane.heartbeat(announcing(vec![route("outside-scope", "10.43.1.0/24", "node-a")])),
        &["not fully contained"]
    ));
    assert!(plane.store.get_node(&id("node-a")).unwrap().routes.is_empty());
}

#[test]
fn heartbeat_rejects_routes_outside_token_policy() {
    let mut plane = routed_plane();
    assert!(matches!(
        plane.heartbeat(announcing(vec![route("route-denied", "10.43.1.0/24", "node-a")])),
        Err(ControlPlaneError::RouteDenied { route_id }) if route_id == "route-denied"
    ));
}

#[test]
fn heartbeat_rejects_routes_advertised_by_other_nodes() {
    let mut plane = routed_plane();
    assert!(update_rejected(
        &plane.heartbeat(announcing(vec![route("route-unowned", "10.42.1.0/24", "node-b")])),
        &["route route-unowned is advertised by node"]
    ));
}

#[test]
fn heartbeat_rejects_invalid_route_shape_before_persistence() {
    let mut plane = routed_plane();
    let zero_metric =
        Route { metric: 0, ..route("route-zero-metric", "10.42.1.0/24", "node-a") };
    assert!(update_rejected(
        &plane.heartbeat(announcing(vec![zero_metric])),
        &["route route-zero-metric metric must be greater than zero"]
    ));
    assert!(plane.store.get_node(&id("node-a")).unwrap().routes.is_empty());
}

#[test]
fn heartbeat_rejects_replayed_node_signature() {
    let mut plane = plane_with(&["node-a"]);
    let request = |_: ()| {
        let mut request = heartbeat_at("node-a", after(-120));
        request.health.last_seen_at = after(-150);
        request.health.latency_ms = Some(float(8.0));
        request.candidates = vec![candidate("node-a")];
        request
    };
    plane.heartbeat(request(())).unwrap();
    let accepted = plane.store.get_health(&id("node-a")).unwrap();
    assert_eq!(accepted.last_seen_at, NOW);
    assert_eq!(plane.store.get_heartbeat_signature_timestamp(&id("node-a")), Some(after(-120)));
    let (_, snapshot) = plane.snapshot().unwrap();
    assert!(snapshot.active_nodes.iter().any(|node| text(&node.node_id) == "node-a"));

    assert!(matches!(
        plane.heartbeat(request(())),
        Err(ControlPlaneError::NodeSignatureRejected { .. })
    ));
}

#[test]
fn heartbeat_requires_valid_node_signature() {
    let mut plane = plane_with(&["node-a"]);
    let unsigned = HeartbeatRequest { signed_at: None, ..heartbeat_of("node-a") };
    assert!(matches!(
        plane.heartbeat(unsigned),
        Err(ControlPlaneError::NodeSignatureRequired { .. })
    ));
    let findings = HeartbeatFindings {
        signature_fault: Some("signature mismatch".to_string()),
        ..no_findings()
    };
    assert!(matches!(
        plane.heartbeat_found(heartbeat_of("node-a"), findings),
        Err(ControlPlaneError::NodeSignatureRejected { .. })
    ));
}

#[test]
fn heartbeat_rejects_updates_for_other_nodes() {
    let mut plane = plane_with(&["node-a"]);
    let request =
        HeartbeatRequest { candidates: vec![candidate("node-b")], ..heartbeat_of("node-a") };
    assert!(update_rejected(&plane.heartbeat(request), &[]));
    assert!(update_rejected(
        &plane.heartbeat(reporting("node-a", vec![path("node-b", "node-c")])),
        &[]
    ));
}

#[test]
fn heartbeat_rejects_path_state_with_unowned_selected_candidate() {
    let mut plane = plane_with(&["node-a"]);
    let mut reported = path("node-a", "node-b");
    reported.selected_candidate = Some(candidate("node-c"));
    assert!(update_rejected(
        &plane.heartbeat(reporting("node-a", vec![reported])),
        &["selected candidate belongs to node", "instead of path peer"]
    ));
}

#[test]
fn heartbeat_rejects_direct_path_state_with_wrong_candidate_kind() {
    let mut plane = plane_with(&["node-a"]);
    let mut reported = path("node-a", "node-b");
    reported.selected_state = PathState::DirectPublic;
    reported.selected_candidate = Some(candidate("node-b"));
    reported.selected_kind_allowed = false;
    assert!(update_rejected(
        &plane.heartbeat(reporting("node-a", vec![reported])),
        &["selected state DirectPublic", "selected candidate kind StunReflexive"]
    ));
    assert!(plane.store.list_paths_for(&id("node-a")).is_empty());
}

#[test]
fn heartbeat_rejects_duplicate_path_state_before_persistence() {
    let mut plane = plane_with(&["node-a"]);
    assert!(update_rejected(
        &plane.heartbeat(reporting(
            "node-a",
            vec![path("node-a", "node-b"), path("node-a", "node-b")]
        )),
        &["is repeated in heartbeat path_state"]
    ));
    assert!(plane.store.list_paths_for(&id("node-a")).is_empty());
}

#[test]
fn heartbeat_rejects_unbounded_path_state_before_persistence() {
    let mut plane = plane_with(&["node-a"]);
    let paths = (0..=MAX_HEARTBEAT_PATH_STATES).map(|_| path("node-a", "node-b")).collect();
    assert!(update_rejected(
        &plane.heartbeat(reporting("node-a", paths)),
        &["heartbeat path_state contains 4097 entries", "maximum is 4096"]
    ));
    assert_eq!(plane.store.get_health(&id("node-a")), None);
    assert!(plane.store.list_paths_for(&id("node-a")).is_empty());
}

#[test]
fn heartbeat_rejects_path_state_for_unregistered_peer_before_persistence() {
    let mut plane = plane_with(&["node-a"]);
    assert!(update_rejected(
        &plane.heartbeat(reporting("node-a", vec![path("node-a", "node-b")])),
        &["remote node is not registered"]
    ));
    assert!(plane.store.list_paths_for(&id("node-a")).is_empty());
}

fn ruled_plane(first: AclRule, second: AclRule) -> Plane {
    Plane::with_policy(
        "cluster-h",
        "100.64.0.0/29",
        ClusterPolicy { acl_rules: vec![first, second], ..policy() },
    )
}

fn tag_rule(rule_id: &str, tag: &str, action: AclAction) -> AclRule {
    AclRule { to_tags: names(&[tag]), ..rule(rule_id, action) }
}

#[test]
fn heartbeat_rejects_path_state_hidden_by_acl_before_persistence() {
    let mut plane = ruled_plane(
        tag_rule("deny-hidden-peer", "hidden-peer", AclAction::Deny),
        rule("allow-other-peers", AclAction::Allow),
    );
    plane.register_with_claims(claims("cluster-h"), registration_request("node-a")).unwrap();
    let mut hidden = claims("cluster-h");
    hidden.tags.insert("hidden-peer".to_string());
    plane.register_with_claims(hidden, registration_request("node-b")).unwrap();
    assert!(update_rejected(
        &plane.heartbeat(reporting("node-a", vec![path("node-a", "node-b")])),
        &["remote node is not visible"]
    ));
    assert!(plane.store.list_paths_for(&id("node-a")).is_empty());
}

#[test]
fn heartbeat_policy_generation_remains_bound_after_cache_is_replaced() {
    let acquired = ClusterPolicy {
        acl_rules: vec![
            tag_rule("deny-hidden", "hidden", AclAction::Deny),
            rule("allow-visible", AclAction::Allow),
        ],
        ..policy()
    };
    let reporter = node_record("node-a");
    let visible_peer = node_record("node-b");
    let mut hidden_relay = node_record("relay-a");
    hidden_relay.tags = names(&["hidden"]);
    hidden_relay.relay_capability =
        Some(RelayCapability { enabled_by_policy: true, ..relay_capability() });
    let nodes = vec![reporter.clone(), visible_peer, hidden_relay];

    let hidden_peer = reporting("node-a", vec![path("node-a", "relay-a")]);
    assert!(update_rejected(
        &validate_heartbeat_path_peers_visible(&hidden_peer, &reporter, &nodes, &acquired),
        &["is not visible"]
    ));

    let relayed = reporting("node-a", vec![relay_path("node-a", "node-b", Some("relay-a"))]);
    validate_heartbeat_path_peers_visible(&relayed, &reporter, &nodes, &acquired).unwrap();
    let mut health_by_node = OrderedMap::new();
    health_by_node.insert(id("relay-a"), health(HealthState::Healthy, NOW));
    assert!(update_rejected(
        &validate_heartbeat_path_relay_eligibility(
            &relayed,
            &reporter,
            &nodes,
            &health_by_node,
            NOW,
            &acquired,
        ),
        &["is not visible"]
    ));
}

#[test]
fn heartbeat_rejects_future_path_state_before_persistence() {
    let mut plane = plane_with(&["node-a"]);
    let reported = PathRecord { updated_at: after(301), ..path("node-a", "node-b") };
    assert!(update_rejected(
        &plane.heartbeat(reporting("node-a", vec![reported])),
        &["updated_at", "too far in the future"]
    ));
    assert!(plane.store.list_paths_for(&id("node-a")).is_empty());
}

#[test]
fn heartbeat_rejects_invalid_path_score_before_persistence() {
    let mut plane = plane_with(&["node-a"]);
    let scored = |value: f32, reasons: Vec<String>| PathRecord {
        score: PathScore { value: float(value), reasons },
        ..path("node-a", "node-b")
    };
    let too_many =
        (0..=plane.limits.max_path_score_reasons).map(|index| format!("r{index}")).collect();
    let cases = [
        (
            scored(f32::INFINITY, vec!["state=DirectNatTraversal".to_string()]),
            "positive infinity",
        ),
        (scored(f32::NEG_INFINITY, Vec::new()), "negative-infinity score"),
        (scored(0.5, too_many), "score reasons must not exceed"),
        (
            scored(0.5, vec!["x".repeat(MAX_PATH_SCORE_REASON_BYTES + 1)]),
            "score reason must not exceed",
        ),
        (scored(0.5, vec!["bad\nreason".to_string()]), "control characters"),
    ];
    for (reported, expected) in cases {
        assert!(update_rejected(
            &plane.heartbeat(reporting("node-a", vec![reported])),
            &[expected]
        ));
        assert!(plane.store.list_paths_for(&id("node-a")).is_empty());
    }
}

fn selecting(candidate: EndpointCandidate) -> HeartbeatRequest {
    let mut reported = path("node-a", "node-b");
    reported.selected_candidate = Some(candidate);
    reporting("node-a", vec![reported])
}

#[test]
fn heartbeat_rejects_path_state_with_future_selected_candidate() {
    let mut plane = plane_with(&["node-a"]);
    let future = EndpointCandidate { observed_at: after(301), ..candidate("node-b") };
    assert!(update_rejected(
        &plane.heartbeat(selecting(future)),
        &["selected candidate", "observed_at", "too far in the future"]
    ));
    assert!(plane.store.list_paths_for(&id("node-a")).is_empty());
}

#[test]
fn heartbeat_rejects_path_state_with_stale_selected_candidate() {
    let mut plane = plane_with(&["node-a", "node-b"]);
    let stale = EndpointCandidate { observed_at: after(-31), ..candidate("node-b") };
    assert!(update_rejected(
        &plane.heartbeat(selecting(stale)),
        &["selected candidate", "is stale"]
    ));
    assert!(plane.store.list_paths_for(&id("node-a")).is_empty());
}

#[test]
fn heartbeat_rejects_path_state_with_invalid_selected_candidate_address() {
    let mut plane = plane_with(&["node-a"]);
    assert!(update_rejected(
        &plane.heartbeat(selecting(invalid_ipv6_candidate("node-b"))),
        &["IPv6 candidates must use"]
    ));
}

#[test]
fn heartbeat_rejects_path_state_with_unusable_selected_candidate() {
    let mut plane = plane_with(&["node-a"]);
    assert!(update_rejected(
        &plane.heartbeat(selecting(candidate_at("node-b", "203.0.113.10", 0, false))),
        &["selected candidate", "is unusable"]
    ));
}

#[test]
fn heartbeat_rejects_relay_path_without_relay_node() {
    let mut plane = plane_with(&["node-a"]);
    assert!(update_rejected(
        &plane.heartbeat(reporting("node-a", vec![relay_path("node-a", "node-b", None)])),
        &["is missing relay node"]
    ));
}

#[test]
fn heartbeat_rejects_relay_path_with_direct_selected_candidate() {
    let mut plane = plane_with(&["node-a"]);
    let mut reported = relay_path("node-a", "node-b", Some("relay-a"));
    reported.selected_candidate = Some(candidate("node-b"));
    assert!(update_rejected(
        &plane.heartbeat(reporting("node-a", vec![reported])),
        &["must not carry a direct selected candidate"]
    ));
}

#[test]
fn heartbeat_rejects_unreachable_path_with_selected_candidate() {
    let mut plane = plane_with(&["node-a"]);
    let mut reported = path("node-a", "node-b");
    reported.selected_state = PathState::Unreachable;
    reported.selected_candidate = Some(candidate("node-b"));
    assert!(update_rejected(
        &plane.heartbeat(reporting("node-a", vec![reported])),
        &["must not carry a selected candidate"]
    ));
}

#[test]
fn heartbeat_rejects_relay_path_with_ineligible_relay_node() {
    let mut plane = Plane::new("cluster-h", "100.64.0.0/29");
    register_relay(&mut plane, &[]);
    for name in ["node-a", "node-b"] {
        plane.register_with_claims(claims("cluster-h"), registration_request(name)).unwrap();
    }
    assert!(update_rejected(
        &plane.heartbeat(reporting(
            "node-a",
            vec![relay_path("node-a", "node-b", Some("relay-a"))]
        )),
        &["is not an eligible relay candidate"]
    ));
}

#[test]
fn heartbeat_rejects_relay_path_using_endpoint_as_relay() {
    let mut plane = plane_with(&["node-a"]);
    assert!(update_rejected(
        &plane.heartbeat(reporting(
            "node-a",
            vec![relay_path("node-a", "node-b", Some("node-a"))]
        )),
        &["uses endpoint"]
    ));
}

fn with_relay(mut plane: Plane, tags: &[&str]) -> Plane {
    register_relay(&mut plane, tags);
    plane.heartbeat(relay_heartbeat(NOW)).unwrap();
    for name in ["node-a", "node-b"] {
        plane.register_with_claims(claims("cluster-h"), registration_request(name)).unwrap();
    }
    plane
}

#[test]
fn heartbeat_rejects_relay_path_hidden_by_acl() {
    let mut plane = with_relay(
        ruled_plane(
            tag_rule("deny-relay", "relay-hidden", AclAction::Deny),
            rule("allow-other-peers", AclAction::Allow),
        ),
        &["relay-hidden"],
    );
    assert!(update_rejected(
        &plane.heartbeat(reporting(
            "node-a",
            vec![relay_path("node-a", "node-b", Some("relay-a"))]
        )),
        &["is not visible"]
    ));
}

#[test]
fn heartbeat_records_relay_path_visible_by_acl() {
    let mut plane = with_relay(
        ruled_plane(
            tag_rule("allow-relay", "relay-visible", AclAction::Allow),
            tag_rule("allow-edge-peer", "edge", AclAction::Allow),
        ),
        &["relay-visible"],
    );
    let response = plane
        .heartbeat(reporting("node-a", vec![relay_path("node-a", "node-b", Some("relay-a"))]))
        .unwrap();
    assert!(response.accepted);
    let paths = plane.store.list_paths_for(&id("node-a"));
    assert_eq!(paths.len(), 1);
    assert_eq!(paths[0].relay_node.as_ref().map(text), Some("relay-a"));
}

#[test]
fn heartbeat_records_relay_path_with_eligible_relay_node() {
    let mut plane = with_relay(Plane::new("cluster-h", "100.64.0.0/29"), &[]);
    let response = plane
        .heartbeat(reporting("node-a", vec![relay_path("node-a", "node-b", Some("relay-a"))]))
        .unwrap();
    assert!(response.accepted);
    let paths = plane.store.list_paths_for(&id("node-a"));
    assert_eq!(paths.len(), 1);
    assert_eq!(paths[0].selected_state, PathState::Relay);
    assert_eq!(paths[0].relay_node.as_ref().map(text), Some("relay-a"));
}

#[test]
fn heartbeat_rejects_non_relay_path_with_relay_node() {
    let mut plane = plane_with(&["node-a"]);
    let mut reported = path("node-a", "node-b");
    reported.relay_node = Some(id("relay-a"));
    assert!(update_rejected(
        &plane.heartbeat(reporting("node-a", vec![reported])),
        &["non-relay path"]
    ));
}

#[test]
fn heartbeat_rejects_invalid_candidate_kind_addresses() {
    let mut plane = plane_with(&["node-a"]);
    let request = HeartbeatRequest {
        candidates: vec![invalid_ipv6_candidate("node-a")],
        ..heartbeat_of("node-a")
    };
    assert!(update_rejected(&plane.heartbeat(request), &["IPv6 candidates must use"]));
}

#[test]
fn heartbeat_rejects_future_endpoint_candidate_before_persistence() {
    let mut plane = plane_with(&["node-a"]);
    let request = HeartbeatRequest {
        candidates: vec![EndpointCandidate { observed_at: after(301), ..candidate("node-a") }],
        ..heartbeat_of("node-a")
    };
    assert!(update_rejected(
        &plane.heartbeat(request),
        &["observed_at", "too far in the future"]
    ));
    assert!(plane.store.get_node(&id("node-a")).unwrap().endpoint_candidates.is_empty());
}

fn relaying_plane() -> Plane {
    let mut plane = Plane::new("cluster-h", "100.64.0.0/29");
    let mut claims = claims("cluster-h");
    claims.policy.allow_relay = true;
    plane.register_with_claims(claims, registration_request("node-a")).unwrap();
    plane
}

#[test]
fn heartbeat_updates_relay_capability_when_policy_allows() {
    let mut plane = relaying_plane();
    let mut request = heartbeat_of("node-a");
    request.health.relay_load = Some(float(0.25));
    request.relay_capability =
        Some(RelayCapability { active_sessions: 7, ..relay_capability() });
    assert!(plane.heartbeat(request).unwrap().accepted);
    let relay = plane.store.get_node(&id("node-a")).unwrap().relay_capability.unwrap();
    assert!(relay.enabled_by_policy);
    assert_eq!(relay.active_sessions, 7);
}

#[test]
fn heartbeat_clears_relay_capability_when_not_reported() {
    let mut plane = Plane::new("cluster-h", "100.64.0.0/29");
    register_relay(&mut plane, &[]);
    plane.heartbeat(relay_heartbeat(NOW)).unwrap();
    assert_eq!(plane.metrics().unwrap().relay_candidate_count, 1);

    let mut stopped = heartbeat_at("relay-a", after(1));
    stopped.health.message = Some("relay stopped".to_string());
    plane.heartbeat(stopped).unwrap();
    assert!(plane.store.get_node(&id("relay-a")).unwrap().relay_capability.is_none());
    assert_eq!(plane.metrics().unwrap().relay_candidate_count, 0);

    let registered =
        plane.register_with_claims(claims("cluster-h"), registration_request("node-a")).unwrap();
    assert!(registered.relay_map.relays.is_empty());
}

#[test]
fn heartbeat_rejects_relay_capability_when_policy_denies() {
    let mut plane = plane_with(&["node-a"]);
    let request = HeartbeatRequest {
        relay_capability: Some(relay_capability()),
        ..heartbeat_of("node-a")
    };
    assert!(matches!(plane.heartbeat(request), Err(ControlPlaneError::RelayDenied)));
}

#[test]
fn heartbeat_rejects_invalid_relay_capability_shape() {
    let mut plane = relaying_plane();
    let request = HeartbeatRequest {
        relay_capability: Some(RelayCapability {
            admission_url: Some("http://0.0.0.0:9580".to_string()),
            admission_url_usable: false,
            ..relay_capability()
        }),
        ..heartbeat_of("node-a")
    };
    assert!(update_rejected(&plane.heartbeat(request), &["relay admission URL"]));
    assert!(plane.store.get_node(&id("node-a")).unwrap().relay_capability.is_none());
}

#[test]
fn token_admission_enforces_max_uses_and_revocation() {
    let token_claims = claims("cluster-t");
    let mut admission = TokenAdmission::new(InMemoryTokenLedger::new());
    admission.issue_from_claims(&token_claims, NOW).unwrap();
    assert_eq!(admission.admit_join(&token_claims, NOW).unwrap().uses, 1);
    assert_eq!(admission.issue_from_claims(&token_claims, NOW).unwrap().uses, 1);
    assert!(matches!(
        admission.admit_join(&token_claims, NOW),
        Err(ControlPlaneError::TokenRejected { status: TokenStatus::Exhausted, .. })
    ));

    let mut conflicting = token_claims.clone();
    conflicting.policy.allowed_routes = vec![cidr("10.42.0.0/16")];
    assert!(matches!(
        admission.admit_join(&conflicting, NOW),
        Err(ControlPlaneError::TokenVerification { .. })
    ));

    let mut revoked = claims("cluster-t");
    revoked.nonce = "revoked".to_string();
    admission.issue_from_claims(&revoked, NOW).unwrap();
    admission.revoke_token(TokenRevocationRecord {
        cluster_id: revoked.cluster_id.clone(),
        nonce: revoked.nonce.clone(),
        issuer: revoked.issuer.clone(),
        key_id: revoked.key_id.clone(),
        revoked_at: NOW,
    });
    assert!(matches!(
        admission.admit_join(&revoked, NOW),
        Err(ControlPlaneError::TokenRejected { status: TokenStatus::Revoked, .. })
    ));
}

type Service = ControlPlaneJoinService<InMemoryTokenLedger>;

fn key(name: &str) -> KeyId {
    KeyId::from_string(name.to_string())
}

fn join_service(issuers: &[(&str, &str)]) -> Service {
    let mut ring = IssuerKeyRing::new();
    for (issuer, key_id) in issuers {
        ring.insert(id(issuer), key(key_id), format!("public-{issuer}"));
    }
    ControlPlaneJoinService::new(InMemoryTokenLedger::new(), ring)
}

fn claims_for_issuer(cluster_id: &str, issuer: &str, key_id: &str, nonce: &str) -> JoinTokenClaims {
    JoinTokenClaims {
        issuer: id(issuer),
        key_id: key(key_id),
        nonce: nonce.to_string(),
        ..claims(cluster_id)
    }
}

fn sound() -> TokenFindings {
    TokenFindings { shape_fault: None, signature_fault: None }
}

fn join(
    service: &mut Service,
    plane: &mut Plane,
    claims: &JoinTokenClaims,
    findings: &TokenFindings,
    name: &str,
) -> Outcome<RegisterNodeResponse> {
    let request = registration_request(name);
    let keys = key_findings(&request.identity_public_key, &request.wireguard_public_key);
    service.join(&mut plane.plane, claims, findings, &request, &keys, plane.now)
}

#[test]
fn join_service_verifies_token_and_registers_node() {
    let mut plane = Plane::new("cluster-j", "100.64.0.0/29");
    let mut service = join_service(&[("issuer", "root")]);
    let token = claims_for_issuer("cluster-j", "issuer", "root", "join-service-valid");
    let response = join(&mut service, &mut plane, &token, &sound(), "node-a").unwrap();
    assert_eq!(text(&response.node.node_id), "node-a");
    assert_eq!(response.node.vpn_ip, ip("100.64.0.1"));
}

#[test]
fn join_service_validates_claim_shape_before_issuer_lookup() {
    let mut plane = Plane::new("cluster-j", "100.64.0.0/29");
    let mut service = join_service(&[("issuer", "root")]);
    let issuer = "x".repeat(256);
    let token = claims_for_issuer("cluster-j", &issuer, "root", "join-service-invalid-shape");
    let findings = TokenFindings {
        shape_fault: Some("issuer node ID exceeds 255 bytes".to_string()),
        signature_fault: None,
    };
    let result = join(&mut service, &mut plane, &token, &findings, "node-a");
    assert!(matches!(
        result,
        Err(ControlPlaneError::TokenVerification { reason })
            if reason.contains("issuer node ID exceeds 255 bytes")
    ));
}

#[test]
fn join_service_accepts_overlapping_issuer_keys_for_rotation() {
    let mut plane = Plane::new("cluster-j", "100.64.0.0/29");
    let mut service = join_service(&[("old-issuer", "root"), ("next-issuer", "root-next")]);
    let old = claims_for_issuer("cluster-j", "old-issuer", "root", "old-issuer-token");
    let next = claims_for_issuer("cluster-j", "next-issuer", "root-next", "next-issuer-token");
    let old = join(&mut service, &mut plane, &old, &sound(), "node-old").unwrap();
    let next = join(&mut service, &mut plane, &next, &sound(), "node-next").unwrap();
    assert_eq!(text(&old.node.node_id), "node-old");
    assert_eq!(text(&next.node.node_id), "node-next");
}

fn node_enrollment_claims() -> JoinTokenClaims {
    let mut enrollment = claims_for_issuer("cluster-j", "issuer", "web-enrollment", "valid-enrollment");
    enrollment.bootstrap_endpoints = vec![
        endpoint(BootstrapEndpointKind::ControlPlane, "https://203.0.113.10:8443"),
        endpoint(BootstrapEndpointKind::ControlPlane, "https://203.0.113.11:8443"),
        endpoint(BootstrapEndpointKind::Signal, "https://203.0.113.10:9443"),
        endpoint(BootstrapEndpointKind::Signal, "https://203.0.113.11:9443"),
        endpoint(BootstrapEndpointKind::Stun, "udp://203.0.113.10:3478"),
        endpoint(BootstrapEndpointKind::Stun, "udp://203.0.113.11:3478"),
    ];
    enrollment.expires_at = after(3_600);
    enrollment.not_before = after(-i64::from(limits().join_token_not_before_skew_seconds));
    enrollment.policy.allowed_tags = names(&["edge"]);
    enrollment.policy.max_token_uses = Some(10);
    enrollment
}

#[test]
fn node_enrollment_issuer_key_is_limited_to_bounded_node_join_tokens() {
    let mut ring = IssuerKeyRing::new();
    ring.insert_node_enrollment_key(
        id("issuer"),
        key("web-enrollment"),
        "public-issuer".to_string(),
        3_600,
    );
    let mut service = ControlPlaneJoinService::new(InMemoryTokenLedger::new(), ring);
    let valid = node_enrollment_claims();
    service.validate_join_token(&valid, &sound(), &limits()).unwrap();

    let mut client = valid.clone();
    client.role = role("client");
    client.tags = NameSet::new();
    client.policy.allowed_tags = NameSet::new();
    client.policy.max_token_uses = Some(1);
    service.validate_join_token(&client, &sound(), &limits()).unwrap();

    let mut reusable_client = client.clone();
    reusable_client.policy.max_token_uses = Some(2);
    let mut tagged_client = client;
    tagged_client.tags = names(&["privileged"]);
    tagged_client.policy.allowed_tags = names(&["privileged"]);
    let mut elevated_role = valid.clone();
    elevated_role.role = role("control-plane");
    let mut unlimited = valid.clone();
    unlimited.policy.max_token_uses = None;
    let mut route_authority = valid.clone();
    route_authority.policy.allowed_routes = vec![cidr("10.42.0.0/16")];
    let mut no_ha = valid.clone();
    no_ha.bootstrap_endpoints.remove(1);
    let mut excessive_ttl = valid.clone();
    excessive_ttl.expires_at = after(7_200);
    let mut mismatched_tags = valid.clone();
    mismatched_tags.policy.allowed_tags = names(&["edge", "privileged"]);
    for (refused, expected) in [
        (reusable_client, "client tokens must be single-use"),
        (tagged_client, "client tokens must be single-use"),
        (elevated_role, "role is not allowed"),
        (unlimited, "token uses must be finite and bounded"),
        (route_authority, "route authorization is not allowed"),
        (no_ha, "HA bootstrap endpoints are required"),
        (excessive_ttl, "validity exceeds the configured maximum"),
        (mismatched_tags, "claim tags and allowed tags must match"),
    ] {
        let result = service.validate_join_token(&refused, &sound(), &limits());
        assert!(
            matches!(result, Err(error) if error.to_text().contains(expected)),
            "expected {expected}"
        );
    }

    let revocation = RevokeTokenRequest {
        cluster_id: cluster("cluster-j"),
        nonce: "root-issued-token".to_string(),
        issuer: id("issuer"),
        key_id: key("web-enrollment"),
        signed_at: Some(NOW),
    };
    let result = service.revoke_token(
        &revocation,
        &cluster("cluster-j"),
        &None,
        NOW,
        Span::from_secs(300),
    );
    assert!(matches!(
        result,
        Err(error) if error.to_text().contains("not authorized for token revocation")
    ));
}

#[test]
fn join_service_requires_fresh_trusted_issuer_signature_for_token_revocation() {
    let mut plane = Plane::new("cluster-j", "100.64.0.0/29");
    let mut service = join_service(&[("issuer", "root")]);
    let token = claims_for_issuer("cluster-j", "issuer", "root", "signed-revocation");
    join(&mut service, &mut plane, &token, &sound(), "node-revocation").unwrap();

    let request = |cluster_id: &str, issuer: &str, nonce: &str, signed_at: Option<Timestamp>| {
        RevokeTokenRequest {
            cluster_id: cluster(cluster_id),
            nonce: nonce.to_string(),
            issuer: id(issuer),
            key_id: key("root"),
            signed_at,
        }
    };
    let revoke = |service: &mut Service, request: RevokeTokenRequest, fault: Option<&str>| {
        service.revoke_token(
            &request,
            &cluster("cluster-j"),
            &fault.map(str::to_string),
            NOW,
            Span::from_secs(300),
        )
    };
    let nonce = "signed-revocation";
    assert!(matches!(
        revoke(&mut service, request("cluster-j", "issuer", nonce, None), None),
        Err(ControlPlaneError::TokenVerification { .. })
    ));
    assert!(matches!(
        revoke(&mut service, request("other-cluster", "issuer", nonce, Some(NOW)), None),
        Err(ControlPlaneError::TokenVerification { reason }) if reason.contains("cluster mismatch")
    ));
    assert!(matches!(
        revoke(&mut service, request("cluster-j", "untrusted-issuer", nonce, Some(NOW)), None),
        Err(ControlPlaneError::IssuerKeyNotFound { .. })
    ));
    assert!(matches!(
        revoke(&mut service, request("cluster-j", "issuer", nonce, Some(after(-301))), None),
        Err(ControlPlaneError::TokenVerification { reason })
            if reason.contains("outside the allowed 300s window")
    ));
    assert!(matches!(
        revoke(
            &mut service,
            request("cluster-j", "issuer", "tampered-revocation", Some(NOW)),
            Some("signature mismatch"),
        ),
        Err(ControlPlaneError::TokenVerification { .. })
    ));

    let revoked =
        revoke(&mut service, request("cluster-j", "issuer", nonce, Some(NOW)), None).unwrap();
    assert_eq!(revoked.record.map(|record| record.status(NOW)), Some(TokenStatus::Revoked));

    let unused = "unused-signed-revocation";
    let outcome =
        revoke(&mut service, request("cluster-j", "issuer", unused, Some(NOW)), None).unwrap();
    assert!(outcome.record.is_none());
    assert_eq!(outcome.revocation.nonce, unused);
    let token = claims_for_issuer("cluster-j", "issuer", "root", unused);
    assert!(matches!(
        join(&mut service, &mut plane, &token, &sound(), "node-unused-revocation"),
        Err(ControlPlaneError::TokenRejected { status: TokenStatus::Revoked, .. })
    ));
}

#[test]
fn join_service_rejects_cluster_mismatch() {
    let mut plane = Plane::new("expected-cluster", "100.64.0.0/29");
    let mut service = join_service(&[("issuer", "root")]);
    let token = claims_for_issuer("other-cluster", "issuer", "root", "wrong-cluster");
    let findings = TokenFindings {
        shape_fault: None,
        signature_fault: Some("cluster mismatch".to_string()),
    };
    assert!(matches!(
        join(&mut service, &mut plane, &token, &findings, "node-a"),
        Err(ControlPlaneError::TokenVerification { .. })
    ));
}

#[test]
fn join_service_rejects_bad_signature() {
    let mut plane = Plane::new("cluster-j", "100.64.0.0/29");
    let mut service = join_service(&[("issuer", "root")]);
    let token = claims_for_issuer("cluster-j", "issuer", "root", "bad-signature");
    let findings = TokenFindings {
        shape_fault: None,
        signature_fault: Some("signature mismatch".to_string()),
    };
    assert!(matches!(
        join(&mut service, &mut plane, &token, &findings, "node-a"),
        Err(ControlPlaneError::TokenVerification { .. })
    ));
}

#[test]
fn join_service_rejects_exhausted_token() {
    let mut plane = Plane::new("cluster-j", "100.64.0.0/29");
    let mut service = join_service(&[("issuer", "root")]);
    let token = claims_for_issuer("cluster-j", "issuer", "root", "single-use");
    join(&mut service, &mut plane, &token, &sound(), "node-a").unwrap();
    assert!(matches!(
        join(&mut service, &mut plane, &token, &sound(), "node-b"),
        Err(ControlPlaneError::TokenRejected { status: TokenStatus::Exhausted, .. })
    ));
}

fn restarted(plane: Plane, pool: &str, cluster_policy: ClusterPolicy) -> Plane {
    let config = ControlPlaneConfig::new(
        plane.config.cluster_id.clone(),
        cidr(pool),
        cluster_policy,
    );
    Plane { plane: ControlPlane::new(config, limits(), plane.plane.store), now: plane.now }
}

#[test]
fn set_policy_is_in_force_after_a_restart() {
    let mut plane = Plane::new("cluster-a", "100.64.0.0/29");
    let changed = ClusterPolicy { idle_timeout_seconds: 77, ..policy() };
    assert_eq!(plane.set_cluster_policy(changed.clone()).unwrap(), changed);
    let epoch = plane.store.get_overlay_routing_epoch(&cluster("cluster-a"));
    assert_eq!(epoch, 1);
    plane.set_cluster_policy(changed.clone()).unwrap();
    assert_eq!(plane.store.get_overlay_routing_epoch(&cluster("cluster-a")), epoch);
    let mut again = restarted(plane, "100.64.0.0/29", policy());
    assert_eq!(again.cluster_policy().unwrap(), policy());
    assert_eq!(again.current_cluster_policy().unwrap(), changed);
    assert_eq!(again.cluster_policy().unwrap(), changed);
}

#[test]
fn first_policy_is_stored_once() {
    let mut plane = Plane::new("cluster-a", "100.64.0.0/29");
    assert_eq!(plane.store.get_cluster_policy(&cluster("cluster-a")), None);
    plane.current_cluster_policy().unwrap();
    assert_eq!(plane.store.get_cluster_policy(&cluster("cluster-a")), Some(policy()));
    plane.current_cluster_policy().unwrap();
    assert_eq!(plane.store.get_overlay_routing_epoch(&cluster("cluster-a")), 1);
}

#[test]
fn registered_nodes_have_addresses_of_their_own() {
    let mut plane = Plane::new("cluster-a", "100.64.0.0/29");
    let mut given = Vec::new();
    for name in ["node-a", "node-b", "node-c"] {
        let response =
            plane.register_with_claims(claims("cluster-a"), registration_request(name)).unwrap();
        assert_eq!(plane.store.get_node(&id(name)), Some(response.node.clone()));
        given.push(response.node.vpn_ip.to_text());
    }
    assert_eq!(given, vec!["100.64.0.1", "100.64.0.2", "100.64.0.3"]);
    let again =
        plane.register_with_claims(claims("cluster-a"), registration_request("node-b")).unwrap();
    assert_eq!(again.node.vpn_ip, ip("100.64.0.2"));
    plane.remove_node("node-a", Some(NOW), None).unwrap();
    let next =
        plane.register_with_claims(claims("cluster-a"), registration_request("node-d")).unwrap();
    assert_eq!(next.node.vpn_ip, ip("100.64.0.1"));
    assert_eq!(plane.store.get_node(&id("node-c")).unwrap().vpn_ip, ip("100.64.0.3"));
}

#[test]
fn claims_of_another_cluster_are_given_up_on() {
    let mut plane = Plane::new("cluster-a", "100.64.0.0/27");
    assert!(matches!(
        plane.register_with_claims(claims("cluster-b"), registration_request("node-a")),
        Err(ControlPlaneError::ClusterPolicyChanged)
    ));
    assert_eq!(plane.store.list_nodes().len(), 0);
    let response =
        plane.register_with_claims(claims("cluster-a"), registration_request("node-a")).unwrap();
    assert_eq!(response.node.vpn_ip, ip("100.64.0.9"));
}

#[test]
fn heartbeat_counts_once() {
    let mut plane = Plane::new("cluster-a", "100.64.0.0/29");
    plane.register_with_claims(claims("cluster-a"), registration_request("node-a")).unwrap();
    plane.heartbeat(heartbeat_of("node-a")).unwrap();
    for later in [0, 1, 30] {
        plane.now = after(later);
        assert!(matches!(
            plane.heartbeat(heartbeat_of("node-a")),
            Err(ControlPlaneError::NodeSignatureRejected { node_id, reason })
                if text(&node_id) == "node-a"
                    && reason.contains("is not newer than last accepted heartbeat")
        ));
        assert_eq!(plane.store.get_heartbeat_signature_timestamp(&id("node-a")), Some(NOW));
    }
    plane.heartbeat(heartbeat_at("node-a", after(30))).unwrap();
}

#[test]
fn removed_node_is_unknown() {
    let mut plane = Plane::new("cluster-a", "100.64.0.0/29");
    plane.register_with_claims(claims("cluster-a"), registration_request("node-a")).unwrap();
    plane.heartbeat(heartbeat_of("node-a")).unwrap();
    let removed = plane.plane.admin_remove_node(&id("node-a"), NOW).unwrap();
    assert!(removed.removed_health);
    assert!(matches!(
        plane.heartbeat(heartbeat_at("node-a", after(1))),
        Err(ControlPlaneError::NodeNotFound { .. })
    ));
    assert!(matches!(
        plane.plane.authenticate_node_query(
            &id("node-a"),
            &Some(RequestSignature { signed_at: NOW, nonce: "n".to_string() }),
            &None,
            NOW,
        ),
        Err(ControlPlaneError::NodeNotFound { .. })
    ));
    assert!(matches!(
        plane.remove_node("node-a", Some(NOW), None),
        Err(ControlPlaneError::NodeNotFound { .. })
    ));
    assert_eq!(plane.operations.node_removal_success_count, 1);
    assert_eq!(plane.operations.node_removal_failure_count, 1);
}

#[test]
fn rotation_changes_the_key_alone() {
    let mut plane = Plane::new("cluster-a", "100.64.0.0/29");
    let node = plane
        .register_with_claims(claims("cluster-a"), registration_request("node-a"))
        .unwrap()
        .node;
    let rotated = plane
        .rotate_wireguard_key(
            RotateWireGuardKeyRequest {
                node_id: id("node-a"),
                previous_wireguard_public_key: "wg-node-a".to_string(),
                next_wireguard_public_key: "wg-next".to_string(),
                signed_at: Some(NOW),
            },
            None,
        )
        .unwrap();
    assert_eq!(
        rotated.node,
        NodeRecord { wireguard_public_key: "wg-next".to_string(), ..node }
    );
    assert_eq!(plane.store.get_node(&id("node-a")), Some(rotated.node));
}

#[test]
fn pinned_path_stays_pinned() {
    let mut plane = Plane::new("cluster-a", "100.64.0.0/29");
    for name in ["node-a", "node-b"] {
        plane.register_with_claims(claims("cluster-a"), registration_request(name)).unwrap();
    }
    assert!(matches!(
        plane.set_admin_path_pin(&id("node-a"), &id("node-b"), true),
        Err(ControlPlaneError::PathNotFound { .. })
    ));
    plane.store.upsert_path(path("node-a", "node-b"));
    assert!(plane.set_admin_path_pin(&id("node-a"), &id("node-b"), true).unwrap().pinned);
    plane.store.upsert_path(path("node-a", "node-b"));
    assert!(plane.list_paths().iter().all(|path| path.pinned));
    plane.plane.admin_remove_node(&id("node-b"), NOW).unwrap();
    assert_eq!(plane.list_paths().len(), 0);
}

#[test]
fn registration_is_repeatable() {
    let mut plane = Plane::new("cluster-a", "100.64.0.0/28");
    let mut token = claims("cluster-a");
    token.policy.allowed_routes = vec![cidr("10.42.0.0/16")];
    let mut request = registration_request("node-a");
    request.requested_routes = vec![route("first", "10.42.1.0/24", "node-a")];
    let first = plane.register_with_claims(token.clone(), request.clone()).unwrap().node;
    plane.now = after(60);
    request.requested_routes = vec![route("second", "10.42.2.0/24", "node-a")];
    let second = plane.register_with_claims(token.clone(), request.clone()).unwrap().node;
    assert_eq!(second, NodeRecord { routes: request.requested_routes.clone(), ..first });
    assert_eq!(plane.store.list_nodes(), vec![second.clone()]);
    request.wireguard_public_key = "wg-other".to_string();
    assert!(matches!(
        plane.register_with_claims(token, request),
        Err(ControlPlaneError::NodeAlreadyExists { node_id }) if text(&node_id) == "node-a"
    ));
    assert_eq!(plane.store.list_nodes(), vec![second]);
}

#[test]
fn sponsored_client_is_let_in_once() {
    let mut plane = Plane::new("cluster-a", "100.64.0.0/28");
    let mut gateway_claims = claims("cluster-a");
    gateway_claims.role = role("gateway");
    let mut gateway = registration_request("gateway");
    gateway.candidates = vec![public_candidate("gateway", "8.8.8.8", 1)];
    let bundle = ClientRegistrationBundle {
        schema_version: 1,
        issued_at: NOW,
        expires_at: after(300),
        nonce: "bundle".to_string(),
        registration: client_request("client"),
    };
    plane.register_with_claims(claims("cluster-a"), registration_request("sponsor")).unwrap();
    assert!(matches!(
        plane.register_sponsored_client("sponsor", &bundle, "one", None),
        Err(ControlPlaneError::Store { reason })
            if reason == "no reachable client gateway is registered"
    ));
    plane.register_with_claims(gateway_claims, gateway).unwrap();
    assert!(matches!(
        plane.register_sponsored_client("sponsor", &bundle, "one", None),
        Err(ControlPlaneError::NodeRequestReplay { .. })
    ));
    let registered = plane.register_sponsored_client("sponsor", &bundle, "two", None).unwrap();
    assert!(registered.node.role.is_client());
    assert!(matches!(
        plane.register_sponsored_client("sponsor", &bundle, "two", None),
        Err(ControlPlaneError::NodeRequestReplay { node_id }) if text(&node_id) == "sponsor"
    ));
    plane.now = after(5);
    let again = plane.register_sponsored_client("sponsor", &bundle, "four", None).unwrap();
    assert_eq!(again.node, registered.node);
    plane.now = after(300);
    assert!(registration_rejected(
        &plane.register_sponsored_client("sponsor", &bundle, "five", None),
        &["client registration bundle has expired"]
    ));
    plane.now = NOW;
    assert!(matches!(
        plane.register_sponsored_client("nobody", &bundle, "three", None),
        Err(ControlPlaneError::NodeNotFound { .. })
    ));
    assert!(matches!(
        plane.register_sponsored_client("client", &bundle, "three", None),
        Err(ControlPlaneError::NodeSignatureRejected { reason, .. })
            if reason == "client identities cannot sponsor another client"
    ));
}

#[test]
fn client_joins_and_leaves() {
    let mut plane = Plane::new("cluster-a", "100.64.0.0/28");
    let mut ring = IssuerKeyRing::new();
    ring.insert(id("issuer"), KeyId::from_string("root".to_string()), "public".to_string());
    let mut service = ControlPlaneJoinService::new(InMemoryTokenLedger::new(), ring);
    let mut token = claims("cluster-a");
    token.role = role("client");
    token.tags = NameSet::new();
    token.policy.allowed_routes = Vec::new();
    token.policy.allowed_tags = NameSet::new();
    token.policy.allow_relay = false;
    token.policy.max_token_uses = Some(1);
    let request = client_request("client");
    let keys = key_findings(&request.identity_public_key, &request.wireguard_public_key);
    let mut join = |plane: &mut Plane, token: &JoinTokenClaims| {
        service.join_client(&mut plane.plane, token, &sound(), &request, &keys, NOW)
    };
    assert!(matches!(
        join(&mut plane, &claims("cluster-a")),
        Err(ControlPlaneError::JoinDenied)
    ));
    assert!(matches!(join(&mut plane, &token), Err(ControlPlaneError::Store { .. })));
    let mut gateway_claims = claims("cluster-a");
    gateway_claims.role = role("gateway");
    let mut gateway = registration_request("gateway");
    gateway.candidates = vec![public_candidate("gateway", "8.8.8.8", 1)];
    plane.register_with_claims(gateway_claims, gateway).unwrap();
    let joined = join(&mut plane, &token).unwrap();
    assert_eq!(text(&joined.client.node_id), "client");
    assert!(matches!(
        join(&mut plane, &token),
        Err(ControlPlaneError::TokenRejected { status: TokenStatus::Exhausted, .. })
    ));

    let leaving = ClientControlRequest {
        client_id: id("client"),
        active_gateway_node_id: None,
        request_signature: Some(RequestSignature { signed_at: NOW, nonce: "bye".to_string() }),
    };
    let removed = plane.plane.remove_client(&leaving, &None, NOW).unwrap();
    assert_eq!(text(&removed.client.node_id), "client");
    assert!(matches!(
        plane.plane.remove_client(&leaving, &None, NOW),
        Err(ControlPlaneError::NodeNotFound { .. })
    ));
}

fn candidacy(name: &str, address: &str, generation: i64) -> KeycloakCandidacy {
    KeycloakCandidacy {
        node_id: id(name),
        vpn_ip: ip(address),
        version: "26.0".to_string(),
        eligible: true,
        ready: true,
        generation,
        lease_ttl: Span::from_secs(45),
    }
}

#[test]
fn placement_looks_through_all_candidates() {
    let mut plane = Plane::new("cluster-a", "100.64.0.0/22");
    for index in 0..150 {
        let name = format!("node-{index:03}");
        let mut node = node_record(&name);
        node.vpn_ip = IpAddr::V4(u32::from_be_bytes([100, 64, 1, index as u8]));
        plane.store.insert_node(node).unwrap();
        plane.store.upsert_health(id(&name), health(HealthState::Healthy, NOW));
        let version = if index == 149 { "26.0" } else { "25.0" };
        assert!(plane.store.upsert_keycloak_candidate(KeycloakCandidateLease {
            cluster_id: cluster("cluster-a"),
            node_id: id(&name),
            vpn_ip: IpAddr::V4(u32::from_be_bytes([100, 64, 1, index as u8])),
            version: version.to_string(),
            ready: true,
            eligible: true,
            generation: 1,
            lease_expires_at: after(45),
            updated_at: NOW,
        }));
    }
    let placed = plane.keycloak_placement("26.0", 3, 64).unwrap();
    assert_eq!(placed.replicas.len(), 1);
    assert_eq!(text(&placed.replicas[0].node_id), "node-149");
    assert_eq!(plane.keycloak_placement("25.0", 9, 64).unwrap().replicas.len(), 9);
    assert_eq!(plane.keycloak_placement("25.0", 9, 2).unwrap().replicas.len(), 2);
    assert_eq!(plane.keycloak_placement("25.0", 9, 0).unwrap().replicas.len(), 0);

    let long_ago = Span::from_secs(3_600);
    let reconcile = |plane: &mut Plane, candidacy: &KeycloakCandidacy| {
        plane.plane.reconcile_keycloak_placement(candidacy, 2, 64, long_ago, NOW)
    };
    let placed = reconcile(&mut plane, &candidacy("node-001", "100.64.1.1", 2)).unwrap();
    assert_eq!(placed.replicas.len(), 2);
    assert!(matches!(
        reconcile(&mut plane, &candidacy("node-001", "100.64.1.1", 2)),
        Err(ControlPlaneError::KeycloakCandidateGenerationConflict { generation: 2, .. })
    ));
    assert!(matches!(
        reconcile(&mut plane, &candidacy("node-001", "100.64.1.2", 3)),
        Err(ControlPlaneError::NodeUpdateRejected { .. })
    ));
    assert!(matches!(
        reconcile(&mut plane, &candidacy("node-001", "100.64.1.1", 0)),
        Err(ControlPlaneError::InvalidClusterPolicy { .. })
    ));
}

#[test]
fn overlay_is_looked_at_anew_when_it_no_longer_counts() {
    let mut plane = Plane::new("cluster-a", "100.64.0.0/29");
    plane.register_with_claims(claims("cluster-a"), registration_request("node-a")).unwrap();
    let at_once = Span::from_secs(0);
    let (nodes, _) = plane.plane.registered_nodes_with_health(at_once, NOW).unwrap();
    assert_eq!(nodes.len(), 1);
    plane.store.upsert_health(id("node-a"), health(HealthState::Healthy, NOW));
    let (_, seen) = plane.plane.registered_nodes_with_health(at_once, NOW).unwrap();
    assert_eq!(seen.entries.len(), 0);
    let (_, seen) = plane.plane.registered_nodes_with_health(Span::from_secs(2), NOW).unwrap();
    assert_eq!(seen.entries.len(), 1);
    plane.register_with_claims(claims("cluster-a"), registration_request("node-b")).unwrap();
    let (nodes, _) = plane.plane.registered_nodes_with_health(at_once, NOW).unwrap();
    assert_eq!(nodes.len(), 2);
}

#[test]
fn issued_tokens_are_on_record() {
    let mut service = join_service(&[("issuer", "root")]);
    let token = claims_for_issuer("cluster-a", "issuer", "root", "issued");
    assert!(matches!(
        service.validate_issued_join_token(&token, &sound(), &limits(), NOW),
        Err(ControlPlaneError::TokenNotFound { nonce }) if nonce == "issued"
    ));
    let forged = TokenFindings {
        shape_fault: None,
        signature_fault: Some("bad signature".to_string()),
    };
    assert!(matches!(
        service.issue_join_token(&token, &forged, &limits(), NOW),
        Err(ControlPlaneError::TokenVerification { reason }) if reason == "bad signature"
    ));
    let issued = service.issue_join_token(&token, &sound(), &limits(), NOW).unwrap();
    assert_eq!(issued.uses, 0);
    let found = service.validate_issued_join_token(&token, &sound(), &limits(), NOW).unwrap();
    assert_eq!(found.uses, 0);
    assert!(matches!(
        service.validate_issued_join_token(&token, &sound(), &limits(), after(300)),
        Err(ControlPlaneError::TokenRejected { status: TokenStatus::Expired, .. })
    ));
    let metrics = service.token_metrics(&token.cluster_id, NOW);
    assert_eq!((metrics.active, metrics.expired), (1, 0));
    let metrics = service.token_metrics(&token.cluster_id, after(300));
    assert_eq!((metrics.active, metrics.expired), (0, 1));
}

#[test]
fn what_nodes_report_can_be_read() {
    let mut plane = Plane::new("cluster-a", "100.64.0.0/29");
    plane.register_with_claims(claims("cluster-a"), registration_request("node-a")).unwrap();
    assert_eq!(plane.health_for_node(&id("node-a")), None);
    let mut reporting = heartbeat_of("node-a");
    let found = classification("198.51.100.7", "203.0.113.7", None);
    reporting.nat_classification = Some(found.clone());
    plane.heartbeat(reporting).unwrap();
    assert_eq!(plane.health_for_node(&id("node-a")).unwrap().last_seen_at, NOW);
    assert_eq!(plane.nat_classification_for(&id("node-a")), Some(found));
    assert_eq!(plane.nat_classifications().len(), 1);
    let overview = plane.plane.nat_discovery_overview(4, NOW).unwrap();
    assert_eq!(overview.nat_classification_count, 1);
    assert_eq!(overview.fresh_nat_classification_strategy_counts, vec![1, 0, 0, 0]);

    let epoch = plane.store.get_overlay_routing_epoch(&cluster("cluster-a"));
    plane.store.update_node_candidates(&id("node-a"), vec![candidate("node-a")]).unwrap();
    plane.store.update_node_relay_capability(&id("node-a"), Some(relay_capability())).unwrap();
    let node = plane.store.get_node(&id("node-a")).unwrap();
    assert_eq!(node.endpoint_candidates, vec![candidate("node-a")]);
    assert_eq!(node.relay_capability, Some(relay_capability()));
    assert_eq!(plane.store.get_overlay_routing_epoch(&cluster("cluster-a")), epoch);
    assert!(matches!(
        plane.store.update_node_candidates(&id("nobody"), Vec::new()),
        Err(ControlPlaneError::NodeNotFound { .. })
    ));
}

#[test]
fn topology_is_shown_with_the_paths_along_its_edges() {
    let mut plane = Plane::new("cluster-a", "100.64.0.0/29");
    for name in ["node-a", "node-b", "node-c"] {
        plane.register_with_claims(claims("cluster-a"), registration_request(name)).unwrap();
    }
    for (local, remote) in [("node-a", "node-b"), ("node-b", "node-a"), ("node-a", "node-c")] {
        plane.store.upsert_path(path(local, remote));
    }
    plane.plane.current_overlay_snapshot(Span::from_secs(0), NOW).unwrap();
    let mut degrees = OrderedMap::new();
    for (name, degree) in [("node-a", 1_usize), ("node-b", 1), ("node-c", 0)] {
        degrees.insert(id(name), degree);
    }
    let topology = Topology {
        topology_epoch: 5,
        algorithm: "block".to_string(),
        groups: vec![TopologyGroup {
            group_id: "root".to_string(),
            depth: 0,
            parent_group_id: None,
            child_group_ids: Vec::new(),
            node_ids: vec![id("node-a"), id("node-b"), id("node-c")],
            leaf: true,
            representatives: Vec::new(),
        }],
        edges: vec![PlacedEdge {
            first: id("node-a"),
            second: id("node-b"),
            placements: vec![EdgePlacement {
                group_id: "root".to_string(),
                level: 0,
                plane: 0,
                kind: TopologyEdgeKind::HierarchyLink,
            }],
        }],
        degrees,
        node_count: 3,
        edge_count: 1,
        max_observed_degree: 1,
        diameter_lower_bound: 1,
    };
    let shown = plane.plane.overlay_topology_snapshot(&topology, NOW).unwrap();
    assert_eq!(shown.nodes.len(), 3);
    assert_eq!(shown.root_group_id.as_deref(), Some("root"));
    assert_eq!(
        shown.edges[0].observed_status,
        ControlPlaneTopologyEdgeStatus::Connected
    );
}
