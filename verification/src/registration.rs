//! Registration: who may join, with what, and as which node.

use vstd::prelude::*;

use crate::config::ProtocolLimits;
use crate::error::{reason_of, refusal, ControlPlaneError, ControlPlaneErrorView};
use crate::heartbeat::{
    candidates_fault, nat_fault, validate_candidates, validate_nat_classification_shape,
};
use crate::ids::{role_is_client, ClusterId, KeyId, NameSet, NodeId, Role, CLIENT_ROLE};
use crate::lists::{first_in, lemma_first_in_extends};
use crate::net::IpAddr;
use crate::routes::{
    route_allowed_by_policy, route_permitted, routes_shape_fault, validate_advertised_routes_shape,
};
use crate::text::{decimal, decimal_text, text_same};
use crate::time::{not_after_skew, timestamp_not_after_skew, Span, Timestamp};
use crate::types::{
    duplicate_all, duplicate_option, opt_view, ref_view, views, JoinTokenClaims, JoinTokenClaimsView,
    NodeRecord, NodeRecordView, Record, RegisterNodeRequest, RegisterNodeRequestView,
    RelayCapability, RelayCapabilityView, Route, RouteView, TokenPolicy, TokenPolicyView,
};

verus! {

/// How many registrations one enrollment token may allow.
pub const MAX_NODE_ENROLLMENT_TOKEN_USES: u32 = 1_000;

/// How often a registration is tried again when the cluster changed meanwhile.
pub const MAX_ROUTE_CATALOG_UPDATE_RETRIES: usize = 8;

/// The name of the key that sponsored registrations are recorded under.
pub const SPONSORED_REGISTRATION_KEY: &'static str = "ssh-client-registration";

/// A node may enroll itself with this role.
pub open spec fn node_enrollment_role(role: Seq<char>) -> bool {
    role == "edge"@ || role == "worker"@ || role == "gateway"@
}

/// Whether a node may enroll itself with this role.
pub fn node_enrollment_role_is_allowed(role: &Role) -> (r: bool)
    ensures
        r == node_enrollment_role(role@),
{
    let role = role.as_str();
    text_same(role, "edge") || text_same(role, "worker") || text_same(role, "gateway")
}

/// Whether a node or a client may enroll itself with this role.
pub fn enrollment_role_is_allowed(role: &Role) -> (r: bool)
    ensures
        r == (node_enrollment_role(role@) || role_is_client(role@)),
{
    node_enrollment_role_is_allowed(role) || role.is_client()
}

/// The claims let one client register, and nothing else.
pub open spec fn control_only(claims: JoinTokenClaimsView) -> bool {
    &&& role_is_client(claims.role)
    &&& claims.tags == Set::<Seq<char>>::empty()
    &&& claims.policy.allowed_tags == Set::<Seq<char>>::empty()
    &&& !claims.policy.allow_relay
    &&& claims.policy.allowed_routes.len() == 0
    &&& claims.policy.max_token_uses == Some(1u32)
}

/// Whether the claims let one client register, and nothing else.
pub fn client_claims_are_control_only(claims: &JoinTokenClaims) -> (r: bool)
    ensures
        r == control_only(claims@),
{
    claims.role.is_client() && claims.tags.is_empty() && claims.policy.allowed_tags.is_empty()
        && !claims.policy.allow_relay && claims.policy.allowed_routes.len() == 0
        && claims.policy.max_token_uses == Some(1u32)
}

/// Why a node may not relay with this capability.
pub open spec fn relay_capability_fault(capability: RelayCapabilityView) -> Option<Seq<char>> {
    if capability.public_endpoint is None {
        Some("relay public endpoint is required"@)
    } else if !capability.public_endpoint->0.usable {
        Some("relay public endpoint must be a usable nonzero socket address"@)
    } else if capability.admission_url is None {
        Some("relay admission URL is required"@)
    } else if !capability.admission_url_usable {
        Some("relay admission URL must be an absolute HTTP(S) URL with a usable endpoint"@)
    } else if capability.max_sessions == 0 {
        Some("relay max_sessions must be greater than zero"@)
    } else if capability.active_sessions > capability.max_sessions {
        Some("relay active_sessions must be less than or equal to max_sessions"@)
    } else if capability.max_mbps == 0 {
        Some("relay max_mbps must be greater than zero"@)
    } else if !capability.e2e_only {
        Some("relay capability must advertise e2e_only=true"@)
    } else {
        None
    }
}

/// Checks the capability of a node to relay.
pub fn validate_relay_capability_shape(capability: &RelayCapability) -> (r: Result<(), String>)
    ensures
        reason_of(r) == relay_capability_fault(capability@),
{
    let endpoint = match capability.public_endpoint {
        Some(endpoint) => endpoint,
        None => return Err("relay public endpoint is required".to_owned()),
    };
    if !endpoint.usable {
        return Err("relay public endpoint must be a usable nonzero socket address".to_owned());
    }
    if capability.admission_url.is_none() {
        return Err("relay admission URL is required".to_owned());
    }
    if !capability.admission_url_usable {
        return Err(
            "relay admission URL must be an absolute HTTP(S) URL with a usable endpoint".to_owned(),
        );
    }
    if capability.max_sessions == 0 {
        return Err("relay max_sessions must be greater than zero".to_owned());
    }
    if capability.active_sessions > capability.max_sessions {
        return Err("relay active_sessions must be less than or equal to max_sessions".to_owned());
    }
    if capability.max_mbps == 0 {
        return Err("relay max_mbps must be greater than zero".to_owned());
    }
    if !capability.e2e_only {
        return Err("relay capability must advertise e2e_only=true".to_owned());
    }
    Ok(())
}

/// The capability with the permission of policy.
pub open spec fn enabled_capability(capability: RelayCapabilityView) -> RelayCapabilityView {
    RelayCapabilityView { enabled_by_policy: true, ..capability }
}

/// The rejection of a registration, where there is a reason for it.
pub open spec fn registration_rejection(node_id: Seq<char>, reason: Option<Seq<char>>) -> Option<
    ControlPlaneErrorView,
> {
    match reason {
        Some(reason) => Some(ControlPlaneErrorView::NodeRegistrationRejected { node_id, reason }),
        None => None,
    }
}

/// Why the capability to relay is not granted.
pub open spec fn relay_refusal(
    node_id: Seq<char>,
    capability: Option<RelayCapabilityView>,
    policy: TokenPolicyView,
) -> Option<ControlPlaneErrorView> {
    match capability {
        None => None,
        Some(capability) => if !policy.allow_relay {
            Some(ControlPlaneErrorView::RelayDenied)
        } else {
            registration_rejection(node_id, relay_capability_fault(enabled_capability(capability)))
        },
    }
}

/// What the capability to relay becomes when it is granted.
pub open spec fn granted_capability(capability: Option<RelayCapabilityView>) -> Option<
    RelayCapabilityView,
> {
    match capability {
        Some(capability) => Some(enabled_capability(capability)),
        None => None,
    }
}

fn reject_registration(node_id: &NodeId, r: Result<(), String>) -> (out: Result<
    (),
    ControlPlaneError,
>)
    ensures
        refusal(out) == registration_rejection(node_id@, reason_of(r)),
{
    match r {
        Ok(()) => Ok(()),
        Err(reason) => Err(
            ControlPlaneError::NodeRegistrationRejected { node_id: node_id.clone(), reason },
        ),
    }
}

/// Grants the capability to relay, where the token policy permits it and it is complete.
pub fn relay_capability_allowed(
    node_id: &NodeId,
    relay_capability: Option<RelayCapability>,
    policy: &TokenPolicy,
) -> (r: Result<Option<RelayCapability>, ControlPlaneError>)
    ensures
        refusal(r) == relay_refusal(node_id@, opt_view(relay_capability), policy@),
        r matches Ok(granted) ==> opt_view(granted) == granted_capability(
            opt_view(relay_capability),
        ),
{
    match relay_capability {
        None => Ok(None),
        Some(capability) => {
            if !policy.allow_relay {
                return Err(ControlPlaneError::RelayDenied);
            }
            let ghost asked = capability@;
            let mut capability = capability;
            capability.enabled_by_policy = true;
            assert(capability@ == enabled_capability(asked));
            match validate_relay_capability_shape(&capability) {
                Ok(()) => Ok(Some(capability)),
                Err(reason) => Err(
                    ControlPlaneError::NodeRegistrationRejected {
                        node_id: node_id.clone(),
                        reason,
                    },
                ),
            }
        },
    }
}

/// What was found out about the keys of a registration.
#[derive(Debug)]
pub struct KeyFindings {
    /// The node identifier that the identity key stands for, or why the key is not one.
    pub derived_node_id: Result<NodeId, String>,
    /// Why the WireGuard key is not one, where it is not.
    pub wireguard_key_fault: Option<String>,
}

/// Why the keys of a registration are not accepted.
pub open spec fn key_fault(node_id: Seq<char>, findings: KeyFindings) -> Option<Seq<char>> {
    match findings.derived_node_id {
        Err(error) => Some("identity public key is invalid: "@ + error@),
        Ok(derived) => if derived@ != node_id {
            Some("identity public key derives node ID "@ + derived@)
        } else {
            match findings.wireguard_key_fault {
                Some(error) => Some("wireguard public key is invalid: "@ + error@),
                None => None,
            }
        },
    }
}

fn check_keys(node_id: &NodeId, findings: &KeyFindings) -> (r: Result<(), String>)
    ensures
        reason_of(r) == key_fault(node_id@, *findings),
{
    match &findings.derived_node_id {
        Err(error) => Err("identity public key is invalid: ".to_owned().concat(error.as_str())),
        Ok(derived) => {
            if *derived != *node_id {
                return Err(
                    "identity public key derives node ID ".to_owned().concat(derived.as_str()),
                );
            }
            match &findings.wireguard_key_fault {
                Some(error) => Err(
                    "wireguard public key is invalid: ".to_owned().concat(error.as_str()),
                ),
                None => Ok(()),
            }
        },
    }
}

/// A route that another node advertises.
pub open spec fn foreign_route_fault(node_id: Seq<char>, route: RouteView) -> Option<Seq<char>> {
    if route.advertised_by == node_id {
        None
    } else {
        Some(
            "route "@ + route.id + " is advertised by node "@ + route.advertised_by
                + " instead of "@ + node_id,
        )
    }
}

/// The first route among the first `n` that another node advertises.
pub open spec fn first_foreign_route(node_id: Seq<char>, routes: Seq<RouteView>, n: nat) -> Option<
    Seq<char>,
> {
    first_in(n, |i: int| foreign_route_fault(node_id, routes[i]))
}

fn check_route_owners(node_id: &NodeId, routes: &Vec<Route>) -> (r: Result<(), String>)
    ensures
        reason_of(r) == first_foreign_route(node_id@, views(routes@), routes@.len()),
{
    let ghost all = views(routes@);
    let mut i: usize = 0;
    while i < routes.len()
        invariant
            i <= routes@.len(),
            all == views(routes@),
            first_foreign_route(node_id@, all, i as nat) is None,
        decreases routes@.len() - i,
    {
        let route = &routes[i];
        assert(all[i as int] == route@);
        if route.advertised_by != *node_id {
            proof {
                lemma_first_in_extends(
                    (i + 1) as nat,
                    all.len(),
                    |k: int| foreign_route_fault(node_id@, all[k]),
                );
            }
            return Err(
                "route ".to_owned().concat(route.id.as_str()).concat(
                    " is advertised by node ",
                ).concat(route.advertised_by.as_str()).concat(" instead of ").concat(
                    node_id.as_str(),
                ),
            );
        }
        i = i + 1;
    }
    Ok(())
}

/// Why a request to register is not accepted, whoever sends it.
pub open spec fn registration_fault(
    request: RegisterNodeRequestView,
    findings: KeyFindings,
    now: Timestamp,
    skew: Span,
) -> Option<Seq<char>> {
    let id = request.node_id;
    if key_fault(id, findings) is Some {
        key_fault(id, findings)
    } else if candidates_fault(request.candidates, id, now, skew) is Some {
        candidates_fault(request.candidates, id, now, skew)
    } else if request.nat_classification is Some && nat_fault(
        request.nat_classification->0,
        now,
        skew,
    ) is Some {
        nat_fault(request.nat_classification->0, now, skew)
    } else if routes_shape_fault(id, request.requested_routes) is Some {
        routes_shape_fault(id, request.requested_routes)
    } else {
        first_foreign_route(id, request.requested_routes, request.requested_routes.len())
    }
}

/// Checks a request to register.
pub fn validate_registration_request(
    request: &RegisterNodeRequest,
    findings: &KeyFindings,
    now: Timestamp,
    max_timestamp_skew: Span,
) -> (r: Result<(), ControlPlaneError>)
    ensures
        refusal(r) == registration_rejection(
            request@.node_id,
            registration_fault(request@, *findings, now, max_timestamp_skew),
        ),
{
    let id = &request.node_id;
    reject_registration(id, check_keys(id, findings))?;
    reject_registration(id, validate_candidates(&request.candidates, id, now, max_timestamp_skew))?;
    if let Some(classification) = &request.nat_classification {
        reject_registration(
            id,
            validate_nat_classification_shape(classification, now, max_timestamp_skew),
        )?;
    }
    reject_registration(id, validate_advertised_routes_shape(id, &request.requested_routes))?;
    reject_registration(id, check_route_owners(id, &request.requested_routes))
}

/// A route that the token policy does not permit.
pub open spec fn denied_route(route: RouteView, policy: TokenPolicyView) -> Option<
    ControlPlaneErrorView,
> {
    if route_permitted(route, policy) {
        None
    } else {
        Some(ControlPlaneErrorView::RouteDenied { route_id: route.id })
    }
}

/// The first route among the first `n` that the token policy does not permit.
pub open spec fn first_denied_route(
    routes: Seq<RouteView>,
    policy: TokenPolicyView,
    n: nat,
) -> Option<ControlPlaneErrorView> {
    first_in(n, |i: int| denied_route(routes[i], policy))
}

fn check_routes_permitted(routes: &Vec<Route>, policy: &TokenPolicy) -> (r: Result<
    (),
    ControlPlaneError,
>)
    ensures
        refusal(r) == first_denied_route(views(routes@), policy@, routes@.len()),
{
    let ghost all = views(routes@);
    let mut i: usize = 0;
    while i < routes.len()
        invariant
            i <= routes@.len(),
            all == views(routes@),
            first_denied_route(all, policy@, i as nat) is None,
        decreases routes@.len() - i,
    {
        assert(all[i as int] == routes@[i as int]@);
        if !route_allowed_by_policy(&routes[i], policy) {
            proof {
                lemma_first_in_extends(
                    (i + 1) as nat,
                    all.len(),
                    |k: int| denied_route(all[k], policy@),
                );
            }
            return Err(ControlPlaneError::RouteDenied { route_id: routes[i].id.clone() });
        }
        i = i + 1;
    }
    Ok(())
}

/// Checks that the claims are not those of a client, which registers in another way.
pub fn ensure_node_claims(claims: &JoinTokenClaims) -> (r: Result<(), ControlPlaneError>)
    ensures
        refusal(r) == (if role_is_client(claims@.role) {
            Some(ControlPlaneErrorView::JoinDenied)
        } else {
            None
        }),
{
    if claims.role.is_client() {
        Err(ControlPlaneError::JoinDenied)
    } else {
        Ok(())
    }
}

/// Checks that the claims allow a client nothing but control.
pub fn ensure_client_claims(claims: &JoinTokenClaims) -> (r: Result<(), ControlPlaneError>)
    ensures
        refusal(r) == (if !control_only(claims@) {
            Some(ControlPlaneErrorView::JoinDenied)
        } else {
            None
        }),
{
    if client_claims_are_control_only(claims) {
        Ok(())
    } else {
        Err(ControlPlaneError::JoinDenied)
    }
}

/// Why the claims do not let a node register with this request.
pub open spec fn admission_refusal(
    claims: JoinTokenClaimsView,
    request: RegisterNodeRequestView,
    findings: KeyFindings,
    now: Timestamp,
    skew: Span,
) -> Option<ControlPlaneErrorView> {
    let routes = request.requested_routes;
    if !claims.policy.allow_join {
        Some(ControlPlaneErrorView::JoinDenied)
    } else if registration_fault(request, findings, now, skew) is Some {
        registration_rejection(request.node_id, registration_fault(request, findings, now, skew))
    } else if first_denied_route(routes, claims.policy, routes.len()) is Some {
        first_denied_route(routes, claims.policy, routes.len())
    } else {
        relay_refusal(request.node_id, request.relay_capability, claims.policy)
    }
}

/// Checks whether the claims let a node register with this request, and gives the capability to
/// relay that it registers with.
pub fn admit_registration(
    claims: &JoinTokenClaims,
    request: &RegisterNodeRequest,
    findings: &KeyFindings,
    now: Timestamp,
    max_timestamp_skew: Span,
) -> (r: Result<Option<RelayCapability>, ControlPlaneError>)
    ensures
        refusal(r) == admission_refusal(claims@, request@, *findings, now, max_timestamp_skew),
        r matches Ok(granted) ==> opt_view(granted) == granted_capability(
            request@.relay_capability,
        ),
{
    if !claims.policy.allow_join {
        return Err(ControlPlaneError::JoinDenied);
    }
    match validate_registration_request(request, findings, now, max_timestamp_skew) {
        Ok(()) => {},
        Err(error) => return Err(error),
    }
    match check_routes_permitted(&request.requested_routes, &claims.policy) {
        Ok(()) => {},
        Err(error) => return Err(error),
    }
    relay_capability_allowed(
        &request.node_id,
        duplicate_option(&request.relay_capability),
        &claims.policy,
    )
}

/// The node that a registration makes.
pub open spec fn registered_node(
    claims: JoinTokenClaimsView,
    request: RegisterNodeRequestView,
    relay_capability: Option<RelayCapabilityView>,
    vpn_ip: IpAddr,
    registered_at: Timestamp,
) -> NodeRecordView {
    NodeRecordView {
        node_id: request.node_id,
        hostname: None,
        cluster_id: claims.cluster_id,
        vpn_ip,
        identity_public_key: request.identity_public_key,
        wireguard_public_key: request.wireguard_public_key,
        role: claims.role,
        tags: claims.tags,
        endpoint_candidates: request.candidates,
        relay_capability,
        token_policy: claims.policy,
        routes: request.requested_routes,
        registered_at,
    }
}

/// The node that a registration makes.
pub fn node_for_registration(
    claims: &JoinTokenClaims,
    request: &RegisterNodeRequest,
    relay_capability: &Option<RelayCapability>,
    vpn_ip: IpAddr,
    registered_at: Timestamp,
) -> (r: NodeRecord)
    ensures
        r@ == registered_node(
            claims@,
            request@,
            opt_view(*relay_capability),
            vpn_ip,
            registered_at,
        ),
{
    NodeRecord {
        node_id: request.node_id.clone(),
        hostname: None,
        cluster_id: claims.cluster_id.clone(),
        vpn_ip,
        identity_public_key: request.identity_public_key.clone(),
        wireguard_public_key: request.wireguard_public_key.clone(),
        role: claims.role.clone(),
        tags: claims.tags.clone(),
        endpoint_candidates: duplicate_all(&request.candidates),
        relay_capability: duplicate_option(relay_capability),
        token_policy: claims.policy.duplicate(),
        routes: duplicate_all(&request.requested_routes),
        registered_at,
    }
}

/// The node is the one that registers again: same cluster, keys, role and tags.
pub open spec fn same_participant(
    existing: NodeRecordView,
    claims: JoinTokenClaimsView,
    request: RegisterNodeRequestView,
) -> bool {
    &&& existing.cluster_id == claims.cluster_id
    &&& existing.identity_public_key == request.identity_public_key
    &&& existing.wireguard_public_key == request.wireguard_public_key
    &&& existing.role == claims.role
    &&& existing.tags == claims.tags
}

/// Checks that an existing node is the one that registers again.
pub fn ensure_same_participant(
    existing: Option<&NodeRecord>,
    claims: &JoinTokenClaims,
    request: &RegisterNodeRequest,
) -> (r: Result<(), ControlPlaneError>)
    ensures
        refusal(r) == match existing {
            None => Some(ControlPlaneErrorView::NodeNotFound { node_id: request@.node_id }),
            Some(node) => if same_participant(node@, claims@, request@) {
                None
            } else {
                Some(ControlPlaneErrorView::NodeAlreadyExists { node_id: request@.node_id })
            },
        },
{
    let existing = match existing {
        Some(existing) => existing,
        None => return Err(ControlPlaneError::NodeNotFound { node_id: request.node_id.clone() }),
    };
    if existing.cluster_id != claims.cluster_id || existing.identity_public_key
        != request.identity_public_key || existing.wireguard_public_key
        != request.wireguard_public_key || existing.role != claims.role
        || !existing.tags.same_names(&claims.tags) {
        return Err(ControlPlaneError::NodeAlreadyExists { node_id: request.node_id.clone() });
    }
    Ok(())
}

/// What follows on an attempt to store something that rests on what the cluster was like.
#[derive(Debug, Clone, Copy, PartialEq, Eq, Structural)]
pub enum AttemptStep {
    /// The attempt was made.
    Done,
    /// The cluster changed meanwhile; the attempt is to be made again.
    Again,
    /// The attempt failed for good.
    Failed,
}

/// The refusal says that the cluster changed meanwhile.
pub open spec fn is_conflict(error: ControlPlaneErrorView) -> bool {
    error is ClusterPolicyChanged || error is OverlayRouteCatalogChanged || error
        is NodeStateChanged
}

/// What follows on an attempt, of which `earlier` were made before it.
pub open spec fn step_after(earlier: nat, refused: Option<ControlPlaneErrorView>) -> AttemptStep {
    match refused {
        None => AttemptStep::Done,
        Some(error) => if is_conflict(error) && earlier + 1 < MAX_ROUTE_CATALOG_UPDATE_RETRIES {
            AttemptStep::Again
        } else {
            AttemptStep::Failed
        },
    }
}

/// What follows on an attempt, of which `earlier` were made before it.
pub fn step_after_attempt<T>(earlier: usize, outcome: &Result<T, ControlPlaneError>) -> (r:
    AttemptStep)
    ensures
        r == step_after(earlier as nat, refusal(*outcome)),
{
    match outcome {
        Ok(_) => AttemptStep::Done,
        Err(
            ControlPlaneError::ClusterPolicyChanged
            | ControlPlaneError::OverlayRouteCatalogChanged
            | ControlPlaneError::NodeStateChanged { node_id: _ },
        ) => {
            if earlier < MAX_ROUTE_CATALOG_UPDATE_RETRIES - 1 {
                AttemptStep::Again
            } else {
                AttemptStep::Failed
            }
        },
        Err(_) => AttemptStep::Failed,
    }
}

/// However the attempts end, no more than the allowed number is made.
pub proof fn law_attempts_are_bounded(earlier: nat, refused: Option<ControlPlaneErrorView>)
    ensures
        earlier + 1 >= MAX_ROUTE_CATALOG_UPDATE_RETRIES ==> step_after(earlier, refused)
            != AttemptStep::Again,
{
}

/// A request of a client to be registered.
#[derive(Debug)]
pub struct RegisterClientRequest {
    pub client_id: NodeId,
    pub identity_public_key: String,
    pub wireguard_public_key: String,
}

/// The request that registers a client as a participant: it has no candidates, no relay and no
/// routes.
pub open spec fn participant_request(request: RegisterClientRequest) -> RegisterNodeRequestView {
    RegisterNodeRequestView {
        node_id: request.client_id@,
        identity_public_key: request.identity_public_key@,
        wireguard_public_key: request.wireguard_public_key@,
        candidates: Seq::empty(),
        nat_classification: None,
        relay_capability: None,
        requested_routes: Seq::empty(),
    }
}

/// When a client asks to be admitted does not matter: its request says nothing that grows old.
pub proof fn lemma_client_admission_is_timeless(
    claims: JoinTokenClaimsView,
    request: RegisterClientRequest,
    findings: KeyFindings,
    now: Timestamp,
    later: Timestamp,
    skew: Span,
)
    ensures
        admission_refusal(claims, participant_request(request), findings, now, skew)
            == admission_refusal(claims, participant_request(request), findings, later, skew),
{
    let asked = participant_request(request);
    assert(candidates_fault(asked.candidates, asked.node_id, now, skew) == candidates_fault(
        asked.candidates,
        asked.node_id,
        later,
        skew,
    ));
}

/// The request that registers a client as a participant.
pub fn client_participant_request(request: &RegisterClientRequest) -> (r: RegisterNodeRequest)
    ensures
        r@ == participant_request(*request),
{
    let r = RegisterNodeRequest {
        node_id: request.client_id.clone(),
        identity_public_key: request.identity_public_key.clone(),
        wireguard_public_key: request.wireguard_public_key.clone(),
        candidates: Vec::new(),
        nat_classification: None,
        relay_capability: None,
        requested_routes: Vec::new(),
    };
    assert(r@.candidates =~= Seq::empty());
    assert(r@.requested_routes =~= Seq::empty());
    r
}

/// A request of a client that a registered node passes on.
#[derive(Debug)]
pub struct ClientRegistrationBundle {
    pub schema_version: u32,
    pub issued_at: Timestamp,
    pub expires_at: Timestamp,
    pub nonce: String,
    pub registration: RegisterClientRequest,
}

/// Two bundles say the same.
pub open spec fn same_bundle(a: ClientRegistrationBundle, b: ClientRegistrationBundle) -> bool {
    &&& a.schema_version == b.schema_version
    &&& a.issued_at == b.issued_at
    &&& a.expires_at == b.expires_at
    &&& a.nonce@ == b.nonce@
    &&& participant_request(a.registration) == participant_request(b.registration)
}

/// Why a bundle is not accepted. `nonce_fault` and `proof_fault` are what the checks of the nonce
/// and of the proof of ownership found wrong.
pub open spec fn bundle_fault(
    bundle: ClientRegistrationBundle,
    now: Timestamp,
    skew: Span,
    limits: ProtocolLimits,
    nonce_fault: Option<Seq<char>>,
    proof_fault: Option<Seq<char>>,
) -> Option<Seq<char>> {
    let validity = bundle.expires_at.at() - bundle.issued_at.at();
    if bundle.schema_version != limits.client_registration_schema_version {
        Some(
            "unsupported client registration schema version "@ + decimal(
                bundle.schema_version as nat,
            ),
        )
    } else if bundle.issued_at.nanos != 0 || bundle.expires_at.nanos != 0 {
        Some("client registration timestamps must use whole-second precision"@)
    } else if validity <= 0 || validity > limits.max_client_registration_validity_seconds
        * 1_000_000_000 {
        Some(
            "client registration validity must be between 1 and "@ + decimal(
                limits.max_client_registration_validity_seconds as nat,
            ) + " seconds"@,
        )
    } else if bundle.expires_at.at() <= now.at() {
        Some("client registration bundle has expired"@)
    } else if !not_after_skew(bundle.issued_at, now, skew) {
        Some("client registration bundle was issued in the future"@)
    } else if nonce_fault is Some {
        Some("client registration nonce is invalid: "@ + nonce_fault->0)
    } else if proof_fault is Some {
        Some("client registration ownership proof is invalid: "@ + proof_fault->0)
    } else {
        None
    }
}

/// Checks a bundle. `nonce_fault` and `proof_fault` are what the checks of the nonce and of the
/// proof of ownership found wrong.
pub fn validate_client_registration_bundle(
    bundle: &ClientRegistrationBundle,
    now: Timestamp,
    max_timestamp_skew: Span,
    limits: &ProtocolLimits,
    nonce_fault: &Option<String>,
    proof_fault: &Option<String>,
) -> (r: Result<(), ControlPlaneError>)
    ensures
        refusal(r) == registration_rejection(
            bundle.registration.client_id@,
            bundle_fault(
                *bundle,
                now,
                max_timestamp_skew,
                *limits,
                opt_view(*nonce_fault),
                opt_view(*proof_fault),
            ),
        ),
{
    reject_registration(
        &bundle.registration.client_id,
        check_bundle(bundle, now, max_timestamp_skew, limits, nonce_fault, proof_fault),
    )
}

fn check_bundle(
    bundle: &ClientRegistrationBundle,
    now: Timestamp,
    skew: Span,
    limits: &ProtocolLimits,
    nonce_fault: &Option<String>,
    proof_fault: &Option<String>,
) -> (r: Result<(), String>)
    ensures
        reason_of(r) == bundle_fault(
            *bundle,
            now,
            skew,
            *limits,
            opt_view(*nonce_fault),
            opt_view(*proof_fault),
        ),
{
    if bundle.schema_version != limits.client_registration_schema_version {
        return Err(
            "unsupported client registration schema version ".to_owned().concat(
                decimal_text(bundle.schema_version as u64).as_str(),
            ),
        );
    }
    if bundle.issued_at.nanos != 0 || bundle.expires_at.nanos != 0 {
        return Err(
            "client registration timestamps must use whole-second precision".to_owned(),
        );
    }
    let validity: i128 = bundle.expires_at.total_nanos() - bundle.issued_at.total_nanos();
    if validity <= 0 || validity > (limits.max_client_registration_validity_seconds as i128)
        * 1_000_000_000 {
        return Err(
            "client registration validity must be between 1 and ".to_owned().concat(
                decimal_text(limits.max_client_registration_validity_seconds as u64).as_str(),
            ).concat(" seconds"),
        );
    }
    if bundle.expires_at.at_or_before(&now) {
        return Err("client registration bundle has expired".to_owned());
    }
    if !timestamp_not_after_skew(bundle.issued_at, now, skew) {
        return Err("client registration bundle was issued in the future".to_owned());
    }
    if let Some(fault) = nonce_fault {
        return Err("client registration nonce is invalid: ".to_owned().concat(fault.as_str()));
    }
    if let Some(fault) = proof_fault {
        return Err(
            "client registration ownership proof is invalid: ".to_owned().concat(fault.as_str()),
        );
    }
    Ok(())
}

/// Why a node may not sponsor a client. `signature_fault` is what the check of its signature found
/// wrong.
pub open spec fn sponsor_refusal(
    sponsor_id: Seq<char>,
    signed: bool,
    sponsor: Option<NodeRecordView>,
    signature_fault: Option<Seq<char>>,
) -> Option<ControlPlaneErrorView> {
    if !signed {
        Some(ControlPlaneErrorView::NodeSignatureRequired { node_id: sponsor_id })
    } else if sponsor is None {
        Some(ControlPlaneErrorView::NodeNotFound { node_id: sponsor_id })
    } else if role_is_client(sponsor->0.role) {
        Some(
            ControlPlaneErrorView::NodeSignatureRejected {
                node_id: sponsor_id,
                reason: "client identities cannot sponsor another client"@,
            },
        )
    } else if signature_fault is Some {
        Some(
            ControlPlaneErrorView::NodeSignatureRejected {
                node_id: sponsor_id,
                reason: signature_fault->0,
            },
        )
    } else {
        None
    }
}

/// Checks that a node may sponsor a client. `signature_fault` is what the check of its signature
/// found wrong.
pub fn validate_client_sponsor(
    sponsor_id: &NodeId,
    signed: bool,
    sponsor: Option<&NodeRecord>,
    signature_fault: &Option<String>,
) -> (r: Result<(), ControlPlaneError>)
    ensures
        refusal(r) == sponsor_refusal(
            sponsor_id@,
            signed,
            ref_view(sponsor),
            opt_view(*signature_fault),
        ),
{
    if !signed {
        return Err(ControlPlaneError::NodeSignatureRequired { node_id: sponsor_id.clone() });
    }
    let sponsor = match sponsor {
        Some(sponsor) => sponsor,
        None => return Err(ControlPlaneError::NodeNotFound { node_id: sponsor_id.clone() }),
    };
    if sponsor.role.is_client() {
        return Err(
            ControlPlaneError::NodeSignatureRejected {
                node_id: sponsor_id.clone(),
                reason: "client identities cannot sponsor another client".to_owned(),
            },
        );
    }
    if let Some(fault) = signature_fault {
        return Err(
            ControlPlaneError::NodeSignatureRejected {
                node_id: sponsor_id.clone(),
                reason: fault.clone(),
            },
        );
    }
    Ok(())
}

/// The claims that a sponsored client registers with.
pub open spec fn sponsored_claims(
    cluster_id: Seq<char>,
    sponsor_id: Seq<char>,
    bundle: ClientRegistrationBundle,
) -> JoinTokenClaimsView {
    JoinTokenClaimsView {
        cluster_id,
        bootstrap_endpoints: Seq::empty(),
        expires_at: bundle.expires_at,
        not_before: bundle.issued_at,
        role: CLIENT_ROLE@,
        tags: Set::empty(),
        issuer: sponsor_id,
        key_id: SPONSORED_REGISTRATION_KEY@,
        policy: TokenPolicyView {
            allow_join: true,
            allow_relay: false,
            allowed_routes: Seq::empty(),
            allowed_tags: Set::empty(),
            max_token_uses: Some(1),
        },
        nonce: bundle.nonce@,
    }
}

/// The claims that a sponsored client registers with.
pub fn claims_for_sponsored_client(
    cluster_id: &ClusterId,
    sponsor_id: &NodeId,
    bundle: &ClientRegistrationBundle,
) -> (r: JoinTokenClaims)
    ensures
        r@ == sponsored_claims(cluster_id@, sponsor_id@, *bundle),
{
    let r = JoinTokenClaims {
        cluster_id: cluster_id.clone(),
        bootstrap_endpoints: Vec::new(),
        expires_at: bundle.expires_at,
        not_before: bundle.issued_at,
        role: Role::from_string(CLIENT_ROLE.to_owned()),
        tags: NameSet::new(),
        issuer: sponsor_id.clone(),
        key_id: KeyId::from_string(SPONSORED_REGISTRATION_KEY.to_owned()),
        policy: TokenPolicy {
            allow_join: true,
            allow_relay: false,
            allowed_routes: Vec::new(),
            allowed_tags: NameSet::new(),
            max_token_uses: Some(1),
        },
        nonce: bundle.nonce.clone(),
    };
    assert(r@.bootstrap_endpoints =~= Seq::empty());
    r
}

/// A sponsored client registers with claims that let one client in, and nothing else.
pub proof fn law_sponsored_claims_are_control_only(
    cluster_id: Seq<char>,
    sponsor_id: Seq<char>,
    bundle: ClientRegistrationBundle,
)
    ensures
        control_only(sponsored_claims(cluster_id, sponsor_id, bundle)),
        sponsored_claims(cluster_id, sponsor_id, bundle).policy.allow_join,
{
}

/// A node that registers has only routes that its token permits and a relay only where its token
/// permits one.
pub proof fn law_registered_node_keeps_to_its_token(
    claims: JoinTokenClaimsView,
    request: RegisterNodeRequestView,
    findings: KeyFindings,
    now: Timestamp,
    skew: Span,
    vpn_ip: IpAddr,
    registered_at: Timestamp,
)
    requires
        admission_refusal(claims, request, findings, now, skew) is None,
    ensures
        ({
            let node = registered_node(
                claims,
                request,
                granted_capability(request.relay_capability),
                vpn_ip,
                registered_at,
            );
            &&& findings.derived_node_id matches Ok(derived) && derived@ == node.node_id
            &&& forall|i: int|
                0 <= i < node.routes.len() ==> route_permitted(
                    #[trigger] node.routes[i],
                    node.token_policy,
                ) && node.routes[i].advertised_by == node.node_id
            &&& node.relay_capability is Some ==> node.token_policy.allow_relay
            &&& node.relay_capability matches Some(relay) ==> relay.enabled_by_policy
        }),
{
    let routes = request.requested_routes;
    let f = |i: int| denied_route(routes[i], claims.policy);
    let g = |i: int| foreign_route_fault(request.node_id, routes[i]);
    crate::lists::lemma_first_in_none(routes.len(), f);
    crate::lists::lemma_first_in_none(routes.len(), g);
    assert forall|i: int| 0 <= i < routes.len() implies route_permitted(
        #[trigger] routes[i],
        claims.policy,
    ) && routes[i].advertised_by == request.node_id by {
        assert(f(i) is None);
        assert(g(i) is None);
    }
}

/// A relay is described soundly exactly where it has an address and a URL that can be used, room for
/// sessions and for no fewer than it has, some bandwidth, and carries encrypted traffic only.
pub proof fn law_sound_relays(capability: RelayCapabilityView)
    ensures
        relay_capability_fault(capability) is None <==> {
            &&& capability.public_endpoint is Some && capability.public_endpoint->0.usable
            &&& capability.admission_url is Some && capability.admission_url_usable
            &&& capability.max_sessions > 0
            &&& capability.active_sessions <= capability.max_sessions
            &&& capability.max_mbps > 0
            &&& capability.e2e_only
        },
        relay_capability_fault(enabled_capability(capability)) == relay_capability_fault(
            capability,
        ),
{
}

/// A participant is admitted exactly where its token lets it join, its identifier is that of its
/// identity key, its other key is valid, what it reports is sound, its routes are its own and
/// permitted by the token, and its relay, if it has one, is sound and permitted by the token.
pub proof fn law_admitted_participants_are_sound(
    claims: JoinTokenClaimsView,
    request: RegisterNodeRequestView,
    findings: KeyFindings,
    now: Timestamp,
    skew: Span,
)
    ensures
        admission_refusal(claims, request, findings, now, skew) is None <==> {
            let id = request.node_id;
            let routes = request.requested_routes;
            &&& claims.policy.allow_join
            &&& findings.derived_node_id is Ok && findings.derived_node_id->Ok_0@ == id
            &&& findings.wireguard_key_fault is None
            &&& candidates_fault(request.candidates, id, now, skew) is None
            &&& request.nat_classification is Some ==> nat_fault(
                request.nat_classification->0,
                now,
                skew,
            ) is None
            &&& routes_shape_fault(id, routes) is None
            &&& forall|i: int|
                0 <= i < routes.len() ==> (#[trigger] routes[i]).advertised_by == id
                    && route_permitted(routes[i], claims.policy)
            &&& request.relay_capability is Some ==> claims.policy.allow_relay
                && relay_capability_fault(request.relay_capability->0) is None
        },
{
    let id = request.node_id;
    let routes = request.requested_routes;
    let f = |i: int| foreign_route_fault(id, routes[i]);
    let g = |i: int| denied_route(routes[i], claims.policy);
    crate::lists::lemma_first_in_none(routes.len(), f);
    crate::lists::lemma_first_in_none(routes.len(), g);
    if request.relay_capability is Some {
        law_sound_relays(request.relay_capability->0);
    }
    if first_foreign_route(id, routes, routes.len()) is None && first_denied_route(
        routes,
        claims.policy,
        routes.len(),
    ) is None {
        assert forall|i: int| 0 <= i < routes.len() implies (#[trigger] routes[i]).advertised_by
            == id && route_permitted(routes[i], claims.policy) by {
            assert(f(i) is None && g(i) is None);
        }
    }
}

/// An attempt that the cluster refused because it changed meanwhile is made again as long as attempts
/// are left; any other refusal is final, and without one the attempt was made.
pub proof fn law_conflicts_are_tried_again(earlier: nat, refused: Option<ControlPlaneErrorView>)
    ensures
        step_after(earlier, refused) == AttemptStep::Done <==> refused is None,
        step_after(earlier, refused) == AttemptStep::Again <==> refused is Some && earlier + 1
            < MAX_ROUTE_CATALOG_UPDATE_RETRIES && (refused->0 is ClusterPolicyChanged
            || refused->0 is OverlayRouteCatalogChanged || refused->0 is NodeStateChanged),
{
}

/// A registration that was signed ahead is accepted exactly where it is of the version that is in
/// use, is valid for some whole seconds but not for too many, has not expired, is not from further
/// ahead than clocks may differ, and its nonce and its proof hold.
pub proof fn law_sound_bundles(
    bundle: ClientRegistrationBundle,
    now: Timestamp,
    skew: Span,
    limits: ProtocolLimits,
    nonce_fault: Option<Seq<char>>,
    proof_fault: Option<Seq<char>>,
)
    ensures
        bundle_fault(bundle, now, skew, limits, nonce_fault, proof_fault) is None <==> {
            &&& bundle.schema_version == limits.client_registration_schema_version
            &&& bundle.issued_at.nanos == 0 && bundle.expires_at.nanos == 0
            &&& bundle.issued_at.at() < bundle.expires_at.at()
            &&& bundle.expires_at.at() <= bundle.issued_at.at()
                + limits.max_client_registration_validity_seconds * 1_000_000_000
            &&& now.at() < bundle.expires_at.at()
            &&& skew.fits_signed() && bundle.issued_at.at() <= now.at() + skew.len()
            &&& nonce_fault is None
            &&& proof_fault is None
        },
{
}

/// A client is sponsored by a registered node, never by a client, and only where the node signed for
/// it and its signature holds.
pub proof fn law_sponsors_are_nodes(
    sponsor_id: Seq<char>,
    signed: bool,
    sponsor: Option<NodeRecordView>,
    signature_fault: Option<Seq<char>>,
)
    ensures
        sponsor_refusal(sponsor_id, signed, sponsor, signature_fault) is None <==> signed && sponsor
            is Some && sponsor->0.role != "client"@ && signature_fault is None,
{
}

/// What a client asks for when it registers: nothing but to be known by its keys.
pub proof fn law_clients_ask_for_nothing(request: RegisterClientRequest)
    ensures
        participant_request(request).node_id == request.client_id@,
        participant_request(request).identity_public_key == request.identity_public_key@,
        participant_request(request).wireguard_public_key == request.wireguard_public_key@,
        participant_request(request).candidates.len() == 0,
        participant_request(request).requested_routes.len() == 0,
        participant_request(request).relay_capability is None,
{
}

/// A known node is the one that asks again exactly where it has the cluster, the role and the tags of
/// the token and both keys of the request.
pub proof fn law_known_nodes_are_told_by_keys_and_token(
    existing: NodeRecordView,
    claims: JoinTokenClaimsView,
    request: RegisterNodeRequestView,
    vpn_ip: IpAddr,
    registered_at: Timestamp,
)
    ensures
        same_participant(
            registered_node(claims, request, request.relay_capability, vpn_ip, registered_at),
            claims,
            request,
        ),
        same_participant(existing, claims, request) ==> registered_node(
            claims,
            request,
            existing.relay_capability,
            existing.vpn_ip,
            existing.registered_at,
        ) == (NodeRecordView {
            node_id: request.node_id,
            hostname: None,
            endpoint_candidates: request.candidates,
            token_policy: claims.policy,
            routes: request.requested_routes,
            ..existing
        }),
        existing.cluster_id != claims.cluster_id ==> !same_participant(existing, claims, request),
        existing.role != claims.role ==> !same_participant(existing, claims, request),
        existing.tags != claims.tags ==> !same_participant(existing, claims, request),
        existing.identity_public_key != request.identity_public_key ==> !same_participant(
            existing,
            claims,
            request,
        ),
        existing.wireguard_public_key != request.wireguard_public_key ==> !same_participant(
            existing,
            claims,
            request,
        ),
{
}

/// A node is registered with what its token grants and what it asks for: the cluster, the role, the
/// tags and the policy of the token, and the identifier, the keys, the candidates and the routes of
/// the request.
pub proof fn law_registered_nodes_are_as_granted(
    claims: JoinTokenClaimsView,
    request: RegisterNodeRequestView,
    relay_capability: Option<RelayCapabilityView>,
    vpn_ip: IpAddr,
    registered_at: Timestamp,
)
    ensures
        ({
            let node = registered_node(claims, request, relay_capability, vpn_ip, registered_at);
            &&& node.node_id == request.node_id
            &&& node.identity_public_key == request.identity_public_key
            &&& node.wireguard_public_key == request.wireguard_public_key
            &&& node.endpoint_candidates == request.candidates
            &&& node.routes == request.requested_routes
            &&& node.cluster_id == claims.cluster_id
            &&& node.role == claims.role
            &&& node.tags == claims.tags
            &&& node.token_policy == claims.policy
            &&& node.vpn_ip == vpn_ip
            &&& node.registered_at == registered_at
            &&& node.relay_capability == relay_capability
        }),
        granted_capability(request.relay_capability) is Some
            <==> request.relay_capability is Some,
        granted_capability(request.relay_capability) is Some ==> granted_capability(
            request.relay_capability,
        )->0 == (RelayCapabilityView {
            enabled_by_policy: true,
            ..request.relay_capability->0
        }),
{
}

} // verus!
