//! Services: what nodes may advertise, who may own a service, and the directory of services.

use vstd::prelude::*;

use crate::error::{reason_of, refusal, ControlPlaneError, ControlPlaneErrorView};
use crate::heartbeat::update_rejection;
use crate::ids::{ClusterId, NodeId};
use crate::lists::{first_in, lemma_first_in_extends};
use crate::net::{IpAddr, SocketAddr};
use crate::registration::{relay_capability_fault, validate_relay_capability_shape};
use crate::text::{byte_len, byte_length, identifier_text, is_identifier_text};
use crate::time::Timestamp;
use crate::types::{
    opt_view, views, BootstrapEndpoint, BootstrapEndpointKind, BootstrapEndpointView,
    HeartbeatRequest, HeartbeatRequestView, NodeRecord, RelayCapabilityView, ServiceInstance,
    ServiceInstanceView,
};

verus! {

/// How many service instances a directory has at most.
pub const MAX_ACTIVE_SERVICE_INSTANCES: usize = 64;

/// The longest lease of a service instance, in seconds.
pub const MAX_SERVICE_LEASE_SECONDS: i64 = 300;

/// The lease of a service that a heartbeat advertises, in seconds.
pub const HEARTBEAT_SERVICE_LEASE_SECONDS: i64 = 45;

/// How far in the future a service instance may have been updated, in seconds.
pub const SERVICE_UPDATE_SKEW_SECONDS: i64 = 5;

/// The text may name a service instance or its owner.
pub open spec fn service_identifier(value: Seq<char>) -> bool {
    value.len() > 0 && byte_len(value) <= 255 && identifier_text(value, false)
}

/// Whether a text may name a service instance or its owner.
pub fn valid_service_instance_identifier(value: &str) -> (r: bool)
    ensures
        r == service_identifier(value@),
{
    value.unicode_len() > 0 && byte_length(value) <= 255 && is_identifier_text(value, false)
}

/// The identifier of the service instance that the heartbeats of a node advertise.
pub open spec fn heartbeat_instance_id(node_id: Seq<char>) -> Seq<char> {
    "agent-services-"@ + node_id
}

/// The identifier of the service instance that the heartbeats of a node advertise.
pub fn heartbeat_service_instance_id(node_id: &NodeId) -> (r: String)
    ensures
        r@ == heartbeat_instance_id(node_id@),
{
    "agent-services-".to_owned().concat(node_id.as_str())
}

/// A service of this kind can be advertised in a heartbeat.
pub open spec fn heartbeat_kind(kind: BootstrapEndpointKind) -> bool {
    kind == BootstrapEndpointKind::Signal || kind == BootstrapEndpointKind::Stun || kind
        == BootstrapEndpointKind::Relay
}

/// An earlier endpoint has the kind of the one at position `i`.
pub open spec fn repeats_kind(endpoints: Seq<BootstrapEndpointView>, i: int) -> bool {
    exists|j: int| 0 <= j < i && (#[trigger] endpoints[j]).kind == endpoints[i].kind
}

/// Why a Signal endpoint may not be advertised in a heartbeat.
pub open spec fn signal_fault(endpoint: BootstrapEndpointView, vpn_ip: IpAddr) -> Option<
    Seq<char>,
> {
    match endpoint.literal_http {
        None => Some("heartbeat Signal endpoint must use a literal, usable VPN IP address"@),
        Some(addr) => if addr.ip != vpn_ip {
            Some(
                "heartbeat Signal endpoint IP "@ + addr.ip.display()
                    + " does not match node VPN IP "@ + vpn_ip.display(),
            )
        } else {
            None
        },
    }
}

/// Why a Relay endpoint may not be advertised in a heartbeat.
pub open spec fn relay_endpoint_fault(addr: SocketAddr, relay: Option<RelayCapabilityView>) -> Option<
    Seq<char>,
> {
    match relay {
        None => Some("Relay endpoint requires a live Relay capability report"@),
        Some(relay) => if relay_capability_fault(relay) is Some || !(relay.public_endpoint matches
            Some(endpoint) && endpoint.addr == addr) {
            Some("Relay endpoint does not match the live Relay capability report"@)
        } else {
            None
        },
    }
}

/// Why a Stun or Relay endpoint may not be advertised in a heartbeat.
pub open spec fn datagram_fault(
    endpoint: BootstrapEndpointView,
    public_ip: IpAddr,
    relay: Option<RelayCapabilityView>,
) -> Option<Seq<char>> {
    match endpoint.literal_udp {
        None => Some(
            "heartbeat "@ + endpoint.kind_label
                + " endpoint must use a literal, usable public IP address"@,
        ),
        Some(addr) => if addr.ip != public_ip {
            Some(
                "heartbeat "@ + endpoint.kind_label + " endpoint IP "@ + addr.ip.display()
                    + " does not match classified public IP "@ + public_ip.display(),
            )
        } else if endpoint.kind == BootstrapEndpointKind::Relay {
            relay_endpoint_fault(addr, relay)
        } else {
            None
        },
    }
}

/// Why the endpoint at position `i` may not be advertised in a heartbeat.
pub open spec fn advertised_endpoint_fault(
    endpoints: Seq<BootstrapEndpointView>,
    vpn_ip: IpAddr,
    public_ip: IpAddr,
    relay: Option<RelayCapabilityView>,
    i: int,
) -> Option<Seq<char>> {
    let endpoint = endpoints[i];
    if !heartbeat_kind(endpoint.kind) {
        Some("heartbeat service advertisement cannot publish "@ + endpoint.kind_label)
    } else if repeats_kind(endpoints, i) {
        Some(
            "heartbeat service advertisement contains multiple "@ + endpoint.kind_label
                + " endpoints"@,
        )
    } else if endpoint.kind == BootstrapEndpointKind::Signal {
        signal_fault(endpoint, vpn_ip)
    } else {
        datagram_fault(endpoint, public_ip, relay)
    }
}

/// Why one of the first `n` endpoints may not be advertised in a heartbeat.
pub open spec fn first_advertised_endpoint_fault(
    endpoints: Seq<BootstrapEndpointView>,
    vpn_ip: IpAddr,
    public_ip: IpAddr,
    relay: Option<RelayCapabilityView>,
    n: nat,
) -> Option<Seq<char>> {
    first_in(n, |i: int| advertised_endpoint_fault(endpoints, vpn_ip, public_ip, relay, i))
}

/// The heartbeat advertises services.
pub open spec fn advertises(request: HeartbeatRequestView) -> bool {
    request.service_advertisement matches Some(advertisement) && advertisement.endpoints.len() > 0
}

/// Why the services of a heartbeat are not accepted. `endpoints_fault` is what the check of the
/// endpoints themselves found wrong.
pub open spec fn advertisement_fault(
    request: HeartbeatRequestView,
    vpn_ip: IpAddr,
    endpoints_fault: Option<Seq<char>>,
) -> Option<Seq<char>> {
    if !advertises(request) {
        None
    } else if endpoints_fault is Some {
        endpoints_fault
    } else {
        let endpoints = request.service_advertisement->0.endpoints;
        let public_ip = match request.nat_classification {
            Some(classification) => classification.publicly_reachable_ip,
            None => None,
        };
        match public_ip {
            None => Some("service advertisement requires a public NAT classification"@),
            Some(public_ip) => first_advertised_endpoint_fault(
                endpoints,
                vpn_ip,
                public_ip,
                request.relay_capability,
                endpoints.len(),
            ),
        }
    }
}

/// The service instance that a heartbeat advertises.
pub open spec fn advertised_instance(
    request: HeartbeatRequestView,
    cluster_id: Seq<char>,
    now: Timestamp,
) -> Option<ServiceInstanceView> {
    if advertises(request) {
        Some(
            ServiceInstanceView {
                cluster_id,
                instance_id: heartbeat_instance_id(request.node_id),
                owner_host_id: request.node_id,
                owner_node_id: Some(request.node_id),
                enrollment_signer: false,
                endpoints: request.service_advertisement->0.endpoints,
                lease_expires_at: Timestamp {
                    seconds: (now.seconds + HEARTBEAT_SERVICE_LEASE_SECONDS) as i64,
                    nanos: now.nanos,
                },
                updated_at: now,
            },
        )
    } else {
        None
    }
}

fn kind_repeated(endpoints: &Vec<BootstrapEndpoint>, i: usize) -> (r: bool)
    requires
        i < endpoints@.len(),
    ensures
        r == repeats_kind(views(endpoints@), i as int),
{
    let ghost all = views(endpoints@);
    let mut j: usize = 0;
    while j < i
        invariant
            j <= i < endpoints@.len(),
            all == views(endpoints@),
            forall|k: int| 0 <= k < j ==> (#[trigger] all[k]).kind != all[i as int].kind,
        decreases i - j,
    {
        if endpoints[j].kind == endpoints[i].kind {
            assert(all[j as int].kind == all[i as int].kind);
            return true;
        }
        j = j + 1;
    }
    false
}

fn check_signal(endpoint: &BootstrapEndpoint, vpn_ip: IpAddr) -> (r: Result<(), String>)
    ensures
        reason_of(r) == signal_fault(endpoint@, vpn_ip),
{
    match endpoint.literal_http {
        None => Err(
            "heartbeat Signal endpoint must use a literal, usable VPN IP address".to_owned(),
        ),
        Some(addr) => {
            if addr.ip != vpn_ip {
                return Err(
                    "heartbeat Signal endpoint IP ".to_owned().concat(
                        addr.ip.to_text().as_str(),
                    ).concat(" does not match node VPN IP ").concat(vpn_ip.to_text().as_str()),
                );
            }
            Ok(())
        },
    }
}

fn check_datagram(
    endpoint: &BootstrapEndpoint,
    public_ip: IpAddr,
    request: &HeartbeatRequest,
) -> (r: Result<(), String>)
    ensures
        reason_of(r) == datagram_fault(endpoint@, public_ip, request@.relay_capability),
{
    let addr = match endpoint.literal_udp {
        Some(addr) => addr,
        None => return Err(
            "heartbeat ".to_owned().concat(endpoint.kind_label.as_str()).concat(
                " endpoint must use a literal, usable public IP address",
            ),
        ),
    };
    if addr.ip != public_ip {
        return Err(
            "heartbeat ".to_owned().concat(endpoint.kind_label.as_str()).concat(
                " endpoint IP ",
            ).concat(addr.ip.to_text().as_str()).concat(
                " does not match classified public IP ",
            ).concat(public_ip.to_text().as_str()),
        );
    }
    if endpoint.kind == BootstrapEndpointKind::Relay {
        let relay = match &request.relay_capability {
            Some(relay) => relay,
            None => return Err(
                "Relay endpoint requires a live Relay capability report".to_owned(),
            ),
        };
        let same = match relay.public_endpoint {
            Some(public_endpoint) => public_endpoint.addr == addr,
            None => false,
        };
        if validate_relay_capability_shape(relay).is_err() || !same {
            return Err(
                "Relay endpoint does not match the live Relay capability report".to_owned(),
            );
        }
    }
    Ok(())
}

fn check_advertised_endpoint(
    endpoints: &Vec<BootstrapEndpoint>,
    vpn_ip: IpAddr,
    public_ip: IpAddr,
    request: &HeartbeatRequest,
    i: usize,
) -> (r: Result<(), String>)
    requires
        i < endpoints@.len(),
    ensures
        reason_of(r) == advertised_endpoint_fault(
            views(endpoints@),
            vpn_ip,
            public_ip,
            request@.relay_capability,
            i as int,
        ),
{
    let endpoint = &endpoints[i];
    assert(views(endpoints@)[i as int] == endpoint@);
    match endpoint.kind {
        BootstrapEndpointKind::Signal | BootstrapEndpointKind::Stun
        | BootstrapEndpointKind::Relay => {},
        _ => return Err(
            "heartbeat service advertisement cannot publish ".to_owned().concat(
                endpoint.kind_label.as_str(),
            ),
        ),
    }
    if kind_repeated(endpoints, i) {
        return Err(
            "heartbeat service advertisement contains multiple ".to_owned().concat(
                endpoint.kind_label.as_str(),
            ).concat(" endpoints"),
        );
    }
    if endpoint.kind == BootstrapEndpointKind::Signal {
        check_signal(endpoint, vpn_ip)
    } else {
        check_datagram(endpoint, public_ip, request)
    }
}

fn check_advertised_endpoints(
    endpoints: &Vec<BootstrapEndpoint>,
    vpn_ip: IpAddr,
    public_ip: IpAddr,
    request: &HeartbeatRequest,
) -> (r: Result<(), String>)
    ensures
        reason_of(r) == first_advertised_endpoint_fault(
            views(endpoints@),
            vpn_ip,
            public_ip,
            request@.relay_capability,
            endpoints@.len(),
        ),
{
    let ghost all = views(endpoints@);
    let ghost relay = request@.relay_capability;
    let mut i: usize = 0;
    while i < endpoints.len()
        invariant
            i <= endpoints@.len(),
            all == views(endpoints@),
            relay == request@.relay_capability,
            first_advertised_endpoint_fault(all, vpn_ip, public_ip, relay, i as nat) is None,
        decreases endpoints@.len() - i,
    {
        let checked = check_advertised_endpoint(endpoints, vpn_ip, public_ip, request, i);
        if checked.is_err() {
            proof {
                lemma_first_in_extends(
                    (i + 1) as nat,
                    all.len(),
                    |k: int| advertised_endpoint_fault(all, vpn_ip, public_ip, relay, k),
                );
            }
            return checked;
        }
        i = i + 1;
    }
    Ok(())
}

/// The service instance that a heartbeat advertises, where it advertises services.
/// `endpoints_fault` is what the check of the endpoints themselves found wrong.
pub fn heartbeat_service_instance(
    request: &HeartbeatRequest,
    node: &NodeRecord,
    cluster_id: &ClusterId,
    endpoints_fault: &Option<String>,
    now: Timestamp,
) -> (r: Result<Option<ServiceInstance>, ControlPlaneError>)
    requires
        now.seconds <= i64::MAX - HEARTBEAT_SERVICE_LEASE_SECONDS,
    ensures
        refusal(r) == update_rejection(
            request@.node_id,
            advertisement_fault(request@, node@.vpn_ip, opt_view(*endpoints_fault)),
        ),
        r matches Ok(instance) ==> opt_view(instance) == advertised_instance(
            request@,
            cluster_id@,
            now,
        ),
{
    let advertisement = match &request.service_advertisement {
        Some(advertisement) => advertisement,
        None => return Ok(None),
    };
    if advertisement.endpoints.len() == 0 {
        return Ok(None);
    }
    if let Some(fault) = endpoints_fault {
        return Err(
            ControlPlaneError::NodeUpdateRejected {
                node_id: request.node_id.clone(),
                reason: fault.clone(),
            },
        );
    }
    let public_ip = match &request.nat_classification {
        Some(classification) => classification.publicly_reachable_ip,
        None => None,
    };
    let public_ip = match public_ip {
        Some(public_ip) => public_ip,
        None => return Err(
            ControlPlaneError::NodeUpdateRejected {
                node_id: request.node_id.clone(),
                reason: "service advertisement requires a public NAT classification".to_owned(),
            },
        ),
    };
    match check_advertised_endpoints(&advertisement.endpoints, node.vpn_ip, public_ip, request) {
        Ok(()) => {},
        Err(reason) => return Err(
            ControlPlaneError::NodeUpdateRejected { node_id: request.node_id.clone(), reason },
        ),
    }
    Ok(
        Some(
            ServiceInstance {
                cluster_id: cluster_id.clone(),
                instance_id: heartbeat_service_instance_id(&request.node_id),
                owner_host_id: request.node_id.value.clone(),
                owner_node_id: Some(request.node_id.clone()),
                enrollment_signer: false,
                endpoints: crate::types::duplicate_all(&advertisement.endpoints),
                lease_expires_at: now.plus_seconds(HEARTBEAT_SERVICE_LEASE_SECONDS),
                updated_at: now,
            },
        ),
    )
}

/// One of the endpoints is of the kind.
pub open spec fn has_kind(
    endpoints: Seq<BootstrapEndpointView>,
    kind: BootstrapEndpointKind,
) -> bool {
    exists|i: int| 0 <= i < endpoints.len() && (#[trigger] endpoints[i]).kind == kind
}

/// Whether one of the endpoints is of the kind.
pub fn endpoints_have_kind(
    endpoints: &Vec<BootstrapEndpoint>,
    kind: BootstrapEndpointKind,
) -> (r: bool)
    ensures
        r == has_kind(views(endpoints@), kind),
{
    let ghost all = views(endpoints@);
    let mut i: usize = 0;
    while i < endpoints.len()
        invariant
            i <= endpoints@.len(),
            all == views(endpoints@),
            forall|k: int| 0 <= k < i ==> (#[trigger] all[k]).kind != kind,
        decreases endpoints@.len() - i,
    {
        assert(all[i as int].kind == endpoints@[i as int].kind);
        if endpoints[i].kind == kind {
            return true;
        }
        i = i + 1;
    }
    false
}

/// Two of the endpoints are of one kind.
pub open spec fn repeats_some_kind(endpoints: Seq<BootstrapEndpointView>) -> bool {
    exists|i: int| 0 <= i < endpoints.len() && #[trigger] repeats_kind(endpoints, i)
}

fn some_kind_repeated(endpoints: &Vec<BootstrapEndpoint>) -> (r: bool)
    ensures
        r == repeats_some_kind(views(endpoints@)),
{
    let ghost all = views(endpoints@);
    let mut i: usize = 0;
    while i < endpoints.len()
        invariant
            i <= endpoints@.len(),
            all == views(endpoints@),
            forall|k: int| 0 <= k < i ==> !#[trigger] repeats_kind(all, k),
        decreases endpoints@.len() - i,
    {
        if kind_repeated(endpoints, i) {
            return true;
        }
        i = i + 1;
    }
    false
}

/// Why a service instance is not accepted. `endpoints_fault` is what the check of the endpoints
/// themselves found wrong.
pub open spec fn instance_fault(
    instance: ServiceInstanceView,
    cluster_id: Seq<char>,
    endpoints_fault: Option<Seq<char>>,
    now: Timestamp,
) -> Option<Seq<char>> {
    let id = instance.instance_id;
    if instance.cluster_id != cluster_id {
        Some(
            "service instance "@ + id + " belongs to cluster "@ + instance.cluster_id
                + " instead of "@ + cluster_id,
        )
    } else if !service_identifier(id) {
        Some("service instance ID must be 1 to 255 ASCII letters, digits, '_', '.' or '-'"@)
    } else if !service_identifier(instance.owner_host_id) {
        Some("service owner host ID must be 1 to 255 ASCII letters, digits, '_', '.' or '-'"@)
    } else if instance.owner_node_id is None {
        Some("service owner node ID is required"@)
    } else if !service_identifier(instance.owner_node_id->0) {
        Some("service owner node ID must be 1 to 255 ASCII letters, digits, '_', '.' or '-'"@)
    } else if instance.owner_node_id->0 != instance.owner_host_id {
        Some("service owner host ID must equal owner node ID"@)
    } else if endpoints_fault is Some {
        endpoints_fault
    } else if instance.endpoints.len() == 0 {
        Some("service instance "@ + id + " must advertise at least one endpoint"@)
    } else if instance.enrollment_signer && !has_kind(
        instance.endpoints,
        BootstrapEndpointKind::ControlPlane,
    ) {
        Some(
            "enrollment signer service instance "@ + id
                + " must advertise a control-plane endpoint"@,
        )
    } else if repeats_some_kind(instance.endpoints) {
        Some(
            "service instance "@ + id + " must advertise at most one endpoint per service kind"@,
        )
    } else if instance.updated_at.at() > now.at() + SERVICE_UPDATE_SKEW_SECONDS * 1_000_000_000 {
        Some("service instance "@ + id + " update timestamp is in the future"@)
    } else if instance.lease_expires_at.at() <= instance.updated_at.at() {
        Some("service instance "@ + id + " lease must expire after its update timestamp"@)
    } else if instance.lease_expires_at.at() - instance.updated_at.at() > MAX_SERVICE_LEASE_SECONDS
        * 1_000_000_000 {
        Some("service instance "@ + id + " lease exceeds 300 seconds"@)
    } else {
        None
    }
}

fn check_instance(
    instance: &ServiceInstance,
    cluster_id: &ClusterId,
    endpoints_fault: &Option<String>,
    now: Timestamp,
) -> (r: Result<(), String>)
    ensures
        reason_of(r) == instance_fault(instance@, cluster_id@, opt_view(*endpoints_fault), now),
{
    let id = instance.instance_id.as_str();
    if instance.cluster_id != *cluster_id {
        return Err(
            "service instance ".to_owned().concat(id).concat(" belongs to cluster ").concat(
                instance.cluster_id.as_str(),
            ).concat(" instead of ").concat(cluster_id.as_str()),
        );
    }
    if !valid_service_instance_identifier(id) {
        return Err(
            "service instance ID must be 1 to 255 ASCII letters, digits, '_', '.' or '-'".to_owned(),
        );
    }
    if !valid_service_instance_identifier(instance.owner_host_id.as_str()) {
        return Err(
            "service owner host ID must be 1 to 255 ASCII letters, digits, '_', '.' or '-'".to_owned(),
        );
    }
    let owner = match &instance.owner_node_id {
        Some(owner) => owner,
        None => return Err("service owner node ID is required".to_owned()),
    };
    if !valid_service_instance_identifier(owner.as_str()) {
        return Err(
            "service owner node ID must be 1 to 255 ASCII letters, digits, '_', '.' or '-'".to_owned(),
        );
    }
    if owner.value != instance.owner_host_id {
        return Err("service owner host ID must equal owner node ID".to_owned());
    }
    if let Some(fault) = endpoints_fault {
        return Err(fault.clone());
    }
    if instance.endpoints.len() == 0 {
        return Err(
            "service instance ".to_owned().concat(id).concat(
                " must advertise at least one endpoint",
            ),
        );
    }
    if instance.enrollment_signer && !endpoints_have_kind(
        &instance.endpoints,
        BootstrapEndpointKind::ControlPlane,
    ) {
        return Err(
            "enrollment signer service instance ".to_owned().concat(id).concat(
                " must advertise a control-plane endpoint",
            ),
        );
    }
    if some_kind_repeated(&instance.endpoints) {
        return Err(
            "service instance ".to_owned().concat(id).concat(
                " must advertise at most one endpoint per service kind",
            ),
        );
    }
    if instance.updated_at.total_nanos() > now.total_nanos() + SERVICE_UPDATE_SKEW_SECONDS as i128
        * 1_000_000_000 {
        return Err(
            "service instance ".to_owned().concat(id).concat(
                " update timestamp is in the future",
            ),
        );
    }
    if instance.lease_expires_at.at_or_before(&instance.updated_at) {
        return Err(
            "service instance ".to_owned().concat(id).concat(
                " lease must expire after its update timestamp",
            ),
        );
    }
    if instance.lease_expires_at.total_nanos() - instance.updated_at.total_nanos()
        > MAX_SERVICE_LEASE_SECONDS as i128 * 1_000_000_000 {
        return Err(
            "service instance ".to_owned().concat(id).concat(" lease exceeds 300 seconds"),
        );
    }
    Ok(())
}

/// The refusal of a service instance, where there is a reason for it.
pub open spec fn instance_refusal(reason: Option<Seq<char>>) -> Option<ControlPlaneErrorView> {
    match reason {
        Some(reason) => Some(ControlPlaneErrorView::Store { reason }),
        None => None,
    }
}

/// Checks a service instance. `endpoints_fault` is what the check of the endpoints themselves found
/// wrong.
pub fn validate_service_instance(
    instance: &ServiceInstance,
    cluster_id: &ClusterId,
    endpoints_fault: &Option<String>,
    now: Timestamp,
) -> (r: Result<(), ControlPlaneError>)
    ensures
        refusal(r) == instance_refusal(
            instance_fault(instance@, cluster_id@, opt_view(*endpoints_fault), now),
        ),
{
    match check_instance(instance, cluster_id, endpoints_fault, now) {
        Ok(()) => Ok(()),
        Err(reason) => Err(ControlPlaneError::Store { reason }),
    }
}

/// The services of a heartbeat are accepted exactly where nothing speaks against their endpoints,
/// the node is publicly reachable, each service is of a kind that nodes can offer and of another kind
/// than the rest, and each is where it must be: signalling at the VPN address of the node, the others
/// at its public address, and a relay where the node reports its sound relay to be.
pub proof fn law_offered_services_are_in_place(
    request: HeartbeatRequestView,
    vpn_ip: IpAddr,
    endpoints_fault: Option<Seq<char>>,
)
    requires
        request.service_advertisement is Some,
        request.service_advertisement->0.endpoints.len() > 0,
    ensures
        advertisement_fault(request, vpn_ip, endpoints_fault) is None <==> {
            let endpoints = request.service_advertisement->0.endpoints;
            &&& endpoints_fault is None
            &&& request.nat_classification is Some
            &&& request.nat_classification->0.publicly_reachable_ip is Some
            &&& forall|i: int|
                0 <= i < endpoints.len() ==> offered_in_place(
                    #[trigger] endpoints[i],
                    vpn_ip,
                    request.nat_classification->0.publicly_reachable_ip->0,
                    request.relay_capability,
                )
            &&& forall|i: int, j: int|
                0 <= j < i < endpoints.len() ==> (#[trigger] endpoints[j]).kind != (
                #[trigger] endpoints[i]).kind
        },
{
    let endpoints = request.service_advertisement->0.endpoints;
    if request.nat_classification is Some
        && request.nat_classification->0.publicly_reachable_ip is Some {
        let public_ip = request.nat_classification->0.publicly_reachable_ip->0;
        let relay = request.relay_capability;
        let f = |i: int| advertised_endpoint_fault(endpoints, vpn_ip, public_ip, relay, i);
        crate::lists::lemma_first_in_none(endpoints.len(), f);
        assert forall|i: int| 0 <= i < endpoints.len() implies (#[trigger] f(i) is None <==> {
            &&& offered_in_place(endpoints[i], vpn_ip, public_ip, relay)
            &&& forall|j: int| 0 <= j < i ==> (#[trigger] endpoints[j]).kind != endpoints[i].kind
        }) by {}
        if first_advertised_endpoint_fault(
            endpoints,
            vpn_ip,
            public_ip,
            relay,
            endpoints.len(),
        ) is None {
            assert forall|i: int| 0 <= i < endpoints.len() implies offered_in_place(
                #[trigger] endpoints[i],
                vpn_ip,
                public_ip,
                relay,
            ) by {
                assert(f(i) is None);
            }
            assert forall|i: int, j: int| 0 <= j < i < endpoints.len() implies (
            #[trigger] endpoints[j]).kind != (#[trigger] endpoints[i]).kind by {
                assert(f(i) is None);
            }
        }
    }
}

/// A service is offered by a node where such a service must be.
pub open spec fn offered_in_place(
    endpoint: BootstrapEndpointView,
    vpn_ip: IpAddr,
    public_ip: IpAddr,
    relay: Option<RelayCapabilityView>,
) -> bool {
    if endpoint.kind == BootstrapEndpointKind::Signal {
        endpoint.literal_http is Some && endpoint.literal_http->0.ip == vpn_ip
    } else if endpoint.kind == BootstrapEndpointKind::Stun {
        endpoint.literal_udp is Some && endpoint.literal_udp->0.ip == public_ip
    } else if endpoint.kind == BootstrapEndpointKind::Relay {
        &&& endpoint.literal_udp is Some && endpoint.literal_udp->0.ip == public_ip
        &&& relay is Some && relay_capability_fault(relay->0) is None
        &&& relay->0.public_endpoint is Some && relay->0.public_endpoint->0.addr
            == endpoint.literal_udp->0
    } else {
        false
    }
}

/// What a node offers is its own, is never a signer, and ends a fixed time after it was said.
pub proof fn law_offered_services_are_leased_to_the_node(
    request: HeartbeatRequestView,
    cluster_id: Seq<char>,
    now: Timestamp,
)
    requires
        now.seconds + HEARTBEAT_SERVICE_LEASE_SECONDS <= i64::MAX,
    ensures
        advertised_instance(request, cluster_id, now) is Some <==> request.service_advertisement
            is Some && request.service_advertisement->0.endpoints.len() > 0,
        advertised_instance(request, cluster_id, now) matches Some(instance) ==> {
            &&& instance.cluster_id == cluster_id
            &&& instance.owner_host_id == request.node_id
            &&& instance.owner_node_id == Some(request.node_id)
            &&& instance.instance_id == "agent-services-"@ + request.node_id
            &&& !instance.enrollment_signer
            &&& instance.endpoints == request.service_advertisement->0.endpoints
            &&& instance.updated_at == now
            &&& instance.lease_expires_at.at() == now.at() + HEARTBEAT_SERVICE_LEASE_SECONDS
                * 1_000_000_000
        },
{
}

/// A service is registered exactly where it is of the cluster, soundly named, owned by the node that
/// runs it, has endpoints of different kinds and no fault, has that of a control plane where it is a
/// signer, and has a lease that begins no further ahead than clocks may differ and is not too long.
pub proof fn law_sound_instances(
    instance: ServiceInstanceView,
    cluster_id: Seq<char>,
    endpoints_fault: Option<Seq<char>>,
    now: Timestamp,
)
    ensures
        instance_fault(instance, cluster_id, endpoints_fault, now) is None <==> {
            let endpoints = instance.endpoints;
            &&& instance.cluster_id == cluster_id
            &&& instance.owner_node_id == Some(instance.owner_host_id)
            &&& instance.instance_id.len() > 0 && byte_len(instance.instance_id) <= 255
            &&& identifier_text(instance.instance_id, false)
            &&& instance.owner_host_id.len() > 0 && byte_len(instance.owner_host_id) <= 255
            &&& identifier_text(instance.owner_host_id, false)
            &&& endpoints_fault is None
            &&& endpoints.len() > 0
            &&& instance.enrollment_signer ==> exists|i: int|
                0 <= i < endpoints.len() && (#[trigger] endpoints[i]).kind
                    == BootstrapEndpointKind::ControlPlane
            &&& forall|i: int, j: int|
                0 <= j < i < endpoints.len() ==> (#[trigger] endpoints[j]).kind != (
                #[trigger] endpoints[i]).kind
            &&& instance.updated_at.at() <= now.at() + SERVICE_UPDATE_SKEW_SECONDS * 1_000_000_000
            &&& instance.updated_at.at() < instance.lease_expires_at.at()
            &&& instance.lease_expires_at.at() <= instance.updated_at.at() + 300 * 1_000_000_000
        },
{
    let endpoints = instance.endpoints;
    assert(!repeats_some_kind(endpoints) <==> forall|i: int, j: int|
        0 <= j < i < endpoints.len() ==> (#[trigger] endpoints[j]).kind != (
        #[trigger] endpoints[i]).kind) by {
        if !repeats_some_kind(endpoints) {
            assert forall|i: int, j: int| 0 <= j < i < endpoints.len() implies (
            #[trigger] endpoints[j]).kind != (#[trigger] endpoints[i]).kind by {
                assert(!repeats_kind(endpoints, i));
            }
        }
    }
}

} // verus!
