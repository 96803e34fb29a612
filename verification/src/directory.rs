//! The directory of services: which nodes may own services, and which of these are served.

use vstd::prelude::*;
use vstd::utf8::*;

use crate::config::ProtocolLimits;
use crate::error::{refusal, ControlPlaneError, ControlPlaneErrorView};
use crate::ids::{role_is_client, ClusterId, NameSet, NodeId};
use crate::lists::kept;
use crate::map::{held, OrderedMap};
use crate::net::IpAddr;
use crate::nodes::{
    endpoint_candidate_is_fresh, entry_of, find_entry, health_lets_relay, relay_health_allows,
};
use crate::order::{
    key_view, keys_of, keys_view, lemma_sorted_by, sort_records, sorted_by, KeyPart, KeyPartView,
    KeyView,
};
use crate::routes::{text_key, text_sort_key};
use crate::service::{endpoints_have_kind, has_kind, MAX_ACTIVE_SERVICE_INSTANCES};
use crate::store::at_most;
use crate::text::{decimal, decimal_text};
use crate::time::{
    fresh, timestamp_is_fresh, Span, Timestamp, MAX_TIMESTAMP_SECONDS, MIN_TIMESTAMP_SECONDS,
};
use crate::types::{
    lemma_views_push, views, BootstrapEndpoint, BootstrapEndpointKind, BootstrapEndpointView,
    ClusterPolicy, ClusterPolicyView, EndpointCandidateKind, EndpointCandidateView,
    NatClassification, NatClassificationView, NodeHealth, NodeHealthView, NodeRecord,
    NodeRecordView, Record, ServiceInstance, ServiceInstanceView,
};

verus! {

/// The node that owns a service instance: the one that it names twice.
pub open spec fn instance_owner(instance: ServiceInstanceView) -> Option<Seq<char>> {
    match instance.owner_node_id {
        Some(owner) => if owner == instance.owner_host_id {
            Some(owner)
        } else {
            None
        },
        None => None,
    }
}

/// The node that owns a service instance: the one that it names twice.
pub fn service_instance_owner_node_id(instance: &ServiceInstance) -> (r: Option<&NodeId>)
    ensures
        crate::types::ref_view(r) == instance_owner(instance@),
{
    match &instance.owner_node_id {
        Some(owner) => {
            if owner.value == instance.owner_host_id {
                Some(owner)
            } else {
                None
            }
        },
        None => None,
    }
}

/// The candidate shows that the node can be reached at a public address.
pub open spec fn public_candidate(
    candidate: EndpointCandidateView,
    node_id: Seq<char>,
    public_ip: IpAddr,
    now: Timestamp,
    policy: ClusterPolicyView,
) -> bool {
    &&& candidate.node_id == node_id
    &&& candidate.kind == EndpointCandidateKind::PublicUdp
    &&& candidate.endpoint.addr.ip == public_ip
    &&& candidate.kind_fault is None
    &&& candidate.endpoint.globally_routable
    &&& fresh(candidate.observed_at, now, policy.endpoint_candidate_ttl_seconds)
}

/// The node can be reached from the public Internet, as far as it found out.
pub open spec fn publicly_reachable(
    node: NodeRecordView,
    classification: NatClassificationView,
    now: Timestamp,
    policy: ClusterPolicyView,
) -> bool {
    match classification.publicly_reachable_ip {
        None => false,
        Some(public_ip) => {
            &&& classification.reachable_ip_is_global
            &&& fresh(classification.assessed_at, now, policy.nat_classification_ttl_seconds)
            &&& classification.confidence.finite()
            &&& classification.confidence_percent matches Some(percent) && percent
                >= policy.nat_classification_min_confidence_percent
            &&& exists|i: int|
                0 <= i < node.endpoint_candidates.len() && public_candidate(
                    #[trigger] node.endpoint_candidates[i],
                    node.node_id,
                    public_ip,
                    now,
                    policy,
                )
        },
    }
}

fn has_public_candidate(
    node: &NodeRecord,
    public_ip: IpAddr,
    now: Timestamp,
    policy: &ClusterPolicy,
) -> (r: bool)
    ensures
        r == exists|i: int|
            0 <= i < node@.endpoint_candidates.len() && public_candidate(
                #[trigger] node@.endpoint_candidates[i],
                node@.node_id,
                public_ip,
                now,
                policy@,
            ),
{
    let ghost all = views(node.endpoint_candidates@);
    let mut i: usize = 0;
    while i < node.endpoint_candidates.len()
        invariant
            i <= node.endpoint_candidates@.len(),
            all == views(node.endpoint_candidates@),
            forall|k: int|
                0 <= k < i ==> !public_candidate(
                    #[trigger] all[k],
                    node@.node_id,
                    public_ip,
                    now,
                    policy@,
                ),
        decreases node.endpoint_candidates@.len() - i,
    {
        let candidate = &node.endpoint_candidates[i];
        assert(all[i as int] == candidate@);
        if candidate.node_id == node.node_id && candidate.kind == EndpointCandidateKind::PublicUdp
            && candidate.endpoint.addr.ip == public_ip && candidate.kind_fault.is_none()
            && candidate.endpoint.globally_routable && endpoint_candidate_is_fresh(
            candidate,
            now,
            policy.endpoint_candidate_ttl_seconds,
        ) {
            assert(node@.endpoint_candidates[i as int] == candidate@);
            return true;
        }
        i = i + 1;
    }
    false
}

/// Whether the node can be reached from the public Internet, as far as it found out.
pub fn service_owner_is_publicly_reachable(
    node: &NodeRecord,
    classification: &NatClassification,
    now: Timestamp,
    policy: &ClusterPolicy,
) -> (r: bool)
    ensures
        r == publicly_reachable(node@, classification@, now, policy@),
{
    let public_ip = match classification.publicly_reachable_ip {
        Some(public_ip) => public_ip,
        None => return false,
    };
    let confident = match classification.confidence_percent {
        Some(percent) => percent >= policy.nat_classification_min_confidence_percent,
        None => false,
    };
    classification.reachable_ip_is_global && timestamp_is_fresh(
        classification.assessed_at,
        now,
        policy.nat_classification_ttl_seconds,
    ) && classification.confidence.is_finite() && confident && has_public_candidate(
        node,
        public_ip,
        now,
        policy,
    )
}

/// The node may own services.
pub open spec fn may_own_services(
    node: NodeRecordView,
    health: Map<Seq<Seq<char>>, NodeHealthView>,
    nats: Map<Seq<Seq<char>>, NatClassificationView>,
    cluster_id: Seq<char>,
    now: Timestamp,
    policy: ClusterPolicyView,
) -> bool {
    &&& node.cluster_id == cluster_id
    &&& !role_is_client(node.role)
    &&& health_lets_relay(entry_of(health, node.node_id), now, policy.relay_health_ttl_seconds)
    &&& entry_of(nats, node.node_id) matches Some(classification) && publicly_reachable(
        node,
        classification,
        now,
        policy,
    )
}

/// Whether the node may own services.
pub fn node_may_own_services(
    node: &NodeRecord,
    health_by_node: &OrderedMap<NodeId, NodeHealth>,
    nat_by_node: &OrderedMap<NodeId, NatClassification>,
    cluster_id: &ClusterId,
    now: Timestamp,
    policy: &ClusterPolicy,
) -> (r: bool)
    requires
        health_by_node.wf(),
        nat_by_node.wf(),
    ensures
        r == may_own_services(
            node@,
            held(health_by_node@),
            held(nat_by_node@),
            cluster_id@,
            now,
            policy@,
        ),
{
    if node.cluster_id != *cluster_id || node.role.is_client() || !relay_health_allows(
        find_entry(health_by_node, &node.node_id),
        now,
        policy.relay_health_ttl_seconds,
    ) {
        return false;
    }
    match find_entry(nat_by_node, &node.node_id) {
        Some(classification) => service_owner_is_publicly_reachable(
            node,
            classification,
            now,
            policy,
        ),
        None => false,
    }
}

/// One of the nodes with this identifier may own services.
pub open spec fn eligible_owner(
    nodes: Seq<NodeRecordView>,
    health: Map<Seq<Seq<char>>, NodeHealthView>,
    nats: Map<Seq<Seq<char>>, NatClassificationView>,
    cluster_id: Seq<char>,
    now: Timestamp,
    policy: ClusterPolicyView,
    owner: Seq<char>,
) -> bool {
    exists|i: int|
        0 <= i < nodes.len() && (#[trigger] nodes[i]).node_id == owner && may_own_services(
            nodes[i],
            health,
            nats,
            cluster_id,
            now,
            policy,
        )
}

/// The identifiers of the nodes that may own services.
pub fn eligible_service_owner_node_ids(
    nodes: &Vec<NodeRecord>,
    health_by_node: &OrderedMap<NodeId, NodeHealth>,
    nat_by_node: &OrderedMap<NodeId, NatClassification>,
    cluster_id: &ClusterId,
    now: Timestamp,
    policy: &ClusterPolicy,
) -> (r: NameSet)
    requires
        health_by_node.wf(),
        nat_by_node.wf(),
    ensures
        forall|owner: Seq<char>| #[trigger]
            r@.contains(owner) <==> eligible_owner(
                views(nodes@),
                held(health_by_node@),
                held(nat_by_node@),
                cluster_id@,
                now,
                policy@,
                owner,
            ),
{
    let ghost all = views(nodes@);
    let mut r = NameSet::new();
    let mut i: usize = 0;
    while i < nodes.len()
        invariant
            health_by_node.wf(),
            nat_by_node.wf(),
            i <= nodes@.len(),
            all == views(nodes@),
            forall|owner: Seq<char>| #[trigger]
                r@.contains(owner) <==> exists|k: int|
                    0 <= k < i && (#[trigger] all[k]).node_id == owner && may_own_services(
                        all[k],
                        held(health_by_node@),
                        held(nat_by_node@),
                        cluster_id@,
                        now,
                        policy@,
                    ),
        decreases nodes@.len() - i,
    {
        let node = &nodes[i];
        assert(all[i as int] == node@);
        let ghost before = r@;
        if node_may_own_services(node, health_by_node, nat_by_node, cluster_id, now, policy) {
            r.insert(node.node_id.value.clone());
        }
        assert forall|owner: Seq<char>| #[trigger]
            r@.contains(owner) <==> exists|k: int|
                0 <= k < i + 1 && (#[trigger] all[k]).node_id == owner && may_own_services(
                    all[k],
                    held(health_by_node@),
                    held(nat_by_node@),
                    cluster_id@,
                    now,
                    policy@,
                ) by {
            if before.contains(owner) {
                let k = choose|k: int|
                    0 <= k < i && (#[trigger] all[k]).node_id == owner && may_own_services(
                        all[k],
                        held(health_by_node@),
                        held(nat_by_node@),
                        cluster_id@,
                        now,
                        policy@,
                    );
                assert(0 <= k < i + 1 && all[k].node_id == owner);
            }
            if r@.contains(owner) && !before.contains(owner) {
                assert(all[i as int].node_id == owner);
            }
        }
        i = i + 1;
    }
    r
}

/// All core services are among the endpoints.
pub open spec fn includes_core(
    endpoints: Seq<BootstrapEndpointView>,
    core: Seq<BootstrapEndpointKind>,
) -> bool {
    forall|i: int| 0 <= i < core.len() ==> has_kind(endpoints, #[trigger] core[i])
}

/// Whether all core services are among the endpoints.
pub fn bootstrap_endpoints_include_core_services(
    endpoints: &Vec<BootstrapEndpoint>,
    core: &Vec<BootstrapEndpointKind>,
) -> (r: bool)
    ensures
        r == includes_core(views(endpoints@), core@),
{
    let mut i: usize = 0;
    while i < core.len()
        invariant
            i <= core@.len(),
            forall|k: int| 0 <= k < i ==> has_kind(views(endpoints@), #[trigger] core@[k]),
        decreases core@.len() - i,
    {
        if !endpoints_have_kind(endpoints, core[i]) {
            return false;
        }
        i = i + 1;
    }
    true
}

/// The key by which instances are preferred: signers, then those with all core services, then the
/// most recently updated, then by identifier.
pub open spec fn preference_key(
    instance: ServiceInstanceView,
    core: Seq<BootstrapEndpointKind>,
) -> KeyView {
    seq![
        KeyPartView::Number(
            if instance.enrollment_signer {
                0
            } else {
                1
            },
        ),
        KeyPartView::Number(
            if includes_core(instance.endpoints, core) {
                0
            } else {
                1
            },
        ),
        KeyPartView::Number(-instance.updated_at.at()),
        KeyPartView::Bytes(encode_utf8(instance.instance_id)),
    ]
}

/// The key by which instances are listed: their identifiers.
pub open spec fn listing_key(instance: ServiceInstanceView) -> KeyView {
    text_key(instance.instance_id)
}

fn preference_sort_key(instance: &ServiceInstance, core: &Vec<BootstrapEndpointKind>) -> (r: Vec<
    KeyPart,
>)
    ensures
        key_view(r@) == preference_key(instance@, core@),
{
    let mut id: Vec<u8> = Vec::new();
    crate::digest::push_bytes(&mut id, instance.instance_id.as_str().as_bytes());
    assert(id@ =~= encode_utf8(instance@.instance_id));
    let mut r: Vec<KeyPart> = Vec::new();
    r.push(
        KeyPart::Number(
            if instance.enrollment_signer {
                0
            } else {
                1
            },
        ),
    );
    r.push(
        KeyPart::Number(
            if bootstrap_endpoints_include_core_services(&instance.endpoints, core) {
                0
            } else {
                1
            },
        ),
    );
    r.push(KeyPart::Number(-instance.updated_at.total_nanos()));
    r.push(KeyPart::Bytes(id));
    assert(key_view(r@) =~= preference_key(instance@, core@));
    r
}

/// The instances in the order of preference.
pub open spec fn preferred(
    instances: Seq<ServiceInstanceView>,
    core: Seq<BootstrapEndpointKind>,
) -> Seq<ServiceInstanceView> {
    sorted_by(instances, |instance: ServiceInstanceView| preference_key(instance, core))
}

/// The instances in the order of their identifiers.
pub open spec fn by_identifier(instances: Seq<ServiceInstanceView>) -> Seq<ServiceInstanceView> {
    sorted_by(instances, |instance: ServiceInstanceView| listing_key(instance))
}

fn sort_preferred(instances: &Vec<ServiceInstance>, core: &Vec<BootstrapEndpointKind>) -> (r: Vec<
    ServiceInstance,
>)
    ensures
        views(r@) == preferred(views(instances@), core@),
{
    let ghost all = views(instances@);
    let mut keys: Vec<Vec<KeyPart>> = Vec::new();
    let mut i: usize = 0;
    while i < instances.len()
        invariant
            i <= instances@.len(),
            keys@.len() == i,
            forall|k: int|
                0 <= k < i ==> key_view((#[trigger] keys@[k])@) == preference_key(
                    instances@[k]@,
                    core@,
                ),
        decreases instances@.len() - i,
    {
        keys.push(preference_sort_key(&instances[i], core));
        i = i + 1;
    }
    assert(keys_view(keys@) =~= keys_of(
        all,
        |instance: ServiceInstanceView| preference_key(instance, core@),
    ));
    sort_records(instances, &keys)
}

fn sort_by_identifier(instances: &Vec<ServiceInstance>) -> (r: Vec<ServiceInstance>)
    ensures
        views(r@) == by_identifier(views(instances@)),
{
    let ghost all = views(instances@);
    let mut keys: Vec<Vec<KeyPart>> = Vec::new();
    let mut i: usize = 0;
    while i < instances.len()
        invariant
            i <= instances@.len(),
            keys@.len() == i,
            forall|k: int|
                0 <= k < i ==> key_view((#[trigger] keys@[k])@) == listing_key(instances@[k]@),
        decreases instances@.len() - i,
    {
        keys.push(text_sort_key(instances[i].instance_id.as_str()));
        i = i + 1;
    }
    assert(keys_view(keys@) =~= keys_of(
        all,
        |instance: ServiceInstanceView| listing_key(instance),
    ));
    sort_records(instances, &keys)
}

/// The instances that are served: the preferred ones, no more than the limit, in the order of
/// their identifiers.
pub open spec fn served_instances(
    active: Seq<ServiceInstanceView>,
    core: Seq<BootstrapEndpointKind>,
) -> Seq<ServiceInstanceView> {
    by_identifier(at_most(preferred(active, core), MAX_ACTIVE_SERVICE_INSTANCES as nat))
}

/// What tells endpoints apart: their canonical URL where they have one.
pub open spec fn endpoint_key(endpoint: BootstrapEndpointView) -> Seq<char> {
    match endpoint.canonical_url {
        Some(url) => url,
        None => endpoint.url,
    }
}

/// How many of the endpoints are of a kind.
pub open spec fn kind_count(
    endpoints: Seq<BootstrapEndpointView>,
    kind: BootstrapEndpointKind,
    n: nat,
) -> nat {
    kept(endpoints, |endpoint: BootstrapEndpointView| endpoint.kind == kind, n).len()
}

/// The endpoint is among those listed already.
pub open spec fn listed_already(
    listed: Seq<BootstrapEndpointView>,
    endpoint: BootstrapEndpointView,
) -> bool {
    exists|i: int|
        0 <= i < listed.len() && (#[trigger] listed[i]).kind == endpoint.kind && endpoint_key(
            listed[i],
        ) == endpoint_key(endpoint)
}

/// The endpoint is added to those that are listed: these are not too many, not too many of them
/// are of its kind, and it is not among them.
pub open spec fn admits_endpoint(
    listed: Seq<BootstrapEndpointView>,
    endpoint: BootstrapEndpointView,
    max: nat,
    max_per_kind: nat,
) -> bool {
    &&& listed.len() < max
    &&& kind_count(listed, endpoint.kind, listed.len()) < max_per_kind
    &&& !listed_already(listed, endpoint)
}

/// Those of the first `n` endpoints that are listed.
pub open spec fn listed_endpoints(
    endpoints: Seq<BootstrapEndpointView>,
    max: nat,
    max_per_kind: nat,
    n: nat,
) -> Seq<BootstrapEndpointView>
    decreases n,
{
    if n == 0 {
        Seq::empty()
    } else {
        let before = listed_endpoints(endpoints, max, max_per_kind, (n - 1) as nat);
        if admits_endpoint(before, endpoints[n - 1], max, max_per_kind) {
            before.push(endpoints[n - 1])
        } else {
            before
        }
    }
}

/// The control-plane endpoints of the first `n` instances that sign enrollments.
pub open spec fn signer_endpoints(instances: Seq<ServiceInstanceView>, n: nat) -> Seq<
    BootstrapEndpointView,
>
    decreases n,
{
    if n == 0 {
        Seq::empty()
    } else {
        let before = signer_endpoints(instances, (n - 1) as nat);
        let instance = instances[n - 1];
        if instance.enrollment_signer {
            before + kept(
                instance.endpoints,
                |endpoint: BootstrapEndpointView|
                    endpoint.kind == BootstrapEndpointKind::ControlPlane,
                instance.endpoints.len(),
            )
        } else {
            before
        }
    }
}

/// The endpoints of the first `n` instances.
pub open spec fn all_endpoints(instances: Seq<ServiceInstanceView>, n: nat) -> Seq<
    BootstrapEndpointView,
>
    decreases n,
{
    if n == 0 {
        Seq::empty()
    } else {
        all_endpoints(instances, (n - 1) as nat) + instances[n - 1].endpoints
    }
}

/// The endpoints of instances as they are considered: those of signers first.
pub open spec fn considered_endpoints(instances: Seq<ServiceInstanceView>) -> Seq<
    BootstrapEndpointView,
> {
    signer_endpoints(instances, instances.len()) + all_endpoints(instances, instances.len())
}

/// The endpoints that a directory lists: none where a core service is missing.
pub open spec fn directory_endpoints(
    instances: Seq<ServiceInstanceView>,
    limits: ProtocolLimits,
) -> Seq<BootstrapEndpointView> {
    let considered = considered_endpoints(instances);
    let listed = listed_endpoints(
        considered,
        limits.max_bootstrap_endpoints as nat,
        limits.max_bootstrap_endpoints_per_kind as nat,
        considered.len(),
    );
    if includes_core(listed, limits.core_service_kinds@) {
        listed
    } else {
        Seq::empty()
    }
}

fn push_endpoints(
    target: &mut Vec<BootstrapEndpoint>,
    endpoints: &Vec<BootstrapEndpoint>,
    only_control_plane: bool,
)
    ensures
        views(final(target)@) == views(old(target)@) + (if only_control_plane {
            kept(
                views(endpoints@),
                |endpoint: BootstrapEndpointView|
                    endpoint.kind == BootstrapEndpointKind::ControlPlane,
                endpoints@.len(),
            )
        } else {
            views(endpoints@)
        }),
{
    let ghost all = views(endpoints@);
    let ghost before = views(target@);
    let ghost keep = |endpoint: BootstrapEndpointView|
        endpoint.kind == BootstrapEndpointKind::ControlPlane;
    let mut i: usize = 0;
    proof {
        assert(before =~= before + kept(all, keep, 0));
        assert(before =~= before + all.take(0));
    }
    while i < endpoints.len()
        invariant
            i <= endpoints@.len(),
            all == views(endpoints@),
            keep == (|endpoint: BootstrapEndpointView|
                endpoint.kind == BootstrapEndpointKind::ControlPlane),
            views(target@) == before + (if only_control_plane {
                kept(all, keep, i as nat)
            } else {
                all.take(i as int)
            }),
        decreases endpoints@.len() - i,
    {
        broadcast use lemma_views_push;

        let ghost so_far = views(target@);
        assert(all[i as int] == endpoints@[i as int]@);
        if !only_control_plane || endpoints[i].kind == BootstrapEndpointKind::ControlPlane {
            target.push(endpoints[i].duplicate());
            assert(views(target@) == so_far.push(all[i as int]));
        }
        i = i + 1;
        proof {
            if only_control_plane {
                assert(views(target@) =~= before + kept(all, keep, i as nat));
            } else {
                assert(views(target@) =~= before + all.take(i as int));
            }
        }
    }
    assert(all.take(i as int) =~= all);
}

fn gather_endpoints(instances: &Vec<ServiceInstance>) -> (r: Vec<BootstrapEndpoint>)
    ensures
        views(r@) == considered_endpoints(views(instances@)),
{
    let ghost all = views(instances@);
    let mut r: Vec<BootstrapEndpoint> = Vec::new();
    let mut i: usize = 0;
    assert(views(r@) =~= Seq::empty());
    while i < instances.len()
        invariant
            i <= instances@.len(),
            all == views(instances@),
            views(r@) == signer_endpoints(all, i as nat),
        decreases instances@.len() - i,
    {
        assert(all[i as int] == instances@[i as int]@);
        if instances[i].enrollment_signer {
            push_endpoints(&mut r, &instances[i].endpoints, true);
        }
        i = i + 1;
    }
    let ghost signers = views(r@);
    let mut j: usize = 0;
    assert(signers =~= signers + all_endpoints(all, 0));
    while j < instances.len()
        invariant
            j <= instances@.len(),
            all == views(instances@),
            views(r@) == signers + all_endpoints(all, j as nat),
        decreases instances@.len() - j,
    {
        assert(all[j as int] == instances@[j as int]@);
        push_endpoints(&mut r, &instances[j].endpoints, false);
        j = j + 1;
        assert(views(r@) =~= signers + all_endpoints(all, j as nat));
    }
    r
}

fn count_kind(endpoints: &Vec<BootstrapEndpoint>, kind: BootstrapEndpointKind) -> (r: usize)
    ensures
        r == kind_count(views(endpoints@), kind, endpoints@.len()),
{
    let ghost all = views(endpoints@);
    let mut count: usize = 0;
    let mut i: usize = 0;
    while i < endpoints.len()
        invariant
            i <= endpoints@.len(),
            all == views(endpoints@),
            count <= i,
            count == kind_count(all, kind, i as nat),
        decreases endpoints@.len() - i,
    {
        assert(all[i as int] == endpoints@[i as int]@);
        if endpoints[i].kind == kind {
            count = count + 1;
        }
        i = i + 1;
    }
    count
}

fn endpoint_key_text(endpoint: &BootstrapEndpoint) -> (r: &String)
    ensures
        r@ == endpoint_key(endpoint@),
{
    match &endpoint.canonical_url {
        Some(url) => url,
        None => &endpoint.url,
    }
}

fn is_listed_already(listed: &Vec<BootstrapEndpoint>, endpoint: &BootstrapEndpoint) -> (r: bool)
    ensures
        r == listed_already(views(listed@), endpoint@),
{
    let ghost all = views(listed@);
    let mut i: usize = 0;
    while i < listed.len()
        invariant
            i <= listed@.len(),
            all == views(listed@),
            forall|k: int|
                0 <= k < i ==> !((#[trigger] all[k]).kind == endpoint@.kind && endpoint_key(all[k])
                    == endpoint_key(endpoint@)),
        decreases listed@.len() - i,
    {
        assert(all[i as int] == listed@[i as int]@);
        if listed[i].kind == endpoint.kind && *endpoint_key_text(&listed[i]) == *endpoint_key_text(
            endpoint,
        ) {
            return true;
        }
        i = i + 1;
    }
    false
}

/// The endpoints that a directory lists: none where a core service is missing.
pub fn list_directory_endpoints(instances: &Vec<ServiceInstance>, limits: &ProtocolLimits) -> (r:
    Vec<BootstrapEndpoint>)
    ensures
        views(r@) == directory_endpoints(views(instances@), *limits),
{
    let considered = gather_endpoints(instances);
    let ghost all = views(considered@);
    let ghost max = limits.max_bootstrap_endpoints as nat;
    let ghost max_per_kind = limits.max_bootstrap_endpoints_per_kind as nat;
    let mut r: Vec<BootstrapEndpoint> = Vec::new();
    let mut i: usize = 0;
    assert(views(r@) =~= Seq::empty());
    while i < considered.len()
        invariant
            i <= considered@.len(),
            all == views(considered@),
            max == limits.max_bootstrap_endpoints as nat,
            max_per_kind == limits.max_bootstrap_endpoints_per_kind as nat,
            views(r@) == listed_endpoints(all, max, max_per_kind, i as nat),
        decreases considered@.len() - i,
    {
        broadcast use lemma_views_push;

        let endpoint = &considered[i];
        assert(all[i as int] == endpoint@);
        if r.len() < limits.max_bootstrap_endpoints && count_kind(&r, endpoint.kind)
            < limits.max_bootstrap_endpoints_per_kind && !is_listed_already(&r, endpoint) {
            r.push(endpoint.duplicate());
        }
        i = i + 1;
    }
    if !bootstrap_endpoints_include_core_services(&r, &limits.core_service_kinds) {
        let none: Vec<BootstrapEndpoint> = Vec::new();
        assert(views(none@) =~= Seq::empty());
        return none;
    }
    r
}

/// A directory of services.
#[derive(Debug)]
pub struct ServiceDirectory {
    pub cluster_id: ClusterId,
    pub instances: Vec<ServiceInstance>,
    pub bootstrap_endpoints: Vec<BootstrapEndpoint>,
    pub generated_at: Timestamp,
}

/// The instance is active: its lease runs on after the cutoff, and its owner may own services.
pub open spec fn active_instance(
    instance: ServiceInstanceView,
    lease_cutoff: Timestamp,
    owners: Set<Seq<char>>,
) -> bool {
    instance.lease_expires_at.at() > lease_cutoff.at() && (instance_owner(instance) matches Some(
        owner,
    ) && owners.contains(owner))
}

/// The active ones of some instances.
pub open spec fn active_instances(
    instances: Seq<ServiceInstanceView>,
    lease_cutoff: Timestamp,
    owners: Set<Seq<char>>,
) -> Seq<ServiceInstanceView> {
    kept(
        instances,
        |instance: ServiceInstanceView| active_instance(instance, lease_cutoff, owners),
        instances.len(),
    )
}

/// The directory of the services of a cluster, from its instances and the nodes that may own them.
pub fn build_service_directory(
    cluster_id: &ClusterId,
    instances: &Vec<ServiceInstance>,
    owners: &NameSet,
    limits: &ProtocolLimits,
    now: Timestamp,
    lease_cutoff: Timestamp,
) -> (r: ServiceDirectory)
    ensures
        r.cluster_id@ == cluster_id@,
        r.generated_at == now,
        views(r.instances@) == served_instances(
            active_instances(views(instances@), lease_cutoff, owners@),
            limits.core_service_kinds@,
        ),
        views(r.bootstrap_endpoints@) == directory_endpoints(views(r.instances@), *limits),
{
    let ghost all = views(instances@);
    let ghost keep = |instance: ServiceInstanceView|
        active_instance(instance, lease_cutoff, owners@);
    let mut active: Vec<ServiceInstance> = Vec::new();
    let mut i: usize = 0;
    while i < instances.len()
        invariant
            i <= instances@.len(),
            all == views(instances@),
            keep == (|instance: ServiceInstanceView|
                active_instance(instance, lease_cutoff, owners@)),
            views(active@) == kept(all, keep, i as nat),
        decreases instances@.len() - i,
    {
        broadcast use lemma_views_push;

        let instance = &instances[i];
        assert(all[i as int] == instance@);
        let owned = match service_instance_owner_node_id(instance) {
            Some(owner) => owners.contains(owner.as_str()),
            None => false,
        };
        if lease_cutoff.before(&instance.lease_expires_at) && owned {
            active.push(instance.duplicate());
        }
        i = i + 1;
    }
    let mut chosen = sort_preferred(&active, &limits.core_service_kinds);
    let ghost ranked = views(chosen@);
    if chosen.len() > MAX_ACTIVE_SERVICE_INSTANCES {
        chosen.truncate(MAX_ACTIVE_SERVICE_INSTANCES);
        assert(views(chosen@) =~= ranked.take(MAX_ACTIVE_SERVICE_INSTANCES as int));
    }
    let served = sort_by_identifier(&chosen);
    let bootstrap_endpoints = list_directory_endpoints(&served, limits);
    ServiceDirectory {
        cluster_id: cluster_id.clone(),
        instances: served,
        bootstrap_endpoints,
        generated_at: now,
    }
}

/// The owners of those of the first `n` instances that offer a kind of service.
pub open spec fn owners_offering(
    instances: Seq<ServiceInstanceView>,
    kind: BootstrapEndpointKind,
    n: nat,
) -> Set<Seq<char>>
    decreases n,
{
    if n == 0 {
        Set::empty()
    } else {
        let before = owners_offering(instances, kind, (n - 1) as nat);
        match instance_owner(instances[n - 1]) {
            Some(owner) => if has_kind(instances[n - 1].endpoints, kind) {
                before.insert(owner)
            } else {
                before
            },
            None => before,
        }
    }
}

/// The owners of the first `n` instances.
pub open spec fn owners(instances: Seq<ServiceInstanceView>, n: nat) -> Set<Seq<char>>
    decreases n,
{
    if n == 0 {
        Set::empty()
    } else {
        let before = owners(instances, (n - 1) as nat);
        match instance_owner(instances[n - 1]) {
            Some(owner) => before.insert(owner),
            None => before,
        }
    }
}

fn gather_owners_offering(
    instances: &Vec<ServiceInstance>,
    kind: BootstrapEndpointKind,
) -> (r: NameSet)
    ensures
        r@ == owners_offering(views(instances@), kind, instances@.len()),
{
    let ghost all = views(instances@);
    let mut r = NameSet::new();
    let mut i: usize = 0;
    while i < instances.len()
        invariant
            i <= instances@.len(),
            all == views(instances@),
            r@ == owners_offering(all, kind, i as nat),
        decreases instances@.len() - i,
    {
        assert(all[i as int] == instances@[i as int]@);
        if let Some(owner) = service_instance_owner_node_id(&instances[i]) {
            if endpoints_have_kind(&instances[i].endpoints, kind) {
                r.insert(owner.value.clone());
            }
        }
        i = i + 1;
    }
    r
}

/// How many nodes offer a kind of service.
pub fn service_instance_kind_count(
    instances: &Vec<ServiceInstance>,
    kind: BootstrapEndpointKind,
) -> (r: usize)
    ensures
        r == owners_offering(views(instances@), kind, instances@.len()).len(),
{
    gather_owners_offering(instances, kind).count()
}

/// How many nodes own services.
pub fn service_owner_count(instances: &Vec<ServiceInstance>) -> (r: usize)
    ensures
        r == owners(views(instances@), instances@.len()).len(),
{
    let ghost all = views(instances@);
    let mut r = NameSet::new();
    let mut i: usize = 0;
    while i < instances.len()
        invariant
            i <= instances@.len(),
            all == views(instances@),
            r@ == owners(all, i as nat),
        decreases instances@.len() - i,
    {
        assert(all[i as int] == instances@[i as int]@);
        if let Some(owner) = service_instance_owner_node_id(&instances[i]) {
            r.insert(owner.value.clone());
        }
        i = i + 1;
    }
    r.count()
}

/// The owners that offer every kind of service.
pub open spec fn full_owners(instances: Seq<ServiceInstanceView>) -> Set<Seq<char>> {
    let n = instances.len();
    owners_offering(instances, BootstrapEndpointKind::ControlPlane, n).intersect(
        owners_offering(instances, BootstrapEndpointKind::Signal, n),
    ).intersect(owners_offering(instances, BootstrapEndpointKind::Stun, n)).intersect(
        owners_offering(instances, BootstrapEndpointKind::Relay, n),
    ).intersect(owners_offering(instances, BootstrapEndpointKind::WebUi, n))
}

fn common_names(a: &NameSet, b: &NameSet) -> (r: NameSet)
    ensures
        r@ == a@.intersect(b@),
{
    let mut r = NameSet::new();
    let mut i: usize = 0;
    while i < a.names.len()
        invariant
            i <= a.names@.len(),
            forall|n: Seq<char>| #[trigger]
                r@.contains(n) <==> b@.contains(n) && exists|k: int|
                    0 <= k < i && (#[trigger] a.names@[k])@ == n,
        decreases a.names@.len() - i,
    {
        let ghost before = r@;
        let ghost name = a.names@[i as int]@;
        if b.contains(a.names[i].as_str()) {
            r.insert(a.names[i].clone());
        }
        assert forall|n: Seq<char>| #[trigger]
            r@.contains(n) <==> b@.contains(n) && exists|k: int|
                0 <= k < i + 1 && (#[trigger] a.names@[k])@ == n by {
            if before.contains(n) {
                let k = choose|k: int| 0 <= k < i && (#[trigger] a.names@[k])@ == n;
                assert(0 <= k < i + 1 && a.names@[k]@ == n);
            }
            if n == name {
                assert(a.names@[i as int]@ == n);
            }
        }
        i = i + 1;
    }
    assert(r@ =~= a@.intersect(b@));
    r
}

/// How many nodes offer every kind of service.
pub fn full_service_owner_node_count(instances: &Vec<ServiceInstance>) -> (r: usize)
    ensures
        r == full_owners(views(instances@)).len(),
{
    let control_planes = gather_owners_offering(instances, BootstrapEndpointKind::ControlPlane);
    let signals = gather_owners_offering(instances, BootstrapEndpointKind::Signal);
    let stuns = gather_owners_offering(instances, BootstrapEndpointKind::Stun);
    let relays = gather_owners_offering(instances, BootstrapEndpointKind::Relay);
    let web_uis = gather_owners_offering(instances, BootstrapEndpointKind::WebUi);
    let full = common_names(
        &common_names(&common_names(&common_names(&control_planes, &signals), &stuns), &relays),
        &web_uis,
    );
    full.count()
}

/// The message of chrono for a span that is too long to be a signed one.
pub open spec fn span_fault() -> Seq<char> {
    "Source duration value is out of range for the target type"@
}

/// Why services that are this long out of date may not be used to enroll.
pub open spec fn staleness_fault(
    max_staleness: Span,
    now: Timestamp,
    limits: ProtocolLimits,
) -> Option<Seq<char>> {
    if max_staleness.len() > limits.max_join_token_ttl_seconds * 1_000_000_000 {
        Some(
            "enrollment service staleness exceeds "@ + decimal(
                limits.max_join_token_ttl_seconds as nat,
            ) + " seconds"@,
        )
    } else if !max_staleness.fits_signed() {
        Some("invalid enrollment service staleness duration: "@ + span_fault())
    } else if now.at() - max_staleness.len() < MIN_TIMESTAMP_SECONDS * 1_000_000_000 {
        Some("enrollment service staleness is out of range"@)
    } else {
        None
    }
}

/// The instant after which the lease of a service has to run on for it to be used to enroll.
pub fn enrollment_lease_cutoff(max_staleness: Span, now: Timestamp, limits: &ProtocolLimits) -> (r:
    Result<Timestamp, ControlPlaneError>)
    requires
        now.seconds <= MAX_TIMESTAMP_SECONDS,
    ensures
        refusal(r) == match staleness_fault(max_staleness, now, *limits) {
            Some(reason) => Some(ControlPlaneErrorView::Store { reason }),
            None => None,
        },
        r matches Ok(cutoff) ==> cutoff.at() == now.at() - max_staleness.len(),
{
    let staleness: i128 = max_staleness.total_nanos();
    if staleness > Span::from_secs(limits.max_join_token_ttl_seconds).total_nanos() {
        return Err(
            ControlPlaneError::Store {
                reason: "enrollment service staleness exceeds ".to_owned().concat(
                    decimal_text(limits.max_join_token_ttl_seconds).as_str(),
                ).concat(" seconds"),
            },
        );
    }
    if !max_staleness.has_signed_form() {
        return Err(
            ControlPlaneError::Store {
                reason: "invalid enrollment service staleness duration: ".to_owned().concat(
                    "Source duration value is out of range for the target type",
                ),
            },
        );
    }
    let cutoff: i128 = now.total_nanos() - staleness;
    if cutoff < MIN_TIMESTAMP_SECONDS as i128 * 1_000_000_000 {
        return Err(
            ControlPlaneError::Store {
                reason: "enrollment service staleness is out of range".to_owned(),
            },
        );
    }
    // Counted from the earliest instant, so that neither quotient nor remainder is negative.
    let since: i128 = cutoff - MIN_TIMESTAMP_SECONDS as i128 * 1_000_000_000;
    let seconds: i128 = since / 1_000_000_000;
    let nanos: i128 = since % 1_000_000_000;
    Ok(
        Timestamp {
            seconds: (seconds + MIN_TIMESTAMP_SECONDS as i128) as i64,
            nanos: nanos as u32,
        },
    )
}

proof fn lemma_kind_count_push(
    listed: Seq<BootstrapEndpointView>,
    endpoint: BootstrapEndpointView,
    kind: BootstrapEndpointKind,
    n: nat,
)
    requires
        n <= listed.len(),
    ensures
        kind_count(listed.push(endpoint), kind, n) == kind_count(listed, kind, n),
    decreases n,
{
    if n > 0 {
        lemma_kind_count_push(listed, endpoint, kind, (n - 1) as nat);
    }
}

/// However many endpoints are considered, no more than the limits allow are listed, and none
/// twice.
pub proof fn law_listed_endpoints_are_bounded(
    endpoints: Seq<BootstrapEndpointView>,
    max: nat,
    max_per_kind: nat,
    n: nat,
    kind: BootstrapEndpointKind,
)
    requires
        n <= endpoints.len(),
    ensures
        ({
            let listed = listed_endpoints(endpoints, max, max_per_kind, n);
            &&& listed.len() <= max
            &&& kind_count(listed, kind, listed.len()) <= max_per_kind
            &&& forall|i: int, j: int|
                0 <= i < j < listed.len() ==> !((#[trigger] listed[i]).kind == (
                #[trigger] listed[j]).kind && endpoint_key(listed[i]) == endpoint_key(listed[j]))
        }),
    decreases n,
{
    if n > 0 {
        law_listed_endpoints_are_bounded(endpoints, max, max_per_kind, (n - 1) as nat, kind);
        let before = listed_endpoints(endpoints, max, max_per_kind, (n - 1) as nat);
        let endpoint = endpoints[n - 1];
        if admits_endpoint(before, endpoint, max, max_per_kind) {
            lemma_kind_count_push(before, endpoint, kind, before.len());
            let after = before.push(endpoint);
            assert forall|i: int, j: int| 0 <= i < j < after.len() implies !((
            #[trigger] after[i]).kind == (#[trigger] after[j]).kind && endpoint_key(after[i])
                == endpoint_key(after[j])) by {
                assert(after[i] == before[i]);
                if j < before.len() {
                    assert(after[j] == before[j]);
                }
            }
        }
    }
}

/// A directory serves active instances only, and no more than its limit.
pub proof fn law_directory_serves_active_instances(
    active: Seq<ServiceInstanceView>,
    core: Seq<BootstrapEndpointKind>,
    i: int,
)
    ensures
        served_instances(active, core).len() <= MAX_ACTIVE_SERVICE_INSTANCES,
        0 <= i < served_instances(active, core).len() ==> active.contains(
            served_instances(active, core)[i],
        ),
{
    let rank = |instance: ServiceInstanceView| preference_key(instance, core);
    let list = |instance: ServiceInstanceView| listing_key(instance);
    let ranked = preferred(active, core);
    let chosen = at_most(ranked, MAX_ACTIVE_SERVICE_INSTANCES as nat);
    lemma_sorted_by(active, rank);
    lemma_sorted_by(chosen, list);
    let served = served_instances(active, core);
    if 0 <= i < served.len() {
        assert(served.contains(served[i]));
        assert(chosen.contains(served[i]));
        let k = choose|k: int| 0 <= k < chosen.len() && chosen[k] == served[i];
        assert(ranked[k] == served[i]);
        assert(ranked.contains(served[i]));
    }
}

/// An active instance that signs enrollments is passed over only for others that do too.
pub proof fn law_signers_are_served_first(
    active: Seq<ServiceInstanceView>,
    core: Seq<BootstrapEndpointKind>,
    signer: ServiceInstanceView,
    i: int,
)
    requires
        active.contains(signer),
        signer.enrollment_signer,
        !served_instances(active, core).contains(signer),
        0 <= i < served_instances(active, core).len(),
    ensures
        served_instances(active, core)[i].enrollment_signer,
{
    let rank = |instance: ServiceInstanceView| preference_key(instance, core);
    let list = |instance: ServiceInstanceView| listing_key(instance);
    let ranked = preferred(active, core);
    let chosen = at_most(ranked, MAX_ACTIVE_SERVICE_INSTANCES as nat);
    let served = served_instances(active, core);
    lemma_sorted_by(active, rank);
    lemma_sorted_by(chosen, list);
    assert(ranked.contains(signer));
    let p = choose|p: int| 0 <= p < ranked.len() && ranked[p] == signer;
    if p < chosen.len() {
        assert(chosen[p] == signer);
        assert(chosen.contains(signer));
    }
    assert(served.contains(served[i]));
    assert(chosen.contains(served[i]));
    let q = choose|q: int| 0 <= q < chosen.len() && chosen[q] == served[i];
    assert(ranked[q] == served[i]);
    if !served[i].enrollment_signer {
        let a = rank(ranked[p]);
        let b = rank(ranked[q]);
        assert(a[0] == KeyPartView::Number(0));
        assert(b[0] == KeyPartView::Number(1));
        assert(crate::order::key_lt(a, b));
    }
}

/// A service counts for a node exactly where the node is its host and is named as its owner.
pub proof fn law_services_are_owned_by_their_host(instance: ServiceInstanceView)
    ensures
        instance_owner(instance) is Some <==> instance.owner_node_id == Some(
            instance.owner_host_id,
        ),
        instance_owner(instance) matches Some(owner) ==> owner == instance.owner_host_id,
{
}

/// A node may own services exactly where it is of the cluster and no client, reported to be healthy
/// not too long ago, and is publicly reachable: classified so lately, at a global address and with
/// enough confidence, and having a current public candidate at that address.
pub proof fn law_owners_are_healthy_and_public(
    node: NodeRecordView,
    health: Map<Seq<Seq<char>>, NodeHealthView>,
    nats: Map<Seq<Seq<char>>, NatClassificationView>,
    cluster_id: Seq<char>,
    now: Timestamp,
    policy: ClusterPolicyView,
)
    ensures
        may_own_services(node, health, nats, cluster_id, now, policy) <==> {
            let key = seq![node.node_id];
            let class = nats[key];
            &&& node.cluster_id == cluster_id
            &&& node.role != "client"@
            &&& health.dom().contains(key) && health[key].state
                == crate::types::HealthState::Healthy
            &&& now.at() <= health[key].last_seen_at.at() + policy.relay_health_ttl_seconds
                * 1_000_000_000
            &&& nats.dom().contains(key)
            &&& class.publicly_reachable_ip is Some && class.reachable_ip_is_global
            &&& now.at() <= class.assessed_at.at() + policy.nat_classification_ttl_seconds
                * 1_000_000_000
            &&& class.confidence.finite()
            &&& class.confidence_percent is Some && class.confidence_percent->0
                >= policy.nat_classification_min_confidence_percent
            &&& exists|i: int|
                0 <= i < node.endpoint_candidates.len() && (
                #[trigger] node.endpoint_candidates[i]).node_id == node.node_id
                    && node.endpoint_candidates[i].kind == EndpointCandidateKind::PublicUdp
                    && node.endpoint_candidates[i].endpoint.addr.ip == class.publicly_reachable_ip->0
                    && node.endpoint_candidates[i].kind_fault is None
                    && node.endpoint_candidates[i].endpoint.globally_routable && now.at()
                    <= node.endpoint_candidates[i].observed_at.at()
                    + policy.endpoint_candidate_ttl_seconds * 1_000_000_000
        },
{
    let key = seq![node.node_id];
    if nats.dom().contains(key) && nats[key].publicly_reachable_ip is Some {
        let ip = nats[key].publicly_reachable_ip->0;
        assert forall|i: int| 0 <= i < node.endpoint_candidates.len() implies (public_candidate(
            #[trigger] node.endpoint_candidates[i],
            node.node_id,
            ip,
            now,
            policy,
        ) <==> node.endpoint_candidates[i].node_id == node.node_id
            && node.endpoint_candidates[i].kind == EndpointCandidateKind::PublicUdp
            && node.endpoint_candidates[i].endpoint.addr.ip == ip
            && node.endpoint_candidates[i].kind_fault is None
            && node.endpoint_candidates[i].endpoint.globally_routable && now.at()
            <= node.endpoint_candidates[i].observed_at.at() + policy.endpoint_candidate_ttl_seconds
            * 1_000_000_000) by {}
    }
}

/// The active services are those whose lease has not ended and whose owner may own services.
pub proof fn law_active_services_are_leased(
    instances: Seq<ServiceInstanceView>,
    lease_cutoff: Timestamp,
    owners: Set<Seq<char>>,
    instance: ServiceInstanceView,
)
    ensures
        active_instances(instances, lease_cutoff, owners).contains(instance)
            <==> instances.contains(instance) && lease_cutoff.at() < instance.lease_expires_at.at()
            && instance.owner_node_id == Some(instance.owner_host_id) && owners.contains(
            instance.owner_host_id,
        ),
{
    let keep = |instance: ServiceInstanceView| active_instance(instance, lease_cutoff, owners);
    crate::lists::lemma_kept_members(instances, keep);
    assert(active_instances(instances, lease_cutoff, owners).contains(instance)
        <==> instances.contains(instance) && keep(instance));
}

/// A node owns a service, and one with an endpoint of a kind, exactly where one of the services says
/// so; it owns a full set where for each kind there is one.
pub proof fn law_owners_offer_what_their_services_have(
    instances: Seq<ServiceInstanceView>,
    kind: BootstrapEndpointKind,
    n: nat,
    owner: Seq<char>,
)
    requires
        n <= instances.len(),
    ensures
        owners(instances, n).contains(owner) <==> exists|i: int|
            0 <= i < n && (#[trigger] instances[i]).owner_host_id == owner
                && instances[i].owner_node_id == Some(owner),
        owners_offering(instances, kind, n).contains(owner) <==> exists|i: int|
            0 <= i < n && (#[trigger] instances[i]).owner_host_id == owner
                && instances[i].owner_node_id == Some(owner) && has_kind(
                instances[i].endpoints,
                kind,
            ),
        owners(instances, n).finite(),
        owners_offering(instances, kind, n).finite(),
    decreases n,
{
    if n > 0 {
        let m = (n - 1) as nat;
        law_owners_offer_what_their_services_have(instances, kind, m, owner);
        if owners(instances, m).contains(owner) {
            let i = choose|i: int|
                0 <= i < m && (#[trigger] instances[i]).owner_host_id == owner
                    && instances[i].owner_node_id == Some(owner);
            assert(instances[i].owner_host_id == owner);
        }
        if owners_offering(instances, kind, m).contains(owner) {
            let i = choose|i: int|
                0 <= i < m && (#[trigger] instances[i]).owner_host_id == owner
                    && instances[i].owner_node_id == Some(owner) && has_kind(
                    instances[i].endpoints,
                    kind,
                );
            assert(instances[i].owner_host_id == owner);
        }
        if exists|i: int|
            0 <= i < n && (#[trigger] instances[i]).owner_host_id == owner
                && instances[i].owner_node_id == Some(owner) {
            let i = choose|i: int|
                0 <= i < n && (#[trigger] instances[i]).owner_host_id == owner
                    && instances[i].owner_node_id == Some(owner);
            if i < m {
                assert(instances[i].owner_host_id == owner);
            }
        }
        if exists|i: int|
            0 <= i < n && (#[trigger] instances[i]).owner_host_id == owner
                && instances[i].owner_node_id == Some(owner) && has_kind(
                instances[i].endpoints,
                kind,
            ) {
            let i = choose|i: int|
                0 <= i < n && (#[trigger] instances[i]).owner_host_id == owner
                    && instances[i].owner_node_id == Some(owner) && has_kind(
                    instances[i].endpoints,
                    kind,
                );
            if i < m {
                assert(instances[i].owner_host_id == owner);
            }
        }
    }
}

/// A node owns a full set of services exactly where it owns one of each kind.
pub proof fn law_full_owners_offer_all_kinds(
    instances: Seq<ServiceInstanceView>,
    owner: Seq<char>,
)
    ensures
        full_owners(instances).contains(owner) <==> {
            let n = instances.len();
            forall|kind: BootstrapEndpointKind| #[trigger]
                owners_offering(instances, kind, n).contains(owner)
        },
{
    let n = instances.len();
    if full_owners(instances).contains(owner) {
        assert forall|kind: BootstrapEndpointKind| #[trigger] owners_offering(
            instances,
            kind,
            n,
        ).contains(owner) by {
            match kind {
                BootstrapEndpointKind::ControlPlane => {},
                BootstrapEndpointKind::Signal => {},
                BootstrapEndpointKind::Stun => {},
                BootstrapEndpointKind::Relay => {},
                BootstrapEndpointKind::WebUi => {},
            }
        }
    }
    if forall|kind: BootstrapEndpointKind| #[trigger]
        owners_offering(instances, kind, n).contains(owner) {
        assert(owners_offering(instances, BootstrapEndpointKind::ControlPlane, n).contains(owner));
        assert(owners_offering(instances, BootstrapEndpointKind::Signal, n).contains(owner));
        assert(owners_offering(instances, BootstrapEndpointKind::Stun, n).contains(owner));
        assert(owners_offering(instances, BootstrapEndpointKind::Relay, n).contains(owner));
        assert(owners_offering(instances, BootstrapEndpointKind::WebUi, n).contains(owner));
    }
}

/// One service is preferred to another: it is a signer and the other is not, or else it has all core
/// services and the other has not, or else it was updated later.
pub open spec fn better_service(
    a: ServiceInstanceView,
    b: ServiceInstanceView,
    core: Seq<BootstrapEndpointKind>,
) -> bool {
    if a.enrollment_signer != b.enrollment_signer {
        a.enrollment_signer
    } else if includes_core(a.endpoints, core) != includes_core(b.endpoints, core) {
        includes_core(a.endpoints, core)
    } else {
        a.updated_at.at() > b.updated_at.at()
    }
}

/// Where not all active services can be served, none is left out that is preferred to one that is
/// served; where all can be, all are. They are listed by identifier.
pub proof fn law_preferred_services_are_served(
    active: Seq<ServiceInstanceView>,
    core: Seq<BootstrapEndpointKind>,
)
    ensures
        ({
            let served = served_instances(active, core);
            &&& active.len() <= MAX_ACTIVE_SERVICE_INSTANCES ==> served.len() == active.len()
                && forall|x: ServiceInstanceView| #[trigger]
                served.contains(x) <==> active.contains(x)
            &&& forall|x: ServiceInstanceView, i: int|
                active.contains(x) && !served.contains(x) && 0 <= i < served.len()
                    ==> !#[trigger] better_service(x, served[i], core)
            &&& forall|i: int, j: int|
                0 <= i < j < served.len() ==> !crate::text::text_lt(
                    (#[trigger] served[j]).instance_id,
                    (#[trigger] served[i]).instance_id,
                )
        }),
{
    let key = |instance: ServiceInstanceView| preference_key(instance, core);
    let name = |instance: ServiceInstanceView| listing_key(instance);
    let all = preferred(active, core);
    let limit = MAX_ACTIVE_SERVICE_INSTANCES as nat;
    let few = at_most(all, limit);
    let served = served_instances(active, core);
    lemma_sorted_by(active, key);
    lemma_sorted_by(few, name);
    assert forall|x: ServiceInstanceView, i: int|
        active.contains(x) && !served.contains(x) && 0 <= i
            < served.len() implies !#[trigger] better_service(x, served[i], core) by {
        let y = served[i];
        assert(served.contains(y));
        assert(few.contains(y));
        let p = choose|p: int| 0 <= p < few.len() && few[p] == y;
        assert(all[p] == y);
        assert(all.contains(x));
        let q = choose|q: int| 0 <= q < all.len() && all[q] == x;
        if q < few.len() {
            assert(few[q] == x);
            assert(few.contains(x));
        }
        assert(p < q);
        let a = key(all[q]);
        let b = key(all[p]);
        assert(!crate::order::key_lt(a, b));
        reveal_with_fuel(crate::order::key_lt, 4);
        assert(a.skip(1)[0] == a[1] && b.skip(1)[0] == b[1]);
        assert(a.skip(1).skip(1)[0] == a[2] && b.skip(1).skip(1)[0] == b[2]);
    }
    assert forall|i: int, j: int| 0 <= i < j < served.len() implies !crate::text::text_lt(
        (#[trigger] served[j]).instance_id,
        (#[trigger] served[i]).instance_id,
    ) by {
        let a = name(served[j]);
        let b = name(served[i]);
        assert(!crate::order::key_lt(a, b));
        reveal_with_fuel(crate::order::key_lt, 2);
        crate::text::lemma_bytes_lt_irreflexive(a[0]->Bytes_0);
        assert(a.skip(1).len() == 0 && b.skip(1).len() == 0);
    }
}

/// Each endpoint that is considered is listed, unless there is no more room for it, there is no more
/// room for its kind, or the same one is listed already; and nothing else is listed.
pub proof fn law_considered_endpoints_are_listed(
    endpoints: Seq<BootstrapEndpointView>,
    max: nat,
    max_per_kind: nat,
    n: nat,
)
    requires
        n <= endpoints.len(),
    ensures
        ({
            let listed = listed_endpoints(endpoints, max, max_per_kind, n);
            &&& forall|x: BootstrapEndpointView| #[trigger]
                listed.contains(x) ==> exists|i: int| 0 <= i < n && #[trigger] endpoints[i] == x
            &&& forall|i: int|
                0 <= i < n ==> listed.len() >= max || kind_count(
                    listed,
                    (#[trigger] endpoints[i]).kind,
                    listed.len(),
                ) >= max_per_kind || exists|k: int|
                    0 <= k < listed.len() && (#[trigger] listed[k]).kind == endpoints[i].kind
                        && endpoint_key(listed[k]) == endpoint_key(endpoints[i])
        }),
    decreases n,
{
    if n > 0 {
        let m = (n - 1) as nat;
        law_considered_endpoints_are_listed(endpoints, max, max_per_kind, m);
        let before = listed_endpoints(endpoints, max, max_per_kind, m);
        let listed = listed_endpoints(endpoints, max, max_per_kind, n);
        let last = endpoints[n - 1];
        if admits_endpoint(before, last, max, max_per_kind) {
            assert(listed == before.push(last));
            assert(listed[before.len() as int] == last);
        }
        assert forall|x: BootstrapEndpointView| #[trigger] listed.contains(x) implies exists|
            i: int,
        |
            0 <= i < n && #[trigger] endpoints[i] == x by {
            let k = choose|k: int| 0 <= k < listed.len() && listed[k] == x;
            if k < before.len() {
                assert(before[k] == x);
                assert(before.contains(x));
                let i = choose|i: int| 0 <= i < m && #[trigger] endpoints[i] == x;
                assert(endpoints[i] == x);
            } else {
                assert(endpoints[n - 1] == x);
            }
        }
        assert forall|i: int| 0 <= i < n implies listed.len() >= max || kind_count(
            listed,
            (#[trigger] endpoints[i]).kind,
            listed.len(),
        ) >= max_per_kind || exists|k: int|
            0 <= k < listed.len() && (#[trigger] listed[k]).kind == endpoints[i].kind
                && endpoint_key(listed[k]) == endpoint_key(endpoints[i]) by {
            if i < m {
                let kind = endpoints[i].kind;
                if before.len() >= max {
                } else if kind_count(before, kind, before.len()) >= max_per_kind {
                    if listed != before {
                        lemma_kind_count_push(before, last, kind, before.len());
                    }
                } else {
                    let k = choose|k: int|
                        0 <= k < before.len() && (#[trigger] before[k]).kind == endpoints[i].kind
                            && endpoint_key(before[k]) == endpoint_key(endpoints[i]);
                    assert(listed[k] == before[k]);
                }
            } else if listed != before {
                assert(listed[before.len() as int].kind == endpoints[i].kind);
            }
        }
    }
}

/// The endpoints of a directory are all or nothing: either there is one of each core kind among those
/// that are listed, or none is given. The control planes of signers are considered before all others.
pub proof fn law_directory_has_all_core_services(
    instances: Seq<ServiceInstanceView>,
    limits: ProtocolLimits,
)
    ensures
        ({
            let given = directory_endpoints(instances, limits);
            let core = limits.core_service_kinds@;
            &&& given.len() > 0 ==> forall|c: int|
                0 <= c < core.len() ==> offers_kind(given, #[trigger] core[c])
            &&& given.len() > 0 ==> given == listed_endpoints(
                considered_endpoints(instances),
                limits.max_bootstrap_endpoints as nat,
                limits.max_bootstrap_endpoints_per_kind as nat,
                considered_endpoints(instances).len(),
            )
            &&& (forall|i: int|
                0 <= i < instances.len() ==> !(#[trigger] instances[i]).enrollment_signer)
                ==> signer_endpoints(instances, instances.len()).len() == 0
        }),
{
    let given = directory_endpoints(instances, limits);
    let core = limits.core_service_kinds@;
    if given.len() > 0 {
        assert forall|c: int| 0 <= c < core.len() implies offers_kind(
            given,
            #[trigger] core[c],
        ) by {
            assert(has_kind(given, core[c]));
        }
    }
    if forall|i: int| 0 <= i < instances.len() ==> !(#[trigger] instances[i]).enrollment_signer {
        lemma_no_signers(instances, instances.len());
    }
}

/// One of the endpoints is of the kind.
pub open spec fn offers_kind(
    endpoints: Seq<BootstrapEndpointView>,
    kind: BootstrapEndpointKind,
) -> bool {
    exists|i: int| 0 <= i < endpoints.len() && (#[trigger] endpoints[i]).kind == kind
}

proof fn lemma_no_signers(instances: Seq<ServiceInstanceView>, n: nat)
    requires
        n <= instances.len(),
        forall|i: int| 0 <= i < instances.len() ==> !(#[trigger] instances[i]).enrollment_signer,
    ensures
        signer_endpoints(instances, n).len() == 0,
    decreases n,
{
    if n > 0 {
        lemma_no_signers(instances, (n - 1) as nat);
    }
}

/// The endpoints of signers that are considered first are the control planes of services that sign,
/// and then come all endpoints of all services.
pub proof fn law_endpoints_are_considered_in_turn(
    instances: Seq<ServiceInstanceView>,
    n: nat,
    endpoint: BootstrapEndpointView,
)
    requires
        n <= instances.len(),
    ensures
        signer_endpoints(instances, n).contains(endpoint) <==> exists|i: int|
            0 <= i < n && (#[trigger] instances[i]).enrollment_signer && endpoint.kind
                == BootstrapEndpointKind::ControlPlane && instances[i].endpoints.contains(endpoint),
        all_endpoints(instances, n).contains(endpoint) <==> exists|i: int|
            0 <= i < n && (#[trigger] instances[i]).endpoints.contains(endpoint),
    decreases n,
{
    if n > 0 {
        let m = (n - 1) as nat;
        law_endpoints_are_considered_in_turn(instances, m, endpoint);
        let last = instances[n - 1];
        let keep = |endpoint: BootstrapEndpointView|
            endpoint.kind == BootstrapEndpointKind::ControlPlane;
        let own = kept(last.endpoints, keep, last.endpoints.len());
        crate::lists::lemma_kept_members(last.endpoints, keep);
        assert(own.contains(endpoint) <==> last.endpoints.contains(endpoint) && keep(endpoint));
        lemma_in_either(signer_endpoints(instances, m), own, endpoint);
        lemma_in_either(all_endpoints(instances, m), last.endpoints, endpoint);
        if signer_endpoints(instances, m).contains(endpoint) {
            let i = choose|i: int|
                0 <= i < m && (#[trigger] instances[i]).enrollment_signer && endpoint.kind
                    == BootstrapEndpointKind::ControlPlane && instances[i].endpoints.contains(
                    endpoint,
                );
            assert(instances[i].enrollment_signer);
        }
        if all_endpoints(instances, m).contains(endpoint) {
            let i = choose|i: int|
                0 <= i < m && (#[trigger] instances[i]).endpoints.contains(endpoint);
            assert(instances[i].endpoints.contains(endpoint));
        }
        if exists|i: int|
            0 <= i < n && (#[trigger] instances[i]).enrollment_signer && endpoint.kind
                == BootstrapEndpointKind::ControlPlane && instances[i].endpoints.contains(
                endpoint,
            ) {
            let i = choose|i: int|
                0 <= i < n && (#[trigger] instances[i]).enrollment_signer && endpoint.kind
                    == BootstrapEndpointKind::ControlPlane && instances[i].endpoints.contains(
                    endpoint,
                );
            if i < m {
                assert(instances[i].enrollment_signer);
            }
        }
        if exists|i: int| 0 <= i < n && (#[trigger] instances[i]).endpoints.contains(endpoint) {
            let i = choose|i: int|
                0 <= i < n && (#[trigger] instances[i]).endpoints.contains(endpoint);
            if i < m {
                assert(instances[i].endpoints.contains(endpoint));
            }
        }
    }
}

proof fn lemma_in_either(
    a: Seq<BootstrapEndpointView>,
    b: Seq<BootstrapEndpointView>,
    endpoint: BootstrapEndpointView,
)
    ensures
        (a + b).contains(endpoint) <==> a.contains(endpoint) || b.contains(endpoint),
{
    if a.contains(endpoint) {
        let k = choose|k: int| 0 <= k < a.len() && a[k] == endpoint;
        assert((a + b)[k] == endpoint);
    }
    if b.contains(endpoint) {
        let k = choose|k: int| 0 <= k < b.len() && b[k] == endpoint;
        assert((a + b)[a.len() + k] == endpoint);
    }
}

/// Services may be looked up with some staleness exactly where it is no longer than tokens last and
/// there is such an instant.
pub proof fn law_staleness_is_bounded(
    max_staleness: Span,
    now: Timestamp,
    limits: ProtocolLimits,
)
    ensures
        staleness_fault(max_staleness, now, limits) is None <==> {
            &&& max_staleness.len() <= limits.max_join_token_ttl_seconds * 1_000_000_000
            &&& max_staleness.fits_signed()
            &&& now.at() >= MIN_TIMESTAMP_SECONDS * 1_000_000_000 + max_staleness.len()
        },
{
}

/// Two endpoints are the same where they are of one kind and have one canonical address, or, where one
/// has none, the address that is written. The endpoints of a kind are counted by where they stand.
pub proof fn law_endpoints_are_told_by_kind_and_address(
    listed: Seq<BootstrapEndpointView>,
    endpoint: BootstrapEndpointView,
)
    ensures
        endpoint.canonical_url is Some ==> endpoint_key(endpoint) == endpoint.canonical_url->0,
        endpoint.canonical_url is None ==> endpoint_key(endpoint) == endpoint.url,
        kind_count(listed, endpoint.kind, listed.len()) == crate::lists::places(
            listed,
            |other: BootstrapEndpointView| other.kind == endpoint.kind,
            listed.len(),
        ).len(),
{
    let kind = endpoint.kind;
    let same = |other: BootstrapEndpointView| other.kind == kind;
    let alike = |other: BootstrapEndpointView| other.kind == endpoint.kind;
    crate::lists::lemma_kept_len(listed, same, listed.len());
    crate::lists::lemma_how_many_alike(listed, same, alike, listed.len());
    crate::lists::lemma_how_many_places(listed, alike, listed.len());
}

} // verus!
