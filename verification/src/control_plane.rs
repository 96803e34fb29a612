//! A control plane with its state: the cluster as it is stored, the addresses that are given out,
//! the nonces that were accepted, and what an administrator pinned. Each operation says what it
//! answers and what it changes.

use vstd::prelude::*;

use crate::auth::AcceptedNonces;
use crate::config::{ControlPlaneConfig, ProtocolLimits};
use crate::directory::{
    active_instances, build_service_directory, directory_endpoints, eligible_owner,
    eligible_service_owner_node_ids, enrollment_lease_cutoff, served_instances, staleness_fault,
    ServiceDirectory,
};
use crate::error::{refusal, ControlPlaneError, ControlPlaneErrorView};
use crate::gateway::{offered_gateways, require_client_gateway};
use crate::ids::NodeId;
use crate::intake::{admit_policy, check_policy, policy_change_refusal, policy_refusal};
use crate::lists::kept;
use crate::map::listed;
use crate::metrics::ControlPlaneOperationMetrics;
use crate::overlay::OverlayNodeSnapshot;
use crate::peer_maps::{
    filtered_peer_map_for_node, filtered_relay_map_for_node, shown_peers, shown_relays, PeerMap,
    RelayMap,
};
use crate::pins::AdminPathPins;
use crate::service::{instance_fault, instance_refusal, validate_service_instance};
use crate::store::{at, not_found, two, InMemoryStore, StoreView};
use crate::time::{Span, Timestamp, MAX_TIMESTAMP_SECONDS};
use crate::types::{
    opt_view, views, ClusterPolicy, ClusterPolicyView, NodeRecord, NodeRecordView, Record,
    ServiceInstance, ServiceInstanceView,
};
use crate::vpn::VpnAllocator;

verus! {

/// A control plane for one cluster.
pub struct ControlPlane {
    pub config: ControlPlaneConfig,
    pub limits: ProtocolLimits,
    pub store: InMemoryStore,
    /// The policy that was last seen in the store, or that the cluster is set up with.
    pub policy: ClusterPolicy,
    pub allocator: VpnAllocator,
    pub nonces: AcceptedNonces,
    pub operations: ControlPlaneOperationMetrics,
    pub pins: AdminPathPins,
    /// The overlay as it was last seen, where that still counts.
    pub overlay: Option<OverlayNodeSnapshot>,
}

/// The state of a control plane.
#[verifier::ext_equal]
pub struct ControlPlaneView {
    pub config: ControlPlaneConfig,
    pub limits: ProtocolLimits,
    pub store: StoreView,
    pub policy: ClusterPolicyView,
    pub allocator: VpnAllocator,
    pub nonces: Map<Seq<Seq<char>>, Timestamp>,
    pub operations: ControlPlaneOperationMetrics,
    pub pins: Map<Seq<Seq<char>>, bool>,
    pub overlay: Option<OverlayNodeSnapshot>,
}

impl View for ControlPlane {
    type V = ControlPlaneView;

    open spec fn view(&self) -> ControlPlaneView {
        ControlPlaneView {
            config: self.config,
            limits: self.limits,
            store: self.store@,
            policy: self.policy@,
            allocator: self.allocator,
            nonces: self.nonces@,
            operations: self.operations,
            pins: self.pins@,
            overlay: self.overlay,
        }
    }
}

impl ControlPlaneView {
    /// The name of the cluster.
    pub open spec fn cluster(self) -> Seq<char> {
        self.config.cluster_id@
    }

    /// The policy of the cluster: the one that is stored, and before there is one the one that the
    /// control plane has.
    pub open spec fn policy_in_force(self) -> ClusterPolicyView {
        match self.store.policy(self.cluster()) {
            Some(policy) => policy,
            None => self.policy,
        }
    }

    /// Why the policy of the cluster cannot be read: it is not one that is accepted, or it is not
    /// stored yet and cannot be.
    pub open spec fn policy_reading_refusal(self) -> Option<ControlPlaneErrorView> {
        let refused = policy_refusal(self.policy_in_force(), self.limits, self.config.vpn_pool);
        if refused is Some {
            refused
        } else if self.store.policy(self.cluster()) is None {
            self.store.exhaustion(self.cluster())
        } else {
            None
        }
    }

    /// The state once the policy of the cluster has been read. A policy that was not stored yet is
    /// stored then.
    pub open spec fn policy_read(self) -> ControlPlaneView {
        if self.policy_reading_refusal() is Some {
            self
        } else {
            ControlPlaneView {
                store: if self.store.policy(self.cluster()) is None {
                    self.store.advanced(self.cluster()).with_policy(self.cluster(), self.policy)
                } else {
                    self.store
                },
                policy: self.policy_in_force(),
                ..self
            }
        }
    }

    /// The nodes that may own services.
    pub open spec fn service_owners(self, now: Timestamp) -> Set<Seq<char>> {
        Set::new(
            |owner: Seq<char>|
                eligible_owner(
                    listed(self.store.nodes),
                    self.store.health,
                    self.store.nats,
                    self.cluster(),
                    now,
                    self.policy_in_force(),
                    owner,
                ),
        )
    }

    /// The service instances of the cluster, whether or not they count.
    pub open spec fn advertised_instances(self) -> Seq<ServiceInstanceView> {
        kept(
            listed(self.store.services),
            |instance: ServiceInstanceView| instance.cluster_id == self.cluster(),
            listed(self.store.services).len(),
        )
    }

    /// The service instances that the directory lists.
    pub open spec fn directory_instances(self, now: Timestamp, cutoff: Timestamp) -> Seq<
        ServiceInstanceView,
    > {
        served_instances(
            active_instances(self.advertised_instances(), cutoff, self.service_owners(now)),
            self.limits.core_service_kinds@,
        )
    }

    /// What the directory of services says.
    pub open spec fn directory_says(
        self,
        directory: ServiceDirectory,
        now: Timestamp,
        cutoff: Timestamp,
    ) -> bool {
        &&& directory.cluster_id@ == self.cluster()
        &&& directory.generated_at == now
        &&& views(directory.instances@) == self.directory_instances(now, cutoff)
        &&& views(directory.bootstrap_endpoints@) == directory_endpoints(
            self.directory_instances(now, cutoff),
            self.limits,
        )
    }

    /// Why a policy cannot become that of the cluster.
    pub open spec fn policy_setting_refusal(self, policy: ClusterPolicyView) -> Option<
        ControlPlaneErrorView,
    > {
        let refused = policy_change_refusal(
            policy,
            self.limits,
            self.config.vpn_pool,
            self.cluster(),
            listed(self.store.nodes),
        );
        if refused is Some {
            refused
        } else if self.store.policy(self.cluster()) == Some(policy) {
            None
        } else {
            self.store.exhaustion(self.cluster())
        }
    }

    /// The state once a policy has become that of the cluster. One that is the policy already is
    /// no change of the routing.
    pub open spec fn policy_set(self, policy: ClusterPolicyView) -> ControlPlaneView {
        ControlPlaneView {
            store: if self.store.policy(self.cluster()) == Some(policy) {
                self.store
            } else {
                self.store.advanced(self.cluster()).with_policy(self.cluster(), policy)
            },
            policy,
            ..self
        }
    }

    /// The state with one more service instance.
    pub open spec fn with_instance(self, instance: ServiceInstanceView) -> ControlPlaneView {
        ControlPlaneView {
            store: StoreView {
                services: self.store.services.insert(
                    two(instance.cluster_id, instance.instance_id),
                    instance,
                ),
                ..self.store
            },
            ..self
        }
    }

    /// The gateways that clients are offered.
    pub open spec fn gateways(self, now: Timestamp) -> Seq<NodeRecordView> {
        offered_gateways(
            listed(self.store.nodes),
            self.store.health,
            now,
            self.policy_in_force(),
        )
    }

    /// Why there is no gateway for a client.
    pub open spec fn gateway_refusal(self, now: Timestamp) -> Option<ControlPlaneErrorView> {
        if self.policy_reading_refusal() is Some {
            self.policy_reading_refusal()
        } else if self.gateways(now).len() == 0 {
            Some(
                ControlPlaneErrorView::Store {
                    reason: "no reachable client gateway is registered"@,
                },
            )
        } else {
            None
        }
    }

    /// What a participant is shown of its peers.
    pub open spec fn peer_map_says(
        self,
        map: PeerMap,
        node: NodeRecordView,
        now: Timestamp,
    ) -> bool {
        &&& map.cluster_id@ == self.cluster()
        &&& views(map.peers@) == shown_peers(
            node,
            listed(self.store.nodes),
            self.store.health,
            self.store.selections,
            self.policy_in_force(),
            now,
        )
        &&& views(map.bootstrap_endpoints@) == directory_endpoints(
            self.directory_instances(now, now),
            self.limits,
        )
        &&& map.generated_at == now
    }

    /// What a participant is shown of the relays.
    pub open spec fn relay_map_says(
        self,
        map: RelayMap,
        node: NodeRecordView,
        now: Timestamp,
    ) -> bool {
        &&& map.cluster_id@ == self.cluster()
        &&& views(map.relays@) == shown_relays(
            node,
            listed(self.store.nodes),
            self.store.health,
            self.policy_in_force(),
            now,
        )
        &&& map.generated_at == now
    }

    /// Reading the policy of the cluster again changes nothing, and reading it changes nothing that
    /// anyone is shown.
    pub proof fn lemma_policy_read(self)
        ensures
            self.policy_read().policy_reading_refusal() == self.policy_reading_refusal(),
            self.policy_read().policy_read() == self.policy_read(),
            self.policy_read().policy_in_force() == self.policy_in_force(),
            forall|now: Timestamp| #[trigger]
                self.policy_read().service_owners(now) == self.service_owners(now),
            self.policy_read().advertised_instances() == self.advertised_instances(),
            forall|now: Timestamp, cutoff: Timestamp| #[trigger]
                self.policy_read().directory_instances(now, cutoff) == self.directory_instances(
                    now,
                    cutoff,
                ),
    {
        let after = self.policy_read();
        assert(after.policy_in_force() == self.policy_in_force());
        assert forall|now: Timestamp| #[trigger]
            after.service_owners(now) == self.service_owners(now) by {
            assert(after.service_owners(now) =~= self.service_owners(now));
        }
        assert(after.advertised_instances() =~= self.advertised_instances());
        assert(after.policy_read() =~= after);
    }
}

impl ControlPlane {
    /// The parts are in order, and addresses come from the pool of the cluster.
    pub open spec fn wf(&self) -> bool {
        &&& self.store.wf()
        &&& self.nonces.wf()
        &&& self.pins.wf()
        &&& self.overlay matches Some(snapshot) ==> snapshot.wf()
        &&& self.allocator.pool == self.config.vpn_pool
        &&& self.allocator.next_host_offset >= 1
    }

    /// A control plane on what a store holds.
    pub fn new(config: ControlPlaneConfig, limits: ProtocolLimits, store: InMemoryStore) -> (r:
        Self)
        requires
            store.wf(),
        ensures
            r.wf(),
            r@ == (ControlPlaneView {
                config,
                limits,
                store: store@,
                policy: config.cluster_policy@,
                allocator: VpnAllocator { pool: config.vpn_pool, next_host_offset: 1 },
                nonces: Map::empty(),
                operations: r.operations,
                pins: Map::empty(),
                overlay: None,
            }),
            r.operations.wireguard_key_rotation_success_count == 0,
            r.operations.wireguard_key_rotation_failure_count == 0,
            r.operations.node_removal_success_count == 0,
            r.operations.node_removal_failure_count == 0,
    {
        let policy = config.cluster_policy.duplicate();
        let allocator = VpnAllocator::new(config.vpn_pool);
        ControlPlane {
            config,
            limits,
            store,
            policy,
            allocator,
            nonces: AcceptedNonces::new(),
            operations: ControlPlaneOperationMetrics::new(),
            pins: AdminPathPins::new(),
            overlay: None,
        }
    }

    /// What the control plane is set up with.
    pub fn config(&self) -> (r: &ControlPlaneConfig)
        ensures
            *r == self.config,
    {
        &self.config
    }

    /// The policy that was last seen, where it is one that is accepted.
    pub fn cluster_policy(&self) -> (r: Result<ClusterPolicy, ControlPlaneError>)
        ensures
            refusal(r) == policy_refusal(self@.policy, self.limits, self.config.vpn_pool),
            r matches Ok(policy) ==> policy@ == self@.policy,
    {
        check_policy(&self.policy, &self.limits, self.config.vpn_pool)?;
        Ok(self.policy.duplicate())
    }

    /// The policy of the cluster. A policy that was not stored yet is stored.
    pub fn current_cluster_policy(&mut self) -> (r: Result<ClusterPolicy, ControlPlaneError>)
        requires
            old(self).wf(),
        ensures
            final(self).wf(),
            refusal(r) == old(self)@.policy_reading_refusal(),
            r matches Ok(policy) ==> policy@ == old(self)@.policy_in_force(),
            final(self)@ == old(self)@.policy_read(),
    {
        let policy = match self.store.get_cluster_policy(&self.config.cluster_id) {
            Some(policy) => policy,
            None => {
                let first = self.cluster_policy()?;
                self.store.initialize_cluster_policy_if_absent(&self.config.cluster_id, first)?
            },
        };
        check_policy(&policy, &self.limits, self.config.vpn_pool)?;
        self.policy = policy.duplicate();
        Ok(policy)
    }

    /// Makes a policy that of the cluster, where it goes with the routes of the nodes.
    pub fn set_cluster_policy(&mut self, policy: ClusterPolicy) -> (r: Result<
        ClusterPolicy,
        ControlPlaneError,
    >)
        requires
            old(self).wf(),
        ensures
            final(self).wf(),
            refusal(r) == old(self)@.policy_setting_refusal(policy@),
            r matches Ok(set) ==> set@ == policy@,
            final(self)@ == (if r is Ok {
                old(self)@.policy_set(policy@)
            } else {
                old(self)@
            }),
    {
        let nodes = self.store.list_nodes();
        let epoch = admit_policy(&self.config, &self.limits, &policy, &nodes)?;
        let stored = self.store.upsert_cluster_policy_if_route_catalog_epoch(
            &self.config.cluster_id,
            policy.duplicate(),
            epoch,
        )?;
        if !stored {
            return Err(ControlPlaneError::ClusterPolicyChanged);
        }
        self.policy = policy.duplicate();
        Ok(policy)
    }

    /// Takes note of a service instance. `endpoints_fault` is what is wrong with its endpoints,
    /// where something is.
    pub fn advertise_service_instance(
        &mut self,
        instance: ServiceInstance,
        endpoints_fault: &Option<String>,
        now: Timestamp,
    ) -> (r: Result<(), ControlPlaneError>)
        requires
            old(self).wf(),
        ensures
            final(self).wf(),
            refusal(r) == instance_refusal(
                instance_fault(instance@, old(self)@.cluster(), opt_view(*endpoints_fault), now),
            ),
            final(self)@ == (if r is Ok {
                old(self)@.with_instance(instance@)
            } else {
                old(self)@
            }),
    {
        validate_service_instance(&instance, &self.config.cluster_id, endpoints_fault, now)?;
        self.store.upsert_service_instance(instance);
        Ok(())
    }

    /// Drops a service instance of the cluster, and says whether there was one.
    pub fn withdraw_service_instance(&mut self, instance_id: &str) -> (r: bool)
        requires
            old(self).wf(),
        ensures
            final(self).wf(),
            r == at(old(self)@.store.services, two(old(self)@.cluster(), instance_id@)) is Some,
            final(self)@ == (ControlPlaneView {
                store: StoreView {
                    services: old(self)@.store.services.remove(
                        two(old(self)@.cluster(), instance_id@),
                    ),
                    ..old(self)@.store
                },
                ..old(self)@
            }),
    {
        self.store.remove_service_instance(&self.config.cluster_id, instance_id)
    }

    fn service_directory_since(&mut self, now: Timestamp, cutoff: Timestamp) -> (r: Result<
        ServiceDirectory,
        ControlPlaneError,
    >)
        requires
            old(self).wf(),
        ensures
            final(self).wf(),
            refusal(r) == old(self)@.policy_reading_refusal(),
            r matches Ok(directory) ==> old(self)@.directory_says(directory, now, cutoff),
            final(self)@ == old(self)@.policy_read(),
    {
        let policy = self.current_cluster_policy()?;
        let nodes = self.store.list_nodes();
        let health = self.store.list_health();
        let nats = self.store.list_nat_classifications();
        let owners = eligible_service_owner_node_ids(
            &nodes,
            &health,
            &nats,
            &self.config.cluster_id,
            now,
            &policy,
        );
        assert(owners@ =~= old(self)@.service_owners(now));
        let instances = self.store.list_service_instances(&self.config.cluster_id);
        assert(views(instances@) =~= old(self)@.advertised_instances());
        Ok(
            build_service_directory(
                &self.config.cluster_id,
                &instances,
                &owners,
                &self.limits,
                now,
                cutoff,
            ),
        )
    }

    /// The services of the cluster whose leases run.
    pub fn service_directory(&mut self, now: Timestamp) -> (r: Result<
        ServiceDirectory,
        ControlPlaneError,
    >)
        requires
            old(self).wf(),
        ensures
            final(self).wf(),
            refusal(r) == old(self)@.policy_reading_refusal(),
            r matches Ok(directory) ==> old(self)@.directory_says(directory, now, now),
            final(self)@ == old(self)@.policy_read(),
    {
        self.service_directory_since(now, now)
    }

    /// The services of the cluster whose leases ran out no longer ago than is put up with.
    pub fn enrollment_service_directory(&mut self, max_staleness: Span, now: Timestamp) -> (r:
        Result<ServiceDirectory, ControlPlaneError>)
        requires
            old(self).wf(),
            now.seconds <= MAX_TIMESTAMP_SECONDS,
        ensures
            final(self).wf(),
            match staleness_fault(max_staleness, now, old(self).limits) {
                Some(reason) => {
                    &&& refusal(r) == Some(ControlPlaneErrorView::Store { reason })
                    &&& final(self)@ == old(self)@
                },
                None => {
                    &&& refusal(r) == old(self)@.policy_reading_refusal()
                    &&& r matches Ok(directory) ==> exists|cutoff: Timestamp|
                        cutoff.at() == now.at() - max_staleness.len()
                            && #[trigger] old(self)@.directory_says(directory, now, cutoff)
                    &&& final(self)@ == old(self)@.policy_read()
                },
            },
    {
        let cutoff = enrollment_lease_cutoff(max_staleness, now, &self.limits)?;
        self.service_directory_since(now, cutoff)
    }

    /// The gateway that a client is offered first.
    pub fn require_client_gateway(&mut self, now: Timestamp) -> (r: Result<
        NodeRecord,
        ControlPlaneError,
    >)
        requires
            old(self).wf(),
        ensures
            final(self).wf(),
            refusal(r) == old(self)@.gateway_refusal(now),
            r matches Ok(gateway) ==> gateway@ == old(self)@.gateways(now)[0],
            final(self)@ == old(self)@.policy_read(),
    {
        let policy = self.current_cluster_policy()?;
        let nodes = self.store.list_nodes();
        let health = self.store.list_health();
        require_client_gateway(&nodes, &health, now, &policy)
    }

    /// What a participant is shown, and the policy of the cluster.
    pub(crate) fn maps_for(&mut self, node: &NodeRecord, now: Timestamp) -> (r: Result<
        (PeerMap, RelayMap, ClusterPolicy),
        ControlPlaneError,
    >)
        requires
            old(self).wf(),
        ensures
            final(self).wf(),
            refusal(r) == old(self)@.policy_reading_refusal(),
            r matches Ok((peer_map, relay_map, policy)) ==> {
                &&& old(self)@.peer_map_says(peer_map, node@, now)
                &&& old(self)@.relay_map_says(relay_map, node@, now)
                &&& policy@ == old(self)@.policy_in_force()
            },
            final(self)@ == old(self)@.policy_read(),
    {
        let policy = self.current_cluster_policy()?;
        let directory = self.service_directory(now)?;
        let peers = self.store.list_nodes();
        let health = self.store.list_health();
        let selections = self.store.list_client_gateway_selections();
        let peer_map = filtered_peer_map_for_node(
            &self.config.cluster_id,
            node,
            &peers,
            &health,
            &selections,
            &policy,
            directory.bootstrap_endpoints,
            now,
        );
        let relay_map = filtered_relay_map_for_node(
            &self.config.cluster_id,
            node,
            &peers,
            &health,
            &policy,
            now,
        );
        proof {
            old(self)@.lemma_policy_read();
        }
        Ok((peer_map, relay_map, policy))
    }

    /// What a participant is shown of its peers.
    pub fn peer_map_for(&mut self, node_id: &NodeId, now: Timestamp) -> (r: Result<
        PeerMap,
        ControlPlaneError,
    >)
        requires
            old(self).wf(),
        ensures
            final(self).wf(),
            match old(self)@.store.node(node_id@) {
                None => refusal(r) == not_found(node_id@) && final(self)@ == old(self)@,
                Some(node) => {
                    &&& refusal(r) == old(self)@.policy_reading_refusal()
                    &&& r matches Ok(map) ==> old(self)@.peer_map_says(map, node, now)
                    &&& final(self)@ == old(self)@.policy_read()
                },
            },
    {
        match self.store.get_node(node_id) {
            None => Err(ControlPlaneError::NodeNotFound { node_id: node_id.clone() }),
            Some(node) => {
                let (peer_map, _, _) = self.maps_for(&node, now)?;
                Ok(peer_map)
            },
        }
    }
}

/// A policy that was set is in force from then on, also for a control plane that is set up anew on
/// the same store with another policy.
pub proof fn law_set_policy_is_in_force(
    plane: ControlPlaneView,
    policy: ClusterPolicyView,
    restarted: ControlPlaneView,
)
    requires
        plane.policy_setting_refusal(policy) is None,
        restarted.store == plane.policy_set(policy).store,
        restarted.cluster() == plane.cluster(),
    ensures
        plane.policy_set(policy).policy_in_force() == policy,
        restarted.policy_in_force() == policy,
        restarted.limits == plane.limits && restarted.config.vpn_pool == plane.config.vpn_pool
            ==> restarted.policy_reading_refusal() is None && restarted.policy_read().policy
            == policy,
{
}

/// The policy that a cluster is set up with is stored when it is first read, and reading it is no
/// change afterwards.
pub proof fn law_first_policy_is_stored(plane: ControlPlaneView)
    requires
        plane.policy_reading_refusal() is None,
    ensures
        plane.policy_read().store.policy(plane.cluster()) == Some(plane.policy_in_force()),
        plane.policy_read().policy_read() == plane.policy_read(),
        plane.store.policy(plane.cluster()) is Some ==> plane.policy_read().store == plane.store,
{
    plane.lemma_policy_read();
}

/// The policy in force is the one that the store keeps for the cluster, and else the one that the
/// control plane started with.
pub proof fn law_stored_policy_is_in_force(plane: ControlPlaneView)
    ensures
        ({
            let key = seq![plane.cluster()];
            plane.policy_in_force() == if plane.store.policies.dom().contains(key) {
                plane.store.policies[key]
            } else {
                plane.policy
            }
        }),
{
}

/// The services of the cluster are those that are kept for it, and their owners are those registered
/// nodes that may own services.
pub proof fn law_services_are_of_the_cluster(
    plane: ControlPlaneView,
    now: Timestamp,
    instance: ServiceInstanceView,
    owner: Seq<char>,
)
    ensures
        plane.advertised_instances().contains(instance) <==> listed(
            plane.store.services,
        ).contains(instance) && instance.cluster_id == plane.cluster(),
        plane.service_owners(now).contains(owner) <==> exists|i: int|
            0 <= i < listed(plane.store.nodes).len() && (
            #[trigger] listed(plane.store.nodes)[i]).node_id == owner
                && crate::directory::may_own_services(
                listed(plane.store.nodes)[i],
                plane.store.health,
                plane.store.nats,
                plane.cluster(),
                now,
                plane.policy_in_force(),
            ),
{
    let keep = |instance: ServiceInstanceView| instance.cluster_id == plane.cluster();
    crate::lists::lemma_kept_members(listed(plane.store.services), keep);
    assert(plane.advertised_instances().contains(instance) <==> listed(
        plane.store.services,
    ).contains(instance) && keep(instance));
}

/// Clients are taken exactly where the policy can be read and there is a gateway that they can use.
pub proof fn law_clients_need_a_gateway(plane: ControlPlaneView, now: Timestamp)
    ensures
        plane.gateway_refusal(now) is None <==> plane.policy_reading_refusal() is None
            && offered_gateways(
            listed(plane.store.nodes),
            plane.store.health,
            now,
            plane.policy_in_force(),
        ).len() > 0,
{
}

/// To read the policy stores it where none was stored, which moves the state of the overlay on by one,
/// and else changes nothing that is stored. To set a policy moves it on exactly where the policy is
/// another one.
pub proof fn law_policies_move_the_overlay_on_once(
    plane: ControlPlaneView,
    policy: ClusterPolicyView,
)
    ensures
        ({
            let key = seq![plane.cluster()];
            let stored = plane.store.policies.dom().contains(key);
            let before = plane.store.epoch(plane.cluster());
            let read = plane.policy_read().store;
            let set = plane.policy_set(policy).store;
            &&& plane.policy_reading_refusal() is None && !stored ==> read.epoch(plane.cluster())
                == before + 1 && read.policies == plane.store.policies.insert(key, plane.policy)
            &&& plane.policy_reading_refusal() is Some || stored ==> read == plane.store
            &&& stored && plane.store.policies[key] == policy ==> set == plane.store
            &&& !(stored && plane.store.policies[key] == policy) && before < u64::MAX ==> set.epoch(
                plane.cluster(),
            ) == before + 1 && set.policies == plane.store.policies.insert(key, policy)
            &&& read.nodes == plane.store.nodes
            &&& set.nodes == plane.store.nodes
        }),
{
}

/// A service is kept under its cluster and its name, and touches nothing else.
pub proof fn law_service_is_kept_under_its_name(
    plane: ControlPlaneView,
    instance: ServiceInstanceView,
)
    ensures
        ({
            let key = seq![instance.cluster_id, instance.instance_id];
            let after = plane.with_instance(instance);
            &&& after.store.services == plane.store.services.insert(key, instance)
            &&& after.store.nodes == plane.store.nodes
            &&& after.overlay == plane.overlay
        }),
{
}

} // verus!
