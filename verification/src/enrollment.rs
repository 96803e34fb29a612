//! Nodes and clients that join: who gets which address, and who is already there.

use vstd::prelude::*;

use crate::control_plane::{ControlPlane, ControlPlaneView};
use crate::error::{refusal, ControlPlaneError, ControlPlaneErrorView};
use crate::ids::role_is_client;
use crate::intake::{admit_registration_routes, registration_routes_refusal};
use crate::lists::lemma_gathered;
use crate::map::{lemma_listing, listed};
use crate::net::{lemma_cidr_bounds, IpAddr};
use crate::peer_maps::{PeerMap, RelayMap};
use crate::registration::{
    admission_refusal, admit_registration, client_participant_request, control_only,
    ensure_client_claims, ensure_node_claims, ensure_same_participant, granted_capability,
    is_conflict, node_for_registration, participant_request, registered_node, same_participant,
    step_after_attempt, AttemptStep, KeyFindings, RegisterClientRequest,
    MAX_ROUTE_CATALOG_UPDATE_RETRIES,
};
use crate::routes::route_update_outcome;
use crate::store::{one, StoreView};
use crate::time::Timestamp;
use crate::types::{
    duplicate_all, duplicate_option, opt_view, ClusterPolicy, ClusterPolicyView, JoinTokenClaims,
    JoinTokenClaimsView, NodeRecord, NodeRecordView, Record, RegisterNodeRequest,
    RegisterNodeRequestView, RejoinNodeStoreUpdate, RejoinNodeStoreUpdateView, RelayCapability,
};
use crate::vpn::{
    allocation, assigned_addresses, assigned_ipv4, assigned_ipv4_vpn_ips, usable_host,
};

verus! {

/// What a node gets that registers.
#[derive(Debug)]
pub struct RegisterNodeResponse {
    pub node: NodeRecord,
    pub peer_map: PeerMap,
    pub relay_map: RelayMap,
    pub cluster_policy: ClusterPolicy,
}

/// What a client gets that registers.
#[derive(Debug)]
pub struct RegisterClientResponse {
    pub client: NodeRecord,
    pub peer_map: PeerMap,
    pub cluster_policy: ClusterPolicy,
}

impl StoreView {
    /// Why a node is not stored: the cluster is not as it was, or the node is there already, or the
    /// routing of the cluster cannot change any more.
    pub open spec fn insertion_refusal(
        self,
        node: NodeRecordView,
        policy: Option<ClusterPolicyView>,
        epoch: Option<u64>,
    ) -> Option<ControlPlaneErrorView> {
        let change = self.cluster_change(node.cluster_id, policy, epoch);
        if change is Some {
            change
        } else if self.node(node.node_id) is Some {
            Some(ControlPlaneErrorView::NodeAlreadyExists { node_id: node.node_id })
        } else {
            self.exhaustion(node.cluster_id)
        }
    }
}

/// What came of an attempt to register: why it failed, where it did, the node as it is then
/// stored, and the state of the control plane.
pub struct Attempt {
    pub refused: Option<ControlPlaneErrorView>,
    pub node: NodeRecordView,
    pub state: ControlPlaneView,
}

impl ControlPlaneView {
    /// The addresses that nodes have.
    pub open spec fn reserved_addresses(self) -> Seq<u32> {
        assigned_addresses(listed(self.store.nodes))
    }

    /// The node that registers, with the next address that is free.
    pub open spec fn newcomer(
        self,
        claims: JoinTokenClaimsView,
        request: RegisterNodeRequestView,
        now: Timestamp,
    ) -> NodeRecordView {
        registered_node(
            claims,
            request,
            granted_capability(request.relay_capability),
            IpAddr::V4(self.allocator.next_address(self.reserved_addresses())->0),
            now,
        )
    }

    /// What changes of a node that registers again.
    pub open spec fn rejoining(
        self,
        claims: JoinTokenClaimsView,
        request: RegisterNodeRequestView,
        epoch: Option<u64>,
    ) -> RejoinNodeStoreUpdateView {
        RejoinNodeStoreUpdateView {
            cluster_id: claims.cluster_id,
            expected_cluster_policy: Some(self.policy_in_force()),
            expected_route_catalog_epoch: epoch,
            expected_node: self.store.node(request.node_id)->0,
            candidates: request.candidates,
            relay_capability: granted_capability(request.relay_capability),
            routes: request.requested_routes,
        }
    }

    /// One attempt to register: an address is set aside, and the node is stored with it, or keeps
    /// the one that it has.
    pub open spec fn attempt(
        self,
        claims: JoinTokenClaimsView,
        request: RegisterNodeRequestView,
        epoch: Option<u64>,
        now: Timestamp,
    ) -> Attempt {
        let node = self.newcomer(claims, request, now);
        let update = self.rejoining(claims, request, epoch);
        let placed = ControlPlaneView {
            allocator: self.allocator.after_allocation(self.reserved_addresses()),
            ..self
        };
        let refused = self.store.insertion_refusal(node, Some(self.policy_in_force()), epoch);
        if self.allocator.next_address(self.reserved_addresses()) is None {
            Attempt { refused: Some(ControlPlaneErrorView::VpnPoolExhausted), node, state: placed }
        } else if refused is None {
            Attempt {
                refused: None,
                node,
                state: ControlPlaneView {
                    store: self.store.advanced(node.cluster_id).with_node(node),
                    ..placed
                },
            }
        } else if !(refused->0 is NodeAlreadyExists) {
            Attempt { refused, node, state: placed }
        } else if !same_participant(update.expected_node, claims, request) {
            Attempt { refused, node, state: placed }
        } else if self.store.rejoin_refusal(update) is Some {
            Attempt { refused: self.store.rejoin_refusal(update), node, state: placed }
        } else {
            Attempt {
                refused: None,
                node: self.store.rejoined(update),
                state: ControlPlaneView { store: self.store.after_rejoin(update), ..placed },
            }
        }
    }

    /// Why the routes of a registration are not accepted.
    pub open spec fn requested_routes_refusal(self, request: RegisterNodeRequestView) -> Option<
        ControlPlaneErrorView,
    > {
        registration_routes_refusal(
            request.node_id,
            request.requested_routes,
            self.policy_in_force(),
            self.config.vpn_pool,
            self.cluster(),
            listed(self.store.nodes),
        )
    }

    /// The route catalog that the routes of a registration were held against.
    pub open spec fn requested_routes_epoch(self, request: RegisterNodeRequestView) -> Option<u64> {
        if request.requested_routes.len() == 0 {
            None
        } else {
            route_update_outcome(
                request.node_id,
                request.requested_routes,
                self.policy_in_force().overlay_route_scopes,
                self.config.vpn_pool,
                self.cluster(),
                listed(self.store.nodes),
            ).1
        }
    }

    /// A registration, which is tried again where the cluster changed meanwhile.
    pub open spec fn registration(
        self,
        claims: JoinTokenClaimsView,
        request: RegisterNodeRequestView,
        now: Timestamp,
        tries: nat,
    ) -> Attempt
        decreases tries,
    {
        let ready = self.policy_read();
        let node = self.newcomer(claims, request, now);
        let step = ready.attempt(claims, request, self.requested_routes_epoch(request), now);
        if self.policy_reading_refusal() is Some {
            Attempt { refused: self.policy_reading_refusal(), node, state: self }
        } else if self.requested_routes_refusal(request) is Some {
            Attempt { refused: self.requested_routes_refusal(request), node, state: ready }
        } else if step.refused is Some && is_conflict(step.refused->0) && tries > 1 {
            step.state.registration(claims, request, now, (tries - 1) as nat)
        } else {
            step
        }
    }

    /// Why a participant is not registered.
    pub open spec fn enrollment_refusal(
        self,
        claims: JoinTokenClaimsView,
        request: RegisterNodeRequestView,
        findings: KeyFindings,
        now: Timestamp,
    ) -> Option<ControlPlaneErrorView> {
        let refused = admission_refusal(
            claims,
            request,
            findings,
            now,
            self.config.heartbeat_signature_max_age,
        );
        if refused is Some {
            refused
        } else {
            self.registration(claims, request, now, MAX_ROUTE_CATALOG_UPDATE_RETRIES as nat).refused
        }
    }

    /// The state after a participant asked to be registered.
    pub open spec fn enrolled(
        self,
        claims: JoinTokenClaimsView,
        request: RegisterNodeRequestView,
        findings: KeyFindings,
        now: Timestamp,
    ) -> ControlPlaneView {
        let step = self.registration(claims, request, now, MAX_ROUTE_CATALOG_UPDATE_RETRIES as nat);
        if admission_refusal(
            claims,
            request,
            findings,
            now,
            self.config.heartbeat_signature_max_age,
        ) is Some {
            self
        } else if step.refused is Some {
            step.state
        } else {
            ControlPlaneView {
                store: match request.nat_classification {
                    Some(classification) => StoreView {
                        nats: step.state.store.nats.insert(
                            one(step.node.node_id),
                            classification,
                        ),
                        ..step.state.store
                    },
                    None => step.state.store,
                },
                overlay: None,
                ..step.state
            }
        }
    }

    /// An attempt leaves the policy alone, and where it succeeds the policy has been read.
    pub proof fn lemma_attempt(
        self,
        claims: JoinTokenClaimsView,
        request: RegisterNodeRequestView,
        epoch: Option<u64>,
        now: Timestamp,
    )
        ensures
            ({
                let after = self.attempt(claims, request, epoch, now).state;
                &&& after.store.policies == self.store.policies
                &&& after.policy == self.policy
                &&& after.config == self.config
                &&& after.limits == self.limits
                &&& after.nonces == self.nonces
            }),
    {
    }

    /// Once a participant is registered, the policy of the cluster has been read.
    pub proof fn lemma_registration(
        self,
        claims: JoinTokenClaimsView,
        request: RegisterNodeRequestView,
        now: Timestamp,
        tries: nat,
    )
        requires
            self.registration(claims, request, now, tries).refused is None,
        ensures
            ({
                let after = self.registration(claims, request, now, tries).state;
                &&& after.policy_reading_refusal() is None
                &&& after.policy_read() == after
                &&& after.policy_in_force() == self.policy_in_force()
                &&& after.config == self.config
                &&& after.limits == self.limits
                &&& after.nonces == self.nonces
            }),
        decreases tries,
    {
        let ready = self.policy_read();
        let epoch = self.requested_routes_epoch(request);
        let step = ready.attempt(claims, request, epoch, now);
        ready.lemma_attempt(claims, request, epoch, now);
        self.lemma_policy_read();
        if step.refused is Some && is_conflict(step.refused->0) && tries > 1 {
            step.state.lemma_registration(claims, request, now, (tries - 1) as nat);
        } else {
            assert(step.state.policy_read() =~= step.state);
        }
    }

    /// A registration leaves the services, the identity providers and the selections alone.
    proof fn lemma_registration_keeps(
        self,
        claims: JoinTokenClaimsView,
        request: RegisterNodeRequestView,
        now: Timestamp,
        tries: nat,
    )
        ensures
            ({
                let after = self.registration(claims, request, now, tries).state.store;
                &&& after.services == self.store.services
                &&& after.keycloak == self.store.keycloak
                &&& after.selections == self.store.selections
            }),
        decreases tries,
    {
        let ready = self.policy_read();
        let step = ready.attempt(claims, request, self.requested_routes_epoch(request), now);
        if step.refused is Some && is_conflict(step.refused->0) && tries > 1 {
            step.state.lemma_registration_keeps(claims, request, now, (tries - 1) as nat);
        }
    }
}

impl ControlPlane {
    fn attempt_registration(
        &mut self,
        claims: &JoinTokenClaims,
        request: &RegisterNodeRequest,
        granted: &Option<RelayCapability>,
        policy: &ClusterPolicy,
        epoch: Option<u64>,
        now: Timestamp,
    ) -> (r: Result<NodeRecord, ControlPlaneError>)
        requires
            old(self).wf(),
            opt_view(*granted) == granted_capability(request@.relay_capability),
            policy@ == old(self)@.policy_in_force(),
        ensures
            final(self).wf(),
            ({
                let step = old(self)@.attempt(claims@, request@, epoch, now);
                &&& refusal(r) == step.refused
                &&& r matches Ok(node) ==> node@ == step.node
                &&& final(self)@ == step.state
            }),
    {
        let nodes = self.store.list_nodes();
        let reserved = assigned_ipv4_vpn_ips(&nodes);
        let vpn_ip = self.allocator.allocate_next(&reserved)?;
        let node = node_for_registration(claims, request, granted, vpn_ip, now);
        match self.store.insert_node_if_cluster_policy(
            node.duplicate(),
            Some(policy.duplicate()),
            epoch,
        ) {
            Ok(()) => return Ok(node),
            Err(ControlPlaneError::NodeAlreadyExists { .. }) => {},
            Err(error) => return Err(error),
        }
        let found = self.store.get_node(&request.node_id);
        ensure_same_participant(found.as_ref(), claims, request)?;
        match found {
            None => Err(ControlPlaneError::NodeNotFound { node_id: request.node_id.clone() }),
            Some(existing) => self.store.rejoin_node_if_cluster_policy(
                RejoinNodeStoreUpdate {
                    cluster_id: claims.cluster_id.clone(),
                    expected_cluster_policy: Some(policy.duplicate()),
                    expected_route_catalog_epoch: epoch,
                    expected_node: existing,
                    candidates: duplicate_all(&request.candidates),
                    relay_capability: duplicate_option(granted),
                    routes: duplicate_all(&request.requested_routes),
                },
            ),
        }
    }

    fn register_participant_with_claims(
        &mut self,
        claims: &JoinTokenClaims,
        request: &RegisterNodeRequest,
        findings: &KeyFindings,
        now: Timestamp,
    ) -> (r: Result<RegisterNodeResponse, ControlPlaneError>)
        requires
            old(self).wf(),
        ensures
            final(self).wf(),
            refusal(r) == old(self)@.enrollment_refusal(claims@, request@, *findings, now),
            final(self)@ == old(self)@.enrolled(claims@, request@, *findings, now),
            r matches Ok(response) ==> {
                &&& response.node@ == old(self)@.registration(
                    claims@,
                    request@,
                    now,
                    MAX_ROUTE_CATALOG_UPDATE_RETRIES as nat,
                ).node
                &&& response.cluster_policy@ == old(self)@.policy_in_force()
                &&& final(self)@.peer_map_says(response.peer_map, response.node@, now)
                &&& final(self)@.relay_map_says(response.relay_map, response.node@, now)
            },
    {
        let max_age = self.config.heartbeat_signature_max_age;
        let granted = admit_registration(claims, request, findings, now, max_age)?;
        let node = self.register_admitted(claims, request, &granted, now)?;
        proof {
            old(self)@.lemma_registration(
                claims@,
                request@,
                now,
                MAX_ROUTE_CATALOG_UPDATE_RETRIES as nat,
            );
        }
        if let Some(classification) = &request.nat_classification {
            self.store.upsert_nat_classification(
                node.node_id.clone(),
                classification.duplicate(),
            );
        }
        self.overlay = None;
        assert(self@.policy_read() =~= self@);
        let (peer_map, relay_map, cluster_policy) = self.maps_for(&node, now)?;
        Ok(RegisterNodeResponse { node, peer_map, relay_map, cluster_policy })
    }

    fn register_admitted(
        &mut self,
        claims: &JoinTokenClaims,
        request: &RegisterNodeRequest,
        granted: &Option<RelayCapability>,
        now: Timestamp,
    ) -> (r: Result<NodeRecord, ControlPlaneError>)
        requires
            old(self).wf(),
            opt_view(*granted) == granted_capability(request@.relay_capability),
        ensures
            final(self).wf(),
            ({
                let step = old(self)@.registration(
                    claims@,
                    request@,
                    now,
                    MAX_ROUTE_CATALOG_UPDATE_RETRIES as nat,
                );
                &&& refusal(r) == step.refused
                &&& r matches Ok(node) ==> node@ == step.node
                &&& final(self)@ == step.state
            }),
    {
        let mut earlier: usize = 0;
        loop
            invariant
                self.wf(),
                opt_view(*granted) == granted_capability(request@.relay_capability),
                earlier < MAX_ROUTE_CATALOG_UPDATE_RETRIES,
                old(self)@.registration(
                    claims@,
                    request@,
                    now,
                    MAX_ROUTE_CATALOG_UPDATE_RETRIES as nat,
                ) == self@.registration(
                    claims@,
                    request@,
                    now,
                    (MAX_ROUTE_CATALOG_UPDATE_RETRIES - earlier) as nat,
                ),
            decreases MAX_ROUTE_CATALOG_UPDATE_RETRIES - earlier,
        {
            let ghost before = self@;
            let policy = self.current_cluster_policy()?;
            proof {
                before.lemma_policy_read();
            }
            let nodes = self.store.list_nodes();
            let epoch = admit_registration_routes(
                &self.config,
                &request.node_id,
                &request.requested_routes,
                &policy,
                &nodes,
            )?;
            assert(epoch == before.requested_routes_epoch(request@));
            let outcome = self.attempt_registration(
                claims,
                request,
                granted,
                &policy,
                epoch,
                now,
            );
            match step_after_attempt(earlier, &outcome) {
                AttemptStep::Again => {
                    earlier = earlier + 1;
                },
                _ => {
                    return outcome;
                },
            }
        }
    }

    /// Registers a node with what its token claims. `findings` is what the keys of the request were
    /// found to be.
    pub fn register_with_claims(
        &mut self,
        claims: &JoinTokenClaims,
        request: &RegisterNodeRequest,
        findings: &KeyFindings,
        now: Timestamp,
    ) -> (r: Result<RegisterNodeResponse, ControlPlaneError>)
        requires
            old(self).wf(),
        ensures
            final(self).wf(),
            role_is_client(claims@.role) ==> {
                &&& refusal(r) == Some(ControlPlaneErrorView::JoinDenied)
                &&& final(self)@ == old(self)@
            },
            !role_is_client(claims@.role) ==> {
                &&& refusal(r) == old(self)@.enrollment_refusal(claims@, request@, *findings, now)
                &&& final(self)@ == old(self)@.enrolled(claims@, request@, *findings, now)
            },
            r matches Ok(response) ==> {
                &&& response.node@ == old(self)@.registration(
                    claims@,
                    request@,
                    now,
                    MAX_ROUTE_CATALOG_UPDATE_RETRIES as nat,
                ).node
                &&& response.cluster_policy@ == old(self)@.policy_in_force()
                &&& final(self)@.peer_map_says(response.peer_map, response.node@, now)
                &&& final(self)@.relay_map_says(response.relay_map, response.node@, now)
            },
    {
        ensure_node_claims(claims)?;
        self.register_participant_with_claims(claims, request, findings, now)
    }

    /// Registers a client with what its token claims. `findings` is what the keys of the request
    /// were found to be.
    pub fn register_client_with_claims(
        &mut self,
        claims: &JoinTokenClaims,
        request: &RegisterClientRequest,
        findings: &KeyFindings,
        now: Timestamp,
    ) -> (r: Result<RegisterClientResponse, ControlPlaneError>)
        requires
            old(self).wf(),
        ensures
            final(self).wf(),
            !control_only(claims@) ==> {
                &&& refusal(r) == Some(ControlPlaneErrorView::JoinDenied)
                &&& final(self)@ == old(self)@
            },
            control_only(claims@) ==> {
                let participant = participant_request(*request);
                &&& refusal(r) == old(self)@.enrollment_refusal(
                    claims@,
                    participant,
                    *findings,
                    now,
                )
                &&& final(self)@ == old(self)@.enrolled(claims@, participant, *findings, now)
            },
            r matches Ok(response) ==> {
                &&& response.client@ == old(self)@.registration(
                    claims@,
                    participant_request(*request),
                    now,
                    MAX_ROUTE_CATALOG_UPDATE_RETRIES as nat,
                ).node
                &&& response.cluster_policy@ == old(self)@.policy_in_force()
                &&& final(self)@.peer_map_says(response.peer_map, response.client@, now)
            },
    {
        ensure_client_claims(claims)?;
        let participant = client_participant_request(request);
        let response = self.register_participant_with_claims(
            claims,
            &participant,
            findings,
            now,
        )?;
        Ok(
            RegisterClientResponse {
                client: response.node,
                peer_map: response.peer_map,
                cluster_policy: response.cluster_policy,
            },
        )
    }
}

/// No two nodes have the same VPN address.
pub open spec fn addresses_apart(nodes: Map<Seq<Seq<char>>, NodeRecordView>) -> bool {
    forall|a: Seq<Seq<char>>, b: Seq<Seq<char>>|
        nodes.dom().contains(a) && nodes.dom().contains(b) && a != b ==> (
        #[trigger] nodes[a]).vpn_ip != (#[trigger] nodes[b]).vpn_ip
}

proof fn lemma_reserved(nodes: Map<Seq<Seq<char>>, NodeRecordView>, key: Seq<Seq<char>>, ip: u32)
    requires
        nodes.dom().finite(),
        nodes.dom().contains(key),
        nodes[key].vpn_ip == IpAddr::V4(ip),
    ensures
        assigned_addresses(listed(nodes)).contains(ip),
{
    let all = listed(nodes);
    let f = |node: NodeRecordView| assigned_ipv4(node);
    lemma_listing(nodes);
    lemma_gathered(all, f, all.len());
    assert(all.contains(nodes[key]));
    let i = choose|i: int| 0 <= i < all.len() && all[i] == nodes[key];
    assert(f(all[i]) == Some(ip));
    let given = assigned_addresses(all);
    let k = choose|k: int| 0 <= k < given.len() && Some(given[k]) == f(all[i]);
    assert(given[k] == ip);
}

impl ControlPlaneView {
    /// What becomes of a registration: one that fails leaves the nodes as they are. One that
    /// succeeds stores the node under its identifier, as the participant that it claims to be and
    /// with the candidates and routes that it asks for. A node that was there keeps its address and
    /// the time of its registration, and is the same participant as before. Another one gets an
    /// address of the pool that no node has.
    pub open spec fn registers(
        self,
        claims: JoinTokenClaimsView,
        request: RegisterNodeRequestView,
        outcome: Attempt,
    ) -> bool {
        let id = request.node_id;
        if outcome.refused is Some {
            outcome.state.store.nodes == self.store.nodes
        } else {
            &&& outcome.node.node_id == id
            &&& same_participant(outcome.node, claims, request)
            &&& outcome.node.endpoint_candidates == request.candidates
            &&& outcome.node.relay_capability == granted_capability(request.relay_capability)
            &&& outcome.node.routes == request.requested_routes
            &&& outcome.state.store.nodes == self.store.nodes.insert(one(id), outcome.node)
            &&& match self.store.node(id) {
                Some(known) => {
                    &&& outcome.node.vpn_ip == known.vpn_ip
                    &&& outcome.node.registered_at == known.registered_at
                    &&& same_participant(known, claims, request)
                },
                None => {
                    &&& outcome.node.vpn_ip matches IpAddr::V4(ip) && usable_host(
                        self.allocator.pool,
                        ip,
                    ) && !self.reserved_addresses().contains(ip)
                },
            }
        }
    }

    proof fn lemma_attempt_registers(
        self,
        claims: JoinTokenClaimsView,
        request: RegisterNodeRequestView,
        epoch: Option<u64>,
        now: Timestamp,
    )
        requires
            self.store.keyed(),
            self.allocator.next_host_offset >= 1,
        ensures
            self.registers(claims, request, self.attempt(claims, request, epoch, now)),
            self.attempt(claims, request, epoch, now).state.allocator.pool == self.allocator.pool,
            self.attempt(claims, request, epoch, now).state.allocator.next_host_offset >= 1,
            self.attempt(claims, request, epoch, now).refused is Some ==> self.attempt(
                claims,
                request,
                epoch,
                now,
            ).state.store == self.store,
    {
        let reserved = self.reserved_addresses();
        let allocator = self.allocator;
        lemma_cidr_bounds(allocator.pool);
        if allocator.next_address(reserved) is Some {
            let ip = allocator.next_address(reserved)->0;
            assert(allocation(allocator.pool, allocator.position(), reserved, ip));
        }
        let outcome = self.attempt(claims, request, epoch, now);
        if let Some(known) = self.store.node(request.node_id) {
            assert(self.store.nodes.dom().contains(one(request.node_id)));
            assert(one(request.node_id)[0] == one(known.node_id)[0]);
        }
        if outcome.refused is None {
            assert(outcome.state.store.nodes =~= self.store.nodes.insert(
                one(request.node_id),
                outcome.node,
            ));
        }
    }

    proof fn lemma_registration_registers(
        self,
        claims: JoinTokenClaimsView,
        request: RegisterNodeRequestView,
        now: Timestamp,
        tries: nat,
    )
        requires
            self.store.keyed(),
            self.allocator.next_host_offset >= 1,
        ensures
            self.registers(claims, request, self.registration(claims, request, now, tries)),
        decreases tries,
    {
        let ready = self.policy_read();
        let epoch = self.requested_routes_epoch(request);
        let step = ready.attempt(claims, request, epoch, now);
        assert(ready.store.nodes == self.store.nodes);
        assert(ready.store.keyed());
        ready.lemma_attempt_registers(claims, request, epoch, now);
        if self.policy_reading_refusal() is None && self.requested_routes_refusal(request) is None
            && step.refused is Some && is_conflict(step.refused->0) && tries > 1 {
            step.state.lemma_registration_registers(claims, request, now, (tries - 1) as nat);
        }
    }
}

/// Whoever registers is stored under its identifier, with an address of the pool that no node had,
/// or with the one that it has had; a registration that is refused, and one that is not, leaves the
/// other nodes as they are.
pub proof fn law_registered_node_is_stored(
    plane: ControlPlaneView,
    claims: JoinTokenClaimsView,
    request: RegisterNodeRequestView,
    findings: KeyFindings,
    now: Timestamp,
)
    requires
        plane.store.keyed(),
        plane.allocator.next_host_offset >= 1,
    ensures
        ({
            let outcome = plane.registration(
                claims,
                request,
                now,
                MAX_ROUTE_CATALOG_UPDATE_RETRIES as nat,
            );
            let after = plane.enrolled(claims, request, findings, now);
            let refused = plane.enrollment_refusal(claims, request, findings, now);
            &&& refused is None ==> after.store.node(request.node_id) == Some(outcome.node)
                && plane.registers(claims, request, outcome)
            &&& refused is Some ==> after.store.nodes == plane.store.nodes
            &&& forall|other: Seq<char>|
                other != request.node_id ==> #[trigger] after.store.node(other)
                    == plane.store.node(other)
        }),
{
    plane.lemma_registration_registers(
        claims,
        request,
        now,
        MAX_ROUTE_CATALOG_UPDATE_RETRIES as nat,
    );
    let after = plane.enrolled(claims, request, findings, now);
    assert forall|other: Seq<char>| other != request.node_id implies #[trigger] after.store.node(
        other,
    ) == plane.store.node(other) by {
        assert(one(other)[0] != one(request.node_id)[0]);
    }
}

/// A node that is known may register again. Where the request is accepted and an address is free,
/// the same participant keeps its address, the time of its registration and everything else but its
/// candidates, its relay and its routes, which are those of the request; whoever is not the same
/// participant is refused, and the nodes stay as they are. Claims of another cluster than that of
/// the control plane do where that cluster is as the request was held against; new routes need a
/// routing epoch that can still go up.
pub proof fn law_known_node_registers_again(
    plane: ControlPlaneView,
    claims: JoinTokenClaimsView,
    request: RegisterNodeRequestView,
    findings: KeyFindings,
    now: Timestamp,
)
    requires
        plane.store.keyed(),
        claims.cluster_id == plane.cluster() || plane.policy_read().store.cluster_change(
            claims.cluster_id,
            Some(plane.policy_in_force()),
            plane.requested_routes_epoch(request),
        ) is None,
        plane.store.node(request.node_id) is Some,
        admission_refusal(
            claims,
            request,
            findings,
            now,
            plane.config.heartbeat_signature_max_age,
        ) is None,
        plane.policy_reading_refusal() is None,
        plane.requested_routes_refusal(request) is None,
        plane.allocator.next_address(plane.reserved_addresses()) is Some,
        plane.store.node(request.node_id)->0.routes == request.requested_routes
            || plane.policy_read().store.exhaustion(claims.cluster_id) is None,
    ensures
        ({
            let known = plane.store.node(request.node_id)->0;
            let outcome = plane.registration(
                claims,
                request,
                now,
                MAX_ROUTE_CATALOG_UPDATE_RETRIES as nat,
            );
            let refused = plane.enrollment_refusal(claims, request, findings, now);
            let after = plane.enrolled(claims, request, findings, now);
            if same_participant(known, claims, request) {
                &&& refused is None
                &&& outcome.node == (NodeRecordView {
                    endpoint_candidates: request.candidates,
                    relay_capability: granted_capability(request.relay_capability),
                    routes: request.requested_routes,
                    ..known
                })
                &&& after.store.nodes == plane.store.nodes.insert(
                    one(request.node_id),
                    outcome.node,
                )
            } else {
                &&& refused == Some(
                    ControlPlaneErrorView::NodeAlreadyExists { node_id: request.node_id },
                )
                &&& after.store.nodes == plane.store.nodes
            }
        }),
{
    let known = plane.store.node(request.node_id)->0;
    let ready = plane.policy_read();
    let epoch = plane.requested_routes_epoch(request);
    let update = ready.rejoining(claims, request, epoch);
    assert(ready.store.nodes == plane.store.nodes);
    plane.lemma_policy_read();
    assert(plane.store.nodes.dom().contains(one(request.node_id)));
    assert(one(request.node_id)[0] == one(known.node_id)[0]);
    assert(ready.store.cluster_change(
        claims.cluster_id,
        Some(ready.policy_in_force()),
        epoch,
    ) is None);
    if same_participant(known, claims, request) {
        assert(ready.store.rejoin_refusal(update) is None);
    }
}

/// To register twice is to register once. After a participant was registered, it may send another
/// request with the same identity: with the same WireGuard key, it is registered with the address
/// and the time that it got first and with the candidates and routes of the later request, under
/// the one record that it has. With another WireGuard key it is refused, and its record stays as it
/// is. The later request is otherwise accepted and an address is free; claims of another cluster
/// than that of the control plane do where that cluster is as the later request was held against.
pub proof fn law_registration_is_repeatable(
    plane: ControlPlaneView,
    claims: JoinTokenClaimsView,
    request: RegisterNodeRequestView,
    findings: KeyFindings,
    now: Timestamp,
    again: RegisterNodeRequestView,
    later_findings: KeyFindings,
    later: Timestamp,
)
    requires
        plane.store.keyed(),
        plane.allocator.next_host_offset >= 1,
        plane.enrollment_refusal(claims, request, findings, now) is None,
        again.node_id == request.node_id,
        again.identity_public_key == request.identity_public_key,
        ({
            let after = plane.enrolled(claims, request, findings, now);
            &&& admission_refusal(
                claims,
                again,
                later_findings,
                later,
                plane.config.heartbeat_signature_max_age,
            ) is None
            &&& after.requested_routes_refusal(again) is None
            &&& after.allocator.next_address(after.reserved_addresses()) is Some
            &&& again.requested_routes == request.requested_routes || after.store.exhaustion(
                claims.cluster_id,
            ) is None
            &&& claims.cluster_id == plane.cluster() || after.store.cluster_change(
                claims.cluster_id,
                Some(after.policy_in_force()),
                after.requested_routes_epoch(again),
            ) is None
        }),
    ensures
        ({
            let tries = MAX_ROUTE_CATALOG_UPDATE_RETRIES as nat;
            let after = plane.enrolled(claims, request, findings, now);
            let first = plane.registration(claims, request, now, tries).node;
            let refused = after.enrollment_refusal(claims, again, later_findings, later);
            let second = after.registration(claims, again, later, tries).node;
            let last = after.enrolled(claims, again, later_findings, later);
            if again.wireguard_public_key == request.wireguard_public_key {
                &&& refused is None
                &&& second.node_id == first.node_id
                &&& second.vpn_ip == first.vpn_ip
                &&& second.registered_at == first.registered_at
                &&& second.endpoint_candidates == again.candidates
                &&& second.routes == again.requested_routes
                &&& last.store.node(again.node_id) == Some(second)
                &&& last.store.nodes.dom() == after.store.nodes.dom()
            } else {
                &&& refused == Some(
                    ControlPlaneErrorView::NodeAlreadyExists { node_id: again.node_id },
                )
                &&& last.store.nodes == after.store.nodes
                &&& last.store.node(again.node_id) == Some(first)
            }
        }),
{
    let tries = MAX_ROUTE_CATALOG_UPDATE_RETRIES as nat;
    let after = plane.enrolled(claims, request, findings, now);
    let outcome = plane.registration(claims, request, now, tries);
    plane.lemma_registration(claims, request, now, tries);
    plane.lemma_registration_registers(claims, request, now, tries);
    assert(after.store.nodes == outcome.state.store.nodes);
    assert(after.store.node(again.node_id) == Some(outcome.node));
    lemma_enrolled_keyed(plane, claims, request, findings, now);
    assert(after.policy_reading_refusal() is None);
    assert(after.policy_read().store == after.store);
    law_known_node_registers_again(after, claims, again, later_findings, later);
    if again.wireguard_public_key == request.wireguard_public_key {
        let last = after.enrolled(claims, again, later_findings, later);
        assert(last.store.nodes.dom() =~= after.store.nodes.dom());
    }
}

proof fn lemma_enrolled_keyed(
    plane: ControlPlaneView,
    claims: JoinTokenClaimsView,
    request: RegisterNodeRequestView,
    findings: KeyFindings,
    now: Timestamp,
)
    requires
        plane.store.keyed(),
        plane.allocator.next_host_offset >= 1,
    ensures
        plane.enrolled(claims, request, findings, now).store.keyed(),
{
    let tries = MAX_ROUTE_CATALOG_UPDATE_RETRIES as nat;
    plane.lemma_registration_registers(claims, request, now, tries);
    plane.lemma_registration_keeps(claims, request, now, tries);
}

/// No registration gives a VPN address to two nodes.
pub proof fn law_registration_keeps_addresses_apart(
    plane: ControlPlaneView,
    claims: JoinTokenClaimsView,
    request: RegisterNodeRequestView,
    findings: KeyFindings,
    now: Timestamp,
)
    requires
        plane.store.keyed(),
        plane.store.nodes.dom().finite(),
        plane.allocator.next_host_offset >= 1,
        addresses_apart(plane.store.nodes),
    ensures
        addresses_apart(plane.enrolled(claims, request, findings, now).store.nodes),
{
    let tries = MAX_ROUTE_CATALOG_UPDATE_RETRIES as nat;
    plane.lemma_registration_registers(claims, request, now, tries);
    let before = plane.store.nodes;
    let after = plane.enrolled(claims, request, findings, now).store.nodes;
    let key = one(request.node_id);
    if plane.enrollment_refusal(claims, request, findings, now) is None {
        let node = plane.registration(claims, request, now, tries).node;
        assert(after =~= before.insert(key, node));
        assert forall|a: Seq<Seq<char>>|
            before.dom().contains(a) && a != key implies (#[trigger] before[a]).vpn_ip
            != node.vpn_ip by {
            match before[a].vpn_ip {
                IpAddr::V4(ip) => {
                    if plane.store.node(request.node_id) is None {
                        lemma_reserved(before, a, ip);
                    }
                },
                IpAddr::V6(_) => {},
            }
        }
    }
}

/// An attempt to register that succeeds moves the state of the overlay on by one where the node is new
/// or its routes change, and leaves it where a known node joins again as it was; one that fails stores
/// nothing.
pub proof fn law_new_nodes_move_the_overlay_on(
    plane: ControlPlaneView,
    claims: JoinTokenClaimsView,
    request: RegisterNodeRequestView,
    epoch: Option<u64>,
    now: Timestamp,
)
    requires
        plane.store.keyed(),
    ensures
        ({
            let key = seq![request.node_id];
            let known = plane.store.nodes.dom().contains(key);
            let attempt = plane.attempt(claims, request, epoch, now);
            let before = plane.store.epoch(claims.cluster_id);
            let after = attempt.state.store.epoch(claims.cluster_id);
            &&& attempt.refused is Some ==> attempt.state.store == plane.store
            &&& attempt.refused is None && !known ==> after == before + 1
            &&& attempt.refused is None && known && plane.store.nodes[key].routes
                != request.requested_routes ==> after == before + 1
            &&& attempt.refused is None && known && plane.store.nodes[key].routes
                == request.requested_routes ==> after == before
        }),
{
    let key = seq![request.node_id];
    if plane.store.nodes.dom().contains(key) {
        assert(key == one(plane.store.nodes[key].node_id));
        assert(key[0] == one(plane.store.nodes[key].node_id)[0]);
    }
}

/// A registered participant makes the overlay be looked at anew, and its classification is kept where
/// it gives one.
pub proof fn law_registration_makes_the_overlay_be_looked_at_anew(
    plane: ControlPlaneView,
    claims: JoinTokenClaimsView,
    request: RegisterNodeRequestView,
    findings: KeyFindings,
    now: Timestamp,
)
    requires
        plane.store.keyed(),
        plane.allocator.next_host_offset >= 1,
        plane.enrollment_refusal(claims, request, findings, now) is None,
    ensures
        ({
            let after = plane.enrolled(claims, request, findings, now);
            let key = seq![request.node_id];
            &&& after.overlay is None
            &&& request.nat_classification is Some ==> after.store.nats.dom().contains(key)
                && after.store.nats[key] == request.nat_classification->0
        }),
{
    plane.lemma_registration_registers(
        claims,
        request,
        now,
        MAX_ROUTE_CATALOG_UPDATE_RETRIES as nat,
    );
}

} // verus!
