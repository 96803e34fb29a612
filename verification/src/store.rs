//! A store that keeps the state of the cluster in memory.
//!
//! An operation that is refused leaves the store as it was. What a change rests on (the policy, the
//! route catalog, the node as it was) is checked together with the change.

use vstd::prelude::*;

use crate::error::{refusal, ControlPlaneError, ControlPlaneErrorView};
use crate::ids::{ClusterId, NodeId, ScopedName};
use crate::lists::{first_in, kept, lemma_first_in_extends, lemma_kept};
use crate::map::{
    duplicate_map, held, lemma_held_empty, lemma_held_insert, lemma_held_remove, listed,
    value_list, OrderedMap, TextKey,
};
use crate::routes::{backbone, backbone_nodes, catalog_epoch, overlay_route_catalog_epoch};
use crate::text::{text_lt, text_precedes, text_same};
use crate::time::{timestamp_display, timestamp_text, Timestamp};
use crate::types::{
    alike_all, alike_option, duplicate_all, lemma_views_push, opt_view, ref_view, views,
    ClientGatewaySelection, ClientGatewaySelectionView, ClusterPolicy, ClusterPolicyView,
    EndpointCandidate, HeartbeatStoreUpdate, HeartbeatStoreUpdateView, KeycloakCandidateLease,
    KeycloakCandidateLeaseView, NatClassification, NatClassificationView, NodeHealth,
    NodeHealthView, NodeRecord, NodeRecordView, PathRecord, PathRecordView, Record,
    RejoinNodeStoreUpdate, RejoinNodeStoreUpdateView, RelayCapability, Route, ServiceInstance,
    ServiceInstanceView,
};

verus! {

/// The key of an entry that belongs to one name.
pub open spec fn one(name: Seq<char>) -> Seq<Seq<char>> {
    seq![name]
}

/// The key of an entry that belongs to a name under another.
pub open spec fn two(scope: Seq<char>, name: Seq<char>) -> Seq<Seq<char>> {
    seq![scope, name]
}

/// What a store holds.
#[verifier::ext_equal]
pub struct StoreView {
    pub policies: Map<Seq<Seq<char>>, ClusterPolicyView>,
    pub epochs: Map<Seq<Seq<char>>, u64>,
    pub nodes: Map<Seq<Seq<char>>, NodeRecordView>,
    pub health: Map<Seq<Seq<char>>, NodeHealthView>,
    pub signatures: Map<Seq<Seq<char>>, Timestamp>,
    pub nats: Map<Seq<Seq<char>>, NatClassificationView>,
    pub paths: Seq<PathRecordView>,
    pub services: Map<Seq<Seq<char>>, ServiceInstanceView>,
    pub keycloak: Map<Seq<Seq<char>>, KeycloakCandidateLeaseView>,
    pub selections: Map<Seq<Seq<char>>, ClientGatewaySelectionView>,
}

/// What a map has under a key.
pub open spec fn at<V>(map: Map<Seq<Seq<char>>, V>, key: Seq<Seq<char>>) -> Option<V> {
    if map.dom().contains(key) {
        Some(map[key])
    } else {
        None
    }
}

impl StoreView {
    /// Each node stands under its identifier, and the same goes for the other named records.
    pub open spec fn keyed(self) -> bool {
        &&& forall|key: Seq<Seq<char>>| #[trigger]
            self.nodes.dom().contains(key) ==> key == one(self.nodes[key].node_id)
        &&& forall|key: Seq<Seq<char>>| #[trigger]
            self.services.dom().contains(key) ==> key == two(
                self.services[key].cluster_id,
                self.services[key].instance_id,
            )
        &&& forall|key: Seq<Seq<char>>| #[trigger]
            self.keycloak.dom().contains(key) ==> key == two(
                self.keycloak[key].cluster_id,
                self.keycloak[key].node_id,
            )
        &&& forall|key: Seq<Seq<char>>| #[trigger]
            self.selections.dom().contains(key) ==> key == one(self.selections[key].client_id)
    }

    /// The policy of a cluster.
    pub open spec fn policy(self, cluster_id: Seq<char>) -> Option<ClusterPolicyView> {
        at(self.policies, one(cluster_id))
    }

    /// The routing epoch of a cluster: how often its routing changed.
    pub open spec fn epoch(self, cluster_id: Seq<char>) -> u64 {
        match at(self.epochs, one(cluster_id)) {
            Some(epoch) => epoch,
            None => 0,
        }
    }

    /// The node with an identifier.
    pub open spec fn node(self, node_id: Seq<char>) -> Option<NodeRecordView> {
        at(self.nodes, one(node_id))
    }

    /// The nodes of a cluster that are no clients, in the order of their identifiers.
    pub open spec fn catalog(self, cluster_id: Seq<char>) -> Seq<NodeRecordView> {
        backbone(listed(self.nodes), cluster_id)
    }

    /// The store after one more change of the routing of a cluster.
    pub open spec fn advanced(self, cluster_id: Seq<char>) -> StoreView {
        StoreView {
            epochs: self.epochs.insert(one(cluster_id), (self.epoch(cluster_id) + 1) as u64),
            ..self
        }
    }

    /// Why the routing of a cluster cannot change any more.
    pub open spec fn exhaustion(self, cluster_id: Seq<char>) -> Option<ControlPlaneErrorView> {
        if self.epoch(cluster_id) == u64::MAX {
            Some(
                ControlPlaneErrorView::Store {
                    reason: "overlay routing epoch exhausted for cluster "@ + cluster_id,
                },
            )
        } else {
            None
        }
    }

    /// The store with a policy.
    pub open spec fn with_policy(self, cluster_id: Seq<char>, policy: ClusterPolicyView) -> StoreView {
        StoreView { policies: self.policies.insert(one(cluster_id), policy), ..self }
    }

    /// The store with a node.
    pub open spec fn with_node(self, node: NodeRecordView) -> StoreView {
        StoreView { nodes: self.nodes.insert(one(node.node_id), node), ..self }
    }

    /// Why the cluster is not as it was: its policy or its route catalog changed.
    pub open spec fn cluster_change(
        self,
        cluster_id: Seq<char>,
        expected_policy: Option<ClusterPolicyView>,
        expected_catalog_epoch: Option<u64>,
    ) -> Option<ControlPlaneErrorView> {
        if self.policy(cluster_id) != expected_policy {
            Some(ControlPlaneErrorView::ClusterPolicyChanged)
        } else {
            match expected_catalog_epoch {
                None => None,
                Some(expected) => if catalog_epoch(self.catalog(cluster_id)) == expected {
                    None
                } else {
                    Some(ControlPlaneErrorView::OverlayRouteCatalogChanged)
                },
            }
        }
    }
}

/// A store that keeps the state of the cluster in memory.
#[derive(Debug)]
pub struct InMemoryStore {
    cluster_policies: OrderedMap<ClusterId, ClusterPolicy>,
    overlay_routing_epochs: OrderedMap<ClusterId, u64>,
    nodes: OrderedMap<NodeId, NodeRecord>,
    health: OrderedMap<NodeId, NodeHealth>,
    heartbeat_signature_timestamps: OrderedMap<NodeId, Timestamp>,
    nat_classifications: OrderedMap<NodeId, NatClassification>,
    paths: Vec<PathRecord>,
    service_instances: OrderedMap<ScopedName, ServiceInstance>,
    keycloak_candidates: OrderedMap<ScopedName, KeycloakCandidateLease>,
    client_gateway_selections: OrderedMap<NodeId, ClientGatewaySelection>,
}

impl View for InMemoryStore {
    type V = StoreView;

    closed spec fn view(&self) -> StoreView {
        StoreView {
            policies: held(self.cluster_policies@),
            epochs: self.overlay_routing_epochs@,
            nodes: held(self.nodes@),
            health: held(self.health@),
            signatures: self.heartbeat_signature_timestamps@,
            nats: held(self.nat_classifications@),
            paths: views(self.paths@),
            services: held(self.service_instances@),
            keycloak: held(self.keycloak_candidates@),
            selections: held(self.client_gateway_selections@),
        }
    }
}

/// A node that was removed, and what went with it.
#[derive(Debug)]
pub struct RemovedNode {
    pub node: NodeRecord,
    pub removed_path_count: usize,
    pub removed_health: bool,
}

/// The path has the node at one of its ends.
pub open spec fn path_touches(path: PathRecordView, node_id: Seq<char>) -> bool {
    path.key.local == node_id || path.key.remote == node_id
}

/// The paths that do not have the node at one of their ends.
pub open spec fn paths_without(paths: Seq<PathRecordView>, node_id: Seq<char>) -> Seq<
    PathRecordView,
> {
    kept(paths, |path: PathRecordView| !path_touches(path, node_id), paths.len())
}

/// The paths that the node did not report.
pub open spec fn paths_of_others(paths: Seq<PathRecordView>, node_id: Seq<char>) -> Seq<
    PathRecordView,
> {
    kept(paths, |path: PathRecordView| path.key.local != node_id, paths.len())
}

/// The selections that are neither of the node nor for it.
pub open spec fn selections_without(
    selections: Map<Seq<Seq<char>>, ClientGatewaySelectionView>,
    node_id: Seq<char>,
) -> Map<Seq<Seq<char>>, ClientGatewaySelectionView> {
    Map::new(
        |key: Seq<Seq<char>>|
            selections.dom().contains(key) && key != one(node_id)
                && selections[key].gateway_node_id != node_id,
        |key: Seq<Seq<char>>| selections[key],
    )
}

impl StoreView {
    /// The store without a node and all that speaks of it.
    pub open spec fn without_node(self, node_id: Seq<char>) -> StoreView {
        StoreView {
            nodes: self.nodes.remove(one(node_id)),
            health: self.health.remove(one(node_id)),
            signatures: self.signatures.remove(one(node_id)),
            nats: self.nats.remove(one(node_id)),
            selections: selections_without(self.selections, node_id),
            paths: paths_without(self.paths, node_id),
            ..self
        }
    }
}

/// A refusal that says that there is no such node.
pub open spec fn not_found(node_id: Seq<char>) -> Option<ControlPlaneErrorView> {
    Some(ControlPlaneErrorView::NodeNotFound { node_id })
}

/// Why a heartbeat does not go with the node that is stored.
pub open spec fn generation_refusal(update: HeartbeatStoreUpdateView, node: NodeRecordView) -> Option<
    ControlPlaneErrorView,
> {
    if node.node_id != update.node_id || node.cluster_id != update.cluster_id {
        not_found(update.node_id)
    } else if node.identity_public_key != update.expected_identity_public_key || node.registered_at
        != update.expected_registered_at {
        Some(
            ControlPlaneErrorView::NodeUpdateRejected {
                node_id: update.node_id,
                reason: "node generation changed while heartbeat was being validated"@,
            },
        )
    } else {
        None
    }
}

impl HeartbeatStoreUpdate {
    /// Checks that the heartbeat was made for the node that is stored.
    pub fn ensure_matches_node_generation(&self, node: &NodeRecord) -> (r: Result<
        (),
        ControlPlaneError,
    >)
        ensures
            refusal(r) == generation_refusal(self@, node@),
    {
        if node.node_id != self.node_id || node.cluster_id != self.cluster_id {
            return Err(ControlPlaneError::NodeNotFound { node_id: self.node_id.clone() });
        }
        if node.identity_public_key != self.expected_identity_public_key || node.registered_at
            != self.expected_registered_at {
            return Err(
                ControlPlaneError::NodeUpdateRejected {
                    node_id: self.node_id.clone(),
                    reason: "node generation changed while heartbeat was being validated".to_owned(),
                },
            );
        }
        Ok(())
    }
}

/// Why a heartbeat comes too late: one at least as new was stored.
pub open spec fn late_refusal(
    update: HeartbeatStoreUpdateView,
    previous_signature_at: Option<Timestamp>,
    previous_health: Option<NodeHealthView>,
) -> Option<ControlPlaneErrorView> {
    match update.accepted_signature_at {
        Some(at) => match previous_signature_at {
            Some(previous) => if at.at() <= previous.at() {
                Some(
                    ControlPlaneErrorView::NodeSignatureRejected {
                        node_id: update.node_id,
                        reason: "signed_at "@ + timestamp_display(at)
                            + " is not newer than last accepted heartbeat "@ + timestamp_display(
                            previous,
                        ),
                    },
                )
            } else {
                None
            },
            None => None,
        },
        None => match previous_health {
            Some(previous) => if update.health.last_seen_at.at() <= previous.last_seen_at.at() {
                Some(
                    ControlPlaneErrorView::NodeSignatureRejected {
                        node_id: update.node_id,
                        reason:
                            "unsigned heartbeat was received before the current health snapshot"@,
                    },
                )
            } else {
                None
            },
            None => None,
        },
    }
}

/// Checks that a heartbeat is newer than what was stored.
pub fn ensure_heartbeat_is_newer(
    update: &HeartbeatStoreUpdate,
    previous_signature_at: Option<Timestamp>,
    previous_health: Option<&NodeHealth>,
) -> (r: Result<(), ControlPlaneError>)
    ensures
        refusal(r) == late_refusal(
            update@,
            previous_signature_at,
            ref_view(previous_health),
        ),
{
    match update.accepted_signature_at {
        Some(at) => {
            if let Some(previous) = previous_signature_at {
                if at.at_or_before(&previous) {
                    return Err(
                        ControlPlaneError::NodeSignatureRejected {
                            node_id: update.node_id.clone(),
                            reason: "signed_at ".to_owned().concat(
                                timestamp_text(at).as_str(),
                            ).concat(" is not newer than last accepted heartbeat ").concat(
                                timestamp_text(previous).as_str(),
                            ),
                        },
                    );
                }
            }
        },
        None => {
            if let Some(previous) = previous_health {
                if update.health.last_seen_at.at_or_before(&previous.last_seen_at) {
                    return Err(
                        ControlPlaneError::NodeSignatureRejected {
                            node_id: update.node_id.clone(),
                            reason:
                                "unsigned heartbeat was received before the current health snapshot".to_owned(),
                        },
                    );
                }
            }
        },
    }
    Ok(())
}

/// The heartbeat changes the routes of the node.
pub open spec fn changes_routes(update: HeartbeatStoreUpdateView, node: NodeRecordView) -> bool {
    update.routes is Some && update.routes->0 != node.routes
}

/// The node after a heartbeat.
pub open spec fn node_after_heartbeat(
    node: NodeRecordView,
    update: HeartbeatStoreUpdateView,
) -> NodeRecordView {
    NodeRecordView {
        endpoint_candidates: update.candidates,
        relay_capability: update.relay_capability,
        hostname: if update.hostname is Some {
            update.hostname
        } else {
            node.hostname
        },
        routes: match update.routes {
            Some(routes) => routes,
            None => node.routes,
        },
        ..node
    }
}

impl StoreView {
    /// Why a heartbeat is not stored.
    pub open spec fn heartbeat_refusal(self, update: HeartbeatStoreUpdateView) -> Option<
        ControlPlaneErrorView,
    > {
        let change = self.cluster_change(
            update.cluster_id,
            update.expected_cluster_policy,
            update.expected_route_catalog_epoch,
        );
        if change is Some {
            change
        } else {
            match self.node(update.node_id) {
                None => not_found(update.node_id),
                Some(node) => {
                    let late = late_refusal(
                        update,
                        at(self.signatures, one(update.node_id)),
                        at(self.health, one(update.node_id)),
                    );
                    if generation_refusal(update, node) is Some {
                        generation_refusal(update, node)
                    } else if late is Some {
                        late
                    } else if changes_routes(update, node) {
                        self.exhaustion(update.cluster_id)
                    } else {
                        None
                    }
                },
            }
        }
    }

    /// The store after a heartbeat.
    pub open spec fn after_heartbeat(self, update: HeartbeatStoreUpdateView) -> StoreView {
        let id = update.node_id;
        let node = self.node(id)->0;
        let routed = if changes_routes(update, node) {
            self.advanced(update.cluster_id)
        } else {
            self
        };
        StoreView {
            nodes: self.nodes.insert(one(id), node_after_heartbeat(node, update)),
            nats: match update.nat_classification {
                Some(classification) => self.nats.insert(one(id), classification),
                None => self.nats,
            },
            signatures: match update.accepted_signature_at {
                Some(accepted) => self.signatures.insert(one(id), accepted),
                None => self.signatures,
            },
            health: self.health.insert(one(id), update.health),
            paths: paths_of_others(self.paths, id) + update.paths,
            ..routed
        }
    }

    /// Why a node that registers again is not stored.
    pub open spec fn rejoin_refusal(self, update: RejoinNodeStoreUpdateView) -> Option<
        ControlPlaneErrorView,
    > {
        let change = self.cluster_change(
            update.cluster_id,
            update.expected_cluster_policy,
            update.expected_route_catalog_epoch,
        );
        let id = update.expected_node.node_id;
        if change is Some {
            change
        } else {
            match self.node(id) {
                None => not_found(id),
                Some(node) => if node.cluster_id != update.cluster_id {
                    not_found(id)
                } else if node != update.expected_node {
                    Some(ControlPlaneErrorView::NodeStateChanged { node_id: node.node_id })
                } else if node.routes != update.routes {
                    self.exhaustion(update.cluster_id)
                } else {
                    None
                },
            }
        }
    }

    /// The node after it registers again.
    pub open spec fn rejoined(self, update: RejoinNodeStoreUpdateView) -> NodeRecordView {
        NodeRecordView {
            endpoint_candidates: update.candidates,
            relay_capability: update.relay_capability,
            routes: update.routes,
            ..update.expected_node
        }
    }

    /// The store after a node registers again.
    pub open spec fn after_rejoin(self, update: RejoinNodeStoreUpdateView) -> StoreView {
        let routed = if update.expected_node.routes != update.routes {
            self.advanced(update.cluster_id)
        } else {
            self
        };
        routed.with_node(self.rejoined(update))
    }
}

fn keep_other_paths(paths: &Vec<PathRecord>, node_id: &NodeId) -> (r: Vec<PathRecord>)
    ensures
        views(r@) == paths_of_others(views(paths@), node_id@),
{
    let ghost all = views(paths@);
    let ghost keep = |path: PathRecordView| path.key.local != node_id@;
    let mut r: Vec<PathRecord> = Vec::new();
    let mut i: usize = 0;
    while i < paths.len()
        invariant
            i <= paths@.len(),
            all == views(paths@),
            keep == (|path: PathRecordView| path.key.local != node_id@),
            views(r@) == kept(all, keep, i as nat),
        decreases paths@.len() - i,
    {
        broadcast use lemma_views_push;

        assert(all[i as int] == paths@[i as int]@);
        if paths[i].key.local != *node_id {
            r.push(paths[i].duplicate());
        }
        i = i + 1;
    }
    r
}

fn keep_untouched_paths(paths: &Vec<PathRecord>, node_id: &NodeId) -> (r: Vec<PathRecord>)
    ensures
        views(r@) == paths_without(views(paths@), node_id@),
        r@.len() <= paths@.len(),
{
    let ghost all = views(paths@);
    let ghost keep = |path: PathRecordView| !path_touches(path, node_id@);
    let mut r: Vec<PathRecord> = Vec::new();
    let mut i: usize = 0;
    while i < paths.len()
        invariant
            i <= paths@.len(),
            r@.len() <= i,
            all == views(paths@),
            keep == (|path: PathRecordView| !path_touches(path, node_id@)),
            views(r@) == kept(all, keep, i as nat),
        decreases paths@.len() - i,
    {
        broadcast use lemma_views_push;

        assert(all[i as int] == paths@[i as int]@);
        if paths[i].key.local != *node_id && paths[i].key.remote != *node_id {
            r.push(paths[i].duplicate());
        }
        i = i + 1;
    }
    r
}

fn keep_other_selections(
    selections: &OrderedMap<NodeId, ClientGatewaySelection>,
    node_id: &NodeId,
) -> (r: OrderedMap<NodeId, ClientGatewaySelection>)
    requires
        selections.wf(),
    ensures
        r.wf(),
        held(r@) == selections_without(held(selections@), node_id@),
{
    let ghost entries = selections.entries@;
    let mut r: OrderedMap<NodeId, ClientGatewaySelection> = OrderedMap::new();
    let mut i: usize = 0;
    while i < selections.entries.len()
        invariant
            selections.wf(),
            entries == selections.entries@,
            i <= entries.len(),
            r.wf(),
            forall|key: Seq<Seq<char>>| #[trigger]
                r@.dom().contains(key) <==> exists|k: int|
                    0 <= k < i && (#[trigger] entries[k]).key.parts() == key && key != one(node_id@)
                        && entries[k].value@.gateway_node_id != node_id@,
            forall|key: Seq<Seq<char>>| #[trigger]
                r@.dom().contains(key) ==> r@[key]@ == selections@[key]@,
        decreases entries.len() - i,
    {
        let entry = &selections.entries[i];
        proof {
            crate::map::lemma_key_position(entries, i as int);
            if entry.key.parts() == one(node_id@) {
                assert(entry.key.parts()[0] == one(node_id@)[0]);
            }
        }
        let ghost before = r@;
        if entry.key != *node_id && entry.value.gateway_node_id != *node_id {
            r.insert(entry.key.copy_key(), entry.value.duplicate());
        }
        assert forall|key: Seq<Seq<char>>| #[trigger]
            r@.dom().contains(key) <==> exists|k: int|
                0 <= k < i + 1 && (#[trigger] entries[k]).key.parts() == key && key != one(node_id@)
                    && entries[k].value@.gateway_node_id != node_id@ by {
            if before.dom().contains(key) {
                let k = choose|k: int|
                    0 <= k < i && (#[trigger] entries[k]).key.parts() == key && key != one(
                        node_id@,
                    ) && entries[k].value@.gateway_node_id != node_id@;
                assert(0 <= k < i + 1 && entries[k].key.parts() == key);
            }
        }
        i = i + 1;
    }
    proof {
        let all = held(selections@);
        assert forall|key: Seq<Seq<char>>| #[trigger]
            held(r@).dom().contains(key) <==> selections_without(all, node_id@).dom().contains(
                key,
            ) by {
            if held(r@).dom().contains(key) {
                let k = choose|k: int|
                    0 <= k < i && (#[trigger] entries[k]).key.parts() == key && key != one(
                        node_id@,
                    ) && entries[k].value@.gateway_node_id != node_id@;
                crate::map::lemma_key_position(entries, k);
            }
            if selections_without(all, node_id@).dom().contains(key) {
                let k = crate::map::key_position(entries, key);
                assert(entries[k].key.parts() == key);
                crate::map::lemma_key_position(entries, k);
                assert(r@.dom().contains(key));
            }
        }
        assert(held(r@) =~= selections_without(all, node_id@));
    }
    r
}

impl InMemoryStore {
    /// The maps of the store are in order, and each record stands under its name.
    pub closed spec fn wf(&self) -> bool {
        &&& self.cluster_policies.wf()
        &&& self.overlay_routing_epochs.wf()
        &&& self.nodes.wf()
        &&& self.health.wf()
        &&& self.heartbeat_signature_timestamps.wf()
        &&& self.nat_classifications.wf()
        &&& self.service_instances.wf()
        &&& self.keycloak_candidates.wf()
        &&& self.client_gateway_selections.wf()
        &&& self@.keyed()
    }

    /// Each record stands under its name, and there are only so many nodes and candidates.
    pub proof fn lemma_orderly(&self)
        requires
            self.wf(),
        ensures
            self@.keyed(),
            self@.nodes.dom().finite(),
            self@.keycloak.dom().finite(),
    {
        self.nodes.lemma_held_listed();
        self.keycloak_candidates.lemma_held_listed();
    }

    /// The empty store.
    pub fn new() -> (r: Self)
        ensures
            r.wf(),
            r@ == (StoreView {
                policies: Map::empty(),
                epochs: Map::empty(),
                nodes: Map::empty(),
                health: Map::empty(),
                signatures: Map::empty(),
                nats: Map::empty(),
                paths: Seq::empty(),
                services: Map::empty(),
                keycloak: Map::empty(),
                selections: Map::empty(),
            }),
    {
        broadcast use lemma_held_empty;

        let r = InMemoryStore {
            cluster_policies: OrderedMap::new(),
            overlay_routing_epochs: OrderedMap::new(),
            nodes: OrderedMap::new(),
            health: OrderedMap::new(),
            heartbeat_signature_timestamps: OrderedMap::new(),
            nat_classifications: OrderedMap::new(),
            paths: Vec::new(),
            service_instances: OrderedMap::new(),
            keycloak_candidates: OrderedMap::new(),
            client_gateway_selections: OrderedMap::new(),
        };
        assert(r@.paths =~= Seq::empty());
        r
    }

    /// The policy of a cluster.
    pub fn get_cluster_policy(&self, cluster_id: &ClusterId) -> (r: Option<ClusterPolicy>)
        requires
            self.wf(),
        ensures
            opt_view(r) == self@.policy(cluster_id@),
    {
        match self.cluster_policies.get(cluster_id) {
            Some(policy) => Some(policy.duplicate()),
            None => None,
        }
    }

    /// How often the routing of a cluster changed.
    pub fn get_overlay_routing_epoch(&self, cluster_id: &ClusterId) -> (r: u64)
        requires
            self.wf(),
        ensures
            r == self@.epoch(cluster_id@),
    {
        match self.overlay_routing_epochs.get(cluster_id) {
            Some(epoch) => *epoch,
            None => 0,
        }
    }

    /// Takes up the count of routing changes of a cluster where an earlier store left it.
    pub fn restore_overlay_routing_epoch(&mut self, cluster_id: &ClusterId, epoch: u64)
        requires
            old(self).wf(),
        ensures
            final(self).wf(),
            final(self)@ == (StoreView {
                epochs: old(self)@.epochs.insert(one(cluster_id@), epoch),
                ..old(self)@
            }),
    {
        self.overlay_routing_epochs.insert(cluster_id.clone(), epoch);
        assert(self@.keyed());
    }

    fn check_not_exhausted(&self, cluster_id: &ClusterId) -> (r: Result<(), ControlPlaneError>)
        requires
            self.wf(),
        ensures
            refusal(r) == self@.exhaustion(cluster_id@),
    {
        if self.get_overlay_routing_epoch(cluster_id) == u64::MAX {
            return Err(
                ControlPlaneError::Store {
                    reason: "overlay routing epoch exhausted for cluster ".to_owned().concat(
                        cluster_id.as_str(),
                    ),
                },
            );
        }
        Ok(())
    }

    fn advance(&mut self, cluster_id: &ClusterId)
        requires
            old(self).wf(),
            old(self)@.exhaustion(cluster_id@) is None,
        ensures
            final(self).wf(),
            final(self)@ == old(self)@.advanced(cluster_id@),
    {
        let epoch = self.get_overlay_routing_epoch(cluster_id);
        self.overlay_routing_epochs.insert(cluster_id.clone(), epoch + 1);
        assert(self@ == old(self)@.advanced(cluster_id@));
        assert(self@.keyed());
    }

    fn put_policy(&mut self, cluster_id: &ClusterId, policy: ClusterPolicy)
        requires
            old(self).wf(),
        ensures
            final(self).wf(),
            final(self)@ == old(self)@.with_policy(cluster_id@, policy@),
    {
        broadcast use lemma_held_insert;

        self.cluster_policies.insert(cluster_id.clone(), policy);
        assert(self@ == old(self)@.with_policy(cluster_id@, policy@));
        assert(self@.keyed());
    }

    fn put_node(&mut self, node: NodeRecord)
        requires
            old(self).wf(),
        ensures
            final(self).wf(),
            final(self)@ == old(self)@.with_node(node@),
    {
        broadcast use lemma_held_insert;

        self.nodes.insert(node.node_id.clone(), node);
        assert(self@ == old(self)@.with_node(node@));
        assert(self@.keyed());
    }

    /// Stores a policy where the cluster has none, and gives the policy that the cluster then has.
    pub fn initialize_cluster_policy_if_absent(
        &mut self,
        cluster_id: &ClusterId,
        policy: ClusterPolicy,
    ) -> (r: Result<ClusterPolicy, ControlPlaneError>)
        requires
            old(self).wf(),
        ensures
            final(self).wf(),
            match old(self)@.policy(cluster_id@) {
                Some(stored) => r matches Ok(p) && p@ == stored && final(self)@ == old(self)@,
                None => {
                    &&& refusal(r) == old(self)@.exhaustion(cluster_id@)
                    &&& r matches Ok(p) ==> p@ == policy@
                    &&& final(self)@ == (if r is Ok {
                        old(self)@.advanced(cluster_id@).with_policy(cluster_id@, policy@)
                    } else {
                        old(self)@
                    })
                },
            },
    {
        if let Some(stored) = self.get_cluster_policy(cluster_id) {
            return Ok(stored);
        }
        match self.check_not_exhausted(cluster_id) {
            Ok(()) => {},
            Err(error) => return Err(error),
        }
        self.advance(cluster_id);
        self.put_policy(cluster_id, policy.duplicate());
        Ok(policy)
    }

    /// Stores a policy. The routing changes only where the policy is another one.
    pub fn upsert_cluster_policy(&mut self, cluster_id: &ClusterId, policy: ClusterPolicy) -> (r:
        Result<(), ControlPlaneError>)
        requires
            old(self).wf(),
        ensures
            final(self).wf(),
            if old(self)@.policy(cluster_id@) == Some(policy@) {
                r is Ok && final(self)@ == old(self)@
            } else {
                &&& refusal(r) == old(self)@.exhaustion(cluster_id@)
                &&& final(self)@ == (if r is Ok {
                    old(self)@.advanced(cluster_id@).with_policy(cluster_id@, policy@)
                } else {
                    old(self)@
                })
            },
    {
        if let Some(stored) = self.cluster_policies.get(cluster_id) {
            if stored.alike(&policy) {
                return Ok(());
            }
        }
        match self.check_not_exhausted(cluster_id) {
            Ok(()) => {},
            Err(error) => return Err(error),
        }
        self.advance(cluster_id);
        self.put_policy(cluster_id, policy);
        Ok(())
    }

    fn catalog_epoch_of(&self, cluster_id: &ClusterId) -> (r: Result<u64, ControlPlaneError>)
        requires
            self.wf(),
        ensures
            r matches Ok(epoch) && epoch == catalog_epoch(self@.catalog(cluster_id@)),
    {
        let nodes = value_list(&self.nodes);
        let catalog = backbone_nodes(&nodes, cluster_id);
        overlay_route_catalog_epoch(&catalog)
    }

    /// Stores a policy where the route catalog still has the expected epoch, and says whether it
    /// has.
    pub fn upsert_cluster_policy_if_route_catalog_epoch(
        &mut self,
        cluster_id: &ClusterId,
        policy: ClusterPolicy,
        expected_route_catalog_epoch: u64,
    ) -> (r: Result<bool, ControlPlaneError>)
        requires
            old(self).wf(),
        ensures
            final(self).wf(),
            if catalog_epoch(old(self)@.catalog(cluster_id@)) != expected_route_catalog_epoch {
                r matches Ok(false) && final(self)@ == old(self)@
            } else if old(self)@.policy(cluster_id@) == Some(policy@) {
                r matches Ok(true) && final(self)@ == old(self)@
            } else {
                &&& refusal(r) == old(self)@.exhaustion(cluster_id@)
                &&& r matches Ok(stored) ==> stored
                &&& final(self)@ == (if r is Ok {
                    old(self)@.advanced(cluster_id@).with_policy(cluster_id@, policy@)
                } else {
                    old(self)@
                })
            },
    {
        match self.catalog_epoch_of(cluster_id) {
            Ok(epoch) => {
                if epoch != expected_route_catalog_epoch {
                    return Ok(false);
                }
            },
            Err(error) => return Err(error),
        }
        match self.upsert_cluster_policy(cluster_id, policy) {
            Ok(()) => Ok(true),
            Err(error) => Err(error),
        }
    }

    /// Stores a node that is not there yet.
    pub fn insert_node(&mut self, node: NodeRecord) -> (r: Result<(), ControlPlaneError>)
        requires
            old(self).wf(),
        ensures
            final(self).wf(),
            refusal(r) == (if old(self)@.node(node@.node_id) is Some {
                Some(ControlPlaneErrorView::NodeAlreadyExists { node_id: node@.node_id })
            } else {
                old(self)@.exhaustion(node@.cluster_id)
            }),
            final(self)@ == (if r is Ok {
                old(self)@.advanced(node@.cluster_id).with_node(node@)
            } else {
                old(self)@
            }),
    {
        if self.nodes.contains_key(&node.node_id) {
            return Err(ControlPlaneError::NodeAlreadyExists { node_id: node.node_id.clone() });
        }
        match self.check_not_exhausted(&node.cluster_id) {
            Ok(()) => {},
            Err(error) => return Err(error),
        }
        self.advance(&node.cluster_id);
        self.put_node(node);
        Ok(())
    }

    fn check_cluster(
        &self,
        cluster_id: &ClusterId,
        expected_cluster_policy: &Option<ClusterPolicy>,
        expected_route_catalog_epoch: Option<u64>,
    ) -> (r: Result<(), ControlPlaneError>)
        requires
            self.wf(),
        ensures
            refusal(r) == self@.cluster_change(
                cluster_id@,
                opt_view(*expected_cluster_policy),
                expected_route_catalog_epoch,
            ),
    {
        let policy = self.get_cluster_policy(cluster_id);
        if !alike_option(&policy, expected_cluster_policy) {
            return Err(ControlPlaneError::ClusterPolicyChanged);
        }
        if let Some(expected) = expected_route_catalog_epoch {
            match self.catalog_epoch_of(cluster_id) {
                Ok(epoch) => {
                    if epoch != expected {
                        return Err(ControlPlaneError::OverlayRouteCatalogChanged);
                    }
                },
                Err(error) => return Err(error),
            }
        }
        Ok(())
    }

    /// Stores a node that is not there yet, where the cluster is as expected.
    pub fn insert_node_if_cluster_policy(
        &mut self,
        node: NodeRecord,
        expected_cluster_policy: Option<ClusterPolicy>,
        expected_route_catalog_epoch: Option<u64>,
    ) -> (r: Result<(), ControlPlaneError>)
        requires
            old(self).wf(),
        ensures
            final(self).wf(),
            refusal(r) == ({
                let change = old(self)@.cluster_change(
                    node@.cluster_id,
                    opt_view(expected_cluster_policy),
                    expected_route_catalog_epoch,
                );
                if change is Some {
                    change
                } else if old(self)@.node(node@.node_id) is Some {
                    Some(ControlPlaneErrorView::NodeAlreadyExists { node_id: node@.node_id })
                } else {
                    old(self)@.exhaustion(node@.cluster_id)
                }
            }),
            final(self)@ == (if r is Ok {
                old(self)@.advanced(node@.cluster_id).with_node(node@)
            } else {
                old(self)@
            }),
    {
        match self.check_cluster(
            &node.cluster_id,
            &expected_cluster_policy,
            expected_route_catalog_epoch,
        ) {
            Ok(()) => {},
            Err(error) => return Err(error),
        }
        self.insert_node(node)
    }

    /// The node with an identifier.
    pub fn get_node(&self, node_id: &NodeId) -> (r: Option<NodeRecord>)
        requires
            self.wf(),
        ensures
            opt_view(r) == self@.node(node_id@),
    {
        match self.nodes.get(node_id) {
            Some(node) => Some(node.duplicate()),
            None => None,
        }
    }

    /// All nodes, in the order of their identifiers.
    pub fn list_nodes(&self) -> (r: Vec<NodeRecord>)
        requires
            self.wf(),
        ensures
            views(r@) == listed(self@.nodes),
    {
        value_list(&self.nodes)
    }

    /// Removes a node and all that speaks of it.
    pub fn remove_node(&mut self, node_id: &NodeId) -> (r: Result<RemovedNode, ControlPlaneError>)
        requires
            old(self).wf(),
        ensures
            final(self).wf(),
            refusal(r) == (match old(self)@.node(node_id@) {
                None => not_found(node_id@),
                Some(node) => old(self)@.exhaustion(node.cluster_id),
            }),
            r matches Ok(removed) ==> {
                let node = old(self)@.node(node_id@)->0;
                &&& removed.node@ == node
                &&& removed.removed_health == at(old(self)@.health, one(node_id@)) is Some
                &&& removed.removed_path_count == old(self)@.paths.len() - paths_without(
                    old(self)@.paths,
                    node_id@,
                ).len()
                &&& final(self)@ == old(self)@.advanced(node.cluster_id).without_node(node_id@)
            },
            r is Err ==> final(self)@ == old(self)@,
    {
        broadcast use lemma_held_remove;

        let node = match self.get_node(node_id) {
            Some(node) => node,
            None => return Err(ControlPlaneError::NodeNotFound { node_id: node_id.clone() }),
        };
        match self.check_not_exhausted(&node.cluster_id) {
            Ok(()) => {},
            Err(error) => return Err(error),
        }
        self.advance(&node.cluster_id);
        self.nodes.remove(node_id);
        let removed_health = self.health.remove(node_id).is_some();
        self.heartbeat_signature_timestamps.remove(node_id);
        self.nat_classifications.remove(node_id);
        self.client_gateway_selections = keep_other_selections(
            &self.client_gateway_selections,
            node_id,
        );
        let kept_paths = keep_untouched_paths(&self.paths, node_id);
        let removed_path_count = self.paths.len() - kept_paths.len();
        assert(views(kept_paths@).len() == kept_paths@.len());
        self.paths = kept_paths;
        Ok(RemovedNode { node, removed_path_count, removed_health })
    }
}

/// The position of the first path with a key.
pub open spec fn path_position(paths: Seq<PathRecordView>, path: PathRecordView, n: nat) -> Option<
    int,
> {
    first_in(
        n,
        |i: int|
            if paths[i].key == path.key {
                Some(i)
            } else {
                None
            },
    )
}

/// The paths after a path took the place of the first one with its key, or came last.
pub open spec fn paths_with(paths: Seq<PathRecordView>, path: PathRecordView) -> Seq<
    PathRecordView,
> {
    match path_position(paths, path, paths.len()) {
        Some(i) => paths.update(i, path),
        None => paths.push(path),
    }
}

/// The two ends are one of the pairs.
pub open spec fn has_pair(
    pairs: Seq<(NodeId, NodeId)>,
    local: Seq<char>,
    remote: Seq<char>,
) -> bool {
    exists|i: int|
        0 <= i < pairs.len() && (#[trigger] pairs[i]).0@ == local && pairs[i].1@ == remote
}

fn pair_listed(pairs: &Vec<(NodeId, NodeId)>, local: &NodeId, remote: &NodeId) -> (r: bool)
    ensures
        r == has_pair(pairs@, local@, remote@),
{
    let mut i: usize = 0;
    while i < pairs.len()
        invariant
            i <= pairs@.len(),
            forall|k: int|
                0 <= k < i ==> !((#[trigger] pairs@[k]).0@ == local@ && pairs@[k].1@ == remote@),
        decreases pairs@.len() - i,
    {
        if pairs[i].0 == *local && pairs[i].1 == *remote {
            return true;
        }
        i = i + 1;
    }
    false
}

/// The candidate may be placed: it is of the cluster, eligible, under a lease that runs on after
/// the cutoff, and comes after the given node.
pub open spec fn placeable(
    candidate: KeycloakCandidateLeaseView,
    cluster_id: Seq<char>,
    lease_cutoff: Timestamp,
    after_node_id: Option<Seq<char>>,
) -> bool {
    &&& candidate.cluster_id == cluster_id
    &&& candidate.eligible
    &&& candidate.lease_expires_at.at() > lease_cutoff.at()
    &&& after_node_id matches Some(after) ==> text_lt(after, candidate.node_id)
}

/// No more than a number of the first items.
pub open spec fn at_most<T>(items: Seq<T>, limit: nat) -> Seq<T> {
    if items.len() <= limit {
        items
    } else {
        items.take(limit as int)
    }
}

impl InMemoryStore {
    /// Replaces the candidates of a node.
    pub fn update_node_candidates(
        &mut self,
        node_id: &NodeId,
        candidates: Vec<EndpointCandidate>,
    ) -> (r: Result<(), ControlPlaneError>)
        requires
            old(self).wf(),
        ensures
            final(self).wf(),
            match old(self)@.node(node_id@) {
                None => refusal(r) == not_found(node_id@) && final(self)@ == old(self)@,
                Some(node) => r is Ok && final(self)@ == old(self)@.with_node(
                    (NodeRecordView { endpoint_candidates: views(candidates@), ..node }),
                ),
            },
    {
        match self.get_node(node_id) {
            None => Err(ControlPlaneError::NodeNotFound { node_id: node_id.clone() }),
            Some(stored) => {
                let mut node = stored;
                node.endpoint_candidates = candidates;
                self.put_node(node);
                Ok(())
            },
        }
    }

    /// Replaces the capability of a node to relay.
    pub fn update_node_relay_capability(
        &mut self,
        node_id: &NodeId,
        relay_capability: Option<RelayCapability>,
    ) -> (r: Result<(), ControlPlaneError>)
        requires
            old(self).wf(),
        ensures
            final(self).wf(),
            match old(self)@.node(node_id@) {
                None => refusal(r) == not_found(node_id@) && final(self)@ == old(self)@,
                Some(node) => r is Ok && final(self)@ == old(self)@.with_node(
                    (NodeRecordView { relay_capability: opt_view(relay_capability), ..node }),
                ),
            },
    {
        match self.get_node(node_id) {
            None => Err(ControlPlaneError::NodeNotFound { node_id: node_id.clone() }),
            Some(stored) => {
                let mut node = stored;
                node.relay_capability = relay_capability;
                self.put_node(node);
                Ok(())
            },
        }
    }

    /// Replaces the routes of a node. The routing changes only where the routes are others.
    pub fn update_node_routes(&mut self, node_id: &NodeId, routes: Vec<Route>) -> (r: Result<
        (),
        ControlPlaneError,
    >)
        requires
            old(self).wf(),
        ensures
            final(self).wf(),
            match old(self)@.node(node_id@) {
                None => refusal(r) == not_found(node_id@) && final(self)@ == old(self)@,
                Some(node) => if node.routes == views(routes@) {
                    r is Ok && final(self)@ == old(self)@
                } else {
                    &&& refusal(r) == old(self)@.exhaustion(node.cluster_id)
                    &&& final(self)@ == (if r is Ok {
                        old(self)@.advanced(node.cluster_id).with_node(
                            NodeRecordView { routes: views(routes@), ..node },
                        )
                    } else {
                        old(self)@
                    })
                },
            },
    {
        let stored = match self.get_node(node_id) {
            Some(stored) => stored,
            None => return Err(ControlPlaneError::NodeNotFound { node_id: node_id.clone() }),
        };
        if alike_all(&stored.routes, &routes) {
            return Ok(());
        }
        match self.check_not_exhausted(&stored.cluster_id) {
            Ok(()) => {},
            Err(error) => return Err(error),
        }
        self.advance(&stored.cluster_id);
        let mut node = stored;
        node.routes = routes;
        self.put_node(node);
        Ok(())
    }

    /// Replaces the routes of a node of a cluster, where the cluster is as expected.
    pub fn update_node_routes_if_cluster_policy(
        &mut self,
        cluster_id: &ClusterId,
        node_id: &NodeId,
        routes: Vec<Route>,
        expected_cluster_policy: Option<ClusterPolicy>,
        expected_route_catalog_epoch: Option<u64>,
    ) -> (r: Result<(), ControlPlaneError>)
        requires
            old(self).wf(),
        ensures
            final(self).wf(),
            ({
                let change = old(self)@.cluster_change(
                    cluster_id@,
                    opt_view(expected_cluster_policy),
                    expected_route_catalog_epoch,
                );
                let node = old(self)@.node(node_id@);
                if change is Some {
                    refusal(r) == change && final(self)@ == old(self)@
                } else if node is None || node->0.cluster_id != cluster_id@ {
                    refusal(r) == not_found(node_id@) && final(self)@ == old(self)@
                } else if node->0.routes == views(routes@) {
                    r is Ok && final(self)@ == old(self)@
                } else {
                    &&& refusal(r) == old(self)@.exhaustion(cluster_id@)
                    &&& final(self)@ == (if r is Ok {
                        old(self)@.advanced(cluster_id@).with_node(
                            NodeRecordView { routes: views(routes@), ..node->0 },
                        )
                    } else {
                        old(self)@
                    })
                }
            }),
    {
        match self.check_cluster(
            cluster_id,
            &expected_cluster_policy,
            expected_route_catalog_epoch,
        ) {
            Ok(()) => {},
            Err(error) => return Err(error),
        }
        match self.nodes.get(node_id) {
            Some(node) => {
                if node.cluster_id != *cluster_id {
                    return Err(ControlPlaneError::NodeNotFound { node_id: node_id.clone() });
                }
            },
            None => return Err(ControlPlaneError::NodeNotFound { node_id: node_id.clone() }),
        }
        self.update_node_routes(node_id, routes)
    }

    /// Stores a node that registers again, where the cluster and the node are as expected.
    pub fn rejoin_node_if_cluster_policy(&mut self, update: RejoinNodeStoreUpdate) -> (r: Result<
        NodeRecord,
        ControlPlaneError,
    >)
        requires
            old(self).wf(),
        ensures
            final(self).wf(),
            refusal(r) == old(self)@.rejoin_refusal(update@),
            r matches Ok(node) ==> node@ == old(self)@.rejoined(update@),
            final(self)@ == (if r is Ok {
                old(self)@.after_rejoin(update@)
            } else {
                old(self)@
            }),
    {
        let ghost asked = update@;
        match self.check_cluster(
            &update.cluster_id,
            &update.expected_cluster_policy,
            update.expected_route_catalog_epoch,
        ) {
            Ok(()) => {},
            Err(error) => return Err(error),
        }
        let id = update.expected_node.node_id.clone();
        let stored = match self.get_node(&id) {
            Some(stored) => stored,
            None => return Err(ControlPlaneError::NodeNotFound { node_id: id }),
        };
        if stored.cluster_id != update.cluster_id {
            return Err(ControlPlaneError::NodeNotFound { node_id: id });
        }
        if !stored.alike(&update.expected_node) {
            return Err(ControlPlaneError::NodeStateChanged { node_id: stored.node_id });
        }
        if !alike_all(&stored.routes, &update.routes) {
            match self.check_not_exhausted(&update.cluster_id) {
                Ok(()) => {},
                Err(error) => return Err(error),
            }
            self.advance(&update.cluster_id);
        }
        let mut node = stored;
        node.endpoint_candidates = update.candidates;
        node.relay_capability = update.relay_capability;
        node.routes = update.routes;
        assert(node@ == old(self)@.rejoined(asked));
        self.put_node(node.duplicate());
        Ok(node)
    }

    /// Replaces the WireGuard key of a node that still has the expected one.
    pub fn rotate_node_wireguard_public_key(
        &mut self,
        node_id: &NodeId,
        expected_current_public_key: &str,
        next_public_key: String,
    ) -> (r: Result<NodeRecord, ControlPlaneError>)
        requires
            old(self).wf(),
        ensures
            final(self).wf(),
            match old(self)@.node(node_id@) {
                None => refusal(r) == not_found(node_id@) && final(self)@ == old(self)@,
                Some(node) => if node.wireguard_public_key != expected_current_public_key@ {
                    &&& refusal(r) == Some(
                        (ControlPlaneErrorView::NodeUpdateRejected {
                            node_id: node_id@,
                            reason: "wireguard public key changed before rotation completed"@,
                        }),
                    )
                    &&& final(self)@ == old(self)@
                } else if node.wireguard_public_key == next_public_key@ {
                    r matches Ok(same) && same@ == node && final(self)@ == old(self)@
                } else {
                    let rotated = NodeRecordView {
                        wireguard_public_key: next_public_key@,
                        ..node
                    };
                    &&& refusal(r) == old(self)@.exhaustion(node.cluster_id)
                    &&& r matches Ok(changed) ==> changed@ == rotated
                    &&& final(self)@ == (if r is Ok {
                        old(self)@.advanced(node.cluster_id).with_node(rotated)
                    } else {
                        old(self)@
                    })
                },
            },
    {
        let stored = match self.get_node(node_id) {
            Some(stored) => stored,
            None => return Err(ControlPlaneError::NodeNotFound { node_id: node_id.clone() }),
        };
        if !text_same(stored.wireguard_public_key.as_str(), expected_current_public_key) {
            return Err(
                ControlPlaneError::NodeUpdateRejected {
                    node_id: node_id.clone(),
                    reason: "wireguard public key changed before rotation completed".to_owned(),
                },
            );
        }
        if stored.wireguard_public_key == next_public_key {
            return Ok(stored);
        }
        match self.check_not_exhausted(&stored.cluster_id) {
            Ok(()) => {},
            Err(error) => return Err(error),
        }
        self.advance(&stored.cluster_id);
        let mut node = stored;
        node.wireguard_public_key = next_public_key;
        self.put_node(node.duplicate());
        Ok(node)
    }

    /// Stores the health of a node.
    pub fn upsert_health(&mut self, node_id: NodeId, health: NodeHealth)
        requires
            old(self).wf(),
        ensures
            final(self).wf(),
            final(self)@ == (StoreView {
                health: old(self)@.health.insert(one(node_id@), health@),
                ..old(self)@
            }),
    {
        broadcast use lemma_held_insert;

        self.health.insert(node_id, health);
        assert(self@.keyed());
    }

    /// The health of a node.
    pub fn get_health(&self, node_id: &NodeId) -> (r: Option<NodeHealth>)
        requires
            self.wf(),
        ensures
            opt_view(r) == at(self@.health, one(node_id@)),
    {
        match self.health.get(node_id) {
            Some(health) => Some(health.duplicate()),
            None => None,
        }
    }

    /// The health of all nodes.
    pub fn list_health(&self) -> (r: OrderedMap<NodeId, NodeHealth>)
        requires
            self.wf(),
        ensures
            r.wf(),
            held(r@) == self@.health,
    {
        duplicate_map(&self.health)
    }

    /// When the last accepted heartbeat of a node was signed.
    pub fn get_heartbeat_signature_timestamp(&self, node_id: &NodeId) -> (r: Option<Timestamp>)
        requires
            self.wf(),
        ensures
            r == at(self@.signatures, one(node_id@)),
    {
        match self.heartbeat_signature_timestamps.get(node_id) {
            Some(signed_at) => Some(*signed_at),
            None => None,
        }
    }

    /// Stores what a node found out about the NAT in front of it.
    pub fn upsert_nat_classification(
        &mut self,
        node_id: NodeId,
        classification: NatClassification,
    )
        requires
            old(self).wf(),
        ensures
            final(self).wf(),
            final(self)@ == (StoreView {
                nats: old(self)@.nats.insert(one(node_id@), classification@),
                ..old(self)@
            }),
    {
        broadcast use lemma_held_insert;

        self.nat_classifications.insert(node_id, classification);
        assert(self@.keyed());
    }

    /// What a node found out about the NAT in front of it.
    pub fn get_nat_classification(&self, node_id: &NodeId) -> (r: Option<NatClassification>)
        requires
            self.wf(),
        ensures
            opt_view(r) == at(self@.nats, one(node_id@)),
    {
        match self.nat_classifications.get(node_id) {
            Some(classification) => Some(classification.duplicate()),
            None => None,
        }
    }

    /// What all nodes found out about the NATs in front of them.
    pub fn list_nat_classifications(&self) -> (r: OrderedMap<NodeId, NatClassification>)
        requires
            self.wf(),
        ensures
            r.wf(),
            held(r@) == self@.nats,
    {
        duplicate_map(&self.nat_classifications)
    }

    /// Stores a heartbeat, where the cluster and the node are as expected and nothing newer is
    /// stored.
    pub fn apply_heartbeat(&mut self, update: HeartbeatStoreUpdate) -> (r: Result<
        (),
        ControlPlaneError,
    >)
        requires
            old(self).wf(),
        ensures
            final(self).wf(),
            refusal(r) == old(self)@.heartbeat_refusal(update@),
            final(self)@ == (if r is Ok {
                old(self)@.after_heartbeat(update@)
            } else {
                old(self)@
            }),
    {
        broadcast use lemma_held_insert;

        let ghost asked = update@;
        match self.check_cluster(
            &update.cluster_id,
            &update.expected_cluster_policy,
            update.expected_route_catalog_epoch,
        ) {
            Ok(()) => {},
            Err(error) => return Err(error),
        }
        let stored = match self.get_node(&update.node_id) {
            Some(stored) => stored,
            None => return Err(
                ControlPlaneError::NodeNotFound { node_id: update.node_id.clone() },
            ),
        };
        match update.ensure_matches_node_generation(&stored) {
            Ok(()) => {},
            Err(error) => return Err(error),
        }
        let previous_signature_at = self.get_heartbeat_signature_timestamp(&update.node_id);
        match ensure_heartbeat_is_newer(
            &update,
            previous_signature_at,
            self.health.get(&update.node_id),
        ) {
            Ok(()) => {},
            Err(error) => return Err(error),
        }
        let routes_changed = match &update.routes {
            Some(routes) => !alike_all(routes, &stored.routes),
            None => false,
        };
        assert(routes_changed == changes_routes(asked, stored@));
        if routes_changed {
            match self.check_not_exhausted(&update.cluster_id) {
                Ok(()) => {},
                Err(error) => return Err(error),
            }
            self.advance(&update.cluster_id);
        }
        let id = update.node_id;
        let mut node = stored;
        node.endpoint_candidates = update.candidates;
        node.relay_capability = update.relay_capability;
        if let Some(hostname) = update.hostname {
            node.hostname = Some(hostname);
        }
        if let Some(routes) = update.routes {
            node.routes = routes;
        }
        assert(node@ == node_after_heartbeat(old(self)@.node(asked.node_id)->0, asked));
        self.put_node(node);
        if let Some(classification) = update.nat_classification {
            self.nat_classifications.insert(id.clone(), classification);
        }
        if let Some(signed_at) = update.accepted_signature_at {
            self.heartbeat_signature_timestamps.insert(id.clone(), signed_at);
        }
        self.health.insert(id.clone(), update.health);
        self.replace_node_paths(&id, update.paths);
        Ok(())
    }

    /// Stores a path in the place of the one with its key, or as a new one.
    pub fn upsert_path(&mut self, path: PathRecord)
        requires
            old(self).wf(),
        ensures
            final(self).wf(),
            final(self)@ == (StoreView { paths: paths_with(old(self)@.paths, path@), ..old(self)@ }),
    {
        let ghost all = views(self.paths@);
        let ghost f = |i: int|
            if all[i].key == path@.key {
                Some(i)
            } else {
                None
            };
        let mut i: usize = 0;
        while i < self.paths.len()
            invariant
                *self == *old(self),
                self.wf(),
                i <= self.paths@.len(),
                all == views(self.paths@),
                f == (|i: int|
                    if all[i].key == path@.key {
                        Some(i)
                    } else {
                        None
                    }),
                first_in(i as nat, f) is None,
            decreases self.paths@.len() - i,
        {
            assert(all[i as int] == self.paths@[i as int]@);
            if self.paths[i].key.alike(&path.key) {
                proof {
                    lemma_first_in_extends((i + 1) as nat, all.len(), f);
                }
                let ghost stored = path@;
                self.paths.set(i, path);
                assert(views(self.paths@) =~= all.update(i as int, stored));
                assert(self@.keyed());
                return ;
            }
            i = i + 1;
        }
        let ghost stored = path@;
        self.paths.push(path);
        assert(views(self.paths@) =~= all.push(stored));
        assert(self@.keyed());
    }

    /// Replaces the paths that a node reported.
    pub fn replace_node_paths(&mut self, node_id: &NodeId, replacement_paths: Vec<PathRecord>)
        requires
            old(self).wf(),
        ensures
            final(self).wf(),
            final(self)@ == (StoreView {
                paths: paths_of_others(old(self)@.paths, node_id@) + views(replacement_paths@),
                ..old(self)@
            }),
    {
        let mut paths = keep_other_paths(&self.paths, node_id);
        let ghost others = paths@;
        let mut replacement_paths = replacement_paths;
        let ghost replacements = replacement_paths@;
        paths.append(&mut replacement_paths);
        assert(views(paths@) =~= views(others) + views(replacements));
        self.paths = paths;
        assert(self@.keyed());
    }

    /// The paths that have a node at one of their ends.
    pub fn list_paths_for(&self, node_id: &NodeId) -> (r: Vec<PathRecord>)
        requires
            self.wf(),
        ensures
            views(r@) == kept(
                self@.paths,
                |path: PathRecordView| path_touches(path, node_id@),
                self@.paths.len(),
            ),
    {
        let ghost all = views(self.paths@);
        let ghost keep = |path: PathRecordView| path_touches(path, node_id@);
        let mut r: Vec<PathRecord> = Vec::new();
        let mut i: usize = 0;
        while i < self.paths.len()
            invariant
                i <= self.paths@.len(),
                all == views(self.paths@),
                keep == (|path: PathRecordView| path_touches(path, node_id@)),
                views(r@) == kept(all, keep, i as nat),
            decreases self.paths@.len() - i,
        {
            broadcast use lemma_views_push;

            assert(all[i as int] == self.paths@[i as int]@);
            if self.paths[i].key.local == *node_id || self.paths[i].key.remote == *node_id {
                r.push(self.paths[i].duplicate());
            }
            i = i + 1;
        }
        r
    }

    /// All paths.
    pub fn list_all_paths(&self) -> (r: Vec<PathRecord>)
        requires
            self.wf(),
        ensures
            views(r@) == self@.paths,
    {
        duplicate_all(&self.paths)
    }

    /// The paths between the pairs.
    pub fn list_paths_for_pairs(&self, pairs: &Vec<(NodeId, NodeId)>) -> (r: Vec<PathRecord>)
        requires
            self.wf(),
        ensures
            views(r@) == kept(
                self@.paths,
                |path: PathRecordView| has_pair(pairs@, path.key.local, path.key.remote),
                self@.paths.len(),
            ),
    {
        let ghost all = views(self.paths@);
        let ghost keep = |path: PathRecordView|
            has_pair(pairs@, path.key.local, path.key.remote);
        let mut r: Vec<PathRecord> = Vec::new();
        let mut i: usize = 0;
        while i < self.paths.len()
            invariant
                i <= self.paths@.len(),
                all == views(self.paths@),
                keep == (|path: PathRecordView|
                    has_pair(pairs@, path.key.local, path.key.remote)),
                views(r@) == kept(all, keep, i as nat),
            decreases self.paths@.len() - i,
        {
            broadcast use lemma_views_push;

            assert(all[i as int] == self.paths@[i as int]@);
            if pair_listed(pairs, &self.paths[i].key.local, &self.paths[i].key.remote) {
                r.push(self.paths[i].duplicate());
            }
            i = i + 1;
        }
        r
    }

    /// Stores a service instance.
    pub fn upsert_service_instance(&mut self, instance: ServiceInstance)
        requires
            old(self).wf(),
        ensures
            final(self).wf(),
            final(self)@ == (StoreView {
                services: old(self)@.services.insert(
                    two(instance@.cluster_id, instance@.instance_id),
                    instance@,
                ),
                ..old(self)@
            }),
    {
        broadcast use lemma_held_insert;

        let key = ScopedName {
            scope: instance.cluster_id.value.clone(),
            name: instance.instance_id.clone(),
        };
        self.service_instances.insert(key, instance);
        assert(self@.keyed());
    }

    /// Removes a service instance, and says whether it was there.
    pub fn remove_service_instance(&mut self, cluster_id: &ClusterId, instance_id: &str) -> (r:
        bool)
        requires
            old(self).wf(),
        ensures
            final(self).wf(),
            r == at(old(self)@.services, two(cluster_id@, instance_id@)) is Some,
            final(self)@ == (StoreView {
                services: old(self)@.services.remove(two(cluster_id@, instance_id@)),
                ..old(self)@
            }),
    {
        broadcast use lemma_held_remove;

        let key = ScopedName { scope: cluster_id.value.clone(), name: instance_id.to_owned() };
        let removed = self.service_instances.remove(&key).is_some();
        assert(self@.keyed());
        removed
    }

    /// The service instances of a cluster, in the order of their identifiers.
    pub fn list_service_instances(&self, cluster_id: &ClusterId) -> (r: Vec<ServiceInstance>)
        requires
            self.wf(),
        ensures
            views(r@) == kept(
                listed(self@.services),
                |instance: ServiceInstanceView| instance.cluster_id == cluster_id@,
                listed(self@.services).len(),
            ),
    {
        let instances = value_list(&self.service_instances);
        let ghost all = views(instances@);
        let ghost keep = |instance: ServiceInstanceView| instance.cluster_id == cluster_id@;
        let mut r: Vec<ServiceInstance> = Vec::new();
        let mut i: usize = 0;
        while i < instances.len()
            invariant
                i <= instances@.len(),
                all == views(instances@),
                keep == (|instance: ServiceInstanceView| instance.cluster_id == cluster_id@),
                views(r@) == kept(all, keep, i as nat),
            decreases instances@.len() - i,
        {
            broadcast use lemma_views_push;

            assert(all[i as int] == instances@[i as int]@);
            if instances[i].cluster_id == *cluster_id {
                r.push(instances[i].duplicate());
            }
            i = i + 1;
        }
        r
    }

    /// Stores the lease of a candidate, unless a lease that is at least as new still runs; says
    /// whether it was stored.
    pub fn upsert_keycloak_candidate(&mut self, candidate: KeycloakCandidateLease) -> (r: bool)
        requires
            old(self).wf(),
        ensures
            final(self).wf(),
            ({
                let key = two(candidate@.cluster_id, candidate@.node_id);
                let current = at(old(self)@.keycloak, key);
                &&& r == !(current is Some && current->0.lease_expires_at.at()
                    > candidate@.updated_at.at() && current->0.generation
                    >= candidate@.generation)
                &&& final(self)@ == (if r {
                    StoreView {
                        keycloak: old(self)@.keycloak.insert(key, candidate@),
                        ..old(self)@
                    }
                } else {
                    old(self)@
                })
            }),
    {
        broadcast use lemma_held_insert;

        let key = ScopedName {
            scope: candidate.cluster_id.value.clone(),
            name: candidate.node_id.value.clone(),
        };
        if let Some(current) = self.keycloak_candidates.get(&key) {
            if candidate.updated_at.before(&current.lease_expires_at) && current.generation
                >= candidate.generation {
                return false;
            }
        }
        self.keycloak_candidates.insert(key, candidate);
        assert(self@.keyed());
        true
    }

    /// The first candidates of a cluster that may be placed, in the order of their nodes.
    pub fn list_keycloak_candidates(
        &self,
        cluster_id: &ClusterId,
        lease_cutoff: Timestamp,
        after_node_id: Option<&NodeId>,
        limit: usize,
    ) -> (r: Vec<KeycloakCandidateLease>)
        requires
            self.wf(),
        ensures
            views(r@) == at_most(
                kept(
                    listed(self@.keycloak),
                    |candidate: KeycloakCandidateLeaseView|
                        placeable(
                            candidate,
                            cluster_id@,
                            lease_cutoff,
                            ref_view(after_node_id),
                        ),
                    listed(self@.keycloak).len(),
                ),
                limit as nat,
            ),
    {
        let candidates = value_list(&self.keycloak_candidates);
        let ghost all = views(candidates@);
        let ghost keep = |candidate: KeycloakCandidateLeaseView|
            placeable(candidate, cluster_id@, lease_cutoff, ref_view(after_node_id));
        let mut r: Vec<KeycloakCandidateLease> = Vec::new();
        let mut i: usize = 0;
        while i < candidates.len()
            invariant
                i <= candidates@.len(),
                all == views(candidates@),
                keep == (|candidate: KeycloakCandidateLeaseView|
                    placeable(candidate, cluster_id@, lease_cutoff, ref_view(after_node_id))),
                views(r@) == kept(all, keep, i as nat),
            decreases candidates@.len() - i,
        {
            broadcast use lemma_views_push;

            let candidate = &candidates[i];
            assert(all[i as int] == candidate@);
            let later = match after_node_id {
                Some(after) => text_precedes(after.as_str(), candidate.node_id.as_str()),
                None => true,
            };
            if candidate.cluster_id == *cluster_id && candidate.eligible && lease_cutoff.before(
                &candidate.lease_expires_at,
            ) && later {
                r.push(candidate.duplicate());
            }
            i = i + 1;
        }
        let ghost found = views(r@);
        if r.len() > limit {
            r.truncate(limit);
            assert(views(r@) =~= found.take(limit as int));
        }
        r
    }

    /// Stores the gateway that a client has chosen.
    pub fn upsert_client_gateway_selection(&mut self, selection: ClientGatewaySelection)
        requires
            old(self).wf(),
        ensures
            final(self).wf(),
            final(self)@ == (StoreView {
                selections: old(self)@.selections.insert(one(selection@.client_id), selection@),
                ..old(self)@
            }),
    {
        broadcast use lemma_held_insert;

        self.client_gateway_selections.insert(selection.client_id.clone(), selection);
        assert(self@.keyed());
    }

    /// Forgets the gateway that a client has chosen, and says whether it had chosen one.
    pub fn remove_client_gateway_selection(&mut self, client_id: &NodeId) -> (r: bool)
        requires
            old(self).wf(),
        ensures
            final(self).wf(),
            r == at(old(self)@.selections, one(client_id@)) is Some,
            final(self)@ == (StoreView {
                selections: old(self)@.selections.remove(one(client_id@)),
                ..old(self)@
            }),
    {
        broadcast use lemma_held_remove;

        let removed = self.client_gateway_selections.remove(client_id).is_some();
        assert(self@.keyed());
        removed
    }

    /// The gateways that clients have chosen.
    pub fn list_client_gateway_selections(&self) -> (r: OrderedMap<NodeId, ClientGatewaySelection>)
        requires
            self.wf(),
        ensures
            r.wf(),
            held(r@) == self@.selections,
    {
        duplicate_map(&self.client_gateway_selections)
    }

    /// When a client last chose a gateway.
    pub fn latest_client_gateway_selection_at(&self) -> (r: Option<Timestamp>)
        requires
            self.wf(),
        ensures
            match r {
                None => listed(self@.selections).len() == 0,
                Some(latest) => {
                    &&& exists|i: int|
                        0 <= i < listed(self@.selections).len() && (#[trigger] listed(
                            self@.selections,
                        )[i]).selected_at == latest
                    &&& forall|i: int|
                        0 <= i < listed(self@.selections).len() ==> (#[trigger] listed(
                            self@.selections,
                        )[i]).selected_at.at() <= latest.at()
                },
            },
    {
        let selections = value_list(&self.client_gateway_selections);
        let ghost all = views(selections@);
        let mut latest: Option<Timestamp> = None;
        let mut i: usize = 0;
        while i < selections.len()
            invariant
                i <= selections@.len(),
                all == views(selections@),
                match latest {
                    None => i == 0,
                    Some(time) => {
                        &&& exists|k: int| 0 <= k < i && (#[trigger] all[k]).selected_at == time
                        &&& forall|k: int|
                            0 <= k < i ==> (#[trigger] all[k]).selected_at.at() <= time.at()
                    },
                },
            decreases selections@.len() - i,
        {
            let time = selections[i].selected_at;
            assert(all[i as int].selected_at == time);
            let newer = match latest {
                Some(previous) => previous.before(&time),
                None => true,
            };
            if newer {
                latest = Some(time);
            }
            i = i + 1;
        }
        assert(listed(self@.selections).len() == selections@.len());
        latest
    }
}

/// A node that was removed leaves nothing behind: no record, no health, no signature, no NAT
/// classification, no path and no selection.
pub proof fn law_removal_leaves_no_trace(store: StoreView, node_id: Seq<char>)
    ensures
        ({
            let after = store.without_node(node_id);
            &&& after.node(node_id) is None
            &&& at(after.health, one(node_id)) is None
            &&& at(after.signatures, one(node_id)) is None
            &&& at(after.nats, one(node_id)) is None
            &&& at(after.selections, one(node_id)) is None
            &&& forall|i: int|
                0 <= i < after.paths.len() ==> !path_touches(#[trigger] after.paths[i], node_id)
            &&& forall|key: Seq<Seq<char>>| #[trigger]
                after.selections.dom().contains(key) ==> after.selections[key].gateway_node_id
                    != node_id
        }),
{
    lemma_kept(
        store.paths,
        |path: PathRecordView| !path_touches(path, node_id),
        store.paths.len(),
    );
}

/// The removal of a node leaves the other nodes, their health and the paths between them as they
/// were.
pub proof fn law_removal_spares_the_others(
    store: StoreView,
    node_id: Seq<char>,
    other: Seq<char>,
    i: int,
)
    requires
        other != node_id,
        0 <= i < store.paths.len(),
        !path_touches(store.paths[i], node_id),
    ensures
        store.without_node(node_id).node(other) == store.node(other),
        at(store.without_node(node_id).health, one(other)) == at(store.health, one(other)),
        store.without_node(node_id).paths.contains(store.paths[i]),
{
    assert(one(other)[0] != one(node_id)[0]);
    lemma_kept(
        store.paths,
        |path: PathRecordView| !path_touches(path, node_id),
        store.paths.len(),
    );
    let without = paths_without(store.paths, node_id);
    let k = choose|k: int| 0 <= k < without.len() && without[k] == store.paths[i];
    assert(without[k] == store.paths[i]);
}

/// A heartbeat changes the routing of its cluster exactly where it changes the routes of its node,
/// and the routing of no other cluster.
pub proof fn law_heartbeat_changes_routing_only_by_routes(
    store: StoreView,
    update: HeartbeatStoreUpdateView,
    cluster_id: Seq<char>,
)
    requires
        store.heartbeat_refusal(update) is None,
    ensures
        store.after_heartbeat(update).epoch(cluster_id) == store.epoch(cluster_id) + (if cluster_id
            == update.cluster_id && changes_routes(update, store.node(update.node_id)->0) {
            1int
        } else {
            0
        }),
{
    if cluster_id != update.cluster_id {
        assert(one(cluster_id)[0] != one(update.cluster_id)[0]);
    }
}

/// A heartbeat changes its own node only: the others, their health and the paths that they
/// reported stay as they were.
pub proof fn law_heartbeat_spares_the_others(
    store: StoreView,
    update: HeartbeatStoreUpdateView,
    other: Seq<char>,
    i: int,
)
    requires
        store.heartbeat_refusal(update) is None,
        other != update.node_id,
        0 <= i < store.paths.len(),
        store.paths[i].key.local != update.node_id,
    ensures
        store.after_heartbeat(update).node(other) == store.node(other),
        at(store.after_heartbeat(update).health, one(other)) == at(store.health, one(other)),
        at(store.after_heartbeat(update).signatures, one(other)) == at(
            store.signatures,
            one(other),
        ),
        at(store.after_heartbeat(update).nats, one(other)) == at(store.nats, one(other)),
        store.after_heartbeat(update).paths.contains(store.paths[i]),
        store.after_heartbeat(update).services == store.services,
        store.after_heartbeat(update).selections == store.selections,
        store.after_heartbeat(update).policies == store.policies,
{
    assert(one(other)[0] != one(update.node_id)[0]);
    lemma_kept(
        store.paths,
        |path: PathRecordView| path.key.local != update.node_id,
        store.paths.len(),
    );
    let others = paths_of_others(store.paths, update.node_id);
    let k = choose|k: int| 0 <= k < others.len() && others[k] == store.paths[i];
    assert((others + update.paths)[k] == store.paths[i]);
}

/// A node keeps its identity, its address, its role and its token through a heartbeat.
pub proof fn law_heartbeat_keeps_the_identity(store: StoreView, update: HeartbeatStoreUpdateView)
    requires
        store.keyed(),
        store.heartbeat_refusal(update) is None,
    ensures
        ({
            let before = store.node(update.node_id)->0;
            let after = store.after_heartbeat(update).node(update.node_id)->0;
            &&& store.after_heartbeat(update).node(update.node_id) is Some
            &&& after.node_id == before.node_id && before.node_id == update.node_id
            &&& after.cluster_id == before.cluster_id && before.cluster_id == update.cluster_id
            &&& after.vpn_ip == before.vpn_ip
            &&& after.identity_public_key == before.identity_public_key
            &&& after.wireguard_public_key == before.wireguard_public_key
            &&& after.role == before.role
            &&& after.tags == before.tags
            &&& after.token_policy == before.token_policy
            &&& after.registered_at == before.registered_at
        }),
{
}

/// A signed heartbeat is stored at most once, and none that was signed earlier is stored after it.
pub proof fn law_signed_heartbeat_is_not_stored_again(
    store: StoreView,
    update: HeartbeatStoreUpdateView,
    later: HeartbeatStoreUpdateView,
)
    requires
        store.heartbeat_refusal(update) is None,
        update.accepted_signature_at is Some,
        later.node_id == update.node_id,
        later.accepted_signature_at is Some,
        later.accepted_signature_at->0.at() <= update.accepted_signature_at->0.at(),
    ensures
        store.after_heartbeat(update).heartbeat_refusal(later) is Some,
{
    assert(at(store.after_heartbeat(update).signatures, one(update.node_id))
        == update.accepted_signature_at);
}

/// The signature of the last accepted heartbeat of a node only moves on.
pub proof fn law_signature_only_moves_on(
    store: StoreView,
    update: HeartbeatStoreUpdateView,
    node_id: Seq<char>,
)
    requires
        store.heartbeat_refusal(update) is None,
        at(store.signatures, one(node_id)) is Some,
    ensures
        at(store.after_heartbeat(update).signatures, one(node_id)) is Some,
        at(store.after_heartbeat(update).signatures, one(node_id))->0.at() >= at(
            store.signatures,
            one(node_id),
        )->0.at(),
{
    if node_id != update.node_id {
        assert(one(node_id)[0] != one(update.node_id)[0]);
    }
}

/// A change that rests on a policy is refused once the policy is another one.
pub proof fn law_stale_policy_is_refused(
    store: StoreView,
    cluster_id: Seq<char>,
    policy: ClusterPolicyView,
    update: HeartbeatStoreUpdateView,
)
    requires
        update.cluster_id == cluster_id,
        update.expected_cluster_policy != Some(policy),
    ensures
        store.with_policy(cluster_id, policy).heartbeat_refusal(update) == Some(
            ControlPlaneErrorView::ClusterPolicyChanged,
        ),
{
    assert(store.with_policy(cluster_id, policy).policy(cluster_id) == Some(policy));
}

/// A heartbeat is stored exactly where the policy and, if it was looked at, the catalog are as they
/// were when it was checked, the node is still registered as it then was, it is newer than what was
/// stored last, by its signature or else by when it came, and, where it brings new routes, the state
/// of the overlay can still be counted.
pub proof fn law_heartbeats_are_stored_in_turn(store: StoreView, update: HeartbeatStoreUpdateView)
    ensures
        store.heartbeat_refusal(update) is None <==> {
            let key = seq![update.node_id];
            let node = store.nodes[key];
            &&& store.policy(update.cluster_id) == update.expected_cluster_policy
            &&& update.expected_route_catalog_epoch is Some ==> catalog_epoch(
                backbone(listed(store.nodes), update.cluster_id),
            ) == update.expected_route_catalog_epoch->0
            &&& store.nodes.dom().contains(key)
            &&& node.node_id == update.node_id && node.cluster_id == update.cluster_id
            &&& node.identity_public_key == update.expected_identity_public_key
            &&& node.registered_at == update.expected_registered_at
            &&& update.accepted_signature_at is Some && store.signatures.dom().contains(key)
                ==> store.signatures[key].at() < update.accepted_signature_at->0.at()
            &&& update.accepted_signature_at is None && store.health.dom().contains(key)
                ==> store.health[key].last_seen_at.at() < update.health.last_seen_at.at()
            &&& update.routes is Some && update.routes->0 != node.routes ==> store.epoch(
                update.cluster_id,
            ) < u64::MAX
        },
{
}

/// What a heartbeat brings is what is stored of the node afterwards: its candidates, its relay, its
/// health, and, where they are given, its name, its routes, its classification and the instant of its
/// signature. Of the paths, those that the node reported before are replaced by those that it
/// reports now.
pub proof fn law_heartbeat_stores_what_is_reported(
    store: StoreView,
    update: HeartbeatStoreUpdateView,
    path: PathRecordView,
)
    requires
        store.heartbeat_refusal(update) is None,
    ensures
        ({
            let key = seq![update.node_id];
            let before = store.nodes[key];
            let after = store.after_heartbeat(update);
            let node = after.nodes[key];
            &&& after.nodes.dom().contains(key)
            &&& node.endpoint_candidates == update.candidates
            &&& node.relay_capability == update.relay_capability
            &&& node.hostname == if update.hostname is Some {
                update.hostname
            } else {
                before.hostname
            }
            &&& node.routes == if update.routes is Some {
                update.routes->0
            } else {
                before.routes
            }
            &&& after.health.dom().contains(key) && after.health[key] == update.health
            &&& update.nat_classification is Some ==> after.nats.dom().contains(key)
                && after.nats[key] == update.nat_classification->0
            &&& update.nat_classification is None ==> after.nats == store.nats
            &&& update.accepted_signature_at is Some ==> after.signatures.dom().contains(key)
                && after.signatures[key] == update.accepted_signature_at->0
            &&& update.accepted_signature_at is None ==> after.signatures == store.signatures
            &&& after.paths.contains(path) <==> update.paths.contains(path) || (
            store.paths.contains(path) && path.key.local != update.node_id)
        }),
{
    let keep = |path: PathRecordView| path.key.local != update.node_id;
    let others = paths_of_others(store.paths, update.node_id);
    crate::lists::lemma_kept_members(store.paths, keep);
    assert(others.contains(path) <==> store.paths.contains(path) && keep(path));
    let all = others + update.paths;
    if others.contains(path) {
        let k = choose|k: int| 0 <= k < others.len() && others[k] == path;
        assert(all[k] == path);
    }
    if update.paths.contains(path) {
        let k = choose|k: int| 0 <= k < update.paths.len() && update.paths[k] == path;
        assert(all[others.len() + k] == path);
    }
}

/// A known node joins again exactly where policy, catalog and the node itself are as they were when
/// it was checked; it then has the candidates, the relay and the routes that it asks for, and the
/// state of the overlay moves on by one exactly where its routes change.
pub proof fn law_rejoining_replaces_what_is_asked(
    store: StoreView,
    update: RejoinNodeStoreUpdateView,
)
    ensures
        ({
            let id = update.expected_node.node_id;
            let key = seq![id];
            let moves = update.expected_node.routes != update.routes;
            let after = store.after_rejoin(update);
            &&& store.rejoin_refusal(update) is None <==> {
                &&& store.policy(update.cluster_id) == update.expected_cluster_policy
                &&& update.expected_route_catalog_epoch is Some ==> catalog_epoch(
                    backbone(listed(store.nodes), update.cluster_id),
                ) == update.expected_route_catalog_epoch->0
                &&& store.nodes.dom().contains(key) && store.nodes[key] == update.expected_node
                &&& update.expected_node.cluster_id == update.cluster_id
                &&& moves ==> store.epoch(update.cluster_id) < u64::MAX
            }
            &&& after.nodes == store.nodes.insert(key, after.nodes[key])
            &&& after.nodes[key] == NodeRecordView {
                endpoint_candidates: update.candidates,
                relay_capability: update.relay_capability,
                routes: update.routes,
                ..update.expected_node
            }
            &&& !moves ==> after.epochs == store.epochs
            &&& moves && store.epoch(update.cluster_id) < u64::MAX ==> after.epoch(
                update.cluster_id,
            ) == store.epoch(update.cluster_id) + 1
        }),
{
}

/// To remove a node forgets, of the paths and the choices of gateways, exactly those that are about
/// it.
pub proof fn law_removal_forgets_what_is_about_the_node(
    paths: Seq<PathRecordView>,
    selections: Map<Seq<Seq<char>>, ClientGatewaySelectionView>,
    node_id: Seq<char>,
    path: PathRecordView,
    client_id: Seq<char>,
)
    ensures
        paths_without(paths, node_id).contains(path) <==> paths.contains(path) && path.key.local
            != node_id && path.key.remote != node_id,
        selections_without(selections, node_id).dom().contains(seq![client_id])
            <==> selections.dom().contains(seq![client_id]) && client_id != node_id
            && selections[seq![client_id]].gateway_node_id != node_id,
        selections_without(selections, node_id).dom().contains(seq![client_id])
            ==> selections_without(selections, node_id)[seq![client_id]]
            == selections[seq![client_id]],
{
    let keep = |path: PathRecordView| !path_touches(path, node_id);
    crate::lists::lemma_kept_members(paths, keep);
    assert(paths_without(paths, node_id).contains(path) <==> paths.contains(path) && keep(path));
    if client_id != node_id && seq![client_id] == one(node_id) {
        assert(seq![client_id][0] == one(node_id)[0]);
    }
}

/// A path is kept once: putting it in place leaves it there, replaces what was kept for the same
/// ends, and touches no other.
pub proof fn law_path_is_put_in_its_place(
    paths: Seq<PathRecordView>,
    path: PathRecordView,
    other: PathRecordView,
)
    requires
        forall|i: int, j: int|
            0 <= i < j < paths.len() ==> (#[trigger] paths[i]).key != (#[trigger] paths[j]).key,
        other.key != path.key,
    ensures
        paths_with(paths, path).contains(path),
        paths_with(paths, path).contains(other) <==> paths.contains(other),
        forall|i: int, j: int|
            0 <= i < j < paths_with(paths, path).len() ==> (
            #[trigger] paths_with(paths, path)[i]).key != (
            #[trigger] paths_with(paths, path)[j]).key,
{
    let f = |i: int|
        if paths[i].key == path.key {
            Some(i)
        } else {
            None
        };
    let all = paths_with(paths, path);
    crate::lists::lemma_first_in_none(paths.len(), f);
    if path_position(paths, path, paths.len()) is Some {
        let at = crate::lists::lemma_first_in_found(paths.len(), f);
        assert(all == paths.update(at, path));
        assert(all[at] == path);
        if paths.contains(other) {
            let k = choose|k: int| 0 <= k < paths.len() && paths[k] == other;
            assert(all[k] == other);
        }
        if all.contains(other) {
            let k = choose|k: int| 0 <= k < all.len() && all[k] == other;
            assert(paths[k] == other);
        }
        assert forall|i: int, j: int| 0 <= i < j < all.len() implies (#[trigger] all[i]).key != (
        #[trigger] all[j]).key by {
            assert(paths[i].key != paths[j].key);
        }
    } else {
        assert(all == paths.push(path));
        assert(all[paths.len() as int] == path);
        assert forall|i: int| 0 <= i < paths.len() implies (#[trigger] paths[i]).key
            != path.key by {
            assert(f(i) is None);
        }
        if paths.contains(other) {
            let k = choose|k: int| 0 <= k < paths.len() && paths[k] == other;
            assert(all[k] == other);
        }
        if all.contains(other) {
            let k = choose|k: int| 0 <= k < all.len() && all[k] == other;
            assert(paths[k] == other);
        }
        assert forall|i: int, j: int| 0 <= i < j < all.len() implies (#[trigger] all[i]).key != (
        #[trigger] all[j]).key by {
            if j < paths.len() {
                assert(paths[i].key != paths[j].key);
            } else {
                assert(paths[i].key != path.key);
            }
        }
    }
}

/// A candidate can be placed exactly where it is of the cluster, eligible, leased beyond the instant,
/// and behind the one after which the listing goes on.
pub proof fn law_placeable_candidates_are_leased(
    candidate: KeycloakCandidateLeaseView,
    cluster_id: Seq<char>,
    lease_cutoff: Timestamp,
    after_node_id: Option<Seq<char>>,
)
    ensures
        placeable(candidate, cluster_id, lease_cutoff, after_node_id) <==> candidate.cluster_id
            == cluster_id && candidate.eligible && lease_cutoff.at()
            < candidate.lease_expires_at.at() && (after_node_id is None || text_lt(
            after_node_id->0,
            candidate.node_id,
        )),
{
}

} // verus!
