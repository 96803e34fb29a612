//! The overlay as the control plane has it: the nodes as they were last seen, their neighbors, and
//! the nodes that run the identity service.

use vstd::prelude::*;

use crate::client_routes::id_set;
use crate::control_plane::{ControlPlane, ControlPlaneView};
use crate::directory::directory_endpoints;
use crate::error::{refusal, ControlPlaneError, ControlPlaneErrorView};
use crate::ids::NodeId;
use crate::keycloak::{
    absorb_candidate_page, accept_candidacy, candidacy_refusal, placed, placement_name,
    placement_request_fault, qualified, select_keycloak_candidates, validate_placement_request,
    KeycloakCandidacy, KeycloakPlacement, KEYCLOAK_CANDIDATE_PAGE_SIZE,
};
use crate::lists::{
    kept, lemma_kept_alike, lemma_kept_from, lemma_kept_in_order, lemma_kept_split,
    lemma_kept_twice,
};
use crate::map::{duplicate_map, held, lemma_listing, listed, sorted_keys, OrderedMap};
use crate::net::IpAddr;
use crate::nodes::{lemma_node_named, named, served_node};
use crate::overlay::{
    clients_among, health_among, neighbor_map_for, neighbor_map_refusal, neighbor_map_says,
    overlay_node_snapshot, overlay_path_ends, overlay_path_for, overlay_path_refusal,
    snapshot_is_current, topology_key, NeighborMap, OverlayNodeSnapshot, OverlayPath,
    TopologyNeighbors, TopologyPaths, OVERLAY_NODE_SNAPSHOT_CACHE_TTL_SECONDS,
};
use crate::policy::policy_rejection;
use crate::route_index::destination_node;
use crate::routes::{backbone, captured};
use crate::store::{at, at_most, has_pair, placeable, two, StoreView};
use crate::text::{
    lemma_parts_lt_pair, lemma_text_lt_irreflexive, lemma_text_lt_transitive, text_lt,
};
use crate::time::{Span, Timestamp, MAX_TIMESTAMP_SECONDS};
use crate::topology::{
    edge_between, observed_path_pairs, overlay_topology_snapshot, rooted, topology_refusal,
    topology_says, ControlPlaneTopologyResponse, Topology,
};
use crate::types::{
    duplicate_all, opt_view, views, ClusterPolicy, ClusterPolicyView, KeycloakCandidateLease,
    KeycloakCandidateLeaseView, NodeHealth, NodeRecord, PathRecordView,
};

verus! {

/// The overlay as it was seen some time ago still counts.
pub open spec fn still_counts(
    snapshot: OverlayNodeSnapshot,
    age: Span,
    policy: ClusterPolicyView,
    epoch: u64,
) -> bool {
    &&& age.len() <= OVERLAY_NODE_SNAPSHOT_CACHE_TTL_SECONDS * 1_000_000_000
    &&& snapshot.health_ttl_seconds == policy.relay_health_ttl_seconds
    &&& snapshot.topology_cache_key.block_size == policy.overlay_block_size
    &&& snapshot.topology_cache_key.max_degree == policy.overlay_max_degree
    &&& snapshot.routing_epoch == epoch
}

/// The word of a candidate as it goes on record.
pub open spec fn leased(
    lease: KeycloakCandidateLeaseView,
    candidacy: KeycloakCandidacy,
    cluster_id: Seq<char>,
    now: Timestamp,
) -> bool {
    &&& lease.lease_expires_at.at() == now.at() + candidacy.lease_ttl.len()
    &&& lease == (KeycloakCandidateLeaseView {
        cluster_id,
        node_id: candidacy.node_id@,
        vpn_ip: candidacy.vpn_ip,
        version: candidacy.version@,
        ready: candidacy.ready,
        eligible: candidacy.eligible,
        generation: candidacy.generation,
        lease_expires_at: lease.lease_expires_at,
        updated_at: now,
    })
}

impl ControlPlaneView {
    /// The overlay is as the store has it.
    pub open spec fn seen(self, snapshot: OverlayNodeSnapshot, now: Timestamp) -> bool {
        let nodes = backbone(listed(self.store.nodes), self.cluster());
        &&& snapshot.wf()
        &&& snapshot.generated_at == now
        &&& snapshot.routing_epoch == self.store.epoch(self.cluster())
        &&& snapshot.health_ttl_seconds == self.policy_in_force().relay_health_ttl_seconds
        &&& views(snapshot.nodes@) == nodes
        &&& views(snapshot.clients@) == clients_among(listed(self.store.nodes), self.cluster())
        &&& held(snapshot.health_by_node@) == health_among(
            self.store.health,
            id_set(nodes, nodes.len()),
        )
        &&& snapshot.topology_cache_key@ == topology_key(
            nodes,
            self.cluster(),
            self.policy_in_force(),
        )
    }

    /// The state after a look at the overlay, `age` after the last one: what was seen then is kept
    /// where it still counts, and the overlay is looked at anew where it does not.
    pub open spec fn looked_at(self, after: ControlPlaneView, age: Span, now: Timestamp) -> bool {
        let ready = self.policy_read();
        &&& after == (ControlPlaneView { overlay: after.overlay, ..ready })
        &&& after.overlay is Some
        &&& if ready.overlay is Some && still_counts(
            ready.overlay->0,
            age,
            ready.policy_in_force(),
            ready.store.epoch(ready.cluster()),
        ) {
            after.overlay == ready.overlay
        } else {
            ready.seen(after.overlay->0, now)
        }
    }

    /// The nodes of the cluster that want to run the identity service, and whose leases run.
    pub open spec fn candidates(self, now: Timestamp) -> Seq<KeycloakCandidateLeaseView> {
        kept(
            listed(self.store.keycloak),
            |candidate: KeycloakCandidateLeaseView|
                placeable(candidate, self.cluster(), now, None),
            listed(self.store.keycloak).len(),
        )
    }

    /// Those of the candidates that qualify, in the order of their identifiers, and no more than a
    /// limit.
    pub open spec fn qualified_candidates(
        self,
        version: Seq<char>,
        limit: nat,
        now: Timestamp,
    ) -> Seq<KeycloakCandidateLeaseView> {
        let nodes = views(self.overlay->0.nodes@);
        let health = held(self.overlay->0.health_by_node@);
        let policy = self.policy_in_force();
        at_most(
            kept(
                self.candidates(now),
                |candidate: KeycloakCandidateLeaseView|
                    qualified(candidate, version, nodes, health, policy, now),
                self.candidates(now).len(),
            ),
            limit,
        )
    }

    /// What a placement of the identity service says.
    pub open spec fn placement_says(
        self,
        placement: KeycloakPlacement,
        version: Seq<char>,
        desired: nat,
        limit: nat,
        now: Timestamp,
    ) -> bool {
        &&& views(placement.replicas@) == placed(
            self.cluster(),
            self.qualified_candidates(version, limit, now),
            desired,
        )
        &&& placement.placement_id@ == placement_name(
            self.cluster(),
            views(placement.replicas@),
        )
    }

    proof fn lemma_candidates_ascend(self, now: Timestamp)
        requires
            self.store.keyed(),
            self.store.keycloak.dom().finite(),
        ensures
            forall|i: int, j: int|
                0 <= i < j < self.candidates(now).len() ==> text_lt(
                    (#[trigger] self.candidates(now)[i]).node_id,
                    (#[trigger] self.candidates(now)[j]).node_id,
                ),
    {
        let map = self.store.keycloak;
        let all = listed(map);
        let keys = sorted_keys(map.dom());
        let keep = |candidate: KeycloakCandidateLeaseView|
            placeable(candidate, self.cluster(), now, None);
        let lt = |a: KeycloakCandidateLeaseView, b: KeycloakCandidateLeaseView|
            text_lt(a.node_id, b.node_id);
        lemma_listing(map);
        assert forall|i: int, j: int|
            0 <= i < j < all.len() && keep(all[i]) && keep(all[j]) implies #[trigger] lt(
            all[i],
            all[j],
        ) by {
            assert(keys.contains(keys[i]) && keys.contains(keys[j]));
            assert(map.dom().contains(keys[i]) && map.dom().contains(keys[j]));
            let cluster = self.cluster();
            assert(keys[i] == two(cluster, all[i].node_id));
            assert(keys[j] == two(cluster, all[j].node_id));
            assert(two(cluster, all[i].node_id) =~= seq![cluster, all[i].node_id]);
            assert(two(cluster, all[j].node_id) =~= seq![cluster, all[j].node_id]);
            lemma_parts_lt_pair(cluster, all[i].node_id, cluster, all[j].node_id);
            lemma_text_lt_irreflexive(cluster);
        }
        lemma_kept_in_order(all, keep, lt, all.len());
        assert forall|i: int, j: int| 0 <= i < j < self.candidates(now).len() implies text_lt(
            (#[trigger] self.candidates(now)[i]).node_id,
            (#[trigger] self.candidates(now)[j]).node_id,
        ) by {
            assert(lt(kept(all, keep, all.len())[i], kept(all, keep, all.len())[j]));
        }
    }

    /// The candidates after some of them are the rest of them.
    proof fn lemma_rest_of_candidates(self, now: Timestamp, k: nat)
        requires
            self.store.keyed(),
            self.store.keycloak.dom().finite(),
            0 < k <= self.candidates(now).len(),
        ensures
            ({
                let after = self.candidates(now)[k - 1].node_id;
                kept(
                    listed(self.store.keycloak),
                    |candidate: KeycloakCandidateLeaseView|
                        placeable(candidate, self.cluster(), now, Some(after)),
                    listed(self.store.keycloak).len(),
                ) == self.candidates(now).subrange(
                    k as int,
                    self.candidates(now).len() as int,
                )
            }),
    {
        let all = self.candidates(now);
        let after = all[k - 1].node_id;
        let items = listed(self.store.keycloak);
        let first = |candidate: KeycloakCandidateLeaseView|
            placeable(candidate, self.cluster(), now, None);
        let second = |candidate: KeycloakCandidateLeaseView| text_lt(after, candidate.node_id);
        let both = |candidate: KeycloakCandidateLeaseView|
            placeable(candidate, self.cluster(), now, Some(after));
        self.lemma_candidates_ascend(now);
        assert forall|i: int| 0 <= i < all.len() implies #[trigger] second(all[i]) == (i >= k) by {
            if i < k - 1 {
                assert(text_lt(all[i].node_id, all[k - 1].node_id));
                if text_lt(after, all[i].node_id) {
                    lemma_text_lt_transitive(after, all[i].node_id, after);
                    lemma_text_lt_irreflexive(after);
                }
            } else if i == k - 1 {
                lemma_text_lt_irreflexive(after);
            } else {
                assert(text_lt(all[k - 1].node_id, all[i].node_id));
            }
        }
        lemma_kept_from(all, second, k, all.len());
        assert(all == kept(items, first, items.len()));
        lemma_kept_twice(items, first, second, both, items.len());
    }

    /// Why a node may not be a candidate for the identity service: it is not registered as it says
    /// or not well, or its lease would run too long, or a later word of it is on record.
    pub open spec fn candidacy_refusal(self, candidacy: KeycloakCandidacy, now: Timestamp) -> Option<
        ControlPlaneErrorView,
    > {
        let refused = candidacy_refusal(
            candidacy,
            self.cluster(),
            views(self.overlay->0.nodes@),
            held(self.overlay->0.health_by_node@),
            self.policy_in_force(),
            now,
        );
        let current = at(self.store.keycloak, two(self.cluster(), candidacy.node_id@));
        if refused is Some {
            refused
        } else if current is Some && current->0.lease_expires_at.at() > now.at()
            && current->0.generation >= candidacy.generation {
            Some(
                ControlPlaneErrorView::KeycloakCandidateGenerationConflict {
                    node_id: candidacy.node_id@,
                    generation: candidacy.generation,
                },
            )
        } else {
            None
        }
    }

    /// The state with the word of a candidate on record.
    pub open spec fn with_candidate(self, lease: KeycloakCandidateLeaseView) -> ControlPlaneView {
        ControlPlaneView {
            store: StoreView {
                keycloak: self.store.keycloak.insert(
                    two(lease.cluster_id, lease.node_id),
                    lease,
                ),
                ..self.store
            },
            ..self
        }
    }

    /// The paths between the ends of the edges of a topology.
    pub open spec fn observed_paths(self, topology: Topology) -> Seq<PathRecordView> {
        kept(
            self.store.paths,
            |path: PathRecordView|
                edge_between(topology.edges@, path.key.local, path.key.remote),
            self.store.paths.len(),
        )
    }
}

impl ControlPlane {
    /// Looks at the overlay, `age` after it was last looked at, and gives the policy of the
    /// cluster.
    pub fn current_overlay_snapshot(&mut self, age: Span, now: Timestamp) -> (r: Result<
        ClusterPolicy,
        ControlPlaneError,
    >)
        requires
            old(self).wf(),
        ensures
            final(self).wf(),
            refusal(r) == old(self)@.policy_reading_refusal(),
            match r {
                Ok(policy) => {
                    &&& policy@ == old(self)@.policy_in_force()
                    &&& old(self)@.looked_at(final(self)@, age, now)
                },
                Err(_) => final(self)@ == old(self)@,
            },
    {
        let policy = self.current_cluster_policy()?;
        proof {
            old(self)@.lemma_policy_read();
        }
        let epoch = self.store.get_overlay_routing_epoch(&self.config.cluster_id);
        let current = match &self.overlay {
            Some(snapshot) => snapshot_is_current(snapshot, age, &policy, epoch),
            None => false,
        };
        if !current {
            let nodes = self.store.list_nodes();
            let health = self.store.list_health();
            let snapshot = overlay_node_snapshot(
                &self.config.cluster_id,
                &nodes,
                health,
                &policy,
                epoch,
                now,
            );
            assert(snapshot.nodes@.len() == views(snapshot.nodes@).len());
            self.overlay = Some(snapshot);
        }
        Ok(policy)
    }

    /// The nodes of the overlay as they were last seen, and their health.
    pub fn registered_nodes_with_health(&mut self, age: Span, now: Timestamp) -> (r: Result<
        (Vec<NodeRecord>, OrderedMap<NodeId, NodeHealth>),
        ControlPlaneError,
    >)
        requires
            old(self).wf(),
        ensures
            final(self).wf(),
            refusal(r) == old(self)@.policy_reading_refusal(),
            match r {
                Ok((nodes, health)) => {
                    let snapshot = final(self)@.overlay->0;
                    &&& old(self)@.looked_at(final(self)@, age, now)
                    &&& views(nodes@) == views(snapshot.nodes@)
                    &&& health.wf()
                    &&& held(health@) == held(snapshot.health_by_node@)
                },
                Err(_) => final(self)@ == old(self)@,
            },
    {
        self.current_overlay_snapshot(age, now)?;
        match &self.overlay {
            Some(snapshot) => Ok(
                (duplicate_all(&snapshot.nodes), duplicate_map(&snapshot.health_by_node)),
            ),
            None => Ok((Vec::new(), OrderedMap::new())),
        }
    }

    fn collect_candidates(
        &self,
        snapshot: &OverlayNodeSnapshot,
        policy: &ClusterPolicy,
        version: &str,
        max_candidates: usize,
        now: Timestamp,
    ) -> (r: Vec<KeycloakCandidateLease>)
        requires
            self.wf(),
            self.overlay == Some(*snapshot),
            policy@ == self@.policy_in_force(),
        ensures
            views(r@) == self@.qualified_candidates(version@, max_candidates as nat, now),
    {
        let ghost all = self@.candidates(now);
        let ghost items = listed(self@.store.keycloak);
        let ghost keep = |candidate: KeycloakCandidateLeaseView|
            qualified(
                candidate,
                version@,
                views(snapshot.nodes@),
                held(snapshot.health_by_node@),
                policy@,
                now,
            );
        let ghost limit = max_candidates as nat;
        let mut candidates: Vec<KeycloakCandidateLease> = Vec::new();
        let mut after: Option<NodeId> = None;
        let ghost mut k: nat = 0;
        proof {
            self.store.lemma_orderly();
            assert(views(candidates@) =~= Seq::empty());
            assert(kept(all, keep, 0) =~= Seq::empty());
            assert(self@.qualified_candidates(version@, limit, now) == at_most(
                kept(all, keep, all.len()),
                limit,
            ));
        }
        while candidates.len() < max_candidates
            invariant_except_break
                opt_view(after) == (if k == 0 {
                    None
                } else {
                    Some(all[k - 1].node_id)
                }),
            invariant
                self.wf(),
                self@.store.keyed(),
                self@.store.keycloak.dom().finite(),
                self.overlay == Some(*snapshot),
                policy@ == self@.policy_in_force(),
                all == self@.candidates(now),
                items == listed(self@.store.keycloak),
                keep == (|candidate: KeycloakCandidateLeaseView|
                    qualified(
                        candidate,
                        version@,
                        views(snapshot.nodes@),
                        held(snapshot.health_by_node@),
                        policy@,
                        now,
                    )),
                limit == max_candidates,
                k <= all.len(),
                views(candidates@) == at_most(kept(all, keep, k), limit),
                self@.qualified_candidates(version@, limit, now) == at_most(
                    kept(all, keep, all.len()),
                    limit,
                ),
            ensures
                k == all.len() || candidates@.len() >= max_candidates,
            decreases all.len() - k,
        {
            let page = self.store.list_keycloak_candidates(
                &self.config.cluster_id,
                now,
                after.as_ref(),
                KEYCLOAK_CANDIDATE_PAGE_SIZE,
            );
            let ghost rest = all.subrange(k as int, all.len() as int);
            let ghost m = page@.len();
            proof {
                assert(page@.len() == views(page@).len());
                if k > 0 {
                    self@.lemma_rest_of_candidates(now, k);
                } else {
                    assert(rest =~= all);
                }
                assert(views(page@) == at_most(rest, KEYCLOAK_CANDIDATE_PAGE_SIZE as nat));
                assert(views(page@) =~= all.subrange(k as int, (k + m) as int));
                lemma_kept_split(all, keep, k, (k + m) as nat);
            }
            assert(candidates@.len() == views(candidates@).len());
            let next = absorb_candidate_page(
                &mut candidates,
                &page,
                version,
                &snapshot.nodes,
                &snapshot.health_by_node,
                policy,
                now,
                max_candidates,
            );
            proof {
                assert(candidates@.len() == views(candidates@).len());
                assert(views(candidates@) == at_most(kept(all, keep, (k + m) as nat), limit));
                if m == KEYCLOAK_CANDIDATE_PAGE_SIZE {
                    assert(views(page@).last() == all[k + m - 1]);
                } else {
                    assert(k + m == all.len());
                }
                k = k + m;
            }
            match next {
                Some(id) => {
                    after = Some(id);
                },
                None => {
                    break;
                },
            }
        }
        proof {
            assert(candidates@.len() == views(candidates@).len());
            lemma_kept_split(all, keep, k, all.len());
            assert(views(candidates@) =~= at_most(kept(all, keep, all.len()), limit));
        }
        candidates
    }

    /// Where the identity service is to run, of the nodes that want to run it. The overlay is
    /// looked at `age` after it was last looked at.
    pub fn keycloak_placement(
        &mut self,
        version: &str,
        desired_replicas: usize,
        max_candidates: usize,
        age: Span,
        now: Timestamp,
    ) -> (r: Result<KeycloakPlacement, ControlPlaneError>)
        requires
            old(self).wf(),
        ensures
            final(self).wf(),
            refusal(r) == old(self)@.policy_reading_refusal(),
            match r {
                Ok(placement) => {
                    &&& old(self)@.looked_at(final(self)@, age, now)
                    &&& final(self)@.placement_says(
                        placement,
                        version@,
                        desired_replicas as nat,
                        max_candidates as nat,
                        now,
                    )
                },
                Err(_) => final(self)@ == old(self)@,
            },
    {
        let policy = self.current_overlay_snapshot(age, now)?;
        proof {
            old(self)@.lemma_policy_read();
        }
        Ok(self.place(&policy, version, desired_replicas, max_candidates, now))
    }

    fn place(
        &self,
        policy: &ClusterPolicy,
        version: &str,
        desired_replicas: usize,
        max_candidates: usize,
        now: Timestamp,
    ) -> (r: KeycloakPlacement)
        requires
            self.wf(),
            self.overlay is Some,
            policy@ == self@.policy_in_force(),
        ensures
            self@.placement_says(
                r,
                version@,
                desired_replicas as nat,
                max_candidates as nat,
                now,
            ),
    {
        let candidates = match &self.overlay {
            Some(snapshot) => self.collect_candidates(
                snapshot,
                policy,
                version,
                max_candidates,
                now,
            ),
            None => Vec::new(),
        };
        select_keycloak_candidates(&self.config.cluster_id, &candidates, desired_replicas)
    }

    /// Takes note that a node wants to run the identity service, or no longer wants to, and says
    /// where it is to run then. The overlay is looked at `age` after it was last looked at.
    pub fn reconcile_keycloak_placement(
        &mut self,
        candidacy: &KeycloakCandidacy,
        desired_replicas: usize,
        max_candidates: usize,
        age: Span,
        now: Timestamp,
    ) -> (r: Result<KeycloakPlacement, ControlPlaneError>)
        requires
            old(self).wf(),
            now.nanos < 1_000_000_000,
            now.seconds <= MAX_TIMESTAMP_SECONDS,
            candidacy.lease_ttl.nanos < 1_000_000_000,
        ensures
            final(self).wf(),
            ({
                let fault = placement_request_fault(
                    candidacy.version@,
                    candidacy.generation,
                    candidacy.lease_ttl,
                    desired_replicas,
                    max_candidates,
                );
                let reading = old(self)@.policy_reading_refusal();
                let looked = ControlPlaneView {
                    overlay: final(self)@.overlay,
                    ..old(self)@.policy_read()
                };
                let refused = looked.candidacy_refusal(*candidacy, now);
                if fault is Some {
                    refusal(r) == policy_rejection(fault) && final(self)@ == old(self)@
                } else if reading is Some {
                    refusal(r) == reading && final(self)@ == old(self)@
                } else {
                    &&& old(self)@.looked_at(looked, age, now)
                    &&& if refused is Some {
                        refusal(r) == refused && final(self)@ == looked
                    } else {
                        &&& exists|lease: KeycloakCandidateLeaseView|
                            #![trigger looked.with_candidate(lease)]
                            leased(lease, *candidacy, looked.cluster(), now) && final(self)@
                                == looked.with_candidate(lease)
                        &&& r matches Ok(placement) ==> final(self)@.placement_says(
                            placement,
                            candidacy.version@,
                            desired_replicas as nat,
                            max_candidates as nat,
                            now,
                        )
                        &&& r is Ok
                    }
                }
            }),
    {
        validate_placement_request(
            candidacy.version.as_str(),
            candidacy.generation,
            candidacy.lease_ttl,
            desired_replicas,
            max_candidates,
        )?;
        let policy = self.current_overlay_snapshot(age, now)?;
        proof {
            old(self)@.lemma_policy_read();
        }
        let ghost looked = self@;
        let lease = match &self.overlay {
            Some(snapshot) => accept_candidacy(
                candidacy,
                &self.config.cluster_id,
                &snapshot.nodes,
                &snapshot.health_by_node,
                &policy,
                now,
            )?,
            None => return Err(
                ControlPlaneError::NodeNotFound { node_id: candidacy.node_id.clone() },
            ),
        };
        let ghost noted = lease@;
        if !self.store.upsert_keycloak_candidate(lease) {
            return Err(
                ControlPlaneError::KeycloakCandidateGenerationConflict {
                    node_id: candidacy.node_id.clone(),
                    generation: candidacy.generation,
                },
            );
        }
        assert(self@ =~= looked.with_candidate(noted));
        assert(leased(noted, *candidacy, looked.cluster(), now));
        Ok(
            self.place(
                &policy,
                candidacy.version.as_str(),
                desired_replicas,
                max_candidates,
                now,
            ),
        )
    }

    /// What a node is told of its neighbors. `topology` is what came of building the topology of
    /// the overlay as it was last seen. The map goes through
    /// [`checked_answer`](crate::overlay::checked_answer) before it is handed out.
    pub fn neighbor_map_for(
        &mut self,
        node_id: &NodeId,
        topology: &Result<TopologyNeighbors, String>,
        now: Timestamp,
    ) -> (r: Result<NeighborMap, ControlPlaneError>)
        requires
            old(self).wf(),
            old(self).overlay is Some,
        ensures
            final(self).wf(),
            final(self)@ == old(self)@.policy_read(),
            refusal(r) == (if old(self)@.policy_reading_refusal() is Some {
                old(self)@.policy_reading_refusal()
            } else {
                neighbor_map_refusal(
                    views(old(self).overlay->0.nodes@),
                    captured(old(self).overlay->0.aggregate_routes@),
                    old(self)@.policy_in_force(),
                    node_id@,
                    *topology,
                )
            }),
            r matches Ok(map) ==> neighbor_map_says(
                map,
                old(self)@.cluster(),
                old(self).config.vpn_pool,
                old(self).overlay->0,
                old(self)@.policy_in_force(),
                node_id@,
                *topology,
                old(self)@.store.selections,
                directory_endpoints(old(self)@.directory_instances(now, now), old(self).limits),
                now,
            ),
    {
        let policy = self.current_cluster_policy()?;
        proof {
            old(self)@.lemma_policy_read();
        }
        let directory = self.service_directory(now)?;
        let selections = self.store.list_client_gateway_selections();
        match &self.overlay {
            Some(snapshot) => neighbor_map_for(
                &self.config.cluster_id,
                self.config.vpn_pool,
                snapshot,
                &policy,
                node_id,
                topology,
                &selections,
                directory.bootstrap_endpoints,
                now,
            ),
            None => Err(ControlPlaneError::NodeNotFound { node_id: node_id.clone() }),
        }
    }

    /// The path from a source to a destination. `topology` is what came of building the topology of
    /// the overlay as it was last seen, and of asking it for the ways from the source to the node
    /// that the destination is reached through. The path goes through
    /// [`checked_answer`](crate::overlay::checked_answer) before it is handed out.
    pub fn overlay_path_for(
        &mut self,
        source: &NodeId,
        destination: IpAddr,
        topology: Result<Option<TopologyPaths>, String>,
        now: Timestamp,
    ) -> (r: Result<OverlayPath, ControlPlaneError>)
        requires
            old(self).wf(),
            old(self).overlay is Some,
        ensures
            final(self).wf(),
            final(self)@ == old(self)@.policy_read(),
            refusal(r) == (if old(self)@.policy_reading_refusal() is Some {
                old(self)@.policy_reading_refusal()
            } else {
                overlay_path_refusal(
                    views(old(self).overlay->0.nodes@),
                    views(old(self).overlay->0.active_nodes@),
                    old(self)@.policy_in_force(),
                    source@,
                    destination,
                    topology,
                )
            }),
            r matches Ok(path) ==> {
                let snapshot = old(self).overlay->0;
                let policy = old(self)@.policy_in_force();
                let from = named(views(snapshot.active_nodes@), source@)->0;
                let target = destination_node(
                    from,
                    views(snapshot.nodes@),
                    views(snapshot.active_nodes@),
                    destination,
                    policy,
                )->0;
                let paths = topology->Ok_0->0;
                &&& path.topology_epoch == paths.topology_epoch
                &&& path.routing_epoch == snapshot.routing_epoch
                &&& path.source@ == source@
                &&& path.destination == destination
                &&& path.target@ == served_node(target, now, policy)
                &&& path.ordered_nodes == paths.primary
                &&& path.secondary_ordered_nodes == paths.secondary
                &&& path.generated_at == snapshot.generated_at
            },
    {
        let policy = self.current_cluster_policy()?;
        proof {
            old(self)@.lemma_policy_read();
        }
        match &self.overlay {
            Some(snapshot) => {
                let ends = overlay_path_ends(snapshot, &policy, source, destination)?;
                proof {
                    lemma_node_named(
                        views(snapshot.active_nodes@),
                        source@,
                        snapshot.active_nodes@.len(),
                    );
                }
                match topology {
                    Ok(paths) => overlay_path_for(snapshot, &policy, ends, destination, paths, now),
                    Err(reason) => Err(ControlPlaneError::BoundedTopology { reason }),
                }
            },
            None => Err(ControlPlaneError::NodeNotFound { node_id: source.clone() }),
        }
    }

    /// What the overlay is shown as. `topology` is that of the overlay as it was last seen.
    pub fn overlay_topology_snapshot(&mut self, topology: &Topology, now: Timestamp) -> (r: Result<
        ControlPlaneTopologyResponse,
        ControlPlaneError,
    >)
        requires
            old(self).wf(),
            old(self).overlay is Some,
            rooted(views(topology.groups@)),
            forall|i: int|
                0 <= i < topology.groups@.len() ==> (#[trigger] topology.groups@[i]).depth
                    < usize::MAX,
            topology.degrees.wf(),
        ensures
            final(self).wf(),
            final(self)@ == old(self)@.policy_read(),
            refusal(r) == (if old(self)@.policy_reading_refusal() is Some {
                old(self)@.policy_reading_refusal()
            } else {
                topology_refusal(
                    views(topology.groups@),
                    views(topology.edges@),
                    views(old(self).overlay->0.nodes@),
                )
            }),
            r matches Ok(shown) ==> topology_says(
                shown,
                old(self)@.cluster(),
                *topology,
                views(old(self).overlay->0.nodes@),
                held(old(self).overlay->0.health_by_node@),
                old(self)@.observed_paths(*topology),
                old(self)@.policy_in_force(),
                now,
            ),
    {
        let policy = self.current_cluster_policy()?;
        let pairs = observed_path_pairs(&topology.edges);
        let paths = self.store.list_paths_for_pairs(&pairs);
        proof {
            let all = self@.store.paths;
            lemma_kept_alike(
                all,
                |path: PathRecordView| has_pair(pairs@, path.key.local, path.key.remote),
                |path: PathRecordView|
                    edge_between(topology.edges@, path.key.local, path.key.remote),
                all.len(),
            );
        }
        match &self.overlay {
            Some(snapshot) => overlay_topology_snapshot(
                &self.config.cluster_id,
                topology,
                &snapshot.nodes,
                &snapshot.health_by_node,
                &paths,
                &policy,
                now,
            ),
            None => Err(
                ControlPlaneError::BoundedTopology { reason: "no overlay is known".to_owned() },
            ),
        }
    }
}

/// A snapshot still counts exactly where it is at most a second old and was taken under the same
/// health time, block size, degree and state of the overlay.
pub proof fn law_snapshots_count_for_a_second(
    snapshot: OverlayNodeSnapshot,
    age: Span,
    policy: ClusterPolicyView,
    epoch: u64,
)
    ensures
        still_counts(snapshot, age, policy, epoch) <==> {
            &&& age.len() <= 1_000_000_000
            &&& snapshot.routing_epoch == epoch
            &&& snapshot.health_ttl_seconds == policy.relay_health_ttl_seconds
            &&& snapshot.topology_cache_key.block_size == policy.overlay_block_size
            &&& snapshot.topology_cache_key.max_degree == policy.overlay_max_degree
        },
{
}

/// The candidates are those leases of the cluster that are eligible and have not ended.
pub proof fn law_candidates_hold_a_lease(
    plane: ControlPlaneView,
    now: Timestamp,
    candidate: KeycloakCandidateLeaseView,
)
    ensures
        plane.candidates(now).contains(candidate) <==> listed(plane.store.keycloak).contains(
            candidate,
        ) && candidate.cluster_id == plane.cluster() && candidate.eligible && now.at()
            < candidate.lease_expires_at.at(),
{
    let keep = |candidate: KeycloakCandidateLeaseView|
        placeable(candidate, plane.cluster(), now, None);
    crate::lists::lemma_kept_members(listed(plane.store.keycloak), keep);
    assert(plane.candidates(now).contains(candidate) <==> listed(plane.store.keycloak).contains(
        candidate,
    ) && keep(candidate));
}

/// A candidate replaces its own lease exactly where that has ended or is of an older generation.
pub proof fn law_newer_generations_replace_older_ones(
    plane: ControlPlaneView,
    candidacy: KeycloakCandidacy,
    now: Timestamp,
)
    requires
        candidacy_refusal(
            candidacy,
            plane.cluster(),
            views(plane.overlay->0.nodes@),
            held(plane.overlay->0.health_by_node@),
            plane.policy_in_force(),
            now,
        ) is None,
    ensures
        plane.candidacy_refusal(candidacy, now) is None <==> {
            let key = seq![plane.cluster(), candidacy.node_id@];
            plane.store.keycloak.dom().contains(key) ==> plane.store.keycloak[key].generation
                < candidacy.generation || plane.store.keycloak[key].lease_expires_at.at()
                <= now.at()
        },
{
}

/// The paths that are observed are those that run along an edge of the topology, in either direction.
pub proof fn law_observed_paths_run_along_edges(
    plane: ControlPlaneView,
    topology: Topology,
    path: PathRecordView,
)
    ensures
        plane.observed_paths(topology).contains(path) <==> plane.store.paths.contains(path)
            && exists|i: int|
            0 <= i < topology.edges@.len() && (((#[trigger] topology.edges@[i]).first@
                == path.key.local && topology.edges@[i].second@ == path.key.remote) || (
            topology.edges@[i].second@ == path.key.local && topology.edges@[i].first@
                == path.key.remote)),
{
    let keep = |path: PathRecordView|
        edge_between(topology.edges@, path.key.local, path.key.remote);
    crate::lists::lemma_kept_members(plane.store.paths, keep);
    assert(plane.observed_paths(topology).contains(path) <==> plane.store.paths.contains(path)
        && keep(path));
    if edge_between(topology.edges@, path.key.local, path.key.remote) {
        let i = choose|i: int|
            0 <= i < topology.edges@.len() && crate::topology::ends_of(
                #[trigger] topology.edges@[i],
                path.key.local,
                path.key.remote,
            );
        assert(topology.edges@[i].first@ == path.key.local || topology.edges@[i].second@
            == path.key.local);
    }
}

/// The candidates from which replicas are placed hold a lease and qualify, and all that do are there
/// as long as there is room. The replicas are some of these, and no more than are wanted.
pub proof fn law_replicas_are_qualified(
    plane: ControlPlaneView,
    placement: KeycloakPlacement,
    version: Seq<char>,
    desired: nat,
    limit: nat,
    now: Timestamp,
    candidate: KeycloakCandidateLeaseView,
)
    requires
        plane.placement_says(placement, version, desired, limit, now),
    ensures
        ({
            let nodes = views(plane.overlay->0.nodes@);
            let health = held(plane.overlay->0.health_by_node@);
            let fit = plane.candidates(now).contains(candidate) && qualified(
                candidate,
                version,
                nodes,
                health,
                plane.policy_in_force(),
                now,
            );
            let chosen = plane.qualified_candidates(version, limit, now);
            &&& chosen.len() <= limit
            &&& chosen.contains(candidate) ==> fit
            &&& fit && chosen.len() < limit ==> chosen.contains(candidate)
            &&& placement.replicas@.len() <= desired
            &&& views(placement.replicas@).contains(candidate) ==> fit
        }),
{
    let nodes = views(plane.overlay->0.nodes@);
    let health = held(plane.overlay->0.health_by_node@);
    let policy = plane.policy_in_force();
    let keep = |candidate: KeycloakCandidateLeaseView|
        qualified(candidate, version, nodes, health, policy, now);
    let all = kept(plane.candidates(now), keep, plane.candidates(now).len());
    let chosen = plane.qualified_candidates(version, limit, now);
    crate::lists::lemma_kept_members(plane.candidates(now), keep);
    assert(all.contains(candidate) <==> plane.candidates(now).contains(candidate) && keep(
        candidate,
    ));
    if chosen.contains(candidate) {
        let k = choose|k: int| 0 <= k < chosen.len() && chosen[k] == candidate;
        assert(all[k] == candidate);
    }
    let replicas = views(placement.replicas@);
    assert(replicas.len() == placement.replicas@.len());
    crate::keycloak::law_placement_is_bounded(plane.cluster(), chosen, desired, 0);
    if replicas.contains(candidate) {
        let i = choose|i: int| 0 <= i < replicas.len() && replicas[i] == candidate;
        crate::keycloak::law_placement_is_bounded(plane.cluster(), chosen, desired, i);
        assert(chosen.contains(candidate));
    }
}

/// A lease is the candidate's own, says of it what it says of itself, begins now, and ends when the
/// time that was asked for is over.
pub proof fn law_leases_say_what_the_candidate_says(
    lease: KeycloakCandidateLeaseView,
    candidacy: KeycloakCandidacy,
    cluster_id: Seq<char>,
    now: Timestamp,
)
    requires
        leased(lease, candidacy, cluster_id, now),
    ensures
        lease.cluster_id == cluster_id,
        lease.node_id == candidacy.node_id@,
        lease.vpn_ip == candidacy.vpn_ip,
        lease.version == candidacy.version@,
        lease.ready == candidacy.ready,
        lease.eligible == candidacy.eligible,
        lease.generation == candidacy.generation,
        lease.updated_at == now,
        lease.lease_expires_at.at() == now.at() + candidacy.lease_ttl.len(),
{
}

/// The overlay is looked at again exactly where what was seen no longer counts. What is then seen is
/// of now and of the current state of the overlay: the nodes and the clients of the cluster that are
/// registered.
pub proof fn law_overlay_is_looked_at_when_needed(
    plane: ControlPlaneView,
    after: ControlPlaneView,
    age: Span,
    now: Timestamp,
)
    requires
        plane.looked_at(after, age, now),
    ensures
        ({
            let ready = plane.policy_read();
            let policy = ready.policy_in_force();
            let epoch = ready.store.epoch(ready.cluster());
            let old = ready.overlay->0;
            let counts = ready.overlay is Some && age.len() <= 1_000_000_000 && old.routing_epoch
                == epoch && old.health_ttl_seconds == policy.relay_health_ttl_seconds
                && old.topology_cache_key.block_size == policy.overlay_block_size
                && old.topology_cache_key.max_degree == policy.overlay_max_degree;
            let shown = after.overlay->0;
            let everyone = listed(ready.store.nodes);
            &&& after.overlay is Some
            &&& after.store == ready.store
            &&& shown.routing_epoch == epoch
            &&& shown.health_ttl_seconds == policy.relay_health_ttl_seconds
            &&& counts ==> after.overlay == ready.overlay
            &&& !counts ==> shown.generated_at == now && shown.wf()
            &&& !counts ==> forall|node: crate::types::NodeRecordView| #[trigger]
                views(shown.nodes@).contains(node) <==> everyone.contains(node) && node.cluster_id
                    == ready.cluster() && node.role != "client"@
            &&& !counts ==> forall|node: crate::types::NodeRecordView| #[trigger]
                views(shown.clients@).contains(node) <==> everyone.contains(node)
                    && node.cluster_id == ready.cluster() && node.role == "client"@
        }),
{
    let ready = plane.policy_read();
    let shown = after.overlay->0;
    let everyone = listed(ready.store.nodes);
    if ready.seen(shown, now) {
        assert forall|node: crate::types::NodeRecordView| #[trigger]
            views(shown.nodes@).contains(node) <==> everyone.contains(node) && node.cluster_id
                == ready.cluster() && node.role != "client"@ by {
            crate::routes::law_backbone_is_of_the_nodes(everyone, ready.cluster(), node);
        }
        assert forall|node: crate::types::NodeRecordView| #[trigger]
            views(shown.clients@).contains(node) <==> everyone.contains(node) && node.cluster_id
                == ready.cluster() && node.role == "client"@ by {
            crate::overlay::law_snapshot_is_of_the_cluster(
                everyone,
                ready.cluster(),
                ready.store.health,
                Set::empty(),
                node,
            );
        }
    }
}

} // verus!
