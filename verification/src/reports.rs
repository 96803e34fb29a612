//! What nodes report of themselves, and what they and the administrator learn from it.

use vstd::prelude::*;

use crate::control_plane::{ControlPlane, ControlPlaneView};
use crate::directory::directory_endpoints;
use crate::error::{refusal, ControlPlaneError, ControlPlaneErrorView};
use crate::ids::{ascending_texts, NodeId};
use crate::intake::{
    admission_of_heartbeat_refusal, admit_heartbeat, advertised_hostname, brings_new_routes,
    check_heartbeat_sender, heartbeat_sender_refusal, heartbeat_update, HeartbeatFindings, HeartbeatResponse,
};
use crate::intents::{
    client_gateway_selection_changed_recently, connection_intents_for, intents_for, members_of,
    wanted_by, PeerConnectionIntent, PeerConnectionIntentView,
    CLIENT_GATEWAY_SELECTION_ANNOUNCE_SECONDS,
};
use crate::lists::{gathered, how_many, kept};
use crate::map::{held, listed, OrderedMap};
use crate::metrics::{
    control_plane_metrics, countable, metrics_say, nat_discovery_overview, nat_overview_says,
    ControlPlaneMetricsResponse, ControlPlaneNatDiscoveryOverview,
};
use crate::order::sorted_by;
use crate::peer_maps::{
    check_path_reader, list_nodes, paths_for, paths_refusal, shown_path, stale_path, workers,
    ControlPlanePathsResponse,
};
use crate::pins::{list_paths, path_key, with_pins};
use crate::service::{
    advertised_instance, instance_fault, instance_refusal, HEARTBEAT_SERVICE_LEASE_SECONDS,
};
use crate::store::{at, one, path_touches};
use crate::time::{fresh, Timestamp};
use crate::types::{
    opt_view, views, HeartbeatRequest, HeartbeatRequestView, HeartbeatStoreUpdateView,
    NatClassification, NodeHealth, NodeRecord, NodeRecordView, PathRecord, PathRecordView, Record,
};

verus! {

/// The answer to a heartbeat, and the nodes that have waited for it.
#[derive(Debug)]
pub struct AnsweredHeartbeat {
    pub response: HeartbeatResponse,
    /// The nodes that the sender has recent traffic for.
    pub intent_targets: Vec<String>,
}

/// The paths that touch the first of some nodes, node by node.
pub open spec fn paths_of_nodes(
    nodes: Seq<NodeRecordView>,
    paths: Seq<PathRecordView>,
    n: nat,
) -> Seq<PathRecordView>
    decreases n,
{
    if n == 0 {
        Seq::empty()
    } else {
        let id = nodes[n - 1].node_id;
        paths_of_nodes(nodes, paths, (n - 1) as nat) + kept(
            paths,
            |path: PathRecordView| path_touches(path, id),
            paths.len(),
        )
    }
}

impl ControlPlaneView {
    /// The paths that are known from or to a node.
    pub open spec fn paths_touching(self, node_id: Seq<char>) -> Seq<PathRecordView> {
        kept(
            self.store.paths,
            |path: PathRecordView| path_touches(path, node_id),
            self.store.paths.len(),
        )
    }

    /// The paths of the nodes that are no clients, node by node.
    pub open spec fn paths_of_workers(self) -> Seq<PathRecordView> {
        let nodes = workers(listed(self.store.nodes));
        paths_of_nodes(nodes, self.store.paths, nodes.len())
    }

    /// The peers that a node is to connect to, as they have traffic for it.
    pub open spec fn intents(self, node_id: Seq<char>, now: Timestamp) -> Seq<
        PeerConnectionIntentView,
    > {
        intents_for(
            self.store.node(node_id)->0,
            self.paths_touching(node_id),
            members_of(listed(self.store.nodes), self.cluster()),
            self.policy_in_force(),
            self.limits.lazy_connect_prefix@,
            now,
        )
    }

    /// Why a node does not learn whom to connect to.
    pub open spec fn intents_refusal(self, node_id: Seq<char>) -> Option<ControlPlaneErrorView> {
        if self.policy_reading_refusal() is Some {
            self.policy_reading_refusal()
        } else {
            match self.store.node(node_id) {
                Some(node) if node.cluster_id == self.cluster() => None,
                _ => Some(ControlPlaneErrorView::NodeNotFound { node_id }),
            }
        }
    }

    /// Some client selected another gateway not long ago.
    pub open spec fn selected_recently(self, now: Timestamp) -> bool {
        exists|i: int|
            0 <= i < listed(self.store.selections).len() && fresh(
                (#[trigger] listed(self.store.selections)[i]).selected_at,
                now,
                CLIENT_GATEWAY_SELECTION_ANNOUNCE_SECONDS,
            )
    }

    /// What a heartbeat changes in the store.
    pub open spec fn reported(self, request: HeartbeatRequestView, now: Timestamp) -> HeartbeatStoreUpdateView {
        heartbeat_update(
            self.config,
            request,
            self.store.node(request.node_id)->0,
            self.policy_in_force(),
            Some(self.policy_in_force()),
            listed(self.store.nodes),
            self.pins,
            now,
        )
    }

    /// Why a heartbeat is not accepted, where its sender and the policy of the cluster are not the
    /// reason.
    pub open spec fn report_refusal(
        self,
        request: HeartbeatRequestView,
        findings: HeartbeatFindings,
        now: Timestamp,
    ) -> Option<ControlPlaneErrorView> {
        admission_of_heartbeat_refusal(
            self.config,
            self.limits,
            request,
            self.store.node(request.node_id),
            self.policy_in_force(),
            findings,
            at(self.store.signatures, one(request.node_id)),
            listed(self.store.nodes),
            self.store.health,
            now,
        )
    }

    /// Why the services that a heartbeat advertises are not taken note of.
    pub open spec fn advertised_services_refusal(
        self,
        request: HeartbeatRequestView,
        findings: HeartbeatFindings,
        now: Timestamp,
    ) -> Option<ControlPlaneErrorView> {
        match advertised_instance(request, self.cluster(), now) {
            None => None,
            Some(instance) => instance_refusal(
                instance_fault(
                    instance,
                    self.cluster(),
                    opt_view(findings.endpoints_fault),
                    now,
                ),
            ),
        }
    }

    /// Why a heartbeat is not answered.
    pub open spec fn heartbeat_refusal(
        self,
        request: HeartbeatRequestView,
        findings: HeartbeatFindings,
        now: Timestamp,
    ) -> Option<ControlPlaneErrorView> {
        let sender = heartbeat_sender_refusal(
            request.node_id,
            self.store.node(request.node_id),
            self.cluster(),
        );
        let stored = self.policy_read().store.heartbeat_refusal(self.reported(request, now));
        if sender is Some {
            sender
        } else if self.policy_reading_refusal() is Some {
            self.policy_reading_refusal()
        } else if self.report_refusal(request, findings, now) is Some {
            self.report_refusal(request, findings, now)
        } else if stored is Some {
            stored
        } else {
            self.advertised_services_refusal(request, findings, now)
        }
    }

    /// The state with what a heartbeat reports.
    pub open spec fn with_report(self, request: HeartbeatRequestView, now: Timestamp) -> ControlPlaneView {
        ControlPlaneView {
            store: self.policy_read().store.after_heartbeat(self.reported(request, now)),
            ..self.policy_read()
        }
    }

    /// The state with what a heartbeat reports and the services that it advertises. New routes and
    /// another host name make the overlay as it was last seen count no longer.
    pub open spec fn with_services(self, request: HeartbeatRequestView, now: Timestamp) -> ControlPlaneView {
        let reported = self.with_report(request, now);
        let node = self.store.node(request.node_id)->0;
        let announced = match advertised_instance(request, self.cluster(), now) {
            None => reported,
            Some(instance) => reported.with_instance(instance),
        };
        ControlPlaneView {
            overlay: if brings_new_routes(request, node) || (advertised_hostname(request) is Some
                && advertised_hostname(request) != node.hostname) {
                None
            } else {
                announced.overlay
            },
            ..announced
        }
    }

    /// The state after a heartbeat.
    pub open spec fn after_heartbeat(
        self,
        request: HeartbeatRequestView,
        findings: HeartbeatFindings,
        now: Timestamp,
    ) -> ControlPlaneView {
        let sender = heartbeat_sender_refusal(
            request.node_id,
            self.store.node(request.node_id),
            self.cluster(),
        );
        let stored = self.policy_read().store.heartbeat_refusal(self.reported(request, now));
        if sender is Some {
            self
        } else if self.policy_reading_refusal() is Some || self.report_refusal(
            request,
            findings,
            now,
        ) is Some || stored is Some {
            self.policy_read()
        } else if self.advertised_services_refusal(request, findings, now) is Some {
            self.with_report(request, now)
        } else {
            self.with_services(request, now)
        }
    }

    /// What the answer to a heartbeat says. This is the state after it.
    pub open spec fn answer_says(
        self,
        answer: HeartbeatResponse,
        node_id: Seq<char>,
        now: Timestamp,
    ) -> bool {
        &&& answer.accepted
        &&& answer.policy_version == 0
        &&& answer.peer_delta_available == self.selected_recently(now)
        &&& views(answer.bootstrap_endpoints@) == directory_endpoints(
            self.directory_instances(now, now),
            self.limits,
        )
        &&& views(answer.connection_intents@) == self.intents(node_id, now)
    }
}

impl ControlPlane {
    /// The peers that a node is to connect to, as they have traffic for it.
    pub fn connection_intents_for(&mut self, node_id: &NodeId, now: Timestamp) -> (r: Result<
        Vec<PeerConnectionIntent>,
        ControlPlaneError,
    >)
        requires
            old(self).wf(),
        ensures
            final(self).wf(),
            refusal(r) == old(self)@.intents_refusal(node_id@),
            r matches Ok(intents) ==> views(intents@) == old(self)@.intents(node_id@, now),
            final(self)@ == old(self)@.policy_read(),
    {
        let policy = self.current_cluster_policy()?;
        let node = self.store.get_node(node_id);
        let paths = self.store.list_paths_for(node_id);
        assert(views(paths@) =~= old(self)@.paths_touching(node_id@));
        let nodes = self.store.list_nodes();
        connection_intents_for(
            node_id,
            node.as_ref(),
            &self.config.cluster_id,
            &paths,
            &nodes,
            &policy,
            self.limits.lazy_connect_prefix.as_str(),
            now,
        )
    }

    /// Whether some client selected another gateway not long ago.
    pub fn client_gateway_selection_changed_recently(&self, now: Timestamp) -> (r: bool)
        requires
            self.wf(),
        ensures
            r == self@.selected_recently(now),
    {
        let latest = self.store.latest_client_gateway_selection_at();
        proof {
            let selections = listed(self@.store.selections);
            if let Some(at) = latest {
                let i = choose|i: int|
                    0 <= i < selections.len() && (#[trigger] selections[i]).selected_at == at;
                assert(selections[i].selected_at == at);
            }
        }
        client_gateway_selection_changed_recently(latest, now)
    }

    /// Takes a heartbeat. `findings` is what was found out about it beforehand.
    pub fn heartbeat(
        &mut self,
        request: &HeartbeatRequest,
        findings: &HeartbeatFindings,
        now: Timestamp,
    ) -> (r: Result<AnsweredHeartbeat, ControlPlaneError>)
        requires
            old(self).wf(),
            now.seconds <= i64::MAX - HEARTBEAT_SERVICE_LEASE_SECONDS,
        ensures
            final(self).wf(),
            refusal(r) == old(self)@.heartbeat_refusal(request@, *findings, now),
            final(self)@ == old(self)@.after_heartbeat(request@, *findings, now),
            r matches Ok(answered) ==> {
                &&& final(self)@.answer_says(answered.response, request@.node_id, now)
                &&& ascending_texts(views(answered.intent_targets@))
                &&& forall|id: Seq<char>|
                    views(answered.intent_targets@).contains(id) <==> wanted_by(
                        request@.path_state,
                        old(self).limits.lazy_connect_prefix@,
                        now,
                        old(self)@.policy_in_force().idle_timeout_seconds,
                        id,
                        request@.path_state.len(),
                    )
            },
    {
        let node = self.store.get_node(&request.node_id);
        check_heartbeat_sender(&request.node_id, node.as_ref(), &self.config.cluster_id)?;
        let policy = self.current_cluster_policy()?;
        proof {
            old(self)@.lemma_policy_read();
        }
        let nodes = self.store.list_nodes();
        let health = self.store.list_health();
        let previous = self.store.get_heartbeat_signature_timestamp(&request.node_id);
        let admitted = admit_heartbeat(
            &self.config,
            &self.limits,
            request,
            node.as_ref(),
            &policy,
            &Some(policy.duplicate()),
            findings,
            previous,
            &nodes,
            &health,
            &self.pins,
            now,
        )?;
        self.store.apply_heartbeat(admitted.update)?;
        assert(self@ =~= old(self)@.with_report(request@, now));
        if let Some(instance) = admitted.service_instance {
            self.advertise_service_instance(instance, &findings.endpoints_fault, now)?;
        }
        if admitted.changes_overlay {
            self.overlay = None;
        }
        assert(self@ =~= old(self)@.with_services(request@, now));
        assert(self@.policy_read() =~= self@);
        let directory = self.service_directory(now)?;
        let connection_intents = self.connection_intents_for(&request.node_id, now)?;
        let peer_delta_available = self.client_gateway_selection_changed_recently(now);
        Ok(
            AnsweredHeartbeat {
                response: HeartbeatResponse {
                    accepted: true,
                    policy_version: 0,
                    peer_delta_available,
                    bootstrap_endpoints: directory.bootstrap_endpoints,
                    connection_intents,
                },
                intent_targets: admitted.intent_targets,
            },
        )
    }

    /// The paths of a node as it may see them. Reading the policy comes after the look-up of the
    /// node.
    pub fn paths_for(&mut self, node_id: &NodeId, now: Timestamp) -> (r: Result<
        ControlPlanePathsResponse,
        ControlPlaneError,
    >)
        requires
            old(self).wf(),
        ensures
            final(self).wf(),
            ({
                let refused = paths_refusal(node_id@, old(self)@.store.node(node_id@));
                if refused is Some {
                    refusal(r) == refused && final(self)@ == old(self)@
                } else {
                    &&& refusal(r) == old(self)@.policy_reading_refusal()
                    &&& final(self)@ == old(self)@.policy_read()
                }
            }),
            r matches Ok(shown) ==> {
                let source = old(self)@.store.node(node_id@)->0;
                let paths = old(self)@.paths_touching(node_id@);
                let peers = listed(old(self)@.store.nodes);
                let pins = old(self)@.pins;
                let policy = old(self)@.policy_in_force();
                &&& shown.cluster_id@ == old(self)@.cluster()
                &&& shown.node_id@ == node_id@
                &&& views(shown.paths@) == gathered(
                    paths,
                    |path: PathRecordView| shown_path(source, path, peers, pins, policy, now),
                    paths.len(),
                )
                &&& shown.stale_path_count == how_many(
                    paths,
                    |path: PathRecordView| stale_path(source, path, peers, policy, now),
                    paths.len(),
                )
                &&& shown.path_state_ttl_seconds == policy.path_state_ttl_seconds
                &&& shown.generated_at == now
            },
    {
        let source = self.store.get_node(node_id);
        check_path_reader(node_id, source.as_ref())?;
        let policy = self.current_cluster_policy()?;
        let peers = self.store.list_nodes();
        let paths = self.store.list_paths_for(node_id);
        assert(views(paths@) =~= old(self)@.paths_touching(node_id@));
        paths_for(
            &self.config.cluster_id,
            node_id,
            source.as_ref(),
            &paths,
            &peers,
            &self.pins,
            &policy,
            now,
        )
    }

    /// All paths, in the order of their ends.
    pub fn list_paths(&self) -> (r: Vec<PathRecord>)
        requires
            self.wf(),
        ensures
            views(r@) == with_pins(
                sorted_by(self@.store.paths, |path: PathRecordView| path_key(path)),
                self@.pins,
            ),
    {
        list_paths(&self.store.list_all_paths(), &self.pins)
    }

    /// The nodes that are no clients.
    pub fn list_nodes(&self) -> (r: Vec<NodeRecord>)
        requires
            self.wf(),
        ensures
            views(r@) == workers(listed(self@.store.nodes)),
    {
        list_nodes(&self.store.list_nodes())
    }

    /// What is known of the health of a node.
    pub fn health_for_node(&self, node_id: &NodeId) -> (r: Option<NodeHealth>)
        requires
            self.wf(),
        ensures
            opt_view(r) == at(self@.store.health, one(node_id@)),
    {
        self.store.get_health(node_id)
    }

    /// How a node reaches the network, where it is known.
    pub fn nat_classification_for(&self, node_id: &NodeId) -> (r: Option<NatClassification>)
        requires
            self.wf(),
        ensures
            opt_view(r) == at(self@.store.nats, one(node_id@)),
    {
        self.store.get_nat_classification(node_id)
    }

    /// How the nodes reach the network, as far as it is known.
    pub fn nat_classifications(&self) -> (r: OrderedMap<NodeId, NatClassification>)
        requires
            self.wf(),
        ensures
            r.wf(),
            held(r@) == self@.store.nats,
    {
        self.store.list_nat_classifications()
    }

    /// How many nodes reach the network in which way, of `strategies` that there are.
    pub fn nat_discovery_overview(&mut self, strategies: usize, now: Timestamp) -> (r: Result<
        ControlPlaneNatDiscoveryOverview,
        ControlPlaneError,
    >)
        requires
            old(self).wf(),
        ensures
            final(self).wf(),
            refusal(r) == old(self)@.policy_reading_refusal(),
            r matches Ok(overview) ==> nat_overview_says(
                overview,
                old(self)@.store.nats,
                old(self)@.policy_in_force(),
                strategies,
                now,
            ),
            final(self)@ == old(self)@.policy_read(),
    {
        let nats = self.store.list_nat_classifications();
        let policy = self.current_cluster_policy()?;
        Ok(nat_discovery_overview(&nats, &policy, strategies, now))
    }

    fn paths_of_workers(&self, nodes: &Vec<NodeRecord>) -> (r: Vec<PathRecord>)
        requires
            self.wf(),
        ensures
            views(r@) == paths_of_nodes(views(nodes@), self@.store.paths, nodes@.len()),
    {
        let mut r: Vec<PathRecord> = Vec::new();
        let mut i: usize = 0;
        assert(views(r@) =~= Seq::empty());
        while i < nodes.len()
            invariant
                self.wf(),
                i <= nodes@.len(),
                views(r@) == paths_of_nodes(views(nodes@), self@.store.paths, i as nat),
            decreases nodes@.len() - i,
        {
            let mut more = self.store.list_paths_for(&nodes[i].node_id);
            let ghost before = r@;
            let ghost added = more@;
            r.append(&mut more);
            proof {
                assert(views(r@) =~= views(before) + views(added));
                assert(views(nodes@)[i as int].node_id == nodes@[i as int].node_id@);
                assert(self@.paths_touching(nodes@[i as int].node_id@) =~= views(added));
            }
            i = i + 1;
        }
        r
    }

    /// What the control plane counts.
    pub fn metrics(&mut self, now: Timestamp) -> (r: Result<
        ControlPlaneMetricsResponse,
        ControlPlaneError,
    >)
        requires
            old(self).wf(),
            countable(listed(old(self)@.store.nodes), old(self)@.policy_in_force(), now),
        ensures
            final(self).wf(),
            refusal(r) == old(self)@.policy_reading_refusal(),
            r matches Ok(metrics) ==> metrics_say(
                metrics,
                old(self).config,
                listed(old(self)@.store.nodes),
                old(self)@.store.health,
                old(self)@.directory_instances(now, now),
                old(self)@.policy_in_force(),
                old(self)@.paths_of_workers(),
                old(self).operations,
                now,
            ),
            final(self)@ == old(self)@.policy_read(),
    {
        let policy = self.current_cluster_policy()?;
        proof {
            old(self)@.lemma_policy_read();
        }
        let directory = self.service_directory(now)?;
        let participants = self.store.list_nodes();
        let nodes = list_nodes(&participants);
        assert(nodes@.len() == views(nodes@).len());
        let health = self.store.list_health();
        let paths = self.paths_of_workers(&nodes);
        Ok(
            control_plane_metrics(
                &self.config,
                &participants,
                &health,
                &directory,
                &policy,
                &paths,
                &self.operations,
                now,
            ),
        )
    }
}

/// The paths of a node are those that have it at one of their ends, and its intents can be asked for
/// exactly where it is registered in the cluster and the policy can be read.
pub proof fn law_paths_of_a_node_touch_it(
    plane: ControlPlaneView,
    node_id: Seq<char>,
    path: PathRecordView,
)
    ensures
        plane.paths_touching(node_id).contains(path) <==> plane.store.paths.contains(path) && (
        path.key.local == node_id || path.key.remote == node_id),
        plane.intents_refusal(node_id) is None <==> plane.policy_reading_refusal() is None
            && plane.store.nodes.dom().contains(seq![node_id])
            && plane.store.nodes[seq![node_id]].cluster_id == plane.cluster(),
{
    let keep = |path: PathRecordView| path_touches(path, node_id);
    crate::lists::lemma_kept_members(plane.store.paths, keep);
    assert(plane.paths_touching(node_id).contains(path) <==> plane.store.paths.contains(path)
        && keep(path));
}

/// The answer to a heartbeat says that there is news exactly where a client lately chose a gateway.
pub proof fn law_recent_choices_are_announced(
    plane: ControlPlaneView,
    answer: HeartbeatResponse,
    node_id: Seq<char>,
    now: Timestamp,
)
    requires
        plane.answer_says(answer, node_id, now),
        plane.store.selections.dom().finite(),
    ensures
        answer.accepted,
        answer.peer_delta_available <==> exists|key: Seq<Seq<char>>| #[trigger]
            plane.store.selections.dom().contains(key) && now.at()
                <= plane.store.selections[key].selected_at.at()
                + CLIENT_GATEWAY_SELECTION_ANNOUNCE_SECONDS * 1_000_000_000,
{
    let selections = plane.store.selections;
    let all = listed(selections);
    let keys = crate::map::sorted_keys(selections.dom());
    crate::map::lemma_listing(selections);
    if plane.selected_recently(now) {
        let i = choose|i: int|
            0 <= i < all.len() && fresh(
                (#[trigger] all[i]).selected_at,
                now,
                CLIENT_GATEWAY_SELECTION_ANNOUNCE_SECONDS,
            );
        assert(keys.contains(keys[i]));
        assert(selections.dom().contains(keys[i]) && selections[keys[i]] == all[i]);
    }
    if exists|key: Seq<Seq<char>>| #[trigger]
        selections.dom().contains(key) && now.at() <= selections[key].selected_at.at()
            + CLIENT_GATEWAY_SELECTION_ANNOUNCE_SECONDS * 1_000_000_000 {
        let key = choose|key: Seq<Seq<char>>| #[trigger]
            selections.dom().contains(key) && now.at() <= selections[key].selected_at.at()
                + CLIENT_GATEWAY_SELECTION_ANNOUNCE_SECONDS * 1_000_000_000;
        assert(all.contains(selections[key]));
        let i = choose|i: int| 0 <= i < all.len() && all[i] == selections[key];
        assert(fresh(all[i].selected_at, now, CLIENT_GATEWAY_SELECTION_ANNOUNCE_SECONDS));
    }
}

/// A heartbeat is accepted exactly where its sender is, the policy can be read, what it says is
/// admitted, it can be stored, and the services that it advertises can be registered.
pub proof fn law_accepted_heartbeats_pass_throughout(
    plane: ControlPlaneView,
    request: HeartbeatRequestView,
    findings: HeartbeatFindings,
    now: Timestamp,
)
    ensures
        plane.heartbeat_refusal(request, findings, now) is None <==> {
            &&& heartbeat_sender_refusal(
                request.node_id,
                plane.store.node(request.node_id),
                plane.cluster(),
            ) is None
            &&& plane.policy_reading_refusal() is None
            &&& plane.report_refusal(request, findings, now) is None
            &&& plane.policy_read().store.heartbeat_refusal(plane.reported(request, now)) is None
            &&& advertised_instance(request, plane.cluster(), now) matches Some(instance)
                ==> instance_fault(
                instance,
                plane.cluster(),
                opt_view(findings.endpoints_fault),
                now,
            ) is None
        },
{
}

/// The paths of the nodes are those that have at least one node, and not only clients, at their ends.
pub proof fn law_paths_of_nodes_touch_a_node(
    nodes: Seq<NodeRecordView>,
    paths: Seq<PathRecordView>,
    n: nat,
    path: PathRecordView,
)
    requires
        n <= nodes.len(),
    ensures
        paths_of_nodes(nodes, paths, n).contains(path) <==> paths.contains(path) && exists|i: int|
            0 <= i < n && ((#[trigger] nodes[i]).node_id == path.key.local || nodes[i].node_id
                == path.key.remote),
    decreases n,
{
    if n > 0 {
        let m = (n - 1) as nat;
        law_paths_of_nodes_touch_a_node(nodes, paths, m, path);
        let id = nodes[n - 1].node_id;
        let keep = |path: PathRecordView| path_touches(path, id);
        let own = kept(paths, keep, paths.len());
        crate::lists::lemma_kept_members(paths, keep);
        assert(own.contains(path) <==> paths.contains(path) && keep(path));
        let before = paths_of_nodes(nodes, paths, m);
        let all = before + own;
        assert(all.contains(path) <==> before.contains(path) || own.contains(path)) by {
            if before.contains(path) {
                let k = choose|k: int| 0 <= k < before.len() && before[k] == path;
                assert(all[k] == path);
            }
            if own.contains(path) {
                let k = choose|k: int| 0 <= k < own.len() && own[k] == path;
                assert(all[before.len() + k] == path);
            }
        }
        if before.contains(path) {
            let i = choose|i: int|
                0 <= i < m && ((#[trigger] nodes[i]).node_id == path.key.local || nodes[i].node_id
                    == path.key.remote);
            assert(nodes[i].node_id == path.key.local || nodes[i].node_id == path.key.remote);
        }
        if own.contains(path) {
            assert(nodes[n - 1].node_id == path.key.local || nodes[n - 1].node_id
                == path.key.remote);
        }
        if exists|i: int|
            0 <= i < n && ((#[trigger] nodes[i]).node_id == path.key.local || nodes[i].node_id
                == path.key.remote) {
            let i = choose|i: int|
                0 <= i < n && ((#[trigger] nodes[i]).node_id == path.key.local || nodes[i].node_id
                    == path.key.remote);
            if i < m {
                assert(nodes[i].node_id == path.key.local || nodes[i].node_id == path.key.remote);
            }
        }
    }
}

/// An accepted heartbeat makes the overlay be looked at anew exactly where it brings new routes or
/// another name, keeps the services that it advertises under the name of the node, and leaves the
/// pins, the nonces and the addresses as they are.
pub proof fn law_news_makes_the_overlay_be_looked_at_anew(
    plane: ControlPlaneView,
    request: HeartbeatRequestView,
    findings: HeartbeatFindings,
    now: Timestamp,
)
    requires
        plane.heartbeat_refusal(request, findings, now) is None,
    ensures
        ({
            let node = plane.store.nodes[seq![request.node_id]];
            let after = plane.after_heartbeat(request, findings, now);
            let said = request.service_advertisement;
            let new_routes = request.routes is Some && request.routes->0 != node.routes;
            let new_name = said is Some && said->0.hostname is Some && said->0.hostname
                != node.hostname;
            let key = seq![plane.cluster(), "agent-services-"@ + request.node_id];
            &&& new_routes || new_name ==> after.overlay is None
            &&& !new_routes && !new_name ==> after.overlay == plane.overlay
            &&& said is Some && said->0.endpoints.len() > 0 ==> after.store.services.dom().contains(
                key,
            ) && after.store.services[key].owner_host_id == request.node_id
                && after.store.services[key].endpoints == said->0.endpoints
                && after.store.services[key].updated_at == now
            &&& !(said is Some && said->0.endpoints.len() > 0) ==> after.store.services
                == plane.store.services
            &&& after.allocator == plane.allocator
            &&& after.nonces == plane.nonces
            &&& after.pins == plane.pins
        }),
{
}

} // verus!
