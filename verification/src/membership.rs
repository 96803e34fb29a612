//! Requests of those that have joined, and of the administrator: who asks, who leaves, who takes
//! another key, and which gateway a client uses.

use vstd::prelude::*;

use crate::auth::{
    authenticate_client_request, authenticate_node_query, authenticate_overlay_path_query,
    authenticate_signal_node_upsert, client_request_refusal, node_request_refusal, nonce_refusal,
    nonces_after, path_query_refusal, query_refusal, recent, rotation_refusal, signing_time,
    validate_remove_node_request, validate_wireguard_key_rotation_request, ClientRequestKind,
    RequestSignature, RotateWireGuardKeyRequest, CLIENT_REMOVAL_REASON, CLIENT_SIGNAL_REASON,
    MAX_ACCEPTED_NODE_QUERY_NONCES,
};
use crate::client_routes::{
    ids_of, selection_change, update_client_gateway_selection, SelectionChange,
    SelectionChangeView,
};
use crate::control_plane::{ControlPlane, ControlPlaneView};
use crate::enrollment::{
    addresses_apart, law_registered_node_is_stored, law_registration_is_repeatable,
    RegisterClientResponse,
};
use crate::error::{refusal, ControlPlaneError, ControlPlaneErrorView};
use crate::gateway::{chosen_by, offered_gateways, seen_by_client};
use crate::heartbeat::heartbeat_refusal;
use crate::ids::NodeId;
use crate::intake::HeartbeatFindings;
use crate::map::listed;
use crate::metrics::{one_more, ControlPlaneOperationMetrics};
use crate::peer_maps::{PeerMap, RelayMap};
use crate::pins::{path_between, pin_refusal, pins_without};
use crate::registration::{
    claims_for_sponsored_client, lemma_client_admission_is_timeless, participant_request,
    same_bundle, sponsored_claims, KeyFindings, MAX_ROUTE_CATALOG_UPDATE_RETRIES,
};
use crate::sponsorship::{
    authenticate_sponsor, law_sponsorship_is_used_once, nonces_after_sponsorship,
    vouched_nonce_refusal, vouching_refusal, SponsoredClientRegistrationRequest,
    SponsorshipFindings,
};
use crate::store::{at, late_refusal, not_found, one, paths_with, paths_without, two, StoreView};
use crate::time::{timestamp_display, within_skew, Timestamp};
use crate::types::{
    opt_view, ref_view, views, HeartbeatRequestView, JoinTokenClaimsView, NodeRecord,
    NodeRecordView, PathRecord, PathRecordView, Record,
};
use crate::vpn::VpnAllocator;

verus! {

/// A request of a node to leave.
#[derive(Debug)]
pub struct RemoveNodeRequest {
    pub node_id: NodeId,
    /// When the request was signed, where it is signed.
    pub signed_at: Option<Timestamp>,
}

/// What was removed with a node.
#[derive(Debug)]
pub struct RemoveNodeResponse {
    pub node: NodeRecord,
    pub removed_path_count: usize,
    pub removed_health: bool,
    pub removed_at: Timestamp,
}

/// The client that was removed.
#[derive(Debug)]
pub struct RemoveClientResponse {
    pub client: NodeRecord,
    pub removed_at: Timestamp,
}

/// What a node gets that takes another WireGuard key.
#[derive(Debug)]
pub struct RotateWireGuardKeyResponse {
    pub node: NodeRecord,
    pub peer_map: PeerMap,
    pub relay_map: RelayMap,
    pub rotated_at: Timestamp,
}

/// A request of a client.
#[derive(Debug)]
pub struct ClientControlRequest {
    pub client_id: NodeId,
    pub active_gateway_node_id: Option<NodeId>,
    pub request_signature: Option<RequestSignature>,
}

/// What the checks of the keys and of the signature of a request for another key found wrong.
#[derive(Debug)]
pub struct RotationFindings {
    pub previous_key_fault: Option<String>,
    pub next_key_fault: Option<String>,
    pub signature_fault: Option<String>,
}

impl StoreView {
    /// Why a node cannot be removed.
    pub open spec fn removal_refusal(self, node_id: Seq<char>) -> Option<ControlPlaneErrorView> {
        match self.node(node_id) {
            None => not_found(node_id),
            Some(node) => self.exhaustion(node.cluster_id),
        }
    }

    /// Why a node does not get another WireGuard key.
    pub open spec fn rotation_refusal(
        self,
        node_id: Seq<char>,
        previous: Seq<char>,
        next: Seq<char>,
    ) -> Option<ControlPlaneErrorView> {
        match self.node(node_id) {
            None => not_found(node_id),
            Some(node) => if node.wireguard_public_key != previous {
                Some(
                    ControlPlaneErrorView::NodeUpdateRejected {
                        node_id,
                        reason: "wireguard public key changed before rotation completed"@,
                    },
                )
            } else if node.wireguard_public_key == next {
                None
            } else {
                self.exhaustion(node.cluster_id)
            },
        }
    }

    /// The store after a node got another WireGuard key.
    pub open spec fn after_rotation(self, node_id: Seq<char>, next: Seq<char>) -> StoreView {
        let node = self.node(node_id)->0;
        if node.wireguard_public_key == next {
            self
        } else {
            self.advanced(node.cluster_id).with_node(
                NodeRecordView { wireguard_public_key: next, ..node },
            )
        }
    }
}

impl ControlPlaneView {
    /// The state without a node. Its address can be given out again.
    pub open spec fn without_node(self, node_id: Seq<char>) -> ControlPlaneView {
        ControlPlaneView {
            store: self.store.advanced(self.store.node(node_id)->0.cluster_id).without_node(
                node_id,
            ),
            allocator: VpnAllocator { pool: self.config.vpn_pool, next_host_offset: 1 },
            overlay: None,
            ..self
        }
    }

    /// The state with one more removal of a node on record.
    pub open spec fn counting_removal(self, success: bool) -> ControlPlaneView {
        let counts = self.operations;
        ControlPlaneView {
            operations: if success {
                ControlPlaneOperationMetrics {
                    node_removal_success_count: one_more(counts.node_removal_success_count),
                    ..counts
                }
            } else {
                ControlPlaneOperationMetrics {
                    node_removal_failure_count: one_more(counts.node_removal_failure_count),
                    ..counts
                }
            },
            ..self
        }
    }

    /// The state with one more change of a WireGuard key on record.
    pub open spec fn counting_rotation(self, success: bool) -> ControlPlaneView {
        let counts = self.operations;
        ControlPlaneView {
            operations: if success {
                ControlPlaneOperationMetrics {
                    wireguard_key_rotation_success_count: one_more(
                        counts.wireguard_key_rotation_success_count,
                    ),
                    ..counts
                }
            } else {
                ControlPlaneOperationMetrics {
                    wireguard_key_rotation_failure_count: one_more(
                        counts.wireguard_key_rotation_failure_count,
                    ),
                    ..counts
                }
            },
            ..self
        }
    }

    /// What the answer to the removal of a node says. This is the state before it.
    pub open spec fn removal_says(
        self,
        removed: RemoveNodeResponse,
        node_id: Seq<char>,
        now: Timestamp,
    ) -> bool {
        &&& Some(removed.node@) == self.store.node(node_id)
        &&& removed.removed_health == at(self.store.health, one(node_id)) is Some
        &&& removed.removed_path_count == self.store.paths.len() - paths_without(
            self.store.paths,
            node_id,
        ).len()
        &&& removed.removed_at == now
    }

    /// Why a signed request of a node to leave is refused.
    pub open spec fn leaving_refusal(
        self,
        request: RemoveNodeRequest,
        signature_fault: Option<Seq<char>>,
        now: Timestamp,
    ) -> Option<ControlPlaneErrorView> {
        let id = request.node_id@;
        let refused = node_request_refusal(
            id,
            self.store.node(id),
            CLIENT_REMOVAL_REASON@,
            request.signed_at,
            signature_fault,
            now,
            self.config.heartbeat_signature_max_age,
        );
        if refused is Some {
            refused
        } else {
            self.store.removal_refusal(id)
        }
    }

    /// Why a request for another WireGuard key is refused before anything changes.
    pub open spec fn rekeying_refusal(
        self,
        request: RotateWireGuardKeyRequest,
        findings: RotationFindings,
        now: Timestamp,
    ) -> Option<ControlPlaneErrorView> {
        let refused = rotation_refusal(
            request,
            self.store.node(request.node_id@),
            opt_view(findings.previous_key_fault),
            opt_view(findings.next_key_fault),
            opt_view(findings.signature_fault),
            now,
            self.config.heartbeat_signature_max_age,
        );
        if refused is Some {
            refused
        } else {
            self.store.rotation_refusal(
                request.node_id@,
                request.previous_wireguard_public_key@,
                request.next_wireguard_public_key@,
            )
        }
    }

    /// The state once a node has another WireGuard key.
    pub open spec fn rekeyed(self, request: RotateWireGuardKeyRequest) -> ControlPlaneView {
        ControlPlaneView {
            store: self.store.after_rotation(
                request.node_id@,
                request.next_wireguard_public_key@,
            ),
            ..self
        }
    }

    /// What a client changes about the gateway that it uses.
    pub open spec fn gateway_change(
        self,
        client: NodeRecordView,
        requested: Option<Seq<char>>,
        now: Timestamp,
    ) -> SelectionChangeView {
        selection_change(
            client.node_id,
            ids_of(
                offered_gateways(
                    seen_by_client(client, listed(self.store.nodes), self.policy_in_force()),
                    self.store.health,
                    now,
                    self.policy_in_force(),
                ),
            ),
            requested,
            chosen_by(self.store.selections, client.node_id),
            now,
        )
    }

    /// The state with the gateway that a client uses changed.
    pub open spec fn with_gateway_change(
        self,
        client_id: Seq<char>,
        change: SelectionChangeView,
    ) -> ControlPlaneView {
        let selections = self.store.selections;
        ControlPlaneView {
            store: StoreView {
                selections: match change {
                    SelectionChangeView::Keep => selections,
                    SelectionChangeView::Select(selection) => selections.insert(
                        one(selection.client_id),
                        selection,
                    ),
                    SelectionChangeView::Forget => selections.remove(one(client_id)),
                },
                ..self.store
            },
            ..self
        }
    }

    /// Why a signed request of a client is refused.
    pub open spec fn client_refusal(
        self,
        request: ClientControlRequest,
        kind: ClientRequestKind,
        signature_fault: Option<Seq<char>>,
        now: Timestamp,
    ) -> Option<ControlPlaneErrorView> {
        let max_age = self.config.heartbeat_signature_max_age;
        let refused = client_request_refusal(
            request.client_id@,
            kind,
            request.active_gateway_node_id is Some,
            signing_time(request.request_signature),
            self.store.node(request.client_id@),
            signature_fault,
            now,
            max_age,
        );
        if refused is Some {
            refused
        } else {
            nonce_refusal(
                self.nonces,
                request.client_id@,
                request.request_signature->0.signed_at,
                request.request_signature->0.nonce@,
                now,
                max_age,
            )
        }
    }

    /// The state once a signed request of a client was looked at: its nonce is used up where the
    /// rest of it is accepted.
    pub open spec fn client_heard(
        self,
        request: ClientControlRequest,
        kind: ClientRequestKind,
        signature_fault: Option<Seq<char>>,
        now: Timestamp,
    ) -> ControlPlaneView {
        let max_age = self.config.heartbeat_signature_max_age;
        if client_request_refusal(
            request.client_id@,
            kind,
            request.active_gateway_node_id is Some,
            signing_time(request.request_signature),
            self.store.node(request.client_id@),
            signature_fault,
            now,
            max_age,
        ) is Some {
            self
        } else {
            ControlPlaneView {
                nonces: nonces_after(
                    self.nonces,
                    request.client_id@,
                    request.request_signature->0.signed_at,
                    request.request_signature->0.nonce@,
                    now,
                    max_age,
                ),
                ..self
            }
        }
    }

    /// Why a node may not vouch for a client.
    pub open spec fn sponsor_refusal(
        self,
        request: SponsoredClientRegistrationRequest,
        findings: SponsorshipFindings,
        now: Timestamp,
    ) -> Option<ControlPlaneErrorView> {
        vouched_nonce_refusal(
            self.nonces,
            request,
            findings,
            self.store.node(request.sponsor_node_id@),
            self.limits,
            now,
            self.config.heartbeat_signature_max_age,
        )
    }

    /// The state once the word of a sponsor was looked at: its nonce is used up where the rest of
    /// it is accepted.
    pub open spec fn sponsor_heard(
        self,
        request: SponsoredClientRegistrationRequest,
        findings: SponsorshipFindings,
        now: Timestamp,
    ) -> ControlPlaneView {
        ControlPlaneView {
            nonces: nonces_after_sponsorship(
                self.nonces,
                request,
                findings,
                self.store.node(request.sponsor_node_id@),
                self.limits,
                now,
                self.config.heartbeat_signature_max_age,
            ),
            ..self
        }
    }

    /// What a client that a node vouches for registers with.
    pub open spec fn vouched_claims(
        self,
        request: SponsoredClientRegistrationRequest,
    ) -> JoinTokenClaimsView {
        sponsored_claims(self.cluster(), request.sponsor_node_id@, request.bundle)
    }

    /// Why a client that a node vouches for is not registered: the word of the node is not
    /// accepted, no gateway could serve the client, or the client itself is refused.
    pub open spec fn sponsored_refusal(
        self,
        request: SponsoredClientRegistrationRequest,
        findings: SponsorshipFindings,
        key_findings: KeyFindings,
        now: Timestamp,
    ) -> Option<ControlPlaneErrorView> {
        let heard = self.sponsor_heard(request, findings, now);
        if self.sponsor_refusal(request, findings, now) is Some {
            self.sponsor_refusal(request, findings, now)
        } else if heard.gateway_refusal(now) is Some {
            heard.gateway_refusal(now)
        } else {
            heard.policy_read().enrollment_refusal(
                self.vouched_claims(request),
                participant_request(request.bundle.registration),
                key_findings,
                now,
            )
        }
    }

    /// The state after a node vouched for a client.
    pub open spec fn sponsored(
        self,
        request: SponsoredClientRegistrationRequest,
        findings: SponsorshipFindings,
        key_findings: KeyFindings,
        now: Timestamp,
    ) -> ControlPlaneView {
        let heard = self.sponsor_heard(request, findings, now);
        if self.sponsor_refusal(request, findings, now) is Some {
            heard
        } else if heard.gateway_refusal(now) is Some {
            heard.policy_read()
        } else {
            heard.policy_read().enrolled(
                self.vouched_claims(request),
                participant_request(request.bundle.registration),
                key_findings,
                now,
            )
        }
    }

    /// The client that a node vouches for, as it is registered.
    pub open spec fn sponsored_client(
        self,
        request: SponsoredClientRegistrationRequest,
        findings: SponsorshipFindings,
        now: Timestamp,
    ) -> NodeRecordView {
        self.sponsor_heard(request, findings, now).policy_read().registration(
            self.vouched_claims(request),
            participant_request(request.bundle.registration),
            now,
            MAX_ROUTE_CATALOG_UPDATE_RETRIES as nat,
        ).node
    }
}

impl ControlPlane {
    fn forget_node(&mut self, node_id: &NodeId, now: Timestamp) -> (r: Result<
        RemoveNodeResponse,
        ControlPlaneError,
    >)
        requires
            old(self).wf(),
        ensures
            final(self).wf(),
            refusal(r) == old(self)@.store.removal_refusal(node_id@),
            r matches Ok(removed) ==> old(self)@.removal_says(removed, node_id@, now),
            final(self)@ == (if r is Ok {
                old(self)@.without_node(node_id@)
            } else {
                old(self)@
            }),
    {
        let removed = self.store.remove_node(node_id)?;
        self.overlay = None;
        self.allocator = VpnAllocator::new(self.config.vpn_pool);
        Ok(
            RemoveNodeResponse {
                node: removed.node,
                removed_path_count: removed.removed_path_count,
                removed_health: removed.removed_health,
                removed_at: now,
            },
        )
    }

    /// Removes a node on the word of the administrator, and forgets what was pinned of its paths.
    pub fn admin_remove_node(&mut self, node_id: &NodeId, now: Timestamp) -> (r: Result<
        RemoveNodeResponse,
        ControlPlaneError,
    >)
        requires
            old(self).wf(),
        ensures
            final(self).wf(),
            refusal(r) == old(self)@.store.removal_refusal(node_id@),
            r matches Ok(removed) ==> old(self)@.removal_says(removed, node_id@, now),
            final(self)@ == (if r is Ok {
                ControlPlaneView {
                    pins: pins_without(old(self)@.pins, node_id@),
                    ..old(self)@.without_node(node_id@).counting_removal(true)
                }
            } else {
                old(self)@
            }),
    {
        let removed = self.forget_node(node_id, now)?;
        self.pins.forget_node(node_id);
        self.operations.record_node_removal(true);
        Ok(removed)
    }

    /// Removes a node that asks for it. `signature_fault` says why its signature does not verify,
    /// where it does not.
    pub fn remove_node(
        &mut self,
        request: &RemoveNodeRequest,
        signature_fault: &Option<String>,
        now: Timestamp,
    ) -> (r: Result<RemoveNodeResponse, ControlPlaneError>)
        requires
            old(self).wf(),
        ensures
            final(self).wf(),
            refusal(r) == old(self)@.leaving_refusal(*request, opt_view(*signature_fault), now),
            r matches Ok(removed) ==> old(self)@.removal_says(removed, request.node_id@, now),
            final(self)@ == (if r is Ok {
                old(self)@.without_node(request.node_id@).counting_removal(true)
            } else {
                old(self)@.counting_removal(false)
            }),
    {
        let node = self.store.get_node(&request.node_id);
        let result = match validate_remove_node_request(
            &request.node_id,
            node.as_ref(),
            request.signed_at,
            signature_fault,
            now,
            self.config.heartbeat_signature_max_age,
        ) {
            Ok(()) => self.forget_node(&request.node_id, now),
            Err(error) => Err(error),
        };
        self.operations.record_node_removal(result.is_ok());
        result
    }

    /// Pins a path or unpins it.
    pub fn set_admin_path_pin(&mut self, local: &NodeId, remote: &NodeId, pinned: bool) -> (r:
        Result<PathRecord, ControlPlaneError>)
        requires
            old(self).wf(),
        ensures
            final(self).wf(),
            ({
                let paths = old(self)@.paths_touching(local@);
                &&& refusal(r) == pin_refusal(
                    local@,
                    remote@,
                    old(self)@.store.node(local@) is Some,
                    old(self)@.store.node(remote@) is Some,
                    paths,
                )
                &&& match r {
                    Ok(path) => {
                        &&& path@ == (PathRecordView {
                            pinned,
                            ..path_between(paths, local@, remote@)->0
                        })
                        &&& final(self)@ == (ControlPlaneView {
                            pins: if pinned {
                                old(self)@.pins.insert(two(local@, remote@), true)
                            } else {
                                old(self)@.pins.remove(two(local@, remote@))
                            },
                            store: StoreView {
                                paths: paths_with(old(self)@.store.paths, path@),
                                ..old(self)@.store
                            },
                            ..old(self)@
                        })
                    },
                    Err(_) => final(self)@ == old(self)@,
                }
            }),
    {
        let local_registered = self.store.get_node(local).is_some();
        let remote_registered = self.store.get_node(remote).is_some();
        let paths = self.store.list_paths_for(local);
        assert(views(paths@) =~= old(self)@.paths_touching(local@));
        let path = self.pins.set_admin_path_pin(
            local,
            remote,
            local_registered,
            remote_registered,
            &paths,
            pinned,
        )?;
        self.store.upsert_path(path.duplicate());
        Ok(path)
    }

    fn rekey(
        &mut self,
        request: &RotateWireGuardKeyRequest,
        findings: &RotationFindings,
        now: Timestamp,
    ) -> (r: Result<RotateWireGuardKeyResponse, ControlPlaneError>)
        requires
            old(self).wf(),
        ensures
            final(self).wf(),
            ({
                let refused = old(self)@.rekeying_refusal(*request, *findings, now);
                let rekeyed = old(self)@.rekeyed(*request);
                if refused is Some {
                    refusal(r) == refused && final(self)@ == old(self)@
                } else {
                    &&& refusal(r) == rekeyed.policy_reading_refusal()
                    &&& final(self)@ == rekeyed.policy_read()
                    &&& r matches Ok(answer) ==> {
                        &&& Some(answer.node@) == rekeyed.store.node(request.node_id@)
                        &&& rekeyed.peer_map_says(answer.peer_map, answer.node@, now)
                        &&& rekeyed.relay_map_says(answer.relay_map, answer.node@, now)
                        &&& answer.rotated_at == now
                    }
                }
            }),
    {
        let node = self.store.get_node(&request.node_id);
        validate_wireguard_key_rotation_request(
            request,
            node.as_ref(),
            &findings.previous_key_fault,
            &findings.next_key_fault,
            &findings.signature_fault,
            now,
            self.config.heartbeat_signature_max_age,
        )?;
        let node = self.store.rotate_node_wireguard_public_key(
            &request.node_id,
            request.previous_wireguard_public_key.as_str(),
            request.next_wireguard_public_key.clone(),
        )?;
        proof {
            old(self).store.lemma_orderly();
            let id = request.node_id@;
            let known = old(self)@.store.node(id)->0;
            assert(old(self)@.store.nodes.dom().contains(one(id)));
            assert(one(id)[0] == one(known.node_id)[0]);
        }
        assert(self@ =~= old(self)@.rekeyed(*request));
        let (peer_map, relay_map, _) = self.maps_for(&node, now)?;
        Ok(RotateWireGuardKeyResponse { node, peer_map, relay_map, rotated_at: now })
    }

    /// Gives a node another WireGuard key, and counts whether that went well.
    pub fn rotate_wireguard_key(
        &mut self,
        request: &RotateWireGuardKeyRequest,
        findings: &RotationFindings,
        now: Timestamp,
    ) -> (r: Result<RotateWireGuardKeyResponse, ControlPlaneError>)
        requires
            old(self).wf(),
        ensures
            final(self).wf(),
            ({
                let refused = old(self)@.rekeying_refusal(*request, *findings, now);
                let rekeyed = old(self)@.rekeyed(*request);
                if refused is Some {
                    refusal(r) == refused && final(self)@ == old(self)@.counting_rotation(false)
                } else {
                    &&& refusal(r) == rekeyed.policy_reading_refusal()
                    &&& final(self)@ == rekeyed.policy_read().counting_rotation(r is Ok)
                    &&& r matches Ok(answer) ==> {
                        &&& Some(answer.node@) == rekeyed.store.node(request.node_id@)
                        &&& rekeyed.peer_map_says(answer.peer_map, answer.node@, now)
                        &&& rekeyed.relay_map_says(answer.relay_map, answer.node@, now)
                        &&& answer.rotated_at == now
                    }
                }
            }),
    {
        let result = self.rekey(request, findings, now);
        self.operations.record_wireguard_key_rotation(result.is_ok());
        result
    }

    /// The node that sends a signed query, where it is accepted. `signature_fault` says why the
    /// signature does not verify, where it does not.
    pub fn authenticate_node_query(
        &mut self,
        node_id: &NodeId,
        signature: &Option<RequestSignature>,
        signature_fault: &Option<String>,
        now: Timestamp,
    ) -> (r: Result<NodeRecord, ControlPlaneError>)
        requires
            old(self).wf(),
        ensures
            final(self).wf(),
            r matches Ok(node) ==> Some(node@) == old(self)@.store.node(node_id@),
            ({
                let max_age = old(self).config.heartbeat_signature_max_age;
                match query_refusal(
                    node_id@,
                    signing_time(*signature),
                    old(self)@.store.node(node_id@),
                    false,
                    opt_view(*signature_fault),
                    now,
                    max_age,
                ) {
                    Some(error) => refusal(r) == Some(error) && final(self)@ == old(self)@,
                    None => {
                        let at = signature->0.signed_at;
                        let nonce = signature->0.nonce@;
                        let log = old(self)@.nonces;
                        &&& refusal(r) == nonce_refusal(log, node_id@, at, nonce, now, max_age)
                        &&& final(self)@ == (ControlPlaneView {
                            nonces: nonces_after(log, node_id@, at, nonce, now, max_age),
                            ..old(self)@
                        })
                    },
                }
            }),
    {
        let node = self.store.get_node(node_id);
        authenticate_node_query(
            &mut self.nonces,
            node_id,
            signature,
            node.as_ref(),
            signature_fault,
            now,
            self.config.heartbeat_signature_max_age,
        )?;
        match node {
            Some(node) => Ok(node),
            None => Err(ControlPlaneError::NodeNotFound { node_id: node_id.clone() }),
        }
    }

    /// The node that asks for a path through the overlay, where its query is accepted.
    /// `query_fault` and `signature_fault` say what is wrong with the query and with its proof of
    /// identity, where something is.
    pub fn authenticate_overlay_path_query(
        &mut self,
        source: &NodeId,
        query_fault: &Option<String>,
        proof_of_identity: &RequestSignature,
        signature_fault: &Option<String>,
        now: Timestamp,
    ) -> (r: Result<NodeRecord, ControlPlaneError>)
        requires
            old(self).wf(),
        ensures
            final(self).wf(),
            r matches Ok(node) ==> Some(node@) == old(self)@.store.node(source@),
            match path_query_refusal(
                source@,
                opt_view(*query_fault),
                old(self)@.store.node(source@),
                opt_view(*signature_fault),
            ) {
                Some(error) => refusal(r) == Some(error) && final(self)@ == old(self)@,
                None => {
                    let max_age = old(self).config.heartbeat_signature_max_age;
                    let at = proof_of_identity.signed_at;
                    let nonce = proof_of_identity.nonce@;
                    let log = old(self)@.nonces;
                    &&& refusal(r) == nonce_refusal(log, source@, at, nonce, now, max_age)
                    &&& final(self)@ == (ControlPlaneView {
                        nonces: nonces_after(log, source@, at, nonce, now, max_age),
                        ..old(self)@
                    })
                },
            },
    {
        let node = self.store.get_node(source);
        authenticate_overlay_path_query(
            &mut self.nonces,
            source,
            query_fault,
            proof_of_identity,
            node.as_ref(),
            signature_fault,
            now,
            self.config.heartbeat_signature_max_age,
        )?;
        match node {
            Some(node) => Ok(node),
            None => Err(ControlPlaneError::NodeNotFound { node_id: source.clone() }),
        }
    }

    /// The node that wants to be known to the signalling service, where its request is accepted.
    /// `signature_fault` says why the signature does not verify, where it does not.
    pub fn authenticate_signal_node_upsert(
        &self,
        node_id: &NodeId,
        signed_at: Option<Timestamp>,
        signature_fault: &Option<String>,
        now: Timestamp,
    ) -> (r: Result<NodeRecord, ControlPlaneError>)
        requires
            self.wf(),
        ensures
            refusal(r) == node_request_refusal(
                node_id@,
                self@.store.node(node_id@),
                CLIENT_SIGNAL_REASON@,
                signed_at,
                opt_view(*signature_fault),
                now,
                self.config.heartbeat_signature_max_age,
            ),
            r matches Ok(node) ==> Some(node@) == self@.store.node(node_id@),
    {
        let node = self.store.get_node(node_id);
        authenticate_signal_node_upsert(
            node_id,
            node.as_ref(),
            signed_at,
            signature_fault,
            now,
            self.config.heartbeat_signature_max_age,
        )?;
        match node {
            Some(node) => Ok(node),
            None => Err(ControlPlaneError::NodeNotFound { node_id: node_id.clone() }),
        }
    }

    /// The client that sends a signed request, where it is accepted. `signature_fault` says why the
    /// signature does not verify, where it does not.
    pub fn authenticate_client_request(
        &mut self,
        request: &ClientControlRequest,
        kind: ClientRequestKind,
        signature_fault: &Option<String>,
        now: Timestamp,
    ) -> (r: Result<NodeRecord, ControlPlaneError>)
        requires
            old(self).wf(),
        ensures
            final(self).wf(),
            r matches Ok(client) ==> Some(client@) == old(self)@.store.node(request.client_id@),
            refusal(r) == old(self)@.client_refusal(
                *request,
                kind,
                opt_view(*signature_fault),
                now,
            ),
            final(self)@ == old(self)@.client_heard(
                *request,
                kind,
                opt_view(*signature_fault),
                now,
            ),
    {
        let client = self.store.get_node(&request.client_id);
        authenticate_client_request(
            &mut self.nonces,
            &request.client_id,
            kind,
            &request.active_gateway_node_id,
            &request.request_signature,
            client.as_ref(),
            signature_fault,
            now,
            self.config.heartbeat_signature_max_age,
        )?;
        match client {
            Some(client) => Ok(client),
            None => Err(ControlPlaneError::NodeNotFound { node_id: request.client_id.clone() }),
        }
    }

    /// Removes a client that asks for it. `signature_fault` says why its signature does not verify,
    /// where it does not.
    pub fn remove_client(
        &mut self,
        request: &ClientControlRequest,
        signature_fault: &Option<String>,
        now: Timestamp,
    ) -> (r: Result<RemoveClientResponse, ControlPlaneError>)
        requires
            old(self).wf(),
        ensures
            final(self).wf(),
            ({
                let id = request.client_id@;
                let fault = opt_view(*signature_fault);
                let kind = ClientRequestKind::Remove;
                let refused = old(self)@.client_refusal(*request, kind, fault, now);
                let heard = old(self)@.client_heard(*request, kind, fault, now);
                if refused is Some {
                    refusal(r) == refused && final(self)@ == heard
                } else {
                    &&& refusal(r) == old(self)@.store.removal_refusal(id)
                    &&& final(self)@ == (if r is Ok {
                        heard.without_node(id)
                    } else {
                        heard
                    })
                    &&& r matches Ok(removed) ==> Some(removed.client@) == old(self)@.store.node(
                        id,
                    ) && removed.removed_at == now
                }
            }),
    {
        self.authenticate_client_request(request, ClientRequestKind::Remove, signature_fault, now)?;
        let removed = self.forget_node(&request.client_id, now)?;
        Ok(RemoveClientResponse { client: removed.node, removed_at: now })
    }

    /// Changes the gateway that a client uses, and says whether it changed.
    pub fn update_client_gateway_selection(
        &mut self,
        client: &NodeRecord,
        requested_gateway: Option<&NodeId>,
        now: Timestamp,
    ) -> (r: Result<bool, ControlPlaneError>)
        requires
            old(self).wf(),
        ensures
            final(self).wf(),
            refusal(r) == old(self)@.policy_reading_refusal(),
            ({
                let change = old(self)@.gateway_change(client@, ref_view(requested_gateway), now);
                &&& r matches Ok(changed) ==> changed == !(change is Keep)
                &&& final(self)@ == (if r is Ok {
                    old(self)@.policy_read().with_gateway_change(client@.node_id, change)
                } else {
                    old(self)@
                })
            }),
    {
        let policy = self.current_cluster_policy()?;
        let peers = self.store.list_nodes();
        let health = self.store.list_health();
        let selections = self.store.list_client_gateway_selections();
        let change = update_client_gateway_selection(
            client,
            requested_gateway,
            &peers,
            &health,
            &selections,
            &policy,
            now,
        );
        match change {
            SelectionChange::Keep => Ok(false),
            SelectionChange::Select(selection) => {
                self.store.upsert_client_gateway_selection(selection);
                Ok(true)
            },
            SelectionChange::Forget => {
                self.store.remove_client_gateway_selection(&client.node_id);
                Ok(true)
            },
        }
    }

    /// Registers a client that a node vouches for. `findings` and `key_findings` are what was found
    /// out about the request and about the keys of the client.
    pub fn register_sponsored_client(
        &mut self,
        request: &SponsoredClientRegistrationRequest,
        findings: &SponsorshipFindings,
        key_findings: &KeyFindings,
        now: Timestamp,
    ) -> (r: Result<RegisterClientResponse, ControlPlaneError>)
        requires
            old(self).wf(),
        ensures
            final(self).wf(),
            refusal(r) == old(self)@.sponsored_refusal(*request, *findings, *key_findings, now),
            final(self)@ == old(self)@.sponsored(*request, *findings, *key_findings, now),
            r matches Ok(answer) ==> {
                &&& answer.client@ == old(self)@.sponsored_client(*request, *findings, now)
                &&& answer.cluster_policy@ == old(self)@.policy_in_force()
                &&& final(self)@.peer_map_says(answer.peer_map, answer.client@, now)
            },
    {
        let sponsor = self.store.get_node(&request.sponsor_node_id);
        authenticate_sponsor(
            &mut self.nonces,
            &self.config,
            &self.limits,
            request,
            findings,
            sponsor,
            now,
        )?;
        assert(self@ =~= old(self)@.sponsor_heard(*request, *findings, now));
        self.require_client_gateway(now)?;
        let claims = claims_for_sponsored_client(
            &self.config.cluster_id,
            &request.sponsor_node_id,
            &request.bundle,
        );
        self.register_client_with_claims(&claims, &request.bundle.registration, key_findings, now)
    }
}

/// Heartbeats, removals and changes of keys leave no two nodes with the same VPN address, where no
/// two had the same before.
pub proof fn law_operations_keep_addresses_apart(
    plane: ControlPlaneView,
    request: HeartbeatRequestView,
    findings: HeartbeatFindings,
    now: Timestamp,
    leaving: Seq<char>,
    rotation: RotateWireGuardKeyRequest,
)
    requires
        plane.store.keyed(),
        addresses_apart(plane.store.nodes),
    ensures
        addresses_apart(plane.after_heartbeat(request, findings, now).store.nodes),
        addresses_apart(plane.without_node(leaving).store.nodes),
        plane.store.node(rotation.node_id@) is Some ==> addresses_apart(
            plane.rekeyed(rotation).store.nodes,
        ),
{
    let nodes = plane.store.nodes;
    let beating = plane.after_heartbeat(request, findings, now).store.nodes;
    assert forall|key: Seq<Seq<char>>| #[trigger] beating.dom().contains(key) implies nodes.dom()
        .contains(key) && beating[key].vpn_ip == nodes[key].vpn_ip by {}
    if let Some(node) = plane.store.node(rotation.node_id@) {
        let rekeyed = plane.rekeyed(rotation).store.nodes;
        assert(one(rotation.node_id@)[0] == one(node.node_id)[0]);
        assert forall|key: Seq<Seq<char>>| #[trigger] rekeyed.dom().contains(key) implies nodes.dom()
            .contains(key) && rekeyed[key].vpn_ip == nodes[key].vpn_ip by {}
    }
}

/// A node that was removed is unknown from then on: its heartbeats, its signed queries and its
/// request to leave are refused as those of an unknown node.
pub proof fn law_removed_node_is_unknown(
    plane: ControlPlaneView,
    node_id: Seq<char>,
    request: HeartbeatRequestView,
    findings: HeartbeatFindings,
    signed_at: Timestamp,
    signature_fault: Option<Seq<char>>,
    leaving: RemoveNodeRequest,
    now: Timestamp,
)
    requires
        request.node_id == node_id,
        leaving.node_id@ == node_id,
    ensures
        ({
            let after = plane.without_node(node_id);
            let unknown = not_found(node_id);
            &&& after.store.node(node_id) is None
            &&& after.heartbeat_refusal(request, findings, now) == unknown
            &&& query_refusal(
                node_id,
                Some(signed_at),
                after.store.node(node_id),
                false,
                signature_fault,
                now,
                plane.config.heartbeat_signature_max_age,
            ) == unknown
            &&& after.leaving_refusal(leaving, signature_fault, now) == unknown
        }),
{
}

/// A signed heartbeat counts once: after it was accepted it is refused, whenever it is sent again,
/// and the time of the last accepted signature stays as it is. Where nothing but the earlier one
/// speaks against it, it is refused as not newer.
pub proof fn law_heartbeat_counts_once(
    plane: ControlPlaneView,
    request: HeartbeatRequestView,
    findings: HeartbeatFindings,
    now: Timestamp,
    later_findings: HeartbeatFindings,
    later: Timestamp,
)
    requires
        request.signed_at is Some,
        plane.heartbeat_refusal(request, findings, now) is None,
    ensures
        plane.after_heartbeat(request, findings, now).heartbeat_refusal(
            request,
            later_findings,
            later,
        ) is Some,
        plane.after_heartbeat(request, findings, now).after_heartbeat(
            request,
            later_findings,
            later,
        ).store.signatures == plane.after_heartbeat(request, findings, now).store.signatures,
        ({
            let after = plane.after_heartbeat(request, findings, now);
            let at = request.signed_at->0;
            heartbeat_refusal(
                after.config,
                after.limits,
                request,
                after.store.node(request.node_id)->0.token_policy,
                after.policy_in_force(),
                opt_view(later_findings.signature_fault),
                None,
                later,
            ) is None ==> after.heartbeat_refusal(request, later_findings, later) == Some(
                ControlPlaneErrorView::NodeSignatureRejected {
                    node_id: request.node_id,
                    reason: "signed_at "@ + timestamp_display(at)
                        + " is not newer than last accepted heartbeat "@ + timestamp_display(at),
                },
            )
        }),
{
    let after = plane.after_heartbeat(request, findings, now);
    plane.lemma_policy_read();
    assert(after.policy_reading_refusal() is None);
    let key = one(request.node_id);
    assert(at(after.store.signatures, key) == request.signed_at);
    assert(after.policy_read().store.signatures == after.store.signatures);
    let update = after.reported(request, later);
    assert(update.accepted_signature_at == request.signed_at);
    assert(late_refusal(
        update,
        at(after.store.signatures, key),
        at(after.policy_read().store.health, key),
    ) is Some);
}

/// A sponsored registration is not used twice. After a client was registered on the word of a node,
/// the same request is refused as a replay at every later time, where neither the bundle nor the
/// node nor the age of the signature speaks against it. What is left out is a request that was
/// signed ahead of time, at the times at which its nonce is forgotten and its signature still
/// counts.
pub proof fn law_sponsored_registration_is_not_replayed(
    plane: ControlPlaneView,
    request: SponsoredClientRegistrationRequest,
    findings: SponsorshipFindings,
    key_findings: KeyFindings,
    now: Timestamp,
    later_findings: SponsorshipFindings,
    later_key_findings: KeyFindings,
    later: Timestamp,
)
    requires
        plane.sponsored_refusal(request, findings, key_findings, now) is None,
        now.at() <= later.at(),
        later.at() - now.at() <= plane.config.heartbeat_signature_max_age.len(),
        within_skew(
            request.request_signature->0.signed_at,
            later,
            plane.config.heartbeat_signature_max_age,
        ),
        vouching_refusal(
            request,
            later_findings,
            plane.sponsored(request, findings, key_findings, now).store.node(
                request.sponsor_node_id@,
            ),
            plane.limits,
            later,
            plane.config.heartbeat_signature_max_age,
        ) is None,
    ensures
        plane.sponsored(request, findings, key_findings, now).sponsored_refusal(
            request,
            later_findings,
            later_key_findings,
            later,
        ) == Some(
            ControlPlaneErrorView::NodeRequestReplay { node_id: request.sponsor_node_id@ },
        ),
{
    let heard = plane.sponsor_heard(request, findings, now);
    let after = plane.sponsored(request, findings, key_findings, now);
    heard.policy_read().lemma_registration(
        plane.vouched_claims(request),
        participant_request(request.bundle.registration),
        now,
        MAX_ROUTE_CATALOG_UPDATE_RETRIES as nat,
    );
    assert(after.nonces == heard.nonces);
    law_sponsorship_is_used_once(
        plane.nonces,
        request,
        findings,
        plane.store.node(request.sponsor_node_id@),
        plane.limits,
        now,
        Seq::empty(),
        later_findings,
        after.store.node(request.sponsor_node_id@),
        later,
        plane.config.heartbeat_signature_max_age,
    );
}

/// A sponsored registration can be tried again. After a client was registered on the word of a
/// node, the node may vouch for it once more with the same bundle and a signature of its own: where
/// its word is accepted again, under a nonce that is not known yet, and a gateway and an address are
/// still there, the client is registered with the identifier and the address that it got first.
pub proof fn law_sponsored_registration_is_repeatable(
    plane: ControlPlaneView,
    request: SponsoredClientRegistrationRequest,
    findings: SponsorshipFindings,
    key_findings: KeyFindings,
    now: Timestamp,
    again: SponsoredClientRegistrationRequest,
    later_findings: SponsorshipFindings,
    later: Timestamp,
)
    requires
        plane.store.keyed(),
        plane.allocator.next_host_offset >= 1,
        plane.sponsored_refusal(request, findings, key_findings, now) is None,
        again.sponsor_node_id@ == request.sponsor_node_id@,
        same_bundle(again.bundle, request.bundle),
        ({
            let after = plane.sponsored(request, findings, key_findings, now);
            let id = again.sponsor_node_id@;
            let signature = again.request_signature->0;
            let max_age = plane.config.heartbeat_signature_max_age;
            let known = recent(after.nonces, later, max_age);
            &&& vouching_refusal(
                again,
                later_findings,
                after.store.node(id),
                plane.limits,
                later,
                max_age,
            ) is None
            &&& within_skew(signature.signed_at, later, max_age)
            &&& !known.dom().contains(two(id, signature.nonce@))
            &&& known.dom().len() < MAX_ACCEPTED_NODE_QUERY_NONCES
            &&& after.gateways(later).len() > 0
            &&& after.allocator.next_address(after.reserved_addresses()) is Some
        }),
    ensures
        ({
            let after = plane.sponsored(request, findings, key_findings, now);
            let first = plane.sponsored_client(request, findings, now);
            let second = after.sponsored_client(again, later_findings, later);
            &&& after.sponsored_refusal(again, later_findings, key_findings, later) is None
            &&& second.node_id == first.node_id
            &&& second.vpn_ip == first.vpn_ip
        }),
{
    let tries = MAX_ROUTE_CATALOG_UPDATE_RETRIES as nat;
    let claims = plane.vouched_claims(request);
    let participant = participant_request(request.bundle.registration);
    let ready = plane.sponsor_heard(request, findings, now).policy_read();
    let after = plane.sponsored(request, findings, key_findings, now);
    let heard = after.sponsor_heard(again, later_findings, later);
    ready.lemma_registration(claims, participant, now, tries);
    assert(after.policy_reading_refusal() is None);
    assert(heard.policy_reading_refusal() is None);
    assert(heard.policy_read() =~= heard);
    assert(heard.gateways(later) == after.gateways(later));
    assert(after.vouched_claims(again) == claims);
    lemma_client_admission_is_timeless(
        claims,
        request.bundle.registration,
        key_findings,
        now,
        later,
        plane.config.heartbeat_signature_max_age,
    );
    law_registration_is_repeatable(
        ready,
        claims,
        participant,
        key_findings,
        now,
        participant,
        key_findings,
        later,
    );
}

/// A node that vouches for a client twice. After a client was registered on the word of a node, and
/// before the bundle expires and the signature is too old, the very same request is refused as a
/// replay; with the same bundle under a signature of its own and a nonce that is not known yet, the
/// client is registered with the identifier and the address that it got first, where a gateway and
/// an address are still there and there is room for the nonce. What is found out about the requests
/// is the same each time.
pub proof fn law_sponsor_vouches_twice(
    plane: ControlPlaneView,
    request: SponsoredClientRegistrationRequest,
    findings: SponsorshipFindings,
    key_findings: KeyFindings,
    now: Timestamp,
    again: SponsoredClientRegistrationRequest,
    later: Timestamp,
)
    requires
        plane.store.keyed(),
        plane.allocator.next_host_offset >= 1,
        plane.sponsored_refusal(request, findings, key_findings, now) is None,
        now.at() <= later.at() < request.bundle.expires_at.at(),
        later.at() - now.at() <= plane.config.heartbeat_signature_max_age.len(),
        within_skew(
            request.request_signature->0.signed_at,
            later,
            plane.config.heartbeat_signature_max_age,
        ),
        again.sponsor_node_id@ == request.sponsor_node_id@,
        same_bundle(again.bundle, request.bundle),
    ensures
        plane.sponsored(request, findings, key_findings, now).sponsored_refusal(
            request,
            findings,
            key_findings,
            later,
        ) == Some(
            ControlPlaneErrorView::NodeRequestReplay { node_id: request.sponsor_node_id@ },
        ),
        ({
            let after = plane.sponsored(request, findings, key_findings, now);
            let max_age = plane.config.heartbeat_signature_max_age;
            let known = recent(after.nonces, later, max_age);
            let first = plane.sponsored_client(request, findings, now);
            let second = after.sponsored_client(again, findings, later);
            again.request_signature matches Some(signature) && within_skew(
                signature.signed_at,
                later,
                max_age,
            ) && !known.dom().contains(two(again.sponsor_node_id@, signature.nonce@))
                && known.dom().len() < MAX_ACCEPTED_NODE_QUERY_NONCES && after.gateways(later).len()
                > 0 && after.allocator.next_address(after.reserved_addresses()) is Some ==> {
                &&& after.sponsored_refusal(again, findings, key_findings, later) is None
                &&& second.node_id == first.node_id
                &&& second.vpn_ip == first.vpn_ip
            }
        }),
{
    let tries = MAX_ROUTE_CATALOG_UPDATE_RETRIES as nat;
    let id = request.sponsor_node_id@;
    let claims = plane.vouched_claims(request);
    let participant = participant_request(request.bundle.registration);
    let ready = plane.sponsor_heard(request, findings, now).policy_read();
    let after = plane.sponsored(request, findings, key_findings, now);
    assert(ready.store.nodes == plane.store.nodes);
    law_registered_node_is_stored(ready, claims, participant, key_findings, now);
    assert(ready.registers(
        claims,
        participant,
        ready.registration(claims, participant, now, tries),
    ));
    assert(id != participant.node_id);
    assert(after.store.node(id) == plane.store.node(id));
    law_sponsored_registration_is_not_replayed(
        plane,
        request,
        findings,
        key_findings,
        now,
        findings,
        key_findings,
        later,
    );
    let max_age = plane.config.heartbeat_signature_max_age;
    let signature = again.request_signature->0;
    let known = recent(after.nonces, later, max_age);
    if again.request_signature is Some && within_skew(signature.signed_at, later, max_age)
        && !known.dom().contains(two(id, signature.nonce@)) && known.dom().len()
        < MAX_ACCEPTED_NODE_QUERY_NONCES && after.gateways(later).len() > 0
        && after.allocator.next_address(after.reserved_addresses()) is Some {
        law_sponsored_registration_is_repeatable(
            plane,
            request,
            findings,
            key_findings,
            now,
            again,
            findings,
            later,
        );
    }
}

/// A node that takes another WireGuard key has that key from then on, and nothing else of it or of
/// another node changes.
pub proof fn law_rotation_changes_the_key_alone(
    plane: ControlPlaneView,
    request: RotateWireGuardKeyRequest,
    findings: RotationFindings,
    now: Timestamp,
)
    requires
        plane.store.keyed(),
        plane.rekeying_refusal(request, findings, now) is None,
    ensures
        ({
            let id = request.node_id@;
            let after = plane.rekeyed(request).store;
            &&& after.node(id) == Some(
                NodeRecordView {
                    wireguard_public_key: request.next_wireguard_public_key@,
                    ..plane.store.node(id)->0
                },
            )
            &&& forall|other: Seq<char>|
                other != id ==> #[trigger] after.node(other) == plane.store.node(other)
        }),
{
    let id = request.node_id@;
    let node = plane.store.node(id)->0;
    assert(one(id)[0] == one(node.node_id)[0]);
    assert forall|other: Seq<char>| other != id implies #[trigger] plane.rekeyed(
        request,
    ).store.node(other) == plane.store.node(other) by {
        assert(one(other)[0] != one(id)[0]);
    }
}

/// When a node is removed, it is the one that was registered, and there were as many paths of it as
/// are said: those that had it at one of their ends.
pub proof fn law_removal_counts_the_paths_of_the_node(
    plane: ControlPlaneView,
    removed: RemoveNodeResponse,
    node_id: Seq<char>,
    now: Timestamp,
)
    requires
        plane.removal_says(removed, node_id, now),
    ensures
        plane.store.nodes.dom().contains(seq![node_id]),
        removed.node@ == plane.store.nodes[seq![node_id]],
        removed.removed_health == plane.store.health.dom().contains(seq![node_id]),
        removed.removed_path_count == crate::lists::places(
            plane.store.paths,
            |path: PathRecordView| path.key.local == node_id || path.key.remote == node_id,
            plane.store.paths.len(),
        ).len(),
        removed.removed_at == now,
{
    let paths = plane.store.paths;
    let n = paths.len();
    let of_it = |path: PathRecordView| path.key.local == node_id || path.key.remote == node_id;
    let others = |path: PathRecordView| !crate::store::path_touches(path, node_id);
    let any = |path: PathRecordView| true;
    crate::lists::lemma_kept_len(paths, others, n);
    crate::lists::lemma_how_many_split(paths, of_it, others, any, n);
    crate::lists::lemma_how_many_all(paths, any, n);
    crate::lists::lemma_how_many_places(paths, of_it, n);
}

/// A removal or a rotation counts once, as a success or as a failure, and moves no other count; counts
/// start anew after the highest number.
pub proof fn law_operations_count_once(plane: ControlPlaneView, success: bool)
    ensures
        ({
            let before = plane.operations;
            let removed = plane.counting_removal(success).operations;
            let rotated = plane.counting_rotation(success).operations;
            let next = |count: u64| (count + 1) % 0x1_0000_0000_0000_0000;
            &&& removed.wireguard_key_rotation_success_count
                == before.wireguard_key_rotation_success_count
            &&& removed.wireguard_key_rotation_failure_count
                == before.wireguard_key_rotation_failure_count
            &&& rotated.node_removal_success_count == before.node_removal_success_count
            &&& rotated.node_removal_failure_count == before.node_removal_failure_count
            &&& success ==> removed.node_removal_success_count == next(
                before.node_removal_success_count,
            ) && removed.node_removal_failure_count == before.node_removal_failure_count
                && rotated.wireguard_key_rotation_success_count == next(
                before.wireguard_key_rotation_success_count,
            ) && rotated.wireguard_key_rotation_failure_count
                == before.wireguard_key_rotation_failure_count
            &&& !success ==> removed.node_removal_failure_count == next(
                before.node_removal_failure_count,
            ) && removed.node_removal_success_count == before.node_removal_success_count
                && rotated.wireguard_key_rotation_failure_count == next(
                before.wireguard_key_rotation_failure_count,
            ) && rotated.wireguard_key_rotation_success_count
                == before.wireguard_key_rotation_success_count
        }),
{
}

/// A node leaves exactly where it is registered as a node and asks for it, signed soundly and lately,
/// and the state of the overlay can still be counted.
pub proof fn law_nodes_leave_on_their_own_request(
    plane: ControlPlaneView,
    request: RemoveNodeRequest,
    signature_fault: Option<Seq<char>>,
    now: Timestamp,
)
    ensures
        plane.leaving_refusal(request, signature_fault, now) is None <==> {
            let key = seq![request.node_id@];
            let window = plane.config.heartbeat_signature_max_age;
            &&& plane.store.nodes.dom().contains(key)
            &&& plane.store.nodes[key].role != "client"@
            &&& request.signed_at is Some && signature_fault is None
            &&& window.fits_signed()
            &&& request.signed_at->0.at() - now.at() <= window.len()
            &&& now.at() - request.signed_at->0.at() <= window.len()
            &&& plane.store.epoch(plane.store.nodes[key].cluster_id) < u64::MAX
        },
{
}

/// What a client has chosen is written, kept or forgotten as decided, and nothing else changes.
pub proof fn law_choices_of_others_stay(
    plane: ControlPlaneView,
    client_id: Seq<char>,
    change: SelectionChangeView,
    other: Seq<char>,
)
    requires
        other != client_id,
        change matches SelectionChangeView::Select(selection) ==> selection.client_id == client_id,
    ensures
        ({
            let before = plane.store.selections;
            let after = plane.with_gateway_change(client_id, change).store.selections;
            &&& change is Keep ==> after == before
            &&& change is Forget ==> !after.dom().contains(seq![client_id])
            &&& change matches SelectionChangeView::Select(selection) ==> after.dom().contains(
                seq![client_id],
            ) && after[seq![client_id]] == selection
            &&& after.dom().contains(seq![other]) == before.dom().contains(seq![other])
            &&& before.dom().contains(seq![other]) ==> after[seq![other]] == before[seq![other]]
            &&& plane.with_gateway_change(client_id, change).store.nodes == plane.store.nodes
        }),
{
    assert(seq![other][0] != seq![client_id][0]);
}

/// A client is heard exactly where it is registered as one, its request is signed soundly and lately,
/// does not choose a gateway while it asks to be removed, and was not heard before. Its nonce is kept
/// exactly where the request itself is in order.
pub proof fn law_clients_are_heard_once(
    plane: ControlPlaneView,
    request: ClientControlRequest,
    kind: ClientRequestKind,
    signature_fault: Option<Seq<char>>,
    now: Timestamp,
)
    ensures
        ({
            let key = seq![request.client_id@];
            let window = plane.config.heartbeat_signature_max_age;
            let signature = request.request_signature->0;
            let in_order = {
                &&& plane.store.nodes.dom().contains(key)
                &&& plane.store.nodes[key].role == "client"@
                &&& request.request_signature is Some && signature_fault is None
                &&& window.fits_signed()
                &&& signature.signed_at.at() - now.at() <= window.len()
                &&& now.at() - signature.signed_at.at() <= window.len()
                &&& !(kind == ClientRequestKind::Remove && request.active_gateway_node_id is Some)
            };
            let heard = plane.client_heard(request, kind, signature_fault, now);
            &&& plane.client_refusal(request, kind, signature_fault, now) is None <==> in_order
                && nonce_refusal(
                plane.nonces,
                request.client_id@,
                signature.signed_at,
                signature.nonce@,
                now,
                window,
            ) is None
            &&& heard.store == plane.store
            &&& !in_order ==> heard == plane
            &&& in_order ==> heard.nonces == nonces_after(
                plane.nonces,
                request.client_id@,
                signature.signed_at,
                signature.nonce@,
                now,
                window,
            )
        }),
{
}

/// A removed node leaves its address free to be given out again, from the first address on, and the
/// overlay is looked at anew under its next state.
pub proof fn law_removed_node_frees_its_address(plane: ControlPlaneView, node_id: Seq<char>)
    requires
        plane.store.nodes.dom().contains(seq![node_id]),
        plane.store.epoch(plane.store.nodes[seq![node_id]].cluster_id) < u64::MAX,
    ensures
        ({
            let cluster = plane.store.nodes[seq![node_id]].cluster_id;
            let after = plane.without_node(node_id);
            &&& plane.store.removal_refusal(node_id) is None
            &&& after.allocator.pool == plane.config.vpn_pool
            &&& after.allocator.next_host_offset == 1
            &&& after.overlay is None
            &&& after.store.epoch(cluster) == plane.store.epoch(cluster) + 1
            &&& after.store.nodes == plane.store.nodes.remove(seq![node_id])
        }),
{
}

} // verus!
