//! Signed requests of nodes and clients: who may send them, when, and how often.

use vstd::prelude::*;

use crate::error::{refusal, ControlPlaneError, ControlPlaneErrorView};
use crate::ids::{role_is_client, NodeId, ScopedName};
use crate::map::{OrderedMap, TextKey};
use crate::store::two;
use crate::text::{decimal, decimal_text};
use crate::time::{
    timestamp_display, timestamp_text, timestamp_within_skew, within_skew, Span, Timestamp,
};
use crate::types::{opt_view, ref_view, NodeRecord, NodeRecordView};

verus! {

/// How many nonces of requests are kept.
pub const MAX_ACCEPTED_NODE_QUERY_NONCES: usize = 131_072;

/// When a request was signed, and its nonce.
#[derive(Debug)]
pub struct RequestSignature {
    pub signed_at: Timestamp,
    pub nonce: String,
}

/// What a client asks for.
#[derive(Debug, Clone, Copy, PartialEq, Eq, Structural)]
pub enum ClientRequestKind {
    PeerMap,
    Remove,
}

/// The refusal of a request whose signature is not accepted.
pub open spec fn signature_rejection(node_id: Seq<char>, reason: Seq<char>) -> Option<
    ControlPlaneErrorView,
> {
    Some(ControlPlaneErrorView::NodeSignatureRejected { node_id, reason })
}

/// The refusal of an update that a node or client sent.
pub open spec fn rejected_update(node_id: Seq<char>, reason: Seq<char>) -> Option<
    ControlPlaneErrorView,
> {
    Some(ControlPlaneErrorView::NodeUpdateRejected { node_id, reason })
}

/// A request was signed too long ago, or too far in the future.
pub open spec fn window_refusal(
    node_id: Seq<char>,
    signed_at: Timestamp,
    now: Timestamp,
    max_age: Span,
) -> Option<ControlPlaneErrorView> {
    if within_skew(signed_at, now, max_age) {
        None
    } else {
        signature_rejection(
            node_id,
            "signed_at "@ + timestamp_display(signed_at) + " is outside the allowed "@ + decimal(
                max_age.seconds as nat,
            ) + "s window"@,
        )
    }
}

fn check_window(node_id: &NodeId, signed_at: Timestamp, now: Timestamp, max_age: Span) -> (r: Result<
    (),
    ControlPlaneError,
>)
    ensures
        refusal(r) == window_refusal(node_id@, signed_at, now, max_age),
{
    if timestamp_within_skew(signed_at, now, max_age) {
        return Ok(());
    }
    Err(
        ControlPlaneError::NodeSignatureRejected {
            node_id: node_id.clone(),
            reason: "signed_at ".to_owned().concat(timestamp_text(signed_at).as_str()).concat(
                " is outside the allowed ",
            ).concat(decimal_text(max_age.seconds).as_str()).concat("s window"),
        },
    )
}

/// Why a signature is not accepted: there is none, it does not verify, or it is too old or too new.
pub open spec fn signature_refusal(
    node_id: Seq<char>,
    signed_at: Option<Timestamp>,
    signature_fault: Option<Seq<char>>,
    now: Timestamp,
    max_age: Span,
) -> Option<ControlPlaneErrorView> {
    match signed_at {
        None => Some(ControlPlaneErrorView::NodeSignatureRequired { node_id }),
        Some(at) => match signature_fault {
            Some(fault) => signature_rejection(node_id, fault),
            None => window_refusal(node_id, at, now, max_age),
        },
    }
}

fn check_verified(node_id: &NodeId, signature_fault: &Option<String>) -> (r: Result<
    (),
    ControlPlaneError,
>)
    ensures
        refusal(r) == (match opt_view(*signature_fault) {
            Some(fault) => signature_rejection(node_id@, fault),
            None => None,
        }),
{
    match signature_fault {
        Some(fault) => Err(
            ControlPlaneError::NodeSignatureRejected {
                node_id: node_id.clone(),
                reason: fault.clone(),
            },
        ),
        None => Ok(()),
    }
}

fn check_signature(
    node_id: &NodeId,
    signed_at: Option<Timestamp>,
    signature_fault: &Option<String>,
    now: Timestamp,
    max_age: Span,
) -> (r: Result<(), ControlPlaneError>)
    ensures
        refusal(r) == signature_refusal(
            node_id@,
            signed_at,
            opt_view(*signature_fault),
            now,
            max_age,
        ),
{
    let at = match signed_at {
        None => {
            return Err(ControlPlaneError::NodeSignatureRequired { node_id: node_id.clone() });
        },
        Some(at) => at,
    };
    check_verified(node_id, signature_fault)?;
    check_window(node_id, at, now, max_age)
}

/// The nonces of the requests that were accepted, with the time of acceptance.
#[derive(Debug)]
pub struct AcceptedNonces {
    pub entries: OrderedMap<ScopedName, Timestamp>,
}

impl View for AcceptedNonces {
    type V = Map<Seq<Seq<char>>, Timestamp>;

    open spec fn view(&self) -> Map<Seq<Seq<char>>, Timestamp> {
        self.entries@
    }
}

/// The nonces that are not older than the signatures that are accepted.
pub open spec fn recent(
    log: Map<Seq<Seq<char>>, Timestamp>,
    now: Timestamp,
    max_age: Span,
) -> Map<Seq<Seq<char>>, Timestamp> {
    Map::new(
        |key: Seq<Seq<char>>| log.dom().contains(key) && now.at() - log[key].at() <= max_age.len(),
        |key: Seq<Seq<char>>| log[key],
    )
}

/// Why the nonce of a request is not accepted.
pub open spec fn nonce_refusal(
    log: Map<Seq<Seq<char>>, Timestamp>,
    node_id: Seq<char>,
    signed_at: Timestamp,
    nonce: Seq<char>,
    now: Timestamp,
    max_age: Span,
) -> Option<ControlPlaneErrorView> {
    let known = recent(log, now, max_age);
    if window_refusal(node_id, signed_at, now, max_age) is Some {
        window_refusal(node_id, signed_at, now, max_age)
    } else if known.dom().contains(two(node_id, nonce)) {
        Some(ControlPlaneErrorView::NodeRequestReplay { node_id })
    } else if known.dom().len() >= MAX_ACCEPTED_NODE_QUERY_NONCES {
        Some(ControlPlaneErrorView::NodeRequestAuthenticationCapacity)
    } else {
        None
    }
}

/// The nonces that are kept after a request: those that are too old are dropped, and that of the
/// request is added where it is accepted. A request outside of the window changes nothing.
pub open spec fn nonces_after(
    log: Map<Seq<Seq<char>>, Timestamp>,
    node_id: Seq<char>,
    signed_at: Timestamp,
    nonce: Seq<char>,
    now: Timestamp,
    max_age: Span,
) -> Map<Seq<Seq<char>>, Timestamp> {
    if window_refusal(node_id, signed_at, now, max_age) is Some {
        log
    } else if nonce_refusal(log, node_id, signed_at, nonce, now, max_age) is Some {
        recent(log, now, max_age)
    } else {
        recent(log, now, max_age).insert(two(node_id, nonce), now)
    }
}

impl AcceptedNonces {
    /// The entries stand in the order of their keys.
    pub open spec fn wf(&self) -> bool {
        self.entries.wf()
    }

    /// No nonce yet.
    pub fn new() -> (r: Self)
        ensures
            r.wf(),
            r@ == Map::<Seq<Seq<char>>, Timestamp>::empty(),
    {
        AcceptedNonces { entries: OrderedMap::new() }
    }

    fn drop_old(&mut self, now: Timestamp, max_age: Span)
        requires
            old(self).wf(),
        ensures
            final(self).wf(),
            final(self)@ == recent(old(self)@, now, max_age),
    {
        let ghost before = self@;
        let mut i: usize = 0;
        while i < self.entries.entries.len()
            invariant
                self.wf(),
                i <= self.entries.entries@.len(),
                forall|key: Seq<Seq<char>>| #[trigger]
                    self@.dom().contains(key) ==> before.dom().contains(key) && self@[key]
                        == before[key],
                forall|key: Seq<Seq<char>>|
                    #![trigger before.dom().contains(key)]
                    before.dom().contains(key) && !self@.dom().contains(key) ==> now.at()
                        - before[key].at() > max_age.len(),
                forall|k: int|
                    0 <= k < i ==> now.at() - (#[trigger] self.entries.entries@[k]).value.at()
                        <= max_age.len(),
            decreases self.entries.entries@.len() - i,
        {
            proof {
                crate::map::lemma_key_position(self.entries.entries@, i as int);
            }
            if now.total_nanos() - self.entries.entries[i].value.total_nanos()
                > max_age.total_nanos() {
                let ghost held = self.entries.entries@;
                let ghost gone = self.entries.entries@[i as int];
                let ghost map = self@;
                assert(map.dom().contains(gone.key.parts()) && map[gone.key.parts()] == gone.value);
                assert(before[gone.key.parts()] == gone.value);
                let removed = self.entries.remove_at(i);
                assert forall|key: Seq<Seq<char>>| #[trigger] self@.dom().contains(key) implies
                    before.dom().contains(key) && self@[key] == before[key] by {
                    assert(map.dom().contains(key) && map[key] == self@[key]);
                }
                assert forall|key: Seq<Seq<char>>|
                    #![trigger before.dom().contains(key)]
                    before.dom().contains(key) && !self@.dom().contains(key) implies now.at()
                    - before[key].at() > max_age.len() by {
                    if map.dom().contains(key) {
                        assert(key == gone.key.parts());
                    }
                }
                assert forall|k: int| 0 <= k < i implies now.at() - (
                #[trigger] self.entries.entries@[k]).value.at() <= max_age.len() by {
                    assert(self.entries.entries@[k] == held[k]);
                }
            } else {
                i = i + 1;
            }
        }
        assert forall|key: Seq<Seq<char>>| self@.dom().contains(key) implies now.at()
            - self@[key].at() <= max_age.len() by {
            let k = crate::map::key_position(self.entries.entries@, key);
            assert(self.entries.entries@[k].key.parts() == key);
        }
        assert(self@ =~= recent(before, now, max_age));
    }

    /// Takes note of the nonce of a request, and refuses one that was used before.
    pub fn accept_node_query_nonce(
        &mut self,
        node_id: &NodeId,
        signed_at: Timestamp,
        nonce: &str,
        now: Timestamp,
        max_age: Span,
    ) -> (r: Result<(), ControlPlaneError>)
        requires
            old(self).wf(),
        ensures
            final(self).wf(),
            refusal(r) == nonce_refusal(old(self)@, node_id@, signed_at, nonce@, now, max_age),
            final(self)@ == nonces_after(old(self)@, node_id@, signed_at, nonce@, now, max_age),
    {
        check_window(node_id, signed_at, now, max_age)?;
        let key = ScopedName { scope: node_id.as_str().to_owned(), name: nonce.to_owned() };
        self.drop_old(now, max_age);
        assert(key.parts() =~= two(node_id@, nonce@));
        if self.entries.contains_key(&key) {
            return Err(ControlPlaneError::NodeRequestReplay { node_id: node_id.clone() });
        }
        proof {
            self.entries.lemma_len();
        }
        if self.entries.len() >= MAX_ACCEPTED_NODE_QUERY_NONCES {
            return Err(ControlPlaneError::NodeRequestAuthenticationCapacity);
        }
        let earlier = self.entries.insert(key, now);
        Ok(())
    }
}

/// Why the sender of a request is not accepted: it is not registered, or it is a client where a
/// node is wanted, or the other way round.
pub open spec fn sender_refusal(
    node_id: Seq<char>,
    node: Option<NodeRecordView>,
    wants_client: bool,
) -> Option<ControlPlaneErrorView> {
    match node {
        None => Some(ControlPlaneErrorView::NodeNotFound { node_id }),
        Some(node) => if wants_client && !role_is_client(node.role) {
            signature_rejection(node_id, "node identities cannot use the client control API"@)
        } else if !wants_client && role_is_client(node.role) {
            signature_rejection(node_id, "client identities must use the client control API"@)
        } else {
            None
        },
    }
}

fn check_sender(node_id: &NodeId, node: Option<&NodeRecord>, wants_client: bool) -> (r: Result<
    (),
    ControlPlaneError,
>)
    ensures
        refusal(r) == sender_refusal(node_id@, ref_view(node), wants_client),
{
    match node {
        None => Err(ControlPlaneError::NodeNotFound { node_id: node_id.clone() }),
        Some(node) => {
            if wants_client && !node.role.is_client() {
                Err(
                    ControlPlaneError::NodeSignatureRejected {
                        node_id: node_id.clone(),
                        reason: "node identities cannot use the client control API".to_owned(),
                    },
                )
            } else if !wants_client && node.role.is_client() {
                Err(
                    ControlPlaneError::NodeSignatureRejected {
                        node_id: node_id.clone(),
                        reason: "client identities must use the client control API".to_owned(),
                    },
                )
            } else {
                Ok(())
            }
        },
    }
}

/// Why a request is not accepted before its nonce is looked at: it is not signed, its sender is
/// not accepted, its signature does not verify, or it lies outside of the window.
pub open spec fn query_refusal(
    node_id: Seq<char>,
    signed_at: Option<Timestamp>,
    node: Option<NodeRecordView>,
    wants_client: bool,
    signature_fault: Option<Seq<char>>,
    now: Timestamp,
    max_age: Span,
) -> Option<ControlPlaneErrorView> {
    if signed_at is None {
        Some(ControlPlaneErrorView::NodeSignatureRequired { node_id })
    } else if sender_refusal(node_id, node, wants_client) is Some {
        sender_refusal(node_id, node, wants_client)
    } else {
        signature_refusal(node_id, signed_at, signature_fault, now, max_age)
    }
}

fn authenticate(
    nonces: &mut AcceptedNonces,
    node_id: &NodeId,
    signature: &Option<RequestSignature>,
    node: Option<&NodeRecord>,
    wants_client: bool,
    signature_fault: &Option<String>,
    now: Timestamp,
    max_age: Span,
) -> (r: Result<(), ControlPlaneError>)
    requires
        old(nonces).wf(),
    ensures
        final(nonces).wf(),
        ({
            let refused = query_refusal(
                node_id@,
                signing_time(*signature),
                ref_view(node),
                wants_client,
                opt_view(*signature_fault),
                now,
                max_age,
            );
            match refused {
                Some(e) => refusal(r) == Some(e) && final(nonces)@ == old(nonces)@,
                None => {
                    &&& refusal(r) == nonce_refusal(
                        old(nonces)@,
                        node_id@,
                        signature->0.signed_at,
                        signature->0.nonce@,
                        now,
                        max_age,
                    )
                    &&& final(nonces)@ == nonces_after(
                        old(nonces)@,
                        node_id@,
                        signature->0.signed_at,
                        signature->0.nonce@,
                        now,
                        max_age,
                    )
                },
            }
        }),
{
    let signature = match signature {
        None => {
            return Err(ControlPlaneError::NodeSignatureRequired { node_id: node_id.clone() });
        },
        Some(signature) => signature,
    };
    check_sender(node_id, node, wants_client)?;
    check_signature(node_id, Some(signature.signed_at), signature_fault, now, max_age)?;
    nonces.accept_node_query_nonce(
        node_id,
        signature.signed_at,
        signature.nonce.as_str(),
        now,
        max_age,
    )
}

/// When a request was signed, where it is signed.
pub open spec fn signing_time(signature: Option<RequestSignature>) -> Option<Timestamp> {
    match signature {
        Some(signature) => Some(signature.signed_at),
        None => None,
    }
}

/// Accepts a query of a node, once. `node` is what is registered under the identifier, and
/// `signature_fault` says why the signature does not verify with its key, where it does not.
pub fn authenticate_node_query(
    nonces: &mut AcceptedNonces,
    node_id: &NodeId,
    signature: &Option<RequestSignature>,
    node: Option<&NodeRecord>,
    signature_fault: &Option<String>,
    now: Timestamp,
    max_age: Span,
) -> (r: Result<(), ControlPlaneError>)
    requires
        old(nonces).wf(),
    ensures
        final(nonces).wf(),
        match query_refusal(
            node_id@,
            signing_time(*signature),
            ref_view(node),
            false,
            opt_view(*signature_fault),
            now,
            max_age,
        ) {
            Some(e) => refusal(r) == Some(e) && final(nonces)@ == old(nonces)@,
            None => {
                &&& refusal(r) == nonce_refusal(
                    old(nonces)@,
                    node_id@,
                    signature->0.signed_at,
                    signature->0.nonce@,
                    now,
                    max_age,
                )
                &&& final(nonces)@ == nonces_after(
                    old(nonces)@,
                    node_id@,
                    signature->0.signed_at,
                    signature->0.nonce@,
                    now,
                    max_age,
                )
            },
        },
{
    authenticate(nonces, node_id, signature, node, false, signature_fault, now, max_age)
}

/// Why a request of a client is not accepted before its nonce is looked at.
pub open spec fn client_request_refusal(
    client_id: Seq<char>,
    kind: ClientRequestKind,
    selects_gateway: bool,
    signed_at: Option<Timestamp>,
    client: Option<NodeRecordView>,
    signature_fault: Option<Seq<char>>,
    now: Timestamp,
    max_age: Span,
) -> Option<ControlPlaneErrorView> {
    if kind == ClientRequestKind::Remove && selects_gateway {
        rejected_update(client_id, "client removal must not select an active gateway"@)
    } else {
        query_refusal(client_id, signed_at, client, true, signature_fault, now, max_age)
    }
}

/// Accepts a request of a client, once.
pub fn authenticate_client_request(
    nonces: &mut AcceptedNonces,
    client_id: &NodeId,
    kind: ClientRequestKind,
    active_gateway_node_id: &Option<NodeId>,
    signature: &Option<RequestSignature>,
    client: Option<&NodeRecord>,
    signature_fault: &Option<String>,
    now: Timestamp,
    max_age: Span,
) -> (r: Result<(), ControlPlaneError>)
    requires
        old(nonces).wf(),
    ensures
        final(nonces).wf(),
        match client_request_refusal(
            client_id@,
            kind,
            active_gateway_node_id is Some,
            signing_time(*signature),
            ref_view(client),
            opt_view(*signature_fault),
            now,
            max_age,
        ) {
            Some(e) => refusal(r) == Some(e) && final(nonces)@ == old(nonces)@,
            None => {
                &&& refusal(r) == nonce_refusal(
                    old(nonces)@,
                    client_id@,
                    signature->0.signed_at,
                    signature->0.nonce@,
                    now,
                    max_age,
                )
                &&& final(nonces)@ == nonces_after(
                    old(nonces)@,
                    client_id@,
                    signature->0.signed_at,
                    signature->0.nonce@,
                    now,
                    max_age,
                )
            },
        },
{
    if kind == ClientRequestKind::Remove && active_gateway_node_id.is_some() {
        return Err(
            ControlPlaneError::NodeUpdateRejected {
                node_id: client_id.clone(),
                reason: "client removal must not select an active gateway".to_owned(),
            },
        );
    }
    authenticate(nonces, client_id, signature, client, true, signature_fault, now, max_age)
}

/// Why a query for a path is not accepted before its nonce is looked at.
pub open spec fn path_query_refusal(
    source: Seq<char>,
    query_fault: Option<Seq<char>>,
    node: Option<NodeRecordView>,
    signature_fault: Option<Seq<char>>,
) -> Option<ControlPlaneErrorView> {
    if query_fault is Some {
        signature_rejection(source, query_fault->0)
    } else if sender_refusal(source, node, false) is Some {
        sender_refusal(source, node, false)
    } else if signature_fault is Some {
        signature_rejection(source, signature_fault->0)
    } else {
        None
    }
}

/// Accepts a query for a path, once. `query_fault` says what is wrong with the query itself.
pub fn authenticate_overlay_path_query(
    nonces: &mut AcceptedNonces,
    source: &NodeId,
    query_fault: &Option<String>,
    proof_of_identity: &RequestSignature,
    node: Option<&NodeRecord>,
    signature_fault: &Option<String>,
    now: Timestamp,
    max_age: Span,
) -> (r: Result<(), ControlPlaneError>)
    requires
        old(nonces).wf(),
    ensures
        final(nonces).wf(),
        match path_query_refusal(
            source@,
            opt_view(*query_fault),
            ref_view(node),
            opt_view(*signature_fault),
        ) {
            Some(e) => refusal(r) == Some(e) && final(nonces)@ == old(nonces)@,
            None => {
                &&& refusal(r) == nonce_refusal(
                    old(nonces)@,
                    source@,
                    proof_of_identity.signed_at,
                    proof_of_identity.nonce@,
                    now,
                    max_age,
                )
                &&& final(nonces)@ == nonces_after(
                    old(nonces)@,
                    source@,
                    proof_of_identity.signed_at,
                    proof_of_identity.nonce@,
                    now,
                    max_age,
                )
            },
        },
{
    check_verified(source, query_fault)?;
    check_sender(source, node, false)?;
    check_verified(source, signature_fault)?;
    nonces.accept_node_query_nonce(
        source,
        proof_of_identity.signed_at,
        proof_of_identity.nonce.as_str(),
        now,
        max_age,
    )
}

/// Why a request that only a node may send is not accepted: the sender is not registered, or is a
/// client, or the signature is not accepted.
pub open spec fn node_request_refusal(
    node_id: Seq<char>,
    node: Option<NodeRecordView>,
    client_reason: Seq<char>,
    signed_at: Option<Timestamp>,
    signature_fault: Option<Seq<char>>,
    now: Timestamp,
    max_age: Span,
) -> Option<ControlPlaneErrorView> {
    match node {
        None => Some(ControlPlaneErrorView::NodeNotFound { node_id }),
        Some(node) => if role_is_client(node.role) {
            rejected_update(node_id, client_reason)
        } else {
            signature_refusal(node_id, signed_at, signature_fault, now, max_age)
        },
    }
}

fn check_is_node(node_id: &NodeId, node: Option<&NodeRecord>, client_reason: &str) -> (r: Result<
    (),
    ControlPlaneError,
>)
    ensures
        refusal(r) == (match ref_view(node) {
            None => Some(ControlPlaneErrorView::NodeNotFound { node_id: node_id@ }),
            Some(node) => if role_is_client(node.role) {
                rejected_update(node_id@, client_reason@)
            } else {
                None
            },
        }),
{
    match node {
        None => Err(ControlPlaneError::NodeNotFound { node_id: node_id.clone() }),
        Some(node) => {
            if node.role.is_client() {
                return Err(
                    ControlPlaneError::NodeUpdateRejected {
                        node_id: node_id.clone(),
                        reason: client_reason.to_owned(),
                    },
                );
            }
            Ok(())
        },
    }
}

/// Why clients may not ask for their removal as nodes do.
pub const CLIENT_REMOVAL_REASON: &'static str = "client identities must use the client control API";

/// Why clients may not register with the signalling service.
pub const CLIENT_SIGNAL_REASON: &'static str = "clients cannot register with Signal";

/// Why clients may not rotate keys as nodes do.
pub const CLIENT_ROTATION_REASON: &'static str = "clients cannot use node key rotation";

/// Accepts the request of a node to be removed.
pub fn validate_remove_node_request(
    node_id: &NodeId,
    node: Option<&NodeRecord>,
    signed_at: Option<Timestamp>,
    signature_fault: &Option<String>,
    now: Timestamp,
    max_age: Span,
) -> (r: Result<(), ControlPlaneError>)
    ensures
        refusal(r) == node_request_refusal(
            node_id@,
            ref_view(node),
            CLIENT_REMOVAL_REASON@,
            signed_at,
            opt_view(*signature_fault),
            now,
            max_age,
        ),
{
    check_is_node(node_id, node, CLIENT_REMOVAL_REASON)?;
    check_signature(node_id, signed_at, signature_fault, now, max_age)
}

/// Accepts the request of a node to register with the signalling service.
pub fn authenticate_signal_node_upsert(
    node_id: &NodeId,
    node: Option<&NodeRecord>,
    signed_at: Option<Timestamp>,
    signature_fault: &Option<String>,
    now: Timestamp,
    max_age: Span,
) -> (r: Result<(), ControlPlaneError>)
    ensures
        refusal(r) == node_request_refusal(
            node_id@,
            ref_view(node),
            CLIENT_SIGNAL_REASON@,
            signed_at,
            opt_view(*signature_fault),
            now,
            max_age,
        ),
{
    check_is_node(node_id, node, CLIENT_SIGNAL_REASON)?;
    check_signature(node_id, signed_at, signature_fault, now, max_age)
}

/// A request of a node to take a new WireGuard key.
#[derive(Debug)]
pub struct RotateWireGuardKeyRequest {
    pub node_id: NodeId,
    pub previous_wireguard_public_key: String,
    pub next_wireguard_public_key: String,
    /// When the request was signed, where it is signed.
    pub signed_at: Option<Timestamp>,
}

/// Why a request for a new WireGuard key is not accepted: the sender is not a node, a key is not
/// one, the signature is not accepted, the previous key is not the one that is registered, or the
/// next key is.
pub open spec fn rotation_refusal(
    request: RotateWireGuardKeyRequest,
    node: Option<NodeRecordView>,
    previous_key_fault: Option<Seq<char>>,
    next_key_fault: Option<Seq<char>>,
    signature_fault: Option<Seq<char>>,
    now: Timestamp,
    max_age: Span,
) -> Option<ControlPlaneErrorView> {
    let id = request.node_id@;
    let signature = signature_refusal(id, request.signed_at, signature_fault, now, max_age);
    match node {
        None => Some(ControlPlaneErrorView::NodeNotFound { node_id: id }),
        Some(node) => if role_is_client(node.role) {
            rejected_update(id, CLIENT_ROTATION_REASON@)
        } else if previous_key_fault is Some {
            rejected_update(
                id,
                "previous wireguard public key is invalid: "@ + previous_key_fault->0,
            )
        } else if next_key_fault is Some {
            rejected_update(id, "next wireguard public key is invalid: "@ + next_key_fault->0)
        } else if signature is Some {
            signature
        } else if request.previous_wireguard_public_key@ != node.wireguard_public_key {
            rejected_update(id, "previous wireguard public key does not match registered key"@)
        } else if request.next_wireguard_public_key@ == node.wireguard_public_key {
            rejected_update(id, "next wireguard public key matches registered key"@)
        } else {
            None
        },
    }
}

fn check_key(node_id: &NodeId, label: &str, fault: &Option<String>) -> (r: Result<
    (),
    ControlPlaneError,
>)
    ensures
        refusal(r) == (match opt_view(*fault) {
            Some(fault) => rejected_update(
                node_id@,
                label@ + " wireguard public key is invalid: "@ + fault,
            ),
            None => None,
        }),
{
    match fault {
        Some(fault) => Err(
            ControlPlaneError::NodeUpdateRejected {
                node_id: node_id.clone(),
                reason: label.to_owned().concat(" wireguard public key is invalid: ").concat(
                    fault.as_str(),
                ),
            },
        ),
        None => Ok(()),
    }
}

/// Accepts the request of a node for a new WireGuard key.
pub fn validate_wireguard_key_rotation_request(
    request: &RotateWireGuardKeyRequest,
    node: Option<&NodeRecord>,
    previous_key_fault: &Option<String>,
    next_key_fault: &Option<String>,
    signature_fault: &Option<String>,
    now: Timestamp,
    max_age: Span,
) -> (r: Result<(), ControlPlaneError>)
    ensures
        refusal(r) == rotation_refusal(
            *request,
            ref_view(node),
            opt_view(*previous_key_fault),
            opt_view(*next_key_fault),
            opt_view(*signature_fault),
            now,
            max_age,
        ),
{
    let id = &request.node_id;
    check_is_node(id, node, CLIENT_ROTATION_REASON)?;
    let node = match node {
        Some(node) => node,
        None => return Ok(()),
    };
    proof {
        reveal_strlit("previous");
        reveal_strlit("next");
        reveal_strlit(" wireguard public key is invalid: ");
        reveal_strlit("previous wireguard public key is invalid: ");
        reveal_strlit("next wireguard public key is invalid: ");
        assert("previous"@ + " wireguard public key is invalid: "@
            =~= "previous wireguard public key is invalid: "@);
        assert("next"@ + " wireguard public key is invalid: "@
            =~= "next wireguard public key is invalid: "@);
    }
    check_key(id, "previous", previous_key_fault)?;
    check_key(id, "next", next_key_fault)?;
    check_signature(id, request.signed_at, signature_fault, now, max_age)?;
    if request.previous_wireguard_public_key != node.wireguard_public_key {
        return Err(
            ControlPlaneError::NodeUpdateRejected {
                node_id: id.clone(),
                reason: "previous wireguard public key does not match registered key".to_owned(),
            },
        );
    }
    if request.next_wireguard_public_key == node.wireguard_public_key {
        return Err(
            ControlPlaneError::NodeUpdateRejected {
                node_id: id.clone(),
                reason: "next wireguard public key matches registered key".to_owned(),
            },
        );
    }
    Ok(())
}

/// A request whose nonce is to be noted, and when it arrived.
pub struct Arrival {
    pub node_id: Seq<char>,
    pub signed_at: Timestamp,
    pub nonce: Seq<char>,
    pub now: Timestamp,
}

/// The nonces that are kept after the first `n` of some requests.
pub open spec fn nonces_after_all(
    log: Map<Seq<Seq<char>>, Timestamp>,
    arrivals: Seq<Arrival>,
    n: nat,
    max_age: Span,
) -> Map<Seq<Seq<char>>, Timestamp>
    decreases n,
{
    if n == 0 {
        log
    } else {
        let a = arrivals[n - 1];
        nonces_after(
            nonces_after_all(log, arrivals, (n - 1) as nat, max_age),
            a.node_id,
            a.signed_at,
            a.nonce,
            a.now,
            max_age,
        )
    }
}

proof fn lemma_nonce_is_kept(
    log: Map<Seq<Seq<char>>, Timestamp>,
    key: Seq<Seq<char>>,
    arrivals: Seq<Arrival>,
    n: nat,
    end: Timestamp,
    max_age: Span,
)
    requires
        n <= arrivals.len(),
        log.dom().contains(key),
        end.at() - log[key].at() <= max_age.len(),
        forall|i: int| 0 <= i < arrivals.len() ==> (#[trigger] arrivals[i]).now.at() <= end.at(),
    ensures
        nonces_after_all(log, arrivals, n, max_age).dom().contains(key),
        nonces_after_all(log, arrivals, n, max_age)[key] == log[key],
    decreases n,
{
    if n > 0 {
        lemma_nonce_is_kept(log, key, arrivals, (n - 1) as nat, end, max_age);
        assert(arrivals[n - 1].now.at() <= end.at());
    }
}

/// A signed request is accepted once. After it has been accepted, the same request is refused as a
/// replay at every later time at which its signature still counts, and for its signature at all
/// others, whatever else was asked in between. What is left out is a request that was signed ahead
/// of time, at the times at which its nonce is forgotten and its signature still counts.
pub proof fn law_request_is_accepted_once(
    log: Map<Seq<Seq<char>>, Timestamp>,
    node_id: Seq<char>,
    signed_at: Timestamp,
    nonce: Seq<char>,
    first: Timestamp,
    arrivals: Seq<Arrival>,
    second: Timestamp,
    max_age: Span,
)
    requires
        nonce_refusal(log, node_id, signed_at, nonce, first, max_age) is None,
        first.at() <= second.at(),
        second.at() - first.at() <= max_age.len() || second.at() - signed_at.at() > max_age.len(),
        forall|i: int| 0 <= i < arrivals.len() ==> (#[trigger] arrivals[i]).now.at() <= second.at(),
    ensures
        nonce_refusal(
            nonces_after_all(
                nonces_after(log, node_id, signed_at, nonce, first, max_age),
                arrivals,
                arrivals.len(),
                max_age,
            ),
            node_id,
            signed_at,
            nonce,
            second,
            max_age,
        ) == (if within_skew(signed_at, second, max_age) {
            Some(ControlPlaneErrorView::NodeRequestReplay { node_id })
        } else {
            window_refusal(node_id, signed_at, second, max_age)
        }),
{
    let noted = nonces_after(log, node_id, signed_at, nonce, first, max_age);
    let key = two(node_id, nonce);
    assert(noted.dom().contains(key) && noted[key] == first);
    if second.at() - first.at() <= max_age.len() {
        lemma_nonce_is_kept(noted, key, arrivals, arrivals.len(), second, max_age);
    }
}

/// No more nonces are kept than there is room for.
pub proof fn law_kept_nonces_are_bounded(
    log: Map<Seq<Seq<char>>, Timestamp>,
    node_id: Seq<char>,
    signed_at: Timestamp,
    nonce: Seq<char>,
    now: Timestamp,
    max_age: Span,
)
    requires
        log.dom().finite(),
        log.dom().len() <= MAX_ACCEPTED_NODE_QUERY_NONCES,
    ensures
        nonces_after(log, node_id, signed_at, nonce, now, max_age).dom().finite(),
        nonces_after(log, node_id, signed_at, nonce, now, max_age).dom().len()
            <= MAX_ACCEPTED_NODE_QUERY_NONCES,
{
    let known = recent(log, now, max_age);
    assert(known.dom().subset_of(log.dom()));
    vstd::set_lib::lemma_len_subset(known.dom(), log.dom());
}

/// A signature from outside of the window is refused, and no nonce is noted for it.
pub proof fn law_late_request_leaves_no_nonce(
    log: Map<Seq<Seq<char>>, Timestamp>,
    node_id: Seq<char>,
    signed_at: Timestamp,
    nonce: Seq<char>,
    now: Timestamp,
    max_age: Span,
)
    requires
        !within_skew(signed_at, now, max_age),
    ensures
        nonce_refusal(log, node_id, signed_at, nonce, now, max_age) is Some,
        nonces_after(log, node_id, signed_at, nonce, now, max_age) == log,
{
}

/// A sender is let through exactly where it is registered and uses the interface that is meant for
/// it: clients that for clients, and nodes that for nodes.
pub proof fn law_senders_use_their_interface(
    node_id: Seq<char>,
    node: Option<NodeRecordView>,
    wants_client: bool,
)
    ensures
        sender_refusal(node_id, node, wants_client) is None <==> node is Some && (node->0.role
            == "client"@) == wants_client,
        node is None ==> sender_refusal(node_id, node, wants_client) == Some(
            ControlPlaneErrorView::NodeNotFound { node_id },
        ),
{
}

/// A request is let through exactly where it is signed, its signature holds, and it was signed no
/// further from now than requests may be, in either direction.
pub proof fn law_requests_are_signed_soundly_and_lately(
    node_id: Seq<char>,
    signed_at: Option<Timestamp>,
    signature_fault: Option<Seq<char>>,
    now: Timestamp,
    max_age: Span,
)
    ensures
        signature_refusal(node_id, signed_at, signature_fault, now, max_age) is None <==> {
            &&& signed_at is Some
            &&& signature_fault is None
            &&& max_age.fits_signed()
            &&& signed_at->0.at() - now.at() <= max_age.len()
            &&& now.at() - signed_at->0.at() <= max_age.len()
        },
        signed_at is None ==> signature_refusal(
            node_id,
            signed_at,
            signature_fault,
            now,
            max_age,
        ) == Some(ControlPlaneErrorView::NodeSignatureRequired { node_id }),
{
}

/// Queries and requests are let through exactly where the sender is, where the signature is, and
/// where nothing about the request itself speaks against it.
pub proof fn law_requests_are_let_through(
    node_id: Seq<char>,
    kind: ClientRequestKind,
    selects_gateway: bool,
    wants_client: bool,
    client_reason: Seq<char>,
    query_fault: Option<Seq<char>>,
    signed_at: Option<Timestamp>,
    node: Option<NodeRecordView>,
    signature_fault: Option<Seq<char>>,
    now: Timestamp,
    max_age: Span,
)
    ensures
        ({
            let sound = signed_at is Some && signature_fault is None && max_age.fits_signed()
                && signed_at->0.at() - now.at() <= max_age.len() && now.at() - signed_at->0.at()
                <= max_age.len();
            let client = node is Some && node->0.role == "client"@;
            let worker = node is Some && node->0.role != "client"@;
            &&& query_refusal(
                node_id,
                signed_at,
                node,
                wants_client,
                signature_fault,
                now,
                max_age,
            ) is None <==> sound && if wants_client {
                client
            } else {
                worker
            }
            &&& client_request_refusal(
                node_id,
                kind,
                selects_gateway,
                signed_at,
                node,
                signature_fault,
                now,
                max_age,
            ) is None <==> sound && client && !(kind == ClientRequestKind::Remove
                && selects_gateway)
            &&& path_query_refusal(node_id, query_fault, node, signature_fault) is None
                <==> query_fault is None && worker && signature_fault is None
            &&& node_request_refusal(
                node_id,
                node,
                client_reason,
                signed_at,
                signature_fault,
                now,
                max_age,
            ) is None <==> sound && worker
        }),
{
}

/// A key is rotated exactly where a registered node asks for it, signed soundly and lately, both keys
/// are valid, the previous one is the one that is registered, and the next one is another.
pub proof fn law_rotation_replaces_the_registered_key(
    request: RotateWireGuardKeyRequest,
    node: Option<NodeRecordView>,
    previous_key_fault: Option<Seq<char>>,
    next_key_fault: Option<Seq<char>>,
    signature_fault: Option<Seq<char>>,
    now: Timestamp,
    max_age: Span,
)
    ensures
        rotation_refusal(
            request,
            node,
            previous_key_fault,
            next_key_fault,
            signature_fault,
            now,
            max_age,
        ) is None <==> {
            &&& node is Some && node->0.role != "client"@
            &&& previous_key_fault is None
            &&& next_key_fault is None
            &&& request.signed_at is Some
            &&& signature_fault is None
            &&& max_age.fits_signed()
            &&& request.signed_at->0.at() - now.at() <= max_age.len()
            &&& now.at() - request.signed_at->0.at() <= max_age.len()
            &&& request.previous_wireguard_public_key@ == node->0.wireguard_public_key
            &&& request.next_wireguard_public_key@ != request.previous_wireguard_public_key@
        },
{
}

/// A nonce is accepted exactly where the request was signed lately, the same nonce of the same node
/// was not accepted within the age of requests, and there is room among those that were. It is then
/// kept with the instant; those that are older than requests may be are dropped.
pub proof fn law_new_nonces_are_kept(
    log: Map<Seq<Seq<char>>, Timestamp>,
    node_id: Seq<char>,
    signed_at: Timestamp,
    nonce: Seq<char>,
    now: Timestamp,
    max_age: Span,
    key: Seq<Seq<char>>,
)
    ensures
        ({
            let within = max_age.fits_signed() && signed_at.at() - now.at() <= max_age.len()
                && now.at() - signed_at.at() <= max_age.len();
            let mine = seq![node_id, nonce];
            let after = nonces_after(log, node_id, signed_at, nonce, now, max_age);
            let accepted = nonce_refusal(log, node_id, signed_at, nonce, now, max_age) is None;
            &&& accepted ==> within && !(log.dom().contains(mine) && now.at() <= log[mine].at()
                + max_age.len())
            &&& within && log.dom().contains(mine) && now.at() <= log[mine].at() + max_age.len()
                ==> nonce_refusal(log, node_id, signed_at, nonce, now, max_age) == Some(
                ControlPlaneErrorView::NodeRequestReplay { node_id },
            )
            &&& accepted ==> after.dom().contains(mine) && after[mine] == now
            &&& within && key != mine ==> (after.dom().contains(key) <==> log.dom().contains(key)
                && now.at() <= log[key].at() + max_age.len())
            &&& key != mine && after.dom().contains(key) ==> after[key] == log[key]
            &&& log.dom().finite() && log.dom().len() < MAX_ACCEPTED_NODE_QUERY_NONCES && within
                && !log.dom().contains(mine) ==> accepted
        }),
{
    let known = recent(log, now, max_age);
    if log.dom().finite() {
        assert(known.dom().subset_of(log.dom()));
        vstd::set_lib::lemma_len_subset(known.dom(), log.dom());
    }
}

} // verus!
