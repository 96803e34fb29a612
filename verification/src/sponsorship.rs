//! Clients that a registered node vouches for: a client hands its request to a node, and the node
//! passes it on with its own signature.

use vstd::prelude::*;

use crate::auth::{
    law_request_is_accepted_once, nonce_refusal, nonces_after, nonces_after_all, window_refusal,
    AcceptedNonces, Arrival, RequestSignature,
};
use crate::config::{ControlPlaneConfig, ProtocolLimits};
use crate::error::{refusal, ControlPlaneError, ControlPlaneErrorView};
use crate::ids::{role_is_client, NodeId};
use crate::registration::{
    bundle_fault, control_only, registration_rejection, sponsor_refusal, sponsored_claims,
    validate_client_registration_bundle, validate_client_sponsor, ClientRegistrationBundle,
};
use crate::time::{within_skew, Span, Timestamp};
use crate::types::{opt_view, NodeRecord, NodeRecordView};

verus! {

/// A request of a client that a node passes on, and the signature of the node.
#[derive(Debug)]
pub struct SponsoredClientRegistrationRequest {
    pub sponsor_node_id: NodeId,
    pub bundle: ClientRegistrationBundle,
    pub request_signature: Option<RequestSignature>,
}

/// What the checks of the nonce, of the proof of ownership and of the signature of the sponsor
/// found wrong.
#[derive(Debug)]
pub struct SponsorshipFindings {
    pub nonce_fault: Option<String>,
    pub proof_fault: Option<String>,
    pub signature_fault: Option<String>,
}

/// Why a request is refused before its nonce is looked at: the bundle is not accepted, or the
/// sponsor may not vouch for a client. `sponsor` is what is registered under its identifier.
pub open spec fn vouching_refusal(
    request: SponsoredClientRegistrationRequest,
    findings: SponsorshipFindings,
    sponsor: Option<NodeRecordView>,
    limits: ProtocolLimits,
    now: Timestamp,
    max_age: Span,
) -> Option<ControlPlaneErrorView> {
    let fault = bundle_fault(
        request.bundle,
        now,
        max_age,
        limits,
        opt_view(findings.nonce_fault),
        opt_view(findings.proof_fault),
    );
    if fault is Some {
        registration_rejection(request.bundle.registration.client_id@, fault)
    } else {
        sponsor_refusal(
            request.sponsor_node_id@,
            request.request_signature is Some,
            sponsor,
            opt_view(findings.signature_fault),
        )
    }
}

/// Why a request is refused by the time its nonce has been looked at. `log` holds the nonces that
/// were accepted before.
pub open spec fn vouched_nonce_refusal(
    log: Map<Seq<Seq<char>>, Timestamp>,
    request: SponsoredClientRegistrationRequest,
    findings: SponsorshipFindings,
    sponsor: Option<NodeRecordView>,
    limits: ProtocolLimits,
    now: Timestamp,
    max_age: Span,
) -> Option<ControlPlaneErrorView> {
    let refused = vouching_refusal(request, findings, sponsor, limits, now, max_age);
    if refused is Some {
        refused
    } else {
        nonce_refusal(
            log,
            request.sponsor_node_id@,
            request.request_signature->0.signed_at,
            request.request_signature->0.nonce@,
            now,
            max_age,
        )
    }
}

/// The nonces that are kept after a request. One that is refused before its nonce is looked at
/// changes nothing.
pub open spec fn nonces_after_sponsorship(
    log: Map<Seq<Seq<char>>, Timestamp>,
    request: SponsoredClientRegistrationRequest,
    findings: SponsorshipFindings,
    sponsor: Option<NodeRecordView>,
    limits: ProtocolLimits,
    now: Timestamp,
    max_age: Span,
) -> Map<Seq<Seq<char>>, Timestamp> {
    if vouching_refusal(request, findings, sponsor, limits, now, max_age) is Some {
        log
    } else {
        nonces_after(
            log,
            request.sponsor_node_id@,
            request.request_signature->0.signed_at,
            request.request_signature->0.nonce@,
            now,
            max_age,
        )
    }
}

/// Checks the word of a node for a client. `sponsor` is what is registered under the identifier of
/// the node. The nonce of its signature is used up where the rest of the request is accepted.
pub fn authenticate_sponsor(
    nonces: &mut AcceptedNonces,
    config: &ControlPlaneConfig,
    limits: &ProtocolLimits,
    request: &SponsoredClientRegistrationRequest,
    findings: &SponsorshipFindings,
    sponsor: Option<NodeRecord>,
    now: Timestamp,
) -> (r: Result<(), ControlPlaneError>)
    requires
        old(nonces).wf(),
    ensures
        final(nonces).wf(),
        final(nonces)@ == nonces_after_sponsorship(
            old(nonces)@,
            *request,
            *findings,
            opt_view(sponsor),
            *limits,
            now,
            config.heartbeat_signature_max_age,
        ),
        refusal(r) == vouched_nonce_refusal(
            old(nonces)@,
            *request,
            *findings,
            opt_view(sponsor),
            *limits,
            now,
            config.heartbeat_signature_max_age,
        ),
{
    let max_age = config.heartbeat_signature_max_age;
    validate_client_registration_bundle(
        &request.bundle,
        now,
        max_age,
        limits,
        &findings.nonce_fault,
        &findings.proof_fault,
    )?;
    validate_client_sponsor(
        &request.sponsor_node_id,
        request.request_signature.is_some(),
        sponsor.as_ref(),
        &findings.signature_fault,
    )?;
    match &request.request_signature {
        None => Err(
            ControlPlaneError::NodeSignatureRequired { node_id: request.sponsor_node_id.clone() },
        ),
        Some(signature) => nonces.accept_node_query_nonce(
            &request.sponsor_node_id,
            signature.signed_at,
            signature.nonce.as_str(),
            now,
            max_age,
        ),
    }
}

/// A sponsor vouches once with a signature. After a request has been let through, the same request
/// is refused at every later time, whatever else was asked in between and whatever is then known of
/// the sponsor: as a replay, where neither the bundle nor the sponsor nor the age of the signature
/// speaks against it. What is left out is a request that was signed ahead of time, at the times at
/// which its nonce is forgotten and its signature still counts.
pub proof fn law_sponsorship_is_used_once(
    log: Map<Seq<Seq<char>>, Timestamp>,
    request: SponsoredClientRegistrationRequest,
    findings: SponsorshipFindings,
    sponsor: Option<NodeRecordView>,
    limits: ProtocolLimits,
    first: Timestamp,
    arrivals: Seq<Arrival>,
    later_findings: SponsorshipFindings,
    later_sponsor: Option<NodeRecordView>,
    second: Timestamp,
    max_age: Span,
)
    requires
        vouched_nonce_refusal(log, request, findings, sponsor, limits, first, max_age) is None,
        first.at() <= second.at(),
        second.at() - first.at() <= max_age.len() || second.at()
            - request.request_signature->0.signed_at.at() > max_age.len(),
        forall|i: int| 0 <= i < arrivals.len() ==> (#[trigger] arrivals[i]).now.at() <= second.at(),
    ensures
        ({
            let id = request.sponsor_node_id@;
            let signed_at = request.request_signature->0.signed_at;
            let vouching = vouching_refusal(
                request,
                later_findings,
                later_sponsor,
                limits,
                second,
                max_age,
            );
            vouched_nonce_refusal(
                nonces_after_all(
                    nonces_after_sponsorship(
                        log,
                        request,
                        findings,
                        sponsor,
                        limits,
                        first,
                        max_age,
                    ),
                    arrivals,
                    arrivals.len(),
                    max_age,
                ),
                request,
                later_findings,
                later_sponsor,
                limits,
                second,
                max_age,
            ) == (if vouching is Some {
                vouching
            } else if within_skew(signed_at, second, max_age) {
                Some(ControlPlaneErrorView::NodeRequestReplay { node_id: id })
            } else {
                window_refusal(id, signed_at, second, max_age)
            })
        }),
{
    law_request_is_accepted_once(
        log,
        request.sponsor_node_id@,
        request.request_signature->0.signed_at,
        request.request_signature->0.nonce@,
        first,
        arrivals,
        second,
        max_age,
    );
}

/// Whoever a node vouches for is let in as a client, for no longer than the client asked for and
/// than the limit permits, and only on the word of a registered node that is no client itself.
pub proof fn law_sponsored_clients_are_vouched_for(
    log: Map<Seq<Seq<char>>, Timestamp>,
    request: SponsoredClientRegistrationRequest,
    findings: SponsorshipFindings,
    sponsor: Option<NodeRecordView>,
    limits: ProtocolLimits,
    cluster_id: Seq<char>,
    now: Timestamp,
    max_age: Span,
)
    requires
        vouched_nonce_refusal(log, request, findings, sponsor, limits, now, max_age) is None,
    ensures
        ({
            let claims = sponsored_claims(cluster_id, request.sponsor_node_id@, request.bundle);
            &&& control_only(claims)
            &&& now.at() < claims.expires_at.at()
            &&& claims.expires_at.at() - claims.not_before.at()
                <= limits.max_client_registration_validity_seconds * 1_000_000_000
            &&& request.request_signature is Some
            &&& sponsor matches Some(node) && !role_is_client(node.role)
        }),
{
}

} // verus!
