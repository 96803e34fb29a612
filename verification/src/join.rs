//! Joining with a token: the token is checked, its holder may join as what it claims to be, and
//! its use is counted.

use vstd::prelude::*;

use crate::config::ProtocolLimits;
use crate::control_plane::ControlPlane;
use crate::enrollment::{RegisterClientResponse, RegisterNodeResponse};
use crate::error::{refusal, ControlPlaneError, ControlPlaneErrorView};
use crate::ids::{role_is_client, ClusterId};
use crate::registration::{
    client_claims_are_control_only, control_only, participant_request, KeyFindings,
    RegisterClientRequest, MAX_ROUTE_CATALOG_UPDATE_RETRIES,
};
use crate::store::at;
use crate::time::{Span, Timestamp};
use crate::token::{
    accept_revocation, fresh_record, issued_token_refusal, join_token_refusal, ledger_metrics,
    record_key, revocation_refusal, validate_join_token, IssuerKeyRing, LedgerView,
    RevokeTokenRequest, TokenAdmission, TokenLedger, TokenLedgerMetrics, TokenRevocationOutcome,
    TrustedIssuerKeyView,
};
use crate::types::{
    opt_view, JoinTokenClaims, JoinTokenClaimsView, RegisterNodeRequest, TokenLedgerRecord,
    TokenRevocationRecordView,
};

verus! {

/// What was found out about a token beforehand.
#[derive(Debug)]
pub struct TokenFindings {
    /// What is wrong with the shape of the token, where something is.
    pub shape_fault: Option<String>,
    /// Why the token does not verify with the key of its issuer, where it does not.
    pub signature_fault: Option<String>,
}

/// Why a token is not accepted.
pub open spec fn token_refusal(
    claims: JoinTokenClaimsView,
    ring: Map<Seq<Seq<char>>, TrustedIssuerKeyView>,
    findings: TokenFindings,
    limits: ProtocolLimits,
) -> Option<ControlPlaneErrorView> {
    join_token_refusal(
        claims,
        ring,
        opt_view(findings.shape_fault),
        opt_view(findings.signature_fault),
        limits.join_token_not_before_skew_seconds,
    )
}

/// Why the holder of a token may not join as a node, before the ledger is asked.
pub open spec fn join_refusal(
    claims: JoinTokenClaimsView,
    ring: Map<Seq<Seq<char>>, TrustedIssuerKeyView>,
    findings: TokenFindings,
    limits: ProtocolLimits,
) -> Option<ControlPlaneErrorView> {
    if token_refusal(claims, ring, findings, limits) is Some {
        token_refusal(claims, ring, findings, limits)
    } else if role_is_client(claims.role) {
        Some(ControlPlaneErrorView::JoinDenied)
    } else {
        None
    }
}

/// Why the holder of a token may not join as a client, before a gateway is looked for and the
/// ledger is asked: the token is for more than a client.
pub open spec fn client_join_refusal(
    claims: JoinTokenClaimsView,
    ring: Map<Seq<Seq<char>>, TrustedIssuerKeyView>,
    findings: TokenFindings,
    limits: ProtocolLimits,
) -> Option<ControlPlaneErrorView> {
    if token_refusal(claims, ring, findings, limits) is Some {
        token_refusal(claims, ring, findings, limits)
    } else if !control_only(claims) {
        Some(ControlPlaneErrorView::JoinDenied)
    } else {
        None
    }
}

/// Lets the holders of tokens join, by a ledger and the keys of the issuers.
#[derive(Debug)]
pub struct ControlPlaneJoinService<L> {
    pub admission: TokenAdmission<L>,
    pub issuer_keys: IssuerKeyRing,
}

impl<L: TokenLedger> ControlPlaneJoinService<L> {
    /// The ledger and the keys are in order.
    pub open spec fn wf(&self) -> bool {
        self.admission.ledger.wf() && self.issuer_keys.wf()
    }

    /// What the ledger holds.
    pub open spec fn ledger(&self) -> LedgerView {
        self.admission.ledger.ledger()
    }

    /// A service that goes by a ledger and the keys of issuers.
    pub fn new(token_ledger: L, issuer_keys: IssuerKeyRing) -> (r: Self)
        ensures
            r.admission.ledger == token_ledger,
            r.issuer_keys == issuer_keys,
    {
        ControlPlaneJoinService { admission: TokenAdmission::new(token_ledger), issuer_keys }
    }

    /// Checks a token.
    pub fn validate_join_token(
        &self,
        claims: &JoinTokenClaims,
        findings: &TokenFindings,
        limits: &ProtocolLimits,
    ) -> (r: Result<(), ControlPlaneError>)
        requires
            self.wf(),
        ensures
            refusal(r) == token_refusal(claims@, self.issuer_keys@, *findings, *limits),
    {
        validate_join_token(
            claims,
            &self.issuer_keys,
            &findings.shape_fault,
            &findings.signature_fault,
            limits,
        )
    }

    /// Checks a token, and puts it on record.
    pub fn issue_join_token(
        &mut self,
        claims: &JoinTokenClaims,
        findings: &TokenFindings,
        limits: &ProtocolLimits,
        created_at: Timestamp,
    ) -> (r: Result<TokenLedgerRecord, ControlPlaneError>)
        requires
            old(self).wf(),
        ensures
            final(self).wf(),
            final(self).issuer_keys == old(self).issuer_keys,
            ({
                let record = fresh_record(claims@, created_at);
                let before = old(self).ledger();
                match token_refusal(claims@, old(self).issuer_keys@, *findings, *limits) {
                    Some(error) => refusal(r) == Some(error) && final(self).ledger() == before,
                    None => {
                        &&& refusal(r) == before.conflict(record)
                        &&& r matches Ok(stored) ==> stored@ == before.stamped(record)
                        &&& final(self).ledger() == (if r is Ok {
                            before.with_token(record_key(record), before.stamped(record))
                        } else {
                            before
                        })
                    },
                }
            }),
    {
        match self.validate_join_token(claims, findings, limits) {
            Ok(()) => self.admission.issue_from_claims(claims, created_at),
            Err(error) => Err(error),
        }
    }

    /// Checks a token, and that it is on record and may be used, without using it.
    pub fn validate_issued_join_token(
        &self,
        claims: &JoinTokenClaims,
        findings: &TokenFindings,
        limits: &ProtocolLimits,
        now: Timestamp,
    ) -> (r: Result<TokenLedgerRecord, ControlPlaneError>)
        requires
            self.wf(),
        ensures
            ({
                let stored = at(self.ledger().tokens, record_key(fresh_record(claims@, now)));
                match token_refusal(claims@, self.issuer_keys@, *findings, *limits) {
                    Some(error) => refusal(r) == Some(error),
                    None => {
                        &&& refusal(r) == issued_token_refusal(stored, claims@, now)
                        &&& r matches Ok(found) ==> Some(found@) == stored
                    },
                }
            }),
    {
        match self.validate_join_token(claims, findings, limits) {
            Ok(()) => self.admission.validate_issued_token(claims, now),
            Err(error) => Err(error),
        }
    }

    /// Lets the holder of a token join as a node: the token is checked, its use is counted, and the
    /// node is registered. A token is used up also where the registration is then refused.
    /// `key_findings` is what the keys of the request were found to be.
    pub fn join(
        &mut self,
        plane: &mut ControlPlane,
        claims: &JoinTokenClaims,
        findings: &TokenFindings,
        request: &RegisterNodeRequest,
        key_findings: &KeyFindings,
        now: Timestamp,
    ) -> (r: Result<RegisterNodeResponse, ControlPlaneError>)
        requires
            old(self).wf(),
            old(plane).wf(),
        ensures
            final(self).wf(),
            final(plane).wf(),
            final(self).issuer_keys == old(self).issuer_keys,
            ({
                let record = fresh_record(claims@, now);
                let before = old(self).ledger();
                let limits = old(plane).limits;
                match join_refusal(claims@, old(self).issuer_keys@, *findings, limits) {
                    Some(error) => {
                        &&& refusal(r) == Some(error)
                        &&& final(self).ledger() == before
                        &&& final(plane)@ == old(plane)@
                    },
                    None => {
                        &&& final(self).ledger() == before.after_admission(record, now)
                        &&& if before.admission_refusal(record, now) is Some {
                            &&& refusal(r) == before.admission_refusal(record, now)
                            &&& final(plane)@ == old(plane)@
                        } else {
                            &&& refusal(r) == old(plane)@.enrollment_refusal(
                                claims@,
                                request@,
                                *key_findings,
                                now,
                            )
                            &&& final(plane)@ == old(plane)@.enrolled(
                                claims@,
                                request@,
                                *key_findings,
                                now,
                            )
                        }
                    },
                }
            }),
            r matches Ok(response) ==> {
                &&& response.node@ == old(plane)@.registration(
                    claims@,
                    request@,
                    now,
                    MAX_ROUTE_CATALOG_UPDATE_RETRIES as nat,
                ).node
                &&& response.cluster_policy@ == old(plane)@.policy_in_force()
                &&& final(plane)@.peer_map_says(response.peer_map, response.node@, now)
                &&& final(plane)@.relay_map_says(response.relay_map, response.node@, now)
            },
    {
        self.validate_join_token(claims, findings, &plane.limits)?;
        if claims.role.is_client() {
            return Err(ControlPlaneError::JoinDenied);
        }
        self.admission.admit_join(claims, now)?;
        plane.register_with_claims(claims, request, key_findings, now)
    }

    /// Lets the holder of a token join as a client: the token is checked, there has to be a gateway
    /// that serves clients, the use of the token is counted, and the client is registered. A token
    /// is used up also where the registration is then refused. `key_findings` is what the keys of
    /// the request were found to be.
    pub fn join_client(
        &mut self,
        plane: &mut ControlPlane,
        claims: &JoinTokenClaims,
        findings: &TokenFindings,
        request: &RegisterClientRequest,
        key_findings: &KeyFindings,
        now: Timestamp,
    ) -> (r: Result<RegisterClientResponse, ControlPlaneError>)
        requires
            old(self).wf(),
            old(plane).wf(),
        ensures
            final(self).wf(),
            final(plane).wf(),
            final(self).issuer_keys == old(self).issuer_keys,
            ({
                let record = fresh_record(claims@, now);
                let before = old(self).ledger();
                let limits = old(plane).limits;
                let ready = old(plane)@.policy_read();
                let participant = participant_request(*request);
                match client_join_refusal(claims@, old(self).issuer_keys@, *findings, limits) {
                    Some(error) => {
                        &&& refusal(r) == Some(error)
                        &&& final(self).ledger() == before
                        &&& final(plane)@ == old(plane)@
                    },
                    None => if old(plane)@.gateway_refusal(now) is Some {
                        &&& refusal(r) == old(plane)@.gateway_refusal(now)
                        &&& final(self).ledger() == before
                        &&& final(plane)@ == ready
                    } else {
                        &&& final(self).ledger() == before.after_admission(record, now)
                        &&& if before.admission_refusal(record, now) is Some {
                            &&& refusal(r) == before.admission_refusal(record, now)
                            &&& final(plane)@ == ready
                        } else {
                            &&& refusal(r) == ready.enrollment_refusal(
                                claims@,
                                participant,
                                *key_findings,
                                now,
                            )
                            &&& final(plane)@ == ready.enrolled(
                                claims@,
                                participant,
                                *key_findings,
                                now,
                            )
                        }
                    },
                }
            }),
            r matches Ok(response) ==> {
                let ready = old(plane)@.policy_read();
                &&& response.client@ == ready.registration(
                    claims@,
                    participant_request(*request),
                    now,
                    MAX_ROUTE_CATALOG_UPDATE_RETRIES as nat,
                ).node
                &&& response.cluster_policy@ == ready.policy_in_force()
                &&& final(plane)@.peer_map_says(response.peer_map, response.client@, now)
            },
    {
        self.validate_join_token(claims, findings, &plane.limits)?;
        if !client_claims_are_control_only(claims) {
            return Err(ControlPlaneError::JoinDenied);
        }
        plane.require_client_gateway(now)?;
        self.admission.admit_join(claims, now)?;
        plane.register_client_with_claims(claims, request, key_findings, now)
    }

    /// How many tokens of a cluster are in which state.
    pub fn token_metrics(&self, cluster_id: &ClusterId, now: Timestamp) -> (r: TokenLedgerMetrics)
        requires
            self.wf(),
        ensures
            ledger_metrics(self.ledger(), cluster_id@, now, r),
    {
        self.admission.token_metrics(cluster_id, now)
    }

    /// Revokes a token at the request of its issuer.
    pub fn revoke_token(
        &mut self,
        request: &RevokeTokenRequest,
        cluster_id: &ClusterId,
        signature_fault: &Option<String>,
        revoked_at: Timestamp,
        max_age: Span,
    ) -> (r: Result<TokenRevocationOutcome, ControlPlaneError>)
        requires
            old(self).wf(),
        ensures
            final(self).wf(),
            final(self).issuer_keys == old(self).issuer_keys,
            refusal(r) == revocation_refusal(
                *request,
                cluster_id@,
                old(self).issuer_keys@,
                opt_view(*signature_fault),
                revoked_at,
                max_age,
            ),
            ({
                let revocation = TokenRevocationRecordView {
                    cluster_id: request.cluster_id@,
                    nonce: request.nonce@,
                    issuer: request.issuer@,
                    key_id: request.key_id@,
                    revoked_at,
                };
                let before = old(self).ledger();
                match r {
                    Err(_) => final(self).ledger() == before,
                    Ok(outcome) => {
                        &&& outcome.revocation@ == before.standing_revocation(revocation)
                        &&& opt_view(outcome.record) == before.revoked_token(revocation)
                        &&& final(self).ledger() == before.after_revocation(revocation)
                    },
                }
            }),
    {
        match accept_revocation(
            request,
            cluster_id,
            &self.issuer_keys,
            signature_fault,
            revoked_at,
            max_age,
        ) {
            Ok(revocation) => Ok(self.admission.revoke_token(revocation)),
            Err(error) => Err(error),
        }
    }
}

/// Whoever joins as a client holds a token that allows nothing but control, and whoever joins as a
/// node does not hold one of a client.
pub proof fn law_tokens_join_as_what_they_are(
    claims: JoinTokenClaimsView,
    ring: Map<Seq<Seq<char>>, TrustedIssuerKeyView>,
    findings: TokenFindings,
    limits: ProtocolLimits,
)
    ensures
        !(join_refusal(claims, ring, findings, limits) is None && client_join_refusal(
            claims,
            ring,
            findings,
            limits,
        ) is None),
        client_join_refusal(claims, ring, findings, limits) is None ==> control_only(claims),
        join_refusal(claims, ring, findings, limits) is None ==> !role_is_client(claims.role),
{
}

/// A token lets a node join exactly where it is accepted and is not for a client, and a client exactly
/// where it is accepted and lets one client register and nothing else.
pub proof fn law_accepted_tokens_let_join(
    claims: JoinTokenClaimsView,
    ring: Map<Seq<Seq<char>>, TrustedIssuerKeyView>,
    findings: TokenFindings,
    limits: ProtocolLimits,
)
    ensures
        ({
            let accepted = join_token_refusal(
                claims,
                ring,
                opt_view(findings.shape_fault),
                opt_view(findings.signature_fault),
                limits.join_token_not_before_skew_seconds,
            ) is None;
            &&& join_refusal(claims, ring, findings, limits) is None <==> accepted && claims.role
                != "client"@
            &&& client_join_refusal(claims, ring, findings, limits) is None <==> {
                &&& accepted
                &&& claims.role == "client"@
                &&& claims.tags == Set::<Seq<char>>::empty()
                &&& claims.policy.allowed_tags == Set::<Seq<char>>::empty()
                &&& !claims.policy.allow_relay
                &&& claims.policy.allowed_routes.len() == 0
                &&& claims.policy.max_token_uses == Some(1u32)
            }
        }),
{
}

} // verus!
