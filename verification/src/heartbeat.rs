//! Heartbeats: what is asked of each part of them before anything is stored.

use vstd::prelude::*;

use crate::config::{ControlPlaneConfig, ProtocolLimits};
use crate::error::{reason_of, refusal, ControlPlaneError, ControlPlaneErrorView};
use crate::ids::NodeId;
use crate::lists::{first_in, lemma_first_in_extends};
use crate::routes::{
    route_allowed_by_policy, route_permitted, routes_shape_fault, scope_fault,
    validate_advertised_routes_shape, validate_routes_within_overlay_scopes,
};
use crate::text::{
    byte_len, byte_length, contains_special_char, decimal, decimal_text, has_special_char,
    parse_signed_number, signed_number, strip_prefix, text_same, without_prefix,
};
use crate::time::{
    fresh, millis_instant, not_after_skew, timestamp_display, timestamp_from_millis,
    timestamp_is_fresh, timestamp_not_after_skew, timestamp_text, timestamp_within_skew,
    within_skew, Span, Timestamp,
};
use crate::types::{
    opt_view, views, ClusterPolicy, ClusterPolicyView, Endpoint, EndpointCandidate,
    EndpointCandidateView, HeartbeatRequest, HeartbeatRequestView, NatClassification,
    NatClassificationView, NatFilteringObservation, NatFilteringObservationView,
    NatProbeObservation, NatProbeObservationView, NodeHealth, NodeHealthView, NodeRecord,
    PathRecord, PathRecordView, PeerPathKey, PeerPathKeyView, Route, RouteView, TokenPolicy,
    TokenPolicyView,
};

verus! {

/// The longest reason of a path score, in bytes.
pub const MAX_PATH_SCORE_REASON_BYTES: usize = 256;

/// The longest reasons of a path score together, in bytes.
pub const MAX_PATH_SCORE_TOTAL_REASON_BYTES: usize = 2048;

/// How many paths a heartbeat may report.
pub const MAX_HEARTBEAT_PATH_STATES: usize = 4_096;

/// Why a report of health is not accepted.
pub open spec fn health_fault(health: NodeHealthView, now: Timestamp, skew: Span) -> Option<Seq<char>> {
    if !not_after_skew(health.last_seen_at, now, skew) {
        Some(
            "health last_seen_at "@ + timestamp_display(health.last_seen_at)
                + " is too far in the future"@,
        )
    } else if health.latency_ms matches Some(latency) && (!latency.finite()
        || !latency.non_negative()) {
        Some("health latency_ms must be a finite non-negative value"@)
    } else if health.relay_load matches Some(load) && (!load.finite() || !load.in_unit_interval()) {
        Some("health relay_load must be a finite value between 0 and 1"@)
    } else {
        None
    }
}

/// Checks a report of health.
pub fn validate_node_health_shape(health: &NodeHealth, now: Timestamp, max_timestamp_skew: Span) -> (r:
    Result<(), String>)
    ensures
        reason_of(r) == health_fault(health@, now, max_timestamp_skew),
{
    if !timestamp_not_after_skew(health.last_seen_at, now, max_timestamp_skew) {
        return Err(
            "health last_seen_at ".to_owned().concat(
                timestamp_text(health.last_seen_at).as_str(),
            ).concat(" is too far in the future"),
        );
    }
    if let Some(latency) = health.latency_ms {
        if !latency.is_finite() || !latency.is_non_negative() {
            return Err("health latency_ms must be a finite non-negative value".to_owned());
        }
    }
    if let Some(load) = health.relay_load {
        if !load.is_finite() || !load.is_in_unit_interval() {
            return Err("health relay_load must be a finite value between 0 and 1".to_owned());
        }
    }
    Ok(())
}

/// Why an address of a NAT classification is not accepted.
pub open spec fn nat_address_fault(endpoint: Endpoint, label: Seq<char>) -> Option<Seq<char>> {
    if endpoint.usable {
        None
    } else {
        Some(
            "NAT classification "@ + label + " "@ + endpoint.addr.display() + " is unusable"@,
        )
    }
}

/// Why an address of a NAT classification is not accepted, where there is one.
pub open spec fn nat_optional_address_fault(
    endpoint: Option<Endpoint>,
    label: Seq<char>,
) -> Option<Seq<char>> {
    match endpoint {
        Some(endpoint) => nat_address_fault(endpoint, label),
        None => None,
    }
}

fn check_nat_address(endpoint: Endpoint, label: &str) -> (r: Result<(), String>)
    ensures
        reason_of(r) == nat_address_fault(endpoint, label@),
{
    if endpoint.usable {
        return Ok(());
    }
    Err(
        "NAT classification ".to_owned().concat(label).concat(" ").concat(
            endpoint.addr.to_text().as_str(),
        ).concat(" is unusable"),
    )
}

fn check_optional_nat_address(endpoint: Option<Endpoint>, label: &str) -> (r: Result<(), String>)
    ensures
        reason_of(r) == nat_optional_address_fault(endpoint, label@),
{
    match endpoint {
        Some(endpoint) => check_nat_address(endpoint, label),
        None => Ok(()),
    }
}

/// Why an observation of the mapping of a NAT is not accepted.
pub open spec fn probe_fault(
    observation: NatProbeObservationView,
    now: Timestamp,
    skew: Span,
) -> Option<Seq<char>> {
    if nat_address_fault(observation.stun_server, "probe STUN server"@) is Some {
        nat_address_fault(observation.stun_server, "probe STUN server"@)
    } else if nat_address_fault(observation.reflexive_addr, "probe reflexive endpoint"@) is Some {
        nat_address_fault(observation.reflexive_addr, "probe reflexive endpoint"@)
    } else if !not_after_skew(observation.observed_at, now, skew) {
        Some(
            "NAT probe observation observed_at "@ + timestamp_display(observation.observed_at)
                + " is too far in the future"@,
        )
    } else {
        None
    }
}

fn check_probe(observation: &NatProbeObservation, now: Timestamp, skew: Span) -> (r: Result<
    (),
    String,
>)
    ensures
        reason_of(r) == probe_fault(observation@, now, skew),
{
    check_nat_address(observation.stun_server, "probe STUN server")?;
    check_nat_address(observation.reflexive_addr, "probe reflexive endpoint")?;
    if !timestamp_not_after_skew(observation.observed_at, now, skew) {
        return Err(
            "NAT probe observation observed_at ".to_owned().concat(
                timestamp_text(observation.observed_at).as_str(),
            ).concat(" is too far in the future"),
        );
    }
    Ok(())
}

/// Why an observation of the filtering of a NAT is not accepted.
pub open spec fn filtering_fault(
    observation: NatFilteringObservationView,
    now: Timestamp,
    skew: Span,
) -> Option<Seq<char>> {
    if nat_address_fault(observation.stun_server, "filtering STUN server"@) is Some {
        nat_address_fault(observation.stun_server, "filtering STUN server"@)
    } else if nat_optional_address_fault(
        observation.response_origin,
        "filtering response origin"@,
    ) is Some {
        nat_optional_address_fault(observation.response_origin, "filtering response origin"@)
    } else if nat_optional_address_fault(
        observation.other_address,
        "filtering other address"@,
    ) is Some {
        nat_optional_address_fault(observation.other_address, "filtering other address"@)
    } else if !not_after_skew(observation.observed_at, now, skew) {
        Some(
            "NAT filtering observation observed_at "@ + timestamp_display(observation.observed_at)
                + " is too far in the future"@,
        )
    } else {
        None
    }
}

fn check_filtering(observation: &NatFilteringObservation, now: Timestamp, skew: Span) -> (r: Result<
    (),
    String,
>)
    ensures
        reason_of(r) == filtering_fault(observation@, now, skew),
{
    check_nat_address(observation.stun_server, "filtering STUN server")?;
    check_optional_nat_address(observation.response_origin, "filtering response origin")?;
    check_optional_nat_address(observation.other_address, "filtering other address")?;
    if !timestamp_not_after_skew(observation.observed_at, now, skew) {
        return Err(
            "NAT filtering observation observed_at ".to_owned().concat(
                timestamp_text(observation.observed_at).as_str(),
            ).concat(" is too far in the future"),
        );
    }
    Ok(())
}

/// Why one of the first `n` observations of the mapping is not accepted.
pub open spec fn first_probe_fault(
    observations: Seq<NatProbeObservationView>,
    now: Timestamp,
    skew: Span,
    n: nat,
) -> Option<Seq<char>> {
    first_in(n, |i: int| probe_fault(observations[i], now, skew))
}

/// Why one of the first `n` observations of the filtering is not accepted.
pub open spec fn first_filtering_fault(
    observations: Seq<NatFilteringObservationView>,
    now: Timestamp,
    skew: Span,
    n: nat,
) -> Option<Seq<char>> {
    first_in(n, |i: int| filtering_fault(observations[i], now, skew))
}

/// Why a NAT classification is not accepted.
pub open spec fn nat_fault(
    classification: NatClassificationView,
    now: Timestamp,
    skew: Span,
) -> Option<Seq<char>> {
    let probes = classification.observations;
    let filterings = classification.filtering_observations;
    if !classification.public_state_supported {
        Some(
            "NAT classification public state requires matching globally routable direct or explicitly mapped observations"@,
        )
    } else if nat_optional_address_fault(
        classification.observed_endpoint,
        "observed endpoint"@,
    ) is Some {
        nat_optional_address_fault(classification.observed_endpoint, "observed endpoint"@)
    } else if !not_after_skew(classification.assessed_at, now, skew) {
        Some(
            "NAT classification assessed_at "@ + timestamp_display(classification.assessed_at)
                + " is too far in the future"@,
        )
    } else if !classification.confidence.finite() || !classification.confidence.in_unit_interval() {
        Some("NAT classification confidence must be a finite value between 0 and 1"@)
    } else if first_probe_fault(probes, now, skew, probes.len()) is Some {
        first_probe_fault(probes, now, skew, probes.len())
    } else {
        first_filtering_fault(filterings, now, skew, filterings.len())
    }
}

fn check_probes(observations: &Vec<NatProbeObservation>, now: Timestamp, skew: Span) -> (r: Result<
    (),
    String,
>)
    ensures
        reason_of(r) == first_probe_fault(views(observations@), now, skew, observations@.len()),
{
    let ghost all = views(observations@);
    let mut i: usize = 0;
    while i < observations.len()
        invariant
            i <= observations@.len(),
            all == views(observations@),
            first_probe_fault(all, now, skew, i as nat) is None,
        decreases observations@.len() - i,
    {
        let checked = check_probe(&observations[i], now, skew);
        if checked.is_err() {
            proof {
                lemma_first_in_extends(
                    (i + 1) as nat,
                    all.len(),
                    |k: int| probe_fault(all[k], now, skew),
                );
            }
            return checked;
        }
        i = i + 1;
    }
    Ok(())
}

fn check_filterings(observations: &Vec<NatFilteringObservation>, now: Timestamp, skew: Span) -> (r:
    Result<(), String>)
    ensures
        reason_of(r) == first_filtering_fault(views(observations@), now, skew, observations@.len()),
{
    let ghost all = views(observations@);
    let mut i: usize = 0;
    while i < observations.len()
        invariant
            i <= observations@.len(),
            all == views(observations@),
            first_filtering_fault(all, now, skew, i as nat) is None,
        decreases observations@.len() - i,
    {
        let checked = check_filtering(&observations[i], now, skew);
        if checked.is_err() {
            proof {
                lemma_first_in_extends(
                    (i + 1) as nat,
                    all.len(),
                    |k: int| filtering_fault(all[k], now, skew),
                );
            }
            return checked;
        }
        i = i + 1;
    }
    Ok(())
}

/// Checks a NAT classification.
pub fn validate_nat_classification_shape(
    classification: &NatClassification,
    now: Timestamp,
    max_timestamp_skew: Span,
) -> (r: Result<(), String>)
    ensures
        reason_of(r) == nat_fault(classification@, now, max_timestamp_skew),
{
    if !classification.public_state_supported {
        return Err(
            "NAT classification public state requires matching globally routable direct or explicitly mapped observations".to_owned(),
        );
    }
    check_optional_nat_address(classification.observed_endpoint, "observed endpoint")?;
    if !timestamp_not_after_skew(classification.assessed_at, now, max_timestamp_skew) {
        return Err(
            "NAT classification assessed_at ".to_owned().concat(
                timestamp_text(classification.assessed_at).as_str(),
            ).concat(" is too far in the future"),
        );
    }
    if !classification.confidence.is_finite() || !classification.confidence.is_in_unit_interval() {
        return Err(
            "NAT classification confidence must be a finite value between 0 and 1".to_owned(),
        );
    }
    check_probes(&classification.observations, now, max_timestamp_skew)?;
    check_filterings(&classification.filtering_observations, now, max_timestamp_skew)
}

/// A candidate that belongs to another node.
pub open spec fn candidate_owner_fault(
    candidate: EndpointCandidateView,
    node_id: Seq<char>,
) -> Option<Seq<char>> {
    if candidate.node_id == node_id {
        None
    } else {
        Some("candidate belongs to node "@ + candidate.node_id + " instead of "@ + node_id)
    }
}

/// A candidate whose address does not suit its kind.
pub open spec fn candidate_kind_fault(candidate: EndpointCandidateView) -> Option<Seq<char>> {
    match candidate.kind_fault {
        Some(reason) => Some(
            "candidate "@ + candidate.kind.name() + " at "@ + candidate.endpoint.addr.display()
                + " is invalid: "@ + reason,
        ),
        None => None,
    }
}

/// A candidate that was seen in the future.
pub open spec fn candidate_time_fault(
    candidate: EndpointCandidateView,
    now: Timestamp,
    skew: Span,
) -> Option<Seq<char>> {
    if not_after_skew(candidate.observed_at, now, skew) {
        None
    } else {
        Some(
            "candidate "@ + candidate.kind.name() + " at "@ + candidate.endpoint.addr.display()
                + " observed_at "@ + timestamp_display(candidate.observed_at)
                + " is too far in the future"@,
        )
    }
}

/// The first candidate of another node among the first `n`.
pub open spec fn first_owner_fault(
    candidates: Seq<EndpointCandidateView>,
    node_id: Seq<char>,
    n: nat,
) -> Option<Seq<char>> {
    first_in(n, |i: int| candidate_owner_fault(candidates[i], node_id))
}

/// The first candidate with an unsuitable address among the first `n`.
pub open spec fn first_kind_fault(candidates: Seq<EndpointCandidateView>, n: nat) -> Option<Seq<char>> {
    first_in(n, |i: int| candidate_kind_fault(candidates[i]))
}

/// The first candidate of the future among the first `n`.
pub open spec fn first_time_fault(
    candidates: Seq<EndpointCandidateView>,
    now: Timestamp,
    skew: Span,
    n: nat,
) -> Option<Seq<char>> {
    first_in(n, |i: int| candidate_time_fault(candidates[i], now, skew))
}

/// Why a list of candidates is not accepted: ownership first, then kinds, then times.
pub open spec fn candidates_fault(
    candidates: Seq<EndpointCandidateView>,
    node_id: Seq<char>,
    now: Timestamp,
    skew: Span,
) -> Option<Seq<char>> {
    let n = candidates.len();
    if first_owner_fault(candidates, node_id, n) is Some {
        first_owner_fault(candidates, node_id, n)
    } else if first_kind_fault(candidates, n) is Some {
        first_kind_fault(candidates, n)
    } else {
        first_time_fault(candidates, now, skew, n)
    }
}

fn check_candidate_owners(candidates: &Vec<EndpointCandidate>, node_id: &NodeId) -> (r: Result<
    (),
    String,
>)
    ensures
        reason_of(r) == first_owner_fault(views(candidates@), node_id@, candidates@.len()),
{
    let ghost all = views(candidates@);
    let mut i: usize = 0;
    while i < candidates.len()
        invariant
            i <= candidates@.len(),
            all == views(candidates@),
            first_owner_fault(all, node_id@, i as nat) is None,
        decreases candidates@.len() - i,
    {
        if candidates[i].node_id != *node_id {
            proof {
                lemma_first_in_extends(
                    (i + 1) as nat,
                    all.len(),
                    |k: int| candidate_owner_fault(all[k], node_id@),
                );
            }
            return Err(
                "candidate belongs to node ".to_owned().concat(
                    candidates[i].node_id.as_str(),
                ).concat(" instead of ").concat(node_id.as_str()),
            );
        }
        i = i + 1;
    }
    Ok(())
}

fn check_candidate_kinds(candidates: &Vec<EndpointCandidate>) -> (r: Result<(), String>)
    ensures
        reason_of(r) == first_kind_fault(views(candidates@), candidates@.len()),
{
    let ghost all = views(candidates@);
    let mut i: usize = 0;
    while i < candidates.len()
        invariant
            i <= candidates@.len(),
            all == views(candidates@),
            first_kind_fault(all, i as nat) is None,
        decreases candidates@.len() - i,
    {
        if let Some(reason) = &candidates[i].kind_fault {
            let message = "candidate ".to_owned().concat(
                candidates[i].kind.as_str(),
            ).concat(" at ").concat(candidates[i].endpoint.addr.to_text().as_str()).concat(
                " is invalid: ",
            ).concat(reason.as_str());
            proof {
                assert(Some(message@) == candidate_kind_fault(all[i as int]));
                lemma_first_in_extends(
                    (i + 1) as nat,
                    all.len(),
                    |k: int| candidate_kind_fault(all[k]),
                );
            }
            return Err(message);
        }
        i = i + 1;
    }
    Ok(())
}

fn check_candidate_times(candidates: &Vec<EndpointCandidate>, now: Timestamp, skew: Span) -> (r: Result<
    (),
    String,
>)
    ensures
        reason_of(r) == first_time_fault(views(candidates@), now, skew, candidates@.len()),
{
    let ghost all = views(candidates@);
    let mut i: usize = 0;
    while i < candidates.len()
        invariant
            i <= candidates@.len(),
            all == views(candidates@),
            first_time_fault(all, now, skew, i as nat) is None,
        decreases candidates@.len() - i,
    {
        if !timestamp_not_after_skew(candidates[i].observed_at, now, skew) {
            let message = "candidate ".to_owned().concat(
                candidates[i].kind.as_str(),
            ).concat(" at ").concat(candidates[i].endpoint.addr.to_text().as_str()).concat(
                " observed_at ",
            ).concat(timestamp_text(candidates[i].observed_at).as_str()).concat(
                " is too far in the future",
            );
            proof {
                assert(Some(message@) == candidate_time_fault(all[i as int], now, skew));
                lemma_first_in_extends(
                    (i + 1) as nat,
                    all.len(),
                    |k: int| candidate_time_fault(all[k], now, skew),
                );
            }
            return Err(message);
        }
        i = i + 1;
    }
    Ok(())
}

/// Checks a list of candidates.
pub fn validate_candidates(
    candidates: &Vec<EndpointCandidate>,
    node_id: &NodeId,
    now: Timestamp,
    max_timestamp_skew: Span,
) -> (r: Result<(), String>)
    ensures
        reason_of(r) == candidates_fault(views(candidates@), node_id@, now, max_timestamp_skew),
{
    check_candidate_owners(candidates, node_id)?;
    check_candidate_kinds(candidates)?;
    check_candidate_times(candidates, now, max_timestamp_skew)
}

/// How messages speak of a path.
pub open spec fn path_name(key: PeerPathKeyView) -> Seq<char> {
    "path "@ + key.local + " -> "@ + key.remote
}

pub fn path_label(key: &PeerPathKey) -> (r: String)
    ensures
        r@ == path_name(key@),
{
    "path ".to_owned().concat(key.local.as_str()).concat(" -> ").concat(key.remote.as_str())
}

/// The bytes of the first `n` reasons together.
pub open spec fn reason_bytes(reasons: Seq<Seq<char>>, n: nat) -> nat
    decreases n,
{
    if n == 0 {
        0
    } else {
        reason_bytes(reasons, (n - 1) as nat) + byte_len(reasons[n - 1])
    }
}

/// Why a reason of a path score is not accepted.
pub open spec fn score_reason_fault(key: PeerPathKeyView, reason: Seq<char>) -> Option<Seq<char>> {
    if byte_len(reason) > MAX_PATH_SCORE_REASON_BYTES {
        Some(
            path_name(key) + " score reason must not exceed "@ + decimal(
                MAX_PATH_SCORE_REASON_BYTES as nat,
            ) + " bytes"@,
        )
    } else if has_special_char(reason, false) {
        Some(path_name(key) + " score reason must not contain control characters"@)
    } else {
        None
    }
}

/// Why one of the first `n` reasons of a path score is not accepted.
pub open spec fn first_score_reason_fault(path: PathRecordView, n: nat) -> Option<Seq<char>> {
    first_in(n, |i: int| score_reason_fault(path.key, path.score.reasons[i]))
}

/// Why the score of a path is not accepted.
pub open spec fn score_fault(path: PathRecordView, max_reasons: usize) -> Option<Seq<char>> {
    let reasons = path.score.reasons;
    if path.score.value.nan() || path.score.value.bits == crate::float::INFINITY_BITS {
        Some(path_name(path.key) + " score value must not be NaN or positive infinity"@)
    } else if path.score.value.bits == crate::float::NEGATIVE_INFINITY_BITS && !reasons.contains(
        "policy_denied"@,
    ) {
        Some(path_name(path.key) + " negative-infinity score requires policy_denied reason"@)
    } else if reasons.len() > max_reasons {
        Some(
            path_name(path.key) + " score reasons must not exceed "@ + decimal(max_reasons as nat)
                + " entries"@,
        )
    } else if first_score_reason_fault(path, reasons.len()) is Some {
        first_score_reason_fault(path, reasons.len())
    } else if reason_bytes(reasons, reasons.len()) > MAX_PATH_SCORE_TOTAL_REASON_BYTES {
        Some(
            path_name(path.key) + " score reasons must not exceed "@ + decimal(
                MAX_PATH_SCORE_TOTAL_REASON_BYTES as nat,
            ) + " total bytes"@,
        )
    } else {
        None
    }
}

fn has_reason(reasons: &Vec<String>, wanted: &str) -> (r: bool)
    ensures
        r == views(reasons@).contains(wanted@),
{
    let mut i: usize = 0;
    while i < reasons.len()
        invariant
            i <= reasons@.len(),
            forall|k: int| 0 <= k < i ==> (#[trigger] views(reasons@)[k]) != wanted@,
        decreases reasons@.len() - i,
    {
        if text_same(reasons[i].as_str(), wanted) {
            assert(views(reasons@)[i as int] == wanted@);
            return true;
        }
        i = i + 1;
    }
    false
}

fn check_score_reason(key: &PeerPathKey, reason: &str) -> (r: Result<(), String>)
    ensures
        reason_of(r) == score_reason_fault(key@, reason@),
{
    if byte_length(reason) > MAX_PATH_SCORE_REASON_BYTES {
        return Err(
            path_label(key).concat(" score reason must not exceed ").concat(
                decimal_text(MAX_PATH_SCORE_REASON_BYTES as u64).as_str(),
            ).concat(" bytes"),
        );
    }
    if contains_special_char(reason, false) {
        return Err(
            path_label(key).concat(" score reason must not contain control characters"),
        );
    }
    Ok(())
}

/// Checks the score of a path.
pub fn validate_path_score_shape(path: &PathRecord, max_reasons: usize) -> (r: Result<(), String>)
    ensures
        reason_of(r) == score_fault(path@, max_reasons),
{
    let ghost reasons = path@.score.reasons;
    if path.score.value.is_nan() || path.score.value.bits == crate::float::INFINITY_BITS {
        return Err(
            path_label(&path.key).concat(" score value must not be NaN or positive infinity"),
        );
    }
    if path.score.value.bits == crate::float::NEGATIVE_INFINITY_BITS && !has_reason(
        &path.score.reasons,
        "policy_denied",
    ) {
        return Err(
            path_label(&path.key).concat(
                " negative-infinity score requires policy_denied reason",
            ),
        );
    }
    if path.score.reasons.len() > max_reasons {
        return Err(
            path_label(&path.key).concat(" score reasons must not exceed ").concat(
                decimal_text(max_reasons as u64).as_str(),
            ).concat(" entries"),
        );
    }
    let mut total_bytes: usize = 0;
    let mut i: usize = 0;
    while i < path.score.reasons.len()
        invariant
            i <= path.score.reasons@.len(),
            reasons == views(path.score.reasons@),
            reasons == path@.score.reasons,
            first_score_reason_fault(path@, i as nat) is None,
            total_bytes == (if reason_bytes(reasons, i as nat) <= usize::MAX {
                reason_bytes(reasons, i as nat)
            } else {
                usize::MAX as nat
            }),
            !(path@.score.value.nan() || path@.score.value.bits == crate::float::INFINITY_BITS),
            !(path@.score.value.bits == crate::float::NEGATIVE_INFINITY_BITS
                && !reasons.contains("policy_denied"@)),
            reasons.len() <= max_reasons,
        decreases path.score.reasons@.len() - i,
    {
        let reason = path.score.reasons[i].as_str();
        total_bytes = total_bytes.saturating_add(byte_length(reason));
        let checked = check_score_reason(&path.key, reason);
        if checked.is_err() {
            proof {
                lemma_first_in_extends(
                    (i + 1) as nat,
                    reasons.len(),
                    |k: int| score_reason_fault(path@.key, path@.score.reasons[k]),
                );
            }
            return checked;
        }
        i = i + 1;
    }
    if total_bytes > MAX_PATH_SCORE_TOTAL_REASON_BYTES {
        return Err(
            path_label(&path.key).concat(" score reasons must not exceed ").concat(
                decimal_text(MAX_PATH_SCORE_TOTAL_REASON_BYTES as u64).as_str(),
            ).concat(" total bytes"),
        );
    }
    Ok(())
}

/// The instant of the local activity that the first `n` reasons of a path report, or why these are
/// not accepted.
pub open spec fn activity_upto(path: PathRecordView, prefix: Seq<char>, n: nat) -> Result<
    Option<Timestamp>,
    Seq<char>,
>
    decreases n,
{
    if n == 0 {
        Ok(None)
    } else {
        match activity_upto(path, prefix, (n - 1) as nat) {
            Err(reason) => Err(reason),
            Ok(found) => match without_prefix(path.score.reasons[n - 1], prefix) {
                None => Ok(found),
                Some(raw) => if found is Some {
                    Err(path_name(path.key) + " has multiple lazy-connect activity reasons"@)
                } else {
                    match signed_number(raw) {
                        None => Err(
                            path_name(path.key)
                                + " has an invalid lazy-connect activity timestamp"@,
                        ),
                        Some(millis) => match millis_instant(millis) {
                            None => Err(
                                path_name(path.key)
                                    + " has an out-of-range lazy-connect activity timestamp"@,
                            ),
                            Some((seconds, nanos)) => Ok(Some(Timestamp { seconds, nanos })),
                        },
                    }
                },
            },
        }
    }
}

/// The instant of the local activity that a path reports, or why its reasons are not accepted.
pub open spec fn activity_of(path: PathRecordView, prefix: Seq<char>) -> Result<
    Option<Timestamp>,
    Seq<char>,
> {
    activity_upto(path, prefix, path.score.reasons.len())
}

proof fn lemma_activity_fault_extends(path: PathRecordView, prefix: Seq<char>, m: nat, n: nat)
    requires
        m <= n,
        activity_upto(path, prefix, m) is Err,
    ensures
        activity_upto(path, prefix, n) == activity_upto(path, prefix, m),
    decreases n,
{
    if m < n {
        lemma_activity_fault_extends(path, prefix, m, (n - 1) as nat);
    }
}

/// The instant of the local activity that a path reports in its reasons.
pub fn lazy_connect_local_activity_at(path: &PathRecord, prefix: &str) -> (r: Result<
    Option<Timestamp>,
    String,
>)
    ensures
        match r {
            Ok(found) => activity_of(path@, prefix@) == Ok::<Option<Timestamp>, Seq<char>>(found),
            Err(reason) => activity_of(path@, prefix@) == Err::<Option<Timestamp>, Seq<char>>(
                reason@,
            ),
        },
{
    let ghost reasons = path@.score.reasons;
    let mut found: Option<Timestamp> = None;
    let mut i: usize = 0;
    while i < path.score.reasons.len()
        invariant
            i <= path.score.reasons@.len(),
            reasons == views(path.score.reasons@),
            reasons == path@.score.reasons,
            activity_upto(path@, prefix@, i as nat) == Ok::<Option<Timestamp>, Seq<char>>(found),
        decreases path.score.reasons@.len() - i,
    {
        if let Some(raw) = strip_prefix(path.score.reasons[i].as_str(), prefix) {
            if found.is_some() {
                proof {
                    lemma_activity_fault_extends(path@, prefix@, (i + 1) as nat, reasons.len());
                }
                return Err(
                    path_label(&path.key).concat(" has multiple lazy-connect activity reasons"),
                );
            }
            let millis = match parse_signed_number(raw) {
                Some(millis) => millis,
                None => {
                    proof {
                        lemma_activity_fault_extends(path@, prefix@, (i + 1) as nat, reasons.len());
                    }
                    return Err(
                        path_label(&path.key).concat(
                            " has an invalid lazy-connect activity timestamp",
                        ),
                    );
                },
            };
            let at = match timestamp_from_millis(millis) {
                Some(at) => at,
                None => {
                    proof {
                        lemma_activity_fault_extends(path@, prefix@, (i + 1) as nat, reasons.len());
                    }
                    return Err(
                        path_label(&path.key).concat(
                            " has an out-of-range lazy-connect activity timestamp",
                        ),
                    );
                },
            };
            found = Some(at);
        }
        i = i + 1;
    }
    Ok(found)
}

/// Why the candidate that a path has selected is not accepted.
pub open spec fn selected_candidate_fault(
    path: PathRecordView,
    candidate: EndpointCandidateView,
    now: Timestamp,
    skew: Span,
    ttl_seconds: u64,
) -> Option<Seq<char>> {
    let place = candidate.kind.name() + " at "@ + candidate.endpoint.addr.display();
    if candidate.node_id != path.key.remote {
        Some(
            "selected candidate belongs to node "@ + candidate.node_id + " instead of path peer "@
                + path.key.remote,
        )
    } else if candidate.kind_fault is Some {
        Some("selected candidate "@ + place + " is invalid: "@ + candidate.kind_fault->0)
    } else if !candidate.endpoint.usable {
        Some("selected candidate "@ + place + " is unusable"@)
    } else if path.selected_state.direct() && !path.selected_kind_allowed {
        Some(
            path_name(path.key) + " selected state "@ + path.selected_state.name()
                + " does not allow selected candidate kind "@ + candidate.kind.name(),
        )
    } else if !not_after_skew(candidate.observed_at, now, skew) {
        Some(
            "selected candidate "@ + place + " observed_at "@ + timestamp_display(
                candidate.observed_at,
            ) + " is too far in the future"@,
        )
    } else if !fresh(candidate.observed_at, now, ttl_seconds) {
        Some(
            "selected candidate "@ + place + " observed_at "@ + timestamp_display(
                candidate.observed_at,
            ) + " is stale"@,
        )
    } else {
        None
    }
}

fn candidate_place(candidate: &EndpointCandidate) -> (r: String)
    ensures
        r@ == candidate@.kind.name() + " at "@ + candidate@.endpoint.addr.display(),
{
    candidate.kind.as_str().to_owned().concat(" at ").concat(
        candidate.endpoint.addr.to_text().as_str(),
    )
}

fn check_selected_candidate(
    path: &PathRecord,
    candidate: &EndpointCandidate,
    now: Timestamp,
    skew: Span,
    ttl_seconds: u64,
) -> (r: Result<(), String>)
    ensures
        reason_of(r) == selected_candidate_fault(path@, candidate@, now, skew, ttl_seconds),
{
    if candidate.node_id != path.key.remote {
        return Err(
            "selected candidate belongs to node ".to_owned().concat(
                candidate.node_id.as_str(),
            ).concat(" instead of path peer ").concat(path.key.remote.as_str()),
        );
    }
    let place = candidate_place(candidate);
    if let Some(reason) = &candidate.kind_fault {
        return Err(
            "selected candidate ".to_owned().concat(place.as_str()).concat(" is invalid: ").concat(
                reason.as_str(),
            ),
        );
    }
    if !candidate.endpoint.usable {
        return Err("selected candidate ".to_owned().concat(place.as_str()).concat(" is unusable"));
    }
    if path.selected_state.is_direct() && !path.selected_kind_allowed {
        return Err(
            path_label(&path.key).concat(" selected state ").concat(
                path.selected_state.as_str(),
            ).concat(" does not allow selected candidate kind ").concat(candidate.kind.as_str()),
        );
    }
    if !timestamp_not_after_skew(candidate.observed_at, now, skew) {
        return Err(
            "selected candidate ".to_owned().concat(place.as_str()).concat(" observed_at ").concat(
                timestamp_text(candidate.observed_at).as_str(),
            ).concat(" is too far in the future"),
        );
    }
    if !timestamp_is_fresh(candidate.observed_at, now, ttl_seconds) {
        return Err(
            "selected candidate ".to_owned().concat(place.as_str()).concat(" observed_at ").concat(
                timestamp_text(candidate.observed_at).as_str(),
            ).concat(" is stale"),
        );
    }
    Ok(())
}

/// The terms that the paths of a heartbeat are held to.
pub struct PathTerms {
    pub now: Timestamp,
    pub skew: Span,
    pub candidate_ttl_seconds: u64,
    pub max_reasons: usize,
    pub activity_prefix: Seq<char>,
}

/// Why the path at position `i` of a heartbeat is not accepted.
pub open spec fn path_fault(
    node_id: Seq<char>,
    paths: Seq<PathRecordView>,
    terms: PathTerms,
    i: int,
) -> Option<Seq<char>> {
    let path = paths[i];
    let activity = activity_of(path, terms.activity_prefix);
    if exists|j: int| 0 <= j < i && (#[trigger] paths[j]).key == path.key {
        Some(path_name(path.key) + " is repeated in heartbeat path_state"@)
    } else if !not_after_skew(path.updated_at, terms.now, terms.skew) {
        Some(
            path_name(path.key) + " updated_at "@ + timestamp_display(path.updated_at)
                + " is too far in the future"@,
        )
    } else if score_fault(path, terms.max_reasons) is Some {
        score_fault(path, terms.max_reasons)
    } else if activity matches Err(reason) {
        Some(activity->Err_0)
    } else if activity->Ok_0 is Some && !not_after_skew(
        activity->Ok_0->0,
        terms.now,
        terms.skew,
    ) {
        Some(
            path_name(path.key) + " lazy-connect activity "@ + timestamp_display(
                activity->Ok_0->0,
            ) + " is too far in the future"@,
        )
    } else if path.key.local != node_id {
        Some(path_name(path.key) + " is not owned by reporting node "@ + node_id)
    } else if path.key.remote == node_id {
        Some(path_name(path.key) + " points back to the reporting node"@)
    } else {
        match path.selected_candidate {
            Some(candidate) => selected_candidate_fault(
                path,
                candidate,
                terms.now,
                terms.skew,
                terms.candidate_ttl_seconds,
            ),
            None => None,
        }
    }
}

/// Why one of the first `n` paths of a heartbeat is not accepted.
pub open spec fn first_path_fault(
    node_id: Seq<char>,
    paths: Seq<PathRecordView>,
    terms: PathTerms,
    n: nat,
) -> Option<Seq<char>> {
    first_in(n, |i: int| path_fault(node_id, paths, terms, i))
}

/// Why the paths of a heartbeat are not accepted.
pub open spec fn paths_fault(
    node_id: Seq<char>,
    paths: Seq<PathRecordView>,
    terms: PathTerms,
) -> Option<Seq<char>> {
    if paths.len() > MAX_HEARTBEAT_PATH_STATES {
        Some(
            "heartbeat path_state contains "@ + decimal(paths.len()) + " entries; maximum is "@
                + decimal(MAX_HEARTBEAT_PATH_STATES as nat),
        )
    } else {
        first_path_fault(node_id, paths, terms, paths.len())
    }
}

/// The terms that the paths of a heartbeat are held to under a configuration and a policy.
pub open spec fn path_terms(
    config: ControlPlaneConfig,
    limits: ProtocolLimits,
    policy: ClusterPolicyView,
    now: Timestamp,
) -> PathTerms {
    PathTerms {
        now,
        skew: config.heartbeat_signature_max_age,
        candidate_ttl_seconds: policy.endpoint_candidate_ttl_seconds,
        max_reasons: limits.max_path_score_reasons,
        activity_prefix: limits.lazy_connect_prefix@,
    }
}

fn repeats_path_key(paths: &Vec<PathRecord>, i: usize) -> (r: bool)
    requires
        i < paths@.len(),
    ensures
        r == exists|j: int|
            0 <= j < i && (#[trigger] views(paths@)[j]).key == views(paths@)[i as int].key,
{
    let mut j: usize = 0;
    while j < i
        invariant
            j <= i,
            i < paths@.len(),
            forall|k: int| 0 <= k < j ==> (#[trigger] views(paths@)[k]).key != views(paths@)[i as int].key,
        decreases i - j,
    {
        if paths[j].key.local == paths[i].key.local && paths[j].key.remote == paths[i].key.remote {
            assert(views(paths@)[j as int].key == views(paths@)[i as int].key);
            return true;
        }
        j = j + 1;
    }
    false
}

fn check_path(
    config: &ControlPlaneConfig,
    limits: &ProtocolLimits,
    node_id: &NodeId,
    paths: &Vec<PathRecord>,
    policy: &ClusterPolicy,
    now: Timestamp,
    i: usize,
) -> (r: Result<(), String>)
    requires
        i < paths@.len(),
    ensures
        reason_of(r) == path_fault(
            node_id@,
            views(paths@),
            path_terms(*config, *limits, policy@, now),
            i as int,
        ),
{
    let path = &paths[i];
    let skew = config.heartbeat_signature_max_age;
    assert(views(paths@)[i as int] == path@);
    if repeats_path_key(paths, i) {
        return Err(path_label(&path.key).concat(" is repeated in heartbeat path_state"));
    }
    if !timestamp_not_after_skew(path.updated_at, now, skew) {
        return Err(
            path_label(&path.key).concat(" updated_at ").concat(
                timestamp_text(path.updated_at).as_str(),
            ).concat(" is too far in the future"),
        );
    }
    validate_path_score_shape(path, limits.max_path_score_reasons)?;
    let activity = match lazy_connect_local_activity_at(path, limits.lazy_connect_prefix.as_str()) {
        Ok(activity) => activity,
        Err(reason) => return Err(reason),
    };
    if let Some(at) = activity {
        if !timestamp_not_after_skew(at, now, skew) {
            return Err(
                path_label(&path.key).concat(" lazy-connect activity ").concat(
                    timestamp_text(at).as_str(),
                ).concat(" is too far in the future"),
            );
        }
    }
    if path.key.local != *node_id {
        return Err(
            path_label(&path.key).concat(" is not owned by reporting node ").concat(
                node_id.as_str(),
            ),
        );
    }
    if path.key.remote == *node_id {
        return Err(path_label(&path.key).concat(" points back to the reporting node"));
    }
    match &path.selected_candidate {
        Some(candidate) => check_selected_candidate(
            path,
            candidate,
            now,
            skew,
            policy.endpoint_candidate_ttl_seconds,
        ),
        None => Ok(()),
    }
}

/// Checks the paths of a heartbeat.
pub fn validate_heartbeat_paths(
    config: &ControlPlaneConfig,
    limits: &ProtocolLimits,
    node_id: &NodeId,
    paths: &Vec<PathRecord>,
    policy: &ClusterPolicy,
    now: Timestamp,
) -> (r: Result<(), String>)
    ensures
        reason_of(r) == paths_fault(
            node_id@,
            views(paths@),
            path_terms(*config, *limits, policy@, now),
        ),
{
    let ghost all = views(paths@);
    let ghost terms = path_terms(*config, *limits, policy@, now);
    if paths.len() > MAX_HEARTBEAT_PATH_STATES {
        return Err(
            "heartbeat path_state contains ".to_owned().concat(
                decimal_text(paths.len() as u64).as_str(),
            ).concat(" entries; maximum is ").concat(
                decimal_text(MAX_HEARTBEAT_PATH_STATES as u64).as_str(),
            ),
        );
    }
    let mut i: usize = 0;
    while i < paths.len()
        invariant
            i <= paths@.len(),
            paths@.len() <= MAX_HEARTBEAT_PATH_STATES,
            all == views(paths@),
            terms == path_terms(*config, *limits, policy@, now),
            first_path_fault(node_id@, all, terms, i as nat) is None,
        decreases paths@.len() - i,
    {
        let checked = check_path(config, limits, node_id, paths, policy, now, i);
        if checked.is_err() {
            proof {
                lemma_first_in_extends(
                    (i + 1) as nat,
                    all.len(),
                    |k: int| path_fault(node_id@, all, terms, k),
                );
            }
            return checked;
        }
        i = i + 1;
    }
    Ok(())
}

/// Why the node may not advertise a route.
pub open spec fn route_right_refusal(
    node_id: Seq<char>,
    route: RouteView,
    token_policy: TokenPolicyView,
) -> Option<ControlPlaneErrorView> {
    if route.advertised_by != node_id {
        Some(
            ControlPlaneErrorView::NodeUpdateRejected {
                node_id,
                reason: "route "@ + route.id + " is advertised by node "@ + route.advertised_by
                    + " instead of "@ + node_id,
            },
        )
    } else if !route_permitted(route, token_policy) {
        Some(ControlPlaneErrorView::RouteDenied { route_id: route.id })
    } else {
        None
    }
}

/// Why the node may not advertise one of the first `n` routes.
pub open spec fn first_route_right_refusal(
    node_id: Seq<char>,
    routes: Seq<RouteView>,
    token_policy: TokenPolicyView,
    n: nat,
) -> Option<ControlPlaneErrorView> {
    first_in(n, |i: int| route_right_refusal(node_id, routes[i], token_policy))
}

/// A rejection of an update, where there is a reason for it.
pub open spec fn update_rejection(
    node_id: Seq<char>,
    reason: Option<Seq<char>>,
) -> Option<ControlPlaneErrorView> {
    match reason {
        Some(reason) => Some(ControlPlaneErrorView::NodeUpdateRejected { node_id, reason }),
        None => None,
    }
}

/// Why the routes of a heartbeat are not accepted.
pub open spec fn heartbeat_routes_refusal(
    node_id: Seq<char>,
    routes: Seq<RouteView>,
    token_policy: TokenPolicyView,
    policy: ClusterPolicyView,
) -> Option<ControlPlaneErrorView> {
    if routes_shape_fault(node_id, routes) is Some {
        update_rejection(node_id, routes_shape_fault(node_id, routes))
    } else if scope_fault(routes, policy.overlay_route_scopes) is Some {
        update_rejection(node_id, scope_fault(routes, policy.overlay_route_scopes))
    } else {
        first_route_right_refusal(node_id, routes, token_policy, routes.len())
    }
}

fn reject_update(node_id: &NodeId, r: Result<(), String>) -> (out: Result<(), ControlPlaneError>)
    ensures
        refusal(out) == update_rejection(node_id@, reason_of(r)),
{
    match r {
        Ok(()) => Ok(()),
        Err(reason) => Err(
            ControlPlaneError::NodeUpdateRejected { node_id: node_id.clone(), reason },
        ),
    }
}

fn check_heartbeat_routes(
    node_id: &NodeId,
    routes: &Vec<Route>,
    token_policy: &TokenPolicy,
    policy: &ClusterPolicy,
) -> (r: Result<(), ControlPlaneError>)
    ensures
        refusal(r) == heartbeat_routes_refusal(
            node_id@,
            views(routes@),
            token_policy@,
            policy@,
        ),
{
    let ghost all = views(routes@);
    reject_update(node_id, validate_advertised_routes_shape(node_id, routes))?;
    reject_update(node_id, validate_routes_within_overlay_scopes(routes, policy))?;
    let mut i: usize = 0;
    while i < routes.len()
        invariant
            i <= routes@.len(),
            all == views(routes@),
            routes_shape_fault(node_id@, all) is None,
            scope_fault(all, policy@.overlay_route_scopes) is None,
            first_route_right_refusal(node_id@, all, token_policy@, i as nat) is None,
        decreases routes@.len() - i,
    {
        let route = &routes[i];
        assert(all[i as int] == route@);
        if route.advertised_by != *node_id {
            let reason = "route ".to_owned().concat(route.id.as_str()).concat(
                " is advertised by node ",
            ).concat(route.advertised_by.as_str()).concat(" instead of ").concat(node_id.as_str());
            proof {
                lemma_first_in_extends(
                    (i + 1) as nat,
                    all.len(),
                    |k: int| route_right_refusal(node_id@, all[k], token_policy@),
                );
            }
            return Err(
                ControlPlaneError::NodeUpdateRejected { node_id: node_id.clone(), reason },
            );
        }
        if !route_allowed_by_policy(route, token_policy) {
            proof {
                lemma_first_in_extends(
                    (i + 1) as nat,
                    all.len(),
                    |k: int| route_right_refusal(node_id@, all[k], token_policy@),
                );
            }
            return Err(ControlPlaneError::RouteDenied { route_id: route.id.clone() });
        }
        i = i + 1;
    }
    Ok(())
}

/// Why the signature of a heartbeat is not accepted. `signature_fault` is what the check of the
/// signature itself found wrong.
pub open spec fn heartbeat_signature_refusal(
    config: ControlPlaneConfig,
    node_id: Seq<char>,
    signed_at: Option<Timestamp>,
    signature_fault: Option<Seq<char>>,
    previous_signature_at: Option<Timestamp>,
    now: Timestamp,
) -> Option<ControlPlaneErrorView> {
    match signed_at {
        None => if config.require_heartbeat_signature {
            Some(ControlPlaneErrorView::NodeSignatureRequired { node_id })
        } else {
            None
        },
        Some(at) => if signature_fault is Some {
            Some(
                ControlPlaneErrorView::NodeSignatureRejected {
                    node_id,
                    reason: signature_fault->0,
                },
            )
        } else if !within_skew(at, now, config.heartbeat_signature_max_age) {
            Some(
                ControlPlaneErrorView::NodeSignatureRejected {
                    node_id,
                    reason: "signed_at "@ + timestamp_display(at) + " is outside the allowed "@
                        + decimal(config.heartbeat_signature_max_age.seconds as nat) + "s window"@,
                },
            )
        } else if previous_signature_at matches Some(previous) && at.at() <= previous.at() {
            Some(
                ControlPlaneErrorView::NodeSignatureRejected {
                    node_id,
                    reason: "signed_at "@ + timestamp_display(at)
                        + " is not newer than last accepted heartbeat "@ + timestamp_display(
                        previous_signature_at->0,
                    ),
                },
            )
        } else {
            None
        },
    }
}

fn check_heartbeat_signature(
    config: &ControlPlaneConfig,
    node_id: &NodeId,
    signed_at: Option<Timestamp>,
    signature_fault: &Option<String>,
    previous_signature_at: Option<Timestamp>,
    now: Timestamp,
) -> (r: Result<(), ControlPlaneError>)
    ensures
        refusal(r) == heartbeat_signature_refusal(
            *config,
            node_id@,
            signed_at,
            opt_view(*signature_fault),
            previous_signature_at,
            now,
        ),
{
    let at = match signed_at {
        None => {
            if config.require_heartbeat_signature {
                return Err(ControlPlaneError::NodeSignatureRequired { node_id: node_id.clone() });
            }
            return Ok(());
        },
        Some(at) => at,
    };
    if let Some(fault) = signature_fault {
        return Err(
            ControlPlaneError::NodeSignatureRejected {
                node_id: node_id.clone(),
                reason: fault.clone(),
            },
        );
    }
    if !timestamp_within_skew(at, now, config.heartbeat_signature_max_age) {
        return Err(
            ControlPlaneError::NodeSignatureRejected {
                node_id: node_id.clone(),
                reason: "signed_at ".to_owned().concat(timestamp_text(at).as_str()).concat(
                    " is outside the allowed ",
                ).concat(decimal_text(config.heartbeat_signature_max_age.seconds).as_str()).concat(
                    "s window",
                ),
            },
        );
    }
    if let Some(previous) = previous_signature_at {
        if at.at_or_before(&previous) {
            return Err(
                ControlPlaneError::NodeSignatureRejected {
                    node_id: node_id.clone(),
                    reason: "signed_at ".to_owned().concat(timestamp_text(at).as_str()).concat(
                        " is not newer than last accepted heartbeat ",
                    ).concat(timestamp_text(previous).as_str()),
                },
            );
        }
    }
    Ok(())
}

/// Why a heartbeat is not accepted: health, NAT classification, candidates, routes, paths and
/// signature are held to their terms in this order.
pub open spec fn heartbeat_refusal(
    config: ControlPlaneConfig,
    limits: ProtocolLimits,
    request: HeartbeatRequestView,
    token_policy: TokenPolicyView,
    policy: ClusterPolicyView,
    signature_fault: Option<Seq<char>>,
    previous_signature_at: Option<Timestamp>,
    now: Timestamp,
) -> Option<ControlPlaneErrorView> {
    let skew = config.heartbeat_signature_max_age;
    let id = request.node_id;
    let terms = path_terms(config, limits, policy, now);
    if health_fault(request.health, now, skew) is Some {
        update_rejection(id, health_fault(request.health, now, skew))
    } else if request.nat_classification is Some && nat_fault(
        request.nat_classification->0,
        now,
        skew,
    ) is Some {
        update_rejection(id, nat_fault(request.nat_classification->0, now, skew))
    } else if candidates_fault(request.candidates, id, now, skew) is Some {
        update_rejection(id, candidates_fault(request.candidates, id, now, skew))
    } else if request.routes is Some && heartbeat_routes_refusal(
        id,
        request.routes->0,
        token_policy,
        policy,
    ) is Some {
        heartbeat_routes_refusal(id, request.routes->0, token_policy, policy)
    } else if paths_fault(id, request.path_state, terms) is Some {
        update_rejection(id, paths_fault(id, request.path_state, terms))
    } else {
        heartbeat_signature_refusal(
            config,
            id,
            request.signed_at,
            signature_fault,
            previous_signature_at,
            now,
        )
    }
}

/// Checks a heartbeat of a registered node. `signature_fault` is what the check of the signature
/// itself found wrong.
pub fn validate_heartbeat_request(
    config: &ControlPlaneConfig,
    limits: &ProtocolLimits,
    request: &HeartbeatRequest,
    node: &NodeRecord,
    policy: &ClusterPolicy,
    signature_fault: &Option<String>,
    previous_signature_at: Option<Timestamp>,
    now: Timestamp,
) -> (r: Result<(), ControlPlaneError>)
    ensures
        refusal(r) == heartbeat_refusal(
            *config,
            *limits,
            request@,
            node@.token_policy,
            policy@,
            opt_view(*signature_fault),
            previous_signature_at,
            now,
        ),
{
    let skew = config.heartbeat_signature_max_age;
    reject_update(&request.node_id, validate_node_health_shape(&request.health, now, skew))?;
    if let Some(classification) = &request.nat_classification {
        reject_update(
            &request.node_id,
            validate_nat_classification_shape(classification, now, skew),
        )?;
    }
    reject_update(
        &request.node_id,
        validate_candidates(&request.candidates, &request.node_id, now, skew),
    )?;
    if let Some(routes) = &request.routes {
        check_heartbeat_routes(&request.node_id, routes, &node.token_policy, policy)?;
    }
    reject_update(
        &request.node_id,
        validate_heartbeat_paths(
            config,
            limits,
            &request.node_id,
            &request.path_state,
            policy,
            now,
        ),
    )?;
    check_heartbeat_signature(
        config,
        &request.node_id,
        request.signed_at,
        signature_fault,
        previous_signature_at,
        now,
    )
}

/// Reported health is sound exactly where it is not from further ahead than clocks may differ, its
/// latency is finite and not negative, and its load is finite and between zero and one.
pub proof fn law_sound_health(health: NodeHealthView, now: Timestamp, skew: Span)
    ensures
        health_fault(health, now, skew) is None <==> {
            &&& skew.fits_signed() && health.last_seen_at.at() <= now.at() + skew.len()
            &&& health.latency_ms is Some ==> health.latency_ms->0.finite()
                && health.latency_ms->0.non_negative()
            &&& health.relay_load is Some ==> health.relay_load->0.finite()
                && health.relay_load->0.in_unit_interval()
        },
{
}

/// Reported candidates are sound exactly where each is of the reporting node, has nothing against its
/// kind, and was observed no further ahead than clocks may differ.
pub proof fn law_sound_candidates(
    candidates: Seq<EndpointCandidateView>,
    node_id: Seq<char>,
    now: Timestamp,
    skew: Span,
)
    ensures
        candidates_fault(candidates, node_id, now, skew) is None <==> forall|i: int|
            0 <= i < candidates.len() ==> (#[trigger] candidates[i]).node_id == node_id
                && candidates[i].kind_fault is None && skew.fits_signed()
                && candidates[i].observed_at.at() <= now.at() + skew.len(),
{
    let n = candidates.len();
    let f = |i: int| candidate_owner_fault(candidates[i], node_id);
    let g = |i: int| candidate_kind_fault(candidates[i]);
    let h = |i: int| candidate_time_fault(candidates[i], now, skew);
    crate::lists::lemma_first_in_none(n, f);
    crate::lists::lemma_first_in_none(n, g);
    crate::lists::lemma_first_in_none(n, h);
    if candidates_fault(candidates, node_id, now, skew) is None {
        assert forall|i: int| 0 <= i < n implies (#[trigger] candidates[i]).node_id == node_id
            && candidates[i].kind_fault is None && skew.fits_signed()
            && candidates[i].observed_at.at() <= now.at() + skew.len() by {
            assert(f(i) is None && g(i) is None && h(i) is None);
        }
    }
}

/// An observation is at addresses that can be used, and from no further ahead than clocks may differ.
pub open spec fn sound_observation(
    observed_at: Timestamp,
    server: Endpoint,
    other: Option<Endpoint>,
    another: Option<Endpoint>,
    now: Timestamp,
    skew: Span,
) -> bool {
    &&& server.usable
    &&& other is Some ==> other->0.usable
    &&& another is Some ==> another->0.usable
    &&& skew.fits_signed() && observed_at.at() <= now.at() + skew.len()
}

/// A reported classification is sound exactly where what it says of public reach is supported, all
/// its addresses can be used, nothing in it is from further ahead than clocks may differ, and its
/// confidence is finite and between zero and one.
pub proof fn law_sound_classifications(
    classification: NatClassificationView,
    now: Timestamp,
    skew: Span,
)
    ensures
        nat_fault(classification, now, skew) is None <==> {
            let probes = classification.observations;
            let filterings = classification.filtering_observations;
            &&& classification.public_state_supported
            &&& classification.observed_endpoint is Some
                ==> classification.observed_endpoint->0.usable
            &&& skew.fits_signed() && classification.assessed_at.at() <= now.at() + skew.len()
            &&& classification.confidence.finite() && classification.confidence.in_unit_interval()
            &&& forall|i: int|
                0 <= i < probes.len() ==> sound_observation(
                    (#[trigger] probes[i]).observed_at,
                    probes[i].stun_server,
                    Some(probes[i].reflexive_addr),
                    None,
                    now,
                    skew,
                )
            &&& forall|i: int|
                0 <= i < filterings.len() ==> sound_observation(
                    (#[trigger] filterings[i]).observed_at,
                    filterings[i].stun_server,
                    filterings[i].response_origin,
                    filterings[i].other_address,
                    now,
                    skew,
                )
        },
{
    let probes = classification.observations;
    let filterings = classification.filtering_observations;
    let f = |i: int| probe_fault(probes[i], now, skew);
    let g = |i: int| filtering_fault(filterings[i], now, skew);
    crate::lists::lemma_first_in_none(probes.len(), f);
    crate::lists::lemma_first_in_none(filterings.len(), g);
    if nat_fault(classification, now, skew) is None {
        assert forall|i: int| 0 <= i < probes.len() implies sound_observation(
            (#[trigger] probes[i]).observed_at,
            probes[i].stun_server,
            Some(probes[i].reflexive_addr),
            None,
            now,
            skew,
        ) by {
            assert(f(i) is None);
        }
        assert forall|i: int| 0 <= i < filterings.len() implies sound_observation(
            (#[trigger] filterings[i]).observed_at,
            filterings[i].stun_server,
            filterings[i].response_origin,
            filterings[i].other_address,
            now,
            skew,
        ) by {
            assert(g(i) is None);
        }
    }
}

/// The score of a path is sound exactly where it is a number below infinity, is minus infinity only
/// where policy denied the path, and gives few and short reasons without control characters.
pub proof fn law_sound_scores(path: PathRecordView, max_reasons: usize)
    ensures
        score_fault(path, max_reasons) is None <==> {
            let reasons = path.score.reasons;
            &&& !path.score.value.nan()
            &&& path.score.value.bits != crate::float::INFINITY_BITS
            &&& path.score.value.bits == crate::float::NEGATIVE_INFINITY_BITS ==> reasons.contains(
                "policy_denied"@,
            )
            &&& reasons.len() <= max_reasons
            &&& forall|i: int|
                0 <= i < reasons.len() ==> byte_len(#[trigger] reasons[i])
                    <= MAX_PATH_SCORE_REASON_BYTES && !has_special_char(reasons[i], false)
            &&& reason_bytes(reasons, reasons.len()) <= MAX_PATH_SCORE_TOTAL_REASON_BYTES
        },
{
    let reasons = path.score.reasons;
    let f = |i: int| score_reason_fault(path.key, reasons[i]);
    crate::lists::lemma_first_in_none(reasons.len(), f);
    if first_score_reason_fault(path, reasons.len()) is None {
        assert forall|i: int| 0 <= i < reasons.len() implies byte_len(#[trigger] reasons[i])
            <= MAX_PATH_SCORE_REASON_BYTES && !has_special_char(reasons[i], false) by {
            assert(f(i) is None);
        }
    }
}

/// The bytes of reasons are those of each of them: one more reason adds its own, and none takes any
/// away.
pub proof fn law_reason_bytes_add_up(reasons: Seq<Seq<char>>, reason: Seq<char>)
    ensures
        reason_bytes(Seq::empty(), 0) == 0,
        reason_bytes(reasons.push(reason), reasons.len() + 1) == reason_bytes(
            reasons,
            reasons.len(),
        ) + byte_len(reason),
{
    lemma_reason_bytes_same(reasons, reasons.push(reason), reasons.len());
}

proof fn lemma_reason_bytes_same(a: Seq<Seq<char>>, b: Seq<Seq<char>>, n: nat)
    requires
        forall|i: int| 0 <= i < n ==> #[trigger] a[i] == b[i],
    ensures
        reason_bytes(a, n) == reason_bytes(b, n),
    decreases n,
{
    if n > 0 {
        lemma_reason_bytes_same(a, b, (n - 1) as nat);
    }
}

proof fn lemma_activity(path: PathRecordView, prefix: Seq<char>, n: nat)
    requires
        n <= path.score.reasons.len(),
    ensures
        activity_upto(path, prefix, n) == Ok::<Option<Timestamp>, Seq<char>>(None) <==> forall|
            i: int,
        |
            0 <= i < n ==> without_prefix(#[trigger] path.score.reasons[i], prefix) is None,
        forall|at: Timestamp|
            activity_upto(path, prefix, n) == Ok::<Option<Timestamp>, Seq<char>>(Some(at))
                <==> exists|i: int| 0 <= i < n && #[trigger] tells_activity(path, prefix, n, i, at),
    decreases n,
{
    if n > 0 {
        lemma_activity(path, prefix, (n - 1) as nat);
        let m = (n - 1) as nat;
        let reasons = path.score.reasons;
        let last = without_prefix(reasons[n - 1], prefix);
        let before = activity_upto(path, prefix, m);
        assert forall|at: Timestamp|
            activity_upto(path, prefix, n) == Ok::<Option<Timestamp>, Seq<char>>(Some(at))
                <==> exists|i: int|
                0 <= i < n && #[trigger] tells_activity(path, prefix, n, i, at) by {
            if activity_upto(path, prefix, n) == Ok::<Option<Timestamp>, Seq<char>>(Some(at)) {
                if last is None {
                    let i = choose|i: int|
                        0 <= i < m && #[trigger] tells_activity(path, prefix, m, i, at);
                    assert(tells_activity(path, prefix, n, i, at));
                } else {
                    assert(tells_activity(path, prefix, n, n - 1, at));
                }
            }
            if exists|i: int| 0 <= i < n && #[trigger] tells_activity(path, prefix, n, i, at) {
                let i = choose|i: int|
                    0 <= i < n && #[trigger] tells_activity(path, prefix, n, i, at);
                if i < m {
                    assert(without_prefix(reasons[n - 1], prefix) is None);
                    assert(tells_activity(path, prefix, m, i, at));
                } else {
                    assert(forall|j: int|
                        0 <= j < m ==> without_prefix(#[trigger] reasons[j], prefix) is None);
                    assert(before == Ok::<Option<Timestamp>, Seq<char>>(None));
                }
            }
        }
    }
}

/// Of the first `n` reasons of a path this one alone has the prefix, and behind it the milliseconds of
/// the instant.
pub open spec fn tells_activity(
    path: PathRecordView,
    prefix: Seq<char>,
    n: nat,
    i: int,
    at: Timestamp,
) -> bool {
    &&& without_prefix(path.score.reasons[i], prefix) matches Some(raw) && (signed_number(
        raw,
    ) matches Some(millis) && millis_instant(millis) == Some((at.seconds, at.nanos)))
    &&& forall|j: int|
        0 <= j < n && j != i ==> without_prefix(
            #[trigger] path.score.reasons[j],
            prefix,
        ) is None
}

/// A path tells of activity exactly where one of its reasons alone has the prefix, and behind it the
/// milliseconds of the instant; it tells of none exactly where no reason has the prefix.
pub proof fn law_one_reason_tells_of_activity(path: PathRecordView, prefix: Seq<char>)
    ensures
        activity_of(path, prefix) == Ok::<Option<Timestamp>, Seq<char>>(None) <==> forall|i: int|
            0 <= i < path.score.reasons.len() ==> without_prefix(
                #[trigger] path.score.reasons[i],
                prefix,
            ) is None,
        forall|at: Timestamp|
            activity_of(path, prefix) == Ok::<Option<Timestamp>, Seq<char>>(Some(at)) <==> exists|
                i: int,
            |
                0 <= i < path.score.reasons.len() && #[trigger] tells_activity(
                    path,
                    prefix,
                    path.score.reasons.len(),
                    i,
                    at,
                ),
{
    lemma_activity(path, prefix, path.score.reasons.len());
}

/// A reported path is sound exactly where it is reported once, leads from the reporting node to
/// another one, tells of nothing from further ahead than clocks may differ, has a sound score, and
/// has a candidate, if it has one, that is of the node at its far end, that can be used on such a
/// path, and that is neither from ahead nor too old.
pub proof fn law_sound_paths(
    node_id: Seq<char>,
    paths: Seq<PathRecordView>,
    terms: PathTerms,
    i: int,
)
    requires
        0 <= i < paths.len(),
    ensures
        path_fault(node_id, paths, terms, i) is None <==> {
            let path = paths[i];
            let limit = terms.now.at() + terms.skew.len();
            let activity = activity_of(path, terms.activity_prefix);
            &&& forall|j: int| 0 <= j < i ==> (#[trigger] paths[j]).key != path.key
            &&& terms.skew.fits_signed()
            &&& path.updated_at.at() <= limit
            &&& score_fault(path, terms.max_reasons) is None
            &&& activity is Ok
            &&& activity->Ok_0 is Some ==> activity->Ok_0->0.at() <= limit
            &&& path.key.local == node_id
            &&& path.key.remote != node_id
            &&& path.selected_candidate is Some ==> {
                let candidate = path.selected_candidate->0;
                &&& candidate.node_id == path.key.remote
                &&& candidate.kind_fault is None
                &&& candidate.endpoint.usable
                &&& path.selected_state.direct() ==> path.selected_kind_allowed
                &&& candidate.observed_at.at() <= limit
                &&& terms.now.at() <= candidate.observed_at.at() + terms.candidate_ttl_seconds
                    * 1_000_000_000
            }
        },
{
}

/// Reported paths are accepted exactly where they are not too many and each is sound.
pub proof fn law_each_reported_path_is_sound(
    node_id: Seq<char>,
    paths: Seq<PathRecordView>,
    terms: PathTerms,
)
    ensures
        paths_fault(node_id, paths, terms) is None <==> paths.len() <= MAX_HEARTBEAT_PATH_STATES
            && forall|i: int|
            0 <= i < paths.len() ==> #[trigger] path_fault(node_id, paths, terms, i) is None,
{
    let f = |i: int| path_fault(node_id, paths, terms, i);
    crate::lists::lemma_first_in_none(paths.len(), f);
    if first_path_fault(node_id, paths, terms, paths.len()) is None {
        assert forall|i: int| 0 <= i < paths.len() implies #[trigger] path_fault(
            node_id,
            paths,
            terms,
            i,
        ) is None by {
            assert(f(i) is None);
        }
    }
}

/// The routes of a heartbeat are accepted exactly where their shape is, where they lie within the
/// scopes, and where each is advertised by the node itself and permitted by its token.
pub proof fn law_reported_routes_are_permitted(
    node_id: Seq<char>,
    routes: Seq<RouteView>,
    token_policy: TokenPolicyView,
    policy: ClusterPolicyView,
)
    ensures
        heartbeat_routes_refusal(node_id, routes, token_policy, policy) is None <==> {
            &&& routes_shape_fault(node_id, routes) is None
            &&& scope_fault(routes, policy.overlay_route_scopes) is None
            &&& forall|i: int|
                0 <= i < routes.len() ==> (#[trigger] routes[i]).advertised_by == node_id
                    && route_permitted(routes[i], token_policy)
        },
{
    let f = |i: int| route_right_refusal(node_id, routes[i], token_policy);
    crate::lists::lemma_first_in_none(routes.len(), f);
    if first_route_right_refusal(node_id, routes, token_policy, routes.len()) is None {
        assert forall|i: int| 0 <= i < routes.len() implies (#[trigger] routes[i]).advertised_by
            == node_id && route_permitted(routes[i], token_policy) by {
            assert(f(i) is None);
        }
    }
}

/// The signature of a heartbeat is accepted exactly where it holds, is from within the window, and is
/// newer than the one that was last accepted; a heartbeat without one is accepted exactly where none
/// is required.
pub proof fn law_heartbeat_signatures_get_newer(
    config: ControlPlaneConfig,
    node_id: Seq<char>,
    signed_at: Option<Timestamp>,
    signature_fault: Option<Seq<char>>,
    previous_signature_at: Option<Timestamp>,
    now: Timestamp,
)
    ensures
        heartbeat_signature_refusal(
            config,
            node_id,
            signed_at,
            signature_fault,
            previous_signature_at,
            now,
        ) is None <==> {
            let window = config.heartbeat_signature_max_age;
            &&& signed_at is None ==> !config.require_heartbeat_signature
            &&& signed_at is Some ==> {
                &&& signature_fault is None
                &&& window.fits_signed()
                &&& signed_at->0.at() - now.at() <= window.len()
                &&& now.at() - signed_at->0.at() <= window.len()
                &&& previous_signature_at is Some ==> previous_signature_at->0.at()
                    < signed_at->0.at()
            }
        },
{
}

/// A heartbeat is accepted exactly where its health, its classification, its candidates, its routes,
/// its paths and its signature are.
pub proof fn law_heartbeats_are_sound_throughout(
    config: ControlPlaneConfig,
    limits: ProtocolLimits,
    request: HeartbeatRequestView,
    token_policy: TokenPolicyView,
    policy: ClusterPolicyView,
    signature_fault: Option<Seq<char>>,
    previous_signature_at: Option<Timestamp>,
    now: Timestamp,
)
    ensures
        heartbeat_refusal(
            config,
            limits,
            request,
            token_policy,
            policy,
            signature_fault,
            previous_signature_at,
            now,
        ) is None <==> {
            let skew = config.heartbeat_signature_max_age;
            let id = request.node_id;
            let terms = PathTerms {
                now,
                skew,
                candidate_ttl_seconds: policy.endpoint_candidate_ttl_seconds,
                max_reasons: limits.max_path_score_reasons,
                activity_prefix: limits.lazy_connect_prefix@,
            };
            &&& health_fault(request.health, now, skew) is None
            &&& request.nat_classification is Some ==> nat_fault(
                request.nat_classification->0,
                now,
                skew,
            ) is None
            &&& candidates_fault(request.candidates, id, now, skew) is None
            &&& request.routes is Some ==> heartbeat_routes_refusal(
                id,
                request.routes->0,
                token_policy,
                policy,
            ) is None
            &&& paths_fault(id, request.path_state, terms) is None
            &&& heartbeat_signature_refusal(
                config,
                id,
                request.signed_at,
                signature_fault,
                previous_signature_at,
                now,
            ) is None
        },
{
}

} // verus!
