//! The placement of identity providers on nodes.

use vstd::prelude::*;
use vstd::utf8::*;

use crate::digest::{push_bytes, sha256, sha256_of};
use crate::error::{refusal, ControlPlaneError, ControlPlaneErrorView};
use crate::ids::{role_is_client, ClusterId, NodeId};
use crate::lists::{first_in, kept, lemma_first_in_extends};
use crate::map::{held, OrderedMap};
use crate::net::IpAddr;
use crate::nodes::{
    entry_of, find_entry, find_node, health_lets_relay, named, relay_health_allows,
};
use crate::order::{
    ascends_by, key_lt, key_view, keys_differ, keys_of, keys_view, law_sorting_forgets_the_order,
    lemma_key_lt_irreflexive, lemma_sorted_by, lemma_sorted_is_ascending_list, sort_records,
    sorted_by, KeyPart, KeyPartView, KeyView,
};
use crate::routes::{text_key, text_sort_key};
use crate::service::MAX_SERVICE_LEASE_SECONDS;
use crate::store::at_most;
use crate::text::{
    byte_len, byte_length, hexadecimal, hexadecimal_text, identifier_text, is_identifier_text,
    text_same,
};
use crate::time::{Span, Timestamp, MAX_TIMESTAMP_SECONDS};
use crate::types::{
    lemma_views_push, ref_view, views, ClusterPolicy, ClusterPolicyView, KeycloakCandidateLease,
    KeycloakCandidateLeaseView, NodeHealth, NodeHealthView, NodeRecord, NodeRecordView, Record,
};

verus! {

/// How many candidates are read at a time.
pub const KEYCLOAK_CANDIDATE_PAGE_SIZE: usize = 64;

/// The shortest lease of a candidate, in seconds.
pub const MIN_KEYCLOAK_LEASE_SECONDS: u64 = 15;

/// Whether a candidate is eligible where nothing is said of it.
pub fn default_keycloak_candidate_eligible() -> (r: bool)
    ensures
        r,
{
    true
}

/// The nodes that run an identity provider.
#[derive(Debug)]
pub struct KeycloakPlacement {
    pub placement_id: String,
    pub replicas: Vec<KeycloakCandidateLease>,
}

/// What is digested for the rank of a node.
pub open spec fn rank_frame(cluster_id: Seq<char>, node_id: Seq<char>) -> Seq<u8> {
    encode_utf8("heteronetwork-keycloak-placement-v1"@) + seq![0u8] + encode_utf8(cluster_id)
        + seq![0u8] + encode_utf8(node_id)
}

/// The bytes, each taken from 255: what comes first among these comes last among the others.
pub open spec fn inverted(bytes: Seq<u8>) -> Seq<u8> {
    Seq::new(bytes.len(), |i: int| (255 - bytes[i]) as u8)
}

/// The key by which candidates are preferred: ready ones, then by descending digest, then by
/// identifier.
pub open spec fn rank_key(cluster_id: Seq<char>, candidate: KeycloakCandidateLeaseView) -> KeyView {
    seq![
        KeyPartView::Number(
            if candidate.ready {
                0
            } else {
                1
            },
        ),
        KeyPartView::Bytes(inverted(sha256_of(rank_frame(cluster_id, candidate.node_id)))),
        KeyPartView::Bytes(encode_utf8(candidate.node_id)),
    ]
}

/// The candidates in the order of preference.
pub open spec fn ranked(
    cluster_id: Seq<char>,
    candidates: Seq<KeycloakCandidateLeaseView>,
) -> Seq<KeycloakCandidateLeaseView> {
    sorted_by(
        candidates,
        |candidate: KeycloakCandidateLeaseView| rank_key(cluster_id, candidate),
    )
}

/// The candidates in the order of their nodes.
pub open spec fn by_node(candidates: Seq<KeycloakCandidateLeaseView>) -> Seq<
    KeycloakCandidateLeaseView,
> {
    sorted_by(candidates, |candidate: KeycloakCandidateLeaseView| text_key(candidate.node_id))
}

/// The candidates that are placed: the preferred ones, as many as desired, in the order of their
/// nodes.
pub open spec fn placed(
    cluster_id: Seq<char>,
    candidates: Seq<KeycloakCandidateLeaseView>,
    desired: nat,
) -> Seq<KeycloakCandidateLeaseView> {
    by_node(at_most(ranked(cluster_id, candidates), desired))
}

/// The identifiers of the first `n` replicas, each behind a zero byte.
pub open spec fn replica_bytes(replicas: Seq<KeycloakCandidateLeaseView>, n: nat) -> Seq<u8>
    decreases n,
{
    if n == 0 {
        Seq::empty()
    } else {
        replica_bytes(replicas, (n - 1) as nat) + seq![0u8] + encode_utf8(replicas[n - 1].node_id)
    }
}

/// What is digested for the identifier of a placement.
pub open spec fn placement_frame(
    cluster_id: Seq<char>,
    replicas: Seq<KeycloakCandidateLeaseView>,
) -> Seq<u8> {
    encode_utf8("heteronetwork-keycloak-placement-id-v1"@) + seq![0u8] + encode_utf8(cluster_id)
        + replica_bytes(replicas, replicas.len())
}

/// The first `n` bytes as pairs of hexadecimal digits.
pub open spec fn hex_digits(bytes: Seq<u8>, n: nat) -> Seq<char>
    decreases n,
{
    if n == 0 {
        Seq::empty()
    } else {
        hex_digits(bytes, (n - 1) as nat) + hexadecimal(bytes[n - 1] as nat, 2)
    }
}

/// The identifier of a placement.
pub open spec fn placement_name(
    cluster_id: Seq<char>,
    replicas: Seq<KeycloakCandidateLeaseView>,
) -> Seq<char> {
    let digest = sha256_of(placement_frame(cluster_id, replicas));
    hex_digits(digest, digest.len())
}

fn rank_digest(cluster_id: &ClusterId, node_id: &NodeId) -> (r: Vec<u8>)
    ensures
        r@ == sha256_of(rank_frame(cluster_id@, node_id@)),
{
    let mut frame: Vec<u8> = Vec::new();
    push_bytes(&mut frame, "heteronetwork-keycloak-placement-v1".as_bytes());
    frame.push(0);
    push_bytes(&mut frame, cluster_id.as_str().as_bytes());
    frame.push(0);
    push_bytes(&mut frame, node_id.as_str().as_bytes());
    assert(frame@ =~= rank_frame(cluster_id@, node_id@));
    sha256(&frame)
}

fn invert(bytes: &Vec<u8>) -> (r: Vec<u8>)
    ensures
        r@ == inverted(bytes@),
{
    let mut r: Vec<u8> = Vec::new();
    let mut i: usize = 0;
    while i < bytes.len()
        invariant
            i <= bytes@.len(),
            r@.len() == i,
            forall|k: int| 0 <= k < i ==> #[trigger] r@[k] == (255 - bytes@[k]) as u8,
        decreases bytes@.len() - i,
    {
        r.push(255 - bytes[i]);
        i = i + 1;
    }
    assert(r@ =~= inverted(bytes@));
    r
}

fn rank_sort_key(cluster_id: &ClusterId, candidate: &KeycloakCandidateLease) -> (r: Vec<KeyPart>)
    ensures
        key_view(r@) == rank_key(cluster_id@, candidate@),
{
    let mut id: Vec<u8> = Vec::new();
    push_bytes(&mut id, candidate.node_id.as_str().as_bytes());
    assert(id@ =~= encode_utf8(candidate@.node_id));
    let mut r: Vec<KeyPart> = Vec::new();
    r.push(
        KeyPart::Number(
            if candidate.ready {
                0
            } else {
                1
            },
        ),
    );
    r.push(KeyPart::Bytes(invert(&rank_digest(cluster_id, &candidate.node_id))));
    r.push(KeyPart::Bytes(id));
    assert(key_view(r@) =~= rank_key(cluster_id@, candidate@));
    r
}

fn sort_ranked(cluster_id: &ClusterId, candidates: &Vec<KeycloakCandidateLease>) -> (r: Vec<
    KeycloakCandidateLease,
>)
    ensures
        views(r@) == ranked(cluster_id@, views(candidates@)),
{
    let ghost all = views(candidates@);
    let mut keys: Vec<Vec<KeyPart>> = Vec::new();
    let mut i: usize = 0;
    while i < candidates.len()
        invariant
            i <= candidates@.len(),
            keys@.len() == i,
            forall|k: int|
                0 <= k < i ==> key_view((#[trigger] keys@[k])@) == rank_key(
                    cluster_id@,
                    candidates@[k]@,
                ),
        decreases candidates@.len() - i,
    {
        keys.push(rank_sort_key(cluster_id, &candidates[i]));
        i = i + 1;
    }
    assert(keys_view(keys@) =~= keys_of(
        all,
        |candidate: KeycloakCandidateLeaseView| rank_key(cluster_id@, candidate),
    ));
    sort_records(candidates, &keys)
}

fn sort_by_node(candidates: &Vec<KeycloakCandidateLease>) -> (r: Vec<KeycloakCandidateLease>)
    ensures
        views(r@) == by_node(views(candidates@)),
{
    let ghost all = views(candidates@);
    let mut keys: Vec<Vec<KeyPart>> = Vec::new();
    let mut i: usize = 0;
    while i < candidates.len()
        invariant
            i <= candidates@.len(),
            keys@.len() == i,
            forall|k: int|
                0 <= k < i ==> key_view((#[trigger] keys@[k])@) == text_key(
                    candidates@[k]@.node_id,
                ),
        decreases candidates@.len() - i,
    {
        keys.push(text_sort_key(candidates[i].node_id.as_str()));
        i = i + 1;
    }
    assert(keys_view(keys@) =~= keys_of(
        all,
        |candidate: KeycloakCandidateLeaseView| text_key(candidate.node_id),
    ));
    sort_records(candidates, &keys)
}

fn name_placement(cluster_id: &ClusterId, replicas: &Vec<KeycloakCandidateLease>) -> (r: String)
    ensures
        r@ == placement_name(cluster_id@, views(replicas@)),
{
    let ghost all = views(replicas@);
    let mut frame: Vec<u8> = Vec::new();
    push_bytes(&mut frame, "heteronetwork-keycloak-placement-id-v1".as_bytes());
    frame.push(0);
    push_bytes(&mut frame, cluster_id.as_str().as_bytes());
    let ghost head = frame@;
    let mut i: usize = 0;
    assert(head =~= head + replica_bytes(all, 0));
    while i < replicas.len()
        invariant
            i <= replicas@.len(),
            all == views(replicas@),
            frame@ == head + replica_bytes(all, i as nat),
        decreases replicas@.len() - i,
    {
        assert(all[i as int] == replicas@[i as int]@);
        frame.push(0);
        push_bytes(&mut frame, replicas[i].node_id.as_str().as_bytes());
        i = i + 1;
        assert(frame@ =~= head + replica_bytes(all, i as nat));
    }
    assert(frame@ =~= placement_frame(cluster_id@, all));
    let digest = sha256(&frame);
    let mut r = String::new();
    let mut k: usize = 0;
    while k < digest.len()
        invariant
            k <= digest@.len(),
            r@ == hex_digits(digest@, k as nat),
        decreases digest@.len() - k,
    {
        r = r.concat(hexadecimal_text(digest[k] as u128, 2).as_str());
        k = k + 1;
    }
    r
}

/// Places identity providers on the preferred candidates, as many as desired.
pub fn select_keycloak_candidates(
    cluster_id: &ClusterId,
    candidates: &Vec<KeycloakCandidateLease>,
    desired_replicas: usize,
) -> (r: KeycloakPlacement)
    ensures
        views(r.replicas@) == placed(cluster_id@, views(candidates@), desired_replicas as nat),
        r.placement_id@ == placement_name(cluster_id@, views(r.replicas@)),
{
    let mut chosen = sort_ranked(cluster_id, candidates);
    let ghost all = views(chosen@);
    if chosen.len() > desired_replicas {
        chosen.truncate(desired_replicas);
        assert(views(chosen@) =~= all.take(desired_replicas as int));
    }
    let replicas = sort_by_node(&chosen);
    let placement_id = name_placement(cluster_id, &replicas);
    KeycloakPlacement { placement_id, replicas }
}

/// Why a request to place identity providers is not accepted.
pub open spec fn placement_request_fault(
    version: Seq<char>,
    generation: i64,
    lease_ttl: Span,
    desired_replicas: usize,
    max_candidates: usize,
) -> Option<Seq<char>> {
    if !(1 <= desired_replicas <= 9) || !(desired_replicas <= max_candidates <= 64) {
        Some("Keycloak placement must request 1 to 9 replicas from at most 64 candidates"@)
    } else if generation <= 0 {
        Some("Keycloak candidate generation must be a positive signed 63-bit integer"@)
    } else if lease_ttl.len() < MIN_KEYCLOAK_LEASE_SECONDS * 1_000_000_000 || lease_ttl.len()
        > MAX_SERVICE_LEASE_SECONDS * 1_000_000_000 {
        Some("Keycloak candidate lease must be between 15 and 300 seconds"@)
    } else if version.len() == 0 || byte_len(version) > 64 || !identifier_text(version, false) {
        Some("Keycloak version must be 1 to 64 ASCII letters, digits, '.', '_' or '-'"@)
    } else {
        None
    }
}

/// Checks a request to place identity providers.
pub fn validate_placement_request(
    version: &str,
    generation: i64,
    lease_ttl: Span,
    desired_replicas: usize,
    max_candidates: usize,
) -> (r: Result<(), ControlPlaneError>)
    ensures
        refusal(r) == crate::policy::policy_rejection(
            placement_request_fault(
                version@,
                generation,
                lease_ttl,
                desired_replicas,
                max_candidates,
            ),
        ),
{
    if desired_replicas < 1 || desired_replicas > 9 || max_candidates < desired_replicas
        || max_candidates > 64 {
        return Err(
            ControlPlaneError::InvalidClusterPolicy {
                reason:
                    "Keycloak placement must request 1 to 9 replicas from at most 64 candidates".to_owned(),
            },
        );
    }
    if generation <= 0 {
        return Err(
            ControlPlaneError::InvalidClusterPolicy {
                reason:
                    "Keycloak candidate generation must be a positive signed 63-bit integer".to_owned(),
            },
        );
    }
    let ttl: i128 = lease_ttl.total_nanos();
    if ttl < MIN_KEYCLOAK_LEASE_SECONDS as i128 * 1_000_000_000 || ttl
        > MAX_SERVICE_LEASE_SECONDS as i128 * 1_000_000_000 {
        return Err(
            ControlPlaneError::InvalidClusterPolicy {
                reason: "Keycloak candidate lease must be between 15 and 300 seconds".to_owned(),
            },
        );
    }
    if version.unicode_len() == 0 || byte_length(version) > 64 || !is_identifier_text(
        version,
        false,
    ) {
        return Err(
            ControlPlaneError::InvalidClusterPolicy {
                reason:
                    "Keycloak version must be 1 to 64 ASCII letters, digits, '.', '_' or '-'".to_owned(),
            },
        );
    }
    Ok(())
}

/// What a node says of itself when it stands ready to run an identity provider.
#[derive(Debug)]
pub struct KeycloakCandidacy {
    pub node_id: NodeId,
    pub vpn_ip: IpAddr,
    pub version: String,
    pub eligible: bool,
    pub ready: bool,
    pub generation: i64,
    pub lease_ttl: Span,
}

/// The first node of a cluster with an identifier.
pub open spec fn first_named(
    nodes: Seq<NodeRecordView>,
    cluster_id: Seq<char>,
    node_id: Seq<char>,
    n: nat,
) -> Option<NodeRecordView> {
    first_in(
        n,
        |i: int|
            if nodes[i].cluster_id == cluster_id && nodes[i].node_id == node_id {
                Some(nodes[i])
            } else {
                None
            },
    )
}

fn find_first_named<'a>(
    nodes: &'a Vec<NodeRecord>,
    cluster_id: &ClusterId,
    node_id: &NodeId,
) -> (r: Option<&'a NodeRecord>)
    ensures
        ref_view(r) == first_named(views(nodes@), cluster_id@, node_id@, nodes@.len()),
{
    let ghost all = views(nodes@);
    let ghost f = |i: int|
        if all[i].cluster_id == cluster_id@ && all[i].node_id == node_id@ {
            Some(all[i])
        } else {
            None
        };
    let mut i: usize = 0;
    while i < nodes.len()
        invariant
            i <= nodes@.len(),
            all == views(nodes@),
            f == (|i: int|
                if all[i].cluster_id == cluster_id@ && all[i].node_id == node_id@ {
                    Some(all[i])
                } else {
                    None
                }),
            first_in(i as nat, f) is None,
        decreases nodes@.len() - i,
    {
        assert(all[i as int] == nodes@[i as int]@);
        if nodes[i].cluster_id == *cluster_id && nodes[i].node_id == *node_id {
            proof {
                lemma_first_in_extends((i + 1) as nat, all.len(), f);
            }
            return Some(&nodes[i]);
        }
        i = i + 1;
    }
    None
}

/// Why a candidacy is not accepted.
pub open spec fn candidacy_refusal(
    candidacy: KeycloakCandidacy,
    cluster_id: Seq<char>,
    nodes: Seq<NodeRecordView>,
    health: Map<Seq<Seq<char>>, NodeHealthView>,
    policy: ClusterPolicyView,
    now: Timestamp,
) -> Option<ControlPlaneErrorView> {
    let id = candidacy.node_id@;
    match first_named(nodes, cluster_id, id, nodes.len()) {
        None => Some(ControlPlaneErrorView::NodeNotFound { node_id: id }),
        Some(node) => if role_is_client(node.role) || node.vpn_ip != candidacy.vpn_ip {
            Some(
                ControlPlaneErrorView::NodeUpdateRejected {
                    node_id: id,
                    reason:
                        "Keycloak candidate identity or VPN address does not match registration"@,
                },
            )
        } else if candidacy.eligible && !health_lets_relay(
            entry_of(health, id),
            now,
            policy.relay_health_ttl_seconds,
        ) {
            Some(
                ControlPlaneErrorView::NodeUpdateRejected {
                    node_id: id,
                    reason: "Keycloak candidate heartbeat is unhealthy or stale"@,
                },
            )
        } else if now.at() + candidacy.lease_ttl.len() >= (MAX_TIMESTAMP_SECONDS + 1)
            * 1_000_000_000 {
            Some(
                ControlPlaneErrorView::Store {
                    reason: "Keycloak candidate lease expiration is out of range"@,
                },
            )
        } else {
            None
        },
    }
}

/// Checks a candidacy, and gives the lease that it stands under.
pub fn accept_candidacy(
    candidacy: &KeycloakCandidacy,
    cluster_id: &ClusterId,
    nodes: &Vec<NodeRecord>,
    health_by_node: &OrderedMap<NodeId, NodeHealth>,
    policy: &ClusterPolicy,
    now: Timestamp,
) -> (r: Result<KeycloakCandidateLease, ControlPlaneError>)
    requires
        health_by_node.wf(),
        now.nanos < 1_000_000_000,
        now.seconds <= MAX_TIMESTAMP_SECONDS,
        candidacy.lease_ttl.nanos < 1_000_000_000,
        candidacy.lease_ttl.len() <= MAX_SERVICE_LEASE_SECONDS * 1_000_000_000,
    ensures
        refusal(r) == candidacy_refusal(
            *candidacy,
            cluster_id@,
            views(nodes@),
            held(health_by_node@),
            policy@,
            now,
        ),
        r matches Ok(lease) ==> {
            &&& lease.lease_expires_at.at() == now.at() + candidacy.lease_ttl.len()
            &&& lease@ == (KeycloakCandidateLeaseView {
                cluster_id: cluster_id@,
                node_id: candidacy.node_id@,
                vpn_ip: candidacy.vpn_ip,
                version: candidacy.version@,
                ready: candidacy.ready,
                eligible: candidacy.eligible,
                generation: candidacy.generation,
                lease_expires_at: lease.lease_expires_at,
                updated_at: now,
            })
        },
{
    let node = match find_first_named(nodes, cluster_id, &candidacy.node_id) {
        Some(node) => node,
        None => return Err(
            ControlPlaneError::NodeNotFound { node_id: candidacy.node_id.clone() },
        ),
    };
    if node.role.is_client() || node.vpn_ip != candidacy.vpn_ip {
        return Err(
            ControlPlaneError::NodeUpdateRejected {
                node_id: candidacy.node_id.clone(),
                reason:
                    "Keycloak candidate identity or VPN address does not match registration".to_owned(),
            },
        );
    }
    if candidacy.eligible && !relay_health_allows(
        find_entry(health_by_node, &candidacy.node_id),
        now,
        policy.relay_health_ttl_seconds,
    ) {
        return Err(
            ControlPlaneError::NodeUpdateRejected {
                node_id: candidacy.node_id.clone(),
                reason: "Keycloak candidate heartbeat is unhealthy or stale".to_owned(),
            },
        );
    }
    let carry = now.nanos + candidacy.lease_ttl.nanos >= 1_000_000_000;
    let nanos: u32 = if carry {
        now.nanos + candidacy.lease_ttl.nanos - 1_000_000_000
    } else {
        now.nanos + candidacy.lease_ttl.nanos
    };
    let seconds: i64 = now.seconds + candidacy.lease_ttl.seconds as i64 + if carry {
        1
    } else {
        0
    };
    if seconds > MAX_TIMESTAMP_SECONDS {
        return Err(
            ControlPlaneError::Store {
                reason: "Keycloak candidate lease expiration is out of range".to_owned(),
            },
        );
    }
    Ok(
        KeycloakCandidateLease {
            cluster_id: cluster_id.clone(),
            node_id: candidacy.node_id.clone(),
            vpn_ip: candidacy.vpn_ip,
            version: candidacy.version.clone(),
            ready: candidacy.ready,
            eligible: candidacy.eligible,
            generation: candidacy.generation,
            lease_expires_at: Timestamp { seconds, nanos },
            updated_at: now,
        },
    )
}

/// The candidate is still what its node registered as, runs the version, and is healthy.
pub open spec fn qualified(
    candidate: KeycloakCandidateLeaseView,
    version: Seq<char>,
    registered: Seq<NodeRecordView>,
    health: Map<Seq<Seq<char>>, NodeHealthView>,
    policy: ClusterPolicyView,
    now: Timestamp,
) -> bool {
    &&& candidate.version == version
    &&& named(registered, candidate.node_id) matches Some(node) && node.vpn_ip == candidate.vpn_ip
    &&& health_lets_relay(
        entry_of(health, candidate.node_id),
        now,
        policy.relay_health_ttl_seconds,
    )
}

/// The candidates that have been read, after one more page of them.
pub open spec fn after_page(
    candidates: Seq<KeycloakCandidateLeaseView>,
    page: Seq<KeycloakCandidateLeaseView>,
    version: Seq<char>,
    registered: Seq<NodeRecordView>,
    health: Map<Seq<Seq<char>>, NodeHealthView>,
    policy: ClusterPolicyView,
    now: Timestamp,
    max_candidates: nat,
) -> Seq<KeycloakCandidateLeaseView> {
    at_most(
        candidates + kept(
            page,
            |candidate: KeycloakCandidateLeaseView|
                qualified(candidate, version, registered, health, policy, now),
            page.len(),
        ),
        max_candidates,
    )
}

/// Adds the qualified candidates of a page to those that have been read. Gives the node after
/// which the next page begins, where there is more to read.
pub fn absorb_candidate_page(
    candidates: &mut Vec<KeycloakCandidateLease>,
    page: &Vec<KeycloakCandidateLease>,
    version: &str,
    registered: &Vec<NodeRecord>,
    health_by_node: &OrderedMap<NodeId, NodeHealth>,
    policy: &ClusterPolicy,
    now: Timestamp,
    max_candidates: usize,
) -> (r: Option<NodeId>)
    requires
        health_by_node.wf(),
        old(candidates)@.len() <= max_candidates,
    ensures
        views(final(candidates)@) == after_page(
            views(old(candidates)@),
            views(page@),
            version@,
            views(registered@),
            held(health_by_node@),
            policy@,
            now,
            max_candidates as nat,
        ),
        match r {
            Some(next) => {
                &&& page@.len() == KEYCLOAK_CANDIDATE_PAGE_SIZE
                &&& final(candidates)@.len() < max_candidates
                &&& next@ == views(page@).last().node_id
            },
            None => page@.len() != KEYCLOAK_CANDIDATE_PAGE_SIZE || final(candidates)@.len()
                >= max_candidates,
        },
{
    let ghost before = views(candidates@);
    let ghost all = views(page@);
    let ghost keep = |candidate: KeycloakCandidateLeaseView|
        qualified(candidate, version@, views(registered@), held(health_by_node@), policy@, now);
    let mut i: usize = 0;
    assert(before =~= before + kept(all, keep, 0));
    while i < page.len()
        invariant
            health_by_node.wf(),
            i <= page@.len(),
            all == views(page@),
            keep == (|candidate: KeycloakCandidateLeaseView|
                qualified(candidate, version@, views(registered@), held(health_by_node@), policy@, now)),
            views(candidates@) == before + kept(all, keep, i as nat),
        decreases page@.len() - i,
    {
        broadcast use lemma_views_push;

        let candidate = &page[i];
        let ghost so_far = views(candidates@);
        assert(all[i as int] == candidate@);
        let registered_here = match find_node(registered, &candidate.node_id) {
            Some(node) => node.vpn_ip == candidate.vpn_ip,
            None => false,
        };
        if text_same(candidate.version.as_str(), version) && registered_here
            && relay_health_allows(
            find_entry(health_by_node, &candidate.node_id),
            now,
            policy.relay_health_ttl_seconds,
        ) {
            candidates.push(candidate.duplicate());
            assert(views(candidates@) == so_far.push(all[i as int]));
        }
        i = i + 1;
        assert(views(candidates@) =~= before + kept(all, keep, i as nat));
    }
    let ghost read = views(candidates@);
    if candidates.len() > max_candidates {
        candidates.truncate(max_candidates);
        assert(views(candidates@) =~= read.take(max_candidates as int));
    }
    if page.len() == KEYCLOAK_CANDIDATE_PAGE_SIZE && candidates.len() < max_candidates {
        let last = &page[page.len() - 1];
        assert(all.last() == last@);
        return Some(last.node_id.clone());
    }
    None
}

/// As many identity providers are placed as are desired, or as many as there are candidates, and
/// each on a candidate.
pub proof fn law_placement_is_bounded(
    cluster_id: Seq<char>,
    candidates: Seq<KeycloakCandidateLeaseView>,
    desired: nat,
    i: int,
)
    ensures
        placed(cluster_id, candidates, desired).len() == (if candidates.len() <= desired {
            candidates.len()
        } else {
            desired
        }),
        0 <= i < placed(cluster_id, candidates, desired).len() ==> candidates.contains(
            placed(cluster_id, candidates, desired)[i],
        ),
{
    let rank = |candidate: KeycloakCandidateLeaseView| rank_key(cluster_id, candidate);
    let node = |candidate: KeycloakCandidateLeaseView| text_key(candidate.node_id);
    let order = ranked(cluster_id, candidates);
    let chosen = at_most(order, desired);
    let replicas = placed(cluster_id, candidates, desired);
    lemma_sorted_by(candidates, rank);
    lemma_sorted_by(chosen, node);
    if 0 <= i < replicas.len() {
        assert(replicas.contains(replicas[i]));
        assert(chosen.contains(replicas[i]));
        let k = choose|k: int| 0 <= k < chosen.len() && chosen[k] == replicas[i];
        assert(order[k] == replicas[i]);
        assert(order.contains(replicas[i]));
    }
}

/// A placement does not depend on the order in which the candidates, one for each node, are given.
pub proof fn law_placement_forgets_the_order(
    cluster_id: Seq<char>,
    candidates: Seq<KeycloakCandidateLeaseView>,
    others: Seq<KeycloakCandidateLeaseView>,
    desired: nat,
)
    requires
        forall|i: int, j: int|
            0 <= i < j < candidates.len() ==> (#[trigger] candidates[i]).node_id != (
            #[trigger] candidates[j]).node_id,
        forall|i: int, j: int|
            0 <= i < j < others.len() ==> (#[trigger] others[i]).node_id != (
            #[trigger] others[j]).node_id,
        forall|c: KeycloakCandidateLeaseView| candidates.contains(c) <==> others.contains(c),
    ensures
        placed(cluster_id, candidates, desired) == placed(cluster_id, others, desired),
        placement_name(cluster_id, placed(cluster_id, candidates, desired)) == placement_name(
            cluster_id,
            placed(cluster_id, others, desired),
        ),
{
    let rank = |candidate: KeycloakCandidateLeaseView| rank_key(cluster_id, candidate);
    lemma_ranks_differ(cluster_id, candidates);
    lemma_ranks_differ(cluster_id, others);
    law_sorting_forgets_the_order(candidates, others, rank);
}

proof fn lemma_ranks_differ(cluster_id: Seq<char>, candidates: Seq<KeycloakCandidateLeaseView>)
    requires
        forall|i: int, j: int|
            0 <= i < j < candidates.len() ==> (#[trigger] candidates[i]).node_id != (
            #[trigger] candidates[j]).node_id,
    ensures
        keys_differ(
            candidates,
            |candidate: KeycloakCandidateLeaseView| rank_key(cluster_id, candidate),
        ),
{
    let rank = |candidate: KeycloakCandidateLeaseView| rank_key(cluster_id, candidate);
    assert forall|i: int, j: int| 0 <= i < j < candidates.len() implies rank(
        #[trigger] candidates[i],
    ) != rank(#[trigger] candidates[j]) by {
        let a = candidates[i].node_id;
        let b = candidates[j].node_id;
        if rank(candidates[i]) == rank(candidates[j]) {
            assert(rank(candidates[i])[2] == rank(candidates[j])[2]);
            assert(encode_utf8(a) == encode_utf8(b));
            encode_utf8_decode_utf8(a);
            encode_utf8_decode_utf8(b);
        }
    }
}

/// When one candidate drops out, the others that were placed stay placed.
pub proof fn law_losing_a_candidate_keeps_the_others(
    cluster_id: Seq<char>,
    candidates: Seq<KeycloakCandidateLeaseView>,
    remaining: Seq<KeycloakCandidateLeaseView>,
    lost: KeycloakCandidateLeaseView,
    desired: nat,
    replica: KeycloakCandidateLeaseView,
)
    requires
        forall|i: int, j: int|
            0 <= i < j < candidates.len() ==> (#[trigger] candidates[i]).node_id != (
            #[trigger] candidates[j]).node_id,
        forall|i: int, j: int|
            0 <= i < j < remaining.len() ==> (#[trigger] remaining[i]).node_id != (
            #[trigger] remaining[j]).node_id,
        candidates.contains(lost),
        forall|c: KeycloakCandidateLeaseView|
            remaining.contains(c) <==> candidates.contains(c) && c != lost,
        placed(cluster_id, candidates, desired).contains(replica),
        replica != lost,
    ensures
        placed(cluster_id, remaining, desired).contains(replica),
{
    let rank = |candidate: KeycloakCandidateLeaseView| rank_key(cluster_id, candidate);
    let node = |candidate: KeycloakCandidateLeaseView| text_key(candidate.node_id);
    lemma_ranks_differ(cluster_id, candidates);
    lemma_ranks_differ(cluster_id, remaining);
    lemma_sorted_by(candidates, rank);
    let order = ranked(cluster_id, candidates);
    assert(order.contains(lost));
    let q = choose|q: int| 0 <= q < order.len() && order[q] == lost;
    let shorter = order.remove(q);
    assert(ascends_by(order, rank));
    assert forall|i: int, j: int| 0 <= i < j < shorter.len() implies key_lt(
        rank(#[trigger] shorter[i]),
        rank(#[trigger] shorter[j]),
    ) by {
        let x = if i < q {
            i
        } else {
            i + 1
        };
        let y = if j < q {
            j
        } else {
            j + 1
        };
        assert(shorter[i] == order[x] && shorter[j] == order[y]);
    }
    assert forall|c: KeycloakCandidateLeaseView| remaining.contains(c) <==> shorter.contains(c) by {
        if remaining.contains(c) {
            assert(order.contains(c) <==> candidates.contains(c));
            let k = choose|k: int| 0 <= k < order.len() && order[k] == c;
            if k < q {
                assert(shorter[k] == c);
            } else {
                assert(shorter[k - 1] == c);
            }
        }
        if shorter.contains(c) {
            let k = choose|k: int| 0 <= k < shorter.len() && shorter[k] == c;
            let x = if k < q {
                k
            } else {
                k + 1
            };
            assert(order[x] == c);
            assert(order.contains(c) <==> candidates.contains(c));
            if c == lost {
                lemma_key_lt_irreflexive(rank(c));
                if x < q {
                    assert(key_lt(rank(order[x]), rank(order[q])));
                } else {
                    assert(key_lt(rank(order[q]), rank(order[x])));
                }
            }
        }
    }
    lemma_sorted_is_ascending_list(remaining, shorter, rank);
    let chosen = at_most(order, desired);
    let chosen_after = at_most(shorter, desired);
    lemma_sorted_by(chosen, node);
    lemma_sorted_by(chosen_after, node);
    assert(chosen.contains(replica));
    let k = choose|k: int| 0 <= k < chosen.len() && chosen[k] == replica;
    assert(order[k] == replica);
    if k < q {
        assert(shorter[k] == replica);
        assert(chosen_after[k] == replica);
    } else {
        assert(shorter[k - 1] == replica);
        assert(chosen_after[k - 1] == replica);
    }
    assert(chosen_after.contains(replica));
}

proof fn lemma_inverted_order(a: Seq<u8>, b: Seq<u8>)
    requires
        a.len() == b.len(),
    ensures
        crate::text::bytes_lt(inverted(a), inverted(b)) == crate::text::bytes_lt(b, a),
    decreases a.len(),
{
    let x = inverted(a);
    let y = inverted(b);
    if a.len() > 0 {
        assert(x[0] == 255 - a[0] && y[0] == 255 - b[0]);
        assert(x.skip(1) =~= inverted(a.skip(1)));
        assert(y.skip(1) =~= inverted(b.skip(1)));
        lemma_inverted_order(a.skip(1), b.skip(1));
    }
}

/// Of the candidates, no one is left out that is ready while one is placed that is not; and of two
/// that are alike in this, not the one with the higher digest of its name.
pub proof fn law_ready_candidates_are_placed_first(
    cluster_id: Seq<char>,
    candidates: Seq<KeycloakCandidateLeaseView>,
    desired: nat,
    i: int,
    other: KeycloakCandidateLeaseView,
)
    requires
        0 <= i < placed(cluster_id, candidates, desired).len(),
        candidates.contains(other),
        !placed(cluster_id, candidates, desired).contains(other),
    ensures
        ({
            let replica = placed(cluster_id, candidates, desired)[i];
            let mine = sha256_of(
                encode_utf8("heteronetwork-keycloak-placement-v1"@) + seq![0u8] + encode_utf8(
                    cluster_id,
                ) + seq![0u8] + encode_utf8(replica.node_id),
            );
            let others = sha256_of(
                encode_utf8("heteronetwork-keycloak-placement-v1"@) + seq![0u8] + encode_utf8(
                    cluster_id,
                ) + seq![0u8] + encode_utf8(other.node_id),
            );
            &&& other.ready ==> replica.ready
            &&& other.ready == replica.ready && mine.len() == others.len()
                ==> !crate::text::bytes_lt(mine, others)
        }),
{
    let key = |candidate: KeycloakCandidateLeaseView| rank_key(cluster_id, candidate);
    let all = ranked(cluster_id, candidates);
    let few = at_most(all, desired);
    let chosen = placed(cluster_id, candidates, desired);
    lemma_sorted_by(candidates, key);
    lemma_sorted_by(few, |candidate: KeycloakCandidateLeaseView| text_key(candidate.node_id));
    let replica = chosen[i];
    assert(chosen.contains(replica));
    assert(few.contains(replica));
    let p = choose|p: int| 0 <= p < few.len() && few[p] == replica;
    assert(all[p] == replica);
    assert(all.contains(other));
    let q = choose|q: int| 0 <= q < all.len() && all[q] == other;
    if q < few.len() {
        assert(few[q] == other);
        assert(few.contains(other));
    }
    assert(p < q);
    let a = key(all[q]);
    let b = key(all[p]);
    assert(!key_lt(a, b));
    reveal_with_fuel(key_lt, 3);
    assert(a.skip(1)[0] == a[1] && b.skip(1)[0] == b[1]);
    let mine = sha256_of(rank_frame(cluster_id, replica.node_id));
    let others = sha256_of(rank_frame(cluster_id, other.node_id));
    if mine.len() == others.len() {
        lemma_inverted_order(others, mine);
        crate::text::lemma_bytes_lt_irreflexive(inverted(mine));
    }
}

/// A placement can be asked for exactly where it is of some replicas from enough candidates but not
/// of too many, by a candidate with a positive generation, a lease of some seconds but not of too
/// many, and a soundly written version.
pub proof fn law_sound_placement_requests(
    version: Seq<char>,
    generation: i64,
    lease_ttl: Span,
    desired_replicas: usize,
    max_candidates: usize,
)
    ensures
        placement_request_fault(
            version,
            generation,
            lease_ttl,
            desired_replicas,
            max_candidates,
        ) is None <==> {
            &&& 1 <= desired_replicas && desired_replicas <= 9
            &&& desired_replicas <= max_candidates && max_candidates <= 64
            &&& generation > 0
            &&& 15 * 1_000_000_000 <= lease_ttl.len() && lease_ttl.len() <= 300 * 1_000_000_000
            &&& version.len() > 0 && byte_len(version) <= 64
            &&& identifier_text(version, false)
        },
{
}

/// A node may stand for a placement exactly where it is registered in the cluster as a node with the
/// address that it gives, and, where it says that it is eligible, reported to be healthy not too long
/// ago.
pub proof fn law_candidates_are_registered(
    candidacy: KeycloakCandidacy,
    cluster_id: Seq<char>,
    nodes: Seq<NodeRecordView>,
    health: Map<Seq<Seq<char>>, NodeHealthView>,
    policy: ClusterPolicyView,
    now: Timestamp,
)
    requires
        forall|i: int, j: int|
            0 <= i < j < nodes.len() ==> (#[trigger] nodes[i]).node_id != (
            #[trigger] nodes[j]).node_id,
        now.at() + candidacy.lease_ttl.len() < (MAX_TIMESTAMP_SECONDS + 1) * 1_000_000_000,
    ensures
        candidacy_refusal(candidacy, cluster_id, nodes, health, policy, now) is None <==> {
            let key = seq![candidacy.node_id@];
            &&& exists|i: int|
                0 <= i < nodes.len() && (#[trigger] nodes[i]).node_id == candidacy.node_id@
                    && nodes[i].cluster_id == cluster_id && nodes[i].role != "client"@
                    && nodes[i].vpn_ip == candidacy.vpn_ip
            &&& candidacy.eligible ==> health.dom().contains(key) && health[key].state
                == crate::types::HealthState::Healthy && now.at() <= health[key].last_seen_at.at()
                + policy.relay_health_ttl_seconds * 1_000_000_000
        },
{
    let id = candidacy.node_id@;
    let f = |i: int|
        if nodes[i].cluster_id == cluster_id && nodes[i].node_id == id {
            Some(nodes[i])
        } else {
            None
        };
    crate::lists::lemma_first_in_none(nodes.len(), f);
    if first_named(nodes, cluster_id, id, nodes.len()) is Some {
        let i = crate::lists::lemma_first_in_found(nodes.len(), f);
        assert(nodes[i].node_id == id && nodes[i].cluster_id == cluster_id);
        assert forall|j: int| 0 <= j < nodes.len() && (#[trigger] nodes[j]).node_id == id implies j
            == i by {
            if j < i {
                assert(nodes[j].node_id != nodes[i].node_id);
            } else if i < j {
                assert(nodes[i].node_id != nodes[j].node_id);
            }
        }
    } else {
        assert forall|j: int| 0 <= j < nodes.len() implies !((#[trigger] nodes[j]).cluster_id
            == cluster_id && nodes[j].node_id == id) by {
            assert(f(j) is None);
        }
    }
}

/// A candidate qualifies exactly where it has the version that is asked for, the address that it is
/// registered with, and reported to be healthy not too long ago. A page adds to the candidates those
/// of it that qualify, as far as there is room.
pub proof fn law_qualified_candidates_are_gathered(
    candidate: KeycloakCandidateLeaseView,
    candidates: Seq<KeycloakCandidateLeaseView>,
    page: Seq<KeycloakCandidateLeaseView>,
    version: Seq<char>,
    registered: Seq<NodeRecordView>,
    health: Map<Seq<Seq<char>>, NodeHealthView>,
    policy: ClusterPolicyView,
    now: Timestamp,
    max_candidates: nat,
)
    ensures
        ({
            let key = seq![candidate.node_id];
            let after = after_page(
                candidates,
                page,
                version,
                registered,
                health,
                policy,
                now,
                max_candidates,
            );
            &&& qualified(candidate, version, registered, health, policy, now) <==> {
                &&& candidate.version == version
                &&& named(registered, candidate.node_id) is Some && named(
                    registered,
                    candidate.node_id,
                )->0.vpn_ip == candidate.vpn_ip
                &&& health.dom().contains(key) && health[key].state
                    == crate::types::HealthState::Healthy
                &&& now.at() <= health[key].last_seen_at.at() + policy.relay_health_ttl_seconds
                    * 1_000_000_000
            }
            &&& after.len() <= max_candidates
            &&& after.contains(candidate) ==> candidates.contains(candidate) || (page.contains(
                candidate,
            ) && qualified(candidate, version, registered, health, policy, now))
            &&& after.len() < max_candidates && (candidates.contains(candidate) || (page.contains(
                candidate,
            ) && qualified(candidate, version, registered, health, policy, now)))
                ==> after.contains(candidate)
        }),
{
    let keep = |candidate: KeycloakCandidateLeaseView|
        qualified(candidate, version, registered, health, policy, now);
    let more = kept(page, keep, page.len());
    crate::lists::lemma_kept_members(page, keep);
    let all = candidates + more;
    assert(more.contains(candidate) <==> page.contains(candidate) && keep(candidate));
    assert(all.contains(candidate) <==> candidates.contains(candidate) || more.contains(
        candidate,
    )) by {
        if candidates.contains(candidate) {
            let k = choose|k: int| 0 <= k < candidates.len() && candidates[k] == candidate;
            assert(all[k] == candidate);
        }
        if more.contains(candidate) {
            let k = choose|k: int| 0 <= k < more.len() && more[k] == candidate;
            assert(all[candidates.len() + k] == candidate);
        }
    }
    let after = at_most(all, max_candidates);
    if after.contains(candidate) {
        let k = choose|k: int| 0 <= k < after.len() && after[k] == candidate;
        assert(all[k] == candidate);
    }
}

} // verus!
