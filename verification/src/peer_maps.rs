//! What a node or client is shown of the others: peers, relays and paths.

use vstd::prelude::*;

use crate::acl::{acl_filter_peer, visible_peer};
use crate::client_routes::{node_peer_map_with_clients, node_view};
use crate::error::{refusal, ControlPlaneError, ControlPlaneErrorView};
use crate::gateway::{client_gateway_peer_map, client_view};
use crate::heartbeat::update_rejection;
use crate::ids::{role_is_client, ClusterId, NodeId};
use crate::lists::{gathered, how_many, kept, lemma_how_many};
use crate::map::{held, OrderedMap};
use crate::nodes::{
    entry_of, filter_served_endpoint_candidates, find_entry, find_node, may_relay, named,
    relay_candidate_allowed, served_node,
};
use crate::pins::{with_pin, AdminPathPins};
use crate::time::{fresh, Timestamp};
use crate::topology::path_is_fresh;
use crate::types::{
    lemma_views_push, opt_view, ref_view, views, BootstrapEndpoint, ClientGatewaySelection,
    ClientGatewaySelectionView, ClusterPolicy, ClusterPolicyView, NodeHealth, NodeHealthView,
    NodeRecord, NodeRecordView, PathRecord, PathRecordView, Record,
};

verus! {

/// The peers of a node or client.
#[derive(Debug)]
pub struct PeerMap {
    pub cluster_id: ClusterId,
    pub peers: Vec<NodeRecord>,
    pub bootstrap_endpoints: Vec<BootstrapEndpoint>,
    pub generated_at: Timestamp,
}

/// The relays that a node or client may use.
#[derive(Debug)]
pub struct RelayMap {
    pub cluster_id: ClusterId,
    pub relays: Vec<NodeRecord>,
    pub generated_at: Timestamp,
}

/// What a participant is shown of its peers: a client its gateways, a node the others.
pub open spec fn shown_peers(
    source: NodeRecordView,
    peers: Seq<NodeRecordView>,
    health: Map<Seq<Seq<char>>, NodeHealthView>,
    selections: Map<Seq<Seq<char>>, ClientGatewaySelectionView>,
    policy: ClusterPolicyView,
    now: Timestamp,
) -> Seq<NodeRecordView> {
    if role_is_client(source.role) {
        client_view(source, peers, health, selections, policy, now)
    } else {
        node_view(source, peers, health, selections, policy, now)
    }
}

/// What a participant is shown of its peers.
pub fn filtered_peer_map_for_node(
    cluster_id: &ClusterId,
    source: &NodeRecord,
    peers: &Vec<NodeRecord>,
    health_by_node: &OrderedMap<NodeId, NodeHealth>,
    selections: &OrderedMap<NodeId, ClientGatewaySelection>,
    policy: &ClusterPolicy,
    bootstrap_endpoints: Vec<BootstrapEndpoint>,
    generated_at: Timestamp,
) -> (r: PeerMap)
    requires
        health_by_node.wf(),
        selections.wf(),
    ensures
        r.cluster_id@ == cluster_id@,
        views(r.peers@) == shown_peers(
            source@,
            views(peers@),
            held(health_by_node@),
            held(selections@),
            policy@,
            generated_at,
        ),
        r.bootstrap_endpoints == bootstrap_endpoints,
        r.generated_at == generated_at,
{
    let shown = if source.role.is_client() {
        client_gateway_peer_map(source, peers, health_by_node, selections, policy, generated_at)
    } else {
        node_peer_map_with_clients(source, peers, health_by_node, selections, policy, generated_at)
    };
    PeerMap { cluster_id: cluster_id.clone(), peers: shown, bootstrap_endpoints, generated_at }
}

/// What a participant is shown of a relay: itself, or a relay that it may see.
pub open spec fn shown_relay(
    source: NodeRecordView,
    peer: NodeRecordView,
    health: Map<Seq<Seq<char>>, NodeHealthView>,
    policy: ClusterPolicyView,
    now: Timestamp,
) -> Option<NodeRecordView> {
    if !may_relay(peer, entry_of(health, peer.node_id), now, policy) {
        None
    } else if peer.node_id == source.node_id {
        Some(served_node(peer, now, policy))
    } else {
        match visible_peer(source, peer, policy.acl_rules) {
            Some(visible) => Some(served_node(visible, now, policy)),
            None => None,
        }
    }
}

/// The relays that a participant is shown.
pub open spec fn shown_relays(
    source: NodeRecordView,
    peers: Seq<NodeRecordView>,
    health: Map<Seq<Seq<char>>, NodeHealthView>,
    policy: ClusterPolicyView,
    now: Timestamp,
) -> Seq<NodeRecordView> {
    gathered(
        peers,
        |peer: NodeRecordView| shown_relay(source, peer, health, policy, now),
        peers.len(),
    )
}

fn show_relay(
    source: &NodeRecord,
    peer: &NodeRecord,
    health_by_node: &OrderedMap<NodeId, NodeHealth>,
    policy: &ClusterPolicy,
    now: Timestamp,
) -> (r: Option<NodeRecord>)
    requires
        health_by_node.wf(),
    ensures
        opt_view(r) == shown_relay(source@, peer@, held(health_by_node@), policy@, now),
{
    let health = find_entry(health_by_node, &peer.node_id);
    if !relay_candidate_allowed(peer, health, now, policy) {
        return None;
    }
    if peer.node_id == source.node_id {
        return Some(filter_served_endpoint_candidates(peer.duplicate(), now, policy));
    }
    match acl_filter_peer(source, peer, policy) {
        Some(visible) => Some(filter_served_endpoint_candidates(visible, now, policy)),
        None => None,
    }
}

/// The relays that a participant is shown.
pub fn filtered_relay_map_for_node(
    cluster_id: &ClusterId,
    source: &NodeRecord,
    peers: &Vec<NodeRecord>,
    health_by_node: &OrderedMap<NodeId, NodeHealth>,
    policy: &ClusterPolicy,
    generated_at: Timestamp,
) -> (r: RelayMap)
    requires
        health_by_node.wf(),
    ensures
        r.cluster_id@ == cluster_id@,
        views(r.relays@) == shown_relays(
            source@,
            views(peers@),
            held(health_by_node@),
            policy@,
            generated_at,
        ),
        r.generated_at == generated_at,
{
    let ghost all = views(peers@);
    let ghost f = |peer: NodeRecordView|
        shown_relay(source@, peer, held(health_by_node@), policy@, generated_at);
    let mut relays: Vec<NodeRecord> = Vec::new();
    let mut i: usize = 0;
    assert(views(relays@) =~= gathered(all, f, 0));
    while i < peers.len()
        invariant
            health_by_node.wf(),
            i <= peers@.len(),
            all == views(peers@),
            f == (|peer: NodeRecordView|
                shown_relay(source@, peer, held(health_by_node@), policy@, generated_at)),
            views(relays@) == gathered(all, f, i as nat),
        decreases peers@.len() - i,
    {
        broadcast use lemma_views_push;

        assert(all[i as int] == peers@[i as int]@);
        if let Some(relay) = show_relay(source, &peers[i], health_by_node, policy, generated_at) {
            relays.push(relay);
        }
        i = i + 1;
    }
    RelayMap { cluster_id: cluster_id.clone(), relays, generated_at }
}

/// The nodes that are no clients.
pub open spec fn workers(listed: Seq<NodeRecordView>) -> Seq<NodeRecordView> {
    kept(listed, |node: NodeRecordView| !role_is_client(node.role), listed.len())
}

/// The nodes that are no clients.
pub fn list_nodes(listed: &Vec<NodeRecord>) -> (r: Vec<NodeRecord>)
    ensures
        views(r@) == workers(views(listed@)),
{
    let ghost all = views(listed@);
    let ghost keep = |node: NodeRecordView| !role_is_client(node.role);
    let mut r: Vec<NodeRecord> = Vec::new();
    let mut i: usize = 0;
    assert(views(r@) =~= kept(all, keep, 0));
    while i < listed.len()
        invariant
            i <= listed@.len(),
            all == views(listed@),
            keep == (|node: NodeRecordView| !role_is_client(node.role)),
            views(r@) == kept(all, keep, i as nat),
        decreases listed@.len() - i,
    {
        broadcast use lemma_views_push;

        assert(all[i as int] == listed@[i as int]@);
        if !listed[i].role.is_client() {
            r.push(listed[i].duplicate());
        }
        i = i + 1;
    }
    r
}

/// The paths of a node that are current.
#[derive(Debug)]
pub struct ControlPlanePathsResponse {
    pub cluster_id: ClusterId,
    pub node_id: NodeId,
    pub paths: Vec<PathRecord>,
    pub stale_path_count: usize,
    pub path_state_ttl_seconds: u64,
    pub generated_at: Timestamp,
}

/// The node at the other end of a path.
pub open spec fn other_end(path: PathRecordView, node_id: Seq<char>) -> Option<Seq<char>> {
    if path.key.local == node_id {
        Some(path.key.remote)
    } else if path.key.remote == node_id {
        Some(path.key.local)
    } else {
        None
    }
}

/// The path begins or ends at the source, and the source may see its other end.
pub open spec fn path_concerns(
    source: NodeRecordView,
    path: PathRecordView,
    peers: Seq<NodeRecordView>,
    policy: ClusterPolicyView,
) -> bool {
    match other_end(path, source.node_id) {
        None => false,
        Some(id) => match named(peers, id) {
            None => false,
            Some(peer) => visible_peer(source, peer, policy.acl_rules) is Some,
        },
    }
}

/// What the source is shown of a path.
pub open spec fn shown_path(
    source: NodeRecordView,
    path: PathRecordView,
    peers: Seq<NodeRecordView>,
    pins: Map<Seq<Seq<char>>, bool>,
    policy: ClusterPolicyView,
    now: Timestamp,
) -> Option<PathRecordView> {
    if path_concerns(source, path, peers, policy) && fresh(
        path.updated_at,
        now,
        policy.path_state_ttl_seconds,
    ) {
        Some(with_pin(path, pins))
    } else {
        None
    }
}

/// The path concerns the source, but is stale.
pub open spec fn stale_path(
    source: NodeRecordView,
    path: PathRecordView,
    peers: Seq<NodeRecordView>,
    policy: ClusterPolicyView,
    now: Timestamp,
) -> bool {
    path_concerns(source, path, peers, policy) && !fresh(
        path.updated_at,
        now,
        policy.path_state_ttl_seconds,
    )
}

fn concerns(
    source: &NodeRecord,
    path: &PathRecord,
    peers: &Vec<NodeRecord>,
    policy: &ClusterPolicy,
) -> (r: bool)
    ensures
        r == path_concerns(source@, path@, views(peers@), policy@),
{
    let peer_id = if path.key.local == source.node_id {
        &path.key.remote
    } else if path.key.remote == source.node_id {
        &path.key.local
    } else {
        return false;
    };
    match find_node(peers, peer_id) {
        Some(peer) => acl_filter_peer(source, peer, policy).is_some(),
        None => false,
    }
}

/// Why a participant may not ask for its paths.
pub open spec fn paths_refusal(node_id: Seq<char>, source: Option<NodeRecordView>) -> Option<
    ControlPlaneErrorView,
> {
    match source {
        None => Some(ControlPlaneErrorView::NodeNotFound { node_id }),
        Some(source) => if role_is_client(source.role) {
            update_rejection(node_id, Some("clients cannot query node paths"@))
        } else {
            None
        },
    }
}

/// The node that asks for its paths, where it is registered and no client.
pub fn check_path_reader<'a>(node_id: &NodeId, source: Option<&'a NodeRecord>) -> (r: Result<
    &'a NodeRecord,
    ControlPlaneError,
>)
    ensures
        refusal(r) == paths_refusal(node_id@, ref_view(source)),
        r matches Ok(found) ==> source == Some(found),
{
    let found = match source {
        Some(found) => found,
        None => return Err(ControlPlaneError::NodeNotFound { node_id: node_id.clone() }),
    };
    if found.role.is_client() {
        return Err(
            ControlPlaneError::NodeUpdateRejected {
                node_id: node_id.clone(),
                reason: "clients cannot query node paths".to_owned(),
            },
        );
    }
    Ok(found)
}

/// The paths of a node that are current, with the pins that are set for them. `source` is what is
/// registered under the identifier, and `paths` are the paths from and to it.
pub fn paths_for(
    cluster_id: &ClusterId,
    node_id: &NodeId,
    source: Option<&NodeRecord>,
    paths: &Vec<PathRecord>,
    peers: &Vec<NodeRecord>,
    pins: &AdminPathPins,
    policy: &ClusterPolicy,
    now: Timestamp,
) -> (r: Result<ControlPlanePathsResponse, ControlPlaneError>)
    requires
        pins.wf(),
    ensures
        refusal(r) == paths_refusal(node_id@, ref_view(source)),
        r matches Ok(shown) ==> {
            &&& shown.cluster_id@ == cluster_id@
            &&& shown.node_id@ == node_id@
            &&& views(shown.paths@) == gathered(
                views(paths@),
                |path: PathRecordView|
                    shown_path(source->0@, path, views(peers@), pins@, policy@, now),
                paths@.len(),
            )
            &&& shown.stale_path_count == how_many(
                views(paths@),
                |path: PathRecordView| stale_path(source->0@, path, views(peers@), policy@, now),
                paths@.len(),
            )
            &&& shown.path_state_ttl_seconds == policy.path_state_ttl_seconds
            &&& shown.generated_at == now
        },
{
    let source = check_path_reader(node_id, source)?;
    let mut pinned = crate::types::duplicate_all(paths);
    pins.apply_admin_path_pins(&mut pinned);
    let ghost all = views(paths@);
    assert(pinned@.len() == views(pinned@).len());
    assert(all.len() == paths@.len());
    let ghost others = views(peers@);
    let ghost f = |path: PathRecordView|
        shown_path(source@, path, others, pins@, policy@, now);
    let ghost stale = |path: PathRecordView| stale_path(source@, path, others, policy@, now);
    let mut current: Vec<PathRecord> = Vec::new();
    let mut stale_path_count: usize = 0;
    let mut i: usize = 0;
    assert(views(current@) =~= gathered(all, f, 0));
    while i < pinned.len()
        invariant
            i <= pinned@.len(),
            pinned@.len() == all.len(),
            all == views(paths@),
            others == views(peers@),
            views(pinned@) == crate::pins::with_pins(all, pins@),
            f == (|path: PathRecordView|
                shown_path(source@, path, others, pins@, policy@, now)),
            stale == (|path: PathRecordView| stale_path(source@, path, others, policy@, now)),
            views(current@) == gathered(all, f, i as nat),
            stale_path_count == how_many(all, stale, i as nat),
        decreases pinned@.len() - i,
    {
        broadcast use lemma_views_push;
        broadcast use lemma_how_many;

        assert(views(pinned@)[i as int] == with_pin(all[i as int], pins@));
        assert(pinned@[i as int]@ == with_pin(all[i as int], pins@));
        if concerns(source, &pinned[i], peers, policy) {
            if path_is_fresh(&pinned[i], now, policy.path_state_ttl_seconds) {
                current.push(pinned[i].duplicate());
            } else {
                assert(how_many(all, stale, i as nat) <= i);
                stale_path_count = stale_path_count + 1;
            }
        }
        i = i + 1;
    }
    Ok(
        ControlPlanePathsResponse {
            cluster_id: cluster_id.clone(),
            node_id: node_id.clone(),
            paths: current,
            stale_path_count,
            path_state_ttl_seconds: policy.path_state_ttl_seconds,
            generated_at: now,
        },
    )
}

/// What is shown of a relay is a relay, under its identifier.
proof fn lemma_shown_relay(
    source: NodeRecordView,
    peer: NodeRecordView,
    health: Map<Seq<Seq<char>>, NodeHealthView>,
    policy: ClusterPolicyView,
    now: Timestamp,
)
    ensures
        shown_relay(source, peer, health, policy, now) matches Some(relay) ==> relay.node_id
            == peer.node_id && may_relay(peer, entry_of(health, peer.node_id), now, policy),
{
}

/// The relay that a participant is shown under an identifier.
pub open spec fn relay_behind(
    peers: Seq<NodeRecordView>,
    health: Map<Seq<Seq<char>>, NodeHealthView>,
    policy: ClusterPolicyView,
    now: Timestamp,
    id: Seq<char>,
    i: int,
) -> bool {
    0 <= i < peers.len() && peers[i].node_id == id && may_relay(
        peers[i],
        entry_of(health, id),
        now,
        policy,
    )
}

/// A participant is shown only relays that can relay for others.
pub proof fn law_shown_relays_can_relay(
    source: NodeRecordView,
    peers: Seq<NodeRecordView>,
    health: Map<Seq<Seq<char>>, NodeHealthView>,
    policy: ClusterPolicyView,
    now: Timestamp,
    k: int,
)
    requires
        0 <= k < shown_relays(source, peers, health, policy, now).len(),
    ensures
        exists|i: int| #[trigger]
            relay_behind(
                peers,
                health,
                policy,
                now,
                shown_relays(source, peers, health, policy, now)[k].node_id,
                i,
            ),
{
    let f = |peer: NodeRecordView| shown_relay(source, peer, health, policy, now);
    let relay = shown_relays(source, peers, health, policy, now)[k];
    let i = lemma_gathered_from(peers, f, peers.len(), k);
    lemma_shown_relay(source, peers[i], health, policy, now);
    assert(relay_behind(peers, health, policy, now, relay.node_id, i));
}

/// The position of the item that something gathered comes from.
proof fn lemma_gathered_from(
    items: Seq<NodeRecordView>,
    f: spec_fn(NodeRecordView) -> Option<NodeRecordView>,
    n: nat,
    k: int,
) -> (i: int)
    requires
        n <= items.len(),
        0 <= k < gathered(items, f, n).len(),
    ensures
        0 <= i < n,
        f(items[i]) == Some(gathered(items, f, n)[k]),
    decreases n,
{
    let before = gathered(items, f, (n - 1) as nat);
    if k < before.len() {
        lemma_gathered_from(items, f, (n - 1) as nat, k)
    } else {
        n - 1
    }
}

/// A participant is shown as relays exactly those peers that may relay and that are itself or that
/// the access rules let it see, each as they let it be seen.
pub proof fn law_usable_relays_are_shown(
    source: NodeRecordView,
    peers: Seq<NodeRecordView>,
    health: Map<Seq<Seq<char>>, NodeHealthView>,
    policy: ClusterPolicyView,
    now: Timestamp,
    relay: NodeRecordView,
)
    ensures
        shown_relays(source, peers, health, policy, now).contains(relay) <==> exists|i: int|
            0 <= i < peers.len() && may_relay(
                #[trigger] peers[i],
                entry_of(health, peers[i].node_id),
                now,
                policy,
            ) && (if peers[i].node_id == source.node_id {
                relay == served_node(peers[i], now, policy)
            } else {
                visible_peer(source, peers[i], policy.acl_rules) matches Some(seen) && relay
                    == served_node(seen, now, policy)
            }),
{
    let f = |peer: NodeRecordView| shown_relay(source, peer, health, policy, now);
    crate::lists::lemma_gathered_members(peers, f);
    let shown = shown_relays(source, peers, health, policy, now);
    if shown.contains(relay) {
        let i = choose|i: int| 0 <= i < peers.len() && f(#[trigger] peers[i]) == Some(relay);
        assert(may_relay(peers[i], entry_of(health, peers[i].node_id), now, policy));
    }
    if exists|i: int|
        0 <= i < peers.len() && may_relay(
            #[trigger] peers[i],
            entry_of(health, peers[i].node_id),
            now,
            policy,
        ) && (if peers[i].node_id == source.node_id {
            relay == served_node(peers[i], now, policy)
        } else {
            visible_peer(source, peers[i], policy.acl_rules) matches Some(seen) && relay
                == served_node(seen, now, policy)
        }) {
        let i = choose|i: int|
            0 <= i < peers.len() && may_relay(
                #[trigger] peers[i],
                entry_of(health, peers[i].node_id),
                now,
                policy,
            ) && (if peers[i].node_id == source.node_id {
                relay == served_node(peers[i], now, policy)
            } else {
                visible_peer(source, peers[i], policy.acl_rules) matches Some(seen) && relay
                    == served_node(seen, now, policy)
            });
        assert(f(peers[i]) == Some(relay));
    }
}

/// A path with a node at one end and, at the other, a peer that the node may see.
pub open spec fn leads_to_seen_peer(
    source: NodeRecordView,
    path: PathRecordView,
    peers: Seq<NodeRecordView>,
    policy: ClusterPolicyView,
) -> bool {
    exists|i: int|
        0 <= i < peers.len() && visible_peer(source, #[trigger] peers[i], policy.acl_rules) is Some
            && ((path.key.local == source.node_id && path.key.remote == peers[i].node_id) || (
        path.key.remote == source.node_id && path.key.local == peers[i].node_id))
}

/// Of the paths that lead from a node to a peer that it may see, in either direction, those are shown
/// that were reported no longer ago than path states last, and the others are counted as stale.
/// A path is shown as it was reported, with the pin that is set for it where one is. A path that has
/// the node at neither end is neither shown nor counted.
pub proof fn law_paths_to_seen_peers_are_shown(
    source: NodeRecordView,
    path: PathRecordView,
    peers: Seq<NodeRecordView>,
    pins: Map<Seq<Seq<char>>, bool>,
    policy: ClusterPolicyView,
    now: Timestamp,
)
    requires
        path.key.local != path.key.remote,
        forall|i: int, j: int|
            0 <= i < j < peers.len() ==> (#[trigger] peers[i]).node_id != (
            #[trigger] peers[j]).node_id,
    ensures
        shown_path(source, path, peers, pins, policy, now) is Some <==> leads_to_seen_peer(
            source,
            path,
            peers,
            policy,
        ) && now.at() <= path.updated_at.at() + policy.path_state_ttl_seconds * 1_000_000_000,
        stale_path(source, path, peers, policy, now) <==> leads_to_seen_peer(
            source,
            path,
            peers,
            policy,
        ) && now.at() > path.updated_at.at() + policy.path_state_ttl_seconds * 1_000_000_000,
        shown_path(source, path, peers, pins, policy, now) matches Some(shown) ==> {
            &&& shown == PathRecordView { pinned: shown.pinned, ..path }
            &&& pins.dom().contains(seq![path.key.local, path.key.remote]) ==> shown.pinned
                == pins[seq![path.key.local, path.key.remote]]
            &&& !pins.dom().contains(seq![path.key.local, path.key.remote]) ==> shown.pinned
                == path.pinned
        },
{
    if path_concerns(source, path, peers, policy) {
        let id = other_end(path, source.node_id)->0;
        crate::nodes::lemma_node_named(peers, id, peers.len());
        let peer = named(peers, id)->0;
        let i = choose|i: int| 0 <= i < peers.len() && peers[i] == peer;
        assert(visible_peer(source, peers[i], policy.acl_rules) is Some);
    }
    if leads_to_seen_peer(source, path, peers, policy) {
        let i = choose|i: int|
            0 <= i < peers.len() && visible_peer(
                source,
                #[trigger] peers[i],
                policy.acl_rules,
            ) is Some && ((path.key.local == source.node_id && path.key.remote == peers[i].node_id)
                || (path.key.remote == source.node_id && path.key.local == peers[i].node_id));
        let id = peers[i].node_id;
        crate::nodes::lemma_node_named(peers, id, peers.len());
        assert(other_end(path, source.node_id) == Some(id));
        let peer = named(peers, id)->0;
        let k = choose|k: int| 0 <= k < peers.len() && peers[k] == peer;
        assert(peers[k].node_id == peers[i].node_id);
        if k != i {
            if k < i {
                assert(peers[k].node_id != peers[i].node_id);
            } else {
                assert(peers[i].node_id != peers[k].node_id);
            }
        }
    }
}

/// The nodes are all participants that are no clients.
pub proof fn law_nodes_are_no_clients(listed: Seq<NodeRecordView>, node: NodeRecordView)
    ensures
        workers(listed).contains(node) <==> listed.contains(node) && node.role != "client"@,
{
    let keep = |node: NodeRecordView| !role_is_client(node.role);
    crate::lists::lemma_kept_members(listed, keep);
    assert(workers(listed).contains(node) <==> listed.contains(node) && keep(node));
}

/// Paths are shown to registered nodes, and to nobody else.
pub proof fn law_paths_are_for_nodes(node_id: Seq<char>, source: Option<NodeRecordView>)
    ensures
        paths_refusal(node_id, source) is None <==> source is Some && source->0.role != "client"@,
        source is None ==> paths_refusal(node_id, source) == Some(
            ControlPlaneErrorView::NodeNotFound { node_id },
        ),
{
}

/// A client is shown its gateways, and a node is shown the others.
pub proof fn law_participants_are_shown_what_is_for_them(
    source: NodeRecordView,
    peers: Seq<NodeRecordView>,
    health: Map<Seq<Seq<char>>, NodeHealthView>,
    selections: Map<Seq<Seq<char>>, ClientGatewaySelectionView>,
    policy: ClusterPolicyView,
    now: Timestamp,
)
    ensures
        source.role == "client"@ ==> shown_peers(source, peers, health, selections, policy, now)
            == client_view(source, peers, health, selections, policy, now),
        source.role != "client"@ ==> shown_peers(source, peers, health, selections, policy, now)
            == node_view(source, peers, health, selections, policy, now),
        source.role != "client"@ ==> forall|i: int|
            0 <= i < shown_peers(source, peers, health, selections, policy, now).len() ==> (
            #[trigger] shown_peers(source, peers, health, selections, policy, now)[i]).node_id
                != source.node_id,
{
    if source.role != "client"@ {
        let view = node_view(source, peers, health, selections, policy, now);
        assert forall|i: int| 0 <= i < view.len() implies (#[trigger] view[i]).node_id
            != source.node_id by {
            assert(view.contains(view[i]));
            crate::client_routes::law_node_is_shown_its_peers(
                source,
                peers,
                health,
                selections,
                policy,
                now,
                view[i],
            );
            let gateways = crate::client_routes::ids_of(
                crate::gateway::offered_gateways(peers, health, now, policy),
            );
            let clients = crate::client_routes::visible_clients(source, peers, policy);
            let k = choose|k: int|
                0 <= k < peers.len() && crate::client_routes::shown_peer(
                    source,
                    #[trigger] peers[k],
                    clients,
                    gateways,
                    selections,
                    policy,
                    now,
                ) == Some(view[i]);
            crate::client_routes::law_peer_is_shown_as_permitted(
                source,
                peers[k],
                clients,
                gateways,
                selections,
                policy,
                now,
            );
        }
    }
}

} // verus!
