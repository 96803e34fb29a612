//! Connection intents: which peers want to reach a node, and how long the node waits for them.

use vstd::prelude::*;
use vstd::utf8::*;

use crate::acl::{acl_filter_peer, visible_peer};
use crate::error::{refusal, ControlPlaneError, ControlPlaneErrorView};
use crate::heartbeat::{activity_of, lazy_connect_local_activity_at};
use crate::ids::{ascending_texts, ClusterId, NameSet, NodeId};
use crate::lists::{gathered, kept};
use crate::net::IpAddr;
use crate::nodes::{find_node, named};
use crate::order::{
    key_lt, key_view, keys_of, keys_view, lemma_sorted_by, sort_records, sorted_by, KeyPart,
};
use crate::routes::{text_key, text_sort_key};
use crate::text::text_lt;
use crate::time::{fresh, timestamp_is_fresh, Span, Timestamp};
use crate::topology::path_is_fresh;
use crate::types::{
    lemma_views_push, opt_view, ref_view, views, ClusterPolicy, ClusterPolicyView, NodeRecord,
    NodeRecordView, PathRecord, PathRecordView, Record,
};

verus! {

/// For how many seconds a new choice of gateway is announced.
pub const CLIENT_GATEWAY_SELECTION_ANNOUNCE_SECONDS: u64 = 60;

/// For how many seconds a waiting node pauses at most before it looks again.
pub const CONNECTION_INTENT_POLL_SECONDS: u64 = 1;

/// A peer that wants to reach a node.
#[derive(Debug, PartialEq)]
pub struct PeerConnectionIntent {
    pub peer: NodeId,
    pub peer_vpn_ip: IpAddr,
    pub observed_at: Timestamp,
}

/// What a [`PeerConnectionIntent`] holds.
#[verifier::ext_equal]
pub struct PeerConnectionIntentView {
    pub peer: Seq<char>,
    pub peer_vpn_ip: IpAddr,
    pub observed_at: Timestamp,
}

impl View for PeerConnectionIntent {
    type V = PeerConnectionIntentView;

    open spec fn view(&self) -> PeerConnectionIntentView {
        PeerConnectionIntentView {
            peer: self.peer@,
            peer_vpn_ip: self.peer_vpn_ip,
            observed_at: self.observed_at,
        }
    }
}

impl Record for PeerConnectionIntent {
    fn duplicate(&self) -> (r: Self) {
        PeerConnectionIntent {
            peer: self.peer.clone(),
            peer_vpn_ip: self.peer_vpn_ip,
            observed_at: self.observed_at,
        }
    }

    fn alike(&self, other: &Self) -> (r: bool) {
        self.peer == other.peer && self.peer_vpn_ip == other.peer_vpn_ip && self.observed_at
            == other.observed_at
    }
}

/// When the sender of a path last had traffic for its other end, where that was recently.
pub open spec fn recent_activity(
    path: PathRecordView,
    prefix: Seq<char>,
    now: Timestamp,
    idle_timeout_seconds: u64,
) -> Option<Timestamp> {
    match activity_of(path, prefix) {
        Ok(Some(at)) => if fresh(at, now, idle_timeout_seconds) {
            Some(at)
        } else {
            None
        },
        _ => None,
    }
}

fn find_recent_activity(
    path: &PathRecord,
    prefix: &str,
    now: Timestamp,
    idle_timeout_seconds: u64,
) -> (r: Option<Timestamp>)
    ensures
        r == recent_activity(path@, prefix@, now, idle_timeout_seconds),
{
    match lazy_connect_local_activity_at(path, prefix) {
        Ok(Some(at)) => {
            if timestamp_is_fresh(at, now, idle_timeout_seconds) {
                Some(at)
            } else {
                None
            }
        },
        _ => None,
    }
}

/// One of the first `n` paths has recent traffic for the node.
pub open spec fn wanted_by(
    paths: Seq<PathRecordView>,
    prefix: Seq<char>,
    now: Timestamp,
    idle_timeout_seconds: u64,
    id: Seq<char>,
    n: nat,
) -> bool {
    exists|i: int|
        0 <= i < n && (#[trigger] paths[i]).key.remote == id && recent_activity(
            paths[i],
            prefix,
            now,
            idle_timeout_seconds,
        ) is Some
}

/// The nodes that a heartbeat has recent traffic for, in ascending order.
pub fn connection_intent_targets(
    paths: &Vec<PathRecord>,
    prefix: &str,
    now: Timestamp,
    idle_timeout_seconds: u64,
) -> (r: Vec<String>)
    ensures
        ascending_texts(views(r@)),
        forall|id: Seq<char>|
            views(r@).contains(id) <==> wanted_by(
                views(paths@),
                prefix@,
                now,
                idle_timeout_seconds,
                id,
                paths@.len(),
            ),
{
    let ghost all = views(paths@);
    let mut ids = NameSet::new();
    let mut i: usize = 0;
    while i < paths.len()
        invariant
            i <= paths@.len(),
            all == views(paths@),
            forall|id: Seq<char>| #[trigger]
                ids@.contains(id) <==> wanted_by(
                    all,
                    prefix@,
                    now,
                    idle_timeout_seconds,
                    id,
                    i as nat,
                ),
        decreases paths@.len() - i,
    {
        let ghost before = ids@;
        assert(all[i as int] == paths@[i as int]@);
        let active = find_recent_activity(&paths[i], prefix, now, idle_timeout_seconds).is_some();
        if active {
            ids.insert(paths[i].key.remote.value.clone());
        }
        assert forall|id: Seq<char>| #[trigger] ids@.contains(id) <==> wanted_by(
            all,
            prefix@,
            now,
            idle_timeout_seconds,
            id,
            (i + 1) as nat,
        ) by {
            assert(before.contains(id) <==> wanted_by(
                all,
                prefix@,
                now,
                idle_timeout_seconds,
                id,
                i as nat,
            ));
            if before.contains(id) {
                let k = choose|k: int|
                    0 <= k < i && (#[trigger] all[k]).key.remote == id && recent_activity(
                        all[k],
                        prefix@,
                        now,
                        idle_timeout_seconds,
                    ) is Some;
                assert(0 <= k < i + 1 && all[k].key.remote == id);
            }
            if active && id == all[i as int].key.remote {
                assert(0 <= i < i + 1 && all[i as int].key.remote == id);
            }
        }
        i = i + 1;
    }
    ids.sorted()
}

/// Those of the listed that belong to the cluster.
pub open spec fn members_of(listed: Seq<NodeRecordView>, cluster_id: Seq<char>) -> Seq<
    NodeRecordView,
> {
    kept(listed, |node: NodeRecordView| node.cluster_id == cluster_id, listed.len())
}

fn list_members(listed: &Vec<NodeRecord>, cluster_id: &ClusterId) -> (r: Vec<NodeRecord>)
    ensures
        views(r@) == members_of(views(listed@), cluster_id@),
{
    let ghost all = views(listed@);
    let ghost keep = |node: NodeRecordView| node.cluster_id == cluster_id@;
    let mut r: Vec<NodeRecord> = Vec::new();
    let mut i: usize = 0;
    assert(views(r@) =~= kept(all, keep, 0));
    while i < listed.len()
        invariant
            i <= listed@.len(),
            all == views(listed@),
            keep == (|node: NodeRecordView| node.cluster_id == cluster_id@),
            views(r@) == kept(all, keep, i as nat),
        decreases listed@.len() - i,
    {
        broadcast use lemma_views_push;

        assert(all[i as int] == listed@[i as int]@);
        if listed[i].cluster_id == *cluster_id {
            r.push(listed[i].duplicate());
        }
        i = i + 1;
    }
    r
}

/// The intent that a path stands for: its sender, which the target may see, has recent traffic for
/// the target.
pub open spec fn intent_of(
    target: NodeRecordView,
    path: PathRecordView,
    members: Seq<NodeRecordView>,
    policy: ClusterPolicyView,
    prefix: Seq<char>,
    now: Timestamp,
) -> Option<PeerConnectionIntentView> {
    let at = recent_activity(path, prefix, now, policy.idle_timeout_seconds);
    if path.key.remote != target.node_id || !fresh(
        path.updated_at,
        now,
        policy.path_state_ttl_seconds,
    ) || at is None {
        None
    } else {
        match named(members, path.key.local) {
            None => None,
            Some(peer) => match visible_peer(target, peer, policy.acl_rules) {
                None => None,
                Some(visible) => Some(
                    PeerConnectionIntentView {
                        peer: visible.node_id,
                        peer_vpn_ip: visible.vpn_ip,
                        observed_at: at->0,
                    },
                ),
            },
        }
    }
}

fn find_intent(
    target: &NodeRecord,
    path: &PathRecord,
    members: &Vec<NodeRecord>,
    policy: &ClusterPolicy,
    prefix: &str,
    now: Timestamp,
) -> (r: Option<PeerConnectionIntent>)
    ensures
        opt_view(r) == intent_of(target@, path@, views(members@), policy@, prefix@, now),
{
    if path.key.remote != target.node_id || !path_is_fresh(
        path,
        now,
        policy.path_state_ttl_seconds,
    ) {
        return None;
    }
    let observed_at = match find_recent_activity(path, prefix, now, policy.idle_timeout_seconds) {
        Some(at) => at,
        None => return None,
    };
    let peer = match find_node(members, &path.key.local) {
        Some(peer) => peer,
        None => return None,
    };
    match acl_filter_peer(target, peer, policy) {
        Some(visible) => Some(
            PeerConnectionIntent {
                peer: visible.node_id.clone(),
                peer_vpn_ip: visible.vpn_ip,
                observed_at,
            },
        ),
        None => None,
    }
}

/// The first `n` of the intents, without those whose peer is that of the one before.
pub open spec fn without_repeats(intents: Seq<PeerConnectionIntentView>, n: nat) -> Seq<
    PeerConnectionIntentView,
>
    decreases n,
{
    if n == 0 {
        Seq::empty()
    } else {
        let before = without_repeats(intents, (n - 1) as nat);
        if n > 1 && intents[n - 1].peer == intents[n - 2].peer {
            before
        } else {
            before.push(intents[n - 1])
        }
    }
}

/// The intents that paths stand for, in the order of the peers.
pub open spec fn sorted_intents(
    target: NodeRecordView,
    paths: Seq<PathRecordView>,
    members: Seq<NodeRecordView>,
    policy: ClusterPolicyView,
    prefix: Seq<char>,
    now: Timestamp,
) -> Seq<PeerConnectionIntentView> {
    sorted_by(
        gathered(
            paths,
            |path: PathRecordView| intent_of(target, path, members, policy, prefix, now),
            paths.len(),
        ),
        |intent: PeerConnectionIntentView| text_key(intent.peer),
    )
}

/// The peers that want to reach a target, each once, in the order of their identifiers.
pub open spec fn intents_for(
    target: NodeRecordView,
    paths: Seq<PathRecordView>,
    members: Seq<NodeRecordView>,
    policy: ClusterPolicyView,
    prefix: Seq<char>,
    now: Timestamp,
) -> Seq<PeerConnectionIntentView> {
    let sorted = sorted_intents(target, paths, members, policy, prefix, now);
    without_repeats(sorted, sorted.len())
}

fn sort_intents(intents: &Vec<PeerConnectionIntent>) -> (r: Vec<PeerConnectionIntent>)
    ensures
        views(r@) == sorted_by(
            views(intents@),
            |intent: PeerConnectionIntentView| text_key(intent.peer),
        ),
{
    let ghost all = views(intents@);
    let mut keys: Vec<Vec<KeyPart>> = Vec::new();
    let mut i: usize = 0;
    while i < intents.len()
        invariant
            i <= intents@.len(),
            keys@.len() == i,
            forall|k: int|
                0 <= k < i ==> key_view((#[trigger] keys@[k])@) == text_key(intents@[k]@.peer),
        decreases intents@.len() - i,
    {
        keys.push(text_sort_key(intents[i].peer.as_str()));
        i = i + 1;
    }
    assert(keys_view(keys@) =~= keys_of(
        all,
        |intent: PeerConnectionIntentView| text_key(intent.peer),
    ));
    sort_records(intents, &keys)
}

fn drop_repeats(intents: &Vec<PeerConnectionIntent>) -> (r: Vec<PeerConnectionIntent>)
    ensures
        views(r@) == without_repeats(views(intents@), intents@.len()),
{
    let ghost all = views(intents@);
    let mut r: Vec<PeerConnectionIntent> = Vec::new();
    let mut i: usize = 0;
    assert(views(r@) =~= Seq::empty());
    while i < intents.len()
        invariant
            i <= intents@.len(),
            all == views(intents@),
            views(r@) == without_repeats(all, i as nat),
        decreases intents@.len() - i,
    {
        broadcast use lemma_views_push;

        assert(all[i as int] == intents@[i as int]@);
        let repeated = if i > 0 {
            assert(all[i - 1] == intents@[i - 1]@);
            intents[i].peer == intents[i - 1].peer
        } else {
            false
        };
        if !repeated {
            r.push(intents[i].duplicate());
        }
        i = i + 1;
    }
    r
}

/// The peers that want to reach a node. `node` is what is registered under the identifier, `paths`
/// are the paths from and to it, and `listed` are the nodes that are registered.
pub fn connection_intents_for(
    node_id: &NodeId,
    node: Option<&NodeRecord>,
    cluster_id: &ClusterId,
    paths: &Vec<PathRecord>,
    listed: &Vec<NodeRecord>,
    policy: &ClusterPolicy,
    prefix: &str,
    now: Timestamp,
) -> (r: Result<Vec<PeerConnectionIntent>, ControlPlaneError>)
    ensures
        match ref_view(node) {
            Some(target) if target.cluster_id == cluster_id@ => r is Ok && views(r->Ok_0@)
                == intents_for(
                target,
                views(paths@),
                members_of(views(listed@), cluster_id@),
                policy@,
                prefix@,
                now,
            ),
            _ => refusal(r) == Some(ControlPlaneErrorView::NodeNotFound { node_id: node_id@ }),
        },
{
    let target = match node {
        Some(target) => target,
        None => return Err(ControlPlaneError::NodeNotFound { node_id: node_id.clone() }),
    };
    if target.cluster_id != *cluster_id {
        return Err(ControlPlaneError::NodeNotFound { node_id: node_id.clone() });
    }
    let members = list_members(listed, cluster_id);
    let ghost all = views(paths@);
    let ghost known = views(members@);
    let ghost f = |path: PathRecordView|
        intent_of(target@, path, known, policy@, prefix@, now);
    let mut intents: Vec<PeerConnectionIntent> = Vec::new();
    let mut i: usize = 0;
    assert(views(intents@) =~= gathered(all, f, 0));
    while i < paths.len()
        invariant
            i <= paths@.len(),
            all == views(paths@),
            known == views(members@),
            f == (|path: PathRecordView|
                intent_of(target@, path, known, policy@, prefix@, now)),
            views(intents@) == gathered(all, f, i as nat),
        decreases paths@.len() - i,
    {
        broadcast use lemma_views_push;

        assert(all[i as int] == paths@[i as int]@);
        if let Some(intent) = find_intent(target, &paths[i], &members, policy, prefix, now) {
            intents.push(intent);
        }
        i = i + 1;
    }
    let sorted = sort_intents(&intents);
    Ok(drop_repeats(&sorted))
}

/// Whether a client chose a gateway so recently that the change is still announced. A choice in the
/// future counts.
pub fn client_gateway_selection_changed_recently(latest: Option<Timestamp>, now: Timestamp) -> (r:
    bool)
    ensures
        r == (latest matches Some(at) && fresh(at, now, CLIENT_GATEWAY_SELECTION_ANNOUNCE_SECONDS)),
{
    match latest {
        Some(at) => timestamp_is_fresh(at, now, CLIENT_GATEWAY_SELECTION_ANNOUNCE_SECONDS),
        None => false,
    }
}

/// Whether a node has to wait for an answer: it wants to, and there is nothing to answer yet.
pub fn has_to_wait(wait: Span, peer_delta_available: bool, intents: &Vec<PeerConnectionIntent>) -> (r:
    bool)
    ensures
        r == (wait.len() > 0 && !peer_delta_available && intents@.len() == 0),
{
    wait.total_nanos() > 0 && !peer_delta_available && intents.len() == 0
}

/// How long a waiting node pauses before it looks again.
pub fn waiting_pause(remaining: Span) -> (r: Span)
    ensures
        r.len() == (if remaining.len() <= CONNECTION_INTENT_POLL_SECONDS * 1_000_000_000 {
            remaining.len()
        } else {
            CONNECTION_INTENT_POLL_SECONDS * 1_000_000_000
        }),
{
    let longest = Span::from_secs(CONNECTION_INTENT_POLL_SECONDS);
    if remaining.total_nanos() <= longest.total_nanos() {
        remaining
    } else {
        longest
    }
}

/// What a waiting node does after a look.
#[derive(Debug, Clone, Copy, PartialEq, Eq, Structural)]
pub enum WaitStep {
    /// A client has chosen another gateway: the answer says that peers have changed.
    AnswerWithPeerDelta,
    /// Peers want to reach the node: the answer names them.
    AnswerWithIntents,
    /// The node waits on.
    Wait,
}

/// What a waiting node does after a look. `baseline` is when a client last chose a gateway before
/// the node began to wait, and `latest` when one last did now.
pub fn step_after_look(
    baseline: Option<Timestamp>,
    latest: Option<Timestamp>,
    intents: &Vec<PeerConnectionIntent>,
) -> (r: WaitStep)
    ensures
        r == (if latest matches Some(at) && (baseline matches Some(before) ==> before.at()
            < at.at()) {
            WaitStep::AnswerWithPeerDelta
        } else if intents@.len() > 0 {
            WaitStep::AnswerWithIntents
        } else {
            WaitStep::Wait
        }),
{
    let changed = match (latest, baseline) {
        (Some(at), Some(before)) => before.before(&at),
        (Some(_), None) => true,
        (None, _) => false,
    };
    if changed {
        WaitStep::AnswerWithPeerDelta
    } else if intents.len() > 0 {
        WaitStep::AnswerWithIntents
    } else {
        WaitStep::Wait
    }
}

proof fn lemma_without_repeats(intents: Seq<PeerConnectionIntentView>, n: nat)
    requires
        n <= intents.len(),
        forall|i: int, j: int|
            0 <= i < j < intents.len() ==> !text_lt(
                (#[trigger] intents[j]).peer,
                (#[trigger] intents[i]).peer,
            ),
    ensures
        n > 0 ==> without_repeats(intents, n).len() > 0 && without_repeats(intents, n).last().peer
            == intents[n - 1].peer,
        forall|i: int, j: int|
            0 <= i < j < without_repeats(intents, n).len() ==> text_lt(
                (#[trigger] without_repeats(intents, n)[i]).peer,
                (#[trigger] without_repeats(intents, n)[j]).peer,
            ),
    decreases n,
{
    if n > 0 {
        lemma_without_repeats(intents, (n - 1) as nat);
        let before = without_repeats(intents, (n - 1) as nat);
        let after = without_repeats(intents, n);
        if n > 1 && intents[n - 1].peer == intents[n - 2].peer {
        } else if n > 1 {
            let last = intents[n - 1].peer;
            let previous = intents[n - 2].peer;
            crate::text::lemma_text_lt_total(previous, last);
            assert(!text_lt(intents[n - 1].peer, intents[n - 2].peer));
            assert(text_lt(previous, last));
            assert forall|i: int, j: int| 0 <= i < j < after.len() implies text_lt(
                (#[trigger] after[i]).peer,
                (#[trigger] after[j]).peer,
            ) by {
                if j == before.len() {
                    if i < before.len() - 1 {
                        assert(text_lt(before[i].peer, before[before.len() - 1].peer));
                        crate::text::lemma_text_lt_transitive(before[i].peer, previous, last);
                    } else {
                        assert(after[i].peer == previous);
                    }
                } else {
                    assert(after[i] == before[i] && after[j] == before[j]);
                }
            }
        }
    }
}

/// Each peer that wants to reach a node is named once, in ascending order.
pub proof fn law_each_peer_is_named_once(
    target: NodeRecordView,
    paths: Seq<PathRecordView>,
    members: Seq<NodeRecordView>,
    policy: ClusterPolicyView,
    prefix: Seq<char>,
    now: Timestamp,
)
    ensures
        forall|i: int, j: int|
            0 <= i < j < intents_for(target, paths, members, policy, prefix, now).len() ==> text_lt(
                (#[trigger] intents_for(target, paths, members, policy, prefix, now)[i]).peer,
                (#[trigger] intents_for(target, paths, members, policy, prefix, now)[j]).peer,
            ),
{
    let found = gathered(
        paths,
        |path: PathRecordView| intent_of(target, path, members, policy, prefix, now),
        paths.len(),
    );
    let key = |intent: PeerConnectionIntentView| text_key(intent.peer);
    let sorted = sorted_intents(target, paths, members, policy, prefix, now);
    lemma_sorted_by(found, key);
    assert forall|i: int, j: int| 0 <= i < j < sorted.len() implies !text_lt(
        (#[trigger] sorted[j]).peer,
        (#[trigger] sorted[i]).peer,
    ) by {
        assert(!key_lt(key(sorted[j]), key(sorted[i])));
        lemma_text_key_lt(sorted[j].peer, sorted[i].peer);
    }
    lemma_without_repeats(sorted, sorted.len());
}

proof fn lemma_text_key_lt(a: Seq<char>, b: Seq<char>)
    ensures
        key_lt(text_key(a), text_key(b)) == text_lt(a, b),
{
    assert(text_key(a)[0] == crate::order::KeyPartView::Bytes(encode_utf8(a)));
    assert(text_key(b)[0] == crate::order::KeyPartView::Bytes(encode_utf8(b)));
    reveal_with_fuel(key_lt, 2);
    crate::text::lemma_bytes_lt_irreflexive(encode_utf8(a));
}

proof fn lemma_repeats_dropped(intents: Seq<PeerConnectionIntentView>, n: nat)
    requires
        n <= intents.len(),
    ensures
        forall|intent: PeerConnectionIntentView| #[trigger]
            without_repeats(intents, n).contains(intent) ==> exists|i: int|
                0 <= i < n && #[trigger] intents[i] == intent,
        forall|i: int|
            0 <= i < n ==> names_peer(without_repeats(intents, n), (#[trigger] intents[i]).peer),
    decreases n,
{
    if n > 0 {
        lemma_repeats_dropped(intents, (n - 1) as nat);
        let before = without_repeats(intents, (n - 1) as nat);
        let all = without_repeats(intents, n);
        let last = intents[n - 1];
        if n > 1 && intents[n - 1].peer == intents[n - 2].peer {
            assert(names_peer(before, intents[n - 2].peer));
            assert forall|intent: PeerConnectionIntentView| #[trigger] all.contains(
                intent,
            ) implies exists|i: int| 0 <= i < n && #[trigger] intents[i] == intent by {
                let i = choose|i: int| 0 <= i < n - 1 && #[trigger] intents[i] == intent;
                assert(intents[i] == intent);
            }
        } else {
            assert(all == before.push(last));
            assert(all[before.len() as int].peer == last.peer);
            assert forall|id: Seq<char>| names_peer(before, id) implies #[trigger] names_peer(
                all,
                id,
            ) by {
                let k = choose|k: int| 0 <= k < before.len() && (#[trigger] before[k]).peer == id;
                assert(all[k].peer == id);
            }
            assert forall|intent: PeerConnectionIntentView| #[trigger] all.contains(
                intent,
            ) implies exists|i: int| 0 <= i < n && #[trigger] intents[i] == intent by {
                let k = choose|k: int| 0 <= k < all.len() && all[k] == intent;
                if k < before.len() {
                    assert(before[k] == intent);
                    assert(before.contains(intent));
                    let i = choose|i: int| 0 <= i < n - 1 && #[trigger] intents[i] == intent;
                    assert(intents[i] == intent);
                } else {
                    assert(intents[n - 1] == intent);
                }
            }
        }
    }
}

/// One of the intents is to connect to the peer.
pub open spec fn names_peer(intents: Seq<PeerConnectionIntentView>, id: Seq<char>) -> bool {
    exists|k: int| 0 <= k < intents.len() && (#[trigger] intents[k]).peer == id
}

/// A path shows that the node at its near end wants to reach the node at its far end: it was reported
/// no longer ago than path states last, and there was activity on it within the idle time.
pub open spec fn shows_interest(
    path: PathRecordView,
    policy: ClusterPolicyView,
    prefix: Seq<char>,
    now: Timestamp,
    at: Timestamp,
) -> bool {
    &&& now.at() <= path.updated_at.at() + policy.path_state_ttl_seconds * 1_000_000_000
    &&& activity_of(path, prefix) == Ok::<Option<Timestamp>, Seq<char>>(Some(at))
    &&& now.at() <= at.at() + policy.idle_timeout_seconds * 1_000_000_000
}

/// A node is told to connect to exactly those members that it may see and that lately wanted to reach
/// it, each with the address that the member has and an instant at which it did.
pub proof fn law_interested_peers_are_named(
    target: NodeRecordView,
    paths: Seq<PathRecordView>,
    members: Seq<NodeRecordView>,
    policy: ClusterPolicyView,
    prefix: Seq<char>,
    now: Timestamp,
)
    ensures
        forall|k: int|
            0 <= k < intents_for(target, paths, members, policy, prefix, now).len() ==> exists|
                i: int,
            |
                0 <= i < paths.len() && (#[trigger] paths[i]).key.remote == target.node_id
                    && paths[i].key.local == (#[trigger] intents_for(
                    target,
                    paths,
                    members,
                    policy,
                    prefix,
                    now,
                )[k]).peer && shows_interest(
                    paths[i],
                    policy,
                    prefix,
                    now,
                    intents_for(target, paths, members, policy, prefix, now)[k].observed_at,
                ) && (named(members, paths[i].key.local) matches Some(peer) && visible_peer(
                    target,
                    peer,
                    policy.acl_rules,
                ) is Some && intents_for(
                    target,
                    paths,
                    members,
                    policy,
                    prefix,
                    now,
                )[k].peer_vpn_ip == peer.vpn_ip),
        forall|i: int, at: Timestamp|
            0 <= i < paths.len() && (#[trigger] paths[i]).key.remote == target.node_id
                && #[trigger] shows_interest(paths[i], policy, prefix, now, at) && (named(
                members,
                paths[i].key.local,
            ) matches Some(peer) && visible_peer(target, peer, policy.acl_rules) is Some)
                ==> names_peer(
                intents_for(target, paths, members, policy, prefix, now),
                paths[i].key.local,
            ),
{
    let f = |path: PathRecordView| intent_of(target, path, members, policy, prefix, now);
    let found = gathered(paths, f, paths.len());
    let sorted = sorted_intents(target, paths, members, policy, prefix, now);
    let intents = intents_for(target, paths, members, policy, prefix, now);
    crate::lists::lemma_gathered_members(paths, f);
    crate::order::lemma_sorted_by(
        found,
        |intent: PeerConnectionIntentView| text_key(intent.peer),
    );
    lemma_repeats_dropped(sorted, sorted.len());
    assert forall|k: int| 0 <= k < intents.len() implies exists|i: int|
        0 <= i < paths.len() && (#[trigger] paths[i]).key.remote == target.node_id
            && paths[i].key.local == (#[trigger] intents[k]).peer && shows_interest(
            paths[i],
            policy,
            prefix,
            now,
            intents[k].observed_at,
        ) && (named(members, paths[i].key.local) matches Some(peer) && visible_peer(
            target,
            peer,
            policy.acl_rules,
        ) is Some && intents[k].peer_vpn_ip == peer.vpn_ip) by {
        assert(intents.contains(intents[k]));
        let j = choose|j: int| 0 <= j < sorted.len() && #[trigger] sorted[j] == intents[k];
        assert(sorted.contains(intents[k]));
        assert(found.contains(intents[k]));
        let i = choose|i: int|
            0 <= i < paths.len() && f(#[trigger] paths[i]) == Some(intents[k]);
        crate::nodes::lemma_node_named(members, paths[i].key.local, members.len());
        assert(paths[i].key.remote == target.node_id);
    }
    assert forall|i: int, at: Timestamp|
        0 <= i < paths.len() && (#[trigger] paths[i]).key.remote == target.node_id
            && #[trigger] shows_interest(paths[i], policy, prefix, now, at) && (named(
            members,
            paths[i].key.local,
        ) matches Some(peer) && visible_peer(target, peer, policy.acl_rules) is Some) implies names_peer(
        intents,
        paths[i].key.local,
    ) by {
        assert(f(paths[i]) is Some);
        let intent = f(paths[i])->0;
        assert(found.contains(intent));
        assert(sorted.contains(intent));
        let j = choose|j: int| 0 <= j < sorted.len() && sorted[j] == intent;
        crate::nodes::lemma_node_named(members, paths[i].key.local, members.len());
        assert(intent.peer == paths[i].key.local);
        assert(names_peer(intents, sorted[j].peer));
    }
}

/// The members are the participants of the cluster, and a path was lately wanted exactly where one of
/// the reported paths to the node had activity within the idle time.
pub proof fn law_wanted_paths_were_active(
    listed: Seq<NodeRecordView>,
    cluster_id: Seq<char>,
    node: NodeRecordView,
    paths: Seq<PathRecordView>,
    prefix: Seq<char>,
    now: Timestamp,
    idle_timeout_seconds: u64,
    id: Seq<char>,
)
    ensures
        members_of(listed, cluster_id).contains(node) <==> listed.contains(node)
            && node.cluster_id == cluster_id,
        wanted_by(paths, prefix, now, idle_timeout_seconds, id, paths.len()) <==> exists|
            i: int,
            at: Timestamp,
        |
            0 <= i < paths.len() && (#[trigger] paths[i]).key.remote == id && activity_of(
                paths[i],
                prefix,
            ) == Ok::<Option<Timestamp>, Seq<char>>(Some(at)) && now.at() <= (
            #[trigger] at.at()) + idle_timeout_seconds * 1_000_000_000,
{
    let keep = |node: NodeRecordView| node.cluster_id == cluster_id;
    crate::lists::lemma_kept_members(listed, keep);
    assert(members_of(listed, cluster_id).contains(node) <==> listed.contains(node) && keep(node));
    if wanted_by(paths, prefix, now, idle_timeout_seconds, id, paths.len()) {
        let i = choose|i: int|
            0 <= i < paths.len() && (#[trigger] paths[i]).key.remote == id && recent_activity(
                paths[i],
                prefix,
                now,
                idle_timeout_seconds,
            ) is Some;
        let at = recent_activity(paths[i], prefix, now, idle_timeout_seconds)->0;
        assert(paths[i].key.remote == id && now.at() <= at.at() + idle_timeout_seconds
            * 1_000_000_000);
    }
    if exists|i: int, at: Timestamp|
        0 <= i < paths.len() && (#[trigger] paths[i]).key.remote == id && activity_of(
            paths[i],
            prefix,
        ) == Ok::<Option<Timestamp>, Seq<char>>(Some(at)) && now.at() <= (#[trigger] at.at())
            + idle_timeout_seconds * 1_000_000_000 {
        let (i, at) = choose|i: int, at: Timestamp|
            0 <= i < paths.len() && (#[trigger] paths[i]).key.remote == id && activity_of(
                paths[i],
                prefix,
            ) == Ok::<Option<Timestamp>, Seq<char>>(Some(at)) && now.at() <= (
            #[trigger] at.at()) + idle_timeout_seconds * 1_000_000_000;
        assert(recent_activity(paths[i], prefix, now, idle_timeout_seconds) == Some(at));
    }
}

} // verus!
