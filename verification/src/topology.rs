//! The topology of the overlay as it is shown: groups, nodes, edges, and what is observed of the
//! edges.

use vstd::prelude::*;
use vstd::utf8::*;

use crate::error::{refusal, ControlPlaneError, ControlPlaneErrorView};
use crate::gateway::{overlay_node_health_allows, part_of_overlay};
use crate::ids::{ClusterId, NameSet, NodeId, Role};
use crate::lists::{first_in, kept, lemma_first_in_extends};
use crate::map::{held, OrderedMap, TextKey};
use crate::net::IpAddr;
use crate::nodes::{entry_of, find_entry};
use crate::order::{
    key_view, keys_of, keys_view, sort_records, sorted_by, KeyPart, KeyPartView, KeyView,
};
use crate::overlay::topology_failure;
use crate::routes::text_key;
use crate::store::has_pair;
use crate::time::{fresh, timestamp_is_fresh, Timestamp};
use crate::types::{
    duplicate_all, duplicate_option, lemma_views_push, opt_view, views, ClusterPolicy,
    ClusterPolicyView, HealthState, NodeHealth, NodeHealthView, NodeRecord, NodeRecordView,
    PathRecord, PathRecordView, PathState, Record,
};

verus! {

/// What kind of cycle an edge belongs to.
#[derive(Debug, Clone, Copy, PartialEq, Eq, Structural)]
pub enum TopologyEdgeKind {
    LeafCycle,
    HierarchyLink,
}

/// What kind of cycle an edge belongs to, as it is shown.
#[derive(Debug, Clone, Copy, PartialEq, Eq, Structural)]
pub enum ControlPlaneTopologyEdgeKind {
    LeafCycle,
    SiblingCycle,
}

/// What the ends of an edge report of it.
#[derive(Debug, Clone, Copy, PartialEq, Eq, Structural)]
pub enum ControlPlaneTopologyEdgeStatus {
    Unknown,
    Stale,
    Unreachable,
    Partial,
    Connected,
}

/// A node that stands for its group in one plane.
#[derive(Debug, PartialEq)]
pub struct GroupRepresentative {
    pub node_id: NodeId,
    pub plane: usize,
}

/// What a [`GroupRepresentative`] holds.
#[verifier::ext_equal]
pub struct GroupRepresentativeView {
    pub node_id: Seq<char>,
    pub plane: usize,
}

impl View for GroupRepresentative {
    type V = GroupRepresentativeView;

    open spec fn view(&self) -> GroupRepresentativeView {
        GroupRepresentativeView {
            node_id: self.node_id@,
            plane: self.plane,
        }
    }
}

/// A group of the topology.
#[derive(Debug, PartialEq)]
pub struct TopologyGroup {
    pub group_id: String,
    /// How many groups stand above it.
    pub depth: usize,
    pub parent_group_id: Option<String>,
    pub child_group_ids: Vec<String>,
    pub node_ids: Vec<NodeId>,
    pub leaf: bool,
    pub representatives: Vec<GroupRepresentative>,
}

/// What a [`TopologyGroup`] holds.
#[verifier::ext_equal]
pub struct TopologyGroupView {
    pub group_id: Seq<char>,
    pub depth: usize,
    pub parent_group_id: Option<Seq<char>>,
    pub child_group_ids: Seq<Seq<char>>,
    pub node_ids: Seq<Seq<char>>,
    pub leaf: bool,
    pub representatives: Seq<GroupRepresentativeView>,
}

impl View for TopologyGroup {
    type V = TopologyGroupView;

    open spec fn view(&self) -> TopologyGroupView {
        TopologyGroupView {
            group_id: self.group_id@,
            depth: self.depth,
            parent_group_id: opt_view(self.parent_group_id),
            child_group_ids: views(self.child_group_ids@),
            node_ids: views(self.node_ids@),
            leaf: self.leaf,
            representatives: views(self.representatives@),
        }
    }
}

/// Why an edge is part of the topology.
#[derive(Debug, PartialEq)]
pub struct EdgePlacement {
    pub group_id: String,
    pub level: usize,
    pub plane: usize,
    pub kind: TopologyEdgeKind,
}

/// What a [`EdgePlacement`] holds.
#[verifier::ext_equal]
pub struct EdgePlacementView {
    pub group_id: Seq<char>,
    pub level: usize,
    pub plane: usize,
    pub kind: TopologyEdgeKind,
}

impl View for EdgePlacement {
    type V = EdgePlacementView;

    open spec fn view(&self) -> EdgePlacementView {
        EdgePlacementView {
            group_id: self.group_id@,
            level: self.level,
            plane: self.plane,
            kind: self.kind,
        }
    }
}

/// An edge of the topology.
#[derive(Debug, PartialEq)]
pub struct PlacedEdge {
    pub first: NodeId,
    pub second: NodeId,
    pub placements: Vec<EdgePlacement>,
}

/// What a [`PlacedEdge`] holds.
#[verifier::ext_equal]
pub struct PlacedEdgeView {
    pub first: Seq<char>,
    pub second: Seq<char>,
    pub placements: Seq<EdgePlacementView>,
}

impl View for PlacedEdge {
    type V = PlacedEdgeView;

    open spec fn view(&self) -> PlacedEdgeView {
        PlacedEdgeView {
            first: self.first@,
            second: self.second@,
            placements: views(self.placements@),
        }
    }
}

/// A group that a node stands for.
#[derive(Debug, PartialEq)]
pub struct ControlPlaneTopologyRepresentativeAssignment {
    pub group_id: String,
    pub depth: usize,
    pub plane: u8,
}

/// What a [`ControlPlaneTopologyRepresentativeAssignment`] holds.
#[verifier::ext_equal]
pub struct ControlPlaneTopologyRepresentativeAssignmentView {
    pub group_id: Seq<char>,
    pub depth: usize,
    pub plane: u8,
}

impl View for ControlPlaneTopologyRepresentativeAssignment {
    type V = ControlPlaneTopologyRepresentativeAssignmentView;

    open spec fn view(&self) -> ControlPlaneTopologyRepresentativeAssignmentView {
        ControlPlaneTopologyRepresentativeAssignmentView {
            group_id: self.group_id@,
            depth: self.depth,
            plane: self.plane,
        }
    }
}

impl Record for ControlPlaneTopologyRepresentativeAssignment {
    fn duplicate(&self) -> (r: Self) {
        ControlPlaneTopologyRepresentativeAssignment {
            group_id: self.group_id.clone(),
            depth: self.depth,
            plane: self.plane,
        }
    }

    fn alike(&self, other: &Self) -> (r: bool) {
        self.group_id == other.group_id && self.depth == other.depth && self.plane == other.plane
    }
}

/// A node that stands for a group, as it is shown.
#[derive(Debug, PartialEq)]
pub struct ControlPlaneTopologyRepresentative {
    pub node_id: NodeId,
    pub plane: u8,
    pub role: String,
}

/// What a [`ControlPlaneTopologyRepresentative`] holds.
#[verifier::ext_equal]
pub struct ControlPlaneTopologyRepresentativeView {
    pub node_id: Seq<char>,
    pub plane: u8,
    pub role: Seq<char>,
}

impl View for ControlPlaneTopologyRepresentative {
    type V = ControlPlaneTopologyRepresentativeView;

    open spec fn view(&self) -> ControlPlaneTopologyRepresentativeView {
        ControlPlaneTopologyRepresentativeView {
            node_id: self.node_id@,
            plane: self.plane,
            role: self.role@,
        }
    }
}

/// A group, as it is shown.
#[derive(Debug, PartialEq)]
pub struct ControlPlaneTopologyGroup {
    pub group_id: String,
    pub depth: usize,
    pub parent_group_id: Option<String>,
    pub child_group_ids: Vec<String>,
    pub node_ids: Vec<NodeId>,
    pub leaf: bool,
    pub representatives: Vec<ControlPlaneTopologyRepresentative>,
}

/// What a [`ControlPlaneTopologyGroup`] holds.
#[verifier::ext_equal]
pub struct ControlPlaneTopologyGroupView {
    pub group_id: Seq<char>,
    pub depth: usize,
    pub parent_group_id: Option<Seq<char>>,
    pub child_group_ids: Seq<Seq<char>>,
    pub node_ids: Seq<Seq<char>>,
    pub leaf: bool,
    pub representatives: Seq<ControlPlaneTopologyRepresentativeView>,
}

impl View for ControlPlaneTopologyGroup {
    type V = ControlPlaneTopologyGroupView;

    open spec fn view(&self) -> ControlPlaneTopologyGroupView {
        ControlPlaneTopologyGroupView {
            group_id: self.group_id@,
            depth: self.depth,
            parent_group_id: opt_view(self.parent_group_id),
            child_group_ids: views(self.child_group_ids@),
            node_ids: views(self.node_ids@),
            leaf: self.leaf,
            representatives: views(self.representatives@),
        }
    }
}

/// Why an edge is there, as it is shown.
#[derive(Debug, PartialEq)]
pub struct ControlPlaneTopologyEdgePlacement {
    pub group_id: String,
    pub depth: usize,
    pub plane: u8,
    pub kind: ControlPlaneTopologyEdgeKind,
}

/// What a [`ControlPlaneTopologyEdgePlacement`] holds.
#[verifier::ext_equal]
pub struct ControlPlaneTopologyEdgePlacementView {
    pub group_id: Seq<char>,
    pub depth: usize,
    pub plane: u8,
    pub kind: ControlPlaneTopologyEdgeKind,
}

impl View for ControlPlaneTopologyEdgePlacement {
    type V = ControlPlaneTopologyEdgePlacementView;

    open spec fn view(&self) -> ControlPlaneTopologyEdgePlacementView {
        ControlPlaneTopologyEdgePlacementView {
            group_id: self.group_id@,
            depth: self.depth,
            plane: self.plane,
            kind: self.kind,
        }
    }
}

/// An edge, as it is shown, with what its ends report of it.
#[derive(Debug, PartialEq)]
pub struct ControlPlaneTopologyEdge {
    pub source: NodeId,
    pub target: NodeId,
    pub placements: Vec<ControlPlaneTopologyEdgePlacement>,
    pub observed_status: ControlPlaneTopologyEdgeStatus,
    pub path_states: Vec<PathState>,
    pub last_observed_at: Option<Timestamp>,
}

/// What a [`ControlPlaneTopologyEdge`] holds.
#[verifier::ext_equal]
pub struct ControlPlaneTopologyEdgeView {
    pub source: Seq<char>,
    pub target: Seq<char>,
    pub placements: Seq<ControlPlaneTopologyEdgePlacementView>,
    pub observed_status: ControlPlaneTopologyEdgeStatus,
    pub path_states: Seq<PathState>,
    pub last_observed_at: Option<Timestamp>,
}

impl View for ControlPlaneTopologyEdge {
    type V = ControlPlaneTopologyEdgeView;

    open spec fn view(&self) -> ControlPlaneTopologyEdgeView {
        ControlPlaneTopologyEdgeView {
            source: self.source@,
            target: self.target@,
            placements: views(self.placements@),
            observed_status: self.observed_status,
            path_states: self.path_states@,
            last_observed_at: self.last_observed_at,
        }
    }
}

/// A node, as it is shown, with its place in the topology.
#[derive(Debug, PartialEq)]
pub struct ControlPlaneTopologyNode {
    pub node_id: NodeId,
    pub hostname: Option<String>,
    pub vpn_ip: IpAddr,
    pub role: Role,
    pub tags: NameSet,
    pub leaf_group_id: String,
    /// The groups from the root down to the leaf.
    pub ancestry: Vec<String>,
    pub degree: usize,
    pub health_state: Option<HealthState>,
    pub last_seen_at: Option<Timestamp>,
    pub representative_for: Vec<ControlPlaneTopologyRepresentativeAssignment>,
}

/// What a [`ControlPlaneTopologyNode`] holds.
#[verifier::ext_equal]
pub struct ControlPlaneTopologyNodeView {
    pub node_id: Seq<char>,
    pub hostname: Option<Seq<char>>,
    pub vpn_ip: IpAddr,
    pub role: Seq<char>,
    pub tags: Set<Seq<char>>,
    pub leaf_group_id: Seq<char>,
    pub ancestry: Seq<Seq<char>>,
    pub degree: usize,
    pub health_state: Option<HealthState>,
    pub last_seen_at: Option<Timestamp>,
    pub representative_for: Seq<ControlPlaneTopologyRepresentativeAssignmentView>,
}

impl View for ControlPlaneTopologyNode {
    type V = ControlPlaneTopologyNodeView;

    open spec fn view(&self) -> ControlPlaneTopologyNodeView {
        ControlPlaneTopologyNodeView {
            node_id: self.node_id@,
            hostname: opt_view(self.hostname),
            vpn_ip: self.vpn_ip,
            role: self.role@,
            tags: self.tags@,
            leaf_group_id: self.leaf_group_id@,
            ancestry: views(self.ancestry@),
            degree: self.degree,
            health_state: self.health_state,
            last_seen_at: self.last_seen_at,
            representative_for: views(self.representative_for@),
        }
    }
}

/// A topology, and what was measured of it.
#[derive(Debug)]
pub struct Topology {
    pub topology_epoch: u64,
    /// The name of the algorithm that built the topology.
    pub algorithm: String,
    pub groups: Vec<TopologyGroup>,
    pub edges: Vec<PlacedEdge>,
    /// How many neighbors each node has.
    pub degrees: OrderedMap<NodeId, usize>,
    pub node_count: usize,
    pub edge_count: usize,
    pub max_observed_degree: usize,
    pub diameter_lower_bound: usize,
}

/// The topology as it is shown.
#[derive(Debug)]
pub struct ControlPlaneTopologyResponse {
    pub cluster_id: ClusterId,
    pub topology_epoch: String,
    pub algorithm: String,
    pub root_group_id: Option<String>,
    pub fanout: u16,
    pub max_degree: u16,
    pub direct_shortcut_limit: u16,
    pub on_demand_peer_limit: u16,
    pub node_count: usize,
    pub group_count: usize,
    pub level_count: usize,
    pub edge_count: usize,
    pub max_observed_degree: usize,
    pub diameter_lower_bound: usize,
    pub groups: Vec<ControlPlaneTopologyGroup>,
    pub nodes: Vec<ControlPlaneTopologyNode>,
    pub edges: Vec<ControlPlaneTopologyEdge>,
    pub generated_at: Timestamp,
}

/// Whether a path was reported recently.
pub fn path_is_fresh(path: &PathRecord, now: Timestamp, ttl_seconds: u64) -> (r: bool)
    ensures
        r == fresh(path@.updated_at, now, ttl_seconds),
{
    timestamp_is_fresh(path.updated_at, now, ttl_seconds)
}

/// The states of path in their order.
pub open spec fn all_states() -> Seq<PathState> {
    seq![
        PathState::DirectPublic,
        PathState::DirectIpv6,
        PathState::DirectNatTraversal,
        PathState::Relay,
        PathState::Unreachable,
    ]
}

/// One of the first `n` paths is in the state.
pub open spec fn state_occurs(paths: Seq<PathRecordView>, state: PathState, n: nat) -> bool {
    exists|i: int| 0 <= i < n && (#[trigger] paths[i]).selected_state == state
}

/// The states that paths are in, each once, in the order of the states.
pub open spec fn states_seen(paths: Seq<PathRecordView>) -> Seq<PathState> {
    kept(all_states(), |state: PathState| state_occurs(paths, state, paths.len()), 5)
}

/// When the last of the first `n` paths was reported.
pub open spec fn last_report(paths: Seq<PathRecordView>, n: nat) -> Option<Timestamp>
    decreases n,
{
    if n == 0 {
        None
    } else {
        match last_report(paths, (n - 1) as nat) {
            Some(best) if paths[n - 1].updated_at.at() < best.at() => Some(best),
            _ => Some(paths[n - 1].updated_at),
        }
    }
}

/// The path was reported recently, and leads to its end.
pub open spec fn reaches(path: PathRecordView, now: Timestamp, ttl_seconds: u64) -> bool {
    fresh(path.updated_at, now, ttl_seconds) && path.selected_state != PathState::Unreachable
}

/// What the reports on an edge say together: nothing, nothing recent, that neither end reaches the
/// other, that both do, or that one does.
pub open spec fn edge_status(
    paths: Seq<PathRecordView>,
    now: Timestamp,
    ttl_seconds: u64,
) -> ControlPlaneTopologyEdgeStatus {
    if paths.len() == 0 {
        ControlPlaneTopologyEdgeStatus::Unknown
    } else if forall|i: int|
        0 <= i < paths.len() ==> !fresh((#[trigger] paths[i]).updated_at, now, ttl_seconds) {
        ControlPlaneTopologyEdgeStatus::Stale
    } else if forall|i: int|
        0 <= i < paths.len() ==> !reaches(#[trigger] paths[i], now, ttl_seconds) {
        ControlPlaneTopologyEdgeStatus::Unreachable
    } else if exists|i: int, j: int|
        0 <= i < paths.len() && 0 <= j < paths.len() && reaches(
            #[trigger] paths[i],
            now,
            ttl_seconds,
        ) && reaches(#[trigger] paths[j], now, ttl_seconds) && paths[i].key.local
            != paths[j].key.local {
        ControlPlaneTopologyEdgeStatus::Connected
    } else {
        ControlPlaneTopologyEdgeStatus::Partial
    }
}

fn occurs(paths: &Vec<PathRecord>, state: PathState) -> (r: bool)
    ensures
        r == state_occurs(views(paths@), state, paths@.len()),
{
    let ghost all = views(paths@);
    let mut i: usize = 0;
    while i < paths.len()
        invariant
            i <= paths@.len(),
            all == views(paths@),
            forall|k: int| 0 <= k < i ==> (#[trigger] all[k]).selected_state != state,
        decreases paths@.len() - i,
    {
        assert(all[i as int] == paths@[i as int]@);
        if paths[i].selected_state == state {
            return true;
        }
        i = i + 1;
    }
    false
}

fn list_states(paths: &Vec<PathRecord>) -> (r: Vec<PathState>)
    ensures
        r@ == states_seen(views(paths@)),
{
    let states: Vec<PathState> = vec![
        PathState::DirectPublic,
        PathState::DirectIpv6,
        PathState::DirectNatTraversal,
        PathState::Relay,
        PathState::Unreachable,
    ];
    assert(states@ =~= all_states());
    let ghost keep = |state: PathState| state_occurs(views(paths@), state, paths@.len());
    let mut r: Vec<PathState> = Vec::new();
    let mut i: usize = 0;
    while i < states.len()
        invariant
            i <= states@.len(),
            states@ == all_states(),
            keep == (|state: PathState| state_occurs(views(paths@), state, paths@.len())),
            r@ == kept(all_states(), keep, i as nat),
        decreases states@.len() - i,
    {
        if occurs(paths, states[i]) {
            r.push(states[i]);
        }
        i = i + 1;
    }
    r
}

fn find_last_report(paths: &Vec<PathRecord>) -> (r: Option<Timestamp>)
    ensures
        r == last_report(views(paths@), paths@.len()),
{
    let ghost all = views(paths@);
    let mut last: Option<Timestamp> = None;
    let mut i: usize = 0;
    while i < paths.len()
        invariant
            i <= paths@.len(),
            all == views(paths@),
            last == last_report(all, i as nat),
        decreases paths@.len() - i,
    {
        assert(all[i as int] == paths@[i as int]@);
        let reported = paths[i].updated_at;
        let older = match last {
            Some(best) => reported.before(&best),
            None => false,
        };
        if !older {
            last = Some(reported);
        }
        i = i + 1;
    }
    last
}

fn find_fresh(paths: &Vec<PathRecord>, now: Timestamp, ttl_seconds: u64) -> (r: bool)
    ensures
        r == !(forall|i: int|
            0 <= i < paths@.len() ==> !fresh(
                (#[trigger] views(paths@)[i]).updated_at,
                now,
                ttl_seconds,
            )),
{
    let ghost all = views(paths@);
    let mut i: usize = 0;
    while i < paths.len()
        invariant
            i <= paths@.len(),
            all == views(paths@),
            forall|k: int|
                0 <= k < i ==> !fresh((#[trigger] all[k]).updated_at, now, ttl_seconds),
        decreases paths@.len() - i,
    {
        assert(all[i as int] == paths@[i as int]@);
        if path_is_fresh(&paths[i], now, ttl_seconds) {
            return true;
        }
        i = i + 1;
    }
    false
}

/// The position of the first path that reaches its end, and is reported by another node than the
/// given one, where one is given.
fn find_reaching(
    paths: &Vec<PathRecord>,
    except: Option<&NodeId>,
    now: Timestamp,
    ttl_seconds: u64,
) -> (r: Option<usize>)
    ensures
        match r {
            Some(i) => i < paths@.len() && reaches(views(paths@)[i as int], now, ttl_seconds) && (
            except matches Some(id) ==> views(paths@)[i as int].key.local != id@),
            None => forall|i: int|
                0 <= i < paths@.len() ==> !(reaches(#[trigger] views(paths@)[i], now, ttl_seconds)
                    && (except matches Some(id) ==> views(paths@)[i].key.local != id@)),
        },
{
    let ghost all = views(paths@);
    let mut i: usize = 0;
    while i < paths.len()
        invariant
            i <= paths@.len(),
            all == views(paths@),
            forall|k: int|
                0 <= k < i ==> !(reaches(#[trigger] all[k], now, ttl_seconds) && (
                except matches Some(id) ==> all[k].key.local != id@)),
        decreases paths@.len() - i,
    {
        assert(all[i as int] == paths@[i as int]@);
        let path = &paths[i];
        if path_is_fresh(path, now, ttl_seconds) && path.selected_state != PathState::Unreachable {
            let other = match except {
                Some(id) => path.key.local != *id,
                None => true,
            };
            if other {
                return Some(i);
            }
        }
        i = i + 1;
    }
    None
}

/// What the reports on an edge say together, the states that they name, and when the last of them
/// was made.
pub fn topology_edge_observation(paths: &Vec<PathRecord>, now: Timestamp, ttl_seconds: u64) -> (r: (
    ControlPlaneTopologyEdgeStatus,
    Vec<PathState>,
    Option<Timestamp>,
))
    ensures
        r.0 == edge_status(views(paths@), now, ttl_seconds),
        r.1@ == states_seen(views(paths@)),
        r.2 == last_report(views(paths@), paths@.len()),
{
    let ghost all = views(paths@);
    let states = list_states(paths);
    let last = find_last_report(paths);
    if paths.len() == 0 {
        return (ControlPlaneTopologyEdgeStatus::Unknown, states, last);
    }
    if !find_fresh(paths, now, ttl_seconds) {
        return (ControlPlaneTopologyEdgeStatus::Stale, states, last);
    }
    let status = match find_reaching(paths, None, now, ttl_seconds) {
        None => ControlPlaneTopologyEdgeStatus::Unreachable,
        Some(i) => {
            assert(all[i as int] == paths@[i as int]@);
            match find_reaching(paths, Some(&paths[i].key.local), now, ttl_seconds) {
                Some(j) => {
                    assert(reaches(all[i as int], now, ttl_seconds) && reaches(
                        all[j as int],
                        now,
                        ttl_seconds,
                    ) && all[i as int].key.local != all[j as int].key.local);
                    ControlPlaneTopologyEdgeStatus::Connected
                },
                None => {
                    assert forall|a: int, b: int|
                        0 <= a < all.len() && 0 <= b < all.len() && reaches(
                            #[trigger] all[a],
                            now,
                            ttl_seconds,
                        ) && reaches(#[trigger] all[b], now, ttl_seconds) implies all[a].key.local
                        == all[b].key.local by {
                        assert(all[a].key.local == all[i as int].key.local);
                        assert(all[b].key.local == all[i as int].key.local);
                    }
                    ControlPlaneTopologyEdgeStatus::Partial
                },
            }
        },
    };
    (status, states, last)
}

/// The path leads from one end of the edge to the other.
pub open spec fn joins(path: PathRecordView, first: Seq<char>, second: Seq<char>) -> bool {
    (path.key.local == first && path.key.remote == second) || (path.key.local == second
        && path.key.remote == first)
}

/// The paths along an edge.
pub open spec fn paths_along(
    paths: Seq<PathRecordView>,
    first: Seq<char>,
    second: Seq<char>,
) -> Seq<PathRecordView> {
    kept(paths, |path: PathRecordView| joins(path, first, second), paths.len())
}

fn list_paths_along(paths: &Vec<PathRecord>, first: &NodeId, second: &NodeId) -> (r: Vec<PathRecord>)
    ensures
        views(r@) == paths_along(views(paths@), first@, second@),
{
    let ghost all = views(paths@);
    let ghost keep = |path: PathRecordView| joins(path, first@, second@);
    let mut r: Vec<PathRecord> = Vec::new();
    let mut i: usize = 0;
    assert(views(r@) =~= kept(all, keep, 0));
    while i < paths.len()
        invariant
            i <= paths@.len(),
            all == views(paths@),
            keep == (|path: PathRecordView| joins(path, first@, second@)),
            views(r@) == kept(all, keep, i as nat),
        decreases paths@.len() - i,
    {
        broadcast use lemma_views_push;

        assert(all[i as int] == paths@[i as int]@);
        let key = &paths[i].key;
        if (key.local == *first && key.remote == *second) || (key.local == *second && key.remote
            == *first) {
            r.push(paths[i].duplicate());
        }
        i = i + 1;
    }
    r
}

/// The two nodes are the ends of the edge.
pub open spec fn ends_of(edge: PlacedEdge, local: Seq<char>, remote: Seq<char>) -> bool {
    (edge.first@ == local && edge.second@ == remote) || (edge.second@ == local && edge.first@
        == remote)
}

/// Some edge leads from one node to the other.
pub open spec fn edge_between(edges: Seq<PlacedEdge>, local: Seq<char>, remote: Seq<char>) -> bool {
    exists|i: int| 0 <= i < edges.len() && ends_of(#[trigger] edges[i], local, remote)
}

/// The pairs of nodes whose paths are of interest: the two ends of each edge, in both directions.
pub fn observed_path_pairs(edges: &Vec<PlacedEdge>) -> (r: Vec<(NodeId, NodeId)>)
    ensures
        forall|local: Seq<char>, remote: Seq<char>| #[trigger]
            has_pair(r@, local, remote) <==> edge_between(edges@, local, remote),
{
    let mut r: Vec<(NodeId, NodeId)> = Vec::new();
    let mut i: usize = 0;
    while i < edges.len()
        invariant
            i <= edges@.len(),
            r@.len() == 2 * i,
            forall|k: int|
                0 <= k < i ==> r@[2 * k].0@ == (#[trigger] edges@[k]).first@ && r@[2 * k].1@
                    == edges@[k].second@ && r@[2 * k + 1].0@ == edges@[k].second@ && r@[2 * k
                    + 1].1@ == edges@[k].first@,
        decreases edges@.len() - i,
    {
        let edge = &edges[i];
        r.push((edge.first.clone(), edge.second.clone()));
        r.push((edge.second.clone(), edge.first.clone()));
        i = i + 1;
    }
    proof {
        assert forall|local: Seq<char>, remote: Seq<char>| #[trigger]
            has_pair(r@, local, remote) <==> edge_between(edges@, local, remote) by {
            if has_pair(r@, local, remote) {
                let m = choose|m: int|
                    0 <= m < r@.len() && (#[trigger] r@[m]).0@ == local && r@[m].1@ == remote;
                let k = m / 2;
                assert(m == 2 * k || m == 2 * k + 1);
                assert(ends_of(edges@[k], local, remote));
            }
            if edge_between(edges@, local, remote) {
                let k = choose|k: int|
                    0 <= k < edges@.len() && ends_of(#[trigger] edges@[k], local, remote);
                if edges@[k].first@ == local && edges@[k].second@ == remote {
                    assert(r@[2 * k].0@ == local && r@[2 * k].1@ == remote);
                } else {
                    assert(r@[2 * k + 1].0@ == local && r@[2 * k + 1].1@ == remote);
                }
            }
        }
    }
    r
}

/// The last of the first `n` groups that has the identifier.
pub open spec fn group_named(groups: Seq<TopologyGroupView>, id: Seq<char>, n: nat) -> Option<
    TopologyGroupView,
>
    decreases n,
{
    if n == 0 {
        None
    } else if groups[n - 1].group_id == id {
        Some(groups[n - 1])
    } else {
        group_named(groups, id, (n - 1) as nat)
    }
}

/// How far the line of a group can reach up.
pub open spec fn reach(groups: Seq<TopologyGroupView>, id: Seq<char>) -> nat {
    match group_named(groups, id, groups.len()) {
        Some(group) => group.depth as nat + 1,
        None => 0,
    }
}

/// The parent of the group with an identifier, where both are listed, stands higher than the group.
pub open spec fn below_parent(groups: Seq<TopologyGroupView>, id: Seq<char>) -> bool {
    match group_named(groups, id, groups.len()) {
        Some(group) => match group.parent_group_id {
            Some(parent) => reach(groups, parent) <= group.depth,
            None => true,
        },
        None => true,
    }
}

/// The parent of each group, where it is listed, stands higher than the group.
pub open spec fn rooted(groups: Seq<TopologyGroupView>) -> bool {
    forall|id: Seq<char>| #[trigger] below_parent(groups, id)
}

/// The identifiers of the groups from the root down to a group, or that of a group that is absent.
pub open spec fn line_to(groups: Seq<TopologyGroupView>, id: Seq<char>) -> Result<
    Seq<Seq<char>>,
    Seq<char>,
>
    decreases reach(groups, id),
    when rooted(groups)
{
    proof {
        assert(below_parent(groups, id));
    }
    match group_named(groups, id, groups.len()) {
        None => Err(id),
        Some(group) => match group.parent_group_id {
            None => Ok(seq![id]),
            Some(parent) => match line_to(groups, parent) {
                Ok(line) => Ok(line.push(id)),
                Err(absent) => Err(absent),
            },
        },
    }
}

fn find_group(groups: &Vec<TopologyGroup>, id: &str) -> (r: Option<usize>)
    ensures
        match r {
            Some(i) => i < groups@.len() && group_named(views(groups@), id@, groups@.len()) == Some(
                groups@[i as int]@,
            ) && groups@[i as int]@.group_id == id@,
            None => group_named(views(groups@), id@, groups@.len()) is None,
        },
{
    let ghost all = views(groups@);
    let mut n: usize = groups.len();
    while n > 0
        invariant
            n <= groups@.len(),
            all == views(groups@),
            group_named(all, id@, all.len()) == group_named(all, id@, n as nat),
        decreases n,
    {
        assert(all[n - 1] == groups@[n - 1]@);
        if crate::text::text_same(groups[n - 1].group_id.as_str(), id) {
            return Some(n - 1);
        }
        n = n - 1;
    }
    None
}

fn trace_line(groups: &Vec<TopologyGroup>, id: &str) -> (r: Result<Vec<String>, String>)
    requires
        rooted(views(groups@)),
    ensures
        match r {
            Ok(line) => line_to(views(groups@), id@) == Ok::<Seq<Seq<char>>, Seq<char>>(
                views(line@),
            ),
            Err(absent) => line_to(views(groups@), id@) == Err::<Seq<Seq<char>>, Seq<char>>(
                absent@,
            ),
        },
    decreases reach(views(groups@), id@),
{
    broadcast use lemma_views_push;

    assert(below_parent(views(groups@), id@));
    let group = match find_group(groups, id) {
        Some(i) => &groups[i],
        None => return Err(id.to_owned()),
    };
    match &group.parent_group_id {
        None => {
            let mut line: Vec<String> = Vec::new();
            line.push(id.to_owned());
            assert(views(line@) =~= seq![id@]);
            Ok(line)
        },
        Some(parent) => {
            match trace_line(groups, parent.as_str()) {
                Ok(mut line) => {
                    line.push(id.to_owned());
                    Ok(line)
                },
                Err(absent) => Err(absent),
            }
        },
    }
}

/// Whether the parent of each group, where it is listed, stands higher than the group.
pub fn groups_are_rooted(groups: &Vec<TopologyGroup>) -> (r: bool)
    ensures
        r == rooted(views(groups@)),
{
    let ghost all = views(groups@);
    let mut i: usize = 0;
    while i < groups.len()
        invariant
            i <= groups@.len(),
            all == views(groups@),
            forall|k: int| 0 <= k < i ==> below_parent(all, (#[trigger] all[k]).group_id),
        decreases groups@.len() - i,
    {
        assert(all[i as int] == groups@[i as int]@);
        if let Some(at) = find_group(groups, groups[i].group_id.as_str()) {
            let group = &groups[at];
            if let Some(parent) = &group.parent_group_id {
                if let Some(above) = find_group(groups, parent.as_str()) {
                    if groups[above].depth >= group.depth {
                        assert(!below_parent(all, all[i as int].group_id));
                        return false;
                    }
                }
            }
        }
        i = i + 1;
    }
    proof {
        assert forall|id: Seq<char>| #[trigger] below_parent(all, id) by {
            lemma_group_named(all, id, all.len());
            if group_named(all, id, all.len()) is Some {
                let group = group_named(all, id, all.len())->0;
                let k = choose|k: int| 0 <= k < all.len() && all[k] == group;
                assert(all[k].group_id == id);
            }
        }
    }
    true
}

proof fn lemma_group_named(groups: Seq<TopologyGroupView>, id: Seq<char>, n: nat)
    requires
        n <= groups.len(),
    ensures
        group_named(groups, id, n) matches Some(group) ==> group.group_id == id && groups.contains(
            group,
        ),
    decreases n,
{
    if n > 0 && groups[n - 1].group_id != id {
        lemma_group_named(groups, id, (n - 1) as nat);
    }
}

/// The planes of the representatives fit into a byte.
pub open spec fn group_planes_fit(group: TopologyGroupView) -> bool {
    forall|i: int|
        0 <= i < group.representatives.len() ==> (#[trigger] group.representatives[i]).plane <= 255
}

/// The planes of the representatives of all groups fit into a byte.
pub open spec fn planes_fit(groups: Seq<TopologyGroupView>) -> bool {
    forall|i: int| 0 <= i < groups.len() ==> group_planes_fit(#[trigger] groups[i])
}

/// The planes of the placements fit into a byte.
pub open spec fn edge_planes_fit(edge: PlacedEdgeView) -> bool {
    forall|i: int| 0 <= i < edge.placements.len() ==> (#[trigger] edge.placements[i]).plane <= 255
}

/// The planes of the placements of all edges fit into a byte.
pub open spec fn all_edge_planes_fit(edges: Seq<PlacedEdgeView>) -> bool {
    forall|i: int| 0 <= i < edges.len() ==> edge_planes_fit(#[trigger] edges[i])
}

fn check_group_planes(group: &TopologyGroup) -> (r: bool)
    ensures
        r == group_planes_fit(group@),
{
    let ghost all = views(group.representatives@);
    let mut i: usize = 0;
    while i < group.representatives.len()
        invariant
            i <= group.representatives@.len(),
            all == views(group.representatives@),
            forall|k: int| 0 <= k < i ==> (#[trigger] all[k]).plane <= 255,
        decreases group.representatives@.len() - i,
    {
        assert(all[i as int] == group.representatives@[i as int]@);
        if group.representatives[i].plane > 255 {
            assert(group@.representatives[i as int].plane > 255);
            return false;
        }
        i = i + 1;
    }
    true
}

fn check_planes(groups: &Vec<TopologyGroup>) -> (r: bool)
    ensures
        r == planes_fit(views(groups@)),
{
    let ghost all = views(groups@);
    let mut i: usize = 0;
    while i < groups.len()
        invariant
            i <= groups@.len(),
            all == views(groups@),
            forall|k: int| 0 <= k < i ==> group_planes_fit(#[trigger] all[k]),
        decreases groups@.len() - i,
    {
        assert(all[i as int] == groups@[i as int]@);
        if !check_group_planes(&groups[i]) {
            return false;
        }
        i = i + 1;
    }
    true
}

fn check_edge_planes(edge: &PlacedEdge) -> (r: bool)
    ensures
        r == edge_planes_fit(edge@),
{
    let ghost all = views(edge.placements@);
    let mut i: usize = 0;
    while i < edge.placements.len()
        invariant
            i <= edge.placements@.len(),
            all == views(edge.placements@),
            forall|k: int| 0 <= k < i ==> (#[trigger] all[k]).plane <= 255,
        decreases edge.placements@.len() - i,
    {
        assert(all[i as int] == edge.placements@[i as int]@);
        if edge.placements[i].plane > 255 {
            assert(edge@.placements[i as int].plane > 255);
            return false;
        }
        i = i + 1;
    }
    true
}

fn check_all_edge_planes(edges: &Vec<PlacedEdge>) -> (r: bool)
    ensures
        r == all_edge_planes_fit(views(edges@)),
{
    let ghost all = views(edges@);
    let mut i: usize = 0;
    while i < edges.len()
        invariant
            i <= edges@.len(),
            all == views(edges@),
            forall|k: int| 0 <= k < i ==> edge_planes_fit(#[trigger] all[k]),
        decreases edges@.len() - i,
    {
        assert(all[i as int] == edges@[i as int]@);
        if !check_edge_planes(&edges[i]) {
            return false;
        }
        i = i + 1;
    }
    true
}

/// A representative, as it is shown: the one of the first plane is the primary one.
pub open spec fn shown_representative(
    representative: GroupRepresentativeView,
) -> ControlPlaneTopologyRepresentativeView {
    ControlPlaneTopologyRepresentativeView {
        node_id: representative.node_id,
        plane: representative.plane as u8,
        role: if representative.plane == 0 {
            "primary"@
        } else {
            "secondary"@
        },
    }
}

/// A group, as it is shown.
pub open spec fn shown_group(group: TopologyGroupView) -> ControlPlaneTopologyGroupView {
    ControlPlaneTopologyGroupView {
        group_id: group.group_id,
        depth: group.depth,
        parent_group_id: group.parent_group_id,
        child_group_ids: group.child_group_ids,
        node_ids: group.node_ids,
        leaf: group.leaf,
        representatives: Seq::new(
            group.representatives.len(),
            |i: int| shown_representative(group.representatives[i]),
        ),
    }
}

fn show_group(group: &TopologyGroup) -> (r: ControlPlaneTopologyGroup)
    requires
        group_planes_fit(group@),
    ensures
        r@ == shown_group(group@),
{
    let ghost all = group@.representatives;
    let mut representatives: Vec<ControlPlaneTopologyRepresentative> = Vec::new();
    let mut i: usize = 0;
    while i < group.representatives.len()
        invariant
            i <= group.representatives@.len(),
            all == views(group.representatives@),
            all == group@.representatives,
            group_planes_fit(group@),
            representatives@.len() == i,
            forall|k: int|
                0 <= k < i ==> (#[trigger] representatives@[k])@ == shown_representative(all[k]),
        decreases group.representatives@.len() - i,
    {
        let representative = &group.representatives[i];
        assert(all[i as int] == representative@);
        assert(group@.representatives[i as int].plane <= 255);
        let role = if representative.plane == 0 {
            "primary".to_owned()
        } else {
            "secondary".to_owned()
        };
        representatives.push(
            ControlPlaneTopologyRepresentative {
                node_id: representative.node_id.clone(),
                plane: representative.plane as u8,
                role,
            },
        );
        i = i + 1;
    }
    let r = ControlPlaneTopologyGroup {
        group_id: group.group_id.clone(),
        depth: group.depth,
        parent_group_id: duplicate_option(&group.parent_group_id),
        child_group_ids: duplicate_all(&group.child_group_ids),
        node_ids: duplicate_all(&group.node_ids),
        leaf: group.leaf,
        representatives,
    };
    assert(r@.representatives =~= shown_group(group@).representatives);
    r
}

/// A placement, as it is shown.
pub open spec fn shown_placement(
    placement: EdgePlacementView,
) -> ControlPlaneTopologyEdgePlacementView {
    ControlPlaneTopologyEdgePlacementView {
        group_id: placement.group_id,
        depth: placement.level,
        plane: placement.plane as u8,
        kind: match placement.kind {
            TopologyEdgeKind::LeafCycle => ControlPlaneTopologyEdgeKind::LeafCycle,
            TopologyEdgeKind::HierarchyLink => ControlPlaneTopologyEdgeKind::SiblingCycle,
        },
    }
}

/// An edge, as it is shown.
pub open spec fn shown_edge(
    edge: PlacedEdgeView,
    paths: Seq<PathRecordView>,
    now: Timestamp,
    ttl_seconds: u64,
) -> ControlPlaneTopologyEdgeView {
    let along = paths_along(paths, edge.first, edge.second);
    ControlPlaneTopologyEdgeView {
        source: edge.first,
        target: edge.second,
        placements: Seq::new(
            edge.placements.len(),
            |i: int| shown_placement(edge.placements[i]),
        ),
        observed_status: edge_status(along, now, ttl_seconds),
        path_states: states_seen(along),
        last_observed_at: last_report(along, along.len()),
    }
}

fn show_edge(edge: &PlacedEdge, paths: &Vec<PathRecord>, now: Timestamp, ttl_seconds: u64) -> (r:
    ControlPlaneTopologyEdge)
    requires
        edge_planes_fit(edge@),
    ensures
        r@ == shown_edge(edge@, views(paths@), now, ttl_seconds),
{
    let along = list_paths_along(paths, &edge.first, &edge.second);
    let (observed_status, path_states, last_observed_at) = topology_edge_observation(
        &along,
        now,
        ttl_seconds,
    );
    let ghost all = edge@.placements;
    let mut placements: Vec<ControlPlaneTopologyEdgePlacement> = Vec::new();
    let mut i: usize = 0;
    while i < edge.placements.len()
        invariant
            i <= edge.placements@.len(),
            all == views(edge.placements@),
            all == edge@.placements,
            edge_planes_fit(edge@),
            placements@.len() == i,
            forall|k: int| 0 <= k < i ==> (#[trigger] placements@[k])@ == shown_placement(all[k]),
        decreases edge.placements@.len() - i,
    {
        let placement = &edge.placements[i];
        assert(all[i as int] == placement@);
        assert(edge@.placements[i as int].plane <= 255);
        let kind = match placement.kind {
            TopologyEdgeKind::LeafCycle => ControlPlaneTopologyEdgeKind::LeafCycle,
            TopologyEdgeKind::HierarchyLink => ControlPlaneTopologyEdgeKind::SiblingCycle,
        };
        placements.push(
            ControlPlaneTopologyEdgePlacement {
                group_id: placement.group_id.clone(),
                depth: placement.level,
                plane: placement.plane as u8,
                kind,
            },
        );
        i = i + 1;
    }
    let r = ControlPlaneTopologyEdge {
        source: edge.first.clone(),
        target: edge.second.clone(),
        placements,
        observed_status,
        path_states,
        last_observed_at,
    };
    assert(r@.placements =~= shown_edge(edge@, views(paths@), now, ttl_seconds).placements);
    r
}

/// The leaf group that a node is in. Where several list it, the last of them.
pub open spec fn leaf_of(groups: Seq<TopologyGroupView>, node_id: Seq<char>, n: nat) -> Option<
    Seq<char>,
>
    decreases n,
{
    if n == 0 {
        None
    } else if groups[n - 1].leaf && groups[n - 1].node_ids.contains(node_id) {
        Some(groups[n - 1].group_id)
    } else {
        leaf_of(groups, node_id, (n - 1) as nat)
    }
}

fn lists_node(group: &TopologyGroup, node_id: &NodeId) -> (r: bool)
    ensures
        r == group@.node_ids.contains(node_id@),
{
    let ghost all = group@.node_ids;
    let mut i: usize = 0;
    while i < group.node_ids.len()
        invariant
            i <= group.node_ids@.len(),
            all == views(group.node_ids@),
            forall|k: int| 0 <= k < i ==> #[trigger] all[k] != node_id@,
        decreases group.node_ids@.len() - i,
    {
        assert(all[i as int] == group.node_ids@[i as int]@);
        if group.node_ids[i] == *node_id {
            return true;
        }
        i = i + 1;
    }
    false
}

fn find_leaf<'a>(groups: &'a Vec<TopologyGroup>, node_id: &NodeId) -> (r: Option<&'a String>)
    ensures
        match r {
            Some(id) => leaf_of(views(groups@), node_id@, groups@.len()) == Some(id@),
            None => leaf_of(views(groups@), node_id@, groups@.len()) is None,
        },
{
    let ghost all = views(groups@);
    let mut n: usize = groups.len();
    while n > 0
        invariant
            n <= groups@.len(),
            all == views(groups@),
            leaf_of(all, node_id@, all.len()) == leaf_of(all, node_id@, n as nat),
        decreases n,
    {
        assert(all[n - 1] == groups@[n - 1]@);
        if groups[n - 1].leaf && lists_node(&groups[n - 1], node_id) {
            return Some(&groups[n - 1].group_id);
        }
        n = n - 1;
    }
    None
}

/// What a representative of a group stands for.
pub open spec fn duty_of(
    group: TopologyGroupView,
    representative: GroupRepresentativeView,
) -> ControlPlaneTopologyRepresentativeAssignmentView {
    ControlPlaneTopologyRepresentativeAssignmentView {
        group_id: group.group_id,
        depth: group.depth,
        plane: representative.plane as u8,
    }
}

/// The duties of a node among the first `m` representatives of a group.
pub open spec fn group_duties(group: TopologyGroupView, node_id: Seq<char>, m: nat) -> Seq<
    ControlPlaneTopologyRepresentativeAssignmentView,
>
    decreases m,
{
    if m == 0 {
        Seq::empty()
    } else {
        let before = group_duties(group, node_id, (m - 1) as nat);
        if group.representatives[m - 1].node_id == node_id {
            before.push(duty_of(group, group.representatives[m - 1]))
        } else {
            before
        }
    }
}

/// The duties of a node in the first `n` groups.
pub open spec fn all_duties(groups: Seq<TopologyGroupView>, node_id: Seq<char>, n: nat) -> Seq<
    ControlPlaneTopologyRepresentativeAssignmentView,
>
    decreases n,
{
    if n == 0 {
        Seq::empty()
    } else {
        all_duties(groups, node_id, (n - 1) as nat) + group_duties(
            groups[n - 1],
            node_id,
            groups[n - 1].representatives.len(),
        )
    }
}

/// The key by which duties are listed: depth, group and plane.
pub open spec fn duty_key(duty: ControlPlaneTopologyRepresentativeAssignmentView) -> KeyView {
    seq![
        KeyPartView::Number(duty.depth as int),
        KeyPartView::Bytes(encode_utf8(duty.group_id)),
        KeyPartView::Number(duty.plane as int),
    ]
}

/// The duties of a node in the order of depth, group and plane.
pub open spec fn duties_of(groups: Seq<TopologyGroupView>, node_id: Seq<char>) -> Seq<
    ControlPlaneTopologyRepresentativeAssignmentView,
> {
    sorted_by(
        all_duties(groups, node_id, groups.len()),
        |duty: ControlPlaneTopologyRepresentativeAssignmentView| duty_key(duty),
    )
}

fn push_group_duties(
    duties: &mut Vec<ControlPlaneTopologyRepresentativeAssignment>,
    group: &TopologyGroup,
    node_id: &NodeId,
)
    requires
        group_planes_fit(group@),
    ensures
        views(final(duties)@) == views(old(duties)@) + group_duties(
            group@,
            node_id@,
            group@.representatives.len(),
        ),
{
    let ghost before = views(duties@);
    let ghost all = group@.representatives;
    let mut i: usize = 0;
    assert(before =~= before + group_duties(group@, node_id@, 0));
    while i < group.representatives.len()
        invariant
            i <= group.representatives@.len(),
            all == views(group.representatives@),
            all == group@.representatives,
            group_planes_fit(group@),
            views(duties@) == before + group_duties(group@, node_id@, i as nat),
        decreases group.representatives@.len() - i,
    {
        broadcast use lemma_views_push;

        let ghost so_far = views(duties@);
        let representative = &group.representatives[i];
        assert(all[i as int] == representative@);
        assert(group@.representatives[i as int].plane <= 255);
        if representative.node_id == *node_id {
            let duty = ControlPlaneTopologyRepresentativeAssignment {
                group_id: group.group_id.clone(),
                depth: group.depth,
                plane: representative.plane as u8,
            };
            assert(duty@ == duty_of(group@, all[i as int]));
            duties.push(duty);
            assert(views(duties@) == so_far.push(duty@));
        }
        i = i + 1;
        assert(views(duties@) =~= before + group_duties(group@, node_id@, i as nat));
    }
}

fn duty_sort_key(duty: &ControlPlaneTopologyRepresentativeAssignment) -> (r: Vec<KeyPart>)
    ensures
        key_view(r@) == duty_key(duty@),
{
    let mut id: Vec<u8> = Vec::new();
    crate::digest::push_bytes(&mut id, duty.group_id.as_str().as_bytes());
    assert(id@ =~= encode_utf8(duty@.group_id));
    let mut r: Vec<KeyPart> = Vec::new();
    r.push(KeyPart::Number(duty.depth as i128));
    r.push(KeyPart::Bytes(id));
    r.push(KeyPart::Number(duty.plane as i128));
    assert(key_view(r@) =~= duty_key(duty@));
    r
}

fn list_duties(groups: &Vec<TopologyGroup>, node_id: &NodeId) -> (r: Vec<
    ControlPlaneTopologyRepresentativeAssignment,
>)
    requires
        planes_fit(views(groups@)),
    ensures
        views(r@) == duties_of(views(groups@), node_id@),
{
    let ghost all = views(groups@);
    let mut duties: Vec<ControlPlaneTopologyRepresentativeAssignment> = Vec::new();
    let mut i: usize = 0;
    assert(views(duties@) =~= Seq::empty());
    while i < groups.len()
        invariant
            i <= groups@.len(),
            all == views(groups@),
            planes_fit(all),
            views(duties@) == all_duties(all, node_id@, i as nat),
        decreases groups@.len() - i,
    {
        assert(all[i as int] == groups@[i as int]@);
        assert(group_planes_fit(all[i as int]));
        push_group_duties(&mut duties, &groups[i], node_id);
        i = i + 1;
    }
    let ghost found = views(duties@);
    let mut keys: Vec<Vec<KeyPart>> = Vec::new();
    let mut k: usize = 0;
    while k < duties.len()
        invariant
            k <= duties@.len(),
            keys@.len() == k,
            forall|m: int|
                0 <= m < k ==> key_view((#[trigger] keys@[m])@) == duty_key(duties@[m]@),
        decreases duties@.len() - k,
    {
        keys.push(duty_sort_key(&duties[k]));
        k = k + 1;
    }
    assert(keys_view(keys@) =~= keys_of(
        found,
        |duty: ControlPlaneTopologyRepresentativeAssignmentView| duty_key(duty),
    ));
    sort_records(&duties, &keys)
}

/// Why a node cannot be shown in the topology.
pub open spec fn node_fault(groups: Seq<TopologyGroupView>, node_id: Seq<char>) -> Option<Seq<char>> {
    match leaf_of(groups, node_id, groups.len()) {
        None => Some("node "@ + node_id + " has no topology leaf group"@),
        Some(leaf) => match line_to(groups, leaf) {
            Err(absent) => Some("topology group "@ + absent + " is absent"@),
            Ok(_) => None,
        },
    }
}

/// How many neighbors a node has.
pub open spec fn degree_of(degrees: Map<Seq<Seq<char>>, usize>, node_id: Seq<char>) -> usize {
    if degrees.dom().contains(seq![node_id]) {
        degrees[seq![node_id]]
    } else {
        0
    }
}

/// A node, as it is shown. A node that is not part of the overlay is shown as unhealthy. Where a
/// node is listed twice, only the first of the two is shown with its duties.
pub open spec fn shown_node(
    nodes: Seq<NodeRecordView>,
    i: int,
    groups: Seq<TopologyGroupView>,
    degrees: Map<Seq<Seq<char>>, usize>,
    health: Map<Seq<Seq<char>>, NodeHealthView>,
    policy: ClusterPolicyView,
    now: Timestamp,
) -> ControlPlaneTopologyNodeView {
    let node = nodes[i];
    let known = entry_of(health, node.node_id);
    let leaf = leaf_of(groups, node.node_id, groups.len())->0;
    ControlPlaneTopologyNodeView {
        node_id: node.node_id,
        hostname: node.hostname,
        vpn_ip: node.vpn_ip,
        role: node.role,
        tags: node.tags,
        leaf_group_id: leaf,
        ancestry: line_to(groups, leaf)->Ok_0,
        degree: degree_of(degrees, node.node_id),
        health_state: if part_of_overlay(node, known, now, policy.relay_health_ttl_seconds) {
            match known {
                Some(known) => Some(known.state),
                None => None,
            }
        } else {
            Some(HealthState::Unhealthy)
        },
        last_seen_at: match known {
            Some(known) => Some(known.last_seen_at),
            None => None,
        },
        representative_for: if i > 0 && nodes[i - 1].node_id == node.node_id {
            Seq::empty()
        } else {
            duties_of(groups, node.node_id)
        },
    }
}

fn show_node(
    nodes: &Vec<NodeRecord>,
    i: usize,
    topology: &Topology,
    health: &OrderedMap<NodeId, NodeHealth>,
    policy: &ClusterPolicy,
    now: Timestamp,
) -> (r: Result<ControlPlaneTopologyNode, String>)
    requires
        i < nodes@.len(),
        rooted(views(topology.groups@)),
        planes_fit(views(topology.groups@)),
        topology.degrees.wf(),
        health.wf(),
    ensures
        match r {
            Ok(node) => node_fault(views(topology.groups@), nodes@[i as int]@.node_id) is None
                && node@ == shown_node(
                views(nodes@),
                i as int,
                views(topology.groups@),
                topology.degrees@,
                held(health@),
                policy@,
                now,
            ),
            Err(reason) => node_fault(views(topology.groups@), nodes@[i as int]@.node_id) == Some(
                reason@,
            ),
        },
{
    let node = &nodes[i];
    let leaf = match find_leaf(&topology.groups, &node.node_id) {
        Some(leaf) => leaf,
        None => {
            return Err(
                "node ".to_owned().concat(node.node_id.as_str()).concat(
                    " has no topology leaf group",
                ),
            );
        },
    };
    let ancestry = match trace_line(&topology.groups, leaf.as_str()) {
        Ok(line) => line,
        Err(absent) => {
            return Err(
                "topology group ".to_owned().concat(absent.as_str()).concat(" is absent"),
            );
        },
    };
    assert(node.node_id.parts() =~= seq![node@.node_id]);
    let degree: usize = match topology.degrees.get(&node.node_id) {
        Some(degree) => *degree,
        None => 0,
    };
    let known = find_entry(health, &node.node_id);
    let health_state = if overlay_node_health_allows(
        node,
        known,
        now,
        policy.relay_health_ttl_seconds,
    ) {
        match known {
            Some(known) => Some(known.state),
            None => None,
        }
    } else {
        Some(HealthState::Unhealthy)
    };
    let last_seen_at = match known {
        Some(known) => Some(known.last_seen_at),
        None => None,
    };
    let repeated = i > 0 && nodes[i - 1].node_id == node.node_id;
    let representative_for = if repeated {
        let none: Vec<ControlPlaneTopologyRepresentativeAssignment> = Vec::new();
        assert(views(none@) =~= Seq::empty());
        none
    } else {
        list_duties(&topology.groups, &node.node_id)
    };
    Ok(
        ControlPlaneTopologyNode {
            node_id: node.node_id.clone(),
            hostname: duplicate_option(&node.hostname),
            vpn_ip: node.vpn_ip,
            role: node.role.clone(),
            tags: node.tags.clone(),
            leaf_group_id: leaf.clone(),
            ancestry,
            degree,
            health_state,
            last_seen_at,
            representative_for,
        },
    )
}

/// The first group that stands under no other.
pub open spec fn root_of(groups: Seq<TopologyGroupView>, n: nat) -> Option<Seq<char>> {
    first_in(
        n,
        |i: int|
            if groups[i].parent_group_id is None {
                Some(groups[i].group_id)
            } else {
                None
            },
    )
}

fn find_root(groups: &Vec<TopologyGroup>) -> (r: Option<String>)
    ensures
        opt_view(r) == root_of(views(groups@), groups@.len()),
{
    let ghost all = views(groups@);
    let ghost f = |i: int|
        if all[i].parent_group_id is None {
            Some(all[i].group_id)
        } else {
            None
        };
    let mut i: usize = 0;
    while i < groups.len()
        invariant
            i <= groups@.len(),
            all == views(groups@),
            f == (|i: int|
                if all[i].parent_group_id is None {
                    Some(all[i].group_id)
                } else {
                    None
                }),
            first_in(i as nat, f) is None,
        decreases groups@.len() - i,
    {
        assert(all[i as int] == groups@[i as int]@);
        if groups[i].parent_group_id.is_none() {
            proof {
                lemma_first_in_extends((i + 1) as nat, all.len(), f);
            }
            return Some(groups[i].group_id.clone());
        }
        i = i + 1;
    }
    None
}

/// How many levels the first `n` groups make up.
pub open spec fn levels(groups: Seq<TopologyGroupView>, n: nat) -> nat
    decreases n,
{
    if n == 0 {
        0
    } else {
        let before = levels(groups, (n - 1) as nat);
        if groups[n - 1].depth + 1 > before {
            groups[n - 1].depth as nat + 1
        } else {
            before
        }
    }
}

fn count_levels(groups: &Vec<TopologyGroup>) -> (r: usize)
    requires
        forall|i: int| 0 <= i < groups@.len() ==> (#[trigger] groups@[i]).depth < usize::MAX,
    ensures
        r == levels(views(groups@), groups@.len()),
{
    let ghost all = views(groups@);
    let mut count: usize = 0;
    let mut i: usize = 0;
    while i < groups.len()
        invariant
            i <= groups@.len(),
            all == views(groups@),
            forall|i: int| 0 <= i < groups@.len() ==> (#[trigger] groups@[i]).depth < usize::MAX,
            count == levels(all, i as nat),
        decreases groups@.len() - i,
    {
        assert(all[i as int] == groups@[i as int]@);
        if groups[i].depth + 1 > count {
            count = groups[i].depth + 1;
        }
        i = i + 1;
    }
    count
}

/// The nodes in the order of their identifiers.
pub open spec fn nodes_by_id(nodes: Seq<NodeRecordView>) -> Seq<NodeRecordView> {
    sorted_by(nodes, |node: NodeRecordView| text_key(node.node_id))
}

/// Why a topology cannot be shown: a plane does not fit, or a node has no place in it.
pub open spec fn topology_refusal(
    groups: Seq<TopologyGroupView>,
    edges: Seq<PlacedEdgeView>,
    nodes: Seq<NodeRecordView>,
) -> Option<ControlPlaneErrorView> {
    let ordered = nodes_by_id(nodes);
    let fault = first_in(ordered.len(), |i: int| node_fault(groups, ordered[i].node_id));
    if !planes_fit(groups) {
        topology_failure("representative plane exceeds u8"@)
    } else if !all_edge_planes_fit(edges) {
        topology_failure("edge plane exceeds u8"@)
    } else if fault is Some {
        topology_failure(fault->0)
    } else {
        None
    }
}

fn show_nodes(
    nodes: &Vec<NodeRecord>,
    topology: &Topology,
    health: &OrderedMap<NodeId, NodeHealth>,
    policy: &ClusterPolicy,
    now: Timestamp,
) -> (r: Result<Vec<ControlPlaneTopologyNode>, String>)
    requires
        rooted(views(topology.groups@)),
        planes_fit(views(topology.groups@)),
        topology.degrees.wf(),
        health.wf(),
    ensures
        ({
            let all = views(nodes@);
            let groups = views(topology.groups@);
            let fault = first_in(all.len(), |i: int| node_fault(groups, all[i].node_id));
            match r {
                Ok(shown) => fault is None && views(shown@) == Seq::new(
                    all.len(),
                    |i: int|
                        shown_node(all, i, groups, topology.degrees@, held(health@), policy@, now),
                ),
                Err(reason) => fault == Some(reason@),
            }
        }),
{
    let ghost all = views(nodes@);
    let ghost groups = views(topology.groups@);
    let ghost f = |i: int| node_fault(groups, all[i].node_id);
    let mut shown: Vec<ControlPlaneTopologyNode> = Vec::new();
    let mut i: usize = 0;
    while i < nodes.len()
        invariant
            i <= nodes@.len(),
            all == views(nodes@),
            groups == views(topology.groups@),
            f == (|i: int| node_fault(groups, all[i].node_id)),
            rooted(groups),
            planes_fit(groups),
            topology.degrees.wf(),
            health.wf(),
            first_in(i as nat, f) is None,
            shown@.len() == i,
            forall|k: int|
                0 <= k < i ==> (#[trigger] shown@[k])@ == shown_node(
                    all,
                    k,
                    groups,
                    topology.degrees@,
                    held(health@),
                    policy@,
                    now,
                ),
        decreases nodes@.len() - i,
    {
        assert(all[i as int] == nodes@[i as int]@);
        match show_node(nodes, i, topology, health, policy, now) {
            Ok(node) => {
                shown.push(node);
            },
            Err(reason) => {
                proof {
                    lemma_first_in_extends((i + 1) as nat, all.len(), f);
                }
                return Err(reason);
            },
        }
        i = i + 1;
    }
    assert(views(shown@) =~= Seq::new(
        all.len(),
        |i: int| shown_node(all, i, groups, topology.degrees@, held(health@), policy@, now),
    ));
    Ok(shown)
}

/// What the overlay is shown as.
pub open spec fn topology_says(
    shown: ControlPlaneTopologyResponse,
    cluster_id: Seq<char>,
    topology: Topology,
    nodes: Seq<NodeRecordView>,
    health: Map<Seq<Seq<char>>, NodeHealthView>,
    observed_paths: Seq<PathRecordView>,
    policy: ClusterPolicyView,
    generated_at: Timestamp,
) -> bool {
    let groups = views(topology.groups@);
    let edges = views(topology.edges@);
    let ordered = nodes_by_id(nodes);
    &&& shown.cluster_id@ == cluster_id
    &&& shown.topology_epoch@ == crate::text::decimal(topology.topology_epoch as nat)
    &&& shown.algorithm@ == topology.algorithm@
    &&& opt_view(shown.root_group_id) == root_of(groups, groups.len())
    &&& shown.fanout == policy.overlay_block_size
    &&& shown.max_degree == policy.overlay_max_degree
    &&& shown.direct_shortcut_limit == 0
    &&& shown.on_demand_peer_limit == policy.overlay_on_demand_peer_limit
    &&& shown.node_count == topology.node_count
    &&& shown.group_count == groups.len()
    &&& shown.level_count == levels(groups, groups.len())
    &&& shown.edge_count == topology.edge_count
    &&& shown.max_observed_degree == topology.max_observed_degree
    &&& shown.diameter_lower_bound == topology.diameter_lower_bound
    &&& views(shown.groups@) == Seq::new(groups.len(), |i: int| shown_group(groups[i]))
    &&& views(shown.nodes@) == Seq::new(
        ordered.len(),
        |i: int|
            shown_node(
                ordered,
                i,
                groups,
                topology.degrees@,
                health,
                policy,
                generated_at,
            ),
    )
    &&& views(shown.edges@) == Seq::new(
        edges.len(),
        |i: int|
            shown_edge(
                edges[i],
                observed_paths,
                generated_at,
                policy.path_state_ttl_seconds,
            ),
    )
    &&& shown.generated_at == generated_at
}

/// The topology of the overlay as it is shown: its groups, its nodes with their place in it, and
/// its edges with what their ends report.
pub fn overlay_topology_snapshot(
    cluster_id: &ClusterId,
    topology: &Topology,
    nodes: &Vec<NodeRecord>,
    health: &OrderedMap<NodeId, NodeHealth>,
    observed_paths: &Vec<PathRecord>,
    policy: &ClusterPolicy,
    generated_at: Timestamp,
) -> (r: Result<ControlPlaneTopologyResponse, ControlPlaneError>)
    requires
        rooted(views(topology.groups@)),
        forall|i: int|
            0 <= i < topology.groups@.len() ==> (#[trigger] topology.groups@[i]).depth
                < usize::MAX,
        topology.degrees.wf(),
        health.wf(),
    ensures
        refusal(r) == topology_refusal(
            views(topology.groups@),
            views(topology.edges@),
            views(nodes@),
        ),
        r matches Ok(shown) ==> topology_says(
            shown,
            cluster_id@,
            *topology,
            views(nodes@),
            held(health@),
            views(observed_paths@),
            policy@,
            generated_at,
        ),
{
    let ghost group_views = views(topology.groups@);
    let ghost edge_views = views(topology.edges@);
    if !check_planes(&topology.groups) {
        return Err(
            ControlPlaneError::BoundedTopology {
                reason: "representative plane exceeds u8".to_owned(),
            },
        );
    }
    if !check_all_edge_planes(&topology.edges) {
        return Err(
            ControlPlaneError::BoundedTopology { reason: "edge plane exceeds u8".to_owned() },
        );
    }
    let ordered = crate::client_routes::sort_nodes(nodes);
    let shown_nodes = match show_nodes(&ordered, topology, health, policy, generated_at) {
        Ok(shown) => shown,
        Err(reason) => {
            return Err(ControlPlaneError::BoundedTopology { reason });
        },
    };
    let mut edges: Vec<ControlPlaneTopologyEdge> = Vec::new();
    let mut i: usize = 0;
    while i < topology.edges.len()
        invariant
            i <= topology.edges@.len(),
            edge_views == views(topology.edges@),
            all_edge_planes_fit(edge_views),
            edges@.len() == i,
            forall|k: int|
                0 <= k < i ==> (#[trigger] edges@[k])@ == shown_edge(
                    edge_views[k],
                    views(observed_paths@),
                    generated_at,
                    policy.path_state_ttl_seconds,
                ),
        decreases topology.edges@.len() - i,
    {
        assert(edge_views[i as int] == topology.edges@[i as int]@);
        assert(edge_planes_fit(edge_views[i as int]));
        edges.push(
            show_edge(
                &topology.edges[i],
                observed_paths,
                generated_at,
                policy.path_state_ttl_seconds,
            ),
        );
        i = i + 1;
    }
    let mut groups: Vec<ControlPlaneTopologyGroup> = Vec::new();
    let mut k: usize = 0;
    while k < topology.groups.len()
        invariant
            k <= topology.groups@.len(),
            group_views == views(topology.groups@),
            planes_fit(group_views),
            groups@.len() == k,
            forall|m: int|
                0 <= m < k ==> (#[trigger] groups@[m])@ == shown_group(group_views[m]),
        decreases topology.groups@.len() - k,
    {
        assert(group_views[k as int] == topology.groups@[k as int]@);
        assert(group_planes_fit(group_views[k as int]));
        groups.push(show_group(&topology.groups[k]));
        k = k + 1;
    }
    assert(views(groups@) =~= Seq::new(
        group_views.len(),
        |i: int| shown_group(group_views[i]),
    ));
    assert(views(edges@) =~= Seq::new(
        edge_views.len(),
        |i: int|
            shown_edge(
                edge_views[i],
                views(observed_paths@),
                generated_at,
                policy.path_state_ttl_seconds,
            ),
    ));
    Ok(
        ControlPlaneTopologyResponse {
            cluster_id: cluster_id.clone(),
            topology_epoch: crate::text::decimal_text(topology.topology_epoch),
            algorithm: topology.algorithm.clone(),
            root_group_id: find_root(&topology.groups),
            fanout: policy.overlay_block_size,
            max_degree: policy.overlay_max_degree,
            direct_shortcut_limit: 0,
            on_demand_peer_limit: policy.overlay_on_demand_peer_limit,
            node_count: topology.node_count,
            group_count: groups.len(),
            level_count: count_levels(&topology.groups),
            edge_count: topology.edge_count,
            max_observed_degree: topology.max_observed_degree,
            diameter_lower_bound: topology.diameter_lower_bound,
            groups,
            nodes: shown_nodes,
            edges,
            generated_at,
        },
    )
}

proof fn lemma_line_ends(groups: Seq<TopologyGroupView>, id: Seq<char>)
    requires
        rooted(groups),
    ensures
        line_to(groups, id) matches Ok(line) ==> line.len() > 0 && line.last() == id
            && (group_named(groups, line[0], groups.len()) matches Some(root)
            && root.parent_group_id is None),
    decreases reach(groups, id),
{
    assert(below_parent(groups, id));
    match group_named(groups, id, groups.len()) {
        Some(group) => match group.parent_group_id {
            Some(parent) => {
                lemma_line_ends(groups, parent);
            },
            None => {},
        },
        None => {},
    }
}

/// The line of a group begins with a group that stands under no other, ends with the group itself,
/// and has no more groups than the group has levels above it and its own.
pub proof fn law_line_leads_from_the_root(groups: Seq<TopologyGroupView>, id: Seq<char>)
    requires
        rooted(groups),
        line_to(groups, id) is Ok,
    ensures
        line_to(groups, id)->Ok_0.last() == id,
        group_named(groups, line_to(groups, id)->Ok_0[0], groups.len()) matches Some(root)
            && root.parent_group_id is None,
        0 < line_to(groups, id)->Ok_0.len() <= reach(groups, id),
    decreases reach(groups, id),
{
    lemma_line_ends(groups, id);
    assert(below_parent(groups, id));
    match group_named(groups, id, groups.len()) {
        Some(group) => match group.parent_group_id {
            Some(parent) => {
                law_line_leads_from_the_root(groups, parent);
            },
            None => {},
        },
        None => {},
    }
}

/// An edge is shown as connected only if two different nodes report recently that they reach the
/// other end, and as stale only if nothing recent was reported.
pub proof fn law_connected_edges_are_reported_from_both_ends(
    paths: Seq<PathRecordView>,
    first: Seq<char>,
    second: Seq<char>,
    now: Timestamp,
    ttl_seconds: u64,
)
    requires
        first != second,
        edge_status(paths_along(paths, first, second), now, ttl_seconds)
            == ControlPlaneTopologyEdgeStatus::Connected,
    ensures
        exists|i: int|
            0 <= i < paths.len() && (#[trigger] paths[i]).key.local == first && paths[i].key.remote
                == second && reaches(paths[i], now, ttl_seconds),
        exists|i: int|
            0 <= i < paths.len() && (#[trigger] paths[i]).key.local == second && paths[i].key.remote
                == first && reaches(paths[i], now, ttl_seconds),
{
    let along = paths_along(paths, first, second);
    let keep = |path: PathRecordView| joins(path, first, second);
    crate::lists::lemma_kept(paths, keep, paths.len());
    let (i, j) = choose|i: int, j: int|
        0 <= i < along.len() && 0 <= j < along.len() && reaches(#[trigger] along[i], now, ttl_seconds)
            && reaches(#[trigger] along[j], now, ttl_seconds) && along[i].key.local
            != along[j].key.local;
    assert(keep(along[i]) && keep(along[j]));
    let a = choose|a: int| 0 <= a < paths.len() && paths[a] == along[i];
    let b = choose|b: int| 0 <= b < paths.len() && paths[b] == along[j];
    assert(paths[a].key == along[i].key && paths[b].key == along[j].key);
}

/// Some path that joins the two was reported from the first one, no longer ago than path states last,
/// as one that reaches the second.
pub open spec fn reached_from(
    paths: Seq<PathRecordView>,
    first: Seq<char>,
    second: Seq<char>,
    now: Timestamp,
    ttl_seconds: u64,
) -> bool {
    exists|i: int|
        0 <= i < paths.len() && (#[trigger] paths[i]).key.local == first && paths[i].key.remote
            == second && now.at() <= paths[i].updated_at.at() + ttl_seconds * 1_000_000_000
            && paths[i].selected_state != PathState::Unreachable
}

/// Some path that joins the two, in either direction, was reported no longer ago than path states
/// last.
pub open spec fn reported_lately(
    paths: Seq<PathRecordView>,
    first: Seq<char>,
    second: Seq<char>,
    now: Timestamp,
    ttl_seconds: u64,
) -> bool {
    exists|i: int|
        0 <= i < paths.len() && joins(#[trigger] paths[i], first, second) && now.at()
            <= paths[i].updated_at.at() + ttl_seconds * 1_000_000_000
}

/// The status of an edge goes by what was reported on the paths between its ends. It is unknown where
/// nothing was reported, and stale where nothing was lately. It is connected where each end lately
/// reached the other one, partly so where only one did, and unreachable where neither did.
pub proof fn law_edges_are_as_reported(
    paths: Seq<PathRecordView>,
    first: Seq<char>,
    second: Seq<char>,
    now: Timestamp,
    ttl_seconds: u64,
)
    requires
        first != second,
    ensures
        ({
            let status = edge_status(paths_along(paths, first, second), now, ttl_seconds);
            let there = reached_from(paths, first, second, now, ttl_seconds);
            let back = reached_from(paths, second, first, now, ttl_seconds);
            let lately = reported_lately(paths, first, second, now, ttl_seconds);
            let ever = exists|i: int|
                0 <= i < paths.len() && joins(#[trigger] paths[i], first, second);
            &&& status == ControlPlaneTopologyEdgeStatus::Unknown <==> !ever
            &&& status == ControlPlaneTopologyEdgeStatus::Stale <==> ever && !lately
            &&& status == ControlPlaneTopologyEdgeStatus::Unreachable <==> lately && !there && !back
            &&& status == ControlPlaneTopologyEdgeStatus::Connected <==> there && back
            &&& status == ControlPlaneTopologyEdgeStatus::Partial <==> there != back
        }),
{
    let keep = |path: PathRecordView| joins(path, first, second);
    let along = paths_along(paths, first, second);
    crate::lists::lemma_kept_members(paths, keep);
    assert forall|i: int| 0 <= i < along.len() implies paths.contains(#[trigger] along[i]) && joins(
        along[i],
        first,
        second,
    ) by {
        assert(along.contains(along[i]));
        assert(keep(along[i]));
    }
    assert forall|i: int|
        0 <= i < paths.len() && joins(#[trigger] paths[i], first, second) implies along.contains(
        paths[i],
    ) by {
        assert(paths.contains(paths[i]) && keep(paths[i]));
    }
    let there = reached_from(paths, first, second, now, ttl_seconds);
    let back = reached_from(paths, second, first, now, ttl_seconds);
    if there {
        let i = choose|i: int|
            0 <= i < paths.len() && (#[trigger] paths[i]).key.local == first && paths[i].key.remote
                == second && now.at() <= paths[i].updated_at.at() + ttl_seconds * 1_000_000_000
                && paths[i].selected_state != PathState::Unreachable;
        assert(joins(paths[i], first, second));
        let k = choose|k: int| 0 <= k < along.len() && along[k] == paths[i];
        assert(reaches(along[k], now, ttl_seconds));
    }
    if back {
        let i = choose|i: int|
            0 <= i < paths.len() && (#[trigger] paths[i]).key.local == second && paths[i].key.remote
                == first && now.at() <= paths[i].updated_at.at() + ttl_seconds * 1_000_000_000
                && paths[i].selected_state != PathState::Unreachable;
        assert(joins(paths[i], first, second));
        let k = choose|k: int| 0 <= k < along.len() && along[k] == paths[i];
        assert(reaches(along[k], now, ttl_seconds));
    }
    assert forall|k: int|
        0 <= k < along.len() && reaches(#[trigger] along[k], now, ttl_seconds) implies (
    along[k].key.local == first && there) || (along[k].key.local == second && back) by {
        let i = choose|i: int| 0 <= i < paths.len() && paths[i] == along[k];
        assert(paths[i].key == along[k].key);
    }
    if reported_lately(paths, first, second, now, ttl_seconds) {
        let i = choose|i: int|
            0 <= i < paths.len() && joins(#[trigger] paths[i], first, second) && now.at()
                <= paths[i].updated_at.at() + ttl_seconds * 1_000_000_000;
        let k = choose|k: int| 0 <= k < along.len() && along[k] == paths[i];
        assert(fresh(along[k].updated_at, now, ttl_seconds));
    }
    assert forall|k: int|
        0 <= k < along.len() && fresh((#[trigger] along[k]).updated_at, now, ttl_seconds) implies reported_lately(
        paths,
        first,
        second,
        now,
        ttl_seconds,
    ) by {
        let i = choose|i: int| 0 <= i < paths.len() && paths[i] == along[k];
        assert(joins(paths[i], first, second));
    }
    if exists|i: int| 0 <= i < paths.len() && joins(#[trigger] paths[i], first, second) {
        let i = choose|i: int| 0 <= i < paths.len() && joins(#[trigger] paths[i], first, second);
        assert(along.contains(paths[i]));
    }
    if along.len() > 0 {
        assert(paths.contains(along[0]));
        let i = choose|i: int| 0 <= i < paths.len() && paths[i] == along[0];
        assert(joins(paths[i], first, second));
    }
    if there && back {
        let i = choose|i: int|
            0 <= i < paths.len() && (#[trigger] paths[i]).key.local == first && paths[i].key.remote
                == second && now.at() <= paths[i].updated_at.at() + ttl_seconds * 1_000_000_000
                && paths[i].selected_state != PathState::Unreachable;
        let j = choose|j: int|
            0 <= j < paths.len() && (#[trigger] paths[j]).key.local == second && paths[j].key.remote
                == first && now.at() <= paths[j].updated_at.at() + ttl_seconds * 1_000_000_000
                && paths[j].selected_state != PathState::Unreachable;
        assert(joins(paths[i], first, second) && joins(paths[j], first, second));
        let k = choose|k: int| 0 <= k < along.len() && along[k] == paths[i];
        let m = choose|m: int| 0 <= m < along.len() && along[m] == paths[j];
        assert(reaches(along[k], now, ttl_seconds) && reaches(along[m], now, ttl_seconds)
            && along[k].key.local != along[m].key.local);
    }
}

/// The states of an edge are those that some path has, and it was last observed when the latest of
/// its paths was reported.
pub proof fn law_states_and_last_report_are_of_the_paths(paths: Seq<PathRecordView>, n: nat)
    requires
        n <= paths.len(),
    ensures
        forall|state: PathState| #[trigger]
            states_seen(paths).contains(state) <==> exists|i: int|
                0 <= i < paths.len() && (#[trigger] paths[i]).selected_state == state,
        last_report(paths, n) is None <==> n == 0,
        last_report(paths, n) matches Some(last) ==> {
            &&& exists|i: int| 0 <= i < n && (#[trigger] paths[i]).updated_at == last
            &&& forall|i: int| 0 <= i < n ==> (#[trigger] paths[i]).updated_at.at() <= last.at()
        },
    decreases n,
{
    let keep = |state: PathState| state_occurs(paths, state, paths.len());
    crate::lists::lemma_kept_members(all_states(), keep);
    assert forall|state: PathState| #[trigger] states_seen(paths).contains(state) <==> exists|
        i: int,
    |
        0 <= i < paths.len() && (#[trigger] paths[i]).selected_state == state by {
        match state {
            PathState::DirectPublic => {
                assert(all_states()[0] == state);
            },
            PathState::DirectIpv6 => {
                assert(all_states()[1] == state);
            },
            PathState::DirectNatTraversal => {
                assert(all_states()[2] == state);
            },
            PathState::Relay => {
                assert(all_states()[3] == state);
            },
            PathState::Unreachable => {
                assert(all_states()[4] == state);
            },
        }
        assert(all_states().contains(state));
        assert(states_seen(paths).contains(state) <==> all_states().contains(state) && keep(state));
    }
    if n > 0 {
        law_states_and_last_report_are_of_the_paths(paths, (n - 1) as nat);
        let before = last_report(paths, (n - 1) as nat);
        if before is Some && paths[n - 1].updated_at.at() < before->0.at() {
            let i = choose|i: int| 0 <= i < n - 1 && (#[trigger] paths[i]).updated_at == before->0;
            assert(paths[i].updated_at == before->0);
        } else {
            assert(paths[n - 1].updated_at == last_report(paths, n)->0);
        }
    }
}

/// The leaf of a node is a leaf group that has it, and there is one exactly where some leaf group
/// has it.
pub proof fn law_leaf_has_the_node(
    groups: Seq<TopologyGroupView>,
    node_id: Seq<char>,
    n: nat,
)
    requires
        n <= groups.len(),
    ensures
        leaf_of(groups, node_id, n) is Some <==> exists|i: int|
            0 <= i < n && (#[trigger] groups[i]).leaf && groups[i].node_ids.contains(node_id),
        leaf_of(groups, node_id, n) matches Some(id) ==> exists|i: int|
            0 <= i < n && (#[trigger] groups[i]).leaf && groups[i].node_ids.contains(node_id)
                && groups[i].group_id == id,
    decreases n,
{
    if n > 0 {
        law_leaf_has_the_node(groups, node_id, (n - 1) as nat);
        if groups[n - 1].leaf && groups[n - 1].node_ids.contains(node_id) {
            assert(groups[n - 1].group_id == leaf_of(groups, node_id, n)->0);
        } else if leaf_of(groups, node_id, (n - 1) as nat) is Some {
            let i = choose|i: int|
                0 <= i < n - 1 && (#[trigger] groups[i]).leaf && groups[i].node_ids.contains(
                    node_id,
                ) && groups[i].group_id == leaf_of(groups, node_id, (n - 1) as nat)->0;
            assert(groups[i].leaf);
        }
    }
}

/// A node represents a group in a plane.
pub open spec fn represents(
    groups: Seq<TopologyGroupView>,
    node_id: Seq<char>,
    n: nat,
    duty: ControlPlaneTopologyRepresentativeAssignmentView,
) -> bool {
    exists|g: int, r: int|
        0 <= g < n && 0 <= r < groups[g].representatives.len() && (
        #[trigger] groups[g].representatives[r]).node_id == node_id && duty.group_id
            == groups[g].group_id && duty.depth == groups[g].depth && duty.plane
            == groups[g].representatives[r].plane as u8
}

proof fn lemma_group_duties(
    group: TopologyGroupView,
    node_id: Seq<char>,
    m: nat,
    duty: ControlPlaneTopologyRepresentativeAssignmentView,
)
    requires
        m <= group.representatives.len(),
    ensures
        group_duties(group, node_id, m).contains(duty) <==> exists|r: int|
            0 <= r < m && (#[trigger] group.representatives[r]).node_id == node_id && duty.group_id
                == group.group_id && duty.depth == group.depth && duty.plane
                == group.representatives[r].plane as u8,
    decreases m,
{
    if m > 0 {
        lemma_group_duties(group, node_id, (m - 1) as nat, duty);
        let before = group_duties(group, node_id, (m - 1) as nat);
        let all = group_duties(group, node_id, m);
        if all.contains(duty) {
            let k = choose|k: int| 0 <= k < all.len() && all[k] == duty;
            if k < before.len() {
                assert(before[k] == duty);
                assert(before.contains(duty));
                let r = choose|r: int|
                    0 <= r < m - 1 && (#[trigger] group.representatives[r]).node_id == node_id
                        && duty.group_id == group.group_id && duty.depth == group.depth
                        && duty.plane == group.representatives[r].plane as u8;
                assert(group.representatives[r].node_id == node_id);
            } else {
                assert(group.representatives[m - 1].node_id == node_id);
            }
        }
        if exists|r: int|
            0 <= r < m && (#[trigger] group.representatives[r]).node_id == node_id && duty.group_id
                == group.group_id && duty.depth == group.depth && duty.plane
                == group.representatives[r].plane as u8 {
            let r = choose|r: int|
                0 <= r < m && (#[trigger] group.representatives[r]).node_id == node_id
                    && duty.group_id == group.group_id && duty.depth == group.depth && duty.plane
                    == group.representatives[r].plane as u8;
            if r < m - 1 {
                assert(group.representatives[r].node_id == node_id);
                assert(before.contains(duty));
                let k = choose|k: int| 0 <= k < before.len() && before[k] == duty;
                assert(all[k] == duty);
            } else {
                assert(duty =~= duty_of(group, group.representatives[m - 1]));
                assert(all[before.len() as int] == duty);
            }
        }
    }
}

proof fn lemma_all_duties(
    groups: Seq<TopologyGroupView>,
    node_id: Seq<char>,
    n: nat,
    duty: ControlPlaneTopologyRepresentativeAssignmentView,
)
    requires
        n <= groups.len(),
    ensures
        all_duties(groups, node_id, n).contains(duty) <==> represents(groups, node_id, n, duty),
    decreases n,
{
    if n > 0 {
        let m = (n - 1) as nat;
        lemma_all_duties(groups, node_id, m, duty);
        let last = groups[n - 1];
        let before = all_duties(groups, node_id, m);
        let own = group_duties(last, node_id, last.representatives.len());
        lemma_group_duties(last, node_id, last.representatives.len(), duty);
        let all = before + own;
        assert(all.contains(duty) <==> before.contains(duty) || own.contains(duty)) by {
            if before.contains(duty) {
                let k = choose|k: int| 0 <= k < before.len() && before[k] == duty;
                assert(all[k] == duty);
            }
            if own.contains(duty) {
                let k = choose|k: int| 0 <= k < own.len() && own[k] == duty;
                assert(all[before.len() + k] == duty);
            }
        }
        if before.contains(duty) {
            let (g, r) = choose|g: int, r: int|
                0 <= g < m && 0 <= r < groups[g].representatives.len() && (
                #[trigger] groups[g].representatives[r]).node_id == node_id && duty.group_id
                    == groups[g].group_id && duty.depth == groups[g].depth && duty.plane
                    == groups[g].representatives[r].plane as u8;
            assert(groups[g].representatives[r].node_id == node_id);
        }
        if own.contains(duty) {
            let r = choose|r: int|
                0 <= r < last.representatives.len() && (#[trigger] last.representatives[r]).node_id
                    == node_id && duty.group_id == last.group_id && duty.depth == last.depth
                    && duty.plane == last.representatives[r].plane as u8;
            assert(groups[n - 1].representatives[r].node_id == node_id);
        }
        if represents(groups, node_id, n, duty) {
            let (g, r) = choose|g: int, r: int|
                0 <= g < n && 0 <= r < groups[g].representatives.len() && (
                #[trigger] groups[g].representatives[r]).node_id == node_id && duty.group_id
                    == groups[g].group_id && duty.depth == groups[g].depth && duty.plane
                    == groups[g].representatives[r].plane as u8;
            if g < m {
                assert(groups[g].representatives[r].node_id == node_id);
                assert(represents(groups, node_id, m, duty));
            } else {
                assert(last.representatives[r].node_id == node_id);
            }
        }
    }
}

/// The duties of a node are exactly those that the groups give it as a representative, with groups
/// nearer to the root first.
pub proof fn law_duties_are_of_the_representatives(
    groups: Seq<TopologyGroupView>,
    node_id: Seq<char>,
)
    ensures
        forall|duty: ControlPlaneTopologyRepresentativeAssignmentView| #[trigger]
            duties_of(groups, node_id).contains(duty) <==> represents(
                groups,
                node_id,
                groups.len(),
                duty,
            ),
        forall|i: int, j: int|
            0 <= i < j < duties_of(groups, node_id).len() ==> (
            #[trigger] duties_of(groups, node_id)[i]).depth <= (
            #[trigger] duties_of(groups, node_id)[j]).depth,
{
    let all = all_duties(groups, node_id, groups.len());
    let key = |duty: ControlPlaneTopologyRepresentativeAssignmentView| duty_key(duty);
    crate::order::lemma_sorted_by(all, key);
    let sorted = duties_of(groups, node_id);
    assert forall|duty: ControlPlaneTopologyRepresentativeAssignmentView| #[trigger]
        sorted.contains(duty) <==> represents(groups, node_id, groups.len(), duty) by {
        lemma_all_duties(groups, node_id, groups.len(), duty);
    }
    assert forall|i: int, j: int| 0 <= i < j < sorted.len() implies (#[trigger] sorted[i]).depth
        <= (#[trigger] sorted[j]).depth by {
        assert(!crate::order::key_lt(key(sorted[j]), key(sorted[i])));
    }
}

/// A group is shown as it is: with its parent, its children, its nodes, and its representatives, of
/// which those in the first plane are the primary ones.
pub proof fn law_groups_are_shown_as_they_are(group: TopologyGroupView)
    ensures
        shown_group(group).group_id == group.group_id,
        shown_group(group).depth == group.depth,
        shown_group(group).parent_group_id == group.parent_group_id,
        shown_group(group).child_group_ids == group.child_group_ids,
        shown_group(group).node_ids == group.node_ids,
        shown_group(group).leaf == group.leaf,
        shown_group(group).representatives.len() == group.representatives.len(),
        forall|i: int|
            0 <= i < group.representatives.len() ==> {
                let shown = #[trigger] shown_group(group).representatives[i];
                &&& shown.node_id == group.representatives[i].node_id
                &&& group.representatives[i].plane <= 255 ==> shown.plane
                    == group.representatives[i].plane
                &&& group.representatives[i].plane == 0 ==> shown.role == "primary"@
                &&& group.representatives[i].plane != 0 ==> shown.role == "secondary"@
            },
{
}

/// An edge is shown with its ends and with each of its places in the hierarchy: cycles of leaves as
/// such, and links of the hierarchy as cycles of siblings.
pub proof fn law_edges_are_shown_in_their_places(
    edge: PlacedEdgeView,
    paths: Seq<PathRecordView>,
    now: Timestamp,
    ttl_seconds: u64,
)
    ensures
        ({
            let shown = shown_edge(edge, paths, now, ttl_seconds);
            let along = paths_along(paths, edge.first, edge.second);
            &&& shown.source == edge.first
            &&& shown.target == edge.second
            &&& shown.placements.len() == edge.placements.len()
            &&& forall|i: int|
                0 <= i < edge.placements.len() ==> {
                    let place = #[trigger] shown.placements[i];
                    &&& place.group_id == edge.placements[i].group_id
                    &&& place.depth == edge.placements[i].level
                    &&& edge.placements[i].plane <= 255 ==> place.plane == edge.placements[i].plane
                    &&& place.kind == ControlPlaneTopologyEdgeKind::LeafCycle
                        <==> edge.placements[i].kind == TopologyEdgeKind::LeafCycle
                    &&& place.kind == ControlPlaneTopologyEdgeKind::SiblingCycle
                        <==> edge.placements[i].kind == TopologyEdgeKind::HierarchyLink
                }
            &&& shown.observed_status == edge_status(along, now, ttl_seconds)
            &&& shown.path_states == states_seen(along)
            &&& shown.last_observed_at == last_report(along, along.len())
        }),
{
}

/// A node is shown as it is registered, with its number of edges. It is shown as unhealthy where it
/// said so or was not heard of for too long, and else in the state that it reported, if it did.
pub proof fn law_nodes_are_shown_in_their_state(
    nodes: Seq<NodeRecordView>,
    i: int,
    groups: Seq<TopologyGroupView>,
    degrees: Map<Seq<Seq<char>>, usize>,
    health: Map<Seq<Seq<char>>, NodeHealthView>,
    policy: ClusterPolicyView,
    now: Timestamp,
)
    ensures
        ({
            let node = nodes[i];
            let key = seq![node.node_id];
            let known = health.dom().contains(key);
            let heard = if known {
                health[key].last_seen_at
            } else {
                node.registered_at
            };
            let silent = now.at() > heard.at() + policy.relay_health_ttl_seconds * 1_000_000_000;
            let shown = shown_node(nodes, i, groups, degrees, health, policy, now);
            &&& shown.node_id == node.node_id
            &&& shown.hostname == node.hostname
            &&& shown.vpn_ip == node.vpn_ip
            &&& shown.role == node.role
            &&& shown.tags == node.tags
            &&& shown.degree == if degrees.dom().contains(key) {
                degrees[key]
            } else {
                0
            }
            &&& silent ==> shown.health_state == Some(HealthState::Unhealthy)
            &&& !silent && known ==> shown.health_state == Some(health[key].state)
            &&& !silent && !known ==> shown.health_state is None
            &&& shown.last_seen_at == if known {
                Some(health[key].last_seen_at)
            } else {
                None
            }
        }),
{
}

/// The root is a group without a parent, if there is one, and the hierarchy has one level more than
/// its deepest group is deep.
pub proof fn law_levels_reach_the_deepest_group(groups: Seq<TopologyGroupView>, n: nat)
    requires
        n <= groups.len(),
    ensures
        root_of(groups, n) is None <==> forall|i: int|
            0 <= i < n ==> (#[trigger] groups[i]).parent_group_id is Some,
        root_of(groups, n) matches Some(id) ==> exists|i: int|
            0 <= i < n && (#[trigger] groups[i]).parent_group_id is None && groups[i].group_id
                == id,
        forall|i: int| 0 <= i < n ==> (#[trigger] groups[i]).depth < levels(groups, n),
        n > 0 ==> exists|i: int|
            0 <= i < n && (#[trigger] groups[i]).depth + 1 == levels(groups, n),
        n == 0 ==> levels(groups, n) == 0,
    decreases n,
{
    let f = |i: int|
        if groups[i].parent_group_id is None {
            Some(groups[i].group_id)
        } else {
            None
        };
    crate::lists::lemma_first_in_none(n, f);
    if root_of(groups, n) is None {
        assert forall|i: int| 0 <= i < n implies (
        #[trigger] groups[i]).parent_group_id is Some by {
            assert(f(i) is None);
        }
    } else {
        let i = crate::lists::lemma_first_in_found(n, f);
        assert(groups[i].parent_group_id is None);
    }
    if n > 0 {
        law_levels_reach_the_deepest_group(groups, (n - 1) as nat);
        let before = levels(groups, (n - 1) as nat);
        if groups[n - 1].depth + 1 > before {
            assert(groups[n - 1].depth + 1 == levels(groups, n));
        } else if n > 1 {
            let i = choose|i: int| 0 <= i < n - 1 && (#[trigger] groups[i]).depth + 1 == before;
            assert(groups[i].depth + 1 == levels(groups, n));
        }
    }
}

/// The hierarchy is shown exactly where its planes can be, and where each node is in a leaf from which
/// the parents lead up to a root.
pub proof fn law_placed_nodes_are_shown(
    groups: Seq<TopologyGroupView>,
    edges: Seq<PlacedEdgeView>,
    nodes: Seq<NodeRecordView>,
)
    ensures
        topology_refusal(groups, edges, nodes) is None <==> {
            &&& planes_fit(groups)
            &&& all_edge_planes_fit(edges)
            &&& forall|i: int|
                0 <= i < nodes.len() ==> (leaf_of(
                    groups,
                    (#[trigger] nodes[i]).node_id,
                    groups.len(),
                ) matches Some(leaf) && line_to(groups, leaf) is Ok)
        },
{
    let ordered = nodes_by_id(nodes);
    let f = |i: int| node_fault(groups, ordered[i].node_id);
    crate::lists::lemma_first_in_none(ordered.len(), f);
    crate::order::lemma_sorted_by(nodes, |node: NodeRecordView| text_key(node.node_id));
    let sound = |node: NodeRecordView|
        leaf_of(groups, node.node_id, groups.len()) matches Some(leaf) && line_to(
            groups,
            leaf,
        ) is Ok;
    if first_in(ordered.len(), f) is None {
        assert forall|i: int| 0 <= i < nodes.len() implies (leaf_of(
            groups,
            (#[trigger] nodes[i]).node_id,
            groups.len(),
        ) matches Some(leaf) && line_to(groups, leaf) is Ok) by {
            assert(nodes.contains(nodes[i]));
            assert(ordered.contains(nodes[i]));
            let k = choose|k: int| 0 <= k < ordered.len() && ordered[k] == nodes[i];
            assert(f(k) is None);
        }
    }
    if forall|i: int|
        0 <= i < nodes.len() ==> (leaf_of(
            groups,
            (#[trigger] nodes[i]).node_id,
            groups.len(),
        ) matches Some(leaf) && line_to(groups, leaf) is Ok) {
        assert forall|k: int| 0 <= k < ordered.len() implies (#[trigger] f(k)) is None by {
            assert(ordered.contains(ordered[k]));
            assert(nodes.contains(ordered[k]));
            let i = choose|i: int| 0 <= i < nodes.len() && nodes[i] == ordered[k];
            assert(nodes[i].node_id == ordered[k].node_id);
        }
    }
}

} // verus!
